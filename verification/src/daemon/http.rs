//! The HTTP messages that carry requests and replies.

use crate::errors::{Error, ErrorView};
use crate::text::{
    decimal, law_decimal_read_back, parse_usize, parsed_usize, quote, quoted, same_text, u64_text,
    usize_error, usize_error_text,
};
use vstd::prelude::*;
use vstd::utf8::*;

verus! {

/// The character that stands for six bits.
pub open spec fn base64_digit(n: int) -> char {
    if n < 26 {
        (n + 'A' as int) as char
    } else if n < 52 {
        (n - 26 + 'a' as int) as char
    } else if n < 62 {
        (n - 52 + '0' as int) as char
    } else if n == 62 {
        '+'
    } else {
        '/'
    }
}

/// The bytes in base 64, four characters for each three bytes, the last of them padded.
pub open spec fn base64_text(bytes: Seq<u8>) -> Seq<char>
    decreases bytes.len(),
{
    let (a, b, c) = (bytes[0] as int, bytes[1] as int, bytes[2] as int);
    if bytes.len() == 0 {
        Seq::empty()
    } else if bytes.len() == 1 {
        seq![base64_digit(a / 4), base64_digit(a % 4 * 16), '=', '=']
    } else if bytes.len() == 2 {
        seq![
            base64_digit(a / 4),
            base64_digit(a % 4 * 16 + b / 16),
            base64_digit(b % 16 * 4),
            '=',
        ]
    } else {
        seq![
            base64_digit(a / 4),
            base64_digit(a % 4 * 16 + b / 16),
            base64_digit(b % 16 * 4 + c / 64),
            base64_digit(c % 64),
        ] + base64_text(bytes.skip(3))
    }
}

/// `base64::encode`: the standard alphabet, with padding. The crate panics where the text
/// would be too long to hold.
#[verifier::external_body]
fn base64_encode(bytes: &[u8]) -> (text: String)
    requires
        bytes@.len() / 3 * 4 + 4 <= isize::MAX,
    ensures
        text@ == base64_text(bytes@),
{
    base64::encode(bytes)
}

/// The message that carries a request.
pub open spec fn http_request(cookie: Seq<u8>, request: Seq<char>) -> Seq<char> {
    "POST / HTTP/1.1\nAuthorization: Basic "@ + base64_text(cookie) + "\nContent-Length: "@
        + decimal(encode_utf8(request).len() as int) + "\n\n"@ + request
}

/// The message that carries a request, for the user that the cookie names.
pub fn request_message(cookie: &[u8], request: &str) -> (message: String)
    requires
        cookie@.len() / 3 * 4 + 4 <= isize::MAX,
    ensures
        message@ == http_request(cookie@, request@),
{
    String::from_str("POST / HTTP/1.1\nAuthorization: Basic ").concat(
        &base64_encode(cookie),
    ).concat("\nContent-Length: ").concat(&u64_text(request.as_bytes().len() as u64)).concat("\n\n").concat(
        request,
    )
}

/// The first place from `i` on at which a header line is divided.
pub open spec fn divided_at(line: Seq<char>, i: int) -> Option<int>
    decreases line.len() - i,
{
    if i + 1 >= line.len() {
        None
    } else if line[i] == ':' && line[i + 1] == ' ' {
        Some(i)
    } else {
        divided_at(line, i + 1)
    }
}

/// The name and the value of a header line: none if it is not divided.
pub open spec fn header_fields(line: Seq<char>) -> Option<(Seq<char>, Seq<char>)> {
    match divided_at(line, 0) {
        Some(i) => Some((line.take(i), line.skip(i + 2))),
        None => None,
    }
}

/// The place of a header.
pub open spec fn header_place(headers: Seq<(Seq<char>, Seq<char>)>, name: Seq<char>) -> Option<int>
    decreases headers.len(),
{
    if headers.len() == 0 {
        None
    } else if headers.last().0 == name {
        Some(headers.len() - 1)
    } else {
        header_place(headers.drop_last(), name)
    }
}

pub(crate) proof fn lemma_header_place(headers: Seq<(Seq<char>, Seq<char>)>, name: Seq<char>)
    ensures
        match header_place(headers, name) {
            Some(i) => 0 <= i < headers.len() && headers[i].0 == name,
            None => forall|i: int| 0 <= i < headers.len() ==> (#[trigger] headers[i]).0 != name,
        },
    decreases headers.len(),
{
    if headers.len() > 0 && headers.last().0 != name {
        lemma_header_place(headers.drop_last(), name);
        assert forall|i: int| 0 <= i < headers.len() - 1 implies headers.drop_last()[i]
            == #[trigger] headers[i] by {}
    }
}

/// The headers with one more, in place of one with the same name.
pub open spec fn with_header(
    headers: Seq<(Seq<char>, Seq<char>)>,
    name: Seq<char>,
    value: Seq<char>,
) -> Seq<(Seq<char>, Seq<char>)> {
    match header_place(headers, name) {
        Some(i) => headers.update(i, (name, value)),
        None => headers.push((name, value)),
    }
}

/// The value of a header.
pub open spec fn header_value(headers: Seq<(Seq<char>, Seq<char>)>, name: Seq<char>) -> Option<
    Seq<char>,
> {
    match header_place(headers, name) {
        Some(i) => Some(headers[i].1),
        None => None,
    }
}

/// The headers one after the other, as they are shown in an error.
pub open spec fn shown_fields(headers: Seq<(Seq<char>, Seq<char>)>) -> Seq<char>
    decreases headers.len(),
{
    if headers.len() == 0 {
        Seq::empty()
    } else {
        let (name, value) = headers.last();
        let field = quoted(name) + ": "@ + quoted(value);
        if headers.len() == 1 {
            field
        } else {
            shown_fields(headers.drop_last()) + ", "@ + field
        }
    }
}

/// The headers as they are shown in an error.
pub open spec fn shown_headers(headers: Seq<(Seq<char>, Seq<char>)>) -> Seq<char> {
    "{"@ + shown_fields(headers) + "}"@
}

/// What has been read of a reply.
#[verifier::ext_equal]
pub struct ReplyView {
    /// The first line.
    pub status: Seq<char>,
    /// Whether no empty line has come yet.
    pub in_header: bool,
    /// The headers, each name once.
    pub headers: Seq<(Seq<char>, Seq<char>)>,
    /// The first line behind the headers.
    pub contents: Option<Seq<char>>,
}

impl ReplyView {
    /// A reply of which the status line has been read.
    pub open spec fn begun(status: Seq<char>) -> ReplyView {
        ReplyView { status, in_header: true, headers: Seq::empty(), contents: None }
    }

    /// The reply after one more line.
    pub open spec fn after(self, line: Seq<char>) -> ReplyView {
        if line.len() == 0 {
            ReplyView { in_header: false, ..self }
        } else if self.in_header {
            match header_fields(line) {
                Some((name, value)) => ReplyView {
                    headers: with_header(self.headers, name, value),
                    ..self
                },
                None => self,
            }
        } else {
            ReplyView { contents: Some(line), ..self }
        }
    }

    /// The reply after some more lines, none of which is read behind the contents.
    pub open spec fn after_all(self, lines: Seq<Seq<char>>) -> ReplyView
        decreases lines.len(),
    {
        if lines.len() == 0 || self.contents is Some {
            self
        } else {
            self.after(lines[0]).after_all(lines.skip(1))
        }
    }

    /// What the reply carries, once it is read to the contents or to the end.
    pub open spec fn carried(self) -> Result<Seq<char>, ErrorView> {
        match self.contents {
            None => Err(ErrorView::Connection("no reply from daemon"@)),
            Some(contents) => match header_value(self.headers, "Content-Length"@) {
                None => Err(
                    ErrorView::Message("Content-Length is missing: "@ + shown_headers(self.headers)),
                ),
                Some(length) => match parsed_usize(length) {
                    None => Err(
                        ErrorView::caused_by(
                            "invalid Content-Length: "@ + quoted(length),
                            usize_error(length),
                        ),
                    ),
                    Some(length) => self.checked(contents, length),
                },
            },
        }
    }

    /// The contents, if they and the end of their line have the given length and the status is
    /// one of those with which the daemon answers requests.
    pub open spec fn checked(self, contents: Seq<char>, length: nat) -> Result<
        Seq<char>,
        ErrorView,
    > {
        if length != encode_utf8(contents).len() + 1 {
            Err(
                ErrorView::Connection(
                    "expected "@ + decimal(without_line_end(length)) + " bytes, got "@ + decimal(
                        encode_utf8(contents).len() as int,
                    ),
                ),
            )
        } else if self.status == "HTTP/1.1 200 OK"@ || self.status
            == "HTTP/1.1 500 Internal Server Error"@ {
            Ok(contents)
        } else {
            Err(
                ErrorView::Message(
                    "request failed "@ + quoted(self.status) + ": "@ + shown_headers(self.headers)
                        + " = "@ + quoted(contents),
                ),
            )
        }
    }
}

/// The length of the contents without the end of their line; nothing is left of no length.
pub open spec fn without_line_end(length: nat) -> int {
    if length == 0 {
        0
    } else {
        length - 1
    }
}

/// A reply that is being read.
pub struct Reply {
    status: String,
    in_header: bool,
    headers: Vec<(String, String)>,
    contents: Option<String>,
}

/// The names and values of headers.
pub open spec fn header_views(headers: Seq<(String, String)>) -> Seq<(Seq<char>, Seq<char>)> {
    headers.map_values(|header: (String, String)| (header.0@, header.1@))
}

impl View for Reply {
    type V = ReplyView;

    closed spec fn view(&self) -> ReplyView {
        ReplyView {
            status: self.status@,
            in_header: self.in_header,
            headers: header_views(self.headers@),
            contents: match self.contents {
                Some(contents) => Some(contents@),
                None => None,
            },
        }
    }
}

/// The place of a header.
fn find_header(headers: &Vec<(String, String)>, name: &str) -> (place: Option<usize>)
    ensures
        match place {
            Some(i) => header_place(header_views(headers@), name@) == Some(i as int) && i
                < headers.len(),
            None => header_place(header_views(headers@), name@) is None,
        },
{
    let ghost all = header_views(headers@);
    let mut i: usize = headers.len();
    assert(all.take(i as int) =~= all);
    while i > 0
        invariant
            i <= headers.len(),
            all == header_views(headers@),
            header_place(all, name@) == header_place(all.take(i as int), name@),
        decreases i,
    {
        assert(all.take(i as int).drop_last() =~= all.take(i - 1));
        assert(all[i - 1] == (headers[i - 1].0@, headers[i - 1].1@));
        if same_text(headers[i - 1].0.as_str(), name) {
            return Some(i - 1);
        }
        i -= 1;
    }
    None
}

/// The headers as they are shown in an error.
fn show_headers(headers: &Vec<(String, String)>) -> (text: String)
    ensures
        text@ == shown_headers(header_views(headers@)),
{
    let ghost all = header_views(headers@);
    let mut text = String::new();
    assert(all.take(0) =~= Seq::empty());
    for i in 0..headers.len()
        invariant
            all == header_views(headers@),
            text@ == shown_fields(all.take(i as int)),
    {
        assert(all.take(i + 1).drop_last() =~= all.take(i as int));
        assert(all[i as int] == (headers[i as int].0@, headers[i as int].1@));
        if i > 0 {
            text.append(", ");
        } else {
            assert(text@ =~= Seq::empty());
        }
        let ghost before = text@;
        let field = quote(headers[i].0.as_str()).concat(": ").concat(&quote(headers[i].1.as_str()));
        text.append(field.as_str());
        assert(i == 0 ==> before + field@ =~= field@);
    }
    assert(all.take(all.len() as int) =~= all);
    String::from_str("{").concat(&text).concat("}")
}

/// The name and the value of a header line: none if it is not divided.
fn split_header(line: &str) -> (fields: Option<(String, String)>)
    ensures
        match fields {
            Some((name, value)) => header_fields(line@) == Some((name@, value@)),
            None => header_fields(line@) is None,
        },
{
    let len: usize = line.unicode_len();
    let mut i: usize = 0;
    while i < len && i + 1 < len
        invariant
            i <= len,
            len == line@.len(),
            divided_at(line@, 0) == divided_at(line@, i as int),
        decreases len - i,
    {
        if line.get_char(i) == ':' && line.get_char(i + 1) == ' ' {
            let name = line.substring_char(0, i).to_owned();
            let value = line.substring_char(i + 2, len).to_owned();
            assert(name@ =~= line@.take(i as int));
            assert(value@ =~= line@.skip(i + 2));
            return Some((name, value));
        }
        i += 1;
    }
    None
}

impl Reply {
    /// The error of a connection that ended before the status line.
    pub fn disconnected() -> (error: Error)
        ensures
            error@ == ErrorView::Connection("disconnected from daemon while receiving"@),
    {
        Error::connection("disconnected from daemon while receiving")
    }

    /// The error of a status line that cannot be read, for what `cause` says.
    pub fn unreadable_status(cause: String) -> (error: Error)
        ensures
            error@ == ErrorView::caused_by("failed to read status"@, cause@),
    {
        Error::caused_by("failed to read status", cause)
    }

    /// The error of a later line that cannot be read, for what `cause` says.
    pub fn unreadable_line(cause: String) -> (error: Error)
        ensures
            error@ == ErrorView::ConnectionCaused(
                "failed to read"@,
                Box::new(ErrorView::Message(cause@)),
            ),
    {
        Error::connection_caused("failed to read", Error::Message(cause))
    }

    /// A reply of which the status line has been read.
    pub fn new(status: String) -> (reply: Reply)
        ensures
            reply@ == ReplyView::begun(status@),
    {
        let reply = Reply { status, in_header: true, headers: Vec::new(), contents: None };
        assert(reply@.headers =~= Seq::empty());
        reply
    }

    /// Takes one more line, and says whether the contents have come, behind which nothing is
    /// read.
    pub fn line(&mut self, line: String) -> (done: bool)
        ensures
            final(self)@ == old(self)@.after(line@),
            done == (final(self)@.contents is Some),
    {
        if line.as_str().unicode_len() == 0 {
            self.in_header = false;
            assert(self@ =~= old(self)@.after(line@));
        } else if self.in_header {
            if let Some((name, value)) = split_header(line.as_str()) {
                let ghost before = header_views(self.headers@);
                proof {
                    lemma_header_place(before, name@);
                }
                match find_header(&self.headers, name.as_str()) {
                    Some(i) => {
                        self.headers.set(i, (name, value));
                        assert(header_views(self.headers@) =~= before.update(
                            i as int,
                            (name@, value@),
                        ));
                    },
                    None => {
                        self.headers.push((name, value));
                        assert(header_views(self.headers@) =~= before.push((name@, value@)));
                    },
                }
            }
        } else {
            self.contents = Some(line);
        }
        self.contents.is_some()
    }

    /// What the reply carries, once it is read to the contents or to the end.
    pub fn finish(self) -> (contents: Result<String, Error>)
        ensures
            match contents {
                Ok(contents) => self@.carried() == Ok::<Seq<char>, ErrorView>(contents@),
                Err(error) => self@.carried() == Err::<Seq<char>, ErrorView>(error@),
            },
    {
        let contents = match self.contents {
            Some(contents) => contents,
            None => {
                return Err(Error::connection("no reply from daemon"));
            },
        };
        proof {
            lemma_header_place(header_views(self.headers@), "Content-Length"@);
        }
        let place: usize = match find_header(&self.headers, "Content-Length") {
            Some(place) => place,
            None => {
                let text = String::from_str("Content-Length is missing: ").concat(
                    &show_headers(&self.headers),
                );
                return Err(Error::Message(text));
            },
        };
        let length = self.headers[place].1.as_str();
        let length: usize = match parse_usize(length) {
            Some(length) => length,
            None => {
                let text = String::from_str("invalid Content-Length: ").concat(&quote(length));
                return Err(Error::caused_by(text.as_str(), usize_error_text(length)));
            },
        };
        let got: usize = contents.as_str().as_bytes().len();
        if length == 0 || length - 1 != got {
            let expected: usize = if length == 0 {
                0
            } else {
                length - 1
            };
            let text = String::from_str("expected ").concat(&u64_text(expected as u64)).concat(
                " bytes, got ",
            ).concat(&u64_text(got as u64));
            return Err(Error::Connection(text));
        }
        if same_text(self.status.as_str(), "HTTP/1.1 200 OK") || same_text(
            self.status.as_str(),
            "HTTP/1.1 500 Internal Server Error",
        ) {
            Ok(contents)
        } else {
            let text = String::from_str("request failed ").concat(
                &quote(self.status.as_str()),
            ).concat(": ").concat(&show_headers(&self.headers)).concat(" = ").concat(
                &quote(contents.as_str()),
            );
            Err(Error::Message(text))
        }
    }
}

/// The line of a header is divided into its name and its value.
proof fn lemma_content_length_line(value: Seq<char>)
    ensures
        header_fields("Content-Length: "@ + value) == Some(("Content-Length"@, value)),
        ("Content-Length: "@ + value).len() > 0,
{
    reveal_strlit("Content-Length: ");
    reveal_strlit("Content-Length");
    let line = "Content-Length: "@ + value;
    assert(line[14] == ':' && line[15] == ' ');
    reveal_with_fuel(divided_at, 16);
    assert(divided_at(line, 0) == Some(14int));
    assert(line.take(14) =~= "Content-Length"@);
    assert(line.skip(16) =~= value);
}

/// A reply with the status of an answer, the length of its contents and of the end of their
/// line, an empty line and the contents carries these contents.
pub proof fn law_reply_carries_contents(status: Seq<char>, contents: Seq<char>)
    requires
        status == "HTTP/1.1 200 OK"@ || status == "HTTP/1.1 500 Internal Server Error"@,
        contents.len() > 0,
        encode_utf8(contents).len() < usize::MAX,
    ensures
        ReplyView::begun(status).after_all(
            seq![
                "Content-Length: "@ + decimal(1 + encode_utf8(contents).len() as int),
                Seq::empty(),
                contents,
            ],
        ).carried() == Ok::<Seq<char>, ErrorView>(contents),
{
    let length = encode_utf8(contents).len() + 1;
    let value = decimal(length as int);
    let line = "Content-Length: "@ + value;
    let lines = seq![line, Seq::empty(), contents];
    law_decimal_read_back(length);
    lemma_content_length_line(value);
    let start = ReplyView::begun(status);
    let named = start.after(line);
    let ended = named.after(Seq::empty());
    let full = ended.after(contents);
    assert(named.headers =~= seq![("Content-Length"@, value)]) by {
        assert(header_place(Seq::empty(), "Content-Length"@) is None);
    }
    assert(lines.skip(1) =~= seq![Seq::empty(), contents]);
    assert(lines.skip(1).skip(1) =~= seq![contents]);
    assert(lines.skip(1).skip(1).skip(1) =~= Seq::empty());
    assert(full.after_all(Seq::empty()) == full);
    assert(ended.after_all(seq![contents]) == full);
    assert(named.after_all(lines.skip(1)) == full);
    assert(start.after_all(lines) == full);
    assert(full.headers.last() == ("Content-Length"@, value));
    assert(header_value(full.headers, "Content-Length"@) == Some(value));
}

} // verus!
