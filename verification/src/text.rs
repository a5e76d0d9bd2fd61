//! Decimal text and ASCII strings.

use crate::hashes::same_bytes;
use vstd::prelude::*;
use vstd::utf8::*;

verus! {

/// The decimal digits of `n`.
pub open spec fn digits(n: nat) -> Seq<char>
    decreases n,
{
    if n < 10 {
        seq![(n + '0' as nat) as char]
    } else {
        digits(n / 10) + seq![(n % 10 + '0' as nat) as char]
    }
}

/// `n` in decimal, with a minus sign before a negative number.
pub open spec fn decimal(n: int) -> Seq<char> {
    if n < 0 {
        seq!['-'] + digits((-n) as nat)
    } else {
        digits(n as nat)
    }
}

/// Decimal text is ASCII, and a number below ten to the power of `len` has at most `len`
/// digits.
pub proof fn lemma_digits(n: nat, len: nat)
    requires
        len > 0,
        n < vstd::arithmetic::power::pow(10, len),
    ensures
        is_ascii_chars(digits(n)),
        0 < digits(n).len() <= len,
    decreases n,
{
    reveal(vstd::arithmetic::power::pow);
    if n >= 10 {
        assert(vstd::arithmetic::power::pow(10, 0) == 1);
        assert(len > 1);
        assert(vstd::arithmetic::power::pow(10, len) == 10 * vstd::arithmetic::power::pow(10, (len - 1) as nat));
        lemma_digits(n / 10, (len - 1) as nat);
    }
}

/// The text of a 64-bit number is ASCII and at most 20 characters long.
pub proof fn lemma_decimal(n: i64)
    ensures
        is_ascii_chars(decimal(n as int)),
        decimal(n as int).len() <= 20,
{
    reveal_with_fuel(vstd::arithmetic::power::pow, 20);
    if n < 0 {
        lemma_digits((-n) as nat, 19);
    } else {
        lemma_digits(n as nat, 19);
    }
}

/// ASCII text takes one byte for each character.
pub proof fn lemma_ascii_len(text: Seq<char>)
    requires
        is_ascii_chars(text),
    ensures
        encode_utf8(text).len() == text.len(),
{
    is_ascii_chars_encode_utf8(text);
}

/// A decimal digit.
fn digit_text(n: u64) -> (text: &'static str)
    requires
        n < 10,
    ensures
        text@ == seq![(n + '0' as nat) as char],
{
    proof {
        reveal_strlit("0");
        reveal_strlit("1");
        reveal_strlit("2");
        reveal_strlit("3");
        reveal_strlit("4");
        reveal_strlit("5");
        reveal_strlit("6");
        reveal_strlit("7");
        reveal_strlit("8");
        reveal_strlit("9");
    }
    let text = match n {
        0 => "0",
        1 => "1",
        2 => "2",
        3 => "3",
        4 => "4",
        5 => "5",
        6 => "6",
        7 => "7",
        8 => "8",
        _ => "9",
    };
    assert(text@ =~= seq![(n + '0' as nat) as char]);
    text
}

/// Appends the decimal digits of a number.
fn append_digits(text: &mut String, n: u64)
    ensures
        final(text)@ == old(text)@ + digits(n as nat),
    decreases n,
{
    if n >= 10 {
        append_digits(text, n / 10);
    }
    text.append(digit_text(n % 10));
    assert(text@ =~= old(text)@ + digits(n as nat));
}

/// A number in decimal.
pub fn u64_text(n: u64) -> (text: String)
    ensures
        text@ == decimal(n as int),
{
    let mut text = String::new();
    append_digits(&mut text, n);
    assert(text@ =~= digits(n as nat));
    text
}

/// A number in decimal, with a minus sign before a negative one.
pub fn number_text(n: i64) -> (text: String)
    ensures
        text@ == decimal(n as int),
{
    if n >= 0 {
        return u64_text(n as u64);
    }
    proof {
        reveal_strlit("-");
    }
    let mut text = String::from_str("-");
    append_digits(&mut text, (-(n + 1)) as u64 + 1);
    assert(text@ =~= decimal(n as int));
    text
}

/// Whether the two texts are the same.
pub fn same_text(a: &str, b: &str) -> (same: bool)
    ensures
        same == (a@ == b@),
{
    proof {
        encode_utf8_decode_utf8(a@);
        encode_utf8_decode_utf8(b@);
    }
    same_bytes(a.as_bytes(), b.as_bytes())
}

/// `str`'s `Debug`: the text in quotes, with what cannot be shown escaped.
pub uninterp spec fn quoted(text: Seq<char>) -> Seq<char>;

/// `format!("{:?}", text)`: the text in quotes, as `str`'s `Debug` shows it.
#[verifier::external_body]
pub(crate) fn quote(text: &str) -> (quote: String)
    ensures
        quote@ == quoted(text@),
{
    format!("{:?}", text)
}

/// Whether the character is a decimal digit.
pub open spec fn is_digit(c: char) -> bool {
    '0' as u32 <= c as u32 <= '9' as u32
}

/// The number that decimal digits stand for.
pub open spec fn digits_value(text: Seq<char>) -> nat
    decreases text.len(),
{
    if text.len() == 0 {
        0
    } else {
        digits_value(text.drop_last()) * 10 + (text.last() as u32 - '0' as u32) as nat
    }
}

/// Whether the text is made of decimal digits.
pub open spec fn all_digits(text: Seq<char>) -> bool {
    forall|i: int| 0 <= i < text.len() ==> is_digit(#[trigger] text[i])
}

/// The text without the plus sign at its front, if there is one.
pub open spec fn without_plus(text: Seq<char>) -> Seq<char> {
    if text.len() > 0 && text[0] == '+' {
        text.skip(1)
    } else {
        text
    }
}

/// The number that the text stands for: at least one decimal digit, with a plus sign before
/// them or none, for a number that the machine can hold.
pub open spec fn parsed_usize(text: Seq<char>) -> Option<nat> {
    let rest = without_plus(text);
    if rest.len() > 0 && all_digits(rest) && digits_value(rest) <= usize::MAX {
        Some(digits_value(rest))
    } else {
        None
    }
}

proof fn lemma_digits_value_grows(text: Seq<char>, n: int)
    requires
        0 <= n <= text.len(),
    ensures
        digits_value(text.take(n)) <= digits_value(text),
    decreases text.len() - n,
{
    if n < text.len() {
        assert(text.take(n + 1).drop_last() =~= text.take(n));
        lemma_digits_value_grows(text, n + 1);
    } else {
        assert(text.take(n) =~= text);
    }
}

/// The number that the text stands for, if it is one.
pub fn parse_usize(text: &str) -> (number: Option<usize>)
    ensures
        match number {
            Some(n) => parsed_usize(text@) == Some(n as nat),
            None => parsed_usize(text@) is None,
        },
{
    let len: usize = text.unicode_len();
    let start: usize = if len > 0 && text.get_char(0) == '+' {
        1
    } else {
        0
    };
    let ghost rest = text@.skip(start as int);
    assert(rest =~= without_plus(text@));
    if start == len {
        return None;
    }
    let mut value: usize = 0;
    assert(rest.take(0) =~= Seq::empty());
    for i in start..len
        invariant
            start <= 1,
            len == text@.len(),
            rest == text@.skip(start as int),
            rest == without_plus(text@),
            forall|j: int| 0 <= j < i - start ==> is_digit(#[trigger] rest[j]),
            value == digits_value(rest.take(i - start)),
    {
        let c = text.get_char(i);
        assert(c == rest[i - start]);
        let code: u32 = c as u32;
        if code < '0' as u32 || code > '9' as u32 {
            assert(!is_digit(rest[i - start]));
            return None;
        }
        let digit: usize = (code - '0' as u32) as usize;
        proof {
            assert(rest.take(i - start + 1).drop_last() =~= rest.take(i - start));
            lemma_digits_value_grows(rest, i - start + 1);
        }
        value = match value.checked_mul(10) {
            Some(tens) => match tens.checked_add(digit) {
                Some(value) => value,
                None => {
                    return None;
                },
            },
            None => {
                return None;
            },
        };
    }
    assert(rest.take(rest.len() as int) =~= rest);
    Some(value)
}

/// What the error of `str::parse` says of a text that is no `usize`.
pub uninterp spec fn usize_error(text: Seq<char>) -> Seq<char>;

/// `str::parse` of a `usize`, which fails on such a text: the text of its error, which is a
/// function of the text alone.
#[verifier::external_body]
pub(crate) fn usize_error_text(text: &str) -> (error: String)
    requires
        parsed_usize(text@) is None,
    ensures
        error@ == usize_error(text@),
{
    text.parse::<usize>().err().map(|error| error.to_string()).unwrap_or_default()
}

/// Numbers with the same text are the same number; the text of a negative number is that of
/// its absolute value behind a minus sign.
pub proof fn law_decimal_distinct(a: int, b: int)
    ensures
        decimal(a) == decimal(b) ==> a == b,
        a > 0 ==> decimal(-a) == seq!['-'] + decimal(a),
        a >= 0 ==> all_digits(decimal(a)),
{
    let (x, y) = (if a < 0 { -a } else { a }, if b < 0 { -b } else { b });
    law_decimal_read_back(x as nat);
    law_decimal_read_back(y as nat);
    if decimal(a) == decimal(b) {
        let (p, q) = (digits(x as nat), digits(y as nat));
        assert(is_digit(p[0]) && is_digit(q[0]));
        if a < 0 && b < 0 {
            assert(decimal(a).skip(1) =~= p);
            assert(decimal(b).skip(1) =~= q);
        } else if a < 0 {
            assert(decimal(a)[0] == '-');
        } else if b < 0 {
            assert(decimal(b)[0] == '-');
        }
    }
}

/// The text of a number reads back as that number.
pub proof fn law_decimal_read_back(n: nat)
    ensures
        all_digits(digits(n)),
        digits(n).len() > 0,
        digits_value(digits(n)) == n,
        n <= usize::MAX ==> parsed_usize(decimal(n as int)) == Some(n),
    decreases n,
{
    let text = digits(n);
    if n >= 10 {
        let front = digits(n / 10);
        law_decimal_read_back(n / 10);
        assert(text.drop_last() =~= front);
        assert forall|i: int| 0 <= i < text.len() implies is_digit(#[trigger] text[i]) by {
            if i < front.len() {
                assert(text[i] == front[i]);
            }
        }
        assert(text.last() as u32 == n % 10 + '0' as u32);
        assert(digits_value(text) == digits_value(front) * 10 + n % 10);
    } else {
        reveal_with_fuel(digits_value, 2);
        assert(text.drop_last() =~= Seq::empty());
        assert(text.last() as u32 == n + '0' as u32);
        assert(digits_value(text) == n);
    }
    assert(is_digit(text[0]));
    assert(without_plus(text) == text);
}

/// The decimal text of a number has no zero in front, but for the number 0, which is one zero.
pub proof fn law_no_leading_zero(n: nat)
    ensures
        n == 0 ==> decimal(n as int) == seq!['0'],
        n > 0 ==> decimal(n as int)[0] != '0' && is_digit(decimal(n as int)[0]),
        n < 10 ==> decimal(n as int).len() == 1,
        n >= 10 ==> decimal(n as int).len() == decimal((n / 10) as int).len() + 1,
    decreases n,
{
    let text = digits(n);
    law_decimal_read_back(n);
    assert(is_digit(text[0]));
    if n >= 10 {
        law_no_leading_zero(n / 10);
        law_decimal_read_back(n / 10);
        assert(text[0] == digits(n / 10)[0]);
    } else if n > 0 {
        assert(text[0] as u32 == n + '0' as u32);
    } else {
        assert(text[0] as u32 == '0' as u32);
        assert(text =~= seq!['0']);
    }
}

/// Each further digit counts ten times what stands before it and the digit.
pub proof fn law_digits_value(text: Seq<char>, digit: char)
    ensures
        digits_value(Seq::empty()) == 0,
        digits_value(text.push(digit)) == 10 * digits_value(text) + (digit as u32
            - '0' as u32) as nat,
{
    assert(text.push(digit).drop_last() =~= text);
}

/// Digits, at least one of them, stand for a number that is not beyond those of the machine, and
/// so they do behind a plus sign. Nothing else stands for a number.
pub proof fn law_parsed_usize(text: Seq<char>)
    requires
        text.len() == 0 || text[0] != '+',
    ensures
        parsed_usize(seq!['+'] + text) == parsed_usize(text),
        text.len() == 0 ==> parsed_usize(text) is None,
        (exists|i: int|
            0 <= i < text.len() && !('0' as u32 <= (#[trigger] text[i]) as u32 <= '9' as u32))
            ==> parsed_usize(text) is None,
        text.len() > 0 && (forall|i: int|
            0 <= i < text.len() ==> '0' as u32 <= (#[trigger] text[i]) as u32 <= '9' as u32)
            ==> parsed_usize(text) == if digits_value(text) <= usize::MAX {
            Some(digits_value(text))
        } else {
            None
        },
{
    assert((seq!['+'] + text).skip(1) =~= text);
    assert(without_plus(text) == text);
    if all_digits(text) {
        assert forall|i: int| 0 <= i < text.len() implies '0' as u32 <= (
        #[trigger] text[i]) as u32 <= '9' as u32 by {
            assert(is_digit(text[i]));
        }
    }
}

} // verus!
