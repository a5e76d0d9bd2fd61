//! What can go wrong.

use vstd::prelude::*;

verus! {

/// An error.
#[derive(Debug)]
pub enum Error {
    /// The connection to the daemon failed; the request can be tried again.
    Connection(String),
    /// The same, with the error that was the cause.
    ConnectionCaused(String, Box<Error>),
    /// Anything else.
    Message(String),
    /// What could not be done, and the error that was the cause.
    Caused(String, Box<Error>),
}

/// The contents of an [`Error`].
pub enum ErrorView {
    Connection(Seq<char>),
    ConnectionCaused(Seq<char>, Box<ErrorView>),
    Message(Seq<char>),
    Caused(Seq<char>, Box<ErrorView>),
}

impl View for Error {
    type V = ErrorView;

    open spec fn view(&self) -> ErrorView
        decreases self,
    {
        match self {
            Error::Connection(text) => ErrorView::Connection(text@),
            Error::ConnectionCaused(text, cause) => ErrorView::ConnectionCaused(
                text@,
                Box::new((**cause)@),
            ),
            Error::Message(text) => ErrorView::Message(text@),
            Error::Caused(text, cause) => ErrorView::Caused(text@, Box::new((**cause)@)),
        }
    }
}

impl ErrorView {
    /// The error with this text that an error of another library has caused, which says
    /// `cause`.
    pub open spec fn caused_by(text: Seq<char>, cause: Seq<char>) -> ErrorView {
        ErrorView::Caused(text, Box::new(ErrorView::Message(cause)))
    }

    /// What the error says.
    pub open spec fn text(self) -> Seq<char> {
        match self {
            ErrorView::Connection(text) => text,
            ErrorView::ConnectionCaused(text, _) => text,
            ErrorView::Message(text) => text,
            ErrorView::Caused(text, _) => text,
        }
    }

    /// Whether the connection to the daemon failed.
    pub open spec fn is_connection(self) -> bool {
        self is Connection || self is ConnectionCaused
    }

    /// What the error says, then what its cause says, and so on.
    pub open spec fn chain(self) -> Seq<Seq<char>>
        decreases self,
    {
        match self {
            ErrorView::ConnectionCaused(text, cause) => seq![text] + (*cause).chain(),
            ErrorView::Caused(text, cause) => seq![text] + (*cause).chain(),
            _ => seq![self.text()],
        }
    }
}

/// Texts as their characters.
pub open spec fn text_views(texts: Seq<&str>) -> Seq<Seq<char>> {
    texts.map_values(|text: &str| text@)
}

impl Error {
    /// The error with this text.
    pub fn message(text: &str) -> (error: Error)
        ensures
            error@ == ErrorView::Message(text@),
    {
        Error::Message(text.to_owned())
    }

    /// A failed connection, with this text.
    pub fn connection(text: &str) -> (error: Error)
        ensures
            error@ == ErrorView::Connection(text@),
    {
        Error::Connection(text.to_owned())
    }

    /// A failed connection that another error has caused, with this text.
    pub fn connection_caused(text: &str, cause: Error) -> (error: Error)
        ensures
            error@ == ErrorView::ConnectionCaused(text@, Box::new(cause@)),
    {
        Error::ConnectionCaused(text.to_owned(), Box::new(cause))
    }

    /// The error with this text that another one has caused.
    pub fn caused(text: &str, cause: Error) -> (error: Error)
        ensures
            error@ == ErrorView::Caused(text@, Box::new(cause@)),
    {
        Error::Caused(text.to_owned(), Box::new(cause))
    }

    /// The error with this text that an error of another library has caused, which says
    /// `cause`.
    pub fn caused_by(text: &str, cause: String) -> (error: Error)
        ensures
            error@ == ErrorView::caused_by(text@, cause@),
    {
        Error::caused(text, Error::Message(cause))
    }

    /// What the error says.
    pub fn text(&self) -> (text: &str)
        ensures
            text@ == self@.text(),
    {
        match self {
            Error::Connection(text) => text.as_str(),
            Error::ConnectionCaused(text, _) => text.as_str(),
            Error::Message(text) => text.as_str(),
            Error::Caused(text, _) => text.as_str(),
        }
    }

    /// Whether the connection to the daemon failed.
    pub fn is_connection(&self) -> (is_connection: bool)
        ensures
            is_connection == self@.is_connection(),
    {
        match self {
            Error::Connection(_) => true,
            Error::ConnectionCaused(_, _) => true,
            _ => false,
        }
    }

    /// What the error says, then what its cause says, and so on.
    pub fn chain(&self) -> (texts: Vec<&str>)
        ensures
            text_views(texts@) == self@.chain(),
        decreases self,
    {
        match self {
            Error::ConnectionCaused(text, cause) => {
                let mut texts = cause.chain();
                let ghost rest = text_views(texts@);
                texts.insert(0, text.as_str());
                assert(text_views(texts@) =~= seq![text@] + rest);
                texts
            },
            Error::Caused(text, cause) => {
                let mut texts = cause.chain();
                let ghost rest = text_views(texts@);
                texts.insert(0, text.as_str());
                assert(text_views(texts@) =~= seq![text@] + rest);
                texts
            },
            _ => {
                let mut texts: Vec<&str> = Vec::new();
                texts.push(self.text());
                assert(text_views(texts@) =~= self@.chain());
                texts
            },
        }
    }
}

/// A result with the contents of its error.
pub open spec fn outcome<T>(result: Result<T, Error>) -> Result<T, ErrorView> {
    match result {
        Ok(value) => Ok(value),
        Err(error) => Err(error@),
    }
}

/// A result with the contents of its value and of its error.
pub open spec fn outcome_view<T: View>(result: Result<T, Error>) -> Result<T::V, ErrorView> {
    match result {
        Ok(value) => Ok(value@),
        Err(error) => Err(error@),
    }
}

/// An error with a cause says what it says itself and then what the cause says, and it is a
/// failed connection by itself, whatever the cause is.
pub proof fn law_causes(text: Seq<char>, cause: ErrorView)
    ensures
        ErrorView::Message(text).chain() == seq![text],
        ErrorView::Connection(text).chain() == seq![text],
        ErrorView::Caused(text, Box::new(cause)).chain() == seq![text] + cause.chain(),
        ErrorView::ConnectionCaused(text, Box::new(cause)).chain() == seq![text] + cause.chain(),
        ErrorView::caused_by(text, cause.text()).chain() == seq![text, cause.text()],
        ErrorView::Connection(text).is_connection(),
        ErrorView::ConnectionCaused(text, Box::new(cause)).is_connection(),
        !ErrorView::Message(text).is_connection(),
        !ErrorView::Caused(text, Box::new(cause)).is_connection(),
        ErrorView::Message(text).text() == text,
        ErrorView::Connection(text).text() == text,
        ErrorView::Caused(text, Box::new(cause)).text() == text,
        ErrorView::ConnectionCaused(text, Box::new(cause)).text() == text,
{
    reveal_with_fuel(ErrorView::chain, 3);
    assert(seq![text] + seq![cause.text()] =~= seq![text, cause.text()]);
}

/// A result is its value, or what its error holds.
pub proof fn law_outcome<T, U: View>(value: T, seen: U, error: Error)
    ensures
        outcome(Ok::<T, Error>(value)) == Ok::<T, ErrorView>(value),
        outcome(Err::<T, Error>(error)) == Err::<T, ErrorView>(error@),
        outcome_view(Ok::<U, Error>(seen)) == Ok::<U::V, ErrorView>(seen@),
        outcome_view(Err::<U, Error>(error)) == Err::<U::V, ErrorView>(error@),
{
}

} // verus!
