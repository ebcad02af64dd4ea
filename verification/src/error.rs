//! The error type of the readers and writers.

use vstd::prelude::*;
use vstd::string::to_string_from_display_ensures;

verus! {

/// What the readers and writers give, or why they cannot.
pub type Result<T> = std::result::Result<T, BlfError>;

/// Declares `std::io::Error`, which [`BlfError::Io`] carries without looking inside.
#[verifier::external_type_specification]
#[verifier::external_body]
pub struct ExIoError(std::io::Error);

/// What can go wrong while a log is read or written.
#[derive(Debug)]
pub enum BlfError {
    /// The input ended inside an object, or compressed data could not be handled.
    Io(std::io::Error),
    /// The log does not have the expected form.
    Parse(String),
}

/// A [`BlfError`] as contracts see it.
pub enum ErrorView {
    /// An input or output error.
    Io(std::io::Error),
    /// A malformed log, with the text that says what is wrong.
    Parse(Seq<char>),
}

impl View for BlfError {
    type V = ErrorView;

    open spec fn view(&self) -> ErrorView {
        match self {
            BlfError::Io(err) => ErrorView::Io(*err),
            BlfError::Parse(text) => ErrorView::Parse(text@),
        }
    }
}

/// The error for input that ends inside an object: of the kind for an unexpected end, with
/// the text that `read_exact` gives when its input ends early.
pub open spec fn truncation() -> ErrorView {
    ErrorView::Io(unexpected_eof_error("failed to fill whole buffer"@))
}

impl BlfError {
    /// The error for a malformed log.
    pub fn parse(text: &str) -> (err: BlfError)
        ensures
            err@ == ErrorView::Parse(text@),
    {
        BlfError::Parse(text.to_owned())
    }

    /// The error for input that ends inside an object.
    pub fn truncated() -> (err: BlfError)
        ensures
            err@ == truncation(),
    {
        BlfError::Io(unexpected_eof("failed to fill whole buffer"))
    }

    /// The text shown to users: for a malformed log `parse error: ` and what is wrong, for
    /// an input or output error `io error: ` and the error's own text.
    pub fn message(&self) -> (text: String)
        ensures
            match self {
                BlfError::Io(err) => exists|own: String| #[trigger]
                    to_string_from_display_ensures::<std::io::Error>(err, own) && text@
                        == "io error: "@ + own@,
                BlfError::Parse(what) => text@ == "parse error: "@ + what@,
            },
    {
        match self {
            BlfError::Io(err) => {
                let mut text: String = "io error: ".to_owned();
                let own: String = err.to_string();
                text.append(own.as_str());
                text
            },
            BlfError::Parse(what) => {
                let mut text: String = "parse error: ".to_owned();
                text.append(what.as_str());
                text
            },
        }
    }
}

impl From<std::io::Error> for BlfError {
    fn from(err: std::io::Error) -> (res: BlfError) {
        BlfError::Io(err)
    }
}

impl vstd::std_specs::convert::FromSpecImpl<std::io::Error> for BlfError {
    open spec fn obeys_from_spec() -> bool {
        true
    }

    open spec fn from_spec(err: std::io::Error) -> BlfError {
        BlfError::Io(err)
    }
}

/// The error that `std::io::Error::new` makes of the kind `UnexpectedEof` and a text.
pub uninterp spec fn unexpected_eof_error(text: Seq<char>) -> std::io::Error;

/// `std::io::Error::new` for the kind `UnexpectedEof`, with a text as its payload: the
/// error depends on the text alone. Nothing is claimed of how it is displayed.
#[verifier::external_body]
fn unexpected_eof(text: &str) -> (err: std::io::Error)
    ensures
        err == unexpected_eof_error(text@),
{
    std::io::Error::new(std::io::ErrorKind::UnexpectedEof, text)
}

} // verus!
