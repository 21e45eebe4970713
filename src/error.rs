use vstd::prelude::*;

verus! {

/// The category of a parse failure.
#[derive(Debug, Clone, Copy, PartialEq, Eq, Structural)]
pub enum ErrorKind {
    /// A malformed token: an unknown quantifier character, a count that is
    /// not an unsigned integer (or does not fit one), a stray class
    /// delimiter, or a range marker with nothing to anchor it.
    InvalidSyntax,
    /// A brace count expression with the wrong number of fields, or with
    /// every field empty.
    InvalidQuantifier,
    /// A character range whose start sorts after its end.
    InvalidMatchRange,
}

/// A diagnosed parse failure: its kind and a human-readable message.
#[derive(Debug)]
pub struct Error {
    kind: ErrorKind,
    message: String,
}

pub type ParseResult<T> = Result<T, Error>;

impl Error {
    /// The kind this error was created with.
    pub closed spec fn spec_kind(&self) -> ErrorKind {
        self.kind
    }

    /// The message this error was created with.
    pub closed spec fn spec_message(&self) -> Seq<char> {
        self.message@
    }

    pub fn new(code: ErrorKind, message: &str) -> (r: Self)
        ensures
            r.spec_kind() == code,
            r.spec_message() == message@,
    {
        Error { kind: code, message: message.to_owned() }
    }

    /// Builds an error that takes ownership of an already assembled message.
    pub fn with_message(code: ErrorKind, message: String) -> (r: Self)
        ensures
            r.spec_kind() == code,
            r.spec_message() == message@,
    {
        Error { kind: code, message }
    }

    pub fn kind(&self) -> (r: &ErrorKind)
        ensures
            *r == self.spec_kind(),
    {
        &self.kind
    }

    pub fn message(&self) -> (r: &String)
        ensures
            r@ == self.spec_message(),
    {
        &self.message
    }
}

/// What a parse outcome says once the error messages are set aside: the
/// value, or the kind of the failure.
pub open spec fn outcome<T>(r: ParseResult<T>) -> Result<T, ErrorKind> {
    match r {
        Ok(v) => Ok(v),
        Err(e) => Err(e.spec_kind()),
    }
}

} // verus!
