//! Lexing of the two small sub-languages of a regular expression pattern:
//! quantifier suffixes (`?`, `*`, `+`, `{m,n}`) and bracket character-class
//! bodies (`[a-z\n]`).

pub mod error;
pub mod quantifier;
pub mod range;
pub mod text;

pub use error::{Error, ErrorKind, ParseResult};
pub use quantifier::Quantifier;
pub use range::{Range, RangeMatch};


