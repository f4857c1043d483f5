//! A codec for record identifiers: a table name paired with a typed id
//! payload, with one canonical textual form that can be written and read
//! back without losing the payload's type.
//!
//! The subtle case is a text payload that reads as a decimal integer: it is
//! written inside a reserved pair of bracket-quotes, so that the string
//! `"123"` and the number `123` never meet in one form.

pub mod decimal;
pub mod error;
pub mod lexical;
pub mod parse;
pub mod record;
pub mod render;
pub mod round_trip;
pub mod split;
pub mod value;

pub use error::CodecError;
pub use record::{IdTraits, RecordId};
pub use value::{Generator, IdValue};
