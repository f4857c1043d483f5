//! The ways in which reading or writing an identifier can fail.

use vstd::prelude::*;

verus! {

/// An error of the codec.
#[derive(Debug, PartialEq, Eq)]
pub enum CodecError {
    /// The id token cannot be read. `offset` counts the characters (not the
    /// bytes) of the input before the place where reading stopped, and
    /// `fragment` is the input from that place to its end.
    MalformedIdentifier { fragment: String, offset: usize },
    /// The table token is not identifier-safe.
    InvalidTable,
    /// The value is not one of the data model. A map key is empty, or a
    /// generator is nested inside a sequence or a map: such a value has no
    /// canonical form. Or, where a payload is paired with a table name, a
    /// map holds a key twice.
    MalformedValue,
}

/// What a [`CodecError`] stands for.
pub enum ErrorModel {
    MalformedIdentifier { fragment: Seq<char>, offset: nat },
    InvalidTable,
    MalformedValue,
}

impl View for CodecError {
    type V = ErrorModel;

    open spec fn view(&self) -> ErrorModel {
        match self {
            CodecError::MalformedIdentifier { fragment, offset } => ErrorModel::MalformedIdentifier {
                fragment: fragment@,
                offset: *offset as nat,
            },
            CodecError::InvalidTable => ErrorModel::InvalidTable,
            CodecError::MalformedValue => ErrorModel::MalformedValue,
        }
    }
}

impl Clone for CodecError {
    /// A copy that stands for the same error.
    fn clone(&self) -> (copy: Self)
        ensures
            copy@ == self@,
    {
        match self {
            CodecError::MalformedIdentifier { fragment, offset } => CodecError::MalformedIdentifier {
                fragment: fragment.clone(),
                offset: *offset,
            },
            CodecError::InvalidTable => CodecError::InvalidTable,
            CodecError::MalformedValue => CodecError::MalformedValue,
        }
    }
}

} // verus!
