//! The errors of the library.

use vstd::prelude::*;
use crate::registry::ValidationReason;

verus! {

/// Why a line of configuration text was refused.
#[derive(Debug, Clone, Copy, PartialEq, Eq, Structural)]
pub enum ParseReason {
    /// A keyword stands alone on its line.
    MissingValue,
    /// A name / value keyword has a name and no value.
    MissingObjectValue,
    /// A keyword that may occur once occurs again in the same scope.
    DuplicateKeyword,
}

/// Why a JSON document was refused.
#[derive(Debug, Clone, Copy, PartialEq, Eq, Structural)]
pub enum SerializationReason {
    /// The document is not a JSON object.
    RootNotObject,
    /// A keyword occurs twice in one object.
    DuplicateKey,
    /// A keyword's value has not the JSON shape of its kind.
    ValueShape,
    /// A list keyword has an empty array.
    EmptyList,
    /// A keyword that may occur once has more than one value.
    TooManyValues,
    /// A string cannot stand on a line of the file as it is.
    BadText,
    /// `match` is no object of arrays of objects.
    MatchShape,
    /// A match category is not a single lower-case word.
    BadCategory,
    /// A match entry has no `criteria` member, or one that is no string.
    MissingCriteria,
    /// `_ensure` is neither `Present` nor `Absent`.
    BadEnsure,
}

/// An error as a mathematical value.
pub enum ErrorModel {
    Parse { line: int, reason: ParseReason },
    Validation { keyword: Seq<u8>, reason: ValidationReason },
    UnknownKeyword { keyword: Seq<u8> },
    Serialization { reason: SerializationReason },
}

/// What can go wrong while a document is read.
#[derive(Debug, Clone, PartialEq, Eq)]
pub enum ConfigError {
    /// Malformed configuration text, with the line counted from one.
    Parse { line: usize, reason: ParseReason },
    /// A value that the keyword's validator refuses.
    Validation { keyword: Vec<u8>, reason: ValidationReason },
    /// A keyword that the registry does not hold.
    UnknownKeyword { keyword: Vec<u8> },
    /// JSON that does not follow the schema.
    Serialization { reason: SerializationReason },
}

impl View for ConfigError {
    type V = ErrorModel;

    open spec fn view(&self) -> ErrorModel {
        match self {
            ConfigError::Parse { line, reason } => ErrorModel::Parse {
                line: *line as int,
                reason: *reason,
            },
            ConfigError::Validation { keyword, reason } => ErrorModel::Validation {
                keyword: keyword@,
                reason: *reason,
            },
            ConfigError::UnknownKeyword { keyword } => ErrorModel::UnknownKeyword {
                keyword: keyword@,
            },
            ConfigError::Serialization { reason } => ErrorModel::Serialization {
                reason: *reason,
            },
        }
    }
}

} // verus!
