//! The storage engine's error kinds.

use vstd::prelude::*;
use vstd::string::*;

verus! {

/// Why a storage operation failed.
#[derive(Debug, Clone, Copy, PartialEq, Eq, Structural)]
pub enum StoreError {
    /// A path does not lie under the root directory.
    PathEscapesRoot,
    /// A path carries an extension other than `csv`.
    InvalidExtension,
    /// A record is ragged or its quoting is broken.
    MalformedRecord,
    /// A field cannot be read as its column's type.
    ValueParseError,
    /// The table's file does not exist.
    MissingFile,
    /// A directory entry is neither a directory nor a CSV file.
    NotFileOrDirectory,
    /// Reading or writing failed.
    IOError,
    /// A value of a kind that this engine does not store.
    UnsupportedValue,
    /// A row key that is not a non-negative 32-bit integer.
    InvalidKey,
    /// An ignore pattern that is not a valid glob.
    InvalidPattern,
}

impl StoreError {
    /// A short description of the error.
    pub fn message(&self) -> (r: String) {
        match self {
            StoreError::PathEscapesRoot => String::from_str("path is not in data directory"),
            StoreError::InvalidExtension => String::from_str("table path with non-csv extension"),
            StoreError::MalformedRecord => String::from_str("malformed csv record"),
            StoreError::ValueParseError => String::from_str("value does not parse as its column type"),
            StoreError::MissingFile => String::from_str("table file is missing"),
            StoreError::NotFileOrDirectory => String::from_str("entry is not a file or directory"),
            StoreError::IOError => String::from_str("i/o error"),
            StoreError::UnsupportedValue => String::from_str("value kind is not supported"),
            StoreError::InvalidKey => String::from_str("invalid row key"),
            StoreError::InvalidPattern => String::from_str("invalid ignore pattern"),
        }
    }
}

} // verus!
