//! The error taxonomy of the NBT codec.

use vstd::prelude::*;
use vstd::string::StringExecFns;
use crate::tag::Tag;

verus! {

/// Everything the binary codec can report.
///
/// `IO` stands for a failed read or write on the underlying byte source: in
/// this library, a read past the end of the buffer.  `NotAString` carries
/// the offending bytes of a string payload that was not valid UTF-8.
#[derive(Debug, Clone, PartialEq)]
pub enum NBTError {
    IO,
    InvalidTag(i8),
    ExpectedTag(Tag, Tag),
    NotAString(Vec<u8>),
    UnexpectedEnd,
}

impl NBTError {
    /// A short description of the error, for display by callers.
    pub fn message(&self) -> String {
        match self {
            NBTError::IO => String::from_str("unexpected end of data"),
            NBTError::InvalidTag(_) => String::from_str("invalid tag id"),
            NBTError::ExpectedTag(_, _) => String::from_str("unexpected tag"),
            NBTError::NotAString(_) => String::from_str("not a utf8 string"),
            NBTError::UnexpectedEnd => String::from_str("unexpected end tag"),
        }
    }
}

} // verus!
