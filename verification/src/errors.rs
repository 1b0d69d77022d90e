//! The error surface of the read path: one tagged error per failure class,
//! carrying a human-readable cause.

use vstd::prelude::*;

verus! {

/// A decode failure.  No partial value is ever returned alongside one of
/// these: any failure aborts the enclosing parse.
///
/// - `Malformed`: structural failure in the markup — premature end of input, mismatched or
///   unreadable tags, bytes that are not UTF-8.
/// - `Attribute`: an attribute was present but its text could not be coerced
///   to the target type.
/// - `Schema`: a required attribute or child was missing, or an unrecognized
///   attribute was present.
#[derive(Debug)]
pub enum ReaderError {
    Malformed(String),
    Attribute(String),
    Schema(String),
}

impl ReaderError {
    /// The human-readable cause carried by the error.
    pub fn message(&self) -> (r: &String)
        ensures
            r@ == self.message_spec(),
    {
        match self {
            ReaderError::Malformed(m) => m,
            ReaderError::Attribute(m) => m,
            ReaderError::Schema(m) => m,
        }
    }

    pub open spec fn message_spec(&self) -> Seq<char> {
        match self {
            ReaderError::Malformed(m) => m@,
            ReaderError::Attribute(m) => m@,
            ReaderError::Schema(m) => m@,
        }
    }
}

} // verus!
