//! The reader dispatch: binds a raw byte sequence to a type's decode
//! routine and standardizes the error surface.  Wrapping an arbitrary
//! `Read` stream and buffering it belongs to the program around the
//! library; the library decodes the bytes it is handed.

use vstd::prelude::*;
use vstd::utf8::encode_utf8;
use vstd::utf8::valid_utf8;

use crate::errors::ReaderError;
use crate::strings::bytes_to_str;
use crate::strings::str_chars;

verus! {

/// The read entry point of a decodable root element.  Each implementing
/// type states what its decode guarantees in `from_xml_spec`.
pub trait FromXML: Sized {
    /// What `from_xml` guarantees of its result for the given input bytes.
    spec fn from_xml_spec(bytes: Seq<u8>, r: Result<Self, ReaderError>) -> bool;

    /// Decodes a value of this type from its XML byte representation.
    fn from_xml(bytes: &[u8]) -> (r: Result<Self, ReaderError>)
        ensures
            Self::from_xml_spec(bytes@, r),
    ;
}

/// Decodes the input bytes as UTF-8 characters; anything else is a
/// structural failure.
pub fn bytes_to_chars(bytes: &[u8]) -> (r: Result<Vec<char>, ReaderError>)
    ensures
        r matches Ok(cs) ==> encode_utf8(cs@) == bytes@,
        valid_utf8(bytes@) ==> r is Ok,
        r matches Err(e) ==> e matches ReaderError::Malformed(_),
{
    match bytes_to_str(bytes) {
        Some(s) => Ok(str_chars(s)),
        None => Err(ReaderError::Malformed(String::from_str("input is not valid UTF-8"))),
    }
}

} // verus!
