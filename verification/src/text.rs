//! Conversions between byte buffers and text.
//!
//! Byte-strings in a metadata document are not guaranteed to be valid text.
//! This library decodes them strictly: a name, announce URL or path segment
//! whose bytes are not valid UTF-8 is rejected as a schema error, never
//! silently replaced, so that re-encoding a parsed document reproduces the
//! original bytes exactly.

use vstd::prelude::*;
use vstd::utf8::{decode_utf8, valid_utf8};

verus! {

/// Relies on `String::from_utf8`: it returns the string whose UTF-8
/// encoding is the given bytes, and fails exactly when the bytes are not
/// valid UTF-8.
#[verifier::external_body]
pub(crate) fn utf8_to_string(v: Vec<u8>) -> (r: Option<String>)
    ensures
        match r {
            Some(s) => valid_utf8(v@) && s@ == decode_utf8(v@),
            None => !valid_utf8(v@),
        },
{
    match String::from_utf8(v) {
        Ok(s) => Some(s),
        Err(_) => None,
    }
}

/// Relies on `String::from_utf8_lossy`: ASCII bytes decode to exactly their
/// own characters.
#[verifier::external_body]
pub(crate) fn ascii_to_string(v: Vec<u8>) -> (r: String)
    requires
        forall|i: int| 0 <= i < v@.len() ==> v@[i] < 128,
    ensures
        r@ == v@.map_values(|b: u8| b as char),
{
    String::from_utf8_lossy(&v).into_owned()
}

} // verus!
