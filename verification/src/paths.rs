use vstd::prelude::*;
use vstd::utf8::{decode_utf8, valid_utf8};

use crate::contents::utf8_to_string;
use crate::errors::Error;

verus! {

/// A logical path reaches the adapter as the raw bytes the caller's platform
/// hands over. It is representable on the backends this crate targets exactly
/// when those bytes are valid UTF-8.
pub open spec fn path_representable(p: Seq<u8>) -> bool {
    valid_utf8(p)
}

/// Fail-fast path validation, performed before any backend call: returns the
/// path as text exactly when its bytes are representable in the backend's
/// required encoding, and `InvalidPath` on every other input.
pub fn validate_path(p: &[u8]) -> (r: Result<String, Error>)
    ensures
        r is Ok <==> path_representable(p@),
        r is Ok ==> r->Ok_0@ == decode_utf8(p@),
        r is Err ==> r->Err_0 == Error::InvalidPath,
{
    match utf8_to_string(p) {
        Some(s) => Ok(s),
        None => Err(Error::InvalidPath),
    }
}

} // verus!
