use vstd::prelude::*;
use vstd::string::StrSliceExecFns;
use vstd::utf8::{decode_utf8, encode_utf8, encode_utf8_decode_utf8, encode_utf8_valid_utf8,
    valid_utf8};

use crate::errors::Error;

verus! {

/// An owned, exclusive byte buffer: the value type for every read and write
/// payload. Created by a read operation or by the caller, and consumed exactly
/// once into the representation the caller asks for.
pub struct Contents {
    data: Vec<u8>,
}

impl View for Contents {
    type V = Seq<u8>;

    closed spec fn view(&self) -> Seq<u8> {
        self.data@
    }
}

impl Contents {
    /// Lossless: raw bytes become a buffer holding exactly those bytes.
    pub fn from_vec(data: Vec<u8>) -> (c: Contents)
        ensures
            c@ == data@,
    {
        Contents { data }
    }

    /// Lossless: hands back exactly the bytes the buffer holds, consuming it.
    pub fn into_vec(self) -> (v: Vec<u8>)
        ensures
            v@ == self@,
    {
        self.data
    }

    /// The number of bytes held.
    pub fn len(&self) -> (n: usize)
        ensures
            n == self@.len(),
    {
        self.data.len()
    }

    /// Borrows the raw bytes without consuming the buffer.
    pub fn as_bytes(&self) -> (b: &Vec<u8>)
        ensures
            b@ == self@,
    {
        &self.data
    }

    /// Builds a buffer from text, losslessly: the bytes are the UTF-8
    /// encoding of the characters.
    pub fn from_text(s: &str) -> (c: Contents)
        ensures
            c@ == encode_utf8(s@),
    {
        Contents { data: s.as_bytes_vec() }
    }

    /// Converts the buffer to UTF-8 text, consuming it. Succeeds exactly when
    /// the bytes are valid UTF-8; any other buffer fails with `DecodeError`.
    pub fn into_text(self) -> (r: Result<String, Error>)
        ensures
            r is Ok <==> valid_utf8(self@),
            r is Ok ==> r->Ok_0@ == decode_utf8(self@),
            r is Err ==> r->Err_0 == Error::DecodeError,
    {
        match utf8_to_string(self.data.as_slice()) {
            Some(s) => Ok(s),
            None => Err(Error::DecodeError),
        }
    }

    /// Builds a buffer from a backend-native payload, collecting the whole
    /// payload into owned memory.
    pub fn from_payload(b: bytes::Bytes) -> (c: Contents)
        ensures
            c@ == payload_bytes(b),
    {
        Contents { data: collect_payload(b) }
    }
}

/// Text survives the byte round trip: encoding any characters as UTF-8 yields
/// a buffer that converts back to text successfully, and the text equals the
/// original.
pub proof fn lemma_text_round_trip(s: Seq<char>)
    ensures
        valid_utf8(encode_utf8(s)),
        decode_utf8(encode_utf8(s)) == s,
{
    encode_utf8_valid_utf8(s);
    encode_utf8_decode_utf8(s);
}

/// Relies on String::from_utf8: returns Ok exactly when the bytes are valid
/// UTF-8, and the string then holds the characters those bytes encode (its
/// documentation names it the inverse of String::into_bytes).
#[verifier::external_body]
pub(crate) fn utf8_to_string(v: &[u8]) -> (r: Option<String>)
    ensures
        r is Some <==> valid_utf8(v@),
        r is Some ==> r->0@ == decode_utf8(v@),
{
    String::from_utf8(v.to_vec()).ok()
}

#[verifier::external_type_specification]
#[verifier::external_body]
pub struct ExBytes(bytes::Bytes);

/// The bytes a backend-native `bytes::Bytes` payload buffer holds.
pub uninterp spec fn payload_bytes(b: bytes::Bytes) -> Seq<u8>;

/// Relies on <[u8]>::to_vec, reached through bytes::Bytes's Deref to [u8]:
/// copies the bytes the buffer holds into a fresh vector.
#[verifier::external_body]
fn collect_payload(b: bytes::Bytes) -> (v: Vec<u8>)
    ensures
        v@ == payload_bytes(b),
{
    b.to_vec()
}

} // verus!
