//! Byte-to-text conversion and payload extraction helpers.

use vstd::prelude::*;
use vstd::utf8::{decode_utf8, valid_utf8};
use crate::error::PackError;

verus! {

/// Relies on `String::from_utf8`: it returns the string whose UTF-8
/// encoding is exactly the given bytes, and fails exactly when the bytes
/// are not valid UTF-8.
#[verifier::external_body]
pub fn string_from_utf8(bytes: Vec<u8>) -> (r: Option<String>)
    ensures
        r matches Some(s) ==> valid_utf8(bytes@) && s@ == decode_utf8(bytes@),
        r is None ==> !valid_utf8(bytes@),
{
    String::from_utf8(bytes).ok()
}

/// Decodes the `length` bytes at `pos` as UTF-8 text.
pub fn read_string(data: &Vec<u8>, pos: usize, length: usize) -> (r: Result<
    (String, usize),
    PackError,
>)
    ensures
        pos + length > data@.len() ==> (r matches Err(e) && e@ == crate::error::ErrSpec::Truncated),
        pos + length <= data@.len() && !valid_utf8(
            data@.subrange(pos as int, pos + length),
        ) ==> (r matches Err(e) && e@ == crate::error::ErrSpec::Encoding),
        pos + length <= data@.len() && valid_utf8(data@.subrange(pos as int, pos + length))
            ==> (r matches Ok(p) && p.0@ == decode_utf8(data@.subrange(pos as int, pos + length))
            && p.1 == pos + length),
{
    match crate::wire::take_bytes(data, pos, length) {
        Some((bytes, next)) => match string_from_utf8(bytes) {
            Some(s) => Ok((s, next)),
            None => Err(PackError::Encoding),
        },
        None => Err(PackError::Truncated),
    }
}

/// String equality, decided on the UTF-8 bytes.
pub fn str_eq(a: &str, b: &str) -> (r: bool)
    ensures
        r == (a@ == b@),
{
    let r = crate::path_utils::bytes_eq(a.as_bytes(), b.as_bytes());
    proof {
        if vstd::utf8::encode_utf8(a@) == vstd::utf8::encode_utf8(b@) {
            vstd::utf8::encode_utf8_decode_utf8(a@);
            vstd::utf8::encode_utf8_decode_utf8(b@);
        }
    }
    r
}

/// Copies the `size` payload bytes at `pos` out of the stream.
pub fn unpack_file(data: &Vec<u8>, pos: usize, size: usize) -> (r: Result<(Vec<u8>, usize), PackError>)
    ensures
        pos + size <= data@.len() ==> (r matches Ok(p) && p.0@ == data@.subrange(
            pos as int,
            pos + size,
        ) && p.1 == pos + size),
        pos + size > data@.len() ==> (r matches Err(e) && e@ == crate::error::ErrSpec::Truncated),
{
    match crate::wire::take_bytes(data, pos, size) {
        Some((bytes, next)) => Ok((bytes, next)),
        None => Err(PackError::Truncated),
    }
}

} // verus!
