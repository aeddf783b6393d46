//! Little-endian integer fields and raw byte blocks of the archive layout.

use vstd::prelude::*;
use vstd::bytes::{spec_u32_from_le_bytes, spec_u32_to_le_bytes, spec_u64_from_le_bytes,
    spec_u64_to_le_bytes, lemma_auto_spec_u32_to_from_le_bytes,
    lemma_auto_spec_u64_to_from_le_bytes, u32_from_le_bytes, u32_to_le_bytes, u64_from_le_bytes,
    u64_to_le_bytes};
use vstd::slice::{slice_subrange, slice_to_vec};

verus! {

/// A sequence of `n` zero bytes, as found in the reserved region and the
/// checksum slots.
pub open spec fn spec_zeros(n: nat) -> Seq<u8> {
    Seq::new(n, |i: int| 0u8)
}

/// Little-endian bytes of a signed 32-bit word (two's complement).
pub open spec fn spec_i32_le(x: i32) -> Seq<u8> {
    spec_u32_to_le_bytes(x as u32)
}

/// The signed 32-bit word encoded by four little-endian bytes.
pub open spec fn spec_i32_from_le(s: Seq<u8>) -> i32
    recommends
        s.len() == 4,
{
    spec_u32_from_le_bytes(s) as i32
}

pub broadcast proof fn lemma_i32_le_len(x: i32)
    ensures
        (#[trigger] spec_i32_le(x)).len() == 4,
{
    lemma_auto_spec_u32_to_from_le_bytes();
}

/// Writing a signed word and reading it back yields the word.
pub broadcast proof fn lemma_i32_le_roundtrip(x: i32)
    ensures
        spec_i32_from_le(#[trigger] spec_i32_le(x)) == x,
{
    lemma_auto_spec_u32_to_from_le_bytes();
    let u = x as u32;
    assert(spec_u32_to_le_bytes(u).len() == 4);
    assert(spec_u32_from_le_bytes(spec_u32_to_le_bytes(u)) == u);
    assert((u as i32) == x) by (bit_vector)
        requires
            u == x as u32,
    ;
}

pub broadcast proof fn lemma_u64_le_len(x: u64)
    ensures
        (#[trigger] spec_u64_to_le_bytes(x)).len() == 8,
        spec_u64_from_le_bytes(spec_u64_to_le_bytes(x)) == x,
{
    lemma_auto_spec_u64_to_from_le_bytes();
}

/// Reads the unsigned 32-bit little-endian word at `pos`; `None` when
/// fewer than four bytes remain.
pub fn read_u32_le(data: &Vec<u8>, pos: usize) -> (r: Option<(u32, usize)>)
    ensures
        pos + 4 <= data@.len() ==> (r matches Some(p) && p.0 == spec_u32_from_le_bytes(
            data@.subrange(pos as int, pos + 4),
        ) && p.1 == pos + 4),
        pos + 4 > data@.len() ==> r is None,
{
    if pos <= data.len() && data.len() - pos >= 4 {
        let s = slice_subrange(data.as_slice(), pos, pos + 4);
        Some((u32_from_le_bytes(s), pos + 4))
    } else {
        None
    }
}

/// Reads the signed 32-bit little-endian word at `pos`.
pub fn read_i32_le(data: &Vec<u8>, pos: usize) -> (r: Option<(i32, usize)>)
    ensures
        pos + 4 <= data@.len() ==> (r matches Some(p) && p.0 == spec_i32_from_le(
            data@.subrange(pos as int, pos + 4),
        ) && p.1 == pos + 4),
        pos + 4 > data@.len() ==> r is None,
{
    match read_u32_le(data, pos) {
        Some((u, p)) => Some((u as i32, p)),
        None => None,
    }
}

/// Reads the unsigned 64-bit little-endian word at `pos`; `None` when
/// fewer than eight bytes remain.
pub fn read_u64_le(data: &Vec<u8>, pos: usize) -> (r: Option<(u64, usize)>)
    ensures
        pos + 8 <= data@.len() ==> (r matches Some(p) && p.0 == spec_u64_from_le_bytes(
            data@.subrange(pos as int, pos + 8),
        ) && p.1 == pos + 8),
        pos + 8 > data@.len() ==> r is None,
{
    if pos <= data.len() && data.len() - pos >= 8 {
        let s = slice_subrange(data.as_slice(), pos, pos + 8);
        Some((u64_from_le_bytes(s), pos + 8))
    } else {
        None
    }
}

/// Copies the `n` bytes at `pos` out of `data`; `None` when fewer remain.
pub fn take_bytes(data: &Vec<u8>, pos: usize, n: usize) -> (r: Option<(Vec<u8>, usize)>)
    ensures
        pos + n <= data@.len() ==> (r matches Some(p) && p.0@ == data@.subrange(
            pos as int,
            pos + n,
        ) && p.1 == pos + n),
        pos + n > data@.len() ==> r is None,
{
    if pos <= data.len() && data.len() - pos >= n {
        let s = slice_subrange(data.as_slice(), pos, pos + n);
        Some((slice_to_vec(s), pos + n))
    } else {
        None
    }
}

/// Appends the unsigned 32-bit little-endian encoding of `x` to `out`.
pub fn push_u32_le(out: &mut Vec<u8>, x: u32)
    ensures
        final(out)@ == old(out)@ + spec_u32_to_le_bytes(x),
{
    let mut b = u32_to_le_bytes(x);
    out.append(&mut b);
}

/// Appends the signed 32-bit little-endian encoding of `x` to `out`.
pub fn push_i32_le(out: &mut Vec<u8>, x: i32)
    ensures
        final(out)@ == old(out)@ + spec_i32_le(x),
{
    push_u32_le(out, x as u32);
}

/// Appends the unsigned 64-bit little-endian encoding of `x` to `out`.
pub fn push_u64_le(out: &mut Vec<u8>, x: u64)
    ensures
        final(out)@ == old(out)@ + spec_u64_to_le_bytes(x),
{
    let mut b = u64_to_le_bytes(x);
    out.append(&mut b);
}

/// Appends `n` zero bytes to `out`.
pub fn push_zeros(out: &mut Vec<u8>, n: usize)
    ensures
        final(out)@ == old(out)@ + spec_zeros(n as nat),
{
    let mut i: usize = 0;
    while i < n
        invariant
            i <= n,
            out@ == old(out)@ + spec_zeros(i as nat),
        decreases n - i,
    {
        out.push(0u8);
        proof {
            assert(out@ =~= old(out)@ + spec_zeros((i + 1) as nat));
        }
        i = i + 1;
    }
    proof {
        assert(out@ =~= old(out)@ + spec_zeros(n as nat));
    }
}

} // verus!
