//! One directory entry: normalized path, payload offset and size, and
//! the inert 16-byte checksum slot.
//!
//! On disk an entry is a 4-byte little-endian path length, the UTF-8
//! path bytes, an 8-byte offset, an 8-byte size, and 16 checksum bytes.
//! The checksum is read but never validated, and always written as
//! zero.  Reading normalizes the path (see [`crate::path_utils`]).

use vstd::prelude::*;
use vstd::bytes::{spec_u32_from_le_bytes, spec_u32_to_le_bytes, spec_u64_from_le_bytes, spec_u64_to_le_bytes};
use vstd::string::StringSliceAdditionalSpecFns;
use vstd::utf8::{decode_utf8, encode_utf8, valid_utf8};
use crate::error::{ErrSpec, PackError};
use crate::path_utils::{normalize_path_bytes, spec_normalize};
use crate::utf8_util::lemma_normalize_valid;
use crate::utils::string_from_utf8;
use crate::wire::{push_i32_le, push_u64_le, push_zeros, read_u32_le, read_u64_le, spec_i32_le,
    spec_zeros, take_bytes};

verus! {

/// Mathematical image of a directory entry.
pub struct EntryV {
    pub path: Seq<char>,
    pub offset: u64,
    pub size: u64,
    pub md5: Seq<u8>,
}

/// One entry of the archive directory.
#[derive(Debug)]
pub struct FileMetaData {
    /// Normalized relative path of the payload.
    pub path: String,
    /// Absolute byte offset of the payload; meaningful while reading and
    /// assigned anew before writing.
    pub offset: u64,
    /// Payload length in bytes.
    pub size: u64,
    /// The checksum slot, kept for layout compatibility only.
    pub md5: Vec<u8>,
}

impl View for FileMetaData {
    type V = EntryV;

    open spec fn view(&self) -> EntryV {
        EntryV { path: self.path@, offset: self.offset, size: self.size, md5: self.md5@ }
    }
}

/// Bytes of one directory entry as written: length-prefixed path bytes,
/// offset, size, and a zeroed checksum slot.
pub open spec fn spec_entry_bytes(path_b: Seq<u8>, offset: u64, size: u64) -> Seq<u8> {
    spec_i32_le(path_b.len() as i32) + path_b + spec_u64_to_le_bytes(offset)
        + spec_u64_to_le_bytes(size) + spec_zeros(16)
}

/// On-disk size of an entry with the given path bytes.
pub open spec fn spec_entry_size(path_len: int) -> int {
    4 + path_len + 8 + 8 + 16
}

/// Decoding of the directory entry at `pos`: the length field must not
/// claim a negative length, every field must lie inside the stream, and
/// the path bytes must be UTF-8.
pub open spec fn spec_parse_entry(d: Seq<u8>, pos: int) -> Result<(EntryV, int), ErrSpec> {
    if pos + 4 > d.len() {
        Err(ErrSpec::Truncated)
    } else {
        let len_u = spec_u32_from_le_bytes(d.subrange(pos, pos + 4));
        if len_u >= 0x80000000u32 {
            Err(ErrSpec::Truncated)
        } else if pos + 4 + len_u > d.len() {
            Err(ErrSpec::Truncated)
        } else {
            let raw = d.subrange(pos + 4, pos + 4 + len_u);
            if !valid_utf8(raw) {
                Err(ErrSpec::Encoding)
            } else {
                let body = pos + 4 + len_u;
                if body + 32 > d.len() {
                    Err(ErrSpec::Truncated)
                } else {
                    Ok(
                        (
                            EntryV {
                                path: decode_utf8(spec_normalize(raw)),
                                offset: spec_u64_from_le_bytes(d.subrange(body, body + 8)),
                                size: spec_u64_from_le_bytes(d.subrange(body + 8, body + 16)),
                                md5: d.subrange(body + 16, body + 32),
                            },
                            body + 32,
                        ),
                    )
                }
            }
        }
    }
}

impl FileMetaData {
    /// A fresh entry for `path` with `size` payload bytes, its offset
    /// still unassigned and its checksum zero.
    pub fn new(path: String, size: usize) -> (r: Self)
        ensures
            r@.path == path@,
            r@.offset == 0,
            r@.size == size as u64,
            r@.md5 == spec_zeros(16),
    {
        let mut md5: Vec<u8> = Vec::new();
        push_zeros(&mut md5, 16);
        proof {
            assert(md5@ =~= spec_zeros(16));
        }
        FileMetaData { path, offset: 0, size: size as u64, md5 }
    }

    /// Decodes the entry at `pos`, stripping `res://packs/<pack-id>/`
    /// from the path when present.
    pub fn from_read(data: &Vec<u8>, pos: usize) -> (r: Result<(FileMetaData, usize), PackError>)
        ensures
            ({
                let sp = spec_parse_entry(data@, pos as int);
                match r {
                    Ok(p) => (sp matches Ok(spv) && p.0@ == spv.0 && p.1 == spv.1
                        && p.0.md5@.len() == 16),
                    Err(e) => (sp matches Err(se) && e@ == se),
                }
            }),
    {
        let (len_u, p1) = match read_u32_le(data, pos) {
            Some(x) => x,
            None => {
                return Err(PackError::Truncated);
            },
        };
        if len_u >= 0x80000000u32 {
            return Err(PackError::Truncated);
        }
        let len = len_u as usize;
        let (raw, p2) = match take_bytes(data, p1, len) {
            Some(x) => x,
            None => {
                return Err(PackError::Truncated);
            },
        };
        let ghost rawv = raw@;
        proof {
            assert(p1 as int == pos as int + 4);
            assert(len as int == len_u as int);
            assert(rawv == data@.subrange(p1 as int, p1 as int + len as int));
            assert(rawv == data@.subrange(pos as int + 4, pos as int + 4 + (len_u as int)));
        }
        let norm = normalize_path_bytes(&raw);
        match string_from_utf8(raw) {
            None => Err(PackError::Encoding),
            Some(_whole) => {
                proof {
                    lemma_normalize_valid(rawv);
                }
                match string_from_utf8(norm) {
                    None => vstd::pervasive::unreached(),
                    Some(path) => {
                        let (offset, p3) = match read_u64_le(data, p2) {
                            Some(x) => x,
                            None => {
                                return Err(PackError::Truncated);
                            },
                        };
                        let (size, p4) = match read_u64_le(data, p3) {
                            Some(x) => x,
                            None => {
                                return Err(PackError::Truncated);
                            },
                        };
                        let (md5, p5) = match take_bytes(data, p4, 16) {
                            Some(x) => x,
                            None => {
                                return Err(PackError::Truncated);
                            },
                        };
                        Ok((FileMetaData { path, offset, size, md5 }, p5))
                    },
                }
            },
        }
    }

    /// Encodes the entry, writing the checksum slot as zero; fails when
    /// the path does not fit the 32-bit length field.
    pub fn to_write(&self, out: &mut Vec<u8>) -> (r: Result<(), crate::error::EncodeError>)
        ensures
            r is Ok ==> final(out)@ == old(out)@ + spec_entry_bytes(
                encode_utf8(self.path@),
                self.offset,
                self.size,
            ),
            r is Err ==> final(out)@ == old(out)@,
            encode_utf8(self.path@).len() <= 0x7fffffff ==> r is Ok,
            encode_utf8(self.path@).len() > 0x7fffffff ==> r is Err,
    {
        let b = self.path.as_str().as_bytes();
        let len = b.len();
        if len > 0x7fffffffusize {
            return Err(crate::error::EncodeError::TooLarge);
        }
        push_i32_le(out, len as i32);
        out.extend_from_slice(self.path.as_str().as_bytes());
        push_u64_le(out, self.offset);
        push_u64_le(out, self.size);
        push_zeros(out, 16);
        proof {
            assert(final(out)@ =~= old(out)@ + spec_entry_bytes(
                encode_utf8(self.path@),
                self.offset,
                self.size,
            ));
        }
        Ok(())
    }

    /// On-disk size of this entry: the 4-byte length field, the path
    /// bytes, two 8-byte words, and the 16 checksum bytes.
    pub fn calculate_binary_size(&self) -> (r: usize)
        requires
            encode_utf8(self.path@).len() + 36 <= usize::MAX,
        ensures
            r == spec_entry_size(encode_utf8(self.path@).len() as int),
    {
        let mut size: usize = 4;
        size += self.path.as_str().as_bytes().len();
        size += 8 * 2;
        size += 16;
        size
    }
}

/// Reading back a written entry yields the entry, with its path
/// normalized.
pub proof fn lemma_entry_roundtrip(d: Seq<u8>, pos: int, path_b: Seq<u8>, offset: u64, size: u64)
    requires
        0 <= pos,
        pos + spec_entry_size(path_b.len() as int) <= d.len(),
        path_b.len() <= 0x7fffffff,
        valid_utf8(path_b),
        d.subrange(pos, pos + spec_entry_size(path_b.len() as int)) == spec_entry_bytes(
            path_b,
            offset,
            size,
        ),
    ensures
        spec_parse_entry(d, pos) == Ok::<_, ErrSpec>(
            (
                EntryV {
                    path: decode_utf8(spec_normalize(path_b)),
                    offset,
                    size,
                    md5: spec_zeros(16),
                },
                pos + spec_entry_size(path_b.len() as int),
            ),
        ),
{
    let n = path_b.len() as int;
    let e = spec_entry_bytes(path_b, offset, size);
    let whole = d.subrange(pos, pos + spec_entry_size(n));
    crate::wire::lemma_i32_le_len(n as i32);
    crate::wire::lemma_u64_le_len(offset);
    crate::wire::lemma_u64_le_len(size);
    assert(e.len() == spec_entry_size(n));
    assert(d.subrange(pos, pos + 4) =~= e.subrange(0, 4));
    assert(e.subrange(0, 4) =~= spec_i32_le(n as i32));
    vstd::bytes::lemma_auto_spec_u32_to_from_le_bytes();
    let u = (n as i32) as u32;
    assert(spec_u32_to_le_bytes(u).len() == 4);
    assert(spec_u32_from_le_bytes(spec_u32_to_le_bytes(u)) == u);
    assert(u == n);
    assert(u < 0x80000000u32);
    assert(d.subrange(pos + 4, pos + 4 + n) =~= e.subrange(4, 4 + n));
    assert(e.subrange(4, 4 + n) =~= path_b);
    let body = pos + 4 + n;
    assert(d.subrange(body, body + 8) =~= e.subrange(4 + n, 4 + n + 8));
    assert(e.subrange(4 + n, 4 + n + 8) =~= spec_u64_to_le_bytes(offset));
    assert(d.subrange(body + 8, body + 16) =~= e.subrange(4 + n + 8, 4 + n + 16));
    assert(e.subrange(4 + n + 8, 4 + n + 16) =~= spec_u64_to_le_bytes(size));
    assert(d.subrange(body + 16, body + 32) =~= e.subrange(4 + n + 16, 4 + n + 32));
    assert(e.subrange(4 + n + 16, 4 + n + 32) =~= spec_zeros(16));
}

} // verus!
