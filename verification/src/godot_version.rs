//! The fixed 16-byte version record at the head of every archive.

use vstd::prelude::*;
use crate::error::{ErrSpec, PackError};
use crate::wire::{push_i32_le, read_i32_le, spec_i32_from_le, spec_i32_le};

verus! {

/// The sixteen bytes of a version record: four signed little-endian
/// words.
pub open spec fn spec_version_bytes(v: GodotVersion) -> Seq<u8> {
    spec_i32_le(v.version) + spec_i32_le(v.major) + spec_i32_le(v.minor) + spec_i32_le(v.revision)
}

/// Decoding of the version record at `pos`.
pub open spec fn spec_parse_version(d: Seq<u8>, pos: int) -> Result<(GodotVersion, int), ErrSpec> {
    if pos + 16 > d.len() {
        Err(ErrSpec::Truncated)
    } else {
        Ok(
            (
                GodotVersion {
                    version: spec_i32_from_le(d.subrange(pos, pos + 4)),
                    major: spec_i32_from_le(d.subrange(pos + 4, pos + 8)),
                    minor: spec_i32_from_le(d.subrange(pos + 8, pos + 12)),
                    revision: spec_i32_from_le(d.subrange(pos + 12, pos + 16)),
                },
                pos + 16,
            ),
        )
    }
}

/// Version of the engine that produced an archive: four signed 32-bit
/// words, stored little-endian.  The record is purely descriptive and is
/// carried through a read/write cycle unchanged.
#[derive(Debug, PartialEq, Eq, Structural, Clone, Copy)]
pub struct GodotVersion {
    pub version: i32,
    pub major: i32,
    pub minor: i32,
    pub revision: i32,
}

impl GodotVersion {
    pub fn new(version: i32, major: i32, minor: i32, revision: i32) -> (r: Self)
        ensures
            r == (GodotVersion { version, major, minor, revision }),
    {
        Self { version, major, minor, revision }
    }

    /// On-disk size of the record: four 4-byte words.
    pub fn size_in_bytes() -> (r: usize)
        ensures
            r == 16,
    {
        16
    }

    /// Decodes the version record at `pos`.
    pub fn from_read(data: &Vec<u8>, pos: usize) -> (r: Result<(GodotVersion, usize), PackError>)
        ensures
            ({
                let sp = spec_parse_version(data@, pos as int);
                match r {
                    Ok(p) => (sp matches Ok(spv) && p.0 == spv.0 && p.1 == spv.1),
                    Err(e) => (sp matches Err(se) && e@ == se),
                }
            }),
    {
        let (version, p1) = match read_i32_le(data, pos) {
            Some(x) => x,
            None => {
                return Err(PackError::Truncated);
            },
        };
        let (major, p2) = match read_i32_le(data, p1) {
            Some(x) => x,
            None => {
                return Err(PackError::Truncated);
            },
        };
        let (minor, p3) = match read_i32_le(data, p2) {
            Some(x) => x,
            None => {
                return Err(PackError::Truncated);
            },
        };
        let (revision, p4) = match read_i32_le(data, p3) {
            Some(x) => x,
            None => {
                return Err(PackError::Truncated);
            },
        };
        Ok((GodotVersion { version, major, minor, revision }, p4))
    }

    /// Encodes the record as four signed little-endian words.
    pub fn to_write(&self, out: &mut Vec<u8>)
        ensures
            final(out)@ == old(out)@ + spec_version_bytes(*self),
    {
        push_i32_le(out, self.version);
        push_i32_le(out, self.major);
        push_i32_le(out, self.minor);
        push_i32_le(out, self.revision);
        proof {
            assert(final(out)@ =~= old(out)@ + spec_version_bytes(*self));
        }
    }
}

/// Reading back a written version record yields the record.
pub proof fn lemma_version_roundtrip(d: Seq<u8>, pos: int, v: GodotVersion)
    requires
        0 <= pos,
        pos + 16 <= d.len(),
        d.subrange(pos, pos + 16) == spec_version_bytes(v),
    ensures
        spec_parse_version(d, pos) == Ok::<_, ErrSpec>((v, pos + 16)),
{
    let e = spec_version_bytes(v);
    crate::wire::lemma_i32_le_len(v.version);
    crate::wire::lemma_i32_le_len(v.major);
    crate::wire::lemma_i32_le_len(v.minor);
    crate::wire::lemma_i32_le_len(v.revision);
    assert(d.subrange(pos, pos + 4) =~= e.subrange(0, 4));
    assert(e.subrange(0, 4) =~= spec_i32_le(v.version));
    assert(d.subrange(pos + 4, pos + 8) =~= e.subrange(4, 8));
    assert(e.subrange(4, 8) =~= spec_i32_le(v.major));
    assert(d.subrange(pos + 8, pos + 12) =~= e.subrange(8, 12));
    assert(e.subrange(8, 12) =~= spec_i32_le(v.minor));
    assert(d.subrange(pos + 12, pos + 16) =~= e.subrange(12, 16));
    assert(e.subrange(12, 16) =~= spec_i32_le(v.revision));
    crate::wire::lemma_i32_le_roundtrip(v.version);
    crate::wire::lemma_i32_le_roundtrip(v.major);
    crate::wire::lemma_i32_le_roundtrip(v.minor);
    crate::wire::lemma_i32_le_roundtrip(v.revision);
}

} // verus!
