//! Entry-path normalization and classification.
//!
//! Every path stored in an archive directory is absolute in the engine's
//! resource namespace: `res://packs/<pack-id>/<relative path>`.  Reading
//! strips the two literal prefixes and the pack-id namespace segment;
//! writing puts them back.  The normalized relative path then decides
//! where a payload is routed.  All predicates here are stated over the
//! UTF-8 bytes of the path.

use vstd::prelude::*;
use vstd::string::StringSliceAdditionalSpecFns;

verus! {

/// The byte 0x2f, `/`: the path separator.
pub const SLASH: u8 = 0x2f;

/// Bytes of the literal `res://`.
pub open spec fn spec_res_prefix() -> Seq<u8> {
    seq![0x72u8, 0x65u8, 0x73u8, 0x3au8, 0x2fu8, 0x2fu8]
}

/// Bytes of the literal `packs/`.
pub open spec fn spec_packs_prefix() -> Seq<u8> {
    seq![0x70u8, 0x61u8, 0x63u8, 0x6bu8, 0x73u8, 0x2fu8]
}

/// Bytes of the duplicate metadata file name `pack.json`.
pub open spec fn spec_pack_file_name() -> Seq<u8> {
    seq![0x70u8, 0x61u8, 0x63u8, 0x6bu8, 0x2eu8, 0x6au8, 0x73u8, 0x6fu8, 0x6eu8]
}

/// Bytes of the tag-index file name `data/default.dungeondraft_tags`.
pub open spec fn spec_tags_file_name() -> Seq<u8> {
    seq![0x64u8, 0x61u8, 0x74u8, 0x61u8, 0x2fu8, 0x64u8, 0x65u8, 0x66u8, 0x61u8, 0x75u8, 0x6cu8,
        0x74u8, 0x2eu8, 0x64u8, 0x75u8, 0x6eu8, 0x67u8, 0x65u8, 0x6fu8, 0x6eu8, 0x64u8, 0x72u8,
        0x61u8, 0x66u8, 0x74u8, 0x5fu8, 0x74u8, 0x61u8, 0x67u8, 0x73u8]
}

/// Bytes of the object-texture prefix `textures/objects/`.
pub open spec fn spec_objects_prefix() -> Seq<u8> {
    seq![0x74u8, 0x65u8, 0x78u8, 0x74u8, 0x75u8, 0x72u8, 0x65u8, 0x73u8, 0x2fu8, 0x6fu8, 0x62u8,
        0x6au8, 0x65u8, 0x63u8, 0x74u8, 0x73u8, 0x2fu8]
}

/// Bytes of the extension `.json`.
pub open spec fn spec_json_suffix() -> Seq<u8> {
    seq![0x2eu8, 0x6au8, 0x73u8, 0x6fu8, 0x6eu8]
}

pub open spec fn starts_with(b: Seq<u8>, p: Seq<u8>) -> bool {
    b.len() >= p.len() && b.take(p.len() as int) == p
}

pub open spec fn ends_with(b: Seq<u8>, sfx: Seq<u8>) -> bool {
    b.len() >= sfx.len() && b.skip(b.len() - sfx.len()) == sfx
}

pub open spec fn contains_byte(b: Seq<u8>, x: u8) -> bool {
    exists|i: int| 0 <= i < b.len() && b[i] == x
}

/// `b` with prefix `p` removed, when it starts with `p`; otherwise `b`.
pub open spec fn strip_prefix(b: Seq<u8>, p: Seq<u8>) -> Seq<u8> {
    if starts_with(b, p) {
        b.skip(p.len() as int)
    } else {
        b
    }
}

/// Everything after the first `/` of `b`, or `None` when `b` has none.
pub open spec fn tail_after_slash(b: Seq<u8>) -> Option<Seq<u8>>
    decreases b.len(),
{
    if b.len() == 0 {
        None
    } else if b[0] == SLASH {
        Some(b.drop_first())
    } else {
        tail_after_slash(b.drop_first())
    }
}

/// Discards the first `/`-delimited segment (the pack-id namespace); a
/// path without a separator is kept whole.
pub open spec fn drop_namespace(b: Seq<u8>) -> Seq<u8> {
    match tail_after_slash(b) {
        Some(t) => t,
        None => b,
    }
}

/// Normal form of a directory-entry path: strip a literal `res://`, then
/// a literal `packs/`, then the namespace segment.
pub open spec fn spec_normalize(b: Seq<u8>) -> Seq<u8> {
    drop_namespace(strip_prefix(strip_prefix(b, spec_res_prefix()), spec_packs_prefix()))
}

/// A `<pack-id>.json` file at the namespace root: no separator, a
/// `.json` extension, and a nonempty stem.
pub open spec fn spec_is_root_json(b: Seq<u8>) -> bool {
    &&& !contains_byte(b, SLASH)
    &&& ends_with(b, spec_json_suffix())
    &&& b.len() > spec_json_suffix().len()
}

/// A `pack.json` file, in any directory.
pub open spec fn spec_is_pack_file(b: Seq<u8>) -> bool {
    b == spec_pack_file_name() || ends_with(b, seq![SLASH] + spec_pack_file_name())
}

/// A tag-index document, recognized by its well-known file name.
pub open spec fn spec_is_tags_file(b: Seq<u8>) -> bool {
    ends_with(b, spec_tags_file_name())
}

/// A payload under the object-texture prefix.
pub open spec fn spec_is_objects_file(b: Seq<u8>) -> bool {
    starts_with(b, spec_objects_prefix())
}

/// Where a payload with the given normalized path is routed.
#[derive(Debug, PartialEq, Eq, Structural, Clone, Copy)]
pub enum PathClass {
    /// The pack-metadata document (the root `<pack-id>.json`, or the
    /// top-level `pack.json` duplicate, which holds identical text).
    MetaDoc,
    /// The tag-index document.
    TagsDoc,
    /// An object texture, kept in `object_files`.
    ObjectFile,
    /// A nested duplicate metadata document, discarded.
    PackDup,
    /// Any other payload, kept in `other_files`.
    OtherFile,
}

/// Classification of a normalized path, tried in the reader's order.
pub open spec fn spec_classify(b: Seq<u8>) -> PathClass {
    if spec_is_root_json(b) {
        PathClass::MetaDoc
    } else if spec_is_tags_file(b) {
        PathClass::TagsDoc
    } else if spec_is_objects_file(b) {
        PathClass::ObjectFile
    } else if spec_is_pack_file(b) {
        PathClass::PackDup
    } else {
        PathClass::OtherFile
    }
}

// ---------------------------------------------------------------------
// Executable byte helpers
// ---------------------------------------------------------------------

pub fn bytes_eq(a: &[u8], b: &[u8]) -> (r: bool)
    ensures
        r == (a@ == b@),
{
    if a.len() != b.len() {
        proof {
            assert(a@ != b@);
        }
        return false;
    }
    let n = a.len();
    let mut i: usize = 0;
    while i < n
        invariant
            n == a@.len() == b@.len(),
            i <= n,
            forall|k: int| 0 <= k < i ==> a@[k] == b@[k],
        decreases n - i,
    {
        if a[i] != b[i] {
            return false;
        }
        i = i + 1;
    }
    proof {
        assert(a@ =~= b@);
    }
    true
}

pub fn bytes_starts_with(b: &[u8], p: &[u8]) -> (r: bool)
    ensures
        r == starts_with(b@, p@),
{
    if b.len() < p.len() {
        return false;
    }
    let n = p.len();
    let mut i: usize = 0;
    while i < n
        invariant
            n == p@.len() <= b@.len(),
            i <= n,
            forall|k: int| 0 <= k < i ==> b@[k] == p@[k],
        decreases n - i,
    {
        if b[i] != p[i] {
            proof {
                assert(b@.take(p@.len() as int)[i as int] != p@[i as int]);
            }
            return false;
        }
        i = i + 1;
    }
    proof {
        assert(b@.take(p@.len() as int) =~= p@);
    }
    true
}

pub fn bytes_ends_with(b: &[u8], sfx: &[u8]) -> (r: bool)
    ensures
        r == ends_with(b@, sfx@),
{
    if b.len() < sfx.len() {
        return false;
    }
    let start = b.len() - sfx.len();
    let n = sfx.len();
    let mut i: usize = 0;
    while i < n
        invariant
            n == sfx@.len(),
            start == b@.len() - n,
            n <= b@.len(),
            start + n <= usize::MAX,
            i <= n,
            forall|k: int| 0 <= k < i ==> b@[start + k] == sfx@[k],
        decreases n - i,
    {
        if b[start + i] != sfx[i] {
            proof {
                assert(b@.skip(b@.len() - sfx@.len())[i as int] != sfx@[i as int]);
            }
            return false;
        }
        i = i + 1;
    }
    proof {
        assert(b@.skip(b@.len() - sfx@.len()) =~= sfx@);
    }
    true
}

/// First index at or after `from` where byte `x` occurs.
pub fn find_byte(b: &[u8], from: usize, x: u8) -> (r: Option<usize>)
    requires
        from <= b@.len(),
    ensures
        r matches Some(i) ==> (from <= i < b@.len() && b@[i as int] == x && forall|k: int|
            from <= k < i ==> b@[k] != x),
        r is None ==> forall|k: int| from <= k < b@.len() ==> b@[k] != x,
{
    let n = b.len();
    let mut i: usize = from;
    while i < n
        invariant
            from <= i <= n,
            n == b@.len(),
            forall|k: int| from <= k < i ==> b@[k] != x,
        decreases n - i,
    {
        if b[i] == x {
            return Some(i);
        }
        i = i + 1;
    }
    None
}

// ---------------------------------------------------------------------
// Executable constants
// ---------------------------------------------------------------------

pub fn res_prefix() -> (r: [u8; 6])
    ensures
        r@ == spec_res_prefix(),
{
    let r: [u8; 6] = [0x72, 0x65, 0x73, 0x3a, 0x2f, 0x2f];
    proof {
        assert(r@ =~= spec_res_prefix());
    }
    r
}

pub fn packs_prefix() -> (r: [u8; 6])
    ensures
        r@ == spec_packs_prefix(),
{
    let r: [u8; 6] = [0x70, 0x61, 0x63, 0x6b, 0x73, 0x2f];
    proof {
        assert(r@ =~= spec_packs_prefix());
    }
    r
}

pub fn pack_file_name() -> (r: [u8; 9])
    ensures
        r@ == spec_pack_file_name(),
{
    let r: [u8; 9] = [0x70, 0x61, 0x63, 0x6b, 0x2e, 0x6a, 0x73, 0x6f, 0x6e];
    proof {
        assert(r@ =~= spec_pack_file_name());
    }
    r
}

pub fn slash_pack_file_name() -> (r: [u8; 10])
    ensures
        r@ == seq![SLASH] + spec_pack_file_name(),
{
    let r: [u8; 10] = [0x2f, 0x70, 0x61, 0x63, 0x6b, 0x2e, 0x6a, 0x73, 0x6f, 0x6e];
    proof {
        assert(r@ =~= seq![SLASH] + spec_pack_file_name());
    }
    r
}

pub fn tags_file_name() -> (r: [u8; 30])
    ensures
        r@ == spec_tags_file_name(),
{
    let r: [u8; 30] = [0x64, 0x61, 0x74, 0x61, 0x2f, 0x64, 0x65, 0x66, 0x61, 0x75, 0x6c, 0x74,
        0x2e, 0x64, 0x75, 0x6e, 0x67, 0x65, 0x6f, 0x6e, 0x64, 0x72, 0x61, 0x66, 0x74, 0x5f, 0x74,
        0x61, 0x67, 0x73];
    proof {
        assert(r@ =~= spec_tags_file_name());
    }
    r
}

pub fn objects_prefix() -> (r: [u8; 17])
    ensures
        r@ == spec_objects_prefix(),
{
    let r: [u8; 17] = [0x74, 0x65, 0x78, 0x74, 0x75, 0x72, 0x65, 0x73, 0x2f, 0x6f, 0x62, 0x6a,
        0x65, 0x63, 0x74, 0x73, 0x2f];
    proof {
        assert(r@ =~= spec_objects_prefix());
    }
    r
}

pub fn json_suffix() -> (r: [u8; 5])
    ensures
        r@ == spec_json_suffix(),
{
    let r: [u8; 5] = [0x2e, 0x6a, 0x73, 0x6f, 0x6e];
    proof {
        assert(r@ =~= spec_json_suffix());
    }
    r
}

// ---------------------------------------------------------------------
// Executable normalization and classification
// ---------------------------------------------------------------------

/// Normal form of a raw directory-entry path.
pub fn normalize_path_bytes(raw: &Vec<u8>) -> (r: Vec<u8>)
    ensures
        r@ == spec_normalize(raw@),
{
    let mut start: usize = 0;
    let res = res_prefix();
    if bytes_starts_with(raw.as_slice(), res.as_slice()) {
        start = 6;
    }
    proof {
        let s1 = strip_prefix(raw@, spec_res_prefix());
        assert(raw@.skip(start as int) =~= s1);
    }
    let packs = packs_prefix();
    let after_res = vstd::slice::slice_subrange(raw.as_slice(), start, raw.len());
    if bytes_starts_with(after_res, packs.as_slice()) {
        start = start + 6;
    }
    proof {
        let s1 = strip_prefix(raw@, spec_res_prefix());
        let s2 = strip_prefix(s1, spec_packs_prefix());
        if starts_with(s1, spec_packs_prefix()) {
            assert(raw@.skip(start as int) =~= s2);
        } else {
            assert(raw@.skip(start as int) =~= s2);
        }
    }
    let stripped = vstd::slice::slice_subrange(raw.as_slice(), start, raw.len());
    match find_byte(stripped, 0, SLASH) {
        Some(i) => {
            let r = vstd::slice::slice_to_vec(
                vstd::slice::slice_subrange(stripped, i + 1, stripped.len()),
            );
            proof {
                lemma_tail_after_slash_at(stripped@, i as int);
                assert(r@ =~= stripped@.skip(i + 1));
            }
            r
        },
        None => {
            let r = vstd::slice::slice_to_vec(stripped);
            proof {
                lemma_tail_after_slash_none(stripped@);
            }
            r
        },
    }
}

/// Locates `tail_after_slash` at the first separator position.
pub proof fn lemma_tail_after_slash_at(b: Seq<u8>, i: int)
    requires
        0 <= i < b.len(),
        b[i] == SLASH,
        forall|k: int| 0 <= k < i ==> b[k] != SLASH,
    ensures
        tail_after_slash(b) == Some(b.skip(i + 1)),
    decreases i,
{
    if i == 0 {
        assert(b.drop_first() =~= b.skip(1));
    } else {
        lemma_tail_after_slash_at(b.drop_first(), i - 1);
        assert(b.drop_first().skip(i) =~= b.skip(i + 1));
    }
}

/// A path without a separator has no tail.
pub proof fn lemma_tail_after_slash_none(b: Seq<u8>)
    requires
        forall|k: int| 0 <= k < b.len() ==> b[k] != SLASH,
    ensures
        tail_after_slash(b) is None,
    decreases b.len(),
{
    if b.len() > 0 {
        lemma_tail_after_slash_none(b.drop_first());
    }
}

/// True for `<pack-id>.json` paths at the namespace root.
pub fn is_root_json_file(path: &str) -> (r: bool)
    ensures
        r == spec_is_root_json(path.spec_bytes()),
{
    let b = path.as_bytes();
    let sfx = json_suffix();
    match find_byte(b, 0, SLASH) {
        Some(_) => false,
        None => bytes_ends_with(b, sfx.as_slice()) && b.len() > 5,
    }
}

/// True for `pack.json` paths, in any directory.
pub fn is_pack_file(path: &str) -> (r: bool)
    ensures
        r == spec_is_pack_file(path.spec_bytes()),
{
    let b = path.as_bytes();
    let name = pack_file_name();
    let slash_name = slash_pack_file_name();
    bytes_eq(b, name.as_slice()) || bytes_ends_with(b, slash_name.as_slice())
}

/// True for `data/default.dungeondraft_tags` paths, in any directory.
pub fn is_tags_file(path: &str) -> (r: bool)
    ensures
        r == spec_is_tags_file(path.spec_bytes()),
{
    let b = path.as_bytes();
    let name = tags_file_name();
    bytes_ends_with(b, name.as_slice())
}

/// True for paths under `textures/objects/`.
pub fn is_objects_file(path: &str) -> (r: bool)
    ensures
        r == spec_is_objects_file(path.spec_bytes()),
{
    let b = path.as_bytes();
    let prefix = objects_prefix();
    bytes_starts_with(b, prefix.as_slice())
}

/// Classifies a normalized path, given as its UTF-8 bytes.
pub fn classify_bytes(b: &[u8]) -> (r: PathClass)
    ensures
        r == spec_classify(b@),
{
    let sfx = json_suffix();
    let root_json = match find_byte(b, 0, SLASH) {
        Some(_) => false,
        None => bytes_ends_with(b, sfx.as_slice()) && b.len() > 5,
    };
    if root_json {
        PathClass::MetaDoc
    } else {
        let tags_name = tags_file_name();
        if bytes_ends_with(b, tags_name.as_slice()) {
            PathClass::TagsDoc
        } else {
            let obj = objects_prefix();
            if bytes_starts_with(b, obj.as_slice()) {
                PathClass::ObjectFile
            } else {
                let name = pack_file_name();
                let slash_name = slash_pack_file_name();
                if bytes_eq(b, name.as_slice()) || bytes_ends_with(b, slash_name.as_slice()) {
                    PathClass::PackDup
                } else {
                    PathClass::OtherFile
                }
            }
        }
    }
}

// ---------------------------------------------------------------------
// Normalization laws
// ---------------------------------------------------------------------

/// A full entry path `res://packs/<id>/<p>` normalizes to `<p>`, for any
/// pack id free of separators.
pub proof fn lemma_path_normalization(id: Seq<u8>, p: Seq<u8>)
    requires
        !contains_byte(id, SLASH),
    ensures
        spec_normalize(spec_res_prefix() + spec_packs_prefix() + id + seq![SLASH] + p) == p,
{
    let full = spec_res_prefix() + spec_packs_prefix() + id + seq![SLASH] + p;
    assert(full.take(6) =~= spec_res_prefix());
    let s1 = full.skip(6);
    assert(strip_prefix(full, spec_res_prefix()) == s1);
    assert(s1.take(6) =~= spec_packs_prefix());
    let s2 = s1.skip(6);
    assert(strip_prefix(s1, spec_packs_prefix()) == s2);
    assert(s2 =~= id + seq![SLASH] + p);
    assert(s2[id.len() as int] == SLASH);
    assert forall|k: int| 0 <= k < id.len() implies s2[k] != SLASH by {
        assert(s2[k] == id[k]);
    }
    lemma_tail_after_slash_at(s2, id.len() as int);
    assert(s2.skip(id.len() as int + 1) =~= p);
}

/// A path without any separator has no namespace segment and normalizes
/// to itself.
pub proof fn lemma_normalize_no_namespace(q: Seq<u8>)
    requires
        !contains_byte(q, SLASH),
    ensures
        spec_normalize(q) == q,
{
    if starts_with(q, spec_res_prefix()) {
        assert(q[4] == spec_res_prefix()[4]);
        assert(q[4] == SLASH);
        assert(contains_byte(q, SLASH));
    }
    if starts_with(q, spec_packs_prefix()) {
        assert(q[5] == spec_packs_prefix()[5]);
        assert(q[5] == SLASH);
        assert(contains_byte(q, SLASH));
    }
    lemma_tail_after_slash_none(q);
}

/// The root metadata path `res://packs/<id>.json` normalizes to
/// `<id>.json`.
pub proof fn lemma_normalize_root_json(id: Seq<u8>)
    requires
        !contains_byte(id, SLASH),
    ensures
        spec_normalize(spec_res_prefix() + spec_packs_prefix() + id + spec_json_suffix()) == id
            + spec_json_suffix(),
{
    let full = spec_res_prefix() + spec_packs_prefix() + id + spec_json_suffix();
    assert(full.take(6) =~= spec_res_prefix());
    let s1 = full.skip(6);
    assert(strip_prefix(full, spec_res_prefix()) == s1);
    assert(s1.take(6) =~= spec_packs_prefix());
    let s2 = s1.skip(6);
    assert(strip_prefix(s1, spec_packs_prefix()) == s2);
    assert(s2 =~= id + spec_json_suffix());
    assert forall|k: int| 0 <= k < s2.len() implies s2[k] != SLASH by {
        if k < id.len() {
            assert(s2[k] == id[k]);
        } else {
            assert(s2[k] == spec_json_suffix()[k - id.len()]);
        }
    }
    lemma_tail_after_slash_none(s2);
}

} // verus!
