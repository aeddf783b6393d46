//! The archive codec: reading and writing whole asset packs, and the
//! tag cleaning entry point.
//!
//! An archive is a 4-byte magic marker, a version record, a 64-byte
//! reserved region, a directory of file entries, and the payload bytes
//! of every file in directory-offset order.  Reading tolerates a wrong
//! magic marker (callers may warn via [`has_pack_magic`]), decodes the
//! two embedded documents, and routes every other payload by its
//! normalized path.  Writing regenerates the directory with freshly
//! computed offsets and stores the metadata document twice, as the
//! original producer does.

use vstd::prelude::*;
use vstd::bytes::spec_u32_from_le_bytes;
use vstd::utf8::{decode_utf8, encode_utf8, valid_utf8};
use crate::containers::{FileStore, distinct_names, has_key, key_index, key_set, unique_keys};
use crate::doc_meta::{emit_meta_doc, parse_meta_doc, spec_emit_meta, spec_parse_meta_doc};
use crate::doc_tags::{emit_tags_doc, parse_tags_doc, spec_emit_tags, spec_parse_tags_doc};
use crate::error::{DocKind, ErrSpec, PackError};
use crate::file_meta_data::{EntryV, FileMetaData, spec_parse_entry};
use crate::godot_version::{GodotVersion, spec_parse_version};
use crate::pack_meta::{MetaV, PackMeta, id_wf, meta_wf};
use crate::path_utils::{PathClass, classify_bytes, spec_classify};
use crate::tags::{Tags, TagsV, spec_clean};
use crate::utils::{string_from_utf8, unpack_file};
use crate::wire::read_u32_le;

verus! {

/// Bytes of the magic marker at the head of an archive.
pub open spec fn spec_magic() -> Seq<u8> {
    seq![0x47u8, 0x44u8, 0x50u8, 0x43u8]
}

/// Mathematical image of an [`AssetPack`].
pub struct PackView {
    pub godot_version: GodotVersion,
    pub meta: MetaV,
    pub tags: TagsV,
    pub object_files: Seq<(Seq<char>, Seq<u8>)>,
    pub other_files: Seq<(Seq<char>, Seq<u8>)>,
}

/// A decoded asset pack: the version record, the two embedded documents,
/// and every payload routed by its normalized path.
#[derive(Debug)]
pub struct AssetPack {
    pub godot_version: GodotVersion,
    pub meta: PackMeta,
    pub tags: Tags,
    pub object_files: FileStore,
    pub other_files: FileStore,
}

impl View for AssetPack {
    type V = PackView;

    open spec fn view(&self) -> PackView {
        PackView {
            godot_version: self.godot_version,
            meta: self.meta@,
            tags: self.tags@,
            object_files: self.object_files@,
            other_files: self.other_files@,
        }
    }
}

/// What reading guarantees of a pack it produced: the containers carry
/// distinct keys, the tag index lists are distinct, and every stored
/// path classifies back to the store it sits in.
pub open spec fn read_wf(v: PackView) -> bool {
    &&& unique_keys(v.object_files)
    &&& unique_keys(v.other_files)
    &&& unique_keys(v.tags.tags)
    &&& unique_keys(v.tags.sets)
    &&& forall|j: int| 0 <= j < v.tags.tags.len() ==> distinct_names(#[trigger] v.tags.tags[j].1)
    &&& forall|j: int| 0 <= j < v.tags.sets.len() ==> distinct_names(#[trigger] v.tags.sets[j].1)
    &&& forall|j: int|
        0 <= j < v.object_files.len() ==> spec_classify(
            encode_utf8(#[trigger] v.object_files[j].0),
        ) == PathClass::ObjectFile
    &&& forall|j: int|
        0 <= j < v.other_files.len() ==> spec_classify(encode_utf8(#[trigger] v.other_files[j].0))
            == PathClass::OtherFile
}

/// A pack a caller may hand to the writer and expect to read back: what
/// reading guarantees, plus a usable pack id and well-formed number
/// tokens (reading guarantees those too; a hand-built pack must match).
pub open spec fn pack_wf(v: PackView) -> bool {
    &&& read_wf(v)
    &&& meta_wf(v.meta)
    &&& id_wf(v.meta.id)
}

impl AssetPack {
    /// The invariant [`pack_wf`] on the executable value.
    pub open spec fn wf(&self) -> bool {
        pack_wf(self@)
    }
}

/// True when the stream begins with the asset-pack magic marker.  A
/// mismatch does not stop decoding; callers use this to warn.
pub fn has_pack_magic(data: &Vec<u8>) -> (r: bool)
    ensures
        r == (data@.len() >= 4 && data@.subrange(0, 4) == spec_magic()),
{
    if data.len() >= 4 && data[0] == 0x47 && data[1] == 0x44 && data[2] == 0x50 && data[3] == 0x43 {
        proof {
            assert(data@.subrange(0, 4) =~= spec_magic());
        }
        true
    } else {
        proof {
            if data@.len() >= 4 && data@.subrange(0, 4) == spec_magic() {
                assert(data@[0] == data@.subrange(0, 4)[0]);
                assert(data@[1] == data@.subrange(0, 4)[1]);
                assert(data@[2] == data@.subrange(0, 4)[2]);
                assert(data@[3] == data@.subrange(0, 4)[3]);
            }
        }
        false
    }
}

// ---------------------------------------------------------------------
// Read specification
// ---------------------------------------------------------------------

/// The directory entries at `pos`, `n` of them in sequence.
pub open spec fn spec_parse_entries(d: Seq<u8>, pos: int, n: nat) -> Result<(Seq<EntryV>, int), ErrSpec>
    decreases n,
{
    if n == 0 {
        Ok((Seq::empty(), pos))
    } else {
        match spec_parse_entry(d, pos) {
            Ok(p) => match spec_parse_entries(d, p.1, (n - 1) as nat) {
                Ok(q) => Ok((seq![p.0] + q.0, q.1)),
                Err(e) => Err(e),
            },
            Err(e) => Err(e),
        }
    }
}

/// Inserts an entry into an offset-sorted sequence, after any entry with
/// the same offset, preserving directory order among equals.
pub open spec fn spec_insert_entry(e: EntryV, s: Seq<EntryV>) -> Seq<EntryV>
    decreases s.len(),
{
    if s.len() == 0 {
        seq![e]
    } else if e.offset < s[0].offset {
        seq![e] + s
    } else {
        seq![s[0]] + spec_insert_entry(e, s.drop_first())
    }
}

/// Stable sort of the directory by ascending offset.
pub open spec fn spec_sort_entries(s: Seq<EntryV>) -> Seq<EntryV>
    decreases s.len(),
{
    if s.len() == 0 {
        Seq::empty()
    } else {
        spec_insert_entry(s.last(), spec_sort_entries(s.drop_last()))
    }
}

/// The routing state while payloads are consumed.
pub struct ReadState {
    pub meta: Option<MetaV>,
    pub tags: Option<TagsV>,
    pub object_files: Seq<(Seq<char>, Seq<u8>)>,
    pub other_files: Seq<(Seq<char>, Seq<u8>)>,
}

pub open spec fn read_state_empty() -> ReadState {
    ReadState { meta: None, tags: None, object_files: Seq::empty(), other_files: Seq::empty() }
}

/// Adds or replaces a key, keeping a present key's position.
pub open spec fn spec_upsert(
    s: Seq<(Seq<char>, Seq<u8>)>,
    k: Seq<char>,
    v: Seq<u8>,
) -> Seq<(Seq<char>, Seq<u8>)> {
    if has_key(s, k) {
        s.update(key_index(s, k), (k, v))
    } else {
        s.push((k, v))
    }
}

/// Consumes one payload per entry, in the given order, routing each by
/// its path's classification.  Metadata and tag documents are parsed on
/// the spot; the nested `pack.json` duplicate is dropped.
pub open spec fn spec_consume(d: Seq<u8>, pos: int, entries: Seq<EntryV>, st: ReadState) -> Result<
    (ReadState, int),
    ErrSpec,
>
    decreases entries.len(),
{
    if entries.len() == 0 {
        Ok((st, pos))
    } else {
        let e = entries[0];
        if pos < 0 || pos + e.size > d.len() {
            Err(ErrSpec::Truncated)
        } else {
            let payload = d.subrange(pos, pos + e.size);
            let pos2 = pos + e.size;
            let pb = encode_utf8(e.path);
            match spec_classify(pb) {
                PathClass::MetaDoc => if !valid_utf8(payload) {
                    Err(ErrSpec::Encoding)
                } else {
                    match spec_parse_meta_doc(payload) {
                        Some(m) => spec_consume(
                            d,
                            pos2,
                            entries.drop_first(),
                            ReadState {
                                meta: Some(m),
                                tags: st.tags,
                                object_files: st.object_files,
                                other_files: st.other_files,
                            },
                        ),
                        None => Err(
                            ErrSpec::Schema {
                                doc: DocKind::PackMetaDoc,
                                raw: decode_utf8(payload),
                            },
                        ),
                    }
                },
                PathClass::TagsDoc => if !valid_utf8(payload) {
                    Err(ErrSpec::Encoding)
                } else {
                    match spec_parse_tags_doc(payload) {
                        Some(t) => spec_consume(
                            d,
                            pos2,
                            entries.drop_first(),
                            ReadState {
                                meta: st.meta,
                                tags: Some(t),
                                object_files: st.object_files,
                                other_files: st.other_files,
                            },
                        ),
                        None => Err(
                            ErrSpec::Schema { doc: DocKind::TagsDoc, raw: decode_utf8(payload) },
                        ),
                    }
                },
                PathClass::ObjectFile => spec_consume(
                    d,
                    pos2,
                    entries.drop_first(),
                    ReadState {
                        meta: st.meta,
                        tags: st.tags,
                        object_files: spec_upsert(st.object_files, e.path, payload),
                        other_files: st.other_files,
                    },
                ),
                PathClass::PackDup => spec_consume(d, pos2, entries.drop_first(), st),
                PathClass::OtherFile => spec_consume(
                    d,
                    pos2,
                    entries.drop_first(),
                    ReadState {
                        meta: st.meta,
                        tags: st.tags,
                        object_files: st.object_files,
                        other_files: spec_upsert(st.other_files, e.path, payload),
                    },
                ),
            }
        }
    }
}

/// The whole read: version record, directory, payloads in offset order,
/// and the assembled pack.  An archive without a tag-index document gets
/// an empty tag index; one without a metadata document is rejected.
pub open spec fn spec_read(d: Seq<u8>) -> Result<PackView, ErrSpec> {
    if d.len() < 4 {
        Err(ErrSpec::Truncated)
    } else {
        match spec_parse_version(d, 4) {
            Ok(vp) => {
                let p1 = vp.1;
                if p1 + 64 + 4 > d.len() {
                    Err(ErrSpec::Truncated)
                } else {
                    let count = spec_u32_from_le_bytes(d.subrange(p1 + 64, p1 + 68));
                    match spec_parse_entries(d, p1 + 68, count as nat) {
                        Ok(ep) => {
                            let sorted = spec_sort_entries(ep.0);
                            match spec_consume(d, ep.1, sorted, read_state_empty()) {
                                Ok(sp) => match sp.0.meta {
                                    Some(m) => Ok(
                                        PackView {
                                            godot_version: vp.0,
                                            meta: m,
                                            tags: match sp.0.tags {
                                                Some(t) => t,
                                                None => TagsV {
                                                    tags: Seq::empty(),
                                                    sets: Seq::empty(),
                                                },
                                            },
                                            object_files: sp.0.object_files,
                                            other_files: sp.0.other_files,
                                        },
                                    ),
                                    None => Err(ErrSpec::MissingMeta),
                                },
                                Err(e) => Err(e),
                            }
                        },
                        Err(e) => Err(e),
                    }
                }
            },
            Err(e) => Err(e),
        }
    }
}

// ---------------------------------------------------------------------
// Write specification
// ---------------------------------------------------------------------

/// Absolute path of the root metadata document: `res://packs/<id>.json`.
pub open spec fn spec_meta_path(id: Seq<char>) -> Seq<u8> {
    crate::path_utils::spec_res_prefix() + crate::path_utils::spec_packs_prefix() + encode_utf8(id)
        + crate::path_utils::spec_json_suffix()
}

/// Absolute path of a file inside the pack: `res://packs/<id>/<rel>`.
pub open spec fn spec_inner_path(id: Seq<char>, rel: Seq<u8>) -> Seq<u8> {
    crate::path_utils::spec_res_prefix() + crate::path_utils::spec_packs_prefix() + encode_utf8(id)
        + seq![crate::path_utils::SLASH] + rel
}

/// Everything the writer stores, as (absolute path bytes, payload)
/// pairs in emission order: the metadata document twice, the tag-index
/// document, then the object and other files.
pub open spec fn spec_payload_list(v: PackView) -> Seq<(Seq<u8>, Seq<u8>)> {
    seq![
        (spec_meta_path(v.meta.id), spec_emit_meta(v.meta)),
        (
            spec_inner_path(v.meta.id, crate::path_utils::spec_pack_file_name()),
            spec_emit_meta(v.meta),
        ),
        (
            spec_inner_path(v.meta.id, crate::path_utils::spec_tags_file_name()),
            spec_emit_tags(v.tags),
        ),
    ] + v.object_files.map_values(
        |e: (Seq<char>, Seq<u8>)| (spec_inner_path(v.meta.id, encode_utf8(e.0)), e.1),
    ) + v.other_files.map_values(
        |e: (Seq<char>, Seq<u8>)| (spec_inner_path(v.meta.id, encode_utf8(e.0)), e.1),
    )
}

/// On-disk size of the directory for the given list.
pub open spec fn spec_dir_size(l: Seq<(Seq<u8>, Seq<u8>)>) -> int
    decreases l.len(),
{
    if l.len() == 0 {
        0
    } else {
        crate::file_meta_data::spec_entry_size(l[0].0.len() as int) + spec_dir_size(l.drop_first())
    }
}

/// Total payload bytes of the list.
pub open spec fn spec_total_payload(l: Seq<(Seq<u8>, Seq<u8>)>) -> int
    decreases l.len(),
{
    if l.len() == 0 {
        0
    } else {
        l[0].1.len() + spec_total_payload(l.drop_first())
    }
}

/// Directory bytes for the list, assigning offsets sequentially from
/// `offset`.
pub open spec fn spec_dir_bytes(l: Seq<(Seq<u8>, Seq<u8>)>, offset: int) -> Seq<u8>
    decreases l.len(),
{
    if l.len() == 0 {
        Seq::empty()
    } else {
        crate::file_meta_data::spec_entry_bytes(l[0].0, offset as u64, l[0].1.len() as u64)
            + spec_dir_bytes(l.drop_first(), offset + l[0].1.len())
    }
}

/// Payload bytes of the list, in order.
pub open spec fn spec_payload_bytes(l: Seq<(Seq<u8>, Seq<u8>)>) -> Seq<u8>
    decreases l.len(),
{
    if l.len() == 0 {
        Seq::empty()
    } else {
        l[0].1 + spec_payload_bytes(l.drop_first())
    }
}

/// Every length fits its on-disk slot: the file count and each path
/// length fit the signed 32-bit fields, and every offset fits the
/// signed 64-bit field.
pub open spec fn spec_write_ok(v: PackView) -> bool {
    let l = spec_payload_list(v);
    &&& l.len() <= 0x7fffffff
    &&& forall|j: int| 0 <= j < l.len() ==> (#[trigger] l[j].0).len() <= 0x7fffffff
    &&& 88 + spec_dir_size(l) + spec_total_payload(l) <= 0x7fffffffffffffff
}

/// The bytes the writer produces: marker, version record, zeroed
/// reserved region, file count, directory, payloads.
pub open spec fn spec_write_bytes(v: PackView) -> Seq<u8> {
    let l = spec_payload_list(v);
    spec_magic() + crate::godot_version::spec_version_bytes(v.godot_version) + crate::wire::spec_zeros(
        64,
    ) + crate::wire::spec_i32_le(l.len() as i32) + spec_dir_bytes(l, 88 + spec_dir_size(l))
        + spec_payload_bytes(l)
}

// ---------------------------------------------------------------------
// Sorting the directory
// ---------------------------------------------------------------------

/// Views of a sequence of directory entries.
pub open spec fn fmd_views(s: Seq<FileMetaData>) -> Seq<EntryV> {
    s.map_values(|f: FileMetaData| f@)
}

/// `spec_insert_entry` places the entry at the first position whose
/// offset is strictly larger.
proof fn lemma_insert_entry_at(e: EntryV, s: Seq<EntryV>, j: int)
    requires
        0 <= j <= s.len(),
        forall|k: int| 0 <= k < j ==> (#[trigger] s[k]).offset <= e.offset,
        j == s.len() || e.offset < s[j].offset,
    ensures
        spec_insert_entry(e, s) == s.take(j) + seq![e] + s.skip(j),
    decreases j,
{
    if j == 0 {
        if s.len() == 0 {
            assert(seq![e] =~= s.take(0) + seq![e] + s.skip(0));
        } else {
            assert(seq![e] + s =~= s.take(0) + seq![e] + s.skip(0));
        }
    } else {
        assert(s[0].offset <= e.offset);
        assert forall|k: int| 0 <= k < j - 1 implies (#[trigger] s.drop_first()[k]).offset
            <= e.offset by {
            assert(s.drop_first()[k] == s[k + 1]);
        }
        lemma_insert_entry_at(e, s.drop_first(), j - 1);
        assert(seq![s[0]] + (s.drop_first().take(j - 1) + seq![e] + s.drop_first().skip(j - 1))
            =~= s.take(j) + seq![e] + s.skip(j));
        assert(spec_insert_entry(e, s) == seq![s[0]] + spec_insert_entry(e, s.drop_first()));
    }
}

/// Inserts an entry into an offset-sorted directory, after any equal
/// offsets.
fn insert_sorted(v: Vec<FileMetaData>, e: FileMetaData) -> (r: Vec<FileMetaData>)
    ensures
        fmd_views(r@) == spec_insert_entry(e@, fmd_views(v@)),
{
    let ghost pre = fmd_views(v@);
    let mut v2 = v;
    let n = v2.len();
    let mut j: usize = 0;
    while j < n && v2[j].offset <= e.offset
        invariant
            j <= n,
            n == v2@.len(),
            fmd_views(v2@) == pre,
            forall|k: int| 0 <= k < j ==> (#[trigger] pre[k]).offset <= e.offset,
        decreases n - j,
    {
        proof {
            assert(pre[j as int] == v2@[j as int]@);
        }
        j = j + 1;
    }
    proof {
        if j < n {
            assert(pre[j as int] == v2@[j as int]@);
        }
        lemma_insert_entry_at(e@, pre, j as int);
    }
    v2.insert(j, e);
    proof {
        assert(fmd_views(v2@) =~= pre.take(j as int) + seq![e@] + pre.skip(j as int));
    }
    v2
}

/// Stable-sorts the directory by ascending offset.
fn sort_entries(v: Vec<FileMetaData>) -> (r: Vec<FileMetaData>)
    ensures
        fmd_views(r@) == spec_sort_entries(fmd_views(v@)),
{
    let ghost orig = fmd_views(v@);
    let mut rest = v;
    let mut out: Vec<FileMetaData> = Vec::new();
    let ghost done = 0int;
    proof {
        assert(orig.take(0) =~= Seq::<EntryV>::empty());
        assert(fmd_views(out@) =~= spec_sort_entries(orig.take(0)));
        assert(fmd_views(rest@) =~= orig.skip(0));
    }
    while rest.len() > 0
        invariant
            0 <= done <= orig.len(),
            fmd_views(rest@) == orig.skip(done),
            fmd_views(out@) == spec_sort_entries(orig.take(done)),
        decreases rest@.len(),
    {
        proof {
            assert(orig.skip(done).len() == rest@.len());
        }
        let ghost pre_rest = rest@;
        let e = rest.remove(0);
        proof {
            assert(fmd_views(pre_rest)[0] == e@);
            assert(e@ == orig.skip(done)[0]);
            assert(e@ == orig[done]);
            assert forall|m: int| 0 <= m < rest@.len() implies fmd_views(rest@)[m] == orig.skip(
                done + 1,
            )[m] by {
                assert(rest@[m] == pre_rest[m + 1]);
                assert(fmd_views(pre_rest)[m + 1] == pre_rest[m + 1]@);
                assert(orig.skip(done)[m + 1] == orig[done + 1 + m]);
            }
            assert(fmd_views(rest@) =~= orig.skip(done + 1));
            assert(orig.take(done + 1).drop_last() =~= orig.take(done));
            assert(orig.take(done + 1).last() == orig[done]);
        }
        out = insert_sorted(out, e);
        proof {
            assert(fmd_views(out@) == spec_insert_entry(orig[done], spec_sort_entries(orig.take(
                done,
            ))));
            assert(spec_sort_entries(orig.take(done + 1)) == spec_insert_entry(
                orig.take(done + 1).last(),
                spec_sort_entries(orig.take(done + 1).drop_last()),
            ));
        }
        proof {
            done = done + 1;
        }
    }
    proof {
        assert(orig.take(done) =~= orig);
    }
    out
}

// ---------------------------------------------------------------------
// Executable reader
// ---------------------------------------------------------------------

pub open spec fn view_opt_meta(o: Option<PackMeta>) -> Option<MetaV> {
    match o {
        Some(m) => Some(m@),
        None => None,
    }
}

pub open spec fn view_opt_tags(o: Option<Tags>) -> Option<TagsV> {
    match o {
        Some(t) => Some(t@),
        None => None,
    }
}

/// Whatever consuming payloads returns, every path stored in
/// `object_files` classifies as an object file and every path in
/// `other_files` as an ordinary file.
pub proof fn lemma_consume_classified(d: Seq<u8>, pos: int, entries: Seq<EntryV>, st: ReadState)
    requires
        forall|j: int|
            0 <= j < st.object_files.len() ==> spec_classify(
                encode_utf8(#[trigger] st.object_files[j].0),
            ) == PathClass::ObjectFile,
        forall|j: int|
            0 <= j < st.other_files.len() ==> spec_classify(
                encode_utf8(#[trigger] st.other_files[j].0),
            ) == PathClass::OtherFile,
    ensures
        ({
            match spec_consume(d, pos, entries, st) {
                Ok(p) => {
                    &&& forall|j: int|
                        0 <= j < p.0.object_files.len() ==> spec_classify(
                            encode_utf8(#[trigger] p.0.object_files[j].0),
                        ) == PathClass::ObjectFile
                    &&& forall|j: int|
                        0 <= j < p.0.other_files.len() ==> spec_classify(
                            encode_utf8(#[trigger] p.0.other_files[j].0),
                        ) == PathClass::OtherFile
                },
                Err(_) => true,
            }
        }),
    decreases entries.len(),
{
    if entries.len() == 0 {
    } else {
        let e = entries[0];
        if pos < 0 || pos + e.size > d.len() {
        } else {
            let payload = d.subrange(pos, pos + e.size);
            let pos2 = pos + e.size;
            let pb = encode_utf8(e.path);
            match spec_classify(pb) {
                PathClass::MetaDoc => {
                    if valid_utf8(payload) {
                        match spec_parse_meta_doc(payload) {
                            Some(m) => {
                                lemma_consume_classified(
                                    d,
                                    pos2,
                                    entries.drop_first(),
                                    ReadState {
                                        meta: Some(m),
                                        tags: st.tags,
                                        object_files: st.object_files,
                                        other_files: st.other_files,
                                    },
                                );
                            },
                            None => {},
                        }
                    }
                },
                PathClass::TagsDoc => {
                    if valid_utf8(payload) {
                        match spec_parse_tags_doc(payload) {
                            Some(t) => {
                                lemma_consume_classified(
                                    d,
                                    pos2,
                                    entries.drop_first(),
                                    ReadState {
                                        meta: st.meta,
                                        tags: Some(t),
                                        object_files: st.object_files,
                                        other_files: st.other_files,
                                    },
                                );
                            },
                            None => {},
                        }
                    }
                },
                PathClass::ObjectFile => {
                    let up = spec_upsert(st.object_files, e.path, payload);
                    assert forall|j: int| 0 <= j < up.len() implies spec_classify(
                        encode_utf8(#[trigger] up[j].0),
                    ) == PathClass::ObjectFile by {
                        if has_key(st.object_files, e.path) {
                            crate::containers::lemma_key_index_bounds(st.object_files, e.path);
                            let idx = key_index(st.object_files, e.path);
                            if j == idx {
                                assert(up[j].0 == e.path);
                            } else {
                                assert(up[j] == st.object_files[j]);
                            }
                        } else {
                            if j < st.object_files.len() {
                                assert(up[j] == st.object_files[j]);
                            } else {
                                assert(up[j].0 == e.path);
                            }
                        }
                    }
                    lemma_consume_classified(
                        d,
                        pos2,
                        entries.drop_first(),
                        ReadState {
                            meta: st.meta,
                            tags: st.tags,
                            object_files: up,
                            other_files: st.other_files,
                        },
                    );
                },
                PathClass::PackDup => {
                    lemma_consume_classified(d, pos2, entries.drop_first(), st);
                },
                PathClass::OtherFile => {
                    let up = spec_upsert(st.other_files, e.path, payload);
                    assert forall|j: int| 0 <= j < up.len() implies spec_classify(
                        encode_utf8(#[trigger] up[j].0),
                    ) == PathClass::OtherFile by {
                        if has_key(st.other_files, e.path) {
                            crate::containers::lemma_key_index_bounds(st.other_files, e.path);
                            let idx = key_index(st.other_files, e.path);
                            if j == idx {
                                assert(up[j].0 == e.path);
                            } else {
                                assert(up[j] == st.other_files[j]);
                            }
                        } else {
                            if j < st.other_files.len() {
                                assert(up[j] == st.other_files[j]);
                            } else {
                                assert(up[j].0 == e.path);
                            }
                        }
                    }
                    lemma_consume_classified(
                        d,
                        pos2,
                        entries.drop_first(),
                        ReadState {
                            meta: st.meta,
                            tags: st.tags,
                            object_files: st.object_files,
                            other_files: up,
                        },
                    );
                },
            }
        }
    }
}

// ---------------------------------------------------------------------
// Writer helpers
// ---------------------------------------------------------------------

/// Both partial sums of the list's sizes are nonnegative and the whole
/// splits at any point.
proof fn lemma_sizes_split(l: Seq<(Seq<u8>, Seq<u8>)>, k: int)
    requires
        0 <= k <= l.len(),
    ensures
        spec_dir_size(l) == spec_dir_size(l.take(k)) + spec_dir_size(l.skip(k)),
        spec_total_payload(l) == spec_total_payload(l.take(k)) + spec_total_payload(l.skip(k)),
        spec_dir_size(l.take(k)) >= 0,
        spec_total_payload(l.take(k)) >= 0,
        spec_dir_size(l.skip(k)) >= 0,
        spec_total_payload(l.skip(k)) >= 0,
    decreases l.len(),
{
    if k == 0 {
        assert(l.take(0) =~= Seq::<(Seq<u8>, Seq<u8>)>::empty());
        assert(l.skip(0) =~= l);
        lemma_sizes_nonneg(l);
    } else {
        assert(l.take(k)[0] == l[0]);
        assert(l.take(k).drop_first() =~= l.drop_first().take(k - 1));
        assert(l.skip(k) =~= l.drop_first().skip(k - 1));
        lemma_sizes_split(l.drop_first(), k - 1);
    }
}

proof fn lemma_sizes_nonneg(l: Seq<(Seq<u8>, Seq<u8>)>)
    ensures
        spec_dir_size(l) >= 0,
        spec_total_payload(l) >= 0,
    decreases l.len(),
{
    if l.len() > 0 {
        lemma_sizes_nonneg(l.drop_first());
    }
}

/// One more entry's contribution to the directory size and payload
/// total.
proof fn lemma_sizes_snoc(l: Seq<(Seq<u8>, Seq<u8>)>, i: int)
    requires
        0 <= i < l.len(),
    ensures
        spec_dir_size(l.take(i + 1)) == spec_dir_size(l.take(i))
            + crate::file_meta_data::spec_entry_size(l[i].0.len() as int),
        spec_total_payload(l.take(i + 1)) == spec_total_payload(l.take(i)) + l[i].1.len(),
    decreases i,
{
    if i == 0 {
        assert(l.take(1) =~= seq![l[0]]);
        assert(l.take(1).drop_first() =~= Seq::<(Seq<u8>, Seq<u8>)>::empty());
        assert(l.take(0) =~= Seq::<(Seq<u8>, Seq<u8>)>::empty());
    } else {
        lemma_sizes_snoc(l.drop_first(), i - 1);
        assert(l.take(i + 1)[0] == l[0]);
        assert(l.take(i)[0] == l[0]);
        assert(l.take(i + 1).drop_first() =~= l.drop_first().take(i));
        assert(l.take(i).drop_first() =~= l.drop_first().take(i - 1));
        assert(l.drop_first()[i - 1] == l[i]);
    }
}

/// Unfolds the directory and payload byte streams one entry.
proof fn lemma_write_step(l: Seq<(Seq<u8>, Seq<u8>)>, k: int, off: int)
    requires
        0 <= k < l.len(),
    ensures
        spec_dir_bytes(l.skip(k), off) == crate::file_meta_data::spec_entry_bytes(
            l[k].0,
            off as u64,
            l[k].1.len() as u64,
        ) + spec_dir_bytes(l.skip(k + 1), off + l[k].1.len()),
        spec_payload_bytes(l.skip(k)) == l[k].1 + spec_payload_bytes(l.skip(k + 1)),
        spec_total_payload(l.skip(k)) == l[k].1.len() + spec_total_payload(l.skip(k + 1)),
{
    assert(l.skip(k)[0] == l[k]);
    assert(l.skip(k).drop_first() =~= l.skip(k + 1));
}

/// A partial sum overflowing the unsigned 64-bit range already breaks
/// the signed 64-bit bound on the whole.
proof fn lemma_overflow_bound(l: Seq<(Seq<u8>, Seq<u8>)>, k: int)
    requires
        0 <= k < l.len(),
    ensures
        spec_dir_size(l) >= spec_dir_size(l.take(k)) + crate::file_meta_data::spec_entry_size(
            l[k].0.len() as int,
        ),
        spec_total_payload(l) >= spec_total_payload(l.take(k)) + l[k].1.len(),
        spec_dir_size(l) >= 0,
        spec_total_payload(l) >= 0,
        spec_dir_size(l.take(k)) >= 0,
        spec_total_payload(l.take(k)) >= 0,
{
    lemma_sizes_split(l, k);
    assert(l.skip(k)[0] == l[k]);
    assert(l.skip(k).drop_first() =~= l.skip(k + 1));
    lemma_sizes_nonneg(l.skip(k + 1));
    lemma_sizes_nonneg(l);
}

/// A fresh copy of a byte vector.
fn copy_bytes(v: &Vec<u8>) -> (r: Vec<u8>)
    ensures
        r@ == v@,
{
    vstd::slice::slice_to_vec(v.as_slice())
}

/// Checked 64-bit addition.
fn add_u64(a: u64, b: u64) -> (r: Option<u64>)
    ensures
        r matches Some(c) ==> c == a + b,
        r is None ==> a + b > u64::MAX,
{
    if a > u64::MAX - b {
        None
    } else {
        Some(a + b)
    }
}

/// `res://packs/<id>` as bytes.
fn make_base(id: &str) -> (r: Vec<u8>)
    ensures
        r@ == crate::path_utils::spec_res_prefix() + crate::path_utils::spec_packs_prefix()
            + encode_utf8(id@),
{
    let mut r: Vec<u8> = Vec::new();
    let res = crate::path_utils::res_prefix();
    r.extend_from_slice(res.as_slice());
    let packs = crate::path_utils::packs_prefix();
    r.extend_from_slice(packs.as_slice());
    r.extend_from_slice(id.as_bytes());
    proof {
        assert(r@ =~= crate::path_utils::spec_res_prefix() + crate::path_utils::spec_packs_prefix()
            + encode_utf8(id@));
    }
    r
}

/// `<base>/<rel>` as bytes.
fn make_inner(base: &Vec<u8>, rel: &[u8]) -> (r: Vec<u8>)
    ensures
        r@ == base@ + seq![crate::path_utils::SLASH] + rel@,
{
    let mut r = copy_bytes(base);
    r.push(0x2f);
    r.extend_from_slice(rel);
    proof {
        assert(r@ =~= base@ + seq![crate::path_utils::SLASH] + rel@);
    }
    r
}

/// Writes one directory entry from its absolute path bytes.
fn push_entry(out: &mut Vec<u8>, path_b: &Vec<u8>, offset: u64, size: u64)
    requires
        path_b@.len() <= 0x7fffffff,
    ensures
        final(out)@ == old(out)@ + crate::file_meta_data::spec_entry_bytes(path_b@, offset, size),
{
    crate::wire::push_i32_le(out, path_b.len() as i32);
    out.extend_from_slice(path_b.as_slice());
    crate::wire::push_u64_le(out, offset);
    crate::wire::push_u64_le(out, size);
    crate::wire::push_zeros(out, 16);
    proof {
        assert(final(out)@ =~= old(out)@ + crate::file_meta_data::spec_entry_bytes(
            path_b@,
            offset,
            size,
        ));
    }
}

// ---------------------------------------------------------------------
// Classification and default-tag laws
// ---------------------------------------------------------------------

/// Classification law: in any successfully decoded pack, every path in
/// `object_files` lies under the object-texture prefix, and neither
/// store holds a root metadata path or a `pack.json` duplicate.
#[verifier::rlimit(100)]
pub proof fn lemma_read_classification(d: Seq<u8>, v: PackView)
    requires
        spec_read(d) == Ok::<PackView, ErrSpec>(v),
    ensures
        forall|j: int|
            0 <= j < v.object_files.len() ==> crate::path_utils::spec_is_objects_file(
                encode_utf8(#[trigger] v.object_files[j].0),
            ),
        forall|j: int|
            0 <= j < v.object_files.len() ==> !crate::path_utils::spec_is_root_json(
                encode_utf8(#[trigger] v.object_files[j].0),
            ) && encode_utf8(v.object_files[j].0) != crate::path_utils::spec_pack_file_name(),
        forall|j: int|
            0 <= j < v.other_files.len() ==> !crate::path_utils::spec_is_objects_file(
                encode_utf8(#[trigger] v.other_files[j].0),
            ) && !crate::path_utils::spec_is_root_json(encode_utf8(v.other_files[j].0))
                && !crate::path_utils::spec_is_pack_file(encode_utf8(v.other_files[j].0)),
{
    match spec_parse_version(d, 4) {
        Ok(vp) => {
            let count = spec_u32_from_le_bytes(d.subrange(vp.1 + 64, vp.1 + 68));
            match spec_parse_entries(d, vp.1 + 68, count as nat) {
                Ok(ep) => {
                    let sorted = spec_sort_entries(ep.0);
                    lemma_consume_classified(d, ep.1, sorted, read_state_empty());
                    match spec_consume(d, ep.1, sorted, read_state_empty()) {
                        Ok(sp) => {
                            assert(v.object_files == sp.0.object_files);
                            assert(v.other_files == sp.0.other_files);
                            assert forall|j: int|
                                0 <= j < v.object_files.len() implies spec_classify(
                                encode_utf8(#[trigger] v.object_files[j].0),
                            ) == PathClass::ObjectFile by {
                                assert(spec_classify(encode_utf8(sp.0.object_files[j].0))
                                    == PathClass::ObjectFile);
                            }
                            assert forall|j: int|
                                0 <= j < v.other_files.len() implies spec_classify(
                                encode_utf8(#[trigger] v.other_files[j].0),
                            ) == PathClass::OtherFile by {
                                assert(spec_classify(encode_utf8(sp.0.other_files[j].0))
                                    == PathClass::OtherFile);
                            }
                            assert forall|j: int|
                                0 <= j < v.object_files.len() implies crate::path_utils::spec_is_objects_file(
                                encode_utf8(#[trigger] v.object_files[j].0),
                            ) && !crate::path_utils::spec_is_root_json(encode_utf8(
                                v.object_files[j].0,
                            )) && encode_utf8(v.object_files[j].0)
                                != crate::path_utils::spec_pack_file_name() by {
                                let b = encode_utf8(v.object_files[j].0);
                                assert(spec_classify(b) == PathClass::ObjectFile);
                                assert(crate::path_utils::spec_is_objects_file(b));
                                assert(b.len() >= crate::path_utils::spec_objects_prefix().len());
                                assert(crate::path_utils::spec_objects_prefix().len() == 17);
                                assert(crate::path_utils::spec_pack_file_name().len() == 9);
                            }
                            assert forall|j: int|
                                0 <= j < v.other_files.len() implies !crate::path_utils::spec_is_objects_file(
                                encode_utf8(#[trigger] v.other_files[j].0),
                            ) && !crate::path_utils::spec_is_root_json(encode_utf8(
                                v.other_files[j].0,
                            )) && !crate::path_utils::spec_is_pack_file(encode_utf8(
                                v.other_files[j].0,
                            )) by {
                                assert(spec_classify(encode_utf8(v.other_files[j].0))
                                    == PathClass::OtherFile);
                            }
                        },
                        Err(_) => {
                            assert(false);
                        },
                    }
                },
                Err(_) => {
                    assert(false);
                },
            }
        },
        Err(_) => {
            assert(false);
        },
    }
}

/// Consuming payloads never invents a tag index: when none of the
/// entries is a tag-index document, the state keeps none.
proof fn lemma_consume_no_tags(d: Seq<u8>, pos: int, entries: Seq<EntryV>, st: ReadState)
    requires
        st.tags is None,
        forall|j: int|
            0 <= j < entries.len() ==> spec_classify(
                encode_utf8((#[trigger] entries[j]).path),
            ) != PathClass::TagsDoc,
    ensures
        ({
            match spec_consume(d, pos, entries, st) {
                Ok(p) => p.0.tags is None,
                Err(_) => true,
            }
        }),
    decreases entries.len(),
{
    if entries.len() == 0 {
    } else {
        let e = entries[0];
        assert(spec_classify(encode_utf8(e.path)) != PathClass::TagsDoc);
        assert forall|j: int|
            0 <= j < entries.drop_first().len() implies spec_classify(
            encode_utf8((#[trigger] entries.drop_first()[j]).path),
        ) != PathClass::TagsDoc by {
            assert(entries.drop_first()[j] == entries[j + 1]);
        }
        if pos < 0 || pos + e.size > d.len() {
        } else {
            let payload = d.subrange(pos, pos + e.size);
            let pos2 = pos + e.size;
            match spec_classify(encode_utf8(e.path)) {
                PathClass::MetaDoc => {
                    if valid_utf8(payload) {
                        match spec_parse_meta_doc(payload) {
                            Some(m) => {
                                lemma_consume_no_tags(
                                    d,
                                    pos2,
                                    entries.drop_first(),
                                    ReadState {
                                        meta: Some(m),
                                        tags: st.tags,
                                        object_files: st.object_files,
                                        other_files: st.other_files,
                                    },
                                );
                            },
                            None => {},
                        }
                    }
                },
                PathClass::TagsDoc => {
                    assert(false);
                },
                PathClass::ObjectFile => {
                    lemma_consume_no_tags(
                        d,
                        pos2,
                        entries.drop_first(),
                        ReadState {
                            meta: st.meta,
                            tags: st.tags,
                            object_files: spec_upsert(st.object_files, e.path, payload),
                            other_files: st.other_files,
                        },
                    );
                },
                PathClass::PackDup => {
                    lemma_consume_no_tags(d, pos2, entries.drop_first(), st);
                },
                PathClass::OtherFile => {
                    lemma_consume_no_tags(
                        d,
                        pos2,
                        entries.drop_first(),
                        ReadState {
                            meta: st.meta,
                            tags: st.tags,
                            object_files: st.object_files,
                            other_files: spec_upsert(st.other_files, e.path, payload),
                        },
                    );
                },
            }
        }
    }
}

/// Sorting keeps exactly the directory's entries.
proof fn lemma_insert_entry_membership(e: EntryV, s: Seq<EntryV>, x: EntryV)
    ensures
        spec_insert_entry(e, s).contains(x) <==> (x == e || s.contains(x)),
    decreases s.len(),
{
    if s.len() == 0 {
        if x == e {
            assert(spec_insert_entry(e, s)[0] == x);
        }
        if spec_insert_entry(e, s).contains(x) {
            let i = choose|i: int|
                0 <= i < spec_insert_entry(e, s).len() && spec_insert_entry(e, s)[i] == x;
            assert(x == e);
        }
    } else if e.offset < s[0].offset {
        if x == e {
            assert((seq![e] + s)[0] == e);
        }
        if s.contains(x) {
            let i = choose|i: int| 0 <= i < s.len() && s[i] == x;
            assert((seq![e] + s)[i + 1] == x);
        }
        if (seq![e] + s).contains(x) {
            let i = choose|i: int| 0 <= i < (seq![e] + s).len() && (seq![e] + s)[i] == x;
            if i > 0 {
                assert(s[i - 1] == x);
            }
        }
    } else {
        lemma_insert_entry_membership(e, s.drop_first(), x);
        let r = seq![s[0]] + spec_insert_entry(e, s.drop_first());
        if x == e || s.contains(x) {
            if s.contains(x) {
                let i = choose|i: int| 0 <= i < s.len() && s[i] == x;
                if i == 0 {
                    assert(r[0] == x);
                } else {
                    assert(s.drop_first()[i - 1] == x);
                    let j = choose|j: int|
                        0 <= j < spec_insert_entry(e, s.drop_first()).len() && spec_insert_entry(
                            e,
                            s.drop_first(),
                        )[j] == x;
                    assert(r[j + 1] == x);
                }
            } else {
                let j = choose|j: int|
                    0 <= j < spec_insert_entry(e, s.drop_first()).len() && spec_insert_entry(
                        e,
                        s.drop_first(),
                    )[j] == x;
                assert(r[j + 1] == x);
            }
        }
        if r.contains(x) {
            let i = choose|i: int| 0 <= i < r.len() && r[i] == x;
            if i == 0 {
                assert(s[0] == x);
            } else {
                assert(spec_insert_entry(e, s.drop_first()).contains(x));
                if s.drop_first().contains(x) {
                    let m = choose|m: int| 0 <= m < s.drop_first().len() && s.drop_first()[m] == x;
                    assert(s[m + 1] == x);
                }
            }
        }
    }
}

proof fn lemma_sort_membership(s: Seq<EntryV>, x: EntryV)
    ensures
        spec_sort_entries(s).contains(x) <==> s.contains(x),
    decreases s.len(),
{
    if s.len() == 0 {
    } else {
        lemma_sort_membership(s.drop_last(), x);
        lemma_insert_entry_membership(s.last(), spec_sort_entries(s.drop_last()), x);
        if s.contains(x) {
            let i = choose|i: int| 0 <= i < s.len() && s[i] == x;
            if i < s.len() - 1 {
                assert(s.drop_last()[i] == x);
            }
        }
        if x == s.last() || s.drop_last().contains(x) {
            if s.drop_last().contains(x) {
                let i = choose|i: int| 0 <= i < s.drop_last().len() && s.drop_last()[i] == x;
                assert(s[i] == x);
            }
        }
    }
}

/// Missing tag-index law: an archive whose directory holds no tag-index
/// entry decodes to the empty tag index rather than failing.
pub proof fn lemma_missing_tags_empty(d: Seq<u8>, v: PackView, entries: Seq<EntryV>, dir_end: int)
    requires
        spec_read(d) == Ok::<PackView, ErrSpec>(v),
        spec_parse_entries(
            d,
            88,
            spec_u32_from_le_bytes(d.subrange(84, 88)) as nat,
        ) == Ok::<(Seq<EntryV>, int), ErrSpec>((entries, dir_end)),
        forall|j: int|
            0 <= j < entries.len() ==> spec_classify(
                encode_utf8((#[trigger] entries[j]).path),
            ) != PathClass::TagsDoc,
    ensures
        v.tags.tags == Seq::<(Seq<char>, Seq<Seq<char>>)>::empty(),
        v.tags.sets == Seq::<(Seq<char>, Seq<Seq<char>>)>::empty(),
{
    match spec_parse_version(d, 4) {
        Ok(vp) => {
            assert(vp.1 == 20);
            let sorted = spec_sort_entries(entries);
            assert forall|j: int|
                0 <= j < sorted.len() implies spec_classify(
                encode_utf8((#[trigger] sorted[j]).path),
            ) != PathClass::TagsDoc by {
                assert(sorted.contains(sorted[j]));
                lemma_sort_membership(entries, sorted[j]);
                let i = choose|i: int| 0 <= i < entries.len() && entries[i] == sorted[j];
            }
            lemma_consume_no_tags(d, dir_end, sorted, read_state_empty());
            match spec_consume(d, dir_end, sorted, read_state_empty()) {
                Ok(sp) => {
                    assert(sp.0.tags is None);
                },
                Err(_) => {
                    assert(false);
                },
            }
        },
        Err(_) => {
            assert(false);
        },
    }
}

/// Decodes a metadata-document payload: UTF-8 first, then the schema.
fn read_meta_payload(payload: Vec<u8>) -> (r: Result<PackMeta, PackError>)
    ensures
        ({
            match r {
                Ok(m) => (valid_utf8(payload@) && spec_parse_meta_doc(payload@) == Some(m@)
                    && m.wf()),
                Err(e) => if !valid_utf8(payload@) {
                    e@ == ErrSpec::Encoding
                } else {
                    spec_parse_meta_doc(payload@) is None && e@ == (ErrSpec::Schema {
                        doc: DocKind::PackMetaDoc,
                        raw: decode_utf8(payload@),
                    })
                },
            }
        }),
{
    let ghost pv = payload@;
    match string_from_utf8(payload) {
        None => Err(PackError::Encoding),
        Some(text) => {
            let doc_vec = vstd::slice::slice_to_vec(text.as_str().as_bytes());
            proof {
                vstd::utf8::decode_utf8_encode_utf8(pv);
                assert(doc_vec@ == pv);
            }
            match parse_meta_doc(&doc_vec) {
                None => Err(PackError::Schema { doc: DocKind::PackMetaDoc, raw: text }),
                Some(m) => Ok(m),
            }
        },
    }
}

/// Decodes a tag-index-document payload: UTF-8 first, then the schema.
fn read_tags_payload(payload: Vec<u8>) -> (r: Result<Tags, PackError>)
    ensures
        ({
            match r {
                Ok(t) => (valid_utf8(payload@) && spec_parse_tags_doc(payload@) == Some(t@)
                    && t.wf()),
                Err(e) => if !valid_utf8(payload@) {
                    e@ == ErrSpec::Encoding
                } else {
                    spec_parse_tags_doc(payload@) is None && e@ == (ErrSpec::Schema {
                        doc: DocKind::TagsDoc,
                        raw: decode_utf8(payload@),
                    })
                },
            }
        }),
{
    let ghost pv = payload@;
    match string_from_utf8(payload) {
        None => Err(PackError::Encoding),
        Some(text) => {
            let doc_vec = vstd::slice::slice_to_vec(text.as_str().as_bytes());
            proof {
                vstd::utf8::decode_utf8_encode_utf8(pv);
                assert(doc_vec@ == pv);
            }
            match parse_tags_doc(&doc_vec) {
                None => Err(PackError::Schema { doc: DocKind::TagsDoc, raw: text }),
                Some(t) => Ok(t),
            }
        },
    }
}

impl AssetPack {
    /// Decodes a whole archive from its bytes.
    #[verifier::rlimit(100)]
    pub fn from_read(data: &Vec<u8>) -> (r: Result<AssetPack, PackError>)
        ensures
            ({
                let sp = spec_read(data@);
                match r {
                    Ok(p) => (sp matches Ok(v) && p@ == v && read_wf(p@) && meta_wf(p@.meta)),
                    Err(e) => (sp matches Err(se) && e@ == se),
                }
            }),
    {
        if data.len() < 4 {
            return Err(PackError::Truncated);
        }
        let (godot_version, p1) = match GodotVersion::from_read(data, 4) {
            Ok(x) => x,
            Err(e) => {
                return Err(e);
            },
        };
        if data.len() < 88 {
            return Err(PackError::Truncated);
        }
        let (count, p2) = match read_u32_le(data, p1 + 64) {
            Some(x) => x,
            None => vstd::pervasive::unreached(),
        };
        // the directory
        let mut files: Vec<FileMetaData> = Vec::new();
        let mut pos = p2;
        let mut i: u32 = 0;
        proof {
            assert(fmd_views(files@) =~= Seq::<EntryV>::empty());
            match spec_parse_entries(data@, p2 as int, count as nat) {
                Ok(q) => {
                    assert(fmd_views(files@) + q.0 =~= q.0);
                },
                Err(_) => {},
            }
        }
        while i < count
            invariant
                i <= count,
                pos <= data@.len(),
                data@.len() >= 88,
                p2 == 88,
                spec_parse_version(data@, 4) == Ok::<(GodotVersion, int), ErrSpec>((
                    godot_version,
                    20int,
                )),
                count == spec_u32_from_le_bytes(data@.subrange(84, 88)),
                ({
                    let whole = spec_parse_entries(data@, p2 as int, count as nat);
                    let here = spec_parse_entries(data@, pos as int, (count - i) as nat);
                    match here {
                        Ok(q) => (whole matches Ok(w) && w.0 == fmd_views(files@) + q.0 && w.1
                            == q.1),
                        Err(e) => (whole matches Err(e2) && e2 == e),
                    }
                }),
            decreases count - i,
        {
            let ghost pre = fmd_views(files@);
            let (f, p3) = match FileMetaData::from_read(data, pos) {
                Ok(x) => x,
                Err(e) => {
                    return Err(e);
                },
            };
            proof {
                // a decoded entry ends inside the stream
                assert(p3 <= data@.len());
            }
            files.push(f);
            proof {
                assert(fmd_views(files@) =~= pre.push(f@));
                match spec_parse_entries(data@, p3 as int, (count - i - 1) as nat) {
                    Ok(q) => {
                        assert(pre + (seq![f@] + q.0) =~= fmd_views(files@) + q.0);
                    },
                    Err(_) => {},
                }
            }
            pos = p3;
            i = i + 1;
        }
        let ghost parsed = fmd_views(files@);
        proof {
            assert(spec_parse_entries(data@, pos as int, 0) == Ok::<(Seq<EntryV>, int), ErrSpec>((
                Seq::<EntryV>::empty(),
                pos as int,
            )));
            assert(parsed + Seq::<EntryV>::empty() =~= parsed);
            assert(spec_parse_entries(data@, p2 as int, count as nat) == Ok::<
                (Seq<EntryV>, int),
                ErrSpec,
            >((parsed, pos as int)));
        }
        // payloads, in offset order
        let sorted = sort_entries(files);
        let ghost sortedv = spec_sort_entries(parsed);
        let mut meta_o: Option<PackMeta> = None;
        let mut tags_o: Option<Tags> = None;
        let mut object_files = FileStore::new();
        let mut other_files = FileStore::new();
        let ghost pos0 = pos as int;
        let mut cpos = pos;
        let n = sorted.len();
        let mut k: usize = 0;
        proof {
            assert(object_files@ =~= Seq::<(Seq<char>, Seq<u8>)>::empty());
            assert(other_files@ =~= Seq::<(Seq<char>, Seq<u8>)>::empty());
            assert(sortedv.skip(0) =~= sortedv);
        }
        while k < n
            invariant
                k <= n,
                n == sorted@.len(),
                cpos <= data@.len(),
                data@.len() >= 88,
                spec_parse_version(data@, 4) == Ok::<(GodotVersion, int), ErrSpec>((
                    godot_version,
                    20int,
                )),
                count == spec_u32_from_le_bytes(data@.subrange(84, 88)),
                spec_parse_entries(data@, 88, count as nat) == Ok::<(Seq<EntryV>, int), ErrSpec>((
                    parsed,
                    pos0,
                )),
                sortedv == spec_sort_entries(parsed),
                fmd_views(sorted@) == sortedv,
                object_files.wf(),
                other_files.wf(),
                (meta_o matches Some(m) ==> m.wf()),
                (tags_o matches Some(t) ==> t.wf()),
                spec_consume(data@, pos0, sortedv, read_state_empty()) == spec_consume(
                    data@,
                    cpos as int,
                    sortedv.skip(k as int),
                    ReadState {
                        meta: view_opt_meta(meta_o),
                        tags: view_opt_tags(tags_o),
                        object_files: object_files@,
                        other_files: other_files@,
                    },
                ),
            decreases n - k,
        {
            let ghost st_pre = ReadState {
                meta: view_opt_meta(meta_o),
                tags: view_opt_tags(tags_o),
                object_files: object_files@,
                other_files: other_files@,
            };
            proof {
                assert(sortedv.skip(k as int)[0] == sortedv[k as int]);
                assert(sortedv[k as int] == sorted@[k as int]@);
                assert(sortedv.skip(k as int).drop_first() =~= sortedv.skip(k as int + 1));
            }
            let e_size = sorted[k].size;
            if e_size > (data.len() - cpos) as u64 {
                return Err(PackError::Truncated);
            }
            let size_us = e_size as usize;
            let (payload, p4) = match unpack_file(data, cpos, size_us) {
                Ok(x) => x,
                Err(_) => vstd::pervasive::unreached(),
            };
            let ghost pv = payload@;
            let class = classify_bytes(sorted[k].path.as_str().as_bytes());
            match class {
                PathClass::MetaDoc => {
                    match read_meta_payload(payload) {
                        Ok(m) => {
                            meta_o = Some(m);
                        },
                        Err(e) => {
                            return Err(e);
                        },
                    }
                },
                PathClass::TagsDoc => {
                    match read_tags_payload(payload) {
                        Ok(t) => {
                            tags_o = Some(t);
                        },
                        Err(e) => {
                            return Err(e);
                        },
                    }
                },
                PathClass::ObjectFile => {
                    object_files.insert(sorted[k].path.clone(), payload);
                },
                PathClass::PackDup => {},
                PathClass::OtherFile => {
                    other_files.insert(sorted[k].path.clone(), payload);
                },
            }
            proof {
                let st_now = ReadState {
                    meta: view_opt_meta(meta_o),
                    tags: view_opt_tags(tags_o),
                    object_files: object_files@,
                    other_files: other_files@,
                };
                assert(spec_consume(data@, cpos as int, sortedv.skip(k as int), st_pre)
                    == spec_consume(data@, p4 as int, sortedv.skip(k as int + 1), st_now));
            }
            cpos = p4;
            k = k + 1;
        }
        proof {
            assert(sortedv.skip(n as int) =~= Seq::<EntryV>::empty());
            lemma_consume_classified(data@, pos0, sortedv, read_state_empty());
        }
        let meta = match meta_o {
            Some(m) => m,
            None => {
                return Err(PackError::MissingMeta);
            },
        };
        let tags = match tags_o {
            Some(t) => t,
            None => {
                let t = Tags::new();
                proof {
                    assert(t@.tags =~= Seq::<(Seq<char>, Seq<Seq<char>>)>::empty());
                    assert(t@.sets =~= Seq::<(Seq<char>, Seq<Seq<char>>)>::empty());
                }
                t
            },
        };
        Ok(AssetPack { godot_version, meta, tags, object_files, other_files })
    }

    /// Writes every payload after the directory, in directory order.
    #[verifier::rlimit(100)]
    fn write_payloads(
        &self,
        out: &mut Vec<u8>,
        meta_doc: &Vec<u8>,
        tags_doc: &Vec<u8>,
        Ghost(l): Ghost<Seq<(Seq<u8>, Seq<u8>)>>,
        Ghost(target_pay): Ghost<Seq<u8>>,
    )
        requires
            l == spec_payload_list(self@),
            meta_doc@ == spec_emit_meta(self@.meta),
            tags_doc@ == spec_emit_tags(self@.tags),
            old(out)@ + spec_payload_bytes(l) == target_pay,
        ensures
            final(out)@ == target_pay,
    {
        let n_obj = self.object_files.len();
        let n_oth = self.other_files.len();
        proof {
            assert(l.len() == 3 + n_obj + n_oth);
            assert(l[0] == (spec_meta_path(self@.meta.id), spec_emit_meta(self@.meta)));
            assert(l[1] == (spec_inner_path(self@.meta.id, crate::path_utils::spec_pack_file_name()),
                spec_emit_meta(self@.meta)));
            assert(l[2] == (spec_inner_path(self@.meta.id, crate::path_utils::spec_tags_file_name()),
                spec_emit_tags(self@.tags)));
            assert(l.skip(0) =~= l);
            assert(out@ + spec_payload_bytes(l.skip(0)) =~= target_pay);
            lemma_write_step(l, 0, 0);
            lemma_write_step(l, 1, 0);
            lemma_write_step(l, 2, 0);
        }
        out.extend_from_slice(meta_doc.as_slice());
        proof {
            assert(out@ + spec_payload_bytes(l.skip(1)) =~= target_pay);
        }
        out.extend_from_slice(meta_doc.as_slice());
        proof {
            assert(out@ + spec_payload_bytes(l.skip(2)) =~= target_pay);
        }
        out.extend_from_slice(tags_doc.as_slice());
        proof {
            assert(out@ + spec_payload_bytes(l.skip(3)) =~= target_pay);
        }
        let mut q: usize = 0;
        while q < n_obj
            invariant
                q <= n_obj,
                n_obj == self.object_files@.len(),
                n_oth == self.other_files@.len(),
                l == spec_payload_list(self@),
                l.len() == 3 + n_obj + n_oth,
                out@ + spec_payload_bytes(l.skip(3 + q)) == target_pay,
            decreases n_obj - q,
        {
            let ghost kk = 3 + q as int;
            proof {
                assert(l[kk] == (spec_inner_path(self@.meta.id, encode_utf8(
                    self.object_files@[q as int].0,
                )), self.object_files@[q as int].1));
                lemma_write_step(l, kk, 0);
            }
            out.extend_from_slice(self.object_files.get_at(q).1.as_slice());
            proof {
                assert(out@ + spec_payload_bytes(l.skip(kk + 1)) =~= target_pay);
            }
            q = q + 1;
        }
        let mut q2: usize = 0;
        while q2 < n_oth
            invariant
                q2 <= n_oth,
                n_obj == self.object_files@.len(),
                n_oth == self.other_files@.len(),
                l == spec_payload_list(self@),
                l.len() == 3 + n_obj + n_oth,
                out@ + spec_payload_bytes(l.skip(3 + n_obj + q2)) == target_pay,
            decreases n_oth - q2,
        {
            let ghost kk = 3 + n_obj as int + q2 as int;
            proof {
                assert(l[kk] == (spec_inner_path(self@.meta.id, encode_utf8(
                    self.other_files@[q2 as int].0,
                )), self.other_files@[q2 as int].1));
                lemma_write_step(l, kk, 0);
            }
            out.extend_from_slice(self.other_files.get_at(q2).1.as_slice());
            proof {
                assert(out@ + spec_payload_bytes(l.skip(kk + 1)) =~= target_pay);
            }
            q2 = q2 + 1;
        }
        proof {
            assert(l.skip(3 + n_obj + n_oth) =~= Seq::<(Seq<u8>, Seq<u8>)>::empty());
            assert(spec_payload_bytes(l.skip(3 + n_obj + n_oth)) =~= Seq::<u8>::empty());
            assert(out@ =~= target_pay);
        }
    }

    /// Encodes the pack as a complete archive, appending to `out`.  The
    /// directory is regenerated: offsets are assigned sequentially and
    /// the metadata document is stored twice, as the format demands.
    /// Nothing is written when a length overflows its on-disk slot.
    /// First pass of the writer: checks every length against its
    /// on-disk slot and computes the directory size and payload total.
    #[verifier::rlimit(100)]
    fn plan_sizes(&self) -> (r: Result<(u64, u64), crate::error::EncodeError>)
        ensures
            ({
                let l = spec_payload_list(self@);
                match r {
                    Ok(p) => (spec_write_ok(self@) && p.0 == spec_dir_size(l) && p.1
                        == spec_total_payload(l)),
                    Err(_) => !spec_write_ok(self@),
                }
            }),
    {
        let ghost l = spec_payload_list(self@);
        let mut meta_doc: Vec<u8> = Vec::new();
        emit_meta_doc(&self.meta, &mut meta_doc);
        let mut tags_doc: Vec<u8> = Vec::new();
        emit_tags_doc(&self.tags, &mut tags_doc);
        let base = make_base(self.meta.id.as_str());
        let json_sfx = crate::path_utils::json_suffix();
        let mut meta_path = copy_bytes(&base);
        meta_path.extend_from_slice(json_sfx.as_slice());
        let pack_name = crate::path_utils::pack_file_name();
        let dup_path = make_inner(&base, pack_name.as_slice());
        let tags_name = crate::path_utils::tags_file_name();
        let tags_path = make_inner(&base, tags_name.as_slice());
        proof {
            assert(meta_path@ =~= spec_meta_path(self@.meta.id));
            assert(l[0] == (spec_meta_path(self@.meta.id), spec_emit_meta(self@.meta)));
            assert(l[1] == (spec_inner_path(self@.meta.id, crate::path_utils::spec_pack_file_name()),
                spec_emit_meta(self@.meta)));
            assert(l[2] == (spec_inner_path(self@.meta.id, crate::path_utils::spec_tags_file_name()),
                spec_emit_tags(self@.tags)));
        }
        let n_obj = self.object_files.len();
        let n_oth = self.other_files.len();
        proof {
            assert(l.len() == 3 + n_obj + n_oth);
        }
        if n_obj > 0x7ffffffcusize || n_oth > 0x7ffffffcusize - n_obj {
            return Err(crate::error::EncodeError::TooLarge);
        }
        let count: usize = 3 + n_obj + n_oth;
        if meta_path.len() > 0x7fffffffusize || dup_path.len() > 0x7fffffffusize || tags_path.len()
            > 0x7fffffffusize {
            proof {
                if meta_path@.len() > 0x7fffffff {
                    assert(l[0].0.len() > 0x7fffffff);
                } else if dup_path@.len() > 0x7fffffff {
                    assert(l[1].0.len() > 0x7fffffff);
                } else {
                    assert(l[2].0.len() > 0x7fffffff);
                }
            }
            return Err(crate::error::EncodeError::TooLarge);
        }
        // first pass: directory size and payload total
        let mut dsize: u64 = 0;
        let mut total: u64 = 0;
        proof {
            assert(l.take(0) =~= Seq::<(Seq<u8>, Seq<u8>)>::empty());
        }
        dsize = dsize + 36 + meta_path.len() as u64;
        total = match add_u64(total, meta_doc.len() as u64) {
            Some(x) => x,
            None => {
                proof {
                    lemma_overflow_bound(l, 0);
                }
                return Err(crate::error::EncodeError::TooLarge);
            },
        };
        proof {
            lemma_sizes_snoc(l, 0);
        }
        dsize = dsize + 36 + dup_path.len() as u64;
        total = match add_u64(total, meta_doc.len() as u64) {
            Some(x) => x,
            None => {
                proof {
                    lemma_sizes_snoc(l, 0);
                    lemma_overflow_bound(l, 1);
                }
                return Err(crate::error::EncodeError::TooLarge);
            },
        };
        proof {
            lemma_sizes_snoc(l, 0);
            lemma_sizes_snoc(l, 1);
        }
        dsize = dsize + 36 + tags_path.len() as u64;
        total = match add_u64(total, tags_doc.len() as u64) {
            Some(x) => x,
            None => {
                proof {
                    lemma_sizes_snoc(l, 0);
                    lemma_sizes_snoc(l, 1);
                    lemma_overflow_bound(l, 2);
                }
                return Err(crate::error::EncodeError::TooLarge);
            },
        };
        proof {
            lemma_sizes_snoc(l, 0);
            lemma_sizes_snoc(l, 1);
            lemma_sizes_snoc(l, 2);
            assert(dsize == spec_dir_size(l.take(3)));
            assert(total == spec_total_payload(l.take(3)));
        }
        let mut i: usize = 0;
        while i < n_obj
            invariant
                i <= n_obj,
                n_obj == self.object_files@.len(),
                n_oth == self.other_files@.len(),
                l == spec_payload_list(self@),
                l.len() == 3 + n_obj + n_oth,
                base@ == crate::path_utils::spec_res_prefix()
                    + crate::path_utils::spec_packs_prefix() + encode_utf8(self@.meta.id),
                dsize == spec_dir_size(l.take(3 + i)),
                total == spec_total_payload(l.take(3 + i)),
                forall|j: int| 0 <= j < 3 + i ==> (#[trigger] l[j].0).len() <= 0x7fffffff,
            decreases n_obj - i,
        {
            let ghost kk = 3 + i as int;
            proof {
                assert(l[kk] == (spec_inner_path(self@.meta.id, encode_utf8(
                    self.object_files@[i as int].0,
                )), self.object_files@[i as int].1));
            }
            let pair = self.object_files.get_at(i);
            let plen = pair.0.as_str().as_bytes().len();
            proof {
                assert(l[kk].0.len() == base@.len() + 1 + plen);
            }
            if plen > 0x7fffffffusize - base.len() - 1 {
                proof {
                    assert(l[kk].0.len() > 0x7fffffff);
                }
                return Err(crate::error::EncodeError::TooLarge);
            }
            let es: u64 = 36 + (base.len() as u64) + 1 + (plen as u64);
            let dsize2 = match add_u64(dsize, es) {
                Some(x) => x,
                None => {
                    proof {
                        lemma_overflow_bound(l, kk);
                    }
                    return Err(crate::error::EncodeError::TooLarge);
                },
            };
            let total2 = match add_u64(total, pair.1.len() as u64) {
                Some(x) => x,
                None => {
                    proof {
                        lemma_overflow_bound(l, kk);
                    }
                    return Err(crate::error::EncodeError::TooLarge);
                },
            };
            dsize = dsize2;
            total = total2;
            proof {
                lemma_sizes_snoc(l, kk);
            }
            i = i + 1;
        }
        let mut i2: usize = 0;
        while i2 < n_oth
            invariant
                i2 <= n_oth,
                n_obj == self.object_files@.len(),
                n_oth == self.other_files@.len(),
                l == spec_payload_list(self@),
                l.len() == 3 + n_obj + n_oth,
                base@ == crate::path_utils::spec_res_prefix()
                    + crate::path_utils::spec_packs_prefix() + encode_utf8(self@.meta.id),
                dsize == spec_dir_size(l.take(3 + n_obj + i2)),
                total == spec_total_payload(l.take(3 + n_obj + i2)),
                forall|j: int| 0 <= j < 3 + n_obj + i2 ==> (#[trigger] l[j].0).len() <= 0x7fffffff,
            decreases n_oth - i2,
        {
            let ghost kk = 3 + n_obj as int + i2 as int;
            proof {
                assert(l[kk] == (spec_inner_path(self@.meta.id, encode_utf8(
                    self.other_files@[i2 as int].0,
                )), self.other_files@[i2 as int].1));
            }
            let pair = self.other_files.get_at(i2);
            let plen = pair.0.as_str().as_bytes().len();
            proof {
                assert(l[kk].0.len() == base@.len() + 1 + plen);
            }
            if plen > 0x7fffffffusize - base.len() - 1 {
                proof {
                    assert(l[kk].0.len() > 0x7fffffff);
                }
                return Err(crate::error::EncodeError::TooLarge);
            }
            let es: u64 = 36 + (base.len() as u64) + 1 + (plen as u64);
            let dsize2 = match add_u64(dsize, es) {
                Some(x) => x,
                None => {
                    proof {
                        lemma_overflow_bound(l, kk);
                    }
                    return Err(crate::error::EncodeError::TooLarge);
                },
            };
            let total2 = match add_u64(total, pair.1.len() as u64) {
                Some(x) => x,
                None => {
                    proof {
                        lemma_overflow_bound(l, kk);
                    }
                    return Err(crate::error::EncodeError::TooLarge);
                },
            };
            dsize = dsize2;
            total = total2;
            proof {
                lemma_sizes_snoc(l, kk);
            }
            i2 = i2 + 1;
        }
        proof {
            assert(l.take(3 + n_obj + n_oth) =~= l);
        }
        let grand = match add_u64(dsize, total) {
            Some(x) => match add_u64(x, 88) {
                Some(y) => y,
                None => {
                    return Err(crate::error::EncodeError::TooLarge);
                },
            },
            None => {
                return Err(crate::error::EncodeError::TooLarge);
            },
        };
        if grand > 0x7fffffffffffffffu64 {
            return Err(crate::error::EncodeError::TooLarge);
        }
        Ok((dsize, total))
    }

    #[verifier::rlimit(100)]
    pub fn to_write(&self, out: &mut Vec<u8>) -> (r: Result<(), crate::error::EncodeError>)
        ensures
            r is Ok ==> final(out)@ == old(out)@ + spec_write_bytes(self@),
            r is Err ==> final(out)@ == old(out)@,
            spec_write_ok(self@) <==> r is Ok,
    {
        let ghost l = spec_payload_list(self@);
        let (dsize, total) = match self.plan_sizes() {
            Ok(x) => x,
            Err(e) => {
                return Err(e);
            },
        };
        let mut meta_doc: Vec<u8> = Vec::new();
        emit_meta_doc(&self.meta, &mut meta_doc);
        let mut tags_doc: Vec<u8> = Vec::new();
        emit_tags_doc(&self.tags, &mut tags_doc);
        let base = make_base(self.meta.id.as_str());
        let json_sfx = crate::path_utils::json_suffix();
        let mut meta_path = copy_bytes(&base);
        meta_path.extend_from_slice(json_sfx.as_slice());
        let pack_name = crate::path_utils::pack_file_name();
        let dup_path = make_inner(&base, pack_name.as_slice());
        let tags_name = crate::path_utils::tags_file_name();
        let tags_path = make_inner(&base, tags_name.as_slice());
        let n_obj = self.object_files.len();
        let n_oth = self.other_files.len();
        proof {
            assert(meta_path@ =~= spec_meta_path(self@.meta.id));
            assert(l[0] == (spec_meta_path(self@.meta.id), spec_emit_meta(self@.meta)));
            assert(l[1] == (spec_inner_path(self@.meta.id, crate::path_utils::spec_pack_file_name()),
                spec_emit_meta(self@.meta)));
            assert(l[2] == (spec_inner_path(self@.meta.id, crate::path_utils::spec_tags_file_name()),
                spec_emit_tags(self@.tags)));
            assert(l.len() == 3 + n_obj + n_oth);
        }
        let count: usize = 3 + n_obj + n_oth;
        // second pass: emit everything
        let ghost base_out = old(out)@;
        let magic: [u8; 4] = [0x47, 0x44, 0x50, 0x43];
        out.extend_from_slice(magic.as_slice());
        self.godot_version.to_write(out);
        crate::wire::push_zeros(out, 64);
        crate::wire::push_i32_le(out, count as i32);
        let ghost start = 88 + spec_dir_size(l);
        let ghost target_dir = base_out + spec_magic() + crate::godot_version::spec_version_bytes(
            self.godot_version,
        ) + crate::wire::spec_zeros(64) + crate::wire::spec_i32_le(l.len() as i32) + spec_dir_bytes(
            l,
            start,
        );
        let mut off: u64 = 88 + dsize;
        proof {
            assert(magic@ =~= spec_magic());
            assert(l.skip(0) =~= l);
            lemma_sizes_split(l, 0);
            assert(out@ + spec_dir_bytes(l.skip(0), off as int) =~= target_dir);
        }
        // the three fixed entries
        proof {
            lemma_write_step(l, 0, off as int);
            lemma_sizes_split(l, 1);
        }
        push_entry(out, &meta_path, off, meta_doc.len() as u64);
        proof {
            assert(out@ + spec_dir_bytes(l.skip(1), off + meta_doc@.len()) =~= target_dir);
        }
        off = off + meta_doc.len() as u64;
        proof {
            lemma_write_step(l, 1, off as int);
            lemma_sizes_split(l, 2);
        }
        push_entry(out, &dup_path, off, meta_doc.len() as u64);
        proof {
            assert(out@ + spec_dir_bytes(l.skip(2), off + meta_doc@.len()) =~= target_dir);
        }
        off = off + meta_doc.len() as u64;
        proof {
            lemma_write_step(l, 2, off as int);
            lemma_sizes_split(l, 3);
        }
        push_entry(out, &tags_path, off, tags_doc.len() as u64);
        proof {
            assert(out@ + spec_dir_bytes(l.skip(3), off + tags_doc@.len()) =~= target_dir);
        }
        off = off + tags_doc.len() as u64;
        let mut k: usize = 0;
        while k < n_obj
            invariant
                k <= n_obj,
                n_obj == self.object_files@.len(),
                n_oth == self.other_files@.len(),
                l == spec_payload_list(self@),
                l.len() == 3 + n_obj + n_oth,
                base@ == crate::path_utils::spec_res_prefix()
                    + crate::path_utils::spec_packs_prefix() + encode_utf8(self@.meta.id),
                forall|j: int| 0 <= j < l.len() ==> (#[trigger] l[j].0).len() <= 0x7fffffff,
                start == 88 + spec_dir_size(l),
                off as int + spec_total_payload(l.skip(3 + k)) == start + spec_total_payload(l),
                88 + spec_dir_size(l) + spec_total_payload(l) <= 0x7fffffffffffffff,
                out@ + spec_dir_bytes(l.skip(3 + k), off as int) == target_dir,
            decreases n_obj - k,
        {
            let ghost kk = 3 + k as int;
            proof {
                assert(l[kk] == (spec_inner_path(self@.meta.id, encode_utf8(
                    self.object_files@[k as int].0,
                )), self.object_files@[k as int].1));
                lemma_write_step(l, kk, off as int);
                lemma_sizes_split(l.skip(kk + 1), 0);
            }
            let pair = self.object_files.get_at(k);
            let path = make_inner(&base, pair.0.as_str().as_bytes());
            proof {
                assert(path@ == l[kk].0);
            }
            push_entry(out, &path, off, pair.1.len() as u64);
            proof {
                assert(out@ + spec_dir_bytes(l.skip(kk + 1), off + l[kk].1.len()) =~= target_dir);
            }
            off = off + pair.1.len() as u64;
            k = k + 1;
        }
        let mut k2: usize = 0;
        while k2 < n_oth
            invariant
                k2 <= n_oth,
                n_obj == self.object_files@.len(),
                n_oth == self.other_files@.len(),
                l == spec_payload_list(self@),
                l.len() == 3 + n_obj + n_oth,
                base@ == crate::path_utils::spec_res_prefix()
                    + crate::path_utils::spec_packs_prefix() + encode_utf8(self@.meta.id),
                forall|j: int| 0 <= j < l.len() ==> (#[trigger] l[j].0).len() <= 0x7fffffff,
                start == 88 + spec_dir_size(l),
                off as int + spec_total_payload(l.skip(3 + n_obj + k2)) == start
                    + spec_total_payload(l),
                88 + spec_dir_size(l) + spec_total_payload(l) <= 0x7fffffffffffffff,
                out@ + spec_dir_bytes(l.skip(3 + n_obj + k2), off as int) == target_dir,
            decreases n_oth - k2,
        {
            let ghost kk = 3 + n_obj as int + k2 as int;
            proof {
                assert(l[kk] == (spec_inner_path(self@.meta.id, encode_utf8(
                    self.other_files@[k2 as int].0,
                )), self.other_files@[k2 as int].1));
                lemma_write_step(l, kk, off as int);
                lemma_sizes_split(l.skip(kk + 1), 0);
            }
            let pair = self.other_files.get_at(k2);
            let path = make_inner(&base, pair.0.as_str().as_bytes());
            proof {
                assert(path@ == l[kk].0);
            }
            push_entry(out, &path, off, pair.1.len() as u64);
            proof {
                assert(out@ + spec_dir_bytes(l.skip(kk + 1), off + l[kk].1.len()) =~= target_dir);
            }
            off = off + pair.1.len() as u64;
            k2 = k2 + 1;
        }
        proof {
            assert(l.skip(3 + n_obj + n_oth) =~= Seq::<(Seq<u8>, Seq<u8>)>::empty());
            assert(spec_dir_bytes(l.skip(3 + n_obj + n_oth), off as int) =~= Seq::<u8>::empty());
            assert(out@ =~= target_dir);
        }
        self.write_payloads(out, &meta_doc, &tags_doc, Ghost(l), Ghost(target_dir
            + spec_payload_bytes(l)));
        proof {
            assert(target_dir + spec_payload_bytes(l) =~= old(out)@ + spec_write_bytes(self@));
        }
        Ok(())
    }

    /// Prunes the tag index against the object files, leaving everything
    /// else untouched.
    pub fn clean_tags(&mut self)
        requires
            old(self).tags.wf(),
        ensures
            final(self).tags.wf(),
            final(self).tags@ == spec_clean(old(self).tags@, key_set(old(self).object_files@)),
            final(self).godot_version == old(self).godot_version,
            final(self).meta == old(self).meta,
            final(self).object_files == old(self).object_files,
            final(self).other_files == old(self).other_files,
    {
        self.tags.clean(&self.object_files);
    }

    /// The file paths carried by a tag, when the tag exists.
    pub fn get_files_in_tag(&self, tag: &str) -> (r: Option<&crate::containers::NameList>)
        ensures
            ({
                let m = self.tags@.tags;
                match r {
                    Some(l) => has_key(m, tag@) && l@ == m[key_index(m, tag@)].1,
                    None => !has_key(m, tag@),
                }
            }),
    {
        self.tags.tags.get(tag)
    }
}

} // verus!