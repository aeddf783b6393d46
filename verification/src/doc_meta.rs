//! The pack-metadata document codec.
//!
//! The document is a JSON object with four required string members
//! (`name`, `id`, `version`, `author`) and an optional
//! `custom_color_overrides` object holding a boolean and three number
//! thresholds.  Members may come in any order and with any whitespace;
//! a duplicate or unknown member, a missing required member, or trailing
//! content is a schema failure.  Writing emits the members in canonical
//! order without whitespace, omitting an absent color block, as the
//! original producer does.

use vstd::prelude::*;
use vstd::utf8::{decode_utf8, encode_utf8, encode_utf8_decode_utf8, encode_utf8_valid_utf8,
    valid_utf8};
use crate::doc_lex::{expect_byte, lemma_expect_at, lemma_parse_bool_at, lemma_parse_number_at,
    lemma_parse_string_at, lemma_parse_string_clean_at, lemma_subrange_split,
    lemma_window_piece, lit_false, lit_null, lit_true, parse_bool_tok, parse_null_tok,
    parse_number_tok, parse_string_tok, push_string_tok, skip_ws, spec_emit_string, spec_expect,
    spec_parse_bool, spec_parse_null, spec_parse_number, spec_parse_string, spec_skip_ws};
use crate::pack_meta::{ColorOverrides, ColorsV, MetaV, PackMeta, colors_wf, meta_wf,
    num_token_wf};
use crate::path_utils::bytes_eq;
use crate::utf8_util::lemma_ascii_bytes_valid;
use crate::utils::string_from_utf8;

verus! {

// ---------------------------------------------------------------------
// Member names
// ---------------------------------------------------------------------

pub open spec fn key_name() -> Seq<u8> {
    seq![0x6eu8, 0x61u8, 0x6du8, 0x65u8]
}

pub open spec fn key_id() -> Seq<u8> {
    seq![0x69u8, 0x64u8]
}

pub open spec fn key_version() -> Seq<u8> {
    seq![0x76u8, 0x65u8, 0x72u8, 0x73u8, 0x69u8, 0x6fu8, 0x6eu8]
}

pub open spec fn key_author() -> Seq<u8> {
    seq![0x61u8, 0x75u8, 0x74u8, 0x68u8, 0x6fu8, 0x72u8]
}

pub open spec fn key_colors() -> Seq<u8> {
    seq![0x63u8, 0x75u8, 0x73u8, 0x74u8, 0x6fu8, 0x6du8, 0x5fu8, 0x63u8, 0x6fu8, 0x6cu8, 0x6fu8,
        0x72u8, 0x5fu8, 0x6fu8, 0x76u8, 0x65u8, 0x72u8, 0x72u8, 0x69u8, 0x64u8, 0x65u8, 0x73u8]
}

pub open spec fn key_enabled() -> Seq<u8> {
    seq![0x65u8, 0x6eu8, 0x61u8, 0x62u8, 0x6cu8, 0x65u8, 0x64u8]
}

pub open spec fn key_min_redness() -> Seq<u8> {
    seq![0x6du8, 0x69u8, 0x6eu8, 0x5fu8, 0x72u8, 0x65u8, 0x64u8, 0x6eu8, 0x65u8, 0x73u8, 0x73u8]
}

pub open spec fn key_min_saturation() -> Seq<u8> {
    seq![0x6du8, 0x69u8, 0x6eu8, 0x5fu8, 0x73u8, 0x61u8, 0x74u8, 0x75u8, 0x72u8, 0x61u8, 0x74u8,
        0x69u8, 0x6fu8, 0x6eu8]
}

pub open spec fn key_red_tolerance() -> Seq<u8> {
    seq![0x72u8, 0x65u8, 0x64u8, 0x5fu8, 0x74u8, 0x6fu8, 0x6cu8, 0x65u8, 0x72u8, 0x61u8, 0x6eu8,
        0x63u8, 0x65u8]
}

fn key_name_arr() -> (r: [u8; 4])
    ensures
        r@ == key_name(),
{
    let r: [u8; 4] = [0x6e, 0x61, 0x6d, 0x65];
    proof {
        assert(r@ =~= key_name());
    }
    r
}

fn key_id_arr() -> (r: [u8; 2])
    ensures
        r@ == key_id(),
{
    let r: [u8; 2] = [0x69, 0x64];
    proof {
        assert(r@ =~= key_id());
    }
    r
}

fn key_version_arr() -> (r: [u8; 7])
    ensures
        r@ == key_version(),
{
    let r: [u8; 7] = [0x76, 0x65, 0x72, 0x73, 0x69, 0x6f, 0x6e];
    proof {
        assert(r@ =~= key_version());
    }
    r
}

fn key_author_arr() -> (r: [u8; 6])
    ensures
        r@ == key_author(),
{
    let r: [u8; 6] = [0x61, 0x75, 0x74, 0x68, 0x6f, 0x72];
    proof {
        assert(r@ =~= key_author());
    }
    r
}

fn key_colors_arr() -> (r: [u8; 22])
    ensures
        r@ == key_colors(),
{
    let r: [u8; 22] = [0x63, 0x75, 0x73, 0x74, 0x6f, 0x6d, 0x5f, 0x63, 0x6f, 0x6c, 0x6f, 0x72,
        0x5f, 0x6f, 0x76, 0x65, 0x72, 0x72, 0x69, 0x64, 0x65, 0x73];
    proof {
        assert(r@ =~= key_colors());
    }
    r
}

fn key_enabled_arr() -> (r: [u8; 7])
    ensures
        r@ == key_enabled(),
{
    let r: [u8; 7] = [0x65, 0x6e, 0x61, 0x62, 0x6c, 0x65, 0x64];
    proof {
        assert(r@ =~= key_enabled());
    }
    r
}

fn key_min_redness_arr() -> (r: [u8; 11])
    ensures
        r@ == key_min_redness(),
{
    let r: [u8; 11] = [0x6d, 0x69, 0x6e, 0x5f, 0x72, 0x65, 0x64, 0x6e, 0x65, 0x73, 0x73];
    proof {
        assert(r@ =~= key_min_redness());
    }
    r
}

fn key_min_saturation_arr() -> (r: [u8; 14])
    ensures
        r@ == key_min_saturation(),
{
    let r: [u8; 14] = [0x6d, 0x69, 0x6e, 0x5f, 0x73, 0x61, 0x74, 0x75, 0x72, 0x61, 0x74, 0x69,
        0x6f, 0x6e];
    proof {
        assert(r@ =~= key_min_saturation());
    }
    r
}

fn key_red_tolerance_arr() -> (r: [u8; 13])
    ensures
        r@ == key_red_tolerance(),
{
    let r: [u8; 13] = [0x72, 0x65, 0x64, 0x5f, 0x74, 0x6f, 0x6c, 0x65, 0x72, 0x61, 0x6e, 0x63,
        0x65];
    proof {
        assert(r@ =~= key_red_tolerance());
    }
    r
}

// ---------------------------------------------------------------------
// Emission
// ---------------------------------------------------------------------

/// A quoted member name followed by the colon.
pub open spec fn key_tok(k: Seq<u8>) -> Seq<u8> {
    seq![0x22u8] + k + seq![0x22u8, 0x3au8]
}

/// Canonical bytes of a color-override block.
pub open spec fn spec_emit_colors(c: ColorsV) -> Seq<u8> {
    seq![0x7bu8] + key_tok(key_enabled()) + (if c.enabled {
        lit_true()
    } else {
        lit_false()
    }) + seq![0x2cu8] + key_tok(key_min_redness()) + encode_utf8(c.min_redness) + seq![0x2cu8]
        + key_tok(key_min_saturation()) + encode_utf8(c.min_saturation) + seq![0x2cu8] + key_tok(
        key_red_tolerance(),
    ) + encode_utf8(c.red_tolerance) + seq![0x7du8]
}

/// Canonical bytes of a pack-metadata document.
pub open spec fn spec_emit_meta(m: MetaV) -> Seq<u8> {
    seq![0x7bu8] + key_tok(key_name()) + spec_emit_string(m.name) + seq![0x2cu8] + key_tok(key_id())
        + spec_emit_string(m.id) + seq![0x2cu8] + key_tok(key_version()) + spec_emit_string(
        m.version,
    ) + seq![0x2cu8] + key_tok(key_author()) + spec_emit_string(m.author) + (match m
        .custom_color_overrides {
        Some(c) => seq![0x2cu8] + key_tok(key_colors()) + spec_emit_colors(c),
        None => Seq::<u8>::empty(),
    }) + seq![0x7du8]
}

/// Appends a quoted member name and colon to `out`.
pub(crate) fn push_key(out: &mut Vec<u8>, k: &[u8])
    ensures
        final(out)@ == old(out)@ + key_tok(k@),
{
    out.push(0x22);
    out.extend_from_slice(k);
    out.push(0x22);
    out.push(0x3a);
    proof {
        assert(final(out)@ =~= old(out)@ + key_tok(k@));
    }
}

/// Appends the canonical metadata document for `meta` to `out`.
#[verifier::rlimit(100)]
pub fn emit_meta_doc(meta: &PackMeta, out: &mut Vec<u8>)
    ensures
        final(out)@ == old(out)@ + spec_emit_meta(meta@),
{
    out.push(0x7b);
    let kn = key_name_arr();
    push_key(out, kn.as_slice());
    push_string_tok(out, meta.name.as_str());
    out.push(0x2c);
    let ki = key_id_arr();
    push_key(out, ki.as_slice());
    push_string_tok(out, meta.id.as_str());
    out.push(0x2c);
    let kv = key_version_arr();
    push_key(out, kv.as_slice());
    push_string_tok(out, meta.version.as_str());
    out.push(0x2c);
    let ka = key_author_arr();
    push_key(out, ka.as_slice());
    push_string_tok(out, meta.author.as_str());
    let ghost head = seq![0x7bu8] + key_tok(key_name()) + spec_emit_string(meta@.name)
        + seq![0x2cu8] + key_tok(key_id()) + spec_emit_string(meta@.id) + seq![0x2cu8] + key_tok(
        key_version(),
    ) + spec_emit_string(meta@.version) + seq![0x2cu8] + key_tok(key_author()) + spec_emit_string(
        meta@.author,
    );
    proof {
        assert(out@ =~= old(out)@ + head);
    }
    match &meta.custom_color_overrides {
        Some(c) => {
            out.push(0x2c);
            let kc = key_colors_arr();
            push_key(out, kc.as_slice());
            out.push(0x7b);
            let ke = key_enabled_arr();
            push_key(out, ke.as_slice());
            if c.enabled {
                out.push(0x74);
                out.push(0x72);
                out.push(0x75);
                out.push(0x65);
            } else {
                out.push(0x66);
                out.push(0x61);
                out.push(0x6c);
                out.push(0x73);
                out.push(0x65);
            }
            out.push(0x2c);
            let kr = key_min_redness_arr();
            push_key(out, kr.as_slice());
            out.extend_from_slice(c.min_redness.as_str().as_bytes());
            out.push(0x2c);
            let ks = key_min_saturation_arr();
            push_key(out, ks.as_slice());
            out.extend_from_slice(c.min_saturation.as_str().as_bytes());
            out.push(0x2c);
            let kt = key_red_tolerance_arr();
            push_key(out, kt.as_slice());
            out.extend_from_slice(c.red_tolerance.as_str().as_bytes());
            out.push(0x7d);
            out.push(0x7d);
            proof {
                let cv = meta@.custom_color_overrides.unwrap();
                assert(out@ =~= old(out)@ + head + (seq![0x2cu8] + key_tok(key_colors())
                    + spec_emit_colors(cv)) + seq![0x7du8]);
                assert(final(out)@ =~= old(out)@ + spec_emit_meta(meta@));
            }
        },
        None => {
            out.push(0x7d);
            proof {
                assert(out@ =~= old(out)@ + head + seq![0x7du8]);
                assert(final(out)@ =~= old(out)@ + spec_emit_meta(meta@));
            }
        },
    }
}

// ---------------------------------------------------------------------
// Parsing
// ---------------------------------------------------------------------

/// Fields gathered so far while reading a color-override block.
pub struct ColorsAcc {
    pub enabled: Option<bool>,
    pub min_redness: Option<Seq<char>>,
    pub min_saturation: Option<Seq<char>>,
    pub red_tolerance: Option<Seq<char>>,
}

pub open spec fn colors_acc_empty() -> ColorsAcc {
    ColorsAcc { enabled: None, min_redness: None, min_saturation: None, red_tolerance: None }
}

/// One color member's value, dispatched on the member name; a duplicate
/// or unknown name fails.
pub open spec fn spec_parse_colors_step(d: Seq<u8>, i: int, key: Seq<u8>, acc: ColorsAcc) -> Option<
    (ColorsAcc, int),
> {
    if key == key_enabled() {
        if acc.enabled is Some {
            None
        } else {
            match spec_parse_bool(d, i) {
                Some(p) => Some(
                    (
                        ColorsAcc {
                            enabled: Some(p.0),
                            min_redness: acc.min_redness,
                            min_saturation: acc.min_saturation,
                            red_tolerance: acc.red_tolerance,
                        },
                        p.1,
                    ),
                ),
                None => None,
            }
        }
    } else if key == key_min_redness() {
        if acc.min_redness is Some {
            None
        } else {
            match spec_parse_number(d, i) {
                Some(p) => Some(
                    (
                        ColorsAcc {
                            enabled: acc.enabled,
                            min_redness: Some(decode_utf8(p.0)),
                            min_saturation: acc.min_saturation,
                            red_tolerance: acc.red_tolerance,
                        },
                        p.1,
                    ),
                ),
                None => None,
            }
        }
    } else if key == key_min_saturation() {
        if acc.min_saturation is Some {
            None
        } else {
            match spec_parse_number(d, i) {
                Some(p) => Some(
                    (
                        ColorsAcc {
                            enabled: acc.enabled,
                            min_redness: acc.min_redness,
                            min_saturation: Some(decode_utf8(p.0)),
                            red_tolerance: acc.red_tolerance,
                        },
                        p.1,
                    ),
                ),
                None => None,
            }
        }
    } else if key == key_red_tolerance() {
        if acc.red_tolerance is Some {
            None
        } else {
            match spec_parse_number(d, i) {
                Some(p) => Some(
                    (
                        ColorsAcc {
                            enabled: acc.enabled,
                            min_redness: acc.min_redness,
                            min_saturation: acc.min_saturation,
                            red_tolerance: Some(decode_utf8(p.0)),
                        },
                        p.1,
                    ),
                ),
                None => None,
            }
        }
    } else {
        None
    }
}

/// The members of a color-override block from `i` up to its closing
/// brace.
pub open spec fn spec_parse_colors_members(d: Seq<u8>, i: int, acc: ColorsAcc) -> Option<
    (ColorsAcc, int),
>
    decreases d.len() - i,
{
    match spec_parse_string(d, i) {
        Some(kp) => match spec_expect(d, kp.1, 0x3a) {
            Some(i2) => match spec_parse_colors_step(d, i2, kp.0, acc) {
                Some(sp) => match spec_expect(d, sp.1, 0x2c) {
                    Some(i4) => if i < i4 <= d.len() {
                        spec_parse_colors_members(d, i4, sp.0)
                    } else {
                        None
                    },
                    None => match spec_expect(d, sp.1, 0x7d) {
                        Some(i5) => Some((sp.0, i5)),
                        None => None,
                    },
                },
                None => None,
            },
            None => None,
        },
        None => None,
    }
}

/// A color-override block at `i`: all four members must be present.
pub open spec fn spec_parse_colors(d: Seq<u8>, i: int) -> Option<(ColorsV, int)> {
    match spec_expect(d, i, 0x7b) {
        Some(i1) => match spec_parse_colors_members(d, i1, colors_acc_empty()) {
            Some(p) => if p.0.enabled is Some && p.0.min_redness is Some && p.0.min_saturation
                is Some && p.0.red_tolerance is Some {
                Some(
                    (
                        ColorsV {
                            enabled: p.0.enabled.unwrap(),
                            min_redness: p.0.min_redness.unwrap(),
                            min_saturation: p.0.min_saturation.unwrap(),
                            red_tolerance: p.0.red_tolerance.unwrap(),
                        },
                        p.1,
                    ),
                )
            } else {
                None
            },
            None => None,
        },
        None => None,
    }
}

/// Fields gathered so far while reading the metadata document; the
/// color member records whether it was seen and whether it was `null`.
pub struct MetaAcc {
    pub name: Option<Seq<char>>,
    pub id: Option<Seq<char>>,
    pub version: Option<Seq<char>>,
    pub author: Option<Seq<char>>,
    pub colors: Option<Option<ColorsV>>,
}

pub open spec fn meta_acc_empty() -> MetaAcc {
    MetaAcc { name: None, id: None, version: None, author: None, colors: None }
}

/// One metadata member's value, dispatched on the member name.
pub open spec fn spec_parse_meta_step(d: Seq<u8>, i: int, key: Seq<u8>, acc: MetaAcc) -> Option<
    (MetaAcc, int),
> {
    if key == key_name() {
        if acc.name is Some {
            None
        } else {
            match spec_parse_string(d, i) {
                Some(p) => if valid_utf8(p.0) {
                    Some(
                        (
                            MetaAcc {
                                name: Some(decode_utf8(p.0)),
                                id: acc.id,
                                version: acc.version,
                                author: acc.author,
                                colors: acc.colors,
                            },
                            p.1,
                        ),
                    )
                } else {
                    None
                },
                None => None,
            }
        }
    } else if key == key_id() {
        if acc.id is Some {
            None
        } else {
            match spec_parse_string(d, i) {
                Some(p) => if valid_utf8(p.0) {
                    Some(
                        (
                            MetaAcc {
                                name: acc.name,
                                id: Some(decode_utf8(p.0)),
                                version: acc.version,
                                author: acc.author,
                                colors: acc.colors,
                            },
                            p.1,
                        ),
                    )
                } else {
                    None
                },
                None => None,
            }
        }
    } else if key == key_version() {
        if acc.version is Some {
            None
        } else {
            match spec_parse_string(d, i) {
                Some(p) => if valid_utf8(p.0) {
                    Some(
                        (
                            MetaAcc {
                                name: acc.name,
                                id: acc.id,
                                version: Some(decode_utf8(p.0)),
                                author: acc.author,
                                colors: acc.colors,
                            },
                            p.1,
                        ),
                    )
                } else {
                    None
                },
                None => None,
            }
        }
    } else if key == key_author() {
        if acc.author is Some {
            None
        } else {
            match spec_parse_string(d, i) {
                Some(p) => if valid_utf8(p.0) {
                    Some(
                        (
                            MetaAcc {
                                name: acc.name,
                                id: acc.id,
                                version: acc.version,
                                author: Some(decode_utf8(p.0)),
                                colors: acc.colors,
                            },
                            p.1,
                        ),
                    )
                } else {
                    None
                },
                None => None,
            }
        }
    } else if key == key_colors() {
        if acc.colors is Some {
            None
        } else {
            match spec_parse_null(d, i) {
                Some(j) => Some(
                    (
                        MetaAcc {
                            name: acc.name,
                            id: acc.id,
                            version: acc.version,
                            author: acc.author,
                            colors: Some(None),
                        },
                        j,
                    ),
                ),
                None => match spec_parse_colors(d, i) {
                    Some(p) => Some(
                        (
                            MetaAcc {
                                name: acc.name,
                                id: acc.id,
                                version: acc.version,
                                author: acc.author,
                                colors: Some(Some(p.0)),
                            },
                            p.1,
                        ),
                    ),
                    None => None,
                },
            }
        }
    } else {
        None
    }
}

/// The members of the metadata document from `i` up to its closing
/// brace.
pub open spec fn spec_parse_meta_members(d: Seq<u8>, i: int, acc: MetaAcc) -> Option<
    (MetaAcc, int),
>
    decreases d.len() - i,
{
    match spec_parse_string(d, i) {
        Some(kp) => match spec_expect(d, kp.1, 0x3a) {
            Some(i2) => match spec_parse_meta_step(d, i2, kp.0, acc) {
                Some(sp) => match spec_expect(d, sp.1, 0x2c) {
                    Some(i4) => if i < i4 <= d.len() {
                        spec_parse_meta_members(d, i4, sp.0)
                    } else {
                        None
                    },
                    None => match spec_expect(d, sp.1, 0x7d) {
                        Some(i5) => Some((sp.0, i5)),
                        None => None,
                    },
                },
                None => None,
            },
            None => None,
        },
        None => None,
    }
}

pub open spec fn view_opt_str(o: Option<String>) -> Option<Seq<char>> {
    match o {
        Some(s) => Some(s@),
        None => None,
    }
}

pub open spec fn colors_acc_of(
    e: Option<bool>,
    r: Option<String>,
    s: Option<String>,
    t: Option<String>,
) -> ColorsAcc {
    ColorsAcc {
        enabled: e,
        min_redness: view_opt_str(r),
        min_saturation: view_opt_str(s),
        red_tolerance: view_opt_str(t),
    }
}

pub open spec fn view_opt_colors(o: Option<Option<ColorOverrides>>) -> Option<Option<ColorsV>> {
    match o {
        Some(Some(c)) => Some(Some(c@)),
        Some(None) => Some(None),
        None => None,
    }
}

pub open spec fn meta_acc_of(
    n: Option<String>,
    i: Option<String>,
    v: Option<String>,
    a: Option<String>,
    c: Option<Option<ColorOverrides>>,
) -> MetaAcc {
    MetaAcc {
        name: view_opt_str(n),
        id: view_opt_str(i),
        version: view_opt_str(v),
        author: view_opt_str(a),
        colors: view_opt_colors(c),
    }
}

/// Decodes a color-override block at `i`.
pub fn parse_colors(d: &Vec<u8>, i: usize) -> (r: Option<(ColorOverrides, usize)>)
    requires
        i <= d@.len(),
    ensures
        ({
            let sp = spec_parse_colors(d@, i as int);
            match r {
                Some(p) => (sp matches Some(spv) && p.0@ == spv.0 && p.1 == spv.1 && colors_wf(p.0@)
                    && i < p.1 <= d@.len()),
                None => sp is None,
            }
        }),
{
    let i1 = match expect_byte(d, i, 0x7b) {
        Some(x) => x,
        None => {
            return None;
        },
    };
    let mut pos = i1;
    let mut enabled_o: Option<bool> = None;
    let mut redness_o: Option<String> = None;
    let mut saturation_o: Option<String> = None;
    let mut tolerance_o: Option<String> = None;
    loop
        invariant
            i < pos <= d@.len(),
            i < i1 <= d@.len(),
            spec_expect(d@, i as int, 0x7b) == Some(i1 as int),
            spec_parse_colors_members(d@, i1 as int, colors_acc_empty())
                == spec_parse_colors_members(
                d@,
                pos as int,
                colors_acc_of(enabled_o, redness_o, saturation_o, tolerance_o),
            ),
            (redness_o matches Some(s) ==> num_token_wf(s@)),
            (saturation_o matches Some(s) ==> num_token_wf(s@)),
            (tolerance_o matches Some(s) ==> num_token_wf(s@)),
        decreases d@.len() - pos,
    {
        let ghost acc_pre = colors_acc_of(enabled_o, redness_o, saturation_o, tolerance_o);
        let (key, kpos) = match parse_string_tok(d, pos) {
            Some(x) => x,
            None => {
                return None;
            },
        };
        let i2 = match expect_byte(d, kpos, 0x3a) {
            Some(x) => x,
            None => {
                return None;
            },
        };
        let ke = key_enabled_arr();
        let kr = key_min_redness_arr();
        let ks = key_min_saturation_arr();
        let kt = key_red_tolerance_arr();
        let i3: usize = if bytes_eq(key.as_slice(), ke.as_slice()) {
            if enabled_o.is_some() {
                return None;
            }
            let (v, p) = match parse_bool_tok(d, i2) {
                Some(x) => x,
                None => {
                    return None;
                },
            };
            enabled_o = Some(v);
            p
        } else if bytes_eq(key.as_slice(), kr.as_slice()) {
            if redness_o.is_some() {
                return None;
            }
            let (tok, p) = match parse_number_tok(d, i2) {
                Some(x) => x,
                None => {
                    return None;
                },
            };
            let ghost tokv = tok@;
            proof {
                lemma_ascii_bytes_valid(tokv);
            }
            let s = match string_from_utf8(tok) {
                Some(x) => x,
                None => vstd::pervasive::unreached(),
            };
            proof {
                vstd::utf8::decode_utf8_encode_utf8(tokv);
            }
            redness_o = Some(s);
            p
        } else if bytes_eq(key.as_slice(), ks.as_slice()) {
            if saturation_o.is_some() {
                return None;
            }
            let (tok, p) = match parse_number_tok(d, i2) {
                Some(x) => x,
                None => {
                    return None;
                },
            };
            let ghost tokv = tok@;
            proof {
                lemma_ascii_bytes_valid(tokv);
            }
            let s = match string_from_utf8(tok) {
                Some(x) => x,
                None => vstd::pervasive::unreached(),
            };
            proof {
                vstd::utf8::decode_utf8_encode_utf8(tokv);
            }
            saturation_o = Some(s);
            p
        } else if bytes_eq(key.as_slice(), kt.as_slice()) {
            if tolerance_o.is_some() {
                return None;
            }
            let (tok, p) = match parse_number_tok(d, i2) {
                Some(x) => x,
                None => {
                    return None;
                },
            };
            let ghost tokv = tok@;
            proof {
                lemma_ascii_bytes_valid(tokv);
            }
            let s = match string_from_utf8(tok) {
                Some(x) => x,
                None => vstd::pervasive::unreached(),
            };
            proof {
                vstd::utf8::decode_utf8_encode_utf8(tokv);
            }
            tolerance_o = Some(s);
            p
        } else {
            return None;
        };
        let ghost acc_now = colors_acc_of(enabled_o, redness_o, saturation_o, tolerance_o);
        proof {
            assert(spec_parse_colors_step(d@, i2 as int, key@, acc_pre) == Some(
                (acc_now, i3 as int),
            ));
        }
        match expect_byte(d, i3, 0x2c) {
            Some(i4) => {
                proof {
                    assert(spec_parse_colors_members(d@, pos as int, acc_pre)
                        == spec_parse_colors_members(d@, i4 as int, acc_now));
                }
                pos = i4;
            },
            None => {
                match expect_byte(d, i3, 0x7d) {
                    Some(i5) => {
                        proof {
                            assert(spec_parse_colors_members(d@, pos as int, acc_pre) == Some(
                                (acc_now, i5 as int),
                            ));
                        }
                        let enabled = match enabled_o {
                            Some(x) => x,
                            None => {
                                return None;
                            },
                        };
                        let min_redness = match redness_o {
                            Some(x) => x,
                            None => {
                                return None;
                            },
                        };
                        let min_saturation = match saturation_o {
                            Some(x) => x,
                            None => {
                                return None;
                            },
                        };
                        let red_tolerance = match tolerance_o {
                            Some(x) => x,
                            None => {
                                return None;
                            },
                        };
                        return Some(
                            (
                                ColorOverrides { enabled, min_redness, min_saturation, red_tolerance },
                                i5,
                            ),
                        );
                    },
                    None => {
                        return None;
                    },
                }
            },
        }
    }
}

/// Decodes a whole metadata document.
pub fn parse_meta_doc(d: &Vec<u8>) -> (r: Option<PackMeta>)
    ensures
        ({
            let sp = spec_parse_meta_doc(d@);
            match r {
                Some(m) => sp == Some(m@) && m.wf(),
                None => sp is None,
            }
        }),
{
    let i1 = match expect_byte(d, 0, 0x7b) {
        Some(x) => x,
        None => {
            return None;
        },
    };
    let mut pos = i1;
    let mut name_o: Option<String> = None;
    let mut id_o: Option<String> = None;
    let mut version_o: Option<String> = None;
    let mut author_o: Option<String> = None;
    let mut colors_o: Option<Option<ColorOverrides>> = None;
    loop
        invariant
            pos <= d@.len(),
            i1 <= d@.len(),
            spec_expect(d@, 0, 0x7b) == Some(i1 as int),
            spec_parse_meta_members(d@, i1 as int, meta_acc_empty()) == spec_parse_meta_members(
                d@,
                pos as int,
                meta_acc_of(name_o, id_o, version_o, author_o, colors_o),
            ),
            (colors_o matches Some(co) ==> (co matches Some(c) ==> colors_wf(c@))),
        decreases d@.len() - pos,
    {
        let ghost acc_pre = meta_acc_of(name_o, id_o, version_o, author_o, colors_o);
        let (key, kpos) = match parse_string_tok(d, pos) {
            Some(x) => x,
            None => {
                return None;
            },
        };
        let i2 = match expect_byte(d, kpos, 0x3a) {
            Some(x) => x,
            None => {
                return None;
            },
        };
        let kn = key_name_arr();
        let ki = key_id_arr();
        let kv = key_version_arr();
        let ka = key_author_arr();
        let kc = key_colors_arr();
        let i3: usize = if bytes_eq(key.as_slice(), kn.as_slice()) {
            if name_o.is_some() {
                return None;
            }
            let (b, p) = match parse_string_tok(d, i2) {
                Some(x) => x,
                None => {
                    return None;
                },
            };
            let s = match string_from_utf8(b) {
                Some(x) => x,
                None => {
                    return None;
                },
            };
            name_o = Some(s);
            p
        } else if bytes_eq(key.as_slice(), ki.as_slice()) {
            if id_o.is_some() {
                return None;
            }
            let (b, p) = match parse_string_tok(d, i2) {
                Some(x) => x,
                None => {
                    return None;
                },
            };
            let s = match string_from_utf8(b) {
                Some(x) => x,
                None => {
                    return None;
                },
            };
            id_o = Some(s);
            p
        } else if bytes_eq(key.as_slice(), kv.as_slice()) {
            if version_o.is_some() {
                return None;
            }
            let (b, p) = match parse_string_tok(d, i2) {
                Some(x) => x,
                None => {
                    return None;
                },
            };
            let s = match string_from_utf8(b) {
                Some(x) => x,
                None => {
                    return None;
                },
            };
            version_o = Some(s);
            p
        } else if bytes_eq(key.as_slice(), ka.as_slice()) {
            if author_o.is_some() {
                return None;
            }
            let (b, p) = match parse_string_tok(d, i2) {
                Some(x) => x,
                None => {
                    return None;
                },
            };
            let s = match string_from_utf8(b) {
                Some(x) => x,
                None => {
                    return None;
                },
            };
            author_o = Some(s);
            p
        } else if bytes_eq(key.as_slice(), kc.as_slice()) {
            if colors_o.is_some() {
                return None;
            }
            match parse_null_tok(d, i2) {
                Some(p) => {
                    colors_o = Some(None);
                    p
                },
                None => {
                    let (c, p) = match parse_colors(d, i2) {
                        Some(x) => x,
                        None => {
                            return None;
                        },
                    };
                    colors_o = Some(Some(c));
                    p
                },
            }
        } else {
            return None;
        };
        let ghost acc_now = meta_acc_of(name_o, id_o, version_o, author_o, colors_o);
        proof {
            assert(spec_parse_meta_step(d@, i2 as int, key@, acc_pre) == Some((acc_now, i3 as int)));
        }
        match expect_byte(d, i3, 0x2c) {
            Some(i4) => {
                proof {
                    assert(spec_parse_meta_members(d@, pos as int, acc_pre)
                        == spec_parse_meta_members(d@, i4 as int, acc_now));
                }
                pos = i4;
            },
            None => {
                match expect_byte(d, i3, 0x7d) {
                    Some(i5) => {
                        proof {
                            assert(spec_parse_meta_members(d@, pos as int, acc_pre) == Some(
                                (acc_now, i5 as int),
                            ));
                        }
                        let e = skip_ws(d, i5);
                        if e != d.len() {
                            return None;
                        }
                        let name = match name_o {
                            Some(x) => x,
                            None => {
                                return None;
                            },
                        };
                        let id = match id_o {
                            Some(x) => x,
                            None => {
                                return None;
                            },
                        };
                        let version = match version_o {
                            Some(x) => x,
                            None => {
                                return None;
                            },
                        };
                        let author = match author_o {
                            Some(x) => x,
                            None => {
                                return None;
                            },
                        };
                        let custom_color_overrides = match colors_o {
                            Some(c) => c,
                            None => None,
                        };
                        return Some(
                            PackMeta { name, id, version, author, custom_color_overrides },
                        );
                    },
                    None => {
                        return None;
                    },
                }
            },
        }
    }
}

/// The whole metadata document: an object with the four required
/// members, an optional color block, and nothing but whitespace after
/// it.
pub open spec fn spec_parse_meta_doc(d: Seq<u8>) -> Option<MetaV> {
    match spec_expect(d, 0, 0x7b) {
        Some(i1) => match spec_parse_meta_members(d, i1, meta_acc_empty()) {
            Some(p) => if spec_skip_ws(d, p.1) == d.len() && p.0.name is Some && p.0.id is Some
                && p.0.version is Some && p.0.author is Some {
                Some(
                    MetaV {
                        name: p.0.name.unwrap(),
                        id: p.0.id.unwrap(),
                        version: p.0.version.unwrap(),
                        author: p.0.author.unwrap(),
                        custom_color_overrides: match p.0.colors {
                            Some(c) => c,
                            None => None,
                        },
                    },
                )
            } else {
                None
            },
            None => None,
        },
        None => None,
    }
}

// ---------------------------------------------------------------------
// Round trip
// ---------------------------------------------------------------------

/// Parsing a written color-override block restores the block.
#[verifier::rlimit(100)]
pub proof fn lemma_colors_roundtrip(d: Seq<u8>, i: int, c: ColorsV)
    requires
        colors_wf(c),
        0 <= i,
        i + spec_emit_colors(c).len() <= d.len(),
        d.subrange(i, i + spec_emit_colors(c).len()) == spec_emit_colors(c),
    ensures
        spec_parse_colors(d, i) == Some((c, i + spec_emit_colors(c).len())),
{
    let e = spec_emit_colors(c);
    let t_e = key_tok(key_enabled());
    let t_r = key_tok(key_min_redness());
    let t_s = key_tok(key_min_saturation());
    let t_t = key_tok(key_red_tolerance());
    let bl = if c.enabled {
        lit_true()
    } else {
        lit_false()
    };
    let n_r = encode_utf8(c.min_redness);
    let n_s = encode_utf8(c.min_saturation);
    let n_t = encode_utf8(c.red_tolerance);
    let q1 = 1int;
    let q2 = q1 + t_e.len();
    let q3 = q2 + bl.len();
    let q4 = q3 + 1;
    let q5 = q4 + t_r.len();
    let q6 = q5 + n_r.len();
    let q7 = q6 + 1;
    let q8 = q7 + t_s.len();
    let q9 = q8 + n_s.len();
    let q10 = q9 + 1;
    let q11 = q10 + t_t.len();
    let q12 = q11 + n_t.len();
    assert(e.len() == q12 + 1);
    // the opening brace
    assert(e.subrange(0, 1) =~= seq![0x7bu8]);
    lemma_window_piece(d, i, e, 0, 1);
    assert(d[i] == d.subrange(i, i + 1)[0]);
    lemma_expect_at(d, i, 0x7b);
    // member names as quoted tokens, each followed by its colon
    assert forall|m: int| 0 <= m < key_enabled().len() implies key_enabled()[m] != 0x22 && key_enabled()[m]
        != 0x5C by {}
    crate::doc_lex::lemma_escape_clean(key_enabled());
    assert forall|m: int| 0 <= m < key_min_redness().len() implies key_min_redness()[m] != 0x22 && key_min_redness()[m]
        != 0x5C by {}
    crate::doc_lex::lemma_escape_clean(key_min_redness());
    assert forall|m: int| 0 <= m < key_min_saturation().len() implies key_min_saturation()[m] != 0x22 && key_min_saturation()[m]
        != 0x5C by {}
    crate::doc_lex::lemma_escape_clean(key_min_saturation());
    assert forall|m: int| 0 <= m < key_red_tolerance().len() implies key_red_tolerance()[m] != 0x22 && key_red_tolerance()[m]
        != 0x5C by {}
    crate::doc_lex::lemma_escape_clean(key_red_tolerance());
    assert(e.subrange(q1, q2 - 1) =~= seq![0x22u8] + key_enabled() + seq![0x22u8]);
    lemma_window_piece(d, i, e, q1, q2 - 1);
    lemma_parse_string_clean_at(d, i + q1, key_enabled());
    assert(e.subrange(q2 - 1, q2) =~= seq![0x3au8]);
    lemma_window_piece(d, i, e, q2 - 1, q2);
    assert(d[i + q2 - 1] == d.subrange(i + q2 - 1, i + q2)[0]);
    lemma_expect_at(d, i + q2 - 1, 0x3a);
    assert(e.subrange(q4, q5 - 1) =~= seq![0x22u8] + key_min_redness() + seq![0x22u8]);
    lemma_window_piece(d, i, e, q4, q5 - 1);
    lemma_parse_string_clean_at(d, i + q4, key_min_redness());
    assert(e.subrange(q5 - 1, q5) =~= seq![0x3au8]);
    lemma_window_piece(d, i, e, q5 - 1, q5);
    assert(d[i + q5 - 1] == d.subrange(i + q5 - 1, i + q5)[0]);
    lemma_expect_at(d, i + q5 - 1, 0x3a);
    assert(e.subrange(q7, q8 - 1) =~= seq![0x22u8] + key_min_saturation() + seq![0x22u8]);
    lemma_window_piece(d, i, e, q7, q8 - 1);
    lemma_parse_string_clean_at(d, i + q7, key_min_saturation());
    assert(e.subrange(q8 - 1, q8) =~= seq![0x3au8]);
    lemma_window_piece(d, i, e, q8 - 1, q8);
    assert(d[i + q8 - 1] == d.subrange(i + q8 - 1, i + q8)[0]);
    lemma_expect_at(d, i + q8 - 1, 0x3a);
    assert(e.subrange(q10, q11 - 1) =~= seq![0x22u8] + key_red_tolerance() + seq![0x22u8]);
    lemma_window_piece(d, i, e, q10, q11 - 1);
    lemma_parse_string_clean_at(d, i + q10, key_red_tolerance());
    assert(e.subrange(q11 - 1, q11) =~= seq![0x3au8]);
    lemma_window_piece(d, i, e, q11 - 1, q11);
    assert(d[i + q11 - 1] == d.subrange(i + q11 - 1, i + q11)[0]);
    lemma_expect_at(d, i + q11 - 1, 0x3a);
    // the boolean
    assert(e.subrange(q2, q3) =~= bl);
    lemma_window_piece(d, i, e, q2, q3);
    if c.enabled {
        lemma_parse_bool_at(d, i + q2, true);
    } else {
        lemma_parse_bool_at(d, i + q2, false);
    }
    // the three number tokens, each delimited by a comma or the brace
    assert(e.subrange(q5, q6) =~= n_r);
    lemma_window_piece(d, i, e, q5, q6);
    assert(e.subrange(q6, q7) =~= seq![0x2cu8]);
    lemma_window_piece(d, i, e, q6, q7);
    assert(d[i + q6] == d.subrange(i + q6, i + q7)[0]);
    lemma_parse_number_at(d, i + q5, n_r);
    lemma_expect_at(d, i + q6, 0x2c);
    assert(e.subrange(q8, q9) =~= n_s);
    lemma_window_piece(d, i, e, q8, q9);
    assert(e.subrange(q9, q10) =~= seq![0x2cu8]);
    lemma_window_piece(d, i, e, q9, q10);
    assert(d[i + q9] == d.subrange(i + q9, i + q10)[0]);
    lemma_parse_number_at(d, i + q8, n_s);
    lemma_expect_at(d, i + q9, 0x2c);
    assert(e.subrange(q11, q12) =~= n_t);
    lemma_window_piece(d, i, e, q11, q12);
    assert(e.subrange(q12, q12 + 1) =~= seq![0x7du8]);
    lemma_window_piece(d, i, e, q12, q12 + 1);
    assert(d[i + q12] == d.subrange(i + q12, i + q12 + 1)[0]);
    lemma_parse_number_at(d, i + q11, n_t);
    lemma_expect_at(d, i + q12, 0x7d);
    // the comma after the boolean
    assert(e.subrange(q3, q4) =~= seq![0x2cu8]);
    lemma_window_piece(d, i, e, q3, q4);
    assert(d[i + q3] == d.subrange(i + q3, i + q4)[0]);
    lemma_expect_at(d, i + q3, 0x2c);
    // values decode back to the carried tokens
    encode_utf8_decode_utf8(c.min_redness);
    encode_utf8_decode_utf8(c.min_saturation);
    encode_utf8_decode_utf8(c.red_tolerance);
    // walk the members
    let acc0 = colors_acc_empty();
    let acc1 = ColorsAcc {
        enabled: Some(c.enabled),
        min_redness: None,
        min_saturation: None,
        red_tolerance: None,
    };
    let acc2 = ColorsAcc {
        enabled: Some(c.enabled),
        min_redness: Some(c.min_redness),
        min_saturation: None,
        red_tolerance: None,
    };
    let acc3 = ColorsAcc {
        enabled: Some(c.enabled),
        min_redness: Some(c.min_redness),
        min_saturation: Some(c.min_saturation),
        red_tolerance: None,
    };
    let acc4 = ColorsAcc {
        enabled: Some(c.enabled),
        min_redness: Some(c.min_redness),
        min_saturation: Some(c.min_saturation),
        red_tolerance: Some(c.red_tolerance),
    };
    assert(spec_parse_colors_step(d, i + q2, key_enabled(), acc0) == Some((acc1, i + q3)));
    assert(spec_parse_colors_members(d, i + 1, acc0) == spec_parse_colors_members(d, i + q4, acc1));
    assert(spec_parse_colors_step(d, i + q5, key_min_redness(), acc1) == Some((acc2, i + q6)));
    assert(spec_parse_colors_members(d, i + q4, acc1) == spec_parse_colors_members(
        d,
        i + q7,
        acc2,
    ));
    assert(spec_parse_colors_step(d, i + q8, key_min_saturation(), acc2) == Some((acc3, i + q9)));
    assert(spec_parse_colors_members(d, i + q7, acc2) == spec_parse_colors_members(
        d,
        i + q10,
        acc3,
    ));
    assert(spec_parse_colors_step(d, i + q11, key_red_tolerance(), acc3) == Some((acc4, i + q12)));
    assert(spec_expect(d, i + q12, 0x2c) is None);
    assert(spec_parse_colors_members(d, i + q10, acc3) == Some((acc4, i + q12 + 1)));
    assert(spec_parse_colors(d, i) == Some((c, i + e.len())));
}

/// Locates every token of the four required string members of an
/// emitted metadata document.
#[verifier::rlimit(100)]
proof fn lemma_meta_tokens(
    d: Seq<u8>,
    m: MetaV,
    q2: int,
    q3: int,
    q5: int,
    q6: int,
    q8: int,
    q9: int,
    q11: int,
    q12: int,
)
    requires
        d == spec_emit_meta(m),
        q2 == 1 + key_tok(key_name()).len(),
        q3 == q2 + spec_emit_string(m.name).len(),
        q5 == q3 + 1 + key_tok(key_id()).len(),
        q6 == q5 + spec_emit_string(m.id).len(),
        q8 == q6 + 1 + key_tok(key_version()).len(),
        q9 == q8 + spec_emit_string(m.version).len(),
        q11 == q9 + 1 + key_tok(key_author()).len(),
        q12 == q11 + spec_emit_string(m.author).len(),
    ensures
        spec_expect(d, 0, 0x7b) == Some(1int),
        spec_parse_string(d, 1) == Some((key_name(), q2 - 1)),
        spec_expect(d, q2 - 1, 0x3a) == Some(q2),
        spec_parse_string(d, q2) == Some((encode_utf8(m.name), q3)),
        spec_expect(d, q3, 0x2c) == Some(q3 + 1),
        spec_parse_string(d, q3 + 1) == Some((key_id(), q5 - 1)),
        spec_expect(d, q5 - 1, 0x3a) == Some(q5),
        spec_parse_string(d, q5) == Some((encode_utf8(m.id), q6)),
        spec_expect(d, q6, 0x2c) == Some(q6 + 1),
        spec_parse_string(d, q6 + 1) == Some((key_version(), q8 - 1)),
        spec_expect(d, q8 - 1, 0x3a) == Some(q8),
        spec_parse_string(d, q8) == Some((encode_utf8(m.version), q9)),
        spec_expect(d, q9, 0x2c) == Some(q9 + 1),
        spec_parse_string(d, q9 + 1) == Some((key_author(), q11 - 1)),
        spec_expect(d, q11 - 1, 0x3a) == Some(q11),
        spec_parse_string(d, q11) == Some((encode_utf8(m.author), q12)),
{
    let t_n = key_tok(key_name());
    let t_i = key_tok(key_id());
    let t_v = key_tok(key_version());
    let t_a = key_tok(key_author());
    let s_n = spec_emit_string(m.name);
    let s_i = spec_emit_string(m.id);
    let s_v = spec_emit_string(m.version);
    let s_a = spec_emit_string(m.author);
    let cc = match m.custom_color_overrides {
        Some(c) => seq![0x2cu8] + key_tok(key_colors()) + spec_emit_colors(c),
        None => Seq::<u8>::empty(),
    };
    // peel the document into its pieces, right to left
    let p1 = seq![0x7bu8];
    let p2 = p1 + t_n;
    let p3 = p2 + s_n;
    let p4 = p3 + seq![0x2cu8];
    let p5 = p4 + t_i;
    let p6 = p5 + s_i;
    let p7 = p6 + seq![0x2cu8];
    let p8 = p7 + t_v;
    let p9 = p8 + s_v;
    let p10 = p9 + seq![0x2cu8];
    let p11 = p10 + t_a;
    let p12 = p11 + s_a;
    let p13 = p12 + cc;
    let p14 = p13 + seq![0x7du8];
    assert(d == p14);
    assert(d.subrange(0, d.len() as int) =~= d);
    lemma_subrange_split(d, 0, p13, seq![0x7du8]);
    lemma_subrange_split(d, 0, p12, cc);
    lemma_subrange_split(d, 0, p11, s_a);
    lemma_subrange_split(d, 0, p10, t_a);
    lemma_subrange_split(d, 0, p9, seq![0x2cu8]);
    lemma_subrange_split(d, 0, p8, s_v);
    lemma_subrange_split(d, 0, p7, t_v);
    lemma_subrange_split(d, 0, p6, seq![0x2cu8]);
    lemma_subrange_split(d, 0, p5, s_i);
    lemma_subrange_split(d, 0, p4, t_i);
    lemma_subrange_split(d, 0, p3, seq![0x2cu8]);
    lemma_subrange_split(d, 0, p2, s_n);
    lemma_subrange_split(d, 0, p1, t_n);
    lemma_key_name_clean();
    lemma_key_tok_walk(d, p1.len() as int, key_name());
    lemma_key_tok_walk(d, p4.len() as int, key_id());
    lemma_key_tok_walk(d, p7.len() as int, key_version());
    lemma_key_tok_walk(d, p10.len() as int, key_author());
    assert(d[0] == d.subrange(0, p1.len() as int)[0]);
    lemma_expect_at(d, 0, 0x7b);
    lemma_parse_string_at(d, q2, m.name);
    lemma_parse_string_at(d, q5, m.id);
    lemma_parse_string_at(d, q8, m.version);
    lemma_parse_string_at(d, q11, m.author);
    assert(d[q3] == d.subrange(p3.len() as int, p4.len() as int)[0]);
    lemma_expect_at(d, q3, 0x2c);
    assert(d[q6] == d.subrange(p6.len() as int, p7.len() as int)[0]);
    lemma_expect_at(d, q6, 0x2c);
    assert(d[q9] == d.subrange(p9.len() as int, p10.len() as int)[0]);
    lemma_expect_at(d, q9, 0x2c);
}

/// The four required member names hold no quote or backslash.
proof fn lemma_key_name_clean()
    ensures
        forall|m: int| 0 <= m < key_name().len() ==> key_name()[m] != 0x22 && #[trigger] key_name()[m] != 0x5C,
        forall|m: int| 0 <= m < key_id().len() ==> key_id()[m] != 0x22 && #[trigger] key_id()[m] != 0x5C,
        forall|m: int| 0 <= m < key_version().len() ==> key_version()[m] != 0x22 && #[trigger] key_version()[m] != 0x5C,
        forall|m: int| 0 <= m < key_author().len() ==> key_author()[m] != 0x22 && #[trigger] key_author()[m] != 0x5C,
{
    assert forall|m: int| 0 <= m < key_name().len() implies key_name()[m] != 0x22 && #[trigger] key_name()[m]
        != 0x5C by {}
    assert forall|m: int| 0 <= m < key_id().len() implies key_id()[m] != 0x22 && #[trigger] key_id()[m]
        != 0x5C by {}
    assert forall|m: int| 0 <= m < key_version().len() implies key_version()[m] != 0x22
        && #[trigger] key_version()[m] != 0x5C by {}
    assert forall|m: int| 0 <= m < key_author().len() implies key_author()[m] != 0x22
        && #[trigger] key_author()[m] != 0x5C by {}
}

/// Walks the four required string members of an emitted metadata
/// document, leaving the parser just past the author value.
#[verifier::rlimit(100)]
proof fn lemma_meta_prefix_walk(
    d: Seq<u8>,
    m: MetaV,
    q2: int,
    q3: int,
    q5: int,
    q6: int,
    q8: int,
    q9: int,
    q11: int,
    q12: int,
    acc3: MetaAcc,
    acc4: MetaAcc,
)
    requires
        d == spec_emit_meta(m),
        q2 == 1 + key_tok(key_name()).len(),
        q3 == q2 + spec_emit_string(m.name).len(),
        q5 == q3 + 1 + key_tok(key_id()).len(),
        q6 == q5 + spec_emit_string(m.id).len(),
        q8 == q6 + 1 + key_tok(key_version()).len(),
        q9 == q8 + spec_emit_string(m.version).len(),
        q11 == q9 + 1 + key_tok(key_author()).len(),
        q12 == q11 + spec_emit_string(m.author).len(),
        acc3 == (MetaAcc {
            name: Some(m.name),
            id: Some(m.id),
            version: Some(m.version),
            author: None,
            colors: None,
        }),
        acc4 == (MetaAcc {
            name: Some(m.name),
            id: Some(m.id),
            version: Some(m.version),
            author: Some(m.author),
            colors: None,
        }),
    ensures
        spec_expect(d, 0, 0x7b) == Some(1int),
        spec_parse_meta_members(d, 1, meta_acc_empty()) == spec_parse_meta_members(
            d,
            q9 + 1,
            acc3,
        ),
        spec_parse_meta_step(d, q11, key_author(), acc3) == Some((acc4, q12)),
        spec_parse_string(d, q9 + 1) == Some((key_author(), q11 - 1)),
        spec_expect(d, q11 - 1, 0x3a) == Some(q11),
{
    lemma_meta_tokens(d, m, q2, q3, q5, q6, q8, q9, q11, q12);
    encode_utf8_valid_utf8(m.name);
    encode_utf8_valid_utf8(m.id);
    encode_utf8_valid_utf8(m.version);
    encode_utf8_valid_utf8(m.author);
    encode_utf8_decode_utf8(m.name);
    encode_utf8_decode_utf8(m.id);
    encode_utf8_decode_utf8(m.version);
    encode_utf8_decode_utf8(m.author);
    let acc0 = meta_acc_empty();
    let acc1 = MetaAcc { name: Some(m.name), id: None, version: None, author: None, colors: None };
    let acc2 = MetaAcc {
        name: Some(m.name),
        id: Some(m.id),
        version: None,
        author: None,
        colors: None,
    };
    assert(spec_parse_meta_step(d, q2, key_name(), acc0) == Some((acc1, q3)));
    assert(spec_parse_meta_members(d, 1, acc0) == spec_parse_meta_members(d, q3 + 1, acc1));
    assert(spec_parse_meta_step(d, q5, key_id(), acc1) == Some((acc2, q6)));
    assert(spec_parse_meta_members(d, q3 + 1, acc1) == spec_parse_meta_members(d, q6 + 1, acc2));
    assert(spec_parse_meta_step(d, q8, key_version(), acc2) == Some((acc3, q9)));
    assert(spec_parse_meta_members(d, q6 + 1, acc2) == spec_parse_meta_members(d, q9 + 1, acc3));
    assert(spec_parse_meta_step(d, q11, key_author(), acc3) == Some((acc4, q12)));
}

/// Given a window holding a member-name token, parses the quoted name
/// and finds the colon.
pub(crate) proof fn lemma_key_tok_walk(d: Seq<u8>, i: int, k: Seq<u8>)
    requires
        0 <= i,
        i + key_tok(k).len() <= d.len(),
        d.subrange(i, i + key_tok(k).len()) == key_tok(k),
        forall|m: int| 0 <= m < k.len() ==> k[m] != 0x22 && #[trigger] k[m] != 0x5C,
    ensures
        spec_parse_string(d, i) == Some((k, i + k.len() + 2)),
        spec_expect(d, i + k.len() + 2, 0x3a) == Some(i + key_tok(k).len()),
{
    crate::doc_lex::lemma_escape_clean(k);
    assert(key_tok(k) =~= (seq![0x22u8] + k + seq![0x22u8]) + seq![0x3au8]);
    assert(d.subrange(i, i + key_tok(k).len()) == (seq![0x22u8] + k + seq![0x22u8])
        + seq![0x3au8]);
    lemma_subrange_split(d, i, seq![0x22u8] + k + seq![0x22u8], seq![0x3au8]);
    lemma_parse_string_clean_at(d, i, k);
    assert(d[i + k.len() + 2] == d.subrange(i + k.len() + 2, i + key_tok(k).len())[0]);
    lemma_expect_at(d, i + k.len() + 2, 0x3a);
}

/// Windows of the color-override member inside an emitted metadata
/// document.
#[verifier::rlimit(100)]
proof fn lemma_meta_cc_windows(d: Seq<u8>, m: MetaV, c: ColorsV, q12: int)
    requires
        m.custom_color_overrides == Some(c),
        d == spec_emit_meta(m),
        q12 == 1 + key_tok(key_name()).len() + spec_emit_string(m.name).len() + 1 + key_tok(
            key_id(),
        ).len() + spec_emit_string(m.id).len() + 1 + key_tok(key_version()).len()
            + spec_emit_string(m.version).len() + 1 + key_tok(key_author()).len()
            + spec_emit_string(m.author).len(),
    ensures
        d.len() == q12 + 1 + key_tok(key_colors()).len() + spec_emit_colors(c).len() + 1,
        d.subrange(q12, q12 + 1) == seq![0x2cu8],
        d.subrange(q12 + 1, q12 + 1 + key_tok(key_colors()).len()) == key_tok(key_colors()),
        d.subrange(
            q12 + 1 + key_tok(key_colors()).len(),
            q12 + 1 + key_tok(key_colors()).len() + spec_emit_colors(c).len(),
        ) == spec_emit_colors(c),
        d.subrange(d.len() - 1, d.len() as int) == seq![0x7du8],
{
    let t_c = key_tok(key_colors());
    let cc = seq![0x2cu8] + t_c + spec_emit_colors(c);
    let p12 = seq![0x7bu8] + key_tok(key_name()) + spec_emit_string(m.name) + seq![0x2cu8]
        + key_tok(key_id()) + spec_emit_string(m.id) + seq![0x2cu8] + key_tok(key_version())
        + spec_emit_string(m.version) + seq![0x2cu8] + key_tok(key_author()) + spec_emit_string(
        m.author,
    );
    let p13 = p12 + cc;
    let p14 = p13 + seq![0x7du8];
    assert(d == p14);
    assert(p12.len() == q12);
    assert(d.subrange(0, d.len() as int) =~= d);
    lemma_subrange_split(d, 0, p13, seq![0x7du8]);
    lemma_subrange_split(d, 0, p12, cc);
    assert(cc =~= (seq![0x2cu8] + t_c) + spec_emit_colors(c));
    assert(d.subrange(q12, q12 + cc.len()) == (seq![0x2cu8] + t_c) + spec_emit_colors(c));
    lemma_subrange_split(d, q12, seq![0x2cu8] + t_c, spec_emit_colors(c));
    lemma_subrange_split(d, q12, seq![0x2cu8], t_c);
}

/// The color-override member, given its windows, parses back and closes
/// the document.
#[verifier::rlimit(100)]
proof fn lemma_meta_colors_member(
    d: Seq<u8>,
    m: MetaV,
    c: ColorsV,
    q12: int,
    acc4: MetaAcc,
)
    requires
        colors_wf(c),
        0 <= q12,
        d.len() == q12 + 1 + key_tok(key_colors()).len() + spec_emit_colors(c).len() + 1,
        d.subrange(q12, q12 + 1) == seq![0x2cu8],
        d.subrange(q12 + 1, q12 + 1 + key_tok(key_colors()).len()) == key_tok(key_colors()),
        d.subrange(
            q12 + 1 + key_tok(key_colors()).len(),
            q12 + 1 + key_tok(key_colors()).len() + spec_emit_colors(c).len(),
        ) == spec_emit_colors(c),
        d.subrange(d.len() - 1, d.len() as int) == seq![0x7du8],
        acc4 == (MetaAcc {
            name: Some(m.name),
            id: Some(m.id),
            version: Some(m.version),
            author: Some(m.author),
            colors: None,
        }),
    ensures
        spec_parse_meta_members(d, q12 + 1, acc4) == Some(
            (
                MetaAcc {
                    name: Some(m.name),
                    id: Some(m.id),
                    version: Some(m.version),
                    author: Some(m.author),
                    colors: Some(Some(c)),
                },
                d.len() as int,
            ),
        ),
        spec_expect(d, q12, 0x2c) == Some(q12 + 1),
        spec_skip_ws(d, d.len() as int) == d.len(),
{
    let t_c = key_tok(key_colors());
    let q13: int = q12 + 1;
    let q14: int = q13 + t_c.len();
    let q15: int = q14 + spec_emit_colors(c).len();
    assert(d.len() == q15 + 1);
    assert(d[q12] == d.subrange(q12, q13)[0]);
    lemma_expect_at(d, q12, 0x2c);
    assert forall|mm: int| 0 <= mm < key_colors().len() implies key_colors()[mm] != 0x22
        && #[trigger] key_colors()[mm] != 0x5C by {}
    lemma_key_tok_walk(d, q13, key_colors());
    lemma_colors_roundtrip(d, q14, c);
    // the colors value is an object, not the null literal
    assert(d[q14] == d.subrange(q14, q15)[0]);
    assert(d[q14] == 0x7b);
    assert(spec_skip_ws(d, q14) == q14);
    if q14 + 4 <= d.len() && d.subrange(q14, q14 + 4) == lit_null() {
        assert(d.subrange(q14, q14 + 4)[0] == 0x6e);
        assert(d.subrange(q14, q14 + 4)[0] == d[q14]);
        assert(false);
    }
    assert(spec_parse_null(d, q14) is None);
    let acc5 = MetaAcc {
        name: Some(m.name),
        id: Some(m.id),
        version: Some(m.version),
        author: Some(m.author),
        colors: Some(Some(c)),
    };
    assert(spec_parse_meta_step(d, q14, key_colors(), acc4) == Some((acc5, q15)));
    assert(d[q15] == d.subrange(q15, q15 + 1)[0]);
    assert(spec_skip_ws(d, q15) == q15);
    assert(spec_expect(d, q15, 0x2c) is None);
    lemma_expect_at(d, q15, 0x7d);
    assert(spec_parse_meta_members(d, q13, acc4) == Some((acc5, q15 + 1)));
    assert(spec_skip_ws(d, q15 + 1) == d.len());
}

/// Parsing a written metadata document restores the value.
#[verifier::rlimit(100)]
pub proof fn lemma_meta_roundtrip(m: MetaV)
    requires
        meta_wf(m),
    ensures
        spec_parse_meta_doc(spec_emit_meta(m)) == Some(m),
{
    let d = spec_emit_meta(m);
    let q2: int = 1int + key_tok(key_name()).len();
    let q3: int = q2 + spec_emit_string(m.name).len();
    let q5: int = q3 + 1 + key_tok(key_id()).len();
    let q6: int = q5 + spec_emit_string(m.id).len();
    let q8: int = q6 + 1 + key_tok(key_version()).len();
    let q9: int = q8 + spec_emit_string(m.version).len();
    let q11: int = q9 + 1 + key_tok(key_author()).len();
    let q12: int = q11 + spec_emit_string(m.author).len();
    let acc3 = MetaAcc {
        name: Some(m.name),
        id: Some(m.id),
        version: Some(m.version),
        author: None,
        colors: None,
    };
    let acc4 = MetaAcc {
        name: Some(m.name),
        id: Some(m.id),
        version: Some(m.version),
        author: Some(m.author),
        colors: None,
    };
    lemma_meta_prefix_walk(d, m, q2, q3, q5, q6, q8, q9, q11, q12, acc3, acc4);
    match m.custom_color_overrides {
        None => {
            let cc = Seq::<u8>::empty();
            let p12 = seq![0x7bu8] + key_tok(key_name()) + spec_emit_string(m.name) + seq![0x2cu8]
                + key_tok(key_id()) + spec_emit_string(m.id) + seq![0x2cu8] + key_tok(key_version())
                + spec_emit_string(m.version) + seq![0x2cu8] + key_tok(key_author())
                + spec_emit_string(m.author);
            let p13 = p12 + cc;
            let p14 = p13 + seq![0x7du8];
            assert(d == p14);
            assert(p12.len() == q12);
            assert(d.subrange(0, d.len() as int) =~= d);
            lemma_subrange_split(d, 0, p13, seq![0x7du8]);
            assert(p13.len() == q12);
            assert(d.len() == q12 + 1);
            assert(d[q12] == d.subrange(q12, q12 + 1)[0]);
            assert(spec_skip_ws(d, q12) == q12);
            assert(spec_expect(d, q12, 0x2c) is None);
            lemma_expect_at(d, q12, 0x7d);
            assert(spec_parse_meta_members(d, q9 + 1, acc3) == Some((acc4, q12 + 1)));
            assert(spec_skip_ws(d, q12 + 1) == d.len());
            assert(spec_parse_meta_doc(d) == Some(m));
        },
        Some(c) => {
            lemma_meta_cc_windows(d, m, c, q12);
            lemma_meta_colors_member(d, m, c, q12, acc4);
            let acc5 = MetaAcc {
                name: Some(m.name),
                id: Some(m.id),
                version: Some(m.version),
                author: Some(m.author),
                colors: Some(Some(c)),
            };
            assert(spec_parse_meta_members(d, q9 + 1, acc3) == Some((acc5, d.len() as int)));
            assert(spec_parse_meta_doc(d) == Some(m));
        },
    }
}

} // verus!
