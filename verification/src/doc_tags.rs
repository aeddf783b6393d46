//! The tag-index document codec.
//!
//! The document is a JSON object with two required members, `tags` and
//! `sets`, each an object mapping a name to an array of strings.  Member
//! order and whitespace are free; a duplicate object key or a missing
//! member is a schema failure; a repeated string inside an array is
//! dropped, as the index treats the array as a set.  Writing emits both
//! maps in their stored order without whitespace.

use vstd::prelude::*;
use vstd::utf8::{decode_utf8, encode_utf8_decode_utf8, encode_utf8_valid_utf8, valid_utf8};
use crate::containers::{NameList, TagMap, has_key};
use crate::doc_lex::{expect_byte, lemma_expect_at, lemma_parse_string_at, lemma_subrange_split,
    parse_string_tok, push_string_tok, skip_ws, spec_emit_string, spec_expect, spec_parse_string,
    spec_skip_ws};
use crate::doc_meta::key_tok;
use crate::path_utils::bytes_eq;
use crate::tags::{Tags, TagsV};
use crate::utils::string_from_utf8;

verus! {

pub open spec fn key_tags() -> Seq<u8> {
    seq![0x74u8, 0x61u8, 0x67u8, 0x73u8]
}

pub open spec fn key_sets() -> Seq<u8> {
    seq![0x73u8, 0x65u8, 0x74u8, 0x73u8]
}

fn key_tags_arr() -> (r: [u8; 4])
    ensures
        r@ == key_tags(),
{
    let r: [u8; 4] = [0x74, 0x61, 0x67, 0x73];
    proof {
        assert(r@ =~= key_tags());
    }
    r
}

fn key_sets_arr() -> (r: [u8; 4])
    ensures
        r@ == key_sets(),
{
    let r: [u8; 4] = [0x73, 0x65, 0x74, 0x73];
    proof {
        assert(r@ =~= key_sets());
    }
    r
}

// ---------------------------------------------------------------------
// Emission
// ---------------------------------------------------------------------

/// Comma-separated string tokens for the given names.
pub open spec fn spec_emit_names(items: Seq<Seq<char>>) -> Seq<u8>
    decreases items.len(),
{
    if items.len() == 0 {
        Seq::empty()
    } else if items.len() == 1 {
        spec_emit_string(items[0])
    } else {
        spec_emit_string(items[0]) + seq![0x2cu8] + spec_emit_names(items.drop_first())
    }
}

/// A JSON array of the given names.
pub open spec fn spec_emit_array(items: Seq<Seq<char>>) -> Seq<u8> {
    seq![0x5bu8] + spec_emit_names(items) + seq![0x5du8]
}

/// Comma-separated `"name": [...]` members for the given entries.
pub open spec fn spec_emit_entries(entries: Seq<(Seq<char>, Seq<Seq<char>>)>) -> Seq<u8>
    decreases entries.len(),
{
    if entries.len() == 0 {
        Seq::empty()
    } else if entries.len() == 1 {
        spec_emit_string(entries[0].0) + seq![0x3au8] + spec_emit_array(entries[0].1)
    } else {
        spec_emit_string(entries[0].0) + seq![0x3au8] + spec_emit_array(entries[0].1)
            + seq![0x2cu8] + spec_emit_entries(entries.drop_first())
    }
}

/// A JSON object holding the given entries.
pub open spec fn spec_emit_name_map(entries: Seq<(Seq<char>, Seq<Seq<char>>)>) -> Seq<u8> {
    seq![0x7bu8] + spec_emit_entries(entries) + seq![0x7du8]
}

/// Canonical bytes of a tag-index document.
pub open spec fn spec_emit_tags(t: TagsV) -> Seq<u8> {
    seq![0x7bu8] + key_tok(key_tags()) + spec_emit_name_map(t.tags) + seq![0x2cu8] + key_tok(
        key_sets(),
    ) + spec_emit_name_map(t.sets) + seq![0x7du8]
}

// ---------------------------------------------------------------------
// Parsing
// ---------------------------------------------------------------------

/// Array elements from `i` (after at least one is known to follow) up to
/// the closing bracket; repeated names are dropped.
pub open spec fn spec_parse_name_items(d: Seq<u8>, i: int, acc: Seq<Seq<char>>) -> Option<
    (Seq<Seq<char>>, int),
>
    decreases d.len() - i,
{
    match spec_parse_string(d, i) {
        Some(p) => if !valid_utf8(p.0) {
            None
        } else {
            let v = decode_utf8(p.0);
            let acc2 = if acc.contains(v) {
                acc
            } else {
                acc.push(v)
            };
            match spec_expect(d, p.1, 0x2c) {
                Some(i4) => if i < i4 <= d.len() {
                    spec_parse_name_items(d, i4, acc2)
                } else {
                    None
                },
                None => match spec_expect(d, p.1, 0x5d) {
                    Some(i5) => Some((acc2, i5)),
                    None => None,
                },
            }
        },
        None => None,
    }
}

/// A JSON array of names at `i`.
pub open spec fn spec_parse_array(d: Seq<u8>, i: int) -> Option<(Seq<Seq<char>>, int)> {
    match spec_expect(d, i, 0x5b) {
        Some(i1) => match spec_expect(d, i1, 0x5d) {
            Some(i2) => Some((Seq::empty(), i2)),
            None => spec_parse_name_items(d, i1, Seq::empty()),
        },
        None => None,
    }
}

/// Object members from `i` up to the closing brace: names mapped to
/// arrays, rejecting duplicate names.
pub open spec fn spec_parse_map_entries(
    d: Seq<u8>,
    i: int,
    acc: Seq<(Seq<char>, Seq<Seq<char>>)>,
) -> Option<(Seq<(Seq<char>, Seq<Seq<char>>)>, int)>
    decreases d.len() - i,
{
    match spec_parse_string(d, i) {
        Some(kp) => if !valid_utf8(kp.0) {
            None
        } else {
            let k = decode_utf8(kp.0);
            if has_key(acc, k) {
                None
            } else {
                match spec_expect(d, kp.1, 0x3a) {
                    Some(i2) => match spec_parse_array(d, i2) {
                        Some(ap) => {
                            let acc2 = acc.push((k, ap.0));
                            match spec_expect(d, ap.1, 0x2c) {
                                Some(i4) => if i < i4 <= d.len() {
                                    spec_parse_map_entries(d, i4, acc2)
                                } else {
                                    None
                                },
                                None => match spec_expect(d, ap.1, 0x7d) {
                                    Some(i5) => Some((acc2, i5)),
                                    None => None,
                                },
                            }
                        },
                        None => None,
                    },
                    None => None,
                }
            }
        },
        None => None,
    }
}

/// A JSON object mapping names to arrays, at `i`.
pub open spec fn spec_parse_name_map(d: Seq<u8>, i: int) -> Option<
    (Seq<(Seq<char>, Seq<Seq<char>>)>, int),
> {
    match spec_expect(d, i, 0x7b) {
        Some(i1) => match spec_expect(d, i1, 0x7d) {
            Some(i2) => Some((Seq::empty(), i2)),
            None => spec_parse_map_entries(d, i1, Seq::empty()),
        },
        None => None,
    }
}

/// Fields gathered so far while reading the tag-index document.
pub struct TagsAcc {
    pub tags: Option<Seq<(Seq<char>, Seq<Seq<char>>)>>,
    pub sets: Option<Seq<(Seq<char>, Seq<Seq<char>>)>>,
}

pub open spec fn tags_acc_empty() -> TagsAcc {
    TagsAcc { tags: None, sets: None }
}

/// One document member's value, dispatched on the member name.
pub open spec fn spec_parse_tags_step(d: Seq<u8>, i: int, key: Seq<u8>, acc: TagsAcc) -> Option<
    (TagsAcc, int),
> {
    if key == key_tags() {
        if acc.tags is Some {
            None
        } else {
            match spec_parse_name_map(d, i) {
                Some(p) => Some((TagsAcc { tags: Some(p.0), sets: acc.sets }, p.1)),
                None => None,
            }
        }
    } else if key == key_sets() {
        if acc.sets is Some {
            None
        } else {
            match spec_parse_name_map(d, i) {
                Some(p) => Some((TagsAcc { tags: acc.tags, sets: Some(p.0) }, p.1)),
                None => None,
            }
        }
    } else {
        None
    }
}

/// The members of the tag-index document from `i` up to its closing
/// brace.
pub open spec fn spec_parse_tags_members(d: Seq<u8>, i: int, acc: TagsAcc) -> Option<
    (TagsAcc, int),
>
    decreases d.len() - i,
{
    match spec_parse_string(d, i) {
        Some(kp) => match spec_expect(d, kp.1, 0x3a) {
            Some(i2) => match spec_parse_tags_step(d, i2, kp.0, acc) {
                Some(sp) => match spec_expect(d, sp.1, 0x2c) {
                    Some(i4) => if i < i4 <= d.len() {
                        spec_parse_tags_members(d, i4, sp.0)
                    } else {
                        None
                    },
                    None => match spec_expect(d, sp.1, 0x7d) {
                        Some(i5) => Some((sp.0, i5)),
                        None => None,
                    },
                },
                None => None,
            },
            None => None,
        },
        None => None,
    }
}

/// The whole tag-index document: an object with both members present and
/// nothing but whitespace after it.
pub open spec fn spec_parse_tags_doc(d: Seq<u8>) -> Option<TagsV> {
    match spec_expect(d, 0, 0x7b) {
        Some(i1) => match spec_parse_tags_members(d, i1, tags_acc_empty()) {
            Some(p) => if spec_skip_ws(d, p.1) == d.len() && p.0.tags is Some && p.0.sets
                is Some {
                Some(TagsV { tags: p.0.tags.unwrap(), sets: p.0.sets.unwrap() })
            } else {
                None
            },
            None => None,
        },
        None => None,
    }
}

// ---------------------------------------------------------------------
// Executable emitter
// ---------------------------------------------------------------------

/// Unfolds one more name into the comma-separated list.
proof fn lemma_emit_names_snoc(s: Seq<Seq<char>>, i: int)
    requires
        0 <= i < s.len(),
    ensures
        spec_emit_names(s.take(i + 1)) == if i == 0 {
            spec_emit_string(s[0])
        } else {
            spec_emit_names(s.take(i)) + seq![0x2cu8] + spec_emit_string(s[i])
        },
    decreases i,
{
    if i == 0 {
        assert(s.take(1) =~= seq![s[0]]);
        assert(spec_emit_names(s.take(1)) == spec_emit_string(s[0]));
    } else {
        lemma_emit_names_snoc(s.drop_first(), i - 1);
        assert(s.take(i + 1).drop_first() =~= s.drop_first().take(i));
        assert(s.take(i).drop_first() =~= s.drop_first().take(i - 1));
        assert(s.take(i + 1)[0] == s[0]);
        assert(s.take(i)[0] == s[0]);
        assert(s.drop_first()[i - 1] == s[i]);
        if i == 1 {
            assert(spec_emit_names(s.take(2)) =~= spec_emit_names(s.take(1)) + seq![0x2cu8]
                + spec_emit_string(s[1]));
        } else {
            assert(spec_emit_names(s.take(i + 1)) =~= spec_emit_names(s.take(i)) + seq![0x2cu8]
                + spec_emit_string(s[i]));
        }
    }
}

/// Unfolds one more entry into the comma-separated member list.
proof fn lemma_emit_entries_snoc(s: Seq<(Seq<char>, Seq<Seq<char>>)>, i: int)
    requires
        0 <= i < s.len(),
    ensures
        spec_emit_entries(s.take(i + 1)) == if i == 0 {
            spec_emit_string(s[0].0) + seq![0x3au8] + spec_emit_array(s[0].1)
        } else {
            spec_emit_entries(s.take(i)) + seq![0x2cu8] + spec_emit_string(s[i].0) + seq![0x3au8]
                + spec_emit_array(s[i].1)
        },
    decreases i,
{
    if i == 0 {
        assert(s.take(1) =~= seq![s[0]]);
        assert(spec_emit_entries(s.take(1)) == spec_emit_string(s[0].0) + seq![0x3au8]
            + spec_emit_array(s[0].1));
    } else {
        lemma_emit_entries_snoc(s.drop_first(), i - 1);
        assert(s.take(i + 1).drop_first() =~= s.drop_first().take(i));
        assert(s.take(i).drop_first() =~= s.drop_first().take(i - 1));
        assert(s.take(i + 1)[0] == s[0]);
        assert(s.take(i)[0] == s[0]);
        assert(s.drop_first()[i - 1] == s[i]);
        if i == 1 {
            assert(spec_emit_entries(s.take(2)) =~= spec_emit_entries(s.take(1)) + seq![0x2cu8]
                + spec_emit_string(s[1].0) + seq![0x3au8] + spec_emit_array(s[1].1));
        } else {
            assert(spec_emit_entries(s.take(i + 1)) =~= spec_emit_entries(s.take(i))
                + seq![0x2cu8] + spec_emit_string(s[i].0) + seq![0x3au8] + spec_emit_array(
                s[i].1,
            ));
        }
    }
}

/// Appends a JSON array holding the names of `l` to `out`.
fn emit_name_list(l: &NameList, out: &mut Vec<u8>)
    ensures
        final(out)@ == old(out)@ + spec_emit_array(l@),
{
    out.push(0x5b);
    let n = l.len();
    let mut i: usize = 0;
    proof {
        assert(l@.take(0) =~= Seq::<Seq<char>>::empty());
        assert(out@ =~= old(out)@ + seq![0x5bu8] + spec_emit_names(l@.take(0)));
    }
    while i < n
        invariant
            i <= n,
            n == l@.len(),
            out@ == old(out)@ + seq![0x5bu8] + spec_emit_names(l@.take(i as int)),
        decreases n - i,
    {
        let ghost pre = out@;
        if i > 0 {
            out.push(0x2c);
        }
        push_string_tok(out, l.get_at(i).as_str());
        proof {
            lemma_emit_names_snoc(l@, i as int);
            if i == 0 {
                assert(out@ =~= pre + spec_emit_string(l@[i as int]));
            } else {
                assert(out@ =~= pre + seq![0x2cu8] + spec_emit_string(l@[i as int]));
            }
            assert(out@ =~= old(out)@ + seq![0x5bu8] + spec_emit_names(l@.take(i + 1)));
        }
        i = i + 1;
    }
    out.push(0x5d);
    proof {
        assert(l@.take(n as int) =~= l@);
        assert(out@ =~= old(out)@ + spec_emit_array(l@));
    }
}

/// Appends a JSON object holding the entries of `m` to `out`.
fn emit_name_map(m: &TagMap, out: &mut Vec<u8>)
    ensures
        final(out)@ == old(out)@ + spec_emit_name_map(m@),
{
    out.push(0x7b);
    let n = m.len();
    let mut i: usize = 0;
    proof {
        assert(m@.take(0) =~= Seq::<(Seq<char>, Seq<Seq<char>>)>::empty());
        assert(out@ =~= old(out)@ + seq![0x7bu8] + spec_emit_entries(m@.take(0)));
    }
    while i < n
        invariant
            i <= n,
            n == m@.len(),
            out@ == old(out)@ + seq![0x7bu8] + spec_emit_entries(m@.take(i as int)),
        decreases n - i,
    {
        let ghost pre = out@;
        if i > 0 {
            out.push(0x2c);
        }
        push_string_tok(out, m.key_at(i).as_str());
        out.push(0x3a);
        emit_name_list(m.list_at(i), out);
        proof {
            lemma_emit_entries_snoc(m@, i as int);
            if i == 0 {
                assert(out@ =~= pre + spec_emit_string(m@[i as int].0) + seq![0x3au8]
                    + spec_emit_array(m@[i as int].1));
            } else {
                assert(out@ =~= pre + seq![0x2cu8] + spec_emit_string(m@[i as int].0)
                    + seq![0x3au8] + spec_emit_array(m@[i as int].1));
            }
            assert(out@ =~= old(out)@ + seq![0x7bu8] + spec_emit_entries(m@.take(i + 1)));
        }
        i = i + 1;
    }
    out.push(0x7d);
    proof {
        assert(m@.take(n as int) =~= m@);
        assert(out@ =~= old(out)@ + spec_emit_name_map(m@));
    }
}

/// Appends the canonical tag-index document for `t` to `out`.
pub fn emit_tags_doc(t: &Tags, out: &mut Vec<u8>)
    ensures
        final(out)@ == old(out)@ + spec_emit_tags(t@),
{
    out.push(0x7b);
    let kt = key_tags_arr();
    crate::doc_meta::push_key(out, kt.as_slice());
    emit_name_map(&t.tags, out);
    out.push(0x2c);
    let ks = key_sets_arr();
    crate::doc_meta::push_key(out, ks.as_slice());
    emit_name_map(&t.sets, out);
    out.push(0x7d);
    proof {
        assert(final(out)@ =~= old(out)@ + spec_emit_tags(t@));
    }
}

// ---------------------------------------------------------------------
// Executable parser
// ---------------------------------------------------------------------

/// Decodes a JSON array of names at `i` into a `NameList`.
fn parse_name_list(d: &Vec<u8>, i: usize) -> (r: Option<(NameList, usize)>)
    requires
        i <= d@.len(),
    ensures
        ({
            let sp = spec_parse_array(d@, i as int);
            match r {
                Some(p) => (sp matches Some(spv) && p.0@ == spv.0 && p.1 == spv.1 && p.0.wf() && i
                    < p.1 <= d@.len()),
                None => sp is None,
            }
        }),
{
    let i1 = match expect_byte(d, i, 0x5b) {
        Some(x) => x,
        None => {
            return None;
        },
    };
    match expect_byte(d, i1, 0x5d) {
        Some(i2) => {
            let r = NameList::new();
            proof {
                assert(r@ =~= Seq::<Seq<char>>::empty());
            }
            return Some((r, i2));
        },
        None => {},
    }
    let mut acc = NameList::new();
    let mut pos = i1;
    proof {
        assert(acc@ =~= Seq::<Seq<char>>::empty());
    }
    loop
        invariant
            i < i1 <= d@.len(),
            i < pos <= d@.len(),
            acc.wf(),
            spec_expect(d@, i as int, 0x5b) == Some(i1 as int),
            spec_expect(d@, i1 as int, 0x5d) is None,
            spec_parse_name_items(d@, i1 as int, Seq::empty()) == spec_parse_name_items(
                d@,
                pos as int,
                acc@,
            ),
        decreases d@.len() - pos,
    {
        let ghost acc_pre = acc@;
        let (b, p1) = match parse_string_tok(d, pos) {
            Some(x) => x,
            None => {
                return None;
            },
        };
        let s = match string_from_utf8(b) {
            Some(x) => x,
            None => {
                return None;
            },
        };
        acc.insert(s);
        match expect_byte(d, p1, 0x2c) {
            Some(i4) => {
                proof {
                    assert(spec_parse_name_items(d@, pos as int, acc_pre)
                        == spec_parse_name_items(d@, i4 as int, acc@));
                }
                pos = i4;
            },
            None => {
                match expect_byte(d, p1, 0x5d) {
                    Some(i5) => {
                        proof {
                            assert(spec_parse_name_items(d@, pos as int, acc_pre) == Some(
                                (acc@, i5 as int),
                            ));
                        }
                        return Some((acc, i5));
                    },
                    None => {
                        return None;
                    },
                }
            },
        }
    }
}

/// Decodes a JSON object of name/array members at `i` into a `TagMap`.
fn parse_name_map(d: &Vec<u8>, i: usize) -> (r: Option<(TagMap, usize)>)
    requires
        i <= d@.len(),
    ensures
        ({
            let sp = spec_parse_name_map(d@, i as int);
            match r {
                Some(p) => (sp matches Some(spv) && p.0@ == spv.0 && p.1 == spv.1 && p.0.wf() && i
                    < p.1 <= d@.len()),
                None => sp is None,
            }
        }),
{
    let i1 = match expect_byte(d, i, 0x7b) {
        Some(x) => x,
        None => {
            return None;
        },
    };
    match expect_byte(d, i1, 0x7d) {
        Some(i2) => {
            let r = TagMap::new();
            proof {
                assert(r@ =~= Seq::<(Seq<char>, Seq<Seq<char>>)>::empty());
            }
            return Some((r, i2));
        },
        None => {},
    }
    let mut acc = TagMap::new();
    let mut pos = i1;
    proof {
        assert(acc@ =~= Seq::<(Seq<char>, Seq<Seq<char>>)>::empty());
    }
    loop
        invariant
            i < i1 <= d@.len(),
            i < pos <= d@.len(),
            acc.wf(),
            spec_expect(d@, i as int, 0x7b) == Some(i1 as int),
            spec_expect(d@, i1 as int, 0x7d) is None,
            spec_parse_map_entries(d@, i1 as int, Seq::empty()) == spec_parse_map_entries(
                d@,
                pos as int,
                acc@,
            ),
        decreases d@.len() - pos,
    {
        let ghost acc_pre = acc@;
        let (kb, p1) = match parse_string_tok(d, pos) {
            Some(x) => x,
            None => {
                return None;
            },
        };
        let k = match string_from_utf8(kb) {
            Some(x) => x,
            None => {
                return None;
            },
        };
        if acc.contains_key(k.as_str()) {
            return None;
        }
        let i2 = match expect_byte(d, p1, 0x3a) {
            Some(x) => x,
            None => {
                return None;
            },
        };
        let (items, i3) = match parse_name_list(d, i2) {
            Some(x) => x,
            None => {
                return None;
            },
        };
        acc.insert(k, items);
        match expect_byte(d, i3, 0x2c) {
            Some(i4) => {
                proof {
                    assert(spec_parse_map_entries(d@, pos as int, acc_pre)
                        == spec_parse_map_entries(d@, i4 as int, acc@));
                }
                pos = i4;
            },
            None => {
                match expect_byte(d, i3, 0x7d) {
                    Some(i5) => {
                        proof {
                            assert(spec_parse_map_entries(d@, pos as int, acc_pre) == Some(
                                (acc@, i5 as int),
                            ));
                        }
                        return Some((acc, i5));
                    },
                    None => {
                        return None;
                    },
                }
            },
        }
    }
}

pub open spec fn view_opt_entries(o: Option<TagMap>) -> Option<Seq<(Seq<char>, Seq<Seq<char>>)>> {
    match o {
        Some(m) => Some(m@),
        None => None,
    }
}

/// Decodes a whole tag-index document.
pub fn parse_tags_doc(d: &Vec<u8>) -> (r: Option<Tags>)
    ensures
        ({
            let sp = spec_parse_tags_doc(d@);
            match r {
                Some(t) => sp == Some(t@) && t.wf(),
                None => sp is None,
            }
        }),
{
    let i1 = match expect_byte(d, 0, 0x7b) {
        Some(x) => x,
        None => {
            return None;
        },
    };
    let mut pos = i1;
    let mut tags_o: Option<TagMap> = None;
    let mut sets_o: Option<TagMap> = None;
    loop
        invariant
            pos <= d@.len(),
            i1 <= d@.len(),
            spec_expect(d@, 0, 0x7b) == Some(i1 as int),
            spec_parse_tags_members(d@, i1 as int, tags_acc_empty()) == spec_parse_tags_members(
                d@,
                pos as int,
                TagsAcc { tags: view_opt_entries(tags_o), sets: view_opt_entries(sets_o) },
            ),
            (tags_o matches Some(m) ==> m.wf()),
            (sets_o matches Some(m) ==> m.wf()),
        decreases d@.len() - pos,
    {
        let ghost acc_pre = TagsAcc {
            tags: view_opt_entries(tags_o),
            sets: view_opt_entries(sets_o),
        };
        let (key, kpos) = match parse_string_tok(d, pos) {
            Some(x) => x,
            None => {
                return None;
            },
        };
        let i2 = match expect_byte(d, kpos, 0x3a) {
            Some(x) => x,
            None => {
                return None;
            },
        };
        let kt = key_tags_arr();
        let ks = key_sets_arr();
        let i3: usize = if bytes_eq(key.as_slice(), kt.as_slice()) {
            if tags_o.is_some() {
                return None;
            }
            let (m, p) = match parse_name_map(d, i2) {
                Some(x) => x,
                None => {
                    return None;
                },
            };
            tags_o = Some(m);
            p
        } else if bytes_eq(key.as_slice(), ks.as_slice()) {
            if sets_o.is_some() {
                return None;
            }
            let (m, p) = match parse_name_map(d, i2) {
                Some(x) => x,
                None => {
                    return None;
                },
            };
            sets_o = Some(m);
            p
        } else {
            return None;
        };
        let ghost acc_now = TagsAcc {
            tags: view_opt_entries(tags_o),
            sets: view_opt_entries(sets_o),
        };
        proof {
            assert(spec_parse_tags_step(d@, i2 as int, key@, acc_pre) == Some((acc_now, i3 as int)));
        }
        match expect_byte(d, i3, 0x2c) {
            Some(i4) => {
                proof {
                    assert(spec_parse_tags_members(d@, pos as int, acc_pre)
                        == spec_parse_tags_members(d@, i4 as int, acc_now));
                }
                pos = i4;
            },
            None => {
                match expect_byte(d, i3, 0x7d) {
                    Some(i5) => {
                        proof {
                            assert(spec_parse_tags_members(d@, pos as int, acc_pre) == Some(
                                (acc_now, i5 as int),
                            ));
                        }
                        let e = skip_ws(d, i5);
                        if e != d.len() {
                            return None;
                        }
                        let tags = match tags_o {
                            Some(x) => x,
                            None => {
                                return None;
                            },
                        };
                        let sets = match sets_o {
                            Some(x) => x,
                            None => {
                                return None;
                            },
                        };
                        return Some(Tags { tags, sets });
                    },
                    None => {
                        return None;
                    },
                }
            },
        }
    }
}

// ---------------------------------------------------------------------
// Round trip
// ---------------------------------------------------------------------

/// Parsing emitted array elements (already distinct) appends them to the
/// accumulator.
#[verifier::rlimit(100)]
proof fn lemma_names_roundtrip(d: Seq<u8>, i: int, items: Seq<Seq<char>>, acc: Seq<Seq<char>>)
    requires
        items.len() >= 1,
        crate::containers::distinct_names(items),
        forall|x: Seq<char>| #[trigger] items.contains(x) ==> !acc.contains(x),
        0 <= i,
        i + spec_emit_names(items).len() + 1 <= d.len(),
        d.subrange(i, i + spec_emit_names(items).len() + 1) == spec_emit_names(items)
            + seq![0x5du8],
    ensures
        spec_parse_name_items(d, i, acc) == Some(
            (acc + items, i + spec_emit_names(items).len() + 1),
        ),
    decreases items.len(),
{
    let es = spec_emit_string(items[0]);
    encode_utf8_valid_utf8(items[0]);
    encode_utf8_decode_utf8(items[0]);
    if items.len() == 1 {
        assert(spec_emit_names(items) == es);
        lemma_subrange_split(d, i, es, seq![0x5du8]);
        lemma_parse_string_at(d, i, items[0]);
        let p1 = i + es.len();
        assert(d[p1] == d.subrange(p1, p1 + 1)[0]);
        assert(spec_skip_ws(d, p1) == p1);
        assert(spec_expect(d, p1, 0x2c) is None);
        lemma_expect_at(d, p1, 0x5d);
        assert(items.contains(items[0]));
        assert(!acc.contains(items[0]));
        assert(acc.push(items[0]) =~= acc + items);
    } else {
        let rest = items.drop_first();
        assert(spec_emit_names(items) == es + seq![0x2cu8] + spec_emit_names(rest));
        let w = spec_emit_names(items) + seq![0x5du8];
        assert(w =~= es + (seq![0x2cu8] + (spec_emit_names(rest) + seq![0x5du8])));
        assert(d.subrange(i, i + es.len() + (seq![0x2cu8] + (spec_emit_names(rest)
            + seq![0x5du8])).len()) == es + (seq![0x2cu8] + (spec_emit_names(rest)
            + seq![0x5du8])));
        lemma_subrange_split(d, i, es, seq![0x2cu8] + (spec_emit_names(rest) + seq![0x5du8]));
        let p1 = i + es.len();
        lemma_subrange_split(d, p1, seq![0x2cu8], spec_emit_names(rest) + seq![0x5du8]);
        lemma_parse_string_at(d, i, items[0]);
        assert(d[p1] == d.subrange(p1, p1 + 1)[0]);
        lemma_expect_at(d, p1, 0x2c);
        assert(items.contains(items[0]));
        assert(!acc.contains(items[0]));
        let acc2 = acc.push(items[0]);
        assert forall|x: Seq<char>| #[trigger] rest.contains(x) implies !acc2.contains(x) by {
            let j = choose|j: int| 0 <= j < rest.len() && rest[j] == x;
            assert(items[j + 1] == x);
            assert(items.contains(x));
            if acc2.contains(x) {
                let p = choose|p: int| 0 <= p < acc2.len() && acc2[p] == x;
                if p < acc.len() {
                    assert(acc.contains(x));
                } else {
                    assert(items[0] == x);
                }
            }
        }
        assert forall|p: int, q: int| 0 <= p < q < rest.len() implies rest[p] != rest[q] by {
            assert(items[p + 1] != items[q + 1]);
        }
        lemma_names_roundtrip(d, p1 + 1, rest, acc2);
        assert(acc2 + rest =~= acc + items);
        assert(spec_parse_name_items(d, i, acc) == Some(
            (acc + items, i + spec_emit_names(items).len() + 1),
        ));
    }
}

/// Parsing an emitted array restores the names.
proof fn lemma_array_roundtrip(d: Seq<u8>, i: int, items: Seq<Seq<char>>)
    requires
        crate::containers::distinct_names(items),
        0 <= i,
        i + spec_emit_array(items).len() <= d.len(),
        d.subrange(i, i + spec_emit_array(items).len()) == spec_emit_array(items),
    ensures
        spec_parse_array(d, i) == Some((items, i + spec_emit_array(items).len())),
{
    let w = spec_emit_array(items);
    assert(w =~= seq![0x5bu8] + (spec_emit_names(items) + seq![0x5du8]));
    assert(d.subrange(i, i + 1 + (spec_emit_names(items) + seq![0x5du8]).len()) == seq![0x5bu8]
        + (spec_emit_names(items) + seq![0x5du8]));
    lemma_subrange_split(d, i, seq![0x5bu8], spec_emit_names(items) + seq![0x5du8]);
    assert(d[i] == d.subrange(i, i + 1)[0]);
    lemma_expect_at(d, i, 0x5b);
    if items.len() == 0 {
        assert(spec_emit_names(items) =~= Seq::<u8>::empty());
        assert(d[i + 1] == d.subrange(i + 1, i + 1 + 1)[0]);
        assert(d[i + 1] == 0x5d);
        lemma_expect_at(d, i + 1, 0x5d);
        assert(spec_parse_array(d, i) == Some((Seq::<Seq<char>>::empty(), i + 2)));
        assert(items =~= Seq::<Seq<char>>::empty());
    } else {
        let es = spec_emit_string(items[0]);
        assert(spec_emit_names(items)[0] == es[0]);
        assert(es[0] == 0x22);
        assert(d[i + 1] == d.subrange(i + 1, i + 1 + (spec_emit_names(items)
            + seq![0x5du8]).len())[0]);
        assert(d[i + 1] == 0x22);
        assert(spec_skip_ws(d, i + 1) == i + 1);
        assert(spec_expect(d, i + 1, 0x5d) is None);
        lemma_names_roundtrip(d, i + 1, items, Seq::empty());
        assert(Seq::<Seq<char>>::empty() + items =~= items);
    }
}

/// Parsing emitted object members (with fresh keys) appends them to the
/// accumulator.
#[verifier::rlimit(100)]
proof fn lemma_entries_roundtrip(
    d: Seq<u8>,
    i: int,
    entries: Seq<(Seq<char>, Seq<Seq<char>>)>,
    acc: Seq<(Seq<char>, Seq<Seq<char>>)>,
)
    requires
        entries.len() >= 1,
        crate::containers::unique_keys(entries),
        forall|j: int|
            0 <= j < entries.len() ==> crate::containers::distinct_names(#[trigger] entries[j].1),
        forall|k: Seq<char>| #[trigger] has_key(entries, k) ==> !has_key(acc, k),
        0 <= i,
        i + spec_emit_entries(entries).len() + 1 <= d.len(),
        d.subrange(i, i + spec_emit_entries(entries).len() + 1) == spec_emit_entries(entries)
            + seq![0x7du8],
    ensures
        spec_parse_map_entries(d, i, acc) == Some(
            (acc + entries, i + spec_emit_entries(entries).len() + 1),
        ),
    decreases entries.len(),
{
    let k0 = entries[0].0;
    let v0 = entries[0].1;
    let es = spec_emit_string(k0);
    let ea = spec_emit_array(v0);
    encode_utf8_valid_utf8(k0);
    encode_utf8_decode_utf8(k0);
    assert(entries[0].1 == v0);
    assert(crate::containers::distinct_names(v0));
    assert(has_key(entries, k0)) by {
        assert(entries[0].0 == k0);
    }
    assert(!has_key(acc, k0));
    if entries.len() == 1 {
        assert(spec_emit_entries(entries) == es + seq![0x3au8] + ea);
        let w = spec_emit_entries(entries) + seq![0x7du8];
        assert(w =~= es + (seq![0x3au8] + (ea + seq![0x7du8])));
        assert(d.subrange(i, i + es.len() + (seq![0x3au8] + (ea + seq![0x7du8])).len()) == es
            + (seq![0x3au8] + (ea + seq![0x7du8])));
        lemma_subrange_split(d, i, es, seq![0x3au8] + (ea + seq![0x7du8]));
        let p1 = i + es.len();
        lemma_subrange_split(d, p1, seq![0x3au8], ea + seq![0x7du8]);
        let p2 = p1 + 1;
        lemma_subrange_split(d, p2, ea, seq![0x7du8]);
        lemma_parse_string_at(d, i, k0);
        assert(d[p1] == d.subrange(p1, p1 + 1)[0]);
        lemma_expect_at(d, p1, 0x3a);
        lemma_array_roundtrip(d, p2, v0);
        let p3 = p2 + ea.len();
        assert(d[p3] == d.subrange(p3, p3 + 1)[0]);
        assert(spec_skip_ws(d, p3) == p3);
        assert(spec_expect(d, p3, 0x2c) is None);
        lemma_expect_at(d, p3, 0x7d);
        assert(acc.push((k0, v0)) =~= acc + entries);
    } else {
        let rest = entries.drop_first();
        assert(spec_emit_entries(entries) == es + seq![0x3au8] + ea + seq![0x2cu8]
            + spec_emit_entries(rest));
        let w = spec_emit_entries(entries) + seq![0x7du8];
        assert(w =~= es + (seq![0x3au8] + (ea + (seq![0x2cu8] + (spec_emit_entries(rest)
            + seq![0x7du8])))));
        assert(d.subrange(i, i + es.len() + (seq![0x3au8] + (ea + (seq![0x2cu8]
            + (spec_emit_entries(rest) + seq![0x7du8])))).len()) == es + (seq![0x3au8] + (ea
            + (seq![0x2cu8] + (spec_emit_entries(rest) + seq![0x7du8])))));
        lemma_subrange_split(d, i, es, seq![0x3au8] + (ea + (seq![0x2cu8] + (spec_emit_entries(
            rest,
        ) + seq![0x7du8]))));
        let p1 = i + es.len();
        lemma_subrange_split(d, p1, seq![0x3au8], ea + (seq![0x2cu8] + (spec_emit_entries(rest)
            + seq![0x7du8])));
        let p2 = p1 + 1;
        lemma_subrange_split(d, p2, ea, seq![0x2cu8] + (spec_emit_entries(rest) + seq![0x7du8]));
        let p3 = p2 + ea.len();
        lemma_subrange_split(d, p3, seq![0x2cu8], spec_emit_entries(rest) + seq![0x7du8]);
        lemma_parse_string_at(d, i, k0);
        assert(d[p1] == d.subrange(p1, p1 + 1)[0]);
        lemma_expect_at(d, p1, 0x3a);
        lemma_array_roundtrip(d, p2, v0);
        assert(d[p3] == d.subrange(p3, p3 + 1)[0]);
        lemma_expect_at(d, p3, 0x2c);
        let acc2 = acc.push((k0, v0));
        assert forall|k: Seq<char>| #[trigger] has_key(rest, k) implies !has_key(acc2, k) by {
            let j = choose|j: int| 0 <= j < rest.len() && rest[j].0 == k;
            assert(entries[j + 1].0 == k);
            assert(has_key(entries, k));
            if has_key(acc2, k) {
                let p = choose|p: int| 0 <= p < acc2.len() && acc2[p].0 == k;
                if p < acc.len() {
                    assert(has_key(acc, k));
                } else {
                    assert(entries[0].0 == k);
                    assert(entries[0].0 != entries[j + 1].0);
                }
            }
        }
        assert forall|p: int, q: int| 0 <= p < q < rest.len() implies rest[p].0 != rest[q].0 by {
            assert(entries[p + 1].0 != entries[q + 1].0);
        }
        assert forall|j: int|
            0 <= j < rest.len() implies crate::containers::distinct_names(
            #[trigger] rest[j].1,
        ) by {
            assert(rest[j].1 == entries[j + 1].1);
        }
        lemma_entries_roundtrip(d, p3 + 1, rest, acc2);
        assert(acc2 + rest =~= acc + entries);
        assert(spec_parse_map_entries(d, i, acc) == Some(
            (acc + entries, i + spec_emit_entries(entries).len() + 1),
        ));
    }
}

/// Parsing an emitted name map restores the entries.
proof fn lemma_name_map_roundtrip(d: Seq<u8>, i: int, entries: Seq<(Seq<char>, Seq<Seq<char>>)>)
    requires
        crate::containers::unique_keys(entries),
        forall|j: int|
            0 <= j < entries.len() ==> crate::containers::distinct_names(#[trigger] entries[j].1),
        0 <= i,
        i + spec_emit_name_map(entries).len() <= d.len(),
        d.subrange(i, i + spec_emit_name_map(entries).len()) == spec_emit_name_map(entries),
    ensures
        spec_parse_name_map(d, i) == Some((entries, i + spec_emit_name_map(entries).len())),
{
    let w = spec_emit_name_map(entries);
    assert(w =~= seq![0x7bu8] + (spec_emit_entries(entries) + seq![0x7du8]));
    assert(d.subrange(i, i + 1 + (spec_emit_entries(entries) + seq![0x7du8]).len())
        == seq![0x7bu8] + (spec_emit_entries(entries) + seq![0x7du8]));
    lemma_subrange_split(d, i, seq![0x7bu8], spec_emit_entries(entries) + seq![0x7du8]);
    assert(d[i] == d.subrange(i, i + 1)[0]);
    lemma_expect_at(d, i, 0x7b);
    if entries.len() == 0 {
        assert(spec_emit_entries(entries) =~= Seq::<u8>::empty());
        assert(d[i + 1] == d.subrange(i + 1, i + 1 + 1)[0]);
        assert(d[i + 1] == 0x7d);
        lemma_expect_at(d, i + 1, 0x7d);
        assert(spec_parse_name_map(d, i) == Some((Seq::<(Seq<char>, Seq<Seq<char>>)>::empty(), i
            + 2)));
        assert(entries =~= Seq::<(Seq<char>, Seq<Seq<char>>)>::empty());
    } else {
        let es = spec_emit_string(entries[0].0);
        assert(spec_emit_entries(entries)[0] == es[0]);
        assert(es[0] == 0x22);
        assert(d[i + 1] == d.subrange(i + 1, i + 1 + (spec_emit_entries(entries)
            + seq![0x7du8]).len())[0]);
        assert(d[i + 1] == 0x22);
        assert(spec_skip_ws(d, i + 1) == i + 1);
        assert(spec_expect(d, i + 1, 0x7d) is None);
        lemma_entries_roundtrip(d, i + 1, entries, Seq::empty());
        assert(Seq::<(Seq<char>, Seq<Seq<char>>)>::empty() + entries =~= entries);
    }
}

/// Parsing a written tag-index document restores the value.
#[verifier::rlimit(100)]
pub proof fn lemma_tags_roundtrip(t: TagsV)
    requires
        crate::containers::unique_keys(t.tags),
        crate::containers::unique_keys(t.sets),
        forall|j: int|
            0 <= j < t.tags.len() ==> crate::containers::distinct_names(#[trigger] t.tags[j].1),
        forall|j: int|
            0 <= j < t.sets.len() ==> crate::containers::distinct_names(#[trigger] t.sets[j].1),
    ensures
        spec_parse_tags_doc(spec_emit_tags(t)) == Some(t),
{
    let d = spec_emit_tags(t);
    let t_t = key_tok(key_tags());
    let t_s = key_tok(key_sets());
    let m1 = spec_emit_name_map(t.tags);
    let m2 = spec_emit_name_map(t.sets);
    let p1 = seq![0x7bu8];
    let p2 = p1 + t_t;
    let p3 = p2 + m1;
    let p4 = p3 + seq![0x2cu8];
    let p5 = p4 + t_s;
    let p6 = p5 + m2;
    let p7 = p6 + seq![0x7du8];
    assert(d == p7);
    assert(d.subrange(0, d.len() as int) =~= d);
    lemma_subrange_split(d, 0, p6, seq![0x7du8]);
    lemma_subrange_split(d, 0, p5, m2);
    lemma_subrange_split(d, 0, p4, t_s);
    lemma_subrange_split(d, 0, p3, seq![0x2cu8]);
    lemma_subrange_split(d, 0, p2, m1);
    lemma_subrange_split(d, 0, p1, t_t);
    let q2 = p2.len() as int;
    let q3 = p3.len() as int;
    let q5 = p5.len() as int;
    let q6 = p6.len() as int;
    assert(d[0] == d.subrange(0, 1)[0]);
    lemma_expect_at(d, 0, 0x7b);
    assert forall|mm: int| 0 <= mm < key_tags().len() implies key_tags()[mm] != 0x22
        && #[trigger] key_tags()[mm] != 0x5C by {}
    assert forall|mm: int| 0 <= mm < key_sets().len() implies key_sets()[mm] != 0x22
        && #[trigger] key_sets()[mm] != 0x5C by {}
    crate::doc_meta::lemma_key_tok_walk(d, 1, key_tags());
    crate::doc_meta::lemma_key_tok_walk(d, q3 + 1, key_sets());
    lemma_name_map_roundtrip(d, q2, t.tags);
    lemma_name_map_roundtrip(d, q5, t.sets);
    assert(d[q3] == d.subrange(q3, q3 + 1)[0]);
    lemma_expect_at(d, q3, 0x2c);
    assert(d[q6] == d.subrange(q6, q6 + 1)[0]);
    assert(spec_skip_ws(d, q6) == q6);
    assert(spec_expect(d, q6, 0x2c) is None);
    lemma_expect_at(d, q6, 0x7d);
    // the two member names differ in their first byte
    assert(key_tags()[0] == 0x74 && key_sets()[0] == 0x73);
    assert(key_tags() != key_sets());
    let acc0 = tags_acc_empty();
    let acc1 = TagsAcc { tags: Some(t.tags), sets: None };
    let acc2 = TagsAcc { tags: Some(t.tags), sets: Some(t.sets) };
    assert(spec_parse_tags_step(d, q2, key_tags(), acc0) == Some((acc1, q3)));
    assert(spec_parse_tags_members(d, 1, acc0) == spec_parse_tags_members(d, q3 + 1, acc1));
    assert(spec_parse_tags_step(d, q5, key_sets(), acc1) == Some((acc2, q6)));
    assert(spec_parse_tags_members(d, q3 + 1, acc1) == Some((acc2, q6 + 1)));
    assert(spec_skip_ws(d, q6 + 1) == d.len());
    assert(spec_parse_tags_doc(d) == Some(t));
}

} // verus!
