//! Lexical layer of the embedded JSON documents.
//!
//! The two documents stored in an archive (pack metadata and tag index)
//! are parsed and regenerated byte by byte.  This module gives the
//! tokens: whitespace, strings with the common escapes, number tokens
//! kept as raw text (the codec never interprets them numerically), and
//! the `true`/`false`/`null` literals.  Each token has a position-based
//! spec parser, an executable twin proved equal to it, and a lemma that
//! parsing what the emitter produced yields the original value.

use vstd::prelude::*;
use vstd::utf8::encode_utf8;

verus! {

/// JSON insignificant whitespace: space, tab, line feed, carriage
/// return.
pub open spec fn is_ws(x: u8) -> bool {
    x == 0x20 || x == 0x09 || x == 0x0A || x == 0x0D
}

/// Bytes a number token is made of: digits, signs, point, exponent
/// marks.
pub open spec fn is_num_byte(x: u8) -> bool {
    (0x30 <= x <= 0x39) || x == 0x2B || x == 0x2D || x == 0x2E || x == 0x45 || x == 0x65
}

/// First position at or after `i` holding a non-whitespace byte.
pub open spec fn spec_skip_ws(d: Seq<u8>, i: int) -> int
    decreases d.len() - i,
{
    if i < 0 || i >= d.len() {
        i
    } else if is_ws(d[i]) {
        spec_skip_ws(d, i + 1)
    } else {
        i
    }
}


/// Position just past `b` at `i`, after whitespace; `None` when another
/// byte is there.
pub open spec fn spec_expect(d: Seq<u8>, i: int, b: u8) -> Option<int> {
    let j = spec_skip_ws(d, i);
    if j < d.len() && d[j] == b {
        Some(j + 1)
    } else {
        None
    }
}


/// Value a one-byte escape stands for, or `None` for an unsupported
/// escape.
pub open spec fn spec_unescape_byte(x: u8) -> Option<u8> {
    if x == 0x22 {
        Some(0x22u8)
    } else if x == 0x5C {
        Some(0x5Cu8)
    } else if x == 0x2F {
        Some(0x2Fu8)
    } else if x == 0x6E {
        Some(0x0Au8)
    } else if x == 0x74 {
        Some(0x09u8)
    } else if x == 0x72 {
        Some(0x0Du8)
    } else if x == 0x62 {
        Some(0x08u8)
    } else if x == 0x66 {
        Some(0x0Cu8)
    } else {
        None
    }
}

/// String contents from `i` (just after the opening quote) up to the
/// closing quote: the decoded bytes and the position past the quote.
pub open spec fn spec_parse_str_body(d: Seq<u8>, i: int) -> Option<(Seq<u8>, int)>
    decreases d.len() - i,
{
    if i < 0 || i >= d.len() {
        None
    } else if d[i] == 0x22 {
        Some((Seq::empty(), i + 1))
    } else if d[i] == 0x5C {
        if i + 1 >= d.len() {
            None
        } else {
            match spec_unescape_byte(d[i + 1]) {
                Some(x) => match spec_parse_str_body(d, i + 2) {
                    Some(p) => Some((seq![x] + p.0, p.1)),
                    None => None,
                },
                None => None,
            }
        }
    } else {
        match spec_parse_str_body(d, i + 1) {
            Some(p) => Some((seq![d[i]] + p.0, p.1)),
            None => None,
        }
    }
}


/// A string token at `i`, after whitespace: its decoded bytes and the
/// position past the closing quote.
pub open spec fn spec_parse_string(d: Seq<u8>, i: int) -> Option<(Seq<u8>, int)> {
    let j = spec_skip_ws(d, i);
    if j < d.len() && d[j] == 0x22 {
        spec_parse_str_body(d, j + 1)
    } else {
        None
    }
}


/// End of the number-byte run starting at `i`.
pub open spec fn spec_num_end(d: Seq<u8>, i: int) -> int
    decreases d.len() - i,
{
    if i < 0 || i >= d.len() {
        i
    } else if is_num_byte(d[i]) {
        spec_num_end(d, i + 1)
    } else {
        i
    }
}


/// A number token at `i`, after whitespace: the raw token bytes
/// (uninterpreted) and the position past them.
pub open spec fn spec_parse_number(d: Seq<u8>, i: int) -> Option<(Seq<u8>, int)> {
    let j = spec_skip_ws(d, i);
    let e = spec_num_end(d, j);
    if e > j {
        Some((d.subrange(j, e), e))
    } else {
        None
    }
}

/// Bytes of the literal `true`.
pub open spec fn lit_true() -> Seq<u8> {
    seq![0x74u8, 0x72u8, 0x75u8, 0x65u8]
}

/// Bytes of the literal `false`.
pub open spec fn lit_false() -> Seq<u8> {
    seq![0x66u8, 0x61u8, 0x6cu8, 0x73u8, 0x65u8]
}

/// Bytes of the literal `null`.
pub open spec fn lit_null() -> Seq<u8> {
    seq![0x6eu8, 0x75u8, 0x6cu8, 0x6cu8]
}

/// A boolean literal at `i`, after whitespace.
pub open spec fn spec_parse_bool(d: Seq<u8>, i: int) -> Option<(bool, int)> {
    let j = spec_skip_ws(d, i);
    if j + 4 <= d.len() && d.subrange(j, j + 4) == lit_true() {
        Some((true, j + 4))
    } else if j + 5 <= d.len() && d.subrange(j, j + 5) == lit_false() {
        Some((false, j + 5))
    } else {
        None
    }
}

/// Whether a `null` literal stands at `i`, after whitespace.
pub open spec fn spec_parse_null(d: Seq<u8>, i: int) -> Option<int> {
    let j = spec_skip_ws(d, i);
    if j + 4 <= d.len() && d.subrange(j, j + 4) == lit_null() {
        Some(j + 4)
    } else {
        None
    }
}

// ---------------------------------------------------------------------
// Emission
// ---------------------------------------------------------------------

/// String-body bytes with `"` and `\` escaped; all other bytes pass
/// through unchanged.
pub open spec fn spec_escape(b: Seq<u8>) -> Seq<u8>
    decreases b.len(),
{
    if b.len() == 0 {
        Seq::empty()
    } else if b[0] == 0x22 || b[0] == 0x5C {
        seq![0x5Cu8, b[0]] + spec_escape(b.drop_first())
    } else {
        seq![b[0]] + spec_escape(b.drop_first())
    }
}

/// A string token: quote, escaped UTF-8 bytes, quote.
pub open spec fn spec_emit_string(s: Seq<char>) -> Seq<u8> {
    seq![0x22u8] + spec_escape(encode_utf8(s)) + seq![0x22u8]
}

// ---------------------------------------------------------------------
// Round-trip lemmas
// ---------------------------------------------------------------------

/// Parsing an escaped body followed by the closing quote restores the
/// body.
pub proof fn lemma_parse_body_escape(d: Seq<u8>, i: int, b: Seq<u8>)
    requires
        0 <= i,
        i + spec_escape(b).len() + 1 <= d.len(),
        d.subrange(i, i + spec_escape(b).len() + 1) == spec_escape(b) + seq![0x22u8],
    ensures
        spec_parse_str_body(d, i) == Some((b, i + spec_escape(b).len() + 1)),
    decreases b.len(),
{
    let e = spec_escape(b);
    let whole = d.subrange(i, i + e.len() + 1);
    assert forall|m: int| 0 <= m < whole.len() implies d[i + m] == whole[m] by {
        assert(whole[m] == d.subrange(i, i + e.len() + 1)[m]);
    }
    if b.len() == 0 {
        assert(d[i] == whole[0]);
    } else if b[0] == 0x22 || b[0] == 0x5C {
        let e2 = spec_escape(b.drop_first());
        assert(e == seq![0x5Cu8, b[0]] + e2);
        assert(d[i] == whole[0] && whole[0] == 0x5C);
        assert(d[i + 1] == whole[1] && whole[1] == b[0]);
        assert(spec_unescape_byte(d[i + 1]) == Some(b[0]));
        assert forall|k: int| 0 <= k < e2.len() + 1 implies d.subrange(
            i + 2,
            i + 2 + e2.len() + 1,
        )[k] == (e2 + seq![0x22u8])[k] by {
            assert(d.subrange(i + 2, i + 2 + e2.len() + 1)[k] == d[i + 2 + k]);
            assert(d[i + 2 + k] == whole[2 + k]);
            if k < e2.len() {
                assert(whole[2 + k] == e[2 + k]);
                assert(e[2 + k] == e2[k]);
            } else {
                assert(whole[2 + k] == 0x22);
            }
        }
        assert(d.subrange(i + 2, i + 2 + e2.len() + 1) =~= e2 + seq![0x22u8]);
        lemma_parse_body_escape(d, i + 2, b.drop_first());
        assert(seq![b[0]] + b.drop_first() =~= b);
    } else {
        let e2 = spec_escape(b.drop_first());
        assert(e == seq![b[0]] + e2);
        assert(d[i] == whole[0] && whole[0] == b[0]);
        assert(d[i] != 0x22 && d[i] != 0x5C);
        assert forall|k: int| 0 <= k < e2.len() + 1 implies d.subrange(
            i + 1,
            i + 1 + e2.len() + 1,
        )[k] == (e2 + seq![0x22u8])[k] by {
            assert(d.subrange(i + 1, i + 1 + e2.len() + 1)[k] == d[i + 1 + k]);
            assert(d[i + 1 + k] == whole[1 + k]);
            if k < e2.len() {
                assert(whole[1 + k] == e[1 + k]);
                assert(e[1 + k] == e2[k]);
            } else {
                assert(whole[1 + k] == 0x22);
            }
        }
        assert(d.subrange(i + 1, i + 1 + e2.len() + 1) =~= e2 + seq![0x22u8]);
        lemma_parse_body_escape(d, i + 1, b.drop_first());
        assert(seq![b[0]] + b.drop_first() =~= b);
    }
}

/// Parsing an emitted string token restores the encoded bytes.
pub proof fn lemma_parse_string_at(d: Seq<u8>, i: int, s: Seq<char>)
    requires
        0 <= i,
        i + spec_emit_string(s).len() <= d.len(),
        d.subrange(i, i + spec_emit_string(s).len()) == spec_emit_string(s),
    ensures
        spec_parse_string(d, i) == Some((encode_utf8(s), i + spec_emit_string(s).len())),
{
    let t = spec_emit_string(s);
    let e = spec_escape(encode_utf8(s));
    let whole = d.subrange(i, i + t.len());
    assert forall|m: int| 0 <= m < whole.len() implies d[i + m] == whole[m] by {
        assert(whole[m] == d.subrange(i, i + t.len())[m]);
    }
    assert(d[i] == whole[0]);
    assert(d[i] == 0x22);
    assert(spec_skip_ws(d, i) == i);
    assert(whole == (seq![0x22u8] + e) + seq![0x22u8]);
    assert forall|k: int| 0 <= k < e.len() + 1 implies d.subrange(i + 1, i + 1 + e.len() + 1)[k]
        == (e + seq![0x22u8])[k] by {
        assert(d.subrange(i + 1, i + 1 + e.len() + 1)[k] == d[i + 1 + k]);
        assert(d[i + 1 + k] == whole[1 + k]);
        if k < e.len() {
            assert(whole[1 + k] == (seq![0x22u8] + e)[1 + k]);
            assert((seq![0x22u8] + e)[1 + k] == e[k]);
        } else {
            assert(whole[1 + k] == 0x22);
        }
    }
    assert(d.subrange(i + 1, i + 1 + e.len() + 1) =~= e + seq![0x22u8]);
    lemma_parse_body_escape(d, i + 1, encode_utf8(s));
}

/// Identifies a number-byte run that ends at a non-number byte or the
/// end of the stream.
pub proof fn lemma_num_end_run(d: Seq<u8>, i: int, e: int)
    requires
        0 <= i <= e <= d.len(),
        forall|k: int| i <= k < e ==> is_num_byte(d[k]),
        e == d.len() || !is_num_byte(d[e]),
    ensures
        spec_num_end(d, i) == e,
    decreases e - i,
{
    if i < e {
        lemma_num_end_run(d, i + 1, e);
    }
}

/// Parsing an emitted number token (followed by a delimiter) restores
/// the token.
pub proof fn lemma_parse_number_at(d: Seq<u8>, i: int, t: Seq<u8>)
    requires
        0 <= i,
        t.len() >= 1,
        forall|k: int| 0 <= k < t.len() ==> is_num_byte(t[k]),
        i + t.len() <= d.len(),
        d.subrange(i, i + t.len()) == t,
        i + t.len() == d.len() || !is_num_byte(d[i + t.len()]),
    ensures
        spec_parse_number(d, i) == Some((t, i + t.len())),
{
    assert(d[i] == t[0]);
    assert(is_num_byte(d[i]) && !is_ws(d[i]));
    assert(spec_skip_ws(d, i) == i);
    assert(forall|k: int| i <= k < i + t.len() ==> d[k] == t[k - i] && is_num_byte(d[k]));
    lemma_num_end_run(d, i, i + t.len());
    assert(d.subrange(i, spec_num_end(d, i)) =~= t);
}

/// Parsing an emitted boolean literal restores the value.
pub proof fn lemma_parse_bool_at(d: Seq<u8>, i: int, v: bool)
    requires
        0 <= i,
        i + (if v { 4int } else { 5int }) <= d.len(),
        v ==> d.subrange(i, i + 4) == lit_true(),
        !v ==> d.subrange(i, i + 5) == lit_false(),
    ensures
        spec_parse_bool(d, i) == Some((v, i + if v { 4int } else { 5int })),
{
    if v {
        assert(d[i] == d.subrange(i, i + 4)[0]);
        assert(d[i] == 0x74 && !is_ws(d[i]));
        assert(spec_skip_ws(d, i) == i);
    } else {
        assert(d[i] == d.subrange(i, i + 5)[0]);
        assert(d[i] == 0x66 && !is_ws(d[i]));
        assert(spec_skip_ws(d, i) == i);
        if i + 4 <= d.len() && d.subrange(i, i + 4) == lit_true() {
            assert(d.subrange(i, i + 4)[0] == 0x74);
            assert(false);
        }
    }
}

// ---------------------------------------------------------------------
// Executable tokenizer
// ---------------------------------------------------------------------

/// First position at or after `i` holding a non-whitespace byte.
pub fn skip_ws(d: &Vec<u8>, i: usize) -> (r: usize)
    requires
        i <= d@.len(),
    ensures
        r == spec_skip_ws(d@, i as int),
        i <= r <= d@.len(),
{
    let n = d.len();
    let mut j = i;
    while j < n && (d[j] == 0x20 || d[j] == 0x09 || d[j] == 0x0A || d[j] == 0x0D)
        invariant
            i <= j <= n,
            n == d@.len(),
            spec_skip_ws(d@, i as int) == spec_skip_ws(d@, j as int),
        decreases n - j,
    {
        j = j + 1;
    }
    j
}

/// Position just past an expected `b` at `i`, after whitespace.
pub fn expect_byte(d: &Vec<u8>, i: usize, b: u8) -> (r: Option<usize>)
    requires
        i <= d@.len(),
    ensures
        ({
            let sp = spec_expect(d@, i as int, b);
            match r {
                Some(j) => (sp == Some(j as int) && i < j <= d@.len()),
                None => sp is None,
            }
        }),
{
    let j = skip_ws(d, i);
    if j < d.len() && d[j] == b {
        Some(j + 1)
    } else {
        None
    }
}

/// A string token at `i`: its decoded bytes and the position past the
/// closing quote.
pub fn parse_string_tok(d: &Vec<u8>, i: usize) -> (r: Option<(Vec<u8>, usize)>)
    requires
        i <= d@.len(),
    ensures
        ({
            let sp = spec_parse_string(d@, i as int);
            match r {
                Some(p) => (sp matches Some(spv) && p.0@ == spv.0 && p.1 == spv.1 && i < p.1
                    <= d@.len()),
                None => sp is None,
            }
        }),
{
    let j = skip_ws(d, i);
    if !(j < d.len() && d[j] == 0x22) {
        return None;
    }
    let n = d.len();
    let mut k = j + 1;
    let mut acc: Vec<u8> = Vec::new();
    loop
        invariant
            j + 1 <= k <= n,
            n == d@.len(),
            j < n,
            d@[j as int] == 0x22,
            spec_skip_ws(d@, i as int) == j,
            i <= j,
            ({
                let whole = spec_parse_str_body(d@, j + 1);
                let here = spec_parse_str_body(d@, k as int);
                match here {
                    Some(p) => (whole matches Some(w) && w.0 == acc@ + p.0 && w.1 == p.1),
                    None => whole is None,
                }
            }),
        decreases n - k,
    {
        if k >= n {
            return None;
        }
        let b = d[k];
        if b == 0x22 {
            proof {
                assert(acc@ + Seq::<u8>::empty() =~= acc@);
            }
            return Some((acc, k + 1));
        } else if b == 0x5C {
            if k + 1 >= n {
                return None;
            }
            let ghost pre = acc@;
            let esc = d[k + 1];
            let val: u8 = if esc == 0x22 {
                0x22
            } else if esc == 0x5C {
                0x5C
            } else if esc == 0x2F {
                0x2F
            } else if esc == 0x6E {
                0x0A
            } else if esc == 0x74 {
                0x09
            } else if esc == 0x72 {
                0x0D
            } else if esc == 0x62 {
                0x08
            } else if esc == 0x66 {
                0x0C
            } else {
                return None;
            };
            acc.push(val);
            proof {
                assert(spec_unescape_byte(d@[k as int + 1]) == Some(val));
                match spec_parse_str_body(d@, k as int + 2) {
                    Some(p) => {
                        assert(pre + (seq![val] + p.0) =~= acc@ + p.0);
                    },
                    None => {},
                }
            }
            k = k + 2;
        } else {
            let ghost pre = acc@;
            acc.push(b);
            proof {
                match spec_parse_str_body(d@, k as int + 1) {
                    Some(p) => {
                        assert(pre + (seq![b] + p.0) =~= acc@ + p.0);
                    },
                    None => {},
                }
            }
            k = k + 1;
        }
    }
}

/// A number token at `i`: its raw bytes and the position past them.
pub fn parse_number_tok(d: &Vec<u8>, i: usize) -> (r: Option<(Vec<u8>, usize)>)
    requires
        i <= d@.len(),
    ensures
        ({
            let sp = spec_parse_number(d@, i as int);
            match r {
                Some(p) => (sp matches Some(spv) && p.0@ == spv.0 && p.1 == spv.1 && i < p.1
                    <= d@.len() && p.0@.len() >= 1 && forall|k: int|
                    0 <= k < p.0@.len() ==> is_num_byte(p.0@[k])),
                None => sp is None,
            }
        }),
{
    let j = skip_ws(d, i);
    let n = d.len();
    let mut e = j;
    while e < n && ((0x30 <= d[e] && d[e] <= 0x39) || d[e] == 0x2B || d[e] == 0x2D || d[e] == 0x2E
        || d[e] == 0x45 || d[e] == 0x65)
        invariant
            j <= e <= n,
            n == d@.len(),
            spec_num_end(d@, j as int) == spec_num_end(d@, e as int),
            forall|k: int| j <= k < e ==> is_num_byte(d@[k]),
        decreases n - e,
    {
        e = e + 1;
    }
    if e > j {
        match crate::wire::take_bytes(d, j, e - j) {
            Some((tok, _p)) => {
                proof {
                    assert(spec_num_end(d@, e as int) == e);
                    assert(tok@ =~= d@.subrange(j as int, e as int));
                }
                Some((tok, e))
            },
            None => None,
        }
    } else {
        None
    }
}

/// A boolean literal at `i`.
pub fn parse_bool_tok(d: &Vec<u8>, i: usize) -> (r: Option<(bool, usize)>)
    requires
        i <= d@.len(),
    ensures
        ({
            let sp = spec_parse_bool(d@, i as int);
            match r {
                Some(p) => (sp matches Some(spv) && p.0 == spv.0 && p.1 == spv.1 && i < p.1
                    <= d@.len()),
                None => sp is None,
            }
        }),
{
    let j = skip_ws(d, i);
    let n = d.len();
    if j < n && n - j >= 4 && d[j] == 0x74 && d[j + 1] == 0x72 && d[j + 2] == 0x75 && d[j + 3]
        == 0x65 {
        proof {
            assert(d@.subrange(j as int, j + 4) =~= lit_true());
        }
        Some((true, j + 4))
    } else if j < n && n - j >= 5 && d[j] == 0x66 && d[j + 1] == 0x61 && d[j + 2] == 0x6c && d[j
        + 3] == 0x73 && d[j + 4] == 0x65 {
        proof {
            assert(d@.subrange(j as int, j + 5) =~= lit_false());
            if j + 4 <= n && d@.subrange(j as int, j + 4) == lit_true() {
                assert(d@.subrange(j as int, j + 4)[0] == 0x74);
                assert(false);
            }
        }
        Some((false, j + 5))
    } else {
        proof {
            if j + 4 <= n && d@.subrange(j as int, j + 4) == lit_true() {
                assert(d@[j as int] == 0x74 && d@[j + 1] == 0x72 && d@[j + 2] == 0x75 && d@[j + 3]
                    == 0x65);
            }
            if j + 5 <= n && d@.subrange(j as int, j + 5) == lit_false() {
                assert(d@[j as int] == 0x66 && d@[j + 1] == 0x61 && d@[j + 2] == 0x6c && d@[j + 3]
                    == 0x73 && d@[j + 4] == 0x65);
            }
        }
        None
    }
}

/// A `null` literal at `i`.
pub fn parse_null_tok(d: &Vec<u8>, i: usize) -> (r: Option<usize>)
    requires
        i <= d@.len(),
    ensures
        ({
            let sp = spec_parse_null(d@, i as int);
            match r {
                Some(j) => (sp == Some(j as int) && i < j <= d@.len()),
                None => sp is None,
            }
        }),
{
    let j = skip_ws(d, i);
    let n = d.len();
    if j < n && n - j >= 4 && d[j] == 0x6e && d[j + 1] == 0x75 && d[j + 2] == 0x6c && d[j + 3]
        == 0x6c {
        proof {
            assert(d@.subrange(j as int, j + 4) =~= lit_null());
        }
        Some(j + 4)
    } else {
        proof {
            if j + 4 <= n && d@.subrange(j as int, j + 4) == lit_null() {
                assert(d@[j as int] == 0x6e && d@[j + 1] == 0x75 && d@[j + 2] == 0x6c && d@[j + 3]
                    == 0x6c);
            }
        }
        None
    }
}

/// Appends an emitted string token for `s` to `out`.
pub fn push_string_tok(out: &mut Vec<u8>, s: &str)
    ensures
        final(out)@ == old(out)@ + spec_emit_string(s@),
{
    out.push(0x22);
    let b = s.as_bytes();
    let n = b.len();
    let mut i: usize = 0;
    proof {
        assert(out@ =~= old(out)@ + seq![0x22u8] + spec_escape(b@.take(0)));
        assert(spec_escape(b@.take(0)) =~= Seq::<u8>::empty());
    }
    while i < n
        invariant
            i <= n,
            n == b@.len(),
            b@ == encode_utf8(s@),
            out@ == old(out)@ + seq![0x22u8] + spec_escape(b@.take(i as int)),
        decreases n - i,
    {
        let x = b[i];
        let ghost pre = out@;
        if x == 0x22 || x == 0x5C {
            out.push(0x5C);
            out.push(x);
        } else {
            out.push(x);
        }
        proof {
            lemma_escape_snoc(b@, i as int);
            if x == 0x22 || x == 0x5C {
                assert(out@ =~= pre + seq![0x5Cu8, x]);
                assert(out@ =~= old(out)@ + seq![0x22u8] + spec_escape(b@.take(i + 1)));
            } else {
                assert(out@ =~= pre + seq![x]);
                assert(out@ =~= old(out)@ + seq![0x22u8] + spec_escape(b@.take(i + 1)));
            }
        }
        i = i + 1;
    }
    out.push(0x22);
    proof {
        assert(b@.take(n as int) =~= b@);
        assert(out@ =~= old(out)@ + spec_emit_string(s@));
    }
}

/// Splits knowledge of a two-part window into its parts.
pub proof fn lemma_subrange_split(d: Seq<u8>, i: int, a: Seq<u8>, b: Seq<u8>)
    requires
        0 <= i,
        i + a.len() + b.len() <= d.len(),
        d.subrange(i, i + a.len() + b.len()) == a + b,
    ensures
        d.subrange(i, i + a.len()) == a,
        d.subrange(i + a.len(), i + a.len() + b.len()) == b,
{
    let w = d.subrange(i, i + a.len() + b.len());
    assert forall|m: int| 0 <= m < a.len() implies d.subrange(i, i + a.len())[m] == a[m] by {
        assert(d.subrange(i, i + a.len())[m] == d[i + m]);
        assert(w[m] == d[i + m]);
        assert(w[m] == (a + b)[m]);
    }
    assert(d.subrange(i, i + a.len()) =~= a);
    assert forall|m: int| 0 <= m < b.len() implies d.subrange(
        i + a.len(),
        i + a.len() + b.len(),
    )[m] == b[m] by {
        assert(d.subrange(i + a.len(), i + a.len() + b.len())[m] == d[i + a.len() + m]);
        assert(w[a.len() + m] == d[i + a.len() + m]);
        assert(w[a.len() + m] == (a + b)[a.len() + m]);
    }
    assert(d.subrange(i + a.len(), i + a.len() + b.len()) =~= b);
}

/// Escaping bytes free of `"` and `\` changes nothing.
pub proof fn lemma_escape_clean(b: Seq<u8>)
    requires
        forall|k: int| 0 <= k < b.len() ==> b[k] != 0x22 && b[k] != 0x5C,
    ensures
        spec_escape(b) == b,
    decreases b.len(),
{
    if b.len() > 0 {
        lemma_escape_clean(b.drop_first());
        assert(spec_escape(b) =~= b);
    }
}

/// Parsing a quoted token whose bytes need no escaping restores those
/// bytes.
pub proof fn lemma_parse_string_clean_at(d: Seq<u8>, i: int, k: Seq<u8>)
    requires
        0 <= i,
        i + k.len() + 2 <= d.len(),
        spec_escape(k) == k,
        d.subrange(i, i + k.len() + 2) == seq![0x22u8] + k + seq![0x22u8],
    ensures
        spec_parse_string(d, i) == Some((k, i + k.len() + 2)),
{
    let w = d.subrange(i, i + k.len() + 2);
    assert forall|m: int| 0 <= m < w.len() implies d[i + m] == w[m] by {
        assert(w[m] == d.subrange(i, i + k.len() + 2)[m]);
    }
    assert(d[i] == w[0]);
    assert(w[0] == 0x22);
    assert(spec_skip_ws(d, i) == i);
    assert forall|m: int| 0 <= m < k.len() + 1 implies d.subrange(i + 1, i + 1 + k.len() + 1)[m]
        == (spec_escape(k) + seq![0x22u8])[m] by {
        assert(d.subrange(i + 1, i + 1 + k.len() + 1)[m] == d[i + 1 + m]);
        assert(d[i + 1 + m] == w[1 + m]);
        if m < k.len() {
            assert(w[1 + m] == ((seq![0x22u8] + k) + seq![0x22u8])[1 + m]);
            assert(w[1 + m] == k[m]);
        } else {
            assert(w[1 + m] == 0x22);
        }
    }
    assert(d.subrange(i + 1, i + 1 + k.len() + 1) =~= spec_escape(k) + seq![0x22u8]);
    lemma_parse_body_escape(d, i + 1, k);
}

/// A piece of a known window is the matching piece of its image.
pub proof fn lemma_window_piece(d: Seq<u8>, i: int, e: Seq<u8>, a: int, b: int)
    requires
        0 <= i,
        i + e.len() <= d.len(),
        d.subrange(i, i + e.len()) == e,
        0 <= a <= b <= e.len(),
    ensures
        d.subrange(i + a, i + b) == e.subrange(a, b),
{
    assert forall|m: int| 0 <= m < b - a implies d.subrange(i + a, i + b)[m] == e.subrange(
        a,
        b,
    )[m] by {
        assert(d.subrange(i + a, i + b)[m] == d[i + a + m]);
        assert(d.subrange(i, i + e.len())[a + m] == d[i + a + m]);
        assert(e.subrange(a, b)[m] == e[a + m]);
    }
    assert(d.subrange(i + a, i + b) =~= e.subrange(a, b));
}

/// An expected byte standing exactly at `i` is found there.
pub proof fn lemma_expect_at(d: Seq<u8>, i: int, b: u8)
    requires
        0 <= i < d.len(),
        d[i] == b,
        !is_ws(b),
    ensures
        spec_expect(d, i, b) == Some(i + 1),
{
    assert(spec_skip_ws(d, i) == i);
}

/// Escaping one more byte appends its escape.
proof fn lemma_escape_snoc(b: Seq<u8>, i: int)
    requires
        0 <= i < b.len(),
    ensures
        spec_escape(b.take(i + 1)) == if b[i] == 0x22 || b[i] == 0x5C {
            spec_escape(b.take(i)) + seq![0x5Cu8, b[i]]
        } else {
            spec_escape(b.take(i)) + seq![b[i]]
        },
    decreases i,
{
    if i == 0 {
        assert(b.take(1) =~= seq![b[0]]);
        assert(b.take(1).drop_first() =~= Seq::<u8>::empty());
        assert(b.take(0) =~= Seq::<u8>::empty());
        if b[0] == 0x22 || b[0] == 0x5C {
            assert(spec_escape(b.take(1)) =~= spec_escape(b.take(0)) + seq![0x5Cu8, b[0]]);
        } else {
            assert(spec_escape(b.take(1)) =~= spec_escape(b.take(0)) + seq![b[0]]);
        }
    } else {
        lemma_escape_snoc(b.drop_first(), i - 1);
        assert(b.take(i + 1).drop_first() =~= b.drop_first().take(i));
        assert(b.take(i).drop_first() =~= b.drop_first().take(i - 1));
        assert(b.drop_first()[i - 1] == b[i]);
        assert(b.take(i + 1)[0] == b[0]);
        assert(b.take(i)[0] == b[0]);
        if b[0] == 0x22 || b[0] == 0x5C {
            if b[i] == 0x22 || b[i] == 0x5C {
                assert(spec_escape(b.take(i + 1)) =~= spec_escape(b.take(i)) + seq![0x5Cu8, b[i]]);
            } else {
                assert(spec_escape(b.take(i + 1)) =~= spec_escape(b.take(i)) + seq![b[i]]);
            }
        } else {
            if b[i] == 0x22 || b[i] == 0x5C {
                assert(spec_escape(b.take(i + 1)) =~= spec_escape(b.take(i)) + seq![0x5Cu8, b[i]]);
            } else {
                assert(spec_escape(b.take(i + 1)) =~= spec_escape(b.take(i)) + seq![b[i]]);
            }
        }
    }
}

} // verus!
