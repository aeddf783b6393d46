//! UTF-8 facts the codec needs on top of vstd's model.
//!
//! Normalization slices a path's bytes after an ASCII prefix or after the
//! first `/`; these lemmas show such slices stay valid UTF-8, and relate
//! byte-level properties of an encoding to its characters.

use vstd::prelude::*;
use vstd::utf8::{is_continuation_byte, is_leading_byte_width_1, length_of_first_scalar,
    pop_first_scalar, valid_first_scalar, valid_utf8};
use crate::path_utils::{SLASH, contains_byte, spec_normalize, spec_packs_prefix, spec_res_prefix,
    starts_with, strip_prefix, tail_after_slash};

verus! {

/// Bytes below 0x80 always form valid UTF-8.
pub proof fn lemma_ascii_bytes_valid(b: Seq<u8>)
    requires
        forall|i: int| 0 <= i < b.len() ==> b[i] < 0x80,
    ensures
        valid_utf8(b),
    decreases b.len(),
{
    if b.len() > 0 {
        assert(is_leading_byte_width_1(b[0]));
        let x = b[0];
        assert(((x & 0x7F) as u32) < 0x80 && ((x & 0x7F) as u32) == (x as u32)) by (bit_vector)
            requires
                x < 0x80,
        ;
        assert(valid_first_scalar(b));
        assert(pop_first_scalar(b) =~= b.skip(1));
        lemma_ascii_bytes_valid(b.skip(1));
    }
}

/// A valid byte sequence stays valid after an all-ASCII prefix is cut
/// off.
pub proof fn lemma_valid_skip_ascii_prefix(b: Seq<u8>, k: int)
    requires
        valid_utf8(b),
        0 <= k <= b.len(),
        forall|i: int| 0 <= i < k ==> b[i] < 0x80,
    ensures
        valid_utf8(b.skip(k)),
    decreases k,
{
    if k == 0 {
        assert(b.skip(0) =~= b);
    } else {
        assert(is_leading_byte_width_1(b[0]));
        assert(length_of_first_scalar(b) == 1);
        assert(pop_first_scalar(b) =~= b.skip(1));
        lemma_valid_skip_ascii_prefix(b.skip(1), k - 1);
        assert(b.skip(1).skip(k - 1) =~= b.skip(k));
    }
}

/// A valid byte sequence stays valid after everything up to and
/// including its first `/` is cut off.
pub proof fn lemma_valid_skip_slash_at(b: Seq<u8>, i: int)
    requires
        valid_utf8(b),
        0 <= i < b.len(),
        b[i] == SLASH,
        forall|k: int| 0 <= k < i ==> b[k] != SLASH,
    ensures
        valid_utf8(b.skip(i + 1)),
    decreases b.len(),
{
    assert(valid_first_scalar(b));
    let l = length_of_first_scalar(b);
    if is_leading_byte_width_1(b[0]) {
        assert(l == 1);
        assert(pop_first_scalar(b) =~= b.skip(1));
        if i == 0 {
            assert(b.skip(i + 1) == pop_first_scalar(b));
        } else {
            let b2 = b.skip(1);
            assert(b2[i - 1] == b[i]);
            assert(forall|k: int| 0 <= k < i - 1 ==> b2[k] == b[k + 1] && b2[k] != SLASH);
            lemma_valid_skip_slash_at(b2, i - 1);
            assert(b2.skip(i) =~= b.skip(i + 1));
        }
    } else {
        // multi-byte first scalar: its lead is at least 0xC0 and its
        // continuation bytes at least 0x80, so the slash lies past it
        assert(2 <= l <= 4);
        assert(b[0] != SLASH);
        assert(forall|k: int| 1 <= k < l ==> is_continuation_byte(b[k]) && b[k] != SLASH);
        assert(i >= l);
        let b2 = pop_first_scalar(b);
        assert(b2 =~= b.skip(l));
        assert(b2[i - l] == b[i]);
        assert(forall|k: int| 0 <= k < i - l ==> b2[k] == b[k + l] && b2[k] != SLASH);
        lemma_valid_skip_slash_at(b2, i - l);
        assert(b2.skip(i - l + 1) =~= b.skip(i + 1));
    }
}

/// When a byte sequence has a tail after a slash, there is a first slash
/// position producing it.
pub proof fn lemma_tail_some_first_index(b: Seq<u8>)
    requires
        tail_after_slash(b) is Some,
    ensures
        exists|i: int|
            0 <= i < b.len() && b[i] == SLASH && (forall|k: int| 0 <= k < i ==> b[k] != SLASH)
                && tail_after_slash(b) == Some(b.skip(i + 1)),
    decreases b.len(),
{
    if b[0] == SLASH {
        assert(b.drop_first() =~= b.skip(1));
        assert(b[0] == SLASH && (forall|k: int| 0 <= k < 0 ==> b[k] != SLASH) && tail_after_slash(
            b,
        ) == Some(b.skip(1)));
    } else {
        lemma_tail_some_first_index(b.drop_first());
        let i = choose|i: int|
            0 <= i < b.drop_first().len() && b.drop_first()[i] == SLASH && (forall|k: int|
                0 <= k < i ==> b.drop_first()[k] != SLASH) && tail_after_slash(b.drop_first())
                == Some(b.drop_first().skip(i + 1));
        assert(b.drop_first().skip(i + 1) =~= b.skip(i + 2));
        assert(forall|k: int| 1 <= k < i + 1 ==> b[k] == b.drop_first()[k - 1]);
        assert(b[i + 1] == SLASH && (forall|k: int| 0 <= k < i + 1 ==> b[k] != SLASH)
            && tail_after_slash(b) == Some(b.skip(i + 2)));
    }
}

/// Path normalization keeps a valid UTF-8 path valid.
pub proof fn lemma_normalize_valid(raw: Seq<u8>)
    requires
        valid_utf8(raw),
    ensures
        valid_utf8(spec_normalize(raw)),
{
    let s1 = strip_prefix(raw, spec_res_prefix());
    if starts_with(raw, spec_res_prefix()) {
        assert forall|k: int| 0 <= k < 6 implies raw[k] < 0x80 by {
            assert(raw[k] == raw.take(6)[k]);
        }
        lemma_valid_skip_ascii_prefix(raw, 6);
    }
    assert(valid_utf8(s1));
    let s2 = strip_prefix(s1, spec_packs_prefix());
    if starts_with(s1, spec_packs_prefix()) {
        assert forall|k: int| 0 <= k < 6 implies s1[k] < 0x80 by {
            assert(s1[k] == s1.take(6)[k]);
        }
        lemma_valid_skip_ascii_prefix(s1, 6);
    }
    assert(valid_utf8(s2));
    match tail_after_slash(s2) {
        Some(t) => {
            lemma_tail_some_first_index(s2);
            let i = choose|i: int|
                0 <= i < s2.len() && s2[i] == SLASH && (forall|k: int| 0 <= k < i ==> s2[k] != SLASH)
                    && tail_after_slash(s2) == Some(s2.skip(i + 1));
            lemma_valid_skip_slash_at(s2, i);
        },
        None => {},
    }
}

} // verus!
