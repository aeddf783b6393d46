//! Order-preserving string-keyed containers.
//!
//! The archive format cares about order twice over: payloads are written
//! in directory order, and the tag-index document lists its members in a
//! stable order.  These containers therefore keep entries as sequences
//! with unique keys rather than as hash maps; their views are sequences
//! of pairs, read left to right.

use vstd::prelude::*;
use crate::utils::str_eq;

verus! {

/// True when key `k` occurs in the association sequence `s`.
pub open spec fn has_key<V>(s: Seq<(Seq<char>, V)>, k: Seq<char>) -> bool {
    exists|i: int| 0 <= i < s.len() && s[i].0 == k
}

/// First index of key `k` in `s` (meaningful only when `has_key`).
pub open spec fn key_index<V>(s: Seq<(Seq<char>, V)>, k: Seq<char>) -> int
    decreases s.len(),
{
    if s.len() == 0 {
        0
    } else if s[0].0 == k {
        0
    } else {
        1 + key_index(s.drop_first(), k)
    }
}

/// The set of keys of `s`.
pub open spec fn key_set<V>(s: Seq<(Seq<char>, V)>) -> Set<Seq<char>> {
    Set::new(|k: Seq<char>| has_key(s, k))
}

/// No key occurs twice in `s`.
pub open spec fn unique_keys<V>(s: Seq<(Seq<char>, V)>) -> bool {
    forall|i: int, j: int| 0 <= i < j < s.len() ==> s[i].0 != s[j].0
}

/// No name occurs twice in `s`.
pub open spec fn distinct_names(s: Seq<Seq<char>>) -> bool {
    forall|i: int, j: int| 0 <= i < j < s.len() ==> s[i] != s[j]
}

/// A present key's index lies in range and holds the key.
pub proof fn lemma_key_index_bounds<V>(s: Seq<(Seq<char>, V)>, k: Seq<char>)
    requires
        has_key(s, k),
    ensures
        0 <= key_index(s, k) < s.len(),
        s[key_index(s, k)].0 == k,
    decreases s.len(),
{
    if s[0].0 == k {
    } else {
        let i = choose|i: int| 0 <= i < s.len() && s[i].0 == k;
        assert(s.drop_first()[i - 1].0 == k);
        lemma_key_index_bounds(s.drop_first(), k);
        assert(s[key_index(s, k)] == s.drop_first()[key_index(s.drop_first(), k)]);
    }
}

/// `key_index` finds the position whose earlier entries all miss `k`.
pub proof fn lemma_key_index_at<V>(s: Seq<(Seq<char>, V)>, k: Seq<char>, j: int)
    requires
        0 <= j < s.len(),
        s[j].0 == k,
        forall|i: int| 0 <= i < j ==> s[i].0 != k,
    ensures
        key_index(s, k) == j,
    decreases j,
{
    if j > 0 {
        lemma_key_index_at(s.drop_first(), k, j - 1);
    }
}

// ---------------------------------------------------------------------
// NameList: an insertion-ordered set of strings
// ---------------------------------------------------------------------

/// An insertion-ordered set of names (file paths in a tag, tag names in
/// a tag set): a sequence of distinct strings.
#[derive(Debug, PartialEq, Clone)]
pub struct NameList {
    items: Vec<String>,
}

impl View for NameList {
    type V = Seq<Seq<char>>;

    closed spec fn view(&self) -> Seq<Seq<char>> {
        Seq::new(self.items@.len(), |i: int| self.items@[i]@)
    }
}

impl NameList {
    /// No name occurs twice.
    pub open spec fn wf(&self) -> bool {
        distinct_names(self@)
    }

    pub open spec fn spec_contains(&self, s: Seq<char>) -> bool {
        self@.contains(s)
    }

    pub fn new() -> (r: Self)
        ensures
            r@ == Seq::<Seq<char>>::empty(),
            r.wf(),
    {
        let r = NameList { items: Vec::new() };
        proof {
            assert(r@ =~= Seq::<Seq<char>>::empty());
        }
        r
    }

    pub fn len(&self) -> (r: usize)
        ensures
            r == self@.len(),
    {
        self.items.len()
    }

    pub fn get_at(&self, i: usize) -> (r: &String)
        requires
            i < self@.len(),
        ensures
            r@ == self@[i as int],
    {
        &self.items[i]
    }

    pub fn contains(&self, s: &str) -> (r: bool)
        ensures
            r == self.spec_contains(s@),
    {
        let n = self.items.len();
        let mut i: usize = 0;
        while i < n
            invariant
                n == self@.len(),
                i <= n,
                forall|k: int| 0 <= k < i ==> self@[k] != s@,
            decreases n - i,
        {
            if str_eq(self.items[i].as_str(), s) {
                proof {
                    assert(self@[i as int] == s@);
                }
                return true;
            }
            i = i + 1;
        }
        false
    }

    /// Adds `s` unless it is already present, keeping insertion order.
    pub fn insert(&mut self, s: String)
        requires
            old(self).wf(),
        ensures
            final(self).wf(),
            old(self).spec_contains(s@) ==> final(self)@ == old(self)@,
            !old(self).spec_contains(s@) ==> final(self)@ == old(self)@.push(s@),
    {
        if !self.contains(s.as_str()) {
            let ghost pre = self@;
            self.items.push(s);
            proof {
                assert(self@ =~= pre.push(s@));
            }
        }
    }
}

// ---------------------------------------------------------------------
// FileStore: path -> payload bytes, in insertion order
// ---------------------------------------------------------------------

/// Payload bytes keyed by normalized path, in insertion order with
/// unique keys.  Inserting an existing key replaces the payload in
/// place.
#[derive(Debug, PartialEq)]
pub struct FileStore {
    entries: Vec<(String, Vec<u8>)>,
}

impl View for FileStore {
    type V = Seq<(Seq<char>, Seq<u8>)>;

    closed spec fn view(&self) -> Seq<(Seq<char>, Seq<u8>)> {
        Seq::new(self.entries@.len(), |i: int| (self.entries@[i].0@, self.entries@[i].1@))
    }
}

impl FileStore {
    pub open spec fn wf(&self) -> bool {
        unique_keys(self@)
    }

    pub open spec fn spec_has_key(&self, k: Seq<char>) -> bool {
        has_key(self@, k)
    }

    pub fn new() -> (r: Self)
        ensures
            r@ == Seq::<(Seq<char>, Seq<u8>)>::empty(),
            r.wf(),
    {
        let r = FileStore { entries: Vec::new() };
        proof {
            assert(r@ =~= Seq::<(Seq<char>, Seq<u8>)>::empty());
        }
        r
    }

    pub fn len(&self) -> (r: usize)
        ensures
            r == self@.len(),
    {
        self.entries.len()
    }

    pub fn get_at(&self, i: usize) -> (r: &(String, Vec<u8>))
        requires
            i < self@.len(),
        ensures
            r.0@ == self@[i as int].0,
            r.1@ == self@[i as int].1,
    {
        &self.entries[i]
    }

    /// Index of `k`, when present.
    fn find(&self, k: &str) -> (r: Option<usize>)
        ensures
            r matches Some(i) ==> (i < self@.len() && self@[i as int].0 == k@ && forall|j: int|
                0 <= j < i ==> self@[j].0 != k@),
            r is None ==> !self.spec_has_key(k@),
    {
        let n = self.entries.len();
        let mut i: usize = 0;
        while i < n
            invariant
                n == self@.len(),
                i <= n,
                forall|j: int| 0 <= j < i ==> self@[j].0 != k@,
            decreases n - i,
        {
            if str_eq(self.entries[i].0.as_str(), k) {
                return Some(i);
            }
            i = i + 1;
        }
        None
    }

    pub fn contains_key(&self, k: &str) -> (r: bool)
        ensures
            r == self.spec_has_key(k@),
    {
        self.find(k).is_some()
    }

    pub fn get(&self, k: &str) -> (r: Option<&Vec<u8>>)
        ensures
            r matches Some(v) ==> self.spec_has_key(k@) && v@ == self@[key_index(self@, k@)].1,
            r is None ==> !self.spec_has_key(k@),
    {
        match self.find(k) {
            Some(i) => {
                proof {
                    lemma_key_index_at(self@, k@, i as int);
                }
                Some(&self.entries[i].1)
            },
            None => None,
        }
    }

    /// Adds or replaces the payload for `key`; a present key keeps its
    /// position.
    pub fn insert(&mut self, key: String, value: Vec<u8>)
        requires
            old(self).wf(),
        ensures
            final(self).wf(),
            !old(self).spec_has_key(key@) ==> final(self)@ == old(self)@.push((key@, value@)),
            old(self).spec_has_key(key@) ==> final(self)@ == old(self)@.update(
                key_index(old(self)@, key@),
                (key@, value@),
            ),
    {
        let ghost pre = self@;
        match self.find(key.as_str()) {
            Some(i) => {
                proof {
                    lemma_key_index_at(pre, key@, i as int);
                }
                self.entries[i] = (key, value);
                proof {
                    assert(self@ =~= pre.update(i as int, (self@[i as int].0, self@[i as int].1)));
                    assert(self@ =~= pre.update(key_index(pre, key@), (pre[i as int].0, self@[
                        i as int].1)));
                }
            },
            None => {
                self.entries.push((key, value));
                proof {
                    assert(self@ =~= pre.push((key@, value@)));
                }
            },
        }
    }
}

// ---------------------------------------------------------------------
// TagMap: name -> NameList, in insertion order
// ---------------------------------------------------------------------

/// Name lists keyed by a name (a tag's files, or a set's tags), in
/// insertion order with unique keys.
#[derive(Debug, PartialEq, Clone)]
pub struct TagMap {
    entries: Vec<(String, NameList)>,
}

impl View for TagMap {
    type V = Seq<(Seq<char>, Seq<Seq<char>>)>;

    closed spec fn view(&self) -> Seq<(Seq<char>, Seq<Seq<char>>)> {
        Seq::new(self.entries@.len(), |i: int| (self.entries@[i].0@, self.entries@[i].1@))
    }
}

impl TagMap {
    /// Unique keys, and every member list well-formed.
    pub open spec fn wf(&self) -> bool {
        &&& unique_keys(self@)
        &&& forall|i: int| 0 <= i < self@.len() ==> distinct_names(#[trigger] self@[i].1)
    }

    pub open spec fn spec_has_key(&self, k: Seq<char>) -> bool {
        has_key(self@, k)
    }

    pub fn new() -> (r: Self)
        ensures
            r@ == Seq::<(Seq<char>, Seq<Seq<char>>)>::empty(),
            r.wf(),
    {
        let r = TagMap { entries: Vec::new() };
        proof {
            assert(r@ =~= Seq::<(Seq<char>, Seq<Seq<char>>)>::empty());
        }
        r
    }

    pub fn len(&self) -> (r: usize)
        ensures
            r == self@.len(),
    {
        self.entries.len()
    }

    pub fn key_at(&self, i: usize) -> (r: &String)
        requires
            i < self@.len(),
        ensures
            r@ == self@[i as int].0,
    {
        &self.entries[i].0
    }

    pub fn list_at(&self, i: usize) -> (r: &NameList)
        requires
            i < self@.len(),
        ensures
            r@ == self@[i as int].1,
            self.wf() ==> r.wf(),
    {
        proof {
            if self.wf() {
                assert(distinct_names(self@[i as int].1));
            }
        }
        &self.entries[i].1
    }

    fn find(&self, k: &str) -> (r: Option<usize>)
        ensures
            r matches Some(i) ==> (i < self@.len() && self@[i as int].0 == k@ && forall|j: int|
                0 <= j < i ==> self@[j].0 != k@),
            r is None ==> !self.spec_has_key(k@),
    {
        let n = self.entries.len();
        let mut i: usize = 0;
        while i < n
            invariant
                n == self@.len(),
                i <= n,
                forall|j: int| 0 <= j < i ==> self@[j].0 != k@,
            decreases n - i,
        {
            if str_eq(self.entries[i].0.as_str(), k) {
                return Some(i);
            }
            i = i + 1;
        }
        None
    }

    pub fn contains_key(&self, k: &str) -> (r: bool)
        ensures
            r == self.spec_has_key(k@),
    {
        self.find(k).is_some()
    }

    pub fn get(&self, k: &str) -> (r: Option<&NameList>)
        ensures
            r matches Some(v) ==> self.spec_has_key(k@) && v@ == self@[key_index(self@, k@)].1,
            r is None ==> !self.spec_has_key(k@),
            self.wf() ==> (r matches Some(v) ==> v.wf()),
    {
        match self.find(k) {
            Some(i) => {
                proof {
                    lemma_key_index_at(self@, k@, i as int);
                    if self.wf() {
                        assert(distinct_names(self@[i as int].1));
                    }
                }
                Some(&self.entries[i].1)
            },
            None => None,
        }
    }

    /// Adds or replaces the list for `key`; a present key keeps its
    /// position.
    pub fn insert(&mut self, key: String, value: NameList)
        requires
            old(self).wf(),
            value.wf(),
        ensures
            final(self).wf(),
            !old(self).spec_has_key(key@) ==> final(self)@ == old(self)@.push((key@, value@)),
            old(self).spec_has_key(key@) ==> final(self)@ == old(self)@.update(
                key_index(old(self)@, key@),
                (key@, value@),
            ),
    {
        let ghost pre = self@;
        match self.find(key.as_str()) {
            Some(i) => {
                proof {
                    lemma_key_index_at(pre, key@, i as int);
                }
                self.entries[i] = (key, value);
                proof {
                    assert(self@ =~= pre.update(i as int, (self@[i as int].0, self@[i as int].1)));
                }
            },
            None => {
                self.entries.push((key, value));
                proof {
                    assert(self@ =~= pre.push((key@, value@)));
                }
            },
        }
    }
}

} // verus!
