//! The tag index and its graph-consistency cleaner.
//!
//! The tag index maps tag names to sets of object-file paths and set
//! names to sets of tag names.  Cleaning prunes it in four strictly
//! ordered phases: drop file paths that are not object files, drop tags
//! left empty, drop tag names that no longer exist, drop sets left
//! empty.  A tag emptied by the second phase counts as nonexistent for
//! the third, so the phases must not be reordered.

use vstd::prelude::*;
use crate::containers::{FileStore, NameList, TagMap, has_key, key_set};

verus! {

/// Names of `items` that lie in `keep`, in their original order.
pub open spec fn keep_names(items: Seq<Seq<char>>, keep: Set<Seq<char>>) -> Seq<Seq<char>>
    decreases items.len(),
{
    if items.len() == 0 {
        Seq::empty()
    } else {
        let rest = keep_names(items.drop_first(), keep);
        if keep.contains(items[0]) {
            seq![items[0]] + rest
        } else {
            rest
        }
    }
}

/// Each entry's name list filtered to `keep`; entries left empty are
/// dropped.  Entry order is preserved.
pub open spec fn spec_clean_entries(
    entries: Seq<(Seq<char>, Seq<Seq<char>>)>,
    keep: Set<Seq<char>>,
) -> Seq<(Seq<char>, Seq<Seq<char>>)>
    decreases entries.len(),
{
    if entries.len() == 0 {
        Seq::empty()
    } else {
        let kept = keep_names(entries[0].1, keep);
        let rest = spec_clean_entries(entries.drop_first(), keep);
        if kept.len() > 0 {
            seq![(entries[0].0, kept)] + rest
        } else {
            rest
        }
    }
}

/// Mathematical image of a [`Tags`] value.
pub struct TagsV {
    pub tags: Seq<(Seq<char>, Seq<Seq<char>>)>,
    pub sets: Seq<(Seq<char>, Seq<Seq<char>>)>,
}

/// The whole cleaning pass: prune tag file lists against the object
/// files and drop empty tags, then prune set member lists against the
/// surviving tags and drop empty sets.
pub open spec fn spec_clean(tv: TagsV, objects: Set<Seq<char>>) -> TagsV {
    let tags2 = spec_clean_entries(tv.tags, objects);
    TagsV { tags: tags2, sets: spec_clean_entries(tv.sets, key_set(tags2)) }
}

/// The two-level tag index of a pack.
#[derive(Debug, PartialEq, Clone)]
pub struct Tags {
    pub tags: TagMap,
    pub sets: TagMap,
}

impl View for Tags {
    type V = TagsV;

    open spec fn view(&self) -> TagsV {
        TagsV { tags: self.tags@, sets: self.sets@ }
    }
}

impl Tags {
    pub open spec fn wf(&self) -> bool {
        self.tags.wf() && self.sets.wf()
    }

    /// An empty tag index, the default for archives without one.
    pub fn new() -> (r: Self)
        ensures
            r@.tags == Seq::<(Seq<char>, Seq<Seq<char>>)>::empty(),
            r@.sets == Seq::<(Seq<char>, Seq<Seq<char>>)>::empty(),
            r.wf(),
    {
        Tags { tags: TagMap::new(), sets: TagMap::new() }
    }

    /// Prunes the index against the given object files, in the four
    /// ordered phases.
    pub fn clean(&mut self, objects: &FileStore)
        requires
            old(self).wf(),
        ensures
            final(self).wf(),
            final(self)@ == spec_clean(old(self)@, key_set(objects@)),
    {
        let new_tags = clean_map_by_files(&self.tags, objects);
        let new_sets = clean_map_by_keys(&self.sets, &new_tags);
        self.tags = new_tags;
        self.sets = new_sets;
    }
}

// ---------------------------------------------------------------------
// Executable cleaning passes
// ---------------------------------------------------------------------

/// Unfolds `keep_names` one position into `items`.
proof fn lemma_keep_names_step(items: Seq<Seq<char>>, keep: Set<Seq<char>>, i: int)
    requires
        0 <= i < items.len(),
    ensures
        keep_names(items.skip(i), keep) == if keep.contains(items[i]) {
            seq![items[i]] + keep_names(items.skip(i + 1), keep)
        } else {
            keep_names(items.skip(i + 1), keep)
        },
{
    assert(items.skip(i).drop_first() =~= items.skip(i + 1));
    assert(items.skip(i)[0] == items[i]);
}

/// Unfolds `spec_clean_entries` one position into `entries`.
proof fn lemma_clean_entries_step(
    entries: Seq<(Seq<char>, Seq<Seq<char>>)>,
    keep: Set<Seq<char>>,
    i: int,
)
    requires
        0 <= i < entries.len(),
    ensures
        spec_clean_entries(entries.skip(i), keep) == ({
            let kept = keep_names(entries[i].1, keep);
            let rest = spec_clean_entries(entries.skip(i + 1), keep);
            if kept.len() > 0 {
                seq![(entries[i].0, kept)] + rest
            } else {
                rest
            }
        }),
{
    assert(entries.skip(i).drop_first() =~= entries.skip(i + 1));
    assert(entries.skip(i)[0] == entries[i]);
}

/// Every name kept was already present.
proof fn lemma_keep_names_sub(items: Seq<Seq<char>>, keep: Set<Seq<char>>)
    ensures
        forall|x: Seq<char>|
            #[trigger] keep_names(items, keep).contains(x) ==> items.contains(x) && keep.contains(
                x,
            ),
    decreases items.len(),
{
    if items.len() > 0 {
        lemma_keep_names_sub(items.drop_first(), keep);
        assert forall|x: Seq<char>| #[trigger]
            keep_names(items, keep).contains(x) implies items.contains(x) && keep.contains(x) by {
            let kept = keep_names(items, keep);
            let rest = keep_names(items.drop_first(), keep);
            if keep.contains(items[0]) && x == items[0] {
                assert(items[0] == items.drop_first().push(items[0])[items.len() - 1]);
                assert(items.contains(x));
            } else {
                assert(rest.contains(x));
                assert(items.drop_first().contains(x));
                let j = choose|j: int|
                    0 <= j < items.drop_first().len() && items.drop_first()[j] == x;
                assert(items[j + 1] == x);
            }
        }
    }
}

/// Filtering preserves distinctness.
proof fn lemma_keep_names_distinct(items: Seq<Seq<char>>, keep: Set<Seq<char>>)
    requires
        crate::containers::distinct_names(items),
    ensures
        crate::containers::distinct_names(keep_names(items, keep)),
    decreases items.len(),
{
    if items.len() > 0 {
        assert forall|i: int, j: int|
            0 <= i < j < items.drop_first().len() implies items.drop_first()[i]
            != items.drop_first()[j] by {
            assert(items[i + 1] != items[j + 1]);
        }
        lemma_keep_names_distinct(items.drop_first(), keep);
        lemma_keep_names_sub(items.drop_first(), keep);
        if keep.contains(items[0]) {
            let rest = keep_names(items.drop_first(), keep);
            assert forall|i: int, j: int|
                0 <= i < j < keep_names(items, keep).len() implies keep_names(items, keep)[i]
                != keep_names(items, keep)[j] by {
                if i == 0 {
                    assert(rest.contains(rest[j - 1]));
                    assert(items.drop_first().contains(rest[j - 1]));
                    let m = choose|m: int|
                        0 <= m < items.drop_first().len() && items.drop_first()[m] == rest[j - 1];
                    assert(items[m + 1] == rest[j - 1]);
                    assert(items[0] != items[m + 1]);
                }
            }
        }
    }
}

/// The file paths of `l` that are keys of `objects`, in order.
fn keep_files(l: &NameList, objects: &FileStore) -> (r: NameList)
    requires
        l.wf(),
    ensures
        r.wf(),
        r@ == keep_names(l@, key_set(objects@)),
{
    let ghost keep = key_set(objects@);
    let mut r = NameList::new();
    let n = l.len();
    let mut i: usize = 0;
    proof {
        assert(l@.skip(0) =~= l@);
    }
    while i < n
        invariant
            l.wf(),
            r.wf(),
            i <= n,
            n == l@.len(),
            keep == key_set(objects@),
            keep_names(l@, keep) == r@ + keep_names(l@.skip(i as int), keep),
            forall|x: Seq<char>| #[trigger] r@.contains(x) ==> exists|j: int|
                0 <= j < i && l@[j] == x,
        decreases n - i,
    {
        let ghost pre = r@;
        proof {
            lemma_keep_names_step(l@, keep, i as int);
        }
        if objects.contains_key(l.get_at(i).as_str()) {
            proof {
                assert(keep.contains(l@[i as int]));
                if r@.contains(l@[i as int]) {
                    let j = choose|j: int| 0 <= j < i && l@[j] == l@[i as int];
                    assert(false);
                }
            }
            r.insert(l.get_at(i).clone());
            proof {
                assert(pre + keep_names(l@.skip(i as int), keep) =~= (pre.push(l@[i as int]))
                    + keep_names(l@.skip(i as int + 1), keep));
                assert forall|x: Seq<char>| #[trigger] r@.contains(x) implies exists|j: int|
                    0 <= j <= i && l@[j] == x by {
                    let m = choose|m: int| 0 <= m < r@.len() && r@[m] == x;
                    if m < pre.len() {
                        assert(pre.contains(x));
                    } else {
                        assert(l@[i as int] == x);
                    }
                }
            }
        } else {
            proof {
                assert(!keep.contains(l@[i as int]));
            }
        }
        i = i + 1;
    }
    proof {
        assert(l@.skip(n as int) =~= Seq::<Seq<char>>::empty());
        assert(keep_names(l@, keep) =~= r@);
    }
    r
}

/// The tag names of `l` that are keys of `m`, in order.
fn keep_keys(l: &NameList, m: &TagMap) -> (r: NameList)
    requires
        l.wf(),
    ensures
        r.wf(),
        r@ == keep_names(l@, key_set(m@)),
{
    let ghost keep = key_set(m@);
    let mut r = NameList::new();
    let n = l.len();
    let mut i: usize = 0;
    proof {
        assert(l@.skip(0) =~= l@);
    }
    while i < n
        invariant
            l.wf(),
            r.wf(),
            i <= n,
            n == l@.len(),
            keep == key_set(m@),
            keep_names(l@, keep) == r@ + keep_names(l@.skip(i as int), keep),
            forall|x: Seq<char>| #[trigger] r@.contains(x) ==> exists|j: int|
                0 <= j < i && l@[j] == x,
        decreases n - i,
    {
        let ghost pre = r@;
        proof {
            lemma_keep_names_step(l@, keep, i as int);
        }
        if m.contains_key(l.get_at(i).as_str()) {
            proof {
                assert(keep.contains(l@[i as int]));
                if r@.contains(l@[i as int]) {
                    let j = choose|j: int| 0 <= j < i && l@[j] == l@[i as int];
                    assert(false);
                }
            }
            r.insert(l.get_at(i).clone());
            proof {
                assert(pre + keep_names(l@.skip(i as int), keep) =~= (pre.push(l@[i as int]))
                    + keep_names(l@.skip(i as int + 1), keep));
                assert forall|x: Seq<char>| #[trigger] r@.contains(x) implies exists|j: int|
                    0 <= j <= i && l@[j] == x by {
                    let m2 = choose|m2: int| 0 <= m2 < r@.len() && r@[m2] == x;
                    if m2 < pre.len() {
                        assert(pre.contains(x));
                    } else {
                        assert(l@[i as int] == x);
                    }
                }
            }
        } else {
            proof {
                assert(!keep.contains(l@[i as int]));
            }
        }
        i = i + 1;
    }
    proof {
        assert(l@.skip(n as int) =~= Seq::<Seq<char>>::empty());
        assert(keep_names(l@, keep) =~= r@);
    }
    r
}

/// Phases one and two: prune every tag's file list against the object
/// files, dropping tags left empty.
fn clean_map_by_files(m: &TagMap, objects: &FileStore) -> (r: TagMap)
    requires
        m.wf(),
    ensures
        r.wf(),
        r@ == spec_clean_entries(m@, key_set(objects@)),
{
    let ghost keep = key_set(objects@);
    let mut r = TagMap::new();
    let n = m.len();
    let mut i: usize = 0;
    proof {
        assert(m@.skip(0) =~= m@);
    }
    while i < n
        invariant
            m.wf(),
            r.wf(),
            i <= n,
            n == m@.len(),
            keep == key_set(objects@),
            spec_clean_entries(m@, keep) == r@ + spec_clean_entries(m@.skip(i as int), keep),
            forall|k: Seq<char>| #[trigger]
                has_key(r@, k) ==> exists|j: int| 0 <= j < i && m@[j].0 == k,
        decreases n - i,
    {
        let ghost pre = r@;
        proof {
            lemma_clean_entries_step(m@, keep, i as int);
        }
        let kept = keep_files(m.list_at(i), objects);
        if kept.len() > 0 {
            proof {
                if has_key(r@, m@[i as int].0) {
                    let j = choose|j: int| 0 <= j < i && m@[j].0 == m@[i as int].0;
                    assert(false);
                }
            }
            r.insert(m.key_at(i).clone(), kept);
            proof {
                assert(pre + spec_clean_entries(m@.skip(i as int), keep) =~= r@
                    + spec_clean_entries(m@.skip(i as int + 1), keep));
                assert forall|k: Seq<char>| #[trigger] has_key(r@, k) implies exists|j: int|
                    0 <= j <= i && m@[j].0 == k by {
                    let p = choose|p: int| 0 <= p < r@.len() && r@[p].0 == k;
                    if p < pre.len() {
                        assert(has_key(pre, k));
                    } else {
                        assert(m@[i as int].0 == k);
                    }
                }
            }
        }
        i = i + 1;
    }
    proof {
        assert(m@.skip(n as int) =~= Seq::<(Seq<char>, Seq<Seq<char>>)>::empty());
        assert(spec_clean_entries(m@, keep) =~= r@);
    }
    r
}

/// Phases three and four: prune every set's tag list against the keys of
/// the pruned tag map, dropping sets left empty.
fn clean_map_by_keys(m: &TagMap, tags: &TagMap) -> (r: TagMap)
    requires
        m.wf(),
    ensures
        r.wf(),
        r@ == spec_clean_entries(m@, key_set(tags@)),
{
    let ghost keep = key_set(tags@);
    let mut r = TagMap::new();
    let n = m.len();
    let mut i: usize = 0;
    proof {
        assert(m@.skip(0) =~= m@);
    }
    while i < n
        invariant
            m.wf(),
            r.wf(),
            i <= n,
            n == m@.len(),
            keep == key_set(tags@),
            spec_clean_entries(m@, keep) == r@ + spec_clean_entries(m@.skip(i as int), keep),
            forall|k: Seq<char>| #[trigger]
                has_key(r@, k) ==> exists|j: int| 0 <= j < i && m@[j].0 == k,
        decreases n - i,
    {
        let ghost pre = r@;
        proof {
            lemma_clean_entries_step(m@, keep, i as int);
        }
        let kept = keep_keys(m.list_at(i), tags);
        if kept.len() > 0 {
            proof {
                if has_key(r@, m@[i as int].0) {
                    let j = choose|j: int| 0 <= j < i && m@[j].0 == m@[i as int].0;
                    assert(false);
                }
            }
            r.insert(m.key_at(i).clone(), kept);
            proof {
                assert(pre + spec_clean_entries(m@.skip(i as int), keep) =~= r@
                    + spec_clean_entries(m@.skip(i as int + 1), keep));
                assert forall|k: Seq<char>| #[trigger] has_key(r@, k) implies exists|j: int|
                    0 <= j <= i && m@[j].0 == k by {
                    let p = choose|p: int| 0 <= p < r@.len() && r@[p].0 == k;
                    if p < pre.len() {
                        assert(has_key(pre, k));
                    } else {
                        assert(m@[i as int].0 == k);
                    }
                }
            }
        }
        i = i + 1;
    }
    proof {
        assert(m@.skip(n as int) =~= Seq::<(Seq<char>, Seq<Seq<char>>)>::empty());
        assert(spec_clean_entries(m@, keep) =~= r@);
    }
    r
}

// ---------------------------------------------------------------------
// Cleaner laws
// ---------------------------------------------------------------------

/// Keeping names already kept changes nothing.
proof fn lemma_keep_names_idempotent(items: Seq<Seq<char>>, keep: Set<Seq<char>>)
    ensures
        keep_names(keep_names(items, keep), keep) == keep_names(items, keep),
    decreases items.len(),
{
    if items.len() > 0 {
        lemma_keep_names_idempotent(items.drop_first(), keep);
        if keep.contains(items[0]) {
            let rest = keep_names(items.drop_first(), keep);
            let whole = seq![items[0]] + rest;
            assert(whole[0] == items[0]);
            assert(whole.drop_first() =~= rest);
            assert(keep_names(whole, keep) =~= seq![items[0]] + keep_names(rest, keep));
        }
    }
}

/// Cleaning entries already cleaned changes nothing.
proof fn lemma_clean_entries_idempotent(
    entries: Seq<(Seq<char>, Seq<Seq<char>>)>,
    keep: Set<Seq<char>>,
)
    ensures
        spec_clean_entries(spec_clean_entries(entries, keep), keep) == spec_clean_entries(
            entries,
            keep,
        ),
    decreases entries.len(),
{
    if entries.len() > 0 {
        lemma_clean_entries_idempotent(entries.drop_first(), keep);
        let kept = keep_names(entries[0].1, keep);
        let rest = spec_clean_entries(entries.drop_first(), keep);
        if kept.len() > 0 {
            let whole = seq![(entries[0].0, kept)] + rest;
            assert(whole[0] == (entries[0].0, kept));
            assert(whole.drop_first() =~= rest);
            lemma_keep_names_idempotent(entries[0].1, keep);
            assert(spec_clean_entries(whole, keep) =~= seq![(entries[0].0, kept)]
                + spec_clean_entries(rest, keep));
        }
    }
}

/// Cleaning a tag index twice against the same object files equals
/// cleaning it once.
pub proof fn lemma_clean_idempotent(tv: TagsV, objects: Set<Seq<char>>)
    ensures
        spec_clean(spec_clean(tv, objects), objects) == spec_clean(tv, objects),
{
    let once = spec_clean(tv, objects);
    lemma_clean_entries_idempotent(tv.tags, objects);
    lemma_clean_entries_idempotent(tv.sets, key_set(once.tags));
    assert(spec_clean(once, objects).tags == once.tags);
    assert(spec_clean(once, objects).sets == once.sets);
    assert(spec_clean(once, objects) == once);
}

} // verus!
