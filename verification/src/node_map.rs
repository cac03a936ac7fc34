//! Ordered collections keyed by node id.
//!
//! [`NodeValueMap`] is an ordered mapping from a node id to a value,
//! used for visibility samples, propagated operability values and
//! per-node statistics.  Entries are kept sorted by id, so two maps
//! hold the same entries exactly when they hold the same mapping;
//! this makes equality of visibility samples checkable entry by entry.
//!
//! [`IdSet`] is a set of node ids with a stable iteration order.

use vstd::prelude::*;

verus! {

use vstd::seq_lib::seq_to_set_is_finite;

/// The mapping described by an entry sequence: a later entry with the
/// same key overrides an earlier one.
pub open spec fn map_of<V>(s: Seq<(u32, V)>) -> Map<u32, V>
    decreases s.len(),
{
    if s.len() == 0 {
        Map::empty()
    } else {
        map_of(s.drop_last()).insert(s.last().0, s.last().1)
    }
}

/// No two entries share a key.
pub open spec fn distinct_keys<V>(s: Seq<(u32, V)>) -> bool {
    forall|i: int, j: int| 0 <= i < j < s.len() ==> (#[trigger] s[i]).0 != (#[trigger] s[j]).0
}

/// Keys are strictly increasing.
pub open spec fn sorted_keys<V>(s: Seq<(u32, V)>) -> bool {
    forall|i: int, j: int| 0 <= i < j < s.len() ==> (#[trigger] s[i]).0 < (#[trigger] s[j]).0
}

pub proof fn lemma_sorted_distinct<V>(s: Seq<(u32, V)>)
    requires
        sorted_keys(s),
    ensures
        distinct_keys(s),
{
}

/// What `map_of` contains: exactly the keys of the entries, each bound
/// to the value its entry carries (assuming the keys are distinct).
pub proof fn lemma_map_of_char<V>(s: Seq<(u32, V)>)
    requires
        distinct_keys(s),
    ensures
        forall|k: u32|
            map_of(s).dom().contains(k) <==> exists|i: int|
                0 <= i < s.len() && (#[trigger] s[i]).0 == k,
        forall|i: int| 0 <= i < s.len() ==> map_of(s)[(#[trigger] s[i]).0] == s[i].1,
        map_of(s).dom().finite(),
        map_of(s).dom().len() == s.len(),
    decreases s.len(),
{
    if s.len() > 0 {
        let dl = s.drop_last();
        lemma_map_of_char(dl);
        assert(forall|i: int| 0 <= i < dl.len() ==> dl[i] == s[i]);
        assert(forall|k: u32|
            map_of(s).dom().contains(k) ==> exists|i: int|
                0 <= i < s.len() && (#[trigger] s[i]).0 == k) by {
            assert forall|k: u32| map_of(s).dom().contains(k) implies exists|i: int|
                0 <= i < s.len() && (#[trigger] s[i]).0 == k by {
                if k == s.last().0 {
                    assert((s[s.len() - 1]).0 == k);
                } else {
                    let i = choose|i: int| 0 <= i < dl.len() && (#[trigger] dl[i]).0 == k;
                    assert((s[i]).0 == k);
                }
            }
        }
        assert(forall|i: int|
            0 <= i < s.len() ==> map_of(s).dom().contains((#[trigger] s[i]).0));
        assert(!map_of(dl).dom().contains(s.last().0));
    }
}

/// Replacing the value of the entry at `i` updates the mapping at that
/// entry's key.
pub proof fn lemma_map_of_update<V>(s: Seq<(u32, V)>, i: int, v: V)
    requires
        distinct_keys(s),
        0 <= i < s.len(),
    ensures
        distinct_keys(s.update(i, (s[i].0, v))),
        map_of(s.update(i, (s[i].0, v))) == map_of(s).insert(s[i].0, v),
{
    let k = s[i].0;
    let t = s.update(i, (k, v));
    assert(forall|j: int| 0 <= j < s.len() && j != i ==> t[j] == s[j]);
    assert(t[i] == (k, v));
    lemma_map_of_char(s);
    lemma_map_of_char(t);
    assert(map_of(t) =~= map_of(s).insert(k, v)) by {
        assert forall|x: u32| map_of(t).dom().contains(x) implies map_of(s).insert(
            k,
            v,
        ).dom().contains(x) by {
            let j = choose|j: int| 0 <= j < t.len() && (#[trigger] t[j]).0 == x;
            if j != i {
                assert(s[j].0 == x);
            }
        }
        assert forall|x: u32| map_of(s).insert(k, v).dom().contains(x) implies map_of(
            t,
        ).dom().contains(x) by {
            if x == k {
                assert(t[i].0 == x);
            } else {
                let j = choose|j: int| 0 <= j < s.len() && (#[trigger] s[j]).0 == x;
                assert(t[j].0 == x);
            }
        }
        assert forall|x: u32| map_of(t).dom().contains(x) implies map_of(t)[x] == map_of(s).insert(
            k,
            v,
        )[x] by {
            let j = choose|j: int| 0 <= j < t.len() && (#[trigger] t[j]).0 == x;
            assert(map_of(t)[x] == t[j].1);
            if j == i {
                assert(x == k);
            } else {
                assert(s[j].0 == x);
                assert(x != k);
                assert(map_of(s)[x] == s[j].1);
            }
        }
    }
}

/// Appending an entry with a fresh key binds that key.
pub proof fn lemma_map_of_push<V>(s: Seq<(u32, V)>, k: u32, v: V)
    requires
        distinct_keys(s),
        forall|j: int| 0 <= j < s.len() ==> (#[trigger] s[j]).0 != k,
    ensures
        distinct_keys(s.push((k, v))),
        map_of(s.push((k, v))) == map_of(s).insert(k, v),
{
    let t = s.push((k, v));
    assert(t.drop_last() =~= s);
    assert(t.last() == (k, v));
    assert(forall|j: int| 0 <= j < s.len() ==> t[j] == s[j]);
}

/// Removing the entry at `i` unbinds that entry's key.
pub proof fn lemma_map_of_remove<V>(s: Seq<(u32, V)>, i: int)
    requires
        distinct_keys(s),
        0 <= i < s.len(),
    ensures
        distinct_keys(s.remove(i)),
        map_of(s.remove(i)) == map_of(s).remove(s[i].0),
{
    let k = s[i].0;
    let t = s.remove(i);
    assert(forall|j: int| 0 <= j < i ==> t[j] == s[j]);
    assert(forall|j: int| i <= j < t.len() ==> t[j] == s[j + 1]);
    assert(distinct_keys(t)) by {
        assert forall|p: int, q: int| 0 <= p < q < t.len() implies (#[trigger] t[p]).0
            != (#[trigger] t[q]).0 by {
            if p < i && q < i {
            } else if p < i {
                assert(t[q] == s[q + 1]);
            } else {
                assert(t[p] == s[p + 1]);
                assert(t[q] == s[q + 1]);
            }
        }
    }
    lemma_map_of_char(s);
    lemma_map_of_char(t);
    assert(map_of(t) =~= map_of(s).remove(k)) by {
        assert forall|x: u32| map_of(t).dom().contains(x) implies map_of(s).remove(
            k,
        ).dom().contains(x) by {
            let j = choose|j: int| 0 <= j < t.len() && (#[trigger] t[j]).0 == x;
            if j < i {
                assert(s[j].0 == x);
                assert(x != k);
            } else {
                assert(s[j + 1].0 == x);
                assert(x != k);
            }
        }
        assert forall|x: u32| map_of(s).remove(k).dom().contains(x) implies map_of(
            t,
        ).dom().contains(x) by {
            let j = choose|j: int| 0 <= j < s.len() && (#[trigger] s[j]).0 == x;
            if j < i {
                assert(t[j].0 == x);
            } else {
                assert(j != i);
                assert(t[j - 1].0 == x);
            }
        }
        assert forall|x: u32| map_of(t).dom().contains(x) implies map_of(t)[x] == map_of(s).remove(
            k,
        )[x] by {
            let j = choose|j: int| 0 <= j < t.len() && (#[trigger] t[j]).0 == x;
            assert(map_of(t)[x] == t[j].1);
            if j < i {
                assert(s[j].0 == x);
                assert(map_of(s)[x] == s[j].1);
            } else {
                assert(s[j + 1].0 == x);
                assert(map_of(s)[x] == s[j + 1].1);
            }
        }
    }
}

/// Sorted entry sequences are canonical: two sorted sequences that
/// describe the same mapping are equal entry by entry.
pub proof fn lemma_map_of_canonical<V>(a: Seq<(u32, V)>, b: Seq<(u32, V)>)
    requires
        sorted_keys(a),
        sorted_keys(b),
        map_of(a) == map_of(b),
    ensures
        a.len() == b.len(),
        forall|i: int| 0 <= i < a.len() ==> (#[trigger] a[i]).0 == b[i].0,
        forall|i: int| 0 <= i < a.len() ==> (#[trigger] a[i]).1 == b[i].1,
    decreases a.len(),
{
    lemma_sorted_distinct(a);
    lemma_sorted_distinct(b);
    lemma_map_of_char(a);
    lemma_map_of_char(b);
    if a.len() == 0 {
        assert(b.len() == map_of(b).dom().len());
    } else {
        assert(b.len() > 0) by {
            assert(map_of(a).dom().contains(a.last().0));
        }
        let ka = a.last().0;
        let kb = b.last().0;
        assert(a[a.len() - 1].0 == ka);
        assert(b[b.len() - 1].0 == kb);
        assert(map_of(b).dom().contains(ka));
        assert(map_of(a).dom().contains(kb));
        // each last key is the maximum of the (shared) domain
        assert(ka <= kb) by {
            let i = choose|i: int| 0 <= i < b.len() && (#[trigger] b[i]).0 == ka;
            if i < b.len() - 1 {
                assert(b[i].0 < b[b.len() - 1].0);
            }
        }
        assert(kb <= ka) by {
            let i = choose|i: int| 0 <= i < a.len() && (#[trigger] a[i]).0 == kb;
            if i < a.len() - 1 {
                assert(a[i].0 < a[a.len() - 1].0);
            }
        }
        assert(a.last().1 == b.last().1) by {
            assert(map_of(a)[ka] == a.last().1);
            assert(map_of(b)[kb] == b.last().1);
        }
        let adl = a.drop_last();
        let bdl = b.drop_last();
        lemma_sorted_distinct(adl);
        lemma_sorted_distinct(bdl);
        lemma_map_of_char(adl);
        lemma_map_of_char(bdl);
        assert(map_of(adl) == map_of(bdl)) by {
            assert(!map_of(adl).dom().contains(ka));
            assert(!map_of(bdl).dom().contains(kb));
            assert(map_of(adl) =~= map_of(a).remove(ka));
            assert(map_of(bdl) =~= map_of(b).remove(kb));
        }
        lemma_map_of_canonical(adl, bdl);
        assert(forall|i: int| 0 <= i < a.len() - 1 ==> a[i] == adl[i] && b[i] == bdl[i]);
    }
}

/// An ordered mapping from node id to a value, such as a visibility
/// flag or a propagated operability value.
#[derive(Debug)]
pub struct NodeValueMap<V> {
    entries: Vec<(u32, V)>,
}

impl<V> View for NodeValueMap<V> {
    type V = Map<u32, V>;

    closed spec fn view(&self) -> Map<u32, V> {
        map_of(self.entries@)
    }
}

impl<V: Copy> NodeValueMap<V> {
    /// Entries are sorted strictly by id.
    pub closed spec fn wf(self) -> bool {
        sorted_keys(self.entries@)
    }

    /// The entry sequence, for iteration.
    pub closed spec fn eseq(self) -> Seq<(u32, V)> {
        self.entries@
    }

    /// How the entry sequence and the mapping relate.
    pub proof fn lemma_entries(&self)
        requires
            self.wf(),
        ensures
            sorted_keys(self.eseq()),
            forall|k: u32|
                self@.dom().contains(k) <==> exists|i: int|
                    0 <= i < self.eseq().len() && (#[trigger] self.eseq()[i]).0 == k,
            forall|i: int|
                0 <= i < self.eseq().len() ==> self@[(#[trigger] self.eseq()[i]).0]
                    == self.eseq()[i].1,
            self@.dom().finite(),
            self@.dom().len() == self.eseq().len(),
    {
        lemma_sorted_distinct(self.entries@);
        lemma_map_of_char(self.entries@);
    }

    pub fn new() -> (m: Self)
        ensures
            m.wf(),
            m@ == Map::<u32, V>::empty(),
            m.eseq() == Seq::<(u32, V)>::empty(),
    {
        NodeValueMap { entries: Vec::new() }
    }

    pub fn entry_len(&self) -> (n: usize)
        ensures
            n == self.eseq().len(),
    {
        self.entries.len()
    }

    pub fn entry_at(&self, i: usize) -> (e: (u32, V))
        requires
            i < self.eseq().len(),
        ensures
            e == self.eseq()[i as int],
    {
        self.entries[i]
    }

    /// The value bound to `id`, if any.
    pub fn get(&self, id: u32) -> (r: Option<V>)
        requires
            self.wf(),
        ensures
            r == if self@.dom().contains(id) {
                Some(self@[id])
            } else {
                None::<V>
            },
    {
        proof {
            self.lemma_entries();
        }
        let n = self.entries.len();
        let mut i: usize = 0;
        while i < n
            invariant
                n == self.eseq().len(),
                i <= n,
                self.wf(),
                forall|j: int| 0 <= j < i ==> (#[trigger] self.eseq()[j]).0 != id,
            decreases n - i,
        {
            proof {
                self.lemma_entries();
            }
            if self.entries[i].0 == id {
                return Some(self.entries[i].1);
            }
            i += 1;
        }
        proof {
            self.lemma_entries();
        }
        None
    }

    /// Binds `id` to `v`, replacing any existing binding.
    pub fn insert(&mut self, id: u32, v: V)
        requires
            old(self).wf(),
        ensures
            final(self).wf(),
            final(self)@ == old(self)@.insert(id, v),
    {
        let n = self.entries.len();
        let mut i: usize = 0;
        while i < n && self.entries[i].0 < id
            invariant
                self == old(self),
                n == self.entries@.len(),
                i <= n,
                forall|j: int| 0 <= j < i ==> (#[trigger] self.entries@[j]).0 < id,
            decreases n - i,
        {
            i += 1;
        }
        let ghost olds = self.entries@;
        if i < n && self.entries[i].0 == id {
            self.entries.remove(i);
            self.entries.insert(i, (id, v));
            proof {
                assert(self.entries@ =~= olds.update(i as int, (id, v)));
                assert(sorted_keys(self.entries@)) by {
                    assert(forall|j: int|
                        0 <= j < olds.len() && j != i ==> self.entries@[j] == olds[j]);
                }
                lemma_sorted_distinct(olds);
                lemma_map_of_char(olds);
                lemma_sorted_distinct(self.entries@);
                lemma_map_of_char(self.entries@);
                assert(map_of(self.entries@) =~= map_of(olds).insert(id, v)) by {
                    assert forall|k: u32| map_of(self.entries@).dom().contains(k) implies
                        map_of(olds).insert(id, v).dom().contains(k) by {
                        let j = choose|j: int|
                            0 <= j < self.entries@.len() && (#[trigger] self.entries@[j]).0 == k;
                        if j != i {
                            assert(olds[j].0 == k);
                        }
                    }
                    assert forall|k: u32| map_of(olds).insert(id, v).dom().contains(k) implies
                        map_of(self.entries@).dom().contains(k) by {
                        if k != id {
                            let j = choose|j: int|
                                0 <= j < olds.len() && (#[trigger] olds[j]).0 == k;
                            assert(self.entries@[j].0 == k);
                        } else {
                            assert(self.entries@[i as int].0 == id);
                        }
                    }
                    assert forall|k: u32| map_of(self.entries@).dom().contains(k) implies
                        map_of(self.entries@)[k] == map_of(olds).insert(id, v)[k] by {
                        let j = choose|j: int|
                            0 <= j < self.entries@.len() && (#[trigger] self.entries@[j]).0 == k;
                        assert(map_of(self.entries@)[k] == self.entries@[j].1);
                        if j == i {
                            assert(k == id);
                        } else {
                            assert(olds[j].0 == k);
                            assert(k != id);
                            assert(map_of(olds)[k] == olds[j].1);
                        }
                    }
                }
            }
        } else {
            self.entries.insert(i, (id, v));
            proof {
                assert(i < olds.len() ==> olds[i as int].0 > id);
                assert(forall|j: int| 0 <= j < i ==> self.entries@[j] == olds[j]);
                assert(self.entries@[i as int] == (id, v));
                assert(forall|j: int|
                    i < j < self.entries@.len() ==> self.entries@[j] == olds[j - 1]);
                assert(sorted_keys(self.entries@)) by {
                    assert forall|p: int, q: int|
                        0 <= p < q < self.entries@.len() implies (#[trigger] self.entries@[p]).0
                        < (#[trigger] self.entries@[q]).0 by {
                        if p < i && q > i {
                            assert(self.entries@[p].0 < id);
                            assert(olds[q - 1].0 > id) by {
                                if q - 1 > i {
                                    assert(olds[i as int].0 < olds[q - 1].0);
                                }
                            }
                        }
                    }
                }
                lemma_sorted_distinct(olds);
                lemma_map_of_char(olds);
                lemma_sorted_distinct(self.entries@);
                lemma_map_of_char(self.entries@);
                assert(map_of(self.entries@) =~= map_of(olds).insert(id, v)) by {
                    assert forall|k: u32| map_of(self.entries@).dom().contains(k) implies
                        map_of(olds).insert(id, v).dom().contains(k) by {
                        let j = choose|j: int|
                            0 <= j < self.entries@.len() && (#[trigger] self.entries@[j]).0 == k;
                        if j < i {
                            assert(olds[j].0 == k);
                        } else if j > i {
                            assert(olds[j - 1].0 == k);
                        }
                    }
                    assert forall|k: u32| map_of(olds).insert(id, v).dom().contains(k) implies
                        map_of(self.entries@).dom().contains(k) by {
                        if k != id {
                            let j = choose|j: int|
                                0 <= j < olds.len() && (#[trigger] olds[j]).0 == k;
                            if j < i {
                                assert(self.entries@[j].0 == k);
                            } else {
                                assert(self.entries@[j + 1].0 == k);
                            }
                        } else {
                            assert(self.entries@[i as int].0 == id);
                        }
                    }
                    assert forall|k: u32| map_of(self.entries@).dom().contains(k) implies
                        map_of(self.entries@)[k] == map_of(olds).insert(id, v)[k] by {
                        let j = choose|j: int|
                            0 <= j < self.entries@.len() && (#[trigger] self.entries@[j]).0 == k;
                        assert(map_of(self.entries@)[k] == self.entries@[j].1);
                        if j == i {
                            assert(k == id);
                        } else if j < i {
                            assert(olds[j].0 == k);
                            assert(k != id);
                            assert(map_of(olds)[k] == olds[j].1);
                        } else {
                            assert(olds[j - 1].0 == k);
                            assert(k != id) by {
                                assert(olds[j - 1].0 >= olds[i as int].0 > id || j - 1 == i);
                                if j - 1 == i {
                                    assert(olds[i as int].0 > id);
                                }
                            }
                            assert(map_of(olds)[k] == olds[j - 1].1);
                        }
                    }
                }
            }
        }
    }

    /// An independent copy with the same entries.
    pub fn duplicate(&self) -> (r: Self)
        requires
            self.wf(),
        ensures
            r.wf(),
            r@ == self@,
            r.eseq() == self.eseq(),
    {
        let n = self.entries.len();
        let mut entries: Vec<(u32, V)> = Vec::new();
        let mut i: usize = 0;
        while i < n
            invariant
                n == self.eseq().len(),
                i <= n,
                entries@ == self.eseq().take(i as int),
            decreases n - i,
        {
            entries.push(self.entries[i]);
            proof {
                assert(entries@ =~= self.eseq().take(i + 1));
            }
            i += 1;
        }
        proof {
            assert(self.eseq().take(n as int) =~= self.eseq());
        }
        NodeValueMap { entries }
    }
}

impl NodeValueMap<u8> {
    /// Whether two maps hold the same mapping; because entries are
    /// sorted, this is an entry-by-entry comparison.
    pub fn same_entries(&self, other: &Self) -> (r: bool)
        requires
            self.wf(),
            other.wf(),
        ensures
            r == (self@ == other@),
    {
        proof {
            self.lemma_entries();
            other.lemma_entries();
        }
        let n = self.entries.len();
        if n != other.entries.len() {
            proof {
                if self@ == other@ {
                    lemma_map_of_canonical(self.entries@, other.entries@);
                }
            }
            return false;
        }
        let mut i: usize = 0;
        while i < n
            invariant
                self.wf(),
                other.wf(),
                n == self.eseq().len(),
                n == other.eseq().len(),
                i <= n,
                forall|j: int|
                    0 <= j < i ==> (#[trigger] self.eseq()[j]).0 == other.eseq()[j].0
                        && self.eseq()[j].1 == other.eseq()[j].1,
            decreases n - i,
        {
            let a = self.entries[i];
            let b = other.entries[i];
            if a.0 != b.0 || a.1 != b.1 {
                proof {
                    if self@ == other@ {
                        lemma_map_of_canonical(self.entries@, other.entries@);
                    }
                }
                return false;
            }
            i += 1;
        }
        proof {
            lemma_sorted_distinct(self.entries@);
            lemma_map_of_char(self.entries@);
            lemma_sorted_distinct(other.entries@);
            lemma_map_of_char(other.entries@);
            assert(self@ =~= other@) by {
                assert forall|k: u32| self@.dom().contains(k) implies other@.dom().contains(k) by {
                    let j = choose|j: int|
                        0 <= j < self.eseq().len() && (#[trigger] self.eseq()[j]).0 == k;
                    assert(other.eseq()[j].0 == k);
                }
                assert forall|k: u32| other@.dom().contains(k) implies self@.dom().contains(k) by {
                    let j = choose|j: int|
                        0 <= j < other.eseq().len() && (#[trigger] other.eseq()[j]).0 == k;
                    assert(self.eseq()[j].0 == k);
                }
                assert forall|k: u32| self@.dom().contains(k) implies self@[k] == other@[k] by {
                    let j = choose|j: int|
                        0 <= j < self.eseq().len() && (#[trigger] self.eseq()[j]).0 == k;
                    assert(self@[k] == self.eseq()[j].1);
                    assert(other.eseq()[j].0 == k);
                    assert(other@[k] == other.eseq()[j].1);
                }
            }
        }
        true
    }
}

/// A set of node ids with a stable iteration order.
#[derive(Debug, Clone)]
pub struct IdSet {
    ids: Vec<u32>,
}

impl View for IdSet {
    type V = Set<u32>;

    closed spec fn view(&self) -> Set<u32> {
        self.ids@.to_set()
    }
}

impl IdSet {
    /// The ids are pairwise distinct.
    pub closed spec fn wf(self) -> bool {
        self.ids@.no_duplicates()
    }

    /// The ids in iteration order.
    pub closed spec fn id_seq(self) -> Seq<u32> {
        self.ids@
    }

    /// How the id sequence and the set relate.
    pub proof fn lemma_ids(&self)
        requires
            self.wf(),
        ensures
            self.id_seq().no_duplicates(),
            forall|x: u32| self@.contains(x) <==> self.id_seq().contains(x),
            self@.finite(),
            self@.len() == self.id_seq().len(),
    {
        broadcast use seq_to_set_is_finite;

        self.ids@.unique_seq_to_set();
    }

    pub fn new() -> (s: Self)
        ensures
            s.wf(),
            s@ == Set::<u32>::empty(),
            s.id_seq() == Seq::<u32>::empty(),
    {
        let r = IdSet { ids: Vec::new() };
        proof {
            assert(r@ =~= Set::<u32>::empty());
        }
        r
    }

    pub fn len(&self) -> (n: usize)
        requires
            self.wf(),
        ensures
            n == self.id_seq().len(),
            n == self@.len(),
    {
        proof {
            self.lemma_ids();
        }
        self.ids.len()
    }

    pub fn idx(&self, i: usize) -> (r: u32)
        requires
            i < self.id_seq().len(),
        ensures
            r == self.id_seq()[i as int],
    {
        self.ids[i]
    }

    pub fn contains(&self, id: u32) -> (r: bool)
        requires
            self.wf(),
        ensures
            r == self@.contains(id),
    {
        let n = self.ids.len();
        let mut i: usize = 0;
        while i < n
            invariant
                n == self.id_seq().len(),
                i <= n,
                forall|j: int| 0 <= j < i ==> self.id_seq()[j] != id,
            decreases n - i,
        {
            if self.ids[i] == id {
                return true;
            }
            i += 1;
        }
        proof {
            assert(!self.ids@.contains(id));
        }
        false
    }

    /// Adds `id` to the set; adding an id that is already present
    /// leaves the set unchanged.
    pub fn insert(&mut self, id: u32)
        requires
            old(self).wf(),
        ensures
            final(self).wf(),
            final(self)@ == old(self)@.insert(id),
            final(self).id_seq() == if old(self)@.contains(id) {
                old(self).id_seq()
            } else {
                old(self).id_seq().push(id)
            },
    {
        if !self.contains(id) {
            self.ids.push(id);
            proof {
                let olds = old(self).ids@;
                assert(self.ids@ == olds.push(id));
                assert(forall|j: int| 0 <= j < olds.len() ==> olds[j] != id);
                assert(forall|j: int| 0 <= j < olds.len() ==> self.ids@[j] == olds[j]);
                assert(self.ids@[olds.len() as int] == id);
                assert(self@ =~= old(self)@.insert(id)) by {
                    assert forall|x: u32| self@.contains(x) implies old(self)@.insert(id).contains(
                        x,
                    ) by {
                        let i = choose|i: int| 0 <= i < self.ids@.len() && self.ids@[i] == x;
                        if i < olds.len() {
                            assert(olds[i] == x);
                            assert(olds.contains(x));
                        }
                    }
                    assert forall|x: u32| old(self)@.insert(id).contains(x) implies self@.contains(
                        x,
                    ) by {
                        if x == id {
                            assert(self.ids@[olds.len() as int] == x);
                        } else {
                            let i = choose|i: int| 0 <= i < olds.len() && olds[i] == x;
                            assert(self.ids@[i] == x);
                        }
                    }
                }
            }
        } else {
            proof {
                assert(self == old(self));
                assert(old(self)@.contains(id));
                assert(self@ =~= old(self)@.insert(id));
            }
        }
    }

    /// An independent copy with the same ids.
    pub fn duplicate(&self) -> (r: Self)
        requires
            self.wf(),
        ensures
            r.wf(),
            r@ == self@,
            r.id_seq() == self.id_seq(),
    {
        let n = self.ids.len();
        let mut ids: Vec<u32> = Vec::new();
        let mut i: usize = 0;
        while i < n
            invariant
                n == self.id_seq().len(),
                i <= n,
                ids@ == self.id_seq().take(i as int),
            decreases n - i,
        {
            ids.push(self.ids[i]);
            proof {
                assert(ids@ =~= self.id_seq().take(i + 1));
            }
            i += 1;
        }
        proof {
            assert(self.id_seq().take(n as int) =~= self.id_seq());
        }
        IdSet { ids }
    }
}

} // verus!
