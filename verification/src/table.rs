//! A small keyed table and the monotone counter built on it.
//!
//! The aggregator's read-models index by numeric identifiers (roads,
//! intersections, routes, stops, trips). `Table` keeps one value per key,
//! in first-insertion order; `Counter` counts occurrences per key, always
//! available in one lookup so that "count as of now" never needs a log
//! scan.

use vstd::prelude::*;

verus! {

/// The value the table holds for a key: the first (and only) entry whose
/// key matches.
pub open spec fn spec_table_get<V>(keys: Seq<usize>, vals: Seq<V>, k: usize) -> Option<V>
    decreases keys.len(),
{
    if keys.len() == 0 || vals.len() == 0 {
        None
    } else if keys.first() == k {
        Some(vals.first())
    } else {
        spec_table_get(keys.drop_first(), vals.drop_first(), k)
    }
}

/// One value per key, in first-insertion order.
pub struct Table<V> {
    pub keys: Vec<usize>,
    pub vals: Vec<V>,
}

impl<V> Table<V> {
    /// Well-formed: aligned lists and pairwise-distinct keys.
    pub open spec fn wf(&self) -> bool {
        &&& self.keys@.len() == self.vals@.len()
        &&& forall|i: int, j: int|
            0 <= i < j < self.keys@.len() ==> self.keys@[i] != self.keys@[j]
    }

    pub open spec fn spec_get(&self, k: usize) -> Option<V> {
        spec_table_get(self.keys@, self.vals@, k)
    }

    pub fn new() -> (r: Table<V>)
        ensures
            r.wf(),
            r.keys@ =~= Seq::<usize>::empty(),
            r.vals@ =~= Seq::<V>::empty(),
            forall|k: usize| r.spec_get(k) is None,
    {
        Table { keys: Vec::new(), vals: Vec::new() }
    }

    /// Where a key's value sits, if the key is present.
    pub fn index_of(&self, k: usize) -> (r: Option<usize>)
        requires
            self.wf(),
        ensures
            match r {
                Some(i) => i < self.keys@.len() && self.keys@[i as int] == k && self.spec_get(k)
                    == Some(self.vals@[i as int]) && forall|j: int|
                    0 <= j < i ==> self.keys@[j] != k,
                None => self.spec_get(k) is None,
            },
    {
        let n = self.keys.len();
        for i in 0..n
            invariant
                self.wf(),
                n == self.keys@.len(),
                forall|j: int| 0 <= j < i ==> self.keys@[j] != k,
        {
            if self.keys[i] == k {
                proof {
                    lemma_table_get_at(self.keys@, self.vals@, k, i as int);
                }
                return Some(i);
            }
        }
        proof {
            lemma_table_get_none(self.keys@, self.vals@, k);
        }
        None
    }

    /// The value stored for a key, if any.
    pub fn get(&self, k: usize) -> (r: Option<&V>)
        requires
            self.wf(),
        ensures
            match r {
                Some(v) => self.spec_get(k) == Some(*v),
                None => self.spec_get(k) is None,
            },
    {
        match self.index_of(k) {
            Some(i) => Some(&self.vals[i]),
            None => None,
        }
    }

    /// The index of a key's value, inserting `fresh` first when the key is
    /// new. The caller mutates `vals` at the returned index.
    pub fn index_or_insert(&mut self, k: usize, fresh: V) -> (r: usize)
        requires
            old(self).wf(),
        ensures
            final(self).wf(),
            (r as int) < final(self).keys@.len(),
            final(self).keys@[r as int] == k,
            forall|j: int| 0 <= j < r ==> final(self).keys@[j] != k,
            final(self).spec_get(k) == Some(final(self).vals@[r as int]),
            old(self).spec_get(k) is Some ==> *final(self) == *old(self) && old(self).spec_get(k)
                == Some(final(self).vals@[r as int]),
            old(self).spec_get(k) is None ==> final(self).keys@ == old(self).keys@.push(k)
                && final(self).vals@ == old(self).vals@.push(fresh) && r as int == old(
            self).keys@.len(),
            forall|k2: usize| k2 != k ==> final(self).spec_get(k2) == old(self).spec_get(k2),
    {
        let found = self.index_of(k);
        match found {
            Some(i) => i,
            None => {
                let i = self.keys.len();
                self.keys.push(k);
                self.vals.push(fresh);
                proof {
                    lemma_table_get_push(old(self).keys@, old(self).vals@, k, fresh);
                    assert forall|i1: int, j1: int|
                        0 <= i1 < j1 < self.keys@.len() implies self.keys@[i1]
                        != self.keys@[j1] by {
                        if j1 == self.keys@.len() - 1 {
                            assert(self.keys@[i1] == old(self).keys@[i1]);
                            lemma_table_get_none_not_contained(
                                old(self).keys@,
                                old(self).vals@,
                                k,
                                i1,
                            );
                        }
                    }
                    lemma_table_get_at(self.keys@, self.vals@, k, i as int);
                }
                i
            },
        }
    }
}

/// When a key first occurs at index `i`, the table holds `vals[i]` for it.
pub proof fn lemma_table_get_at<V>(keys: Seq<usize>, vals: Seq<V>, k: usize, i: int)
    requires
        keys.len() == vals.len(),
        0 <= i < keys.len(),
        keys[i] == k,
        forall|j: int| 0 <= j < i ==> keys[j] != k,
    ensures
        spec_table_get(keys, vals, k) == Some(vals[i]),
    decreases i,
{
    if i > 0 {
        lemma_table_get_at(keys.drop_first(), vals.drop_first(), k, i - 1);
    }
}

/// A key that occurs nowhere has no value.
proof fn lemma_table_get_none<V>(keys: Seq<usize>, vals: Seq<V>, k: usize)
    requires
        keys.len() == vals.len(),
        forall|j: int| 0 <= j < keys.len() ==> keys[j] != k,
    ensures
        spec_table_get(keys, vals, k) is None,
    decreases keys.len(),
{
    if keys.len() > 0 {
        lemma_table_get_none(keys.drop_first(), vals.drop_first(), k);
    }
}

/// A key with no value occurs nowhere.
proof fn lemma_table_get_none_not_contained<V>(keys: Seq<usize>, vals: Seq<V>, k: usize, j: int)
    requires
        keys.len() == vals.len(),
        spec_table_get(keys, vals, k) is None,
        0 <= j < keys.len(),
    ensures
        keys[j] != k,
    decreases j,
{
    if j > 0 {
        lemma_table_get_none_not_contained(keys.drop_first(), vals.drop_first(), k, j - 1);
    }
}

/// Appending a pair gives the appended key its value (when it was absent
/// before).
proof fn lemma_table_get_push<V>(keys: Seq<usize>, vals: Seq<V>, k: usize, v: V)
    requires
        keys.len() == vals.len(),
        spec_table_get(keys, vals, k) is None,
    ensures
        spec_table_get(keys.push(k), vals.push(v), k) == Some(v),
        forall|k2: usize|
            k2 != k ==> #[trigger] spec_table_get(keys.push(k), vals.push(v), k2)
                == spec_table_get(keys, vals, k2),
    decreases keys.len(),
{
    if keys.len() == 0 {
        assert(keys.push(k).first() == k);
        assert(vals.push(v).first() == v);
    } else {
        lemma_table_get_push(keys.drop_first(), vals.drop_first(), k, v);
        assert(keys.push(k).drop_first() =~= keys.drop_first().push(k));
        assert(vals.push(v).drop_first() =~= vals.drop_first().push(v));
    }
    assert forall|k2: usize| k2 != k implies #[trigger] spec_table_get(
        keys.push(k),
        vals.push(v),
        k2,
    ) == spec_table_get(keys, vals, k2) by {
        lemma_table_get_push_other(keys, vals, k, v, k2);
    }
}

/// Appending a pair leaves every other key's value alone.
proof fn lemma_table_get_push_other<V>(keys: Seq<usize>, vals: Seq<V>, k: usize, v: V, k2: usize)
    requires
        keys.len() == vals.len(),
        k2 != k,
    ensures
        spec_table_get(keys.push(k), vals.push(v), k2) == spec_table_get(keys, vals, k2),
    decreases keys.len(),
{
    if keys.len() == 0 {
        assert(keys.push(k).first() == k);
        assert(keys.push(k).drop_first() =~= Seq::<usize>::empty());
        assert(vals.push(v).drop_first() =~= Seq::<V>::empty());
        assert(spec_table_get(keys.push(k).drop_first(), vals.push(v).drop_first(), k2) is None);
    } else {
        lemma_table_get_push_other(keys.drop_first(), vals.drop_first(), k, v, k2);
        assert(keys.push(k).drop_first() =~= keys.drop_first().push(k));
        assert(vals.push(v).drop_first() =~= vals.drop_first().push(v));
    }
}

/// A monotone per-key counter: how many times each key was counted.
pub struct Counter {
    pub table: Table<u64>,
}

impl Counter {
    pub open spec fn wf(&self) -> bool {
        self.table.wf()
    }

    /// The count for a key; a key never counted is at zero.
    pub open spec fn spec_count(&self, k: usize) -> int {
        match self.table.spec_get(k) {
            Some(c) => c as int,
            None => 0,
        }
    }

    pub fn new() -> (r: Counter)
        ensures
            r.wf(),
            forall|k: usize| r.spec_count(k) == 0,
    {
        Counter { table: Table::new() }
    }

    /// Count one occurrence of a key.
    pub fn inc(&mut self, k: usize)
        requires
            old(self).wf(),
            old(self).spec_count(k) < u64::MAX,
        ensures
            final(self).wf(),
            final(self).spec_count(k) == old(self).spec_count(k) + 1,
            forall|k2: usize| k2 != k ==> final(self).spec_count(k2) == old(self).spec_count(k2),
    {
        let i = self.table.index_or_insert(k, 0);
        let c = self.table.vals[i];
        let ghost mid = self.table;
        self.table.vals[i] = c + 1;
        proof {
            lemma_table_get_update(mid.keys@, mid.vals@, k, i as int, (c + 1) as u64);
        }
    }

    /// The count for a key.
    pub fn get(&self, k: usize) -> (r: u64)
        requires
            self.wf(),
        ensures
            r == self.spec_count(k),
    {
        match self.table.get(k) {
            Some(c) => *c,
            None => 0,
        }
    }
}

/// Overwriting the value at the index where a key first occurs changes that
/// key's entry and no other key's.
pub proof fn lemma_table_get_update<V>(keys: Seq<usize>, vals: Seq<V>, k: usize, i: int, v: V)
    requires
        keys.len() == vals.len(),
        0 <= i < keys.len(),
        keys[i] == k,
        forall|j: int| 0 <= j < i ==> keys[j] != k,
    ensures
        spec_table_get(keys, vals.update(i, v), k) == Some(v),
        forall|k2: usize|
            k2 != k ==> #[trigger] spec_table_get(keys, vals.update(i, v), k2) == spec_table_get(
                keys,
                vals,
                k2,
            ),
    decreases i,
{
    if i == 0 {
        assert(vals.update(0, v).first() == v);
    } else {
        lemma_table_get_update(keys.drop_first(), vals.drop_first(), k, i - 1, v);
        assert(vals.update(i, v).drop_first() =~= vals.drop_first().update(i - 1, v));
        assert(vals.update(i, v).first() == vals.first());
    }
    assert forall|k2: usize| k2 != k implies #[trigger] spec_table_get(keys, vals.update(i, v), k2)
        == spec_table_get(keys, vals, k2) by {
        lemma_table_get_update_other(keys, vals, i, v, k2);
    }
}

/// Overwriting the value at an index whose key is not `k2` leaves `k2`'s
/// value alone.
proof fn lemma_table_get_update_other<V>(keys: Seq<usize>, vals: Seq<V>, i: int, v: V, k2: usize)
    requires
        keys.len() == vals.len(),
        0 <= i < keys.len(),
        keys[i] != k2,
    ensures
        spec_table_get(keys, vals.update(i, v), k2) == spec_table_get(keys, vals, k2),
    decreases keys.len(),
{
    if keys.first() == k2 {
        assert(i != 0);
        assert(vals.update(i, v).first() == vals.first());
    } else if i == 0 {
        assert(vals.update(0, v).drop_first() =~= vals.drop_first());
    } else {
        lemma_table_get_update_other(keys.drop_first(), vals.drop_first(), i - 1, v, k2);
        assert(vals.update(i, v).drop_first() =~= vals.drop_first().update(i - 1, v));
    }
}

} // verus!
