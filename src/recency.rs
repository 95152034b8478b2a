use vstd::prelude::*;

verus! {

/// Last-access times of keys, used to choose eviction victims.
///
/// Each key has at most one record; `touch` overwrites it.
pub struct RecencyTracker {
    entries: Vec<(usize, u64)>,
}

/// No key occurs twice in the list of records.
pub open spec fn keys_unique(s: Seq<(usize, u64)>) -> bool {
    forall|i: int, j: int| 0 <= i < j < s.len() ==> s[i].0 != s[j].0
}

/// The key is at some position of the list.
pub open spec fn has_key(s: Seq<(usize, u64)>, k: usize) -> bool {
    exists|i: int| 0 <= i < s.len() && s[i].0 == k
}

/// The record list read as a map from key to last-access time.
pub open spec fn records_map(s: Seq<(usize, u64)>) -> Map<usize, u64> {
    Map::new(
        |k: usize| has_key(s, k),
        |k: usize| s[choose|i: int| 0 <= i < s.len() && s[i].0 == k].1,
    )
}

/// `k` is the record to evict: the earliest time, and among equal times the
/// lowest key.
pub open spec fn is_oldest(m: Map<usize, u64>, k: usize) -> bool {
    &&& m.contains_key(k)
    &&& forall|j: usize|
        #[trigger] m.contains_key(j) ==> m[k] < m[j] || (m[k] == m[j] && k <= j)
}

proof fn lemma_records_at(s: Seq<(usize, u64)>, i: int)
    requires
        keys_unique(s),
        0 <= i < s.len(),
    ensures
        records_map(s).contains_key(s[i].0),
        records_map(s)[s[i].0] == s[i].1,
{
    let k = s[i].0;
    assert(has_key(s, k));
    let c = choose|c: int| 0 <= c < s.len() && s[c].0 == k;
    assert(c == i);
}

proof fn lemma_records_equal(s: Seq<(usize, u64)>, m: Map<usize, u64>)
    requires
        keys_unique(s),
        forall|k: usize| m.contains_key(k) <==> has_key(s, k),
        forall|i: int| 0 <= i < s.len() ==> #[trigger] m[s[i].0] == s[i].1,
    ensures
        records_map(s) == m,
{
    assert forall|k: usize| #[trigger] records_map(s).contains_key(k) implies records_map(s)[k]
        == m[k] by {
        let i = choose|i: int| 0 <= i < s.len() && s[i].0 == k;
        lemma_records_at(s, i);
    }
    assert(records_map(s) =~= m);
}

impl View for RecencyTracker {
    type V = Map<usize, u64>;

    closed spec fn view(&self) -> Map<usize, u64> {
        records_map(self.entries@)
    }
}

impl RecencyTracker {
    pub closed spec fn wf(&self) -> bool {
        keys_unique(self.entries@)
    }

    /// A tracker with no record.
    pub fn new() -> (r: RecencyTracker)
        ensures
            r.wf(),
            r@ == Map::<usize, u64>::empty(),
    {
        let r = RecencyTracker { entries: Vec::new() };
        assert(r@ =~= Map::<usize, u64>::empty());
        r
    }

    fn position(&self, key: usize) -> (r: Option<usize>)
        requires
            self.wf(),
        ensures
            r matches Some(i) ==> i < self.entries@.len() && self.entries@[i as int].0 == key,
            r is None ==> !has_key(self.entries@, key),
    {
        let mut i: usize = 0;
        while i < self.entries.len()
            invariant
                i <= self.entries@.len(),
                forall|j: int| 0 <= j < i ==> self.entries@[j].0 != key,
            decreases self.entries@.len() - i,
        {
            if self.entries[i].0 == key {
                return Some(i);
            }
            i = i + 1;
        }
        None
    }

    /// Whether `key` has a record.
    pub fn contains(&self, key: usize) -> (r: bool)
        requires
            self.wf(),
        ensures
            r == self@.contains_key(key),
    {
        self.position(key).is_some()
    }

    /// Records `now` as the last access of `key`, replacing any earlier record.
    pub fn touch(&mut self, key: usize, now: u64)
        requires
            old(self).wf(),
        ensures
            final(self).wf(),
            final(self)@ == old(self)@.insert(key, now),
    {
        let ghost s0 = self.entries@;
        proof {
            assert forall|i: int| 0 <= i < s0.len() implies #[trigger] records_map(s0)[s0[i].0]
                == s0[i].1 by {
                lemma_records_at(s0, i);
            }
        }
        match self.position(key) {
            Some(i) => {
                self.entries.set(i, (key, now));
                let ghost s1 = self.entries@;
                proof {
                    assert(s1 == s0.update(i as int, (key, now)));
                    assert forall|k: usize|
                        old(self)@.insert(key, now).contains_key(k) <==> has_key(s1, k) by {
                        if has_key(s0, k) {
                            let j = choose|j: int| 0 <= j < s0.len() && s0[j].0 == k;
                            assert(s1[j].0 == k);
                        }
                        if has_key(s1, k) {
                            let j = choose|j: int| 0 <= j < s1.len() && s1[j].0 == k;
                            assert(s0[j].0 == k || j == i);
                            assert(s0[i as int].0 == key);
                        }
                    }
                    assert forall|j: int| 0 <= j < s1.len() implies #[trigger] old(self)@.insert(
                        key,
                        now,
                    )[s1[j].0] == s1[j].1 by {
                        if j != i {
                            assert(s0[j].0 != s0[i as int].0);
                        }
                    }
                    lemma_records_equal(s1, old(self)@.insert(key, now));
                }
            },
            None => {
                self.entries.push((key, now));
                let ghost s1 = self.entries@;
                proof {
                    assert(s1 == s0.push((key, now)));
                    assert forall|k: usize|
                        old(self)@.insert(key, now).contains_key(k) <==> has_key(s1, k) by {
                        if has_key(s0, k) {
                            let j = choose|j: int| 0 <= j < s0.len() && s0[j].0 == k;
                            assert(s1[j].0 == k);
                        }
                        if k == key {
                            assert(s1[s0.len() as int].0 == k);
                        }
                        if has_key(s1, k) {
                            let j = choose|j: int| 0 <= j < s1.len() && s1[j].0 == k;
                            if j < s0.len() {
                                assert(has_key(s0, k));
                            }
                        }
                    }
                    assert forall|j: int| 0 <= j < s1.len() implies #[trigger] old(self)@.insert(
                        key,
                        now,
                    )[s1[j].0] == s1[j].1 by {
                        if j < s0.len() {
                            assert(s0[j].0 != key);
                        }
                    }
                    lemma_records_equal(s1, old(self)@.insert(key, now));
                }
            },
        }
    }

    /// Discards the record of `key`, if any.
    pub fn remove(&mut self, key: usize)
        requires
            old(self).wf(),
        ensures
            final(self).wf(),
            final(self)@ == old(self)@.remove(key),
    {
        let ghost s0 = self.entries@;
        proof {
            assert forall|i: int| 0 <= i < s0.len() implies #[trigger] records_map(s0)[s0[i].0]
                == s0[i].1 by {
                lemma_records_at(s0, i);
            }
        }
        match self.position(key) {
            Some(i) => {
                self.entries.remove(i);
                let ghost s1 = self.entries@;
                proof {
                    assert(s1 == s0.remove(i as int));
                    assert forall|a: int, b: int| 0 <= a < b < s1.len() implies s1[a].0
                        != s1[b].0 by {
                        let a0 = if a < i { a } else { a + 1 };
                        let b0 = if b < i { b } else { b + 1 };
                        assert(s1[a] == s0[a0]);
                        assert(s1[b] == s0[b0]);
                    }
                    assert forall|k: usize|
                        old(self)@.remove(key).contains_key(k) <==> has_key(s1, k) by {
                        if has_key(s0, k) && k != key {
                            let j = choose|j: int| 0 <= j < s0.len() && s0[j].0 == k;
                            assert(j != i);
                            if j < i {
                                assert(s1[j].0 == k);
                            } else {
                                assert(s1[j - 1].0 == k);
                            }
                        }
                        if has_key(s1, k) {
                            let j = choose|j: int| 0 <= j < s1.len() && s1[j].0 == k;
                            let j0 = if j < i { j } else { j + 1 };
                            assert(s0[j0].0 == k);
                            assert(j0 != i);
                            assert(has_key(s0, k));
                        }
                    }
                    assert forall|j: int| 0 <= j < s1.len() implies #[trigger] old(self)@.remove(
                        key,
                    )[s1[j].0] == s1[j].1 by {
                        let j0 = if j < i { j } else { j + 1 };
                        assert(s1[j] == s0[j0]);
                        assert(j0 != i);
                    }
                    lemma_records_equal(s1, old(self)@.remove(key));
                }
            },
            None => {
                proof {
                    assert(old(self)@.remove(key) =~= old(self)@);
                }
            },
        }
    }

    /// The key whose record is earliest, the lowest key among equal times;
    /// `None` when there is no record.
    pub fn oldest(&self) -> (r: Option<usize>)
        requires
            self.wf(),
        ensures
            r is None <==> self@.dom().is_empty(),
            r matches Some(k) ==> is_oldest(self@, k),
    {
        let ghost s = self.entries@;
        proof {
            assert forall|i: int| 0 <= i < s.len() implies #[trigger] records_map(s)[s[i].0]
                == s[i].1 && records_map(s).contains_key(s[i].0) by {
                lemma_records_at(s, i);
            }
        }
        if self.entries.len() == 0 {
            proof {
                assert(self@.dom() =~= Set::<usize>::empty());
            }
            return None;
        }
        let mut best: usize = 0;
        let mut i: usize = 1;
        while i < self.entries.len()
            invariant
                s == self.entries@,
                keys_unique(s),
                1 <= i <= s.len(),
                best < i,
                forall|j: int|
                    0 <= j < i ==> s[best as int].1 < s[j].1 || (s[best as int].1 == s[j].1
                        && s[best as int].0 <= s[j].0),
            decreases s.len() - i,
        {
            let (k, t) = self.entries[i];
            let (bk, bt) = self.entries[best];
            if t < bt || (t == bt && k < bk) {
                best = i;
            }
            i = i + 1;
        }
        let k = self.entries[best].0;
        proof {
            assert(self@.contains_key(k));
            assert forall|j: usize| #[trigger] self@.contains_key(j) implies self@[k] < self@[j] || (
            self@[k] == self@[j] && k <= j) by {
                let x = choose|x: int| 0 <= x < s.len() && s[x].0 == j;
                assert(self@[j] == s[x].1);
            }
        }
        Some(k)
    }
}

} // verus!
