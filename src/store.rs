use std::collections::HashMap;
use vstd::prelude::*;
use crate::recency::{is_oldest, RecencyTracker};

verus! {

broadcast use vstd::std_specs::hash::group_hash_axioms;

/// The cache store: the resident table, the recency of each resident key,
/// and the stampede guard of each key that has missed.
///
/// Time is a logical clock that advances by one at every recorded access.
pub struct CacheStore<V, G> {
    max_size: usize,
    clock: u64,
    table: HashMap<usize, V>,
    recency: RecencyTracker,
    guards: HashMap<usize, G>,
}

/// What the slow path of a lookup found.
pub enum MissStep {
    /// The key had become resident; its access was recorded.
    Hit,
    /// The key is absent; it has a guard, and these keys were evicted to
    /// make room.
    Load(Vec<usize>),
}

impl<V, G> CacheStore<V, G> {
    /// Resident keys and their values.
    pub closed spec fn table_view(&self) -> Map<usize, V> {
        self.table@
    }

    /// Last-access time of each tracked key.
    pub closed spec fn recency_view(&self) -> Map<usize, u64> {
        self.recency@
    }

    /// The stampede guard of each key that has one.
    pub closed spec fn guards_view(&self) -> Map<usize, G> {
        self.guards@
    }

    pub closed spec fn max_size_view(&self) -> nat {
        self.max_size as nat
    }

    /// The time that the next recorded access gets.
    pub closed spec fn clock_view(&self) -> nat {
        self.clock as nat
    }

    pub closed spec fn parts_wf(&self) -> bool {
        self.recency.wf()
    }

    /// Capacity is positive and respected, exactly the resident keys have a
    /// recency record, and every record lies in the past.
    pub open spec fn wf(&self) -> bool {
        &&& self.parts_wf()
        &&& self.max_size_view() > 0
        &&& self.table_view().len() <= self.max_size_view()
        &&& self.recency_view().dom() == self.table_view().dom()
        &&& forall|k: usize| #[trigger]
            self.recency_view().contains_key(k) ==> self.recency_view()[k] < self.clock_view()
    }

    /// The keys of `ev` are distinct resident keys, none accessed later than a
    /// resident key that stays.
    pub open spec fn lru_victims(&self, ev: Seq<usize>) -> bool {
        &&& ev.no_duplicates()
        &&& forall|i: int| 0 <= i < ev.len() ==> self.table_view().contains_key(#[trigger] ev[i])
        &&& forall|i: int, k: usize|
            0 <= i < ev.len() && #[trigger] self.table_view().contains_key(k) && !ev.contains(k)
                ==> self.recency_view()[#[trigger] ev[i]] <= self.recency_view()[k]
    }

    /// A lookup of `key` has to run the loader: the key is not resident.
    pub open spec fn needs_load(&self, key: usize) -> bool {
        !self.table_view().contains_key(key)
    }

    /// The guard that a miss on `key` shares: the existing one, or `fresh`.
    pub open spec fn miss_guard(&self, key: usize, fresh: G) -> G {
        if self.guards_view().contains_key(key) {
            self.guards_view()[key]
        } else {
            fresh
        }
    }

    /// The number of resident keys left after making room for one more.
    pub open spec fn size_after_room(&self) -> nat {
        if self.table_view().len() < self.max_size_view() {
            self.table_view().len()
        } else {
            (self.max_size_view() - 1) as nat
        }
    }

    /// An empty store holding at most `max_size` keys; `None` when
    /// `max_size` is zero.
    pub fn new(max_size: usize) -> (r: Option<Self>)
        ensures
            max_size == 0 <==> r.is_none(),
            r matches Some(s) ==> {
                &&& s.wf()
                &&& s.max_size_view() == max_size
                &&& s.clock_view() == 0
                &&& s.table_view() == Map::<usize, V>::empty()
                &&& s.guards_view() == Map::<usize, G>::empty()
            },
    {
        if max_size == 0 {
            return None;
        }
        let s = CacheStore {
            max_size,
            clock: 0,
            table: HashMap::new(),
            recency: RecencyTracker::new(),
            guards: HashMap::new(),
        };
        proof {
            assert(s.table@ =~= Map::<usize, V>::empty());
        }
        Some(s)
    }

    pub fn max_size(&self) -> (r: usize)
        ensures
            r == self.max_size_view(),
    {
        self.max_size
    }

    /// The time that the next recorded access gets.
    pub fn clock(&self) -> (r: u64)
        ensures
            r == self.clock_view(),
    {
        self.clock
    }

    /// The number of resident keys.
    pub fn resident_count(&self) -> (r: usize)
        requires
            self.wf(),
        ensures
            r == self.table_view().len(),
            r <= self.max_size_view(),
    {
        self.table.len()
    }

    /// Whether `key` is resident.
    pub fn contains(&self, key: usize) -> (r: bool)
        ensures
            r == self.table_view().contains_key(key),
    {
        self.table.contains_key(&key)
    }

    /// The resident value of `key`, without recording an access.
    pub fn peek(&self, key: usize) -> (r: Option<&V>)
        ensures
            r is Some <==> self.table_view().contains_key(key),
            r matches Some(v) ==> *v == self.table_view()[key],
    {
        self.table.get(&key)
    }

    /// The stampede guard of `key`, if it has one.
    pub fn guard_of(&self, key: usize) -> (r: Option<&G>)
        ensures
            r is Some <==> self.guards_view().contains_key(key),
            r matches Some(g) ==> *g == self.guards_view()[key],
    {
        self.guards.get(&key)
    }

    /// Records an access of `key` if it is resident, and reports whether it is.
    pub fn record_hit(&mut self, key: usize) -> (r: bool)
        requires
            old(self).wf(),
            old(self).clock_view() < u64::MAX,
        ensures
            final(self).wf(),
            r == old(self).table_view().contains_key(key),
            final(self).table_view() == old(self).table_view(),
            final(self).guards_view() == old(self).guards_view(),
            final(self).max_size_view() == old(self).max_size_view(),
            r ==> final(self).recency_view() == old(self).recency_view().insert(
                key,
                old(self).clock_view() as u64,
            ),
            r ==> final(self).clock_view() == old(self).clock_view() + 1,
            !r ==> final(self).recency_view() == old(self).recency_view(),
            !r ==> final(self).clock_view() == old(self).clock_view(),
    {
        if self.table.contains_key(&key) {
            self.recency.touch(key, self.clock);
            self.clock = self.clock + 1;
            proof {
                assert(self.recency@.dom() =~= self.table@.dom());
            }
            true
        } else {
            false
        }
    }

    /// Evicts the least recently accessed resident key (the lowest key among
    /// equal times) and drops its guard; `None` when nothing is resident.
    pub fn evict_oldest(&mut self) -> (r: Option<usize>)
        requires
            old(self).wf(),
        ensures
            final(self).wf(),
            final(self).max_size_view() == old(self).max_size_view(),
            final(self).clock_view() == old(self).clock_view(),
            r is None <==> old(self).table_view().dom().is_empty(),
            r is None ==> final(self).table_view() == old(self).table_view()
                && final(self).recency_view() == old(self).recency_view()
                && final(self).guards_view() == old(self).guards_view(),
            r matches Some(k) ==> {
                &&& is_oldest(old(self).recency_view(), k)
                &&& final(self).table_view() == old(self).table_view().remove(k)
                &&& final(self).recency_view() == old(self).recency_view().remove(k)
                &&& final(self).guards_view() == old(self).guards_view().remove(k)
            },
    {
        match self.recency.oldest() {
            None => None,
            Some(k) => {
                self.table.remove(&k);
                self.recency.remove(k);
                self.guards.remove(&k);
                proof {
                    assert(self.recency@.dom() =~= self.table@.dom());
                }
                Some(k)
            },
        }
    }

    /// Evicts least recently accessed keys until there is room for one more
    /// key, and returns them in the order of eviction.
    pub fn make_room(&mut self) -> (r: Vec<usize>)
        requires
            old(self).wf(),
        ensures
            final(self).wf(),
            final(self).max_size_view() == old(self).max_size_view(),
            final(self).clock_view() == old(self).clock_view(),
            old(self).lru_victims(r@),
            final(self).table_view() == old(self).table_view().remove_keys(r@.to_set()),
            final(self).recency_view() == old(self).recency_view().remove_keys(r@.to_set()),
            final(self).guards_view() == old(self).guards_view().remove_keys(r@.to_set()),
            final(self).table_view().len() == old(self).size_after_room(),
            final(self).table_view().len() < final(self).max_size_view(),
            r@.len() == old(self).table_view().len() - old(self).size_after_room(),
    {
        let ghost s0 = *self;
        let mut ev: Vec<usize> = Vec::new();
        proof {
            assert(s0.table@.remove_keys(ev@.to_set()) =~= s0.table@);
            assert(s0.recency@.remove_keys(ev@.to_set()) =~= s0.recency@);
            assert(s0.guards@.remove_keys(ev@.to_set()) =~= s0.guards@);
        }
        while self.table.len() >= self.max_size
            invariant
                self.wf(),
                self.max_size == s0.max_size,
                self.clock == s0.clock,
                s0.wf(),
                ev@.no_duplicates(),
                forall|i: int| 0 <= i < ev@.len() ==> s0.table@.contains_key(#[trigger] ev@[i]),
                self.table@ == s0.table@.remove_keys(ev@.to_set()),
                self.recency@ == s0.recency@.remove_keys(ev@.to_set()),
                self.guards@ == s0.guards@.remove_keys(ev@.to_set()),
                self.table@.len() + ev@.len() == s0.table@.len(),
                ev@.len() > 0 ==> self.table@.len() == s0.max_size - 1 || self.table@.len() >= s0.max_size,
                ev@.len() > 0 ==> s0.table@.len() >= s0.max_size,
                forall|i: int, k: usize|
                    0 <= i < ev@.len() && #[trigger] self.table@.contains_key(k)
                        ==> s0.recency@[#[trigger] ev@[i]] <= s0.recency@[k],
            decreases self.table@.len(),
        {
            let ghost s1 = *self;
            proof {
                assert(self.table@.dom().len() > 0);
                assert(!self.table@.dom().is_empty());
            }
            let k = match self.evict_oldest() {
                Some(k) => k,
                None => {
                    proof {
                        assert(false);
                    }
                    0
                },
            };
            proof {
                assert(s1.recency@.contains_key(k));
                assert(!ev@.contains(k));
                assert forall|j: usize| #[trigger] self.table@.contains_key(j) implies s0.recency@[k]
                    <= s0.recency@[j] by {
                    assert(s1.recency@.contains_key(j));
                }
            }
            let ghost ev0 = ev@;
            ev.push(k);
            proof {
                ev0.lemma_push_to_set_commute(k);
                assert(ev@ == ev0.push(k));
                assert(ev@.to_set() =~= ev0.to_set().insert(k));
                assert(self.table@ =~= s0.table@.remove_keys(ev@.to_set()));
                assert(self.recency@ =~= s0.recency@.remove_keys(ev@.to_set()));
                assert(self.guards@ =~= s0.guards@.remove_keys(ev@.to_set()));
                assert forall|i: int, j: usize|
                    0 <= i < ev@.len() && #[trigger] self.table@.contains_key(j)
                        implies s0.recency@[#[trigger] ev@[i]] <= s0.recency@[j] by {
                    if i < ev0.len() {
                        assert(ev@[i] == ev0[i]);
                        assert(s1.table@.contains_key(j));
                    }
                }
            }
        }
        proof {
            assert forall|i: int, k: usize|
                0 <= i < ev@.len() && #[trigger] s0.table@.contains_key(k) && !ev@.contains(k)
                    implies s0.recency@[#[trigger] ev@[i]] <= s0.recency@[k] by {
                assert(self.table@.contains_key(k));
            }
        }
        ev
    }

    /// The slow path of a lookup, under exclusive access to the store: if
    /// `key` has become resident its access is recorded; otherwise room is
    /// made for it and it gets a guard, `fresh` unless it already had one.
    pub fn prepare_miss(&mut self, key: usize, fresh: G) -> (r: MissStep)
        requires
            old(self).wf(),
            old(self).clock_view() < u64::MAX,
        ensures
            final(self).wf(),
            final(self).max_size_view() == old(self).max_size_view(),
            r is Hit <==> !old(self).needs_load(key),
            r is Hit ==> {
                &&& final(self).table_view() == old(self).table_view()
                &&& final(self).guards_view() == old(self).guards_view()
                &&& final(self).recency_view() == old(self).recency_view().insert(
                    key,
                    old(self).clock_view() as u64,
                )
                &&& final(self).clock_view() == old(self).clock_view() + 1
            },
            r matches MissStep::Load(ev) ==> {
                &&& old(self).lru_victims(ev@)
                &&& !ev@.contains(key)
                &&& final(self).table_view() == old(self).table_view().remove_keys(ev@.to_set())
                &&& final(self).recency_view() == old(self).recency_view().remove_keys(
                    ev@.to_set(),
                )
                &&& final(self).guards_view() == old(self).guards_view().remove_keys(
                    ev@.to_set(),
                ).insert(key, old(self).miss_guard(key, fresh))
                &&& final(self).table_view().len() == old(self).size_after_room()
                &&& ev@.len() == old(self).table_view().len() - old(self).size_after_room()
                &&& final(self).clock_view() == old(self).clock_view()
            },
    {
        if self.record_hit(key) {
            return MissStep::Hit;
        }
        let ev = self.make_room();
        proof {
            assert(!ev@.contains(key)) by {
                if ev@.contains(key) {
                    let i = choose|i: int| 0 <= i < ev@.len() && ev@[i] == key;
                    assert(old(self).table_view().contains_key(ev@[i]));
                }
            }
        }
        if !self.guards.contains_key(&key) {
            self.guards.insert(key, fresh);
        }
        proof {
            let g0 = old(self).guards@;
            assert(g0.remove_keys(ev@.to_set()).contains_key(key) == g0.contains_key(key));
            assert(self.guards@ =~= g0.remove_keys(ev@.to_set()).insert(
                key,
                if g0.contains_key(key) { g0[key] } else { fresh },
            ));
        }
        MissStep::Load(ev)
    }

    /// Publishes a loaded value for `key` and records the access. When `key`
    /// is not resident, least recently accessed keys are first evicted to
    /// make room; the evicted keys are returned.
    pub fn publish(&mut self, key: usize, value: V) -> (r: Vec<usize>)
        requires
            old(self).wf(),
            old(self).clock_view() < u64::MAX,
        ensures
            final(self).wf(),
            final(self).max_size_view() == old(self).max_size_view(),
            final(self).clock_view() == old(self).clock_view() + 1,
            old(self).lru_victims(r@),
            !r@.contains(key),
            old(self).table_view().contains_key(key) ==> r@.len() == 0,
            final(self).table_view() == old(self).table_view().remove_keys(r@.to_set()).insert(
                key,
                value,
            ),
            final(self).recency_view() == old(self).recency_view().remove_keys(
                r@.to_set(),
            ).insert(key, old(self).clock_view() as u64),
            final(self).guards_view() == old(self).guards_view().remove_keys(r@.to_set()),
            !old(self).table_view().contains_key(key) ==> final(self).table_view().len()
                == old(self).size_after_room() + 1,
            !old(self).table_view().contains_key(key) ==> r@.len() == old(self).table_view().len()
                - old(self).size_after_room(),
    {
        let ev: Vec<usize> = if self.table.contains_key(&key) {
            let e: Vec<usize> = Vec::new();
            proof {
                assert(self.table@.remove_keys(e@.to_set()) =~= self.table@);
                assert(self.recency@.remove_keys(e@.to_set()) =~= self.recency@);
                assert(self.guards@.remove_keys(e@.to_set()) =~= self.guards@);
            }
            e
        } else {
            let e = self.make_room();
            proof {
                assert(!e@.contains(key)) by {
                    if e@.contains(key) {
                        let i = choose|i: int| 0 <= i < e@.len() && e@[i] == key;
                        assert(old(self).table_view().contains_key(e@[i]));
                    }
                }
            }
            e
        };
        let ghost s1 = *self;
        self.table.insert(key, value);
        self.recency.touch(key, self.clock);
        self.clock = self.clock + 1;
        proof {
            assert(self.recency@.dom() =~= self.table@.dom());
            if old(self).table_view().contains_key(key) {
                assert(self.table@.dom() =~= s1.table@.dom());
            } else {
                assert(!s1.table@.contains_key(key));
            }
        }
        ev
    }
}

/// Whatever sequence of operations produced it, a well-formed store holds at
/// most `max_size` resident keys.
pub proof fn lemma_capacity<V, G>(s: CacheStore<V, G>)
    requires
        s.wf(),
    ensures
        s.table_view().len() <= s.max_size_view(),
        s.recency_view().dom() == s.table_view().dom(),
{
}

/// Once a loaded value for `key` has been published, every caller that
/// checks again under the key's guard finds it resident and starts no second
/// load; it finds the published value.
pub proof fn lemma_published_key_is_hit<V, G>(
    s0: CacheStore<V, G>,
    s1: CacheStore<V, G>,
    key: usize,
    value: V,
    ev: Seq<usize>,
)
    requires
        s1.table_view() == s0.table_view().remove_keys(ev.to_set()).insert(key, value),
    ensures
        !s1.needs_load(key),
        s1.table_view()[key] == value,
{
}

/// Eviction of a key releases all of its bookkeeping: it is no longer
/// resident, has no recency record and no guard, so the next lookup of it
/// runs the loader again under the fresh guard that the miss supplies.
pub proof fn lemma_evicted_key_is_fresh<V, G>(
    s0: CacheStore<V, G>,
    s1: CacheStore<V, G>,
    ev: Seq<usize>,
    key: usize,
    fresh: G,
)
    requires
        ev.contains(key),
        s1.table_view() == s0.table_view().remove_keys(ev.to_set()),
        s1.recency_view() == s0.recency_view().remove_keys(ev.to_set()),
        s1.guards_view() == s0.guards_view().remove_keys(ev.to_set()),
    ensures
        s1.needs_load(key),
        !s1.recency_view().contains_key(key),
        !s1.guards_view().contains_key(key),
        s1.miss_guard(key, fresh) == fresh,
{
    assert(ev.to_set().contains(key));
}

} // verus!
