//! The cache: its levels, the cascade that settles an item into a level, and the governor
//! of its size.
use crate::handle::Entry;
use crate::items::{
    has_key, items_each_mut, items_get_index, items_index_of, items_insert, items_len, items_new,
    items_pair_mut, items_swap_remove, pairs,
};
use crate::lemmas::{
    lemma_capacity_positive, lemma_cascaded, lemma_cascaded_levels, lemma_copied,
    lemma_empty_level, lemma_flat_len, lemma_flat_step, lemma_keys_within, lemma_level_bound,
    lemma_offset_bound, lemma_offset_grows, lemma_offset_same, lemma_offset_step,
    lemma_pair_by_key, lemma_placed, lemma_placed_levels, lemma_prefix, lemma_removed_at,
    lemma_revalued_any, lemma_revalued_back, lemma_same_keys, lemma_sunk_revalued, lemma_taken,
    lemma_taken_levels, lemma_total_push, lemma_trimmed, lemma_truncated,
};
use crate::model::{
    bottom_occupied, cascaded, copied, falls_off, flat, holds_key, holds_pair, inserted,
    keys_unique, level_above, level_holds, listed, nominal_capacity, occupied, offset,
    pairs_are, pairs_within, placed, promoted, promoted_to, removed_at, restorable, revalued,
    shrunk, slot_before, sunk, taken, total, trimmed,
};
use crate::random::{entropy_rng, pick_below, range_end, sample, uniform_below};
use indexmap::IndexMap;
use rand::distributions::uniform::UniformInt;
use rand::rngs::StdRng;
use vstd::prelude::*;

verus! {

/// One level of the cache.
#[derive(Debug)]
struct Level {
    /// The items of the level, each at a position.
    items: IndexMap<u64, u64>,
    /// A uniform sampler over `[0, n)`, where `n` is the nominal capacity of the level.
    rand_range: UniformInt<usize>,
}

/// A collection which keeps and promotes the most recently and commonly used items.
///
/// Keys and values are `u64`. The view of a cache is the sequence of its levels, level 0
/// first, each level the sequence of the pairs it holds by position.
#[derive(Debug)]
pub struct CommonCache {
    /// The base for the exponentially growing nominal capacity of the levels.
    base: usize,
    /// All levels of the cache, the most favoured first.
    levels: Vec<Level>,
    /// The random number generator that the cascade and the evictions draw from.
    rng: StdRng,
    /// An upper bound of the number of items in the cache. `usize::MAX` stands for none.
    max_size: usize,
    /// A counter that goes up by one with every operation that restructures the cache.
    generation: u64,
}

impl View for CommonCache {
    type V = Seq<Seq<(u64, u64)>>;

    closed spec fn view(&self) -> Seq<Seq<(u64, u64)>> {
        Seq::new(self.levels@.len(), |l: int| pairs(self.levels@[l].items))
    }
}

impl CommonCache {
    /// The base that the cache was made with.
    pub closed spec fn spec_base(&self) -> usize {
        self.base
    }

    /// The bound on the number of items.
    pub closed spec fn spec_max_size(&self) -> usize {
        self.max_size
    }

    /// The generation counter.
    pub closed spec fn spec_generation(&self) -> u64 {
        self.generation
    }

    /// Whether the sampler of every level ranges over `[0, n)`, with `n` the nominal
    /// capacity of the level.
    pub closed spec fn ranges_fit(&self) -> bool {
        forall|l: int|
            0 <= l < self.levels@.len() ==> range_end(#[trigger] self.levels@[l].rand_range)
                == nominal_capacity(self.base as nat, l as nat)
    }

    /// What holds of a cache between the steps of one operation: everything that `wf` asks
    /// for, except that the bottom level may be empty.
    pub open spec fn settled_but_bottom(&self) -> bool {
        &&& self.spec_base() >= 2
        &&& self.spec_max_size() >= 2
        &&& self.ranges_fit()
        &&& keys_unique(self@)
        &&& total(self@) <= self.spec_max_size()
    }

    /// The invariant of the cache: base and bound are at least 2, no key stands in two
    /// slots, the bottom level is not empty, and the number of items is within the bound.
    pub open spec fn wf(&self) -> bool {
        &&& self.settled_but_bottom()
        &&& bottom_occupied(self@)
    }

    /// Whether `other` has the base and the bound of this cache.
    pub open spec fn same_limits(&self, other: &CommonCache) -> bool {
        &&& self.spec_base() == other.spec_base()
        &&& self.spec_max_size() == other.spec_max_size()
    }

    /// Whether `other` has the base, the bound and the generation of this cache.
    pub open spec fn same_counters(&self, other: &CommonCache) -> bool {
        &&& self.same_limits(other)
        &&& self.spec_generation() == other.spec_generation()
    }
}

// Making a cache, and reading it.
impl CommonCache {
    /// Creates an empty cache that draws from the given random number generator. A seeded
    /// generator makes the behaviour of the cache reproducible.
    ///
    /// `base` must be at least 2, and so must `max_size` where it is given; without one the
    /// cache is unbounded.
    pub fn new_with_rng(base: usize, max_size: Option<usize>, rng: StdRng) -> (cache: Self)
        requires
            base >= 2,
            max_size matches Some(n) ==> n >= 2,
        ensures
            cache.wf(),
            cache@ == Seq::<Seq<(u64, u64)>>::empty(),
            cache.spec_base() == base,
            cache.spec_max_size() == (match max_size {
                Some(n) => n,
                None => usize::MAX,
            }),
            cache.spec_generation() == 0,
    {
        let max_size = match max_size {
            Some(n) => n,
            None => usize::MAX,
        };
        let cache = Self { base, rng, levels: Vec::new(), max_size, generation: 0 };
        assert(cache@ =~= Seq::<Seq<(u64, u64)>>::empty());
        cache
    }

    /// Creates an empty cache with a random number generator seeded by the operating system.
    pub fn new(base: usize, max_size: Option<usize>) -> (cache: Self)
        requires
            base >= 2,
            max_size matches Some(n) ==> n >= 2,
        ensures
            cache.wf(),
            cache@ == Seq::<Seq<(u64, u64)>>::empty(),
            cache.spec_base() == base,
            cache.spec_max_size() == (match max_size {
                Some(n) => n,
                None => usize::MAX,
            }),
            cache.spec_generation() == 0,
    {
        Self::new_with_rng(base, max_size, entropy_rng())
    }

    /// Restores a cache from its levels, as `levels` lists them, with a generation of 0.
    /// Empty levels at the bottom are dropped.
    ///
    /// Returns `None` if no cache can hold these levels: if `base` or the bound is below 2,
    /// if a key stands twice, or if there are more items than the bound allows.
    pub fn from_levels(
        base: usize,
        max_size: Option<usize>,
        levels: &Vec<Vec<(u64, u64)>>,
        rng: StdRng,
    ) -> (r: Option<Self>)
        ensures
            match r {
                Some(cache) => {
                    &&& restorable(base, cache.spec_max_size(), listed(levels@))
                    &&& cache.wf()
                    &&& cache@ == trimmed(listed(levels@))
                    &&& cache.spec_base() == base
                    &&& cache.spec_generation() == 0
                },
                None => !restorable(
                    base,
                    match max_size {
                        Some(n) => n,
                        None => usize::MAX,
                    },
                    listed(levels@),
                ),
            },
            r matches Some(cache) ==> cache.spec_max_size() == (match max_size {
                Some(n) => n,
                None => usize::MAX,
            }),
    {
        let bound = match max_size {
            Some(n) => n,
            None => usize::MAX,
        };
        if base < 2 || bound < 2 {
            return None;
        }
        let mut cache = Self::new_with_rng(base, max_size, rng);
        let ghost want = listed(levels@);
        let mut count: usize = 0;
        let mut l: usize = 0;
        proof {
            assert(want.subrange(0, 0) =~= cache@);
        }
        while l < levels.len()
            invariant
                0 <= l <= levels.len(),
                want == listed(levels@),
                cache@ == want.subrange(0, l as int),
                cache@.len() == cache.levels.len(),
                keys_unique(cache@),
                count == total(cache@),
                count <= bound,
                cache.ranges_fit(),
                cache.spec_base() == base,
                base >= 2,
                bound >= 2,
                bound == (match max_size {
                    Some(n) => n,
                    None => usize::MAX,
                }),
                cache.spec_max_size() == bound,
                cache.spec_generation() == 0,
            decreases levels.len() - l,
        {
            let cap = Self::capacity_of(base, l);
            let ghost above = cache@;
            cache.levels.push(Level { items: items_new(), rand_range: uniform_below(cap) });
            proof {
                lemma_copied(want, l as int, 0);
                assert(cache@ =~= above.push(Seq::empty()));
                lemma_empty_level(above);
            }
            let mut i: usize = 0;
            while i < levels[l].len()
                invariant
                    0 <= l < levels.len(),
                    0 <= i <= levels[l as int].len(),
                    want == listed(levels@),
                    cache@ == copied(want, l as int, i as int),
                    cache@.len() == cache.levels.len(),
                    keys_unique(cache@),
                    count == total(cache@),
                    count <= bound,
                    cache.ranges_fit(),
                    cache.spec_base() == base,
                    base >= 2,
                    bound >= 2,
                    bound == (match max_size {
                        Some(n) => n,
                        None => usize::MAX,
                    }),
                    cache.spec_max_size() == bound,
                    cache.spec_generation() == 0,
                decreases levels[l as int].len() - i,
            {
                let (key, value) = levels[l][i];
                proof {
                    lemma_copied(want, l as int, i as int);
                    assert(occupied(want, l as int, i as int));
                }
                if count == bound {
                    assert(total(want) > bound);
                    return None;
                }
                match cache.lookup(key) {
                    Some((l2, i2)) => {
                        assert(occupied(cache@, l2 as int, i2 as int));
                        assert(occupied(want, l2 as int, i2 as int) && want[l2 as int][i2 as int].0
                            == key);
                        assert(!keys_unique(want));
                        return None;
                    },
                    None => {},
                }
                proof {
                    lemma_placed(cache@, l as int, (key, value));
                }
                cache.place(key, value, l);
                count = count + 1;
                i = i + 1;
            }
            proof {
                lemma_copied(want, l as int, i as int);
            }
            l = l + 1;
        }
        let ghost full = cache@;
        cache.trim();
        proof {
            assert(want.subrange(0, want.len() as int) =~= want);
            lemma_trimmed(full);
            lemma_prefix(full, cache@.len() as int);
        }
        Some(cache)
    }

    /// The base of the nominal capacities of the levels.
    pub fn base(&self) -> (n: usize)
        ensures
            n == self.spec_base(),
    {
        self.base
    }

    /// The currently configured bound on the number of items.
    pub fn max_size(&self) -> (n: usize)
        ensures
            n == self.spec_max_size(),
    {
        self.max_size
    }

    /// The generation of the cache: the number of restructuring operations so far.
    pub fn generation(&self) -> (g: u64)
        ensures
            g == self.spec_generation(),
    {
        self.generation
    }

    /// The number of items in the cache.
    ///
    /// Takes time linear in the number of levels, since their lengths are summed up.
    pub fn size(&self) -> (n: usize)
        requires
            self.wf(),
        ensures
            n == total(self@),
    {
        self.count()
    }

    /// Lists the items of the cache level by level, each level by position.
    pub fn levels(&self) -> (r: Vec<Vec<(u64, u64)>>)
        ensures
            listed(r@) == self@,
    {
        let mut out: Vec<Vec<(u64, u64)>> = Vec::new();
        let mut l: usize = 0;
        while l < self.levels.len()
            invariant
                0 <= l <= self@.len(),
                self@.len() == self.levels.len(),
                listed(out@) == self@.subrange(0, l as int),
            decreases self.levels.len() - l,
        {
            let n = self.level_len(l);
            let mut level: Vec<(u64, u64)> = Vec::new();
            let mut i: usize = 0;
            while i < n
                invariant
                    l < self@.len(),
                    n == self@[l as int].len(),
                    0 <= i <= n,
                    level@ == self@[l as int].subrange(0, i as int),
                decreases n - i,
            {
                let (k, v) = self.pair_at(l, i);
                level.push((*k, *v));
                assert(level@ =~= self@[l as int].subrange(0, i + 1));
                i = i + 1;
            }
            assert(level@ =~= self@[l as int]);
            let ghost before = out@;
            out.push(level);
            assert(listed(out@) =~= self@.subrange(0, l + 1)) by {
                assert(listed(before).len() == before.len());
                assert(before.len() == l);
                assert forall|j: int| 0 <= j < l implies listed(out@)[j] == self@[j] by {
                    assert(listed(before)[j] == self@.subrange(0, l as int)[j]);
                }
            }
            l = l + 1;
        }
        assert(self@.subrange(0, self@.len() as int) =~= self@);
        out
    }

    /// Lists the items of the cache, so that all items of a level come before any item of
    /// a lower level. Within a level the items come by position.
    ///
    /// This does not alter the cache in any way: no item is promoted by being listed.
    pub fn iter(&self) -> (r: Vec<(u64, u64)>)
        ensures
            r@ == flat(self@),
    {
        let mut out: Vec<(u64, u64)> = Vec::new();
        let mut l: usize = 0;
        proof {
            assert(self@.subrange(0, 0) =~= Seq::<Seq<(u64, u64)>>::empty());
        }
        while l < self.levels.len()
            invariant
                0 <= l <= self@.len(),
                self@.len() == self.levels.len(),
                out@ == flat(self@.subrange(0, l as int)),
            decreases self.levels.len() - l,
        {
            let n = self.level_len(l);
            let mut i: usize = 0;
            let ghost above = out@;
            while i < n
                invariant
                    l < self@.len(),
                    n == self@[l as int].len(),
                    0 <= i <= n,
                    out@ == above + self@[l as int].subrange(0, i as int),
                decreases n - i,
            {
                let (k, v) = self.pair_at(l, i);
                out.push((*k, *v));
                assert(self@[l as int].subrange(0, i + 1) =~= self@[l as int].subrange(
                    0,
                    i as int,
                ).push(self@[l as int][i as int]));
                i = i + 1;
            }
            proof {
                assert(self@[l as int].subrange(0, n as int) =~= self@[l as int]);
                lemma_flat_step(self@, l as int);
            }
            l = l + 1;
        }
        proof {
            assert(self@.subrange(0, self@.len() as int) =~= self@);
        }
        out
    }

    /// Lists the items of the cache in the order of `iter`, each with its value for
    /// writing.
    ///
    /// This does not alter the structure of the cache: no item is promoted by being listed,
    /// and what is written becomes the value of the item where it stands.
    pub fn iter_mut(&mut self) -> (r: Vec<(&u64, &mut u64)>)
        ensures
            r@.len() == total(old(self)@),
            forall|n: int| 0 <= n < r@.len() ==> (*r@[n].0, *r@[n].1) == flat(old(self)@)[n],
            final(self)@.len() == old(self)@.len(),
            forall|l: int|
                0 <= l < old(self)@.len() ==> (#[trigger] final(self)@[l]).len() == old(
                    self,
                )@[l].len(),
            forall|l: int, i: int| #[trigger]
                occupied(old(self)@, l, i) ==> final(self)@[l][i] == (
                    old(self)@[l][i].0,
                    *final(r@[offset(old(self)@, l) + i].1),
                ),
            final(self).same_counters(old(self)),
            old(self).wf() ==> final(self).wf(),
    {
        let mut out: Vec<(&u64, &mut u64)> = Vec::new();
        let ghost start = self@;
        let ghost before = self.levels@;
        let ghost after = final(self).levels@;
        let ghost mut done: Seq<Level> = after.subrange(0, 0);
        let mut rest: &mut [Level] = self.levels.as_mut_slice();
        proof {
            assert(start.subrange(0, 0) =~= Seq::<Seq<(u64, u64)>>::empty());
        }
        while rest.len() > 0
            invariant
                start == Seq::new(before.len(), |l: int| pairs(before[l].items)),
                done.len() + rest@.len() == before.len(),
                rest@ == before.subrange(done.len() as int, before.len() as int),
                after == done + final(rest)@,
                out@.len() == offset(start, done.len() as int),
                forall|n: int| 0 <= n < out@.len() ==> (*out@[n].0, *out@[n].1) == flat(
                    start.subrange(0, done.len() as int),
                )[n],
                forall|l: int|
                    0 <= l < done.len() ==> (#[trigger] done[l]).rand_range == before[l].rand_range,
                forall|l: int|
                    0 <= l < done.len() ==> pairs((#[trigger] done[l]).items).len()
                        == start[l].len(),
                forall|l: int, i: int| #[trigger]
                    occupied(start, l, i) && l < done.len() ==> pairs(done[l].items)[i] == (
                        start[l][i].0,
                        *final(out@[offset(start, l) + i].1),
                    ),
            decreases rest@.len(),
        {
            let ghost l = done.len() as int;
            let ghost rest_final = final(rest)@;
            let ghost listed_before = out@;
            let (head, tail) = rest.split_at_mut(1);
            match head.first_mut() {
                Some(level) => {
                    proof {
                        done = done.push(*final(level));
                    }
                    let mut part = items_each_mut(&mut level.items);
                    let ghost part_view = part@;
                    out.append(&mut part);
                    proof {
                        lemma_offset_step(start, l);
                        lemma_level_bound(start, l);
                        lemma_flat_step(start, l);
                        lemma_flat_len(start.subrange(0, l));
                        assert(out@ == listed_before + part_view);
                        assert(done + final(tail)@ =~= after);
                        assert forall|l2: int, i: int| #[trigger]
                            occupied(start, l2, i) && l2 < done.len() implies pairs(
                            done[l2].items,
                        )[i] == (start[l2][i].0, *final(out@[offset(start, l2) + i].1)) by {
                            lemma_level_bound(start, l2);
                            if l2 < l {
                                lemma_offset_grows(start, l2 + 1, l);
                                lemma_offset_step(start, l2);
                                assert(out@[offset(start, l2) + i] == listed_before[offset(
                                    start,
                                    l2,
                                ) + i]);
                            } else {
                                assert(out@[offset(start, l) + i] == part_view[i]);
                            }
                        }
                        assert forall|n: int| 0 <= n < out@.len() implies (*out@[n].0, *out@[n].1)
                            == flat(start.subrange(0, done.len() as int))[n] by {
                            if n < listed_before.len() {
                                assert(out@[n] == listed_before[n]);
                            } else {
                                assert(out@[n] == part_view[n - listed_before.len()]);
                            }
                        }
                    }
                },
                None => {},
            }
            rest = tail;
        }
        proof {
            assert(start.subrange(0, start.len() as int) =~= start);
            lemma_offset_bound(start, start.len() as int);
            lemma_same_keys(start, Seq::new(after.len(), |l: int| pairs(after[l].items)));
        }
        out
    }
}

// The operations that restructure the cache, and the lookups that hand out entries.
impl CommonCache {
    /// Inserts a value into the cache.
    ///
    /// A new key enters one level above the bottom level. A key that the cache holds
    /// already gets the new value and moves one level up. Either way the levels from the
    /// bottom up to that level may each shed an item to the level beneath; a cache that
    /// is full gives up a random item of its bottom level first.
    ///
    /// All `Index`es into this cache become stale.
    ///
    /// Returns the entry of the inserted item.
    pub fn insert(&mut self, key: u64, value: u64) -> (e: Entry<'_>)
        requires
            old(self).wf(),
            old(self).spec_generation() < u64::MAX,
        ensures
            e.wf(),
            e.pair() == (key, value),
            e.cache.same_limits(old(self)),
            e.cache.spec_generation() == old(self).spec_generation() + 1,
            forall|l: int, i: int| #[trigger]
                occupied(old(self)@, l, i) && old(self)@[l][i].0 == key ==> e.level
                    == level_above(l),
            !holds_key(old(self)@, key) ==> e.level == level_above(old(self)@.len() - 1),
            exists|evicted: Option<(u64, u64)>| #[trigger]
                inserted(
                    old(self)@,
                    e.cache@,
                    key,
                    value,
                    old(self).spec_max_size() as nat,
                    evicted,
                ) && sunk(old(self)@, e.cache@, key, e.level as int, evicted, None),
            *final(self) == *final(e.cache),
    {
        // Check if the item is already in the cache.
        let found = self.lookup(key);
        let insert_level = match found {
            Some((level, idx)) => {
                proof {
                    lemma_taken(self@, level as int, idx as int);
                    lemma_taken_levels(self@, level as int, idx as int);
                    lemma_pair_by_key(self@, level as int, idx as int);
                }
                let _old_item = self.take(level, idx);
                // Insert the item at the level above.
                if level == 0 {
                    0
                } else {
                    level - 1
                }
            },
            None => {
                // If the item is new, insert it in the second lowest level.
                if self.levels.len() < 2 {
                    0
                } else {
                    self.levels.len() - 2
                }
            },
        };
        let (idx, evicted, _) = self.insert_at_level(key, value, insert_level, true);
        let ghost after = self@;
        let e = Entry { cache: self, level: insert_level, idx };
        proof {
            assert(e.cache@ == after);
            assert(sunk(old(self)@, after, key, insert_level as int, evicted@, None));
            assert(inserted(
                old(self)@,
                e.cache@,
                key,
                value,
                old(self).spec_max_size() as nat,
                evicted@,
            ));
        }
        e
    }

    /// Gets a handle to the entry of `key`, if the cache holds the key.
    ///
    /// Takes time linear in the number of levels.
    pub fn entry(&mut self, key: u64) -> (r: Option<Entry<'_>>)
        requires
            old(self).wf(),
        ensures
            match r {
                Some(e) => e.wf() && *e.cache == *old(self) && e.pair().0 == key && *final(self)
                    == *final(e.cache),
                None => !holds_key(old(self)@, key) && *final(self) == *old(self),
            },
    {
        match self.lookup(key) {
            Some((level, idx)) => Some(Entry { cache: self, level, idx }),
            None => None,
        }
    }

    /// Finds the first item in the cache, in the order of iteration, that satisfies a
    /// predicate, and returns its entry. The scan itself changes nothing in the cache.
    ///
    /// Takes time linear in the number of items.
    pub fn find_first(&mut self, pred: impl Fn(&u64, &u64) -> bool) -> (r: Option<Entry<'_>>)
        requires
            old(self).wf(),
            forall|l: int, i: int| #[trigger]
                occupied(old(self)@, l, i) ==> call_requires(
                    pred,
                    (&old(self)@[l][i].0, &old(self)@[l][i].1),
                ),
        ensures
            match r {
                Some(e) => e.wf() && *e.cache == *old(self) && *final(self) == *final(e.cache)
                    && call_ensures(pred, (&e.pair().0, &e.pair().1), true) && forall|
                    l2: int,
                    i2: int,
                | #[trigger]
                    occupied(old(self)@, l2, i2) && slot_before(
                        l2,
                        i2,
                        e.level as int,
                        e.idx as int,
                    ) ==> call_ensures(pred, (&old(self)@[l2][i2].0, &old(self)@[l2][i2].1), false),
                None => *final(self) == *old(self) && forall|l2: int, i2: int| #[trigger]
                    occupied(old(self)@, l2, i2) ==> call_ensures(
                        pred,
                        (&old(self)@[l2][i2].0, &old(self)@[l2][i2].1),
                        false,
                    ),
            },
    {
        match self.scan(pred) {
            Some((level, idx)) => Some(Entry { cache: self, level, idx }),
            None => None,
        }
    }

    /// Sets the bound on the number of items. This may remove many items.
    ///
    /// `max_size` must be at least 2. A bound that is not lower than the present one is
    /// only stored. A lower bound advances the generation, so that every `Index` into the
    /// cache becomes stale, even where no item has to leave. Where the cache holds more
    /// items than the new bound allows, the levels are counted from the top: the level at
    /// which the count reaches the bound gives up random items until the count fits, and
    /// the levels below it are dropped.
    ///
    /// Takes linear time if items have to leave, constant time otherwise.
    pub fn set_max_size(&mut self, max_size: usize)
        requires
            old(self).wf(),
            max_size >= 2,
            max_size < old(self).spec_max_size() ==> old(self).spec_generation() < u64::MAX,
        ensures
            final(self).wf(),
            final(self).spec_base() == old(self).spec_base(),
            final(self).spec_max_size() == max_size,
            final(self).spec_generation() == old(self).spec_generation() + (if max_size < old(
                self,
            ).spec_max_size() {
                1int
            } else {
                0int
            }),
            total(old(self)@) <= max_size ==> final(self)@ == old(self)@,
            total(old(self)@) > max_size ==> shrunk(old(self)@, final(self)@, max_size as nat),
            pairs_within(final(self)@, old(self)@),
    {
        if max_size >= self.max_size {
            self.max_size = max_size;
            return ;
        }
        // Some random items may be removed, so the generation advances to make every
        // index into the cache stale.
        self.generation = self.generation + 1;
        self.max_size = max_size;
        let mut sum: usize = 0;
        let mut i: usize = 0;
        proof {
            assert(self@.subrange(0, 0) =~= Seq::<Seq<(u64, u64)>>::empty());
        }
        while i < self.levels.len()
            invariant
                0 <= i <= self@.len(),
                self@.len() == self.levels.len(),
                self@ == old(self)@,
                old(self).wf(),
                self.ranges_fit(),
                self.spec_base() == old(self).spec_base(),
                self.spec_max_size() == max_size,
                self.spec_generation() == old(self).spec_generation() + 1,
                max_size >= 2,
                max_size < old(self).spec_max_size(),
                sum == offset(self@, i as int),
                sum < max_size,
            decreases self.levels.len() - i,
        {
            let len = self.level_len(i);
            proof {
                lemma_level_bound(self@, i as int);
                lemma_offset_step(self@, i as int);
            }
            if sum + len >= max_size {
                let mut excess = sum + len - max_size;
                let ghost to_leave = excess;
                while excess > 0
                    invariant
                        i < self@.len(),
                        excess <= to_leave,
                        excess == to_leave ==> self@ == old(self)@,
                        self@.len() == self.levels.len(),
                        self@.len() == old(self)@.len(),
                        forall|l: int| 0 <= l < self@.len() && l != i ==> self@[l] == old(self)@[l],
                        forall|j: int|
                            0 <= j < self@[i as int].len() ==> old(self)@[i as int].contains(
                                #[trigger] self@[i as int][j],
                            ),
                        self@[i as int].len() == max_size - sum + excess,
                        sum < max_size,
                        keys_unique(self@),
                        pairs_within(self@, old(self)@),
                        self.ranges_fit(),
                        self.spec_base() == old(self).spec_base(),
                        self.spec_max_size() == max_size,
                        self.spec_generation() == old(self).spec_generation() + 1,
                    decreases excess,
                {
                    let held = self.level_len(i);
                    let to_remove = pick_below(&mut self.rng, held);
                    let ghost before = self@;
                    proof {
                        assert(occupied(before, i as int, to_remove as int));
                        lemma_removed_at(before, i as int, to_remove as int);
                    }
                    items_swap_remove(&mut self.levels[i].items, to_remove);
                    assert(self@ =~= removed_at(before, i as int, to_remove as int));
                    proof {
                        assert forall|j: int| 0 <= j < self@[i as int].len() implies old(
                            self,
                        )@[i as int].contains(#[trigger] self@[i as int][j]) by {
                            let src = if j == to_remove {
                                before[i as int].len() - 1
                            } else {
                                j
                            };
                            assert(self@[i as int][j] == before[i as int][src]);
                        }
                    }
                    excess = excess - 1;
                }
                let ghost thinned = self@;
                self.levels.truncate(i + 1);
                proof {
                    assert(self@ =~= thinned.subrange(0, i + 1));
                    lemma_truncated(thinned, i + 1);
                    lemma_offset_step(thinned, i as int);
                    lemma_offset_same(thinned, old(self)@, i as int);
                    lemma_offset_step(old(self)@, i as int);
                    if total(old(self)@) <= max_size {
                        lemma_offset_bound(old(self)@, i + 1);
                        if i + 1 < old(self)@.len() {
                            lemma_level_bound(old(self)@, old(self)@.len() - 1);
                            lemma_offset_grows(old(self)@, i + 1, old(self)@.len() - 1);
                        }
                        assert(self@ =~= old(self)@);
                    } else {
                        lemma_offset_bound(old(self)@, i + 1);
                        assert(shrunk(old(self)@, self@, max_size as nat));
                    }
                }
                return ;
            }
            sum = sum + len;
            i = i + 1;
        }
        proof {
            lemma_offset_bound(self@, i as int);
        }
    }

    /// Clears the cache: drops every level and advances the generation.
    pub fn clear(&mut self)
        requires
            old(self).wf(),
            old(self).spec_generation() < u64::MAX,
        ensures
            final(self).wf(),
            final(self)@ == Seq::<Seq<(u64, u64)>>::empty(),
            final(self).same_limits(old(self)),
            final(self).spec_generation() == old(self).spec_generation() + 1,
    {
        self.levels.clear();
        self.generation = self.generation + 1;
        assert(self@ =~= Seq::<Seq<(u64, u64)>>::empty());
    }
}

// The engine: the steps that the operations are made of.
impl CommonCache {
    /// The number of levels.
    pub(crate) fn depth(&self) -> (n: usize)
        ensures
            n == self@.len(),
    {
        self.levels.len()
    }

    /// The number of items in level `level`.
    pub(crate) fn level_len(&self, level: usize) -> (n: usize)
        requires
            level < self@.len(),
        ensures
            n == self@[level as int].len(),
    {
        items_len(&self.levels[level].items)
    }

    /// The number of items, for a cache whose bottom level may be empty.
    pub(crate) fn count(&self) -> (n: usize)
        requires
            total(self@) <= usize::MAX,
        ensures
            n == total(self@),
    {
        let mut sum: usize = 0;
        let mut l: usize = 0;
        proof {
            assert(self@.subrange(0, 0) =~= Seq::<Seq<(u64, u64)>>::empty());
        }
        while l < self.levels.len()
            invariant
                0 <= l <= self@.len(),
                self@.len() == self.levels.len(),
                sum == offset(self@, l as int),
                total(self@) <= usize::MAX,
            decreases self.levels.len() - l,
        {
            proof {
                lemma_level_bound(self@, l as int);
                lemma_offset_step(self@, l as int);
            }
            sum = sum + self.level_len(l);
            l = l + 1;
        }
        proof {
            lemma_offset_bound(self@, l as int);
        }
        sum
    }

    /// The pair in slot `idx` of level `level`.
    pub(crate) fn pair_at(&self, level: usize, idx: usize) -> (p: (&u64, &u64))
        requires
            occupied(self@, level as int, idx as int),
        ensures
            (*p.0, *p.1) == self@[level as int][idx as int],
    {
        match items_get_index(&self.levels[level].items, idx) {
            Some(p) => p,
            None => vstd::pervasive::unreached(),
        }
    }

    /// The key in slot `idx` of level `level`, and its value for writing.
    pub(crate) fn pair_at_mut(&mut self, level: usize, idx: usize) -> (r: (&u64, &mut u64))
        requires
            occupied(old(self)@, level as int, idx as int),
        ensures
            (*r.0, *r.1) == old(self)@[level as int][idx as int],
            final(self)@ == revalued(old(self)@, level as int, idx as int, *final(r.1)),
            final(self).same_counters(old(self)),
            old(self).ranges_fit() ==> final(self).ranges_fit(),
    {
        match items_pair_mut(&mut self.levels[level].items, idx) {
            Some(kv) => kv,
            None => vstd::pervasive::unreached(),
        }
    }

    /// Finds the slot that holds `key`.
    pub(crate) fn lookup(&self, key: u64) -> (r: Option<(usize, usize)>)
        ensures
            match r {
                Some((l, i)) => occupied(self@, l as int, i as int) && self@[l as int][i as int].0
                    == key,
                None => !holds_key(self@, key),
            },
    {
        let mut l: usize = 0;
        while l < self.levels.len()
            invariant
                0 <= l <= self@.len(),
                self@.len() == self.levels.len(),
                forall|l2: int, i2: int|
                    #[trigger] occupied(self@, l2, i2) && l2 < l ==> self@[l2][i2].0 != key,
            decreases self.levels.len() - l,
        {
            match items_index_of(&self.levels[l].items, key) {
                Some(i) => {
                    return Some((l, i));
                },
                None => {
                    assert forall|i2: int| #[trigger] occupied(self@, l as int, i2) implies self@[l as int][i2].0
                        != key by {
                        if self@[l as int][i2].0 == key {
                            assert(has_key(self@[l as int], key));
                        }
                    }
                },
            }
            l = l + 1;
        }
        None
    }

    /// Finds the first slot, in the order of iteration, whose item satisfies `pred`.
    pub(crate) fn scan(&self, pred: impl Fn(&u64, &u64) -> bool) -> (r: Option<(usize, usize)>)
        requires
            forall|l: int, i: int| #[trigger]
                occupied(self@, l, i) ==> call_requires(pred, (&self@[l][i].0, &self@[l][i].1)),
        ensures
            match r {
                Some((l, i)) => occupied(self@, l as int, i as int) && call_ensures(
                    pred,
                    (&self@[l as int][i as int].0, &self@[l as int][i as int].1),
                    true,
                ) && forall|l2: int, i2: int| #[trigger]
                    occupied(self@, l2, i2) && slot_before(l2, i2, l as int, i as int)
                        ==> call_ensures(pred, (&self@[l2][i2].0, &self@[l2][i2].1), false),
                None => forall|l2: int, i2: int| #[trigger]
                    occupied(self@, l2, i2) ==> call_ensures(
                        pred,
                        (&self@[l2][i2].0, &self@[l2][i2].1),
                        false,
                    ),
            },
    {
        let mut l: usize = 0;
        while l < self.levels.len()
            invariant
                0 <= l <= self@.len(),
                self@.len() == self.levels.len(),
                forall|l2: int, i2: int| #[trigger]
                    occupied(self@, l2, i2) ==> call_requires(
                        pred,
                        (&self@[l2][i2].0, &self@[l2][i2].1),
                    ),
                forall|l2: int, i2: int| #[trigger]
                    occupied(self@, l2, i2) && l2 < l ==> call_ensures(
                        pred,
                        (&self@[l2][i2].0, &self@[l2][i2].1),
                        false,
                    ),
            decreases self.levels.len() - l,
        {
            let n = self.level_len(l);
            let mut i: usize = 0;
            while i < n
                invariant
                    l < self@.len(),
                    n == self@[l as int].len(),
                    0 <= i <= n,
                    forall|l2: int, i2: int| #[trigger]
                        occupied(self@, l2, i2) ==> call_requires(
                            pred,
                            (&self@[l2][i2].0, &self@[l2][i2].1),
                        ),
                    forall|l2: int, i2: int| #[trigger]
                        occupied(self@, l2, i2) && slot_before(l2, i2, l as int, i as int)
                            ==> call_ensures(pred, (&self@[l2][i2].0, &self@[l2][i2].1), false),
                decreases n - i,
            {
                assert(occupied(self@, l as int, i as int));
                let (k, v) = self.pair_at(l, i);
                if pred(k, v) {
                    return Some((l, i));
                }
                i = i + 1;
            }
            l = l + 1;
        }
        None
    }

    /// The nominal capacity of a level.
    pub(crate) fn capacity_of(base: usize, level: usize) -> (c: usize)
        requires
            base >= 1,
        ensures
            c == nominal_capacity(base as nat, level as nat),
            c >= 1,
    {
        let mut c: usize = 1;
        let mut i: usize = 0;
        while i < level
            invariant
                i <= level,
                c == nominal_capacity(base as nat, i as nat),
            decreases level - i,
        {
            c = match c.checked_mul(base) {
                Some(x) => x,
                None => usize::MAX,
            };
            i = i + 1;
        }
        proof {
            lemma_capacity_positive(base as nat, level as nat);
        }
        c
    }

    /// Takes the item in slot `idx` of level `level` out of the cache. The last item of the
    /// level moves into the slot; a bottom level that this leaves empty is dropped.
    pub(crate) fn take(&mut self, level: usize, idx: usize) -> (p: (u64, u64))
        requires
            occupied(old(self)@, level as int, idx as int),
        ensures
            p == old(self)@[level as int][idx as int],
            final(self)@ == taken(old(self)@, level as int, idx as int),
            final(self).same_counters(old(self)),
            old(self).ranges_fit() ==> final(self).ranges_fit(),
    {
        let r = items_swap_remove(&mut self.levels[level].items, idx);
        let p = match r {
            Some(p) => p,
            None => vstd::pervasive::unreached(),
        };
        assert(self@ =~= removed_at(old(self)@, level as int, idx as int));
        if level == self.levels.len() - 1 && items_len(&self.levels[level].items) == 0 {
            self.levels.pop();
            assert(self@ =~= old(self)@.drop_last());
        }
        p
    }

    /// Appends the pair to level `level` and returns its slot.
    pub(crate) fn place(&mut self, key: u64, value: u64, level: usize) -> (idx: usize)
        requires
            level < old(self)@.len(),
            !holds_key(old(self)@, key),
        ensures
            idx == old(self)@[level as int].len(),
            final(self)@ == placed(old(self)@, level as int, (key, value)),
            final(self).same_counters(old(self)),
            old(self).ranges_fit() ==> final(self).ranges_fit(),
    {
        proof {
            if has_key(old(self)@[level as int], key) {
                let i = choose|i: int|
                    0 <= i < old(self)@[level as int].len() && (#[trigger] old(self)@[level as int][i]).0
                        == key;
                assert(occupied(old(self)@, level as int, i));
            }
        }
        let (idx, _) = items_insert(&mut self.levels[level].items, key, value);
        assert(self@ =~= placed(old(self)@, level as int, (key, value)));
        idx
    }

    /// One step of the cascade: with the number `draw`, drawn for level `level`, an item of
    /// that level falls if `draw` is its position.
    pub(crate) fn cascade_level(&mut self, level: usize, draw: usize, grow: bool)
        requires
            level < old(self)@.len(),
            old(self).spec_base() >= 2,
            old(self).ranges_fit(),
            keys_unique(old(self)@),
        ensures
            final(self)@ == cascaded(old(self)@, level as int, draw as int, grow),
            final(self).same_counters(old(self)),
            final(self).ranges_fit(),
    {
        match items_swap_remove(&mut self.levels[level].items, draw) {
            Some(item) => {
                assert(self@ =~= removed_at(old(self)@, level as int, draw as int));
                proof {
                    assert(occupied(old(self)@, level as int, draw as int));
                    lemma_removed_at(old(self)@, level as int, draw as int);
                }
                if level != self.levels.len() - 1 {
                    // Insert the item on the level below.
                    self.place(item.0, item.1, level + 1);
                } else if grow {
                    // This was the lowest level, so a new one is made.
                    let cap = Self::capacity_of(self.base, level + 1);
                    let mut m = items_new();
                    assert(!has_key(pairs(m), item.0));
                    items_insert(&mut m, item.0, item.1);
                    self.levels.push(Level { items: m, rand_range: uniform_below(cap) });
                    assert(pairs(m) =~= seq![item]);
                    assert(self@ =~= removed_at(old(self)@, level as int, draw as int).push(
                        seq![item],
                    ));
                }
            },
            None => {
                assert(self@ =~= old(self)@);
            },
        }
    }

    /// Drops the empty levels at the bottom.
    pub(crate) fn trim(&mut self)
        ensures
            final(self)@ == trimmed(old(self)@),
            final(self).same_counters(old(self)),
            old(self).ranges_fit() ==> final(self).ranges_fit(),
    {
        while self.levels.len() > 0 && items_len(&self.levels[self.levels.len() - 1].items) == 0
            invariant
                trimmed(self@) == trimmed(old(self)@),
                self@.len() == self.levels.len(),
                self.same_counters(old(self)),
                old(self).ranges_fit() ==> self.ranges_fit(),
            decreases self.levels.len(),
        {
            let ghost before = self@;
            self.levels.pop();
            assert(self@ =~= before.drop_last());
        }
    }

    /// Settles an item at a level of the cache, and lets every level from the bottom up
    /// to that level shed at most one item to the level beneath it.
    ///
    /// This is the core of the algorithm. A full cache first gives up a random item of its
    /// bottom level. Then, for each level from the bottom up to `level`, a number is drawn
    /// below the nominal capacity of the level; if it is the position of an item, that item
    /// falls to the level below. An item that falls from the bottom level opens a new level
    /// if `grow` holds and is lost otherwise. At last the pair is appended to `level`, and
    /// levels left empty at the bottom are dropped.
    ///
    /// Returns the slot of the pair, the item given up for the bound and the item lost off
    /// the bottom. Whatever is drawn, no other item leaves the cache.
    pub(crate) fn insert_at_level(&mut self, key: u64, value: u64, level: usize, grow: bool) -> (r: (
        usize,
        Ghost<Option<(u64, u64)>>,
        Ghost<Option<(u64, u64)>>,
    ))
        requires
            old(self).settled_but_bottom(),
            old(self).spec_generation() < u64::MAX,
            !holds_key(old(self)@, key),
            level == 0 || level < old(self)@.len(),
            total(old(self)@) == old(self).spec_max_size() ==> bottom_occupied(old(self)@) && (level
                == 0 || level + 1 < old(self)@.len()),
        ensures
            final(self).wf(),
            final(self).same_limits(old(self)),
            final(self).spec_generation() == old(self).spec_generation() + 1,
            occupied(final(self)@, level as int, r.0 as int),
            final(self)@[level as int][r.0 as int] == (key, value),
            pairs_are(final(self)@, old(self)@, r.1@, r.2@, Some((key, value))),
            sunk(old(self)@, final(self)@, key, level as int, r.1@, r.2@),
            r.1@ is Some <==> total(old(self)@) == old(self).spec_max_size(),
            r.1@ matches Some(p) ==> old(self)@.len() > 0 && old(self)@.last().contains(p),
            r.2@ matches Some(p) ==> !grow && holds_pair(old(self)@, p) && r.1@ != Some(p),
            total(final(self)@) == total(old(self)@) + 1 - (if r.1@ is Some {
                1int
            } else {
                0int
            }) - (if r.2@ is Some {
                1int
            } else {
                0int
            }),
    {
        // Advance the generation first, so that it is not forgotten.
        self.generation = self.generation + 1;
        let ghost evicted: Option<(u64, u64)> = None;
        let ghost lost: Option<(u64, u64)> = None;

        if self.count() == self.max_size {
            // The bound has been reached: a random item of the bottom level leaves.
            proof {
                if self@.len() == 0 {
                    assert(total(self@) == 0);
                }
            }
            let bottom = self.levels.len() - 1;
            let bottom_len = self.level_len(bottom);
            let to_remove = pick_below(&mut self.rng, bottom_len);
            proof {
                lemma_taken(self@, bottom as int, to_remove as int);
            }
            proof {
                lemma_taken_levels(self@, bottom as int, to_remove as int);
            }
            let gone = self.take(bottom, to_remove);
            proof {
                evicted = Some(gone);
                assert(old(self)@.last()[to_remove as int] == gone);
            }
        }
        if self.levels.len() == 0 {
            // There are no levels: add the top one.
            let ghost before = self@;
            self.levels.push(Level { items: items_new(), rand_range: uniform_below(1) });
            proof {
                assert(self@.subrange(0, 0) =~= before);
                assert(self@ =~= before.push(Seq::empty()));
                lemma_prefix(self@, 0);
                lemma_total_push(before, Seq::empty());
            }
        }
        let ghost start = self@;
        assert(pairs_are(start, old(self)@, evicted, None, None));
        assert forall|l2: int, p: (u64, u64)| #[trigger]
            level_holds(old(self)@, l2, p) && Some(p) != evicted implies level_holds(
            start,
            l2,
            p,
        ) by {
            let k = choose|k: int| 0 <= k < old(self)@[l2].len() && old(self)@[l2][k] == p;
            assert(start[l2][k] == p || level_holds(start, l2, p));
        }
        assert forall|l2: int| 0 <= l2 < level && l2 < old(self)@.len() implies start[l2] == old(
            self,
        )@[l2] by {}
        proof {
            lemma_keys_within(start, old(self)@);
        }

        // From the bottom level up to `level`, each level may move one item down. The
        // fuller a level is, the more probable it is that one falls.
        let mut l = self.levels.len();
        while l > level
            invariant
                level < start.len(),
                level <= l <= start.len(),
                start.len() <= self@.len() <= start.len() + 1,
                self@.len() == self.levels.len(),
                l == start.len() ==> self@ == start && lost is None,
                keys_unique(self@),
                self.ranges_fit(),
                self.spec_base() >= 2,
                self.same_limits(old(self)),
                self.spec_generation() == old(self).spec_generation() + 1,
                lost matches Some(q) ==> !grow && holds_pair(start, q),
                pairs_are(self@, start, lost, None, None),
                forall|l2: int, p: (u64, u64)| #[trigger]
                    level_holds(start, l2, p) && Some(p) != lost ==> level_holds(self@, l2, p) || (
                    l2 >= l && level_holds(self@, l2 + 1, p)),
                forall|l2: int| 0 <= l2 < l && l2 < start.len() ==> self@[l2] == start[l2],
                total(self@) == total(start) - (if lost is Some {
                    1int
                } else {
                    0int
                }),
            decreases l,
        {
            l = l - 1;
            let draw = sample(&self.levels[l].rand_range, &mut self.rng);
            let ghost before = self@;
            proof {
                lemma_cascaded(before, l as int, draw as int, grow);
                lemma_cascaded_levels(before, l as int, draw as int, grow);
                if falls_off(before, l as int, draw as int, grow) {
                    lost = Some(before[l as int][draw as int]);
                }
            }
            self.cascade_level(l, draw, grow);
            proof {
                assert forall|l2: int, p: (u64, u64)| #[trigger]
                    level_holds(start, l2, p) && Some(p) != lost implies level_holds(self@, l2, p)
                    || (l2 >= l && level_holds(self@, l2 + 1, p)) by {
                    if level_holds(before, l2, p) {
                    } else {
                        assert(level_holds(before, l2 + 1, p));
                        assert(self@[l2 + 1] == before[l2 + 1]);
                    }
                }
            }
        }
        proof {
            lemma_keys_within(self@, start);
        }

        // Finally, add the item to the desired level.
        let ghost cascade_end = self@;
        let idx = self.place(key, value, level);
        let ghost with_item = self@;
        self.trim();
        proof {
            lemma_placed(cascade_end, level as int, (key, value));
            lemma_trimmed(with_item);
            lemma_prefix(with_item, self@.len() as int);
            assert(with_item[level as int].len() > 0);
            assert(occupied(self@, level as int, idx as int));
            if lost is Some {
                let q = lost->0;
                assert(holds_pair(start, q));
                assert(holds_pair(old(self)@, q));
                assert(evicted != Some(q));
            }
            assert(self@ == with_item.subrange(0, self@.len() as int));
            lemma_placed_levels(cascade_end, level as int, (key, value));
            assert forall|l2: int, p: (u64, u64)| #[trigger]
                level_holds(old(self)@, l2, p) && p.0 != key && Some(p) != evicted && Some(p)
                    != lost implies level_holds(self@, l2, p) || (l2 >= level && level_holds(
                self@,
                l2 + 1,
                p,
            )) by {
                assert(level_holds(start, l2, p));
                if level_holds(cascade_end, l2, p) {
                    assert(level_holds(with_item, l2, p));
                    assert(with_item[l2].len() > 0);
                    assert(self@[l2] == with_item[l2]);
                } else {
                    assert(level_holds(cascade_end, l2 + 1, p));
                    assert(level_holds(with_item, l2 + 1, p));
                    assert(with_item[l2 + 1].len() > 0);
                    assert(self@[l2 + 1] == with_item[l2 + 1]);
                }
            }
            assert forall|l2: int| 0 <= l2 < level && l2 < old(self)@.len() implies self@[l2]
                == old(self)@[l2] by {
                assert(cascade_end[l2] == start[l2]);
                assert(with_item[l2] == cascade_end[l2]);
                assert(self@[l2] == with_item[l2]);
            }
            assert forall|p: (u64, u64)|
                holds_pair(self@, p) <==> (Some(p) == Some((key, value)) || (holds_pair(
                    old(self)@,
                    p,
                ) && Some(p) != evicted && Some(p) != lost)) by {
                assert(holds_pair(self@, p) <==> holds_pair(with_item, p));
                assert(holds_pair(with_item, p) <==> (holds_pair(cascade_end, p) || p == (
                    key,
                    value,
                )));
                assert(holds_pair(cascade_end, p) <==> (holds_pair(start, p) && Some(p) != lost));
                assert(holds_pair(start, p) <==> (holds_pair(old(self)@, p) && Some(p)
                    != evicted));
            }
        }
        (idx, Ghost(evicted), Ghost(lost))
    }

    /// Moves the item in slot `idx` of level `level` one level up, or to the end of level 0
    /// if it is there already, and settles it there without letting the cache grow.
    ///
    /// Returns the new slot of the item, and the item that was lost off the bottom.
    pub(crate) fn promote(&mut self, level: usize, idx: usize) -> (r: (
        usize,
        Ghost<Option<(u64, u64)>>,
    ))
        requires
            old(self).wf(),
            old(self).spec_generation() < u64::MAX,
            occupied(old(self)@, level as int, idx as int),
        ensures
            final(self).wf(),
            final(self).same_limits(old(self)),
            final(self).spec_generation() == old(self).spec_generation() + 1,
            occupied(final(self)@, level_above(level as int), r.0 as int),
            final(self)@[level_above(level as int)][r.0 as int] == old(self)@[level as int][idx as int],
            promoted(old(self)@, final(self)@, old(self)@[level as int][idx as int], r.1@),
            promoted_to(old(self)@, final(self)@, level as int, idx as int, r.0 as int, r.1@),
    {
        proof {
            lemma_taken(self@, level as int, idx as int);
            lemma_taken_levels(self@, level as int, idx as int);
            lemma_pair_by_key(self@, level as int, idx as int);
        }
        let (key, value) = self.take(level, idx);
        let above = if level == 0 {
            0
        } else {
            level - 1
        };
        let (slot, _, lost) = self.insert_at_level(key, value, above, false);
        proof {
            lemma_revalued_back(self@, above as int, slot as int);
        }
        (slot, lost)
    }

    /// Promotes the item in slot `idx` of level `level` and hands out its key, and its
    /// value for writing.
    pub(crate) fn promote_for_write(&mut self, level: usize, idx: usize) -> (r: (&u64, &mut u64))
        requires
            old(self).wf(),
            old(self).spec_generation() < u64::MAX,
            occupied(old(self)@, level as int, idx as int),
        ensures
            (*r.0, *r.1) == old(self)@[level as int][idx as int],
            final(self).wf(),
            final(self).same_limits(old(self)),
            final(self).spec_generation() == old(self).spec_generation() + 1,
            exists|lost: Option<(u64, u64)>, slot: int| #[trigger]
                promoted_to(old(self)@, final(self)@, level as int, idx as int, slot, lost)
                    && final(self)@[level_above(level as int)][slot].1 == *final(r.1),
    {
        let (slot, lost) = self.promote(level, idx);
        let above = if level == 0 {
            0
        } else {
            level - 1
        };
        let ghost mid = self@;
        proof {
            lemma_revalued_any(mid, above as int, slot as int);
            lemma_revalued_back(mid, above as int, slot as int);
            lemma_sunk_revalued(
                old(self)@,
                mid,
                old(self)@[level as int][idx as int].0,
                above as int,
                lost@,
                slot as int,
            );
        }
        let r = self.pair_at_mut(above, slot);
        proof {
            let written = revalued(mid, above as int, slot as int, *final(r.1));
            assert(revalued(written, above as int, slot as int, old(self)@[level as int][idx as int].1)
                == mid);
            assert(promoted_to(old(self)@, written, level as int, idx as int, slot as int, lost@)
                && written[level_above(level as int)][slot as int].1 == *final(r.1));
        }
        r
    }

    /// Removes the item in slot `idx` of level `level`, drops the levels that this leaves
    /// empty at the bottom and advances the generation.
    pub(crate) fn remove_at(&mut self, level: usize, idx: usize) -> (r: (u64, u64))
        requires
            old(self).wf(),
            old(self).spec_generation() < u64::MAX,
            occupied(old(self)@, level as int, idx as int),
        ensures
            r == old(self)@[level as int][idx as int],
            final(self).wf(),
            final(self)@ == trimmed(taken(old(self)@, level as int, idx as int)),
            final(self).same_limits(old(self)),
            final(self).spec_generation() == old(self).spec_generation() + 1,
    {
        proof {
            lemma_taken(self@, level as int, idx as int);
        }
        let r = self.take(level, idx);
        let ghost rest = self@;
        self.trim();
        self.generation = self.generation + 1;
        proof {
            lemma_trimmed(rest);
            lemma_prefix(rest, self@.len() as int);
        }
        r
    }
}

} // verus!
