//! Handles to the slots of a cache: the entry, which holds the cache for the time of one
//! chain of calls, and the index, which stands alone and is checked against the generation
//! of the cache at each use.
use crate::cache::CommonCache;
use crate::lemmas::{
    lemma_revalued_any, lemma_revalued_back, lemma_sunk_revalued,
};
use crate::model::{
    level_above, occupied, promoted_to, revalued, taken, trimmed,
};
use vstd::prelude::*;

verus! {

/// A reference to an occupied slot of the cache, together with the cache itself.
///
/// As long as the entry lives nothing else can touch the cache. What the cache is once the
/// entry is gone is what the entry has made of it.
#[derive(Debug)]
pub struct Entry<'a> {
    /// The entire cache.
    pub cache: &'a mut CommonCache,
    /// The position of the level of the slot.
    pub level: usize,
    /// The position of the slot in the level.
    pub idx: usize,
}

/// The coordinates of a slot of a cache, stamped with the generation of the cache at the
/// time they were taken.
///
/// An index holds nothing of the cache and may be kept for any time, but it is of use only
/// as long as the cache has not been restructured: an insertion or a promotion moves
/// random items between levels, and the coordinates may then name another item or none.
/// Every use of an index therefore asks that its generation is that of the cache.
#[derive(Debug, PartialEq, Eq, Hash, Clone)]
pub struct Index {
    /// The position of the level of the slot.
    pub level: usize,
    /// The position of the slot in the level.
    pub idx: usize,
    /// The generation of the cache when this index was made.
    pub generation: u64,
}

impl<'a> Entry<'a> {
    /// Whether the cache is well formed and the slot holds an item.
    pub open spec fn wf(&self) -> bool {
        &&& self.cache.wf()
        &&& occupied(self.cache@, self.level as int, self.idx as int)
    }

    /// The key and the value in the slot.
    pub open spec fn pair(&self) -> (u64, u64) {
        self.cache@[self.level as int][self.idx as int]
    }

    /// Reads the key and the value at the entry without touching the rest of the cache.
    /// A read of this kind does not count as a use of the item.
    pub fn peek_key_value(&self) -> (r: (&u64, &u64))
        requires
            self.wf(),
        ensures
            *r.0 == self.pair().0,
            *r.1 == self.pair().1,
    {
        self.cache.pair_at(self.level, self.idx)
    }

    /// Silently reads the key at this entry.
    pub fn peek_key(&self) -> (r: &u64)
        requires
            self.wf(),
        ensures
            *r == self.pair().0,
    {
        self.peek_key_value().0
    }

    /// Silently reads the value at this entry.
    pub fn peek_value(&self) -> (r: &u64)
        requires
            self.wf(),
        ensures
            *r == self.pair().1,
    {
        self.peek_key_value().1
    }

    /// Reads the entry without touching the rest of the cache, with the value for writing.
    /// Neither the read nor a write of the value counts as a use of the item.
    pub fn peek_key_value_mut(&mut self) -> (r: (&u64, &mut u64))
        requires
            old(self).wf(),
        ensures
            (*r.0, *r.1) == old(self).pair(),
            final(self).level == old(self).level,
            final(self).idx == old(self).idx,
            final(self).wf(),
            final(self).cache@ == revalued(
                old(self).cache@,
                old(self).level as int,
                old(self).idx as int,
                *final(r.1),
            ),
            final(self).cache.same_counters(old(self).cache),
            *final(final(self).cache) == *final(old(self).cache),
    {
        proof {
            lemma_revalued_any(self.cache@, self.level as int, self.idx as int);
        }
        self.cache.pair_at_mut(self.level, self.idx)
    }

    /// Reads the value for writing without touching the rest of the cache.
    pub fn peek_value_mut(&mut self) -> (r: &mut u64)
        requires
            old(self).wf(),
        ensures
            *r == old(self).pair().1,
            final(self).level == old(self).level,
            final(self).idx == old(self).idx,
            final(self).wf(),
            final(self).cache@ == revalued(
                old(self).cache@,
                old(self).level as int,
                old(self).idx as int,
                *final(r),
            ),
            final(self).cache.same_counters(old(self).cache),
            *final(final(self).cache) == *final(old(self).cache),
    {
        self.peek_key_value_mut().1
    }

    /// Reads the item at this entry and gives up the entry, for references that live as
    /// long as the borrow of the cache. The item stays in the cache.
    pub fn peek_long(self) -> (r: (&'a u64, &'a mut u64))
        requires
            self.wf(),
        ensures
            (*r.0, *r.1) == self.pair(),
            final(self.cache).wf(),
            final(self.cache)@ == revalued(
                old(self.cache)@,
                self.level as int,
                self.idx as int,
                *final(r.1),
            ),
            final(self.cache).same_counters(old(self.cache)),
    {
        proof {
            lemma_revalued_any(self.cache@, self.level as int, self.idx as int);
        }
        self.cache.pair_at_mut(self.level, self.idx)
    }

    /// Gets the key and the value at this entry and promotes the item: it moves one level
    /// up, and the levels from the bottom up to that level may each shed an item to the
    /// level beneath. The cache does not grow by this: an item that falls off the bottom
    /// is lost. The entry follows the item to its new slot.
    pub fn get_key_value(&mut self) -> (r: (&u64, &mut u64))
        requires
            old(self).wf(),
            old(self).cache.spec_generation() < u64::MAX,
        ensures
            (*r.0, *r.1) == old(self).pair(),
            final(self).level == level_above(old(self).level as int),
            final(self).wf(),
            final(self).pair() == (old(self).pair().0, *final(r.1)),
            final(self).cache.same_limits(old(self).cache),
            final(self).cache.spec_generation() == old(self).cache.spec_generation() + 1,
            exists|lost: Option<(u64, u64)>| #[trigger]
                promoted_to(
                    old(self).cache@,
                    final(self).cache@,
                    old(self).level as int,
                    old(self).idx as int,
                    final(self).idx as int,
                    lost,
                ),
            *final(final(self).cache) == *final(old(self).cache),
    {
        let (slot, lost) = self.cache.promote(self.level, self.idx);
        self.level = if self.level == 0 {
            0
        } else {
            self.level - 1
        };
        self.idx = slot;
        let ghost mid = self.cache@;
        proof {
            lemma_revalued_any(mid, self.level as int, self.idx as int);
            lemma_revalued_back(mid, self.level as int, self.idx as int);
            lemma_sunk_revalued(
                old(self).cache@,
                mid,
                old(self).pair().0,
                self.level as int,
                lost@,
                self.idx as int,
            );
        }
        let r = self.cache.pair_at_mut(self.level, self.idx);
        proof {
            let written = revalued(mid, self.level as int, self.idx as int, *final(r.1));
            assert(revalued(written, self.level as int, self.idx as int, old(self).pair().1) == mid);
            assert(promoted_to(
                old(self).cache@,
                written,
                old(self).level as int,
                old(self).idx as int,
                self.idx as int,
                lost@,
            ));
        }
        r
    }

    /// Gets the value at this entry and promotes the item, as `get_key_value` does.
    pub fn get_value(&mut self) -> (r: &mut u64)
        requires
            old(self).wf(),
            old(self).cache.spec_generation() < u64::MAX,
        ensures
            *r == old(self).pair().1,
            final(self).level == level_above(old(self).level as int),
            final(self).wf(),
            final(self).pair() == (old(self).pair().0, *final(r)),
            final(self).cache.same_limits(old(self).cache),
            final(self).cache.spec_generation() == old(self).cache.spec_generation() + 1,
            exists|lost: Option<(u64, u64)>| #[trigger]
                promoted_to(
                    old(self).cache@,
                    final(self).cache@,
                    old(self).level as int,
                    old(self).idx as int,
                    final(self).idx as int,
                    lost,
                ),
            *final(final(self).cache) == *final(old(self).cache),
    {
        self.get_key_value().1
    }

    /// Gets the key and the value at this entry and promotes the item, as `get_key_value`
    /// does, but gives up the entry, for references that live as long as the borrow of the
    /// cache. The item stays in the cache.
    pub fn get_long(self) -> (r: (&'a u64, &'a mut u64))
        requires
            self.wf(),
            self.cache.spec_generation() < u64::MAX,
        ensures
            (*r.0, *r.1) == self.pair(),
            final(self.cache).wf(),
            final(self.cache).same_limits(old(self.cache)),
            final(self.cache).spec_generation() == old(self.cache).spec_generation() + 1,
            exists|lost: Option<(u64, u64)>, slot: int| #[trigger]
                promoted_to(
                    old(self.cache)@,
                    final(self.cache)@,
                    self.level as int,
                    self.idx as int,
                    slot,
                    lost,
                ) && final(self.cache)@[level_above(self.level as int)][slot].1 == *final(r.1),
    {
        self.cache.promote_for_write(self.level, self.idx)
    }

    /// Removes the item of this entry from the cache and returns it. The last item of its
    /// level takes its slot, levels left empty at the bottom are dropped, and the
    /// generation advances; nothing else changes.
    pub fn remove(self) -> (r: (u64, u64))
        requires
            self.wf(),
            self.cache.spec_generation() < u64::MAX,
        ensures
            r == self.pair(),
            final(self.cache).wf(),
            final(self.cache)@ == trimmed(
                taken(old(self.cache)@, self.level as int, self.idx as int),
            ),
            final(self.cache).same_limits(old(self.cache)),
            final(self.cache).spec_generation() == old(self.cache).spec_generation() + 1,
    {
        self.cache.remove_at(self.level, self.idx)
    }

    /// Makes an index of this entry: the entry without the cache.
    pub fn index(self) -> (r: Index)
        ensures
            r.level == self.level,
            r.idx == self.idx,
            r.generation == old(self.cache).spec_generation(),
            *final(self.cache) == *old(self.cache),
    {
        self.index_and_cache().0
    }

    /// Splits this entry into an index and the cache.
    pub fn index_and_cache(self) -> (r: (Index, &'a mut CommonCache))
        ensures
            r.0.level == self.level,
            r.0.idx == self.idx,
            r.0.generation == old(self.cache).spec_generation(),
            *r.1 == *old(self.cache),
            *final(self.cache) == *final(r.1),
    {
        (Index { level: self.level, idx: self.idx, generation: self.cache.generation() }, self.cache)
    }
}

impl Index {
    /// Whether this index can be used with `cache`: the cache is well formed, its
    /// generation is the one that the index was made at, and the slot holds an item.
    pub open spec fn valid_for(&self, cache: &CommonCache) -> bool {
        &&& cache.wf()
        &&& self.generation == cache.spec_generation()
        &&& occupied(cache@, self.level as int, self.idx as int)
    }

    /// Tells whether the generation of this index is that of `cache` and its slot holds an
    /// item there. Every other method of an index asks for this.
    pub fn matches(&self, cache: &CommonCache) -> (r: bool)
        requires
            cache.wf(),
        ensures
            r == self.valid_for(cache),
    {
        self.generation == cache.generation() && self.level < cache.depth() && self.idx
            < cache.level_len(self.level)
    }

    /// Gets the entry that this index stands for.
    pub fn entry(self, cache: &mut CommonCache) -> (e: Entry<'_>)
        requires
            self.valid_for(old(cache)),
        ensures
            e.wf(),
            *e.cache == *old(cache),
            e.level == self.level,
            e.idx == self.idx,
            *final(cache) == *final(e.cache),
    {
        Entry { cache, level: self.level, idx: self.idx }
    }

    /// Reads the key and the value at the index without touching the rest of the cache.
    /// A read of this kind does not count as a use of the item.
    pub fn peek_key_value<'a>(&'a self, cache: &'a CommonCache) -> (r: (&'a u64, &'a u64))
        requires
            self.valid_for(cache),
        ensures
            (*r.0, *r.1) == cache@[self.level as int][self.idx as int],
    {
        cache.pair_at(self.level, self.idx)
    }

    /// Silently reads the key at this index.
    pub fn peek_key<'a>(&'a self, cache: &'a CommonCache) -> (r: &'a u64)
        requires
            self.valid_for(cache),
        ensures
            *r == cache@[self.level as int][self.idx as int].0,
    {
        self.peek_key_value(cache).0
    }

    /// Silently reads the value at this index.
    pub fn peek_value<'a>(&'a self, cache: &'a CommonCache) -> (r: &'a u64)
        requires
            self.valid_for(cache),
        ensures
            *r == cache@[self.level as int][self.idx as int].1,
    {
        self.peek_key_value(cache).1
    }

    /// Reads the item at this index without touching the rest of the cache, with the value
    /// for writing. This does not restructure the cache: the index stays valid.
    pub fn peek_key_value_mut<'a>(&'a self, cache: &'a mut CommonCache) -> (r: (
        &'a u64,
        &'a mut u64,
    ))
        requires
            self.valid_for(old(cache)),
        ensures
            (*r.0, *r.1) == old(cache)@[self.level as int][self.idx as int],
            final(cache)@ == revalued(
                old(cache)@,
                self.level as int,
                self.idx as int,
                *final(r.1),
            ),
            final(cache).same_counters(old(cache)),
            self.valid_for(final(cache)),
    {
        proof {
            lemma_revalued_any(cache@, self.level as int, self.idx as int);
        }
        cache.pair_at_mut(self.level, self.idx)
    }

    /// Reads the value at this index for writing without touching the rest of the cache.
    /// This does not restructure the cache: the index stays valid.
    pub fn peek_value_mut<'a>(&'a self, cache: &'a mut CommonCache) -> (r: &'a mut u64)
        requires
            self.valid_for(old(cache)),
        ensures
            *r == old(cache)@[self.level as int][self.idx as int].1,
            final(cache)@ == revalued(old(cache)@, self.level as int, self.idx as int, *final(r)),
            final(cache).same_counters(old(cache)),
            self.valid_for(final(cache)),
    {
        self.peek_key_value_mut(cache).1
    }

    /// Gets the key and the value at this index and promotes the item: it moves one level
    /// up, and the levels from the bottom up to that level may each shed an item to the
    /// level beneath. The cache does not grow by this: an item that falls off the bottom
    /// is lost. The index is used up, and every other index into the cache becomes stale.
    pub fn get_key_value(self, cache: &mut CommonCache) -> (r: (&u64, &mut u64))
        requires
            self.valid_for(old(cache)),
            old(cache).spec_generation() < u64::MAX,
        ensures
            (*r.0, *r.1) == old(cache)@[self.level as int][self.idx as int],
            final(cache).wf(),
            final(cache).same_limits(old(cache)),
            final(cache).spec_generation() == old(cache).spec_generation() + 1,
            exists|lost: Option<(u64, u64)>, slot: int| #[trigger]
                promoted_to(
                    old(cache)@,
                    final(cache)@,
                    self.level as int,
                    self.idx as int,
                    slot,
                    lost,
                ) && final(cache)@[level_above(self.level as int)][slot].1 == *final(r.1),
    {
        cache.promote_for_write(self.level, self.idx)
    }

    /// Gets the value at this index and promotes the item, as `get_key_value` does.
    pub fn get_value(self, cache: &mut CommonCache) -> (r: &mut u64)
        requires
            self.valid_for(old(cache)),
            old(cache).spec_generation() < u64::MAX,
        ensures
            *r == old(cache)@[self.level as int][self.idx as int].1,
            final(cache).wf(),
            final(cache).same_limits(old(cache)),
            final(cache).spec_generation() == old(cache).spec_generation() + 1,
            exists|lost: Option<(u64, u64)>, slot: int| #[trigger]
                promoted_to(
                    old(cache)@,
                    final(cache)@,
                    self.level as int,
                    self.idx as int,
                    slot,
                    lost,
                ) && final(cache)@[level_above(self.level as int)][slot].1 == *final(r),
    {
        self.get_key_value(cache).1
    }
}

} // verus!
