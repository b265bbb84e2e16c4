//! What holds of every well-formed cache, and of the operations taken together.
use crate::cache::CommonCache;
use crate::items::distinct_keys;
use crate::lemmas::{
    lemma_flat_index, lemma_flat_len, lemma_flat_slot, lemma_offset_grows, lemma_offset_step,
    lemma_revalued,
};
use crate::model::{
    flat, holds_key, holds_pair, inserted, level_above, nominal_capacity, occupied, offset,
    promoted, promoted_to, revalued, taken, total,
};
use vstd::arithmetic::power::pow;
use vstd::prelude::*;

verus! {

/// The number of items of a well-formed cache is the sum of the numbers of items of its
/// levels, which is the number of items that an iteration yields; and the bottom level,
/// if there is a level at all, holds an item.
pub proof fn law_size_and_bottom(cache: &CommonCache)
    requires
        cache.wf(),
    ensures
        total(cache@) == flat(cache@).len(),
        cache@.len() > 0 ==> total(cache@) == total(cache@.drop_last()) + cache@.last().len(),
        cache@.len() > 0 ==> cache@.last().len() > 0,
        cache@.len() == 0 ==> total(cache@) == 0,
{
    lemma_flat_len(cache@);
}

/// In a well-formed cache a key stands in at most one slot.
pub proof fn law_key_in_one_slot(cache: &CommonCache, l1: int, i1: int, l2: int, i2: int)
    requires
        cache.wf(),
        occupied(cache@, l1, i1),
        occupied(cache@, l2, i2),
        cache@[l1][i1].0 == cache@[l2][i2].0,
    ensures
        l1 == l2,
        i1 == i2,
{
}

/// An iteration over a well-formed cache yields no key twice.
pub proof fn law_iteration_keys_distinct(cache: &CommonCache)
    requires
        cache.wf(),
    ensures
        distinct_keys(flat(cache@)),
{
    let levels = cache@;
    let f = flat(levels);
    assert forall|m: int, n: int| 0 <= m < f.len() && 0 <= n < f.len() && m != n implies (
    #[trigger] f[m]).0 != (#[trigger] f[n]).0 by {
        let a = lemma_flat_slot(levels, m);
        let b = lemma_flat_slot(levels, n);
        assert(occupied(levels, a.0, a.1) && occupied(levels, b.0, b.1));
    }
}

/// A well-formed cache holds no more items than its bound allows.
pub proof fn law_size_within_bound(cache: &CommonCache)
    requires
        cache.wf(),
    ensures
        total(cache@) <= cache.spec_max_size(),
        flat(cache@).len() <= cache.spec_max_size(),
{
    lemma_flat_len(cache@);
}

/// An iteration yields exactly the pairs that the slots hold.
pub proof fn law_iteration_yields_the_items(levels: Seq<Seq<(u64, u64)>>)
    ensures
        forall|p: (u64, u64)| flat(levels).contains(p) <==> holds_pair(levels, p),
{
    assert forall|p: (u64, u64)| flat(levels).contains(p) implies holds_pair(levels, p) by {
        let n = choose|n: int| 0 <= n < flat(levels).len() && flat(levels)[n] == p;
        let a = lemma_flat_slot(levels, n);
        assert(occupied(levels, a.0, a.1) && levels[a.0][a.1] == p);
    }
    assert forall|p: (u64, u64)| holds_pair(levels, p) implies flat(levels).contains(p) by {
        let (l, i) = choose|l: int, i: int| #[trigger] occupied(levels, l, i) && levels[l][i] == p;
        lemma_flat_index(levels, l, i);
        assert(flat(levels)[offset(levels, l) + i] == p);
    }
}

/// Writing to the value of a slot, which is all that the `peek` functions allow, changes
/// neither the number of items, nor which slots are occupied, nor any key.
pub proof fn law_peek_keeps_keys(levels: Seq<Seq<(u64, u64)>>, l: int, i: int, value: u64)
    requires
        occupied(levels, l, i),
    ensures
        total(revalued(levels, l, i, value)) == total(levels),
        revalued(levels, l, i, value).len() == levels.len(),
        forall|l2: int, i2: int|
            occupied(revalued(levels, l, i, value), l2, i2) <==> occupied(levels, l2, i2),
        forall|l2: int, i2: int| #[trigger]
            occupied(levels, l2, i2) ==> revalued(levels, l, i, value)[l2][i2].0
                == levels[l2][i2].0,
        forall|k: u64| holds_key(revalued(levels, l, i, value), k) <==> holds_key(levels, k),
{
    let r = revalued(levels, l, i, value);
    lemma_revalued(levels, l, i, value);
    assert forall|k: u64| holds_key(r, k) implies holds_key(levels, k) by {
        let (l2, i2) = choose|l2: int, i2: int| #[trigger] occupied(r, l2, i2) && r[l2][i2].0 == k;
        assert(occupied(levels, l2, i2) && levels[l2][i2].0 == k);
    }
    assert forall|k: u64| holds_key(levels, k) implies holds_key(r, k) by {
        let (l2, i2) = choose|l2: int, i2: int| #[trigger]
            occupied(levels, l2, i2) && levels[l2][i2].0 == k;
        assert(occupied(r, l2, i2) && r[l2][i2].0 == k);
    }
}

/// An item of a level comes before every item of a lower level in an iteration.
pub proof fn law_level_order(levels: Seq<Seq<(u64, u64)>>, l1: int, i1: int, l2: int, i2: int)
    requires
        occupied(levels, l1, i1),
        occupied(levels, l2, i2),
        l1 < l2,
    ensures
        offset(levels, l1) + i1 < offset(levels, l2) + i2 < flat(levels).len(),
        flat(levels)[offset(levels, l1) + i1] == levels[l1][i1],
        flat(levels)[offset(levels, l2) + i2] == levels[l2][i2],
{
    lemma_flat_index(levels, l1, i1);
    lemma_flat_index(levels, l2, i2);
    lemma_offset_step(levels, l1);
    lemma_offset_grows(levels, l1 + 1, l2);
}

/// A promotion leaves the promoted key in the cache, one level up, or in level 0 if it
/// was there.
pub proof fn law_promotion_keeps_the_item(
    old: Seq<Seq<(u64, u64)>>,
    new: Seq<Seq<(u64, u64)>>,
    l: int,
    i: int,
    slot: int,
    lost: Option<(u64, u64)>,
)
    requires
        occupied(old, l, i),
        promoted_to(old, new, l, i, slot, lost),
    ensures
        holds_key(new, old[l][i].0),
        occupied(new, if l == 0 { 0 } else { l - 1 }, slot),
        new[if l == 0 { 0 } else { l - 1 }][slot].0 == old[l][i].0,
{
    assert(occupied(new, level_above(l), slot));
}

/// Whether the state after the insertion of the key and value at position `j` is what
/// that insertion can make of the state before it.
pub open spec fn insertion_step(
    states: Seq<Seq<Seq<(u64, u64)>>>,
    keys: Seq<u64>,
    values: Seq<u64>,
    max_size: nat,
    j: int,
) -> bool {
    exists|evicted: Option<(u64, u64)>| #[trigger]
        inserted(states[j], states[j + 1], keys[j], values[j], max_size, evicted)
}

/// Whether `states` are the caches that a sequence of insertions goes through: the first
/// is empty, and each next one is what the insertion of the next key and value has made of
/// the one before, under the bound `max_size`.
pub open spec fn insertion_run(
    states: Seq<Seq<Seq<(u64, u64)>>>,
    keys: Seq<u64>,
    values: Seq<u64>,
    max_size: nat,
) -> bool {
    &&& states.len() == keys.len() + 1
    &&& values.len() == keys.len()
    &&& states[0].len() == 0
    &&& forall|j: int|
        0 <= j < keys.len() ==> #[trigger] insertion_step(states, keys, values, max_size, j)
}

/// After the first `n` of a run of insertions of distinct keys, no more of them than the
/// bound allows, the cache holds exactly the first `n` pairs.
pub proof fn lemma_insertion_run(
    states: Seq<Seq<Seq<(u64, u64)>>>,
    keys: Seq<u64>,
    values: Seq<u64>,
    max_size: nat,
    n: int,
)
    requires
        insertion_run(states, keys, values, max_size),
        keys.no_duplicates(),
        keys.len() <= max_size,
        0 <= n <= keys.len(),
    ensures
        total(states[n]) == n,
        forall|p: (u64, u64)|
            holds_pair(states[n], p) <==> exists|m: int|
                0 <= m < n && p == (#[trigger] keys[m], values[m]),
    decreases n,
{
    if n == 0 {
        assert forall|p: (u64, u64)| !holds_pair(states[0], p) by {
            if holds_pair(states[0], p) {
                let (l, i) = choose|l: int, i: int| #[trigger]
                    occupied(states[0], l, i) && states[0][l][i] == p;
            }
        }
    } else {
        let j = n - 1;
        lemma_insertion_run(states, keys, values, max_size, j);
        assert(insertion_step(states, keys, values, max_size, j));
        let evicted = choose|evicted: Option<(u64, u64)>| #[trigger]
            inserted(states[j], states[j + 1], keys[j], values[j], max_size, evicted);
        if holds_key(states[j], keys[j]) {
            let (l, i) = choose|l: int, i: int| #[trigger]
                occupied(states[j], l, i) && states[j][l][i].0 == keys[j];
            let p = states[j][l][i];
            assert(holds_pair(states[j], p));
            let m = choose|m: int| 0 <= m < j && p == (#[trigger] keys[m], values[m]);
            assert(keys[m] == keys[j]);
        }
        assert(evicted is None);
        assert forall|p: (u64, u64)| holds_pair(states[n], p) implies exists|m: int|
            0 <= m < n && p == (#[trigger] keys[m], values[m]) by {
            if p == (keys[j], values[j]) {
            } else {
                assert(holds_pair(states[j], p));
                let m = choose|m: int| 0 <= m < j && p == (#[trigger] keys[m], values[m]);
                assert(0 <= m < n && p == (keys[m], values[m]));
            }
        }
        assert forall|p: (u64, u64)|
            (exists|m: int| 0 <= m < n && p == (#[trigger] keys[m], values[m])) implies holds_pair(
            states[n],
            p,
        ) by {
            let m = choose|m: int| 0 <= m < n && p == (#[trigger] keys[m], values[m]);
            if m < j {
                assert(holds_pair(states[j], p));
                assert(keys[m] != keys[j]);
            }
        }
    }
}

/// Inserting distinct keys into an empty cache, no more of them than the bound allows, and
/// then iterating yields exactly those keys, whatever is drawn on the way.
pub proof fn law_insert_round_trip(
    states: Seq<Seq<Seq<(u64, u64)>>>,
    keys: Seq<u64>,
    values: Seq<u64>,
    max_size: nat,
)
    requires
        insertion_run(states, keys, values, max_size),
        keys.no_duplicates(),
        keys.len() <= max_size,
    ensures
        flat(states.last()).len() == keys.len(),
        forall|k: u64|
            keys.contains(k) <==> exists|n: int|
                0 <= n < flat(states.last()).len() && (#[trigger] flat(states.last())[n]).0 == k,
{
    let end = states.last();
    lemma_insertion_run(states, keys, values, max_size, keys.len() as int);
    lemma_flat_len(end);
    law_iteration_yields_the_items(end);
    assert forall|k: u64| keys.contains(k) implies exists|n: int|
        0 <= n < flat(end).len() && (#[trigger] flat(end)[n]).0 == k by {
        let m = choose|m: int| 0 <= m < keys.len() && keys[m] == k;
        let p = (keys[m], values[m]);
        assert(holds_pair(end, p));
        assert(flat(end).contains(p));
        let n = choose|n: int| 0 <= n < flat(end).len() && flat(end)[n] == p;
        assert(flat(end)[n].0 == k);
    }
    assert forall|k: u64|
        (exists|n: int| 0 <= n < flat(end).len() && (#[trigger] flat(end)[n]).0 == k)
            implies keys.contains(k) by {
        let n = choose|n: int| 0 <= n < flat(end).len() && (#[trigger] flat(end)[n]).0 == k;
        let p = flat(end)[n];
        assert(flat(end).contains(p));
        assert(holds_pair(end, p));
        let m = choose|m: int| 0 <= m < keys.len() && p == (#[trigger] keys[m], values[m]);
        assert(keys[m] == k);
    }
}

/// A key is held exactly if a pair with that key is held.
pub proof fn law_key_has_pair(levels: Seq<Seq<(u64, u64)>>, key: u64)
    ensures
        holds_key(levels, key) <==> exists|v: u64| holds_pair(levels, (key, v)),
{
    if holds_key(levels, key) {
        let (l, i) = choose|l: int, i: int| #[trigger]
            occupied(levels, l, i) && levels[l][i].0 == key;
        assert(holds_pair(levels, (key, levels[l][i].1)));
    }
    if exists|v: u64| holds_pair(levels, (key, v)) {
        let v = choose|v: u64| holds_pair(levels, (key, v));
        let (l, i) = choose|l: int, i: int| #[trigger]
            occupied(levels, l, i) && levels[l][i] == (key, v);
        assert(occupied(levels, l, i) && levels[l][i].0 == key);
    }
}

/// The nominal capacity of level `level` is `base` to the power `level`, or `usize::MAX`
/// where that power is larger.
pub proof fn law_nominal_capacity_is_power(base: nat, level: nat)
    requires
        base >= 1,
    ensures
        nominal_capacity(base, level) == if pow(base as int, level) <= usize::MAX {
            pow(base as int, level)
        } else {
            usize::MAX as int
        },
    decreases level,
{
    reveal(pow);
    if level > 0 {
        law_nominal_capacity_is_power(base, (level - 1) as nat);
        let before = pow(base as int, (level - 1) as nat);
        assert(pow(base as int, level) == base * before);
        if before > usize::MAX {
            assert(base * before > usize::MAX) by (nonlinear_arith)
                requires
                    base >= 1,
                    before > usize::MAX,
            ;
            assert(usize::MAX * base >= usize::MAX) by (nonlinear_arith)
                requires
                    base >= 1,
            ;
        } else {
            assert(before * base == base * before) by (nonlinear_arith);
        }
    }
}

} // verus!
