//! Facts about sequences of levels, on which the proofs of the operations rest.
use crate::items::swap_removed;
use crate::model::{
    bottom_occupied, cascaded, copied, falls_off, flat, holds_key, holds_pair, keys_unique,
    level_holds, nominal_capacity, occupied, offset, pairs_are, pairs_within, placed,
    removed_at, revalued, slot_before, sunk, taken, total, trimmed,
};
use vstd::prelude::*;

verus! {

// Counting and the order of iteration

/// A new bottom level adds its items to the count.
pub proof fn lemma_total_push(levels: Seq<Seq<(u64, u64)>>, s: Seq<(u64, u64)>)
    ensures
        total(levels.push(s)) == total(levels) + s.len(),
{
    assert(levels.push(s).drop_last() =~= levels);
}

/// Replacing a level changes the count by the difference of the lengths.
pub proof fn lemma_total_update(levels: Seq<Seq<(u64, u64)>>, l: int, s: Seq<(u64, u64)>)
    requires
        0 <= l < levels.len(),
    ensures
        total(levels.update(l, s)) == total(levels) - levels[l].len() + s.len(),
    decreases levels.len(),
{
    if l == levels.len() - 1 {
        assert(levels.update(l, s).drop_last() =~= levels.drop_last());
    } else {
        assert(levels.update(l, s).drop_last() =~= levels.drop_last().update(l, s));
        lemma_total_update(levels.drop_last(), l, s);
    }
}

/// A level starts where the level above it ends.
pub proof fn lemma_offset_step(levels: Seq<Seq<(u64, u64)>>, l: int)
    requires
        0 <= l < levels.len(),
    ensures
        offset(levels, l + 1) == offset(levels, l) + levels[l].len(),
{
    assert(levels.subrange(0, l + 1).drop_last() =~= levels.subrange(0, l));
}

/// No level starts beyond the count of all items, and the end of the last level is that
/// count.
pub proof fn lemma_offset_bound(levels: Seq<Seq<(u64, u64)>>, l: int)
    requires
        0 <= l <= levels.len(),
    ensures
        offset(levels, l) <= total(levels),
        offset(levels, levels.len() as int) == total(levels),
    decreases levels.len() - l,
{
    assert(levels.subrange(0, levels.len() as int) =~= levels);
    if l < levels.len() {
        lemma_offset_step(levels, l);
        lemma_offset_bound(levels, l + 1);
    }
}

/// The count of the items above a level grows with the level.
pub proof fn lemma_offset_grows(levels: Seq<Seq<(u64, u64)>>, a: int, b: int)
    requires
        0 <= a <= b <= levels.len(),
    ensures
        offset(levels, a) <= offset(levels, b),
    decreases b - a,
{
    if a < b {
        lemma_offset_step(levels, b - 1);
        lemma_offset_grows(levels, a, b - 1);
    }
}

/// The count of the items above a level does not depend on that level or those below it.
pub proof fn lemma_offset_same(a: Seq<Seq<(u64, u64)>>, b: Seq<Seq<(u64, u64)>>, l: int)
    requires
        0 <= l <= a.len(),
        l <= b.len(),
        forall|j: int| 0 <= j < l ==> a[j] == b[j],
    ensures
        offset(a, l) == offset(b, l),
{
    assert(a.subrange(0, l) =~= b.subrange(0, l));
}

/// A level holds no more items than the whole structure.
pub proof fn lemma_level_bound(levels: Seq<Seq<(u64, u64)>>, l: int)
    requires
        0 <= l < levels.len(),
    ensures
        offset(levels, l) + levels[l].len() <= total(levels),
{
    lemma_offset_step(levels, l);
    lemma_offset_bound(levels, l + 1);
}

/// An iteration yields as many items as the levels hold.
pub proof fn lemma_flat_len(levels: Seq<Seq<(u64, u64)>>)
    ensures
        flat(levels).len() == total(levels),
    decreases levels.len(),
{
    if levels.len() > 0 {
        lemma_flat_len(levels.drop_last());
    }
}

/// The order of iteration up to a level is the order up to the level above, followed by
/// the items of that level.
pub proof fn lemma_flat_step(levels: Seq<Seq<(u64, u64)>>, l: int)
    requires
        0 <= l < levels.len(),
    ensures
        flat(levels.subrange(0, l + 1)) == flat(levels.subrange(0, l)) + levels[l],
        flat(levels.subrange(0, levels.len() as int)) == flat(levels),
{
    assert(levels.subrange(0, l + 1).drop_last() =~= levels.subrange(0, l));
    assert(levels.subrange(0, levels.len() as int) =~= levels);
}

/// The item in slot `i` of level `l` stands in the order of iteration at the place
/// `offset(levels, l) + i`.
pub proof fn lemma_flat_index(levels: Seq<Seq<(u64, u64)>>, l: int, i: int)
    requires
        occupied(levels, l, i),
    ensures
        offset(levels, l) + i < flat(levels).len(),
        flat(levels)[offset(levels, l) + i] == levels[l][i],
    decreases levels.len(),
{
    lemma_flat_len(levels);
    lemma_flat_len(levels.drop_last());
    lemma_level_bound(levels, l);
    if l == levels.len() - 1 {
        assert(levels.subrange(0, l) =~= levels.drop_last());
    } else {
        assert(levels.drop_last().subrange(0, l) =~= levels.subrange(0, l));
        lemma_flat_index(levels.drop_last(), l, i);
    }
}

/// Every place in the order of iteration is a slot of some level.
pub proof fn lemma_flat_slot(levels: Seq<Seq<(u64, u64)>>, n: int) -> (r: (int, int))
    requires
        0 <= n < flat(levels).len(),
    ensures
        occupied(levels, r.0, r.1),
        levels[r.0][r.1] == flat(levels)[n],
        n == offset(levels, r.0) + r.1,
    decreases levels.len(),
{
    lemma_flat_len(levels.drop_last());
    let m = flat(levels.drop_last()).len() as int;
    if n >= m {
        let l = levels.len() - 1;
        assert(levels.subrange(0, l) =~= levels.drop_last());
        (l, n - m)
    } else {
        let r = lemma_flat_slot(levels.drop_last(), n);
        assert(levels.drop_last().subrange(0, r.0) =~= levels.subrange(0, r.0));
        r
    }
}

/// A nominal capacity is at least 1 and fits a `usize`.
pub proof fn lemma_capacity_positive(base: nat, level: nat)
    requires
        base >= 1,
    ensures
        1 <= nominal_capacity(base, level) <= usize::MAX,
    decreases level,
{
    if level > 0 {
        lemma_capacity_positive(base, (level - 1) as nat);
        let c = nominal_capacity(base, (level - 1) as nat);
        assert(c * base >= 1) by (nonlinear_arith)
            requires
                c >= 1,
                base >= 1,
        ;
    }
}

// What the levels hold

/// Where the pairs of `a` are among those of `b`, so are the keys.
pub proof fn lemma_keys_within(a: Seq<Seq<(u64, u64)>>, b: Seq<Seq<(u64, u64)>>)
    requires
        pairs_within(a, b),
    ensures
        forall|k: u64| holds_key(a, k) ==> holds_key(b, k),
{
    assert forall|k: u64| holds_key(a, k) implies holds_key(b, k) by {
        let (l, i) = choose|l: int, i: int| #[trigger] occupied(a, l, i) && a[l][i].0 == k;
        let p = a[l][i];
        assert(holds_pair(a, p));
        assert(holds_pair(b, p));
        let (l2, i2) = choose|l2: int, i2: int| #[trigger] occupied(b, l2, i2) && b[l2][i2] == p;
        assert(occupied(b, l2, i2) && b[l2][i2].0 == k);
    }
}

/// With unique keys, the pairs other than the one in a slot are the pairs with another key
/// than the one in that slot.
pub proof fn lemma_pair_by_key(levels: Seq<Seq<(u64, u64)>>, l: int, i: int)
    requires
        occupied(levels, l, i),
        keys_unique(levels),
    ensures
        forall|p: (u64, u64)| holds_pair(levels, p) ==> (p != levels[l][i] <==> p.0 != levels[l][i].0),
        holds_key(levels, levels[l][i].0),
        holds_pair(levels, levels[l][i]),
{
    assert forall|p: (u64, u64)| holds_pair(levels, p) implies (p != levels[l][i] <==> p.0
        != levels[l][i].0) by {
        let (l2, i2) = choose|l2: int, i2: int| #[trigger]
            occupied(levels, l2, i2) && levels[l2][i2] == p;
        assert(occupied(levels, l2, i2) && occupied(levels, l, i));
    }
}

/// Dropping empty levels from the bottom changes neither the items nor their places.
pub proof fn lemma_prefix(levels: Seq<Seq<(u64, u64)>>, n: int)
    requires
        0 <= n <= levels.len(),
        forall|l: int| n <= l < levels.len() ==> (#[trigger] levels[l]).len() == 0,
    ensures
        keys_unique(levels) ==> keys_unique(levels.subrange(0, n)),
        forall|p: (u64, u64)| holds_pair(levels.subrange(0, n), p) <==> holds_pair(levels, p),
{
    let r = levels.subrange(0, n);
    if keys_unique(levels) {
        assert forall|l1: int, i1: int, l2: int, i2: int|
            #[trigger] occupied(r, l1, i1) && #[trigger] occupied(r, l2, i2) && r[l1][i1].0
                == r[l2][i2].0 implies l1 == l2 && i1 == i2 by {
            assert(occupied(levels, l1, i1) && occupied(levels, l2, i2));
        }
    }
    assert forall|p: (u64, u64)| holds_pair(r, p) implies holds_pair(levels, p) by {
        let (l2, i2) = choose|l2: int, i2: int| #[trigger] occupied(r, l2, i2) && r[l2][i2] == p;
        assert(occupied(levels, l2, i2) && levels[l2][i2] == p);
    }
    assert forall|p: (u64, u64)| holds_pair(levels, p) implies holds_pair(r, p) by {
        let (l2, i2) = choose|l2: int, i2: int| #[trigger]
            occupied(levels, l2, i2) && levels[l2][i2] == p;
        assert(levels[l2].len() > 0);
        assert(occupied(r, l2, i2) && r[l2][i2] == p);
    }
}

/// The first levels of a cache hold items of the cache, each key once.
pub proof fn lemma_truncated(levels: Seq<Seq<(u64, u64)>>, n: int)
    requires
        0 <= n <= levels.len(),
    ensures
        keys_unique(levels) ==> keys_unique(levels.subrange(0, n)),
        pairs_within(levels.subrange(0, n), levels),
        total(levels.subrange(0, n)) == offset(levels, n),
{
    let r = levels.subrange(0, n);
    if keys_unique(levels) {
        assert forall|l1: int, i1: int, l2: int, i2: int|
            #[trigger] occupied(r, l1, i1) && #[trigger] occupied(r, l2, i2) && r[l1][i1].0
                == r[l2][i2].0 implies l1 == l2 && i1 == i2 by {
            assert(occupied(levels, l1, i1) && occupied(levels, l2, i2));
        }
    }
    assert forall|p: (u64, u64)| holds_pair(r, p) implies holds_pair(levels, p) by {
        let (l2, i2) = choose|l2: int, i2: int| #[trigger] occupied(r, l2, i2) && r[l2][i2] == p;
        assert(occupied(levels, l2, i2) && levels[l2][i2] == p);
    }
}

/// What dropping the empty levels at the bottom leaves: a first part of the levels, with
/// all items, whose bottom level is not empty.
pub proof fn lemma_trimmed(levels: Seq<Seq<(u64, u64)>>)
    ensures
        bottom_occupied(trimmed(levels)),
        trimmed(levels).len() <= levels.len(),
        trimmed(levels) == levels.subrange(0, trimmed(levels).len() as int),
        forall|l: int| trimmed(levels).len() <= l < levels.len() ==> (#[trigger] levels[l]).len() == 0,
        total(trimmed(levels)) == total(levels),
        bottom_occupied(levels) ==> trimmed(levels) == levels,
    decreases levels.len(),
{
    if levels.len() > 0 && levels.last().len() == 0 {
        lemma_trimmed(levels.drop_last());
        let t = trimmed(levels);
        assert(levels.drop_last().subrange(0, t.len() as int) =~= levels.subrange(
            0,
            t.len() as int,
        ));
        assert forall|l: int| t.len() <= l < levels.len() implies (#[trigger] levels[l]).len()
            == 0 by {
            if l < levels.len() - 1 {
                assert(levels.drop_last()[l] == levels[l]);
            }
        }
    } else {
        assert(levels.subrange(0, levels.len() as int) =~= levels);
    }
}

/// A new empty level at the bottom holds no item.
pub proof fn lemma_empty_level(levels: Seq<Seq<(u64, u64)>>)
    ensures
        keys_unique(levels) ==> keys_unique(levels.push(Seq::empty())),
        total(levels.push(Seq::empty())) == total(levels),
{
    let r = levels.push(Seq::<(u64, u64)>::empty());
    lemma_total_push(levels, Seq::empty());
    if keys_unique(levels) {
        assert forall|l1: int, i1: int, l2: int, i2: int|
            #[trigger] occupied(r, l1, i1) && #[trigger] occupied(r, l2, i2) && r[l1][i1].0
                == r[l2][i2].0 implies l1 == l2 && i1 == i2 by {
            assert(occupied(levels, l1, i1) && occupied(levels, l2, i2));
        }
    }
}

// The steps of an operation

/// What removing one item does: the other items stay, the key is gone, and no key comes
/// to stand twice.
pub proof fn lemma_removed_at(levels: Seq<Seq<(u64, u64)>>, l: int, i: int)
    requires
        occupied(levels, l, i),
        keys_unique(levels),
    ensures
        keys_unique(removed_at(levels, l, i)),
        total(removed_at(levels, l, i)) == total(levels) - 1,
        !holds_key(removed_at(levels, l, i), levels[l][i].0),
        forall|p: (u64, u64)|
            holds_pair(removed_at(levels, l, i), p) <==> (holds_pair(levels, p) && p
                != levels[l][i]),
{
    let r = removed_at(levels, l, i);
    let n = levels[l].len() as int;
    lemma_total_update(levels, l, swap_removed(levels[l], i));
    // where the item in a slot of `r` stood in `levels`
    assert forall|l2: int, i2: int| #[trigger] occupied(r, l2, i2) implies ({
        let src = if l2 == l && i2 == i {
            n - 1
        } else {
            i2
        };
        occupied(levels, l2, src) && levels[l2][src] == r[l2][i2] && !(l2 == l && src == i)
    }) by {}
    assert forall|l1: int, i1: int, l2: int, i2: int|
        #[trigger] occupied(r, l1, i1) && #[trigger] occupied(r, l2, i2) && r[l1][i1].0
            == r[l2][i2].0 implies l1 == l2 && i1 == i2 by {
        let s1 = if l1 == l && i1 == i {
            n - 1
        } else {
            i1
        };
        let s2 = if l2 == l && i2 == i {
            n - 1
        } else {
            i2
        };
        assert(occupied(levels, l1, s1) && occupied(levels, l2, s2));
    }
    assert forall|l2: int, i2: int| #[trigger] occupied(r, l2, i2) implies r[l2][i2].0
        != levels[l][i].0 by {
        let src = if l2 == l && i2 == i {
            n - 1
        } else {
            i2
        };
        assert(occupied(levels, l2, src) && occupied(levels, l, i));
    }
    assert forall|p: (u64, u64)| holds_pair(r, p) implies (holds_pair(levels, p) && p
        != levels[l][i]) by {
        let (l2, i2) = choose|l2: int, i2: int| #[trigger] occupied(r, l2, i2) && r[l2][i2] == p;
        let src = if l2 == l && i2 == i {
            n - 1
        } else {
            i2
        };
        assert(occupied(levels, l2, src) && occupied(levels, l, i));
    }
    assert forall|p: (u64, u64)| (holds_pair(levels, p) && p != levels[l][i]) implies holds_pair(
        r,
        p,
    ) by {
        let (l2, i2) = choose|l2: int, i2: int| #[trigger]
            occupied(levels, l2, i2) && levels[l2][i2] == p;
        let dst = if l2 == l && i2 == n - 1 {
            i
        } else {
            i2
        };
        assert(occupied(r, l2, dst) && r[l2][dst] == p);
    }
}

/// What taking an item out does.
pub proof fn lemma_taken(levels: Seq<Seq<(u64, u64)>>, l: int, i: int)
    requires
        occupied(levels, l, i),
        keys_unique(levels),
    ensures
        keys_unique(taken(levels, l, i)),
        total(taken(levels, l, i)) == total(levels) - 1,
        !holds_key(taken(levels, l, i), levels[l][i].0),
        pairs_are(taken(levels, l, i), levels, Some(levels[l][i]), None, None),
        levels.len() - 1 <= taken(levels, l, i).len() <= levels.len(),
        l < levels.len() - 1 ==> taken(levels, l, i).len() == levels.len(),
{
    let r = removed_at(levels, l, i);
    lemma_removed_at(levels, l, i);
    if levels[l].len() == 1 && l == levels.len() - 1 {
        assert(r.subrange(0, l) =~= levels.drop_last());
        lemma_prefix(r, l);
        lemma_keys_within(levels.drop_last(), r);
    }
}

/// Where taking an item out leaves the other items: each in its level.
pub proof fn lemma_taken_levels(levels: Seq<Seq<(u64, u64)>>, l: int, i: int)
    requires
        occupied(levels, l, i),
    ensures
        forall|l2: int, p: (u64, u64)| #[trigger]
            level_holds(levels, l2, p) && p != levels[l][i] ==> level_holds(
                taken(levels, l, i),
                l2,
                p,
            ),
        forall|l2: int|
            0 <= l2 < taken(levels, l, i).len() && l2 != l ==> #[trigger] taken(levels, l, i)[l2]
                == levels[l2],
{
    let t = taken(levels, l, i);
    let n = levels[l].len() as int;
    assert forall|l2: int, p: (u64, u64)| #[trigger]
        level_holds(levels, l2, p) && p != levels[l][i] implies level_holds(t, l2, p) by {
        let k = choose|k: int| 0 <= k < levels[l2].len() && levels[l2][k] == p;
        if l2 == l {
            let dst = if k == n - 1 {
                i
            } else {
                k
            };
            assert(t[l][dst] == p);
        } else {
            assert(t[l2][k] == p);
        }
    }
}

/// What appending a pair with a new key to a level does.
pub proof fn lemma_placed(levels: Seq<Seq<(u64, u64)>>, l: int, p: (u64, u64))
    requires
        0 <= l < levels.len(),
        keys_unique(levels),
        !holds_key(levels, p.0),
    ensures
        keys_unique(placed(levels, l, p)),
        total(placed(levels, l, p)) == total(levels) + 1,
        forall|q: (u64, u64)| holds_pair(placed(levels, l, p), q) <==> (holds_pair(levels, q) || q == p),
{
    let r = placed(levels, l, p);
    let n = levels[l].len() as int;
    lemma_total_update(levels, l, levels[l].push(p));
    assert forall|l2: int, i2: int| #[trigger] occupied(r, l2, i2) implies (if l2 == l && i2 == n {
        r[l2][i2] == p
    } else {
        occupied(levels, l2, i2) && levels[l2][i2] == r[l2][i2]
    }) by {}
    assert forall|l1: int, i1: int, l2: int, i2: int|
        #[trigger] occupied(r, l1, i1) && #[trigger] occupied(r, l2, i2) && r[l1][i1].0
            == r[l2][i2].0 implies l1 == l2 && i1 == i2 by {
        if !(l1 == l && i1 == n) {
            assert(occupied(levels, l1, i1));
        }
        if !(l2 == l && i2 == n) {
            assert(occupied(levels, l2, i2));
        }
    }
    assert forall|q: (u64, u64)| holds_pair(r, q) implies (holds_pair(levels, q) || q == p) by {
        let (l2, i2) = choose|l2: int, i2: int| #[trigger] occupied(r, l2, i2) && r[l2][i2] == q;
        if !(l2 == l && i2 == n) {
            assert(occupied(levels, l2, i2));
        }
    }
    assert forall|q: (u64, u64)| (holds_pair(levels, q) || q == p) implies holds_pair(r, q) by {
        if holds_pair(levels, q) {
            let (l2, i2) = choose|l2: int, i2: int| #[trigger]
                occupied(levels, l2, i2) && levels[l2][i2] == q;
            assert(occupied(r, l2, i2) && r[l2][i2] == q);
        } else {
            assert(occupied(r, l, n) && r[l][n] == q);
        }
    }
}

/// Where appending a pair to a level leaves the items: each in its level.
pub proof fn lemma_placed_levels(levels: Seq<Seq<(u64, u64)>>, l: int, q: (u64, u64))
    requires
        0 <= l < levels.len(),
    ensures
        forall|l2: int, p: (u64, u64)| #[trigger]
            level_holds(levels, l2, p) ==> level_holds(placed(levels, l, q), l2, p),
{
    let r = placed(levels, l, q);
    assert forall|l2: int, p: (u64, u64)| #[trigger] level_holds(levels, l2, p) implies level_holds(
        r,
        l2,
        p,
    ) by {
        let k = choose|k: int| 0 <= k < levels[l2].len() && levels[l2][k] == p;
        assert(r[l2][k] == p);
    }
}

/// What a new bottom level with one pair of a new key does.
pub proof fn lemma_grown(levels: Seq<Seq<(u64, u64)>>, p: (u64, u64))
    requires
        keys_unique(levels),
        !holds_key(levels, p.0),
    ensures
        keys_unique(levels.push(seq![p])),
        total(levels.push(seq![p])) == total(levels) + 1,
        forall|q: (u64, u64)| holds_pair(levels.push(seq![p]), q) <==> (holds_pair(levels, q) || q == p),
{
    let r = levels.push(seq![p]);
    let n = levels.len() as int;
    lemma_total_push(levels, seq![p]);
    assert forall|l1: int, i1: int, l2: int, i2: int|
        #[trigger] occupied(r, l1, i1) && #[trigger] occupied(r, l2, i2) && r[l1][i1].0
            == r[l2][i2].0 implies l1 == l2 && i1 == i2 by {
        if l1 != n {
            assert(occupied(levels, l1, i1));
        }
        if l2 != n {
            assert(occupied(levels, l2, i2));
        }
    }
    assert forall|q: (u64, u64)| holds_pair(r, q) implies (holds_pair(levels, q) || q == p) by {
        let (l2, i2) = choose|l2: int, i2: int| #[trigger] occupied(r, l2, i2) && r[l2][i2] == q;
        if l2 != n {
            assert(occupied(levels, l2, i2));
        }
    }
    assert forall|q: (u64, u64)| (holds_pair(levels, q) || q == p) implies holds_pair(r, q) by {
        if holds_pair(levels, q) {
            let (l2, i2) = choose|l2: int, i2: int| #[trigger]
                occupied(levels, l2, i2) && levels[l2][i2] == q;
            assert(occupied(r, l2, i2) && r[l2][i2] == q);
        } else {
            assert(occupied(r, n, 0) && r[n][0] == q);
        }
    }
}

/// What one step of the cascade does: no key comes to stand twice, and every item stays
/// in the structure but the one that falls off the bottom.
pub proof fn lemma_cascaded(levels: Seq<Seq<(u64, u64)>>, l: int, draw: int, grow: bool)
    requires
        0 <= l < levels.len(),
        0 <= draw,
        keys_unique(levels),
    ensures
        keys_unique(cascaded(levels, l, draw, grow)),
        forall|p: (u64, u64)|
            holds_pair(cascaded(levels, l, draw, grow), p) <==> (holds_pair(levels, p) && !(
            falls_off(levels, l, draw, grow) && p == levels[l][draw])),
        total(cascaded(levels, l, draw, grow)) == total(levels) - (if falls_off(
            levels,
            l,
            draw,
            grow,
        ) {
            1int
        } else {
            0int
        }),
        levels.len() <= cascaded(levels, l, draw, grow).len() <= levels.len() + 1,
        falls_off(levels, l, draw, grow) ==> holds_pair(levels, levels[l][draw]),
{
    if draw < levels[l].len() {
        let item = levels[l][draw];
        let r = removed_at(levels, l, draw);
        assert(occupied(levels, l, draw));
        lemma_removed_at(levels, l, draw);
        if l + 1 < levels.len() {
            lemma_placed(r, l + 1, item);
        } else if grow {
            lemma_grown(r, item);
        }
    }
}

/// Where one step of the cascade leaves the items: each in its level, but the one that
/// falls, which stands in the next level unless it falls off.
pub proof fn lemma_cascaded_levels(levels: Seq<Seq<(u64, u64)>>, l: int, draw: int, grow: bool)
    requires
        0 <= l < levels.len(),
        0 <= draw,
    ensures
        forall|l2: int, p: (u64, u64)| #[trigger]
            level_holds(levels, l2, p) && !(falls_off(levels, l, draw, grow) && p
                == levels[l][draw]) ==> level_holds(cascaded(levels, l, draw, grow), l2, p) || (l2
                == l && level_holds(cascaded(levels, l, draw, grow), l + 1, p)),
        forall|l2: int|
            0 <= l2 < levels.len() && l2 != l && l2 != l + 1 ==> #[trigger] cascaded(
                levels,
                l,
                draw,
                grow,
            )[l2] == levels[l2],
{
    let c = cascaded(levels, l, draw, grow);
    assert forall|l2: int, p: (u64, u64)| #[trigger]
        level_holds(levels, l2, p) && !(falls_off(levels, l, draw, grow) && p
            == levels[l][draw]) implies level_holds(c, l2, p) || (l2 == l && level_holds(
        c,
        l + 1,
        p,
    )) by {
        let k = choose|k: int| 0 <= k < levels[l2].len() && levels[l2][k] == p;
        if draw < levels[l].len() {
            let n = levels[l].len() as int;
            if l2 == l {
                if k == draw {
                    if l + 1 < levels.len() {
                        assert(c[l + 1][levels[l + 1].len() as int] == p);
                    } else if grow {
                        assert(c[l + 1][0] == p);
                    }
                } else {
                    let dst = if k == n - 1 {
                        draw
                    } else {
                        k
                    };
                    assert(c[l][dst] == p);
                }
            } else if l2 == l + 1 {
                assert(c[l2][k] == p);
            } else {
                assert(c[l2][k] == p);
            }
        } else {
            assert(c[l2][k] == p);
        }
    }
}

/// Setting a value in place moves no item and changes no key.
pub proof fn lemma_revalued(levels: Seq<Seq<(u64, u64)>>, l: int, i: int, value: u64)
    requires
        occupied(levels, l, i),
    ensures
        keys_unique(levels) ==> keys_unique(revalued(levels, l, i, value)),
        bottom_occupied(levels) ==> bottom_occupied(revalued(levels, l, i, value)),
        total(revalued(levels, l, i, value)) == total(levels),
        forall|l2: int, i2: int|
            occupied(revalued(levels, l, i, value), l2, i2) <==> occupied(levels, l2, i2),
        forall|l2: int, i2: int| #[trigger]
            occupied(levels, l2, i2) ==> revalued(levels, l, i, value)[l2][i2].0
                == levels[l2][i2].0,
{
    let r = revalued(levels, l, i, value);
    lemma_total_update(levels, l, levels[l].update(i, (levels[l][i].0, value)));
    if keys_unique(levels) {
        assert forall|l1: int, i1: int, l2: int, i2: int|
            #[trigger] occupied(r, l1, i1) && #[trigger] occupied(r, l2, i2) && r[l1][i1].0
                == r[l2][i2].0 implies l1 == l2 && i1 == i2 by {
            assert(occupied(levels, l1, i1) && occupied(levels, l2, i2));
        }
    }
}

/// Writing a value to a slot keeps the cache well formed, whatever the value.
pub proof fn lemma_revalued_any(levels: Seq<Seq<(u64, u64)>>, l: int, i: int)
    requires
        occupied(levels, l, i),
    ensures
        forall|v: u64|
            {
                &&& keys_unique(levels) ==> keys_unique(#[trigger] revalued(levels, l, i, v))
                &&& bottom_occupied(levels) ==> bottom_occupied(revalued(levels, l, i, v))
                &&& total(revalued(levels, l, i, v)) == total(levels)
                &&& occupied(revalued(levels, l, i, v), l, i)
                &&& revalued(levels, l, i, v)[l][i] == (levels[l][i].0, v)
            },
{
    assert forall|v: u64|
        {
            &&& keys_unique(levels) ==> keys_unique(#[trigger] revalued(levels, l, i, v))
            &&& bottom_occupied(levels) ==> bottom_occupied(revalued(levels, l, i, v))
            &&& total(revalued(levels, l, i, v)) == total(levels)
            &&& occupied(revalued(levels, l, i, v), l, i)
            &&& revalued(levels, l, i, v)[l][i] == (levels[l][i].0, v)
        } by {
        lemma_revalued(levels, l, i, v);
    }
}

/// Writing a value to a slot and then the former value again leaves the levels as they were.
pub proof fn lemma_revalued_back(levels: Seq<Seq<(u64, u64)>>, l: int, i: int)
    requires
        occupied(levels, l, i),
    ensures
        revalued(levels, l, i, levels[l][i].1) == levels,
        forall|v: u64| #[trigger]
            revalued(revalued(levels, l, i, v), l, i, levels[l][i].1) == levels,
{
    assert(revalued(levels, l, i, levels[l][i].1) =~= levels) by {
        assert(levels[l].update(i, (levels[l][i].0, levels[l][i].1)) =~= levels[l]);
    }
    assert forall|v: u64| #[trigger]
        revalued(revalued(levels, l, i, v), l, i, levels[l][i].1) == levels by {
        let r = revalued(levels, l, i, v);
        assert(r[l].update(i, (r[l][i].0, levels[l][i].1)) =~= levels[l]);
        assert(revalued(r, l, i, levels[l][i].1) =~= levels);
    }
}

/// Writing the value of the item with the key `key` moves no other item.
pub proof fn lemma_sunk_revalued(
    old: Seq<Seq<(u64, u64)>>,
    new: Seq<Seq<(u64, u64)>>,
    key: u64,
    level: int,
    gone: Option<(u64, u64)>,
    slot: int,
)
    requires
        sunk(old, new, key, level, gone, None),
        occupied(new, level, slot),
        new[level][slot].0 == key,
    ensures
        forall|v: u64| sunk(old, #[trigger] revalued(new, level, slot, v), key, level, gone, None),
{
    assert forall|v: u64| sunk(old, #[trigger] revalued(new, level, slot, v), key, level, gone, None) by {
        let r = revalued(new, level, slot, v);
        assert forall|l: int, p: (u64, u64)| #[trigger]
            level_holds(old, l, p) && p.0 != key && Some(p) != gone && Some(p) != None::<
                (u64, u64),
            > implies level_holds(r, l, p) || (l >= level && level_holds(r, l + 1, p)) by {
            if level_holds(new, l, p) {
                let k = choose|k: int| 0 <= k < new[l].len() && new[l][k] == p;
                assert(r[l][k] == p);
            } else {
                let below = new[l + 1];
                let k = choose|k: int| 0 <= k < below.len() && below[k] == p;
                assert(r[l + 1][k] == p);
            }
        }
        assert forall|l: int| 0 <= l < level && l < old.len() implies #[trigger] r[l] == old[l] by {
            assert(new[l] == old[l]);
        }
    }
}

/// What a partial copy of levels holds, and how it goes on.
pub proof fn lemma_copied(levels: Seq<Seq<(u64, u64)>>, l: int, i: int)
    requires
        0 <= l < levels.len(),
        0 <= i <= levels[l].len(),
    ensures
        total(copied(levels, l, i)) == offset(levels, l) + i,
        offset(levels, l) + levels[l].len() <= total(levels),
        copied(levels, l, 0) == levels.subrange(0, l).push(Seq::empty()),
        copied(levels, l, levels[l].len() as int) == levels.subrange(0, l + 1),
        i < levels[l].len() ==> placed(copied(levels, l, i), l, levels[l][i]) == copied(
            levels,
            l,
            i + 1,
        ),
        forall|l2: int, i2: int| #[trigger]
            occupied(copied(levels, l, i), l2, i2) ==> occupied(levels, l2, i2) && levels[l2][i2]
                == copied(levels, l, i)[l2][i2] && slot_before(l2, i2, l, i),
{
    lemma_total_push(levels.subrange(0, l), levels[l].subrange(0, i));
    lemma_level_bound(levels, l);
    assert(levels[l].subrange(0, 0) =~= Seq::empty());
    assert(levels[l].subrange(0, levels[l].len() as int) =~= levels[l]);
    assert(copied(levels, l, levels[l].len() as int) =~= levels.subrange(0, l + 1));
    if i < levels[l].len() {
        assert(levels[l].subrange(0, i).push(levels[l][i]) =~= levels[l].subrange(0, i + 1));
        assert(placed(copied(levels, l, i), l, levels[l][i]) =~= copied(levels, l, i + 1));
    }
}

/// Levels that differ from others in values alone hold as many items, and each key once
/// if the others do.
pub proof fn lemma_same_keys(old: Seq<Seq<(u64, u64)>>, new: Seq<Seq<(u64, u64)>>)
    requires
        new.len() == old.len(),
        forall|l: int| 0 <= l < old.len() ==> (#[trigger] new[l]).len() == old[l].len(),
        forall|l: int, i: int| #[trigger] occupied(old, l, i) ==> new[l][i].0 == old[l][i].0,
    ensures
        total(new) == total(old),
        keys_unique(old) ==> keys_unique(new),
        bottom_occupied(old) ==> bottom_occupied(new),
    decreases old.len(),
{
    if old.len() > 0 {
        assert forall|l: int, i: int| #[trigger] occupied(old.drop_last(), l, i) implies new.drop_last()[l][i].0
            == old.drop_last()[l][i].0 by {
            assert(occupied(old, l, i));
        }
        assert forall|l: int| 0 <= l < old.drop_last().len() implies (#[trigger] new.drop_last()[l]).len()
            == old.drop_last()[l].len() by {
            assert(new[l].len() == old[l].len());
        }
        lemma_same_keys(old.drop_last(), new.drop_last());
        assert(new[old.len() - 1].len() == old[old.len() - 1].len());
    }
    if keys_unique(old) {
        assert forall|l1: int, i1: int, l2: int, i2: int|
            #[trigger] occupied(new, l1, i1) && #[trigger] occupied(new, l2, i2) && new[l1][i1].0
                == new[l2][i2].0 implies l1 == l2 && i1 == i2 by {
            assert(new[l1].len() == old[l1].len());
            assert(new[l2].len() == old[l2].len());
            assert(occupied(old, l1, i1) && occupied(old, l2, i2));
        }
    }
}

} // verus!
