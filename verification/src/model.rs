//! The mathematical model of the cache: a sequence of levels, each a sequence of key-value
//! pairs, and what the operations make of such a sequence.
use crate::items::swap_removed;
use vstd::prelude::*;

verus! {

// Slots and what they hold

/// Whether slot `i` of level `l` holds an item.
pub open spec fn occupied(levels: Seq<Seq<(u64, u64)>>, l: int, i: int) -> bool {
    0 <= l < levels.len() && 0 <= i < levels[l].len()
}

/// Whether level `l` holds the pair `p`.
pub open spec fn level_holds(levels: Seq<Seq<(u64, u64)>>, l: int, p: (u64, u64)) -> bool {
    0 <= l < levels.len() && levels[l].contains(p)
}

/// Whether some slot holds the pair `p`.
pub open spec fn holds_pair(levels: Seq<Seq<(u64, u64)>>, p: (u64, u64)) -> bool {
    exists|l: int, i: int| #[trigger] occupied(levels, l, i) && levels[l][i] == p
}

/// Whether some slot holds an item with the key `key`.
pub open spec fn holds_key(levels: Seq<Seq<(u64, u64)>>, key: u64) -> bool {
    exists|l: int, i: int| #[trigger] occupied(levels, l, i) && levels[l][i].0 == key
}

/// Whether every key stands in at most one slot of the whole structure.
pub open spec fn keys_unique(levels: Seq<Seq<(u64, u64)>>) -> bool {
    forall|l1: int, i1: int, l2: int, i2: int|
        #[trigger] occupied(levels, l1, i1) && #[trigger] occupied(levels, l2, i2)
            && levels[l1][i1].0 == levels[l2][i2].0 ==> l1 == l2 && i1 == i2
}

/// Whether the bottom level, if there is any level, holds an item.
pub open spec fn bottom_occupied(levels: Seq<Seq<(u64, u64)>>) -> bool {
    levels.len() > 0 ==> levels.last().len() > 0
}

/// Whether every pair held by `a` is held by `b`.
pub open spec fn pairs_within(a: Seq<Seq<(u64, u64)>>, b: Seq<Seq<(u64, u64)>>) -> bool {
    forall|p: (u64, u64)| holds_pair(a, p) ==> holds_pair(b, p)
}

// Counting and the order of iteration

/// The number of items in all levels together.
pub open spec fn total(levels: Seq<Seq<(u64, u64)>>) -> nat
    decreases levels.len(),
{
    if levels.len() == 0 {
        0
    } else {
        total(levels.drop_last()) + levels.last().len()
    }
}

/// The number of items in the levels above level `l`: the place in the order of iteration
/// at which level `l` starts.
pub open spec fn offset(levels: Seq<Seq<(u64, u64)>>, l: int) -> nat
    recommends
        0 <= l <= levels.len(),
{
    total(levels.subrange(0, l))
}

/// All items in the order of iteration: level 0 first, each level by position.
pub open spec fn flat(levels: Seq<Seq<(u64, u64)>>) -> Seq<(u64, u64)>
    decreases levels.len(),
{
    if levels.len() == 0 {
        Seq::empty()
    } else {
        flat(levels.drop_last()) + levels.last()
    }
}

/// Whether slot `(l1, i1)` comes before slot `(l2, i2)` in the order of iteration.
pub open spec fn slot_before(l1: int, i1: int, l2: int, i2: int) -> bool {
    l1 < l2 || (l1 == l2 && i1 < i2)
}

// Levels

/// The nominal capacity of level `level`: `base` to the power `level`, held at
/// `usize::MAX` from the level on at which the power no longer fits.
pub open spec fn nominal_capacity(base: nat, level: nat) -> nat
    decreases level,
{
    if level == 0 {
        1
    } else {
        let c = nominal_capacity(base, (level - 1) as nat) * base;
        if c > usize::MAX {
            usize::MAX as nat
        } else {
            c
        }
    }
}

/// The level that an item of level `level` is promoted to.
pub open spec fn level_above(level: int) -> int {
    if level <= 0 {
        0
    } else {
        level - 1
    }
}

/// The levels without the empty levels at the bottom.
pub open spec fn trimmed(levels: Seq<Seq<(u64, u64)>>) -> Seq<Seq<(u64, u64)>>
    decreases levels.len(),
{
    if levels.len() > 0 && levels.last().len() == 0 {
        trimmed(levels.drop_last())
    } else {
        levels
    }
}

// The steps of an operation

/// The levels after the item in slot `i` of level `l` has been removed, the last item of
/// that level taking its place.
pub open spec fn removed_at(levels: Seq<Seq<(u64, u64)>>, l: int, i: int) -> Seq<Seq<(u64, u64)>>
    recommends
        occupied(levels, l, i),
{
    levels.update(l, swap_removed(levels[l], i))
}

/// The levels after the item in slot `i` of level `l` has been taken out: the bottom level
/// is dropped if that leaves it empty.
pub open spec fn taken(levels: Seq<Seq<(u64, u64)>>, l: int, i: int) -> Seq<Seq<(u64, u64)>>
    recommends
        occupied(levels, l, i),
{
    if levels[l].len() == 1 && l == levels.len() - 1 {
        levels.drop_last()
    } else {
        removed_at(levels, l, i)
    }
}

/// The levels after the pair `p` has been appended to level `l`.
pub open spec fn placed(levels: Seq<Seq<(u64, u64)>>, l: int, p: (u64, u64)) -> Seq<
    Seq<(u64, u64)>,
>
    recommends
        0 <= l < levels.len(),
{
    levels.update(l, levels[l].push(p))
}

/// The levels after the value in slot `i` of level `l` has been set to `value`.
pub open spec fn revalued(levels: Seq<Seq<(u64, u64)>>, l: int, i: int, value: u64) -> Seq<
    Seq<(u64, u64)>,
>
    recommends
        occupied(levels, l, i),
{
    levels.update(l, levels[l].update(i, (levels[l][i].0, value)))
}

/// Whether the cascade step at level `l` with the number `draw` loses an item.
pub open spec fn falls_off(levels: Seq<Seq<(u64, u64)>>, l: int, draw: int, grow: bool) -> bool {
    draw < levels[l].len() && l + 1 == levels.len() && !grow
}

/// One step of the cascade at level `l` with the number `draw`: if `draw` is the position
/// of an item of the level, that item falls. It lands in the level below; from the bottom
/// level it lands in a new level if `grow` holds, and is lost otherwise.
pub open spec fn cascaded(levels: Seq<Seq<(u64, u64)>>, l: int, draw: int, grow: bool) -> Seq<
    Seq<(u64, u64)>,
>
    recommends
        0 <= l < levels.len(),
        0 <= draw,
{
    if draw >= levels[l].len() {
        levels
    } else if l + 1 < levels.len() {
        placed(removed_at(levels, l, draw), l + 1, levels[l][draw])
    } else if grow {
        removed_at(levels, l, draw).push(seq![levels[l][draw]])
    } else {
        removed_at(levels, l, draw)
    }
}

// What an operation makes of the cache

/// Whether `new` holds exactly the pair `added` and the pairs of `old` other than
/// `gone1` and `gone2`.
pub open spec fn pairs_are(
    new: Seq<Seq<(u64, u64)>>,
    old: Seq<Seq<(u64, u64)>>,
    gone1: Option<(u64, u64)>,
    gone2: Option<(u64, u64)>,
    added: Option<(u64, u64)>,
) -> bool {
    forall|p: (u64, u64)|
        holds_pair(new, p) <==> (Some(p) == added || (holds_pair(old, p) && Some(p) != gone1
            && Some(p) != gone2))
}

/// How far a settling at level `level` moves the items that stay: the levels above `level`
/// are as they were, and every item, but the one with the key `key` and the items `gone1`
/// and `gone2`, stands in the level it stood in or, from `level` down, in the next one.
pub open spec fn sunk(
    old: Seq<Seq<(u64, u64)>>,
    new: Seq<Seq<(u64, u64)>>,
    key: u64,
    level: int,
    gone1: Option<(u64, u64)>,
    gone2: Option<(u64, u64)>,
) -> bool {
    &&& forall|l: int, p: (u64, u64)| #[trigger]
        level_holds(old, l, p) && p.0 != key && Some(p) != gone1 && Some(p) != gone2
            ==> level_holds(new, l, p) || (l >= level && level_holds(new, l + 1, p))
    &&& forall|l: int| 0 <= l < level && l < old.len() ==> #[trigger] new[l] == old[l]
}

/// What an insertion of `(key, value)` makes of the items, whatever was drawn: the pair is
/// held; an item that had the key is replaced; a cache that was full and did not hold the
/// key has given up the item `evicted` of its bottom level, and no other item has left.
pub open spec fn inserted(
    old: Seq<Seq<(u64, u64)>>,
    new: Seq<Seq<(u64, u64)>>,
    key: u64,
    value: u64,
    max_size: nat,
    evicted: Option<(u64, u64)>,
) -> bool {
    &&& forall|p: (u64, u64)|
        holds_pair(new, p) <==> (p == (key, value) || (holds_pair(old, p) && p.0 != key && Some(p)
            != evicted))
    &&& evicted is Some <==> (!holds_key(old, key) && total(old) == max_size)
    &&& evicted matches Some(p) ==> old.len() > 0 && old.last().contains(p)
    &&& total(new) == total(old) + (if holds_key(old, key) || evicted is Some {
        0int
    } else {
        1int
    })
}

/// What a promotion makes of the items, whatever was drawn: every item stays but at most
/// one, `lost`, which fell off the bottom and is not the promoted item.
pub open spec fn promoted(
    old: Seq<Seq<(u64, u64)>>,
    new: Seq<Seq<(u64, u64)>>,
    item: (u64, u64),
    lost: Option<(u64, u64)>,
) -> bool {
    &&& forall|p: (u64, u64)| holds_pair(new, p) <==> (holds_pair(old, p) && Some(p) != lost)
    &&& lost matches Some(q) ==> holds_pair(old, q) && q != item
    &&& total(new) == total(old) - (if lost is Some {
        1int
    } else {
        0int
    })
}

/// What a promotion of the item in slot `i` of level `l` makes of the cache, whatever was
/// drawn: the item stands in slot `slot` of the level above, and but for the value that the
/// caller may have written to it since, and for at most one item lost off the bottom, the
/// cache holds what it held.
pub open spec fn promoted_to(
    old: Seq<Seq<(u64, u64)>>,
    new: Seq<Seq<(u64, u64)>>,
    l: int,
    i: int,
    slot: int,
    lost: Option<(u64, u64)>,
) -> bool
    recommends
        occupied(old, l, i),
{
    &&& occupied(new, level_above(l), slot)
    &&& new[level_above(l)][slot].0 == old[l][i].0
    &&& promoted(old, revalued(new, level_above(l), slot, old[l][i].1), old[l][i], lost)
    &&& sunk(old, new, old[l][i].0, level_above(l), lost, None)
}

/// What lowering the bound to `n` makes of a cache that holds more than `n` items,
/// whatever was drawn. The levels are counted from the top; the level at which the count
/// reaches `n` becomes the bottom level and keeps as many of its items as the bound
/// allows, the levels above it stay as they are, and the levels below it are dropped.
pub open spec fn shrunk(old: Seq<Seq<(u64, u64)>>, new: Seq<Seq<(u64, u64)>>, n: nat) -> bool {
    let cut = new.len() - 1;
    &&& 0 <= cut < old.len()
    &&& offset(old, cut) < n <= offset(old, cut + 1)
    &&& forall|l: int| 0 <= l < cut ==> new[l] == old[l]
    &&& new[cut].len() == n - offset(old, cut)
    &&& forall|i: int| 0 <= i < new[cut].len() ==> old[cut].contains(#[trigger] new[cut][i])
    &&& total(new) == n
}

// Levels as lists

/// The levels that a list of lists of pairs stands for.
pub open spec fn listed(levels: Seq<Vec<(u64, u64)>>) -> Seq<Seq<(u64, u64)>> {
    Seq::new(levels.len(), |l: int| levels[l]@)
}

/// Whether a cache with the given base and bound can hold the given levels: base and bound
/// are at least 2, no key stands twice, and the items are no more than the bound allows.
pub open spec fn restorable(base: usize, max_size: usize, levels: Seq<Seq<(u64, u64)>>) -> bool {
    &&& base >= 2
    &&& max_size >= 2
    &&& keys_unique(levels)
    &&& total(levels) <= max_size
}

/// The first `l` levels of `levels`, followed by the first `i` items of level `l`.
pub open spec fn copied(levels: Seq<Seq<(u64, u64)>>, l: int, i: int) -> Seq<Seq<(u64, u64)>>
    recommends
        0 <= l < levels.len(),
        0 <= i <= levels[l].len(),
{
    levels.subrange(0, l).push(levels[l].subrange(0, i))
}

} // verus!
