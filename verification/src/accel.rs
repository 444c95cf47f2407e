//! Building the split of a k-d tree.
use vstd::prelude::*;
use crate::float_bits::{float_lt, bits_lt, is_nan, order_key, float_min, float_max, bits_min, bits_max, lemma_zero_key, SIGN_BIT, INFINITY_BITS};

verus! {

/// Whether an element whose extent along the split axis is `low..high`
/// belongs to the low or (`high_side`) the high side of the plane at `split`:
/// the low side holds what reaches down to the plane, the high side what
/// reaches up to it, so that an element touching the plane is on both and
/// one lying flat in it is not lost.
pub open spec fn on_side(low: u32, high: u32, split: u32, high_side: bool) -> bool {
    if high_side { !float_lt(high, split) } else { !float_lt(split, low) }
}

/// The items of `elems` on one side of the plane, in their order.
pub open spec fn side_items<T>(elems: Seq<(T, u32, u32)>, split: u32, high_side: bool) -> Seq<T>
    decreases elems.len(),
{
    if elems.len() == 0 {
        Seq::empty()
    } else {
        let rest = side_items(elems.drop_last(), split, high_side);
        let e = elems.last();
        if on_side(e.1, e.2, split, high_side) {
            rest.push(e.0)
        } else {
            rest
        }
    }
}

/// Splits elements, each given with its extent `(low, high)` along the split
/// axis, by the plane at `split`: returns the low side and the high side, each
/// in the order of `elems`.  An element that spans or touches the plane goes
/// to both.
pub fn split_at_plane<T: Copy>(elems: &Vec<(T, u32, u32)>, split: u32) -> (r: (Vec<T>, Vec<T>))
    ensures
        r.0@ == side_items(elems@, split, false),
        r.1@ == side_items(elems@, split, true),
{
    let mut low: Vec<T> = Vec::new();
    let mut high: Vec<T> = Vec::new();
    let mut i: usize = 0;
    while i < elems.len()
        invariant
            i <= elems@.len(),
            low@ == side_items(elems@.take(i as int), split, false),
            high@ == side_items(elems@.take(i as int), split, true),
        decreases elems@.len() - i,
    {
        let (item, lo, hi) = elems[i];
        assert(elems@.take(i + 1).drop_last() =~= elems@.take(i as int));
        if !bits_lt(hi, split) {
            high.push(item);
        }
        if !bits_lt(split, lo) {
            low.push(item);
        }
        i = i + 1;
    }
    assert(elems@.take(elems@.len() as int) =~= elems@);
    (low, high)
}

/// An element is kept on at least one side of the plane unless its extent is
/// reversed: a NaN bound or split puts it on a side, and so does any
/// extent `low <= high`.
pub open spec fn proper_extent(low: u32, high: u32) -> bool {
    is_nan(low) || is_nan(high) || order_key(low) <= order_key(high)
}

/// An element whose extent lies below the plane goes to the low side only,
/// one whose extent lies above it to the high side only, and one that
/// reaches across it to both.
pub proof fn lemma_side_by_extent(low: u32, high: u32, split: u32)
    requires
        !is_nan(low),
        !is_nan(high),
        !is_nan(split),
        order_key(low) <= order_key(high),
    ensures
        order_key(high) < order_key(split) ==> on_side(low, high, split, false) && !on_side(low, high, split, true),
        order_key(split) < order_key(low) ==> on_side(low, high, split, true) && !on_side(low, high, split, false),
        order_key(low) < order_key(split) < order_key(high) ==> on_side(low, high, split, false) && on_side(low, high, split, true),
{
}

/// Every element with a proper extent is on at least one side of the plane.
pub proof fn lemma_element_kept(low: u32, high: u32, split: u32)
    requires
        proper_extent(low, high),
    ensures
        on_side(low, high, split, false) || on_side(low, high, split, true),
{
}

/// The split loses no element with a proper extent and invents none: each
/// such element is on a side, and whatever is on a side is an element that
/// belongs there.
pub proof fn lemma_split_keeps_elements<T>(elems: Seq<(T, u32, u32)>, split: u32)
    ensures
        forall|k: int| 0 <= k < elems.len() && proper_extent(elems[k].1, elems[k].2) ==>
            side_items(elems, split, false).contains(#[trigger] elems[k].0)
            || side_items(elems, split, true).contains(elems[k].0),
        forall|x: T, high_side: bool| side_items(elems, split, high_side).contains(x) ==>
            exists|k: int| 0 <= k < elems.len() && #[trigger] elems[k].0 == x
                && on_side(elems[k].1, elems[k].2, split, high_side),
    decreases elems.len(),
{
    if elems.len() > 0 {
        let init = elems.drop_last();
        lemma_split_keeps_elements(init, split);
        let e = elems.last();
        assert forall|k: int| 0 <= k < elems.len() && proper_extent(elems[k].1, elems[k].2) implies
            side_items(elems, split, false).contains(#[trigger] elems[k].0)
            || side_items(elems, split, true).contains(elems[k].0) by {
            if k < elems.len() - 1 {
                assert(init[k] == elems[k]);
                if side_items(init, split, false).contains(init[k].0) {
                    let j = choose|j: int| 0 <= j < side_items(init, split, false).len() && side_items(init, split, false)[j] == init[k].0;
                    assert(side_items(elems, split, false)[j] == elems[k].0);
                } else {
                    let j = choose|j: int| 0 <= j < side_items(init, split, true).len() && side_items(init, split, true)[j] == init[k].0;
                    assert(side_items(elems, split, true)[j] == elems[k].0);
                }
            } else {
                lemma_element_kept(e.1, e.2, split);
                if on_side(e.1, e.2, split, false) {
                    let s = side_items(elems, split, false);
                    assert(s[s.len() - 1] == e.0);
                } else {
                    let s = side_items(elems, split, true);
                    assert(s[s.len() - 1] == e.0);
                }
            }
        }
        assert forall|x: T, high_side: bool| side_items(elems, split, high_side).contains(x) implies
            exists|k: int| 0 <= k < elems.len() && #[trigger] elems[k].0 == x
                && on_side(elems[k].1, elems[k].2, split, high_side) by {
            let s = side_items(elems, split, high_side);
            let j = choose|j: int| 0 <= j < s.len() && s[j] == x;
            if on_side(e.1, e.2, split, high_side) && j == s.len() - 1 {
                assert(elems[elems.len() - 1].0 == x);
            } else {
                assert(side_items(init, split, high_side)[j] == x);
                assert(side_items(init, split, high_side).contains(x));
                let k = choose|k: int| 0 <= k < init.len() && #[trigger] init[k].0 == x
                    && on_side(init[k].1, init[k].2, split, high_side);
                assert(elems[k] == init[k]);
            }
        }
    }
}

}

verus! {

/// The distances along a ray at which it enters and leaves the slab of a box
/// on one axis, in either order, as `f32` bit patterns.
pub struct Slab {
    pub low_t: u32,
    pub high_t: u32,
}

pub open spec fn slab_entry(s: Slab) -> u32 {
    float_min(s.low_t, s.high_t)
}

pub open spec fn slab_exit(s: Slab) -> u32 {
    float_max(s.low_t, s.high_t)
}

/// The axis and distance at which a ray is inside all three slabs: the
/// latest entry, the first axis on ties.
pub open spec fn box_entry(slabs: [Slab; 3]) -> (usize, u32) {
    let e0 = (0usize, slab_entry(slabs[0]));
    let e1 = if float_lt(e0.1, slab_entry(slabs[1])) { (1usize, slab_entry(slabs[1])) } else { e0 };
    if float_lt(e1.1, slab_entry(slabs[2])) { (2usize, slab_entry(slabs[2])) } else { e1 }
}

/// The axis and distance at which a ray leaves the first of the three slabs:
/// the earliest exit, the first axis on ties.
pub open spec fn box_exit(slabs: [Slab; 3]) -> (usize, u32) {
    let e0 = (0usize, slab_exit(slabs[0]));
    let e1 = if float_lt(slab_exit(slabs[1]), e0.1) { (1usize, slab_exit(slabs[1])) } else { e0 };
    if float_lt(slab_exit(slabs[2]), e1.1) { (2usize, slab_exit(slabs[2])) } else { e1 }
}

/// Whether the ray meets the box at all: it leaves it in front of its
/// origin, and not before it has entered all slabs.
pub open spec fn meets_box(slabs: [Slab; 3]) -> bool {
    !(float_lt(box_exit(slabs).1, 0) || float_lt(box_exit(slabs).1, box_entry(slabs).1))
}

/// Where a ray enters and leaves a box, from where it enters and leaves the
/// box's slab on each axis: `None` when it misses the box or the box lies
/// behind it, else the axis and distance of entry and of exit.
pub fn entry_exit(slabs: &[Slab; 3]) -> (r: Option<((usize, u32), (usize, u32))>)
    ensures
        r == (if meets_box(*slabs) { Some((box_entry(*slabs), box_exit(*slabs))) } else { None }),
{
    let mut entry = (0usize, bits_min(slabs[0].low_t, slabs[0].high_t));
    let mut exit = (0usize, bits_max(slabs[0].low_t, slabs[0].high_t));
    let v1 = bits_min(slabs[1].low_t, slabs[1].high_t);
    if bits_lt(entry.1, v1) {
        entry = (1, v1);
    }
    let w1 = bits_max(slabs[1].low_t, slabs[1].high_t);
    if bits_lt(w1, exit.1) {
        exit = (1, w1);
    }
    let v2 = bits_min(slabs[2].low_t, slabs[2].high_t);
    if bits_lt(entry.1, v2) {
        entry = (2, v2);
    }
    let w2 = bits_max(slabs[2].low_t, slabs[2].high_t);
    if bits_lt(w2, exit.1) {
        exit = (2, w2);
    }
    if bits_lt(exit.1, 0) || bits_lt(exit.1, entry.1) {
        None
    } else {
        Some((entry, exit))
    }
}

/// When a ray meets a box, its distances there are ordered: it enters no
/// later than it leaves, and leaves in front of its origin.
pub proof fn lemma_met_box_ordered(slabs: [Slab; 3])
    requires
        meets_box(slabs),
        !is_nan(box_entry(slabs).1),
        !is_nan(box_exit(slabs).1),
    ensures
        order_key(box_entry(slabs).1) <= order_key(box_exit(slabs).1),
        0 <= order_key(box_exit(slabs).1),
{
    lemma_zero_key();
}

/// Two slabs with the same two distances, in the same or the other order.
pub open spec fn same_distances(a: Slab, b: Slab) -> bool {
    (a.low_t == b.low_t && a.high_t == b.high_t) || (a.low_t == b.high_t && a.high_t == b.low_t)
}

/// A NaN is ordered above every number, and the order of numbers stays
/// between those of the infinities.
pub proof fn lemma_key_range(x: u32)
    ensures
        is_nan(x) <==> order_key(x) == SIGN_BIT as int,
        !is_nan(x) ==> -(INFINITY_BITS as int) <= order_key(x) <= INFINITY_BITS as int,
{
}

/// `f32::min` and `f32::max` give the same value whatever the order of their
/// arguments (two zeros of different sign, or two NaNs, are one value).
pub proof fn lemma_min_max_symmetric(x: u32, y: u32)
    ensures
        order_key(float_min(x, y)) == order_key(float_min(y, x)),
        order_key(float_max(x, y)) == order_key(float_max(y, x)),
{
    lemma_key_range(x);
    lemma_key_range(y);
}

/// A slab is entered at the smaller and left at the larger of its two
/// distances, whichever order they come in; a NaN distance is passed over
/// in favour of the other.
pub proof fn lemma_slab_entry_exit(s: Slab)
    ensures
        slab_entry(s) == s.low_t || slab_entry(s) == s.high_t,
        slab_exit(s) == s.low_t || slab_exit(s) == s.high_t,
        !is_nan(s.low_t) && !is_nan(s.high_t) ==> {
            &&& order_key(slab_entry(s)) <= order_key(s.low_t)
            &&& order_key(slab_entry(s)) <= order_key(s.high_t)
            &&& order_key(s.low_t) <= order_key(slab_exit(s))
            &&& order_key(s.high_t) <= order_key(slab_exit(s))
        },
        is_nan(s.low_t) ==> slab_entry(s) == s.high_t && slab_exit(s) == s.high_t,
        is_nan(s.high_t) && !is_nan(s.low_t) ==> slab_entry(s) == s.low_t && slab_exit(s) == s.low_t,
{
}

/// Where a ray enters and leaves a box does not depend on the order of each
/// slab's two distances: swapping `low_t` and `high_t` of any of the slabs
/// leaves whether the box is met, the axes of entry and exit, and the entry
/// and exit distances (as values) unchanged.
pub proof fn lemma_slab_order_irrelevant(a: [Slab; 3], b: [Slab; 3])
    requires
        forall|i: int| 0 <= i < 3 ==> same_distances(#[trigger] a[i], b[i]),
    ensures
        meets_box(a) == meets_box(b),
        box_entry(a).0 == box_entry(b).0,
        box_exit(a).0 == box_exit(b).0,
        order_key(box_entry(a).1) == order_key(box_entry(b).1),
        order_key(box_exit(a).1) == order_key(box_exit(b).1),
{
    assert(same_distances(a[0], b[0]));
    assert(same_distances(a[1], b[1]));
    assert(same_distances(a[2], b[2]));
    lemma_min_max_symmetric(a[0].low_t, a[0].high_t);
    lemma_min_max_symmetric(a[1].low_t, a[1].high_t);
    lemma_min_max_symmetric(a[2].low_t, a[2].high_t);
    lemma_key_range(box_entry(a).1);
    lemma_key_range(box_entry(b).1);
    lemma_key_range(box_exit(a).1);
    lemma_key_range(box_exit(b).1);
    lemma_key_range(slab_entry(a[0]));
    lemma_key_range(slab_entry(a[1]));
    lemma_key_range(slab_entry(a[2]));
    lemma_key_range(slab_entry(b[0]));
    lemma_key_range(slab_entry(b[1]));
    lemma_key_range(slab_entry(b[2]));
    lemma_key_range(slab_exit(a[0]));
    lemma_key_range(slab_exit(a[1]));
    lemma_key_range(slab_exit(a[2]));
    lemma_key_range(slab_exit(b[0]));
    lemma_key_range(slab_exit(b[1]));
    lemma_key_range(slab_exit(b[2]));
    lemma_zero_key();
}

/// The box is entered where the last of the three slabs is entered and left
/// where the first of them is left: the entry is the entry of one slab, and
/// among numbers the greatest slab entry, on the first axis that has it; the
/// exit is the least slab exit, on the first axis that has it.  The box is
/// met exactly when its exit lies neither behind the origin nor before its
/// entry.
pub proof fn lemma_box_entry_exit_extremes(slabs: [Slab; 3])
    ensures
        box_entry(slabs).0 < 3,
        box_exit(slabs).0 < 3,
        box_entry(slabs).1 == slab_entry(slabs[box_entry(slabs).0 as int]),
        box_exit(slabs).1 == slab_exit(slabs[box_exit(slabs).0 as int]),
        (forall|i: int| 0 <= i < 3 ==> !is_nan(#[trigger] slab_entry(slabs[i]))) ==>
            forall|i: int| 0 <= i < 3 ==> {
                &&& order_key(#[trigger] slab_entry(slabs[i])) <= order_key(box_entry(slabs).1)
                &&& i < box_entry(slabs).0 ==> order_key(slab_entry(slabs[i])) < order_key(box_entry(slabs).1)
            },
        (forall|i: int| 0 <= i < 3 ==> !is_nan(#[trigger] slab_exit(slabs[i]))) ==>
            forall|i: int| 0 <= i < 3 ==> {
                &&& order_key(box_exit(slabs).1) <= order_key(#[trigger] slab_exit(slabs[i]))
                &&& i < box_exit(slabs).0 ==> order_key(box_exit(slabs).1) < order_key(slab_exit(slabs[i]))
            },
        meets_box(slabs) <==> !(!is_nan(box_exit(slabs).1) && order_key(box_exit(slabs).1) < 0)
            && !(!is_nan(box_exit(slabs).1) && !is_nan(box_entry(slabs).1)
                && order_key(box_exit(slabs).1) < order_key(box_entry(slabs).1)),
{
    lemma_zero_key();
    if forall|i: int| 0 <= i < 3 ==> !is_nan(#[trigger] slab_entry(slabs[i])) {
        assert(!is_nan(slab_entry(slabs[0])));
        assert(!is_nan(slab_entry(slabs[1])));
        assert(!is_nan(slab_entry(slabs[2])));
    }
    if forall|i: int| 0 <= i < 3 ==> !is_nan(#[trigger] slab_exit(slabs[i])) {
        assert(!is_nan(slab_exit(slabs[0])));
        assert(!is_nan(slab_exit(slabs[1])));
        assert(!is_nan(slab_exit(slabs[2])));
    }
}

/// Which child of a k-d tree node a ray visits from a split plane that it
/// crosses at distance `t`, being inside the node between `entry_t` and
/// `exit_t`.
pub enum KdStep {
    /// Only the child on the ray's side of the plane.
    Near,
    /// Only the other child.
    Far,
    /// Both: the near child up to `t`, the far one from `t` on.
    Both,
}

pub open spec fn kd_step_for(t: u32, entry_t: u32, exit_t: u32) -> KdStep {
    if !float_lt(t, exit_t) && !is_nan(t) && !is_nan(exit_t) || float_lt(t, 0) {
        KdStep::Near
    } else if !float_lt(entry_t, t) && !is_nan(t) && !is_nan(entry_t) {
        KdStep::Far
    } else {
        KdStep::Both
    }
}

/// Chooses the children of a node to visit: the near child alone when the
/// plane is crossed at or beyond the exit or behind the origin, the far
/// child alone when it is crossed at or before the entry, else both.
pub fn kd_step(t: u32, entry_t: u32, exit_t: u32) -> (r: KdStep)
    ensures
        r == kd_step_for(t, entry_t, exit_t),
        float_lt(t, 0) ==> r is Near,
{
    proof {
        lemma_kd_step_cases(t, entry_t, exit_t);
    }
    let t_ge_exit = !bits_lt(t, exit_t) && !crate::float_bits::bits_is_nan(t) && !crate::float_bits::bits_is_nan(exit_t);
    if t_ge_exit || bits_lt(t, 0) {
        KdStep::Near
    } else if !bits_lt(entry_t, t) && !crate::float_bits::bits_is_nan(t) && !crate::float_bits::bits_is_nan(entry_t) {
        KdStep::Far
    } else {
        KdStep::Both
    }
}

/// Which children are visited, by where the plane is crossed.  A plane
/// crossed behind the ray's origin (`t` a number below zero) sends the search
/// to the near child alone, wherever the ray enters and leaves the node; so
/// does a plane crossed at or beyond the exit.  The far child alone is
/// visited exactly when the plane is crossed at or before the entry, in
/// front of the origin and before the exit; both exactly when it is crossed
/// in front of the origin strictly between entry and exit, or `t` is NaN
/// and the other cases do not apply.
pub proof fn lemma_kd_step_cases(t: u32, entry_t: u32, exit_t: u32)
    ensures
        !is_nan(t) && order_key(t) < 0 ==> kd_step_for(t, entry_t, exit_t) is Near,
        !is_nan(t) && !is_nan(exit_t) && order_key(exit_t) <= order_key(t)
            ==> kd_step_for(t, entry_t, exit_t) is Near,
        kd_step_for(t, entry_t, exit_t) is Near ==> !is_nan(t) && (order_key(t) < 0
            || !is_nan(exit_t) && order_key(exit_t) <= order_key(t)),
        kd_step_for(t, entry_t, exit_t) is Far <==> {
            &&& !is_nan(t) && !is_nan(entry_t)
            &&& 0 <= order_key(t) <= order_key(entry_t)
            &&& is_nan(exit_t) || order_key(t) < order_key(exit_t)
        },
        kd_step_for(t, entry_t, exit_t) is Both <==> {
            ||| is_nan(t)
            ||| {
                &&& 0 <= order_key(t)
                &&& is_nan(entry_t) || order_key(entry_t) < order_key(t)
                &&& is_nan(exit_t) || order_key(t) < order_key(exit_t)
            }
        },
        float_lt(t, 0) <==> !is_nan(t) && order_key(t) < 0,
{
    lemma_zero_key();
}

/// The componentwise extreme of extents: the least of `lows` or (`highs`)
/// the greatest, as `f32::min` and `f32::max` fold them.
pub open spec fn fold_extreme(vals: Seq<u32>, highest: bool) -> u32
    decreases vals.len(),
{
    if vals.len() <= 1 {
        vals[0]
    } else {
        let prev = fold_extreme(vals.drop_last(), highest);
        if highest { float_max(prev, vals.last()) } else { float_min(prev, vals.last()) }
    }
}

/// The smallest (or, with `highest`, the largest) of a nonempty list of
/// extents, folded from the front with `f32::min` (or `f32::max`).
pub fn extreme_of(vals: &Vec<u32>, highest: bool) -> (r: u32)
    requires
        vals@.len() > 0,
    ensures
        r == fold_extreme(vals@, highest),
{
    let mut acc = vals[0];
    let mut i: usize = 1;
    while i < vals.len()
        invariant
            1 <= i <= vals@.len(),
            acc == fold_extreme(vals@.take(i as int), highest),
        decreases vals@.len() - i,
    {
        assert(vals@.take(i + 1).drop_last() =~= vals@.take(i as int));
        acc = if highest { bits_max(acc, vals[i]) } else { bits_min(acc, vals[i]) };
        i = i + 1;
    }
    assert(vals@.take(vals@.len() as int) =~= vals@);
    acc
}

}

verus! {

/// The fold of `f32::min` (or `f32::max`) over a nonempty list gives one of
/// its values, a number as soon as the list holds one, and the least (or
/// greatest) of its numbers.
pub proof fn lemma_extreme_is_least_or_greatest(vals: Seq<u32>, highest: bool)
    requires
        vals.len() > 0,
    ensures
        vals.contains(fold_extreme(vals, highest)),
        forall|i: int| 0 <= i < vals.len() && !is_nan(#[trigger] vals[i]) ==> {
            &&& !is_nan(fold_extreme(vals, highest))
            &&& highest ==> order_key(vals[i]) <= order_key(fold_extreme(vals, highest))
            &&& !highest ==> order_key(fold_extreme(vals, highest)) <= order_key(vals[i])
        },
    decreases vals.len(),
{
    let r = fold_extreme(vals, highest);
    if vals.len() == 1 {
        assert(vals[0] == r);
    } else {
        let init = vals.drop_last();
        lemma_extreme_is_least_or_greatest(init, highest);
        let p = fold_extreme(init, highest);
        let j = choose|j: int| 0 <= j < init.len() && init[j] == p;
        assert(vals[j] == p);
        assert(vals[vals.len() - 1] == vals.last());
        assert forall|i: int| 0 <= i < vals.len() && !is_nan(#[trigger] vals[i]) implies {
            &&& !is_nan(r)
            &&& highest ==> order_key(vals[i]) <= order_key(r)
            &&& !highest ==> order_key(r) <= order_key(vals[i])
        } by {
            if i < vals.len() - 1 {
                assert(init[i] == vals[i]);
            }
        }
    }
}

}
