//! The front-to-back search of a k-d tree along a ray.
//!
//! The renderer computes, for each branch it meets, the distance `t` at which
//! the ray crosses the split plane and which side the ray starts on, and the
//! closest hit among the elements of each leaf it reaches; these functions
//! decide where the search goes next.  Distances are `f32` bit patterns.
use vstd::prelude::*;
use crate::accel::{kd_step, kd_step_for, KdStep};
use crate::closest_hit::{counts_as_hit, is_counted, is_closest_hit};
use crate::float_bits::{float_lt, is_nan, order_key, bits_lt, bits_is_nan};
use crate::ray_len::RayLen;

verus! {

/// A node of a k-d tree kept in a list: a branch splits space on `axis` at
/// `split` into the nodes at positions `low` and `high`; the elements of a
/// leaf are kept beside the list, at the leaf's position.
pub enum KdNode {
    Branch { axis: usize, split: u32, low: usize, high: usize },
    Leaf,
}

/// The child on the side of the split plane where the ray starts.
pub open spec fn near_child(n: KdNode, origin_below: bool) -> usize {
    match n {
        KdNode::Branch { low, high, .. } => if origin_below { low } else { high },
        KdNode::Leaf => 0,
    }
}

/// The child on the other side.
pub open spec fn far_child(n: KdNode, origin_below: bool) -> usize {
    match n {
        KdNode::Branch { low, high, .. } => if origin_below { high } else { low },
        KdNode::Leaf => 0,
    }
}

/// Starts a search of the tree rooted at `root` from where the ray enters
/// and leaves the tree's box: `None` when it misses the box, so that no
/// element of the tree can be hit and only the elements without a box are
/// left to try; else the stack holding the root over the ray's stretch in
/// the box.
pub fn kd_begin(root: usize, box_entry_exit: Option<((usize, u32), (usize, u32))>) -> (r: Option<Vec<(usize, u32, u32)>>)
    ensures
        r is None <==> box_entry_exit is None,
        r matches Some(stack) ==> box_entry_exit matches Some((entry, exit))
            && stack@ == seq![(root, entry.1, exit.1)],
{
    match box_entry_exit {
        None => None,
        Some(((_, entry_t), (_, exit_t))) => Some(vec![(root, entry_t, exit_t)]),
    }
}

/// One step down from the branch `node`, which the ray crosses at `t` while
/// inside it between `entry_t` and `exit_t`: on to the near child alone, to
/// the far child alone, or to the near child up to `t` with the far child
/// from `t` on pushed for later.  Returns the child and the end of the ray's
/// stretch in it.
pub fn kd_descend(
    nodes: &Vec<KdNode>,
    node: usize,
    t: u32,
    entry_t: u32,
    exit_t: u32,
    origin_below: bool,
    stack: &mut Vec<(usize, u32, u32)>,
) -> (r: (usize, u32))
    requires
        node < nodes@.len(),
        nodes@[node as int] is Branch,
    ensures
        ({
            let (near, far) = (near_child(nodes@[node as int], origin_below), far_child(nodes@[node as int], origin_below));
            match kd_step_for(t, entry_t, exit_t) {
                KdStep::Near => r == (near, exit_t) && final(stack)@ == old(stack)@,
                KdStep::Far => r == (far, exit_t) && final(stack)@ == old(stack)@,
                KdStep::Both => r == (near, t) && final(stack)@ == old(stack)@.push((far, t, exit_t)),
            }
        }),
{
    let (near, far) = match &nodes[node] {
        KdNode::Branch { low, high, .. } => if origin_below { (*low, *high) } else { (*high, *low) },
        KdNode::Leaf => (0, 0),
    };
    match kd_step(t, entry_t, exit_t) {
        KdStep::Near => (near, exit_t),
        KdStep::Far => (far, exit_t),
        KdStep::Both => {
            stack.push((far, t, exit_t));
            (near, t)
        },
    }
}

/// Whether the closest hit found in a leaf ends the search: it lies within
/// the ray's stretch in the leaf (a hit beyond it belongs to an element that
/// reaches into later nodes, where something closer may still come).
pub open spec fn leaf_hit_accepted(len: RayLen, exit_t: u32) -> bool {
    !is_nan(len.0) && !is_nan(exit_t) && !float_lt(exit_t, len.0)
}

pub fn leaf_hit_final(len: RayLen, exit_t: u32) -> (r: bool)
    ensures
        r == leaf_hit_accepted(len, exit_t),
{
    !bits_is_nan(len.0) && !bits_is_nan(exit_t) && !bits_lt(exit_t, len.0)
}

/// The closest hit of a leaf ends the search exactly when it is a number no
/// larger than a number end of the leaf's stretch: a hit at the very end
/// ends it too, one beyond the end or a NaN does not.
pub proof fn lemma_leaf_hit_within_stretch(len: RayLen, exit_t: u32)
    ensures
        leaf_hit_accepted(len, exit_t) <==> !is_nan(len.0) && !is_nan(exit_t)
            && order_key(len.0) <= order_key(exit_t),
{
}

/// A stretch of the ray from `a` to `b`, both numbers, not reversed.
pub open spec fn ordered(a: u32, b: u32) -> bool {
    !is_nan(a) && !is_nan(b) && order_key(a) <= order_key(b)
}

/// The stretches still to search follow on from the current one, ending at
/// `exit`: the top of the stack starts at `exit`, each pending stretch starts
/// where the one above it ends, and the last ends at `end`.
pub open spec fn kd_chain(exit: u32, stack: Seq<(usize, u32, u32)>, end: u32) -> bool
    decreases stack.len(),
{
    if stack.len() == 0 {
        exit == end
    } else {
        let top = stack.last();
        exit == top.1 && ordered(top.1, top.2) && kd_chain(top.2, stack.drop_last(), end)
    }
}

/// A descent keeps the stretches in order along the ray: splitting the
/// current stretch at the crossing `t` gives two stretches in order, the
/// pushed one starting where the current one now ends.  (A NaN crossing,
/// from a ray parallel to the plane and starting in it, is left out.)
pub proof fn lemma_descend_keeps_chain(entry_t: u32, exit_t: u32, t: u32, far: usize, stack: Seq<(usize, u32, u32)>, end: u32)
    requires
        ordered(entry_t, exit_t),
        kd_chain(exit_t, stack, end),
        !is_nan(t),
    ensures
        kd_step_for(t, entry_t, exit_t) is Both ==> ordered(entry_t, t) && kd_chain(t, stack.push((far, t, exit_t)), end),
{
    assert(stack.push((far, t, exit_t)).drop_last() =~= stack);
}

/// After a leaf, the search resumes with the top of the stack, whose stretch
/// starts where the leaf's ended; with the stack empty, the leaf's stretch
/// ended where the ray leaves the tree.
pub proof fn lemma_resume_keeps_chain(exit_t: u32, stack: Seq<(usize, u32, u32)>, end: u32)
    requires
        kd_chain(exit_t, stack, end),
    ensures
        stack.len() == 0 ==> exit_t == end,
        stack.len() > 0 ==> {
            &&& stack.last().1 == exit_t
            &&& ordered(stack.last().1, stack.last().2)
            &&& kd_chain(stack.last().2, stack.drop_last(), end)
        },
{
}

/// `r` is what a leaf holding the elements `elems` reports: the shortest
/// counted hit among them, or `None` when none of them is hit.
pub open spec fn is_leaf_best(r: Option<RayLen>, elems: Set<int>, hits: Seq<Option<RayLen>>) -> bool {
    match r {
        None => forall|e: int| elems.contains(e) ==> !is_counted(hits, e),
        Some(b) => {
            &&& exists|e: int| elems.contains(e) && is_counted(hits, e) && hits[e]->0 == b
            &&& forall|e: int| elems.contains(e) && is_counted(hits, e) ==> b.key() <= hits[e]->0.key()
        },
    }
}

pub open spec fn leaf_final(r: Option<RayLen>, exit_t: u32) -> bool {
    r matches Some(b) && leaf_hit_accepted(b, exit_t)
}

proof fn lemma_later_leaves_start_later(visits: Seq<(Set<int>, u32, u32)>, k: int, i: int)
    requires
        0 <= k < i < visits.len(),
        forall|j: int| 0 <= j < visits.len() - 1 ==> #[trigger] visits[j].2 == visits[j + 1].1,
        forall|j: int| 0 <= j < visits.len() ==> ordered(#[trigger] visits[j].1, visits[j].2),
    ensures
        order_key(visits[k].2) <= order_key(visits[i].1),
    decreases i - k,
{
    if i > k + 1 {
        lemma_later_leaves_start_later(visits, k, i - 1);
        assert(visits[i - 1].2 == visits[i].1);
        assert(ordered(visits[i - 1].1, visits[i - 1].2));
    } else {
        assert(visits[k].2 == visits[k + 1].1);
    }
}

/// The search finds the closest hit.  Let the leaves that the ray passes
/// through be visited front to back, each over its stretch of the ray (the
/// stretches in order, each starting where the previous ended), each
/// reporting its shortest counted hit, and let every counted hit of an
/// element lie in the stretch of a leaf that holds the element.  Then the
/// first leaf whose hit lies within its own stretch reports the shortest
/// counted hit of all the elements: the one that trying every element finds.
pub proof fn lemma_first_final_leaf_is_closest(
    visits: Seq<(Set<int>, u32, u32)>,
    leaf_results: Seq<Option<RayLen>>,
    hits: Seq<Option<RayLen>>,
    k: int,
)
    requires
        visits.len() == leaf_results.len(),
        0 <= k < visits.len(),
        forall|j: int| 0 <= j < visits.len() - 1 ==> #[trigger] visits[j].2 == visits[j + 1].1,
        forall|j: int| 0 <= j < visits.len() ==> ordered(#[trigger] visits[j].1, visits[j].2),
        forall|j: int| 0 <= j < visits.len() ==> is_leaf_best(#[trigger] leaf_results[j], visits[j].0, hits),
        forall|j: int| 0 <= j < k ==> !leaf_final(#[trigger] leaf_results[j], visits[j].2),
        leaf_final(leaf_results[k], visits[k].2),
        forall|e: int| #[trigger] is_counted(hits, e) ==> exists|j: int| {
            &&& 0 <= j < visits.len()
            &&& #[trigger] visits[j].0.contains(e)
            &&& order_key(visits[j].1) <= hits[e]->0.key() <= order_key(visits[j].2)
        },
    ensures
        leaf_results[k] is Some,
        forall|e: int| #[trigger] is_counted(hits, e) ==> leaf_results[k]->0.key() <= hits[e]->0.key(),
        forall|j: int| #[trigger] is_closest_hit(hits, j) ==> leaf_results[k]->0.key() == hits[j]->0.key(),
{
    let b = leaf_results[k]->0;
    assert(is_leaf_best(leaf_results[k], visits[k].0, hits));
    assert forall|e: int| #[trigger] is_counted(hits, e) implies b.key() <= hits[e]->0.key() by {
        let j = choose|j: int| {
            &&& 0 <= j < visits.len()
            &&& #[trigger] visits[j].0.contains(e)
            &&& order_key(visits[j].1) <= hits[e]->0.key() <= order_key(visits[j].2)
        };
        assert(is_leaf_best(leaf_results[j], visits[j].0, hits));
        assert(ordered(visits[j].1, visits[j].2));
        if j < k {
            assert(!leaf_final(leaf_results[j], visits[j].2));
            let bj = leaf_results[j]->0;
            assert(bj.key() <= hits[e]->0.key());
            assert(!is_nan(bj.0));
            assert(false);
        } else if j > k {
            lemma_later_leaves_start_later(visits, k, j);
            assert(ordered(visits[k].1, visits[k].2));
        }
    }
    let e0 = choose|e: int| visits[k].0.contains(e) && is_counted(hits, e) && hits[e]->0 == b;
    assert forall|j: int| #[trigger] is_closest_hit(hits, j) implies b.key() == hits[j]->0.key() by {
        assert(is_counted(hits, e0));
    }
}


/// When no leaf that the ray passes through reports a hit within its own
/// stretch, no element of the tree has a counted hit at all (given, as
/// above, that every counted hit of an element lies in the stretch of a leaf
/// that holds it): the search rightly falls back to the elements without a box.
pub proof fn lemma_no_final_leaf_no_tree_hit(
    visits: Seq<(Set<int>, u32, u32)>,
    leaf_results: Seq<Option<RayLen>>,
    hits: Seq<Option<RayLen>>,
)
    requires
        visits.len() == leaf_results.len(),
        forall|j: int| 0 <= j < visits.len() ==> ordered(#[trigger] visits[j].1, visits[j].2),
        forall|j: int| 0 <= j < visits.len() ==> is_leaf_best(#[trigger] leaf_results[j], visits[j].0, hits),
        forall|j: int| 0 <= j < visits.len() ==> !leaf_final(#[trigger] leaf_results[j], visits[j].2),
        forall|e: int| #[trigger] is_counted(hits, e) ==> exists|j: int| {
            &&& 0 <= j < visits.len()
            &&& #[trigger] visits[j].0.contains(e)
            &&& order_key(visits[j].1) <= hits[e]->0.key() <= order_key(visits[j].2)
        },
    ensures
        forall|e: int| !is_counted(hits, e),
{
    assert forall|e: int| !is_counted(hits, e) by {
        if is_counted(hits, e) {
            let j = choose|j: int| {
                &&& 0 <= j < visits.len()
                &&& #[trigger] visits[j].0.contains(e)
                &&& order_key(visits[j].1) <= hits[e]->0.key() <= order_key(visits[j].2)
            };
            assert(is_leaf_best(leaf_results[j], visits[j].0, hits));
            assert(ordered(visits[j].1, visits[j].2));
            assert(!leaf_final(leaf_results[j], visits[j].2));
            let bj = leaf_results[j]->0;
            assert(bj.key() <= hits[e]->0.key());
            assert(!is_nan(bj.0));
        }
    }
}

/// Counting over the elements of the tree followed by those without a box.
proof fn lemma_counted_in_concat(tree: Seq<Option<RayLen>>, free: Seq<Option<RayLen>>, j: int)
    ensures
        0 <= j < tree.len() ==> (is_counted(tree + free, j) <==> is_counted(tree, j)) && (tree + free)[j] == tree[j],
        tree.len() <= j ==> (is_counted(tree + free, j) <==> is_counted(free, j - tree.len())),
        tree.len() <= j < tree.len() + free.len() ==> (tree + free)[j] == free[j - tree.len()],
{
}

/// The search finds what trying every element finds.  Search the tree as
/// above and, when no leaf's hit ends the search, fall back to the elements
/// without a box; with the tree's elements' hits `tree` followed by the other
/// elements' hits `free`, and no counted hit of the latter shorter than a
/// counted hit of the former, then:
/// - when the first accepted leaf hit is found, in leaf `k`, the closest hit
///   over all the elements is as long as it;
/// - when no leaf's hit is accepted, the closest hits over all the elements
///   are exactly the closest hits of the elements without a box.
pub proof fn lemma_search_matches_every_element(
    visits: Seq<(Set<int>, u32, u32)>,
    leaf_results: Seq<Option<RayLen>>,
    tree: Seq<Option<RayLen>>,
    free: Seq<Option<RayLen>>,
)
    requires
        visits.len() == leaf_results.len(),
        forall|j: int| 0 <= j < visits.len() - 1 ==> #[trigger] visits[j].2 == visits[j + 1].1,
        forall|j: int| 0 <= j < visits.len() ==> ordered(#[trigger] visits[j].1, visits[j].2),
        forall|j: int| 0 <= j < visits.len() ==> is_leaf_best(#[trigger] leaf_results[j], visits[j].0, tree),
        forall|e: int| #[trigger] is_counted(tree, e) ==> exists|j: int| {
            &&& 0 <= j < visits.len()
            &&& #[trigger] visits[j].0.contains(e)
            &&& order_key(visits[j].1) <= tree[e]->0.key() <= order_key(visits[j].2)
        },
        forall|e: int, u: int| #[trigger] is_counted(tree, e) && #[trigger] is_counted(free, u) ==>
            tree[e]->0.key() <= free[u]->0.key(),
    ensures
        forall|k: int| 0 <= k < visits.len() && leaf_final(#[trigger] leaf_results[k], visits[k].2)
            && (forall|j: int| 0 <= j < k ==> !leaf_final(#[trigger] leaf_results[j], visits[j].2)) ==> {
            &&& exists|j: int| is_counted(tree + free, j)
            &&& forall|j: int| #[trigger] is_closest_hit(tree + free, j) ==> leaf_results[k]->0.key() == (tree + free)[j]->0.key()
        },
        (forall|j: int| 0 <= j < visits.len() ==> !leaf_final(#[trigger] leaf_results[j], visits[j].2)) ==>
            forall|j: int| #[trigger] is_closest_hit(tree + free, j) <==>
                (tree.len() <= j && is_closest_hit(free, j - tree.len())),
{
    let all = tree + free;
    let tl = tree.len() as int;
    assert forall|k: int| 0 <= k < visits.len() && leaf_final(#[trigger] leaf_results[k], visits[k].2)
        && (forall|j: int| 0 <= j < k ==> !leaf_final(#[trigger] leaf_results[j], visits[j].2)) implies {
        &&& exists|j: int| is_counted(all, j)
        &&& forall|j: int| #[trigger] is_closest_hit(all, j) ==> leaf_results[k]->0.key() == all[j]->0.key()
    } by {
        lemma_first_final_leaf_is_closest(visits, leaf_results, tree, k);
        let b = leaf_results[k]->0;
        assert(is_leaf_best(leaf_results[k], visits[k].0, tree));
        let e0 = choose|e: int| visits[k].0.contains(e) && is_counted(tree, e) && tree[e]->0 == b;
        lemma_counted_in_concat(tree, free, e0);
        assert(is_counted(all, e0));
        assert forall|j: int| #[trigger] is_closest_hit(all, j) implies b.key() == all[j]->0.key() by {
            lemma_counted_in_concat(tree, free, j);
            if j >= tl {
                assert(is_counted(free, j - tl));
                assert(is_counted(tree, e0) && is_counted(free, j - tl));
            }
        }
    }
    if forall|j: int| 0 <= j < visits.len() ==> !leaf_final(#[trigger] leaf_results[j], visits[j].2) {
        lemma_no_final_leaf_no_tree_hit(visits, leaf_results, tree);
        assert forall|j: int| #[trigger] is_closest_hit(all, j) <==> (tl <= j && is_closest_hit(free, j - tl)) by {
            lemma_counted_in_concat(tree, free, j);
            if is_closest_hit(all, j) {
                assert(tl <= j);
                assert forall|u: int| #[trigger] is_counted(free, u) implies free[j - tl]->0.key() <= free[u]->0.key() by {
                    lemma_counted_in_concat(tree, free, u + tl);
                    assert(is_counted(all, u + tl));
                }
                assert forall|u: int| 0 <= u < j - tl && #[trigger] is_counted(free, u) implies free[j - tl]->0.key() < free[u]->0.key() by {
                    lemma_counted_in_concat(tree, free, u + tl);
                    assert(is_counted(all, u + tl));
                }
            }
            if tl <= j && is_closest_hit(free, j - tl) {
                assert forall|m: int| #[trigger] is_counted(all, m) implies all[j]->0.key() <= all[m]->0.key() by {
                    lemma_counted_in_concat(tree, free, m);
                    if m >= tl {
                        assert(is_counted(free, m - tl));
                    }
                }
                assert forall|m: int| 0 <= m < j && #[trigger] is_counted(all, m) implies all[j]->0.key() < all[m]->0.key() by {
                    lemma_counted_in_concat(tree, free, m);
                    if m >= tl {
                        assert(is_counted(free, m - tl));
                    }
                }
            }
        }
    }
}

}
