use ray_trace_rust::accel::split_at_plane;
use ray_trace_rust::elements::group_triangles;
use ray_trace_rust::kd_search::{kd_begin, kd_descend, leaf_hit_final, KdNode};
use ray_trace_rust::ray_len::RayLen;

fn b(f: f32) -> u32 {
    f.to_bits()
}

fn tree() -> Vec<KdNode> {
    vec![KdNode::Branch { axis: 0, split: b(0.0), low: 1, high: 2 }, KdNode::Leaf, KdNode::Leaf]
}

#[test]
fn missing_the_box_ends_the_search() {
    assert!(kd_begin(0, None).is_none());
    assert_eq!(kd_begin(0, Some(((1, b(1.0)), (2, b(5.0))))), Some(vec![(0, b(1.0), b(5.0))]));
}

#[test]
fn descent_goes_near_far_or_both() {
    let nodes = tree();
    let mut stack = vec![];
    // plane crossed beyond the exit: near child only, which is low for a ray starting below
    assert_eq!(kd_descend(&nodes, 0, b(9.0), b(1.0), b(5.0), true, &mut stack), (1, b(5.0)));
    assert!(stack.is_empty());
    // plane crossed behind the origin: near child only, high for a ray starting above
    assert_eq!(kd_descend(&nodes, 0, b(-2.0), b(1.0), b(5.0), false, &mut stack), (2, b(5.0)));
    // plane crossed before the entry: far child only
    assert_eq!(kd_descend(&nodes, 0, b(0.5), b(1.0), b(5.0), true, &mut stack), (2, b(5.0)));
    assert!(stack.is_empty());
    // plane crossed inside: near up to the crossing, far pushed for later
    assert_eq!(kd_descend(&nodes, 0, b(3.0), b(1.0), b(5.0), true, &mut stack), (1, b(3.0)));
    assert_eq!(stack, vec![(2, b(3.0), b(5.0))]);
}

#[test]
fn leaf_hits_within_the_stretch_are_final() {
    assert!(leaf_hit_final(RayLen(b(2.0)), b(3.0)));
    assert!(leaf_hit_final(RayLen(b(3.0)), b(3.0)));
    assert!(!leaf_hit_final(RayLen(b(3.5)), b(3.0)));
    assert!(!leaf_hit_final(RayLen(b(f32::NAN)), b(3.0)));
    assert!(!leaf_hit_final(RayLen(b(1.0)), b(f32::NAN)));
}

/// A small search on a tree of one split at x = 0, with a ray along x from
/// x = -4: elements are intervals on x, hit where the ray meets their start.
fn search(elems: &[(char, f32, f32)]) -> Option<(char, f32)> {
    let nodes = tree();
    let with_extent: Vec<((char, f32), u32, u32)> = elems.iter().map(|&(c, lo, hi)| ((c, lo), b(lo), b(hi))).collect();
    let (low, high) = split_at_plane(&with_extent, b(0.0));
    let leaves = vec![vec![], low, high];
    let origin = -4.0f32;
    let mut stack = kd_begin(0, Some(((0, b(0.0)), (0, b(10.0))))).unwrap();
    while let Some((mut node, entry_t, mut exit_t)) = stack.pop() {
        while let KdNode::Branch { .. } = nodes[node] {
            let t = 0.0 - origin;
            let (next, next_exit) = kd_descend(&nodes, node, b(t), entry_t, exit_t, true, &mut stack);
            node = next;
            exit_t = next_exit;
        }
        let best = leaves[node]
            .iter()
            .map(|&(c, lo)| (c, lo - origin))
            .filter(|&(_, l)| l >= 0.0)
            .fold(None, |acc: Option<(char, f32)>, (c, l)| match acc {
                Some((_, al)) if al <= l => acc,
                _ => Some((c, l)),
            });
        if let Some((c, l)) = best {
            if leaf_hit_final(RayLen(b(l)), exit_t) {
                return Some((c, l));
            }
        }
    }
    None
}

#[test]
fn search_finds_the_closest_element() {
    assert_eq!(search(&[('a', -3.0, -2.0), ('b', 1.0, 2.0)]), Some(('a', 1.0)));
    assert_eq!(search(&[('b', 1.0, 2.0), ('c', 3.0, 5.0)]), Some(('b', 5.0)));
    // an element lying flat on the plane is still found
    assert_eq!(search(&[('f', 0.0, 0.0), ('c', 3.0, 5.0)]), Some(('f', 4.0)));
    assert_eq!(search(&[]), None);
}

#[test]
fn triangles_group_indices_by_three() {
    assert_eq!(group_triangles(&vec![0, 1, 2, 2, 1, 3]), Some(vec![[0, 1, 2], [2, 1, 3]]));
    assert_eq!(group_triangles(&vec![]), Some(vec![]));
    assert_eq!(group_triangles(&vec![0, 1, 2, 3]), None);
}
