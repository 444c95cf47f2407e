use ray_trace_rust::accel::{entry_exit, extreme_of, kd_step, KdStep, Slab};

const EPS: f32 = 1e-4;

/// The slab of a box `[low, high]` on one axis for a ray coordinate
/// `o + t * d`, as the renderer computes it before asking where the ray
/// enters and leaves the box.
fn slab(low: f32, high: f32, d: f32, o: f32) -> Slab {
    let d = if d.abs() < EPS {
        if d < 0.0 { -EPS } else { EPS }
    } else {
        d
    };
    let f = 1.0 / d;
    Slab { low_t: ((low - o) * f).to_bits(), high_t: ((high - o) * f).to_bits() }
}

fn get_entry_exit(bounds: [(f32, f32); 3], d: [f32; 3], o: [f32; 3]) -> Option<((usize, f32), (usize, f32))> {
    let slabs = [
        slab(bounds[0].0, bounds[0].1, d[0], o[0]),
        slab(bounds[1].0, bounds[1].1, d[1], o[1]),
        slab(bounds[2].0, bounds[2].1, d[2], o[2]),
    ];
    entry_exit(&slabs).map(|((ea, et), (xa, xt))| ((ea, f32::from_bits(et)), (xa, f32::from_bits(xt))))
}

#[test]
fn test_straight_axes() {
    let bounds = [(-1.0, 1.0), (-1.0, 1.0), (-1.0, 1.0)];

    for a in 1..3 {
        let mut d = [0.0f32; 3];
        d[a] = 1.0;
        let o = [d[0] * -3.0, d[1] * -3.0, d[2] * -3.0];

        assert_eq!(get_entry_exit(bounds, d, o), Some(((a, 2.0), (a, 4.0))))
    }
}

#[test]
fn test_xy_hits_both() {
    let bounds = [(-1.0, 1.0), (-1.0, 1.0), (-1.0, 1.0)];

    assert_eq!(get_entry_exit(bounds, [2.1, 1.0, 0.0], [-2.0, 0.0, 0.0]), Some(((0, 1.0 / 2.1), (1, 1.0))))
}

#[test]
fn box_behind_or_beside_the_ray_is_missed() {
    let bounds = [(-1.0, 1.0), (-1.0, 1.0), (-1.0, 1.0)];
    // box behind the origin
    assert_eq!(get_entry_exit(bounds, [1.0, 0.0, 0.0], [3.0, 0.0, 0.0]), None);
    // ray passing beside the box
    assert_eq!(get_entry_exit(bounds, [1.0, 0.0, 0.0], [-3.0, 2.0, 0.0]), None);
    // origin inside the box: entered behind, left in front
    assert_eq!(get_entry_exit(bounds, [1.0, 0.0, 0.0], [0.0, 0.0, 0.0]).map(|(_, x)| x), Some((0, 1.0)));
}

#[test]
fn extremes_fold_min_and_max_ignoring_nan() {
    let v: Vec<u32> = [3.0f32, -2.0, f32::NAN, 7.5, 0.0].iter().map(|f| f.to_bits()).collect();
    assert_eq!(f32::from_bits(extreme_of(&v, false)), -2.0);
    assert_eq!(f32::from_bits(extreme_of(&v, true)), 7.5);
    assert_eq!(f32::from_bits(extreme_of(&vec![1.5f32.to_bits()], true)), 1.5);
}

#[test]
fn kd_steps_choose_children_by_crossing_distance() {
    let b = |f: f32| f.to_bits();
    assert!(matches!(kd_step(b(5.0), b(1.0), b(4.0)), KdStep::Near));
    assert!(matches!(kd_step(b(4.0), b(1.0), b(4.0)), KdStep::Near));
    assert!(matches!(kd_step(b(-1.0), b(1.0), b(4.0)), KdStep::Near));
    assert!(matches!(kd_step(b(0.5), b(1.0), b(4.0)), KdStep::Far));
    assert!(matches!(kd_step(b(1.0), b(1.0), b(4.0)), KdStep::Far));
    assert!(matches!(kd_step(b(2.0), b(1.0), b(4.0)), KdStep::Both));
    assert!(matches!(kd_step(b(f32::NAN), b(1.0), b(4.0)), KdStep::Both));
}

#[test]
fn extremes_are_values_of_the_list() {
    let v: Vec<u32> = [4.0f32, 9.0, -1.0].iter().map(|f| f.to_bits()).collect();
    assert!(v.contains(&extreme_of(&v, false)));
    assert!(v.contains(&extreme_of(&v, true)));
    let nans: Vec<u32> = vec![f32::NAN.to_bits(), f32::NAN.to_bits()];
    assert!(f32::from_bits(extreme_of(&nans, false)).is_nan());
}
