use ray_trace_rust::ray_len::RayLen;
use std::cmp::Ordering;

fn len(f: f32) -> RayLen {
    RayLen(f.to_bits())
}

#[test]
fn test_less_than() {
    let me = len(-1.0);
    let them = len(1.0);

    assert!(me < them);
}

#[test]
fn test_greater_than() {
    let me = len(1.0);
    let them = len(-1.0);

    assert!(me > them);
}

#[test]
fn test_eq() {
    let me = len(1.34324);
    let them = len(1.34324);

    assert!(me == them);
}

#[test]
fn test_nan_eq() {
    let me = len(f32::NAN);
    let them = len(f32::NAN);

    assert!(me == them);
}

#[test]
fn test_inf_eq() {
    let me = len(f32::INFINITY);
    let them = len(f32::INFINITY);

    assert!(me == them);
}

#[test]
fn test_nan_inf_lt() {
    let me = len(f32::NAN);
    let them = len(f32::INFINITY);

    assert!(me > them);

    let me = len(f32::INFINITY);
    let them = len(f32::NAN);

    assert!(me < them);
}

#[test]
fn signed_zeros_are_equal() {
    assert_eq!(len(0.0).cmp(&len(-0.0)), Ordering::Equal);
    assert!(len(-0.0) == len(0.0));
}

#[test]
fn order_matches_float_values() {
    let values = [f32::NEG_INFINITY, -3.5, -1.0, -1e-30, 0.0, 1e-30, 0.5, 2.0, 1e30, f32::INFINITY];
    for a in values {
        for b in values {
            assert_eq!(len(a).cmp(&len(b)), a.partial_cmp(&b).unwrap(), "{} vs {}", a, b);
        }
    }
}

#[test]
fn negative_nan_is_greatest_too() {
    let neg_nan = RayLen(0xffc0_0000);
    assert_eq!(neg_nan.cmp(&len(f32::INFINITY)), Ordering::Greater);
    assert_eq!(neg_nan.cmp(&len(f32::NAN)), Ordering::Equal);
    assert_eq!(len(-5.0).cmp(&neg_nan), Ordering::Less);
}
