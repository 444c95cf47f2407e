use ray_trace_rust::accel::split_at_plane;
use ray_trace_rust::builder::VecInto;
use ray_trace_rust::closest_hit::{closest_ray_hit, MIN_HIT_LEN_BITS};
use ray_trace_rust::cube_map::{has_face, select_face, CubeFace};
use ray_trace_rust::elements::nearest_root;
use ray_trace_rust::float_bits::{bits_is_nan, bits_lt};
use ray_trace_rust::material::{Bounce, BounceInfo, CommonMaterial, DivertRayMethod, DynDiffSpec, SeedingRay};
use ray_trace_rust::radiance::{dls_light_indices, russian_roulette_filter, RussianRoullInfo, ROULETTE_THRES_BITS};
use ray_trace_rust::ray_len::RayLen;

fn b(f: f32) -> u32 {
    f.to_bits()
}

fn hit(f: f32) -> Option<RayLen> {
    Some(RayLen(b(f)))
}

#[test]
fn minimal_hit_length_is_twenty_eps() {
    assert_eq!(f32::from_bits(MIN_HIT_LEN_BITS), 1e-4f32 * 20.0);
    assert_eq!(f32::from_bits(ROULETTE_THRES_BITS), 0.4);
}

#[test]
fn closest_hit_picks_the_first_shortest_counted_hit() {
    assert_eq!(closest_ray_hit(&vec![hit(3.0), None, hit(1.0), hit(2.0), hit(1.0)]), Some(2));
    assert_eq!(closest_ray_hit(&vec![hit(5.0), hit(f32::INFINITY)]), Some(0));
    assert_eq!(closest_ray_hit(&vec![hit(f32::NAN), hit(f32::INFINITY)]), Some(1));
    assert_eq!(closest_ray_hit(&vec![hit(f32::NAN)]), Some(0));
}

#[test]
fn closest_hit_skips_hits_that_are_too_short() {
    assert_eq!(closest_ray_hit(&vec![hit(0.001), hit(7.0)]), Some(1));
    assert_eq!(closest_ray_hit(&vec![hit(-1.0), hit(0.0)]), None);
    assert_eq!(closest_ray_hit(&vec![hit(0.002), hit(7.0)]), Some(0));
    assert_eq!(closest_ray_hit(&vec![None, None]), None);
    assert_eq!(closest_ray_hit(&vec![]), None);
}

#[test]
fn float_comparisons_on_bits() {
    assert!(bits_lt(b(-2.0), b(-1.0)));
    assert!(!bits_lt(b(-0.0), b(0.0)));
    assert!(!bits_lt(b(f32::NAN), b(1.0)));
    assert!(!bits_lt(b(1.0), b(f32::NAN)));
    assert!(bits_lt(b(1.0), b(f32::INFINITY)));
    assert!(bits_is_nan(b(f32::NAN)));
    assert!(!bits_is_nan(b(f32::INFINITY)));
}

fn mat(divert_ray: DivertRayMethod) -> CommonMaterial {
    CommonMaterial { emissive: None, divert_ray }
}

#[test]
fn seeds_are_drawn_only_for_diff_spec() {
    let m = mat(DivertRayMethod::DiffSpec { diffp: b(0.7) });
    assert!(matches!(m.generate_seed(b(0.5)), SeedingRay::DiffSpec(true)));
    assert!(matches!(m.generate_seed(b(0.7)), SeedingRay::DiffSpec(false)));
    assert!(matches!(m.generate_seed(b(0.9)), SeedingRay::DiffSpec(false)));
    assert!(matches!(mat(DivertRayMethod::Diff).generate_seed(b(0.1)), SeedingRay::NoSeed));
    assert!(matches!(mat(DivertRayMethod::Spec).generate_seed(b(0.1)), SeedingRay::NoSeed));
    let d = mat(DivertRayMethod::Dielectric { n_out: b(1.0), n_in: b(1.3) });
    assert!(matches!(d.generate_seed(b(0.1)), SeedingRay::NoSeed));
}

#[test]
fn direct_light_sampling_only_on_diffuse_bounces() {
    let ds = mat(DivertRayMethod::DiffSpec { diffp: b(0.5) });
    assert!(mat(DivertRayMethod::Diff).should_dls(&SeedingRay::NoSeed));
    assert!(ds.should_dls(&SeedingRay::DiffSpec(true)));
    assert!(!ds.should_dls(&SeedingRay::DiffSpec(false)));
    assert!(!mat(DivertRayMethod::Spec).should_dls(&SeedingRay::NoSeed));
    let d = mat(DivertRayMethod::Dielectric { n_out: b(1.0), n_in: b(1.3) });
    assert!(!d.should_dls(&SeedingRay::NoSeed));
}

#[test]
fn bounces_follow_material_and_seed() {
    let ds = mat(DivertRayMethod::DiffSpec { diffp: b(0.5) });
    assert!(matches!(ds.bounce(&SeedingRay::DiffSpec(true)), Bounce::Diff));
    assert!(matches!(ds.bounce(&SeedingRay::DiffSpec(false)), Bounce::Spec));
    assert!(matches!(mat(DivertRayMethod::Spec).bounce(&SeedingRay::NoSeed), Bounce::Spec));
    assert!(matches!(mat(DivertRayMethod::Diff).bounce(&SeedingRay::NoSeed), Bounce::Diff));
    let d = mat(DivertRayMethod::Dielectric { n_out: b(1.0), n_in: b(1.3) });
    match d.bounce(&SeedingRay::NoSeed) {
        Bounce::Refract { n_out, n_in } => assert_eq!((n_out, n_in), (b(1.0), b(1.3))),
        _ => panic!("a dielectric refracts"),
    }
    let info = BounceInfo { seeding: ds.generate_seed(b(0.25)) };
    assert!(matches!(info.seeding, SeedingRay::DiffSpec(true)));
}

#[test]
fn dyn_diff_spec_chooses_by_probability() {
    assert!(DynDiffSpec::should_diff(b(0.3), b(0.2)));
    assert!(!DynDiffSpec::should_diff(b(0.3), b(0.3)));
    assert!(DynDiffSpec::should_diff(b(1.0), b(0.999)));
    assert!(!DynDiffSpec::should_diff(b(0.0), b(0.0)));
    assert!(matches!(DynDiffSpec::bounce(true), Bounce::Diff));
    assert!(matches!(DynDiffSpec::bounce(false), Bounce::Spec));
}

#[test]
fn russian_roulette_after_the_assured_depth() {
    let info = RussianRoullInfo { assured_depth: 5, max_thres: b(0.5) };
    assert_eq!(russian_roulette_filter(5, &info, b(0.9)), (true, None));
    assert_eq!(russian_roulette_filter(0, &info, b(0.0)), (true, None));
    assert_eq!(russian_roulette_filter(6, &info, b(0.1)), (true, Some(ROULETTE_THRES_BITS)));
    assert_eq!(russian_roulette_filter(6, &info, b(0.4)), (false, None));
    assert_eq!(russian_roulette_filter(60, &info, b(0.7)), (false, None));
}

#[test]
fn dls_lights_leave_out_omitted_and_dark_elements() {
    let emits = vec![true, false, true, true, false, true];
    assert_eq!(dls_light_indices(&emits, &vec![2]), vec![0, 3, 5]);
    assert_eq!(dls_light_indices(&emits, &vec![0, 5]), vec![2, 3]);
    assert_eq!(dls_light_indices(&emits, &vec![]), vec![0, 2, 3, 5]);
    assert_eq!(dls_light_indices(&vec![false, false], &vec![]), Vec::<usize>::new());
}

#[test]
fn elements_spanning_the_split_go_to_both_sides() {
    let elems = vec![
        ('a', b(-2.0), b(-1.0)),
        ('b', b(-1.0), b(1.0)),
        ('c', b(0.5), b(3.0)),
        ('d', b(0.0), b(0.0)),
    ];
    let (low, high) = split_at_plane(&elems, b(0.0));
    // 'd' lies flat in the plane and touches both sides: it is not lost
    assert_eq!(low, vec!['a', 'b', 'd']);
    assert_eq!(high, vec!['b', 'c', 'd']);
    // an element touching the plane from below is kept on both sides
    let (low, high) = split_at_plane(&vec![('e', b(-3.0), b(0.0))], b(0.0));
    assert_eq!((low, high), (vec!['e'], vec!['e']));
    // a NaN plane keeps everything on both sides
    let (low, high) = split_at_plane(&elems, b(f32::NAN));
    assert_eq!(low, vec!['a', 'b', 'c', 'd']);
    assert_eq!(high, vec!['a', 'b', 'c', 'd']);
}

#[test]
fn faces_follow_the_dominant_component() {
    assert!(matches!(select_face([b(-3.0), b(1.0), b(2.0)]), CubeFace::NegX));
    assert!(matches!(select_face([b(0.1), b(0.5), b(-0.2)]), CubeFace::PosY));
    assert!(matches!(select_face([b(0.1), b(0.5), b(-0.7)]), CubeFace::NegZ));
    assert!(matches!(select_face([b(1.0), b(-1.0), b(1.0)]), CubeFace::PosX));
    assert!(matches!(select_face([b(0.0), b(0.0), b(2.0)]), CubeFace::PosZ));
    assert!(has_face([b(0.0), b(0.0), b(-2.0)]));
    assert!(!has_face([b(0.0), b(-0.0), b(0.0)]));
    assert!(!has_face([b(f32::NAN), b(0.0), b(0.0)]));
}

#[test]
fn nearest_root_in_front_of_the_ray() {
    assert_eq!(nearest_root(b(5.0), b(3.0)), Some(b(3.0)));
    assert_eq!(nearest_root(b(5.0), b(-3.0)), Some(b(5.0)));
    assert_eq!(nearest_root(b(-1.0), b(-3.0)), None);
    assert_eq!(nearest_root(b(2.0), b(2.0)), Some(b(2.0)));
    assert_eq!(nearest_root(b(f32::NAN), b(1.0)), Some(b(1.0)));
}

#[derive(Debug, PartialEq)]
struct Wrapped(u8);

impl From<u8> for Wrapped {
    fn from(v: u8) -> Self {
        Wrapped(v)
    }
}

#[test]
fn vec_into_converts_each_item_in_order() {
    let out: Vec<Wrapped> = VecInto(vec![3u8, 1, 2]).into_vec();
    assert_eq!(out, vec![Wrapped(3), Wrapped(1), Wrapped(2)]);
    let none: Vec<u32> = VecInto(Vec::<u8>::new()).into_vec();
    assert!(none.is_empty());
}
