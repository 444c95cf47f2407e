//! The shapes of a scene, as far as the library holds them.
use vstd::prelude::*;
use crate::material::CommonMaterial;
use crate::float_bits::{float_lt, bits_lt, magnitude, magnitude_of, ONE_BITS, is_nan, order_key, lemma_zero_key, lemma_positive_magnitude, lemma_magnitude_bound};

verus! {

/// A triangle: where its three vertices are found, how its normal and its
/// colour are found, and its material.
pub struct Triangle<V, N, C> {
    pub verts: V,
    /// Gives unit normals.
    pub norm: N,
    pub rgb: C,
    pub mat: CommonMaterial,
}

}

verus! {

/// Whether a ray length lies in front of the ray's origin: a number above zero.
pub open spec fn in_front(l: u32) -> bool {
    float_lt(0, l)
}

/// Of the two lengths at which a ray crosses a sphere, the nearest one in
/// front of its origin, if any.
pub open spec fn nearest_in_front(far: u32, near: u32) -> Option<u32> {
    if in_front(far) && in_front(near) {
        if float_lt(near, far) { Some(near) } else { Some(far) }
    } else if in_front(far) {
        Some(far)
    } else if in_front(near) {
        Some(near)
    } else {
        None
    }
}

/// Picks the length at which a ray enters a sphere from the two roots of the
/// intersection equation, `offset + root` and `offset - root`, as `f32` bit
/// patterns: the smaller of those in front of the ray, the first on ties.
pub fn nearest_root(far: u32, near: u32) -> (r: Option<u32>)
    ensures
        r == nearest_in_front(far, near),
{
    let far_ok = bits_lt(0, far);
    let near_ok = bits_lt(0, near);
    if far_ok && near_ok {
        if bits_lt(near, far) { Some(near) } else { Some(far) }
    } else if far_ok {
        Some(far)
    } else if near_ok {
        Some(near)
    } else {
        None
    }
}

/// A root in front of the ray is chosen whenever there is one, and the one
/// chosen is in front of the ray and not beyond the other root in front; of
/// two roots in front at the same distance the first, `far`, is chosen.  In
/// front means a number above zero.
pub proof fn lemma_nearest_root(far: u32, near: u32)
    ensures
        in_front(far) <==> !is_nan(far) && 0 < order_key(far),
        in_front(near) <==> !is_nan(near) && 0 < order_key(near),
        in_front(far) && in_front(near) && order_key(far) == order_key(near)
            ==> nearest_in_front(far, near) == Some(far),
        nearest_in_front(far, near) is Some <==> (in_front(far) || in_front(near)),
        nearest_in_front(far, near) matches Some(l) ==> {
            &&& in_front(l)
            &&& (l == far || l == near)
            &&& in_front(far) ==> !float_lt(far, l)
            &&& in_front(near) ==> !float_lt(near, l)
            &&& in_front(far) ==> order_key(l) <= order_key(far)
            &&& in_front(near) ==> order_key(l) <= order_key(near)
        },
{
    lemma_zero_key();
}

}

verus! {

/// Bit pattern of the tolerance `1e-4` under which a ray counts as parallel
/// to a triangle and a hit as too close to the ray's origin.
pub const EPS_BITS: u32 = 0x38d1_b717;

/// Whether a ray meets a triangle, from the determinant of the
/// Möller-Trumbore system, the barycentric coordinates `u`, `v` of the
/// crossing point (and their sum) and the distance `l` to it: the ray is not
/// parallel to the triangle, the point lies inside it and not too close to
/// the ray's origin.  Comparisons are those of `f32`, false with NaN.
pub open spec fn triangle_hit_accepted(det: u32, u: u32, v: u32, u_plus_v: u32, l: u32) -> bool {
    &&& !float_lt(magnitude(det), EPS_BITS)
    &&& !(float_lt(u, 0) || float_lt(ONE_BITS, u))
    &&& !(float_lt(v, 0) || float_lt(ONE_BITS, u_plus_v))
    &&& !float_lt(l, EPS_BITS)
}

/// A hit is accepted exactly when the crossing point lies inside the
/// triangle, the ray is not parallel to it and the point is not too close to
/// the ray's origin: each of a number `u` below zero or above one, a number
/// `v` below zero, a number `u + v` above one, a number `l` below the
/// tolerance and a number `det` of magnitude below the tolerance rejects the
/// hit, and nothing else does (a NaN fails every comparison).  The keys of
/// `1.0` and of the tolerance are their own bit patterns.
pub proof fn lemma_triangle_hit_inside(det: u32, u: u32, v: u32, u_plus_v: u32, l: u32)
    ensures
        order_key(ONE_BITS) == ONE_BITS,
        order_key(EPS_BITS) == EPS_BITS,
        triangle_hit_accepted(det, u, v, u_plus_v, l) <==> {
            &&& !(!is_nan(u) && order_key(u) < 0)
            &&& !(!is_nan(u) && order_key(u) > ONE_BITS)
            &&& !(!is_nan(v) && order_key(v) < 0)
            &&& !(!is_nan(u_plus_v) && order_key(u_plus_v) > ONE_BITS)
            &&& !(!is_nan(l) && order_key(l) < EPS_BITS)
            &&& !(!is_nan(det) && magnitude(det) < EPS_BITS)
        },
{
    lemma_zero_key();
    lemma_positive_magnitude(ONE_BITS);
    lemma_positive_magnitude(EPS_BITS);
    lemma_magnitude_bound(det);
    lemma_positive_magnitude(magnitude(det));
}

/// Decides whether the crossing of a ray with a triangle's plane is a hit.
pub fn accept_triangle_hit(det: u32, u: u32, v: u32, u_plus_v: u32, l: u32) -> (r: bool)
    ensures
        r == triangle_hit_accepted(det, u, v, u_plus_v, l),
{
    !bits_lt(magnitude_of(det), EPS_BITS)
        && !(bits_lt(u, 0) || bits_lt(ONE_BITS, u))
        && !(bits_lt(v, 0) || bits_lt(ONE_BITS, u_plus_v))
        && !bits_lt(l, EPS_BITS)
}

}

verus! {

/// The triangles of a mesh from its flat list of vertex indices, three
/// indices each in order; `None` when the list does not divide into triples.
pub fn group_triangles(flat: &Vec<usize>) -> (r: Option<Vec<[usize; 3]>>)
    ensures
        r is None <==> flat@.len() % 3 != 0,
        r matches Some(tris) ==> {
            &&& tris@.len() * 3 == flat@.len()
            &&& forall|i: int| 0 <= i < tris@.len() ==> {
                &&& (#[trigger] tris@[i])[0] == flat@[3 * i]
                &&& tris@[i][1] == flat@[3 * i + 1]
                &&& tris@[i][2] == flat@[3 * i + 2]
            }
        },
{
    if flat.len() % 3 != 0 {
        return None;
    }
    let mut tris: Vec<[usize; 3]> = Vec::new();
    let mut j: usize = 0;
    while j < flat.len()
        invariant
            flat@.len() % 3 == 0,
            j <= flat@.len(),
            j == 3 * tris@.len(),
            forall|i: int| 0 <= i < tris@.len() ==> {
                &&& (#[trigger] tris@[i])[0] == flat@[3 * i]
                &&& tris@[i][1] == flat@[3 * i + 1]
                &&& tris@[i][2] == flat@[3 * i + 2]
            },
        decreases flat@.len() - j,
    {
        assert(j + 3 <= flat@.len());
        tris.push([flat[j], flat[j + 1], flat[j + 2]]);
        j = j + 3;
    }
    Some(tris)
}

}
