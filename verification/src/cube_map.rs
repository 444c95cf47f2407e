//! Which face of a distant cube map a ray direction looks at.
use vstd::prelude::*;
use crate::float_bits::{float_lt, bits_lt, is_nan, is_negative, magnitude, magnitude_of, order_key, SIGN_BIT, lemma_magnitude_bound, lemma_positive_magnitude};

verus! {

/// A face of the cube map: the axis it is perpendicular to and its side.
pub enum CubeFace {
    NegX,
    PosX,
    NegY,
    PosY,
    NegZ,
    PosZ,
}

/// The axis of the component of `d` with the largest magnitude, the first
/// such axis on ties (magnitudes are compared as `f32`, so a NaN is never
/// larger).
pub open spec fn dominant_axis(d: [u32; 3]) -> int {
    let first = if float_lt(magnitude(d[0]), magnitude(d[1])) { 1int } else { 0int };
    if float_lt(magnitude(d[first]), magnitude(d[2])) { 2 } else { first }
}

/// The face in the direction of the dominant axis of `d`, on the side of
/// the sign of that component.
pub open spec fn face_for(d: [u32; 3]) -> CubeFace {
    let axis = dominant_axis(d);
    let neg = is_negative(d[axis]);
    if axis == 0 {
        if neg { CubeFace::NegX } else { CubeFace::PosX }
    } else if axis == 1 {
        if neg { CubeFace::NegY } else { CubeFace::PosY }
    } else {
        if neg { CubeFace::NegZ } else { CubeFace::PosZ }
    }
}

/// The axis a face is perpendicular to: 0 for x, 1 for y, 2 for z.
pub open spec fn face_axis(f: CubeFace) -> int {
    match f {
        CubeFace::NegX | CubeFace::PosX => 0,
        CubeFace::NegY | CubeFace::PosY => 1,
        CubeFace::NegZ | CubeFace::PosZ => 2,
    }
}

/// Whether a face lies on the negative side of its axis.
pub open spec fn face_on_negative_side(f: CubeFace) -> bool {
    match f {
        CubeFace::NegX | CubeFace::NegY | CubeFace::NegZ => true,
        _ => false,
    }
}

/// The dominant axis is an axis whose component has the largest magnitude:
/// every number component is no larger in magnitude than a number dominant
/// component, and those on earlier axes are strictly smaller.
pub proof fn lemma_dominant_is_largest(d: [u32; 3])
    ensures
        0 <= dominant_axis(d) < 3,
        forall|i: int| 0 <= i < 3 && !is_nan(#[trigger] d[i]) && !is_nan(d[dominant_axis(d)]) ==> {
            &&& magnitude(d[i]) <= magnitude(d[dominant_axis(d)])
            &&& i < dominant_axis(d) ==> magnitude(d[i]) < magnitude(d[dominant_axis(d)])
        },
{
    lemma_magnitude_bound(d[0]);
    lemma_magnitude_bound(d[1]);
    lemma_magnitude_bound(d[2]);
    lemma_positive_magnitude(magnitude(d[0]));
    lemma_positive_magnitude(magnitude(d[1]));
    lemma_positive_magnitude(magnitude(d[2]));
}

/// The face's side follows the sign of the dominant component on every
/// axis: the face is perpendicular to the dominant axis, on its negative side
/// exactly when the dominant component is below zero (a negative dominant
/// `y` gives `NegY`, a positive one `PosY`).
pub proof fn lemma_face_follows_dominant(d: [u32; 3])
    requires
        !is_nan(d[dominant_axis(d)]),
        order_key(d[dominant_axis(d)]) != 0,
    ensures
        face_axis(face_for(d)) == dominant_axis(d),
        face_on_negative_side(face_for(d)) <==> order_key(d[dominant_axis(d)]) < 0,
{
    lemma_dominant_is_largest(d);
}

/// The face of the cube map seen in direction `d`, its components given as
/// `f32` bit patterns.  The dominant component must be a nonzero number.
pub fn select_face(d: [u32; 3]) -> (r: CubeFace)
    requires
        !is_nan(d[dominant_axis(d)]),
        order_key(d[dominant_axis(d)]) != 0,
    ensures
        r == face_for(d),
        face_axis(r) == dominant_axis(d),
        face_on_negative_side(r) <==> order_key(d[dominant_axis(d)]) < 0,
{
    proof {
        lemma_face_follows_dominant(d);
    }
    let mut axis: usize = 0;
    if bits_lt(magnitude_of(d[0]), magnitude_of(d[1])) {
        axis = 1;
    }
    if bits_lt(magnitude_of(d[axis]), magnitude_of(d[2])) {
        axis = 2;
    }
    let neg = d[axis] >= SIGN_BIT;
    if axis == 0 {
        if neg { CubeFace::NegX } else { CubeFace::PosX }
    } else if axis == 1 {
        if neg { CubeFace::NegY } else { CubeFace::PosY }
    } else {
        if neg { CubeFace::NegZ } else { CubeFace::PosZ }
    }
}

/// Whether `select_face` can be asked about `d`: the dominant component of
/// `d` is a number other than zero.
pub fn has_face(d: [u32; 3]) -> (r: bool)
    ensures
        r == (!is_nan(d[dominant_axis(d)]) && order_key(d[dominant_axis(d)]) != 0),
{
    let mut axis: usize = 0;
    if bits_lt(magnitude_of(d[0]), magnitude_of(d[1])) {
        axis = 1;
    }
    if bits_lt(magnitude_of(d[axis]), magnitude_of(d[2])) {
        axis = 2;
    }
    let c = d[axis];
    !crate::float_bits::bits_is_nan(c) && magnitude_of(c) != 0
}

}
