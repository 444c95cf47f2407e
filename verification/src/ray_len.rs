//! The length along a ray at which it meets an element, ordered totally.
use vstd::prelude::*;
use core::cmp::Ordering;
use vstd::std_specs::cmp::{PartialEqSpecImpl, PartialOrdSpecImpl};
use crate::float_bits::{is_nan, float_lt, magnitude_of, bits_is_nan, order_key, lemma_magnitude_bound, SIGN_BIT};

verus! {

/// A ray length, the `f32` held by its bit pattern (`f32::to_bits`).
///
/// Ray lengths are totally ordered: lengths that are not NaN by their value,
/// `+0` equal to `-0`, and NaN greater than every other length, infinity
/// included, and equal to any other NaN.
#[derive(Clone, Copy)]
pub struct RayLen(pub u32);

/// The order of two ray lengths.
pub open spec fn ray_len_order(a: RayLen, b: RayLen) -> Ordering {
    if order_key(a.0) < order_key(b.0) {
        Ordering::Less
    } else if order_key(a.0) == order_key(b.0) {
        Ordering::Equal
    } else {
        Ordering::Greater
    }
}

impl RayLen {
    pub open spec fn key(self) -> int {
        order_key(self.0)
    }

    /// Compares two ray lengths in their total order.
    pub fn cmp(&self, other: &Self) -> (r: Ordering)
        ensures
            r == ray_len_order(*self, *other),
    {
        let (a, b) = (self.0, other.0);
        let neither_nan = !bits_is_nan(a) && !bits_is_nan(b);
        if neither_nan {
            proof {
                lemma_magnitude_bound(a);
                lemma_magnitude_bound(b);
            }
            let (ma, mb) = (magnitude_of(a), magnitude_of(b));
            let (na, nb) = (a >= SIGN_BIT, b >= SIGN_BIT);
            if ma == 0 && mb == 0 {
                Ordering::Equal
            } else if na && !nb {
                Ordering::Less
            } else if !na && nb {
                Ordering::Greater
            } else {
                let (lo, hi) = if na { (mb, ma) } else { (ma, mb) };
                if lo < hi {
                    Ordering::Less
                } else if lo == hi {
                    Ordering::Equal
                } else {
                    Ordering::Greater
                }
            }
        } else {
            let both_nan = bits_is_nan(a) && bits_is_nan(b);
            if both_nan {
                Ordering::Equal
            } else if bits_is_nan(a) {
                Ordering::Greater
            } else {
                Ordering::Less
            }
        }
    }
}

impl PartialEq for RayLen {
    fn eq(&self, other: &Self) -> (r: bool) {
        match self.cmp(other) {
            Ordering::Equal => true,
            _ => false,
        }
    }
}

impl PartialEqSpecImpl for RayLen {
    open spec fn obeys_eq_spec() -> bool {
        true
    }

    open spec fn eq_spec(&self, other: &Self) -> bool {
        ray_len_order(*self, *other) == Ordering::Equal
    }
}

impl Eq for RayLen {}

impl PartialOrd for RayLen {
    fn partial_cmp(&self, other: &Self) -> (r: Option<Ordering>) {
        Some(self.cmp(other))
    }
}

impl PartialOrdSpecImpl for RayLen {
    open spec fn obeys_partial_cmp_spec() -> bool {
        true
    }

    open spec fn partial_cmp_spec(&self, other: &Self) -> Option<Ordering> {
        Some(ray_len_order(*self, *other))
    }
}

}

verus! {

/// Every ray length is equal to itself.
pub proof fn lemma_order_reflexive(a: RayLen)
    ensures
        ray_len_order(a, a) == Ordering::Equal,
{
}

/// Comparing the other way round reverses the outcome.
pub proof fn lemma_order_converse(a: RayLen, b: RayLen)
    ensures
        ray_len_order(a, b) == Ordering::Less <==> ray_len_order(b, a) == Ordering::Greater,
        ray_len_order(a, b) == Ordering::Equal <==> ray_len_order(b, a) == Ordering::Equal,
{
}

/// The order is transitive, for `<` and for `<=`.
pub proof fn lemma_order_transitive(a: RayLen, b: RayLen, c: RayLen)
    ensures
        ray_len_order(a, b) == Ordering::Less && ray_len_order(b, c) == Ordering::Less
            ==> ray_len_order(a, c) == Ordering::Less,
        ray_len_order(a, b) != Ordering::Greater && ray_len_order(b, c) != Ordering::Greater
            ==> ray_len_order(a, c) != Ordering::Greater,
{
}

/// A NaN length is greater than any length that is not NaN, infinity
/// included, and equal to any other NaN length.
pub proof fn lemma_nan_greatest(a: RayLen, b: RayLen)
    requires
        is_nan(a.0),
    ensures
        !is_nan(b.0) ==> ray_len_order(a, b) == Ordering::Greater,
        is_nan(b.0) ==> ray_len_order(a, b) == Ordering::Equal,
{
    lemma_magnitude_bound(b.0);
}

/// Lengths that are not NaN compare as the `f32` values they hold: `<` and
/// equality of values are `Less` and `Equal` of the order.
pub proof fn lemma_order_agrees_with_values(a: RayLen, b: RayLen)
    requires
        !is_nan(a.0),
        !is_nan(b.0),
    ensures
        ray_len_order(a, b) == Ordering::Less <==> float_lt(a.0, b.0),
        ray_len_order(a, b) == Ordering::Greater <==> float_lt(b.0, a.0),
{
}

}
