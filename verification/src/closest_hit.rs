//! Choosing which of the elements that a ray meets it meets first.
use vstd::prelude::*;
use crate::ray_len::RayLen;
use crate::float_bits::order_key;

verus! {

/// Bit pattern of the shortest ray length that counts as a hit (`20 * 1e-4`
/// in `f32`): shorter hits are the surface that the ray has just left.
pub const MIN_HIT_LEN_BITS: u32 = 0x3b03_126e;

/// A hit counts unless it is shorter than the minimal hit length.
pub open spec fn counts_as_hit(l: RayLen) -> bool {
    !(l.key() < order_key(MIN_HIT_LEN_BITS))
}

pub open spec fn is_counted(hits: Seq<Option<RayLen>>, k: int) -> bool {
    0 <= k < hits.len() && hits[k] is Some && counts_as_hit(hits[k]->0)
}

/// `j` is the position of the first of the shortest counted hits.
pub open spec fn is_closest_hit(hits: Seq<Option<RayLen>>, j: int) -> bool {
    &&& is_counted(hits, j)
    &&& forall|k: int| #[trigger] is_counted(hits, k) ==> hits[j]->0.key() <= hits[k]->0.key()
    &&& forall|k: int| 0 <= k < j && #[trigger] is_counted(hits, k) ==> hits[j]->0.key() < hits[k]->0.key()
}

/// Among the hit lengths of a ray with each element (`None` where it misses),
/// the position of the closest hit, ignoring hits shorter than the minimal hit
/// length; the first such position when several are equally close.
pub fn closest_ray_hit(hits: &Vec<Option<RayLen>>) -> (r: Option<usize>)
    ensures
        r is None <==> forall|k: int| !is_counted(hits@, k),
        r matches Some(j) ==> is_closest_hit(hits@, j as int),
{
    let min_len = RayLen(MIN_HIT_LEN_BITS);
    let mut best: Option<usize> = None;
    let mut i: usize = 0;
    while i < hits.len()
        invariant
            i <= hits.len(),
            min_len.0 == MIN_HIT_LEN_BITS,
            best is None <==> forall|k: int| 0 <= k < i ==> !is_counted(hits@, k),
            best matches Some(j) ==> {
                &&& j < i
                &&& is_counted(hits@, j as int)
                &&& forall|k: int| 0 <= k < i && #[trigger] is_counted(hits@, k) ==> hits@[j as int]->0.key() <= hits@[k]->0.key()
                &&& forall|k: int| 0 <= k < j && #[trigger] is_counted(hits@, k) ==> hits@[j as int]->0.key() < hits@[k]->0.key()
            },
        decreases hits.len() - i,
    {
        if let Some(l) = &hits[i] {
            if !(*l < min_len) {
                let closer = match best {
                    None => true,
                    Some(j) => match hits[j] {
                        Some(b) => *l < b,
                        None => false,
                    },
                };
                if closer {
                    best = Some(i);
                }
                assert(is_counted(hits@, i as int));
            }
        }
        assert(best is Some ==> exists|k: int| 0 <= k < i + 1 && is_counted(hits@, k));
        i = i + 1;
    }
    best
}

}
