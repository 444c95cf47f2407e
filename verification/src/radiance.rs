//! The choices that steer a path: when Russian roulette ends it, and which
//! light sources are sampled directly at a hit.
use vstd::prelude::*;
use crate::float_bits::{float_lt, bits_lt, is_nan, order_key, lemma_positive_magnitude, ONE_BITS};

verus! {

/// Bit pattern of the survival probability of Russian roulette, `0.4`.
pub const ROULETTE_THRES_BITS: u32 = 0x3ecc_cccd;

/// Russian roulette settings: paths up to `assured_depth` bounces always go on.
/// `max_thres` is read from the scheme but not used: the survival probability
/// is the fixed `0.4`.
pub struct RussianRoullInfo {
    pub assured_depth: i32,
    pub max_thres: u32,
}

/// How radiance is gathered along a path.
pub struct RadianceInfo {
    /// Report what the first hit emits and stop there.
    pub debug_single_ray: bool,
    /// Sample light sources directly at diffuse hits.
    pub dir_light_samp: bool,
    pub russ_roull_info: RussianRoullInfo,
}

/// The outcome of Russian roulette at `depth` with the uniform draw `draw`:
/// whether the path goes on, and the survival probability by which its
/// colour is then divided when roulette was played.
pub open spec fn roulette_outcome(depth: i32, assured_depth: i32, draw: u32) -> (bool, Option<u32>) {
    if depth > assured_depth {
        if float_lt(draw, ROULETTE_THRES_BITS) {
            (true, Some(ROULETTE_THRES_BITS))
        } else {
            (false, None)
        }
    } else {
        (true, None)
    }
}

/// For every `assured_depth`, a path at a depth up to it always goes on,
/// unattenuated; roulette is played exactly past it.  There the path goes on,
/// divided by the survival probability, exactly when the draw is a number
/// below `0.4`, and else it ends.  For a draw from `[0, 1)` that is a draw
/// whose bit pattern lies below the one of `0.4`.
pub proof fn lemma_roulette_past_assured_depth(depth: i32, assured_depth: i32, draw: u32)
    ensures
        depth <= assured_depth ==> roulette_outcome(depth, assured_depth, draw) == (true, None::<u32>),
        depth > assured_depth && !is_nan(draw) && order_key(draw) < ROULETTE_THRES_BITS
            ==> roulette_outcome(depth, assured_depth, draw) == (true, Some(ROULETTE_THRES_BITS)),
        depth > assured_depth && !(!is_nan(draw) && order_key(draw) < ROULETTE_THRES_BITS)
            ==> roulette_outcome(depth, assured_depth, draw) == (false, None::<u32>),
        roulette_outcome(depth, assured_depth, draw).1 is Some
            <==> depth > assured_depth && roulette_outcome(depth, assured_depth, draw).0,
        depth > assured_depth && draw < ONE_BITS
            ==> (roulette_outcome(depth, assured_depth, draw).0 <==> draw < ROULETTE_THRES_BITS),
{
    lemma_positive_magnitude(ROULETTE_THRES_BITS);
    if draw < ONE_BITS {
        lemma_positive_magnitude(draw);
    }
}

/// Plays Russian roulette for a path that has bounced `depth` times.
pub fn russian_roulette_filter(depth: i32, russ_roull_info: &RussianRoullInfo, draw: u32) -> (r: (bool, Option<u32>))
    ensures
        r == roulette_outcome(depth, russ_roull_info.assured_depth, draw),
        depth <= russ_roull_info.assured_depth ==> r == (true, None::<u32>),
{
    proof {
        lemma_roulette_past_assured_depth(depth, russ_roull_info.assured_depth, draw);
    }
    if depth > russ_roull_info.assured_depth {
        if bits_lt(draw, ROULETTE_THRES_BITS) {
            (true, Some(ROULETTE_THRES_BITS))
        } else {
            (false, None)
        }
    } else {
        (true, None)
    }
}

/// A light source is sampled when it emits and is not omitted.
pub open spec fn is_dls_light(emits: Seq<bool>, omit: Seq<usize>, i: int) -> bool {
    0 <= i < emits.len() && emits[i] && !omit.contains(i as usize)
}

/// The positions of the light sources to sample directly, in order: the
/// elements that emit, leaving out those in `omit` (the element that was hit
/// and the one the bounced ray reached).
pub fn dls_light_indices(emits: &Vec<bool>, omit: &Vec<usize>) -> (r: Vec<usize>)
    ensures
        forall|k: int| 0 <= k < r@.len() ==> is_dls_light(emits@, omit@, #[trigger] r@[k] as int),
        forall|i: int| is_dls_light(emits@, omit@, i) ==> r@.contains(i as usize),
        forall|k: int, l: int| 0 <= k < l < r@.len() ==> r@[k] < r@[l],
{
    let mut r: Vec<usize> = Vec::new();
    let mut i: usize = 0;
    while i < emits.len()
        invariant
            i <= emits@.len(),
            forall|k: int| 0 <= k < r@.len() ==> is_dls_light(emits@, omit@, #[trigger] r@[k] as int),
            forall|k: int| 0 <= k < r@.len() ==> #[trigger] r@[k] < i,
            forall|j: int| 0 <= j < i && is_dls_light(emits@, omit@, j) ==> r@.contains(j as usize),
            forall|k: int, l: int| 0 <= k < l < r@.len() ==> r@[k] < r@[l],
        decreases emits@.len() - i,
    {
        let mut omitted = false;
        let mut j: usize = 0;
        while j < omit.len()
            invariant
                j <= omit@.len(),
                omitted <==> exists|m: int| 0 <= m < j && omit@[m] == i,
            decreases omit@.len() - j,
        {
            if omit[j] == i {
                omitted = true;
            }
            j = j + 1;
        }
        assert(omitted <==> omit@.contains(i));
        let ghost before = r@;
        if emits[i] && !omitted {
            r.push(i);
            assert(r@[r@.len() - 1] == i);
        }
        assert forall|j: int| 0 <= j < i + 1 && is_dls_light(emits@, omit@, j) implies r@.contains(j as usize) by {
            if j < i {
                let k = choose|k: int| 0 <= k < before.len() && before[k] == j as usize;
                assert(r@[k] == before[k]);
            }
        }
        i = i + 1;
    }
    r
}

}
