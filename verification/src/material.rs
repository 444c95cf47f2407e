//! How a surface diverts the rays that hit it.
//!
//! The numbers of a material (probabilities, refractive indices, emitted
//! colour) are `f32` values held by their bit patterns; the decisions below
//! read them only through comparisons.  Random draws come in as the bit
//! patterns of `f32` values drawn uniformly from `[0, 1)`.
use vstd::prelude::*;
use crate::float_bits::{float_lt, bits_lt, is_nan, order_key, lemma_unit_draw, ONE_BITS};

verus! {

/// The way a material sends a ray on after a hit.
pub enum DivertRayMethod {
    /// Mirror reflection.
    Spec,
    /// Diffuse reflection.
    Diff,
    /// Diffuse with probability `diffp`, mirror otherwise.
    DiffSpec { diffp: u32 },
    /// Refraction between the media outside and inside the surface.
    Dielectric { n_out: u32, n_in: u32 },
}

/// The random choice made at a hit before the ray is sent on.
pub enum SeedingRay {
    /// For `DiffSpec` materials: whether the bounce is diffuse.
    DiffSpec(bool),
    NoSeed,
}

/// The bounce that a material performs for a given seeding.
pub enum Bounce {
    Spec,
    Diff,
    Refract { n_out: u32, n_in: u32 },
}

/// A material: the light it emits, as red, green and blue, if any, and the
/// way it diverts rays.
pub struct CommonMaterial {
    pub emissive: Option<[u32; 3]>,
    pub divert_ray: DivertRayMethod,
}

/// What a sphere remembers of a hit until the ray is sent on.
pub struct BounceInfo {
    pub seeding: SeedingRay,
}

/// The seeding that `divert` draws with the uniform draw `draw`.
pub open spec fn seed_for(divert: DivertRayMethod, draw: u32) -> SeedingRay {
    match divert {
        DivertRayMethod::DiffSpec { diffp } => SeedingRay::DiffSpec(float_lt(draw, diffp)),
        _ => SeedingRay::NoSeed,
    }
}

/// Whether direct light sampling applies to a bounce: on diffuse bounces only.
pub open spec fn dls_applies(divert: DivertRayMethod, seeding: SeedingRay) -> bool {
    match (divert, seeding) {
        (DivertRayMethod::Diff, _) => true,
        (DivertRayMethod::DiffSpec { .. }, SeedingRay::DiffSpec(true)) => true,
        _ => false,
    }
}

/// A `DiffSpec` material can only bounce once its seed is drawn.
pub open spec fn seeded_for(divert: DivertRayMethod, seeding: SeedingRay) -> bool {
    divert is DiffSpec ==> seeding is DiffSpec
}

pub open spec fn bounce_for(divert: DivertRayMethod, seeding: SeedingRay) -> Bounce {
    match divert {
        DivertRayMethod::Spec => Bounce::Spec,
        DivertRayMethod::Diff => Bounce::Diff,
        DivertRayMethod::DiffSpec { .. } => match seeding {
            SeedingRay::DiffSpec(true) => Bounce::Diff,
            _ => Bounce::Spec,
        },
        DivertRayMethod::Dielectric { n_out, n_in } => Bounce::Refract { n_out, n_in },
    }
}

impl CommonMaterial {
    /// Draws the seeding of a hit: for a `DiffSpec` material the bounce is
    /// diffuse when the uniform draw `draw` is below `diffp`; other materials
    /// need no seed.
    pub fn generate_seed(&self, draw: u32) -> (r: SeedingRay)
        ensures
            r == seed_for(self.divert_ray, draw),
    {
        match self.divert_ray {
            DivertRayMethod::DiffSpec { diffp } => SeedingRay::DiffSpec(bits_lt(draw, diffp)),
            _ => SeedingRay::NoSeed,
        }
    }

    /// Whether light sources are sampled directly at a hit with this seeding.
    pub fn should_dls(&self, seeding: &SeedingRay) -> (r: bool)
        ensures
            r == dls_applies(self.divert_ray, *seeding),
    {
        match (&self.divert_ray, seeding) {
            (DivertRayMethod::Diff, _) => true,
            (DivertRayMethod::DiffSpec { .. }, SeedingRay::DiffSpec(true)) => true,
            _ => false,
        }
    }

    /// The bounce that sends the ray on: mirror or diffuse as the material
    /// and its seed say, or refraction with the material's indices.
    pub fn bounce(&self, seeding: &SeedingRay) -> (r: Bounce)
        requires
            seeded_for(self.divert_ray, *seeding),
        ensures
            r == bounce_for(self.divert_ray, *seeding),
    {
        match self.divert_ray {
            DivertRayMethod::Spec => Bounce::Spec,
            DivertRayMethod::Diff => Bounce::Diff,
            DivertRayMethod::DiffSpec { .. } => match seeding {
                SeedingRay::DiffSpec(should_diff) => if *should_diff {
                    Bounce::Diff
                } else {
                    Bounce::Spec
                },
                SeedingRay::NoSeed => Bounce::Spec,
            },
            DivertRayMethod::Dielectric { n_out, n_in } => Bounce::Refract { n_out, n_in },
        }
    }
}

/// A material that is diffuse or mirror-like by a probability given per hit.
pub struct DynDiffSpec {}

impl DynDiffSpec {
    /// Whether a bounce is diffuse: the uniform draw `draw` is below `diffp`.
    pub fn should_diff(diffp: u32, draw: u32) -> (r: bool)
        ensures
            r == float_lt(draw, diffp),
    {
        bits_lt(draw, diffp)
    }

    /// The bounce chosen by `should_diff`.
    pub fn bounce(should_diff: bool) -> (r: Bounce)
        ensures
            r == (if should_diff { Bounce::Diff } else { Bounce::Spec }),
    {
        if should_diff { Bounce::Diff } else { Bounce::Spec }
    }
}

}

verus! {

/// The seeding that a material draws is always one it can bounce with.
pub proof fn lemma_seed_enables_bounce(divert: DivertRayMethod, draw: u32)
    ensures
        seeded_for(divert, seed_for(divert, draw)),
{
}

/// Direct light sampling applies exactly to the bounces that are diffuse.
pub proof fn lemma_dls_iff_diffuse(divert: DivertRayMethod, seeding: SeedingRay)
    requires
        seeded_for(divert, seeding),
    ensures
        dls_applies(divert, seeding) <==> bounce_for(divert, seeding) is Diff,
{
}

/// What a hit does, from its material and the draw: a diffuse material
/// always bounces diffusely and a mirror always mirrors; a `DiffSpec`
/// material bounces diffusely exactly when the draw is a number below a
/// number `diffp`, and mirrors otherwise; a dielectric refracts with its
/// indices.  Light sources are sampled directly exactly at diffuse bounces.
pub proof fn lemma_bounce_after_seed(divert: DivertRayMethod, draw: u32)
    ensures
        divert is Diff ==> bounce_for(divert, seed_for(divert, draw)) is Diff,
        divert is Spec ==> bounce_for(divert, seed_for(divert, draw)) is Spec,
        divert matches DivertRayMethod::DiffSpec { diffp } ==> {
            &&& bounce_for(divert, seed_for(divert, draw)) is Diff
                <==> !is_nan(draw) && !is_nan(diffp) && order_key(draw) < order_key(diffp)
            &&& bounce_for(divert, seed_for(divert, draw)) is Diff || bounce_for(divert, seed_for(divert, draw)) is Spec
        },
        divert matches DivertRayMethod::Dielectric { n_out, n_in }
            ==> bounce_for(divert, seed_for(divert, draw)) == (Bounce::Refract { n_out, n_in }),
        dls_applies(divert, seed_for(divert, draw)) <==> bounce_for(divert, seed_for(divert, draw)) is Diff,
{
}

/// With a uniform draw from `[0, 1)`, a diffuse probability of one or more
/// always gives a diffuse bounce, and one of zero or less, or NaN, never does.
pub proof fn lemma_diffuse_probability_extremes(diffp: u32, draw: u32)
    requires
        draw < ONE_BITS,
    ensures
        !is_nan(diffp) && order_key(diffp) >= order_key(ONE_BITS) ==> float_lt(draw, diffp),
        is_nan(diffp) || order_key(diffp) <= 0 ==> !float_lt(draw, diffp),
{
    lemma_unit_draw(draw);
}

}
