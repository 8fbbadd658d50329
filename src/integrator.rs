use vstd::prelude::*;

verus! {

/// What the material at a hit point did with the incoming ray.
#[derive(PartialEq, Eq, Structural, Debug, Clone, Copy)]
pub enum ScatterKind {
    /// It did not scatter: the ray was absorbed.
    Absorbed,
    /// It scattered along one deterministic ray (mirror or glass).
    Specular,
    /// It scattered according to a sampling density.
    Sampled,
}

/// How the radiance carried back along one ray is made up.
#[derive(PartialEq, Eq, Structural, Debug, Clone, Copy)]
pub enum RadianceRule {
    /// The bounce budget is used up: black.
    Black,
    /// The ray left the scene: the background color.
    Background,
    /// Only the light emitted at the hit point.
    Emitted,
    /// Emitted light plus the attenuated radiance along the specular ray,
    /// traced with the given remaining depth; no density is divided out.
    Specular(i32),
    /// Emitted light plus the attenuated, density-weighted radiance along a
    /// direction drawn from the material's own density, traced with the
    /// given remaining depth.
    MaterialSample(i32),
    /// As `MaterialSample`, but the direction is drawn from an even mixture
    /// of the material's density and a density aimed at the scene's light.
    MixtureSample(i32),
}

/// The rule for the radiance along a ray, from the remaining bounce budget
/// `depth`, what the ray met (`None`: nothing; else what the material at
/// the hit did) and whether the scene designates a light.
pub open spec fn radiance_rule_spec(depth: i32, surface: Option<ScatterKind>, has_light: bool) -> RadianceRule {
    if depth <= 0 {
        RadianceRule::Black
    } else {
        match surface {
            None => RadianceRule::Background,
            Some(ScatterKind::Absorbed) => RadianceRule::Emitted,
            Some(ScatterKind::Specular) => RadianceRule::Specular((depth - 1) as i32),
            Some(ScatterKind::Sampled) => if has_light {
                RadianceRule::MixtureSample((depth - 1) as i32)
            } else {
                RadianceRule::MaterialSample((depth - 1) as i32)
            },
        }
    }
}

/// Decides how the radiance along a ray is computed; see
/// [`radiance_rule_spec`].
pub fn radiance_rule(depth: i32, surface: Option<ScatterKind>, has_light: bool) -> (r: RadianceRule)
    ensures
        r == radiance_rule_spec(depth, surface, has_light),
{
    if depth <= 0 {
        return RadianceRule::Black;
    }
    match surface {
        None => RadianceRule::Background,
        Some(ScatterKind::Absorbed) => RadianceRule::Emitted,
        Some(ScatterKind::Specular) => RadianceRule::Specular(depth - 1),
        Some(ScatterKind::Sampled) => if has_light {
            RadianceRule::MixtureSample(depth - 1)
        } else {
            RadianceRule::MaterialSample(depth - 1)
        },
    }
}

/// The remaining depth that a rule hands to the ray it traces next, if any.
pub open spec fn next_depth(r: RadianceRule) -> Option<i32> {
    match r {
        RadianceRule::Specular(d) => Some(d),
        RadianceRule::MaterialSample(d) => Some(d),
        RadianceRule::MixtureSample(d) => Some(d),
        _ => None,
    }
}

/// A ray that meets nothing, with any bounce budget left, carries exactly
/// the background color: no randomness enters that case.
pub proof fn lemma_miss_is_background(depth: i32, has_light: bool)
    requires
        depth > 0,
    ensures
        radiance_rule_spec(depth, None, has_light) == RadianceRule::Background,
{
}

/// Each traced ray has a strictly smaller budget than the ray it continues,
/// and no ray is traced once the budget is used up, so a path has at most
/// `depth` bounces.
pub proof fn lemma_depth_decreases(depth: i32, surface: Option<ScatterKind>, has_light: bool)
    ensures
        next_depth(radiance_rule_spec(depth, surface, has_light)) matches Some(d) ==> 0 <= d < depth,
        depth <= 0 ==> next_depth(radiance_rule_spec(depth, surface, has_light)) == None::<i32>,
{
}

} // verus!
