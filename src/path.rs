use vstd::prelude::*;

verus! {

/// How a surface scatters light.
#[derive(Clone, Copy, Debug, PartialEq, Eq, Structural)]
pub enum Material {
    Diffuse,
    Specular,
    Refractive,
}

/// Where a light path stands after one step.
#[derive(Clone, Copy, Debug, PartialEq, Eq, Structural)]
pub enum PathState {
    /// The path goes on: the surface is sampled for a new direction.
    Sampling,
    /// The depth limit was passed: only the surface's emission counts.
    TerminatedByDepth,
    /// Russian roulette ended the path: only the surface's emission counts.
    TerminatedByRR,
    /// The ray left the scene: nothing is added.
    Escaped,
}

/// Depth after which Russian roulette decides whether a path goes on.
pub const ROULETTE_DEPTH: usize = 5;

/// Depth after which a refractive surface follows one branch instead of both.
pub const SPLIT_DEPTH: usize = 2;

/// Whether a path that reaches a surface at depth `depth` (counted after the hit) draws
/// for Russian roulette.
pub open spec fn roulette_applies_spec(depth: int) -> bool {
    depth > ROULETTE_DEPTH
}

/// The state after a path at depth `depth` casts its next ray.
pub open spec fn next_state(found: bool, depth: int, max_depth: int, survived: bool) -> PathState {
    if !found {
        PathState::Escaped
    } else if depth + 1 > max_depth {
        PathState::TerminatedByDepth
    } else if roulette_applies_spec(depth + 1) && !survived {
        PathState::TerminatedByRR
    } else {
        PathState::Sampling
    }
}

/// Whether a path whose depth is `depth` after a hit draws for Russian roulette.
pub fn roulette_applies(depth: usize) -> (r: bool)
    ensures
        r == roulette_applies_spec(depth as int),
{
    depth > ROULETTE_DEPTH
}

/// One step of a path at depth `depth`: `found` tells whether the ray hit a surface,
/// `survived` whether the roulette draw (taken only where it applies) let the path go on.
/// Returns the next state and the depth after the step.
pub fn step(found: bool, depth: usize, max_depth: usize, survived: bool) -> (r: (PathState, usize))
    requires
        depth < usize::MAX,
    ensures
        r.0 == next_state(found, depth as int, max_depth as int, survived),
        r.1 == if found { depth + 1 } else { depth as int },
{
    if !found {
        return (PathState::Escaped, depth);
    }
    let d = depth + 1;
    if d > max_depth {
        (PathState::TerminatedByDepth, d)
    } else if roulette_applies(d) && !survived {
        (PathState::TerminatedByRR, d)
    } else {
        (PathState::Sampling, d)
    }
}

/// Whether a refractive surface at depth `depth` follows both the reflected and the
/// refracted branch (`true`) or chooses one of them at random (`false`).
pub fn refraction_splits(depth: usize) -> (r: bool)
    ensures
        r == (depth <= SPLIT_DEPTH),
{
    depth <= SPLIT_DEPTH
}

/// A path samples a new direction only at a depth within the limit, and Russian roulette
/// ends only paths deeper than the roulette depth.
pub proof fn lemma_step_bounds(found: bool, depth: int, max_depth: int, survived: bool)
    ensures
        next_state(found, depth, max_depth, survived) == PathState::Sampling ==> depth + 1
            <= max_depth,
        next_state(found, depth, max_depth, survived) == PathState::TerminatedByRR ==> depth + 1
            > ROULETTE_DEPTH,
        next_state(found, depth, max_depth, survived) == PathState::Escaped <==> !found,
        depth + 1 <= ROULETTE_DEPTH && depth + 1 <= max_depth && found ==> next_state(
            found,
            depth,
            max_depth,
            survived,
        ) == PathState::Sampling,
{
}

/// A path at depth `max_depth` that hits a surface stops there, whatever the roulette.
pub proof fn lemma_depth_limit(max_depth: int, survived: bool)
    ensures
        next_state(true, max_depth, max_depth, survived) == PathState::TerminatedByDepth,
{
}

} // verus!
