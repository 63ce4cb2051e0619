//! Control of the path integrator. A ray is traced against the scene a bounded
//! number of times: each surface either absorbs it, lets it escape to the sky, or
//! scatters it into a new ray that is traced with one bounce fewer. The colour
//! arithmetic is left to the caller; these functions decide what happens next.
use vstd::prelude::*;

verus! {

/// What the scene did with a traced ray.
#[derive(Clone, Copy, Debug, PartialEq, Eq, Structural)]
pub enum SurfaceEvent {
    /// No surface was hit: the ray sees the sky.
    Escaped,
    /// A surface was hit and its material absorbed the ray.
    Absorbed,
    /// A surface was hit and its material scattered the ray; the caller multiplies
    /// the attenuation into the colour and goes on with the scattered ray.
    Scattered,
}

/// What the integrator does next.
#[derive(Clone, Copy, Debug, PartialEq, Eq, Structural)]
pub enum PathStep {
    /// No more light is gathered: the path's colour is black.
    Black,
    /// The path ends in the sky: its colour is the accumulated attenuation times the
    /// background gradient for the current ray's direction.
    Sky,
    /// Trace the current ray against the scene, with this many bounces left.
    Trace(u32),
}

/// The step that follows a ray traced with `depth` bounces left.
pub open spec fn step_after(depth: nat, event: SurfaceEvent) -> PathStep {
    match event {
        SurfaceEvent::Escaped => PathStep::Sky,
        SurfaceEvent::Absorbed => PathStep::Black,
        SurfaceEvent::Scattered => if depth <= 1 {
            PathStep::Black
        } else {
            PathStep::Trace((depth - 1) as u32)
        },
    }
}

/// The step a path allowed `max_depth` bounces begins with.
pub open spec fn first_step(max_depth: u32) -> PathStep {
    if max_depth == 0 {
        PathStep::Black
    } else {
        PathStep::Trace(max_depth)
    }
}

/// Where a path stands after the scene has answered with `events`, one per trace,
/// starting from `step`; events past the end of the path are not looked at.
pub open spec fn run(step: PathStep, events: Seq<SurfaceEvent>) -> PathStep
    decreases events.len(),
{
    match step {
        PathStep::Trace(d) => if events.len() > 0 && d > 0 {
            run(step_after(d as nat, events[0]), events.drop_first())
        } else {
            step
        },
        _ => step,
    }
}

/// A path allowed `max_depth` bounces has ended once the scene has answered
/// `max_depth` traces, whatever it answered; and if it scattered the ray every
/// time, the path is black.
pub proof fn lemma_path_ends_within_depth(max_depth: u32, events: Seq<SurfaceEvent>)
    requires
        events.len() >= max_depth,
    ensures
        !(run(first_step(max_depth), events) is Trace),
        (forall|i: int| 0 <= i < max_depth ==> events[i] == SurfaceEvent::Scattered) ==> run(
            first_step(max_depth),
            events,
        ) == PathStep::Black,
    decreases max_depth,
{
    if max_depth > 0 {
        let rest = events.drop_first();
        assert(run(first_step(max_depth), events) == run(step_after(max_depth as nat, events[0]), rest));
        match events[0] {
            SurfaceEvent::Scattered => {
                if max_depth > 1 {
                    assert(step_after(max_depth as nat, events[0]) == first_step((max_depth - 1) as u32));
                    lemma_path_ends_within_depth((max_depth - 1) as u32, rest);
                    if forall|i: int| 0 <= i < max_depth ==> events[i] == SurfaceEvent::Scattered {
                        assert forall|i: int| 0 <= i < max_depth - 1 implies rest[i]
                            == SurfaceEvent::Scattered by {
                            assert(rest[i] == events[i + 1]);
                        }
                    }
                }
            },
            _ => {},
        }
    }
}

/// First step of a path allowed `max_depth` bounces: with none left the path is
/// black without touching the scene.
pub fn start(max_depth: u32) -> (r: PathStep)
    ensures
        r == first_step(max_depth),
{
    if max_depth == 0 {
        PathStep::Black
    } else {
        PathStep::Trace(max_depth)
    }
}

/// Step after tracing a ray that had `depth` bounces left. A scattered ray is
/// traced again with one bounce fewer, or gathers nothing once the bounces run
/// out, so the number of bounces left strictly decreases along a path.
pub fn next_step(depth: u32, event: SurfaceEvent) -> (r: PathStep)
    requires
        depth > 0,
    ensures
        r == step_after(depth as nat, event),
        r matches PathStep::Trace(d) ==> d < depth,
{
    match event {
        SurfaceEvent::Escaped => PathStep::Sky,
        SurfaceEvent::Absorbed => PathStep::Black,
        SurfaceEvent::Scattered => {
            if depth == 1 {
                PathStep::Black
            } else {
                PathStep::Trace(depth - 1)
            }
        },
    }
}

} // verus!
