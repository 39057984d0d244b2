//! Decisions of the bounded-depth light-transport loop.
//!
//! The caller traces a ray, reports what happened at the surface, and receives
//! the next action; colours are multiplied outside this module.
use vstd::prelude::*;

verus! {

/// What a traced ray met.
#[derive(Clone, Copy, Debug, PartialEq, Eq, Structural)]
pub enum Bounce {
    /// Nothing in the scene: the ray sees the sky.
    Missed,
    /// A surface whose material absorbed the ray.
    Absorbed,
    /// A surface that scattered the ray; its attenuation multiplies the rest of the path.
    Scattered,
}

/// What the caller does next.
#[derive(Clone, Copy, Debug, PartialEq, Eq, Structural)]
pub enum PathAction {
    /// Trace the current ray against the scene, with this many bounces left.
    Trace(u32),
    /// The path carries no light: the sample is black.
    Black,
    /// The path ends in the sky: the sample is the accumulated attenuation times the sky colour.
    Sky,
}

/// The action after a ray leaves the camera with a budget of `depth` bounces.
pub open spec fn start_spec(depth: i32) -> PathAction {
    if depth <= 0 {
        PathAction::Black
    } else {
        PathAction::Trace(depth as u32)
    }
}

/// The action after a ray traced with `remaining` bounces left met `event`.
pub open spec fn advance_spec(remaining: u32, event: Bounce) -> PathAction {
    match event {
        Bounce::Missed => PathAction::Sky,
        Bounce::Absorbed => PathAction::Black,
        Bounce::Scattered => if remaining <= 1 {
            PathAction::Black
        } else {
            PathAction::Trace((remaining - 1) as u32)
        },
    }
}

/// The action reached from `action` after the events `events`, one per traced ray;
/// events after the path has ended are ignored.
pub open spec fn run(action: PathAction, events: Seq<Bounce>) -> PathAction
    decreases events.len(),
{
    if events.len() == 0 {
        action
    } else {
        match action {
            PathAction::Trace(remaining) => run(advance_spec(remaining, events[0]), events.drop_first()),
            _ => action,
        }
    }
}

/// The number of rays traced when the path starting with `action` meets `events`.
pub open spec fn traced(action: PathAction, events: Seq<Bounce>) -> nat
    decreases events.len(),
{
    if events.len() == 0 {
        0
    } else {
        match action {
            PathAction::Trace(remaining) => 1 + traced(advance_spec(remaining, events[0]), events.drop_first()),
            _ => 0,
        }
    }
}

/// First action for a camera ray with a bounce budget of `depth`: no budget means black.
pub fn start(depth: i32) -> (r: PathAction)
    ensures
        r == start_spec(depth),
        depth <= 0 ==> r == PathAction::Black,
{
    if depth <= 0 {
        PathAction::Black
    } else {
        PathAction::Trace(depth as u32)
    }
}

/// Next action once the ray traced with `remaining` bounces left has met `event`.
pub fn advance(remaining: u32, event: Bounce) -> (r: PathAction)
    ensures
        r == advance_spec(remaining, event),
{
    match event {
        Bounce::Missed => PathAction::Sky,
        Bounce::Absorbed => PathAction::Black,
        Bounce::Scattered => if remaining <= 1 {
            PathAction::Black
        } else {
            PathAction::Trace(remaining - 1)
        },
    }
}

/// A path never traces more rays than its bounce budget, whatever the surfaces do,
/// and once it has met as many events as that budget it has ended.
pub proof fn lemma_path_bounded(remaining: u32, events: Seq<Bounce>)
    requires
        remaining >= 1,
    ensures
        traced(PathAction::Trace(remaining), events) <= remaining,
        events.len() >= remaining ==> !(run(PathAction::Trace(remaining), events) is Trace),
    decreases events.len(),
{
    if events.len() > 0 {
        let next = advance_spec(remaining, events[0]);
        let rest = events.drop_first();
        match next {
            PathAction::Trace(r2) => {
                lemma_path_bounded(r2, rest);
            },
            _ => {
                if rest.len() > 0 {
                    assert(traced(next, rest) == 0);
                    assert(run(next, rest) == next);
                }
            },
        }
    }
}

/// A budget of zero or less yields a black sample, whatever the ray and the scene.
pub proof fn lemma_no_budget_is_black(depth: i32, events: Seq<Bounce>)
    requires
        depth <= 0,
    ensures
        run(start_spec(depth), events) == PathAction::Black,
        traced(start_spec(depth), events) == 0,
{
    if events.len() > 0 {
        assert(run(start_spec(depth), events) == PathAction::Black);
    }
}

} // verus!
