//! Control of the path integrator: when a light path is extended and when it
//! ends, separated from the radiance arithmetic that the caller performs.
use vstd::prelude::*;

verus! {

/// Bounce count at which a path is cut off unconditionally.
pub const MAX_BOUNCES: u32 = 50;

/// What the scene query and the material reported for the current ray.
#[derive(Clone, Copy, Debug, PartialEq, Eq, Structural)]
pub enum Event {
    /// The ray escaped: nothing was hit.
    Miss,
    /// A surface was hit and its material did not scatter the ray.
    Absorbed,
    /// A surface was hit and its material produced a scattered ray.
    Scattered,
}

/// What the integrator does next.
#[derive(Clone, Copy, Debug, PartialEq, Eq, Structural)]
pub enum Next {
    /// Trace the scattered ray, with the bounce count given.
    Continue(u32),
    /// End the path and return the radiance accumulated so far.
    ReturnAccumulated,
    /// End the path and return black: there is no environment light, and an
    /// escaping path contributes nothing. Only lights emit and a light never
    /// scatters, so a path that goes on to escape has accumulated nothing.
    ReturnBlack,
}

/// The decision after one scene query at bounce count `bounces`.
pub open spec fn next_spec(bounces: u32, event: Event) -> Next {
    match event {
        Event::Miss => Next::ReturnBlack,
        Event::Absorbed => Next::ReturnAccumulated,
        Event::Scattered => if bounces >= MAX_BOUNCES {
            Next::ReturnAccumulated
        } else {
            Next::Continue((bounces + 1) as u32)
        },
    }
}

/// Decides how the path goes on after a scene query. On a hit the caller has
/// already added the attenuated emission of the surface; on a scatter it has
/// multiplied the attenuation by the albedo and replaced the ray.
pub fn next_step(bounces: u32, event: Event) -> (r: Next)
    requires
        bounces <= MAX_BOUNCES,
    ensures
        r == next_spec(bounces, event),
        r matches Next::Continue(b) ==> b <= MAX_BOUNCES,
{
    match event {
        Event::Miss => Next::ReturnBlack,
        Event::Absorbed => Next::ReturnAccumulated,
        Event::Scattered => {
            if bounces == MAX_BOUNCES {
                Next::ReturnAccumulated
            } else {
                Next::Continue(bounces + 1)
            }
        },
    }
}

/// Runs the decisions over a sequence of events from bounce count `bounces`:
/// the final decision and the number of scene queries made, or `None` if the
/// events ran out first.
pub open spec fn run(bounces: u32, events: Seq<Event>) -> Option<(Next, nat)>
    decreases events.len(),
{
    if events.len() == 0 {
        None
    } else {
        match next_spec(bounces, events[0]) {
            Next::Continue(b) => match run(b, events.drop_first()) {
                Some((n, k)) => Some((n, k + 1)),
                None => None,
            },
            done => Some((done, 1)),
        }
    }
}

/// Every path ends after at most `MAX_BOUNCES + 1` scene queries, whatever
/// the scene reports.
pub proof fn lemma_path_terminates(bounces: u32, events: Seq<Event>)
    requires
        bounces <= MAX_BOUNCES,
        events.len() >= MAX_BOUNCES + 1 - bounces,
    ensures
        run(bounces, events) matches Some((n, k)) && k <= MAX_BOUNCES + 1 - bounces && !(
        n is Continue),
    decreases events.len(),
{
    match next_spec(bounces, events[0]) {
        Next::Continue(b) => {
            lemma_path_terminates(b, events.drop_first());
        },
        _ => {},
    }
}

/// A path on which every surface scatters (a closed mirror box) ends exactly
/// when the bounce count reaches `MAX_BOUNCES`: after `MAX_BOUNCES + 1`
/// scene queries, returning the accumulated radiance.
pub proof fn lemma_mirror_path_cut_off(bounces: u32, events: Seq<Event>)
    requires
        bounces <= MAX_BOUNCES,
        events.len() >= MAX_BOUNCES + 1 - bounces,
        forall|i: int| 0 <= i < events.len() ==> events[i] == Event::Scattered,
    ensures
        run(bounces, events) == Some((Next::ReturnAccumulated, (MAX_BOUNCES + 1 - bounces) as nat)),
    decreases events.len(),
{
    if bounces < MAX_BOUNCES {
        lemma_mirror_path_cut_off((bounces + 1) as u32, events.drop_first());
    }
}

/// A first hit on a surface that only emits (a light) ends the path at once
/// with what that hit contributed, which was weighted by the initial, unit
/// attenuation.
pub proof fn lemma_light_ends_path(events: Seq<Event>)
    requires
        events.len() >= 1,
        events[0] == Event::Absorbed,
    ensures
        run(0, events) == Some((Next::ReturnAccumulated, 1nat)),
{
}

} // verus!
