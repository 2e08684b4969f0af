//! The escape-time iteration: how long an orbit is followed, when it counts
//! as escaped, and which colour follows from that.
//!
//! The caller supplies one step of the orbit, a function that takes the
//! orbit's state to its next state and says whether that state has left the
//! bound, and a palette for the orbits that escape. The library runs the
//! iteration, gives the verdict, and paints the bounded orbits black.

use vstd::prelude::*;
use crate::pixel::Color;

verus! {

/// The iteration budget: an orbit that has not escaped after this many steps
/// counts as bounded.
pub const MAX_ITER: u32 = 250;

/// What the iteration found out about an orbit.
#[derive(Debug, PartialEq)]
pub enum Verdict<S> {
    /// The orbit left the bound at step `iteration`, counted from 0, where it
    /// reached `state`.
    Escaped { iteration: u32, state: S },
    /// The orbit stayed within the bound for the whole budget.
    Bounded,
}

/// Step `t` of an orbit: `step` may take `states[t]` to `states[t + 1]`
/// with the escape test `flags[t]`.
pub open spec fn stepped<S, F: Fn(S) -> (S, bool)>(
    step: F,
    states: Seq<S>,
    flags: Seq<bool>,
    t: int,
) -> bool {
    call_ensures(step, (states[t],), (states[t + 1], flags[t]))
}

/// `states` is an orbit of `step` from `start`, and `flags` holds the
/// escape test of each of its steps.
pub open spec fn orbit_of<S, F: Fn(S) -> (S, bool)>(
    step: F,
    start: S,
    states: Seq<S>,
    flags: Seq<bool>,
) -> bool {
    &&& states.len() == flags.len() + 1
    &&& states[0] == start
    &&& forall|t: int| 0 <= t < flags.len() ==> #[trigger] stepped(step, states, flags, t)
}

/// `verdict` is what an orbit with these states and escape tests deserves:
/// escaped at the first step whose test holds, with the state reached there,
/// or bounded where the budget is used up and no test held.
pub open spec fn judged<S>(states: Seq<S>, flags: Seq<bool>, verdict: Verdict<S>) -> bool {
    match verdict {
        Verdict::Escaped { iteration, state } => {
            &&& iteration < MAX_ITER
            &&& flags.len() == iteration + 1
            &&& flags[iteration as int]
            &&& forall|t: int| 0 <= t < iteration ==> !#[trigger] flags[t]
            &&& state == states[iteration + 1]
        },
        Verdict::Bounded => {
            &&& flags.len() == MAX_ITER
            &&& forall|t: int| 0 <= t < MAX_ITER ==> !#[trigger] flags[t]
        },
    }
}

/// `verdict` is the verdict on some orbit of `step` from `start`.
pub open spec fn verdict_of<S, F: Fn(S) -> (S, bool)>(
    step: F,
    start: S,
    verdict: Verdict<S>,
) -> bool {
    exists|states: Seq<S>, flags: Seq<bool>|
        #[trigger] orbit_of(step, start, states, flags) && judged(states, flags, verdict)
}

/// Follows the orbit of `step` from `start` until a step reports an escape
/// or the budget of `MAX_ITER` steps is used up.
pub fn escape_time<S, F: Fn(S) -> (S, bool)>(start: S, step: F) -> (verdict: Verdict<S>)
    requires
        forall|s: S| call_requires(step, (s,)),
    ensures
        verdict_of(step, start, verdict),
{
    let ghost mut states: Seq<S> = seq![start];
    let ghost mut flags: Seq<bool> = Seq::empty();
    let mut state = start;
    let mut t: u32 = 0;
    while t < MAX_ITER
        invariant
            t <= MAX_ITER,
            flags.len() == t,
            orbit_of(step, start, states, flags),
            state == states[t as int],
            forall|i: int| 0 <= i < t ==> !#[trigger] flags[i],
            forall|s: S| call_requires(step, (s,)),
        decreases MAX_ITER - t,
    {
        let ghost before_states = states;
        let ghost before_flags = flags;
        let (next, escaped) = step(state);
        proof {
            states = states.push(next);
            flags = flags.push(escaped);
            assert forall|i: int| 0 <= i < flags.len() implies #[trigger] stepped(
                step,
                states,
                flags,
                i,
            ) by {
                if i < t {
                    assert(stepped(step, before_states, before_flags, i));
                }
            }
        }
        if escaped {
            let verdict = Verdict::Escaped { iteration: t, state: next };
            assert(orbit_of(step, start, states, flags) && judged(states, flags, verdict));
            return verdict;
        }
        state = next;
        t += 1;
    }
    assert(orbit_of(step, start, states, flags) && judged(states, flags, Verdict::<S>::Bounded));
    Verdict::Bounded
}

/// `color` is the colour owed to `verdict`: black for a bounded orbit, and
/// for an escaped one a colour that `palette` returns for the step and the
/// state of the escape.
pub open spec fn painted<S, P: Fn(u32, S) -> Color>(
    verdict: Verdict<S>,
    palette: P,
    color: Color,
) -> bool {
    match verdict {
        Verdict::Escaped { iteration, state } => call_ensures(palette, (iteration, state), color),
        Verdict::Bounded => color == Color::black(),
    }
}

/// `color` is the colour owed to some verdict on an orbit of `step` from `start`.
pub open spec fn colored<S, F: Fn(S) -> (S, bool), P: Fn(u32, S) -> Color>(
    step: F,
    palette: P,
    start: S,
    color: Color,
) -> bool {
    exists|verdict: Verdict<S>|
        #[trigger] verdict_of(step, start, verdict) && painted(verdict, palette, color)
}

/// The colour of the orbit of `step` from `start`: black where the orbit
/// stays bounded for the whole budget, else what `palette` makes of the
/// escape.
pub fn colorize<S, F: Fn(S) -> (S, bool), P: Fn(u32, S) -> Color>(
    start: S,
    step: F,
    palette: P,
) -> (color: Color)
    requires
        forall|s: S| call_requires(step, (s,)),
        forall|iteration: u32, s: S|
            iteration < MAX_ITER ==> call_requires(palette, (iteration, s)),
    ensures
        colored(step, palette, start, color),
{
    let verdict = escape_time(start, step);
    let ghost found = verdict;
    let color = match verdict {
        Verdict::Escaped { iteration, state } => palette(iteration, state),
        Verdict::Bounded => Color::black(),
    };
    assert(verdict_of(step, start, found) && painted(found, palette, color));
    color
}

/// `step` has one outcome at most for each state.
pub open spec fn deterministic<S, F: Fn(S) -> (S, bool)>(step: F) -> bool {
    forall|s: S, a: (S, bool), b: (S, bool)|
        #[trigger] call_ensures(step, (s,), a) && #[trigger] call_ensures(step, (s,), b) ==> a
            == b
}

/// Two orbits of a deterministic step from one start agree as far as both run.
pub proof fn lemma_orbits_agree<S, F: Fn(S) -> (S, bool)>(
    step: F,
    start: S,
    states: Seq<S>,
    flags: Seq<bool>,
    other_states: Seq<S>,
    other_flags: Seq<bool>,
    t: int,
)
    requires
        deterministic(step),
        orbit_of(step, start, states, flags),
        orbit_of(step, start, other_states, other_flags),
        0 <= t <= flags.len(),
        t <= other_flags.len(),
    ensures
        states[t] == other_states[t],
        forall|i: int| 0 <= i < t ==> flags[i] == other_flags[i],
    decreases t,
{
    if t > 0 {
        lemma_orbits_agree(step, start, states, flags, other_states, other_flags, t - 1);
        assert(stepped(step, states, flags, t - 1));
        assert(stepped(step, other_states, other_flags, t - 1));
        assert((states[t], flags[t - 1]) == (other_states[t], other_flags[t - 1]));
    }
}

/// Where the step has one outcome at most for each state, an orbit has a
/// single verdict, so following it twice from the same start ends alike.
pub proof fn lemma_verdict_unique<S, F: Fn(S) -> (S, bool)>(
    step: F,
    start: S,
    first: Verdict<S>,
    second: Verdict<S>,
)
    requires
        deterministic(step),
        verdict_of(step, start, first),
        verdict_of(step, start, second),
    ensures
        first == second,
{
    let (states, flags) = choose|states: Seq<S>, flags: Seq<bool>|
        #[trigger] orbit_of(step, start, states, flags) && judged(states, flags, first);
    let (other_states, other_flags) = choose|states: Seq<S>, flags: Seq<bool>|
        #[trigger] orbit_of(step, start, states, flags) && judged(states, flags, second);
    let common = if flags.len() <= other_flags.len() {
        flags.len() as int
    } else {
        other_flags.len() as int
    };
    lemma_orbits_agree(step, start, states, flags, other_states, other_flags, common);
    assert(flags[common - 1] == other_flags[common - 1]);
}

/// `palette` has one colour at most for each escape.
pub open spec fn single_colored<S, P: Fn(u32, S) -> Color>(palette: P) -> bool {
    forall|iteration: u32, s: S, a: Color, b: Color|
        #[trigger] call_ensures(palette, (iteration, s), a) && #[trigger] call_ensures(
            palette,
            (iteration, s),
            b,
        ) ==> a == b
}

/// Where the step has one outcome at most for each state and the palette
/// one colour at most for each escape, a start has a single colour: asking
/// twice for the colour of one point gives the same colour.
pub proof fn lemma_color_unique<S, F: Fn(S) -> (S, bool), P: Fn(u32, S) -> Color>(
    step: F,
    palette: P,
    start: S,
    first: Color,
    second: Color,
)
    requires
        deterministic(step),
        single_colored(palette),
        colored(step, palette, start, first),
        colored(step, palette, start, second),
    ensures
        first == second,
{
    let one = choose|verdict: Verdict<S>|
        #[trigger] verdict_of(step, start, verdict) && painted(verdict, palette, first);
    let other = choose|verdict: Verdict<S>|
        #[trigger] verdict_of(step, start, verdict) && painted(verdict, palette, second);
    lemma_verdict_unique(step, start, one, other);
}

} // verus!
