//! The state of one simulated agent: either dwelling at a location or
//! traversing an edge, with the ticks spent in that situation so far.

use vstd::prelude::*;
use crate::graph::Graph;
use crate::behaviour::Behaviour;
use crate::behaviour::steps_allowed;

verus! {

#[derive(Clone, Copy, PartialEq, Eq, Structural, Debug)]
pub enum EntityState {
    /// At a location, with the dwell time accumulated there.
    Stationary(u32, u32),
    /// On the edge between two locations, with the ticks spent on it.
    Traversing(u32, u32, u32),
}

/// Whether the state is a traversal of exactly the edge `from -> to`.
pub open spec fn traversing_edge(s: EntityState, from: u32, to: u32) -> bool {
    match s {
        EntityState::Stationary(_, _) => false,
        EntityState::Traversing(f, t, _) => f == from && t == to,
    }
}

/// Decimal digits of `n`, exactly as `u32`'s display writes them.
pub uninterp spec fn u32_decimal(n: u32) -> Seq<char>;

/// A state rendered as space-separated decimal fields.
pub open spec fn state_chars(s: EntityState) -> Seq<char> {
    match s {
        EntityState::Stationary(location, time_spent) => u32_decimal(location) + seq![' ']
            + u32_decimal(time_spent),
        EntityState::Traversing(from, to, time_spent) => u32_decimal(from) + seq![' ']
            + u32_decimal(to) + seq![' '] + u32_decimal(time_spent),
    }
}

/// Relies on `format!` over `u32`'s `Display`: the two numbers' decimal
/// digits separated by one space, a function of the arguments alone.
#[verifier::external_body]
fn render_pair(a: u32, b: u32) -> (r: String)
    ensures
        r@ == u32_decimal(a) + seq![' '] + u32_decimal(b),
{
    format!("{} {}", a, b)
}

/// Relies on `format!` over `u32`'s `Display`: the three numbers' decimal
/// digits separated by single spaces, a function of the arguments alone.
#[verifier::external_body]
fn render_triple(a: u32, b: u32, c: u32) -> (r: String)
    ensures
        r@ == u32_decimal(a) + seq![' '] + u32_decimal(b) + seq![' '] + u32_decimal(c),
{
    format!("{} {} {}", a, b, c)
}

impl EntityState {
    /// The state rendered as space-separated decimal fields.
    pub fn to_string(&self) -> (r: String)
        ensures
            r@ == state_chars(*self),
    {
        match *self {
            EntityState::Stationary(location, time_spent) => render_pair(location, time_spent),
            EntityState::Traversing(from, to, time_spent) => render_triple(
                from,
                to,
                time_spent,
            ),
        }
    }

    /// Applies exactly `timestep` single-unit transitions, delegating each to
    /// the behaviour against the same graph view.
    pub fn apply_timestep<B: Behaviour>(
        &self,
        timestep: u32,
        behaviour: &mut B,
        graph: &Graph,
    ) -> (r: EntityState)
        requires
            old(behaviour).valid(*self, *graph),
        ensures
            final(behaviour).valid(r, *graph),
            steps_allowed(*old(behaviour), *self, *graph, r, timestep as nat),
            forall|s: EntityState, g: Graph, n: EntityState|
                #[trigger] final(behaviour).allowed(s, g, n) == old(behaviour).allowed(s, g, n),
            forall|s: EntityState, g: Graph|
                #[trigger] final(behaviour).valid(s, g) == old(behaviour).valid(s, g),
        decreases timestep,
    {
        if timestep == 0 {
            *self
        } else {
            let ghost b0 = *behaviour;
            let next = behaviour.next_state(*self, graph);
            proof {
                b0.valid_step(*self, *graph, next);
            }
            let ghost b1 = *behaviour;
            let r = next.apply_timestep(timestep - 1, behaviour, graph);
            proof {
                crate::behaviour::lemma_steps_allowed_agree(
                    b1,
                    b0,
                    next,
                    *graph,
                    r,
                    (timestep - 1) as nat,
                );
                assert(b0.allowed(*self, *graph, next));
            }
            r
        }
    }
}

} // verus!
