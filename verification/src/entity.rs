//! One simulated agent: a state plus an owned behaviour that decides its
//! transitions. Agents never read each other; all coupling flows through
//! the graph view a caller supplies.

use vstd::prelude::*;
use crate::behaviour::Behaviour;
use crate::behaviour::steps_allowed;
use crate::entity_state::EntityState;
use crate::entity_state::traversing_edge;
use crate::graph::Graph;

verus! {

pub struct Entity<B: Behaviour> {
    state: EntityState,
    behaviour: Box<B>,
}

impl<B: Behaviour> Entity<B> {
    /// The agent's current state.
    pub closed spec fn spec_state(self) -> EntityState {
        self.state
    }

    /// The agent's decision policy.
    pub closed spec fn spec_behaviour(self) -> B {
        *self.behaviour
    }

    /// Creates an agent in `state`, owning `behaviour`.
    pub fn new(state: EntityState, behaviour: B) -> (e: Entity<B>)
        ensures
            e.spec_state() == state,
            e.spec_behaviour() == behaviour,
    {
        Entity { state, behaviour: Box::new(behaviour) }
    }

    /// The current state rendered as space-separated decimal fields.
    pub fn to_string(&self) -> (r: String)
        ensures
            r@ == crate::entity_state::state_chars(self.spec_state()),
    {
        self.state.to_string()
    }

    /// Applies exactly `timestep` single-unit transitions against the given
    /// graph view. The behaviour may consume randomness; nothing else about
    /// it changes.
    pub fn apply_timestep(&mut self, timestep: u32, graph: &Graph)
        requires
            old(self).spec_behaviour().valid(old(self).spec_state(), *graph),
        ensures
            final(self).spec_behaviour().valid(final(self).spec_state(), *graph),
            steps_allowed(
                old(self).spec_behaviour(),
                old(self).spec_state(),
                *graph,
                final(self).spec_state(),
                timestep as nat,
            ),
            forall|s: EntityState, g: Graph, n: EntityState|
                #[trigger] final(self).spec_behaviour().allowed(s, g, n) == old(
                    self,
                ).spec_behaviour().allowed(s, g, n),
            forall|s: EntityState, g: Graph|
                #[trigger] final(self).spec_behaviour().valid(s, g) == old(
                    self,
                ).spec_behaviour().valid(s, g),
    {
        let state = self.state;
        let next = state.apply_timestep(timestep, &mut *self.behaviour, graph);
        self.state = next;
    }

    /// The current state, for display and inspection.
    pub fn state(&self) -> (r: EntityState)
        ensures
            r == self.spec_state(),
    {
        self.state
    }

    /// Whether the agent is currently traversing exactly the edge
    /// `from -> to`.
    pub fn is_traversing_path(&self, from: u32, to: u32) -> (r: bool)
        ensures
            r == traversing_edge(self.spec_state(), from, to),
    {
        match self.state {
            EntityState::Stationary(_, _) => false,
            EntityState::Traversing(from_current, to_current, _) => from == from_current && to
                == to_current,
        }
    }
}

} // verus!
