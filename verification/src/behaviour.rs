//! The decision-policy contract an entity delegates its state transitions
//! to. A behaviour names, in specification, which states it can serve
//! (`valid`) and which outcomes one step may have (`allowed`); its one
//! operation takes a step, possibly consuming private randomness.

use vstd::prelude::*;
use crate::entity_state::EntityState;
use crate::graph::Graph;

verus! {

pub trait Behaviour: Sized {
    /// The states from which this behaviour can take a step against `g`.
    spec fn valid(&self, s: EntityState, g: Graph) -> bool;

    /// The outcomes one step from `s` against `g` may produce.
    spec fn allowed(&self, s: EntityState, g: Graph, next: EntityState) -> bool;

    /// An allowed step never leaves the valid states.
    proof fn valid_step(&self, s: EntityState, g: Graph, next: EntityState)
        requires
            self.valid(s, g),
            self.allowed(s, g, next),
        ensures
            self.valid(next, g),
    ;

    /// Validity carries over to any graph that keeps at least the same
    /// edges and whose weights are all non-negative.
    proof fn valid_same_support(&self, s: EntityState, g1: Graph, g2: Graph)
        requires
            self.valid(s, g1),
            forall|f: u32, t: u32| #[trigger] g1.spec_edge(f, t) ==> g2.spec_edge(f, t),
            forall|f: u32, t: u32|
                (#[trigger] g2.spec_weight(f, t)) matches Some(w) ==> w >= 0,
        ensures
            self.valid(s, g2),
    ;

    /// Takes one step. Only private state (such as a random stream) may
    /// change: what is valid and what is allowed stay as they were.
    fn next_state(&mut self, current_state: EntityState, graph: &Graph) -> (next: EntityState)
        requires
            old(self).valid(current_state, *graph),
        ensures
            old(self).allowed(current_state, *graph, next),
            forall|s: EntityState, g: Graph, n: EntityState|
                #[trigger] final(self).allowed(s, g, n) == old(self).allowed(s, g, n),
            forall|s: EntityState, g: Graph|
                #[trigger] final(self).valid(s, g) == old(self).valid(s, g),
    ;
}

/// `r` can be reached from `s` by exactly `n` allowed steps of `b`.
pub open spec fn steps_allowed<B: Behaviour>(
    b: B,
    s: EntityState,
    g: Graph,
    r: EntityState,
    n: nat,
) -> bool
    decreases n,
{
    if n == 0 {
        r == s
    } else {
        exists|mid: EntityState|
            b.allowed(s, g, mid) && steps_allowed(b, mid, g, r, (n - 1) as nat)
    }
}

/// Two behaviours that allow the same steps reach the same states.
pub proof fn lemma_steps_allowed_agree<B: Behaviour>(
    b1: B,
    b2: B,
    s: EntityState,
    g: Graph,
    r: EntityState,
    n: nat,
)
    requires
        steps_allowed(b1, s, g, r, n),
        forall|s2: EntityState, g2: Graph, n2: EntityState|
            #[trigger] b1.allowed(s2, g2, n2) == b2.allowed(s2, g2, n2),
    ensures
        steps_allowed(b2, s, g, r, n),
    decreases n,
{
    if n > 0 {
        let mid = choose|mid: EntityState|
            b1.allowed(s, g, mid) && steps_allowed(b1, mid, g, r, (n - 1) as nat);
        lemma_steps_allowed_agree(b1, b2, mid, g, r, (n - 1) as nat);
        assert(b2.allowed(s, g, mid));
    }
}

} // verus!
