//! The schedule behaviour: a dwell-time policy (how long to stay at each
//! location) combined with a Markov chain (where to go next), driving the
//! per-entity state machine one tick at a time.

use vstd::prelude::*;
use crate::table::assoc_get;
use crate::table::assoc_has;
use crate::table::find_key;
use crate::table::lemma_assoc_get_first;
use crate::table::lemma_assoc_get_absent;
use crate::table::lemma_assoc_get_at_index;
use crate::rng::weight_total;
use crate::rng::weights_of;
use crate::rng::make_weighted;
use crate::rng::sample_index;
use crate::rng::seed_rng;
use crate::rng::lemma_weight_total_positive;
use crate::rng::lemma_weight_total_nonneg;
use crate::graph::Graph;
use crate::entity_state::EntityState;
use crate::behaviour::Behaviour;

verus! {

/// One row of a transition table: candidate destinations and their weights,
/// index-aligned.
pub type ChainRow = (Vec<u32>, Vec<u32>);

/// The table entries a chain is built over: `(state, (candidates, weights))`.
pub type ChainEntries = Seq<(u32, (Seq<u32>, Seq<u32>))>;

/// The view of a transition table.
pub open spec fn chain_view(c: Seq<(u32, ChainRow)>) -> ChainEntries {
    c.map_values(|p: (u32, ChainRow)| (p.0, (p.1.0@, p.1.1@)))
}

/// Indexing commutes with taking the view of a transition table.
proof fn lemma_chain_view_index(c: Seq<(u32, ChainRow)>)
    ensures
        chain_view(c).len() == c.len(),
        forall|j: int|
            0 <= j < c.len() ==> (#[trigger] chain_view(c)[j]).0 == c[j].0 && chain_view(
                c,
            )[j].1.0 == c[j].1.0@ && chain_view(c)[j].1.1 == c[j].1.1@,
{
}

/// Candidates listed for `l`; empty when `l` has no row.
pub open spec fn cands_of(entries: ChainEntries, l: u32) -> Seq<u32> {
    match assoc_get(entries, l) {
        Some(row) => row.0,
        None => Seq::empty(),
    }
}

/// Weights listed for `l`; empty when `l` has no row.
pub open spec fn chain_weights_of(entries: ChainEntries, l: u32) -> Seq<u32> {
    match assoc_get(entries, l) {
        Some(row) => row.1,
        None => Seq::empty(),
    }
}

/// Every row pairs candidates and weights index by index, and its weight
/// sum fits the weight type.
pub open spec fn chain_wf(entries: ChainEntries) -> bool {
    forall|j: int|
        0 <= j < entries.len() ==> {
            let row = (#[trigger] entries[j]).1;
            row.0.len() == row.1.len() && weight_total(row.1) <= u32::MAX as int
        }
}

/// A bound row obeys the well-formedness of the whole table.
pub proof fn lemma_chain_row_wf(entries: ChainEntries, l: u32)
    requires
        chain_wf(entries),
        assoc_has(entries, l),
    ensures
        cands_of(entries, l).len() == chain_weights_of(entries, l).len(),
        weight_total(chain_weights_of(entries, l)) <= u32::MAX as int,
{
    lemma_assoc_get_at_index(entries, l);
}

/// A failed transition draw, with its two causes kept apart: a state the
/// table does not cover at all, and a covered state whose weights leave
/// nothing to draw.
#[derive(Clone, Copy, PartialEq, Eq, Structural, Debug)]
pub enum TransitionError {
    /// No transition row covers the queried state.
    UnknownLocation,
    /// The state's row exists but its weights sum to zero.
    NoValidTransition,
}

/// A per-state weighted random sampler: each known state maps to candidate
/// successor states drawn proportionally to their weights. The random
/// stream is owned and private.
pub struct MarkovChain {
    chain: Vec<(u32, ChainRow)>,
    rand: rand::rngs::StdRng,
}

impl MarkovChain {
    /// The transition table as `(state, (candidates, weights))` entries.
    pub closed spec fn entries(self) -> ChainEntries {
        chain_view(self.chain@)
    }

    /// Every row of the table is well formed.
    pub open spec fn wf(self) -> bool {
        chain_wf(self.entries())
    }

    /// Creates a chain over the given table, drawing from a generator
    /// seeded with `seed`. Two agents built from the same configuration
    /// must receive distinct seeds, or their draws repeat each other.
    pub fn new(chain: Vec<(u32, ChainRow)>, seed: u64) -> (r: MarkovChain)
        requires
            forall|j: int|
                0 <= j < chain@.len() ==> {
                    let row = (#[trigger] chain@[j]).1;
                    row.0@.len() == row.1@.len() && weight_total(row.1@) <= u32::MAX as int
                },
        ensures
            r.entries() == chain_view(chain@),
            r.wf(),
    {
        let ghost cv = chain_view(chain@);
        let r = MarkovChain { chain, rand: seed_rng(seed) };
        proof {
            lemma_chain_view_index(r.chain@);
            assert(r.entries() == cv);
        }
        r
    }

    /// Draws a successor of `current_state`: a state without a row fails
    /// with `UnknownLocation`, a row whose weights sum to zero fails with
    /// `NoValidTransition`, and otherwise the draw returns one of the
    /// positively weighted candidates. Only the random stream changes.
    pub fn next_state(&mut self, current_state: u32) -> (r: Result<u32, TransitionError>)
        requires
            old(self).wf(),
        ensures
            final(self).wf(),
            final(self).entries() == old(self).entries(),
            r is Ok <==> (assoc_has(old(self).entries(), current_state) && weight_total(
                chain_weights_of(old(self).entries(), current_state),
            ) > 0),
            r == Err::<u32, TransitionError>(TransitionError::UnknownLocation) <==> !assoc_has(
                old(self).entries(),
                current_state,
            ),
            r == Err::<u32, TransitionError>(TransitionError::NoValidTransition) <==> (assoc_has(
                old(self).entries(),
                current_state,
            ) && weight_total(chain_weights_of(old(self).entries(), current_state)) == 0),
            r matches Ok(k) ==> exists|i: int|
                0 <= i < cands_of(old(self).entries(), current_state).len() && chain_weights_of(
                    old(self).entries(),
                    current_state,
                )[i] > 0 && k == cands_of(old(self).entries(), current_state)[i],
    {
        proof {
            lemma_chain_view_index(self.chain@);
        }
        match find_key(&self.chain, current_state) {
            Some(ix) => {
                proof {
                    lemma_assoc_get_first(self.entries(), current_state, ix as int);
                    lemma_chain_row_wf(self.entries(), current_state);
                    assert(self.chain@[ix as int].1.1@ == chain_weights_of(
                        self.entries(),
                        current_state,
                    ));
                }
                let dist_opt = make_weighted(&self.chain[ix].1.1);
                match dist_opt {
                    Some(dist) => {
                        let i = sample_index(&dist, &mut self.rand);
                        proof {
                            lemma_chain_view_index(self.chain@);
                            assert(weights_of(dist) == chain_weights_of(
                                old(self).entries(),
                                current_state,
                            ));
                            lemma_weight_total_positive(
                                chain_weights_of(old(self).entries(), current_state),
                                i as int,
                            );
                        }
                        let k = self.chain[ix].1.0[i];
                        proof {
                            assert(k == cands_of(old(self).entries(), current_state)[i as int]);
                        }
                        Ok(k)
                    }
                    None => {
                        proof {
                            lemma_weight_total_nonneg(
                                chain_weights_of(old(self).entries(), current_state),
                            );
                        }
                        Err(TransitionError::NoValidTransition)
                    }
                }
            }
            None => {
                proof {
                    lemma_assoc_get_absent(self.entries(), current_state);
                }
                Err(TransitionError::UnknownLocation)
            }
        }
    }
}

/// A location at which every departure decision is defined: it has a dwell
/// threshold and a transition row with a positive weight sum.
pub open spec fn loc_ready(entries: ChainEntries, dwell: Seq<(u32, u32)>, l: u32) -> bool {
    &&& assoc_has(dwell, l)
    &&& assoc_has(entries, l)
    &&& weight_total(chain_weights_of(entries, l)) > 0
}

/// Every positively weighted transition leads over an existing,
/// non-negatively weighted edge of `g` to a location that is itself ready.
pub open spec fn closure_ok(entries: ChainEntries, dwell: Seq<(u32, u32)>, g: Graph) -> bool {
    &&& chain_wf(entries)
    &&& (forall|l: u32, i: int|
        #![trigger cands_of(entries, l)[i]]
        (assoc_has(entries, l) && 0 <= i < chain_weights_of(entries, l).len()
            && chain_weights_of(entries, l)[i] > 0) ==> {
            let d = cands_of(entries, l)[i];
            &&& g.spec_weight(l, d) matches Some(w)
            &&& g.spec_weight(l, d).unwrap() >= 0
            &&& loc_ready(entries, dwell, d)
        })
}

/// The states the schedule can serve against `g`.
pub open spec fn sched_valid(
    entries: ChainEntries,
    dwell: Seq<(u32, u32)>,
    s: EntityState,
    g: Graph,
) -> bool {
    &&& closure_ok(entries, dwell, g)
    &&& match s {
        EntityState::Stationary(l, _t) => loc_ready(entries, dwell, l),
        EntityState::Traversing(f, t, _e) => {
            &&& g.spec_weight(f, t) matches Some(w)
            &&& g.spec_weight(f, t).unwrap() >= 0
            &&& loc_ready(entries, dwell, t)
        },
    }
}

/// The outcomes one schedule tick may produce: sit one tick longer, depart
/// towards a positively weighted candidate once the dwell threshold is
/// reached, ride one tick longer, or arrive once the elapsed time reaches
/// the edge weight. The reached comparisons come before the increment.
pub open spec fn sched_allowed(
    entries: ChainEntries,
    dwell: Seq<(u32, u32)>,
    s: EntityState,
    g: Graph,
    next: EntityState,
) -> bool {
    match s {
        EntityState::Stationary(l, t) => if t >= assoc_get(dwell, l).unwrap() {
            exists|i: int|
                0 <= i < cands_of(entries, l).len() && chain_weights_of(entries, l)[i] > 0
                    && next == EntityState::Traversing(l, cands_of(entries, l)[i], 0)
        } else {
            next == EntityState::Stationary(l, (t + 1) as u32)
        },
        EntityState::Traversing(f, to, e) => if e >= g.spec_weight(f, to).unwrap() {
            next == EntityState::Stationary(to, 0)
        } else {
            next == EntityState::Traversing(f, to, (e + 1) as u32)
        },
    }
}

/// Dwell monotonicity: starting stationary below the threshold, each of
/// `n` ticks raises the dwell time by exactly one, as long as the total
/// stays within the threshold; the departure comparison is evaluated
/// before the increment, so a dwell time equal to the threshold departs on
/// the next tick, not this one.
pub proof fn dwell_monotonicity(
    b: Schedule,
    l: u32,
    t0: u32,
    g: Graph,
    r: EntityState,
    n: nat,
)
    requires
        assoc_has(b.dwell(), l),
        t0 + n <= b.dwell_threshold(l),
        crate::behaviour::steps_allowed(b, EntityState::Stationary(l, t0), g, r, n),
    ensures
        r == EntityState::Stationary(l, (t0 + n) as u32),
    decreases n,
{
    if n > 0 {
        let mid = choose|mid: EntityState|
            b.allowed(EntityState::Stationary(l, t0), g, mid) && crate::behaviour::steps_allowed(
                b,
                mid,
                g,
                r,
                (n - 1) as nat,
            );
        assert(t0 < b.dwell_threshold(l));
        assert(mid == EntityState::Stationary(l, (t0 + 1) as u32));
        dwell_monotonicity(b, l, (t0 + 1) as u32, g, r, (n - 1) as nat);
    }
}

/// Dwell departure: the tick on which the dwell time has reached the
/// threshold leaves the location towards some positively weighted
/// candidate, with the traversal clock at zero.
pub proof fn dwell_departure(b: Schedule, l: u32, t: u32, g: Graph, next: EntityState)
    requires
        t >= b.dwell_threshold(l),
        b.allowed(EntityState::Stationary(l, t), g, next),
    ensures
        exists|d: u32| next == EntityState::Traversing(l, d, 0),
{
    let i = choose|i: int|
        0 <= i < cands_of(b.entries(), l).len() && chain_weights_of(b.entries(), l)[i] > 0 && next
            == EntityState::Traversing(l, cands_of(b.entries(), l)[i], 0);
    assert(next == EntityState::Traversing(l, cands_of(b.entries(), l)[i], 0));
}

/// Traversal boundary: with an edge of duration `dur`, the arrival happens
/// exactly on the tick where the elapsed time has reached `dur`, evaluated
/// before the increment; any earlier tick only advances the traversal
/// clock by one.
pub proof fn traversal_boundary(
    b: Schedule,
    f: u32,
    to: u32,
    e: u32,
    dur: i32,
    g: Graph,
    next: EntityState,
)
    requires
        g.spec_weight(f, to) == Some(dur),
        b.allowed(EntityState::Traversing(f, to, e), g, next),
    ensures
        e >= dur ==> next == EntityState::Stationary(to, 0),
        e < dur ==> next == EntityState::Traversing(f, to, (e + 1) as u32),
{
}

/// A behaviour combining a destination chain with per-location dwell
/// thresholds.
pub struct Schedule {
    next_location_decider: MarkovChain,
    when_to_leave_decider: Vec<(u32, u32)>,
}

impl Schedule {
    /// The owned destination chain.
    pub closed spec fn spec_chain(self) -> MarkovChain {
        self.next_location_decider
    }

    /// The transition table of the owned chain.
    pub open spec fn entries(self) -> ChainEntries {
        self.spec_chain().entries()
    }

    /// The dwell table as `(location, threshold)` pairs.
    pub closed spec fn dwell(self) -> Seq<(u32, u32)> {
        self.when_to_leave_decider@
    }

    /// The dwell threshold registered for `l`.
    pub open spec fn dwell_threshold(self, l: u32) -> u32 {
        assoc_get(self.dwell(), l).unwrap()
    }

    /// Combines a destination chain with a dwell table.
    pub fn new(next_location_decider: MarkovChain, when_to_leave_decider: Vec<(u32, u32)>) -> (r:
        Schedule)
        ensures
            r.spec_chain() == next_location_decider,
            r.dwell() == when_to_leave_decider@,
    {
        Schedule { next_location_decider, when_to_leave_decider }
    }

    /// Whether an agent that has sat at `location` for `time_spent` ticks
    /// departs now: `None` exactly when no dwell policy covers the
    /// location. Departure is decided by `time_spent` having reached the
    /// threshold.
    pub fn should_leave(&self, location: u32, time_spent: u32) -> (r: Option<bool>)
        ensures
            r is Some <==> assoc_has(self.dwell(), location),
            r matches Some(b) ==> b == (time_spent >= self.dwell_threshold(location)),
    {
        match find_key(&self.when_to_leave_decider, location) {
            Some(i) => {
                proof {
                    lemma_assoc_get_first(self.dwell(), location, i as int);
                }
                Some(time_spent >= self.when_to_leave_decider[i].1)
            }
            None => {
                proof {
                    lemma_assoc_get_absent(self.dwell(), location);
                }
                None
            }
        }
    }
}

impl Behaviour for Schedule {
    open spec fn valid(&self, s: EntityState, g: Graph) -> bool {
        sched_valid(self.entries(), self.dwell(), s, g)
    }

    open spec fn allowed(&self, s: EntityState, g: Graph, next: EntityState) -> bool {
        sched_allowed(self.entries(), self.dwell(), s, g, next)
    }

    proof fn valid_step(&self, s: EntityState, g: Graph, next: EntityState) {
        let entries = self.entries();
        let dwell = self.dwell();
        match s {
            EntityState::Stationary(l, t) => {
                if t >= assoc_get(dwell, l).unwrap() {
                    let i = choose|i: int|
                        0 <= i < cands_of(entries, l).len() && chain_weights_of(entries, l)[i] > 0
                            && next == EntityState::Traversing(l, cands_of(entries, l)[i], 0);
                    lemma_chain_row_wf(entries, l);
                    assert(loc_ready(entries, dwell, cands_of(entries, l)[i]));
                }
            }
            EntityState::Traversing(_f, _to, _e) => {}
        }
    }

    proof fn valid_same_support(&self, s: EntityState, g1: Graph, g2: Graph) {
        let entries = self.entries();
        let dwell = self.dwell();
        assert forall|l: u32, i: int|
            (assoc_has(entries, l) && 0 <= i < chain_weights_of(entries, l).len()
                && chain_weights_of(entries, l)[i] > 0) implies {
            let d = #[trigger] cands_of(entries, l)[i];
            &&& g2.spec_weight(l, d) matches Some(w)
            &&& g2.spec_weight(l, d).unwrap() >= 0
            &&& loc_ready(entries, dwell, d)
        } by {
            let d = cands_of(entries, l)[i];
            assert(g1.spec_edge(l, d));
            assert(g2.spec_edge(l, d));
        }
        match s {
            EntityState::Stationary(_l, _t) => {}
            EntityState::Traversing(f, t, _e) => {
                assert(g1.spec_edge(f, t));
                assert(g2.spec_edge(f, t));
            }
        }
    }

    /// One tick of the schedule: a stationary agent sits until its dwell
    /// time reaches the location's threshold, then departs towards a drawn
    /// destination; a traversing agent rides until its elapsed time reaches
    /// the edge's weight in the given graph, then arrives.
    fn next_state(&mut self, current_state: EntityState, graph: &Graph) -> (next: EntityState) {
        match current_state {
            EntityState::Stationary(location, time_spent) => {
                let should = match self.should_leave(location, time_spent) {
                    Some(b) => b,
                    None => {
                        proof {
                            assert(false);
                        }
                        false
                    }
                };
                if should {
                    let next_location = match self.next_location_decider.next_state(location) {
                        Ok(nl) => nl,
                        Err(_) => {
                            proof {
                                assert(false);
                            }
                            0
                        }
                    };
                    EntityState::Traversing(location, next_location, 0)
                } else {
                    EntityState::Stationary(location, time_spent + 1)
                }
            }
            EntityState::Traversing(from, to, time_spent) => {
                let weight = match graph.weight_of(from, to) {
                    Some(w) => w,
                    None => {
                        proof {
                            assert(false);
                        }
                        0
                    }
                };
                proof {
                    assert(weight >= 0);
                }
                let traversal_time = weight as u32;
                if time_spent >= traversal_time {
                    EntityState::Stationary(to, 0)
                } else {
                    EntityState::Traversing(from, to, time_spent + 1)
                }
            }
        }
    }
}

} // verus!
