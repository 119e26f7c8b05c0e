//! A population of entities coupled through shared edge occupancy. Each
//! round snapshots how many entities traverse the edges each congestion
//! rule monitors, inflates those edges' weights by the rule's multiplier,
//! and advances every entity one tick against the one adjusted graph.

use vstd::prelude::*;
use crate::behaviour::Behaviour;
use crate::entity::Entity;
use crate::entity_state::EntityState;
use crate::entity_state::state_chars;
use crate::entity_state::traversing_edge;
use crate::graph::Graph;

verus! {

/// One congestion rule: a set of edges sharing a congestion signal, and a
/// table of travel-time multipliers in percent, indexed by the number of
/// entities currently traversing any monitored edge. The table must cover
/// every occupancy that can occur: the population size is the upper bound.
pub struct ConnectedEdges {
    /// The monitored `(from, to)` edges.
    pub edges: Vec<(u32, u32)>,
    /// Multiplier, in percent, per occupancy count.
    pub relationship: Vec<u32>,
}

/// Whether a state traverses one of the monitored edges.
pub open spec fn on_monitored_edge(s: EntityState, edges: Seq<(u32, u32)>) -> bool {
    exists|k: int| 0 <= k < edges.len() && traversing_edge(s, (#[trigger] edges[k]).0, edges[k].1)
}

/// How many entities currently traverse a monitored edge.
pub open spec fn spec_occupancy<B: Behaviour>(es: Seq<Entity<B>>, edges: Seq<(u32, u32)>) -> int
    decreases es.len(),
{
    if es.len() == 0 {
        0
    } else {
        spec_occupancy(es.drop_last(), edges) + if on_monitored_edge(
            es.last().spec_state(),
            edges,
        ) {
            1int
        } else {
            0int
        }
    }
}

/// An occupancy count never exceeds the population.
pub proof fn lemma_occupancy_bound<B: Behaviour>(es: Seq<Entity<B>>, edges: Seq<(u32, u32)>)
    ensures
        0 <= spec_occupancy(es, edges) <= es.len(),
    decreases es.len(),
{
    if es.len() > 0 {
        lemma_occupancy_bound(es.drop_last(), edges);
    }
}

/// A base weight inflated by a multiplier of `m` percent: the product is
/// rounded up to the next whole travel-time unit and saturates at the
/// largest representable weight.
pub open spec fn scaled_weight(w: int, m: int) -> int {
    let scaled = (w * m + 99) / 100;
    if scaled > i32::MAX as int {
        i32::MAX as int
    } else {
        scaled
    }
}

/// One rule's effect on the weight of edge `f -> t`: each occurrence of the
/// edge in the rule's list applies the multiplier once, in list order. An
/// absent edge stays absent.
pub open spec fn rule_adjusted(
    w: Option<i32>,
    edges: Seq<(u32, u32)>,
    m: int,
    f: u32,
    t: u32,
) -> Option<i32>
    decreases edges.len(),
{
    if edges.len() == 0 {
        w
    } else {
        let w1 = rule_adjusted(w, edges.drop_last(), m, f, t);
        if edges.last() == (f, t) {
            match w1 {
                Some(v) => Some(scaled_weight(v as int, m) as i32),
                None => None,
            }
        } else {
            w1
        }
    }
}

/// All rules' effect on the weight of edge `f -> t`, applied in declaration
/// order, each multiplying the then-current weight; the occupancy snapshot
/// is taken over `es` before any adjustment.
pub open spec fn rules_adjusted<B: Behaviour>(
    w: Option<i32>,
    rules: Seq<ConnectedEdges>,
    es: Seq<Entity<B>>,
    f: u32,
    t: u32,
) -> Option<i32>
    decreases rules.len(),
{
    if rules.len() == 0 {
        w
    } else {
        let w1 = rules_adjusted(w, rules.drop_last(), es, f, t);
        let rule = rules.last();
        rule_adjusted(
            w1,
            rule.edges@,
            rule.relationship@[spec_occupancy(es, rule.edges@)] as int,
            f,
            t,
        )
    }
}

/// Whether `adj` is exactly the congestion-adjusted view of `base` for the
/// occupancy snapshot taken over `es`.
pub open spec fn is_adjusted_graph<B: Behaviour>(
    base: Graph,
    rules: Seq<ConnectedEdges>,
    es: Seq<Entity<B>>,
    adj: Graph,
) -> bool {
    &&& (forall|n: u32| adj.spec_contains(n) <==> base.spec_contains(n))
    &&& (forall|f: u32, t: u32|
        #[trigger] adj.spec_weight(f, t) == rules_adjusted(base.spec_weight(f, t), rules, es, f, t))
}

/// One round: every entity takes one allowed step against the same
/// adjusted graph, computed from the pre-round occupancy snapshot.
pub open spec fn round_rel<B: Behaviour>(
    g: Graph,
    rules: Seq<ConnectedEdges>,
    es1: Seq<Entity<B>>,
    es2: Seq<Entity<B>>,
) -> bool {
    &&& es2.len() == es1.len()
    &&& exists|adj: Graph|
        {
            &&& #[trigger] is_adjusted_graph(g, rules, es1, adj)
            &&& forall|j: int|
                0 <= j < es1.len() ==> (#[trigger] es1[j]).spec_behaviour().allowed(
                    es1[j].spec_state(),
                    adj,
                    es2[j].spec_state(),
                )
        }
}

/// `n` rounds in sequence.
pub open spec fn rounds_rel<B: Behaviour>(
    g: Graph,
    rules: Seq<ConnectedEdges>,
    es1: Seq<Entity<B>>,
    es2: Seq<Entity<B>>,
    n: nat,
) -> bool
    decreases n,
{
    if n == 0 {
        es2 == es1
    } else {
        exists|mid: Seq<Entity<B>>|
            round_rel(g, rules, es1, mid) && rounds_rel(g, rules, mid, es2, (n - 1) as nat)
    }
}

/// A run of rounds extends by one more round at its end.
proof fn lemma_rounds_rel_snoc<B: Behaviour>(
    g: Graph,
    rules: Seq<ConnectedEdges>,
    es1: Seq<Entity<B>>,
    es2: Seq<Entity<B>>,
    es3: Seq<Entity<B>>,
    n: nat,
)
    requires
        rounds_rel(g, rules, es1, es2, n),
        round_rel(g, rules, es2, es3),
    ensures
        rounds_rel(g, rules, es1, es3, (n + 1) as nat),
    decreases n,
{
    if n == 0 {
        assert(rounds_rel(g, rules, es3, es3, 0));
    } else {
        let mid = choose|mid: Seq<Entity<B>>|
            round_rel(g, rules, es1, mid) && rounds_rel(g, rules, mid, es2, (n - 1) as nat);
        lemma_rounds_rel_snoc(g, rules, mid, es2, es3, (n - 1) as nat);
    }
}

/// Adjustment by one rule keeps an edge's existence and its sign.
proof fn lemma_rule_adjusted_support(w: Option<i32>, edges: Seq<(u32, u32)>, m: int, f: u32, t: u32)
    requires
        m >= 0,
    ensures
        rule_adjusted(w, edges, m, f, t) is Some <==> w is Some,
        (w matches Some(v) && v >= 0) ==> rule_adjusted(w, edges, m, f, t).unwrap() >= 0,
    decreases edges.len(),
{
    if edges.len() > 0 {
        lemma_rule_adjusted_support(w, edges.drop_last(), m, f, t);
        if edges.last() == (f, t) && w is Some && w.unwrap() >= 0 {
            let v = rule_adjusted(w, edges.drop_last(), m, f, t).unwrap();
            vstd::arithmetic::mul::lemma_mul_nonnegative(v as int, m);
            vstd::arithmetic::div_mod::lemma_div_pos_is_pos(v as int * m + 99, 100);
        }
    }
}

/// Adjustment by any run of rules keeps an edge's existence and its sign.
proof fn lemma_rules_adjusted_support<B: Behaviour>(
    w: Option<i32>,
    rules: Seq<ConnectedEdges>,
    es: Seq<Entity<B>>,
    f: u32,
    t: u32,
)
    ensures
        rules_adjusted(w, rules, es, f, t) is Some <==> w is Some,
        (w matches Some(v) && v >= 0) ==> rules_adjusted(w, rules, es, f, t).unwrap() >= 0,
    decreases rules.len(),
{
    if rules.len() > 0 {
        lemma_rules_adjusted_support(w, rules.drop_last(), es, f, t);
        let rule = rules.last();
        lemma_rule_adjusted_support(
            rules_adjusted(w, rules.drop_last(), es, f, t),
            rule.edges@,
            rule.relationship@[spec_occupancy(es, rule.edges@)] as int,
            f,
            t,
        );
    }
}

/// One scaling step is monotone in both the weight and the multiplier.
proof fn lemma_scaled_weight_monotone(w1: int, w2: int, m1: int, m2: int)
    requires
        0 <= w1 <= w2,
        0 <= m1 <= m2,
    ensures
        scaled_weight(w1, m1) <= scaled_weight(w2, m2),
{
    vstd::arithmetic::mul::lemma_mul_inequality(w1, w2, m1);
    assert(w1 * m1 <= w2 * m1) by {
        vstd::arithmetic::mul::lemma_mul_is_commutative(w1, m1);
        vstd::arithmetic::mul::lemma_mul_is_commutative(w2, m1);
    }
    vstd::arithmetic::mul::lemma_mul_inequality(m1, m2, w2);
    assert(w2 * m1 <= w2 * m2) by {
        vstd::arithmetic::mul::lemma_mul_is_commutative(w2, m2);
    }
    vstd::arithmetic::div_mod::lemma_div_is_ordered(w1 * m1 + 99, w2 * m2 + 99, 100);
}

/// A whole rule's adjustment is monotone in the multiplier.
proof fn lemma_rule_adjusted_monotone(
    w: Option<i32>,
    edges: Seq<(u32, u32)>,
    m1: int,
    m2: int,
    f: u32,
    t: u32,
)
    requires
        0 <= m1 <= m2,
        w matches Some(v) ==> v >= 0,
    ensures
        w is Some ==> 0 <= rule_adjusted(w, edges, m1, f, t).unwrap() <= rule_adjusted(
            w,
            edges,
            m2,
            f,
            t,
        ).unwrap(),
    decreases edges.len(),
{
    lemma_rule_adjusted_support(w, edges, m1, f, t);
    lemma_rule_adjusted_support(w, edges, m2, f, t);
    if edges.len() > 0 && w is Some {
        lemma_rule_adjusted_monotone(w, edges.drop_last(), m1, m2, f, t);
        lemma_rule_adjusted_support(w, edges.drop_last(), m1, f, t);
        lemma_rule_adjusted_support(w, edges.drop_last(), m2, f, t);
        if edges.last() == (f, t) {
            let v1 = rule_adjusted(w, edges.drop_last(), m1, f, t).unwrap();
            let v2 = rule_adjusted(w, edges.drop_last(), m2, f, t).unwrap();
            lemma_scaled_weight_monotone(v1 as int, v2 as int, m1, m2);
        }
    }
}

/// Congestion monotonicity: under a rule whose relationship table never
/// decreases, raising the occupancy of the monitored edges never shrinks
/// any adjusted edge weight.
pub proof fn congestion_monotonic(
    w: Option<i32>,
    edges: Seq<(u32, u32)>,
    rel: Seq<u32>,
    o1: int,
    o2: int,
    f: u32,
    t: u32,
)
    requires
        w matches Some(v) ==> v >= 0,
        forall|a: int, b: int| 0 <= a <= b < rel.len() ==> rel[a] <= rel[b],
        0 <= o1 <= o2 < rel.len(),
    ensures
        w is Some ==> rule_adjusted(w, edges, rel[o1] as int, f, t).unwrap() <= rule_adjusted(
            w,
            edges,
            rel[o2] as int,
            f,
            t,
        ).unwrap(),
{
    lemma_rule_adjusted_monotone(w, edges, rel[o1] as int, rel[o2] as int, f, t);
}

/// Whether an entity's state traverses any of the given edges.
fn on_any_edge<B: Behaviour>(e: &Entity<B>, edges: &Vec<(u32, u32)>) -> (r: bool)
    ensures
        r == on_monitored_edge(e.spec_state(), edges@),
{
    let mut k: usize = 0;
    while k < edges.len()
        invariant
            k <= edges@.len(),
            forall|j: int|
                0 <= j < k ==> !traversing_edge(
                    e.spec_state(),
                    (#[trigger] edges@[j]).0,
                    edges@[j].1,
                ),
        decreases edges@.len() - k,
    {
        if e.is_traversing_path(edges[k].0, edges[k].1) {
            return true;
        }
        k = k + 1;
    }
    false
}

/// Counts the entities currently traversing any of the given edges.
fn count_occupancy<B: Behaviour>(entities: &Vec<Entity<B>>, edges: &Vec<(u32, u32)>) -> (c: usize)
    ensures
        c as int == spec_occupancy(entities@, edges@),
        c <= entities@.len(),
{
    let mut c: usize = 0;
    let mut i: usize = 0;
    while i < entities.len()
        invariant
            i <= entities@.len(),
            c <= i,
            c as int == spec_occupancy(entities@.subrange(0, i as int), edges@),
        decreases entities@.len() - i,
    {
        let hit = on_any_edge(&entities[i], edges);
        proof {
            assert(entities@.subrange(0, i + 1).drop_last() =~= entities@.subrange(0, i as int));
            assert(entities@.subrange(0, i + 1).last() == entities@[i as int]);
        }
        if hit {
            c = c + 1;
        }
        i = i + 1;
    }
    proof {
        assert(entities@.subrange(0, entities@.len() as int) =~= entities@);
    }
    c
}

/// The exact saturating-ceiling scaling of one non-negative weight.
fn scale_weight(w: i32, m: u32) -> (r: i32)
    requires
        w >= 0,
    ensures
        r as int == scaled_weight(w as int, m as int),
        r >= 0,
{
    proof {
        assert((w as u64) * (m as u64) <= (i32::MAX as u64) * (u32::MAX as u64))
            by (nonlinear_arith)
            requires
                0 <= w <= i32::MAX,
                0 <= m <= u32::MAX,
        ;
    }
    let prod: u64 = (w as u64) * (m as u64);
    let ceil: u64 = (prod + 99) / 100;
    if ceil > i32::MAX as u64 {
        i32::MAX
    } else {
        ceil as i32
    }
}

/// A population of entities, a base graph, and the congestion rules that
/// couple them. The base graph is never mutated: each round derives a
/// disposable adjusted view of it.
pub struct EntityCluster<B: Behaviour> {
    entities: Vec<Entity<B>>,
    graph: Graph,
    rules: Vec<ConnectedEdges>,
}

impl<B: Behaviour> EntityCluster<B> {
    /// The population, in order.
    pub closed spec fn spec_entities(self) -> Seq<Entity<B>> {
        self.entities@
    }

    /// The base graph.
    pub closed spec fn spec_graph(self) -> Graph {
        self.graph
    }

    /// The congestion rules, in declaration order.
    pub closed spec fn spec_rules(self) -> Seq<ConnectedEdges> {
        self.rules@
    }

    /// Every entity can step against the base graph, the base graph's
    /// weights are non-negative, and every rule's multiplier table covers
    /// every occupancy the population can produce.
    pub open spec fn wf(self) -> bool {
        &&& (forall|j: int|
            0 <= j < self.spec_entities().len() ==> (#[trigger] self.spec_entities()[j])
                .spec_behaviour().valid(self.spec_entities()[j].spec_state(), self.spec_graph()))
        &&& (forall|f: u32, t: u32|
            (#[trigger] self.spec_graph().spec_weight(f, t)) matches Some(w) ==> w >= 0)
        &&& (forall|k: int|
            0 <= k < self.spec_rules().len() ==> (#[trigger] self.spec_rules()[k]).relationship@.len()
                > self.spec_entities().len())
    }

    /// Assembles a cluster from a population, a base graph and congestion
    /// rules.
    pub fn new(entities: Vec<Entity<B>>, graph: Graph, rules: Vec<ConnectedEdges>) -> (c:
        EntityCluster<B>)
        requires
            forall|j: int|
                0 <= j < entities@.len() ==> (#[trigger] entities@[j]).spec_behaviour().valid(
                    entities@[j].spec_state(),
                    graph,
                ),
            forall|f: u32, t: u32|
                (#[trigger] graph.spec_weight(f, t)) matches Some(w) ==> w >= 0,
            forall|k: int|
                0 <= k < rules@.len() ==> (#[trigger] rules@[k]).relationship@.len()
                    > entities@.len(),
        ensures
            c.wf(),
            c.spec_entities() == entities@,
            c.spec_graph() == graph,
            c.spec_rules() == rules@,
    {
        EntityCluster { entities, graph, rules }
    }

    /// Builds this round's adjusted graph from the current occupancy
    /// snapshot.
    fn adjusted_graph(&self) -> (adj: Graph)
        requires
            self.wf(),
        ensures
            is_adjusted_graph(self.spec_graph(), self.spec_rules(), self.spec_entities(), adj),
            forall|f: u32, t: u32|
                (#[trigger] adj.spec_weight(f, t)) matches Some(w) ==> w >= 0,
    {
        let mut adjusted = self.graph.duplicate();
        let ghost base = self.graph;
        let ghost es = self.entities@;
        proof {
            assert forall|f: u32, t: u32|
                #[trigger] adjusted.spec_weight(f, t) == rules_adjusted(
                base.spec_weight(f, t),
                self.rules@.subrange(0, 0),
                es,
                f,
                t,
            ) by {
                assert(self.rules@.subrange(0, 0) =~= Seq::<ConnectedEdges>::empty());
            }
        }
        let mut ri: usize = 0;
        while ri < self.rules.len()
            invariant
                ri <= self.rules@.len(),
                self.wf(),
                base == self.spec_graph(),
                es == self.spec_entities(),
                forall|n: u32| adjusted.spec_contains(n) <==> base.spec_contains(n),
                forall|f: u32, t: u32|
                    #[trigger] adjusted.spec_weight(f, t) == rules_adjusted(
                        base.spec_weight(f, t),
                        self.rules@.subrange(0, ri as int),
                        es,
                        f,
                        t,
                    ),
                forall|f: u32, t: u32|
                    (#[trigger] adjusted.spec_weight(f, t)) matches Some(w) ==> w >= 0,
            decreases self.rules@.len() - ri,
        {
            let ghost rules_before = self.rules@.subrange(0, ri as int);
            let ghost w_before = adjusted;
            let rule = &self.rules[ri];
            let count = count_occupancy(&self.entities, &rule.edges);
            proof {
                assert(self.spec_rules()[ri as int].relationship@.len()
                    > self.spec_entities().len());
                lemma_occupancy_bound(self.entities@, rule.edges@);
            }
            let m = rule.relationship[count];
            let mut ei: usize = 0;
            while ei < rule.edges.len()
                invariant
                    ei <= rule.edges@.len(),
                    rule == self.rules@[ri as int],
                    ri < self.rules@.len(),
                    m == rule.relationship@[spec_occupancy(es, rule.edges@)],
                    forall|n: u32| adjusted.spec_contains(n) <==> w_before.spec_contains(n),
                    forall|f: u32, t: u32|
                        #[trigger] adjusted.spec_weight(f, t) == rule_adjusted(
                            w_before.spec_weight(f, t),
                            rule.edges@.subrange(0, ei as int),
                            m as int,
                            f,
                            t,
                        ),
                    forall|f: u32, t: u32|
                        (#[trigger] adjusted.spec_weight(f, t)) matches Some(w) ==> w >= 0,
                decreases rule.edges@.len() - ei,
            {
                let (ef, et) = rule.edges[ei];
                let ghost adj_prev = adjusted;
                match adjusted.weight_of(ef, et) {
                    Some(w) => {
                        let w2 = scale_weight(w, m);
                        let next = adjusted.add_edge(ef, et, Some(w2));
                        proof {
                            adj_prev.lemma_edge_source_contained(ef, et);
                        }
                        adjusted = next;
                    }
                    None => {}
                }
                proof {
                    assert(rule.edges@.subrange(0, ei + 1).drop_last() =~= rule.edges@.subrange(
                        0,
                        ei as int,
                    ));
                    assert(rule.edges@.subrange(0, ei + 1).last() == rule.edges@[ei as int]);
                    assert forall|f: u32, t: u32|
                        #[trigger] adjusted.spec_weight(f, t) == rule_adjusted(
                        w_before.spec_weight(f, t),
                        rule.edges@.subrange(0, ei + 1),
                        m as int,
                        f,
                        t,
                    ) by {
                        if f == rule.edges@[ei as int].0 && t == rule.edges@[ei as int].1 {
                        } else {
                            assert(adjusted.spec_weight(f, t) == adj_prev.spec_weight(f, t));
                        }
                    }
                }
                ei = ei + 1;
            }
            proof {
                assert(rule.edges@.subrange(0, rule.edges@.len() as int) =~= rule.edges@);
                assert(self.rules@.subrange(0, ri + 1).drop_last() =~= rules_before);
                assert(self.rules@.subrange(0, ri + 1).last() == self.rules@[ri as int]);
            }
            ri = ri + 1;
        }
        proof {
            assert(self.rules@.subrange(0, self.rules@.len() as int) =~= self.rules@);
        }
        adjusted
    }

    /// Advances the whole cluster by `timestep` rounds. Each round takes
    /// one occupancy snapshot, derives one adjusted graph, and moves every
    /// entity by one allowed step against it; the base graph and the rules
    /// never change.
    pub fn apply_timestep(&mut self, timestep: u32)
        requires
            old(self).wf(),
        ensures
            final(self).wf(),
            final(self).spec_graph() == old(self).spec_graph(),
            final(self).spec_rules() == old(self).spec_rules(),
            final(self).spec_entities().len() == old(self).spec_entities().len(),
            rounds_rel(
                old(self).spec_graph(),
                old(self).spec_rules(),
                old(self).spec_entities(),
                final(self).spec_entities(),
                timestep as nat,
            ),
    {
        let mut round: u32 = 0;
        proof {
            assert(rounds_rel(
                self.spec_graph(),
                self.spec_rules(),
                old(self).spec_entities(),
                self.spec_entities(),
                0,
            ));
        }
        while round < timestep
            invariant
                round <= timestep,
                self.wf(),
                self.spec_graph() == old(self).spec_graph(),
                self.spec_rules() == old(self).spec_rules(),
                self.spec_entities().len() == old(self).spec_entities().len(),
                rounds_rel(
                    old(self).spec_graph(),
                    old(self).spec_rules(),
                    old(self).spec_entities(),
                    self.spec_entities(),
                    round as nat,
                ),
            decreases timestep - round,
        {
            let ghost es_before = self.spec_entities();
            self.advance_one_round();
            proof {
                lemma_rounds_rel_snoc(
                    old(self).spec_graph(),
                    old(self).spec_rules(),
                    old(self).spec_entities(),
                    es_before,
                    self.spec_entities(),
                    round as nat,
                );
            }
            round = round + 1;
        }
    }

    /// One round: snapshot, adjust, advance all.
    fn advance_one_round(&mut self)
        requires
            old(self).wf(),
        ensures
            final(self).wf(),
            final(self).spec_graph() == old(self).spec_graph(),
            final(self).spec_rules() == old(self).spec_rules(),
            round_rel(
                old(self).spec_graph(),
                old(self).spec_rules(),
                old(self).spec_entities(),
                final(self).spec_entities(),
            ),
    {
        let adjusted = self.adjusted_graph();
        let ghost base = self.spec_graph();
        let ghost es0 = self.spec_entities();
        proof {
            assert forall|f: u32, t: u32| #[trigger] base.spec_edge(f, t) implies adjusted.spec_edge(
                f,
                t,
            ) by {
                lemma_rules_adjusted_support(
                    base.spec_weight(f, t),
                    self.spec_rules(),
                    es0,
                    f,
                    t,
                );
            }
            assert forall|f: u32, t: u32| #[trigger] adjusted.spec_edge(f, t) implies base.spec_edge(
                f,
                t,
            ) by {
                lemma_rules_adjusted_support(
                    base.spec_weight(f, t),
                    self.spec_rules(),
                    es0,
                    f,
                    t,
                );
            }
        }
        let n = self.entities.len();
        let mut j: usize = 0;
        while j < n
            invariant
                j <= n,
                n == es0.len(),
                self.spec_graph() == base,
                self.spec_rules() == old(self).spec_rules(),
                self.spec_entities().len() == n,
                old(self).wf(),
                es0 == old(self).spec_entities(),
                is_adjusted_graph(base, old(self).spec_rules(), es0, adjusted),
                forall|f: u32, t: u32|
                    (#[trigger] base.spec_weight(f, t)) matches Some(w) ==> w >= 0,
                forall|f: u32, t: u32|
                    (#[trigger] adjusted.spec_weight(f, t)) matches Some(w) ==> w >= 0,
                forall|f: u32, t: u32| #[trigger] base.spec_edge(f, t) ==> adjusted.spec_edge(f, t),
                forall|f: u32, t: u32| #[trigger] adjusted.spec_edge(f, t) ==> base.spec_edge(f, t),
                forall|k: int| j <= k < n ==> self.spec_entities()[k] == es0[k],
                forall|k: int|
                    0 <= k < j ==> (#[trigger] es0[k]).spec_behaviour().allowed(
                        es0[k].spec_state(),
                        adjusted,
                        self.spec_entities()[k].spec_state(),
                    ),
                forall|k: int|
                    0 <= k < n ==> (#[trigger] self.spec_entities()[k]).spec_behaviour().valid(
                        self.spec_entities()[k].spec_state(),
                        base,
                    ),
            decreases n - j,
        {
            proof {
                let e = self.spec_entities()[j as int];
                e.spec_behaviour().valid_same_support(e.spec_state(), base, adjusted);
            }
            let ghost e_before = self.spec_entities()[j as int];
            self.entities[j].apply_timestep(1, &adjusted);
            proof {
                let e_after = self.spec_entities()[j as int];
                assert(crate::behaviour::steps_allowed(
                    e_before.spec_behaviour(),
                    e_before.spec_state(),
                    adjusted,
                    e_after.spec_state(),
                    1nat,
                ));
                let mid = choose|mid: EntityState|
                    e_before.spec_behaviour().allowed(e_before.spec_state(), adjusted, mid)
                        && crate::behaviour::steps_allowed(
                        e_before.spec_behaviour(),
                        mid,
                        adjusted,
                        e_after.spec_state(),
                        0nat,
                    );
                assert(mid == e_after.spec_state());
                assert(e_before == es0[j as int]);
                e_after.spec_behaviour().valid_same_support(e_after.spec_state(), adjusted, base);
            }
            j = j + 1;
        }
        proof {
            assert(is_adjusted_graph(base, old(self).spec_rules(), es0, adjusted));
            assert(round_rel(base, old(self).spec_rules(), es0, self.spec_entities()));
        }
    }

    /// The whole population's states, in population order.
    pub fn entity_states(&self) -> (r: Vec<EntityState>)
        ensures
            r@.len() == self.spec_entities().len(),
            forall|j: int|
                0 <= j < r@.len() ==> r@[j] == (#[trigger] self.spec_entities()[j]).spec_state(),
    {
        let mut r: Vec<EntityState> = Vec::new();
        let mut j: usize = 0;
        while j < self.entities.len()
            invariant
                j <= self.spec_entities().len(),
                r@.len() == j,
                forall|k: int|
                    0 <= k < j ==> r@[k] == (#[trigger] self.spec_entities()[k]).spec_state(),
            decreases self.spec_entities().len() - j,
        {
            r.push(self.entities[j].state());
            j = j + 1;
        }
        r
    }

    /// The whole population's states, one line per entity, in population
    /// order.
    pub fn to_string(&self) -> (r: String)
        ensures
            r@ == cluster_chars(self.spec_entities()),
    {
        let mut out = String::new();
        let mut j: usize = 0;
        proof {
            assert(out@ =~= cluster_chars(self.spec_entities().subrange(0, 0)));
        }
        while j < self.entities.len()
            invariant
                j <= self.spec_entities().len(),
                out@ == cluster_chars(self.spec_entities().subrange(0, j as int)),
            decreases self.spec_entities().len() - j,
        {
            let line = self.entities[j].to_string();
            append_str(&mut out, line.as_str());
            append_newline(&mut out);
            proof {
                assert(self.spec_entities().subrange(0, j + 1).drop_last()
                    =~= self.spec_entities().subrange(0, j as int));
                assert(self.spec_entities().subrange(0, j + 1).last() == self.spec_entities()[
                    j as int
                ]);
            }
            j = j + 1;
        }
        proof {
            assert(self.spec_entities().subrange(0, self.spec_entities().len() as int)
                =~= self.spec_entities());
        }
        out
    }
}

/// The rendering of a whole population: each entity's state on its own
/// line.
pub open spec fn cluster_chars<B: Behaviour>(es: Seq<Entity<B>>) -> Seq<char>
    decreases es.len(),
{
    if es.len() == 0 {
        Seq::empty()
    } else {
        cluster_chars(es.drop_last()) + state_chars(es.last().spec_state()) + seq!['\n']
    }
}

/// Relies on std's `String::push_str`: appends `t` to the end of `s`.
#[verifier::external_body]
fn append_str(s: &mut String, t: &str)
    ensures
        final(s)@ == old(s)@ + t@,
{
    s.push_str(t)
}

/// Relies on std's `String::push`: appends one line break.
#[verifier::external_body]
fn append_newline(s: &mut String)
    ensures
        final(s)@ == old(s)@ + seq!['\n'],
{
    s.push('\n')
}

} // verus!
