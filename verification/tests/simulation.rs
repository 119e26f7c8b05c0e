use entity_sim::entity::Entity;
use entity_sim::entity_cluster::ConnectedEdges;
use entity_sim::entity_cluster::EntityCluster;
use entity_sim::entity_state::EntityState;
use entity_sim::graph::Graph;
use entity_sim::schedule::MarkovChain;
use entity_sim::schedule::Schedule;
use entity_sim::schedule::TransitionError;

const A: u32 = 0;
const B: u32 = 1;

fn two_node_graph() -> Graph {
    Graph::new(vec![A, B]).add_undirected_edge(A, B, Some(5))
}

fn two_node_schedule(seed: u64) -> Schedule {
    let chain = vec![(A, (vec![B], vec![1u32])), (B, (vec![A], vec![1u32]))];
    Schedule::new(MarkovChain::new(chain, seed), vec![(A, 90), (B, 60)])
}

#[test]
fn scenario_after_90_ticks_still_stationary() {
    let graph = two_node_graph();
    let mut entity = Entity::new(EntityState::Stationary(A, 0), two_node_schedule(7));
    entity.apply_timestep(90, &graph);
    assert_eq!(entity.state(), EntityState::Stationary(A, 90));
}

#[test]
fn scenario_after_91_ticks_departs() {
    let graph = two_node_graph();
    let mut entity = Entity::new(EntityState::Stationary(A, 0), two_node_schedule(7));
    entity.apply_timestep(91, &graph);
    assert_eq!(entity.state(), EntityState::Traversing(A, B, 0));
}

#[test]
fn scenario_after_96_ticks_mid_traversal() {
    let graph = two_node_graph();
    let mut entity = Entity::new(EntityState::Stationary(A, 0), two_node_schedule(7));
    entity.apply_timestep(96, &graph);
    assert_eq!(entity.state(), EntityState::Traversing(A, B, 5));
}

#[test]
fn scenario_after_97_ticks_arrives() {
    let graph = two_node_graph();
    let mut entity = Entity::new(EntityState::Stationary(A, 0), two_node_schedule(7));
    entity.apply_timestep(97, &graph);
    assert_eq!(entity.state(), EntityState::Stationary(B, 0));
}

#[test]
fn dwell_time_counts_one_per_tick() {
    let graph = two_node_graph();
    let mut entity = Entity::new(EntityState::Stationary(A, 0), two_node_schedule(3));
    for expected in 1..=90u32 {
        entity.apply_timestep(1, &graph);
        assert_eq!(entity.state(), EntityState::Stationary(A, expected));
    }
}

#[test]
fn traversal_arrives_exactly_at_duration() {
    let graph = two_node_graph();
    let mut entity = Entity::new(EntityState::Traversing(A, B, 4), two_node_schedule(3));
    entity.apply_timestep(1, &graph);
    assert_eq!(entity.state(), EntityState::Traversing(A, B, 5));
    entity.apply_timestep(1, &graph);
    assert_eq!(entity.state(), EntityState::Stationary(B, 0));
}

#[test]
fn markov_chain_empirical_frequencies() {
    let chain = vec![(A, (vec![10u32, 20, 30], vec![1u32, 2, 1]))];
    let mut mc = MarkovChain::new(chain, 99);
    let mut counts = [0u32; 3];
    let draws = 100_000;
    for _ in 0..draws {
        match mc.next_state(A) {
            Ok(10) => counts[0] += 1,
            Ok(20) => counts[1] += 1,
            Ok(30) => counts[2] += 1,
            other => panic!("unexpected draw {:?}", other),
        }
    }
    let freq = |c: u32| c as f64 / draws as f64;
    assert!((freq(counts[0]) - 0.25).abs() < 0.01);
    assert!((freq(counts[1]) - 0.50).abs() < 0.01);
    assert!((freq(counts[2]) - 0.25).abs() < 0.01);
}

#[test]
fn markov_chain_zero_weight_candidate_never_drawn() {
    let chain = vec![(A, (vec![5u32, 6, 7], vec![0u32, 7, 0]))];
    let mut mc = MarkovChain::new(chain, 1);
    for _ in 0..50 {
        assert_eq!(mc.next_state(A), Ok(6));
    }
}

#[test]
fn markov_chain_missing_state_fails() {
    let chain = vec![(A, (vec![B], vec![1u32]))];
    let mut mc = MarkovChain::new(chain, 1);
    assert_eq!(mc.next_state(B), Err(TransitionError::UnknownLocation));
}

#[test]
fn markov_chain_all_zero_weights_fail() {
    let chain = vec![(A, (vec![B, B], vec![0u32, 0]))];
    let mut mc = MarkovChain::new(chain, 1);
    assert_eq!(mc.next_state(A), Err(TransitionError::NoValidTransition));
}

#[test]
fn should_leave_decides_by_threshold() {
    let schedule = two_node_schedule(1);
    assert_eq!(schedule.should_leave(A, 89), Some(false));
    assert_eq!(schedule.should_leave(A, 90), Some(true));
    assert_eq!(schedule.should_leave(A, 91), Some(true));
    assert_eq!(schedule.should_leave(77, 0), None);
}

#[test]
fn fixed_seed_runs_are_identical() {
    let graph = two_node_graph();
    let chain = vec![
        (A, (vec![B, A], vec![1u32, 1])),
        (B, (vec![A, B], vec![2u32, 1])),
    ];
    let mut first: Vec<EntityState> = Vec::new();
    let mut second: Vec<EntityState> = Vec::new();
    for run in [&mut first, &mut second] {
        let mc = MarkovChain::new(chain.clone(), 42);
        let schedule = Schedule::new(mc, vec![(A, 2), (B, 3)]);
        let mut entity = Entity::new(EntityState::Stationary(A, 0), schedule);
        for _ in 0..200 {
            entity.apply_timestep(1, &graph);
            run.push(entity.state());
        }
    }
    assert_eq!(first, second);
}

#[test]
fn entity_reports_traversed_edge() {
    let entity = Entity::new(EntityState::Traversing(A, B, 2), two_node_schedule(1));
    assert!(entity.is_traversing_path(A, B));
    assert!(!entity.is_traversing_path(B, A));
    let parked = Entity::new(EntityState::Stationary(A, 0), two_node_schedule(1));
    assert!(!parked.is_traversing_path(A, B));
}

#[test]
fn state_rendering() {
    assert_eq!(EntityState::Stationary(3, 7).to_string(), "3 7");
    assert_eq!(EntityState::Traversing(1, 2, 3).to_string(), "1 2 3");
    let entity = Entity::new(EntityState::Stationary(12, 34), two_node_schedule(1));
    assert_eq!(entity.to_string(), "12 34");
}

#[test]
fn cluster_renders_one_line_per_entity() {
    let graph = two_node_graph();
    let entities = vec![
        Entity::new(EntityState::Stationary(A, 1), two_node_schedule(1)),
        Entity::new(EntityState::Traversing(A, B, 2), two_node_schedule(2)),
    ];
    let cluster = EntityCluster::new(entities, graph, vec![]);
    assert_eq!(cluster.to_string(), "0 1\n0 1 2\n");
}

#[test]
fn congestion_inflates_travel_time() {
    // One entity rides the monitored edge: occupancy 1 doubles the weight
    // from 5 to 10, so arrival needs 11 ticks instead of 6.
    let graph = two_node_graph();
    let rule = ConnectedEdges {
        edges: vec![(A, B), (B, A)],
        relationship: vec![100, 200, 200],
    };
    let entities = vec![Entity::new(
        EntityState::Traversing(A, B, 0),
        two_node_schedule(5),
    )];
    let mut congested = EntityCluster::new(entities, graph, vec![rule]);
    congested.apply_timestep(10);
    assert_eq!(congested.entity_states(), vec![EntityState::Traversing(A, B, 10)]);
    congested.apply_timestep(1);
    assert_eq!(congested.entity_states(), vec![EntityState::Stationary(B, 0)]);

    let free = vec![Entity::new(
        EntityState::Traversing(A, B, 0),
        two_node_schedule(5),
    )];
    let mut uncongested = EntityCluster::new(free, two_node_graph(), vec![]);
    uncongested.apply_timestep(6);
    assert_eq!(uncongested.entity_states(), vec![EntityState::Stationary(B, 0)]);
}

#[test]
fn congestion_multiplier_is_monotone_in_occupancy() {
    // Two populations on the same rule: the larger occupancy inflates the
    // monitored edge at least as much, so the lone extra rider in the
    // smaller population never arrives later than in the bigger one.
    let rule_table = vec![100u32, 150, 300, 300];
    let arrival_tick = |riders: usize| -> u32 {
        let entities: Vec<Entity<Schedule>> = (0..riders)
            .map(|i| Entity::new(EntityState::Traversing(A, B, 0), two_node_schedule(i as u64)))
            .collect();
        let rule = ConnectedEdges {
            edges: vec![(A, B)],
            relationship: rule_table.clone(),
        };
        let mut cluster = EntityCluster::new(entities, two_node_graph(), vec![rule]);
        let mut ticks = 0u32;
        loop {
            if let EntityState::Stationary(_, _) = cluster.entity_states()[0] {
                return ticks;
            }
            cluster.apply_timestep(1);
            ticks += 1;
            assert!(ticks < 100);
        }
    };
    // occupancy 1: ceil(5 * 150%) = 8; occupancy 2: ceil(5 * 300%) = 15.
    assert_eq!(arrival_tick(1), 9);
    assert_eq!(arrival_tick(2), 16);
}

#[test]
fn inert_rule_on_absent_edge_changes_nothing() {
    let rule = ConnectedEdges {
        edges: vec![(9, 8)],
        relationship: vec![900, 900],
    };
    let entities = vec![Entity::new(
        EntityState::Traversing(A, B, 0),
        two_node_schedule(5),
    )];
    let mut cluster = EntityCluster::new(entities, two_node_graph(), vec![rule]);
    cluster.apply_timestep(6);
    assert_eq!(cluster.entity_states(), vec![EntityState::Stationary(B, 0)]);
}

#[test]
fn overlapping_rules_stack_in_declaration_order() {
    // Two rules monitor the same edge. With one rider (occupancy 1) the
    // first doubles the weight and the second triples the doubled value:
    // 5 -> 10 -> 30, so arrival needs 31 ticks.
    let doubling = ConnectedEdges {
        edges: vec![(A, B)],
        relationship: vec![100, 200],
    };
    let tripling = ConnectedEdges {
        edges: vec![(A, B)],
        relationship: vec![100, 300],
    };
    let entities = vec![Entity::new(
        EntityState::Traversing(A, B, 0),
        two_node_schedule(5),
    )];
    let mut cluster = EntityCluster::new(entities, two_node_graph(), vec![doubling, tripling]);
    cluster.apply_timestep(30);
    assert_eq!(cluster.entity_states(), vec![EntityState::Traversing(A, B, 30)]);
    cluster.apply_timestep(1);
    assert_eq!(cluster.entity_states(), vec![EntityState::Stationary(B, 0)]);
}

#[test]
fn zero_dwell_threshold_departs_on_first_tick() {
    let graph = two_node_graph();
    let chain = vec![(A, (vec![B], vec![1u32])), (B, (vec![A], vec![1u32]))];
    let schedule = Schedule::new(MarkovChain::new(chain, 2), vec![(A, 0), (B, 0)]);
    let mut entity = Entity::new(EntityState::Stationary(A, 0), schedule);
    entity.apply_timestep(1, &graph);
    assert_eq!(entity.state(), EntityState::Traversing(A, B, 0));
}

#[test]
fn zero_ticks_change_nothing() {
    let graph = two_node_graph();
    let mut entity = Entity::new(EntityState::Stationary(A, 12), two_node_schedule(4));
    entity.apply_timestep(0, &graph);
    assert_eq!(entity.state(), EntityState::Stationary(A, 12));
}
