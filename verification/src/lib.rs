//! A discrete-time simulation of mobile agents moving between the nodes of a
//! weighted graph. Each agent dwells at a location until a per-location
//! threshold is reached, then draws a destination from a weighted random
//! chain and traverses the connecting edge; a cluster couples many agents by
//! inflating edge weights according to current edge occupancy.

pub mod table;
pub mod graph;
pub mod entity_state;
pub mod behaviour;
pub mod rng;
pub mod schedule;
pub mod entity;
pub mod entity_cluster;
