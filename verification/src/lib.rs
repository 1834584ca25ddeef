//! A conflict-aware path-scheduling engine for a multi-agent grid navigator.
//!
//! Agents move on a discrete rectangular grid with user-placed walls. The
//! engine plans a shortest path for every agent with an A* search, advances
//! the agents tick by tick, detects impending collisions between the agents'
//! projected paths, and reroutes conflicting agents around the collision
//! cell with a steering bias instead of re-planning everything from scratch.

pub mod grid;
pub mod movement;
pub mod pathfind;
pub mod agent;
pub mod stats;
pub mod collision;
pub mod reroute;
pub mod engine;
