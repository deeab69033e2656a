//! Incremental storage of timed player statistics: snapshots of every
//! player's stats, stored as full snapshots and chains of differences.
pub mod config;
pub mod cycle_free_path;
pub mod debugging_utils;
pub mod diff_points;
pub mod heuristics;
pub mod player_map;
pub mod repository;
pub mod snapshot;
pub mod statistics;
pub mod uuid;
