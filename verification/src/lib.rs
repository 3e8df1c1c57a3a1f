//! Dispatch engine for a fleet of short-range delivery vehicles ("Zips")
//! stationed at a single launch site (the nest, at the origin).
//!
//! Orders arrive time-stamped and prioritized (emergency or resupply); once a
//! tick the engine decides which vehicles launch now, carrying which orders,
//! in what stop order, subject to a per-flight package cap and a round-trip
//! range cap. Emergencies are served first, oldest first; resupply orders are
//! batched into multi-stop routes by nearest-neighbor insertion.

pub mod geometry;
pub mod types;
pub mod store;
pub mod fleet;
pub mod planner;
pub mod engine;
