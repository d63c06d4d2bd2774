//! A tile-map animation engine: per-entity animation queues with run-time
//! time-compression, idle animations, a template registry built from tile
//! metadata, and layer draw-order bookkeeping.
//!
//! Time is injected by the caller as a monotonic instant in whole
//! milliseconds; positions and motion vectors are exact integer quantities,
//! so every sample the engine produces is deterministic.

use vstd::prelude::*;

pub mod animation;
pub mod animation_controller;
pub mod layer_order;
pub mod tileset;

verus! {

} // verus!
