//! Tree of Stars: the simulation rules of a hex-grid logistics game.
//!
//! Resources flow along links between nodes on a hexagonal grid; sinks pull
//! from sources, packets follow routes, reactors turn inputs into outputs.

use vstd::prelude::*;

pub mod area;
pub mod bits;
pub mod error;
pub mod game;
pub mod geom;
pub mod graph;
pub mod hex;
pub mod map;
pub mod mode;
pub mod network;
pub mod power;
pub mod pull;
pub mod reactor;
pub mod resource;
pub mod time;
pub mod util;
pub mod world;

verus! {

/// A game object, named as the entity store names it: its index in the low
/// 32 bits, the generation of that index above them.
pub type Entity = u64;

/// A point of game time, in nanoseconds since the world was made.
pub type Nanos = u64;

} // verus!
