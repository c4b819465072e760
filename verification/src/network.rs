//! Execution over several machines: an array is cut into tiles, which are sent to
//! workers and put together again.

pub mod layer;
pub mod ring;
pub mod tiles;
pub mod wire;

pub use crate::network::layer::{NetworkLayer, NodeAddr};
pub use crate::network::tiles::{decompose, Tile, TileResult, LOCAL_TILE_THRESHOLD};

use vstd::prelude::*;

verus! {

/// The port on which workers listen.
pub const DEFAULT_PORT: u16 = 7700;

/// How long to wait for a worker, in milliseconds.
pub const WORKER_TIMEOUT_MS: u64 = 5_000;

} // verus!
