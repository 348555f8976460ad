//! The simulation core of a small 2D game: a uniform spatial hash for
//! broad-phase queries, shape overlap tests, weight-based collision
//! resolution and the per-tick integration step, a timed weapon state
//! machine, and the level logic around them (room lookup, map images,
//! corridor layouts, maze generation). All quantities are integers.
use vstd::prelude::*;

pub mod entities;
pub mod layout;
pub mod levels;
pub mod maze;
pub mod physics;
pub mod spatial_hashing;
pub mod weapon;

verus! {

} // verus!
