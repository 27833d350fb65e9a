//! Board pieces: stones, coordinates, chains and the goban itself.

pub mod connections;
pub mod stones;
pub mod util;
pub mod chain;
pub mod zobrist;
pub mod geometry;
pub mod goban;
pub mod territory;
pub mod neighbors;
pub mod neighbor;

use vstd::prelude::*;

verus! {

/// A coordinate component.
pub type Nat = u8;
/// An index on the board (row-major).
pub type BoardIdx = usize;

} // verus!
