//! Zobrist hashing: each (point, color) pair gets a pseudo-random 64-bit key drawn from a
//! `rand_xorshift::XorShiftRng` with a fixed seed, and a position hashes to the XOR of the
//! keys of its stones.

use vstd::prelude::*;
use rand::{RngCore, SeedableRng};
use rand_xorshift::XorShiftRng;
use crate::pieces::stones::Color;

verus! {

/// The fixed seed of the key generator.
pub const SEED: u64 = 172_147_124;

/// The first `count` outputs of `RngCore::next_u64` on a `rand_xorshift::XorShiftRng`
/// created by `SeedableRng::seed_from_u64(seed)`.
pub uninterp spec fn xorshift_stream(seed: u64, count: nat) -> Seq<u64>;

/// Creates `rand_xorshift::XorShiftRng` with `rand::SeedableRng::seed_from_u64(seed)` and
/// collects its first `count` outputs of `RngCore::next_u64`. The generator is
/// deterministic, so the result is a function of `seed` and `count` alone; it is named
/// `xorshift_stream`, and nothing more is claimed of the values.
#[verifier::external_body]
fn xorshift_outputs(seed: u64, count: usize) -> (r: Vec<u64>)
    ensures
        r@ == xorshift_stream(seed, count as nat),
        r@.len() == count,
{
    let mut rng = XorShiftRng::seed_from_u64(seed);
    (0..count).map(|_| rng.next_u64()).collect()
}

/// The key slot of a color: black first, then white.
pub open spec fn color_offset(color: Color) -> int {
    match color {
        Color::Black => 0,
        Color::White => 1,
    }
}

/// The key of a stone of `color` on board index `idx` (a 19x19 table).
pub open spec fn zobrist_key(idx: int, color: Color) -> u64 {
    xorshift_stream(SEED, 722)[2 * idx + color_offset(color)]
}

/// Table of Zobrist keys for an `n` x `n` board: two keys per point, drawn in order.
#[derive(Debug, Clone)]
pub struct ZobristTable {
    hashes: Vec<u64>,
    n: usize,
}

impl ZobristTable {
    /// The keys of the table.
    pub closed spec fn keys(&self) -> Seq<u64> {
        self.hashes@
    }

    /// The side of the board the table is for.
    pub closed spec fn side(&self) -> nat {
        self.n as nat
    }

    /// Draws the `2 * n * n` keys of an `n` x `n` board.
    pub fn new(n: usize) -> (r: Self)
        requires
            n <= 19,
        ensures
            r.keys() == xorshift_stream(SEED, (2 * n * n) as nat),
            r.keys().len() == 2 * n * n,
            r.side() == n,
    {
        proof {
            assert(2 * n * n <= 722) by (nonlinear_arith)
                requires
                    n <= 19,
            ;
        }
        let hashes = xorshift_outputs(SEED, 2 * n * n);
        ZobristTable { hashes, n }
    }

    /// The key of `color` at index `x`.
    pub fn index(&self, x: usize, color: Color) -> (r: u64)
        requires
            x < self.side() * self.side(),
            self.side() <= 19,
            self.keys().len() == 2 * self.side() * self.side(),
        ensures
            r == self.keys()[2 * x + color_offset(color)],
    {
        let off: usize = match color {
            Color::Black => 0,
            Color::White => 1,
        };
        proof {
            assert(2 * x + off < 2 * self.side() * self.side()) by (nonlinear_arith)
                requires
                    x < self.side() * self.side(),
                    off <= 1,
            ;
            assert(self.side() * self.side() <= 361) by (nonlinear_arith)
                requires
                    self.side() <= 19,
            ;
        }
        self.hashes[2 * x + off]
    }
}

/// The Zobrist key of a stone of `color` at board index `idx` (19x19 indexing).
pub fn index_zobrist(idx: usize, color: Color) -> (r: u64)
    requires
        idx < 361,
    ensures
        r == zobrist_key(idx as int, color),
{
    let table = ZobristTable::new(19);
    table.index(idx, color)
}

} // verus!
