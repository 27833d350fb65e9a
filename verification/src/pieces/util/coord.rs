//! Coordinates on the goban: `(row, column)` pairs and their row-major board index.

use vstd::prelude::*;
use arrayvec::ArrayVec;
use crate::pieces::Nat;
use crate::pieces::BoardIdx;
use crate::pieces::connections::{coord4_items, coord4_new, coord4_push};

verus! {

/// A point as `(row, column)`.
pub type Coord = (Nat, Nat);
/// A goban size as `(height, width)`.
pub type Size = (u8, u8);

/// True when the coordinate lies on a goban of the given size.
pub open spec fn spec_coord_valid(size: Size, coord: Coord) -> bool {
    coord.0 < size.0 && coord.1 < size.1
}

/// The row-major index of a coordinate.
pub open spec fn spec_idx(size: Size, coord: Coord) -> int {
    coord.0 * size.1 + coord.1
}

/// Return true if the coord is in the goban.
pub fn is_coord_valid(size: Size, coord: Coord) -> (r: bool)
    ensures
        r == spec_coord_valid(size, coord),
{
    coord.0 < size.0 && coord.1 < size.1
}

/// The row-major index of `point`: `row * width + column`.
pub fn two_to_1dim(size: Size, point: Coord) -> (r: usize)
    ensures
        r == spec_idx(size, point),
{
    proof {
        assert(point.0 * size.1 <= 255 * 255) by (nonlinear_arith)
            requires
                point.0 <= 255,
                size.1 <= 255,
        ;
    }
    point.0 as usize * size.1 as usize + point.1 as usize
}

/// The coordinate of a row-major index: `(index / width, index % width)`, each
/// truncated to a byte.
pub fn one_to_2dim(size: Size, index: usize) -> (r: Coord)
    requires
        size.1 > 0,
    ensures
        r == ((index / size.1 as usize) as u8, (index % size.1 as usize) as u8),
{
    ((index / size.1 as usize) as u8, (index % size.1 as usize) as u8)
}

/// The four orthogonal neighbors: below, above, right, left (a coordinate at 0 wraps to
/// 255 for the one before it).
pub fn neighbor_coords(c: Coord) -> (r: [Coord; 4])
    requires
        c.0 < 255,
        c.1 < 255,
    ensures
        r@ == seq![
            ((c.0 + 1) as u8, c.1),
            (c.0.wrapping_sub(1), c.1),
            (c.0, (c.1 + 1) as u8),
            (c.0, c.1.wrapping_sub(1)),
        ],
{
    [(c.0 + 1, c.1), (c.0.wrapping_sub(1), c.1), (c.0, c.1 + 1), (c.0, c.1.wrapping_sub(1))]
}

/// The four diagonal neighbors (a coordinate at 0 wraps to 255 for the one before it).
pub fn corner_points(c: Coord) -> (r: [Coord; 4])
    requires
        c.0 < 255,
        c.1 < 255,
    ensures
        r@ == seq![
            ((c.0 + 1) as u8, (c.1 + 1) as u8),
            (c.0.wrapping_sub(1), c.1.wrapping_sub(1)),
            ((c.0 + 1) as u8, c.1.wrapping_sub(1)),
            (c.0.wrapping_sub(1), (c.1 + 1) as u8),
        ],
{
    [
        (c.0 + 1, c.1 + 1),
        (c.0.wrapping_sub(1), c.1.wrapping_sub(1)),
        (c.0 + 1, c.1.wrapping_sub(1)),
        (c.0.wrapping_sub(1), c.1 + 1),
    ]
}

/// The valid ones among the first `k` points of `cs`, in order.
pub open spec fn valid_only(size: Size, cs: Seq<Coord>, k: int) -> Seq<Coord>
    decreases k,
{
    if k <= 0 {
        Seq::empty()
    } else if spec_coord_valid(size, cs[k - 1]) {
        valid_only(size, cs, k - 1).push(cs[k - 1])
    } else {
        valid_only(size, cs, k - 1)
    }
}

/// The four orthogonal candidates of a point, as `neighbor_coords` lists them.
pub open spec fn neighbor_seq(c: Coord) -> Seq<Coord> {
    seq![((c.0 + 1) as u8, c.1), (c.0.wrapping_sub(1), c.1), (c.0, (c.1 + 1) as u8), (c.0, c.1.wrapping_sub(1))]
}

/// The orthogonal neighbors of a point that lie on the goban, in the order of
/// `neighbor_coords`.
pub fn valid_coords(c: Coord, size: Size) -> (r: ArrayVec<Coord, 4>)
    requires
        c.0 < 255,
        c.1 < 255,
    ensures
        coord4_items(r) == valid_only(size, neighbor_seq(c), 4),
{
    let cs = neighbor_coords(c);
    let mut res = coord4_new();
    let mut k: usize = 0;
    while k < 4
        invariant
            0 <= k <= 4,
            cs@ == neighbor_seq(c),
            coord4_items(res) == valid_only(size, neighbor_seq(c), k as int),
            coord4_items(res).len() <= k,
        decreases 4 - k,
    {
        if is_coord_valid(size, cs[k]) {
            coord4_push(&mut res, cs[k]);
        }
        k += 1;
    }
    res
}

/// Converts a point designation to a coordinate.
pub trait IntoCoord {
    /// The coordinate that the designation names on a goban of `size`.
    spec fn spec_into_coord(self, size: Size) -> Coord;

    fn into_coord(self, size: Size) -> (r: Coord)
        requires
            size.1 > 0,
        ensures
            r == self.spec_into_coord(size),
    ;
}

impl IntoCoord for Coord {
    open spec fn spec_into_coord(self, size: Size) -> Coord {
        self
    }

    fn into_coord(self, _size: Size) -> (r: Coord) {
        self
    }
}

impl IntoCoord for BoardIdx {
    open spec fn spec_into_coord(self, size: Size) -> Coord {
        ((self / size.1 as usize) as u8, (self % size.1 as usize) as u8)
    }

    fn into_coord(self, size: Size) -> (r: Coord) {
        one_to_2dim(size, self)
    }
}

/// Converts a point designation to a board index.
pub trait IntoIdx {
    /// The board index that the designation names on a goban of `size`.
    spec fn spec_into_idx(self, size: Size) -> int;

    fn into_idx(self, size: Size) -> (r: BoardIdx)
        ensures
            r == self.spec_into_idx(size),
    ;
}

impl IntoIdx for Coord {
    open spec fn spec_into_idx(self, size: Size) -> int {
        spec_idx(size, self)
    }

    fn into_idx(self, size: Size) -> (r: BoardIdx) {
        two_to_1dim(size, self)
    }
}

impl IntoIdx for BoardIdx {
    open spec fn spec_into_idx(self, size: Size) -> int {
        self as int
    }

    fn into_idx(self, _size: Size) -> (r: BoardIdx) {
        self
    }
}

} // verus!
