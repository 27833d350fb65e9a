//! Board index arithmetic: the index of a coordinate on a goban of `n_rows` by `n_cols`
//! and back, in the board's storage order.

use vstd::prelude::*;

verus! {

/// The usual sizes of a goban.
#[derive(Debug, Clone, Copy, PartialEq, Eq, Structural)]
pub enum SizeGoban {
    Nineteen,
    Nine,
}

impl SizeGoban {
    /// The number of lines of the size.
    pub fn lines(self) -> (r: usize)
        ensures
            r == (match self {
                SizeGoban::Nineteen => 19usize,
                SizeGoban::Nine => 9usize,
            }),
    {
        match self {
            SizeGoban::Nineteen => 19,
            SizeGoban::Nine => 9,
        }
    }
}

/// The storage order of a board.
#[derive(Debug, Clone, Copy, PartialEq, Eq, Structural)]
pub enum Order {
    RowMajor,
    ColumnMajor,
}

/// The storage order used here.
const ORDER: Order = Order::RowMajor;

/// Index arithmetic for a goban of `n_rows` by `n_cols`.
pub struct CoordUtil {
    n_rows: usize,
    n_cols: usize,
}

impl View for CoordUtil {
    type V = (usize, usize);

    closed spec fn view(&self) -> (usize, usize) {
        (self.n_rows, self.n_cols)
    }
}

/// The index of a coordinate in row-major order: the row times the number of columns,
/// plus the column (taken modulo the number of columns).
pub open spec fn index_of(dims: (usize, usize), coord: (usize, usize)) -> int {
    coord.0 * dims.1 + (coord.1 % dims.1) as int
}

/// The coordinate of an index in row-major order: the row is the index divided by the
/// number of columns, the column the index modulo the number of columns.
pub open spec fn coord_of_index(dims: (usize, usize), index: usize) -> (usize, usize) {
    ((index / dims.1) as usize, (index % dims.1) as usize)
}

impl CoordUtil {
    /// Index arithmetic for `n_rows` by `n_cols`.
    pub fn new(n_rows: usize, n_cols: usize) -> (r: CoordUtil)
        ensures
            r@ == (n_rows, n_cols),
    {
        CoordUtil { n_cols, n_rows }
    }

    /// The index of a coordinate.
    pub fn to(&self, coord: (usize, usize)) -> (r: usize)
        requires
            self@.1 > 0,
            index_of(self@, coord) <= usize::MAX,
        ensures
            r == index_of(self@, coord),
    {
        match ORDER {
            Order::ColumnMajor => {
                proof {
                    assert(false);
                }
                0
            },
            Order::RowMajor => {
                proof {
                    assert(coord.0 * self.n_cols <= index_of(self@, coord)) by (nonlinear_arith)
                        requires
                            index_of(self@, coord) == coord.0 * self.n_cols + (coord.1 % self.n_cols) as int,
                            self.n_cols > 0,
                    ;
                }
                coord.0 * self.n_cols + coord.1 % self.n_cols
            },
        }
    }

    /// The coordinate of an index.
    pub fn from(&self, index: usize) -> (r: (usize, usize))
        requires
            self@.1 > 0,
        ensures
            r == coord_of_index(self@, index),
    {
        match ORDER {
            Order::ColumnMajor => {
                proof {
                    assert(false);
                }
                (0, 0)
            },
            Order::RowMajor => (index / self.n_cols, index % self.n_cols),
        }
    }
}

/// The coordinate of a point's index is the point, on a goban of any shape.
pub proof fn lemma_index_round_trip(dims: (usize, usize), coord: (usize, usize))
    requires
        dims.1 > 0,
        coord.1 < dims.1,
        index_of(dims, coord) <= usize::MAX,
    ensures
        coord_of_index(dims, index_of(dims, coord) as usize) == coord,
{
    let n = dims.1 as int;
    assert(coord.1 % dims.1 == coord.1) by (nonlinear_arith)
        requires
            coord.1 < dims.1,
    ;
    let i = coord.0 * n + coord.1;
    assert(i / n == coord.0 && i % n == coord.1) by (nonlinear_arith)
        requires
            i == coord.0 * n + coord.1,
            0 <= coord.1 < n,
            0 <= coord.0,
    ;
}

/// On a goban of `dims.0` rows by `dims.1` columns, each point gets its own index, below
/// the number of points.
pub proof fn lemma_index_in_board(dims: (usize, usize), a: (usize, usize), b: (usize, usize))
    requires
        a.0 < dims.0,
        a.1 < dims.1,
        b.0 < dims.0,
        b.1 < dims.1,
    ensures
        0 <= index_of(dims, a) < dims.0 * dims.1,
        index_of(dims, a) == index_of(dims, b) ==> a == b,
{
    let n = dims.1 as int;
    assert(a.1 % dims.1 == a.1 && b.1 % dims.1 == b.1) by (nonlinear_arith)
        requires
            a.1 < dims.1,
            b.1 < dims.1,
    ;
    assert(0 <= a.0 * n + a.1 < dims.0 * n) by (nonlinear_arith)
        requires
            0 <= a.1 < n,
            0 <= a.0 < dims.0,
    ;
    let i = a.0 * n + a.1;
    let j = b.0 * n + b.1;
    assert(i / n == a.0 && i % n == a.1) by (nonlinear_arith)
        requires
            i == a.0 * n + a.1,
            0 <= a.1 < n,
            0 <= a.0,
    ;
    assert(j / n == b.0 && j % n == b.1) by (nonlinear_arith)
        requires
            j == b.0 * n + b.1,
            0 <= b.1 < n,
            0 <= b.0,
    ;
}

} // verus!
