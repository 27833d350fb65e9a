//! A table of the board indices of the neighbors of each point of a square goban.

use vstd::prelude::*;
use crate::pieces::util::coord::{is_coord_valid, neighbor_coords, one_to_2dim, spec_coord_valid, spec_idx, two_to_1dim, Coord, Size};

verus! {

/// For each board index of an `n` by `n` goban, the board indices of its neighbors.
#[derive(Debug, Clone)]
pub struct NeighborTable {
    table: Vec<Vec<usize>>,
    n: usize,
}

impl View for NeighborTable {
    type V = (Seq<Seq<usize>>, usize);

    closed spec fn view(&self) -> (Seq<Seq<usize>>, usize) {
        (self.table@.map_values(|v: Vec<usize>| v@), self.n)
    }
}

/// The four orthogonal candidates of a point, as `neighbor_coords` lists them.
pub open spec fn candidates(c: Coord) -> Seq<Coord> {
    seq![((c.0 + 1) as u8, c.1), (c.0.wrapping_sub(1), c.1), (c.0, (c.1 + 1) as u8), (c.0, c.1.wrapping_sub(1))]
}

/// The board indices of those of the first `k` points of `cs` that lie on the goban.
pub open spec fn valid_indices(size: Size, cs: Seq<Coord>, k: int) -> Seq<usize>
    decreases k,
{
    if k <= 0 {
        Seq::empty()
    } else {
        let prev = valid_indices(size, cs, k - 1);
        if spec_coord_valid(size, cs[k - 1]) {
            prev.push(spec_idx(size, cs[k - 1]) as usize)
        } else {
            prev
        }
    }
}

/// The row of board index `i` in the table of an `n` by `n` goban.
pub open spec fn table_row(n: u8, i: int) -> Seq<usize> {
    valid_indices((n, n), candidates(((i / n as int) as u8, (i % n as int) as u8)), 4)
}

impl NeighborTable {
    /// The table of an `n` by `n` goban.
    pub fn new(n: usize) -> (r: Self)
        requires
            n <= 19,
        ensures
            r@.1 == n,
            r@.0.len() == n * n,
            forall|i: int| 0 <= i < n * n ==> #[trigger] r@.0[i] == table_row(n as u8, i),
    {
        let size: Size = (n as u8, n as u8);
        proof {
            assert(n * n <= 361) by (nonlinear_arith)
                requires
                    n <= 19,
            ;
        }
        let mut table: Vec<Vec<usize>> = Vec::new();
        let mut i: usize = 0;
        while i < n * n
            invariant
                n <= 19,
                n * n <= 361,
                size == (n as u8, n as u8),
                0 <= i <= n * n,
                table@.len() == i,
                forall|j: int| 0 <= j < i ==> #[trigger] table@[j]@ == table_row(n as u8, j),
            decreases n * n - i,
        {
            proof {
                assert(n > 0 && i / n < n && i % n < n) by (nonlinear_arith)
                    requires
                        i < n * n,
                ;
            }
            let c = one_to_2dim(size, i);
            let cs = neighbor_coords(c);
            let ghost cands = candidates(c);
            assert(cs@ == cands);
            let mut row: Vec<usize> = Vec::new();
            let mut k: usize = 0;
            while k < 4
                invariant
                    0 <= k <= 4,
                    cs@ == cands,
                    cs@.len() == 4,
                    size.0 <= 19,
                    size.1 <= 19,
                    row@ == valid_indices(size, cands, k as int),
                decreases 4 - k,
            {
                let p = cs[k];
                if is_coord_valid(size, p) {
                    row.push(two_to_1dim(size, p));
                }
                k += 1;
            }
            table.push(row);
            i += 1;
        }
        let r = NeighborTable { table, n };
        proof {
            assert forall|j: int| 0 <= j < n * n implies #[trigger] r@.0[j] == table_row(n as u8, j) by {
                assert(r@.0[j] == table@[j]@);
            }
        }
        r
    }

    /// The neighbors of a board index.
    pub fn get(&self, index: usize) -> (r: &Vec<usize>)
        requires
            index < self@.0.len(),
        ensures
            r@ == self@.0[index as int],
    {
        &self.table[index]
    }

    /// The neighbors of a point.
    pub fn get_point(&self, index: Coord) -> (r: &Vec<usize>)
        requires
            self@.1 <= 19,
            self@.0.len() == self@.1 * self@.1,
            spec_coord_valid((self@.1 as u8, self@.1 as u8), index),
        ensures
            r@ == self@.0[spec_idx((self@.1 as u8, self@.1 as u8), index)],
    {
        let size: Size = (self.n as u8, self.n as u8);
        let i = two_to_1dim(size, index);
        proof {
            assert(index.0 * size.1 + index.1 < size.0 * size.1) by (nonlinear_arith)
                requires
                    index.0 < size.0,
                    index.1 < size.1,
            ;
        }
        &self.table[i]
    }
}

} // verus!
