//! The neighborhood of board indices: the four orthogonal neighbors of a point, in the
//! order `(row + 1)`, `(row - 1)`, `(column + 1)`, `(column - 1)`.

use vstd::prelude::*;
use vstd::arithmetic::div_mod::{lemma_fundamental_div_mod, lemma_fundamental_div_mod_converse};
use vstd::arithmetic::mul::lemma_mul_inequality;
use arrayvec::ArrayVec;
use crate::pieces::util::coord::Size;
use crate::pieces::connections::{idx4_items, idx4_new, idx4_push};

verus! {

/// Number of points of a goban of the given size.
pub open spec fn area(size: Size) -> int {
    size.0 * size.1
}

/// True when the neighbor of index `i` in direction `d` lies on the goban.
pub open spec fn nb_valid(size: Size, i: int, d: int) -> bool {
    let w = size.1 as int;
    let h = size.0 as int;
    &&& 0 <= i < area(size)
    &&& w > 0
    &&& if d == 0 {
        i / w + 1 < h
    } else if d == 1 {
        i / w >= 1
    } else if d == 2 {
        i % w + 1 < w
    } else if d == 3 {
        i % w >= 1
    } else {
        false
    }
}

/// The index of the neighbor of `i` in direction `d`.
pub open spec fn nb(size: Size, i: int, d: int) -> int {
    let w = size.1 as int;
    if d == 0 {
        i + w
    } else if d == 1 {
        i - w
    } else if d == 2 {
        i + 1
    } else {
        i - 1
    }
}

/// The opposite direction.
pub open spec fn opp(d: int) -> int {
    if d == 0 {
        1
    } else if d == 1 {
        0
    } else if d == 2 {
        3
    } else {
        2
    }
}

/// True when `i` and `j` are orthogonal neighbors on the goban.
pub open spec fn adjacent(size: Size, i: int, j: int) -> bool {
    exists|d: int| 0 <= d < 4 && nb_valid(size, i, d) && #[trigger] nb(size, i, d) == j
}

/// The valid neighbors of `i` among the first `n` directions, in direction order.
pub open spec fn nb_prefix(size: Size, i: int, n: int) -> Seq<usize>
    decreases n,
{
    if n <= 0 {
        Seq::empty()
    } else {
        let p = nb_prefix(size, i, n - 1);
        if nb_valid(size, i, n - 1) {
            p.push(nb(size, i, n - 1) as usize)
        } else {
            p
        }
    }
}

/// The valid neighbors of `i`, in direction order.
pub open spec fn nb_list(size: Size, i: int) -> Seq<usize> {
    nb_prefix(size, i, 4)
}

/// A board of at most 19x19 has at most 361 points.
pub proof fn lemma_area(size: Size)
    requires
        size.0 <= 19,
        size.1 <= 19,
    ensures
        0 <= area(size) <= 361,
{
    assert(0 <= size.0 * size.1 <= 361) by (nonlinear_arith)
        requires
            size.0 <= 19,
            size.1 <= 19,
    ;
}

/// A neighbor lies on the goban, and stepping back from it returns to the start.
pub proof fn lemma_nb(size: Size, i: int, d: int)
    requires
        0 <= d < 4,
        nb_valid(size, i, d),
    ensures
        0 <= nb(size, i, d) < area(size),
        nb(size, i, d) < 65536,
        nb_valid(size, nb(size, i, d), opp(d)),
        nb(size, nb(size, i, d), opp(d)) == i,
        nb(size, i, d) != i,
{
    let w = size.1 as int;
    let h = size.0 as int;
    assert(h * w <= 255 * 255) by (nonlinear_arith)
        requires
            0 <= h <= 255,
            0 <= w <= 255,
    ;
    lemma_fundamental_div_mod(i, w);
    let q = i / w;
    let r = i % w;
    assert(0 <= r < w);
    assert(i == w * q + r);
    assert(q * w == w * q) by (nonlinear_arith);
    assert(q >= 0) by (nonlinear_arith)
        requires
            i >= 0,
            w > 0,
            i == w * q + r,
            r < w,
    ;
    assert(q < h) by (nonlinear_arith)
        requires
            i < h * w,
            w > 0,
            i == w * q + r,
            r >= 0,
    ;
    let j = nb(size, i, d);
    if d == 0 {
        assert(j == (q + 1) * w + r) by (nonlinear_arith)
            requires
                j == i + w,
                i == w * q + r,
        ;
        lemma_fundamental_div_mod_converse(j, w, q + 1, r);
        lemma_mul_inequality(q + 2, h, w);
        assert(j < h * w) by (nonlinear_arith)
            requires
                j == (q + 1) * w + r,
                (q + 2) * w <= h * w,
                r < w,
        ;
    } else if d == 1 {
        assert(j == (q - 1) * w + r) by (nonlinear_arith)
            requires
                j == i - w,
                i == w * q + r,
        ;
        lemma_fundamental_div_mod_converse(j, w, q - 1, r);
        assert(j >= 0) by (nonlinear_arith)
            requires
                j == (q - 1) * w + r,
                q >= 1,
                r >= 0,
                w > 0,
        ;
    } else if d == 2 {
        assert(j == q * w + (r + 1));
        lemma_fundamental_div_mod_converse(j, w, q, r + 1);
        lemma_mul_inequality(q + 1, h, w);
        assert(j < h * w) by (nonlinear_arith)
            requires
                j == q * w + (r + 1),
                (q + 1) * w <= h * w,
                r + 1 < w,
        ;
    } else {
        assert(j == q * w + (r - 1));
        lemma_fundamental_div_mod_converse(j, w, q, r - 1);
    }
}

/// Adjacency is symmetric.
pub proof fn lemma_adjacent_sym(size: Size, i: int, j: int)
    requires
        adjacent(size, i, j),
    ensures
        adjacent(size, j, i),
{
    let d = choose|d: int| 0 <= d < 4 && nb_valid(size, i, d) && #[trigger] nb(size, i, d) == j;
    lemma_nb(size, i, d);
    assert(nb(size, j, opp(d)) == i);
}

/// Two different valid directions lead to two different neighbors.
pub proof fn lemma_nb_distinct(size: Size, i: int, a: int, b: int)
    requires
        0 <= a < 4,
        0 <= b < 4,
        a != b,
        nb_valid(size, i, a),
        nb_valid(size, i, b),
    ensures
        nb(size, i, a) != nb(size, i, b),
{
    let w = size.1 as int;
    lemma_fundamental_div_mod(i, w);
    if (a == 2 || a == 3 || b == 2 || b == 3) {
        assert(w >= 2);
    }
}

/// True when `j` is the neighbor of `i` in one of the first `n` directions.
pub open spec fn nb_from(size: Size, i: int, n: int, j: int) -> bool {
    exists|d: int| 0 <= d < n && nb_valid(size, i, d) && #[trigger] nb(size, i, d) == j
}

proof fn lemma_nb_prefix(size: Size, i: int, n: int)
    requires
        0 <= n <= 4,
        0 <= i < area(size),
    ensures
        forall|k: int| 0 <= k < nb_prefix(size, i, n).len() ==> nb_from(size, i, n, #[trigger] nb_prefix(size, i, n)[k] as int),
        forall|d: int| 0 <= d < n && nb_valid(size, i, d) ==> nb_prefix(size, i, n).contains(#[trigger] nb(size, i, d) as usize),
        nb_prefix(size, i, n).no_duplicates(),
        nb_prefix(size, i, n).len() <= n,
    decreases n,
{
    if n > 0 {
        lemma_nb_prefix(size, i, n - 1);
        let p = nb_prefix(size, i, n - 1);
        let l = nb_prefix(size, i, n);
        if nb_valid(size, i, n - 1) {
            lemma_nb(size, i, n - 1);
            assert(l == p.push(nb(size, i, n - 1) as usize));
            assert forall|k: int| 0 <= k < l.len() implies nb_from(size, i, n, #[trigger] l[k] as int) by {
                if k < p.len() {
                    assert(l[k] == p[k]);
                    assert(nb_from(size, i, n - 1, p[k] as int));
                    let d = choose|d: int| 0 <= d < n - 1 && nb_valid(size, i, d) && #[trigger] nb(size, i, d) == p[k] as int;
                    assert(nb(size, i, d) == l[k] as int);
                } else {
                    assert(nb(size, i, n - 1) == l[k] as int);
                }
            }
            assert forall|d: int| 0 <= d < n && nb_valid(size, i, d) implies l.contains(#[trigger] nb(size, i, d) as usize) by {
                if d < n - 1 {
                    let k = choose|k: int| 0 <= k < p.len() && p[k] == nb(size, i, d) as usize;
                    assert(l[k] == p[k]);
                } else {
                    assert(l[p.len() as int] == nb(size, i, d) as usize);
                }
            }
            assert forall|a: int, b: int| 0 <= a < b < l.len() implies l[a] != l[b] by {
                if b == p.len() {
                    assert(nb_from(size, i, n - 1, p[a] as int));
                    let da = choose|d: int| 0 <= d < n - 1 && nb_valid(size, i, d) && #[trigger] nb(size, i, d) == p[a] as int;
                    lemma_nb(size, i, da);
                    lemma_nb_distinct(size, i, da, n - 1);
                    assert(l[a] == p[a]);
                    assert(l[b] == nb(size, i, n - 1) as usize);
                } else {
                    assert(l[a] == p[a] && l[b] == p[b]);
                }
            }
        } else {
            assert(l == p);
            assert forall|k: int| 0 <= k < l.len() implies nb_from(size, i, n, #[trigger] l[k] as int) by {
                assert(nb_from(size, i, n - 1, p[k] as int));
                let d = choose|d: int| 0 <= d < n - 1 && nb_valid(size, i, d) && #[trigger] nb(size, i, d) == p[k] as int;
                assert(nb(size, i, d) == l[k] as int);
            }
        }
    }
}

/// The list of neighbors holds exactly the adjacent points, each once.
pub proof fn lemma_nb_list(size: Size, i: int)
    requires
        0 <= i < area(size),
    ensures
        forall|k: int| 0 <= k < nb_list(size, i).len() ==> adjacent(size, i, #[trigger] nb_list(size, i)[k] as int),
        forall|k: int| 0 <= k < nb_list(size, i).len() ==> 0 <= #[trigger] nb_list(size, i)[k] < area(size),
        forall|j: int| adjacent(size, i, j) ==> nb_list(size, i).contains(j as usize),
        nb_list(size, i).no_duplicates(),
        nb_list(size, i).len() <= 4,
{
    lemma_nb_prefix(size, i, 4);
    let l = nb_list(size, i);
    assert forall|k: int| 0 <= k < l.len() implies adjacent(size, i, #[trigger] l[k] as int) && 0 <= l[k] < area(size) by {
        assert(nb_from(size, i, 4, l[k] as int));
        let d = choose|d: int| 0 <= d < 4 && nb_valid(size, i, d) && #[trigger] nb(size, i, d) == l[k] as int;
        lemma_nb(size, i, d);
        assert(nb(size, i, d) == l[k] as int);
    }
    assert forall|j: int| adjacent(size, i, j) implies l.contains(j as usize) by {
        let d = choose|d: int| 0 <= d < 4 && nb_valid(size, i, d) && #[trigger] nb(size, i, d) == j;
        assert(l.contains(nb(size, i, d) as usize));
    }
}

/// The valid neighbors of board index `i`, in direction order.
pub fn neighbors_idx(size: Size, i: usize) -> (r: ArrayVec<usize, 4>)
    requires
        i < area(size),
        size.0 <= 19,
        size.1 <= 19,
    ensures
        idx4_items(r) == nb_list(size, i as int),
{
    proof {
        lemma_area(size);
    }
    let w = size.1 as usize;
    let h = size.0 as usize;
    proof {
        assert(w > 0) by (nonlinear_arith)
            requires
                0 <= i < h * w,
                h >= 0,
        ;
        lemma_fundamental_div_mod(i as int, w as int);
    }
    let row = i / w;
    let col = i % w;
    proof {
        assert(row >= 1 ==> i >= w) by (nonlinear_arith)
            requires
                i == w * row + col,
                col >= 0,
                w > 0,
        ;
        assert(i + w < 1000) by (nonlinear_arith)
            requires
                i < h * w,
                h <= 19,
                w <= 19,
        ;
        reveal_with_fuel(nb_prefix, 5);
    }
    let mut r = idx4_new();
    if row + 1 < h {
        idx4_push(&mut r, i + w);
    }
    assert(idx4_items(r) == nb_prefix(size, i as int, 1));
    if row >= 1 {
        idx4_push(&mut r, i - w);
    }
    assert(idx4_items(r) == nb_prefix(size, i as int, 2));
    if col + 1 < w {
        idx4_push(&mut r, i + 1);
    }
    assert(idx4_items(r) == nb_prefix(size, i as int, 3));
    if col >= 1 {
        idx4_push(&mut r, i - 1);
    }
    r
}

} // verus!

verus! {

/// A valid coordinate has an index on the board, from which it can be read back.
pub proof fn lemma_idx(size: crate::pieces::util::coord::Size, x: int, y: int)
    requires
        0 <= x < size.0,
        0 <= y < size.1,
    ensures
        0 <= x * size.1 + y < area(size),
        (x * size.1 + y) / (size.1 as int) == x,
        (x * size.1 + y) % (size.1 as int) == y,
{
    let w = size.1 as int;
    let h = size.0 as int;
    lemma_fundamental_div_mod_converse(x * w + y, w, x, y);
    lemma_mul_inequality(x + 1, h, w);
    assert(0 <= x * w + y < h * w) by (nonlinear_arith)
        requires
            (x + 1) * w <= h * w,
            0 <= y < w,
            0 <= x,
    ;
}

/// An index on the board is the index of its coordinate.
pub proof fn lemma_idx_inv(size: crate::pieces::util::coord::Size, i: int)
    requires
        0 <= i < area(size),
    ensures
        size.1 > 0,
        0 <= i / (size.1 as int) < size.0,
        0 <= i % (size.1 as int) < size.1,
        (i / (size.1 as int)) * size.1 + i % (size.1 as int) == i,
{
    let w = size.1 as int;
    let h = size.0 as int;
    assert(w > 0) by (nonlinear_arith)
        requires
            0 <= i < h * w,
            h >= 0,
    ;
    lemma_fundamental_div_mod(i, w);
    let q = i / w;
    assert(q * w == w * q) by (nonlinear_arith);
    assert(0 <= q < h) by (nonlinear_arith)
        requires
            i == w * q + i % w,
            0 <= i % w < w,
            0 <= i < h * w,
            w > 0,
    ;
}

} // verus!
