//! The neighbors of each point of a 19 by 19 goban, listed in a fixed order: two for a
//! corner, three for a point of the border, four for the others.

use vstd::prelude::*;
use crate::pieces::util::coord::{spec_coord_valid, spec_idx, Coord};

verus! {

/// True for the four corners.
pub open spec fn spec_is_corner(p: Coord) -> bool {
    p == (0u8, 18u8) || p == (18u8, 0u8) || p == (18u8, 18u8) || p == (0u8, 0u8)
}

/// True for the points of the border but the corners.
pub open spec fn spec_is_border(p: Coord) -> bool {
    ||| (1 <= p.0 <= 17 && p.1 == 0)
    ||| (p.0 == 0 && 1 <= p.1 <= 17)
    ||| (p.0 == 18 && 1 <= p.1 <= 17)
    ||| (1 <= p.0 <= 17 && p.1 == 18)
}

/// The four neighbors of a point: below, above, right, left.
pub open spec fn center_neighbors(p: Coord) -> Seq<Coord> {
    seq![((p.0 + 1) as u8, p.1), ((p.0 - 1) as u8, p.1), (p.0, (p.1 + 1) as u8), (p.0, (p.1 - 1) as u8)]
}

/// The two neighbors of a corner.
pub open spec fn corner_neighbors(p: Coord) -> Seq<Coord> {
    if p == (0u8, 18u8) {
        seq![(1u8, 18u8), (0u8, 17u8)]
    } else if p == (18u8, 0u8) {
        seq![(18u8, 1u8), (17u8, 0u8)]
    } else if p == (18u8, 18u8) {
        seq![(17u8, 18u8), (18u8, 17u8)]
    } else {
        seq![(0u8, 1u8), (1u8, 0u8)]
    }
}

/// The three neighbors of a point of the border.
pub open spec fn border_neighbors(p: Coord) -> Seq<Coord> {
    if 1 <= p.0 <= 17 && p.1 == 0 {
        seq![((p.0 + 1) as u8, p.1), (p.0, 1u8), ((p.0 - 1) as u8, 0u8)]
    } else if p.0 == 0 && 1 <= p.1 <= 17 {
        seq![(1u8, p.1), (0u8, (p.1 - 1) as u8), (0u8, (p.1 + 1) as u8)]
    } else if p.0 == 18 && 1 <= p.1 <= 17 {
        seq![(18u8, (p.1 + 1) as u8), (17u8, p.1), (18u8, (p.1 - 1) as u8)]
    } else {
        seq![(p.0, 17u8), ((p.0 + 1) as u8, 18u8), ((p.0 - 1) as u8, 18u8)]
    }
}

/// The neighbors of a point, in the order of the tables.
pub open spec fn neighbor_list(p: Coord) -> Seq<Coord> {
    if spec_is_corner(p) {
        corner_neighbors(p)
    } else if spec_is_border(p) {
        border_neighbors(p)
    } else {
        center_neighbors(p)
    }
}

/// The point of a board index.
pub open spec fn point_of_index(i: int) -> Coord {
    ((i / 19) as u8, (i % 19) as u8)
}

/// Two points are next to each other on a row or a column.
pub open spec fn next_to(p: Coord, q: Coord) -> bool {
    ||| (p.0 == q.0 && (p.1 + 1 == q.1 || q.1 + 1 == p.1))
    ||| (p.1 == q.1 && (p.0 + 1 == q.0 || q.0 + 1 == p.0))
}

/// The board indices of a list of points.
pub open spec fn indices_of(s: Seq<Coord>) -> Seq<usize> {
    s.map_values(|q: Coord| spec_idx((19u8, 19u8), q) as usize)
}

/// A list of at most four points holds `q` when one of its first places does.
proof fn lemma_contains_small(s: Seq<Coord>, q: Coord)
    requires
        s.len() <= 4,
    ensures
        s.contains(q) <==> ((s.len() > 0 && s[0] == q) || (s.len() > 1 && s[1] == q) || (s.len() > 2 && s[2] == q) || (
        s.len() > 3 && s[3] == q)),
{
    if s.contains(q) {
        let k = choose|k: int| 0 <= k < s.len() && s[k] == q;
        assert(k == 0 || k == 1 || k == 2 || k == 3);
    }
    if s.len() > 0 && s[0] == q {
        assert(s[0] == q);
    }
    if s.len() > 1 && s[1] == q {
        assert(s[1] == q);
    }
    if s.len() > 2 && s[2] == q {
        assert(s[2] == q);
    }
    if s.len() > 3 && s[3] == q {
        assert(s[3] == q);
    }
}

/// The neighbor list of a point of the 19 by 19 goban holds exactly the points of the
/// goban next to it, each once.
pub proof fn lemma_neighbor_list(p: Coord)
    requires
        spec_coord_valid((19u8, 19u8), p),
    ensures
        forall|q: Coord| neighbor_list(p).contains(q) <==> spec_coord_valid((19u8, 19u8), q) && next_to(p, q),
        neighbor_list(p).no_duplicates(),
{
    let s = neighbor_list(p);
    assert(s.len() <= 4);
    assert forall|q: Coord| s.contains(q) <==> spec_coord_valid((19u8, 19u8), q) && next_to(p, q) by {
        lemma_contains_small(s, q);
    }
}

/// Neighborhood is symmetric: `q` is in the neighbor list of `p` exactly when `p` is in
/// that of `q`.
pub proof fn lemma_neighbors_symmetric(p: Coord, q: Coord)
    requires
        spec_coord_valid((19u8, 19u8), p),
        spec_coord_valid((19u8, 19u8), q),
    ensures
        neighbor_list(p).contains(q) <==> neighbor_list(q).contains(p),
{
    lemma_neighbor_list(p);
    lemma_neighbor_list(q);
}

/// True for the four corners.
fn is_corner(p: Coord) -> (r: bool)
    ensures
        r == spec_is_corner(p),
{
    (p.0 == 0 && p.1 == 18) || (p.0 == 18 && p.1 == 0) || (p.0 == 18 && p.1 == 18) || (p.0 == 0 && p.1 == 0)
}

/// True for the points of the border but the corners.
fn is_border(p: Coord) -> (r: bool)
    ensures
        r == spec_is_border(p),
{
    (1 <= p.0 && p.0 <= 17 && p.1 == 0) || (p.0 == 0 && 1 <= p.1 && p.1 <= 17) || (p.0 == 18 && 1 <= p.1 && p.1 <= 17) || (1 <= p.0 && p.0
        <= 17 && p.1 == 18)
}

/// The four neighbors of a point off the border: below, above, right, left.
pub fn neighbor_points_center(p: Coord) -> (r: [Coord; 4])
    requires
        1 <= p.0 < 255,
        1 <= p.1 < 255,
    ensures
        r@ == center_neighbors(p),
{
    let (x1, x2) = p;
    [(x1 + 1, x2), (x1 - 1, x2), (x1, x2 + 1), (x1, x2 - 1)]
}

/// The two neighbors of a corner of the 19 by 19 goban.
pub fn neighbor_points_corner(p: Coord) -> (r: [Coord; 2])
    requires
        spec_is_corner(p),
    ensures
        r@ == corner_neighbors(p),
{
    if p.0 == 0 && p.1 == 18 {
        [(1, 18), (0, 17)]
    } else if p.0 == 18 && p.1 == 0 {
        [(18, 1), (17, 0)]
    } else if p.0 == 18 && p.1 == 18 {
        [(17, 18), (18, 17)]
    } else {
        [(0, 1), (1, 0)]
    }
}

/// The three neighbors of a point of the border of the 19 by 19 goban.
fn neighbor_points_border(p: Coord) -> (r: [Coord; 3])
    requires
        spec_is_border(p),
    ensures
        r@ == border_neighbors(p),
{
    let (x1, x2) = p;
    if 1 <= x1 && x1 <= 17 && x2 == 0 {
        [(x1 + 1, x2), (x1, 1), (x1 - 1, 0)]
    } else if x1 == 0 && 1 <= x2 && x2 <= 17 {
        [(1, x2), (0, x2 - 1), (0, x2 + 1)]
    } else if x1 == 18 && 1 <= x2 && x2 <= 17 {
        [(18, x2 + 1), (17, x2), (18, x2 - 1)]
    } else {
        [(x1, 17), (x1 + 1, 18), (x1 - 1, 18)]
    }
}

/// The neighbors of the point of a board index of the 19 by 19 goban, in table order.
pub fn get_neighbors_point(point_index: usize) -> (r: Vec<Coord>)
    requires
        point_index < 361,
    ensures
        r@ == neighbor_list(point_of_index(point_index as int)),
        forall|q: Coord| #[trigger] r@.contains(q) <==> spec_coord_valid((19u8, 19u8), q) && next_to(point_of_index(point_index as int), q),
{
    let p: Coord = ((point_index / 19) as u8, (point_index % 19) as u8);
    proof {
        lemma_neighbor_list(p);
    }
    let mut v: Vec<Coord> = Vec::new();
    if is_corner(p) {
        let a = neighbor_points_corner(p);
        v.push(a[0]);
        v.push(a[1]);
    } else if is_border(p) {
        let a = neighbor_points_border(p);
        v.push(a[0]);
        v.push(a[1]);
        v.push(a[2]);
    } else {
        let a = neighbor_points_center(p);
        v.push(a[0]);
        v.push(a[1]);
        v.push(a[2]);
        v.push(a[3]);
    }
    proof {
        assert(v@ =~= neighbor_list(p));
    }
    v
}

/// The board indices of the neighbors of a board index of the 19 by 19 goban, in table
/// order.
pub fn get_neighbors(point_index: usize) -> (r: Vec<usize>)
    requires
        point_index < 361,
    ensures
        r@ == indices_of(neighbor_list(point_of_index(point_index as int))),
{
    let pts = get_neighbors_point(point_index);
    let mut v: Vec<usize> = Vec::new();
    let mut k: usize = 0;
    while k < pts.len()
        invariant
            0 <= k <= pts@.len(),
            forall|j: int| 0 <= j < pts@.len() ==> spec_coord_valid((19u8, 19u8), #[trigger] pts@[j]),
            v@ == indices_of(pts@).take(k as int),
        decreases pts@.len() - k,
    {
        assert(pts@.contains(pts@[k as int]));
        let q = pts[k];
        v.push(q.0 as usize * 19 + q.1 as usize);
        k += 1;
        proof {
            assert(v@ =~= indices_of(pts@).take(k as int));
        }
    }
    proof {
        assert(indices_of(pts@).take(pts@.len() as int) =~= indices_of(pts@));
    }
    v
}

/// The board indices of points of the 19 by 19 goban.
pub fn array_to_1_dim(array: &[Coord]) -> (r: Vec<usize>)
    requires
        forall|k: int| 0 <= k < array@.len() ==> spec_coord_valid((19u8, 19u8), #[trigger] array@[k]),
    ensures
        r@ == indices_of(array@),
{
    let mut res: Vec<usize> = Vec::new();
    let mut i: usize = 0;
    while i < array.len()
        invariant
            0 <= i <= array@.len(),
            forall|k: int| 0 <= k < array@.len() ==> spec_coord_valid((19u8, 19u8), #[trigger] array@[k]),
            res@ == indices_of(array@).take(i as int),
        decreases array@.len() - i,
    {
        assert(spec_coord_valid((19u8, 19u8), array@[i as int]));
        let q = array[i];
        res.push(q.0 as usize * 19 + q.1 as usize);
        i += 1;
        proof {
            assert(res@ =~= indices_of(array@).take(i as int));
        }
    }
    proof {
        assert(indices_of(array@).take(array@.len() as int) =~= indices_of(array@));
    }
    res
}

/// The entries of the neighbor tables are right for the first `n` board indices: entry `i`
/// of `ranges` bounds, in `idx` and in `pts`, the neighbors of point `i`.
pub open spec fn tables_ok(idx: Seq<usize>, pts: Seq<Coord>, ranges: Seq<(usize, usize)>, n: int) -> bool {
    &&& ranges.len() == n
    &&& idx.len() == pts.len()
    &&& forall|i: int| #![trigger ranges[i]] 0 <= i < n ==> {
        &&& ranges[i].0 <= ranges[i].1 <= pts.len()
        &&& pts.subrange(ranges[i].0 as int, ranges[i].1 as int) == neighbor_list(point_of_index(i))
        &&& idx.subrange(ranges[i].0 as int, ranges[i].1 as int) == indices_of(neighbor_list(point_of_index(i)))
    }
}

/// The ranges follow each other without gap from 0 to `total`.
#[verifier::opaque]
pub open spec fn ranges_chained(ranges: Seq<(usize, usize)>, total: int) -> bool {
    &&& ranges.len() == 0 ==> total == 0
    &&& ranges.len() > 0 ==> ranges[0].0 == 0 && ranges[ranges.len() - 1].1 == total
    &&& forall|p: int| #![trigger ranges[p]] 0 <= p < ranges.len() - 1 ==> ranges[p].1 == ranges[p + 1].0
}

/// The number of table entries of the rows before row `x`: a border row holds 55 (two
/// corners and seventeen border points), a middle row 74 (two border points and seventeen
/// others).
#[verifier::opaque]
pub open spec fn rows_entries(x: int) -> int {
    if x <= 0 {
        0
    } else if x <= 18 {
        55 + 74 * (x - 1)
    } else {
        1368
    }
}

/// The number of table entries of the first `y` points of row `x`.
#[verifier::opaque]
pub open spec fn row_entries(x: int, y: int) -> int {
    if y <= 0 {
        0
    } else if x == 0 || x == 18 {
        if y <= 18 {
            2 + 3 * (y - 1)
        } else {
            55
        }
    } else {
        if y <= 18 {
            3 + 4 * (y - 1)
        } else {
            74
        }
    }
}

/// Appending the entries of point `i` after those of the points before it keeps the
/// tables right and the ranges chained.
proof fn lemma_tables_step(
    d0: Seq<usize>,
    p0: Seq<Coord>,
    r0: Seq<(usize, usize)>,
    arr: Seq<usize>,
    pts: Seq<Coord>,
    i: int,
    start: usize,
    end: usize,
)
    requires
        0 <= i,
        tables_ok(d0, p0, r0, i),
        ranges_chained(r0, d0.len() as int),
        pts == neighbor_list(point_of_index(i)),
        arr == indices_of(pts),
        start == d0.len(),
        end == d0.len() + arr.len(),
    ensures
        tables_ok(d0 + arr, p0 + pts, r0.push((start, end)), i + 1),
        ranges_chained(r0.push((start, end)), end as int),
{
    reveal(ranges_chained);
    let rs = r0.push((start, end));
    let data = d0 + arr;
    let dp = p0 + pts;
    assert forall|p: int| #![trigger rs[p]] 0 <= p < rs.len() - 1 implies rs[p].1 == rs[p + 1].0 by {
        if p + 1 < r0.len() {
            assert(rs[p] == r0[p]);
            assert(rs[p + 1] == r0[p + 1]);
        }
    }
    assert forall|j: int| #![trigger rs[j]] 0 <= j < i + 1 implies {
        &&& rs[j].0 <= rs[j].1 <= dp.len()
        &&& dp.subrange(rs[j].0 as int, rs[j].1 as int) == neighbor_list(point_of_index(j))
        &&& data.subrange(rs[j].0 as int, rs[j].1 as int) == indices_of(neighbor_list(point_of_index(j)))
    } by {
        if j < i {
            assert(rs[j] == r0[j]);
            assert(dp.subrange(rs[j].0 as int, rs[j].1 as int) =~= p0.subrange(rs[j].0 as int, rs[j].1 as int));
            assert(data.subrange(rs[j].0 as int, rs[j].1 as int) =~= d0.subrange(rs[j].0 as int, rs[j].1 as int));
        } else {
            assert(dp.subrange(start as int, end as int) =~= pts);
            assert(data.subrange(start as int, end as int) =~= arr);
        }
    }
}

/// A point adds its number of neighbors to the entries of its row.
proof fn lemma_row_step(x: int, y: int)
    requires
        0 <= x < 19,
        0 <= y < 19,
    ensures
        row_entries(x, y + 1) == row_entries(x, y) + neighbor_list((x as u8, y as u8)).len(),
        y == 18 ==> rows_entries(x) + row_entries(x, y + 1) == rows_entries(x + 1),
{
    reveal(rows_entries);
    reveal(row_entries);
    let p = (x as u8, y as u8);
    assert(p.0 == x && p.1 == y);
    if spec_is_corner(p) {
        assert(neighbor_list(p).len() == 2);
    } else if spec_is_border(p) {
        assert(neighbor_list(p).len() == 3);
    } else {
        assert(neighbor_list(p).len() == 4);
    }
}

/// The neighbor tables of the 19 by 19 goban: the board indices and the points of the
/// neighbors of each point, point after point in index order, and for each point the range
/// of its entries. The ranges start at 0 and follow each other without gap up to the 1368
/// entries.
pub fn init_neighbors_table() -> (r: (Vec<usize>, Vec<Coord>, Vec<(usize, usize)>))
    ensures
        tables_ok(r.0@, r.1@, r.2@, 361),
        r.0@.len() == 1368,
        r.2@[0].0 == 0,
        forall|p: int| #![trigger r.2@[p]] 0 <= p < 360 ==> r.2@[p].1 == r.2@[p + 1].0,
        r.2@[360].1 == 1368,
{
    let mut data: Vec<usize> = Vec::new();
    let mut data_point: Vec<Coord> = Vec::new();
    let mut indexes: Vec<(usize, usize)> = Vec::new();
    assert(ranges_chained(indexes@, 0)) by {
        reveal(ranges_chained);
    }
    assert(rows_entries(0) == 0) by {
        reveal(rows_entries);
    }
    let mut x: u8 = 0;
    while x < 19
        invariant
            0 <= x <= 19,
            tables_ok(data@, data_point@, indexes@, x * 19),
            ranges_chained(indexes@, data@.len() as int),
            data@.len() == rows_entries(x as int),
        decreases 19 - x,
    {
        assert(row_entries(x as int, 0) == 0) by {
            reveal(row_entries);
        }
        let mut y: u8 = 0;
        while y < 19
            invariant
                0 <= x < 19,
                0 <= y <= 19,
                tables_ok(data@, data_point@, indexes@, x * 19 + y),
                ranges_chained(indexes@, data@.len() as int),
                data@.len() == rows_entries(x as int) + row_entries(x as int, y as int),
            decreases 19 - y,
        {
            let point: Coord = (x, y);
            let ghost i = x * 19 + y;
            proof {
                assert(i / 19 == x && i % 19 == y) by (nonlinear_arith)
                    requires
                        i == x * 19 + y,
                        0 <= y < 19,
                        0 <= x,
                ;
                assert(point_of_index(i) == point);
                lemma_neighbor_list(point);
            }
            let pts: Vec<Coord> = if is_corner(point) {
                let a = neighbor_points_corner(point);
                vec![a[0], a[1]]
            } else if is_border(point) {
                let a = neighbor_points_border(point);
                vec![a[0], a[1], a[2]]
            } else {
                let a = neighbor_points_center(point);
                vec![a[0], a[1], a[2], a[3]]
            };
            proof {
                assert(pts@ =~= neighbor_list(point));
                assert forall|k: int| 0 <= k < pts@.len() implies spec_coord_valid((19u8, 19u8), #[trigger] pts@[k]) by {
                    assert(neighbor_list(point).contains(pts@[k]));
                }
            }
            let arr = array_to_1_dim(&pts);
            let start = data.len();
            let ghost d0 = data@;
            let ghost p0 = data_point@;
            let mut k: usize = 0;
            while k < pts.len()
                invariant
                    0 <= k <= pts@.len(),
                    pts@.len() <= 4,
                    arr@.len() == pts@.len(),
                    start == d0.len(),
                    d0.len() == p0.len(),
                    data@ == d0 + arr@.take(k as int),
                    data_point@ == p0 + pts@.take(k as int),
                decreases pts@.len() - k,
            {
                data.push(arr[k]);
                data_point.push(pts[k]);
                k += 1;
                proof {
                    assert(data@ =~= d0 + arr@.take(k as int));
                    assert(data_point@ =~= p0 + pts@.take(k as int));
                }
            }
            let ghost r0 = indexes@;
            indexes.push((start, data.len()));
            proof {
                lemma_row_step(x as int, y as int);
                assert(arr@.take(arr@.len() as int) =~= arr@);
                assert(pts@.take(pts@.len() as int) =~= pts@);
                lemma_tables_step(d0, p0, r0, arr@, pts@, i, start, data.len());
            }
            y += 1;
        }
        proof {
            lemma_row_step(x as int, 18);
        }
        x += 1;
    }
    proof {
        reveal(ranges_chained);
        reveal(rows_entries);
    }
    (data, data_point, indexes)
}

} // verus!
