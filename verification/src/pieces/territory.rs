//! Regions of connected points of one content, and the territories of an end position.

use vstd::prelude::*;
use crate::pieces::connections::{idx4_get, idx4_items, idx4_len};
use crate::pieces::geometry::{adjacent, lemma_area, lemma_idx_inv, lemma_nb, lemma_nb_list, nb, nb_list, nb_valid, neighbors_idx};
use crate::pieces::goban::{coord_of, Goban, GobanView, BOARD_MAX_LENGTH};
use crate::pieces::stones::{Color, MaybeColor, Point};
use crate::pieces::util::coord::{one_to_2dim, Size};

verus! {

/// `path` walks from point to adjacent point of the goban, each holding `t`.
pub open spec fn is_path(pos: Seq<Option<Color>>, size: Size, path: Seq<int>, t: Option<Color>) -> bool {
    &&& path.len() >= 1
    &&& forall|k: int| 0 <= k < path.len() ==> 0 <= #[trigger] path[k] < size.0 * size.1 && pos[path[k]] == t
    &&& forall|k: int| 0 <= k < path.len() - 1 ==> adjacent(size, #[trigger] path[k], path[k + 1])
}

/// `b` is reached from `a` through points that hold `t`.
pub open spec fn linked(pos: Seq<Option<Color>>, size: Size, a: int, b: int, t: Option<Color>) -> bool {
    exists|path: Seq<int>| #[trigger] is_path(pos, size, path, t) && path[0] == a && path[path.len() - 1] == b
}

/// The region of `p` (the points linked to it) touches a stone of `color`.
pub open spec fn borders(pos: Seq<Option<Color>>, size: Size, p: int, color: Color) -> bool {
    exists|q: int, j: int| #[trigger] linked(pos, size, p, q, pos[p]) && #[trigger] adjacent(size, q, j) && pos[j] == Some(color)
}

/// The owner of empty point `p`: the one color whose stones border its empty region.
pub open spec fn territory_of(pos: Seq<Option<Color>>, size: Size, p: int) -> Option<Color> {
    if 0 <= p < size.0 * size.1 && pos[p] is None {
        if borders(pos, size, p, Color::Black) && !borders(pos, size, p, Color::White) {
            Some(Color::Black)
        } else if borders(pos, size, p, Color::White) && !borders(pos, size, p, Color::Black) {
            Some(Color::White)
        } else {
            None
        }
    } else {
        None
    }
}

/// The number of points among the first `n` that are territory of `color`.
pub open spec fn territory_count(pos: Seq<Option<Color>>, size: Size, color: Color, n: int) -> nat
    decreases n,
{
    if n <= 0 {
        0
    } else {
        territory_count(pos, size, color, n - 1) + if territory_of(pos, size, n - 1) == Some(color) {
            1nat
        } else {
            0nat
        }
    }
}

/// The territory points of `color` among the first `n`, in index order.
pub open spec fn territory_points(pos: Seq<Option<Color>>, size: Size, color: Color, n: int) -> Seq<Point>
    decreases n,
{
    if n <= 0 {
        Seq::empty()
    } else {
        let prev = territory_points(pos, size, color, n - 1);
        if territory_of(pos, size, n - 1) == Some(color) {
            prev.push(Point { coord: coord_of(size, n - 1), color: None })
        } else {
            prev
        }
    }
}

/// The points linked to `p`, as a set.
pub open spec fn region(pos: Seq<Option<Color>>, size: Size, p: int) -> Set<int> {
    Set::new(|q: int| linked(pos, size, p, q, pos[p]))
}

/// Extending a path by an adjacent point of the same content.
proof fn lemma_linked_step(pos: Seq<Option<Color>>, size: Size, a: int, x: int, y: int, t: Option<Color>)
    requires
        linked(pos, size, a, x, t),
        adjacent(size, x, y),
        0 <= y < size.0 * size.1,
        pos[y] == t,
    ensures
        linked(pos, size, a, y, t),
{
    let path = choose|path: Seq<int>| #[trigger] is_path(pos, size, path, t) && path[0] == a && path[path.len() - 1] == x;
    let p2 = path.push(y);
    assert forall|k: int| 0 <= k < p2.len() - 1 implies adjacent(size, #[trigger] p2[k], p2[k + 1]) by {
        if k < path.len() - 1 {
            assert(p2[k] == path[k] && p2[k + 1] == path[k + 1]);
        }
    }
    assert(is_path(pos, size, p2, t));
}

/// A set that holds `a` and is closed under adjacency through points holding `t` holds
/// every point linked to `a`.
proof fn lemma_closed_holds(pos: Seq<Option<Color>>, size: Size, a: int, b: int, t: Option<Color>, s: Set<int>)
    requires
        s.contains(a),
        forall|x: int, d: int| s.contains(x) && 0 <= d < 4 && #[trigger] nb_valid(size, x, d) && pos[nb(size, x, d)] == t ==> s.contains(nb(size, x, d)),
        linked(pos, size, a, b, t),
    ensures
        s.contains(b),
{
    let path = choose|path: Seq<int>| #[trigger] is_path(pos, size, path, t) && path[0] == a && path[path.len() - 1] == b;
    lemma_path_in(pos, size, path, t, s, path.len() - 1);
}

/// Every point of a path that starts in a closed set lies in it.
proof fn lemma_path_in(pos: Seq<Option<Color>>, size: Size, path: Seq<int>, t: Option<Color>, s: Set<int>, k: int)
    requires
        is_path(pos, size, path, t),
        s.contains(path[0]),
        0 <= k < path.len(),
        forall|x: int, d: int| s.contains(x) && 0 <= d < 4 && #[trigger] nb_valid(size, x, d) && pos[nb(size, x, d)] == t ==> s.contains(nb(size, x, d)),
    ensures
        s.contains(path[k]),
    decreases k,
{
    if k > 0 {
        lemma_path_in(pos, size, path, t, s, k - 1);
        assert(adjacent(size, path[k - 1], path[k - 1 + 1]));
        let d = choose|d: int| 0 <= d < 4 && nb_valid(size, path[k - 1], d) && #[trigger] nb(size, path[k - 1], d) == path[k - 1 + 1];
        assert(pos[path[k]] == t);
    }
}

/// Some neighbor of `x` holds a stone of `color`.
pub open spec fn has_nb_color(pos: Seq<Option<Color>>, size: Size, x: int, color: Color) -> bool {
    exists|d: int| 0 <= d < 4 && #[trigger] nb_valid(size, x, d) && pos[nb(size, x, d)] == Some(color)
}

/// The state of a flood fill from `start` over points holding `t`.
pub open spec fn flood_inv(v: GobanView, start: int, t: Option<Color>, visited: Seq<bool>, region: Seq<usize>, stack: Seq<usize>, black: bool, white: bool) -> bool {
    let pos = v.pos();
    let size = v.size;
    &&& visited.len() == 361
    &&& forall|q: int| 0 <= q < 361 ==> #[trigger] visited[q] == region.contains(q as usize)
    &&& region.no_duplicates()
    &&& forall|k: int| 0 <= k < region.len() ==> (#[trigger] region[k] as int) < v.area() && pos[region[k] as int] == t && linked(pos, size, start, region[k] as int, t)
    &&& stack.no_duplicates()
    &&& forall|k: int| 0 <= k < stack.len() ==> region.contains(#[trigger] stack[k])
    &&& forall|x: int, d: int| 0 <= x < 361 && visited[x] && !stack.contains(x as usize) && 0 <= d < 4 && #[trigger] nb_valid(size, x, d) && pos[nb(size, x, d)] == t ==> visited[nb(size, x, d)]
    &&& black == exists|x: int| 0 <= x < 361 && visited[x] && !stack.contains(x as usize) && #[trigger] has_nb_color(pos, size, x, Color::Black)
    &&& white == exists|x: int| 0 <= x < 361 && visited[x] && !stack.contains(x as usize) && #[trigger] has_nb_color(pos, size, x, Color::White)
}

/// A list of distinct board indices has at most 361 items.
proof fn lemma_region_bound(s: Seq<usize>)
    requires
        s.no_duplicates(),
        forall|k: int| 0 <= k < s.len() ==> #[trigger] s[k] < 361,
    ensures
        s.len() <= 361,
{
    let t = s.map_values(|u: usize| u as int);
    assert(t.no_duplicates()) by {
        assert forall|i: int, j: int| 0 <= i < t.len() && 0 <= j < t.len() && i != j implies t[i] != t[j] by {
            assert(s[i] != s[j]);
        }
    }
    t.unique_seq_to_set();
    let r = vstd::set_lib::set_int_range(0, 361);
    vstd::set_lib::lemma_int_range(0, 361);
    assert(t.to_set().subset_of(r)) by {
        assert forall|x: int| t.to_set().contains(x) implies r.contains(x) by {
            let k = choose|k: int| 0 <= k < t.len() && t[k] == x;
            assert(s[k] < 361);
        }
    }
    vstd::set_lib::lemma_len_subset(t.to_set(), r);
}

impl Goban {
    /// The points linked to `start` (holding the same content as it), and whether that
    /// region touches black stones, white stones.
    #[verifier::spinoff_prover]
    #[verifier::rlimit(50)]
    pub fn flood(&self, start: usize) -> (r: (Vec<usize>, bool, bool))
        requires
            self@.wf(),
            start < self@.area(),
        ensures
            forall|q: int| 0 <= q < 361 ==> (r.0@.contains(q as usize) <==> linked(self@.pos(), self@.size, start as int, q, self@.pos()[start as int])),
            r.0@.no_duplicates(),
            forall|k: int| 0 <= k < r.0@.len() ==> (#[trigger] r.0@[k] as int) < self@.area(),
            r.1 == borders(self@.pos(), self@.size, start as int, Color::Black),
            r.2 == borders(self@.pos(), self@.size, start as int, Color::White),
    {
        let ghost v = self@;
        let ghost pos = v.pos();
        let ghost size = v.size;
        proof {
            lemma_area(size);
        }
        let t = self.get_color_idx(start);
        let mut visited: Vec<bool> = Vec::new();
        let mut i: usize = 0;
        while i < BOARD_MAX_LENGTH
            invariant
                0 <= i <= 361,
                visited@.len() == i,
                forall|q: int| 0 <= q < i ==> !#[trigger] visited@[q],
            decreases 361 - i,
        {
            visited.push(false);
            i += 1;
        }
        visited.set(start, true);
        let mut stack: Vec<usize> = Vec::new();
        stack.push(start);
        let mut region: Vec<usize> = Vec::new();
        region.push(start);
        let mut black = false;
        let mut white = false;
        proof {
            let path = seq![start as int];
            assert(is_path(pos, size, path, t));
            assert(linked(pos, size, start as int, start as int, t));
            assert forall|q: int| 0 <= q < 361 implies #[trigger] visited@[q] == region@.contains(q as usize) by {
                if q == start {
                    assert(region@[0] == start);
                }
            }
            assert forall|x: int| 0 <= x < 361 && visited@[x] implies stack@.contains(x as usize) by {
                assert(region@.contains(x as usize));
                assert(x == start);
                assert(stack@[0] == start);
            }
        }
        while stack.len() > 0
            invariant
                v == self@,
                v.wf(),
                pos == v.pos(),
                size == v.size,
                v.area() <= 361,
                start < v.area(),
                t == pos[start as int],
                flood_inv(v, start as int, t, visited@, region@, stack@, black, white),
                visited@[start as int],
            decreases 361 - region@.len(), stack@.len(),
        {
            proof {
                assert forall|k: int| 0 <= k < region@.len() implies #[trigger] region@[k] < 361 by {}
                lemma_region_bound(region@);
            }
            let ghost region0 = region@;
            let ghost visited0 = visited@;
            let ghost stack0 = stack@;
            let ghost black0 = black;
            let ghost white0 = white;
            let x = stack.pop().unwrap();
            let ghost stack1 = stack@;
            proof {
                assert(stack0 == stack1.push(x));
                assert(region0.contains(x));
                assert forall|y: usize| #[trigger] stack1.contains(y) implies stack0.contains(y) && y != x by {
                    let k = choose|k: int| 0 <= k < stack1.len() && stack1[k] == y;
                    assert(stack0[k] == y);
                    if y == x {
                        assert(stack0[stack1.len() as int] == x);
                    }
                }
                assert((x as int) < v.area());
                lemma_nb_list(size, x as int);
            }
            let nbrs = neighbors_idx(self.size(), x);
            let n = idx4_len(&nbrs);
            let ghost l = nb_list(size, x as int);
            let mut k: usize = 0;
            while k < n
                invariant
                    v == self@,
                    v.wf(),
                    pos == v.pos(),
                    size == v.size,
                    v.area() <= 361,
                    start < v.area(),
                    t == pos[start as int],
                    (x as int) < v.area(),
                    pos[x as int] == t,
                    linked(pos, size, start as int, x as int, t),
                    l == nb_list(size, x as int),
                    idx4_items(nbrs) == l,
                    n == l.len(),
                    0 <= k <= n,
                    forall|m: int| 0 <= m < l.len() ==> adjacent(size, x as int, #[trigger] l[m] as int),
                    forall|m: int| 0 <= m < l.len() ==> 0 <= #[trigger] l[m] < v.area(),
                    visited@.len() == 361,
                    forall|q: int| 0 <= q < 361 ==> #[trigger] visited@[q] == region@.contains(q as usize),
                    region@.no_duplicates(),
                    forall|j: int| 0 <= j < region@.len() ==> (#[trigger] region@[j] as int) < v.area() && pos[region@[j] as int] == t && linked(pos, size,
                        start as int, region@[j] as int, t),
                    stack@.no_duplicates(),
                    forall|j: int| 0 <= j < stack@.len() ==> region@.contains(#[trigger] stack@[j]),
                    !stack@.contains(x),
                    region@.contains(x),
                    region0.len() <= region@.len(),
                    forall|q: int| 0 <= q < 361 && #[trigger] visited0[q] ==> visited@[q],
                    forall|y: usize| #[trigger] stack@.contains(y) ==> stack1.contains(y) || !visited0[y as int],
                    forall|y: usize| #[trigger] stack1.contains(y) ==> stack@.contains(y),
                    forall|q: int| 0 <= q < 361 && visited@[q] && !visited0[q] ==> stack@.contains(q as usize),
                    stack@.len() - stack1.len() == region@.len() - region0.len(),
                    visited@[start as int],
                    forall|m: int| 0 <= m < k && pos[#[trigger] l[m] as int] == t ==> visited@[l[m] as int],
                    black == (black0 || exists|m: int| 0 <= m < k && pos[#[trigger] l[m] as int] == Some(Color::Black)),
                    white == (white0 || exists|m: int| 0 <= m < k && pos[#[trigger] l[m] as int] == Some(Color::White)),
                decreases n - k,
            {
                let q = idx4_get(&nbrs, k);
                let c = self.get_color_idx(q);
                if c == t && !visited[q] {
                    proof {
                        lemma_linked_step(pos, size, start as int, x as int, q as int, t);
                        assert(!region@.contains(q));
                        assert(!stack@.contains(q));
                    }
                    visited.set(q, true);
                    stack.push(q);
                    region.push(q);
                    proof {
                        broadcast use vstd::seq_lib::lemma_seq_contains_after_push;
                        assert forall|qq: int| 0 <= qq < 361 implies #[trigger] visited@[qq] == region@.contains(qq as usize) by {}
                        assert(stack@.contains(q));
                    }
                }
                match c {
                    Some(Color::Black) => {
                        black = true;
                    },
                    Some(Color::White) => {
                        white = true;
                    },
                    None => {},
                }
                proof {
                    broadcast use vstd::seq_lib::lemma_seq_contains_after_push;
                    if pos[q as int] == Some(Color::Black) {
                        assert(exists|m: int| 0 <= m < k + 1 && pos[#[trigger] l[m] as int] == Some(Color::Black));
                    }
                    if exists|m: int| 0 <= m < k + 1 && pos[#[trigger] l[m] as int] == Some(Color::Black) {
                        let m = choose|m: int| 0 <= m < k + 1 && pos[#[trigger] l[m] as int] == Some(Color::Black);
                        if m < k {
                            assert(exists|m2: int| 0 <= m2 < k && pos[#[trigger] l[m2] as int] == Some(Color::Black));
                        }
                    }
                    if pos[q as int] == Some(Color::White) {
                        assert(exists|m: int| 0 <= m < k + 1 && pos[#[trigger] l[m] as int] == Some(Color::White));
                    }
                    if exists|m: int| 0 <= m < k + 1 && pos[#[trigger] l[m] as int] == Some(Color::White) {
                        let m = choose|m: int| 0 <= m < k + 1 && pos[#[trigger] l[m] as int] == Some(Color::White);
                        if m < k {
                            assert(exists|m2: int| 0 <= m2 < k && pos[#[trigger] l[m2] as int] == Some(Color::White));
                        }
                    }
                }
                k += 1;
            }
            proof {
                lemma_flood_step(v, start as int, t, x as int, visited0, region0, stack0, stack1, black0, white0, visited@, region@, stack@, black,
                    white);
                assert forall|j: int| 0 <= j < region@.len() implies #[trigger] region@[j] < 361 by {}
                lemma_region_bound(region@);
            }
        }
        proof {
            let rs = Set::new(|q: int| 0 <= q < 361 && visited@[q]);
            assert forall|x: int, d: int| rs.contains(x) && 0 <= d < 4 && #[trigger] nb_valid(size, x, d) && pos[nb(size, x, d)] == t implies rs.contains(
                nb(size, x, d)) by {
                lemma_nb(size, x, d);
            }
            assert(rs.contains(start as int)) by {
                assert(visited@[start as int] == region@.contains(start));
            }
            assert forall|q: int| 0 <= q < 361 implies (region@.contains(q as usize) <==> linked(pos, size, start as int, q, t)) by {
                if linked(pos, size, start as int, q, t) {
                    lemma_closed_holds(pos, size, start as int, q, t, rs);
                }
                if region@.contains(q as usize) {
                    let k = choose|k: int| 0 <= k < region@.len() && region@[k] == q as usize;
                }
            }
            lemma_flood_borders(v, start as int, t, visited@, region@, black, Color::Black);
            lemma_flood_borders(v, start as int, t, visited@, region@, white, Color::White);
        }
        (region, black, white)
    }
}

/// Once the flood is over, its flag for `color` says whether the region borders `color`.
proof fn lemma_flood_borders(v: GobanView, start: int, t: Option<Color>, visited: Seq<bool>, region: Seq<usize>, flag: bool, color: Color)
    requires
        v.wf(),
        0 <= start < v.area(),
        t == v.pos()[start],
        visited.len() == 361,
        forall|q: int| 0 <= q < 361 ==> #[trigger] visited[q] == region.contains(q as usize),
        forall|q: int| 0 <= q < 361 ==> (region.contains(q as usize) <==> linked(v.pos(), v.size, start, q, t)),
        flag == exists|x: int| 0 <= x < 361 && visited[x] && !Seq::<usize>::empty().contains(x as usize) && #[trigger] has_nb_color(v.pos(), v.size, x, color),
    ensures
        flag == borders(v.pos(), v.size, start, color),
{
    lemma_area(v.size);
    if flag {
        let x = choose|x: int| 0 <= x < 361 && visited[x] && !Seq::<usize>::empty().contains(x as usize) && #[trigger] has_nb_color(v.pos(), v.size, x, color);
        let d = choose|d: int| 0 <= d < 4 && #[trigger] nb_valid(v.size, x, d) && v.pos()[nb(v.size, x, d)] == Some(color);
        assert(adjacent(v.size, x, nb(v.size, x, d)));
        assert(linked(v.pos(), v.size, start, x, t));
    }
    if borders(v.pos(), v.size, start, color) {
        let (q, j) = choose|q: int, j: int| #[trigger] linked(v.pos(), v.size, start, q, v.pos()[start]) && #[trigger] adjacent(v.size, q, j) && v.pos()[j]
            == Some(color);
        let path = choose|path: Seq<int>| #[trigger] is_path(v.pos(), v.size, path, t) && path[0] == start && path[path.len() - 1] == q;
        assert(0 <= q < 361);
        assert(visited[q]);
        let d = choose|d: int| 0 <= d < 4 && nb_valid(v.size, q, d) && #[trigger] nb(v.size, q, d) == j;
        assert(has_nb_color(v.pos(), v.size, q, color));
    }
}

/// Processing a popped point keeps the flood's invariant.
proof fn lemma_flood_step(v: GobanView, start: int, t: Option<Color>, x: int, visited0: Seq<bool>, region0: Seq<usize>, stack0: Seq<usize>,
    stack1: Seq<usize>, black0: bool, white0: bool, visited: Seq<bool>, region: Seq<usize>, stack: Seq<usize>, black: bool, white: bool)
    requires
        v.wf(),
        v.area() <= 361,
        flood_inv(v, start, t, visited0, region0, stack0, black0, white0),
        stack0 == stack1.push(x as usize),
        0 <= x < v.area(),
        visited.len() == 361,
        forall|q: int| 0 <= q < 361 ==> #[trigger] visited[q] == region.contains(q as usize),
        region.no_duplicates(),
        forall|j: int| 0 <= j < region.len() ==> (#[trigger] region[j] as int) < v.area() && v.pos()[region[j] as int] == t && linked(v.pos(), v.size, start,
            region[j] as int, t),
        stack.no_duplicates(),
        forall|j: int| 0 <= j < stack.len() ==> region.contains(#[trigger] stack[j]),
        !stack.contains(x as usize),
        region.contains(x as usize),
        region0.len() <= region.len(),
        forall|q: int| 0 <= q < 361 && #[trigger] visited0[q] ==> visited[q],
        forall|y: usize| #[trigger] stack.contains(y) ==> stack1.contains(y) || !visited0[y as int],
        forall|y: usize| #[trigger] stack1.contains(y) ==> stack0.contains(y) && y != x as usize,
        forall|m: int| 0 <= m < nb_list(v.size, x).len() && v.pos()[#[trigger] nb_list(v.size, x)[m] as int] == t ==> visited[nb_list(v.size, x)[m] as int],
        black == (black0 || exists|m: int| 0 <= m < nb_list(v.size, x).len() && v.pos()[#[trigger] nb_list(v.size, x)[m] as int] == Some(Color::Black)),
        white == (white0 || exists|m: int| 0 <= m < nb_list(v.size, x).len() && v.pos()[#[trigger] nb_list(v.size, x)[m] as int] == Some(Color::White)),
        forall|q: int| 0 <= q < 361 && visited[q] && !visited0[q] ==> stack.contains(q as usize),
        forall|y: usize| #[trigger] stack1.contains(y) ==> stack.contains(y),
    ensures
        flood_inv(v, start, t, visited, region, stack, black, white),
{
    let pos = v.pos();
    let size = v.size;
    lemma_nb_list(size, x);
    let l = nb_list(size, x);
    // processed points: those of before, and x
    assert forall|y: int| 0 <= y < 361 && visited[y] && !stack.contains(y as usize) implies (visited0[y] && !stack0.contains(y as usize)) || y == x by {
        if !visited0[y] {
            assert(stack.contains(y as usize));
        }
        if visited0[y] && stack0.contains(y as usize) && y != x {
            let k = choose|k: int| 0 <= k < stack0.len() && stack0[k] == y as usize;
            if k < stack1.len() {
                assert(stack1[k] == y as usize);
                assert(stack1.contains(y as usize));
            } else {
                assert(stack0[stack1.len() as int] == x as usize);
            }
        }
    }
    assert forall|y: int| 0 <= y < 361 && visited0[y] && !stack0.contains(y as usize) implies visited[y] && !stack.contains(y as usize) by {
        if stack.contains(y as usize) {
            assert(stack1.contains(y as usize) || !visited0[y]);
            if stack1.contains(y as usize) {
                assert(stack0.contains(y as usize));
            }
        }
    }
    assert(visited[x] && !stack.contains(x as usize));
    // closure
    assert forall|y: int, d: int| 0 <= y < 361 && visited[y] && !stack.contains(y as usize) && 0 <= d < 4 && #[trigger] nb_valid(size, y, d) && pos[nb(
        size, y, d)] == t implies visited[nb(size, y, d)] by {
        lemma_nb(size, y, d);
        if y == x {
            assert(adjacent(size, x, nb(size, x, d)));
            assert(l.contains(nb(size, x, d) as usize));
            let m = choose|m: int| 0 <= m < l.len() && l[m] == nb(size, x, d) as usize;
        } else {
            assert(visited0[y] && !stack0.contains(y as usize));
            assert(visited0[nb(size, y, d)]);
        }
    }
    // flags
    assert(has_nb_color(pos, size, x, Color::Black) == exists|m: int| 0 <= m < l.len() && pos[#[trigger] l[m] as int] == Some(Color::Black)) by {
        if has_nb_color(pos, size, x, Color::Black) {
            let d = choose|d: int| 0 <= d < 4 && #[trigger] nb_valid(size, x, d) && pos[nb(size, x, d)] == Some(Color::Black);
            lemma_nb(size, x, d);
            assert(adjacent(size, x, nb(size, x, d)));
            assert(l.contains(nb(size, x, d) as usize));
            let m = choose|m: int| 0 <= m < l.len() && l[m] == nb(size, x, d) as usize;
        }
        if exists|m: int| 0 <= m < l.len() && pos[#[trigger] l[m] as int] == Some(Color::Black) {
            let m = choose|m: int| 0 <= m < l.len() && pos[#[trigger] l[m] as int] == Some(Color::Black);
            assert(adjacent(size, x, l[m] as int));
            let d = choose|d: int| 0 <= d < 4 && nb_valid(size, x, d) && #[trigger] nb(size, x, d) == l[m] as int;
        }
    }
    assert(has_nb_color(pos, size, x, Color::White) == exists|m: int| 0 <= m < l.len() && pos[#[trigger] l[m] as int] == Some(Color::White)) by {
        if has_nb_color(pos, size, x, Color::White) {
            let d = choose|d: int| 0 <= d < 4 && #[trigger] nb_valid(size, x, d) && pos[nb(size, x, d)] == Some(Color::White);
            lemma_nb(size, x, d);
            assert(adjacent(size, x, nb(size, x, d)));
            assert(l.contains(nb(size, x, d) as usize));
            let m = choose|m: int| 0 <= m < l.len() && l[m] == nb(size, x, d) as usize;
        }
        if exists|m: int| 0 <= m < l.len() && pos[#[trigger] l[m] as int] == Some(Color::White) {
            let m = choose|m: int| 0 <= m < l.len() && pos[#[trigger] l[m] as int] == Some(Color::White);
            assert(adjacent(size, x, l[m] as int));
            let d = choose|d: int| 0 <= d < 4 && nb_valid(size, x, d) && #[trigger] nb(size, x, d) == l[m] as int;
        }
    }
    assert(black == exists|y: int| 0 <= y < 361 && visited[y] && !stack.contains(y as usize) && #[trigger] has_nb_color(pos, size, y, Color::Black)) by {
        if black0 {
            let y = choose|y: int| 0 <= y < 361 && visited0[y] && !stack0.contains(y as usize) && #[trigger] has_nb_color(pos, size, y, Color::Black);
            assert(visited[y] && !stack.contains(y as usize));
        }
        if exists|y: int| 0 <= y < 361 && visited[y] && !stack.contains(y as usize) && #[trigger] has_nb_color(pos, size, y, Color::Black) {
            let y = choose|y: int| 0 <= y < 361 && visited[y] && !stack.contains(y as usize) && #[trigger] has_nb_color(pos, size, y, Color::Black);
            if y != x {
                assert(visited0[y] && !stack0.contains(y as usize));
            }
        }
    }
    assert(white == exists|y: int| 0 <= y < 361 && visited[y] && !stack.contains(y as usize) && #[trigger] has_nb_color(pos, size, y, Color::White)) by {
        if white0 {
            let y = choose|y: int| 0 <= y < 361 && visited0[y] && !stack0.contains(y as usize) && #[trigger] has_nb_color(pos, size, y, Color::White);
            assert(visited[y] && !stack.contains(y as usize));
        }
        if exists|y: int| 0 <= y < 361 && visited[y] && !stack.contains(y as usize) && #[trigger] has_nb_color(pos, size, y, Color::White) {
            let y = choose|y: int| 0 <= y < 361 && visited[y] && !stack.contains(y as usize) && #[trigger] has_nb_color(pos, size, y, Color::White);
            if y != x {
                assert(visited0[y] && !stack0.contains(y as usize));
            }
        }
    }
}

/// A count of at most `n` points is at most `n`.
proof fn lemma_territory_count_bound(pos: Seq<Option<Color>>, size: Size, color: Color, n: int)
    requires
        0 <= n,
    ensures
        territory_count(pos, size, color, n) <= n,
    decreases n,
{
    if n > 0 {
        lemma_territory_count_bound(pos, size, color, n - 1);
    }
}

impl Goban {
    /// The owner of the empty point `i`: the one color that borders its empty region.
    fn territory_owner(&self, i: usize) -> (r: Option<Color>)
        requires
            self@.wf(),
            i < self@.area(),
        ensures
            r == territory_of(self@.pos(), self@.size, i as int),
    {
        proof {
            lemma_area(self@.size);
        }
        if self.get_color_idx(i).is_some() {
            return None;
        }
        let (_, black, white) = self.flood(i);
        if black && !white {
            Some(Color::Black)
        } else if white && !black {
            Some(Color::White)
        } else {
            None
        }
    }

    /// The territories: the empty points whose region only black stones border, and those
    /// whose region only white stones border, in index order.
    pub fn get_territories(&self) -> (r: (Vec<Point>, Vec<Point>))
        requires
            self@.wf(),
        ensures
            r.0@ == territory_points(self@.pos(), self@.size, Color::Black, self@.area()),
            r.1@ == territory_points(self@.pos(), self@.size, Color::White, self@.area()),
    {
        let ghost v = self@;
        proof {
            lemma_area(v.size);
        }
        let size = self.size();
        let n = size.0 as usize * size.1 as usize;
        let mut black_territory: Vec<Point> = Vec::new();
        let mut white_territory: Vec<Point> = Vec::new();
        let mut i: usize = 0;
        while i < n
            invariant
                v == self@,
                v.wf(),
                n == v.area(),
                n <= 361,
                size == v.size,
                0 <= i <= n,
                black_territory@ == territory_points(v.pos(), v.size, Color::Black, i as int),
                white_territory@ == territory_points(v.pos(), v.size, Color::White, i as int),
            decreases n - i,
        {
            let owner = self.territory_owner(i);
            match owner {
                Some(Color::Black) => {
                    proof {
                        lemma_idx_inv(v.size, i as int);
                    }
                    black_territory.push(Point { coord: one_to_2dim(size, i), color: None });
                },
                Some(Color::White) => {
                    proof {
                        lemma_idx_inv(v.size, i as int);
                    }
                    white_territory.push(Point { coord: one_to_2dim(size, i), color: None });
                },
                None => {},
            }
            i += 1;
        }
        (black_territory, white_territory)
    }

    /// The sizes of the territories: (black, white).
    pub fn calculate_territories(&self) -> (r: (usize, usize))
        requires
            self@.wf(),
        ensures
            r.0 == territory_count(self@.pos(), self@.size, Color::Black, self@.area()),
            r.1 == territory_count(self@.pos(), self@.size, Color::White, self@.area()),
    {
        let ghost v = self@;
        proof {
            lemma_area(v.size);
        }
        let size = self.size();
        let n = size.0 as usize * size.1 as usize;
        let mut black: usize = 0;
        let mut white: usize = 0;
        let mut i: usize = 0;
        while i < n
            invariant
                v == self@,
                v.wf(),
                n == v.area(),
                n <= 361,
                size == v.size,
                0 <= i <= n,
                black == territory_count(v.pos(), v.size, Color::Black, i as int),
                white == territory_count(v.pos(), v.size, Color::White, i as int),
            decreases n - i,
        {
            proof {
                lemma_territory_count_bound(v.pos(), v.size, Color::Black, i as int);
                lemma_territory_count_bound(v.pos(), v.size, Color::White, i as int);
            }
            match self.territory_owner(i) {
                Some(Color::Black) => {
                    black += 1;
                },
                Some(Color::White) => {
                    white += 1;
                },
                None => {},
            }
            i += 1;
        }
        (black, white)
    }

    /// The points of the region of `stone`: the points linked to it through points of its
    /// content (stones of its color, or empty points), each once.
    pub fn get_group_from_point(&self, stone: Point) -> (r: Vec<Point>)
        requires
            self@.wf(),
            crate::pieces::util::coord::spec_coord_valid(self@.size, stone.coord),
            self@.pos()[crate::pieces::util::coord::spec_idx(self@.size, stone.coord)] == stone.color,
        ensures
            r@.no_duplicates(),
            forall|pt: Point| #[trigger] r@.contains(pt) <==> (pt.color == stone.color && exists|q: int| 0 <= q < 361 && #[trigger] linked(
                self@.pos(), self@.size, crate::pieces::util::coord::spec_idx(self@.size, stone.coord), q, stone.color) && pt.coord == coord_of(self@.size, q)),
    {
        let ghost v = self@;
        proof {
            crate::pieces::geometry::lemma_idx(v.size, stone.coord.0 as int, stone.coord.1 as int);
            lemma_area(v.size);
        }
        let start = crate::pieces::util::coord::two_to_1dim(self.size(), stone.coord);
        let (region, _, _) = self.flood(start);
        let ghost t = stone.color;
        let mut res: Vec<Point> = Vec::new();
        let mut k: usize = 0;
        while k < region.len()
            invariant
                v == self@,
                v.wf(),
                v.area() <= 361,
                (start as int) < v.area(),
                v.pos()[start as int] == t,
                t == stone.color,
                forall|q: int| 0 <= q < 361 ==> (region@.contains(q as usize) <==> linked(v.pos(), v.size, start as int, q, t)),
                region@.no_duplicates(),
                forall|m: int| 0 <= m < region@.len() ==> (#[trigger] region@[m] as int) < v.area(),
                0 <= k <= region@.len(),
                res@.len() == k,
                forall|m: int| 0 <= m < k ==> #[trigger] res@[m] == (Point { coord: coord_of(v.size, region@[m] as int), color: t }),
            decreases region@.len() - k,
        {
            let q = region[k];
            proof {
                lemma_idx_inv(v.size, q as int);
            }
            res.push(Point { coord: one_to_2dim(self.size(), q), color: stone.color });
            k += 1;
        }
        proof {
            // the coordinates of distinct board points differ
            assert forall|a: int, b: int| 0 <= a < res@.len() && 0 <= b < res@.len() && a != b implies res@[a] != res@[b] by {
                lemma_idx_inv(v.size, region@[a] as int);
                lemma_idx_inv(v.size, region@[b] as int);
                assert(region@[a] != region@[b]);
                if coord_of(v.size, region@[a] as int) == coord_of(v.size, region@[b] as int) {
                    assert(false);
                }
            }
            assert forall|pt: Point| #[trigger] res@.contains(pt) <==> (pt.color == stone.color && exists|q: int| 0 <= q < 361 && #[trigger] linked(
                v.pos(), v.size, start as int, q, stone.color) && pt.coord == coord_of(v.size, q)) by {
                if res@.contains(pt) {
                    let m = choose|m: int| 0 <= m < res@.len() && res@[m] == pt;
                    assert(region@.contains(region@[m]));
                    assert(linked(v.pos(), v.size, start as int, region@[m] as int, stone.color));
                }
                if pt.color == stone.color && exists|q: int| 0 <= q < 361 && #[trigger] linked(v.pos(), v.size, start as int, q, stone.color) && pt.coord
                    == coord_of(v.size, q) {
                    let q = choose|q: int| 0 <= q < 361 && #[trigger] linked(v.pos(), v.size, start as int, q, stone.color) && pt.coord == coord_of(v.size, q);
                    assert(region@.contains(q as usize));
                    let m = choose|m: int| 0 <= m < region@.len() && region@[m] == q as usize;
                    assert(res@[m] == pt);
                }
            }
        }
        res
    }
}

/// The region of point `pt` as a set: the points of its content linked to it.
pub open spec fn region_of(v: GobanView, pt: Point) -> Set<Point> {
    Set::new(|p: Point| p.color == pt.color && exists|q: int| 0 <= q < 361 && #[trigger] linked(
        v.pos(), v.size, crate::pieces::util::coord::spec_idx(v.size, pt.coord), q, pt.color) && p.coord == coord_of(v.size, q))
}

/// The regions that the first `n` points of `pts` give, in order, each point adding its
/// region unless an earlier region holds it.
pub open spec fn regions_upto(v: GobanView, pts: Seq<Point>, n: int) -> Seq<Set<Point>>
    decreases n,
{
    if n <= 0 {
        Seq::empty()
    } else {
        let prev = regions_upto(v, pts, n - 1);
        if exists|k: int| 0 <= k < prev.len() && #[trigger] prev[k].contains(pts[n - 1]) {
            prev
        } else {
            prev.push(region_of(v, pts[n - 1]))
        }
    }
}

/// True when `pt` is one of the points of `v`.
fn holds_point(v: &Vec<Point>, pt: Point) -> (r: bool)
    ensures
        r == v@.contains(pt),
{
    let mut k: usize = 0;
    while k < v.len()
        invariant
            0 <= k <= v@.len(),
            forall|m: int| 0 <= m < k ==> v@[m] != pt,
        decreases v@.len() - k,
    {
        let p = v[k];
        if p.coord.0 == pt.coord.0 && p.coord.1 == pt.coord.1 && p.color == pt.color {
            assert(v@[k as int] == pt);
            return true;
        }
        k += 1;
    }
    false
}

impl Goban {
    /// The regions of the points of `stones` (see `get_group_from_point`), in order, each
    /// region once.
    pub fn get_chains_from_stones(&self, stones: &[Point]) -> (r: Vec<Vec<Point>>)
        requires
            self@.wf(),
            forall|i: int| 0 <= i < stones@.len() ==> crate::pieces::util::coord::spec_coord_valid(self@.size, #[trigger] stones@[i].coord)
                && self@.pos()[crate::pieces::util::coord::spec_idx(self@.size, stones@[i].coord)] == stones@[i].color,
        ensures
            r@.len() == regions_upto(self@, stones@, stones@.len() as int).len(),
            forall|k: int| 0 <= k < r@.len() ==> (#[trigger] r@[k])@.no_duplicates() && r@[k]@.to_set() == regions_upto(
                self@, stones@, stones@.len() as int)[k],
    {
        let ghost v = self@;
        let mut groups: Vec<Vec<Point>> = Vec::new();
        let mut i: usize = 0;
        while i < stones.len()
            invariant
                v == self@,
                v.wf(),
                0 <= i <= stones@.len(),
                forall|j: int| 0 <= j < stones@.len() ==> crate::pieces::util::coord::spec_coord_valid(v.size, #[trigger] stones@[j].coord)
                    && v.pos()[crate::pieces::util::coord::spec_idx(v.size, stones@[j].coord)] == stones@[j].color,
                groups@.len() == regions_upto(v, stones@, i as int).len(),
                forall|k: int| 0 <= k < groups@.len() ==> (#[trigger] groups@[k])@.no_duplicates() && groups@[k]@.to_set() == regions_upto(
                    v, stones@, i as int)[k],
            decreases stones@.len() - i,
        {
            let s = stones[i];
            let ghost prev = regions_upto(v, stones@, i as int);
            let mut handled = false;
            let mut k: usize = 0;
            while k < groups.len()
                invariant
                    0 <= k <= groups@.len(),
                    groups@.len() == prev.len(),
                    forall|m: int| 0 <= m < groups@.len() ==> (#[trigger] groups@[m])@.to_set() == prev[m],
                    handled == exists|m: int| 0 <= m < k && #[trigger] prev[m].contains(s),
                decreases groups@.len() - k,
            {
                if holds_point(&groups[k], s) {
                    proof {
                        assert(groups@[k as int]@.to_set().contains(s));
                        assert(prev[k as int].contains(s));
                    }
                    handled = true;
                } else {
                    proof {
                        assert(!groups@[k as int]@.to_set().contains(s));
                    }
                }
                k += 1;
            }
            if !handled {
                let g = self.get_group_from_point(s);
                proof {
                    assert(g@.to_set() =~= region_of(v, s));
                }
                groups.push(g);
            }
            i += 1;
            proof {
                assert(stones@[i - 1] == s);
            }
        }
        groups
    }
}

} // verus!
