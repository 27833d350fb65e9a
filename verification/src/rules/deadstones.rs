//! What random playouts of a game need: the moves to consider, when a game is final, who
//! won, and the choice of a random move.

use vstd::prelude::*;
use rand::seq::SliceRandom;
use crate::pieces::stones::{Color, Stone};
use crate::pieces::util::coord::Coord;
use crate::pieces::connections::{idx4_get, idx4_items, idx4_len};
use crate::pieces::goban::{coord_of, Goban, GobanView};
use crate::rules::game::{empties_upto, lemma_coord_of, lemma_empties_open, legals_upto, outcome_spec, point_error, eye_spec, Game, GameView};
use crate::rules::{rule_illegal, winner_of, EndGame, IllegalRules, Move, FILLEYE_BIT};

verus! {

broadcast use vstd::seq_lib::group_to_multiset_ensures;

/// The playout policy: random moves that are legal and fill no eye of the player, until
/// the game is over.
pub struct PL;

/// A stone of the color to play at `c` is legal under the game's rule and fills no eye of
/// that color.
pub open spec fn good_point(g: GameView, c: Coord) -> bool {
    point_error(g, c, rule_illegal(g.rule)) is None && !eye_spec(g.goban, c, g.turn)
}

/// The move that puts a stone at `c`.
pub open spec fn play_at(c: Coord) -> Move {
    Move::Play(c.0, c.1)
}

/// Shuffles points in place with the thread's random generator
/// (`rand::seq::SliceRandom::shuffle`, which only swaps elements): the points stay the
/// same, in some order.
#[verifier::external_body]
fn shuffle_points(v: &mut Vec<Coord>)
    ensures
        final(v)@.to_multiset() == old(v)@.to_multiset(),
{
    v.shuffle(&mut rand::rng());
}

/// Point `j` is an eye for black or for white.
pub open spec fn eye_point(v: GobanView, j: int) -> bool {
    eye_spec(v, coord_of(v.size, j), Color::Black) || eye_spec(v, coord_of(v.size, j), Color::White)
}

/// The eyes, for either color, among the first `n` board indices that chain `c` touches.
pub open spec fn eyes_upto(v: GobanView, c: int, n: int) -> int
    decreases n,
{
    if n <= 0 {
        0
    } else {
        eyes_upto(v, c, n - 1) + if eye_point(v, n - 1) && v.touches(c, n - 1) {
            1int
        } else {
            0int
        }
    }
}

/// The number of eyes, for either color, next to chain `c`.
pub open spec fn eyes_next_to(g: GameView, c: int) -> int {
    eyes_upto(g.goban, c, g.goban.area())
}

/// True when chain `c` occupies a neighbor of point `j`.
fn touches_chain(goban: &Goban, c: usize, j: usize) -> (r: bool)
    requires
        goban@.wf(),
        c < 65536,
        j < goban@.area(),
    ensures
        r == goban@.touches(c as int, j as int),
{
    proof {
        goban@.lemma_wf();
    }
    let conn = goban.get_connected_groups_idx(j);
    let ghost items = idx4_items(conn);
    let m = idx4_len(&conn);
    let mut found = false;
    let mut q: usize = 0;
    while q < m
        invariant
            items == idx4_items(conn),
            m == items.len(),
            0 <= q <= m,
            found == exists|p: int| 0 <= p < q && items[p] == c,
        decreases m - q,
    {
        if idx4_get(&conn, q) == c {
            found = true;
        }
        q += 1;
    }
    proof {
        if items.contains(c) {
            let p = choose|p: int| 0 <= p < items.len() && items[p] == c;
            assert(0 <= p < q && items[p] == c);
        }
        if found {
            let p = choose|p: int| 0 <= p < q && items[p] == c;
            assert(items.contains(items[p]));
        }
    }
    found
}

/// Chain `c` of `start` lost a stone in `end`: one of its points holds no stone of its
/// color any more.
pub open spec fn chain_changed(start: GobanView, end: GobanView, c: int) -> bool {
    exists|k: int| 0 <= k < start.members[c].len() && end.pos()[#[trigger] start.members[c][k]] != Some(start.chain(c).color)
}

/// The chains among the first `n` of `chains` that lost a stone from `start` to `end`, in
/// their order.
pub open spec fn changed_upto(start: GobanView, end: GobanView, chains: Seq<usize>, n: int) -> Seq<usize>
    decreases n,
{
    if n <= 0 {
        Seq::empty()
    } else {
        let prev = changed_upto(start, end, chains, n - 1);
        if chain_changed(start, end, chains[n - 1] as int) {
            prev.push(chains[n - 1])
        } else {
            prev
        }
    }
}

/// The chains of `chains` (slots of chains of `start`) that lost a stone on the goban `end`
/// of the same size, in their order: the chains that a game played on from `start` to
/// `end` killed.
pub fn chains_changed(start: &Goban, end: &Goban, chains: &[usize]) -> (r: Vec<usize>)
    requires
        start@.wf(),
        end@.wf(),
        end@.size == start@.size,
        forall|k: int| 0 <= k < chains@.len() ==> start@.chain_live(#[trigger] chains@[k] as int),
    ensures
        r@ == changed_upto(start@, end@, chains@, chains@.len() as int),
{
    let ghost v = start@;
    let mut res: Vec<usize> = Vec::new();
    let mut j: usize = 0;
    while j < chains.len()
        invariant
            v == start@,
            v.wf(),
            end@.wf(),
            end@.size == v.size,
            forall|k: int| 0 <= k < chains@.len() ==> v.chain_live(#[trigger] chains@[k] as int),
            0 <= j <= chains@.len(),
            res@ == changed_upto(v, end@, chains@, j as int),
        decreases chains@.len() - j,
    {
        let idx = chains[j];
        assert(v.chain_live(chains@[j as int] as int));
        proof {
            assert(v.struct_ok());
            assert(v.chain_list_ok(idx as int));
        }
        let stones = start.chain_stones(idx);
        let ghost l = v.members[idx as int];
        let ghost color = v.chain(idx as int).color;
        let mut gone = false;
        let mut k: usize = 0;
        while k < stones.len()
            invariant
                v == start@,
                v.wf(),
                end@.wf(),
                end@.size == v.size,
                l == v.members[idx as int],
                forall|m: int| 0 <= m < l.len() ==> 0 <= #[trigger] l[m] < crate::pieces::geometry::area(v.size),
                stones@ == l.map_values(|i: int| Stone { coord: coord_of(v.size, i), color: color }),
                0 <= k <= stones@.len(),
                gone == exists|m: int| 0 <= m < k && end@.pos()[#[trigger] l[m]] != Some(color),
            decreases stones@.len() - k,
        {
            let st = stones[k];
            proof {
                assert(0 <= l[k as int] < crate::pieces::geometry::area(v.size));
                lemma_coord_of(v, l[k as int]);
            }
            let here = end.get_color(st.coord);
            let lost = match here {
                Some(c) => c != st.color,
                None => true,
            };
            if lost {
                gone = true;
            }
            proof {
                assert(here == end@.pos()[l[k as int]]);
                assert(lost == (end@.pos()[l[k as int]] != Some(color)));
            }
            k += 1;
        }
        assert(gone == chain_changed(v, end@, idx as int));
        if gone {
            res.push(idx);
        }
        j += 1;
    }
    res
}

impl Game {
    /// The chains, by slot, that have fewer than two eyes (of either color) next to them:
    /// those that cannot be sure to live.
    pub fn get_floating_stones(&self) -> (r: Vec<usize>)
        requires
            self@.wf(),
        ensures
            r@.no_duplicates(),
            forall|c: usize| #[trigger] r@.contains(c) <==> (self@.goban.chain_live(c as int) && eyes_next_to(self@, c as int) < 2),
    {
        let goban = self.goban();
        let ghost v = goban@;
        proof {
            v.lemma_wf();
        }
        let size = goban.size();
        let n = size.0 as usize * size.1 as usize;
        let mut eyes: Vec<bool> = Vec::new();
        let mut j: usize = 0;
        while j < n
            invariant
                v == self@.goban,
                self@.wf(),
                size == v.size,
                n == v.area(),
                n <= 361,
                0 <= j <= n,
                eyes@.len() == j,
                forall|k: int| 0 <= k < j ==> eyes@[k] == eye_point(v, k),
            decreases n - j,
        {
            proof {
                crate::pieces::geometry::lemma_idx_inv(v.size, j as int);
                lemma_coord_of(v, j as int);
            }
            let c = crate::pieces::util::coord::one_to_2dim(size, j);
            let e = self.check_eye(Stone { coord: c, color: Color::Black }) || self.check_eye(Stone { coord: c, color: Color::White });
            eyes.push(e);
            j += 1;
        }
        let chains = goban.chains();
        let mut res: Vec<usize> = Vec::new();
        let mut c: usize = 0;
        while c < chains.len()
            invariant
                v == goban@,
                v.wf(),
                chains@ == v.chains,
                v.chains.len() <= 361,
                n == v.area(),
                n <= 361,
                eyes@.len() == n,
                forall|k: int| 0 <= k < n ==> eyes@[k] == eye_point(v, k),
                0 <= c <= chains@.len(),
                res@.no_duplicates(),
                forall|t: usize| #[trigger] res@.contains(t) <==> (t < c && v.chain_live(t as int) && eyes_upto(v, t as int, n as int) < 2),
            decreases chains@.len() - c,
        {
            let ghost before = res@;
            let ghost keep = v.chain_live(c as int) && eyes_upto(v, c as int, n as int) < 2;
            if chains[c].is_some() {
                let mut count: usize = 0;
                let mut k: usize = 0;
                while k < n
                    invariant
                        v == goban@,
                        v.wf(),
                        c < 361,
                        n == v.area(),
                        n <= 361,
                        eyes@.len() == n,
                        forall|k: int| 0 <= k < n ==> eyes@[k] == eye_point(v, k),
                        0 <= k <= n,
                        count == eyes_upto(v, c as int, k as int),
                        count <= k,
                    decreases n - k,
                {
                    if eyes[k] && touches_chain(goban, c, k) {
                        count += 1;
                    }
                    k += 1;
                }
                if count < 2 {
                    res.push(c);
                }
                assert(res@ == if keep { before.push(c) } else { before });
            } else {
                assert(!keep);
            }
            proof {
                assert(!before.contains(c));
                assert forall|t: usize| #[trigger] res@.contains(t) <==> (t < c + 1 && v.chain_live(t as int) && eyes_upto(v, t as int, n as int) < 2) by {
                    assert(before.contains(t) <==> (t < c && v.chain_live(t as int) && eyes_upto(v, t as int, n as int) < 2));
                    if !keep {
                        assert(res@ == before);
                        if t == c {
                            assert(!res@.contains(t));
                        }
                    } else {
                        if t == c {
                            assert(res@[res@.len() - 1] == c);
                        } else if res@.contains(t) {
                            let p = choose|p: int| 0 <= p < res@.len() && res@[p] == t;
                            assert(before[p] == t);
                        } else if t < c && v.chain_live(t as int) && eyes_upto(v, t as int, n as int) < 2 {
                            assert(before.contains(t));
                            let p = choose|p: int| 0 <= p < before.len() && before[p] == t;
                            assert(res@[p] == t);
                        }
                    }
                }
            }
            c += 1;
        }
        res
    }

    /// The moves that a playout considers: the legal points, filling one's own eye counted
    /// as illegal; a pass when there is none.
    pub fn legals_moves(&self) -> (r: Vec<Move>)
        requires
            self@.wf(),
        ensures
            ({
                let pts = legals_upto(self@, rule_illegal(self@.rule) | FILLEYE_BIT, self@.goban.area());
                if pts.len() == 0 {
                    r@ == seq![Move::Pass]
                } else {
                    r@ == pts.map_values(|c: Coord| play_at(c))
                }
            }),
    {
        let pts = self.legals_by(self.rule().illegal_flag().union(IllegalRules::filleye()));
        let mut moves: Vec<Move> = Vec::new();
        let mut k: usize = 0;
        while k < pts.len()
            invariant
                0 <= k <= pts@.len(),
                moves@ == pts@.map_values(|c: Coord| play_at(c)).take(k as int),
            decreases pts@.len() - k,
        {
            let c = pts[k];
            moves.push(Move::Play(c.0, c.1));
            k += 1;
            proof {
                assert(moves@ =~= pts@.map_values(|c: Coord| play_at(c)).take(k as int));
            }
        }
        proof {
            assert(pts@.map_values(|c: Coord| play_at(c)).take(pts@.len() as int) =~= pts@.map_values(|c: Coord| play_at(c)));
        }
        if moves.len() == 0 {
            moves.push(Move::Pass);
            proof {
                assert(moves@ =~= seq![Move::Pass]);
            }
        }
        moves
    }

    /// True when the players passed twice in a row.
    pub fn is_final(&self) -> (r: bool)
        ensures
            r == (self@.passes >= 2),
    {
        self.passes() >= 2
    }

    /// The winner of a finished game that is no draw.
    pub fn get_winner(&self) -> (r: Color)
        requires
            self@.wf(),
            outcome_spec(self@) is Some,
            !(outcome_spec(self@) matches Some(EndGame::Draw)),
        ensures
            Some(r) == winner_of(outcome_spec(self@).unwrap()),
    {
        let o = self.outcome();
        match o {
            Some(e) => match e.get_winner() {
                Some(c) => c,
                None => {
                    proof {
                        assert(false);
                    }
                    Color::Black
                },
            },
            None => {
                proof {
                    assert(false);
                }
                Color::Black
            },
        }
    }
}

impl PL {
    /// The first of `candidates` where a stone of the color to play is legal and fills no
    /// eye of that color, as a move; a pass when there is none.
    pub fn first_playable(state: &Game, candidates: &[Coord]) -> (r: Move)
        requires
            state@.wf(),
            forall|k: int| 0 <= k < candidates@.len() ==> state@.open_point(#[trigger] candidates@[k]),
        ensures
            r is Pass ==> forall|k: int| 0 <= k < candidates@.len() ==> !good_point(state@, #[trigger] candidates@[k]),
            r is Play ==> exists|k: int| 0 <= k < candidates@.len() && r == play_at(#[trigger] candidates@[k]) && good_point(state@, candidates@[k])
                && forall|j: int| 0 <= j < k ==> !good_point(state@, #[trigger] candidates@[j]),
            !(r is Resign),
    {
        let color = state.turn();
        let mut k: usize = 0;
        while k < candidates.len()
            invariant
                0 <= k <= candidates@.len(),
                state@.wf(),
                color == state@.turn,
                forall|i: int| 0 <= i < candidates@.len() ==> state@.open_point(#[trigger] candidates@[i]),
                forall|j: int| 0 <= j < k ==> !good_point(state@, #[trigger] candidates@[j]),
            decreases candidates@.len() - k,
        {
            let c = candidates[k];
            assert(state@.open_point(candidates@[k as int]));
            if state.check_point(c).is_none() {
                if !state.check_eye(Stone { coord: c, color }) {
                    assert(good_point(state@, candidates@[k as int]));
                    return Move::Play(c.0, c.1);
                }
            }
            k += 1;
        }
        Move::Pass
    }

    /// A random move for a playout: a random empty point where a stone of the color to
    /// play is legal and fills no eye of that color, or a pass when there is none.
    pub fn fast_play_random(state: &Game) -> (r: Move)
        requires
            state@.wf(),
        ensures
            r matches Move::Play(x, y) ==> state@.open_point((x, y)) && good_point(state@, (x, y)),
            r is Pass ==> forall|c: Coord| #[trigger] empties_upto(state@.goban, state@.goban.area()).contains(c) ==> !good_point(state@, c),
            !(r is Resign),
    {
        let mut v = state.pseudo_legals();
        let ghost before = v@;
        proof {
            lemma_empties_open(state@, state@.goban.area());
        }
        shuffle_points(&mut v);
        proof {
            assert forall|k: int| 0 <= k < v@.len() implies state@.open_point(#[trigger] v@[k]) by {
                assert(v@.contains(v@[k]));
                assert(v@.to_multiset().count(v@[k]) > 0);
                assert(before.contains(v@[k]));
            }
        }
        let r = PL::first_playable(state, &v);
        proof {
            assert forall|c: Coord| #[trigger] before.contains(c) implies (r is Pass ==> !good_point(state@, c)) by {
                assert(before.to_multiset().count(c) > 0);
                assert(v@.contains(c));
                if r is Pass {
                    let k = choose|k: int| 0 <= k < v@.len() && v@[k] == c;
                    assert(!good_point(state@, v@[k]));
                }
            }
        }
        r
    }
}

} // verus!
