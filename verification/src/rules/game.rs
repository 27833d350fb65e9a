//! The game of go: turns, captures, prisoners, ko and legality of moves.

use vstd::prelude::*;
use crate::pieces::chain::{lib_count, lib_has, Chain};
use crate::pieces::connections::{idx4_get, idx4_items, idx4_len};
use crate::pieces::geometry::{area, lemma_area, lemma_idx, nb_list};
use crate::pieces::goban::{
    after_capture, captured_by, chain_points, coord_of, dead_list, empty_neighbors, is_self_capture, joined_group, lost, play_ko, play_pos,
    pos_hash, push_links, captured_pos, ko_after, self_captured, without, in_list, Goban, GobanView,
};
use crate::pieces::stones::{Color, Stone};
use crate::pieces::util::coord::{spec_coord_valid, spec_idx, two_to_1dim, Coord, Size};
use crate::rules::hashes::{hashes_clone, hashes_contains, hashes_insert, hashes_len, hashes_new, hashes_of, PositionHashes};
use crate::rules::{
    rule_illegal, rule_komi, rule_score, size_of, EndGame, GobanSizes, IllegalRules, Move, PlayError, Rule, ScoreRules, FILLEYE_BIT, KO_BIT, KOMI_BIT,
    PRISONNERS_BIT, STONES_BIT, SUICIDE_BIT, SUPERKO_BIT,
};
use crate::pieces::territory::territory_count;
use crate::pieces::goban::count_color;

verus! {

/// A game of go: the goban, whose turn it is, passes, prisoners, ko and the positions
/// already seen.
pub struct Game {
    goban: Goban,
    passes: u8,
    prisoners: (u32, u32),
    outcome: Option<EndGame>,
    turn: Color,
    komi: i32,
    rule: Rule,
    handicap: u8,
    last_hash: u64,
    hashes: PositionHashes,
    ko_point: Option<Coord>,
}

/// The content of a game as mathematical values.
pub ghost struct GameView {
    pub goban: GobanView,
    pub passes: u8,
    pub prisoners: (u32, u32),
    pub outcome: Option<EndGame>,
    pub turn: Color,
    pub komi: i32,
    pub rule: Rule,
    pub handicap: u8,
    pub last_hash: u64,
    pub hashes: Set<u64>,
    pub ko_point: Option<Coord>,
}

impl View for Game {
    type V = GameView;

    closed spec fn view(&self) -> GameView {
        GameView {
            goban: self.goban@,
            passes: self.passes,
            prisoners: self.prisoners,
            outcome: self.outcome,
            turn: self.turn,
            komi: self.komi,
            rule: self.rule,
            handicap: self.handicap,
            last_hash: self.last_hash,
            hashes: hashes_of(self.hashes),
            ko_point: self.ko_point,
        }
    }
}

/// True when the flag `bit` is up in `rules`.
pub open spec fn has_flag(rules: u32, bit: u32) -> bool {
    rules & bit == bit
}

impl GameView {
    /// A game is well formed when its goban is, and it has not seen more than two passes in
    /// a row.
    pub open spec fn wf(self) -> bool {
        self.goban.wf() && self.passes <= 2
    }

    /// True when the rule lets a player take his own chain's life.
    pub open spec fn suicide_allowed(self) -> bool {
        !has_flag(rule_illegal(self.rule), SUICIDE_BIT)
    }

    /// The board index of a coordinate.
    pub open spec fn idx(self, c: Coord) -> int {
        spec_idx(self.goban.size, c)
    }

    /// True when a stone can be put at `c`: the point is on the goban and empty.
    pub open spec fn open_point(self, c: Coord) -> bool {
        spec_coord_valid(self.goban.size, c) && self.goban.pos()[self.idx(c)] is None
    }
}

/// A stone of `color` at `p` would have no empty neighbor, and would neither join a chain of
/// its color that has more than one liberty nor capture a chain in atari.
pub open spec fn suicide_spec(v: GobanView, p: int, color: Color) -> bool {
    &&& empty_neighbors(v.pos(), v.size, p, nb_list(v.size, p).len() as int).len() == 0
    &&& !exists|c: int| #[trigger] v.touches(c, p) && 0 <= c < 65536 && v.chain_live(c) && (if v.chain(c).color == color {
        lib_count(v.chain(c).liberties) != 1
    } else {
        lib_count(v.chain(c).liberties) == 1
    })
}

/// A stone of `color` at `p` would capture: a chain of the other color next to `p` is in
/// atari.
pub open spec fn capture_spec(v: GobanView, p: int, color: Color) -> bool {
    exists|c: int| #[trigger] v.touches(c, p) && 0 <= c < 65536 && v.chain_live(c) && v.chain(c).color != color && lib_count(v.chain(c).liberties) == 1
}

/// The moves that `play` takes in a game: a pass while fewer than two passes were made in a
/// row, a stone on an open point while the prisoners' counts have room, and any resignation.
pub open spec fn playable(g: GameView, m: Move) -> bool {
    &&& g.wf()
    &&& (m is Pass ==> g.passes < 2)
    &&& (m matches Move::Play(x, y) ==> g.open_point((x, y)))
    &&& (m is Play ==> g.prisoners.0 <= u32::MAX - 361 && g.prisoners.1 <= u32::MAX - 361)
}

/// The stone on `p` is a chain of its own with a single liberty.
pub open spec fn lone_in_atari(v: GobanView, p: int) -> bool {
    &&& v.board[p] is Some
    &&& v.chain(v.board[p].unwrap() as int).num_stones == 1
    &&& lib_count(v.chain(v.board[p].unwrap() as int).liberties) == 1
}

/// `g1` is `g0` after move `m`: a pass clears the ko point; a stone leaves a ko point
/// only where it captured a single stone alone and stands alone in atari.
pub open spec fn played(g0: GameView, g1: GameView, m: Move) -> bool {
    &&& g1.wf()
    &&& g1.komi == g0.komi
    &&& g1.rule == g0.rule
    &&& g1.handicap == g0.handicap
    &&& g1.goban.size == g0.goban.size
    &&& match m {
        Move::Pass => {
            &&& g1.goban == g0.goban
            &&& g1.turn == g0.turn.spec_opposite()
            &&& g1.passes == g0.passes + 1
            &&& g1.prisoners == g0.prisoners
            &&& g1.outcome == g0.outcome
            &&& g1.last_hash == g0.last_hash
            &&& g1.hashes == g0.hashes
            &&& g1.ko_point is None
        },
        Move::Resign(c) => {
            &&& g1.goban == g0.goban
            &&& g1.turn == g0.turn
            &&& g1.passes == g0.passes
            &&& g1.prisoners == g0.prisoners
            &&& g1.outcome == Some(EndGame::WinnerByResign(c))
            &&& g1.last_hash == g0.last_hash
            &&& g1.hashes == g0.hashes
            &&& g1.ko_point == g0.ko_point
        },
        Move::Play(x, y) => {
            let p = g0.idx((x, y));
            let color = g0.turn;
            let before = g0.goban.pos().update(p, Some(color));
            &&& g1.goban.pos() == play_pos(g0.goban, p, color, g0.suicide_allowed())
            &&& g1.prisoners.0 == g0.prisoners.0 + lost(before, g1.goban.pos(), Color::White).len()
            &&& g1.prisoners.1 == g0.prisoners.1 + lost(before, g1.goban.pos(), Color::Black).len()
            &&& g1.ko_point == (if lone_in_atari(g1.goban, p) {
                play_ko(g0.goban, p, color, g0.suicide_allowed())
            } else {
                None
            })
            &&& g1.turn == g0.turn.spec_opposite()
            &&& g1.passes == 0
            &&& g1.outcome == g0.outcome
            &&& g1.last_hash == g0.goban.hash
            &&& g1.hashes == g0.hashes.insert(g0.goban.hash)
        },
    }
}

/// The push and the captures of a move, told in terms of the goban before the move.
proof fn lemma_play_result(v0: GobanView, vp: GobanView, vf: GobanView, p: int, color: Color, dead: Seq<usize>, r: int, suicide_allowed: bool)
    requires
        v0.wf(),
        0 <= p < v0.area(),
        v0.pos()[p] is None,
        vp.wf(),
        vp.size == v0.size,
        vp.pos() == v0.pos().update(p, Some(color)),
        vp.chain_of(p) == Some(r as u16),
        vp.chain_live(r),
        dead_list(vp, p, color, dead),
        push_links(v0, vp, p, color, dead, r),
        vf.pos() == captured_pos(vp, dead, r, suicide_allowed),
    ensures
        vf.pos() == play_pos(v0, p, color, suicide_allowed),
        ko_after(vp, dead, r, suicide_allowed) == play_ko(v0, p, color, suicide_allowed),
{
    lemma_area(v0.size);
    v0.lemma_wf();
    vp.lemma_wf();
    // the captured chains are those of `dead`
    assert forall|k: int| 0 <= k < dead.len() implies #[trigger] captured_by(v0, p, color, dead[k] as int) by {
        assert(vp.chain_live(dead[k] as int));
        assert(dead.contains(dead[k]));
        assert((dead[k] as int) < 65536) by {
            assert(vp.struct_ok());
        }
    }
    assert(!dead.contains(r as usize)) by {
        if dead.contains(r as usize) {
            let k = choose|k: int| 0 <= k < dead.len() && dead[k] == r as usize;
            assert(vp.chain(dead[k] as int).color != color);
            assert(vp.board_entry_ok(p));
        }
    }
    assert forall|i: int| 0 <= i < 361 implies #[trigger] without(vp, dead)[i] == after_capture(v0, p, color)[i] by {
        if i == p {
            assert(vp.board[p] == Some(r as u16));
            assert(!in_list(vp.board[p], dead));
        } else {
            if v0.board[i] is Some && captured_by(v0, p, color, v0.board[i].unwrap() as int) {
                let c = v0.board[i].unwrap() as int;
                assert(vp.board[i] == Some(c as u16));
                assert(dead.contains(c as usize));
            } else {
                if in_list(vp.board[i], dead) {
                    let c = vp.board[i].unwrap() as int;
                    assert(dead.contains(c as usize));
                    assert(captured_by(v0, p, color, c));
                    assert(v0.board[i] == Some(c as u16));
                    assert(false);
                }
                assert(vp.pos()[i] == v0.pos()[i]);
            }
        }
    }
    assert(without(vp, dead) =~= after_capture(v0, p, color));
    assert(self_captured(vp, dead, r, suicide_allowed) == is_self_capture(v0, p, color, suicide_allowed));
    if is_self_capture(v0, p, color, suicide_allowed) {
        assert forall|i: int| 0 <= i < 361 implies (vp.board[i] == Some(r as u16)) == joined_group(v0, p, color).contains(i) by {
            assert(chain_points(vp, r).contains(i) == joined_group(v0, p, color).contains(i));
        }
        assert(captured_pos(vp, dead, r, suicide_allowed) =~= play_pos(v0, p, color, suicide_allowed));
    }
    // ko
    if !is_self_capture(v0, p, color, suicide_allowed) {
        if dead.len() == 1 && vp.chain(dead[0] as int).num_stones == 1 {
            let c = dead[0] as int;
            assert(captured_by(v0, p, color, c));
            assert(same_but_libs_num(v0, vp, c));
            assert forall|c2: int| #[trigger] captured_by(v0, p, color, c2) implies c2 == c by {
                assert(v0.chain_live(c2));
                assert(c2 < 65536) by {
                    assert(v0.struct_ok());
                }
                assert(dead.contains(c2 as usize));
                let k = choose|k: int| 0 <= k < dead.len() && dead[k] == c2 as usize;
            }
            assert(exists|c: int| #[trigger] captured_by(v0, p, color, c) && v0.chain(c).num_stones == 1 && (forall|c2: int| #[trigger] captured_by(v0, p, color, c2) ==> c2 == c));
            let cc = choose|c: int| #[trigger] captured_by(v0, p, color, c) && v0.chain(c).num_stones == 1 && (forall|c2: int| #[trigger] captured_by(v0, p, color, c2) ==> c2 == c);
            assert(cc == c);
        } else {
            if exists|c: int| #[trigger] captured_by(v0, p, color, c) && v0.chain(c).num_stones == 1 && (forall|c2: int| #[trigger] captured_by(v0, p, color, c2) ==> c2 == c) {
                let c = choose|c: int| #[trigger] captured_by(v0, p, color, c) && v0.chain(c).num_stones == 1 && (forall|c2: int| #[trigger] captured_by(v0, p, color, c2) ==> c2 == c);
                assert(v0.chain_live(c));
                assert(c < 65536) by {
                    assert(v0.struct_ok());
                }
                assert(dead.contains(c as usize));
                let k = choose|k: int| 0 <= k < dead.len() && dead[k] == c as usize;
                assert forall|m: int| 0 <= m < dead.len() implies dead[m] == c as usize by {
                    assert(captured_by(v0, p, color, dead[m] as int));
                }
                if dead.len() > 1 {
                    assert(dead[0] == dead[1]);
                }
                assert(dead.len() == 1);
                assert(same_but_libs_num(v0, vp, c));
            }
        }
    }
}

/// A captured chain keeps its number of stones and origin through the push.
pub open spec fn same_but_libs_num(v0: GobanView, vp: GobanView, c: int) -> bool {
    vp.chain(c).num_stones == v0.chain(c).num_stones && vp.chain(c).origin == v0.chain(c).origin
}

/// The four diagonal neighbors of a coordinate (a row or column 0 wraps to 255).
pub open spec fn corner_list(c: Coord) -> Seq<Coord> {
    seq![
        ((c.0 + 1) as u8, (c.1 + 1) as u8),
        (c.0.wrapping_sub(1), c.1.wrapping_sub(1)),
        ((c.0 + 1) as u8, c.1.wrapping_sub(1)),
        (c.0.wrapping_sub(1), (c.1 + 1) as u8),
    ]
}

/// Among the first `k` diagonal neighbors of `c`: those that hold a stone of `color`, and
/// those off the goban.
pub open spec fn corner_count(v: GobanView, c: Coord, color: Color, k: int) -> (int, int)
    decreases k,
{
    if k <= 0 {
        (0, 0)
    } else {
        let prev = corner_count(v, c, color, k - 1);
        let q = corner_list(c)[k - 1];
        if spec_coord_valid(v.size, q) {
            (if v.pos()[spec_idx(v.size, q)] == Some(color) {
                prev.0 + 1
            } else {
                prev.0
            }, prev.1)
        } else {
            (prev.0, prev.1 + 1)
        }
    }
}

/// Every neighbor of point `i` holds a stone of `color`.
pub open spec fn surrounded(v: GobanView, i: int, color: Color) -> bool {
    forall|k: int| 0 <= k < nb_list(v.size, i).len() ==> v.pos()[#[trigger] nb_list(v.size, i)[k] as int] == Some(color)
}

/// The diagonal neighbors of `c` that are friendly to `color`: off the goban, or holding a
/// stone of `color`.
pub open spec fn friendly_corners(v: GobanView, c: Coord, color: Color) -> int {
    corner_count(v, c, color, 4).0 + corner_count(v, c, color, 4).1
}

/// `q` is an empty point of the goban.
pub open spec fn open_spot(v: GobanView, q: Coord) -> bool {
    spec_coord_valid(v.size, q) && v.pos()[spec_idx(v.size, q)] is None
}

/// A half eye of `color`: an empty point of the goban surrounded by `color` with two or three
/// friendly diagonal neighbors.
pub open spec fn half_eye(v: GobanView, q: Coord, color: Color) -> bool {
    open_spot(v, q) && surrounded(v, spec_idx(v.size, q), color) && 2 <= friendly_corners(v, q, color) <= 3
}

/// The eye test: `c` is an empty point surrounded by `color`, and either its four diagonal
/// neighbors are friendly, or two or three of them are and one diagonal neighbor is a half
/// eye of `color` while every empty diagonal neighbor listed before it is surrounded by
/// `color`. A heuristic that misses some eye shapes.
pub open spec fn eye_spec(v: GobanView, c: Coord, color: Color) -> bool {
    let i = spec_idx(v.size, c);
    let f = friendly_corners(v, c, color);
    &&& v.pos()[i] is None
    &&& surrounded(v, i, color)
    &&& (f == 4 || (2 <= f <= 3 && exists|m: int|
        0 <= m < 4 && #[trigger] half_eye(v, corner_list(c)[m], color) && forall|j: int|
            0 <= j < m && open_spot(v, #[trigger] corner_list(c)[j]) ==> surrounded(v, spec_idx(v.size, corner_list(c)[j]), color)))
}

/// The scan of the diagonal neighbors of an eye candidate from the `k`-th on: the first
/// empty one decides; it makes an eye when it is a half eye.
spec fn eye_scan(v: GobanView, c: Coord, color: Color, k: int) -> bool
    decreases 4 - k,
{
    if k >= 4 || k < 0 {
        false
    } else {
        let q = corner_list(c)[k];
        if open_spot(v, q) {
            if !surrounded(v, spec_idx(v.size, q), color) {
                false
            } else if half_eye(v, q, color) {
                true
            } else {
                eye_scan(v, c, color, k + 1)
            }
        } else {
            eye_scan(v, c, color, k + 1)
        }
    }
}

/// The scan from the `k`-th diagonal neighbor finds an eye exactly when a later one is a
/// half eye and every empty one between is surrounded.
proof fn lemma_eye_scan(v: GobanView, c: Coord, color: Color, k: int)
    requires
        0 <= k <= 4,
    ensures
        eye_scan(v, c, color, k) <==> exists|m: int|
            k <= m < 4 && #[trigger] half_eye(v, corner_list(c)[m], color) && forall|j: int|
                k <= j < m && open_spot(v, #[trigger] corner_list(c)[j]) ==> surrounded(v, spec_idx(v.size, corner_list(c)[j]), color),
    decreases 4 - k,
{
    if k < 4 {
        lemma_eye_scan(v, c, color, k + 1);
        let q = corner_list(c)[k];
        if eye_scan(v, c, color, k) {
            if half_eye(v, q, color) && open_spot(v, q) && surrounded(v, spec_idx(v.size, q), color) {
                assert(half_eye(v, corner_list(c)[k], color));
            } else {
                let m = choose|m: int|
                    k + 1 <= m < 4 && #[trigger] half_eye(v, corner_list(c)[m], color) && forall|j: int|
                        k + 1 <= j < m && open_spot(v, #[trigger] corner_list(c)[j]) ==> surrounded(v, spec_idx(v.size, corner_list(c)[j]), color);
                assert(half_eye(v, corner_list(c)[m], color));
            }
        } else {
            if exists|m: int|
                k <= m < 4 && #[trigger] half_eye(v, corner_list(c)[m], color) && forall|j: int|
                    k <= j < m && open_spot(v, #[trigger] corner_list(c)[j]) ==> surrounded(v, spec_idx(v.size, corner_list(c)[j]), color) {
                let m = choose|m: int|
                    k <= m < 4 && #[trigger] half_eye(v, corner_list(c)[m], color) && forall|j: int|
                        k <= j < m && open_spot(v, #[trigger] corner_list(c)[j]) ==> surrounded(v, spec_idx(v.size, corner_list(c)[j]), color);
                if m == k {
                    assert(half_eye(v, q, color));
                } else {
                    assert(open_spot(v, q) ==> surrounded(v, spec_idx(v.size, q), color));
                    assert(half_eye(v, corner_list(c)[m], color));
                    assert(false);
                }
            }
        }
    }
}

/// The super ko test: when a position was seen twice at least and the stone captures, it
/// is refused if it is a ko or if the position it makes was seen before.
pub open spec fn superko_spec(g: GameView, c: Coord) -> bool {
    let v = g.goban;
    let p = g.idx(c);
    if g.last_hash == 0 || g.hashes.len() <= 2 || !capture_spec(v, p, g.turn) {
        false
    } else {
        g.ko_point == Some(c) || g.hashes.contains(pos_hash(play_pos(v, p, g.turn, g.suicide_allowed()), 361))
    }
}

/// Why a stone of the color to play at `c` is refused under the flags `rules`, if it is.
pub open spec fn point_error(g: GameView, c: Coord, rules: u32) -> Option<PlayError> {
    let v = g.goban;
    let p = g.idx(c);
    if has_flag(rules, KO_BIT) && g.ko_point == Some(c) {
        Some(PlayError::Ko)
    } else if has_flag(rules, SUICIDE_BIT) && suicide_spec(v, p, g.turn) {
        Some(PlayError::Suicide)
    } else if has_flag(rules, FILLEYE_BIT) && eye_spec(v, c, g.turn) {
        Some(PlayError::FillEye)
    } else if has_flag(rules, SUPERKO_BIT) && superko_spec(g, c) {
        Some(PlayError::Ko)
    } else {
        None
    }
}

/// The empty points among the first `n` board indices, as coordinates, in index order.
pub open spec fn empties_upto(v: GobanView, n: int) -> Seq<Coord>
    decreases n,
{
    if n <= 0 {
        Seq::empty()
    } else {
        let prev = empties_upto(v, n - 1);
        if v.pos()[n - 1] is None {
            prev.push(coord_of(v.size, n - 1))
        } else {
            prev
        }
    }
}

/// The empty points among the first `n` board indices where the color to play may put a
/// stone under the flags `rules`, in index order.
pub open spec fn legals_upto(g: GameView, rules: u32, n: int) -> Seq<Coord>
    decreases n,
{
    if n <= 0 {
        Seq::empty()
    } else {
        let prev = legals_upto(g, rules, n - 1);
        if g.goban.pos()[n - 1] is None && point_error(g, coord_of(g.goban.size, n - 1), rules) is None {
            prev.push(coord_of(g.goban.size, n - 1))
        } else {
            prev
        }
    }
}

/// The points that `pseudo_legals` lists are open points.
pub proof fn lemma_empties_open(g: GameView, n: int)
    requires
        g.wf(),
        0 <= n <= g.goban.area(),
    ensures
        forall|k: int| 0 <= k < empties_upto(g.goban, n).len() ==> g.open_point(#[trigger] empties_upto(g.goban, n)[k]),
    decreases n,
{
    if n > 0 {
        lemma_empties_open(g, n - 1);
        lemma_coord_of(g.goban, n - 1);
        let prev = empties_upto(g.goban, n - 1);
        let c = coord_of(g.goban.size, n - 1);
        assert forall|k: int| 0 <= k < empties_upto(g.goban, n).len() implies g.open_point(#[trigger] empties_upto(g.goban, n)[k]) by {
            if k < prev.len() {
                assert(empties_upto(g.goban, n)[k] == prev[k]);
            } else {
                assert(empties_upto(g.goban, n)[k] == c);
            }
        }
    }
}

/// Each legal point is an open point where a stone meets none of the refusals of `rules`.
pub proof fn lemma_legals_open(g: GameView, rules: u32, n: int)
    requires
        g.wf(),
        0 <= n <= g.goban.area(),
    ensures
        forall|k: int| 0 <= k < legals_upto(g, rules, n).len() ==> g.open_point(#[trigger] legals_upto(g, rules, n)[k])
            && point_error(g, legals_upto(g, rules, n)[k], rules) is None,
    decreases n,
{
    if n > 0 {
        lemma_legals_open(g, rules, n - 1);
        lemma_coord_of(g.goban, n - 1);
        let prev = legals_upto(g, rules, n - 1);
        let c = coord_of(g.goban.size, n - 1);
        assert forall|k: int| 0 <= k < legals_upto(g, rules, n).len() implies g.open_point(#[trigger] legals_upto(g, rules, n)[k])
            && point_error(g, legals_upto(g, rules, n)[k], rules) is None by {
            if k < prev.len() {
                assert(legals_upto(g, rules, n)[k] == prev[k]);
            } else {
                assert(legals_upto(g, rules, n)[k] == c);
            }
        }
    }
}

/// Two passes in a row end the game: `is_over` holds after them, and the goban is the one
/// before them.
pub proof fn lemma_two_passes_end(g0: GameView, g1: GameView, g2: GameView)
    requires
        played(g0, g1, Move::Pass),
        played(g1, g2, Move::Pass),
    ensures
        g2.passes >= 2,
        over_spec(g2),
        g2.goban == g0.goban,
{
}

/// A single pass after a stone does not end a game that nobody resigned while the color
/// to play still has a legal point; nor does any position seen before two passes in a row.
pub proof fn lemma_one_pass_not_over(g0: GameView, g1: GameView, g2: GameView, x: u8, y: u8)
    requires
        g0.outcome is None,
        played(g0, g1, Move::Play(x, y)),
        played(g1, g2, Move::Pass),
        legals_upto(g2, rule_illegal(g2.rule), g2.goban.area()).len() > 0,
    ensures
        g2.passes == 1,
        !over_spec(g2),
        outcome_spec(g2) is None,
{
}

/// Without a resignation, fewer than two passes in a row and a legal point left, the game
/// goes on and has no outcome.
pub proof fn lemma_not_over(g: GameView)
    requires
        g.outcome is None,
        g.passes < 2,
        legals_upto(g, rule_illegal(g.rule), g.goban.area()).len() > 0,
    ensures
        !over_spec(g),
        outcome_spec(g) is None,
{
}

/// The prisoners' share of the scores (black, white): the scores counting only the
/// prisoners, less the scores counting nothing.
pub open spec fn prisoners_share(g: GameView) -> (int, int) {
    (score_spec(g, PRISONNERS_BIT).0 - score_spec(g, 0).0, score_spec(g, PRISONNERS_BIT).1 - score_spec(g, 0).1)
}

/// Under the prisoners' flag, a stone scores what it takes: the player who plays it gains
/// ten (a point) per stone of the other color that it takes off the goban, and the other
/// player gains ten per stone of the mover's color that leaves (the new stone included).
pub proof fn lemma_captures_scored(g0: GameView, g1: GameView, x: u8, y: u8)
    requires
        g0.wf(),
        g0.open_point((x, y)),
        played(g0, g1, Move::Play(x, y)),
    ensures
        ({
            let color = g0.turn;
            let p = g0.idx((x, y));
            let taken = 10 * lost(g0.goban.pos(), g1.goban.pos(), color.spec_opposite()).len();
            let given = 10 * lost(g0.goban.pos().update(p, Some(color)), g1.goban.pos(), color).len();
            if color == Color::Black {
                prisoners_share(g1).0 == prisoners_share(g0).0 + taken && prisoners_share(g1).1 == prisoners_share(g0).1 + given
            } else {
                prisoners_share(g1).1 == prisoners_share(g0).1 + taken && prisoners_share(g1).0 == prisoners_share(g0).0 + given
            }
        }),
{
    assert(4u32 & 4u32 == 4u32 && 4u32 & 1u32 != 1u32 && 4u32 & 2u32 != 2u32) by (bit_vector);
    assert(0u32 & 4u32 != 4u32 && 0u32 & 1u32 != 1u32 && 0u32 & 2u32 != 2u32) by (bit_vector);
    assert(prisoners_share(g0) == (10 * g0.prisoners.0, 10 * g0.prisoners.1));
    assert(prisoners_share(g1) == (10 * g1.prisoners.0, 10 * g1.prisoners.1));
    let color = g0.turn;
    let p = g0.idx((x, y));
    let before = g0.goban.pos().update(p, Some(color));
    let them = color.spec_opposite();
    g0.goban.lemma_wf();
    lemma_idx(g0.goban.size, x as int, y as int);
    lemma_area(g0.goban.size);
    assert(lost(g0.goban.pos(), g1.goban.pos(), them) =~= lost(before, g1.goban.pos(), them));
}

/// The first `n` neighbors of `i` are all taken exactly when none of them is listed as
/// empty.
proof fn lemma_no_empty_neighbor(pos: Seq<Option<Color>>, size: Size, i: int, n: int)
    requires
        0 <= n <= nb_list(size, i).len(),
    ensures
        (empty_neighbors(pos, size, i, n).len() == 0) == (forall|k: int| 0 <= k < n ==> pos[#[trigger] nb_list(size, i)[k] as int] is Some),
    decreases n,
{
    if n > 0 {
        lemma_no_empty_neighbor(pos, size, i, n - 1);
    }
}

/// Every chain next to an empty point has that point as a liberty.
proof fn lemma_touching_liberty(v: GobanView, p: int, c: int)
    requires
        v.wf(),
        0 <= p < v.area(),
        v.pos()[p] is None,
        v.chain_live(c),
        v.touches(c, p),
    ensures
        lib_has(v.chain(c).liberties, p),
{
    v.lemma_wf();
    let d = choose|d: int| 0 <= d < 4 && crate::pieces::geometry::nb_valid(v.size, p, d) && #[trigger] v.board[crate::pieces::geometry::nb(
        v.size,
        p,
        d,
    )] == Some(c as u16);
    let q = crate::pieces::geometry::nb(v.size, p, d);
    crate::pieces::geometry::lemma_nb(v.size, p, d);
    assert(crate::pieces::geometry::adjacent(v.size, p, q));
    assert(v.chain_of(q) == Some(c as u16));
    assert(lib_has(v.chain(c).liberties, p) == (0 <= p < v.area() && v.pos()[p] is None && exists|i: int| #[trigger] v.chain_of(i) == Some(c as u16)
        && crate::pieces::geometry::adjacent(v.size, p, i)));
}

/// A stone is suicide exactly when, after the captures it makes, the chain that it joins
/// would have no liberty: no point of the chain next to an empty point.
pub proof fn lemma_suicide_no_liberty(v: GobanView, p: int, color: Color)
    requires
        v.wf(),
        0 <= p < v.area(),
        v.pos()[p] is None,
    ensures
        suicide_spec(v, p, color) == !crate::pieces::goban::breathes(after_capture(v, p, color), v.size, joined_group(v, p, color)),
{
    v.lemma_wf();
    assert(v.struct_ok());
    lemma_area(v.size);
    crate::pieces::geometry::lemma_nb_list(v.size, p);
    let a = after_capture(v, p, color);
    let jg = joined_group(v, p, color);
    let nl = nb_list(v.size, p);
    lemma_no_empty_neighbor(v.pos(), v.size, p, nl.len() as int);
    assert(jg.contains(p));
    if suicide_spec(v, p, color) {
        assert forall|c: int| !#[trigger] captured_by(v, p, color, c) by {
            if captured_by(v, p, color, c) {
                lemma_touching_liberty(v, p, c);
                crate::pieces::chain::lemma_lib_count_one(v.chain(c).liberties, p);
                assert(v.touches(c, p) && 0 <= c < 65536 && v.chain_live(c) && v.chain(c).color != color && lib_count(v.chain(c).liberties) == 1);
            }
        }
        if crate::pieces::goban::breathes(a, v.size, jg) {
            let (i, j) = choose|i: int, j: int| #[trigger] jg.contains(i) && #[trigger] crate::pieces::geometry::adjacent(v.size, i, j) && a[j] is None;
            let d = choose|d: int| 0 <= d < 4 && crate::pieces::geometry::nb_valid(v.size, i, d) && #[trigger] crate::pieces::geometry::nb(v.size, i, d) == j;
            crate::pieces::geometry::lemma_nb(v.size, i, d);
            assert(j != p);
            assert(v.pos()[j] is None);
            if i == p {
                assert(nl.contains(j as usize));
                let k = choose|k: int| 0 <= k < nl.len() && nl[k] == j as usize;
                assert(v.pos()[nl[k] as int] is Some);
            } else {
                let c = v.board[i].unwrap() as int;
                assert(v.touches(c, p) && 0 <= c < 65536 && v.chain_live(c));
                assert(lib_count(v.chain(c).liberties) == 1);
                lemma_touching_liberty(v, p, c);
                crate::pieces::chain::lemma_lib_count_one(v.chain(c).liberties, p);
                crate::pieces::geometry::lemma_adjacent_sym(v.size, i, j);
                assert(v.chain_of(i) == Some(c as u16));
                assert(lib_has(v.chain(c).liberties, j) == (0 <= j < v.area() && v.pos()[j] is None && exists|i2: int| #[trigger] v.chain_of(i2) == Some(c as u16)
                    && crate::pieces::geometry::adjacent(v.size, j, i2)));
                assert(lib_has(v.chain(c).liberties, j));
            }
        }
    } else {
        if empty_neighbors(v.pos(), v.size, p, nl.len() as int).len() != 0 {
            let k = choose|k: int| 0 <= k < nl.len() && v.pos()[#[trigger] nl[k] as int] is None;
            let j = nl[k] as int;
            assert(crate::pieces::geometry::adjacent(v.size, p, j));
            let d = choose|d: int| 0 <= d < 4 && crate::pieces::geometry::nb_valid(v.size, p, d) && #[trigger] crate::pieces::geometry::nb(v.size, p, d) == j;
            crate::pieces::geometry::lemma_nb(v.size, p, d);
            assert(v.board[j] is None);
            assert(a[j] is None);
            assert(jg.contains(p) && crate::pieces::geometry::adjacent(v.size, p, j) && a[j] is None);
        } else {
            let c = choose|c: int| #[trigger] v.touches(c, p) && 0 <= c < 65536 && v.chain_live(c) && (if v.chain(c).color == color {
                lib_count(v.chain(c).liberties) != 1
            } else {
                lib_count(v.chain(c).liberties) == 1
            });
            lemma_touching_liberty(v, p, c);
            crate::pieces::chain::lemma_lib_count_one(v.chain(c).liberties, p);
            if v.chain(c).color == color {
                let j = choose|j: int| #[trigger] lib_has(v.chain(c).liberties, j) && j != p;
                assert(lib_has(v.chain(c).liberties, j) == (0 <= j < v.area() && v.pos()[j] is None && exists|i2: int| #[trigger] v.chain_of(i2) == Some(c as u16)
                    && crate::pieces::geometry::adjacent(v.size, j, i2)));
                let i = choose|i: int| #[trigger] v.chain_of(i) == Some(c as u16) && crate::pieces::geometry::adjacent(v.size, j, i);
                let d = choose|d: int| 0 <= d < 4 && crate::pieces::geometry::nb_valid(v.size, j, d) && #[trigger] crate::pieces::geometry::nb(v.size, j, d) == i;
                crate::pieces::geometry::lemma_nb(v.size, j, d);
                crate::pieces::geometry::lemma_adjacent_sym(v.size, j, i);
                assert(v.board[i].unwrap() as int == c);
                assert(jg.contains(i));
                assert(v.board[j] is None);
                assert(a[j] is None);
                assert(jg.contains(i) && crate::pieces::geometry::adjacent(v.size, i, j) && a[j] is None);
            } else {
                assert(captured_by(v, p, color, c));
                let d = choose|d: int| 0 <= d < 4 && crate::pieces::geometry::nb_valid(v.size, p, d) && #[trigger] v.board[crate::pieces::geometry::nb(
                    v.size,
                    p,
                    d,
                )] == Some(c as u16);
                let q = crate::pieces::geometry::nb(v.size, p, d);
                crate::pieces::geometry::lemma_nb(v.size, p, d);
                assert(v.board[q].unwrap() as int == c);
                assert(a[q] is None);
                assert(jg.contains(p) && crate::pieces::geometry::adjacent(v.size, p, q) && a[q] is None);
            }
        }
    }
}

/// Under flags that refuse suicide, a free point is refused as suicide exactly when it is
/// not a refused ko and the stone there, after the captures it makes, would leave the
/// chain it joins without a liberty; so a legal stone always keeps a liberty.
pub proof fn lemma_suicide_refused(g: GameView, c: Coord, rules: u32)
    requires
        g.wf(),
        g.open_point(c),
        has_flag(rules, SUICIDE_BIT),
    ensures
        (point_error(g, c, rules) == Some(PlayError::Suicide)) == (!(has_flag(rules, KO_BIT) && g.ko_point == Some(c))
            && !crate::pieces::goban::breathes(after_capture(g.goban, g.idx(c), g.turn), g.goban.size, joined_group(g.goban, g.idx(c), g.turn))),
        point_error(g, c, rules) is None ==> crate::pieces::goban::breathes(
            after_capture(g.goban, g.idx(c), g.turn),
            g.goban.size,
            joined_group(g.goban, g.idx(c), g.turn),
        ),
{
    lemma_idx(g.goban.size, c.0 as int, c.1 as int);
    lemma_suicide_no_liberty(g.goban, g.idx(c), g.turn);
}

/// A ko cannot be taken back at once: after a stone that captured a single stone and
/// stands alone in atari, the point of the captured stone is refused as a ko under a rule
/// that forbids ko; after a pass, no point is refused as a ko.
pub proof fn lemma_ko_refused(g0: GameView, g1: GameView, x: u8, y: u8, rules: u32)
    requires
        played(g0, g1, Move::Play(x, y)),
        lone_in_atari(g1.goban, g0.idx((x, y))),
        play_ko(g0.goban, g0.idx((x, y)), g0.turn, g0.suicide_allowed()) is Some,
        has_flag(rules, KO_BIT),
    ensures
        point_error(g1, play_ko(g0.goban, g0.idx((x, y)), g0.turn, g0.suicide_allowed()).unwrap(), rules) == Some(PlayError::Ko),
{
}

/// Both rules forbid suicide, so a stone that is played stays on its point, and the
/// stones that leave are those of the other color whose chain had that point as its only
/// liberty.
pub proof fn lemma_played_stone_stays(g0: GameView, g1: GameView, x: u8, y: u8)
    requires
        g0.wf(),
        g0.open_point((x, y)),
        played(g0, g1, Move::Play(x, y)),
    ensures
        g1.goban.pos() == crate::pieces::goban::after_capture(g0.goban, g0.idx((x, y)), g0.turn),
        g1.goban.pos()[g0.idx((x, y))] == Some(g0.turn),
{
    let bits = rule_illegal(g0.rule);
    assert(1u32 | 4u32 == 5u32) by (bit_vector);
    assert(2u32 | 1u32 | 4u32 == 7u32) by (bit_vector);
    assert(bits == 5u32 || bits == 7u32);
    assert(bits & 4u32 == 4u32) by (bit_vector)
        requires
            bits == 5u32 || bits == 7u32,
    ;
    assert(!g0.suicide_allowed());
    g0.goban.lemma_wf();
    lemma_idx(g0.goban.size, x as int, y as int);
    lemma_area(g0.goban.size);
}

/// A game has an outcome exactly when it is over: after a resignation, after two passes
/// in a row or when no legal point is left (then the higher score wins, and equal scores
/// draw).
pub proof fn lemma_outcome_when_over(g: GameView)
    ensures
        outcome_spec(g) is Some <==> over_spec(g),
        g.outcome is Some ==> outcome_spec(g) == g.outcome,
{
}

/// After a pass, no point is refused as a ko by the ko point.
pub proof fn lemma_pass_clears_ko(g0: GameView, g1: GameView)
    requires
        played(g0, g1, Move::Pass),
    ensures
        g1.ko_point is None,
{
}

/// The coordinate of a board index lies on the goban and has that index.
pub proof fn lemma_coord_of(v: GobanView, i: int)
    requires
        v.wf(),
        0 <= i < v.area(),
    ensures
        spec_coord_valid(v.size, coord_of(v.size, i)),
        spec_idx(v.size, coord_of(v.size, i)) == i,
{
    crate::pieces::geometry::lemma_idx_inv(v.size, i);
    lemma_area(v.size);
}

/// The scores (black, white) in tenths of a point under the scoring flags `rules`: the
/// territory always, then the prisoners, the stones on the goban and the komi (to white) as
/// the flags say.
pub open spec fn score_spec(g: GameView, rules: u32) -> (int, int) {
    let v = g.goban;
    let pos = v.pos();
    let b = 10 * territory_count(pos, v.size, Color::Black, v.area()) + (if has_flag(rules, PRISONNERS_BIT) {
        10 * g.prisoners.0
    } else {
        0
    }) + (if has_flag(rules, STONES_BIT) {
        10 * count_color(pos, Color::Black, 361)
    } else {
        0
    });
    let w = 10 * territory_count(pos, v.size, Color::White, v.area()) + (if has_flag(rules, PRISONNERS_BIT) {
        10 * g.prisoners.1
    } else {
        0
    }) + (if has_flag(rules, STONES_BIT) {
        10 * count_color(pos, Color::White, 361)
    } else {
        0
    }) + (if has_flag(rules, KOMI_BIT) {
        g.komi as int
    } else {
        0
    });
    (b, w)
}

/// The game is over: an outcome is set (a resignation), the players passed twice in a
/// row, or the color to play has no legal point left under the game's rule.
pub open spec fn over_spec(g: GameView) -> bool {
    g.outcome is Some || g.passes >= 2 || legals_upto(g, rule_illegal(g.rule), g.goban.area()).len() == 0
}

/// The outcome of the game, none while it is not over: the outcome set by a resignation,
/// or else the winner by score (a draw for equal scores).
pub open spec fn outcome_spec(g: GameView) -> Option<EndGame> {
    if !over_spec(g) {
        None
    } else if g.outcome is Some {
        g.outcome
    } else {
        let (b, w) = score_spec(g, rule_score(g.rule));
        if b == w {
            Some(EndGame::Draw)
        } else if b > w {
            Some(EndGame::WinnerByScore(Color::Black, (b - w) as i64))
        } else {
            Some(EndGame::WinnerByScore(Color::White, (w - b) as i64))
        }
    }
}

impl Game {
    /// Creates a game of the given size and rule: black to play, the rule's komi.
    pub fn new(size: GobanSizes, rule: Rule) -> (r: Game)
        requires
            size_of(size).0 <= 19,
            size_of(size).1 <= 19,
        ensures
            r@.wf(),
            r@.goban.size == size_of(size),
            forall|i: int| 0 <= i < 361 ==> #[trigger] r@.goban.pos()[i] is None,
            r@.turn == Color::Black,
            r@.komi == rule_komi(rule),
            r@.rule == rule,
            r@.passes == 0,
            r@.prisoners == (0u32, 0u32),
            r@.outcome is None,
            r@.handicap == 0,
            r@.last_hash == 0,
            r@.hashes == Set::<u64>::empty(),
            r@.ko_point is None,
    {
        let (height, width) = size.into();
        let goban = Goban::new((height, width));
        proof {
            assert(width as usize * height as usize <= 361) by (nonlinear_arith)
                requires
                    width <= 19,
                    height <= 19,
            ;
        }
        let hashes = hashes_new(width as usize * height as usize);
        Game {
            goban,
            passes: 0,
            prisoners: (0, 0),
            outcome: None,
            turn: Color::Black,
            komi: rule.komi(),
            rule,
            handicap: 0,
            last_hash: 0,
            hashes,
            ko_point: None,
        }
    }

    /// A game that starts from a set-up goban: no pass, no prisoner, no position seen yet.
    pub(crate) fn assemble(goban: Goban, turn: Color, komi: i32, rule: Rule, handicap: u8, outcome: Option<EndGame>) -> (r: Game)
        requires
            goban@.wf(),
            goban@.size.0 <= 19,
            goban@.size.1 <= 19,
        ensures
            r@ == (GameView {
                goban: goban@,
                passes: 0,
                prisoners: (0u32, 0u32),
                outcome,
                turn,
                komi,
                rule,
                handicap,
                last_hash: 0,
                hashes: Set::<u64>::empty(),
                ko_point: None,
            }),
    {
        let hashes = hashes_new(361);
        Game { goban, passes: 0, prisoners: (0, 0), outcome, turn, komi, rule, handicap, last_hash: 0, hashes, ko_point: None }
    }

    /// True when `play` takes the move (see `playable`).
    pub fn can_play(&self, play: Move) -> (r: bool)
        requires
            self@.wf(),
        ensures
            r == playable(self@, play),
    {
        match play {
            Move::Pass => self.passes < 2,
            Move::Resign(_) => true,
            Move::Play(x, y) => {
                if !crate::pieces::util::coord::is_coord_valid(self.goban.size(), (x, y)) {
                    return false;
                }
                self.goban.get_color((x, y)).is_none() && self.prisoners.0 <= u32::MAX - 361 && self.prisoners.1 <= u32::MAX - 361
            },
        }
    }

    /// A copy of the game.
    pub fn clone(&self) -> (r: Game)
        ensures
            r@ == self@,
    {
        Game {
            goban: self.goban.clone(),
            passes: self.passes,
            prisoners: self.prisoners,
            outcome: self.outcome,
            turn: self.turn,
            komi: self.komi,
            rule: self.rule,
            handicap: self.handicap,
            last_hash: self.last_hash,
            hashes: hashes_clone(&self.hashes),
            ko_point: self.ko_point,
        }
    }

    /// The goban.
    pub fn goban(&self) -> (r: &Goban)
        ensures
            r@ == self@.goban,
    {
        &self.goban
    }

    /// The number of passes in a row.
    pub fn passes(&self) -> (r: u8)
        ensures
            r == self@.passes,
    {
        self.passes
    }

    /// The prisoners: (white stones captured, black stones captured).
    pub fn prisoners(&self) -> (r: (u32, u32))
        ensures
            r == self@.prisoners,
    {
        self.prisoners
    }

    /// The color to play.
    pub fn turn(&self) -> (r: Color)
        ensures
            r == self@.turn,
    {
        self.turn
    }

    /// The komi, in tenths of a point.
    pub fn komi(&self) -> (r: i32)
        ensures
            r == self@.komi,
    {
        self.komi
    }

    /// Sets the komi, in tenths of a point.
    pub fn set_komi(&mut self, komi: i32)
        ensures
            final(self)@ == (GameView { komi, ..old(self)@ }),
    {
        self.komi = komi;
    }

    /// The rule set.
    pub fn rule(&self) -> (r: Rule)
        ensures
            r == self@.rule,
    {
        self.rule
    }

    /// Sets the rule set.
    pub fn set_rule(&mut self, rule: Rule)
        ensures
            final(self)@ == (GameView { rule, ..old(self)@ }),
    {
        self.rule = rule;
    }

    /// The number of handicap stones.
    pub fn handicap(&self) -> (r: u8)
        ensures
            r == self@.handicap,
    {
        self.handicap
    }

    /// The hash of the position before the last stone was played.
    pub fn last_hash(&self) -> (r: u64)
        ensures
            r == self@.last_hash,
    {
        self.last_hash
    }

    /// The point where a ko has_flag to play, if any.
    pub fn ko_point(&self) -> (r: Option<Coord>)
        ensures
            r == self@.ko_point,
    {
        self.ko_point
    }

    /// Resumes a game that two passes paused.
    pub fn resume(&mut self)
        ensures
            final(self)@ == (GameView { passes: 0, ..old(self)@ }),
    {
        self.passes = 0;
    }

    /// True when the game is over: an outcome is set (a resignation), the players passed
    /// twice, or the color to play has no legal point left.
    pub fn is_over(&self) -> (r: bool)
        requires
            self@.wf(),
        ensures
            r == over_spec(self@),
    {
        if self.outcome.is_some() {
            true
        } else if self.passes >= 2 {
            true
        } else {
            self.legals().len() == 0
        }
    }

    /// Plays a move: passes, resigns or puts a stone of the color to play on an empty point
    /// and removes what it captures.
    pub fn play(&mut self, play: Move)
        requires
            old(self)@.wf(),
            play is Pass ==> old(self)@.passes < 2,
            play matches Move::Play(x, y) ==> old(self)@.open_point((x, y)),
            play is Play ==> old(self)@.prisoners.0 <= u32::MAX - 361 && old(self)@.prisoners.1 <= u32::MAX - 361,
        ensures
            played(old(self)@, final(self)@, play),
    {
        match play {
            Move::Pass => {
                self.turn = self.turn.opposite();
                self.passes = self.passes + 1;
                self.ko_point = None;
            },
            Move::Play(x, y) => {
                let ghost v0 = self.goban@;
                proof {
                    lemma_idx(v0.size, x as int, y as int);
                    lemma_area(v0.size);
                }
                let hash = self.goban.zobrist_hash();
                self.last_hash = hash;
                hashes_insert(&mut self.hashes, hash);
                let color = self.turn;
                let (dead, added) = self.goban.push_wth_feedback((x, y), color);
                let ghost vp = self.goban@;
                let suicide_allowed = !self.rule.illegal_flag().contains(IllegalRules::suicide());
                let (removed, ko) = self.goban.remove_captured_stones_aux(suicide_allowed, crate::pieces::connections::idx4_slice(&dead), added);
                proof {
                    let vf = self.goban@;
                    let p = spec_idx(v0.size, (x, y));
                    assert forall|k: int| 0 <= k < idx4_items(dead).len() implies vp.chain_live(#[trigger] idx4_items(dead)[k] as int)
                        && idx4_items(dead)[k] != added by {
                        assert(vp.chain(idx4_items(dead)[k] as int).color != color);
                    }
                    lemma_play_result(v0, vp, vf, p, color, idx4_items(dead), added as int, suicide_allowed);
                    vf.lemma_wf();
                    assert forall|i: int| #[trigger] lost(vp.pos(), vf.pos(), Color::White).contains(i) implies 0 <= i < 361 by {}
                    assert forall|i: int| #[trigger] lost(vp.pos(), vf.pos(), Color::Black).contains(i) implies 0 <= i < 361 by {}
                    crate::pieces::goban::lemma_points_bound(lost(vp.pos(), vf.pos(), Color::White));
                    crate::pieces::goban::lemma_points_bound(lost(vp.pos(), vf.pos(), Color::Black));
                }
                self.prisoners = (self.prisoners.0 + removed.0, self.prisoners.1 + removed.1);
                let p_idx = two_to_1dim(self.goban.size(), (x, y));
                let lone = match self.goban.chain_of_idx(p_idx) {
                    Some(c) => {
                        let ch = self.goban.chain_at(c);
                        ch.num_stones == 1 && ch.is_atari()
                    },
                    None => false,
                };
                self.ko_point = if lone {
                    ko
                } else {
                    None
                };
                self.turn = self.turn.opposite();
                self.passes = 0;
            },
            Move::Resign(player) => {
                self.outcome = Some(EndGame::WinnerByResign(player));
            },
        }
    }
}

impl Game {
    /// True when playing `stone` is a ko: its point is the ko point.
    pub fn check_ko(&self, stone: Stone) -> (r: bool)
        ensures
            r == (self@.ko_point == Some(stone.coord)),
    {
        match self.ko_point {
            Some(k) => k.0 == stone.coord.0 && k.1 == stone.coord.1,
            None => false,
        }
    }

    /// True when `stone` would be a suicide: no empty neighbor, no chain of its color with
    /// another liberty to join, and no chain in atari to capture.
    pub fn check_suicide(&self, stone: Stone) -> (r: bool)
        requires
            self@.wf(),
            spec_coord_valid(self@.goban.size, stone.coord),
        ensures
            r == suicide_spec(self@.goban, self@.idx(stone.coord), stone.color),
    {
        let ghost v = self.goban@;
        proof {
            lemma_idx(v.size, stone.coord.0 as int, stone.coord.1 as int);
            lemma_area(v.size);
        }
        if self.goban.has_liberties(stone.coord) {
            return false;
        }
        let idx = two_to_1dim(self.goban.size(), stone.coord);
        assert(self@.idx(stone.coord) == idx as int);
        assert(self@.goban == v);
        let nbs = self.goban.get_connected_groups_idx(idx);
        let n = idx4_len(&nbs);
        let mut k: usize = 0;
        while k < n
            invariant
                v == self.goban@,
                self@.goban == v,
                self@.idx(stone.coord) == idx as int,
                v.wf(),
                v.area() <= 361,
                (idx as int) < v.area(),
                n == idx4_items(nbs).len(),
                0 <= k <= n,
                forall|t: usize| #[trigger] idx4_items(nbs).contains(t) == (t < 65536 && v.touches(t as int, idx as int)),
                forall|m: int| 0 <= m < k ==> !(if v.chain(#[trigger] idx4_items(nbs)[m] as int).color == stone.color {
                    lib_count(v.chain(idx4_items(nbs)[m] as int).liberties) != 1
                } else {
                    lib_count(v.chain(idx4_items(nbs)[m] as int).liberties) == 1
                }),
            decreases n - k,
        {
            let ci = idx4_get(&nbs, k);
            proof {
                assert(idx4_items(nbs).contains(ci));
                let d = choose|d: int| 0 <= d < 4 && crate::pieces::geometry::nb_valid(v.size, idx as int, d)
                    && #[trigger] v.board[crate::pieces::geometry::nb(v.size, idx as int, d)] == Some(ci as u16);
                crate::pieces::geometry::lemma_nb(v.size, idx as int, d);
                assert(v.board_entry_ok(crate::pieces::geometry::nb(v.size, idx as int, d)));
            }
            let ch = self.goban.chain_at(ci);
            let atari = ch.is_atari();
            if ch.color == stone.color {
                if !atari {
                    proof {
                        assert(v.touches(ci as int, idx as int));
                        assert(v.chain_live(ci as int));
                        assert(exists|c: int| #[trigger] v.touches(c, idx as int) && 0 <= c < 65536 && v.chain_live(c) && (if v.chain(c).color == stone.color {
                            lib_count(v.chain(c).liberties) != 1
                        } else {
                            lib_count(v.chain(c).liberties) == 1
                        }));
                    }
                    return false;
                }
            } else if atari {
                proof {
                    assert(v.touches(ci as int, idx as int));
                    assert(v.chain_live(ci as int));
                    assert(exists|c: int| #[trigger] v.touches(c, idx as int) && 0 <= c < 65536 && v.chain_live(c) && (if v.chain(c).color == stone.color {
                        lib_count(v.chain(c).liberties) != 1
                    } else {
                        lib_count(v.chain(c).liberties) == 1
                    }));
                }
                return false;
            }
            k += 1;
        }
        proof {
            if exists|c: int| #[trigger] v.touches(c, idx as int) && 0 <= c < 65536 && v.chain_live(c) && (if v.chain(c).color == stone.color {
                lib_count(v.chain(c).liberties) != 1
            } else {
                lib_count(v.chain(c).liberties) == 1
            }) {
                let c = choose|c: int| #[trigger] v.touches(c, idx as int) && 0 <= c < 65536 && v.chain_live(c) && (if v.chain(c).color == stone.color {
                    lib_count(v.chain(c).liberties) != 1
                } else {
                    lib_count(v.chain(c).liberties) == 1
                });
                assert(idx4_items(nbs).contains(c as usize));
                let m = choose|m: int| 0 <= m < idx4_items(nbs).len() && idx4_items(nbs)[m] == c as usize;
            }
        }
        true
    }

    /// True when a stone of the color to play at `point` would capture: a neighboring chain
    /// of the other color is in atari.
    pub fn will_capture(&self, point: Coord) -> (r: bool)
        requires
            self@.wf(),
            spec_coord_valid(self@.goban.size, point),
        ensures
            r == capture_spec(self@.goban, self@.idx(point), self@.turn),
    {
        let ghost v = self.goban@;
        proof {
            lemma_idx(v.size, point.0 as int, point.1 as int);
            lemma_area(v.size);
        }
        let idx = two_to_1dim(self.goban.size(), point);
        assert(self@.idx(point) == idx as int);
        assert(self@.goban == v);
        let nbs = self.goban.get_connected_groups_idx(idx);
        let n = idx4_len(&nbs);
        let mut k: usize = 0;
        while k < n
            invariant
                v == self.goban@,
                self@.goban == v,
                self@.idx(point) == idx as int,
                v.wf(),
                v.area() <= 361,
                (idx as int) < v.area(),
                n == idx4_items(nbs).len(),
                0 <= k <= n,
                forall|t: usize| #[trigger] idx4_items(nbs).contains(t) == (t < 65536 && v.touches(t as int, idx as int)),
                forall|m: int| 0 <= m < k ==> !(v.chain(#[trigger] idx4_items(nbs)[m] as int).color != self@.turn && lib_count(
                    v.chain(idx4_items(nbs)[m] as int).liberties) == 1),
            decreases n - k,
        {
            let ci = idx4_get(&nbs, k);
            proof {
                assert(idx4_items(nbs).contains(ci));
                let d = choose|d: int| 0 <= d < 4 && crate::pieces::geometry::nb_valid(v.size, idx as int, d)
                    && #[trigger] v.board[crate::pieces::geometry::nb(v.size, idx as int, d)] == Some(ci as u16);
                crate::pieces::geometry::lemma_nb(v.size, idx as int, d);
                assert(v.board_entry_ok(crate::pieces::geometry::nb(v.size, idx as int, d)));
            }
            let ch = self.goban.chain_at(ci);
            if ch.color != self.turn && ch.is_atari() {
                proof {
                    assert(v.touches(ci as int, idx as int));
                    assert(v.chain_live(ci as int));
                    assert(capture_spec(v, idx as int, self@.turn));
                }
                return true;
            }
            k += 1;
        }
        proof {
            if capture_spec(v, idx as int, self@.turn) {
                let c = choose|c: int| #[trigger] v.touches(c, idx as int) && 0 <= c < 65536 && v.chain_live(c) && v.chain(c).color != self@.turn
                    && lib_count(v.chain(c).liberties) == 1;
                assert(idx4_items(nbs).contains(c as usize));
                let m = choose|m: int| 0 <= m < idx4_items(nbs).len() && idx4_items(nbs)[m] == c as usize;
            }
        }
        false
    }
}

impl Game {
    /// True when every neighbor of `point` holds a stone of `color`.
    fn neighbors_of_color(&self, point: Coord, color: Color) -> (r: bool)
        requires
            self@.wf(),
            spec_coord_valid(self@.goban.size, point),
        ensures
            r == surrounded(self@.goban, self@.idx(point), color),
    {
        let ghost v = self.goban@;
        proof {
            lemma_idx(v.size, point.0 as int, point.1 as int);
            lemma_area(v.size);
            crate::pieces::geometry::lemma_nb_list(v.size, spec_idx(v.size, point));
        }
        let idx = two_to_1dim(self.goban.size(), point);
        let nbrs = crate::pieces::geometry::neighbors_idx(self.goban.size(), idx);
        let n = idx4_len(&nbrs);
        let ghost l = nb_list(v.size, idx as int);
        let mut k: usize = 0;
        while k < n
            invariant
                v == self.goban@,
                self@.goban == v,
                self@.idx(point) == idx as int,
                v.wf(),
                v.area() <= 361,
                l == nb_list(v.size, idx as int),
                idx4_items(nbrs) == l,
                n == l.len(),
                0 <= k <= n,
                forall|m: int| 0 <= m < l.len() ==> 0 <= #[trigger] l[m] < v.area(),
                forall|m: int| 0 <= m < k ==> v.pos()[#[trigger] l[m] as int] == Some(color),
            decreases n - k,
        {
            let q = idx4_get(&nbrs, k);
            match self.goban.get_color_idx(q) {
                Some(c) => {
                    if c != color {
                        return false;
                    }
                },
                None => {
                    return false;
                },
            }
            k += 1;
        }
        true
    }

    /// The diagonal neighbors of `point`: (those of `color`, those off the goban).
    pub fn helper_check_eye(&self, point: Coord, color: Color) -> (r: (u8, u8))
        requires
            self@.wf(),
            point.0 < 255,
            point.1 < 255,
        ensures
            r.0 == corner_count(self@.goban, point, color, 4).0,
            r.1 == corner_count(self@.goban, point, color, 4).1,
            r.0 + r.1 <= 4,
    {
        let ghost v = self.goban@;
        let corners = crate::pieces::util::coord::corner_points(point);
        let mut ally: u8 = 0;
        let mut off: u8 = 0;
        let mut k: usize = 0;
        while k < 4
            invariant
                v == self.goban@,
                self@.goban == v,
                v.wf(),
                corners@ == corner_list(point),
                0 <= k <= 4,
                ally == corner_count(v, point, color, k as int).0,
                off == corner_count(v, point, color, k as int).1,
                ally + off <= k,
            decreases 4 - k,
        {
            let q = corners[k];
            if crate::pieces::util::coord::is_coord_valid(self.goban.size(), q) {
                proof {
                    lemma_idx(v.size, q.0 as int, q.1 as int);
                    lemma_area(v.size);
                }
                let idx = two_to_1dim(self.goban.size(), q);
                match self.goban.get_color_idx(idx) {
                    Some(c) => {
                        if c == color {
                            ally = ally + 1;
                        }
                    },
                    None => {},
                }
            } else {
                off = off + 1;
            }
            k += 1;
        }
        (ally, off)
    }

    /// The eye test: true for an empty point surrounded by `color` whose diagonal neighbors
    /// are mostly of `color` or off the goban. A heuristic that misses some eye shapes.
    pub fn check_eye(&self, stone: Stone) -> (r: bool)
        requires
            self@.wf(),
            spec_coord_valid(self@.goban.size, stone.coord),
        ensures
            r == eye_spec(self@.goban, stone.coord, stone.color),
    {
        let ghost v = self.goban@;
        let point = stone.coord;
        let color = stone.color;
        if self.goban.get_color(point).is_some() {
            return false;
        }
        if !self.neighbors_of_color(point, color) {
            return false;
        }
        let (corner_ally, corner_off_board) = self.helper_check_eye(point, color);
        let corners = corner_ally + corner_off_board;
        if corners == 4 {
            true
        } else if corners == 3 || corners == 2 {
            proof {
                lemma_eye_scan(v, point, color, 0);
            }
            let cps = crate::pieces::util::coord::corner_points(point);
            let mut k: usize = 0;
            while k < 4
                invariant
                    v == self.goban@,
                    self@.goban == v,
                    self@.wf(),
                    v.wf(),
                    cps@ == corner_list(point),
                    0 <= k <= 4,
                    point == stone.coord,
                    color == stone.color,
                    eye_spec(v, point, color) == eye_scan(v, point, color, 0),
                    eye_scan(v, point, color, 0) == eye_scan(v, point, color, k as int),
                decreases 4 - k,
            {
                let q = cps[k];
                if crate::pieces::util::coord::is_coord_valid(self.goban.size(), q) && self.goban.get_color(q).is_none() {
                    if !self.neighbors_of_color(q, color) {
                        return false;
                    }
                    let (ca, cof) = self.helper_check_eye(q, color);
                    let c = ca + cof;
                    if c == 3 || c == 2 {
                        return true;
                    }
                }
                k += 1;
            }
            false
        } else {
            false
        }
    }
}

impl Game {
    /// The hash of the position that a stone of the color to play at `point` would make,
    /// on a copy of the goban.
    pub fn play_for_verification(&self, point: Coord) -> (r: u64)
        requires
            self@.wf(),
            self@.open_point(point),
        ensures
            r == pos_hash(play_pos(self@.goban, self@.idx(point), self@.turn, self@.suicide_allowed()), 361),
    {
        let ghost v0 = self.goban@;
        proof {
            lemma_idx(v0.size, point.0 as int, point.1 as int);
            lemma_area(v0.size);
        }
        let mut test_goban = self.goban.clone();
        let color = self.turn;
        let (dead, added) = test_goban.push_wth_feedback(point, color);
        let ghost vp = test_goban@;
        let suicide_allowed = !self.rule.illegal_flag().contains(IllegalRules::suicide());
        let _ = test_goban.remove_captured_stones_aux(suicide_allowed, crate::pieces::connections::idx4_slice(&dead), added);
        proof {
            let vf = test_goban@;
            let p = spec_idx(v0.size, point);
            assert forall|k: int| 0 <= k < idx4_items(dead).len() implies vp.chain_live(#[trigger] idx4_items(dead)[k] as int)
                && idx4_items(dead)[k] != added by {
                assert(vp.chain(idx4_items(dead)[k] as int).color != color);
            }
            lemma_play_result(v0, vp, vf, p, color, idx4_items(dead), added as int, suicide_allowed);
        }
        test_goban.zobrist_hash()
    }

    /// The super ko test for `stone` (a stone of the color to play): once two positions at
    /// least were seen and the stone captures, it is refused if it is a ko or if it makes a
    /// position seen before.
    pub fn check_superko(&self, stone: Stone) -> (r: bool)
        requires
            self@.wf(),
            self@.open_point(stone.coord),
        ensures
            r == superko_spec(self@, stone.coord),
    {
        if self.last_hash == 0 || hashes_len(&self.hashes) <= 2 || !self.will_capture(stone.coord) {
            false
        } else {
            self.check_ko(stone) || hashes_contains(&self.hashes, self.play_for_verification(stone.coord))
        }
    }

    /// Why a stone of the color to play at `point` is refused under the flags
    /// `illegal_rules`, if it is.
    pub fn check_point_by(&self, point: Coord, illegal_rules: IllegalRules) -> (r: Option<PlayError>)
        requires
            self@.wf(),
            self@.open_point(point),
        ensures
            r == point_error(self@, point, illegal_rules.bits),
    {
        let stone = Stone { coord: point, color: self.turn };
        if illegal_rules.contains(IllegalRules::ko()) && self.check_ko(stone) {
            Some(PlayError::Ko)
        } else if illegal_rules.contains(IllegalRules::suicide()) && self.check_suicide(stone) {
            Some(PlayError::Suicide)
        } else if illegal_rules.contains(IllegalRules::filleye()) && self.check_eye(stone) {
            Some(PlayError::FillEye)
        } else if illegal_rules.contains(IllegalRules::superko()) && self.check_superko(stone) {
            Some(PlayError::Ko)
        } else {
            None
        }
    }

    /// Why a stone of the color to play at `point` is refused by the game's rule, if it is.
    pub fn check_point(&self, point: Coord) -> (r: Option<PlayError>)
        requires
            self@.wf(),
            self@.open_point(point),
        ensures
            r == point_error(self@, point, rule_illegal(self@.rule)),
    {
        self.check_point_by(point, self.rule.illegal_flag())
    }

    /// Plays a move if it is legal: refused when the game is paused by two passes, when the
    /// point is taken, or when the rule has_flag the stone.
    pub fn try_play(&mut self, play: Move) -> (r: Result<(), PlayError>)
        requires
            old(self)@.wf(),
            play matches Move::Play(x, y) ==> spec_coord_valid(old(self)@.goban.size, (x, y)),
            old(self)@.prisoners.0 <= u32::MAX - 361,
            old(self)@.prisoners.1 <= u32::MAX - 361,
        ensures
            old(self)@.passes == 2 ==> r == Err::<(), PlayError>(PlayError::GamePaused) && final(self)@ == old(self)@,
            old(self)@.passes != 2 ==> match play {
                Move::Play(x, y) => if old(self)@.goban.pos()[old(self)@.idx((x, y))] is Some {
                    r == Err::<(), PlayError>(PlayError::PointNotEmpty) && final(self)@ == old(self)@
                } else if point_error(old(self)@, (x, y), rule_illegal(old(self)@.rule)) is Some {
                    r == Err::<(), PlayError>(point_error(old(self)@, (x, y), rule_illegal(old(self)@.rule)).unwrap()) && final(self)@ == old(self)@
                } else {
                    r is Ok && played(old(self)@, final(self)@, play)
                },
                _ => r is Ok && played(old(self)@, final(self)@, play),
            },
    {
        if self.passes == 2 {
            Err(PlayError::GamePaused)
        } else {
            match play {
                Move::Play(x, y) => {
                    proof {
                        lemma_idx(self@.goban.size, x as int, y as int);
                        lemma_area(self@.goban.size);
                    }
                    if self.goban.get_color((x, y)).is_some() {
                        Err(PlayError::PointNotEmpty)
                    } else {
                        match self.check_point((x, y)) {
                            Some(c) => Err(c),
                            None => {
                                self.play(play);
                                Ok(())
                            },
                        }
                    }
                },
                _ => {
                    self.play(play);
                    Ok(())
                },
            }
        }
    }

    /// The empty points, in index order.
    pub fn pseudo_legals(&self) -> (r: Vec<Coord>)
        requires
            self@.wf(),
        ensures
            r@ == empties_upto(self@.goban, self@.goban.area()),
    {
        let ghost v = self.goban@;
        proof {
            lemma_area(v.size);
        }
        let size = self.goban.size();
        let n = size.0 as usize * size.1 as usize;
        let mut res: Vec<Coord> = Vec::new();
        let mut i: usize = 0;
        while i < n
            invariant
                v == self.goban@,
                v.wf(),
                n == v.area(),
                n <= 361,
                size == v.size,
                0 <= i <= n,
                res@ == empties_upto(v, i as int),
            decreases n - i,
        {
            if self.goban.get_color_idx(i).is_none() {
                proof {
                    crate::pieces::geometry::lemma_idx_inv(v.size, i as int);
                }
                res.push(crate::pieces::util::coord::one_to_2dim(size, i));
            }
            i += 1;
        }
        res
    }

    /// The empty points where the color to play may put a stone under the flags
    /// `legals_rules`, in index order.
    pub fn legals_by(&self, legals_rules: IllegalRules) -> (r: Vec<Coord>)
        requires
            self@.wf(),
        ensures
            r@ == legals_upto(self@, legals_rules.bits, self@.goban.area()),
    {
        let ghost v = self.goban@;
        proof {
            lemma_area(v.size);
        }
        let size = self.goban.size();
        let n = size.0 as usize * size.1 as usize;
        let mut res: Vec<Coord> = Vec::new();
        let mut i: usize = 0;
        while i < n
            invariant
                v == self.goban@,
                self@.goban == v,
                self@.wf(),
                n == v.area(),
                n <= 361,
                size == v.size,
                0 <= i <= n,
                res@ == legals_upto(self@, legals_rules.bits, i as int),
            decreases n - i,
        {
            if self.goban.get_color_idx(i).is_none() {
                proof {
                    crate::pieces::geometry::lemma_idx_inv(v.size, i as int);
                    lemma_coord_of(v, i as int);
                }
                let c = crate::pieces::util::coord::one_to_2dim(size, i);
                if self.check_point_by(c, legals_rules).is_none() {
                    res.push(c);
                }
            }
            i += 1;
        }
        res
    }

    /// The empty points where the color to play may put a stone under the game's rule, in
    /// index order.
    pub fn legals(&self) -> (r: Vec<Coord>)
        requires
            self@.wf(),
        ensures
            r@ == legals_upto(self@, rule_illegal(self@.rule), self@.goban.area()),
    {
        self.legals_by(self.rule.illegal_flag())
    }

    /// Puts black handicap stones on empty, distinct points; white plays next. The komi is
    /// left as it is.
    pub fn put_handicap(&mut self, points: &[Coord])
        requires
            old(self)@.wf(),
            points@.len() <= 255,
            forall|k: int| 0 <= k < points@.len() ==> old(self)@.open_point(#[trigger] points@[k]),
            forall|a: int, b: int| 0 <= a < b < points@.len() ==> #[trigger] points@[a] != #[trigger] points@[b],
        ensures
            final(self)@.wf(),
            final(self)@.goban.size == old(self)@.goban.size,
            final(self)@.goban.pos() == crate::pieces::goban::with_stones(old(self)@.goban.pos(), old(self)@.goban.size, points@, Color::Black),
            final(self)@.handicap == points@.len(),
            final(self)@.turn == Color::White,
            final(self)@ == (GameView { goban: final(self)@.goban, handicap: final(self)@.handicap, turn: Color::White, ..old(self)@ }),
    {
        self.handicap = points.len() as u8;
        self.goban.push_many(points, Color::Black);
        self.turn = Color::White;
    }

    /// A picture of the goban (see `Goban::pretty_string`).
    pub fn pretty_string(&self) -> (r: String)
        requires
            self@.wf(),
        ensures
            r@ == crate::pieces::goban::picture(self@.goban, self@.goban.size.0 as int),
    {
        self.goban.pretty_string()
    }
}

impl Default for Game {
    /// A 19 by 19 game under chinese rules.
    fn default() -> (r: Game)
        ensures
            r@.wf(),
            r@.goban.size == (19u8, 19u8),
            forall|i: int| 0 <= i < 361 ==> #[trigger] r@.goban.pos()[i] is None,
            r@.turn == Color::Black,
            r@.rule == Rule::Chinese,
            r@.komi == rule_komi(Rule::Chinese),
            r@.passes == 0,
            r@.prisoners == (0u32, 0u32),
            r@.outcome is None,
            r@.handicap == 0,
            r@.ko_point is None,
    {
        Game::new(GobanSizes::Nineteen, Rule::Chinese)
    }
}

/// A count of at most `n` points is at most `n`.
proof fn lemma_count_le(pos: Seq<Option<Color>>, color: Color, n: int)
    requires
        0 <= n,
    ensures
        count_color(pos, color, n) <= n,
    decreases n,
{
    if n > 0 {
        lemma_count_le(pos, color, n - 1);
    }
}

/// A territory count of at most `n` points is at most `n`.
proof fn lemma_territory_le(pos: Seq<Option<Color>>, size: crate::pieces::util::coord::Size, color: Color, n: int)
    requires
        0 <= n,
    ensures
        territory_count(pos, size, color, n) <= n,
    decreases n,
{
    if n > 0 {
        lemma_territory_le(pos, size, color, n - 1);
    }
}

impl Game {
    /// The scores (black, white), in tenths of a point, under the scoring flags `rule`.
    pub fn calculate_score_by(&self, rule: ScoreRules) -> (r: (i64, i64))
        requires
            self@.wf(),
        ensures
            r.0 == score_spec(self@, rule.bits).0,
            r.1 == score_spec(self@, rule.bits).1,
            0 <= r.0 <= 100_000_000_000,
            -3_000_000_000 <= r.1 <= 100_000_000_000,
    {
        let ghost v = self.goban@;
        proof {
            lemma_area(v.size);
            lemma_territory_le(v.pos(), v.size, Color::Black, v.area());
            lemma_territory_le(v.pos(), v.size, Color::White, v.area());
            lemma_count_le(v.pos(), Color::Black, 361);
            lemma_count_le(v.pos(), Color::White, 361);
        }
        let (black_territory, white_territory) = self.goban.calculate_territories();
        let mut black_score: i64 = 10 * black_territory as i64;
        let mut white_score: i64 = 10 * white_territory as i64;
        if rule.contains(ScoreRules::prisonners()) {
            black_score = black_score + 10 * self.prisoners.0 as i64;
            white_score = white_score + 10 * self.prisoners.1 as i64;
        }
        if rule.contains(ScoreRules::stones()) {
            let (black_stones, white_stones) = self.goban.number_of_stones();
            black_score = black_score + 10 * black_stones as i64;
            white_score = white_score + 10 * white_stones as i64;
        }
        if rule.contains(ScoreRules::komi()) {
            white_score = white_score + self.komi as i64;
        }
        (black_score, white_score)
    }

    /// The scores (black, white), in tenths of a point, under the game's rule.
    pub fn calculate_score(&self) -> (r: (i64, i64))
        requires
            self@.wf(),
        ensures
            r.0 == score_spec(self@, rule_score(self@.rule)).0,
            r.1 == score_spec(self@, rule_score(self@.rule)).1,
            0 <= r.0 <= 100_000_000_000,
            -3_000_000_000 <= r.1 <= 100_000_000_000,
    {
        self.calculate_score_by(self.rule.score_flag())
    }

    /// The outcome: none while the game is not over; the resignation if there was one;
    /// otherwise the winner by score and the margin, in tenths of a point, or a draw.
    pub fn outcome(&self) -> (r: Option<EndGame>)
        requires
            self@.wf(),
        ensures
            r == outcome_spec(self@),
    {
        if !self.is_over() {
            None
        } else if self.outcome.is_some() {
            self.outcome
        } else {
            let scores = self.calculate_score();
            if scores.0 == scores.1 {
                Some(EndGame::Draw)
            } else if scores.0 > scores.1 {
                Some(EndGame::WinnerByScore(Color::Black, scores.0 - scores.1))
            } else {
                Some(EndGame::WinnerByScore(Color::White, scores.1 - scores.0))
            }
        }
    }
}

} // verus!
