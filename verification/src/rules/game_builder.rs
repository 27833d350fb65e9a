//! Building a game: size, rule, komi, handicap and set-up stones, an outcome, and moves to
//! replay from the start.

use vstd::prelude::*;
use crate::pieces::goban::Goban;
use crate::pieces::stones::{Color, Stone};
use crate::pieces::util::coord::{is_coord_valid, spec_coord_valid, spec_idx, Coord, Size};
use crate::rules::game::{playable, played, Game, GameView};
use crate::rules::{rule_komi, EndGame, Move, Rule, CHINESE};
use crate::sgf::text::{chars_of, string_of};

verus! {

/// The settings of a game to build.
pub struct GameBuilder {
    size: Size,
    black_player: String,
    white_player: String,
    rule: Rule,
    komi: Option<i32>,
    handicap: Option<u32>,
    handicap_points: Vec<Coord>,
    turn: Option<Color>,
    moves: Vec<Move>,
    outcome: Option<EndGame>,
    setup: Vec<Stone>,
}

/// The settings of a builder as mathematical values.
pub ghost struct BuilderView {
    pub size: Size,
    pub black_player: Seq<char>,
    pub white_player: Seq<char>,
    pub rule: Rule,
    pub komi: Option<i32>,
    pub handicap: Option<u32>,
    pub handicap_points: Seq<Coord>,
    pub turn: Option<Color>,
    pub moves: Seq<Move>,
    pub outcome: Option<EndGame>,
    pub setup: Seq<Stone>,
}

impl View for GameBuilder {
    type V = BuilderView;

    closed spec fn view(&self) -> BuilderView {
        BuilderView {
            size: self.size,
            black_player: self.black_player@,
            white_player: self.white_player@,
            rule: self.rule,
            komi: self.komi,
            handicap: self.handicap,
            handicap_points: self.handicap_points@,
            turn: self.turn,
            moves: self.moves@,
            outcome: self.outcome,
            setup: self.setup@,
        }
    }
}

/// The settings of a new builder: a 19 by 19 goban, chinese rules and nothing else.
pub open spec fn default_view() -> BuilderView {
    BuilderView {
        size: (19, 19),
        black_player: Seq::empty(),
        white_player: Seq::empty(),
        rule: Rule::Chinese,
        komi: None,
        handicap: None,
        handicap_points: Seq::empty(),
        turn: None,
        moves: Seq::empty(),
        outcome: None,
        setup: Seq::empty(),
    }
}

/// The empty board.
pub open spec fn empty_pos() -> Seq<Option<Color>> {
    Seq::new(361, |i: int| None::<Color>)
}

/// The board after putting the stones of `ss` one after the other.
pub open spec fn put_stones(pos: Seq<Option<Color>>, size: Size, ss: Seq<Stone>) -> Seq<Option<Color>>
    decreases ss.len(),
{
    if ss.len() == 0 {
        pos
    } else {
        put_stones(pos, size, ss.drop_last()).update(spec_idx(size, ss.last().coord), Some(ss.last().color))
    }
}

/// Each stone of `ss` lies on the goban, on a point that those before it left empty or
/// gave a stone of the same color (a point given twice holds one stone).
pub open spec fn stones_fit(pos: Seq<Option<Color>>, size: Size, ss: Seq<Stone>) -> bool
    decreases ss.len(),
{
    ss.len() == 0 || (stones_fit(pos, size, ss.drop_last()) && spec_coord_valid(size, ss.last().coord) && {
        let here = put_stones(pos, size, ss.drop_last())[spec_idx(size, ss.last().coord)];
        here is None || here == Some(ss.last().color)
    })
}

/// The stones that a builder puts before play: the handicap points, black, then the set-up
/// stones.
pub open spec fn setup_stones(b: BuilderView) -> Seq<Stone> {
    handicap_stones(b.handicap_points) + b.setup
}

/// Black stones on the points of `pts`.
pub open spec fn handicap_stones(pts: Seq<Coord>) -> Seq<Stone> {
    pts.map_values(|p: Coord| Stone { coord: p, color: Color::Black })
}

/// The handicap: the one set, or else the number of handicap points.
pub open spec fn handicap_count(b: BuilderView) -> int {
    match b.handicap {
        Some(h) => h as int,
        None => b.handicap_points.len() as int,
    }
}

/// The color that plays first: the one set, or else white after a handicap and black
/// without.
pub open spec fn start_turn(b: BuilderView) -> Color {
    match b.turn {
        Some(c) => c,
        None => if handicap_count(b) != 0 {
            Color::White
        } else {
            Color::Black
        },
    }
}

/// The komi: the one set, or else the rule's.
pub open spec fn start_komi(b: BuilderView) -> i32 {
    match b.komi {
        Some(k) => k,
        None => rule_komi(b.rule),
    }
}

/// The settings can give a starting position: the goban is at most 19 by 19, the handicap
/// fits a byte, and the stones fit on the goban.
pub open spec fn setup_ok(b: BuilderView) -> bool {
    &&& b.size.0 <= 19
    &&& b.size.1 <= 19
    &&& handicap_count(b) <= 255
    &&& stones_fit(empty_pos(), b.size, setup_stones(b))
}

/// `g` is the game that the settings give before any move is replayed.
pub open spec fn starts(b: BuilderView, g: GameView) -> bool {
    &&& g.goban.wf()
    &&& g.goban.size == b.size
    &&& g.goban.pos() == put_stones(empty_pos(), b.size, setup_stones(b))
    &&& g == (GameView {
        goban: g.goban,
        passes: 0,
        prisoners: (0u32, 0u32),
        outcome: b.outcome,
        turn: start_turn(b),
        komi: start_komi(b),
        rule: b.rule,
        handicap: handicap_count(b) as u8,
        last_hash: 0,
        hashes: Set::<u64>::empty(),
        ko_point: None,
    })
}

/// `g1` is `g0` after the moves of `ms`, each one taken by `play`.
pub open spec fn replayed(g0: GameView, g1: GameView, ms: Seq<Move>) -> bool
    decreases ms.len(),
{
    if ms.len() == 0 {
        g1 == g0
    } else {
        exists|mid: GameView| replayed(g0, mid, ms.drop_last()) && playable(mid, ms.last()) && #[trigger] played(mid, g1, ms.last())
    }
}

/// Replaying `ms` from `g0` reaches a move that `play` does not take.
pub open spec fn stuck(g0: GameView, ms: Seq<Move>) -> bool {
    exists|k: int, mid: GameView| #![trigger replayed(g0, mid, ms.take(k))] 0 <= k < ms.len() && replayed(g0, mid, ms.take(k)) && !playable(mid, ms[k])
}

/// What `build` gives for the settings `b`: an error when they give no starting position,
/// else the game after replaying the moves, or an error when a move cannot be played.
/// A set-up stone on a stone of the other color, and a replayed move on a taken point, are
/// refused, so that every game built has consistent chains; a handicap point or set-up
/// stone given twice with one color puts one stone.
pub open spec fn built(b: BuilderView, r: Result<Game, String>) -> bool {
    &&& !setup_ok(b) ==> r is Err
    &&& setup_ok(b) ==> (r matches Ok(g) ==> exists|g0: GameView| #[trigger] starts(b, g0) && replayed(g0, g@, b.moves))
    &&& setup_ok(b) ==> (r is Err ==> exists|g0: GameView| #[trigger] starts(b, g0) && stuck(g0, b.moves))
}

/// A replay keeps the rule, the komi and the handicap of the game it starts from.
pub proof fn lemma_replay_keeps_settings(g0: GameView, g1: GameView, ms: Seq<Move>)
    requires
        replayed(g0, g1, ms),
    ensures
        g1.rule == g0.rule,
        g1.komi == g0.komi,
        g1.handicap == g0.handicap,
    decreases ms.len(),
{
    if ms.len() > 0 {
        let mid = choose|mid: GameView| replayed(g0, mid, ms.drop_last()) && playable(mid, ms.last()) && #[trigger] played(mid, g1, ms.last());
        lemma_replay_keeps_settings(g0, mid, ms.drop_last());
    }
}

/// A game built from settings has the rule set on them, the komi set on them (else the
/// rule's), and the handicap set on them (else one per handicap point); with no move to
/// replay it plays the color set on them, or else white after a handicap and black
/// without.
pub proof fn lemma_built_settings(b: BuilderView, g: Game)
    requires
        built(b, Ok::<Game, String>(g)),
    ensures
        g@.rule == b.rule,
        b.komi matches Some(k) ==> g@.komi == k,
        b.komi is None ==> g@.komi == rule_komi(b.rule),
        b.handicap matches Some(h) ==> g@.handicap == h,
        b.handicap is None ==> g@.handicap == b.handicap_points.len(),
        b.moves.len() == 0 && b.turn is None ==> g@.turn == (if g@.handicap != 0 {
            Color::White
        } else {
            Color::Black
        }),
        b.moves.len() == 0 ==> (b.turn matches Some(t) ==> g@.turn == t),
{
    let g0 = choose|g0: GameView| #[trigger] starts(b, g0) && replayed(g0, g@, b.moves);
    lemma_replay_keeps_settings(g0, g@, b.moves);
}

/// One more move that `play` takes extends a replay.
proof fn lemma_replayed_step(g0: GameView, mid: GameView, g1: GameView, ms: Seq<Move>)
    requires
        ms.len() > 0,
        replayed(g0, mid, ms.drop_last()),
        playable(mid, ms.last()),
        played(mid, g1, ms.last()),
    ensures
        replayed(g0, g1, ms),
{
}

/// The fit of stones carries over to the first ones.
proof fn lemma_fit_prefix(pos: Seq<Option<Color>>, size: Size, ss: Seq<Stone>, j: int)
    requires
        stones_fit(pos, size, ss),
        0 <= j <= ss.len(),
    ensures
        stones_fit(pos, size, ss.take(j)),
    decreases ss.len() - j,
{
    if j < ss.len() {
        assert(ss.drop_last().take(j) =~= ss.take(j));
        lemma_fit_prefix(pos, size, ss.drop_last(), j);
    } else {
        assert(ss.take(j) =~= ss);
    }
}

/// A text as a `String`.
fn text(s: &str) -> (r: String)
    ensures
        r@ == s@,
{
    string_of(&chars_of(s))
}

impl Default for GameBuilder {
    /// A 19 by 19 goban under chinese rules, with nothing else set.
    fn default() -> (r: GameBuilder)
        ensures
            r@ == default_view(),
    {
        GameBuilder {
            size: (19, 19),
            black_player: String::new(),
            white_player: String::new(),
            rule: CHINESE,
            komi: None,
            handicap: None,
            handicap_points: Vec::new(),
            turn: None,
            moves: Vec::new(),
            outcome: None,
            setup: Vec::new(),
        }
    }
}

impl GameBuilder {
    /// Sets the moves to replay.
    pub fn moves(&mut self, moves: &[Move]) -> (r: &mut Self)
        ensures
            r@ == (BuilderView { moves: moves@, ..old(self)@ }),
            *final(self) == *final(r),
    {
        let mut v: Vec<Move> = Vec::new();
        let mut k: usize = 0;
        while k < moves.len()
            invariant
                0 <= k <= moves@.len(),
                v@ == moves@.take(k as int),
            decreases moves@.len() - k,
        {
            v.push(moves[k]);
            k += 1;
            proof {
                assert(v@ =~= moves@.take(k as int));
            }
        }
        proof {
            assert(moves@.take(moves@.len() as int) =~= moves@);
        }
        self.moves = v;
        self
    }

    /// Sets the outcome.
    pub fn outcome(&mut self, outcome: EndGame) -> (r: &mut Self)
        ensures
            r@ == (BuilderView { outcome: Some(outcome), ..old(self)@ }),
            *final(self) == *final(r),
    {
        self.outcome = Some(outcome);
        self
    }

    /// Sets the handicap points, where black stones stand before play; white then plays
    /// first unless the turn is set.
    pub fn put_handicap(&mut self, points: &[Coord]) -> (r: &mut Self)
        ensures
            r@ == (BuilderView { handicap_points: points@, ..old(self)@ }),
            *final(self) == *final(r),
    {
        let mut v: Vec<Coord> = Vec::new();
        let mut k: usize = 0;
        while k < points.len()
            invariant
                0 <= k <= points@.len(),
                v@ == points@.take(k as int),
            decreases points@.len() - k,
        {
            v.push(points[k]);
            k += 1;
            proof {
                assert(v@ =~= points@.take(k as int));
            }
        }
        proof {
            assert(points@.take(points@.len() as int) =~= points@);
        }
        self.handicap_points = v;
        self
    }

    /// Sets the handicap.
    pub fn handicap(&mut self, handicap: u32) -> (r: &mut Self)
        ensures
            r@ == (BuilderView { handicap: Some(handicap), ..old(self)@ }),
            *final(self) == *final(r),
    {
        self.handicap = Some(handicap);
        self
    }

    /// Sets the size of the goban, `(height, width)`.
    pub fn size(&mut self, size: Size) -> (r: &mut Self)
        ensures
            r@ == (BuilderView { size, ..old(self)@ }),
            *final(self) == *final(r),
    {
        self.size = size;
        self
    }

    /// Sets the komi, in tenths of a point.
    pub fn komi(&mut self, komi: i32) -> (r: &mut Self)
        ensures
            r@ == (BuilderView { komi: Some(komi), ..old(self)@ }),
            *final(self) == *final(r),
    {
        self.komi = Some(komi);
        self
    }

    /// Sets the color that plays first.
    pub fn turn(&mut self, turn: Color) -> (r: &mut Self)
        ensures
            r@ == (BuilderView { turn: Some(turn), ..old(self)@ }),
            *final(self) == *final(r),
    {
        self.turn = Some(turn);
        self
    }

    /// Sets the name of the black player.
    pub fn black_player(&mut self, black_player_name: &str) -> (r: &mut Self)
        ensures
            r@ == (BuilderView { black_player: black_player_name@, ..old(self)@ }),
            *final(self) == *final(r),
    {
        self.black_player = text(black_player_name);
        self
    }

    /// Sets the rule.
    pub fn rule(&mut self, rule: Rule) -> (r: &mut Self)
        ensures
            r@ == (BuilderView { rule, ..old(self)@ }),
            *final(self) == *final(r),
    {
        self.rule = rule;
        self
    }

    /// Sets the name of the white player.
    pub fn white_player(&mut self, white_player_name: &str) -> (r: &mut Self)
        ensures
            r@ == (BuilderView { white_player: white_player_name@, ..old(self)@ }),
            *final(self) == *final(r),
    {
        self.white_player = text(white_player_name);
        self
    }

    /// Adds a set-up stone.
    pub fn add(&mut self, stone: Stone) -> (r: &mut Self)
        ensures
            r@ == (BuilderView { setup: old(self)@.setup.push(stone), ..old(self)@ }),
            *final(self) == *final(r),
    {
        self.setup.push(stone);
        self
    }

    /// Puts the stones of `ss` on the goban one after the other, failing at the first one
    /// that is off the goban or on a stone of the other color; a stone on a point that
    /// already holds its color changes nothing.
    fn put_all(goban: &mut Goban, ss: &Vec<Stone>, Ghost(before): Ghost<Seq<Stone>>) -> (r: bool)
        requires
            old(goban)@.wf(),
            stones_fit(empty_pos(), old(goban)@.size, before),
            old(goban)@.pos() == put_stones(empty_pos(), old(goban)@.size, before),
        ensures
            final(goban)@.wf(),
            final(goban)@.size == old(goban)@.size,
            r == stones_fit(empty_pos(), old(goban)@.size, before + ss@),
            r ==> final(goban)@.pos() == put_stones(empty_pos(), old(goban)@.size, before + ss@),
    {
        let ghost size = goban@.size;
        let mut k: usize = 0;
        while k < ss.len()
            invariant
                0 <= k <= ss@.len(),
                goban@.wf(),
                goban@.size == size,
                size == old(goban)@.size,
                stones_fit(empty_pos(), size, before + ss@.take(k as int)),
                goban@.pos() == put_stones(empty_pos(), size, before + ss@.take(k as int)),
            decreases ss@.len() - k,
        {
            let st = ss[k];
            let ghost next = before + ss@.take(k + 1);
            proof {
                assert(next.drop_last() =~= before + ss@.take(k as int));
                assert(next.last() == st);
            }
            if !is_coord_valid(goban.size(), st.coord) {
                proof {
                    if stones_fit(empty_pos(), size, before + ss@) {
                        lemma_fit_prefix(empty_pos(), size, before + ss@, next.len() as int);
                        assert((before + ss@).take(next.len() as int) =~= next);
                    }
                }
                return false;
            }
            match goban.get_color(st.coord) {
                Some(c) => {
                    if c != st.color {
                        proof {
                            if stones_fit(empty_pos(), size, before + ss@) {
                                lemma_fit_prefix(empty_pos(), size, before + ss@, next.len() as int);
                                assert((before + ss@).take(next.len() as int) =~= next);
                            }
                        }
                        return false;
                    }
                    proof {
                        let prev = before + ss@.take(k as int);
                        let i = spec_idx(size, st.coord);
                        goban@.lemma_wf();
                        crate::pieces::geometry::lemma_idx(size, st.coord.0 as int, st.coord.1 as int);
                        crate::pieces::geometry::lemma_area(size);
                        assert(put_stones(empty_pos(), size, next) == put_stones(empty_pos(), size, prev).update(i, Some(st.color)));
                        assert(put_stones(empty_pos(), size, prev)[i] == Some(st.color));
                        assert(put_stones(empty_pos(), size, next) =~= put_stones(empty_pos(), size, prev));
                    }
                },
                None => {
                    goban.push_stone(st);
                },
            }
            k += 1;
        }
        proof {
            assert(ss@.take(ss@.len() as int) =~= ss@);
        }
        true
    }

    /// Builds the game (see `built`) and leaves the builder as a new one.
    pub fn build(&mut self) -> (r: Result<Game, String>)
        ensures
            built(old(self)@, r),
            final(self)@ == default_view(),
    {
        let mut b = GameBuilder::default();
        std::mem::swap(&mut b, self);
        b.build_inner()
    }

    fn build_inner(self) -> (r: Result<Game, String>)
        ensures
            built(self@, r),
    {
        let ghost bv = self@;
        if self.size.0 > 19 || self.size.1 > 19 {
            return Err(text("the goban is larger than 19 by 19"));
        }
        let handicap: u32 = match self.handicap {
            Some(h) => h,
            None => if self.handicap_points.len() > 255 {
                256
            } else {
                self.handicap_points.len() as u32
            },
        };
        if handicap > 255 {
            return Err(text("the handicap is larger than 255"));
        }
        let mut goban = Goban::new(self.size);
        let mut points: Vec<Stone> = Vec::new();
        let mut k: usize = 0;
        while k < self.handicap_points.len()
            invariant
                0 <= k <= self.handicap_points@.len(),
                bv == self@,
                points@ == handicap_stones(bv.handicap_points).take(k as int),
            decreases self.handicap_points@.len() - k,
        {
            points.push(Stone { coord: self.handicap_points[k], color: Color::Black });
            k += 1;
            proof {
                assert(points@ =~= handicap_stones(bv.handicap_points).take(k as int));
            }
        }
        proof {
            let hs = handicap_stones(bv.handicap_points);
            assert(hs.take(hs.len() as int) =~= hs);
            assert(goban@.pos() =~= empty_pos());
            assert(Seq::<Stone>::empty() + points@ =~= points@);
            assert(points@ + bv.setup =~= setup_stones(bv));
        }
        if !Self::put_all(&mut goban, &points, Ghost(Seq::empty())) {
            proof {
                if stones_fit(empty_pos(), bv.size, setup_stones(bv)) {
                    lemma_fit_prefix(empty_pos(), bv.size, setup_stones(bv), points@.len() as int);
                    assert(setup_stones(bv).take(points@.len() as int) =~= points@);
                }
            }
            return Err(text("a handicap stone does not fit on the goban"));
        }
        proof {
            assert(Seq::<Stone>::empty() + points@ =~= points@);
        }
        if !Self::put_all(&mut goban, &self.setup, Ghost(points@)) {
            return Err(text("a set-up stone does not fit on the goban"));
        }
        let turn = match self.turn {
            Some(c) => c,
            None => if handicap != 0 {
                Color::White
            } else {
                Color::Black
            },
        };
        let komi = match self.komi {
            Some(k) => k,
            None => self.rule.komi(),
        };
        let mut g = Game::assemble(goban, turn, komi, self.rule, handicap as u8, self.outcome);
        let ghost g0 = g@;
        proof {
            assert(starts(bv, g0));
        }
        let mut m: usize = 0;
        while m < self.moves.len()
            invariant
                0 <= m <= bv.moves.len(),
                self@ == bv,
                starts(bv, g0),
                g@.wf(),
                replayed(g0, g@, bv.moves.take(m as int)),
            decreases bv.moves.len() - m,
        {
            let mv = self.moves[m];
            if !g.can_play(mv) {
                proof {
                    assert(replayed(g0, g@, bv.moves.take(m as int)));
                    assert(stuck(g0, bv.moves));
                }
                return Err(text("a move cannot be played"));
            }
            let ghost mid = g@;
            g.play(mv);
            m += 1;
            proof {
                let ms = bv.moves.take(m as int);
                assert(ms.drop_last() =~= bv.moves.take(m - 1));
                assert(ms.last() == mv);
                assert(replayed(g0, mid, ms.drop_last()));
                assert(playable(mid, ms.last()));
                assert(played(mid, g@, ms.last()));
                assert(ms.len() > 0);
                lemma_replayed_step(g0, mid, g@, ms);
            }
        }
        proof {
            assert(bv.moves.take(bv.moves.len() as int) =~= bv.moves);
        }
        Ok(g)
    }
}

impl Game {
    /// A new builder of games.
    pub fn builder() -> (r: GameBuilder)
        ensures
            r@ == default_view(),
    {
        GameBuilder::default()
    }
}

} // verus!
