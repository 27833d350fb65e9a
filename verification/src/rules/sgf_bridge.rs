//! Games from SGF text: the root node sets up the game, and the first move of each later node
//! of the main line is replayed.

use vstd::prelude::*;
use crate::pieces::stones::{Color, Stone};
use crate::pieces::util::coord::Coord;
use crate::rules::game::Game;
use crate::rules::game_builder::{built, default_view, lemma_built_settings, BuilderView, GameBuilder};
use crate::rules::{EndGame, Move, Rule};
use crate::sgf::node::GameNode;
use crate::sgf::parser::{node_views, p_tree, parse, roots_placed, token_views, tree_view, TreeView};
use crate::sgf::text::{chars_of, string_of};
use crate::sgf::token::{Outcome, RuleSet, SgfToken, TokenView};
use crate::sgf::tree::GameTree;

verus! {

/// The nodes of the main line: the tree's nodes, then those of its first variation's main
/// line.
pub open spec fn line_of(t: TreeView) -> Seq<Seq<TokenView>>
    decreases t,
{
    if t.variations.len() > 0 {
        t.nodes + line_of(t.variations[0])
    } else {
        t.nodes
    }
}

/// The nodes of the main line of a game tree.
pub open spec fn game_line(t: GameTree) -> Seq<GameNode>
    decreases t,
{
    if t.variations@.len() > 0 {
        t.nodes@ + game_line(t.variations@[0])
    } else {
        t.nodes@
    }
}

/// The nodes that a list of references points to.
pub open spec fn nodes_of_refs(s: Seq<&GameNode>) -> Seq<GameNode> {
    s.map_values(|n: &GameNode| *n)
}

/// The color of a stone that an SGF color names.
pub open spec fn stone_color(c: crate::sgf::token::Color) -> Color {
    match c {
        crate::sgf::token::Color::Black => Color::Black,
        crate::sgf::token::Color::White => Color::White,
    }
}

/// The outcome of a game that an SGF result names.
pub open spec fn end_of(o: Outcome) -> EndGame {
    match o {
        Outcome::WinnerByResign(c) => EndGame::WinnerByResign(stone_color(c)),
        Outcome::WinnerByForfeit(c) => EndGame::WinnerByForfeit(stone_color(c)),
        Outcome::WinnerByPoints(c, p) => EndGame::WinnerByScore(stone_color(c), p as i64),
        Outcome::WinnerByTime(c) => EndGame::WinnerByTime(stone_color(c)),
        Outcome::Draw => EndGame::Draw,
    }
}

/// The rule that an SGF rule set names.
pub open spec fn rule_of_set(r: RuleSet) -> Rule {
    match r {
        RuleSet::Japanese => Rule::Japanese,
        RuleSet::Chinese => Rule::Chinese,
    }
}

/// One less, wrapping at zero (SGF coordinates count from one).
pub open spec fn less_one(v: u8) -> u8 {
    if v == 0 {
        255
    } else {
        (v - 1) as u8
    }
}

/// The goban point of an SGF coordinate `(column, row)`.
pub open spec fn point_of(p: (u8, u8)) -> Coord {
    (less_one(p.1), less_one(p.0))
}

/// True for the identifier `PL`.
pub open spec fn is_pl(k: Seq<char>) -> bool {
    k == seq!['P', 'L']
}

/// A root token leaves the settings playable: a `PL` property names black or white.
pub open spec fn root_token_ok(t: TokenView) -> bool {
    match t {
        TokenView::Unknown(k, v) => is_pl(k) ==> (v == seq!['B'] || v == seq!['W']),
        _ => true,
    }
}

/// The settings after a root token.
pub open spec fn apply_root(b: BuilderView, t: TokenView) -> BuilderView {
    match t {
        TokenView::Komi(k) => BuilderView { komi: Some(k), ..b },
        TokenView::Size(x, y) => BuilderView { size: (x as u8, y as u8), ..b },
        TokenView::Result(o) => BuilderView { outcome: Some(end_of(o)), ..b },
        TokenView::Add { color, coordinate } => BuilderView {
            setup: b.setup.push(Stone { coord: point_of(coordinate), color: stone_color(color) }),
            ..b
        },
        TokenView::Rule(r) => BuilderView { rule: rule_of_set(r), ..b },
        TokenView::Handicap(h) => BuilderView { handicap: Some(h), ..b },
        TokenView::Unknown(k, v) => if is_pl(k) && v == seq!['B'] {
            BuilderView { turn: Some(Color::Black), ..b }
        } else if is_pl(k) && v == seq!['W'] {
            BuilderView { turn: Some(Color::White), ..b }
        } else {
            b
        },
        _ => b,
    }
}

/// The settings after the first `n` root tokens, and whether each of them was fine.
pub open spec fn apply_roots(b: BuilderView, toks: Seq<TokenView>, n: int) -> (BuilderView, bool)
    decreases n,
{
    if n <= 0 {
        (b, true)
    } else {
        let prev = apply_roots(b, toks, n - 1);
        (apply_root(prev.0, toks[n - 1]), prev.1 && root_token_ok(toks[n - 1]))
    }
}

/// The move that a node's first token plays, if it is a move.
pub open spec fn node_move(toks: Seq<TokenView>) -> Option<Move> {
    if toks.len() > 0 {
        match toks[0] {
            TokenView::Move { coordinate_or_pass: Some(p), .. } => Some(Move::Play(point_of(p).0, point_of(p).1)),
            TokenView::Move { coordinate_or_pass: None, .. } => Some(Move::Pass),
            _ => None,
        }
    } else {
        None
    }
}

/// The moves of the nodes of `line` from the second to the `n`-th.
pub open spec fn line_moves(line: Seq<Seq<TokenView>>, n: int) -> Seq<Move>
    decreases n,
{
    if n <= 1 {
        Seq::empty()
    } else {
        let prev = line_moves(line, n - 1);
        match node_move(line[n - 1]) {
            Some(m) => prev.push(m),
            None => prev,
        }
    }
}

/// The settings that a main line gives, and whether its root tokens were fine.
pub open spec fn builder_of(line: Seq<Seq<TokenView>>) -> (BuilderView, bool) {
    if line.len() == 0 {
        (BuilderView { moves: Seq::empty(), ..default_view() }, true)
    } else {
        let r = apply_roots(default_view(), line[0], line[0].len() as int);
        (BuilderView { moves: line_moves(line, line.len() as int), ..r.0 }, r.1)
    }
}

/// What `Game::from_sgf` gives for a text: an error where the text does not read as a game
/// tree, where a root property stands in another node, or where a `PL` property names
/// neither player; else what building the game that the main line describes gives.
pub open spec fn from_sgf_spec(s: Seq<char>, r: Result<Game, String>) -> bool {
    match p_tree(s, 0) {
        None => r is Err,
        Some((t, _)) => if !roots_placed(t, true) {
            r is Err
        } else {
            let (b, ok) = builder_of(line_of(t));
            if ok {
                built(b, r)
            } else {
                r is Err
            }
        },
    }
}

/// After the root tokens `toks[..n]`, the rule is the one that the last `RU` token among
/// them names: japanese for the japanese rule set, chinese for the chinese one.
pub proof fn lemma_root_rule(b: BuilderView, toks: Seq<TokenView>, n: int, k: int, set: RuleSet)
    requires
        0 <= k < n <= toks.len(),
        toks[k] == TokenView::Rule(set),
        forall|m: int| k < m < n ==> !(#[trigger] toks[m] is Rule),
    ensures
        (apply_roots(b, toks, n).0.rule == Rule::Japanese) == (set == RuleSet::Japanese),
        (apply_roots(b, toks, n).0.rule == Rule::Chinese) == (set == RuleSet::Chinese),
    decreases n,
{
    if n > k + 1 {
        lemma_root_rule(b, toks, n - 1, k, set);
        assert(!(toks[n - 1] is Rule));
    }
}

/// A game read from SGF text whose root node holds an `RU` property has the rule that the
/// last such property names: japanese for `RU[Japanese]`, chinese for `RU[Chinese]`.
pub proof fn lemma_sgf_rule(s: Seq<char>, g: Game, t: TreeView, k: int, set: RuleSet)
    requires
        from_sgf_spec(s, Ok::<Game, String>(g)),
        p_tree(s, 0) is Some,
        p_tree(s, 0).unwrap().0 == t,
        line_of(t).len() > 0,
        0 <= k < line_of(t)[0].len(),
        line_of(t)[0][k] == TokenView::Rule(set),
        forall|m: int| k < m < line_of(t)[0].len() ==> !(#[trigger] line_of(t)[0][m] is Rule),
    ensures
        (g@.rule == Rule::Japanese) == (set == RuleSet::Japanese),
        (g@.rule == Rule::Chinese) == (set == RuleSet::Chinese),
{
    let line = line_of(t);
    let b = builder_of(line).0;
    lemma_built_settings(b, g);
    lemma_root_rule(default_view(), line[0], line[0].len() as int, k, set);
}

/// The main line of a game tree reads as the main line of its view.
proof fn lemma_line_view(t: GameTree)
    ensures
        node_views(game_line(t)) == line_of(tree_view(t)),
    decreases t,
{
    if t.variations@.len() > 0 {
        let v = t.variations@[0];
        lemma_line_view(v);
        assert(tree_view(t).variations[0] == tree_view(v));
        assert(node_views(t.nodes@ + game_line(v)) =~= node_views(t.nodes@) + node_views(game_line(v)));
    }
}

/// Appends the nodes of the main line of `t` to `out`.
fn collect_line<'a>(t: &'a GameTree, out: &mut Vec<&'a GameNode>)
    ensures
        nodes_of_refs(final(out)@) == nodes_of_refs(old(out)@) + game_line(*t),
    decreases *t,
{
    let ghost start = nodes_of_refs(out@);
    let mut k: usize = 0;
    while k < t.nodes.len()
        invariant
            0 <= k <= t.nodes@.len(),
            nodes_of_refs(out@) == start + t.nodes@.take(k as int),
        decreases t.nodes@.len() - k,
    {
        let ghost before = out@;
        out.push(&t.nodes[k]);
        proof {
            assert(nodes_of_refs(out@) =~= nodes_of_refs(before).push(t.nodes@[k as int]));
            assert(t.nodes@.take(k + 1) =~= t.nodes@.take(k as int).push(t.nodes@[k as int]));
        }
        k += 1;
    }
    proof {
        assert(t.nodes@.take(t.nodes@.len() as int) =~= t.nodes@);
    }
    if t.variations.len() > 0 {
        let ghost mid = nodes_of_refs(out@);
        collect_line(&t.variations[0], out);
        proof {
            assert(mid + game_line(t.variations@[0]) =~= start + (t.nodes@ + game_line(t.variations@[0])));
        }
    }
}

/// The stone color of an SGF color.
fn stone_color_of(c: crate::sgf::token::Color) -> (r: Color)
    ensures
        r == stone_color(c),
{
    match c {
        crate::sgf::token::Color::Black => Color::Black,
        crate::sgf::token::Color::White => Color::White,
    }
}

/// The outcome of an SGF result.
fn end_of_outcome(o: Outcome) -> (r: EndGame)
    ensures
        r == end_of(o),
{
    match o {
        Outcome::WinnerByResign(c) => EndGame::WinnerByResign(stone_color_of(c)),
        Outcome::WinnerByForfeit(c) => EndGame::WinnerByForfeit(stone_color_of(c)),
        Outcome::WinnerByPoints(c, p) => EndGame::WinnerByScore(stone_color_of(c), p as i64),
        Outcome::WinnerByTime(c) => EndGame::WinnerByTime(stone_color_of(c)),
        Outcome::Draw => EndGame::Draw,
    }
}

/// The goban point of an SGF coordinate.
fn point_at(p: (u8, u8)) -> (r: Coord)
    ensures
        r == point_of(p),
{
    (p.1.wrapping_sub(1), p.0.wrapping_sub(1))
}

/// The characters of a string.
fn chars_of_string(s: &String) -> (r: Vec<char>)
    ensures
        r@ == s@,
{
    chars_of(s.as_str())
}

/// The move of a node's first token, if it is a move.
fn move_of_node(n: &GameNode) -> (r: Option<Move>)
    ensures
        r == node_move(token_views(n.tokens@)),
{
    if n.tokens.len() == 0 {
        return None;
    }
    match &n.tokens[0] {
        SgfToken::Move { coordinate_or_pass, .. } => match coordinate_or_pass {
            Some(p) => {
                let q = point_at(*p);
                Some(Move::Play(q.0, q.1))
            },
            None => Some(Move::Pass),
        },
        _ => None,
    }
}

impl Game {
    /// Reads a game from SGF text (see `from_sgf_spec`).
    pub fn from_sgf(sgf_str: &str) -> (r: Result<Game, String>)
        ensures
            from_sgf_spec(sgf_str@, r),
    {
        let tree = match parse(sgf_str) {
            Ok(t) => t,
            Err(_) => {
                return Err(string_of(&chars_of("the text is not a valid game")));
            },
        };
        let ghost tv = tree_view(tree);
        proof {
            assert(p_tree(sgf_str@, 0) is Some);
            assert(roots_placed(p_tree(sgf_str@, 0).unwrap().0, true));
            assert(tv == p_tree(sgf_str@, 0).unwrap().0);
        }
        let mut line: Vec<&GameNode> = Vec::new();
        collect_line(&tree, &mut line);
        proof {
            lemma_line_view(tree);
            assert(nodes_of_refs(Seq::<&GameNode>::empty()) =~= Seq::<GameNode>::empty());
            assert(Seq::<GameNode>::empty() + game_line(tree) =~= game_line(tree));
            assert(node_views(nodes_of_refs(line@)) =~= node_views(game_line(tree)));
        }
        let ghost lv = line_of(tv);
        assert(lv.len() == line@.len());
        assert(forall|k: int| 0 <= k < line@.len() ==> token_views((#[trigger] line@[k]).tokens@) == lv[k]);
        let mut builder = GameBuilder::default();
        if line.len() > 0 {
            let root = line[0];
            let ghost toks = lv[0];
            let mut k: usize = 0;
            while k < root.tokens.len()
                invariant
                    0 <= k <= root.tokens@.len(),
                    toks == token_views(root.tokens@),
                    lv == line_of(tv),
                    lv.len() > 0,
                    toks == lv[0],
                    p_tree(sgf_str@, 0) is Some,
                    tv == p_tree(sgf_str@, 0).unwrap().0,
                    roots_placed(tv, true),
                    builder@ == apply_roots(default_view(), toks, k as int).0,
                    apply_roots(default_view(), toks, k as int).1,
                decreases root.tokens@.len() - k,
            {
                let ghost tk = toks[k as int];
                assert(tk == root.tokens@[k as int]@);
                match &root.tokens[k] {
                    SgfToken::Komi(v) => {
                        builder.komi(*v);
                    },
                    SgfToken::Size(x, y) => {
                        let h: u8 = #[verifier::truncate] (*x as u8);
                        let w: u8 = #[verifier::truncate] (*y as u8);
                        builder.size((h, w));
                    },
                    SgfToken::Result(o) => {
                        builder.outcome(end_of_outcome(*o));
                    },
                    SgfToken::Add { color, coordinate } => {
                        builder.add(Stone { coord: point_at(*coordinate), color: stone_color_of(*color) });
                    },
                    SgfToken::Rule(set) => {
                        let rule = match set {
                            RuleSet::Japanese => Rule::Japanese,
                            RuleSet::Chinese => Rule::Chinese,
                        };
                        builder.rule(rule);
                    },
                    SgfToken::Handicap(h) => {
                        builder.handicap(*h);
                    },
                    SgfToken::Unknown((key, value)) => {
                        let kc = chars_of_string(key);
                        let vc = chars_of_string(value);
                        if kc.len() == 2 && kc[0] == 'P' && kc[1] == 'L' {
                            proof {
                                assert(kc@ =~= seq!['P', 'L']);
                            }
                            if vc.len() == 1 && vc[0] == 'B' {
                                proof {
                                    assert(vc@ =~= seq!['B']);
                                }
                                builder.turn(Color::Black);
                            } else if vc.len() == 1 && vc[0] == 'W' {
                                proof {
                                    assert(vc@ =~= seq!['W']);
                                }
                                builder.turn(Color::White);
                            } else {
                                proof {
                                    assert(vc@ != seq!['B']);
                                    assert(vc@ != seq!['W']);
                                    assert(!apply_roots(default_view(), toks, toks.len() as int).1) by {
                                        lemma_roots_fail(default_view(), toks, k as int + 1, toks.len() as int);
                                    }
                                    assert(!builder_of(lv).1);
                                }
                                return Err(string_of(&chars_of("the player to play is neither B nor W")));
                            }
                        } else {
                            proof {
                                assert(!is_pl(kc@));
                            }
                        }
                    },
                    _ => {},
                }
                k += 1;
            }
        }
        let mut moves: Vec<Move> = Vec::new();
        let mut n: usize = 1;
        while n < line.len()
            invariant
                1 <= n <= line@.len() || line@.len() == 0,
                lv.len() == line@.len(),
                forall|k: int| 0 <= k < line@.len() ==> token_views((#[trigger] line@[k]).tokens@) == lv[k],
                moves@ == line_moves(lv, n as int),
            decreases line@.len() - n,
        {
            match move_of_node(line[n]) {
                Some(m) => {
                    moves.push(m);
                },
                None => {},
            }
            n += 1;
        }
        builder.moves(&moves);
        builder.build()
    }
}

/// Once a root token is not fine, no longer prefix is.
proof fn lemma_roots_fail(b: BuilderView, toks: Seq<TokenView>, j: int, n: int)
    requires
        1 <= j <= n,
        !apply_roots(b, toks, j).1,
    ensures
        !apply_roots(b, toks, n).1,
    decreases n - j,
{
    if j < n {
        lemma_roots_fail(b, toks, j, n - 1);
    }
}

} // verus!
