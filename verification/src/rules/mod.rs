//! The rules of the game of go: players, moves, outcomes and rule sets.

use vstd::prelude::*;
use crate::pieces::Nat;
use crate::pieces::stones::Color;

pub mod game;
pub mod hashes;
pub mod game_builder;
pub mod sgf_bridge;
pub mod deadstones;

verus! {

/// A player.
#[derive(Debug, Clone, PartialEq, Eq, Copy, Hash, Structural)]
pub enum Player {
    White,
    Black,
}

/// The color of the stones of a player.
pub open spec fn player_color(p: Player) -> Color {
    match p {
        Player::Black => Color::Black,
        Player::White => Color::White,
    }
}

impl Player {
    /// The color of the player's stones.
    pub fn stone_color(self) -> (r: Color)
        ensures
            r == player_color(self),
    {
        match self {
            Player::Black => Color::Black,
            Player::White => Color::White,
        }
    }

    /// The other player.
    pub fn not(self) -> (r: Player)
        ensures
            r != self,
            player_color(r) == player_color(self).spec_opposite(),
    {
        match self {
            Player::Black => Player::White,
            Player::White => Player::Black,
        }
    }
}

/// The usual goban sizes, or any other `(height, width)`.
#[derive(Debug, PartialEq, Eq, Clone, Copy, Structural)]
pub enum GobanSizes {
    Nineteen,
    Nine,
    Thirteen,
    Custom(Nat, Nat),
}

/// The `(height, width)` of a goban size.
pub open spec fn size_of(s: GobanSizes) -> (Nat, Nat) {
    match s {
        GobanSizes::Nine => (9, 9),
        GobanSizes::Thirteen => (13, 13),
        GobanSizes::Nineteen => (19, 19),
        GobanSizes::Custom(height, width) => (height, width),
    }
}

impl GobanSizes {
    /// The `(height, width)` of the size.
    pub fn into(self) -> (r: (Nat, Nat))
        ensures
            r == size_of(self),
    {
        match self {
            GobanSizes::Nine => (9, 9),
            GobanSizes::Thirteen => (13, 13),
            GobanSizes::Nineteen => (19, 19),
            GobanSizes::Custom(height, width) => (height, width),
        }
    }

    /// The square size of side `x`; only 9, 13 and 19 have one.
    pub fn from(x: usize) -> (r: GobanSizes)
        requires
            x == 9 || x == 13 || x == 19,
        ensures
            size_of(r) == (x as u8, x as u8),
            r != (GobanSizes::Custom(x as u8, x as u8)),
    {
        if x == 9 {
            GobanSizes::Nine
        } else if x == 13 {
            GobanSizes::Thirteen
        } else {
            GobanSizes::Nineteen
        }
    }
}

/// A move: pass, resign (naming the winner) or put a stone at `(row, column)`.
#[derive(Debug, PartialEq, Eq, Clone, Copy, Hash, Structural)]
pub enum Move {
    Pass,
    Resign(Color),
    Play(Nat, Nat),
}

/// How a game ended. Scores are in tenths of a point.
#[derive(Debug, Clone, PartialEq, Eq, Copy, Structural)]
pub enum EndGame {
    WinnerByScore(Color, i64),
    WinnerByResign(Color),
    WinnerByTime(Color),
    WinnerByForfeit(Color),
    Draw,
}

/// The winner of an outcome, none for a draw.
pub open spec fn winner_of(e: EndGame) -> Option<Color> {
    match e {
        EndGame::WinnerByScore(p, _) => Some(p),
        EndGame::WinnerByResign(p) => Some(p),
        EndGame::WinnerByTime(p) => Some(p),
        EndGame::WinnerByForfeit(p) => Some(p),
        EndGame::Draw => None,
    }
}

impl EndGame {
    /// The winner, none for a draw.
    pub fn get_winner(self) -> (r: Option<Color>)
        ensures
            r == winner_of(self),
    {
        match self {
            EndGame::WinnerByScore(p, _) => Some(p),
            EndGame::WinnerByResign(p) => Some(p),
            EndGame::WinnerByTime(p) => Some(p),
            EndGame::WinnerByForfeit(p) => Some(p),
            EndGame::Draw => None,
        }
    }
}

/// Why a move is refused.
#[derive(Clone, Eq, PartialEq, Debug, Copy, Structural)]
pub enum PlayError {
    Ko,
    Suicide,
    GamePaused,
    FillEye,
    PointNotEmpty,
}

/// Behaviours that are not permitted: when a flag is up, the move is not legal.
#[derive(Clone, Eq, PartialEq, Debug, Copy, Structural)]
pub struct IllegalRules {
    pub bits: u32,
}

/// Types of scoring: the territory is always counted.
#[derive(Clone, Eq, PartialEq, Debug, Copy, Structural)]
pub struct ScoreRules {
    pub bits: u32,
}

/// The flag of the ko rule.
pub const KO_BIT: u32 = 1;
/// The flag of the super ko rule.
pub const SUPERKO_BIT: u32 = 2;
/// The flag that forbids suicides.
pub const SUICIDE_BIT: u32 = 4;
/// The flag that forbids filling one's own eyes.
pub const FILLEYE_BIT: u32 = 8;
/// The flag to count the stones.
pub const STONES_BIT: u32 = 1;
/// The flag to add the komi.
pub const KOMI_BIT: u32 = 2;
/// The flag to count the prisoners.
pub const PRISONNERS_BIT: u32 = 4;

impl IllegalRules {
    /// Filters ko moves.
    pub fn ko() -> (r: Self)
        ensures
            r.bits == KO_BIT,
    {
        IllegalRules { bits: KO_BIT }
    }

    /// Filters super ko moves.
    pub fn superko() -> (r: Self)
        ensures
            r.bits == SUPERKO_BIT,
    {
        IllegalRules { bits: SUPERKO_BIT }
    }

    /// Filters suicides.
    pub fn suicide() -> (r: Self)
        ensures
            r.bits == SUICIDE_BIT,
    {
        IllegalRules { bits: SUICIDE_BIT }
    }

    /// Filters moves that fill one's own eyes.
    pub fn filleye() -> (r: Self)
        ensures
            r.bits == FILLEYE_BIT,
    {
        IllegalRules { bits: FILLEYE_BIT }
    }

    /// Both sets of flags.
    pub fn union(self, other: Self) -> (r: Self)
        ensures
            r.bits == self.bits | other.bits,
    {
        IllegalRules { bits: self.bits | other.bits }
    }

    /// True when every flag of `other` is up.
    pub fn contains(self, other: Self) -> (r: bool)
        ensures
            r == (self.bits & other.bits == other.bits),
    {
        self.bits & other.bits == other.bits
    }
}

impl ScoreRules {
    /// Counts the stones.
    pub fn stones() -> (r: Self)
        ensures
            r.bits == STONES_BIT,
    {
        ScoreRules { bits: STONES_BIT }
    }

    /// Adds the komi.
    pub fn komi() -> (r: Self)
        ensures
            r.bits == KOMI_BIT,
    {
        ScoreRules { bits: KOMI_BIT }
    }

    /// Counts the prisoners.
    pub fn prisonners() -> (r: Self)
        ensures
            r.bits == PRISONNERS_BIT,
    {
        ScoreRules { bits: PRISONNERS_BIT }
    }

    /// Both sets of flags.
    pub fn union(self, other: Self) -> (r: Self)
        ensures
            r.bits == self.bits | other.bits,
    {
        ScoreRules { bits: self.bits | other.bits }
    }

    /// True when every flag of `other` is up.
    pub fn contains(self, other: Self) -> (r: bool)
        ensures
            r == (self.bits & other.bits == other.bits),
    {
        self.bits & other.bits == other.bits
    }
}

/// The rule set of a game: for example, chinese rules do not count prisoners.
#[derive(Clone, Eq, PartialEq, Debug, Copy, Structural)]
pub enum Rule {
    Japanese,
    Chinese,
}

/// Japanese rules.
pub const JAPANESE: Rule = Rule::Japanese;
/// Chinese rules.
pub const CHINESE: Rule = Rule::Chinese;

/// The komi of a rule, in tenths of a point.
pub open spec fn rule_komi(r: Rule) -> i32 {
    match r {
        Rule::Japanese => 65,
        Rule::Chinese => 75,
    }
}

/// The illegal-move flags of a rule.
pub open spec fn rule_illegal(r: Rule) -> u32 {
    match r {
        Rule::Japanese => KO_BIT | SUICIDE_BIT,
        Rule::Chinese => SUPERKO_BIT | KO_BIT | SUICIDE_BIT,
    }
}

/// The scoring flags of a rule.
pub open spec fn rule_score(r: Rule) -> u32 {
    match r {
        Rule::Japanese => KOMI_BIT | PRISONNERS_BIT,
        Rule::Chinese => KOMI_BIT | STONES_BIT,
    }
}

impl Rule {
    /// The komi defined by the rule, in tenths of a point (6.5 japanese, 7.5 chinese).
    pub fn komi(self) -> (r: i32)
        ensures
            r == rule_komi(self),
    {
        match self {
            Rule::Japanese => 65,
            Rule::Chinese => 75,
        }
    }

    /// The moves that the rule forbids: ko and suicide, and super ko in chinese rules.
    pub fn illegal_flag(self) -> (r: IllegalRules)
        ensures
            r.bits == rule_illegal(self),
    {
        match self {
            Rule::Japanese => IllegalRules::ko().union(IllegalRules::suicide()),
            Rule::Chinese => IllegalRules::superko().union(IllegalRules::ko()).union(IllegalRules::suicide()),
        }
    }

    /// How the rule scores: komi and prisoners in japanese rules, komi and stones in
    /// chinese rules.
    pub fn score_flag(self) -> (r: ScoreRules)
        ensures
            r.bits == rule_score(self),
    {
        match self {
            Rule::Japanese => ScoreRules::komi().union(ScoreRules::prisonners()),
            Rule::Chinese => ScoreRules::komi().union(ScoreRules::stones()),
        }
    }

    /// Reads a rule from its short name, `"JAP"` or `"CHI"`.
    pub fn from_str(s: &str) -> (r: Option<Rule>)
        ensures
            r == (if s@ == "JAP"@ {
                Some(Rule::Japanese)
            } else if s@ == "CHI"@ {
                Some(Rule::Chinese)
            } else {
                None
            }),
    {
        let jap = "JAP";
        let chi = "CHI";
        if str_eq(s, jap) {
            Some(Rule::Japanese)
        } else if str_eq(s, chi) {
            Some(Rule::Chinese)
        } else {
            None
        }
    }
}

/// True when the two strings hold the same characters.
pub fn str_eq(a: &str, b: &str) -> (r: bool)
    ensures
        r == (a@ == b@),
{
    let la = a.unicode_len();
    let lb = b.unicode_len();
    if la != lb {
        return false;
    }
    let mut i: usize = 0;
    while i < la
        invariant
            la == a@.len(),
            lb == b@.len(),
            la == lb,
            0 <= i <= la,
            forall|k: int| 0 <= k < i ==> a@[k] == b@[k],
        decreases la - i,
    {
        if a.get_char(i) != b.get_char(i) {
            return false;
        }
        i += 1;
    }
    assert(a@ =~= b@);
    true
}

} // verus!
