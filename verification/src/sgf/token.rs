//! SGF properties (tokens): reading a property from its identifier and value, and writing
//! it back.

use vstd::prelude::*;
use crate::sgf::text::{
    all_digits, chars_of, coord_text, eq_chars, find, find_char, keep_upper, num_text, parse_coord, parse_tenths, parse_u32, read_coord,
    read_tenths, read_u32, read_u32_at, string_of, sub_chars, tenths_text, upper_of, write_coord, write_num, write_tenths, is_upper, is_digit,
    letter_coord, lemma_coord_round_trip, lemma_u32_round_trip, lemma_tenths_round_trip, lemma_num_text, lemma_find_char, lemma_tenths_range,
};

verus! {

/// The color of a player in SGF.
#[derive(Debug, Clone, Copy, PartialEq, Eq, Structural)]
pub enum Color {
    Black,
    White,
}

/// The result of a game. Points are in tenths of a point.
#[derive(Debug, Clone, Copy, PartialEq, Eq, Structural)]
pub enum Outcome {
    WinnerByResign(Color),
    WinnerByPoints(Color, i32),
    WinnerByTime(Color),
    WinnerByForfeit(Color),
    Draw,
}

/// A rule set named in a game.
#[derive(Debug, Clone, Copy, PartialEq, Eq, Structural)]
pub enum RuleSet {
    Japanese,
    Chinese,
}

/// An SGF property. Coordinates count from 1; the komi is in tenths of a point.
#[derive(Debug, PartialEq)]
pub enum SgfToken {
    Add { color: Color, coordinate: (u8, u8) },
    Move { color: Color, coordinate_or_pass: Option<(u8, u8)> },
    Time { color: Color, time: u32 },
    PlayerName { color: Color, name: String },
    PlayerRank { color: Color, rank: String },
    Komi(i32),
    Event(String),
    Copyright(String),
    GameName(String),
    Place(String),
    Date(String),
    Size(u32, u32),
    TimeLimit(u32),
    Handicap(u32),
    Comment(String),
    Square { coordinate: (u8, u8) },
    Triangle { coordinate: (u8, u8) },
    Label { label: String, coordinate: (u8, u8) },
    Result(Outcome),
    Rule(RuleSet),
    Unknown((String, String)),
    Invalid((String, String)),
}

/// An SGF property with its texts as character sequences.
pub ghost enum TokenView {
    Add { color: Color, coordinate: (u8, u8) },
    Move { color: Color, coordinate_or_pass: Option<(u8, u8)> },
    Time { color: Color, time: u32 },
    PlayerName { color: Color, name: Seq<char> },
    PlayerRank { color: Color, rank: Seq<char> },
    Komi(i32),
    Event(Seq<char>),
    Copyright(Seq<char>),
    GameName(Seq<char>),
    Place(Seq<char>),
    Date(Seq<char>),
    Size(u32, u32),
    TimeLimit(u32),
    Handicap(u32),
    Comment(Seq<char>),
    Square { coordinate: (u8, u8) },
    Triangle { coordinate: (u8, u8) },
    Label { label: Seq<char>, coordinate: (u8, u8) },
    Result(Outcome),
    Rule(RuleSet),
    Unknown(Seq<char>, Seq<char>),
    Invalid(Seq<char>, Seq<char>),
}

impl View for SgfToken {
    type V = TokenView;

    open spec fn view(&self) -> TokenView {
        match self {
            SgfToken::Add { color, coordinate } => TokenView::Add { color: *color, coordinate: *coordinate },
            SgfToken::Move { color, coordinate_or_pass } => TokenView::Move { color: *color, coordinate_or_pass: *coordinate_or_pass },
            SgfToken::Time { color, time } => TokenView::Time { color: *color, time: *time },
            SgfToken::PlayerName { color, name } => TokenView::PlayerName { color: *color, name: name@ },
            SgfToken::PlayerRank { color, rank } => TokenView::PlayerRank { color: *color, rank: rank@ },
            SgfToken::Komi(k) => TokenView::Komi(*k),
            SgfToken::Event(s) => TokenView::Event(s@),
            SgfToken::Copyright(s) => TokenView::Copyright(s@),
            SgfToken::GameName(s) => TokenView::GameName(s@),
            SgfToken::Place(s) => TokenView::Place(s@),
            SgfToken::Date(s) => TokenView::Date(s@),
            SgfToken::Size(w, h) => TokenView::Size(*w, *h),
            SgfToken::TimeLimit(t) => TokenView::TimeLimit(*t),
            SgfToken::Handicap(h) => TokenView::Handicap(*h),
            SgfToken::Comment(s) => TokenView::Comment(s@),
            SgfToken::Square { coordinate } => TokenView::Square { coordinate: *coordinate },
            SgfToken::Triangle { coordinate } => TokenView::Triangle { coordinate: *coordinate },
            SgfToken::Label { label, coordinate } => TokenView::Label { label: label@, coordinate: *coordinate },
            SgfToken::Result(o) => TokenView::Result(*o),
            SgfToken::Rule(r) => TokenView::Rule(*r),
            SgfToken::Unknown((a, b)) => TokenView::Unknown(a@, b@),
            SgfToken::Invalid((a, b)) => TokenView::Invalid(a@, b@),
        }
    }
}

/// The letter of a color.
pub open spec fn color_letter(c: Color) -> char {
    match c {
        Color::Black => 'B',
        Color::White => 'W',
    }
}

/// The color of a letter, if it names one.
pub open spec fn letter_color(c: char) -> Option<Color> {
    if c == 'B' {
        Some(Color::Black)
    } else if c == 'W' {
        Some(Color::White)
    } else {
        None
    }
}

/// The result that a text gives: `0` or `Draw`, or a color letter, `+` and `R`/`Resign`,
/// `T`/`Time`, `F`/`Forfeit` or the points in tenths.
pub open spec fn outcome_of(v: Seq<char>) -> Option<Outcome> {
    if v == seq!['0'] || v == seq!['D', 'r', 'a', 'w'] {
        Some(Outcome::Draw)
    } else if v.len() >= 3 && letter_color(v[0]) is Some && v[1] == '+' {
        let c = letter_color(v[0]).unwrap();
        let rest = v.subrange(2, v.len() as int);
        if rest == seq!['R'] || rest == seq!['R', 'e', 's', 'i', 'g', 'n'] {
            Some(Outcome::WinnerByResign(c))
        } else if rest == seq!['T'] || rest == seq!['T', 'i', 'm', 'e'] {
            Some(Outcome::WinnerByTime(c))
        } else if rest == seq!['F'] || rest == seq!['F', 'o', 'r', 'f', 'e', 'i', 't'] {
            Some(Outcome::WinnerByForfeit(c))
        } else if parse_tenths(rest) is Some {
            Some(Outcome::WinnerByPoints(c, parse_tenths(rest).unwrap()))
        } else {
            None
        }
    } else {
        None
    }
}

/// A result written out.
pub open spec fn outcome_text(o: Outcome) -> Seq<char> {
    match o {
        Outcome::Draw => seq!['D', 'r', 'a', 'w'],
        Outcome::WinnerByResign(c) => seq![color_letter(c), '+', 'R'],
        Outcome::WinnerByTime(c) => seq![color_letter(c), '+', 'T'],
        Outcome::WinnerByForfeit(c) => seq![color_letter(c), '+', 'F'],
        Outcome::WinnerByPoints(c, p) => seq![color_letter(c), '+'] + tenths_text(p as int),
    }
}

/// The rule set that a name gives.
pub open spec fn rule_of(v: Seq<char>) -> Option<RuleSet> {
    if v == seq!['J', 'a', 'p', 'a', 'n', 'e', 's', 'e'] {
        Some(RuleSet::Japanese)
    } else if v == seq!['C', 'h', 'i', 'n', 'e', 's', 'e'] {
        Some(RuleSet::Chinese)
    } else {
        None
    }
}

/// The name of a rule set.
pub open spec fn rule_text(r: RuleSet) -> Seq<char> {
    match r {
        RuleSet::Japanese => seq!['J', 'a', 'p', 'a', 'n', 'e', 's', 'e'],
        RuleSet::Chinese => seq!['C', 'h', 'i', 'n', 'e', 's', 'e'],
    }
}

/// The size that a value gives: `n` for a square board or `w:h`.
pub open spec fn size_of_value(v: Seq<char>) -> Option<(u32, u32)> {
    let k = crate::sgf::text::find_char(v, ':', 0);
    if k < v.len() {
        if parse_u32(v.subrange(0, k)) is Some && parse_u32(v.subrange(k + 1, v.len() as int)) is Some {
            Some((parse_u32(v.subrange(0, k)).unwrap(), parse_u32(v.subrange(k + 1, v.len() as int)).unwrap()))
        } else {
            None
        }
    } else if parse_u32(v) is Some {
        Some((parse_u32(v).unwrap(), parse_u32(v).unwrap()))
    } else {
        None
    }
}

/// The property that an identifier and a value give. Only the upper-case letters of the
/// identifier count; a value that does not fit the property gives an invalid token, and an
/// identifier that names no known property gives an unknown token.
pub open spec fn token_of(ident: Seq<char>, value: Seq<char>) -> TokenView {
    let id = upper_of(ident);
    let invalid = TokenView::Invalid(ident, value);
    if id.len() == 1 && (id[0] == 'B' || id[0] == 'W') {
        let c = letter_color(id[0]).unwrap();
        if value.len() == 0 {
            TokenView::Move { color: c, coordinate_or_pass: None }
        } else if parse_coord(value) is Some {
            TokenView::Move { color: c, coordinate_or_pass: parse_coord(value) }
        } else {
            invalid
        }
    } else if id.len() == 2 && (id[0] == 'B' || id[0] == 'W') && id[1] == 'L' {
        match parse_u32(value) {
            Some(t) => TokenView::Time { color: letter_color(id[0]).unwrap(), time: t },
            None => invalid,
        }
    } else if id.len() == 2 && id[0] == 'P' && (id[1] == 'B' || id[1] == 'W') {
        TokenView::PlayerName { color: letter_color(id[1]).unwrap(), name: value }
    } else if id.len() == 2 && (id[0] == 'B' || id[0] == 'W') && id[1] == 'R' {
        TokenView::PlayerRank { color: letter_color(id[0]).unwrap(), rank: value }
    } else if id.len() == 2 && id[0] == 'A' && (id[1] == 'B' || id[1] == 'W') {
        match parse_coord(value) {
            Some(p) => TokenView::Add { color: letter_color(id[1]).unwrap(), coordinate: p },
            None => invalid,
        }
    } else if id == seq!['K', 'M'] {
        match parse_tenths(value) {
            Some(k) => TokenView::Komi(k),
            None => invalid,
        }
    } else if id == seq!['S', 'Z'] {
        match size_of_value(value) {
            Some(s) => TokenView::Size(s.0, s.1),
            None => invalid,
        }
    } else if id == seq!['T', 'M'] {
        match parse_u32(value) {
            Some(t) => TokenView::TimeLimit(t),
            None => invalid,
        }
    } else if id == seq!['H', 'A'] {
        match parse_u32(value) {
            Some(h) => TokenView::Handicap(h),
            None => invalid,
        }
    } else if id == seq!['E', 'V'] {
        TokenView::Event(value)
    } else if id == seq!['C'] {
        TokenView::Comment(value)
    } else if id == seq!['G', 'N'] {
        TokenView::GameName(value)
    } else if id == seq!['C', 'R'] {
        TokenView::Copyright(value)
    } else if id == seq!['D', 'T'] {
        TokenView::Date(value)
    } else if id == seq!['P', 'C'] {
        TokenView::Place(value)
    } else if id == seq!['T', 'R'] {
        match parse_coord(value) {
            Some(p) => TokenView::Triangle { coordinate: p },
            None => invalid,
        }
    } else if id == seq!['S', 'Q'] {
        match parse_coord(value) {
            Some(p) => TokenView::Square { coordinate: p },
            None => invalid,
        }
    } else if id == seq!['L', 'B'] {
        if value.len() >= 4 && value[2] == ':' && parse_coord(value.subrange(0, 2)) is Some {
            TokenView::Label { label: value.subrange(3, value.len() as int), coordinate: parse_coord(value.subrange(0, 2)).unwrap() }
        } else {
            invalid
        }
    } else if id == seq!['R', 'E'] {
        match outcome_of(value) {
            Some(o) => TokenView::Result(o),
            None => invalid,
        }
    } else if id == seq!['R', 'U'] {
        match rule_of(value) {
            Some(r) => TokenView::Rule(r),
            None => invalid,
        }
    } else {
        TokenView::Unknown(ident, value)
    }
}

/// The identifier and the value that write a property.
pub open spec fn token_parts(t: TokenView) -> (Seq<char>, Seq<char>) {
    match t {
        TokenView::Add { color, coordinate } => (seq!['A', color_letter(color)], coord_text(coordinate)),
        TokenView::Move { color, coordinate_or_pass } => (seq![color_letter(color)], match coordinate_or_pass {
            Some(p) => coord_text(p),
            None => Seq::empty(),
        }),
        TokenView::Time { color, time } => (seq![color_letter(color), 'L'], num_text(time as nat)),
        TokenView::PlayerName { color, name } => (seq!['P', color_letter(color)], name),
        TokenView::PlayerRank { color, rank } => (seq![color_letter(color), 'R'], rank),
        TokenView::Komi(k) => (seq!['K', 'M'], tenths_text(k as int)),
        TokenView::Event(s) => (seq!['E', 'V'], s),
        TokenView::Copyright(s) => (seq!['C', 'R'], s),
        TokenView::GameName(s) => (seq!['G', 'N'], s),
        TokenView::Place(s) => (seq!['P', 'C'], s),
        TokenView::Date(s) => (seq!['D', 'T'], s),
        TokenView::Size(w, h) => (seq!['S', 'Z'], if w == h {
            num_text(w as nat)
        } else {
            num_text(w as nat) + seq![':'] + num_text(h as nat)
        }),
        TokenView::TimeLimit(t) => (seq!['T', 'M'], num_text(t as nat)),
        TokenView::Handicap(h) => (seq!['H', 'A'], num_text(h as nat)),
        TokenView::Comment(s) => (seq!['C'], s),
        TokenView::Square { coordinate } => (seq!['S', 'Q'], coord_text(coordinate)),
        TokenView::Triangle { coordinate } => (seq!['T', 'R'], coord_text(coordinate)),
        TokenView::Label { label, coordinate } => (seq!['L', 'B'], coord_text(coordinate) + seq![':'] + label),
        TokenView::Result(o) => (seq!['R', 'E'], outcome_text(o)),
        TokenView::Rule(r) => (seq!['R', 'U'], rule_text(r)),
        TokenView::Unknown(a, b) => (a, b),
        TokenView::Invalid(a, b) => (a, b),
    }
}

/// A property written out: its identifier, then its value in brackets.
pub open spec fn token_text(t: TokenView) -> Seq<char> {
    token_parts(t).0 + seq!['['] + token_parts(t).1 + seq![']']
}

/// The coordinates of a token that has some lie between 1 and 26, as letters write them.
pub open spec fn coords_ok(t: TokenView) -> bool {
    match t {
        TokenView::Add { coordinate, .. } => 1 <= coordinate.0 <= 26 && 1 <= coordinate.1 <= 26,
        TokenView::Move { coordinate_or_pass: Some(p), .. } => 1 <= p.0 <= 26 && 1 <= p.1 <= 26,
        TokenView::Square { coordinate } => 1 <= coordinate.0 <= 26 && 1 <= coordinate.1 <= 26,
        TokenView::Triangle { coordinate } => 1 <= coordinate.0 <= 26 && 1 <= coordinate.1 <= 26,
        TokenView::Label { coordinate, .. } => 1 <= coordinate.0 <= 26 && 1 <= coordinate.1 <= 26,
        _ => true,
    }
}

/// The color of a letter that names one.
fn color_of(c: char) -> (r: Color)
    requires
        c == 'B' || c == 'W',
    ensures
        Some(r) == letter_color(c),
{
    if c == 'B' {
        Color::Black
    } else {
        Color::White
    }
}

/// Reads a result.
pub fn read_outcome(v: &[char]) -> (r: Option<Outcome>)
    ensures
        r == outcome_of(v@),
{
    let lit0: Vec<char> = vec!['0'];
    let lit1: Vec<char> = vec!['D', 'r', 'a', 'w'];
    let lit2: Vec<char> = vec!['R'];
    let lit3: Vec<char> = vec!['R', 'e', 's', 'i', 'g', 'n'];
    let lit4: Vec<char> = vec!['T'];
    let lit5: Vec<char> = vec!['T', 'i', 'm', 'e'];
    let lit6: Vec<char> = vec!['F'];
    let lit7: Vec<char> = vec!['F', 'o', 'r', 'f', 'e', 'i', 't'];
    assert(lit0@ == seq!['0']);
    assert(lit1@ == seq!['D', 'r', 'a', 'w']);
    assert(lit2@ == seq!['R']);
    assert(lit3@ == seq!['R', 'e', 's', 'i', 'g', 'n']);
    assert(lit4@ == seq!['T']);
    assert(lit5@ == seq!['T', 'i', 'm', 'e']);
    assert(lit6@ == seq!['F']);
    assert(lit7@ == seq!['F', 'o', 'r', 'f', 'e', 'i', 't']);
    if eq_chars(v, lit0.as_slice()) || eq_chars(v, lit1.as_slice()) {
        return Some(Outcome::Draw);
    }
    if v.len() >= 3 && (v[0] == 'B' || v[0] == 'W') && v[1] == '+' {
        let c = color_of(v[0]);
        let rest = sub_chars(v, 2, v.len());
        if eq_chars(&rest, lit2.as_slice()) || eq_chars(&rest, lit3.as_slice()) {
            Some(Outcome::WinnerByResign(c))
        } else if eq_chars(&rest, lit4.as_slice()) || eq_chars(&rest, lit5.as_slice()) {
            Some(Outcome::WinnerByTime(c))
        } else if eq_chars(&rest, lit6.as_slice()) || eq_chars(&rest, lit7.as_slice()) {
            Some(Outcome::WinnerByForfeit(c))
        } else {
            match read_tenths(&rest) {
                Some(p) => Some(Outcome::WinnerByPoints(c, p)),
                None => None,
            }
        }
    } else {
        None
    }
}

/// Reads a rule set name.
pub fn read_rule(v: &[char]) -> (r: Option<RuleSet>)
    ensures
        r == rule_of(v@),
{
    let lit8: Vec<char> = vec!['J', 'a', 'p', 'a', 'n', 'e', 's', 'e'];
    let lit9: Vec<char> = vec!['C', 'h', 'i', 'n', 'e', 's', 'e'];
    if eq_chars(v, lit8.as_slice()) {
        Some(RuleSet::Japanese)
    } else if eq_chars(v, lit9.as_slice()) {
        Some(RuleSet::Chinese)
    } else {
        None
    }
}

/// Reads a board size.
pub fn read_size(v: &[char]) -> (r: Option<(u32, u32)>)
    ensures
        r == size_of_value(v@),
{
    let k = find(v, ':', 0);
    if k < v.len() {
        match (read_u32_at(v, 0, k), read_u32_at(v, k + 1, v.len())) {
            (Some(w), Some(h)) => Some((w, h)),
            _ => None,
        }
    } else {
        proof {
            assert(v@.subrange(0, v@.len() as int) == v@);
        }
        match read_u32_at(v, 0, v.len()) {
            Some(n) => Some((n, n)),
            None => None,
        }
    }
}

/// True when `id` is the one letter `a`.
fn is1(id: &[char], a: char) -> (r: bool)
    ensures
        r == (id@ == seq![a]),
{
    let r = id.len() == 1 && id[0] == a;
    proof {
        if r {
            assert(id@ =~= seq![a]);
        }
    }
    r
}

/// True when `id` is the two letters `a`, `b`.
fn is2(id: &[char], a: char, b: char) -> (r: bool)
    ensures
        r == (id@ == seq![a, b]),
{
    let r = id.len() == 2 && id[0] == a && id[1] == b;
    proof {
        if r {
            assert(id@ =~= seq![a, b]);
        }
    }
    r
}

impl SgfToken {
    /// The property that an identifier and a value give (see `token_of`).
    pub fn from_pair(base_ident: &str, value: &str) -> (r: SgfToken)
        ensures
            r@ == token_of(base_ident@, value@),
    {
        let ic = chars_of(base_ident);
        let vc = chars_of(value);
        Self::from_chars(&ic, &vc)
    }

    /// The property that the characters of an identifier and of a value give.
    pub fn from_chars(ic: &[char], vc: &[char]) -> (r: SgfToken)
        ensures
            r@ == token_of(ic@, vc@),
    {
        let id = keep_upper(ic);
        let ghost ids = id@;
        let n = id.len();
        if n == 1 && (id[0] == 'B' || id[0] == 'W') {
            let c = color_of(id[0]);
            if vc.len() == 0 {
                return SgfToken::Move { color: c, coordinate_or_pass: None };
            }
            return match read_coord(vc) {
                Some(p) => SgfToken::Move { color: c, coordinate_or_pass: Some(p) },
                None => SgfToken::Invalid((string_of(ic), string_of(vc))),
            };
        }
        if n == 2 && (id[0] == 'B' || id[0] == 'W') && id[1] == 'L' {
            return match read_u32(vc) {
                Some(t) => SgfToken::Time { color: color_of(id[0]), time: t },
                None => SgfToken::Invalid((string_of(ic), string_of(vc))),
            };
        }
        if n == 2 && id[0] == 'P' && (id[1] == 'B' || id[1] == 'W') {
            return SgfToken::PlayerName { color: color_of(id[1]), name: string_of(vc) };
        }
        if n == 2 && (id[0] == 'B' || id[0] == 'W') && id[1] == 'R' {
            return SgfToken::PlayerRank { color: color_of(id[0]), rank: string_of(vc) };
        }
        if n == 2 && id[0] == 'A' && (id[1] == 'B' || id[1] == 'W') {
            return match read_coord(vc) {
                Some(p) => SgfToken::Add { color: color_of(id[1]), coordinate: p },
                None => SgfToken::Invalid((string_of(ic), string_of(vc))),
            };
        }
        let invalid = SgfToken::Invalid((string_of(ic), string_of(vc)));
        if is2(&id, 'K', 'M') {
            match read_tenths(vc) {
                Some(k) => SgfToken::Komi(k),
                None => invalid,
            }
        } else if is2(&id, 'S', 'Z') {
            match read_size(vc) {
                Some(sz) => SgfToken::Size(sz.0, sz.1),
                None => invalid,
            }
        } else if is2(&id, 'T', 'M') {
            match read_u32(vc) {
                Some(t) => SgfToken::TimeLimit(t),
                None => invalid,
            }
        } else if is2(&id, 'H', 'A') {
            match read_u32(vc) {
                Some(h) => SgfToken::Handicap(h),
                None => invalid,
            }
        } else if is2(&id, 'E', 'V') {
            SgfToken::Event(string_of(vc))
        } else if is1(&id, 'C') {
            SgfToken::Comment(string_of(vc))
        } else if is2(&id, 'G', 'N') {
            SgfToken::GameName(string_of(vc))
        } else if is2(&id, 'C', 'R') {
            SgfToken::Copyright(string_of(vc))
        } else if is2(&id, 'D', 'T') {
            SgfToken::Date(string_of(vc))
        } else if is2(&id, 'P', 'C') {
            SgfToken::Place(string_of(vc))
        } else if is2(&id, 'T', 'R') {
            match read_coord(vc) {
                Some(p) => SgfToken::Triangle { coordinate: p },
                None => invalid,
            }
        } else if is2(&id, 'S', 'Q') {
            match read_coord(vc) {
                Some(p) => SgfToken::Square { coordinate: p },
                None => invalid,
            }
        } else if is2(&id, 'L', 'B') {
            if vc.len() >= 4 && vc[2] == ':' {
                let head = sub_chars(vc, 0, 2);
                match read_coord(&head) {
                    Some(p) => SgfToken::Label { label: string_of(&sub_chars(vc, 3, vc.len())), coordinate: p },
                    None => invalid,
                }
            } else {
                invalid
            }
        } else if is2(&id, 'R', 'E') {
            match read_outcome(vc) {
                Some(o) => SgfToken::Result(o),
                None => invalid,
            }
        } else if is2(&id, 'R', 'U') {
            match read_rule(vc) {
                Some(r) => SgfToken::Rule(r),
                None => invalid,
            }
        } else {
            SgfToken::Unknown((string_of(ic), string_of(vc)))
        }
    }
}

/// Appends the characters of `b` to `a`.
fn push_all(a: &mut Vec<char>, b: &[char])
    ensures
        final(a)@ == old(a)@ + b@,
{
    let mut i: usize = 0;
    while i < b.len()
        invariant
            0 <= i <= b@.len(),
            a@ == old(a)@ + b@.subrange(0, i as int),
        decreases b@.len() - i,
    {
        a.push(b[i]);
        i += 1;
    }
    assert(b@.subrange(0, b@.len() as int) == b@);
}

/// The characters of a string.
fn string_chars(s: &String) -> (r: Vec<char>)
    ensures
        r@ == s@,
{
    chars_of(s.as_str())
}

/// Writes a result.
fn write_outcome(o: Outcome) -> (r: Vec<char>)
    ensures
        r@ == outcome_text(o),
{
    match o {
        Outcome::Draw => vec!['D', 'r', 'a', 'w'],
        Outcome::WinnerByResign(c) => vec![letter_of_color(c), '+', 'R'],
        Outcome::WinnerByTime(c) => vec![letter_of_color(c), '+', 'T'],
        Outcome::WinnerByForfeit(c) => vec![letter_of_color(c), '+', 'F'],
        Outcome::WinnerByPoints(c, p) => {
            let mut v = vec![letter_of_color(c), '+'];
            let t = write_tenths(p);
            push_all(&mut v, t.as_slice());
            v
        },
    }
}

/// The letter of a color.
fn letter_of_color(c: Color) -> (r: char)
    ensures
        r == color_letter(c),
{
    match c {
        Color::Black => 'B',
        Color::White => 'W',
    }
}

impl SgfToken {
    /// The identifier and the value of the property.
    fn parts(&self) -> (r: (Vec<char>, Vec<char>))
        requires
            coords_ok(self@),
        ensures
            token_text(self@) == r.0@ + seq!['['] + r.1@ + seq![']'],
    {
        match self {
            SgfToken::Add { color, coordinate } => (vec!['A', letter_of_color(*color)], write_coord(*coordinate)),
            SgfToken::Move { color, coordinate_or_pass } => (vec![letter_of_color(*color)], match coordinate_or_pass {
                Some(p) => write_coord(*p),
                None => Vec::new(),
            }),
            SgfToken::Time { color, time } => (vec![letter_of_color(*color), 'L'], write_num(*time as u64)),
            SgfToken::PlayerName { color, name } => (vec!['P', letter_of_color(*color)], string_chars(name)),
            SgfToken::PlayerRank { color, rank } => (vec![letter_of_color(*color), 'R'], string_chars(rank)),
            SgfToken::Komi(k) => (vec!['K', 'M'], write_tenths(*k)),
            SgfToken::Event(x) => (vec!['E', 'V'], string_chars(x)),
            SgfToken::Copyright(x) => (vec!['C', 'R'], string_chars(x)),
            SgfToken::GameName(x) => (vec!['G', 'N'], string_chars(x)),
            SgfToken::Place(x) => (vec!['P', 'C'], string_chars(x)),
            SgfToken::Date(x) => (vec!['D', 'T'], string_chars(x)),
            SgfToken::Size(w, h) => {
                let mut v = write_num(*w as u64);
                if *w != *h {
                    v.push(':');
                    let hv = write_num(*h as u64);
                    push_all(&mut v, hv.as_slice());
                }
                (vec!['S', 'Z'], v)
            },
            SgfToken::TimeLimit(t) => (vec!['T', 'M'], write_num(*t as u64)),
            SgfToken::Handicap(h) => (vec!['H', 'A'], write_num(*h as u64)),
            SgfToken::Comment(x) => (vec!['C'], string_chars(x)),
            SgfToken::Square { coordinate } => (vec!['S', 'Q'], write_coord(*coordinate)),
            SgfToken::Triangle { coordinate } => (vec!['T', 'R'], write_coord(*coordinate)),
            SgfToken::Label { label, coordinate } => {
                let mut v = write_coord(*coordinate);
                v.push(':');
                let lv = string_chars(label);
                push_all(&mut v, lv.as_slice());
                (vec!['L', 'B'], v)
            },
            SgfToken::Result(o) => (vec!['R', 'E'], write_outcome(*o)),
            SgfToken::Rule(r) => (vec!['R', 'U'], match r {
                RuleSet::Japanese => vec!['J', 'a', 'p', 'a', 'n', 'e', 's', 'e'],
                RuleSet::Chinese => vec!['C', 'h', 'i', 'n', 'e', 's', 'e'],
            }),
            SgfToken::Unknown((a, b)) => (string_chars(a), string_chars(b)),
            SgfToken::Invalid((a, b)) => (string_chars(a), string_chars(b)),
        }
    }

    /// The characters of the property written out.
    pub fn text(&self) -> (r: Vec<char>)
        requires
            coords_ok(self@),
        ensures
            r@ == token_text(self@),
    {
        let (ident, value) = self.parts();
        let mut res = ident;
        res.push('[');
        push_all(&mut res, value.as_slice());
        res.push(']');
        res
    }

    /// The property written out, as `identifier[value]`.
    pub fn into(self) -> (r: String)
        requires
            coords_ok(self@),
        ensures
            r@ == token_text(self@),
    {
        let t = self.text();
        string_of(t.as_slice())
    }
}

/// The upper-case letters of an identifier of one or two upper-case letters are the
/// identifier.
proof fn lemma_upper_short(s: Seq<char>)
    requires
        1 <= s.len() <= 2,
        forall|i: int| 0 <= i < s.len() ==> #[trigger] is_upper(s[i]),
    ensures
        upper_of(s) == s,
{
    reveal_with_fuel(upper_of, 3);
    if s.len() == 2 {
        assert(s.drop_last().drop_last() =~= Seq::<char>::empty());
        assert(s.drop_last() =~= seq![s[0]]);
        assert(seq![s[0]].push(s[1]) =~= s);
    } else {
        assert(s.drop_last() =~= Seq::<char>::empty());
        assert(Seq::<char>::empty().push(s[0]) =~= s);
    }
}

/// A letter gives a coordinate from 1 to 26.
proof fn lemma_letter_range(c: char)
    ensures
        letter_coord(c) matches Some(x) ==> 1 <= x <= 26,
{
}

/// The round trip of the properties of kind `coord`.
#[verifier::spinoff_prover]
#[verifier::rlimit(100)]
proof fn lemma_round_trip_coord(ident: Seq<char>, value: Seq<char>)
    requires
        token_of(ident, value) is Add || token_of(ident, value) is Move || token_of(ident, value) is Square || token_of(ident, value) is Triangle || token_of(ident, value) is Label,
    ensures
        token_of(token_parts(token_of(ident, value)).0, token_parts(token_of(ident, value)).1) == token_of(ident, value),
{
    let t = token_of(ident, value);
    let (a, b) = token_parts(t);
    match t {
        TokenView::Add { color, coordinate } => {
            lemma_upper_short(a);
            lemma_letter_range(value[0]);
            lemma_letter_range(value[1]);
            lemma_coord_round_trip(coordinate);
        },
        TokenView::Move { color, coordinate_or_pass } => {
            lemma_upper_short(a);
            match coordinate_or_pass {
                Some(p) => {
                    lemma_letter_range(value[0]);
                    lemma_letter_range(value[1]);
                    lemma_coord_round_trip(p);
                },
                None => {},
            }
        },
        TokenView::Square { coordinate } => {
            lemma_upper_short(a);
            lemma_letter_range(value[0]);
            lemma_letter_range(value[1]);
            lemma_coord_round_trip(coordinate);
        },
        TokenView::Triangle { coordinate } => {
            lemma_upper_short(a);
            lemma_letter_range(value[0]);
            lemma_letter_range(value[1]);
            lemma_coord_round_trip(coordinate);
        },
        TokenView::Label { label, coordinate } => {
            lemma_upper_short(a);
            lemma_letter_range(value[0]);
            lemma_letter_range(value[1]);
            lemma_coord_round_trip(coordinate);
            assert(b.subrange(0, 2) =~= coord_text(coordinate));
            assert(b.subrange(3, b.len() as int) =~= label);
        },
        _ => {},
    }
}

/// The round trip of the properties of kind `number`.
#[verifier::spinoff_prover]
#[verifier::rlimit(100)]
proof fn lemma_round_trip_number(ident: Seq<char>, value: Seq<char>)
    requires
        token_of(ident, value) is Time || token_of(ident, value) is Size || token_of(ident, value) is TimeLimit || token_of(ident, value) is Handicap || token_of(ident, value) is Komi,
    ensures
        token_of(token_parts(token_of(ident, value)).0, token_parts(token_of(ident, value)).1) == token_of(ident, value),
{
    let t = token_of(ident, value);
    let (a, b) = token_parts(t);
    match t {
        TokenView::Time { color, time } => {
            lemma_upper_short(a);
            lemma_u32_round_trip(time);
        },
        TokenView::Size(w, h) => {
            lemma_upper_short(a);
            lemma_u32_round_trip(w);
            lemma_u32_round_trip(h);
            lemma_num_text(w as nat);
            lemma_num_text(h as nat);
            let nw = num_text(w as nat);
            if w == h {
                assert forall|i: int| 0 <= i < nw.len() implies nw[i] != ':' by {
                    assert(is_digit(nw[i]));
                }
                lemma_find_char(nw, ':', 0, nw.len() as int);
            } else {
                let v = nw + seq![':'] + num_text(h as nat);
                assert forall|i: int| 0 <= i < nw.len() implies v[i] != ':' by {
                    assert(v[i] == nw[i]);
                    assert(is_digit(nw[i]));
                }
                lemma_find_char(v, ':', 0, nw.len() as int);
                assert(v.subrange(0, nw.len() as int) =~= nw);
                assert(v.subrange(nw.len() as int + 1, v.len() as int) =~= num_text(h as nat));
            }
        },
        TokenView::TimeLimit(x) => {
            lemma_upper_short(a);
            lemma_u32_round_trip(x);
        },
        TokenView::Handicap(x) => {
            lemma_upper_short(a);
            lemma_u32_round_trip(x);
        },
        TokenView::Komi(k) => {
            lemma_upper_short(a);
            lemma_tenths_range(value);
            lemma_tenths_round_trip(k as int);
        },
        _ => {},
    }
}

/// The round trip of the properties of kind `result`.
#[verifier::spinoff_prover]
#[verifier::rlimit(100)]
proof fn lemma_round_trip_result(ident: Seq<char>, value: Seq<char>)
    requires
        token_of(ident, value) is Result,
    ensures
        token_of(token_parts(token_of(ident, value)).0, token_parts(token_of(ident, value)).1) == token_of(ident, value),
{
    let t = token_of(ident, value);
    let (a, b) = token_parts(t);
    match t {
        TokenView::Result(o) => {
            lemma_upper_short(a);
            match o {
                Outcome::WinnerByPoints(c, p) => {
                    lemma_tenths_range(value.subrange(2, value.len() as int));
                    lemma_tenths_round_trip(p as int);
                    let rest = tenths_text(p as int);
                    assert(b.subrange(2, b.len() as int) =~= rest);
                    lemma_num_text(((if p < 0 { -(p as int) } else { p as int }) / 10) as nat);
                    if p >= 0 {
                        assert(is_digit(rest[0]));
                    }
                },
                Outcome::WinnerByResign(c) => {
                    assert(b.subrange(2, b.len() as int) =~= seq!['R']);
                },
                Outcome::WinnerByTime(c) => {
                    assert(b.subrange(2, b.len() as int) =~= seq!['T']);
                },
                Outcome::WinnerByForfeit(c) => {
                    assert(b.subrange(2, b.len() as int) =~= seq!['F']);
                },
                Outcome::Draw => {},
            }
        },
        _ => {},
    }
}

/// The round trip of the properties of kind `text`.
#[verifier::spinoff_prover]
#[verifier::rlimit(100)]
proof fn lemma_round_trip_text(ident: Seq<char>, value: Seq<char>)
    requires
        token_of(ident, value) is PlayerName || token_of(ident, value) is PlayerRank || token_of(ident, value) is Rule || token_of(ident, value) is Event || token_of(ident, value) is Copyright || token_of(ident, value) is GameName || token_of(ident, value) is Place || token_of(ident, value) is Date || token_of(ident, value) is Comment,
    ensures
        token_of(token_parts(token_of(ident, value)).0, token_parts(token_of(ident, value)).1) == token_of(ident, value),
{
    let t = token_of(ident, value);
    let (a, b) = token_parts(t);
    match t {
        TokenView::PlayerName { color, name } => {
            lemma_upper_short(a);
        },
        TokenView::PlayerRank { color, rank } => {
            lemma_upper_short(a);
        },
        TokenView::Rule(r) => {
            lemma_upper_short(a);
        },
        TokenView::Event(x) => {
            lemma_upper_short(a);
        },
        TokenView::Copyright(x) => {
            lemma_upper_short(a);
        },
        TokenView::GameName(x) => {
            lemma_upper_short(a);
        },
        TokenView::Place(x) => {
            lemma_upper_short(a);
        },
        TokenView::Date(x) => {
            lemma_upper_short(a);
        },
        TokenView::Comment(x) => {
            lemma_upper_short(a);
        },
        _ => {},
    }
}

/// Writing a property that was read and reading it back gives the same property.
pub proof fn lemma_token_round_trip(ident: Seq<char>, value: Seq<char>)
    ensures
        token_of(token_parts(token_of(ident, value)).0, token_parts(token_of(ident, value)).1) == token_of(ident, value),
{
    let t = token_of(ident, value);
    match t {
        TokenView::Add { .. } | TokenView::Move { .. } | TokenView::Square { .. } | TokenView::Triangle { .. } | TokenView::Label { .. } => {
            lemma_round_trip_coord(ident, value);
        },
        TokenView::Time { .. } | TokenView::Size(..) | TokenView::TimeLimit(..) | TokenView::Handicap(..) | TokenView::Komi(..) => {
            lemma_round_trip_number(ident, value);
        },
        TokenView::Result(..) => {
            lemma_round_trip_result(ident, value);
        },
        TokenView::Unknown(..) | TokenView::Invalid(..) => {},
        _ => {
            lemma_round_trip_text(ident, value);
        },
    }
}

} // verus!
