//! Stones and points on a goban.

use vstd::prelude::*;
use crate::pieces::util::coord::Coord;

verus! {

/// The color of a stone.
#[derive(Debug, Clone, PartialEq, Eq, Copy, Hash, Structural)]
pub enum Color {
    White,
    Black,
}

/// The content of an intersection: a stone color, or nothing.
pub type MaybeColor = Option<Color>;

/// An empty intersection.
pub const EMPTY: Option<Color> = None;

impl Color {
    /// The other color.
    pub open spec fn spec_opposite(self) -> Color {
        match self {
            Color::Black => Color::White,
            Color::White => Color::Black,
        }
    }

    /// The other color.
    pub fn opposite(self) -> (r: Color)
        ensures
            r == self.spec_opposite(),
            r != self,
    {
        match self {
            Color::Black => Color::White,
            Color::White => Color::Black,
        }
    }

    /// The name of the color: `Black` or `White`.
    pub fn name(self) -> (r: String)
        ensures
            r@ == color_name(self),
    {
        let v = match self {
            Color::Black => vec!['B', 'l', 'a', 'c', 'k'],
            Color::White => vec!['W', 'h', 'i', 't', 'e'],
        };
        crate::sgf::text::string_of(&v)
    }
}

/// The name of a color.
pub open spec fn color_name(c: Color) -> Seq<char> {
    match c {
        Color::Black => seq!['B', 'l', 'a', 'c', 'k'],
        Color::White => seq!['W', 'h', 'i', 't', 'e'],
    }
}

/// Takes the color out of an intersection that holds a stone.
pub fn color_from_maybe(x: MaybeColor) -> (r: Color)
    requires
        x is Some,
    ensures
        r == x.unwrap(),
{
    match x {
        Some(c) => c,
        None => Color::Black,
    }
}

/// An intersection of the goban with its content (`T` is `MaybeColor` for a point and
/// `Color` for a stone).
#[derive(PartialEq, Eq, Hash, Debug, Copy)]
pub struct Point<T = MaybeColor> {
    pub coord: Coord,
    pub color: T,
}

impl<T: Copy> Clone for Point<T> {
    fn clone(&self) -> (r: Self)
        ensures
            r == *self,
    {
        *self
    }
}

/// An intersection that holds a stone.
pub type Stone = Point<Color>;

impl Point<MaybeColor> {
    /// The stone on this point, if there is one.
    pub fn to_stone(self) -> (r: Option<Stone>)
        ensures
            r == (match self.color {
                Some(c) => Some(Stone { coord: self.coord, color: c }),
                None => None,
            }),
    {
        match self.color {
            Some(color) => Some(Stone { coord: self.coord, color }),
            None => None,
        }
    }
}

impl Point<Color> {
    /// The same intersection, seen as a point.
    pub fn to_point(self) -> (r: Point)
        ensures
            r == (Point { coord: self.coord, color: Some(self.color) }),
    {
        Point { coord: self.coord, color: Some(self.color) }
    }
}

} // verus!
