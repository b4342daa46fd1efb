use vstd::prelude::*;

verus! {

/// The six shapes a piece can have.
#[derive(Copy, Clone, Debug, PartialEq, Eq, Structural, Hash)]
pub enum Shape {
    Clover,
    Star,
    Square,
    Diamond,
    Cross,
    Circle,
}

/// The six colours a piece can have.
#[derive(Copy, Clone, Debug, PartialEq, Eq, Structural, Hash)]
pub enum Color {
    Orange,
    Yellow,
    Green,
    Red,
    Blue,
    Purple,
}

/// A piece is a shape together with a colour.
pub type Piece = (Shape, Color);

/// Number of copies of each (shape, colour) combination in a game.
pub const COPIES: usize = 3;

/// Number of distinct (shape, colour) combinations.
pub const KINDS: usize = 36;

/// Number of pieces in a complete set.
pub const FULL_SET: usize = 108;

pub open spec fn shape_of(i: int) -> Shape {
    if i == 0 {
        Shape::Clover
    } else if i == 1 {
        Shape::Star
    } else if i == 2 {
        Shape::Square
    } else if i == 3 {
        Shape::Diamond
    } else if i == 4 {
        Shape::Cross
    } else {
        Shape::Circle
    }
}

pub open spec fn color_of(i: int) -> Color {
    if i == 0 {
        Color::Orange
    } else if i == 1 {
        Color::Yellow
    } else if i == 2 {
        Color::Green
    } else if i == 3 {
        Color::Red
    } else if i == 4 {
        Color::Blue
    } else {
        Color::Purple
    }
}

/// The `k`-th of the 36 kinds: colours vary slowest, shapes fastest.
pub open spec fn kind(k: int) -> Piece {
    (shape_of(k % 6), color_of(k / 6))
}

/// A complete set in canonical order: each kind three times in a row.
pub open spec fn full_set() -> Seq<Piece> {
    Seq::new(FULL_SET as nat, |i: int| kind(i / 3))
}

/// Executable counterpart of `kind`.
pub fn kind_at(k: usize) -> (r: Piece)
    requires
        k < KINDS,
    ensures
        r == kind(k as int),
{
    let s = k % 6;
    let c = k / 6;
    let shape = if s == 0 {
        Shape::Clover
    } else if s == 1 {
        Shape::Star
    } else if s == 2 {
        Shape::Square
    } else if s == 3 {
        Shape::Diamond
    } else if s == 4 {
        Shape::Cross
    } else {
        Shape::Circle
    };
    let color = if c == 0 {
        Color::Orange
    } else if c == 1 {
        Color::Yellow
    } else if c == 2 {
        Color::Green
    } else if c == 3 {
        Color::Red
    } else if c == 4 {
        Color::Blue
    } else {
        Color::Purple
    };
    (shape, color)
}

/// Two pieces are the same piece: same shape and same colour.
pub fn same_piece(p: Piece, q: Piece) -> (r: bool)
    ensures
        r == (p == q),
{
    p.0 == q.0 && p.1 == q.1
}

} // verus!
