//! Core board data model: colors, points, placements and their validity.
use vstd::prelude::*;

verus! {

/// The board is a fixed 19x19 grid.
pub const BOARD_SIZE: u8 = 19;

#[derive(Debug, Clone, Copy, PartialEq, Eq, Structural, Hash, PartialOrd, Ord)]
pub enum Color {
    Black,
    White,
}

#[derive(Debug, Clone, Copy, PartialEq, Eq, Structural, Hash, PartialOrd, Ord)]
pub struct Point {
    pub x: u8,
    pub y: u8,
}

#[derive(Debug, Clone, Copy, PartialEq, Eq, Structural, Hash, PartialOrd, Ord)]
pub struct Placement {
    pub color: Color,
    pub point: Point,
}

/// A quarter-turn tag; the identity is represented by its absence.
#[derive(Debug, Clone, Copy, PartialEq, Eq, Structural, Hash)]
pub enum Rotation {
    Degrees90,
    Degrees180,
    Degrees270,
}

pub open spec fn in_bounds(p: Point) -> bool {
    p.x < BOARD_SIZE && p.y < BOARD_SIZE
}

pub open spec fn valid_placement(p: Placement) -> bool {
    in_bounds(p.point)
}

pub open spec fn valid_position(s: Seq<Placement>) -> bool {
    forall|i: int| 0 <= i < s.len() ==> valid_placement(#[trigger] s[i])
}

impl Point {
    pub fn new(x: u8, y: u8) -> (p: Point)
        ensures
            p == (Point { x, y }),
    {
        Point { x, y }
    }
}

impl Placement {
    pub fn new(color: Color, point: Point) -> (p: Placement)
        ensures
            p == (Placement { color, point }),
    {
        Placement { color, point }
    }
}

} // verus!
