//! Colors, orientations, inputs and transforms.

use vstd::prelude::*;

verus! {

/// The kind of a piece, or the color of a cell, named by one character.
#[derive(Clone, Copy, Debug, PartialEq, Eq, PartialOrd, Ord, Hash, Structural)]
pub struct Color(pub char);

impl Color {
    /// The color named by `c`.
    pub fn n(c: char) -> (color: Color)
        ensures
            color == Color(c),
    {
        Color(c)
    }

    /// The character that names this color.
    pub fn as_char(&self) -> (c: char)
        ensures
            c == self.0,
    {
        self.0
    }
}

/// One of the four rotation states of a piece.
#[derive(Clone, Copy, Debug, PartialEq, Eq, PartialOrd, Ord, Hash, Structural)]
pub enum Orientation {
    R0,
    R1,
    R2,
    R3,
}

impl Orientation {
    /// The position of this orientation in the cycle `R0, R1, R2, R3`.
    pub open spec fn spec_index(self) -> int {
        match self {
            Orientation::R0 => 0,
            Orientation::R1 => 1,
            Orientation::R2 => 2,
            Orientation::R3 => 3,
        }
    }

    /// The orientation at position `k` of the cycle, counted modulo four.
    pub open spec fn spec_from_index(k: int) -> Orientation {
        let m = k % 4;
        if m == 0 {
            Orientation::R0
        } else if m == 1 {
            Orientation::R1
        } else if m == 2 {
            Orientation::R2
        } else {
            Orientation::R3
        }
    }

    /// The orientation after one clockwise quarter turn.
    pub open spec fn spec_cw(self) -> Orientation {
        Self::spec_from_index(self.spec_index() + 1)
    }

    /// The orientation after one counter-clockwise quarter turn.
    pub open spec fn spec_ccw(self) -> Orientation {
        Self::spec_from_index(self.spec_index() + 3)
    }

    /// The position of this orientation in the cycle `R0, R1, R2, R3`.
    pub fn index(self) -> (k: usize)
        ensures
            k == self.spec_index(),
            k < 4,
    {
        match self {
            Orientation::R0 => 0,
            Orientation::R1 => 1,
            Orientation::R2 => 2,
            Orientation::R3 => 3,
        }
    }

    /// The orientation at position `k` of the cycle, counted modulo four.
    pub fn from_index(k: usize) -> (r: Orientation)
        ensures
            r == Self::spec_from_index(k as int),
    {
        let m: usize = k % 4;
        if m == 0 {
            Orientation::R0
        } else if m == 1 {
            Orientation::R1
        } else if m == 2 {
            Orientation::R2
        } else {
            Orientation::R3
        }
    }

    /// The orientation after one clockwise quarter turn.
    pub fn cw(self) -> (r: Orientation)
        ensures
            r == self.spec_cw(),
    {
        Self::from_index(self.index() + 1)
    }

    /// The orientation after one counter-clockwise quarter turn.
    pub fn ccw(self) -> (r: Orientation)
        ensures
            r == self.spec_ccw(),
    {
        Self::from_index(self.index() + 3)
    }

    /// The four orientations in cycle order.
    pub fn all() -> (rs: [Orientation; 4])
        ensures
            forall|k: int| 0 <= k < 4 ==> #[trigger] rs[k] == Self::spec_from_index(k),
    {
        [Orientation::R0, Orientation::R1, Orientation::R2, Orientation::R3]
    }

    /// Four clockwise turns, or a clockwise turn undone by a counter-clockwise
    /// one, lead back to the orientation they started from.
    pub proof fn lemma_turns_cycle(self)
        ensures
            self.spec_cw().spec_cw().spec_cw().spec_cw() == self,
            self.spec_cw().spec_ccw() == self,
            self.spec_ccw().spec_cw() == self,
            Self::spec_from_index(self.spec_index()) == self,
    {
    }
}

/// A player input.
#[derive(Clone, Copy, Debug, PartialEq, Eq, PartialOrd, Ord, Hash, Structural)]
pub enum Input {
    Left,
    Right,
    CW,
    CCW,
    Hold,
    SD,
    HD,
}

/// Where a shape sits: the row and the column of its anchor, and its
/// orientation. Both offsets are signed, since an anchor may lie below row 0
/// or left of column 0 while every occupied cell is inside the matrix.
pub type Transform = (i16, i16, Orientation);

} // verus!
