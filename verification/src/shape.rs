//! Tetromino shapes and rotation states.

use vstd::prelude::*;

verus! {

/// The seven tetrominoes, in the order the solver indexes them.
#[derive(Clone, Copy, Debug, PartialEq, Eq, Structural, Hash, PartialOrd, Ord)]
pub enum Shape {
    I,
    J,
    L,
    O,
    S,
    T,
    Z,
}

/// The four rotation states of a piece.
#[derive(Clone, Copy, Debug, PartialEq, Eq, Structural, Hash, PartialOrd, Ord)]
pub enum Rotation {
    Zero,
    Clockwise,
    Half,
    ConterClockwise,
}

/// Position of a shape in the order `I J L O S T Z`.
pub open spec fn shape_index(s: Shape) -> nat {
    match s {
        Shape::I => 0,
        Shape::J => 1,
        Shape::L => 2,
        Shape::O => 3,
        Shape::S => 4,
        Shape::T => 5,
        Shape::Z => 6,
    }
}

/// The shape at a given position of the order `I J L O S T Z`.
pub open spec fn shape_at(i: nat) -> Shape {
    if i == 0 {
        Shape::I
    } else if i == 1 {
        Shape::J
    } else if i == 2 {
        Shape::L
    } else if i == 3 {
        Shape::O
    } else if i == 4 {
        Shape::S
    } else if i == 5 {
        Shape::T
    } else {
        Shape::Z
    }
}

/// Position of a rotation state in the order `Zero Clockwise Half ConterClockwise`.
pub open spec fn rotation_index(r: Rotation) -> nat {
    match r {
        Rotation::Zero => 0,
        Rotation::Clockwise => 1,
        Rotation::Half => 2,
        Rotation::ConterClockwise => 3,
    }
}

/// The rotation state a quarter turn clockwise from `r`.
pub open spec fn spec_cw(r: Rotation) -> Rotation {
    match r {
        Rotation::Zero => Rotation::Clockwise,
        Rotation::Clockwise => Rotation::Half,
        Rotation::Half => Rotation::ConterClockwise,
        Rotation::ConterClockwise => Rotation::Zero,
    }
}

/// The rotation state a quarter turn counter-clockwise from `r`.
pub open spec fn spec_ccw(r: Rotation) -> Rotation {
    match r {
        Rotation::Zero => Rotation::ConterClockwise,
        Rotation::Clockwise => Rotation::Zero,
        Rotation::Half => Rotation::Clockwise,
        Rotation::ConterClockwise => Rotation::Half,
    }
}

/// The letter the shape is named by.
pub open spec fn spec_name(s: Shape) -> char {
    match s {
        Shape::I => 'I',
        Shape::J => 'J',
        Shape::L => 'L',
        Shape::O => 'O',
        Shape::S => 'S',
        Shape::T => 'T',
        Shape::Z => 'Z',
    }
}

/// The shape that the game's memory encodes by `val` (`S Z J L T O I` for `0..7`).
pub open spec fn spec_from_ppt(val: u32) -> Shape {
    if val == 0 {
        Shape::S
    } else if val == 1 {
        Shape::Z
    } else if val == 2 {
        Shape::J
    } else if val == 3 {
        Shape::L
    } else if val == 4 {
        Shape::T
    } else if val == 5 {
        Shape::O
    } else {
        Shape::I
    }
}

impl Shape {
    /// Position of the shape in the order `I J L O S T Z`.
    pub fn index(self) -> (r: u8)
        ensures
            r == shape_index(self),
            r < 7,
    {
        match self {
            Shape::I => 0,
            Shape::J => 1,
            Shape::L => 2,
            Shape::O => 3,
            Shape::S => 4,
            Shape::T => 5,
            Shape::Z => 6,
        }
    }

    /// The letter the shape is named by.
    pub fn name(self) -> (c: char)
        ensures
            c == spec_name(self),
    {
        match self {
            Shape::I => 'I',
            Shape::J => 'J',
            Shape::L => 'L',
            Shape::O => 'O',
            Shape::S => 'S',
            Shape::T => 'T',
            Shape::Z => 'Z',
        }
    }

    /// Decodes the shape number the game keeps in memory.
    pub fn from_ppt(val: u32) -> (s: Shape)
        requires
            val < 7,
        ensures
            s == spec_from_ppt(val),
    {
        match val {
            0 => Shape::S,
            1 => Shape::Z,
            2 => Shape::J,
            3 => Shape::L,
            4 => Shape::T,
            5 => Shape::O,
            _ => Shape::I,
        }
    }
}

impl Rotation {
    /// Position of the rotation state in the order `Zero Clockwise Half ConterClockwise`.
    pub fn index(self) -> (r: u8)
        ensures
            r == rotation_index(self),
            r < 4,
    {
        match self {
            Rotation::Zero => 0,
            Rotation::Clockwise => 1,
            Rotation::Half => 2,
            Rotation::ConterClockwise => 3,
        }
    }

    /// The rotation state a quarter turn clockwise.
    pub fn cw(self) -> (r: Rotation)
        ensures
            r == spec_cw(self),
    {
        match self {
            Rotation::Zero => Rotation::Clockwise,
            Rotation::Clockwise => Rotation::Half,
            Rotation::Half => Rotation::ConterClockwise,
            Rotation::ConterClockwise => Rotation::Zero,
        }
    }

    /// The rotation state a quarter turn counter-clockwise.
    pub fn ccw(self) -> (r: Rotation)
        ensures
            r == spec_ccw(self),
    {
        match self {
            Rotation::Clockwise => Rotation::Zero,
            Rotation::Half => Rotation::Clockwise,
            Rotation::ConterClockwise => Rotation::Half,
            Rotation::Zero => Rotation::ConterClockwise,
        }
    }
}

/// Turning clockwise and then counter-clockwise (or the other way round)
/// gives back the rotation state one started from, and four quarter turns in
/// one direction are a full turn.
pub proof fn lemma_rotation_inverse(r: Rotation)
    ensures
        spec_ccw(spec_cw(r)) == r,
        spec_cw(spec_ccw(r)) == r,
        spec_cw(spec_cw(spec_cw(spec_cw(r)))) == r,
        rotation_index(spec_cw(r)) == (rotation_index(r) + 1) % 4,
        rotation_index(spec_ccw(r)) == (rotation_index(r) + 3) % 4,
{
}

/// Shape indices are a bijection between the shapes and `0..7`.
pub proof fn lemma_shape_index_bijective(s: Shape)
    ensures
        shape_index(s) < 7,
        shape_at(shape_index(s)) == s,
{
}

} // verus!
