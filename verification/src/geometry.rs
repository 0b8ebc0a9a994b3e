//! Pure value types describing car placement and shape: positions, axes,
//! directions of movement, and cars themselves.

use vstd::prelude::*;

verus! {

/// Axis along which a car may slide. Fixed once the car is placed; cars do
/// not rotate.
#[derive(Clone, Copy, Debug, PartialEq, Eq, Structural)]
pub enum Orientation {
    LeftRight,
    UpDown,
}

/// One of the four single-cell moves a shift can take.
#[derive(Clone, Copy, Debug, PartialEq, Eq, Structural)]
pub enum Direction {
    Up,
    Down,
    Left,
    Right,
}

impl Direction {
    /// The axis this direction moves along.
    pub open spec fn spec_axis(self) -> Orientation {
        match self {
            Direction::Up | Direction::Down => Orientation::UpDown,
            Direction::Left | Direction::Right => Orientation::LeftRight,
        }
    }

    /// Executable counterpart of [`Direction::spec_axis`].
    pub fn axis(self) -> (o: Orientation)
        ensures
            o == self.spec_axis(),
    {
        match self {
            Direction::Up | Direction::Down => Orientation::UpDown,
            Direction::Left | Direction::Right => Orientation::LeftRight,
        }
    }

    /// The inverse direction, which undoes a single-cell shift.
    pub open spec fn spec_opposite(self) -> Direction {
        match self {
            Direction::Up => Direction::Down,
            Direction::Down => Direction::Up,
            Direction::Left => Direction::Right,
            Direction::Right => Direction::Left,
        }
    }

    /// Executable counterpart of [`Direction::spec_opposite`].
    pub fn opposite(self) -> (d: Direction)
        ensures
            d == self.spec_opposite(),
    {
        match self {
            Direction::Up => Direction::Down,
            Direction::Down => Direction::Up,
            Direction::Left => Direction::Right,
            Direction::Right => Direction::Left,
        }
    }
}

/// A car's anchor cell: its minimum-row, minimum-column corner.
#[derive(Clone, Copy, Debug, PartialEq, Eq, Structural)]
pub struct Position {
    pub row: u8,
    pub col: u8,
}

impl Position {
    /// Builds a position from a `(row, column)` pair.
    pub fn new(row: u8, col: u8) -> (p: Position)
        ensures
            p == (Position { row, col }),
    {
        Position { row, col }
    }
}

/// Error raised when constructing a car whose length is below two.
#[derive(Clone, Copy, Debug, PartialEq, Eq, Structural)]
pub struct InvalidCar;

/// A rectangular vehicle: its occupied cells are its anchor extended
/// `length` cells along its orientation axis.
#[derive(Clone, Copy, Debug, PartialEq, Eq, Structural)]
pub struct Car {
    pub length: u8,
    pub orientation: Orientation,
}

impl Car {
    /// Builds a car, rejecting any length below two.
    pub fn new(length: u8, orientation: Orientation) -> (r: Result<Car, InvalidCar>)
        ensures
            length >= 2 ==> r == Ok::<Car, InvalidCar>(Car { length, orientation }),
            length < 2 ==> r == Err::<Car, InvalidCar>(InvalidCar),
    {
        if length < 2 {
            Err(InvalidCar)
        } else {
            Ok(Car { length, orientation })
        }
    }
}

} // verus!
