//! The board: grid dimensions plus the placed cars, the single source of
//! truth for occupancy. Cars are referenced by a 1-based ordinal; ordinal 1
//! is the objective car, whose exit is the right-hand wall of its row.

use vstd::prelude::*;

use crate::geometry::{Car, Direction, Orientation, Position};

verus! {

/// Mathematical model of a board: dimensions and the ordinal-indexed car
/// list (`cars[i]` is the car with ordinal `i + 1`).
#[verifier::ext_equal]
pub struct BoardModel {
    pub rows: int,
    pub cols: int,
    pub cars: Seq<(Position, Car)>,
}

/// Whether the car shaped `car` anchored at `pos` occupies cell `(r, c)`.
pub open spec fn occupies(pos: Position, car: Car, r: int, c: int) -> bool {
    match car.orientation {
        Orientation::LeftRight => r == pos.row as int && pos.col <= c < pos.col + car.length,
        Orientation::UpDown => c == pos.col as int && pos.row <= r < pos.row + car.length,
    }
}

/// No cell is claimed by both cars.
pub open spec fn cars_disjoint(a: (Position, Car), b: (Position, Car)) -> bool {
    forall|r: int, c: int| #[trigger] occupies(a.0, a.1, r, c) ==> !occupies(b.0, b.1, r, c)
}

/// The cell a single-cell shift of `(pos, car)` in direction `d` moves
/// into: the one just beyond the car's leading edge in that direction.
pub open spec fn shift_target(pos: Position, car: Car, d: Direction) -> (int, int) {
    match d {
        Direction::Up => (pos.row - 1, pos.col as int),
        Direction::Down => (pos.row + car.length, pos.col as int),
        Direction::Left => (pos.row as int, pos.col - 1),
        Direction::Right => (pos.row as int, pos.col + car.length),
    }
}

/// The `k`-th occupied cell of `(pos, car)`, counted from its anchor.
pub open spec fn car_cell(pos: Position, car: Car, k: int) -> (int, int) {
    match car.orientation {
        Orientation::LeftRight => (pos.row as int, pos.col + k),
        Orientation::UpDown => (pos.row + k, pos.col as int),
    }
}

/// The anchor after a single-cell shift in direction `d`.
pub open spec fn moved_anchor(pos: Position, d: Direction) -> Position {
    match d {
        Direction::Up => Position { row: (pos.row - 1) as u8, col: pos.col },
        Direction::Down => Position { row: (pos.row + 1) as u8, col: pos.col },
        Direction::Left => Position { row: pos.row, col: (pos.col - 1) as u8 },
        Direction::Right => Position { row: pos.row, col: (pos.col + 1) as u8 },
    }
}

impl BoardModel {
    /// Cell `(r, c)` lies on the grid.
    pub open spec fn in_grid(self, r: int, c: int) -> bool {
        0 <= r < self.rows && 0 <= c < self.cols
    }

    /// All occupied cells of `(pos, car)` lie on the grid.
    pub open spec fn car_in_bounds(self, pos: Position, car: Car) -> bool {
        match car.orientation {
            Orientation::LeftRight => pos.row < self.rows && pos.col + car.length <= self.cols,
            Orientation::UpDown => pos.col < self.cols && pos.row + car.length <= self.rows,
        }
    }

    /// Board invariant: a non-degenerate grid, every car of length at least
    /// two and fully on the grid, and no two cars sharing a cell.
    pub open spec fn wf(self) -> bool {
        &&& 1 <= self.rows <= 255
        &&& 1 <= self.cols <= 255
        &&& forall|i: int|
            0 <= i < self.cars.len() ==> (#[trigger] self.cars[i]).1.length >= 2
                && self.car_in_bounds(self.cars[i].0, self.cars[i].1)
        &&& forall|i: int, j: int|
            0 <= i < self.cars.len() && 0 <= j < self.cars.len() && i != j
                ==> cars_disjoint(#[trigger] self.cars[i], #[trigger] self.cars[j])
    }

    /// A board that is a puzzle: well formed, with an objective car at
    /// ordinal 1 oriented toward its exit wall on the right.
    pub open spec fn puzzle_wf(self) -> bool {
        &&& self.wf()
        &&& self.cars.len() >= 1
        &&& self.cars[0].1.orientation == Orientation::LeftRight
    }

    /// The solved configuration: the objective car's leading edge touches
    /// the right-hand boundary of the grid.
    pub open spec fn solved(self) -> bool {
        self.cars[0].0.col + self.cars[0].1.length == self.cols
    }

    /// Some car occupies cell `(r, c)`.
    pub open spec fn occupied(self, r: int, c: int) -> bool {
        exists|i: int|
            0 <= i < self.cars.len() && occupies(
                (#[trigger] self.cars[i]).0,
                self.cars[i].1,
                r,
                c,
            )
    }

    /// A freshly placed `(pos, car)` would share a cell with a placed car.
    pub open spec fn overlaps_existing(self, pos: Position, car: Car) -> bool {
        exists|r: int, c: int| occupies(pos, car, r, c) && #[trigger] self.occupied(r, c)
    }

    /// The shift's target cell stays on the grid.
    pub open spec fn shift_stays_in(self, ord: int, d: Direction) -> bool {
        let pc = self.cars[ord - 1];
        self.in_grid(shift_target(pc.0, pc.1, d).0, shift_target(pc.0, pc.1, d).1)
    }

    /// The shift's target cell is claimed by another car.
    pub open spec fn shift_blocked(self, ord: int, d: Direction) -> bool {
        let pc = self.cars[ord - 1];
        let t = shift_target(pc.0, pc.1, d);
        exists|j: int|
            0 <= j < self.cars.len() && j != ord - 1 && occupies(
                (#[trigger] self.cars[j]).0,
                self.cars[j].1,
                t.0,
                t.1,
            )
    }

    /// A single-cell shift of the car with ordinal `ord` in direction `d`
    /// is legal.
    pub open spec fn shift_ok(self, ord: int, d: Direction) -> bool {
        &&& 1 <= ord <= self.cars.len()
        &&& d.spec_axis() == self.cars[ord - 1].1.orientation
        &&& self.shift_stays_in(ord, d)
        &&& !self.shift_blocked(ord, d)
    }

    /// The board after a legal single-cell shift.
    pub open spec fn do_shift(self, ord: int, d: Direction) -> BoardModel {
        let pc = self.cars[ord - 1];
        BoardModel {
            cars: self.cars.update(ord - 1, (moved_anchor(pc.0, d), pc.1)),
            ..self
        }
    }

    /// Which error an illegal shift reports.
    pub open spec fn shift_err(self, ord: int, d: Direction) -> ShiftError {
        if d.spec_axis() != self.cars[ord - 1].1.orientation {
            ShiftError::WrongAxis
        } else if !self.shift_stays_in(ord, d) {
            ShiftError::OutOfBounds
        } else {
            ShiftError::Blocked
        }
    }
}

/// Error raised while placing a car on the board during construction.
#[derive(Clone, Copy, Debug, PartialEq, Eq, Structural)]
pub enum PlacementError {
    OutOfBounds,
    Overlap,
}

/// Error raised by an illegal shift.
#[derive(Clone, Copy, Debug, PartialEq, Eq, Structural)]
pub enum ShiftError {
    WrongAxis,
    OutOfBounds,
    Blocked,
}

/// The board itself: grid dimensions plus the placed cars, mutated in
/// place during search.
pub struct Board {
    pub rows: u8,
    pub cols: u8,
    pub cars: Vec<(Position, Car)>,
}

impl View for Board {
    type V = BoardModel;

    open spec fn view(&self) -> BoardModel {
        BoardModel { rows: self.rows as int, cols: self.cols as int, cars: self.cars@ }
    }
}

/// Executable counterpart of [`occupies`].
pub fn cell_occupied_by(pos: Position, car: Car, row: u8, col: u8) -> (b: bool)
    ensures
        b == occupies(pos, car, row as int, col as int),
{
    match car.orientation {
        Orientation::LeftRight => row == pos.row && pos.col <= col && (col as usize) < pos.col
            as usize + car.length as usize,
        Orientation::UpDown => col == pos.col && pos.row <= row && (row as usize) < pos.row
            as usize + car.length as usize,
    }
}

impl Board {
    /// Board invariant; see [`BoardModel::wf`].
    pub open spec fn wf(&self) -> bool {
        self@.wf()
    }

    /// An empty board with the given dimensions.
    pub fn new(rows: u8, cols: u8) -> (b: Board)
        requires
            1 <= rows,
            1 <= cols,
        ensures
            b@.rows == rows as int,
            b@.cols == cols as int,
            b@.cars =~= Seq::<(Position, Car)>::empty(),
            b.wf(),
    {
        Board { rows, cols, cars: Vec::new() }
    }

    /// The ordinal of the car claiming the given cell, if any: the union of
    /// all cars' occupied-cell sets, queried pointwise.
    pub fn occupant_at(&self, pos: Position) -> (r: Option<usize>)
        ensures
            r is Some <==> self@.occupied(pos.row as int, pos.col as int),
            match r {
                Some(ord) => 1 <= ord <= self@.cars.len() && occupies(
                    self@.cars[ord - 1].0,
                    self@.cars[ord - 1].1,
                    pos.row as int,
                    pos.col as int,
                ),
                None => !self@.occupied(pos.row as int, pos.col as int),
            },
    {
        let mut i: usize = 0;
        while i < self.cars.len()
            invariant
                i <= self.cars@.len(),
                forall|j: int|
                    0 <= j < i ==> !occupies(
                        (#[trigger] self.cars@[j]).0,
                        self.cars@[j].1,
                        pos.row as int,
                        pos.col as int,
                    ),
            decreases self.cars@.len() - i,
        {
            let (p, c) = self.cars[i];
            if cell_occupied_by(p, c, pos.row, pos.col) {
                proof {
                    assert(occupies(
                        (self@.cars[i as int]).0,
                        self@.cars[i as int].1,
                        pos.row as int,
                        pos.col as int,
                    ));
                }
                return Some(i + 1);
            }
            i = i + 1;
        }
        None
    }

    /// No two well-formed cars claim the same cell: any two ordinals whose
    /// cars both occupy `(r, c)` coincide.
    pub proof fn lemma_occupant_unique(m: BoardModel, i: int, j: int, r: int, c: int)
        requires
            m.wf(),
            0 <= i < m.cars.len(),
            0 <= j < m.cars.len(),
            occupies(m.cars[i].0, m.cars[i].1, r, c),
            occupies(m.cars[j].0, m.cars[j].1, r, c),
        ensures
            i == j,
    {
        if i != j {
            assert(cars_disjoint(m.cars[i], m.cars[j]));
        }
    }

    /// Places a car during construction, assigning it the next ordinal.
    /// Fails with `OutOfBounds` if any occupied cell would leave the grid,
    /// and with `Overlap` if one is already claimed.
    pub fn place(&mut self, pos: Position, car: Car) -> (r: Result<usize, PlacementError>)
        requires
            old(self).wf(),
            car.length >= 2,
        ensures
            final(self).wf(),
            final(self)@.rows == old(self)@.rows,
            final(self)@.cols == old(self)@.cols,
            r is Ok <==> old(self)@.car_in_bounds(pos, car) && !old(self)@.overlaps_existing(
                pos,
                car,
            ),
            match r {
                Ok(ord) => ord == old(self)@.cars.len() + 1 && final(self)@.cars =~= old(
                    self,
                )@.cars.push((pos, car)),
                Err(e) => final(self)@ == old(self)@ && (e == PlacementError::OutOfBounds <==> !old(
                    self,
                )@.car_in_bounds(pos, car)),
            },
    {
        let in_bounds = match car.orientation {
            Orientation::LeftRight => pos.row < self.rows && pos.col as usize + car.length
                as usize <= self.cols as usize,
            Orientation::UpDown => pos.col < self.cols && pos.row as usize + car.length
                as usize <= self.rows as usize,
        };
        if !in_bounds {
            return Err(PlacementError::OutOfBounds);
        }
        let mut k: u8 = 0;
        while k < car.length
            invariant
                self == old(self),
                k <= car.length,
                old(self).wf(),
                car.length >= 2,
                self@.car_in_bounds(pos, car),
                forall|m: int|
                    0 <= m < k ==> !self@.occupied(
                        (#[trigger] car_cell(pos, car, m)).0,
                        car_cell(pos, car, m).1,
                    ),
            decreases car.length - k,
        {
            let cell = match car.orientation {
                Orientation::LeftRight => Position { row: pos.row, col: pos.col + k },
                Orientation::UpDown => Position { row: pos.row + k, col: pos.col },
            };
            if self.occupant_at(cell).is_some() {
                proof {
                    assert(occupies(pos, car, cell.row as int, cell.col as int));
                }
                return Err(PlacementError::Overlap);
            }
            k = k + 1;
        }
        proof {
            if self@.overlaps_existing(pos, car) {
                let (r, c) = choose|r: int, c: int|
                    occupies(pos, car, r, c) && #[trigger] self@.occupied(r, c);
                let m = if car.orientation is LeftRight {
                    c - pos.col
                } else {
                    r - pos.row
                };
                assert(car_cell(pos, car, m) == (r, c));
                assert(!self@.occupied(
                    (car_cell(pos, car, m)).0,
                    car_cell(pos, car, m).1,
                ));
            }
        }
        let ghost m0 = self@;
        self.cars.push((pos, car));
        let ord = self.cars.len();
        proof {
            let m1 = self@;
            assert(m1.cars =~= m0.cars.push((pos, car)));
            assert forall|i: int, j: int|
                0 <= i < m1.cars.len() && 0 <= j < m1.cars.len() && i != j implies cars_disjoint(
                #[trigger] m1.cars[i],
                #[trigger] m1.cars[j],
            ) by {
                if i < m0.cars.len() && j < m0.cars.len() {
                    assert(cars_disjoint(m0.cars[i], m0.cars[j]));
                } else if j == m0.cars.len() {
                    assert(m1.cars[j] == (pos, car));
                    assert forall|r: int, c: int| #[trigger]
                        occupies(m1.cars[i].0, m1.cars[i].1, r, c) implies !occupies(
                        pos,
                        car,
                        r,
                        c,
                    ) by {
                        if occupies(pos, car, r, c) {
                            assert(m0.occupied(r, c));
                        }
                    }
                } else {
                    assert(m1.cars[i] == (pos, car));
                    assert forall|r: int, c: int| #[trigger]
                        occupies(pos, car, r, c) implies !occupies(
                        m1.cars[j].0,
                        m1.cars[j].1,
                        r,
                        c,
                    ) by {
                        if occupies(m1.cars[j].0, m1.cars[j].1, r, c) {
                            assert(m0.occupied(r, c));
                        }
                    }
                }
            }
        }
        Ok(ord)
    }

    /// Moves the named car exactly one cell in `direction`; the only
    /// mutation path used during search. On failure the board is unchanged.
    pub fn shift(&mut self, ord: usize, direction: Direction) -> (r: Result<(), ShiftError>)
        requires
            old(self).wf(),
            1 <= ord <= old(self)@.cars.len(),
        ensures
            final(self).wf(),
            r is Ok <==> old(self)@.shift_ok(ord as int, direction),
            match r {
                Ok(()) => final(self)@ == old(self)@.do_shift(ord as int, direction),
                Err(e) => final(self)@ == old(self)@ && e == old(self)@.shift_err(
                    ord as int,
                    direction,
                ),
            },
    {
        let (pos, car) = self.cars[ord - 1];
        if direction.axis() != car.orientation {
            return Err(ShiftError::WrongAxis);
        }
        let target: Option<Position> = match direction {
            Direction::Up => if pos.row >= 1 {
                Some(Position { row: pos.row - 1, col: pos.col })
            } else {
                None
            },
            Direction::Down => {
                let rr = pos.row as usize + car.length as usize;
                if rr < self.rows as usize {
                    Some(Position { row: rr as u8, col: pos.col })
                } else {
                    None
                }
            },
            Direction::Left => if pos.col >= 1 {
                Some(Position { row: pos.row, col: pos.col - 1 })
            } else {
                None
            },
            Direction::Right => {
                let cc = pos.col as usize + car.length as usize;
                if cc < self.cols as usize {
                    Some(Position { row: pos.row, col: cc as u8 })
                } else {
                    None
                }
            },
        };
        let t = match target {
            None => {
                return Err(ShiftError::OutOfBounds);
            },
            Some(t) => t,
        };
        proof {
            assert(shift_target(pos, car, direction) == (t.row as int, t.col as int));
            assert(self@.shift_stays_in(ord as int, direction));
        }
        match self.occupant_at(t) {
            Some(j) => {
                proof {
                    assert(occupies(self@.cars[j - 1].0, self@.cars[j - 1].1, t.row as int,
                        t.col as int));
                    assert(j != ord);
                    assert(self@.shift_blocked(ord as int, direction));
                }
                Err(ShiftError::Blocked)
            },
            None => {
                let newpos = match direction {
                    Direction::Up => Position { row: pos.row - 1, col: pos.col },
                    Direction::Down => Position { row: pos.row + 1, col: pos.col },
                    Direction::Left => Position { row: pos.row, col: pos.col - 1 },
                    Direction::Right => Position { row: pos.row, col: pos.col + 1 },
                };
                let ghost m0 = self@;
                self.cars.set(ord - 1, (newpos, car));
                proof {
                    assert(!m0.shift_blocked(ord as int, direction));
                    assert(m0.shift_ok(ord as int, direction));
                    lemma_shift_preserves_wf(m0, ord as int, direction);
                    assert(self@ =~= m0.do_shift(ord as int, direction));
                }
                Ok(())
            },
        }
    }

    /// The leading and trailing occupied cells of a car along its
    /// orientation: the cell nearest its forward wall, then its anchor.
    pub fn bounds_of(&self, ord: usize) -> (r: (Position, Position))
        requires
            self.wf(),
            1 <= ord <= self@.cars.len(),
        ensures
            r.1 == self@.cars[ord - 1].0,
            r.0.row as int == car_cell(
                self@.cars[ord - 1].0,
                self@.cars[ord - 1].1,
                self@.cars[ord - 1].1.length - 1,
            ).0,
            r.0.col as int == car_cell(
                self@.cars[ord - 1].0,
                self@.cars[ord - 1].1,
                self@.cars[ord - 1].1.length - 1,
            ).1,
    {
        let (pos, car) = self.cars[ord - 1];
        proof {
            assert(self@.car_in_bounds((self@.cars[ord - 1]).0, self@.cars[ord - 1].1));
        }
        let lead = match car.orientation {
            Orientation::LeftRight => Position { row: pos.row, col: pos.col + (car.length - 1) },
            Orientation::UpDown => Position { row: pos.row + (car.length - 1), col: pos.col },
        };
        (lead, pos)
    }

    /// Applies the exact inverse of a prior successful shift; infallible
    /// when the prior shift succeeded and nothing else mutated the board.
    pub fn unshift(&mut self, ord: usize, direction: Direction) -> (r: Result<(), ShiftError>)
        requires
            old(self).wf(),
            1 <= ord <= old(self)@.cars.len(),
        ensures
            final(self).wf(),
            r is Ok <==> old(self)@.shift_ok(ord as int, direction.spec_opposite()),
            match r {
                Ok(()) => final(self)@ == old(self)@.do_shift(ord as int, direction.spec_opposite()),
                Err(e) => final(self)@ == old(self)@ && e == old(self)@.shift_err(
                    ord as int,
                    direction.spec_opposite(),
                ),
            },
    {
        let back = direction.opposite();
        self.shift(ord, back)
    }
}

/// A legal shift keeps the board well formed.
pub proof fn lemma_shift_preserves_wf(m: BoardModel, ord: int, d: Direction)
    requires
        m.wf(),
        m.shift_ok(ord, d),
    ensures
        m.do_shift(ord, d).wf(),
        m.do_shift(ord, d).cars.len() == m.cars.len(),
{
    let pc = m.cars[ord - 1];
    let np = moved_anchor(pc.0, d);
    let t = shift_target(pc.0, pc.1, d);
    let m1 = m.do_shift(ord, d);
    assert(m1.car_in_bounds(np, pc.1));
    assert forall|r: int, c: int| #[trigger]
        occupies(np, pc.1, r, c) implies occupies(pc.0, pc.1, r, c) || (r == t.0 && c == t.1) by {}
    assert forall|i: int, j: int|
        0 <= i < m1.cars.len() && 0 <= j < m1.cars.len() && i != j implies cars_disjoint(
        #[trigger] m1.cars[i],
        #[trigger] m1.cars[j],
    ) by {
        if i != ord - 1 && j != ord - 1 {
            assert(cars_disjoint(m.cars[i], m.cars[j]));
        } else if i == ord - 1 {
            assert(cars_disjoint(m.cars[i], m.cars[j]));
            assert forall|r: int, c: int| #[trigger]
                occupies(np, pc.1, r, c) implies !occupies(m1.cars[j].0, m1.cars[j].1, r, c) by {
                if occupies(m1.cars[j].0, m1.cars[j].1, r, c) {
                    if r == t.0 && c == t.1 {
                        assert(m.shift_blocked(ord, d));
                    } else {
                        assert(occupies(pc.0, pc.1, r, c));
                        assert(cars_disjoint(m.cars[ord - 1], m.cars[j]));
                    }
                }
            }
        } else {
            assert(cars_disjoint(m.cars[i], m.cars[j]));
            assert forall|r: int, c: int| #[trigger]
                occupies(m1.cars[i].0, m1.cars[i].1, r, c) implies !occupies(np, pc.1, r, c) by {
                if occupies(np, pc.1, r, c) {
                    if r == t.0 && c == t.1 {
                        assert(m.shift_blocked(ord, d));
                    } else {
                        assert(occupies(pc.0, pc.1, r, c));
                        assert(cars_disjoint(m.cars[i], m.cars[ord - 1]));
                    }
                }
            }
        }
    }
}

/// Round-trip law: a shift followed by its inverse restores the board to
/// the same ordinal-to-position mapping, and the inverse is always legal.
pub proof fn lemma_shift_roundtrip(m: BoardModel, ord: int, d: Direction)
    requires
        m.wf(),
        m.shift_ok(ord, d),
    ensures
        m.do_shift(ord, d).shift_ok(ord, d.spec_opposite()),
        m.do_shift(ord, d).do_shift(ord, d.spec_opposite()) == m,
{
    lemma_shift_preserves_wf(m, ord, d);
    let pc = m.cars[ord - 1];
    let np = moved_anchor(pc.0, d);
    let m1 = m.do_shift(ord, d);
    let back = d.spec_opposite();
    let bt = shift_target(np, pc.1, back);
    assert(occupies(pc.0, pc.1, bt.0, bt.1));
    assert(m1.shift_stays_in(ord, back));
    if m1.shift_blocked(ord, back) {
        let j = choose|j: int|
            0 <= j < m1.cars.len() && j != ord - 1 && occupies(
                (#[trigger] m1.cars[j]).0,
                m1.cars[j].1,
                bt.0,
                bt.1,
            );
        assert(cars_disjoint(m.cars[ord - 1], m.cars[j]));
    }
    assert(moved_anchor(np, back) == pc.0);
    assert(m1.do_shift(ord, back) =~= m);
}

} // verus!
