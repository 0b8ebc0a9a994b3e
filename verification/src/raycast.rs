//! The view engine: for a car and a direction along its axis, ray-cast from
//! the car's leading edge to the first obstruction and report the
//! obstruction's ordinal (if any) and the count of empty cells before it.
//! Views are point-in-time query results, always recomputed from the
//! current board, never cached across a mutation.

use vstd::prelude::*;

use crate::board::{occupies, Board, BoardModel};
use crate::geometry::{Direction, Orientation, Position};

verus! {

/// The direction a car's leading edge faces: toward growing coordinates.
pub open spec fn forward_of(o: Orientation) -> Direction {
    match o {
        Orientation::LeftRight => Direction::Right,
        Orientation::UpDown => Direction::Down,
    }
}

/// The direction a car's trailing edge faces: toward shrinking coordinates.
pub open spec fn backward_of(o: Orientation) -> Direction {
    match o {
        Orientation::LeftRight => Direction::Left,
        Orientation::UpDown => Direction::Up,
    }
}

impl BoardModel {
    /// The `k`-th cell beyond the leading edge of car `ord` in direction
    /// `d` (for `d` along the car's axis), `k = 0` being the cell the car
    /// would move into.
    pub open spec fn ray_cell(self, ord: int, d: Direction, k: int) -> (int, int) {
        let pc = self.cars[ord - 1];
        match d {
            Direction::Up => (pc.0.row - 1 - k, pc.0.col as int),
            Direction::Down => (pc.0.row + pc.1.length + k, pc.0.col as int),
            Direction::Left => (pc.0.row as int, pc.0.col - 1 - k),
            Direction::Right => (pc.0.row as int, pc.0.col + pc.1.length + k),
        }
    }

    /// `(dist, obstruction)` is the ray-cast result for car `ord` in
    /// direction `d`: `dist` empty on-grid cells beyond the leading edge,
    /// then either the boundary (`None`) or a cell of car `obstruction`.
    pub open spec fn view_ok(self, ord: int, d: Direction, dist: int, obstruction: Option<
        usize,
    >) -> bool {
        &&& 0 <= dist
        &&& forall|k: int|
            0 <= k < dist ==> self.in_grid(
                (#[trigger] self.ray_cell(ord, d, k)).0,
                self.ray_cell(ord, d, k).1,
            ) && !self.occupied(self.ray_cell(ord, d, k).0, self.ray_cell(ord, d, k).1)
        &&& match obstruction {
            None => !self.in_grid(
                self.ray_cell(ord, d, dist).0,
                self.ray_cell(ord, d, dist).1,
            ),
            Some(j) => 1 <= j <= self.cars.len() && self.in_grid(
                self.ray_cell(ord, d, dist).0,
                self.ray_cell(ord, d, dist).1,
            ) && occupies(
                self.cars[j - 1].0,
                self.cars[j - 1].1,
                self.ray_cell(ord, d, dist).0,
                self.ray_cell(ord, d, dist).1,
            ),
        }
    }
}

/// A ray-cast result: the direction looked in, the obstructing car's
/// ordinal if one is seen before the wall, and the count of empty cells
/// strictly between the car's edge and the obstruction. Distance `0` with
/// no obstruction means the edge already touches the boundary wall.
#[derive(Clone, Copy, Debug, PartialEq, Eq)]
pub struct CarView {
    pub direction: Direction,
    pub observed: Option<usize>,
    pub distance: u8,
}

impl CarView {
    /// Builds a view record.
    pub fn new(direction: Direction, observed: Option<usize>, distance: u8) -> (v: CarView)
        ensures
            v == (CarView { direction, observed, distance }),
    {
        CarView { direction, observed, distance }
    }

    /// The ordinal of the obstructing car, or `None` when the car sees the
    /// boundary wall.
    pub fn observed(&self) -> (r: Option<usize>)
        ensures
            r == self.observed,
    {
        self.observed
    }

    /// Empty cells between the car's edge and the first obstruction.
    pub fn distance(&self) -> (r: u8)
        ensures
            r == self.distance,
    {
        self.distance
    }
}

/// What one car sees along its own axis, in both directions.
#[derive(Clone, Copy, Debug, PartialEq, Eq)]
pub struct ViewFrom {
    pub backward: CarView,
    pub forward: CarView,
}

impl ViewFrom {
    /// The view toward growing coordinates (right or down).
    pub fn forward(&self) -> (v: &CarView)
        ensures
            v == self.forward,
    {
        &self.forward
    }

    /// The view toward shrinking coordinates (left or up).
    pub fn backward(&self) -> (v: &CarView)
        ensures
            v == self.backward,
    {
        &self.backward
    }
}

impl Board {
    /// The on-grid position of ray cell `k`, or `None` when that cell is
    /// off the grid.
    fn ray_cell_at(&self, ord: usize, d: Direction, k: u8) -> (r: Option<Position>)
        requires
            self.wf(),
            1 <= ord <= self@.cars.len(),
        ensures
            match r {
                Some(p) => self@.in_grid(
                    self@.ray_cell(ord as int, d, k as int).0,
                    self@.ray_cell(ord as int, d, k as int).1,
                ) && p.row as int == self@.ray_cell(ord as int, d, k as int).0 && p.col as int
                    == self@.ray_cell(ord as int, d, k as int).1,
                None => !self@.in_grid(
                    self@.ray_cell(ord as int, d, k as int).0,
                    self@.ray_cell(ord as int, d, k as int).1,
                ),
            },
    {
        let (pos, car) = self.cars[ord - 1];
        match d {
            Direction::Up => if pos.row as usize >= 1 + k as usize {
                Some(Position { row: pos.row - 1 - k, col: pos.col })
            } else {
                None
            },
            Direction::Down => {
                let rr = pos.row as usize + car.length as usize + k as usize;
                if rr < self.rows as usize {
                    Some(Position { row: rr as u8, col: pos.col })
                } else {
                    None
                }
            },
            Direction::Left => if pos.col as usize >= 1 + k as usize {
                Some(Position { row: pos.row, col: pos.col - 1 - k })
            } else {
                None
            },
            Direction::Right => {
                let cc = pos.col as usize + car.length as usize + k as usize;
                if cc < self.cols as usize {
                    Some(Position { row: pos.row, col: cc as u8 })
                } else {
                    None
                }
            },
        }
    }

    /// Ray-casts from the leading edge of car `ord` in direction `d`
    /// (which must lie along the car's axis), walking cell by cell until
    /// the boundary or an occupied cell is reached.
    pub fn car_view(&self, ord: usize, d: Direction) -> (v: CarView)
        requires
            self.wf(),
            1 <= ord <= self@.cars.len(),
            d.spec_axis() == self@.cars[ord - 1].1.orientation,
        ensures
            v.direction == d,
            self@.view_ok(ord as int, d, v.distance as int, v.observed),
    {
        let mut k: u8 = 0;
        loop
            invariant
                self.wf(),
                1 <= ord <= self@.cars.len(),
                d.spec_axis() == self@.cars[ord - 1].1.orientation,
                forall|m: int|
                    0 <= m < k ==> self@.in_grid(
                        (#[trigger] self@.ray_cell(ord as int, d, m)).0,
                        self@.ray_cell(ord as int, d, m).1,
                    ) && !self@.occupied(
                        self@.ray_cell(ord as int, d, m).0,
                        self@.ray_cell(ord as int, d, m).1,
                    ),
            decreases 512 - k as int,
        {
            match self.ray_cell_at(ord, d, k) {
                None => {
                    return CarView { direction: d, observed: None, distance: k };
                },
                Some(cell) => {
                    match self.occupant_at(cell) {
                        Some(j) => {
                            return CarView { direction: d, observed: Some(j), distance: k };
                        },
                        None => {
                            proof {
                                assert(self@.in_grid(
                                    self@.ray_cell(ord as int, d, k as int).0,
                                    self@.ray_cell(ord as int, d, k as int).1,
                                ));
                                assert(k < 255);
                            }
                            k = k + 1;
                        },
                    }
                },
            }
        }
    }

    /// The solved predicate: the objective car's forward view shows no
    /// obstructing car at distance `0`, i.e. its edge touches the exit
    /// wall.
    pub fn is_solved(&self) -> (b: bool)
        requires
            self@.puzzle_wf(),
        ensures
            b == self@.solved(),
    {
        let v = self.car_view(1, Direction::Right);
        proof {
            lemma_solved_iff_view(self@, v.distance as int, v.observed);
        }
        v.observed.is_none() && v.distance == 0
    }
}

/// The solved predicate holds exactly when the objective car's forward
/// view reports distance `0` with no obstructing car.
pub proof fn lemma_solved_iff_view(m: BoardModel, dist: int, obstruction: Option<usize>)
    requires
        m.puzzle_wf(),
        m.view_ok(1, Direction::Right, dist, obstruction),
    ensures
        m.solved() <==> (dist == 0 && obstruction is None),
{
    let pc = m.cars[0];
    assert(pc.1.length >= 2 && m.car_in_bounds(pc.0, pc.1));
    let t = m.ray_cell(1, Direction::Right, 0);
    if m.solved() {
        assert(!m.in_grid(t.0, t.1));
        if dist > 0 {
            assert(m.in_grid(
                (m.ray_cell(1, Direction::Right, 0)).0,
                m.ray_cell(1, Direction::Right, 0).1,
            ));
        }
    } else {
        if dist == 0 && obstruction is None {
            assert(!m.in_grid(t.0, t.1));
        }
    }
}

/// A view with nonzero distance certifies a legal shift, and one with
/// distance `0` certifies that the same shift must fail.
pub proof fn lemma_view_move_legal(
    m: BoardModel,
    ord: int,
    d: Direction,
    dist: int,
    obstruction: Option<usize>,
)
    requires
        m.wf(),
        1 <= ord <= m.cars.len(),
        d.spec_axis() == m.cars[ord - 1].1.orientation,
        m.view_ok(ord, d, dist, obstruction),
    ensures
        m.shift_ok(ord, d) <==> dist > 0,
{
    let pc = m.cars[ord - 1];
    let t = crate::board::shift_target(pc.0, pc.1, d);
    assert(m.ray_cell(ord, d, 0) == t);
    if dist > 0 {
        assert(m.in_grid((m.ray_cell(ord, d, 0)).0, m.ray_cell(ord, d, 0).1) && !m.occupied(
            m.ray_cell(ord, d, 0).0,
            m.ray_cell(ord, d, 0).1,
        ));
        if m.shift_blocked(ord, d) {
            let j = choose|j: int|
                0 <= j < m.cars.len() && j != ord - 1 && occupies(
                    (#[trigger] m.cars[j]).0,
                    m.cars[j].1,
                    t.0,
                    t.1,
                );
            assert(m.occupied(t.0, t.1));
        }
    } else {
        match obstruction {
            None => {
                assert(!m.in_grid(t.0, t.1));
            },
            Some(j) => {
                assert(occupies(m.cars[j - 1].0, m.cars[j - 1].1, t.0, t.1));
                if j == ord {
                    assert(false);
                }
                assert(m.shift_blocked(ord, d));
            },
        }
    }
}

/// Point-in-time view data for every car on a board; entry `i` belongs to
/// the car with ordinal `i + 1`, so the objective car comes first.
#[derive(Debug, PartialEq, Eq)]
pub struct ViewMetadata {
    pub views: Vec<ViewFrom>,
}

impl ViewMetadata {
    /// Computes both axis-aligned views of every car on the board.
    pub fn for_board(board: &Board) -> (m: ViewMetadata)
        requires
            board.wf(),
        ensures
            m.views@.len() == board@.cars.len(),
            forall|i: int|
                0 <= i < m.views@.len() ==> {
                    let vf = #[trigger] m.views@[i];
                    &&& vf.backward.direction == backward_of(board@.cars[i].1.orientation)
                    &&& vf.forward.direction == forward_of(board@.cars[i].1.orientation)
                    &&& board@.view_ok(
                        i + 1,
                        vf.backward.direction,
                        vf.backward.distance as int,
                        vf.backward.observed,
                    )
                    &&& board@.view_ok(
                        i + 1,
                        vf.forward.direction,
                        vf.forward.distance as int,
                        vf.forward.observed,
                    )
                },
    {
        let mut views: Vec<ViewFrom> = Vec::new();
        let mut i: usize = 0;
        while i < board.cars.len()
            invariant
                board.wf(),
                i <= board@.cars.len(),
                views@.len() == i,
                forall|n: int|
                    0 <= n < i ==> {
                        let vf = #[trigger] views@[n];
                        &&& vf.backward.direction == backward_of(board@.cars[n].1.orientation)
                        &&& vf.forward.direction == forward_of(board@.cars[n].1.orientation)
                        &&& board@.view_ok(
                            n + 1,
                            vf.backward.direction,
                            vf.backward.distance as int,
                            vf.backward.observed,
                        )
                        &&& board@.view_ok(
                            n + 1,
                            vf.forward.direction,
                            vf.forward.distance as int,
                            vf.forward.observed,
                        )
                    },
            decreases board@.cars.len() - i,
        {
            let orientation = board.cars[i].1.orientation;
            let (back, fwd) = match orientation {
                Orientation::LeftRight => (Direction::Left, Direction::Right),
                Orientation::UpDown => (Direction::Up, Direction::Down),
            };
            let backward = board.car_view(i + 1, back);
            let forward = board.car_view(i + 1, fwd);
            views.push(ViewFrom { backward, forward });
            i = i + 1;
        }
        ViewMetadata { views }
    }

    /// The views paired with their cars' ordinals, objective car first.
    pub fn views(&self) -> (r: Vec<(usize, ViewFrom)>)
        ensures
            r@.len() == self.views@.len(),
            forall|i: int|
                0 <= i < r@.len() ==> (#[trigger] r@[i]).0 == i + 1 && r@[i].1 == self.views@[i],
    {
        let mut r: Vec<(usize, ViewFrom)> = Vec::new();
        let mut i: usize = 0;
        while i < self.views.len()
            invariant
                i <= self.views@.len(),
                r@.len() == i,
                forall|n: int|
                    0 <= n < i ==> (#[trigger] r@[n]).0 == n + 1 && r@[n].1 == self.views@[n],
            decreases self.views@.len() - i,
        {
            r.push((i + 1, self.views[i]));
            i = i + 1;
        }
        r
    }
}

} // verus!
