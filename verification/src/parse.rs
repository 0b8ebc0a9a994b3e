//! Text-map parsing: a grid of characters, one per cell, where `.` is an
//! empty cell, `o` is the objective car, and any other character names a
//! car; each car's cells must form a straight contiguous run of length at
//! least two. Leading and trailing whitespace of each line is ignored, as
//! are blank lines.

use vstd::prelude::*;

use crate::board::{Board, PlacementError};
use crate::geometry::{Car, Orientation, Position};

verus! {

/// Error raised while turning a text map into a board.
#[derive(Clone, Copy, Debug, PartialEq, Eq, Structural)]
pub enum ParseError {
    /// No non-blank line, or a line of width zero.
    EmptyMap,
    /// More than 255 rows or columns, beyond the coordinate width.
    TooLarge,
    /// Two non-blank lines of different widths.
    UnevenRows,
    /// No cell marked `o`.
    MissingObjective,
    /// The objective car does not run left-to-right.
    ObjectiveMisaligned,
    /// A car's cells do not form one straight contiguous run.
    CrookedCar,
    /// A car of a single cell.
    ShortCar,
    /// A car's cells leave the grid.
    OutOfBounds,
    /// Two cars claim one cell.
    Overlap,
}

/// Whitespace that is stripped from line ends.
fn is_ws(b: u8) -> (r: bool)
    ensures
        r == (b == 32 || b == 9 || b == 13),
{
    b == 32 || b == 9 || b == 13
}

/// A copy of `line` with leading and trailing whitespace removed.
fn trim_line(line: &Vec<u8>) -> (t: Vec<u8>) {
    let mut start: usize = 0;
    while start < line.len() && is_ws(line[start])
        invariant
            start <= line@.len(),
        decreases line@.len() - start,
    {
        start = start + 1;
    }
    let mut end: usize = line.len();
    while end > start && is_ws(line[end - 1])
        invariant
            start <= end <= line@.len(),
        decreases end,
    {
        end = end - 1;
    }
    let mut t: Vec<u8> = Vec::new();
    let mut i: usize = start;
    while i < end
        invariant
            start <= end <= line@.len(),
            start <= i <= end,
        decreases end - i,
    {
        t.push(line[i]);
        i = i + 1;
    }
    t
}

/// Turns one car's cell summary (its character and bounding box) into a
/// placed shape, checking that the cells form one straight contiguous run.
fn car_from_summary(
    e: (u8, usize, usize, usize, usize),
    rows: usize,
    cols: usize,
    grid: &Vec<Vec<u8>>,
) -> (r: Result<(Position, Car), ParseError>)
    requires
        rows == grid@.len(),
        rows <= 255,
        cols <= 255,
        forall|k: int| 0 <= k < rows ==> (#[trigger] grid@[k])@.len() == cols,
    ensures
        match r {
            Ok(pc) => pc.1.length >= 2,
            Err(_) => true,
        },
{
    let (ch, minr, minc, maxr, maxc) = e;
    if minr >= rows || maxr >= rows || minc >= cols || maxc >= cols || maxr < minr || maxc
        < minc {
        return Err(ParseError::CrookedCar);
    }
    if minr == maxr && minc == maxc {
        return Err(ParseError::ShortCar);
    }
    if minr == maxr {
        let mut c: usize = minc;
        while c <= maxc
            invariant
                minc <= c <= maxc + 1,
                minr < rows,
                maxc < cols,
                rows == grid@.len(),
                forall|k: int| 0 <= k < rows ==> (#[trigger] grid@[k])@.len() == cols,
            decreases maxc + 1 - c,
        {
            if grid[minr][c] != ch {
                return Err(ParseError::CrookedCar);
            }
            c = c + 1;
        }
        let length = maxc - minc + 1;
        match Car::new(length as u8, Orientation::LeftRight) {
            Ok(car) => Ok((Position { row: minr as u8, col: minc as u8 }, car)),
            Err(_) => Err(ParseError::ShortCar),
        }
    } else if minc == maxc {
        let mut r_i: usize = minr;
        while r_i <= maxr
            invariant
                minr <= r_i <= maxr + 1,
                maxr < rows,
                minc < cols,
                rows == grid@.len(),
                forall|k: int| 0 <= k < rows ==> (#[trigger] grid@[k])@.len() == cols,
            decreases maxr + 1 - r_i,
        {
            if grid[r_i][minc] != ch {
                return Err(ParseError::CrookedCar);
            }
            r_i = r_i + 1;
        }
        let length = maxr - minr + 1;
        match Car::new(length as u8, Orientation::UpDown) {
            Ok(car) => Ok((Position { row: minr as u8, col: minc as u8 }, car)),
            Err(_) => Err(ParseError::ShortCar),
        }
    } else {
        Err(ParseError::CrookedCar)
    }
}

/// Places one parsed car on the board, translating placement failures.
fn place_parsed(board: &mut Board, pos: Position, car: Car) -> (r: Result<(), ParseError>)
    requires
        old(board).wf(),
        car.length >= 2,
    ensures
        final(board).wf(),
        final(board)@.rows == old(board)@.rows,
        final(board)@.cols == old(board)@.cols,
        match r {
            Ok(()) => final(board)@.cars =~= old(board)@.cars.push((pos, car)),
            Err(_) => final(board)@ == old(board)@,
        },
{
    match board.place(pos, car) {
        Ok(_) => Ok(()),
        Err(PlacementError::OutOfBounds) => Err(ParseError::OutOfBounds),
        Err(PlacementError::Overlap) => Err(ParseError::Overlap),
    }
}

/// Parses a text map into a board: `.` for empty cells, `o` for the
/// objective car (which receives ordinal 1), any other character for a
/// uniquely named car of length at least two. Maps that do not follow the
/// pattern are rejected with the reason.
pub fn parse_map(map: &str) -> (r: Result<Board, ParseError>)
    ensures
        match r {
            Ok(b) => b@.puzzle_wf(),
            Err(_) => true,
        },
{
    let bytes = map.as_bytes();
    let mut grid: Vec<Vec<u8>> = Vec::new();
    let mut line: Vec<u8> = Vec::new();
    let mut i: usize = 0;
    while i < bytes.len()
        invariant
            i <= bytes@.len(),
        decreases bytes@.len() - i,
    {
        let b = bytes[i];
        if b == 10 {
            let t = trim_line(&line);
            if t.len() > 0 {
                grid.push(t);
            }
            line = Vec::new();
        } else {
            line.push(b);
        }
        i = i + 1;
    }
    let t = trim_line(&line);
    if t.len() > 0 {
        grid.push(t);
    }
    if grid.len() == 0 {
        return Err(ParseError::EmptyMap);
    }
    if grid.len() > 255 {
        return Err(ParseError::TooLarge);
    }
    let rows = grid.len();
    let cols = grid[0].len();
    if cols == 0 {
        return Err(ParseError::EmptyMap);
    }
    if cols > 255 {
        return Err(ParseError::TooLarge);
    }
    let mut rchk: usize = 0;
    while rchk < rows
        invariant
            rows == grid@.len(),
            rchk <= rows,
            forall|k: int| 0 <= k < rchk ==> (#[trigger] grid@[k])@.len() == cols,
        decreases rows - rchk,
    {
        if grid[rchk].len() != cols {
            return Err(ParseError::UnevenRows);
        }
        rchk = rchk + 1;
    }
    // One summary per car character: `(char, min row, min col, max row,
    // max col)` over all of its cells, in order of first appearance.
    let mut cars: Vec<(u8, usize, usize, usize, usize)> = Vec::new();
    let mut r_i: usize = 0;
    while r_i < rows
        invariant
            rows == grid@.len(),
            r_i <= rows,
            forall|k: int| 0 <= k < rows ==> (#[trigger] grid@[k])@.len() == cols,
        decreases rows - r_i,
    {
        let mut c_i: usize = 0;
        while c_i < cols
            invariant
                rows == grid@.len(),
                r_i < rows,
                c_i <= cols,
                forall|k: int| 0 <= k < rows ==> (#[trigger] grid@[k])@.len() == cols,
            decreases cols - c_i,
        {
            let ch = grid[r_i][c_i];
            if ch != 46 {  // '.'
                let mut idx: usize = cars.len();
                let mut k: usize = 0;
                while k < cars.len()
                    invariant
                        k <= cars@.len(),
                        idx <= cars@.len(),
                    decreases cars@.len() - k,
                {
                    if cars[k].0 == ch {
                        idx = k;
                        k = cars.len();
                    } else {
                        k = k + 1;
                    }
                }
                if idx < cars.len() {
                    let e = cars[idx];
                    let e2 = (
                        e.0,
                        if r_i < e.1 {
                            r_i
                        } else {
                            e.1
                        },
                        if c_i < e.2 {
                            c_i
                        } else {
                            e.2
                        },
                        if r_i > e.3 {
                            r_i
                        } else {
                            e.3
                        },
                        if c_i > e.4 {
                            c_i
                        } else {
                            e.4
                        },
                    );
                    cars.set(idx, e2);
                } else {
                    cars.push((ch, r_i, c_i, r_i, c_i));
                }
            }
            c_i = c_i + 1;
        }
        r_i = r_i + 1;
    }
    let mut o_idx: usize = cars.len();
    let mut k2: usize = 0;
    while k2 < cars.len()
        invariant
            k2 <= cars@.len(),
            o_idx <= cars@.len(),
        decreases cars@.len() - k2,
    {
        if cars[k2].0 == 111 {  // 'o'
            o_idx = k2;
            k2 = cars.len();
        } else {
            k2 = k2 + 1;
        }
    }
    if o_idx >= cars.len() {
        return Err(ParseError::MissingObjective);
    }
    let mut board = Board::new(rows as u8, cols as u8);
    let (opos, ocar) = match car_from_summary(cars[o_idx], rows, cols, &grid) {
        Ok(pc) => pc,
        Err(e) => {
            return Err(e);
        },
    };
    match ocar.orientation {
        Orientation::UpDown => {
            return Err(ParseError::ObjectiveMisaligned);
        },
        Orientation::LeftRight => {},
    }
    match place_parsed(&mut board, opos, ocar) {
        Ok(()) => {},
        Err(e) => {
            return Err(e);
        },
    }
    let mut k3: usize = 0;
    while k3 < cars.len()
        invariant
            k3 <= cars@.len(),
            o_idx < cars@.len(),
            rows == grid@.len(),
            rows <= 255,
            cols <= 255,
            forall|k: int| 0 <= k < rows ==> (#[trigger] grid@[k])@.len() == cols,
            board.wf(),
            board@.cars.len() >= 1,
            board@.cars[0].1.orientation == Orientation::LeftRight,
        decreases cars@.len() - k3,
    {
        if k3 != o_idx {
            let (pos, car) = match car_from_summary(cars[k3], rows, cols, &grid) {
                Ok(pc) => pc,
                Err(e) => {
                    return Err(e);
                },
            };
            match place_parsed(&mut board, pos, car) {
                Ok(()) => {},
                Err(e) => {
                    return Err(e);
                },
            }
        }
        k3 = k3 + 1;
    }
    Ok(board)
}

} // verus!
