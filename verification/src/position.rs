//! Grid coordinates, their row-major numbering and the eight directions.

use std::ops::Add;
use vstd::prelude::*;
use vstd::std_specs::ops::AddSpecImpl;

verus! {

/// A cell coordinate: column `0`, row `1`.
#[derive(Clone, Copy, Debug)]
pub struct Position(pub i32, pub i32);

/// The step from a cell to its neighbour in direction `k`, for `k` from 0 to
/// 7: clockwise from the upper left.
pub open spec fn adjacent_offset(k: int) -> (int, int) {
    if k == 0 {
        (-1, -1)
    } else if k == 1 {
        (0, -1)
    } else if k == 2 {
        (1, -1)
    } else if k == 3 {
        (1, 0)
    } else if k == 4 {
        (1, 1)
    } else if k == 5 {
        (0, 1)
    } else if k == 6 {
        (-1, 1)
    } else {
        (-1, 0)
    }
}

/// The eight directions, as values.
pub fn nth_offset(k: usize) -> (offset: Position)
    requires
        k < 8,
    ensures
        (offset.0 as int, offset.1 as int) == adjacent_offset(k as int),
{
    match k {
        0 => Position(-1, -1),
        1 => Position(0, -1),
        2 => Position(1, -1),
        3 => Position(1, 0),
        4 => Position(1, 1),
        5 => Position(0, 1),
        6 => Position(-1, 1),
        _ => Position(-1, 0),
    }
}

impl Position {
    /// The row-major number of this coordinate on a grid `width` cells wide.
    pub open spec fn index(self, width: int) -> int {
        self.1 * width + self.0
    }

    /// Whether this coordinate lies on a grid of the given size.
    pub open spec fn within(self, width: int, height: int) -> bool {
        0 <= self.0 < width && 0 <= self.1 < height
    }

    /// Whether this coordinate lies on a grid of the given size.
    pub fn is_within(&self, width: usize, height: usize) -> (inside: bool)
        ensures
            inside == self.within(width as int, height as int),
    {
        self.0 >= 0 && (self.0 as usize) < width && self.1 >= 0 && (self.1 as usize) < height
    }

    /// The coordinate of cell number `index` on a grid `board_width` cells
    /// wide. A column or row beyond the range of `i32` is truncated.
    pub fn from_index(index: usize, board_width: usize) -> (pos: Position)
        requires
            board_width > 0,
        ensures
            pos == Position((index % board_width) as i32, (index / board_width) as i32),
    {
        let x: usize = index % board_width;
        let y: usize = index / board_width;
        Position(
            #[verifier::truncate]
            (x as i32),
            #[verifier::truncate]
            (y as i32),
        )
    }

    /// The number of this cell on a grid `board_width` cells wide.
    pub fn to_index(&self, board_width: usize) -> (index: usize)
        requires
            self.0 >= 0,
            self.1 >= 0,
            self.index(board_width as int) <= usize::MAX,
        ensures
            index == self.index(board_width as int),
    {
        assert(self.1 * board_width <= self.index(board_width as int)) by (nonlinear_arith)
            requires
                self.0 >= 0,
                self.1 >= 0,
        ;
        self.1 as usize * board_width + self.0 as usize
    }
}

impl Add for Position {
    type Output = Position;

    fn add(self, rhs: Position) -> (sum: Position) {
        Position(self.0 + rhs.0, self.1 + rhs.1)
    }
}

impl AddSpecImpl for Position {
    open spec fn obeys_add_spec() -> bool {
        true
    }

    open spec fn add_req(self, rhs: Position) -> bool {
        &&& i32::MIN <= self.0 + rhs.0 <= i32::MAX
        &&& i32::MIN <= self.1 + rhs.1 <= i32::MAX
    }

    open spec fn add_spec(self, rhs: Position) -> Position {
        Position((self.0 + rhs.0) as i32, (self.1 + rhs.1) as i32)
    }
}

/// A cell's number determines its column and row, and the other way round.
pub proof fn lemma_index_roundtrip(x: int, y: int, width: int, height: int)
    requires
        0 <= x < width,
        0 <= y < height,
    ensures
        0 <= y * width + x < width * height,
        (y * width + x) % width == x,
        (y * width + x) / width == y,
{
    vstd::arithmetic::div_mod::lemma_fundamental_div_mod_converse(y * width + x, width, y, x);
    assert(y * width + x < width * height) by (nonlinear_arith)
        requires
            0 <= x < width,
            0 <= y < height,
    ;
    assert(0 <= y * width) by (nonlinear_arith)
        requires
            0 <= y,
            0 < width,
    ;
}

} // verus!
