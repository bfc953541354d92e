//! Centres of rooms and groups of rooms, in hundredths of a cell, and the
//! squared distances between them.
use vstd::prelude::*;

use crate::types::{Cell, Room};

verus! {

/// A point of the grid in hundredths of a cell.
#[derive(Debug, Clone, Copy, PartialEq, Eq, Structural)]
pub struct Vector2 {
    pub x: u64,
    pub y: u64,
}

/// The sum of the columns of `cells`.
pub open spec fn col_sum(cells: Seq<Cell>) -> int
    decreases cells.len(),
{
    if cells.len() == 0 { 0 } else { col_sum(cells.drop_last()) + cells.last().col }
}

/// The sum of the rows of `cells`.
pub open spec fn row_sum(cells: Seq<Cell>) -> int
    decreases cells.len(),
{
    if cells.len() == 0 { 0 } else { row_sum(cells.drop_last()) + cells.last().row }
}

/// The centre of `cells`: the mean column and row, in hundredths, rounded
/// down; the origin for no cell.
pub open spec fn cells_center(cells: Seq<Cell>) -> Vector2 {
    if cells.len() == 0 {
        Vector2 { x: 0, y: 0 }
    } else {
        Vector2 { x: (col_sum(cells) * 100 / (cells.len() as int)) as u64, y: (row_sum(cells) * 100 / (cells.len() as int)) as u64 }
    }
}

/// The squared distance between two points, in square hundredths.
pub open spec fn squared_distance(a: Vector2, b: Vector2) -> int {
    (a.x - b.x) * (a.x - b.x) + (a.y - b.y) * (a.y - b.y)
}

/// The sum of the `x` coordinates (`y` when not `xs`) of the points of
/// `centers` at the indices `ids`.
pub open spec fn coord_sum(ids: Seq<usize>, centers: Seq<Vector2>, xs: bool) -> int
    decreases ids.len(),
{
    if ids.len() == 0 {
        0
    } else {
        coord_sum(ids.drop_last(), centers, xs) + if xs { centers[ids.last() as int].x as int } else { centers[ids.last() as int].y as int }
    }
}

/// The mean of the points of `centers` at the indices `ids`, rounded down;
/// the origin for no index.
pub open spec fn mean_center(ids: Seq<usize>, centers: Seq<Vector2>) -> Vector2 {
    if ids.len() == 0 {
        Vector2 { x: 0, y: 0 }
    } else {
        Vector2 { x: (coord_sum(ids, centers, true) / (ids.len() as int)) as u64, y: (coord_sum(ids, centers, false) / (ids.len() as int)) as u64 }
    }
}

proof fn lemma_sums_bounded(cells: Seq<Cell>)
    ensures
        0 <= col_sum(cells) <= cells.len() * 0xffff_ffff,
        0 <= row_sum(cells) <= cells.len() * 0xffff_ffff,
    decreases cells.len(),
{
    if cells.len() > 0 {
        lemma_sums_bounded(cells.drop_last());
    }
}

impl Vector2 {
    /// Both coordinates are those of a cell of the grid, in hundredths.
    pub open spec fn in_grid(self) -> bool {
        self.x <= 0xffff_ffff * 100 && self.y <= 0xffff_ffff * 100
    }

    pub fn new(x: u64, y: u64) -> (v: Vector2)
        ensures
            v == (Vector2 { x, y }),
    {
        Vector2 { x, y }
    }

    /// The squared euclidean distance to `other`; ordering points by it
    /// orders them by distance.
    pub fn distance(&self, other: &Vector2) -> (d: u128)
        requires
            self.in_grid(),
            other.in_grid(),
        ensures
            d == squared_distance(*self, *other),
            d < u128::MAX,
    {
        let dx: u128 = if self.x >= other.x { (self.x - other.x) as u128 } else { (other.x - self.x) as u128 };
        let dy: u128 = if self.y >= other.y { (self.y - other.y) as u128 } else { (other.y - self.y) as u128 };
        proof {
            assert(dx * dx <= 0xffff_ffff_ffff * 0xffff_ffff_ffff) by (nonlinear_arith)
                requires
                    dx <= 0xffff_ffff_ffff,
            ;
            assert(dy * dy <= 0xffff_ffff_ffff * 0xffff_ffff_ffff) by (nonlinear_arith)
                requires
                    dy <= 0xffff_ffff_ffff,
            ;
            assert(dx * dx == (self.x - other.x) * (self.x - other.x)) by (nonlinear_arith)
                requires
                    dx == (if self.x >= other.x { self.x - other.x } else { other.x - self.x }),
            ;
            assert(dy * dy == (self.y - other.y) * (self.y - other.y)) by (nonlinear_arith)
                requires
                    dy == (if self.y >= other.y { self.y - other.y } else { other.y - self.y }),
            ;
        }
        dx * dx + dy * dy
    }
}

impl Room {
    /// The centre of the room (see `cells_center`).
    pub fn get_center(&self) -> (c: Vector2)
        ensures
            c == cells_center(self.cells@),
            c.in_grid(),
    {
        let n = self.cells.len();
        if n == 0 {
            return Vector2 { x: 0, y: 0 };
        }
        let mut sx: u128 = 0;
        let mut sy: u128 = 0;
        let mut i: usize = 0;
        while i < n
            invariant
                0 <= i <= n,
                n == self.cells@.len(),
                n <= usize::MAX,
                sx == col_sum(self.cells@.take(i as int)),
                sy == row_sum(self.cells@.take(i as int)),
            decreases n - i,
        {
            proof {
                assert(self.cells@.take(i + 1).drop_last() =~= self.cells@.take(i as int));
                lemma_sums_bounded(self.cells@.take(i as int));
                assert(i * 0xffff_ffff <= 0xffff_ffff_ffff_ffff * 0xffff_ffff) by (nonlinear_arith)
                    requires
                        i <= 0xffff_ffff_ffff_ffff,
                ;
            }
            sx = sx + self.cells[i].col as u128;
            sy = sy + self.cells[i].row as u128;
            i = i + 1;
        }
        proof {
            assert(self.cells@.take(n as int) =~= self.cells@);
            lemma_sums_bounded(self.cells@);
            assert(n * 0xffff_ffff <= 0xffff_ffff_ffff_ffff * 0xffff_ffff) by (nonlinear_arith)
                requires
                    n <= 0xffff_ffff_ffff_ffff,
            ;
            assert(sx * 100 / (n as int) <= 0xffff_ffff * 100) by (nonlinear_arith)
                requires
                    sx <= n * 0xffff_ffff,
                    n >= 1,
            ;
            assert(sy * 100 / (n as int) <= 0xffff_ffff * 100) by (nonlinear_arith)
                requires
                    sy <= n * 0xffff_ffff,
                    n >= 1,
            ;
        }
        Vector2 { x: (sx * 100 / (n as u128)) as u64, y: (sy * 100 / (n as u128)) as u64 }
    }
}

} // verus!
