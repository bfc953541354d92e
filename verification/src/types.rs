use vstd::prelude::*;

use crate::seq_facts::{lemma_push_contains, lemma_push_no_duplicates};

verus! {

/// The four cardinal directions on the map grid. North is towards row 0,
/// West is towards column 0.
#[derive(Debug, Clone, Copy, PartialEq, Eq, Structural, Hash)]
pub enum Direction {
    North,
    South,
    East,
    West,
}

impl Direction {
    pub open spec fn spec_is_horizontal(self) -> bool {
        self is East || self is West
    }

    pub open spec fn spec_reverse(self) -> Direction {
        match self {
            Direction::North => Direction::South,
            Direction::South => Direction::North,
            Direction::East => Direction::West,
            Direction::West => Direction::East,
        }
    }

    /// East and West are horizontal directions; North and South are not.
    pub fn is_horizontal(&self) -> (r: bool)
        ensures
            r == self.spec_is_horizontal(),
    {
        match self {
            Direction::North | Direction::South => false,
            Direction::East | Direction::West => true,
        }
    }

    /// The opposite direction.
    pub fn reverse(&self) -> (r: Direction)
        ensures
            r == self.spec_reverse(),
    {
        match self {
            Direction::North => Direction::South,
            Direction::South => Direction::North,
            Direction::East => Direction::West,
            Direction::West => Direction::East,
        }
    }
}

/// A cell (or a grid vertex) of the map, addressed by column and row.
#[derive(Debug, Clone, Copy, PartialEq, Eq, Structural, Hash, PartialOrd, Ord)]
pub struct Cell {
    pub col: u32,
    pub row: u32,
}

/// Direction in which `b` lies when seen from `a`, if the two cells share a side.
pub open spec fn cell_neighbour_dir(a: Cell, b: Cell) -> Option<Direction> {
    if a.row == b.row && a.col == b.col + 1 {
        Some(Direction::West)
    } else if a.row == b.row && a.col + 1 == b.col {
        Some(Direction::East)
    } else if a.col == b.col && a.row == b.row + 1 {
        Some(Direction::North)
    } else if a.col == b.col && a.row + 1 == b.row {
        Some(Direction::South)
    } else {
        None
    }
}

/// The grid neighbours of a cell, in the order right, down, left, up;
/// left and up only where they exist.
pub open spec fn cell_neighbours(c: Cell) -> Seq<Cell> {
    let base = seq![Cell { col: (c.col + 1) as u32, row: c.row }, Cell { col: c.col, row: (c.row + 1) as u32 }];
    let with_left = if c.col > 0 { base.push(Cell { col: (c.col - 1) as u32, row: c.row }) } else { base };
    if c.row > 0 { with_left.push(Cell { col: c.col, row: (c.row - 1) as u32 }) } else { with_left }
}

pub open spec fn abs_diff(a: int, b: int) -> int {
    if a >= b { a - b } else { b - a }
}

/// Manhattan distance between two cells.
pub open spec fn manhattan(a: Cell, b: Cell) -> int {
    abs_diff(a.col as int, b.col as int) + abs_diff(a.row as int, b.row as int)
}

/// The four corners of a cell: top-left, bottom-left, bottom-right, top-right.
pub open spec fn cell_vertices(c: Cell) -> Seq<Cell> {
    seq![
        Cell { col: c.col, row: c.row },
        Cell { col: c.col, row: (c.row + 1) as u32 },
        Cell { col: (c.col + 1) as u32, row: (c.row + 1) as u32 },
        Cell { col: (c.col + 1) as u32, row: c.row },
    ]
}

/// The four sides of a cell, walked clockwise: north, east, south, west.
pub open spec fn cell_edges(c: Cell) -> Seq<Edge> {
    let tl = Cell { col: c.col, row: c.row };
    let tr = Cell { col: (c.col + 1) as u32, row: c.row };
    let br = Cell { col: (c.col + 1) as u32, row: (c.row + 1) as u32 };
    let bl = Cell { col: c.col, row: (c.row + 1) as u32 };
    seq![Edge { from: tl, to: tr }, Edge { from: tr, to: br }, Edge { from: br, to: bl }, Edge { from: bl, to: tl }]
}

impl Cell {
    pub fn new(col: u32, row: u32) -> (c: Cell)
        ensures
            c == (Cell { col, row }),
    {
        Cell { col, row }
    }

    /// Moves the cell by `offset` along both axes.
    pub fn offset_by(&self, offset: u32) -> (c: Cell)
        requires
            self.col + offset <= u32::MAX,
            self.row + offset <= u32::MAX,
        ensures
            c.col == self.col + offset,
            c.row == self.row + offset,
    {
        Cell { col: self.col + offset, row: self.row + offset }
    }

    /// Moves the cell by `offset_col` columns and `offset_row` rows.
    pub fn offset_by_two(&self, offset_col: u32, offset_row: u32) -> (c: Cell)
        requires
            self.col + offset_col <= u32::MAX,
            self.row + offset_row <= u32::MAX,
        ensures
            c.col == self.col + offset_col,
            c.row == self.row + offset_row,
    {
        Cell { col: self.col + offset_col, row: self.row + offset_row }
    }

    /// Scales both coordinates by `factor`.
    pub fn stretched_by(&self, factor: u32) -> (c: Cell)
        requires
            self.col * factor <= u32::MAX,
            self.row * factor <= u32::MAX,
        ensures
            c.col == self.col * factor,
            c.row == self.row * factor,
    {
        Cell { col: self.col * factor, row: self.row * factor }
    }

    pub fn get_vertices(&self) -> (v: Vec<Cell>)
        requires
            self.col < u32::MAX,
            self.row < u32::MAX,
        ensures
            v@ == cell_vertices(*self),
    {
        vec![
            Cell::new(self.col, self.row),
            Cell::new(self.col, self.row + 1),
            Cell::new(self.col + 1, self.row + 1),
            Cell::new(self.col + 1, self.row),
        ]
    }

    pub fn get_edges(&self) -> (v: Vec<Edge>)
        requires
            self.col < u32::MAX,
            self.row < u32::MAX,
        ensures
            v@ == cell_edges(*self),
    {
        vec![
            Edge { from: *self, to: Cell::new(self.col + 1, self.row) },
            Edge { from: Cell::new(self.col + 1, self.row), to: Cell::new(self.col + 1, self.row + 1) },
            Edge { from: Cell::new(self.col + 1, self.row + 1), to: Cell::new(self.col, self.row + 1) },
            Edge { from: Cell::new(self.col, self.row + 1), to: *self },
        ]
    }

    /// Manhattan distance. The coordinates are taken as `i32` and so must fit in one,
    /// and so must the sum.
    pub fn distance(&self, other: &Cell) -> (d: u32)
        requires
            self.col <= i32::MAX,
            self.row <= i32::MAX,
            other.col <= i32::MAX,
            other.row <= i32::MAX,
            manhattan(*self, *other) <= i32::MAX,
        ensures
            d == manhattan(*self, *other),
    {
        let dc: u32 = if self.col >= other.col { self.col - other.col } else { other.col - self.col };
        let dr: u32 = if self.row >= other.row { self.row - other.row } else { other.row - self.row };
        dc + dr
    }

    /// The direction in which `other` lies, if it shares a side with this cell.
    pub fn is_neighbour_of(&self, other: &Cell) -> (r: Option<Direction>)
        ensures
            r == cell_neighbour_dir(*self, *other),
    {
        if self.row == other.row {
            if other.col < u32::MAX && self.col == other.col + 1 {
                return Some(Direction::West);
            } else if other.col == 0 {
                return None;
            } else if self.col == other.col - 1 {
                return Some(Direction::East);
            }
        } else if self.col == other.col {
            if other.row < u32::MAX && self.row == other.row + 1 {
                return Some(Direction::North);
            } else if other.row == 0 {
                return None;
            } else if self.row == other.row - 1 {
                return Some(Direction::South);
            }
        }
        None
    }

    /// The cells that share a side with this one.
    pub fn neighbours(&self) -> (v: Vec<Cell>)
        requires
            self.col < u32::MAX,
            self.row < u32::MAX,
        ensures
            v@ == cell_neighbours(*self),
    {
        let mut neighbours = Vec::with_capacity(4);
        neighbours.push(Cell::new(self.col + 1, self.row));
        neighbours.push(Cell::new(self.col, self.row + 1));
        if self.col > 0 {
            neighbours.push(Cell::new(self.col - 1, self.row));
        }
        if self.row > 0 {
            neighbours.push(Cell::new(self.col, self.row - 1));
        }
        neighbours
    }
}

/// A segment between two grid vertices. Edges are undirected: `==` holds
/// between an edge and its reverse.
#[derive(Debug, Clone, Copy)]
pub struct Edge {
    pub from: Cell,
    pub to: Cell,
}

/// Undirected equality of edges.
pub open spec fn edge_eq(a: Edge, b: Edge) -> bool {
    (a.from == b.from && a.to == b.to) || (a.from == b.to && a.to == b.from)
}

/// How many integers of `a1..=b1` lie in `a2..=b2`.
pub open spec fn inclusive_overlap(a1: int, b1: int, a2: int, b2: int) -> int {
    let lo = if a1 >= a2 { a1 } else { a2 };
    let hi = if b1 <= b2 { b1 } else { b2 };
    if a1 > b1 || lo > hi { 0 } else { hi - lo + 1 }
}

/// Two edges intersect when they are equal or lie on the same grid line and
/// share more than one vertex.
pub open spec fn edge_intersects(s: Edge, o: Edge) -> bool {
    if edge_eq(s, o) {
        true
    } else if s.from.col == s.to.col && o.from.col == s.from.col && o.to.col == s.to.col {
        inclusive_overlap(s.from.row as int, s.to.row as int, o.from.row as int, o.to.row as int) > 1
    } else if s.from.row == s.to.row && o.from.row == s.from.row && o.to.row == s.to.row {
        inclusive_overlap(s.from.col as int, s.to.col as int, o.from.col as int, o.to.col as int) > 1
    } else {
        false
    }
}

/// Whether more than one integer of `a1..=b1` lies in `a2..=b2`.
fn overlap_exceeds_one(a1: u32, b1: u32, a2: u32, b2: u32) -> (r: bool)
    ensures
        r == (inclusive_overlap(a1 as int, b1 as int, a2 as int, b2 as int) > 1),
{
    let lo = if a1 >= a2 { a1 } else { a2 };
    let hi = if b1 <= b2 { b1 } else { b2 };
    a1 <= b1 && lo < hi
}

impl PartialEq for Edge {
    fn eq(&self, other: &Self) -> (r: bool) {
        (self.from == other.from && self.to == other.to) || (self.from == other.to && self.to
            == other.from)
    }
}

impl vstd::std_specs::cmp::PartialEqSpecImpl for Edge {
    open spec fn obeys_eq_spec() -> bool {
        true
    }

    open spec fn eq_spec(&self, other: &Edge) -> bool {
        edge_eq(*self, *other)
    }
}

impl Eq for Edge {

}

impl Edge {
    pub fn new(from: Cell, to: Cell) -> (e: Edge)
        ensures
            e == (Edge { from, to }),
    {
        Edge { from, to }
    }

    /// Whether the two edges overlap on more than a single vertex.
    pub fn intersects_with(&self, other: &Edge) -> (r: bool)
        ensures
            r == edge_intersects(*self, *other),
    {
        if self == other {
            return true;
        }
        if self.from.col == self.to.col && other.from.col == self.from.col && other.to.col
            == self.to.col {
            overlap_exceeds_one(self.from.row, self.to.row, other.from.row, other.to.row)
        } else if self.from.row == self.to.row && other.from.row == self.from.row && other.to.row
            == self.to.row {
            overlap_exceeds_one(self.from.col, self.to.col, other.from.col, other.to.col)
        } else {
            false
        }
    }
}


/// The axis along which a rectangle is cut: `Horizontal` cuts it into an upper
/// and a lower part, `Vertical` into a left and a right part.
#[derive(Debug, Clone, Copy, PartialEq, Eq, Structural)]
pub enum SplitAxis {
    Horizontal,
    Vertical,
}

/// An axis-aligned rectangle of cells.
#[derive(Debug, Clone, Copy, PartialEq, Eq, Structural, Hash)]
pub struct Rect {
    pub origin: Cell,
    pub width: u32,
    pub height: u32,
}

/// A split was asked for on a side too short, or at a position outside the side.
#[derive(Debug, Clone, Copy, PartialEq, Eq, Structural)]
pub struct InvalidSplitError {
    /// Length of the side being cut.
    pub size: u32,
    /// The requested cut position.
    pub at: u32,
}

impl Rect {
    /// The rectangle's far corner is representable.
    pub open spec fn well_placed(self) -> bool {
        self.origin.col + self.width <= u32::MAX && self.origin.row + self.height <= u32::MAX
    }

    /// The side of the rectangle facing `d`, as an edge between two grid vertices.
    pub open spec fn spec_edge(self, d: Direction) -> Edge {
        let c0 = self.origin.col;
        let r0 = self.origin.row;
        let c1 = (self.origin.col + self.width) as u32;
        let r1 = (self.origin.row + self.height) as u32;
        match d {
            Direction::North => Edge { from: Cell { col: c0, row: r0 }, to: Cell { col: c1, row: r0 } },
            Direction::South => Edge { from: Cell { col: c0, row: r1 }, to: Cell { col: c1, row: r1 } },
            Direction::West => Edge { from: Cell { col: c0, row: r0 }, to: Cell { col: c0, row: r1 } },
            Direction::East => Edge { from: Cell { col: c1, row: r0 }, to: Cell { col: c1, row: r1 } },
        }
    }

    /// The first direction, in the order North, South, East, West, in which this
    /// rectangle's side overlaps the facing side of `other`.
    pub open spec fn spec_neighbour_dir(self, other: Rect) -> Option<Direction> {
        if self == other {
            None
        } else if edge_intersects(self.spec_edge(Direction::North), other.spec_edge(Direction::South)) {
            Some(Direction::North)
        } else if edge_intersects(self.spec_edge(Direction::South), other.spec_edge(Direction::North)) {
            Some(Direction::South)
        } else if edge_intersects(self.spec_edge(Direction::East), other.spec_edge(Direction::West)) {
            Some(Direction::East)
        } else if edge_intersects(self.spec_edge(Direction::West), other.spec_edge(Direction::East)) {
            Some(Direction::West)
        } else {
            None
        }
    }

    /// The cells of the rectangle, row by row from the top, each row from the left.
    pub open spec fn spec_cells(self) -> Seq<Cell> {
        rect_rows(self.origin.col as int, self.origin.row as int, self.width as nat, self.height as nat)
    }

    /// Whether a split of this rectangle along `axis` at `at` is refused.
    pub open spec fn split_is_invalid(self, axis: SplitAxis, at: u32) -> bool {
        match axis {
            SplitAxis::Horizontal => self.height < 2 || at >= self.height || at == 0,
            SplitAxis::Vertical => self.width < 2 || at >= self.width || at == 0,
        }
    }

    /// The two halves of a valid split.
    pub open spec fn spec_split(self, axis: SplitAxis, at: u32) -> (Rect, Rect) {
        match axis {
            SplitAxis::Horizontal => (
                Rect { origin: self.origin, width: self.width, height: at },
                Rect {
                    origin: Cell { col: self.origin.col, row: (self.origin.row + at) as u32 },
                    width: self.width,
                    height: (self.height - at) as u32,
                },
            ),
            SplitAxis::Vertical => (
                Rect { origin: self.origin, width: at, height: self.height },
                Rect {
                    origin: Cell { col: (self.origin.col + at) as u32, row: self.origin.row },
                    width: (self.width - at) as u32,
                    height: self.height,
                },
            ),
        }
    }

    pub fn new(x: u32, y: u32, width: u32, height: u32) -> (r: Rect)
        ensures
            r == (Rect { origin: Cell { col: x, row: y }, width, height }),
    {
        Rect { origin: Cell { col: x, row: y }, width, height }
    }

    /// Cuts the rectangle in two along `axis`, `at` cells from its origin.
    /// Fails when the side is shorter than two cells or `at` is not strictly inside it.
    pub fn try_split_at(self, axis: SplitAxis, at: u32) -> (r: Result<(Rect, Rect), InvalidSplitError>)
        requires
            axis == SplitAxis::Horizontal && 0 < at < self.height ==> self.origin.row + at <= u32::MAX,
            axis == SplitAxis::Vertical && 0 < at < self.width ==> self.origin.col + at <= u32::MAX,
        ensures
            r is Err <==> self.split_is_invalid(axis, at),
            r matches Ok(halves) ==> halves == self.spec_split(axis, at),
            r matches Err(e) ==> e.at == at && e.size == (if axis == SplitAxis::Horizontal { self.height } else { self.width }),
    {
        match axis {
            SplitAxis::Horizontal => {
                if self.height < 2 || at >= self.height || at == 0 {
                    return Err(InvalidSplitError { size: self.height, at });
                }
                let up = Rect { origin: self.origin, width: self.width, height: at };
                let down = Rect {
                    origin: Cell { col: self.origin.col, row: self.origin.row + at },
                    width: self.width,
                    height: self.height - at,
                };
                Ok((up, down))
            },
            SplitAxis::Vertical => {
                if self.width < 2 || at >= self.width || at == 0 {
                    return Err(InvalidSplitError { size: self.width, at });
                }
                let left = Rect { origin: self.origin, width: at, height: self.height };
                let right = Rect {
                    origin: Cell { col: self.origin.col + at, row: self.origin.row },
                    width: self.width - at,
                    height: self.height,
                };
                Ok((left, right))
            },
        }
    }

    /// The direction of the first side (North, South, East, West) that overlaps
    /// the facing side of `other` on more than one vertex; `None` for equal rectangles.
    pub fn is_neighbour_of(&self, other: &Rect) -> (r: Option<Direction>)
        requires
            self.well_placed(),
            other.well_placed(),
        ensures
            r == self.spec_neighbour_dir(*other),
    {
        if *self == *other {
            return None;
        }
        if self.get_edge(Direction::North).intersects_with(&other.get_edge(Direction::South)) {
            return Some(Direction::North);
        }
        if self.get_edge(Direction::South).intersects_with(&other.get_edge(Direction::North)) {
            return Some(Direction::South);
        }
        if self.get_edge(Direction::East).intersects_with(&other.get_edge(Direction::West)) {
            return Some(Direction::East);
        }
        if self.get_edge(Direction::West).intersects_with(&other.get_edge(Direction::East)) {
            return Some(Direction::West);
        }
        None
    }

    /// The cells covered by the rectangle, row by row: `width * height` of
    /// them, each inside the rectangle.
    pub fn get_cells(&self) -> (cells: Vec<Cell>)
        requires
            self.well_placed(),
        ensures
            cells@ == self.spec_cells(),
            cells@.len() == self.width * self.height,
            forall|c: Cell| #[trigger] cells@.contains(c) <==> in_rect(*self, c),
    {
        proof {
            lemma_rect_cells(*self);
        }
        let c0 = self.origin.col;
        let r0 = self.origin.row;
        let mut cells: Vec<Cell> = Vec::new();
        let mut row: u32 = r0;
        while row < r0 + self.height
            invariant
                self.well_placed(),
                c0 == self.origin.col,
                r0 == self.origin.row,
                r0 <= row <= r0 + self.height,
                cells@ == rect_rows(c0 as int, r0 as int, self.width as nat, (row - r0) as nat),
            decreases r0 + self.height - row,
        {
            let mut col: u32 = c0;
            while col < c0 + self.width
                invariant
                    self.well_placed(),
                    c0 == self.origin.col,
                    r0 == self.origin.row,
                    r0 <= row < r0 + self.height,
                    c0 <= col <= c0 + self.width,
                    cells@ == rect_rows(c0 as int, r0 as int, self.width as nat, (row - r0) as nat)
                        + row_cells(c0 as int, row as int, (col - c0) as nat),
                decreases c0 + self.width - col,
            {
                proof {
                    assert(row_cells(c0 as int, row as int, (col - c0 + 1) as nat) =~= row_cells(
                        c0 as int,
                        row as int,
                        (col - c0) as nat,
                    ).push(Cell { col, row }));
                }
                cells.push(Cell { col, row });
                col = col + 1;
            }
            proof {
                assert(rect_rows(c0 as int, r0 as int, self.width as nat, (row + 1 - r0) as nat)
                    == rect_rows(c0 as int, r0 as int, self.width as nat, (row - r0) as nat)
                    + row_cells(c0 as int, row as int, self.width as nat));
            }
            row = row + 1;
        }
        cells
    }

    /// Same as [`Rect::get_cells`].
    pub fn into_cells(&self) -> (cells: Vec<Cell>)
        requires
            self.well_placed(),
        ensures
            cells@ == self.spec_cells(),
    {
        self.get_cells()
    }

    /// The side of the rectangle that faces `direction`.
    pub fn get_edge(&self, direction: Direction) -> (e: Edge)
        requires
            self.well_placed(),
        ensures
            e == self.spec_edge(direction),
    {
        match direction {
            Direction::North => Edge {
                from: Cell::new(self.origin.col, self.origin.row),
                to: Cell::new(self.origin.col + self.width, self.origin.row),
            },
            Direction::South => Edge {
                from: Cell::new(self.origin.col, self.origin.row + self.height),
                to: Cell::new(self.origin.col + self.width, self.origin.row + self.height),
            },
            Direction::West => Edge {
                from: Cell::new(self.origin.col, self.origin.row),
                to: Cell::new(self.origin.col, self.origin.row + self.height),
            },
            Direction::East => Edge {
                from: Cell::new(self.origin.col + self.width, self.origin.row),
                to: Cell::new(self.origin.col + self.width, self.origin.row + self.height),
            },
        }
    }

    /// Number of cells in the rectangle.
    pub fn area(&self) -> (a: u32)
        requires
            self.width * self.height <= u32::MAX,
        ensures
            a == self.width * self.height,
    {
        self.width * self.height
    }
}

/// The cells `col0 .. col0 + width` of one row, from the left.
pub open spec fn row_cells(col0: int, row: int, width: nat) -> Seq<Cell> {
    Seq::new(width, |i: int| Cell { col: (col0 + i) as u32, row: row as u32 })
}

/// The first `h` rows of a rectangle of the given width, row by row.
pub open spec fn rect_rows(col0: int, row0: int, width: nat, h: nat) -> Seq<Cell>
    decreases h,
{
    if h == 0 {
        Seq::empty()
    } else {
        rect_rows(col0, row0, width, (h - 1) as nat) + row_cells(col0, row0 + h - 1, width)
    }
}


proof fn lemma_rect_rows_len(c0: int, r0: int, w: nat, h: nat)
    ensures
        rect_rows(c0, r0, w, h).len() == w * h,
    decreases h,
{
    if h > 0 {
        let hp = (h - 1) as nat;
        lemma_rect_rows_len(c0, r0, w, hp);
        assert(rect_rows(c0, r0, w, h) == rect_rows(c0, r0, w, hp) + row_cells(c0, r0 + h - 1, w));
        assert(row_cells(c0, r0 + h - 1, w).len() == w);
        assert(w * h == w * hp + w) by (nonlinear_arith)
            requires hp == h - 1;
    } else {
        assert(w * h == 0) by (nonlinear_arith)
            requires h == 0;
    }
}

proof fn lemma_rect_rows_contains(c0: int, r0: int, w: nat, h: nat, c: Cell)
    requires
        0 <= c0,
        c0 + w <= u32::MAX,
        0 <= r0,
        r0 + h <= u32::MAX,
    ensures
        rect_rows(c0, r0, w, h).contains(c) <==> (c0 <= c.col < c0 + w && r0 <= c.row < r0 + h),
    decreases h,
{
    if h > 0 {
        let hp = (h - 1) as nat;
        lemma_rect_rows_contains(c0, r0, w, hp, c);
        let front = rect_rows(c0, r0, w, hp);
        let last = row_cells(c0, r0 + h - 1, w);
        let all = rect_rows(c0, r0, w, h);
        assert(all == front + last);
        if all.contains(c) {
            let k = choose|k: int| 0 <= k < all.len() && all[k] == c;
            if k < front.len() {
                assert(all[k] == front[k]);
                assert(front.contains(c));
            } else {
                assert(all[k] == last[k - front.len()]);
            }
        }
        if c0 <= c.col < c0 + w && r0 <= c.row < r0 + h {
            if c.row < r0 + h - 1 {
                let k = choose|k: int| 0 <= k < front.len() && front[k] == c;
                assert(all[k] == front[k]);
            } else {
                let i = c.col - c0;
                assert(last[i] == c);
                assert(all[front.len() + i] == last[i]);
            }
        }
    }
}

proof fn lemma_rect_rows_distinct(c0: int, r0: int, w: nat, h: nat)
    requires
        0 <= c0,
        c0 + w <= u32::MAX,
        0 <= r0,
        r0 + h <= u32::MAX,
    ensures
        rect_rows(c0, r0, w, h).no_duplicates(),
    decreases h,
{
    if h > 0 {
        let hp = (h - 1) as nat;
        lemma_rect_rows_distinct(c0, r0, w, hp);
        let front = rect_rows(c0, r0, w, hp);
        let last = row_cells(c0, r0 + h - 1, w);
        assert(rect_rows(c0, r0, w, h) == front + last);
        assert forall|i: int, j: int| 0 <= i < last.len() && 0 <= j < last.len() && i != j implies last[i] != last[j] by {
            assert(last[i].col == c0 + i && last[j].col == c0 + j);
        }
        assert forall|i: int, j: int| 0 <= i < front.len() && 0 <= j < last.len() implies front[i] != last[j] by {
            lemma_rect_rows_contains(c0, r0, w, hp, front[i]);
            assert(front.contains(front[i]));
            assert(last[j].row == r0 + h - 1);
        }
        vstd::seq_lib::lemma_no_dup_in_concat(front, last);
    }
}

/// No cell comes twice among the cells of a rectangle.
pub proof fn lemma_rect_cells_distinct(r: Rect)
    requires
        r.well_placed(),
    ensures
        r.spec_cells().no_duplicates(),
{
    lemma_rect_rows_distinct(r.origin.col as int, r.origin.row as int, r.width as nat, r.height as nat);
}

/// Cell `c` lies in rectangle `r`.
pub open spec fn in_rect(r: Rect, c: Cell) -> bool {
    &&& r.origin.col <= c.col < r.origin.col + r.width
    &&& r.origin.row <= c.row < r.origin.row + r.height
}

/// The cells of a rectangle are the cells inside it, `width * height` of
/// them: the area of a rectangle is the number of its cells.
pub proof fn lemma_rect_cells(r: Rect)
    requires
        r.well_placed(),
    ensures
        r.spec_cells().len() == r.width * r.height,
        forall|c: Cell| #[trigger] r.spec_cells().contains(c) <==> in_rect(r, c),
{
    lemma_rect_rows_len(r.origin.col as int, r.origin.row as int, r.width as nat, r.height as nat);
    assert forall|c: Cell| #[trigger] r.spec_cells().contains(c) <==> in_rect(r, c) by {
        lemma_rect_rows_contains(r.origin.col as int, r.origin.row as int, r.width as nat, r.height as nat, c);
    }
}

/// The rectangles share a stretch of the side of `a` facing `d` (and of the
/// opposite side of `b`), at least one cell long.
pub open spec fn rects_touch(a: Rect, b: Rect, d: Direction) -> bool {
    let col_overlap = (if a.origin.col >= b.origin.col { a.origin.col as int } else { b.origin.col as int })
        < (if a.origin.col + a.width <= b.origin.col + b.width { a.origin.col + a.width } else { b.origin.col + b.width });
    let row_overlap = (if a.origin.row >= b.origin.row { a.origin.row as int } else { b.origin.row as int })
        < (if a.origin.row + a.height <= b.origin.row + b.height { a.origin.row + a.height } else { b.origin.row + b.height });
    match d {
        Direction::North => b.origin.row + b.height == a.origin.row && col_overlap,
        Direction::South => a.origin.row + a.height == b.origin.row && col_overlap,
        Direction::East => a.origin.col + a.width == b.origin.col && row_overlap,
        Direction::West => b.origin.col + b.width == a.origin.col && row_overlap,
    }
}

proof fn lemma_edges_touch(a: Rect, b: Rect)
    requires
        a.well_placed(),
        b.well_placed(),
        a.width >= 1,
        a.height >= 1,
        b.width >= 1,
        b.height >= 1,
    ensures
        edge_intersects(a.spec_edge(Direction::North), b.spec_edge(Direction::South)) == rects_touch(a, b, Direction::North),
        edge_intersects(a.spec_edge(Direction::South), b.spec_edge(Direction::North)) == rects_touch(a, b, Direction::South),
        edge_intersects(a.spec_edge(Direction::East), b.spec_edge(Direction::West)) == rects_touch(a, b, Direction::East),
        edge_intersects(a.spec_edge(Direction::West), b.spec_edge(Direction::East)) == rects_touch(a, b, Direction::West),
{
}

proof fn lemma_touch_by_cells(a: Rect, b: Rect, d: Direction)
    requires
        a.well_placed(),
        b.well_placed(),
        a.width >= 1,
        a.height >= 1,
        b.width >= 1,
        b.height >= 1,
        forall|c: Cell| !(in_rect(a, c) && #[trigger] in_rect(b, c)),
    ensures
        rects_touch(a, b, d) <==> exists|x: Cell, y: Cell| in_rect(a, x) && in_rect(b, y) && #[trigger] cell_neighbour_dir(x, y) == Some(d),
{
    let ac = a.origin.col as int;
    let ar = a.origin.row as int;
    let bc = b.origin.col as int;
    let br = b.origin.row as int;
    let col = if ac >= bc { ac } else { bc };
    let row = if ar >= br { ar } else { br };
    if rects_touch(a, b, d) {
        match d {
            Direction::North => {
                let x = Cell { col: col as u32, row: ar as u32 };
                let y = Cell { col: col as u32, row: (ar - 1) as u32 };
                assert(in_rect(a, x) && in_rect(b, y) && cell_neighbour_dir(x, y) == Some(d));
            },
            Direction::South => {
                let x = Cell { col: col as u32, row: (br - 1) as u32 };
                let y = Cell { col: col as u32, row: br as u32 };
                assert(in_rect(a, x) && in_rect(b, y) && cell_neighbour_dir(x, y) == Some(d));
            },
            Direction::East => {
                let x = Cell { col: (bc - 1) as u32, row: row as u32 };
                let y = Cell { col: bc as u32, row: row as u32 };
                assert(in_rect(a, x) && in_rect(b, y) && cell_neighbour_dir(x, y) == Some(d));
            },
            Direction::West => {
                let x = Cell { col: ac as u32, row: row as u32 };
                let y = Cell { col: (ac - 1) as u32, row: row as u32 };
                assert(in_rect(a, x) && in_rect(b, y) && cell_neighbour_dir(x, y) == Some(d));
            },
        }
    }
    if exists|x: Cell, y: Cell| in_rect(a, x) && in_rect(b, y) && #[trigger] cell_neighbour_dir(x, y) == Some(d) {
        let (x, y) = choose|x: Cell, y: Cell| in_rect(a, x) && in_rect(b, y) && #[trigger] cell_neighbour_dir(x, y) == Some(d);
        match d {
            Direction::North => {
                // the cell of `b` right above the top of `a` would be shared otherwise
                assert(!in_rect(b, x));
                assert(!in_rect(a, y));
            },
            Direction::South => {
                assert(!in_rect(b, x));
                assert(!in_rect(a, y));
            },
            Direction::East => {
                assert(!in_rect(b, x));
                assert(!in_rect(a, y));
            },
            Direction::West => {
                assert(!in_rect(b, x));
                assert(!in_rect(a, y));
            },
        }
    }
}

/// Two rectangles with cells and no cell in common are neighbours
/// (`Rect::is_neighbour_of`) exactly when a cell of one shares a side with
/// a cell of the other; the direction found is the side of `a` on which such
/// a cell of `b` lies, and seen from `b` the direction is reversed.
pub proof fn lemma_rect_neighbours_by_cells(a: Rect, b: Rect)
    requires
        a.well_placed(),
        b.well_placed(),
        a.width >= 1,
        a.height >= 1,
        b.width >= 1,
        b.height >= 1,
        forall|c: Cell| !(a.spec_cells().contains(c) && #[trigger] b.spec_cells().contains(c)),
    ensures
        a.spec_neighbour_dir(b) is Some <==> exists|x: Cell, y: Cell| a.spec_cells().contains(x) && b.spec_cells().contains(y)
            && #[trigger] cell_neighbour_dir(x, y) is Some,
        a.spec_neighbour_dir(b) matches Some(d) ==> exists|x: Cell, y: Cell| a.spec_cells().contains(x) && b.spec_cells().contains(y)
            && #[trigger] cell_neighbour_dir(x, y) == Some(d),
        a.spec_neighbour_dir(b) matches Some(d) ==> b.spec_neighbour_dir(a) == Some(d.spec_reverse()),
{
    lemma_rect_cells(a);
    lemma_rect_cells(b);
    assert forall|c: Cell| !(in_rect(a, c) && #[trigger] in_rect(b, c)) by {
        assert(a.spec_cells().contains(c) == in_rect(a, c));
        assert(b.spec_cells().contains(c) == in_rect(b, c));
    }
    assert forall|c: Cell| !(in_rect(b, c) && #[trigger] in_rect(a, c)) by {
        assert(a.spec_cells().contains(c) == in_rect(a, c));
        assert(b.spec_cells().contains(c) == in_rect(b, c));
    }
    lemma_edges_touch(a, b);
    lemma_edges_touch(b, a);
    lemma_touch_by_cells(a, b, Direction::North);
    lemma_touch_by_cells(a, b, Direction::South);
    lemma_touch_by_cells(a, b, Direction::East);
    lemma_touch_by_cells(a, b, Direction::West);
    // the two rectangles are not the same: the origin of `a` is not a cell of `b`
    assert(in_rect(a, a.origin));
    assert(a != b);
    if exists|x: Cell, y: Cell| a.spec_cells().contains(x) && b.spec_cells().contains(y) && #[trigger] cell_neighbour_dir(x, y) is Some {
        let (x, y) = choose|x: Cell, y: Cell| a.spec_cells().contains(x) && b.spec_cells().contains(y) && #[trigger] cell_neighbour_dir(x, y) is Some;
        let d = cell_neighbour_dir(x, y)->0;
        assert(in_rect(a, x) && in_rect(b, y));
        assert(rects_touch(a, b, d));
    }
    match a.spec_neighbour_dir(b) {
        Some(d) => {
            assert(rects_touch(a, b, d));
            let (x, y) = choose|x: Cell, y: Cell| in_rect(a, x) && in_rect(b, y) && #[trigger] cell_neighbour_dir(x, y) == Some(d);
            assert(a.spec_cells().contains(x) && b.spec_cells().contains(y));
        },
        None => {},
    }
}

/// How a door between two rooms is drawn and used.
#[derive(Debug, Clone, Copy, PartialEq, Eq, Structural, Hash)]
pub enum DoorModifier {
    Open,
    Secret,
    Locked,
    /// A passage drawn like an open door but without a modifier of its own.
    Unmarked,
}

impl DoorModifier {
    pub open spec fn spec_color(self) -> Seq<char> {
        match self {
            DoorModifier::Open => "purple"@,
            DoorModifier::Unmarked => "purple"@,
            DoorModifier::Secret => "red"@,
            DoorModifier::Locked => "blue"@,
        }
    }

    /// The stroke colour of the door.
    pub fn color(&self) -> (c: &'static str)
        ensures
            c@ == self.spec_color(),
    {
        match self {
            DoorModifier::Open => "purple",
            DoorModifier::Unmarked => "purple",
            DoorModifier::Secret => "red",
            DoorModifier::Locked => "blue",
        }
    }
}

/// A door on the shared side of two neighbouring cells.
#[derive(Debug, Clone, Copy, PartialEq, Eq, Structural, Hash)]
pub struct Door {
    pub from: Cell,
    pub to: Cell,
    pub modifier: DoorModifier,
}

impl Door {
    /// An open door between `from` and `to`.
    pub fn new(from: Cell, to: Cell) -> (d: Door)
        ensures
            d == (Door { from, to, modifier: DoorModifier::Open }),
    {
        Door { from, to, modifier: DoorModifier::Open }
    }
}

/// Fill colour of a room.
#[derive(Debug, Clone, Copy, PartialEq, Eq, Structural, Hash)]
pub enum RoomColor {
    Purple,
    Red,
    Green,
    Blue,
    Yellow,
}

impl RoomColor {
    pub open spec fn spec_name(self) -> Seq<char> {
        match self {
            RoomColor::Purple => "purple"@,
            RoomColor::Red => "red"@,
            RoomColor::Green => "green"@,
            RoomColor::Blue => "blue"@,
            RoomColor::Yellow => "yellow"@,
        }
    }

    /// The colour's name as used in drawings.
    pub fn to_string(&self) -> (c: &'static str)
        ensures
            c@ == self.spec_name(),
    {
        match self {
            RoomColor::Purple => "purple",
            RoomColor::Red => "red",
            RoomColor::Green => "green",
            RoomColor::Blue => "blue",
            RoomColor::Yellow => "yellow",
        }
    }
}

impl Default for RoomColor {
    fn default() -> (c: RoomColor)
        ensures
            c == RoomColor::Purple,
    {
        RoomColor::Purple
    }
}

/// What a room holds or is used for.
#[derive(Debug, Clone, Copy, PartialEq, Eq, Structural, Hash)]
pub enum RoomModifier {
    /// No modifier.
    Plain,
    Navigation,
    Save,
    Item,
    Connector,
    Secret,
    RegionConnection(Direction),
}

impl Default for RoomModifier {
    fn default() -> (m: RoomModifier)
        ensures
            m == RoomModifier::Plain,
    {
        RoomModifier::Plain
    }
}

/// Index of a room slot inside a region.
pub type RoomId = usize;

/// A room: a set of cells of the grid, with an optional modifier.
#[derive(Debug, Clone, PartialEq, Eq, Hash)]
pub struct Room {
    pub cells: Vec<Cell>,
    pub modifier: Option<RoomModifier>,
}

/// Equality of rooms: same cells in the same order and same modifier.
pub open spec fn room_eq(a: Room, b: Room) -> bool {
    a.cells@ == b.cells@ && a.modifier == b.modifier
}

/// Whether some cell of `a` shares a side with some cell of `b`.
pub open spec fn cells_touch(a: Seq<Cell>, b: Seq<Cell>) -> bool {
    exists|i: int, j: int|
        0 <= i < a.len() && 0 <= j < b.len() && (#[trigger] cell_neighbour_dir(a[i], b[j])) is Some
}

/// For one cell `c`, the cells of `b` it shares a side with, in the order of `b`,
/// each with the direction in which it lies.
pub open spec fn pairs_with(c: Cell, b: Seq<Cell>) -> Seq<(Cell, Cell, Direction)>
    decreases b.len(),
{
    if b.len() == 0 {
        Seq::empty()
    } else {
        let rest = pairs_with(c, b.drop_last());
        match cell_neighbour_dir(c, b.last()) {
            Some(d) => rest.push((c, b.last(), d)),
            None => rest,
        }
    }
}

/// All pairs of side-sharing cells of `a` and `b`, `a` in the outer order.
pub open spec fn neighbouring_pairs(a: Seq<Cell>, b: Seq<Cell>) -> Seq<(Cell, Cell, Direction)>
    decreases a.len(),
{
    if a.len() == 0 {
        Seq::empty()
    } else {
        neighbouring_pairs(a.drop_last(), b) + pairs_with(a.last(), b)
    }
}

/// Whether a cell occurs in a vector.
pub fn vec_contains_cell(v: &Vec<Cell>, c: Cell) -> (r: bool)
    ensures
        r == v@.contains(c),
{
    let mut i: usize = 0;
    while i < v.len()
        invariant
            0 <= i <= v.len(),
            forall|k: int| 0 <= k < i ==> v@[k] != c,
        decreases v.len() - i,
    {
        if v[i] == c {
            return true;
        }
        i = i + 1;
    }
    false
}

fn same_modifier(a: &Option<RoomModifier>, b: &Option<RoomModifier>) -> (r: bool)
    ensures
        r == (*a == *b),
{
    match (a, b) {
        (None, None) => true,
        (Some(x), Some(y)) => *x == *y,
        _ => false,
    }
}

impl Room {
    pub fn new_from_rect(rect: Rect) -> (r: Room)
        requires
            rect.well_placed(),
        ensures
            r.cells@ == rect.spec_cells(),
            r.modifier == Option::<RoomModifier>::None,
    {
        Room { cells: rect.get_cells(), modifier: None }
    }

    /// Same cells in the same order and same modifier.
    pub fn same_as(&self, other: &Room) -> (r: bool)
        ensures
            r == room_eq(*self, *other),
    {
        if self.cells.len() != other.cells.len() {
            return false;
        }
        let mut i: usize = 0;
        while i < self.cells.len()
            invariant
                self.cells.len() == other.cells.len(),
                0 <= i <= self.cells.len(),
                forall|k: int| 0 <= k < i ==> self.cells@[k] == other.cells@[k],
            decreases self.cells.len() - i,
        {
            if self.cells[i] != other.cells[i] {
                return false;
            }
            i = i + 1;
        }
        assert(self.cells@ =~= other.cells@);
        same_modifier(&self.modifier, &other.modifier)
    }

    /// Two different rooms are neighbours when a cell of one shares a side
    /// with a cell of the other.
    pub fn is_neighbour_of(&self, other: &Room) -> (r: bool)
        ensures
            r == (!room_eq(*self, *other) && cells_touch(self.cells@, other.cells@)),
    {
        if self.same_as(other) {
            return false;
        }
        let mut i: usize = 0;
        while i < self.cells.len()
            invariant
                !room_eq(*self, *other),
                0 <= i <= self.cells.len(),
                forall|a: int, b: int|
                    0 <= a < i && 0 <= b < other.cells@.len() ==> (#[trigger] cell_neighbour_dir(
                        self.cells@[a],
                        other.cells@[b],
                    )) is None,
            decreases self.cells.len() - i,
        {
            let mut j: usize = 0;
            while j < other.cells.len()
                invariant
                    !room_eq(*self, *other),
                    0 <= i < self.cells.len(),
                    0 <= j <= other.cells.len(),
                    forall|a: int, b: int|
                        0 <= a < i && 0 <= b < other.cells@.len() ==> (#[trigger] cell_neighbour_dir(
                            self.cells@[a],
                            other.cells@[b],
                        )) is None,
                    forall|b: int|
                        0 <= b < j ==> (#[trigger] cell_neighbour_dir(self.cells@[i as int], other.cells@[b])) is None,
                decreases other.cells.len() - j,
            {
                if self.cells[i].is_neighbour_of(&other.cells[j]).is_some() {
                    proof {
                        assert((cell_neighbour_dir(self.cells@[i as int], other.cells@[j as int])) is Some);
                        assert(cells_touch(self.cells@, other.cells@));
                    }
                    return true;
                }
                j = j + 1;
            }
            i = i + 1;
        }
        false
    }

    /// Every pair of side-sharing cells between this room and `other`, with the
    /// direction from this room's cell; `None` when the rooms are equal or no pair exists.
    pub fn get_neighbouring_cells_for(&self, other: &Room) -> (r: Option<Vec<(Cell, Cell, Direction)>>)
        ensures
            r is None <==> (room_eq(*self, *other) || neighbouring_pairs(self.cells@, other.cells@).len() == 0),
            r matches Some(v) ==> v@ == neighbouring_pairs(self.cells@, other.cells@),
    {
        if self.same_as(other) {
            return None;
        }
        let mut pairs: Vec<(Cell, Cell, Direction)> = Vec::new();
        let mut i: usize = 0;
        while i < self.cells.len()
            invariant
                0 <= i <= self.cells.len(),
                pairs@ == neighbouring_pairs(self.cells@.take(i as int), other.cells@),
            decreases self.cells.len() - i,
        {
            let cell = self.cells[i];
            let mut j: usize = 0;
            while j < other.cells.len()
                invariant
                    0 <= i < self.cells.len(),
                    0 <= j <= other.cells.len(),
                    cell == self.cells@[i as int],
                    pairs@ == neighbouring_pairs(self.cells@.take(i as int), other.cells@)
                        + pairs_with(cell, other.cells@.take(j as int)),
                decreases other.cells.len() - j,
            {
                proof {
                    assert(other.cells@.take(j + 1).drop_last() =~= other.cells@.take(j as int));
                }
                match cell.is_neighbour_of(&other.cells[j]) {
                    Some(d) => {
                        pairs.push((cell, other.cells[j], d));
                    },
                    None => {},
                }
                proof {
                    assert(pairs@ =~= neighbouring_pairs(self.cells@.take(i as int), other.cells@)
                        + pairs_with(cell, other.cells@.take(j + 1)));
                }
                j = j + 1;
            }
            proof {
                assert(other.cells@.take(other.cells@.len() as int) =~= other.cells@);
                assert(self.cells@.take(i + 1).drop_last() =~= self.cells@.take(i as int));
            }
            i = i + 1;
        }
        proof {
            assert(self.cells@.take(self.cells@.len() as int) =~= self.cells@);
        }
        if pairs.len() == 0 {
            None
        } else {
            Some(pairs)
        }
    }

    /// The union of the cells of both rooms, each cell once; keeps this room's modifier.
    pub fn merged_with(self, other: Room) -> (r: Room)
        ensures
            r.modifier == self.modifier,
            r.cells@.no_duplicates(),
            forall|c: Cell| #[trigger] r.cells@.contains(c) <==> (self.cells@.contains(c) || other.cells@.contains(c)),
    {
        let mut merged: Vec<Cell> = Vec::new();
        let mut i: usize = 0;
        while i < self.cells.len()
            invariant
                0 <= i <= self.cells.len(),
                merged@.no_duplicates(),
                forall|c: Cell| #[trigger] merged@.contains(c) <==> self.cells@.take(i as int).contains(c),
            decreases self.cells.len() - i,
        {
            let c = self.cells[i];
            let ghost before = merged@;
            proof {
                assert(self.cells@.take(i + 1) =~= self.cells@.take(i as int).push(c));
                assert forall|x: Cell| #[trigger] self.cells@.take(i + 1).contains(x) <==> (self.cells@.take(i as int).contains(x) || x == c) by {
                    lemma_push_contains(self.cells@.take(i as int), c, x);
                }
            }
            if !vec_contains_cell(&merged, c) {
                merged.push(c);
                proof {
                    lemma_push_no_duplicates(before, c);
                    assert forall|x: Cell| #[trigger] merged@.contains(x) <==> (before.contains(x) || x == c) by {
                        lemma_push_contains(before, c, x);
                    }
                }
            }
            i = i + 1;
        }
        assert(self.cells@.take(self.cells@.len() as int) =~= self.cells@);
        let mut j: usize = 0;
        while j < other.cells.len()
            invariant
                0 <= j <= other.cells.len(),
                merged@.no_duplicates(),
                forall|c: Cell| #[trigger] merged@.contains(c) <==> (self.cells@.contains(c) || other.cells@.take(j as int).contains(c)),
            decreases other.cells.len() - j,
        {
            let c = other.cells[j];
            let ghost before = merged@;
            proof {
                assert(other.cells@.take(j + 1) =~= other.cells@.take(j as int).push(c));
                assert forall|x: Cell| #[trigger] other.cells@.take(j + 1).contains(x) <==> (other.cells@.take(j as int).contains(x) || x == c) by {
                    lemma_push_contains(other.cells@.take(j as int), c, x);
                }
            }
            if !vec_contains_cell(&merged, c) {
                merged.push(c);
                proof {
                    lemma_push_no_duplicates(before, c);
                    assert forall|x: Cell| #[trigger] merged@.contains(x) <==> (before.contains(x) || x == c) by {
                        lemma_push_contains(before, c, x);
                    }
                }
            }
            j = j + 1;
        }
        assert(other.cells@.take(other.cells@.len() as int) =~= other.cells@);
        Room { cells: merged, modifier: self.modifier }
    }
}

/// The visual style of a generated map.
#[derive(Debug, Copy, Clone, PartialEq, Eq, Structural)]
pub enum MapStyle {
    CastlevaniaSOTN,
    CastlevaniaAOS,
    CastlevaniaCOTM,
    CastlevaniaHOD,
    MetroidZM,
    MetroidFS,
    MetroidSP,
}

impl Default for MapStyle {
    fn default() -> (s: MapStyle)
        ensures
            s == MapStyle::CastlevaniaSOTN,
    {
        MapStyle::CastlevaniaSOTN
    }
}

/// The style a name stands for, if any.
pub open spec fn style_from_name(name: Seq<char>) -> Option<MapStyle> {
    if name == "castlevania-sotn"@ {
        Some(MapStyle::CastlevaniaSOTN)
    } else if name == "castlevania-aos"@ {
        Some(MapStyle::CastlevaniaAOS)
    } else if name == "castlevania-cotm"@ {
        Some(MapStyle::CastlevaniaCOTM)
    } else if name == "castlevania-hod"@ {
        Some(MapStyle::CastlevaniaHOD)
    } else if name == "metroid-zm"@ {
        Some(MapStyle::MetroidZM)
    } else if name == "metroid-fs"@ {
        Some(MapStyle::MetroidFS)
    } else if name == "metroid-sp"@ {
        Some(MapStyle::MetroidSP)
    } else {
        None
    }
}

/// A style name was not recognised.
#[derive(Debug, Clone, PartialEq, Eq)]
pub struct UnknownMapStyleError {
    /// The name that was given.
    pub name: String,
}

fn names_equal(a: &str, b: &str) -> (r: bool)
    ensures
        r == (a@ == b@),
{
    let a_owned = a.to_owned();
    let b_owned = b.to_owned();
    a_owned == b_owned
}

impl MapStyle {
    /// Parses a style from its name ("castlevania-sotn", ..., "metroid-sp").
    pub fn try_from_str(style: &str) -> (r: Result<MapStyle, UnknownMapStyleError>)
        ensures
            r is Ok <==> style_from_name(style@) is Some,
            r matches Ok(s) ==> style_from_name(style@) == Some(s),
            r matches Err(e) ==> e.name@ == style@,
    {
        if names_equal(style, "castlevania-sotn") {
            Ok(MapStyle::CastlevaniaSOTN)
        } else if names_equal(style, "castlevania-aos") {
            Ok(MapStyle::CastlevaniaAOS)
        } else if names_equal(style, "castlevania-cotm") {
            Ok(MapStyle::CastlevaniaCOTM)
        } else if names_equal(style, "castlevania-hod") {
            Ok(MapStyle::CastlevaniaHOD)
        } else if names_equal(style, "metroid-zm") {
            Ok(MapStyle::MetroidZM)
        } else if names_equal(style, "metroid-fs") {
            Ok(MapStyle::MetroidFS)
        } else if names_equal(style, "metroid-sp") {
            Ok(MapStyle::MetroidSP)
        } else {
            Err(UnknownMapStyleError { name: style.to_owned() })
        }
    }
}

/// A finished map region: its bounding rectangle, its rooms and its doors.
#[derive(Debug, Clone, PartialEq, Eq)]
pub struct GeneratedMap {
    pub origin_rect: Rect,
    pub rooms: Vec<Room>,
    pub doors: Vec<Door>,
}

proof fn lemma_pairs_with_member(c: Cell, b: Seq<Cell>, k: int)
    requires
        0 <= k < pairs_with(c, b).len(),
    ensures
        pairs_with(c, b)[k].0 == c,
        b.contains(pairs_with(c, b)[k].1),
        cell_neighbour_dir(c, pairs_with(c, b)[k].1) == Some(pairs_with(c, b)[k].2),
    decreases b.len(),
{
    let rest = pairs_with(c, b.drop_last());
    if k < rest.len() {
        match cell_neighbour_dir(c, b.last()) {
            Some(d) => assert(pairs_with(c, b)[k] == rest[k]),
            None => assert(pairs_with(c, b)[k] == rest[k]),
        }
        lemma_pairs_with_member(c, b.drop_last(), k);
        assert(b.drop_last().contains(rest[k].1));
        let q = choose|q: int| 0 <= q < b.drop_last().len() && b.drop_last()[q] == rest[k].1;
        assert(b[q] == rest[k].1);
    } else {
        assert(b[b.len() - 1] == b.last());
    }
}

/// Every pair of side-sharing cells of two cell lists takes one cell from each.
pub proof fn lemma_neighbouring_pairs_member(a: Seq<Cell>, b: Seq<Cell>, k: int)
    requires
        0 <= k < neighbouring_pairs(a, b).len(),
    ensures
        a.contains(neighbouring_pairs(a, b)[k].0),
        b.contains(neighbouring_pairs(a, b)[k].1),
        cell_neighbour_dir(neighbouring_pairs(a, b)[k].0, neighbouring_pairs(a, b)[k].1) == Some(neighbouring_pairs(a, b)[k].2),
    decreases a.len(),
{
    let rest = neighbouring_pairs(a.drop_last(), b);
    if k < rest.len() {
        assert(neighbouring_pairs(a, b)[k] == rest[k]);
        lemma_neighbouring_pairs_member(a.drop_last(), b, k);
        let q = choose|q: int| 0 <= q < a.drop_last().len() && a.drop_last()[q] == rest[k].0;
        assert(a[q] == rest[k].0);
    } else {
        let j = k - rest.len();
        assert(neighbouring_pairs(a, b)[k] == pairs_with(a.last(), b)[j]);
        lemma_pairs_with_member(a.last(), b, j);
        assert(a[a.len() - 1] == a.last());
    }
}

/// A cell with a side-sharing cell in `b` has a pair with it.
proof fn lemma_pairs_with_nonempty(c: Cell, b: Seq<Cell>, j: int)
    requires
        0 <= j < b.len(),
        cell_neighbour_dir(c, b[j]) is Some,
    ensures
        pairs_with(c, b).len() > 0,
    decreases b.len(),
{
    if j < b.len() - 1 {
        assert(b.drop_last()[j] == b[j]);
        lemma_pairs_with_nonempty(c, b.drop_last(), j);
    }
}

/// Two cell lists touch exactly when they have a pair of side-sharing cells:
/// so `Room::get_neighbouring_cells_for` finds pairs between two different
/// rooms exactly when `Room::is_neighbour_of` holds of them.
pub proof fn lemma_neighbouring_pairs_iff_touch(a: Seq<Cell>, b: Seq<Cell>)
    ensures
        neighbouring_pairs(a, b).len() > 0 <==> cells_touch(a, b),
    decreases a.len(),
{
    if a.len() > 0 {
        lemma_neighbouring_pairs_iff_touch(a.drop_last(), b);
        if neighbouring_pairs(a, b).len() > 0 {
            lemma_neighbouring_pairs_member(a, b, 0);
            let p = neighbouring_pairs(a, b)[0];
            let i = choose|i: int| 0 <= i < a.len() && a[i] == p.0;
            let j = choose|j: int| 0 <= j < b.len() && b[j] == p.1;
            assert(cell_neighbour_dir(a[i], b[j]) is Some);
        }
        if cells_touch(a, b) {
            let (i, j) = choose|i: int, j: int|
                0 <= i < a.len() && 0 <= j < b.len() && (#[trigger] cell_neighbour_dir(a[i], b[j])) is Some;
            if i == a.len() - 1 {
                lemma_pairs_with_nonempty(a.last(), b, j);
            } else {
                assert(a.drop_last()[i] == a[i]);
                assert(cell_neighbour_dir(a.drop_last()[i], b[j]) is Some);
            }
        }
    }
}

/// Going one way and then the other way brings back the same direction.
pub proof fn lemma_reverse_involutive(d: Direction)
    ensures
        d.spec_reverse().spec_reverse() == d,
        d.spec_reverse() != d,
        d.spec_reverse().spec_is_horizontal() == d.spec_is_horizontal(),
{
}

/// If `b` lies in direction `d` of `a`, then `a` lies in the opposite direction of `b`.
pub proof fn lemma_cell_neighbour_reverse(a: Cell, b: Cell)
    ensures
        cell_neighbour_dir(a, b) matches Some(d) ==> cell_neighbour_dir(b, a) == Some(d.spec_reverse()),
        cell_neighbour_dir(a, b) is None ==> cell_neighbour_dir(b, a) is None,
{
}

/// Edge equality ignores the direction in which an edge is written, and is symmetric.
pub proof fn lemma_edge_eq_undirected(a: Edge, b: Edge)
    ensures
        edge_eq(a, Edge { from: a.to, to: a.from }),
        edge_eq(a, b) == edge_eq(b, a),
        edge_eq(a, a),
{
}

/// Whether two edges intersect does not depend on which is asked first.
pub proof fn lemma_edge_intersects_symmetric(a: Edge, b: Edge)
    ensures
        edge_intersects(a, b) == edge_intersects(b, a),
{
}

/// Two rooms are neighbours of each other or not at all.
pub proof fn lemma_room_neighbour_symmetric(a: Room, b: Room)
    ensures
        (!room_eq(a, b) && cells_touch(a.cells@, b.cells@)) == (!room_eq(b, a) && cells_touch(b.cells@, a.cells@)),
{
    if cells_touch(a.cells@, b.cells@) {
        let (i, j) = choose|i: int, j: int|
            0 <= i < a.cells@.len() && 0 <= j < b.cells@.len() && (#[trigger] cell_neighbour_dir(a.cells@[i], b.cells@[j])) is Some;
        lemma_cell_neighbour_reverse(a.cells@[i], b.cells@[j]);
        assert(cell_neighbour_dir(b.cells@[j], a.cells@[i]) is Some);
    }
    if cells_touch(b.cells@, a.cells@) {
        let (i, j) = choose|i: int, j: int|
            0 <= i < b.cells@.len() && 0 <= j < a.cells@.len() && (#[trigger] cell_neighbour_dir(b.cells@[i], a.cells@[j])) is Some;
        lemma_cell_neighbour_reverse(b.cells@[i], a.cells@[j]);
        assert(cell_neighbour_dir(a.cells@[j], b.cells@[i]) is Some);
    }
}

/// Two solid rectangles that touch see each other in opposite directions.
pub proof fn lemma_rect_neighbour_reverse(a: Rect, b: Rect)
    requires
        a.well_placed(),
        b.well_placed(),
        a.width > 0 && a.height > 0,
        b.width > 0 && b.height > 0,
    ensures
        a.spec_neighbour_dir(b) matches Some(d) ==> b.spec_neighbour_dir(a) == Some(d.spec_reverse()),
        a.spec_neighbour_dir(b) is None ==> b.spec_neighbour_dir(a) is None,
{
}

} // verus!
