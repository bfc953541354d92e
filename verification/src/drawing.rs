//! Drawing maps: the shapes that picture a map's rooms, doors and region
//! connections, in canvas coordinates. A cell of the grid is
//! `RECT_SIZE_MULTIPLIER` units wide on the canvas.
use vstd::prelude::*;

use crate::polygon_builder::{all_vertices, cells_in_range, contains_edge, has_edge, outline_degree, outline_edges, PolygonBuilder};
use crate::builder_config::{style_config, MapBuilderConfig};
use crate::bsp::{apart, inside, trimmed_from, MIN_RECT_HEIGHT, MIN_RECT_WIDTH};
use crate::map_builder::{built_from, doors_join_rooms, full_rect, map_rooms_apart, map_rooms_within, trimmed_parts, MapBuilder};
use crate::rng::random_usize;
use crate::types::{cell_neighbour_dir, Cell, Direction, Edge, GeneratedMap, MapStyle, Rect, Room, RoomModifier};

verus! {

/// Canvas units per grid cell.
pub const RECT_SIZE_MULTIPLIER: u32 = 48;

/// Margin around a Castlevania map, split between both sides.
pub const MAP_SIZE_MARGIN: u32 = 96;

/// Width of a wall stroke.
pub const STROKE_WIDTH: u32 = 12;

/// How far a door line stays from the corners of the side it sits on.
pub const DOOR_INSET: u32 = 16;

/// The colours of the drawings.
#[derive(Debug, Clone, Copy, PartialEq, Eq, Structural)]
pub enum Colour {
    LightBlue,
    CyanBlue,
    DarkBlue,
    DeepBlue,
    LimeGreen,
    LightWhite,
    LightGray,
    Red,
    Yellow,
}

impl Colour {
    pub open spec fn spec_hex(self) -> Seq<char> {
        match self {
            Colour::LightBlue => "#0080ff"@,
            Colour::CyanBlue => "#00c8c8"@,
            Colour::DarkBlue => "#004bff"@,
            Colour::DeepBlue => "#0000e0"@,
            Colour::LimeGreen => "#00e000"@,
            Colour::LightWhite => "#f8f8f8"@,
            Colour::LightGray => "#c0c0c0"@,
            Colour::Red => "#f80000"@,
            Colour::Yellow => "#f8f800"@,
        }
    }

    /// The colour as a hexadecimal RGB string.
    pub fn hex(&self) -> (s: &'static str)
        ensures
            s@ == self.spec_hex(),
    {
        match self {
            Colour::LightBlue => "#0080ff",
            Colour::CyanBlue => "#00c8c8",
            Colour::DarkBlue => "#004bff",
            Colour::DeepBlue => "#0000e0",
            Colour::LimeGreen => "#00e000",
            Colour::LightWhite => "#f8f8f8",
            Colour::LightGray => "#c0c0c0",
            Colour::Red => "#f80000",
            Colour::Yellow => "#f8f800",
        }
    }
}

/// A shape of a drawing, in canvas coordinates.
#[derive(Debug, Clone, PartialEq, Eq)]
pub enum Shape {
    /// A line through `points`, in order; closed back to its start when
    /// `closed`; filled with `fill` and stroked with `stroke` where given.
    Path { points: Vec<Cell>, closed: bool, fill: Option<Colour>, stroke: Option<Colour>, stroke_width: u32 },
    /// A filled polygon.
    Polygon { points: Vec<Cell>, fill: Colour },
    /// A filled axis-aligned rectangle.
    Rectangle { corner: Cell, width: u32, height: u32, fill: Colour },
}

/// A whole drawing: the canvas size and the shapes, painted in order.
#[derive(Debug, Clone, PartialEq, Eq)]
pub struct Scene {
    pub width: u32,
    pub height: u32,
    pub shapes: Vec<Shape>,
}

/// A grid point moved onto the canvas: scaled by `RECT_SIZE_MULTIPLIER`,
/// then shifted; `None` where a coordinate would not fit in `u32`.
pub open spec fn canvas_point(c: Cell, col_offset: u32, row_offset: u32) -> Option<Cell> {
    let x = c.col * RECT_SIZE_MULTIPLIER + col_offset;
    let y = c.row * RECT_SIZE_MULTIPLIER + row_offset;
    if x <= u32::MAX && y <= u32::MAX {
        Some(Cell { col: x as u32, row: y as u32 })
    } else {
        None
    }
}

/// Places a grid point on the canvas (see `canvas_point`).
pub fn to_canvas(c: Cell, col_offset: u32, row_offset: u32) -> (r: Option<Cell>)
    ensures
        r == canvas_point(c, col_offset, row_offset),
{
    let x: u64 = c.col as u64 * 48 + col_offset as u64;
    let y: u64 = c.row as u64 * 48 + row_offset as u64;
    if x <= u32::MAX as u64 && y <= u32::MAX as u64 {
        Some(Cell::new(x as u32, y as u32))
    } else {
        None
    }
}

/// The line of a door between two canvas cells `from` and `to` (their
/// top-left corners): on the side they share, `inset` units in from each
/// end. Side by side cells give a vertical line, cells one above the other a
/// horizontal one; other pairs give none.
pub open spec fn door_line(from: Cell, to: Cell, inset: u32) -> Option<(Cell, Cell)> {
    if from.col != to.col {
        if from.row == to.row {
            let x = if from.col > to.col { from.col } else { to.col };
            Some((Cell { col: x, row: (from.row + inset) as u32 }, Cell { col: x, row: (from.row + RECT_SIZE_MULTIPLIER - inset) as u32 }))
        } else {
            None
        }
    } else if from.row != to.row {
        let y = if from.row > to.row { from.row } else { to.row };
        Some((Cell { col: (from.col + inset) as u32, row: y }, Cell { col: (from.col + RECT_SIZE_MULTIPLIER - inset) as u32, row: y }))
    } else {
        None
    }
}

/// The line of a door between two canvas cells (see `door_line`).
pub fn door_segment(from: Cell, to: Cell, inset: u32) -> (r: Option<(Cell, Cell)>)
    requires
        inset <= RECT_SIZE_MULTIPLIER,
        from.col + RECT_SIZE_MULTIPLIER <= u32::MAX,
        from.row + RECT_SIZE_MULTIPLIER <= u32::MAX,
    ensures
        r == door_line(from, to, inset),
{
    if from.col != to.col {
        if from.row == to.row {
            let x = if from.col > to.col { from.col } else { to.col };
            Some((Cell::new(x, from.row + inset), Cell::new(x, from.row + RECT_SIZE_MULTIPLIER - inset)))
        } else {
            None
        }
    } else if from.row != to.row {
        let y = if from.row > to.row { from.row } else { to.row };
        Some((Cell::new(from.col + inset, y), Cell::new(from.col + RECT_SIZE_MULTIPLIER - inset, y)))
    } else {
        None
    }
}

/// `path` is a walk along the outline of `cells`: distinct outline vertices,
/// each one joined to the next by a side of the outline.
pub open spec fn outline_walk(cells: Seq<Cell>, path: Seq<Cell>) -> bool {
    &&& path.no_duplicates()
    &&& forall|k: int| 0 <= k < path.len() ==> #[trigger] outline_vertex(cells, path[k])
    &&& forall|k: int| 0 <= k < path.len() - 1 ==> #[trigger] outline_step(cells, path[k], path[k + 1])
}

/// A corner of the outline of `cells`: a cell corner that exactly two
/// outline sides meet.
pub open spec fn outline_vertex(cells: Seq<Cell>, v: Cell) -> bool {
    all_vertices(cells).contains(v) && outline_degree(outline_edges(cells), v) == 2
}

/// `a` and `b` are grid neighbours joined by a side of the outline of `cells`.
pub open spec fn outline_step(cells: Seq<Cell>, a: Cell, b: Cell) -> bool {
    cell_neighbour_dir(a, b) is Some && has_edge(outline_edges(cells), Edge { from: a, to: b })
}

proof fn lemma_count_true_none(s: Seq<bool>)
    requires
        forall|k: int| 0 <= k < s.len() ==> !s[k],
    ensures
        crate::reconnect_rooms::count_true(s) == 0,
    decreases s.len(),
{
    if s.len() > 0 {
        lemma_count_true_none(s.drop_last());
    }
}

/// Walks the outline of a room: from its first outline vertex, each step
/// goes to the first vertex not yet walked that is a grid neighbour joined
/// by an outline side; the walk stops where there is none. It walks no
/// vertex twice, and ends where no such step is left.
pub fn walk_outline(room: &Room) -> (path: Vec<Cell>)
    requires
        cells_in_range(room.cells@),
    ensures
        outline_walk(room.cells@, path@),
        (exists|v: Cell| outline_vertex(room.cells@, v)) ==> path@.len() > 0,
        path@.len() > 0 ==> forall|v: Cell|
            outline_vertex(room.cells@, v) && !path@.contains(v) ==> !outline_step(room.cells@, path@.last(), v),
{
    let (vertices, edges) = PolygonBuilder::build_for(room);
    let ghost cells = room.cells@;
    let n = vertices.len();
    let mut path: Vec<Cell> = Vec::new();
    if n == 0 {
        proof {
            assert forall|w: Cell| !outline_vertex(cells, w) by {
                if outline_vertex(cells, w) {
                    assert(vertices@.contains(w));
                }
            }
        }
        return path;
    }
    let mut visited: Vec<bool> = Vec::new();
    let mut i: usize = 0;
    while i < n
        invariant
            0 <= i <= n,
            n == vertices@.len(),
            visited@.len() == i,
            forall|k: int| 0 <= k < i ==> !(#[trigger] visited@[k]),
        decreases n - i,
    {
        visited.push(false);
        i = i + 1;
    }
    let mut current: usize = 0;
    let ghost mut walked: nat = 0;
    proof {
        lemma_count_true_none(visited@);
    }
    loop
        invariant_except_break
            !visited@[current as int],
            path@.len() > 0 ==> outline_step(cells, path@.last(), vertices@[current as int]),
        invariant
            n == vertices@.len(),
            n == visited@.len(),
            edges@ == outline_edges(cells),
            vertices@.no_duplicates(),
            forall|v: Cell| #[trigger] vertices@.contains(v) <==> outline_vertex(cells, v),
            current < n,
            path@.len() == walked,
            walked <= n,
            outline_walk(cells, path@),
            forall|k: int| 0 <= k < n ==> (#[trigger] visited@[k] <==> path@.contains(vertices@[k])),
            walked == crate::reconnect_rooms::count_true(visited@),
        ensures
            outline_walk(cells, path@),
            path@.len() > 0,
            forall|k: int| 0 <= k < n ==> (#[trigger] visited@[k] <==> path@.contains(vertices@[k])),
            forall|k: int| 0 <= k < n && !visited@[k] ==> !outline_step(cells, path@.last(), #[trigger] vertices@[k]),
        decreases n - walked,
    {
        let v = vertices[current];
        let ghost before = path@;
        proof {
            crate::reconnect_rooms::lemma_count_true_set(visited@, current as int);
            assert(!before.contains(v));
        }
        visited.set(current, true);
        path.push(v);
        proof {
            walked = walked + 1;
            crate::seq_facts::lemma_push_no_duplicates(before, v);
            assert(path@.last() == v);
            assert forall|k: int| 0 <= k < path@.len() implies #[trigger] outline_vertex(cells, path@[k]) by {
                if k < before.len() {
                    assert(path@[k] == before[k]);
                } else {
                    assert(vertices@.contains(v));
                }
            }
            assert forall|k: int| 0 <= k < path@.len() - 1 implies #[trigger] outline_step(cells, path@[k], path@[k + 1]) by {
                assert(path@[k] == before[k]);
                if k < before.len() - 1 {
                    assert(path@[k + 1] == before[k + 1]);
                } else {
                    assert(path@[k + 1] == v);
                }
            }
            assert forall|k: int| 0 <= k < n implies (#[trigger] visited@[k] <==> path@.contains(vertices@[k])) by {
                crate::seq_facts::lemma_push_contains(before, v, vertices@[k]);
                if k != current && vertices@[k] == v {
                    assert(vertices@[k] == vertices@[current as int]);
                }
            }
            crate::reconnect_rooms::lemma_count_true_bound(visited@);
        }
        let mut next: usize = 0;
        let mut found = false;
        let mut j: usize = 0;
        while j < n
            invariant
                n == vertices@.len(),
                n == visited@.len(),
                edges@ == outline_edges(cells),
                0 <= j <= n,
                v == path@.last(),
                found ==> next < n && !visited@[next as int] && outline_step(cells, v, vertices@[next as int]),
                !found ==> forall|k: int| 0 <= k < j && !visited@[k] ==> !outline_step(cells, v, #[trigger] vertices@[k]),
            decreases n - j,
        {
            if !found && !visited[j] {
                let w = vertices[j];
                if v.is_neighbour_of(&w).is_some() && contains_edge(&edges, &Edge::new(v, w)) {
                    next = j;
                    found = true;
                }
            }
            j = j + 1;
        }
        if !found {
            break;
        }
        current = next;
    }
    proof {
        assert forall|w: Cell| outline_vertex(cells, w) && !path@.contains(w) implies !outline_step(cells, path@.last(), w) by {
            assert(vertices@.contains(w));
            let k = choose|k: int| 0 <= k < n && vertices@[k] == w;
            assert(!visited@[k]);
        }
    }
    path
}


/// The canvas point of a grid point known to fit.
pub open spec fn placed(c: Cell, col_offset: u32, row_offset: u32) -> Cell {
    canvas_point(c, col_offset, row_offset)->0
}

/// The points of a room's outline on the canvas: the walk's last vertex,
/// then the others in order, then the last again.
pub open spec fn outline_route(walk: Seq<Cell>, col_offset: u32, row_offset: u32) -> Seq<Cell> {
    let first = placed(walk.last(), col_offset, row_offset);
    seq![first] + walk.drop_last().map_values(|c: Cell| placed(c, col_offset, row_offset)) + seq![first]
}

/// Every point of `walk` fits on the canvas.
pub open spec fn route_fits(walk: Seq<Cell>, col_offset: u32, row_offset: u32) -> bool {
    forall|k: int| 0 <= k < walk.len() ==> (#[trigger] canvas_point(walk[k], col_offset, row_offset)) is Some
}

/// The canvas points of an outline walk (see `outline_route`); `None` for an
/// empty walk or one with a point that does not fit.
pub fn route_points(walk: &Vec<Cell>, col_offset: u32, row_offset: u32) -> (r: Option<Vec<Cell>>)
    ensures
        r is Some <==> (walk@.len() > 0 && route_fits(walk@, col_offset, row_offset)),
        r matches Some(points) ==> points@ == outline_route(walk@, col_offset, row_offset),
{
    let n = walk.len();
    if n == 0 {
        return None;
    }
    let first = match to_canvas(walk[n - 1], col_offset, row_offset) {
        Some(p) => p,
        None => {
            return None;
        },
    };
    let mut points: Vec<Cell> = Vec::new();
    points.push(first);
    let mut i: usize = 0;
    while i < n - 1
        invariant
            0 <= i <= n - 1,
            n == walk@.len(),
            first == placed(walk@.last(), col_offset, row_offset),
            canvas_point(walk@.last(), col_offset, row_offset) is Some,
            points@ == seq![first] + walk@.take(i as int).map_values(|c: Cell| placed(c, col_offset, row_offset)),
            forall|k: int| 0 <= k < i ==> (#[trigger] canvas_point(walk@[k], col_offset, row_offset)) is Some,
        decreases n - 1 - i,
    {
        match to_canvas(walk[i], col_offset, row_offset) {
            Some(p) => {
                points.push(p);
                proof {
                    assert(walk@.take(i + 1) =~= walk@.take(i as int).push(walk@[i as int]));
                    assert(points@ =~= seq![first] + walk@.take(i + 1).map_values(|c: Cell| placed(c, col_offset, row_offset)));
                }
            },
            None => {
                return None;
            },
        }
        i = i + 1;
    }
    points.push(first);
    proof {
        assert(walk@.take((n - 1) as int) =~= walk@.drop_last());
        assert(points@ =~= outline_route(walk@, col_offset, row_offset));
        assert forall|k: int| 0 <= k < walk@.len() implies (#[trigger] canvas_point(walk@[k], col_offset, row_offset)) is Some by {
            if k == n - 1 {
                assert(walk@[k] == walk@.last());
            }
        }
    }
    Some(points)
}

/// `shape` is an outline of `room` on the canvas: a walk along the room's
/// outline (see `outline_walk`), moved onto the canvas, closed, filled with
/// `fill` and stroked with `stroke`.
pub open spec fn room_outline(shape: Shape, room: Room, col_offset: u32, row_offset: u32, fill: Colour, stroke: Colour) -> bool {
    exists|walk: Seq<Cell>| {
        &&& outline_walk(room.cells@, walk)
        &&& walk.len() > 0
        &&& route_fits(walk, col_offset, row_offset)
        &&& shape matches Shape::Path { points, closed, fill: f, stroke: st, stroke_width }
            && points@ == outline_route(walk, col_offset, row_offset) && closed && f == Some(fill)
            && st == Some(stroke) && stroke_width == STROKE_WIDTH
    }
}

/// A room whose outline can be drawn at the given offsets: its cells are in
/// range, it has an outline, and every corner of it fits on the canvas.
pub open spec fn outline_drawable(room: Room, col_offset: u32, row_offset: u32) -> bool {
    &&& cells_in_range(room.cells@)
    &&& exists|v: Cell| outline_vertex(room.cells@, v)
    &&& forall|v: Cell| outline_vertex(room.cells@, v) ==> #[trigger] canvas_point(v, col_offset, row_offset) is Some
}

/// The shape of a room: its outline walked (see `walk_outline`), moved onto
/// the canvas, closed, filled with `fill` and stroked with `stroke`. `None`
/// when the room has no outline or a point does not fit.
pub fn draw_room(room: &Room, col_offset: u32, row_offset: u32, fill: Colour, stroke: Colour) -> (s: Option<Shape>)
    requires
        cells_in_range(room.cells@),
    ensures
        s matches Some(shape) ==> room_outline(shape, *room, col_offset, row_offset, fill, stroke),
        outline_drawable(*room, col_offset, row_offset) ==> s is Some,
{
    let walk = walk_outline(room);
    proof {
        assert forall|k: int| 0 <= k < walk@.len() implies outline_vertex(room.cells@, #[trigger] walk@[k]) by {}
    }
    match route_points(&walk, col_offset, row_offset) {
        Some(points) => Some(Shape::Path { points, closed: true, fill: Some(fill), stroke: Some(stroke), stroke_width: STROKE_WIDTH }),
        None => None,
    }
}

/// The line shape of a door between grid cells `from` and `to`: both are
/// moved onto the canvas and joined by `door_line` with `inset`; `None` when
/// a point does not fit or the cells do not share a side.
pub open spec fn door_path(from: Cell, to: Cell, col_offset: u32, row_offset: u32, inset: u32) -> Option<(Cell, Cell)> {
    match (canvas_point(from, col_offset, row_offset), canvas_point(to, col_offset, row_offset)) {
        (Some(f), Some(t)) => if f.col + RECT_SIZE_MULTIPLIER <= u32::MAX && f.row + RECT_SIZE_MULTIPLIER <= u32::MAX {
            door_line(f, t, inset)
        } else {
            None
        },
        _ => None,
    }
}

/// `shape` is the line of a door between grid cells `from` and `to` (see
/// `door_path`), stroked with `colour` at `width`.
pub open spec fn door_shape(shape: Shape, from: Cell, to: Cell, col_offset: u32, row_offset: u32, inset: u32, colour: Colour, width: u32) -> bool {
    door_path(from, to, col_offset, row_offset, inset) matches Some((a, b))
        && shape matches Shape::Path { points, closed, fill, stroke, stroke_width }
        && points@ == seq![a, b] && closed && fill is None && stroke == Some(colour) && stroke_width == width
}

/// A door drawn as a line (see `door_path`), stroked with `colour` at `width`.
pub fn draw_door(from: Cell, to: Cell, col_offset: u32, row_offset: u32, inset: u32, colour: Colour, width: u32) -> (s: Option<Shape>)
    requires
        inset <= RECT_SIZE_MULTIPLIER,
    ensures
        s is Some <==> door_path(from, to, col_offset, row_offset, inset) is Some,
        s matches Some(shape) ==> door_shape(shape, from, to, col_offset, row_offset, inset, colour, width),
{
    let f = match to_canvas(from, col_offset, row_offset) {
        Some(p) => p,
        None => {
            return None;
        },
    };
    let t = match to_canvas(to, col_offset, row_offset) {
        Some(p) => p,
        None => {
            return None;
        },
    };
    if f.col > u32::MAX - RECT_SIZE_MULTIPLIER || f.row > u32::MAX - RECT_SIZE_MULTIPLIER {
        return None;
    }
    match door_segment(f, t, inset) {
        Some((a, b)) => {
            let points = vec![a, b];
            Some(Shape::Path { points, closed: true, fill: None, stroke: Some(colour), stroke_width: width })
        },
        None => None,
    }
}

/// The canvas point at `(x, y)`.
pub open spec fn pt(x: int, y: int) -> Cell {
    Cell { col: x as u32, row: y as u32 }
}

/// The outline of the passage of a region connection leaving towards `d`,
/// drawn in the canvas cell whose top-left corner is `(x, y)`: a corridor
/// half a cell long from the side of the room, widening into a block.
pub open spec fn passage_points(d: Direction, x: int, y: int) -> Seq<Cell> {
    match d {
        Direction::North => seq![pt(x + 12, y), pt(x + 12, y + 24), pt(x, y + 24), pt(x, y + 48), pt(x + 48, y + 48), pt(x + 48, y + 24), pt(x + 36, y + 24), pt(x + 36, y)],
        Direction::South => seq![pt(x + 12, y + 48), pt(x + 12, y + 24), pt(x, y + 24), pt(x, y), pt(x + 48, y), pt(x + 48, y + 24), pt(x + 36, y + 24), pt(x + 36, y + 48)],
        Direction::East => seq![pt(x + 48, y + 12), pt(x + 24, y + 12), pt(x + 24, y), pt(x, y), pt(x, y + 48), pt(x + 24, y + 48), pt(x + 24, y + 36), pt(x + 48, y + 36)],
        Direction::West => seq![pt(x, y + 12), pt(x + 24, y + 12), pt(x + 24, y), pt(x + 48, y), pt(x + 48, y + 48), pt(x + 24, y + 48), pt(x + 24, y + 36), pt(x, y + 36)],
    }
}

/// The arrow beyond a passage leaving towards `d` (see `passage_points`),
/// pointing on.
pub open spec fn arrow_points(d: Direction, x: int, y: int) -> Seq<Cell> {
    match d {
        Direction::North => seq![pt(x + 8, y - 8), pt(x + 40, y - 8), pt(x + 24, y - 24)],
        Direction::South => seq![pt(x + 8, y + 56), pt(x + 40, y + 56), pt(x + 24, y + 72)],
        Direction::East => seq![pt(x + 56, y + 8), pt(x + 56, y + 40), pt(x + 72, y + 24)],
        Direction::West => seq![pt(x - 8, y + 8), pt(x - 8, y + 40), pt(x - 24, y + 24)],
    }
}

/// Where cell `c` lies across direction `d`: its column for North and
/// South, its row for East and West.
pub open spec fn across(c: Cell, d: Direction) -> int {
    match d {
        Direction::North | Direction::South => c.col as int,
        Direction::East | Direction::West => c.row as int,
    }
}

/// The arrow of a region connection leaving towards `d` points towards `d`:
/// its first two points form a base square to `d` (equally far towards
/// `d`, one on each side of the apex), and its third point, the apex, lies
/// further towards `d` than the base.
pub proof fn law_arrow_points_away(d: Direction, x: int, y: int)
    requires
        24 <= x,
        24 <= y,
        x + 72 <= u32::MAX,
        y + 72 <= u32::MAX,
    ensures
        arrow_points(d, x, y).len() == 3,
        reach(arrow_points(d, x, y)[0], d) == reach(arrow_points(d, x, y)[1], d),
        reach(arrow_points(d, x, y)[2], d) > reach(arrow_points(d, x, y)[0], d),
        reach(arrow_points(d, x, y)[2], d) > reach(arrow_points(d, x, y)[1], d),
        across(arrow_points(d, x, y)[0], d) < across(arrow_points(d, x, y)[2], d) < across(arrow_points(d, x, y)[1], d),
{
}

/// The passage and arrow of a region connection (see `passage_points` and
/// `arrow_points`).
fn passage_and_arrow(d: Direction, x: u32, y: u32) -> (r: (Vec<Cell>, Vec<Cell>))
    requires
        24 <= x,
        24 <= y,
        x + 72 <= u32::MAX,
        y + 72 <= u32::MAX,
    ensures
        r.0@ == passage_points(d, x as int, y as int),
        r.1@ == arrow_points(d, x as int, y as int),
{
    match d {
        Direction::North => (
            vec![Cell::new(x + 12, y), Cell::new(x + 12, y + 24), Cell::new(x, y + 24), Cell::new(x, y + 48), Cell::new(x + 48, y + 48), Cell::new(x + 48, y + 24), Cell::new(x + 36, y + 24), Cell::new(x + 36, y)],
            vec![Cell::new(x + 8, y - 8), Cell::new(x + 40, y - 8), Cell::new(x + 24, y - 24)],
        ),
        Direction::South => (
            vec![Cell::new(x + 12, y + 48), Cell::new(x + 12, y + 24), Cell::new(x, y + 24), Cell::new(x, y), Cell::new(x + 48, y), Cell::new(x + 48, y + 24), Cell::new(x + 36, y + 24), Cell::new(x + 36, y + 48)],
            vec![Cell::new(x + 8, y + 56), Cell::new(x + 40, y + 56), Cell::new(x + 24, y + 72)],
        ),
        Direction::East => (
            vec![Cell::new(x + 48, y + 12), Cell::new(x + 24, y + 12), Cell::new(x + 24, y), Cell::new(x, y), Cell::new(x, y + 48), Cell::new(x + 24, y + 48), Cell::new(x + 24, y + 36), Cell::new(x + 48, y + 36)],
            vec![Cell::new(x + 56, y + 8), Cell::new(x + 56, y + 40), Cell::new(x + 72, y + 24)],
        ),
        Direction::West => (
            vec![Cell::new(x, y + 12), Cell::new(x + 24, y + 12), Cell::new(x + 24, y), Cell::new(x + 48, y), Cell::new(x + 48, y + 48), Cell::new(x + 24, y + 48), Cell::new(x + 24, y + 36), Cell::new(x, y + 36)],
            vec![Cell::new(x - 8, y + 8), Cell::new(x - 8, y + 40), Cell::new(x - 24, y + 24)],
        ),
    }
}

/// How far a cell lies towards `d`: larger is further.
pub open spec fn reach(c: Cell, d: Direction) -> int {
    match d {
        Direction::North => -(c.row as int),
        Direction::South => c.row as int,
        Direction::East => c.col as int,
        Direction::West => -(c.col as int),
    }
}

/// `c` is a cell of `cells` on their side facing `d`: none lies further.
pub open spec fn on_side(cells: Seq<Cell>, c: Cell, d: Direction) -> bool {
    cells.contains(c) && forall|k: int| 0 <= k < cells.len() ==> reach(#[trigger] cells[k], d) <= reach(c, d)
}

/// Whether `a` lies further towards `d` than `b`.
fn further(a: Cell, b: Cell, d: Direction) -> (r: bool)
    ensures
        r == (reach(a, d) > reach(b, d)),
{
    match d {
        Direction::North => a.row < b.row,
        Direction::South => a.row > b.row,
        Direction::East => a.col > b.col,
        Direction::West => a.col < b.col,
    }
}

/// A cell of `cells` on their side facing `d`, picked at random among those.
fn side_cell(cells: &Vec<Cell>, d: Direction) -> (c: Cell)
    requires
        cells@.len() > 0,
    ensures
        on_side(cells@, c, d),
{
    let n = cells.len();
    let mut best = cells[0];
    let ghost mut bi: int = 0;
    let mut i: usize = 1;
    while i < n
        invariant
            1 <= i <= n,
            n == cells@.len(),
            0 <= bi < n,
            cells@[bi] == best,
            forall|k: int| 0 <= k < i ==> reach(#[trigger] cells@[k], d) <= reach(best, d),
        decreases n - i,
    {
        if further(cells[i], best, d) {
            best = cells[i];
            proof {
                bi = i as int;
            }
        }
        i = i + 1;
    }
    let mut candidates: Vec<Cell> = Vec::new();
    let mut j: usize = 0;
    while j < n
        invariant
            0 <= j <= n,
            n == cells@.len(),
            0 <= bi < n,
            cells@[bi] == best,
            forall|k: int| 0 <= k < n ==> reach(#[trigger] cells@[k], d) <= reach(best, d),
            forall|k: int| 0 <= k < candidates@.len() ==> #[trigger] on_side(cells@, candidates@[k], d),
            bi < j ==> candidates@.contains(best),
        decreases n - j,
    {
        if !further(best, cells[j], d) {
            let ghost before = candidates@;
            candidates.push(cells[j]);
            proof {
                assert(on_side(cells@, cells@[j as int], d));
                crate::seq_facts::lemma_push_contains(before, cells@[j as int], best);
            }
        }
        j = j + 1;
    }
    proof {
        assert(candidates@.contains(best));
    }
    let pick = random_usize(0, candidates.len());
    candidates[pick]
}

/// The cell just beyond `c` towards `d`, where there is one.
pub open spec fn step_out(c: Cell, d: Direction) -> Option<Cell> {
    match d {
        Direction::North => if c.row > 0 { Some(Cell { col: c.col, row: (c.row - 1) as u32 }) } else { None },
        Direction::South => if c.row < u32::MAX { Some(Cell { col: c.col, row: (c.row + 1) as u32 }) } else { None },
        Direction::East => if c.col < u32::MAX { Some(Cell { col: (c.col + 1) as u32, row: c.row }) } else { None },
        Direction::West => if c.col > 0 { Some(Cell { col: (c.col - 1) as u32, row: c.row }) } else { None },
    }
}

fn cell_beyond(c: Cell, d: Direction) -> (r: Option<Cell>)
    ensures
        r == step_out(c, d),
{
    match d {
        Direction::North => if c.row > 0 { Some(Cell::new(c.col, c.row - 1)) } else { None },
        Direction::South => if c.row < u32::MAX { Some(Cell::new(c.col, c.row + 1)) } else { None },
        Direction::East => if c.col < u32::MAX { Some(Cell::new(c.col + 1, c.row)) } else { None },
        Direction::West => if c.col > 0 { Some(Cell::new(c.col - 1, c.row)) } else { None },
    }
}

/// Whether the passage of a connection leaving the room cell `c` towards `d`
/// can be drawn: the cell beyond exists, and its canvas corner leaves room
/// for the arrow on every side.
pub open spec fn passage_fits(c: Cell, d: Direction, col_offset: u32, row_offset: u32) -> bool {
    &&& step_out(c, d) is Some
    &&& canvas_point(step_out(c, d)->0, col_offset, row_offset) is Some
    &&& 24 <= placed(step_out(c, d)->0, col_offset, row_offset).col
    &&& 24 <= placed(step_out(c, d)->0, col_offset, row_offset).row
    &&& placed(step_out(c, d)->0, col_offset, row_offset).col + 72 <= u32::MAX
    &&& placed(step_out(c, d)->0, col_offset, row_offset).row + 72 <= u32::MAX
}

/// The three shapes of a region connection drawn from the room cell `c`
/// towards `d`: the passage, the door from `c` into it, and the arrow.
pub open spec fn connector_shapes_from(
    c: Cell,
    d: Direction,
    col_offset: u32,
    row_offset: u32,
    room_colour: Colour,
    wall_colour: Colour,
    door_colour: Colour,
    shapes: (Shape, Shape, Shape),
) -> bool {
    let o = step_out(c, d)->0;
    let p = placed(o, col_offset, row_offset);
    &&& shapes.0 matches Shape::Path { points, closed, fill, stroke, stroke_width }
        && points@ == passage_points(d, p.col as int, p.row as int) && !closed && fill == Some(room_colour)
        && stroke == Some(wall_colour) && stroke_width == STROKE_WIDTH
    &&& door_path(c, o, col_offset, row_offset, DOOR_INSET) matches Some((a, b))
        && shapes.1 matches Shape::Path { points, closed, fill, stroke, stroke_width }
        && points@ == seq![a, b] && closed && fill is None && stroke == Some(door_colour) && stroke_width == STROKE_WIDTH + 8
    &&& shapes.2 matches Shape::Polygon { points, fill } && points@ == arrow_points(d, p.col as int, p.row as int)
        && fill == wall_colour
}

/// Draws the region connection of a room leaving towards `d`: a cell of the
/// room on the side facing `d` is picked at random, and from it a passage
/// with its door and arrow is drawn (see `connector_shapes_from`). `None`
/// for a room without cells, or when the picked cell's passage does not
/// fit (`passage_fits`) or its door cannot be drawn.
pub fn draw_region_connector(
    room: &Room,
    d: Direction,
    col_offset: u32,
    row_offset: u32,
    room_colour: Colour,
    wall_colour: Colour,
    door_colour: Colour,
) -> (r: Option<(Shape, Shape, Shape)>)
    ensures
        r matches Some(shapes) ==> exists|c: Cell| #[trigger] on_side(room.cells@, c, d) && passage_fits(c, d, col_offset, row_offset)
            && connector_shapes_from(c, d, col_offset, row_offset, room_colour, wall_colour, door_colour, shapes),
        r is None ==> room.cells@.len() == 0 || exists|c: Cell| #[trigger] on_side(room.cells@, c, d) && !(passage_fits(c, d, col_offset, row_offset)
            && door_path(c, step_out(c, d)->0, col_offset, row_offset, DOOR_INSET) is Some),
{
    if room.cells.len() == 0 {
        return None;
    }
    let c = side_cell(&room.cells, d);
    let o = match cell_beyond(c, d) {
        Some(o) => o,
        None => {
            proof {
                assert(on_side(room.cells@, c, d) && !(passage_fits(c, d, col_offset, row_offset)
                    && door_path(c, step_out(c, d)->0, col_offset, row_offset, DOOR_INSET) is Some));
            }
            return None;
        },
    };
    let p = match to_canvas(o, col_offset, row_offset) {
        Some(p) => p,
        None => {
            proof {
                assert(on_side(room.cells@, c, d) && !(passage_fits(c, d, col_offset, row_offset)
                    && door_path(c, step_out(c, d)->0, col_offset, row_offset, DOOR_INSET) is Some));
            }
            return None;
        },
    };
    if p.col < 24 || p.row < 24 || p.col > u32::MAX - 72 || p.row > u32::MAX - 72 {
        proof {
            assert(on_side(room.cells@, c, d) && !(passage_fits(c, d, col_offset, row_offset)
                && door_path(c, step_out(c, d)->0, col_offset, row_offset, DOOR_INSET) is Some));
        }
        return None;
    }
    let (passage, arrow) = passage_and_arrow(d, p.col, p.row);
    let door = match draw_door(c, o, col_offset, row_offset, DOOR_INSET, door_colour, STROKE_WIDTH + 8) {
        Some(s) => s,
        None => {
            proof {
                assert(door_path(c, step_out(c, d)->0, col_offset, row_offset, DOOR_INSET) is None);
                assert(on_side(room.cells@, c, d) && !(passage_fits(c, d, col_offset, row_offset)
                    && door_path(c, step_out(c, d)->0, col_offset, row_offset, DOOR_INSET) is Some));
            }
            return None;
        },
    };
    let shapes = (
        Shape::Path { points: passage, closed: false, fill: Some(room_colour), stroke: Some(wall_colour), stroke_width: STROKE_WIDTH },
        door,
        Shape::Polygon { points: arrow, fill: wall_colour },
    );
    proof {
        assert(passage_fits(c, d, col_offset, row_offset));
        assert(connector_shapes_from(c, d, col_offset, row_offset, room_colour, wall_colour, door_colour, shapes));
        assert(on_side(room.cells@, c, d) && passage_fits(c, d, col_offset, row_offset)
            && connector_shapes_from(c, d, col_offset, row_offset, room_colour, wall_colour, door_colour, shapes));
    }
    Some(shapes)
}

/// Room between two regions of a Metroid map, in canvas units.
pub const REGION_SEPARATION: u32 = 384;

/// The size of the canvas, in grid cells.
#[derive(Debug, Clone, Copy, PartialEq, Eq, Structural)]
pub struct DrawConfig {
    pub canvas_width: u32,
    pub canvas_height: u32,
}

/// The Castlevania drawing styles.
#[derive(Debug, Clone, Copy, PartialEq, Eq, Structural)]
pub enum CastlevaniaMapDrawer {
    CastlevaniaSOTN,
    CastlevaniaAOS,
    CastlevaniaCOTM,
    CastlevaniaHOD,
}

/// The Metroid drawing styles.
#[derive(Debug, Clone, Copy, PartialEq, Eq, Structural)]
pub enum MetroidMapDrawer {
    ZeroMission,
    Fusion,
    Super,
}

/// How a map is drawn.
#[derive(Debug, Clone, Copy, PartialEq, Eq, Structural)]
pub enum MapDrawer {
    Castlevania(CastlevaniaMapDrawer),
    Metroid(MetroidMapDrawer),
}

/// Picks the drawer of a style.
pub struct MapDrawerFactory;

/// The drawer of each style.
pub open spec fn drawer_of(style: MapStyle) -> MapDrawer {
    match style {
        MapStyle::CastlevaniaSOTN => MapDrawer::Castlevania(CastlevaniaMapDrawer::CastlevaniaSOTN),
        MapStyle::CastlevaniaAOS => MapDrawer::Castlevania(CastlevaniaMapDrawer::CastlevaniaAOS),
        MapStyle::CastlevaniaCOTM => MapDrawer::Castlevania(CastlevaniaMapDrawer::CastlevaniaCOTM),
        MapStyle::CastlevaniaHOD => MapDrawer::Castlevania(CastlevaniaMapDrawer::CastlevaniaHOD),
        MapStyle::MetroidZM => MapDrawer::Metroid(MetroidMapDrawer::ZeroMission),
        MapStyle::MetroidFS => MapDrawer::Metroid(MetroidMapDrawer::Fusion),
        MapStyle::MetroidSP => MapDrawer::Metroid(MetroidMapDrawer::Super),
    }
}

impl MapDrawerFactory {
    pub fn create_drawer(style: MapStyle) -> (d: MapDrawer)
        ensures
            d == drawer_of(style),
    {
        match style {
            MapStyle::CastlevaniaSOTN => MapDrawer::Castlevania(CastlevaniaMapDrawer::CastlevaniaSOTN),
            MapStyle::CastlevaniaAOS => MapDrawer::Castlevania(CastlevaniaMapDrawer::CastlevaniaAOS),
            MapStyle::CastlevaniaCOTM => MapDrawer::Castlevania(CastlevaniaMapDrawer::CastlevaniaCOTM),
            MapStyle::CastlevaniaHOD => MapDrawer::Castlevania(CastlevaniaMapDrawer::CastlevaniaHOD),
            MapStyle::MetroidZM => MapDrawer::Metroid(MetroidMapDrawer::ZeroMission),
            MapStyle::MetroidFS => MapDrawer::Metroid(MetroidMapDrawer::Fusion),
            MapStyle::MetroidSP => MapDrawer::Metroid(MetroidMapDrawer::Super),
        }
    }
}

/// Room, door and wall colours of a Castlevania style.
pub open spec fn castlevania_colours(style: CastlevaniaMapDrawer) -> (Colour, Colour, Colour) {
    match style {
        CastlevaniaMapDrawer::CastlevaniaSOTN => (Colour::LightBlue, Colour::LightBlue, Colour::LightGray),
        CastlevaniaMapDrawer::CastlevaniaAOS => (Colour::DeepBlue, Colour::CyanBlue, Colour::LightWhite),
        CastlevaniaMapDrawer::CastlevaniaCOTM => (Colour::DarkBlue, Colour::DarkBlue, Colour::LightWhite),
        CastlevaniaMapDrawer::CastlevaniaHOD => (Colour::LimeGreen, Colour::LimeGreen, Colour::LightWhite),
    }
}

/// The fill of a Metroid room: region connections are coloured by the
/// direction they lead (north red, south green, east yellow, west blue).
pub open spec fn metroid_room_colour(modifier: Option<RoomModifier>, base: Colour) -> Colour {
    match modifier {
        Some(RoomModifier::RegionConnection(Direction::North)) => Colour::Red,
        Some(RoomModifier::RegionConnection(Direction::South)) => Colour::LimeGreen,
        Some(RoomModifier::RegionConnection(Direction::East)) => Colour::Yellow,
        Some(RoomModifier::RegionConnection(Direction::West)) => Colour::DarkBlue,
        _ => base,
    }
}

/// Whether every cell of the room is in range for outlining.
fn room_in_range(room: &Room) -> (b: bool)
    ensures
        b == cells_in_range(room.cells@),
{
    let mut i: usize = 0;
    while i < room.cells.len()
        invariant
            0 <= i <= room.cells@.len(),
            forall|k: int| 0 <= k < i ==> (#[trigger] room.cells@[k]).col < u32::MAX - 1 && room.cells@[k].row < u32::MAX - 1,
        decreases room.cells@.len() - i,
    {
        if room.cells[i].col >= u32::MAX - 1 || room.cells[i].row >= u32::MAX - 1 {
            return false;
        }
        i = i + 1;
    }
    true
}

/// The kinds of shape a Castlevania drawing is made of: room outlines in the
/// room colour, door lines in the door colour, and square markers.
pub open spec fn castlevania_shape(shape: Shape, room_colour: Colour, door_colour: Colour, wall_colour: Colour) -> bool {
    match shape {
        Shape::Path { fill, stroke, closed, .. } => closed && ((fill == Some(room_colour) && stroke == Some(wall_colour))
            || (fill is None && stroke == Some(door_colour))),
        Shape::Rectangle { width, height, fill, .. } => width == RECT_SIZE_MULTIPLIER - STROKE_WIDTH
            && height == RECT_SIZE_MULTIPLIER - STROKE_WIDTH && (fill == Colour::Yellow || fill == Colour::Red),
        Shape::Polygon { .. } => false,
    }
}

/// The inset and stroke width of a Castlevania style's door lines: lines
/// along the whole side for Aria of Sorrow, inset ones otherwise.
pub open spec fn castlevania_door_style(style: CastlevaniaMapDrawer) -> (u32, u32) {
    match style {
        CastlevaniaMapDrawer::CastlevaniaAOS => (STROKE_WIDTH / 2, STROKE_WIDTH),
        _ => (DOOR_INSET, (STROKE_WIDTH + 8) as u32),
    }
}

/// The colour of a room's square marker: yellow for navigation, red for save.
pub open spec fn marker_colour(modifier: Option<RoomModifier>) -> Option<Colour> {
    match modifier {
        Some(RoomModifier::Navigation) => Some(Colour::Yellow),
        Some(RoomModifier::Save) => Some(Colour::Red),
        _ => None,
    }
}

/// The square marker of a room, on its first cell shifted by `offset`; none
/// for a room without a marker colour or cells, or when it does not fit.
pub open spec fn room_marker(room: Room, offset: u32) -> Option<Shape> {
    match marker_colour(room.modifier) {
        Some(colour) => if room.cells@.len() > 0 {
            match canvas_point(room.cells@[0], offset, offset) {
                Some(corner) => Some(Shape::Rectangle {
                    corner,
                    width: (RECT_SIZE_MULTIPLIER - STROKE_WIDTH) as u32,
                    height: (RECT_SIZE_MULTIPLIER - STROKE_WIDTH) as u32,
                    fill: colour,
                }),
                None => None,
            }
        } else {
            None
        },
        None => None,
    }
}

/// Where a Castlevania drawing puts the grid: half the margin in.
pub open spec fn castlevania_offset() -> u32 {
    MAP_SIZE_MARGIN / 2
}

/// Where a Castlevania drawing puts the markers: half a stroke further in.
pub open spec fn castlevania_marker_offset() -> u32 {
    (MAP_SIZE_MARGIN / 2 + STROKE_WIDTH / 2) as u32
}

/// A shape drawn for `map` in a Castlevania style: the outline of one of its
/// rooms, the line of one of its doors, or the marker of one of its rooms.
pub open spec fn castlevania_piece(style: CastlevaniaMapDrawer, map: GeneratedMap, shape: Shape) -> bool {
    let o = castlevania_offset();
    ||| exists|i: int| 0 <= i < map.rooms@.len()
        && room_outline(shape, #[trigger] map.rooms@[i], o, o, castlevania_colours(style).0, castlevania_colours(style).2)
    ||| exists|j: int| 0 <= j < map.doors@.len() && door_shape(shape, (#[trigger] map.doors@[j]).from, map.doors@[j].to, o, o,
        castlevania_door_style(style).0, castlevania_colours(style).1, castlevania_door_style(style).1)
    ||| exists|i: int| 0 <= i < map.rooms@.len() && room_marker(#[trigger] map.rooms@[i], castlevania_marker_offset()) == Some(shape)
}

/// `shape` is drawn for one of `maps` (see `castlevania_piece`).
pub open spec fn castlevania_piece_of(style: CastlevaniaMapDrawer, maps: Seq<GeneratedMap>, shape: Shape) -> bool {
    exists|m: int| 0 <= m < maps.len() && #[trigger] castlevania_piece(style, maps[m], shape)
}

/// Every shape of `shapes` is drawn for one of `maps`.
pub open spec fn castlevania_pieces(style: CastlevaniaMapDrawer, maps: Seq<GeneratedMap>, shapes: Seq<Shape>) -> bool {
    forall|k: int| 0 <= k < shapes.len() ==> #[trigger] castlevania_piece_of(style, maps, shapes[k])
}

/// The outline of each of the first `upto` rooms of `map` that can be drawn
/// is among `shapes`.
pub open spec fn castlevania_outlines_drawn(style: CastlevaniaMapDrawer, map: GeneratedMap, shapes: Seq<Shape>, upto: int) -> bool {
    let o = castlevania_offset();
    forall|i: int| 0 <= i < upto && #[trigger] outline_drawable(map.rooms@[i], o, o) ==> exists|k: int| 0 <= k < shapes.len()
        && room_outline(#[trigger] shapes[k], map.rooms@[i], o, o, castlevania_colours(style).0, castlevania_colours(style).2)
}

/// The line of each of the first `upto` doors of `map` that has one is
/// among `shapes`.
pub open spec fn castlevania_doors_drawn(style: CastlevaniaMapDrawer, map: GeneratedMap, shapes: Seq<Shape>, upto: int) -> bool {
    let o = castlevania_offset();
    forall|j: int| 0 <= j < upto && #[trigger] door_path(map.doors@[j].from, map.doors@[j].to, o, o, castlevania_door_style(style).0) is Some
        ==> exists|k: int| 0 <= k < shapes.len() && door_shape(#[trigger] shapes[k], map.doors@[j].from, map.doors@[j].to, o, o,
            castlevania_door_style(style).0, castlevania_colours(style).1, castlevania_door_style(style).1)
}

/// The marker of each of the first `upto` rooms of `map` that has one is
/// among `shapes`.
pub open spec fn castlevania_markers_drawn(map: GeneratedMap, shapes: Seq<Shape>, upto: int) -> bool {
    forall|i: int| 0 <= i < upto && #[trigger] room_marker(map.rooms@[i], castlevania_marker_offset()) is Some
        ==> shapes.contains(room_marker(map.rooms@[i], castlevania_marker_offset())->0)
}

/// Everything of `map` that a Castlevania style can draw is among `shapes`.
pub open spec fn castlevania_map_drawn(style: CastlevaniaMapDrawer, map: GeneratedMap, shapes: Seq<Shape>) -> bool {
    &&& castlevania_outlines_drawn(style, map, shapes, map.rooms@.len() as int)
    &&& castlevania_doors_drawn(style, map, shapes, map.doors@.len() as int)
    &&& castlevania_markers_drawn(map, shapes, map.rooms@.len() as int)
}

/// `b` starts with `a`.
pub open spec fn extends_shapes(a: Seq<Shape>, b: Seq<Shape>) -> bool {
    a.len() <= b.len() && forall|k: int| 0 <= k < a.len() ==> #[trigger] b[k] == a[k]
}

proof fn lemma_pieces_push(style: CastlevaniaMapDrawer, maps: Seq<GeneratedMap>, a: Seq<Shape>, b: Seq<Shape>, m: int)
    requires
        castlevania_pieces(style, maps, a),
        0 <= m < maps.len(),
        b == a || (b.len() == a.len() + 1 && extends_shapes(a, b) && castlevania_piece(style, maps[m], b.last())),
    ensures
        castlevania_pieces(style, maps, b),
{
    assert forall|k: int| 0 <= k < b.len() implies #[trigger] castlevania_piece_of(style, maps, b[k]) by {
        if k < a.len() {
            assert(b[k] == a[k]);
            assert(castlevania_piece_of(style, maps, a[k]));
        } else {
            assert(b[k] == b.last());
            assert(castlevania_piece(style, maps[m], b[k]));
        }
    }
}

proof fn lemma_drawn_extends(style: CastlevaniaMapDrawer, map: GeneratedMap, a: Seq<Shape>, b: Seq<Shape>, ro: int, dn: int, mk: int)
    requires
        extends_shapes(a, b),
    ensures
        castlevania_outlines_drawn(style, map, a, ro) ==> castlevania_outlines_drawn(style, map, b, ro),
        castlevania_doors_drawn(style, map, a, dn) ==> castlevania_doors_drawn(style, map, b, dn),
        castlevania_markers_drawn(map, a, mk) ==> castlevania_markers_drawn(map, b, mk),
{
    let o = castlevania_offset();
    if castlevania_outlines_drawn(style, map, a, ro) {
        assert forall|i: int| 0 <= i < ro && #[trigger] outline_drawable(map.rooms@[i], o, o) implies exists|k: int| 0 <= k < b.len()
            && room_outline(#[trigger] b[k], map.rooms@[i], o, o, castlevania_colours(style).0, castlevania_colours(style).2) by {
            let k = choose|k: int| 0 <= k < a.len() && room_outline(#[trigger] a[k], map.rooms@[i], o, o, castlevania_colours(style).0, castlevania_colours(style).2);
            assert(b[k] == a[k]);
        }
    }
    if castlevania_doors_drawn(style, map, a, dn) {
        assert forall|j: int| 0 <= j < dn && #[trigger] door_path(map.doors@[j].from, map.doors@[j].to, o, o, castlevania_door_style(style).0) is Some
            implies exists|k: int| 0 <= k < b.len() && door_shape(#[trigger] b[k], map.doors@[j].from, map.doors@[j].to, o, o,
                castlevania_door_style(style).0, castlevania_colours(style).1, castlevania_door_style(style).1) by {
            let k = choose|k: int| 0 <= k < a.len() && door_shape(#[trigger] a[k], map.doors@[j].from, map.doors@[j].to, o, o,
                castlevania_door_style(style).0, castlevania_colours(style).1, castlevania_door_style(style).1);
            assert(b[k] == a[k]);
        }
    }
    if castlevania_markers_drawn(map, a, mk) {
        assert forall|i: int| 0 <= i < mk && #[trigger] room_marker(map.rooms@[i], castlevania_marker_offset()) is Some
            implies b.contains(room_marker(map.rooms@[i], castlevania_marker_offset())->0) by {
            let k = choose|k: int| 0 <= k < a.len() && a[k] == room_marker(map.rooms@[i], castlevania_marker_offset())->0;
            assert(b[k] == a[k]);
        }
    }
}

impl CastlevaniaMapDrawer {
    /// Draws maps on one canvas `MAP_SIZE_MARGIN` larger than the grid, the
    /// grid shifted by half the margin: for each map, its room outlines,
    /// then its doors (full-side lines for Aria of Sorrow, inset lines
    /// otherwise), then a square marker on the first cell of each save and
    /// navigation room. Shapes whose points do not fit are left out.
    pub fn draw(&self, maps: &Vec<GeneratedMap>, config: &DrawConfig) -> (scene: Scene)
        requires
            config.canvas_width * RECT_SIZE_MULTIPLIER + MAP_SIZE_MARGIN <= u32::MAX,
            config.canvas_height * RECT_SIZE_MULTIPLIER + MAP_SIZE_MARGIN <= u32::MAX,
        ensures
            scene.width == config.canvas_width * RECT_SIZE_MULTIPLIER + MAP_SIZE_MARGIN,
            scene.height == config.canvas_height * RECT_SIZE_MULTIPLIER + MAP_SIZE_MARGIN,
            forall|k: int| 0 <= k < scene.shapes@.len() ==> castlevania_shape(#[trigger] scene.shapes@[k],
                castlevania_colours(*self).0, castlevania_colours(*self).1, castlevania_colours(*self).2),
            castlevania_pieces(*self, maps@, scene.shapes@),
            forall|m: int| 0 <= m < maps@.len() ==> #[trigger] castlevania_map_drawn(*self, maps@[m], scene.shapes@),
    {
        let (room_colour, door_colour, wall_colour) = match self {
            CastlevaniaMapDrawer::CastlevaniaSOTN => (Colour::LightBlue, Colour::LightBlue, Colour::LightGray),
            CastlevaniaMapDrawer::CastlevaniaAOS => (Colour::DeepBlue, Colour::CyanBlue, Colour::LightWhite),
            CastlevaniaMapDrawer::CastlevaniaCOTM => (Colour::DarkBlue, Colour::DarkBlue, Colour::LightWhite),
            CastlevaniaMapDrawer::CastlevaniaHOD => (Colour::LimeGreen, Colour::LimeGreen, Colour::LightWhite),
        };
        let full_door = match self {
            CastlevaniaMapDrawer::CastlevaniaAOS => true,
            _ => false,
        };
        let (inset, door_width) = if full_door { (STROKE_WIDTH / 2, STROKE_WIDTH) } else { (DOOR_INSET, STROKE_WIDTH + 8) };
        let offset = MAP_SIZE_MARGIN / 2;
        let marker_offset = offset + STROKE_WIDTH / 2;
        let mut shapes: Vec<Shape> = Vec::new();
        let mut m: usize = 0;
        while m < maps.len()
            invariant
                0 <= m <= maps@.len(),
                (room_colour, door_colour, wall_colour) == castlevania_colours(*self),
                (inset, door_width) == castlevania_door_style(*self),
                inset <= RECT_SIZE_MULTIPLIER,
                offset == castlevania_offset(),
                marker_offset == castlevania_marker_offset(),
                forall|k: int| 0 <= k < shapes@.len() ==> castlevania_shape(#[trigger] shapes@[k], room_colour, door_colour, wall_colour),
                castlevania_pieces(*self, maps@, shapes@),
                forall|mm: int| 0 <= mm < m ==> #[trigger] castlevania_map_drawn(*self, maps@[mm], shapes@),
            decreases maps@.len() - m,
        {
            let map = &maps[m];
            let ghost base = shapes@;
            let mut i: usize = 0;
            while i < map.rooms.len()
                invariant
                    0 <= i <= map.rooms@.len(),
                    *map == maps@[m as int],
                    0 <= m < maps@.len(),
                    (room_colour, door_colour, wall_colour) == castlevania_colours(*self),
                    offset == castlevania_offset(),
                    forall|k: int| 0 <= k < shapes@.len() ==> castlevania_shape(#[trigger] shapes@[k], room_colour, door_colour, wall_colour),
                    castlevania_pieces(*self, maps@, shapes@),
                    extends_shapes(base, shapes@),
                    castlevania_outlines_drawn(*self, *map, shapes@, i as int),
                decreases map.rooms@.len() - i,
            {
                let room = &map.rooms[i];
                let ghost before = shapes@;
                if room_in_range(room) {
                    match draw_room(room, offset, offset, room_colour, wall_colour) {
                        Some(shape) => {
                            shapes.push(shape);
                            proof {
                                assert(shapes@[before.len() as int] == shape);
                                assert(room_outline(shape, maps@[m as int].rooms@[i as int], castlevania_offset(), castlevania_offset(),
                                    castlevania_colours(*self).0, castlevania_colours(*self).2));
                                assert(castlevania_piece(*self, maps@[m as int], shape));
                            }
                        },
                        None => {},
                    }
                }
                proof {
                    assert(extends_shapes(before, shapes@));
                    lemma_drawn_extends(*self, *map, before, shapes@, i as int, 0, 0);
                    lemma_pieces_push(*self, maps@, before, shapes@, m as int);
                    let o = castlevania_offset();
                    assert forall|i2: int| 0 <= i2 < i + 1 && #[trigger] outline_drawable(map.rooms@[i2], o, o) implies exists|k: int| 0 <= k < shapes@.len()
                        && room_outline(#[trigger] shapes@[k], map.rooms@[i2], o, o, castlevania_colours(*self).0, castlevania_colours(*self).2) by {
                        if i2 == i {
                            let k = before.len() as int;
                            assert(room_outline(shapes@[k], map.rooms@[i2], o, o, castlevania_colours(*self).0, castlevania_colours(*self).2));
                        }
                    }
                }
                i = i + 1;
            }
            let ghost after_rooms = shapes@;
            let mut j: usize = 0;
            while j < map.doors.len()
                invariant
                    0 <= j <= map.doors@.len(),
                    *map == maps@[m as int],
                    0 <= m < maps@.len(),
                    inset <= RECT_SIZE_MULTIPLIER,
                    (room_colour, door_colour, wall_colour) == castlevania_colours(*self),
                    (inset, door_width) == castlevania_door_style(*self),
                    offset == castlevania_offset(),
                    forall|k: int| 0 <= k < shapes@.len() ==> castlevania_shape(#[trigger] shapes@[k], room_colour, door_colour, wall_colour),
                    castlevania_pieces(*self, maps@, shapes@),
                    extends_shapes(base, after_rooms),
                    extends_shapes(after_rooms, shapes@),
                    castlevania_outlines_drawn(*self, *map, after_rooms, map.rooms@.len() as int),
                    castlevania_doors_drawn(*self, *map, shapes@, j as int),
                decreases map.doors@.len() - j,
            {
                let door = &map.doors[j];
                let ghost before = shapes@;
                match draw_door(door.from, door.to, offset, offset, inset, door_colour, door_width) {
                    Some(shape) => {
                        shapes.push(shape);
                        proof {
                            assert(shapes@[before.len() as int] == shape);
                            assert(door_shape(shape, maps@[m as int].doors@[j as int].from, maps@[m as int].doors@[j as int].to,
                                castlevania_offset(), castlevania_offset(), castlevania_door_style(*self).0, castlevania_colours(*self).1,
                                castlevania_door_style(*self).1));
                            assert(castlevania_piece(*self, maps@[m as int], shape));
                        }
                    },
                    None => {},
                }
                proof {
                    assert(extends_shapes(before, shapes@));
                    assert(extends_shapes(after_rooms, shapes@));
                    lemma_drawn_extends(*self, *map, before, shapes@, 0, j as int, 0);
                    lemma_pieces_push(*self, maps@, before, shapes@, m as int);
                    let o = castlevania_offset();
                    assert forall|j2: int| 0 <= j2 < j + 1 && #[trigger] door_path(map.doors@[j2].from, map.doors@[j2].to, o, o, castlevania_door_style(*self).0) is Some
                        implies exists|k: int| 0 <= k < shapes@.len() && door_shape(#[trigger] shapes@[k], map.doors@[j2].from, map.doors@[j2].to, o, o,
                            castlevania_door_style(*self).0, castlevania_colours(*self).1, castlevania_door_style(*self).1) by {
                        if j2 == j {
                            let k = before.len() as int;
                            assert(door_shape(shapes@[k], map.doors@[j2].from, map.doors@[j2].to, o, o,
                                castlevania_door_style(*self).0, castlevania_colours(*self).1, castlevania_door_style(*self).1));
                        }
                    }
                }
                j = j + 1;
            }
            let ghost after_doors = shapes@;
            let mut i: usize = 0;
            while i < map.rooms.len()
                invariant
                    0 <= i <= map.rooms@.len(),
                    *map == maps@[m as int],
                    0 <= m < maps@.len(),
                    (room_colour, door_colour, wall_colour) == castlevania_colours(*self),
                    marker_offset == castlevania_marker_offset(),
                    forall|k: int| 0 <= k < shapes@.len() ==> castlevania_shape(#[trigger] shapes@[k], room_colour, door_colour, wall_colour),
                    castlevania_pieces(*self, maps@, shapes@),
                    extends_shapes(base, after_rooms),
                    extends_shapes(after_rooms, after_doors),
                    extends_shapes(after_doors, shapes@),
                    castlevania_outlines_drawn(*self, *map, after_rooms, map.rooms@.len() as int),
                    castlevania_doors_drawn(*self, *map, after_doors, map.doors@.len() as int),
                    castlevania_markers_drawn(*map, shapes@, i as int),
                decreases map.rooms@.len() - i,
            {
                let room = &map.rooms[i];
                let ghost before = shapes@;
                let fill = match room.modifier {
                    Some(RoomModifier::Navigation) => Some(Colour::Yellow),
                    Some(RoomModifier::Save) => Some(Colour::Red),
                    _ => None,
                };
                match fill {
                    Some(colour) => {
                        if room.cells.len() > 0 {
                            match to_canvas(room.cells[0], marker_offset, marker_offset) {
                                Some(corner) => {
                                    let marker = Shape::Rectangle {
                                        corner,
                                        width: RECT_SIZE_MULTIPLIER - STROKE_WIDTH,
                                        height: RECT_SIZE_MULTIPLIER - STROKE_WIDTH,
                                        fill: colour,
                                    };
                                    proof {
                                        assert(room_marker(maps@[m as int].rooms@[i as int], castlevania_marker_offset()) == Some(marker));
                                    }
                                    shapes.push(marker);
                                    proof {
                                        assert(shapes@[before.len() as int] == marker);
                                        assert(castlevania_piece(*self, maps@[m as int], marker));
                                    }
                                },
                                None => {},
                            }
                        }
                    },
                    None => {},
                }
                proof {
                    assert(extends_shapes(before, shapes@));
                    assert(extends_shapes(after_doors, shapes@));
                    lemma_drawn_extends(*self, *map, before, shapes@, 0, 0, i as int);
                    lemma_pieces_push(*self, maps@, before, shapes@, m as int);
                    assert forall|i2: int| 0 <= i2 < i + 1 && #[trigger] room_marker(map.rooms@[i2], castlevania_marker_offset()) is Some
                        implies shapes@.contains(room_marker(map.rooms@[i2], castlevania_marker_offset())->0) by {
                        if i2 == i {
                            assert(shapes@[before.len() as int] == room_marker(map.rooms@[i2], castlevania_marker_offset())->0);
                        }
                    }
                }
                i = i + 1;
            }
            proof {
                assert(extends_shapes(after_rooms, shapes@));
                assert(extends_shapes(base, shapes@));
                lemma_drawn_extends(*self, *map, after_rooms, shapes@, map.rooms@.len() as int, 0, 0);
                lemma_drawn_extends(*self, *map, after_doors, shapes@, 0, map.doors@.len() as int, 0);
                assert(castlevania_map_drawn(*self, maps@[m as int], shapes@));
                assert forall|mm: int| 0 <= mm < m + 1 implies #[trigger] castlevania_map_drawn(*self, maps@[mm], shapes@) by {
                    if mm < m {
                        let mp = maps@[mm];
                        assert(castlevania_map_drawn(*self, mp, base));
                        lemma_drawn_extends(*self, mp, base, shapes@, mp.rooms@.len() as int, mp.doors@.len() as int, mp.rooms@.len() as int);
                    }
                }
            }
            m = m + 1;
        }
        Scene {
            width: config.canvas_width * RECT_SIZE_MULTIPLIER + MAP_SIZE_MARGIN,
            height: config.canvas_height * RECT_SIZE_MULTIPLIER + MAP_SIZE_MARGIN,
            shapes,
        }
    }
}

/// How many of `values` are below `v`.
pub open spec fn count_below(values: Seq<u32>, v: u32) -> nat
    decreases values.len(),
{
    if values.len() == 0 {
        0
    } else {
        count_below(values.drop_last(), v) + if values.last() < v { 1nat } else { 0nat }
    }
}

proof fn lemma_count_below_bound(values: Seq<u32>, v: u32)
    ensures
        count_below(values, v) <= values.len(),
    decreases values.len(),
{
    if values.len() > 0 {
        lemma_count_below_bound(values.drop_last(), v);
    }
}

/// The values of `values`, each once, in order of first appearance.
fn distinct_values(values: &Vec<u32>) -> (d: Vec<u32>)
    ensures
        d@.no_duplicates(),
        d@.to_set() == values@.to_set(),
        d@.len() <= values@.len(),
{
    let mut d: Vec<u32> = Vec::new();
    let mut i: usize = 0;
    while i < values.len()
        invariant
            0 <= i <= values@.len(),
            d@.no_duplicates(),
            d@.to_set() == values@.take(i as int).to_set(),
        decreases values@.len() - i,
    {
        let v = values[i];
        let mut seen = false;
        let mut j: usize = 0;
        while j < d.len()
            invariant
                0 <= j <= d@.len(),
                seen <==> exists|k: int| 0 <= k < j && d@[k] == v,
            decreases d@.len() - j,
        {
            if d[j] == v {
                seen = true;
            }
            j = j + 1;
        }
        let ghost before = d@;
        proof {
            assert(values@.take(i + 1) =~= values@.take(i as int).push(v));
            values@.take(i as int).lemma_push_to_set_commute(v);
        }
        if !seen {
            d.push(v);
            proof {
                crate::seq_facts::lemma_push_no_duplicates(before, v);
                before.lemma_push_to_set_commute(v);
            }
        } else {
            proof {
                let k = choose|k: int| 0 <= k < before.len() && before[k] == v;
                assert(before.to_set().contains(v));
                assert(before.to_set().insert(v) =~= before.to_set());
            }
        }
        i = i + 1;
    }
    proof {
        assert(values@.take(values@.len() as int) =~= values@);
        d@.unique_seq_to_set();
        values@.lemma_cardinality_of_set();
    }
    d
}

/// How many of `values` are below `v` (see `count_below`).
fn rank_of(values: &Vec<u32>, v: u32) -> (r: u32)
    requires
        values@.len() <= u32::MAX,
    ensures
        r == count_below(values@, v),
{
    let mut r: u32 = 0;
    let mut i: usize = 0;
    while i < values.len()
        invariant
            0 <= i <= values@.len(),
            values@.len() <= u32::MAX,
            r == count_below(values@.take(i as int), v),
        decreases values@.len() - i,
    {
        proof {
            assert(values@.take(i + 1).drop_last() =~= values@.take(i as int));
            lemma_count_below_bound(values@.take(i as int), v);
        }
        if values[i] < v {
            r = r + 1;
        }
        i = i + 1;
    }
    proof {
        assert(values@.take(values@.len() as int) =~= values@);
    }
    r
}

/// A shape of a Metroid region, other than a connection's arrow: an outline,
/// a passage or a door line, all stroked.
pub open spec fn metroid_path(shape: Shape) -> bool {
    shape matches Shape::Path { stroke, .. } && stroke is Some
}

/// An arrow of a region connection, in the wall colour.
pub open spec fn metroid_arrow(shape: Shape) -> bool {
    shape matches Shape::Polygon { fill, .. } && fill == Colour::LightGray
}

/// The doors of `doors` that can be drawn at the given offsets (see
/// `door_path`, with `DOOR_INSET`), in order.
pub open spec fn drawable_doors(doors: Seq<crate::types::Door>, col_offset: u32, row_offset: u32) -> Seq<crate::types::Door>
    decreases doors.len(),
{
    if doors.len() == 0 {
        Seq::empty()
    } else {
        let rest = drawable_doors(doors.drop_last(), col_offset, row_offset);
        if door_path(doors.last().from, doors.last().to, col_offset, row_offset, DOOR_INSET) is Some {
            rest.push(doors.last())
        } else {
            rest
        }
    }
}

/// `shape` is the inset line of a Metroid door `d` at the given offsets.
pub open spec fn metroid_door_line(shape: Shape, d: crate::types::Door, col_offset: u32, row_offset: u32) -> bool {
    door_path(d.from, d.to, col_offset, row_offset, DOOR_INSET) matches Some((a, b))
        && shape matches Shape::Path { points, closed, fill, stroke, stroke_width }
        && points@ == seq![a, b] && closed && fill is None && stroke == Some(Colour::LightBlue) && stroke_width == STROKE_WIDTH + 8
}

/// How many rooms of `rooms` are region connections.
pub open spec fn connection_rooms(rooms: Seq<Room>) -> nat
    decreases rooms.len(),
{
    if rooms.len() == 0 {
        0
    } else {
        connection_rooms(rooms.drop_last()) + if rooms.last().modifier matches Some(RoomModifier::RegionConnection(_)) { 1nat } else { 0nat }
    }
}

/// The outline of each of the first `upto` rooms of `map` that can be drawn
/// at the given offsets is among `shapes`, in the room's Metroid colour.
pub open spec fn metroid_outlines_drawn(map: GeneratedMap, col_offset: u32, row_offset: u32, shapes: Seq<Shape>, upto: int) -> bool {
    forall|i: int| 0 <= i < upto && #[trigger] outline_drawable(map.rooms@[i], col_offset, row_offset) ==> exists|k: int|
        0 <= k < shapes.len() && room_outline(#[trigger] shapes[k], map.rooms@[i], col_offset, row_offset,
            metroid_room_colour(map.rooms@[i].modifier, Colour::LightBlue), Colour::LightGray)
}

/// The line of each of the first `upto` doors of `map` that has one at the
/// given offsets is among `shapes`.
pub open spec fn metroid_doors_drawn(map: GeneratedMap, col_offset: u32, row_offset: u32, shapes: Seq<Shape>, upto: int) -> bool {
    forall|j: int| 0 <= j < upto && #[trigger] door_path(map.doors@[j].from, map.doors@[j].to, col_offset, row_offset, DOOR_INSET) is Some
        ==> exists|k: int| 0 <= k < shapes.len() && metroid_door_line(#[trigger] shapes[k], map.doors@[j], col_offset, row_offset)
}

/// The connection of `room` towards `d` can be drawn from whichever cell on
/// that side is picked: the room has cells, and from each of them the
/// passage fits and the door can be drawn.
pub open spec fn connector_drawable(room: Room, d: Direction, col_offset: u32, row_offset: u32) -> bool {
    &&& room.cells@.len() > 0
    &&& forall|c: Cell| #[trigger] on_side(room.cells@, c, d) ==> passage_fits(c, d, col_offset, row_offset)
        && door_path(c, step_out(c, d)->0, col_offset, row_offset, DOOR_INSET) is Some
}

/// The passage and door of `room`'s connection towards `d`, from one of its
/// cells on that side, are among `paths`, and its arrow among `arrows`.
pub open spec fn connector_among(room: Room, d: Direction, col_offset: u32, row_offset: u32, paths: Seq<Shape>, arrows: Seq<Shape>) -> bool {
    exists|c: Cell, k1: int, k2: int, k3: int|
        #![trigger on_side(room.cells@, c, d), paths[k1], paths[k2], arrows[k3]]
        0 <= k1 < paths.len() && 0 <= k2 < paths.len() && 0 <= k3 < arrows.len() && on_side(room.cells@, c, d)
            && connector_shapes_from(c, d, col_offset, row_offset, Colour::LightBlue, Colour::LightGray, Colour::LightBlue,
                (paths[k1], paths[k2], arrows[k3]))
}

/// Each of the first `upto` rooms of `map` that is a region connection
/// whose connection can be drawn has it among `paths` and `arrows`.
pub open spec fn metroid_connectors_drawn(map: GeneratedMap, col_offset: u32, row_offset: u32, paths: Seq<Shape>, arrows: Seq<Shape>, upto: int) -> bool {
    forall|i: int| 0 <= i < upto ==> connector_ok(#[trigger] map.rooms@[i], col_offset, row_offset, paths, arrows)
}

/// If `room` is a region connection whose connection can be drawn, it is
/// among `paths` and `arrows` (see `connector_among`).
pub open spec fn connector_ok(room: Room, col_offset: u32, row_offset: u32, paths: Seq<Shape>, arrows: Seq<Shape>) -> bool {
    match room.modifier {
        Some(RoomModifier::RegionConnection(d)) => connector_drawable(room, d, col_offset, row_offset)
            ==> connector_among(room, d, col_offset, row_offset, paths, arrows),
        _ => true,
    }
}

proof fn lemma_connector_among_extends(room: Room, d: Direction, col_offset: u32, row_offset: u32,
    p1: Seq<Shape>, a1: Seq<Shape>, p2: Seq<Shape>, a2: Seq<Shape>)
    requires
        connector_among(room, d, col_offset, row_offset, p1, a1),
        extends_shapes(p1, p2),
        extends_shapes(a1, a2),
    ensures
        connector_among(room, d, col_offset, row_offset, p2, a2),
{
    let (c, k1, k2, k3) = choose|c: Cell, k1: int, k2: int, k3: int|
        #![trigger on_side(room.cells@, c, d), p1[k1], p1[k2], a1[k3]]
        0 <= k1 < p1.len() && 0 <= k2 < p1.len() && 0 <= k3 < a1.len() && on_side(room.cells@, c, d)
            && connector_shapes_from(c, d, col_offset, row_offset, Colour::LightBlue, Colour::LightGray, Colour::LightBlue,
                (p1[k1], p1[k2], a1[k3]));
    assert(p2[k1] == p1[k1] && p2[k2] == p1[k2] && a2[k3] == a1[k3]);
}

proof fn lemma_connectors_placed(map: GeneratedMap, col_offset: u32, row_offset: u32,
    p: Seq<Shape>, q: Seq<Shape>, shapes: Seq<Shape>, o: int)
    requires
        metroid_connectors_drawn(map, col_offset, row_offset, p, q, map.rooms@.len() as int),
        0 <= o,
        o + p.len() + q.len() <= shapes.len(),
        forall|k: int| 0 <= k < p.len() ==> shapes[o + k] == p[k],
        forall|k: int| 0 <= k < q.len() ==> shapes[o + p.len() + k] == q[k],
    ensures
        metroid_connectors_drawn(map, col_offset, row_offset, shapes, shapes, map.rooms@.len() as int),
{
    assert forall|i: int| 0 <= i < map.rooms@.len() implies connector_ok(#[trigger] map.rooms@[i], col_offset, row_offset, shapes, shapes) by {
        let room = map.rooms@[i];
        assert(connector_ok(room, col_offset, row_offset, p, q));
        match room.modifier {
            Some(RoomModifier::RegionConnection(d)) => {
                if connector_drawable(room, d, col_offset, row_offset) {
                    let (c, k1, k2, k3) = choose|c: Cell, k1: int, k2: int, k3: int|
                        #![trigger on_side(room.cells@, c, d), p[k1], p[k2], q[k3]]
                        0 <= k1 < p.len() && 0 <= k2 < p.len() && 0 <= k3 < q.len() && on_side(room.cells@, c, d)
                            && connector_shapes_from(c, d, col_offset, row_offset, Colour::LightBlue, Colour::LightGray, Colour::LightBlue,
                                (p[k1], p[k2], q[k3]));
                    assert(shapes[o + k1] == p[k1] && shapes[o + k2] == p[k2] && shapes[o + p.len() + k3] == q[k3]);
                }
            },
            _ => {},
        }
    }
}

proof fn lemma_connectors_extends(map: GeneratedMap, col_offset: u32, row_offset: u32,
    p1: Seq<Shape>, a1: Seq<Shape>, p2: Seq<Shape>, a2: Seq<Shape>, upto: int)
    requires
        metroid_connectors_drawn(map, col_offset, row_offset, p1, a1, upto),
        extends_shapes(p1, p2),
        extends_shapes(a1, a2),
    ensures
        metroid_connectors_drawn(map, col_offset, row_offset, p2, a2, upto),
{
    assert forall|i: int| 0 <= i < upto implies connector_ok(#[trigger] map.rooms@[i], col_offset, row_offset, p2, a2) by {
        let room = map.rooms@[i];
        assert(connector_ok(room, col_offset, row_offset, p1, a1));
        match room.modifier {
            Some(RoomModifier::RegionConnection(d)) => {
                if connector_drawable(room, d, col_offset, row_offset) {
                    lemma_connector_among_extends(room, d, col_offset, row_offset, p1, a1, p2, a2);
                }
            },
            _ => {},
        }
    }
}

/// Every room outline and door line of `map` that can be drawn at the given
/// offsets is among `shapes`.
pub open spec fn metroid_map_drawn(map: GeneratedMap, col_offset: u32, row_offset: u32, shapes: Seq<Shape>) -> bool {
    &&& metroid_outlines_drawn(map, col_offset, row_offset, shapes, map.rooms@.len() as int)
    &&& metroid_doors_drawn(map, col_offset, row_offset, shapes, map.doors@.len() as int)
}

proof fn lemma_metroid_drawn_extends(map: GeneratedMap, col_offset: u32, row_offset: u32, a: Seq<Shape>, b: Seq<Shape>, ro: int, dn: int)
    requires
        extends_shapes(a, b),
    ensures
        metroid_outlines_drawn(map, col_offset, row_offset, a, ro) ==> metroid_outlines_drawn(map, col_offset, row_offset, b, ro),
        metroid_doors_drawn(map, col_offset, row_offset, a, dn) ==> metroid_doors_drawn(map, col_offset, row_offset, b, dn),
{
    if metroid_outlines_drawn(map, col_offset, row_offset, a, ro) {
        assert forall|i: int| 0 <= i < ro && #[trigger] outline_drawable(map.rooms@[i], col_offset, row_offset) implies exists|k: int|
            0 <= k < b.len() && room_outline(#[trigger] b[k], map.rooms@[i], col_offset, row_offset,
                metroid_room_colour(map.rooms@[i].modifier, Colour::LightBlue), Colour::LightGray) by {
            let k = choose|k: int| 0 <= k < a.len() && room_outline(#[trigger] a[k], map.rooms@[i], col_offset, row_offset,
                metroid_room_colour(map.rooms@[i].modifier, Colour::LightBlue), Colour::LightGray);
            assert(b[k] == a[k]);
        }
    }
    if metroid_doors_drawn(map, col_offset, row_offset, a, dn) {
        assert forall|j: int| 0 <= j < dn && #[trigger] door_path(map.doors@[j].from, map.doors@[j].to, col_offset, row_offset, DOOR_INSET) is Some
            implies exists|k: int| 0 <= k < b.len() && metroid_door_line(#[trigger] b[k], map.doors@[j], col_offset, row_offset) by {
            let k = choose|k: int| 0 <= k < a.len() && metroid_door_line(#[trigger] a[k], map.doors@[j], col_offset, row_offset);
            assert(b[k] == a[k]);
        }
    }
}

/// The shapes of one map of a Metroid drawing at the given offsets: each
/// room's outline (region connections coloured by direction, see
/// `metroid_room_colour`), followed for a region connection by its passage
/// and door (see `draw_region_connector`); then the doors, as inset lines; and,
/// apart, the arrows of the region connections. Shapes that cannot be drawn
/// are left out.
fn draw_region(map: &GeneratedMap, col_offset: u32, row_offset: u32) -> (r: (Vec<Shape>, Vec<Shape>))
    ensures
        forall|k: int| 0 <= k < r.0@.len() ==> metroid_path(#[trigger] r.0@[k]),
        forall|k: int| 0 <= k < r.1@.len() ==> metroid_arrow(#[trigger] r.1@[k]),
        r.1@.len() <= connection_rooms(map.rooms@),
        metroid_map_drawn(*map, col_offset, row_offset, r.0@),
        metroid_connectors_drawn(*map, col_offset, row_offset, r.0@, r.1@, map.rooms@.len() as int),
        ({
            let dd = drawable_doors(map.doors@, col_offset, row_offset);
            let n0 = r.0@.len() - dd.len();
            &&& 0 <= n0 <= map.rooms@.len() + 2 * connection_rooms(map.rooms@)
            &&& forall|q: int| 0 <= q < dd.len() ==> metroid_door_line(#[trigger] r.0@[n0 + q], dd[q], col_offset, row_offset)
        }),
{
    let room_colour = Colour::LightBlue;
    let door_colour = Colour::LightBlue;
    let wall_colour = Colour::LightGray;
    let mut paths: Vec<Shape> = Vec::new();
    let mut polygons: Vec<Shape> = Vec::new();
    let mut i: usize = 0;
    while i < map.rooms.len()
        invariant
            0 <= i <= map.rooms@.len(),
            room_colour == Colour::LightBlue,
            door_colour == Colour::LightBlue,
            wall_colour == Colour::LightGray,
            forall|k: int| 0 <= k < paths@.len() ==> metroid_path(#[trigger] paths@[k]),
            forall|k: int| 0 <= k < polygons@.len() ==> metroid_arrow(#[trigger] polygons@[k]),
            polygons@.len() <= connection_rooms(map.rooms@.take(i as int)),
            paths@.len() <= i + 2 * connection_rooms(map.rooms@.take(i as int)),
            metroid_outlines_drawn(*map, col_offset, row_offset, paths@, i as int),
            metroid_connectors_drawn(*map, col_offset, row_offset, paths@, polygons@, i as int),
        decreases map.rooms@.len() - i,
    {
        let ghost before = paths@;
        let ghost polys_before = polygons@;
        proof {
            assert(map.rooms@.take(i + 1).drop_last() =~= map.rooms@.take(i as int));
            assert(map.rooms@.take(i + 1).last() == map.rooms@[i as int]);
        }
        let room = &map.rooms[i];
        let fill = match room.modifier {
            Some(RoomModifier::RegionConnection(Direction::North)) => Colour::Red,
            Some(RoomModifier::RegionConnection(Direction::South)) => Colour::LimeGreen,
            Some(RoomModifier::RegionConnection(Direction::East)) => Colour::Yellow,
            Some(RoomModifier::RegionConnection(Direction::West)) => Colour::DarkBlue,
            _ => room_colour,
        };
        if room_in_range(room) {
            match draw_room(room, col_offset, row_offset, fill, wall_colour) {
                Some(shape) => {
                    paths.push(shape);
                },
                None => {},
            }
        }
        proof {
            assert(fill == metroid_room_colour(room.modifier, Colour::LightBlue));
            assert(extends_shapes(before, paths@));
            lemma_metroid_drawn_extends(*map, col_offset, row_offset, before, paths@, i as int, 0);
            assert forall|i2: int| 0 <= i2 < i + 1 && #[trigger] outline_drawable(map.rooms@[i2], col_offset, row_offset) implies exists|k: int|
                0 <= k < paths@.len() && room_outline(#[trigger] paths@[k], map.rooms@[i2], col_offset, row_offset,
                    metroid_room_colour(map.rooms@[i2].modifier, Colour::LightBlue), Colour::LightGray) by {
                if i2 == i {
                    let k = before.len() as int;
                    assert(room_outline(paths@[k], map.rooms@[i2], col_offset, row_offset,
                        metroid_room_colour(map.rooms@[i2].modifier, Colour::LightBlue), Colour::LightGray));
                }
            }
        }
        let ghost mid = paths@;
        proof {
            lemma_connectors_extends(*map, col_offset, row_offset, before, polys_before, mid, polygons@, i as int);
        }
        match room.modifier {
            Some(RoomModifier::RegionConnection(d)) => {
                match draw_region_connector(room, d, col_offset, row_offset, room_colour, wall_colour, door_colour) {
                    Some((passage, door, arrow)) => {
                        let ghost p0 = paths@;
                        let ghost q0 = polygons@;
                        paths.push(passage);
                        paths.push(door);
                        polygons.push(arrow);
                        proof {
                            assert(extends_shapes(p0, paths@));
                            assert(extends_shapes(q0, polygons@));
                            lemma_connectors_extends(*map, col_offset, row_offset, p0, q0, paths@, polygons@, i as int);
                            let c = choose|c: Cell| #[trigger] on_side(room.cells@, c, d) && passage_fits(c, d, col_offset, row_offset)
                                && connector_shapes_from(c, d, col_offset, row_offset, room_colour, wall_colour, door_colour, (passage, door, arrow));
                            let k1 = p0.len() as int;
                            let k3 = q0.len() as int;
                            assert(paths@[k1] == passage && paths@[k1 + 1] == door && polygons@[k3] == arrow);
                            assert(connector_among(map.rooms@[i as int], d, col_offset, row_offset, paths@, polygons@));
                        }
                    },
                    None => {
                        proof {
                            assert(!connector_drawable(map.rooms@[i as int], d, col_offset, row_offset));
                        }
                    },
                }
            },
            _ => {},
        }
        proof {
            assert(connector_ok(map.rooms@[i as int], col_offset, row_offset, paths@, polygons@));
            assert forall|i2: int| 0 <= i2 < i + 1 implies connector_ok(#[trigger] map.rooms@[i2], col_offset, row_offset, paths@, polygons@) by {
            }
            assert(extends_shapes(mid, paths@));
            lemma_metroid_drawn_extends(*map, col_offset, row_offset, mid, paths@, i + 1, 0);
        }
        i = i + 1;
    }
    proof {
        assert(map.rooms@.take(map.rooms@.len() as int) =~= map.rooms@);
        assert(map.doors@.take(0) =~= Seq::<crate::types::Door>::empty());
    }
    let ghost after_rooms = paths@;
    let ghost n0 = paths@.len();
    let mut j: usize = 0;
    while j < map.doors.len()
        invariant
            0 <= j <= map.doors@.len(),
            door_colour == Colour::LightBlue,
            forall|k: int| 0 <= k < paths@.len() ==> metroid_path(#[trigger] paths@[k]),
            n0 <= map.rooms@.len() + 2 * connection_rooms(map.rooms@),
            paths@.len() == n0 + drawable_doors(map.doors@.take(j as int), col_offset, row_offset).len(),
            forall|q: int| 0 <= q < drawable_doors(map.doors@.take(j as int), col_offset, row_offset).len()
                ==> metroid_door_line(#[trigger] paths@[n0 + q], drawable_doors(map.doors@.take(j as int), col_offset, row_offset)[q],
                    col_offset, row_offset),
            extends_shapes(after_rooms, paths@),
            metroid_outlines_drawn(*map, col_offset, row_offset, after_rooms, map.rooms@.len() as int),
            metroid_connectors_drawn(*map, col_offset, row_offset, after_rooms, polygons@, map.rooms@.len() as int),
            metroid_doors_drawn(*map, col_offset, row_offset, paths@, j as int),
        decreases map.doors@.len() - j,
    {
        proof {
            assert(map.doors@.take(j + 1).drop_last() =~= map.doors@.take(j as int));
            assert(map.doors@.take(j + 1).last() == map.doors@[j as int]);
        }
        let ghost before = paths@;
        let door = &map.doors[j];
        match draw_door(door.from, door.to, col_offset, row_offset, DOOR_INSET, door_colour, STROKE_WIDTH + 8) {
            Some(shape) => {
                paths.push(shape);
            },
            None => {},
        }
        proof {
            let d0 = drawable_doors(map.doors@.take(j as int), col_offset, row_offset);
            let d1 = drawable_doors(map.doors@.take(j + 1), col_offset, row_offset);
            assert forall|q: int| 0 <= q < d1.len() implies metroid_door_line(#[trigger] paths@[n0 + q], d1[q], col_offset, row_offset) by {
                if q < d0.len() {
                    assert(d1[q] == d0[q]);
                    assert(paths@[n0 + q] == before[n0 + q]);
                }
            }
            assert(extends_shapes(before, paths@));
            lemma_metroid_drawn_extends(*map, col_offset, row_offset, before, paths@, 0, j as int);
            assert forall|j2: int| 0 <= j2 < j + 1 && #[trigger] door_path(map.doors@[j2].from, map.doors@[j2].to, col_offset, row_offset, DOOR_INSET) is Some
                implies exists|k: int| 0 <= k < paths@.len() && metroid_door_line(#[trigger] paths@[k], map.doors@[j2], col_offset, row_offset) by {
                if j2 == j {
                    let k = before.len() as int;
                    assert(metroid_door_line(paths@[k], map.doors@[j2], col_offset, row_offset));
                }
            }
        }
        j = j + 1;
    }
    proof {
        assert(map.doors@.take(map.doors@.len() as int) =~= map.doors@);
        lemma_metroid_drawn_extends(*map, col_offset, row_offset, after_rooms, paths@, map.rooms@.len() as int, 0);
        lemma_connectors_extends(*map, col_offset, row_offset, after_rooms, polygons@, paths@, polygons@, map.rooms@.len() as int);
    }
    (paths, polygons)
}

/// The origin columns of the maps, in order.
pub open spec fn origin_cols(maps: Seq<GeneratedMap>) -> Seq<u32> {
    maps.map_values(|m: GeneratedMap| m.origin_rect.origin.col)
}

/// The origin rows of the maps, in order.
pub open spec fn origin_rows(maps: Seq<GeneratedMap>) -> Seq<u32> {
    maps.map_values(|m: GeneratedMap| m.origin_rect.origin.row)
}

/// The canvas length for `cells` grid cells and `regions` regions side by
/// side: every region gets `REGION_SEPARATION` more, and at least one does.
pub open spec fn metroid_extent(cells: u32, regions: nat) -> int {
    cells * RECT_SIZE_MULTIPLIER + REGION_SEPARATION * (if regions == 0 { 1 } else { regions as int })
}

fn origin_values(maps: &Vec<GeneratedMap>, cols: bool) -> (v: Vec<u32>)
    ensures
        v@ == (if cols { origin_cols(maps@) } else { origin_rows(maps@) }),
{
    let mut v: Vec<u32> = Vec::new();
    let mut i: usize = 0;
    while i < maps.len()
        invariant
            0 <= i <= maps@.len(),
            v@ == (if cols { origin_cols(maps@.take(i as int)) } else { origin_rows(maps@.take(i as int)) }),
        decreases maps@.len() - i,
    {
        proof {
            assert(maps@.take(i + 1) =~= maps@.take(i as int).push(maps@[i as int]));
        }
        let o = maps[i].origin_rect.origin;
        if cols {
            v.push(o.col);
        } else {
            v.push(o.row);
        }
        proof {
            if cols {
                assert(v@ =~= origin_cols(maps@.take(i + 1)));
            } else {
                assert(v@ =~= origin_rows(maps@.take(i + 1)));
            }
        }
        i = i + 1;
    }
    proof {
        assert(maps@.take(maps@.len() as int) =~= maps@);
    }
    v
}

/// How many of `values` are below `v`.
pub open spec fn rank_below(values: Set<u32>, v: u32) -> nat {
    values.filter(|x: u32| x < v).len()
}

/// Where a Metroid drawing puts a region whose origin coordinate is `v`,
/// among the regions' origin coordinates `values`: `REGION_SEPARATION` for
/// each smaller one, plus half of it.
pub open spec fn metroid_place(values: Set<u32>, v: u32) -> int {
    rank_below(values, v) * REGION_SEPARATION + REGION_SEPARATION / 2
}

proof fn lemma_count_below_rank(d: Seq<u32>, v: u32)
    requires
        d.no_duplicates(),
    ensures
        count_below(d, v) == rank_below(d.to_set(), v),
    decreases d.len(),
{
    let f = |x: u32| x < v;
    if d.len() == 0 {
        assert(d.to_set() =~= Set::<u32>::empty());
        assert(d.to_set().filter(f) =~= Set::<u32>::empty());
    } else {
        let p = d.drop_last();
        let x = d.last();
        assert(p.no_duplicates()) by {
            assert forall|a: int, b: int| 0 <= a < p.len() && 0 <= b < p.len() && a != b implies p[a] != p[b] by {
                assert(p[a] == d[a] && p[b] == d[b]);
            }
        }
        lemma_count_below_rank(p, v);
        assert(d =~= p.push(x));
        p.lemma_push_to_set_commute(x);
        assert(!p.to_set().contains(x)) by {
            if p.to_set().contains(x) {
                let q = choose|q: int| 0 <= q < p.len() && p[q] == x;
                assert(d[q] == d[d.len() - 1]);
            }
        }
        p.to_set().lemma_len_filter(f);
        if x < v {
            assert(d.to_set().filter(f) =~= p.to_set().filter(f).insert(x));
        } else {
            assert(d.to_set().filter(f) =~= p.to_set().filter(f));
        }
    }
}

impl MetroidMapDrawer {
    /// Draws the maps as regions laid out on a grid of their own: the
    /// regions' origin columns (and rows), told apart and sorted, give each
    /// region its place, and every place is `REGION_SEPARATION` apart, with
    /// half of it before the first. For each map, its outlines, passages
    /// and doors are painted, then its arrows (see `draw_region`).
    pub fn draw(&self, maps: &Vec<GeneratedMap>, config: &DrawConfig) -> (scene: Scene)
        requires
            metroid_extent(config.canvas_width, maps@.len()) <= u32::MAX,
            metroid_extent(config.canvas_height, maps@.len()) <= u32::MAX,
        ensures
            scene.width == metroid_extent(config.canvas_width, origin_cols(maps@).to_set().len()),
            scene.height == metroid_extent(config.canvas_height, origin_rows(maps@).to_set().len()),
            forall|k: int| 0 <= k < scene.shapes@.len() ==> metroid_path(#[trigger] scene.shapes@[k])
                || metroid_arrow(scene.shapes@[k]),
            forall|m: int| 0 <= m < maps@.len() ==> #[trigger] metroid_map_drawn(maps@[m],
                metroid_place(origin_cols(maps@).to_set(), maps@[m].origin_rect.origin.col) as u32,
                metroid_place(origin_rows(maps@).to_set(), maps@[m].origin_rect.origin.row) as u32, scene.shapes@),
            forall|m: int| 0 <= m < maps@.len() ==> #[trigger] metroid_connectors_drawn(maps@[m],
                metroid_place(origin_cols(maps@).to_set(), maps@[m].origin_rect.origin.col) as u32,
                metroid_place(origin_rows(maps@).to_set(), maps@[m].origin_rect.origin.row) as u32, scene.shapes@, scene.shapes@,
                maps@[m].rooms@.len() as int),
    {
        let col_values = origin_values(maps, true);
        let row_values = origin_values(maps, false);
        let cols = distinct_values(&col_values);
        let rows = distinct_values(&row_values);
        proof {
            cols@.unique_seq_to_set();
            rows@.unique_seq_to_set();
            assert(cols@.len() <= maps@.len());
            assert(rows@.len() <= maps@.len());
        }
        let col_count: u32 = if cols.len() == 0 { 1 } else { cols.len() as u32 };
        let row_count: u32 = if rows.len() == 0 { 1 } else { rows.len() as u32 };
        let width = config.canvas_width * RECT_SIZE_MULTIPLIER + REGION_SEPARATION * col_count;
        let height = config.canvas_height * RECT_SIZE_MULTIPLIER + REGION_SEPARATION * row_count;
        let mut shapes: Vec<Shape> = Vec::new();
        let mut m: usize = 0;
        while m < maps.len()
            invariant
                0 <= m <= maps@.len(),
                cols@.len() <= maps@.len(),
                rows@.len() <= maps@.len(),
                metroid_extent(config.canvas_width, maps@.len()) <= u32::MAX,
                metroid_extent(config.canvas_height, maps@.len()) <= u32::MAX,
                forall|k: int| 0 <= k < shapes@.len() ==> metroid_path(#[trigger] shapes@[k]) || metroid_arrow(shapes@[k]),
                cols@.no_duplicates(),
                rows@.no_duplicates(),
                cols@.to_set() == origin_cols(maps@).to_set(),
                rows@.to_set() == origin_rows(maps@).to_set(),
                forall|mm: int| 0 <= mm < m ==> #[trigger] metroid_map_drawn(maps@[mm],
                    metroid_place(origin_cols(maps@).to_set(), maps@[mm].origin_rect.origin.col) as u32,
                    metroid_place(origin_rows(maps@).to_set(), maps@[mm].origin_rect.origin.row) as u32, shapes@),
                forall|mm: int| 0 <= mm < m ==> #[trigger] metroid_connectors_drawn(maps@[mm],
                    metroid_place(origin_cols(maps@).to_set(), maps@[mm].origin_rect.origin.col) as u32,
                    metroid_place(origin_rows(maps@).to_set(), maps@[mm].origin_rect.origin.row) as u32, shapes@, shapes@,
                    maps@[mm].rooms@.len() as int),
            decreases maps@.len() - m,
        {
            let origin = maps[m].origin_rect.origin;
            let col_index = rank_of(&cols, origin.col);
            let row_index = rank_of(&rows, origin.row);
            proof {
                lemma_count_below_bound(cols@, origin.col);
                lemma_count_below_bound(rows@, origin.row);
            }
            let col_offset = col_index * REGION_SEPARATION + REGION_SEPARATION / 2;
            let row_offset = row_index * REGION_SEPARATION + REGION_SEPARATION / 2;
            let (mut paths, mut polygons) = draw_region(&maps[m], col_offset, row_offset);
            let ghost before = shapes@;
            let ghost p0 = paths@;
            let ghost q0 = polygons@;
            shapes.append(&mut paths);
            shapes.append(&mut polygons);
            proof {
                lemma_count_below_rank(cols@, origin.col);
                lemma_count_below_rank(rows@, origin.row);
                assert(col_offset == metroid_place(origin_cols(maps@).to_set(), maps@[m as int].origin_rect.origin.col));
                assert(row_offset == metroid_place(origin_rows(maps@).to_set(), maps@[m as int].origin_rect.origin.row));
                assert(shapes@ =~= before + p0 + q0);
                assert(extends_shapes(before, shapes@));
                assert forall|k: int| 0 <= k < p0.len() implies #[trigger] shapes@[before.len() + k] == p0[k] by {}
                let mp = maps@[m as int];
                assert(metroid_map_drawn(mp, col_offset, row_offset, shapes@)) by {
                    let o = before.len() as int;
                    assert forall|i: int| 0 <= i < mp.rooms@.len() && #[trigger] outline_drawable(mp.rooms@[i], col_offset, row_offset) implies exists|k: int|
                        0 <= k < shapes@.len() && room_outline(#[trigger] shapes@[k], mp.rooms@[i], col_offset, row_offset,
                            metroid_room_colour(mp.rooms@[i].modifier, Colour::LightBlue), Colour::LightGray) by {
                        let k = choose|k: int| 0 <= k < p0.len() && room_outline(#[trigger] p0[k], mp.rooms@[i], col_offset, row_offset,
                            metroid_room_colour(mp.rooms@[i].modifier, Colour::LightBlue), Colour::LightGray);
                        assert(shapes@[o + k] == p0[k]);
                    }
                    assert forall|j: int| 0 <= j < mp.doors@.len() && #[trigger] door_path(mp.doors@[j].from, mp.doors@[j].to, col_offset, row_offset, DOOR_INSET) is Some
                        implies exists|k: int| 0 <= k < shapes@.len() && metroid_door_line(#[trigger] shapes@[k], mp.doors@[j], col_offset, row_offset) by {
                        let k = choose|k: int| 0 <= k < p0.len() && metroid_door_line(#[trigger] p0[k], mp.doors@[j], col_offset, row_offset);
                        assert(shapes@[o + k] == p0[k]);
                    }
                }
                assert forall|mm: int| 0 <= mm < m + 1 implies #[trigger] metroid_map_drawn(maps@[mm],
                    metroid_place(origin_cols(maps@).to_set(), maps@[mm].origin_rect.origin.col) as u32,
                    metroid_place(origin_rows(maps@).to_set(), maps@[mm].origin_rect.origin.row) as u32, shapes@) by {
                    if mm < m {
                        let mq = maps@[mm];
                        let c = metroid_place(origin_cols(maps@).to_set(), mq.origin_rect.origin.col) as u32;
                        let r = metroid_place(origin_rows(maps@).to_set(), mq.origin_rect.origin.row) as u32;
                        assert(metroid_map_drawn(mq, c, r, before));
                        lemma_metroid_drawn_extends(mq, c, r, before, shapes@, mq.rooms@.len() as int, mq.doors@.len() as int);
                    }
                }
                assert forall|k: int| 0 <= k < q0.len() implies #[trigger] shapes@[before.len() + p0.len() + k] == q0[k] by {}
                lemma_connectors_placed(mp, col_offset, row_offset, p0, q0, shapes@, before.len() as int);
                assert forall|mm: int| 0 <= mm < m + 1 implies #[trigger] metroid_connectors_drawn(maps@[mm],
                    metroid_place(origin_cols(maps@).to_set(), maps@[mm].origin_rect.origin.col) as u32,
                    metroid_place(origin_rows(maps@).to_set(), maps@[mm].origin_rect.origin.row) as u32, shapes@, shapes@,
                    maps@[mm].rooms@.len() as int) by {
                    if mm < m {
                        let mq = maps@[mm];
                        let c = metroid_place(origin_cols(maps@).to_set(), mq.origin_rect.origin.col) as u32;
                        let r = metroid_place(origin_rows(maps@).to_set(), mq.origin_rect.origin.row) as u32;
                        assert(metroid_connectors_drawn(mq, c, r, before, before, mq.rooms@.len() as int));
                        lemma_connectors_extends(mq, c, r, before, before, shapes@, shapes@, mq.rooms@.len() as int);
                    }
                }
                assert forall|q: int| 0 <= q < shapes@.len() implies metroid_path(#[trigger] shapes@[q]) || metroid_arrow(shapes@[q]) by {
                    if q < before.len() {
                        assert(shapes@[q] == before[q]);
                    } else if q < before.len() + p0.len() {
                        assert(shapes@[q] == p0[q - before.len()]);
                    } else {
                        assert(shapes@[q] == q0[q - before.len() - p0.len()]);
                    }
                }
            }
            m = m + 1;
        }
        Scene { width, height, shapes }
    }
}

/// Whether a drawer's canvas for `count` maps of a `config` grid fits in `u32`.
pub open spec fn fits_canvas(drawer: MapDrawer, count: nat, config: DrawConfig) -> bool {
    match drawer {
        MapDrawer::Castlevania(_) => config.canvas_width * RECT_SIZE_MULTIPLIER + MAP_SIZE_MARGIN <= u32::MAX
            && config.canvas_height * RECT_SIZE_MULTIPLIER + MAP_SIZE_MARGIN <= u32::MAX,
        MapDrawer::Metroid(_) => metroid_extent(config.canvas_width, count) <= u32::MAX
            && metroid_extent(config.canvas_height, count) <= u32::MAX,
    }
}

/// What `drawer` draws for `maps` on a `config` grid: the canvas size and,
/// in the Castlevania styles, where each shape comes from and that every
/// room outline, door line and marker that fits is drawn; in the Metroid
/// styles, the kinds of shape and that every room outline, door line and
/// region connection that fits at its region's place is drawn.
pub open spec fn scene_of(drawer: MapDrawer, maps: Seq<GeneratedMap>, config: DrawConfig, scene: Scene) -> bool {
    match drawer {
        MapDrawer::Castlevania(d) => {
            &&& scene.width == config.canvas_width * RECT_SIZE_MULTIPLIER + MAP_SIZE_MARGIN
            &&& scene.height == config.canvas_height * RECT_SIZE_MULTIPLIER + MAP_SIZE_MARGIN
            &&& castlevania_pieces(d, maps, scene.shapes@)
            &&& forall|m: int| 0 <= m < maps.len() ==> #[trigger] castlevania_map_drawn(d, maps[m], scene.shapes@)
        },
        MapDrawer::Metroid(_) => {
            &&& scene.width == metroid_extent(config.canvas_width, origin_cols(maps).to_set().len())
            &&& scene.height == metroid_extent(config.canvas_height, origin_rows(maps).to_set().len())
            &&& forall|k: int| 0 <= k < scene.shapes@.len() ==> metroid_path(#[trigger] scene.shapes@[k]) || metroid_arrow(scene.shapes@[k])
            &&& forall|m: int| 0 <= m < maps.len() ==> #[trigger] metroid_map_drawn(maps[m],
                metroid_place(origin_cols(maps).to_set(), maps[m].origin_rect.origin.col) as u32,
                metroid_place(origin_rows(maps).to_set(), maps[m].origin_rect.origin.row) as u32, scene.shapes@)
            &&& forall|m: int| 0 <= m < maps.len() ==> #[trigger] metroid_connectors_drawn(maps[m],
                metroid_place(origin_cols(maps).to_set(), maps[m].origin_rect.origin.col) as u32,
                metroid_place(origin_rows(maps).to_set(), maps[m].origin_rect.origin.row) as u32, scene.shapes@, scene.shapes@,
                maps[m].rooms@.len() as int)
        },
    }
}

impl MapDrawer {
    /// Whether the canvas for `count` maps fits (see `fits_canvas`).
    pub fn fits(&self, count: usize, config: &DrawConfig) -> (b: bool)
        ensures
            b == fits_canvas(*self, count as nat, *config),
    {
        let cells_w = config.canvas_width as u128 * 48;
        let cells_h = config.canvas_height as u128 * 48;
        match self {
            MapDrawer::Castlevania(_) => cells_w + 96 <= u32::MAX as u128 && cells_h + 96 <= u32::MAX as u128,
            MapDrawer::Metroid(_) => {
                let regions: u128 = if count == 0 { 1 } else { count as u128 };
                cells_w + 384 * regions <= u32::MAX as u128 && cells_h + 384 * regions <= u32::MAX as u128
            },
        }
    }

    /// Draws the maps in the drawer's style (see `CastlevaniaMapDrawer::draw`
    /// and `MetroidMapDrawer::draw`).
    pub fn draw(&self, maps: &Vec<GeneratedMap>, config: &DrawConfig) -> (scene: Scene)
        requires
            fits_canvas(*self, maps@.len(), *config),
        ensures
            scene_of(*self, maps@, *config, scene),
    {
        match self {
            MapDrawer::Castlevania(d) => d.draw(maps, config),
            MapDrawer::Metroid(d) => d.draw(maps, config),
        }
    }
}

/// Builds maps of `columns` by `rows` cells in a style, with the style's
/// knobs (`MapBuilderConfig::from_style`), and draws them with the style's
/// drawer on a canvas of the grid's size (see `scene_of`). `None` only when
/// that canvas would not fit in `u32`, which cannot happen while it fits for
/// one map per grid cell.
pub fn create_map(columns: u32, rows: u32, style: MapStyle) -> (r: Option<Scene>)
    requires
        columns > 0,
        rows > 0,
        columns * rows <= u32::MAX,
        1 + 2 * (columns * rows) <= usize::MAX,
    ensures
        r is None ==> !fits_canvas(drawer_of(style), (columns * rows) as nat, DrawConfig { canvas_width: columns, canvas_height: rows }),
        r matches Some(scene) ==> exists|maps: Seq<GeneratedMap>| {
            &&& maps.len() <= columns * rows
            &&& columns <= MIN_RECT_WIDTH || rows <= MIN_RECT_HEIGHT ==> maps.len() == 0
            &&& style_config(style).merge_regions && columns > MIN_RECT_WIDTH && rows > MIN_RECT_HEIGHT
                ==> maps.len() == 1 && maps[0].origin_rect == full_rect(columns, rows)
            &&& doors_join_rooms(maps)
            &&& columns > MIN_RECT_WIDTH && rows > MIN_RECT_HEIGHT ==> exists|ps: Seq<(Rect, Map<usize, Rect>, Map<usize, Rect>, Map<usize, crate::neighbour_set::NeighbourSet>)>|
                trimmed_from(columns, rows, style_config(style).bsp_config, ps) && trimmed_parts(full_rect(columns, rows), ps)
                && #[trigger] built_from(ps, style_config(style), full_rect(columns, rows), maps)
            &&& forall|k: int| 0 <= k < maps.len() ==> map_rooms_within(#[trigger] maps[k], maps[k].origin_rect)
            &&& forall|k: int| 0 <= k < maps.len() ==> map_rooms_apart(#[trigger] maps[k])
            &&& forall|k: int| 0 <= k < maps.len() ==> inside((#[trigger] maps[k]).origin_rect, full_rect(columns, rows))
            &&& !style_config(style).merge_regions ==> forall|i: int, j: int| 0 <= i < j < maps.len()
                ==> apart((#[trigger] maps[i]).origin_rect, (#[trigger] maps[j]).origin_rect)
            &&& scene_of(drawer_of(style), maps, DrawConfig { canvas_width: columns, canvas_height: rows }, scene)
        },
{
    let build_config = MapBuilderConfig::from_style(style);
    let builder = MapBuilder { cols: columns, rows };
    let maps = builder.build(&build_config, style);
    let draw_config = DrawConfig { canvas_width: columns, canvas_height: rows };
    let drawer = MapDrawerFactory::create_drawer(style);
    if !drawer.fits(maps.len(), &draw_config) {
        proof {
            let big = (columns * rows) as nat;
            let few = maps@.len() as nat;
            assert(few <= big);
            assert(metroid_extent(columns, few) <= metroid_extent(columns, big));
            assert(metroid_extent(rows, few) <= metroid_extent(rows, big));
        }
        return None;
    }
    Some(drawer.draw(&maps, &draw_config))
}

} // verus!
