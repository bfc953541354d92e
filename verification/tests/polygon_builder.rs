use std::collections::HashSet;

use generator_core::polygon_builder::PolygonBuilder;
use generator_core::types::{Cell, Edge, Rect, Room};

/// The two edge lists hold the same undirected edges, each once.
fn same_edges(found: &[Edge], expected: &[Edge]) -> bool {
    found.len() == expected.len()
        && expected.iter().all(|e| found.iter().filter(|f| *f == e).count() == 1)
        && found.iter().all(|f| expected.iter().any(|e| e == f))
}

fn vertex_set(cells: Vec<Cell>) -> HashSet<Cell> {
    cells.into_iter().collect()
}

#[test]
fn polygon_builder_polygon_builder_works_for_simple_room() {
    let rect = Rect { origin: Cell { col: 0, row: 0 }, width: 2, height: 2 };

    let room = Room::new_from_rect(rect);

    let (vertices, edges) = PolygonBuilder::build_for(&room);

    assert_eq!(vertices.len(), 8);
    assert_eq!(edges.len(), 8);

    let expected_vertices: HashSet<Cell> = vec![
        Cell { col: 0, row: 0 },
        Cell { col: 1, row: 0 },
        Cell { col: 2, row: 0 },
        Cell { col: 0, row: 1 },
        Cell { col: 0, row: 2 },
        Cell { col: 1, row: 2 },
        Cell { col: 2, row: 2 },
        Cell { col: 2, row: 1 },
    ]
    .into_iter()
    .collect();

    assert_eq!(vertex_set(vertices), expected_vertices);

    let expected_edges = vec![
        Edge::new(Cell { col: 0, row: 0 }, Cell { col: 1, row: 0 }),
        Edge::new(Cell { col: 1, row: 0 }, Cell { col: 2, row: 0 }),
        Edge::new(Cell { col: 0, row: 0 }, Cell { col: 0, row: 1 }),
        Edge::new(Cell { col: 0, row: 1 }, Cell { col: 0, row: 2 }),
        Edge::new(Cell { col: 0, row: 2 }, Cell { col: 1, row: 2 }),
        Edge::new(Cell { col: 1, row: 2 }, Cell { col: 2, row: 2 }),
        Edge::new(Cell { col: 2, row: 0 }, Cell { col: 2, row: 1 }),
        Edge::new(Cell { col: 2, row: 1 }, Cell { col: 2, row: 2 }),
    ];

    assert!(same_edges(&edges, &expected_edges));
}

#[test]
fn polygon_builder_polygon_builder_works_for_complex_room() {
    let rect_1 = Rect { origin: Cell { col: 0, row: 0 }, width: 2, height: 1 };
    let rect_2 = Rect { origin: Cell { col: 2, row: 0 }, width: 2, height: 2 };

    let room_1 = Room::new_from_rect(rect_1);
    let room_2 = Room::new_from_rect(rect_2);
    let room = room_1.merged_with(room_2);

    assert_eq!(room.cells.len(), 6);

    let (vertices, edges) = PolygonBuilder::build_for(&room);

    assert_eq!(vertices.len(), 12);
    assert_eq!(edges.len(), 12);

    let expected_vertices: HashSet<Cell> = complex_vertices();
    assert_eq!(vertex_set(vertices), expected_vertices);

    assert!(same_edges(&edges, &complex_edges()));
}

fn complex_vertices() -> HashSet<Cell> {
    vec![
        Cell { col: 0, row: 0 },
        Cell { col: 1, row: 0 },
        Cell { col: 2, row: 0 },
        Cell { col: 3, row: 0 },
        Cell { col: 4, row: 0 },
        Cell { col: 4, row: 1 },
        Cell { col: 4, row: 2 },
        Cell { col: 3, row: 2 },
        Cell { col: 2, row: 2 },
        Cell { col: 2, row: 1 },
        Cell { col: 1, row: 1 },
        Cell { col: 0, row: 1 },
    ]
    .into_iter()
    .collect()
}

fn complex_edges() -> Vec<Edge> {
    vec![
        Edge::new(Cell { col: 0, row: 0 }, Cell { col: 1, row: 0 }),
        Edge::new(Cell { col: 1, row: 0 }, Cell { col: 2, row: 0 }),
        Edge::new(Cell { col: 2, row: 0 }, Cell { col: 3, row: 0 }),
        Edge::new(Cell { col: 3, row: 0 }, Cell { col: 4, row: 0 }),
        Edge::new(Cell { col: 4, row: 0 }, Cell { col: 4, row: 1 }),
        Edge::new(Cell { col: 4, row: 1 }, Cell { col: 4, row: 2 }),
        Edge::new(Cell { col: 4, row: 2 }, Cell { col: 3, row: 2 }),
        Edge::new(Cell { col: 3, row: 2 }, Cell { col: 2, row: 2 }),
        Edge::new(Cell { col: 2, row: 2 }, Cell { col: 2, row: 1 }),
        Edge::new(Cell { col: 2, row: 1 }, Cell { col: 1, row: 1 }),
        Edge::new(Cell { col: 1, row: 1 }, Cell { col: 0, row: 1 }),
        Edge::new(Cell { col: 0, row: 1 }, Cell { col: 0, row: 0 }),
    ]
}

#[test]
fn algo_polygon_builder_works_for_simple_room() {
    let rect = Rect { origin: Cell { col: 0, row: 0 }, width: 2, height: 2 };

    let room = Room::new_from_rect(rect);

    let (valid_points, valid_edges) = PolygonBuilder::build_for(&room);

    assert_eq!(valid_points.len(), 8);
    assert_eq!(valid_edges.len(), 8);

    let expected_points: HashSet<Cell> = vec![
        Cell { col: 0, row: 0 },
        Cell { col: 1, row: 0 },
        Cell { col: 2, row: 0 },
        Cell { col: 0, row: 1 },
        Cell { col: 0, row: 2 },
        Cell { col: 1, row: 2 },
        Cell { col: 2, row: 2 },
        Cell { col: 2, row: 1 },
    ]
    .into_iter()
    .collect();

    assert_eq!(vertex_set(valid_points), expected_points);

    let expected_edges = vec![
        Edge::new(Cell { col: 0, row: 0 }, Cell { col: 1, row: 0 }),
        Edge::new(Cell { col: 1, row: 0 }, Cell { col: 2, row: 0 }),
        Edge::new(Cell { col: 0, row: 0 }, Cell { col: 0, row: 1 }),
        Edge::new(Cell { col: 0, row: 1 }, Cell { col: 0, row: 2 }),
        Edge::new(Cell { col: 0, row: 2 }, Cell { col: 1, row: 2 }),
        Edge::new(Cell { col: 1, row: 2 }, Cell { col: 2, row: 2 }),
        Edge::new(Cell { col: 2, row: 0 }, Cell { col: 2, row: 1 }),
        Edge::new(Cell { col: 2, row: 1 }, Cell { col: 2, row: 2 }),
    ];

    assert!(same_edges(&valid_edges, &expected_edges));
}

#[test]
fn algo_polygon_builder_works_for_complex_room() {
    let rect_1 = Rect { origin: Cell { col: 0, row: 0 }, width: 2, height: 1 };
    let rect_2 = Rect { origin: Cell { col: 2, row: 0 }, width: 2, height: 2 };

    // the room made of both rectangles
    let room = Room::new_from_rect(rect_1).merged_with(Room::new_from_rect(rect_2));

    let (valid_points, valid_edges) = PolygonBuilder::build_for(&room);

    assert_eq!(valid_points.len(), 12);
    assert_eq!(valid_edges.len(), 12);

    assert_eq!(vertex_set(valid_points), complex_vertices());
    assert!(same_edges(&valid_edges, &complex_edges()));
}

#[test]
fn single_cell_outline() {
    let room = Room::new_from_rect(Rect::new(3, 4, 1, 1));
    let (vertices, edges) = PolygonBuilder::build_for(&room);
    assert_eq!(vertices.len(), 4);
    assert_eq!(edges, Cell::new(3, 4).get_edges());
}

#[test]
fn empty_room_has_no_outline() {
    let room = Room { cells: vec![], modifier: None };
    let (vertices, edges) = PolygonBuilder::build_for(&room);
    assert!(vertices.is_empty());
    assert!(edges.is_empty());
}
