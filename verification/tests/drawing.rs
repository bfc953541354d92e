use generator_core::drawing::{
    create_map, door_segment, draw_region_connector, draw_room, route_points, to_canvas, walk_outline,
    CastlevaniaMapDrawer, Colour, DrawConfig, MapDrawer, MapDrawerFactory, MetroidMapDrawer, Shape,
};
use generator_core::types::{Cell, Direction, Door, GeneratedMap, MapStyle, Rect, Room, RoomModifier};

fn c(col: u32, row: u32) -> Cell {
    Cell::new(col, row)
}

#[test]
fn outline_walk_goes_round_a_square_room() {
    let room = Room::new_from_rect(Rect::new(0, 0, 2, 2));
    let walk = walk_outline(&room);
    assert_eq!(walk.len(), 8);
    for pair in walk.windows(2) {
        assert!(pair[0].is_neighbour_of(&pair[1]).is_some());
    }
    // the walk closes: its ends are neighbours too
    assert!(walk[7].is_neighbour_of(&walk[0]).is_some());
    let mut sorted = walk.clone();
    sorted.sort();
    sorted.dedup();
    assert_eq!(sorted.len(), 8);
    assert!(!walk.contains(&c(1, 1)));
}

#[test]
fn outline_of_an_l_shaped_room() {
    let room = Room::new_from_rect(Rect::new(0, 0, 2, 1)).merged_with(Room::new_from_rect(Rect::new(2, 0, 2, 2)));
    let walk = walk_outline(&room);
    assert_eq!(walk.len(), 12);
    assert!(walk[11].is_neighbour_of(&walk[0]).is_some());
}

#[test]
fn empty_room_has_no_walk() {
    let room = Room { cells: vec![], modifier: None };
    assert!(walk_outline(&room).is_empty());
    assert_eq!(draw_room(&room, 0, 0, Colour::Red, Colour::Yellow), None);
}

#[test]
fn canvas_points() {
    assert_eq!(to_canvas(c(2, 3), 10, 20), Some(c(106, 164)));
    assert_eq!(to_canvas(c(u32::MAX, 0), 0, 0), None);
    let walk = vec![c(0, 0), c(1, 0), c(1, 1)];
    assert_eq!(route_points(&walk, 5, 5), Some(vec![c(53, 53), c(5, 5), c(53, 5), c(53, 53)]));
    assert_eq!(route_points(&vec![], 5, 5), None);
}

#[test]
fn door_lines() {
    // side by side: a vertical line on the shared side
    assert_eq!(door_segment(c(48, 48), c(96, 48), 16), Some((c(96, 64), c(96, 80))));
    assert_eq!(door_segment(c(96, 48), c(48, 48), 16), Some((c(96, 64), c(96, 80))));
    // one above the other: a horizontal line
    assert_eq!(door_segment(c(48, 48), c(48, 96), 6), Some((c(54, 96), c(90, 96))));
    // the same cell, or cells apart on both axes: no line
    assert_eq!(door_segment(c(48, 48), c(48, 48), 16), None);
    assert_eq!(door_segment(c(48, 48), c(96, 96), 16), None);
}

#[test]
fn room_shape_is_a_closed_outline() {
    let room = Room::new_from_rect(Rect::new(1, 1, 1, 1));
    match draw_room(&room, 48, 48, Colour::LightBlue, Colour::LightGray) {
        Some(Shape::Path { points, closed, fill, stroke, stroke_width }) => {
            assert_eq!(points.len(), 5);
            assert_eq!(points[0], points[4]);
            assert!(closed);
            assert_eq!(fill, Some(Colour::LightBlue));
            assert_eq!(stroke, Some(Colour::LightGray));
            assert_eq!(stroke_width, 12);
            for p in &points {
                assert!(p.col == 96 || p.col == 144);
                assert!(p.row == 96 || p.row == 144);
            }
        }
        other => panic!("unexpected shape {:?}", other),
    }
}

#[test]
fn region_connector_leaving_east() {
    let room = Room { cells: vec![c(0, 0), c(1, 0)], modifier: Some(RoomModifier::RegionConnection(Direction::East)) };
    let (passage, door, arrow) =
        draw_region_connector(&room, Direction::East, 192, 192, Colour::LightBlue, Colour::LightGray, Colour::LightBlue).unwrap();
    // the passage is drawn in the cell beyond (2, 0), at canvas (288, 192)
    match passage {
        Shape::Path { points, closed, fill, .. } => {
            assert_eq!(
                points,
                vec![c(336, 204), c(312, 204), c(312, 192), c(288, 192), c(288, 240), c(312, 240), c(312, 228), c(336, 228)]
            );
            assert!(!closed);
            assert_eq!(fill, Some(Colour::LightBlue));
        }
        other => panic!("unexpected shape {:?}", other),
    }
    match arrow {
        Shape::Polygon { points, fill } => {
            assert_eq!(points, vec![c(344, 200), c(344, 232), c(360, 216)]);
            assert_eq!(fill, Colour::LightGray);
        }
        other => panic!("unexpected shape {:?}", other),
    }
    match door {
        Shape::Path { points, stroke_width, .. } => {
            assert_eq!(points, vec![c(288, 208), c(288, 224)]);
            assert_eq!(stroke_width, 20);
        }
        other => panic!("unexpected shape {:?}", other),
    }
}

#[test]
fn region_connector_needs_a_cell_beyond() {
    let room = Room { cells: vec![c(0, 0)], modifier: Some(RoomModifier::RegionConnection(Direction::North)) };
    assert_eq!(
        draw_region_connector(&room, Direction::North, 192, 192, Colour::LightBlue, Colour::LightGray, Colour::LightBlue),
        None
    );
    let empty = Room { cells: vec![], modifier: None };
    assert_eq!(
        draw_region_connector(&empty, Direction::South, 192, 192, Colour::LightBlue, Colour::LightGray, Colour::LightBlue),
        None
    );
}

#[test]
fn drawers_by_style() {
    assert_eq!(
        MapDrawerFactory::create_drawer(MapStyle::CastlevaniaAOS),
        MapDrawer::Castlevania(CastlevaniaMapDrawer::CastlevaniaAOS)
    );
    assert_eq!(MapDrawerFactory::create_drawer(MapStyle::MetroidFS), MapDrawer::Metroid(MetroidMapDrawer::Fusion));
    assert_eq!(Colour::LightBlue.hex(), "#0080ff");
    assert_eq!(Colour::Red.hex(), "#f80000");
}

fn small_map() -> GeneratedMap {
    let mut save = Room::new_from_rect(Rect::new(0, 0, 1, 1));
    save.modifier = Some(RoomModifier::Save);
    GeneratedMap {
        origin_rect: Rect::new(0, 0, 3, 1),
        rooms: vec![save, Room::new_from_rect(Rect::new(1, 0, 2, 1))],
        doors: vec![Door::new(c(0, 0), c(1, 0))],
    }
}

#[test]
fn castlevania_drawing() {
    let config = DrawConfig { canvas_width: 3, canvas_height: 1 };
    let scene = CastlevaniaMapDrawer::CastlevaniaSOTN.draw(&vec![small_map()], &config);
    assert_eq!(scene.width, 3 * 48 + 96);
    assert_eq!(scene.height, 48 + 96);
    // two outlines, one door, one save marker
    assert_eq!(scene.shapes.len(), 4);
    match &scene.shapes[2] {
        Shape::Path { points, fill, stroke, stroke_width, .. } => {
            assert_eq!(points, &vec![c(96, 64), c(96, 80)]);
            assert_eq!(*fill, None);
            assert_eq!(*stroke, Some(Colour::LightBlue));
            assert_eq!(*stroke_width, 20);
        }
        other => panic!("unexpected shape {:?}", other),
    }
    assert_eq!(
        scene.shapes[3],
        Shape::Rectangle { corner: c(54, 54), width: 36, height: 36, fill: Colour::Red }
    );
    let aos = CastlevaniaMapDrawer::CastlevaniaAOS.draw(&vec![small_map()], &config);
    match &aos.shapes[2] {
        Shape::Path { points, stroke, stroke_width, .. } => {
            assert_eq!(points, &vec![c(96, 54), c(96, 90)]);
            assert_eq!(*stroke, Some(Colour::CyanBlue));
            assert_eq!(*stroke_width, 12);
        }
        other => panic!("unexpected shape {:?}", other),
    }
}

#[test]
fn metroid_drawing_lays_regions_out() {
    let left = small_map();
    let mut right = small_map();
    right.origin_rect = Rect::new(3, 0, 3, 1);
    let config = DrawConfig { canvas_width: 6, canvas_height: 1 };
    let scene = MetroidMapDrawer::ZeroMission.draw(&vec![left, right], &config);
    assert_eq!(scene.width, 6 * 48 + 2 * 384);
    assert_eq!(scene.height, 48 + 384);
    assert_eq!(scene.shapes.len(), 6);
    let empty = MetroidMapDrawer::Super.draw(&vec![], &config);
    assert_eq!(empty.width, 6 * 48 + 384);
    assert!(empty.shapes.is_empty());
}

#[test]
fn create_map_draws_on_the_grid_canvas() {
    let scene = create_map(30, 20, MapStyle::CastlevaniaSOTN).unwrap();
    assert_eq!(scene.width, 30 * 48 + 96);
    assert_eq!(scene.height, 20 * 48 + 96);
    let tiny = create_map(3, 3, MapStyle::CastlevaniaHOD).unwrap();
    assert!(tiny.shapes.is_empty());
    let metroid = create_map(40, 30, MapStyle::MetroidZM).unwrap();
    assert!(metroid.width >= 40 * 48 + 384);
}
