use generator_core::types::{
    Cell, Direction, Door, DoorModifier, Edge, MapStyle, Rect, Room, RoomColor, RoomModifier, SplitAxis,
};

#[test]
fn types_test_try_split_horizontal() {
    let rect1 = Rect { origin: Cell { col: 0, row: 3 }, width: 4, height: 5 };

    let split_result = rect1.try_split_at(SplitAxis::Horizontal, 3);
    assert!(split_result.is_ok());

    let (up, down) = split_result.unwrap();

    assert_eq!(up.origin, Cell { col: 0, row: 3 });
    assert_eq!(up.width, 4);
    assert_eq!(up.height, 3);

    assert_eq!(down.origin, Cell { col: 0, row: 6 });
    assert_eq!(down.width, 4);
    assert_eq!(down.height, 2);
}

#[test]
fn types_test_try_split_vetical() {
    let rect2 = Rect { origin: Cell { col: 4, row: 13 }, width: 17, height: 9 };

    let split_result = rect2.try_split_at(SplitAxis::Vertical, 5);
    assert!(split_result.is_ok());

    let (left, right) = split_result.unwrap();

    assert_eq!(left.origin, Cell { col: 4, row: 13 });
    assert_eq!(left.width, 5);
    assert_eq!(left.height, 9);

    assert_eq!(right.origin, Cell { col: 9, row: 13 });
    assert_eq!(right.width, 12);
    assert_eq!(right.height, 9);
}

#[test]
fn types_test_try_split_fails_with_small_rect() {
    let rect1 = Rect { origin: Cell { col: 1, row: 3 }, width: 2, height: 1 };

    let split_result = rect1.try_split_at(SplitAxis::Horizontal, 1);
    assert!(split_result.is_err());

    let rect2 = Rect { origin: Cell { col: 1, row: 3 }, width: 1, height: 2 };

    let split_result = rect2.try_split_at(SplitAxis::Vertical, 1);
    assert!(split_result.is_err());
}

#[test]
fn types_test_try_split_fails_with_invalid_index() {
    let rect1 = Rect { origin: Cell { col: 1, row: 3 }, width: 5, height: 5 };

    let split_result = rect1.try_split_at(SplitAxis::Horizontal, 6);
    assert!(split_result.is_err());

    let split_result = rect1.try_split_at(SplitAxis::Vertical, 6);
    assert!(split_result.is_err());

    let split_result = rect1.try_split_at(SplitAxis::Horizontal, 0);
    assert!(split_result.is_err());

    let split_result = rect1.try_split_at(SplitAxis::Vertical, 0);
    assert!(split_result.is_err());
}

#[test]
fn types_test_edge_intersects_with() {
    let edge_1 = Edge { from: Cell { col: 2, row: 2 }, to: Cell { col: 4, row: 2 } };

    let edge_2 = Edge { from: Cell { col: 2, row: 2 }, to: Cell { col: 3, row: 2 } };

    assert!(edge_1.intersects_with(&edge_2));
}

#[test]
fn types_test_rect_is_neighour_of() {
    let rect_1 = Rect { origin: Cell { col: 3, row: 1 }, width: 2, height: 1 };

    let rect_2 = Rect { origin: Cell { col: 2, row: 2 }, width: 2, height: 1 };

    assert!(rect_1.is_neighbour_of(&rect_2).is_some());
}

#[test]
fn types_test_room_is_neighbour_of() {
    let rect_1_1 = Rect { origin: Cell { col: 3, row: 1 }, width: 2, height: 1 };
    let rect_1_2 = Rect { origin: Cell { col: 4, row: 0 }, width: 1, height: 1 };

    let room_1 = Room {
        cells: rect_1_1.get_cells().into_iter().chain(rect_1_2.get_cells()).collect(),
        modifier: None,
    };

    let rect_2 = Rect { origin: Cell { col: 2, row: 2 }, width: 2, height: 1 };

    let room_2 = Room { cells: rect_2.get_cells(), modifier: None };

    assert!(room_1.is_neighbour_of(&room_2));
}

#[test]
fn split_halves_cover_the_rectangle() {
    let rect = Rect { origin: Cell { col: 2, row: 1 }, width: 6, height: 4 };
    let (a, b) = rect.try_split_at(SplitAxis::Vertical, 2).unwrap();
    assert_eq!(a.area() + b.area(), rect.area());
    let mut cells = a.get_cells();
    cells.extend(b.get_cells());
    cells.sort();
    let mut all = rect.get_cells();
    all.sort();
    assert_eq!(cells, all);
    assert!(a.is_neighbour_of(&b).is_some());
    assert!(b.is_neighbour_of(&a).is_some());
}

#[test]
fn split_error_reports_the_side_and_position() {
    let rect = Rect { origin: Cell { col: 0, row: 0 }, width: 3, height: 7 };
    let err = rect.try_split_at(SplitAxis::Horizontal, 7).unwrap_err();
    assert_eq!(err.size, 7);
    assert_eq!(err.at, 7);
    let err = rect.try_split_at(SplitAxis::Vertical, 0).unwrap_err();
    assert_eq!(err.size, 3);
    assert_eq!(err.at, 0);
}

#[test]
fn direction_reverse_is_an_involution() {
    for d in [Direction::North, Direction::South, Direction::East, Direction::West] {
        assert_eq!(d.reverse().reverse(), d);
        assert_ne!(d.reverse(), d);
        assert_eq!(d.reverse().is_horizontal(), d.is_horizontal());
    }
    assert_eq!(Direction::North.reverse(), Direction::South);
    assert_eq!(Direction::East.reverse(), Direction::West);
    assert!(Direction::East.is_horizontal());
    assert!(!Direction::North.is_horizontal());
}

#[test]
fn cell_neighbours_see_each_other_in_opposite_directions() {
    let a = Cell::new(3, 3);
    let b = Cell::new(4, 3);
    assert_eq!(a.is_neighbour_of(&b), Some(Direction::East));
    assert_eq!(b.is_neighbour_of(&a), Some(Direction::West));
    let c = Cell::new(3, 2);
    assert_eq!(a.is_neighbour_of(&c), Some(Direction::North));
    assert_eq!(c.is_neighbour_of(&a), Some(Direction::South));
    assert_eq!(a.is_neighbour_of(&Cell::new(4, 4)), None);
    assert_eq!(a.is_neighbour_of(&a), None);
    assert_eq!(Cell::new(0, 0).is_neighbour_of(&Cell::new(0, 1)), Some(Direction::South));
}

#[test]
fn cell_geometry() {
    let c = Cell::new(2, 5);
    assert_eq!(c.offset_by(3), Cell::new(5, 8));
    assert_eq!(c.offset_by_two(1, 4), Cell::new(3, 9));
    assert_eq!(c.stretched_by(3), Cell::new(6, 15));
    assert_eq!(c.distance(&Cell::new(7, 1)), 9);
    assert_eq!(Cell::new(7, 1).distance(&c), 9);
    assert_eq!(
        c.get_vertices(),
        vec![Cell::new(2, 5), Cell::new(2, 6), Cell::new(3, 6), Cell::new(3, 5)]
    );
    let edges = c.get_edges();
    assert_eq!(edges.len(), 4);
    assert!(edges[0] == Edge::new(Cell::new(2, 5), Cell::new(3, 5)));
    assert!(edges[3] == Edge::new(Cell::new(2, 6), Cell::new(2, 5)));
    assert_eq!(c.neighbours(), vec![Cell::new(3, 5), Cell::new(2, 6), Cell::new(1, 5), Cell::new(2, 4)]);
    assert_eq!(Cell::new(0, 0).neighbours(), vec![Cell::new(1, 0), Cell::new(0, 1)]);
}

#[test]
fn edges_are_undirected() {
    let a = Edge::new(Cell::new(1, 1), Cell::new(1, 3));
    let b = Edge::new(Cell::new(1, 3), Cell::new(1, 1));
    assert!(a == b);
    assert!(b == a);
    assert!(a.intersects_with(&b));
    let c = Edge::new(Cell::new(1, 3), Cell::new(1, 5));
    assert!(!a.intersects_with(&c));
    assert!(!c.intersects_with(&a));
    let d = Edge::new(Cell::new(1, 2), Cell::new(1, 5));
    assert!(a.intersects_with(&d));
    assert!(d.intersects_with(&a));
    let e = Edge::new(Cell::new(2, 1), Cell::new(2, 3));
    assert!(!a.intersects_with(&e));
}

#[test]
fn rect_cells_edges_and_area() {
    let r = Rect::new(1, 2, 3, 2);
    assert_eq!(r.area(), 6);
    assert_eq!(
        r.get_cells(),
        vec![Cell::new(1, 2), Cell::new(2, 2), Cell::new(3, 2), Cell::new(1, 3), Cell::new(2, 3), Cell::new(3, 3)]
    );
    assert_eq!(r.into_cells(), r.get_cells());
    assert!(r.get_edge(Direction::North) == Edge::new(Cell::new(1, 2), Cell::new(4, 2)));
    assert!(r.get_edge(Direction::South) == Edge::new(Cell::new(1, 4), Cell::new(4, 4)));
    assert!(r.get_edge(Direction::West) == Edge::new(Cell::new(1, 2), Cell::new(1, 4)));
    assert!(r.get_edge(Direction::East) == Edge::new(Cell::new(4, 2), Cell::new(4, 4)));
}

#[test]
fn rect_neighbours_in_opposite_directions() {
    let a = Rect::new(0, 0, 2, 2);
    let b = Rect::new(2, 1, 2, 2);
    assert_eq!(a.is_neighbour_of(&b), Some(Direction::East));
    assert_eq!(b.is_neighbour_of(&a), Some(Direction::West));
    let c = Rect::new(0, 2, 1, 1);
    assert_eq!(a.is_neighbour_of(&c), Some(Direction::South));
    assert_eq!(c.is_neighbour_of(&a), Some(Direction::North));
    // touching only at a corner is no neighbourhood
    let d = Rect::new(2, 2, 1, 1);
    assert_eq!(a.is_neighbour_of(&d), None);
    assert_eq!(d.is_neighbour_of(&a), None);
    assert_eq!(a.is_neighbour_of(&a), None);
}

#[test]
fn rooms_merge_and_touch() {
    let a = Room::new_from_rect(Rect::new(0, 0, 2, 1));
    let b = Room::new_from_rect(Rect::new(1, 0, 2, 1));
    assert_eq!(a.modifier, None);
    assert!(a.is_neighbour_of(&b));
    assert!(b.is_neighbour_of(&a));
    assert!(!a.is_neighbour_of(&a.clone()));
    let merged = a.clone().merged_with(b.clone());
    assert_eq!(merged.cells, vec![Cell::new(0, 0), Cell::new(1, 0), Cell::new(2, 0)]);
    let far = Room::new_from_rect(Rect::new(5, 5, 1, 1));
    assert!(!a.is_neighbour_of(&far));
    assert_eq!(a.get_neighbouring_cells_for(&far), None);
}

#[test]
fn neighbouring_cells_follow_the_neighbourhood() {
    let a = Room::new_from_rect(Rect::new(0, 0, 2, 1));
    let b = Room::new_from_rect(Rect::new(0, 1, 2, 1));
    let pairs = a.get_neighbouring_cells_for(&b).unwrap();
    assert_eq!(
        pairs,
        vec![
            (Cell::new(0, 0), Cell::new(0, 1), Direction::South),
            (Cell::new(1, 0), Cell::new(1, 1), Direction::South),
        ]
    );
    assert_eq!(a.get_neighbouring_cells_for(&a.clone()), None);
    assert_eq!(a.is_neighbour_of(&b), a.get_neighbouring_cells_for(&b).is_some());
}

#[test]
fn map_style_names() {
    assert_eq!(MapStyle::try_from_str("castlevania-sotn"), Ok(MapStyle::CastlevaniaSOTN));
    assert_eq!(MapStyle::try_from_str("castlevania-aos"), Ok(MapStyle::CastlevaniaAOS));
    assert_eq!(MapStyle::try_from_str("castlevania-cotm"), Ok(MapStyle::CastlevaniaCOTM));
    assert_eq!(MapStyle::try_from_str("castlevania-hod"), Ok(MapStyle::CastlevaniaHOD));
    assert_eq!(MapStyle::try_from_str("metroid-zm"), Ok(MapStyle::MetroidZM));
    assert_eq!(MapStyle::try_from_str("metroid-fs"), Ok(MapStyle::MetroidFS));
    assert_eq!(MapStyle::try_from_str("metroid-sp"), Ok(MapStyle::MetroidSP));
    let err = MapStyle::try_from_str("zelda").unwrap_err();
    assert_eq!(err.name, "zelda");
    assert!(MapStyle::try_from_str("Metroid-ZM").is_err());
    assert_eq!(MapStyle::default(), MapStyle::CastlevaniaSOTN);
}

#[test]
fn colours_and_doors() {
    assert_eq!(DoorModifier::Open.color(), "purple");
    assert_eq!(DoorModifier::Unmarked.color(), "purple");
    assert_eq!(DoorModifier::Secret.color(), "red");
    assert_eq!(DoorModifier::Locked.color(), "blue");
    assert_eq!(RoomColor::Green.to_string(), "green");
    assert_eq!(RoomColor::Yellow.to_string(), "yellow");
    assert_eq!(RoomColor::default(), RoomColor::Purple);
    assert_eq!(RoomModifier::default(), RoomModifier::Plain);
    let door = Door::new(Cell::new(1, 1), Cell::new(2, 1));
    assert_eq!(door.modifier, DoorModifier::Open);
    assert_eq!(door.from, Cell::new(1, 1));
    assert_eq!(door.to, Cell::new(2, 1));
}

#[test]
fn rect_area_counts_its_cells() {
    for (w, h) in [(1u32, 1u32), (3, 2), (5, 7), (1, 9)] {
        let r = Rect::new(4, 6, w, h);
        assert_eq!(r.get_cells().len() as u32, r.area());
        assert_eq!(r.area(), w * h);
    }
    let r = Rect::new(0, 0, 6, 4);
    let (a, b) = r.try_split_at(SplitAxis::Vertical, 2).unwrap();
    assert_eq!(a.area() + b.area(), r.area());
    let (c, d) = r.try_split_at(SplitAxis::Horizontal, 3).unwrap();
    assert_eq!(c.area() + d.area(), r.area());
}

#[test]
fn rect_neighbours_match_their_cells() {
    let a = Rect::new(3, 3, 2, 3);
    let mut others = Vec::new();
    for col in 0..8u32 {
        for row in 0..8u32 {
            for (w, h) in [(1u32, 1u32), (2, 1), (1, 2), (3, 2)] {
                let b = Rect::new(col, row, w, h);
                let a_cells = a.get_cells();
                let b_cells = b.get_cells();
                if a_cells.iter().any(|x| b_cells.contains(x)) {
                    continue;
                }
                others.push(b);
            }
        }
    }
    assert!(!others.is_empty());
    for b in others {
        let a_cells = a.get_cells();
        let b_cells = b.get_cells();
        let touching: Vec<Direction> = a_cells
            .iter()
            .flat_map(|x| b_cells.iter().filter_map(move |y| x.is_neighbour_of(y)))
            .collect();
        match a.is_neighbour_of(&b) {
            Some(d) => {
                assert!(touching.contains(&d));
                assert_eq!(b.is_neighbour_of(&a), Some(d.reverse()));
            }
            None => {
                assert!(touching.is_empty());
                assert_eq!(b.is_neighbour_of(&a), None);
            }
        }
    }
}
