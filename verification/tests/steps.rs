use std::collections::HashMap;

use generator_core::add_doors::door_modifier_from_roll;
use generator_core::builder_config::MapBuilderConfig;
use generator_core::centers::Vector2;
use generator_core::map_builder::MapBuilder;
use generator_core::map_region::MapRegion;
use generator_core::rng::{chance, CHANCE_SCALE};
use generator_core::room_decorator::{RoomDecorator, RoomDecoratorFactory};
use generator_core::types::{
    Cell, Direction, DoorModifier, GeneratedMap, MapStyle, Rect, Room, RoomModifier,
};
use tinyset::SetUsize;

fn set(ids: &[usize]) -> SetUsize {
    ids.iter().copied().collect()
}

/// A row of `n` one-cell active rooms starting at `col0`, each next to the next.
fn row_region(col0: u32, n: usize) -> MapRegion {
    let mut rooms = HashMap::new();
    let mut neighbours = HashMap::new();
    for i in 0..n {
        rooms.insert(i, Room::new_from_rect(Rect::new(col0 + i as u32, 0, 1, 1)));
        let mut ids = vec![];
        if i > 0 {
            ids.push(i - 1);
        }
        if i + 1 < n {
            ids.push(i + 1);
        }
        neighbours.insert(i, set(&ids));
    }
    MapRegion::new(Rect::new(col0, 0, n as u32, 1), rooms, HashMap::new(), neighbours)
}

/// One active room of `len` cells in a row.
fn long_room_region(len: u32) -> MapRegion {
    let mut rooms = HashMap::new();
    rooms.insert(0, Room::new_from_rect(Rect::new(0, 0, len, 1)));
    let mut neighbours = HashMap::new();
    neighbours.insert(0, set(&[]));
    MapRegion::new(Rect::new(0, 0, len, 1), rooms, HashMap::new(), neighbours)
}

#[test]
fn door_modifier_rolls() {
    assert_eq!(door_modifier_from_roll(0), DoorModifier::Locked);
    assert_eq!(door_modifier_from_roll(1), DoorModifier::Secret);
    assert_eq!(door_modifier_from_roll(5), DoorModifier::Secret);
    assert_eq!(door_modifier_from_roll(6), DoorModifier::Unmarked);
    assert_eq!(door_modifier_from_roll(9), DoorModifier::Unmarked);
    assert_eq!(door_modifier_from_roll(10), DoorModifier::Open);
    assert_eq!(door_modifier_from_roll(99), DoorModifier::Open);
}

#[test]
fn doors_join_neighbouring_rooms() {
    let region = row_region(0, 4);
    let config = MapBuilderConfig::default();
    let doors = MapBuilder::generate_doors_for(&region, &config);
    // a walk over a chain reaches every room, each once
    assert!(doors.len() >= 3);
    for door in &doors {
        assert_eq!(door.from.row, 0);
        assert_eq!(door.to.row, 0);
        assert!(door.from.is_neighbour_of(&door.to).is_some());
    }
}

#[test]
fn chance_extremes() {
    for _ in 0..50 {
        assert!(!chance(0));
        assert!(chance(CHANCE_SCALE));
    }
}

#[test]
fn centers_and_distances() {
    let room = Room::new_from_rect(Rect::new(1, 2, 2, 1));
    // cells (1,2) and (2,2): mean column 1.5, row 2
    assert_eq!(room.get_center(), Vector2::new(150, 200));
    let empty = Room { cells: vec![], modifier: None };
    assert_eq!(empty.get_center(), Vector2::new(0, 0));
    let a = Vector2::new(100, 200);
    let b = Vector2::new(400, 600);
    assert_eq!(a.distance(&b), 250000);
    assert_eq!(b.distance(&a), 250000);
    assert_eq!(a.distance(&a), 0);
}

#[test]
fn bisecting_always_cuts_long_rooms_in_three() {
    let mut region = long_room_region(7);
    MapBuilder::bisect_long_horizontal_rooms(&mut region, CHANCE_SCALE);
    let active = region.iter_active();
    assert_eq!(active.len(), 3);
    let mut cells: Vec<Cell> = active.iter().flat_map(|(_, r)| r.cells.clone()).collect();
    cells.sort();
    assert_eq!(cells, Rect::new(0, 0, 7, 1).get_cells());
    // the middle room is a single cell, never at either end
    let middle: Vec<&Room> = active.iter().map(|(_, r)| *r).filter(|r| r.cells.len() == 1).collect();
    assert!(!middle.is_empty());
    assert!(region.iter_active().iter().all(|(_, r)| !r.cells.is_empty()));
}

#[test]
fn bisecting_never_cuts_short_rooms() {
    let mut region = long_room_region(4);
    MapBuilder::bisect_long_horizontal_rooms(&mut region, CHANCE_SCALE);
    assert_eq!(region.iter_active().len(), 1);
    let mut never = long_room_region(9);
    MapBuilder::bisect_long_horizontal_rooms(&mut never, 0);
    assert_eq!(never.iter_active().len(), 1);
}

#[test]
fn repeated_small_merges() {
    let mut region = row_region(0, 6);
    MapBuilder::merge_repeated_simple_rooms(&mut region, 1, CHANCE_SCALE);
    let active = region.iter_active();
    assert!(active.len() < 6);
    let total: usize = active.iter().map(|(_, r)| r.cells.len()).sum();
    assert_eq!(total, 6);
    let mut untouched = row_region(0, 6);
    MapBuilder::merge_repeated_simple_rooms(&mut untouched, 1, 0);
    assert_eq!(untouched.iter_active().len(), 6);
}

#[test]
fn decorators_by_style() {
    assert_eq!(RoomDecoratorFactory::decorator_for(MapStyle::CastlevaniaSOTN), RoomDecorator::Castlevania);
    assert_eq!(RoomDecoratorFactory::decorator_for(MapStyle::CastlevaniaHOD), RoomDecorator::Castlevania);
    assert_eq!(RoomDecoratorFactory::decorator_for(MapStyle::MetroidZM), RoomDecorator::ZeroMission);
    assert_eq!(RoomDecoratorFactory::decorator_for(MapStyle::MetroidFS), RoomDecorator::Fusion);
    assert_eq!(RoomDecoratorFactory::decorator_for(MapStyle::MetroidSP), RoomDecorator::SuperMetroid);
}

#[test]
fn decoration_changes_only_single_cell_rooms() {
    let mut rooms = HashMap::new();
    rooms.insert(0, Room::new_from_rect(Rect::new(0, 0, 1, 1)));
    rooms.insert(1, Room::new_from_rect(Rect::new(1, 0, 3, 1)));
    let mut neighbours = HashMap::new();
    neighbours.insert(0, set(&[1]));
    neighbours.insert(1, set(&[0]));
    let mut region = MapRegion::new(Rect::new(0, 0, 4, 1), rooms, HashMap::new(), neighbours);
    let config = MapBuilderConfig::default();
    let doors = MapBuilder::generate_doors_for(&region, &config);
    RoomDecoratorFactory::decorator_for(MapStyle::MetroidZM).decorate(&mut region, &doors, &config);
    assert_eq!(region.get_room(1).modifier, None);
    assert_eq!(region.get_room(1).cells, Rect::new(1, 0, 3, 1).get_cells());
    assert_eq!(region.get_room(0).cells, vec![Cell::new(0, 0)]);
}

#[test]
fn merging_regions_appends_their_slots() {
    let left = row_region(0, 2);
    let right = row_region(2, 3);
    assert_eq!(MapBuilder::generate_group_offsets(&vec![left.clone(), right.clone()]), vec![0, 2]);
    assert_eq!(MapBuilder::compute_neighbouring_regions(&vec![left.clone(), right.clone()]), vec![(0, 1)]);
    let merged = MapBuilder::merge_regions(Rect::new(0, 0, 5, 1), vec![left, right]);
    assert_eq!(merged.room_slots(), 5);
    assert_eq!(merged.origin_rect(), Rect::new(0, 0, 5, 1));
    for id in 0..5 {
        assert!(merged.is_active(id));
    }
    // the touching rooms of the two regions become neighbours
    assert!(merged.iter_neighbours(1).contains(&2));
    assert!(merged.iter_neighbours(2).contains(&1));
}

#[test]
fn connecting_regions_marks_facing_rooms() {
    let left = GeneratedMap {
        origin_rect: Rect::new(0, 0, 2, 1),
        rooms: vec![Room::new_from_rect(Rect::new(0, 0, 1, 1)), Room::new_from_rect(Rect::new(1, 0, 1, 1))],
        doors: vec![],
    };
    let right = GeneratedMap {
        origin_rect: Rect::new(2, 0, 2, 1),
        rooms: vec![Room::new_from_rect(Rect::new(2, 0, 1, 1)), Room::new_from_rect(Rect::new(3, 0, 1, 1))],
        doors: vec![],
    };
    let mut maps = vec![left, right];
    MapBuilder::connect_regions(&mut maps);
    assert_eq!(maps[0].rooms[1].modifier, Some(RoomModifier::RegionConnection(Direction::East)));
    assert_eq!(maps[1].rooms[0].modifier, Some(RoomModifier::RegionConnection(Direction::West)));
    assert_eq!(maps[0].rooms[0].modifier, None);
    assert_eq!(maps[1].rooms[1].modifier, None);
    let mut none: Vec<GeneratedMap> = vec![];
    MapBuilder::connect_regions(&mut none);
    assert!(none.is_empty());
}

#[test]
fn style_configs() {
    let default = MapBuilderConfig::default();
    assert!(default.merge_regions);
    assert_eq!(default.random_room_merge_prob, 500);
    for style in [
        MapStyle::CastlevaniaSOTN,
        MapStyle::CastlevaniaAOS,
        MapStyle::CastlevaniaCOTM,
        MapStyle::CastlevaniaHOD,
        MapStyle::MetroidZM,
        MapStyle::MetroidFS,
        MapStyle::MetroidSP,
    ] {
        let c = MapBuilderConfig::from_style(style);
        assert!(c.bisect_room_prob <= CHANCE_SCALE);
        assert!(c.bsp_config.region_split_factor > 0);
    }
}

#[test]
fn closest_groups_pair_each_group_with_its_nearest() {
    let centers = vec![Vector2::new(0, 0), Vector2::new(1000, 0), Vector2::new(100, 0)];
    // without loops: group 0 takes group 2, group 1 takes group 2, group 2 has no one left
    assert_eq!(MapBuilder::generate_closest_groups(&centers, 0), vec![(0, 2), (1, 2)]);
    // with loops always on: group 0 also takes group 1, the nearest met before group 2
    assert_eq!(MapBuilder::generate_closest_groups(&centers, CHANCE_SCALE), vec![(0, 2), (0, 1), (1, 2)]);
    let line = vec![Vector2::new(0, 0), Vector2::new(100, 0), Vector2::new(1000, 0)];
    assert_eq!(MapBuilder::generate_closest_groups(&line, 0), vec![(0, 1), (1, 2), (2, 0)]);
    assert!(MapBuilder::generate_closest_groups(&vec![Vector2::new(5, 5)], 0).is_empty());
}

#[test]
fn link_closest_rooms_marks_the_nearest_edge_pair() {
    // the left map is two columns wide and two rows high, the right map one column
    let left = GeneratedMap {
        origin_rect: Rect::new(0, 0, 2, 2),
        rooms: vec![
            Room::new_from_rect(Rect::new(0, 0, 1, 1)),
            Room::new_from_rect(Rect::new(1, 0, 1, 1)),
            Room::new_from_rect(Rect::new(0, 1, 2, 1)),
        ],
        doors: vec![],
    };
    let right = GeneratedMap {
        origin_rect: Rect::new(2, 0, 1, 2),
        rooms: vec![Room::new_from_rect(Rect::new(2, 1, 1, 1)), Room::new_from_rect(Rect::new(2, 0, 1, 1))],
        doors: vec![],
    };
    let mut maps = vec![left, right];
    MapBuilder::link_closest_rooms(0, 1, &mut maps);
    // room 0 of the left map has a room east of it, so it is no candidate;
    // room 1 (at (1, 0)) and right room 1 (at (2, 0)) are the nearest pair
    assert_eq!(maps[0].rooms[1].modifier, Some(RoomModifier::RegionConnection(Direction::East)));
    assert_eq!(maps[1].rooms[1].modifier, Some(RoomModifier::RegionConnection(Direction::West)));
    assert_eq!(maps[0].rooms[0].modifier, None);
    assert_eq!(maps[0].rooms[2].modifier, None);
    assert_eq!(maps[1].rooms[0].modifier, None);
    // with no room at all in one map, the first room of the other is marked
    let empty = GeneratedMap { origin_rect: Rect::new(0, 2, 3, 1), rooms: vec![], doors: vec![] };
    let mut pair = vec![maps[1].clone(), empty];
    pair[0].rooms[0].modifier = None;
    pair[0].rooms[1].modifier = None;
    MapBuilder::link_closest_rooms(0, 1, &mut pair);
    assert_eq!(pair[0].rooms[0].modifier, Some(RoomModifier::RegionConnection(Direction::South)));
    assert_eq!(pair[0].rooms[1].modifier, None);
}

#[test]
fn connecting_regions_reaches_every_adjacent_map_from_the_first() {
    let map = |col: u32, row: u32| GeneratedMap {
        origin_rect: Rect::new(col, row, 1, 1),
        rooms: vec![Room::new_from_rect(Rect::new(col, row, 1, 1))],
        doors: vec![],
    };
    // three maps in a column, and one far away
    let mut maps = vec![map(0, 0), map(0, 1), map(0, 2), map(5, 5)];
    MapBuilder::connect_regions(&mut maps);
    for k in 0..3 {
        assert!(matches!(maps[k].rooms[0].modifier, Some(RoomModifier::RegionConnection(_))));
    }
    assert_eq!(maps[2].rooms[0].modifier, Some(RoomModifier::RegionConnection(Direction::North)));
    assert_eq!(maps[3].rooms[0].modifier, None);
}

#[test]
fn decoration_keeps_save_and_navigation_rooms_apart() {
    // a long row of single-cell rooms with no doors: every room is rolled for
    for round in 0..20 {
        let mut region = row_region(0, 40);
        let config = MapBuilderConfig::default();
        let style = if round % 2 == 0 { MapStyle::CastlevaniaSOTN } else { MapStyle::MetroidFS };
        RoomDecoratorFactory::decorator_for(style).decorate(&mut region, &[], &config);
        for kind in [RoomModifier::Save, RoomModifier::Navigation] {
            let cols: Vec<u32> = (0..40)
                .filter(|&i| region.get_room(i).modifier == Some(kind))
                .map(|i| region.get_room(i).cells[0].col)
                .collect();
            for a in 0..cols.len() {
                for b in (a + 1)..cols.len() {
                    assert!(cols[b] - cols[a] >= 8);
                }
            }
        }
        for i in 0..40 {
            let m = region.get_room(i).modifier;
            if round % 2 == 0 {
                assert_ne!(m, Some(RoomModifier::Item));
            }
        }
    }
}

#[test]
fn doors_reach_every_room_of_a_chain() {
    for _ in 0..20 {
        let region = row_region(0, 6);
        let config = MapBuilderConfig::default();
        let doors = MapBuilder::generate_doors_for(&region, &config);
        // rooms are one cell each, at column i; doors link rooms
        let mut links: Vec<(u32, u32)> = doors.iter().map(|d| (d.from.col, d.to.col)).collect();
        links.sort();
        let mut reached = vec![false; 6];
        // some room reaches every other through doors
        let mut any_start = false;
        for start in 0..6u32 {
            reached.iter_mut().for_each(|r| *r = false);
            reached[start as usize] = true;
            let mut changed = true;
            while changed {
                changed = false;
                for &(a, b) in &links {
                    if reached[a as usize] && !reached[b as usize] {
                        reached[b as usize] = true;
                        changed = true;
                    }
                }
            }
            if reached.iter().all(|r| *r) {
                any_start = true;
            }
        }
        assert!(any_start);
    }
}

#[test]
fn doors_lie_side_by_side_where_rooms_touch_side_by_side() {
    for _ in 0..30 {
        // an L of three cells and the cell in its corner: they touch side by side
        // at (0,0)-(1,0) and one above the other at (1,1)-(1,0)
        let mut rooms = HashMap::new();
        rooms.insert(0, Room { cells: vec![Cell::new(0, 0), Cell::new(0, 1), Cell::new(1, 1)], modifier: None });
        rooms.insert(1, Room { cells: vec![Cell::new(1, 0)], modifier: None });
        let mut neighbours = HashMap::new();
        neighbours.insert(0, set(&[1]));
        neighbours.insert(1, set(&[0]));
        let region = MapRegion::new(Rect::new(0, 0, 2, 2), rooms, HashMap::new(), neighbours);
        let doors = MapBuilder::generate_doors_for(&region, &MapBuilderConfig::default());
        assert_eq!(doors.len(), 1);
        let d = doors[0];
        assert_eq!(d.from.row, d.to.row);
        let dir = d.from.is_neighbour_of(&d.to).unwrap();
        assert!(dir == Direction::East || dir == Direction::West);
    }
}

#[test]
fn picks_follow_the_rolls() {
    let far = vec![Cell::new(0, 0), Cell::new(20, 0), Cell::new(40, 0), Cell::new(60, 0)];
    let castlevania = RoomDecorator::Castlevania.pick_modifiers(&far, &vec![10, 49, 50, 71]);
    assert_eq!(
        castlevania,
        vec![Some(RoomModifier::Save), Some(RoomModifier::Save), Some(RoomModifier::Navigation), None]
    );
    let metroid = RoomDecorator::ZeroMission.pick_modifiers(&far, &vec![29, 30, 45, 60]);
    assert_eq!(
        metroid,
        vec![Some(RoomModifier::Save), Some(RoomModifier::Navigation), Some(RoomModifier::Item), None]
    );
    // a second save room too close to the first gets nothing
    let near = vec![Cell::new(0, 0), Cell::new(3, 0), Cell::new(8, 0)];
    let spaced = RoomDecorator::Castlevania.pick_modifiers(&near, &vec![0, 0, 0]);
    assert_eq!(spaced, vec![Some(RoomModifier::Save), None, Some(RoomModifier::Save)]);
}

#[test]
fn bisected_pieces_are_linked() {
    let mut rooms = HashMap::new();
    rooms.insert(0, Room::new_from_rect(Rect::new(0, 0, 7, 1)));
    rooms.insert(1, Room::new_from_rect(Rect::new(0, 1, 7, 2)));
    let mut neighbours = HashMap::new();
    neighbours.insert(0, set(&[1]));
    neighbours.insert(1, set(&[0]));
    let mut region = MapRegion::new(Rect::new(0, 0, 7, 3), rooms, HashMap::new(), neighbours);
    MapBuilder::bisect_long_horizontal_rooms(&mut region, CHANCE_SCALE);
    let active = region.iter_active();
    assert_eq!(active.len(), 4);
    let pieces: Vec<usize> = active.iter().filter(|(_, r)| r.cells[0].row == 0).map(|(id, _)| *id).collect();
    assert_eq!(pieces.len(), 3);
    for &p in &pieces {
        // every piece touches the room below and is linked with it both ways
        assert!(region.iter_neighbours(p).contains(&1));
        assert!(region.iter_neighbours(1).contains(&p));
    }
    // the middle piece is the one between the other two
    let mut by_col: Vec<(u32, usize)> =
        pieces.iter().map(|&p| (region.get_room(p).cells.iter().map(|c| c.col).min().unwrap(), p)).collect();
    by_col.sort();
    let middle = vec![by_col[1].1];
    assert_eq!(region.get_room(middle[0]).cells.len(), 1);
    let m = middle[0];
    for &p in &pieces {
        if p != m {
            assert!(region.iter_neighbours(m).contains(&p));
            assert!(region.iter_neighbours(p).contains(&m));
        }
    }
}

#[test]
fn pieces_of_two_cut_neighbours_are_linked() {
    let mut rooms = HashMap::new();
    rooms.insert(0, Room::new_from_rect(Rect::new(0, 0, 7, 1)));
    rooms.insert(1, Room::new_from_rect(Rect::new(0, 1, 7, 1)));
    let mut neighbours = HashMap::new();
    neighbours.insert(0, set(&[1]));
    neighbours.insert(1, set(&[0]));
    let mut region = MapRegion::new(Rect::new(0, 0, 7, 2), rooms, HashMap::new(), neighbours);
    MapBuilder::bisect_long_horizontal_rooms(&mut region, CHANCE_SCALE);
    let active = region.iter_active();
    assert_eq!(active.len(), 6);
    let top: Vec<usize> = active.iter().filter(|(_, r)| r.cells[0].row == 0).map(|(id, _)| *id).collect();
    let bottom: Vec<usize> = active.iter().filter(|(_, r)| r.cells[0].row == 1).map(|(id, _)| *id).collect();
    assert_eq!(top.len(), 3);
    assert_eq!(bottom.len(), 3);
    for &p in &top {
        for &q in &bottom {
            let touch = region.get_room(p).is_neighbour_of(region.get_room(q));
            assert_eq!(region.iter_neighbours(p).contains(&q), touch);
            assert_eq!(region.iter_neighbours(q).contains(&p), touch);
        }
    }
}
