use std::collections::{BTreeSet, HashMap, HashSet};

use generator_core::bsp::{BinarySpacePartitioning, PartSlot, RectModifier, RectRegion, RectTable};
use generator_core::builder_config::{BinarySpacePartitioningConfig, MapBuilderConfig};
use generator_core::map_builder::{MapBuilder, ZeroDimensionError};
use generator_core::map_region::MapRegion;
use generator_core::rng::CHANCE_SCALE;
use generator_core::types::{Cell, GeneratedMap, MapStyle, Rect, Room};
use tinyset::SetUsize;

fn set(ids: &[usize]) -> SetUsize {
    ids.iter().copied().collect()
}

/// +---+---+---+---+---+---+
/// | 0 | 1 | 2 | 3 | 4 | 5 |
/// +---+---+   +---+   +---+
/// | 6 | 7 |   |           |
/// +---+---+---+---+---+---+
/// |   8   |   9   | A | B |
/// +---+---+---+---+   +---+
/// | C |   D   | E |   | F |
/// +---+---+---+---+---+---+
///
/// Active groups: [0, 1, 6], [3, 4], [C, D], [F];
/// removed: [2, 5, 7, 8, 9, A, B, E].
fn test_region() -> MapRegion {
    let origin_rect = Rect::new(0, 0, 6, 4);

    let mut rooms = HashMap::new();
    rooms.insert(0, Room::new_from_rect(Rect::new(0, 0, 1, 1)));
    rooms.insert(1, Room::new_from_rect(Rect::new(1, 0, 1, 1)));
    rooms.insert(6, Room::new_from_rect(Rect::new(0, 1, 1, 1)));

    rooms.insert(3, Room::new_from_rect(Rect::new(3, 0, 1, 1)));
    let room_4_a = Room::new_from_rect(Rect::new(4, 0, 1, 1));
    let room_4_b = Room::new_from_rect(Rect::new(3, 1, 3, 1));
    rooms.insert(4, room_4_a.merged_with(room_4_b));

    rooms.insert(12, Room::new_from_rect(Rect::new(0, 3, 1, 1)));
    rooms.insert(13, Room::new_from_rect(Rect::new(1, 3, 2, 1)));

    rooms.insert(15, Room::new_from_rect(Rect::new(5, 3, 1, 1)));

    let mut removed_rooms = HashMap::new();
    removed_rooms.insert(2, Room::new_from_rect(Rect::new(2, 0, 1, 2)));
    removed_rooms.insert(5, Room::new_from_rect(Rect::new(5, 0, 1, 1)));
    removed_rooms.insert(7, Room::new_from_rect(Rect::new(1, 1, 1, 1)));
    removed_rooms.insert(8, Room::new_from_rect(Rect::new(0, 2, 2, 1)));
    removed_rooms.insert(9, Room::new_from_rect(Rect::new(2, 2, 2, 1)));
    removed_rooms.insert(10, Room::new_from_rect(Rect::new(4, 2, 1, 2)));
    removed_rooms.insert(11, Room::new_from_rect(Rect::new(5, 2, 1, 1)));
    removed_rooms.insert(14, Room::new_from_rect(Rect::new(3, 3, 1, 1)));

    let mut neighbours = HashMap::new();
    neighbours.insert(0, set(&[1, 6]));
    neighbours.insert(1, set(&[0, 2, 7]));
    neighbours.insert(2, set(&[1, 3, 4, 7, 9]));
    neighbours.insert(3, set(&[2, 4]));
    neighbours.insert(4, set(&[2, 3, 5, 9, 10, 11]));
    neighbours.insert(5, set(&[4]));
    neighbours.insert(6, set(&[0, 7, 8]));
    neighbours.insert(7, set(&[1, 2, 6, 8]));
    neighbours.insert(8, set(&[6, 7, 9, 12, 13]));
    neighbours.insert(9, set(&[2, 4, 8, 10, 13, 14]));
    neighbours.insert(10, set(&[4, 9, 11, 14, 15]));
    neighbours.insert(11, set(&[4, 10, 15]));
    neighbours.insert(12, set(&[8, 13]));
    neighbours.insert(13, set(&[8, 9, 12, 14]));
    neighbours.insert(14, set(&[9, 10, 13]));
    neighbours.insert(15, set(&[10, 11]));

    MapRegion::new(origin_rect, rooms, removed_rooms, neighbours)
}

fn sorted_groups(groups: &[Vec<usize>]) -> Vec<BTreeSet<usize>> {
    let mut v: Vec<BTreeSet<usize>> = groups.iter().map(|g| g.iter().copied().collect()).collect();
    v.sort();
    v
}

fn active_count(region: &MapRegion) -> usize {
    region.iter_active().len()
}

fn removed_count(region: &MapRegion) -> usize {
    region.iter_removed().len()
}

fn filled_count(region: &MapRegion) -> usize {
    (0..region.room_slots()).filter(|id| !region.is_empty(*id)).count()
}

/// Every neighbour id points at a filled slot that points back.
fn graph_is_symmetric(region: &MapRegion) -> bool {
    (0..region.room_slots()).filter(|id| !region.is_empty(*id)).all(|id| {
        region.iter_neighbours(id).into_iter().all(|n| {
            n < region.room_slots() && n != id && !region.is_empty(n) && region.iter_neighbours(n).contains(&id)
        })
    })
}

/// The structural checks of one partitioning result.
fn check_partitions(width: u32, height: u32, results: Vec<(Rect, RectTable, RectTable, HashMap<usize, SetUsize>)>) {
    for (origin_rect, rect_table, removed_rects, neighbours) in results {
        // Check origin rect dimensions
        assert!(origin_rect.width > 0 && origin_rect.width <= width);
        assert!(origin_rect.height > 0 && origin_rect.height <= height);

        // Check that neighbours table is not empty
        assert!(!neighbours.is_empty());

        // Check that the total number of rects in rect_table and removed_rects
        assert!(rect_table.len() + removed_rects.len() == neighbours.len());

        // Check that rects are not in the removed table
        // and that they are in the neighbours table
        for rect_idx in rect_table.keys() {
            assert!(!removed_rects.contains_key(rect_idx));
            assert!(neighbours.contains_key(rect_idx));
        }

        // Check that removed rects are not in the rect table
        // and that they are in the neighbours table
        for removed_rect_idx in removed_rects.keys() {
            assert!(!rect_table.contains_key(removed_rect_idx));
            assert!(neighbours.contains_key(removed_rect_idx));
        }

        // Verify neighbor relationships
        for (idx, neighbor_set) in neighbours.iter() {
            let rect = rect_table
                .get(idx)
                .or_else(|| removed_rects.get(idx))
                .expect("Rect or removed rect should exist for index");
            // Check each rect has valid neighbors
            for neighbour_idx in neighbor_set.iter() {
                assert!(neighbour_idx != *idx, "Rect should not be its own neighbour");

                if let Some(neighbor_rect) = rect_table.get(&neighbour_idx) {
                    assert!(rect.is_neighbour_of(neighbor_rect).is_some());
                } else if let Some(neighbor_rect) = removed_rects.get(&neighbour_idx) {
                    assert!(rect.is_neighbour_of(neighbor_rect).is_some());
                } else {
                    panic!("Rect or removed rect not found for index {}", idx);
                }
            }
        }
    }
}

#[test]
fn test_generate_and_trim_partitions() {
    let width = 20;
    let height = 20;

    let mut config = BinarySpacePartitioningConfig::default();
    // Force only two regions to be generated
    config.region_split_factor = width * height;

    // Whether the whole grid stays one region is drawn at random (the
    // region threshold is the factor scaled by a random 50% to 150%), so
    // the single-region outcome is looked for over several runs; every
    // run's partitions are checked in full.
    let mut single_region_seen = false;
    for _ in 0..64 {
        let results = BinarySpacePartitioning::generate_and_trim_partitions(width, height, config);
        if results.len() == 1 {
            single_region_seen = true;
        }
        check_partitions(width, height, results);
    }
    assert!(single_region_seen);
}

#[test]
fn partitions_tile_their_region() {
    let config = BinarySpacePartitioningConfig::default();
    let results = BinarySpacePartitioning::generate_and_trim_partitions(40, 30, config);
    assert!(!results.is_empty());
    let mut seen: HashSet<Cell> = HashSet::new();
    for (origin_rect, rects, removed, _) in &results {
        let all: Vec<&Rect> = rects.values().chain(removed.values()).collect();
        let area: u32 = all.iter().map(|r| r.area()).sum();
        assert!(area <= origin_rect.area());
        for r in all {
            assert!(r.width > 0 && r.height > 0);
            for c in r.get_cells() {
                assert!(c.col >= origin_rect.origin.col && c.col < origin_rect.origin.col + origin_rect.width);
                assert!(c.row >= origin_rect.origin.row && c.row < origin_rect.origin.row + origin_rect.height);
                assert!(seen.insert(c), "cells of two rectangles overlap");
            }
        }
        assert!(origin_rect.origin.col + origin_rect.width <= 40);
        assert!(origin_rect.origin.row + origin_rect.height <= 30);
    }
}

#[test]
fn tiny_maps_have_no_partitions() {
    let config = BinarySpacePartitioningConfig::default();
    assert!(BinarySpacePartitioning::generate_and_trim_partitions(4, 30, config).is_empty());
    assert!(BinarySpacePartitioning::generate_and_trim_partitions(30, 4, config).is_empty());
}

#[test]
fn tests_generate_group_offsets() {
    let map_region = test_region();
    let map_regions = vec![map_region.clone(), map_region];

    let offsets = MapBuilder::generate_group_offsets(&map_regions);
    let expected_offsets = vec![0, 16];

    assert_eq!(offsets, expected_offsets);
}

#[test]
fn test_merge_random_rooms() {
    let width = 20;
    let height = 20;
    let mut config = BinarySpacePartitioningConfig::default();
    // Force only two regions to be generated
    config.region_split_factor = width * height;

    let results = BinarySpacePartitioning::generate_and_trim_partitions(width, height, config);

    // We take only the first region for simplicity
    let (origin_rect, rect_table, removed_rects, neighbours) = results[0].clone();

    let mut map_region = MapBuilder::generate_map_region(origin_rect, rect_table, removed_rects, neighbours);

    let room_count = map_region.iter_active().len();
    assert!(room_count > 1, "There should be more than one room");
    let removed_room_count = map_region.iter_removed().len();
    assert!(removed_room_count > 0, "There should be some removed rooms");

    let config = MapBuilderConfig::default();

    MapBuilder::merge_random_rooms(&mut map_region, config.random_room_merge_prob);

    // Check that the number of rooms, removed rooms, and neighbours has not increased
    let new_room_count = map_region.iter_active().len();
    assert!(new_room_count <= room_count, "The number of rooms may have decreased after merging");
    let new_removed_room_count = map_region.iter_removed().len();
    assert!(
        new_removed_room_count == removed_room_count,
        "The number of removed rooms should not change after merging"
    );
}

#[test]
fn merging_every_room_keeps_the_graph() {
    let mut region = test_region();
    let removed_before = removed_count(&region);
    MapBuilder::merge_random_rooms(&mut region, 10000);
    assert!(active_count(&region) < 8);
    assert_eq!(removed_count(&region), removed_before);
    assert!(graph_is_symmetric(&region));
    let mut none = test_region();
    MapBuilder::merge_random_rooms(&mut none, 0);
    assert_eq!(active_count(&none), 8);
}

#[test]
fn test_generate_room_groups() {
    let map_region = test_region();

    let room_groups = MapBuilder::generate_room_groups(&map_region);
    assert!(room_groups.len() == 4, "There should be 4 room groups");

    let groups_vec = sorted_groups(&room_groups);

    assert_eq!(groups_vec[0], BTreeSet::from_iter([0, 1, 6]));
    assert_eq!(groups_vec[1], BTreeSet::from_iter([3, 4]));
    assert_eq!(groups_vec[2], BTreeSet::from_iter([12, 13]));
    assert_eq!(groups_vec[3], BTreeSet::from_iter([15]));

    assert!(!room_groups.is_empty(), "Room groups should not be empty");
    assert!(room_groups.iter().all(|group| !group.is_empty()), "All room groups should be non-empty");

    let total_rooms: usize = room_groups.iter().map(|group| group.len()).sum();
    assert_eq!(total_rooms, map_region.iter_active().len(), "All rooms should be assigned to a group");

    let mut visited_rooms = HashSet::new();
    for group in room_groups.iter() {
        for room_id in group {
            assert!(!visited_rooms.contains(room_id), "Room {} should not be visited more than once", room_id);
            visited_rooms.insert(*room_id);
        }
    }
}

#[test]
fn test_remove_small_groups() {
    let mut map_region = test_region();

    let mut room_groups = MapBuilder::generate_room_groups(&map_region);
    assert!(room_groups.len() == 4, "There should be 4 room groups");

    let groups_vec = sorted_groups(&room_groups);

    assert_eq!(groups_vec[0], BTreeSet::from_iter([0, 1, 6]));
    assert_eq!(groups_vec[1], BTreeSet::from_iter([3, 4]));
    assert_eq!(groups_vec[2], BTreeSet::from_iter([12, 13]));
    assert_eq!(groups_vec[3], BTreeSet::from_iter([15]));

    MapBuilder::remove_small_groups(&mut map_region, &mut room_groups);

    room_groups = MapBuilder::generate_room_groups(&map_region);
    assert!(room_groups.len() == 3, "There should be 4 room groups");

    let groups_vec = sorted_groups(&room_groups);

    assert_eq!(groups_vec[0], BTreeSet::from_iter([0, 1, 6]));
    assert_eq!(groups_vec[1], BTreeSet::from_iter([3, 4]));
    assert_eq!(groups_vec[2], BTreeSet::from_iter([12, 13]));
}

#[test]
fn test_get_path_between_rooms() {
    let map_region = test_region();

    let origin_idx = 13; // Room E
    let target_idx = 15; // Room F

    let path = MapBuilder::get_path_between_rooms(origin_idx, target_idx, &map_region);

    assert!(!path.is_empty(), "Path should not be empty");
    assert!(path.contains(&origin_idx), "Path should contain the origin room");
    assert!(path.contains(&target_idx), "Path should contain the target room");
    // The path may go either through room A or room 9
    assert!(path == vec![13, 14, 10, 15] || path == vec![13, 9, 10, 15]);
}

#[test]
fn path_to_oneself_and_between_neighbours() {
    let map_region = test_region();
    assert_eq!(MapBuilder::get_path_between_rooms(0, 0, &map_region), vec![0]);
    assert_eq!(MapBuilder::get_path_between_rooms(0, 1, &map_region), vec![0, 1]);
    let path = MapBuilder::get_path_between_rooms(0, 15, &map_region);
    assert_eq!(path.first(), Some(&0));
    assert_eq!(path.last(), Some(&15));
    for pair in path.windows(2) {
        assert!(map_region.iter_neighbours(pair[0]).contains(&pair[1]));
    }
}

#[test]
fn test_reconnect_room_groups() {
    let mut map_region = test_region();

    let room_count = active_count(&map_region);
    assert!(room_count == 8, "There should be 8 rooms");
    let removed_room_count = removed_count(&map_region);
    assert!(removed_room_count == 8, "There should be 8 removed rooms");
    let neighbour_count = filled_count(&map_region);
    assert!(neighbour_count == 16, "There should be 16 neighbour entries");

    let room_groups = MapBuilder::generate_room_groups(&map_region);

    assert!(room_groups.len() == 4, "There should be 4 room groups");

    MapBuilder::reconnect_room_groups(&mut map_region, &MapBuilderConfig::default());

    let room_groups = MapBuilder::generate_room_groups(&map_region);

    assert_eq!(room_groups.len(), 1, "There should be only one room group");

    let new_room_count = active_count(&map_region);
    assert!(new_room_count > room_count, "There should be more rooms after reconnecting groups");

    let new_removed_room_count = removed_count(&map_region);
    assert!(
        new_removed_room_count < removed_room_count,
        "There should be fewer removed rooms after reconnecting groups"
    );

    let new_neighbour_count = filled_count(&map_region);
    assert_eq!(
        new_neighbour_count, neighbour_count,
        "There should be the same number of neighbours after reconnecting groups"
    );

    assert_eq!(
        new_room_count + new_removed_room_count,
        new_neighbour_count,
        "Total new rooms and new removed rooms should still equal total neighbours"
    );
}

#[test]
fn builder_refuses_zero_dimensions() {
    assert_eq!(MapBuilder::new(0, 5), Err(ZeroDimensionError { cols: 0, rows: 5 }));
    assert_eq!(MapBuilder::new(5, 0), Err(ZeroDimensionError { cols: 5, rows: 0 }));
    assert_eq!(MapBuilder::new(7, 9), Ok(MapBuilder { cols: 7, rows: 9 }));
}

fn check_map(map: &GeneratedMap) {
    let mut seen: HashSet<Cell> = HashSet::new();
    for room in &map.rooms {
        assert!(!room.cells.is_empty());
        for c in &room.cells {
            assert!(seen.insert(*c), "two rooms share a cell");
            let r = map.origin_rect;
            assert!(c.col >= r.origin.col && c.col < r.origin.col + r.width);
            assert!(c.row >= r.origin.row && c.row < r.origin.row + r.height);
        }
    }
    for door in &map.doors {
        assert!(door.from.is_neighbour_of(&door.to).is_some());
        assert!(seen.contains(&door.from) && seen.contains(&door.to));
    }
}

#[test]
fn build_merged_map_covers_the_grid() {
    let builder = MapBuilder::new(40, 30).unwrap();
    let config = MapBuilderConfig::default();
    assert!(config.merge_regions);
    let maps = builder.build(&config, MapStyle::MetroidZM);
    assert_eq!(maps.len(), 1);
    for map in &maps {
        assert_eq!(map.origin_rect, Rect::new(0, 0, 40, 30));
        check_map(map);
    }
}

#[test]
fn build_separate_regions() {
    let builder = MapBuilder::new(60, 40).unwrap();
    let mut config = MapBuilderConfig::from_style(MapStyle::CastlevaniaSOTN);
    config.merge_regions = false;
    let maps = builder.build(&config, MapStyle::CastlevaniaSOTN);
    for map in &maps {
        let r = map.origin_rect;
        assert!(r.origin.col + r.width <= 60 && r.origin.row + r.height <= 40);
        check_map(map);
    }
    // the maps lie on parts of the grid that share no cell
    for (i, a) in maps.iter().enumerate() {
        for b in maps.iter().skip(i + 1) {
            let cells = a.origin_rect.get_cells();
            assert!(b.origin_rect.get_cells().iter().all(|c| !cells.contains(c)));
        }
    }
}

#[test]
fn build_tiny_map_is_empty() {
    let builder = MapBuilder::new(4, 4).unwrap();
    let maps = builder.build(&MapBuilderConfig::default(), MapStyle::MetroidFS);
    assert!(maps.is_empty());
}

#[test]
fn rooms_from_rect_tables() {
    let mut rects: RectTable = HashMap::new();
    rects.insert(3, Rect::new(0, 0, 2, 1));
    let mut removed: RectTable = HashMap::new();
    removed.insert(4, Rect::new(0, 1, 2, 1));
    let mut neighbours = HashMap::new();
    neighbours.insert(3, set(&[4]));
    neighbours.insert(4, set(&[3]));
    let region = MapBuilder::generate_map_region(Rect::new(0, 0, 2, 2), rects, removed, neighbours);
    assert_eq!(region.room_slots(), 2);
    assert!(region.is_active(0));
    assert!(region.is_removed(1));
    assert_eq!(region.get_room(0).cells, vec![Cell::new(0, 0), Cell::new(1, 0)]);
    assert_eq!(region.iter_neighbours(0), vec![1]);
}

#[test]
fn partition_rects_tile_and_know_their_neighbours() {
    let config = BinarySpacePartitioningConfig::default();
    for modifier in [RectModifier::Standard, RectModifier::PreferHorizontal, RectModifier::PreferVertical, RectModifier::Chaotic] {
        let region = RectRegion { rect: Rect::new(3, 2, 20, 15), modifier };
        let p = BinarySpacePartitioning::generate_partitions(region, &config);
        // the region is larger than both cutoffs, so it is always cut
        assert!(matches!(p.slots[0], PartSlot::Split(_)));
        let live: Vec<(usize, Rect, bool)> = p
            .slots
            .iter()
            .enumerate()
            .filter_map(|(i, s)| match s {
                PartSlot::Kept(r) => Some((i, *r, true)),
                PartSlot::Dropped(r) => Some((i, *r, false)),
                PartSlot::Split(_) => None,
            })
            .collect();
        let area: u32 = live.iter().map(|(_, r, _)| r.area()).sum();
        assert_eq!(area, 300);
        let mut seen: HashSet<Cell> = HashSet::new();
        for (_, r, kept) in &live {
            for c in r.get_cells() {
                assert!(c.col >= 3 && c.col < 23 && c.row >= 2 && c.row < 17);
                assert!(seen.insert(c));
            }
            assert!(r.area() <= config.rect_area_cutoff || (*kept && r.area() <= config.big_rect_area_cutoff));
        }
        for (i, a, _) in &live {
            for (j, b, _) in &live {
                if i != j && a.is_neighbour_of(b).is_some() {
                    assert!(p.sets[*i].contains(*j));
                }
            }
        }
    }
}

#[test]
fn each_part_gives_its_own_map() {
    let builder = MapBuilder::new(8, 8).unwrap();
    let mut config = MapBuilderConfig::default();
    config.merge_regions = false;
    config.random_room_merge_prob = 0;
    config.repeat_small_room_merge_prob = 0;
    config.bisect_room_prob = 0;
    let mut rects: RectTable = HashMap::new();
    rects.insert(0, Rect::new(0, 0, 1, 1));
    rects.insert(1, Rect::new(1, 0, 1, 1));
    let mut neighbours = HashMap::new();
    neighbours.insert(0, set(&[1]));
    neighbours.insert(1, set(&[0]));
    let parts = vec![(Rect::new(0, 0, 2, 1), rects, HashMap::new(), neighbours)];
    let maps = builder.build_from_partitions(parts, &config, MapStyle::MetroidFS);
    assert_eq!(maps.len(), 1);
    assert_eq!(maps[0].origin_rect, Rect::new(0, 0, 2, 1));
    // both rooms stay, joined by a door
    assert_eq!(maps[0].rooms.len(), 2);
    assert!(!maps[0].doors.is_empty());
    check_map(&maps[0]);
}

#[test]
fn a_part_whose_two_rooms_merge_keeps_no_room() {
    let builder = MapBuilder::new(8, 8).unwrap();
    let mut config = MapBuilderConfig::default();
    config.merge_regions = false;
    config.random_room_merge_prob = CHANCE_SCALE;
    config.repeat_small_room_merge_prob = 0;
    config.bisect_room_prob = 0;
    let mut rects: RectTable = HashMap::new();
    rects.insert(0, Rect::new(0, 0, 2, 1));
    rects.insert(1, Rect::new(2, 0, 2, 1));
    let mut neighbours = HashMap::new();
    neighbours.insert(0, set(&[1]));
    neighbours.insert(1, set(&[0]));
    let parts = vec![(Rect::new(0, 0, 4, 1), rects, HashMap::new(), neighbours)];
    let maps = builder.build_from_partitions(parts, &config, MapStyle::MetroidFS);
    // the two rooms merge into one, which is alone in its group and so is
    // given up when the groups are reconnected: the map has no room
    assert_eq!(maps.len(), 1);
    assert!(maps[0].rooms.is_empty());
    assert!(maps[0].doors.is_empty());
}

#[test]
fn tall_rectangles_are_cut_across() {
    let config = BinarySpacePartitioningConfig::default();
    let region = RectRegion { rect: Rect::new(0, 0, 2, 40), modifier: RectModifier::Standard };
    let p = BinarySpacePartitioning::generate_partitions(region, &config);
    let rect_of = |s: &PartSlot| match s {
        PartSlot::Split(r) | PartSlot::Kept(r) | PartSlot::Dropped(r) => *r,
    };
    for (k, slot) in p.slots.iter().enumerate() {
        if let PartSlot::Split(r) = slot {
            // the halves are two later slots, side by side
            let halves = (k + 1..p.slots.len() - 1).find(|&c| {
                let a = rect_of(&p.slots[c]);
                let b = rect_of(&p.slots[c + 1]);
                a.origin == r.origin && a.area() + b.area() == r.area() && (a.width == r.width || a.height == r.height)
            });
            let c = halves.expect("a cut rectangle has its two halves");
            // taller than 1.8 times its width, and more than a cell high: cut across
            if r.height * 100 > config.height_factor_cutoff * r.width && r.height > 1 {
                assert_eq!(rect_of(&p.slots[c]).width, r.width);
                assert_eq!(rect_of(&p.slots[c + 1]).width, r.width);
            }
        }
    }
}
