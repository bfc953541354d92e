use std::collections::HashMap;

use generator_core::map_region::{MapRegion, RoomEntry};
use generator_core::types::{Cell, Rect, Room};
use tinyset::SetUsize;

fn set(ids: &[usize]) -> SetUsize {
    ids.iter().copied().collect()
}

/// +---+---+---+
/// | 0 | 3 |   |
/// +---+---+ 9 +
/// |   5   |   |
/// +---+---+---+
/// 0 and 3 active, 5 and 9 removed.
fn small_region() -> MapRegion {
    let origin_rect = Rect::new(0, 0, 3, 2);

    let mut rooms = HashMap::new();
    rooms.insert(0, Room::new_from_rect(Rect::new(0, 0, 1, 1)));
    rooms.insert(3, Room::new_from_rect(Rect::new(1, 0, 1, 1)));

    let mut removed_rooms = HashMap::new();
    removed_rooms.insert(5, Room::new_from_rect(Rect::new(0, 1, 2, 1)));
    removed_rooms.insert(9, Room::new_from_rect(Rect::new(2, 0, 1, 2)));

    let mut neighbours = HashMap::new();
    neighbours.insert(0, set(&[3, 5]));
    neighbours.insert(3, set(&[0, 5, 9]));
    neighbours.insert(5, set(&[0, 3, 9]));
    neighbours.insert(9, set(&[3, 5]));

    MapRegion::new(origin_rect, rooms, removed_rooms, neighbours)
}

fn sorted(mut v: Vec<usize>) -> Vec<usize> {
    v.sort();
    v
}

fn entry(region: &MapRegion, id: usize) -> RoomEntry {
    if region.is_empty(id) {
        RoomEntry::Empty
    } else if region.is_active(id) {
        RoomEntry::Active(region.get_room(id).clone())
    } else {
        RoomEntry::Removed(region.get_room(id).clone())
    }
}

fn entries(region: &MapRegion) -> Vec<RoomEntry> {
    (0..region.room_slots()).map(|id| entry(region, id)).collect()
}

fn neighbour_slots(region: &MapRegion) -> Vec<Option<SetUsize>> {
    (0..region.room_slots())
        .map(|id| if region.is_empty(id) { None } else { Some(region.get_neighbours(id).clone()) })
        .collect()
}

#[test]
fn test_map_region_compact_buffers() {
    let mut map_region = small_region();

    // Check the initial state of the buffers
    assert_eq!(map_region.room_slots(), 10);
    assert_eq!(map_region.room_buffer_capacity(), 10);
    assert_eq!(neighbour_slots(&map_region).len(), 10);
    assert_eq!(map_region.neighbour_buffer_capacity(), 10);

    // Room instances
    let room_0 = Room::new_from_rect(Rect::new(0, 0, 1, 1));
    let room_3 = Room::new_from_rect(Rect::new(1, 0, 1, 1));
    let rect_5 = Room::new_from_rect(Rect::new(0, 1, 2, 1));
    let rect_9 = Room::new_from_rect(Rect::new(2, 0, 1, 2));

    // Check the inital contents of the buffers
    let expected_room_buffer = vec![
        RoomEntry::Active(room_0.clone()),
        RoomEntry::Empty,
        RoomEntry::Empty,
        RoomEntry::Active(room_3.clone()),
        RoomEntry::Empty,
        RoomEntry::Removed(rect_5.clone()),
        RoomEntry::Empty,
        RoomEntry::Empty,
        RoomEntry::Empty,
        RoomEntry::Removed(rect_9.clone()),
    ];
    assert_eq!(entries(&map_region), expected_room_buffer);

    let expected_neighbour_buffer = vec![
        Some(set(&[3, 5])),
        None,
        None,
        Some(set(&[0, 5, 9])),
        None,
        Some(set(&[0, 3, 9])),
        None,
        None,
        None,
        Some(set(&[3, 5])),
    ];
    assert!(neighbour_slots(&map_region) == expected_neighbour_buffer);

    // Compact the buffers
    map_region.compact_buffers();

    // Check that the buffers are compacted
    assert_eq!(map_region.room_slots(), 4);
    assert_eq!(map_region.room_buffer_capacity(), 4);
    assert_eq!(neighbour_slots(&map_region).len(), 4);
    assert_eq!(map_region.neighbour_buffer_capacity(), 4);

    // Check the contents of the buffers after compaction
    let expected_room_buffer = vec![
        RoomEntry::Active(room_0),
        RoomEntry::Removed(rect_9),
        RoomEntry::Removed(rect_5),
        RoomEntry::Active(room_3),
    ];
    assert_eq!(entries(&map_region), expected_room_buffer);

    let expected_neighbour_buffer = vec![
        Some(set(&[3, 2])),
        Some(set(&[3, 2])),
        Some(set(&[0, 3, 1])),
        Some(set(&[0, 2, 1])),
    ];
    assert!(neighbour_slots(&map_region) == expected_neighbour_buffer);
}

#[test]
fn test_map_region_merge_with() {
    let mut map_region_1 = small_region();
    let map_region_2 = small_region();

    // Checking so that the next checks are proven to
    // also apply to map_region_2
    assert!(map_region_1 == map_region_2);
    // Check the initial state of the buffers
    assert_eq!(map_region_1.room_slots(), 10);
    assert_eq!(map_region_1.room_buffer_capacity(), 10);
    assert_eq!(neighbour_slots(&map_region_1).len(), 10);
    assert_eq!(map_region_1.neighbour_buffer_capacity(), 10);

    // Room instances
    let room_0 = Room::new_from_rect(Rect::new(0, 0, 1, 1));
    let room_3 = Room::new_from_rect(Rect::new(1, 0, 1, 1));
    let rect_5 = Room::new_from_rect(Rect::new(0, 1, 2, 1));
    let rect_9 = Room::new_from_rect(Rect::new(2, 0, 1, 2));

    let expected_room_buffer = vec![
        RoomEntry::Active(room_0.clone()),
        RoomEntry::Empty,
        RoomEntry::Empty,
        RoomEntry::Active(room_3.clone()),
        RoomEntry::Empty,
        RoomEntry::Removed(rect_5.clone()),
        RoomEntry::Empty,
        RoomEntry::Empty,
        RoomEntry::Empty,
        RoomEntry::Removed(rect_9.clone()),
    ];
    assert_eq!(entries(&map_region_1), expected_room_buffer);

    let expected_neighbour_buffer = vec![
        Some(set(&[3, 5])),
        None,
        None,
        Some(set(&[0, 5, 9])),
        None,
        Some(set(&[0, 3, 9])),
        None,
        None,
        None,
        Some(set(&[3, 5])),
    ];
    assert!(neighbour_slots(&map_region_1) == expected_neighbour_buffer);

    map_region_1.merge_with(map_region_2);

    // Check the state of the buffers after merging
    assert_eq!(map_region_1.room_slots(), 20);
    assert_eq!(map_region_1.room_buffer_capacity(), 20);
    assert_eq!(neighbour_slots(&map_region_1).len(), 20);
    assert_eq!(map_region_1.neighbour_buffer_capacity(), 20);

    let expected_room_buffer = vec![
        RoomEntry::Active(room_0.clone()),
        RoomEntry::Empty,
        RoomEntry::Empty,
        RoomEntry::Active(room_3.clone()),
        RoomEntry::Empty,
        RoomEntry::Removed(rect_5.clone()),
        RoomEntry::Empty,
        RoomEntry::Empty,
        RoomEntry::Empty,
        RoomEntry::Removed(rect_9.clone()),
        RoomEntry::Active(room_0.clone()),
        RoomEntry::Empty,
        RoomEntry::Empty,
        RoomEntry::Active(room_3.clone()),
        RoomEntry::Empty,
        RoomEntry::Removed(rect_5.clone()),
        RoomEntry::Empty,
        RoomEntry::Empty,
        RoomEntry::Empty,
        RoomEntry::Removed(rect_9.clone()),
    ];
    assert_eq!(entries(&map_region_1), expected_room_buffer);

    let expected_neighbour_buffer = vec![
        Some(set(&[3, 5])),
        None,
        None,
        Some(set(&[0, 5, 9])),
        None,
        Some(set(&[0, 3, 9])),
        None,
        None,
        None,
        Some(set(&[3, 5])),
        Some(set(&[13, 15])),
        None,
        None,
        Some(set(&[10, 15, 19])),
        None,
        Some(set(&[10, 13, 19])),
        None,
        None,
        None,
        Some(set(&[13, 15])),
    ];
    assert!(neighbour_slots(&map_region_1) == expected_neighbour_buffer);

    println!("{:?}", map_region_1.iter_active());

    map_region_1.compact_buffers();

    // Check the state of the buffers after compaction
    assert_eq!(map_region_1.room_slots(), 8);
    assert_eq!(map_region_1.room_buffer_capacity(), 8);
    assert_eq!(neighbour_slots(&map_region_1).len(), 8);
    assert_eq!(map_region_1.neighbour_buffer_capacity(), 8);

    // Check the inital contents of the buffers
    let expected_room_buffer = vec![
        RoomEntry::Active(room_0.clone()),
        RoomEntry::Removed(rect_9.clone()),
        RoomEntry::Removed(rect_5.clone()),
        RoomEntry::Active(room_3.clone()),
        RoomEntry::Active(room_3),
        RoomEntry::Removed(rect_5),
        RoomEntry::Active(room_0),
        RoomEntry::Removed(rect_9),
    ];
    assert_eq!(entries(&map_region_1), expected_room_buffer);

    let expected_neighbour_buffer = vec![
        Some(set(&[3, 5])),
        Some(set(&[4, 2])),
        Some(set(&[6, 4, 1])),
        Some(set(&[0, 5, 7])),
        Some(set(&[6, 2, 1])),
        Some(set(&[0, 3, 7])),
        Some(set(&[4, 2])),
        Some(set(&[3, 5])),
    ];
    assert!(neighbour_slots(&map_region_1) == expected_neighbour_buffer);
}

#[test]
fn new_shifts_ids_down_to_zero() {
    let mut rooms = HashMap::new();
    rooms.insert(4, Room::new_from_rect(Rect::new(0, 0, 1, 1)));
    rooms.insert(6, Room::new_from_rect(Rect::new(1, 0, 1, 1)));
    let mut removed = HashMap::new();
    removed.insert(5, Room::new_from_rect(Rect::new(0, 1, 2, 1)));
    let mut neighbours = HashMap::new();
    neighbours.insert(4, set(&[5, 6]));
    neighbours.insert(5, set(&[4, 6]));
    neighbours.insert(6, set(&[4, 5]));
    let region = MapRegion::new(Rect::new(0, 0, 2, 2), rooms, removed, neighbours);
    assert_eq!(region.room_slots(), 3);
    assert!(region.is_active(0));
    assert!(region.is_removed(1));
    assert!(region.is_active(2));
    assert!(*region.get_neighbours(0) == set(&[1, 2]));
    assert!(*region.get_neighbours(1) == set(&[0, 2]));
    assert_eq!(region.origin_rect(), Rect::new(0, 0, 2, 2));
}

#[test]
fn marking_linking_and_merging_rooms() {
    let mut region = small_region();
    assert_eq!(sorted(region.iter_active_neighbours(0)), vec![3]);
    assert_eq!(sorted(region.iter_removed_neighbours(0)), vec![5]);
    assert_eq!(sorted(region.iter_neighbours(3)), vec![0, 5, 9]);

    region.mark_active(5);
    assert!(region.is_active(5));
    assert_eq!(sorted(region.iter_active_neighbours(0)), vec![3, 5]);
    region.mark_removed(5);
    assert!(region.is_removed(5));

    region.unlink_rooms(3, 9);
    assert_eq!(sorted(region.iter_neighbours(3)), vec![0, 5]);
    assert_eq!(sorted(region.iter_neighbours(9)), vec![5]);
    region.link_rooms(3, 9);
    assert_eq!(sorted(region.iter_neighbours(9)), vec![3, 5]);

    region.merge_active_rooms(0, 3);
    assert!(region.is_active(0));
    assert!(region.is_empty(3));
    assert_eq!(region.get_active(0).cells, vec![Cell::new(0, 0), Cell::new(1, 0)]);
    assert_eq!(sorted(region.iter_neighbours(0)), vec![5, 9]);
    assert_eq!(sorted(region.iter_neighbours(9)), vec![0, 5]);
    assert_eq!(sorted(region.iter_neighbours(5)), vec![0, 9]);
    let ids: Vec<usize> = region.iter_active().iter().map(|(id, _)| *id).collect();
    assert_eq!(ids, vec![0]);
}

#[test]
fn room_entry_accessors() {
    let room = Room::new_from_rect(Rect::new(0, 0, 1, 1));
    let active = RoomEntry::Active(room.clone());
    assert!(active.is_active());
    assert!(!active.is_removed());
    assert!(!active.is_empty());
    assert_eq!(active.take(), room);
    let removed = RoomEntry::Removed(room.clone());
    assert!(removed.is_removed());
    assert_eq!(removed.take(), room);
    assert!(RoomEntry::Empty.is_empty());
    assert_eq!(RoomEntry::default(), RoomEntry::Empty);
}

#[test]
fn into_map_keeps_the_active_rooms() {
    let region = small_region();
    let map = region.into_map(vec![]);
    assert_eq!(map.origin_rect, Rect::new(0, 0, 3, 2));
    assert_eq!(
        map.rooms,
        vec![Room::new_from_rect(Rect::new(0, 0, 1, 1)), Room::new_from_rect(Rect::new(1, 0, 1, 1))]
    );
    assert!(map.doors.is_empty());
}
