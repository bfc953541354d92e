//! Placing doors between neighbouring active rooms.
use vstd::prelude::*;

use crate::builder_config::MapBuilderConfig;
use crate::map_builder::MapBuilder;
use crate::map_region::MapRegion;
use crate::rng::{chance, random_u32, random_usize};
use crate::types::{
    cell_neighbour_dir, lemma_neighbouring_pairs_member, neighbouring_pairs, room_eq, Cell, Direction, Door,
    DoorModifier, RoomId,
};

verus! {

/// The modifier a door gets for a roll of `0..100`: locked at 0, secret
/// from 1 to 5, unmarked from 6 to 9, open above.
pub open spec fn door_modifier_for_roll(roll: u32) -> DoorModifier {
    if roll == 0 {
        DoorModifier::Locked
    } else if roll < 6 {
        DoorModifier::Secret
    } else if roll < 10 {
        DoorModifier::Unmarked
    } else {
        DoorModifier::Open
    }
}

/// The modifier a door gets for a roll (see `door_modifier_for_roll`).
pub fn door_modifier_from_roll(roll: u32) -> (m: DoorModifier)
    ensures
        m == door_modifier_for_roll(roll),
{
    if roll == 0 {
        DoorModifier::Locked
    } else if roll < 6 {
        DoorModifier::Secret
    } else if roll < 10 {
        DoorModifier::Unmarked
    } else {
        DoorModifier::Open
    }
}

/// Of the rolls `0..100` a door's modifier comes from, exactly the ten below
/// 10 give a door that is not plainly open: roll 0 locks it, rolls 1 to 5
/// make it secret and rolls 6 to 9 leave it unmarked; every other roll
/// opens it.
pub proof fn law_door_modifier_by_roll(roll: u32)
    ensures
        (door_modifier_for_roll(roll) == DoorModifier::Open) <==> roll >= 10,
        (door_modifier_for_roll(roll) == DoorModifier::Locked) <==> roll == 0,
        (door_modifier_for_roll(roll) == DoorModifier::Secret) <==> 1 <= roll <= 5,
        (door_modifier_for_roll(roll) == DoorModifier::Unmarked) <==> 6 <= roll <= 9,
{
}

/// A door of `r` joins a cell of one active room to a side-sharing cell of
/// another active room that is its neighbour.
pub open spec fn door_between_rooms(r: MapRegion, d: Door) -> bool {
    exists|a: int, b: int| {
        &&& 0 <= a < r.entries().len()
        &&& 0 <= b < r.entries().len()
        &&& r.entries()[a] is Active
        &&& r.entries()[b] is Active
        &&& r.neighbours_of(a).contains(b as usize)
        &&& #[trigger] r.entries()[a].spec_room().cells@.contains(d.from)
        &&& #[trigger] r.entries()[b].spec_room().cells@.contains(d.to)
        &&& cell_neighbour_dir(d.from, d.to) is Some
    }
}

/// Rooms `x` and `y` of `r` can be given a door: both active, neighbours,
/// different rooms, with a pair of side-sharing cells.
pub open spec fn joined(r: MapRegion, x: usize, y: usize) -> bool {
    &&& (x as int) < r.entries().len()
    &&& (y as int) < r.entries().len()
    &&& r.entries()[x as int] is Active
    &&& r.entries()[y as int] is Active
    &&& r.neighbours_of(x as int).contains(y)
    &&& !room_eq(r.entries()[x as int].spec_room(), r.entries()[y as int].spec_room())
    &&& neighbouring_pairs(r.entries()[x as int].spec_room().cells@, r.entries()[y as int].spec_room().cells@).len() > 0
}

/// `p` leads from room `from` to room `to` through joined rooms.
pub open spec fn joined_walk(r: MapRegion, p: Seq<usize>, from: usize, to: usize) -> bool {
    &&& p.len() >= 1
    &&& p[0] == from
    &&& p[p.len() - 1] == to
    &&& forall|k: int| 0 <= k < p.len() - 1 ==> #[trigger] joined(r, p[k], p[k + 1])
}

/// Some door of `doors` opens into room `y`.
pub open spec fn has_door_into(r: MapRegion, doors: Seq<Door>, y: usize) -> bool {
    exists|k: int| 0 <= k < doors.len() && r.entries()[y as int].spec_room().cells@.contains((#[trigger] doors[k]).to)
}

/// Rooms `a` and `b` of `r` have a pair of side-sharing cells side by side
/// (one east of the other).
pub open spec fn touch_side_by_side(r: MapRegion, a: int, b: int) -> bool {
    let pairs = neighbouring_pairs(r.entries()[a].spec_room().cells@, r.entries()[b].spec_room().cells@);
    exists|k: int| 0 <= k < pairs.len() && (#[trigger] pairs[k]).2.spec_is_horizontal()
}

/// Door `d` leads from a cell of active room `a` into a side-sharing cell of
/// its neighbour, active room `b`, and lies side by side whenever the two
/// rooms touch side by side anywhere.
pub open spec fn door_from_to(r: MapRegion, d: Door, a: int, b: int) -> bool {
    &&& 0 <= a < r.entries().len()
    &&& 0 <= b < r.entries().len()
    &&& r.entries()[a] is Active
    &&& r.entries()[b] is Active
    &&& r.neighbours_of(a).contains(b as usize)
    &&& r.entries()[a].spec_room().cells@.contains(d.from)
    &&& r.entries()[b].spec_room().cells@.contains(d.to)
    &&& cell_neighbour_dir(d.from, d.to) is Some
    &&& touch_side_by_side(r, a, b) ==> cell_neighbour_dir(d.from, d.to)->0.spec_is_horizontal()
}

/// Door `d` leads from one active room of `r` into a neighbour (see `door_from_to`).
pub open spec fn door_placed(r: MapRegion, d: Door) -> bool {
    exists|a: int, b: int| #[trigger] door_from_to(r, d, a, b)
}

/// Some door of `doors` leads from a cell of room `x` into a cell of room `y`.
pub open spec fn door_step(r: MapRegion, doors: Seq<Door>, x: usize, y: usize) -> bool {
    exists|k: int| 0 <= k < doors.len() && r.entries()[x as int].spec_room().cells@.contains((#[trigger] doors[k]).from)
        && r.entries()[y as int].spec_room().cells@.contains(doors[k].to)
}

/// `p` leads from room `from` to room `to`, each step through a door of `doors`.
pub open spec fn door_walk(r: MapRegion, doors: Seq<Door>, p: Seq<usize>, from: usize, to: usize) -> bool {
    &&& p.len() >= 1
    &&& p[0] == from
    &&& p[p.len() - 1] == to
    &&& forall|k: int| 0 <= k < p.len() - 1 ==> #[trigger] door_step(r, doors, p[k], p[k + 1])
}

/// Room `to` is reached from room `from` by a walk through doors of `doors`.
pub open spec fn door_reached(r: MapRegion, doors: Seq<Door>, from: usize, to: usize) -> bool {
    exists|p: Seq<usize>| #[trigger] door_walk(r, doors, p, from, to)
}

proof fn lemma_door_walk_grow(r: MapRegion, doors: Seq<Door>, d: Door, p: Seq<usize>, from: usize, to: usize)
    requires
        door_walk(r, doors, p, from, to),
    ensures
        door_walk(r, doors.push(d), p, from, to),
{
    assert forall|k: int| 0 <= k < p.len() - 1 implies #[trigger] door_step(r, doors.push(d), p[k], p[k + 1]) by {
        assert(door_step(r, doors, p[k], p[k + 1]));
        let q = choose|q: int| 0 <= q < doors.len() && r.entries()[p[k] as int].spec_room().cells@.contains((#[trigger] doors[q]).from)
            && r.entries()[p[k + 1] as int].spec_room().cells@.contains(doors[q].to);
        assert(doors.push(d)[q] == doors[q]);
    }
}

proof fn lemma_door_walk_extend(r: MapRegion, doors: Seq<Door>, p: Seq<usize>, from: usize, x: usize, y: usize)
    requires
        door_walk(r, doors, p, from, x),
        door_step(r, doors, x, y),
    ensures
        door_walk(r, doors, p.push(y), from, y),
{
    let p2 = p.push(y);
    assert forall|k: int| 0 <= k < p2.len() - 1 implies #[trigger] door_step(r, doors, p2[k], p2[k + 1]) by {
        if k < p.len() - 1 {
            assert(p2[k] == p[k] && p2[k + 1] == p[k + 1]);
        } else {
            assert(p2[k] == x && p2[k + 1] == y);
        }
    }
}

/// Rooms reached by the walk of `generate_doors_for` stay reached along joined rooms.
proof fn lemma_joined_walk_reached(r: MapRegion, visited: Seq<bool>, p: Seq<usize>, from: usize, to: usize, k: int)
    requires
        visited.len() == r.entries().len(),
        joined_walk(r, p, from, to),
        (from as int) < visited.len(),
        visited[from as int],
        forall|x: int, y: usize| 0 <= x < visited.len() && #[trigger] visited[x] && #[trigger] joined(r, x as usize, y)
            ==> visited[y as int],
        0 <= k < p.len(),
    ensures
        (p[k] as int) < visited.len(),
        visited[p[k] as int],
    decreases k,
{
    if k > 0 {
        lemma_joined_walk_reached(r, visited, p, from, to, k - 1);
        let j = k - 1;
        assert(joined(r, p[j], p[j + 1]));
        assert(p[j + 1] == p[k]);
        assert(visited[p[j] as int]);
        let x = p[j] as int;
        assert(x as usize == p[j]);
        assert(joined(r, x as usize, p[k]));
        assert(visited[x]);
    } else {
        assert(p[0] == from);
    }
}

impl MapBuilder {
    /// Doors between neighbouring active rooms, placed by a depth-first walk
    /// from an active room picked at random. From each room reached, every
    /// active neighbour not yet reached gets a door — at once if no door
    /// leads to it yet, else only with chance `door_loop_connection_chance`
    /// — on a pair of side-sharing cells picked at random, preferring pairs
    /// side by side over pairs one above the other; the neighbour is then
    /// walked on. A door's modifier comes from a roll of `0..100` (see
    /// `door_modifier_for_roll`). Each room is walked on once. So every
    /// room the start room leads to through joined rooms gets a door into it
    /// and is reached from the start room through doors, and every door lies
    /// side by side where its two rooms touch side by side.
    #[verifier::rlimit(40)]
    pub fn generate_doors_for(map_region: &MapRegion, config: &MapBuilderConfig) -> (doors: Vec<Door>)
        requires
            map_region.graph_ok(),
            config.wf(),
            exists|k: int| 0 <= k < map_region.entries().len() && (#[trigger] map_region.entries()[k]) is Active,
        ensures
            forall|k: int| 0 <= k < doors@.len() ==> door_between_rooms(*map_region, #[trigger] doors@[k]),
            forall|k: int| 0 <= k < doors@.len() ==> door_placed(*map_region, #[trigger] doors@[k]),
            exists|s: usize| (s as int) < map_region.entries().len() && map_region.entries()[s as int] is Active
                && forall|y: usize, p: Seq<usize>| #[trigger] joined_walk(*map_region, p, s, y) && y != s
                    ==> has_door_into(*map_region, doors@, y)
                        && door_reached(*map_region, doors@, s, y),
    {
        let ghost r = *map_region;
        let active = map_region.iter_active();
        let room_count = active.len();
        let ghost ids = active@.map_values(|e: (usize, &crate::types::Room)| e.0);
        proof {
            let k = choose|k: int| 0 <= k < r.entries().len() && (#[trigger] r.entries()[k]) is Active;
            assert(crate::map_region::selected(r.entries()[k], true, false));
            assert(ids.contains(k as usize));
        }
        let n = map_region.room_slots();
        let mut visited: Vec<bool> = Vec::new();
        let mut connected: Vec<bool> = Vec::new();
        let mut i: usize = 0;
        while i < n
            invariant
                0 <= i <= n,
                visited@.len() == i,
                connected@.len() == i,
                forall|k: int| 0 <= k < i ==> !(#[trigger] visited@[k]),
                forall|k: int| 0 <= k < i ==> !(#[trigger] connected@[k]),
                crate::reconnect_rooms::count_true(visited@) == 0,
            decreases n - i,
        {
            let ghost before = visited@;
            visited.push(false);
            connected.push(false);
            proof {
                assert(visited@.drop_last() =~= before);
            }
            i = i + 1;
        }
        let picked_room = random_usize(0, room_count);
        let initial_room = active[picked_room].0;
        proof {
            assert(ids[picked_room as int] == initial_room);
            assert(crate::map_region::selected(r.entries()[initial_room as int], true, false));
        }
        let mut doors: Vec<Door> = Vec::new();
        let mut room_queue: Vec<RoomId> = Vec::new();
        room_queue.push(initial_room);
        let mut visited_count: usize = 0;
        let ghost start = initial_room;
        proof {
            crate::reconnect_rooms::lemma_count_true_bound(visited@);
            assert(room_queue@[0] == start);
            assert(room_queue@.contains(start));
            assert forall|z: usize| #[trigger] room_queue@.contains(z) && z != start implies has_door_into(r, doors@, z) by {
                let w = choose|w: int| 0 <= w < room_queue@.len() && room_queue@[w] == z;
                assert(room_queue@[w] == start);
            }
            assert(door_walk(r, doors@, seq![start], start, start));
            assert forall|z: usize| #[trigger] room_queue@.contains(z) implies door_reached(r, doors@, start, z) by {
                let w = choose|w: int| 0 <= w < room_queue@.len() && room_queue@[w] == z;
                assert(room_queue@[w] == start);
            }
        }
        while room_queue.len() > 0
            invariant
                n == r.entries().len(),
                *map_region == r,
                r.graph_ok(),
                config.wf(),
                visited@.len() == n,
                connected@.len() == n,
                visited_count == crate::reconnect_rooms::count_true(visited@),
                visited_count <= n,
                (start as int) < n,
                r.entries()[start as int] is Active,
                forall|k: int| 0 <= k < room_queue@.len() ==> (#[trigger] room_queue@[k] as int) < n
                    && r.entries()[room_queue@[k] as int] is Active,
                forall|k: int| 0 <= k < doors@.len() ==> door_between_rooms(r, #[trigger] doors@[k]),
                forall|y: int| 0 <= y < n && #[trigger] connected@[y] ==> visited@[y] || room_queue@.contains(y as usize),
                forall|x: int, y: usize| 0 <= x < n && #[trigger] visited@[x] && #[trigger] joined(r, x as usize, y)
                    ==> visited@[y as int] || connected@[y as int],
                forall|y: int| 0 <= y < n && y != start && #[trigger] visited@[y] ==> has_door_into(r, doors@, y as usize),
                forall|z: usize| #[trigger] room_queue@.contains(z) && z != start ==> has_door_into(r, doors@, z),
                visited@[start as int] || room_queue@.contains(start),
                forall|k: int| 0 <= k < doors@.len() ==> door_placed(r, #[trigger] doors@[k]),
                forall|y: int| 0 <= y < n && #[trigger] visited@[y] ==> door_reached(r, doors@, start, y as usize),
                forall|z: usize| #[trigger] room_queue@.contains(z) ==> door_reached(r, doors@, start, z),
            decreases n - visited_count, room_queue@.len(),
        {
            let ghost q0 = room_queue@;
            let room_id = room_queue.pop().unwrap();
            proof {
                assert(q0 == room_queue@.push(room_id));
                assert forall|z: usize| #[trigger] q0.contains(z) implies z == room_id || room_queue@.contains(z) by {
                    let w = choose|w: int| 0 <= w < q0.len() && q0[w] == z;
                    if w < room_queue@.len() {
                        assert(room_queue@[w] == z);
                    }
                }
                assert(q0[q0.len() - 1] == room_id);
                assert(q0.contains(room_id));
            }
            if visited[room_id] {
                proof {
                    assert forall|y: int| 0 <= y < n && #[trigger] connected@[y] implies visited@[y] || room_queue@.contains(y as usize) by {
                        if !visited@[y] {
                            assert(q0.contains(y as usize));
                        }
                    }
                    assert forall|z: usize| #[trigger] room_queue@.contains(z) && z != start implies has_door_into(r, doors@, z) by {
                        assert(q0.contains(z));
                    }
                    assert forall|z: usize| #[trigger] room_queue@.contains(z) implies door_reached(r, doors@, start, z) by {
                        assert(q0.contains(z));
                    }
                    if !visited@[start as int] {
                        assert(q0.contains(start));
                    }
                }
                continue;
            }
            proof {
                crate::reconnect_rooms::lemma_count_true_set(visited@, room_id as int);
                crate::reconnect_rooms::lemma_count_true_bound(visited@.update(room_id as int, true));
                assert(crate::map_region::filled(r.entries()[room_id as int]));
                assert(room_id != start ==> has_door_into(r, doors@, room_id));
            }
            let ghost v0 = visited@;
            visited.set(room_id, true);
            visited_count = visited_count + 1;
            proof {
                assert forall|y: int| 0 <= y < n && #[trigger] connected@[y] implies visited@[y] || room_queue@.contains(y as usize) by {
                    if y != room_id as int && !v0[y] {
                        assert(q0.contains(y as usize));
                    }
                }
                assert forall|y: int| 0 <= y < n && y != start && #[trigger] visited@[y] implies has_door_into(r, doors@, y as usize) by {
                    if y != room_id as int {
                        assert(v0[y]);
                    }
                }
                assert forall|z: usize| #[trigger] room_queue@.contains(z) && z != start implies has_door_into(r, doors@, z) by {
                    assert(q0.contains(z));
                }
                assert forall|z: usize| #[trigger] room_queue@.contains(z) implies door_reached(r, doors@, start, z) by {
                    assert(q0.contains(z));
                }
                assert forall|y: int| 0 <= y < n && #[trigger] visited@[y] implies door_reached(r, doors@, start, y as usize) by {
                    if y == room_id as int {
                        assert(q0.contains(room_id));
                    } else {
                        assert(v0[y]);
                    }
                }
                if !visited@[start as int] {
                    assert(start != room_id);
                    assert(q0.contains(start));
                }
            }
            let room = map_region.get_active(room_id);
            let neighbours = map_region.iter_active_neighbours(room_id);
            let mut j: usize = 0;
            while j < neighbours.len()
                invariant
                    0 <= j <= neighbours.len(),
                    n == r.entries().len(),
                    *map_region == r,
                    r.graph_ok(),
                    config.wf(),
                    (room_id as int) < n,
                    r.entries()[room_id as int] is Active,
                    *room == r.entries()[room_id as int].spec_room(),
                    visited@.len() == n,
                    connected@.len() == n,
                    visited_count == crate::reconnect_rooms::count_true(visited@),
                    visited_count <= n,
                    visited@[room_id as int],
                    (start as int) < n,
                    r.entries()[start as int] is Active,
                    forall|x: usize| #[trigger] neighbours@.contains(x) <==> (r.neighbours_of(room_id as int).contains(x)
                        && r.entries()[x as int] is Active),
                    forall|k: int| 0 <= k < room_queue@.len() ==> (#[trigger] room_queue@[k] as int) < n
                        && r.entries()[room_queue@[k] as int] is Active,
                    forall|k: int| 0 <= k < doors@.len() ==> door_between_rooms(r, #[trigger] doors@[k]),
                    forall|y: int| 0 <= y < n && #[trigger] connected@[y] ==> visited@[y] || room_queue@.contains(y as usize),
                    forall|x: int, y: usize| 0 <= x < n && x != room_id && #[trigger] visited@[x] && #[trigger] joined(r, x as usize, y)
                        ==> visited@[y as int] || connected@[y as int],
                    forall|k: int| 0 <= k < j && #[trigger] joined(r, room_id, neighbours@[k])
                        ==> visited@[neighbours@[k] as int] || connected@[neighbours@[k] as int],
                    forall|y: int| 0 <= y < n && y != start && #[trigger] visited@[y] ==> has_door_into(r, doors@, y as usize),
                    forall|z: usize| #[trigger] room_queue@.contains(z) && z != start ==> has_door_into(r, doors@, z),
                    visited@[start as int] || room_queue@.contains(start),
                    forall|k: int| 0 <= k < doors@.len() ==> door_placed(r, #[trigger] doors@[k]),
                    forall|y: int| 0 <= y < n && #[trigger] visited@[y] ==> door_reached(r, doors@, start, y as usize),
                    forall|z: usize| #[trigger] room_queue@.contains(z) ==> door_reached(r, doors@, start, z),
                decreases neighbours.len() - j,
            {
                let neighbour_id = neighbours[j];
                proof {
                    assert(neighbours@.contains(neighbour_id));
                    assert(r.neighbours_of(room_id as int).contains(neighbour_id));
                }
                if visited[neighbour_id] {
                    j = j + 1;
                    continue;
                }
                if connected[neighbour_id] && !chance(config.door_loop_connection_chance) {
                    j = j + 1;
                    continue;
                }
                let neighbour_room = map_region.get_active(neighbour_id);
                match room.get_neighbouring_cells_for(neighbour_room) {
                    Some(cells) => {
                        let mut priority: Vec<(Cell, Cell, Direction)> = Vec::new();
                        let mut q: usize = 0;
                        while q < cells.len()
                            invariant
                                0 <= q <= cells.len(),
                                forall|t: int| 0 <= t < priority@.len() ==> cells@.contains(#[trigger] priority@[t])
                                    && priority@[t].2.spec_is_horizontal(),
                                forall|t: int| 0 <= t < q && (#[trigger] cells@[t]).2.spec_is_horizontal() ==> priority@.len() > 0,
                            decreases cells.len() - q,
                        {
                            if cells[q].2.is_horizontal() {
                                priority.push(cells[q]);
                            }
                            q = q + 1;
                        }
                        let selection = if priority.len() == 0 { cells } else { priority };
                        let picked = random_usize(0, selection.len());
                        let (from, to, _) = selection[picked];
                        let roll = random_u32(0, 100);
                        let mut door = Door::new(from, to);
                        door.modifier = door_modifier_from_roll(roll);
                        proof {
                            let a = room.cells@;
                            let b = neighbour_room.cells@;
                            let sel = selection@[picked as int];
                            assert(neighbouring_pairs(a, b).contains(sel));
                            let k = choose|k: int| 0 <= k < neighbouring_pairs(a, b).len() && neighbouring_pairs(a, b)[k] == sel;
                            lemma_neighbouring_pairs_member(a, b, k);
                            assert(door_between_rooms(r, door)) by {
                                assert(r.entries()[room_id as int].spec_room().cells@.contains(door.from));
                                assert(r.entries()[neighbour_id as int].spec_room().cells@.contains(door.to));
                            }
                            if touch_side_by_side(r, room_id as int, neighbour_id as int) {
                                let t = choose|t: int| 0 <= t < cells@.len() && (#[trigger] cells@[t]).2.spec_is_horizontal();
                                assert(priority@.len() > 0);
                                assert(sel.2.spec_is_horizontal());
                            }
                            assert(door_from_to(r, door, room_id as int, neighbour_id as int));
                        }
                        let ghost before = doors@;
                        let ghost queue_before = room_queue@;
                        let ghost connected_before = connected@;
                        doors.push(door);
                        connected.set(room_id, true);
                        connected.set(neighbour_id, true);
                        room_queue.push(neighbour_id);
                        proof {
                            assert(doors@[before.len() as int] == door);
                            assert(r.entries()[neighbour_id as int].spec_room().cells@.contains(door.to));
                            assert(has_door_into(r, doors@, neighbour_id));
                            assert forall|k: int| 0 <= k < doors@.len() implies door_between_rooms(r, #[trigger] doors@[k]) by {
                                if k < before.len() {
                                    assert(doors@[k] == before[k]);
                                }
                            }
                            assert forall|k: int| 0 <= k < doors@.len() implies door_placed(r, #[trigger] doors@[k]) by {
                                if k < before.len() {
                                    assert(doors@[k] == before[k]);
                                } else {
                                    assert(door_from_to(r, doors@[k], room_id as int, neighbour_id as int));
                                }
                            }
                            // door walks: old ones still lead through the doors; the new room is reached through the new door
                            assert(door_step(r, doors@, room_id, neighbour_id)) by {
                                assert(r.entries()[room_id as int].spec_room().cells@.contains(doors@[before.len() as int].from));
                            }
                            assert forall|y: int| 0 <= y < n && #[trigger] visited@[y] implies door_reached(r, doors@, start, y as usize) by {
                                let yu = y as usize;
                                assert(door_reached(r, before, start, yu));
                                let q = choose|q: Seq<usize>| door_walk(r, before, q, start, yu);
                                lemma_door_walk_grow(r, before, door, q, start, yu);
                            }
                            assert forall|z: usize| #[trigger] room_queue@.contains(z) implies door_reached(r, doors@, start, z) by {
                                if z == neighbour_id {
                                    let q = choose|q: Seq<usize>| door_walk(r, before, q, start, room_id);
                                    lemma_door_walk_grow(r, before, door, q, start, room_id);
                                    lemma_door_walk_extend(r, doors@, q, start, room_id, neighbour_id);
                                } else {
                                    let w = choose|w: int| 0 <= w < room_queue@.len() && room_queue@[w] == z;
                                    assert(w < queue_before.len());
                                    assert(queue_before[w] == z);
                                    assert(queue_before.contains(z));
                                    let q = choose|q: Seq<usize>| door_walk(r, before, q, start, z);
                                    lemma_door_walk_grow(r, before, door, q, start, z);
                                }
                            }
                            assert forall|z: usize| #[trigger] queue_before.contains(z) implies room_queue@.contains(z) by {
                                let w = choose|w: int| 0 <= w < queue_before.len() && queue_before[w] == z;
                                assert(room_queue@[w] == z);
                            }
                            assert(room_queue@[queue_before.len() as int] == neighbour_id);
                            assert(room_queue@.contains(neighbour_id));
                            assert forall|y: int| 0 <= y < n && #[trigger] connected@[y] implies visited@[y] || room_queue@.contains(y as usize) by {
                                if y != room_id as int && y != neighbour_id as int {
                                    assert(connected_before[y]);
                                }
                            }
                            assert forall|y: int| 0 <= y < n && y != start && #[trigger] visited@[y]
                                implies has_door_into(r, doors@, y as usize) by {
                                assert(has_door_into(r, before, y as usize));
                                let kk = choose|kk: int| 0 <= kk < before.len()
                                    && r.entries()[y as int].spec_room().cells@.contains((#[trigger] before[kk]).to);
                                assert(doors@[kk] == before[kk]);
                            }
                            assert forall|z: usize| #[trigger] room_queue@.contains(z) && z != start
                                implies has_door_into(r, doors@, z) by {
                                if z != neighbour_id {
                                    let w = choose|w: int| 0 <= w < room_queue@.len() && room_queue@[w] == z;
                                    assert(w < queue_before.len());
                                    assert(queue_before[w] == z);
                                    assert(queue_before.contains(z));
                                    assert(has_door_into(r, before, z));
                                    let kk = choose|kk: int| 0 <= kk < before.len()
                                        && r.entries()[z as int].spec_room().cells@.contains((#[trigger] before[kk]).to);
                                    assert(doors@[kk] == before[kk]);
                                }
                            }
                            assert forall|x: int, y: usize| 0 <= x < n && x != room_id && #[trigger] visited@[x] && #[trigger] joined(r, x as usize, y)
                                implies visited@[y as int] || connected@[y as int] by {
                                if y != neighbour_id && y != room_id {
                                    assert(connected@[y as int] == connected_before[y as int]);
                                }
                            }
                            assert forall|k: int| 0 <= k < j + 1 && #[trigger] joined(r, room_id, neighbours@[k])
                                implies visited@[neighbours@[k] as int] || connected@[neighbours@[k] as int] by {
                                if k < j && neighbours@[k] != neighbour_id && neighbours@[k] != room_id {
                                    assert(connected@[neighbours@[k] as int] == connected_before[neighbours@[k] as int]);
                                }
                            }
                        }
                    },
                    None => {
                        proof {
                            assert(!joined(r, room_id, neighbour_id));
                        }
                    },
                }
                j = j + 1;
            }
            proof {
                assert forall|x: int, y: usize| 0 <= x < n && #[trigger] visited@[x] && #[trigger] joined(r, x as usize, y)
                    implies visited@[y as int] || connected@[y as int] by {
                    if x == room_id as int {
                        assert(neighbours@.contains(y));
                        let k = choose|k: int| 0 <= k < neighbours@.len() && neighbours@[k] == y;
                        assert(joined(r, room_id, neighbours@[k]));
                    }
                }
            }
        }
        proof {
            assert(room_queue@ =~= Seq::<usize>::empty());
            assert forall|x: int, y: usize| 0 <= x < n && #[trigger] visited@[x] && #[trigger] joined(r, x as usize, y)
                implies visited@[y as int] by {
                if !visited@[y as int] {
                    assert(connected@[y as int]);
                }
            }
            assert forall|y: usize, p: Seq<usize>| #[trigger] joined_walk(r, p, start, y) && y != start
                implies has_door_into(r, doors@, y) && door_reached(r, doors@, start, y) by {
                lemma_joined_walk_reached(r, visited@, p, start, y, p.len() - 1);
                assert(p[p.len() - 1] == y);
                assert(visited@[y as int]);
            }
        }
        doors
    }
}

} // verus!
