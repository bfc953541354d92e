//! Marking, between neighbouring maps of a world, the rooms that lead from
//! one map to the other.
use vstd::prelude::*;


use crate::map_builder::MapBuilder;
use crate::centers::{cells_center, squared_distance};
use crate::types::{neighbouring_pairs, room_eq, Direction, GeneratedMap, Rect, Room, RoomModifier};

verus! {

/// From `old` to `new`, every map keeps its rectangle, doors and rooms'
/// cells; a room's modifier may only become a region connection.
pub open spec fn only_connections_marked(old: Seq<GeneratedMap>, new: Seq<GeneratedMap>) -> bool {
    &&& new.len() == old.len()
    &&& forall|i: int| 0 <= i < old.len() ==> {
        &&& (#[trigger] new[i]).origin_rect == old[i].origin_rect
        &&& new[i].doors@ == old[i].doors@
        &&& new[i].rooms@.len() == old[i].rooms@.len()
        &&& forall|k: int| 0 <= k < old[i].rooms@.len() ==> {
            &&& (#[trigger] new[i].rooms@[k]).cells@ == old[i].rooms@[k].cells@
            &&& (new[i].rooms@[k].modifier == old[i].rooms@[k].modifier
                || new[i].rooms@[k].modifier matches Some(RoomModifier::RegionConnection(_)))
        }
    }
}

proof fn lemma_marked_trans(a: Seq<GeneratedMap>, b: Seq<GeneratedMap>, c: Seq<GeneratedMap>)
    requires
        only_connections_marked(a, b),
        only_connections_marked(b, c),
    ensures
        only_connections_marked(a, c),
{
    assert forall|i: int| 0 <= i < a.len() implies {
        &&& (#[trigger] c[i]).origin_rect == a[i].origin_rect
        &&& c[i].doors@ == a[i].doors@
        &&& c[i].rooms@.len() == a[i].rooms@.len()
        &&& forall|k: int| 0 <= k < a[i].rooms@.len() ==> {
            &&& (#[trigger] c[i].rooms@[k]).cells@ == a[i].rooms@[k].cells@
            &&& (c[i].rooms@[k].modifier == a[i].rooms@[k].modifier
                || c[i].rooms@[k].modifier matches Some(RoomModifier::RegionConnection(_)))
        }
    } by {
        assert(b[i].rooms@.len() == a[i].rooms@.len());
        assert forall|k: int| 0 <= k < a[i].rooms@.len() implies {
            &&& (#[trigger] c[i].rooms@[k]).cells@ == a[i].rooms@[k].cells@
            &&& (c[i].rooms@[k].modifier == a[i].rooms@[k].modifier
                || c[i].rooms@[k].modifier matches Some(RoomModifier::RegionConnection(_)))
        } by {
            assert(b[i].rooms@[k].cells@ == a[i].rooms@[k].cells@);
        }
    }
}

/// Whether no other room of `rooms` lies next to room `i` in direction
/// `axis`: the room is on the map's edge on that side.
pub open spec fn at_edge(rooms: Seq<Room>, i: int, axis: Direction) -> bool {
    !exists|j: int| 0 <= j < rooms.len() && !room_eq(rooms[i], #[trigger] rooms[j])
        && exists|k: int| 0 <= k < neighbouring_pairs(rooms[i].cells@, rooms[j].cells@).len()
            && (#[trigger] neighbouring_pairs(rooms[i].cells@, rooms[j].cells@)[k]).2 == axis
}

/// The squared distance between the centres of room `i` of `fr` and room
/// `j` of `tr`.
pub open spec fn rooms_distance(fr: Seq<Room>, tr: Seq<Room>, i: int, j: int) -> int {
    squared_distance(cells_center(fr[i].cells@), cells_center(tr[j].cells@))
}

/// Among the pairs of a room of `fr` at its edge towards `fa` and a room of
/// `tr` at its edge towards `ta` that come before `(i, j)` (rooms of `fr`
/// below `i` with any room of `tr`, then room `i` with the rooms of `tr`
/// below `j`), the pair whose centres are nearest; the first met of equally
/// near pairs.
pub open spec fn nearest_edge_pair(fr: Seq<Room>, tr: Seq<Room>, fa: Direction, ta: Direction, i: int, j: int) -> Option<(usize, usize)>
    decreases i, j,
{
    if j > 0 {
        let prev = nearest_edge_pair(fr, tr, fa, ta, i, j - 1);
        let closer = match prev {
            Some((pi, pj)) => rooms_distance(fr, tr, i, j - 1) < rooms_distance(fr, tr, pi as int, pj as int),
            None => true,
        };
        if at_edge(fr, i, fa) && at_edge(tr, j - 1, ta) && closer {
            Some((i as usize, (j - 1) as usize))
        } else {
            prev
        }
    } else if i > 0 {
        nearest_edge_pair(fr, tr, fa, ta, i - 1, tr.len() as int)
    } else {
        None
    }
}

/// The rooms of `fr` and `tr` that get joined: the nearest pair of edge
/// rooms, or the first room of each when there is none.
pub open spec fn edge_pick(fr: Seq<Room>, tr: Seq<Room>, fa: Direction, ta: Direction) -> (usize, usize) {
    match nearest_edge_pair(fr, tr, fa, ta, fr.len() as int, 0) {
        Some(p) => p,
        None => (0, 0),
    }
}

/// `new` is `old` with the modifier of room `k` (if there is one) set to
/// `modifier`, and nothing else changed.
pub open spec fn marked_room(old: GeneratedMap, new: GeneratedMap, k: int, modifier: RoomModifier) -> bool {
    &&& new.origin_rect == old.origin_rect
    &&& new.doors@ == old.doors@
    &&& new.rooms@.len() == old.rooms@.len()
    &&& forall|q: int| 0 <= q < old.rooms@.len() ==> {
        &&& (#[trigger] new.rooms@[q]).cells@ == old.rooms@[q].cells@
        &&& new.rooms@[q].modifier == if q == k { Some(modifier) } else { old.rooms@[q].modifier }
    }
}

/// A row of pairs whose room of `fr` is not at its edge adds nothing.
proof fn lemma_row_skipped(fr: Seq<Room>, tr: Seq<Room>, fa: Direction, ta: Direction, i: int, j: int)
    requires
        !at_edge(fr, i, fa),
        0 <= j,
    ensures
        nearest_edge_pair(fr, tr, fa, ta, i, j) == nearest_edge_pair(fr, tr, fa, ta, i, 0),
    decreases j,
{
    if j > 0 {
        lemma_row_skipped(fr, tr, fa, ta, i, j - 1);
    }
}

/// The pair found lies within the pairs looked at.
proof fn lemma_edge_pair_bound(fr: Seq<Room>, tr: Seq<Room>, fa: Direction, ta: Direction, i: int, j: int)
    requires
        0 <= i,
        0 <= j <= tr.len(),
    ensures
        nearest_edge_pair(fr, tr, fa, ta, i, j) matches Some(p) ==> (p.1 as int) < tr.len()
            && ((p.0 as int) < i || (p.0 as int == i && (p.1 as int) < j)),
    decreases i, j,
{
    if j > 0 {
        lemma_edge_pair_bound(fr, tr, fa, ta, i, j - 1);
    } else if i > 0 {
        lemma_edge_pair_bound(fr, tr, fa, ta, i - 1, tr.len() as int);
    }
}

/// The rooms picked are rooms of their maps, when the maps have rooms.
proof fn lemma_edge_pick_bound(fr: Seq<Room>, tr: Seq<Room>, fa: Direction, ta: Direction)
    ensures
        fr.len() > 0 ==> (edge_pick(fr, tr, fa, ta).0 as int) < fr.len(),
        tr.len() > 0 ==> (edge_pick(fr, tr, fa, ta).1 as int) < tr.len(),
{
    lemma_edge_pair_bound(fr, tr, fa, ta, fr.len() as int, 0);
}

/// Whether the rectangle of map `b` touches that of map `a`, as
/// `Rect::is_neighbour_of` on `a` sees it.
pub open spec fn maps_adjacent(maps: Seq<GeneratedMap>, a: int, b: int) -> bool {
    maps[a].origin_rect.spec_neighbour_dir(maps[b].origin_rect) is Some
}

/// `w` is a walk from the first map, each map adjacent to the one before.
pub open spec fn map_walk(maps: Seq<GeneratedMap>, w: Seq<usize>) -> bool {
    &&& w.len() >= 1
    &&& w[0] == 0
    &&& forall|k: int| 0 <= k < w.len() ==> (#[trigger] w[k] as int) < maps.len()
    &&& forall|k: int| 0 <= k < w.len() - 1 ==> maps_adjacent(maps, #[trigger] w[k] as int, w[k + 1] as int)
}

/// Some room of the map is marked as a region connection.
pub open spec fn has_connection(m: GeneratedMap) -> bool {
    exists|k: int| 0 <= k < m.rooms@.len() && (#[trigger] m.rooms@[k]).modifier matches Some(RoomModifier::RegionConnection(_))
}

/// `new` is what linking the maps `old` gives (see `connect_regions`): only
/// region connections are marked, every map with rooms that a walk over
/// adjacent maps from the first map reaches has a room marked as a region
/// connection, and so has the first map when it has rooms and a neighbour.
pub open spec fn regions_linked(old: Seq<GeneratedMap>, new: Seq<GeneratedMap>) -> bool {
    &&& only_connections_marked(old, new)
    &&& forall|w: Seq<usize>| #[trigger] map_walk(old, w) && w.last() != 0
        && old[w.last() as int].rooms@.len() > 0 ==> has_connection(new[w.last() as int])
    &&& (exists|y: int| 0 <= y < old.len() && maps_adjacent(old, 0, y))
        && old[0].rooms@.len() > 0 ==> has_connection(new[0])
}

/// A room marked as a region connection stays marked.
proof fn lemma_connection_kept(a: Seq<GeneratedMap>, b: Seq<GeneratedMap>, x: int)
    requires
        only_connections_marked(a, b),
        0 <= x < a.len(),
        has_connection(a[x]),
    ensures
        has_connection(b[x]),
{
    let k = choose|k: int| 0 <= k < a[x].rooms@.len() && (#[trigger] a[x].rooms@[k]).modifier matches Some(RoomModifier::RegionConnection(_));
    assert(b[x].rooms@[k].modifier matches Some(RoomModifier::RegionConnection(_)));
}

/// Every map of a walk from the first map lies in a set that holds the
/// first map and every map adjacent to one of its maps.
proof fn lemma_walk_closed(maps: Seq<GeneratedMap>, w: Seq<usize>, reached: Seq<bool>)
    requires
        map_walk(maps, w),
        reached.len() == maps.len(),
        maps.len() > 0,
        reached[0],
        forall|x: int, y: int| 0 <= x < maps.len() && 0 <= y < maps.len() && #[trigger] reached[x]
            && maps_adjacent(maps, x, y) ==> #[trigger] reached[y],
    ensures
        reached[w.last() as int],
    decreases w.len(),
{
    if w.len() > 1 {
        let v = w.drop_last();
        assert forall|k: int| 0 <= k < v.len() - 1 implies maps_adjacent(maps, #[trigger] v[k] as int, v[k + 1] as int) by {
            assert(v[k] == w[k] && v[k + 1] == w[k + 1]);
        }
        assert forall|k: int| 0 <= k < v.len() implies (#[trigger] v[k] as int) < maps.len() by {
            assert(v[k] == w[k]);
        }
        lemma_walk_closed(maps, v, reached);
        let k = w.len() - 2;
        assert(maps_adjacent(maps, w[k] as int, w[k + 1] as int));
        assert(v.last() == w[k]);
    }
}

/// Whether some room of `rooms` lies next to `room` in direction `axis`.
fn faces_room(rooms: &Vec<Room>, room: &Room, axis: Direction) -> (r: bool)
    ensures
        r == exists|j: int| 0 <= j < rooms@.len() && !crate::types::room_eq(*room, #[trigger] rooms@[j])
            && exists|k: int| 0 <= k < crate::types::neighbouring_pairs(room.cells@, rooms@[j].cells@).len()
                && (#[trigger] crate::types::neighbouring_pairs(room.cells@, rooms@[j].cells@)[k]).2 == axis,
{
    let mut j: usize = 0;
    while j < rooms.len()
        invariant
            0 <= j <= rooms.len(),
            forall|q: int| 0 <= q < j ==> !(!crate::types::room_eq(*room, #[trigger] rooms@[q])
                && exists|k: int| 0 <= k < crate::types::neighbouring_pairs(room.cells@, rooms@[q].cells@).len()
                    && (#[trigger] crate::types::neighbouring_pairs(room.cells@, rooms@[q].cells@)[k]).2 == axis),
        decreases rooms.len() - j,
    {
        match room.get_neighbouring_cells_for(&rooms[j]) {
            Some(pairs) => {
                let mut k: usize = 0;
                while k < pairs.len()
                    invariant
                        0 <= k <= pairs.len(),
                        (j as int) < rooms@.len(),
                        !crate::types::room_eq(*room, rooms@[j as int]),
                        pairs@ == crate::types::neighbouring_pairs(room.cells@, rooms@[j as int].cells@),
                        forall|q: int| 0 <= q < k ==> (#[trigger] pairs@[q]).2 != axis,
                    decreases pairs.len() - k,
                {
                    if pairs[k].2 == axis {
                        proof {
                            assert(crate::types::neighbouring_pairs(room.cells@, rooms@[j as int].cells@)[k as int] == pairs@[k as int]);
                        }
                        return true;
                    }
                    k = k + 1;
                }
            },
            None => {},
        }
        j = j + 1;
    }
    false
}

/// Sets the modifier of room `k` of `map`, if it has such a room.
fn mark_room(map: &mut GeneratedMap, k: usize, modifier: RoomModifier)
    requires
        modifier matches RoomModifier::RegionConnection(_),
    ensures
        only_connections_marked(seq![*old(map)], seq![*final(map)]),
        marked_room(*old(map), *final(map), k as int, modifier),
{
    if k < map.rooms.len() {
        let ghost before = map.rooms@;
        let mut room = Room { cells: Vec::new(), modifier: None };
        std::mem::swap(&mut room, &mut map.rooms[k]);
        room.modifier = Some(modifier);
        map.rooms.set(k, room);
        proof {
            assert forall|q: int| 0 <= q < before.len() implies {
                &&& (#[trigger] map.rooms@[q]).cells@ == before[q].cells@
                &&& (map.rooms@[q].modifier == before[q].modifier
                    || map.rooms@[q].modifier matches Some(RoomModifier::RegionConnection(_)))
            } by {
            }
        }
    }
    proof {
        let a = seq![*old(map)];
        let b = seq![*map];
        assert(a[0] == *old(map));
        assert(b[0] == *map);
    }
}

impl MapBuilder {
    /// Marks the rooms that lead from map `from_region_id` to its neighbour
    /// `to_region_id`: among the rooms of each map with no room of their
    /// own map beyond them towards the other map, the two whose centres are
    /// nearest (the first such pair met) become region connections facing
    /// each other; with no such pair, the first room of each map does.
    pub fn link_closest_rooms(from_region_id: usize, to_region_id: usize, regions: &mut Vec<GeneratedMap>)
        requires
            from_region_id != to_region_id,
            (from_region_id as int) < old(regions)@.len(),
            (to_region_id as int) < old(regions)@.len(),
            old(regions)@[from_region_id as int].origin_rect.well_placed(),
            old(regions)@[to_region_id as int].origin_rect.well_placed(),
            old(regions)@[from_region_id as int].origin_rect.spec_neighbour_dir(old(regions)@[to_region_id as int].origin_rect) is Some,
        ensures
            only_connections_marked(old(regions)@, final(regions)@),
            ({
                let fm = old(regions)@[from_region_id as int];
                let tm = old(regions)@[to_region_id as int];
                let fa = fm.origin_rect.spec_neighbour_dir(tm.origin_rect)->0;
                let ta = fa.spec_reverse();
                let pick = edge_pick(fm.rooms@, tm.rooms@, fa, ta);
                &&& forall|m: int| 0 <= m < old(regions)@.len() && m != from_region_id && m != to_region_id
                    ==> #[trigger] final(regions)@[m] == old(regions)@[m]
                &&& marked_room(fm, final(regions)@[from_region_id as int], pick.0 as int, RoomModifier::RegionConnection(fa))
                &&& marked_room(tm, final(regions)@[to_region_id as int], pick.1 as int, RoomModifier::RegionConnection(ta))
            }),
    {
        let from_axis = match regions[from_region_id].origin_rect.is_neighbour_of(&regions[to_region_id].origin_rect) {
            Some(d) => d,
            None => {
                assert(false);
                Direction::North
            },
        };
        let to_axis = from_axis.reverse();
        let mut closest_distance: u128 = u128::MAX;
        let mut closest: (usize, usize) = (0, 0);
        let ghost fr = regions@[from_region_id as int].rooms@;
        let ghost tr = regions@[to_region_id as int].rooms@;
        {
            let from_rooms = &regions[from_region_id].rooms;
            let to_rooms = &regions[to_region_id].rooms;
            let mut i: usize = 0;
            while i < from_rooms.len()
                invariant
                    0 <= i <= from_rooms.len(),
                    fr == from_rooms@,
                    tr == to_rooms@,
                    nearest_edge_pair(fr, tr, from_axis, to_axis, i as int, 0) matches Some(p) ==> closest == p
                        && closest_distance == rooms_distance(fr, tr, p.0 as int, p.1 as int),
                    nearest_edge_pair(fr, tr, from_axis, to_axis, i as int, 0) is None ==> closest == (0usize, 0usize)
                        && closest_distance == u128::MAX,
                decreases from_rooms.len() - i,
            {
                let from_room = &from_rooms[i];
                if !faces_room(from_rooms, from_room, from_axis) {
                    let from_center = from_room.get_center();
                    let mut j: usize = 0;
                    while j < to_rooms.len()
                        invariant
                            0 <= j <= to_rooms.len(),
                            (i as int) < fr.len(),
                            fr == from_rooms@,
                            tr == to_rooms@,
                            from_center == cells_center(fr[i as int].cells@),
                            from_center.in_grid(),
                            at_edge(fr, i as int, from_axis),
                            nearest_edge_pair(fr, tr, from_axis, to_axis, i as int, j as int) matches Some(p) ==> closest == p
                                && closest_distance == rooms_distance(fr, tr, p.0 as int, p.1 as int),
                            nearest_edge_pair(fr, tr, from_axis, to_axis, i as int, j as int) is None ==> closest == (0usize, 0usize)
                                && closest_distance == u128::MAX,
                        decreases to_rooms.len() - j,
                    {
                        let to_room = &to_rooms[j];
                        if !faces_room(to_rooms, to_room, to_axis) {
                            let distance = from_center.distance(&to_room.get_center());
                            if distance < closest_distance {
                                closest_distance = distance;
                                closest = (i, j);
                            }
                        }
                        j = j + 1;
                    }
                    proof {
                        assert(nearest_edge_pair(fr, tr, from_axis, to_axis, i + 1, 0)
                            == nearest_edge_pair(fr, tr, from_axis, to_axis, i as int, tr.len() as int));
                    }
                } else {
                    proof {
                        lemma_row_skipped(fr, tr, from_axis, to_axis, i as int, tr.len() as int);
                        assert(nearest_edge_pair(fr, tr, from_axis, to_axis, i + 1, 0)
                            == nearest_edge_pair(fr, tr, from_axis, to_axis, i as int, tr.len() as int));
                    }
                }
                i = i + 1;
            }
        }
        proof {
            assert(closest == edge_pick(fr, tr, from_axis, to_axis));
        }
        let ghost start = regions@;
        let mut from_map = GeneratedMap { origin_rect: Rect::new(0, 0, 0, 0), rooms: Vec::new(), doors: Vec::new() };
        std::mem::swap(&mut from_map, &mut regions[from_region_id]);
        let ghost from_before = from_map;
        mark_room(&mut from_map, closest.0, RoomModifier::RegionConnection(from_axis));
        let ghost from_after = from_map;
        regions.set(from_region_id, from_map);
        let ghost mid = regions@;
        proof {
            let a = seq![from_before];
            let b = seq![regions@[from_region_id as int]];
            assert(a[0] == from_before);
            assert(b[0] == regions@[from_region_id as int]);
            assert(only_connections_marked(start, mid)) by {
                assert forall|i: int| 0 <= i < start.len() implies {
                    &&& (#[trigger] mid[i]).origin_rect == start[i].origin_rect
                    &&& mid[i].doors@ == start[i].doors@
                    &&& mid[i].rooms@.len() == start[i].rooms@.len()
                    &&& forall|k: int| 0 <= k < start[i].rooms@.len() ==> {
                        &&& (#[trigger] mid[i].rooms@[k]).cells@ == start[i].rooms@[k].cells@
                        &&& (mid[i].rooms@[k].modifier == start[i].rooms@[k].modifier
                            || mid[i].rooms@[k].modifier matches Some(RoomModifier::RegionConnection(_)))
                    }
                } by {
                    if i == from_region_id as int {
                        assert(only_connections_marked(a, b));
                        assert(a[0] == start[i]);
                        assert(b[0] == mid[i]);
                    }
                }
            }
        }
        let mut to_map = GeneratedMap { origin_rect: Rect::new(0, 0, 0, 0), rooms: Vec::new(), doors: Vec::new() };
        std::mem::swap(&mut to_map, &mut regions[to_region_id]);
        let ghost to_before = to_map;
        mark_room(&mut to_map, closest.1, RoomModifier::RegionConnection(to_axis));
        regions.set(to_region_id, to_map);
        proof {
            let a = seq![to_before];
            let b = seq![regions@[to_region_id as int]];
            assert(a[0] == to_before);
            assert(b[0] == regions@[to_region_id as int]);
            assert(only_connections_marked(mid, regions@)) by {
                assert forall|i: int| 0 <= i < mid.len() implies {
                    &&& (#[trigger] regions@[i]).origin_rect == mid[i].origin_rect
                    &&& regions@[i].doors@ == mid[i].doors@
                    &&& regions@[i].rooms@.len() == mid[i].rooms@.len()
                    &&& forall|k: int| 0 <= k < mid[i].rooms@.len() ==> {
                        &&& (#[trigger] regions@[i].rooms@[k]).cells@ == mid[i].rooms@[k].cells@
                        &&& (regions@[i].rooms@[k].modifier == mid[i].rooms@[k].modifier
                            || regions@[i].rooms@[k].modifier matches Some(RoomModifier::RegionConnection(_)))
                    }
                } by {
                    if i == to_region_id as int {
                        assert(only_connections_marked(a, b));
                        assert(a[0] == mid[i]);
                        assert(b[0] == regions@[i]);
                    }
                }
            }
            lemma_marked_trans(start, mid, regions@);
            assert(regions@[from_region_id as int] == from_after);
            assert(to_before == start[to_region_id as int]);
            assert(from_before == start[from_region_id as int]);
        }
    }

    /// Links neighbouring maps: a depth-first walk from the first map goes
    /// to every map whose rectangle is adjacent to the current one and not
    /// yet reached, and each step of the walk is marked by
    /// `link_closest_rooms`. So every map with rooms that a walk from the
    /// first map reaches gets a room marked as a region connection; no map,
    /// nothing to link.
    pub fn connect_regions(regions: &mut Vec<GeneratedMap>)
        requires
            forall|k: int| 0 <= k < old(regions)@.len() ==> (#[trigger] old(regions)@[k]).origin_rect.well_placed(),
        ensures
            only_connections_marked(old(regions)@, final(regions)@),
            forall|w: Seq<usize>| #[trigger] map_walk(old(regions)@, w) && w.last() != 0
                && old(regions)@[w.last() as int].rooms@.len() > 0 ==> has_connection(final(regions)@[w.last() as int]),
            (exists|y: int| 0 <= y < old(regions)@.len() && maps_adjacent(old(regions)@, 0, y))
                && old(regions)@[0].rooms@.len() > 0 ==> has_connection(final(regions)@[0]),
    {
        let n = regions.len();
        let ghost start = regions@;
        proof {
            assert(only_connections_marked(start, regions@)) by {
                assert forall|i: int| 0 <= i < start.len() implies {
                    &&& (#[trigger] regions@[i]).origin_rect == start[i].origin_rect
                    &&& regions@[i].doors@ == start[i].doors@
                    &&& regions@[i].rooms@.len() == start[i].rooms@.len()
                    &&& forall|k: int| 0 <= k < start[i].rooms@.len() ==> {
                        &&& (#[trigger] regions@[i].rooms@[k]).cells@ == start[i].rooms@[k].cells@
                        &&& (regions@[i].rooms@[k].modifier == start[i].rooms@[k].modifier
                            || regions@[i].rooms@[k].modifier matches Some(RoomModifier::RegionConnection(_)))
                    }
                } by {
                }
            }
        }
        if n == 0 {
            return;
        }
        let mut expanded: Vec<bool> = Vec::new();
        let mut i: usize = 0;
        while i < n
            invariant
                0 <= i <= n,
                expanded@.len() == i,
                forall|k: int| 0 <= k < i ==> !(#[trigger] expanded@[k]),
                crate::reconnect_rooms::count_true(expanded@) == 0,
            decreases n - i,
        {
            let ghost before = expanded@;
            expanded.push(false);
            proof {
                assert(expanded@.drop_last() =~= before);
            }
            i = i + 1;
        }
        proof {
            crate::reconnect_rooms::lemma_count_true_set(expanded@, 0);
            crate::reconnect_rooms::lemma_count_true_bound(expanded@.update(0, true));
        }
        expanded.set(0, true);
        let mut expanded_count: usize = 1;
        let mut to_visit: Vec<usize> = Vec::new();
        to_visit.push(0);
        let mut links: Vec<(usize, usize)> = Vec::new();
        proof {
            assert(to_visit@ =~= seq![0usize]);
            assert(to_visit@[0] == 0usize);
            assert(to_visit@.contains(0usize));
            assert forall|x: int| 0 < x < n implies !#[trigger] expanded@[x] by {}
            assert forall|x: usize| #[trigger] to_visit@.contains(x) implies x == 0 by {}
        }
        while to_visit.len() > 0
            invariant
                n == regions@.len(),
                n > 0,
                regions@ == start,
                forall|k: int| 0 <= k < n ==> (#[trigger] start[k]).origin_rect.well_placed(),
                expanded@.len() == n,
                expanded_count == crate::reconnect_rooms::count_true(expanded@),
                expanded_count <= n,
                expanded@[0],
                to_visit@.no_duplicates(),
                forall|k: int| 0 <= k < to_visit@.len() ==> (#[trigger] to_visit@[k] as int) < n && expanded@[to_visit@[k] as int],
                to_visit@.contains(0usize) ==> to_visit@ == seq![0usize] && forall|y: int| 0 < y < n ==> !#[trigger] expanded@[y],
                forall|x: int, y: int| 0 <= x < n && 0 <= y < n && #[trigger] expanded@[x] && !to_visit@.contains(x as usize)
                    && maps_adjacent(start, x, y) ==> #[trigger] expanded@[y],
                forall|x: int| 0 < x < n && #[trigger] expanded@[x] ==> exists|l: int| 0 <= l < links@.len() && (#[trigger] links@[l]).1 == x,
                !to_visit@.contains(0usize) && (exists|y: int| 0 <= y < n && maps_adjacent(start, 0, y))
                    ==> exists|l: int| 0 <= l < links@.len() && (#[trigger] links@[l]).0 == 0,
                forall|k: int| 0 <= k < links@.len() ==> {
                    &&& (#[trigger] links@[k]).0 != links@[k].1
                    &&& (links@[k].0 as int) < n
                    &&& (links@[k].1 as int) < n
                    &&& start[links@[k].0 as int].origin_rect.spec_neighbour_dir(start[links@[k].1 as int].origin_rect) is Some
                },
            decreases n - expanded_count, to_visit@.len(),
        {
            let ghost pre = to_visit@;
            let region_idx = to_visit.pop().unwrap();
            let ghost rest = to_visit@;
            proof {
                assert(pre == rest.push(region_idx));
                assert(pre[pre.len() - 1] == region_idx);
                assert forall|z: usize| #[trigger] pre.contains(z) <==> (rest.contains(z) || z == region_idx) by {
                    crate::seq_facts::lemma_push_contains(rest, region_idx, z);
                }
                assert(!rest.contains(region_idx)) by {
                    if rest.contains(region_idx) {
                        let q = choose|q: int| 0 <= q < rest.len() && rest[q] == region_idx;
                        assert(pre[q] == pre[pre.len() - 1]);
                    }
                }
                assert(rest.no_duplicates()) by {
                    assert forall|a: int, b: int| 0 <= a < b < rest.len() implies rest[a] != rest[b] by {
                        assert(rest[a] == pre[a] && rest[b] == pre[b]);
                    }
                }
                if region_idx == 0 {
                    assert(pre.contains(0usize));
                }
                if pre.contains(0usize) {
                    assert(pre == seq![0usize]);
                    assert(rest.len() == 0);
                }
            }
            let mut nb: usize = 0;
            let ghost len_after_pop = to_visit@.len();
            let ghost count_at_pop = expanded_count;
            let ghost first = region_idx == 0;
            while nb < n
                invariant
                    0 <= nb <= n,
                    n == regions@.len(),
                    regions@ == start,
                    (region_idx as int) < n,
                    expanded@[region_idx as int],
                    expanded@[0],
                    first == (region_idx == 0),
                    first ==> rest.len() == 0,
                    first ==> forall|y: int| nb <= y < n && y != 0 ==> !#[trigger] expanded@[y],
                    forall|k: int| 0 <= k < n ==> (#[trigger] start[k]).origin_rect.well_placed(),
                    expanded@.len() == n,
                    expanded_count == crate::reconnect_rooms::count_true(expanded@),
                    expanded_count <= n,
                    expanded_count >= count_at_pop,
                    expanded_count == count_at_pop ==> to_visit@.len() == len_after_pop,
                    to_visit@.no_duplicates(),
                    !to_visit@.contains(region_idx),
                    !to_visit@.contains(0usize),
                    forall|z: usize| #[trigger] rest.contains(z) ==> to_visit@.contains(z),
                    forall|k: int| 0 <= k < to_visit@.len() ==> (#[trigger] to_visit@[k] as int) < n && expanded@[to_visit@[k] as int],
                    forall|x: int, y: int| 0 <= x < n && 0 <= y < n && #[trigger] expanded@[x] && !to_visit@.contains(x as usize)
                        && x != region_idx && maps_adjacent(start, x, y) ==> #[trigger] expanded@[y],
                    forall|y: int| 0 <= y < nb && maps_adjacent(start, region_idx as int, y) ==> #[trigger] expanded@[y],
                    forall|x: int| 0 < x < n && #[trigger] expanded@[x] ==> exists|l: int| 0 <= l < links@.len() && (#[trigger] links@[l]).1 == x,
                    !rest.contains(0usize) && region_idx != 0 && (exists|y: int| 0 <= y < n && maps_adjacent(start, 0, y))
                        ==> exists|l: int| 0 <= l < links@.len() && (#[trigger] links@[l]).0 == 0,
                    first && (exists|y: int| 0 <= y < nb && maps_adjacent(start, 0, y))
                        ==> exists|l: int| 0 <= l < links@.len() && (#[trigger] links@[l]).0 == 0,
                    forall|k: int| 0 <= k < links@.len() ==> {
                        &&& (#[trigger] links@[k]).0 != links@[k].1
                        &&& (links@[k].0 as int) < n
                        &&& (links@[k].1 as int) < n
                        &&& start[links@[k].0 as int].origin_rect.spec_neighbour_dir(start[links@[k].1 as int].origin_rect) is Some
                    },
                decreases n - nb,
            {
                let ghost exp0 = expanded@;
                let ghost links0 = links@;
                let ghost tv0 = to_visit@;
                if region_idx != nb && !expanded[nb] {
                    if regions[region_idx].origin_rect.is_neighbour_of(&regions[nb].origin_rect).is_some() {
                        proof {
                            crate::reconnect_rooms::lemma_count_true_set(expanded@, nb as int);
                            crate::reconnect_rooms::lemma_count_true_bound(expanded@.update(nb as int, true));
                            assert(!tv0.contains(nb)) by {
                                if tv0.contains(nb) {
                                    let q = choose|q: int| 0 <= q < tv0.len() && tv0[q] == nb;
                                }
                            }
                        }
                        expanded.set(nb, true);
                        expanded_count = expanded_count + 1;
                        to_visit.push(nb);
                        links.push((region_idx, nb));
                        proof {
                            crate::seq_facts::lemma_push_no_duplicates(tv0, nb);
                            assert forall|z: usize| #[trigger] to_visit@.contains(z) <==> (tv0.contains(z) || z == nb) by {
                                crate::seq_facts::lemma_push_contains(tv0, nb, z);
                            }
                            assert(links@[links0.len() as int] == (region_idx, nb));
                            assert forall|x: int| 0 < x < n && #[trigger] expanded@[x] implies exists|l: int| 0 <= l < links@.len() && (#[trigger] links@[l]).1 == x by {
                                if x == nb as int {
                                    assert(links@[links0.len() as int].1 == x);
                                } else {
                                    assert(exp0[x]);
                                    let l = choose|l: int| 0 <= l < links0.len() && (#[trigger] links0[l]).1 == x;
                                    assert(links@[l] == links0[l]);
                                }
                            }
                            if exists|l: int| 0 <= l < links0.len() && (#[trigger] links0[l]).0 == 0 {
                                let l = choose|l: int| 0 <= l < links0.len() && (#[trigger] links0[l]).0 == 0;
                                assert(links@[l] == links0[l]);
                            }
                            if first {
                                assert(links@[links0.len() as int].0 == 0);
                            }
                            assert forall|k: int| 0 <= k < to_visit@.len() implies (#[trigger] to_visit@[k] as int) < n && expanded@[to_visit@[k] as int] by {
                                if k < tv0.len() {
                                    assert(to_visit@[k] == tv0[k]);
                                }
                            }
                        }
                    }
                }
                proof {
                    if first && exists|y: int| 0 <= y < nb + 1 && maps_adjacent(start, 0, y) {
                        if !(exists|y: int| 0 <= y < nb && maps_adjacent(start, 0, y)) {
                            let y = choose|y: int| 0 <= y < nb + 1 && maps_adjacent(start, 0, y);
                            assert(y == nb as int);
                            assert(start[0].origin_rect.spec_neighbour_dir(start[0].origin_rect) is None);
                            assert(nb != 0);
                            assert(!exp0[nb as int]);
                        }
                    }
                }
                nb = nb + 1;
            }
            proof {
                assert forall|x: int, y: int| 0 <= x < n && 0 <= y < n && #[trigger] expanded@[x] && !to_visit@.contains(x as usize)
                    && maps_adjacent(start, x, y) implies #[trigger] expanded@[y] by {
                }
                if first {
                    assert(!to_visit@.contains(0usize));
                }
            }
        }
        proof {
            assert forall|x: int, y: int| 0 <= x < n && 0 <= y < n && #[trigger] expanded@[x]
                && maps_adjacent(start, x, y) implies #[trigger] expanded@[y] by {
                assert(!to_visit@.contains(x as usize));
            }
            assert(!to_visit@.contains(0usize));
        }
        let ghost reached = expanded@;
        let mut l: usize = 0;
        while l < links.len()
            invariant
                0 <= l <= links.len(),
                n == start.len(),
                regions@.len() == n,
                forall|k: int| 0 <= k < n ==> (#[trigger] start[k]).origin_rect.well_placed(),
                only_connections_marked(start, regions@),
                forall|k: int| 0 <= k < links@.len() ==> {
                    &&& (#[trigger] links@[k]).0 != links@[k].1
                    &&& (links@[k].0 as int) < n
                    &&& (links@[k].1 as int) < n
                    &&& start[links@[k].0 as int].origin_rect.spec_neighbour_dir(start[links@[k].1 as int].origin_rect) is Some
                },
                forall|k: int| 0 <= k < l ==> (start[(#[trigger] links@[k]).0 as int].rooms@.len() > 0 ==> has_connection(regions@[links@[k].0 as int]))
                    && (start[links@[k].1 as int].rooms@.len() > 0 ==> has_connection(regions@[links@[k].1 as int])),
            decreases links.len() - l,
        {
            let (from, to) = links[l];
            let ghost before = regions@;
            proof {
                assert(regions@[from as int].origin_rect == start[from as int].origin_rect);
                assert(regions@[to as int].origin_rect == start[to as int].origin_rect);
            }
            Self::link_closest_rooms(from, to, regions);
            proof {
                lemma_marked_trans(start, before, regions@);
                let fm = before[from as int];
                let tm = before[to as int];
                let fa = fm.origin_rect.spec_neighbour_dir(tm.origin_rect)->0;
                let ta = fa.spec_reverse();
                let pick = edge_pick(fm.rooms@, tm.rooms@, fa, ta);
                lemma_edge_pick_bound(fm.rooms@, tm.rooms@, fa, ta);
                if start[from as int].rooms@.len() > 0 {
                    assert(regions@[from as int].rooms@[pick.0 as int].modifier matches Some(RoomModifier::RegionConnection(_)));
                }
                if start[to as int].rooms@.len() > 0 {
                    assert(regions@[to as int].rooms@[pick.1 as int].modifier matches Some(RoomModifier::RegionConnection(_)));
                }
                assert forall|k: int| 0 <= k < l + 1 implies (start[(#[trigger] links@[k]).0 as int].rooms@.len() > 0 ==> has_connection(regions@[links@[k].0 as int]))
                    && (start[links@[k].1 as int].rooms@.len() > 0 ==> has_connection(regions@[links@[k].1 as int])) by {
                    if k < l {
                        if start[links@[k].0 as int].rooms@.len() > 0 {
                            lemma_connection_kept(before, regions@, links@[k].0 as int);
                        }
                        if start[links@[k].1 as int].rooms@.len() > 0 {
                            lemma_connection_kept(before, regions@, links@[k].1 as int);
                        }
                    }
                }
            }
            l = l + 1;
        }
        proof {
            assert forall|w: Seq<usize>| #[trigger] map_walk(start, w) && w.last() != 0
                && start[w.last() as int].rooms@.len() > 0 implies has_connection(regions@[w.last() as int]) by {
                lemma_walk_closed(start, w, reached);
                let x = w.last() as int;
                assert(w[w.len() - 1] == w.last());
                let q = choose|q: int| 0 <= q < links@.len() && (#[trigger] links@[q]).1 == x;
            }
            if (exists|y: int| 0 <= y < n && maps_adjacent(start, 0, y)) && start[0].rooms@.len() > 0 {
                let q = choose|q: int| 0 <= q < links@.len() && (#[trigger] links@[q]).0 == 0;
            }
        }
    }
}

} // verus!
