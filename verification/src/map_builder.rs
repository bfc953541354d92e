//! The map builder: turns a width and a height into finished maps.
use vstd::prelude::*;

use std::collections::HashMap;

use crate::bsp::{
    all_apart, apart, inside, part_tables, partition_tables_ok, table_rect, tables_apart, trimmed_from, BinarySpacePartitioning, NeighbourTable, RectTable, MIN_RECT_HEIGHT,
    MIN_RECT_WIDTH,
};
use crate::builder_config::MapBuilderConfig;
use crate::rng::CHANCE_SCALE;
use crate::map_region::{
    active_rooms, filled, has_source, initial_entry, least_id, lemma_active_room_place, lemma_active_rooms_prefix, lemma_id_bounds,
    lowered, map_keys, MapRegion, RoomEntry,
};
use crate::merge_rooms::{active_cells, disjoint_active_pairs, in_pairs, merged_by};
use crate::merge_regions::{concat_entries, lemma_concat_take_step};
use crate::neighbour_set::set_elems;
use crate::room_decorator::RoomDecoratorFactory;
use crate::types::{cell_neighbour_dir, in_rect, lemma_rect_cells, Cell, Door, GeneratedMap, MapStyle, Rect, Room, RoomId};

verus! {

/// Builds maps of `cols` by `rows` cells.
#[derive(Debug, Clone, Copy, PartialEq, Eq, Structural)]
pub struct MapBuilder {
    pub cols: u32,
    pub rows: u32,
}

/// A map was asked for with no columns or no rows.
#[derive(Debug, Clone, Copy, PartialEq, Eq, Structural)]
pub struct ZeroDimensionError {
    pub cols: u32,
    pub rows: u32,
}

/// Rooms made from the rectangles of a table, under the same ids.
fn rooms_from_rects(table: RectTable, region: Rect) -> (rooms: HashMap<RoomId, Room>)
    requires
        region.well_placed(),
        forall|k: usize| #[trigger] table@.dom().contains(k) ==> inside(table@[k], region),
    ensures
        rooms@.dom() == table@.dom(),
        forall|k: usize| #[trigger] rooms@.dom().contains(k) ==> rooms@[k].cells@ == table@[k].spec_cells()
            && rooms@[k].modifier is None,
{
    let keys = map_keys(&table);
    let mut table = table;
    let ghost table0 = table@;
    let mut rooms: HashMap<RoomId, Room> = HashMap::new();
    let mut i: usize = 0;
    while i < keys.len()
        invariant
            0 <= i <= keys.len(),
            region.well_placed(),
            keys@.no_duplicates(),
            keys@.to_set() == table0.dom(),
            forall|k: usize| #[trigger] table0.dom().contains(k) ==> inside(table0[k], region),
            table@ == table0.remove_keys(keys@.take(i as int).to_set()),
            rooms@.dom() == keys@.take(i as int).to_set(),
            forall|k: usize| #[trigger] rooms@.dom().contains(k) ==> rooms@[k].cells@ == table0[k].spec_cells()
                && rooms@[k].modifier is None,
        decreases keys.len() - i,
    {
        let k = keys[i];
        proof {
            assert(keys@.to_set().contains(k));
            assert(keys@.take(i + 1) =~= keys@.take(i as int).push(k));
            keys@.take(i as int).lemma_push_to_set_commute(k);
            if keys@.take(i as int).contains(k) {
                let j = choose|j: int| 0 <= j < i && keys@.take(i as int)[j] == k;
                assert(keys@[j] == k);
                assert(false);
            }
            assert(table@.dom().contains(k));
        }
        let rect = table.remove(&k).unwrap();
        proof {
            assert(rect == table0[k]);
            assert(inside(rect, region));
        }
        rooms.insert(k, Room::new_from_rect(rect));
        proof {
            assert(table@ =~= table0.remove_keys(keys@.take(i + 1).to_set()));
            assert(rooms@.dom() =~= keys@.take(i + 1).to_set());
        }
        i = i + 1;
    }
    proof {
        assert(keys@.take(keys@.len() as int) =~= keys@);
    }
    rooms
}

impl MapBuilder {
    /// A builder for maps of `cols` by `rows` cells; both must be positive.
    pub fn new(cols: u32, rows: u32) -> (r: Result<MapBuilder, ZeroDimensionError>)
        ensures
            r is Ok <==> (cols > 0 && rows > 0),
            r matches Ok(b) ==> b == (MapBuilder { cols, rows }),
            r matches Err(e) ==> e == (ZeroDimensionError { cols, rows }),
    {
        if cols == 0 || rows == 0 {
            return Err(ZeroDimensionError { cols, rows });
        }
        Ok(MapBuilder { cols, rows })
    }

    /// The region made from the tables of a cut region: a room per kept
    /// rectangle (active) and per removed one (removed), ids shifted down so
    /// that the least is 0, with the neighbour sets shifted alike. Its
    /// neighbour graph is sound.
    pub fn generate_map_region(origin_rect: Rect, rects: RectTable, removed: RectTable, neighbours: NeighbourTable) -> (r: MapRegion)
        requires
            origin_rect.well_placed(),
            partition_tables_ok(rects@, removed@, neighbours@, origin_rect),
        ensures
            r.graph_ok(),
            r.tidy(),
            r.origin() == origin_rect,
            forall|k: int| 0 <= k < r.entries().len() ==> {
                let id = (k + least_id(rects@.dom().union(removed@.dom()))) as usize;
                &&& (#[trigger] r.entries()[k] is Active <==> rects@.dom().contains(id))
                &&& (r.entries()[k] is Removed <==> removed@.dom().contains(id))
                &&& (r.entries()[k] is Active ==> r.entries()[k].spec_room().cells@ == rects@[id].spec_cells())
                &&& (r.entries()[k] is Removed ==> r.entries()[k].spec_room().cells@ == removed@[id].spec_cells())
            },
            forall|k: int| 0 <= k < r.entries().len() && crate::map_region::filled(r.entries()[k])
                ==> #[trigger] r.neighbour_slots()[k] == Some(lowered(set_elems(neighbours@[(k + least_id(rects@.dom().union(removed@.dom()))) as usize]),
                    least_id(rects@.dom().union(removed@.dom())))),
            r.entries().len() == crate::map_region::greatest_id(rects@.dom().union(removed@.dom()))
                - least_id(rects@.dom().union(removed@.dom())) + 1,
    {
        let ghost all = rects@.dom().union(removed@.dom());
        let ghost rects0 = rects@;
        let ghost removed0 = removed@;
        let ghost n0 = neighbours@;
        proof {
            assert forall|k: usize| #[trigger] rects@.dom().contains(k) implies inside(rects@[k], origin_rect) by {
                assert(neighbours@.dom().contains(k));
                assert(table_rect(rects@, removed@, k) == rects@[k]);
            }
            assert forall|k: usize| #[trigger] removed@.dom().contains(k) implies inside(removed@[k], origin_rect) by {
                assert(neighbours@.dom().contains(k));
                assert(!rects@.dom().contains(k));
                assert(table_rect(rects@, removed@, k) == removed@[k]);
            }
        }
        let rooms = rooms_from_rects(rects, origin_rect);
        let removed_rooms = rooms_from_rects(removed, origin_rect);
        proof {
            assert(all == rooms@.dom().union(removed_rooms@.dom()));
            assert(all == n0.dom()) by {
                assert(all =~= n0.dom());
            }
            vstd::std_specs::hash::axiom_hashmap_view_finite_dom(neighbours);
            lemma_id_bounds(all);
            assert forall|k: usize| #[trigger] all.contains(k) implies k < usize::MAX by {
                assert(n0.dom().contains(k));
            }
            if all.len() > 0 {
                assert(all.contains(least_id(all) as usize));
                assert(all.contains(crate::map_region::greatest_id(all) as usize));
                reveal(least_id);
                reveal(crate::map_region::greatest_id);
                assert(0 <= least_id(all));
                assert(crate::map_region::greatest_id(all) < usize::MAX);
            } else {
                reveal(least_id);
                reveal(crate::map_region::greatest_id);
                assert(!(exists|x: usize| all.contains(x))) by {
                    if exists|x: usize| all.contains(x) {
                        let x = choose|x: usize| all.contains(x);
                        assert(all.remove(x).len() < all.len());
                    }
                }
            }
            assert forall|k: usize| #[trigger] n0.dom().contains(k) implies least_id(all) <= k <= crate::map_region::greatest_id(all) by {
                assert(all.contains(k));
            }
            assert forall|k: usize, x: usize| n0.dom().contains(k) && #[trigger] set_elems(n0[k]).contains(x) implies least_id(all) <= x by {
                assert(all.contains(x));
            }
        }
        let region = MapRegion::new(origin_rect, rooms, removed_rooms, neighbours);
        proof {
            let b = least_id(all);
            let len = region.entries().len();
            assert forall|k: int| 0 <= k < len implies {
                let id = (k + b) as usize;
                &&& (#[trigger] region.entries()[k] is Active <==> rects0.dom().contains(id))
                &&& (region.entries()[k] is Removed <==> removed0.dom().contains(id))
                &&& (region.entries()[k] is Active ==> region.entries()[k].spec_room().cells@ == rects0[id].spec_cells())
                &&& (region.entries()[k] is Removed ==> region.entries()[k].spec_room().cells@ == removed0[id].spec_cells())
            } by {
                let id = (k + b) as usize;
                assert(0 <= k + b <= usize::MAX) by {
                    reveal(least_id);
                    reveal(crate::map_region::greatest_id);
                }
                assert(region.entries()[k] == initial_entry(rooms@, removed_rooms@, k + b));
                if rects0.dom().contains(id) {
                    assert(!removed0.dom().contains(id));
                }
            }
            assert(region.tidy()) by {
                assert forall|j: int| 0 <= j < len && !crate::map_region::filled(#[trigger] region.entries()[j]) implies region.neighbour_slots()[j] is None by {
                    assert(0 <= j + b <= usize::MAX) by {
                        reveal(least_id);
                        reveal(crate::map_region::greatest_id);
                    }
                    assert(region.entries()[j] == initial_entry(rooms@, removed_rooms@, j + b));
                    assert(!n0.dom().contains((j + b) as usize));
                }
            }
            assert(region.graph_ok()) by {
                assert forall|j: int| 0 <= j < len && crate::map_region::filled(region.entries()[j]) implies
                    (#[trigger] region.neighbour_slots()[j]) is Some by {
                    assert(region.entries()[j] == initial_entry(rooms@, removed_rooms@, j + b));
                    assert(n0.dom().contains((j + b) as usize));
                }
                assert forall|j: int, x: usize|
                    0 <= j < len && crate::map_region::filled(region.entries()[j]) && #[trigger] region.neighbours_of(j).contains(x)
                        implies x < len && crate::map_region::filled(region.entries()[x as int]) && x != j
                            && region.neighbours_of(x as int).contains(j as usize) by {
                    let id = (j + b) as usize;
                    assert(region.entries()[j] == initial_entry(rooms@, removed_rooms@, j + b));
                    assert(n0.dom().contains(id));
                    assert(region.neighbour_slots()[j] == Some(lowered(set_elems(n0[id]), b)));
                    assert(set_elems(n0[id]).contains((x + b) as usize));
                    let y = (x + b) as usize;
                    assert(n0.dom().contains(y));
                    assert(set_elems(n0[y]).contains(id));
                    assert(all.contains(y));
                    assert(x + b <= crate::map_region::greatest_id(all));
                    assert(region.entries()[x as int] == initial_entry(rooms@, removed_rooms@, x + b));
                    assert(region.neighbour_slots()[x as int] == Some(lowered(set_elems(n0[y]), b)));
                }
            }
            assert forall|k: int| 0 <= k < len && crate::map_region::filled(region.entries()[k])
                implies #[trigger] region.neighbour_slots()[k] == Some(lowered(set_elems(n0[(k + b) as usize]), b)) by {
                assert(region.entries()[k] == initial_entry(rooms@, removed_rooms@, k + b));
                assert(n0.dom().contains((k + b) as usize));
            }
            assert(all == rects0.dom().union(removed0.dom()));
        }
        region
    }
}


/// The whole map as a rectangle.
pub open spec fn full_rect(cols: u32, rows: u32) -> Rect {
    Rect { origin: crate::types::Cell { col: 0, row: 0 }, width: cols, height: rows }
}

/// Whether some slot of the region holds an active room.
fn has_active_room(map_region: &MapRegion) -> (b: bool)
    ensures
        b <==> exists|k: int| 0 <= k < map_region.entries().len() && (#[trigger] map_region.entries()[k]) is Active,
{
    let active = map_region.iter_active();
    let ghost ids = active@.map_values(|e: (usize, &Room)| e.0);
    proof {
        if exists|k: int| 0 <= k < map_region.entries().len() && (#[trigger] map_region.entries()[k]) is Active {
            let k = choose|k: int| 0 <= k < map_region.entries().len() && (#[trigger] map_region.entries()[k]) is Active;
            assert(crate::map_region::selected(map_region.entries()[k], true, false));
            assert(ids.contains(k as usize));
        }
        if active@.len() > 0 {
            assert(ids[0] == active@[0].0);
            assert(crate::map_region::selected(map_region.entries()[ids[0] as int], true, false));
        }
    }
    active.len() > 0
}

/// The doors of a region (`generate_doors_for`): none when it has no active
/// room to start from; otherwise, from some active room, every room it
/// leads to through joined rooms gets a door into it and is reached from it
/// through doors.
fn doors_of(map_region: &MapRegion, config: &MapBuilderConfig) -> (doors: Vec<Door>)
    requires
        map_region.graph_ok(),
        config.wf(),
    ensures
        forall|k: int| 0 <= k < doors@.len() ==> crate::add_doors::door_between_rooms(*map_region, #[trigger] doors@[k]),
        forall|k: int| 0 <= k < doors@.len() ==> crate::add_doors::door_placed(*map_region, #[trigger] doors@[k]),
        !(exists|k: int| 0 <= k < map_region.entries().len() && (#[trigger] map_region.entries()[k]) is Active) ==> doors@.len() == 0,
        (exists|k: int| 0 <= k < map_region.entries().len() && (#[trigger] map_region.entries()[k]) is Active) ==> exists|s: usize|
            (s as int) < map_region.entries().len() && map_region.entries()[s as int] is Active
            && forall|y: usize, p: Seq<usize>| #[trigger] crate::add_doors::joined_walk(*map_region, p, s, y) && y != s
                ==> crate::add_doors::has_door_into(*map_region, doors@, y)
                    && crate::add_doors::door_reached(*map_region, doors@, s, y),
{
    if has_active_room(map_region) {
        MapBuilder::generate_doors_for(map_region, config)
    } else {
        Vec::new()
    }
}

/// Door `d` of map `m` joins two different rooms of the map, at two cells
/// that share a side.
pub open spec fn door_joins_rooms(m: GeneratedMap, d: Door) -> bool {
    exists|i: int, j: int| {
        &&& 0 <= i < m.rooms@.len()
        &&& 0 <= j < m.rooms@.len()
        &&& i != j
        &&& #[trigger] m.rooms@[i].cells@.contains(d.from)
        &&& #[trigger] m.rooms@[j].cells@.contains(d.to)
        &&& cell_neighbour_dir(d.from, d.to) is Some
    }
}

/// Every door of every map joins two different rooms of its map.
pub open spec fn doors_join_rooms(maps: Seq<GeneratedMap>) -> bool {
    forall|k: int, q: int| 0 <= k < maps.len() && 0 <= q < maps[k].doors@.len() ==> door_joins_rooms(maps[k], #[trigger] maps[k].doors@[q])
}

/// A door between two active rooms of a region joins two rooms of the map
/// made of the region's active rooms.
proof fn lemma_door_in_map(r: MapRegion, m: GeneratedMap, d: Door)
    requires
        r.graph_ok(),
        crate::add_doors::door_between_rooms(r, d),
        m.rooms@ == active_rooms(r.entries()),
    ensures
        door_joins_rooms(m, d),
{
    let s = r.entries();
    let (a, b) = choose|a: int, b: int| {
        &&& 0 <= a < r.entries().len()
        &&& 0 <= b < r.entries().len()
        &&& r.entries()[a] is Active
        &&& r.entries()[b] is Active
        &&& r.neighbours_of(a).contains(b as usize)
        &&& #[trigger] r.entries()[a].spec_room().cells@.contains(d.from)
        &&& #[trigger] r.entries()[b].spec_room().cells@.contains(d.to)
        &&& cell_neighbour_dir(d.from, d.to) is Some
    };
    assert(crate::map_region::filled(s[a]));
    assert(b != a);
    lemma_active_room_place(s, a);
    lemma_active_room_place(s, b);
    let ia = active_rooms(s.take(a)).len() as int;
    let ib = active_rooms(s.take(b)).len() as int;
    if a < b {
        lemma_active_rooms_prefix(s.take(b), a + 1);
        assert(s.take(b).take(a + 1) =~= s.take(a + 1));
    } else {
        lemma_active_rooms_prefix(s.take(a), b + 1);
        assert(s.take(a).take(b + 1) =~= s.take(b + 1));
    }
    assert(ia != ib);
    assert(m.rooms@[ia].cells@.contains(d.from));
    assert(m.rooms@[ib].cells@.contains(d.to));
}

/// Marking region connections keeps every door joining two rooms.
proof fn lemma_marking_keeps_doors(a: Seq<GeneratedMap>, b: Seq<GeneratedMap>)
    requires
        doors_join_rooms(a),
        crate::connect_regions::only_connections_marked(a, b),
    ensures
        doors_join_rooms(b),
{
    assert forall|k: int, q: int| 0 <= k < b.len() && 0 <= q < b[k].doors@.len() implies door_joins_rooms(b[k], #[trigger] b[k].doors@[q]) by {
        let d = b[k].doors@[q];
        assert(b[k].doors@ == a[k].doors@);
        assert(door_joins_rooms(a[k], a[k].doors@[q]));
        let (i, j) = choose|i: int, j: int| {
            &&& 0 <= i < a[k].rooms@.len()
            &&& 0 <= j < a[k].rooms@.len()
            &&& i != j
            &&& #[trigger] a[k].rooms@[i].cells@.contains(d.from)
            &&& #[trigger] a[k].rooms@[j].cells@.contains(d.to)
            &&& cell_neighbour_dir(d.from, d.to) is Some
        };
        assert(b[k].rooms@[i].cells@ == a[k].rooms@[i].cells@);
        assert(b[k].rooms@[j].cells@ == a[k].rooms@[j].cells@);
    }
}

/// One map over `full` with no room and no door: what merging gives when no
/// region is left to merge, or when the merged slots would not fit in memory.
fn empty_map_list(full: Rect) -> (maps: Vec<GeneratedMap>)
    ensures
        maps@.len() == 1,
        maps@[0].origin_rect == full,
        maps@[0].rooms@.len() == 0,
        maps@[0].doors@.len() == 0,
{
    let mut maps: Vec<GeneratedMap> = Vec::new();
    maps.push(GeneratedMap { origin_rect: full, rooms: Vec::new(), doors: Vec::new() });
    maps
}

/// Map `m` is made of region `r`: it lies on `r`'s origin; its rooms have,
/// in order, the cells of `r`'s active rooms; and its doors are those
/// `generate_doors_for` places on `r`: each leads from an active room into
/// a neighbour (side by side where the two touch side by side), and, when
/// `r` has an active room, some active room reaches through doors every
/// room it leads to through joined rooms.
pub open spec fn map_of_region(m: GeneratedMap, r: MapRegion) -> bool {
    &&& r.graph_ok()
    &&& m.origin_rect == r.origin()
    &&& m.rooms@.len() == active_rooms(r.entries()).len()
    &&& forall|k: int| 0 <= k < m.rooms@.len() ==> (#[trigger] m.rooms@[k]).cells@ == active_rooms(r.entries())[k].cells@
    &&& forall|k: int| 0 <= k < m.doors@.len() ==> crate::add_doors::door_placed(r, #[trigger] m.doors@[k])
    &&& (exists|k: int| 0 <= k < r.entries().len() && (#[trigger] r.entries()[k]) is Active) ==> exists|s: usize|
        (s as int) < r.entries().len() && r.entries()[s as int] is Active
        && forall|y: usize, p: Seq<usize>| #[trigger] crate::add_doors::joined_walk(r, p, s, y) && y != s
            ==> crate::add_doors::door_reached(r, m.doors@, s, y)
}

/// Every cell of every room of `entries`, active or removed, lies in `area`.
pub open spec fn rooms_within(entries: Seq<RoomEntry>, area: Rect) -> bool {
    forall|i: int, c: Cell| 0 <= i < entries.len() && filled(entries[i]) && #[trigger] entries[i].spec_room().cells@.contains(c)
        ==> in_rect(area, c)
}

/// Every cell of every room of map `m` lies in `area`.
pub open spec fn map_rooms_within(m: GeneratedMap, area: Rect) -> bool {
    forall|k: int, c: Cell| 0 <= k < m.rooms@.len() && #[trigger] m.rooms@[k].cells@.contains(c) ==> in_rect(area, c)
}

/// Each room of `active_rooms(s)` is the room of an active slot of `s`.
proof fn lemma_active_room_source(s: Seq<RoomEntry>, k: int)
    requires
        0 <= k < active_rooms(s).len(),
    ensures
        exists|i: int| 0 <= i < s.len() && s[i] is Active && s[i].spec_room() == #[trigger] active_rooms(s)[k],
    decreases s.len(),
{
    let rest = active_rooms(s.drop_last());
    if k < rest.len() {
        lemma_active_room_source(s.drop_last(), k);
        let i = choose|i: int| 0 <= i < s.drop_last().len() && s.drop_last()[i] is Active && s.drop_last()[i].spec_room()
            == #[trigger] active_rooms(s.drop_last())[k];
        assert(s[i] == s.drop_last()[i]);
        assert(active_rooms(s)[k] == rest[k]);
    } else {
        assert(s[s.len() - 1] == s.last());
    }
}

/// The active rooms of slots whose rooms lie in `area` lie in `area`.
proof fn lemma_active_rooms_within(s: Seq<RoomEntry>, area: Rect)
    requires
        rooms_within(s, area),
    ensures
        forall|k: int, c: Cell| 0 <= k < active_rooms(s).len() && #[trigger] active_rooms(s)[k].cells@.contains(c) ==> in_rect(area, c),
{
    assert forall|k: int, c: Cell| 0 <= k < active_rooms(s).len() && #[trigger] active_rooms(s)[k].cells@.contains(c) implies in_rect(area, c) by {
        lemma_active_room_source(s, k);
        let i = choose|i: int| 0 <= i < s.len() && s[i] is Active && s[i].spec_room() == #[trigger] active_rooms(s)[k];
        assert(s[i].spec_room().cells@.contains(c));
    }
}

/// Merging rooms (removed ones untouched, the cells of active ones as a
/// whole unchanged) keeps every room in `area`.
proof fn lemma_merges_within(a: Seq<RoomEntry>, b: Seq<RoomEntry>, area: Rect)
    requires
        rooms_within(a, area),
        crate::merge_rooms::keeps_removed(a, b),
        active_cells(b) == active_cells(a),
    ensures
        rooms_within(b, area),
{
    assert forall|i: int, c: Cell| 0 <= i < b.len() && filled(b[i]) && #[trigger] b[i].spec_room().cells@.contains(c) implies in_rect(area, c) by {
        if b[i] is Removed {
            assert(a[i] is Removed);
            assert(b[i] == a[i]);
        } else {
            assert(active_cells(b).contains(c));
            let j = choose|j: int| 0 <= j < a.len() && a[j] is Active && #[trigger] a[j].spec_room().cells@.contains(c);
        }
    }
}

/// Cutting long rooms (slots emptied, new active rooms appended, the cells
/// of active rooms as a whole unchanged) keeps every room in `area`.
proof fn lemma_cuts_within(a: Seq<RoomEntry>, b: Seq<RoomEntry>, area: Rect)
    requires
        rooms_within(a, area),
        crate::bisect_rooms::only_long_rooms_emptied(a, b),
        active_cells(b) == active_cells(a),
    ensures
        rooms_within(b, area),
{
    assert forall|i: int, c: Cell| 0 <= i < b.len() && filled(b[i]) && #[trigger] b[i].spec_room().cells@.contains(c) implies in_rect(area, c) by {
        if b[i] is Active {
            assert(active_cells(b).contains(c));
            let j = choose|j: int| 0 <= j < a.len() && a[j] is Active && #[trigger] a[j].spec_room().cells@.contains(c);
        } else {
            assert(i < a.len());
            assert(b[i] == a[i]);
        }
    }
}

/// Switching rooms between active and removed keeps every room in `area`.
proof fn lemma_toggles_within(a: Seq<RoomEntry>, b: Seq<RoomEntry>, area: Rect)
    requires
        rooms_within(a, area),
        crate::reconnect_rooms::only_toggles(a, b),
    ensures
        rooms_within(b, area),
{
    assert forall|i: int, c: Cell| 0 <= i < b.len() && filled(b[i]) && #[trigger] b[i].spec_room().cells@.contains(c) implies in_rect(area, c) by {
        assert(filled(a[i]) && b[i].spec_room() == a[i].spec_room());
    }
}

/// Moving rooms to other slots keeps every room in `area`.
proof fn lemma_compaction_within(a: MapRegion, b: MapRegion, t: Seq<int>, area: Rect)
    requires
        rooms_within(a.entries(), area),
        MapRegion::compacts(a, b, t),
        forall|p: int| 0 <= p < b.entries().len() ==> #[trigger] has_source(t, a.entries(), p),
    ensures
        rooms_within(b.entries(), area),
{
    assert forall|p: int, c: Cell| 0 <= p < b.entries().len() && filled(b.entries()[p]) && #[trigger] b.entries()[p].spec_room().cells@.contains(c)
        implies in_rect(area, c) by {
        assert(has_source(t, a.entries(), p));
        let j = choose|j: int| 0 <= j < a.entries().len() && filled(a.entries()[j]) && #[trigger] t[j] == p;
        assert(b.entries()[t[j]] == a.entries()[j]);
    }
}

/// The rooms of regions that lie in their origins, themselves in `area`,
/// lie in `area` once the regions' slots are put one after the other.
proof fn lemma_concat_within(regions: Seq<MapRegion>, area: Rect)
    requires
        forall|k: int| 0 <= k < regions.len() ==> rooms_within((#[trigger] regions[k]).entries(), regions[k].origin())
            && inside(regions[k].origin(), area),
    ensures
        rooms_within(concat_entries(regions), area),
    decreases regions.len(),
{
    if regions.len() > 0 {
        let init = regions.drop_last();
        assert forall|k: int| 0 <= k < init.len() implies rooms_within((#[trigger] init[k]).entries(), init[k].origin())
            && inside(init[k].origin(), area) by {
            assert(init[k] == regions[k]);
        }
        lemma_concat_within(init, area);
        let e0 = concat_entries(init);
        let last = regions.last();
        assert(regions[regions.len() - 1] == last);
        let e = concat_entries(regions);
        assert(e == e0 + last.entries());
        assert forall|i: int, c: Cell| 0 <= i < e.len() && filled(e[i]) && #[trigger] e[i].spec_room().cells@.contains(c)
            implies in_rect(area, c) by {
            if i < e0.len() {
                assert(e[i] == e0[i]);
            } else {
                assert(e[i] == last.entries()[i - e0.len()]);
                assert(in_rect(last.origin(), c));
            }
        }
    }
}

/// The rooms made from a region's tables lie in the region.
proof fn lemma_tables_within(r: MapRegion, origin_rect: Rect, rects: Map<usize, Rect>, removed: Map<usize, Rect>,
    neighbours: Map<usize, crate::neighbour_set::NeighbourSet>)
    requires
        origin_rect.well_placed(),
        partition_tables_ok(rects, removed, neighbours, origin_rect),
        forall|k: int| 0 <= k < r.entries().len() ==> {
            let id = (k + least_id(rects.dom().union(removed.dom()))) as usize;
            &&& (#[trigger] r.entries()[k] is Active <==> rects.dom().contains(id))
            &&& (r.entries()[k] is Removed <==> removed.dom().contains(id))
            &&& (r.entries()[k] is Active ==> r.entries()[k].spec_room().cells@ == rects[id].spec_cells())
            &&& (r.entries()[k] is Removed ==> r.entries()[k].spec_room().cells@ == removed[id].spec_cells())
        },
    ensures
        rooms_within(r.entries(), origin_rect),
{
    assert forall|i: int, c: Cell| 0 <= i < r.entries().len() && filled(r.entries()[i]) && #[trigger] r.entries()[i].spec_room().cells@.contains(c)
        implies in_rect(origin_rect, c) by {
        let id = (i + least_id(rects.dom().union(removed.dom()))) as usize;
        let e = r.entries()[i];
        assert(e is Active || e is Removed);
        let rect = table_rect(rects, removed, id);
        assert(neighbours.dom().contains(id));
        assert(inside(rect, origin_rect));
        crate::bsp::lemma_inside_well_placed(rect, origin_rect);
        lemma_rect_cells(rect);
        if e is Active {
            assert(rect == rects[id]);
        } else {
            assert(!rects.dom().contains(id));
            assert(rect == removed[id]);
        }
        assert(rect.spec_cells().contains(c));
    }
}

/// No room of `entries` (active or removed) holds a cell twice, and no two
/// rooms share a cell.
pub open spec fn rooms_disjoint(entries: Seq<RoomEntry>) -> bool {
    &&& forall|i: int| 0 <= i < entries.len() && filled(#[trigger] entries[i]) ==> entries[i].spec_room().cells@.no_duplicates()
    &&& forall|i: int, j: int, c: Cell| 0 <= i < entries.len() && 0 <= j < entries.len() && i != j && filled(entries[i])
        && filled(entries[j]) && #[trigger] entries[i].spec_room().cells@.contains(c) ==> !#[trigger] entries[j].spec_room().cells@.contains(c)
}

/// No two rooms of map `m` share a cell.
pub open spec fn map_rooms_apart(m: GeneratedMap) -> bool {
    forall|k1: int, k2: int, c: Cell| 0 <= k1 < m.rooms@.len() && 0 <= k2 < m.rooms@.len() && k1 != k2
        && #[trigger] m.rooms@[k1].cells@.contains(c) ==> !#[trigger] m.rooms@[k2].cells@.contains(c)
}

/// The rooms made from a region's tables, whose rectangles are apart, are
/// disjoint.
proof fn lemma_tables_disjoint(r: MapRegion, origin_rect: Rect, rects: Map<usize, Rect>, removed: Map<usize, Rect>,
    neighbours: Map<usize, crate::neighbour_set::NeighbourSet>)
    requires
        origin_rect.well_placed(),
        partition_tables_ok(rects, removed, neighbours, origin_rect),
        crate::bsp::tables_apart(rects, removed),
        least_id(rects.dom().union(removed.dom())) >= 0,
        r.entries().len() + least_id(rects.dom().union(removed.dom())) <= usize::MAX + 1,
        forall|k: int| 0 <= k < r.entries().len() ==> {
            let id = (k + least_id(rects.dom().union(removed.dom()))) as usize;
            &&& (#[trigger] r.entries()[k] is Active <==> rects.dom().contains(id))
            &&& (r.entries()[k] is Removed <==> removed.dom().contains(id))
            &&& (r.entries()[k] is Active ==> r.entries()[k].spec_room().cells@ == rects[id].spec_cells())
            &&& (r.entries()[k] is Removed ==> r.entries()[k].spec_room().cells@ == removed[id].spec_cells())
        },
    ensures
        rooms_disjoint(r.entries()),
{
    let l = least_id(rects.dom().union(removed.dom()));
    let e = r.entries();
    assert forall|i: int| 0 <= i < e.len() && filled(#[trigger] e[i]) implies e[i].spec_room().cells@.no_duplicates()
        && e[i].spec_room().cells@ == table_rect(rects, removed, (i + l) as usize).spec_cells()
        && inside(table_rect(rects, removed, (i + l) as usize), origin_rect) by {
        let id = (i + l) as usize;
        let rect = table_rect(rects, removed, id);
        assert(neighbours.dom().contains(id));
        crate::bsp::lemma_inside_well_placed(rect, origin_rect);
        crate::types::lemma_rect_cells_distinct(rect);
        if !(e[i] is Active) {
            assert(!rects.dom().contains(id));
        }
    }
    assert forall|i: int, j: int, c: Cell| 0 <= i < e.len() && 0 <= j < e.len() && i != j && filled(e[i]) && filled(e[j])
        && #[trigger] e[i].spec_room().cells@.contains(c) implies !#[trigger] e[j].spec_room().cells@.contains(c) by {
        let id1 = (i + l) as usize;
        let id2 = (j + l) as usize;
        let r1 = table_rect(rects, removed, id1);
        let r2 = table_rect(rects, removed, id2);
        assert(id1 != id2);
        assert(rects.dom().contains(id1) || removed.dom().contains(id1));
        assert(rects.dom().contains(id2) || removed.dom().contains(id2));
        assert(apart(r1, r2));
        crate::bsp::lemma_inside_well_placed(r1, origin_rect);
        crate::bsp::lemma_inside_well_placed(r2, origin_rect);
        lemma_rect_cells(r1);
        lemma_rect_cells(r2);
        assert(e[i].spec_room().cells@ == r1.spec_cells());
        assert(e[j].spec_room().cells@ == r2.spec_cells());
    }
}

/// The least and the greatest id of a set of ids are ids.
proof fn lemma_ids_fit(ids: Set<usize>)
    ensures
        least_id(ids) >= 0,
        crate::map_region::greatest_id(ids) <= usize::MAX,
{
    reveal(crate::map_region::greatest_id);
    reveal(crate::map_region::least_id);
    if exists|x: usize| ids.contains(x) {
        let m = choose|m: usize| ids.contains(m) && forall|x: usize| ids.contains(x) ==> m <= x;
        assert(least_id(ids) == m as int);
    }
}

/// Moving rooms to other slots keeps them disjoint.
proof fn lemma_compaction_disjoint(a: MapRegion, b: MapRegion, t: Seq<int>)
    requires
        rooms_disjoint(a.entries()),
        MapRegion::compacts(a, b, t),
        forall|p: int| 0 <= p < b.entries().len() ==> #[trigger] has_source(t, a.entries(), p),
    ensures
        rooms_disjoint(b.entries()),
{
    let e = b.entries();
    assert forall|p: int| 0 <= p < e.len() && filled(#[trigger] e[p]) implies e[p].spec_room().cells@.no_duplicates() by {
        assert(has_source(t, a.entries(), p));
        let j = choose|j: int| 0 <= j < a.entries().len() && filled(a.entries()[j]) && #[trigger] t[j] == p;
        assert(e[t[j]] == a.entries()[j]);
    }
    assert forall|p: int, q: int, c: Cell| 0 <= p < e.len() && 0 <= q < e.len() && p != q && filled(e[p]) && filled(e[q])
        && #[trigger] e[p].spec_room().cells@.contains(c) implies !#[trigger] e[q].spec_room().cells@.contains(c) by {
        assert(has_source(t, a.entries(), p));
        assert(has_source(t, a.entries(), q));
        let j1 = choose|j: int| 0 <= j < a.entries().len() && filled(a.entries()[j]) && #[trigger] t[j] == p;
        let j2 = choose|j: int| 0 <= j < a.entries().len() && filled(a.entries()[j]) && #[trigger] t[j] == q;
        assert(e[t[j1]] == a.entries()[j1]);
        assert(e[t[j2]] == a.entries()[j2]);
        assert(j1 != j2);
        assert(a.entries()[j1].spec_room().cells@.contains(c));
    }
}

/// Switching rooms between active and removed keeps them disjoint.
proof fn lemma_toggles_disjoint(a: Seq<RoomEntry>, b: Seq<RoomEntry>)
    requires
        rooms_disjoint(a),
        crate::reconnect_rooms::only_toggles(a, b),
    ensures
        rooms_disjoint(b),
{
    assert forall|i: int| 0 <= i < b.len() && filled(#[trigger] b[i]) implies b[i].spec_room().cells@.no_duplicates() by {
        assert(filled(a[i]));
    }
    assert forall|i: int, j: int, c: Cell| 0 <= i < b.len() && 0 <= j < b.len() && i != j && filled(b[i]) && filled(b[j])
        && #[trigger] b[i].spec_room().cells@.contains(c) implies !#[trigger] b[j].spec_room().cells@.contains(c) by {
        assert(filled(a[i]) && filled(a[j]));
        assert(a[i].spec_room().cells@.contains(c));
    }
}

/// A cell of a room after merging comes from a room before merging: the
/// same slot, or the slot merged into it.
proof fn lemma_merged_source(a: Seq<RoomEntry>, b: Seq<RoomEntry>, pairs: Seq<(usize, usize)>, i: int, c: Cell) -> (s: int)
    requires
        disjoint_active_pairs(pairs, a),
        merged_by(a, b, pairs),
        a.len() <= usize::MAX,
        0 <= i < b.len(),
        filled(b[i]),
        b[i].spec_room().cells@.contains(c),
    ensures
        0 <= s < a.len(),
        filled(a[s]),
        a[s].spec_room().cells@.contains(c),
        s == i || exists|k: int| 0 <= k < pairs.len() && #[trigger] pairs[k].0 == i && pairs[k].1 == s,
        !in_pairs(pairs, i as usize) ==> b[i] == a[i],
{
    if in_pairs(pairs, i as usize) {
        let k = choose|k: int| 0 <= k < pairs.len() && ((#[trigger] pairs[k]).0 == i as usize || pairs[k].1 == i as usize);
        if pairs[k].1 == i as usize {
            assert(b[i] is Empty);
            assert(false);
            i
        } else {
            let pb = pairs[k].1 as int;
            if a[i].spec_room().cells@.contains(c) {
                i
            } else {
                assert(a[pb].spec_room().cells@.contains(c));
                pb
            }
        }
    } else {
        assert(b[i] == a[i]);
        i
    }
}

/// Merging rooms in disjoint pairs keeps the rooms disjoint.
proof fn lemma_merges_disjoint(a: Seq<RoomEntry>, b: Seq<RoomEntry>, pairs: Seq<(usize, usize)>)
    requires
        rooms_disjoint(a),
        disjoint_active_pairs(pairs, a),
        merged_by(a, b, pairs),
        a.len() <= usize::MAX,
    ensures
        rooms_disjoint(b),
{
    assert forall|i: int| 0 <= i < b.len() && filled(#[trigger] b[i]) implies b[i].spec_room().cells@.no_duplicates() by {
        if in_pairs(pairs, i as usize) {
            let k = choose|k: int| 0 <= k < pairs.len() && ((#[trigger] pairs[k]).0 == i as usize || pairs[k].1 == i as usize);
            if pairs[k].1 == i as usize {
                assert(b[i] is Empty);
            }
        } else {
            assert(b[i] == a[i]);
        }
    }
    assert forall|i: int, j: int, c: Cell| 0 <= i < b.len() && 0 <= j < b.len() && i != j && filled(b[i]) && filled(b[j])
        && #[trigger] b[i].spec_room().cells@.contains(c) implies !#[trigger] b[j].spec_room().cells@.contains(c) by {
        if b[j].spec_room().cells@.contains(c) {
            let s1 = lemma_merged_source(a, b, pairs, i, c);
            let s2 = lemma_merged_source(a, b, pairs, j, c);
            if s1 == s2 {
                if s1 == i {
                    let k2 = choose|k: int| 0 <= k < pairs.len() && #[trigger] pairs[k].0 == j && pairs[k].1 == s2;
                    assert(b[pairs[k2].1 as int] is Empty);
                } else if s2 == j {
                    let k1 = choose|k: int| 0 <= k < pairs.len() && #[trigger] pairs[k].0 == i && pairs[k].1 == s1;
                    assert(b[pairs[k1].1 as int] is Empty);
                } else {
                    let k1 = choose|k: int| 0 <= k < pairs.len() && #[trigger] pairs[k].0 == i && pairs[k].1 == s1;
                    let k2 = choose|k: int| 0 <= k < pairs.len() && #[trigger] pairs[k].0 == j && pairs[k].1 == s2;
                    assert(k1 != k2);
                    if k1 < k2 {
                        assert(pairs[k1].1 != pairs[k2].1);
                    } else {
                        assert(pairs[k2].1 != pairs[k1].1);
                    }
                }
            }
            assert(a[s1].spec_room().cells@.contains(c));
        }
    }
}

/// The three rooms a room is cut into hold no cell twice, share no cell,
/// and hold only cells of the room.
proof fn lemma_cut_pieces(room: Room, pa: Room, pb: Room, pc: Room)
    requires
        crate::bisect_rooms::cut_in_three(room, pa, pb, pc),
        room.cells@.no_duplicates(),
    ensures
        pa.cells@.no_duplicates(),
        pb.cells@.no_duplicates(),
        pc.cells@.no_duplicates(),
        forall|c: Cell| #[trigger] pa.cells@.contains(c) ==> room.cells@.contains(c) && !pb.cells@.contains(c) && !pc.cells@.contains(c),
        forall|c: Cell| #[trigger] pb.cells@.contains(c) ==> room.cells@.contains(c) && !pa.cells@.contains(c) && !pc.cells@.contains(c),
        forall|c: Cell| #[trigger] pc.cells@.contains(c) ==> room.cells@.contains(c) && !pa.cells@.contains(c) && !pb.cells@.contains(c),
{
    let (sq, cut) = choose|sq: Seq<Cell>, cut: int| {
        &&& sq.to_multiset() == room.cells@.to_multiset()
        &&& sq.len() == room.cells@.len()
        &&& (forall|i: int, j: int| 0 <= i < j < sq.len() ==> (#[trigger] sq[i]).col <= (#[trigger] sq[j]).col)
        &&& 1 <= cut < sq.len() - 1
        &&& pa.cells@ == sq.subrange(0, cut)
        &&& pb.cells@ == sq.subrange(cut, cut + 1)
        &&& pc.cells@ == sq.subrange(cut + 1, sq.len() as int)
        &&& pa.modifier == room.modifier
        &&& pb.modifier == room.modifier
        &&& pc.modifier == room.modifier
    };
    room.cells@.lemma_multiset_has_no_duplicates();
    sq.lemma_multiset_has_no_duplicates_conv();
    crate::bisect_rooms::lemma_three_parts_cover(room.cells@, sq, cut);
    let n = sq.len() as int;
    assert forall|c: Cell| #[trigger] pa.cells@.contains(c) implies !pb.cells@.contains(c) && !pc.cells@.contains(c) by {
        let k = choose|k: int| 0 <= k < pa.cells@.len() && pa.cells@[k] == c;
        assert(sq[k] == c);
        if pb.cells@.contains(c) {
            assert(sq[cut] == pb.cells@[0]);
        }
        if pc.cells@.contains(c) {
            let k2 = choose|k2: int| 0 <= k2 < pc.cells@.len() && pc.cells@[k2] == c;
            assert(sq[cut + 1 + k2] == c);
        }
    }
    assert forall|c: Cell| #[trigger] pb.cells@.contains(c) implies !pc.cells@.contains(c) by {
        assert(sq[cut] == pb.cells@[0]);
        if pc.cells@.contains(c) {
            let k2 = choose|k2: int| 0 <= k2 < pc.cells@.len() && pc.cells@[k2] == c;
            assert(sq[cut + 1 + k2] == c);
        }
    }
}

/// Slot `i` past the first `n0` falls in the `q`-th group of three, at `r`.
proof fn lemma_piece_index(n0: int, i: int) -> (qr: (int, int))
    requires
        n0 <= i,
    ensures
        0 <= qr.0,
        0 <= qr.1 < 3,
        i == n0 + 3 * qr.0 + qr.1,
{
    let x = i - n0;
    let q = x / 3;
    let r = x % 3;
    assert(x == 3 * q + r && 0 <= r < 3 && 0 <= q) by (nonlinear_arith)
        requires
            x >= 0,
            q == x / 3,
            r == x % 3,
    ;
    (q, r)
}

/// Cutting rooms in three keeps the rooms disjoint.
proof fn lemma_cuts_disjoint(a: Seq<RoomEntry>, b: Seq<RoomEntry>, cut_ids: Seq<usize>)
    requires
        rooms_disjoint(a),
        crate::bisect_rooms::cut_rooms(a, b, cut_ids),
        a.len() <= usize::MAX,
    ensures
        rooms_disjoint(b),
{
    let n0 = a.len() as int;
    // the pieces of each cut room are sound and hold only its cells
    assert forall|q: int| 0 <= q < cut_ids.len() implies {
        let base = n0 + 3 * q;
        let room = a[#[trigger] cut_ids[q] as int].spec_room();
        &&& b[base].spec_room().cells@.no_duplicates()
        &&& b[base + 1].spec_room().cells@.no_duplicates()
        &&& b[base + 2].spec_room().cells@.no_duplicates()
        &&& forall|r1: int, r2: int, c: Cell| 0 <= r1 < 3 && 0 <= r2 < 3 && r1 != r2
            && #[trigger] b[base + r1].spec_room().cells@.contains(c) ==> !#[trigger] b[base + r2].spec_room().cells@.contains(c)
        &&& forall|r1: int, c: Cell| 0 <= r1 < 3 && #[trigger] b[base + r1].spec_room().cells@.contains(c) ==> room.cells@.contains(c)
        &&& filled(a[cut_ids[q] as int])
    } by {
        let base = n0 + 3 * q;
        let room = a[cut_ids[q] as int].spec_room();
        assert(filled(a[cut_ids[q] as int]));
        lemma_cut_pieces(room, b[base].spec_room(), b[base + 1].spec_room(), b[base + 2].spec_room());
        assert forall|r1: int, r2: int, c: Cell| 0 <= r1 < 3 && 0 <= r2 < 3 && r1 != r2
            && #[trigger] b[base + r1].spec_room().cells@.contains(c) implies !#[trigger] b[base + r2].spec_room().cells@.contains(c) by {
            if r1 == 0 {
                assert(b[base + 0] == b[base]);
            }
            if r2 == 0 {
                assert(b[base + 0] == b[base]);
            }
        }
        assert forall|r1: int, c: Cell| 0 <= r1 < 3 && #[trigger] b[base + r1].spec_room().cells@.contains(c) implies room.cells@.contains(c) by {
            if r1 == 0 {
                assert(b[base + 0] == b[base]);
            }
        }
    }
    assert forall|i: int| 0 <= i < b.len() && filled(#[trigger] b[i]) implies b[i].spec_room().cells@.no_duplicates() by {
        if i < n0 {
            if !cut_ids.contains(i as usize) {
                assert(b[i] == a[i]);
            }
        } else {
            let (q, r) = lemma_piece_index(n0, i);
            assert(q < cut_ids.len()) by (nonlinear_arith)
                requires
                    i == n0 + 3 * q + r,
                    0 <= r < 3,
                    i < b.len(),
                    b.len() == n0 + 3 * cut_ids.len(),
            ;
            let cq = cut_ids[q];
            if r == 0 {
                assert(b[n0 + 3 * q] == b[i]);
            } else if r == 1 {
                assert(b[n0 + 3 * q + 1] == b[i]);
            } else {
                assert(b[n0 + 3 * q + 2] == b[i]);
            }
        }
    }
    assert forall|i: int, j: int, c: Cell| 0 <= i < b.len() && 0 <= j < b.len() && i != j && filled(b[i]) && filled(b[j])
        && #[trigger] b[i].spec_room().cells@.contains(c) implies !#[trigger] b[j].spec_room().cells@.contains(c) by {
        if b[j].spec_room().cells@.contains(c) {
            // the slot of the room before the cut that each cell came from
            let si = if i < n0 {
                i
            } else {
                let (q, r) = lemma_piece_index(n0, i);
                q
            };
            let sj = if j < n0 {
                j
            } else {
                let (q, r) = lemma_piece_index(n0, j);
                q
            };
            if i < n0 && j < n0 {
                assert(!cut_ids.contains(i as usize)) by {
                    if cut_ids.contains(i as usize) {
                        assert(b[i] is Empty);
                    }
                }
                assert(!cut_ids.contains(j as usize)) by {
                    if cut_ids.contains(j as usize) {
                        assert(b[j] is Empty);
                    }
                }
                assert(b[i] == a[i] && b[j] == a[j]);
            } else if i < n0 {
                let (qj, rj) = lemma_piece_index(n0, j);
                assert(qj < cut_ids.len()) by (nonlinear_arith)
                    requires
                        j == n0 + 3 * qj + rj,
                        0 <= rj < 3,
                        j < b.len(),
                        b.len() == n0 + 3 * cut_ids.len(),
                ;
                let cj = cut_ids[qj] as int;
                assert(b[n0 + 3 * qj + rj] == b[j]);
                assert(a[cj].spec_room().cells@.contains(c));
                assert(!cut_ids.contains(i as usize)) by {
                    if cut_ids.contains(i as usize) {
                        assert(b[i] is Empty);
                    }
                }
                assert(b[i] == a[i]);
                assert(cut_ids.contains(cut_ids[qj]));
                assert(i != cj);
            } else if j < n0 {
                let (qi, ri) = lemma_piece_index(n0, i);
                assert(qi < cut_ids.len()) by (nonlinear_arith)
                    requires
                        i == n0 + 3 * qi + ri,
                        0 <= ri < 3,
                        i < b.len(),
                        b.len() == n0 + 3 * cut_ids.len(),
                ;
                let ci = cut_ids[qi] as int;
                assert(b[n0 + 3 * qi + ri] == b[i]);
                assert(a[ci].spec_room().cells@.contains(c));
                assert(!cut_ids.contains(j as usize)) by {
                    if cut_ids.contains(j as usize) {
                        assert(b[j] is Empty);
                    }
                }
                assert(b[j] == a[j]);
                assert(cut_ids.contains(cut_ids[qi]));
                assert(j != ci);
                assert(a[j].spec_room().cells@.contains(c));
            } else {
                let (qi, ri) = lemma_piece_index(n0, i);
                let (qj, rj) = lemma_piece_index(n0, j);
                assert(qi < cut_ids.len() && qj < cut_ids.len()) by (nonlinear_arith)
                    requires
                        i == n0 + 3 * qi + ri,
                        j == n0 + 3 * qj + rj,
                        0 <= ri < 3,
                        0 <= rj < 3,
                        i < b.len(),
                        j < b.len(),
                        b.len() == n0 + 3 * cut_ids.len(),
                ;
                let ci = cut_ids[qi] as int;
                let cj = cut_ids[qj] as int;
                assert(b[n0 + 3 * qi + ri] == b[i]);
                assert(b[n0 + 3 * qj + rj] == b[j]);
                if qi == qj {
                    assert(ri != rj);
                } else {
                    assert(ci != cj) by {
                        if qi < qj {
                            assert(cut_ids[qi] < cut_ids[qj]);
                        } else {
                            assert(cut_ids[qj] < cut_ids[qi]);
                        }
                    }
                    assert(a[ci].spec_room().cells@.contains(c));
                    assert(a[cj].spec_room().cells@.contains(c));
                }
            }
        }
    }
}

/// Regions whose rooms are disjoint and lie in their origins, the origins
/// being apart, have disjoint rooms once their slots are put one after the
/// other; each cell of those rooms lies in some region's origin.
proof fn lemma_concat_disjoint(regions: Seq<MapRegion>)
    requires
        forall|k: int| 0 <= k < regions.len() ==> rooms_disjoint((#[trigger] regions[k]).entries())
            && rooms_within(regions[k].entries(), regions[k].origin()),
        forall|k1: int, k2: int| 0 <= k1 < k2 < regions.len() ==> apart((#[trigger] regions[k1]).origin(), (#[trigger] regions[k2]).origin()),
    ensures
        rooms_disjoint(concat_entries(regions)),
        forall|i: int, c: Cell| 0 <= i < concat_entries(regions).len() && filled(concat_entries(regions)[i])
            && #[trigger] concat_entries(regions)[i].spec_room().cells@.contains(c)
            ==> exists|k: int| 0 <= k < regions.len() && in_rect(#[trigger] regions[k].origin(), c),
    decreases regions.len(),
{
    if regions.len() > 0 {
        let n = regions.len() as int;
        let init = regions.drop_last();
        assert forall|k: int| 0 <= k < init.len() implies rooms_disjoint((#[trigger] init[k]).entries())
            && rooms_within(init[k].entries(), init[k].origin()) by {
            assert(init[k] == regions[k]);
        }
        assert forall|k1: int, k2: int| 0 <= k1 < k2 < init.len() implies apart((#[trigger] init[k1]).origin(), (#[trigger] init[k2]).origin()) by {
            assert(init[k1] == regions[k1] && init[k2] == regions[k2]);
        }
        lemma_concat_disjoint(init);
        let e0 = concat_entries(init);
        let last = regions.last();
        assert(regions[n - 1] == last);
        let le = last.entries();
        let e = concat_entries(regions);
        assert(e == e0 + le);
        let m = e0.len() as int;
        assert forall|i: int| 0 <= i < e.len() && filled(#[trigger] e[i]) implies e[i].spec_room().cells@.no_duplicates() by {
            if i < m {
                assert(e[i] == e0[i]);
            } else {
                assert(e[i] == le[i - m]);
            }
        }
        assert forall|i: int, c: Cell| 0 <= i < e.len() && filled(e[i]) && #[trigger] e[i].spec_room().cells@.contains(c)
            implies exists|k: int| 0 <= k < regions.len() && in_rect(#[trigger] regions[k].origin(), c) by {
            if i < m {
                assert(e[i] == e0[i]);
                let k = choose|k: int| 0 <= k < init.len() && in_rect(#[trigger] init[k].origin(), c);
                assert(init[k] == regions[k]);
            } else {
                assert(e[i] == le[i - m]);
                assert(in_rect(regions[n - 1].origin(), c));
            }
        }
        assert forall|i: int, j: int, c: Cell| 0 <= i < e.len() && 0 <= j < e.len() && i != j && filled(e[i]) && filled(e[j])
            && #[trigger] e[i].spec_room().cells@.contains(c) implies !#[trigger] e[j].spec_room().cells@.contains(c) by {
            if e[j].spec_room().cells@.contains(c) {
                if i < m && j < m {
                    assert(e[i] == e0[i] && e[j] == e0[j]);
                } else if i >= m && j >= m {
                    assert(e[i] == le[i - m] && e[j] == le[j - m]);
                } else {
                    let (p, q) = if i < m { (i, j) } else { (j, i) };
                    assert(e[p] == e0[p]);
                    assert(e[q] == le[q - m]);
                    assert(e0[p].spec_room().cells@.contains(c));
                    let k = choose|k: int| 0 <= k < init.len() && in_rect(#[trigger] init[k].origin(), c);
                    assert(init[k] == regions[k]);
                    assert(in_rect(last.origin(), c));
                    assert(apart(regions[k].origin(), regions[n - 1].origin()));
                }
            }
        }
    }
}

/// The active rooms of slots whose rooms are disjoint share no cell.
proof fn lemma_active_rooms_disjoint(s: Seq<RoomEntry>)
    requires
        rooms_disjoint(s),
    ensures
        forall|k1: int, k2: int, c: Cell| 0 <= k1 < active_rooms(s).len() && 0 <= k2 < active_rooms(s).len() && k1 != k2
            && #[trigger] active_rooms(s)[k1].cells@.contains(c) ==> !#[trigger] active_rooms(s)[k2].cells@.contains(c),
    decreases s.len(),
{
    if s.len() > 0 {
        let init = s.drop_last();
        assert forall|i: int| 0 <= i < init.len() && filled(#[trigger] init[i]) implies init[i].spec_room().cells@.no_duplicates() by {
            assert(init[i] == s[i]);
        }
        assert forall|i: int, j: int, c: Cell| 0 <= i < init.len() && 0 <= j < init.len() && i != j && filled(init[i]) && filled(init[j])
            && #[trigger] init[i].spec_room().cells@.contains(c) implies !#[trigger] init[j].spec_room().cells@.contains(c) by {
            assert(init[i] == s[i] && init[j] == s[j]);
        }
        lemma_active_rooms_disjoint(init);
        let rest = active_rooms(init);
        let ar = active_rooms(s);
        assert forall|k1: int, k2: int, c: Cell| 0 <= k1 < ar.len() && 0 <= k2 < ar.len() && k1 != k2
            && #[trigger] ar[k1].cells@.contains(c) implies !#[trigger] ar[k2].cells@.contains(c) by {
            if ar[k2].cells@.contains(c) {
                if k1 < rest.len() && k2 < rest.len() {
                    assert(ar[k1] == rest[k1] && ar[k2] == rest[k2]);
                } else {
                    let (p, q) = if k1 < rest.len() { (k1, k2) } else { (k2, k1) };
                    assert(p < rest.len());
                    assert(ar[p] == rest[p]);
                    assert(s.last() is Active);
                    assert(ar[q] == s.last().spec_room());
                    lemma_active_room_source(init, p);
                    let i = choose|i: int| 0 <= i < init.len() && init[i] is Active && init[i].spec_room() == #[trigger] active_rooms(init)[p];
                    assert(init[i] == s[i]);
                    assert(s[s.len() - 1] == s.last());
                    assert(s[i].spec_room().cells@.contains(c));
                }
            }
        }
    }
}

/// `r` is the region `generate_map_region` makes from a part's tables.
pub open spec fn made_from_tables(r: MapRegion, origin_rect: Rect, rects: Map<usize, Rect>, removed: Map<usize, Rect>,
    neighbours: Map<usize, crate::neighbour_set::NeighbourSet>) -> bool {
    &&& r.graph_ok()
    &&& r.tidy()
    &&& r.origin() == origin_rect
    &&& forall|k: int| 0 <= k < r.entries().len() ==> {
        let id = (k + least_id(rects.dom().union(removed.dom()))) as usize;
        &&& (#[trigger] r.entries()[k] is Active <==> rects.dom().contains(id))
        &&& (r.entries()[k] is Removed <==> removed.dom().contains(id))
        &&& (r.entries()[k] is Active ==> r.entries()[k].spec_room().cells@ == rects[id].spec_cells())
        &&& (r.entries()[k] is Removed ==> r.entries()[k].spec_room().cells@ == removed[id].spec_cells())
    }
    &&& forall|k: int| 0 <= k < r.entries().len() && filled(r.entries()[k])
        ==> #[trigger] r.neighbour_slots()[k] == Some(lowered(set_elems(neighbours[(k + least_id(rects.dom().union(removed.dom()))) as usize]),
            least_id(rects.dom().union(removed.dom()))))
    &&& r.entries().len() == crate::map_region::greatest_id(rects.dom().union(removed.dom())) - least_id(rects.dom().union(removed.dom())) + 1
}

/// `b` is `a` with its empty slots removed (`compact_buffers`).
pub open spec fn compaction_step(a: MapRegion, b: MapRegion) -> bool {
    &&& b.graph_ok()
    &&& b.tidy()
    &&& b.origin() == a.origin()
    &&& exists|t: Seq<int>| MapRegion::compacts(a, b, t)
        && forall|p: int| 0 <= p < b.entries().len() ==> #[trigger] has_source(t, a.entries(), p)
}

/// `b` is a possible outcome of `merge_random_rooms` on `a` with chance `prob`.
pub open spec fn random_merge_step(a: MapRegion, b: MapRegion, prob: u32) -> bool {
    &&& b.graph_ok()
    &&& a.tidy() ==> b.tidy()
    &&& b.origin() == a.origin()
    &&& crate::merge_rooms::keeps_removed(a.entries(), b.entries())
    &&& active_cells(b.entries()) == active_cells(a.entries())
    &&& exists|pairs: Seq<(usize, usize)>| {
        &&& disjoint_active_pairs(pairs, a.entries())
        &&& crate::merge_rooms::neighbour_pairs(pairs, a)
        &&& merged_by(a.entries(), b.entries(), pairs)
        &&& b.neighbour_slots() == crate::merge_rooms::slots_merged_by(a.neighbour_slots(), pairs)
        &&& prob == CHANCE_SCALE ==> crate::merge_rooms::random_merge_complete(a, pairs)
    }
    &&& prob == 0 ==> b == a
}

/// `b` is a possible outcome of `merge_repeated_simple_rooms` on `a`.
pub open spec fn simple_merge_step(a: MapRegion, b: MapRegion, max_size: usize, prob: u32) -> bool {
    &&& b.graph_ok()
    &&& a.tidy() ==> b.tidy()
    &&& b.origin() == a.origin()
    &&& crate::merge_rooms::keeps_removed(a.entries(), b.entries())
    &&& active_cells(b.entries()) == active_cells(a.entries())
    &&& exists|pairs: Seq<(usize, usize)>| {
        &&& disjoint_active_pairs(pairs, a.entries())
        &&& crate::merge_rooms::neighbour_pairs(pairs, a)
        &&& forall|k: int| 0 <= k < pairs.len() ==> a.entries()[(#[trigger] pairs[k]).0 as int].spec_room().cells@.len() <= max_size
            && a.entries()[pairs[k].1 as int].spec_room().cells@.len() <= max_size
        &&& merged_by(a.entries(), b.entries(), pairs)
        &&& b.neighbour_slots() == crate::merge_rooms::slots_merged_by(a.neighbour_slots(), pairs)
        &&& prob == CHANCE_SCALE ==> crate::merge_rooms::simple_merge_complete(a, pairs, max_size)
    }
    &&& prob == 0 ==> b == a
}

/// `b` is a possible outcome of `reconnect_room_groups` on `a`.
pub open spec fn reconnect_step(a: MapRegion, b: MapRegion, config: MapBuilderConfig) -> bool {
    &&& b.graph_ok()
    &&& a.tidy() ==> b.tidy()
    &&& b.origin() == a.origin()
    &&& crate::reconnect_rooms::only_toggles(a.entries(), b.entries())
    &&& b.neighbour_slots() == a.neighbour_slots()
    &&& crate::room_walks::filled_connected(a) ==> crate::room_walks::active_connected(b)
    &&& exists|trace: Seq<MapRegion>, closed: bool| #[trigger] crate::reconnect_rooms::reconnect_trace(a, b, trace, closed,
        config.group_loop_connection_chance)
}

/// `b` is a possible outcome of `bisect_long_horizontal_rooms` on `a`.
pub open spec fn bisect_step(a: MapRegion, b: MapRegion, bisect_chance: u32) -> bool {
    &&& b.graph_ok()
    &&& a.tidy() ==> b.tidy()
    &&& b.origin() == a.origin()
    &&& crate::bisect_rooms::only_long_rooms_emptied(a.entries(), b.entries())
    &&& b.entries().len() <= 4 * a.entries().len()
    &&& active_cells(b.entries()) == active_cells(a.entries())
    &&& exists|cut_ids: Seq<usize>| {
        &&& crate::bisect_rooms::cut_rooms(a.entries(), b.entries(), cut_ids)
        &&& bisect_chance == 0 ==> cut_ids.len() == 0
        &&& bisect_chance == CHANCE_SCALE ==> forall|i: int| 0 <= i < a.entries().len()
            && crate::bisect_rooms::long_row_room(#[trigger] a.entries()[i]) ==> cut_ids.contains(i as usize)
        &&& forall|q: int| #![trigger cut_ids[q]] 0 <= q < cut_ids.len() ==> crate::bisect_rooms::pieces_linked(b,
            a.entries().len() + 3 * q, a.neighbours_of(cut_ids[q] as int), cut_ids)
        &&& forall|i: int, m: usize| 0 <= i < a.entries().len() && !cut_ids.contains(i as usize)
            && !cut_ids.contains(m) && filled(a.entries()[i]) && #[trigger] a.neighbours_of(i).contains(m)
            ==> b.neighbours_of(i).contains(m)
        &&& crate::bisect_rooms::cut_pieces_linked(a, b, cut_ids)
    }
    &&& bisect_chance == 0 ==> b.entries() == a.entries() && b.neighbour_slots() == a.neighbour_slots()
}

/// The steps of `shape_region` from a part's tables to `r`, through the
/// regions `r0` to `r5`, each step as its own contract says: made from the
/// tables, compacted, merged at random, reconnected (unless it has too many
/// slots to), its small rooms merged twice, and its long rooms cut.
pub open spec fn shape_chain(origin_rect: Rect, rects: Map<usize, Rect>, removed: Map<usize, Rect>,
    neighbours: Map<usize, crate::neighbour_set::NeighbourSet>, config: MapBuilderConfig, r0: MapRegion, r1: MapRegion,
    r2: MapRegion, r3: MapRegion, r4: MapRegion, r5: MapRegion, r: MapRegion) -> bool {
    &&& made_from_tables(r0, origin_rect, rects, removed, neighbours)
    &&& compaction_step(r0, r1)
    &&& random_merge_step(r1, r2, config.random_room_merge_prob)
    &&& (reconnect_step(r2, r3, config) || (r3 == r2 && r2.entries().len() >= usize::MAX - 3))
    &&& simple_merge_step(r3, r4, 1, config.repeat_small_room_merge_prob)
    &&& simple_merge_step(r4, r5, 2, config.repeat_small_room_merge_prob / 2)
    &&& bisect_step(r5, r, config.bisect_room_prob)
}

/// `r` is a possible outcome of `shape_region` on a part: its rectangle and
/// tables (see `shape_chain`).
#[verifier::opaque]
pub open spec fn shaped_from(origin_rect: Rect, rects: Map<usize, Rect>, removed: Map<usize, Rect>,
    neighbours: Map<usize, crate::neighbour_set::NeighbourSet>, config: MapBuilderConfig, r: MapRegion) -> bool {
    exists|r0: MapRegion, r1: MapRegion, r2: MapRegion, r3: MapRegion, r4: MapRegion, r5: MapRegion|
        #[trigger] shape_chain(origin_rect, rects, removed, neighbours, config, r0, r1, r2, r3, r4, r5, r)
}

/// `r` is the region `merge_regions` makes of `rs` on `origin_rect`.
pub open spec fn merge_regions_step(rs: Seq<MapRegion>, origin_rect: Rect, r: MapRegion) -> bool {
    &&& r.graph_ok()
    &&& r.tidy()
    &&& r.origin() == origin_rect
    &&& r.entries() == concat_entries(rs)
    &&& forall|i: int, a: usize, b: usize| 0 <= i < rs.len() && (a as int) < rs[i].entries().len()
        && filled(rs[i].entries()[a as int]) && #[trigger] rs[i].neighbours_of(a as int).contains(b)
        ==> r.neighbours_of(crate::merge_regions::region_offset(rs, i) + a).contains(
            (crate::merge_regions::region_offset(rs, i) + b) as usize)
    &&& forall|i: int, j: int, a: usize, b: usize| #[trigger] crate::merge_regions::joined_across(rs, i, j, a, b)
        ==> r.neighbours_of(crate::merge_regions::region_offset(rs, i) + a).contains(
            (crate::merge_regions::region_offset(rs, j) + b) as usize)
        && r.neighbours_of(crate::merge_regions::region_offset(rs, j) + b).contains(
            (crate::merge_regions::region_offset(rs, i) + a) as usize)
}

/// `rs` holds, for each part of `ps`, a possible outcome of shaping it.
pub open spec fn regions_shaped(ps: Seq<(Rect, Map<usize, Rect>, Map<usize, Rect>, Map<usize, crate::neighbour_set::NeighbourSet>)>,
    config: MapBuilderConfig, rs: Seq<MapRegion>) -> bool {
    &&& rs.len() == ps.len()
    &&& forall|k: int| 0 <= k < ps.len() ==> shaped_from(ps[k].0, ps[k].1, ps[k].2, ps[k].3, config, #[trigger] rs[k])
}

/// The map made when the shaped regions `rs` are merged on `full`: a map
/// with no room and no door when there is no region or their slots would
/// not fit in a `usize` (with room to spare); otherwise the map of the
/// merged region, reconnected.
#[verifier::opaque]
pub open spec fn merged_map(rs: Seq<MapRegion>, config: MapBuilderConfig, full: Rect, m: GeneratedMap) -> bool {
    if rs.len() == 0 || concat_entries(rs).len() > usize::MAX - 4 {
        m.origin_rect == full && m.rooms@.len() == 0 && m.doors@.len() == 0
    } else {
        exists|merged: MapRegion, r: MapRegion| #[trigger] merge_regions_step(rs, full, merged) && reconnect_step(merged, r, config)
            && #[trigger] map_of_region(m, r)
    }
}

/// Map `m` is the map of a possible outcome of shaping the part `p`.
pub open spec fn map_of_part(m: GeneratedMap, p: (Rect, Map<usize, Rect>, Map<usize, Rect>, Map<usize, crate::neighbour_set::NeighbourSet>),
    config: MapBuilderConfig) -> bool {
    exists|r: MapRegion| shaped_from(p.0, p.1, p.2, p.3, config, r) && #[trigger] map_of_region(m, r)
}

/// `maps` are what building makes of the parts `ps` of the grid `full`
/// (see `build_from_partitions`): with `merge_regions`, one map of all the
/// shaped parts merged; otherwise, for each part in order, the map of a
/// possible outcome of shaping it.
#[verifier::opaque]
pub open spec fn built_from(ps: Seq<(Rect, Map<usize, Rect>, Map<usize, Rect>, Map<usize, crate::neighbour_set::NeighbourSet>)>,
    config: MapBuilderConfig, full: Rect, maps: Seq<GeneratedMap>) -> bool {
    if config.merge_regions {
        &&& maps.len() == 1
        &&& maps[0].origin_rect == full
        &&& exists|rs: Seq<MapRegion>| #[trigger] regions_shaped(ps, config, rs) && merged_map(rs, config, full, maps[0])
    } else {
        &&& maps.len() == ps.len()
        &&& forall|k: int| 0 <= k < ps.len() ==> (#[trigger] maps[k]).origin_rect == ps[k].0 && map_of_part(maps[k], ps[k], config)
        &&& exists|placed: Seq<GeneratedMap>| #[trigger] placed_parts(ps, config, placed)
            && crate::connect_regions::regions_linked(placed, maps)
    }
}

/// `placed` holds, for each part of `ps` in order, the map of a possible
/// outcome of shaping it, on that part's rectangle.
pub open spec fn placed_parts(ps: Seq<(Rect, Map<usize, Rect>, Map<usize, Rect>, Map<usize, crate::neighbour_set::NeighbourSet>)>,
    config: MapBuilderConfig, placed: Seq<GeneratedMap>) -> bool {
    &&& placed.len() == ps.len()
    &&& forall|k: int| 0 <= k < ps.len() ==> (#[trigger] placed[k]).origin_rect == ps[k].0 && map_of_part(placed[k], ps[k], config)
}

/// The parts a grid `full` is cut into (see `generate_and_trim_partitions`):
/// each lies in the grid and has sound tables whose rectangles are apart,
/// with at least one kept rectangle; no two parts share a cell.
pub open spec fn trimmed_parts(full: Rect, ps: Seq<(Rect, Map<usize, Rect>, Map<usize, Rect>, Map<usize, crate::neighbour_set::NeighbourSet>)>) -> bool {
    &&& forall|i: int| 0 <= i < ps.len() ==> {
        &&& inside((#[trigger] ps[i]).0, full)
        &&& ps[i].0.well_placed()
        &&& partition_tables_ok(ps[i].1, ps[i].2, ps[i].3, ps[i].0)
        &&& tables_apart(ps[i].1, ps[i].2)
        &&& ps[i].1.dom().len() > 0
    }
    &&& forall|i: int, j: int| 0 <= i < j < ps.len() ==> apart((#[trigger] ps[i]).0, (#[trigger] ps[j]).0)
}


/// Active rooms of two entry sequences that agree on which slots are active
/// and on their cells have the same cells, in order.
proof fn lemma_active_rooms_cells(a: Seq<crate::map_region::RoomEntry>, b: Seq<crate::map_region::RoomEntry>)
    requires
        a.len() == b.len(),
        forall|i: int| 0 <= i < a.len() ==> (#[trigger] a[i] is Active <==> b[i] is Active)
            && (a[i] is Active ==> a[i].spec_room().cells == b[i].spec_room().cells),
    ensures
        active_rooms(a).len() == active_rooms(b).len(),
        forall|k: int| 0 <= k < active_rooms(a).len() ==> (#[trigger] active_rooms(a)[k]).cells == active_rooms(b)[k].cells,
    decreases a.len(),
{
    if a.len() > 0 {
        lemma_active_rooms_cells(a.drop_last(), b.drop_last());
        assert(a.last() is Active <==> b.last() is Active);
    }
}

/// Doors, then the style's decoration, then the finished map.
fn finish_region(map_region: MapRegion, config: &MapBuilderConfig, style: MapStyle) -> (m: GeneratedMap)
    requires
        map_region.graph_ok(),
        map_region.tidy(),
        config.wf(),
    ensures
        m.origin_rect == map_region.origin(),
        forall|q: int| 0 <= q < m.doors@.len() ==> door_joins_rooms(m, #[trigger] m.doors@[q]),
        map_of_region(m, map_region),
{
    let mut map_region = map_region;
    let ghost r0 = map_region;
    let doors = doors_of(&map_region, config);
    RoomDecoratorFactory::decorator_for(style).decorate(&mut map_region, doors.as_slice(), config);
    let ghost r1 = map_region;
    let m = map_region.into_map(doors);
    proof {
        assert forall|q: int| 0 <= q < m.doors@.len() implies door_joins_rooms(m, #[trigger] m.doors@[q]) by {
            let d = m.doors@[q];
            assert(crate::add_doors::door_between_rooms(r0, doors@[q]));
            let (a, b) = choose|a: int, b: int| {
                &&& 0 <= a < r0.entries().len()
                &&& 0 <= b < r0.entries().len()
                &&& r0.entries()[a] is Active
                &&& r0.entries()[b] is Active
                &&& r0.neighbours_of(a).contains(b as usize)
                &&& #[trigger] r0.entries()[a].spec_room().cells@.contains(d.from)
                &&& #[trigger] r0.entries()[b].spec_room().cells@.contains(d.to)
                &&& cell_neighbour_dir(d.from, d.to) is Some
            };
            assert(r1.entries()[a].spec_room().cells == r0.entries()[a].spec_room().cells);
            assert(r1.entries()[b].spec_room().cells == r0.entries()[b].spec_room().cells);
            assert(r1.neighbours_of(a) == r0.neighbours_of(a));
            assert(crate::add_doors::door_between_rooms(r1, d));
            lemma_door_in_map(r1, m, d);
        }
        assert forall|i: int| 0 <= i < r1.entries().len() implies (#[trigger] r1.entries()[i] is Active <==> r0.entries()[i] is Active)
            && (r1.entries()[i] is Active ==> r1.entries()[i].spec_room().cells == r0.entries()[i].spec_room().cells) by {
            assert(r1.entries()[i] is Active <==> r0.entries()[i] is Active);
        }
        lemma_active_rooms_cells(r1.entries(), r0.entries());
        assert forall|k: int| 0 <= k < m.rooms@.len() implies (#[trigger] m.rooms@[k]).cells@ == active_rooms(r0.entries())[k].cells@ by {
            assert(m.rooms@[k] == active_rooms(r1.entries())[k]);
        }
    }
    m
}

impl MapBuilder {
    /// The rooms of one cut region: made from its tables, compacted, merged
    /// at random, reconnected, its small rooms merged (first those of one
    /// cell, then those of up to two with half the chance), and its long
    /// horizontal rooms cut.
    fn shape_region(
        origin_rect: Rect,
        rects: RectTable,
        removed: RectTable,
        neighbours: NeighbourTable,
        config: &MapBuilderConfig,
    ) -> (r: MapRegion)
        requires
            origin_rect.well_placed(),
            partition_tables_ok(rects@, removed@, neighbours@, origin_rect),
            tables_apart(rects@, removed@),
            config.wf(),
        ensures
            r.graph_ok(),
            r.tidy(),
            r.origin() == origin_rect,
            rooms_within(r.entries(), origin_rect),
            rooms_disjoint(r.entries()),
            shaped_from(origin_rect, rects@, removed@, neighbours@, *config, r),
    {
        let ghost (rt, rm, nb) = (rects@, removed@, neighbours@);
        let mut map_region = Self::generate_map_region(origin_rect, rects, removed, neighbours);
        proof {
            assert(rooms_within(map_region.entries(), origin_rect) && rooms_disjoint(map_region.entries())) by {
                lemma_tables_within(map_region, origin_rect, rt, rm, nb);
                lemma_ids_fit(rt.dom().union(rm.dom()));
                lemma_tables_disjoint(map_region, origin_rect, rt, rm, nb);
            }
        }
        let ghost r0 = map_region;
        proof {
            assert(made_from_tables(r0, origin_rect, rt, rm, nb));
        }
        map_region.compact_buffers();
        let ghost r1 = map_region;
        proof {
            assert(compaction_step(r0, r1));
        }
        proof {
            assert(rooms_within(map_region.entries(), origin_rect) && rooms_disjoint(map_region.entries())) by {
                let t = choose|t: Seq<int>| MapRegion::compacts(r0, map_region, t)
                    && forall|p: int| 0 <= p < map_region.entries().len() ==> #[trigger] has_source(t, r0.entries(), p);
                lemma_compaction_within(r0, map_region, t, origin_rect);
                lemma_compaction_disjoint(r0, map_region, t);
            }
        }
        let ghost e1 = map_region.entries();
        proof {
            map_region.lemma_slot_count_fits();
        }
        Self::merge_random_rooms(&mut map_region, config.random_room_merge_prob);
        let ghost r2 = map_region;
        proof {
            assert(random_merge_step(r1, r2, config.random_room_merge_prob));
            assert(rooms_within(map_region.entries(), origin_rect) && rooms_disjoint(map_region.entries())) by {
                lemma_merges_within(e1, map_region.entries(), origin_rect);
                let pairs = choose|pairs: Seq<(usize, usize)>| disjoint_active_pairs(pairs, e1) && merged_by(e1, map_region.entries(), pairs);
                lemma_merges_disjoint(e1, map_region.entries(), pairs);
            }
        }
        let ghost e2 = map_region.entries();
        if map_region.room_slots() < usize::MAX - 3 {
            Self::reconnect_room_groups(&mut map_region, config);
            proof {
                lemma_toggles_within(e2, map_region.entries(), origin_rect);
                lemma_toggles_disjoint(e2, map_region.entries());
            }
        }
        let ghost e3 = map_region.entries();
        let ghost r3 = map_region;
        proof {
            map_region.lemma_slot_count_fits();
            assert(reconnect_step(r2, r3, *config) || (r3 == r2 && r2.entries().len() >= usize::MAX - 3));
        }
        Self::merge_repeated_simple_rooms(&mut map_region, 1, config.repeat_small_room_merge_prob);
        let ghost r4 = map_region;
        proof {
            assert(simple_merge_step(r3, r4, 1, config.repeat_small_room_merge_prob));
            assert(rooms_within(map_region.entries(), origin_rect) && rooms_disjoint(map_region.entries())) by {
                lemma_merges_within(e3, map_region.entries(), origin_rect);
                let pairs = choose|pairs: Seq<(usize, usize)>| disjoint_active_pairs(pairs, e3) && merged_by(e3, map_region.entries(), pairs);
                lemma_merges_disjoint(e3, map_region.entries(), pairs);
            }
        }
        let ghost e4 = map_region.entries();
        proof {
            map_region.lemma_slot_count_fits();
        }
        Self::merge_repeated_simple_rooms(&mut map_region, 2, config.repeat_small_room_merge_prob / 2);
        let ghost r5 = map_region;
        proof {
            assert(simple_merge_step(r4, r5, 2, config.repeat_small_room_merge_prob / 2));
            assert(rooms_within(map_region.entries(), origin_rect) && rooms_disjoint(map_region.entries())) by {
                lemma_merges_within(e4, map_region.entries(), origin_rect);
                let pairs = choose|pairs: Seq<(usize, usize)>| disjoint_active_pairs(pairs, e4) && merged_by(e4, map_region.entries(), pairs);
                lemma_merges_disjoint(e4, map_region.entries(), pairs);
            }
        }
        let ghost e5 = map_region.entries();
        proof {
            map_region.lemma_slot_count_fits();
        }
        Self::bisect_long_horizontal_rooms(&mut map_region, config.bisect_room_prob);
        proof {
            assert(bisect_step(r5, map_region, config.bisect_room_prob));
            assert(shape_chain(origin_rect, rt, rm, nb, *config, r0, r1, r2, r3, r4, r5, map_region));
            reveal(shaped_from);
            assert(rooms_within(map_region.entries(), origin_rect) && rooms_disjoint(map_region.entries())) by {
                lemma_cuts_within(e5, map_region.entries(), origin_rect);
                let cut_ids = choose|cut_ids: Seq<usize>| crate::bisect_rooms::cut_rooms(e5, map_region.entries(), cut_ids);
                lemma_cuts_disjoint(e5, map_region.entries(), cut_ids);
            }
        }
        map_region
    }

    /// Builds the maps: the grid is cut into regions (none when it is no
    /// more than four cells wide or high), each region gets its rooms
    /// (`shape_region`). With `merge_regions` the regions become one map
    /// covering the whole grid, its rooms reconnected, given doors and
    /// decorated (a map with no room when no region is left); otherwise each region becomes a map of its own, given
    /// doors and decorated, and neighbouring maps are linked
    /// (`connect_regions`); those maps lie on parts of the grid that share no
    /// cell. The rooms of every map lie in its rectangle and share no cell.
    /// The maps are those `build_from_partitions` makes of a possible
    /// outcome of `generate_and_trim_partitions` (see `trimmed_from` and
    /// `built_from`).
    pub fn build(&self, config: &MapBuilderConfig, style: MapStyle) -> (maps: Vec<GeneratedMap>)
        requires
            self.cols > MIN_RECT_WIDTH && self.rows > MIN_RECT_HEIGHT ==> {
                &&& config.wf()
                &&& self.cols * self.rows <= u32::MAX
                &&& 1 + 2 * (self.cols * self.rows) <= usize::MAX
            },
        ensures
            self.cols <= MIN_RECT_WIDTH || self.rows <= MIN_RECT_HEIGHT ==> maps@.len() == 0,
            config.merge_regions ==> maps@.len() <= 1,
            config.merge_regions && self.cols > MIN_RECT_WIDTH && self.rows > MIN_RECT_HEIGHT ==> maps@.len() == 1,
            maps@.len() <= self.cols * self.rows,
            config.merge_regions ==> forall|k: int| 0 <= k < maps@.len()
                ==> (#[trigger] maps@[k]).origin_rect == full_rect(self.cols, self.rows),
            !config.merge_regions ==> forall|k: int| 0 <= k < maps@.len()
                ==> inside((#[trigger] maps@[k]).origin_rect, full_rect(self.cols, self.rows)),
            doors_join_rooms(maps@),
            !config.merge_regions ==> forall|i: int, j: int| 0 <= i < j < maps@.len()
                ==> apart((#[trigger] maps@[i]).origin_rect, (#[trigger] maps@[j]).origin_rect),
            self.cols > MIN_RECT_WIDTH && self.rows > MIN_RECT_HEIGHT ==> exists|ps: Seq<(Rect, Map<usize, Rect>, Map<usize, Rect>, Map<usize, crate::neighbour_set::NeighbourSet>)>|
                trimmed_from(self.cols, self.rows, config.bsp_config, ps) && trimmed_parts(full_rect(self.cols, self.rows), ps)
                && #[trigger] built_from(ps, *config, full_rect(self.cols, self.rows), maps@),
            forall|k: int| 0 <= k < maps@.len() ==> map_rooms_within(#[trigger] maps@[k], maps@[k].origin_rect),
            forall|k: int| 0 <= k < maps@.len() ==> map_rooms_apart(#[trigger] maps@[k]),
    {
        if self.cols <= MIN_RECT_WIDTH || self.rows <= MIN_RECT_HEIGHT {
            return Vec::new();
        }
        let full = Rect::new(0, 0, self.cols, self.rows);
        let mut parts = BinarySpacePartitioning::generate_and_trim_partitions(self.cols, self.rows, config.bsp_config);
        proof {
            assert forall|i: int, j: int| 0 <= i < j < parts@.len()
                implies apart((#[trigger] parts@[i]).0, (#[trigger] parts@[j]).0) by {}
            assert(self.cols * self.rows >= 1) by (nonlinear_arith)
                requires
                    self.cols > MIN_RECT_WIDTH,
                    self.rows > MIN_RECT_HEIGHT,
                    MIN_RECT_WIDTH >= 0,
                    MIN_RECT_HEIGHT >= 0,
            ;
        }
        let ghost ps = parts@.map_values(|p: (Rect, RectTable, RectTable, NeighbourTable)| part_tables(p));
        proof {
            assert(trimmed_parts(full_rect(self.cols, self.rows), ps)) by {
                assert forall|i: int| 0 <= i < ps.len() implies {
                    &&& inside((#[trigger] ps[i]).0, full_rect(self.cols, self.rows))
                    &&& ps[i].0.well_placed()
                    &&& partition_tables_ok(ps[i].1, ps[i].2, ps[i].3, ps[i].0)
                    &&& tables_apart(ps[i].1, ps[i].2)
                    &&& ps[i].1.dom().len() > 0
                } by {
                    assert(ps[i] == part_tables(parts@[i]));
                }
                assert forall|i: int, j: int| 0 <= i < j < ps.len() implies apart((#[trigger] ps[i]).0, (#[trigger] ps[j]).0) by {
                    assert(ps[i] == part_tables(parts@[i]) && ps[j] == part_tables(parts@[j]));
                }
            }
        }
        let maps = self.build_from_partitions(parts, config, style);
        proof {
            assert(built_from(ps, *config, full_rect(self.cols, self.rows), maps@));
            assert(trimmed_from(self.cols, self.rows, config.bsp_config, ps));
        }
        maps
    }

    /// Builds the maps from the grid's regions `parts` (see
    /// `generate_and_trim_partitions`): each region gets its rooms
    /// (`shape_region`). With `merge_regions` the regions become one map
    /// covering the whole grid, its rooms reconnected, given doors and
    /// decorated (a map with no room when no region is left); otherwise each
    /// region, in order, becomes a map of its own on that region, given doors
    /// and decorated, and neighbouring maps are linked (`connect_regions`).
    /// The rooms of every map lie in its rectangle and share no cell. Each
    /// map is the map of a possible outcome of shaping its part (or, merged,
    /// of all of them), as `built_from` says.
    pub fn build_from_partitions(&self, parts: Vec<(Rect, RectTable, RectTable, NeighbourTable)>, config: &MapBuilderConfig,
        style: MapStyle) -> (maps: Vec<GeneratedMap>)
        requires
            self.cols > MIN_RECT_WIDTH,
            self.rows > MIN_RECT_HEIGHT,
            config.wf(),
            self.cols * self.rows <= u32::MAX,
            1 + 2 * (self.cols * self.rows) <= usize::MAX,
            parts@.len() <= self.cols * self.rows,
            forall|i: int| 0 <= i < parts@.len() ==> {
                let (origin, rects, removed, neighbours) = #[trigger] parts@[i];
                &&& inside(origin, full_rect(self.cols, self.rows))
                &&& origin.well_placed()
                &&& partition_tables_ok(rects@, removed@, neighbours@, origin)
                &&& tables_apart(rects@, removed@)
            },
            forall|i: int, j: int| 0 <= i < j < parts@.len() ==> apart((#[trigger] parts@[i]).0, (#[trigger] parts@[j]).0),
        ensures
            config.merge_regions ==> maps@.len() == 1 && maps@[0].origin_rect == full_rect(self.cols, self.rows),
            !config.merge_regions ==> maps@.len() == parts@.len()
                && forall|k: int| 0 <= k < maps@.len() ==> (#[trigger] maps@[k]).origin_rect == parts@[k].0,
            doors_join_rooms(maps@),
            built_from(parts@.map_values(|p: (Rect, RectTable, RectTable, NeighbourTable)| part_tables(p)), *config, full_rect(self.cols, self.rows), maps@),
            forall|k: int| 0 <= k < maps@.len() ==> map_rooms_within(#[trigger] maps@[k], maps@[k].origin_rect),
            forall|k: int| 0 <= k < maps@.len() ==> map_rooms_apart(#[trigger] maps@[k]),
    {
        let full = Rect::new(0, 0, self.cols, self.rows);
        let ghost ps = parts@.map_values(|p: (Rect, RectTable, RectTable, NeighbourTable)| part_tables(p));
        let mut parts = parts;
        let ghost no_parts = parts@.len() == 0;
        let ghost origins = parts@.map_values(|p: (Rect, RectTable, RectTable, NeighbourTable)| p.0);
        proof {
            assert forall|i: int, j: int| 0 <= i < j < origins.len() implies apart(#[trigger] origins[i], #[trigger] origins[j]) by {
                assert(origins[i] == parts@[i].0 && origins[j] == parts@[j].0);
            }
            assert forall|k: int| 0 <= k < ps.len() implies (#[trigger] ps[k]).0 == origins[k] by {
                assert(ps[k] == part_tables(parts@[k]));
            }
            assert forall|i: int| 0 <= i < parts@.len() implies part_tables(#[trigger] parts@[i]) == ps[i] by {}
        }
        let mut regions: Vec<MapRegion> = Vec::new();
        while parts.len() > 0
            invariant
                all_apart(origins, 0),
                regions@.len() + parts@.len() == origins.len(),
                forall|k: int| 0 <= k < regions@.len() ==> (#[trigger] regions@[k]).origin() == origins[k],
                forall|i: int| 0 <= i < parts@.len() ==> (#[trigger] parts@[i]).0 == origins[regions@.len() + i],
                ps.len() == origins.len(),
                forall|k: int| 0 <= k < ps.len() ==> (#[trigger] ps[k]).0 == origins[k],
                forall|i: int| 0 <= i < parts@.len() ==> part_tables(#[trigger] parts@[i]) == ps[regions@.len() + i],
                forall|k: int| 0 <= k < regions@.len() ==> shaped_from(ps[k].0, ps[k].1, ps[k].2, ps[k].3, *config, #[trigger] regions@[k]),
                config.wf(),
                full == full_rect(self.cols, self.rows),
                no_parts ==> parts@.len() == 0 && regions@.len() == 0,
                parts@.len() + regions@.len() <= self.cols * self.rows,
                self.cols > MIN_RECT_WIDTH && self.rows > MIN_RECT_HEIGHT,
                forall|i: int| 0 <= i < parts@.len() ==> {
                    let (origin, rects, removed, neighbours) = #[trigger] parts@[i];
                    &&& inside(origin, full)
                    &&& origin.well_placed()
                    &&& partition_tables_ok(rects@, removed@, neighbours@, origin)
                    &&& tables_apart(rects@, removed@)
                },
                forall|k: int| 0 <= k < regions@.len() ==> {
                    &&& (#[trigger] regions@[k]).graph_ok()
                    &&& regions@[k].tidy()
                    &&& regions@[k].origin().well_placed()
                    &&& inside(regions@[k].origin(), full)
                    &&& rooms_within(regions@[k].entries(), regions@[k].origin())
                    &&& rooms_disjoint(regions@[k].entries())
                },
            decreases parts@.len(),
        {
            let ghost before = parts@;
            let (origin, rects, removed, neighbours) = parts.remove(0);
            proof {
                assert(before[0] == (origin, rects, removed, neighbours));
                assert forall|i: int| 0 <= i < parts@.len() implies {
                    let (o, a, b, c) = #[trigger] parts@[i];
                    &&& inside(o, full)
                    &&& o.well_placed()
                    &&& partition_tables_ok(a@, b@, c@, o)
                    &&& tables_apart(a@, b@)
                } by {
                    assert(parts@[i] == before[i + 1]);
                }
            }
            proof {
                assert forall|i: int| 0 <= i < parts@.len() implies (#[trigger] parts@[i]).0 == origins[regions@.len() + 1 + i] by {
                    assert(parts@[i] == before[i + 1]);
                }
                assert forall|i: int| 0 <= i < parts@.len() implies part_tables(#[trigger] parts@[i]) == ps[regions@.len() + 1 + i] by {
                    assert(parts@[i] == before[i + 1]);
                }
                assert(part_tables(before[0]) == ps[regions@.len() as int]);
            }
            let region = Self::shape_region(origin, rects, removed, neighbours, config);
            let ghost regions_before = regions@;
            regions.push(region);
            proof {
                assert forall|k: int| 0 <= k < regions@.len() implies (#[trigger] regions@[k]).origin() == origins[k] by {
                    if k < regions_before.len() {
                        assert(regions@[k] == regions_before[k]);
                    }
                }
                assert forall|k: int| 0 <= k < regions@.len() implies rooms_within((#[trigger] regions@[k]).entries(), regions@[k].origin())
                    && rooms_disjoint(regions@[k].entries()) by {
                    if k < regions_before.len() {
                        assert(regions@[k] == regions_before[k]);
                    }
                }
                assert forall|k: int| 0 <= k < regions@.len() implies shaped_from(ps[k].0, ps[k].1, ps[k].2, ps[k].3, *config,
                    #[trigger] regions@[k]) by {
                    if k < regions_before.len() {
                        assert(regions@[k] == regions_before[k]);
                    }
                }
            }
        }
        proof {
            assert(self.cols * self.rows >= 1) by (nonlinear_arith)
                requires
                    self.cols > MIN_RECT_WIDTH,
                    self.rows > MIN_RECT_HEIGHT,
                    MIN_RECT_WIDTH >= 0,
                    MIN_RECT_HEIGHT >= 0,
            ;
        }
        if config.merge_regions {
            let n = regions.len();
            proof {
                assert(regions_shaped(ps, *config, regions@));
            }
            if n == 0 {
                let maps = empty_map_list(full);
                proof {
                    assert(merged_map(regions@, *config, full, maps@[0])) by {
                        reveal(merged_map);
                    }
                    assert(built_from(ps, *config, full, maps@)) by {
                        reveal(built_from);
                    }
                }
                return maps;
            }
            let mut total: u128 = 0;
            let mut i: usize = 0;
            while i < n
                invariant
                    0 <= i <= n,
                    n == regions@.len(),
                    n <= u32::MAX,
                    total == concat_entries(regions@.take(i as int)).len(),
                    total <= i * 0x1_0000_0000_0000_0000,
                decreases n - i,
            {
                proof {
                    lemma_concat_take_step(regions@, i as int);
                }
                let slots = regions[i].room_slots();
                total = total + slots as u128;
                i = i + 1;
            }
            proof {
                assert(regions@.take(n as int) =~= regions@);
            }
            if total > (usize::MAX - 4) as u128 {
                let maps = empty_map_list(full);
                proof {
                    assert(merged_map(regions@, *config, full, maps@[0])) by {
                        reveal(merged_map);
                    }
                    assert(built_from(ps, *config, full, maps@)) by {
                        reveal(built_from);
                    }
                }
                return maps;
            }
            let ghost regs = regions@;
            let mut map_region = Self::merge_regions(full, regions);
            proof {
                lemma_concat_within(regs, full);
                assert forall|k1: int, k2: int| 0 <= k1 < k2 < regs.len() implies apart((#[trigger] regs[k1]).origin(), (#[trigger] regs[k2]).origin()) by {
                    assert(apart(origins[k1], origins[k2]));
                }
                lemma_concat_disjoint(regs);
            }
            let ghost e0 = map_region.entries();
            let ghost merged0 = map_region;
            proof {
                assert(merge_regions_step(regs, full, merged0));
            }
            if map_region.room_slots() < usize::MAX - 3 {
                Self::reconnect_room_groups(&mut map_region, config);
                proof {
                    lemma_toggles_within(e0, map_region.entries(), full);
                    lemma_toggles_disjoint(e0, map_region.entries());
                }
            }
            let ghost merged = map_region;
            proof {
                assert(reconnect_step(merged0, merged, *config));
            }
            let m = finish_region(map_region, config, style);
            let mut maps: Vec<GeneratedMap> = Vec::new();
            maps.push(m);
            proof {
                assert(maps@[0] == m);
                assert(merged_map(regs, *config, full, m)) by {
                    reveal(merged_map);
                }
                assert(built_from(ps, *config, full, maps@)) by {
                    reveal(built_from);
                }
                lemma_active_rooms_within(merged.entries(), full);
                assert forall|k: int, c: Cell| 0 <= k < m.rooms@.len() && #[trigger] m.rooms@[k].cells@.contains(c) implies in_rect(full, c) by {
                    assert(m.rooms@[k].cells@ == active_rooms(merged.entries())[k].cells@);
                }
                lemma_active_rooms_disjoint(merged.entries());
                assert forall|k1: int, k2: int, c: Cell| 0 <= k1 < m.rooms@.len() && 0 <= k2 < m.rooms@.len() && k1 != k2
                    && #[trigger] m.rooms@[k1].cells@.contains(c) implies !#[trigger] m.rooms@[k2].cells@.contains(c) by {
                    assert(m.rooms@[k1].cells@ == active_rooms(merged.entries())[k1].cells@);
                    assert(m.rooms@[k2].cells@ == active_rooms(merged.entries())[k2].cells@);
                }
            }
            maps
        } else {
            let mut maps: Vec<GeneratedMap> = Vec::new();
            while regions.len() > 0
                invariant
                    all_apart(origins, 0),
                    maps@.len() + regions@.len() == origins.len(),
                    forall|k: int| 0 <= k < maps@.len() ==> (#[trigger] maps@[k]).origin_rect == origins[k],
                    forall|i: int| 0 <= i < regions@.len() ==> (#[trigger] regions@[i]).origin() == origins[maps@.len() + i],
                    config.wf(),
                    full == full_rect(self.cols, self.rows),
                    no_parts ==> regions@.len() == 0 && maps@.len() == 0,
                    maps@.len() + regions@.len() <= self.cols * self.rows,
                    forall|k: int| 0 <= k < regions@.len() ==> {
                        &&& (#[trigger] regions@[k]).graph_ok()
                        &&& regions@[k].tidy()
                        &&& regions@[k].origin().well_placed()
                        &&& inside(regions@[k].origin(), full)
                        &&& rooms_within(regions@[k].entries(), regions@[k].origin())
                        &&& rooms_disjoint(regions@[k].entries())
                    },
                    forall|k: int| 0 <= k < maps@.len() ==> (#[trigger] maps@[k]).origin_rect.well_placed()
                        && inside(maps@[k].origin_rect, full),
                    forall|k: int| 0 <= k < maps@.len() ==> map_rooms_within(#[trigger] maps@[k], maps@[k].origin_rect),
                    forall|k: int| 0 <= k < maps@.len() ==> map_rooms_apart(#[trigger] maps@[k]),
                    doors_join_rooms(maps@),
                    ps.len() == origins.len(),
                    forall|k: int| 0 <= k < ps.len() ==> (#[trigger] ps[k]).0 == origins[k],
                    forall|i: int| 0 <= i < regions@.len() ==> shaped_from(ps[maps@.len() + i].0, ps[maps@.len() + i].1,
                        ps[maps@.len() + i].2, ps[maps@.len() + i].3, *config, #[trigger] regions@[i]),
                    forall|k: int| 0 <= k < maps@.len() ==> map_of_part(#[trigger] maps@[k], ps[k], *config),
                decreases regions@.len(),
            {
                let ghost before = regions@;
                let region = regions.remove(0);
                proof {
                    assert(before[0] == region);
                    assert forall|k: int| 0 <= k < regions@.len() implies {
                        &&& (#[trigger] regions@[k]).graph_ok()
                        &&& regions@[k].tidy()
                        &&& regions@[k].origin().well_placed()
                        &&& inside(regions@[k].origin(), full)
                        &&& rooms_within(regions@[k].entries(), regions@[k].origin())
                        &&& rooms_disjoint(regions@[k].entries())
                    } by {
                        assert(regions@[k] == before[k + 1]);
                    }
                }
                let ghost reg = region;
                let m = finish_region(region, config, style);
                let ghost before_maps = maps@;
                maps.push(m);
                proof {
                    lemma_active_rooms_within(reg.entries(), reg.origin());
                    assert forall|k: int, c: Cell| 0 <= k < m.rooms@.len() && #[trigger] m.rooms@[k].cells@.contains(c)
                        implies in_rect(m.origin_rect, c) by {
                        assert(m.rooms@[k].cells@ == active_rooms(reg.entries())[k].cells@);
                    }
                    assert forall|k: int| 0 <= k < maps@.len() implies map_rooms_within(#[trigger] maps@[k], maps@[k].origin_rect) by {
                        if k < before_maps.len() {
                            assert(maps@[k] == before_maps[k]);
                        }
                    }
                    lemma_active_rooms_disjoint(reg.entries());
                    assert forall|k1: int, k2: int, c: Cell| 0 <= k1 < m.rooms@.len() && 0 <= k2 < m.rooms@.len() && k1 != k2
                        && #[trigger] m.rooms@[k1].cells@.contains(c) implies !#[trigger] m.rooms@[k2].cells@.contains(c) by {
                        assert(m.rooms@[k1].cells@ == active_rooms(reg.entries())[k1].cells@);
                        assert(m.rooms@[k2].cells@ == active_rooms(reg.entries())[k2].cells@);
                    }
                    assert forall|k: int| 0 <= k < maps@.len() implies map_rooms_apart(#[trigger] maps@[k]) by {
                        if k < before_maps.len() {
                            assert(maps@[k] == before_maps[k]);
                        }
                    }
                    assert(map_of_region(m, reg));
                    assert(shaped_from(ps[before_maps.len() as int].0, ps[before_maps.len() as int].1, ps[before_maps.len() as int].2,
                        ps[before_maps.len() as int].3, *config, reg));
                    assert forall|k: int| 0 <= k < maps@.len() implies map_of_part(#[trigger] maps@[k], ps[k], *config) by {
                        if k < before_maps.len() {
                            assert(maps@[k] == before_maps[k]);
                        } else {
                            assert(maps@[k] == m);
                            assert(ps[k].0 == ps[before_maps.len() as int].0);
                        }
                    }
                    assert forall|i: int| 0 <= i < regions@.len() implies shaped_from(ps[maps@.len() + i].0, ps[maps@.len() + i].1,
                        ps[maps@.len() + i].2, ps[maps@.len() + i].3, *config, #[trigger] regions@[i]) by {
                        assert(regions@[i] == before[i + 1]);
                    }
                    assert forall|i: int| 0 <= i < regions@.len() implies (#[trigger] regions@[i]).origin() == origins[maps@.len() + i] by {
                        assert(regions@[i] == before[i + 1]);
                    }
                    assert forall|k: int| 0 <= k < maps@.len() implies (#[trigger] maps@[k]).origin_rect == origins[k] by {
                        if k < before_maps.len() {
                            assert(maps@[k] == before_maps[k]);
                        }
                    }
                    assert forall|k: int, q: int| 0 <= k < maps@.len() && 0 <= q < maps@[k].doors@.len()
                        implies door_joins_rooms(maps@[k], #[trigger] maps@[k].doors@[q]) by {
                        if k < before_maps.len() {
                            assert(maps@[k] == before_maps[k]);
                        } else {
                            assert(maps@[k] == m);
                        }
                    }
                }
            }
            let ghost placed = maps@;
            Self::connect_regions(&mut maps);
            proof {
                assert forall|k: int| 0 <= k < maps@.len() implies (#[trigger] maps@[k]).origin_rect == ps[k].0
                    && map_of_part(maps@[k], ps[k], *config) by {
                    assert(map_of_part(placed[k], ps[k], *config));
                    let r = choose|r: MapRegion| shaped_from(ps[k].0, ps[k].1, ps[k].2, ps[k].3, *config, r) && #[trigger] map_of_region(placed[k], r);
                    assert forall|q: int| 0 <= q < maps@[k].rooms@.len() implies (#[trigger] maps@[k].rooms@[q]).cells@
                        == active_rooms(r.entries())[q].cells@ by {
                        assert(maps@[k].rooms@[q].cells@ == placed[k].rooms@[q].cells@);
                    }
                    assert(map_of_region(maps@[k], r));
                    assert(placed[k].origin_rect == origins[k]);
                    assert(origins[k] == ps[k].0);
                }
                lemma_marking_keeps_doors(placed, maps@);
                assert forall|k: int| 0 <= k < maps@.len() implies map_rooms_within(#[trigger] maps@[k], maps@[k].origin_rect) by {
                    assert(map_rooms_within(placed[k], placed[k].origin_rect));
                    assert forall|q: int, c: Cell| 0 <= q < maps@[k].rooms@.len() && #[trigger] maps@[k].rooms@[q].cells@.contains(c)
                        implies in_rect(maps@[k].origin_rect, c) by {
                        assert(maps@[k].rooms@[q].cells@ == placed[k].rooms@[q].cells@);
                        assert(placed[k].rooms@[q].cells@.contains(c));
                    }
                }
                assert forall|k: int| 0 <= k < maps@.len() implies map_rooms_apart(#[trigger] maps@[k]) by {
                    assert(map_rooms_apart(placed[k]));
                    assert forall|k1: int, k2: int, c: Cell| 0 <= k1 < maps@[k].rooms@.len() && 0 <= k2 < maps@[k].rooms@.len() && k1 != k2
                        && #[trigger] maps@[k].rooms@[k1].cells@.contains(c) implies !#[trigger] maps@[k].rooms@[k2].cells@.contains(c) by {
                        assert(maps@[k].rooms@[k1].cells@ == placed[k].rooms@[k1].cells@);
                        assert(maps@[k].rooms@[k2].cells@ == placed[k].rooms@[k2].cells@);
                        assert(placed[k].rooms@[k1].cells@.contains(c));
                    }
                }
                assert forall|k: int| 0 <= k < maps@.len() implies inside((#[trigger] maps@[k]).origin_rect, full) by {
                    assert(maps@[k].origin_rect == placed[k].origin_rect);
                }
                assert forall|i: int, j: int| 0 <= i < j < maps@.len()
                    implies apart((#[trigger] maps@[i]).origin_rect, (#[trigger] maps@[j]).origin_rect) by {
                    assert(maps@[i].origin_rect == placed[i].origin_rect);
                    assert(maps@[j].origin_rect == placed[j].origin_rect);
                    assert(apart(origins[i], origins[j]));
                }
                assert(placed_parts(ps, *config, placed)) by {
                    assert forall|k: int| 0 <= k < ps.len() implies (#[trigger] placed[k]).origin_rect == ps[k].0
                        && map_of_part(placed[k], ps[k], *config) by {
                        assert(placed[k].origin_rect == origins[k]);
                    }
                }
                assert(crate::connect_regions::regions_linked(placed, maps@));
                assert(built_from(ps, *config, full, maps@)) by {
                    reveal(built_from);
                }
            }
            maps
        }
    }
}

/// Maps built apart are linked: when regions are not merged, every map with
/// rooms that a walk over adjacent maps from the first map reaches has a
/// room marked as a region connection.
pub proof fn law_region_maps_linked(ps: Seq<(Rect, Map<usize, Rect>, Map<usize, Rect>, Map<usize, crate::neighbour_set::NeighbourSet>)>,
    config: MapBuilderConfig, full: Rect, maps: Seq<GeneratedMap>, w: Seq<usize>)
    requires
        built_from(ps, config, full, maps),
        !config.merge_regions,
        crate::connect_regions::map_walk(maps, w),
        w.last() != 0,
        maps[w.last() as int].rooms@.len() > 0,
    ensures
        crate::connect_regions::has_connection(maps[w.last() as int]),
{
    reveal(built_from);
    let placed = choose|placed: Seq<GeneratedMap>| #[trigger] placed_parts(ps, config, placed)
        && crate::connect_regions::regions_linked(placed, maps);
    assert(crate::connect_regions::map_walk(placed, w)) by {
        assert forall|k: int| 0 <= k < w.len() - 1 implies crate::connect_regions::maps_adjacent(placed,
            #[trigger] w[k] as int, w[k + 1] as int) by {
            assert(crate::connect_regions::maps_adjacent(maps, w[k] as int, w[k + 1] as int));
            assert(maps[w[k] as int].origin_rect == placed[w[k] as int].origin_rect);
            assert(maps[w[k + 1] as int].origin_rect == placed[w[k + 1] as int].origin_rect);
        }
    }
    assert(maps[w.last() as int].rooms@.len() == placed[w.last() as int].rooms@.len());
}

/// Maps built apart are linked from the first map: when regions are not
/// merged and the first map has rooms and an adjacent map, one of its rooms
/// is marked as a region connection.
pub proof fn law_first_region_map_linked(ps: Seq<(Rect, Map<usize, Rect>, Map<usize, Rect>, Map<usize, crate::neighbour_set::NeighbourSet>)>,
    config: MapBuilderConfig, full: Rect, maps: Seq<GeneratedMap>, y: int)
    requires
        built_from(ps, config, full, maps),
        !config.merge_regions,
        0 <= y < maps.len(),
        crate::connect_regions::maps_adjacent(maps, 0, y),
        maps[0].rooms@.len() > 0,
    ensures
        crate::connect_regions::has_connection(maps[0]),
{
    reveal(built_from);
    let placed = choose|placed: Seq<GeneratedMap>| #[trigger] placed_parts(ps, config, placed)
        && crate::connect_regions::regions_linked(placed, maps);
    assert(maps[0].origin_rect == placed[0].origin_rect);
    assert(maps[y].origin_rect == placed[y].origin_rect);
    assert(crate::connect_regions::maps_adjacent(placed, 0, y));
    assert(maps[0].rooms@.len() == placed[0].rooms@.len());
}

} // verus!
