//! Merging the regions of a map into one region, joining touching rooms
//! across neighbouring regions.
use vstd::prelude::*;

use crate::centers::{cells_center, coord_sum, mean_center, squared_distance, Vector2};
use crate::map_builder::MapBuilder;
use crate::map_region::{filled, lists_ids, shifted_slot, MapRegion, RoomEntry};
use crate::types::{cells_touch, room_eq, Rect, Room};

verus! {

/// The slots of the regions, one region after the other.
pub open spec fn concat_entries(regions: Seq<MapRegion>) -> Seq<RoomEntry>
    decreases regions.len(),
{
    if regions.len() == 0 {
        Seq::empty()
    } else {
        concat_entries(regions.drop_last()) + regions.last().entries()
    }
}

/// Where the slots of region `i` start once the regions are merged.
pub open spec fn region_offset(regions: Seq<MapRegion>, i: int) -> int {
    concat_entries(regions.take(i)).len() as int
}

pub(crate) proof fn lemma_concat_take_step(regions: Seq<MapRegion>, i: int)
    requires
        0 <= i < regions.len(),
    ensures
        concat_entries(regions.take(i + 1)) == concat_entries(regions.take(i)) + regions[i].entries(),
{
    assert(regions.take(i + 1).drop_last() =~= regions.take(i));
}

/// Offsets grow by each region's slot count.
pub(crate) proof fn lemma_offsets_grow(regions: Seq<MapRegion>, i: int, j: int)
    requires
        0 <= i < j <= regions.len(),
    ensures
        region_offset(regions, i) + regions[i].entries().len() <= region_offset(regions, j),
    decreases j - i,
{
    lemma_concat_take_step(regions, i);
    if j > i + 1 {
        lemma_offsets_grow(regions, i + 1, j);
        lemma_concat_take_step(regions, i + 1);
    }
}

/// Slot `a` of region `i` is slot `region_offset(i) + a` of the merged slots.
proof fn lemma_concat_index(regions: Seq<MapRegion>, i: int, a: int, n: int)
    requires
        0 <= i < n <= regions.len(),
        0 <= a < regions[i].entries().len(),
    ensures
        region_offset(regions, i) + a < concat_entries(regions.take(n)).len(),
        concat_entries(regions.take(n))[region_offset(regions, i) + a] == regions[i].entries()[a],
    decreases n - i,
{
    lemma_concat_take_step(regions, n - 1);
    if n - 1 == i {
    } else {
        lemma_concat_index(regions, i, a, n - 1);
    }
}

/// Linking two rooms only adds to the neighbour sets.
proof fn lemma_link_grows(s: Seq<Option<Set<usize>>>, x: int, y: int, j: int, z: usize)
    requires
        0 <= x < s.len(),
        0 <= y < s.len(),
        x != y,
        0 <= j < s.len(),
        s[j] is Some,
        s[j]->0.contains(z),
    ensures
        ({
            let t = s.update(x, Some(s[x]->0.insert(y as usize))).update(y, Some(s[y]->0.insert(x as usize)));
            t[j] is Some && t[j]->0.contains(z)
        }),
{
}

/// The centre of the room of a slot; the origin for an empty slot.
pub open spec fn slot_center(e: RoomEntry) -> Vector2 {
    if filled(e) { cells_center(e.spec_room().cells@) } else { Vector2 { x: 0, y: 0 } }
}

/// The centres of the rooms of the slots, slot by slot.
pub open spec fn slot_centers(entries: Seq<RoomEntry>) -> Seq<Vector2> {
    entries.map_values(|e: RoomEntry| slot_center(e))
}

/// The indices of the filled slots, in order.
pub open spec fn filled_ids(entries: Seq<RoomEntry>) -> Seq<usize>
    decreases entries.len(),
{
    if entries.len() == 0 {
        Seq::empty()
    } else if filled(entries.last()) {
        filled_ids(entries.drop_last()).push((entries.len() - 1) as usize)
    } else {
        filled_ids(entries.drop_last())
    }
}

/// The centre of a region: the mean of its rooms' centres.
pub open spec fn region_center(entries: Seq<RoomEntry>) -> Vector2 {
    mean_center(filled_ids(entries), slot_centers(entries))
}

proof fn lemma_slot_centers_push(e: Seq<RoomEntry>, i: int)
    requires
        0 <= i < e.len(),
    ensures
        slot_centers(e.take(i + 1)) == slot_centers(e.take(i)).push(slot_center(e[i])),
        forall|k: int| 0 <= k <= i ==> #[trigger] slot_centers(e.take(i + 1))[k] == slot_centers(e)[k],
{
    assert(slot_centers(e.take(i + 1)) =~= slot_centers(e.take(i)).push(slot_center(e[i])));
}

/// A sum over indices below `bound` reads the same in two sequences of
/// centres that agree below `bound`.
proof fn lemma_coord_sum_frame(ids: Seq<usize>, a: Seq<Vector2>, b: Seq<Vector2>, bound: int)
    requires
        forall|k: int| 0 <= k < ids.len() ==> (#[trigger] ids[k] as int) < bound,
        bound <= a.len(),
        bound <= b.len(),
        forall|k: int| 0 <= k < bound ==> #[trigger] a[k] == b[k],
    ensures
        coord_sum(ids, a, true) == coord_sum(ids, b, true),
        coord_sum(ids, a, false) == coord_sum(ids, b, false),
    decreases ids.len(),
{
    if ids.len() > 0 {
        lemma_coord_sum_frame(ids.drop_last(), a, b, bound);
        assert(ids[ids.len() - 1] == ids.last());
    }
}

/// Slots that are not all empty have a filled id.
proof fn lemma_some_filled(e: Seq<RoomEntry>)
    requires
        exists|k: int| 0 <= k < e.len() && filled(#[trigger] e[k]),
    ensures
        filled_ids(e).len() >= 1,
    decreases e.len(),
{
    if !filled(e.last()) {
        let k = choose|k: int| 0 <= k < e.len() && filled(#[trigger] e[k]);
        assert(k < e.len() - 1);
        assert(e.drop_last()[k] == e[k]);
        lemma_some_filled(e.drop_last());
    }
}

/// Room `a` of region `from` and room `b` of region `to` get joined when the
/// two regions are merged: both slots hold rooms, the rooms touch (as
/// `Room::is_neighbour_of` says), and each room's centre is no farther from
/// the other region's centre than the two regions' centres are from each
/// other. `fc` and `tc` are the regions' centres, `fcs` and `tcs` their
/// rooms' centres.
pub open spec fn connectable(from: MapRegion, to: MapRegion, fc: Vector2, fcs: Seq<Vector2>, tc: Vector2, tcs: Seq<Vector2>, a: usize, b: usize) -> bool {
    let d = squared_distance(fc, tc);
    &&& (a as int) < from.entries().len()
    &&& filled(from.entries()[a as int])
    &&& (b as int) < to.entries().len()
    &&& filled(to.entries()[b as int])
    &&& squared_distance(fcs[a as int], tc) <= d
    &&& squared_distance(tcs[b as int], fc) <= d
    &&& !room_eq(from.entries()[a as int].spec_room(), to.entries()[b as int].spec_room())
    &&& cells_touch(from.entries()[a as int].spec_room().cells@, to.entries()[b as int].spec_room().cells@)
}

/// Room `a` of region `i` and room `b` of region `j` get joined by
/// `merge_regions`: `i` comes before `j`, their rectangles are adjacent, and
/// the rooms are `connectable` (with the regions' centres and room centres).
pub open spec fn joined_across(regions: Seq<MapRegion>, i: int, j: int, a: usize, b: usize) -> bool {
    &&& 0 <= i < j < regions.len()
    &&& regions[i].origin().spec_neighbour_dir(regions[j].origin()) is Some
    &&& connectable(regions[i], regions[j], region_center(regions[i].entries()), slot_centers(regions[i].entries()),
        region_center(regions[j].entries()), slot_centers(regions[j].entries()), a, b)
}

/// In the sorted list `ids` of the filled slots, no filled slot lies
/// strictly between the entry at `k` and the next one (or `n` after the last).
proof fn lemma_no_id_between(ids: Seq<usize>, entries: Seq<RoomEntry>, n: int, k: int, x: usize)
    requires
        lists_ids(ids, entries, n, true, true),
        0 <= k < ids.len(),
        ids[k] < x,
        (x as int) < (if k + 1 < ids.len() { ids[k + 1] as int } else { n }),
        (x as int) < n,
    ensures
        !filled(entries[x as int]),
{
    if filled(entries[x as int]) {
    assert(crate::map_region::selected(entries[x as int], true, true));
    assert(ids.contains(x));
    let q = choose|q: int| 0 <= q < ids.len() && ids[q] == x;
    if q <= k {
        if q < k {
            assert(ids[q] < ids[k]);
        }
    } else {
        if q > k + 1 {
            assert(ids[k + 1] < ids[q]);
        }
    }
    }
}

/// No filled slot lies below the first entry of the sorted list `ids` of the
/// filled slots (below `n` when the list is empty).
proof fn lemma_no_id_below(ids: Seq<usize>, entries: Seq<RoomEntry>, n: int, x: usize)
    requires
        lists_ids(ids, entries, n, true, true),
        (x as int) < (if 0 < ids.len() { ids[0] as int } else { n }),
        (x as int) < n,
    ensures
        !filled(entries[x as int]),
{
    if filled(entries[x as int]) {
        assert(crate::map_region::selected(entries[x as int], true, true));
        assert(ids.contains(x));
        let q = choose|q: int| 0 <= q < ids.len() && ids[q] == x;
        if q > 0 {
            assert(ids[0] < ids[q]);
        }
    }
}

/// The slots below the entry at `k` of the sorted list `ids` of the wanted
/// slots (all slots when `k` is past the end).
pub open spec fn id_bound(ids: Seq<usize>, k: int, n: int) -> int {
    if k < ids.len() { ids[k] as int } else { n }
}

impl MapBuilder {
    /// The pairs of regions whose rectangles are adjacent, each pair once,
    /// the lower index first.
    pub fn compute_neighbouring_regions(map_regions: &Vec<MapRegion>) -> (pairs: Vec<(usize, usize)>)
        requires
            forall|k: int| 0 <= k < map_regions@.len() ==> (#[trigger] map_regions@[k]).origin().well_placed(),
        ensures
            forall|k: int| 0 <= k < pairs@.len() ==> {
                &&& (#[trigger] pairs@[k]).0 < pairs@[k].1
                &&& (pairs@[k].1 as int) < map_regions@.len()
                &&& map_regions@[pairs@[k].0 as int].origin().spec_neighbour_dir(map_regions@[pairs@[k].1 as int].origin()) is Some
            },
            forall|i: usize, j: usize| i < j && (j as int) < map_regions@.len()
                && map_regions@[i as int].origin().spec_neighbour_dir(map_regions@[j as int].origin()) is Some
                ==> #[trigger] pairs@.contains((i, j)),
    {
        let n = map_regions.len();
        let mut pairs: Vec<(usize, usize)> = Vec::new();
        let mut from: usize = 0;
        while from < n
            invariant
                0 <= from <= n,
                n == map_regions@.len(),
                forall|k: int| 0 <= k < map_regions@.len() ==> (#[trigger] map_regions@[k]).origin().well_placed(),
                forall|k: int| 0 <= k < pairs@.len() ==> {
                    &&& (#[trigger] pairs@[k]).0 < pairs@[k].1
                    &&& pairs@[k].0 < from
                    &&& (pairs@[k].1 as int) < n
                    &&& map_regions@[pairs@[k].0 as int].origin().spec_neighbour_dir(map_regions@[pairs@[k].1 as int].origin()) is Some
                },
                forall|i: usize, j: usize| i < from && i < j && (j as int) < n
                    && map_regions@[i as int].origin().spec_neighbour_dir(map_regions@[j as int].origin()) is Some
                    ==> #[trigger] pairs@.contains((i, j)),
            decreases n - from,
        {
            let mut to: usize = 0;
            while to < n
                invariant
                    0 <= to <= n,
                    0 <= from < n,
                    n == map_regions@.len(),
                    forall|k: int| 0 <= k < map_regions@.len() ==> (#[trigger] map_regions@[k]).origin().well_placed(),
                    forall|k: int| 0 <= k < pairs@.len() ==> {
                        &&& (#[trigger] pairs@[k]).0 < pairs@[k].1
                        &&& pairs@[k].0 <= from
                        &&& (pairs@[k].0 == from ==> pairs@[k].1 < to)
                        &&& (pairs@[k].1 as int) < n
                        &&& map_regions@[pairs@[k].0 as int].origin().spec_neighbour_dir(map_regions@[pairs@[k].1 as int].origin()) is Some
                    },
                    forall|i: usize, j: usize| i < from && i < j && (j as int) < n
                        && map_regions@[i as int].origin().spec_neighbour_dir(map_regions@[j as int].origin()) is Some
                        ==> #[trigger] pairs@.contains((i, j)),
                    forall|j: usize| from < j && j < to
                        && map_regions@[from as int].origin().spec_neighbour_dir(map_regions@[j as int].origin()) is Some
                        ==> #[trigger] pairs@.contains((from, j)),
                decreases n - to,
            {
                let ghost before = pairs@;
                if from != to && !Self::contains_pair(&pairs, (to, from)) {
                    if map_regions[from].origin_rect().is_neighbour_of(&map_regions[to].origin_rect()).is_some() {
                        proof {
                            if to < from {
                                crate::bsp::lemma_neighbour_dir_symmetric(map_regions@[from as int].origin(), map_regions@[to as int].origin());
                                assert(pairs@.contains((to, from)));
                                let k = choose|k: int| 0 <= k < pairs@.len() && pairs@[k] == (to, from);
                                assert(false);
                            }
                        }
                        pairs.push((from, to));
                        proof {
                            assert forall|x: (usize, usize)| before.contains(x) implies #[trigger] pairs@.contains(x) by {
                                crate::seq_facts::lemma_push_contains(before, (from, to), x);
                            }
                            assert(pairs@[before.len() as int] == (from, to));
                            assert(pairs@.contains((from, to)));
                        }
                    }
                }
                to = to + 1;
            }
            from = from + 1;
        }
        pairs
    }

    /// Where each region's slots start once the regions are merged in order:
    /// 0 for the first, then the running sum of the slot counts.
    pub fn generate_group_offsets(map_regions: &Vec<MapRegion>) -> (offsets: Vec<usize>)
        requires
            map_regions@.len() >= 1,
            concat_entries(map_regions@).len() <= usize::MAX,
        ensures
            offsets@.len() == map_regions@.len(),
            forall|k: int| 0 <= k < offsets@.len() ==> #[trigger] offsets@[k] == region_offset(map_regions@, k),
    {
        let n = map_regions.len();
        let mut offsets: Vec<usize> = Vec::new();
        offsets.push(0);
        proof {
            assert(map_regions@.take(0) =~= Seq::<MapRegion>::empty());
            assert(map_regions@.take(n as int) =~= map_regions@);
        }
        let mut i: usize = 0;
        while i + 1 < n
            invariant
                0 <= i < n,
                n == map_regions@.len(),
                concat_entries(map_regions@).len() <= usize::MAX,
                offsets@.len() == i + 1,
                forall|k: int| 0 <= k <= i ==> #[trigger] offsets@[k] == region_offset(map_regions@, k),
            decreases n - i,
        {
            proof {
                lemma_concat_take_step(map_regions@, i as int);
                lemma_offsets_grow(map_regions@, i as int, n as int);
                assert(map_regions@.take(n as int) =~= map_regions@);
            }
            let last = offsets[i];
            let next = last + map_regions[i].room_slots();
            offsets.push(next);
            i = i + 1;
        }
        offsets
    }

    /// The centre of every slot's room (the origin for an empty slot), and
    /// the centre of the region: the mean of its rooms' centres.
    pub fn generate_region_centers(map_region: &MapRegion) -> (r: (Vector2, Vec<Vector2>))
        requires
            exists|k: int| 0 <= k < map_region.entries().len() && filled(#[trigger] map_region.entries()[k]),
        ensures
            r.0.in_grid(),
            forall|k: int| 0 <= k < r.1@.len() ==> (#[trigger] r.1@[k]).in_grid(),
            r.1@ == slot_centers(map_region.entries()),
            r.0 == region_center(map_region.entries()),
    {
        let ghost e = map_region.entries();
        let n = map_region.room_slots();
        let mut centers: Vec<Vector2> = Vec::new();
        let mut sx: u128 = 0;
        let mut sy: u128 = 0;
        let mut count: u128 = 0;
        let mut i: usize = 0;
        while i < n
            invariant
                0 <= i <= n,
                n == e.len(),
                e == map_region.entries(),
                centers@ == slot_centers(e.take(i as int)),
                forall|k: int| 0 <= k < i ==> (#[trigger] centers@[k]).in_grid(),
                count == filled_ids(e.take(i as int)).len(),
                count <= i,
                forall|k: int| 0 <= k < filled_ids(e.take(i as int)).len() ==> (#[trigger] filled_ids(e.take(i as int))[k] as int) < i,
                sx == coord_sum(filled_ids(e.take(i as int)), slot_centers(e), true),
                sy == coord_sum(filled_ids(e.take(i as int)), slot_centers(e), false),
                sx <= count * (0xffff_ffff * 100),
                sy <= count * (0xffff_ffff * 100),
            decreases n - i,
        {
            let ghost ids0 = filled_ids(e.take(i as int));
            proof {
                assert(e.take(i + 1).drop_last() =~= e.take(i as int));
                assert(e.take(i + 1).last() == e[i as int]);
                lemma_slot_centers_push(e, i as int);
                lemma_coord_sum_frame(ids0, slot_centers(e.take(i + 1)), slot_centers(e), i as int + 1);
            }
            if map_region.is_empty(i) {
                centers.push(Vector2::new(0, 0));
                proof {
                    assert(filled_ids(e.take(i + 1)) == ids0);
                }
            } else {
                let c = map_region.get_room(i).get_center();
                centers.push(c);
                proof {
                    assert(filled_ids(e.take(i + 1)) == ids0.push(i as usize));
                    assert(ids0.push(i as usize).drop_last() =~= ids0);
                    assert(slot_centers(e)[i as int] == c);
                    assert(sx + c.x <= (count + 1) * (0xffff_ffff * 100)) by (nonlinear_arith)
                        requires
                            sx <= count * (0xffff_ffff * 100),
                            c.x <= 0xffff_ffff * 100,
                    ;
                    assert(sy + c.y <= (count + 1) * (0xffff_ffff * 100)) by (nonlinear_arith)
                        requires
                            sy <= count * (0xffff_ffff * 100),
                            c.y <= 0xffff_ffff * 100,
                    ;
                    assert((count + 1) * (0xffff_ffff * 100) <= 0xffff_ffff_ffff_ffff * (0xffff_ffff * 100)) by (nonlinear_arith)
                        requires
                            count <= i,
                            i < usize::MAX,
                    ;
                }
                sx = sx + c.x as u128;
                sy = sy + c.y as u128;
                count = count + 1;
            }
            proof {
                assert(centers@ =~= slot_centers(e.take(i + 1)));
            }
            i = i + 1;
        }
        proof {
            assert(e.take(n as int) =~= e);
            lemma_some_filled(e);
        }
        proof {
            assert((sx as int) / (count as int) <= 0xffff_ffff * 100) by (nonlinear_arith)
                requires
                    sx <= count * (0xffff_ffff * 100),
                    count >= 1,
            ;
            assert((sy as int) / (count as int) <= 0xffff_ffff * 100) by (nonlinear_arith)
                requires
                    sy <= count * (0xffff_ffff * 100),
                    count >= 1,
            ;
        }
        (Vector2::new((sx / count) as u64, (sy / count) as u64), centers)
    }

    /// The pairs of rooms, one of region `from_id` and one of region `to_id`,
    /// that get joined when the regions are merged (see `connectable`).
    pub fn generate_rooms_to_connect(
        from_id: usize,
        to_id: usize,
        map_regions: &Vec<MapRegion>,
        region_centers: &Vec<(Vector2, Vec<Vector2>)>,
    ) -> (pairs: Vec<(usize, usize)>)
        requires
            (from_id as int) < map_regions@.len(),
            (to_id as int) < map_regions@.len(),
            region_centers@.len() == map_regions@.len(),
            forall|k: int| 0 <= k < region_centers@.len() ==> {
                &&& (#[trigger] region_centers@[k]).0.in_grid()
                &&& region_centers@[k].1@.len() == map_regions@[k].entries().len()
                &&& forall|q: int| 0 <= q < region_centers@[k].1@.len() ==> (#[trigger] region_centers@[k].1@[q]).in_grid()
            },
        ensures
            forall|x: usize, y: usize| #[trigger] pairs@.contains((x, y)) <==> connectable(map_regions@[from_id as int],
                map_regions@[to_id as int], region_centers@[from_id as int].0, region_centers@[from_id as int].1@,
                region_centers@[to_id as int].0, region_centers@[to_id as int].1@, x, y),
            forall|k: int| 0 <= k < pairs@.len() ==> {
                &&& ((#[trigger] pairs@[k]).0 as int) < map_regions@[from_id as int].entries().len()
                &&& filled(map_regions@[from_id as int].entries()[pairs@[k].0 as int])
                &&& (pairs@[k].1 as int) < map_regions@[to_id as int].entries().len()
                &&& filled(map_regions@[to_id as int].entries()[pairs@[k].1 as int])
            },
    {
        let ghost fr = map_regions@[from_id as int];
        let ghost tr = map_regions@[to_id as int];
        let ghost fc = region_centers@[from_id as int];
        let ghost tc = region_centers@[to_id as int];
        let from_center = region_centers[from_id].0;
        let to_center = region_centers[to_id].0;
        let region_distance = from_center.distance(&to_center);
        let from_rooms = map_regions[from_id].iter_rooms();
        let to_rooms = map_regions[to_id].iter_rooms();
        let ghost from_ids = from_rooms@.map_values(|e: (usize, &Room)| e.0);
        let ghost to_ids = to_rooms@.map_values(|e: (usize, &Room)| e.0);
        let ghost nf = fr.entries().len() as int;
        let ghost nt = tr.entries().len() as int;
        let from_region = &map_regions[from_id];
        let to_region = &map_regions[to_id];
        let from_centers = &region_centers[from_id].1;
        let to_centers = &region_centers[to_id].1;
        let mut pairs: Vec<(usize, usize)> = Vec::new();
        proof {
            assert forall|x: usize, y: usize| #[trigger] pairs@.contains((x, y)) <==> (connectable(fr, tr, fc.0, fc.1@, tc.0, tc.1@, x, y)
                && (x as int) < id_bound(from_ids, 0, nf)) by {
                if connectable(fr, tr, fc.0, fc.1@, tc.0, tc.1@, x, y) && (x as int) < id_bound(from_ids, 0, nf) {
                    lemma_no_id_below(from_ids, fr.entries(), nf, x);
                }
            }
        }
        let mut a: usize = 0;
        while a < from_rooms.len()
            invariant
                0 <= a <= from_rooms.len(),
                from_ids == from_rooms@.map_values(|e: (usize, &Room)| e.0),
                forall|k: int| 0 <= k < from_rooms@.len() ==> *(#[trigger] from_rooms@[k]).1 == fr.entries()[from_rooms@[k].0 as int].spec_room(),
                forall|k: int| 0 <= k < to_rooms@.len() ==> *(#[trigger] to_rooms@[k]).1 == tr.entries()[to_rooms@[k].0 as int].spec_room(),
                to_ids == to_rooms@.map_values(|e: (usize, &Room)| e.0),
                lists_ids(from_ids, fr.entries(), nf, true, true),
                lists_ids(to_ids, tr.entries(), nt, true, true),
                *from_region == fr,
                *to_region == tr,
                nf == fr.entries().len(),
                nt == tr.entries().len(),
                from_center == fc.0,
                to_center == tc.0,
                *from_centers == fc.1,
                *to_centers == tc.1,
                region_distance == squared_distance(fc.0, tc.0),
                from_centers@.len() == nf,
                to_centers@.len() == nt,
                forall|q: int| 0 <= q < from_centers@.len() ==> (#[trigger] from_centers@[q]).in_grid(),
                forall|q: int| 0 <= q < to_centers@.len() ==> (#[trigger] to_centers@[q]).in_grid(),
                from_center.in_grid(),
                to_center.in_grid(),
                forall|x: usize, y: usize| #[trigger] pairs@.contains((x, y)) <==> (connectable(fr, tr, fc.0, fc.1@, tc.0, tc.1@, x, y)
                    && (x as int) < id_bound(from_ids, a as int, nf)),
            decreases from_rooms.len() - a,
        {
            let (from_room_id, from_room) = from_rooms[a];
            proof {
                assert(from_ids[a as int] == from_room_id);
                assert(crate::map_region::selected(fr.entries()[from_room_id as int], true, true));
                assert(*from_room == fr.entries()[from_room_id as int].spec_room()) by {
                    assert(*from_rooms@[a as int].1 == fr.entries()[from_rooms@[a as int].0 as int].spec_room());
                }
            }
            if from_centers[from_room_id].distance(&to_center) <= region_distance {
                let mut b: usize = 0;
                proof {
                    assert forall|x: usize, y: usize| #[trigger] pairs@.contains((x, y)) <==> (connectable(fr, tr, fc.0, fc.1@, tc.0, tc.1@, x, y)
                        && ((x as int) < id_bound(from_ids, a as int, nf)
                            || (x == from_room_id && (y as int) < id_bound(to_ids, 0, nt)))) by {
                        if connectable(fr, tr, fc.0, fc.1@, tc.0, tc.1@, x, y) && x == from_room_id && (y as int) < id_bound(to_ids, 0, nt) {
                            lemma_no_id_below(to_ids, tr.entries(), nt, y);
                        }
                    }
                }
                while b < to_rooms.len()
                    invariant
                        0 <= b <= to_rooms.len(),
                        forall|k: int| 0 <= k < to_rooms@.len() ==> *(#[trigger] to_rooms@[k]).1 == tr.entries()[to_rooms@[k].0 as int].spec_room(),
                        (a as int) < from_ids.len(),
                        from_ids[a as int] == from_room_id,
                        nf == fr.entries().len(),
                        (from_room_id as int) < nf,
                        filled(fr.entries()[from_room_id as int]),
                        *from_room == fr.entries()[from_room_id as int].spec_room(),
                        squared_distance(fc.1@[from_room_id as int], tc.0) <= squared_distance(fc.0, tc.0),
                        to_ids == to_rooms@.map_values(|e: (usize, &Room)| e.0),
                        lists_ids(to_ids, tr.entries(), nt, true, true),
                        *to_region == tr,
                        nt == tr.entries().len(),
                        from_center == fc.0,
                        *to_centers == tc.1,
                        region_distance == squared_distance(fc.0, tc.0),
                        to_centers@.len() == nt,
                        forall|q: int| 0 <= q < to_centers@.len() ==> (#[trigger] to_centers@[q]).in_grid(),
                        from_center.in_grid(),
                        forall|x: usize, y: usize| #[trigger] pairs@.contains((x, y)) <==> (connectable(fr, tr, fc.0, fc.1@, tc.0, tc.1@, x, y)
                            && ((x as int) < id_bound(from_ids, a as int, nf)
                                || (x == from_room_id && (y as int) < id_bound(to_ids, b as int, nt)))),
                    decreases to_rooms.len() - b,
                {
                    let (to_room_id, to_room) = to_rooms[b];
                    proof {
                        assert(to_ids[b as int] == to_room_id);
                        assert(crate::map_region::selected(tr.entries()[to_room_id as int], true, true));
                        assert(*to_room == tr.entries()[to_room_id as int].spec_room()) by {
                            assert(*to_rooms@[b as int].1 == tr.entries()[to_rooms@[b as int].0 as int].spec_room());
                        }
                    }
                    let ghost before = pairs@;
                    let near = to_centers[to_room_id].distance(&from_center) <= region_distance;
                    let touching = from_room.is_neighbour_of(to_room);
                    let joined = near && touching;
                    proof {
                        assert(near == (squared_distance(tc.1@[to_room_id as int], fc.0) <= squared_distance(fc.0, tc.0)));
                        assert(touching == (!room_eq(fr.entries()[from_room_id as int].spec_room(), tr.entries()[to_room_id as int].spec_room())
                            && cells_touch(fr.entries()[from_room_id as int].spec_room().cells@, tr.entries()[to_room_id as int].spec_room().cells@)));
                        assert((to_room_id as int) < nt);
                        assert(filled(tr.entries()[to_room_id as int]));
                    }
                    if joined {
                        pairs.push((from_room_id, to_room_id));
                    }
                    proof {
                        assert(joined == connectable(fr, tr, fc.0, fc.1@, tc.0, tc.1@, from_room_id, to_room_id));
                        assert forall|x: usize, y: usize| #[trigger] pairs@.contains((x, y)) <==> (connectable(fr, tr, fc.0, fc.1@, tc.0, tc.1@, x, y)
                            && ((x as int) < id_bound(from_ids, a as int, nf)
                                || (x == from_room_id && (y as int) < id_bound(to_ids, b + 1, nt)))) by {
                            if joined {
                                crate::seq_facts::lemma_push_contains(before, (from_room_id, to_room_id), (x, y));
                            }
                            assert(before.contains((x, y)) <==> (connectable(fr, tr, fc.0, fc.1@, tc.0, tc.1@, x, y)
                                && ((x as int) < id_bound(from_ids, a as int, nf)
                                    || (x == from_room_id && (y as int) < id_bound(to_ids, b as int, nt)))));
                            if x == from_room_id && to_room_id < y && (y as int) < id_bound(to_ids, b + 1, nt) {
                                lemma_no_id_between(to_ids, tr.entries(), nt, b as int, y);
                            }
                        }
                    }
                    b = b + 1;
                }
            }
            proof {
                assert forall|x: usize, y: usize| #[trigger] pairs@.contains((x, y)) <==> (connectable(fr, tr, fc.0, fc.1@, tc.0, tc.1@, x, y)
                    && (x as int) < id_bound(from_ids, a + 1, nf)) by {
                    if from_room_id < x && (x as int) < id_bound(from_ids, a + 1, nf) {
                        lemma_no_id_between(from_ids, fr.entries(), nf, a as int, x);
                    }
                }
            }
            a = a + 1;
        }
        proof {
            assert forall|k: int| 0 <= k < pairs@.len() implies {
                &&& ((#[trigger] pairs@[k]).0 as int) < fr.entries().len()
                &&& filled(fr.entries()[pairs@[k].0 as int])
                &&& (pairs@[k].1 as int) < tr.entries().len()
                &&& filled(tr.entries()[pairs@[k].1 as int])
            } by {
                assert(pairs@.contains((pairs@[k].0, pairs@[k].1)));
            }
        }
        pairs
    }

    /// One region made of all the regions, in order (each region's ids
    /// shifted past the slots of those before it), in which the touching
    /// rooms of neighbouring regions found by `generate_rooms_to_connect`
    /// are made neighbours; its rectangle is `origin_rect`. Regions without
    /// a room are merged but joined to no other.
    pub fn merge_regions(origin_rect: Rect, map_regions: Vec<MapRegion>) -> (r: MapRegion)
        requires
            map_regions@.len() >= 1,
            forall|k: int| 0 <= k < map_regions@.len() ==> (#[trigger] map_regions@[k]).graph_ok()
                && map_regions@[k].tidy() && map_regions@[k].origin().well_placed(),
            concat_entries(map_regions@).len() + 3 < usize::MAX,
        ensures
            r.graph_ok(),
            r.tidy(),
            r.origin() == origin_rect,
            r.entries() == concat_entries(map_regions@),
            forall|i: int, a: usize, b: usize| 0 <= i < map_regions@.len() && (a as int) < map_regions@[i].entries().len()
                && filled(map_regions@[i].entries()[a as int]) && #[trigger] map_regions@[i].neighbours_of(a as int).contains(b)
                ==> r.neighbours_of(region_offset(map_regions@, i) + a).contains((region_offset(map_regions@, i) + b) as usize),
            forall|i: int, j: int, a: usize, b: usize| #[trigger] joined_across(map_regions@, i, j, a, b)
                ==> r.neighbours_of(region_offset(map_regions@, i) + a).contains((region_offset(map_regions@, j) + b) as usize)
                && r.neighbours_of(region_offset(map_regions@, j) + b).contains((region_offset(map_regions@, i) + a) as usize),
    {
        let ghost regions = map_regions@;
        let neighbour_regions = Self::compute_neighbouring_regions(&map_regions);
        let offsets = Self::generate_group_offsets(&map_regions);
        let n = map_regions.len();
        let mut has_rooms: Vec<bool> = Vec::new();
        let mut region_centers: Vec<(Vector2, Vec<Vector2>)> = Vec::new();
        let mut i: usize = 0;
        while i < n
            invariant
                0 <= i <= n,
                n == regions.len(),
                map_regions@ == regions,
                has_rooms@.len() == i,
                region_centers@.len() == i,
                forall|k: int| 0 <= k < i ==> {
                    &&& (#[trigger] region_centers@[k]).0.in_grid()
                    &&& region_centers@[k].1@.len() == regions[k].entries().len()
                    &&& forall|q: int| 0 <= q < region_centers@[k].1@.len() ==> (#[trigger] region_centers@[k].1@[q]).in_grid()
                },
                forall|k: int| 0 <= k < i && #[trigger] has_rooms@[k] ==> region_centers@[k].0 == region_center(regions[k].entries())
                    && region_centers@[k].1@ == slot_centers(regions[k].entries()),
                forall|k: int, q: int| 0 <= k < i && !#[trigger] has_rooms@[k] && 0 <= q < regions[k].entries().len()
                    ==> !filled(#[trigger] regions[k].entries()[q]),
            decreases n - i,
        {
            let region = &map_regions[i];
            let rooms = region.iter_rooms();
            if rooms.len() > 0 {
                proof {
                    let ids = rooms@.map_values(|e: (usize, &Room)| e.0);
                    assert(ids[0] == rooms@[0].0);
                    assert(filled(region.entries()[ids[0] as int]));
                }
                region_centers.push(Self::generate_region_centers(region));
                has_rooms.push(true);
            } else {
                proof {
                    let ids = rooms@.map_values(|e: (usize, &Room)| e.0);
                    assert forall|q: int| 0 <= q < region.entries().len() implies !filled(#[trigger] region.entries()[q]) by {
                        if filled(region.entries()[q]) {
                            assert(crate::map_region::selected(region.entries()[q], true, true));
                            assert(ids.contains(q as usize));
                        }
                    }
                }
                let mut zeros: Vec<Vector2> = Vec::new();
                let mut q: usize = 0;
                while q < region.room_slots()
                    invariant
                        0 <= q <= region.entries().len(),
                        zeros@.len() == q,
                        forall|t: int| 0 <= t < q ==> (#[trigger] zeros@[t]).in_grid(),
                    decreases region.entries().len() - q,
                {
                    zeros.push(Vector2::new(0, 0));
                    q = q + 1;
                }
                region_centers.push((Vector2::new(0, 0), zeros));
                has_rooms.push(false);
            }
            i = i + 1;
        }
        let mut rooms_to_connect: Vec<(usize, usize)> = Vec::new();
        let mut p: usize = 0;
        while p < neighbour_regions.len()
            invariant
                0 <= p <= neighbour_regions.len(),
                n == regions.len(),
                map_regions@ == regions,
                offsets@.len() == n,
                forall|k: int| 0 <= k < n ==> #[trigger] offsets@[k] == region_offset(regions, k),
                region_centers@.len() == n,
                has_rooms@.len() == n,
                forall|k: int| 0 <= k < n ==> {
                    &&& (#[trigger] region_centers@[k]).0.in_grid()
                    &&& region_centers@[k].1@.len() == regions[k].entries().len()
                    &&& forall|q: int| 0 <= q < region_centers@[k].1@.len() ==> (#[trigger] region_centers@[k].1@[q]).in_grid()
                },
                forall|k: int| 0 <= k < neighbour_regions@.len() ==> (#[trigger] neighbour_regions@[k]).0 != neighbour_regions@[k].1
                    && (neighbour_regions@[k].0 as int) < n && (neighbour_regions@[k].1 as int) < n,
                concat_entries(regions).len() + 3 < usize::MAX,
                forall|k: int| 0 <= k < rooms_to_connect@.len() ==> {
                    let (x, y) = #[trigger] rooms_to_connect@[k];
                    &&& x != y
                    &&& (x as int) < concat_entries(regions).len()
                    &&& (y as int) < concat_entries(regions).len()
                    &&& filled(concat_entries(regions)[x as int])
                    &&& filled(concat_entries(regions)[y as int])
                },
                forall|k: int| 0 <= k < n && #[trigger] has_rooms@[k] ==> region_centers@[k].0 == region_center(regions[k].entries())
                    && region_centers@[k].1@ == slot_centers(regions[k].entries()),
                forall|k: int, q: int| 0 <= k < n && !#[trigger] has_rooms@[k] && 0 <= q < regions[k].entries().len()
                    ==> !filled(#[trigger] regions[k].entries()[q]),
                forall|i: int, j: int, a: usize, b: usize| #[trigger] joined_across(regions, i, j, a, b)
                    && neighbour_regions@.take(p as int).contains((i as usize, j as usize))
                    ==> rooms_to_connect@.contains(((region_offset(regions, i) + a) as usize, (region_offset(regions, j) + b) as usize)),
            decreases neighbour_regions.len() - p,
        {
            let (from_id, to_id) = neighbour_regions[p];
            let ghost rtc0 = rooms_to_connect@;
            proof {
                assert(neighbour_regions@.take(p + 1) =~= neighbour_regions@.take(p as int).push((from_id, to_id)));
            }
            if has_rooms[from_id] && has_rooms[to_id] {
                let connections = Self::generate_rooms_to_connect(from_id, to_id, &map_regions, &region_centers);
                let from_offset = offsets[from_id];
                let to_offset = offsets[to_id];
                let mut c: usize = 0;
                while c < connections.len()
                    invariant
                        0 <= c <= connections.len(),
                        n == regions.len(),
                        (from_id as int) < n,
                        (to_id as int) < n,
                        from_id != to_id,
                        from_offset == region_offset(regions, from_id as int),
                        to_offset == region_offset(regions, to_id as int),
                        concat_entries(regions).len() + 3 < usize::MAX,
                        forall|k: int| 0 <= k < connections@.len() ==> {
                            &&& ((#[trigger] connections@[k]).0 as int) < regions[from_id as int].entries().len()
                            &&& filled(regions[from_id as int].entries()[connections@[k].0 as int])
                            &&& (connections@[k].1 as int) < regions[to_id as int].entries().len()
                            &&& filled(regions[to_id as int].entries()[connections@[k].1 as int])
                        },
                        forall|k: int| 0 <= k < rooms_to_connect@.len() ==> {
                            let (x, y) = #[trigger] rooms_to_connect@[k];
                            &&& x != y
                            &&& (x as int) < concat_entries(regions).len()
                            &&& (y as int) < concat_entries(regions).len()
                            &&& filled(concat_entries(regions)[x as int])
                            &&& filled(concat_entries(regions)[y as int])
                        },
                        forall|z: (usize, usize)| rtc0.contains(z) ==> #[trigger] rooms_to_connect@.contains(z),
                        forall|k: int| 0 <= k < c ==> #[trigger] rooms_to_connect@.contains(((from_offset + connections@[k].0) as usize,
                            (to_offset + connections@[k].1) as usize)),
                    decreases connections.len() - c,
                {
                    let (a, b) = connections[c];
                    proof {
                        assert(regions.take(n as int) =~= regions);
                        lemma_concat_index(regions, from_id as int, a as int, n as int);
                        lemma_concat_index(regions, to_id as int, b as int, n as int);
                        if from_id < to_id {
                            lemma_offsets_grow(regions, from_id as int, to_id as int);
                        } else {
                            lemma_offsets_grow(regions, to_id as int, from_id as int);
                        }
                    }
                    let ghost before = rooms_to_connect@;
                    let pair: (usize, usize) = (a + from_offset, b + to_offset);
                    rooms_to_connect.push(pair);
                    proof {
                        assert forall|z: (usize, usize)| before.contains(z) implies #[trigger] rooms_to_connect@.contains(z) by {
                            crate::seq_facts::lemma_push_contains(before, pair, z);
                        }
                        assert(rooms_to_connect@[before.len() as int] == pair);
                        assert(rooms_to_connect@.contains(pair));
                        assert forall|k: int| 0 <= k < rooms_to_connect@.len() implies {
                            let (x, y) = #[trigger] rooms_to_connect@[k];
                            &&& x != y
                            &&& (x as int) < concat_entries(regions).len()
                            &&& (y as int) < concat_entries(regions).len()
                            &&& filled(concat_entries(regions)[x as int])
                            &&& filled(concat_entries(regions)[y as int])
                        } by {
                            if k < before.len() {
                                assert(rooms_to_connect@[k] == before[k]);
                            }
                        }
                    }
                    c = c + 1;
                }
                proof {
                    assert forall|i: int, j: int, a: usize, b: usize| #[trigger] joined_across(regions, i, j, a, b)
                        && neighbour_regions@.take(p + 1).contains((i as usize, j as usize))
                        implies rooms_to_connect@.contains(((region_offset(regions, i) + a) as usize, (region_offset(regions, j) + b) as usize)) by {
                        if neighbour_regions@.take(p as int).contains((i as usize, j as usize)) {
                        } else {
                            crate::seq_facts::lemma_push_contains(neighbour_regions@.take(p as int), (from_id, to_id), (i as usize, j as usize));
                            assert(i == from_id as int && j == to_id as int);
                            assert(connections@.contains((a, b)));
                            let k = choose|k: int| 0 <= k < connections@.len() && connections@[k] == (a, b);
                            assert(rooms_to_connect@.contains(((from_offset + connections@[k].0) as usize, (to_offset + connections@[k].1) as usize)));
                        }
                    }
                }
            } else {
                proof {
                    assert forall|i: int, j: int, a: usize, b: usize| #[trigger] joined_across(regions, i, j, a, b)
                        && neighbour_regions@.take(p + 1).contains((i as usize, j as usize))
                        implies rooms_to_connect@.contains(((region_offset(regions, i) + a) as usize, (region_offset(regions, j) + b) as usize)) by {
                        if !neighbour_regions@.take(p as int).contains((i as usize, j as usize)) {
                            crate::seq_facts::lemma_push_contains(neighbour_regions@.take(p as int), (from_id, to_id), (i as usize, j as usize));
                            assert(i == from_id as int && j == to_id as int);
                            if !has_rooms@[i] {
                                assert(!filled(regions[i].entries()[a as int]));
                            } else {
                                assert(!filled(regions[j].entries()[b as int]));
                            }
                        }
                    }
                }
            }
            p = p + 1;
        }
        proof {
            assert(neighbour_regions@.take(neighbour_regions@.len() as int) =~= neighbour_regions@);
            assert forall|i: int, j: int, a: usize, b: usize| #[trigger] joined_across(regions, i, j, a, b)
                implies rooms_to_connect@.contains(((region_offset(regions, i) + a) as usize, (region_offset(regions, j) + b) as usize)) by {
                assert(neighbour_regions@.contains((i as usize, j as usize)));
            }
        }
        let mut rest = map_regions;
        let mut merged = rest.remove(0);
        proof {
            lemma_concat_take_step(regions, 0);
            assert(regions.take(0) =~= Seq::<MapRegion>::empty());
            assert(concat_entries(regions.take(0)) =~= Seq::<RoomEntry>::empty());
            assert(concat_entries(regions.take(1)) =~= regions[0].entries());
            assert(rest@ =~= regions.skip(1));
        }
        let mut m: usize = 1;
        while rest.len() > 0
            invariant
                1 <= m <= n,
                n == regions.len(),
                rest@ == regions.skip(m as int),
                merged.graph_ok(),
                merged.tidy(),
                merged.origin() == regions[0].origin(),
                merged.entries() == concat_entries(regions.take(m as int)),
                concat_entries(regions).len() + 3 < usize::MAX,
                forall|k: int| 0 <= k < regions.len() ==> (#[trigger] regions[k]).graph_ok() && regions[k].tidy(),
                forall|i: int, a: usize, b: usize| 0 <= i < m && (a as int) < regions[i].entries().len()
                    && filled(regions[i].entries()[a as int]) && #[trigger] regions[i].neighbours_of(a as int).contains(b)
                    ==> merged.neighbours_of(region_offset(regions, i) + a).contains((region_offset(regions, i) + b) as usize),
                forall|i: int, j: int, a: usize, b: usize| #[trigger] joined_across(regions, i, j, a, b)
                    ==> rooms_to_connect@.contains(((region_offset(regions, i) + a) as usize, (region_offset(regions, j) + b) as usize)),
            decreases rest@.len(),
        {
            let next = rest.remove(0);
            let ghost slots0 = merged.neighbour_slots();
            let ghost len0 = merged.entries().len();
            proof {
                assert(next == regions[m as int]);
                lemma_concat_take_step(regions, m as int);
                lemma_offsets_grow(regions, m as int, n as int);
                assert(regions.take(n as int) =~= regions);
                assert forall|k: int, x: usize| 0 <= k < next.neighbour_slots().len() && next.neighbour_slots()[k] is Some
                    && #[trigger] next.neighbours_of(k).contains(x) implies x + merged.entries().len() <= usize::MAX by {
                    assert(filled(next.entries()[k]));
                    assert((x as int) < next.entries().len());
                    assert(concat_entries(regions.take(m + 1)).len() == merged.entries().len() + next.entries().len());
                }
            }
            merged.merge_with(next);
            proof {
                assert(rest@ =~= regions.skip(m + 1));
                assert(region_offset(regions, m as int) == len0);
                assert forall|i: int, a: usize, b: usize| 0 <= i < m + 1 && (a as int) < regions[i].entries().len()
                    && filled(regions[i].entries()[a as int]) && #[trigger] regions[i].neighbours_of(a as int).contains(b)
                    implies merged.neighbours_of(region_offset(regions, i) + a).contains((region_offset(regions, i) + b) as usize) by {
                    if i < m {
                        lemma_offsets_grow(regions, i, m as int);
                        assert(merged.neighbour_slots()[region_offset(regions, i) + a] == slots0[region_offset(regions, i) + a]);
                    } else {
                        assert(i == m);
                        assert(next.neighbour_slots()[a as int] is Some);
                        assert(merged.neighbour_slots()[len0 + a] == shifted_slot(next.neighbour_slots()[a as int], len0 as int));
                        assert((b as int) < next.entries().len());
                        let yy: usize = (len0 + b) as usize;
                        assert(yy >= len0 && (yy - len0) as usize == b);
                    }
                }
            }
            m = m + 1;
        }
        proof {
            assert(regions.skip(m as int).len() == 0);
            assert(m == n);
            assert(regions.take(n as int) =~= regions);
        }
        let mut k: usize = 0;
        while k < rooms_to_connect.len()
            invariant
                0 <= k <= rooms_to_connect.len(),
                n == regions.len(),
                forall|q: int| 0 <= q < regions.len() ==> (#[trigger] regions[q]).graph_ok(),
                forall|i: int, a: usize, b: usize| 0 <= i < n && (a as int) < regions[i].entries().len()
                    && filled(regions[i].entries()[a as int]) && #[trigger] regions[i].neighbours_of(a as int).contains(b)
                    ==> merged.neighbours_of(region_offset(regions, i) + a).contains((region_offset(regions, i) + b) as usize),
                forall|i: int, j: int, a: usize, b: usize| #[trigger] joined_across(regions, i, j, a, b)
                    ==> rooms_to_connect@.contains(((region_offset(regions, i) + a) as usize, (region_offset(regions, j) + b) as usize)),
                forall|q: int| 0 <= q < k ==> merged.neighbours_of((#[trigger] rooms_to_connect@[q]).0 as int).contains(rooms_to_connect@[q].1)
                    && merged.neighbours_of(rooms_to_connect@[q].1 as int).contains(rooms_to_connect@[q].0),
                merged.graph_ok(),
                merged.tidy(),
                merged.entries() == concat_entries(regions),
                merged.origin() == regions[0].origin(),
                forall|q: int| 0 <= q < rooms_to_connect@.len() ==> {
                    let (x, y) = #[trigger] rooms_to_connect@[q];
                    &&& x != y
                    &&& (x as int) < concat_entries(regions).len()
                    &&& (y as int) < concat_entries(regions).len()
                    &&& filled(concat_entries(regions)[x as int])
                    &&& filled(concat_entries(regions)[y as int])
                },
            decreases rooms_to_connect.len() - k,
        {
            let (x, y) = rooms_to_connect[k];
            let ghost slots0 = merged.neighbour_slots();
            merged.link_rooms(x, y);
            proof {
                assert(regions.take(n as int) =~= regions);
                assert forall|i: int, a: usize, b: usize| 0 <= i < n && (a as int) < regions[i].entries().len()
                    && filled(regions[i].entries()[a as int]) && #[trigger] regions[i].neighbours_of(a as int).contains(b)
                    implies merged.neighbours_of(region_offset(regions, i) + a).contains((region_offset(regions, i) + b) as usize) by {
                    lemma_concat_index(regions, i, a as int, n as int);
                    lemma_link_grows(slots0, x as int, y as int, region_offset(regions, i) + a, (region_offset(regions, i) + b) as usize);
                }
                assert forall|q: int| 0 <= q < k + 1 implies merged.neighbours_of((#[trigger] rooms_to_connect@[q]).0 as int).contains(rooms_to_connect@[q].1)
                    && merged.neighbours_of(rooms_to_connect@[q].1 as int).contains(rooms_to_connect@[q].0) by {
                    if q < k {
                        let (u, v) = rooms_to_connect@[q];
                        lemma_link_grows(slots0, x as int, y as int, u as int, v);
                        lemma_link_grows(slots0, x as int, y as int, v as int, u);
                    }
                }
            }
            k = k + 1;
        }
        merged.shrink_buffers();
        merged.set_origin(origin_rect);
        proof {
            assert forall|i: int, j: int, a: usize, b: usize| #[trigger] joined_across(regions, i, j, a, b)
                implies merged.neighbours_of(region_offset(regions, i) + a).contains((region_offset(regions, j) + b) as usize)
                && merged.neighbours_of(region_offset(regions, j) + b).contains((region_offset(regions, i) + a) as usize) by {
                let pr = ((region_offset(regions, i) + a) as usize, (region_offset(regions, j) + b) as usize);
                assert(rooms_to_connect@.contains(pr));
                let q = choose|q: int| 0 <= q < rooms_to_connect@.len() && rooms_to_connect@[q] == pr;
                assert(regions.take(n as int) =~= regions);
                lemma_concat_index(regions, i, a as int, n as int);
                lemma_concat_index(regions, j, b as int, n as int);
            }
        }
        merged
    }
}

} // verus!
