//! Cutting long horizontal rooms in three.
use vstd::prelude::*;

use crate::map_builder::MapBuilder;
use crate::map_region::{filled, MapRegion, RoomEntry};
use crate::merge_rooms::active_cells;
use crate::rng::{chance, random_usize, CHANCE_SCALE};
use crate::std_wrappers::sort_cells_by_col;
use crate::types::{cells_touch, room_eq, Cell, Room, RoomId};

verus! {

/// Rooms with fewer cells are never cut.
pub const MIN_BISECT_SIZE: usize = 5;

/// Every cell of `cells` lies in the same row.
pub open spec fn one_row(cells: Seq<Cell>) -> bool {
    forall|i: int| 0 <= i < cells.len() - 1 ==> (#[trigger] cells[i]).row == cells[i + 1].row
}

/// Whether every two consecutive cells lie in the same row.
fn all_same_row(cells: &Vec<Cell>) -> (r: bool)
    ensures
        r == one_row(cells@),
{
    let mut i: usize = 0;
    while i < cells.len() && i + 1 < cells.len()
        invariant
            0 <= i,
            i + 1 <= cells.len() || cells.len() == 0,
            forall|k: int| 0 <= k < i ==> (#[trigger] cells@[k]).row == cells@[k + 1].row,
        decreases cells.len() - i,
    {
        if cells[i].row != cells[i + 1].row {
            return false;
        }
        i = i + 1;
    }
    true
}

/// The cells `lo..hi` of `cells`, as a new vector.
fn cells_between(cells: &Vec<Cell>, lo: usize, hi: usize) -> (v: Vec<Cell>)
    requires
        lo <= hi <= cells.len(),
    ensures
        v@ == cells@.subrange(lo as int, hi as int),
{
    let mut v: Vec<Cell> = Vec::new();
    let mut i: usize = lo;
    while i < hi
        invariant
            lo <= i <= hi,
            hi <= cells.len(),
            v@ == cells@.subrange(lo as int, i as int),
        decreases hi - i,
    {
        v.push(cells[i]);
        proof {
            assert(v@ =~= cells@.subrange(lo as int, i + 1));
        }
        i = i + 1;
    }
    v
}

/// From `old` to `new`, slots are only appended, or emptied where they held
/// an active room of at least `MIN_BISECT_SIZE` cells in one row.
pub open spec fn only_long_rooms_emptied(old: Seq<RoomEntry>, new: Seq<RoomEntry>) -> bool {
    &&& new.len() >= old.len()
    &&& forall|i: int| 0 <= i < old.len() ==> #[trigger] new[i] == old[i] || (new[i] is Empty && old[i] is Active
        && old[i].spec_room().cells@.len() >= MIN_BISECT_SIZE && one_row(old[i].spec_room().cells@))
    &&& forall|i: int| old.len() <= i < new.len() ==> #[trigger] new[i] is Active
}

/// `a`, `b` and `c` are the cells of `room` ordered by column and cut at a
/// cell that is neither the first nor the last: the cells before it, the
/// cell alone, the cells after it; each keeps the room's modifier.
pub open spec fn cut_in_three(room: Room, a: Room, b: Room, c: Room) -> bool {
    exists|s: Seq<Cell>, cut: int| {
        &&& s.to_multiset() == room.cells@.to_multiset()
        &&& s.len() == room.cells@.len()
        &&& (forall|i: int, j: int| 0 <= i < j < s.len() ==> (#[trigger] s[i]).col <= (#[trigger] s[j]).col)
        &&& 1 <= cut < s.len() - 1
        &&& a.cells@ == s.subrange(0, cut)
        &&& b.cells@ == s.subrange(cut, cut + 1)
        &&& c.cells@ == s.subrange(cut + 1, s.len() as int)
        &&& a.modifier == room.modifier
        &&& b.modifier == room.modifier
        &&& c.modifier == room.modifier
    }
}

/// A room that gets cut when its roll hits: active, of at least
/// `MIN_BISECT_SIZE` cells, all in one row.
pub open spec fn long_row_room(e: RoomEntry) -> bool {
    e is Active && e.spec_room().cells@.len() >= MIN_BISECT_SIZE && one_row(e.spec_room().cells@)
}

/// `new` is `old` with the slots `cut_ids` (in increasing order) emptied and,
/// for the `q`-th of them, three active rooms appended that cut its room in
/// three (`cut_in_three`).
pub open spec fn cut_rooms(old: Seq<RoomEntry>, new: Seq<RoomEntry>, cut_ids: Seq<usize>) -> bool {
    &&& forall|q: int, r: int| 0 <= q < r < cut_ids.len() ==> #[trigger] cut_ids[q] < #[trigger] cut_ids[r]
    &&& forall|q: int| 0 <= q < cut_ids.len() ==> (#[trigger] cut_ids[q] as int) < old.len() && long_row_room(old[cut_ids[q] as int])
    &&& new.len() == old.len() + 3 * cut_ids.len()
    &&& forall|i: int| 0 <= i < old.len() ==> #[trigger] new[i] == if cut_ids.contains(i as usize) { RoomEntry::Empty } else { old[i] }
    &&& forall|q: int| 0 <= q < cut_ids.len() ==> {
        let base = old.len() + 3 * q;
        &&& new[base] is Active
        &&& new[base + 1] is Active
        &&& new[base + 2] is Active
        &&& cut_in_three(old[#[trigger] cut_ids[q] as int].spec_room(), new[base].spec_room(), new[base + 1].spec_room(),
            new[base + 2].spec_room())
    }
}

/// A permutation of `cells`, cut into three consecutive parts, covers
/// exactly the cells of `cells`.
pub proof fn lemma_three_parts_cover(cells: Seq<Cell>, sorted: Seq<Cell>, cut: int)
    requires
        sorted.to_multiset() == cells.to_multiset(),
        1 <= cut < sorted.len() - 1,
    ensures
        forall|c: Cell| #[trigger] cells.contains(c) <==> (sorted.subrange(0, cut).contains(c)
            || sorted.subrange(cut, cut + 1).contains(c) || sorted.subrange(cut + 1, sorted.len() as int).contains(c)),
{
    cells.to_multiset_ensures();
    sorted.to_multiset_ensures();
    assert forall|c: Cell| #[trigger] cells.contains(c) <==> (sorted.subrange(0, cut).contains(c)
        || sorted.subrange(cut, cut + 1).contains(c) || sorted.subrange(cut + 1, sorted.len() as int).contains(c)) by {
        assert(cells.contains(c) <==> cells.to_multiset().count(c) > 0);
        assert(sorted.contains(c) <==> sorted.to_multiset().count(c) > 0);
        if sorted.contains(c) {
            let k = choose|k: int| 0 <= k < sorted.len() && sorted[k] == c;
            if k < cut {
                assert(sorted.subrange(0, cut)[k] == c);
            } else if k == cut {
                assert(sorted.subrange(cut, cut + 1)[0] == c);
            } else {
                assert(sorted.subrange(cut + 1, sorted.len() as int)[k - cut - 1] == c);
            }
        }
        if sorted.subrange(0, cut).contains(c) {
            let head = sorted.subrange(0, cut);
            let k = choose|k: int| 0 <= k < head.len() && #[trigger] head[k] == c;
            assert(sorted[k] == c);
        }
        if sorted.subrange(cut, cut + 1).contains(c) {
            assert(sorted.subrange(cut, cut + 1)[0] == c);
            assert(sorted[cut] == c);
        }
        if sorted.subrange(cut + 1, sorted.len() as int).contains(c) {
            let tail = sorted.subrange(cut + 1, sorted.len() as int);
            let k = choose|k: int| 0 <= k < tail.len() && #[trigger] tail[k] == c;
            assert(sorted[cut + 1 + k] == c);
        }
    }
}

/// Replacing the active room of slot `id` by three new active rooms that
/// together cover the same cells leaves the cells of active rooms as they
/// were.
proof fn lemma_split_keeps_active_cells(before: Seq<RoomEntry>, id: int, a: Room, b: Room, c: Room)
    requires
        0 <= id < before.len(),
        before[id] is Active,
        forall|x: Cell| #[trigger] before[id].spec_room().cells@.contains(x) <==> (a.cells@.contains(x) || b.cells@.contains(x)
            || c.cells@.contains(x)),
    ensures
        active_cells(before.update(id, RoomEntry::Empty).push(RoomEntry::Active(a)).push(RoomEntry::Active(b)).push(
            RoomEntry::Active(c))) == active_cells(before),
{
    let after = before.update(id, RoomEntry::Empty).push(RoomEntry::Active(a)).push(RoomEntry::Active(b)).push(RoomEntry::Active(c));
    let n = before.len() as int;
    assert(after[n] == RoomEntry::Active(a));
    assert(after[n + 1] == RoomEntry::Active(b));
    assert(after[n + 2] == RoomEntry::Active(c));
    assert forall|x: Cell| active_cells(after).contains(x) <==> active_cells(before).contains(x) by {
        if active_cells(after).contains(x) {
            let i = choose|i: int| 0 <= i < after.len() && after[i] is Active && #[trigger] after[i].spec_room().cells@.contains(x);
            if i < n {
                assert(i != id);
                assert(after[i] == before[i]);
            } else {
                assert(before[id].spec_room().cells@.contains(x));
            }
            assert(active_cells(before).contains(x));
        }
        if active_cells(before).contains(x) {
            let i = choose|i: int| 0 <= i < before.len() && before[i] is Active && #[trigger] before[i].spec_room().cells@.contains(x);
            if i == id {
                if a.cells@.contains(x) {
                    assert(after[n].spec_room().cells@.contains(x));
                } else if b.cells@.contains(x) {
                    assert(after[n + 1].spec_room().cells@.contains(x));
                } else {
                    assert(after[n + 2].spec_room().cells@.contains(x));
                }
            } else {
                assert(after[i] == before[i]);
                assert(after[i].spec_room().cells@.contains(x));
            }
            assert(active_cells(after).contains(x));
        }
    }
    assert(active_cells(after) =~= active_cells(before));
}

/// Two rooms touch as `Room::is_neighbour_of` says: different rooms with a
/// pair of side-sharing cells.
pub open spec fn rooms_touch(a: Room, b: Room) -> bool {
    !room_eq(a, b) && cells_touch(a.cells@, b.cells@)
}

/// Every link of `s0` is still in `s1`, except those of slot `z`.
pub open spec fn links_kept_except(s0: Seq<Option<Set<usize>>>, s1: Seq<Option<Set<usize>>>, z: usize) -> bool {
    &&& s1.len() >= s0.len()
    &&& forall|i: int, y: usize| 0 <= i < s0.len() && i != z as int && y != z && s0[i] is Some && #[trigger] s0[i]->0.contains(y)
        ==> s1[i] is Some && s1[i]->0.contains(y)
}

/// Every link of `s0` is still in `s1`.
pub open spec fn links_kept(s0: Seq<Option<Set<usize>>>, s1: Seq<Option<Set<usize>>>) -> bool {
    &&& s1.len() >= s0.len()
    &&& forall|i: int, y: usize| 0 <= i < s0.len() && s0[i] is Some && #[trigger] s0[i]->0.contains(y)
        ==> s1[i] is Some && s1[i]->0.contains(y)
}

proof fn lemma_links_kept_trans(a: Seq<Option<Set<usize>>>, b: Seq<Option<Set<usize>>>, c: Seq<Option<Set<usize>>>)
    requires
        links_kept(a, b),
        links_kept(b, c),
    ensures
        links_kept(a, c),
{
    assert forall|i: int, y: usize| 0 <= i < a.len() && a[i] is Some && #[trigger] a[i]->0.contains(y)
        implies c[i] is Some && c[i]->0.contains(y) by {
        assert(b[i]->0.contains(y));
    }
}

proof fn lemma_links_except_trans(a: Seq<Option<Set<usize>>>, b: Seq<Option<Set<usize>>>, c: Seq<Option<Set<usize>>>, z: usize)
    requires
        links_kept_except(a, b, z),
        links_kept_except(b, c, z) || links_kept(b, c),
    ensures
        links_kept_except(a, c, z),
{
    assert forall|i: int, y: usize| 0 <= i < a.len() && i != z as int && y != z && a[i] is Some && #[trigger] a[i]->0.contains(y)
        implies c[i] is Some && c[i]->0.contains(y) by {
        assert(b[i]->0.contains(y));
    }
}

/// In `r`, the three rooms cut at slot `base` (left, middle, right) are
/// linked: the middle one with the other two, and each with every room of
/// `nbrs` (the cut room's neighbours) it touches that was not cut itself.
pub open spec fn pieces_linked(r: MapRegion, base: int, nbrs: Set<usize>, cut: Seq<usize>) -> bool {
    &&& r.neighbours_of(base + 1).contains(base as usize)
    &&& r.neighbours_of(base + 1).contains((base + 2) as usize)
    &&& r.neighbours_of(base).contains((base + 1) as usize)
    &&& r.neighbours_of(base + 2).contains((base + 1) as usize)
    &&& forall|p: int, m: usize| base <= p < base + 3 && #[trigger] nbrs.contains(m) && !cut.contains(m)
        && rooms_touch(#[trigger] r.entries()[p].spec_room(), r.entries()[m as int].spec_room())
        ==> r.neighbours_of(p).contains(m) && r.neighbours_of(m as int).contains(p as usize)
}

proof fn lemma_pieces_kept(r0: MapRegion, r1: MapRegion, base: int, nbrs: Set<usize>, cut0: Seq<usize>, cut1: Seq<usize>, z: usize)
    requires
        r0.graph_ok(),
        pieces_linked(r0, base, nbrs, cut0),
        links_kept_except(r0.neighbour_slots(), r1.neighbour_slots(), z),
        (z as int) < base,
        base + 3 <= r0.entries().len(),
        filled(r0.entries()[base]),
        filled(r0.entries()[base + 1]),
        filled(r0.entries()[base + 2]),
        forall|m: usize| nbrs.contains(m) && !cut0.contains(m) ==> (m as int) < r0.entries().len() && filled(#[trigger] r0.entries()[m as int]),
        forall|i: int| 0 <= i < r0.entries().len() && i != z as int ==> #[trigger] r1.entries()[i] == r0.entries()[i],
        forall|x: usize| #[trigger] cut1.contains(x) <==> (cut0.contains(x) || x == z),
    ensures
        pieces_linked(r1, base, nbrs, cut1),
{
    r0.lemma_slot_count_fits();
    let s0 = r0.neighbour_slots();
    let s1 = r1.neighbour_slots();
    assert(s0[base] is Some && s0[base + 1] is Some && s0[base + 2] is Some);
    assert(s0[base + 1]->0.contains(base as usize));
    assert(s1[base + 1]->0.contains(base as usize));
    assert(s0[base + 1]->0.contains((base + 2) as usize));
    assert(s1[base + 1]->0.contains((base + 2) as usize));
    assert(s0[base]->0.contains((base + 1) as usize));
    assert(s1[base]->0.contains((base + 1) as usize));
    assert(s0[base + 2]->0.contains((base + 1) as usize));
    assert(s1[base + 2]->0.contains((base + 1) as usize));
    assert forall|p: int, m: usize| base <= p < base + 3 && #[trigger] nbrs.contains(m) && !cut1.contains(m)
        && rooms_touch(#[trigger] r1.entries()[p].spec_room(), r1.entries()[m as int].spec_room())
        implies r1.neighbours_of(p).contains(m) && r1.neighbours_of(m as int).contains(p as usize) by {
        assert(!cut0.contains(m) && m != z);
        assert(r1.entries()[p] == r0.entries()[p]);
        assert(r1.entries()[m as int] == r0.entries()[m as int]);
        assert(filled(r0.entries()[m as int]));
        assert(s0[p] is Some && s0[m as int] is Some);
        assert(s0[p]->0.contains(m));
        assert(s0[m as int]->0.contains(p as usize));
        assert(s1[p]->0.contains(m));
        assert(s1[m as int]->0.contains(p as usize));
    }
}

proof fn lemma_pieces_fewer(r: MapRegion, base: int, nb1: Set<usize>, nb2: Set<usize>, cut: Seq<usize>)
    requires
        pieces_linked(r, base, nb1, Seq::empty()),
        forall|m: usize| #[trigger] nb2.contains(m) && !cut.contains(m) ==> nb1.contains(m),
    ensures
        pieces_linked(r, base, nb2, cut),
{
    assert forall|p: int, m: usize| base <= p < base + 3 && #[trigger] nb2.contains(m) && !cut.contains(m)
        && rooms_touch(#[trigger] r.entries()[p].spec_room(), r.entries()[m as int].spec_room())
        implies r.neighbours_of(p).contains(m) && r.neighbours_of(m as int).contains(p as usize) by {
        assert(nb1.contains(m));
        assert(!Seq::<usize>::empty().contains(m));
    }
}

/// In `b`, where two cut rooms of `a` were neighbours (the `q1`-th cut
/// before the `q2`-th), a piece of the first that touches the second room
/// is linked with every piece of the second that touches it.
pub open spec fn cut_pieces_linked(a: MapRegion, b: MapRegion, cut: Seq<usize>) -> bool {
    let n0 = a.entries().len() as int;
    forall|q1: int, q2: int, p1: int, p2: int|
        #![trigger cut[q1], cut[q2], b.neighbours_of(p1), b.neighbours_of(p2)]
        0 <= q1 < q2 < cut.len() && n0 + 3 * q1 <= p1 < n0 + 3 * q1 + 3 && n0 + 3 * q2 <= p2 < n0 + 3 * q2 + 3
        && a.neighbours_of(cut[q2] as int).contains(cut[q1])
        && rooms_touch(b.entries()[p1].spec_room(), a.entries()[cut[q2] as int].spec_room())
        && rooms_touch(b.entries()[p2].spec_room(), b.entries()[p1].spec_room())
        ==> b.neighbours_of(p2).contains(p1 as usize) && b.neighbours_of(p1).contains(p2 as usize)
}

/// Cutting one more room keeps the links between pieces of earlier cut
/// neighbours, and links the new pieces with the touching pieces of the
/// cut rooms before it.
proof fn lemma_cut_pair_links(a: MapRegion, rb: MapRegion, rf: MapRegion, ids0: Seq<usize>, z: usize)
    requires
        a.graph_ok(),
        rb.graph_ok(),
        cut_pieces_linked(a, rb, ids0),
        forall|q: int| #![trigger ids0[q]] 0 <= q < ids0.len() ==> pieces_linked(rb, a.entries().len() + 3 * q,
            a.neighbour_slots()[ids0[q] as int]->0, ids0),
        forall|q: int| #![trigger ids0[q]] 0 <= q < ids0.len() ==> (ids0[q] as int) < a.entries().len() && ids0[q] != z,
        links_kept_except(rb.neighbour_slots(), rf.neighbour_slots(), z),
        (z as int) < a.entries().len(),
        filled(a.entries()[z as int]),
        rb.entries()[z as int] == a.entries()[z as int],
        rb.entries().len() == a.entries().len() + 3 * ids0.len(),
        forall|p: int| a.entries().len() <= p < rb.entries().len() ==> #[trigger] rb.entries()[p] is Active,
        forall|i: int| 0 <= i < rb.entries().len() && i != z as int ==> #[trigger] rf.entries()[i] == rb.entries()[i],
        pieces_linked(rf, rb.entries().len() as int, rb.neighbours_of(z as int), Seq::empty()),
    ensures
        cut_pieces_linked(a, rf, ids0.push(z)),
{
    let n0 = a.entries().len() as int;
    let cut = ids0.push(z);
    rb.lemma_slot_count_fits();
    assert forall|q1: int, q2: int, p1: int, p2: int|
        #![trigger cut[q1], cut[q2], rf.neighbours_of(p1), rf.neighbours_of(p2)]
        0 <= q1 < q2 < cut.len() && n0 + 3 * q1 <= p1 < n0 + 3 * q1 + 3 && n0 + 3 * q2 <= p2 < n0 + 3 * q2 + 3
        && a.neighbours_of(cut[q2] as int).contains(cut[q1])
        && rooms_touch(rf.entries()[p1].spec_room(), a.entries()[cut[q2] as int].spec_room())
        && rooms_touch(rf.entries()[p2].spec_room(), rf.entries()[p1].spec_room())
        implies rf.neighbours_of(p2).contains(p1 as usize) && rf.neighbours_of(p1).contains(p2 as usize) by {
        assert(cut[q1] == ids0[q1]);
        assert(rf.entries()[p1] == rb.entries()[p1]);
        let sb = rb.neighbour_slots();
        assert(sb[p1] is Some);
        if q2 < ids0.len() {
            assert(cut[q2] == ids0[q2]);
            assert(rf.entries()[p2] == rb.entries()[p2]);
            assert(rb.neighbours_of(p2).contains(p1 as usize) && rb.neighbours_of(p1).contains(p2 as usize));
            assert(sb[p2] is Some);
            assert(sb[p2]->0.contains(p1 as usize));
            assert(sb[p1]->0.contains(p2 as usize));
        } else {
            assert(cut[q2] == z);
            let r1 = ids0[q1];
            assert(filled(a.entries()[r1 as int]));
            assert(a.neighbours_of(r1 as int).contains(z));
            assert(pieces_linked(rb, n0 + 3 * q1, a.neighbour_slots()[r1 as int]->0, ids0));
            assert(!ids0.contains(z)) by {
                if ids0.contains(z) {
                    let q = choose|q: int| 0 <= q < ids0.len() && ids0[q] == z;
                    assert(ids0[q] != z);
                }
            }
            assert(rb.entries()[z as int].spec_room() == a.entries()[z as int].spec_room());
            assert(rb.neighbours_of(p1).contains(z) && rb.neighbours_of(z as int).contains(p1 as usize));
            assert(rb.neighbours_of(z as int).contains(p1 as usize));
            assert(!Seq::<usize>::empty().contains(p1 as usize));
        }
    }
}

impl MapBuilder {
    /// Adds a new room, active, and links it with every room of `neighbours`
    /// that it touches.
    pub fn recompute_neighbours_for(map_region: &mut MapRegion, neighbours: &Vec<RoomId>, new_room: Room) -> (new_room_id: RoomId)
        requires
            old(map_region).graph_ok(),
            forall|k: int| 0 <= k < neighbours@.len() ==> (#[trigger] neighbours@[k] as int) < old(map_region).entries().len()
                && filled(old(map_region).entries()[neighbours@[k] as int]),
        ensures
            final(map_region).graph_ok(),
            old(map_region).tidy() ==> final(map_region).tidy(),
            final(map_region).origin() == old(map_region).origin(),
            new_room_id == old(map_region).entries().len(),
            final(map_region).entries() == old(map_region).entries().push(RoomEntry::Active(new_room)),
            links_kept(old(map_region).neighbour_slots(), final(map_region).neighbour_slots()),
            forall|k: int| 0 <= k < neighbours@.len()
                && rooms_touch(new_room, old(map_region).entries()[#[trigger] neighbours@[k] as int].spec_room())
                ==> final(map_region).neighbours_of(new_room_id as int).contains(neighbours@[k])
                    && final(map_region).neighbours_of(neighbours@[k] as int).contains(new_room_id),
    {
        let ghost slots0 = map_region.neighbour_slots();
        let new_room_id = map_region.insert_room(new_room);
        let ghost entries = map_region.entries();
        let mut i: usize = 0;
        while i < neighbours.len()
            invariant
                0 <= i <= neighbours.len(),
                map_region.graph_ok(),
                old(map_region).tidy() ==> map_region.tidy(),
                map_region.origin() == old(map_region).origin(),
                map_region.entries() == entries,
                entries == old(map_region).entries().push(RoomEntry::Active(new_room)),
                new_room_id == old(map_region).entries().len(),
                forall|k: int| 0 <= k < neighbours@.len() ==> (#[trigger] neighbours@[k] as int) < old(map_region).entries().len()
                    && filled(old(map_region).entries()[neighbours@[k] as int]),
                slots0 == old(map_region).neighbour_slots(),
                links_kept(slots0, map_region.neighbour_slots()),
                forall|k: int| 0 <= k < i
                    && rooms_touch(new_room, old(map_region).entries()[#[trigger] neighbours@[k] as int].spec_room())
                    ==> map_region.neighbours_of(new_room_id as int).contains(neighbours@[k])
                        && map_region.neighbours_of(neighbours@[k] as int).contains(new_room_id),
            decreases neighbours.len() - i,
        {
            let n = neighbours[i];
            proof {
                assert(entries[n as int] == old(map_region).entries()[n as int]);
            }
            let ghost s1 = map_region.neighbour_slots();
            let touches = map_region.get_room(new_room_id).is_neighbour_of(map_region.get_room(n));
            if touches {
                map_region.link_rooms(new_room_id, n);
                proof {
                    assert(links_kept(s1, map_region.neighbour_slots())) by {
                        assert forall|j: int, y: usize| 0 <= j < s1.len() && s1[j] is Some && #[trigger] s1[j]->0.contains(y)
                            implies map_region.neighbour_slots()[j] is Some && map_region.neighbour_slots()[j]->0.contains(y) by {
                        }
                    }
                    lemma_links_kept_trans(slots0, s1, map_region.neighbour_slots());
                }
            }
            proof {
                assert forall|k: int| 0 <= k < i + 1
                    && rooms_touch(new_room, old(map_region).entries()[#[trigger] neighbours@[k] as int].spec_room())
                    implies map_region.neighbours_of(new_room_id as int).contains(neighbours@[k])
                        && map_region.neighbours_of(neighbours@[k] as int).contains(new_room_id) by {
                    if k < i {
                        assert(s1[new_room_id as int]->0.contains(neighbours@[k]));
                        assert(s1[neighbours@[k] as int]->0.contains(new_room_id));
                    } else {
                        assert(map_region.entries()[new_room_id as int].spec_room() == new_room);
                    }
                }
            }
            i = i + 1;
        }
        new_room_id
    }

    /// Cuts the room of slot `room_id` in three (`cut_in_three`, at a random
    /// cell): the slot is emptied, the three rooms are appended, the middle one
    /// is linked with the other two and each with the old neighbours it touches;
    /// no other link is lost.
    fn cut_room_in_three(map_region: &mut MapRegion, room_id: RoomId)
        requires
            old(map_region).graph_ok(),
            (room_id as int) < old(map_region).entries().len(),
            long_row_room(old(map_region).entries()[room_id as int]),
        ensures
            final(map_region).graph_ok(),
            old(map_region).tidy() ==> final(map_region).tidy(),
            final(map_region).origin() == old(map_region).origin(),
            ({
                let n = old(map_region).entries().len() as int;
                let e = final(map_region).entries();
                &&& e == old(map_region).entries().update(room_id as int, RoomEntry::Empty).push(e[n]).push(e[n + 1]).push(e[n + 2])
                &&& e[n] is Active
                &&& e[n + 1] is Active
                &&& e[n + 2] is Active
                &&& cut_in_three(old(map_region).entries()[room_id as int].spec_room(), e[n].spec_room(), e[n + 1].spec_room(), e[n + 2].spec_room())
            }),
            active_cells(final(map_region).entries()) == active_cells(old(map_region).entries()),
            links_kept_except(old(map_region).neighbour_slots(), final(map_region).neighbour_slots(), room_id),
            pieces_linked(*final(map_region), old(map_region).entries().len() as int, old(map_region).neighbours_of(room_id as int),
                Seq::empty()),
    {
        let ghost before = map_region.entries();
        let ghost sb = map_region.neighbour_slots();
        let neighbours = map_region.iter_neighbours(room_id);
        proof {
            assert forall|k: int| 0 <= k < neighbours@.len() implies (#[trigger] neighbours@[k] as int) < before.len()
                && filled(before[neighbours@[k] as int]) && neighbours@[k] != room_id by {
                assert(neighbours@.to_set().contains(neighbours@[k]));
                assert(map_region.neighbours_of(room_id as int).contains(neighbours@[k]));
            }
            assert(neighbours@.skip(0) =~= neighbours@);
            assert forall|x: usize| #[trigger] map_region.neighbours_of(room_id as int).contains(x) implies neighbours@.skip(0).contains(x) by {
                assert(neighbours@.to_set().contains(x));
            }
        }
        let mut j: usize = 0;
        while j < neighbours.len()
            invariant
                0 <= j <= neighbours.len(),
                map_region.graph_ok(),
                old(map_region).tidy() ==> map_region.tidy(),
                map_region.origin() == old(map_region).origin(),
                map_region.entries() == before,
                (room_id as int) < before.len(),
                before[room_id as int] is Active,
                neighbours@.no_duplicates(),
                forall|k: int| 0 <= k < neighbours@.len() ==> (#[trigger] neighbours@[k] as int) < before.len()
                    && filled(before[neighbours@[k] as int]) && neighbours@[k] != room_id,
                forall|x: usize| #[trigger] map_region.neighbours_of(room_id as int).contains(x) ==> neighbours@.skip(j as int).contains(x),
                links_kept_except(sb, map_region.neighbour_slots(), room_id),
            decreases neighbours.len() - j,
        {
            let m = neighbours[j];
            let ghost s1 = map_region.neighbour_slots();
            map_region.unlink_rooms(room_id, m);
            proof {
                assert forall|x: usize| #[trigger] map_region.neighbours_of(room_id as int).contains(x)
                    implies neighbours@.skip(j + 1).contains(x) by {
                    let k = choose|k: int| 0 <= k < neighbours@.skip(j as int).len() && neighbours@.skip(j as int)[k] == x;
                    assert(neighbours@.skip(j as int)[k] == neighbours@[j + k]);
                    if k == 0 {
                        assert(x == m);
                    } else {
                        assert(neighbours@.skip(j + 1)[k - 1] == x);
                    }
                }
                assert(links_kept_except(s1, map_region.neighbour_slots(), room_id)) by {
                    assert forall|i: int, y: usize| 0 <= i < s1.len() && i != room_id as int && y != room_id && s1[i] is Some && #[trigger] s1[i]->0.contains(y)
                        implies map_region.neighbour_slots()[i] is Some && map_region.neighbour_slots()[i]->0.contains(y) by {
                    }
                }
                lemma_links_except_trans(sb, s1, map_region.neighbour_slots(), room_id);
            }
            j = j + 1;
        }
        proof {
            assert(map_region.neighbours_of(room_id as int) =~= Set::<usize>::empty()) by {
                assert forall|x: usize| !map_region.neighbours_of(room_id as int).contains(x) by {
                    if map_region.neighbours_of(room_id as int).contains(x) {
                        assert(neighbours@.skip(j as int).len() == 0);
                    }
                }
            }
        }
        let ghost s2 = map_region.neighbour_slots();
        let mut room = map_region.take_isolated(room_id);
        proof {
            assert(links_kept_except(s2, map_region.neighbour_slots(), room_id)) by {
                assert forall|i: int, y: usize| 0 <= i < s2.len() && i != room_id as int && y != room_id && s2[i] is Some && #[trigger] s2[i]->0.contains(y)
                    implies map_region.neighbour_slots()[i] is Some && map_region.neighbour_slots()[i]->0.contains(y) by {
                }
            }
            lemma_links_except_trans(sb, s2, map_region.neighbour_slots(), room_id);
        }
        let ghost cells0 = room.cells@;
        sort_cells_by_col(&mut room.cells);
        let len = room.cells.len();
        let cut = random_usize(1, len - 1);
        let room_a = Room { cells: cells_between(&room.cells, 0, cut), modifier: room.modifier };
        let room_b = Room { cells: cells_between(&room.cells, cut, cut + 1), modifier: room.modifier };
        let room_c = Room { cells: cells_between(&room.cells, cut + 1, len), modifier: room.modifier };
        let ghost mid = map_region.entries();
        proof {
            assert forall|k: int| 0 <= k < neighbours@.len() implies (#[trigger] neighbours@[k] as int) < map_region.entries().len()
                && filled(map_region.entries()[neighbours@[k] as int]) by {
                assert(map_region.entries()[neighbours@[k] as int] == before[neighbours@[k] as int]);
            }
        }
        let ghost s3 = map_region.neighbour_slots();
        let a_id = Self::recompute_neighbours_for(map_region, &neighbours, room_a);
        let ghost s4 = map_region.neighbour_slots();
        let ghost ea = map_region.entries();
        let b_id = Self::recompute_neighbours_for(map_region, &neighbours, room_b);
        let ghost s5 = map_region.neighbour_slots();
        let ghost eb = map_region.entries();
        let c_id = Self::recompute_neighbours_for(map_region, &neighbours, room_c);
        let ghost s6 = map_region.neighbour_slots();
        map_region.link_rooms(a_id, b_id);
        let ghost s7 = map_region.neighbour_slots();
        map_region.link_rooms(b_id, c_id);
        proof {
            let s8 = map_region.neighbour_slots();
            let e = map_region.entries();
            let n = before.len() as int;
            assert(links_kept(s7, s8));
            assert(links_kept(s6, s7));
            lemma_links_kept_trans(s6, s7, s8);
            lemma_links_kept_trans(s5, s6, s8);
            lemma_links_kept_trans(s4, s5, s8);
            lemma_links_kept_trans(s3, s4, s8);
            lemma_links_except_trans(sb, s3, s8, room_id);
            assert(e == before.update(room_id as int, RoomEntry::Empty).push(RoomEntry::Active(room_a)).push(
                RoomEntry::Active(room_b)).push(RoomEntry::Active(room_c)));
            assert(e[n] == RoomEntry::Active(room_a));
            assert(e[n + 1] == RoomEntry::Active(room_b));
            assert(e[n + 2] == RoomEntry::Active(room_c));
            lemma_three_parts_cover(cells0, room.cells@, cut as int);
            lemma_split_keeps_active_cells(before, room_id as int, room_a, room_b, room_c);
            assert(cut_in_three(before[room_id as int].spec_room(), room_a, room_b, room_c)) by {
                assert(room_a.cells@ == room.cells@.subrange(0, cut as int));
                assert(room.cells@.subrange(cut as int, cut + 1) == room_b.cells@);
                assert(room_c.cells@ == room.cells@.subrange(cut + 1, len as int));
            }
            assert(s8[n + 1]->0.contains(n as usize));
            assert(s8[n + 1]->0.contains((n + 2) as usize));
            assert(s8[n]->0.contains((n + 1) as usize));
            assert(s8[n + 2]->0.contains((n + 1) as usize));
            let nb = sb[room_id as int]->0;
            assert forall|p: int, m: usize| n <= p < n + 3 && #[trigger] nb.contains(m) && !Seq::<usize>::empty().contains(m)
                && rooms_touch(#[trigger] e[p].spec_room(), e[m as int].spec_room())
                implies map_region.neighbours_of(p).contains(m) && map_region.neighbours_of(m as int).contains(p as usize) by {
                assert(neighbours@.to_set().contains(m));
                let k = choose|k: int| 0 <= k < neighbours@.len() && neighbours@[k] == m;
                assert(e[m as int] == before[m as int]);
                assert(mid[m as int] == before[m as int]);
                assert(ea[m as int] == before[m as int]);
                assert(eb[m as int] == before[m as int]);
                if p == n {
                    assert(s4[n]->0.contains(m) && s4[m as int]->0.contains(n as usize));
                } else if p == n + 1 {
                    assert(s5[n + 1]->0.contains(m) && s5[m as int]->0.contains((n + 1) as usize));
                } else {
                    assert(s6[n + 2]->0.contains(m) && s6[m as int]->0.contains((n + 2) as usize));
                }
            }
        }
    }

    /// Cuts, each with chance `bisect_chance`, the active rooms of at least
    /// `MIN_BISECT_SIZE` cells that lie in a single row: the room's slot is
    /// emptied and, its cells ordered by column, it becomes three rooms —
    /// the cells before a random cut cell (never the first or the last),
    /// the cut cell alone, and the cells after it — each linked with the old
    /// neighbours it touches (those not cut themselves), and the middle one
    /// with the other two. Links between rooms that are not cut stay.
    pub fn bisect_long_horizontal_rooms(map_region: &mut MapRegion, bisect_chance: u32)
        requires
            old(map_region).graph_ok(),
            bisect_chance <= CHANCE_SCALE,
        ensures
            final(map_region).graph_ok(),
            old(map_region).tidy() ==> final(map_region).tidy(),
            final(map_region).origin() == old(map_region).origin(),
            only_long_rooms_emptied(old(map_region).entries(), final(map_region).entries()),
            final(map_region).entries().len() <= 4 * old(map_region).entries().len(),
            active_cells(final(map_region).entries()) == active_cells(old(map_region).entries()),
            exists|cut_ids: Seq<usize>| {
                &&& cut_rooms(old(map_region).entries(), final(map_region).entries(), cut_ids)
                &&& bisect_chance == 0 ==> cut_ids.len() == 0
                &&& bisect_chance == CHANCE_SCALE ==> forall|i: int| 0 <= i < old(map_region).entries().len()
                    && long_row_room(#[trigger] old(map_region).entries()[i]) ==> cut_ids.contains(i as usize)
                &&& forall|q: int| #![trigger cut_ids[q]] 0 <= q < cut_ids.len() ==> pieces_linked(*final(map_region),
                    old(map_region).entries().len() + 3 * q, old(map_region).neighbours_of(cut_ids[q] as int), cut_ids)
                &&& forall|i: int, m: usize| 0 <= i < old(map_region).entries().len() && !cut_ids.contains(i as usize)
                    && !cut_ids.contains(m) && filled(old(map_region).entries()[i]) && #[trigger] old(map_region).neighbours_of(i).contains(m)
                    ==> final(map_region).neighbours_of(i).contains(m)
                &&& cut_pieces_linked(*old(map_region), *final(map_region), cut_ids)
            },
            bisect_chance == 0 ==> final(map_region).entries() == old(map_region).entries()
                && final(map_region).neighbour_slots() == old(map_region).neighbour_slots(),
    {
        let ghost entries0 = map_region.entries();
        let n = map_region.room_slots();
        let mut targets: Vec<RoomId> = Vec::new();
        let mut idx: usize = 0;
        while idx < n
            invariant
                0 <= idx <= n,
                n == entries0.len(),
                map_region.entries() == entries0,
                forall|k: int| 0 <= k < targets@.len() ==> {
                    &&& (#[trigger] targets@[k] as int) < idx
                    &&& entries0[targets@[k] as int] is Active
                    &&& entries0[targets@[k] as int].spec_room().cells@.len() >= MIN_BISECT_SIZE
                    &&& one_row(entries0[targets@[k] as int].spec_room().cells@)
                },
                forall|k: int, l: int| 0 <= k < l < targets@.len() ==> #[trigger] targets@[k] < #[trigger] targets@[l],
                targets@.len() <= idx,
                forall|i: int| 0 <= i < idx && long_row_room(#[trigger] entries0[i]) ==> targets@.contains(i as usize),
            decreases n - idx,
        {
            let ghost t0 = targets@;
            if map_region.is_active(idx) {
                let room = map_region.get_active(idx);
                if room.cells.len() >= MIN_BISECT_SIZE && all_same_row(&room.cells) {
                    targets.push(idx);
                }
            }
            proof {
                assert forall|i: int| 0 <= i < idx + 1 && long_row_room(#[trigger] entries0[i]) implies targets@.contains(i as usize) by {
                    if i < idx {
                        let k = choose|k: int| 0 <= k < t0.len() && t0[k] == i as usize;
                        assert(targets@[k] == t0[k]);
                    } else {
                        assert(targets@[targets@.len() - 1] == idx);
                    }
                }
            }
            idx = idx + 1;
        }
        let ghost slots0 = map_region.neighbour_slots();
        let ghost mut cut_ids: Seq<usize> = Seq::empty();
        let mut t: usize = 0;
        while t < targets.len()
            invariant
                0 <= t <= targets.len(),
                map_region.graph_ok(),
                old(map_region).tidy() ==> map_region.tidy(),
                map_region.origin() == old(map_region).origin(),
                bisect_chance <= CHANCE_SCALE,
                entries0 == old(map_region).entries(),
                only_long_rooms_emptied(entries0, map_region.entries()),
                active_cells(map_region.entries()) == active_cells(entries0),
                forall|k: int| 0 <= k < targets@.len() ==> {
                    &&& (#[trigger] targets@[k] as int) < entries0.len()
                    &&& entries0[targets@[k] as int] is Active
                    &&& entries0[targets@[k] as int].spec_room().cells@.len() >= MIN_BISECT_SIZE
                    &&& one_row(entries0[targets@[k] as int].spec_room().cells@)
                },
                forall|k: int, l: int| 0 <= k < l < targets@.len() ==> #[trigger] targets@[k] < #[trigger] targets@[l],
                forall|k: int| t <= k < targets@.len() ==> map_region.entries()[#[trigger] targets@[k] as int] == entries0[targets@[k] as int],
                map_region.entries().len() <= entries0.len() + 3 * t,
                targets@.len() <= entries0.len(),
                forall|i: int| 0 <= i < entries0.len() && long_row_room(#[trigger] entries0[i]) ==> targets@.contains(i as usize),
                cut_rooms(entries0, map_region.entries(), cut_ids),
                forall|q: int| #![trigger cut_ids[q]] 0 <= q < cut_ids.len() ==> exists|k: int| 0 <= k < t && #[trigger] targets@[k] == cut_ids[q],
                bisect_chance == 0 ==> cut_ids.len() == 0 && map_region.entries() == entries0 && map_region.neighbour_slots() == slots0,
                bisect_chance == CHANCE_SCALE ==> cut_ids == targets@.take(t as int),
                old(map_region).graph_ok(),
                slots0 == old(map_region).neighbour_slots(),
                forall|i: int, m: usize| 0 <= i < entries0.len() && !cut_ids.contains(i as usize) && !cut_ids.contains(m) && slots0[i] is Some
                    && #[trigger] slots0[i]->0.contains(m) ==> map_region.neighbour_slots()[i] is Some && map_region.neighbour_slots()[i]->0.contains(m),
                forall|q: int| #![trigger cut_ids[q]] 0 <= q < cut_ids.len() ==> pieces_linked(*map_region, entries0.len() + 3 * q,
                    slots0[cut_ids[q] as int]->0, cut_ids),
                cut_pieces_linked(*old(map_region), *map_region, cut_ids),
            decreases targets.len() - t,
        {
            let room_id = targets[t];
            let ghost ids0 = cut_ids;
            let ghost e0 = map_region.entries();
            if chance(bisect_chance) {
                let ghost before = map_region.entries();
                let ghost sb = map_region.neighbour_slots();
                let ghost rb = *map_region;
                proof {
                    assert(map_region.entries()[room_id as int] == entries0[room_id as int]);
                }
                Self::cut_room_in_three(map_region, room_id);
                proof {
                    let e = map_region.entries();
                    let nb = before.len() as int;
                    let room_a = e[nb].spec_room();
                    let room_b = e[nb + 1].spec_room();
                    let room_c = e[nb + 2].spec_room();
                    assert(e.len() == before.len() + 3);
                    assert forall|i: int| 0 <= i < nb implies #[trigger] e[i] == before.update(room_id as int, RoomEntry::Empty)[i] by {
                        assert(e[i] == before.update(room_id as int, RoomEntry::Empty).push(e[nb]).push(e[nb + 1])[i]);
                    }
                    assert forall|i: int| 0 <= i < entries0.len() implies #[trigger] e[i] == entries0[i] || (e[i] is Empty && entries0[i] is Active
                        && entries0[i].spec_room().cells@.len() >= MIN_BISECT_SIZE && one_row(entries0[i].spec_room().cells@)) by {
                        assert(e[i] == before.update(room_id as int, RoomEntry::Empty)[i]);
                    }
                    assert forall|i: int| entries0.len() <= i < e.len() implies #[trigger] e[i] is Active by {
                        if i < before.len() {
                            assert(e[i] == before.update(room_id as int, RoomEntry::Empty)[i]);
                        }
                    }
                    assert forall|k: int| t + 1 <= k < targets@.len() implies map_region.entries()[#[trigger] targets@[k] as int] == entries0[targets@[k] as int] by {
                        assert(targets@[t as int] < targets@[k]);
                        assert(e[targets@[k] as int] == before.update(room_id as int, RoomEntry::Empty)[targets@[k] as int]);
                    }
                    cut_ids = ids0.push(room_id);
                    let n0 = entries0.len();
                    assert(e0 == before);
                    assert(before[room_id as int] == entries0[room_id as int]);
                    assert(cut_in_three(entries0[room_id as int].spec_room(), room_a, room_b, room_c));
                    assert forall|q: int| 0 <= q < ids0.len() implies #[trigger] ids0[q] < room_id by {
                        let k = choose|k: int| 0 <= k < t && #[trigger] targets@[k] == ids0[q];
                    }
                    assert forall|q: int, r: int| 0 <= q < r < cut_ids.len() implies #[trigger] cut_ids[q] < #[trigger] cut_ids[r] by {
                        if r == ids0.len() {
                            assert(cut_ids[q] == ids0[q]);
                        } else {
                            assert(cut_ids[q] == ids0[q] && cut_ids[r] == ids0[r]);
                        }
                    }
                    assert forall|q: int| 0 <= q < cut_ids.len() implies (#[trigger] cut_ids[q] as int) < n0 && long_row_room(entries0[cut_ids[q] as int]) by {
                        if q < ids0.len() {
                            assert(cut_ids[q] == ids0[q]);
                        }
                    }
                    assert forall|x: usize| #[trigger] cut_ids.contains(x) <==> (ids0.contains(x) || x == room_id) by {
                        crate::seq_facts::lemma_push_contains(ids0, room_id, x);
                    }
                    assert(!ids0.contains(room_id)) by {
                        if ids0.contains(room_id) {
                            let q = choose|q: int| 0 <= q < ids0.len() && ids0[q] == room_id;
                        }
                    }
                    rb.lemma_slot_count_fits();
                    assert forall|i: int| 0 <= i < n0 implies #[trigger] e[i] == if cut_ids.contains(i as usize) { RoomEntry::Empty } else { entries0[i] } by {
                        assert(e[i] == before.update(room_id as int, RoomEntry::Empty)[i]);
                        assert(e0[i] == if ids0.contains(i as usize) { RoomEntry::Empty } else { entries0[i] });
                        if i != room_id as int {
                            assert(before.update(room_id as int, RoomEntry::Empty)[i] == before[i]);
                            assert(cut_ids.contains(i as usize) == ids0.contains(i as usize));
                        } else {
                            assert(cut_ids.contains(i as usize));
                        }
                    }
                    assert forall|q: int| 0 <= q < cut_ids.len() implies {
                        let base = n0 + 3 * q;
                        &&& e[base] is Active
                        &&& e[base + 1] is Active
                        &&& e[base + 2] is Active
                        &&& cut_in_three(entries0[#[trigger] cut_ids[q] as int].spec_room(), e[base].spec_room(), e[base + 1].spec_room(),
                            e[base + 2].spec_room())
                    } by {
                        if q < ids0.len() {
                            assert(cut_ids[q] == ids0[q]);
                            let base = n0 + 3 * q;
                            assert(e[base] == before.update(room_id as int, RoomEntry::Empty)[base]);
                            assert(e[base + 1] == before.update(room_id as int, RoomEntry::Empty)[base + 1]);
                            assert(e[base + 2] == before.update(room_id as int, RoomEntry::Empty)[base + 2]);
                        } else {
                            assert(n0 + 3 * q == before.len());
                        }
                    }
                    rb.lemma_slot_count_fits();
                    let s_end = map_region.neighbour_slots();
                    assert(sb[room_id as int] is Some);
                    assert forall|i: int, m: usize| 0 <= i < n0 && !cut_ids.contains(i as usize) && !cut_ids.contains(m) && slots0[i] is Some
                        && #[trigger] slots0[i]->0.contains(m) implies s_end[i] is Some && s_end[i]->0.contains(m) by {
                        assert(sb[i]->0.contains(m));
                    }
                    assert forall|q: int| #![trigger cut_ids[q]] 0 <= q < cut_ids.len() implies pieces_linked(*map_region, n0 + 3 * q,
                        slots0[cut_ids[q] as int]->0, cut_ids) by {
                        let nbrs = slots0[cut_ids[q] as int]->0;
                        assert(entries0[cut_ids[q] as int] is Active);
                        assert forall|m: usize| #[trigger] nbrs.contains(m) implies (m as int) < n0 && filled(entries0[m as int]) by {
                            assert(old(map_region).neighbours_of(cut_ids[q] as int).contains(m));
                        }
                        if q < ids0.len() {
                            assert(cut_ids[q] == ids0[q]);
                            assert(pieces_linked(rb, n0 + 3 * q, nbrs, ids0));
                            assert forall|m: usize| nbrs.contains(m) && !ids0.contains(m) implies (m as int) < rb.entries().len()
                                && filled(#[trigger] rb.entries()[m as int]) by {
                                assert(rb.entries()[m as int] == entries0[m as int]);
                            }
                            assert forall|i: int| 0 <= i < rb.entries().len() && i != room_id as int implies #[trigger] map_region.entries()[i]
                                == rb.entries()[i] by {
                                assert(e[i] == before.update(room_id as int, RoomEntry::Empty)[i]);
                            }
                            lemma_pieces_kept(rb, *map_region, n0 + 3 * q, nbrs, ids0, cut_ids, room_id);
                        } else {
                            assert(n0 + 3 * q == nb);
                            assert forall|m: usize| #[trigger] nbrs.contains(m) && !cut_ids.contains(m) implies sb[room_id as int]->0.contains(m) by {
                            }
                            lemma_pieces_fewer(*map_region, nb, sb[room_id as int]->0, nbrs, cut_ids);
                        }
                    }
                    assert forall|i: int| 0 <= i < rb.entries().len() && i != room_id as int implies #[trigger] map_region.entries()[i]
                        == rb.entries()[i] by {
                        assert(e[i] == before.update(room_id as int, RoomEntry::Empty)[i]);
                    }
                    assert forall|q: int| #![trigger ids0[q]] 0 <= q < ids0.len() implies (ids0[q] as int) < entries0.len()
                        && ids0[q] != room_id by {
                        assert(ids0[q] < room_id);
                    }
                    lemma_cut_pair_links(*old(map_region), rb, *map_region, ids0, room_id);
                    assert forall|q: int| #![trigger cut_ids[q]] 0 <= q < cut_ids.len() implies exists|k: int| 0 <= k < t + 1 && #[trigger] targets@[k] == cut_ids[q] by {
                        if q < ids0.len() {
                            assert(cut_ids[q] == ids0[q]);
                            let k = choose|k: int| 0 <= k < t && #[trigger] targets@[k] == ids0[q];
                        } else {
                            assert(targets@[t as int] == cut_ids[q]);
                        }
                    }
                    if bisect_chance == CHANCE_SCALE {
                        assert(cut_ids =~= targets@.take(t + 1));
                    }
                }
            } else {
                proof {
                    assert forall|q: int| #![trigger cut_ids[q]] 0 <= q < cut_ids.len() implies exists|k: int| 0 <= k < t + 1 && #[trigger] targets@[k] == cut_ids[q] by {
                        let k = choose|k: int| 0 <= k < t && #[trigger] targets@[k] == cut_ids[q];
                    }
                }
            }
            t = t + 1;
        }
        let ghost r_end = *map_region;
        map_region.shrink_buffers();
        proof {
            assert(cut_pieces_linked(*old(map_region), r_end, cut_ids));
            assert(cut_pieces_linked(*old(map_region), *map_region, cut_ids)) by {
                assert(map_region.entries() == r_end.entries());
                assert(map_region.neighbour_slots() == r_end.neighbour_slots());
            }
            assert forall|q: int| #![trigger cut_ids[q]] 0 <= q < cut_ids.len() implies pieces_linked(*map_region,
                entries0.len() + 3 * q, slots0[cut_ids[q] as int]->0, cut_ids) by {
                assert(pieces_linked(r_end, entries0.len() + 3 * q, slots0[cut_ids[q] as int]->0, cut_ids));
            }
            assert forall|i: int, m: usize| 0 <= i < entries0.len() && !cut_ids.contains(i as usize)
                && !cut_ids.contains(m) && filled(entries0[i]) && #[trigger] old(map_region).neighbours_of(i).contains(m)
                implies map_region.neighbours_of(i).contains(m) by {
                assert(slots0[i] is Some);
                assert(slots0[i]->0.contains(m));
            }
            if bisect_chance == CHANCE_SCALE {
                assert(targets@.take(targets@.len() as int) =~= targets@);
                assert forall|i: int| 0 <= i < entries0.len() && long_row_room(#[trigger] entries0[i]) implies cut_ids.contains(i as usize) by {
                    assert(targets@.contains(i as usize));
                }
            }
        }
    }
}

} // verus!
