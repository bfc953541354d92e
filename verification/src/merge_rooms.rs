//! Merging neighbouring rooms of a region at random.
use vstd::prelude::*;

use crate::map_builder::MapBuilder;
use crate::map_region::{lemma_graph_allows_merge, MapRegion, RoomEntry};
use crate::neighbour_set::set_len;
use crate::rng::{chance, random_usize, CHANCE_SCALE};
use crate::types::{Cell, RoomId};

verus! {

/// From `old` to `new`, the removed rooms stay as they were, no slot becomes
/// removed, and every active room of `new` was an active slot of `old`.
pub open spec fn keeps_removed(old: Seq<RoomEntry>, new: Seq<RoomEntry>) -> bool {
    &&& new.len() == old.len()
    &&& forall|i: int| 0 <= i < old.len() && #[trigger] old[i] is Removed ==> new[i] == old[i]
    &&& forall|i: int| 0 <= i < old.len() && #[trigger] new[i] is Removed ==> old[i] is Removed
    &&& forall|i: int| 0 <= i < old.len() && #[trigger] new[i] is Active ==> old[i] is Active
}

/// The cells covered by the active rooms of `entries`.
pub open spec fn active_cells(entries: Seq<RoomEntry>) -> Set<Cell> {
    Set::new(|c: Cell| exists|i: int| 0 <= i < entries.len() && entries[i] is Active && #[trigger] entries[i].spec_room().cells@.contains(c))
}

/// Merging active room `b` into active room `a` (the room in `a` taking the
/// cells of both, `b` emptied, every other slot unchanged) leaves the cells
/// covered by active rooms as they were.
pub proof fn lemma_merge_keeps_active_cells(before: Seq<RoomEntry>, after: Seq<RoomEntry>, a: int, b: int)
    requires
        before.len() == after.len(),
        0 <= a < before.len(),
        0 <= b < before.len(),
        a != b,
        before[a] is Active,
        before[b] is Active,
        after[a] is Active,
        after[b] is Empty,
        forall|i: int| 0 <= i < before.len() && i != a && i != b ==> after[i] == before[i],
        forall|c: Cell| #[trigger] after[a].spec_room().cells@.contains(c) <==> (before[a].spec_room().cells@.contains(c)
            || before[b].spec_room().cells@.contains(c)),
    ensures
        active_cells(after) == active_cells(before),
{
    assert forall|c: Cell| active_cells(after).contains(c) <==> active_cells(before).contains(c) by {
        if active_cells(after).contains(c) {
            let i = choose|i: int| 0 <= i < after.len() && after[i] is Active && #[trigger] after[i].spec_room().cells@.contains(c);
            if i == a {
                if before[a].spec_room().cells@.contains(c) {
                    assert(active_cells(before).contains(c));
                } else {
                    assert(before[b].spec_room().cells@.contains(c));
                    assert(active_cells(before).contains(c));
                }
            } else {
                assert(after[i] == before[i]);
                assert(active_cells(before).contains(c));
            }
        }
        if active_cells(before).contains(c) {
            let i = choose|i: int| 0 <= i < before.len() && before[i] is Active && #[trigger] before[i].spec_room().cells@.contains(c);
            if i == a || i == b {
                assert(after[a].spec_room().cells@.contains(c));
                assert(active_cells(after).contains(c));
            } else {
                assert(after[i] == before[i]);
                assert(active_cells(after).contains(c));
            }
        }
    }
    assert(active_cells(after) =~= active_cells(before));
}

/// Pairs of distinct slots, no slot in two pairs, every slot active in `entries`.
pub open spec fn disjoint_active_pairs(pairs: Seq<(usize, usize)>, entries: Seq<RoomEntry>) -> bool {
    &&& forall|i: int| 0 <= i < pairs.len() ==> {
        &&& (#[trigger] pairs[i]).0 != pairs[i].1
        &&& (pairs[i].0 as int) < entries.len()
        &&& (pairs[i].1 as int) < entries.len()
        &&& entries[pairs[i].0 as int] is Active
        &&& entries[pairs[i].1 as int] is Active
    }
    &&& forall|i: int, j: int| 0 <= i < j < pairs.len() ==> {
        &&& (#[trigger] pairs[i]).0 != (#[trigger] pairs[j]).0
        &&& pairs[i].0 != pairs[j].1
        &&& pairs[i].1 != pairs[j].0
        &&& pairs[i].1 != pairs[j].1
    }
}

/// `new` is `old` with, for each pair `(a, b)` of `pairs`, the room of slot
/// `b` merged into the room of slot `a`: slot `b` emptied, slot `a` holding
/// an active room over the cells of both that keeps the modifier of `a`;
/// every slot in no pair is unchanged.
pub open spec fn merged_by(old: Seq<RoomEntry>, new: Seq<RoomEntry>, pairs: Seq<(usize, usize)>) -> bool {
    &&& new.len() == old.len()
    &&& forall|k: int| 0 <= k < pairs.len() ==> {
        let a = (#[trigger] pairs[k]).0 as int;
        let b = pairs[k].1 as int;
        &&& new[b] is Empty
        &&& new[a] is Active
        &&& new[a].spec_room().modifier == old[a].spec_room().modifier
        &&& new[a].spec_room().cells@.no_duplicates()
        &&& forall|c: Cell| #[trigger] new[a].spec_room().cells@.contains(c) <==> (old[a].spec_room().cells@.contains(c)
            || old[b].spec_room().cells@.contains(c))
    }
    &&& forall|i: int| 0 <= i < old.len() && !in_pairs(pairs, i as usize) ==> #[trigger] new[i] == old[i]
}

/// Each pair joins a room with one of its neighbours in `r`.
pub open spec fn neighbour_pairs(pairs: Seq<(usize, usize)>, r: MapRegion) -> bool {
    forall|k: int| 0 <= k < pairs.len() ==> r.neighbours_of((#[trigger] pairs[k]).0 as int).contains(pairs[k].1)
}

/// Whether `id` is one of the slots in `pairs`.
pub open spec fn in_pairs(pairs: Seq<(usize, usize)>, id: usize) -> bool {
    exists|k: int| 0 <= k < pairs.len() && ((#[trigger] pairs[k]).0 == id || pairs[k].1 == id)
}

/// Room `y` was put in a pair before room `x`'s turn (a pair made at a
/// room below `x`).
pub open spec fn paired_before(pairs: Seq<(usize, usize)>, x: usize, y: usize) -> bool {
    exists|k: int| 0 <= k < pairs.len() && (#[trigger] pairs[k]).0 < x && (pairs[k].0 == y || pairs[k].1 == y)
}

/// `y` is an active neighbour of `x` in `r` not put in a pair before `x`'s turn.
pub open spec fn free_neighbour(r: MapRegion, pairs: Seq<(usize, usize)>, x: usize, y: usize) -> bool {
    &&& r.neighbours_of(x as int).contains(y)
    &&& r.entries()[y as int] is Active
    &&& !paired_before(pairs, x, y)
}

/// Room `x`'s turn when every roll hits: if it is active and left out of
/// every pair, it had no free active neighbour, or it is a single cell with
/// exactly one.
pub open spec fn merge_turn_ok(r: MapRegion, pairs: Seq<(usize, usize)>, x: usize) -> bool {
    r.entries()[x as int] is Active && !in_pairs(pairs, x) ==> {
        ||| forall|y: usize| !#[trigger] free_neighbour(r, pairs, x, y)
        ||| r.entries()[x as int].spec_room().cells@.len() == 1 && exists|y: usize| #[trigger] free_neighbour(r, pairs, x, y)
            && forall|z: usize| #[trigger] free_neighbour(r, pairs, x, z) ==> z == y
    }
}

/// When every roll hits, every room's turn ends as `merge_turn_ok` says.
pub open spec fn random_merge_complete(r: MapRegion, pairs: Seq<(usize, usize)>) -> bool {
    forall|x: usize| (x as int) < r.entries().len() ==> #[trigger] merge_turn_ok(r, pairs, x)
}

proof fn lemma_in_pairs_push(pairs: Seq<(usize, usize)>, p: (usize, usize), y: usize)
    ensures
        in_pairs(pairs.push(p), y) <==> (in_pairs(pairs, y) || p.0 == y || p.1 == y),
{
    let np = pairs.push(p);
    if in_pairs(np, y) {
        let k = choose|k: int| 0 <= k < np.len() && ((#[trigger] np[k]).0 == y || np[k].1 == y);
        if k < pairs.len() {
            assert(np[k] == pairs[k]);
        }
    }
    if in_pairs(pairs, y) {
        let k = choose|k: int| 0 <= k < pairs.len() && ((#[trigger] pairs[k]).0 == y || pairs[k].1 == y);
        assert(np[k] == pairs[k]);
    }
    if p.0 == y || p.1 == y {
        assert(np[pairs.len() as int] == p);
    }
}

proof fn lemma_turn_ok_push(r: MapRegion, pairs: Seq<(usize, usize)>, p: (usize, usize), x: usize)
    requires
        merge_turn_ok(r, pairs, x),
        x < p.0,
    ensures
        merge_turn_ok(r, pairs.push(p), x),
{
    let np = pairs.push(p);
    lemma_in_pairs_push(pairs, p, x);
    assert forall|y: usize|
        #![trigger free_neighbour(r, np, x, y)]
        #![trigger free_neighbour(r, pairs, x, y)]
        free_neighbour(r, np, x, y) == free_neighbour(r, pairs, x, y) by {
        lemma_paired_before_push(pairs, p, x, y);
    }
}

/// A pair made at room `p.0` or later does not change what was paired
/// before `x`'s turn.
proof fn lemma_paired_before_push(pairs: Seq<(usize, usize)>, p: (usize, usize), x: usize, y: usize)
    requires
        x <= p.0,
    ensures
        paired_before(pairs.push(p), x, y) == paired_before(pairs, x, y),
{
    let np = pairs.push(p);
    if paired_before(np, x, y) {
        let k = choose|k: int| 0 <= k < np.len() && (#[trigger] np[k]).0 < x && (np[k].0 == y || np[k].1 == y);
        assert(k < pairs.len());
        assert(np[k] == pairs[k]);
    }
    if paired_before(pairs, x, y) {
        let k = choose|k: int| 0 <= k < pairs.len() && (#[trigger] pairs[k]).0 < x && (pairs[k].0 == y || pairs[k].1 == y);
        assert(np[k] == pairs[k]);
    }
}

/// One of the two rooms is a single cell whose neighbour set has one member.
pub open spec fn lonely_pair(r: MapRegion, x: usize, y: usize) -> bool {
    ||| r.entries()[x as int].spec_room().cells@.len() == 1 && r.neighbours_of(x as int).len() == 1
    ||| r.entries()[y as int].spec_room().cells@.len() == 1 && r.neighbours_of(y as int).len() == 1
}

/// `y` is an active neighbour of `x` in `r`, of at most `max_size` cells,
/// that comes after `x` and was not put in a pair before `x`'s turn.
pub open spec fn small_free_neighbour(r: MapRegion, pairs: Seq<(usize, usize)>, max_size: usize, x: usize, y: usize) -> bool {
    &&& r.neighbours_of(x as int).contains(y)
    &&& r.entries()[y as int] is Active
    &&& r.entries()[y as int].spec_room().cells@.len() <= max_size
    &&& x < y
    &&& !paired_before(pairs, x, y)
}

/// Room `x`'s turn when every roll hits: if it is active, of at most
/// `max_size` cells and left out of every pair, each neighbour it could have
/// been paired with was ruled out as lonely.
pub open spec fn simple_turn_ok(r: MapRegion, pairs: Seq<(usize, usize)>, max_size: usize, x: usize) -> bool {
    r.entries()[x as int] is Active && r.entries()[x as int].spec_room().cells@.len() <= max_size && !in_pairs(pairs, x)
        ==> forall|y: usize| #[trigger] small_free_neighbour(r, pairs, max_size, x, y) ==> lonely_pair(r, x, y)
}

/// When every roll hits, every room's turn ends as `simple_turn_ok` says.
pub open spec fn simple_merge_complete(r: MapRegion, pairs: Seq<(usize, usize)>, max_size: usize) -> bool {
    forall|x: usize| (x as int) < r.entries().len() ==> #[trigger] simple_turn_ok(r, pairs, max_size, x)
}

proof fn lemma_simple_turn_ok_push(r: MapRegion, pairs: Seq<(usize, usize)>, p: (usize, usize), max_size: usize, x: usize)
    requires
        simple_turn_ok(r, pairs, max_size, x),
        x < p.0,
    ensures
        simple_turn_ok(r, pairs.push(p), max_size, x),
{
    let np = pairs.push(p);
    lemma_in_pairs_push(pairs, p, x);
    assert forall|y: usize|
        #![trigger small_free_neighbour(r, np, max_size, x, y)]
        #![trigger small_free_neighbour(r, pairs, max_size, x, y)]
        small_free_neighbour(r, np, max_size, x, y) == small_free_neighbour(r, pairs, max_size, x, y) by {
        lemma_paired_before_push(pairs, p, x, y);
    }
}

/// The neighbour slots after merging each pair of `pairs` in order, second
/// room into the first (see `merged_neighbour_slots`).
pub open spec fn slots_merged_by(slots: Seq<Option<Set<usize>>>, pairs: Seq<(usize, usize)>) -> Seq<Option<Set<usize>>>
    decreases pairs.len(),
{
    if pairs.len() == 0 {
        slots
    } else {
        crate::map_region::merged_neighbour_slots(slots_merged_by(slots, pairs.drop_last()), pairs.last().0 as int, pairs.last().1 as int)
    }
}

/// Merges each pair, second room into the first, in order.
fn merge_pairs(map_region: &mut MapRegion, pairs: &Vec<(usize, usize)>)
    requires
        old(map_region).graph_ok(),
        disjoint_active_pairs(pairs@, old(map_region).entries()),
    ensures
        final(map_region).graph_ok(),
        old(map_region).tidy() ==> final(map_region).tidy(),
        final(map_region).origin() == old(map_region).origin(),
        keeps_removed(old(map_region).entries(), final(map_region).entries()),
        active_cells(final(map_region).entries()) == active_cells(old(map_region).entries()),
        merged_by(old(map_region).entries(), final(map_region).entries(), pairs@),
        final(map_region).neighbour_slots() == slots_merged_by(old(map_region).neighbour_slots(), pairs@),
        pairs@.len() == 0 ==> *final(map_region) == *old(map_region),
{
    let ghost entries0 = map_region.entries();
    let mut i: usize = 0;
    proof {
        assert forall|x: usize| !in_pairs(pairs@.take(0), x) by {}
    }
    while i < pairs.len()
        invariant
            0 <= i <= pairs.len(),
            i == 0 ==> *map_region == *old(map_region),
            disjoint_active_pairs(pairs@, entries0),
            merged_by(entries0, map_region.entries(), pairs@.take(i as int)),
            map_region.graph_ok(),
            old(map_region).tidy() ==> map_region.tidy(),
            map_region.origin() == old(map_region).origin(),
            entries0 == old(map_region).entries(),
            keeps_removed(entries0, map_region.entries()),
            active_cells(map_region.entries()) == active_cells(entries0),
            disjoint_active_pairs(pairs@.skip(i as int), map_region.entries()),
            map_region.neighbour_slots() == slots_merged_by(old(map_region).neighbour_slots(), pairs@.take(i as int)),
        decreases pairs.len() - i,
    {
        let (a, b) = pairs[i];
        let ghost rest = pairs@.skip(i as int);
        proof {
            assert(rest[0] == (a, b));
            lemma_graph_allows_merge(*map_region, a as int, b as int);
        }
        let ghost before = map_region.entries();
        map_region.merge_active_rooms(a, b);
        proof {
            assert(pairs@.take(i + 1).drop_last() =~= pairs@.take(i as int));
            assert(pairs@.take(i + 1).last() == (a, b));
            lemma_merge_keeps_active_cells(before, map_region.entries(), a as int, b as int);
            let done = pairs@.take(i as int);
            let done1 = pairs@.take(i + 1);
            assert(pairs@[i as int] == (a, b));
            assert forall|k: int| 0 <= k < done.len() implies (#[trigger] done[k]).0 != a && done[k].0 != b
                && done[k].1 != a && done[k].1 != b by {
                assert(done[k] == pairs@[k]);
            }
            assert(!in_pairs(done, a)) by {
                if in_pairs(done, a) {
                    let k = choose|k: int| 0 <= k < done.len() && ((#[trigger] done[k]).0 == a || done[k].1 == a);
                }
            }
            assert(!in_pairs(done, b)) by {
                if in_pairs(done, b) {
                    let k = choose|k: int| 0 <= k < done.len() && ((#[trigger] done[k]).0 == b || done[k].1 == b);
                }
            }
            assert(before[a as int] == entries0[a as int]);
            assert(before[b as int] == entries0[b as int]);
            assert forall|k: int| 0 <= k < done1.len() implies {
                let pa = (#[trigger] done1[k]).0 as int;
                let pb = done1[k].1 as int;
                &&& map_region.entries()[pb] is Empty
                &&& map_region.entries()[pa] is Active
                &&& map_region.entries()[pa].spec_room().modifier == entries0[pa].spec_room().modifier
                &&& map_region.entries()[pa].spec_room().cells@.no_duplicates()
                &&& forall|c: Cell| #[trigger] map_region.entries()[pa].spec_room().cells@.contains(c) <==> (entries0[pa].spec_room().cells@.contains(c)
                    || entries0[pb].spec_room().cells@.contains(c))
            } by {
                if k < i {
                    assert(done1[k] == done[k]);
                    assert(done[k] == pairs@[k]);
                    assert(map_region.entries()[done[k].0 as int] == before[done[k].0 as int]);
                    assert(map_region.entries()[done[k].1 as int] == before[done[k].1 as int]);
                } else {
                    assert(done1[k] == (a, b));
                }
            }
            assert forall|x: int| 0 <= x < entries0.len() && !in_pairs(done1, x as usize) implies #[trigger] map_region.entries()[x] == entries0[x] by {
                assert(done1[i as int] == (a, b));
                assert(x != a as int && x != b as int);
                assert(!in_pairs(done, x as usize)) by {
                    if in_pairs(done, x as usize) {
                        let k = choose|k: int| 0 <= k < done.len() && ((#[trigger] done[k]).0 == x as usize || done[k].1 == x as usize);
                        assert(done1[k] == done[k]);
                    }
                }
            }
            let next = pairs@.skip(i + 1);
            assert forall|k: int| 0 <= k < next.len() implies {
                &&& (#[trigger] next[k]).0 != next[k].1
                &&& (next[k].0 as int) < map_region.entries().len()
                &&& (next[k].1 as int) < map_region.entries().len()
                &&& map_region.entries()[next[k].0 as int] is Active
                &&& map_region.entries()[next[k].1 as int] is Active
            } by {
                assert(next[k] == rest[k + 1]);
                assert(rest[0].0 != rest[k + 1].0 && rest[0].0 != rest[k + 1].1);
                assert(rest[0].1 != rest[k + 1].0 && rest[0].1 != rest[k + 1].1);
            }
            assert forall|k: int, l: int| 0 <= k < l < next.len() implies {
                &&& (#[trigger] next[k]).0 != (#[trigger] next[l]).0
                &&& next[k].0 != next[l].1
                &&& next[k].1 != next[l].0
                &&& next[k].1 != next[l].1
            } by {
                assert(next[k] == rest[k + 1]);
                assert(next[l] == rest[l + 1]);
            }
            assert(keeps_removed(entries0, map_region.entries())) by {
                assert forall|k: int| 0 <= k < entries0.len() && #[trigger] map_region.entries()[k] is Active implies entries0[k] is Active by {
                    if k != a as int && k != b as int {
                        assert(map_region.entries()[k] == before[k]);
                    }
                }
                assert forall|k: int| 0 <= k < entries0.len() && #[trigger] entries0[k] is Removed implies map_region.entries()[k] == entries0[k] by {
                    assert(before[k] == entries0[k]);
                    assert(k != a as int && k != b as int);
                }
                assert forall|k: int| 0 <= k < entries0.len() && #[trigger] map_region.entries()[k] is Removed implies entries0[k] is Removed by {
                    assert(k != a as int && k != b as int);
                    assert(map_region.entries()[k] == before[k]);
                }
            }
        }
        i = i + 1;
    }
    proof {
        assert(pairs@.take(pairs@.len() as int) =~= pairs@);
        assert(pairs@.take(0) =~= Seq::<(usize, usize)>::empty());
    }
}

impl MapBuilder {
    /// Walks the active rooms in slot order; a room not yet chosen, with at
    /// least one active neighbour not yet chosen (and not a single cell with
    /// exactly one such neighbour), is paired with chance
    /// `random_room_merge_prob` with one of those neighbours picked at
    /// random. Then each pair is merged into one room. When every roll hits,
    /// no room is left out that could have been paired (see
    /// `random_merge_complete`).
    pub fn merge_random_rooms(map_region: &mut MapRegion, random_room_merge_prob: u32)
        requires
            old(map_region).graph_ok(),
            random_room_merge_prob <= CHANCE_SCALE,
        ensures
            final(map_region).graph_ok(),
            old(map_region).tidy() ==> final(map_region).tidy(),
            final(map_region).origin() == old(map_region).origin(),
            keeps_removed(old(map_region).entries(), final(map_region).entries()),
            active_cells(final(map_region).entries()) == active_cells(old(map_region).entries()),
            exists|pairs: Seq<(usize, usize)>| {
                &&& disjoint_active_pairs(pairs, old(map_region).entries())
                &&& neighbour_pairs(pairs, *old(map_region))
                &&& merged_by(old(map_region).entries(), final(map_region).entries(), pairs)
                &&& final(map_region).neighbour_slots() == slots_merged_by(old(map_region).neighbour_slots(), pairs)
                &&& random_room_merge_prob == CHANCE_SCALE ==> random_merge_complete(*old(map_region), pairs)
            },
            random_room_merge_prob == 0 ==> *final(map_region) == *old(map_region),
    {
        let n = map_region.room_slots();
        let mut chosen: Vec<bool> = Vec::new();
        let mut i: usize = 0;
        while i < n
            invariant
                0 <= i <= n,
                chosen@.len() == i,
                forall|k: int| 0 <= k < i ==> !(#[trigger] chosen@[k]),
            decreases n - i,
        {
            chosen.push(false);
            i = i + 1;
        }
        let ghost entries = map_region.entries();
        let mut pairs: Vec<(usize, usize)> = Vec::new();
        let mut room_id: usize = 0;
        while room_id < n
            invariant
                0 <= room_id <= n,
                n == entries.len(),
                map_region.entries() == entries,
                map_region.graph_ok(),
                random_room_merge_prob <= CHANCE_SCALE,
                chosen@.len() == n,
                disjoint_active_pairs(pairs@, entries),
                forall|k: int| 0 <= k < pairs@.len() ==> chosen@[(#[trigger] pairs@[k]).0 as int] && chosen@[pairs@[k].1 as int],
                *map_region == *old(map_region),
                neighbour_pairs(pairs@, *old(map_region)),
                random_room_merge_prob == 0 ==> pairs@.len() == 0,
                forall|k: int| 0 <= k < pairs@.len() ==> (#[trigger] pairs@[k]).0 < room_id,
                forall|y: int| 0 <= y < n ==> (#[trigger] chosen@[y] <==> in_pairs(pairs@, y as usize)),
                random_room_merge_prob == CHANCE_SCALE ==> forall|x: usize| x < room_id
                    ==> #[trigger] merge_turn_ok(*old(map_region), pairs@, x),
            decreases n - room_id,
        {
            let ghost pairs0 = pairs@;
            let ghost chosen0 = chosen@;
            proof {
                // before this turn, `paired_before` at this room is plain membership
                assert forall|y: usize| paired_before(pairs0, room_id, y) <==> in_pairs(pairs0, y) by {
                    if in_pairs(pairs0, y) {
                        let k = choose|k: int| 0 <= k < pairs0.len() && ((#[trigger] pairs0[k]).0 == y || pairs0[k].1 == y);
                        assert(pairs0[k].0 < room_id);
                    }
                }
            }
            if map_region.is_active(room_id) && !chosen[room_id] {
                proof {
                    assert(crate::map_region::filled(entries[room_id as int]));
                }
                let candidates = map_region.iter_neighbours(room_id);
                let mut neighbour_buffer: Vec<RoomId> = Vec::new();
                let mut j: usize = 0;
                while j < candidates.len()
                    invariant
                        0 <= j <= candidates.len(),
                        room_id < n,
                        n == entries.len(),
                        map_region.entries() == entries,
                        map_region.graph_ok(),
                                entries[room_id as int] is Active,
                        chosen@.len() == n,
                        candidates@.to_set() == map_region.neighbours_of(room_id as int),
                        *map_region == *old(map_region),
                        forall|k: int| 0 <= k < neighbour_buffer@.len() ==> {
                            &&& (#[trigger] neighbour_buffer@[k] as int) < n
                            &&& neighbour_buffer@[k] != room_id
                            &&& entries[neighbour_buffer@[k] as int] is Active
                            &&& !chosen@[neighbour_buffer@[k] as int]
                            &&& map_region.neighbours_of(room_id as int).contains(neighbour_buffer@[k])
                        },
                        candidates@.no_duplicates(),
                        neighbour_buffer@.no_duplicates(),
                        chosen@ == chosen0,
                        forall|y: usize| #[trigger] neighbour_buffer@.contains(y) <==> (candidates@.take(j as int).contains(y)
                            && (y as int) < n && entries[y as int] is Active && !chosen@[y as int]),
                    decreases candidates.len() - j,
                {
                    let c = candidates[j];
                    proof {
                        assert(candidates@.to_set().contains(c));
                        assert(map_region.neighbours_of(room_id as int).contains(c));
                    }
                    let ghost nb0 = neighbour_buffer@;
                    proof {
                        assert(candidates@.take(j + 1) =~= candidates@.take(j as int).push(c));
                        assert(!candidates@.take(j as int).contains(c)) by {
                            if candidates@.take(j as int).contains(c) {
                                let q = choose|q: int| 0 <= q < j && candidates@.take(j as int)[q] == c;
                                assert(candidates@[q] == candidates@[j as int]);
                            }
                        }
                    }
                    if map_region.is_active(c) && !chosen[c] {
                        neighbour_buffer.push(c);
                        proof {
                            crate::seq_facts::lemma_push_no_duplicates(nb0, c);
                        }
                    }
                    proof {
                        assert forall|y: usize| #[trigger] neighbour_buffer@.contains(y) <==> (candidates@.take(j + 1).contains(y)
                            && (y as int) < n && entries[y as int] is Active && !chosen@[y as int]) by {
                            crate::seq_facts::lemma_push_contains(candidates@.take(j as int), c, y);
                            crate::seq_facts::lemma_push_contains(nb0, c, y);
                        }
                    }
                    j = j + 1;
                }
                proof {
                    assert(candidates@.take(candidates@.len() as int) =~= candidates@);
                    // the buffer holds exactly the free neighbours
                    assert forall|y: usize| #[trigger] neighbour_buffer@.contains(y) <==> free_neighbour(*old(map_region), pairs0, room_id, y) by {
                        if map_region.neighbours_of(room_id as int).contains(y) {
                            assert(candidates@.to_set().contains(y));
                            assert((y as int) < n);
                        }
                        if candidates@.contains(y) {
                            assert(candidates@.to_set().contains(y));
                        }
                    }
                }
                let neighbour_count = neighbour_buffer.len();
                let room = map_region.get_active(room_id);
                let single_with_one = room.cells.len() == 1 && neighbour_count == 1;
                if !single_with_one && neighbour_count > 0 && chance(random_room_merge_prob) {
                    let pick = random_usize(0, neighbour_count);
                    let selected = neighbour_buffer[pick];
                    let ghost before = pairs@;
                    let ghost chosen_before = chosen@;
                    proof {
                        assert(!chosen_before[selected as int]);
                        assert(selected != room_id);
                    }
                    chosen.set(room_id, true);
                    chosen.set(selected, true);
                    pairs.push((room_id, selected));
                    proof {
                        assert forall|k: int| 0 <= k < before.len() implies (#[trigger] before[k]).0 != room_id && before[k].1 != room_id
                            && before[k].0 != selected && before[k].1 != selected by {
                            assert(chosen_before[before[k].0 as int] && chosen_before[before[k].1 as int]);
                        }
                        assert forall|k: int, l: int| 0 <= k < l < pairs@.len() implies {
                            &&& (#[trigger] pairs@[k]).0 != (#[trigger] pairs@[l]).0
                            &&& pairs@[k].0 != pairs@[l].1
                            &&& pairs@[k].1 != pairs@[l].0
                            &&& pairs@[k].1 != pairs@[l].1
                        } by {
                            if l == before.len() {
                                assert(pairs@[k] == before[k]);
                            } else {
                                assert(pairs@[k] == before[k]);
                                assert(pairs@[l] == before[l]);
                            }
                        }
                        assert forall|k: int| 0 <= k < pairs@.len() implies chosen@[(#[trigger] pairs@[k]).0 as int] && chosen@[pairs@[k].1 as int] by {
                            if k < before.len() {
                                assert(pairs@[k] == before[k]);
                                assert(chosen_before[before[k].0 as int] && chosen_before[before[k].1 as int]);
                            }
                        }
                        assert forall|k: int| 0 <= k < pairs@.len() implies old(map_region).neighbours_of((#[trigger] pairs@[k]).0 as int).contains(pairs@[k].1) by {
                            if k < before.len() {
                                assert(pairs@[k] == before[k]);
                            }
                        }
                        let p = (room_id, selected);
                        assert(pairs@ == pairs0.push(p));
                        assert forall|k: int| 0 <= k < pairs@.len() implies (#[trigger] pairs@[k]).0 < room_id + 1 by {
                            if k < before.len() {
                                assert(pairs@[k] == before[k]);
                            }
                        }
                        assert forall|y: int| 0 <= y < n implies (#[trigger] chosen@[y] <==> in_pairs(pairs@, y as usize)) by {
                            lemma_in_pairs_push(pairs0, p, y as usize);
                        }
                        lemma_in_pairs_push(pairs0, p, room_id);
                        assert(merge_turn_ok(*old(map_region), pairs@, room_id));
                    }
                } else {
                    proof {
                        if random_room_merge_prob == CHANCE_SCALE {
                            if neighbour_count == 0 {
                                assert forall|y: usize| !#[trigger] free_neighbour(*old(map_region), pairs@, room_id, y) by {
                                    if free_neighbour(*old(map_region), pairs@, room_id, y) {
                                        assert(neighbour_buffer@.contains(y));
                                    }
                                }
                            } else {
                                let y0 = neighbour_buffer@[0];
                                assert(neighbour_buffer@.contains(y0));
                                assert(free_neighbour(*old(map_region), pairs@, room_id, y0));
                                assert forall|z: usize| #[trigger] free_neighbour(*old(map_region), pairs@, room_id, z) implies z == y0 by {
                                    assert(neighbour_buffer@.contains(z));
                                    let q = choose|q: int| 0 <= q < neighbour_buffer@.len() && neighbour_buffer@[q] == z;
                                }
                                assert(entries[room_id as int].spec_room().cells@.len() == 1);
                            }
                            assert(merge_turn_ok(*old(map_region), pairs@, room_id));
                        }
                    }
                }
            } else {
                proof {
                    assert(merge_turn_ok(*old(map_region), pairs@, room_id));
                }
            }
            proof {
                if random_room_merge_prob == CHANCE_SCALE {
                    assert forall|x: usize| x < room_id + 1 implies #[trigger] merge_turn_ok(*old(map_region), pairs@, x) by {
                        if x < room_id && pairs@ != pairs0 {
                            assert(merge_turn_ok(*old(map_region), pairs0, x));
                            assert(pairs@ == pairs0.push(pairs@.last()));
                            lemma_turn_ok_push(*old(map_region), pairs0, pairs@.last(), x);
                        }
                    }
                }
            }
            room_id = room_id + 1;
        }
        merge_pairs(map_region, &pairs);
    }

    /// Walks the active rooms of at most `max_size` cells in slot order; a
    /// room not yet visited is marked visited and paired, with chance
    /// `merge_prob` per candidate, with the first active neighbour, not yet
    /// visited and of at most `max_size` cells, that passes the roll —
    /// unless one of the two is a single cell whose only neighbour is the
    /// other. Each pair is then merged into one room. When every roll hits,
    /// a room left out had only lonely candidates (see
    /// `simple_merge_complete`).
    pub fn merge_repeated_simple_rooms(map_region: &mut MapRegion, max_size: usize, merge_prob: u32)
        requires
            old(map_region).graph_ok(),
            merge_prob <= CHANCE_SCALE,
        ensures
            final(map_region).graph_ok(),
            old(map_region).tidy() ==> final(map_region).tidy(),
            final(map_region).origin() == old(map_region).origin(),
            keeps_removed(old(map_region).entries(), final(map_region).entries()),
            active_cells(final(map_region).entries()) == active_cells(old(map_region).entries()),
            exists|pairs: Seq<(usize, usize)>| {
                &&& disjoint_active_pairs(pairs, old(map_region).entries())
                &&& neighbour_pairs(pairs, *old(map_region))
                &&& forall|k: int| 0 <= k < pairs.len() ==> old(map_region).entries()[(#[trigger] pairs[k]).0 as int].spec_room().cells@.len() <= max_size
                    && old(map_region).entries()[pairs[k].1 as int].spec_room().cells@.len() <= max_size
                &&& merged_by(old(map_region).entries(), final(map_region).entries(), pairs)
                &&& final(map_region).neighbour_slots() == slots_merged_by(old(map_region).neighbour_slots(), pairs)
                &&& merge_prob == CHANCE_SCALE ==> simple_merge_complete(*old(map_region), pairs, max_size)
            },
            merge_prob == 0 ==> *final(map_region) == *old(map_region),
    {
        let n = map_region.room_slots();
        let mut visited: Vec<bool> = Vec::new();
        let mut i: usize = 0;
        while i < n
            invariant
                0 <= i <= n,
                visited@.len() == i,
                forall|k: int| 0 <= k < i ==> !(#[trigger] visited@[k]),
            decreases n - i,
        {
            visited.push(false);
            i = i + 1;
        }
        let ghost entries = map_region.entries();
        let mut pairs: Vec<(usize, usize)> = Vec::new();
        let mut room_id: usize = 0;
        while room_id < n
            invariant
                0 <= room_id <= n,
                n == entries.len(),
                map_region.entries() == entries,
                map_region.graph_ok(),
                merge_prob <= CHANCE_SCALE,
                visited@.len() == n,
                disjoint_active_pairs(pairs@, entries),
                forall|k: int| 0 <= k < pairs@.len() ==> visited@[(#[trigger] pairs@[k]).0 as int] && visited@[pairs@[k].1 as int],
                *map_region == *old(map_region),
                neighbour_pairs(pairs@, *old(map_region)),
                forall|k: int| 0 <= k < pairs@.len() ==> entries[(#[trigger] pairs@[k]).0 as int].spec_room().cells@.len() <= max_size
                    && entries[pairs@[k].1 as int].spec_room().cells@.len() <= max_size,
                merge_prob == 0 ==> pairs@.len() == 0,
                forall|k: int| 0 <= k < pairs@.len() ==> (#[trigger] pairs@[k]).0 < room_id,
                forall|y: int| 0 <= y < n ==> (#[trigger] visited@[y] <==> ((y < room_id && entries[y] is Active
                    && entries[y].spec_room().cells@.len() <= max_size) || in_pairs(pairs@, y as usize))),
                merge_prob == CHANCE_SCALE ==> forall|x: usize| x < room_id
                    ==> #[trigger] simple_turn_ok(*old(map_region), pairs@, max_size, x),
            decreases n - room_id,
        {
            let ghost pairs0 = pairs@;
            let ghost visited0 = visited@;
            proof {
                assert forall|y: usize| paired_before(pairs0, room_id, y) <==> in_pairs(pairs0, y) by {
                    if in_pairs(pairs0, y) {
                        let k = choose|k: int| 0 <= k < pairs0.len() && ((#[trigger] pairs0[k]).0 == y || pairs0[k].1 == y);
                        assert(pairs0[k].0 < room_id);
                    }
                }
            }
            if map_region.is_active(room_id) && !visited[room_id] && map_region.get_active(room_id).cells.len() <= max_size {
                proof {
                    assert(crate::map_region::filled(entries[room_id as int]));
                }
                let ghost pairs_before = pairs@;
                let ghost visited_before = visited@;
                let ghost mut partner: usize = 0;
                visited.set(room_id, true);
                proof {
                    assert forall|k: int| 0 <= k < pairs@.len() implies visited@[(#[trigger] pairs@[k]).0 as int] && visited@[pairs@[k].1 as int] by {
                        assert(visited_before[pairs_before[k].0 as int]);
                    }
                }
                let neighbours = map_region.iter_neighbours(room_id);
                let mut merged = false;
                let mut j: usize = 0;
                while j < neighbours.len() && !merged
                    invariant
                        0 <= j <= neighbours.len(),
                        room_id < n,
                        n == entries.len(),
                        map_region.entries() == entries,
                        map_region.graph_ok(),
                                merge_prob <= CHANCE_SCALE,
                        entries[room_id as int] is Active,
                        visited@.len() == n,
                        !merged ==> visited@ == visited_before.update(room_id as int, true),
                        !visited_before[room_id as int],
                        visited_before.len() == n,
                        !merged ==> pairs@ == pairs_before,
                        merged ==> pairs@ == pairs_before.push((room_id, partner)) && partner != room_id && (partner as int) < n
                            && visited@ == visited_before.update(room_id as int, true).update(partner as int, true),
                        disjoint_active_pairs(pairs@, entries),
                        forall|k: int| 0 <= k < pairs@.len() ==> visited@[(#[trigger] pairs@[k]).0 as int] && visited@[pairs@[k].1 as int],
                        disjoint_active_pairs(pairs_before, entries),
                        forall|k: int| 0 <= k < pairs_before.len() ==> visited_before[(#[trigger] pairs_before[k]).0 as int]
                            && visited_before[pairs_before[k].1 as int],
                        neighbours@.to_set() == map_region.neighbours_of(room_id as int),
                        *map_region == *old(map_region),
                        entries[room_id as int].spec_room().cells@.len() <= max_size,
                        neighbour_pairs(pairs@, *old(map_region)),
                        forall|k: int| 0 <= k < pairs@.len() ==> entries[(#[trigger] pairs@[k]).0 as int].spec_room().cells@.len() <= max_size
                            && entries[pairs@[k].1 as int].spec_room().cells@.len() <= max_size,
                        merge_prob == 0 ==> pairs@.len() == 0,
                        merge_prob == CHANCE_SCALE && !merged ==> forall|y: usize| #[trigger] neighbours@.take(j as int).contains(y)
                            && (y as int) < n && entries[y as int] is Active && entries[y as int].spec_room().cells@.len() <= max_size
                            && !visited@[y as int] ==> lonely_pair(*old(map_region), room_id, y),
                    decreases neighbours.len() - j,
                {
                    let neighbour_id = neighbours[j];
                    proof {
                        assert(neighbours@.to_set().contains(neighbour_id));
                        assert(map_region.neighbours_of(room_id as int).contains(neighbour_id));
                        assert(neighbours@.take(j + 1) =~= neighbours@.take(j as int).push(neighbour_id));
                        assert forall|y: usize| #[trigger] neighbours@.take(j + 1).contains(y) <==> (neighbours@.take(j as int).contains(y)
                            || y == neighbour_id) by {
                            crate::seq_facts::lemma_push_contains(neighbours@.take(j as int), neighbour_id, y);
                        }
                    }
                    if map_region.is_active(neighbour_id) && !visited[neighbour_id] {
                        proof {
                            assert(crate::map_region::filled(entries[neighbour_id as int]));
                        }
                        let room = map_region.get_active(room_id);
                        let neighbour_room = map_region.get_active(neighbour_id);
                        if neighbour_room.cells.len() <= max_size {
                            let room_cells_count = room.cells.len();
                            let room_neighbours_count = set_len(map_region.get_neighbours(room_id));
                            let neighbour_cells_count = neighbour_room.cells.len();
                            let neighbour_neighbours_count = set_len(map_region.get_neighbours(neighbour_id));
                            let lonely = (room_cells_count == 1 && room_neighbours_count == 1)
                                || (neighbour_cells_count == 1 && neighbour_neighbours_count == 1);
                            proof {
                                assert(lonely == lonely_pair(*old(map_region), room_id, neighbour_id));
                            }
                            if !lonely && chance(merge_prob) {
                                let ghost visited_mid = visited@;
                                visited.set(neighbour_id, true);
                                pairs.push((room_id, neighbour_id));
                                proof {
                                    partner = neighbour_id;
                                    assert forall|k: int| 0 <= k < pairs_before.len() implies (#[trigger] pairs_before[k]).0 != room_id
                                        && pairs_before[k].1 != room_id && pairs_before[k].0 != neighbour_id
                                        && pairs_before[k].1 != neighbour_id by {
                                        assert(visited_before[pairs_before[k].0 as int]);
                                        assert(visited_before[pairs_before[k].1 as int]);
                                        assert(!visited_mid[neighbour_id as int]);
                                        assert(visited_mid == visited_before.update(room_id as int, true));
                                    }
                                    assert forall|k: int, l: int| 0 <= k < l < pairs@.len() implies {
                                        &&& (#[trigger] pairs@[k]).0 != (#[trigger] pairs@[l]).0
                                        &&& pairs@[k].0 != pairs@[l].1
                                        &&& pairs@[k].1 != pairs@[l].0
                                        &&& pairs@[k].1 != pairs@[l].1
                                    } by {
                                        assert(pairs@[k] == pairs_before[k]);
                                        if l < pairs_before.len() {
                                            assert(pairs@[l] == pairs_before[l]);
                                        }
                                    }
                                    assert forall|k: int| 0 <= k < pairs@.len() implies visited@[(#[trigger] pairs@[k]).0 as int]
                                        && visited@[pairs@[k].1 as int] by {
                                        if k < pairs_before.len() {
                                            assert(pairs@[k] == pairs_before[k]);
                                            assert(visited_before[pairs_before[k].0 as int]);
                                            assert(visited_before[pairs_before[k].1 as int]);
                                        } else {
                                            assert(pairs@[k] == (room_id, neighbour_id));
                                            assert(neighbour_id != room_id);
                                            assert(visited_mid == visited_before.update(room_id as int, true));
                                            assert((room_id as int) < visited_before.len());
                                            assert(visited_mid[room_id as int]);
                                            assert(visited@[room_id as int]);
                                        }
                                    }
                                }
                                proof {
                                    assert forall|k: int| 0 <= k < pairs@.len() implies old(map_region).neighbours_of((#[trigger] pairs@[k]).0 as int).contains(pairs@[k].1)
                                        && entries[pairs@[k].0 as int].spec_room().cells@.len() <= max_size
                                        && entries[pairs@[k].1 as int].spec_room().cells@.len() <= max_size by {
                                        if k < pairs_before.len() {
                                            assert(pairs@[k] == pairs_before[k]);
                                        }
                                    }
                                }
                                merged = true;
                            }
                        }
                    }
                    j = j + 1;
                }
                proof {
                    if merge_prob == CHANCE_SCALE && !merged {
                        assert(neighbours@.take(neighbours@.len() as int) =~= neighbours@);
                        assert forall|y: usize| #[trigger] small_free_neighbour(*old(map_region), pairs@, max_size, room_id, y)
                            implies lonely_pair(*old(map_region), room_id, y) by {
                            assert(neighbours@.to_set().contains(y));
                            assert(neighbours@.contains(y));
                            assert((y as int) < n);
                            assert(!in_pairs(pairs0, y));
                            assert(!visited@[y as int]);
                        }
                    }
                    if merged {
                        lemma_in_pairs_push(pairs_before, (room_id, partner), room_id);
                    }
                    assert(merge_prob == CHANCE_SCALE ==> simple_turn_ok(*old(map_region), pairs@, max_size, room_id));
                    assert forall|k: int| 0 <= k < pairs@.len() implies (#[trigger] pairs@[k]).0 < room_id + 1 by {
                        if k < pairs_before.len() {
                            assert(pairs@[k] == pairs_before[k]);
                        }
                    }
                    assert forall|y: int| 0 <= y < n implies (#[trigger] visited@[y] <==> ((y < room_id + 1 && entries[y] is Active
                        && entries[y].spec_room().cells@.len() <= max_size) || in_pairs(pairs@, y as usize))) by {
                        if merged {
                            lemma_in_pairs_push(pairs_before, (room_id, partner), y as usize);
                        }
                    }
                }
            } else {
                proof {
                    assert(merge_prob == CHANCE_SCALE ==> simple_turn_ok(*old(map_region), pairs@, max_size, room_id));
                }
            }
            proof {
                if merge_prob == CHANCE_SCALE {
                    assert forall|x: usize| x < room_id + 1 implies #[trigger] simple_turn_ok(*old(map_region), pairs@, max_size, x) by {
                        if x < room_id && pairs@ != pairs0 {
                            assert(simple_turn_ok(*old(map_region), pairs0, max_size, x));
                            assert(pairs@ == pairs0.push(pairs@.last()));
                            lemma_simple_turn_ok_push(*old(map_region), pairs0, pairs@.last(), max_size, x);
                        }
                    }
                }
            }
            room_id = room_id + 1;
        }
        merge_pairs(map_region, &pairs);
    }
}

} // verus!
