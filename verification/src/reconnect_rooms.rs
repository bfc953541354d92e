//! Grouping the active rooms of a region by adjacency and reconnecting the
//! groups through removed rooms.
use vstd::prelude::*;

use crate::builder_config::MapBuilderConfig;
use crate::centers::{coord_sum, mean_center, squared_distance, Vector2};
use crate::map_builder::MapBuilder;
use crate::map_region::{filled, MapRegion, RoomEntry};
use crate::path_queue::{queue_items, queue_new, queue_pop, queue_push_increase, PathQueue};
use crate::rng::{chance, CHANCE_SCALE};
use crate::room_walks::{
    active_connected, filled_connected, joins_two, keeps_active, lemma_active_path_concat, lemma_active_path_frame,
    lemma_active_path_reverse, lemma_fewer_groups, lemma_filled_connected_frame, lemma_groups_count_bound, lemma_joins_frame,
    lemma_path_in_group, lemma_reached_frame, lemma_walk_prefix_active, reached_from, tied_to,
};
use crate::types::RoomId;

verus! {

/// `groups` splits the active rooms of `r` into disjoint, non-empty groups,
/// each closed under active adjacency: an active neighbour of a room of a
/// group is in the same group.
pub open spec fn groups_split_active(groups: Seq<Seq<usize>>, r: MapRegion) -> bool {
    &&& forall|g: int| 0 <= g < groups.len() ==> (#[trigger] groups[g]).len() > 0 && groups[g].no_duplicates()
    &&& forall|g: int, k: int| 0 <= g < groups.len() && 0 <= k < groups[g].len() ==> {
        &&& (#[trigger] groups[g][k] as int) < r.entries().len()
        &&& r.entries()[groups[g][k] as int] is Active
    }
    &&& forall|g: int, h: int, x: usize| 0 <= g < h < groups.len() && #[trigger] groups[g].contains(x) ==> !(#[trigger] groups[h]).contains(x)
    &&& forall|x: int| 0 <= x < r.entries().len() && (#[trigger] r.entries()[x]) is Active ==> exists|g: int| 0 <= g < groups.len() && #[trigger] groups[g].contains(x as usize)
    &&& forall|g: int, x: usize, y: usize| 0 <= g < groups.len() && #[trigger] groups[g].contains(x) && #[trigger] r.neighbours_of(x as int).contains(y)
        && r.entries()[y as int] is Active ==> groups[g].contains(y)
}

/// Whether some group holds `x`.
pub open spec fn prev_contains(groups: Seq<Seq<usize>>, x: usize) -> bool {
    exists|g: int| 0 <= g < groups.len() && #[trigger] groups[g].contains(x)
}

/// `groups_split_active`, with only the active rooms below `upto` sure to
/// be in a group.
pub open spec fn groups_split_active_upto(groups: Seq<Seq<usize>>, r: MapRegion, upto: int) -> bool {
    &&& forall|g: int| 0 <= g < groups.len() ==> (#[trigger] groups[g]).len() > 0 && groups[g].no_duplicates()
    &&& forall|g: int, k: int| 0 <= g < groups.len() && 0 <= k < groups[g].len() ==> {
        &&& (#[trigger] groups[g][k] as int) < r.entries().len()
        &&& r.entries()[groups[g][k] as int] is Active
    }
    &&& forall|g: int, h: int, x: usize| 0 <= g < h < groups.len() && #[trigger] groups[g].contains(x) ==> !(#[trigger] groups[h]).contains(x)
    &&& forall|x: int| 0 <= x < upto && x < r.entries().len() && (#[trigger] r.entries()[x]) is Active ==> prev_contains(groups, x as usize)
    &&& forall|g: int, x: usize, y: usize| 0 <= g < groups.len() && #[trigger] groups[g].contains(x) && #[trigger] r.neighbours_of(x as int).contains(y)
        && r.entries()[y as int] is Active ==> groups[g].contains(y)
}

/// Adding a group of active rooms, disjoint from the others and closed under
/// active adjacency, keeps the groups sound.
proof fn lemma_push_group(prev: Seq<Seq<usize>>, cur: Seq<usize>, r: MapRegion, upto: int)
    requires
        r.graph_ok(),
        groups_split_active_upto(prev, r, upto),
        cur.len() > 0,
        cur.no_duplicates(),
        forall|k: int| 0 <= k < cur.len() ==> (#[trigger] cur[k] as int) < r.entries().len() && r.entries()[cur[k] as int] is Active
            && !prev_contains(prev, cur[k]),
        forall|x: usize, y: usize| #[trigger] cur.contains(x) && #[trigger] r.neighbours_of(x as int).contains(y)
            && r.entries()[y as int] is Active ==> cur.contains(y),
    ensures
        groups_split_active_upto(prev.push(cur), r, upto),
        forall|x: usize| #[trigger] cur.contains(x) ==> prev_contains(prev.push(cur), x),
{
    let next = prev.push(cur);
    assert forall|g: int, h: int, x: usize| 0 <= g < h < next.len() && #[trigger] next[g].contains(x) implies !(#[trigger] next[h]).contains(x) by {
        if h == prev.len() {
            assert(next[g] == prev[g]);
            if cur.contains(x) {
                let k = choose|k: int| 0 <= k < cur.len() && cur[k] == x;
                assert(prev_contains(prev, cur[k]));
            }
        } else {
            assert(next[g] == prev[g]);
            assert(next[h] == prev[h]);
        }
    }
    assert forall|x: int| 0 <= x < upto && x < r.entries().len() && (#[trigger] r.entries()[x]) is Active implies prev_contains(next, x as usize) by {
        let g = choose|g: int| 0 <= g < prev.len() && #[trigger] prev[g].contains(x as usize);
        assert(next[g] == prev[g]);
    }
    assert forall|g: int, x: usize, y: usize| 0 <= g < next.len() && #[trigger] next[g].contains(x) && #[trigger] r.neighbours_of(x as int).contains(y)
        && r.entries()[y as int] is Active implies next[g].contains(y) by {
        if g < prev.len() {
            assert(next[g] == prev[g]);
        }
    }
    assert forall|x: usize| #[trigger] cur.contains(x) implies prev_contains(next, x) by {
        assert(next[prev.len() as int] == cur);
    }
    assert forall|g: int, k: int| 0 <= g < next.len() && 0 <= k < next[g].len() implies {
        &&& (#[trigger] next[g][k] as int) < r.entries().len()
        &&& r.entries()[next[g][k] as int] is Active
    } by {
        if g < prev.len() {
            assert(next[g] == prev[g]);
        }
    }
}

/// The size at or below which a group counts as small: three tenths of the
/// mean group size, rounded down, but at least one.
pub open spec fn small_group_cutoff(total: int, count: int) -> int {
    let c = (3 * total) / (10 * count);
    if c < 1 { 1 } else { c }
}

/// From `old` to `new`, rooms only switch between active and removed: every
/// slot keeps its room, and empty slots stay empty.
pub open spec fn only_toggles(old: Seq<RoomEntry>, new: Seq<RoomEntry>) -> bool {
    &&& new.len() == old.len()
    &&& forall|i: int| 0 <= i < old.len() ==> filled(#[trigger] new[i]) == filled(old[i])
        && (filled(old[i]) ==> new[i].spec_room() == old[i].spec_room())
}

/// `p` is a walk of `r` from `from` to `to`: each room after the first is a
/// neighbour of the one before.
pub open spec fn is_walk(r: MapRegion, p: Seq<usize>, from: usize, to: usize) -> bool {
    &&& p.len() >= 1
    &&& p[0] == from
    &&& p[p.len() - 1] == to
    &&& forall|k: int| 0 <= k < p.len() ==> (#[trigger] p[k] as int) < r.entries().len() && filled(r.entries()[p[k] as int])
    &&& forall|k: int| 0 <= k < p.len() - 1 ==> r.neighbours_of(#[trigger] p[k] as int).contains(p[k + 1])
}

/// `p` is a walk of `r` from `from` to `to` through active rooms only.
pub open spec fn active_path(r: MapRegion, p: Seq<usize>, from: usize, to: usize) -> bool {
    &&& is_walk(r, p, from, to)
    &&& forall|k: int| 0 <= k < p.len() ==> r.entries()[#[trigger] p[k] as int] is Active
}

/// Every room of each group is reached from the group's first room by a
/// walk through active rooms.
pub open spec fn groups_connected(groups: Seq<Seq<usize>>, r: MapRegion) -> bool {
    forall|g: int, x: usize| 0 <= g < groups.len() && #[trigger] groups[g].contains(x)
        ==> exists|p: Seq<usize>| #[trigger] active_path(r, p, groups[g][0], x)
}

/// A walk through active rooms goes on to an active neighbour of its end.
proof fn lemma_active_path_step(r: MapRegion, p: Seq<usize>, from: usize, x: usize, y: usize)
    requires
        active_path(r, p, from, x),
        r.neighbours_of(x as int).contains(y),
        (y as int) < r.entries().len(),
        r.entries()[y as int] is Active,
    ensures
        active_path(r, p.push(y), from, y),
{
    let q = p.push(y);
    assert forall|k: int| 0 <= k < q.len() - 1 implies r.neighbours_of(#[trigger] q[k] as int).contains(q[k + 1]) by {
        if k < p.len() - 1 {
            assert(q[k] == p[k] && q[k + 1] == p[k + 1]);
        } else {
            assert(q[k] == x && q[k + 1] == y);
        }
    }
    assert forall|k: int| 0 <= k < q.len() implies (#[trigger] q[k] as int) < r.entries().len() && filled(r.entries()[q[k] as int])
        && r.entries()[q[k] as int] is Active by {
        if k < p.len() {
            assert(q[k] == p[k]);
        }
    }
}

proof fn lemma_only_toggles_trans(a: Seq<RoomEntry>, b: Seq<RoomEntry>, c: Seq<RoomEntry>)
    requires
        only_toggles(a, b),
        only_toggles(b, c),
    ensures
        only_toggles(a, c),
{
    assert forall|i: int| 0 <= i < a.len() implies filled(#[trigger] c[i]) == filled(a[i])
        && (filled(a[i]) ==> c[i].spec_room() == a[i].spec_room()) by {
        assert(filled(b[i]) == filled(a[i]));
    }
}

/// The sum of the lengths of the groups.
pub open spec fn sum_lens(groups: Seq<Seq<usize>>) -> int
    decreases groups.len(),
{
    if groups.len() == 0 { 0 } else { sum_lens(groups.drop_last()) + groups.last().len() }
}

/// The size at or below which a group of `gs` counts as small.
pub open spec fn group_cutoff(gs: Seq<Seq<usize>>) -> int {
    small_group_cutoff(sum_lens(gs), gs.len() as int)
}

/// Room `x` lies in a group of `gs` of at most `cutoff` rooms.
pub open spec fn in_small_group(gs: Seq<Seq<usize>>, cutoff: int, x: usize) -> bool {
    exists|g: int, k: int| 0 <= g < gs.len() && 0 <= k < gs[g].len() && gs[g].len() <= cutoff && #[trigger] gs[g][k] == x
}

/// The groups longer than `cutoff`, in order.
pub open spec fn keep_big(groups: Seq<Seq<usize>>, cutoff: int) -> Seq<Seq<usize>>
    decreases groups.len(),
{
    if groups.len() == 0 {
        Seq::empty()
    } else if groups.last().len() > cutoff {
        keep_big(groups.drop_last(), cutoff).push(groups.last())
    } else {
        keep_big(groups.drop_last(), cutoff)
    }
}

/// How many entries of `s` hold a value.
pub open spec fn count_some(s: Seq<Option<usize>>) -> nat
    decreases s.len(),
{
    if s.len() == 0 { 0 } else { count_some(s.drop_last()) + if s.last() is Some { 1nat } else { 0nat } }
}

proof fn lemma_count_some_bound(s: Seq<Option<usize>>)
    ensures
        count_some(s) <= s.len(),
    decreases s.len(),
{
    if s.len() > 0 {
        lemma_count_some_bound(s.drop_last());
    }
}

proof fn lemma_count_some_set(s: Seq<Option<usize>>, i: int, v: usize)
    requires
        0 <= i < s.len(),
        s[i] is None,
    ensures
        count_some(s.update(i, Some(v))) == count_some(s) + 1,
    decreases s.len(),
{
    let t = s.update(i, Some(v));
    if i == s.len() - 1 {
        assert(t.drop_last() =~= s.drop_last());
    } else {
        assert(t.drop_last() =~= s.drop_last().update(i, Some(v)));
        lemma_count_some_set(s.drop_last(), i, v);
    }
}

/// The queue of the path search is sound: each item names a stored walk
/// from `origin` that ends at the item's room, with the walk's length
/// encoded in the priority; no walk is shorter than `cur` or longer than one
/// more than the number of rooms visited.
pub open spec fn search_ok(r: MapRegion, origin: usize, items: Map<(usize, usize), usize>, paths: Seq<Vec<usize>>, cur: int, visited_count: int) -> bool {
    &&& items.dom().finite()
    &&& forall|it: (usize, usize)| #[trigger] items.dom().contains(it) ==> {
        &&& (it.1 as int) < paths.len()
        &&& is_walk(r, paths[it.1 as int]@, origin, it.0)
        &&& paths[it.1 as int]@.len() == usize::MAX - items[it]
        &&& cur <= paths[it.1 as int]@.len() <= visited_count + 1
    }
}

/// Every group kept by `keep_big` is one of the groups it was given.
/// The groups kept are those of `gs` above the cutoff of `gs`; none when
/// there is no group.
pub open spec fn big_groups(gs: Seq<Seq<usize>>) -> Seq<Seq<usize>> {
    if gs.len() == 0 { Seq::empty() } else { keep_big(gs, group_cutoff(gs)) }
}

/// Every group kept is larger than the cutoff; no more groups are kept than there were.
proof fn lemma_keep_big_len(groups: Seq<Seq<usize>>, cutoff: int)
    ensures
        keep_big(groups, cutoff).len() <= groups.len(),
        forall|g: int| 0 <= g < keep_big(groups, cutoff).len() ==> (#[trigger] keep_big(groups, cutoff)[g]).len() > cutoff,
    decreases groups.len(),
{
    if groups.len() > 0 {
        lemma_keep_big_len(groups.drop_last(), cutoff);
    }
}

/// A group of `gs` larger than the cutoff is kept.
proof fn lemma_keep_big_keeps(groups: Seq<Seq<usize>>, cutoff: int, h: int)
    requires
        0 <= h < groups.len(),
        groups[h].len() > cutoff,
    ensures
        exists|g: int| 0 <= g < keep_big(groups, cutoff).len() && #[trigger] keep_big(groups, cutoff)[g] == groups[h],
    decreases groups.len(),
{
    let rest = keep_big(groups.drop_last(), cutoff);
    if h == groups.len() - 1 {
        assert(keep_big(groups, cutoff)[rest.len() as int] == groups[h]);
    } else {
        assert(groups.drop_last()[h] == groups[h]);
        lemma_keep_big_keeps(groups.drop_last(), cutoff, h);
        let g = choose|g: int| 0 <= g < rest.len() && #[trigger] rest[g] == groups.drop_last()[h];
        assert(keep_big(groups, cutoff)[g] == rest[g]);
    }
}

proof fn lemma_keep_big_member(groups: Seq<Seq<usize>>, cutoff: int, g: int)
    requires
        0 <= g < keep_big(groups, cutoff).len(),
    ensures
        exists|h: int| 0 <= h < groups.len() && #[trigger] groups[h] == keep_big(groups, cutoff)[g],
    decreases groups.len(),
{
    let rest = keep_big(groups.drop_last(), cutoff);
    if groups.last().len() > cutoff && g == rest.len() {
        assert(groups[groups.len() - 1] == keep_big(groups, cutoff)[g]);
    } else {
        assert(keep_big(groups, cutoff)[g] == rest[g]);
        lemma_keep_big_member(groups.drop_last(), cutoff, g);
        let h = choose|h: int| 0 <= h < groups.drop_last().len() && #[trigger] groups.drop_last()[h] == rest[g];
        assert(groups[h] == groups.drop_last()[h]);
    }
}

/// Whether some queued item of the search ends at room `y`.
pub open spec fn queued(items: Map<(usize, usize), usize>, y: usize) -> bool {
    exists|it: (usize, usize)| #[trigger] items.dom().contains(it) && it.0 == y
}

/// The rooms reached by the search (`visited`) are closed under adjacency,
/// but for the target: every neighbour of a reached room other than
/// `target` is reached or queued.
pub open spec fn reached_closed(r: MapRegion, visited: Seq<Option<usize>>, items: Map<(usize, usize), usize>, target: usize) -> bool {
    forall|x: int, y: usize| 0 <= x < visited.len() && #[trigger] visited[x] is Some && x != target
        && #[trigger] r.neighbours_of(x).contains(y) ==> (y as int) < visited.len() && (visited[y as int] is Some || queued(items, y))
}

/// The search stays closed (`reached_closed`) when it pops an item for
/// `node` and marks `node` reached: items for other rooms stay queued, and a
/// room newly reached other than the target has all its neighbours queued.
proof fn lemma_closed_after_visit(r: MapRegion, v0: Seq<Option<usize>>, v1: Seq<Option<usize>>,
    i0: Map<(usize, usize), usize>, i1: Map<(usize, usize), usize>, node: usize, target: usize, origin: usize)
    requires
        reached_closed(r, v0, i0, target),
        v1.len() == v0.len(),
        (node as int) < v1.len(),
        v1[node as int] is Some,
        forall|x: int| 0 <= x < v0.len() && x != node ==> v1[x] == v0[x],
        forall|it: (usize, usize)| #[trigger] i0.dom().contains(it) && it.0 != node ==> i1.dom().contains(it),
        v0[node as int] is None && node != target ==> forall|y: usize| #[trigger] r.neighbours_of(node as int).contains(y)
            ==> (y as int) < v1.len() && queued(i1, y),
        (origin as int) < v0.len(),
        v0[origin as int] is Some || queued(i0, origin),
    ensures
        reached_closed(r, v1, i1, target),
        v1[origin as int] is Some || queued(i1, origin),
{
    assert forall|x: int, y: usize| 0 <= x < v1.len() && #[trigger] v1[x] is Some && x != target
        && #[trigger] r.neighbours_of(x).contains(y) implies (y as int) < v1.len() && (v1[y as int] is Some || queued(i1, y)) by {
        if x == node as int && v0[node as int] is None {
        } else {
            assert(v0[x] is Some);
            assert((y as int) < v0.len() && (v0[y as int] is Some || queued(i0, y)));
            if y == node {
            } else if v0[y as int] is Some {
                assert(v1[y as int] == v0[y as int]);
            } else {
                let it = choose|it: (usize, usize)| #[trigger] i0.dom().contains(it) && it.0 == y;
                assert(i1.dom().contains(it));
            }
        }
    }
    if origin != node {
        if v0[origin as int] is Some {
            assert(v1[origin as int] == v0[origin as int]);
        } else {
            let it = choose|it: (usize, usize)| #[trigger] i0.dom().contains(it) && it.0 == origin;
            assert(i1.dom().contains(it));
        }
    }
}

/// With nothing queued and the target not reached, a walk from a reached
/// origin stays among reached rooms.
proof fn lemma_walk_reaches(r: MapRegion, visited: Seq<Option<usize>>, items: Map<(usize, usize), usize>, p: Seq<usize>,
    origin: usize, target: usize, k: int)
    requires
        reached_closed(r, visited, items, target),
        items.dom() == Set::<(usize, usize)>::empty(),
        visited.len() == r.entries().len(),
        is_walk(r, p, origin, target),
        visited[origin as int] is Some,
        (target as int) < visited.len() ==> visited[target as int] is None,
        0 <= k < p.len(),
    ensures
        visited[p[k] as int] is Some,
    decreases k,
{
    if k > 0 {
        lemma_walk_reaches(r, visited, items, p, origin, target, k - 1);
        let x = p[k - 1];
        assert(r.neighbours_of(x as int).contains(p[k]));
        assert(visited[x as int] is Some);
        assert(x != target);
        if !(visited[p[k] as int] is Some) {
            assert(queued(items, p[k]));
            let it = choose|it: (usize, usize)| #[trigger] items.dom().contains(it) && it.0 == p[k];
            assert(items.dom().contains(it));
        }
    }
}

/// Some queued item leads to `y` by a walk of at most `bound` rooms.
pub open spec fn queued_within(items: Map<(usize, usize), usize>, paths: Seq<Vec<usize>>, y: usize, bound: int) -> bool {
    exists|it: (usize, usize)| #[trigger] items.dom().contains(it) && it.0 == y && paths[it.1 as int]@.len() <= bound
}

/// Every reached room but `target` has each neighbour reached by a walk at
/// most one room longer, or queued with such a walk.
pub open spec fn frontier_ok(r: MapRegion, visited: Seq<Option<usize>>, items: Map<(usize, usize), usize>,
    paths: Seq<Vec<usize>>, target: usize) -> bool {
    forall|u: int, y: usize| 0 <= u < visited.len() && #[trigger] visited[u] is Some && u != target as int
        && #[trigger] r.neighbours_of(u).contains(y) ==> (y as int) < visited.len() && ((visited[y as int] is Some
            && visited[y as int]->0 <= visited[u]->0 + 1) || queued_within(items, paths, y, visited[u]->0 + 1))
}

/// Popping an item for `node` (and reaching it with a walk of `len` rooms
/// when it was not reached yet, queueing its neighbours one room further)
/// keeps `frontier_ok`.
proof fn lemma_frontier_after_visit(r: MapRegion, v0: Seq<Option<usize>>, v1: Seq<Option<usize>>,
    i0: Map<(usize, usize), usize>, i1: Map<(usize, usize), usize>, p0: Seq<Vec<usize>>, p1: Seq<Vec<usize>>,
    node: usize, target: usize, len: int)
    requires
        frontier_ok(r, v0, i0, p0, target),
        v1.len() == v0.len(),
        (node as int) < v1.len(),
        forall|x: int| 0 <= x < v0.len() && x != node ==> v1[x] == v0[x],
        v0[node as int] is Some ==> v1[node as int] == v0[node as int],
        v0[node as int] is None ==> v1[node as int] == Some(len as usize),
        0 <= len < usize::MAX,
        forall|it: (usize, usize)| #[trigger] i0.dom().contains(it) && it.0 == node ==> v1[node as int]->0 <= p0[it.1 as int]@.len(),
        forall|it: (usize, usize)| #[trigger] i0.dom().contains(it) && it.0 != node ==> i1.dom().contains(it),
        forall|it: (usize, usize)| #[trigger] i0.dom().contains(it) ==> (it.1 as int) < p0.len(),
        p0.len() <= p1.len(),
        forall|k: int| 0 <= k < p0.len() ==> #[trigger] p1[k] == p0[k],
        v0[node as int] is None && node != target ==> forall|y: usize| #[trigger] r.neighbours_of(node as int).contains(y)
            ==> (y as int) < v1.len() && queued_within(i1, p1, y, len + 1),
    ensures
        frontier_ok(r, v1, i1, p1, target),
{
    assert forall|u: int, y: usize| 0 <= u < v1.len() && #[trigger] v1[u] is Some && u != target as int
        && #[trigger] r.neighbours_of(u).contains(y) implies (y as int) < v1.len() && ((v1[y as int] is Some
            && v1[y as int]->0 <= v1[u]->0 + 1) || queued_within(i1, p1, y, v1[u]->0 + 1)) by {
        if u == node as int && v0[node as int] is None {
        } else {
            assert(v0[u] is Some && v1[u] == v0[u]);
            if v0[y as int] is Some && v0[y as int]->0 <= v0[u]->0 + 1 {
                if y != node {
                    assert(v1[y as int] == v0[y as int]);
                }
            } else {
                let it = choose|it: (usize, usize)| #[trigger] i0.dom().contains(it) && it.0 == y && p0[it.1 as int]@.len() <= v0[u]->0 + 1;
                if y == node {
                    assert(v1[node as int]->0 <= p0[it.1 as int]@.len());
                } else {
                    assert(i1.dom().contains(it));
                    assert(p1[it.1 as int] == p0[it.1 as int]);
                }
            }
        }
    }
}

/// While `target` is not reached and every queued walk has at least `len`
/// rooms, each room of a walk from the origin shorter than `len` is
/// reached with a walk no longer than its own place on it.
proof fn lemma_walk_reached_early(r: MapRegion, v: Seq<Option<usize>>, items: Map<(usize, usize), usize>,
    paths: Seq<Vec<usize>>, origin: usize, target: usize, len: int, p: Seq<usize>, k: int)
    requires
        frontier_ok(r, v, items, paths, target),
        v.len() == r.entries().len(),
        (origin as int) < v.len(),
        v[origin as int] == Some(1usize),
        forall|it: (usize, usize)| #[trigger] items.dom().contains(it) ==> paths[it.1 as int]@.len() >= len,
        is_walk(r, p, origin, target),
        p.len() < len,
        (target as int) < v.len(),
        v[target as int] is None,
        0 <= k < p.len(),
    ensures
        v[p[k] as int] is Some,
        v[p[k] as int]->0 <= k + 1,
    decreases k,
{
    if k > 0 {
        lemma_walk_reached_early(r, v, items, paths, origin, target, len, p, k - 1);
        let u = p[k - 1];
        assert(r.neighbours_of(u as int).contains(p[k]));
        assert(u != target);
        if !(v[p[k] as int] is Some && v[p[k] as int]->0 <= v[u as int]->0 + 1) {
            let it = choose|it: (usize, usize)| #[trigger] items.dom().contains(it) && it.0 == p[k]
                && paths[it.1 as int]@.len() <= v[u as int]->0 + 1;
        }
    }
}

/// With `target` not reached yet and every queued walk at least `len` rooms
/// long, no walk from the origin to `target` is shorter than `len`.
proof fn lemma_no_shorter_walk(r: MapRegion, v: Seq<Option<usize>>, items: Map<(usize, usize), usize>,
    paths: Seq<Vec<usize>>, origin: usize, target: usize, len: int, p: Seq<usize>)
    requires
        frontier_ok(r, v, items, paths, target),
        v.len() == r.entries().len(),
        (origin as int) < v.len(),
        v[origin as int] == Some(1usize),
        forall|it: (usize, usize)| #[trigger] items.dom().contains(it) ==> paths[it.1 as int]@.len() >= len,
        is_walk(r, p, origin, target),
        (target as int) < v.len(),
        v[target as int] is None,
    ensures
        p.len() >= len,
{
    if p.len() < len {
        lemma_walk_reached_early(r, v, items, paths, origin, target, len, p, p.len() - 1);
    }
}

/// With nothing queued and the origin reached, a target not reached has no
/// walk to it.
proof fn lemma_unreached_has_no_walk(r: MapRegion, visited: Seq<Option<usize>>, items: Map<(usize, usize), usize>,
    origin: usize, target: usize, p: Seq<usize>)
    requires
        reached_closed(r, visited, items, target),
        items.dom() == Set::<(usize, usize)>::empty(),
        visited.len() == r.entries().len(),
        visited[origin as int] is Some,
        (target as int) < visited.len() ==> visited[target as int] is None,
    ensures
        !is_walk(r, p, origin, target),
{
    if is_walk(r, p, origin, target) {
        lemma_walk_reaches(r, visited, items, p, origin, target, p.len() - 1);
    }
}

/// Whether group `o` may still be paired with group `g`: it is another
/// group, and no pair of `made` joins the two, either way round.
pub open spec fn may_pair(made: Seq<(usize, usize)>, g: usize, o: usize) -> bool {
    o != g && !(exists|k: int| 0 <= k < made.len() && (#[trigger] made[k] == (o, g) || made[k] == (g, o)))
}

/// Among the groups below `bound` that may be paired with `g`, the one whose
/// centre is nearest to `g`'s; the first met of equally near ones.
pub open spec fn nearest_group(centers: Seq<Vector2>, made: Seq<(usize, usize)>, g: usize, bound: int) -> Option<usize>
    decreases bound,
{
    if bound <= 0 {
        None
    } else {
        let prev = nearest_group(centers, made, g, bound - 1);
        let o = (bound - 1) as usize;
        if may_pair(made, g, o) && (prev is None || squared_distance(centers[g as int], centers[o as int])
            < squared_distance(centers[g as int], centers[prev->0 as int])) {
            Some(o)
        } else {
            prev
        }
    }
}

/// The pairs made for the groups below `g`, group by group: each group is
/// paired with its nearest group, and, where `multi` says so, also with the
/// nearest of the groups met before that one.
pub open spec fn closest_pairs(centers: Seq<Vector2>, multi: Seq<bool>, g: int) -> Seq<(usize, usize)>
    decreases g,
{
    if g <= 0 {
        Seq::empty()
    } else {
        let made = closest_pairs(centers, multi, g - 1);
        let h = (g - 1) as usize;
        match nearest_group(centers, made, h, centers.len() as int) {
            None => made,
            Some(c) => {
                let first = made.push((h, c));
                if multi[g - 1] {
                    match nearest_group(centers, made, h, c as int) {
                        Some(s) => first.push((h, s)),
                        None => first,
                    }
                } else {
                    first
                }
            },
        }
    }
}

/// Where some group below `bound` may still be paired with `g`, a nearest one is found.
proof fn lemma_nearest_group_some(centers: Seq<Vector2>, made: Seq<(usize, usize)>, g: usize, bound: int, o: usize)
    requires
        (o as int) < bound,
        may_pair(made, g, o),
    ensures
        nearest_group(centers, made, g, bound) is Some,
    decreases bound,
{
    if (o as int) < bound - 1 {
        lemma_nearest_group_some(centers, made, g, bound - 1, o);
    }
}

/// With two groups or more, the first group gets paired.
proof fn lemma_closest_pairs_nonempty(centers: Seq<Vector2>, multi: Seq<bool>, g: int)
    requires
        1 <= g,
        centers.len() >= 2,
    ensures
        closest_pairs(centers, multi, g).len() >= 1,
    decreases g,
{
    if g == 1 {
        let made = closest_pairs(centers, multi, 0);
        assert(made.len() == 0);
        lemma_nearest_group_some(centers, made, 0, centers.len() as int, 1);
    } else {
        lemma_closest_pairs_nonempty(centers, multi, g - 1);
    }
}

proof fn lemma_nearest_group_bound(centers: Seq<Vector2>, made: Seq<(usize, usize)>, g: usize, bound: int)
    ensures
        nearest_group(centers, made, g, bound) matches Some(o) ==> (o as int) < bound && may_pair(made, g, o),
    decreases bound,
{
    if bound > 0 {
        lemma_nearest_group_bound(centers, made, g, bound - 1);
    }
}

proof fn lemma_closest_pairs_frame(centers: Seq<Vector2>, m1: Seq<bool>, m2: Seq<bool>, g: int)
    requires
        forall|k: int| 0 <= k < g ==> m1[k] == m2[k],
    ensures
        closest_pairs(centers, m1, g) == closest_pairs(centers, m2, g),
    decreases g,
{
    if g > 0 {
        lemma_closest_pairs_frame(centers, m1, m2, g - 1);
    }
}

/// The views of a vector of groups.
pub open spec fn group_views(groups: Seq<Vec<usize>>) -> Seq<Seq<usize>> {
    Seq::new(groups.len(), |i: int| groups[i]@)
}

/// How many entries of `s` are true.
pub open spec fn count_true(s: Seq<bool>) -> nat
    decreases s.len(),
{
    if s.len() == 0 { 0 } else { count_true(s.drop_last()) + if s.last() { 1nat } else { 0nat } }
}

pub(crate) proof fn lemma_count_true_bound(s: Seq<bool>)
    ensures
        count_true(s) <= s.len(),
    decreases s.len(),
{
    if s.len() > 0 {
        lemma_count_true_bound(s.drop_last());
    }
}

pub(crate) proof fn lemma_count_true_set(s: Seq<bool>, i: int)
    requires
        0 <= i < s.len(),
        !s[i],
    ensures
        count_true(s.update(i, true)) == count_true(s) + 1,
    decreases s.len(),
{
    let t = s.update(i, true);
    if i == s.len() - 1 {
        assert(t.drop_last() =~= s.drop_last());
    } else {
        assert(t.drop_last() =~= s.drop_last().update(i, true));
        lemma_count_true_set(s.drop_last(), i);
    }
}

/// Two rooms of a group of `r0` are joined by a walk through active rooms
/// of `r1` when every room of the group is still active there.
proof fn lemma_group_walks(groups: Seq<Seq<usize>>, r0: MapRegion, r1: MapRegion, g: int, x: usize, y: usize)
    requires
        groups_split_active(groups, r0),
        groups_connected(groups, r0),
        r0.graph_ok(),
        r0.neighbour_slots() == r1.neighbour_slots(),
        r0.entries().len() == r1.entries().len(),
        0 <= g < groups.len(),
        groups[g].contains(x),
        groups[g].contains(y),
        forall|z: usize| #[trigger] groups[g].contains(z) ==> r1.entries()[z as int] is Active,
    ensures
        exists|p: Seq<usize>| #[trigger] active_path(r1, p, x, y),
{
    let first = groups[g][0];
    let px = choose|p: Seq<usize>| #[trigger] active_path(r0, p, first, x);
    let py = choose|p: Seq<usize>| #[trigger] active_path(r0, p, first, y);
    assert(groups[g].len() > 0);
    assert(groups[g].contains(first));
    lemma_path_in_group(groups, r0, g, px, first, x);
    lemma_path_in_group(groups, r0, g, py, first, y);
    lemma_active_path_reverse(r0, px, first, x);
    let rx = px.reverse();
    assert forall|k: int| 0 <= k < rx.len() implies groups[g].contains(#[trigger] rx[k]) by {
        assert(rx[k] == px[px.len() - 1 - k]);
    }
    lemma_active_path_concat(r0, rx, py, x, first, y);
    let w = rx + py.skip(1);
    assert forall|k: int| 0 <= k < w.len() implies r1.entries()[#[trigger] w[k] as int] is Active by {
        if k < rx.len() {
            assert(w[k] == rx[k]);
        } else {
            assert(w[k] == py[k - rx.len() + 1]);
        }
    }
    lemma_active_path_frame(r0, r1, w, x, y);
}

/// With at most one group left, every active room of `r1` in it, and all
/// of its rooms still active, the active rooms are all joined.
/// Some room of group `i` and some room of group `j` of `groups` are joined
/// by a walk through active rooms of `r`.
pub open spec fn groups_linked(r: MapRegion, groups: Seq<Seq<usize>>, i: int, j: int) -> bool {
    exists|a: usize, b: usize, p: Seq<usize>| #![trigger groups[i].contains(a), groups[j].contains(b), active_path(r, p, a, b)]
        groups[i].contains(a) && groups[j].contains(b) && active_path(r, p, a, b)
}

/// `rc` gives each room of `r` the centre of its cells (`cells_center`).
pub open spec fn room_centers_of(r: MapRegion, rc: Seq<Vector2>) -> bool {
    &&& rc.len() == r.entries().len()
    &&& forall|k: int| 0 <= k < rc.len() && filled(r.entries()[k]) ==> #[trigger] rc[k] == crate::centers::cells_center(r.entries()[k].spec_room().cells@)
}

/// The centre of each group: the mean of its rooms' centres `rc`.
pub open spec fn group_centers_of(groups: Seq<Seq<usize>>, rc: Seq<Vector2>) -> Seq<Vector2> {
    groups.map_values(|g: Seq<usize>| mean_center(g, rc))
}

/// Each pair of nearest groups (`closest_pairs` over the groups' centres,
/// with `multi` saying which groups link to more than their nearest) is
/// joined in `b` by a walk through active rooms; the room centres `rc` are
/// those of `a`'s rooms, and `multi` is all false when `link_chance` is 0
/// and all true when it is certain.
pub open spec fn nearest_groups_linked(a: MapRegion, b: MapRegion, bg: Seq<Seq<usize>>, link_chance: u32, rc: Seq<Vector2>, multi: Seq<bool>) -> bool {
    let pairs = closest_pairs(group_centers_of(bg, rc), multi, bg.len() as int);
    &&& room_centers_of(a, rc)
    &&& multi.len() == bg.len()
    &&& link_chance == 0 ==> forall|k: int| 0 <= k < multi.len() ==> !#[trigger] multi[k]
    &&& link_chance == CHANCE_SCALE ==> forall|k: int| 0 <= k < multi.len() ==> #[trigger] multi[k]
    &&& forall|k: int| 0 <= k < pairs.len() ==> groups_linked(b, bg, (#[trigger] pairs[k]).0 as int, pairs[k].1 as int)
}

/// Makes every removed room on `path` active again; nothing else changes.
fn open_path(map_region: &mut MapRegion, path: &Vec<RoomId>)
    requires
        old(map_region).graph_ok(),
        forall|k: int| 0 <= k < path@.len() ==> (#[trigger] path@[k] as int) < old(map_region).entries().len()
            && filled(old(map_region).entries()[path@[k] as int]),
    ensures
        final(map_region).graph_ok(),
        old(map_region).tidy() ==> final(map_region).tidy(),
        final(map_region).origin() == old(map_region).origin(),
        only_toggles(old(map_region).entries(), final(map_region).entries()),
        keeps_active(*old(map_region), *final(map_region)),
        forall|k: int| 0 <= k < path@.len() ==> final(map_region).entries()[#[trigger] path@[k] as int] is Active,
        forall|y: int| 0 <= y < old(map_region).entries().len() && #[trigger] final(map_region).entries()[y] is Active
            ==> old(map_region).entries()[y] is Active || exists|k: int| 0 <= k < path@.len() && path@[k] == y as usize,
{
    let ghost r0 = *map_region;
    let mut q: usize = 0;
    while q < path.len()
        invariant
            0 <= q <= path.len(),
            map_region.graph_ok(),
            r0 == *old(map_region),
            r0.tidy() ==> map_region.tidy(),
            map_region.origin() == r0.origin(),
            only_toggles(r0.entries(), map_region.entries()),
            keeps_active(r0, *map_region),
            forall|k: int| 0 <= k < path@.len() ==> (#[trigger] path@[k] as int) < map_region.entries().len()
                && filled(map_region.entries()[path@[k] as int]),
            forall|k: int| 0 <= k < q ==> map_region.entries()[#[trigger] path@[k] as int] is Active,
            forall|y: int| 0 <= y < r0.entries().len() && #[trigger] map_region.entries()[y] is Active
                ==> r0.entries()[y] is Active || exists|k: int| 0 <= k < q && path@[k] == y as usize,
        decreases path.len() - q,
    {
        let id = path[q];
        let ghost c1 = *map_region;
        if map_region.is_removed(id) {
            map_region.mark_active(id);
            proof {
                lemma_only_toggles_trans(r0.entries(), c1.entries(), map_region.entries());
                assert forall|k: int| 0 <= k < path@.len() implies (#[trigger] path@[k] as int) < map_region.entries().len()
                    && filled(map_region.entries()[path@[k] as int]) by {
                    assert(filled(c1.entries()[path@[k] as int]));
                }
            }
        }
        proof {
            assert(filled(c1.entries()[id as int]));
            assert(map_region.entries()[id as int] is Active);
            assert forall|k: int| 0 <= k < q + 1 implies map_region.entries()[#[trigger] path@[k] as int] is Active by {
                if k < q {
                    assert(c1.entries()[path@[k] as int] is Active);
                }
            }
            assert forall|y: int| 0 <= y < r0.entries().len() && #[trigger] map_region.entries()[y] is Active
                implies r0.entries()[y] is Active || exists|k: int| 0 <= k < q + 1 && path@[k] == y as usize by {
                if y == id as int {
                    assert(path@[q as int] == y as usize);
                } else {
                    assert(c1.entries()[y] is Active);
                }
            }
        }
        q = q + 1;
    }
}

proof fn lemma_linked_frame(r1: MapRegion, r2: MapRegion, groups: Seq<Seq<usize>>, i: int, j: int)
    requires
        keeps_active(r1, r2),
        groups_linked(r1, groups, i, j),
    ensures
        groups_linked(r2, groups, i, j),
{
    let (a, b, p) = choose|a: usize, b: usize, p: Seq<usize>| #![trigger groups[i].contains(a), groups[j].contains(b), active_path(r1, p, a, b)]
        groups[i].contains(a) && groups[j].contains(b) && active_path(r1, p, a, b);
    assert forall|k: int| 0 <= k < p.len() implies r2.entries()[#[trigger] p[k] as int] is Active by {
        assert(r1.entries()[p[k] as int] is Active);
    }
    lemma_active_path_frame(r1, r2, p, a, b);
}

/// Room `x` is the only room of one of `gs`.
pub open spec fn single_room(gs: Seq<Seq<usize>>, x: usize) -> bool {
    exists|g: int| 0 <= g < gs.len() && (#[trigger] gs[g]).len() == 1 && gs[g][0] == x
}

/// `kept` is `gs` without its single-room groups, in order: `src` gives
/// for each kept group where it stands in `gs`.
pub open spec fn kept_by(gs: Seq<Seq<usize>>, kept: Seq<Seq<usize>>, src: Seq<int>) -> bool {
    &&& src.len() == kept.len()
    &&& forall|h: int| 0 <= h < src.len() ==> 0 <= #[trigger] src[h] < gs.len() && gs[src[h]].len() > 1 && kept[h] == gs[src[h]]
    &&& forall|h1: int, h2: int| 0 <= h1 < h2 < src.len() ==> #[trigger] src[h1] < #[trigger] src[h2]
    &&& forall|g: int| 0 <= g < gs.len() && (#[trigger] gs[g]).len() > 1 ==> exists|h: int| 0 <= h < src.len() && src[h] == g
}

/// One round of `reconnect_room_groups` from `a` to `b`, `gs` being the
/// groups of active rooms of `a` and `kept` those of more than one room:
/// the rooms of single-room groups are removed; when `more` (more than one
/// group kept), the groups are connected as `connect_room_groups` says:
/// every room of a kept group outside the small ones stays active, and every
/// room active in `b` is such a room or is reached by a walk through active
/// rooms from a room of a big group; and, when every two filled rooms are
/// joined by a walk, each pair of nearest big groups is joined (see
/// `nearest_groups_linked`, at `link_chance`). Without `more`, nothing else
/// changes.
pub open spec fn reconnect_round(a: MapRegion, b: MapRegion, more: bool, link_chance: u32) -> bool {
    exists|gs: Seq<Seq<usize>>, kept: Seq<Seq<usize>>, src: Seq<int>|
        #![trigger groups_split_active(gs, a), kept_by(gs, kept, src)]
    {
        &&& groups_split_active(gs, a)
        &&& kept_by(gs, kept, src)
        &&& more == (kept.len() > 1)
        &&& only_toggles(a.entries(), b.entries())
        &&& b.neighbour_slots() == a.neighbour_slots()
        &&& forall|x: int| 0 <= x < a.entries().len() && #[trigger] a.entries()[x] is Active && !single_room(gs, x as usize)
            && (more ==> !in_small_group(kept, group_cutoff(kept), x as usize)) ==> b.entries()[x] is Active
        &&& forall|y: int| 0 <= y < a.entries().len() && #[trigger] b.entries()[y] is Active ==> {
            ||| a.entries()[y] is Active && !single_room(gs, y as usize) && (more ==> !in_small_group(kept, group_cutoff(kept), y as usize))
            ||| more && reached_from(b, big_groups(kept), y as usize)
        }
        &&& more && filled_connected(a) ==> exists|rc: Seq<Vector2>, multi: Seq<bool>|
            #[trigger] nearest_groups_linked(a, b, big_groups(kept), link_chance, rc, multi)
    }
}

/// Whether step `i` of a trace of `n` states connected groups: all but the
/// last one of a `closed` trace do.
pub open spec fn connect_step(closed: bool, i: int, n: int) -> bool {
    !(closed && i == n - 2)
}

/// `trace` runs the rounds of `reconnect_room_groups` from `a` to `b`: each
/// step is a round (see `reconnect_round`), all connecting groups but, when
/// `closed`, the last, which found one group or none left; a trace that is
/// not closed used up all `slots + 1` rounds.
pub open spec fn reconnect_trace(a: MapRegion, b: MapRegion, trace: Seq<MapRegion>, closed: bool, link_chance: u32) -> bool {
    &&& trace.len() >= 1
    &&& trace[0] == a
    &&& trace.last() == b
    &&& forall|i: int| 0 <= i < trace.len() - 1 ==> #[trigger] reconnect_round(trace[i], trace[i + 1],
        connect_step(closed, i, trace.len() as int), link_chance)
    &&& closed ==> trace.len() >= 2
    &&& !closed ==> trace.len() == a.entries().len() + 2
}

proof fn lemma_round(groups0: Seq<Seq<usize>>, r0: MapRegion, src: Seq<int>, gs: Seq<Seq<usize>>,
    r1: MapRegion, r2: MapRegion, more: bool, link_chance: u32)
    requires
        r0.entries().len() < usize::MAX,
        more && filled_connected(r1) ==> exists|rc: Seq<Vector2>, multi: Seq<bool>|
            #[trigger] nearest_groups_linked(r1, r2, big_groups(gs), link_chance, rc, multi),
        groups_split_active(groups0, r0),
        kept_by(groups0, gs, src),
        more == (gs.len() > 1),
        only_toggles(r0.entries(), r1.entries()),
        r1.neighbour_slots() == r0.neighbour_slots(),
        forall|x: int| 0 <= x < r0.entries().len() && #[trigger] r1.entries()[x] != r0.entries()[x]
            ==> exists|g2: int| 0 <= g2 < groups0.len() && (#[trigger] groups0[g2]).len() == 1 && groups0[g2][0] == x as usize,
        forall|g2: int| 0 <= g2 < groups0.len() && (#[trigger] groups0[g2]).len() == 1 ==> r1.entries()[groups0[g2][0] as int] is Removed,
        !more ==> r2 == r1,
        more ==> only_toggles(r1.entries(), r2.entries()) && r2.neighbour_slots() == r1.neighbour_slots(),
        more ==> forall|x: int| 0 <= x < r1.entries().len() && #[trigger] r1.entries()[x] is Active
            && !in_small_group(gs, group_cutoff(gs), x as usize) ==> r2.entries()[x] is Active,
        more ==> forall|y: int| 0 <= y < r1.entries().len() && #[trigger] r2.entries()[y] is Active
            ==> (r1.entries()[y] is Active && !in_small_group(gs, group_cutoff(gs), y as usize))
            || reached_from(r2, big_groups(gs), y as usize),
    ensures
        reconnect_round(r0, r2, more, link_chance),
{
    if more {
        lemma_only_toggles_trans(r0.entries(), r1.entries(), r2.entries());
    }
    assert forall|x: int| 0 <= x < r0.entries().len() && #[trigger] r0.entries()[x] is Active && !single_room(groups0, x as usize)
        implies r1.entries()[x] is Active by {
        if r1.entries()[x] != r0.entries()[x] {
            let g2 = choose|g2: int| 0 <= g2 < groups0.len() && (#[trigger] groups0[g2]).len() == 1 && groups0[g2][0] == x as usize;
        }
    }
    assert forall|y: int| 0 <= y < r0.entries().len() && #[trigger] r1.entries()[y] is Active
        implies r0.entries()[y] is Active && !single_room(groups0, y as usize) by {
        if r1.entries()[y] != r0.entries()[y] {
            let g2 = choose|g2: int| 0 <= g2 < groups0.len() && (#[trigger] groups0[g2]).len() == 1 && groups0[g2][0] == y as usize;
            assert(r1.entries()[groups0[g2][0] as int] is Removed);
        }
        if single_room(groups0, y as usize) {
            let g2 = choose|g2: int| 0 <= g2 < groups0.len() && (#[trigger] groups0[g2]).len() == 1 && groups0[g2][0] == y as usize;
            assert(r1.entries()[groups0[g2][0] as int] is Removed);
        }
    }
    if more && filled_connected(r0) {
        lemma_filled_connected_frame(r0, r1);
        let (rc, multi) = choose|rc: Seq<Vector2>, multi: Seq<bool>| #[trigger] nearest_groups_linked(r1, r2, big_groups(gs), link_chance, rc, multi);
        assert(room_centers_of(r0, rc)) by {
            assert forall|k: int| 0 <= k < rc.len() && filled(r0.entries()[k])
                implies #[trigger] rc[k] == crate::centers::cells_center(r0.entries()[k].spec_room().cells@) by {
                assert(filled(r1.entries()[k]));
            }
        }
        assert(nearest_groups_linked(r0, r2, big_groups(gs), link_chance, rc, multi));
    }
    assert(groups_split_active(groups0, r0) && kept_by(groups0, gs, src));
}

proof fn lemma_one_group_connected(groups0: Seq<Seq<usize>>, r0: MapRegion, src: Seq<int>, gs: Seq<Seq<usize>>, r1: MapRegion)
    requires
        groups_split_active(groups0, r0),
        groups_connected(groups0, r0),
        r0.graph_ok(),
        r0.neighbour_slots() == r1.neighbour_slots(),
        r0.entries().len() == r1.entries().len(),
        gs.len() == src.len(),
        gs.len() <= 1,
        forall|h: int| 0 <= h < src.len() ==> 0 <= #[trigger] src[h] < groups0.len() && gs[h] == groups0[src[h]],
        forall|y: int| 0 <= y < r1.entries().len() && #[trigger] r1.entries()[y] is Active ==> exists|h: int| 0 <= h < gs.len() && #[trigger] gs[h].contains(y as usize),
        forall|h: int, x: usize| 0 <= h < gs.len() && #[trigger] gs[h].contains(x) ==> r1.entries()[x as int] is Active,
    ensures
        active_connected(r1),
{
    assert forall|x: usize, y: usize| (x as int) < r1.entries().len() && (y as int) < r1.entries().len()
        && #[trigger] r1.entries()[x as int] is Active && #[trigger] r1.entries()[y as int] is Active
        implies exists|p: Seq<usize>| #[trigger] active_path(r1, p, x, y) by {
        let hx = choose|h: int| 0 <= h < gs.len() && #[trigger] gs[h].contains(x as int as usize);
        let hy = choose|h: int| 0 <= h < gs.len() && #[trigger] gs[h].contains(y as int as usize);
        assert(hx == 0 && hy == 0);
        assert forall|z: usize| #[trigger] groups0[src[0]].contains(z) implies r1.entries()[z as int] is Active by {
            assert(gs[0].contains(z));
        }
        lemma_group_walks(groups0, r0, r1, src[0], x, y);
    }
}

/// One round of reconnecting, from the groups `groups0` of `r0` through the
/// groups `gs` of two rooms or more (the others' rooms removed, giving
/// `r1`) to `r2` after `connect_room_groups`, leaves fewer groups.
proof fn lemma_round_progress(groups0: Seq<Seq<usize>>, r0: MapRegion, src: Seq<int>, gs: Seq<Seq<usize>>,
    r1: MapRegion, r2: MapRegion, newg: Seq<Seq<usize>>)
    requires
        groups_split_active(groups0, r0),
        groups_connected(groups0, r0),
        r0.graph_ok(),
        r0.neighbour_slots() == r1.neighbour_slots(),
        r1.neighbour_slots() == r2.neighbour_slots(),
        r0.entries().len() == r1.entries().len(),
        r1.entries().len() == r2.entries().len(),
        gs.len() == src.len(),
        gs.len() >= 2,
        forall|h: int| 0 <= h < src.len() ==> 0 <= #[trigger] src[h] < groups0.len() && gs[h] == groups0[src[h]],
        forall|h1: int, h2: int| 0 <= h1 < h2 < src.len() ==> #[trigger] src[h1] < #[trigger] src[h2],
        forall|y: int| 0 <= y < r1.entries().len() && #[trigger] r1.entries()[y] is Active ==> exists|h: int| 0 <= h < gs.len() && #[trigger] gs[h].contains(y as usize),
        forall|h: int, x: usize| 0 <= h < gs.len() && #[trigger] gs[h].contains(x) ==> r1.entries()[x as int] is Active,
        forall|x: int| 0 <= x < r1.entries().len() && #[trigger] r1.entries()[x] is Active
            && !in_small_group(gs, group_cutoff(gs), x as usize) ==> r2.entries()[x] is Active,
        forall|y: int| 0 <= y < r1.entries().len() && #[trigger] r2.entries()[y] is Active
            ==> (r1.entries()[y] is Active && !in_small_group(gs, group_cutoff(gs), y as usize))
            || reached_from(r2, big_groups(gs), y as usize),
        big_groups(gs).len() >= 2 ==> joins_two(r2, big_groups(gs)),
        r2.graph_ok(),
        groups_split_active(newg, r2),
    ensures
        newg.len() <= gs.len() - 1,
{
    let cutoff = group_cutoff(gs);
    let big = big_groups(gs);
    lemma_keep_big_len(gs, cutoff);
    // the groups of `gs` are disjoint
    assert forall|h1: int, h2: int, x: usize| 0 <= h1 < gs.len() && 0 <= h2 < gs.len() && #[trigger] gs[h1].contains(x)
        && #[trigger] gs[h2].contains(x) implies h1 == h2 by {
        if h1 < h2 {
            assert(src[h1] < src[h2]);
        } else if h2 < h1 {
            assert(src[h2] < src[h1]);
        }
    }
    // rooms of a kept group stay active
    assert forall|g: int, x: usize| 0 <= g < big.len() && #[trigger] big[g].contains(x)
        implies (x as int) < r2.entries().len() && r2.entries()[x as int] is Active by {
        lemma_keep_big_member(gs, cutoff, g);
        let h = choose|h: int| 0 <= h < gs.len() && #[trigger] gs[h] == big[g];
        assert(gs[h].contains(x));
        let k = choose|k: int| 0 <= k < groups0[src[h]].len() && groups0[src[h]][k] == x;
        assert(groups0[src[h]][k] == x);
        if in_small_group(gs, cutoff, x) {
            let (g2, k2) = choose|g2: int, k2: int| 0 <= g2 < gs.len() && 0 <= k2 < gs[g2].len() && gs[g2].len() <= cutoff
                && #[trigger] gs[g2][k2] == x;
            assert(gs[g2].contains(x));
        }
    }
    assert forall|g: int, x: usize| 0 <= g < big.len() && #[trigger] big[g].contains(x)
        implies exists|p: Seq<usize>| #[trigger] active_path(r2, p, big[g][0], x) by {
        lemma_keep_big_member(gs, cutoff, g);
        let h = choose|h: int| 0 <= h < gs.len() && #[trigger] gs[h] == big[g];
        assert(big[g].len() > 0);
        assert(big[g].contains(big[g][0]));
        assert forall|z: usize| #[trigger] groups0[src[h]].contains(z) implies r2.entries()[z as int] is Active by {
            assert(big[g].contains(z));
        }
        lemma_group_walks(groups0, r0, r2, src[h], big[g][0], x);
    }
    assert forall|y: int| 0 <= y < r2.entries().len() && #[trigger] r2.entries()[y] is Active
        implies (exists|g: int| 0 <= g < big.len() && #[trigger] big[g].contains(y as usize)) || reached_from(r2, big, y as usize) by {
        if !reached_from(r2, big, y as usize) {
            let h = choose|h: int| 0 <= h < gs.len() && #[trigger] gs[h].contains(y as usize);
            if gs[h].len() <= cutoff {
                let k = choose|k: int| 0 <= k < gs[h].len() && gs[h][k] == y as usize;
                assert(gs[h][k] == y as usize);
                assert(in_small_group(gs, cutoff, y as usize));
            }
            lemma_keep_big_keeps(gs, cutoff, h);
            let g = choose|g: int| 0 <= g < big.len() && #[trigger] big[g] == gs[h];
            assert(big[g].contains(y as usize));
        }
    }
    assert forall|g: int| 0 <= g < big.len() implies (#[trigger] big[g]).len() > 0 by {}
    assert(tied_to(big, r2, newg));
    lemma_fewer_groups(big, r2, newg);
}

impl MapBuilder {
    /// Splits the active rooms into groups of rooms joined through active
    /// neighbours: each group is found by a depth-first walk from its
    /// lowest room not yet grouped.
    #[verifier::rlimit(50)]
    pub fn generate_room_groups(map_region: &MapRegion) -> (groups: Vec<Vec<RoomId>>)
        requires
            map_region.graph_ok(),
        ensures
            groups_split_active(group_views(groups@), *map_region),
            groups_connected(group_views(groups@), *map_region),
    {
        let n = map_region.room_slots();
        let ghost r = *map_region;
        let mut marked: Vec<bool> = Vec::new();
        let mut i: usize = 0;
        while i < n
            invariant
                0 <= i <= n,
                marked@.len() == i,
                forall|k: int| 0 <= k < i ==> !(#[trigger] marked@[k]),
                count_true(marked@) == 0,
            decreases n - i,
        {
            let ghost before = marked@;
            marked.push(false);
            proof {
                assert(marked@.drop_last() =~= before);
            }
            i = i + 1;
        }
        let mut marked_count: usize = 0;
        let mut groups: Vec<Vec<RoomId>> = Vec::new();
        let mut root: usize = 0;
        while root < n
            invariant
                0 <= root <= n,
                n == r.entries().len(),
                *map_region == r,
                r.graph_ok(),
                marked@.len() == n,
                marked_count == count_true(marked@),
                groups_split_active_upto(group_views(groups@), r, root as int),
                groups_connected(group_views(groups@), r),
                forall|x: int| 0 <= x < n ==> (#[trigger] marked@[x] <==> prev_contains(group_views(groups@), x as usize)),
            decreases n - root,
        {
            let ghost prev = group_views(groups@);
            if map_region.is_active(root) && !marked[root] {
                let mut cur: Vec<RoomId> = Vec::new();
                let mut stack: Vec<RoomId> = Vec::new();
                stack.push(root);
                proof {
                    lemma_count_true_bound(marked@);
                    assert(active_path(r, seq![root], root, root));
                    assert(stack@ == seq![root]);
                    assert forall|z: usize| #[trigger] stack@.contains(z) implies z == root by {}
                }
                while stack.len() > 0
                    invariant
                        n == r.entries().len(),
                        *map_region == r,
                        r.graph_ok(),
                        root < n,
                        r.entries()[root as int] is Active,
                        marked@.len() == n,
                        marked_count == count_true(marked@),
                        marked_count <= n,
                        group_views(groups@) == prev,
                        groups_split_active_upto(prev, r, root as int),
                        cur@.no_duplicates(),
                        forall|k: int| 0 <= k < cur@.len() ==> (#[trigger] cur@[k] as int) < n && r.entries()[cur@[k] as int] is Active
                            && !prev_contains(prev, cur@[k]),
                        forall|k: int| 0 <= k < stack@.len() ==> (#[trigger] stack@[k] as int) < n && r.entries()[stack@[k] as int] is Active
                            && !prev_contains(prev, stack@[k]),
                        forall|x: int| 0 <= x < n ==> (#[trigger] marked@[x] <==> (prev_contains(prev, x as usize) || cur@.contains(x as usize))),
                        forall|x: usize, y: usize| #[trigger] cur@.contains(x) && #[trigger] r.neighbours_of(x as int).contains(y)
                            && r.entries()[y as int] is Active ==> cur@.contains(y) || stack@.contains(y),
                        cur@.len() == 0 ==> stack@ == seq![root],
                        cur@.len() > 0 ==> cur@.contains(root),
                        cur@.len() > 0 ==> cur@[0] == root,
                        forall|z: usize| #[trigger] cur@.contains(z) ==> exists|p: Seq<usize>| #[trigger] active_path(r, p, root, z),
                        forall|z: usize| #[trigger] stack@.contains(z) ==> exists|p: Seq<usize>| #[trigger] active_path(r, p, root, z),
                        !prev_contains(prev, root),
                    decreases n - marked_count, stack@.len(),
                {
                    let ghost pre_stack = stack@;
                    let x = stack.pop().unwrap();
                    let ghost st0 = stack@;
                    proof {
                        assert(pre_stack == st0.push(x));
                        assert(pre_stack[pre_stack.len() - 1] == x);
                        assert forall|z: usize| #[trigger] pre_stack.contains(z) implies z == x || st0.contains(z) by {
                            let q = choose|q: int| 0 <= q < pre_stack.len() && pre_stack[q] == z;
                            if q < st0.len() {
                                assert(st0[q] == z);
                            }
                        }
                        assert forall|z: usize| #[trigger] st0.contains(z) implies pre_stack.contains(z) by {
                            let q = choose|q: int| 0 <= q < st0.len() && st0[q] == z;
                            assert(pre_stack[q] == z);
                        }
                        assert(pre_stack.contains(x));
                    }
                    if !marked[x] {
                        let ghost before_marked = marked@;
                        let ghost before_cur = cur@;
                        proof {
                            lemma_count_true_set(marked@, x as int);
                            lemma_count_true_bound(marked@.update(x as int, true));
                            assert(!cur@.contains(x));
                        }
                        marked.set(x, true);
                        marked_count = marked_count + 1;
                        cur.push(x);
                        proof {
                            crate::seq_facts::lemma_push_no_duplicates(before_cur, x);
                            assert forall|z: usize| #[trigger] cur@.contains(z) <==> (before_cur.contains(z) || z == x) by {
                                crate::seq_facts::lemma_push_contains(before_cur, x, z);
                            }
                            assert(cur@.contains(root)) by {
                                if before_cur.len() == 0 {
                                    assert(pre_stack == seq![root]);
                                    assert(x == root);
                                }
                            }
                        }
                        let neighbours = map_region.iter_neighbours(x);
                        let mut j: usize = 0;
                        while j < neighbours.len()
                            invariant
                                0 <= j <= neighbours.len(),
                                n == r.entries().len(),
                                *map_region == r,
                                r.graph_ok(),
                                marked@.len() == n,
                                (x as int) < n,
                                r.entries()[x as int] is Active,
                                cur@.contains(x),
                                !prev_contains(prev, x),
                                groups_split_active_upto(prev, r, root as int),
                                neighbours@.to_set() == r.neighbours_of(x as int),
                                forall|k: int| 0 <= k < stack@.len() ==> (#[trigger] stack@[k] as int) < n && r.entries()[stack@[k] as int] is Active
                                    && !prev_contains(prev, stack@[k]),
                                forall|k: int| 0 <= k < j ==> (r.entries()[(#[trigger] neighbours@[k]) as int] is Active
                                    ==> cur@.contains(neighbours@[k]) || stack@.contains(neighbours@[k])),
                                forall|z: usize| #[trigger] st0.contains(z) ==> stack@.contains(z),
                                forall|x2: int| 0 <= x2 < n ==> (#[trigger] marked@[x2] <==> (prev_contains(prev, x2 as usize) || cur@.contains(x2 as usize))),
                                forall|z: usize| #[trigger] cur@.contains(z) ==> exists|p: Seq<usize>| #[trigger] active_path(r, p, root, z),
                                forall|z: usize| #[trigger] stack@.contains(z) ==> exists|p: Seq<usize>| #[trigger] active_path(r, p, root, z),
                                cur@.len() > 0 && cur@[0] == root,
                            decreases neighbours.len() - j,
                        {
                            let y = neighbours[j];
                            proof {
                                assert(neighbours@.to_set().contains(y));
                                assert(r.neighbours_of(x as int).contains(y));
                            }
                            if map_region.is_active(y) && !marked[y] {
                                let ghost before_stack = stack@;
                                stack.push(y);
                                proof {
                                    let px = choose|p: Seq<usize>| #[trigger] active_path(r, p, root, x);
                                    lemma_active_path_step(r, px, root, x, y);
                                    assert forall|z: usize| #[trigger] stack@.contains(z) implies exists|p: Seq<usize>| #[trigger] active_path(r, p, root, z) by {
                                        crate::seq_facts::lemma_push_contains(before_stack, y, z);
                                        if z == y {
                                            assert(active_path(r, px.push(y), root, y));
                                        }
                                    }
                                    assert(!prev_contains(prev, y)) by {
                                        if prev_contains(prev, y) {
                                            let g = choose|g: int| 0 <= g < prev.len() && #[trigger] prev[g].contains(y);
                                            assert(r.neighbours_of(y as int).contains(x));
                                            assert(prev[g].contains(x));
                                        }
                                    }
                                    assert forall|z: usize| #[trigger] before_stack.contains(z) implies stack@.contains(z) by {
                                        let q = choose|q: int| 0 <= q < before_stack.len() && before_stack[q] == z;
                                        assert(stack@[q] == z);
                                    }
                                    assert(stack@[before_stack.len() as int] == y);
                                }
                            } else {
                                proof {
                                    if r.entries()[y as int] is Active {
                                        assert(marked@[y as int]);
                                        assert(!prev_contains(prev, y)) by {
                                            if prev_contains(prev, y) {
                                                let g = choose|g: int| 0 <= g < prev.len() && #[trigger] prev[g].contains(y);
                                                assert(r.neighbours_of(y as int).contains(x));
                                                assert(prev[g].contains(x));
                                            }
                                        }
                                        assert(cur@.contains(y));
                                    }
                                }
                            }
                            j = j + 1;
                        }
                        proof {
                            assert forall|x1: usize, y1: usize| #[trigger] cur@.contains(x1) && #[trigger] r.neighbours_of(x1 as int).contains(y1)
                                && r.entries()[y1 as int] is Active implies cur@.contains(y1) || stack@.contains(y1) by {
                                if x1 == x {
                                    assert(neighbours@.to_set().contains(y1));
                                    let k = choose|k: int| 0 <= k < neighbours@.len() && neighbours@[k] == y1;
                                    assert(neighbours@[k] == y1);
                                } else {
                                    assert(before_cur.contains(x1));
                                    assert(before_cur.contains(y1) || pre_stack.contains(y1));
                                    if pre_stack.contains(y1) && y1 != x {
                                        assert(st0.contains(y1));
                                    }
                                }
                            }
                        }
                    } else {
                        proof {
                            assert(cur@.contains(x));
                            assert forall|x1: usize, y1: usize| #[trigger] cur@.contains(x1) && #[trigger] r.neighbours_of(x1 as int).contains(y1)
                                && r.entries()[y1 as int] is Active implies cur@.contains(y1) || stack@.contains(y1) by {
                                if pre_stack.contains(y1) && y1 != x {
                                    assert(st0.contains(y1));
                                }
                            }
                        }
                    }
                }
                proof {
                    assert(cur@.contains(root));
                    lemma_push_group(prev, cur@, r, root as int);
                }
                groups.push(cur);
                proof {
                    assert(group_views(groups@) =~= prev.push(cur@));
                    assert forall|x: int| 0 <= x < n implies (#[trigger] marked@[x] <==> prev_contains(group_views(groups@), x as usize)) by {
                        if prev_contains(prev, x as usize) {
                            let g = choose|g: int| 0 <= g < prev.len() && #[trigger] prev[g].contains(x as usize);
                            assert(group_views(groups@)[g] == prev[g]);
                        }
                        if prev_contains(group_views(groups@), x as usize) {
                            let g = choose|g: int| 0 <= g < group_views(groups@).len() && #[trigger] group_views(groups@)[g].contains(x as usize);
                            if g < prev.len() {
                                assert(group_views(groups@)[g] == prev[g]);
                            }
                        }
                    }
                    assert(prev_contains(group_views(groups@), root));
                }
            }
            proof {
                assert forall|x: int| 0 <= x < root + 1 && x < r.entries().len() && (#[trigger] r.entries()[x]) is Active
                    implies prev_contains(group_views(groups@), x as usize) by {
                    if x == root as int {
                        if marked@[x] {
                        }
                    }
                }
            }
            root = root + 1;
        }
        groups
    }

    /// A shortest walk from `origin_idx` to `target_idx` through neighbouring
    /// rooms, active or removed, found by a search that always extends the
    /// shortest walk queued; empty when there is none.
    #[verifier::rlimit(100)]
    pub fn get_path_between_rooms(origin_idx: usize, target_idx: usize, map_region: &MapRegion) -> (path: Vec<usize>)
        requires
            map_region.graph_ok(),
            origin_idx < map_region.entries().len(),
            filled(map_region.entries()[origin_idx as int]),
            map_region.entries().len() + 3 < usize::MAX,
        ensures
            path@.len() == 0 || is_walk(*map_region, path@, origin_idx, target_idx),
            path@.len() == 0 ==> forall|p: Seq<usize>| !is_walk(*map_region, p, origin_idx, target_idx),
            path@.len() > 0 ==> forall|p: Seq<usize>| #[trigger] is_walk(*map_region, p, origin_idx, target_idx) ==> path@.len() <= p.len(),
    {
        let ghost r = *map_region;
        let n = map_region.room_slots();
        let mut visited: Vec<Option<usize>> = Vec::new();
        let mut i: usize = 0;
        while i < n
            invariant
                0 <= i <= n,
                visited@.len() == i,
                forall|k: int| 0 <= k < i ==> (#[trigger] visited@[k]) is None,
                count_some(visited@) == 0,
            decreases n - i,
        {
            let ghost before = visited@;
            visited.push(None);
            proof {
                assert(visited@.drop_last() =~= before);
            }
            i = i + 1;
        }
        let mut paths: Vec<Vec<usize>> = Vec::new();
        let mut first: Vec<usize> = Vec::new();
        first.push(origin_idx);
        paths.push(first);
        let mut queue: PathQueue = queue_new();
        queue_push_increase(&mut queue, (origin_idx, 0), usize::MAX - 1);
        let mut visited_count: usize = 0;
        let mut smallest_cost: usize = usize::MAX;
        let mut shortest_path: Vec<usize> = Vec::new();
        let ghost mut cur: int = 1;
        proof {
            assert(queue_items(queue).dom() =~= Set::<(usize, usize)>::empty().insert((origin_idx, 0usize)));
            assert(is_walk(r, paths@[0]@, origin_idx, origin_idx));
            assert(queue_items(queue).dom().contains((origin_idx, 0usize)));
            assert(queue_items(queue).dom() =~= set![(origin_idx, 0usize)]);
        }
        loop
            invariant
                n == r.entries().len(),
                *map_region == r,
                r.graph_ok(),
                n + 3 < usize::MAX,
                visited@.len() == n,
                visited_count == count_some(visited@),
                visited_count <= n,
                forall|k: int| 0 <= k < n && #[trigger] visited@[k] is Some ==> visited@[k]->0 <= cur,
                1 <= cur,
                search_ok(r, origin_idx, queue_items(queue), paths@, cur, visited_count as int),
                shortest_path@.len() == 0 || is_walk(r, shortest_path@, origin_idx, target_idx),
                (origin_idx as int) < n,
                reached_closed(r, visited@, queue_items(queue), target_idx),
                visited@[origin_idx as int] is Some || queued(queue_items(queue), origin_idx),
                (target_idx as int) < n && visited@[target_idx as int] is Some ==> shortest_path@.len() > 0,
                smallest_cost < usize::MAX ==> (target_idx as int) < n && visited@[target_idx as int] is Some,
                frontier_ok(r, visited@, queue_items(queue), paths@, target_idx),
                visited@[origin_idx as int] is Some ==> visited@[origin_idx as int] == Some(1usize),
                visited@[origin_idx as int] is None ==> queue_items(queue).dom() == set![(origin_idx, 0usize)] && paths@[0]@.len() == 1,
                shortest_path@.len() > 0 ==> forall|p: Seq<usize>| #[trigger] is_walk(r, p, origin_idx, target_idx) ==> shortest_path@.len() <= p.len(),
            ensures
                queue_items(queue).dom() == Set::<(usize, usize)>::empty(),
            decreases n - visited_count, queue_items(queue).dom().len(),
        {
            let ghost v0 = visited@;
            let ghost i0 = queue_items(queue);
            let ghost p0 = paths@;
            let popped = queue_pop(&mut queue);
            match popped {
                None => {
                    break;
                },
                Some(((node, pid), priority)) => {
                    let ghost items_before = queue_items(queue).insert((node, pid), priority);
                    let ghost i_pop = queue_items(queue);
                    let path_len = usize::MAX - priority;
                    proof {
                        assert(i0 == items_before);
                        assert(p0[pid as int]@.len() == path_len);
                        assert forall|it: (usize, usize)| #[trigger] i0.dom().contains(it) implies p0[it.1 as int]@.len() >= path_len by {
                            assert(i0[it] <= priority);
                        }
                        if v0[origin_idx as int] is None {
                            assert(i0.dom().contains((node, pid)));
                            assert(set![(origin_idx, 0usize)].contains((node, pid)));
                            assert(node == origin_idx && pid == 0);
                        }
                        assert(queue_items(queue).dom().len() < items_before.dom().len()) by {
                            assert(items_before.dom() =~= queue_items(queue).dom().insert((node, pid)));
                            assert(!queue_items(queue).dom().contains((node, pid)));
                        }
                    }
                    let should_visit = match visited[node] {
                        Some(cost) => cost > path_len,
                        None => true,
                    };
                    if should_visit {
                        proof {
                            assert(visited@[node as int] is None);
                            lemma_count_some_set(visited@, node as int, path_len);
                            lemma_count_some_bound(visited@.update(node as int, Some(path_len)));
                        }
                        visited.set(node, Some(path_len));
                        visited_count = visited_count + 1;
                        proof {
                            cur = path_len as int;
                            assert forall|it: (usize, usize)| #[trigger] queue_items(queue).dom().contains(it) implies
                                cur <= paths@[it.1 as int]@.len() by {
                                assert(items_before.dom().contains(it));
                                assert(items_before[it] <= priority);
                            }
                        }
                        if node == target_idx && path_len < smallest_cost {
                            smallest_cost = path_len + 1;
                            shortest_path = paths[pid].clone();
                            proof {
                                assert(shortest_path@ =~= paths@[pid as int]@);
                                assert(i0 == items_before);
                                assert forall|it: (usize, usize)| #[trigger] i0.dom().contains(it) && it.0 != node implies queue_items(queue).dom().contains(it) by {
                                    assert(it != (node, pid));
                                }
                                lemma_closed_after_visit(r, v0, visited@, i0, queue_items(queue), node, target_idx, origin_idx);
                                lemma_frontier_after_visit(r, v0, visited@, i0, queue_items(queue), p0, paths@, node, target_idx, path_len as int);
                                assert forall|p: Seq<usize>| #[trigger] is_walk(r, p, origin_idx, target_idx) implies shortest_path@.len() <= p.len() by {
                                    if origin_idx != target_idx {
                                        lemma_no_shorter_walk(r, v0, i0, p0, origin_idx, target_idx, path_len as int, p);
                                    }
                                }
                            }
                        } else {
                            proof {
                                assert(node != target_idx) by {
                                    if node == target_idx {
                                        assert(smallest_cost < usize::MAX);
                                        assert(v0[node as int] is Some);
                                    }
                                }
                            }
                            let neighbours = map_region.iter_neighbours(node);
                            let mut j: usize = 0;
                            while j < neighbours.len()
                                invariant
                                    0 <= j <= neighbours.len(),
                                    n == r.entries().len(),
                                    *map_region == r,
                                    r.graph_ok(),
                                    n + 3 < usize::MAX,
                                    (pid as int) < paths@.len(),
                                    is_walk(r, paths@[pid as int]@, origin_idx, node),
                                    paths@[pid as int]@.len() == path_len,
                                    path_len <= visited_count,
                                    visited_count <= n,
                                    neighbours@.to_set() == r.neighbours_of(node as int),
                                    search_ok(r, origin_idx, queue_items(queue), paths@, cur, visited_count as int),
                                    cur == path_len,
                                    queue_items(queue).dom().len() <= items_before.dom().len() + j,
                                    forall|k: int| 0 <= k < j ==> queued(queue_items(queue), #[trigger] neighbours@[k]),
                                    forall|it: (usize, usize)| #[trigger] i_pop.dom().contains(it) ==> queue_items(queue).dom().contains(it),
                                    forall|k: int| 0 <= k < j ==> queued_within(queue_items(queue), paths@, #[trigger] neighbours@[k], path_len + 1),
                                    p0.len() <= paths@.len(),
                                    forall|k: int| 0 <= k < p0.len() ==> #[trigger] paths@[k] == p0[k],
                                decreases neighbours.len() - j,
                            {
                                let nb = neighbours[j];
                                proof {
                                    assert(neighbours@.to_set().contains(nb));
                                    assert(r.neighbours_of(node as int).contains(nb));
                                }
                                let mut new_path = paths[pid].clone();
                                let ghost base = paths@[pid as int]@;
                                proof {
                                    assert(new_path@ =~= base);
                                }
                                new_path.push(nb);
                                let new_pid = paths.len();
                                let ghost paths_before = paths@;
                                paths.push(new_path);
                                let ghost items_mid = queue_items(queue);
                                proof {
                                    assert(!items_mid.dom().contains((nb, new_pid)));
                                    assert(is_walk(r, paths@[new_pid as int]@, origin_idx, nb)) by {
                                        let p = paths@[new_pid as int]@;
                                        assert(p == base.push(nb));
                                        assert forall|k: int| 0 <= k < p.len() implies (#[trigger] p[k] as int) < r.entries().len() && filled(r.entries()[p[k] as int]) by {
                                            if k < base.len() {
                                                assert(p[k] == base[k]);
                                            }
                                        }
                                        assert forall|k: int| 0 <= k < p.len() - 1 implies r.neighbours_of(#[trigger] p[k] as int).contains(p[k + 1]) by {
                                            if k < base.len() - 1 {
                                                assert(p[k] == base[k]);
                                                assert(p[k + 1] == base[k + 1]);
                                            } else {
                                                assert(p[k] == base[base.len() - 1]);
                                            }
                                        }
                                    }
                                }
                                queue_push_increase(&mut queue, (nb, new_pid), usize::MAX - (path_len + 1));
                                proof {
                                    assert(queue_items(queue) == items_mid.insert((nb, new_pid), (usize::MAX - (path_len + 1)) as usize));
                                    assert forall|it: (usize, usize)| #[trigger] queue_items(queue).dom().contains(it) implies {
                                        &&& (it.1 as int) < paths@.len()
                                        &&& is_walk(r, paths@[it.1 as int]@, origin_idx, it.0)
                                        &&& paths@[it.1 as int]@.len() == usize::MAX - queue_items(queue)[it]
                                        &&& cur <= paths@[it.1 as int]@.len() <= visited_count + 1
                                    } by {
                                        if it != (nb, new_pid) {
                                            assert(items_mid.dom().contains(it));
                                            assert(paths@[it.1 as int] == paths_before[it.1 as int]);
                                        }
                                    }
                                    assert forall|k: int| 0 <= k < j + 1 implies queued(queue_items(queue), #[trigger] neighbours@[k]) by {
                                        if k == j as int {
                                            assert(queue_items(queue).dom().contains((nb, new_pid)));
                                        } else {
                                            assert(queued(items_mid, neighbours@[k]));
                                            let it = choose|it: (usize, usize)| #[trigger] items_mid.dom().contains(it) && it.0 == neighbours@[k];
                                            assert(queue_items(queue).dom().contains(it));
                                        }
                                    }
                                    assert forall|k: int| 0 <= k < j + 1 implies queued_within(queue_items(queue), paths@, #[trigger] neighbours@[k], path_len + 1) by {
                                        if k == j as int {
                                            assert(queue_items(queue).dom().contains((nb, new_pid)));
                                            assert(paths@[new_pid as int]@.len() == path_len + 1);
                                        } else {
                                            let it = choose|it: (usize, usize)| #[trigger] items_mid.dom().contains(it) && it.0 == neighbours@[k]
                                                && paths_before[it.1 as int]@.len() <= path_len + 1;
                                            assert(queue_items(queue).dom().contains(it));
                                            assert(paths@[it.1 as int] == paths_before[it.1 as int]);
                                        }
                                    }
                                    assert forall|k: int| 0 <= k < p0.len() implies #[trigger] paths@[k] == p0[k] by {
                                        assert(paths@[k] == paths_before[k]);
                                    }
                                }
                                j = j + 1;
                            }
                            proof {
                                assert(i0 == items_before);
                                assert forall|it: (usize, usize)| #[trigger] i0.dom().contains(it) && it.0 != node implies queue_items(queue).dom().contains(it) by {
                                    assert(it != (node, pid));
                                    assert(i_pop.dom().contains(it));
                                }
                                assert forall|y: usize| #[trigger] r.neighbours_of(node as int).contains(y)
                                    implies (y as int) < visited@.len() && queued(queue_items(queue), y) by {
                                    assert(neighbours@.to_set().contains(y));
                                    let k = choose|k: int| 0 <= k < neighbours@.len() && neighbours@[k] == y;
                                    assert(queued(queue_items(queue), neighbours@[k]));
                                    assert(filled(r.entries()[node as int]));
                                }
                                lemma_closed_after_visit(r, v0, visited@, i0, queue_items(queue), node, target_idx, origin_idx);
                                assert forall|y: usize| #[trigger] r.neighbours_of(node as int).contains(y)
                                    implies (y as int) < visited@.len() && queued_within(queue_items(queue), paths@, y, path_len + 1) by {
                                    assert(neighbours@.to_set().contains(y));
                                    let k = choose|k: int| 0 <= k < neighbours@.len() && neighbours@[k] == y;
                                    assert(queued_within(queue_items(queue), paths@, neighbours@[k], path_len + 1));
                                    assert(filled(r.entries()[node as int]));
                                }
                                assert forall|it: (usize, usize)| #[trigger] i0.dom().contains(it) && it.0 != node implies queue_items(queue).dom().contains(it) by {
                                    assert(it != (node, pid));
                                    assert(i_pop.dom().contains(it));
                                }
                                lemma_frontier_after_visit(r, v0, visited@, i0, queue_items(queue), p0, paths@, node, target_idx, path_len as int);
                            }
                        }
                    } else {
                        proof {
                            assert(visited@[node as int] is Some);
                            assert forall|it: (usize, usize)| #[trigger] queue_items(queue).dom().contains(it) implies {
                                &&& (it.1 as int) < paths@.len()
                                &&& is_walk(r, paths@[it.1 as int]@, origin_idx, it.0)
                                &&& paths@[it.1 as int]@.len() == usize::MAX - queue_items(queue)[it]
                                &&& cur <= paths@[it.1 as int]@.len() <= visited_count + 1
                            } by {
                                assert(items_before.dom().contains(it));
                            }
                            assert(i0 == items_before);
                            assert forall|it: (usize, usize)| #[trigger] i0.dom().contains(it) && it.0 != node implies queue_items(queue).dom().contains(it) by {
                                assert(it != (node, pid));
                            }
                            lemma_closed_after_visit(r, v0, visited@, i0, queue_items(queue), node, target_idx, origin_idx);
                            assert forall|it: (usize, usize)| #[trigger] i0.dom().contains(it) && it.0 == node implies visited@[node as int]->0 <= p0[it.1 as int]@.len() by {
                                assert(p0[it.1 as int]@.len() >= path_len);
                            }
                            lemma_frontier_after_visit(r, v0, visited@, i0, queue_items(queue), p0, paths@, node, target_idx, path_len as int);
                        }
                    }
                },
            }
        }
        proof {
            if shortest_path@.len() == 0 {
                assert(visited@[origin_idx as int] is Some) by {
                    if !(visited@[origin_idx as int] is Some) {
                        let it = choose|it: (usize, usize)| #[trigger] queue_items(queue).dom().contains(it) && it.0 == origin_idx;
                        assert(queue_items(queue).dom().contains(it));
                    }
                }
                assert forall|p: Seq<usize>| !is_walk(*map_region, p, origin_idx, target_idx) by {
                    lemma_unreached_has_no_walk(r, visited@, queue_items(queue), origin_idx, target_idx, p);
                }
            }
        }
        shortest_path
    }

    /// The centre of every slot's room (the origin for an empty slot), and
    /// of every group: the mean of its rooms' centres, rounded down.
    pub fn generate_group_centers(map_region: &MapRegion, room_groups: &Vec<Vec<RoomId>>) -> (r: (Vec<Vector2>, Vec<Vector2>))
        requires
            forall|g: int, k: int| 0 <= g < room_groups@.len() && 0 <= k < room_groups@[g]@.len() ==>
                (#[trigger] room_groups@[g]@[k] as int) < map_region.entries().len(),
        ensures
            r.0@.len() == room_groups@.len(),
            r.1@.len() == map_region.entries().len(),
            forall|k: int| 0 <= k < r.1@.len() ==> (#[trigger] r.1@[k]).in_grid(),
            forall|k: int| 0 <= k < r.0@.len() ==> (#[trigger] r.0@[k]).in_grid(),
            forall|k: int| 0 <= k < r.1@.len() && filled(map_region.entries()[k]) ==>
                #[trigger] r.1@[k] == crate::centers::cells_center(map_region.entries()[k].spec_room().cells@),
            forall|g: int| 0 <= g < r.0@.len() ==> #[trigger] r.0@[g] == mean_center(room_groups@[g]@, r.1@),
    {
        let n = map_region.room_slots();
        let mut room_centers: Vec<Vector2> = Vec::new();
        let mut i: usize = 0;
        while i < n
            invariant
                0 <= i <= n,
                n == map_region.entries().len(),
                room_centers@.len() == i,
                forall|k: int| 0 <= k < i ==> (#[trigger] room_centers@[k]).in_grid(),
                forall|k: int| 0 <= k < i && filled(map_region.entries()[k]) ==>
                    #[trigger] room_centers@[k] == crate::centers::cells_center(map_region.entries()[k].spec_room().cells@),
            decreases n - i,
        {
            if map_region.is_empty(i) {
                room_centers.push(Vector2::new(0, 0));
            } else {
                room_centers.push(map_region.get_room(i).get_center());
            }
            i = i + 1;
        }
        let mut group_centers: Vec<Vector2> = Vec::new();
        let mut g: usize = 0;
        while g < room_groups.len()
            invariant
                0 <= g <= room_groups.len(),
                n == map_region.entries().len(),
                room_centers@.len() == n,
                forall|k: int| 0 <= k < n ==> (#[trigger] room_centers@[k]).in_grid(),
                forall|g2: int, k: int| 0 <= g2 < room_groups@.len() && 0 <= k < room_groups@[g2]@.len() ==>
                    (#[trigger] room_groups@[g2]@[k] as int) < n,
                group_centers@.len() == g,
                forall|k: int| 0 <= k < g ==> (#[trigger] group_centers@[k]).in_grid(),
                forall|k: int| 0 <= k < g ==> #[trigger] group_centers@[k] == mean_center(room_groups@[k]@, room_centers@),
            decreases room_groups.len() - g,
        {
            let group = &room_groups[g];
            let mut sx: u128 = 0;
            let mut sy: u128 = 0;
            let mut k: usize = 0;
            while k < group.len()
                invariant
                    0 <= k <= group.len(),
                    group@ == room_groups@[g as int]@,
                    (g as int) < room_groups@.len(),
                    room_centers@.len() == n,
                    forall|q: int| 0 <= q < n ==> (#[trigger] room_centers@[q]).in_grid(),
                    forall|g2: int, q: int| 0 <= g2 < room_groups@.len() && 0 <= q < room_groups@[g2]@.len() ==>
                        (#[trigger] room_groups@[g2]@[q] as int) < n,
                    sx <= k * (0xffff_ffff * 100),
                    sy <= k * (0xffff_ffff * 100),
                    sx == coord_sum(group@.take(k as int), room_centers@, true),
                    sy == coord_sum(group@.take(k as int), room_centers@, false),
                decreases group.len() - k,
            {
                let c = room_centers[group[k]];
                proof {
                    assert(group@.take(k + 1).drop_last() =~= group@.take(k as int));
                    assert(group@.take(k + 1).last() == group@[k as int]);
                    assert(sx + c.x <= (k + 1) * (0xffff_ffff * 100)) by (nonlinear_arith)
                        requires
                            sx <= k * (0xffff_ffff * 100),
                            c.x <= 0xffff_ffff * 100,
                    ;
                    assert(sy + c.y <= (k + 1) * (0xffff_ffff * 100)) by (nonlinear_arith)
                        requires
                            sy <= k * (0xffff_ffff * 100),
                            c.y <= 0xffff_ffff * 100,
                    ;
                    assert((k + 1) * (0xffff_ffff * 100) <= 0xffff_ffff_ffff_ffff * (0xffff_ffff * 100)) by (nonlinear_arith)
                        requires
                            k < usize::MAX,
                    ;
                }
                sx = sx + c.x as u128;
                sy = sy + c.y as u128;
                k = k + 1;
            }
            let count = group.len() as u128;
            proof {
                assert(group@.take(group@.len() as int) =~= group@);
            }
            if count == 0 {
                group_centers.push(Vector2::new(0, 0));
            } else {
                proof {
                    assert((sx as int) / (count as int) <= 0xffff_ffff * 100) by (nonlinear_arith)
                        requires
                            sx <= count * (0xffff_ffff * 100),
                            count >= 1,
                    ;
                    assert((sy as int) / (count as int) <= 0xffff_ffff * 100) by (nonlinear_arith)
                        requires
                            sy <= count * (0xffff_ffff * 100),
                            count >= 1,
                    ;
                }
                group_centers.push(Vector2::new((sx / count) as u64, (sy / count) as u64));
            }
            g = g + 1;
        }
        (group_centers, room_centers)
    }

    /// Pairs every group with the group whose centre is nearest to its own
    /// (the first met among equally near ones), and — with chance
    /// `group_loop_connection_chance` — also with the group that was nearest
    /// just before that one was met; a pair already made, either way round,
    /// is not made again.
    pub fn generate_closest_groups(group_centers: &Vec<Vector2>, group_loop_connection_chance: u32) -> (pairs: Vec<(usize, usize)>)
        requires
            group_loop_connection_chance <= CHANCE_SCALE,
            forall|k: int| 0 <= k < group_centers@.len() ==> (#[trigger] group_centers@[k]).in_grid(),
        ensures
            forall|k: int| 0 <= k < pairs@.len() ==> (#[trigger] pairs@[k]).0 != pairs@[k].1
                && (pairs@[k].0 as int) < group_centers@.len() && (pairs@[k].1 as int) < group_centers@.len(),
            exists|multi: Seq<bool>| {
                &&& multi.len() == group_centers@.len()
                &&& group_loop_connection_chance == 0 ==> forall|k: int| 0 <= k < multi.len() ==> !#[trigger] multi[k]
                &&& group_loop_connection_chance == CHANCE_SCALE ==> forall|k: int| 0 <= k < multi.len() ==> #[trigger] multi[k]
                &&& pairs@ == closest_pairs(group_centers@, multi, group_centers@.len() as int)
            },
            group_centers@.len() >= 2 ==> pairs@.len() >= 1,
    {
        let count = group_centers.len();
        let ghost centers = group_centers@;
        let ghost mut multi: Seq<bool> = Seq::empty();
        let mut pairs: Vec<(usize, usize)> = Vec::new();
        let mut g: usize = 0;
        while g < count
            invariant
                0 <= g <= count,
                count == group_centers@.len(),
                centers == group_centers@,
                group_loop_connection_chance <= CHANCE_SCALE,
                forall|k: int| 0 <= k < count ==> (#[trigger] group_centers@[k]).in_grid(),
                forall|k: int| 0 <= k < pairs@.len() ==> (#[trigger] pairs@[k]).0 != pairs@[k].1
                    && (pairs@[k].0 as int) < count && (pairs@[k].1 as int) < count,
                multi.len() == g,
                group_loop_connection_chance == 0 ==> forall|k: int| 0 <= k < multi.len() ==> !#[trigger] multi[k],
                group_loop_connection_chance == CHANCE_SCALE ==> forall|k: int| 0 <= k < multi.len() ==> #[trigger] multi[k],
                pairs@ == closest_pairs(centers, multi, g as int),
            decreases count - g,
        {
            let ghost made = pairs@;
            let should_multi_connect = chance(group_loop_connection_chance);
            let mut min_distance: u128 = u128::MAX;
            let mut closest: Option<usize> = None;
            let mut second: Option<usize> = None;
            let mut o: usize = 0;
            while o < count
                invariant
                    0 <= o <= count,
                    (g as int) < count,
                    count == group_centers@.len(),
                    centers == group_centers@,
                    pairs@ == made,
                    forall|k: int| 0 <= k < count ==> (#[trigger] group_centers@[k]).in_grid(),
                    closest == nearest_group(centers, made, g, o as int),
                    closest matches Some(c) ==> (c as int) < count && min_distance == squared_distance(centers[g as int], centers[c as int]),
                    closest is None ==> min_distance == u128::MAX,
                    second == (if should_multi_connect {
                        match closest {
                            Some(c) => nearest_group(centers, made, g, c as int),
                            None => None,
                        }
                    } else {
                        None
                    }),
                decreases count - o,
            {
                proof {
                    lemma_nearest_group_bound(centers, made, g, o as int);
                }
                if o != g && !Self::contains_pair(&pairs, (o, g)) {
                    let d = group_centers[g].distance(&group_centers[o]);
                    if d < min_distance {
                        if should_multi_connect {
                            second = closest;
                        }
                        min_distance = d;
                        closest = Some(o);
                    }
                }
                o = o + 1;
            }
            proof {
                lemma_nearest_group_bound(centers, made, g, count as int);
                if let Some(c) = closest {
                    lemma_nearest_group_bound(centers, made, g, c as int);
                }
            }
            if let Some(c) = closest {
                pairs.push((g, c));
            }
            if let Some(c) = second {
                pairs.push((g, c));
            }
            proof {
                let m2 = multi.push(should_multi_connect);
                lemma_closest_pairs_frame(centers, multi, m2, g as int);
                multi = m2;
                assert(pairs@ =~= closest_pairs(centers, multi, g + 1));
            }
            g = g + 1;
        }
        proof {
            if count >= 2 {
                lemma_closest_pairs_nonempty(centers, multi, count as int);
            }
        }
        pairs
    }

    /// Whether `pair` was already made, either way round.
    pub(crate) fn contains_pair(pairs: &Vec<(usize, usize)>, pair: (usize, usize)) -> (r: bool)
        ensures
            r == exists|k: int| 0 <= k < pairs@.len() && (#[trigger] pairs@[k] == pair || pairs@[k] == (pair.1, pair.0)),
    {
        let mut k: usize = 0;
        while k < pairs.len()
            invariant
                0 <= k <= pairs.len(),
                forall|q: int| 0 <= q < k ==> !(#[trigger] pairs@[q] == pair || pairs@[q] == (pair.1, pair.0)),
            decreases pairs.len() - k,
        {
            let p = pairs[k];
            if (p.0 == pair.0 && p.1 == pair.1) || (p.0 == pair.1 && p.1 == pair.0) {
                return true;
            }
            k = k + 1;
        }
        false
    }

    /// Connects groups of rooms: the small groups are dropped
    /// (`remove_small_groups`); then for each pair of nearest groups
    /// (`generate_closest_groups`) the two rooms, one of each group, whose
    /// centres are nearest are joined by a walk (`get_path_between_rooms`),
    /// and the removed rooms on it are made active again.
    #[verifier::rlimit(100)]
    #[verifier::spinoff_prover]
    pub fn connect_room_groups(room_groups: Vec<Vec<RoomId>>, map_region: &mut MapRegion, config: &MapBuilderConfig)
        requires
            old(map_region).graph_ok(),
            config.wf(),
            old(map_region).entries().len() + 3 < usize::MAX,
            forall|g: int, k: int| 0 <= g < room_groups@.len() && 0 <= k < room_groups@[g]@.len() ==> {
                &&& (#[trigger] room_groups@[g]@[k] as int) < old(map_region).entries().len()
                &&& filled(old(map_region).entries()[room_groups@[g]@[k] as int])
            },
        ensures
            final(map_region).graph_ok(),
            old(map_region).tidy() ==> final(map_region).tidy(),
            final(map_region).origin() == old(map_region).origin(),
            only_toggles(old(map_region).entries(), final(map_region).entries()),
            final(map_region).neighbour_slots() == old(map_region).neighbour_slots(),
            forall|x: int| 0 <= x < old(map_region).entries().len() && #[trigger] old(map_region).entries()[x] is Active
                && !in_small_group(group_views(room_groups@), group_cutoff(group_views(room_groups@)), x as usize)
                ==> final(map_region).entries()[x] is Active,
            forall|y: int| 0 <= y < old(map_region).entries().len() && #[trigger] final(map_region).entries()[y] is Active
                ==> (old(map_region).entries()[y] is Active
                    && !in_small_group(group_views(room_groups@), group_cutoff(group_views(room_groups@)), y as usize))
                || reached_from(*final(map_region), big_groups(group_views(room_groups@)), y as usize),
            big_groups(group_views(room_groups@)).len() >= 2 && filled_connected(*old(map_region))
                ==> joins_two(*final(map_region), big_groups(group_views(room_groups@))),
            filled_connected(*old(map_region)) ==> exists|rc: Seq<Vector2>, multi: Seq<bool>|
                #[trigger] nearest_groups_linked(*old(map_region), *final(map_region), big_groups(group_views(room_groups@)),
                    config.group_loop_connection_chance, rc, multi),
    {
        let ghost entries0 = map_region.entries();
        let ghost r0 = *map_region;
        let ghost gs = group_views(room_groups@);
        let mut groups = room_groups;
        Self::remove_small_groups(map_region, &mut groups);
        let ghost ra = *map_region;
        proof {
            if gs.len() == 0 {
                assert(group_views(groups@) =~= big_groups(gs));
            }
            assert(group_views(groups@) == big_groups(gs));
            lemma_keep_big_len(gs, group_cutoff(gs));
            assert forall|g: int| 0 <= g < groups@.len() implies (#[trigger] groups@[g])@.len() >= 1 by {
                assert(group_views(groups@)[g] == groups@[g]@);
            }
            if filled_connected(r0) {
                lemma_filled_connected_frame(r0, ra);
            }
            assert forall|x: int| 0 <= x < ra.entries().len() && #[trigger] ra.entries()[x] is Active
                implies !in_small_group(gs, group_cutoff(gs), x as usize) by {
                if in_small_group(gs, group_cutoff(gs), x as usize) {
                    let (g, k) = choose|g: int, k: int| 0 <= g < gs.len() && 0 <= k < gs[g].len() && gs[g].len() <= group_cutoff(gs)
                        && #[trigger] gs[g][k] == x as usize;
                    assert(gs[g] == room_groups@[g]@);
                    assert(ra.entries()[room_groups@[g]@[k] as int] is Removed);
                }
            }
        }
        proof {
            assert forall|g: int, k: int| 0 <= g < groups@.len() && 0 <= k < groups@[g]@.len() implies {
                &&& (#[trigger] groups@[g]@[k] as int) < map_region.entries().len()
                &&& filled(map_region.entries()[groups@[g]@[k] as int])
            } by {
                lemma_keep_big_member(group_views(room_groups@), small_group_cutoff(sum_lens(group_views(room_groups@)), room_groups@.len() as int), g);
                let h = choose|h: int| 0 <= h < room_groups@.len() && #[trigger] group_views(room_groups@)[h] == group_views(groups@)[g];
                assert(group_views(groups@)[g] == groups@[g]@);
                assert(group_views(room_groups@)[h] == room_groups@[h]@);
                assert(room_groups@[h]@[k] == groups@[g]@[k]);
            }
        }
        let (group_centers, room_centers) = Self::generate_group_centers(map_region, &groups);
        let closest_groups = Self::generate_closest_groups(&group_centers, config.group_loop_connection_chance);
        let ghost groups_view = groups@;
        let ghost bg = big_groups(gs);
        let ghost rc = room_centers@;
        let ghost multi = choose|multi: Seq<bool>| {
            &&& multi.len() == group_centers@.len()
            &&& config.group_loop_connection_chance == 0 ==> forall|k: int| 0 <= k < multi.len() ==> !#[trigger] multi[k]
            &&& config.group_loop_connection_chance == CHANCE_SCALE ==> forall|k: int| 0 <= k < multi.len() ==> #[trigger] multi[k]
            &&& closest_groups@ == closest_pairs(group_centers@, multi, group_centers@.len() as int)
        };
        proof {
            assert(group_centers@ =~= group_centers_of(bg, rc)) by {
                assert forall|g: int| 0 <= g < group_centers@.len() implies group_centers@[g] == group_centers_of(bg, rc)[g] by {
                    assert(group_views(groups@)[g] == groups@[g]@);
                }
            }
            assert(room_centers_of(r0, rc)) by {
                assert forall|k: int| 0 <= k < rc.len() && filled(r0.entries()[k]) implies #[trigger] rc[k] == crate::centers::cells_center(r0.entries()[k].spec_room().cells@) by {
                    assert(filled(ra.entries()[k]));
                }
            }
        }
        let mut p: usize = 0;
        while p < closest_groups.len()
            invariant
                bg == big_groups(gs),
                filled_connected(ra) ==> forall|q: int| 0 <= q < p ==> groups_linked(*map_region, bg,
                    (#[trigger] closest_groups@[q]).0 as int, closest_groups@[q].1 as int),
                0 <= p <= closest_groups.len(),
                map_region.graph_ok(),
                old(map_region).tidy() ==> map_region.tidy(),
                map_region.origin() == old(map_region).origin(),
                only_toggles(entries0, map_region.entries()),
                map_region.entries().len() + 3 < usize::MAX,
                groups@ == groups_view,
                group_centers@.len() == groups@.len(),
                room_centers@.len() == map_region.entries().len(),
                forall|k: int| 0 <= k < room_centers@.len() ==> (#[trigger] room_centers@[k]).in_grid(),
                forall|k: int| 0 <= k < closest_groups@.len() ==> (#[trigger] closest_groups@[k]).0 != closest_groups@[k].1
                    && (closest_groups@[k].0 as int) < groups@.len() && (closest_groups@[k].1 as int) < groups@.len(),
                forall|g: int, k: int| 0 <= g < groups@.len() && 0 <= k < groups@[g]@.len() ==> {
                    &&& (#[trigger] groups@[g]@[k] as int) < map_region.entries().len()
                    &&& filled(map_region.entries()[groups@[g]@[k] as int])
                },
                forall|g: int| 0 <= g < groups@.len() ==> (#[trigger] groups@[g])@.len() >= 1,
                group_views(groups_view) == big_groups(gs),
                keeps_active(ra, *map_region),
                forall|y: int| 0 <= y < ra.entries().len() && #[trigger] map_region.entries()[y] is Active
                    ==> ra.entries()[y] is Active || reached_from(*map_region, big_groups(gs), y as usize),
                p > 0 && filled_connected(ra) ==> joins_two(*map_region, big_groups(gs)),
                groups_view.len() >= 2 ==> closest_groups@.len() >= 1,
                only_toggles(ra.entries(), map_region.entries()),
            decreases closest_groups.len() - p,
        {
            let (ga, gb) = closest_groups[p];
            let group_a = &groups[ga];
            let group_b = &groups[gb];
            let mut closest_a: usize = usize::MAX;
            let mut closest_b: usize = usize::MAX;
            let mut closest_distance: u128 = u128::MAX;
            let mut x: usize = 0;
            while x < group_a.len()
                invariant
                    0 <= x <= group_a.len(),
                    (ga as int) < groups@.len(),
                    (gb as int) < groups@.len(),
                    map_region.entries().len() + 3 < usize::MAX,
                    group_a@ == groups@[ga as int]@,
                    group_b@ == groups@[gb as int]@,
                    room_centers@.len() == map_region.entries().len(),
                    forall|k: int| 0 <= k < room_centers@.len() ==> (#[trigger] room_centers@[k]).in_grid(),
                    forall|g: int, k: int| 0 <= g < groups@.len() && 0 <= k < groups@[g]@.len() ==> {
                        &&& (#[trigger] groups@[g]@[k] as int) < map_region.entries().len()
                        &&& filled(map_region.entries()[groups@[g]@[k] as int])
                    },
                    closest_a == usize::MAX || group_a@.contains(closest_a),
                    closest_b == usize::MAX || group_b@.contains(closest_b),
                    (closest_a == usize::MAX) == (closest_b == usize::MAX),
                    x > 0 && group_b@.len() > 0 ==> closest_a != usize::MAX,
                    closest_a == usize::MAX ==> closest_distance == u128::MAX,
                decreases group_a.len() - x,
            {
                let mut y: usize = 0;
                while y < group_b.len()
                    invariant
                        0 <= y <= group_b.len(),
                        0 <= x < group_a.len(),
                        (ga as int) < groups@.len(),
                        (gb as int) < groups@.len(),
                        map_region.entries().len() + 3 < usize::MAX,
                        group_a@ == groups@[ga as int]@,
                        group_b@ == groups@[gb as int]@,
                        room_centers@.len() == map_region.entries().len(),
                        forall|k: int| 0 <= k < room_centers@.len() ==> (#[trigger] room_centers@[k]).in_grid(),
                        forall|g: int, k: int| 0 <= g < groups@.len() && 0 <= k < groups@[g]@.len() ==> {
                            &&& (#[trigger] groups@[g]@[k] as int) < map_region.entries().len()
                            &&& filled(map_region.entries()[groups@[g]@[k] as int])
                        },
                        closest_a == usize::MAX || group_a@.contains(closest_a),
                        closest_b == usize::MAX || group_b@.contains(closest_b),
                        (closest_a == usize::MAX) == (closest_b == usize::MAX),
                        y > 0 ==> closest_a != usize::MAX,
                        x > 0 && group_b@.len() > 0 ==> closest_a != usize::MAX,
                        closest_a == usize::MAX ==> closest_distance == u128::MAX,
                    decreases group_b.len() - y,
                {
                    let room_a = group_a[x];
                    let room_b = group_b[y];
                    proof {
                        assert(groups@[ga as int]@[x as int] == room_a);
                        assert(groups@[gb as int]@[y as int] == room_b);
                    }
                    let distance = room_centers[room_a].distance(&room_centers[room_b]);
                    if distance < closest_distance {
                        closest_distance = distance;
                        closest_a = room_a;
                        closest_b = room_b;
                    }
                    y = y + 1;
                }
                x = x + 1;
            }
            proof {
                assert(group_a@.len() >= 1 && group_b@.len() >= 1);
            }
            if closest_a != usize::MAX {
                let ghost c0 = *map_region;
                let ghost p_was = p;
                proof {
                    let k = choose|k: int| 0 <= k < group_a@.len() && group_a@[k] == closest_a;
                    assert(groups@[ga as int]@[k] == closest_a);
                    let kb = choose|k: int| 0 <= k < group_b@.len() && group_b@[k] == closest_b;
                    assert(groups@[gb as int]@[kb] == closest_b);
                    assert(big_groups(gs)[ga as int] == groups@[ga as int]@);
                    assert(big_groups(gs)[gb as int] == groups@[gb as int]@);
                    if filled_connected(ra) {
                        lemma_filled_connected_frame(ra, c0);
                        assert(filled(c0.entries()[closest_a as int]) && filled(c0.entries()[closest_b as int]));
                    }
                }
                let path = Self::get_path_between_rooms(closest_a, closest_b, map_region);
                proof {
                    if filled_connected(ra) {
                        let w = choose|w: Seq<usize>| #[trigger] is_walk(c0, w, closest_a, closest_b);
                        assert(path@.len() > 0);
                    }
                }
                let ghost c_before = *map_region;
                proof {
                    if path@.len() == 0 {
                        assert(forall|k: int| 0 <= k < path@.len() ==> (#[trigger] path@[k] as int) < map_region.entries().len()
                            && filled(map_region.entries()[path@[k] as int]));
                    }
                }
                open_path(map_region, &path);
                proof {
                    lemma_only_toggles_trans(entries0, c_before.entries(), map_region.entries());
                    lemma_only_toggles_trans(ra.entries(), c_before.entries(), map_region.entries());
                    assert(keeps_active(ra, *map_region));
                    assert forall|y: int| 0 <= y < ra.entries().len() && #[trigger] map_region.entries()[y] is Active
                        implies ra.entries()[y] is Active || reached_from(*map_region, big_groups(gs), y as usize) by {
                        if !(c0.entries()[y] is Active) {
                            let k = choose|k: int| 0 <= k < path@.len() && path@[k] == y as usize;
                            lemma_walk_prefix_active(c0, *map_region, path@, closest_a, closest_b, k);
                            assert(path@.take(k + 1)[0] == closest_a);
                        } else if !(ra.entries()[y] is Active) {
                            lemma_reached_frame(c0, *map_region, big_groups(gs), y as usize);
                        }
                    }
                    if p > 0 && filled_connected(ra) {
                        lemma_joins_frame(c0, *map_region, big_groups(gs));
                    }
                }
                proof {
                    if path@.len() > 0 {
                        lemma_walk_prefix_active(c0, *map_region, path@, closest_a, closest_b, path@.len() - 1);
                        assert(path@.take(path@.len() as int) =~= path@);
                        assert(path@[path@.len() - 1] == closest_b);
                        assert(big_groups(gs)[gb as int].contains(closest_b));
                        assert(joins_two(*map_region, big_groups(gs)));
                        assert(groups_linked(*map_region, bg, ga as int, gb as int));
                    }
                    if filled_connected(ra) {
                        assert forall|q: int| 0 <= q < p + 1 implies groups_linked(*map_region, bg,
                            (#[trigger] closest_groups@[q]).0 as int, closest_groups@[q].1 as int) by {
                            if q < p {
                                lemma_linked_frame(c0, *map_region, bg, closest_groups@[q].0 as int, closest_groups@[q].1 as int);
                            }
                        }
                    }
                }
            } else {
                proof {
                    assert(false);
                }
            }
            p = p + 1;
        }
        proof {
            assert forall|y: int| 0 <= y < old(map_region).entries().len() && #[trigger] map_region.entries()[y] is Active
                implies (old(map_region).entries()[y] is Active && !in_small_group(gs, group_cutoff(gs), y as usize))
                || reached_from(*map_region, big_groups(gs), y as usize) by {
                if ra.entries()[y] is Active {
                    assert(!in_small_group(gs, group_cutoff(gs), y as usize));
                    assert(ra.entries()[y] == r0.entries()[y]);
                }
            }
            assert forall|x: int| 0 <= x < old(map_region).entries().len() && #[trigger] old(map_region).entries()[x] is Active
                && !in_small_group(gs, group_cutoff(gs), x as usize) implies map_region.entries()[x] is Active by {
                assert(ra.entries()[x] == r0.entries()[x]);
            }
            if big_groups(gs).len() >= 2 && filled_connected(r0) {
                lemma_filled_connected_frame(r0, ra);
            }
            if filled_connected(r0) {
                lemma_filled_connected_frame(r0, ra);
                let pairs = closest_pairs(group_centers_of(bg, rc), multi, bg.len() as int);
                assert(pairs == closest_groups@);
                assert forall|k: int| 0 <= k < pairs.len() implies groups_linked(*map_region, bg, (#[trigger] pairs[k]).0 as int, pairs[k].1 as int) by {
                    assert(pairs[k] == closest_groups@[k]);
                }
                assert(nearest_groups_linked(r0, *map_region, bg, config.group_loop_connection_chance, rc, multi));
            }
        }
    }

    /// Reconnects the groups of active rooms: groups of a single room are
    /// dropped (the room is marked removed); while more than one group is
    /// left, the groups are connected (`connect_room_groups`) and found
    /// again. When every two filled rooms are joined by a walk, each round
    /// leaves fewer groups, so this ends with every two active rooms joined
    /// by a walk through active rooms; the rounds are bounded by one more
    /// than the number of slots, which such a region never reaches. What
    /// each round does is `reconnect_round`; the rounds taken form a
    /// `reconnect_trace`.
    #[verifier::rlimit(80)]
    #[verifier::spinoff_prover]
    pub fn reconnect_room_groups(map_region: &mut MapRegion, config: &MapBuilderConfig)
        requires
            old(map_region).graph_ok(),
            config.wf(),
            old(map_region).entries().len() + 3 < usize::MAX,
        ensures
            final(map_region).graph_ok(),
            old(map_region).tidy() ==> final(map_region).tidy(),
            final(map_region).origin() == old(map_region).origin(),
            only_toggles(old(map_region).entries(), final(map_region).entries()),
            final(map_region).neighbour_slots() == old(map_region).neighbour_slots(),
            filled_connected(*old(map_region)) ==> active_connected(*final(map_region)),
            exists|trace: Seq<MapRegion>, closed: bool| #[trigger] reconnect_trace(*old(map_region), *final(map_region), trace, closed,
                config.group_loop_connection_chance),
    {
        let ghost entries0 = map_region.entries();
        let ghost r_in = *map_region;
        let ghost mut trace: Seq<MapRegion> = seq![*map_region];
        let ghost mut closed = false;
        let mut room_groups = Self::generate_room_groups(map_region);
        let mut rounds: usize = map_region.room_slots() + 1;
        proof {
            assert(only_toggles(entries0, map_region.entries())) by {
                assert forall|i: int| 0 <= i < entries0.len() implies filled(#[trigger] map_region.entries()[i]) == filled(entries0[i])
                    && (filled(entries0[i]) ==> map_region.entries()[i].spec_room() == entries0[i].spec_room()) by {
                }
            }
            lemma_groups_count_bound(group_views(room_groups@), *map_region);
        }
        while rounds > 0
            invariant_except_break
                filled_connected(r_in) ==> room_groups@.len() + 1 <= rounds,
                !closed,
                trace.len() + rounds == entries0.len() + 2,
            invariant
                trace.len() >= 1,
                trace[0] == r_in,
                trace.last() == *map_region,
                forall|i: int| 0 <= i < trace.len() - 1 ==> #[trigger] reconnect_round(trace[i], trace[i + 1],
                    connect_step(closed, i, trace.len() as int), config.group_loop_connection_chance),
                closed ==> trace.len() >= 2,
                map_region.graph_ok(),
                old(map_region).tidy() ==> map_region.tidy(),
                map_region.origin() == old(map_region).origin(),
                only_toggles(entries0, map_region.entries()),
                entries0.len() + 3 < usize::MAX,
                entries0 == r_in.entries(),
                config.wf(),
                groups_split_active(group_views(room_groups@), *map_region),
                groups_connected(group_views(room_groups@), *map_region),
                map_region.neighbour_slots() == r_in.neighbour_slots(),
                map_region.entries().len() == entries0.len(),
            ensures
                map_region.graph_ok(),
                old(map_region).tidy() ==> map_region.tidy(),
                map_region.origin() == old(map_region).origin(),
                only_toggles(entries0, map_region.entries()),
                map_region.neighbour_slots() == r_in.neighbour_slots(),
                filled_connected(r_in) ==> active_connected(*map_region),
                !closed ==> trace.len() == entries0.len() + 2,
            decreases rounds,
        {
            let mut kept: Vec<Vec<RoomId>> = Vec::new();
            let mut g: usize = 0;
            let ghost groups0 = group_views(room_groups@);
            let ghost region0 = *map_region;
            let ghost mut src: Seq<int> = Seq::empty();
            while g < room_groups.len()
                invariant
                    0 <= g <= room_groups.len(),
                    room_groups@.len() == groups0.len(),
                    forall|h: int| g <= h < groups0.len() ==> (#[trigger] room_groups@[h])@ == groups0[h],
                    groups_split_active(groups0, region0),
                    map_region.graph_ok(),
                    old(map_region).tidy() ==> map_region.tidy(),
                    map_region.origin() == old(map_region).origin(),
                    only_toggles(entries0, map_region.entries()),
                    only_toggles(region0.entries(), map_region.entries()),
                    forall|h: int, k: int| 0 <= h < kept@.len() && 0 <= k < kept@[h]@.len() ==> {
                        &&& (#[trigger] kept@[h]@[k] as int) < map_region.entries().len()
                        &&& filled(map_region.entries()[kept@[h]@[k] as int])
                    },
                    map_region.neighbour_slots() == region0.neighbour_slots(),
                    map_region.entries().len() == region0.entries().len(),
                    kept@.len() == src.len(),
                    src.len() <= g,
                    forall|h: int| 0 <= h < src.len() ==> 0 <= #[trigger] src[h] < g && groups0[src[h]].len() > 1
                        && group_views(kept@)[h] == groups0[src[h]],
                    forall|h1: int, h2: int| 0 <= h1 < h2 < src.len() ==> #[trigger] src[h1] < #[trigger] src[h2],
                    forall|g2: int| 0 <= g2 < g && (#[trigger] groups0[g2]).len() > 1 ==> exists|h: int| 0 <= h < src.len() && src[h] == g2,
                    forall|x: int| 0 <= x < region0.entries().len() && #[trigger] map_region.entries()[x] != region0.entries()[x]
                        ==> exists|g2: int| 0 <= g2 < g && (#[trigger] groups0[g2]).len() == 1 && groups0[g2][0] == x as usize,
                    forall|g2: int| 0 <= g2 < g && (#[trigger] groups0[g2]).len() == 1 ==> map_region.entries()[groups0[g2][0] as int] is Removed,
                decreases room_groups.len() - g,
            {
                let mut group: Vec<RoomId> = Vec::new();
                std::mem::swap(&mut group, &mut room_groups[g]);
                proof {
                    assert(group@ == groups0[g as int]);
                }
                let ghost kept0 = kept@;
                let ghost src0 = src;
                if group.len() > 1 {
                    kept.push(group);
                    proof {
                        assert forall|h: int, k: int| 0 <= h < kept@.len() && 0 <= k < kept@[h]@.len() implies {
                            &&& (#[trigger] kept@[h]@[k] as int) < map_region.entries().len()
                            &&& filled(map_region.entries()[kept@[h]@[k] as int])
                        } by {
                            if h < kept0.len() {
                                assert(kept@[h] == kept0[h]);
                            } else {
                                assert(kept@[h]@ == groups0[g as int]);
                                assert(filled(region0.entries()[groups0[g as int][k] as int]));
                            }
                        }
                        src = src.push(g as int);
                        assert forall|h: int| 0 <= h < src.len() implies 0 <= #[trigger] src[h] < g + 1 && groups0[src[h]].len() > 1
                            && group_views(kept@)[h] == groups0[src[h]] by {
                            if h < kept0.len() {
                                assert(kept@[h] == kept0[h]);
                                assert(group_views(kept0)[h] == kept0[h]@);
                            }
                        }
                        assert forall|g2: int| 0 <= g2 < g + 1 && (#[trigger] groups0[g2]).len() > 1 implies exists|h: int| 0 <= h < src.len() && src[h] == g2 by {
                            if g2 == g as int {
                                assert(src[src.len() - 1] == g2);
                            } else {
                                let h = choose|h: int| 0 <= h < src0.len() && src0[h] == g2;
                                assert(src[h] == src0[h]);
                            }
                        }
                    }
                } else if group.len() == 1 {
                    let id = group[0];
                    proof {
                        assert(groups0[g as int][0] == id);
                        assert(filled(region0.entries()[id as int]));
                    }
                    let ghost before = map_region.entries();
                    map_region.mark_removed(id);
                    proof {
                        assert(only_toggles(before, map_region.entries())) by {
                            assert forall|i: int| 0 <= i < before.len() implies filled(#[trigger] map_region.entries()[i]) == filled(before[i])
                                && (filled(before[i]) ==> map_region.entries()[i].spec_room() == before[i].spec_room()) by {
                            }
                        }
                        lemma_only_toggles_trans(entries0, before, map_region.entries());
                        lemma_only_toggles_trans(region0.entries(), before, map_region.entries());
                        assert forall|h: int, k: int| 0 <= h < kept@.len() && 0 <= k < kept@[h]@.len() implies {
                            &&& (#[trigger] kept@[h]@[k] as int) < map_region.entries().len()
                            &&& filled(map_region.entries()[kept@[h]@[k] as int])
                        } by {
                            assert(filled(before[kept@[h]@[k] as int]));
                        }
                        assert forall|x: int| 0 <= x < region0.entries().len() && #[trigger] map_region.entries()[x] != region0.entries()[x]
                            implies exists|g2: int| 0 <= g2 < g + 1 && (#[trigger] groups0[g2]).len() == 1 && groups0[g2][0] == x as usize by {
                            if x != id as int {
                                assert(map_region.entries()[x] == before[x]);
                            } else {
                                assert(groups0[g as int].len() == 1);
                            }
                        }
                        assert forall|g2: int| 0 <= g2 < g + 1 && (#[trigger] groups0[g2]).len() == 1
                            implies map_region.entries()[groups0[g2][0] as int] is Removed by {
                            if groups0[g2][0] != id {
                                assert(map_region.entries()[groups0[g2][0] as int] == before[groups0[g2][0] as int]);
                            }
                        }
                    }
                } else {
                    proof {
                        assert(groups0[g as int].len() > 0);
                    }
                }
                g = g + 1;
            }
            let ghost region1 = *map_region;
            let ghost gs = group_views(kept@);
            proof {
                // every active room lies in a kept group
                assert forall|y: int| 0 <= y < region1.entries().len() && #[trigger] region1.entries()[y] is Active
                    implies exists|h: int| 0 <= h < gs.len() && #[trigger] gs[h].contains(y as usize) by {
                    if region1.entries()[y] != region0.entries()[y] {
                        let g2 = choose|g2: int| 0 <= g2 < g && (#[trigger] groups0[g2]).len() == 1 && groups0[g2][0] == y as usize;
                    }
                    assert(region0.entries()[y] is Active);
                    let g2 = choose|g2: int| 0 <= g2 < groups0.len() && #[trigger] groups0[g2].contains(y as usize);
                    if groups0[g2].len() == 1 {
                        assert(groups0[g2][0] == y as usize);
                    }
                    let h = choose|h: int| 0 <= h < src.len() && src[h] == g2;
                    assert(gs[h] == groups0[src[h]]);
                }
                // the rooms of the kept groups are still active
                assert forall|h: int, x: usize| 0 <= h < gs.len() && #[trigger] gs[h].contains(x)
                    implies region1.entries()[x as int] is Active by {
                    let gh = src[h];
                    assert(gs[h] == groups0[gh]);
                    let k = choose|k: int| 0 <= k < groups0[gh].len() && groups0[gh][k] == x;
                    assert(groups0[gh][k] == x);
                    assert(region0.entries()[x as int] is Active);
                    if region1.entries()[x as int] != region0.entries()[x as int] {
                        let g2 = choose|g2: int| 0 <= g2 < g && (#[trigger] groups0[g2]).len() == 1 && groups0[g2][0] == x;
                        assert(groups0[g2].contains(x));
                        if g2 < gh {
                            assert(!groups0[gh].contains(x));
                        } else if gh < g2 {
                            assert(!groups0[g2].contains(x));
                        }
                    }
                }
                assert forall|h: int| 0 <= h < src.len() implies 0 <= #[trigger] src[h] < groups0.len() && gs[h] == groups0[src[h]] by {}
            }
            if kept.len() > 1 {
                let ghost before = map_region.entries();
                Self::connect_room_groups(kept, map_region, config);
                let ghost region2 = *map_region;
                proof {
                    lemma_only_toggles_trans(entries0, before, map_region.entries());
                }
                room_groups = Self::generate_room_groups(map_region);
                proof {
                    if filled_connected(r_in) {
                        lemma_filled_connected_frame(r_in, region1);
                        lemma_round_progress(groups0, region0, src, gs, region1, region2, group_views(room_groups@));
                    }
                    lemma_round(groups0, region0, src, gs, region1, region2, true, config.group_loop_connection_chance);
                    let t0 = trace;
                    trace = trace.push(region2);
                    assert forall|i: int| 0 <= i < trace.len() - 1 implies #[trigger] reconnect_round(trace[i], trace[i + 1],
                        connect_step(closed, i, trace.len() as int), config.group_loop_connection_chance) by {
                        if i < t0.len() - 1 {
                            assert(trace[i] == t0[i] && trace[i + 1] == t0[i + 1]);
                            assert(connect_step(closed, i, trace.len() as int) == connect_step(false, i, t0.len() as int));
                            assert(reconnect_round(t0[i], t0[i + 1], connect_step(false, i, t0.len() as int), config.group_loop_connection_chance));
                        } else {
                            assert(trace[i] == region0 && trace[i + 1] == region2);
                            assert(connect_step(closed, i, trace.len() as int) == true);
                        }
                    }
                }
            } else {
                proof {
                    lemma_one_group_connected(groups0, region0, src, gs, region1);
                    lemma_round(groups0, region0, src, gs, region1, region1, false, config.group_loop_connection_chance);
                    let t0 = trace;
                    trace = trace.push(region1);
                    closed = true;
                    assert forall|i: int| 0 <= i < trace.len() - 1 implies #[trigger] reconnect_round(trace[i], trace[i + 1],
                        connect_step(closed, i, trace.len() as int), config.group_loop_connection_chance) by {
                        if i < t0.len() - 1 {
                            assert(trace[i] == t0[i] && trace[i + 1] == t0[i + 1]);
                            assert(connect_step(closed, i, trace.len() as int) == connect_step(false, i, t0.len() as int));
                            assert(reconnect_round(t0[i], t0[i + 1], connect_step(false, i, t0.len() as int), config.group_loop_connection_chance));
                        } else {
                            assert(trace[i] == region0 && trace[i + 1] == region1);
                            assert(connect_step(closed, i, trace.len() as int) == false);
                        }
                    }
                }
                room_groups = Self::generate_room_groups(map_region);
                break;
            }
            rounds = rounds - 1;
        }
        proof {
            assert(reconnect_trace(r_in, *map_region, trace, closed, config.group_loop_connection_chance));
        }
    }

    /// Drops the small groups (see `small_group_cutoff`): their rooms are
    /// marked removed, and the other groups stay, in order.
    pub fn remove_small_groups(map_region: &mut MapRegion, room_groups: &mut Vec<Vec<RoomId>>)
        requires
            old(map_region).graph_ok(),
            forall|g: int, k: int| 0 <= g < old(room_groups)@.len() && 0 <= k < old(room_groups)@[g]@.len() ==> {
                &&& (#[trigger] old(room_groups)@[g]@[k] as int) < old(map_region).entries().len()
                &&& filled(old(map_region).entries()[old(room_groups)@[g]@[k] as int])
            },
        ensures
            final(map_region).graph_ok(),
            old(map_region).tidy() ==> final(map_region).tidy(),
            final(map_region).origin() == old(map_region).origin(),
            only_toggles(old(map_region).entries(), final(map_region).entries()),
            old(room_groups)@.len() == 0 ==> final(room_groups)@.len() == 0,
            old(room_groups)@.len() > 0 ==> {
                let cutoff = small_group_cutoff(sum_lens(group_views(old(room_groups)@)), old(room_groups)@.len() as int);
                &&& group_views(final(room_groups)@) == keep_big(group_views(old(room_groups)@), cutoff)
                &&& forall|g: int, k: int| 0 <= g < old(room_groups)@.len() && 0 <= k < old(room_groups)@[g]@.len()
                    && old(room_groups)@[g]@.len() <= cutoff ==> final(map_region).entries()[(#[trigger] old(room_groups)@[g]@[k]) as int] is Removed
            },
            final(map_region).neighbour_slots() == old(map_region).neighbour_slots(),
            final(map_region).entries().len() == old(map_region).entries().len(),
            forall|x: int| 0 <= x < old(map_region).entries().len() && !in_small_group(group_views(old(room_groups)@),
                group_cutoff(group_views(old(room_groups)@)), x as usize) ==> #[trigger] final(map_region).entries()[x] == old(map_region).entries()[x],
    {
        let count = room_groups.len();
        if count == 0 {
            return;
        }
        let mut total: u128 = 0;
        let mut i: usize = 0;
        while i < count
            invariant
                0 <= i <= count,
                count == room_groups@.len(),
                total == sum_lens(group_views(room_groups@).take(i as int)),
                total <= i * usize::MAX,
            decreases count - i,
        {
            proof {
                assert(group_views(room_groups@).take(i + 1).drop_last() =~= group_views(room_groups@).take(i as int));
                let l = room_groups@[i as int]@.len();
                assert(l == room_groups@[i as int].len());
                assert(total + l <= (i + 1) * usize::MAX) by (nonlinear_arith)
                    requires
                        total <= i * usize::MAX,
                        l <= usize::MAX,
                ;
                assert((i + 1) * usize::MAX <= 0xffff_ffff_ffff_ffff * 0xffff_ffff_ffff_ffff) by (nonlinear_arith)
                    requires
                        i < usize::MAX,
                        usize::MAX <= 0xffff_ffff_ffff_ffff,
                ;
            }
            total = total + room_groups[i].len() as u128;
            i = i + 1;
        }
        proof {
            assert(group_views(room_groups@).take(count as int) =~= group_views(room_groups@));
        }
        let ghost gv0 = group_views(room_groups@);
        let ghost entries0 = map_region.entries();
        let d: u128 = 10 * (count as u128);
        let q = total / d;
        let rem = total % d;
        proof {
            assert(total == q * d + rem && 0 <= rem < d) by (nonlinear_arith)
                requires
                    d > 0,
                    q == total / d,
                    rem == total % d,
            ;
            assert((3 * total) / (d as int) == 3 * q + (3 * rem) / (d as int)) by (nonlinear_arith)
                requires
                    d > 0,
                    total == q * d + rem,
                    0 <= rem < d,
            ;
            assert(3 * q + (3 * rem) / (d as int) <= usize::MAX) by (nonlinear_arith)
                requires
                    d == 10 * count,
                    count >= 1,
                    total <= count * usize::MAX,
                    3 * q + (3 * rem) / (d as int) == (3 * total) / (d as int),
            ;
        }
        let cutoff0 = (3 * q + (3 * rem) / d) as usize;
        let cutoff = if cutoff0 < 1 { 1 } else { cutoff0 };
        proof {
            assert(d as int == 10 * count);
            assert(cutoff0 as int == (3 * total) / (10 * (count as int)));
            assert(total == sum_lens(gv0));
            assert(cutoff == small_group_cutoff(sum_lens(gv0), count as int));
        }
        let mut old_groups: Vec<Vec<RoomId>> = Vec::new();
        std::mem::swap(&mut old_groups, room_groups);
        let mut i: usize = 0;
        while i < old_groups.len()
            invariant
                0 <= i <= old_groups.len(),
                old_groups@.len() == gv0.len(),
                forall|g: int| i <= g < gv0.len() ==> (#[trigger] old_groups@[g])@ == gv0[g],
                forall|g: int, k: int| 0 <= g < gv0.len() && 0 <= k < gv0[g].len() ==> {
                    &&& (#[trigger] gv0[g][k] as int) < entries0.len()
                    &&& filled(entries0[gv0[g][k] as int])
                },
                map_region.graph_ok(),
                old(map_region).tidy() ==> map_region.tidy(),
                map_region.origin() == old(map_region).origin(),
                only_toggles(entries0, map_region.entries()),
                group_views(room_groups@) == keep_big(gv0.take(i as int), cutoff as int),
                forall|g: int, k: int| 0 <= g < i && 0 <= k < gv0[g].len() && gv0[g].len() <= cutoff
                    ==> map_region.entries()[(#[trigger] gv0[g][k]) as int] is Removed,
                map_region.neighbour_slots() == old(map_region).neighbour_slots(),
                map_region.entries().len() == entries0.len(),
                forall|x: int| 0 <= x < entries0.len() && !in_small_group(gv0, cutoff as int, x as usize)
                    ==> #[trigger] map_region.entries()[x] == entries0[x],
            decreases old_groups.len() - i,
        {
            let mut group: Vec<RoomId> = Vec::new();
            std::mem::swap(&mut group, &mut old_groups[i]);
            proof {
                assert(group@ == gv0[i as int]);
                assert(gv0.take(i + 1).drop_last() =~= gv0.take(i as int));
                assert(gv0.take(i + 1).last() == gv0[i as int]);
            }
            if group.len() > cutoff {
                let ghost before = group_views(room_groups@);
                room_groups.push(group);
                proof {
                    assert(group_views(room_groups@) =~= before.push(gv0[i as int]));
                }
            } else {
                let mut k: usize = 0;
                while k < group.len()
                    invariant
                        0 <= k <= group.len(),
                        group@ == gv0[i as int],
                        (i as int) < gv0.len(),
                        forall|g: int, k2: int| 0 <= g < gv0.len() && 0 <= k2 < gv0[g].len() ==> {
                            &&& (#[trigger] gv0[g][k2] as int) < entries0.len()
                            &&& filled(entries0[gv0[g][k2] as int])
                        },
                        map_region.graph_ok(),
                        old(map_region).tidy() ==> map_region.tidy(),
                        map_region.origin() == old(map_region).origin(),
                        only_toggles(entries0, map_region.entries()),
                        forall|g: int, k2: int| 0 <= g < i && 0 <= k2 < gv0[g].len() && gv0[g].len() <= cutoff
                            ==> map_region.entries()[(#[trigger] gv0[g][k2]) as int] is Removed,
                        forall|k2: int| 0 <= k2 < k ==> map_region.entries()[(#[trigger] gv0[i as int][k2]) as int] is Removed,
                        group.len() <= cutoff,
                        map_region.neighbour_slots() == old(map_region).neighbour_slots(),
                        map_region.entries().len() == entries0.len(),
                        forall|x: int| 0 <= x < entries0.len() && !in_small_group(gv0, cutoff as int, x as usize)
                            ==> #[trigger] map_region.entries()[x] == entries0[x],
                    decreases group.len() - k,
                {
                    let id = group[k];
                    proof {
                        assert(gv0[i as int][k as int] == id);
                        assert(filled(entries0[id as int]));
                    }
                    let ghost before = map_region.entries();
                    map_region.mark_removed(id);
                    proof {
                        lemma_only_toggles_trans(entries0, before, map_region.entries());
                        assert(only_toggles(before, map_region.entries())) by {
                            assert forall|q: int| 0 <= q < before.len() implies filled(#[trigger] map_region.entries()[q]) == filled(before[q])
                                && (filled(before[q]) ==> map_region.entries()[q].spec_room() == before[q].spec_room()) by {
                            }
                        }
                        lemma_only_toggles_trans(entries0, before, map_region.entries());
                        assert forall|g: int, k2: int| 0 <= g < i && 0 <= k2 < gv0[g].len() && gv0[g].len() <= cutoff
                            implies map_region.entries()[(#[trigger] gv0[g][k2]) as int] is Removed by {
                            if gv0[g][k2] != id {
                                assert(map_region.entries()[gv0[g][k2] as int] == before[gv0[g][k2] as int]);
                            }
                        }
                        assert(in_small_group(gv0, cutoff as int, id)) by {
                            assert(gv0[i as int][k as int] == id);
                        }
                        assert forall|x: int| 0 <= x < entries0.len() && !in_small_group(gv0, cutoff as int, x as usize)
                            implies #[trigger] map_region.entries()[x] == entries0[x] by {
                            assert(x != id as int);
                            assert(map_region.entries()[x] == before[x]);
                        }
                        assert forall|k2: int| 0 <= k2 < k + 1 implies map_region.entries()[(#[trigger] gv0[i as int][k2]) as int] is Removed by {
                            if gv0[i as int][k2] != id {
                                assert(map_region.entries()[gv0[i as int][k2] as int] == before[gv0[i as int][k2] as int]);
                            }
                        }
                    }
                    k = k + 1;
                }
            }
            i = i + 1;
        }
        proof {
            assert(gv0.take(gv0.len() as int) =~= gv0);
            assert(gv0 == group_views(old(room_groups)@));
            assert forall|g: int, k: int| 0 <= g < old(room_groups)@.len() && 0 <= k < old(room_groups)@[g]@.len()
                && old(room_groups)@[g]@.len() <= cutoff implies map_region.entries()[(#[trigger] old(room_groups)@[g]@[k]) as int] is Removed by {
                assert(gv0[g] == old(room_groups)@[g]@);
                assert(gv0[g][k] == old(room_groups)@[g]@[k]);
            }
        }
    }
}

} // verus!
