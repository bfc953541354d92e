//! Facts about walks through the rooms of a region, and a counting fact
//! used to show that reconnecting room groups ends.
use vstd::prelude::*;

use crate::map_region::{filled, MapRegion};
use crate::reconnect_rooms::{active_path, groups_split_active, is_walk};
use vstd::set_lib::{lemma_int_range, lemma_len_subset, lemma_map_size, set_int_range};

verus! {

/// Any two filled rooms of `r` are joined by a walk.
pub open spec fn filled_connected(r: MapRegion) -> bool {
    forall|x: usize, y: usize| (x as int) < r.entries().len() && (y as int) < r.entries().len()
        && #[trigger] filled(r.entries()[x as int]) && #[trigger] filled(r.entries()[y as int])
        ==> exists|p: Seq<usize>| #[trigger] is_walk(r, p, x, y)
}

/// Any two active rooms of `r` are joined by a walk through active rooms.
pub open spec fn active_connected(r: MapRegion) -> bool {
    forall|x: usize, y: usize| (x as int) < r.entries().len() && (y as int) < r.entries().len()
        && #[trigger] r.entries()[x as int] is Active && #[trigger] r.entries()[y as int] is Active
        ==> exists|p: Seq<usize>| #[trigger] active_path(r, p, x, y)
}

/// Room `y` is reached by a walk through active rooms from a room of one of `groups`.
pub open spec fn reached_from(r: MapRegion, groups: Seq<Seq<usize>>, y: usize) -> bool {
    exists|g: int, a: usize, p: Seq<usize>| #![trigger groups[g].contains(a), active_path(r, p, a, y)] 0 <= g < groups.len() && groups[g].contains(a) && active_path(r, p, a, y)
}

/// Some room of one of `groups` and some room of another are joined by a
/// walk through active rooms.
pub open spec fn joins_two(r: MapRegion, groups: Seq<Seq<usize>>) -> bool {
    exists|i: int, j: int, a: usize, b: usize, p: Seq<usize>|
        #![trigger groups[i].contains(a), groups[j].contains(b), active_path(r, p, a, b)]
        0 <= i < groups.len() && 0 <= j < groups.len() && i != j
        && groups[i].contains(a) && groups[j].contains(b) && active_path(r, p, a, b)
}

/// `r2` has the neighbour sets of `r1`, and every room active in `r1` is active in `r2`.
pub open spec fn keeps_active(r1: MapRegion, r2: MapRegion) -> bool {
    &&& r1.neighbour_slots() == r2.neighbour_slots()
    &&& r1.entries().len() == r2.entries().len()
    &&& forall|x: int| 0 <= x < r1.entries().len() && #[trigger] r1.entries()[x] is Active ==> r2.entries()[x] is Active
}

pub proof fn lemma_reached_frame(r1: MapRegion, r2: MapRegion, groups: Seq<Seq<usize>>, y: usize)
    requires
        keeps_active(r1, r2),
        reached_from(r1, groups, y),
    ensures
        reached_from(r2, groups, y),
{
    let (g, a, p) = choose|g: int, a: usize, p: Seq<usize>| #![trigger groups[g].contains(a), active_path(r1, p, a, y)] 0 <= g < groups.len() && groups[g].contains(a) && active_path(r1, p, a, y);
    assert forall|k: int| 0 <= k < p.len() implies r2.entries()[#[trigger] p[k] as int] is Active by {
        assert(r1.entries()[p[k] as int] is Active);
    }
    lemma_active_path_frame(r1, r2, p, a, y);
}

pub proof fn lemma_joins_frame(r1: MapRegion, r2: MapRegion, groups: Seq<Seq<usize>>)
    requires
        keeps_active(r1, r2),
        joins_two(r1, groups),
    ensures
        joins_two(r2, groups),
{
    let (i, j, a, b, p) = choose|i: int, j: int, a: usize, b: usize, p: Seq<usize>|
        #![trigger groups[i].contains(a), groups[j].contains(b), active_path(r1, p, a, b)]
        0 <= i < groups.len() && 0 <= j < groups.len() && i != j
        && groups[i].contains(a) && groups[j].contains(b) && active_path(r1, p, a, b);
    assert forall|k: int| 0 <= k < p.len() implies r2.entries()[#[trigger] p[k] as int] is Active by {
        assert(r1.entries()[p[k] as int] is Active);
    }
    lemma_active_path_frame(r1, r2, p, a, b);
}

/// A walk of `r1` whose first `k + 1` rooms are active in `r2` (with the same
/// neighbour sets) is, cut there, a walk through active rooms of `r2`.
pub proof fn lemma_walk_prefix_active(r1: MapRegion, r2: MapRegion, p: Seq<usize>, a: usize, b: usize, k: int)
    requires
        is_walk(r1, p, a, b),
        r1.neighbour_slots() == r2.neighbour_slots(),
        r1.entries().len() == r2.entries().len(),
        0 <= k < p.len(),
        forall|i: int| 0 <= i <= k ==> r2.entries()[#[trigger] p[i] as int] is Active,
    ensures
        active_path(r2, p.take(k + 1), a, p[k]),
{
    let q = p.take(k + 1);
    assert forall|i: int| 0 <= i < q.len() implies (#[trigger] q[i] as int) < r2.entries().len() && filled(r2.entries()[q[i] as int])
        && r2.entries()[q[i] as int] is Active by {
        assert(q[i] == p[i]);
    }
    assert forall|i: int| 0 <= i < q.len() - 1 implies r2.neighbours_of(#[trigger] q[i] as int).contains(q[i + 1]) by {
        assert(q[i] == p[i] && q[i + 1] == p[i + 1]);
        assert(r1.neighbours_of(p[i] as int).contains(p[i + 1]));
    }
}

/// Two regions with the same neighbour sets and the same filled slots have
/// the same walks.
pub proof fn lemma_walk_frame(r1: MapRegion, r2: MapRegion, p: Seq<usize>, x: usize, y: usize)
    requires
        is_walk(r1, p, x, y),
        r1.neighbour_slots() == r2.neighbour_slots(),
        r1.entries().len() == r2.entries().len(),
        forall|i: int| 0 <= i < r1.entries().len() ==> filled(#[trigger] r2.entries()[i]) == filled(r1.entries()[i]),
    ensures
        is_walk(r2, p, x, y),
{
    assert forall|k: int| 0 <= k < p.len() implies (#[trigger] p[k] as int) < r2.entries().len() && filled(r2.entries()[p[k] as int]) by {
        assert(filled(r1.entries()[p[k] as int]));
    }
    assert forall|k: int| 0 <= k < p.len() - 1 implies r2.neighbours_of(#[trigger] p[k] as int).contains(p[k + 1]) by {
        assert(r1.neighbours_of(p[k] as int).contains(p[k + 1]));
    }
}

/// Filled-connectedness depends only on the neighbour sets and the filled slots.
pub proof fn lemma_filled_connected_frame(r1: MapRegion, r2: MapRegion)
    requires
        filled_connected(r1),
        r1.neighbour_slots() == r2.neighbour_slots(),
        r1.entries().len() == r2.entries().len(),
        forall|i: int| 0 <= i < r1.entries().len() ==> filled(#[trigger] r2.entries()[i]) == filled(r1.entries()[i]),
    ensures
        filled_connected(r2),
{
    assert forall|x: usize, y: usize| (x as int) < r2.entries().len() && (y as int) < r2.entries().len()
        && #[trigger] filled(r2.entries()[x as int]) && #[trigger] filled(r2.entries()[y as int])
        implies exists|p: Seq<usize>| #[trigger] is_walk(r2, p, x, y) by {
        assert(filled(r1.entries()[x as int]) && filled(r1.entries()[y as int]));
        let p = choose|p: Seq<usize>| #[trigger] is_walk(r1, p, x, y);
        lemma_walk_frame(r1, r2, p, x, y);
    }
}

/// A walk through active rooms stays one where the neighbour sets are the
/// same and every room active before is still active.
pub proof fn lemma_active_path_frame(r1: MapRegion, r2: MapRegion, p: Seq<usize>, x: usize, y: usize)
    requires
        active_path(r1, p, x, y),
        r1.neighbour_slots() == r2.neighbour_slots(),
        r1.entries().len() == r2.entries().len(),
        forall|k: int| 0 <= k < p.len() ==> r2.entries()[#[trigger] p[k] as int] is Active,
    ensures
        active_path(r2, p, x, y),
{
    assert forall|k: int| 0 <= k < p.len() implies (#[trigger] p[k] as int) < r2.entries().len() && filled(r2.entries()[p[k] as int]) by {
        assert(filled(r1.entries()[p[k] as int]));
    }
    assert forall|k: int| 0 <= k < p.len() - 1 implies r2.neighbours_of(#[trigger] p[k] as int).contains(p[k + 1]) by {
        assert(r1.neighbours_of(p[k] as int).contains(p[k + 1]));
    }
}

/// A walk through active rooms can be walked backwards.
pub proof fn lemma_active_path_reverse(r: MapRegion, p: Seq<usize>, x: usize, y: usize)
    requires
        r.graph_ok(),
        active_path(r, p, x, y),
    ensures
        active_path(r, p.reverse(), y, x),
{
    let q = p.reverse();
    let n = p.len();
    assert forall|k: int| 0 <= k < q.len() implies (#[trigger] q[k] as int) < r.entries().len() && filled(r.entries()[q[k] as int])
        && r.entries()[q[k] as int] is Active by {
        assert(q[k] == p[n - 1 - k]);
    }
    assert forall|k: int| 0 <= k < q.len() - 1 implies r.neighbours_of(#[trigger] q[k] as int).contains(q[k + 1]) by {
        assert(q[k] == p[n - 1 - k]);
        assert(q[k + 1] == p[n - 2 - k]);
        let a = p[n - 2 - k];
        assert(r.neighbours_of(a as int).contains(p[n - 1 - k]));
        assert(filled(r.entries()[a as int]));
    }
    assert(q[0] == p[n - 1]);
    assert(q[q.len() - 1] == p[0]);
}

/// Two walks through active rooms, the second starting where the first
/// ends, make one.
pub proof fn lemma_active_path_concat(r: MapRegion, p: Seq<usize>, q: Seq<usize>, x: usize, y: usize, z: usize)
    requires
        active_path(r, p, x, y),
        active_path(r, q, y, z),
    ensures
        active_path(r, p + q.skip(1), x, z),
{
    let w = p + q.skip(1);
    let n = p.len();
    assert forall|k: int| 0 <= k < w.len() implies (#[trigger] w[k] as int) < r.entries().len() && filled(r.entries()[w[k] as int])
        && r.entries()[w[k] as int] is Active by {
        if k >= n {
            assert(w[k] == q[k - n + 1]);
        }
    }
    assert forall|k: int| 0 <= k < w.len() - 1 implies r.neighbours_of(#[trigger] w[k] as int).contains(w[k + 1]) by {
        if k < n - 1 {
            assert(w[k] == p[k] && w[k + 1] == p[k + 1]);
        } else if k == n - 1 {
            assert(w[k] == p[n - 1]);
            assert(w[k + 1] == q[1]);
            assert(q[0] == y);
        } else {
            assert(w[k] == q[k - n + 1] && w[k + 1] == q[k - n + 2]);
        }
    }
    if q.len() == 1 {
        assert(w =~= p);
    } else {
        assert(w[w.len() - 1] == q[q.len() - 1]);
    }
}

/// A walk through active rooms, cut after its `k`-th room, is one to that room.
pub proof fn lemma_active_path_prefix(r: MapRegion, p: Seq<usize>, x: usize, y: usize, k: int)
    requires
        active_path(r, p, x, y),
        0 <= k < p.len(),
    ensures
        active_path(r, p.take(k + 1), x, p[k]),
{
    let q = p.take(k + 1);
    assert forall|i: int| 0 <= i < q.len() implies (#[trigger] q[i] as int) < r.entries().len() && filled(r.entries()[q[i] as int])
        && r.entries()[q[i] as int] is Active by {
        assert(q[i] == p[i]);
    }
    assert forall|i: int| 0 <= i < q.len() - 1 implies r.neighbours_of(#[trigger] q[i] as int).contains(q[i + 1]) by {
        assert(q[i] == p[i] && q[i + 1] == p[i + 1]);
    }
}

/// A group closed under active adjacency holds every room that a walk
/// through active rooms reaches from one of its rooms.
pub proof fn lemma_group_holds_path(groups: Seq<Seq<usize>>, r: MapRegion, g: int, p: Seq<usize>, x: usize, y: usize)
    requires
        groups_split_active(groups, r),
        0 <= g < groups.len(),
        groups[g].contains(x),
        active_path(r, p, x, y),
    ensures
        groups[g].contains(y),
    decreases p.len(),
{
    if p.len() > 1 {
        let q = p.drop_last();
        let m = q[q.len() - 1];
        assert forall|k: int| 0 <= k < q.len() implies (#[trigger] q[k] as int) < r.entries().len() && filled(r.entries()[q[k] as int]) by {
            assert(q[k] == p[k]);
        }
        assert forall|k: int| 0 <= k < q.len() implies r.entries()[#[trigger] q[k] as int] is Active by {
            assert(q[k] == p[k]);
        }
        assert forall|k: int| 0 <= k < q.len() - 1 implies r.neighbours_of(#[trigger] q[k] as int).contains(q[k + 1]) by {
            assert(q[k] == p[k] && q[k + 1] == p[k + 1]);
        }
        lemma_group_holds_path(groups, r, g, q, x, m);
        assert(p[p.len() - 2] == m);
        assert(r.neighbours_of(m as int).contains(y));
        assert(r.entries()[p[p.len() - 1] as int] is Active);
    }
}

/// An injective map from `0..n` into `0..k` leaving out `missing` (when
/// `skip`) shows `n <= k` (`n <= k - 1` when `skip`).
pub proof fn lemma_injection_bound(n: int, k: int, h: spec_fn(int) -> int, skip: bool, missing: int)
    requires
        0 <= n,
        0 <= k,
        forall|i: int| 0 <= i < n ==> 0 <= #[trigger] h(i) < k,
        forall|i: int, j: int| 0 <= i < n && 0 <= j < n && #[trigger] h(i) == #[trigger] h(j) ==> i == j,
        skip ==> 0 <= missing < k,
        skip ==> forall|i: int| 0 <= i < n ==> #[trigger] h(i) != missing,
    ensures
        n <= k,
        skip ==> n <= k - 1,
{
    let dom = set_int_range(0, n);
    let img = dom.map(h);
    lemma_int_range(0, n);
    lemma_int_range(0, k);
    assert(vstd::relations::injective_on(h, dom)) by {
        assert forall|i: int, j: int| dom.contains(i) && dom.contains(j) && #[trigger] h(i) == #[trigger] h(j) implies i == j by {}
    }
    lemma_map_size(dom, img, h);
    let range = if skip { set_int_range(0, k).remove(missing) } else { set_int_range(0, k) };
    assert(img.subset_of(range)) by {
        assert forall|v: int| img.contains(v) implies range.contains(v) by {
            let i = choose|i: int| dom.contains(i) && h(i) == v;
        }
    }
    lemma_len_subset(img, range);
}

/// Every room of a walk through active rooms from a room of a group lies in
/// that group.
pub proof fn lemma_path_in_group(groups: Seq<Seq<usize>>, r: MapRegion, g: int, p: Seq<usize>, x: usize, y: usize)
    requires
        groups_split_active(groups, r),
        0 <= g < groups.len(),
        groups[g].contains(x),
        active_path(r, p, x, y),
    ensures
        forall|k: int| 0 <= k < p.len() ==> groups[g].contains(#[trigger] p[k]),
{
    assert forall|k: int| 0 <= k < p.len() implies groups[g].contains(#[trigger] p[k]) by {
        lemma_active_path_prefix(r, p, x, y, k);
        lemma_group_holds_path(groups, r, g, p.take(k + 1), x, p[k]);
    }
}

/// There are no more groups than slots.
pub proof fn lemma_groups_count_bound(groups: Seq<Seq<usize>>, r: MapRegion)
    requires
        groups_split_active(groups, r),
    ensures
        groups.len() <= r.entries().len(),
{
    let h = |g: int| groups[g][0] as int;
    assert forall|g: int| 0 <= g < groups.len() implies 0 <= #[trigger] h(g) < r.entries().len() by {
        assert(groups[g].len() > 0);
    }
    assert forall|i: int, j: int| 0 <= i < groups.len() && 0 <= j < groups.len() && #[trigger] h(i) == #[trigger] h(j) implies i == j by {
        assert(groups[i].contains(groups[i][0]));
        assert(groups[j].contains(groups[j][0]));
        if i < j {
            assert(!groups[j].contains(groups[i][0]));
        } else if j < i {
            assert(!groups[i].contains(groups[j][0]));
        }
    }
    lemma_injection_bound(groups.len() as int, r.entries().len() as int, h, false, 0);
}

/// Some room lies in both `x` and `y`.
pub open spec fn groups_meet(x: Seq<usize>, y: Seq<usize>) -> bool {
    exists|a: usize| x.contains(a) && y.contains(a)
}

/// Two rooms of one group, each reachable from the group's first room, lie
/// in the same group of `newg`.
proof fn lemma_same_new_group(big: Seq<Seq<usize>>, r: MapRegion, newg: Seq<Seq<usize>>, g: int, a: usize, b: usize, i: int)
    requires
        r.graph_ok(),
        groups_split_active(newg, r),
        0 <= g < big.len(),
        big[g].len() > 0,
        forall|x: usize| #[trigger] big[g].contains(x) ==> exists|p: Seq<usize>| #[trigger] active_path(r, p, big[g][0], x),
        big[g].contains(a),
        big[g].contains(b),
        0 <= i < newg.len(),
        newg[i].contains(a),
    ensures
        newg[i].contains(b),
{
    let pa = choose|p: Seq<usize>| #[trigger] active_path(r, p, big[g][0], a);
    let pb = choose|p: Seq<usize>| #[trigger] active_path(r, p, big[g][0], b);
    lemma_active_path_reverse(r, pa, big[g][0], a);
    lemma_active_path_concat(r, pa.reverse(), pb, a, big[g][0], b);
    lemma_group_holds_path(newg, r, i, pa.reverse() + pb.skip(1), a, b);
}

/// The facts about `big` and the groups `newg` of `r` that show fewer groups remain.
pub open spec fn tied_to(big: Seq<Seq<usize>>, r: MapRegion, newg: Seq<Seq<usize>>) -> bool {
    &&& r.graph_ok()
    &&& groups_split_active(newg, r)
    &&& forall|g: int| 0 <= g < big.len() ==> (#[trigger] big[g]).len() > 0
    &&& forall|g: int, x: usize| 0 <= g < big.len() && #[trigger] big[g].contains(x)
        ==> (x as int) < r.entries().len() && r.entries()[x as int] is Active
    &&& forall|g: int, x: usize| 0 <= g < big.len() && #[trigger] big[g].contains(x)
        ==> exists|p: Seq<usize>| #[trigger] active_path(r, p, big[g][0], x)
    &&& forall|y: int| 0 <= y < r.entries().len() && #[trigger] r.entries()[y] is Active
        ==> (exists|g: int| 0 <= g < big.len() && #[trigger] big[g].contains(y as usize)) || reached_from(r, big, y as usize)
}

proof fn lemma_new_group_meets_big(big: Seq<Seq<usize>>, r: MapRegion, newg: Seq<Seq<usize>>, i: int)
    requires
        tied_to(big, r, newg),
        0 <= i < newg.len(),
    ensures
        exists|g: int| 0 <= g < big.len() && #[trigger] groups_meet(big[g], newg[i]),
{
    let y = newg[i][0];
    assert(newg[i].len() > 0);
    assert(newg[i].contains(y));
    assert(r.entries()[y as int] is Active);
    if exists|g: int| 0 <= g < big.len() && #[trigger] big[g].contains(y) {
        let g = choose|g: int| 0 <= g < big.len() && #[trigger] big[g].contains(y);
        assert(groups_meet(big[g], newg[i]));
    } else {
        let (g, a, p) = choose|g: int, a: usize, p: Seq<usize>| #![trigger big[g].contains(a), active_path(r, p, a, y)]
            0 <= g < big.len() && big[g].contains(a) && active_path(r, p, a, y);
        lemma_active_path_reverse(r, p, a, y);
        lemma_group_holds_path(newg, r, i, p.reverse(), y, a);
        assert(groups_meet(big[g], newg[i]));
    }
}

proof fn lemma_big_in_one_new(big: Seq<Seq<usize>>, r: MapRegion, newg: Seq<Seq<usize>>, g: int, i: int, j: int)
    requires
        tied_to(big, r, newg),
        0 <= g < big.len(),
        0 <= i < newg.len(),
        0 <= j < newg.len(),
        groups_meet(big[g], newg[i]),
        groups_meet(big[g], newg[j]),
    ensures
        i == j,
{
    let a = choose|a: usize| big[g].contains(a) && newg[i].contains(a);
    let b = choose|a: usize| big[g].contains(a) && newg[j].contains(a);
    assert forall|x: usize| #[trigger] big[g].contains(x) implies exists|p: Seq<usize>| #[trigger] active_path(r, p, big[g][0], x) by {}
    lemma_same_new_group(big, r, newg, g, a, b, i);
    if i < j {
        assert(!newg[j].contains(b));
    } else if j < i {
        assert(!newg[i].contains(b));
    }
}

/// After joining two of `big`'s groups, and with every active room tied to
/// one of them, fewer groups are left than `big` has (no more when it has
/// at most one).
pub proof fn lemma_fewer_groups(big: Seq<Seq<usize>>, r: MapRegion, newg: Seq<Seq<usize>>)
    requires
        tied_to(big, r, newg),
        big.len() >= 2 ==> joins_two(r, big),
    ensures
        newg.len() <= big.len(),
        big.len() >= 2 ==> newg.len() <= big.len() - 1,
{
    let h = |i: int| choose|g: int| 0 <= g < big.len() && #[trigger] groups_meet(big[g], newg[i]);
    assert forall|i: int| 0 <= i < newg.len() implies 0 <= #[trigger] h(i) < big.len() && groups_meet(big[h(i)], newg[i]) by {
        lemma_new_group_meets_big(big, r, newg, i);
    }
    assert forall|i: int, j: int| 0 <= i < newg.len() && 0 <= j < newg.len() && #[trigger] h(i) == #[trigger] h(j) implies i == j by {
        lemma_big_in_one_new(big, r, newg, h(i), i, j);
    }
    lemma_injection_bound(newg.len() as int, big.len() as int, h, false, 0);
    if big.len() >= 2 {
        let (i0, j0, a, b, p) = choose|i: int, j: int, a: usize, b: usize, p: Seq<usize>|
            #![trigger big[i].contains(a), big[j].contains(b), active_path(r, p, a, b)]
            0 <= i < big.len() && 0 <= j < big.len() && i != j
            && big[i].contains(a) && big[j].contains(b) && active_path(r, p, a, b);
        assert(r.entries()[a as int] is Active);
        let t = choose|t: int| 0 <= t < newg.len() && #[trigger] newg[t].contains(a);
        lemma_group_holds_path(newg, r, t, p, a, b);
        assert(groups_meet(big[i0], newg[t]));
        assert(groups_meet(big[j0], newg[t]));
        let m = if h(t) == i0 { j0 } else { i0 };
        assert forall|j: int| 0 <= j < newg.len() implies #[trigger] h(j) != m by {
            if h(j) == m {
                lemma_big_in_one_new(big, r, newg, m, j, t);
            }
        }
        lemma_injection_bound(newg.len() as int, big.len() as int, h, true, m);
    }
}

} // verus!
