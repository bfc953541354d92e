//! A region of the map: a buffer of room slots, each empty, active or
//! removed, together with the neighbour set of every slot.
use vstd::prelude::*;

use std::collections::HashMap;
use vstd::std_specs::iter::IteratorSpec;

use crate::neighbour_set::{set_elems, set_new, set_insert, set_remove, set_to_vec, set_extend, NeighbourSet};
use crate::std_wrappers::{vec_shrink_to_fit, vec_shrink_to, vec_capacity};
use crate::types::{Cell, Rect, Room, RoomId, GeneratedMap, Door};

verus! {

/// A slot of a region's room buffer.
#[derive(Debug, Clone, PartialEq, Eq)]
pub enum RoomEntry {
    Empty,
    Active(Room),
    Removed(Room),
}

impl Default for RoomEntry {
    fn default() -> (e: RoomEntry)
        ensures
            e is Empty,
    {
        RoomEntry::Empty
    }
}

impl RoomEntry {
    /// The room held by a non-empty slot.
    pub open spec fn spec_room(self) -> Room {
        match self {
            RoomEntry::Active(room) => room,
            RoomEntry::Removed(room) => room,
            RoomEntry::Empty => arbitrary(),
        }
    }

    /// The same kind of slot, holding `room` instead.
    pub open spec fn with_room(self, room: Room) -> RoomEntry {
        match self {
            RoomEntry::Active(_) => RoomEntry::Active(room),
            RoomEntry::Removed(_) => RoomEntry::Removed(room),
            RoomEntry::Empty => RoomEntry::Empty,
        }
    }

    pub fn is_active(&self) -> (r: bool)
        ensures
            r == self is Active,
    {
        matches!(self, RoomEntry::Active(_))
    }

    pub fn is_removed(&self) -> (r: bool)
        ensures
            r == self is Removed,
    {
        matches!(self, RoomEntry::Removed(_))
    }

    pub fn is_empty(&self) -> (r: bool)
        ensures
            r == self is Empty,
    {
        matches!(self, RoomEntry::Empty)
    }

    /// The room of an active or removed slot.
    pub fn take(self) -> (room: Room)
        requires
            !(self is Empty),
        ensures
            room == self.spec_room(),
    {
        match self {
            RoomEntry::Active(room) => room,
            RoomEntry::Removed(room) => room,
            RoomEntry::Empty => vstd::pervasive::unreached(),
        }
    }
}

/// The elements of an optional neighbour set.
pub open spec fn slot_view(o: Option<NeighbourSet>) -> Option<Set<usize>> {
    match o {
        Some(s) => Some(set_elems(s)),
        None => None,
    }
}

/// The rooms of the active slots, in slot order.
pub open spec fn active_rooms(s: Seq<RoomEntry>) -> Seq<Room>
    decreases s.len(),
{
    if s.len() == 0 {
        Seq::empty()
    } else {
        let rest = active_rooms(s.drop_last());
        if s.last() is Active {
            rest.push(s.last().spec_room())
        } else {
            rest
        }
    }
}

/// The rooms of the active slots of a prefix come first among those of the
/// whole sequence, and there are no more of them.
pub proof fn lemma_active_rooms_prefix(s: Seq<RoomEntry>, n: int)
    requires
        0 <= n <= s.len(),
    ensures
        active_rooms(s.take(n)).len() <= active_rooms(s).len(),
        forall|i: int| 0 <= i < active_rooms(s.take(n)).len() ==> #[trigger] active_rooms(s)[i] == active_rooms(s.take(n))[i],
    decreases s.len(),
{
    if n < s.len() {
        lemma_active_rooms_prefix(s.drop_last(), n);
        assert(s.drop_last().take(n) =~= s.take(n));
    } else {
        assert(s.take(n) =~= s);
    }
}

/// The room of active slot `a` has its place among the active rooms, after
/// those of the active slots before it.
pub proof fn lemma_active_room_place(s: Seq<RoomEntry>, a: int)
    requires
        0 <= a < s.len(),
        s[a] is Active,
    ensures
        active_rooms(s.take(a)).len() < active_rooms(s).len(),
        active_rooms(s)[active_rooms(s.take(a)).len() as int] == s[a].spec_room(),
        active_rooms(s.take(a + 1)).len() == active_rooms(s.take(a)).len() + 1,
{
    assert(s.take(a + 1).drop_last() =~= s.take(a));
    assert(s.take(a + 1).last() == s[a]);
    lemma_active_rooms_prefix(s, a + 1);
}

/// Whether a slot is of a wanted kind.
pub open spec fn selected(e: RoomEntry, want_active: bool, want_removed: bool) -> bool {
    (want_active && e is Active) || (want_removed && e is Removed)
}

/// `ids` lists, in increasing order, exactly the ids of the first `n` slots
/// of `entries` that are of a wanted kind.
pub open spec fn lists_ids(ids: Seq<usize>, entries: Seq<RoomEntry>, n: int, want_active: bool, want_removed: bool) -> bool {
    &&& forall|k: int| 0 <= k < ids.len() ==> 0 <= #[trigger] ids[k] < n && selected(entries[ids[k] as int], want_active, want_removed)
    &&& forall|k: int, l: int| 0 <= k < l < ids.len() ==> ids[k] < ids[l]
    &&& forall|i: int| 0 <= i < n && #[trigger] selected(entries[i], want_active, want_removed) ==> ids.contains(i as usize)
}

/// The neighbour slots after merging room `b` into room `a`: `a` takes both
/// neighbour sets (without `a` and `b`), `b` loses its set, and every room of
/// that union sees `a` in place of `b`.
pub open spec fn merged_neighbour_slots(slots: Seq<Option<Set<usize>>>, a: int, b: int) -> Seq<Option<Set<usize>>> {
    let u = slots[a]->0.remove(b as usize).union(slots[b]->0.remove(a as usize));
    Seq::new(slots.len(), |i: int|
        if i == a {
            Some(u)
        } else if i == b {
            None
        } else if u.contains(i as usize) {
            Some(slots[i]->0.remove(b as usize).insert(a as usize))
        } else {
            slots[i]
        })
}

/// A neighbour slot with every id raised by `offset`.
pub open spec fn shifted_slot(o: Option<Set<usize>>, offset: int) -> Option<Set<usize>> {
    match o {
        Some(s) => Some(Set::new(|y: usize| y >= offset && s.contains((y - offset) as usize))),
        None => None,
    }
}

/// A new set holding every element of `s` raised by `offset`.
fn shifted_set(s: &NeighbourSet, offset: usize) -> (r: NeighbourSet)
    requires
        forall|x: usize| set_elems(*s).contains(x) ==> x + offset <= usize::MAX,
    ensures
        Some(set_elems(r)) == shifted_slot(Some(set_elems(*s)), offset as int),
{
    let ids = set_to_vec(s);
    let mut r = set_new();
    let mut i: usize = 0;
    while i < ids.len()
        invariant
            0 <= i <= ids.len(),
            ids@.to_set() == set_elems(*s),
            forall|x: usize| set_elems(*s).contains(x) ==> x + offset <= usize::MAX,
            forall|y: usize| #[trigger] set_elems(r).contains(y) <==> (y >= offset && ids@.take(i as int).contains((y - offset) as usize)),
        decreases ids.len() - i,
    {
        let x = ids[i];
        proof {
            assert(ids@.to_set().contains(x));
            assert(ids@.take(i + 1) =~= ids@.take(i as int).push(x));
            assert forall|z: usize| #[trigger] ids@.take(i + 1).contains(z) <==> (ids@.take(i as int).contains(z) || z == x) by {
                crate::seq_facts::lemma_push_contains(ids@.take(i as int), x, z);
            }
        }
        set_insert(&mut r, x + offset);
        i = i + 1;
    }
    proof {
        assert(ids@.take(ids@.len() as int) =~= ids@);
        assert forall|z: usize| ids@.contains(z) <==> set_elems(*s).contains(z) by {
            assert(ids@.to_set().contains(z) == ids@.contains(z));
        }
        assert(set_elems(r) =~= Set::new(|y: usize| y >= offset && set_elems(*s).contains((y - offset) as usize)));
    }
    r
}

/// Whether a slot holds a room (active or removed).
pub open spec fn filled(e: RoomEntry) -> bool {
    !(e is Empty)
}

/// The number of slots that hold a room.
pub open spec fn count_filled(s: Seq<RoomEntry>) -> nat
    decreases s.len(),
{
    if s.len() == 0 {
        0
    } else {
        count_filled(s.drop_last()) + if filled(s.last()) { 1nat } else { 0nat }
    }
}

proof fn lemma_count_filled_update(s: Seq<RoomEntry>, i: int, x: RoomEntry)
    requires
        0 <= i < s.len(),
    ensures
        count_filled(s.update(i, x)) + (if filled(s[i]) { 1int } else { 0int })
            == count_filled(s) + (if filled(x) { 1int } else { 0int }),
    decreases s.len(),
{
    if i == s.len() - 1 {
        assert(s.update(i, x).drop_last() =~= s.drop_last());
    } else {
        assert(s.update(i, x).drop_last() =~= s.drop_last().update(i, x));
        lemma_count_filled_update(s.drop_last(), i, x);
    }
}

/// In a sequence where no room follows an empty slot, the rooms fill exactly
/// the first `count_filled` slots.
proof fn lemma_count_filled_prefix(s: Seq<RoomEntry>)
    requires
        forall|i: int, j: int| 0 <= i < j < s.len() && !filled(#[trigger] s[i]) ==> !filled(#[trigger] s[j]),
    ensures
        count_filled(s) <= s.len(),
        forall|i: int| 0 <= i < s.len() ==> (filled(#[trigger] s[i]) <==> i < count_filled(s)),
    decreases s.len(),
{
    if s.len() > 0 {
        let t = s.drop_last();
        assert forall|i: int, j: int| 0 <= i < j < t.len() && !filled(#[trigger] t[i]) implies !filled(#[trigger] t[j]) by {
            assert(s[i] == t[i] && s[j] == t[j]);
        }
        lemma_count_filled_prefix(t);
        if filled(s.last()) {
            assert forall|i: int| 0 <= i < t.len() implies filled(#[trigger] t[i]) by {
                assert(s[i] == t[i]);
            }
        }
        assert forall|i: int| 0 <= i < s.len() implies (filled(#[trigger] s[i]) <==> i < count_filled(s)) by {
            if i < t.len() {
                assert(s[i] == t[i]);
            }
        }
    }
}

/// `ids` lists, in increasing order, exactly the slots below `n` that are filled
/// (`want_filled`) or empty (`!want_filled`).
pub open spec fn lists_slots(ids: Seq<usize>, entries: Seq<RoomEntry>, n: int, want_filled: bool) -> bool {
    &&& forall|k: int| 0 <= k < ids.len() ==> 0 <= #[trigger] ids[k] < n && filled(entries[ids[k] as int]) == want_filled
    &&& forall|k: int, l: int| 0 <= k < l < ids.len() ==> ids[k] < ids[l]
    &&& forall|i: int| 0 <= i < n && #[trigger] filled(entries[i]) == want_filled ==> ids.contains(i as usize)
}

/// Where compacting moves the filled slot `fs[m]` (`fs` the filled slots and
/// `es` the empty ones, both ascending): the `k`-th filled slot from the top
/// goes into the `k`-th empty slot from the bottom when it lies above it, and
/// otherwise stays.
pub open spec fn moved_slot(fs: Seq<usize>, es: Seq<usize>, m: int) -> int {
    let k = fs.len() - 1 - m;
    if k < es.len() && fs[m] > es[k] { es[k] as int } else { fs[m] as int }
}

/// The position of a listed slot inside a sorted list of slot ids.
proof fn lemma_sorted_index(ids: Seq<usize>, p: usize) -> (k: int)
    requires
        ids.contains(p),
    ensures
        0 <= k < ids.len(),
        ids[k] == p,
{
    choose|k: int| 0 <= k < ids.len() && ids[k] == p
}

/// The image of a set of room ids under a relabelling `t` (old id to new id).
pub open spec fn relabelled(t: Seq<int>, s: Set<usize>) -> Set<usize> {
    Set::new(|y: usize| exists|x: usize| s.contains(x) && #[trigger] t[x as int] == y as int)
}

/// Moving room `n` to position `e` changes the relabelled image of a set only
/// by putting `e` where `n` was.
proof fn lemma_relabel_update(t: Seq<int>, n: usize, e: usize, s: Set<usize>)
    requires
        0 <= n < t.len(),
        t[n as int] == n as int,
        forall|y: usize| s.contains(y) && y != n ==> 0 <= y < t.len() && #[trigger] t[y as int] != n as int && t[y as int] != e as int,
        !s.contains(n) || n != e,
    ensures
        relabelled(t.update(n as int, e as int), s) == (if s.contains(n) {
            relabelled(t, s).remove(n).insert(e)
        } else {
            relabelled(t, s)
        }),
{
    let t2 = t.update(n as int, e as int);
    let lhs = relabelled(t2, s);
    let rhs = if s.contains(n) { relabelled(t, s).remove(n).insert(e) } else { relabelled(t, s) };
    assert forall|z: usize| lhs.contains(z) implies rhs.contains(z) by {
        let x = choose|x: usize| s.contains(x) && #[trigger] t2[x as int] == z as int;
        if x == n {
            assert(z == e);
        } else {
            assert(t[x as int] == z as int);
            assert(relabelled(t, s).contains(z));
            assert(z != n);
        }
    }
    assert forall|z: usize| rhs.contains(z) implies lhs.contains(z) by {
        if s.contains(n) && z == e {
            assert(t2[n as int] == e as int);
        } else {
            let x = choose|x: usize| s.contains(x) && #[trigger] t[x as int] == z as int;
            if x == n {
                assert(z == n);
                assert(false);
            } else {
                assert(t2[x as int] == z as int);
            }
        }
    }
    assert(lhs =~= rhs);
}

/// Some room of `orig` is sent to position `p` by `t`.
pub open spec fn has_source(t: Seq<int>, orig: Seq<RoomEntry>, p: int) -> bool {
    exists|j: int| 0 <= j < orig.len() && filled(orig[j]) && #[trigger] t[j] == p
}

/// The keys of a map keyed by room id, each once.
pub(crate) fn map_keys<V>(m: &HashMap<usize, V>) -> (v: Vec<usize>)
    ensures
        v@.no_duplicates(),
        v@.to_set() == m@.dom(),
{
    let ghost ks = vstd::std_specs::hash::spec_keys_iter(m).remaining().unref();
    let mut v: Vec<usize> = Vec::new();
    for k in it: m.keys()
        invariant
            ks == it.seq().unref(),
            ks.no_duplicates(),
            ks.to_set() == m@.dom(),
            v@ == ks.take(it.index() as int),
    {
        v.push(*k);
        proof {
            assert(v@ =~= ks.take(it.index() + 1));
        }
    }
    proof {
        assert(v@ =~= ks);
    }
    v
}

/// Bounds `(lo, hi)` widened to take in every id of `keys`.
fn widen_bounds(keys: &Vec<usize>, lo: usize, hi: usize) -> (r: (usize, usize))
    requires
        lo <= hi,
    ensures
        r.0 <= lo,
        hi <= r.1,
        r.0 == lo || keys@.contains(r.0),
        r.1 == hi || keys@.contains(r.1),
        forall|x: usize| keys@.contains(x) ==> r.0 <= x <= r.1,
{
    let mut lo = lo;
    let mut hi = hi;
    let ghost lo0 = lo;
    let ghost hi0 = hi;
    let mut i: usize = 0;
    while i < keys.len()
        invariant
            0 <= i <= keys.len(),
            lo <= lo0,
            hi0 <= hi,
            lo == lo0 || keys@.take(i as int).contains(lo),
            hi == hi0 || keys@.take(i as int).contains(hi),
            forall|j: int| 0 <= j < i ==> lo <= #[trigger] keys@[j] <= hi,
        decreases keys.len() - i,
    {
        let k = keys[i];
        proof {
            assert(keys@.take(i + 1) =~= keys@.take(i as int).push(k));
            crate::seq_facts::lemma_push_contains(keys@.take(i as int), k, lo);
            crate::seq_facts::lemma_push_contains(keys@.take(i as int), k, hi);
            crate::seq_facts::lemma_push_contains(keys@.take(i as int), k, k);
        }
        if k < lo {
            lo = k;
        }
        if k > hi {
            hi = k;
        }
        i = i + 1;
    }
    proof {
        assert(keys@.take(keys@.len() as int) =~= keys@);
        assert forall|x: usize| keys@.contains(x) implies lo <= x <= hi by {
            let j = choose|j: int| 0 <= j < keys@.len() && keys@[j] == x;
        }
        if lo != lo0 {
            let j = choose|j: int| 0 <= j < keys@.len() && keys@.take(keys@.len() as int)[j] == lo;
        }
    }
    (lo, hi)
}

/// The least and greatest id found in either list, or `(0, 0)` when both
/// are empty.
#[verifier::spinoff_prover]
#[verifier::rlimit(30)]
fn id_range(a: &Vec<usize>, b: &Vec<usize>) -> (r: (usize, usize))
    ensures
        r.0 == least_id(a@.to_set().union(b@.to_set())),
        r.1 == greatest_id(a@.to_set().union(b@.to_set())),
        forall|x: usize| #[trigger] a@.to_set().union(b@.to_set()).contains(x) ==> r.0 <= x <= r.1,
        r.0 <= r.1,
{
    let ghost all = a@.to_set().union(b@.to_set());
    let (lo, hi) = if a.len() > 0 {
        (a[0], a[0])
    } else if b.len() > 0 {
        (b[0], b[0])
    } else {
        (0, 0)
    };
    let ghost any = a.len() > 0 || b.len() > 0;
    let (lo, hi) = widen_bounds(a, lo, hi);
    let (lo, hi) = widen_bounds(b, lo, hi);
    proof {
        reveal(least_id);
        reveal(greatest_id);
        assert forall|x: usize| all.contains(x) <==> (a@.contains(x) || b@.contains(x)) by {
            assert(a@.to_set().contains(x) == a@.contains(x));
            assert(b@.to_set().contains(x) == b@.contains(x));
        }
        if any {
            if a.len() > 0 {
                assert(a@.contains(a@[0]));
            } else {
                assert(b@.contains(b@[0]));
            }
            assert(all.contains(lo));
            assert(all.contains(hi));
            assert(least_id(all) == lo);
            assert(greatest_id(all) == hi);
        } else {
            assert(!(exists|x: usize| all.contains(x))) by {
                if exists|x: usize| all.contains(x) {
                    let x = choose|x: usize| all.contains(x);
                    assert(a@.contains(x) || b@.contains(x));
                }
            }
        }
    }
    (lo, hi)
}

/// The least id of a set of ids, or 0 for the empty set.
#[verifier::opaque]
pub open spec fn least_id(s: Set<usize>) -> int {
    if exists|x: usize| s.contains(x) {
        (choose|m: usize| s.contains(m) && forall|x: usize| s.contains(x) ==> m <= x) as int
    } else {
        0
    }
}

/// The greatest id of a set of ids, or 0 for the empty set.
#[verifier::opaque]
pub open spec fn greatest_id(s: Set<usize>) -> int {
    if exists|x: usize| s.contains(x) {
        (choose|m: usize| s.contains(m) && forall|x: usize| s.contains(x) ==> x <= m) as int
    } else {
        0
    }
}

/// Every id of a finite set lies between its least and greatest id, and a
/// non-empty set holds both.
#[verifier::rlimit(40)]
#[verifier::spinoff_prover]
pub proof fn lemma_id_bounds(s: Set<usize>)
    requires
        s.finite(),
    ensures
        forall|x: usize| #[trigger] s.contains(x) ==> least_id(s) <= x <= greatest_id(s),
        s.len() > 0 ==> s.contains(least_id(s) as usize) && s.contains(greatest_id(s) as usize),
    decreases s.len(),
{
    reveal(least_id);
    reveal(greatest_id);
    if s.len() == 0 {
        assert(s =~= Set::<usize>::empty()) by {
            if exists|x: usize| s.contains(x) {
                let x = choose|x: usize| s.contains(x);
                assert(s.remove(x).len() < s.len());
            }
        }
    } else {
        let e = s.choose();
        let r = s.remove(e);
        lemma_id_bounds(r);
        let m: usize = if r.len() == 0 || e <= least_id(r) { e } else { least_id(r) as usize };
        let big: usize = if r.len() == 0 || e >= greatest_id(r) { e } else { greatest_id(r) as usize };
        if r.len() == 0 {
            assert forall|x: usize| s.contains(x) implies x == e by {
                if x != e {
                    assert(r.contains(x));
                }
            }
        }
        assert(s.contains(m) && forall|x: usize| s.contains(x) ==> m <= x) by {
            assert forall|x: usize| s.contains(x) implies m <= x by {
                if x != e {
                    assert(r.contains(x));
                }
            }
        }
        assert(s.contains(big) && forall|x: usize| s.contains(x) ==> x <= big) by {
            assert forall|x: usize| s.contains(x) implies x <= big by {
                if x != e {
                    assert(r.contains(x));
                }
            }
        }
    }
}

/// The slot a map entry lands in when ids are shifted down by `base`:
/// removed rooms win over active ones with the same id.
pub open spec fn initial_entry(rooms: Map<usize, Room>, removed: Map<usize, Room>, id: int) -> RoomEntry {
    if id >= 0 && removed.dom().contains(id as usize) {
        RoomEntry::Removed(removed[id as usize])
    } else if id >= 0 && rooms.dom().contains(id as usize) {
        RoomEntry::Active(rooms[id as usize])
    } else {
        RoomEntry::Empty
    }
}

/// The elements of a set lowered by `base`.
pub open spec fn lowered(s: Set<usize>, base: int) -> Set<usize> {
    Set::new(|y: usize| y + base <= usize::MAX && s.contains((y + base) as usize))
}

/// A new set holding every element of `s` lowered by `base`.
fn lowered_set(s: &NeighbourSet, base: usize) -> (r: NeighbourSet)
    requires
        forall|x: usize| set_elems(*s).contains(x) ==> x >= base,
    ensures
        set_elems(r) == lowered(set_elems(*s), base as int),
{
    let ids = set_to_vec(s);
    let mut r = set_new();
    let mut i: usize = 0;
    while i < ids.len()
        invariant
            0 <= i <= ids.len(),
            ids@.to_set() == set_elems(*s),
            forall|x: usize| set_elems(*s).contains(x) ==> x >= base,
            forall|y: usize| #[trigger] set_elems(r).contains(y) <==> (y + base <= usize::MAX && ids@.take(i as int).contains((y + base) as usize)),
        decreases ids.len() - i,
    {
        let x = ids[i];
        proof {
            assert(ids@.to_set().contains(x));
            assert(ids@.take(i + 1) =~= ids@.take(i as int).push(x));
            assert forall|z: usize| #[trigger] ids@.take(i + 1).contains(z) <==> (ids@.take(i as int).contains(z) || z == x) by {
                crate::seq_facts::lemma_push_contains(ids@.take(i as int), x, z);
            }
        }
        set_insert(&mut r, x - base);
        i = i + 1;
    }
    proof {
        assert(ids@.take(ids@.len() as int) =~= ids@);
        assert forall|z: usize| ids@.contains(z) <==> set_elems(*s).contains(z) by {
            assert(ids@.to_set().contains(z) == ids@.contains(z));
        }
        assert(set_elems(r) =~= lowered(set_elems(*s), base as int));
    }
    r
}

/// Moves every room of `table` into the slot of its id lowered by `base`,
/// as a removed room if `removed`, else as an active one.
fn place_rooms(buffer: &mut Vec<RoomEntry>, table: HashMap<RoomId, Room>, keys: &Vec<usize>, base: usize, removed: bool)
    requires
        keys@.no_duplicates(),
        keys@.to_set() == table@.dom(),
        forall|x: usize| #[trigger] table@.dom().contains(x) ==> base <= x && x - base < old(buffer)@.len(),
        base + old(buffer)@.len() <= usize::MAX + 1,
    ensures
        final(buffer)@.len() == old(buffer)@.len(),
        forall|k: int| 0 <= k < old(buffer)@.len() ==> #[trigger] final(buffer)@[k] == (
            if table@.dom().contains((k + base) as usize) {
                if removed {
                    RoomEntry::Removed(table@[(k + base) as usize])
                } else {
                    RoomEntry::Active(table@[(k + base) as usize])
                }
            } else {
                old(buffer)@[k]
            }),
{
    let mut table = table;
    let ghost table0 = table@;
    let ghost buffer0 = buffer@;
    let mut i: usize = 0;
    while i < keys.len()
        invariant
            0 <= i <= keys.len(),
            keys@.no_duplicates(),
            keys@.to_set() == table0.dom(),
            forall|x: usize| #[trigger] table0.dom().contains(x) ==> base <= x && x - base < buffer0.len(),
            base + buffer0.len() <= usize::MAX + 1,
            buffer@.len() == buffer0.len(),
            table@ == table0.remove_keys(keys@.take(i as int).to_set()),
            forall|k: int| 0 <= k < buffer0.len() ==> #[trigger] buffer@[k] == (
                if keys@.take(i as int).contains((k + base) as usize) {
                    if removed {
                        RoomEntry::Removed(table0[(k + base) as usize])
                    } else {
                        RoomEntry::Active(table0[(k + base) as usize])
                    }
                } else {
                    buffer0[k]
                }),
        decreases keys.len() - i,
    {
        let k = keys[i];
        proof {
            assert(keys@.to_set().contains(k));
            assert(keys@.take(i + 1) =~= keys@.take(i as int).push(k));
            keys@.take(i as int).lemma_push_to_set_commute(k);
            if keys@.take(i as int).contains(k) {
                let j = choose|j: int| 0 <= j < i && keys@.take(i as int)[j] == k;
                assert(keys@[j] == k);
                assert(false);
            }
            assert(table@.dom().contains(k));
        }
        let room = table.remove(&k).unwrap();
        if removed {
            buffer.set(k - base, RoomEntry::Removed(room));
        } else {
            buffer.set(k - base, RoomEntry::Active(room));
        }
        proof {
            assert(table@ =~= table0.remove_keys(keys@.take(i + 1).to_set()));
            assert forall|kk: int| 0 <= kk < buffer0.len() implies #[trigger] buffer@[kk] == (
                if keys@.take(i + 1).contains((kk + base) as usize) {
                    if removed {
                        RoomEntry::Removed(table0[(kk + base) as usize])
                    } else {
                        RoomEntry::Active(table0[(kk + base) as usize])
                    }
                } else {
                    buffer0[kk]
                }) by {
                crate::seq_facts::lemma_push_contains(keys@.take(i as int), k, (kk + base) as usize);
            }
        }
        i = i + 1;
    }
    proof {
        assert(keys@.take(keys@.len() as int) =~= keys@);
        assert forall|x: usize| keys@.contains(x) == table0.dom().contains(x) by {
            assert(keys@.to_set().contains(x) == keys@.contains(x));
        }
    }
}

/// Moves every neighbour set of `table` into the slot of its id lowered by
/// `base`, each element lowered alike.
fn place_neighbours(buffer: &mut Vec<Option<NeighbourSet>>, table: HashMap<RoomId, NeighbourSet>, keys: &Vec<usize>, base: usize)
    requires
        keys@.no_duplicates(),
        keys@.to_set() == table@.dom(),
        forall|x: usize| #[trigger] table@.dom().contains(x) ==> base <= x && x - base < old(buffer)@.len(),
        forall|k: usize, x: usize| table@.dom().contains(k) && #[trigger] set_elems(table@[k]).contains(x) ==> base <= x,
        base + old(buffer)@.len() <= usize::MAX + 1,
    ensures
        final(buffer)@.len() == old(buffer)@.len(),
        forall|k: int| 0 <= k < old(buffer)@.len() ==> #[trigger] slot_view(final(buffer)@[k]) == (
            if table@.dom().contains((k + base) as usize) {
                Some(lowered(set_elems(table@[(k + base) as usize]), base as int))
            } else {
                slot_view(old(buffer)@[k])
            }),
{
    let mut table = table;
    let ghost table0 = table@;
    let ghost buffer0 = buffer@;
    let mut i: usize = 0;
    while i < keys.len()
        invariant
            0 <= i <= keys.len(),
            keys@.no_duplicates(),
            keys@.to_set() == table0.dom(),
            forall|x: usize| #[trigger] table0.dom().contains(x) ==> base <= x && x - base < buffer0.len(),
            forall|k: usize, x: usize| table0.dom().contains(k) && #[trigger] set_elems(table0[k]).contains(x) ==> base <= x,
            base + buffer0.len() <= usize::MAX + 1,
            buffer@.len() == buffer0.len(),
            table@ == table0.remove_keys(keys@.take(i as int).to_set()),
            forall|k: int| 0 <= k < buffer0.len() ==> #[trigger] slot_view(buffer@[k]) == (
                if keys@.take(i as int).contains((k + base) as usize) {
                    Some(lowered(set_elems(table0[(k + base) as usize]), base as int))
                } else {
                    slot_view(buffer0[k])
                }),
        decreases keys.len() - i,
    {
        let k = keys[i];
        proof {
            assert(keys@.to_set().contains(k));
            assert(keys@.take(i + 1) =~= keys@.take(i as int).push(k));
            keys@.take(i as int).lemma_push_to_set_commute(k);
            if keys@.take(i as int).contains(k) {
                let j = choose|j: int| 0 <= j < i && keys@.take(i as int)[j] == k;
                assert(keys@[j] == k);
                assert(false);
            }
            assert(table@.dom().contains(k));
        }
        let set = table.remove(&k).unwrap();
        let target = lowered_set(&set, base);
        buffer.set(k - base, Some(target));
        proof {
            assert(table@ =~= table0.remove_keys(keys@.take(i + 1).to_set()));
            assert forall|kk: int| 0 <= kk < buffer0.len() implies #[trigger] slot_view(buffer@[kk]) == (
                if keys@.take(i + 1).contains((kk + base) as usize) {
                    Some(lowered(set_elems(table0[(kk + base) as usize]), base as int))
                } else {
                    slot_view(buffer0[kk])
                }) by {
                crate::seq_facts::lemma_push_contains(keys@.take(i as int), k, (kk + base) as usize);
            }
        }
        i = i + 1;
    }
    proof {
        assert(keys@.take(keys@.len() as int) =~= keys@);
        assert forall|x: usize| keys@.contains(x) == table0.dom().contains(x) by {
            assert(keys@.to_set().contains(x) == keys@.contains(x));
        }
    }
}

/// In a region whose neighbour graph is sound, any two distinct active rooms
/// can be merged.
pub proof fn lemma_graph_allows_merge(r: MapRegion, a: int, b: int)
    requires
        r.graph_ok(),
        a != b,
        0 <= a < r.entries().len(),
        0 <= b < r.entries().len(),
        r.entries()[a] is Active,
        r.entries()[b] is Active,
    ensures
        r.can_merge(a, b),
{
    assert forall|n: usize|
        (r.neighbours_of(a).contains(n) || r.neighbours_of(b).contains(n)) && n != a && n != b
            implies n < r.entries().len() && (#[trigger] r.neighbour_slots()[n as int]) is Some by {
        if r.neighbours_of(a).contains(n) {
            assert(filled(r.entries()[a]));
        } else {
            assert(filled(r.entries()[b]));
        }
    }
}

/// Merging two distinct active rooms keeps the neighbour graph sound: every
/// room still has a set, neighbours are other rooms, and adjacency stays
/// symmetric.
pub proof fn lemma_merge_keeps_graph(before: MapRegion, after: MapRegion, a: int, b: int)
    requires
        before.graph_ok(),
        a != b,
        0 <= a < before.entries().len(),
        0 <= b < before.entries().len(),
        before.entries()[a] is Active,
        before.entries()[b] is Active,
        after.entries().len() == before.entries().len(),
        forall|i: int| 0 <= i < before.entries().len() && i != a && i != b ==> after.entries()[i] == before.entries()[i],
        after.entries()[b] is Empty,
        after.entries()[a] is Active,
        after.neighbour_slots() == merged_neighbour_slots(before.neighbour_slots(), a, b),
    ensures
        after.graph_ok(),
{
    let old_slots = before.neighbour_slots();
    let u = old_slots[a]->0.remove(b as usize).union(old_slots[b]->0.remove(a as usize));
    let len = before.entries().len();
    assert(before.room_buffer@.len() == before.room_buffer.len());
    assert(len <= usize::MAX);
    assert(after.wf());
    assert forall|j: int| 0 <= j < len && filled(after.entries()[j]) implies (#[trigger] after.neighbour_slots()[j]) is Some by {
        if j != a && j != b {
            assert(filled(before.entries()[j]));
        }
    }
    assert forall|j: int, x: usize|
        0 <= j < len && filled(after.entries()[j]) && #[trigger] after.neighbours_of(j).contains(x)
            implies x < len && filled(after.entries()[x as int]) && x != j
                && after.neighbours_of(x as int).contains(j as usize) by {
        assert(filled(before.entries()[a]));
        assert(filled(before.entries()[b]));
        if j == a {
            assert(after.neighbours_of(j) == u);
            if old_slots[a]->0.remove(b as usize).contains(x) {
                assert(before.neighbours_of(a).contains(x));
            } else {
                assert(before.neighbours_of(b).contains(x));
            }
            assert(x != a && x != b);
            assert(u.contains(x));
            assert(after.neighbour_slots()[x as int] == Some(old_slots[x as int]->0.remove(b as usize).insert(a as usize)));
        } else {
            assert(j != b);
            assert(filled(before.entries()[j]));
            if u.contains(j as usize) {
                assert(after.neighbours_of(j) == old_slots[j]->0.remove(b as usize).insert(a as usize));
                if x == a as usize {
                    assert(after.neighbours_of(a) == u);
                } else {
                    assert(before.neighbours_of(j).contains(x));
                    assert(x != b);
                    if u.contains(x) {
                        assert(after.neighbour_slots()[x as int] == Some(old_slots[x as int]->0.remove(b as usize).insert(a as usize)));
                    } else {
                        assert(after.neighbour_slots()[x as int] == old_slots[x as int]);
                    }
                }
            } else {
                assert(after.neighbours_of(j) == before.neighbours_of(j));
                assert(before.neighbours_of(j).contains(x));
                assert(before.neighbours_of(x as int).contains(j as usize));
                if x == a as usize {
                    assert(j as usize != b as usize);
                    assert(old_slots[a]->0.remove(b as usize).contains(j as usize));
                    assert(u.contains(j as usize));
                }
                if x == b as usize {
                    assert(j as usize != a as usize);
                    assert(old_slots[b]->0.remove(a as usize).contains(j as usize));
                    assert(u.contains(j as usize));
                }
                assert(x != a && x != b);
                if u.contains(x) {
                    assert(after.neighbour_slots()[x as int] == Some(old_slots[x as int]->0.remove(b as usize).insert(a as usize)));
                } else {
                    assert(after.neighbour_slots()[x as int] == old_slots[x as int]);
                }
            }
        }
    }
}

/// Appending a region with a sound neighbour graph, its ids shifted past
/// the first region's slots, to another such region gives a sound graph.
pub proof fn lemma_merge_with_keeps_graph(a: MapRegion, b: MapRegion, r: MapRegion)
    requires
        a.graph_ok(),
        b.graph_ok(),
        r.entries() == a.entries() + b.entries(),
        r.neighbour_slots() == a.neighbour_slots() + b.neighbour_slots().map_values(
            |o: Option<Set<usize>>| shifted_slot(o, a.entries().len() as int)),
    ensures
        r.graph_ok(),
{
    let la = a.entries().len() as int;
    assert(r.room_buffer@.len() == r.room_buffer.len());
    assert forall|j: int| 0 <= j < r.entries().len() && filled(r.entries()[j]) implies (#[trigger] r.neighbour_slots()[j]) is Some by {
        if j >= la {
            assert(r.entries()[j] == b.entries()[j - la]);
            assert(b.neighbour_slots()[j - la] is Some);
        } else {
            assert(r.entries()[j] == a.entries()[j]);
        }
    }
    assert forall|j: int, x: usize|
        0 <= j < r.entries().len() && filled(r.entries()[j]) && #[trigger] r.neighbours_of(j).contains(x)
            implies x < r.entries().len() && filled(r.entries()[x as int]) && x != j
                && r.neighbours_of(x as int).contains(j as usize) by {
        if j < la {
            assert(r.entries()[j] == a.entries()[j]);
            assert(r.neighbour_slots()[j] == a.neighbour_slots()[j]);
            assert(a.neighbours_of(j).contains(x));
            assert(r.entries()[x as int] == a.entries()[x as int]);
            assert(r.neighbour_slots()[x as int] == a.neighbour_slots()[x as int]);
        } else {
            let jb = j - la;
            assert(r.entries()[j] == b.entries()[jb]);
            assert(b.neighbour_slots()[jb] is Some);
            assert(r.neighbour_slots()[j] == shifted_slot(b.neighbour_slots()[jb], la));
            let xb = (x - la) as usize;
            assert(b.neighbours_of(jb).contains(xb));
            assert(r.entries()[x as int] == b.entries()[xb as int]);
            assert(b.neighbours_of(xb as int).contains(jb as usize));
            assert(r.neighbour_slots()[x as int] == shifted_slot(b.neighbour_slots()[xb as int], la));
            assert(j <= usize::MAX);
            assert((jb as usize) as int == jb);
            assert(((j as usize) - la) as usize == jb as usize);
        }
    }
}

/// A region of the map. Room ids are indices into its slot buffer; each slot
/// has an optional neighbour set of room ids.
#[derive(Debug, Clone, PartialEq, Eq)]
pub struct MapRegion {
    pub origin_rect: Rect,
    room_buffer: Vec<RoomEntry>,
    neighbour_buffer: Vec<Option<NeighbourSet>>,
}

impl MapRegion {
    /// The rectangle the region was carved from.
    pub closed spec fn origin(self) -> Rect {
        self.origin_rect
    }

    /// The room slots, indexed by room id.
    pub closed spec fn entries(self) -> Seq<RoomEntry> {
        self.room_buffer@
    }

    /// The neighbour set of every slot, indexed by room id.
    pub closed spec fn neighbour_slots(self) -> Seq<Option<Set<usize>>> {
        self.neighbour_buffer@.map_values(|o: Option<NeighbourSet>| slot_view(o))
    }

    /// There are never more slots than a `usize` counts.
    pub proof fn lemma_slot_count_fits(self)
        ensures
            self.entries().len() <= usize::MAX,
    {
        assert(self.room_buffer@.len() == self.room_buffer.len());
    }

    /// Both buffers have one slot per room id.
    pub open spec fn wf(self) -> bool {
        self.entries().len() == self.neighbour_slots().len()
    }

    /// Only slots holding a room have a neighbour set.
    pub open spec fn tidy(self) -> bool {
        forall|j: int| 0 <= j < self.entries().len() && !filled(#[trigger] self.entries()[j]) ==> self.neighbour_slots()[j] is None
    }

    /// The neighbour set of slot `id`, which must exist.
    pub open spec fn neighbours_of(self, id: int) -> Set<usize> {
        self.neighbour_slots()[id]->0
    }

    /// Builds a region from tables keyed by room id. Slots run from the least
    /// to the greatest id of the active and removed rooms, shifted down to
    /// start at 0; a removed room wins over an active one with the same id;
    /// neighbour ids are shifted down alike.
    #[verifier::spinoff_prover]
    pub fn new(
        origin_rect: Rect,
        rooms: HashMap<RoomId, Room>,
        removed: HashMap<RoomId, Room>,
        neighbours: HashMap<RoomId, NeighbourSet>,
    ) -> (r: MapRegion)
        requires
            greatest_id(rooms@.dom().union(removed@.dom())) - least_id(rooms@.dom().union(removed@.dom())) < usize::MAX,
            forall|k: usize| #[trigger] neighbours@.dom().contains(k) ==> least_id(rooms@.dom().union(removed@.dom())) <= k
                <= greatest_id(rooms@.dom().union(removed@.dom())),
            forall|k: usize, x: usize| neighbours@.dom().contains(k) && #[trigger] set_elems(neighbours@[k]).contains(x)
                ==> least_id(rooms@.dom().union(removed@.dom())) <= x,
        ensures
            r.wf(),
            r.origin() == origin_rect,
            r.entries().len() == greatest_id(rooms@.dom().union(removed@.dom())) - least_id(rooms@.dom().union(removed@.dom())) + 1,
            forall|k: int| 0 <= k < r.entries().len() ==> #[trigger] r.entries()[k] == initial_entry(rooms@, removed@,
                k + least_id(rooms@.dom().union(removed@.dom()))),
            forall|k: int| 0 <= k < r.entries().len() ==> #[trigger] r.neighbour_slots()[k] == (
                if neighbours@.dom().contains((k + least_id(rooms@.dom().union(removed@.dom()))) as usize) {
                    Some(lowered(set_elems(neighbours@[(k + least_id(rooms@.dom().union(removed@.dom()))) as usize]),
                        least_id(rooms@.dom().union(removed@.dom()))))
                } else {
                    None
                }),
    {
        let ghost all = rooms@.dom().union(removed@.dom());
        let ghost rooms0 = rooms@;
        let ghost removed0 = removed@;
        let ghost neighbours0 = neighbours@;
        let room_keys = map_keys(&rooms);
        let removed_keys = map_keys(&removed);
        let (min_idx, max_idx) = id_range(&room_keys, &removed_keys);
        proof {
            assert(all == room_keys@.to_set().union(removed_keys@.to_set()));
            assert forall|x: usize| #[trigger] all.contains(x) implies min_idx <= x <= max_idx by {
                assert(room_keys@.to_set().union(removed_keys@.to_set()).contains(x));
            }
            assert forall|x: usize| #[trigger] rooms0.dom().contains(x) implies min_idx <= x <= max_idx by {
                assert(all.contains(x));
            }
            assert forall|x: usize| #[trigger] removed0.dom().contains(x) implies min_idx <= x <= max_idx by {
                assert(all.contains(x));
            }
        }
        let slot_count = max_idx - min_idx + 1;
        let mut room_buffer: Vec<RoomEntry> = Vec::with_capacity(slot_count);
        let mut neighbour_buffer: Vec<Option<NeighbourSet>> = Vec::with_capacity(slot_count);
        let mut i: usize = 0;
        while i < slot_count
            invariant
                0 <= i <= slot_count,
                room_buffer@.len() == i,
                neighbour_buffer@.len() == i,
                forall|k: int| 0 <= k < i ==> #[trigger] room_buffer@[k] == RoomEntry::Empty,
                forall|k: int| 0 <= k < i ==> #[trigger] neighbour_buffer@[k] is None,
            decreases slot_count - i,
        {
            room_buffer.push(RoomEntry::Empty);
            neighbour_buffer.push(None);
            i = i + 1;
        }
        place_rooms(&mut room_buffer, rooms, &room_keys, min_idx, false);
        place_rooms(&mut room_buffer, removed, &removed_keys, min_idx, true);
        proof {
            assert forall|kk: int| 0 <= kk < slot_count implies #[trigger] room_buffer@[kk] == initial_entry(rooms0, removed0, kk + min_idx) by {
                assert((kk + min_idx) as usize == kk + min_idx);
            }
        }
        let neighbour_keys = map_keys(&neighbours);
        place_neighbours(&mut neighbour_buffer, neighbours, &neighbour_keys, min_idx);
        let region = MapRegion { origin_rect, room_buffer, neighbour_buffer };
        proof {
            assert forall|kk: int| 0 <= kk < slot_count implies #[trigger] region.neighbour_slots()[kk] == (
                if neighbours0.dom().contains((kk + min_idx) as usize) {
                    Some(lowered(set_elems(neighbours0[(kk + min_idx) as usize]), min_idx as int))
                } else {
                    None
                }) by {
                assert(region.neighbour_slots()[kk] == slot_view(region.neighbour_buffer@[kk]));
            }
        }
        region
    }

    /// Number of room slots, whatever they hold.
    pub fn room_slots(&self) -> (n: usize)
        ensures
            n == self.entries().len(),
    {
        self.room_buffer.len()
    }

    pub fn is_active(&self, room_id: RoomId) -> (r: bool)
        requires
            room_id < self.entries().len(),
        ensures
            r == self.entries()[room_id as int] is Active,
    {
        self.room_buffer[room_id].is_active()
    }

    pub fn is_removed(&self, room_id: RoomId) -> (r: bool)
        requires
            room_id < self.entries().len(),
        ensures
            r == self.entries()[room_id as int] is Removed,
    {
        self.room_buffer[room_id].is_removed()
    }

    pub fn is_empty(&self, room_id: RoomId) -> (r: bool)
        requires
            room_id < self.entries().len(),
        ensures
            r == self.entries()[room_id as int] is Empty,
    {
        self.room_buffer[room_id].is_empty()
    }

    /// The room of an active or removed slot.
    pub fn get_room(&self, room_id: RoomId) -> (room: &Room)
        requires
            room_id < self.entries().len(),
            !(self.entries()[room_id as int] is Empty),
        ensures
            *room == self.entries()[room_id as int].spec_room(),
    {
        match &self.room_buffer[room_id] {
            RoomEntry::Active(room) => room,
            RoomEntry::Removed(room) => room,
            RoomEntry::Empty => vstd::pervasive::unreached(),
        }
    }

    /// The room of an active or removed slot, to be changed in place.
    pub fn get_mut_room(&mut self, room_id: RoomId) -> (room: &mut Room)
        requires
            room_id < old(self).entries().len(),
            !(old(self).entries()[room_id as int] is Empty),
        ensures
            *room == old(self).entries()[room_id as int].spec_room(),
            final(self).entries() == old(self).entries().update(
                room_id as int,
                old(self).entries()[room_id as int].with_room(*final(room)),
            ),
            final(self).neighbour_slots() == old(self).neighbour_slots(),
            final(self).origin() == old(self).origin(),
    {
        match &mut self.room_buffer[room_id] {
            RoomEntry::Active(room) => room,
            RoomEntry::Removed(room) => room,
            RoomEntry::Empty => vstd::pervasive::unreached(),
        }
    }

    /// Appends an active room with an empty neighbour set; returns its id.
    pub fn insert_room(&mut self, room: Room) -> (room_id: RoomId)
        requires
            old(self).wf(),
        ensures
            room_id == old(self).entries().len(),
            final(self).entries() == old(self).entries().push(RoomEntry::Active(room)),
            final(self).neighbour_slots() == old(self).neighbour_slots().push(Some(Set::<usize>::empty())),
            final(self).origin() == old(self).origin(),
            final(self).wf(),
            old(self).graph_ok() ==> final(self).graph_ok(),
            old(self).tidy() ==> final(self).tidy(),
    {
        let room_id = self.room_buffer.len();
        self.room_buffer.push(RoomEntry::Active(room));
        self.neighbour_buffer.push(Some(set_new()));
        proof {
            assert(self.neighbour_slots() =~= old(self).neighbour_slots().push(Some(Set::<usize>::empty())));
            if old(self).graph_ok() {
                assert forall|j: int, z: usize|
                    0 <= j < self.entries().len() && filled(self.entries()[j]) && #[trigger] self.neighbours_of(j).contains(z)
                        implies z < self.entries().len() && filled(self.entries()[z as int]) && z != j
                            && self.neighbours_of(z as int).contains(j as usize) by {
                    assert(j < old(self).entries().len());
                    assert(old(self).neighbours_of(j).contains(z));
                }
            }
        }
        room_id
    }

    /// The room of an active slot.
    pub fn get_active(&self, room_id: RoomId) -> (room: &Room)
        requires
            room_id < self.entries().len(),
            self.entries()[room_id as int] is Active,
        ensures
            *room == self.entries()[room_id as int].spec_room(),
    {
        match &self.room_buffer[room_id] {
            RoomEntry::Active(room) => room,
            _ => vstd::pervasive::unreached(),
        }
    }

    /// The room of a removed slot.
    pub fn get_removed(&self, room_id: RoomId) -> (room: &Room)
        requires
            room_id < self.entries().len(),
            self.entries()[room_id as int] is Removed,
        ensures
            *room == self.entries()[room_id as int].spec_room(),
    {
        match &self.room_buffer[room_id] {
            RoomEntry::Removed(room) => room,
            _ => vstd::pervasive::unreached(),
        }
    }

    /// Turns an active slot into a removed one; a removed slot stays as it is.
    pub fn mark_removed(&mut self, room_id: RoomId)
        requires
            room_id < old(self).entries().len(),
            !(old(self).entries()[room_id as int] is Empty),
        ensures
            final(self).entries() == old(self).entries().update(
                room_id as int,
                RoomEntry::Removed(old(self).entries()[room_id as int].spec_room()),
            ),
            final(self).neighbour_slots() == old(self).neighbour_slots(),
            final(self).origin() == old(self).origin(),
            old(self).graph_ok() ==> final(self).graph_ok(),
            old(self).tidy() ==> final(self).tidy(),
    {
        let mut entry = RoomEntry::Empty;
        std::mem::swap(&mut entry, &mut self.room_buffer[room_id]);
        let room = entry.take();
        self.room_buffer.set(room_id, RoomEntry::Removed(room));
        proof {
            if old(self).graph_ok() {
                assert forall|j: int| 0 <= j < self.entries().len() && filled(self.entries()[j]) implies (#[trigger] self.neighbour_slots()[j]) is Some by {
                    assert(filled(old(self).entries()[j]));
                }
                assert forall|j: int, z: usize|
                    0 <= j < self.entries().len() && filled(self.entries()[j]) && #[trigger] self.neighbours_of(j).contains(z)
                        implies z < self.entries().len() && filled(self.entries()[z as int]) && z != j
                            && self.neighbours_of(z as int).contains(j as usize) by {
                    assert(filled(old(self).entries()[j]));
                    assert(old(self).neighbours_of(j).contains(z));
                }
            }
        }
    }

    /// Turns a removed slot into an active one; an active slot stays as it is.
    pub fn mark_active(&mut self, room_id: RoomId)
        requires
            room_id < old(self).entries().len(),
            !(old(self).entries()[room_id as int] is Empty),
        ensures
            final(self).entries() == old(self).entries().update(
                room_id as int,
                RoomEntry::Active(old(self).entries()[room_id as int].spec_room()),
            ),
            final(self).neighbour_slots() == old(self).neighbour_slots(),
            final(self).origin() == old(self).origin(),
            old(self).graph_ok() ==> final(self).graph_ok(),
            old(self).tidy() ==> final(self).tidy(),
    {
        let mut entry = RoomEntry::Empty;
        std::mem::swap(&mut entry, &mut self.room_buffer[room_id]);
        let room = entry.take();
        self.room_buffer.set(room_id, RoomEntry::Active(room));
        proof {
            if old(self).graph_ok() {
                assert forall|j: int| 0 <= j < self.entries().len() && filled(self.entries()[j]) implies (#[trigger] self.neighbour_slots()[j]) is Some by {
                    assert(filled(old(self).entries()[j]));
                }
                assert forall|j: int, z: usize|
                    0 <= j < self.entries().len() && filled(self.entries()[j]) && #[trigger] self.neighbours_of(j).contains(z)
                        implies z < self.entries().len() && filled(self.entries()[z as int]) && z != j
                            && self.neighbours_of(z as int).contains(j as usize) by {
                    assert(filled(old(self).entries()[j]));
                    assert(old(self).neighbours_of(j).contains(z));
                }
            }
        }
    }

    /// Empties a non-empty slot and returns its room.
    pub fn take_room(&mut self, room_id: RoomId) -> (room: Room)
        requires
            room_id < old(self).entries().len(),
            !(old(self).entries()[room_id as int] is Empty),
        ensures
            room == old(self).entries()[room_id as int].spec_room(),
            final(self).entries() == old(self).entries().update(room_id as int, RoomEntry::Empty),
            final(self).neighbour_slots() == old(self).neighbour_slots(),
            final(self).origin() == old(self).origin(),
    {
        let mut entry = RoomEntry::Empty;
        std::mem::swap(&mut entry, &mut self.room_buffer[room_id]);
        entry.take()
    }

    /// Empties an active slot and returns its room.
    pub fn take_active(&mut self, room_id: RoomId) -> (room: Room)
        requires
            room_id < old(self).entries().len(),
            old(self).entries()[room_id as int] is Active,
        ensures
            room == old(self).entries()[room_id as int].spec_room(),
            final(self).entries() == old(self).entries().update(room_id as int, RoomEntry::Empty),
            final(self).neighbour_slots() == old(self).neighbour_slots(),
            final(self).origin() == old(self).origin(),
    {
        self.take_room(room_id)
    }

    /// Empties a removed slot and returns its room.
    pub fn take_removed(&mut self, room_id: RoomId) -> (room: Room)
        requires
            room_id < old(self).entries().len(),
            old(self).entries()[room_id as int] is Removed,
        ensures
            room == old(self).entries()[room_id as int].spec_room(),
            final(self).entries() == old(self).entries().update(room_id as int, RoomEntry::Empty),
            final(self).neighbour_slots() == old(self).neighbour_slots(),
            final(self).origin() == old(self).origin(),
    {
        self.take_room(room_id)
    }

    /// The neighbour set of a slot that has one.
    pub fn get_neighbours(&self, room_id: RoomId) -> (n: &NeighbourSet)
        requires
            room_id < self.neighbour_slots().len(),
            self.neighbour_slots()[room_id as int] is Some,
        ensures
            set_elems(*n) == self.neighbours_of(room_id as int),
    {
        match &self.neighbour_buffer[room_id] {
            Some(n) => n,
            None => vstd::pervasive::unreached(),
        }
    }

    /// The neighbour set of a slot that has one, to be changed in place.
    pub fn get_mut_neighbours(&mut self, room_id: RoomId) -> (n: &mut NeighbourSet)
        requires
            room_id < old(self).neighbour_slots().len(),
            old(self).neighbour_slots()[room_id as int] is Some,
        ensures
            set_elems(*n) == old(self).neighbours_of(room_id as int),
            final(self).neighbour_slots() == old(self).neighbour_slots().update(room_id as int, Some(set_elems(*final(n)))),
            final(self).entries() == old(self).entries(),
            final(self).origin() == old(self).origin(),
    {
        let slot = &mut self.neighbour_buffer[room_id];
        match slot {
            Some(n) => n,
            None => vstd::pervasive::unreached(),
        }
    }

    /// Empties the neighbour slot of a room and returns its set.
    pub fn take_neighbours(&mut self, room_id: RoomId) -> (n: NeighbourSet)
        requires
            room_id < old(self).neighbour_slots().len(),
            old(self).neighbour_slots()[room_id as int] is Some,
        ensures
            set_elems(n) == old(self).neighbours_of(room_id as int),
            final(self).neighbour_slots() == old(self).neighbour_slots().update(room_id as int, None),
            final(self).entries() == old(self).entries(),
            final(self).origin() == old(self).origin(),
    {
        let mut slot: Option<NeighbourSet> = None;
        std::mem::swap(&mut slot, &mut self.neighbour_buffer[room_id]);
        proof {
            assert(self.neighbour_slots() =~= old(self).neighbour_slots().update(room_id as int, None));
        }
        match slot {
            Some(n) => n,
            None => vstd::pervasive::unreached(),
        }
    }

    /// The slots that satisfy `p`, in increasing id order, with their rooms.
    fn collect_rooms(&self, want_active: bool, want_removed: bool) -> (v: Vec<(usize, &Room)>)
        ensures
            lists_ids(v@.map_values(|e: (usize, &Room)| e.0), self.entries(), self.entries().len() as int, want_active, want_removed),
            forall|k: int| 0 <= k < v@.len() ==> *(#[trigger] v@[k]).1 == self.entries()[v@[k].0 as int].spec_room(),
    {
        let mut v: Vec<(usize, &Room)> = Vec::new();
        let mut i: usize = 0;
        while i < self.room_buffer.len()
            invariant
                0 <= i <= self.room_buffer.len(),
                lists_ids(v@.map_values(|e: (usize, &Room)| e.0), self.entries(), i as int, want_active, want_removed),
                forall|k: int| 0 <= k < v@.len() ==> *(#[trigger] v@[k]).1 == self.entries()[v@[k].0 as int].spec_room(),
            decreases self.room_buffer.len() - i,
        {
            let ghost before = v@;
            match &self.room_buffer[i] {
                RoomEntry::Active(room) => {
                    if want_active {
                        v.push((i, room));
                    }
                },
                RoomEntry::Removed(room) => {
                    if want_removed {
                        v.push((i, room));
                    }
                },
                RoomEntry::Empty => {},
            }
            proof {
                let ids = v@.map_values(|e: (usize, &Room)| e.0);
                let old_ids = before.map_values(|e: (usize, &Room)| e.0);
                if selected(self.entries()[i as int], want_active, want_removed) {
                    assert(ids =~= old_ids.push(i));
                    assert(ids[ids.len() - 1] == i);
                } else {
                    assert(ids =~= old_ids);
                }
                assert forall|j: int| 0 <= j < i + 1 && #[trigger] selected(self.entries()[j], want_active, want_removed) implies ids.contains(j as usize) by {
                    if j < i {
                        assert(old_ids.contains(j as usize));
                        let k = choose|k: int| 0 <= k < old_ids.len() && old_ids[k] == j as usize;
                        assert(ids[k] == j as usize);
                    } else {
                        assert(ids[ids.len() - 1] == j as usize);
                    }
                }
            }
            i = i + 1;
        }
        v
    }

    /// The active and removed rooms with their ids, in increasing id order.
    pub fn iter_rooms(&self) -> (v: Vec<(usize, &Room)>)
        ensures
            lists_ids(v@.map_values(|e: (usize, &Room)| e.0), self.entries(), self.entries().len() as int, true, true),
            forall|k: int| 0 <= k < v@.len() ==> *(#[trigger] v@[k]).1 == self.entries()[v@[k].0 as int].spec_room(),
    {
        let v = self.collect_rooms(true, true);
        v
    }

    /// The active rooms with their ids, in increasing id order.
    pub fn iter_active(&self) -> (v: Vec<(usize, &Room)>)
        ensures
            lists_ids(v@.map_values(|e: (usize, &Room)| e.0), self.entries(), self.entries().len() as int, true, false),
            forall|k: int| 0 <= k < v@.len() ==> *(#[trigger] v@[k]).1 == self.entries()[v@[k].0 as int].spec_room(),
    {
        let v = self.collect_rooms(true, false);
        v
    }

    /// The removed rooms with their ids, in increasing id order.
    pub fn iter_removed(&self) -> (v: Vec<(usize, &Room)>)
        ensures
            lists_ids(v@.map_values(|e: (usize, &Room)| e.0), self.entries(), self.entries().len() as int, false, true),
            forall|k: int| 0 <= k < v@.len() ==> *(#[trigger] v@[k]).1 == self.entries()[v@[k].0 as int].spec_room(),
    {
        let v = self.collect_rooms(false, true);
        v
    }

    /// The ids in the neighbour set of a slot, each once.
    pub fn iter_neighbours(&self, room_id: RoomId) -> (v: Vec<RoomId>)
        requires
            room_id < self.neighbour_slots().len(),
            self.neighbour_slots()[room_id as int] is Some,
        ensures
            v@.no_duplicates(),
            v@.to_set() == self.neighbours_of(room_id as int),
    {
        set_to_vec(self.get_neighbours(room_id))
    }

    /// The neighbours of a slot whose own slot satisfies the given kind, each once.
    fn filtered_neighbours(&self, room_id: RoomId, want_active: bool) -> (v: Vec<RoomId>)
        requires
            room_id < self.neighbour_slots().len(),
            self.neighbour_slots()[room_id as int] is Some,
            forall|n: usize| self.neighbours_of(room_id as int).contains(n) ==> n < self.entries().len(),
        ensures
            v@.no_duplicates(),
            forall|n: usize| #[trigger] v@.contains(n) <==> (self.neighbours_of(room_id as int).contains(n) && (
                if want_active { self.entries()[n as int] is Active } else { self.entries()[n as int] is Removed })),
    {
        let all = self.iter_neighbours(room_id);
        let mut v: Vec<RoomId> = Vec::new();
        let mut i: usize = 0;
        while i < all.len()
            invariant
                0 <= i <= all.len(),
                all@.no_duplicates(),
                all@.to_set() == self.neighbours_of(room_id as int),
                forall|n: usize| self.neighbours_of(room_id as int).contains(n) ==> n < self.entries().len(),
                v@.no_duplicates(),
                forall|n: usize| #[trigger] v@.contains(n) <==> (all@.take(i as int).contains(n) && (
                    if want_active { self.entries()[n as int] is Active } else { self.entries()[n as int] is Removed })),
            decreases all.len() - i,
        {
            let n = all[i];
            proof {
                assert(all@.take(i + 1) =~= all@.take(i as int).push(n));
                assert(all@.to_set().contains(n));
                assert forall|x: usize| #[trigger] all@.take(i + 1).contains(x) <==> (all@.take(i as int).contains(x) || x == n) by {
                    crate::seq_facts::lemma_push_contains(all@.take(i as int), n, x);
                }
                if v@.contains(n) {
                    let k = choose|k: int| 0 <= k < i && all@[k] == n;
                    assert(all@.take(i as int)[k] == n);
                    assert(false);
                }
            }
            let keep = if want_active { self.is_active(n) } else { self.is_removed(n) };
            let ghost before = v@;
            if keep {
                v.push(n);
                proof {
                    crate::seq_facts::lemma_push_no_duplicates(before, n);
                    assert forall|x: usize| #[trigger] v@.contains(x) <==> (before.contains(x) || x == n) by {
                        crate::seq_facts::lemma_push_contains(before, n, x);
                    }
                }
            }
            i = i + 1;
        }
        proof {
            assert(all@.take(all@.len() as int) =~= all@);
            assert forall|n: usize| all@.contains(n) <==> self.neighbours_of(room_id as int).contains(n) by {
                assert(all@.to_set().contains(n) == all@.contains(n));
            }
        }
        v
    }

    /// The active neighbours of a slot, each once.
    pub fn iter_active_neighbours(&self, room_id: RoomId) -> (v: Vec<RoomId>)
        requires
            room_id < self.neighbour_slots().len(),
            self.neighbour_slots()[room_id as int] is Some,
            forall|n: usize| self.neighbours_of(room_id as int).contains(n) ==> n < self.entries().len(),
        ensures
            v@.no_duplicates(),
            forall|n: usize| #[trigger] v@.contains(n) <==> (self.neighbours_of(room_id as int).contains(n)
                && self.entries()[n as int] is Active),
    {
        self.filtered_neighbours(room_id, true)
    }

    /// The removed neighbours of a slot, each once.
    pub fn iter_removed_neighbours(&self, room_id: RoomId) -> (v: Vec<RoomId>)
        requires
            room_id < self.neighbour_slots().len(),
            self.neighbour_slots()[room_id as int] is Some,
            forall|n: usize| self.neighbours_of(room_id as int).contains(n) ==> n < self.entries().len(),
        ensures
            v@.no_duplicates(),
            forall|n: usize| #[trigger] v@.contains(n) <==> (self.neighbours_of(room_id as int).contains(n)
                && self.entries()[n as int] is Removed),
    {
        self.filtered_neighbours(room_id, false)
    }

    /// The finished map of the region: its rectangle, its active rooms in slot order, and `doors`.
    pub fn into_map(self, doors: Vec<Door>) -> (m: GeneratedMap)
        ensures
            m.origin_rect == self.origin(),
            m.rooms@ == active_rooms(self.entries()),
            m.doors@ == doors@,
    {
        let ghost orig = self.room_buffer@;
        let mut buffer = self.room_buffer;
        let mut rooms: Vec<Room> = Vec::new();
        let mut i: usize = 0;
        while i < buffer.len()
            invariant
                buffer@.len() == orig.len(),
                0 <= i <= buffer@.len(),
                forall|k: int| i <= k < orig.len() ==> buffer@[k] == orig[k],
                rooms@ == active_rooms(orig.take(i as int)),
            decreases buffer.len() - i,
        {
            let mut entry = RoomEntry::Empty;
            std::mem::swap(&mut entry, &mut buffer[i]);
            proof {
                assert(orig.take(i + 1).drop_last() =~= orig.take(i as int));
                assert(entry == orig[i as int]);
            }
            if let RoomEntry::Active(room) = entry {
                rooms.push(room);
            }
            i = i + 1;
        }
        proof {
            assert(orig.take(orig.len() as int) =~= orig);
        }
        GeneratedMap { origin_rect: self.origin_rect, rooms, doors }
    }

    /// Makes rooms `x` and `y` neighbours of each other.
    pub fn link_rooms(&mut self, x: RoomId, y: RoomId)
        requires
            old(self).graph_ok(),
            x != y,
            x < old(self).entries().len(),
            y < old(self).entries().len(),
            filled(old(self).entries()[x as int]),
            filled(old(self).entries()[y as int]),
        ensures
            final(self).graph_ok(),
            final(self).entries() == old(self).entries(),
            final(self).origin() == old(self).origin(),
            final(self).neighbour_slots() == old(self).neighbour_slots()
                .update(x as int, Some(old(self).neighbours_of(x as int).insert(y)))
                .update(y as int, Some(old(self).neighbours_of(y as int).insert(x))),
            old(self).tidy() ==> final(self).tidy(),
    {
        let ghost s0 = self.neighbour_slots();
        let nx = self.get_mut_neighbours(x);
        set_insert(nx, y);
        let ny = self.get_mut_neighbours(y);
        set_insert(ny, x);
        proof {
            let s1 = self.neighbour_slots();
            assert forall|j: int, z: usize|
                0 <= j < self.entries().len() && filled(self.entries()[j]) && #[trigger] self.neighbours_of(j).contains(z)
                    implies z < self.entries().len() && filled(self.entries()[z as int]) && z != j
                        && self.neighbours_of(z as int).contains(j as usize) by {
                if j == x as int {
                    if z != y {
                        assert(old(self).neighbours_of(j).contains(z));
                    }
                } else if j == y as int {
                    if z != x {
                        assert(old(self).neighbours_of(j).contains(z));
                    }
                } else {
                    assert(s1[j] == s0[j]);
                    assert(old(self).neighbours_of(j).contains(z));
                }
            }
        }
    }

    /// Makes rooms `x` and `y` no longer neighbours of each other.
    pub fn unlink_rooms(&mut self, x: RoomId, y: RoomId)
        requires
            old(self).graph_ok(),
            x < old(self).entries().len(),
            y < old(self).entries().len(),
            filled(old(self).entries()[x as int]),
            filled(old(self).entries()[y as int]),
        ensures
            final(self).graph_ok(),
            final(self).entries() == old(self).entries(),
            final(self).origin() == old(self).origin(),
            final(self).neighbour_slots() == old(self).neighbour_slots()
                .update(x as int, Some(old(self).neighbours_of(x as int).remove(y)))
                .update(y as int, Some(old(self).neighbour_slots().update(x as int, Some(old(self).neighbours_of(x as int).remove(y)))[y as int]->0.remove(x))),
            old(self).tidy() ==> final(self).tidy(),
    {
        let ghost r0 = *self;
        let ghost s0 = self.neighbour_slots();
        let nx = self.get_mut_neighbours(x);
        set_remove(nx, y);
        let ny = self.get_mut_neighbours(y);
        set_remove(ny, x);
        proof {
            let s1 = self.neighbour_slots();
            let nx = if x == y { r0.neighbours_of(x as int).remove(y).remove(x) } else { r0.neighbours_of(x as int).remove(y) };
            let ny = if x == y { nx } else { r0.neighbours_of(y as int).remove(x) };
            assert(self.neighbours_of(x as int) == nx);
            assert(self.neighbours_of(y as int) == ny);
            assert(self.room_buffer@.len() == self.room_buffer.len());
            assert forall|j: int, z: usize|
                0 <= j < self.entries().len() && filled(self.entries()[j]) && #[trigger] self.neighbours_of(j).contains(z)
                    implies z < self.entries().len() && filled(self.entries()[z as int]) && z != j
                        && self.neighbours_of(z as int).contains(j as usize) by {
                assert(filled(r0.entries()[j]));
                if j == x as int {
                    assert(nx.contains(z));
                    assert(r0.neighbours_of(j).contains(z));
                    assert(z != y && z != x);
                    assert(s1[z as int] == s0[z as int]);
                } else if j == y as int {
                    assert(ny.contains(z));
                    assert(r0.neighbours_of(j).contains(z));
                    assert(z != x && z != y);
                    assert(s1[z as int] == s0[z as int]);
                } else {
                    assert(s1[j] == s0[j]);
                    assert(r0.neighbours_of(j).contains(z));
                    assert(r0.neighbours_of(z as int).contains(j as usize));
                    assert(j as usize != x && j as usize != y);
                    if z == x {
                        assert(nx.contains(j as usize));
                    } else if z == y {
                        assert(ny.contains(j as usize));
                    } else {
                        assert(s1[z as int] == s0[z as int]);
                    }
                }
            }
        }
    }

    /// Takes a room with no neighbour out of its slot, which is left empty
    /// and without a neighbour set.
    pub fn take_isolated(&mut self, room_id: RoomId) -> (room: Room)
        requires
            old(self).graph_ok(),
            room_id < old(self).entries().len(),
            filled(old(self).entries()[room_id as int]),
            old(self).neighbours_of(room_id as int) == Set::<usize>::empty(),
        ensures
            final(self).graph_ok(),
            room == old(self).entries()[room_id as int].spec_room(),
            final(self).entries() == old(self).entries().update(room_id as int, RoomEntry::Empty),
            final(self).neighbour_slots() == old(self).neighbour_slots().update(room_id as int, None),
            final(self).origin() == old(self).origin(),
            old(self).tidy() ==> final(self).tidy(),
    {
        let _ = self.take_neighbours(room_id);
        let room = self.take_room(room_id);
        proof {
            assert forall|j: int, z: usize|
                0 <= j < self.entries().len() && filled(self.entries()[j]) && #[trigger] self.neighbours_of(j).contains(z)
                    implies z < self.entries().len() && filled(self.entries()[z as int]) && z != j
                        && self.neighbours_of(z as int).contains(j as usize) by {
                assert(j != room_id as int);
                assert(old(self).neighbours_of(j).contains(z));
                if z == room_id {
                    assert(old(self).neighbours_of(room_id as int).contains(j as usize));
                }
            }
        }
        room
    }

    /// The rectangle the region was carved from.
    pub fn origin_rect(&self) -> (r: Rect)
        ensures
            r == self.origin(),
    {
        self.origin_rect
    }

    /// Gives the region another bounding rectangle.
    pub fn set_origin(&mut self, origin_rect: Rect)
        ensures
            final(self).origin() == origin_rect,
            final(self).entries() == old(self).entries(),
            final(self).neighbour_slots() == old(self).neighbour_slots(),
            old(self).graph_ok() ==> final(self).graph_ok(),
            old(self).tidy() ==> final(self).tidy(),
    {
        self.origin_rect = origin_rect;
        proof {
            if old(self).graph_ok() {
                assert forall|j: int| 0 <= j < self.entries().len() && filled(self.entries()[j]) implies (#[trigger] self.neighbour_slots()[j]) is Some by {
                    assert(old(self).neighbour_slots()[j] is Some);
                }
                assert forall|j: int, z: usize|
                    0 <= j < self.entries().len() && filled(self.entries()[j]) && #[trigger] self.neighbours_of(j).contains(z)
                        implies z < self.entries().len() && filled(self.entries()[z as int]) && z != j
                            && self.neighbours_of(z as int).contains(j as usize) by {
                    assert(old(self).neighbours_of(j).contains(z));
                }
            }
        }
    }

    /// Releases the spare capacity of both buffers.
    pub fn shrink_buffers(&mut self)
        ensures
            final(self).entries() == old(self).entries(),
            final(self).neighbour_slots() == old(self).neighbour_slots(),
            final(self).origin() == old(self).origin(),
            old(self).graph_ok() ==> final(self).graph_ok(),
            old(self).tidy() ==> final(self).tidy(),
    {
        vec_shrink_to_fit(&mut self.room_buffer);
        vec_shrink_to_fit(&mut self.neighbour_buffer);
        proof {
            assert(self.neighbour_slots() =~= old(self).neighbour_slots());
            if old(self).graph_ok() {
                assert forall|j: int| 0 <= j < self.entries().len() && filled(self.entries()[j]) implies (#[trigger] self.neighbour_slots()[j]) is Some by {
                    assert(old(self).neighbour_slots()[j] is Some);
                }
                assert forall|j: int, z: usize|
                    0 <= j < self.entries().len() && filled(self.entries()[j]) && #[trigger] self.neighbours_of(j).contains(z)
                        implies z < self.entries().len() && filled(self.entries()[z as int]) && z != j
                            && self.neighbours_of(z as int).contains(j as usize) by {
                    assert(old(self).neighbours_of(j).contains(z));
                }
            }
        }
    }

    /// Whether rooms `a` and `b` can be merged: two distinct active rooms with
    /// neighbour sets, neither its own neighbour, whose neighbours all have
    /// neighbour sets of their own.
    pub open spec fn can_merge(self, a: int, b: int) -> bool {
        &&& self.wf()
        &&& a != b
        &&& 0 <= a < self.entries().len()
        &&& 0 <= b < self.entries().len()
        &&& self.entries()[a] is Active
        &&& self.entries()[b] is Active
        &&& self.neighbour_slots()[a] is Some
        &&& self.neighbour_slots()[b] is Some
        &&& !self.neighbours_of(a).contains(a as usize)
        &&& !self.neighbours_of(b).contains(b as usize)
        &&& forall|n: usize|
            (self.neighbours_of(a).contains(n) || self.neighbours_of(b).contains(n)) && n != a && n != b
                ==> n < self.entries().len() && (#[trigger] self.neighbour_slots()[n as int]) is Some
    }

    /// Merges active room `b` into active room `a`: slot `a` holds the union of
    /// both rooms' cells (with `a`'s modifier), slot `b` becomes empty, and the
    /// neighbour sets are rewired as `merged_neighbour_slots` describes.
    pub fn merge_active_rooms(&mut self, room_id_a: RoomId, room_id_b: RoomId)
        requires
            old(self).can_merge(room_id_a as int, room_id_b as int),
        ensures
            final(self).wf(),
            final(self).origin() == old(self).origin(),
            final(self).entries().len() == old(self).entries().len(),
            forall|i: int| 0 <= i < old(self).entries().len() && i != room_id_a && i != room_id_b
                ==> final(self).entries()[i] == old(self).entries()[i],
            final(self).entries()[room_id_b as int] is Empty,
            final(self).entries()[room_id_a as int] is Active,
            final(self).entries()[room_id_a as int].spec_room().modifier == old(self).entries()[room_id_a as int].spec_room().modifier,
            final(self).entries()[room_id_a as int].spec_room().cells@.no_duplicates(),
            forall|c: Cell| #[trigger] final(self).entries()[room_id_a as int].spec_room().cells@.contains(c) <==> (
                old(self).entries()[room_id_a as int].spec_room().cells@.contains(c)
                || old(self).entries()[room_id_b as int].spec_room().cells@.contains(c)),
            final(self).neighbour_slots() == merged_neighbour_slots(old(self).neighbour_slots(), room_id_a as int, room_id_b as int),
            old(self).graph_ok() ==> final(self).graph_ok(),
            old(self).tidy() ==> final(self).tidy(),
    {
        let a = room_id_a;
        let b = room_id_b;
        let ghost old_slots = self.neighbour_slots();
        let from_room = self.take_active(a);
        let to_room = self.take_active(b);
        let merged_room = from_room.merged_with(to_room);
        self.room_buffer.set(a, RoomEntry::Active(merged_room));

        let mut from_neighbours = self.take_neighbours(a);
        set_remove(&mut from_neighbours, b);
        let mut to_neighbours = self.take_neighbours(b);
        set_remove(&mut to_neighbours, a);
        set_extend(&mut from_neighbours, to_neighbours);

        let ghost u = old_slots[a as int]->0.remove(b).union(old_slots[b as int]->0.remove(a));
        let ghost entries_after = self.entries();
        let slots_len = self.neighbour_buffer.len();
        assert(self.neighbour_slots().len() == self.neighbour_buffer@.len());
        let ids = set_to_vec(&from_neighbours);
        let mut i: usize = 0;
        while i < ids.len()
            invariant
                0 <= i <= ids.len(),
                ids@.no_duplicates(),
                ids@.to_set() == u,
                set_elems(from_neighbours) == u,
                self.wf(),
                self.origin() == old(self).origin(),
                self.entries() == entries_after,
                old_slots.len() == slots_len,
                self.entries().len() == old_slots.len(),
                old_slots.len() == old(self).entries().len(),
                old(self).can_merge(a as int, b as int),
                old_slots == old(self).neighbour_slots(),
                u == old_slots[a as int]->0.remove(b).union(old_slots[b as int]->0.remove(a)),
                forall|k: int| 0 <= k < old_slots.len() ==> #[trigger] self.neighbour_slots()[k] == (
                    if k == a || k == b {
                        None
                    } else if ids@.take(i as int).contains(k as usize) {
                        Some(old_slots[k]->0.remove(b).insert(a))
                    } else {
                        old_slots[k]
                    }),
            decreases ids.len() - i,
        {
            let n = ids[i];
            proof {
                assert(ids@.to_set().contains(n));
                assert(u.contains(n));
                assert(n != a && n != b);
                assert(n < self.entries().len());
                assert(old_slots[n as int] is Some);
                if ids@.take(i as int).contains(n) {
                    let k = choose|k: int| 0 <= k < i && ids@[k] == n;
                    assert(ids@.take(i as int)[k] == n);
                    assert(false);
                }
                assert(self.neighbour_slots()[n as int] == old_slots[n as int]);
                assert(ids@.take(i + 1) =~= ids@.take(i as int).push(n));
                assert forall|x: usize| #[trigger] ids@.take(i + 1).contains(x) <==> (ids@.take(i as int).contains(x) || x == n) by {
                    crate::seq_facts::lemma_push_contains(ids@.take(i as int), n, x);
                }
            }
            let ghost before = self.neighbour_slots();
            let neighbours = self.get_mut_neighbours(n);
            set_remove(neighbours, b);
            set_insert(neighbours, a);
            proof {
                assert forall|k: int| 0 <= k < old_slots.len() implies #[trigger] self.neighbour_slots()[k] == (
                    if k == a || k == b {
                        None
                    } else if ids@.take(i + 1).contains(k as usize) {
                        Some(old_slots[k]->0.remove(b).insert(a))
                    } else {
                        old_slots[k]
                    }) by {
                    if k == n as int {
                    } else {
                        assert(self.neighbour_slots()[k] == before[k]);
                        crate::seq_facts::lemma_push_contains(ids@.take(i as int), n, k as usize);
                    }
                }
            }
            i = i + 1;
        }
        let ghost before_set = self.neighbour_slots();
        assert(0 <= b < old_slots.len());
        assert(before_set[b as int] == None::<Set<usize>>);
        let ghost before_buf = self.neighbour_buffer@;
        self.neighbour_buffer.set(a, Some(from_neighbours));
        proof {
            assert forall|k: int| 0 <= k < old_slots.len() && k != a implies self.neighbour_slots()[k] == before_set[k] by {
                assert(self.neighbour_buffer@[k] == before_buf[k]);
            }
            assert(ids@.take(ids@.len() as int) =~= ids@);
            assert forall|x: usize| ids@.contains(x) <==> u.contains(x) by {
                assert(ids@.to_set().contains(x) == ids@.contains(x));
            }
            let target = merged_neighbour_slots(old_slots, a as int, b as int);
            assert forall|k: int| 0 <= k < old_slots.len() implies self.neighbour_slots()[k] == target[k] by {
                if k == a as int {
                    assert(self.neighbour_slots()[k] == Some(u));
                    assert(target[k] == Some(u));
                } else if k == b as int {
                    assert(self.neighbour_slots()[k] == None::<Set<usize>>);
                    assert(target[k] == None::<Set<usize>>);
                } else {
                    assert(k as usize as int == k);
                    assert(ids@.take(ids@.len() as int) == ids@);
                    assert(before_set[k] == (if ids@.take(ids@.len() as int).contains(k as usize) {
                        Some(old_slots[k]->0.remove(b).insert(a))
                    } else {
                        old_slots[k]
                    }));
                    assert(self.neighbour_slots()[k] == before_set[k]);
                    assert(ids@.to_set().contains(k as usize) == ids@.contains(k as usize));
                    assert(ids@.contains(k as usize) == u.contains(k as usize));
                    if u.contains(k as usize) {
                        assert(target[k] == Some(old_slots[k]->0.remove(b).insert(a)));
                    } else {
                        assert(target[k] == old_slots[k]);
                    }
                }
            }
            assert(self.neighbour_slots() =~= target);
            if old(self).graph_ok() {
                lemma_merge_keeps_graph(*old(self), *self, a as int, b as int);
            }
        }
    }

    /// Appends the slots of `other` after this region's slots, raising the ids
    /// in `other`'s neighbour sets by this region's slot count so they keep
    /// pointing at the same rooms.
    pub fn merge_with(&mut self, other: MapRegion)
        requires
            old(self).wf(),
            other.wf(),
            old(self).entries().len() + other.entries().len() <= usize::MAX,
            forall|k: int, x: usize| 0 <= k < other.neighbour_slots().len() && other.neighbour_slots()[k] is Some
                && #[trigger] other.neighbours_of(k).contains(x) ==> x + old(self).entries().len() <= usize::MAX,
        ensures
            final(self).wf(),
            final(self).origin() == old(self).origin(),
            final(self).entries() == old(self).entries() + other.entries(),
            final(self).neighbour_slots() == old(self).neighbour_slots() + other.neighbour_slots().map_values(
                |o: Option<Set<usize>>| shifted_slot(o, old(self).entries().len() as int)),
            old(self).graph_ok() && other.graph_ok() ==> final(self).graph_ok(),
            old(self).tidy() && other.tidy() ==> final(self).tidy(),
    {
        let offset = self.room_buffer.len();
        let mut other_rooms = other.room_buffer;
        self.room_buffer.append(&mut other_rooms);
        let other_slots = other.neighbour_buffer;
        let ghost start = self.neighbour_buffer@;
        let mut i: usize = 0;
        while i < other_slots.len()
            invariant
                0 <= i <= other_slots.len(),
                offset == old(self).entries().len(),
                old(self).wf(),
                self.origin() == old(self).origin(),
                self.room_buffer@ == old(self).room_buffer@ + other.room_buffer@,
                other_slots@ == other.neighbour_buffer@,
                start == old(self).neighbour_buffer@,
                forall|k: int, x: usize| 0 <= k < other.neighbour_slots().len() && other.neighbour_slots()[k] is Some
                    && #[trigger] other.neighbours_of(k).contains(x) ==> x + offset <= usize::MAX,
                self.neighbour_buffer@.len() == start.len() + i,
                forall|k: int| 0 <= k < start.len() ==> self.neighbour_buffer@[k] == start[k],
                forall|k: int| 0 <= k < i ==> #[trigger] slot_view(self.neighbour_buffer@[start.len() + k])
                    == shifted_slot(slot_view(other_slots@[k]), offset as int),
            decreases other_slots.len() - i,
        {
            let shifted = match &other_slots[i] {
                Some(set) => {
                    proof {
                        assert(other.neighbour_slots()[i as int] == slot_view(other_slots@[i as int]));
                        assert forall|x: usize| set_elems(*set).contains(x) implies x + offset <= usize::MAX by {
                            assert(other.neighbours_of(i as int).contains(x));
                        }
                    }
                    Some(shifted_set(set, offset))
                },
                None => None,
            };
            self.neighbour_buffer.push(shifted);
            proof {
                assert(self.neighbour_buffer@[start.len() + i] == shifted);
            }
            i = i + 1;
        }
        proof {
            let target = old(self).neighbour_slots() + other.neighbour_slots().map_values(
                |o: Option<Set<usize>>| shifted_slot(o, old(self).entries().len() as int));
            assert forall|k: int| 0 <= k < target.len() implies self.neighbour_slots()[k] == target[k] by {
                if k >= start.len() {
                    let j = k - start.len();
                    assert(slot_view(self.neighbour_buffer@[start.len() + j]) == shifted_slot(slot_view(other_slots@[j]), offset as int));
                }
            }
            assert(self.neighbour_slots() =~= target);
            assert(self.entries() =~= old(self).entries() + other.entries());
            if old(self).graph_ok() && other.graph_ok() {
                lemma_merge_with_keeps_graph(*old(self), other, *self);
            }
        }
    }

    /// The ids of the filled (or of the empty) slots, in increasing order.
    fn slot_ids(&self, want_filled: bool) -> (ids: Vec<usize>)
        ensures
            lists_slots(ids@, self.entries(), self.entries().len() as int, want_filled),
    {
        let mut ids: Vec<usize> = Vec::new();
        let mut i: usize = 0;
        while i < self.room_buffer.len()
            invariant
                0 <= i <= self.room_buffer.len(),
                lists_slots(ids@, self.entries(), i as int, want_filled),
            decreases self.room_buffer.len() - i,
        {
            let is_filled = !self.room_buffer[i].is_empty();
            let ghost before = ids@;
            if is_filled == want_filled {
                ids.push(i);
            }
            proof {
                assert forall|j: int| 0 <= j < i + 1 && #[trigger] filled(self.entries()[j]) == want_filled implies ids@.contains(j as usize) by {
                    if j < i {
                        let k = choose|k: int| 0 <= k < before.len() && before[k] == j as usize;
                        assert(ids@[k] == j as usize);
                    } else {
                        assert(ids@[ids@.len() - 1] == j as usize);
                    }
                }
            }
            i = i + 1;
        }
        ids
    }

    /// Every slot holding a room has a neighbour set; neighbours are other
    /// slots holding rooms, and the relation is symmetric.
    pub open spec fn graph_ok(self) -> bool {
        &&& self.wf()
        &&& forall|j: int| 0 <= j < self.entries().len() && filled(self.entries()[j]) ==> (#[trigger] self.neighbour_slots()[j]) is Some
        &&& forall|j: int, x: usize|
            0 <= j < self.entries().len() && filled(self.entries()[j]) && #[trigger] self.neighbours_of(j).contains(x)
                ==> x < self.entries().len() && filled(self.entries()[x as int]) && x != j
                    && self.neighbours_of(x as int).contains(j as usize)
    }

    /// `new` is `old` with its rooms moved by the relabelling `t` into the
    /// first `count_filled` slots, and every neighbour set relabelled alike.
    pub open spec fn compacts(old: MapRegion, new: MapRegion, t: Seq<int>) -> bool {
        &&& t.len() == old.entries().len()
        &&& new.entries().len() == count_filled(old.entries())
        &&& forall|p: int| 0 <= p < new.entries().len() ==> filled(#[trigger] new.entries()[p])
        &&& forall|j: int|
            0 <= j < old.entries().len() && filled(old.entries()[j]) ==> 0 <= #[trigger] t[j] < new.entries().len()
                && new.entries()[t[j]] == old.entries()[j]
                && new.neighbour_slots()[t[j]] == Some(relabelled(t, old.neighbours_of(j)))
        &&& forall|j1: int, j2: int|
            0 <= j1 < old.entries().len() && 0 <= j2 < old.entries().len() && filled(old.entries()[j1])
                && filled(old.entries()[j2]) && j1 != j2 ==> #[trigger] t[j1] != #[trigger] t[j2]
    }

    /// Removes the empty slots: repeatedly the highest room slot is moved into
    /// the lowest empty slot below it, and the rooms adjacent to the moved
    /// room are told its new id; then both buffers are cut after the last room.
    /// Room ids change.
    #[verifier::rlimit(80)]
    #[verifier::spinoff_prover]
    pub fn compact_buffers(&mut self)
        requires
            old(self).graph_ok(),
        ensures
            final(self).graph_ok(),
            final(self).origin() == old(self).origin(),
            exists|t: Seq<int>| MapRegion::compacts(*old(self), *final(self), t)
                && forall|p: int| 0 <= p < final(self).entries().len() ==> #[trigger] has_source(t, old(self).entries(), p),
            final(self).tidy(),
            exists|t: Seq<int>, fs: Seq<usize>, es: Seq<usize>| {
                &&& MapRegion::compacts(*old(self), *final(self), t)
                &&& lists_slots(fs, old(self).entries(), old(self).entries().len() as int, true)
                &&& lists_slots(es, old(self).entries(), old(self).entries().len() as int, false)
                &&& forall|m: int| 0 <= m < fs.len() ==> #[trigger] t[fs[m] as int] == moved_slot(fs, es, m)
            },
    {
        let empties = self.slot_ids(false);
        let filled_ids = self.slot_ids(true);
        let ghost orig = self.room_buffer@;
        let ghost orig_region = *self;
        let ghost e_ids = empties@;
        let ghost f_ids = filled_ids@;
        let ghost big_f = f_ids.len() as int;
        let ghost len = orig.len() as int;
        let buf_len = self.room_buffer.len();
        assert(len == buf_len as int);
        let ghost mut t: Seq<int> = Seq::new(orig.len(), |j: int| j);
        proof {
            assert(self.neighbour_slots().len() == self.neighbour_buffer@.len());
            assert forall|j: int| 0 <= j < len && filled(orig[j]) implies #[trigger] self.neighbour_slots()[t[j]] == Some(relabelled(t, orig_region.neighbours_of(j))) by {
                let rj = orig_region.neighbours_of(j);
                assert forall|x: usize| rj.contains(x) implies relabelled(t, rj).contains(x) by {
                    assert(x < len);
                    assert(t[x as int] == x as int);
                }
                assert forall|x: usize| relabelled(t, rj).contains(x) implies rj.contains(x) by {
                    let y = choose|y: usize| rj.contains(y) && #[trigger] t[y as int] == x as int;
                    assert(y < len);
                }
                assert(relabelled(t, rj) =~= rj);
            }
        }
        let mut ei: usize = 0;
        let mut fi: usize = filled_ids.len();
        while ei < empties.len() && fi > 0 && filled_ids[fi - 1] > empties[ei]
            invariant
                orig_region.graph_ok(),
                orig == orig_region.entries(),
                len == orig.len(),
                len <= usize::MAX,
                e_ids == empties@,
                f_ids == filled_ids@,
                big_f == f_ids.len(),
                lists_slots(e_ids, orig, len, false),
                lists_slots(f_ids, orig, len, true),
                0 <= ei <= e_ids.len(),
                0 <= fi <= big_f,
                ei + fi == big_f,
                self.origin() == orig_region.origin(),
                self.entries().len() == len,
                self.neighbour_buffer@.len() == len,
                self.wf(),
                forall|k: int| 0 <= k < ei ==> #[trigger] f_ids[big_f - 1 - k] > e_ids[k],
                t.len() == len,
                forall|m: int| 0 <= m < big_f ==> #[trigger] t[f_ids[m] as int] == (if m < fi { f_ids[m] as int } else { e_ids[big_f - 1 - m] as int }),
                forall|j: int| 0 <= j < len && filled(orig[j]) ==> 0 <= #[trigger] t[j] < len && self.entries()[t[j]] == orig[j],
                forall|j1: int, j2: int| 0 <= j1 < len && 0 <= j2 < len && filled(orig[j1]) && filled(orig[j2]) && j1 != j2
                    ==> #[trigger] t[j1] != #[trigger] t[j2],
                forall|j: int| 0 <= j < len && filled(orig[j]) ==> (#[trigger] t[j] == j || exists|k: int| 0 <= k < ei && e_ids[k] == t[j]),
                forall|p: int| 0 <= p < len && filled(#[trigger] self.entries()[p]) ==> ((filled(orig[p]) && t[p] == p) || exists|k: int| 0 <= k < ei && e_ids[k] == p),
                count_filled(self.entries()) == count_filled(orig),
                forall|j: int| 0 <= j < len && filled(orig[j]) ==> #[trigger] self.neighbour_slots()[t[j]] == Some(relabelled(t, orig_region.neighbours_of(j))),
            decreases fi,
        {
            let e = empties[ei];
            let n = filled_ids[fi - 1];
            let ghost t0 = t;
            let ghost t1 = t.update(n as int, e as int);
            let ghost before_entries = self.entries();
            let ghost before_slots = self.neighbour_slots();
            proof {
                assert(e_ids[ei as int] == e);
                assert(!filled(orig[e as int]));
                assert(filled(orig[n as int]));
                // n has not moved yet, and e holds nothing yet
                assert(t[f_ids[fi - 1] as int] == f_ids[fi - 1] as int);
                assert(t[n as int] == n as int);
                if filled(self.entries()[e as int]) {
                    let k = choose|k: int| 0 <= k < ei && e_ids[k] == e as int;
                    assert(e_ids[k] < e_ids[ei as int]);
                }
                // e is not the image of any room yet
                assert forall|j: int| 0 <= j < len && filled(orig[j]) implies #[trigger] t[j] != e as int by {
                    if t[j] == e as int {
                        if t[j] == j {
                        } else {
                            let k = choose|k: int| 0 <= k < ei && e_ids[k] == t[j];
                            assert(e_ids[k] < e_ids[ei as int]);
                        }
                    }
                }
            }
            // move the room in slot n to slot e
            let mut tmp = RoomEntry::Empty;
            std::mem::swap(&mut tmp, &mut self.room_buffer[n]);
            std::mem::swap(&mut tmp, &mut self.room_buffer[e]);
            self.room_buffer.set(n, tmp);
            let mut tmp_slot: Option<NeighbourSet> = None;
            std::mem::swap(&mut tmp_slot, &mut self.neighbour_buffer[n]);
            std::mem::swap(&mut tmp_slot, &mut self.neighbour_buffer[e]);
            self.neighbour_buffer.set(n, tmp_slot);
            proof {
                assert(self.entries() =~= before_entries.update(e as int, before_entries[n as int]).update(n as int, before_entries[e as int]));
                lemma_count_filled_update(before_entries, e as int, before_entries[n as int]);
                lemma_count_filled_update(before_entries.update(e as int, before_entries[n as int]), n as int, before_entries[e as int]);
                assert forall|p: int| 0 <= p < len && p != e && p != n implies #[trigger] self.neighbour_slots()[p] == before_slots[p] by {}
                assert(self.neighbour_slots()[e as int] == before_slots[n as int]);
            }
            let neigh = self.iter_neighbours(e);
            let ghost rn = orig_region.neighbours_of(n as int);
            proof {
                assert forall|j: int| 0 <= j < len && filled(orig[j]) && j != n as int implies #[trigger] t0[j] != n as int by {
                    assert(t0[j] != t0[n as int]);
                }
                assert(before_slots[t0[n as int]] == Some(relabelled(t0, rn)));
                assert(neigh@.to_set() == relabelled(t0, rn));
                // the relabelling stays injective on rooms after moving n to e
                assert forall|j1: int, j2: int| 0 <= j1 < len && 0 <= j2 < len && filled(orig[j1]) && filled(orig[j2]) && j1 != j2
                    implies #[trigger] t1[j1] != #[trigger] t1[j2] by {
                    if j1 == n as int {
                        assert(t0[j2] != e as int);
                    } else if j2 == n as int {
                        assert(t0[j1] != e as int);
                    }
                }
                // the slots of all rooms, in the shape the inner loop keeps
                assert forall|j: int| 0 <= j < len && filled(orig[j]) implies #[trigger] self.neighbour_slots()[t1[j]] == Some(
                    if rn.contains(j as usize) && !neigh@.take(0).contains(t0[j] as usize) {
                        relabelled(t0, orig_region.neighbours_of(j))
                    } else {
                        relabelled(t1, orig_region.neighbours_of(j))
                    }) by {
                    let rj = orig_region.neighbours_of(j);
                    assert forall|y: usize| rj.contains(y) && y != n implies 0 <= y < t0.len() && #[trigger] t0[y as int] != n as int && t0[y as int] != e as int by {
                        assert(filled(orig[y as int]));
                    }
                    if j == n as int {
                        assert(!rj.contains(n));
                        lemma_relabel_update(t0, n, e, rj);
                    } else {
                        assert(t1[j] == t0[j]);
                        assert(t0[j] != e as int);
                        assert(t0[j] != n as int);
                        if !rn.contains(j as usize) {
                            assert(!rj.contains(n));
                            lemma_relabel_update(t0, n, e, rj);
                        }
                    }
                }
            }
            let ghost after_swap = self.entries();
            let ghost count_now = count_filled(self.entries());
            let mut i: usize = 0;
            while i < neigh.len()
                invariant
                    orig_region.graph_ok(),
                    self.entries() == after_swap,
                    self.origin() == orig_region.origin(),
                    forall|j: int| 0 <= j < len && filled(orig[j]) && j != n as int ==> #[trigger] t0[j] != n as int,
                    orig == orig_region.entries(),
                    len == orig.len(),
                    len <= usize::MAX,
                    0 <= i <= neigh.len(),
                    neigh@.no_duplicates(),
                    neigh@.to_set() == relabelled(t0, rn),
                    rn == orig_region.neighbours_of(n as int),
                    0 <= n < len,
                    0 <= e < len,
                    filled(orig[n as int]),
                    !filled(orig[e as int]),
                    t0.len() == len,
                    t1 == t0.update(n as int, e as int),
                    t0[n as int] == n as int,
                    forall|j: int| 0 <= j < len && filled(orig[j]) ==> 0 <= #[trigger] t0[j] < len && t0[j] != e as int,
                    forall|j1: int, j2: int| 0 <= j1 < len && 0 <= j2 < len && filled(orig[j1]) && filled(orig[j2]) && j1 != j2
                        ==> #[trigger] t1[j1] != #[trigger] t1[j2],
                    self.entries().len() == len,
                    self.wf(),
                    forall|j: int| 0 <= j < len && filled(orig[j]) ==> #[trigger] self.neighbour_slots()[t1[j]] == Some(
                        if rn.contains(j as usize) && !neigh@.take(i as int).contains(t0[j] as usize) {
                            relabelled(t0, orig_region.neighbours_of(j))
                        } else {
                            relabelled(t1, orig_region.neighbours_of(j))
                        }),
                decreases neigh.len() - i,
            {
                let x = neigh[i];
                let ghost before_inner = self.neighbour_slots();
                let ghost y: usize;
                proof {
                    assert(neigh@.to_set().contains(x));
                    assert(relabelled(t0, rn).contains(x));
                    y = choose|y: usize| rn.contains(y) && #[trigger] t0[y as int] == x as int;
                    assert(filled(orig[y as int]));
                    assert(y != n);
                    assert(t1[y as int] == x as int);
                    if neigh@.take(i as int).contains(x) {
                        let k = choose|k: int| 0 <= k < i && neigh@[k] == x;
                        assert(neigh@.take(i as int)[k] == x);
                        assert(false);
                    }
                    assert(self.neighbour_slots()[x as int] == Some(relabelled(t0, orig_region.neighbours_of(y as int))));
                    assert(neigh@.take(i + 1) =~= neigh@.take(i as int).push(x));
                }
                let neighbour_set = self.get_mut_neighbours(x);
                set_remove(neighbour_set, n);
                set_insert(neighbour_set, e);
                proof {
                    let ry = orig_region.neighbours_of(y as int);
                    assert(ry.contains(n));
                    assert forall|z: usize| ry.contains(z) && z != n implies 0 <= z < t0.len() && #[trigger] t0[z as int] != n as int && t0[z as int] != e as int by {
                        assert(filled(orig[z as int]));
                    }
                    lemma_relabel_update(t0, n, e, ry);
                    assert forall|j: int| 0 <= j < len && filled(orig[j]) implies #[trigger] self.neighbour_slots()[t1[j]] == Some(
                        if rn.contains(j as usize) && !neigh@.take(i + 1).contains(t0[j] as usize) {
                            relabelled(t0, orig_region.neighbours_of(j))
                        } else {
                            relabelled(t1, orig_region.neighbours_of(j))
                        }) by {
                        crate::seq_facts::lemma_push_contains(neigh@.take(i as int), x, t0[j] as usize);
                        if j != y as int {
                            assert(t1[j] != t1[y as int]);
                            assert(self.neighbour_slots()[t1[j]] == before_inner[t1[j]]);
                            if j != n as int {
                                assert(t1[j] == t0[j]);
                                assert(t0[j] != x as int);
                            } else {
                                assert(!rn.contains(n));
                            }
                        }
                    }
                }
                i = i + 1;
            }
            proof {
                assert(neigh@.take(neigh@.len() as int) =~= neigh@);
                assert forall|j: int| 0 <= j < len && filled(orig[j]) implies #[trigger] self.neighbour_slots()[t1[j]] == Some(relabelled(t1, orig_region.neighbours_of(j))) by {
                    if rn.contains(j as usize) {
                        assert(j as usize as int == j);
                        assert(t0[j] as usize as int == t0[j]);
                        assert(t0[(j as usize) as int] == (t0[j] as usize) as int);
                        assert(relabelled(t0, rn).contains(t0[j] as usize));
                        assert(neigh@.to_set().contains(t0[j] as usize));
                        assert(neigh@.contains(t0[j] as usize));
                    }
                }
                t = t1;
                assert forall|m: int| 0 <= m < big_f implies #[trigger] t[f_ids[m] as int] == (if m < fi - 1 { f_ids[m] as int } else { e_ids[big_f - 1 - m] as int }) by {
                    if m == fi - 1 {
                    } else {
                        assert(f_ids[m] != n);
                    }
                }
                assert forall|j: int| 0 <= j < len && filled(orig[j]) implies (#[trigger] t[j] == j || exists|k: int| 0 <= k < ei + 1 && e_ids[k] == t[j]) by {
                    if j == n as int {
                        assert(e_ids[ei as int] == t[j]);
                    } else if t0[j] != j {
                        let k = choose|k: int| 0 <= k < ei && e_ids[k] == t0[j];
                        assert(e_ids[k] == t[j]);
                    }
                }
                assert forall|p: int| 0 <= p < len && filled(#[trigger] self.entries()[p]) implies ((filled(orig[p]) && t[p] == p) || exists|k: int| 0 <= k < ei + 1 && e_ids[k] == p) by {
                    if p == e as int {
                        assert(e_ids[ei as int] == p);
                    } else if p == n as int {
                        assert(!filled(self.entries()[p]));
                    } else {
                        assert(self.entries()[p] == before_entries[p]);
                        if filled(orig[p]) && t0[p] == p {
                            assert(p != n as int);
                        } else {
                            let k = choose|k: int| 0 <= k < ei && e_ids[k] == p;
                            assert(e_ids[k] == p);
                        }
                    }
                }
                assert forall|j: int| 0 <= j < len && filled(orig[j]) implies 0 <= #[trigger] t[j] < len && self.entries()[t[j]] == orig[j] by {
                    if j != n as int {
                        assert(t0[j] != n as int);
                        assert(t0[j] != e as int);
                    }
                }
            }
            ei = ei + 1;
            fi = fi - 1;
        }
        proof {
            // no room follows an empty slot
            let cur = self.entries();
            assert forall|i: int, j: int| 0 <= i < j < len && !filled(#[trigger] cur[i]) implies !filled(#[trigger] cur[j]) by {
                if filled(cur[j]) {
                    if filled(orig[j]) && t[j] == j {
                        let m = lemma_sorted_index(f_ids, j as usize);
                        assert(f_ids[m] as int == j);
                        if m >= fi {
                            assert(0 <= big_f - 1 - m < ei);
                            assert(t[f_ids[m] as int] == e_ids[big_f - 1 - m] as int);
                            assert(!filled(orig[e_ids[big_f - 1 - m] as int]));
                            assert(e_ids[big_f - 1 - m] as int == j);
                            assert(false);
                        }
                        assert(m < fi);
                        if filled(orig[i]) {
                            let m2 = lemma_sorted_index(f_ids, i as usize);
                            if m2 >= m {
                                if m2 > m {
                                    assert(f_ids[m] < f_ids[m2]);
                                }
                            }
                            assert(m2 < m);
                            assert(t[f_ids[m2] as int] == f_ids[m2] as int);
                            assert(cur[t[i]] == orig[i]);
                        } else {
                            let k2 = lemma_sorted_index(e_ids, i as usize);
                            if k2 < ei {
                                let mm = big_f - 1 - k2;
                                assert(t[f_ids[mm] as int] == e_ids[k2] as int);
                                assert(cur[t[f_ids[mm] as int]] == orig[f_ids[mm] as int]);
                            } else {
                                assert(f_ids[m] <= f_ids[fi - 1]) by {
                                    if m < fi - 1 {
                                        assert(f_ids[m] < f_ids[fi - 1]);
                                    }
                                }
                                assert(e_ids[ei as int] <= e_ids[k2]) by {
                                    if ei < k2 {
                                        assert(e_ids[ei as int] < e_ids[k2]);
                                    }
                                }
                            }
                        }
                    } else {
                        let k = choose|k: int| 0 <= k < ei && e_ids[k] == j;
                        if filled(orig[i]) {
                            let m2 = lemma_sorted_index(f_ids, i as usize);
                            if m2 < fi {
                                assert(t[f_ids[m2] as int] == f_ids[m2] as int);
                                assert(cur[t[i]] == orig[i]);
                            } else {
                                assert(f_ids[fi as int] <= f_ids[m2]) by {
                                    if fi < m2 {
                                        assert(f_ids[fi as int] < f_ids[m2]);
                                    }
                                }
                                assert(f_ids[big_f - 1 - (ei - 1)] > e_ids[ei - 1]);
                                assert(e_ids[k] <= e_ids[ei - 1]) by {
                                    if k < ei - 1 {
                                        assert(e_ids[k] < e_ids[ei - 1]);
                                    }
                                }
                            }
                        } else {
                            let k2 = lemma_sorted_index(e_ids, i as usize);
                            if k2 >= k {
                                if k2 > k {
                                    assert(e_ids[k] < e_ids[k2]);
                                }
                            }
                            assert(k2 < k);
                            let mm = big_f - 1 - k2;
                            assert(t[f_ids[mm] as int] == e_ids[k2] as int);
                            assert(cur[t[f_ids[mm] as int]] == orig[f_ids[mm] as int]);
                        }
                    }
                }
            }
            lemma_count_filled_prefix(cur);
        }
        // count the rooms and cut both buffers after them
        let mut non_empty_count: usize = 0;
        let mut i: usize = 0;
        while i < self.room_buffer.len()
            invariant
                0 <= i <= self.room_buffer.len(),
                non_empty_count == count_filled(self.room_buffer@.take(i as int)),
                non_empty_count <= i,
            decreases self.room_buffer.len() - i,
        {
            proof {
                assert(self.room_buffer@.take(i + 1).drop_last() =~= self.room_buffer@.take(i as int));
            }
            if !self.room_buffer[i].is_empty() {
                non_empty_count = non_empty_count + 1;
            }
            i = i + 1;
        }
        proof {
            assert(self.room_buffer@.take(self.room_buffer@.len() as int) =~= self.room_buffer@);
        }
        let ghost before_cut = *self;
        self.room_buffer.truncate(non_empty_count);
        vec_shrink_to(&mut self.room_buffer, non_empty_count);
        self.neighbour_buffer.truncate(non_empty_count);
        vec_shrink_to(&mut self.neighbour_buffer, non_empty_count);
        proof {
            let cnt = non_empty_count as int;
            assert(cnt == count_filled(orig));
            assert forall|p: int| 0 <= p < cnt implies #[trigger] self.neighbour_slots()[p] == before_cut.neighbour_slots()[p] by {}
            assert forall|j: int| 0 <= j < len && filled(orig[j]) implies 0 <= #[trigger] t[j] < cnt by {
                assert(filled(before_cut.entries()[t[j]]));
            }
            assert(MapRegion::compacts(orig_region, *self, t));
            // the relabelled graph is again a valid one
            assert forall|p: int| 0 <= p < cnt implies #[trigger] has_source(t, orig, p) by {
                let q = p;
                assert(filled(before_cut.entries()[q]));
                if filled(orig[q]) && t[q] == q {
                } else {
                    let k = choose|k: int| 0 <= k < ei && e_ids[k] == q;
                    let mm = big_f - 1 - k;
                    assert(t[f_ids[mm] as int] == q);
                }
            }
            assert forall|p: int| 0 <= p < cnt && filled(self.entries()[p]) implies (#[trigger] self.neighbour_slots()[p]) is Some by {
                assert(has_source(t, orig, p));
                let j = choose|j: int| 0 <= j < len && filled(orig[j]) && #[trigger] t[j] == p;
            }
            assert forall|p: int, x: usize|
                0 <= p < cnt && filled(self.entries()[p]) && #[trigger] self.neighbours_of(p).contains(x)
                    implies x < cnt && filled(self.entries()[x as int]) && x != p
                        && self.neighbours_of(x as int).contains(p as usize) by {
                assert(has_source(t, orig, p));
                let j = choose|j: int| 0 <= j < len && filled(orig[j]) && #[trigger] t[j] == p;
                let rj = orig_region.neighbours_of(j);
                assert(relabelled(t, rj).contains(x));
                let y = choose|y: usize| rj.contains(y) && #[trigger] t[y as int] == x as int;
                assert(filled(orig[y as int]));
                assert(y != j);
                assert(orig_region.neighbours_of(y as int).contains(j as usize));
                assert(self.neighbour_slots()[t[y as int]] == Some(relabelled(t, orig_region.neighbours_of(y as int))));
                assert(relabelled(t, orig_region.neighbours_of(y as int)).contains(p as usize));
            }
            assert forall|m: int| 0 <= m < f_ids.len() implies #[trigger] t[f_ids[m] as int] == moved_slot(f_ids, e_ids, m) by {
                let k = big_f - 1 - m;
                if m < fi {
                    if k < e_ids.len() && f_ids[m] > e_ids[k] {
                        assert(ei < e_ids.len() && fi > 0);
                        assert(f_ids[fi - 1] <= e_ids[ei as int]);
                        if m < fi - 1 {
                            assert(f_ids[m] < f_ids[fi - 1]);
                        }
                        if ei < k {
                            assert(e_ids[ei as int] < e_ids[k]);
                        }
                    }
                } else {
                    assert(f_ids[big_f - 1 - k] > e_ids[k]);
                }
            }
        }
    }

    /// Capacity of the room buffer, as the allocator gave it: room for at
    /// least every slot.
    pub fn room_buffer_capacity(&self) -> (c: usize)
        ensures
            c >= self.entries().len(),
    {
        vec_capacity(&self.room_buffer)
    }

    /// Capacity of the neighbour buffer, as the allocator gave it: room for
    /// at least every slot.
    pub fn neighbour_buffer_capacity(&self) -> (c: usize)
        ensures
            c >= self.neighbour_slots().len(),
    {
        vec_capacity(&self.neighbour_buffer)
    }
}

} // verus!
