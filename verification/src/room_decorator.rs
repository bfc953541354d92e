//! Giving single-cell rooms a purpose: save rooms, navigation rooms, items.
use vstd::prelude::*;

use crate::builder_config::MapBuilderConfig;
use crate::map_region::{filled, MapRegion};
use crate::rng::random_u32;
use crate::types::{neighbouring_pairs, Cell, Door, MapStyle, Room, RoomModifier};

verus! {

/// Save or navigation rooms of one kind are kept at least this far apart.
pub const MIN_ROOM_DISTANCE: u64 = 8;

/// The decorator of a family of styles.
#[derive(Debug, Clone, Copy, PartialEq, Eq, Structural)]
pub enum RoomDecorator {
    Castlevania,
    ZeroMission,
    Fusion,
    SuperMetroid,
}

/// Picks the decorator of a style.
pub struct RoomDecoratorFactory;

/// The decorator a style uses.
pub open spec fn decorator_of(style: MapStyle) -> RoomDecorator {
    match style {
        MapStyle::CastlevaniaSOTN => RoomDecorator::Castlevania,
        MapStyle::CastlevaniaAOS => RoomDecorator::Castlevania,
        MapStyle::CastlevaniaCOTM => RoomDecorator::Castlevania,
        MapStyle::CastlevaniaHOD => RoomDecorator::Castlevania,
        MapStyle::MetroidZM => RoomDecorator::ZeroMission,
        MapStyle::MetroidFS => RoomDecorator::Fusion,
        MapStyle::MetroidSP => RoomDecorator::SuperMetroid,
    }
}

/// The modifier a Castlevania room gets for a roll of `0..100`, before the
/// spacing of save and navigation rooms is checked: save below 50,
/// navigation below 71, nothing above.
pub open spec fn castlevania_pick(roll: u32) -> Option<RoomModifier> {
    if roll < 50 {
        Some(RoomModifier::Save)
    } else if roll < 71 {
        Some(RoomModifier::Navigation)
    } else {
        None
    }
}

/// The same for Metroid rooms: save below 30, navigation below 45, an item
/// below 60, nothing above.
pub open spec fn metroid_pick(roll: u32) -> Option<RoomModifier> {
    if roll < 30 {
        Some(RoomModifier::Save)
    } else if roll < 45 {
        Some(RoomModifier::Navigation)
    } else if roll < 60 {
        Some(RoomModifier::Item)
    } else {
        None
    }
}

/// The modifier a decorator's roll picks (see `castlevania_pick` and
/// `metroid_pick`), before spacing is checked.
pub open spec fn pick_of(d: RoomDecorator, roll: u32) -> Option<RoomModifier> {
    if d == RoomDecorator::Castlevania { castlevania_pick(roll) } else { metroid_pick(roll) }
}

/// Some cell of `placed` lies closer than `MIN_ROOM_DISTANCE` to `c`.
pub open spec fn near(placed: Seq<Cell>, c: Cell) -> bool {
    exists|k: int| 0 <= k < placed.len() && crate::types::manhattan(#[trigger] placed[k], c) < MIN_ROOM_DISTANCE
}

/// The cells of `cells` whose modifier in `mods` (same positions) is `kind`, in order.
pub open spec fn placed_cells(cells: Seq<Cell>, mods: Seq<Option<RoomModifier>>, kind: RoomModifier) -> Seq<Cell>
    decreases cells.len(),
{
    if cells.len() == 0 {
        Seq::empty()
    } else {
        let p = placed_cells(cells.drop_last(), mods, kind);
        if mods[cells.len() - 1] == Some(kind) { p.push(cells.last()) } else { p }
    }
}

/// The modifier a room on `c` gets for `roll`: the decorator's pick, but
/// none for a save or navigation room near one of its kind already placed.
pub open spec fn spaced_pick(d: RoomDecorator, roll: u32, saves: Seq<Cell>, navigations: Seq<Cell>, c: Cell) -> Option<RoomModifier> {
    match pick_of(d, roll) {
        Some(RoomModifier::Save) => if near(saves, c) { None } else { Some(RoomModifier::Save) },
        Some(RoomModifier::Navigation) => if near(navigations, c) { None } else { Some(RoomModifier::Navigation) },
        m => m,
    }
}

/// The modifiers rooms on `cells` get, walked in order, for `rolls` (same
/// positions): each `spaced_pick` against the rooms placed before it.
pub open spec fn decorations(d: RoomDecorator, cells: Seq<Cell>, rolls: Seq<u32>) -> Seq<Option<RoomModifier>>
    decreases cells.len(),
{
    if cells.len() == 0 {
        Seq::empty()
    } else {
        let prev = decorations(d, cells.drop_last(), rolls);
        let i = cells.len() - 1;
        prev.push(spaced_pick(d, rolls[i], placed_cells(cells.drop_last(), prev, RoomModifier::Save),
            placed_cells(cells.drop_last(), prev, RoomModifier::Navigation), cells[i]))
    }
}

proof fn lemma_decorations_len(d: RoomDecorator, cells: Seq<Cell>, rolls: Seq<u32>)
    ensures
        decorations(d, cells, rolls).len() == cells.len(),
    decreases cells.len(),
{
    if cells.len() > 0 {
        lemma_decorations_len(d, cells.drop_last(), rolls);
    }
}

/// `placed_cells` reads only the modifiers at the positions of `cells`.
proof fn lemma_placed_frame(cells: Seq<Cell>, m1: Seq<Option<RoomModifier>>, m2: Seq<Option<RoomModifier>>, kind: RoomModifier)
    requires
        forall|k: int| 0 <= k < cells.len() ==> m1[k] == m2[k],
    ensures
        placed_cells(cells, m1, kind) == placed_cells(cells, m2, kind),
    decreases cells.len(),
{
    if cells.len() > 0 {
        lemma_placed_frame(cells.drop_last(), m1, m2, kind);
    }
}

/// The manhattan distance of two cells.
fn cell_distance(a: Cell, b: Cell) -> (d: u64)
    ensures
        d == crate::types::manhattan(a, b),
{
    let dc: u64 = if a.col >= b.col { (a.col - b.col) as u64 } else { (b.col - a.col) as u64 };
    let dr: u64 = if a.row >= b.row { (a.row - b.row) as u64 } else { (b.row - a.row) as u64 };
    dc + dr
}

/// Whether some cell of `cells` lies closer than `MIN_ROOM_DISTANCE` to `cell`.
fn too_close(cells: &Vec<Cell>, cell: Cell) -> (r: bool)
    ensures
        r == exists|k: int| 0 <= k < cells@.len() && crate::types::manhattan(#[trigger] cells@[k], cell) < MIN_ROOM_DISTANCE,
{
    let mut k: usize = 0;
    while k < cells.len()
        invariant
            0 <= k <= cells.len(),
            forall|q: int| 0 <= q < k ==> crate::types::manhattan(#[trigger] cells@[q], cell) >= MIN_ROOM_DISTANCE,
        decreases cells.len() - k,
    {
        if cell_distance(cells[k], cell) < MIN_ROOM_DISTANCE {
            return true;
        }
        k = k + 1;
    }
    false
}

/// Whether a door of `doors` joins `from` and `to`, either way round.
fn has_door(doors: &[Door], from: Cell, to: Cell) -> (r: bool)
    ensures
        r == exists|k: int| 0 <= k < doors@.len() && ((#[trigger] doors@[k]).from == from && doors@[k].to == to
            || doors@[k].from == to && doors@[k].to == from),
{
    let mut k: usize = 0;
    while k < doors.len()
        invariant
            0 <= k <= doors.len(),
            forall|q: int| 0 <= q < k ==> !((#[trigger] doors@[q]).from == from && doors@[q].to == to
                || doors@[q].from == to && doors@[q].to == from),
        decreases doors.len() - k,
    {
        let d = doors[k];
        if (d.from == from && d.to == to) || (d.from == to && d.to == from) {
            return true;
        }
        k = k + 1;
    }
    false
}

/// Whether a door of `doors` stands between vertically stacked cells of
/// two different rooms `room` and `other`.
pub open spec fn vertical_door_between(room: Room, other: Room, doors: Seq<Door>) -> bool {
    !crate::types::room_eq(room, other) && exists|k: int| 0 <= k < neighbouring_pairs(room.cells@, other.cells@).len() && {
        let p = #[trigger] neighbouring_pairs(room.cells@, other.cells@)[k];
        &&& !p.2.spec_is_horizontal()
        &&& exists|q: int| 0 <= q < doors.len() && ((#[trigger] doors[q]).from == p.0 && doors[q].to == p.1
            || doors[q].from == p.1 && doors[q].to == p.0)
    }
}

/// Slot `i` of `r` is one the decorator rolls for: an active single-cell
/// room with no door to a vertically stacked active neighbour.
pub open spec fn decoration_target(r: MapRegion, doors: Seq<Door>, i: int) -> bool {
    &&& 0 <= i < r.entries().len()
    &&& r.entries()[i] is Active
    &&& r.entries()[i].spec_room().cells@.len() == 1
    &&& !exists|x: usize| #[trigger] r.neighbours_of(i).contains(x) && r.entries()[x as int] is Active
        && vertical_door_between(r.entries()[i].spec_room(), r.entries()[x as int].spec_room(), doors)
}

/// The first cells of the rooms of `r` at slots `ids`, in order.
pub open spec fn first_cells(r: MapRegion, ids: Seq<usize>) -> Seq<Cell> {
    ids.map_values(|i: usize| r.entries()[i as int].spec_room().cells@[0])
}

/// `e` is `r` decorated with the rolls `rolls`: `ids` lists, in slot order,
/// the slots that get a new modifier (`redecorated`), `rolls` holds a roll
/// of `0..100` for each, and slot `ids[k]` gets the `k`-th of the
/// `decorations` of their first cells.
pub open spec fn decorated_by(d: RoomDecorator, r: MapRegion, doors: Seq<Door>, e: Seq<crate::map_region::RoomEntry>,
    ids: Seq<usize>, rolls: Seq<u32>) -> bool {
    &&& forall|k: int, l: int| 0 <= k < l < ids.len() ==> #[trigger] ids[k] < #[trigger] ids[l]
    &&& forall|i: int| 0 <= i < r.entries().len() ==> (#[trigger] ids.contains(i as usize) <==> redecorated(d, r, doors, i))
    &&& forall|k: int| 0 <= k < ids.len() ==> (#[trigger] ids[k] as int) < r.entries().len()
    &&& rolls.len() == ids.len()
    &&& forall|k: int| 0 <= k < rolls.len() ==> #[trigger] rolls[k] < 100
    &&& forall|k: int| 0 <= k < ids.len() ==> e[#[trigger] ids[k] as int].spec_room().modifier
        == decorations(d, first_cells(r, ids), rolls)[k]
}

/// Whether the decorator keeps the modifier a room already has.
pub open spec fn keeps_modifiers(d: RoomDecorator) -> bool {
    d != RoomDecorator::Castlevania
}

/// The modifiers a decorator gives: save and navigation rooms, and items
/// for Metroid decorators; or none.
pub open spec fn gives(d: RoomDecorator, m: Option<RoomModifier>) -> bool {
    ||| m is None
    ||| m == Some(RoomModifier::Save)
    ||| m == Some(RoomModifier::Navigation)
    ||| m == Some(RoomModifier::Item) && d != RoomDecorator::Castlevania
}

/// Slot `i` gets a new modifier: a target, unless the decorator keeps the
/// modifier it already has.
pub open spec fn redecorated(d: RoomDecorator, r: MapRegion, doors: Seq<Door>, i: int) -> bool {
    decoration_target(r, doors, i) && !(keeps_modifiers(d) && r.entries()[i].spec_room().modifier is Some)
}

/// Whether a door of `doors` stands between vertically stacked cells of
/// `room` and `other`.
fn has_vertical_door(room: &Room, other: &Room, doors: &[Door]) -> (r: bool)
    ensures
        r == vertical_door_between(*room, *other, doors@),
{
    match room.get_neighbouring_cells_for(other) {
        Some(pairs) => {
            let mut k: usize = 0;
            while k < pairs.len()
                invariant
                    0 <= k <= pairs.len(),
                    !crate::types::room_eq(*room, *other),
                    pairs@ == neighbouring_pairs(room.cells@, other.cells@),
                    forall|q: int| 0 <= q < k ==> {
                        let p = #[trigger] pairs@[q];
                        !(!p.2.spec_is_horizontal() && exists|t: int| 0 <= t < doors@.len() && ((#[trigger] doors@[t]).from == p.0 && doors@[t].to == p.1
                            || doors@[t].from == p.1 && doors@[t].to == p.0))
                    },
                decreases pairs.len() - k,
            {
                let (from, to, direction) = pairs[k];
                if !direction.is_horizontal() && has_door(doors, from, to) {
                    proof {
                        let p = neighbouring_pairs(room.cells@, other.cells@)[k as int];
                        assert(p == pairs@[k as int]);
                        assert(from == p.0 && to == p.1 && direction == p.2);
                        assert(!p.2.spec_is_horizontal());
                        assert(!crate::types::room_eq(*room, *other));
                    }
                    return true;
                }
                k = k + 1;
            }
            false
        },
        None => {
            proof {
                if !crate::types::room_eq(*room, *other) {
                    assert(neighbouring_pairs(room.cells@, other.cells@).len() == 0);
                }
            }
            false
        },
    }
}

impl RoomDecoratorFactory {
    /// The decorator of a style: Castlevania styles share one.
    pub fn decorator_for(style: MapStyle) -> (d: RoomDecorator)
        ensures
            d == decorator_of(style),
    {
        match style {
            MapStyle::CastlevaniaSOTN => RoomDecorator::Castlevania,
            MapStyle::CastlevaniaAOS => RoomDecorator::Castlevania,
            MapStyle::CastlevaniaCOTM => RoomDecorator::Castlevania,
            MapStyle::CastlevaniaHOD => RoomDecorator::Castlevania,
            MapStyle::MetroidZM => RoomDecorator::ZeroMission,
            MapStyle::MetroidFS => RoomDecorator::Fusion,
            MapStyle::MetroidSP => RoomDecorator::SuperMetroid,
        }
    }
}

impl RoomDecorator {
    /// The modifiers of rooms on `cells`, in order, for the rolls `rolls`:
    /// each room gets its roll's pick (`castlevania_pick` or
    /// `metroid_pick`), but none for a save or navigation room closer than
    /// `MIN_ROOM_DISTANCE` to one of its kind placed before (see
    /// `decorations`).
    pub fn pick_modifiers(&self, cells: &Vec<Cell>, rolls: &Vec<u32>) -> (mods: Vec<Option<RoomModifier>>)
        requires
            rolls@.len() == cells@.len(),
        ensures
            mods@ == decorations(*self, cells@, rolls@),
            mods@.len() == cells@.len(),
            forall|k: int| 0 <= k < mods@.len() ==> gives(*self, #[trigger] mods@[k]),
            forall|i: int, j: int| 0 <= i < mods@.len() && 0 <= j < mods@.len() && i != j
                && #[trigger] mods@[i] == Some(RoomModifier::Save) && #[trigger] mods@[j] == Some(RoomModifier::Save)
                ==> crate::types::manhattan(cells@[i], cells@[j]) >= MIN_ROOM_DISTANCE,
            forall|i: int, j: int| 0 <= i < mods@.len() && 0 <= j < mods@.len() && i != j
                && #[trigger] mods@[i] == Some(RoomModifier::Navigation) && #[trigger] mods@[j] == Some(RoomModifier::Navigation)
                ==> crate::types::manhattan(cells@[i], cells@[j]) >= MIN_ROOM_DISTANCE,
    {
        let metroid = match self {
            RoomDecorator::Castlevania => false,
            _ => true,
        };
        let mut mods: Vec<Option<RoomModifier>> = Vec::new();
        let mut save_rooms: Vec<Cell> = Vec::new();
        let mut navigation_rooms: Vec<Cell> = Vec::new();
        let mut i: usize = 0;
        proof {
            assert(cells@.take(0) =~= Seq::<Cell>::empty());
        }
        while i < cells.len()
            invariant
                0 <= i <= cells@.len(),
                rolls@.len() == cells@.len(),
                metroid == (*self != RoomDecorator::Castlevania),
                mods@ == decorations(*self, cells@.take(i as int), rolls@),
                mods@.len() == i,
                save_rooms@ == placed_cells(cells@.take(i as int), mods@, RoomModifier::Save),
                navigation_rooms@ == placed_cells(cells@.take(i as int), mods@, RoomModifier::Navigation),
                forall|k: int| 0 <= k < i ==> gives(*self, #[trigger] mods@[k]),
                forall|k: int| 0 <= k < i && #[trigger] mods@[k] == Some(RoomModifier::Save) ==> save_rooms@.contains(cells@[k]),
                forall|k: int| 0 <= k < i && #[trigger] mods@[k] == Some(RoomModifier::Navigation) ==> navigation_rooms@.contains(cells@[k]),
                forall|k1: int, k2: int| 0 <= k1 < i && 0 <= k2 < i && k1 != k2
                    && #[trigger] mods@[k1] == Some(RoomModifier::Save) && #[trigger] mods@[k2] == Some(RoomModifier::Save)
                    ==> crate::types::manhattan(cells@[k1], cells@[k2]) >= MIN_ROOM_DISTANCE,
                forall|k1: int, k2: int| 0 <= k1 < i && 0 <= k2 < i && k1 != k2
                    && #[trigger] mods@[k1] == Some(RoomModifier::Navigation) && #[trigger] mods@[k2] == Some(RoomModifier::Navigation)
                    ==> crate::types::manhattan(cells@[k1], cells@[k2]) >= MIN_ROOM_DISTANCE,
            decreases cells@.len() - i,
        {
            let c = cells[i];
            let roll = rolls[i];
            let (save_cut, nav_cut, item_cut): (u32, u32, u32) = if metroid { (30, 45, 60) } else { (50, 71, 71) };
            let ghost m0 = mods@;
            let ghost sr0 = save_rooms@;
            let ghost nr0 = navigation_rooms@;
            let modifier = if roll < save_cut {
                if too_close(&save_rooms, c) {
                    None
                } else {
                    save_rooms.push(c);
                    Some(RoomModifier::Save)
                }
            } else if roll < nav_cut {
                if too_close(&navigation_rooms, c) {
                    None
                } else {
                    navigation_rooms.push(c);
                    Some(RoomModifier::Navigation)
                }
            } else if roll < item_cut {
                Some(RoomModifier::Item)
            } else {
                None
            };
            mods.push(modifier);
            proof {
                let t0 = cells@.take(i as int);
                let t1 = cells@.take(i + 1);
                assert(t1.drop_last() =~= t0);
                assert(t1[i as int] == c);
                assert(modifier == spaced_pick(*self, rolls@[i as int], sr0, nr0, c));
                assert(mods@ == m0.push(modifier));
                assert(mods@ == decorations(*self, t1, rolls@));
                lemma_placed_frame(t0, m0, mods@, RoomModifier::Save);
                lemma_placed_frame(t0, m0, mods@, RoomModifier::Navigation);
                assert(save_rooms@ == placed_cells(t1, mods@, RoomModifier::Save));
                assert(navigation_rooms@ == placed_cells(t1, mods@, RoomModifier::Navigation));
                assert(gives(*self, modifier));
                assert forall|k: int| 0 <= k < i + 1 && #[trigger] mods@[k] == Some(RoomModifier::Save) implies save_rooms@.contains(cells@[k]) by {
                    if k < i {
                        assert(mods@[k] == m0[k]);
                        assert(sr0.contains(cells@[k]));
                        let q = choose|q: int| 0 <= q < sr0.len() && sr0[q] == cells@[k];
                        if modifier == Some(RoomModifier::Save) {
                            assert(save_rooms@[q] == sr0[q]);
                        }
                    } else {
                        assert(save_rooms@[save_rooms@.len() - 1] == c);
                    }
                }
                assert forall|k: int| 0 <= k < i + 1 && #[trigger] mods@[k] == Some(RoomModifier::Navigation) implies navigation_rooms@.contains(cells@[k]) by {
                    if k < i {
                        assert(mods@[k] == m0[k]);
                        assert(nr0.contains(cells@[k]));
                        let q = choose|q: int| 0 <= q < nr0.len() && nr0[q] == cells@[k];
                        if modifier == Some(RoomModifier::Navigation) {
                            assert(navigation_rooms@[q] == nr0[q]);
                        }
                    } else {
                        assert(navigation_rooms@[navigation_rooms@.len() - 1] == c);
                    }
                }
                assert forall|k1: int, k2: int| 0 <= k1 < i + 1 && 0 <= k2 < i + 1 && k1 != k2
                    && #[trigger] mods@[k1] == Some(RoomModifier::Save) && #[trigger] mods@[k2] == Some(RoomModifier::Save)
                    implies crate::types::manhattan(cells@[k1], cells@[k2]) >= MIN_ROOM_DISTANCE by {
                    if k1 < i && k2 < i {
                        assert(mods@[k1] == m0[k1] && mods@[k2] == m0[k2]);
                    } else if k1 == i {
                        assert(mods@[k2] == m0[k2]);
                        let q = choose|q: int| 0 <= q < sr0.len() && sr0[q] == cells@[k2];
                        assert(crate::types::manhattan(sr0[q], c) >= MIN_ROOM_DISTANCE);
                    } else {
                        assert(mods@[k1] == m0[k1]);
                        let q = choose|q: int| 0 <= q < sr0.len() && sr0[q] == cells@[k1];
                        assert(crate::types::manhattan(sr0[q], c) >= MIN_ROOM_DISTANCE);
                    }
                }
                assert forall|k1: int, k2: int| 0 <= k1 < i + 1 && 0 <= k2 < i + 1 && k1 != k2
                    && #[trigger] mods@[k1] == Some(RoomModifier::Navigation) && #[trigger] mods@[k2] == Some(RoomModifier::Navigation)
                    implies crate::types::manhattan(cells@[k1], cells@[k2]) >= MIN_ROOM_DISTANCE by {
                    if k1 < i && k2 < i {
                        assert(mods@[k1] == m0[k1] && mods@[k2] == m0[k2]);
                    } else if k1 == i {
                        assert(mods@[k2] == m0[k2]);
                        let q = choose|q: int| 0 <= q < nr0.len() && nr0[q] == cells@[k2];
                        assert(crate::types::manhattan(nr0[q], c) >= MIN_ROOM_DISTANCE);
                    } else {
                        assert(mods@[k1] == m0[k1]);
                        let q = choose|q: int| 0 <= q < nr0.len() && nr0[q] == cells@[k1];
                        assert(crate::types::manhattan(nr0[q], c) >= MIN_ROOM_DISTANCE);
                    }
                }
            }
            i = i + 1;
        }
        proof {
            assert(cells@.take(cells@.len() as int) =~= cells@);
        }
        mods
    }

    /// Decorates the region: the active single-cell rooms with no door to a
    /// vertically stacked neighbour are walked in slot order (Metroid
    /// decorators skip those that already have a modifier); each gets the
    /// modifier of a roll of `0..100` (`castlevania_pick` or
    /// `metroid_pick`), except that a save or navigation room closer than
    /// `MIN_ROOM_DISTANCE` to one of its kind already placed gets none: the
    /// rolls are drawn first, then handed to `pick_modifiers`
    /// (`decorated_by`). Only modifiers change.
    pub fn decorate(&self, map_region: &mut MapRegion, doors: &[Door], config: &MapBuilderConfig)
        requires
            old(map_region).graph_ok(),
        ensures
            final(map_region).graph_ok(),
            old(map_region).tidy() ==> final(map_region).tidy(),
            final(map_region).origin() == old(map_region).origin(),
            final(map_region).entries().len() == old(map_region).entries().len(),
            final(map_region).neighbour_slots() == old(map_region).neighbour_slots(),
            forall|i: int| 0 <= i < old(map_region).entries().len() ==> {
                let before = old(map_region).entries()[i];
                let after = #[trigger] final(map_region).entries()[i];
                &&& (before is Active <==> after is Active)
                &&& (before is Removed <==> after is Removed)
                &&& filled(before) ==> after.spec_room().cells == before.spec_room().cells
                &&& !(before is Active && before.spec_room().cells@.len() == 1) ==> after == before
                &&& !redecorated(*self, *old(map_region), doors@, i) ==> after == before
                &&& redecorated(*self, *old(map_region), doors@, i) ==> gives(*self, after.spec_room().modifier)
            },
            forall|i: int, j: int| i != j && redecorated(*self, *old(map_region), doors@, i) && redecorated(*self, *old(map_region), doors@, j)
                && (#[trigger] final(map_region).entries()[i]).spec_room().modifier == Some(RoomModifier::Save)
                && (#[trigger] final(map_region).entries()[j]).spec_room().modifier == Some(RoomModifier::Save)
                ==> crate::types::manhattan(old(map_region).entries()[i].spec_room().cells@[0], old(map_region).entries()[j].spec_room().cells@[0])
                    >= MIN_ROOM_DISTANCE,
            forall|i: int, j: int| i != j && redecorated(*self, *old(map_region), doors@, i) && redecorated(*self, *old(map_region), doors@, j)
                && (#[trigger] final(map_region).entries()[i]).spec_room().modifier == Some(RoomModifier::Navigation)
                && (#[trigger] final(map_region).entries()[j]).spec_room().modifier == Some(RoomModifier::Navigation)
                ==> crate::types::manhattan(old(map_region).entries()[i].spec_room().cells@[0], old(map_region).entries()[j].spec_room().cells@[0])
                    >= MIN_ROOM_DISTANCE,
            exists|ids: Seq<usize>, rolls: Seq<u32>|
                #[trigger] decorated_by(*self, *old(map_region), doors@, final(map_region).entries(), ids, rolls),
    {
        let ghost r = *map_region;
        let n = map_region.room_slots();
        let mut targets: Vec<usize> = Vec::new();
        let mut idx: usize = 0;
        while idx < n
            invariant
                0 <= idx <= n,
                n == r.entries().len(),
                *map_region == r,
                r.graph_ok(),
                forall|k: int| 0 <= k < targets@.len() ==> (#[trigger] targets@[k] as int) < idx
                    && r.entries()[targets@[k] as int] is Active && r.entries()[targets@[k] as int].spec_room().cells@.len() == 1,
                forall|k: int, l: int| 0 <= k < l < targets@.len() ==> #[trigger] targets@[k] < #[trigger] targets@[l],
                forall|i: int| 0 <= i < idx ==> (decoration_target(r, doors@, i) <==> #[trigger] targets@.contains(i as usize)),
            decreases n - idx,
        {
            let ghost t0 = targets@;
            if map_region.is_active(idx) && map_region.get_active(idx).cells.len() == 1 {
                proof {
                    assert(filled(r.entries()[idx as int]));
                }
                let room = map_region.get_active(idx);
                let neighbours = map_region.iter_active_neighbours(idx);
                let mut vertical = false;
                let mut j: usize = 0;
                while j < neighbours.len()
                    invariant
                        0 <= j <= neighbours.len(),
                        (idx as int) < n,
                        n == r.entries().len(),
                        *map_region == r,
                        r.graph_ok(),
                        r.entries()[idx as int] is Active,
                        forall|x: usize| #[trigger] neighbours@.contains(x) <==> (r.neighbours_of(idx as int).contains(x)
                            && r.entries()[x as int] is Active),
                        *room == r.entries()[idx as int].spec_room(),
                        vertical <==> exists|k: int| 0 <= k < j && vertical_door_between(*room,
                            r.entries()[(#[trigger] neighbours@[k]) as int].spec_room(), doors@),
                    decreases neighbours.len() - j,
                {
                    let nb = neighbours[j];
                    proof {
                        assert(neighbours@.contains(nb));
                        assert(r.neighbours_of(idx as int).contains(nb));
                    }
                    if !vertical && has_vertical_door(room, map_region.get_active(nb), doors) {
                        vertical = true;
                    }
                    proof {
                        if vertical_door_between(*room, r.entries()[nb as int].spec_room(), doors@) {
                            assert(vertical_door_between(*room, r.entries()[neighbours@[j as int] as int].spec_room(), doors@));
                        }
                    }
                    j = j + 1;
                }
                proof {
                    let ri = r.entries()[idx as int].spec_room();
                    if vertical {
                        let k = choose|k: int| 0 <= k < neighbours@.len() && vertical_door_between(*room,
                            r.entries()[(#[trigger] neighbours@[k]) as int].spec_room(), doors@);
                        assert(neighbours@.contains(neighbours@[k]));
                        assert(r.neighbours_of(idx as int).contains(neighbours@[k]));
                        assert(!decoration_target(r, doors@, idx as int));
                    } else {
                        assert forall|x: usize| #[trigger] r.neighbours_of(idx as int).contains(x) && r.entries()[x as int] is Active
                            implies !vertical_door_between(ri, r.entries()[x as int].spec_room(), doors@) by {
                            assert(neighbours@.contains(x));
                            let k = choose|k: int| 0 <= k < neighbours@.len() && neighbours@[k] == x;
                            assert(neighbours@[k] == x);
                        }
                        assert(decoration_target(r, doors@, idx as int));
                    }
                }
                if !vertical {
                    targets.push(idx);
                }
            }
            proof {
                assert forall|i: int| 0 <= i < idx + 1 implies (decoration_target(r, doors@, i) <==> #[trigger] targets@.contains(i as usize)) by {
                    if targets@.len() > t0.len() {
                        assert(targets@ == t0.push(idx));
                        crate::seq_facts::lemma_push_contains(t0, idx, i as usize);
                    } else {
                        assert(targets@ == t0);
                    }
                    if i == idx as int {
                        if targets@.len() == t0.len() {
                            assert(!t0.contains(idx)) by {
                                if t0.contains(idx) {
                                    let k = choose|k: int| 0 <= k < t0.len() && t0[k] == idx;
                                }
                            }
                        }
                    }
                }
            }
            idx = idx + 1;
        }
        let metroid = match self {
            RoomDecorator::Castlevania => false,
            _ => true,
        };
        // the rooms that get a new modifier, in slot order, and their cells
        let mut ids: Vec<usize> = Vec::new();
        let mut cells: Vec<Cell> = Vec::new();
        let mut t: usize = 0;
        while t < targets.len()
            invariant
                0 <= t <= targets.len(),
                n == r.entries().len(),
                *map_region == r,
                metroid == keeps_modifiers(*self),
                forall|k: int| 0 <= k < targets@.len() ==> (#[trigger] targets@[k] as int) < n
                    && r.entries()[targets@[k] as int] is Active && r.entries()[targets@[k] as int].spec_room().cells@.len() == 1,
                forall|k: int, l: int| 0 <= k < l < targets@.len() ==> #[trigger] targets@[k] < #[trigger] targets@[l],
                forall|i: int| 0 <= i < n ==> (decoration_target(r, doors@, i) <==> #[trigger] targets@.contains(i as usize)),
                cells@.len() == ids@.len(),
                forall|k: int| 0 <= k < ids@.len() ==> exists|j: int| 0 <= j < t && #[trigger] ids@[k] == targets@[j],
                forall|k: int, l: int| 0 <= k < l < ids@.len() ==> #[trigger] ids@[k] < #[trigger] ids@[l],
                forall|k: int| 0 <= k < ids@.len() ==> (#[trigger] ids@[k] as int) < n && redecorated(*self, r, doors@, ids@[k] as int)
                    && cells@[k] == r.entries()[ids@[k] as int].spec_room().cells@[0],
                forall|i: int| 0 <= i < n ==> (#[trigger] ids@.contains(i as usize) <==> (redecorated(*self, r, doors@, i)
                    && exists|j: int| 0 <= j < t && targets@[j] == i as usize)),
            decreases targets.len() - t,
        {
            let room_id = targets[t];
            let ghost ids0 = ids@;
            proof {
                assert(targets@[t as int] == room_id);
                assert(targets@.contains((room_id as int) as usize));
                assert(decoration_target(r, doors@, room_id as int));
            }
            let room = map_region.get_active(room_id);
            if !(metroid && room.modifier.is_some()) {
                ids.push(room_id);
                cells.push(room.cells[0]);
                proof {
                    assert forall|k: int| 0 <= k < ids@.len() implies exists|j: int| 0 <= j < t + 1 && #[trigger] ids@[k] == targets@[j] by {
                        if k < ids0.len() {
                            assert(ids@[k] == ids0[k]);
                            let j = choose|j: int| 0 <= j < t && #[trigger] ids0[k] == targets@[j];
                        } else {
                            assert(ids@[k] == targets@[t as int]);
                        }
                    }
                    assert forall|k: int, l: int| 0 <= k < l < ids@.len() implies #[trigger] ids@[k] < #[trigger] ids@[l] by {
                        if l == ids0.len() {
                            let j = choose|j: int| 0 <= j < t && #[trigger] ids0[k] == targets@[j];
                            assert(ids@[k] == ids0[k]);
                        } else {
                            assert(ids@[k] == ids0[k] && ids@[l] == ids0[l]);
                        }
                    }
                    assert forall|i: int| 0 <= i < n implies (#[trigger] ids@.contains(i as usize) <==> (redecorated(*self, r, doors@, i)
                        && exists|j: int| 0 <= j < t + 1 && targets@[j] == i as usize)) by {
                        crate::seq_facts::lemma_push_contains(ids0, room_id, i as usize);
                        if i == room_id as int {
                            assert(targets@[t as int] == i as usize);
                        }
                        if exists|j: int| 0 <= j < t + 1 && targets@[j] == i as usize {
                            let j = choose|j: int| 0 <= j < t + 1 && targets@[j] == i as usize;
                            if j < t {
                                assert(exists|j: int| 0 <= j < t && targets@[j] == i as usize);
                            }
                        }
                    }
                }
            } else {
                proof {
                    assert(!redecorated(*self, r, doors@, room_id as int));
                    assert forall|i: int| 0 <= i < n implies (#[trigger] ids@.contains(i as usize) <==> (redecorated(*self, r, doors@, i)
                        && exists|j: int| 0 <= j < t + 1 && targets@[j] == i as usize)) by {
                        if exists|j: int| 0 <= j < t + 1 && targets@[j] == i as usize {
                            let j = choose|j: int| 0 <= j < t + 1 && targets@[j] == i as usize;
                            if j < t {
                                assert(exists|j: int| 0 <= j < t && targets@[j] == i as usize);
                            }
                        }
                    }
                    assert forall|k: int| 0 <= k < ids@.len() implies exists|j: int| 0 <= j < t + 1 && #[trigger] ids@[k] == targets@[j] by {
                        let j = choose|j: int| 0 <= j < t && #[trigger] ids@[k] == targets@[j];
                    }
                }
            }
            t = t + 1;
        }
        proof {
            assert forall|i: int| 0 <= i < n implies (#[trigger] ids@.contains(i as usize) <==> redecorated(*self, r, doors@, i)) by {
                if redecorated(*self, r, doors@, i) {
                    assert(targets@.contains(i as usize));
                    let j = choose|j: int| 0 <= j < targets@.len() && targets@[j] == i as usize;
                }
            }
        }
        // one roll of `0..100` for each of them
        let mut rolls: Vec<u32> = Vec::new();
        while rolls.len() < ids.len()
            invariant
                rolls@.len() <= ids@.len(),
                forall|k: int| 0 <= k < rolls@.len() ==> #[trigger] rolls@[k] < 100,
            decreases ids@.len() - rolls@.len(),
        {
            let roll = random_u32(0, 100);
            rolls.push(roll);
        }
        let mods = self.pick_modifiers(&cells, &rolls);
        proof {
            assert(cells@ =~= first_cells(r, ids@));
        }
        let mut q: usize = 0;
        while q < ids.len()
            invariant
                0 <= q <= ids@.len(),
                n == r.entries().len(),
                r.graph_ok(),
                old(map_region).tidy() ==> r.tidy(),
                map_region.graph_ok(),
                old(map_region).tidy() ==> map_region.tidy(),
                map_region.origin() == r.origin(),
                map_region.entries().len() == n,
                map_region.neighbour_slots() == r.neighbour_slots(),
                mods@.len() == ids@.len(),
                forall|k: int, l: int| 0 <= k < l < ids@.len() ==> #[trigger] ids@[k] < #[trigger] ids@[l],
                forall|k: int| 0 <= k < ids@.len() ==> (#[trigger] ids@[k] as int) < n && redecorated(*self, r, doors@, ids@[k] as int),
                forall|i: int| 0 <= i < n ==> {
                    let before = r.entries()[i];
                    let after = #[trigger] map_region.entries()[i];
                    &&& after is Active <==> before is Active
                    &&& filled(before) ==> after == before.with_room(Room { cells: before.spec_room().cells, modifier: after.spec_room().modifier })
                },
                forall|i: int| 0 <= i < n && !ids@.take(q as int).contains(i as usize) ==> #[trigger] map_region.entries()[i] == r.entries()[i],
                forall|k: int| 0 <= k < q ==> map_region.entries()[#[trigger] ids@[k] as int].spec_room().modifier == mods@[k],
            decreases ids@.len() - q,
        {
            let room_id = ids[q];
            let ghost before = map_region.entries();
            proof {
                assert(!ids@.take(q as int).contains(room_id)) by {
                    if ids@.take(q as int).contains(room_id) {
                        let k = choose|k: int| 0 <= k < q && ids@.take(q as int)[k] == room_id;
                        assert(ids@[k] < ids@[q as int]);
                    }
                }
                assert(before[room_id as int] == r.entries()[room_id as int]);
            }
            let target = map_region.get_mut_room(room_id);
            target.modifier = mods[q];
            proof {
                assert(map_region.neighbour_slots() == r.neighbour_slots());
                assert forall|i: int| 0 <= i < n implies {
                    let b = r.entries()[i];
                    let a = #[trigger] map_region.entries()[i];
                    &&& a is Active <==> b is Active
                    &&& filled(b) ==> a == b.with_room(Room { cells: b.spec_room().cells, modifier: a.spec_room().modifier })
                } by {
                    if i != room_id as int {
                        assert(map_region.entries()[i] == before[i]);
                    }
                }
                assert forall|j: int| 0 <= j < map_region.entries().len() && filled(map_region.entries()[j]) implies (#[trigger] map_region.neighbour_slots()[j]) is Some by {
                    assert(filled(r.entries()[j]));
                }
                assert forall|j: int, z: usize|
                    0 <= j < map_region.entries().len() && filled(map_region.entries()[j]) && #[trigger] map_region.neighbours_of(j).contains(z)
                        implies z < map_region.entries().len() && filled(map_region.entries()[z as int]) && z != j
                            && map_region.neighbours_of(z as int).contains(j as usize) by {
                    assert(filled(r.entries()[j]));
                    assert(r.neighbours_of(j).contains(z));
                    assert(filled(r.entries()[z as int]));
                }
                if old(map_region).tidy() {
                    assert forall|j: int| 0 <= j < map_region.entries().len() && !filled(#[trigger] map_region.entries()[j]) implies map_region.neighbour_slots()[j] is None by {
                        assert(!filled(r.entries()[j]));
                    }
                }
                assert forall|i: int| 0 <= i < n && !ids@.take(q + 1).contains(i as usize) implies #[trigger] map_region.entries()[i] == r.entries()[i] by {
                    assert(ids@.take(q + 1) =~= ids@.take(q as int).push(room_id));
                    crate::seq_facts::lemma_push_contains(ids@.take(q as int), room_id, i as usize);
                    assert(map_region.entries()[i] == before[i]);
                }
                assert forall|k: int| 0 <= k < q + 1 implies map_region.entries()[#[trigger] ids@[k] as int].spec_room().modifier == mods@[k] by {
                    if k < q {
                        assert(ids@[k] < ids@[q as int]);
                        assert(map_region.entries()[ids@[k] as int] == before[ids@[k] as int]);
                    }
                }
            }
            q = q + 1;
        }
        proof {
            let e = map_region.entries();
            assert(ids@.take(ids@.len() as int) =~= ids@);
            assert forall|i: int| 0 <= i < n && !redecorated(*self, r, doors@, i) implies #[trigger] e[i] == r.entries()[i] by {
                assert(!ids@.contains(i as usize));
            }
            assert forall|i: int| 0 <= i < n && redecorated(*self, r, doors@, i) implies exists|k: int| 0 <= k < ids@.len() && #[trigger] ids@[k] == i as usize by {
                assert(ids@.contains(i as usize));
            }
            assert(decorated_by(*self, r, doors@, e, ids@, rolls@));
            assert forall|i: int| 0 <= i < n && redecorated(*self, r, doors@, i)
                implies gives(*self, e[i].spec_room().modifier) by {
                let k = choose|k: int| 0 <= k < ids@.len() && #[trigger] ids@[k] == i as usize;
                assert(gives(*self, mods@[k]));
            }
            assert forall|i: int, j: int| i != j && redecorated(*self, r, doors@, i) && redecorated(*self, r, doors@, j)
                && (#[trigger] e[i]).spec_room().modifier == Some(RoomModifier::Save)
                && (#[trigger] e[j]).spec_room().modifier == Some(RoomModifier::Save)
                implies crate::types::manhattan(r.entries()[i].spec_room().cells@[0], r.entries()[j].spec_room().cells@[0])
                    >= MIN_ROOM_DISTANCE by {
                let k1 = choose|k: int| 0 <= k < ids@.len() && #[trigger] ids@[k] == i as usize;
                let k2 = choose|k: int| 0 <= k < ids@.len() && #[trigger] ids@[k] == j as usize;
                assert(mods@[k1] == Some(RoomModifier::Save) && mods@[k2] == Some(RoomModifier::Save));
                assert(cells@[k1] == r.entries()[i].spec_room().cells@[0]);
                assert(cells@[k2] == r.entries()[j].spec_room().cells@[0]);
            }
            assert forall|i: int, j: int| i != j && redecorated(*self, r, doors@, i) && redecorated(*self, r, doors@, j)
                && (#[trigger] e[i]).spec_room().modifier == Some(RoomModifier::Navigation)
                && (#[trigger] e[j]).spec_room().modifier == Some(RoomModifier::Navigation)
                implies crate::types::manhattan(r.entries()[i].spec_room().cells@[0], r.entries()[j].spec_room().cells@[0])
                    >= MIN_ROOM_DISTANCE by {
                let k1 = choose|k: int| 0 <= k < ids@.len() && #[trigger] ids@[k] == i as usize;
                let k2 = choose|k: int| 0 <= k < ids@.len() && #[trigger] ids@[k] == j as usize;
                assert(mods@[k1] == Some(RoomModifier::Navigation) && mods@[k2] == Some(RoomModifier::Navigation));
                assert(cells@[k1] == r.entries()[i].spec_room().cells@[0]);
                assert(cells@[k2] == r.entries()[j].spec_room().cells@[0]);
            }
        }
    }
}

} // verus!
