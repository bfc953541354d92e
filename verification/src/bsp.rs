//! Binary space partitioning: the map is cut into regions, and each region
//! into rectangles that become rooms, with the adjacency of every rectangle.
use vstd::prelude::*;

use std::collections::HashMap;

use crate::builder_config::BinarySpacePartitioningConfig;
use crate::neighbour_set::{set_elems, set_new, set_insert, set_remove, set_to_vec, NeighbourSet};
use crate::rng::{chance, random_i32, random_u32, CHANCE_SCALE};
use crate::types::{edge_intersects, Direction, Rect, SplitAxis};

verus! {

/// Smallest width of a map that is worth partitioning.
pub const MIN_RECT_WIDTH: u32 = 4;

/// Smallest height of a map that is worth partitioning.
pub const MIN_RECT_HEIGHT: u32 = 4;

/// How a region leans when its rectangles are cut.
#[derive(Debug, Clone, Copy, PartialEq, Eq, Structural)]
pub enum RectModifier {
    Standard,
    PreferHorizontal,
    PreferVertical,
    Chaotic,
}

/// A region of the map with the way it is to be cut.
#[derive(Debug, Clone, Copy, PartialEq, Eq, Structural)]
pub struct RectRegion {
    pub rect: Rect,
    pub modifier: RectModifier,
}

/// `inner` lies within `outer`.
pub open spec fn inside(inner: Rect, outer: Rect) -> bool {
    &&& outer.origin.col <= inner.origin.col
    &&& outer.origin.row <= inner.origin.row
    &&& inner.origin.col + inner.width <= outer.origin.col + outer.width
    &&& inner.origin.row + inner.height <= outer.origin.row + outer.height
}

/// A rectangle with at least one cell on each side.
pub open spec fn solid(r: Rect) -> bool {
    r.width >= 1 && r.height >= 1
}

/// The rectangles have no cell in common: one lies wholly left of, right
/// of, above or below the other.
pub open spec fn apart(a: Rect, b: Rect) -> bool {
    ||| a.origin.col + a.width <= b.origin.col
    ||| b.origin.col + b.width <= a.origin.col
    ||| a.origin.row + a.height <= b.origin.row
    ||| b.origin.row + b.height <= a.origin.row
}

/// The rectangles of `rs` from position `from` on have no cell in common.
pub open spec fn all_apart(rs: Seq<Rect>, from: int) -> bool {
    forall|i: int, j: int| from <= i < j < rs.len() ==> apart(#[trigger] rs[i], #[trigger] rs[j])
}

/// The split axis a rectangle is forced into by its aspect ratio, if any:
/// horizontal when height / width exceeds `height_cutoff` hundredths,
/// else vertical when width / height exceeds `width_cutoff` hundredths.
pub open spec fn forced_axis(rect: Rect, height_cutoff: u32, width_cutoff: u32) -> Option<SplitAxis> {
    if rect.height * 100 > height_cutoff * rect.width {
        Some(SplitAxis::Horizontal)
    } else if rect.width * 100 > width_cutoff * rect.height {
        Some(SplitAxis::Vertical)
    } else {
        None
    }
}

/// The length of the side of `rect` that a cut along `axis` crosses.
pub open spec fn cut_side(rect: Rect, axis: SplitAxis) -> u32 {
    match axis {
        SplitAxis::Horizontal => rect.height,
        SplitAxis::Vertical => rect.width,
    }
}

/// `r` is what cutting `rect` along `axis` at `at` gives: the two halves when
/// the side is longer than one cell, with `at` in the middle for a side of
/// more than six cells unless `chaotic`; else `rect` whole.
pub open spec fn split_outcome(rect: Rect, axis: SplitAxis, at: u32, chaotic: bool, r: (Rect, Option<Rect>)) -> bool {
    let side = cut_side(rect, axis);
    if side > 1 {
        &&& 1 <= at < side
        &&& (side - 1 > 5 && !chaotic ==> at == (side - 1) / 2)
        &&& r.0 == rect.spec_split(axis, at).0
        &&& r.1 == Some(rect.spec_split(axis, at).1)
    } else {
        r == (rect, None::<Rect>)
    }
}

/// Whether `split_rect` may cut along `axis`: along the axis the aspect
/// ratio forces, if any; otherwise horizontally with chance
/// `horizontal_split_prob`, so always horizontally at `CHANCE_SCALE` and
/// always vertically at 0.
pub open spec fn split_axis_allowed(rect: Rect, height_cutoff: u32, width_cutoff: u32, horizontal_split_prob: u32,
    axis: SplitAxis) -> bool {
    match forced_axis(rect, height_cutoff, width_cutoff) {
        Some(f) => axis == f,
        None => {
            &&& horizontal_split_prob == CHANCE_SCALE ==> axis == SplitAxis::Horizontal
            &&& horizontal_split_prob == 0 ==> axis == SplitAxis::Vertical
        },
    }
}

/// `r` is a possible outcome of `split_rect` on these arguments: a cut
/// along an allowed axis (see `split_axis_allowed`) as `split_outcome` says.
pub open spec fn split_rect_result(rect: Rect, height_cutoff: u32, width_cutoff: u32, horizontal_split_prob: u32,
    chaotic: bool, r: (Rect, Option<Rect>)) -> bool {
    exists|axis: SplitAxis, at: u32| split_axis_allowed(rect, height_cutoff, width_cutoff, horizontal_split_prob, axis)
        && #[trigger] split_outcome(rect, axis, at, chaotic, r)
}

/// A rectangle that its aspect ratio leaves free is cut as the chance says:
/// at a horizontal chance of `CHANCE_SCALE`, a rectangle more than one cell
/// high is cut across its width into two halves of its full width, the first
/// on top of the second; at a chance of 0, a rectangle more than one cell
/// wide is cut across its height into two halves of its full height, the
/// first left of the second.
pub proof fn law_free_axis_follows_split_chance(rect: Rect, height_cutoff: u32, width_cutoff: u32,
    horizontal_split_prob: u32, chaotic: bool, r: (Rect, Option<Rect>))
    requires
        rect.well_placed(),
        split_rect_result(rect, height_cutoff, width_cutoff, horizontal_split_prob, chaotic, r),
        forced_axis(rect, height_cutoff, width_cutoff) is None,
    ensures
        horizontal_split_prob == CHANCE_SCALE && rect.height > 1 ==> {
            &&& r.1 matches Some(b)
            &&& r.0.origin == rect.origin && r.0.width == rect.width && r.0.height < rect.height
            &&& b.origin.col == rect.origin.col && b.width == rect.width
            &&& b.origin.row == rect.origin.row + r.0.height && r.0.height + b.height == rect.height
        },
        horizontal_split_prob == 0 && rect.width > 1 ==> {
            &&& r.1 matches Some(b)
            &&& r.0.origin == rect.origin && r.0.height == rect.height && r.0.width < rect.width
            &&& b.origin.row == rect.origin.row && b.height == rect.height
            &&& b.origin.col == rect.origin.col + r.0.width && r.0.width + b.width == rect.width
        },
{
    let (axis, at) = choose|axis: SplitAxis, at: u32| split_axis_allowed(rect, height_cutoff, width_cutoff,
        horizontal_split_prob, axis) && #[trigger] split_outcome(rect, axis, at, chaotic, r);
    assert(split_outcome(rect, axis, at, chaotic, r));
}

/// The two halves of a cut lie in the rectangle, and their areas add up to its area.
pub proof fn lemma_split_halves(rect: Rect, axis: SplitAxis, at: u32)
    requires
        rect.well_placed(),
        solid(rect),
        !rect.split_is_invalid(axis, at),
    ensures
        inside(rect.spec_split(axis, at).0, rect),
        inside(rect.spec_split(axis, at).1, rect),
        solid(rect.spec_split(axis, at).0),
        solid(rect.spec_split(axis, at).1),
        rect.spec_split(axis, at).0.width * rect.spec_split(axis, at).0.height
            + rect.spec_split(axis, at).1.width * rect.spec_split(axis, at).1.height == rect.width * rect.height,
        rect.spec_split(axis, at).0.width * rect.spec_split(axis, at).0.height < rect.width * rect.height,
        rect.spec_split(axis, at).1.width * rect.spec_split(axis, at).1.height < rect.width * rect.height,
{
    let w = rect.width as int;
    let h = rect.height as int;
    let a = at as int;
    match axis {
        SplitAxis::Horizontal => {
            assert(w * a + w * (h - a) == w * h) by (nonlinear_arith);
            assert(w * a < w * h) by (nonlinear_arith)
                requires
                    w >= 1,
                    a < h,
            ;
            assert(w * (h - a) < w * h) by (nonlinear_arith)
                requires
                    w >= 1,
                    a >= 1,
            ;
        },
        SplitAxis::Vertical => {
            assert(a * h + (w - a) * h == w * h) by (nonlinear_arith);
            assert(a * h < w * h) by (nonlinear_arith)
                requires
                    h >= 1,
                    a < w,
            ;
            assert((w - a) * h < w * h) by (nonlinear_arith)
                requires
                    h >= 1,
                    a >= 1,
            ;
        },
    }
}

/// A rectangle inside another has no larger an area.
pub proof fn lemma_inside_area(inner: Rect, outer: Rect)
    requires
        inside(inner, outer),
    ensures
        inner.width * inner.height <= outer.width * outer.height,
{
    let a = inner.width as int;
    let b = inner.height as int;
    let c = outer.width as int;
    let d = outer.height as int;
    assert(a * b <= c * d) by (nonlinear_arith)
        requires
            0 <= a <= c,
            0 <= b <= d,
    ;
}

/// Adjacency of rectangles goes both ways.
pub proof fn lemma_neighbour_dir_symmetric(a: Rect, b: Rect)
    requires
        a.well_placed(),
        b.well_placed(),
    ensures
        a.spec_neighbour_dir(b) is Some <==> b.spec_neighbour_dir(a) is Some,
{
}

/// The two halves of a cut are adjacent, both ways.
pub proof fn lemma_halves_adjacent(rect: Rect, axis: SplitAxis, at: u32)
    requires
        rect.well_placed(),
        solid(rect),
        !rect.split_is_invalid(axis, at),
    ensures
        rect.spec_split(axis, at).0.spec_neighbour_dir(rect.spec_split(axis, at).1) is Some,
        rect.spec_split(axis, at).1.spec_neighbour_dir(rect.spec_split(axis, at).0) is Some,
{
}

/// The sum of the areas of `rects`.
pub open spec fn total_area(rects: Seq<Rect>) -> int
    decreases rects.len(),
{
    if rects.len() == 0 {
        0
    } else {
        total_area(rects.drop_last()) + rects.last().width * rects.last().height
    }
}

/// Rectangles of at least one cell each are no more than their total area.
pub proof fn lemma_count_below_area(rects: Seq<Rect>)
    requires
        forall|i: int| 0 <= i < rects.len() ==> solid(#[trigger] rects[i]),
    ensures
        rects.len() <= total_area(rects),
    decreases rects.len(),
{
    if rects.len() > 0 {
        let r = rects.last();
        assert(solid(rects[rects.len() - 1]));
        assert forall|i: int| 0 <= i < rects.drop_last().len() implies solid(#[trigger] rects.drop_last()[i]) by {
            assert(rects.drop_last()[i] == rects[i]);
        }
        lemma_count_below_area(rects.drop_last());
        assert(r.width * r.height >= 1) by (nonlinear_arith)
            requires
                r.width >= 1,
                r.height >= 1,
        ;
    }
}

/// The modifier a region gets for a roll of `roll` in `1..=100`: standard
/// below 10, preferring horizontal cuts up to `horizontal_bound`, preferring
/// vertical cuts up to 85, chaotic above.
pub open spec fn modifier_for_roll(roll: u32, horizontal_bound: u32) -> RectModifier {
    if roll < 10 {
        RectModifier::Standard
    } else if roll < horizontal_bound {
        RectModifier::PreferHorizontal
    } else if roll < 85 {
        RectModifier::PreferVertical
    } else {
        RectModifier::Chaotic
    }
}

/// The roll below which a region prefers horizontal cuts: 85 times the
/// chance, in basis points, of such regions.
pub open spec fn horizontal_bound(horizontal_region_prob: u32) -> u32 {
    ((85 * horizontal_region_prob) as int / (CHANCE_SCALE as int)) as u32
}

proof fn lemma_total_area_push(rects: Seq<Rect>, r: Rect)
    ensures
        total_area(rects.push(r)) == total_area(rects) + r.width * r.height,
{
    assert(rects.push(r).drop_last() =~= rects);
}

/// Rectangles inside a well-placed one are well placed.
pub proof fn lemma_inside_well_placed(inner: Rect, outer: Rect)
    requires
        inside(inner, outer),
        outer.well_placed(),
    ensures
        inner.well_placed(),
{
}

/// Cuts `rect` into regions, appending them to `out`: a rectangle whose
/// area is below a fresh random threshold of one half to three halves of
/// `factor` is a region; a larger one is cut (squarely, in the middle when
/// long enough) and both halves are treated alike. A rectangle of one cell
/// is a region whatever its threshold.
fn split_into_regions(rect: Rect, factor: u32, out: &mut Vec<Rect>)
    requires
        rect.well_placed(),
        solid(rect),
        rect.width * rect.height <= u32::MAX,
    ensures
        final(out)@.len() >= old(out)@.len(),
        final(out)@.take(old(out)@.len() as int) == old(out)@,
        forall|i: int| old(out)@.len() <= i < final(out)@.len() ==> inside(#[trigger] final(out)@[i], rect) && solid(final(out)@[i]),
        total_area(final(out)@) == total_area(old(out)@) + rect.width * rect.height,
        all_apart(final(out)@, old(out)@.len() as int),
    decreases rect.width * rect.height,
{
    let percent = random_u32(50, 150);
    proof {
        assert((factor as u64) * (percent as u64) <= 0xffff_ffff * 150) by (nonlinear_arith)
            requires
                factor <= 0xffff_ffff,
                percent < 150,
        ;
    }
    let threshold = (factor as u64) * (percent as u64) / 100;
    let area = rect.area();
    if (area as u64) < threshold {
        let ghost before = out@;
        out.push(rect);
        proof {
            lemma_total_area_push(before, rect);
            assert(out@.take(before.len() as int) =~= before);
        }
        return;
    }
    let (a, maybe_b) = BinarySpacePartitioning::split_rect(rect, 100, 100, CHANCE_SCALE / 2, false);
    match maybe_b {
        Some(b) => {
            let ghost (axis, at) = choose|axis: SplitAxis, at: u32|
                (forced_axis(rect, 100, 100) matches Some(f) ==> axis == f) && #[trigger] split_outcome(rect, axis, at, false, (a, maybe_b));
            proof {
                lemma_split_halves(rect, axis, at);
                lemma_inside_well_placed(a, rect);
                lemma_inside_well_placed(b, rect);
            }
            let ghost before = out@;
            split_into_regions(a, factor, out);
            let ghost middle = out@;
            split_into_regions(b, factor, out);
            proof {
                assert(out@.take(middle.len() as int).take(before.len() as int) =~= out@.take(before.len() as int));
                assert forall|i: int| before.len() <= i < out@.len() implies inside(#[trigger] out@[i], rect) && solid(out@[i]) by {
                    if i < middle.len() {
                        assert(out@[i] == out@.take(middle.len() as int)[i]);
                        assert(middle[i] == out@[i]);
                    }
                }
                assert(apart(a, b));
                assert forall|i: int, j: int| before.len() <= i < j < out@.len() implies apart(#[trigger] out@[i], #[trigger] out@[j]) by {
                    if i < middle.len() {
                        assert(out@[i] == out@.take(middle.len() as int)[i]);
                        assert(middle[i] == out@[i]);
                        assert(inside(middle[i], a));
                        if j < middle.len() {
                            assert(out@[j] == out@.take(middle.len() as int)[j]);
                            assert(middle[j] == out@[j]);
                            assert(apart(middle[i], middle[j]));
                        } else {
                            assert(inside(out@[j], b));
                        }
                    }
                }
            }
        },
        None => {
            let ghost before = out@;
            out.push(rect);
            proof {
                lemma_total_area_push(before, rect);
                assert(out@.take(before.len() as int) =~= before);
            }
        },
    }
}

/// A slot of the partition being built: a rectangle that was cut (its two
/// halves hold other slots), one that is kept, or one that is dropped.
#[derive(Debug, Clone, Copy, PartialEq, Eq, Structural)]
pub enum PartSlot {
    Split(Rect),
    Kept(Rect),
    Dropped(Rect),
}

/// The rectangle of a kept or dropped slot.
pub open spec fn part_rect(s: PartSlot) -> Rect {
    match s {
        PartSlot::Kept(r) => r,
        PartSlot::Dropped(r) => r,
        PartSlot::Split(r) => r,
    }
}

/// A kept or dropped slot.
pub open spec fn part_live(s: PartSlot) -> bool {
    !(s is Split)
}

/// The elements of each neighbour set.
pub open spec fn elems_of(sets: Seq<NeighbourSet>) -> Seq<Set<usize>> {
    Seq::new(sets.len(), |i: int| set_elems(sets[i]))
}

/// The partition graph is sound: live slots hold solid rectangles of
/// `region`; a slot's neighbours are other live slots, adjacency is
/// symmetric, and neighbours' rectangles are adjacent.
pub open spec fn partition_graph_ok(slots: Seq<PartSlot>, sets: Seq<Set<usize>>, region: Rect) -> bool {
    &&& slots.len() == sets.len()
    &&& forall|k: int| 0 <= k < slots.len() && part_live(#[trigger] slots[k]) ==> inside(part_rect(slots[k]), region) && solid(part_rect(slots[k]))
    &&& forall|k: int| 0 <= k < slots.len() && !part_live(#[trigger] slots[k]) ==> sets[k] == Set::<usize>::empty()
    &&& forall|k: int, x: usize| 0 <= k < slots.len() && #[trigger] sets[k].contains(x) ==> {
        &&& x < slots.len()
        &&& part_live(slots[k])
        &&& part_live(slots[x as int])
        &&& x != k
        &&& sets[x as int].contains(k as usize)
        &&& part_rect(slots[k]).spec_neighbour_dir(part_rect(slots[x as int])) is Some
    }
}

/// A neighbour set after the rectangle `idx` it held was cut into `a` and
/// `b`: `idx` goes, and each half comes in when adjacent.
pub open spec fn rewired(base: Set<usize>, idx: usize, a: usize, b: usize, adj_a: bool, adj_b: bool) -> Set<usize> {
    let s1 = base.remove(idx);
    let s2 = if adj_a { s1.insert(a) } else { s1 };
    if adj_b { s2.insert(b) } else { s2 }
}

/// The neighbours of a new half: the other half, and the old neighbours
/// of the cut rectangle whose rectangles are adjacent to it.
pub open spec fn half_neighbours(slots: Seq<PartSlot>, olds: Set<usize>, half: Rect, other: usize) -> Set<usize> {
    olds.filter(|n: usize| (n as int) < slots.len() && part_rect(slots[n as int]).spec_neighbour_dir(half) is Some).insert(other)
}

/// Cutting a kept rectangle into two adjacent halves and rewiring the
/// neighbour sets keeps the partition graph sound.
pub proof fn lemma_split_keeps_graph(
    slots0: Seq<PartSlot>,
    sets0: Seq<Set<usize>>,
    region: Rect,
    idx: int,
    ra: Rect,
    rb: Rect,
    slots1: Seq<PartSlot>,
    sets1: Seq<Set<usize>>,
)
    requires
        partition_graph_ok(slots0, sets0, region),
        region.well_placed(),
        0 <= idx < slots0.len(),
        slots0[idx] is Kept,
        inside(ra, region),
        inside(rb, region),
        solid(ra),
        solid(rb),
        ra.spec_neighbour_dir(rb) is Some,
        rb.spec_neighbour_dir(ra) is Some,
        slots1 == slots0.update(idx, PartSlot::Split(part_rect(slots0[idx]))).push(PartSlot::Kept(ra)).push(PartSlot::Kept(rb)),
        sets1.len() == slots1.len(),
        sets1[idx] == Set::<usize>::empty(),
        forall|k: int| 0 <= k < slots0.len() && k != idx ==> #[trigger] sets1[k] == (if sets0[idx].contains(k as usize) {
            rewired(sets0[k], idx as usize, slots0.len() as usize, (slots0.len() + 1) as usize,
                part_rect(slots0[k]).spec_neighbour_dir(ra) is Some, part_rect(slots0[k]).spec_neighbour_dir(rb) is Some)
        } else {
            sets0[k]
        }),
        sets1[slots0.len() as int] == half_neighbours(slots0, sets0[idx], ra, (slots0.len() + 1) as usize),
        sets1[(slots0.len() + 1) as int] == half_neighbours(slots0, sets0[idx], rb, slots0.len() as usize),
        slots0.len() + 2 <= usize::MAX,
    ensures
        partition_graph_ok(slots1, sets1, region),
{
    let len0 = slots0.len() as int;
    let a: int = len0;
    let b: int = len0 + 1;
    let s = sets0[idx];
    assert forall|k: int| 0 <= k < slots1.len() && part_live(#[trigger] slots1[k]) implies inside(part_rect(slots1[k]), region) && solid(part_rect(slots1[k])) by {
        if k < len0 {
            assert(slots1[k] == slots0[k]);
        }
    }
    assert forall|k: int| 0 <= k < slots1.len() && !part_live(#[trigger] slots1[k]) implies sets1[k] == Set::<usize>::empty() by {
        if k != idx {
            assert(k < len0);
            assert(slots1[k] == slots0[k]);
            assert(!sets0[idx].contains(k as usize)) by {
                if sets0[idx].contains(k as usize) {
                    assert(sets0[k as usize as int].contains(idx as usize));
                }
            }
        }
    }
    assert forall|k: int, x: usize| 0 <= k < slots1.len() && #[trigger] sets1[k].contains(x) implies {
        &&& x < slots1.len()
        &&& part_live(slots1[k])
        &&& part_live(slots1[x as int])
        &&& x != k
        &&& sets1[x as int].contains(k as usize)
        &&& part_rect(slots1[k]).spec_neighbour_dir(part_rect(slots1[x as int])) is Some
    } by {
        if k == a {
            assert(slots1[k] == PartSlot::Kept(ra));
            if x == b as usize {
                assert(sets1[b].contains(a as usize));
            } else {
                assert(s.contains(x));
                assert((x as int) < len0);
                assert(part_rect(slots0[x as int]).spec_neighbour_dir(ra) is Some);
                assert(sets0[x as int].contains(idx as usize));
                assert(x != idx) by {
                    if x == idx as usize {
                        assert(sets0[idx].contains(idx as usize));
                    }
                }
                assert(slots1[x as int] == slots0[x as int]);
                lemma_neighbour_dir_symmetric(part_rect(slots0[x as int]), ra);
                lemma_inside_well_placed(part_rect(slots0[x as int]), region);
                lemma_inside_well_placed(ra, region);
            }
        } else if k == b {
            assert(slots1[k] == PartSlot::Kept(rb));
            if x == a as usize {
                assert(sets1[a].contains(b as usize));
            } else {
                assert(s.contains(x));
                assert((x as int) < len0);
                assert(part_rect(slots0[x as int]).spec_neighbour_dir(rb) is Some);
                assert(sets0[x as int].contains(idx as usize));
                assert(x != idx) by {
                    if x == idx as usize {
                        assert(sets0[idx].contains(idx as usize));
                    }
                }
                assert(slots1[x as int] == slots0[x as int]);
                lemma_neighbour_dir_symmetric(part_rect(slots0[x as int]), rb);
                lemma_inside_well_placed(part_rect(slots0[x as int]), region);
                lemma_inside_well_placed(rb, region);
            }
        } else {
            assert(k < len0);
            assert(k != idx);
            assert(slots1[k] == slots0[k]);
            if s.contains(k as usize) {
                assert(sets0[k].contains(idx as usize));
                assert(part_live(slots0[k]));
                if x == a as usize {
                    assert(part_rect(slots0[k]).spec_neighbour_dir(ra) is Some);
                    assert(sets1[a] == half_neighbours(slots0, s, ra, b as usize));
                    assert(sets1[a].contains(k as usize));
                } else if x == b as usize {
                    assert(part_rect(slots0[k]).spec_neighbour_dir(rb) is Some);
                    assert(sets1[b].contains(k as usize));
                } else {
                    assert(sets0[k].contains(x));
                    assert(x != idx as usize);
                    assert((x as int) < len0);
                    assert(slots1[x as int] == slots0[x as int]);
                    assert(sets0[x as int].contains(k as usize));
                    if s.contains(x) {
                        assert(sets1[x as int] == rewired(sets0[x as int], idx as usize, a as usize, b as usize,
                            part_rect(slots0[x as int]).spec_neighbour_dir(ra) is Some, part_rect(slots0[x as int]).spec_neighbour_dir(rb) is Some));
                    } else {
                        assert(sets1[x as int] == sets0[x as int]);
                    }
                }
            } else {
                assert(sets1[k] == sets0[k]);
                assert(sets0[k].contains(x));
                assert((x as int) < len0);
                assert(x != idx as usize) by {
                    if x == idx as usize {
                        assert(sets0[idx].contains(k as usize));
                    }
                }
                assert(slots1[x as int] == slots0[x as int]);
                assert(sets0[x as int].contains(k as usize));
                if s.contains(x) {
                    assert(sets1[x as int] == rewired(sets0[x as int], idx as usize, a as usize, b as usize,
                        part_rect(slots0[x as int]).spec_neighbour_dir(ra) is Some, part_rect(slots0[x as int]).spec_neighbour_dir(rb) is Some));
                } else {
                    assert(sets1[x as int] == sets0[x as int]);
                }
            }
        }
    }
}

/// The chances and cutoffs a region is cut with.
#[derive(Debug, Clone, Copy)]
pub struct SplitParams {
    /// Rectangles of at most this area are not cut.
    pub min_area: u32,
    /// Rectangles of at most this area may survive uncut.
    pub max_area: u32,
    /// Height-to-width ratio, in hundredths, above which cuts are horizontal.
    pub height_cutoff: u32,
    /// Width-to-height ratio, in hundredths, above which cuts are vertical.
    pub width_cutoff: u32,
    /// Chance, in basis points, of a horizontal cut.
    pub horizontal_split_prob: u32,
    /// Chance, in basis points, that a rectangle of at most `max_area` survives uncut.
    pub big_rect_survival_prob: u32,
    /// Chance, in basis points, that a rectangle too small to cut is kept.
    pub rect_survival_prob: u32,
}

impl SplitParams {
    pub open spec fn wf(self) -> bool {
        &&& self.min_area >= 1
        &&& self.height_cutoff <= 100000
        &&& self.width_cutoff <= 100000
        &&& self.horizontal_split_prob <= CHANCE_SCALE
        &&& self.big_rect_survival_prob <= CHANCE_SCALE
        &&& self.rect_survival_prob <= CHANCE_SCALE
    }
}

/// Cuts a rectangle of at least two cells at a random place along a side
/// longer than one cell: the width if it is, else the height.
fn cut_long_side(rect: Rect) -> (r: (Rect, Rect))
    requires
        rect.well_placed(),
        solid(rect),
        rect.width >= 2 || rect.height >= 2,
    ensures
        exists|axis: SplitAxis, at: u32| !rect.split_is_invalid(axis, at) && #[trigger] rect.spec_split(axis, at) == r,
{
    let axis = if rect.width >= 2 { SplitAxis::Vertical } else { SplitAxis::Horizontal };
    let side = if rect.width >= 2 { rect.width } else { rect.height };
    let at = random_u32(1, side);
    match rect.try_split_at(axis, at) {
        Ok(halves) => halves,
        Err(_) => {
            assert(false);
            (rect, rect)
        },
    }
}

/// The columns `a1..b1` and `a2..b2` share a stretch of positive length.
pub open spec fn spans_overlap(a1: int, b1: int, a2: int, b2: int) -> bool {
    (if a1 >= a2 { a1 } else { a2 }) < (if b1 <= b2 { b1 } else { b2 })
}

/// What each of the four side checks of `spec_neighbour_dir` comes to for
/// two solid rectangles: the sides lie on one grid line and overlap.
proof fn lemma_side_checks(a: Rect, b: Rect)
    requires
        a.well_placed(),
        b.well_placed(),
        solid(a),
        solid(b),
    ensures
        edge_intersects(a.spec_edge(Direction::North), b.spec_edge(Direction::South)) <==> (a.origin.row == b.origin.row + b.height
            && spans_overlap(a.origin.col as int, a.origin.col + a.width, b.origin.col as int, b.origin.col + b.width)),
        edge_intersects(a.spec_edge(Direction::South), b.spec_edge(Direction::North)) <==> (a.origin.row + a.height == b.origin.row
            && spans_overlap(a.origin.col as int, a.origin.col + a.width, b.origin.col as int, b.origin.col + b.width)),
        edge_intersects(a.spec_edge(Direction::East), b.spec_edge(Direction::West)) <==> (a.origin.col + a.width == b.origin.col
            && spans_overlap(a.origin.row as int, a.origin.row + a.height, b.origin.row as int, b.origin.row + b.height)),
        edge_intersects(a.spec_edge(Direction::West), b.spec_edge(Direction::East)) <==> (a.origin.col == b.origin.col + b.width
            && spans_overlap(a.origin.row as int, a.origin.row + a.height, b.origin.row as int, b.origin.row + b.height)),
{
}

/// A rectangle that touches a part of another, without sharing a cell with
/// it, touches the whole.
proof fn lemma_touch_inside(a: Rect, inner: Rect, outer: Rect)
    requires
        a.well_placed(),
        inner.well_placed(),
        outer.well_placed(),
        solid(a),
        solid(inner),
        solid(outer),
        inside(inner, outer),
        apart(a, outer),
        a.spec_neighbour_dir(inner) is Some,
    ensures
        a.spec_neighbour_dir(outer) is Some,
{
    lemma_side_checks(a, inner);
    lemma_side_checks(a, outer);
}

/// Any two live slots whose rectangles are adjacent are in each other's
/// neighbour sets.
pub open spec fn partition_complete(slots: Seq<PartSlot>, sets: Seq<Set<usize>>) -> bool {
    forall|k: int, l: int| 0 <= k < slots.len() && 0 <= l < slots.len() && k != l && part_live(#[trigger] slots[k])
        && part_live(#[trigger] slots[l]) && part_rect(slots[k]).spec_neighbour_dir(part_rect(slots[l])) is Some
        ==> sets[k].contains(l as usize)
}

/// The area a slot adds to the partition: its rectangle's when live, else none.
pub open spec fn slot_area(s: PartSlot) -> int {
    if part_live(s) { part_rect(s).width * part_rect(s).height } else { 0 }
}

/// The total area of the live slots.
pub open spec fn live_area(slots: Seq<PartSlot>) -> int
    decreases slots.len(),
{
    if slots.len() == 0 {
        0
    } else {
        live_area(slots.drop_last()) + slot_area(slots.last())
    }
}

/// The rectangles of any two live slots have no cell in common.
pub open spec fn live_apart(slots: Seq<PartSlot>) -> bool {
    forall|k: int, l: int| 0 <= k < l < slots.len() && part_live(#[trigger] slots[k]) && part_live(#[trigger] slots[l])
        ==> apart(part_rect(slots[k]), part_rect(slots[l]))
}

/// A live slot is as small as the cutoffs leave it: of at most `min_area`
/// cells, or kept uncut at no more than `max_area` cells.
pub open spec fn settled(s: PartSlot, min_area: u32, max_area: u32) -> bool {
    part_live(s) ==> {
        ||| part_rect(s).width * part_rect(s).height <= min_area
        ||| (s is Kept && part_rect(s).width * part_rect(s).height <= max_area)
    }
}

proof fn lemma_live_area_push(slots: Seq<PartSlot>, x: PartSlot)
    ensures
        live_area(slots.push(x)) == live_area(slots) + slot_area(x),
{
    assert(slots.push(x).drop_last() =~= slots);
}

proof fn lemma_live_area_update(slots: Seq<PartSlot>, i: int, x: PartSlot)
    requires
        0 <= i < slots.len(),
    ensures
        live_area(slots.update(i, x)) == live_area(slots) - slot_area(slots[i]) + slot_area(x),
    decreases slots.len(),
{
    let u = slots.update(i, x);
    if i == slots.len() - 1 {
        assert(u.drop_last() =~= slots.drop_last());
    } else {
        lemma_live_area_update(slots.drop_last(), i, x);
        assert(u.drop_last() =~= slots.drop_last().update(i, x));
    }
}

/// A rectangle apart from another is apart from anything inside it.
proof fn lemma_apart_inside(x: Rect, inner: Rect, outer: Rect)
    requires
        apart(x, outer),
        inside(inner, outer),
    ensures
        apart(x, inner),
        apart(inner, x),
{
}

/// The two halves of a cut have no cell in common.
proof fn lemma_halves_apart(rect: Rect, axis: SplitAxis, at: u32)
    requires
        rect.well_placed(),
        !rect.split_is_invalid(axis, at),
    ensures
        apart(rect.spec_split(axis, at).0, rect.spec_split(axis, at).1),
{
}

/// `a` and `b` are the halves of a cut of `parent`; where the aspect
/// cutoffs force an axis along which `parent` is more than one cell long,
/// the cut is along that axis.
pub open spec fn cut_follows(parent: Rect, a: Rect, b: Rect, height_cutoff: u32, width_cutoff: u32) -> bool {
    exists|axis: SplitAxis, at: u32| {
        &&& !parent.split_is_invalid(axis, at)
        &&& #[trigger] parent.spec_split(axis, at) == (a, b)
        &&& (forced_axis(parent, height_cutoff, width_cutoff) matches Some(f) ==> (cut_side(parent, f) > 1 ==> axis == f))
    }
}

/// If slot `k` was cut, its halves are two consecutive later slots, and
/// the cut follows the cutoffs (`cut_follows`).
pub open spec fn split_well(slots: Seq<PartSlot>, k: int, height_cutoff: u32, width_cutoff: u32) -> bool {
    slots[k] is Split ==> exists|c: int, d: int| k < c && d == c + 1 && d < slots.len() && #[trigger] cut_follows(
        part_rect(slots[k]), part_rect(slots[c]), part_rect(slots[d]), height_cutoff, width_cutoff)
}

proof fn lemma_split_well_frame(s1: Seq<PartSlot>, s2: Seq<PartSlot>, k: int, hc: u32, wc: u32)
    requires
        0 <= k < s1.len(),
        split_well(s1, k, hc, wc),
        s2.len() >= s1.len(),
        s2[k] == s1[k],
        forall|j: int| 0 <= j < s1.len() ==> #[trigger] part_rect(s2[j]) == part_rect(s1[j]),
    ensures
        split_well(s2, k, hc, wc),
{
    if s2[k] is Split {
        let (c, d) = choose|c: int, d: int| k < c && d == c + 1 && d < s1.len() && #[trigger] cut_follows(
            part_rect(s1[k]), part_rect(s1[c]), part_rect(s1[d]), hc, wc);
        assert(part_rect(s2[c]) == part_rect(s1[c]) && part_rect(s2[d]) == part_rect(s1[d]));
        assert(cut_follows(part_rect(s2[k]), part_rect(s2[c]), part_rect(s2[d]), hc, wc));
    }
}

/// Works out the fate of kept slot `idx`. A rectangle larger than
/// `min_area` survives uncut with chance `big_rect_survival_prob` when no
/// larger than `max_area`; otherwise it is cut (by `split_rect`, chaotic; a
/// rectangle that cannot be cut along the chosen axis is cut along its
/// other side), its slot becomes `Split`, the halves take two new slots —
/// adjacent to each other and to those old neighbours whose rectangles
/// touch them — and the second half, then the first, are worked out alike.
/// A rectangle of at most `min_area` is kept with chance
/// `rect_survival_prob`, else dropped.
#[verifier::rlimit(60)]
#[verifier::spinoff_prover]
fn partition_slot(idx: usize, slots: &mut Vec<PartSlot>, sets: &mut Vec<NeighbourSet>, params: &SplitParams, region: Rect)
    requires
        partition_graph_ok(old(slots)@, elems_of(old(sets)@), region),
        region.well_placed(),
        region.width * region.height <= u32::MAX,
        params.wf(),
        idx < old(slots)@.len(),
        old(slots)@[idx as int] is Kept,
        old(slots)@.len() + 2 * (part_rect(old(slots)@[idx as int]).width * part_rect(old(slots)@[idx as int]).height) <= usize::MAX,
        live_apart(old(slots)@),
        partition_complete(old(slots)@, elems_of(old(sets)@)),
    ensures
        partition_graph_ok(final(slots)@, elems_of(final(sets)@), region),
        partition_complete(final(slots)@, elems_of(final(sets)@)),
        final(slots)@.len() >= old(slots)@.len(),
        final(slots)@.len() + 2 <= old(slots)@.len() + 2 * (part_rect(old(slots)@[idx as int]).width * part_rect(old(slots)@[idx as int]).height),
        forall|k: int| 0 <= k < old(slots)@.len() && k != idx ==> #[trigger] final(slots)@[k] == old(slots)@[k],
        live_apart(final(slots)@),
        live_area(final(slots)@) == live_area(old(slots)@),
        forall|k: int| (k == idx || old(slots)@.len() <= k < final(slots)@.len()) ==> settled(#[trigger] final(slots)@[k], params.min_area,
            params.max_area),
        forall|k: int| 0 <= k < old(slots)@.len() ==> #[trigger] part_rect(final(slots)@[k]) == part_rect(old(slots)@[k]),
        forall|k: int| (k == idx || old(slots)@.len() <= k < final(slots)@.len()) ==> split_well(final(slots)@, k, params.height_cutoff,
            params.width_cutoff),
        ({
            let r = part_rect(old(slots)@[idx as int]);
            r.width * r.height > params.min_area && r.width * r.height > params.max_area ==> final(slots)@[idx as int] is Split
                && final(slots)@.len() >= old(slots)@.len() + 2
        }),
    decreases part_rect(old(slots)@[idx as int]).width * part_rect(old(slots)@[idx as int]).height,
{
    let ghost slots0 = slots@;
    let ghost e0 = elems_of(sets@);
    let rect = match slots[idx] {
        PartSlot::Kept(r) => r,
        _ => {
            assert(false);
            return;
        },
    };
    proof {
        lemma_inside_area(rect, region);
        lemma_inside_well_placed(rect, region);
        assert(inside(rect, region) && solid(rect));
        assert(rect.width * rect.height >= 1) by (nonlinear_arith)
            requires
                rect.width >= 1,
                rect.height >= 1,
        ;
    }
    let area = rect.area();
    if area > params.min_area {
        if area <= params.max_area && chance(params.big_rect_survival_prob) {
            return;
        }
        let (ra, maybe_rb) = BinarySpacePartitioning::split_rect(rect, params.height_cutoff, params.width_cutoff, params.horizontal_split_prob, true);
        let ghost first = ra;
        let (ra, rb) = match maybe_rb {
            Some(rb) => (ra, rb),
            None => {
                assert(rect.width >= 2 || rect.height >= 2) by (nonlinear_arith)
                    requires
                        rect.width * rect.height > 1,
                ;
                cut_long_side(rect)
            },
        };
        let ghost (axis, at) = choose|axis: SplitAxis, at: u32| !rect.split_is_invalid(axis, at) && rect.spec_split(axis, at) == (ra, rb);
        proof {
            let (ax, a2) = choose|ax: SplitAxis, a2: u32|
                (forced_axis(rect, params.height_cutoff, params.width_cutoff) matches Some(f) ==> ax == f)
                && #[trigger] split_outcome(rect, ax, a2, true, (first, maybe_rb));
            if maybe_rb is Some {
                assert(!rect.split_is_invalid(ax, a2) && rect.spec_split(ax, a2) == (ra, rb));
            } else {
                assert(cut_side(rect, ax) <= 1);
                assert(rect.spec_split(axis, at) == (ra, rb));
            }
            assert(cut_follows(rect, ra, rb, params.height_cutoff, params.width_cutoff));
            lemma_split_halves(rect, axis, at);
            lemma_halves_adjacent(rect, axis, at);
            assert(inside(ra, region) && inside(rb, region));
            lemma_inside_well_placed(ra, region);
            lemma_inside_well_placed(rb, region);
        }
        let a_idx = slots.len();
        let b_idx = a_idx + 1;
        let mut old_set = set_new();
        std::mem::swap(&mut old_set, &mut sets[idx]);
        slots.set(idx, PartSlot::Split(rect));
        let ids = set_to_vec(&old_set);
        let ghost s0 = e0[idx as int];
        proof {
            assert(set_elems(old_set) == s0);
            assert forall|x: usize| #[trigger] s0.contains(x) implies (x as int) < slots0.len() && x != idx && part_live(slots0[x as int])
                && e0[x as int].contains(idx) by {
                assert(e0[idx as int].contains(x));
            }
        }
        let mut a_set = set_new();
        set_insert(&mut a_set, b_idx);
        let mut b_set = set_new();
        set_insert(&mut b_set, a_idx);
        let mut i: usize = 0;
        while i < ids.len()
            invariant
                0 <= i <= ids.len(),
                ids@.no_duplicates(),
                ids@.to_set() == s0,
                forall|x: usize| #[trigger] s0.contains(x) ==> (x as int) < slots0.len() && x != idx && part_live(slots0[x as int]),
                slots@ == slots0.update(idx as int, PartSlot::Split(rect)),
                slots0.len() == e0.len(),
                sets@.len() == slots0.len(),
                a_idx == slots0.len(),
                b_idx == a_idx + 1,
                idx < slots0.len(),
                set_elems(sets@[idx as int]) == Set::<usize>::empty(),
                forall|k: int| 0 <= k < slots0.len() && k != idx ==> #[trigger] set_elems(sets@[k]) == (
                    if ids@.take(i as int).contains(k as usize) {
                        rewired(e0[k], idx, a_idx, b_idx,
                            part_rect(slots0[k]).spec_neighbour_dir(ra) is Some, part_rect(slots0[k]).spec_neighbour_dir(rb) is Some)
                    } else {
                        e0[k]
                    }),
                set_elems(a_set) == half_neighbours(slots0, ids@.take(i as int).to_set(), ra, b_idx),
                set_elems(b_set) == half_neighbours(slots0, ids@.take(i as int).to_set(), rb, a_idx),
                partition_graph_ok(slots0, e0, region),
                region.well_placed(),
                ra.well_placed(),
                rb.well_placed(),
            decreases ids.len() - i,
        {
            let n = ids[i];
            proof {
                assert(ids@.to_set().contains(n));
                assert(ids@.take(i + 1) =~= ids@.take(i as int).push(n));
                ids@.take(i as int).lemma_push_to_set_commute(n);
                if ids@.take(i as int).contains(n) {
                    let j = choose|j: int| 0 <= j < i && ids@.take(i as int)[j] == n;
                    assert(ids@[j] == n);
                    assert(false);
                }
                assert(slots@[n as int] == slots0[n as int]);
            }
            let n_rect = match slots[n] {
                PartSlot::Kept(r) => r,
                PartSlot::Dropped(r) => r,
                PartSlot::Split(_) => {
                    assert(false);
                    rect
                },
            };
            proof {
                lemma_inside_well_placed(n_rect, region);
            }
            let ghost before_sets = sets@;
            let mut ns = set_new();
            std::mem::swap(&mut ns, &mut sets[n]);
            set_remove(&mut ns, idx);
            let adj_a = n_rect.is_neighbour_of(&ra).is_some();
            let adj_b = n_rect.is_neighbour_of(&rb).is_some();
            if adj_a {
                set_insert(&mut a_set, n);
                set_insert(&mut ns, a_idx);
            }
            if adj_b {
                set_insert(&mut b_set, n);
                set_insert(&mut ns, b_idx);
            }
            sets.set(n, ns);
            proof {
                assert forall|k: int| 0 <= k < slots0.len() && k != idx implies #[trigger] set_elems(sets@[k]) == (
                    if ids@.take(i + 1).contains(k as usize) {
                        rewired(e0[k], idx, a_idx, b_idx,
                            part_rect(slots0[k]).spec_neighbour_dir(ra) is Some, part_rect(slots0[k]).spec_neighbour_dir(rb) is Some)
                    } else {
                        e0[k]
                    }) by {
                    crate::seq_facts::lemma_push_contains(ids@.take(i as int), n, k as usize);
                    if k != n as int {
                        assert(sets@[k] == before_sets[k]);
                    }
                }
                assert(set_elems(a_set) =~= half_neighbours(slots0, ids@.take(i + 1).to_set(), ra, b_idx));
                assert(set_elems(b_set) =~= half_neighbours(slots0, ids@.take(i + 1).to_set(), rb, a_idx));
            }
            i = i + 1;
        }
        proof {
            assert(ids@.take(ids@.len() as int) =~= ids@);
        }
        slots.push(PartSlot::Kept(ra));
        slots.push(PartSlot::Kept(rb));
        sets.push(a_set);
        sets.push(b_set);
        proof {
            let slots1 = slots@;
            let sets1 = elems_of(sets@);
            assert(slots1 =~= slots0.update(idx as int, PartSlot::Split(rect)).push(PartSlot::Kept(ra)).push(PartSlot::Kept(rb)));
            assert forall|k: int| 0 <= k < slots0.len() && k != idx implies #[trigger] sets1[k] == (if e0[idx as int].contains(k as usize) {
                rewired(e0[k], idx, slots0.len() as usize, (slots0.len() + 1) as usize,
                    part_rect(slots0[k]).spec_neighbour_dir(ra) is Some, part_rect(slots0[k]).spec_neighbour_dir(rb) is Some)
            } else {
                e0[k]
            }) by {
                assert(ids@.to_set().contains(k as usize) == ids@.contains(k as usize));
            }
            lemma_split_keeps_graph(slots0, e0, region, idx as int, ra, rb, slots1, sets1);
            assert(part_rect(slots@[b_idx as int]) == rb);
            assert(part_rect(slots@[a_idx as int]) == ra);
            let u = slots0.update(idx as int, PartSlot::Split(rect));
            lemma_live_area_update(slots0, idx as int, PartSlot::Split(rect));
            lemma_live_area_push(u, PartSlot::Kept(ra));
            lemma_live_area_push(u.push(PartSlot::Kept(ra)), PartSlot::Kept(rb));
            assert(live_area(slots1) == live_area(slots0));
            lemma_halves_apart(rect, axis, at);
            let len0 = slots0.len() as int;
            assert(ids@.take(ids@.len() as int) =~= ids@);
            assert forall|k: int, l: int| 0 <= k < slots1.len() && 0 <= l < slots1.len() && k != l && part_live(#[trigger] slots1[k])
                && part_live(#[trigger] slots1[l]) && part_rect(slots1[k]).spec_neighbour_dir(part_rect(slots1[l])) is Some
                implies sets1[k].contains(l as usize) by {
                if k < len0 && l < len0 {
                    assert(slots1[k] == slots0[k] && slots1[l] == slots0[l]);
                    assert(k != idx && l != idx);
                    assert(e0[k].contains(l as usize));
                } else if k < len0 {
                    assert(slots1[k] == slots0[k]);
                    assert(k != idx);
                    let rk = part_rect(slots0[k]);
                    let half = if l == a_idx { ra } else { rb };
                    assert(part_rect(slots1[l]) == half);
                    lemma_inside_well_placed(rk, region);
                    if k < idx {
                        assert(apart(rk, rect));
                    } else {
                        assert(apart(rect, rk));
                    }
                    lemma_touch_inside(rk, half, rect);
                    assert(e0[k].contains(idx));
                    assert(e0[idx as int].contains(k as usize));
                } else if l < len0 {
                    assert(slots1[l] == slots0[l]);
                    assert(l != idx);
                    let rl = part_rect(slots0[l]);
                    let half = if k == a_idx { ra } else { rb };
                    assert(part_rect(slots1[k]) == half);
                    lemma_inside_well_placed(rl, region);
                    lemma_neighbour_dir_symmetric(half, rl);
                    if l < idx {
                        assert(apart(rl, rect));
                    } else {
                        assert(apart(rect, rl));
                    }
                    lemma_touch_inside(rl, half, rect);
                    assert(e0[l].contains(idx));
                    assert(e0[idx as int].contains(l as usize));
                    assert(ids@.to_set().contains(l as usize));
                    assert(sets1[k] == set_elems(sets@[k]));
                } else {
                    assert(sets1[k] == set_elems(sets@[k]));
                }
            }
            assert forall|k: int, l: int| 0 <= k < l < slots1.len() && part_live(#[trigger] slots1[k]) && part_live(#[trigger] slots1[l])
                implies apart(part_rect(slots1[k]), part_rect(slots1[l])) by {
                if l < slots0.len() {
                    assert(slots1[k] == slots0[k] && slots1[l] == slots0[l]);
                } else if k < slots0.len() {
                    assert(slots1[k] == slots0[k]);
                    assert(k != idx);
                    if k < idx {
                        assert(apart(part_rect(slots0[k]), rect));
                    } else {
                        assert(apart(rect, part_rect(slots0[k])));
                    }
                    if l == a_idx {
                        lemma_apart_inside(part_rect(slots0[k]), ra, rect);
                    } else {
                        lemma_apart_inside(part_rect(slots0[k]), rb, rect);
                    }
                }
            }
        }
        let ghost len1 = slots@.len();
        partition_slot(b_idx, slots, sets, params, region);
        let ghost len2 = slots@.len();
        proof {
            assert(slots@[a_idx as int] == PartSlot::Kept(ra));
            assert(len2 + 2 <= len1 + 2 * (rb.width * rb.height));
        }
        let ghost mid = slots@;
        partition_slot(a_idx, slots, sets, params, region);
        proof {
            let fin = slots@;
            assert(part_rect(fin[a_idx as int]) == ra);
            assert(part_rect(fin[b_idx as int]) == part_rect(mid[b_idx as int]));
            assert(fin[idx as int] == PartSlot::Split(rect));
            assert(cut_follows(part_rect(fin[idx as int]), part_rect(fin[a_idx as int]), part_rect(fin[b_idx as int]),
                params.height_cutoff, params.width_cutoff));
            assert(split_well(fin, idx as int, params.height_cutoff, params.width_cutoff));
            assert forall|k: int| slots0.len() <= k < fin.len() implies split_well(fin, k, params.height_cutoff, params.width_cutoff) by {
                if k != a_idx && k < len2 {
                    assert(split_well(mid, k, params.height_cutoff, params.width_cutoff));
                    assert(fin[k] == mid[k]);
                    lemma_split_well_frame(mid, fin, k, params.height_cutoff, params.width_cutoff);
                }
            }
            assert forall|k: int| 0 <= k < slots0.len() implies #[trigger] part_rect(fin[k]) == part_rect(slots0[k]) by {
                assert(part_rect(fin[k]) == part_rect(mid[k]));
            }
            assert(slots@.len() + 2 <= len2 + 2 * (ra.width * ra.height));
            assert(ra.width * ra.height + rb.width * rb.height == rect.width * rect.height);
            assert forall|k: int| (k == idx || slots0.len() <= k < slots@.len()) implies settled(#[trigger] slots@[k], params.min_area,
                params.max_area) by {
                if k == idx {
                    assert(slots@[k] == mid[k]);
                } else if k == b_idx {
                    assert(slots@[k] == mid[k]);
                } else if k > b_idx && k < len2 {
                    assert(slots@[k] == mid[k]);
                }
            }
        }
    } else if !chance(params.rect_survival_prob) {
        let ghost before = slots@;
        slots.set(idx, PartSlot::Dropped(rect));
        proof {
            assert forall|k: int| 0 <= k < slots@.len() implies part_live(#[trigger] slots@[k]) == part_live(before[k])
                && part_rect(slots@[k]) == part_rect(before[k]) by {
            }
            lemma_live_area_update(before, idx as int, PartSlot::Dropped(rect));
            assert(elems_of(sets@) == elems_of(old(sets)@));
            assert forall|k: int, l: int| 0 <= k < l < slots@.len() && part_live(#[trigger] slots@[k]) && part_live(#[trigger] slots@[l])
                implies apart(part_rect(slots@[k]), part_rect(slots@[l])) by {
                assert(part_live(before[k]) && part_live(before[l]));
            }
        }
    }
}

/// `v` pulled into `lo..=hi`.
pub open spec fn clamp_int(v: int, lo: int, hi: int) -> int {
    if v < lo { lo } else if v > hi { hi } else { v }
}

/// The cutoffs and chances a region with `modifier` is cut with, given the
/// random jitters a chaotic region draws (`jh`, `jw` in hundredths within
/// `-50..50`, `jp` in basis points within `-3000..3000`).
pub open spec fn region_params(config: BinarySpacePartitioningConfig, modifier: RectModifier, jh: int, jw: int, jp: int) -> SplitParams {
    let h = config.height_factor_cutoff as int;
    let w = config.width_factor_cutoff as int;
    let p = config.horizontal_split_prob as int;
    let (h2, w2, p2) = match modifier {
        RectModifier::Standard => (h, w, p),
        RectModifier::PreferHorizontal => (h - 100, w + 100, p + 3000),
        RectModifier::PreferVertical => (h + 100, w - 100, p - 3000),
        RectModifier::Chaotic => (h + jh, w + jw, p + jp),
    };
    SplitParams {
        min_area: config.rect_area_cutoff,
        max_area: config.big_rect_area_cutoff,
        height_cutoff: clamp_int(h2, 100, 500) as u32,
        width_cutoff: clamp_int(w2, 100, 500) as u32,
        horizontal_split_prob: clamp_int(p2, 1000, 9000) as u32,
        big_rect_survival_prob: config.big_rect_survival_prob,
        rect_survival_prob: config.rect_survival_prob,
    }
}

fn clamp_i64(v: i64, lo: i64, hi: i64) -> (r: i64)
    requires
        lo <= hi,
    ensures
        r == clamp_int(v as int, lo as int, hi as int),
{
    if v < lo { lo } else if v > hi { hi } else { v }
}

/// A region cut into rectangles: the slots by id and the neighbour set of each.
pub struct Partition {
    pub slots: Vec<PartSlot>,
    pub sets: Vec<NeighbourSet>,
}

/// How many of the ids in `s` are kept slots.
pub open spec fn kept_count(slots: Seq<PartSlot>, s: Set<usize>) -> nat {
    s.filter(|n: usize| (n as int) < slots.len() && slots[n as int] is Kept).len()
}

/// The ids of `s` that are kept slots, each once; their number is `kept_count`.
fn kept_neighbours(slots: &Vec<PartSlot>, s: &NeighbourSet) -> (v: Vec<usize>)
    ensures
        v@.no_duplicates(),
        v@.to_set() == set_elems(*s).filter(|n: usize| (n as int) < slots@.len() && slots@[n as int] is Kept),
        v@.len() == kept_count(slots@, set_elems(*s)),
{
    let ghost p = |n: usize| (n as int) < slots@.len() && slots@[n as int] is Kept;
    let ids = set_to_vec(s);
    let mut v: Vec<usize> = Vec::new();
    let mut i: usize = 0;
    while i < ids.len()
        invariant
            0 <= i <= ids.len(),
            ids@.no_duplicates(),
            ids@.to_set() == set_elems(*s),
            p == (|n: usize| (n as int) < slots@.len() && slots@[n as int] is Kept),
            v@.no_duplicates(),
            forall|x: usize| #[trigger] v@.contains(x) <==> (ids@.take(i as int).contains(x) && p(x)),
        decreases ids.len() - i,
    {
        let n = ids[i];
        proof {
            assert(ids@.take(i + 1) =~= ids@.take(i as int).push(n));
            assert forall|x: usize| #[trigger] ids@.take(i + 1).contains(x) <==> (ids@.take(i as int).contains(x) || x == n) by {
                crate::seq_facts::lemma_push_contains(ids@.take(i as int), n, x);
            }
            if ids@.take(i as int).contains(n) {
                let j = choose|j: int| 0 <= j < i && ids@.take(i as int)[j] == n;
                assert(ids@[j] == n);
                assert(false);
            }
        }
        let keep = n < slots.len() && matches!(slots[n], PartSlot::Kept(_));
        if keep {
            let ghost before = v@;
            v.push(n);
            proof {
                crate::seq_facts::lemma_push_no_duplicates(before, n);
                assert forall|x: usize| #[trigger] v@.contains(x) <==> (before.contains(x) || x == n) by {
                    crate::seq_facts::lemma_push_contains(before, n, x);
                }
            }
        }
        i = i + 1;
    }
    proof {
        assert(ids@.take(ids@.len() as int) =~= ids@);
        assert(v@.to_set() =~= set_elems(*s).filter(p)) by {
            assert forall|x: usize| v@.to_set().contains(x) <==> set_elems(*s).filter(p).contains(x) by {
                assert(ids@.to_set().contains(x) == ids@.contains(x));
            }
        }
        v@.unique_seq_to_set();
    }
    v
}

/// The partition graph stays sound when kept slots become dropped ones.
proof fn lemma_drop_keeps_graph(slots0: Seq<PartSlot>, slots1: Seq<PartSlot>, sets: Seq<Set<usize>>, region: Rect)
    requires
        partition_graph_ok(slots0, sets, region),
        slots1.len() == slots0.len(),
        forall|k: int| 0 <= k < slots0.len() ==> part_live(#[trigger] slots1[k]) == part_live(slots0[k])
            && part_rect(slots1[k]) == part_rect(slots0[k]),
    ensures
        partition_graph_ok(slots1, sets, region),
{
    assert forall|k: int, x: usize| 0 <= k < slots1.len() && #[trigger] sets[k].contains(x) implies
        part_live(slots1[x as int]) && part_rect(slots1[x as int]) == part_rect(slots0[x as int]) by {
        assert(x < slots0.len());
    }
}

/// `(slots, sets)` is a possible outcome of `generate_partitions` on
/// `region`: a sound and complete partition graph whose live rectangles
/// tile the region, each as small as the area cutoffs leave it, the region
/// cut whenever it is larger than both cutoffs, and every cut along the axis
/// that the region's cutoffs (jittered when it is chaotic) force.
pub open spec fn partition_of(region: RectRegion, config: BinarySpacePartitioningConfig, slots: Seq<PartSlot>, sets: Seq<Set<usize>>) -> bool {
    &&& partition_graph_ok(slots, sets, region.rect)
    &&& partition_complete(slots, sets)
    &&& slots.len() >= 1
    &&& live_apart(slots)
    &&& live_area(slots) == region.rect.width * region.rect.height
    &&& forall|k: int| 0 <= k < slots.len() ==> settled(#[trigger] slots[k], config.rect_area_cutoff, config.big_rect_area_cutoff)
    &&& region.rect.width * region.rect.height > config.rect_area_cutoff && region.rect.width * region.rect.height
        > config.big_rect_area_cutoff ==> slots[0] is Split && slots.len() >= 3
    &&& exists|jh: int, jw: int, jp: int| -50 <= jh < 50 && -50 <= jw < 50 && -3000 <= jp < 3000
        && #[trigger] region_params(config, region.modifier, jh, jw, jp).wf()
        && (region.modifier != RectModifier::Chaotic ==> jh == 0 && jw == 0 && jp == 0)
        && forall|k: int| 0 <= k < slots.len() ==> split_well(slots, k, region_params(config, region.modifier, jh, jw, jp).height_cutoff,
            region_params(config, region.modifier, jh, jw, jp).width_cutoff)
}

/// `slots1` is a possible outcome of `trim_connected_rects` on `slots0`
/// with neighbour sets `sets`.
pub open spec fn connected_trim(slots0: Seq<PartSlot>, sets: Seq<Set<usize>>, slots1: Seq<PartSlot>) -> bool {
    &&& slots1.len() == slots0.len()
    &&& forall|k: int| 0 <= k < slots0.len() ==> {
        let before = slots0[k];
        let c = kept_count(slots0, sets[k]);
        let after = #[trigger] slots1[k];
        &&& !(before is Kept) ==> after == before
        &&& before is Kept ==> (after == before || after == PartSlot::Dropped(part_rect(before)))
        &&& before is Kept && c == 0 ==> after == PartSlot::Dropped(part_rect(before))
        &&& before is Kept && 1 <= c < 5 ==> after == before
    }
}

/// `slots1` is `trim_orphaned_rects` on `slots0` with neighbour sets `sets`.
pub open spec fn orphan_trim(slots0: Seq<PartSlot>, sets: Seq<Set<usize>>, slots1: Seq<PartSlot>) -> bool {
    &&& slots1.len() == slots0.len()
    &&& forall|k: int| 0 <= k < slots0.len() ==> #[trigger] slots1[k] == (if slots0[k] is Kept && kept_count(slots0, sets[k]) == 0 {
        PartSlot::Dropped(part_rect(slots0[k]))
    } else {
        slots0[k]
    })
}

/// `regions` is a possible outcome of `generate_regions` on `initial_rect`:
/// solid regions inside it that share no cell and whose areas add up to its
/// area, each with the modifier of a roll of `1..=100`.
pub open spec fn regions_of(initial_rect: Rect, config: BinarySpacePartitioningConfig, regions: Seq<RectRegion>) -> bool {
    &&& total_area(regions.map_values(|r: RectRegion| r.rect)) == initial_rect.width * initial_rect.height
    &&& all_apart(regions.map_values(|r: RectRegion| r.rect), 0)
    &&& forall|i: int| 0 <= i < regions.len() ==> inside(#[trigger] regions[i].rect, initial_rect) && solid(regions[i].rect)
    &&& forall|i: int| 0 <= i < regions.len() ==> exists|roll: u32| 1 <= roll <= 100
        && #[trigger] regions[i].modifier == modifier_for_roll(roll, horizontal_bound(config.horizontal_region_prob))
}

/// A part of the grid as its views: its rectangle and its tables of kept
/// rectangles, removed rectangles and neighbour sets.
pub open spec fn part_tables(p: (Rect, RectTable, RectTable, NeighbourTable)) -> (Rect, Map<usize, Rect>, Map<usize, Rect>, Map<usize, NeighbourSet>) {
    (p.0, p.1@, p.2@, p.3@)
}

/// The tables `into_tables` makes of the slots `slots` and neighbour sets
/// `sets`: the kept rectangles, the dropped ones, and the sets of both.
pub open spec fn tables_from(slots: Seq<PartSlot>, sets: Seq<Set<usize>>, rects: Map<usize, Rect>, removed: Map<usize, Rect>,
    neighbours: Map<usize, NeighbourSet>) -> bool {
    &&& forall|k: usize| #[trigger] rects.dom().contains(k) <==> ((k as int) < slots.len() && slots[k as int] is Kept)
    &&& forall|k: usize| #[trigger] removed.dom().contains(k) <==> ((k as int) < slots.len() && slots[k as int] is Dropped)
    &&& forall|k: usize| #[trigger] rects.dom().contains(k) ==> rects[k] == part_rect(slots[k as int])
    &&& forall|k: usize| #[trigger] removed.dom().contains(k) ==> removed[k] == part_rect(slots[k as int])
    &&& forall|k: usize| #[trigger] neighbours.dom().contains(k) <==> ((k as int) < slots.len() && part_live(slots[k as int]))
    &&& forall|k: usize| #[trigger] neighbours.dom().contains(k) ==> set_elems(neighbours[k]) == sets[k as int]
}

/// A region cut (`partition_of`), then trimmed twice (`connected_trim`,
/// `orphan_trim`).
pub open spec fn part_chain(region: RectRegion, config: BinarySpacePartitioningConfig, slots0: Seq<PartSlot>, sets: Seq<Set<usize>>,
    slots1: Seq<PartSlot>, slots2: Seq<PartSlot>) -> bool {
    &&& partition_of(region, config, slots0, sets)
    &&& connected_trim(slots0, sets, slots1)
    &&& orphan_trim(slots1, sets, slots2)
}

/// `part` is a possible outcome of cutting and trimming `region`: its
/// rectangle and the tables of the trimmed slots.
pub open spec fn part_of_region(region: RectRegion, config: BinarySpacePartitioningConfig,
    part: (Rect, Map<usize, Rect>, Map<usize, Rect>, Map<usize, NeighbourSet>)) -> bool {
    exists|slots0: Seq<PartSlot>, sets: Seq<Set<usize>>, slots1: Seq<PartSlot>, slots2: Seq<PartSlot>|
        #[trigger] part_chain(region, config, slots0, sets, slots1, slots2) && part.0 == region.rect
            && tables_from(slots2, sets, part.1, part.2, part.3)
}

/// Cutting and trimming `region` can leave it without a kept rectangle.
pub open spec fn region_left_out(region: RectRegion, config: BinarySpacePartitioningConfig) -> bool {
    exists|slots0: Seq<PartSlot>, sets: Seq<Set<usize>>, slots1: Seq<PartSlot>, slots2: Seq<PartSlot>|
        #[trigger] part_chain(region, config, slots0, sets, slots1, slots2) && forall|k: int| 0 <= k < slots2.len() ==> !(#[trigger] slots2[k] is Kept)
}

/// How the parts `ps` come from a `width` by `height` grid: the grid is cut
/// into `regions` (`regions_of`); the parts are the regions of `src`, in
/// order, each cut and trimmed (`part_of_region`); every other region was
/// left without a kept rectangle (`region_left_out`).
pub open spec fn trim_plan(width: u32, height: u32, config: BinarySpacePartitioningConfig,
    ps: Seq<(Rect, Map<usize, Rect>, Map<usize, Rect>, Map<usize, NeighbourSet>)>, regions: Seq<RectRegion>, src: Seq<int>) -> bool {
    &&& regions_of(Rect { origin: crate::types::Cell { col: 0, row: 0 }, width, height }, config, regions)
    &&& src.len() == ps.len()
    &&& forall|k: int| 0 <= k < src.len() ==> 0 <= #[trigger] src[k] < regions.len()
    &&& forall|k1: int, k2: int| 0 <= k1 < k2 < src.len() ==> #[trigger] src[k1] < #[trigger] src[k2]
    &&& forall|k: int| 0 <= k < src.len() ==> part_of_region(regions[#[trigger] src[k]], config, ps[k])
    &&& forall|i: int| 0 <= i < regions.len() && !src.contains(i) ==> region_left_out(#[trigger] regions[i], config)
}

/// `ps` is a possible outcome of `generate_and_trim_partitions` (see
/// `trim_plan`).
pub open spec fn trimmed_from(width: u32, height: u32, config: BinarySpacePartitioningConfig,
    ps: Seq<(Rect, Map<usize, Rect>, Map<usize, Rect>, Map<usize, NeighbourSet>)>) -> bool {
    exists|regions: Seq<RectRegion>, src: Seq<int>| #[trigger] trim_plan(width, height, config, ps, regions, src)
}

/// Rectangles by id.
pub type RectTable = HashMap<usize, Rect>;

/// Neighbour sets by id.
pub type NeighbourTable = HashMap<usize, NeighbourSet>;

/// The rectangle of id `k`, kept or removed.
pub open spec fn table_rect(rects: Map<usize, Rect>, removed: Map<usize, Rect>, k: usize) -> Rect {
    if rects.dom().contains(k) { rects[k] } else { removed[k] }
}

/// The rectangles of any two ids of the tables, kept or removed, have no
/// cell in common.
pub open spec fn tables_apart(rects: Map<usize, Rect>, removed: Map<usize, Rect>) -> bool {
    forall|k1: usize, k2: usize| k1 != k2 && (rects.dom().contains(k1) || removed.dom().contains(k1)) && (rects.dom().contains(k2)
        || removed.dom().contains(k2)) ==> apart(#[trigger] table_rect(rects, removed, k1), #[trigger] table_rect(rects, removed, k2))
}

/// Turning kept slots into dropped ones keeps live rectangles apart.
proof fn lemma_drop_keeps_apart(slots0: Seq<PartSlot>, slots1: Seq<PartSlot>)
    requires
        live_apart(slots0),
        slots1.len() == slots0.len(),
        forall|k: int| 0 <= k < slots0.len() ==> part_live(#[trigger] slots1[k]) == part_live(slots0[k])
            && part_rect(slots1[k]) == part_rect(slots0[k]),
    ensures
        live_apart(slots1),
{
    assert forall|k: int, l: int| 0 <= k < l < slots1.len() && part_live(#[trigger] slots1[k]) && part_live(#[trigger] slots1[l])
        implies apart(part_rect(slots1[k]), part_rect(slots1[l])) by {
        assert(part_live(slots0[k]) && part_live(slots0[l]));
    }
}

/// The tables of a cut region are sound: no id is both kept and removed;
/// exactly the kept and removed ids have neighbour sets; their rectangles
/// are solid and lie in `region`; neighbours are other such ids, adjacency
/// is symmetric, and neighbours' rectangles are adjacent.
pub open spec fn partition_tables_ok(rects: Map<usize, Rect>, removed: Map<usize, Rect>, neighbours: Map<usize, NeighbourSet>, region: Rect) -> bool {
    &&& forall|k: usize| #[trigger] rects.dom().contains(k) ==> !removed.dom().contains(k)
    &&& forall|k: usize| #[trigger] neighbours.dom().contains(k) <==> (rects.dom().contains(k) || removed.dom().contains(k))
    &&& forall|k: usize| #[trigger] neighbours.dom().contains(k) ==> inside(table_rect(rects, removed, k), region)
        && solid(table_rect(rects, removed, k)) && k < usize::MAX
    &&& forall|k: usize, x: usize| neighbours.dom().contains(k) && #[trigger] set_elems(neighbours[k]).contains(x) ==> {
        &&& neighbours.dom().contains(x)
        &&& x != k
        &&& set_elems(neighbours[x]).contains(k)
        &&& table_rect(rects, removed, k).spec_neighbour_dir(table_rect(rects, removed, x)) is Some
    }
}

pub struct BinarySpacePartitioning;

impl BinarySpacePartitioning {
    /// Cuts `rect` in two. The axis is horizontal when height / width exceeds
    /// `height_cutoff` hundredths, else vertical when width / height exceeds
    /// `width_cutoff` hundredths, else horizontal with chance
    /// `horizontal_split_prob` basis points. A side of more than six cells is
    /// cut in the middle unless `chaotic`; otherwise the cut falls at random.
    /// A side of one cell is not cut: the rectangle comes back whole.
    /// Cuts `initial_rect` into regions (see `split_into_regions`) and gives
    /// each a modifier from a roll of `1..=100`.
    pub fn generate_regions(initial_rect: Rect, config: &BinarySpacePartitioningConfig) -> (regions: Vec<RectRegion>)
        requires
            initial_rect.well_placed(),
            solid(initial_rect),
            initial_rect.width * initial_rect.height <= u32::MAX,
            config.wf(),
        ensures
            regions_of(initial_rect, *config, regions@),
    {
        let mut rects: Vec<Rect> = Vec::new();
        split_into_regions(initial_rect, config.region_split_factor, &mut rects);
        proof {
            assert(rects@.take(0) =~= Seq::<Rect>::empty());
        }
        let hb: u32 = (85u64 * config.horizontal_region_prob as u64 / CHANCE_SCALE as u64) as u32;
        let mut regions: Vec<RectRegion> = Vec::new();
        let mut i: usize = 0;
        while i < rects.len()
            invariant
                0 <= i <= rects.len(),
                hb == horizontal_bound(config.horizontal_region_prob),
                regions@.len() == i,
                forall|k: int| 0 <= k < i ==> (#[trigger] regions@[k]).rect == rects@[k],
                forall|k: int| 0 <= k < i ==> exists|roll: u32| 1 <= roll <= 100
                    && #[trigger] regions@[k].modifier == modifier_for_roll(roll, hb),
            decreases rects.len() - i,
        {
            let roll = random_u32(1, 101);
            let modifier = if roll < 10 {
                RectModifier::Standard
            } else if roll < hb {
                RectModifier::PreferHorizontal
            } else if roll < 85 {
                RectModifier::PreferVertical
            } else {
                RectModifier::Chaotic
            };
            regions.push(RectRegion { rect: rects[i], modifier });
            proof {
                assert(regions@[i as int].modifier == modifier_for_roll(roll, hb));
            }
            i = i + 1;
        }
        proof {
            assert(regions@.map_values(|r: RectRegion| r.rect) =~= rects@);
            assert forall|k: int| 0 <= k < regions@.len() implies exists|roll: u32| 1 <= roll <= 100
                && #[trigger] regions@[k].modifier == modifier_for_roll(roll, horizontal_bound(config.horizontal_region_prob)) by {
                let roll = choose|roll: u32| 1 <= roll <= 100 && #[trigger] regions@[k].modifier == modifier_for_roll(roll, hb);
                assert(regions@[k].modifier == modifier_for_roll(roll, horizontal_bound(config.horizontal_region_prob)));
            }
        }
        regions
    }

    /// Cuts a region into rectangles (see `partition_slot`), with cutoffs and
    /// chances set by its modifier: preferring horizontal cuts lowers the
    /// height cutoff and raises the width cutoff by one, and raises the chance
    /// of a horizontal cut by 3000 basis points; preferring vertical cuts does
    /// the opposite; a chaotic region jitters each at random; the cutoffs are
    /// then held within 1 to 5 and the chance within 1000 to 9000.
    /// The live rectangles (kept or dropped) tile the region: no two share a
    /// cell, their areas add up to the region's, any two that are adjacent
    /// are each other's neighbours, and each is as small as the area cutoffs
    /// leave it; a region larger than both cutoffs is always cut. Each cut
    /// rectangle keeps its slot, its halves take two later slots side by
    /// side, and the cut runs along the axis the aspect cutoffs force,
    /// wherever the rectangle is more than one cell long that way.
    #[verifier::spinoff_prover]
    pub fn generate_partitions(region: RectRegion, config: &BinarySpacePartitioningConfig) -> (p: Partition)
        requires
            config.wf(),
            region.rect.well_placed(),
            solid(region.rect),
            region.rect.width * region.rect.height <= u32::MAX,
            1 + 2 * (region.rect.width * region.rect.height) <= usize::MAX,
        ensures
            partition_of(region, *config, p.slots@, elems_of(p.sets@)),
    {
        let (jh, jw, jp): (i32, i32, i32) = match region.modifier {
            RectModifier::Chaotic => (random_i32(-50, 50), random_i32(-50, 50), random_i32(-3000, 3000)),
            _ => (0, 0, 0),
        };
        let h = config.height_factor_cutoff as i64;
        let w = config.width_factor_cutoff as i64;
        let pr = config.horizontal_split_prob as i64;
        let (h2, w2, p2): (i64, i64, i64) = match region.modifier {
            RectModifier::Standard => (h, w, pr),
            RectModifier::PreferHorizontal => (h - 100, w + 100, pr + 3000),
            RectModifier::PreferVertical => (h + 100, w - 100, pr - 3000),
            RectModifier::Chaotic => (h + jh as i64, w + jw as i64, pr + jp as i64),
        };
        let params = SplitParams {
            min_area: config.rect_area_cutoff,
            max_area: config.big_rect_area_cutoff,
            height_cutoff: clamp_i64(h2, 100, 500) as u32,
            width_cutoff: clamp_i64(w2, 100, 500) as u32,
            horizontal_split_prob: clamp_i64(p2, 1000, 9000) as u32,
            big_rect_survival_prob: config.big_rect_survival_prob,
            rect_survival_prob: config.rect_survival_prob,
        };
        proof {
            assert(params == region_params(*config, region.modifier, jh as int, jw as int, jp as int));
        }
        let mut slots: Vec<PartSlot> = Vec::new();
        slots.push(PartSlot::Kept(region.rect));
        let mut sets: Vec<NeighbourSet> = Vec::new();
        sets.push(set_new());
        proof {
            assert(inside(region.rect, region.rect));
            assert(partition_graph_ok(slots@, elems_of(sets@), region.rect));
            assert(slots@.drop_last() =~= Seq::<PartSlot>::empty());
            assert(live_area(Seq::<PartSlot>::empty()) == 0);
            assert(slots@.last() == PartSlot::Kept(region.rect));
            assert(slot_area(slots@.last()) == region.rect.width * region.rect.height);
            assert(live_area(slots@) == region.rect.width * region.rect.height);
        }
        partition_slot(0, &mut slots, &mut sets, &params, region.rect);
        proof {
            assert(region_params(*config, region.modifier, jh as int, jw as int, jp as int).wf());
            assert forall|k: int| 0 <= k < slots@.len() implies split_well(slots@, k, params.height_cutoff, params.width_cutoff) by {
                if k != 0 {
                    assert(1 <= k);
                }
            }
        }
        Partition { slots, sets }
    }

    /// Drops, among the kept rectangles, those with no kept neighbour, and
    /// with the given chances those with eight kept neighbours or more or
    /// with five to seven; the counts are taken before anything is dropped.
    pub fn trim_connected_rects(partition: &mut Partition, config: &BinarySpacePartitioningConfig)
        requires
            config.wf(),
            old(partition).slots@.len() == old(partition).sets@.len(),
        ensures
            final(partition).sets@ == old(partition).sets@,
            connected_trim(old(partition).slots@, elems_of(old(partition).sets@), final(partition).slots@),
    {
        let ghost slots0 = partition.slots@;
        let ghost sets0 = partition.sets@;
        let mut drop: Vec<bool> = Vec::new();
        let mut i: usize = 0;
        while i < partition.slots.len()
            invariant
                0 <= i <= partition.slots.len(),
                partition.slots@ == slots0,
                partition.sets@ == sets0,
                partition.slots@.len() == partition.sets@.len(),
                config.wf(),
                drop@.len() == i,
                forall|k: int| 0 <= k < i ==> {
                    let c = kept_count(slots0, set_elems(partition.sets@[k]));
                    &&& #[trigger] drop@[k] ==> slots0[k] is Kept
                    &&& slots0[k] is Kept && c == 0 ==> drop@[k]
                    &&& slots0[k] is Kept && 1 <= c < 5 ==> !drop@[k]
                },
            decreases partition.slots.len() - i,
        {
            let should = match partition.slots[i] {
                PartSlot::Kept(_) => {
                    let count = kept_neighbours(&partition.slots, &partition.sets[i]).len();
                    if count >= 8 {
                        chance(config.trim_fully_connected_rect_prob)
                    } else if count >= 5 {
                        chance(config.trim_highly_connected_rect_prob)
                    } else {
                        count == 0
                    }
                },
                _ => false,
            };
            drop.push(should);
            i = i + 1;
        }
        let mut i: usize = 0;
        while i < partition.slots.len()
            invariant
                0 <= i <= partition.slots.len(),
                partition.slots@.len() == slots0.len(),
                partition.sets@ == sets0,
                drop@.len() == slots0.len(),
                forall|k: int| 0 <= k < slots0.len() ==> #[trigger] drop@[k] ==> slots0[k] is Kept,
                forall|k: int| 0 <= k < slots0.len() ==> #[trigger] partition.slots@[k] == (
                    if k < i && drop@[k] { PartSlot::Dropped(part_rect(slots0[k])) } else { slots0[k] }),
            decreases partition.slots.len() - i,
        {
            if drop[i] {
                let rect = match partition.slots[i] {
                    PartSlot::Kept(r) => r,
                    _ => {
                        assert(false);
                        return;
                    },
                };
                partition.slots.set(i, PartSlot::Dropped(rect));
            }
            i = i + 1;
        }
    }

    /// Drops the kept rectangles that have no kept neighbour.
    pub fn trim_orphaned_rects(partition: &mut Partition)
        requires
            old(partition).slots@.len() == old(partition).sets@.len(),
        ensures
            final(partition).sets@ == old(partition).sets@,
            orphan_trim(old(partition).slots@, elems_of(old(partition).sets@), final(partition).slots@),
    {
        let ghost slots0 = partition.slots@;
        let ghost sets0 = partition.sets@;
        let mut drop: Vec<bool> = Vec::new();
        let mut i: usize = 0;
        while i < partition.slots.len()
            invariant
                0 <= i <= partition.slots.len(),
                partition.slots@ == slots0,
                partition.sets@ == sets0,
                partition.slots@.len() == partition.sets@.len(),
                drop@.len() == i,
                forall|k: int| 0 <= k < i ==> #[trigger] drop@[k] == (slots0[k] is Kept
                    && kept_count(slots0, set_elems(partition.sets@[k])) == 0),
            decreases partition.slots.len() - i,
        {
            let should = match partition.slots[i] {
                PartSlot::Kept(_) => kept_neighbours(&partition.slots, &partition.sets[i]).len() == 0,
                _ => false,
            };
            drop.push(should);
            i = i + 1;
        }
        let mut i: usize = 0;
        while i < partition.slots.len()
            invariant
                0 <= i <= partition.slots.len(),
                partition.slots@.len() == slots0.len(),
                partition.sets@ == sets0,
                drop@.len() == slots0.len(),
                forall|k: int| 0 <= k < slots0.len() ==> #[trigger] drop@[k] ==> slots0[k] is Kept,
                forall|k: int| 0 <= k < slots0.len() ==> #[trigger] partition.slots@[k] == (
                    if k < i && drop@[k] { PartSlot::Dropped(part_rect(slots0[k])) } else { slots0[k] }),
            decreases partition.slots.len() - i,
        {
            if drop[i] {
                let rect = match partition.slots[i] {
                    PartSlot::Kept(r) => r,
                    _ => {
                        assert(false);
                        return;
                    },
                };
                partition.slots.set(i, PartSlot::Dropped(rect));
            }
            i = i + 1;
        }
    }

    /// The tables of a cut region: kept rectangles, dropped ones, and the
    /// neighbour sets of both, all by id.
    pub fn into_tables(partition: Partition, region: Rect) -> (t: (RectTable, RectTable, NeighbourTable))
        requires
            partition_graph_ok(partition.slots@, elems_of(partition.sets@), region),
        ensures
            partition_tables_ok(t.0@, t.1@, t.2@, region),
            forall|k: usize| #[trigger] t.0@.dom().contains(k) <==> ((k as int) < partition.slots@.len() && partition.slots@[k as int] is Kept),
            forall|k: usize| #[trigger] t.1@.dom().contains(k) <==> ((k as int) < partition.slots@.len() && partition.slots@[k as int] is Dropped),
            live_apart(partition.slots@) ==> tables_apart(t.0@, t.1@),
            forall|k: usize| #[trigger] t.0@.dom().contains(k) ==> t.0@[k] == part_rect(partition.slots@[k as int]),
            forall|k: usize| #[trigger] t.1@.dom().contains(k) ==> t.1@[k] == part_rect(partition.slots@[k as int]),
            forall|k: usize| #[trigger] t.2@.dom().contains(k) <==> ((k as int) < partition.slots@.len() && part_live(partition.slots@[k as int])),
            forall|k: usize| #[trigger] t.2@.dom().contains(k) ==> set_elems(t.2@[k]) == elems_of(partition.sets@)[k as int],
    {
        let ghost slots0 = partition.slots@;
        let ghost e0 = elems_of(partition.sets@);
        let slots = partition.slots;
        let mut sets = partition.sets;
        let mut rects: RectTable = HashMap::new();
        let mut removed: RectTable = HashMap::new();
        let mut neighbours: NeighbourTable = HashMap::new();
        let mut i: usize = 0;
        while i < slots.len()
            invariant
                0 <= i <= slots.len(),
                slots@ == slots0,
                sets@.len() == slots0.len(),
                slots0.len() == e0.len(),
                forall|k: int| i <= k < slots0.len() ==> set_elems(#[trigger] sets@[k]) == e0[k],
                forall|k: usize| #[trigger] rects@.dom().contains(k) <==> ((k as int) < i && slots0[k as int] is Kept),
                forall|k: usize| #[trigger] removed@.dom().contains(k) <==> ((k as int) < i && slots0[k as int] is Dropped),
                forall|k: usize| #[trigger] neighbours@.dom().contains(k) <==> ((k as int) < i && part_live(slots0[k as int])),
                forall|k: usize| #[trigger] rects@.dom().contains(k) ==> rects@[k] == part_rect(slots0[k as int]),
                forall|k: usize| #[trigger] removed@.dom().contains(k) ==> removed@[k] == part_rect(slots0[k as int]),
                forall|k: usize| #[trigger] neighbours@.dom().contains(k) ==> set_elems(neighbours@[k]) == e0[k as int],
            decreases slots.len() - i,
        {
            let mut set = set_new();
            std::mem::swap(&mut set, &mut sets[i]);
            match slots[i] {
                PartSlot::Kept(r) => {
                    rects.insert(i, r);
                    neighbours.insert(i, set);
                },
                PartSlot::Dropped(r) => {
                    removed.insert(i, r);
                    neighbours.insert(i, set);
                },
                PartSlot::Split(_) => {},
            }
            proof {
                assert forall|k: int| i + 1 <= k < slots0.len() implies set_elems(#[trigger] sets@[k]) == e0[k] by {
                }
            }
            i = i + 1;
        }
        proof {
            assert forall|k: usize| #[trigger] neighbours@.dom().contains(k) implies inside(table_rect(rects@, removed@, k), region)
                && solid(table_rect(rects@, removed@, k)) && k < usize::MAX by {
                assert((k as int) < slots0.len() && part_live(slots0[k as int]));
                if rects@.dom().contains(k) {
                } else {
                    assert(slots0[k as int] is Dropped);
                    assert(removed@.dom().contains(k));
                }
            }
            assert forall|k: usize, x: usize| neighbours@.dom().contains(k) && #[trigger] set_elems(neighbours@[k]).contains(x) implies {
                &&& neighbours@.dom().contains(x)
                &&& x != k
                &&& set_elems(neighbours@[x]).contains(k)
                &&& table_rect(rects@, removed@, k).spec_neighbour_dir(table_rect(rects@, removed@, x)) is Some
            } by {
                assert(e0[k as int].contains(x));
                assert((k as int) < slots0.len() && part_live(slots0[k as int]));
                assert((x as int) < slots0.len() && part_live(slots0[x as int]));
                assert(neighbours@.dom().contains(x));
                if rects@.dom().contains(k) {
                } else {
                    assert(slots0[k as int] is Dropped);
                    assert(removed@.dom().contains(k));
                }
                if rects@.dom().contains(x) {
                } else {
                    assert(slots0[x as int] is Dropped);
                    assert(removed@.dom().contains(x));
                }
            }
            if live_apart(slots0) {
                assert forall|k1: usize, k2: usize| k1 != k2 && (rects@.dom().contains(k1) || removed@.dom().contains(k1))
                    && (rects@.dom().contains(k2) || removed@.dom().contains(k2)) implies apart(
                    #[trigger] table_rect(rects@, removed@, k1), #[trigger] table_rect(rects@, removed@, k2)) by {
                    assert(table_rect(rects@, removed@, k1) == part_rect(slots0[k1 as int]));
                    assert(table_rect(rects@, removed@, k2) == part_rect(slots0[k2 as int]));
                    assert(part_live(slots0[k1 as int]) && part_live(slots0[k2 as int]));
                    if k1 < k2 {
                        assert(apart(part_rect(slots0[k1 as int]), part_rect(slots0[k2 as int])));
                    } else {
                        assert(apart(part_rect(slots0[k2 as int]), part_rect(slots0[k1 as int])));
                    }
                }
            }
        }
        (rects, removed, neighbours)
    }

    /// Cuts a `width` by `height` map into regions and each region into
    /// kept and removed rectangles: every region is partitioned, then its
    /// kept rectangles are trimmed (`trim_connected_rects`, then
    /// `trim_orphaned_rects`); regions left without a kept rectangle are
    /// left out. The regions tile the map: no two share a cell and their
    /// areas add up to the map's. A map no more than four cells wide or high
    /// gives nothing.
    #[verifier::rlimit(100)]
    #[verifier::spinoff_prover]
    pub fn generate_and_trim_partitions(width: u32, height: u32, config: BinarySpacePartitioningConfig) -> (r: Vec<(Rect, RectTable, RectTable, NeighbourTable)>)
        requires
            width > MIN_RECT_WIDTH && height > MIN_RECT_HEIGHT ==> {
                &&& config.wf()
                &&& width * height <= u32::MAX
                &&& 1 + 2 * (width * height) <= usize::MAX
            },
        ensures
            width <= MIN_RECT_WIDTH || height <= MIN_RECT_HEIGHT ==> r@.len() == 0,
            r@.len() <= width * height,
            forall|i: int| 0 <= i < r@.len() ==> {
                let (origin, rects, removed, neighbours) = #[trigger] r@[i];
                &&& inside(origin, Rect { origin: crate::types::Cell { col: 0, row: 0 }, width, height })
                &&& solid(origin)
                &&& origin.well_placed()
                &&& partition_tables_ok(rects@, removed@, neighbours@, origin)
                &&& tables_apart(rects@, removed@)
                &&& rects@.dom().len() > 0
            },
            forall|i: int, j: int| 0 <= i < j < r@.len() ==> apart((#[trigger] r@[i]).0, (#[trigger] r@[j]).0),
            width > MIN_RECT_WIDTH && height > MIN_RECT_HEIGHT ==> trimmed_from(width, height, config,
                r@.map_values(|p: (Rect, RectTable, RectTable, NeighbourTable)| part_tables(p))),
            width > MIN_RECT_WIDTH && height > MIN_RECT_HEIGHT ==> exists|rs: Seq<Rect>| {
                &&& total_area(rs) == width * height
                &&& all_apart(rs, 0)
                &&& forall|k: int| 0 <= k < rs.len() ==> inside(#[trigger] rs[k], Rect { origin: crate::types::Cell { col: 0, row: 0 }, width, height })
                    && solid(rs[k])
                &&& forall|i: int| 0 <= i < r@.len() ==> rs.contains(#[trigger] r@[i].0)
            },
    {
        let mut out: Vec<(Rect, RectTable, RectTable, NeighbourTable)> = Vec::new();
        if width <= MIN_RECT_WIDTH || height <= MIN_RECT_HEIGHT {
            return out;
        }
        let initial_rect = Rect::new(0, 0, width, height);
        let regions = Self::generate_regions(initial_rect, &config);
        proof {
            let rs = regions@.map_values(|r: RectRegion| r.rect);
            assert forall|k: int| 0 <= k < rs.len() implies solid(#[trigger] rs[k]) by {
                assert(rs[k] == regions@[k].rect);
            }
            lemma_count_below_area(rs);
        }
        let ghost rs = regions@.map_values(|r: RectRegion| r.rect);
        let ghost mut src: Seq<int> = Seq::empty();
        let mut i: usize = 0;
        while i < regions.len()
            invariant
                rs == regions@.map_values(|r: RectRegion| r.rect),
                total_area(rs) == width * height,
                all_apart(rs, 0),
                src.len() == out@.len(),
                forall|k: int| 0 <= k < src.len() ==> 0 <= #[trigger] src[k] < i && out@[k].0 == rs[src[k]],
                forall|k1: int, k2: int| 0 <= k1 < k2 < src.len() ==> #[trigger] src[k1] < #[trigger] src[k2],
                0 <= i <= regions.len(),
                out@.len() <= i,
                regions@.len() <= width * height,
                config.wf(),
                initial_rect == (Rect { origin: crate::types::Cell { col: 0, row: 0 }, width, height }),
                initial_rect.well_placed(),
                width * height <= u32::MAX,
                1 + 2 * (width * height) <= usize::MAX,
                forall|k: int| 0 <= k < regions@.len() ==> inside(#[trigger] regions@[k].rect, initial_rect) && solid(regions@[k].rect),
                forall|k: int| 0 <= k < out@.len() ==> {
                    let (origin, rects, removed, neighbours) = #[trigger] out@[k];
                    &&& inside(origin, initial_rect)
                    &&& solid(origin)
                    &&& origin.well_placed()
                    &&& partition_tables_ok(rects@, removed@, neighbours@, origin)
                    &&& tables_apart(rects@, removed@)
                    &&& rects@.dom().len() > 0
                },
                regions_of(initial_rect, config, regions@),
                forall|k: int| 0 <= k < src.len() ==> part_of_region(regions@[#[trigger] src[k]], config, part_tables(out@[k])),
                forall|j: int| 0 <= j < i && !src.contains(j) ==> region_left_out(#[trigger] regions@[j], config),
            decreases regions.len() - i,
        {
            let region = regions[i];
            proof {
                lemma_inside_area(region.rect, initial_rect);
                lemma_inside_well_placed(region.rect, initial_rect);
            }
            let mut partition = Self::generate_partitions(region, &config);
            let ghost e = elems_of(partition.sets@);
            let ghost before = partition.slots@;
            Self::trim_connected_rects(&mut partition, &config);
            proof {
                lemma_drop_keeps_graph(before, partition.slots@, elems_of(partition.sets@), region.rect);
                lemma_drop_keeps_apart(before, partition.slots@);
            }
            let ghost before2 = partition.slots@;
            Self::trim_orphaned_rects(&mut partition);
            proof {
                lemma_drop_keeps_graph(before2, partition.slots@, elems_of(partition.sets@), region.rect);
                lemma_drop_keeps_apart(before2, partition.slots@);
            }
            let ghost slots2 = partition.slots@;
            proof {
                assert(part_chain(region, config, before, e, before2, slots2));
                assert(slots2.len() == partition.slots.len());
            }
            let (rects, removed, neighbours) = Self::into_tables(partition, region.rect);
            proof {
                assert(tables_from(slots2, e, rects@, removed@, neighbours@));
            }
            let ghost src0 = src;
            if rects.len() > 0 {
                let ghost before = out@;
                out.push((region.rect, rects, removed, neighbours));
                proof {
                    assert(part_tables(out@[before.len() as int]) == (region.rect, rects@, removed@, neighbours@));
                    assert(part_of_region(regions@[i as int], config, part_tables(out@[before.len() as int])));
                    src = src.push(i as int);
                    assert(rs[i as int] == regions@[i as int].rect);
                    assert forall|k: int| 0 <= k < src.len() implies 0 <= #[trigger] src[k] < i + 1 && out@[k].0 == rs[src[k]] by {
                        if k < before.len() {
                            assert(out@[k] == before[k]);
                        }
                    }
                    assert forall|k: int| 0 <= k < src.len() implies part_of_region(regions@[#[trigger] src[k]], config,
                        part_tables(out@[k])) by {
                        if k < before.len() {
                            assert(out@[k] == before[k]);
                            assert(src[k] == src0[k]);
                        }
                    }
                    assert forall|j: int| 0 <= j < i + 1 && !src.contains(j) implies region_left_out(#[trigger] regions@[j], config) by {
                        crate::seq_facts::lemma_push_contains(src0, i as int, j);
                    }
                }
            } else {
                proof {
                    assert forall|k: int| 0 <= k < slots2.len() implies !(#[trigger] slots2[k] is Kept) by {
                        if slots2[k] is Kept {
                            assert(rects@.dom().contains(k as usize));
                            vstd::std_specs::hash::axiom_hashmap_view_finite_dom(rects);
                            vstd::set::axiom_set_contains_len(rects@.dom(), k as usize);
                        }
                    }
                    assert(region_left_out(regions@[i as int], config));
                    assert forall|j: int| 0 <= j < i + 1 && !src.contains(j) implies region_left_out(#[trigger] regions@[j], config) by {
                    }
                }
            }
            i = i + 1;
        }
        proof {
            assert forall|a: int, b: int| 0 <= a < b < out@.len() implies apart((#[trigger] out@[a]).0, (#[trigger] out@[b]).0) by {
                assert(src[a] < src[b]);
                assert(apart(rs[src[a]], rs[src[b]]));
            }
            assert forall|k: int| 0 <= k < rs.len() implies inside(#[trigger] rs[k], initial_rect) && solid(rs[k]) by {
                assert(rs[k] == regions@[k].rect);
            }
            assert forall|a: int| 0 <= a < out@.len() implies rs.contains(#[trigger] out@[a].0) by {
                assert(rs[src[a]] == out@[a].0);
            }
            let ps = out@.map_values(|p: (Rect, RectTable, RectTable, NeighbourTable)| part_tables(p));
            assert forall|k: int| 0 <= k < src.len() implies part_of_region(regions@[#[trigger] src[k]], config, ps[k]) by {
                assert(ps[k] == part_tables(out@[k]));
            }
            assert(trim_plan(width, height, config, ps, regions@, src));
        }
        out
    }

    pub fn split_rect(rect: Rect, height_cutoff: u32, width_cutoff: u32, horizontal_split_prob: u32, chaotic: bool) -> (r: (Rect, Option<Rect>))
        requires
            rect.well_placed(),
            height_cutoff <= 100000,
            width_cutoff <= 100000,
            horizontal_split_prob <= CHANCE_SCALE,
        ensures
            split_rect_result(rect, height_cutoff, width_cutoff, horizontal_split_prob, chaotic, r),
    {
        let h = rect.height as u64;
        let w = rect.width as u64;
        proof {
            assert((height_cutoff as u64) * w <= 100000 * 0xffff_ffff) by (nonlinear_arith)
                requires
                    height_cutoff <= 100000,
                    w <= 0xffff_ffff,
            ;
            assert((width_cutoff as u64) * h <= 100000 * 0xffff_ffff) by (nonlinear_arith)
                requires
                    width_cutoff <= 100000,
                    h <= 0xffff_ffff,
            ;
        }
        let axis = if h * 100 > (height_cutoff as u64) * w {
            SplitAxis::Horizontal
        } else if w * 100 > (width_cutoff as u64) * h {
            SplitAxis::Vertical
        } else if chance(horizontal_split_prob) {
            SplitAxis::Horizontal
        } else {
            SplitAxis::Vertical
        };
        let side = match axis {
            SplitAxis::Horizontal => rect.height,
            SplitAxis::Vertical => rect.width,
        };
        if side > 1 {
            let split_len = side - 1;
            let at = if split_len > 5 && !chaotic {
                split_len / 2
            } else {
                random_u32(1, side)
            };
            match rect.try_split_at(axis, at) {
                Ok((a, b)) => {
                    assert(split_axis_allowed(rect, height_cutoff, width_cutoff, horizontal_split_prob, axis));
                    assert(split_outcome(rect, axis, at, chaotic, (a, Some(b))));
                    (a, Some(b))
                },
                Err(_) => {
                    assert(false);
                    (rect, None)
                },
            }
        } else {
            assert(split_axis_allowed(rect, height_cutoff, width_cutoff, horizontal_split_prob, axis));
            assert(split_outcome(rect, axis, 0, chaotic, (rect, None)));
            (rect, None)
        }
    }
}

} // verus!
