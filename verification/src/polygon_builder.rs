//! The outline of a room: the sides of its cells that no other cell of the
//! room shares, and the corners where the outline turns or runs straight on.
use vstd::prelude::*;

use crate::types::{cell_edges, cell_neighbours, cell_vertices, edge_eq, Cell, Edge, Room};

verus! {

/// Every side of every cell, cell after cell.
pub open spec fn all_edges(cells: Seq<Cell>) -> Seq<Edge>
    decreases cells.len(),
{
    if cells.len() == 0 {
        Seq::empty()
    } else {
        all_edges(cells.drop_last()) + cell_edges(cells.last())
    }
}

/// Every corner of every cell, cell after cell.
pub open spec fn all_vertices(cells: Seq<Cell>) -> Seq<Cell>
    decreases cells.len(),
{
    if cells.len() == 0 {
        Seq::empty()
    } else {
        all_vertices(cells.drop_last()) + cell_vertices(cells.last())
    }
}

/// How many edges of `s` equal `e`, in either direction.
pub open spec fn edge_count(s: Seq<Edge>, e: Edge) -> nat
    decreases s.len(),
{
    if s.len() == 0 {
        0
    } else {
        edge_count(s.drop_last(), e) + if edge_eq(s.last(), e) { 1nat } else { 0nat }
    }
}

/// The sides that belong to exactly one cell, in the order they are met.
pub open spec fn outline_edges(cells: Seq<Cell>) -> Seq<Edge> {
    all_edges(cells).filter(|e: Edge| edge_count(all_edges(cells), e) == 1)
}

/// Whether `s` holds an edge equal to `e` in either direction.
pub open spec fn has_edge(s: Seq<Edge>, e: Edge) -> bool {
    exists|i: int| 0 <= i < s.len() && edge_eq(#[trigger] s[i], e)
}

/// How many grid neighbours of `v` are joined to it by an edge of `s`.
pub open spec fn outline_degree(s: Seq<Edge>, v: Cell) -> nat {
    cell_neighbours(v).filter(|n: Cell| has_edge(s, Edge { from: v, to: n })).len()
}

/// Cells whose corners and their grid neighbours stay inside `u32`.
pub open spec fn cells_in_range(cells: Seq<Cell>) -> bool {
    forall|i: int| 0 <= i < cells.len() ==> (#[trigger] cells[i]).col < u32::MAX - 1 && cells[i].row < u32::MAX - 1
}

proof fn lemma_all_edges_len(cells: Seq<Cell>)
    ensures
        all_edges(cells).len() == 4 * cells.len(),
    decreases cells.len(),
{
    if cells.len() > 0 {
        lemma_all_edges_len(cells.drop_last());
    }
}

proof fn lemma_all_vertices_len(cells: Seq<Cell>)
    ensures
        all_vertices(cells).len() == 4 * cells.len(),
    decreases cells.len(),
{
    if cells.len() > 0 {
        lemma_all_vertices_len(cells.drop_last());
    }
}

/// Every vertex of the cells stays one short of `u32::MAX` on both axes.
proof fn lemma_vertices_in_range(cells: Seq<Cell>)
    requires
        cells_in_range(cells),
    ensures
        forall|i: int| 0 <= i < all_vertices(cells).len() ==> (#[trigger] all_vertices(cells)[i]).col < u32::MAX
            && all_vertices(cells)[i].row < u32::MAX,
    decreases cells.len(),
{
    if cells.len() > 0 {
        lemma_vertices_in_range(cells.drop_last());
        lemma_all_vertices_len(cells.drop_last());
        assert(cells[cells.len() - 1] == cells.last());
    }
}

proof fn lemma_edge_count_push(s: Seq<Edge>, x: Edge, e: Edge)
    ensures
        edge_count(s.push(x), e) == edge_count(s, e) + if edge_eq(x, e) { 1nat } else { 0nat },
{
    assert(s.push(x).drop_last() =~= s);
}

/// An edge met at two places of `s` is counted at least twice.
proof fn lemma_edge_count_two(s: Seq<Edge>, k: int, i: int, e: Edge)
    requires
        0 <= k < s.len(),
        0 <= i < s.len(),
        k != i,
        edge_eq(s[k], e),
        edge_eq(s[i], e),
    ensures
        edge_count(s, e) >= 2,
    decreases s.len(),
{
    let n = s.len() - 1;
    if k != n && i != n {
        lemma_edge_count_two(s.drop_last(), k, i, e);
    } else {
        let other = if k == n { i } else { k };
        lemma_edge_count_one(s.drop_last(), other, e);
    }
}

/// An edge met somewhere in `s` is counted at least once.
proof fn lemma_edge_count_one(s: Seq<Edge>, k: int, e: Edge)
    requires
        0 <= k < s.len(),
        edge_eq(s[k], e),
    ensures
        edge_count(s, e) >= 1,
    decreases s.len(),
{
    if k != s.len() - 1 {
        lemma_edge_count_one(s.drop_last(), k, e);
    }
}

/// All the edges of `cells`, as `all_edges` lists them.
fn collect_edges(cells: &Vec<Cell>) -> (v: Vec<Edge>)
    requires
        cells_in_range(cells@),
    ensures
        v@ == all_edges(cells@),
{
    let mut v: Vec<Edge> = Vec::new();
    let mut i: usize = 0;
    while i < cells.len()
        invariant
            0 <= i <= cells.len(),
            cells_in_range(cells@),
            v@ == all_edges(cells@.take(i as int)),
        decreases cells.len() - i,
    {
        let cell = cells[i];
        proof {
            assert(cells@.take(i + 1).drop_last() =~= cells@.take(i as int));
            assert(cells@.take(i + 1).last() == cell);
        }
        let edges = cell.get_edges();
        let mut k: usize = 0;
        let ghost base = v@;
        while k < edges.len()
            invariant
                0 <= k <= edges.len(),
                edges@ == cell_edges(cell),
                v@ == base + edges@.take(k as int),
            decreases edges.len() - k,
        {
            v.push(edges[k]);
            proof {
                assert(edges@.take(k + 1) =~= edges@.take(k as int).push(edges@[k as int]));
                assert(v@ =~= base + edges@.take(k + 1));
            }
            k = k + 1;
        }
        proof {
            assert(edges@.take(edges@.len() as int) =~= edges@);
            assert(v@ =~= all_edges(cells@.take(i + 1)));
        }
        i = i + 1;
    }
    proof {
        assert(cells@.take(cells@.len() as int) =~= cells@);
    }
    v
}

/// All the corners of `cells`, as `all_vertices` lists them.
fn collect_vertices(cells: &Vec<Cell>) -> (v: Vec<Cell>)
    requires
        cells_in_range(cells@),
    ensures
        v@ == all_vertices(cells@),
{
    let mut v: Vec<Cell> = Vec::new();
    let mut i: usize = 0;
    while i < cells.len()
        invariant
            0 <= i <= cells.len(),
            cells_in_range(cells@),
            v@ == all_vertices(cells@.take(i as int)),
        decreases cells.len() - i,
    {
        let cell = cells[i];
        proof {
            assert(cells@.take(i + 1).drop_last() =~= cells@.take(i as int));
            assert(cells@.take(i + 1).last() == cell);
        }
        let vertices = cell.get_vertices();
        let mut k: usize = 0;
        let ghost base = v@;
        while k < vertices.len()
            invariant
                0 <= k <= vertices.len(),
                vertices@ == cell_vertices(cell),
                v@ == base + vertices@.take(k as int),
            decreases vertices.len() - k,
        {
            v.push(vertices[k]);
            proof {
                assert(vertices@.take(k + 1) =~= vertices@.take(k as int).push(vertices@[k as int]));
                assert(v@ =~= base + vertices@.take(k + 1));
            }
            k = k + 1;
        }
        proof {
            assert(vertices@.take(vertices@.len() as int) =~= vertices@);
            assert(v@ =~= all_vertices(cells@.take(i + 1)));
        }
        i = i + 1;
    }
    proof {
        assert(cells@.take(cells@.len() as int) =~= cells@);
    }
    v
}

/// How many edges of `edges` equal `e`, in either direction.
fn count_edge(edges: &Vec<Edge>, e: &Edge) -> (n: usize)
    ensures
        n == edge_count(edges@, *e),
{
    let mut n: usize = 0;
    let mut i: usize = 0;
    while i < edges.len()
        invariant
            0 <= i <= edges.len(),
            n == edge_count(edges@.take(i as int), *e),
            n <= i,
        decreases edges.len() - i,
    {
        proof {
            assert(edges@.take(i + 1) =~= edges@.take(i as int).push(edges@[i as int]));
            lemma_edge_count_push(edges@.take(i as int), edges@[i as int], *e);
        }
        if edges[i] == *e {
            n = n + 1;
        }
        i = i + 1;
    }
    proof {
        assert(edges@.take(edges@.len() as int) =~= edges@);
    }
    n
}

/// Whether `edges` holds an edge equal to `e`, in either direction.
pub(crate) fn contains_edge(edges: &Vec<Edge>, e: &Edge) -> (r: bool)
    ensures
        r == has_edge(edges@, *e),
{
    let mut i: usize = 0;
    while i < edges.len()
        invariant
            0 <= i <= edges.len(),
            forall|j: int| 0 <= j < i ==> !edge_eq(#[trigger] edges@[j], *e),
        decreases edges.len() - i,
    {
        if edges[i] == *e {
            return true;
        }
        i = i + 1;
    }
    false
}

/// How many of `neighbours` are joined to `v` by an edge of `edges`.
fn count_joined(edges: &Vec<Edge>, v: Cell, neighbours: &Vec<Cell>) -> (n: usize)
    ensures
        n == neighbours@.filter(|c: Cell| has_edge(edges@, Edge { from: v, to: c })).len(),
{
    let ghost p = |c: Cell| has_edge(edges@, Edge { from: v, to: c });
    let mut n: usize = 0;
    let mut i: usize = 0;
    while i < neighbours.len()
        invariant
            0 <= i <= neighbours.len(),
            p == (|c: Cell| has_edge(edges@, Edge { from: v, to: c })),
            n == neighbours@.take(i as int).filter(p).len(),
            n <= i,
        decreases neighbours.len() - i,
    {
        proof {
            assert(neighbours@.take(i + 1) =~= neighbours@.take(i as int).push(neighbours@[i as int]));
            neighbours@.take(i as int).lemma_filter_push(neighbours@[i as int], p);
        }
        if contains_edge(edges, &Edge::new(v, neighbours[i])) {
            n = n + 1;
        }
        i = i + 1;
    }
    proof {
        assert(neighbours@.take(neighbours@.len() as int) =~= neighbours@);
    }
    n
}

/// Builds the outline of rooms.
pub struct PolygonBuilder;

impl PolygonBuilder {
    /// The outline of `room`: its edges are the cell sides that belong to
    /// exactly one cell of the room, in the order they are met; its vertices
    /// are the cell corners, each once, that exactly two of those edges meet.
    pub fn build_for(room: &Room) -> (r: (Vec<Cell>, Vec<Edge>))
        requires
            cells_in_range(room.cells@),
        ensures
            r.1@ == outline_edges(room.cells@),
            forall|i: int, j: int| 0 <= i < j < r.1@.len() ==> !edge_eq(#[trigger] r.1@[i], #[trigger] r.1@[j]),
            r.0@.no_duplicates(),
            forall|v: Cell| #[trigger] r.0@.contains(v) <==> (all_vertices(room.cells@).contains(v)
                && outline_degree(r.1@, v) == 2),
    {
        let all = collect_edges(&room.cells);
        let ghost keep = |e: Edge| edge_count(all@, e) == 1;
        let mut edges: Vec<Edge> = Vec::new();
        let mut i: usize = 0;
        while i < all.len()
            invariant
                0 <= i <= all.len(),
                all@ == all_edges(room.cells@),
                keep == (|e: Edge| edge_count(all@, e) == 1),
                edges@ == all@.take(i as int).filter(keep),
                forall|j: int| #![trigger edges@[j]] 0 <= j < edges@.len() ==> exists|k: int| 0 <= k < i && #[trigger] all@[k] == edges@[j],
                forall|j: int| 0 <= j < edges@.len() ==> edge_count(all@, #[trigger] edges@[j]) == 1,
                forall|a: int, b: int| 0 <= a < b < edges@.len() ==> !edge_eq(#[trigger] edges@[a], #[trigger] edges@[b]),
            decreases all.len() - i,
        {
            proof {
                assert(all@.take(i + 1) =~= all@.take(i as int).push(all@[i as int]));
                all@.take(i as int).lemma_filter_push(all@[i as int], keep);
            }
            if count_edge(&all, &all[i]) == 1 {
                let ghost before = edges@;
                proof {
                    assert forall|a: int| 0 <= a < before.len() implies !edge_eq(#[trigger] before[a], all@[i as int]) by {
                        let k = choose|k: int| 0 <= k < i && #[trigger] all@[k] == before[a];
                        if edge_eq(before[a], all@[i as int]) {
                            lemma_edge_count_two(all@, k, i as int, all@[i as int]);
                        }
                    }
                }
                edges.push(all[i]);
                proof {
                    assert forall|j: int| #![trigger edges@[j]] 0 <= j < edges@.len() implies exists|k: int| 0 <= k < i + 1 && #[trigger] all@[k] == edges@[j] by {
                        if j == before.len() {
                            assert(all@[i as int] == edges@[j]);
                        } else {
                            assert(edges@[j] == before[j]);
                        }
                    }
                }
            }
            i = i + 1;
        }
        proof {
            assert(all@.take(all@.len() as int) =~= all@);
        }
        let corners = collect_vertices(&room.cells);
        proof {
            lemma_vertices_in_range(room.cells@);
        }
        let mut vertices: Vec<Cell> = Vec::new();
        let mut i: usize = 0;
        while i < corners.len()
            invariant
                0 <= i <= corners.len(),
                corners@ == all_vertices(room.cells@),
                forall|j: int| 0 <= j < corners@.len() ==> (#[trigger] corners@[j]).col < u32::MAX && corners@[j].row < u32::MAX,
                vertices@.no_duplicates(),
                forall|v: Cell| #[trigger] vertices@.contains(v) <==> (corners@.take(i as int).contains(v)
                    && outline_degree(edges@, v) == 2),
            decreases corners.len() - i,
        {
            let v = corners[i];
            proof {
                assert(corners@.take(i + 1) =~= corners@.take(i as int).push(v));
                assert forall|x: Cell| #[trigger] corners@.take(i + 1).contains(x) <==> (corners@.take(i as int).contains(x) || x == v) by {
                    crate::seq_facts::lemma_push_contains(corners@.take(i as int), v, x);
                }
            }
            let neighbours = v.neighbours();
            let degree = count_joined(&edges, v, &neighbours);
            if degree == 2 && !crate::types::vec_contains_cell(&vertices, v) {
                let ghost before = vertices@;
                vertices.push(v);
                proof {
                    crate::seq_facts::lemma_push_no_duplicates(before, v);
                    assert forall|x: Cell| #[trigger] vertices@.contains(x) <==> (before.contains(x) || x == v) by {
                        crate::seq_facts::lemma_push_contains(before, v, x);
                    }
                }
            }
            i = i + 1;
        }
        proof {
            assert(corners@.take(corners@.len() as int) =~= corners@);
        }
        (vertices, edges)
    }
}

} // verus!
