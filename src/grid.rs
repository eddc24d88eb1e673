//! The fixed square grid: its cells, its adjacencies, and reachability.
use vstd::prelude::*;

use crate::tier::ROW_LENGTH;

verus! {

/// The cells of the grid: `row * 6 + col` for row and column below six.
pub open spec fn cells() -> Set<u8> {
    Set::new(|n: u8| n < 36)
}

/// `e` joins a cell to its right neighbour or to the cell below it.
pub open spec fn is_grid_edge(e: (u8, u8)) -> bool {
    let a = e.0 as int;
    let b = e.1 as int;
    &&& a < 36
    &&& (b == a + 1 && a % 6 != 5) || (b == a + 6 && a < 30)
}

/// All adjacencies of the full grid.
pub open spec fn grid_edges() -> Set<(u8, u8)> {
    Set::new(|e: (u8, u8)| is_grid_edge(e))
}

/// The adjacencies whose first cell comes before cell `x` in row-major order.
pub open spec fn grid_edges_before(x: int) -> Set<(u8, u8)> {
    Set::new(|e: (u8, u8)| is_grid_edge(e) && (e.0 as int) < x)
}

/// The adjacencies that cell `x` starts: to its right neighbour, if it has
/// one, then to the cell below, if it has one.
pub open spec fn cell_edges(x: int) -> Seq<(u8, u8)> {
    (if x % 6 != 5 {
        seq![(x as u8, (x + 1) as u8)]
    } else {
        Seq::empty()
    }) + (if x < 30 {
        seq![(x as u8, (x + 6) as u8)]
    } else {
        Seq::empty()
    })
}

/// The adjacencies started by the first `x` cells, in row-major order.
pub open spec fn grid_edge_seq(x: int) -> Seq<(u8, u8)>
    decreases x,
{
    if x <= 0 {
        Seq::empty()
    } else {
        grid_edge_seq(x - 1) + cell_edges(x - 1)
    }
}

/// Lists every adjacency of the grid once, row by row: for each cell, the
/// edge to its right neighbour (if any) and then the edge to the cell below
/// (if any).
pub fn new_edge_set() -> (r: Vec<(u8, u8)>)
    ensures
        r@ == grid_edge_seq(36),
        r@.len() == 60,
        r@.no_duplicates(),
        r@.to_set() == grid_edges(),
        forall|k: int| 0 <= k < r@.len() ==> is_grid_edge(#[trigger] r@[k]),
{
    let mut edge_set: Vec<(u8, u8)> = Vec::new();
    let limit: u8 = ROW_LENGTH - 1;
    let mut i: u8 = 0;
    while i < ROW_LENGTH
        invariant
            i <= 6,
            limit == 5,
            edge_set@.len() == (if i < 6 { 11 * i } else { 60 }),
            edge_set@.no_duplicates(),
            edge_set@.to_set() == grid_edges_before(6 * i),
            edge_set@ == grid_edge_seq(6 * i),
            forall|k: int|
                0 <= k < edge_set@.len() ==> is_grid_edge(#[trigger] edge_set@[k]) && (
                edge_set@[k].0 as int) < 6 * i,
        decreases 6 - i,
    {
        let mut j: u8 = 0;
        while j < ROW_LENGTH
            invariant
                i < 6,
                j <= 6,
                limit == 5,
                edge_set@.len() == 11 * i + (if i < 5 {
                    if j == 6 { 11 } else { 2 * j }
                } else {
                    if j == 6 { 5 } else { j as int }
                }),
                edge_set@.no_duplicates(),
                edge_set@.to_set() == grid_edges_before(6 * i + j),
                edge_set@ == grid_edge_seq(6 * i + j),
                forall|k: int|
                    0 <= k < edge_set@.len() ==> is_grid_edge(#[trigger] edge_set@[k]) && (
                    edge_set@[k].0 as int) < 6 * i + j,
            decreases 6 - j,
        {
            let x: u8 = i * ROW_LENGTH + j;
            let ghost before = edge_set@;
            if j < limit {
                edge_set.push((x, x + 1));
                proof {
                    before.lemma_push_to_set_commute((x, (x + 1) as u8));
                }
            }
            let ghost middle = edge_set@;
            if i < limit {
                edge_set.push((x, x + ROW_LENGTH));
                proof {
                    middle.lemma_push_to_set_commute((x, (x + 6) as u8));
                }
            }
            proof {
                assert(edge_set@.no_duplicates()) by {
                    assert forall|p: int, q: int|
                        0 <= p < edge_set@.len() && 0 <= q < edge_set@.len() && p != q implies
                        edge_set@[p] != edge_set@[q] by {
                        if p >= before.len() || q >= before.len() {
                        }
                    }
                }
                assert(edge_set@.to_set() =~= grid_edges_before(6 * i + j + 1));
                assert(edge_set@ =~= grid_edge_seq(6 * i + j + 1));
            }
            j = j + 1;
        }
        i = i + 1;
    }
    assert(edge_set@.to_set() =~= grid_edges());
    edge_set
}


/// A walk in the undirected graph `edges`: consecutive nodes share an edge.
pub open spec fn adjacent(edges: Set<(u8, u8)>, a: u8, b: u8) -> bool {
    edges.contains((a, b)) || edges.contains((b, a))
}

pub open spec fn is_walk(edges: Set<(u8, u8)>, p: Seq<u8>) -> bool {
    &&& p.len() > 0
    &&& forall|k: int| 0 <= k < p.len() - 1 ==> #[trigger] adjacent(edges, p[k], p[k + 1])
}

/// `b` can be reached from `a` along edges of `edges`.
pub open spec fn reachable(edges: Set<(u8, u8)>, a: u8, b: u8) -> bool {
    exists|p: Seq<u8>| #[trigger] is_walk(edges, p) && p[0] == a && p.last() == b
}

/// Every node of `nodes` reaches every other along `edges`.
pub open spec fn connected(nodes: Set<u8>, edges: Set<(u8, u8)>) -> bool {
    forall|a: u8, b: u8| nodes.contains(a) && nodes.contains(b) ==> #[trigger] reachable(edges, a, b)
}

/// Appending a step along an edge to a walk gives a walk.
pub proof fn lemma_reach_step(edges: Set<(u8, u8)>, a: u8, b: u8, c: u8)
    requires
        reachable(edges, a, b),
        adjacent(edges, b, c),
    ensures
        reachable(edges, a, c),
{
    let p = choose|p: Seq<u8>| #[trigger] is_walk(edges, p) && p[0] == a && p.last() == b;
    let q = p.push(c);
    assert forall|k: int| 0 <= k < q.len() - 1 implies #[trigger] adjacent(edges, q[k], q[k + 1]) by {
        if k < p.len() - 1 {
            assert(adjacent(edges, p[k], p[k + 1]));
        }
    }
    assert(is_walk(edges, q));
}

/// Reachability carries along a whole walk.
pub proof fn lemma_reach_walk(edges: Set<(u8, u8)>, a: u8, q: Seq<u8>)
    requires
        is_walk(edges, q),
        reachable(edges, a, q[0]),
    ensures
        reachable(edges, a, q.last()),
    decreases q.len(),
{
    if q.len() > 1 {
        let r = q.drop_last();
        assert forall|k: int| 0 <= k < r.len() - 1 implies #[trigger] adjacent(edges, r[k], r[k + 1]) by {
            assert(adjacent(edges, q[k], q[k + 1]));
        }
        assert(is_walk(edges, r));
        lemma_reach_walk(edges, a, r);
        assert(adjacent(edges, q[q.len() - 2], q[q.len() - 2 + 1]));
        lemma_reach_step(edges, a, q[q.len() - 2], q.last());
    }
}

/// Reachability is transitive.
pub proof fn lemma_reach_trans(edges: Set<(u8, u8)>, a: u8, b: u8, c: u8)
    requires
        reachable(edges, a, b),
        reachable(edges, b, c),
    ensures
        reachable(edges, a, c),
{
    let q = choose|q: Seq<u8>| #[trigger] is_walk(edges, q) && q[0] == b && q.last() == c;
    lemma_reach_walk(edges, a, q);
}

/// Every node reaches itself.
pub proof fn lemma_reach_refl(edges: Set<(u8, u8)>, a: u8)
    ensures
        reachable(edges, a, a),
{
    let p = seq![a];
    assert(is_walk(edges, p));
}

/// Reachability is symmetric, since edges are undirected.
pub proof fn lemma_reach_symm(edges: Set<(u8, u8)>, p: Seq<u8>)
    requires
        is_walk(edges, p),
    ensures
        reachable(edges, p.last(), p[0]),
    decreases p.len(),
{
    if p.len() == 1 {
        lemma_reach_refl(edges, p[0]);
    } else {
        let r = p.drop_last();
        assert forall|k: int| 0 <= k < r.len() - 1 implies #[trigger] adjacent(edges, r[k], r[k + 1]) by {
            assert(adjacent(edges, p[k], p[k + 1]));
        }
        lemma_reach_symm(edges, r);
        let m = p[p.len() - 2];
        assert(adjacent(edges, p[p.len() - 2], p[p.len() - 2 + 1]));
        lemma_reach_refl(edges, p.last());
        lemma_reach_step(edges, p.last(), p.last(), m);
        lemma_reach_trans(edges, p.last(), m, p[0]);
    }
}

/// Adding edges keeps every reachability.
pub proof fn lemma_reach_mono(small: Set<(u8, u8)>, large: Set<(u8, u8)>, a: u8, b: u8)
    requires
        reachable(small, a, b),
        small.subset_of(large),
    ensures
        reachable(large, a, b),
{
    let p = choose|p: Seq<u8>| #[trigger] is_walk(small, p) && p[0] == a && p.last() == b;
    assert forall|k: int| 0 <= k < p.len() - 1 implies #[trigger] adjacent(large, p[k], p[k + 1]) by {
        assert(adjacent(small, p[k], p[k + 1]));
    }
    assert(is_walk(large, p));
}

/// A walk that may use the edge `(a, b)` can avoid it when `a` still
/// reaches `b` without it.
pub proof fn lemma_reroute(edges: Set<(u8, u8)>, a: u8, b: u8, q: Seq<u8>)
    requires
        is_walk(edges, q),
        reachable(edges.remove((a, b)), a, b),
    ensures
        reachable(edges.remove((a, b)), q[0], q.last()),
    decreases q.len(),
{
    let rest = edges.remove((a, b));
    if q.len() == 1 {
        lemma_reach_refl(rest, q[0]);
    } else {
        let r = q.drop_last();
        assert forall|k: int| 0 <= k < r.len() - 1 implies #[trigger] adjacent(edges, r[k], r[k + 1]) by {
            assert(adjacent(edges, q[k], q[k + 1]));
        }
        lemma_reroute(edges, a, b, r);
        let x = q[q.len() - 2];
        let y = q.last();
        assert(adjacent(edges, q[q.len() - 2], q[q.len() - 2 + 1]));
        if adjacent(rest, x, y) {
            lemma_reach_step(rest, q[0], x, y);
        } else if x == a && y == b {
            lemma_reach_trans(rest, q[0], a, b);
        } else {
            assert(x == b && y == a);
            let p = choose|p: Seq<u8>| #[trigger] is_walk(rest, p) && p[0] == a && p.last() == b;
            lemma_reach_symm(rest, p);
            lemma_reach_trans(rest, q[0], b, a);
        }
    }
}

/// Dropping the edge `(a, b)` from a connected graph leaves it connected
/// when `a` still reaches `b` without it.
pub proof fn lemma_bypass_connected(nodes: Set<u8>, edges: Set<(u8, u8)>, a: u8, b: u8)
    requires
        connected(nodes, edges),
        reachable(edges.remove((a, b)), a, b),
    ensures
        connected(nodes, edges.remove((a, b))),
{
    assert forall|u: u8, v: u8| nodes.contains(u) && nodes.contains(v) implies #[trigger] reachable(
        edges.remove((a, b)),
        u,
        v,
    ) by {
        assert(reachable(edges, u, v));
        let q = choose|q: Seq<u8>| #[trigger] is_walk(edges, q) && q[0] == u && q.last() == v;
        lemma_reroute(edges, a, b, q);
    }
}

/// The grid has thirty-six cells.
pub proof fn lemma_cell_count()
    ensures
        cells().len() == 36,
        cells().finite(),
{
    let s = Seq::new(36, |k: int| k as u8);
    assert(s.no_duplicates());
    assert forall|n: u8| #[trigger] cells().contains(n) <==> s.to_set().contains(n) by {
        if n < 36 {
            assert(s[n as int] == n);
        }
    }
    assert(s.to_set() =~= cells());
    s.unique_seq_to_set();
}

/// The labels that `label` gives to the cells.
pub open spec fn label_image(label: spec_fn(u8) -> u8) -> Set<u8> {
    Set::new(|l: u8| exists|u: u8| u < 36 && #[trigger] label(u) == l)
}

/// Cells with equal labels are joined along `edges`, and every label is a
/// cell.
pub open spec fn labels_joined(label: spec_fn(u8) -> u8, edges: Set<(u8, u8)>) -> bool {
    &&& forall|u: u8| u < 36 ==> #[trigger] label(u) < 36
    &&& forall|u: u8, v: u8|
        #![trigger label(u), label(v)]
        u < 36 && v < 36 && label(u) == label(v) ==> reachable(edges, u, v)
}

/// `label` with the class of `b` relabelled as the class of `a`.
pub open spec fn merged(label: spec_fn(u8) -> u8, a: u8, b: u8) -> spec_fn(u8) -> u8 {
    |u: u8| if label(u) == label(b) { label(a) } else { label(u) }
}

/// Joining two differently labelled cells by a new edge and merging their
/// classes keeps the labelling faithful, and removes one label.
pub proof fn lemma_merge_labels(label: spec_fn(u8) -> u8, edges: Set<(u8, u8)>, a: u8, b: u8)
    requires
        a < 36,
        b < 36,
        label(a) != label(b),
        labels_joined(label, edges),
    ensures
        labels_joined(merged(label, a, b), edges.insert((a, b))),
        label_image(merged(label, a, b)) == label_image(label).remove(label(b)),
        label_image(label).contains(label(b)),
{
    let nl = merged(label, a, b);
    let more = edges.insert((a, b));
    assert(edges.subset_of(more));
    assert forall|u: u8, v: u8|
        #![trigger nl(u), nl(v)]
        u < 36 && v < 36 && nl(u) == nl(v) implies reachable(more, u, v) by {
        if label(u) == label(v) {
            lemma_reach_mono(edges, more, u, v);
        } else if label(u) == label(b) {
            assert(label(v) == label(a));
            lemma_reach_mono(edges, more, u, b);
            lemma_reach_mono(edges, more, a, v);
            assert(adjacent(more, b, a));
            lemma_reach_step(more, u, b, a);
            lemma_reach_trans(more, u, a, v);
        } else {
            assert(label(v) == label(b) && label(u) == label(a));
            lemma_reach_mono(edges, more, v, b);
            lemma_reach_mono(edges, more, a, u);
            assert(adjacent(more, b, a));
            lemma_reach_step(more, v, b, a);
            lemma_reach_trans(more, v, a, u);
            let p = choose|p: Seq<u8>| #[trigger] is_walk(more, p) && p[0] == v && p.last() == u;
            lemma_reach_symm(more, p);
        }
    }
    assert forall|u: u8| u < 36 implies #[trigger] nl(u) < 36 by {
    }
    assert forall|l: u8| #[trigger] label_image(nl).contains(l) <==> label_image(label).remove(
        label(b),
    ).contains(l) by {
        if label_image(nl).contains(l) {
            let u = choose|u: u8| u < 36 && #[trigger] nl(u) == l;
            if label(u) == label(b) {
                assert(label(a) == l);
            } else {
                assert(label(u) == l);
            }
        }
        if label_image(label).remove(label(b)).contains(l) {
            let u = choose|u: u8| u < 36 && #[trigger] label(u) == l;
            assert(nl(u) == l);
        }
    }
    assert(label_image(nl) =~= label_image(label).remove(label(b)));
}

/// Each cell is reached from the first cell of the full grid: along the
/// first row, then straight down.
proof fn lemma_grid_reach_from_origin(x: u8)
    requires
        x < 36,
    ensures
        reachable(grid_edges(), 0, x),
    decreases x,
{
    if x == 0 {
        lemma_reach_refl(grid_edges(), 0);
    } else if x < 6 {
        lemma_grid_reach_from_origin((x - 1) as u8);
        assert(grid_edges().contains(((x - 1) as u8, x)));
        lemma_reach_step(grid_edges(), 0, (x - 1) as u8, x);
    } else {
        lemma_grid_reach_from_origin((x - 6) as u8);
        assert(grid_edges().contains(((x - 6) as u8, x)));
        lemma_reach_step(grid_edges(), 0, (x - 6) as u8, x);
    }
}

/// The full grid is connected.
pub proof fn lemma_grid_connected()
    ensures
        connected(cells(), grid_edges()),
{
    assert forall|a: u8, b: u8| cells().contains(a) && cells().contains(b) implies #[trigger] reachable(
        grid_edges(),
        a,
        b,
    ) by {
        lemma_grid_reach_from_origin(a);
        lemma_grid_reach_from_origin(b);
        let p = choose|p: Seq<u8>| #[trigger] is_walk(grid_edges(), p) && p[0] == 0 && p.last() == a;
        lemma_reach_symm(grid_edges(), p);
        lemma_reach_trans(grid_edges(), a, 0, b);
    }
}

} // verus!
