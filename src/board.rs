//! Boards: the live passage graph, the edges still to be tried, and the
//! barriers chosen so far.
use petgraph::graphmap::UnGraphMap;
use rand::rngs::ThreadRng;
use vstd::prelude::*;

use crate::chance::random_index;
use crate::grid::{
    cells, connected, grid_edges, is_grid_edge, label_image, labels_joined, lemma_bypass_connected,
    lemma_cell_count, lemma_grid_connected, lemma_merge_labels, lemma_reach_mono, lemma_reach_refl,
    merged, new_edge_set, reachable, grid_edge_seq,
};
use crate::live_graph::{
    endpoints, graph_add_edge, graph_component_count, graph_edge_count, graph_edges,
    graph_from_edges, graph_node_count, graph_nodes, graph_remove_edge,
};
use crate::render::{cell_line, gap_line, render_text, rows_text, border_text, right_edge, down_edge};
use crate::tier::{BarrierNum, Difficulty, MAX_BARRIERS, ROW_LENGTH};

verus! {

/// A labyrinth under construction or finished.
pub struct Board {
    graph: UnGraphMap<u8, u8>,
    /// Edges not yet tried as a barrier; each is still a passage.
    can_rem_edge_set: Vec<(u8, u8)>,
    /// Edges turned into walls, in the order they were chosen.
    barrier_edge_set: Vec<(u8, u8)>,
    rng: ThreadRng,
    /// Passages that were tried and kept, because removing them would have
    /// cut the live graph.
    kept: Ghost<Set<(u8, u8)>>,
    /// A labelling of the cells in which cells with equal labels are joined
    /// by kept passages.
    labels: Ghost<spec_fn(u8) -> u8>,
}

impl Board {
    /// The barriers, in the order they were chosen.
    pub closed spec fn barriers(self) -> Seq<(u8, u8)> {
        self.barrier_edge_set@
    }

    /// The edges not yet tried as a barrier.
    pub closed spec fn untried(self) -> Seq<(u8, u8)> {
        self.can_rem_edge_set@
    }

    /// The cells of the live graph.
    pub closed spec fn live_cells(self) -> Set<u8> {
        graph_nodes(self.graph)
    }

    /// The passages of the live graph.
    pub closed spec fn live_edges(self) -> Set<(u8, u8)> {
        graph_edges(self.graph)
    }

    /// The passages that were tried and kept.
    pub closed spec fn kept(self) -> Set<(u8, u8)> {
        self.kept@
    }

    /// The labelling that counts the pieces the kept passages join.
    pub closed spec fn labels(self) -> spec_fn(u8) -> u8 {
        self.labels@
    }

    /// What the tried-and-kept passages satisfy: they are passages, every
    /// passage was either kept or is untried, and the kept passages form a
    /// forest, witnessed by a labelling of the cells whose number of labels
    /// plus the number of kept passages is the number of cells.
    pub open spec fn kept_wf(self) -> bool {
        &&& self.kept().finite()
        &&& forall|e: (u8, u8)| #[trigger] self.kept().contains(e) ==> self.live_edges().contains(e)
        &&& forall|e: (u8, u8)|
            #[trigger] self.live_edges().contains(e) ==> self.kept().contains(e) || self.untried().contains(e)
        &&& forall|k: int| 0 <= k < self.untried().len() ==> !self.kept().contains(#[trigger] self.untried()[k])
        &&& labels_joined(self.labels(), self.kept())
        &&& label_image(self.labels()).len() + self.kept().len() == 36
    }

    /// A board's invariant: the live graph holds every cell and exactly the
    /// grid's adjacencies that are not barriers, and stays connected; the
    /// barriers are distinct grid edges; the untried edges are distinct
    /// passages.
    pub open spec fn wf(self) -> bool {
        &&& self.live_cells() == cells()
        &&& forall|e: (u8, u8)|
            #[trigger] self.live_edges().contains(e) <==> is_grid_edge(e) && !self.barriers().contains(e)
        &&& connected(self.live_cells(), self.live_edges())
        &&& self.live_edges().finite()
        &&& self.live_edges().len() + self.barriers().len() == 60
        &&& self.barriers().no_duplicates()
        &&& forall|k: int| 0 <= k < self.barriers().len() ==> is_grid_edge(#[trigger] self.barriers()[k])
        &&& self.untried().no_duplicates()
        &&& forall|k: int|
            0 <= k < self.untried().len() ==> self.live_edges().contains(#[trigger] self.untried()[k])
        &&& self.kept_wf()
    }

    /// The full grid: no barriers, every edge untried.
    fn new() -> (r: Self)
        ensures
            r.wf(),
            r.barriers().len() == 0,
            r.untried() == grid_edge_seq(36),
            r.untried().len() == 60,
            r.live_cells() == cells(),
            r.live_edges() == grid_edges(),
    {
        let can_rem_edge_set = new_edge_set();
        let graph = graph_from_edges(&can_rem_edge_set);
        proof {
            let s = can_rem_edge_set@;
            assert forall|n: u8| cells().contains(n) <==> #[trigger] endpoints(s).contains(n) by {
                if n < 36 {
                    let e = if n % 6 != 5 { (n, (n + 1) as u8) } else { ((n - 1) as u8, n) };
                    assert(grid_edges().contains(e));
                    assert(s.to_set().contains(e));
                    let k = choose|k: int| 0 <= k < s.len() && s[k] == e;
                    assert(s[k].0 == n || s[k].1 == n);
                }
                if endpoints(s).contains(n) {
                    let k = choose|k: int| 0 <= k < s.len() && (#[trigger] s[k].0 == n || s[k].1 == n);
                    assert(is_grid_edge(s[k]));
                }
            }
            assert(graph_nodes(graph) =~= cells());
            assert forall|e: (u8, u8)| #[trigger] graph_edges(graph).contains(e) <==> is_grid_edge(e) by {
                assert(grid_edges().contains(e) == is_grid_edge(e));
            }
            lemma_grid_connected();
            s.unique_seq_to_set();
            let ident = |u: u8| u;
            assert(label_image(ident) =~= cells()) by {
                assert forall|l: u8| cells().contains(l) implies #[trigger] label_image(ident).contains(l) by {
                    assert(ident(l) == l);
                }
            }
            lemma_cell_count();
            assert forall|u: u8, v: u8|
                #![trigger ident(u), ident(v)]
                u < 36 && v < 36 && ident(u) == ident(v) implies reachable(Set::empty(), u, v) by {
                lemma_reach_refl(Set::empty(), u);
            }
            assert forall|e: (u8, u8)| #[trigger] graph_edges(graph).contains(e) implies s.contains(e) by {
                assert(s.to_set().contains(e));
            }
            assert(graph_edges(graph) =~= grid_edges());
            assert forall|k: int| 0 <= k < s.len() implies graph_edges(graph).contains(#[trigger] s[k]) by {
                assert(s.to_set().contains(s[k]));
            }
        }
        Board {
            graph,
            can_rem_edge_set,
            barrier_edge_set: Vec::new(),
            rng: rand::thread_rng(),
            kept: Ghost(Set::empty()),
            labels: Ghost(|u: u8| u),
        }
    }
}

impl Board {
    /// Draws untried edges at random until one can become a barrier without
    /// disconnecting the live graph, and makes it one. Each drawn edge leaves
    /// the untried pool for good; a rejected one is put back into the live
    /// graph. Returns `false`, with the barriers unchanged, when the pool ran
    /// out first.
    fn remove_rand_edge(&mut self) -> (added: bool)
        requires
            old(self).wf(),
        ensures
            final(self).wf(),
            final(self).untried().len() <= old(self).untried().len(),
            added ==> final(self).untried().len() < old(self).untried().len(),
            added ==> final(self).barriers().drop_last() == old(self).barriers()
                && final(self).barriers().len() == old(self).barriers().len() + 1,
            !added ==> final(self).barriers() == old(self).barriers() && final(self).untried().len()
                == 0,
            added ==> old(self).untried().contains(final(self).barriers().last()),
            added ==> final(self).live_edges() == old(self).live_edges().remove(
                final(self).barriers().last(),
            ),
            !added ==> final(self).live_edges() == old(self).live_edges(),
            forall|e: (u8, u8)| #[trigger]
                final(self).untried().contains(e) ==> old(self).untried().contains(e),
            forall|e: (u8, u8)|
                old(self).untried().contains(e) && !(#[trigger] final(self).untried().contains(e))
                    && !(added && e == final(self).barriers().last()) ==> !connected(
                    cells(),
                    old(self).live_edges().remove(e),
                ),
    {
        let ghost start = self.untried().len();
        loop
            invariant
                self.wf(),
                self.barriers() == old(self).barriers(),
                self.live_edges() == old(self).live_edges(),
                self.untried().len() <= start,
                start == old(self).untried().len(),
                forall|e: (u8, u8)| #[trigger]
                    self.untried().contains(e) ==> old(self).untried().contains(e),
                forall|e: (u8, u8)|
                    old(self).untried().contains(e) && !(#[trigger] self.untried().contains(e))
                        ==> !connected(cells(), old(self).live_edges().remove(e)),
            decreases self.untried().len(),
        {
            if self.can_rem_edge_set.len() == 0 {
                return false;
            }
            let index = random_index(&mut self.rng, self.can_rem_edge_set.len());
            let ghost pool = self.can_rem_edge_set@;
            let ghost live = graph_edges(self.graph);
            let edge = self.can_rem_edge_set.remove(index);
            assert(live.contains(edge));
            assert(is_grid_edge(edge));
            graph_remove_edge(&mut self.graph, edge.0, edge.1);
            assert forall|k: int|
                0 <= k < self.can_rem_edge_set@.len() implies graph_edges(self.graph).contains(
                #[trigger] self.can_rem_edge_set@[k],
            ) by {
                if k < index {
                    assert(pool[k] != pool[index as int]);
                    assert(live.contains(pool[k]));
                } else {
                    assert(pool[k + 1] != pool[index as int]);
                    assert(live.contains(pool[k + 1]));
                }
            }
            assert(self.can_rem_edge_set@.no_duplicates()) by {
                assert forall|p: int, q: int|
                    0 <= p < self.can_rem_edge_set@.len() && 0 <= q < self.can_rem_edge_set@.len()
                        && p != q implies self.can_rem_edge_set@[p] != self.can_rem_edge_set@[q] by {
                    let pp = if p < index { p } else { p + 1 };
                    let qq = if q < index { q } else { q + 1 };
                    assert(pool[pp] != pool[qq]);
                }
            }
            let ghost kept = self.kept@;
            proof {
                assert(pool.contains(edge));
                assert forall|f: (u8, u8)| #[trigger] self.can_rem_edge_set@.contains(f) implies pool.contains(f)
                    && f != edge by {
                    let k = choose|k: int| 0 <= k < self.can_rem_edge_set@.len() && self.can_rem_edge_set@[k] == f;
                    let kk = if k < index { k } else { k + 1 };
                    assert(pool[kk] == f);
                    assert(pool[kk] != pool[index as int]);
                }
                assert forall|f: (u8, u8)| pool.contains(f) && f != edge implies #[trigger] self.can_rem_edge_set@.contains(f) by {
                    let k = choose|k: int| 0 <= k < pool.len() && pool[k] == f;
                    let kk = if k < index { k } else { k - 1 };
                    assert(self.can_rem_edge_set@[kk] == f);
                }
                assert(!kept.contains(edge));
                assert forall|k: int| 0 <= k < self.can_rem_edge_set@.len() implies
                    !kept.contains(#[trigger] self.can_rem_edge_set@[k]) && self.can_rem_edge_set@[k] != edge by {
                    let kk = if k < index { k } else { k + 1 };
                    assert(pool[kk] == self.can_rem_edge_set@[k]);
                    assert(pool[kk] != pool[index as int]);
                }
                assert forall|f: (u8, u8)| #[trigger] live.contains(f) && f != edge implies kept.contains(f)
                    || self.can_rem_edge_set@.contains(f) by {
                    if !kept.contains(f) {
                        let k = choose|k: int| 0 <= k < pool.len() && pool[k] == f;
                        let kk = if k < index { k } else { k - 1 };
                        assert(self.can_rem_edge_set@[kk] == f);
                    }
                }
            }
            if graph_component_count(&self.graph) == 1 {
                let ghost barriers = self.barrier_edge_set@;
                self.barrier_edge_set.push(edge);
                proof {
                    assert(self.barrier_edge_set@.drop_last() =~= barriers);
                    assert forall|e: (u8, u8)| #[trigger]
                        graph_edges(self.graph).contains(e) <==> is_grid_edge(e)
                            && !self.barrier_edge_set@.contains(e) by {
                        if self.barrier_edge_set@.contains(e) && e != edge {
                            let k = choose|k: int|
                                0 <= k < self.barrier_edge_set@.len() && self.barrier_edge_set@[k] == e;
                            assert(barriers[k] == e);
                        }
                        if barriers.contains(e) {
                            let k = choose|k: int| 0 <= k < barriers.len() && barriers[k] == e;
                            assert(self.barrier_edge_set@[k] == e);
                        }
                        assert(self.barrier_edge_set@[barriers.len() as int] == edge);
                    }
                    assert(self.barrier_edge_set@.no_duplicates()) by {
                        assert forall|p: int, q: int|
                            0 <= p < self.barrier_edge_set@.len() && 0 <= q
                                < self.barrier_edge_set@.len() && p != q implies
                            self.barrier_edge_set@[p] != self.barrier_edge_set@[q] by {
                            if p == barriers.len() && q < barriers.len() {
                                assert(barriers.contains(barriers[q]));
                            }
                            if q == barriers.len() && p < barriers.len() {
                                assert(barriers.contains(barriers[p]));
                            }
                        }
                    }
                }
                return true;
            }
            proof {
                let label = self.labels@;
                assert(cells().contains(0));
                assert(!connected(cells(), live.remove(edge)));
                if label(edge.0) == label(edge.1) {
                    assert(reachable(kept, edge.0, edge.1));
                    lemma_reach_mono(kept, live.remove(edge), edge.0, edge.1);
                    lemma_bypass_connected(cells(), live, edge.0, edge.1);
                }
                lemma_merge_labels(label, kept, edge.0, edge.1);
                lemma_cell_count();
                assert(label_image(label).subset_of(cells()));
                vstd::set_lib::lemma_len_subset(label_image(label), cells());
            }
            self.kept = Ghost(kept.insert(edge));
            self.labels = Ghost(merged(self.labels@, edge.0, edge.1));
            assert(graph_edges(self.graph).insert(edge) =~= live);
            graph_add_edge(&mut self.graph, edge.0, edge.1, 0);
            assert(graph_edges(self.graph) =~= live);
            assert(graph_nodes(self.graph) =~= cells());
        }
    }

    /// Builds a board with `count` barriers; the live graph is connected
    /// throughout.
    fn build(count: u8) -> (r: Self)
        requires
            count <= MAX_BARRIERS,
        ensures
            r.wf(),
            r.barriers().len() == count,
    {
        let mut board = Self::new();
        let target = count as usize;
        let mut exhausted = false;
        while !exhausted && board.barrier_edge_set.len() < target
            invariant
                board.wf(),
                board.barriers().len() <= target,
                target == count,
                exhausted ==> board.untried().len() == 0,
            decreases board.untried().len() + (if exhausted { 0int } else { 1int }),
        {
            exhausted = !board.remove_rand_edge();
        }
        if exhausted {
            proof {
                lemma_exhausted_board_has_many_barriers(board);
            }
        }
        board
    }

    /// Builds a board with the requested number of barriers.
    pub fn build_board_barnum(barrier_num: BarrierNum) -> (r: Self)
        requires
            barrier_num.wf(),
        ensures
            r.wf(),
            r.barriers().len() == barrier_num.spec_value(),
    {
        Self::build(barrier_num.value())
    }

    /// Builds a board with the barrier count of a difficulty tier.
    pub fn build_board_dif(difficulty: Difficulty) -> (r: Self)
        ensures
            r.wf(),
            r.barriers().len() == difficulty.spec_barrier_num(),
    {
        Self::build(difficulty.barrier_num())
    }
}

/// On every well-formed board the barriers are grid adjacencies, and no
/// edge is a barrier twice.
pub proof fn lemma_barriers_within_grid(b: Board)
    requires
        b.wf(),
    ensures
        b.barriers().to_set().subset_of(grid_edges()),
        b.barriers().no_duplicates(),
{
    assert forall|e: (u8, u8)| b.barriers().to_set().contains(e) implies grid_edges().contains(e) by {
        let k = choose|k: int| 0 <= k < b.barriers().len() && b.barriers()[k] == e;
        assert(is_grid_edge(b.barriers()[k]));
    }
}

/// Once every edge has been tried, the passages left form a spanning tree
/// of the grid: at most thirty-five of them remain, so at least twenty-five
/// barriers stand. Hence a board asked for at most [`MAX_BARRIERS`] never
/// runs out of edges to try.
pub proof fn lemma_exhausted_board_has_many_barriers(b: Board)
    requires
        b.wf(),
        b.untried().len() == 0,
    ensures
        b.live_edges().len() <= 35,
        b.barriers().len() >= 25,
{
    assert(b.live_edges().subset_of(b.kept()));
    vstd::set_lib::lemma_len_subset(b.live_edges(), b.kept());
    lemma_cell_count();
    let image = label_image(b.labels());
    assert(image.subset_of(cells()));
    vstd::set_lib::lemma_len_subset(image, cells());
    assert(image.contains(b.labels()(0)));
    if image.len() == 0 {
        assert(image =~= Set::empty());
    }
}

/// Two boards with the same barriers, in whatever order they were chosen,
/// are drawn alike; in particular drawing one board twice gives the same
/// text both times.
pub proof fn lemma_render_repeatable(b1: Board, b2: Board)
    requires
        b1.barriers().to_set() == b2.barriers().to_set(),
    ensures
        render_text(b1.barriers().to_set()) == render_text(b2.barriers().to_set()),
{
}

impl Board {
    /// The number of barriers.
    pub fn barrier_count(&self) -> (r: usize)
        ensures
            r == self.barriers().len(),
    {
        self.barrier_edge_set.len()
    }

    /// The barriers, in the order they were chosen.
    pub fn barrier_edges(&self) -> (r: Vec<(u8, u8)>)
        ensures
            r@ == self.barriers(),
    {
        let mut r: Vec<(u8, u8)> = Vec::new();
        let mut k: usize = 0;
        while k < self.barrier_edge_set.len()
            invariant
                k <= self.barrier_edge_set@.len(),
                r@ == self.barrier_edge_set@.subrange(0, k as int),
            decreases self.barrier_edge_set@.len() - k,
        {
            r.push(self.barrier_edge_set[k]);
            k = k + 1;
            assert(r@ =~= self.barrier_edge_set@.subrange(0, k as int));
        }
        assert(r@ =~= self.barrier_edge_set@);
        r
    }

    /// The number of cells in the live graph.
    pub fn live_node_count(&self) -> (r: usize)
        ensures
            r == self.live_cells().len(),
    {
        graph_node_count(&self.graph)
    }

    /// The number of passages in the live graph: the grid's sixty edges
    /// less the barriers.
    pub fn live_edge_count(&self) -> (r: usize)
        requires
            self.wf(),
        ensures
            r == self.live_edges().len(),
            r + self.barriers().len() == 60,
    {
        graph_edge_count(&self.graph)
    }

    /// The number of connected components of the live graph, which is one
    /// on every board.
    pub fn component_count(&self) -> (r: usize)
        requires
            self.wf(),
        ensures
            r == 1,
    {
        assert(cells().contains(0));
        graph_component_count(&self.graph)
    }

    /// Whether `e` is one of the barriers.
    fn holds_barrier(&self, e: (u8, u8)) -> (r: bool)
        ensures
            r == self.barriers().contains(e),
    {
        let mut k: usize = 0;
        while k < self.barrier_edge_set.len()
            invariant
                k <= self.barrier_edge_set@.len(),
                forall|m: int| 0 <= m < k ==> self.barrier_edge_set@[m] != e,
            decreases self.barrier_edge_set@.len() - k,
        {
            let f = self.barrier_edge_set[k];
            if f.0 == e.0 && f.1 == e.1 {
                return true;
            }
            k = k + 1;
        }
        false
    }

    /// Draws the board as text; the picture depends only on which edges
    /// are barriers.
    pub fn render(&self) -> (r: String)
        ensures
            r@ == render_text(self.barriers().to_set()),
    {
        let ghost b = self.barriers().to_set();
        let border = "-------------------------";
        let newline = "\n";
        let tab = "\t";
        let wall = "|";
        let open_wall = "\u{a6}";
        let floor = "---";
        let open_floor = "- -";
        let space = " ";
        proof {
            reveal_strlit("-------------------------");
            reveal_strlit("\n");
            reveal_strlit("\t");
            reveal_strlit("|");
            reveal_strlit("\u{a6}");
            reveal_strlit("---");
            reveal_strlit("- -");
            reveal_strlit(" ");
            assert(border@ =~= border_text());
        }
        let mut out = String::new();
        out.append(border);
        out.append(newline);
        let limit: u8 = ROW_LENGTH - 1;
        let mut i: u8 = 0;
        while i < ROW_LENGTH
            invariant
                i <= 6,
                limit == 5,
                out@ == border_text() + seq!['\n'] + rows_text(b, i as int),
                b == self.barriers().to_set(),
                newline@ == seq!['\n'],
                tab@ == seq!['\t'],
                wall@ == seq!['|'],
                open_wall@ == seq!['\u{a6}'],
                floor@ == seq!['-', '-', '-'],
                open_floor@ == seq!['-', ' ', '-'],
                space@ == seq![' '],
            decreases 6 - i,
        {
            let ghost head = out@;
            out.append(wall);
            out.append(tab);
            assert(out@ =~= head + cell_line(b, i as int, 0));
            let mut j: u8 = 0;
            while j < ROW_LENGTH
                invariant
                    i < 6,
                    j <= 6,
                    limit == 5,
                    out@ == head + cell_line(b, i as int, j as int),
                    b == self.barriers().to_set(),
                    tab@ == seq!['\t'],
                    wall@ == seq!['|'],
                    open_wall@ == seq!['\u{a6}'],
                decreases 6 - j,
            {
                if j < limit {
                    let x: u8 = ROW_LENGTH * i + j;
                    assert(right_edge(i as int, j as int) == (x, (x + 1) as u8));
                    if self.holds_barrier((x, x + 1)) {
                        out.append(wall);
                    } else {
                        out.append(open_wall);
                    }
                    out.append(tab);
                } else {
                    out.append(wall);
                }
                assert(out@ =~= head + cell_line(b, i as int, j + 1));
                j = j + 1;
            }
            out.append(newline);
            let ghost mid = out@;
            if i < limit {
                let mut j: u8 = 0;
                while j < ROW_LENGTH
                    invariant
                        i < 5,
                        j <= 6,
                        out@ == mid + gap_line(b, i as int, j as int),
                        b == self.barriers().to_set(),
                        floor@ == seq!['-', '-', '-'],
                        open_floor@ == seq!['-', ' ', '-'],
                        space@ == seq![' '],
                    decreases 6 - j,
                {
                    let x: u8 = i * ROW_LENGTH + j;
                    assert(down_edge(i as int, j as int) == (x, (x + 6) as u8));
                    out.append(space);
                    if self.holds_barrier((x, x + ROW_LENGTH)) {
                        out.append(floor);
                    } else {
                        out.append(open_floor);
                    }
                    assert(out@ =~= mid + gap_line(b, i as int, j + 1));
                    j = j + 1;
                }
                out.append(newline);
            }
            assert(out@ =~= border_text() + seq!['\n'] + rows_text(b, i + 1));
            i = i + 1;
        }
        out.append(border);
        out
    }
}

} // verus!
