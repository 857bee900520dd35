//! The sequential pipeline: collect every edge of the pixel graph, sort
//! ascending by weight, run the threshold cut up to the first edge over
//! the threshold, relabel to averaged colors, and continue with
//! credit-based refinement over the remaining edges.
use vstd::prelude::*;

use crate::color::{average_colors, avg_color, roots_of};
use crate::graph::dsu::DisjointSetUnion;
use crate::graph::graph::{grid_view, Graph};
use crate::model::{spec_union, spec_union_threshold, AbsDsu, NODE_MAX, W_MAX};

verus! {

/// The `(weight, node, neighbor)` entries of one adjacency row.
pub open spec fn row_edges(row: Seq<(u32, i64)>, u: int) -> Seq<(i64, u32, u32)>
    decreases row.len(),
{
    if row.len() == 0 {
        Seq::empty()
    } else {
        row_edges(row.drop_last(), u).push((row.last().1, u as u32, row.last().0))
    }
}

/// All `(weight, node, neighbor)` entries of the first `u` adjacency
/// rows, in row order.
pub open spec fn collect_edges(adj: Seq<Seq<(u32, i64)>>, u: int) -> Seq<(i64, u32, u32)>
    decreases u,
{
    if u <= 0 {
        Seq::empty()
    } else {
        collect_edges(adj, u - 1) + row_edges(adj[u - 1], u - 1)
    }
}

/// Stable insertion of an edge into a weight-sorted sequence: the edge
/// lands after every entry of equal or smaller weight.
pub open spec fn sorted_insert(s: Seq<(i64, u32, u32)>, e: (i64, u32, u32)) -> Seq<(i64, u32, u32)>
    decreases s.len(),
{
    if s.len() == 0 {
        seq![e]
    } else if s.last().0 <= e.0 {
        s.push(e)
    } else {
        sorted_insert(s.drop_last(), e).push(s.last())
    }
}

/// Stable sort ascending by weight, by repeated insertion.
pub open spec fn sort_edges(s: Seq<(i64, u32, u32)>) -> Seq<(i64, u32, u32)>
    decreases s.len(),
{
    if s.len() == 0 {
        s
    } else {
        sorted_insert(sort_edges(s.drop_last()), s.last())
    }
}

/// The state after the first `k` edges have gone through the
/// threshold-gated merge.
pub open spec fn thr_fold(a: AbsDsu, t: int, edges: Seq<(i64, u32, u32)>, k: int) -> AbsDsu
    decreases k,
{
    if k <= 0 {
        a
    } else {
        spec_union_threshold(
            thr_fold(a, t, edges, k - 1),
            t,
            edges[k - 1].1 as int,
            edges[k - 1].2 as int,
            edges[k - 1].0 as int,
        )
    }
}

/// The state after the first `k` edges have gone through the
/// credit-gated merge.
pub open spec fn refine_fold(a: AbsDsu, c: int, edges: Seq<(i64, u32, u32)>, k: int) -> AbsDsu
    decreases k,
{
    if k <= 0 {
        a
    } else {
        spec_union(
            refine_fold(a, c, edges, k - 1),
            c,
            edges[k - 1].1 as int,
            edges[k - 1].2 as int,
            edges[k - 1].0 as int,
        )
    }
}

/// The index of the first edge whose weight exceeds `t`, or the length
/// if none does.
pub open spec fn first_over(edges: Seq<(i64, u32, u32)>, t: int) -> int
    decreases edges.len(),
{
    if edges.len() == 0 {
        0
    } else if edges[0].0 > t {
        0
    } else {
        1 + first_over(edges.subrange(1, edges.len() as int), t)
    }
}

proof fn lemma_first_over(edges: Seq<(i64, u32, u32)>, t: int, i: int)
    requires
        0 <= i <= edges.len(),
        forall|k: int| 0 <= k < i ==> (#[trigger] edges[k]).0 <= t,
        i == edges.len() || edges[i].0 > t,
    ensures
        first_over(edges, t) == i,
    decreases i,
{
    if i == 0 {
    } else {
        let tail = edges.subrange(1, edges.len() as int);
        assert(edges[0].0 <= t);
        lemma_first_over(tail, t, i - 1);
    }
}

proof fn lemma_sorted_insert_at(s: Seq<(i64, u32, u32)>, e: (i64, u32, u32), pos: int)
    requires
        0 <= pos <= s.len(),
        forall|k: int| pos <= k < s.len() ==> (#[trigger] s[k]).0 > e.0,
        pos > 0 ==> s[pos - 1].0 <= e.0,
    ensures
        sorted_insert(s, e) == s.insert(pos, e),
    decreases s.len(),
{
    if s.len() == 0 {
        assert(sorted_insert(s, e) =~= s.insert(0, e));
    } else if pos == s.len() {
        assert(s.last().0 <= e.0);
        assert(sorted_insert(s, e) =~= s.insert(pos, e));
    } else {
        assert(s[s.len() - 1].0 > e.0);
        lemma_sorted_insert_at(s.drop_last(), e, pos);
        assert(sorted_insert(s, e) =~= s.drop_last().insert(pos, e).push(s.last()));
        assert(s.drop_last().insert(pos, e).push(s.last()) =~= s.insert(pos, e));
    }
}

/// Sorts edges ascending by weight, stably, by insertion.
fn sort_by_weight(edges: Vec<(i64, u32, u32)>) -> (out: Vec<(i64, u32, u32)>)
    ensures
        out@ == sort_edges(edges@),
{
    let mut out: Vec<(i64, u32, u32)> = Vec::new();
    let mut i: usize = 0;
    proof {
        assert(edges@.subrange(0, 0) =~= Seq::<(i64, u32, u32)>::empty());
    }
    while i < edges.len()
        invariant
            i <= edges@.len(),
            out@ == sort_edges(edges@.subrange(0, i as int)),
        decreases edges@.len() - i,
    {
        let e = edges[i];
        let mut pos: usize = out.len();
        while pos > 0 && out[pos - 1].0 > e.0
            invariant
                pos <= out@.len(),
                forall|k: int| pos <= k < out@.len() ==> (#[trigger] out@[k]).0 > e.0,
            decreases pos,
        {
            pos = pos - 1;
        }
        proof {
            lemma_sorted_insert_at(out@, e, pos as int);
        }
        out.insert(pos, e);
        proof {
            assert(edges@.subrange(0, i + 1).drop_last() =~= edges@.subrange(0, i as int));
            assert(edges@.subrange(0, i + 1).last() == edges@[i as int]);
        }
        i = i + 1;
    }
    proof {
        assert(edges@.subrange(0, edges@.len() as int) =~= edges@);
    }
    out
}

/// Whenever two nodes share a component in one state, they share one in
/// the other: the first partition refines the second.
pub open spec fn refines(a1: AbsDsu, a2: AbsDsu) -> bool {
    &&& a1.repr.len() == a2.repr.len()
    &&& forall|u: int, v: int|
        0 <= u < a1.repr.len() && 0 <= v < a1.repr.len() && a1.repr[u] == a1.repr[v]
            ==> #[trigger] a2.repr[u] == #[trigger] a2.repr[v]
}

proof fn lemma_threshold_monotone_step(
    a1: AbsDsu,
    a2: AbsDsu,
    t1: int,
    t2: int,
    u: int,
    v: int,
    w: int,
)
    requires
        refines(a1, a2),
        t1 <= t2,
        0 <= u < a1.repr.len(),
        0 <= v < a1.repr.len(),
    ensures
        refines(
            spec_union_threshold(a1, t1, u, v, w),
            spec_union_threshold(a2, t2, u, v, w),
        ),
{
    let b1 = spec_union_threshold(a1, t1, u, v, w);
    let b2 = spec_union_threshold(a2, t2, u, v, w);
    assert(b1.repr.len() == a1.repr.len());
    assert(b2.repr.len() == a2.repr.len());
    assert forall|x: int, y: int|
        0 <= x < b1.repr.len() && 0 <= y < b1.repr.len() && b1.repr[x] == b1.repr[y] implies
        #[trigger] b2.repr[x] == #[trigger] b2.repr[y] by {
        if crate::model::ut_merges(a1, t1, u, v, w) {
            assert(w < t2);
            if a2.repr[u] != a2.repr[v] {
                assert(b2.repr[x] == (if a2.repr[x] == crate::model::merge_loser(a2, u, v) {
                    crate::model::merge_winner(a2, u, v)
                } else {
                    a2.repr[x]
                }));
            }
            assert(b2.repr[u] == b2.repr[v]);
            if a1.repr[x] == a1.repr[y] {
            } else if a1.repr[x] == a1.repr[u] && a1.repr[y] == a1.repr[v] {
                assert(a2.repr[x] == a2.repr[u]);
                assert(a2.repr[y] == a2.repr[v]);
            } else {
                assert(a1.repr[x] == a1.repr[v] && a1.repr[y] == a1.repr[u]);
                assert(a2.repr[x] == a2.repr[v]);
                assert(a2.repr[y] == a2.repr[u]);
            }
        } else {
            assert(b1.repr[x] == a1.repr[x] && b1.repr[y] == a1.repr[y]);
            assert(a2.repr[x] == a2.repr[y]);
        }
    }
}

/// Threshold monotonicity: over the same edge list from the same start,
/// the partition cut at a lower threshold refines the one cut at a
/// higher threshold — every merge the lower cut performs, the higher
/// cut performs too.
pub proof fn lemma_threshold_monotonicity(
    a: AbsDsu,
    t1: int,
    t2: int,
    edges: Seq<(i64, u32, u32)>,
    k: int,
)
    requires
        t1 <= t2,
        0 <= k <= edges.len(),
        forall|i: int| 0 <= i < edges.len() ==> ((#[trigger] edges[i]).1 as int) < a.repr.len()
            && ((edges[i]).2 as int) < a.repr.len(),
    ensures
        refines(thr_fold(a, t1, edges, k), thr_fold(a, t2, edges, k)),
    decreases k,
{
    if k <= 0 {
    } else {
        lemma_threshold_monotonicity(a, t1, t2, edges, k - 1);
        lemma_repr_len_fold(a, t1, edges, k - 1);
        lemma_repr_len_fold(a, t2, edges, k - 1);
        lemma_threshold_monotone_step(
            thr_fold(a, t1, edges, k - 1),
            thr_fold(a, t2, edges, k - 1),
            t1,
            t2,
            edges[k - 1].1 as int,
            edges[k - 1].2 as int,
            edges[k - 1].0 as int,
        );
    }
}

/// The node count of the partition never changes along a threshold fold.
pub proof fn lemma_repr_len_fold(a: AbsDsu, t: int, edges: Seq<(i64, u32, u32)>, k: int)
    requires
        0 <= k,
    ensures
        thr_fold(a, t, edges, k).repr.len() == a.repr.len(),
    decreases k,
{
    if k > 0 {
        lemma_repr_len_fold(a, t, edges, k - 1);
    }
}

/// Determinism of the sequential pipeline: its passes are functions of
/// the start state, the parameters and the edge list alone, so two runs
/// over identical input end in identical states. The executable passes
/// return exactly these fold values (see their contracts).
pub proof fn lemma_sequential_determinism(
    a1: AbsDsu,
    a2: AbsDsu,
    t: int,
    c: int,
    edges1: Seq<(i64, u32, u32)>,
    edges2: Seq<(i64, u32, u32)>,
    k: int,
)
    requires
        a1 == a2,
        edges1 == edges2,
    ensures
        thr_fold(a1, t, edges1, k) == thr_fold(a2, t, edges2, k),
        refine_fold(a1, c, edges1, k) == refine_fold(a2, c, edges2, k),
        first_over(edges1, t) == first_over(edges2, t),
{
}

/// The sequential pipeline state: the sorted edge list and the
/// disjoint-set structure it merges into.
pub struct Kruskal {
    edges: Vec<(i64, u32, u32)>,
    dsu: DisjointSetUnion,
}

impl Kruskal {
    /// The sorted `(weight, node, neighbor)` list.
    pub closed spec fn edges_seq(self) -> Seq<(i64, u32, u32)> {
        self.edges@
    }

    /// The abstract disjoint-set state.
    pub closed spec fn abs(self) -> AbsDsu {
        self.dsu.abs()
    }

    /// Number of nodes of the underlying structure.
    pub closed spec fn nodes(self) -> nat {
        self.dsu.nodes()
    }

    /// The fixed merge threshold of the run.
    pub closed spec fn threshold_spec(self) -> int {
        self.dsu.threshold_spec()
    }

    /// The fixed contrast bias of the run.
    pub closed spec fn contrast_spec(self) -> int {
        self.dsu.contrast_spec()
    }

    /// Well-formedness: the structure is sound and every edge endpoint
    /// and weight is admissible.
    pub closed spec fn wf(self) -> bool {
        &&& self.dsu.wf()
        &&& forall|i: int| 0 <= i < self.edges@.len() ==> ((#[trigger] self.edges@[i]).1 as int)
            < self.dsu.nodes() && ((self.edges@[i]).2 as int) < self.dsu.nodes() && 0
            <= self.edges@[i].0 <= W_MAX
    }

    /// Collects every adjacency entry of the graph as a `(weight, node,
    /// neighbor)` edge, sorts ascending by weight, and pairs the list
    /// with a fresh disjoint-set structure over the graph's nodes.
    pub fn new(graph: &Graph, threshold: i64, contrast: i64) -> (r: Kruskal)
        requires
            graph.wf(),
            -W_MAX <= threshold <= W_MAX,
            -W_MAX <= contrast <= W_MAX,
        ensures
            r.wf(),
            r.nodes() == graph.nodes,
            r.threshold_spec() == threshold as int,
            r.contrast_spec() == contrast as int,
            r.abs().repr == Seq::new(graph.nodes as nat, |j: int| j),
            r.abs().size == Seq::new(graph.nodes as nat, |j: int| 1int),
            r.abs().se == Seq::new(graph.nodes as nat, |j: int| None::<int>),
            r.abs().cr == Seq::new(graph.nodes as nat, |j: int| None::<int>),
            r.edges_seq() == sort_edges(
                collect_edges(grid_view(graph.adj_list@), graph.nodes as int),
            ),
    {
        let ghost adjv = grid_view(graph.adj_list@);
        let mut edges: Vec<(i64, u32, u32)> = Vec::new();
        let mut u: usize = 0;
        while u < graph.adj_list.len()
            invariant
                graph.wf(),
                adjv == grid_view(graph.adj_list@),
                u <= graph.adj_list@.len(),
                edges@ == collect_edges(adjv, u as int),
                forall|i: int| 0 <= i < edges@.len() ==> ((#[trigger] edges@[i]).1 as int)
                    < graph.nodes && ((edges@[i]).2 as int) < graph.nodes && 0 <= edges@[i].0
                    <= W_MAX,
            decreases graph.adj_list@.len() - u,
        {
            let row = &graph.adj_list[u];
            let mut k: usize = 0;
            proof {
                assert(row@.subrange(0, 0) =~= Seq::<(u32, i64)>::empty());
            }
            while k < row.len()
                invariant
                    graph.wf(),
                    adjv == grid_view(graph.adj_list@),
                    u < graph.adj_list@.len(),
                    row@ == graph.adj_list@[u as int]@,
                    k <= row@.len(),
                    edges@ == collect_edges(adjv, u as int) + row_edges(
                        row@.subrange(0, k as int),
                        u as int,
                    ),
                    forall|i: int| 0 <= i < edges@.len() ==> ((#[trigger] edges@[i]).1 as int)
                        < graph.nodes && ((edges@[i]).2 as int) < graph.nodes && 0 <= edges@[i].0
                        <= W_MAX,
                decreases row@.len() - k,
            {
                let entry = row[k];
                edges.push((entry.1, u as u32, entry.0));
                proof {
                    assert(row@.subrange(0, k + 1).drop_last() =~= row@.subrange(0, k as int));
                    assert(row@.subrange(0, k + 1).last() == row@[k as int]);
                    assert(edges@ =~= collect_edges(adjv, u as int) + row_edges(
                        row@.subrange(0, k + 1),
                        u as int,
                    ));
                }
                k = k + 1;
            }
            proof {
                assert(row@.subrange(0, row@.len() as int) =~= row@);
                assert(adjv[u as int] == row@);
                assert(edges@ =~= collect_edges(adjv, u as int + 1));
            }
            u = u + 1;
        }
        let edges = sort_by_weight(edges);
        proof {
            lemma_sort_bounds(
                collect_edges(adjv, graph.nodes as int),
                graph.nodes as int,
            );
        }
        Kruskal { edges, dsu: DisjointSetUnion::new(graph.nodes as usize, threshold, contrast) }
    }

    /// Scans the sorted edges in order, threshold-merging each, and
    /// stops at the first edge whose weight exceeds the threshold,
    /// returning its index (the snapshot cut point) — or the edge count
    /// if none exceeds it.
    pub fn apply_threshold(&mut self) -> (r: usize)
        requires
            old(self).wf(),
        ensures
            final(self).wf(),
            final(self).nodes() == old(self).nodes(),
            final(self).threshold_spec() == old(self).threshold_spec(),
            final(self).contrast_spec() == old(self).contrast_spec(),
            final(self).edges_seq() == old(self).edges_seq(),
            r as int == first_over(old(self).edges_seq(), old(self).threshold_spec()),
            final(self).abs() == thr_fold(
                old(self).abs(),
                old(self).threshold_spec(),
                old(self).edges_seq(),
                r as int,
            ),
    {
        let ghost a0 = self.abs();
        let ghost t = self.threshold_spec();
        let ghost es = self.edges@;
        let mut i: usize = 0;
        while i < self.edges.len()
            invariant
                self.wf(),
                a0 == old(self).abs(),
                es == old(self).edges_seq(),
                t == old(self).threshold_spec(),
                self.edges@ == es,
                self.nodes() == old(self).nodes(),
                self.threshold_spec() == t,
                self.contrast_spec() == old(self).contrast_spec(),
                i <= es.len(),
                forall|k: int| 0 <= k < i ==> (#[trigger] es[k]).0 <= t,
                self.abs() == thr_fold(a0, t, es, i as int),
            decreases es.len() - i,
        {
            let e = self.edges[i];
            if e.0 > self.dsu.threshold() {
                proof {
                    lemma_first_over(es, t, i as int);
                }
                return i;
            }
            let _ = self.dsu.union_threshold(e.1 as usize, e.2 as usize, e.0);
            i = i + 1;
        }
        proof {
            lemma_first_over(es, t, es.len() as int);
        }
        self.edges.len()
    }

    /// Scans the sorted edges from `ind` on, attempting the credit-based
    /// merge on each: the refinement pass over everything past the cut.
    pub fn apply(&mut self, ind: usize)
        requires
            old(self).wf(),
            ind <= old(self).edges_seq().len(),
        ensures
            final(self).wf(),
            final(self).nodes() == old(self).nodes(),
            final(self).threshold_spec() == old(self).threshold_spec(),
            final(self).contrast_spec() == old(self).contrast_spec(),
            final(self).edges_seq() == old(self).edges_seq(),
            final(self).abs() == refine_fold(
                old(self).abs(),
                old(self).contrast_spec(),
                old(self).edges_seq().subrange(ind as int, old(self).edges_seq().len() as int),
                old(self).edges_seq().len() - ind,
            ),
    {
        let ghost a0 = self.abs();
        let ghost c = self.contrast_spec();
        let ghost es = self.edges@;
        let ghost sub = es.subrange(ind as int, es.len() as int);
        let mut i: usize = ind;
        while i < self.edges.len()
            invariant
                self.wf(),
                a0 == old(self).abs(),
                es == old(self).edges_seq(),
                c == old(self).contrast_spec(),
                self.edges@ == es,
                self.nodes() == old(self).nodes(),
                self.threshold_spec() == old(self).threshold_spec(),
                self.contrast_spec() == c,
                ind <= i <= es.len(),
                sub == es.subrange(ind as int, es.len() as int),
                self.abs() == refine_fold(a0, c, sub, i - ind),
            decreases es.len() - i,
        {
            let e = self.edges[i];
            proof {
                assert(sub[i - ind] == es[i as int]);
            }
            self.dsu.union(e.1 as usize, e.2 as usize, e.0);
            i = i + 1;
        }
    }

    /// Emits the averaged-color output grid: every pixel of the result
    /// carries the arithmetic mean (rounded down, channel by channel) of
    /// the original colors over exactly its region's member pixels. The
    /// partition itself is untouched.
    pub fn relabel(&mut self, image: &Vec<Vec<(u8, u8, u8)>>) -> (out: Vec<Vec<(u8, u8, u8)>>)
        requires
            old(self).wf(),
            1 <= image@.len(),
            1 <= image@[0]@.len(),
            forall|y: int| 0 <= y < image@.len() ==> (#[trigger] image@[y])@.len()
                == image@[0]@.len(),
            image@[0]@.len() * image@.len() == old(self).nodes(),
        ensures
            final(self).wf(),
            final(self).nodes() == old(self).nodes(),
            final(self).threshold_spec() == old(self).threshold_spec(),
            final(self).contrast_spec() == old(self).contrast_spec(),
            final(self).edges_seq() == old(self).edges_seq(),
            final(self).abs() == old(self).abs(),
            out@.len() == image@.len(),
            forall|y: int| 0 <= y < out@.len() ==> (#[trigger] out@[y])@.len() == image@[0]@.len(),
            forall|y: int, x: int|
                0 <= y < image@.len() && 0 <= x < image@[0]@.len() ==> (#[trigger] out@[y]@[x])
                    == avg_color(
                    grid_view(image@),
                    image@[0]@.len() as int,
                    roots_of(old(self).abs()),
                    old(self).abs().repr[y * image@[0]@.len() + x],
                    old(self).nodes() as int,
                ),
    {
        let ghost a0 = self.abs();
        let height = image.len();
        let width = image[0].len();
        proof {
            self.dsu.lemma_abs();
            assert((width as int) * (height as int) == old(self).nodes());
        }
        let n = width * height;
        proof {
            assert(n == self.nodes());
        }
        let mut roots: Vec<usize> = Vec::new();
        let mut j: usize = 0;
        while j < n
            invariant
                self.wf(),
                a0 == old(self).abs(),
                a0.repr.len() == n as int,
                self.abs() == a0,
                self.nodes() == old(self).nodes(),
                self.threshold_spec() == old(self).threshold_spec(),
                self.contrast_spec() == old(self).contrast_spec(),
                self.edges_seq() == old(self).edges_seq(),
                n == self.nodes(),
                n as int <= NODE_MAX,
                j <= n,
                roots@.len() == j,
                forall|k: int| 0 <= k < j ==> (#[trigger] roots@[k]) as int == a0.repr[k],
                forall|k: int| 0 <= k < j ==> ((#[trigger] roots@[k]) as int) < n as int,
            decreases n - j,
        {
            proof {
                self.dsu.lemma_root_idempotence(j as int);
            }
            let r = self.dsu.find(j);
            roots.push(r);
            j = j + 1;
        }
        proof {
            assert(roots@ =~= roots_of(a0));
            assert((width as int) * (height as int) == n as int) by (nonlinear_arith)
                requires n == width * height;
        }
        let out = average_colors(&roots, image, width, height);
        proof {
            assert forall|y: int, x: int|
                0 <= y < image@.len() && 0 <= x < image@[0]@.len() implies (#[trigger] out@[y]@[x])
                == avg_color(
                grid_view(image@),
                width as int,
                roots_of(a0),
                a0.repr[y * (width as int) + x],
                n as int,
            ) by {
                crate::model::lemma_rowmajor(y, x, width as int, image@.len() as int);
                assert(roots@[y * (width as int) + x] as int == a0.repr[y * (width as int) + x]);
            }
        }
        out
    }

    /// The number of collected edges.
    pub fn edge_count(&self) -> (c: usize)
        ensures
            c as int == self.edges_seq().len(),
    {
        self.edges.len()
    }
}

proof fn lemma_sorted_insert_bounds(s: Seq<(i64, u32, u32)>, e: (i64, u32, u32), n: int)
    requires
        forall|i: int| 0 <= i < s.len() ==> ((#[trigger] s[i]).1 as int) < n && ((s[i]).2 as int)
            < n && 0 <= s[i].0 <= W_MAX,
        (e.1 as int) < n,
        (e.2 as int) < n,
        0 <= e.0 <= W_MAX,
    ensures
        forall|i: int| 0 <= i < sorted_insert(s, e).len() ==> ((#[trigger] sorted_insert(s, e)[i]).1
            as int) < n && ((sorted_insert(s, e)[i]).2 as int) < n && 0 <= sorted_insert(s, e)[i].0
            <= W_MAX,
        sorted_insert(s, e).len() == s.len() + 1,
    decreases s.len(),
{
    if s.len() == 0 {
    } else if s.last().0 <= e.0 {
    } else {
        lemma_sorted_insert_bounds(s.drop_last(), e, n);
    }
}

proof fn lemma_sort_bounds(s: Seq<(i64, u32, u32)>, n: int)
    requires
        forall|i: int| 0 <= i < s.len() ==> ((#[trigger] s[i]).1 as int) < n && ((s[i]).2 as int)
            < n && 0 <= s[i].0 <= W_MAX,
    ensures
        forall|i: int| 0 <= i < sort_edges(s).len() ==> ((#[trigger] sort_edges(s)[i]).1 as int)
            < n && ((sort_edges(s)[i]).2 as int) < n && 0 <= sort_edges(s)[i].0 <= W_MAX,
        sort_edges(s).len() == s.len(),
    decreases s.len(),
{
    if s.len() > 0 {
        lemma_sort_bounds(s.drop_last(), n);
        lemma_sorted_insert_bounds(sort_edges(s.drop_last()), s.last(), n);
    }
}

} // verus!
