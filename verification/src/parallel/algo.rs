//! The six-phase tiled pipeline. Phases touching only tile-local state
//! (threshold merge, eager credit, heuristic merge) are data-parallel
//! over tiles in design; they run here one tile at a time against the
//! same contracts, which is the discipline that also keeps concurrent
//! merges off overlapping components. Phases touching two tiles' shared
//! state (border merge, delay resolution) are sequential by design.
use vstd::prelude::*;

use crate::color::{average_colors, avg_color, roots_of};
use crate::model::{
    credit_formula, merge_loser, merge_winner, seed_of, spec_union, spec_union_threshold,
    un_merges, ut_merges, AbsDsu, NODE_MAX,
};
use crate::parallel::graph::{
    edge_ok, lemma_tile_id_bound, tile_of, Edge, Graph, Tile, TileModel,
};
use crate::parallel::regions::{
    am_get, am_remove, am_set, lemma_am_remove_keys, lemma_am_set_keys, RegionActivityMap,
};

pub use crate::parallel::graph::get_tile_id;

verus! {

/// The pipeline-visible state of the whole tiled graph: the partition,
/// the activity maps, and every tile's lists and cursors.
#[verifier::ext_equal]
pub ghost struct PipeState {
    pub a: AbsDsu,
    pub regions: Seq<Seq<(usize, bool)>>,
    pub tiles: Seq<TileModel>,
}

/// The pipeline-visible state of a graph value.
pub open spec fn state_of(g: Graph) -> PipeState {
    PipeState {
        a: g.dsu.abs(),
        regions: g.regions_model(),
        tiles: Seq::new(g.tiles@.len(), |t: int| g.tiles@[t].model()),
    }
}

/// The tile owning node `nd` of a `w`-wide grid.
pub open spec fn node_tile(nd: int, w: int, tw: int, th: int) -> int {
    tile_of(nd / w, nd % w, w, tw, th)
}

/// Stable insertion of an edge into a weight-sorted sequence.
pub open spec fn sorted_insert_e(s: Seq<Edge>, e: Edge) -> Seq<Edge>
    decreases s.len(),
{
    if s.len() == 0 {
        seq![e]
    } else if s.last().weight <= e.weight {
        s.push(e)
    } else {
        sorted_insert_e(s.drop_last(), e).push(s.last())
    }
}

/// Stable sort of edges ascending by weight.
pub open spec fn sort_edges_e(s: Seq<Edge>) -> Seq<Edge>
    decreases s.len(),
{
    if s.len() == 0 {
        s
    } else {
        sorted_insert_e(sort_edges_e(s.drop_last()), s.last())
    }
}

/// The index of the first edge whose weight exceeds `t`, or the length.
pub open spec fn first_over_e(edges: Seq<Edge>, t: int) -> int
    decreases edges.len(),
{
    if edges.len() == 0 {
        0
    } else if edges[0].weight > t {
        0
    } else {
        1 + first_over_e(edges.subrange(1, edges.len() as int), t)
    }
}

proof fn lemma_first_over_e(edges: Seq<Edge>, t: int, i: int)
    requires
        0 <= i <= edges.len(),
        forall|k: int| 0 <= k < i ==> (#[trigger] edges[k]).weight <= t,
        i == edges.len() || edges[i].weight > t,
    ensures
        first_over_e(edges, t) == i,
    decreases i,
{
    if i > 0 {
        lemma_first_over_e(edges.subrange(1, edges.len() as int), t, i - 1);
    }
}

proof fn lemma_sorted_insert_e_at(s: Seq<Edge>, e: Edge, pos: int)
    requires
        0 <= pos <= s.len(),
        forall|k: int| pos <= k < s.len() ==> (#[trigger] s[k]).weight > e.weight,
        pos > 0 ==> s[pos - 1].weight <= e.weight,
    ensures
        sorted_insert_e(s, e) == s.insert(pos, e),
    decreases s.len(),
{
    if s.len() == 0 {
        assert(sorted_insert_e(s, e) =~= s.insert(0, e));
    } else if pos == s.len() {
        assert(sorted_insert_e(s, e) =~= s.insert(pos, e));
    } else {
        lemma_sorted_insert_e_at(s.drop_last(), e, pos);
        assert(sorted_insert_e(s, e) =~= s.drop_last().insert(pos, e).push(s.last()));
        assert(s.drop_last().insert(pos, e).push(s.last()) =~= s.insert(pos, e));
    }
}

proof fn lemma_sorted_insert_e_ok(s: Seq<Edge>, e: Edge, n: int)
    requires
        forall|i: int| 0 <= i < s.len() ==> edge_ok(#[trigger] s[i], n),
        edge_ok(e, n),
    ensures
        forall|i: int| 0 <= i < sorted_insert_e(s, e).len() ==> edge_ok(
            #[trigger] sorted_insert_e(s, e)[i],
            n,
        ),
        sorted_insert_e(s, e).len() == s.len() + 1,
    decreases s.len(),
{
    if s.len() > 0 && s.last().weight > e.weight {
        lemma_sorted_insert_e_ok(s.drop_last(), e, n);
    }
}

/// Sorted edges are the given ones rearranged: every entry of the result
/// is admissible whenever every input entry is.
pub proof fn lemma_sort_edges_e_ok(s: Seq<Edge>, n: int)
    requires
        forall|i: int| 0 <= i < s.len() ==> edge_ok(#[trigger] s[i], n),
    ensures
        forall|i: int| 0 <= i < sort_edges_e(s).len() ==> edge_ok(#[trigger] sort_edges_e(s)[i], n),
        sort_edges_e(s).len() == s.len(),
    decreases s.len(),
{
    if s.len() > 0 {
        lemma_sort_edges_e_ok(s.drop_last(), n);
        lemma_sorted_insert_e_ok(sort_edges_e(s.drop_last()), s.last(), n);
    }
}

/// Sorts edges ascending by weight, stably, by insertion.
fn sort_tile_edges(edges: Vec<Edge>) -> (out: Vec<Edge>)
    ensures
        out@ == sort_edges_e(edges@),
{
    let mut out: Vec<Edge> = Vec::new();
    let mut i: usize = 0;
    proof {
        assert(edges@.subrange(0, 0) =~= Seq::<Edge>::empty());
    }
    while i < edges.len()
        invariant
            i <= edges@.len(),
            out@ == sort_edges_e(edges@.subrange(0, i as int)),
        decreases edges@.len() - i,
    {
        let e = edges[i];
        let mut pos: usize = out.len();
        while pos > 0 && out[pos - 1].weight > e.weight
            invariant
                pos <= out@.len(),
                forall|k: int| pos <= k < out@.len() ==> (#[trigger] out@[k]).weight > e.weight,
            decreases pos,
        {
            pos = pos - 1;
        }
        proof {
            lemma_sorted_insert_e_at(out@, e, pos as int);
        }
        out.insert(pos, e);
        proof {
            assert(edges@.subrange(0, i + 1).drop_last() =~= edges@.subrange(0, i as int));
            assert(edges@.subrange(0, i + 1).last() == edges@[i as int]);
        }
        i = i + 1;
    }
    proof {
        assert(edges@.subrange(0, edges@.len() as int) =~= edges@);
    }
    out
}

/// One internal threshold merge during the threshold phase: the absorbed
/// root, if any, leaves the activity map of the tile owning the edge's
/// first endpoint.
pub open spec fn p1_step(
    a: AbsDsu,
    regions: Seq<Seq<(usize, bool)>>,
    e: Edge,
    threshold: int,
    w: int,
    tw: int,
    th: int,
) -> (AbsDsu, Seq<Seq<(usize, bool)>>) {
    let a2 = spec_union_threshold(a, threshold, e.node1 as int, e.node2 as int, e.weight as int);
    if ut_merges(a, threshold, e.node1 as int, e.node2 as int, e.weight as int) {
        let lose = merge_loser(a, e.node1 as int, e.node2 as int);
        let t1 = node_tile(e.node1 as int, w, tw, th);
        (a2, regions.update(t1, am_remove(regions[t1], lose as usize)))
    } else {
        (a2, regions)
    }
}

/// The first `k` edges folded through `p1_step`.
pub open spec fn p1_scan(
    a: AbsDsu,
    regions: Seq<Seq<(usize, bool)>>,
    edges: Seq<Edge>,
    k: int,
    threshold: int,
    w: int,
    tw: int,
    th: int,
) -> (AbsDsu, Seq<Seq<(usize, bool)>>)
    decreases k,
{
    if k <= 0 {
        (a, regions)
    } else {
        let prev = p1_scan(a, regions, edges, k - 1, threshold, w, tw, th);
        p1_step(prev.0, prev.1, edges[k - 1], threshold, w, tw, th)
    }
}

/// The threshold phase over the first `t` tiles: each tile's lists
/// sorted, its internal edges scanned up to the first weight over the
/// threshold, that cut recorded as its internal cursor.
pub open spec fn p1_tiles(s: PipeState, t: int, threshold: int, w: int, tw: int, th: int) -> PipeState
    decreases t,
{
    if t <= 0 {
        s
    } else {
        let prev = p1_tiles(s, t - 1, threshold, w, tw, th);
        let sorted = sort_edges_e(s.tiles[t - 1].edges);
        let sorted_border = sort_edges_e(s.tiles[t - 1].border);
        let cut = first_over_e(sorted, threshold);
        let res = p1_scan(prev.a, prev.regions, sorted, cut, threshold, w, tw, th);
        PipeState {
            a: res.0,
            regions: res.1,
            tiles: prev.tiles.update(
                t - 1,
                TileModel {
                    edges: sorted,
                    border: sorted_border,
                    index: cut,
                    ..s.tiles[t - 1]
                },
            ),
        }
    }
}

/// One border threshold merge during the border phase: the absorbed root
/// leaves both endpoint tiles' maps, and the surviving root is marked
/// active in whichever of the two tiles does not already list it.
pub open spec fn p2_step(
    a: AbsDsu,
    regions: Seq<Seq<(usize, bool)>>,
    e: Edge,
    threshold: int,
    w: int,
    tw: int,
    th: int,
) -> (AbsDsu, Seq<Seq<(usize, bool)>>) {
    let a2 = spec_union_threshold(a, threshold, e.node1 as int, e.node2 as int, e.weight as int);
    if ut_merges(a, threshold, e.node1 as int, e.node2 as int, e.weight as int) {
        let win = merge_winner(a, e.node1 as int, e.node2 as int);
        let lose = merge_loser(a, e.node1 as int, e.node2 as int);
        let t1 = node_tile(e.node1 as int, w, tw, th);
        let t2 = node_tile(e.node2 as int, w, tw, th);
        (a2, spec_remove_then_mark(regions, t1, t2, win as usize, lose as usize))
    } else {
        (a2, regions)
    }
}

/// The first `k` border edges folded through `p2_step`.
pub open spec fn p2_scan(
    a: AbsDsu,
    regions: Seq<Seq<(usize, bool)>>,
    edges: Seq<Edge>,
    k: int,
    threshold: int,
    w: int,
    tw: int,
    th: int,
) -> (AbsDsu, Seq<Seq<(usize, bool)>>)
    decreases k,
{
    if k <= 0 {
        (a, regions)
    } else {
        let prev = p2_scan(a, regions, edges, k - 1, threshold, w, tw, th);
        p2_step(prev.0, prev.1, edges[k - 1], threshold, w, tw, th)
    }
}

/// The border phase over the first `t` tiles: each tile's border edges
/// scanned up to the first weight over the threshold, that cut recorded
/// as its border cursor.
pub open spec fn p2_tiles(s: PipeState, t: int, threshold: int, w: int, tw: int, th: int) -> PipeState
    decreases t,
{
    if t <= 0 {
        s
    } else {
        let prev = p2_tiles(s, t - 1, threshold, w, tw, th);
        let cut = first_over_e(s.tiles[t - 1].border, threshold);
        let res = p2_scan(prev.a, prev.regions, s.tiles[t - 1].border, cut, threshold, w, tw, th);
        PipeState {
            a: res.0,
            regions: res.1,
            tiles: prev.tiles.update(
                t - 1,
                TileModel { border_index: cut, ..s.tiles[t - 1] },
            ),
        }
    }
}

/// The orchestrator of the tiled pipeline.
pub struct Algo;

impl Algo {
    /// A fresh orchestrator.
    pub fn new() -> (r: Algo) {
        Algo
    }

    /// Phase of the threshold cut over internal edges: per tile, sorts
    /// both edge lists by weight, then scans the internal list while the
    /// weight stays at or under the threshold, threshold-merging each
    /// edge and recording the cut as the tile's internal cursor. Any
    /// absorbed root leaves the owning tile's activity map.
    #[verifier::rlimit(100)]
    pub fn threshold_merge(&self, graph: &mut Graph)
        requires
            old(graph).wf(),
        ensures
            final(graph).wf(),
            geometry_unchanged(*old(graph), *final(graph)),
            state_of(*final(graph)) == p1_tiles(
                state_of(*old(graph)),
                old(graph).tiles@.len() as int,
                old(graph).dsu.threshold_spec(),
                old(graph).width as int,
                old(graph).tile_width as int,
                old(graph).tile_height as int,
            ),
    {
        let ghost s0 = state_of(*old(graph));
        let ghost thr = graph.dsu.threshold_spec();
        let ghost wi = graph.width as int;
        let ghost twi = graph.tile_width as int;
        let ghost thi = graph.tile_height as int;
        let tile_total = graph.tiles.len();
        let mut t: usize = 0;
        while t < tile_total
            invariant
                graph.wf(),
                geometry_unchanged(*old(graph), *graph),
                s0 == state_of(*old(graph)),
                thr == graph.dsu.threshold_spec(),
                wi == graph.width as int,
                twi == graph.tile_width as int,
                thi == graph.tile_height as int,
                tile_total == graph.tiles@.len(),
                tile_total == old(graph).tiles@.len(),
                t <= tile_total,
                state_of(*graph) == p1_tiles(s0, t as int, thr, wi, twi, thi),
                forall|i: int| t <= i < tile_total ==> (#[trigger] graph.tiles@[i]).model()
                    == s0.tiles[i],
            decreases tile_total - t,
        {
            let ghost s_in = state_of(*graph);
            let mut tile = Tile {
                edges: Vec::new(),
                border_edges: Vec::new(),
                index: 0,
                border_index: 0,
                delay_queue: Vec::new(),
            };
            graph.tiles.set_and_swap(t, &mut tile);
            proof {
                assert(tile.model() == s0.tiles[t as int]);
                lemma_sort_edges_e_ok(tile.edges@, graph.dsu.nodes() as int);
                lemma_sort_edges_e_ok(tile.border_edges@, graph.dsu.nodes() as int);
            }
            let sorted = sort_tile_edges(tile.edges);
            tile.edges = sorted;
            let sorted_border = sort_tile_edges(tile.border_edges);
            tile.border_edges = sorted_border;
            let ghost es = tile.edges@;
            let thr_exec = graph.dsu.threshold();
            let mut i: usize = 0;
            while i < tile.edges.len() && tile.edges[i].weight <= thr_exec
                invariant
                    graph.wf(),
                    geometry_unchanged(*old(graph), *graph),
                    thr == graph.dsu.threshold_spec(),
                    wi == graph.width as int,
                    twi == graph.tile_width as int,
                    thi == graph.tile_height as int,
                    tile.edges@ == es,
                    forall|k: int| 0 <= k < es.len() ==> edge_ok(
                        #[trigger] es[k],
                        graph.dsu.nodes() as int,
                    ),
                    i <= es.len(),
                    forall|k: int| 0 <= k < i ==> (#[trigger] es[k]).weight <= thr,
                    (graph.dsu.abs(), graph.regions_model()) == p1_scan(
                        s_in.a,
                        s_in.regions,
                        es,
                        i as int,
                        thr,
                        wi,
                        twi,
                        thi,
                    ),
                    graph.regions@.len() == old(graph).regions@.len(),
                    graph.tiles@.len() == old(graph).tiles@.len(),
                    forall|j: int| 0 <= j < graph.tiles@.len() ==> (#[trigger] graph.tiles@[j]).model()
                        == state_of(*graph).tiles[j],
                    state_of(*graph).tiles == s_in.tiles.update(t as int, empty_swap_model()),
                    t < graph.tiles@.len(),
                    thr_exec as int == thr,
                decreases es.len() - i,
            {
                let e = tile.edges[i];
                proof {
                    crate::model::lemma_rowmajor_inv(e.node1 as int, wi, graph.height as int);
                    lemma_tile_id_bound(
                        e.node1 as int / wi,
                        e.node1 as int % wi,
                        wi,
                        graph.height as int,
                        twi,
                        thi,
                    );
                }
                let merged = graph.dsu.union_threshold(e.node1, e.node2, e.weight);
                match merged {
                    None => {},
                    Some(pair) => {
                        let t1 = get_tile_id(
                            e.node1 / graph.width,
                            e.node1 % graph.width,
                            graph.width,
                            graph.tile_width,
                            graph.tile_height,
                        );
                        let ghost r0 = graph.regions@[t1 as int].entries_seq();
                        let mut map = RegionActivityMap::new();
                        graph.regions.set_and_swap(t1, &mut map);
                        map.remove(pair.1);
                        graph.regions.set_and_swap(t1, &mut map);
                        proof {
                            lemma_am_remove_keys(r0, pair.1, graph.dsu.nodes() as int);
                            assert(graph.regions_model() =~= p1_step(
                                p1_scan(s_in.a, s_in.regions, es, i as int, thr, wi, twi, thi).0,
                                p1_scan(s_in.a, s_in.regions, es, i as int, thr, wi, twi, thi).1,
                                es[i as int],
                                thr,
                                wi,
                                twi,
                                thi,
                            ).1);
                        }
                    },
                }
                proof {
                    assert(graph.regions_model() =~= p1_scan(
                        s_in.a,
                        s_in.regions,
                        es,
                        i + 1,
                        thr,
                        wi,
                        twi,
                        thi,
                    ).1);
                }
                i = i + 1;
            }
            proof {
                if i < es.len() {
                    lemma_first_over_e(es, thr, i as int);
                } else {
                    lemma_first_over_e(es, thr, es.len() as int);
                }
            }
            tile.index = i;
            graph.tiles.set_and_swap(t, &mut tile);
            proof {
                assert(state_of(*graph) =~~= p1_tiles(s0, t as int + 1, thr, wi, twi, thi));
            }
            t = t + 1;
        }
    }

    /// Phase of the threshold cut over border edges, sequential across
    /// tiles: scans each tile's border edges while the weight stays at or
    /// under the threshold, threshold-merging each and recording the cut
    /// as the tile's border cursor. An absorbed root leaves both endpoint
    /// tiles' maps; the survivor is marked active in whichever of the two
    /// does not already list it — the region now spans a border.
    #[verifier::rlimit(100)]
    pub fn border_edges_merge(&self, graph: &mut Graph)
        requires
            old(graph).wf(),
        ensures
            final(graph).wf(),
            geometry_unchanged(*old(graph), *final(graph)),
            state_of(*final(graph)) == p2_tiles(
                state_of(*old(graph)),
                old(graph).tiles@.len() as int,
                old(graph).dsu.threshold_spec(),
                old(graph).width as int,
                old(graph).tile_width as int,
                old(graph).tile_height as int,
            ),
    {
        let ghost s0 = state_of(*old(graph));
        let ghost thr = graph.dsu.threshold_spec();
        let ghost wi = graph.width as int;
        let ghost twi = graph.tile_width as int;
        let ghost thi = graph.tile_height as int;
        let tile_total = graph.tiles.len();
        let mut t: usize = 0;
        while t < tile_total
            invariant
                graph.wf(),
                geometry_unchanged(*old(graph), *graph),
                s0 == state_of(*old(graph)),
                thr == graph.dsu.threshold_spec(),
                wi == graph.width as int,
                twi == graph.tile_width as int,
                thi == graph.tile_height as int,
                tile_total == graph.tiles@.len(),
                t <= tile_total,
                state_of(*graph) == p2_tiles(s0, t as int, thr, wi, twi, thi),
                forall|i: int| t <= i < tile_total ==> (#[trigger] graph.tiles@[i]).model()
                    == s0.tiles[i],
            decreases tile_total - t,
        {
            let ghost s_in = state_of(*graph);
            let mut tile = Tile {
                edges: Vec::new(),
                border_edges: Vec::new(),
                index: 0,
                border_index: 0,
                delay_queue: Vec::new(),
            };
            graph.tiles.set_and_swap(t, &mut tile);
            proof {
                assert(tile.model() == s0.tiles[t as int]);
            }
            let ghost bs = tile.border_edges@;
            let thr_exec = graph.dsu.threshold();
            let mut i: usize = 0;
            while i < tile.border_edges.len() && tile.border_edges[i].weight <= thr_exec
                invariant
                    graph.wf(),
                    geometry_unchanged(*old(graph), *graph),
                    s0 == state_of(*old(graph)),
                    s_in == p2_tiles(s0, t as int, thr, wi, twi, thi),
                    s_in.tiles.len() == tile_total as int,
                    tile_total == graph.tiles@.len(),
                    forall|j: int| t as int <= j < tile_total ==> s_in.tiles[j] == s0.tiles[j],
                    bs == s0.tiles[t as int].border,
                    tile.edges@ == s0.tiles[t as int].edges,
                    tile.index as int == s0.tiles[t as int].index,
                    tile.delay_queue@ == s0.tiles[t as int].delay,
                    thr == graph.dsu.threshold_spec(),
                    thr_exec as int == thr,
                    wi == graph.width as int,
                    twi == graph.tile_width as int,
                    thi == graph.tile_height as int,
                    tile.border_edges@ == bs,
                    forall|k: int| 0 <= k < bs.len() ==> edge_ok(
                        #[trigger] bs[k],
                        graph.dsu.nodes() as int,
                    ),
                    i <= bs.len(),
                    forall|k: int| 0 <= k < i ==> (#[trigger] bs[k]).weight <= thr,
                    (graph.dsu.abs(), graph.regions_model()) == p2_scan(
                        s_in.a,
                        s_in.regions,
                        bs,
                        i as int,
                        thr,
                        wi,
                        twi,
                        thi,
                    ),
                    graph.regions@.len() == old(graph).regions@.len(),
                    graph.tiles@.len() == old(graph).tiles@.len(),
                    state_of(*graph).tiles == s_in.tiles.update(t as int, empty_swap_model()),
                    t < graph.tiles@.len(),
                decreases bs.len() - i,
            {
                let e = tile.border_edges[i];
                proof {
                    crate::model::lemma_rowmajor_inv(e.node1 as int, wi, graph.height as int);
                    crate::model::lemma_rowmajor_inv(e.node2 as int, wi, graph.height as int);
                    lemma_tile_id_bound(
                        e.node1 as int / wi,
                        e.node1 as int % wi,
                        wi,
                        graph.height as int,
                        twi,
                        thi,
                    );
                    lemma_tile_id_bound(
                        e.node2 as int / wi,
                        e.node2 as int % wi,
                        wi,
                        graph.height as int,
                        twi,
                        thi,
                    );
                    graph.dsu.lemma_abs();
                }
                let merged = graph.dsu.union_threshold(e.node1, e.node2, e.weight);
                match merged {
                    None => {},
                    Some(pair) => {
                        let t1 = get_tile_id(
                            e.node1 / graph.width,
                            e.node1 % graph.width,
                            graph.width,
                            graph.tile_width,
                            graph.tile_height,
                        );
                        let t2 = get_tile_id(
                            e.node2 / graph.width,
                            e.node2 % graph.width,
                            graph.width,
                            graph.tile_width,
                            graph.tile_height,
                        );
                        remove_then_mark(graph, t1, t2, pair.0, pair.1);
                    },
                }
                proof {
                    assert(graph.regions_model() =~= p2_scan(
                        s_in.a,
                        s_in.regions,
                        bs,
                        i + 1,
                        thr,
                        wi,
                        twi,
                        thi,
                    ).1);
                }
                i = i + 1;
            }
            proof {
                if i < bs.len() {
                    lemma_first_over_e(bs, thr, i as int);
                } else {
                    lemma_first_over_e(bs, thr, bs.len() as int);
                }
            }
            tile.border_index = i;
            let ghost newmodel = tile.model();
            let ghost pre_tiles = graph.tiles@;
            graph.tiles.set_and_swap(t, &mut tile);
            proof {
                let prev = p2_tiles(s0, t as int, thr, wi, twi, thi);
                let cut = first_over_e(bs, thr);
                assert(cut == i as int);
                assert(prev == s_in);
                let res = p2_scan(prev.a, prev.regions, s0.tiles[t as int].border, cut, thr, wi,
                    twi, thi);
                assert(graph.dsu.abs() == res.0);
                assert(graph.regions_model() =~= res.1);
                assert(newmodel =~~= (TileModel { border_index: cut, ..s0.tiles[t as int] }));
                assert forall|j: int| 0 <= j < tile_total implies state_of(*graph).tiles[j]
                    == prev.tiles.update(t as int, newmodel)[j] by {
                    if j == t as int {
                        assert(graph.tiles@[j].model() == newmodel);
                    } else {
                        assert(graph.tiles@[j] == pre_tiles[j]);
                        assert(s_in.tiles.update(t as int, empty_swap_model())[j]
                            == pre_tiles[j].model());
                    }
                }
                assert(state_of(*graph).tiles =~= prev.tiles.update(t as int, newmodel));
                assert(state_of(*graph) =~~= p2_tiles(s0, t as int + 1, thr, wi, twi, thi));
                assert forall|j: int| t as int + 1 <= j < tile_total implies (#[trigger] graph.tiles@[j]).model()
                    == s0.tiles[j] by {
                    assert(graph.tiles@[j] == pre_tiles[j]);
                    assert(s_in.tiles.update(t as int, empty_swap_model())[j]
                        == pre_tiles[j].model());
                    assert(s_in.tiles[j] == s0.tiles[j]);
                }
            }
            t = t + 1;
        }
    }

    /// Phase of the eager credit computation: for every region root a
    /// tile currently tracks, computes the credit (with seed weight 0)
    /// and caches it, so that no two tile tasks later race to initialize
    /// one shared credit slot. Only the credit records change.
    pub fn compute_credit(&self, graph: &mut Graph)
        requires
            old(graph).wf(),
        ensures
            final(graph).wf(),
            geometry_unchanged(*old(graph), *final(graph)),
            final(graph).regions_model() == old(graph).regions_model(),
            state_of(*final(graph)).tiles == state_of(*old(graph)).tiles,
            final(graph).dsu.abs() == p4_tiles(
                old(graph).dsu.abs(),
                old(graph).dsu.contrast_spec(),
                old(graph).regions_model(),
                old(graph).regions@.len() as int,
            ),
    {
        let ghost a0 = graph.dsu.abs();
        let ghost c = graph.dsu.contrast_spec();
        let ghost rm = graph.regions_model();
        let tile_total = graph.regions.len();
        let mut t: usize = 0;
        while t < tile_total
            invariant
                graph.wf(),
                geometry_unchanged(*old(graph), *graph),
                a0 == old(graph).dsu.abs(),
                c == graph.dsu.contrast_spec(),
                rm == old(graph).regions_model(),
                graph.regions_model() == rm,
                graph.tiles@ == old(graph).tiles@,
                tile_total == graph.regions@.len(),
                t <= tile_total,
                graph.dsu.abs() == p4_tiles(a0, c, rm, t as int),
            decreases tile_total - t,
        {
            let ghost a_in = graph.dsu.abs();
            let m_len = graph.regions[t].len();
            let mut i: usize = 0;
            while i < m_len
                invariant
                    graph.wf(),
                    geometry_unchanged(*old(graph), *graph),
                    a_in == p4_tiles(a0, c, rm, t as int),
                    c == graph.dsu.contrast_spec(),
                    rm == old(graph).regions_model(),
                    graph.regions_model() == rm,
                    graph.tiles@ == old(graph).tiles@,
                    tile_total == graph.regions@.len(),
                    t < tile_total,
                    m_len == rm[t as int].len(),
                    i <= m_len,
                    graph.dsu.abs() == p4_entries(a_in, c, rm[t as int], i as int),
                decreases m_len - i,
            {
                let entry = graph.regions[t].entry_at(i);
                let cr = graph.dsu.compute_credit(entry.0, 0);
                graph.dsu.set_credit(entry.0, cr);
                proof {
                    assert(graph.dsu.abs() =~~= p4_entries(a_in, c, rm[t as int], i + 1));
                }
                i = i + 1;
            }
            t = t + 1;
        }
    }

    /// Phase of the intermediate relabel: emits the averaged-color output
    /// grid — every pixel of the result carries the arithmetic mean
    /// (rounded down, channel by channel) of the original colors over
    /// exactly its region's member pixels. The partition is untouched.
    pub fn relabel(&self, graph: &mut Graph) -> (out: Vec<Vec<(u8, u8, u8)>>)
        requires
            old(graph).wf(),
        ensures
            final(graph).wf(),
            geometry_unchanged(*old(graph), *final(graph)),
            state_of(*final(graph)) == state_of(*old(graph)),
            out@.len() == old(graph).height,
            forall|y: int| 0 <= y < out@.len() ==> (#[trigger] out@[y])@.len()
                == old(graph).width,
            forall|y: int, x: int|
                0 <= y < old(graph).height && 0 <= x < old(graph).width ==> (#[trigger] out@[y]@[x])
                    == avg_color(
                    crate::graph::graph::grid_view(old(graph).pixel@),
                    old(graph).width as int,
                    roots_of(old(graph).dsu.abs()),
                    old(graph).dsu.abs().repr[y * old(graph).width + x],
                    old(graph).dsu.nodes() as int,
                ),
    {
        let ghost a0 = graph.dsu.abs();
        let height = graph.height;
        let width = graph.width;
        proof {
            graph.dsu.lemma_abs();
        }
        let n = width * height;
        let mut roots: Vec<usize> = Vec::new();
        let mut j: usize = 0;
        while j < n
            invariant
                graph.wf(),
                geometry_unchanged(*old(graph), *graph),
                a0 == old(graph).dsu.abs(),
                a0.repr.len() == n as int,
                state_of(*graph) == state_of(*old(graph)),
                graph.dsu.abs() == a0,
                width == graph.width,
                height == graph.height,
                n == graph.dsu.nodes(),
                n as int <= NODE_MAX,
                j <= n,
                roots@.len() == j,
                forall|k: int| 0 <= k < j ==> (#[trigger] roots@[k]) as int == a0.repr[k],
                forall|k: int| 0 <= k < j ==> ((#[trigger] roots@[k]) as int) < n as int,
            decreases n - j,
        {
            proof {
                graph.dsu.lemma_root_idempotence(j as int);
            }
            let ghost pre = state_of(*graph);
            let r = graph.dsu.find(j);
            proof {
                assert(state_of(*graph) =~~= pre);
            }
            roots.push(r);
            j = j + 1;
        }
        proof {
            assert(roots@ =~= roots_of(a0));
            assert((width as int) * (height as int) == n as int) by (nonlinear_arith)
                requires n == width * height;
        }
        let out = average_colors(&roots, &graph.pixel, width, height);
        proof {
            assert forall|y: int, x: int|
                0 <= y < height && 0 <= x < width implies (#[trigger] out@[y]@[x]) == avg_color(
                crate::graph::graph::grid_view(old(graph).pixel@),
                width as int,
                roots_of(a0),
                a0.repr[y * (width as int) + x],
                n as int,
            ) by {
                crate::model::lemma_rowmajor(y, x, width as int, height as int);
                assert(roots@[y * (width as int) + x] as int == a0.repr[y * (width as int) + x]);
            }
        }
        out
    }

    /// Phase of the heuristic merge: each tile walks its remaining
    /// internal and border edges in combined ascending-weight order with
    /// two cursors, deferring fenced internal edges to its delay queue,
    /// credit-merging unfenced ones, and fencing both roots of each
    /// border edge before attempting its merge; the tile stops when
    /// either cursor exhausts its list.
    #[verifier::rlimit(100)]
    pub fn apply_heuristic(&self, graph: &mut Graph)
        requires
            old(graph).wf(),
        ensures
            final(graph).wf(),
            geometry_unchanged(*old(graph), *final(graph)),
            state_of(*final(graph)) == p5_tiles(
                state_of(*old(graph)),
                old(graph).tiles@.len() as int,
                old(graph).dsu.contrast_spec(),
                old(graph).width as int,
                old(graph).tile_width as int,
                old(graph).tile_height as int,
            ),
    {
        let ghost s0 = state_of(*old(graph));
        let ghost c = graph.dsu.contrast_spec();
        let ghost wi = graph.width as int;
        let ghost twi = graph.tile_width as int;
        let ghost thi = graph.tile_height as int;
        let tile_total = graph.tiles.len();
        let mut t: usize = 0;
        while t < tile_total
            invariant
                graph.wf(),
                geometry_unchanged(*old(graph), *graph),
                s0 == state_of(*old(graph)),
                c == graph.dsu.contrast_spec(),
                wi == graph.width as int,
                twi == graph.tile_width as int,
                thi == graph.tile_height as int,
                tile_total == graph.tiles@.len(),
                t <= tile_total,
                state_of(*graph) == p5_tiles(s0, t as int, c, wi, twi, thi),
                forall|i: int| t <= i < tile_total ==> (#[trigger] graph.tiles@[i]).model()
                    == s0.tiles[i],
            decreases tile_total - t,
        {
            let ghost s_in = state_of(*graph);
            let mut tile = Tile {
                edges: Vec::new(),
                border_edges: Vec::new(),
                index: 0,
                border_index: 0,
                delay_queue: Vec::new(),
            };
            graph.tiles.set_and_swap(t, &mut tile);
            proof {
                assert(tile.model() == s0.tiles[t as int]);
            }
            let ghost es = tile.edges@;
            let ghost bs = tile.border_edges@;
            let ghost idx0 = tile.index as int;
            let ghost bidx0 = tile.border_index as int;
            let ghost delay0 = tile.delay_queue@;
            while tile.index < tile.edges.len() && tile.border_index < tile.border_edges.len()
                invariant
                    graph.wf(),
                    geometry_unchanged(*old(graph), *graph),
                    s0 == state_of(*old(graph)),
                    s_in == p5_tiles(s0, t as int, c, wi, twi, thi),
                    s_in.tiles.len() == tile_total as int,
                    tile_total == graph.tiles@.len(),
                    forall|j: int| t as int <= j < tile_total ==> s_in.tiles[j] == s0.tiles[j],
                    c == graph.dsu.contrast_spec(),
                    wi == graph.width as int,
                    twi == graph.tile_width as int,
                    thi == graph.tile_height as int,
                    tile.edges@ == es,
                    tile.border_edges@ == bs,
                    es == s0.tiles[t as int].edges,
                    bs == s0.tiles[t as int].border,
                    idx0 == s0.tiles[t as int].index,
                    bidx0 == s0.tiles[t as int].border_index,
                    delay0 == s0.tiles[t as int].delay,
                    forall|k: int| 0 <= k < es.len() ==> edge_ok(
                        #[trigger] es[k],
                        graph.dsu.nodes() as int,
                    ),
                    forall|k: int| 0 <= k < bs.len() ==> edge_ok(
                        #[trigger] bs[k],
                        graph.dsu.nodes() as int,
                    ),
                    forall|k: int| 0 <= k < tile.delay_queue@.len() ==> edge_ok(
                        #[trigger] tile.delay_queue@[k],
                        graph.dsu.nodes() as int,
                    ),
                    tile.index <= es.len(),
                    tile.border_index <= bs.len(),
                    0 <= idx0 <= es.len(),
                    0 <= bidx0 <= bs.len(),
                    p5_run(
                        graph.dsu.abs(),
                        graph.regions_model(),
                        es,
                        bs,
                        tile.index as int,
                        tile.border_index as int,
                        tile.delay_queue@,
                        c,
                        wi,
                        twi,
                        thi,
                    ) == p5_run(s_in.a, s_in.regions, es, bs, idx0, bidx0, delay0, c, wi, twi, thi),
                    graph.regions@.len() == old(graph).regions@.len(),
                    state_of(*graph).tiles == s_in.tiles.update(t as int, empty_swap_model()),
                    t < graph.tiles@.len(),
                decreases es.len() - tile.index + bs.len() - tile.border_index,
            {
                let ghost a_cur = graph.dsu.abs();
                let ghost rg_cur = graph.regions_model();
                if tile.edges[tile.index].weight < tile.border_edges[tile.border_index].weight {
                    let e = tile.edges[tile.index];
                    proof {
                        crate::model::lemma_rowmajor_inv(e.node1 as int, wi, graph.height as int);
                        lemma_tile_id_bound(
                            e.node1 as int / wi,
                            e.node1 as int % wi,
                            wi,
                            graph.height as int,
                            twi,
                            thi,
                        );
                        graph.dsu.lemma_abs();
                    }
                    let region1 = graph.dsu.find(e.node1);
                    let region2 = graph.dsu.find(e.node2);
                    let t1 = get_tile_id(
                        e.node1 / graph.width,
                        e.node1 % graph.width,
                        graph.width,
                        graph.tile_width,
                        graph.tile_height,
                    );
                    let f1 = graph.regions[t1].get(region1);
                    let f2 = graph.regions[t1].get(region2);
                    let is_fenced = match (f1, f2) {
                        (Some(true), _) => true,
                        (_, Some(true)) => true,
                        _ => false,
                    };
                    proof {
                        assert(is_fenced == fenced(a_cur, rg_cur, e, wi, twi, thi));
                    }
                    if is_fenced {
                        tile.delay_queue.push(e);
                        tile.index = tile.index + 1;
                    } else {
                        let merged = graph.dsu.union(e.node1, e.node2, e.weight);
                        match merged {
                            None => {},
                            Some(pair) => {
                                let ghost r0 = graph.regions@[t1 as int].entries_seq();
                                let mut map = RegionActivityMap::new();
                                graph.regions.set_and_swap(t1, &mut map);
                                map.remove(pair.1);
                                graph.regions.set_and_swap(t1, &mut map);
                                proof {
                                    lemma_am_remove_keys(r0, pair.1, graph.dsu.nodes() as int);
                                }
                            },
                        }
                        tile.index = tile.index + 1;
                    }
                    proof {
                        let st = p5_internal(a_cur, rg_cur, delay0, e, c, wi, twi, thi);
                        assert(graph.dsu.abs() == st.0);
                        assert(graph.regions_model() =~= st.1);
                    }
                } else {
                    let e = tile.border_edges[tile.border_index];
                    proof {
                        crate::model::lemma_rowmajor_inv(e.node1 as int, wi, graph.height as int);
                        crate::model::lemma_rowmajor_inv(e.node2 as int, wi, graph.height as int);
                        lemma_tile_id_bound(
                            e.node1 as int / wi,
                            e.node1 as int % wi,
                            wi,
                            graph.height as int,
                            twi,
                            thi,
                        );
                        lemma_tile_id_bound(
                            e.node2 as int / wi,
                            e.node2 as int % wi,
                            wi,
                            graph.height as int,
                            twi,
                            thi,
                        );
                        graph.dsu.lemma_abs();
                    }
                    let region1 = graph.dsu.find(e.node1);
                    let region2 = graph.dsu.find(e.node2);
                    let t1 = get_tile_id(
                        e.node1 / graph.width,
                        e.node1 % graph.width,
                        graph.width,
                        graph.tile_width,
                        graph.tile_height,
                    );
                    let t2 = get_tile_id(
                        e.node2 / graph.width,
                        e.node2 % graph.width,
                        graph.width,
                        graph.tile_width,
                        graph.tile_height,
                    );
                    let ghost r0 = graph.regions@[t1 as int].entries_seq();
                    let mut map = RegionActivityMap::new();
                    graph.regions.set_and_swap(t1, &mut map);
                    map.set(region1, true);
                    graph.regions.set_and_swap(t1, &mut map);
                    proof {
                        lemma_am_set_keys(r0, region1, true, graph.dsu.nodes() as int);
                    }
                    let ghost r1 = graph.regions@[t2 as int].entries_seq();
                    let mut map2 = RegionActivityMap::new();
                    graph.regions.set_and_swap(t2, &mut map2);
                    map2.set(region2, true);
                    graph.regions.set_and_swap(t2, &mut map2);
                    proof {
                        lemma_am_set_keys(r1, region2, true, graph.dsu.nodes() as int);
                    }
                    let merged = graph.dsu.union(e.node1, e.node2, e.weight);
                    match merged {
                        None => {},
                        Some(pair) => {
                            let ghost q0 = graph.regions@[t1 as int].entries_seq();
                            let mut map3 = RegionActivityMap::new();
                            graph.regions.set_and_swap(t1, &mut map3);
                            map3.remove(pair.1);
                            graph.regions.set_and_swap(t1, &mut map3);
                            proof {
                                lemma_am_remove_keys(q0, pair.1, graph.dsu.nodes() as int);
                            }
                            let ghost q1 = graph.regions@[t2 as int].entries_seq();
                            let mut map4 = RegionActivityMap::new();
                            graph.regions.set_and_swap(t2, &mut map4);
                            map4.remove(pair.1);
                            graph.regions.set_and_swap(t2, &mut map4);
                            proof {
                                lemma_am_remove_keys(q1, pair.1, graph.dsu.nodes() as int);
                            }
                        },
                    }
                    tile.border_index = tile.border_index + 1;
                    proof {
                        let st = p5_border(a_cur, rg_cur, e, c, wi, twi, thi);
                        assert(graph.dsu.abs() == st.0);
                        assert(graph.regions_model() =~= st.1);
                    }
                }
            }
            let ghost newmodel = tile.model();
            let ghost pre_tiles = graph.tiles@;
            graph.tiles.set_and_swap(t, &mut tile);
            proof {
                let prev = p5_tiles(s0, t as int, c, wi, twi, thi);
                assert(prev == s_in);
                let run = p5_run(s_in.a, s_in.regions, es, bs, idx0, bidx0, delay0, c, wi, twi,
                    thi);
                assert(graph.dsu.abs() == run.0);
                assert(graph.regions_model() == run.1);
                assert(newmodel =~~= (TileModel {
                    index: run.2,
                    border_index: run.3,
                    delay: run.4,
                    ..s0.tiles[t as int]
                }));
                assert forall|j: int| 0 <= j < tile_total implies state_of(*graph).tiles[j]
                    == prev.tiles.update(t as int, newmodel)[j] by {
                    if j == t as int {
                        assert(graph.tiles@[j].model() == newmodel);
                    } else {
                        assert(graph.tiles@[j] == pre_tiles[j]);
                        assert(s_in.tiles.update(t as int, empty_swap_model())[j]
                            == pre_tiles[j].model());
                    }
                }
                assert(state_of(*graph).tiles =~= prev.tiles.update(t as int, newmodel));
                assert(state_of(*graph) =~~= p5_tiles(s0, t as int + 1, c, wi, twi, thi));
                assert forall|j: int| t as int + 1 <= j < tile_total implies (#[trigger] graph.tiles@[j]).model()
                    == s0.tiles[j] by {
                    assert(graph.tiles@[j] == pre_tiles[j]);
                    assert(s_in.tiles.update(t as int, empty_swap_model())[j]
                        == pre_tiles[j].model());
                    assert(s_in.tiles[j] == s0.tiles[j]);
                }
            }
            t = t + 1;
        }
    }

    /// Phase of the delay resolution, sequential across tiles: every edge
    /// previously deferred is attempted unconditionally, once, in queue
    /// order, now that the fences of the heuristic phase are resolved;
    /// the activity maps are book-kept as in the border phase.
    #[verifier::rlimit(100)]
    pub fn delay_queue(&self, graph: &mut Graph)
        requires
            old(graph).wf(),
        ensures
            final(graph).wf(),
            geometry_unchanged(*old(graph), *final(graph)),
            state_of(*final(graph)) == p6_tiles(
                state_of(*old(graph)),
                old(graph).tiles@.len() as int,
                old(graph).dsu.contrast_spec(),
                old(graph).width as int,
                old(graph).tile_width as int,
                old(graph).tile_height as int,
            ),
    {
        let ghost s0 = state_of(*old(graph));
        let ghost c = graph.dsu.contrast_spec();
        let ghost wi = graph.width as int;
        let ghost twi = graph.tile_width as int;
        let ghost thi = graph.tile_height as int;
        let tile_total = graph.tiles.len();
        let mut t: usize = 0;
        while t < tile_total
            invariant
                graph.wf(),
                geometry_unchanged(*old(graph), *graph),
                s0 == state_of(*old(graph)),
                c == graph.dsu.contrast_spec(),
                wi == graph.width as int,
                twi == graph.tile_width as int,
                thi == graph.tile_height as int,
                tile_total == graph.tiles@.len(),
                t <= tile_total,
                graph.tiles@ == old(graph).tiles@,
                (graph.dsu.abs(), graph.regions_model()) == (
                    p6_tiles(s0, t as int, c, wi, twi, thi).a,
                    p6_tiles(s0, t as int, c, wi, twi, thi).regions,
                ),
            decreases tile_total - t,
        {
            let ghost a_in = graph.dsu.abs();
            let ghost rg_in = graph.regions_model();
            let ghost dq = graph.tiles@[t as int].delay_queue@;
            proof {
                assert(dq == s0.tiles[t as int].delay);
            }
            let q_len = graph.tiles[t].delay_queue.len();
            let mut i: usize = 0;
            while i < q_len
                invariant
                    graph.wf(),
                    geometry_unchanged(*old(graph), *graph),
                    c == graph.dsu.contrast_spec(),
                    wi == graph.width as int,
                    twi == graph.tile_width as int,
                    thi == graph.tile_height as int,
                    graph.tiles@ == old(graph).tiles@,
                    tile_total == graph.tiles@.len(),
                    t < tile_total,
                    dq == graph.tiles@[t as int].delay_queue@,
                    q_len == dq.len(),
                    i <= q_len,
                    (graph.dsu.abs(), graph.regions_model()) == p6_scan(
                        a_in,
                        rg_in,
                        dq,
                        i as int,
                        c,
                        wi,
                        twi,
                        thi,
                    ),
                decreases q_len - i,
            {
                let e = graph.tiles[t].delay_queue[i];
                proof {
                    crate::model::lemma_rowmajor_inv(e.node1 as int, wi, graph.height as int);
                    crate::model::lemma_rowmajor_inv(e.node2 as int, wi, graph.height as int);
                    lemma_tile_id_bound(
                        e.node1 as int / wi,
                        e.node1 as int % wi,
                        wi,
                        graph.height as int,
                        twi,
                        thi,
                    );
                    lemma_tile_id_bound(
                        e.node2 as int / wi,
                        e.node2 as int % wi,
                        wi,
                        graph.height as int,
                        twi,
                        thi,
                    );
                    graph.dsu.lemma_abs();
                }
                let merged = graph.dsu.union(e.node1, e.node2, e.weight);
                match merged {
                    None => {},
                    Some(pair) => {
                        let t1 = get_tile_id(
                            e.node1 / graph.width,
                            e.node1 % graph.width,
                            graph.width,
                            graph.tile_width,
                            graph.tile_height,
                        );
                        let t2 = get_tile_id(
                            e.node2 / graph.width,
                            e.node2 % graph.width,
                            graph.width,
                            graph.tile_width,
                            graph.tile_height,
                        );
                        remove_then_mark(graph, t1, t2, pair.0, pair.1);
                    },
                }
                proof {
                    assert(graph.regions_model() =~= p6_scan(
                        a_in,
                        rg_in,
                        dq,
                        i + 1,
                        c,
                        wi,
                        twi,
                        thi,
                    ).1);
                }
                i = i + 1;
            }
            proof {
                assert(p6_tiles(s0, t as int + 1, c, wi, twi, thi).a == graph.dsu.abs());
                assert(p6_tiles(s0, t as int + 1, c, wi, twi, thi).regions =~= graph.regions_model());
            }
            t = t + 1;
        }
        proof {
            lemma_p6_tiles_keep(s0, tile_total as int, c, wi, twi, thi);
            assert(state_of(*graph) =~~= p6_tiles(s0, tile_total as int, c, wi, twi, thi));
        }
    }

    /// Runs the six phases in order — threshold merge, border merge, the
    /// relabel snapshot, eager credit, heuristic merge, delay resolution —
    /// and returns the relabel snapshot, the averaged-color grid of the
    /// partition after the threshold passes.
    pub fn apply(&self, graph: &mut Graph) -> (out: Vec<Vec<(u8, u8, u8)>>)
        requires
            old(graph).wf(),
        ensures
            final(graph).wf(),
            geometry_unchanged(*old(graph), *final(graph)),
            ({
                let n = old(graph).tiles@.len() as int;
                let thr = old(graph).dsu.threshold_spec();
                let c = old(graph).dsu.contrast_spec();
                let wi = old(graph).width as int;
                let twi = old(graph).tile_width as int;
                let thi = old(graph).tile_height as int;
                let s1 = p1_tiles(state_of(*old(graph)), n, thr, wi, twi, thi);
                let s2 = p2_tiles(s1, n, thr, wi, twi, thi);
                let a4 = p4_tiles(s2.a, c, s2.regions, old(graph).regions@.len() as int);
                let s4 = PipeState { a: a4, regions: s2.regions, tiles: s2.tiles };
                let s5 = p5_tiles(s4, n, c, wi, twi, thi);
                let s6 = p6_tiles(s5, n, c, wi, twi, thi);
                &&& state_of(*final(graph)) == s6
                &&& out@.len() == old(graph).height
                &&& forall|y: int| 0 <= y < out@.len() ==> (#[trigger] out@[y])@.len()
                    == old(graph).width
                &&& forall|y: int, x: int|
                    0 <= y < old(graph).height && 0 <= x < old(graph).width
                        ==> (#[trigger] out@[y]@[x]) == avg_color(
                        crate::graph::graph::grid_view(old(graph).pixel@),
                        old(graph).width as int,
                        roots_of(s2.a),
                        s2.a.repr[y * old(graph).width + x],
                        old(graph).dsu.nodes() as int,
                    )
            }),
    {
        self.threshold_merge(graph);
        self.border_edges_merge(graph);
        let ans = self.relabel(graph);
        self.compute_credit(graph);
        self.apply_heuristic(graph);
        self.delay_queue(graph);
        proof {
            assert(state_of(*graph) =~~= ({
                let n = old(graph).tiles@.len() as int;
                let thr = old(graph).dsu.threshold_spec();
                let c = old(graph).dsu.contrast_spec();
                let wi = old(graph).width as int;
                let twi = old(graph).tile_width as int;
                let thi = old(graph).tile_height as int;
                let s1 = p1_tiles(state_of(*old(graph)), n, thr, wi, twi, thi);
                let s2 = p2_tiles(s1, n, thr, wi, twi, thi);
                let a4 = p4_tiles(s2.a, c, s2.regions, old(graph).regions@.len() as int);
                let s4 = PipeState { a: a4, regions: s2.regions, tiles: s2.tiles };
                let s5 = p5_tiles(s4, n, c, wi, twi, thi);
                p6_tiles(s5, n, c, wi, twi, thi)
            }));
        }
        ans
    }
}

/// Whether an edge is fenced: either endpoint's current root is flagged
/// active in the activity map of the tile owning the edge's first
/// endpoint.
pub open spec fn fenced(
    a: AbsDsu,
    regions: Seq<Seq<(usize, bool)>>,
    e: Edge,
    w: int,
    tw: int,
    th: int,
) -> bool {
    let t1 = node_tile(e.node1 as int, w, tw, th);
    am_get(regions[t1], a.repr[e.node1 as int] as usize) == Some(true) || am_get(
        regions[t1],
        a.repr[e.node2 as int] as usize,
    ) == Some(true)
}

/// One internal edge of the heuristic phase: a fenced edge is deferred to
/// the delay queue (the partition untouched); otherwise the credit-based
/// merge is attempted and an absorbed root leaves the owning tile's map.
pub open spec fn p5_internal(
    a: AbsDsu,
    regions: Seq<Seq<(usize, bool)>>,
    delay: Seq<Edge>,
    e: Edge,
    contrast: int,
    w: int,
    tw: int,
    th: int,
) -> (AbsDsu, Seq<Seq<(usize, bool)>>, Seq<Edge>) {
    if fenced(a, regions, e, w, tw, th) {
        (a, regions, delay.push(e))
    } else {
        let a2 = spec_union(a, contrast, e.node1 as int, e.node2 as int, e.weight as int);
        if un_merges(a, contrast, e.node1 as int, e.node2 as int, e.weight as int) {
            let t1 = node_tile(e.node1 as int, w, tw, th);
            (
                a2,
                regions.update(
                    t1,
                    am_remove(regions[t1], merge_loser(a, e.node1 as int, e.node2 as int) as usize),
                ),
                delay,
            )
        } else {
            (a2, regions, delay)
        }
    }
}

/// One border edge of the heuristic phase: both endpoints' roots are
/// fenced in their own tiles' maps before the credit-based merge is
/// attempted; an absorbed root leaves both maps.
pub open spec fn p5_border(
    a: AbsDsu,
    regions: Seq<Seq<(usize, bool)>>,
    e: Edge,
    contrast: int,
    w: int,
    tw: int,
    th: int,
) -> (AbsDsu, Seq<Seq<(usize, bool)>>) {
    let t1 = node_tile(e.node1 as int, w, tw, th);
    let t2 = node_tile(e.node2 as int, w, tw, th);
    let rg1 = regions.update(t1, am_set(regions[t1], a.repr[e.node1 as int] as usize, true));
    let rg2 = rg1.update(t2, am_set(rg1[t2], a.repr[e.node2 as int] as usize, true));
    let a2 = spec_union(a, contrast, e.node1 as int, e.node2 as int, e.weight as int);
    if un_merges(a, contrast, e.node1 as int, e.node2 as int, e.weight as int) {
        let lose = merge_loser(a, e.node1 as int, e.node2 as int) as usize;
        let rg3 = rg2.update(t1, am_remove(rg2[t1], lose));
        (a2, rg3.update(t2, am_remove(rg3[t2], lose)))
    } else {
        (a2, rg2)
    }
}

/// One tile's heuristic run: internal and border edges in combined
/// ascending-weight order through two cursors, the smaller-weight side
/// advancing, until either cursor exhausts its list.
pub open spec fn p5_run(
    a: AbsDsu,
    regions: Seq<Seq<(usize, bool)>>,
    edges: Seq<Edge>,
    border: Seq<Edge>,
    i: int,
    b: int,
    delay: Seq<Edge>,
    contrast: int,
    w: int,
    tw: int,
    th: int,
) -> (AbsDsu, Seq<Seq<(usize, bool)>>, int, int, Seq<Edge>)
    decreases edges.len() + border.len() - i - b
        when 0 <= i <= edges.len() && 0 <= b <= border.len()
{
    if i >= edges.len() || b >= border.len() {
        (a, regions, i, b, delay)
    } else if edges[i].weight < border[b].weight {
        let st = p5_internal(a, regions, delay, edges[i], contrast, w, tw, th);
        p5_run(st.0, st.1, edges, border, i + 1, b, st.2, contrast, w, tw, th)
    } else {
        let st = p5_border(a, regions, border[b], contrast, w, tw, th);
        p5_run(st.0, st.1, edges, border, i, b + 1, delay, contrast, w, tw, th)
    }
}

/// The heuristic phase over the first `t` tiles.
pub open spec fn p5_tiles(s: PipeState, t: int, contrast: int, w: int, tw: int, th: int) -> PipeState
    decreases t,
{
    if t <= 0 {
        s
    } else {
        let prev = p5_tiles(s, t - 1, contrast, w, tw, th);
        let tm = s.tiles[t - 1];
        let run = p5_run(
            prev.a,
            prev.regions,
            tm.edges,
            tm.border,
            tm.index,
            tm.border_index,
            tm.delay,
            contrast,
            w,
            tw,
            th,
        );
        PipeState {
            a: run.0,
            regions: run.1,
            tiles: prev.tiles.update(
                t - 1,
                TileModel { index: run.2, border_index: run.3, delay: run.4, ..tm },
            ),
        }
    }
}

/// One deferred edge of the delay phase: the credit-based merge is
/// attempted unconditionally, with the border bookkeeping of the
/// threshold border phase.
pub open spec fn p6_step(
    a: AbsDsu,
    regions: Seq<Seq<(usize, bool)>>,
    e: Edge,
    contrast: int,
    w: int,
    tw: int,
    th: int,
) -> (AbsDsu, Seq<Seq<(usize, bool)>>) {
    let a2 = spec_union(a, contrast, e.node1 as int, e.node2 as int, e.weight as int);
    if un_merges(a, contrast, e.node1 as int, e.node2 as int, e.weight as int) {
        (
            a2,
            spec_remove_then_mark(
                regions,
                node_tile(e.node1 as int, w, tw, th),
                node_tile(e.node2 as int, w, tw, th),
                merge_winner(a, e.node1 as int, e.node2 as int) as usize,
                merge_loser(a, e.node1 as int, e.node2 as int) as usize,
            ),
        )
    } else {
        (a2, regions)
    }
}

/// The first `k` deferred edges folded through `p6_step`.
pub open spec fn p6_scan(
    a: AbsDsu,
    regions: Seq<Seq<(usize, bool)>>,
    delay: Seq<Edge>,
    k: int,
    contrast: int,
    w: int,
    tw: int,
    th: int,
) -> (AbsDsu, Seq<Seq<(usize, bool)>>)
    decreases k,
{
    if k <= 0 {
        (a, regions)
    } else {
        let prev = p6_scan(a, regions, delay, k - 1, contrast, w, tw, th);
        p6_step(prev.0, prev.1, delay[k - 1], contrast, w, tw, th)
    }
}

proof fn lemma_p6_tiles_keep(s: PipeState, t: int, c: int, w: int, tw: int, th: int)
    requires
        0 <= t,
    ensures
        p6_tiles(s, t, c, w, tw, th).tiles == s.tiles,
    decreases t,
{
    if t > 0 {
        lemma_p6_tiles_keep(s, t - 1, c, w, tw, th);
    }
}

/// The delay phase over the first `t` tiles: every queued edge of each
/// tile attempted, once, in queue order.
pub open spec fn p6_tiles(s: PipeState, t: int, contrast: int, w: int, tw: int, th: int) -> PipeState
    decreases t,
{
    if t <= 0 {
        s
    } else {
        let prev = p6_tiles(s, t - 1, contrast, w, tw, th);
        let res = p6_scan(
            prev.a,
            prev.regions,
            s.tiles[t - 1].delay,
            s.tiles[t - 1].delay.len() as int,
            contrast,
            w,
            tw,
            th,
        );
        PipeState { a: res.0, regions: res.1, tiles: prev.tiles }
    }
}

/// Fence invariant: during the heuristic phase no edge is merged while
/// either endpoint's current root is flagged active in the owning tile's
/// map — such an edge leaves the partition and the maps untouched and is
/// pushed onto the delay queue, where the delay phase later attempts it.
pub proof fn lemma_fence_invariant(
    a: AbsDsu,
    regions: Seq<Seq<(usize, bool)>>,
    delay: Seq<Edge>,
    e: Edge,
    contrast: int,
    w: int,
    tw: int,
    th: int,
)
    requires
        fenced(a, regions, e, w, tw, th),
    ensures
        p5_internal(a, regions, delay, e, contrast, w, tw, th) == (a, regions, delay.push(e)),
{
}

/// Delay-queue completeness: the delay phase attempts every edge that was
/// queued, exactly once and in order — its state after `k + 1` queued
/// edges is exactly one unconditional merge step past its state after
/// `k`.
pub proof fn lemma_delay_queue_completeness(
    a: AbsDsu,
    regions: Seq<Seq<(usize, bool)>>,
    delay: Seq<Edge>,
    k: int,
    contrast: int,
    w: int,
    tw: int,
    th: int,
)
    requires
        0 <= k < delay.len(),
    ensures
        p6_scan(a, regions, delay, k + 1, contrast, w, tw, th) == p6_step(
            p6_scan(a, regions, delay, k, contrast, w, tw, th).0,
            p6_scan(a, regions, delay, k, contrast, w, tw, th).1,
            delay[k],
            contrast,
            w,
            tw,
            th,
        ),
{
}

/// The credit records after the first `k` tracked roots of one tile's
/// map have had their credits computed eagerly (with seed weight 0) and
/// cached.
pub open spec fn p4_entries(a: AbsDsu, contrast: int, entries: Seq<(usize, bool)>, k: int) -> AbsDsu
    decreases k,
{
    if k <= 0 {
        a
    } else {
        let prev = p4_entries(a, contrast, entries, k - 1);
        let nd = entries[k - 1].0 as int;
        AbsDsu {
            cr: prev.cr.update(
                nd,
                Some(credit_formula(
                    seed_of(prev.se[prev.repr[nd]], 0),
                    contrast,
                    prev.size[prev.repr[nd]],
                )),
            ),
            ..prev
        }
    }
}

/// The eager credit phase over the first `t` tiles.
pub open spec fn p4_tiles(a: AbsDsu, contrast: int, regions: Seq<Seq<(usize, bool)>>, t: int) -> AbsDsu
    decreases t,
{
    if t <= 0 {
        a
    } else {
        p4_entries(
            p4_tiles(a, contrast, regions, t - 1),
            contrast,
            regions[t - 1],
            regions[t - 1].len() as int,
        )
    }
}

/// The activity-map bookkeeping after a cross-tile merge: the absorbed
/// root leaves both endpoint tiles' maps, and the surviving root is
/// marked active in whichever of the two does not already list it.
pub open spec fn spec_remove_then_mark(
    regions: Seq<Seq<(usize, bool)>>,
    t1: int,
    t2: int,
    win: usize,
    lose: usize,
) -> Seq<Seq<(usize, bool)>> {
    let r1 = regions.update(t1, am_remove(regions[t1], lose));
    let r2 = r1.update(t2, am_remove(r1[t2], lose));
    if am_get(r2[t1], win) is Some {
        r2.update(t2, am_set(r2[t2], win, true))
    } else {
        r2.update(t1, am_set(r2[t1], win, true))
    }
}

fn remove_then_mark(graph: &mut Graph, t1: usize, t2: usize, win: usize, lose: usize)
    requires
        old(graph).wf(),
        (t1 as int) < old(graph).regions@.len(),
        (t2 as int) < old(graph).regions@.len(),
        (win as int) < old(graph).dsu.nodes(),
        (lose as int) < old(graph).dsu.nodes(),
    ensures
        final(graph).wf(),
        final(graph).tiles@ == old(graph).tiles@,
        final(graph).width == old(graph).width,
        final(graph).height == old(graph).height,
        final(graph).tile_width == old(graph).tile_width,
        final(graph).tile_height == old(graph).tile_height,
        final(graph).dsu == old(graph).dsu,
        final(graph).pixel@ == old(graph).pixel@,
        final(graph).regions@.len() == old(graph).regions@.len(),
        final(graph).regions_model() == spec_remove_then_mark(
            old(graph).regions_model(),
            t1 as int,
            t2 as int,
            win,
            lose,
        ),
{
    let ghost n = graph.dsu.nodes() as int;
    let ghost r0 = graph.regions@[t1 as int].entries_seq();
    let mut map = RegionActivityMap::new();
    graph.regions.set_and_swap(t1, &mut map);
    map.remove(lose);
    graph.regions.set_and_swap(t1, &mut map);
    proof {
        lemma_am_remove_keys(r0, lose, n);
    }
    let ghost r1 = graph.regions@[t2 as int].entries_seq();
    let mut map2 = RegionActivityMap::new();
    graph.regions.set_and_swap(t2, &mut map2);
    map2.remove(lose);
    graph.regions.set_and_swap(t2, &mut map2);
    proof {
        lemma_am_remove_keys(r1, lose, n);
    }
    let listed = graph.regions[t1].get(win);
    match listed {
        Some(_) => {
            let ghost r2 = graph.regions@[t2 as int].entries_seq();
            let mut map3 = RegionActivityMap::new();
            graph.regions.set_and_swap(t2, &mut map3);
            map3.set(win, true);
            graph.regions.set_and_swap(t2, &mut map3);
            proof {
                lemma_am_set_keys(r2, win, true, n);
                assert(final(graph).regions_model() =~= spec_remove_then_mark(
                    old(graph).regions_model(),
                    t1 as int,
                    t2 as int,
                    win,
                    lose,
                ));
            }
        },
        None => {
            let ghost r2 = graph.regions@[t1 as int].entries_seq();
            let mut map3 = RegionActivityMap::new();
            graph.regions.set_and_swap(t1, &mut map3);
            map3.set(win, true);
            graph.regions.set_and_swap(t1, &mut map3);
            proof {
                lemma_am_set_keys(r2, win, true, n);
                assert(final(graph).regions_model() =~= spec_remove_then_mark(
                    old(graph).regions_model(),
                    t1 as int,
                    t2 as int,
                    win,
                    lose,
                ));
            }
        },
    }
}

/// The geometry and pixel grid of the graph, untouched by every phase.
pub open spec fn geometry_unchanged(a: Graph, b: Graph) -> bool {
    &&& b.width == a.width
    &&& b.height == a.height
    &&& b.tile_width == a.tile_width
    &&& b.tile_height == a.tile_height
    &&& b.pixel@ == a.pixel@
    &&& b.dsu.nodes() == a.dsu.nodes()
    &&& b.dsu.threshold_spec() == a.dsu.threshold_spec()
    &&& b.dsu.contrast_spec() == a.dsu.contrast_spec()
    &&& b.tiles@.len() == a.tiles@.len()
    &&& b.regions@.len() == a.regions@.len()
}

/// The model a tile leaves behind while swapped out for processing.
pub open spec fn empty_swap_model() -> TileModel {
    TileModel {
        edges: Seq::empty(),
        border: Seq::empty(),
        index: 0,
        border_index: 0,
        delay: Seq::empty(),
    }
}

} // verus!
