//! The tiled pixel graph: the grid split into fixed-size rectangular
//! tiles, each owning the edges whose first endpoint it contains —
//! internal edges (both endpoints inside) and border edges (the second
//! endpoint outside) — with per-tile progress cursors, a delay queue, and
//! a region activity map.
use vstd::prelude::*;

use crate::graph::graph::grid_view;
use crate::graph::image::{edge_weight, in_bounds, neighbor_candidates, weight_between};
use crate::model::{NODE_MAX, W_MAX};
use crate::parallel::dsu::DisjointSetUnion;
use crate::parallel::regions::{am_set, RegionActivityMap};

verus! {

/// An undirected edge between two pixel nodes, with its fixed-point
/// weight.
#[derive(Debug, Clone, Copy)]
pub struct Edge {
    pub node1: usize,
    pub node2: usize,
    pub weight: i64,
}

/// A rectangular tile's share of the graph: its internal and border edge
/// lists, the two monotonic progress cursors, and the queue of edges
/// deferred past a fence.
#[derive(Debug)]
pub struct Tile {
    pub edges: Vec<Edge>,
    pub border_edges: Vec<Edge>,
    pub index: usize,
    pub border_index: usize,
    pub delay_queue: Vec<Edge>,
}

/// The mathematical image of one tile.
#[verifier::ext_equal]
pub ghost struct TileModel {
    pub edges: Seq<Edge>,
    pub border: Seq<Edge>,
    pub index: int,
    pub border_index: int,
    pub delay: Seq<Edge>,
}

impl Tile {
    /// The mathematical image of the tile.
    pub open spec fn model(self) -> TileModel {
        TileModel {
            edges: self.edges@,
            border: self.border_edges@,
            index: self.index as int,
            border_index: self.border_index as int,
            delay: self.delay_queue@,
        }
    }
}

/// The tile owning the pixel in row `x`, column `y`.
pub open spec fn tile_of(x: int, y: int, width: int, tile_width: int, tile_height: int) -> int {
    (x / tile_height) * (width / tile_width) + y / tile_width
}

/// A pixel's tile index lies under the tile count, which never exceeds
/// the node count.
pub proof fn lemma_tile_id_bound(x: int, y: int, w: int, h: int, tw: int, th: int)
    requires
        0 <= x < h,
        0 <= y < w,
        tw >= 1,
        th >= 1,
        w % tw == 0,
        h % th == 0,
    ensures
        0 <= tile_of(x, y, w, tw, th) < (w / tw) * (h / th),
        (w / tw) * (h / th) <= w * h,
{
    assert(0 <= x / th < h / th && 0 <= y / tw < w / tw) by (nonlinear_arith)
        requires
            0 <= x < h,
            0 <= y < w,
            tw >= 1,
            th >= 1,
            w % tw == 0,
            h % th == 0,
    ;
    assert((x / th) * (w / tw) + y / tw < (w / tw) * (h / th)) by (nonlinear_arith)
        requires
            0 <= x / th < h / th,
            0 <= y / tw < w / tw,
    ;
    assert((w / tw) * (h / th) <= w * h) by (nonlinear_arith)
        requires
            tw >= 1,
            th >= 1,
            w % tw == 0,
            h % th == 0,
            w >= 1,
            h >= 1,
    ;
}

/// Computes the tile owning the pixel in row `x`, column `y`.
pub fn get_tile_id(x: usize, y: usize, width: usize, tile_width: usize, tile_height: usize) -> (t:
    usize)
    requires
        tile_width >= 1,
        tile_height >= 1,
        (x as int / tile_height as int) * (width as int / tile_width as int) + (y as int
            / tile_width as int) <= NODE_MAX,
    ensures
        t as int == tile_of(x as int, y as int, width as int, tile_width as int,
            tile_height as int),
{
    proof {
        assert(0 <= (x as int / tile_height as int) && 0 <= (y as int / tile_width as int) && 0
            <= (width as int / tile_width as int));
        assert((x as int / tile_height as int) * (width as int / tile_width as int) >= 0)
            by (nonlinear_arith)
            requires
                0 <= (x as int / tile_height as int),
                0 <= (width as int / tile_width as int),
        ;
    }
    (x / tile_height) * (width / tile_width) + y / tile_width
}

/// The tiled graph: the tiles, the grid geometry, the per-tile activity
/// maps, the shared disjoint-set structure, and the pixel grid.
pub struct Graph {
    pub tiles: Vec<Tile>,
    pub width: usize,
    pub height: usize,
    pub tile_width: usize,
    pub tile_height: usize,
    pub regions: Vec<RegionActivityMap>,
    pub dsu: DisjointSetUnion,
    pub pixel: Vec<Vec<(u8, u8, u8)>>,
}

/// The mutable share of the graph that the pipeline's merge phases act
/// on: the partition state and the per-tile activity maps.
#[verifier::ext_equal]
pub ghost struct BuildState {
    pub edges: Seq<Seq<Edge>>,
    pub border: Seq<Seq<Edge>>,
    pub regions: Seq<Seq<(usize, bool)>>,
}

impl Graph {
    /// Number of tiles.
    pub open spec fn tile_count(self) -> int {
        (self.width as int / self.tile_width as int) * (self.height as int
            / self.tile_height as int)
    }

    /// The per-tile activity maps as association lists.
    pub open spec fn regions_model(self) -> Seq<Seq<(usize, bool)>> {
        Seq::new(self.regions@.len(), |t: int| self.regions@[t].entries_seq())
    }

    /// The tiles' edge and region data as one mathematical value.
    pub open spec fn build_state(self) -> BuildState {
        BuildState {
            edges: Seq::new(self.tiles@.len(), |t: int| self.tiles@[t].edges@),
            border: Seq::new(self.tiles@.len(), |t: int| self.tiles@[t].border_edges@),
            regions: self.regions_model(),
        }
    }

    /// Well-formedness: the geometry is consistent (tile dimensions
    /// divide the image's), the structure spans one node per pixel, and
    /// every stored edge, cursor and tracked root is in range.
    pub open spec fn wf(self) -> bool {
        &&& 1 <= self.width
        &&& 1 <= self.height
        &&& 1 <= self.tile_width
        &&& 1 <= self.tile_height
        &&& self.width as int % self.tile_width as int == 0
        &&& self.height as int % self.tile_height as int == 0
        &&& (self.width as int) * (self.height as int) <= NODE_MAX
        &&& self.dsu.wf()
        &&& self.dsu.nodes() == (self.width as int) * (self.height as int)
        &&& self.tiles@.len() == self.tile_count()
        &&& self.regions@.len() == self.tile_count()
        &&& forall|t: int, k: int|
            0 <= t < self.tiles@.len() && 0 <= k < self.tiles@[t].edges@.len()
                ==> edge_ok(#[trigger] self.tiles@[t].edges@[k], self.dsu.nodes() as int)
        &&& forall|t: int, k: int|
            0 <= t < self.tiles@.len() && 0 <= k < self.tiles@[t].border_edges@.len()
                ==> edge_ok(#[trigger] self.tiles@[t].border_edges@[k], self.dsu.nodes() as int)
        &&& forall|t: int, k: int|
            0 <= t < self.tiles@.len() && 0 <= k < self.tiles@[t].delay_queue@.len()
                ==> edge_ok(#[trigger] self.tiles@[t].delay_queue@[k], self.dsu.nodes() as int)
        &&& forall|t: int, k: int|
            0 <= t < self.regions@.len() && 0 <= k < self.regions@[t].entries_seq().len()
                ==> ((#[trigger] self.regions@[t].entries_seq()[k]).0 as int)
                    < self.dsu.nodes()
        &&& forall|t: int|
            0 <= t < self.tiles@.len() ==> (#[trigger] self.tiles@[t]).index
                <= self.tiles@[t].edges@.len() && self.tiles@[t].border_index
                <= self.tiles@[t].border_edges@.len()
        &&& self.pixel@.len() == self.height
        &&& forall|y: int| 0 <= y < self.pixel@.len() ==> (#[trigger] self.pixel@[y])@.len()
            == self.width
    }

    /// An empty tiled graph: every tile and activity map empty, every
    /// pixel black, one singleton component per pixel.
    pub fn new(
        width: usize,
        height: usize,
        tile_width: usize,
        tile_height: usize,
        threshold: i64,
        contrast: i64,
    ) -> (g: Graph)
        requires
            1 <= width,
            1 <= height,
            1 <= tile_width,
            1 <= tile_height,
            width as int % tile_width as int == 0,
            height as int % tile_height as int == 0,
            (width as int) * (height as int) <= NODE_MAX,
            -W_MAX <= threshold <= W_MAX,
            -W_MAX <= contrast <= W_MAX,
        ensures
            g.wf(),
            g.width == width,
            g.height == height,
            g.tile_width == tile_width,
            g.tile_height == tile_height,
            g.dsu.threshold_spec() == threshold as int,
            g.dsu.contrast_spec() == contrast as int,
            g.dsu.nodes() == (width as int) * (height as int),
            g.dsu.abs().repr == Seq::new(g.dsu.nodes(), |j: int| j),
            g.dsu.abs().size == Seq::new(g.dsu.nodes(), |j: int| 1int),
            g.dsu.abs().se == Seq::new(g.dsu.nodes(), |j: int| None::<int>),
            g.dsu.abs().cr == Seq::new(g.dsu.nodes(), |j: int| None::<int>),
            g.tiles@.len() == g.tile_count(),
            forall|t: int| 0 <= t < g.tiles@.len() ==> (#[trigger] g.tiles@[t]).model()
                == empty_tile_model(),
            forall|t: int| 0 <= t < g.regions@.len() ==> (#[trigger] g.regions@[t]).entries_seq()
                == Seq::<(usize, bool)>::empty(),
            forall|y: int| 0 <= y < height ==> (#[trigger] g.pixel@[y])@ == Seq::new(
                width as nat,
                |x: int| (0u8, 0u8, 0u8),
            ),
    {
        proof {
            lemma_tile_id_bound(0, 0, width as int, height as int, tile_width as int,
                tile_height as int);
            assert((width as int / tile_width as int) * (height as int / tile_height as int)
                <= NODE_MAX);
        }
        let num_tiles: usize = (width / tile_width) * (height / tile_height);
        let mut tiles: Vec<Tile> = Vec::new();
        let mut regions: Vec<RegionActivityMap> = Vec::new();
        let mut t: usize = 0;
        while t < num_tiles
            invariant
                t <= num_tiles,
                tiles@.len() == t,
                regions@.len() == t,
                forall|i: int| 0 <= i < t ==> (#[trigger] tiles@[i]).model()
                    == empty_tile_model(),
                forall|i: int| 0 <= i < t ==> (#[trigger] regions@[i]).entries_seq()
                    == Seq::<(usize, bool)>::empty(),
            decreases num_tiles - t,
        {
            tiles.push(Tile {
                edges: Vec::new(),
                border_edges: Vec::new(),
                index: 0,
                border_index: 0,
                delay_queue: Vec::new(),
            });
            regions.push(RegionActivityMap::new());
            t = t + 1;
        }
        let nodes: usize = width * height;
        let dsu = DisjointSetUnion::new(nodes, threshold, contrast);
        let mut pixel: Vec<Vec<(u8, u8, u8)>> = Vec::new();
        let mut y: usize = 0;
        while y < height
            invariant
                y <= height,
                pixel@.len() == y,
                forall|j: int| 0 <= j < y ==> (#[trigger] pixel@[j])@ == Seq::new(
                    width as nat,
                    |x: int| (0u8, 0u8, 0u8),
                ),
            decreases height - y,
        {
            let mut row: Vec<(u8, u8, u8)> = Vec::new();
            let mut x: usize = 0;
            while x < width
                invariant
                    x <= width,
                    row@.len() == x,
                    forall|k: int| 0 <= k < x ==> (#[trigger] row@[k]) == (0u8, 0u8, 0u8),
                decreases width - x,
            {
                row.push((0, 0, 0));
                x = x + 1;
            }
            proof {
                assert(row@ =~= Seq::new(width as nat, |x: int| (0u8, 0u8, 0u8)));
            }
            pixel.push(row);
            y = y + 1;
        }
        let g = Graph { tiles, width, height, tile_width, tile_height, regions, dsu, pixel };
        proof {
            assert(g.wf());
        }
        g
    }

    /// Appends an internal edge to the given tile's list.
    pub fn add_edge(&mut self, tile_idx: usize, node1: usize, node2: usize, weight: i64)
        requires
            (tile_idx as int) < old(self).tiles@.len(),
        ensures
            unchanged_but_tiles(*old(self), *final(self)),
            final(self).tiles@.len() == old(self).tiles@.len(),
            forall|t: int| 0 <= t < old(self).tiles@.len() && t != tile_idx as int
                ==> (#[trigger] final(self).tiles@[t]).model() == old(self).tiles@[t].model(),
            final(self).tiles@[tile_idx as int].model() == (TileModel {
                edges: old(self).tiles@[tile_idx as int].edges@.push(
                    Edge { node1, node2, weight },
                ),
                ..old(self).tiles@[tile_idx as int].model()
            }),
    {
        let mut tile = Tile {
            edges: Vec::new(),
            border_edges: Vec::new(),
            index: 0,
            border_index: 0,
            delay_queue: Vec::new(),
        };
        self.tiles.set_and_swap(tile_idx, &mut tile);
        tile.edges.push(Edge { node1, node2, weight });
        self.tiles.set_and_swap(tile_idx, &mut tile);
    }

    /// Appends a border edge to the given tile's list.
    pub fn add_border_edge(&mut self, tile_idx: usize, node1: usize, node2: usize, weight: i64)
        requires
            (tile_idx as int) < old(self).tiles@.len(),
        ensures
            unchanged_but_tiles(*old(self), *final(self)),
            final(self).tiles@.len() == old(self).tiles@.len(),
            forall|t: int| 0 <= t < old(self).tiles@.len() && t != tile_idx as int
                ==> (#[trigger] final(self).tiles@[t]).model() == old(self).tiles@[t].model(),
            final(self).tiles@[tile_idx as int].model() == (TileModel {
                border: old(self).tiles@[tile_idx as int].border_edges@.push(
                    Edge { node1, node2, weight },
                ),
                ..old(self).tiles@[tile_idx as int].model()
            }),
    {
        let mut tile = Tile {
            edges: Vec::new(),
            border_edges: Vec::new(),
            index: 0,
            border_index: 0,
            delay_queue: Vec::new(),
        };
        self.tiles.set_and_swap(tile_idx, &mut tile);
        tile.border_edges.push(Edge { node1, node2, weight });
        self.tiles.set_and_swap(tile_idx, &mut tile);
    }

    /// Registers `region` in the given tile's activity map, unfenced.
    pub fn add_region(&mut self, tile_idx: usize, region: usize)
        requires
            (tile_idx as int) < old(self).regions@.len(),
        ensures
            final(self).tiles@ == old(self).tiles@,
            final(self).width == old(self).width,
            final(self).height == old(self).height,
            final(self).tile_width == old(self).tile_width,
            final(self).tile_height == old(self).tile_height,
            final(self).dsu == old(self).dsu,
            final(self).pixel@ == old(self).pixel@,
            final(self).regions@.len() == old(self).regions@.len(),
            forall|t: int| 0 <= t < old(self).regions@.len() && t != tile_idx as int
                ==> (#[trigger] final(self).regions@[t]).entries_seq()
                    == old(self).regions@[t].entries_seq(),
            final(self).regions@[tile_idx as int].entries_seq() == am_set(
                old(self).regions@[tile_idx as int].entries_seq(),
                region,
                false,
            ),
    {
        let mut map = RegionActivityMap::new();
        self.regions.set_and_swap(tile_idx, &mut map);
        map.set(region, false);
        self.regions.set_and_swap(tile_idx, &mut map);
    }
}

/// Everything of the graph but the tiles is untouched.
pub open spec fn unchanged_but_tiles(a: Graph, b: Graph) -> bool {
    &&& b.width == a.width
    &&& b.height == a.height
    &&& b.tile_width == a.tile_width
    &&& b.tile_height == a.tile_height
    &&& b.dsu == a.dsu
    &&& b.pixel@ == a.pixel@
    &&& b.regions@ == a.regions@
}

/// One pixel's first `t` neighbor candidates folded into the tile edge
/// lists: an in-bounds candidate becomes an internal edge of the pixel's
/// tile when both endpoints share it, else a border edge there.
pub open spec fn tb_pixel_step(
    s: BuildState,
    pix: Seq<Seq<(u8, u8, u8)>>,
    w: int,
    h: int,
    tw: int,
    th: int,
    x: int,
    y: int,
    t: int,
) -> BuildState
    decreases t,
{
    if t <= 0 {
        s
    } else {
        let prev = tb_pixel_step(s, pix, w, h, tw, th, x, y, t - 1);
        let c = neighbor_candidates(x, y)[t - 1];
        if in_bounds(c.0, c.1, w, h) {
            let e = Edge {
                node1: (x * w + y) as usize,
                node2: (c.0 * w + c.1) as usize,
                weight: edge_weight(pix[x][y], pix[c.0][c.1]) as i64,
            };
            let t1 = tile_of(x, y, w, tw, th);
            let t2 = tile_of(c.0, c.1, w, tw, th);
            if t1 == t2 {
                BuildState { edges: prev.edges.update(t1, prev.edges[t1].push(e)), ..prev }
            } else {
                BuildState { border: prev.border.update(t1, prev.border[t1].push(e)), ..prev }
            }
        } else {
            prev
        }
    }
}

/// The tile data after the first `k` pixels, row-major, have been
/// registered in their tiles' activity maps and folded their neighbor
/// candidates in.
pub open spec fn tb_steps(
    pix: Seq<Seq<(u8, u8, u8)>>,
    w: int,
    h: int,
    tw: int,
    th: int,
    k: int,
) -> BuildState
    decreases k,
{
    if k <= 0 {
        BuildState {
            edges: Seq::new(((w / tw) * (h / th)) as nat, |t: int| Seq::empty()),
            border: Seq::new(((w / tw) * (h / th)) as nat, |t: int| Seq::empty()),
            regions: Seq::new(((w / tw) * (h / th)) as nat, |t: int| Seq::empty()),
        }
    } else {
        let prev = tb_steps(pix, w, h, tw, th, k - 1);
        let x = (k - 1) / w;
        let y = (k - 1) % w;
        let t1 = tile_of(x, y, w, tw, th);
        let with_region = BuildState {
            regions: prev.regions.update(t1, am_set(prev.regions[t1], (k - 1) as usize, false)),
            ..prev
        };
        tb_pixel_step(with_region, pix, w, h, tw, th, x, y, 4)
    }
}

/// The tile data of the whole grid.
pub open spec fn spec_tiled_build(
    pix: Seq<Seq<(u8, u8, u8)>>,
    w: int,
    h: int,
    tw: int,
    th: int,
) -> BuildState {
    tb_steps(pix, w, h, tw, th, w * h)
}

/// Builds the tiled graph of a decoded grid: each pixel is registered in
/// its tile's activity map, and every in-bounds neighbor edge is assigned
/// to the tile of its first endpoint, internal or border by whether the
/// second endpoint shares the tile.
#[verifier::rlimit(100)]
pub fn load_tiled_graph_from_pixels(
    pixels: &Vec<Vec<(u8, u8, u8)>>,
    tile_width: usize,
    tile_height: usize,
    threshold: i64,
    contrast: i64,
) -> (g: Graph)
    requires
        1 <= pixels@.len(),
        1 <= pixels@[0]@.len(),
        forall|y: int| 0 <= y < pixels@.len() ==> (#[trigger] pixels@[y])@.len()
            == pixels@[0]@.len(),
        1 <= tile_width,
        1 <= tile_height,
        pixels@[0]@.len() as int % tile_width as int == 0,
        pixels@.len() as int % tile_height as int == 0,
        pixels@[0]@.len() * pixels@.len() <= NODE_MAX,
        -W_MAX <= threshold <= W_MAX,
        -W_MAX <= contrast <= W_MAX,
    ensures
        g.wf(),
        g.width == pixels@[0]@.len(),
        g.height == pixels@.len(),
        g.tile_width == tile_width,
        g.tile_height == tile_height,
        g.dsu.threshold_spec() == threshold as int,
        g.dsu.contrast_spec() == contrast as int,
        g.dsu.nodes() == (g.width as int) * (g.height as int),
        g.dsu.abs().repr == Seq::new(g.dsu.nodes(), |j: int| j),
        g.dsu.abs().size == Seq::new(g.dsu.nodes(), |j: int| 1int),
        g.dsu.abs().se == Seq::new(g.dsu.nodes(), |j: int| None::<int>),
        g.dsu.abs().cr == Seq::new(g.dsu.nodes(), |j: int| None::<int>),
        grid_view(g.pixel@) == grid_view(pixels@),
        g.build_state() == spec_tiled_build(
            grid_view(pixels@),
            g.width as int,
            g.height as int,
            tile_width as int,
            tile_height as int,
        ),
        forall|t: int| 0 <= t < g.tiles@.len() ==> (#[trigger] g.tiles@[t]).model().index == 0
            && g.tiles@[t].model().border_index == 0 && g.tiles@[t].model().delay
            == Seq::<Edge>::empty(),
{
    let height = pixels.len();
    let width = pixels[0].len();
    let mut g = Graph::new(width, height, tile_width, tile_height, threshold, contrast);
    let ghost pixv = grid_view(pixels@);
    let ghost wi = width as int;
    let ghost hi = height as int;
    let ghost twi = tile_width as int;
    let ghost thi = tile_height as int;
    let mut pixel: Vec<Vec<(u8, u8, u8)>> = Vec::new();
    let mut cx: usize = 0;
    while cx < height
        invariant
            cx <= height,
            pixels@.len() == height,
            forall|y: int| 0 <= y < pixels@.len() ==> (#[trigger] pixels@[y])@.len() == width,
            pixel@.len() == cx,
            forall|j: int| 0 <= j < cx ==> (#[trigger] pixel@[j])@ == pixels@[j]@,
        decreases height - cx,
    {
        let mut row: Vec<(u8, u8, u8)> = Vec::new();
        let mut cy: usize = 0;
        while cy < width
            invariant
                cx < height,
                cy <= width,
                pixels@.len() == height,
                forall|y: int| 0 <= y < pixels@.len() ==> (#[trigger] pixels@[y])@.len() == width,
                row@ == pixels@[cx as int]@.subrange(0, cy as int),
            decreases width - cy,
        {
            row.push(pixels[cx][cy]);
            proof {
                assert(row@ =~= pixels@[cx as int]@.subrange(0, cy + 1));
            }
            cy = cy + 1;
        }
        proof {
            assert(row@ =~= pixels@[cx as int]@);
        }
        pixel.push(row);
        cx = cx + 1;
    }
    g.pixel = pixel;
    proof {
        assert(grid_view(g.pixel@) =~~= pixv);
        assert(g.wf());
        assert(g.build_state() =~~= tb_steps(pixv, wi, hi, twi, thi, 0));
    }
    let mut ux: usize = 0;
    while ux < height
        invariant
            ux <= height,
            pixels@.len() == height,
            forall|y: int| 0 <= y < pixels@.len() ==> (#[trigger] pixels@[y])@.len() == width,
            pixv == grid_view(pixels@),
            wi == width as int,
            hi == height as int,
            twi == tile_width as int,
            thi == tile_height as int,
            1 <= wi,
            1 <= hi,
            1 <= twi,
            1 <= thi,
            wi % twi == 0,
            hi % thi == 0,
            wi * hi <= NODE_MAX,
            g.wf(),
            g.width == width,
            g.height == height,
            g.tile_width == tile_width,
            g.tile_height == tile_height,
            g.dsu.threshold_spec() == threshold as int,
            g.dsu.contrast_spec() == contrast as int,
            g.dsu.nodes() == wi * hi,
            g.dsu.abs().repr == Seq::new(g.dsu.nodes(), |j: int| j),
            g.dsu.abs().size == Seq::new(g.dsu.nodes(), |j: int| 1int),
            g.dsu.abs().se == Seq::new(g.dsu.nodes(), |j: int| None::<int>),
            g.dsu.abs().cr == Seq::new(g.dsu.nodes(), |j: int| None::<int>),
            grid_view(g.pixel@) == pixv,
            g.build_state() == tb_steps(pixv, wi, hi, twi, thi, (ux as int) * wi),
            forall|t: int| 0 <= t < g.tiles@.len() ==> (#[trigger] g.tiles@[t]).model().index == 0
                && g.tiles@[t].model().border_index == 0 && g.tiles@[t].model().delay
                == Seq::<Edge>::empty(),
        decreases height - ux,
    {
        let mut uy: usize = 0;
        proof {
            crate::model::lemma_rowmajor(ux as int, 0, wi, hi);
        }
        while uy < width
            invariant
                ux < height,
                uy <= width,
                pixels@.len() == height,
                forall|y: int| 0 <= y < pixels@.len() ==> (#[trigger] pixels@[y])@.len() == width,
                pixv == grid_view(pixels@),
                wi == width as int,
                hi == height as int,
                twi == tile_width as int,
                thi == tile_height as int,
                1 <= wi,
                1 <= hi,
                1 <= twi,
                1 <= thi,
                wi % twi == 0,
                hi % thi == 0,
                wi * hi <= NODE_MAX,
                g.wf(),
                g.width == width,
                g.height == height,
                g.tile_width == tile_width,
                g.tile_height == tile_height,
                g.dsu.threshold_spec() == threshold as int,
                g.dsu.contrast_spec() == contrast as int,
                g.dsu.nodes() == wi * hi,
                g.dsu.abs().repr == Seq::new(g.dsu.nodes(), |j: int| j),
                g.dsu.abs().size == Seq::new(g.dsu.nodes(), |j: int| 1int),
                g.dsu.abs().se == Seq::new(g.dsu.nodes(), |j: int| None::<int>),
                g.dsu.abs().cr == Seq::new(g.dsu.nodes(), |j: int| None::<int>),
                grid_view(g.pixel@) == pixv,
                g.build_state() == tb_steps(pixv, wi, hi, twi, thi, (ux as int) * wi + uy as int),
                forall|t: int| 0 <= t < g.tiles@.len() ==> (#[trigger] g.tiles@[t]).model().index
                    == 0 && g.tiles@[t].model().border_index == 0 && g.tiles@[t].model().delay
                    == Seq::<Edge>::empty(),
            decreases width - uy,
        {
            proof {
                crate::model::lemma_rowmajor(ux as int, uy as int, wi, hi);
                lemma_tile_id_bound(ux as int, uy as int, wi, hi, twi, thi);
            }
            let node1: usize = ux * width + uy;
            let tile_idx = get_tile_id(ux, uy, width, tile_width, tile_height);
            let p1 = pixels[ux][uy];
            let ghost k = (ux as int) * wi + uy as int;
            let ghost gx = ux as int;
            let ghost gy = uy as int;
            let ghost r0 = g.regions@[tile_idx as int].entries_seq();
            g.add_region(tile_idx, node1);
            proof {
                crate::parallel::regions::lemma_am_set_keys(r0, node1, false, wi * hi);
            }
            let ghost b0 = g.build_state();
            proof {
                assert(b0 =~~= ({
                    let prev = tb_steps(pixv, wi, hi, twi, thi, k);
                    BuildState {
                        regions: prev.regions.update(
                            tile_of(gx, gy, wi, twi, thi),
                            am_set(prev.regions[tile_of(gx, gy, wi, twi, thi)], node1, false),
                        ),
                        ..prev
                    }
                }));
                assert(tb_pixel_step(b0, pixv, wi, hi, twi, thi, gx, gy, 0) == b0);
            }
            if ux + 1 < height {
                proof {
                    crate::model::lemma_rowmajor(gx + 1, gy, wi, hi);
                    lemma_tile_id_bound(gx + 1, gy, wi, hi, twi, thi);
                }
                let p2 = pixels[ux + 1][uy];
                let wgt = weight_between(p1, p2);
                let n2: usize = (ux + 1) * width + uy;
                let t2 = get_tile_id(ux + 1, uy, width, tile_width, tile_height);
                if tile_idx == t2 {
                    g.add_edge(tile_idx, node1, n2, wgt);
                } else {
                    g.add_border_edge(tile_idx, node1, n2, wgt);
                }
            }
            proof {
                assert(g.build_state() =~~= tb_pixel_step(b0, pixv, wi, hi, twi, thi, gx, gy, 1));
            }
            if uy + 1 < width {
                proof {
                    crate::model::lemma_rowmajor(gx, gy + 1, wi, hi);
                    lemma_tile_id_bound(gx, gy + 1, wi, hi, twi, thi);
                }
                let p2 = pixels[ux][uy + 1];
                let wgt = weight_between(p1, p2);
                let n2: usize = ux * width + (uy + 1);
                let t2 = get_tile_id(ux, uy + 1, width, tile_width, tile_height);
                if tile_idx == t2 {
                    g.add_edge(tile_idx, node1, n2, wgt);
                } else {
                    g.add_border_edge(tile_idx, node1, n2, wgt);
                }
            }
            proof {
                assert(g.build_state() =~~= tb_pixel_step(b0, pixv, wi, hi, twi, thi, gx, gy, 2));
            }
            if ux + 1 < height && uy + 1 < width {
                proof {
                    crate::model::lemma_rowmajor(gx + 1, gy + 1, wi, hi);
                    lemma_tile_id_bound(gx + 1, gy + 1, wi, hi, twi, thi);
                }
                let p2 = pixels[ux + 1][uy + 1];
                let wgt = weight_between(p1, p2);
                let n2: usize = (ux + 1) * width + (uy + 1);
                let t2 = get_tile_id(ux + 1, uy + 1, width, tile_width, tile_height);
                if tile_idx == t2 {
                    g.add_edge(tile_idx, node1, n2, wgt);
                } else {
                    g.add_border_edge(tile_idx, node1, n2, wgt);
                }
            }
            proof {
                assert(g.build_state() =~~= tb_pixel_step(b0, pixv, wi, hi, twi, thi, gx, gy, 3));
            }
            if ux + 1 < height && uy >= 1 {
                proof {
                    crate::model::lemma_rowmajor(gx + 1, gy - 1, wi, hi);
                    lemma_tile_id_bound(gx + 1, gy - 1, wi, hi, twi, thi);
                }
                let p2 = pixels[ux + 1][uy - 1];
                let wgt = weight_between(p1, p2);
                let n2: usize = (ux + 1) * width + (uy - 1);
                let t2 = get_tile_id(ux + 1, uy - 1, width, tile_width, tile_height);
                if tile_idx == t2 {
                    g.add_edge(tile_idx, node1, n2, wgt);
                } else {
                    g.add_border_edge(tile_idx, node1, n2, wgt);
                }
            }
            proof {
                assert(g.build_state() =~~= tb_pixel_step(b0, pixv, wi, hi, twi, thi, gx, gy, 4));
                assert(g.build_state() == tb_steps(pixv, wi, hi, twi, thi, k + 1));
            }
            uy = uy + 1;
        }
        proof {
            crate::model::lemma_rowmajor(ux as int, 0, wi, hi);
            assert((ux as int) * wi + wi == (ux as int + 1) * wi);
        }
        ux = ux + 1;
    }
    proof {
        assert((height as int) * wi == wi * hi) by (nonlinear_arith)
            requires wi == width as int, hi == height as int;
    }
    g
}


/// The model of a freshly built tile.
pub open spec fn empty_tile_model() -> TileModel {
    TileModel {
        edges: Seq::empty(),
        border: Seq::empty(),
        index: 0,
        border_index: 0,
        delay: Seq::empty(),
    }
}

/// Whether an edge's endpoints and weight are admissible for `n` nodes.
pub open spec fn edge_ok(e: Edge, n: int) -> bool {
    (e.node1 as int) < n && (e.node2 as int) < n && 0 <= e.weight <= W_MAX
}

} // verus!
