//! Building the pixel graph from a decoded pixel grid: each pixel is a
//! node; edges run to the right, lower, lower-right and lower-left
//! neighbors (out-of-bounds candidates are silently skipped), weighted by
//! the Euclidean RGB distance in fixed point (scaled by 1000).
use vstd::prelude::*;

use crate::graph::graph::{grid_view, Graph};
use crate::model::{sqrt_floor, NODE_MAX, W_MAX};

verus! {

/// Squared Euclidean distance between two RGB triples.
pub open spec fn dist2(p1: (u8, u8, u8), p2: (u8, u8, u8)) -> int {
    let dr = p1.0 as int - p2.0 as int;
    let dg = p1.1 as int - p2.1 as int;
    let db = p1.2 as int - p2.2 as int;
    dr * dr + dg * dg + db * db
}

/// The fixed-point edge weight between two pixels: the Euclidean RGB
/// distance scaled by 1000, rounded down.
pub open spec fn edge_weight(p1: (u8, u8, u8), p2: (u8, u8, u8)) -> int {
    sqrt_floor(1_000_000 * dist2(p1, p2))
}

/// Computes the fixed-point edge weight between two pixels.
pub fn weight_between(p1: (u8, u8, u8), p2: (u8, u8, u8)) -> (w: i64)
    ensures
        w as int == edge_weight(p1, p2),
        0 <= w <= W_MAX,
{
    let dr: i64 = p1.0 as i64 - p2.0 as i64;
    let dg: i64 = p1.1 as i64 - p2.1 as i64;
    let db: i64 = p1.2 as i64 - p2.2 as i64;
    proof {
        assert(dr * dr <= 65025 && 0 <= dr * dr) by (nonlinear_arith)
            requires -255 <= dr <= 255;
        assert(dg * dg <= 65025 && 0 <= dg * dg) by (nonlinear_arith)
            requires -255 <= dg <= 255;
        assert(db * db <= 65025 && 0 <= db * db) by (nonlinear_arith)
            requires -255 <= db <= 255;
    }
    let d2: i64 = dr * dr + dg * dg + db * db;
    let arg: u64 = 1_000_000u64 * (d2 as u64);
    let r = crate::model::isqrt(arg);
    proof {
        assert(r <= 450_000) by (nonlinear_arith)
            requires
                (r as int) * (r as int) <= arg as int,
                arg <= 195_075_000_000u64,
        ;
    }
    r as i64
}

/// Both directions of the undirected edge `(u, v)` of weight `w` added
/// to the adjacency lists, `u`'s entry first.
pub open spec fn push2(adj: Seq<Seq<(u32, i64)>>, u: int, v: int, w: int) -> Seq<Seq<(u32, i64)>> {
    let a1 = adj.update(u, adj[u].push((v as u32, w as i64)));
    a1.update(v, a1[v].push((u as u32, w as i64)))
}

/// The four neighbor candidates of the pixel in row `x`, column `y`:
/// below, right, lower-right, lower-left.
pub open spec fn neighbor_candidates(x: int, y: int) -> Seq<(int, int)> {
    seq![(x + 1, y), (x, y + 1), (x + 1, y + 1), (x + 1, y - 1)]
}

/// Whether a candidate coordinate lies on the grid.
pub open spec fn in_bounds(nx: int, ny: int, width: int, height: int) -> bool {
    0 <= nx < height && 0 <= ny < width
}

/// The adjacency lists after the pixel in row `x`, column `y` has
/// processed its first `t` neighbor candidates.
pub open spec fn pixel_step(
    adj: Seq<Seq<(u32, i64)>>,
    pix: Seq<Seq<(u8, u8, u8)>>,
    width: int,
    height: int,
    x: int,
    y: int,
    t: int,
) -> Seq<Seq<(u32, i64)>>
    decreases t,
{
    if t <= 0 {
        adj
    } else {
        let prev = pixel_step(adj, pix, width, height, x, y, t - 1);
        let c = neighbor_candidates(x, y)[t - 1];
        if in_bounds(c.0, c.1, width, height) {
            push2(
                prev,
                x * width + y,
                c.0 * width + c.1,
                edge_weight(pix[x][y], pix[c.0][c.1]),
            )
        } else {
            prev
        }
    }
}

/// The adjacency lists after the first `k` pixels, in row-major order,
/// have processed all their neighbor candidates.
pub open spec fn build_steps(
    pix: Seq<Seq<(u8, u8, u8)>>,
    width: int,
    height: int,
    k: int,
) -> Seq<Seq<(u32, i64)>>
    decreases k,
{
    if k <= 0 {
        Seq::new((width * height) as nat, |j: int| Seq::empty())
    } else {
        pixel_step(
            build_steps(pix, width, height, k - 1),
            pix,
            width,
            height,
            (k - 1) / width,
            (k - 1) % width,
            4,
        )
    }
}

/// The adjacency lists of the whole grid.
pub open spec fn spec_adjacency(pix: Seq<Seq<(u8, u8, u8)>>, width: int, height: int) -> Seq<
    Seq<(u32, i64)>,
> {
    build_steps(pix, width, height, width * height)
}

/// Builds the pixel graph of a decoded grid: copies the pixels, then
/// walks them in row-major order adding each pixel's in-bounds neighbor
/// edges with their fixed-point weights.
pub fn load_graph_from_pixels(pixels: &Vec<Vec<(u8, u8, u8)>>, width: u32, height: u32) -> (g:
    Graph)
    requires
        width >= 1,
        height >= 1,
        (width as int) * (height as int) <= NODE_MAX,
        pixels@.len() == height,
        forall|y: int| 0 <= y < height ==> (#[trigger] pixels@[y])@.len() == width,
    ensures
        g.wf(),
        g.nodes as int == width as int * height as int,
        g.dimensions == (height, width),
        grid_view(g.pixel@) == grid_view(pixels@),
        grid_view(g.adj_list@) == spec_adjacency(grid_view(pixels@), width as int, height as int),
{
    let nodes: u32 = width * height;
    let mut pixel: Vec<Vec<(u8, u8, u8)>> = Vec::new();
    let mut x: usize = 0;
    while x < height as usize
        invariant
            x <= height,
            pixels@.len() == height,
            forall|y: int| 0 <= y < height ==> (#[trigger] pixels@[y])@.len() == width,
            pixel@.len() == x,
            forall|j: int| 0 <= j < x ==> (#[trigger] pixel@[j])@ == pixels@[j]@,
        decreases height - x,
    {
        let mut row: Vec<(u8, u8, u8)> = Vec::new();
        let mut yy: usize = 0;
        while yy < width as usize
            invariant
                x < height,
                yy <= width,
                pixels@.len() == height,
                forall|y: int| 0 <= y < height ==> (#[trigger] pixels@[y])@.len() == width,
                row@ == pixels@[x as int]@.subrange(0, yy as int),
            decreases width - yy,
        {
            row.push(pixels[x][yy]);
            proof {
                assert(row@ =~= pixels@[x as int]@.subrange(0, yy + 1));
            }
            yy = yy + 1;
        }
        proof {
            assert(row@ =~= pixels@[x as int]@);
        }
        pixel.push(row);
        x = x + 1;
    }
    let mut adj_list: Vec<Vec<(u32, i64)>> = Vec::new();
    let mut u: u32 = 0;
    while u < nodes
        invariant
            u <= nodes,
            adj_list@.len() == u,
            forall|j: int| 0 <= j < u ==> (#[trigger] adj_list@[j])@.len() == 0,
        decreases nodes - u,
    {
        adj_list.push(Vec::new());
        u = u + 1;
    }
    let mut g = Graph { dimensions: (height, width), pixel, nodes, adj_list };
    let ghost pixv = grid_view(pixels@);
    let ghost wi = width as int;
    let ghost hi = height as int;
    proof {
        assert(grid_view(g.pixel@) =~~= pixv);
        assert(grid_view(g.adj_list@) =~~= build_steps(pixv, wi, hi, 0));
        assert(g.wf());
    }
    let mut ux: u32 = 0;
    while ux < height
        invariant
            ux <= height,
            pixels@.len() == height,
            forall|y: int| 0 <= y < height ==> (#[trigger] pixels@[y])@.len() == width,
            pixv == grid_view(pixels@),
            wi == width as int,
            hi == height as int,
            1 <= wi,
            1 <= hi,
            nodes as int == wi * hi,
            g.wf(),
            g.nodes == nodes,
            g.dimensions == (height, width),
            grid_view(g.pixel@) == pixv,
            grid_view(g.adj_list@) == build_steps(pixv, wi, hi, (ux as int) * wi),
        decreases height - ux,
    {
        let mut uy: u32 = 0;
        proof {
            crate::model::lemma_rowmajor(ux as int, 0, wi, hi);
        }
        while uy < width
            invariant
                ux < height,
                uy <= width,
                pixels@.len() == height,
                forall|y: int| 0 <= y < height ==> (#[trigger] pixels@[y])@.len() == width,
                pixv == grid_view(pixels@),
                wi == width as int,
                hi == height as int,
                1 <= wi,
                1 <= hi,
                nodes as int == wi * hi,
                g.wf(),
                g.nodes == nodes,
                g.dimensions == (height, width),
                grid_view(g.pixel@) == pixv,
                grid_view(g.adj_list@) == build_steps(pixv, wi, hi, (ux as int) * wi + uy as int),
            decreases width - uy,
        {
            proof {
                crate::model::lemma_rowmajor(ux as int, uy as int, wi, hi);
            }
            let node1: u32 = ux * width + uy;
            let p1 = pixels[ux as usize][uy as usize];
            let ghost k = (ux as int) * wi + uy as int;
            let ghost adj0 = grid_view(g.adj_list@);
            let ghost gx = ux as int;
            let ghost gy = uy as int;
            proof {
                assert(pixel_step(adj0, pixv, wi, hi, gx, gy, 0) == adj0);
            }
            if ux + 1 < height {
                proof {
                    crate::model::lemma_rowmajor(gx + 1, gy, wi, hi);
                }
                let p2 = pixels[(ux + 1) as usize][uy as usize];
                let wgt = weight_between(p1, p2);
                g.add_edge(node1, (ux + 1) * width + uy, wgt);
            }
            proof {
                assert(grid_view(g.adj_list@) =~~= pixel_step(adj0, pixv, wi, hi, gx, gy, 1));
            }
            let ghost adj1 = grid_view(g.adj_list@);
            if uy + 1 < width {
                proof {
                    crate::model::lemma_rowmajor(gx, gy + 1, wi, hi);
                }
                let p2 = pixels[ux as usize][(uy + 1) as usize];
                let wgt = weight_between(p1, p2);
                g.add_edge(node1, ux * width + (uy + 1), wgt);
            }
            proof {
                assert(grid_view(g.adj_list@) =~~= pixel_step(adj0, pixv, wi, hi, gx, gy, 2));
            }
            let ghost adj2 = grid_view(g.adj_list@);
            if ux + 1 < height && uy + 1 < width {
                proof {
                    crate::model::lemma_rowmajor(gx + 1, gy + 1, wi, hi);
                }
                let p2 = pixels[(ux + 1) as usize][(uy + 1) as usize];
                let wgt = weight_between(p1, p2);
                g.add_edge(node1, (ux + 1) * width + (uy + 1), wgt);
            }
            proof {
                assert(grid_view(g.adj_list@) =~~= pixel_step(adj0, pixv, wi, hi, gx, gy, 3));
            }
            let ghost adj3 = grid_view(g.adj_list@);
            if ux + 1 < height && uy >= 1 {
                proof {
                    crate::model::lemma_rowmajor(gx + 1, gy - 1, wi, hi);
                }
                let p2 = pixels[(ux + 1) as usize][(uy - 1) as usize];
                let wgt = weight_between(p1, p2);
                g.add_edge(node1, (ux + 1) * width + (uy - 1), wgt);
            }
            proof {
                assert(grid_view(g.adj_list@) =~~= pixel_step(adj0, pixv, wi, hi, gx, gy, 4));
                crate::model::lemma_rowmajor(gx, gy, wi, hi);
                assert(build_steps(pixv, wi, hi, k + 1) == pixel_step(
                    build_steps(pixv, wi, hi, k),
                    pixv,
                    wi,
                    hi,
                    k / wi,
                    k % wi,
                    4,
                ));
                assert(grid_view(g.adj_list@) == build_steps(pixv, wi, hi, k + 1));
            }
            uy = uy + 1;
        }
        proof {
            crate::model::lemma_rowmajor(ux as int, 0, wi, hi);
            assert((ux as int) * wi + wi == (ux as int + 1) * wi);
        }
        ux = ux + 1;
    }
    proof {
        assert((height as int) * wi == wi * hi) by (nonlinear_arith)
            requires wi == width as int, hi == height as int;
        assert(grid_view(g.adj_list@) == spec_adjacency(pixv, wi, hi));
    }
    g
}

} // verus!
