//! The adjacency-weighted pixel graph the sequential pipeline runs over:
//! one node per pixel, undirected edges held in per-node adjacency lists.
use vstd::prelude::*;

use crate::model::{NODE_MAX, W_MAX};

verus! {

/// The element-wise view of a grid: each row replaced by its own view.
pub open spec fn grid_view<T>(v: Seq<Vec<T>>) -> Seq<Seq<T>> {
    Seq::new(v.len(), |i: int| v[i]@)
}

/// The pixel graph: dimensions, the pixel grid itself, and per-node
/// adjacency lists of `(neighbor, weight)` entries.
pub struct Graph {
    /// `(height, width)` of the image.
    pub dimensions: (u32, u32),
    /// The pixel grid, `height` rows of `width` RGB triples.
    pub pixel: Vec<Vec<(u8, u8, u8)>>,
    /// Number of nodes: one per pixel.
    pub nodes: u32,
    /// Per-node `(neighbor, weight)` entries; every edge appears in both
    /// endpoints' lists.
    pub adj_list: Vec<Vec<(u32, i64)>>,
}

impl Graph {
    /// Well-formedness: the node count matches the grid, every adjacency
    /// entry points at a node, and every weight is an admissible
    /// fixed-point value.
    pub open spec fn wf(self) -> bool {
        &&& self.nodes as int == (self.dimensions.1 as int) * (self.dimensions.0 as int)
        &&& self.nodes as int <= NODE_MAX
        &&& self.adj_list@.len() == self.nodes
        &&& self.pixel@.len() == self.dimensions.0
        &&& forall|y: int| 0 <= y < self.pixel@.len()
            ==> (#[trigger] self.pixel@[y])@.len() == self.dimensions.1
        &&& forall|u: int, k: int|
            0 <= u < self.adj_list@.len() && 0 <= k < self.adj_list@[u]@.len()
                ==> ((#[trigger] self.adj_list@[u]@[k]).0 < self.nodes
                    && 0 <= self.adj_list@[u]@[k].1 <= W_MAX)
    }

    /// An empty graph over `nodes` pixels of a `width` by `height` grid.
    pub fn new(nodes: u32, width: u32, height: u32) -> (g: Graph)
        requires
            nodes as int == width as int * height as int,
            nodes as int <= NODE_MAX,
        ensures
            g.wf(),
            g.nodes == nodes,
            g.dimensions == (height, width),
            g.adj_list@.len() == nodes,
            forall|u: int| 0 <= u < nodes ==> (#[trigger] g.adj_list@[u])@.len() == 0,
            g.pixel@.len() == height,
            forall|y: int| 0 <= y < height ==> (#[trigger] g.pixel@[y])@.len() == width
                && forall|x: int| 0 <= x < width ==> g.pixel@[y]@[x] == (0u8, 0u8, 0u8),
    {
        let mut adj_list: Vec<Vec<(u32, i64)>> = Vec::new();
        let mut u: u32 = 0;
        while u < nodes
            invariant
                u <= nodes,
                adj_list@.len() == u,
                forall|j: int| 0 <= j < u ==> (#[trigger] adj_list@[j])@.len() == 0,
            decreases nodes - u,
        {
            adj_list.push(Vec::new());
            u = u + 1;
        }
        let mut pixel: Vec<Vec<(u8, u8, u8)>> = Vec::new();
        let mut y: u32 = 0;
        while y < height
            invariant
                y <= height,
                pixel@.len() == y,
                forall|j: int| 0 <= j < y ==> (#[trigger] pixel@[j])@.len() == width
                    && forall|x: int| 0 <= x < width ==> pixel@[j]@[x] == (0u8, 0u8, 0u8),
            decreases height - y,
        {
            let mut row: Vec<(u8, u8, u8)> = Vec::new();
            let mut x: u32 = 0;
            while x < width
                invariant
                    x <= width,
                    row@.len() == x,
                    forall|k: int| 0 <= k < x ==> (#[trigger] row@[k]) == (0u8, 0u8, 0u8),
                decreases width - x,
            {
                row.push((0, 0, 0));
                x = x + 1;
            }
            pixel.push(row);
            y = y + 1;
        }
        Graph { dimensions: (height, width), pixel, nodes, adj_list }
    }

    /// Records the undirected edge `(u, v)` of weight `w` in both
    /// endpoints' adjacency lists, `u`'s first.
    pub fn add_edge(&mut self, u: u32, v: u32, w: i64)
        requires
            old(self).wf(),
            u < old(self).nodes,
            v < old(self).nodes,
            0 <= w <= W_MAX,
        ensures
            final(self).wf(),
            final(self).nodes == old(self).nodes,
            final(self).dimensions == old(self).dimensions,
            final(self).pixel@ == old(self).pixel@,
            grid_view(final(self).adj_list@) == ({
                let a0 = grid_view(old(self).adj_list@);
                let a1 = a0.update(u as int, a0[u as int].push((v, w)));
                a1.update(v as int, a1[v as int].push((u, w)))
            }),
    {
        let ghost a0 = grid_view(self.adj_list@);
        let mut row: Vec<(u32, i64)> = Vec::new();
        self.adj_list.set_and_swap(u as usize, &mut row);
        row.push((v, w));
        self.adj_list.set_and_swap(u as usize, &mut row);
        proof {
            assert(grid_view(self.adj_list@) =~= a0.update(u as int, a0[u as int].push((v, w))));
        }
        let ghost a1 = grid_view(self.adj_list@);
        let mut row2: Vec<(u32, i64)> = Vec::new();
        self.adj_list.set_and_swap(v as usize, &mut row2);
        row2.push((u, w));
        self.adj_list.set_and_swap(v as usize, &mut row2);
        proof {
            assert(grid_view(self.adj_list@) =~= a1.update(v as int, a1[v as int].push((u, w))));
        }
    }

    /// Stores the RGB triple of the pixel in row `x`, column `y`.
    pub fn set_pixel(&mut self, pixel: (u8, u8, u8), x: u32, y: u32)
        requires
            old(self).wf(),
            x < old(self).dimensions.0,
            y < old(self).dimensions.1,
        ensures
            final(self).wf(),
            final(self).nodes == old(self).nodes,
            final(self).dimensions == old(self).dimensions,
            final(self).adj_list@ == old(self).adj_list@,
            grid_view(final(self).pixel@) == grid_view(old(self).pixel@).update(
                x as int,
                grid_view(old(self).pixel@)[x as int].update(y as int, pixel),
            ),
    {
        let ghost p0 = grid_view(self.pixel@);
        let mut row: Vec<(u8, u8, u8)> = Vec::new();
        self.pixel.set_and_swap(x as usize, &mut row);
        row.set(y as usize, pixel);
        self.pixel.set_and_swap(x as usize, &mut row);
        proof {
            assert(grid_view(self.pixel@) =~= p0.update(
                x as int,
                p0[x as int].update(y as int, pixel),
            ));
        }
    }
}

} // verus!
