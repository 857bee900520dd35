use tileseg::graph::image::load_graph_from_pixels;
use tileseg::graph::kruskal::Kruskal;
use tileseg::parallel::algo::Algo;
use tileseg::parallel::dsu::DisjointSetUnion;
use tileseg::parallel::graph::{get_tile_id, load_tiled_graph_from_pixels};
use tileseg::parallel::regions::RegionActivityMap;

fn two_band_image() -> Vec<Vec<(u8, u8, u8)>> {
    vec![
        vec![(0, 0, 0), (0, 0, 0)],
        vec![(10, 0, 0), (10, 0, 0)],
    ]
}

#[test]
fn tile_id_by_row_major_blocks() {
    // An 8-wide grid in 4x2 tiles: two tiles per tile row.
    assert_eq!(get_tile_id(0, 0, 8, 4, 2), 0);
    assert_eq!(get_tile_id(0, 4, 8, 4, 2), 1);
    assert_eq!(get_tile_id(1, 3, 8, 4, 2), 0);
    assert_eq!(get_tile_id(3, 5, 8, 4, 2), 3);
}

#[test]
fn activity_map_tracks_flags() {
    let mut m = RegionActivityMap::new();
    assert_eq!(m.get(3), None);
    m.set(3, false);
    assert_eq!(m.get(3), Some(false));
    m.set(3, true);
    assert_eq!(m.get(3), Some(true));
    m.set(5, false);
    assert_eq!(m.len(), 2);
    m.remove(3);
    assert_eq!(m.get(3), None);
    assert_eq!(m.get(5), Some(false));
}

#[test]
fn concurrent_api_reports_winner_and_loser() {
    let mut dsu = DisjointSetUnion::new(3, 10_000, 0);
    // Equal sizes: the first argument's root survives.
    assert_eq!(dsu.union_threshold(0, 1, 500), Some((0, 1)));
    // The singleton then attaches beneath the larger component.
    assert_eq!(dsu.union_threshold(2, 0, 500), Some((0, 2)));
    assert_eq!(dsu.union_threshold(1, 2, 500), None);
    assert_eq!(dsu.find(2), 0);
}

#[test]
fn concurrent_find_is_idempotent() {
    let mut dsu = DisjointSetUnion::new(5, 10_000, 0);
    dsu.union_threshold(0, 1, 10);
    dsu.union_threshold(1, 2, 10);
    dsu.union_threshold(3, 4, 10);
    for i in 0..5usize {
        let r = dsu.find(i);
        assert_eq!(dsu.find(r), r);
    }
}

#[test]
fn eager_credit_matches_lazy_credit() {
    let mut dsu = DisjointSetUnion::new(2, 0, -3000);
    let c = dsu.compute_credit(0, 0);
    dsu.set_credit(0, c);
    assert_eq!(c, 21264);
}

#[test]
fn corner_tile_has_no_edges_past_the_boundary() {
    // Single-pixel tiles: every edge crosses a tile border, and the
    // corner pixel owns no edge at all.
    let pixels = two_band_image();
    let mut graph = load_tiled_graph_from_pixels(&pixels, 1, 1, 5000, 900_000_000);
    assert_eq!(graph.tiles.len(), 4);
    assert_eq!(graph.tiles[3].edges.len(), 0);
    assert_eq!(graph.tiles[3].border_edges.len(), 0);
    let algo = Algo::new();
    let _out = algo.apply(&mut graph);
    for t in 0..4 {
        assert_eq!(graph.tiles[t].delay_queue.len(), 0);
    }
}

#[test]
fn tiled_pipeline_splits_bands_like_the_sequential_one() {
    // One tile spanning the whole image, a starving contrast: both
    // pipelines stop at the threshold partition.
    let pixels = two_band_image();
    let graph = load_graph_from_pixels(&pixels, 2, 2);
    let mut seq = Kruskal::new(&graph, 5000, 900_000_000);
    let ind = seq.apply_threshold();
    let seq_out = seq.relabel(&pixels);
    seq.apply(ind);

    let mut tiled = load_tiled_graph_from_pixels(&pixels, 2, 2, 5000, 900_000_000);
    let algo = Algo::new();
    let tiled_out = algo.apply(&mut tiled);

    assert_eq!(seq_out, tiled_out);
    // The final tiled partition: one region per band.
    assert_eq!(tiled.dsu.find(0), tiled.dsu.find(1));
    assert_eq!(tiled.dsu.find(2), tiled.dsu.find(3));
    assert_ne!(tiled.dsu.find(0), tiled.dsu.find(2));
}

#[test]
fn tiled_threshold_above_distance_gives_one_region() {
    let pixels = two_band_image();
    let mut graph = load_tiled_graph_from_pixels(&pixels, 2, 1, 15000, 900_000_000);
    let algo = Algo::new();
    let out = algo.apply(&mut graph);
    for y in 0..2 {
        for x in 0..2 {
            assert_eq!(out[y][x], (5, 0, 0));
        }
    }
    let r = graph.dsu.find(0);
    for i in 1..4usize {
        assert_eq!(graph.dsu.find(i), r);
    }
}

#[test]
fn tiled_uniform_image_is_one_region() {
    let pixels = vec![vec![(9, 9, 9); 4]; 4];
    let mut graph = load_tiled_graph_from_pixels(&pixels, 2, 2, 1, 0);
    let algo = Algo::new();
    let out = algo.apply(&mut graph);
    for y in 0..4 {
        for x in 0..4 {
            assert_eq!(out[y][x], (9, 9, 9));
        }
    }
    let r = graph.dsu.find(0);
    for i in 1..16usize {
        assert_eq!(graph.dsu.find(i), r);
    }
}
