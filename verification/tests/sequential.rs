use tileseg::graph::dsu::DisjointSetUnion;
use tileseg::graph::image::{load_graph_from_pixels, weight_between};
use tileseg::graph::kruskal::Kruskal;
use tileseg::model::{credit_value, isqrt};

fn two_band_image() -> Vec<Vec<(u8, u8, u8)>> {
    // Two pixels of color A on the top row, two of color B below;
    // the bands are RGB distance 10 (fixed point: 10000) apart.
    vec![
        vec![(0, 0, 0), (0, 0, 0)],
        vec![(10, 0, 0), (10, 0, 0)],
    ]
}

#[test]
fn isqrt_exact_values() {
    assert_eq!(isqrt(0), 0);
    assert_eq!(isqrt(1), 1);
    assert_eq!(isqrt(3), 1);
    assert_eq!(isqrt(4), 2);
    assert_eq!(isqrt(25_000_000), 5000);
    assert_eq!(isqrt(12_566_371), 3544);
    assert_eq!(isqrt(u64::MAX), 4_294_967_295);
}

#[test]
fn weight_is_scaled_euclidean_distance() {
    assert_eq!(weight_between((0, 0, 0), (0, 0, 0)), 0);
    assert_eq!(weight_between((0, 0, 0), (3, 4, 0)), 5000);
    assert_eq!(weight_between((0, 0, 0), (10, 0, 0)), 10000);
    assert_eq!(weight_between((1, 1, 1), (2, 2, 2)), 1732);
    assert_eq!(weight_between((255, 255, 255), (0, 0, 0)), 441672);
}

#[test]
fn credit_formula_exact_values() {
    // (seed - 2 * contrast) * sqrt(4 * pi * size), in fixed point.
    assert_eq!(credit_value(0, -3000, 1), 21264);
    assert_eq!(credit_value(1000, -3000, 4), 49623);
    // A large positive contrast drives the budget negative.
    assert!(credit_value(0, 500_000_000, 1) < 0);
}

#[test]
fn find_is_idempotent() {
    let mut dsu = DisjointSetUnion::new(6, 10_000, -3000);
    for i in 0..6usize {
        assert_eq!(dsu.find(i), i);
    }
    dsu.union_threshold(0, 1, 500);
    dsu.union_threshold(1, 2, 500);
    for i in 0..6usize {
        let r = dsu.find(i);
        assert_eq!(dsu.find(r), r);
    }
}

#[test]
fn union_threshold_merges_strictly_under_threshold() {
    let mut dsu = DisjointSetUnion::new(4, 1000, 0);
    assert!(dsu.union_threshold(0, 1, 999));
    assert_eq!(dsu.find(0), dsu.find(1));
    assert!(!dsu.union_threshold(2, 3, 1000));
    assert_ne!(dsu.find(2), dsu.find(3));
    assert!(!dsu.union_threshold(2, 3, 1001));
    assert_ne!(dsu.find(2), dsu.find(3));
    // Already one component: no merge is reported.
    assert!(!dsu.union_threshold(0, 1, 1));
}

#[test]
fn union_spends_credit() {
    // Negative contrast grants a positive budget: the merge goes through.
    let mut dsu = DisjointSetUnion::new(2, 0, -3000);
    dsu.union(0, 1, 1000);
    assert_eq!(dsu.find(0), dsu.find(1));
    // A large positive contrast starves the budget: no merge.
    let mut dsu2 = DisjointSetUnion::new(2, 0, 900_000_000);
    dsu2.union(0, 1, 1000);
    assert_ne!(dsu2.find(0), dsu2.find(1));
}

#[test]
fn credit_query_uses_component_size() {
    let mut dsu = DisjointSetUnion::new(4, 100_000, -3000);
    // Singleton component, no smallest-edge record: seed is the weight.
    assert_eq!(dsu.credit(0, 0), 21264);
    assert_eq!(dsu.credit(1, 1000), (7000 * 3544) / 1000);
}

#[test]
fn credit_seed_is_read_at_the_root() {
    let mut dsu = DisjointSetUnion::new(3, 100_000, -3000);
    assert!(dsu.union_threshold(0, 1, 100));
    // The merged component's record (100) seeds the budget for every
    // member, root or not; the supplied weight is only a fallback.
    // (100 + 6000) * isqrt(4 * pi * 10^6 * 2) / 1000 = 6100 * 5013 / 1000.
    assert_eq!(dsu.credit(0, 777), 30579);
    assert_eq!(dsu.credit(1, 777), 30579);
    // A component that never merged still falls back to the weight.
    assert_eq!(dsu.credit(2, 0), 21264);
}

#[test]
fn threshold_below_distance_yields_two_regions() {
    let pixels = two_band_image();
    let graph = load_graph_from_pixels(&pixels, 2, 2);
    let mut algo = Kruskal::new(&graph, 5000, -3000);
    let _ind = algo.apply_threshold();
    let out = algo.relabel(&pixels);
    assert_eq!(out[0][0], (0, 0, 0));
    assert_eq!(out[0][1], (0, 0, 0));
    assert_eq!(out[1][0], (10, 0, 0));
    assert_eq!(out[1][1], (10, 0, 0));
}

#[test]
fn threshold_above_distance_yields_one_region() {
    let pixels = two_band_image();
    let graph = load_graph_from_pixels(&pixels, 2, 2);
    let mut algo = Kruskal::new(&graph, 15000, -3000);
    let _ind = algo.apply_threshold();
    let out = algo.relabel(&pixels);
    // One region: every pixel carries the mean (0+0+10+10)/4 = 5 red.
    for y in 0..2 {
        for x in 0..2 {
            assert_eq!(out[y][x], (5, 0, 0));
        }
    }
}

#[test]
fn uniform_image_yields_one_region() {
    let pixels = vec![vec![(7, 8, 9); 3]; 3];
    let graph = load_graph_from_pixels(&pixels, 3, 3);
    let mut algo = Kruskal::new(&graph, 1, 0);
    let ind = algo.apply_threshold();
    let out = algo.relabel(&pixels);
    for y in 0..3 {
        for x in 0..3 {
            assert_eq!(out[y][x], (7, 8, 9));
        }
    }
    // Every edge has weight zero, strictly under any positive threshold.
    assert_eq!(ind, algo.edge_count());
}

#[test]
fn refinement_after_cut_can_merge_remaining_edges() {
    let pixels = two_band_image();
    let graph = load_graph_from_pixels(&pixels, 2, 2);
    // Threshold keeps the bands apart; the credit budget then joins them.
    let mut algo = Kruskal::new(&graph, 5000, -3000);
    let ind = algo.apply_threshold();
    algo.apply(ind);
    let out = algo.relabel(&pixels);
    for y in 0..2 {
        for x in 0..2 {
            assert_eq!(out[y][x], (5, 0, 0));
        }
    }
}

#[test]
fn relabel_averages_channels_exactly() {
    let pixels = vec![
        vec![(1, 2, 3), (2, 3, 4)],
        vec![(3, 4, 5), (10, 11, 12)],
    ];
    let graph = load_graph_from_pixels(&pixels, 2, 2);
    let mut algo = Kruskal::new(&graph, 900_000_000, 0);
    let _ind = algo.apply_threshold();
    let out = algo.relabel(&pixels);
    // One region; sums 16, 20, 24 over 4 pixels, rounded down.
    for y in 0..2 {
        for x in 0..2 {
            assert_eq!(out[y][x], (4, 5, 6));
        }
    }
}
