pub mod dsu;
pub mod graph;
pub mod image;
pub mod kruskal;
