pub mod dsu;
pub mod algo;
pub mod graph;
pub mod regions;
