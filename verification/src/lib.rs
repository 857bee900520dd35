pub mod forest;
pub mod model;
pub mod color;
pub mod dsu;
pub mod graph;
pub mod parallel;
