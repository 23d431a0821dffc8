//! Spectral and cross entropy embedding of a graph of nearest neighbours.
pub mod dichotomy;
pub mod embedder;
pub mod entropy;
pub mod exact;
pub mod graph;
pub mod invariance;
pub mod laplacian;
pub mod matrix;
pub mod number;
pub mod scale;
pub mod sparse;
pub mod spectral;
pub mod summand;
pub mod symmetry;
pub mod unique;
