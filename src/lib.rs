//! Adaptive level-of-detail terrain streaming: a quadtree index over an
//! unbounded world, bounded LRU caches, mesh welding and the decisions of a
//! resumable chunk generation pipeline.
pub mod base;
pub mod tree;
pub mod cache;
pub mod mesh;
pub mod chunk;
pub mod chunk_mesh;
pub mod terrain;
