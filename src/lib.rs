//! Isometric tile compositing over integer geometry.
//!
//! Tile faces are closed polygons with integer vertices, in thousandths of a
//! drawing unit. The library reads and writes them in a line-only path
//! notation, classifies points against
//! polygons by ray casting, trims geometry that a later tile covers, and lays
//! tiles out over a voxel grid in back-to-front order.

pub mod codec;
pub mod parser;
pub mod path;
pub mod scene;
pub mod shapes;
pub mod vector;
