//! A software rasterizer: integer-exact triangle and line rasterization on an
//! RGB pixel grid, depth-buffered fills, and a binary image codec with a
//! run-length-compressed variant.

pub mod codec;
pub mod color;
pub mod geom;
pub mod image;
pub mod line;
pub mod mesh;
pub mod zbuffer;
