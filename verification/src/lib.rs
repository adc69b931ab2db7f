//! A small software rasterizer core on integers.
//!
//! Pixels are packed `0xAARRGGBB` values in a row-major grid. The library
//! draws lines and flat triangles into such a grid, and depth-tested
//! triangles into a frame of a colour buffer and a fixed-point depth buffer,
//! so that a frame shows at every pixel the nearest face that covers it.
//! Around that it normalizes the depth of a frame's vertices, merges the
//! objects of a model into one mesh, and lays a colour buffer out as the
//! bytes of an RGBA image.

pub mod depth;
pub mod export;
pub mod frame;
pub mod geometry;
pub mod grid;
pub mod line;
pub mod mesh;
pub mod raster;
pub mod raster_fill;
pub mod raster_z;
pub mod scan;
pub mod visibility;
