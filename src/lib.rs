//! A small software rasterizer: an RGBA framebuffer, Bresenham lines and
//! scanline triangle fill on integer coordinates, the painter's pass that
//! culls, depth-sorts and draws shaded screen-space faces, the animation
//! clock, and the plain-text forms of pixels and images.

pub mod bitmap;
pub mod clock;
pub mod fill;
pub mod pixel;
pub mod raster;
pub mod render;
pub mod text;
