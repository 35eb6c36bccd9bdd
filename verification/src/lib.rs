//! The integer core of a tile-based Monte Carlo path tracer: the frame
//! buffers that receive display-encoded colors, the partition of an image
//! into tiles, the configuration of a render, and the bookkeeping of a light
//! path.
//!
//! Every function here is verified, but for the few in `raster` that call
//! the `image` crate: their contracts are taken on trust and say so. The
//! floating-point geometry and shading that drive a render live with the
//! caller.

pub mod path;
pub mod pixels;
pub mod raster;
pub mod renderer;
pub mod tiles;
