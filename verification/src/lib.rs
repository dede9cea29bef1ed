//! A quadtree of image tiles for browsing the Mandelbrot set: which tiles to compute next,
//! which to draw, and which to give up when graphics memory runs short.

pub mod compute;
pub mod coord;
pub mod device;
pub mod laws;
pub mod leaves;
pub mod locks;
pub mod memory;
pub mod model;
pub mod node;
pub mod pool;
pub mod quadtree;
pub mod swapchain;
pub mod window;
pub mod worker;
