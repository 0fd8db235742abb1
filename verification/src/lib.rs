//! An on-screen annotation overlay engine: a captured raster image is panned
//! and zoomed under a smoothly animated, invertible screen-to-image mapping,
//! freehand strokes are drawn, committed and erased on a vector model and
//! baked onto a canvas, and every output frame is composed per pixel with an
//! optional spotlight that dims everything outside a radius around the
//! pointer.  All scalars are decimal fixed-point integers, so every contract
//! is exact.
pub mod brush;
pub mod engine;
pub mod fixed;
pub mod raster;
pub mod render;
pub mod stroke;
pub mod view;
