//! Rasterized line charts.
//!
//! A series of data points is checked and summarized by its bounds, each
//! axis is calibrated against those bounds and the size of the canvas, the
//! points are mapped onto pixels and joined into a gap-free line, and the
//! canvas is encoded as a palette-indexed bitmap.
//!
//! - [`graph`]: points, series, the chart and the rendering pipeline
//! - [`axis`]: calibration of one axis and the pixels of the drawn axis
//! - [`line`]: the gap-free line through a list of pixels
//! - [`canvas`]: painting on a buffer of palette indices
//! - [`bitmap`]: the palette and the encoding of the image
//! - [`layout`]: the fixed margins of a chart
//! - [`arith`]: rounded integer division

pub mod arith;
pub mod axis;
pub mod bitmap;
pub mod canvas;
pub mod graph;
pub mod layout;
pub mod line;

pub use crate::axis::Axis;
pub use crate::bitmap::BitMap;
