//! Escape-time rasters of the Mandelbrot iteration.
//!
//! The library owns the control of a render: which pixel is computed when, how
//! long a point is iterated, how an escape count becomes a grey level, and when
//! a raster can be encoded as an image file. The arithmetic on points of the
//! plane is the caller's: it is handed in as plain functions, and every
//! contract here is stated over what those functions return.
//!
//! - [`escape`]: the escape-time evaluator.
//! - [`shade`]: the grey scale.
//! - [`raster`]: the plotter that fills a buffer, pixel by pixel.
//! - [`encoding`]: the finished raster as a PNG file in memory.

pub mod encoding;
pub mod escape;
pub mod raster;
pub mod shade;

pub use encoding::{encode_image, png_dimensions, EncodeError};
pub use escape::{escape_time, Dynamics, ITERATION_LIMIT};
pub use raster::{pixel_offset, plot_madelbrot, render, RenderError};
pub use shade::intensity;
