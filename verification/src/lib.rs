//! Palette quantization of RGBA images.
//!
//! An image of four 8-bit channels per pixel is reduced to at most a given
//! number of colors: a histogram of its distinct colors is partitioned into
//! clusters, each cluster gives one palette entry, and every pixel is mapped
//! to its nearest entry, optionally with error diffusion. All arithmetic is
//! on integers, so the result is a function of the inputs alone.

pub mod assemble;
pub mod cluster;
pub mod color;
pub mod diffusion;
pub mod error;
pub mod histogram;
pub mod image;
pub mod invariants;
pub mod level;
pub mod mapper;
pub mod palette;
pub mod partition;
pub mod quantize;

pub use assemble::assemble_output;
pub use cluster::construct_palette;
pub use color::Pixel;
pub use error::QuantizeError;
pub use histogram::{build_histogram, ColorHistogram};
pub use image::Image;
pub use level::decode_level;
pub use mapper::map_pixels;
pub use palette::Palette;
pub use quantize::{check_request, quantize};
