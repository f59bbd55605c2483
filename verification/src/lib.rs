//! Pixel colour conversion and brightness balancing over flat RGBA buffers,
//! computed in exact integer arithmetic.

pub mod rounding;
pub mod hsv;
pub mod buffer;
pub mod luminance;
pub mod balance;
pub mod laws;

pub use balance::balance_lighting;
pub use buffer::BufferError;
pub use hsv::{hsv2rgb, rgb2hsv};
pub use luminance::{change_image_luminance, Scale};
