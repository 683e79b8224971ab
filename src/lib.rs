//! A small library for 2D drawing: anti-aliased lines and rectangles on an
//! in-memory RGB8 image, with conversion to and from raw bytes.
pub mod codec;
pub mod geometry;
pub mod image_rgb8;
pub mod pixels;

pub use image_rgb8::{ImageError, ImageRGB8};
