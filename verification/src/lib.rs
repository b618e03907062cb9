//! Rendering the Mandelbrot set as a black and white image.
//!
//! The image is divided into horizontal bands ([`bands`]), each band is
//! filled pixel by pixel ([`render`]) with the shade that the escape-time
//! test ([`escape`]) gives for the pixel's point, and the finished image is
//! encoded as a PNG file ([`encode`]). The numbers of a rendering are read
//! from texts such as `"1500x750"` and `"-1.0,1.25"` ([`parse`]).
//!
//! The arithmetic on the points of the plane is the caller's: it is handed
//! to `render` and `escape_time` as functions.

pub mod bands;
pub mod encode;
pub mod escape;
pub mod parse;
pub mod render;

pub use crate::bands::{plan_bands, rows_per_band, split_bands, Band};
pub use crate::encode::{encode_image, EncodeError};
pub use crate::escape::escape_time;
pub use crate::parse::{complex_of, pair_of, parse_complex, parse_pair, split_pair};
pub use crate::render::{render, shade, BLACK, WHITE};
