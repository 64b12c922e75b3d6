//! JPEG pixel conversion.
pub mod color_convert;
pub mod color_laws;
