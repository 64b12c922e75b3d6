//! Image codecs and the pipeline around them.
pub mod jp2;
pub mod jpeg;
pub mod jxl;
pub mod math;
pub mod parallel;
pub mod pipeline;
pub mod processor;
pub mod raster;
pub mod request;
pub mod text;
pub mod vp8;
pub mod webp;
