pub mod format;
pub mod image;
pub mod resize;
pub mod cache;
pub mod tiff;
pub mod svg;
pub mod codecs;
pub mod planar;
pub mod jxl_source;
pub mod jxl_options;
pub mod encode;
pub mod bundled;
pub mod decode;
pub mod info;
pub mod laws;
