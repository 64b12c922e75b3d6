pub mod backref;
pub mod bit_writer;
pub mod container_laws;
pub mod encoder;
pub mod frame;
pub mod huffman;
pub mod huffman_order;
pub mod pixel_stream;
pub mod pixels;
pub mod prefix_tree;
pub mod riff;
pub mod symbols;
pub mod yuv;
pub mod yuv_laws;
