pub mod block;
pub mod block_transform;
pub mod compact;
pub mod decision_laws;
pub mod dequant;
pub mod dequant_rows;
pub mod epf;
pub mod filter_laws;
pub mod error;
pub mod f16;
pub mod frame_error;
pub mod gabor;
pub mod grid;
pub mod group_direct;
pub mod group_grids;
pub mod group_result;
pub mod group_slabs;
pub mod group_task;
pub mod group_transform;
pub mod hf_coeff;
pub mod hf_decode;
pub mod hf_direct_laws;
pub mod hf_laws;
pub mod hf_store;
pub mod hf_tables;
pub mod image_transform;
pub mod jpeg_data;
pub mod jpeg_encode;
pub mod jpeg_laws;
pub mod jpeg_recode;
pub mod layout_laws;
pub mod lf_stage;
pub mod noise;
pub mod pass_group;
pub mod plane_blocks;
pub mod recode_laws;
pub mod region;
pub mod render;
pub mod render_error;
pub mod render_frame;
pub mod render_group;
pub mod symbols;
pub mod value_laws;
pub mod varblocks;
