pub mod arith;
pub mod bool_coder;
pub mod coeff_probs;
pub mod encoder;
pub mod header_laws;
pub mod macroblock;
pub mod order_laws;
pub mod partitions;
pub mod picture;
pub mod planes;
pub mod quant_tables;
pub mod tables;
pub mod tokens;
pub mod transform;
pub mod transform_laws;
pub mod update_probs;
