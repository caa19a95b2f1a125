//! Verified building blocks of pairing-based multilinear polynomial
//! commitment schemes over BLS12-381.

pub mod batching;
pub mod batching_laws;
pub mod batching_soundness;
pub mod bdfg;
pub mod bdfg_laws;
pub mod bench;
pub mod carina;
pub mod chopin;
pub mod dims;
pub mod errors;
pub mod field;
pub mod gemini;
pub mod grid;
pub mod group;
pub mod kzg;
pub mod laurent;
pub mod mercury;
pub mod mulcs;
pub mod nested_grid_kzg;
pub mod poly;
pub mod quadratic;
pub mod recipcs;
pub mod reciprocal;
pub mod reciprocal_laws;
pub mod serving;
pub mod single_opening;
pub mod tensor;
pub mod transcript;
pub mod transcript_laws;
