//! Carina: the reference string of the nested-grid schemes.

pub mod laws;
pub mod srs;
