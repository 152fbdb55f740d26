//! Verified building blocks of a CBOR (RFC 8949) codec.

pub mod float;
pub mod codec;
pub mod value;
pub mod canonical;
pub mod canonical_laws;
pub mod cdn;
pub mod hexfloat;
pub mod cli;
pub mod bench;
pub mod flatten;
pub mod derive_rules;
pub mod derive_analysis;
pub mod derive_bounds;
pub mod json;
pub mod json_text;
