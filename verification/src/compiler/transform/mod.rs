//! The passes that transform a loaded parser.

pub mod expected_inference;
pub mod trim;
pub mod normalize;
pub mod cache;
pub mod components;
pub mod dedup;
pub mod finish;
pub mod sort;
