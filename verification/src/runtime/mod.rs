//! The parse results that generated parsers build, and the decisions that
//! their parsing machine takes on them.
pub mod cache;
pub mod machine;
pub mod result;
pub mod stack;
pub mod work;
