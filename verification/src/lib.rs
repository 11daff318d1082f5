//! A parsing expression grammar compiler: loads a grammar's instruction
//! graph, checks it, optimizes it and emits the code of a parser.

pub mod compiler;
pub mod ordered_set;
pub mod output;
pub mod runtime;
pub mod store;
pub mod text;
pub mod tools;
