//! Builders that create instructions in functions.

pub mod function_builder;
pub mod block_builder;
pub mod insert;
pub mod replace;

pub use insert::{BlockAppendInserter, InsertBuilder};
pub use replace::ReplaceBuilder;
