//! Control flow and dominance analysis.

pub mod cfg;
pub mod dominance;
pub mod paths;
pub mod sorted;

pub use cfg::ControlFlowGraph;
pub use dominance::DominatorTree;
