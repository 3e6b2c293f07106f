//! Intermediate representation (IR) for a small compiler targeting RISC-V
//! microcontrollers: types, entities, instruction data, block/instruction
//! layout, functions, control-flow and dominance analysis, a text parser and
//! a verifier, with their behaviour stated and proved with Verus.

pub mod types;
pub mod entity;
pub mod value;

pub use entity::{Block as BlockEntity, EntityRef, Inst as InstEntity};
pub use types::Type;
pub use value::Value;
pub mod entity_map;
pub use entity_map::PrimaryMap;
pub mod sourceloc;
pub mod signature;
pub mod block;
pub mod condcodes;
pub mod trapcode;
pub use block::BlockData;
pub use signature::Signature;
pub mod layout;
pub mod text;
pub mod dfg;
pub use dfg::{BlockArgs, Immediate, InstData, Opcode, DFG};
pub mod function;
pub use function::Function;
pub mod module;
pub use module::Module;
pub mod inst;
pub mod printer;
pub mod builder;
pub use inst::Inst;
pub mod parser;
pub use layout::Layout;
pub mod analysis;
pub use analysis::{ControlFlowGraph, DominatorTree};
pub mod ir_verifier;
pub mod transform;
pub use builder::{
    block_builder::BlockBuilder, function_builder::FunctionBuilder, BlockAppendInserter, InsertBuilder,
    ReplaceBuilder,
};
pub use ir_verifier::{
    entities::verify_entities, flow::verify_cfg, format::verify_format, params::verify_dominance,
    ssa::verify_ssa, types::verify_types, verify, verify_module, VerifierError,
};
pub use parser::{parse_function, parse_module, ParseError};
pub use transform::fixed_point::{convert_floats_to_fixed16x16, TransformError};
