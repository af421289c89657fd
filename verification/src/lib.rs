//! Deterministic values, evaluation and bytecode checks for the Velin
//! scripting language.

pub mod text;

pub mod value;
pub mod syntax;
pub mod builtins;
pub mod compile;
pub mod builder;
pub mod metrics;
pub mod eval;
pub mod slots;
pub mod types;
pub mod bytecode;
pub mod program;
pub mod validate;
pub mod cfg;
pub mod flow;
pub mod debug;
pub mod loads;
pub mod cli;
pub mod abstract_eval;
pub mod ir;
pub mod metadata;
pub mod definite;
pub mod checks;
pub mod host;
pub mod frame;
