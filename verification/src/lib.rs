//! Checkpoint and restore procedures for WebAssembly modules and components.
//!
//! A function is divided into regions. Behind each region the variables that
//! matter are stored in a memory of their own, and the host is asked whether the
//! computation is to migrate. On another host the function is started anew, and
//! resumes with the variables that it finds in that memory.

pub mod balance;
pub mod benchmarks;
pub mod bodies;
pub mod body;
pub mod codegen;
pub mod component;
pub mod contents;
pub mod encoder;
pub mod execution;
pub mod host;
pub mod inject;
pub mod instruction;
pub mod laws;
pub mod layout;
pub mod leb;
pub mod machine;
pub mod migrate;
pub mod module;
pub mod partition;
pub mod payload;
pub mod plan;
pub mod reader;
pub mod reading;
pub mod record;
pub mod regions;
pub mod results;
pub mod section;
pub mod transfers;
pub mod tree;
pub mod types;
pub mod variables;

pub use crate::migrate::{ComputationInfo, WasmMigrate};
