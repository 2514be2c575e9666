//! Reactive execution core of a code notebook: per-cell name analysis, the
//! notebook-wide symbol scope, the dependency graph between cells, execution
//! planning and the messages exchanged with an out-of-process evaluator.

pub mod analysis;
pub mod ast;
pub mod cell;
pub mod errors;
pub mod graph;
pub mod kernel_client;
pub mod laws;
pub mod locals;
pub mod names;
pub mod notebook;
pub mod text;
pub mod topology;
pub mod statement;
pub mod statement_pos;
