//! Scaffolding engine: maps a nested configuration tree to filesystem tasks and back.
//!
//! The engine is pure. It turns a configuration tree into tasks, says how a task list
//! is carried out step by step, and turns the listing of a directory back into a
//! tree. Reading and writing the disk is left to the caller.

pub mod apply;
pub mod config;
pub mod errors;
pub mod info;
pub mod materialize;
pub mod output;
pub mod path;
pub mod snapshot;
pub mod tasks;
pub mod text;
pub mod utils;
pub mod value;

pub use crate::apply::{ApplyResult, SnapshotResult};
pub use crate::config::{SkeletorConfig, SkeletorMetadata};
pub use crate::errors::SkeletorError;
