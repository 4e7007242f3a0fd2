//! Revius: a content-addressed, single-file version control system.
//!
//! This crate holds the verified core of the system: object encodings,
//! tree construction, three-way merge planning, history traversal,
//! status computation and configuration handling.
mod error;
pub mod text;
pub mod hash;
pub mod merge;
pub mod graph;
pub mod paths;
pub mod models;
pub mod status;
pub mod switch;
pub mod refs;
pub mod branch;
pub mod resolve;
pub mod tree;
pub mod commit;
pub mod log;
pub mod config;
pub mod content;
pub mod workspace;
pub mod repository;
pub mod config_manager;
pub mod gc;
pub mod cli;
pub mod display;

pub use error::ReviusError;
