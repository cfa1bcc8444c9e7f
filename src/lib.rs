//! A file-based task log: dated sections of checkbox tasks with nested notes,
//! a per-tag ID allocator, and the document edits that add, complete and
//! annotate tasks.
pub mod error;
pub mod parser;
pub mod text;
pub mod state;
pub mod config;
pub mod writer;
pub mod parse_facts;
