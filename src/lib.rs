//! A pipeline core that turns a C project into a Rust package by running tools
//! against a shared, versioned intermediate representation (IR).
//!
//! - [id]: identifiers and their allocator.
//! - [repr], [tree]: the representations the IR holds.
//! - [ir]: immutable IR versions.
//! - [edit], [organizer]: per-invocation staging areas and the owner of the
//!   current version, which turns applied edits into new versions.
//! - [runner]: the scheduler's queue, the decision taken for each tool, and the
//!   table of running invocations.
//! - [diagnostics]: names and texts of the diagnostics directory.
//! - [tools], [cargo_output]: the built-in tools' decisions.
//! - [harness], [stats]: benchmark bookkeeping.
//! - [selection]: choosing a Rust collection for a C data structure.
pub mod cargo_output;
pub mod diagnostics;
pub mod edit;
pub mod harness;
pub mod id;
pub mod ir;
pub mod organizer;
pub mod repr;
pub mod runner;
pub mod selection;
pub mod stats;
pub mod tools;
pub mod tree;
