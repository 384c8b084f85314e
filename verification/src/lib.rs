//! A small library that resolves short command-line argument tuples into
//! shell command strings, drawn from a hierarchical, importable
//! configuration: a three-level namespace (domain, category, command name)
//! built by merging configuration documents with strict duplicate
//! detection, looked up by one of three addressing modes chosen by arity.

pub mod command;
pub mod config;
pub mod error;
pub mod loader;
