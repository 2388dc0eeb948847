//! Verified core of a file-backed issue tracker.
//!
//! Issues are records with an id, metadata and a body; the one subsystem
//! with real algorithmic content is the issue dependency graph: guarding
//! new edges against cycles, keeping forward (`depends_on`) and reverse
//! (`blocks`) edge lists consistent, finding existing cycles, the longest
//! dependency chain, reachability closures, and a layered layout for
//! rendering. This crate holds that logic, verified, together with the
//! plain record types and small utilities around it; file and terminal
//! I/O stay outside.

pub mod chain;
pub mod closure;
pub mod commands;
pub mod config;
pub mod cycles;
pub mod errors;
pub mod fuzzy;
pub mod graph;
pub mod issue;
pub mod layers;
pub mod mcp;
pub mod mutate;
pub mod storage;
pub mod strutil;
pub mod tui;
pub mod utils;
pub mod validators;
