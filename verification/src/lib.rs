//! Beholder: a structural index of a codebase.

pub mod analysis;
pub mod code_graph;
pub mod config;
pub mod delta;
pub mod gitpr;
pub mod graph;
pub mod hash;
pub mod jsonl;
pub mod lang;
pub mod markdown;
pub mod oracle;
pub mod order;
pub mod parse;
pub mod phase1;
pub mod resolve;
pub mod sarif;
pub mod risk;
pub mod store;
pub mod symbol;
pub mod text;
pub mod tier0;
pub mod walk;

use vstd::prelude::*;

verus! {

/// Version of the record schemas beholder writes.
pub const SCHEMA_VERSION: u32 = 1;

/// Version of the tool that produced a result: the package's version.
pub const TOOL_VERSION: &'static str = "0.1.0";

} // verus!
