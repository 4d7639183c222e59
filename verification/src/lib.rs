//! Core of a code index.

use vstd::prelude::*;

pub mod daemon_core;
pub mod federation;
pub mod indexer;
pub mod json;
pub mod keyed;
pub mod logging;
pub mod mcp;
pub mod parser;
pub mod paths;
pub mod serve_cache;
pub mod serve_cache_history;
pub mod serve_dedup;
pub mod text;

verus! {

} // verus!
