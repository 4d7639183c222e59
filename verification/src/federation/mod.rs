//! Nodes that serve each other's repositories.

use vstd::prelude::*;

pub mod client;
pub mod reload;
pub mod server;

verus! {

/// A repository that a node knows.
#[derive(Debug, Clone)]
pub struct RepoEntry {
    /// Where a local repository stands.
    pub root_path: Option<String>,
    /// The node that serves it.
    pub ip: String,
    pub port: u16,
    /// Whether this node serves it.
    pub is_local: bool,
    pub language: Option<String>,
}

} // verus!
