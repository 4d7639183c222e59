//! Extraction of functions, classes, imports, calls and variables from source text.

use vstd::prelude::*;

pub mod bsl;
pub mod bsl_laws;
pub mod c;
pub mod c_laws;
pub mod c_sharp;
pub mod c_sharp_laws;
pub mod callee;
pub mod cpp;
pub mod details;
pub mod heredocs;
pub mod php;
pub mod php_laws;
pub mod places;
pub mod ruby;
pub mod ruby_laws;
pub mod scopes;
pub mod swift;
pub mod swift_laws;
pub mod syntax;
pub mod types;
pub mod walk;

verus! {

/// Why a file was not parsed.
#[derive(Debug, Clone, Copy, PartialEq, Eq, Structural)]
pub enum ParseError {
    /// The grammar cannot be used.
    Language,
}

} // verus!
