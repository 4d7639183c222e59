//! C++.

use crate::parser::c::{c_facts, c_result};
use crate::parser::syntax::{latin_or_cyrillic, parsed_tree, SyntaxTree};
use crate::parser::types::{
    binary_text, empty_parse_result, line_count, looks_binary, Facts, ParseResult, PARSE_TIMEOUT_MS,
};
use crate::parser::ParseError;
use vstd::prelude::*;
use vstd::string::*;

verus! {

/// The syntax tree of a C++ text. The grammar's scanner asks the C library which characters are
/// white space; `classes` holds the answers in which one library may differ from another, all of
/// them on characters outside ASCII.
pub uninterp spec fn cpp_syntax(source: Seq<char>, classes: Map<char, nat>) -> SyntaxTree;

/// Parses with the grammar of `tree_sitter_cpp` through `tree_sitter::Parser::parse`. The
/// grammar's version is one that fits, so there is no error. No tree means that the time ran out.
/// An empty text is reduced to a root without children in two steps, before the clock is looked
/// at. A tree is a function of the text and of what the C library answers on characters outside
/// ASCII; on Cyrillic letters its answer is the same everywhere.
#[allow(deprecated)]
#[verifier::external_body]
fn parse_cpp_tree(source: &str, timeout_micros: u64) -> (r: Result<
    Option<tree_sitter::Tree>,
    tree_sitter::LanguageError,
>)
    ensures
        r is Ok,
        source@.len() == 0 ==> r->Ok_0 is Some && parsed_tree(r->Ok_0->0).children.len() == 0,
        r matches Ok(Some(tree)) ==> exists|classes: Map<char, nat>|
            parsed_tree(tree) == #[trigger] cpp_syntax(source@, classes) && (latin_or_cyrillic(
                source@,
            ) ==> classes == Map::<char, nat>::empty()),
{
    let mut parser = tree_sitter::Parser::new();
    parser.set_language(&tree_sitter_cpp::LANGUAGE.into())?;
    parser.set_timeout_micros(timeout_micros);
    Ok(parser.parse(source, None))
}

/// Whether a call of `parse_cpp_tree` with this text and this limit of time ended with a tree, or with
/// none.
pub closed spec fn cpp_outcome(
    source: Seq<char>,
    micros: u64,
    outcome: Option<tree_sitter::Tree>,
) -> bool {
    exists|text: &str|
        text@ == source && #[trigger] call_ensures(parse_cpp_tree, (text, micros), Ok(outcome))
}

/// The parser of C++ files. It shares its walk with C and descends into the bodies of
/// records too.
pub struct CppParser;

impl CppParser {
    pub fn new() -> (r: Self)
        ensures
            r == CppParser,
    {
        CppParser
    }

    pub fn language_name(&self) -> (r: &'static str)
        ensures
            r@ == "cpp"@,
    {
        "cpp"
    }

    /// The file extensions. Headers are claimed too: in a C++ repository they are C++.
    pub fn file_extensions(&self) -> (r: Vec<&'static str>)
        ensures
            r@.len() == 7,
            r@[0]@ == "cpp"@,
            r@[1]@ == "cxx"@,
            r@[2]@ == "cc"@,
            r@[3]@ == "hpp"@,
            r@[4]@ == "hxx"@,
            r@[5]@ == "hh"@,
            r@[6]@ == "h"@,
    {
        vec!["cpp", "cxx", "cc", "hpp", "hxx", "hh", "h"]
    }

    /// Parses a C++ file. One that looks binary or runs over the time stays without facts, and
    /// so does an empty text.
    pub fn parse(&self, source: &str, file_path: &str) -> (r: Result<ParseResult, ParseError>)
        ensures
            r is Ok,
            r->Ok_0.lines_total == line_count(source@),
            r->Ok_0.facts() == Facts::none() || (!binary_text(source@) && exists|
                classes: Map<char, nat>,
            |
                r->Ok_0.facts() == c_facts(#[trigger] cpp_syntax(source@, classes), source@, true)
                    && (latin_or_cyrillic(source@) ==> classes == Map::<char, nat>::empty())),
            source@.len() == 0 ==> r->Ok_0.facts() == Facts::none(),
            !binary_text(source@) ==> exists|outcome: Option<tree_sitter::Tree>| #[trigger]
                cpp_outcome(source@, 10_000_000, outcome) && r->Ok_0.facts() == (match outcome {
                    Some(tree) => c_facts(parsed_tree(tree), source@, true),
                    None => Facts::none(),
                }),
    {
        if looks_binary(source) {
            return Ok(empty_parse_result(source));
        }
        let parsed = parse_cpp_tree(source, PARSE_TIMEOUT_MS * 1000);
        let ghost given = parsed;
        assert(cpp_outcome(source@, 10_000_000, given->Ok_0));
        let r = c_result(parsed, source, true);
        proof {
            if let Ok(Some(tree)) = given {
                assert(r->Ok_0.facts() == c_facts(parsed_tree(tree), source@, true));
            }
        }
        r
    }
}

} // verus!
