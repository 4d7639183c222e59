//! C, and the walk that C and C++ share.

use crate::parser::syntax::{
    line_number, line_of, node_text, parsed_tree, text_at, ts_root, SyntaxRead, SyntaxTree, TsNode,
};
use crate::parser::types::{
    binary_text, empty_parse_result, lemma_join, lemma_join_none, line_count, looks_binary, opt_str,
    opt_text, sha256_hex, sha256_text, CallFact, ClassFact, Facts, FunctionFact, ImportFact,
    ParseResult, ParsedCall, ParsedClass, ParsedFunction, ParsedImport, MAX_VISIT_DEPTH,
    PARSE_TIMEOUT_MS,
};
use crate::parser::walk::{
    caller_name, caller_of, field_of, field_text, first_of, kind_of, kind_text, opt_node_text,
    or_empty, or_empty_string, or_string, qualified, qualify, text_in, tree_in,
};
use crate::parser::ParseError;
use crate::text::str_eq;
use vstd::prelude::*;
use vstd::string::*;

verus! {

/// Whether a node is a name.
pub open spec fn is_name(kind: Seq<char>) -> bool {
    kind == "identifier"@ || kind == "field_identifier"@ || kind == "type_identifier"@
}

/// The name that a declarator declares: the first name inside it, along its nested
/// declarators before anything else.
pub open spec fn declared_name(t: SyntaxTree, source: Seq<char>) -> Option<Seq<char>>
    decreases t, 1nat, 0nat,
{
    if is_name(t.kind) {
        Some(text_at(t, source))
    } else {
        let inner = match t.field_index("declarator"@) {
            Some(k) => if 0 <= k < t.children.len() {
                declared_name(t.children[k], source)
            } else {
                None
            },
            None => None,
        };
        first_of(inner, declared_name_from(t, 0, source))
    }
}

/// The first name that one of the children from `i` on declares.
pub open spec fn declared_name_from(t: SyntaxTree, i: int, source: Seq<char>) -> Option<Seq<char>>
    decreases t, 0nat, t.children.len() - i,
{
    if i < 0 || i >= t.children.len() {
        None
    } else {
        first_of(declared_name(t.children[i], source), declared_name_from(t, i + 1, source))
    }
}

/// The first descendant of a kind, depth first, among the children from `i` on.
pub open spec fn descendant_from(t: SyntaxTree, kind: Seq<char>, i: int) -> Option<SyntaxTree>
    decreases t, t.children.len() - i,
{
    if i < 0 || i >= t.children.len() {
        None
    } else if t.children[i].kind == kind {
        Some(t.children[i])
    } else {
        first_of(descendant_from(t.children[i], kind, 0), descendant_from(t, kind, i + 1))
    }
}

/// Whether a node declares a record.
pub open spec fn declares_record(kind: Seq<char>) -> bool {
    kind == "struct_specifier"@ || kind == "union_specifier"@ || kind == "enum_specifier"@ || kind
        == "class_specifier"@
}

/// The function that a definition defines.
pub open spec fn function_fact(
    t: SyntaxTree,
    source: Seq<char>,
    class: Option<Seq<char>>,
) -> FunctionFact {
    let declarator = field_of(t, "declarator"@);
    let name = match declarator {
        Some(d) => or_empty(declared_name(d, source)),
        None => Seq::empty(),
    };
    FunctionFact {
        name,
        qualified_name: qualified(class, "::"@, name),
        line_start: line_of(t.start_row),
        line_end: line_of(t.end_row),
        args: match declarator {
            Some(d) => text_in(descendant_from(d, "parameter_list"@, 0), source),
            None => None,
        },
        return_type: text_in(field_of(t, "type"@), source),
        docstring: None,
        body: text_at(t, source),
        is_async: false,
        node_hash: sha256_text(text_at(t, source)),
        override_type: None,
        override_target: None,
    }
}

/// The record that a specifier declares.
pub open spec fn record_fact(t: SyntaxTree, source: Seq<char>) -> ClassFact {
    ClassFact {
        name: or_empty(
            first_of(
                text_in(field_of(t, "name"@), source),
                text_in(kind_of(t, "type_identifier"@), source),
            ),
        ),
        line_start: line_of(t.start_row),
        line_end: line_of(t.end_row),
        bases: None,
        docstring: None,
        body: text_at(t, source),
        node_hash: sha256_text(text_at(t, source)),
    }
}

/// The header that a directive brings in.
pub open spec fn header_fact(t: SyntaxTree, source: Seq<char>) -> ImportFact {
    ImportFact {
        module: first_of(
            text_in(field_of(t, "path"@), source),
            first_of(
                text_in(kind_of(t, "string_literal"@), source),
                text_in(kind_of(t, "system_lib_string"@), source),
            ),
        ),
        name: None,
        alias: None,
        line: line_of(t.start_row),
        kind: "include"@,
    }
}

/// The call that an expression makes.
pub open spec fn call_facts(t: SyntaxTree, source: Seq<char>, func: Option<Seq<char>>) -> Facts {
    let callee = or_empty(text_in(field_of(t, "function"@), source));
    if callee.len() == 0 {
        Facts::none()
    } else {
        Facts::call(CallFact { caller: caller_of(func), callee, line: line_of(t.start_row) })
    }
}

/// The facts in the children of `t` from `i` on. In C++ the bodies of records are walked too.
pub open spec fn children_facts(
    t: SyntaxTree,
    i: int,
    source: Seq<char>,
    cpp: bool,
    class: Option<Seq<char>>,
    func: Option<Seq<char>>,
    depth: nat,
) -> Facts
    decreases t, 0nat, t.children.len() - i,
{
    if i < 0 || i >= t.children.len() {
        Facts::none()
    } else {
        node_facts(t.children[i], source, cpp, class, func, depth).join(
            children_facts(t, i + 1, source, cpp, class, func, depth),
        )
    }
}

/// The facts in a node, `depth` levels into the walk.
pub open spec fn node_facts(
    t: SyntaxTree,
    source: Seq<char>,
    cpp: bool,
    class: Option<Seq<char>>,
    func: Option<Seq<char>>,
    depth: nat,
) -> Facts
    decreases t, 2nat, 0nat,
{
    if depth > MAX_VISIT_DEPTH {
        Facts::none()
    } else if t.kind == "function_definition"@ {
        function_facts(t, source, cpp, class)
    } else if declares_record(t.kind) {
        record_facts(t, source, cpp)
    } else if t.kind == "call_expression"@ {
        call_facts(t, source, func).join(
            children_facts(t, 0, source, cpp, class, func, depth + 1),
        )
    } else if t.kind == "preproc_include"@ {
        Facts::import(header_fact(t, source))
    } else {
        children_facts(t, 0, source, cpp, class, func, depth + 1)
    }
}

/// The function that a definition defines, and the facts in its body.
pub open spec fn function_facts(
    t: SyntaxTree,
    source: Seq<char>,
    cpp: bool,
    class: Option<Seq<char>>,
) -> Facts
    decreases t, 1nat, 0nat,
{
    let fact = function_fact(t, source, class);
    if fact.name.len() == 0 {
        Facts::none()
    } else {
        match t.field_index("body"@) {
            Some(k) => if 0 <= k < t.children.len() {
                Facts::function(fact).join(
                    children_facts(t.children[k], 0, source, cpp, class, Some(fact.name), 1),
                )
            } else {
                Facts::none()
            },
            None => Facts::function(fact),
        }
    }
}

/// The record that a specifier declares, and in C++ the facts in its body. A record without
/// a name is left out.
pub open spec fn record_facts(t: SyntaxTree, source: Seq<char>, cpp: bool) -> Facts
    decreases t, 1nat, 0nat,
{
    let fact = record_fact(t, source);
    if fact.name.len() == 0 {
        Facts::none()
    } else if !cpp {
        Facts::class(fact)
    } else {
        match t.field_index("body"@) {
            Some(k) => if 0 <= k < t.children.len() {
                Facts::class(fact).join(
                    children_facts(t.children[k], 0, source, cpp, Some(fact.name), None, 1),
                )
            } else {
                Facts::none()
            },
            None => Facts::class(fact),
        }
    }
}

/// The facts in a C or C++ file.
pub open spec fn c_facts(root: SyntaxTree, source: Seq<char>, cpp: bool) -> Facts {
    children_facts(root, 0, source, cpp, None, None, 0)
}

fn declarator_name<N: SyntaxRead>(node: &N, source: &str) -> (r: Option<String>)
    ensures
        opt_text(r) == declared_name(node.tree(), source@),
    decreases node.tree(),
{
    if str_eq(node.kind(), "identifier") || str_eq(node.kind(), "field_identifier") || str_eq(
        node.kind(),
        "type_identifier",
    ) {
        return Some(node_text(node, source).to_owned());
    }
    if let Some(d) = node.field("declarator") {
        let name = declarator_name(&d, source);
        if name.is_some() {
            return name;
        }
    }
    let n: usize = node.child_count();
    let mut i: usize = 0;
    while i < n
        invariant
            i <= n,
            n == node.tree().children.len(),
            declared_name(node.tree(), source@) == declared_name_from(
                node.tree(),
                i as int,
                source@,
            ),
        decreases n - i,
    {
        let c = node.child(i);
        let name = declarator_name(&c, source);
        if name.is_some() {
            return name;
        }
        i += 1;
    }
    None
}

fn find_descendant_by_kind<N: SyntaxRead>(node: &N, kind: &str) -> (r: Option<N>)
    ensures
        tree_in(r) == descendant_from(node.tree(), kind@, 0),
    decreases node.tree(),
{
    let n: usize = node.child_count();
    let mut i: usize = 0;
    while i < n
        invariant
            i <= n,
            n == node.tree().children.len(),
            descendant_from(node.tree(), kind@, 0) == descendant_from(
                node.tree(),
                kind@,
                i as int,
            ),
        decreases n - i,
    {
        let c = node.child(i);
        if str_eq(c.kind(), kind) {
            return Some(c);
        }
        let found = find_descendant_by_kind(&c, kind);
        if found.is_some() {
            return found;
        }
        i += 1;
    }
    None
}

fn visit_children<N: SyntaxRead>(
    node: &N,
    source: &str,
    cpp: bool,
    class: Option<&str>,
    func: Option<&str>,
    depth: usize,
    out: &mut ParseResult,
)
    requires
        depth <= MAX_VISIT_DEPTH + 1,
    ensures
        final(out).facts() == old(out).facts().join(
            children_facts(
                node.tree(),
                0,
                source@,
                cpp,
                opt_str(class),
                opt_str(func),
                depth as nat,
            ),
        ),
        final(out).lines_total == old(out).lines_total,
    decreases node.tree(), 0nat,
{
    broadcast use {lemma_join, lemma_join_none};

    let n: usize = node.child_count();
    let mut i: usize = 0;
    let ghost all = old(out).facts().join(
        children_facts(node.tree(), 0, source@, cpp, opt_str(class), opt_str(func), depth as nat),
    );
    while i < n
        invariant
            i <= n,
            n == node.tree().children.len(),
            depth <= MAX_VISIT_DEPTH + 1,
            out.lines_total == old(out).lines_total,
            out.facts().join(
                children_facts(
                    node.tree(),
                    i as int,
                    source@,
                    cpp,
                    opt_str(class),
                    opt_str(func),
                    depth as nat,
                ),
            ) == all,
        decreases n - i,
    {
        broadcast use {lemma_join, lemma_join_none};

        let c = node.child(i);
        visit_node(&c, source, cpp, class, func, depth, out);
        i += 1;
    }
}

fn visit_node<N: SyntaxRead>(
    node: &N,
    source: &str,
    cpp: bool,
    class: Option<&str>,
    func: Option<&str>,
    depth: usize,
    out: &mut ParseResult,
)
    requires
        depth <= MAX_VISIT_DEPTH + 1,
    ensures
        final(out).facts() == old(out).facts().join(
            node_facts(node.tree(), source@, cpp, opt_str(class), opt_str(func), depth as nat),
        ),
        final(out).lines_total == old(out).lines_total,
    decreases node.tree(), 2nat,
{
    broadcast use {lemma_join, lemma_join_none};

    if depth > MAX_VISIT_DEPTH {
        return;
    }
    let kind = node.kind();
    if str_eq(kind, "function_definition") {
        visit_function(node, source, cpp, class, out);
    } else if str_eq(kind, "struct_specifier") || str_eq(kind, "union_specifier") || str_eq(
        kind,
        "enum_specifier",
    ) || str_eq(kind, "class_specifier") {
        visit_record(node, source, cpp, out);
    } else if str_eq(kind, "call_expression") {
        visit_call(node, source, func, out);
        visit_children(node, source, cpp, class, func, depth + 1, out);
    } else if str_eq(kind, "preproc_include") {
        visit_header(node, source, out);
    } else {
        visit_children(node, source, cpp, class, func, depth + 1, out);
    }
}

fn visit_function<N: SyntaxRead>(
    node: &N,
    source: &str,
    cpp: bool,
    class: Option<&str>,
    out: &mut ParseResult,
)
    ensures
        final(out).facts() == old(out).facts().join(
            function_facts(node.tree(), source@, cpp, opt_str(class)),
        ),
        final(out).lines_total == old(out).lines_total,
    decreases node.tree(), 1nat,
{
    broadcast use {lemma_join, lemma_join_none};

    let declarator = node.field("declarator");
    let name = match &declarator {
        Some(d) => or_empty_string(declarator_name(d, source)),
        None => String::new(),
    };
    if name.as_str().is_empty() {
        return;
    }
    let args = match &declarator {
        Some(d) => {
            let list = find_descendant_by_kind(d, "parameter_list");
            opt_node_text(&list, source)
        },
        None => None,
    };
    let body = node_text(node, source);
    let f = ParsedFunction {
        name: name.clone(),
        qualified_name: qualify(class, "::", name.as_str()),
        line_start: line_number(node.start_row()),
        line_end: line_number(node.end_row()),
        args,
        return_type: field_text(node, "type", source),
        docstring: None,
        body: body.to_owned(),
        is_async: false,
        node_hash: sha256_hex(body),
        override_type: None,
        override_target: None,
    };
    assert(f@ == function_fact(node.tree(), source@, opt_str(class)));
    out.add_function(f);
    if let Some(inner) = node.field("body") {
        visit_children(&inner, source, cpp, class, Some(name.as_str()), 1, out);
    }
}

fn visit_record<N: SyntaxRead>(node: &N, source: &str, cpp: bool, out: &mut ParseResult)
    ensures
        final(out).facts() == old(out).facts().join(record_facts(node.tree(), source@, cpp)),
        final(out).lines_total == old(out).lines_total,
    decreases node.tree(), 1nat,
{
    broadcast use {lemma_join, lemma_join_none};

    let name = or_empty_string(
        or_string(
            field_text(node, "name", source),
            kind_text(node, "type_identifier", source),
        ),
    );
    if name.as_str().is_empty() {
        return;
    }
    let body = node_text(node, source);
    let c = ParsedClass {
        name: name.clone(),
        line_start: line_number(node.start_row()),
        line_end: line_number(node.end_row()),
        bases: None,
        docstring: None,
        body: body.to_owned(),
        node_hash: sha256_hex(body),
    };
    assert(c@ == record_fact(node.tree(), source@));
    out.add_class(c);
    if cpp {
        if let Some(inner) = node.field("body") {
            visit_children(&inner, source, cpp, Some(name.as_str()), None, 1, out);
        }
    }
}

fn visit_call<N: SyntaxRead>(node: &N, source: &str, func: Option<&str>, out: &mut ParseResult)
    ensures
        final(out).facts() == old(out).facts().join(
            call_facts(node.tree(), source@, opt_str(func)),
        ),
        final(out).lines_total == old(out).lines_total,
{
    broadcast use lemma_join_none;

    let callee = or_empty_string(field_text(node, "function", source));
    if callee.as_str().is_empty() {
        return;
    }
    out.add_call(
        ParsedCall { caller: caller_name(func), callee, line: line_number(node.start_row()) },
    );
}

fn visit_header<N: SyntaxRead>(node: &N, source: &str, out: &mut ParseResult)
    ensures
        final(out).facts() == old(out).facts().join(
            Facts::import(header_fact(node.tree(), source@)),
        ),
        final(out).lines_total == old(out).lines_total,
{
    let import = ParsedImport {
        module: or_string(
            field_text(node, "path", source),
            or_string(
                kind_text(node, "string_literal", source),
                kind_text(node, "system_lib_string", source),
            ),
        ),
        name: None,
        alias: None,
        line: line_number(node.start_row()),
        kind: "include".to_owned(),
    };
    assert(import@ == header_fact(node.tree(), source@));
    out.add_import(import);
}

/// Extracts the facts from the syntax tree of a C or C++ file.
pub fn extract_c<N: SyntaxRead>(root: &N, source: &str, cpp: bool) -> (r: ParseResult)
    ensures
        r.facts() == c_facts(root.tree(), source@, cpp),
        r.lines_total == line_count(source@),
{
    let mut out = empty_parse_result(source);
    visit_children(root, source, cpp, None, None, 0, &mut out);
    proof {
        let f = c_facts(root.tree(), source@, cpp);
        assert(Facts::none().join(f) =~= f);
    }
    out
}

/// The syntax tree of a C text.
pub uninterp spec fn c_syntax(source: Seq<char>) -> SyntaxTree;

/// Parses with the grammar of `tree_sitter_c` through `tree_sitter::Parser::parse`. The
/// grammar's version is one that fits, so there is no error. No tree means that the time ran
/// out; a tree is a function of the text. An empty text is reduced to a root without children
/// in two steps, before the clock is looked at.
#[allow(deprecated)]
#[verifier::external_body]
fn parse_c_tree(source: &str, timeout_micros: u64) -> (r: Result<
    Option<tree_sitter::Tree>,
    tree_sitter::LanguageError,
>)
    ensures
        r is Ok,
        source@.len() == 0 ==> r->Ok_0 is Some && parsed_tree(r->Ok_0->0).children.len() == 0,
        r matches Ok(Some(tree)) ==> parsed_tree(tree) == c_syntax(source@),
{
    let mut parser = tree_sitter::Parser::new();
    parser.set_language(&tree_sitter_c::LANGUAGE.into())?;
    parser.set_timeout_micros(timeout_micros);
    Ok(parser.parse(source, None))
}

/// Whether a call of `parse_c_tree` with this text and this limit of time ended with a tree, or with
/// none.
pub closed spec fn c_outcome(
    source: Seq<char>,
    micros: u64,
    outcome: Option<tree_sitter::Tree>,
) -> bool {
    exists|text: &str|
        text@ == source && #[trigger] call_ensures(parse_c_tree, (text, micros), Ok(outcome))
}

/// What is known of a C text, given what `tree_sitter` made of it. Where the time ran out
/// there are no facts.
pub fn c_result(
    parsed: Result<Option<tree_sitter::Tree>, tree_sitter::LanguageError>,
    source: &str,
    cpp: bool,
) -> (r: Result<ParseResult, ParseError>)
    ensures
        match parsed {
            Ok(Some(tree)) => r is Ok && r->Ok_0.lines_total == line_count(source@)
                && r->Ok_0.facts() == c_facts(parsed_tree(tree), source@, cpp),
            Ok(None) => r is Ok && r->Ok_0.lines_total == line_count(source@) && r->Ok_0.facts()
                == Facts::none(),
            Err(_) => r == Err::<ParseResult, ParseError>(ParseError::Language),
        },
{
    match parsed {
        Ok(Some(tree)) => {
            let root = TsNode { node: ts_root(&tree) };
            Ok(extract_c(&root, source, cpp))
        },
        Ok(None) => Ok(empty_parse_result(source)),
        Err(_) => Err(ParseError::Language),
    }
}

/// The parser of C files. Classes are structs, unions and enums.
pub struct CParser;

impl CParser {
    pub fn new() -> (r: Self)
        ensures
            r == CParser,
    {
        CParser
    }

    pub fn language_name(&self) -> (r: &'static str)
        ensures
            r@ == "c"@,
    {
        "c"
    }

    pub fn file_extensions(&self) -> (r: Vec<&'static str>)
        ensures
            r@.len() == 2,
            r@[0]@ == "c"@,
            r@[1]@ == "h"@,
    {
        vec!["c", "h"]
    }

    /// Parses a C file. One that looks binary or runs over the time stays without facts, and
    /// so does an empty text.
    pub fn parse(&self, source: &str, file_path: &str) -> (r: Result<ParseResult, ParseError>)
        ensures
            r is Ok,
            r->Ok_0.lines_total == line_count(source@),
            r->Ok_0.facts() == Facts::none() || (!binary_text(source@) && r->Ok_0.facts()
                == c_facts(c_syntax(source@), source@, false)),
            source@.len() == 0 ==> r->Ok_0.facts() == Facts::none(),
            !binary_text(source@) ==> exists|outcome: Option<tree_sitter::Tree>| #[trigger]
                c_outcome(source@, 10_000_000, outcome) && r->Ok_0.facts() == (match outcome {
                    Some(tree) => c_facts(parsed_tree(tree), source@, false),
                    None => Facts::none(),
                }),
    {
        if looks_binary(source) {
            return Ok(empty_parse_result(source));
        }
        let parsed = parse_c_tree(source, PARSE_TIMEOUT_MS * 1000);
        assert(c_outcome(source@, 10_000_000, parsed->Ok_0));
        c_result(parsed, source, false)
    }
}

} // verus!
