//! Ruby.

use crate::parser::heredocs::{heredocs_fit, heredocs_have_room};
use crate::parser::syntax::{
    line_number, line_of, node_text, parsed_tree, text_at, ts_root, SyntaxRead, SyntaxTree, TsNode,
};
use crate::parser::types::{
    binary_text, empty_parse_result, lemma_join, lemma_join_none, line_count, looks_binary, opt_str,
    opt_text, sha256_hex, sha256_text, CallFact, ClassFact, Facts, FunctionFact, ImportFact,
    ParseResult, ParsedCall, ParsedClass, ParsedFunction, ParsedImport, ParsedVariable,
    VariableFact, MAX_VISIT_DEPTH, PARSE_TIMEOUT_MS,
};
use crate::parser::walk::{
    caller_name, caller_of, doc_before, extract_doc, field_of, field_text, first_named,
    first_named_child, first_of, or_empty, or_empty_string, or_string, qualified, qualify,
    short_value, shorten, text_in, DocStyle,
};
use crate::parser::ParseError;
use crate::text::{str_eq, trim_either, trimmed_end, trimmed_start};
use vstd::prelude::*;
use vstd::string::*;
use vstd::utf8::is_ascii_chars;

verus! {

/// Whether a node declares a method.
pub open spec fn declares_method(kind: Seq<char>) -> bool {
    kind == "method"@ || kind == "singleton_method"@
}

/// Whether a node declares a class or a module.
pub open spec fn declares_class(kind: Seq<char>) -> bool {
    kind == "class"@ || kind == "module"@ || kind == "singleton_class"@
}

/// The method that the child at `i` declares: `Class#method`, or `Class.method` where it
/// belongs to the class itself.
pub open spec fn method_fact(
    parent: SyntaxTree,
    i: int,
    source: Seq<char>,
    class: Option<Seq<char>>,
) -> FunctionFact {
    let node = parent.children[i];
    let name = or_empty(text_in(field_of(node, "name"@), source));
    let sep = if node.kind == "singleton_method"@ {
        "."@
    } else {
        "#"@
    };
    FunctionFact {
        name,
        qualified_name: qualified(class, sep, name),
        line_start: line_of(node.start_row),
        line_end: line_of(node.end_row),
        args: text_in(field_of(node, "parameters"@), source),
        return_type: None,
        docstring: doc_before(DocStyle::Ruby, parent, i, source),
        body: text_at(node, source),
        is_async: false,
        node_hash: sha256_text(text_at(node, source)),
        override_type: None,
        override_target: None,
    }
}

/// The class or module that the child at `i` declares. A class without a name goes by the
/// value that it opens.
pub open spec fn class_fact(parent: SyntaxTree, i: int, source: Seq<char>) -> ClassFact {
    let node = parent.children[i];
    ClassFact {
        name: or_empty(
            first_of(
                text_in(field_of(node, "name"@), source),
                text_in(field_of(node, "value"@), source),
            ),
        ),
        line_start: line_of(node.start_row),
        line_end: line_of(node.end_row),
        bases: text_in(field_of(node, "superclass"@), source),
        docstring: doc_before(DocStyle::Ruby, parent, i, source),
        body: text_at(node, source),
        node_hash: sha256_text(text_at(node, source)),
    }
}

/// Whether a called name brings in another file.
pub open spec fn requires_file(callee: Seq<char>) -> bool {
    callee == "require"@ || callee == "require_relative"@ || callee == "load"@
}

/// The file that a call brings in: its first argument, without the quotes.
pub open spec fn required_file(t: SyntaxTree, source: Seq<char>) -> Option<Seq<char>> {
    match field_of(t, "arguments"@) {
        Some(a) => match text_in(first_named(a), source) {
            Some(s) => Some(trimmed_end(trimmed_start(s, '"', '\''), '"', '\'')),
            None => None,
        },
        None => None,
    }
}

/// The call that a node makes, or the file that it brings in.
pub open spec fn call_facts(t: SyntaxTree, source: Seq<char>, func: Option<Seq<char>>) -> Facts {
    let callee = or_empty(text_in(field_of(t, "method"@), source));
    if callee.len() == 0 {
        Facts::none()
    } else if requires_file(callee) {
        Facts::import(
            ImportFact {
                module: required_file(t, source),
                name: None,
                alias: None,
                line: line_of(t.start_row),
                kind: callee,
            },
        )
    } else {
        Facts::call(CallFact { caller: caller_of(func), callee, line: line_of(t.start_row) })
    }
}

/// The variable that an assignment sets.
pub open spec fn assignment_facts(t: SyntaxTree, source: Seq<char>) -> Facts {
    let name = or_empty(text_in(field_of(t, "left"@), source));
    if name.len() == 0 {
        Facts::none()
    } else {
        Facts::variable(
            VariableFact {
                name,
                value: short_value(text_in(field_of(t, "right"@), source)),
                line: line_of(t.start_row),
            },
        )
    }
}

/// The facts in the children of `parent` from `i` on.
pub open spec fn children_facts(
    parent: SyntaxTree,
    i: int,
    source: Seq<char>,
    class: Option<Seq<char>>,
    func: Option<Seq<char>>,
    top: bool,
    depth: nat,
) -> Facts
    decreases parent, parent.children.len() - i, 3nat,
{
    if i < 0 || i >= parent.children.len() {
        Facts::none()
    } else {
        node_facts(parent, i, source, class, func, top, depth).join(
            children_facts(parent, i + 1, source, class, func, top, depth),
        )
    }
}

/// The facts in the child of `parent` at `i`, `depth` levels into the walk; `top` says
/// whether variables are those of the file itself.
pub open spec fn node_facts(
    parent: SyntaxTree,
    i: int,
    source: Seq<char>,
    class: Option<Seq<char>>,
    func: Option<Seq<char>>,
    top: bool,
    depth: nat,
) -> Facts
    decreases parent, parent.children.len() - i, 2nat,
{
    if i < 0 || i >= parent.children.len() || depth > MAX_VISIT_DEPTH {
        Facts::none()
    } else {
        let node = parent.children[i];
        if declares_method(node.kind) {
            function_facts(parent, i, source, class)
        } else if declares_class(node.kind) {
            class_facts(parent, i, source)
        } else if node.kind == "call"@ {
            call_facts(node, source, func).join(
                children_facts(node, 0, source, class, func, false, depth + 1),
            )
        } else if node.kind == "assignment"@ {
            let own = if top {
                assignment_facts(node, source)
            } else {
                Facts::none()
            };
            own.join(children_facts(node, 0, source, class, func, false, depth + 1))
        } else {
            children_facts(node, 0, source, class, func, top, depth + 1)
        }
    }
}

/// The function that the child at `i` declares, and the facts in its body.
pub open spec fn function_facts(
    parent: SyntaxTree,
    i: int,
    source: Seq<char>,
    class: Option<Seq<char>>,
) -> Facts
    decreases parent, parent.children.len() - i, 1nat,
{
    if i < 0 || i >= parent.children.len() {
        Facts::none()
    } else {
        let node = parent.children[i];
        let fact = method_fact(parent, i, source, class);
        if fact.name.len() == 0 {
            Facts::none()
        } else {
            match node.field_index("body"@) {
                Some(k) => if 0 <= k < node.children.len() {
                    Facts::function(fact).join(
                        children_facts(
                            node.children[k],
                            0,
                            source,
                            class,
                            Some(fact.name),
                            false,
                            1,
                        ),
                    )
                } else {
                    Facts::none()
                },
                None => Facts::function(fact),
            }
        }
    }
}

/// The class that the child at `i` declares, and the facts in its body.
pub open spec fn class_facts(parent: SyntaxTree, i: int, source: Seq<char>) -> Facts
    decreases parent, parent.children.len() - i, 1nat,
{
    if i < 0 || i >= parent.children.len() {
        Facts::none()
    } else {
        let node = parent.children[i];
        let fact = class_fact(parent, i, source);
        if fact.name.len() == 0 {
            Facts::none()
        } else {
            match node.field_index("body"@) {
                Some(k) => if 0 <= k < node.children.len() {
                    Facts::class(fact).join(
                        children_facts(
                            node.children[k],
                            0,
                            source,
                            Some(fact.name),
                            None,
                            false,
                            1,
                        ),
                    )
                } else {
                    Facts::none()
                },
                None => Facts::class(fact),
            }
        }
    }
}

/// The facts in a Ruby file.
pub open spec fn ruby_facts(root: SyntaxTree, source: Seq<char>) -> Facts {
    children_facts(root, 0, source, None, None, true, 0)
}

/// Whether no call brings in a file and every import does.
pub open spec fn files_are_imports(f: Facts) -> bool {
    &&& forall|i: int| 0 <= i < f.calls.len() ==> !requires_file((#[trigger] f.calls[i]).callee)
    &&& forall|i: int| 0 <= i < f.imports.len() ==> requires_file((#[trigger] f.imports[i]).kind)
}

proof fn lemma_joined_imports(a: Facts, b: Facts)
    requires
        files_are_imports(a),
        files_are_imports(b),
    ensures
        files_are_imports(a.join(b)),
{
    let c = a.join(b);
    assert forall|i: int| 0 <= i < c.calls.len() implies !requires_file(
        (#[trigger] c.calls[i]).callee,
    ) by {
        if i < a.calls.len() {
            assert(c.calls[i] == a.calls[i]);
        } else {
            assert(c.calls[i] == b.calls[i - a.calls.len()]);
        }
    }
    assert forall|i: int| 0 <= i < c.imports.len() implies requires_file(
        (#[trigger] c.imports[i]).kind,
    ) by {
        if i < a.imports.len() {
            assert(c.imports[i] == a.imports[i]);
        } else {
            assert(c.imports[i] == b.imports[i - a.imports.len()]);
        }
    }
}

proof fn lemma_imports_and_variables(
    parent: SyntaxTree,
    i: int,
    source: Seq<char>,
    class: Option<Seq<char>>,
    func: Option<Seq<char>>,
    top: bool,
    depth: nat,
)
    ensures
        files_are_imports(children_facts(parent, i, source, class, func, top, depth)),
        !top ==> children_facts(parent, i, source, class, func, top, depth).variables.len() == 0,
    decreases parent, parent.children.len() - i,
{
    if 0 <= i < parent.children.len() {
        let node = parent.children[i];
        let here = node_facts(parent, i, source, class, func, top, depth);
        let rest = children_facts(parent, i + 1, source, class, func, top, depth);
        lemma_imports_and_variables(parent, i + 1, source, class, func, top, depth);
        assert(files_are_imports(here) && (!top ==> here.variables.len() == 0)) by {
            if depth <= MAX_VISIT_DEPTH {
                if declares_method(node.kind) || declares_class(node.kind) {
                    if let Some(k) = node.field_index("body"@) {
                        if 0 <= k < node.children.len() {
                            let body = node.children[k];
                            let method = method_fact(parent, i, source, class);
                            let container = class_fact(parent, i, source);
                            let name = Some(method.name);
                            let inside = Some(container.name);
                            lemma_imports_and_variables(body, 0, source, class, name, false, 1);
                            lemma_imports_and_variables(body, 0, source, inside, None, false, 1);
                            lemma_joined_imports(
                                Facts::function(method),
                                children_facts(body, 0, source, class, name, false, 1),
                            );
                            lemma_joined_imports(
                                Facts::class(container),
                                children_facts(body, 0, source, inside, None, false, 1),
                            );
                        }
                    }
                } else {
                    let deeper = children_facts(node, 0, source, class, func, false, depth + 1);
                    lemma_imports_and_variables(node, 0, source, class, func, top, depth + 1);
                    lemma_imports_and_variables(node, 0, source, class, func, false, depth + 1);
                    lemma_joined_imports(call_facts(node, source, func), deeper);
                    lemma_joined_imports(assignment_facts(node, source), deeper);
                    lemma_joined_imports(Facts::none(), deeper);
                }
            }
        }
        lemma_joined_imports(here, rest);
    }
}

/// What brings in a file is recorded as an import, never as a call, and nothing else is an
/// import.
pub proof fn law_required_files_are_imports(root: SyntaxTree, source: Seq<char>)
    ensures
        files_are_imports(ruby_facts(root, source)),
{
    lemma_imports_and_variables(root, 0, source, None, None, true, 0);
}

/// In the body of a method or a class no variable is recorded: the variables of a file are
/// those that it sets outside of them.
pub proof fn law_local_variables_stay_out(
    parent: SyntaxTree,
    i: int,
    source: Seq<char>,
    class: Option<Seq<char>>,
)
    ensures
        function_facts(parent, i, source, class).variables.len() == 0,
        class_facts(parent, i, source).variables.len() == 0,
{
    if 0 <= i < parent.children.len() {
        let node = parent.children[i];
        if let Some(k) = node.field_index("body"@) {
            if 0 <= k < node.children.len() {
                let body = node.children[k];
                let name = Some(method_fact(parent, i, source, class).name);
                let inside = Some(class_fact(parent, i, source).name);
                lemma_imports_and_variables(body, 0, source, class, name, false, 1);
                lemma_imports_and_variables(body, 0, source, inside, None, false, 1);
            }
        }
    }
}

fn visit_children<N: SyntaxRead>(
    parent: &N,
    source: &str,
    class: Option<&str>,
    func: Option<&str>,
    top: bool,
    depth: usize,
    out: &mut ParseResult,
)
    requires
        depth <= MAX_VISIT_DEPTH + 1,
    ensures
        final(out).facts() == old(out).facts().join(
            children_facts(
                parent.tree(),
                0,
                source@,
                opt_str(class),
                opt_str(func),
                top,
                depth as nat,
            ),
        ),
        final(out).lines_total == old(out).lines_total,
    decreases parent.tree(), parent.tree().children.len(), 3nat,
{
    broadcast use {lemma_join, lemma_join_none};

    let n: usize = parent.child_count();
    let mut i: usize = 0;
    let ghost all = old(out).facts().join(
        children_facts(parent.tree(), 0, source@, opt_str(class), opt_str(func), top, depth as nat),
    );
    while i < n
        invariant
            i <= n,
            n == parent.tree().children.len(),
            depth <= MAX_VISIT_DEPTH + 1,
            out.lines_total == old(out).lines_total,
            out.facts().join(
                children_facts(
                    parent.tree(),
                    i as int,
                    source@,
                    opt_str(class),
                    opt_str(func),
                    top,
                    depth as nat,
                ),
            ) == all,
        decreases n - i,
    {
        broadcast use {lemma_join, lemma_join_none};

        visit_node(parent, i, source, class, func, top, depth, out);
        i += 1;
    }
}

fn visit_node<N: SyntaxRead>(
    parent: &N,
    i: usize,
    source: &str,
    class: Option<&str>,
    func: Option<&str>,
    top: bool,
    depth: usize,
    out: &mut ParseResult,
)
    requires
        i < parent.tree().children.len(),
        depth <= MAX_VISIT_DEPTH + 1,
    ensures
        final(out).facts() == old(out).facts().join(
            node_facts(
                parent.tree(),
                i as int,
                source@,
                opt_str(class),
                opt_str(func),
                top,
                depth as nat,
            ),
        ),
        final(out).lines_total == old(out).lines_total,
    decreases parent.tree(), parent.tree().children.len() - i, 2nat,
{
    broadcast use {lemma_join, lemma_join_none};

    if depth > MAX_VISIT_DEPTH {
        return;
    }
    let node = parent.child(i);
    let kind = node.kind();
    if str_eq(kind, "method") || str_eq(kind, "singleton_method") {
        visit_method(parent, i, source, class, out);
    } else if str_eq(kind, "class") || str_eq(kind, "module") || str_eq(kind, "singleton_class") {
        visit_class(parent, i, source, out);
    } else if str_eq(kind, "call") {
        visit_call(&node, source, func, out);
        visit_children(&node, source, class, func, false, depth + 1, out);
    } else if str_eq(kind, "assignment") {
        if top {
            visit_assignment(&node, source, out);
        }
        visit_children(&node, source, class, func, false, depth + 1, out);
    } else {
        visit_children(&node, source, class, func, top, depth + 1, out);
    }
}

fn visit_method<N: SyntaxRead>(
    parent: &N,
    i: usize,
    source: &str,
    class: Option<&str>,
    out: &mut ParseResult,
)
    requires
        i < parent.tree().children.len(),
    ensures
        final(out).facts() == old(out).facts().join(
            function_facts(parent.tree(), i as int, source@, opt_str(class)),
        ),
        final(out).lines_total == old(out).lines_total,
    decreases parent.tree(), parent.tree().children.len() - i, 1nat,
{
    broadcast use {lemma_join, lemma_join_none};

    let node = parent.child(i);
    let name = or_empty_string(field_text(&node, "name", source));
    if name.as_str().is_empty() {
        return;
    }
    let sep = if str_eq(node.kind(), "singleton_method") {
        "."
    } else {
        "#"
    };
    let body = node_text(&node, source);
    let f = ParsedFunction {
        name: name.clone(),
        qualified_name: qualify(class, sep, name.as_str()),
        line_start: line_number(node.start_row()),
        line_end: line_number(node.end_row()),
        args: field_text(&node, "parameters", source),
        return_type: None,
        docstring: extract_doc(DocStyle::Ruby, parent, i, source),
        body: body.to_owned(),
        is_async: false,
        node_hash: sha256_hex(body),
        override_type: None,
        override_target: None,
    };
    assert(f@ == method_fact(parent.tree(), i as int, source@, opt_str(class)));
    out.add_function(f);
    if let Some(inner) = node.field("body") {
        visit_children(&inner, source, class, Some(name.as_str()), false, 1, out);
    }
}

fn visit_class<N: SyntaxRead>(parent: &N, i: usize, source: &str, out: &mut ParseResult)
    requires
        i < parent.tree().children.len(),
    ensures
        final(out).facts() == old(out).facts().join(
            class_facts(parent.tree(), i as int, source@),
        ),
        final(out).lines_total == old(out).lines_total,
    decreases parent.tree(), parent.tree().children.len() - i, 1nat,
{
    broadcast use {lemma_join, lemma_join_none};

    let node = parent.child(i);
    let name = or_empty_string(
        or_string(field_text(&node, "name", source), field_text(&node, "value", source)),
    );
    if name.as_str().is_empty() {
        return;
    }
    let body = node_text(&node, source);
    let c = ParsedClass {
        name: name.clone(),
        line_start: line_number(node.start_row()),
        line_end: line_number(node.end_row()),
        bases: field_text(&node, "superclass", source),
        docstring: extract_doc(DocStyle::Ruby, parent, i, source),
        body: body.to_owned(),
        node_hash: sha256_hex(body),
    };
    assert(c@ == class_fact(parent.tree(), i as int, source@));
    out.add_class(c);
    if let Some(inner) = node.field("body") {
        visit_children(&inner, source, Some(name.as_str()), None, false, 1, out);
    }
}

fn visit_call<N: SyntaxRead>(node: &N, source: &str, func: Option<&str>, out: &mut ParseResult)
    ensures
        final(out).facts() == old(out).facts().join(
            call_facts(node.tree(), source@, opt_str(func)),
        ),
        final(out).lines_total == old(out).lines_total,
{
    broadcast use lemma_join_none;

    let line: usize = line_number(node.start_row());
    let callee = or_empty_string(field_text(node, "method", source));
    if callee.as_str().is_empty() {
        return;
    }
    if str_eq(callee.as_str(), "require") || str_eq(callee.as_str(), "require_relative") || str_eq(
        callee.as_str(),
        "load",
    ) {
        let module = match node.field("arguments") {
            Some(a) => match first_named_child(&a) {
                Some(first) => Some(trim_either(node_text(&first, source), '"', '\'')),
                None => None,
            },
            None => None,
        };
        assert(opt_text(module) == required_file(node.tree(), source@));
        out.add_import(ParsedImport { module, name: None, alias: None, line, kind: callee });
        return;
    }
    out.add_call(ParsedCall { caller: caller_name(func), callee, line });
}

fn visit_assignment<N: SyntaxRead>(node: &N, source: &str, out: &mut ParseResult)
    ensures
        final(out).facts() == old(out).facts().join(assignment_facts(node.tree(), source@)),
        final(out).lines_total == old(out).lines_total,
{
    broadcast use lemma_join_none;

    let name = or_empty_string(field_text(node, "left", source));
    if name.as_str().is_empty() {
        return;
    }
    let value = shorten(field_text(node, "right", source));
    out.add_variable(ParsedVariable { name, value, line: line_number(node.start_row()) });
}

/// Extracts the facts from the syntax tree of a Ruby file.
pub fn extract_ruby<N: SyntaxRead>(root: &N, source: &str) -> (r: ParseResult)
    ensures
        r.facts() == ruby_facts(root.tree(), source@),
        r.lines_total == line_count(source@),
{
    let mut out = empty_parse_result(source);
    visit_children(root, source, None, None, true, 0, &mut out);
    proof {
        let f = ruby_facts(root.tree(), source@);
        assert(Facts::none().join(f) =~= f);
    }
    out
}

/// The syntax tree of a Ruby text. The grammar's scanner asks the C library which characters are
/// letters, digits and white space, and compares them with bytes; `classes` holds what one library
/// or machine may make of them otherwise than another, all of it on characters outside ASCII.
pub uninterp spec fn ruby_syntax(source: Seq<char>, classes: Map<char, nat>) -> SyntaxTree;

/// Parses with the grammar of `tree_sitter_ruby` through `tree_sitter::Parser::parse`. The
/// grammar's version is one that fits, so there is no error. No tree means that the time ran out.
/// An empty text is reduced to a root without children in two steps, before the clock is looked
/// at. A tree is a function of the text and of what the C library and the machine make of
/// characters outside ASCII. Heredocs that the grammar's scanner has no room for are left out, as
/// it ends the process at some of them.
#[allow(deprecated)]
#[verifier::external_body]
fn parse_ruby_tree(source: &str, timeout_micros: u64) -> (r: Result<
    Option<tree_sitter::Tree>,
    tree_sitter::LanguageError,
>)
    requires
        heredocs_fit(source@),
    ensures
        r is Ok,
        source@.len() == 0 ==> r->Ok_0 is Some && parsed_tree(r->Ok_0->0).children.len() == 0,
        r matches Ok(Some(tree)) ==> exists|classes: Map<char, nat>|
            parsed_tree(tree) == #[trigger] ruby_syntax(source@, classes) && (is_ascii_chars(
                source@,
            ) ==> classes == Map::<char, nat>::empty()),
{
    let mut parser = tree_sitter::Parser::new();
    parser.set_language(&tree_sitter_ruby::LANGUAGE.into())?;
    parser.set_timeout_micros(timeout_micros);
    Ok(parser.parse(source, None))
}

/// Whether a call of `parse_ruby_tree` with this text and this limit of time ended with a tree, or with
/// none.
pub closed spec fn ruby_outcome(
    source: Seq<char>,
    micros: u64,
    outcome: Option<tree_sitter::Tree>,
) -> bool {
    exists|text: &str|
        text@ == source && #[trigger] call_ensures(parse_ruby_tree, (text, micros), Ok(outcome))
}

/// What is known of a Ruby text, given what `tree_sitter` made of it. Where the time ran out
/// there are no facts.
pub fn ruby_result(
    parsed: Result<Option<tree_sitter::Tree>, tree_sitter::LanguageError>,
    source: &str,
) -> (r: Result<ParseResult, ParseError>)
    ensures
        match parsed {
            Ok(Some(tree)) => r is Ok && r->Ok_0.lines_total == line_count(source@)
                && r->Ok_0.facts() == ruby_facts(parsed_tree(tree), source@),
            Ok(None) => r is Ok && r->Ok_0.lines_total == line_count(source@) && r->Ok_0.facts()
                == Facts::none(),
            Err(_) => r == Err::<ParseResult, ParseError>(ParseError::Language),
        },
{
    match parsed {
        Ok(Some(tree)) => {
            let root = TsNode { node: ts_root(&tree) };
            Ok(extract_ruby(&root, source))
        },
        Ok(None) => Ok(empty_parse_result(source)),
        Err(_) => Err(ParseError::Language),
    }
}

/// The parser of Ruby files. Classes are classes, modules and opened singleton classes. A call
/// without brackets, receiver and arguments reads like a variable in the grammar and is not
/// extracted.
pub struct RubyParser;

impl RubyParser {
    pub fn new() -> (r: Self)
        ensures
            r == RubyParser,
    {
        RubyParser
    }

    pub fn language_name(&self) -> (r: &'static str)
        ensures
            r@ == "ruby"@,
    {
        "ruby"
    }

    pub fn file_extensions(&self) -> (r: Vec<&'static str>)
        ensures
            r@.len() == 1,
            r@[0]@ == "rb"@,
    {
        vec!["rb"]
    }

    /// Parses a Ruby file. One that looks binary, runs over the time or has heredocs that the
    /// grammar's scanner has no room for stays without facts, and so does an empty text.
    pub fn parse(&self, source: &str, file_path: &str) -> (r: Result<ParseResult, ParseError>)
        ensures
            r is Ok,
            r->Ok_0.lines_total == line_count(source@),
            r->Ok_0.facts() == Facts::none() || (!binary_text(source@) && heredocs_fit(source@)
                && exists|classes: Map<char, nat>|
                r->Ok_0.facts() == ruby_facts(#[trigger] ruby_syntax(source@, classes), source@)
                    && (is_ascii_chars(source@) ==> classes == Map::<char, nat>::empty())),
            source@.len() == 0 ==> r->Ok_0.facts() == Facts::none(),
            !binary_text(source@) && heredocs_fit(source@) ==> exists|outcome: Option<tree_sitter::Tree>| #[trigger]
                ruby_outcome(source@, 10_000_000, outcome) && r->Ok_0.facts() == (match outcome {
                    Some(tree) => ruby_facts(parsed_tree(tree), source@),
                    None => Facts::none(),
                }),
    {
        if looks_binary(source) || !heredocs_have_room(source) {
            return Ok(empty_parse_result(source));
        }
        let parsed = parse_ruby_tree(source, PARSE_TIMEOUT_MS * 1000);
        let ghost given = parsed;
        assert(ruby_outcome(source@, 10_000_000, given->Ok_0));
        let r = ruby_result(parsed, source);
        proof {
            if let Ok(Some(tree)) = given {
                assert(r->Ok_0.facts() == ruby_facts(parsed_tree(tree), source@));
            }
        }
        r
    }
}

} // verus!
