//! C#.

use crate::parser::callee::{callee_name, callee_of, plain_name};
use crate::parser::syntax::{
    find_child_by_kind, latin_or_cyrillic, line_number, line_of, node_text, parsed_tree, text_at,
    ts_root, SyntaxRead, SyntaxTree, TsNode,
};
use crate::parser::types::{
    binary_text, empty_parse_result, lemma_join, lemma_join_none, line_count, looks_binary, opt_str,
    opt_text, sha256_hex, sha256_text, CallFact, ClassFact, Facts, FunctionFact, ImportFact,
    ParseResult, ParsedCall, ParsedClass, ParsedFunction, ParsedImport, ParsedVariable,
    VariableFact, MAX_VISIT_DEPTH, PARSE_TIMEOUT_MS,
};
use crate::parser::walk::{
    caller_name, caller_of, doc_before, extract_doc, field_of, field_text, first_of, kind_of,
    kind_text, last_named, last_named_index, or_empty, or_empty_string, or_string, qualified,
    qualify, short_value, shorten, text_in, DocStyle,
};
use crate::parser::ParseError;
use crate::text::str_eq;
use vstd::prelude::*;
use vstd::string::*;

verus! {

/// Whether a node declares a function.
pub open spec fn declares_function(kind: Seq<char>) -> bool {
    kind == "method_declaration"@ || kind == "constructor_declaration"@ || kind
        == "destructor_declaration"@ || kind == "local_function_statement"@
}

/// Whether a node declares a class.
pub open spec fn declares_class(kind: Seq<char>) -> bool {
    kind == "class_declaration"@ || kind == "interface_declaration"@ || kind
        == "struct_declaration"@ || kind == "enum_declaration"@ || kind == "record_declaration"@
}

/// Whether a declaration carries the modifier `async`.
pub open spec fn is_async(t: SyntaxTree, source: Seq<char>) -> bool {
    exists|i: int|
        0 <= i < t.children.len() && (#[trigger] t.children[i]).kind == "modifier"@ && text_at(
            t.children[i],
            source,
        ) == "async"@
}

/// The function that the child at `i` declares.
pub open spec fn function_fact(
    parent: SyntaxTree,
    i: int,
    source: Seq<char>,
    class: Option<Seq<char>>,
) -> FunctionFact {
    let node = parent.children[i];
    let name = or_empty(text_in(field_of(node, "name"@), source));
    FunctionFact {
        name,
        qualified_name: qualified(class, "."@, name),
        line_start: line_of(node.start_row),
        line_end: line_of(node.end_row),
        args: text_in(field_of(node, "parameters"@), source),
        return_type: first_of(
            text_in(field_of(node, "returns"@), source),
            text_in(field_of(node, "type"@), source),
        ),
        docstring: doc_before(DocStyle::CSharp, parent, i, source),
        body: text_at(node, source),
        is_async: is_async(node, source),
        node_hash: sha256_text(text_at(node, source)),
        override_type: None,
        override_target: None,
    }
}

/// The class that the child at `i` declares.
pub open spec fn class_fact(parent: SyntaxTree, i: int, source: Seq<char>) -> ClassFact {
    let node = parent.children[i];
    ClassFact {
        name: or_empty(text_in(field_of(node, "name"@), source)),
        line_start: line_of(node.start_row),
        line_end: line_of(node.end_row),
        bases: text_in(kind_of(node, "base_list"@), source),
        docstring: doc_before(DocStyle::CSharp, parent, i, source),
        body: text_at(node, source),
        node_hash: sha256_text(text_at(node, source)),
    }
}

/// The index of the last named child before `end` that is not the alias.
pub open spec fn using_target(t: SyntaxTree, end: int) -> Option<int>
    decreases end,
{
    if end <= 0 || end > t.children.len() {
        None
    } else if t.children[end - 1].named && t.field_index("name"@) != Some(end - 1) {
        Some(end - 1)
    } else {
        using_target(t, end - 1)
    }
}

/// What a `using` directive imports.
pub open spec fn using_fact(t: SyntaxTree, source: Seq<char>) -> ImportFact {
    ImportFact {
        module: match using_target(t, t.children.len() as int) {
            Some(k) => Some(text_at(t.children[k], source)),
            None => None,
        },
        name: None,
        alias: text_in(field_of(t, "name"@), source),
        line: line_of(t.start_row),
        kind: "using"@,
    }
}

/// The value of a variable: its last named child, unless that is its name.
pub open spec fn declarator_value(t: SyntaxTree, source: Seq<char>) -> Option<Seq<char>> {
    match last_named(t) {
        Some(k) => if t.field_index("name"@) == Some(k) {
            None
        } else {
            short_value(Some(text_at(t.children[k], source)))
        },
        None => None,
    }
}

/// The variables among the children of a declaration from `i` on.
pub open spec fn declarator_facts(t: SyntaxTree, i: int, line: nat, source: Seq<char>) -> Facts
    decreases t.children.len() - i,
{
    if i < 0 || i >= t.children.len() {
        Facts::none()
    } else {
        let rest = declarator_facts(t, i + 1, line, source);
        let child = t.children[i];
        match field_of(child, "name"@) {
            Some(name) => if child.kind == "variable_declarator"@ {
                Facts::variable(
                    VariableFact {
                        name: text_at(name, source),
                        value: declarator_value(child, source),
                        line,
                    },
                ).join(rest)
            } else {
                rest
            },
            None => rest,
        }
    }
}

/// The variables that a field declaration declares.
pub open spec fn field_facts(t: SyntaxTree, source: Seq<char>) -> Facts {
    match kind_of(t, "variable_declaration"@) {
        Some(decl) => declarator_facts(decl, 0, line_of(t.start_row), source),
        None => Facts::none(),
    }
}

/// The call that an invocation makes.
pub open spec fn call_facts(t: SyntaxTree, source: Seq<char>, func: Option<Seq<char>>) -> Facts {
    match field_of(t, "function"@) {
        Some(f) => match callee_of(f, source) {
            Some(callee) => Facts::call(
                CallFact { caller: caller_of(func), callee, line: line_of(t.start_row) },
            ),
            None => Facts::none(),
        },
        None => Facts::none(),
    }
}

/// The facts in the children of `parent` from `i` on.
pub open spec fn children_facts(
    parent: SyntaxTree,
    i: int,
    source: Seq<char>,
    class: Option<Seq<char>>,
    func: Option<Seq<char>>,
    depth: nat,
) -> Facts
    decreases parent, parent.children.len() - i, 3nat,
{
    if i < 0 || i >= parent.children.len() {
        Facts::none()
    } else {
        node_facts(parent, i, source, class, func, depth).join(
            children_facts(parent, i + 1, source, class, func, depth),
        )
    }
}

/// The facts in the child of `parent` at `i`, `depth` levels into the walk.
pub open spec fn node_facts(
    parent: SyntaxTree,
    i: int,
    source: Seq<char>,
    class: Option<Seq<char>>,
    func: Option<Seq<char>>,
    depth: nat,
) -> Facts
    decreases parent, parent.children.len() - i, 2nat,
{
    if i < 0 || i >= parent.children.len() || depth > MAX_VISIT_DEPTH {
        Facts::none()
    } else {
        let node = parent.children[i];
        if declares_function(node.kind) {
            function_facts(parent, i, source, class)
        } else if declares_class(node.kind) {
            class_facts(parent, i, source)
        } else if node.kind == "using_directive"@ {
            Facts::import(using_fact(node, source))
        } else if node.kind == "field_declaration"@ {
            field_facts(node, source)
        } else if node.kind == "invocation_expression"@ {
            call_facts(node, source, func).join(
                children_facts(node, 0, source, class, func, depth + 1),
            )
        } else {
            children_facts(node, 0, source, class, func, depth + 1)
        }
    }
}

/// The function that the child at `i` declares, and the facts in its body.
pub open spec fn function_facts(
    parent: SyntaxTree,
    i: int,
    source: Seq<char>,
    class: Option<Seq<char>>,
) -> Facts
    decreases parent, parent.children.len() - i, 1nat,
{
    if i < 0 || i >= parent.children.len() {
        Facts::none()
    } else {
        let node = parent.children[i];
        let fact = function_fact(parent, i, source, class);
        if fact.name.len() == 0 {
            Facts::none()
        } else {
            match node.field_index("body"@) {
                Some(k) => if 0 <= k < node.children.len() {
                    Facts::function(fact).join(
                        children_facts(node.children[k], 0, source, class, Some(fact.name), 1),
                    )
                } else {
                    Facts::none()
                },
                None => Facts::function(fact),
            }
        }
    }
}

/// The class that the child at `i` declares, and the facts in its body.
pub open spec fn class_facts(parent: SyntaxTree, i: int, source: Seq<char>) -> Facts
    decreases parent, parent.children.len() - i, 1nat,
{
    if i < 0 || i >= parent.children.len() {
        Facts::none()
    } else {
        let node = parent.children[i];
        let fact = class_fact(parent, i, source);
        if fact.name.len() == 0 {
            Facts::none()
        } else {
            match node.field_index("body"@) {
                Some(k) => if 0 <= k < node.children.len() {
                    Facts::class(fact).join(
                        children_facts(node.children[k], 0, source, Some(fact.name), None, 1),
                    )
                } else {
                    Facts::none()
                },
                None => Facts::class(fact),
            }
        }
    }
}

/// The facts in a C# file.
pub open spec fn csharp_facts(root: SyntaxTree, source: Seq<char>) -> Facts {
    children_facts(root, 0, source, None, None, 0)
}

/// Whether every call has the bare name of a function for its callee.
pub open spec fn callees_are_names(f: Facts) -> bool {
    forall|i: int| 0 <= i < f.calls.len() ==> plain_name((#[trigger] f.calls[i]).callee)
}

proof fn lemma_joined_callees(a: Facts, b: Facts)
    requires
        callees_are_names(a),
        callees_are_names(b),
    ensures
        callees_are_names(a.join(b)),
{
    let c = a.join(b);
    assert forall|i: int| 0 <= i < c.calls.len() implies plain_name(
        (#[trigger] c.calls[i]).callee,
    ) by {
        if i < a.calls.len() {
            assert(c.calls[i] == a.calls[i]);
        } else {
            assert(c.calls[i] == b.calls[i - a.calls.len()]);
        }
    }
}

proof fn lemma_declarators_call_nothing(t: SyntaxTree, i: int, line: nat, source: Seq<char>)
    ensures
        declarator_facts(t, i, line, source).calls.len() == 0,
    decreases t.children.len() - i,
{
    if 0 <= i < t.children.len() {
        lemma_declarators_call_nothing(t, i + 1, line, source);
    }
}

proof fn lemma_callees(
    parent: SyntaxTree,
    i: int,
    source: Seq<char>,
    class: Option<Seq<char>>,
    func: Option<Seq<char>>,
    depth: nat,
)
    ensures
        callees_are_names(children_facts(parent, i, source, class, func, depth)),
    decreases parent, parent.children.len() - i,
{
    if 0 <= i < parent.children.len() {
        lemma_callees(parent, i + 1, source, class, func, depth);
        let node = parent.children[i];
        assert(callees_are_names(node_facts(parent, i, source, class, func, depth))) by {
            if depth <= MAX_VISIT_DEPTH {
                if declares_function(node.kind) || declares_class(node.kind) {
                    if let Some(k) = node.field_index("body"@) {
                        if 0 <= k < node.children.len() {
                            let body = node.children[k];
                            let function = function_fact(parent, i, source, class);
                            let container = class_fact(parent, i, source);
                            lemma_callees(body, 0, source, class, Some(function.name), 1);
                            lemma_callees(body, 0, source, Some(container.name), None, 1);
                            lemma_joined_callees(
                                Facts::function(function),
                                children_facts(body, 0, source, class, Some(function.name), 1),
                            );
                            lemma_joined_callees(
                                Facts::class(container),
                                children_facts(body, 0, source, Some(container.name), None, 1),
                            );
                        }
                    }
                } else {
                    lemma_callees(node, 0, source, class, func, depth + 1);
                    lemma_joined_callees(
                        call_facts(node, source, func),
                        children_facts(node, 0, source, class, func, depth + 1),
                    );
                    if let Some(d) = kind_of(node, "variable_declaration"@) {
                        lemma_declarators_call_nothing(d, 0, line_of(node.start_row), source);
                    }
                }
            }
        }
        lemma_joined_callees(
            node_facts(parent, i, source, class, func, depth),
            children_facts(parent, i + 1, source, class, func, depth),
        );
    }
}

/// Every call in a C# file is recorded under the bare name of what is called, however the
/// callee is written: a search of the calls for a name finds them all. A call of the result
/// of an expression has no name and is not recorded.
pub proof fn law_callees_are_bare_names(root: SyntaxTree, source: Seq<char>)
    ensures
        callees_are_names(csharp_facts(root, source)),
{
    lemma_callees(root, 0, source, None, None, 0);
}

fn is_function_kind(kind: &str) -> (r: bool)
    ensures
        r == declares_function(kind@),
{
    str_eq(kind, "method_declaration") || str_eq(kind, "constructor_declaration") || str_eq(
        kind,
        "destructor_declaration",
    ) || str_eq(kind, "local_function_statement")
}

fn is_class_kind(kind: &str) -> (r: bool)
    ensures
        r == declares_class(kind@),
{
    str_eq(kind, "class_declaration") || str_eq(kind, "interface_declaration") || str_eq(
        kind,
        "struct_declaration",
    ) || str_eq(kind, "enum_declaration") || str_eq(kind, "record_declaration")
}

fn has_async_modifier<N: SyntaxRead>(node: &N, source: &str) -> (r: bool)
    ensures
        r == is_async(node.tree(), source@),
{
    let n: usize = node.child_count();
    let mut i: usize = 0;
    while i < n
        invariant
            i <= n,
            n == node.tree().children.len(),
            forall|j: int|
                0 <= j < i ==> !((#[trigger] node.tree().children[j]).kind == "modifier"@
                    && text_at(node.tree().children[j], source@) == "async"@),
        decreases n - i,
    {
        let c = node.child(i);
        if str_eq(c.kind(), "modifier") && str_eq(node_text(&c, source), "async") {
            assert(node.tree().children[i as int].kind == "modifier"@);
            return true;
        }
        i += 1;
    }
    false
}

fn visit_children<N: SyntaxRead>(
    parent: &N,
    source: &str,
    class: Option<&str>,
    func: Option<&str>,
    depth: usize,
    out: &mut ParseResult,
)
    requires
        depth <= MAX_VISIT_DEPTH + 1,
    ensures
        final(out).facts() == old(out).facts().join(
            children_facts(parent.tree(), 0, source@, opt_str(class), opt_str(func), depth as nat),
        ),
        final(out).lines_total == old(out).lines_total,
    decreases parent.tree(), parent.tree().children.len(), 3nat,
{
    broadcast use {lemma_join, lemma_join_none};

    let n: usize = parent.child_count();
    let mut i: usize = 0;
    let ghost all = old(out).facts().join(
        children_facts(parent.tree(), 0, source@, opt_str(class), opt_str(func), depth as nat),
    );
    while i < n
        invariant
            i <= n,
            n == parent.tree().children.len(),
            depth <= MAX_VISIT_DEPTH + 1,
            out.lines_total == old(out).lines_total,
            out.facts().join(
                children_facts(
                    parent.tree(),
                    i as int,
                    source@,
                    opt_str(class),
                    opt_str(func),
                    depth as nat,
                ),
            ) == all,
        decreases n - i,
    {
        broadcast use {lemma_join, lemma_join_none};

        visit_node(parent, i, source, class, func, depth, out);
        i += 1;
    }
}

fn visit_node<N: SyntaxRead>(
    parent: &N,
    i: usize,
    source: &str,
    class: Option<&str>,
    func: Option<&str>,
    depth: usize,
    out: &mut ParseResult,
)
    requires
        i < parent.tree().children.len(),
        depth <= MAX_VISIT_DEPTH + 1,
    ensures
        final(out).facts() == old(out).facts().join(
            node_facts(
                parent.tree(),
                i as int,
                source@,
                opt_str(class),
                opt_str(func),
                depth as nat,
            ),
        ),
        final(out).lines_total == old(out).lines_total,
    decreases parent.tree(), parent.tree().children.len() - i, 2nat,
{
    broadcast use {lemma_join, lemma_join_none};

    if depth > MAX_VISIT_DEPTH {
        return;
    }
    let node = parent.child(i);
    if is_function_kind(node.kind()) {
        visit_function(parent, i, source, class, out);
    } else if is_class_kind(node.kind()) {
        visit_class(parent, i, source, out);
    } else if str_eq(node.kind(), "using_directive") {
        visit_using(&node, source, out);
    } else if str_eq(node.kind(), "field_declaration") {
        visit_field(&node, source, out);
    } else if str_eq(node.kind(), "invocation_expression") {
        visit_call(&node, source, func, out);
        visit_children(&node, source, class, func, depth + 1, out);
    } else {
        visit_children(&node, source, class, func, depth + 1, out);
    }
}

fn visit_function<N: SyntaxRead>(
    parent: &N,
    i: usize,
    source: &str,
    class: Option<&str>,
    out: &mut ParseResult,
)
    requires
        i < parent.tree().children.len(),
    ensures
        final(out).facts() == old(out).facts().join(
            function_facts(parent.tree(), i as int, source@, opt_str(class)),
        ),
        final(out).lines_total == old(out).lines_total,
    decreases parent.tree(), parent.tree().children.len() - i, 1nat,
{
    broadcast use {lemma_join, lemma_join_none};

    let node = parent.child(i);
    let name = or_empty_string(field_text(&node, "name", source));
    if name.as_str().is_empty() {
        return;
    }
    let body = node_text(&node, source);
    let f = ParsedFunction {
        name: name.clone(),
        qualified_name: qualify(class, ".", name.as_str()),
        line_start: line_number(node.start_row()),
        line_end: line_number(node.end_row()),
        args: field_text(&node, "parameters", source),
        return_type: or_string(
            field_text(&node, "returns", source),
            field_text(&node, "type", source),
        ),
        docstring: extract_doc(DocStyle::CSharp, parent, i, source),
        body: body.to_owned(),
        is_async: has_async_modifier(&node, source),
        node_hash: sha256_hex(body),
        override_type: None,
        override_target: None,
    };
    assert(f@ == function_fact(parent.tree(), i as int, source@, opt_str(class)));
    out.add_function(f);
    if let Some(inner) = node.field("body") {
        visit_children(&inner, source, class, Some(name.as_str()), 1, out);
    }
}

fn visit_class<N: SyntaxRead>(parent: &N, i: usize, source: &str, out: &mut ParseResult)
    requires
        i < parent.tree().children.len(),
    ensures
        final(out).facts() == old(out).facts().join(
            class_facts(parent.tree(), i as int, source@),
        ),
        final(out).lines_total == old(out).lines_total,
    decreases parent.tree(), parent.tree().children.len() - i, 1nat,
{
    broadcast use {lemma_join, lemma_join_none};

    let node = parent.child(i);
    let name = or_empty_string(field_text(&node, "name", source));
    if name.as_str().is_empty() {
        return;
    }
    let body = node_text(&node, source);
    let c = ParsedClass {
        name: name.clone(),
        line_start: line_number(node.start_row()),
        line_end: line_number(node.end_row()),
        bases: kind_text(&node, "base_list", source),
        docstring: extract_doc(DocStyle::CSharp, parent, i, source),
        body: body.to_owned(),
        node_hash: sha256_hex(body),
    };
    assert(c@ == class_fact(parent.tree(), i as int, source@));
    out.add_class(c);
    if let Some(inner) = node.field("body") {
        visit_children(&inner, source, Some(name.as_str()), None, 1, out);
    }
}

fn visit_using<N: SyntaxRead>(node: &N, source: &str, out: &mut ParseResult)
    ensures
        final(out).facts() == old(out).facts().join(
            Facts::import(using_fact(node.tree(), source@)),
        ),
        final(out).lines_total == old(out).lines_total,
{
    let alias_index = node.field_index("name");
    let mut end: usize = node.child_count();
    let mut module: Option<String> = None;
    let ghost all = using_target(node.tree(), node.tree().children.len() as int);
    while end > 0 && module.is_none()
        invariant
            end <= node.tree().children.len(),
            all == using_target(node.tree(), node.tree().children.len() as int),
            module is None ==> all == using_target(node.tree(), end as int),
            module is Some ==> all is Some && opt_text(module) == Some(
                text_at(node.tree().children[all->0], source@),
            ),
            match alias_index {
                Some(k) => node.tree().field_index("name"@) == Some(k as int),
                None => node.tree().field_index("name"@) is None,
            },
        decreases end,
    {
        let c = node.child(end - 1);
        let alias: bool = match alias_index {
            Some(k) => k == end - 1,
            None => false,
        };
        if c.is_named() && !alias {
            module = Some(node_text(&c, source).to_owned());
        }
        end -= 1;
    }
    let import = ParsedImport {
        module,
        name: None,
        alias: field_text(node, "name", source),
        line: line_number(node.start_row()),
        kind: "using".to_owned(),
    };
    assert(import@ == using_fact(node.tree(), source@));
    out.add_import(import);
}

fn visit_field<N: SyntaxRead>(node: &N, source: &str, out: &mut ParseResult)
    ensures
        final(out).facts() == old(out).facts().join(field_facts(node.tree(), source@)),
        final(out).lines_total == old(out).lines_total,
{
    broadcast use {lemma_join, lemma_join_none};

    let line: usize = line_number(node.start_row());
    let decl = match find_child_by_kind(node, "variable_declaration") {
        Some(d) => d,
        None => {
            return;
        },
    };
    let n: usize = decl.child_count();
    let mut i: usize = 0;
    let ghost all = old(out).facts().join(
        declarator_facts(decl.tree(), 0, line as nat, source@),
    );
    while i < n
        invariant
            i <= n,
            n == decl.tree().children.len(),
            out.lines_total == old(out).lines_total,
            out.facts().join(declarator_facts(decl.tree(), i as int, line as nat, source@)) == all,
        decreases n - i,
    {
        broadcast use {lemma_join, lemma_join_none};

        let child = decl.child(i);
        if str_eq(child.kind(), "variable_declarator") {
            if let Some(name) = child.field("name") {
                let value = match last_named_index(&child) {
                    Some(k) => {
                        let is_name: bool = match child.field_index("name") {
                            Some(j) => j == k,
                            None => false,
                        };
                        if is_name {
                            None
                        } else {
                            let c = child.child(k);
                            shorten(Some(node_text(&c, source).to_owned()))
                        }
                    },
                    None => None,
                };
                assert(opt_text(value) == declarator_value(child.tree(), source@));
                let v = ParsedVariable { name: node_text(&name, source).to_owned(), value, line };
                out.add_variable(v);
            }
        }
        i += 1;
    }
}

fn visit_call<N: SyntaxRead>(node: &N, source: &str, func: Option<&str>, out: &mut ParseResult)
    ensures
        final(out).facts() == old(out).facts().join(
            call_facts(node.tree(), source@, opt_str(func)),
        ),
        final(out).lines_total == old(out).lines_total,
{
    broadcast use lemma_join_none;

    if let Some(f) = node.field("function") {
        if let Some(callee) = callee_name(&f, source) {
            out.add_call(
                ParsedCall {
                    caller: caller_name(func),
                    callee,
                    line: line_number(node.start_row()),
                },
            );
        }
    }
}

/// Extracts the facts from the syntax tree of a C# file.
pub fn extract_csharp<N: SyntaxRead>(root: &N, source: &str) -> (r: ParseResult)
    ensures
        r.facts() == csharp_facts(root.tree(), source@),
        r.lines_total == line_count(source@),
{
    let mut out = empty_parse_result(source);
    visit_children(root, source, None, None, 0, &mut out);
    proof {
        let f = csharp_facts(root.tree(), source@);
        assert(Facts::none().join(f) =~= f);
    }
    out
}

/// The syntax tree of a C# text. The grammar's scanner asks the C library which characters are
/// white space; `classes` holds the answers in which one library may differ from another, all of
/// them on characters outside ASCII.
pub uninterp spec fn csharp_syntax(source: Seq<char>, classes: Map<char, nat>) -> SyntaxTree;

/// Parses with the grammar of `tree_sitter_c_sharp` through `tree_sitter::Parser::parse`. The
/// grammar's version is one that fits, so there is no error. No tree means that the time ran out.
/// An empty text is reduced to a root without children in two steps, before the clock is looked
/// at. A tree is a function of the text and of what the C library answers on characters outside
/// ASCII; on Cyrillic letters its answer is the same everywhere.
#[allow(deprecated)]
#[verifier::external_body]
fn parse_csharp_tree(source: &str, timeout_micros: u64) -> (r: Result<
    Option<tree_sitter::Tree>,
    tree_sitter::LanguageError,
>)
    ensures
        r is Ok,
        source@.len() == 0 ==> r->Ok_0 is Some && parsed_tree(r->Ok_0->0).children.len() == 0,
        r matches Ok(Some(tree)) ==> exists|classes: Map<char, nat>|
            parsed_tree(tree) == #[trigger] csharp_syntax(source@, classes) && (latin_or_cyrillic(
                source@,
            ) ==> classes == Map::<char, nat>::empty()),
{
    let mut parser = tree_sitter::Parser::new();
    parser.set_language(&tree_sitter_c_sharp::LANGUAGE.into())?;
    parser.set_timeout_micros(timeout_micros);
    Ok(parser.parse(source, None))
}

/// Whether a call of `parse_csharp_tree` with this text and this limit of time ended with a tree, or with
/// none.
pub closed spec fn csharp_outcome(
    source: Seq<char>,
    micros: u64,
    outcome: Option<tree_sitter::Tree>,
) -> bool {
    exists|text: &str|
        text@ == source && #[trigger] call_ensures(parse_csharp_tree, (text, micros), Ok(outcome))
}

/// What is known of a C# text, given what `tree_sitter` made of it. Where the time ran out
/// there are no facts.
pub fn csharp_result(
    parsed: Result<Option<tree_sitter::Tree>, tree_sitter::LanguageError>,
    source: &str,
) -> (r: Result<ParseResult, ParseError>)
    ensures
        match parsed {
            Ok(Some(tree)) => r is Ok && r->Ok_0.lines_total == line_count(source@)
                && r->Ok_0.facts() == csharp_facts(parsed_tree(tree), source@),
            Ok(None) => r is Ok && r->Ok_0.lines_total == line_count(source@) && r->Ok_0.facts()
                == Facts::none(),
            Err(_) => r == Err::<ParseResult, ParseError>(ParseError::Language),
        },
{
    match parsed {
        Ok(Some(tree)) => {
            let root = TsNode { node: ts_root(&tree) };
            Ok(extract_csharp(&root, source))
        },
        Ok(None) => Ok(empty_parse_result(source)),
        Err(_) => Err(ParseError::Language),
    }
}

/// The parser of C# files. Classes are classes, interfaces, structs, enums and records;
/// namespaces are only descended into.
pub struct CSharpParser;

impl CSharpParser {
    pub fn new() -> (r: Self)
        ensures
            r == CSharpParser,
    {
        CSharpParser
    }

    pub fn language_name(&self) -> (r: &'static str)
        ensures
            r@ == "csharp"@,
    {
        "csharp"
    }

    pub fn file_extensions(&self) -> (r: Vec<&'static str>)
        ensures
            r@.len() == 1,
            r@[0]@ == "cs"@,
    {
        vec!["cs"]
    }

    /// Parses a C# file. One that looks binary or runs over the time stays without facts, and
    /// so does an empty text.
    pub fn parse(&self, source: &str, file_path: &str) -> (r: Result<ParseResult, ParseError>)
        ensures
            r is Ok,
            r->Ok_0.lines_total == line_count(source@),
            r->Ok_0.facts() == Facts::none() || (!binary_text(source@) && exists|
                classes: Map<char, nat>,
            |
                r->Ok_0.facts() == csharp_facts(#[trigger] csharp_syntax(source@, classes), source@)
                    && (latin_or_cyrillic(source@) ==> classes == Map::<char, nat>::empty())),
            source@.len() == 0 ==> r->Ok_0.facts() == Facts::none(),
            !binary_text(source@) ==> exists|outcome: Option<tree_sitter::Tree>| #[trigger]
                csharp_outcome(source@, 10_000_000, outcome) && r->Ok_0.facts() == (match outcome {
                    Some(tree) => csharp_facts(parsed_tree(tree), source@),
                    None => Facts::none(),
                }),
    {
        if looks_binary(source) {
            return Ok(empty_parse_result(source));
        }
        let parsed = parse_csharp_tree(source, PARSE_TIMEOUT_MS * 1000);
        let ghost given = parsed;
        assert(csharp_outcome(source@, 10_000_000, given->Ok_0));
        let r = csharp_result(parsed, source);
        proof {
            if let Ok(Some(tree)) = given {
                assert(r->Ok_0.facts() == csharp_facts(parsed_tree(tree), source@));
            }
        }
        r
    }
}

} // verus!
