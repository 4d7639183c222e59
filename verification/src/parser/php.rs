//! PHP.

use crate::parser::syntax::{
    find_child_by_kind, latin_or_cyrillic, line_number, line_of, node_text, parsed_tree, text_at,
    ts_root, SyntaxRead, SyntaxTree, TsNode,
};
use crate::parser::types::{
    binary_text, empty_parse_result, lemma_join, lemma_join_none, line_count, looks_binary, opt_str,
    opt_text, sha256_hex, sha256_text, CallFact, ClassFact, Facts, FunctionFact, ImportFact,
    ParseResult, ParsedCall, ParsedClass, ParsedFunction, ParsedImport, ParsedVariable,
    VariableFact, MAX_VISIT_DEPTH, PARSE_TIMEOUT_MS,
};
use crate::parser::walk::{
    caller_name, caller_of, field_of, field_text, first_of, kind_of, kind_text, last_named,
    last_named_index, or_empty, or_empty_string, or_string, qualified, qualify, short_value,
    shorten, text_in,
};
use crate::parser::ParseError;
use crate::text::{begins_with, concat3, starts_with, str_eq};
use vstd::prelude::*;
use vstd::string::*;

verus! {

/// Whether a node declares a function.
pub open spec fn declares_function(kind: Seq<char>) -> bool {
    kind == "function_definition"@ || kind == "method_declaration"@
}

/// Whether a node declares a class.
pub open spec fn declares_class(kind: Seq<char>) -> bool {
    kind == "class_declaration"@ || kind == "interface_declaration"@ || kind
        == "trait_declaration"@ || kind == "enum_declaration"@
}

/// Whether a node brings in another file.
pub open spec fn requires_file(kind: Seq<char>) -> bool {
    kind == "include_expression"@ || kind == "include_once_expression"@ || kind
        == "require_expression"@ || kind == "require_once_expression"@
}

/// Whether a node is a call.
pub open spec fn makes_call(kind: Seq<char>) -> bool {
    kind == "function_call_expression"@ || kind == "member_call_expression"@ || kind
        == "nullsafe_member_call_expression"@ || kind == "scoped_call_expression"@
}

/// The documentation of the child at `i`: the `/**` comment right before it.
pub open spec fn phpdoc(parent: SyntaxTree, i: int, source: Seq<char>) -> Option<Seq<char>> {
    if 0 < i <= parent.children.len() && parent.children[i - 1].kind == "comment"@ && begins_with(
        text_at(parent.children[i - 1], source),
        "/**"@,
    ) {
        Some(text_at(parent.children[i - 1], source))
    } else {
        None
    }
}

/// The index of the body of a function.
pub open spec fn function_body(t: SyntaxTree) -> Option<int> {
    first_of(
        t.field_index("body"@),
        crate::parser::syntax::kind_index(t, "compound_statement"@),
    )
}

/// The index of the body of a class.
pub open spec fn class_body(t: SyntaxTree) -> Option<int> {
    first_of(
        t.field_index("body"@),
        first_of(
            crate::parser::syntax::kind_index(t, "declaration_list"@),
            crate::parser::syntax::kind_index(t, "enum_declaration_list"@),
        ),
    )
}

/// The name of a declaration.
pub open spec fn declared_name(t: SyntaxTree, source: Seq<char>) -> Seq<char> {
    or_empty(
        first_of(
            text_in(field_of(t, "name"@), source),
            text_in(kind_of(t, "name"@), source),
        ),
    )
}

/// The function that the child at `i` declares.
pub open spec fn function_fact(
    parent: SyntaxTree,
    i: int,
    source: Seq<char>,
    class: Option<Seq<char>>,
) -> FunctionFact {
    let node = parent.children[i];
    let name = declared_name(node, source);
    FunctionFact {
        name,
        qualified_name: qualified(class, "::"@, name),
        line_start: line_of(node.start_row),
        line_end: line_of(node.end_row),
        args: first_of(
            text_in(field_of(node, "parameters"@), source),
            text_in(kind_of(node, "formal_parameters"@), source),
        ),
        return_type: text_in(field_of(node, "return_type"@), source),
        docstring: phpdoc(parent, i, source),
        body: text_at(node, source),
        is_async: false,
        node_hash: sha256_text(text_at(node, source)),
        override_type: None,
        override_target: None,
    }
}

/// What a class extends and implements.
pub open spec fn base_names(t: SyntaxTree, source: Seq<char>) -> Option<Seq<char>> {
    let extends = text_in(kind_of(t, "base_clause"@), source);
    let implements = text_in(kind_of(t, "class_interface_clause"@), source);
    match (extends, implements) {
        (Some(e), Some(i)) => Some(e + " "@ + i),
        (Some(e), None) => Some(e),
        (None, Some(i)) => Some(i),
        (None, None) => None,
    }
}

/// The class that the child at `i` declares.
pub open spec fn class_fact(parent: SyntaxTree, i: int, source: Seq<char>) -> ClassFact {
    let node = parent.children[i];
    ClassFact {
        name: declared_name(node, source),
        line_start: line_of(node.start_row),
        line_end: line_of(node.end_row),
        bases: base_names(node, source),
        docstring: phpdoc(parent, i, source),
        body: text_at(node, source),
        node_hash: sha256_text(text_at(node, source)),
    }
}

/// What the clauses of a `use` declaration import, from the child at `i` on.
pub open spec fn use_facts(t: SyntaxTree, i: int, source: Seq<char>) -> Facts
    decreases t.children.len() - i,
{
    if i < 0 || i >= t.children.len() {
        Facts::none()
    } else {
        let rest = use_facts(t, i + 1, source);
        let child = t.children[i];
        if child.kind == "namespace_use_clause"@ {
            Facts::import(
                ImportFact {
                    module: first_of(
                        text_in(kind_of(child, "qualified_name"@), source),
                        text_in(kind_of(child, "name"@), source),
                    ),
                    name: None,
                    alias: text_in(field_of(child, "alias"@), source),
                    line: line_of(t.start_row),
                    kind: "use"@,
                },
            ).join(rest)
        } else {
            rest
        }
    }
}

/// The file that an expression brings in: its last named child.
pub open spec fn require_fact(t: SyntaxTree, source: Seq<char>) -> ImportFact {
    ImportFact {
        module: match last_named(t) {
            Some(k) => Some(text_at(t.children[k], source)),
            None => None,
        },
        name: None,
        alias: None,
        line: line_of(t.start_row),
        kind: if begins_with(t.kind, "require"@) {
            "require"@
        } else {
            "include"@
        },
    }
}

/// The call that an expression makes.
pub open spec fn call_facts(t: SyntaxTree, source: Seq<char>, func: Option<Seq<char>>) -> Facts {
    let callee = or_empty(
        first_of(
            text_in(field_of(t, "function"@), source),
            text_in(field_of(t, "name"@), source),
        ),
    );
    if callee.len() == 0 {
        Facts::none()
    } else {
        Facts::call(CallFact { caller: caller_of(func), callee, line: line_of(t.start_row) })
    }
}

/// The text of the child at `i`.
pub open spec fn child_text(t: SyntaxTree, i: int, source: Seq<char>) -> Option<Seq<char>> {
    if 0 <= i < t.children.len() {
        Some(text_at(t.children[i], source))
    } else {
        None
    }
}

/// The variable that an assignment sets.
pub open spec fn assignment_facts(t: SyntaxTree, source: Seq<char>) -> Facts {
    let name = or_empty(
        first_of(text_in(field_of(t, "left"@), source), child_text(t, 0, source)),
    );
    if name.len() == 0 || name == "="@ {
        Facts::none()
    } else {
        Facts::variable(
            VariableFact {
                name,
                value: short_value(
                    first_of(text_in(field_of(t, "right"@), source), child_text(t, 2, source)),
                ),
                line: line_of(t.start_row),
            },
        )
    }
}

/// The variable that a statement of the file itself sets.
pub open spec fn statement_facts(t: SyntaxTree, parent_kind: Seq<char>, source: Seq<char>) -> Facts {
    if parent_kind == "program"@ {
        match kind_of(t, "assignment_expression"@) {
            Some(a) => assignment_facts(a, source),
            None => Facts::none(),
        }
    } else {
        Facts::none()
    }
}

/// The facts in the children of `parent` from `i` on.
pub open spec fn children_facts(
    parent: SyntaxTree,
    i: int,
    source: Seq<char>,
    class: Option<Seq<char>>,
    func: Option<Seq<char>>,
    parent_kind: Seq<char>,
    depth: nat,
) -> Facts
    decreases parent, parent.children.len() - i, 3nat,
{
    if i < 0 || i >= parent.children.len() {
        Facts::none()
    } else {
        node_facts(parent, i, source, class, func, parent_kind, depth).join(
            children_facts(parent, i + 1, source, class, func, parent_kind, depth),
        )
    }
}

/// The facts in the child of `parent` at `i`, `depth` levels into the walk.
pub open spec fn node_facts(
    parent: SyntaxTree,
    i: int,
    source: Seq<char>,
    class: Option<Seq<char>>,
    func: Option<Seq<char>>,
    parent_kind: Seq<char>,
    depth: nat,
) -> Facts
    decreases parent, parent.children.len() - i, 2nat,
{
    if i < 0 || i >= parent.children.len() || depth > MAX_VISIT_DEPTH {
        Facts::none()
    } else {
        let node = parent.children[i];
        if declares_function(node.kind) {
            function_facts(parent, i, source, class)
        } else if declares_class(node.kind) {
            class_facts(parent, i, source)
        } else if node.kind == "namespace_use_declaration"@ {
            use_facts(node, 0, source)
        } else {
            let own = if requires_file(node.kind) {
                Facts::import(require_fact(node, source))
            } else if makes_call(node.kind) {
                call_facts(node, source, func)
            } else if node.kind == "expression_statement"@ {
                statement_facts(node, parent_kind, source)
            } else {
                Facts::none()
            };
            own.join(children_facts(node, 0, source, class, func, node.kind, depth + 1))
        }
    }
}

/// The function that the child at `i` declares, and the facts in its body.
pub open spec fn function_facts(
    parent: SyntaxTree,
    i: int,
    source: Seq<char>,
    class: Option<Seq<char>>,
) -> Facts
    decreases parent, parent.children.len() - i, 1nat,
{
    if i < 0 || i >= parent.children.len() {
        Facts::none()
    } else {
        let node = parent.children[i];
        let fact = function_fact(parent, i, source, class);
        if fact.name.len() == 0 {
            Facts::none()
        } else {
            match function_body(node) {
                Some(k) => if 0 <= k < node.children.len() {
                    let body = node.children[k];
                    Facts::function(fact).join(
                        children_facts(body, 0, source, class, Some(fact.name), body.kind, 1),
                    )
                } else {
                    Facts::none()
                },
                None => Facts::function(fact),
            }
        }
    }
}

/// The class that the child at `i` declares, and the facts in its body.
pub open spec fn class_facts(parent: SyntaxTree, i: int, source: Seq<char>) -> Facts
    decreases parent, parent.children.len() - i, 1nat,
{
    if i < 0 || i >= parent.children.len() {
        Facts::none()
    } else {
        let node = parent.children[i];
        let fact = class_fact(parent, i, source);
        if fact.name.len() == 0 {
            Facts::none()
        } else {
            match class_body(node) {
                Some(k) => if 0 <= k < node.children.len() {
                    let body = node.children[k];
                    Facts::class(fact).join(
                        children_facts(body, 0, source, Some(fact.name), None, body.kind, 1),
                    )
                } else {
                    Facts::none()
                },
                None => Facts::class(fact),
            }
        }
    }
}

/// The facts in a PHP file.
pub open spec fn php_facts(root: SyntaxTree, source: Seq<char>) -> Facts {
    children_facts(root, 0, source, None, None, "program"@, 0)
}

fn extract_phpdoc<N: SyntaxRead>(parent: &N, i: usize, source: &str) -> (r: Option<String>)
    requires
        i <= parent.tree().children.len(),
    ensures
        opt_text(r) == phpdoc(parent.tree(), i as int, source@),
{
    if i == 0 {
        return None;
    }
    let prev = parent.child(i - 1);
    let text = node_text(&prev, source);
    if str_eq(prev.kind(), "comment") && starts_with(text, "/**") {
        Some(text.to_owned())
    } else {
        None
    }
}

fn function_body_node<N: SyntaxRead>(node: &N) -> (r: Option<N>)
    ensures
        match r {
            Some(c) => function_body(node.tree()) matches Some(k) && 0 <= k
                < node.tree().children.len() && c.tree() == node.tree().children[k],
            None => function_body(node.tree()) is None,
        },
{
    let body = node.field("body");
    if body.is_some() {
        body
    } else {
        find_child_by_kind(node, "compound_statement")
    }
}

fn find_body_node<N: SyntaxRead>(node: &N) -> (r: Option<N>)
    ensures
        match r {
            Some(c) => class_body(node.tree()) matches Some(k) && 0 <= k
                < node.tree().children.len() && c.tree() == node.tree().children[k],
            None => class_body(node.tree()) is None,
        },
{
    let body = node.field("body");
    if body.is_some() {
        return body;
    }
    let list = find_child_by_kind(node, "declaration_list");
    if list.is_some() {
        return list;
    }
    find_child_by_kind(node, "enum_declaration_list")
}

fn visit_children<N: SyntaxRead>(
    parent: &N,
    source: &str,
    class: Option<&str>,
    func: Option<&str>,
    parent_kind: &str,
    depth: usize,
    out: &mut ParseResult,
)
    requires
        depth <= MAX_VISIT_DEPTH + 1,
    ensures
        final(out).facts() == old(out).facts().join(
            children_facts(
                parent.tree(),
                0,
                source@,
                opt_str(class),
                opt_str(func),
                parent_kind@,
                depth as nat,
            ),
        ),
        final(out).lines_total == old(out).lines_total,
    decreases parent.tree(), parent.tree().children.len(), 3nat,
{
    broadcast use {lemma_join, lemma_join_none};

    let n: usize = parent.child_count();
    let mut i: usize = 0;
    let ghost all = old(out).facts().join(
        children_facts(
            parent.tree(),
            0,
            source@,
            opt_str(class),
            opt_str(func),
            parent_kind@,
            depth as nat,
        ),
    );
    while i < n
        invariant
            i <= n,
            n == parent.tree().children.len(),
            depth <= MAX_VISIT_DEPTH + 1,
            out.lines_total == old(out).lines_total,
            out.facts().join(
                children_facts(
                    parent.tree(),
                    i as int,
                    source@,
                    opt_str(class),
                    opt_str(func),
                    parent_kind@,
                    depth as nat,
                ),
            ) == all,
        decreases n - i,
    {
        broadcast use {lemma_join, lemma_join_none};

        visit_node(parent, i, source, class, func, parent_kind, depth, out);
        i += 1;
    }
}

fn visit_node<N: SyntaxRead>(
    parent: &N,
    i: usize,
    source: &str,
    class: Option<&str>,
    func: Option<&str>,
    parent_kind: &str,
    depth: usize,
    out: &mut ParseResult,
)
    requires
        i < parent.tree().children.len(),
        depth <= MAX_VISIT_DEPTH + 1,
    ensures
        final(out).facts() == old(out).facts().join(
            node_facts(
                parent.tree(),
                i as int,
                source@,
                opt_str(class),
                opt_str(func),
                parent_kind@,
                depth as nat,
            ),
        ),
        final(out).lines_total == old(out).lines_total,
    decreases parent.tree(), parent.tree().children.len() - i, 2nat,
{
    broadcast use {lemma_join, lemma_join_none};

    if depth > MAX_VISIT_DEPTH {
        return;
    }
    let node = parent.child(i);
    let kind = node.kind();
    if str_eq(kind, "function_definition") || str_eq(kind, "method_declaration") {
        visit_function(parent, i, source, class, out);
    } else if str_eq(kind, "class_declaration") || str_eq(kind, "interface_declaration") || str_eq(
        kind,
        "trait_declaration",
    ) || str_eq(kind, "enum_declaration") {
        visit_class(parent, i, source, out);
    } else if str_eq(kind, "namespace_use_declaration") {
        visit_use(&node, source, out);
    } else {
        if str_eq(kind, "include_expression") || str_eq(kind, "include_once_expression") || str_eq(
            kind,
            "require_expression",
        ) || str_eq(kind, "require_once_expression") {
            visit_require(&node, source, out);
        } else if str_eq(kind, "function_call_expression") || str_eq(
            kind,
            "member_call_expression",
        ) || str_eq(kind, "nullsafe_member_call_expression") || str_eq(
            kind,
            "scoped_call_expression",
        ) {
            visit_call(&node, source, func, out);
        } else if str_eq(kind, "expression_statement") {
            if str_eq(parent_kind, "program") {
                if let Some(assign) = find_child_by_kind(&node, "assignment_expression") {
                    visit_assignment(&assign, source, out);
                }
            }
        }
        visit_children(&node, source, class, func, kind, depth + 1, out);
    }
}

fn visit_function<N: SyntaxRead>(
    parent: &N,
    i: usize,
    source: &str,
    class: Option<&str>,
    out: &mut ParseResult,
)
    requires
        i < parent.tree().children.len(),
    ensures
        final(out).facts() == old(out).facts().join(
            function_facts(parent.tree(), i as int, source@, opt_str(class)),
        ),
        final(out).lines_total == old(out).lines_total,
    decreases parent.tree(), parent.tree().children.len() - i, 1nat,
{
    broadcast use {lemma_join, lemma_join_none};

    let node = parent.child(i);
    let name = or_empty_string(
        or_string(field_text(&node, "name", source), kind_text(&node, "name", source)),
    );
    if name.as_str().is_empty() {
        return;
    }
    let body = node_text(&node, source);
    let f = ParsedFunction {
        name: name.clone(),
        qualified_name: qualify(class, "::", name.as_str()),
        line_start: line_number(node.start_row()),
        line_end: line_number(node.end_row()),
        args: or_string(
            field_text(&node, "parameters", source),
            kind_text(&node, "formal_parameters", source),
        ),
        return_type: field_text(&node, "return_type", source),
        docstring: extract_phpdoc(parent, i, source),
        body: body.to_owned(),
        is_async: false,
        node_hash: sha256_hex(body),
        override_type: None,
        override_target: None,
    };
    assert(f@ == function_fact(parent.tree(), i as int, source@, opt_str(class)));
    out.add_function(f);
    if let Some(inner) = function_body_node(&node) {
        visit_children(&inner, source, class, Some(name.as_str()), inner.kind(), 1, out);
    }
}

fn visit_class<N: SyntaxRead>(parent: &N, i: usize, source: &str, out: &mut ParseResult)
    requires
        i < parent.tree().children.len(),
    ensures
        final(out).facts() == old(out).facts().join(
            class_facts(parent.tree(), i as int, source@),
        ),
        final(out).lines_total == old(out).lines_total,
    decreases parent.tree(), parent.tree().children.len() - i, 1nat,
{
    broadcast use {lemma_join, lemma_join_none};

    let node = parent.child(i);
    let name = or_empty_string(
        or_string(field_text(&node, "name", source), kind_text(&node, "name", source)),
    );
    if name.as_str().is_empty() {
        return;
    }
    let extends = kind_text(&node, "base_clause", source);
    let implements = kind_text(&node, "class_interface_clause", source);
    let bases = match (extends, implements) {
        (Some(e), Some(i)) => Some(concat3(e.as_str(), " ", i.as_str())),
        (Some(e), None) => Some(e),
        (None, Some(i)) => Some(i),
        (None, None) => None,
    };
    let body = node_text(&node, source);
    let c = ParsedClass {
        name: name.clone(),
        line_start: line_number(node.start_row()),
        line_end: line_number(node.end_row()),
        bases,
        docstring: extract_phpdoc(parent, i, source),
        body: body.to_owned(),
        node_hash: sha256_hex(body),
    };
    assert(c@ == class_fact(parent.tree(), i as int, source@));
    out.add_class(c);
    if let Some(inner) = find_body_node(&node) {
        visit_children(&inner, source, Some(name.as_str()), None, inner.kind(), 1, out);
    }
}

fn visit_use<N: SyntaxRead>(node: &N, source: &str, out: &mut ParseResult)
    ensures
        final(out).facts() == old(out).facts().join(use_facts(node.tree(), 0, source@)),
        final(out).lines_total == old(out).lines_total,
{
    broadcast use {lemma_join, lemma_join_none};

    let line: usize = line_number(node.start_row());
    let n: usize = node.child_count();
    let mut i: usize = 0;
    let ghost all = old(out).facts().join(use_facts(node.tree(), 0, source@));
    while i < n
        invariant
            i <= n,
            n == node.tree().children.len(),
            line == line_of(node.tree().start_row),
            out.lines_total == old(out).lines_total,
            out.facts().join(use_facts(node.tree(), i as int, source@)) == all,
        decreases n - i,
    {
        broadcast use {lemma_join, lemma_join_none};

        let child = node.child(i);
        if str_eq(child.kind(), "namespace_use_clause") {
            let import = ParsedImport {
                module: or_string(
                    kind_text(&child, "qualified_name", source),
                    kind_text(&child, "name", source),
                ),
                name: None,
                alias: field_text(&child, "alias", source),
                line,
                kind: "use".to_owned(),
            };
            out.add_import(import);
        }
        i += 1;
    }
}

fn visit_require<N: SyntaxRead>(node: &N, source: &str, out: &mut ParseResult)
    ensures
        final(out).facts() == old(out).facts().join(
            Facts::import(require_fact(node.tree(), source@)),
        ),
        final(out).lines_total == old(out).lines_total,
{
    let module = match last_named_index(node) {
        Some(k) => {
            let c = node.child(k);
            Some(node_text(&c, source).to_owned())
        },
        None => None,
    };
    let kind = if starts_with(node.kind(), "require") {
        "require".to_owned()
    } else {
        "include".to_owned()
    };
    let import = ParsedImport {
        module,
        name: None,
        alias: None,
        line: line_number(node.start_row()),
        kind,
    };
    assert(import@ == require_fact(node.tree(), source@));
    out.add_import(import);
}

fn visit_call<N: SyntaxRead>(node: &N, source: &str, func: Option<&str>, out: &mut ParseResult)
    ensures
        final(out).facts() == old(out).facts().join(
            call_facts(node.tree(), source@, opt_str(func)),
        ),
        final(out).lines_total == old(out).lines_total,
{
    broadcast use lemma_join_none;

    let callee = or_empty_string(
        or_string(field_text(node, "function", source), field_text(node, "name", source)),
    );
    if callee.as_str().is_empty() {
        return;
    }
    out.add_call(
        ParsedCall { caller: caller_name(func), callee, line: line_number(node.start_row()) },
    );
}

fn nth_text<N: SyntaxRead>(node: &N, i: usize, source: &str) -> (r: Option<String>)
    ensures
        opt_text(r) == child_text(node.tree(), i as int, source@),
{
    if i < node.child_count() {
        let c = node.child(i);
        Some(node_text(&c, source).to_owned())
    } else {
        None
    }
}

fn visit_assignment<N: SyntaxRead>(node: &N, source: &str, out: &mut ParseResult)
    ensures
        final(out).facts() == old(out).facts().join(assignment_facts(node.tree(), source@)),
        final(out).lines_total == old(out).lines_total,
{
    broadcast use lemma_join_none;

    let name = or_empty_string(
        or_string(field_text(node, "left", source), nth_text(node, 0, source)),
    );
    if name.as_str().is_empty() || str_eq(name.as_str(), "=") {
        return;
    }
    let value = shorten(or_string(field_text(node, "right", source), nth_text(node, 2, source)));
    out.add_variable(ParsedVariable { name, value, line: line_number(node.start_row()) });
}

/// Extracts the facts from the syntax tree of a PHP file.
pub fn extract_php<N: SyntaxRead>(root: &N, source: &str) -> (r: ParseResult)
    ensures
        r.facts() == php_facts(root.tree(), source@),
        r.lines_total == line_count(source@),
{
    let mut out = empty_parse_result(source);
    visit_children(root, source, None, None, "program", 0, &mut out);
    proof {
        let f = php_facts(root.tree(), source@);
        assert(Facts::none().join(f) =~= f);
    }
    out
}

/// The syntax tree of a PHP text. The grammar's scanner asks the C library which characters are
/// white space and digits; `classes` holds the answers in which one library may differ from
/// another, all of them on characters outside ASCII.
pub uninterp spec fn php_syntax(source: Seq<char>, classes: Map<char, nat>) -> SyntaxTree;

/// Parses with the grammar `LANGUAGE_PHP` of `tree_sitter_php` through
/// `tree_sitter::Parser::parse`. The grammar's version is one that fits, so there is no error. No
/// tree means that the time ran out. An empty text is reduced to a root without children in two
/// steps, before the clock is looked at. A tree is a function of the text and of what the C
/// library answers on characters outside ASCII; on Cyrillic letters its answer is the same
/// everywhere.
#[allow(deprecated)]
#[verifier::external_body]
fn parse_php_tree(source: &str, timeout_micros: u64) -> (r: Result<
    Option<tree_sitter::Tree>,
    tree_sitter::LanguageError,
>)
    ensures
        r is Ok,
        source@.len() == 0 ==> r->Ok_0 is Some && parsed_tree(r->Ok_0->0).children.len() == 0,
        r matches Ok(Some(tree)) ==> exists|classes: Map<char, nat>|
            parsed_tree(tree) == #[trigger] php_syntax(source@, classes) && (latin_or_cyrillic(
                source@,
            ) ==> classes == Map::<char, nat>::empty()),
{
    let mut parser = tree_sitter::Parser::new();
    parser.set_language(&tree_sitter_php::LANGUAGE_PHP.into())?;
    parser.set_timeout_micros(timeout_micros);
    Ok(parser.parse(source, None))
}

/// Whether a call of `parse_php_tree` with this text and this limit of time ended with a tree, or with
/// none.
pub closed spec fn php_outcome(
    source: Seq<char>,
    micros: u64,
    outcome: Option<tree_sitter::Tree>,
) -> bool {
    exists|text: &str|
        text@ == source && #[trigger] call_ensures(parse_php_tree, (text, micros), Ok(outcome))
}

/// What is known of a PHP text, given what `tree_sitter` made of it. Where the time ran out
/// there are no facts.
pub fn php_result(
    parsed: Result<Option<tree_sitter::Tree>, tree_sitter::LanguageError>,
    source: &str,
) -> (r: Result<ParseResult, ParseError>)
    ensures
        match parsed {
            Ok(Some(tree)) => r is Ok && r->Ok_0.lines_total == line_count(source@)
                && r->Ok_0.facts() == php_facts(parsed_tree(tree), source@),
            Ok(None) => r is Ok && r->Ok_0.lines_total == line_count(source@) && r->Ok_0.facts()
                == Facts::none(),
            Err(_) => r == Err::<ParseResult, ParseError>(ParseError::Language),
        },
{
    match parsed {
        Ok(Some(tree)) => {
            let root = TsNode { node: ts_root(&tree) };
            Ok(extract_php(&root, source))
        },
        Ok(None) => Ok(empty_parse_result(source)),
        Err(_) => Err(ParseError::Language),
    }
}

/// The parser of PHP files. Classes are classes, interfaces, traits and enums.
pub struct PhpParser;

impl PhpParser {
    pub fn new() -> (r: Self)
        ensures
            r == PhpParser,
    {
        PhpParser
    }

    pub fn language_name(&self) -> (r: &'static str)
        ensures
            r@ == "php"@,
    {
        "php"
    }

    pub fn file_extensions(&self) -> (r: Vec<&'static str>)
        ensures
            r@.len() == 3,
            r@[0]@ == "php"@,
            r@[1]@ == "php5"@,
            r@[2]@ == "phtml"@,
    {
        vec!["php", "php5", "phtml"]
    }

    /// Parses a PHP file. One that looks binary or runs over the time stays without facts, and
    /// so does an empty text.
    pub fn parse(&self, source: &str, file_path: &str) -> (r: Result<ParseResult, ParseError>)
        ensures
            r is Ok,
            r->Ok_0.lines_total == line_count(source@),
            r->Ok_0.facts() == Facts::none() || (!binary_text(source@) && exists|
                classes: Map<char, nat>,
            |
                r->Ok_0.facts() == php_facts(#[trigger] php_syntax(source@, classes), source@)
                    && (latin_or_cyrillic(source@) ==> classes == Map::<char, nat>::empty())),
            source@.len() == 0 ==> r->Ok_0.facts() == Facts::none(),
            !binary_text(source@) ==> exists|outcome: Option<tree_sitter::Tree>| #[trigger]
                php_outcome(source@, 10_000_000, outcome) && r->Ok_0.facts() == (match outcome {
                    Some(tree) => php_facts(parsed_tree(tree), source@),
                    None => Facts::none(),
                }),
    {
        if looks_binary(source) {
            return Ok(empty_parse_result(source));
        }
        let parsed = parse_php_tree(source, PARSE_TIMEOUT_MS * 1000);
        let ghost given = parsed;
        assert(php_outcome(source@, 10_000_000, given->Ok_0));
        let r = php_result(parsed, source);
        proof {
            if let Ok(Some(tree)) = given {
                assert(r->Ok_0.facts() == php_facts(parsed_tree(tree), source@));
            }
        }
        r
    }
}

} // verus!
