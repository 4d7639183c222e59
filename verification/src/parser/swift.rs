//! Swift.

use crate::parser::syntax::{
    line_number, line_of, node_text, parsed_tree, text_at, ts_root, SyntaxRead, SyntaxTree, TsNode,
};
use crate::parser::types::{
    binary_text, empty_parse_result, lemma_join, lemma_join_none, line_count, looks_binary,
    occurrences, opt_str, sha256_hex, sha256_text, CallFact, ClassFact, Facts, FunctionFact,
    ImportFact, ParseResult, ParsedCall, ParsedClass, ParsedFunction, ParsedImport, ParsedVariable,
    VariableFact, MAX_VISIT_DEPTH, PARSE_TIMEOUT_MS,
};
use crate::parser::walk::{
    caller_name, caller_of, doc_before, extract_doc, field_of, field_text, first_named,
    first_named_child, last_named, last_named_index, or_empty, or_empty_string, qualified, qualify,
    short_value, shorten, text_in, DocStyle,
};
use crate::parser::ParseError;
use crate::text::{chars_of, concat3, contains_char, join, joined, str_eq, texts};
use vstd::prelude::*;
use vstd::string::*;
use vstd::utf8::is_ascii_chars;

verus! {

/// Whether a node declares a function.
pub open spec fn declares_function(kind: Seq<char>) -> bool {
    kind == "function_declaration"@ || kind == "protocol_function_declaration"@ || kind
        == "init_declaration"@ || kind == "deinit_declaration"@
}

/// Whether a node declares a type.
pub open spec fn declares_class(kind: Seq<char>) -> bool {
    kind == "class_declaration"@ || kind == "protocol_declaration"@
}

/// The texts of the children of a kind, from the child at `i` on.
pub open spec fn kind_texts(
    t: SyntaxTree,
    kind: Seq<char>,
    i: int,
    source: Seq<char>,
) -> Seq<Seq<char>>
    decreases t.children.len() - i,
{
    if i < 0 || i >= t.children.len() {
        Seq::empty()
    } else if t.children[i].kind == kind {
        seq![text_at(t.children[i], source)] + kind_texts(t, kind, i + 1, source)
    } else {
        kind_texts(t, kind, i + 1, source)
    }
}

/// The parameters of a function, in brackets.
pub open spec fn parameters(t: SyntaxTree, source: Seq<char>) -> Option<Seq<char>> {
    let parts = kind_texts(t, "parameter"@, 0, source);
    if parts.len() == 0 {
        None
    } else {
        Some("("@ + joined(parts, ", "@) + ")"@)
    }
}

/// The name of a function. A deinitialiser has none of its own.
pub open spec fn function_name(t: SyntaxTree, source: Seq<char>) -> Seq<char> {
    match text_in(field_of(t, "name"@), source) {
        Some(name) => name,
        None => if t.kind == "deinit_declaration"@ {
            "deinit"@
        } else {
            Seq::empty()
        },
    }
}

/// The function that the child at `i` declares.
pub open spec fn function_fact(
    parent: SyntaxTree,
    i: int,
    source: Seq<char>,
    class: Option<Seq<char>>,
) -> FunctionFact {
    let node = parent.children[i];
    let name = function_name(node, source);
    FunctionFact {
        name,
        qualified_name: qualified(class, "."@, name),
        line_start: line_of(node.start_row),
        line_end: line_of(node.end_row),
        args: parameters(node, source),
        return_type: text_in(field_of(node, "return_type"@), source),
        docstring: doc_before(DocStyle::Swift, parent, i, source),
        body: text_at(node, source),
        is_async: false,
        node_hash: sha256_text(text_at(node, source)),
        override_type: None,
        override_target: None,
    }
}

/// The types that a type inherits from.
pub open spec fn base_names(t: SyntaxTree, source: Seq<char>) -> Option<Seq<char>> {
    let parts = kind_texts(t, "inheritance_specifier"@, 0, source);
    if parts.len() == 0 {
        None
    } else {
        Some(joined(parts, ", "@))
    }
}

/// The type that the child at `i` declares.
pub open spec fn class_fact(parent: SyntaxTree, i: int, source: Seq<char>) -> ClassFact {
    let node = parent.children[i];
    ClassFact {
        name: or_empty(text_in(field_of(node, "name"@), source)),
        line_start: line_of(node.start_row),
        line_end: line_of(node.end_row),
        bases: base_names(node, source),
        docstring: doc_before(DocStyle::Swift, parent, i, source),
        body: text_at(node, source),
        node_hash: sha256_text(text_at(node, source)),
    }
}

/// What a declaration imports: its last named child.
pub open spec fn import_fact(t: SyntaxTree, source: Seq<char>) -> ImportFact {
    ImportFact {
        module: match last_named(t) {
            Some(k) => Some(text_at(t.children[k], source)),
            None => None,
        },
        name: None,
        alias: None,
        line: line_of(t.start_row),
        kind: "import"@,
    }
}

/// The name that a call's target calls: what follows the last dot.
pub open spec fn target_name(t: SyntaxTree, source: Seq<char>) -> Seq<char> {
    if t.kind == "navigation_expression"@ {
        match field_of(t, "suffix"@) {
            Some(s) => or_empty(text_in(field_of(s, "suffix"@), source)),
            None => Seq::empty(),
        }
    } else {
        text_at(t, source)
    }
}

/// The call that an expression makes. A target that runs over several lines is no name.
pub open spec fn call_facts(t: SyntaxTree, source: Seq<char>, func: Option<Seq<char>>) -> Facts {
    match first_named(t) {
        Some(target) => {
            let callee = target_name(target, source);
            if callee.len() == 0 || callee.contains('\n') {
                Facts::none()
            } else {
                Facts::call(
                    CallFact { caller: caller_of(func), callee, line: line_of(t.start_row) },
                )
            }
        },
        None => Facts::none(),
    }
}

/// The variable that a property of the file itself declares.
pub open spec fn property_facts(t: SyntaxTree, source: Seq<char>) -> Facts {
    let name = or_empty(text_in(field_of(t, "name"@), source));
    if name.len() == 0 {
        Facts::none()
    } else {
        Facts::variable(
            VariableFact {
                name,
                value: short_value(text_in(field_of(t, "value"@), source)),
                line: line_of(t.start_row),
            },
        )
    }
}

/// The facts in the children of `parent` from `i` on.
pub open spec fn children_facts(
    parent: SyntaxTree,
    i: int,
    source: Seq<char>,
    class: Option<Seq<char>>,
    func: Option<Seq<char>>,
    top: bool,
    depth: nat,
) -> Facts
    decreases parent, parent.children.len() - i, 3nat,
{
    if i < 0 || i >= parent.children.len() {
        Facts::none()
    } else {
        node_facts(parent, i, source, class, func, top, depth).join(
            children_facts(parent, i + 1, source, class, func, top, depth),
        )
    }
}

/// The facts in the child of `parent` at `i`, `depth` levels into the walk; `top` says
/// whether variables are those of the file itself.
pub open spec fn node_facts(
    parent: SyntaxTree,
    i: int,
    source: Seq<char>,
    class: Option<Seq<char>>,
    func: Option<Seq<char>>,
    top: bool,
    depth: nat,
) -> Facts
    decreases parent, parent.children.len() - i, 2nat,
{
    if i < 0 || i >= parent.children.len() || depth > MAX_VISIT_DEPTH {
        Facts::none()
    } else {
        let node = parent.children[i];
        if declares_function(node.kind) {
            function_facts(parent, i, source, class)
        } else if declares_class(node.kind) {
            class_facts(parent, i, source)
        } else if node.kind == "import_declaration"@ {
            Facts::import(import_fact(node, source))
        } else if node.kind == "property_declaration"@ {
            let own = if top {
                property_facts(node, source)
            } else {
                Facts::none()
            };
            own.join(children_facts(node, 0, source, class, func, false, depth + 1))
        } else if node.kind == "call_expression"@ {
            call_facts(node, source, func).join(
                children_facts(node, 0, source, class, func, false, depth + 1),
            )
        } else {
            children_facts(node, 0, source, class, func, top, depth + 1)
        }
    }
}

/// The function that the child at `i` declares, and the facts in its body.
pub open spec fn function_facts(
    parent: SyntaxTree,
    i: int,
    source: Seq<char>,
    class: Option<Seq<char>>,
) -> Facts
    decreases parent, parent.children.len() - i, 1nat,
{
    if i < 0 || i >= parent.children.len() {
        Facts::none()
    } else {
        let node = parent.children[i];
        let fact = function_fact(parent, i, source, class);
        if fact.name.len() == 0 {
            Facts::none()
        } else {
            match node.field_index("body"@) {
                Some(k) => if 0 <= k < node.children.len() {
                    Facts::function(fact).join(
                        children_facts(
                            node.children[k],
                            0,
                            source,
                            class,
                            Some(fact.name),
                            false,
                            1,
                        ),
                    )
                } else {
                    Facts::none()
                },
                None => Facts::function(fact),
            }
        }
    }
}

/// The class that the child at `i` declares, and the facts in its body.
pub open spec fn class_facts(parent: SyntaxTree, i: int, source: Seq<char>) -> Facts
    decreases parent, parent.children.len() - i, 1nat,
{
    if i < 0 || i >= parent.children.len() {
        Facts::none()
    } else {
        let node = parent.children[i];
        let fact = class_fact(parent, i, source);
        if fact.name.len() == 0 {
            Facts::none()
        } else {
            match node.field_index("body"@) {
                Some(k) => if 0 <= k < node.children.len() {
                    Facts::class(fact).join(
                        children_facts(
                            node.children[k],
                            0,
                            source,
                            Some(fact.name),
                            None,
                            false,
                            1,
                        ),
                    )
                } else {
                    Facts::none()
                },
                None => Facts::class(fact),
            }
        }
    }
}

/// The facts in a Swift file.
pub open spec fn swift_facts(root: SyntaxTree, source: Seq<char>) -> Facts {
    children_facts(root, 0, source, None, None, true, 0)
}

/// Whether every call names its callee, on one line.
pub open spec fn callees_are_short(f: Facts) -> bool {
    forall|i: int|
        0 <= i < f.calls.len() ==> (#[trigger] f.calls[i]).callee.len() > 0
            && !f.calls[i].callee.contains('\n')
}

proof fn lemma_joined_callees(a: Facts, b: Facts)
    requires
        callees_are_short(a),
        callees_are_short(b),
    ensures
        callees_are_short(a.join(b)),
{
    let c = a.join(b);
    assert forall|i: int| 0 <= i < c.calls.len() implies (#[trigger] c.calls[i]).callee.len() > 0
        && !c.calls[i].callee.contains('\n') by {
        if i < a.calls.len() {
            assert(c.calls[i] == a.calls[i]);
        } else {
            assert(c.calls[i] == b.calls[i - a.calls.len()]);
        }
    }
}

proof fn lemma_callees_and_variables(
    parent: SyntaxTree,
    i: int,
    source: Seq<char>,
    class: Option<Seq<char>>,
    func: Option<Seq<char>>,
    top: bool,
    depth: nat,
)
    ensures
        callees_are_short(children_facts(parent, i, source, class, func, top, depth)),
        !top ==> children_facts(parent, i, source, class, func, top, depth).variables.len() == 0,
    decreases parent, parent.children.len() - i,
{
    if 0 <= i < parent.children.len() {
        let node = parent.children[i];
        let here = node_facts(parent, i, source, class, func, top, depth);
        let rest = children_facts(parent, i + 1, source, class, func, top, depth);
        lemma_callees_and_variables(parent, i + 1, source, class, func, top, depth);
        assert(callees_are_short(here) && (!top ==> here.variables.len() == 0)) by {
            if depth <= MAX_VISIT_DEPTH {
                if declares_function(node.kind) || declares_class(node.kind) {
                    if let Some(k) = node.field_index("body"@) {
                        if 0 <= k < node.children.len() {
                            let body = node.children[k];
                            let function = function_fact(parent, i, source, class);
                            let container = class_fact(parent, i, source);
                            let name = Some(function.name);
                            let inside = Some(container.name);
                            lemma_callees_and_variables(body, 0, source, class, name, false, 1);
                            lemma_callees_and_variables(body, 0, source, inside, None, false, 1);
                            lemma_joined_callees(
                                Facts::function(function),
                                children_facts(body, 0, source, class, name, false, 1),
                            );
                            lemma_joined_callees(
                                Facts::class(container),
                                children_facts(body, 0, source, inside, None, false, 1),
                            );
                        }
                    }
                } else {
                    let deeper = children_facts(node, 0, source, class, func, false, depth + 1);
                    lemma_callees_and_variables(node, 0, source, class, func, top, depth + 1);
                    lemma_callees_and_variables(node, 0, source, class, func, false, depth + 1);
                    lemma_joined_callees(call_facts(node, source, func), deeper);
                    lemma_joined_callees(property_facts(node, source), deeper);
                    lemma_joined_callees(Facts::none(), deeper);
                }
            }
        }
        lemma_joined_callees(here, rest);
    }
}

/// Every call in a Swift file is recorded with a callee that is not empty and has no line
/// break.
pub proof fn law_callees_are_short(root: SyntaxTree, source: Seq<char>)
    ensures
        callees_are_short(swift_facts(root, source)),
{
    lemma_callees_and_variables(root, 0, source, None, None, true, 0);
}

/// In the body of a function or a type no variable is recorded: the variables of a file are
/// those that it declares outside of them.
pub proof fn law_local_variables_stay_out(
    parent: SyntaxTree,
    i: int,
    source: Seq<char>,
    class: Option<Seq<char>>,
)
    ensures
        function_facts(parent, i, source, class).variables.len() == 0,
        class_facts(parent, i, source).variables.len() == 0,
{
    if 0 <= i < parent.children.len() {
        let node = parent.children[i];
        if let Some(k) = node.field_index("body"@) {
            if 0 <= k < node.children.len() {
                let body = node.children[k];
                let name = Some(function_fact(parent, i, source, class).name);
                let inside = Some(class_fact(parent, i, source).name);
                lemma_callees_and_variables(body, 0, source, class, name, false, 1);
                lemma_callees_and_variables(body, 0, source, inside, None, false, 1);
            }
        }
    }
}

fn visit_children<N: SyntaxRead>(
    parent: &N,
    source: &str,
    class: Option<&str>,
    func: Option<&str>,
    top: bool,
    depth: usize,
    out: &mut ParseResult,
)
    requires
        depth <= MAX_VISIT_DEPTH + 1,
    ensures
        final(out).facts() == old(out).facts().join(
            children_facts(
                parent.tree(),
                0,
                source@,
                opt_str(class),
                opt_str(func),
                top,
                depth as nat,
            ),
        ),
        final(out).lines_total == old(out).lines_total,
    decreases parent.tree(), parent.tree().children.len(), 3nat,
{
    broadcast use {lemma_join, lemma_join_none};

    let n: usize = parent.child_count();
    let mut i: usize = 0;
    let ghost all = old(out).facts().join(
        children_facts(parent.tree(), 0, source@, opt_str(class), opt_str(func), top, depth as nat),
    );
    while i < n
        invariant
            i <= n,
            n == parent.tree().children.len(),
            depth <= MAX_VISIT_DEPTH + 1,
            out.lines_total == old(out).lines_total,
            out.facts().join(
                children_facts(
                    parent.tree(),
                    i as int,
                    source@,
                    opt_str(class),
                    opt_str(func),
                    top,
                    depth as nat,
                ),
            ) == all,
        decreases n - i,
    {
        broadcast use {lemma_join, lemma_join_none};

        visit_node(parent, i, source, class, func, top, depth, out);
        i += 1;
    }
}

fn visit_node<N: SyntaxRead>(
    parent: &N,
    i: usize,
    source: &str,
    class: Option<&str>,
    func: Option<&str>,
    top: bool,
    depth: usize,
    out: &mut ParseResult,
)
    requires
        i < parent.tree().children.len(),
        depth <= MAX_VISIT_DEPTH + 1,
    ensures
        final(out).facts() == old(out).facts().join(
            node_facts(
                parent.tree(),
                i as int,
                source@,
                opt_str(class),
                opt_str(func),
                top,
                depth as nat,
            ),
        ),
        final(out).lines_total == old(out).lines_total,
    decreases parent.tree(), parent.tree().children.len() - i, 2nat,
{
    broadcast use {lemma_join, lemma_join_none};

    if depth > MAX_VISIT_DEPTH {
        return;
    }
    let node = parent.child(i);
    let kind = node.kind();
    if str_eq(kind, "function_declaration") || str_eq(kind, "protocol_function_declaration")
        || str_eq(kind, "init_declaration") || str_eq(kind, "deinit_declaration") {
        visit_function(parent, i, source, class, out);
    } else if str_eq(kind, "class_declaration") || str_eq(kind, "protocol_declaration") {
        visit_class(parent, i, source, out);
    } else if str_eq(kind, "import_declaration") {
        visit_import(&node, source, out);
    } else if str_eq(kind, "property_declaration") {
        if top {
            visit_property(&node, source, out);
        }
        visit_children(&node, source, class, func, false, depth + 1, out);
    } else if str_eq(kind, "call_expression") {
        visit_call(&node, source, func, out);
        visit_children(&node, source, class, func, false, depth + 1, out);
    } else {
        visit_children(&node, source, class, func, top, depth + 1, out);
    }
}

fn collect_texts<N: SyntaxRead>(node: &N, kind: &str, source: &str) -> (r: Vec<String>)
    ensures
        texts(r@) == kind_texts(node.tree(), kind@, 0, source@),
{
    let n: usize = node.child_count();
    let mut out: Vec<String> = Vec::new();
    let mut i: usize = 0;
    assert(texts(out@) + kind_texts(node.tree(), kind@, 0, source@) == kind_texts(
        node.tree(),
        kind@,
        0,
        source@,
    ));
    while i < n
        invariant
            i <= n,
            n == node.tree().children.len(),
            texts(out@) + kind_texts(node.tree(), kind@, i as int, source@) == kind_texts(
                node.tree(),
                kind@,
                0,
                source@,
            ),
        decreases n - i,
    {
        let c = node.child(i);
        if str_eq(c.kind(), kind) {
            let text = node_text(&c, source).to_owned();
            let ghost before = out@;
            out.push(text);
            proof {
                let rest = kind_texts(node.tree(), kind@, i + 1, source@);
                assert(texts(out@) == texts(before).push(text@));
                assert(texts(before).push(text@) + rest == texts(before) + (seq![text@] + rest));
            }
        }
        i += 1;
    }
    assert(texts(out@) + Seq::<Seq<char>>::empty() == texts(out@));
    out
}

fn visit_function<N: SyntaxRead>(
    parent: &N,
    i: usize,
    source: &str,
    class: Option<&str>,
    out: &mut ParseResult,
)
    requires
        i < parent.tree().children.len(),
    ensures
        final(out).facts() == old(out).facts().join(
            function_facts(parent.tree(), i as int, source@, opt_str(class)),
        ),
        final(out).lines_total == old(out).lines_total,
    decreases parent.tree(), parent.tree().children.len() - i, 1nat,
{
    broadcast use {lemma_join, lemma_join_none};

    let node = parent.child(i);
    let name = match field_text(&node, "name", source) {
        Some(name) => name,
        None => if str_eq(node.kind(), "deinit_declaration") {
            "deinit".to_owned()
        } else {
            String::new()
        },
    };
    if name.as_str().is_empty() {
        return;
    }
    let parts = collect_texts(&node, "parameter", source);
    let args = if parts.len() == 0 {
        None
    } else {
        let list = join(&parts, ", ");
        Some(concat3("(", list.as_str(), ")"))
    };
    let body = node_text(&node, source);
    let f = ParsedFunction {
        name: name.clone(),
        qualified_name: qualify(class, ".", name.as_str()),
        line_start: line_number(node.start_row()),
        line_end: line_number(node.end_row()),
        args,
        return_type: field_text(&node, "return_type", source),
        docstring: extract_doc(DocStyle::Swift, parent, i, source),
        body: body.to_owned(),
        is_async: false,
        node_hash: sha256_hex(body),
        override_type: None,
        override_target: None,
    };
    assert(f@ == function_fact(parent.tree(), i as int, source@, opt_str(class)));
    out.add_function(f);
    if let Some(inner) = node.field("body") {
        visit_children(&inner, source, class, Some(name.as_str()), false, 1, out);
    }
}

fn visit_class<N: SyntaxRead>(parent: &N, i: usize, source: &str, out: &mut ParseResult)
    requires
        i < parent.tree().children.len(),
    ensures
        final(out).facts() == old(out).facts().join(
            class_facts(parent.tree(), i as int, source@),
        ),
        final(out).lines_total == old(out).lines_total,
    decreases parent.tree(), parent.tree().children.len() - i, 1nat,
{
    broadcast use {lemma_join, lemma_join_none};

    let node = parent.child(i);
    let name = or_empty_string(field_text(&node, "name", source));
    if name.as_str().is_empty() {
        return;
    }
    let parts = collect_texts(&node, "inheritance_specifier", source);
    let bases = if parts.len() == 0 {
        None
    } else {
        Some(join(&parts, ", "))
    };
    let body = node_text(&node, source);
    let c = ParsedClass {
        name: name.clone(),
        line_start: line_number(node.start_row()),
        line_end: line_number(node.end_row()),
        bases,
        docstring: extract_doc(DocStyle::Swift, parent, i, source),
        body: body.to_owned(),
        node_hash: sha256_hex(body),
    };
    assert(c@ == class_fact(parent.tree(), i as int, source@));
    out.add_class(c);
    if let Some(inner) = node.field("body") {
        visit_children(&inner, source, Some(name.as_str()), None, false, 1, out);
    }
}

fn visit_import<N: SyntaxRead>(node: &N, source: &str, out: &mut ParseResult)
    ensures
        final(out).facts() == old(out).facts().join(
            Facts::import(import_fact(node.tree(), source@)),
        ),
        final(out).lines_total == old(out).lines_total,
{
    let module = match last_named_index(node) {
        Some(k) => {
            let c = node.child(k);
            Some(node_text(&c, source).to_owned())
        },
        None => None,
    };
    let import = ParsedImport {
        module,
        name: None,
        alias: None,
        line: line_number(node.start_row()),
        kind: "import".to_owned(),
    };
    assert(import@ == import_fact(node.tree(), source@));
    out.add_import(import);
}

fn visit_call<N: SyntaxRead>(node: &N, source: &str, func: Option<&str>, out: &mut ParseResult)
    ensures
        final(out).facts() == old(out).facts().join(
            call_facts(node.tree(), source@, opt_str(func)),
        ),
        final(out).lines_total == old(out).lines_total,
{
    broadcast use lemma_join_none;

    let target = match first_named_child(node) {
        Some(t) => t,
        None => {
            return;
        },
    };
    let callee = if str_eq(target.kind(), "navigation_expression") {
        match target.field("suffix") {
            Some(s) => or_empty_string(field_text(&s, "suffix", source)),
            None => String::new(),
        }
    } else {
        node_text(&target, source).to_owned()
    };
    assert(callee@ == target_name(target.tree(), source@));
    if callee.as_str().is_empty() || contains_char(callee.as_str(), '\n') {
        return;
    }
    out.add_call(
        ParsedCall { caller: caller_name(func), callee, line: line_number(node.start_row()) },
    );
}

fn visit_property<N: SyntaxRead>(node: &N, source: &str, out: &mut ParseResult)
    ensures
        final(out).facts() == old(out).facts().join(property_facts(node.tree(), source@)),
        final(out).lines_total == old(out).lines_total,
{
    broadcast use lemma_join_none;

    let name = or_empty_string(field_text(node, "name", source));
    if name.as_str().is_empty() {
        return;
    }
    let value = shorten(field_text(node, "value", source));
    out.add_variable(ParsedVariable { name, value, line: line_number(node.start_row()) });
}

/// A text with each carriage return before a line feed taken out.
pub open spec fn unix_lines(s: Seq<char>) -> Seq<char>
    decreases s.len(),
{
    if s.len() == 0 {
        s
    } else if s.len() >= 2 && s[0] == '\r' && s[1] == '\n' {
        seq!['\n'] + unix_lines(s.skip(2))
    } else {
        seq![s[0]] + unix_lines(s.skip(1))
    }
}

/// Takes out each carriage return before a line feed.
pub fn to_unix_lines(s: &str) -> (r: String)
    ensures
        r@ == unix_lines(s@),
{
    let chars = chars_of(s);
    let mut out = String::new();
    let mut i: usize = 0;
    assert(s@.skip(0) == s@);
    assert(out@ + unix_lines(s@) == unix_lines(s@));
    while i < chars.len()
        invariant
            i <= chars@.len(),
            chars@ == s@,
            out@ + unix_lines(s@.skip(i as int)) == unix_lines(s@),
        decreases chars.len() - i,
    {
        let ghost rest = s@.skip(i as int);
        let ghost before = out@;
        if chars[i] == '\r' && i + 1 < chars.len() && chars[i + 1] == '\n' {
            out.push('\n');
            proof {
                assert(rest.skip(2) == s@.skip(i + 2));
                assert(before.push('\n') + unix_lines(rest.skip(2)) == before + (seq!['\n']
                    + unix_lines(rest.skip(2))));
            }
            i += 2;
        } else {
            let c: char = chars[i];
            out.push(c);
            proof {
                assert(rest.skip(1) == s@.skip(i + 1));
                assert(before.push(c) + unix_lines(rest.skip(1)) == before + (seq![c] + unix_lines(
                    rest.skip(1),
                )));
            }
            i += 1;
        }
    }
    assert(out@ + Seq::<char>::empty() == out@);
    out
}

/// The line feeds of two texts put together.
proof fn lemma_occurrences_join(a: Seq<char>, b: Seq<char>, c: char)
    ensures
        occurrences(a + b, c) == occurrences(a, c) + occurrences(b, c),
    decreases b.len(),
{
    if b.len() == 0 {
        assert(a + b == a);
    } else {
        lemma_occurrences_join(a, b.drop_last(), c);
        assert((a + b).drop_last() == a + b.drop_last());
    }
}

/// Taking out carriage returns before line feeds changes no line number: each place of a text,
/// but the one inside a carriage return with its line feed, has as many line feeds before it as
/// the place that it becomes.
pub proof fn law_line_numbers_stay(before: Seq<char>, after: Seq<char>)
    requires
        !(before.len() > 0 && before.last() == '\r' && after.len() > 0 && after[0] == '\n'),
    ensures
        unix_lines(before + after) == unix_lines(before) + unix_lines(after),
        occurrences(unix_lines(before), '\n') == occurrences(before, '\n'),
    decreases before.len(),
{
    if before.len() == 0 {
        assert(before + after == after);
        assert(unix_lines(before) + unix_lines(after) == unix_lines(after));
    } else {
        let n: int = if before.len() >= 2 && before[0] == '\r' && before[1] == '\n' {
            2
        } else {
            1
        };
        let head = if n == 2 {
            seq!['\n']
        } else {
            seq![before[0]]
        };
        let rest = before.skip(n);
        law_line_numbers_stay(rest, after);
        assert((before + after).skip(n) == rest + after);
        assert(unix_lines(before + after) == head + unix_lines(rest + after));
        assert(head + (unix_lines(rest) + unix_lines(after)) == (head + unix_lines(rest))
            + unix_lines(after));
        assert(before == before.take(n) + rest);
        lemma_occurrences_join(before.take(n), rest, '\n');
        lemma_occurrences_join(head, unix_lines(rest), '\n');
        reveal_with_fuel(occurrences, 3);
        assert(before.take(n).drop_last().drop_last().len() == 0 || n == 1);
        assert(occurrences(before.take(n), '\n') == occurrences(head, '\n'));
    }
}

/// A text has as many lines after the carriage returns before line feeds were taken out.
pub proof fn law_number_of_lines_stays(s: Seq<char>)
    ensures
        line_count(unix_lines(s)) == line_count(s),
{
    law_line_numbers_stay(s, Seq::empty());
    lemma_unix_lines_last(s);
}

proof fn lemma_unix_lines_last(s: Seq<char>)
    ensures
        unix_lines(s).len() == 0 <==> s.len() == 0,
        s.len() > 0 ==> unix_lines(s).last() == s.last(),
    decreases s.len(),
{
    if s.len() >= 2 && s[0] == '\r' && s[1] == '\n' {
        lemma_unix_lines_last(s.skip(2));
    } else if s.len() > 0 {
        lemma_unix_lines_last(s.skip(1));
    }
}

/// A text with a carriage return put before each line feed.
pub open spec fn crlf_lines(s: Seq<char>) -> Seq<char>
    decreases s.len(),
{
    if s.len() == 0 {
        s
    } else if s[0] == '\n' {
        seq!['\r', '\n'] + crlf_lines(s.skip(1))
    } else {
        seq![s[0]] + crlf_lines(s.skip(1))
    }
}

/// The kind of line ending does not count: what is parsed of any text is the text itself, though
/// its lines end in a carriage return and a line feed, and a text without carriage returns before
/// its line feeds is parsed as it is.
pub proof fn law_line_endings_do_not_count(s: Seq<char>)
    ensures
        unix_lines(crlf_lines(s)) == s,
        (forall|i: int| 0 <= i < s.len() - 1 && #[trigger] s[i] == '\r' ==> s[i + 1] != '\n')
            ==> unix_lines(s) == s,
    decreases s.len(),
{
    if s.len() > 0 {
        let rest = s.skip(1);
        law_line_endings_do_not_count(rest);
        let long = crlf_lines(s);
        assert(seq![s[0]] + rest == s);
        if s[0] == '\n' {
            assert(long.skip(2) == crlf_lines(rest));
        } else {
            assert(long.skip(1) == crlf_lines(rest));
            assert(long.len() > 1 ==> long[1] == crlf_lines(rest)[0]);
        }
        if forall|i: int| 0 <= i < s.len() - 1 && #[trigger] s[i] == '\r' ==> s[i + 1] != '\n' {
            assert forall|i: int|
                0 <= i < rest.len() - 1 && #[trigger] rest[i] == '\r' implies rest[i + 1] != '\n' by {
                assert(s[i + 1] == '\r');
            }
        }
    }
}

/// Extracts the facts from the syntax tree of a Swift file.
pub fn extract_swift<N: SyntaxRead>(root: &N, source: &str) -> (r: ParseResult)
    ensures
        r.facts() == swift_facts(root.tree(), source@),
        r.lines_total == line_count(source@),
{
    let mut out = empty_parse_result(source);
    visit_children(root, source, None, None, true, 0, &mut out);
    proof {
        let f = swift_facts(root.tree(), source@);
        assert(Facts::none().join(f) =~= f);
    }
    out
}

/// How many hashes stand from `i` on.
pub open spec fn hashes_from(s: Seq<char>, i: int) -> nat
    decreases s.len() - i,
{
    if 0 <= i < s.len() && s[i] == '#' {
        1 + hashes_from(s, i + 1)
    } else {
        0
    }
}

/// Whether a text has the same syntax tree everywhere: it is ASCII, and nowhere do 128 hashes
/// follow each other. So many hashes around a string the grammar's scanner counts otherwise where
/// bytes have a sign than where they have none.
pub open spec fn same_everywhere(s: Seq<char>) -> bool {
    is_ascii_chars(s) && forall|i: int| 0 <= i < s.len() ==> #[trigger] hashes_from(s, i) < 128
}

/// The syntax tree of a Swift text. The grammar's scanner asks the C library which characters are
/// letters, digits and white space; `classes` holds the answers in which one library may differ
/// from another, all of them on characters outside ASCII. Where 128 hashes follow each other it
/// stands for the machine too.
pub uninterp spec fn swift_syntax(source: Seq<char>, classes: Map<char, nat>) -> SyntaxTree;

/// Parses with the grammar of `tree_sitter_swift` through `tree_sitter::Parser::parse`. The
/// grammar's version is one that fits, so there is no error. No tree means that the time ran out.
/// An empty text is reduced to a root without children in two steps, before the clock is looked
/// at. A tree is a function of the text, of what the C library answers on characters outside
/// ASCII and, where 128 hashes follow each other, of whether bytes have a sign on the machine.
#[allow(deprecated)]
#[verifier::external_body]
fn parse_swift_tree(source: &str, timeout_micros: u64) -> (r: Result<
    Option<tree_sitter::Tree>,
    tree_sitter::LanguageError,
>)
    ensures
        r is Ok,
        source@.len() == 0 ==> r->Ok_0 is Some && parsed_tree(r->Ok_0->0).children.len() == 0,
        r matches Ok(Some(tree)) ==> exists|classes: Map<char, nat>|
            parsed_tree(tree) == #[trigger] swift_syntax(source@, classes) && (same_everywhere(
                source@,
            ) ==> classes == Map::<char, nat>::empty()),
{
    let mut parser = tree_sitter::Parser::new();
    parser.set_language(&tree_sitter_swift::LANGUAGE.into())?;
    parser.set_timeout_micros(timeout_micros);
    Ok(parser.parse(source, None))
}

/// Whether a call of `parse_swift_tree` with this text and this limit of time ended with a tree, or with
/// none.
pub closed spec fn swift_outcome(
    source: Seq<char>,
    micros: u64,
    outcome: Option<tree_sitter::Tree>,
) -> bool {
    exists|text: &str|
        text@ == source && #[trigger] call_ensures(parse_swift_tree, (text, micros), Ok(outcome))
}

/// What is known of a Swift text, given what `tree_sitter` made of it. Where the time ran out
/// there are no facts.
pub fn swift_result(
    parsed: Result<Option<tree_sitter::Tree>, tree_sitter::LanguageError>,
    source: &str,
) -> (r: Result<ParseResult, ParseError>)
    ensures
        match parsed {
            Ok(Some(tree)) => r is Ok && r->Ok_0.lines_total == line_count(source@)
                && r->Ok_0.facts() == swift_facts(parsed_tree(tree), source@),
            Ok(None) => r is Ok && r->Ok_0.lines_total == line_count(source@) && r->Ok_0.facts()
                == Facts::none(),
            Err(_) => r == Err::<ParseResult, ParseError>(ParseError::Language),
        },
{
    match parsed {
        Ok(Some(tree)) => {
            let root = TsNode { node: ts_root(&tree) };
            Ok(extract_swift(&root, source))
        },
        Ok(None) => Ok(empty_parse_result(source)),
        Err(_) => Err(ParseError::Language),
    }
}

/// Whether these facts may be found in a Swift text: none, where the time runs out, the text is
/// empty or it looks binary; else those of the syntax tree of the text with plain line feeds.
pub open spec fn may_be_found(source: Seq<char>, facts: Facts) -> bool {
    &&& source.len() == 0 ==> facts == Facts::none()
    &&& facts == Facts::none() || (!binary_text(source) && exists|classes: Map<char, nat>|
        facts == swift_facts(
            #[trigger] swift_syntax(unix_lines(source), classes),
            unix_lines(source),
        ) && (same_everywhere(unix_lines(source)) ==> classes == Map::<char, nat>::empty()))
}

/// A text whose lines end in a carriage return and a line feed may give the same facts, with the
/// same line numbers, as the text with plain line feeds, and has as many lines. Only a zero byte
/// may tell them apart, which is looked for at the beginning alone.
pub proof fn law_line_endings_give_the_same_facts(s: Seq<char>, facts: Facts)
    requires
        forall|i: int| 0 <= i < s.len() - 1 && #[trigger] s[i] == '\r' ==> s[i + 1] != '\n',
        binary_text(crlf_lines(s)) == binary_text(s),
    ensures
        may_be_found(crlf_lines(s), facts) == may_be_found(s, facts),
        line_count(unix_lines(crlf_lines(s))) == line_count(unix_lines(s)),
{
    law_line_endings_do_not_count(s);
    assert(s.len() > 0 ==> crlf_lines(s).len() > 0);
}

/// Two parses that find something in a text that has the same syntax tree everywhere find the
/// same.
pub proof fn law_facts_are_the_same_everywhere(s: Seq<char>, a: Facts, b: Facts)
    requires
        same_everywhere(unix_lines(s)),
        may_be_found(s, a),
        may_be_found(s, b),
        a != Facts::none(),
        b != Facts::none(),
    ensures
        a == b,
{
}

/// The parser of Swift files. Classes are all types and extensions, and protocols.
pub struct SwiftParser;

impl SwiftParser {
    pub fn new() -> (r: Self)
        ensures
            r == SwiftParser,
    {
        SwiftParser
    }

    pub fn language_name(&self) -> (r: &'static str)
        ensures
            r@ == "swift"@,
    {
        "swift"
    }

    pub fn file_extensions(&self) -> (r: Vec<&'static str>)
        ensures
            r@.len() == 1,
            r@[0]@ == "swift"@,
    {
        vec!["swift"]
    }

    /// Parses a Swift file. Its lines are made to end in a line feed alone first: the grammar
    /// loses the rest of a file at some literals that run over lines with carriage returns. A
    /// file that looks binary or runs over the time stays without facts, and so does an empty
    /// text.
    pub fn parse(&self, source: &str, file_path: &str) -> (r: Result<ParseResult, ParseError>)
        ensures
            r is Ok,
            r->Ok_0.lines_total == line_count(unix_lines(source@)),
            may_be_found(source@, r->Ok_0.facts()),
            !binary_text(source@) ==> exists|outcome: Option<tree_sitter::Tree>| #[trigger]
                swift_outcome(unix_lines(source@), 10_000_000, outcome) && r->Ok_0.facts() == (match outcome {
                    Some(tree) => swift_facts(parsed_tree(tree), unix_lines(source@)),
                    None => Facts::none(),
                }),
    {
        let normalized = to_unix_lines(source);
        let text = normalized.as_str();
        if looks_binary(source) {
            return Ok(empty_parse_result(text));
        }
        let parsed = parse_swift_tree(text, PARSE_TIMEOUT_MS * 1000);
        let ghost given = parsed;
        assert(swift_outcome(text@, 10_000_000, given->Ok_0));
        let r = swift_result(parsed, text);
        proof {
            if let Ok(Some(tree)) = given {
                assert(r->Ok_0.facts() == swift_facts(parsed_tree(tree), text@));
            }
        }
        r
    }
}

} // verus!
