//! Where the facts of a BSL module come from.

use crate::parser::bsl::{
    body_calls, body_calls_from, bsl_facts, callee_text, calls_from, children_facts,
    declaration_calls, declaration_facts, directive_from, exported,
    law_no_classes_and_no_imports, marked_args, node_facts, override_from, summary_parts,
    variables_from,
};
use crate::parser::places::{
    facts_by_place, facts_in, in_part, inside, lemma_child_then_rest, lemma_inside_exists,
    lemma_node_then_children, lemma_none_in, node_at, Part,
};
use crate::parser::syntax::{line_of, text_at, SyntaxTree};
use crate::parser::types::{
    sha256_text, CallFact, Facts, FunctionFact, VariableFact,
};
use crate::parser::walk::{field_of, kind_of, or_empty, text_in};
use crate::text::joined;
use vstd::prelude::*;
use vstd::string::*;

verus! {

/// Whether a node declares a procedure or a function.
pub open spec fn is_declaration(kind: Seq<char>) -> bool {
    kind == "proc_declaration"@ || kind == "func_declaration"@
}

/// Whether a child of a declaration is none of its statements.
pub open spec fn is_heading(kind: Seq<char>) -> bool {
    kind == "proc_declaration"@ || kind == "func_declaration"@ || kind == "argument_list"@ || kind
        == "annotation"@ || kind == "export"@
}

/// The name of the procedure or function that a node declares, empty where it has none.
pub open spec fn name_of(t: SyntaxTree, source: Seq<char>) -> Seq<char> {
    if t.kind == "proc_declaration"@ {
        or_empty(text_in(field_of(t, "proc_name"@), source))
    } else {
        or_empty(text_in(field_of(t, "func_name"@), source))
    }
}

/// The place of the procedure or function inside which a place stands.
pub open spec fn declaration_around(root: SyntaxTree, place: Seq<int>) -> Option<Seq<int>>
    decreases place.len(),
{
    if place.len() <= 1 {
        None
    } else if declaration_around(root, place.drop_last()) is Some {
        declaration_around(root, place.drop_last())
    } else if is_declaration(node_at(root, place.drop_last())->0.kind) {
        Some(place.drop_last())
    } else {
        None
    }
}

/// How deep a place stands in the module, or in the declaration around it.
pub open spec fn depth_of(root: SyntaxTree, place: Seq<int>) -> nat
    decreases place.len(),
{
    if place.len() <= 1 {
        0
    } else if declaration_around(root, place) == Some(place.drop_last()) {
        1
    } else {
        depth_of(root, place.drop_last()) + 1
    }
}

/// Whether a place can be reached from the root: into declarations with a name, but not into their
/// headings, and past no call and no block of variables.
pub open spec fn reachable(root: SyntaxTree, place: Seq<int>, source: Seq<char>) -> bool
    decreases place.len(),
{
    &&& place.len() > 0
    &&& node_at(root, place) is Some
    &&& place.len() > 1 ==> {
        let parent = place.drop_last();
        let t = node_at(root, parent)->0;
        &&& reachable(root, parent, source)
        &&& depth_of(root, parent) <= 500
        &&& t.kind != "call_statement"@
        &&& declaration_around(root, parent) is None ==> if is_declaration(t.kind) {
            name_of(t, source).len() > 0 && !is_heading(node_at(root, place)->0.kind)
        } else {
            t.kind != "module_var_block"@
        }
    }
}

/// Whether a place is looked at: it can be reached, and it is not too deep.
pub open spec fn visited(root: SyntaxTree, place: Seq<int>, source: Seq<char>) -> bool {
    reachable(root, place, source) && depth_of(root, place) <= 500
}

/// The call that stands at a place, in a call statement: its caller is the procedure or function
/// around it.
pub open spec fn call_at(root: SyntaxTree, source: Seq<char>) -> spec_fn(Seq<int>) -> Option<
    CallFact,
> {
    |place: Seq<int>|
        {
            let statement = place.drop_last();
            let callee = callee_text(node_at(root, place)->0, source);
            if place.len() > 1 && node_at(root, place) is Some && visited(root, statement, source)
                && node_at(root, statement)->0.kind == "call_statement"@ && callee.len() > 0 {
                Some(
                    CallFact {
                        caller: match declaration_around(root, statement) {
                            Some(d) => name_of(node_at(root, d)->0, source),
                            None => "<module>"@,
                        },
                        callee,
                        line: line_of(node_at(root, statement)->0.start_row),
                    },
                )
            } else {
                None
            }
        }
}

/// The procedure or function that is declared at a place, with whether it is exported, where it is
/// compiled and what it overrides. One without a name is left out.
pub open spec fn function_at(root: SyntaxTree, source: Seq<char>) -> spec_fn(Seq<int>) -> Option<
    FunctionFact,
> {
    |place: Seq<int>|
        {
            let t = node_at(root, place)->0;
            let export = exported(t, source);
            let directive = directive_from(t, 0, source);
            let over = override_from(t, 0, source);
            if visited(root, place, source) && declaration_around(root, place) is None
                && is_declaration(t.kind) && name_of(t, source).len() > 0 {
                Some(
                    FunctionFact {
                        name: name_of(t, source),
                        qualified_name: None,
                        line_start: line_of(t.start_row),
                        line_end: line_of(t.end_row),
                        args: marked_args(text_in(kind_of(t, "argument_list"@), source), export),
                        return_type: directive,
                        docstring: Some(
                            joined(
                                summary_parts(
                                    if t.kind == "proc_declaration"@ {
                                        "procedure"@
                                    } else {
                                        "function"@
                                    },
                                    directive,
                                    export,
                                    over,
                                ),
                                " "@,
                            ),
                        ),
                        body: text_at(t, source),
                        is_async: false,
                        node_hash: sha256_text(text_at(t, source)),
                        override_type: over.0,
                        override_target: over.1,
                    },
                )
            } else {
                None
            }
        }
}

/// The variable of the module that is declared at a place, and whether it is exported.
pub open spec fn variable_at(root: SyntaxTree, source: Seq<char>) -> spec_fn(Seq<int>) -> Option<
    VariableFact,
> {
    |place: Seq<int>|
        {
            let t = node_at(root, place)->0;
            let block = place.drop_last();
            let name = or_empty(text_in(kind_of(t, "identifier"@), source));
            if place.len() > 1 && node_at(root, place) is Some && visited(root, block, source)
                && declaration_around(root, block) is None && node_at(root, block)->0.kind
                == "module_var_block"@ && t.kind == "module_var_declaration"@ && name.len() > 0 {
                Some(
                    VariableFact {
                        name,
                        value: if exported(t, source) {
                            Some("Экспорт"@)
                        } else {
                            None
                        },
                        line: line_of(t.start_row),
                    },
                )
            } else {
                None
            }
        }
}

/// Whether facts are those of a part of the tree.
spec fn found_in(f: Facts, root: SyntaxTree, source: Seq<char>, part: Part) -> bool {
    &&& facts_in(f.calls, call_at(root, source), part)
    &&& facts_in(f.functions, function_at(root, source), part)
    &&& facts_in(f.variables, variable_at(root, source), part)
}

/// Whether no fact comes from a place.
spec fn silent(root: SyntaxTree, source: Seq<char>, place: Seq<int>) -> bool {
    &&& call_at(root, source)(place) is None
    &&& function_at(root, source)(place) is None
    &&& variable_at(root, source)(place) is None
}

/// A fact that is there or not, as a list.
spec fn of_option<T>(o: Option<T>) -> Seq<T> {
    match o {
        Some(x) => seq![x],
        None => Seq::empty(),
    }
}

/// What stands at a place itself.
spec fn own_facts(root: SyntaxTree, source: Seq<char>, place: Seq<int>) -> Facts {
    Facts {
        calls: of_option(call_at(root, source)(place)),
        functions: of_option(function_at(root, source)(place)),
        variables: of_option(variable_at(root, source)(place)),
        ..Facts::none()
    }
}

/// Where a place is not looked at, nothing inside it is.
proof fn lemma_stops(root: SyntaxTree, source: Seq<char>, top: Seq<int>, place: Seq<int>)
    requires
        top.len() > 0,
        !visited(root, top, source),
        inside(place, top),
    ensures
        !visited(root, place, source),
    decreases place.len(),
{
    let n = top.len() as int;
    if place.len() == n {
        assert(place.take(n) =~= place);
    } else {
        assert(place.drop_last().take(n) =~= place.take(n));
        lemma_stops(root, source, top, place.drop_last());
    }
}

/// No fact comes from inside a place that is not looked at.
proof fn lemma_silent_inside(root: SyntaxTree, source: Seq<char>, top: Seq<int>, place: Seq<int>)
    requires
        top.len() > 0,
        !visited(root, top, source),
        inside(place, top),
        place.len() > top.len(),
    ensures
        silent(root, source, place),
{
    let n = top.len() as int;
    assert(place.drop_last().take(n) =~= place.take(n));
    lemma_stops(root, source, top, place);
    lemma_stops(root, source, top, place.drop_last());
}

/// Nothing is found where no fact comes from.
proof fn lemma_nothing(root: SyntaxTree, source: Seq<char>, part: Part)
    requires
        forall|p: Seq<int>| #[trigger] in_part(p, part) ==> silent(root, source, p),
    ensures
        found_in(Facts::none(), root, source, part),
{
    assert forall|p: Seq<int>| in_part(p, part) implies #[trigger] call_at(root, source)(
        p,
    ) is None by {
        assert(silent(root, source, p));
    }
    assert forall|p: Seq<int>| in_part(p, part) implies #[trigger] function_at(root, source)(
        p,
    ) is None by {
        assert(silent(root, source, p));
    }
    assert forall|p: Seq<int>| in_part(p, part) implies #[trigger] variable_at(root, source)(
        p,
    ) is None by {
        assert(silent(root, source, p));
    }
    lemma_none_in(call_at(root, source), part);
    lemma_none_in(function_at(root, source), part);
    lemma_none_in(variable_at(root, source), part);
}

/// Nothing is found past the last child.
proof fn lemma_no_more_children(
    root: SyntaxTree,
    source: Seq<char>,
    top: Seq<int>,
    t: SyntaxTree,
)
    requires
        node_at(root, top) == Some(t),
    ensures
        found_in(Facts::none(), root, source, Part::Children(top, t.children.len() as int)),
{
    let part = Part::Children(top, t.children.len() as int);
    assert forall|p: Seq<int>| #[trigger] in_part(p, part) implies silent(root, source, p) by {
        if node_at(root, p) is Some {
            lemma_inside_exists(root, p, top);
        }
    }
    lemma_nothing(root, source, part);
}

/// The facts of a node: what it is itself, then what its children hold.
proof fn lemma_own_then_children(rest: Facts, root: SyntaxTree, source: Seq<char>, top: Seq<int>)
    requires
        found_in(rest, root, source, Part::Children(top, 0)),
    ensures
        found_in(own_facts(root, source, top).join(rest), root, source, Part::Whole(top)),
{
    assert forall|p: Seq<int>|
        node_at(root, p) is Some && inside(p, top) && p.len() > top.len() implies p[top.len() as int]
        >= 0 by {
        lemma_inside_exists(root, p, top);
    }
    lemma_node_then_children(rest.calls, call_at(root, source), top);
    lemma_node_then_children(rest.functions, function_at(root, source), top);
    lemma_node_then_children(rest.variables, variable_at(root, source), top);
}

/// The facts of a child, then those of the children after it.
proof fn lemma_then_rest(
    a: Facts,
    b: Facts,
    root: SyntaxTree,
    source: Seq<char>,
    top: Seq<int>,
    i: int,
)
    requires
        found_in(a, root, source, Part::Whole(top.push(i))),
        found_in(b, root, source, Part::Children(top, i + 1)),
    ensures
        found_in(a.join(b), root, source, Part::Children(top, i)),
{
    lemma_child_then_rest(a.calls, b.calls, call_at(root, source), top, i);
    lemma_child_then_rest(a.functions, b.functions, function_at(root, source), top, i);
    lemma_child_then_rest(a.variables, b.variables, variable_at(root, source), top, i);
}

/// What is found in a child that is not looked at: what it is itself.
proof fn lemma_single(root: SyntaxTree, source: Seq<char>, place: Seq<int>)
    requires
        place.len() > 0,
        !visited(root, place, source),
    ensures
        found_in(own_facts(root, source, place), root, source, Part::Whole(place)),
{
    let part = Part::Children(place, 0);
    assert forall|p: Seq<int>| #[trigger] in_part(p, part) implies silent(root, source, p) by {
        lemma_silent_inside(root, source, place, p);
    }
    lemma_nothing(root, source, part);
    lemma_own_then_children(Facts::none(), root, source, place);
    assert(own_facts(root, source, place).join(Facts::none()) =~= own_facts(root, source, place));
}

/// What is found in the children of a call statement from `j` on.
proof fn lemma_calls(
    root: SyntaxTree,
    source: Seq<char>,
    place: Seq<int>,
    t: SyntaxTree,
    j: int,
    func: Option<Seq<char>>,
)
    requires
        visited(root, place, source),
        node_at(root, place) == Some(t),
        t.kind == "call_statement"@,
        func == (match declaration_around(root, place) {
            Some(d) => Some(name_of(node_at(root, d)->0, source)),
            None => None,
        }),
        0 <= j <= t.children.len(),
    ensures
        found_in(calls_from(t, j, source, func), root, source, Part::Children(place, j)),
    decreases t.children.len() - j,
{
    lemma_kinds();
    if j == t.children.len() {
        lemma_no_more_children(root, source, place, t);
    } else {
        lemma_calls(root, source, place, t, j + 1, func);
        let q = place.push(j);
        assert(q.drop_last() =~= place);
        assert(q.last() == j);
        assert(node_at(root, q) == Some(t.children[j]));
        lemma_single(root, source, q);
        let a = own_facts(root, source, q);
        let b = calls_from(t, j + 1, source, func);
        lemma_then_rest(a, b, root, source, place, j);
        assert(a.join(b) =~= calls_from(t, j, source, func));
    }
}

/// What is found in a call statement.
proof fn lemma_statement(
    root: SyntaxTree,
    source: Seq<char>,
    place: Seq<int>,
    t: SyntaxTree,
    func: Option<Seq<char>>,
)
    requires
        visited(root, place, source),
        node_at(root, place) == Some(t),
        t.kind == "call_statement"@,
        func == (match declaration_around(root, place) {
            Some(d) => Some(name_of(node_at(root, d)->0, source)),
            None => None,
        }),
    ensures
        found_in(calls_from(t, 0, source, func), root, source, Part::Whole(place)),
{
    lemma_kinds();
    lemma_calls(root, source, place, t, 0, func);
    let rest = calls_from(t, 0, source, func);
    lemma_own_then_children(rest, root, source, place);
    assert(own_facts(root, source, place).join(rest) =~= rest) by {
        lemma_calls_have_no_classes(t, 0, source, func);
    }
}

proof fn lemma_calls_have_no_classes(
    t: SyntaxTree,
    i: int,
    source: Seq<char>,
    func: Option<Seq<char>>,
)
    ensures
        calls_from(t, i, source, func).functions.len() == 0,
        calls_from(t, i, source, func).classes.len() == 0,
        calls_from(t, i, source, func).imports.len() == 0,
        calls_from(t, i, source, func).variables.len() == 0,
    decreases t.children.len() - i,
{
    if 0 <= i < t.children.len() {
        lemma_calls_have_no_classes(t, i + 1, source, func);
    }
}

/// What is found in a node inside a declaration.
proof fn lemma_body(
    root: SyntaxTree,
    source: Seq<char>,
    place: Seq<int>,
    t: SyntaxTree,
    d: Seq<int>,
    depth: nat,
)
    requires
        reachable(root, place, source),
        node_at(root, place) == Some(t),
        declaration_around(root, place) == Some(d),
        depth_of(root, place) == depth,
    ensures
        found_in(
            body_calls(t, source, Some(name_of(node_at(root, d)->0, source)), depth),
            root,
            source,
            Part::Whole(place),
        ),
    decreases t, 1nat, 0nat,
{
    lemma_kinds();
    let func = Some(name_of(node_at(root, d)->0, source));
    if depth > 500 {
        lemma_single(root, source, place);
        assert(own_facts(root, source, place) =~= Facts::none());
    } else if t.kind == "call_statement"@ {
        lemma_statement(root, source, place, t, func);
    } else {
        lemma_body_children(root, source, place, t, 0, d, depth + 1);
        let rest = body_calls_from(t, 0, source, func, depth + 1);
        lemma_own_then_children(rest, root, source, place);
        assert(own_facts(root, source, place).join(rest) =~= rest);
    }
}

/// What is found in the children from `i` on of a node inside a declaration.
proof fn lemma_body_children(
    root: SyntaxTree,
    source: Seq<char>,
    place: Seq<int>,
    t: SyntaxTree,
    i: int,
    d: Seq<int>,
    depth: nat,
)
    requires
        visited(root, place, source),
        node_at(root, place) == Some(t),
        declaration_around(root, place) == Some(d),
        t.kind != "call_statement"@,
        depth == depth_of(root, place) + 1,
        0 <= i <= t.children.len(),
    ensures
        found_in(
            body_calls_from(t, i, source, Some(name_of(node_at(root, d)->0, source)), depth),
            root,
            source,
            Part::Children(place, i),
        ),
    decreases t, 0nat, t.children.len() - i,
{
    let func = Some(name_of(node_at(root, d)->0, source));
    if i == t.children.len() {
        lemma_no_more_children(root, source, place, t);
    } else {
        let q = place.push(i);
        assert(q.drop_last() =~= place);
        assert(q.last() == i);
        lemma_around_is_outside(root, place);
        lemma_body(root, source, q, t.children[i], d, depth);
        lemma_body_children(root, source, place, t, i + 1, d, depth);
        lemma_then_rest(
            body_calls(t.children[i], source, func, depth),
            body_calls_from(t, i + 1, source, func, depth),
            root,
            source,
            place,
            i,
        );
    }
}

/// The declaration around a place is another place.
proof fn lemma_around_is_outside(root: SyntaxTree, place: Seq<int>)
    ensures
        declaration_around(root, place) matches Some(d) ==> d.len() < place.len(),
    decreases place.len(),
{
    if place.len() > 1 {
        lemma_around_is_outside(root, place.drop_last());
    }
}

/// What is found in the children of a declaration from `i` on.
proof fn lemma_declaration_children(
    root: SyntaxTree,
    source: Seq<char>,
    place: Seq<int>,
    t: SyntaxTree,
    i: int,
)
    requires
        visited(root, place, source),
        node_at(root, place) == Some(t),
        declaration_around(root, place) is None,
        is_declaration(t.kind),
        name_of(t, source).len() > 0,
        0 <= i <= t.children.len(),
    ensures
        found_in(
            declaration_calls(t, i, source, Some(name_of(t, source))),
            root,
            source,
            Part::Children(place, i),
        ),
    decreases t.children.len() - i,
{
    lemma_kinds();
    let func = Some(name_of(t, source));
    if i == t.children.len() {
        lemma_no_more_children(root, source, place, t);
    } else {
        let q = place.push(i);
        let child = t.children[i];
        assert(q.drop_last() =~= place);
        assert(q.last() == i);
        assert(node_at(root, q) == Some(child));
        assert(declaration_around(root, q) == Some(place));
        lemma_declaration_children(root, source, place, t, i + 1);
        let own = if child.kind == "call_statement"@ {
            calls_from(child, 0, source, func)
        } else if is_heading(child.kind) {
            Facts::none()
        } else {
            body_calls(child, source, func, 1)
        };
        if is_heading(child.kind) {
            lemma_single(root, source, q);
            assert(own_facts(root, source, q) =~= own);
        } else {
            lemma_body(root, source, q, child, place, 1);
        }
        lemma_then_rest(
            own,
            declaration_calls(t, i + 1, source, func),
            root,
            source,
            place,
            i,
        );
    }
}

/// What is found in a declaration.
proof fn lemma_declaration(root: SyntaxTree, source: Seq<char>, place: Seq<int>, t: SyntaxTree)
    requires
        visited(root, place, source),
        node_at(root, place) == Some(t),
        declaration_around(root, place) is None,
        is_declaration(t.kind),
    ensures
        found_in(
            declaration_facts(t, source, t.kind == "proc_declaration"@),
            root,
            source,
            Part::Whole(place),
        ),
{
    lemma_kinds();
    let own = own_facts(root, source, place);
    let facts = declaration_facts(t, source, t.kind == "proc_declaration"@);
    if name_of(t, source).len() > 0 {
        lemma_declaration_children(root, source, place, t, 0);
        let rest = declaration_calls(t, 0, source, Some(name_of(t, source)));
        lemma_own_then_children(rest, root, source, place);
        assert(own.join(rest) =~= facts);
    } else {
        let part = Part::Children(place, 0);
        assert forall|p: Seq<int>| #[trigger] in_part(p, part) implies silent(root, source, p) by {
            let n = place.len() as int;
            let child = place.push(p[n]);
            assert(child.drop_last() =~= place);
            assert(p.take(n + 1) =~= p.take(n).push(p[n]));
            if p.len() == n + 1 {
                assert(p =~= child);
            } else {
                lemma_silent_inside(root, source, child, p);
            }
        }
        lemma_nothing(root, source, part);
        lemma_own_then_children(Facts::none(), root, source, place);
        assert(own.join(Facts::none()) =~= facts);
    }
}

/// What is found in the children of a block of variables from `j` on.
proof fn lemma_variables(
    root: SyntaxTree,
    source: Seq<char>,
    place: Seq<int>,
    t: SyntaxTree,
    j: int,
)
    requires
        visited(root, place, source),
        node_at(root, place) == Some(t),
        declaration_around(root, place) is None,
        t.kind == "module_var_block"@,
        0 <= j <= t.children.len(),
    ensures
        found_in(variables_from(t, j, source), root, source, Part::Children(place, j)),
        variables_from(t, j, source) == (Facts {
            variables: variables_from(t, j, source).variables,
            ..Facts::none()
        }),
    decreases t.children.len() - j,
{
    lemma_kinds();
    if j == t.children.len() {
        lemma_no_more_children(root, source, place, t);
    } else {
        lemma_variables(root, source, place, t, j + 1);
        let q = place.push(j);
        assert(q.drop_last() =~= place);
        assert(q.last() == j);
        assert(node_at(root, q) == Some(t.children[j]));
        lemma_single(root, source, q);
        let a = own_facts(root, source, q);
        let b = variables_from(t, j + 1, source);
        lemma_then_rest(a, b, root, source, place, j);
        assert(a.join(b) =~= variables_from(t, j, source));
        assert(variables_from(t, j, source) =~= (Facts {
            variables: variables_from(t, j, source).variables,
            ..Facts::none()
        }));
    }
}

/// What is found in a node outside of all declarations.
proof fn lemma_node(
    root: SyntaxTree,
    source: Seq<char>,
    place: Seq<int>,
    t: SyntaxTree,
    depth: nat,
)
    requires
        reachable(root, place, source),
        node_at(root, place) == Some(t),
        declaration_around(root, place) is None,
        depth_of(root, place) == depth,
    ensures
        found_in(node_facts(t, source, depth), root, source, Part::Whole(place)),
    decreases t, 1nat, 0nat,
{
    lemma_kinds();
    let own = own_facts(root, source, place);
    if depth > 500 {
        lemma_single(root, source, place);
        assert(own =~= Facts::none());
    } else if is_declaration(t.kind) {
        lemma_declaration(root, source, place, t);
    } else if t.kind == "module_var_block"@ {
        lemma_variables(root, source, place, t, 0);
        let rest = variables_from(t, 0, source);
        lemma_own_then_children(rest, root, source, place);
        assert(own.join(rest) =~= rest);
    } else if t.kind == "call_statement"@ {
        lemma_statement(root, source, place, t, None);
    } else {
        lemma_children(root, source, place, t, 0, depth + 1);
        let rest = children_facts(t, 0, source, depth + 1);
        lemma_own_then_children(rest, root, source, place);
        assert(own.join(rest) =~= rest);
    }
}

/// What is found in the children from `i` on of a node outside of all declarations.
proof fn lemma_children(
    root: SyntaxTree,
    source: Seq<char>,
    place: Seq<int>,
    t: SyntaxTree,
    i: int,
    depth: nat,
)
    requires
        node_at(root, place) == Some(t),
        place.len() == 0 ==> depth == 0,
        place.len() > 0 ==> {
            &&& visited(root, place, source)
            &&& declaration_around(root, place) is None
            &&& !is_declaration(t.kind)
            &&& t.kind != "call_statement"@
            &&& t.kind != "module_var_block"@
            &&& depth == depth_of(root, place) + 1
        },
        0 <= i <= t.children.len(),
    ensures
        found_in(children_facts(t, i, source, depth), root, source, Part::Children(place, i)),
    decreases t, 0nat, t.children.len() - i,
{
    if i == t.children.len() {
        lemma_no_more_children(root, source, place, t);
    } else {
        let q = place.push(i);
        assert(q.drop_last() =~= place);
        assert(q.last() == i);
        lemma_node(root, source, q, t.children[i], depth);
        lemma_children(root, source, place, t, i + 1, depth);
        lemma_then_rest(
            node_facts(t.children[i], source, depth),
            children_facts(t, i + 1, source, depth),
            root,
            source,
            place,
            i,
        );
    }
}

proof fn lemma_file(root: SyntaxTree, source: Seq<char>)
    ensures
        found_in(bsl_facts(root, source), root, source, Part::Whole(Seq::<int>::empty())),
{
    let top = Seq::<int>::empty();
    assert(node_at(root, top) == Some(root));
    lemma_children(root, source, top, root, 0, 0);
    let rest = bsl_facts(root, source);
    lemma_own_then_children(rest, root, source, top);
    assert(own_facts(root, source, top).join(rest) =~= rest);
}

/// The kinds that are told apart are different ones.
proof fn lemma_kinds()
    ensures
        "proc_declaration"@ != "func_declaration"@,
        "proc_declaration"@ != "module_var_block"@,
        "proc_declaration"@ != "call_statement"@,
        "proc_declaration"@ != "argument_list"@,
        "proc_declaration"@ != "annotation"@,
        "proc_declaration"@ != "export"@,
        "func_declaration"@ != "module_var_block"@,
        "func_declaration"@ != "call_statement"@,
        "func_declaration"@ != "argument_list"@,
        "func_declaration"@ != "annotation"@,
        "func_declaration"@ != "export"@,
        "module_var_block"@ != "call_statement"@,
        "module_var_block"@ != "argument_list"@,
        "module_var_block"@ != "annotation"@,
        "module_var_block"@ != "export"@,
        "call_statement"@ != "argument_list"@,
        "call_statement"@ != "annotation"@,
        "call_statement"@ != "export"@,
        "argument_list"@ != "annotation"@,
        "argument_list"@ != "export"@,
        "annotation"@ != "export"@,
{
    reveal_strlit("proc_declaration");
    reveal_strlit("func_declaration");
    reveal_strlit("module_var_block");
    reveal_strlit("call_statement");
    reveal_strlit("argument_list");
    reveal_strlit("annotation");
    reveal_strlit("export");
    assert("proc_declaration"@.len() == 16);
    assert("func_declaration"@.len() == 16);
    assert("module_var_block"@.len() == 16);
    assert("call_statement"@.len() == 14);
    assert("argument_list"@.len() == 13);
    assert("annotation"@.len() == 10);
    assert("export"@.len() == 6);
    assert("proc_declaration"@[0] == 'p');
    assert("func_declaration"@[0] == 'f');
    assert("module_var_block"@[0] == 'm');
}

/// Every call statement of a BSL module is found, each call in it once and in the order of the
/// module, and its caller is the procedure or function that it stands in; the module where it stands
/// in none.
pub proof fn law_calls_have_the_procedure_around_them_as_caller(root: SyntaxTree, source: Seq<char>)
    ensures
        facts_by_place(bsl_facts(root, source).calls, call_at(root, source)),
{
    lemma_file(root, source);
}

/// Every procedure and function with a name is found once, in the order of the module, and so is
/// every variable of the module.
pub proof fn law_every_procedure_and_variable_is_found(root: SyntaxTree, source: Seq<char>)
    ensures
        facts_by_place(bsl_facts(root, source).functions, function_at(root, source)),
        facts_by_place(bsl_facts(root, source).variables, variable_at(root, source)),
        bsl_facts(root, source).classes.len() == 0,
        bsl_facts(root, source).imports.len() == 0,
{
    lemma_file(root, source);
    law_no_classes_and_no_imports(root, source);
}

} // verus!
