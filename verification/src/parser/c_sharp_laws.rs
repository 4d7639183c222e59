//! Where the facts of a C# file come from.

use crate::parser::places::{
    facts_by_place, facts_in, in_part, inside, lemma_child_then_rest, lemma_inside_exists,
    lemma_node_then_body, lemma_node_then_children, lemma_none_in, node_at, Part,
};
use crate::parser::c_sharp::{
    children_facts, class_facts, csharp_facts, declarator_facts, declarator_value, field_facts,
    function_facts, is_async, node_facts, using_target,
};
use crate::parser::callee::callee_of;
use crate::parser::scopes::{
    depth_of, enclosing, in_definition, is_definition, lemma_body_only, lemma_child,
    lemma_child_of_body, lemma_not_gone_into, lemma_out_of_reach, lemma_stops, reachable, visited, Grammar,
};
use crate::parser::syntax::{kind_index, kind_index_from, line_of, text_at, SyntaxTree};
use crate::parser::types::{sha256_text, CallFact, ClassFact, Facts, FunctionFact, ImportFact, VariableFact};
use crate::parser::walk::{doc_before, field_of, first_of, kind_of, or_empty, text_in, DocStyle};
use vstd::prelude::*;
use vstd::string::*;

verus! {

/// Whether a node is a method, a constructor, a destructor or a local function.
pub open spec fn is_function(kind: Seq<char>) -> bool {
    kind == "method_declaration"@ || kind == "constructor_declaration"@ || kind
        == "destructor_declaration"@ || kind == "local_function_statement"@
}

/// Whether a node is a class, an interface, a struct, an enum or a record.
pub open spec fn is_class(kind: Seq<char>) -> bool {
    kind == "class_declaration"@ || kind == "interface_declaration"@ || kind
        == "struct_declaration"@ || kind == "enum_declaration"@ || kind == "record_declaration"@
}

/// The name of a function, empty where it has none.
pub open spec fn function_name(t: SyntaxTree, source: Seq<char>) -> Seq<char> {
    or_empty(text_in(field_of(t, "name"@), source))
}

/// The name of a class, empty where it has none.
pub open spec fn class_name(t: SyntaxTree, source: Seq<char>) -> Seq<char> {
    or_empty(text_in(field_of(t, "name"@), source))
}

/// What C# makes of nodes: the bodies of functions and classes with a name are gone into;
/// directives and the declarations of fields are not.
pub open spec fn csharp_grammar(source: Seq<char>) -> Grammar {
    Grammar {
        defines: |t: SyntaxTree| is_function(t.kind) || is_class(t.kind),
        body: |t: SyntaxTree|
            if or_empty(text_in(field_of(t, "name"@), source)).len() > 0 {
                t.field_index("body"@)
            } else {
                None
            },
        stops: |t: SyntaxTree| t.kind == "using_directive"@ || t.kind == "field_declaration"@,
    }
}

/// Whether a part of a declaration of fields that is looked at stands at a place: a child of its
/// list of variables.
pub open spec fn in_field(root: SyntaxTree, place: Seq<int>, source: Seq<char>) -> bool {
    &&& place.len() > 2
    &&& node_at(root, place) is Some
    &&& visited(csharp_grammar(source), root, place.drop_last().drop_last())
    &&& node_at(root, place.drop_last().drop_last())->0.kind == "field_declaration"@
    &&& kind_index(node_at(root, place.drop_last().drop_last())->0, "variable_declaration"@)
        == Some(place.drop_last().last())
}

/// Whether a fact may come from a place.
spec fn looked_at(root: SyntaxTree, place: Seq<int>, source: Seq<char>) -> bool {
    visited(csharp_grammar(source), root, place) || in_field(root, place, source)
}

/// The name of the function in whose body a place stands, with no class in between.
pub open spec fn function_around(
    root: SyntaxTree,
    place: Seq<int>,
    source: Seq<char>,
) -> Option<Seq<char>> {
    match enclosing(csharp_grammar(source), root, place) {
        Some(d) => if is_function(node_at(root, d)->0.kind) {
            Some(function_name(node_at(root, d)->0, source))
        } else {
            None
        },
        None => None,
    }
}

/// The name of the class in whose body a place stands, the innermost one.
pub open spec fn class_around(
    root: SyntaxTree,
    place: Seq<int>,
    source: Seq<char>,
) -> Option<Seq<char>>
    decreases place.len(),
{
    if place.len() <= 1 {
        None
    } else if in_definition(csharp_grammar(source), root, place) && !is_function(
        node_at(root, place.drop_last().drop_last())->0.kind,
    ) {
        Some(class_name(node_at(root, place.drop_last().drop_last())->0, source))
    } else {
        class_around(root, place.drop_last(), source)
    }
}

/// The call that stands at a place: its caller is the function in whose body it stands. A call of
/// the result of an expression has no name and is left out.
pub open spec fn call_at(root: SyntaxTree, source: Seq<char>) -> spec_fn(Seq<int>) -> Option<
    CallFact,
> {
    |place: Seq<int>|
        {
            let t = node_at(root, place)->0;
            let callee = match field_of(t, "function"@) {
                Some(f) => callee_of(f, source),
                None => None,
            };
            if visited(csharp_grammar(source), root, place) && t.kind == "invocation_expression"@
                && callee is Some {
                Some(
                    CallFact {
                        caller: match function_around(root, place, source) {
                            Some(name) => name,
                            None => "<module>"@,
                        },
                        callee: callee->0,
                        line: line_of(t.start_row),
                    },
                )
            } else {
                None
            }
        }
}

/// What a directive at a place brings in.
pub open spec fn import_at(root: SyntaxTree, source: Seq<char>) -> spec_fn(Seq<int>) -> Option<
    ImportFact,
> {
    |place: Seq<int>|
        {
            let t = node_at(root, place)->0;
            if visited(csharp_grammar(source), root, place) && t.kind == "using_directive"@ {
                Some(
                    ImportFact {
                        module: match using_target(t, t.children.len() as int) {
                            Some(k) => Some(text_at(t.children[k], source)),
                            None => None,
                        },
                        name: None,
                        alias: text_in(field_of(t, "name"@), source),
                        line: line_of(t.start_row),
                        kind: "using"@,
                    },
                )
            } else {
                None
            }
        }
}

/// The function that is declared at a place. One without a name is left out.
pub open spec fn function_at(root: SyntaxTree, source: Seq<char>) -> spec_fn(Seq<int>) -> Option<
    FunctionFact,
> {
    |place: Seq<int>|
        {
            let t = node_at(root, place)->0;
            let name = function_name(t, source);
            if visited(csharp_grammar(source), root, place) && is_function(t.kind) && name.len()
                > 0 {
                Some(
                    FunctionFact {
                        name,
                        qualified_name: match class_around(root, place, source) {
                            Some(class) => Some(class + "."@ + name),
                            None => None,
                        },
                        line_start: line_of(t.start_row),
                        line_end: line_of(t.end_row),
                        args: text_in(field_of(t, "parameters"@), source),
                        return_type: first_of(
                            text_in(field_of(t, "returns"@), source),
                            text_in(field_of(t, "type"@), source),
                        ),
                        docstring: doc_before(
                            DocStyle::CSharp,
                            node_at(root, place.drop_last())->0,
                            place.last(),
                            source,
                        ),
                        body: text_at(t, source),
                        is_async: is_async(t, source),
                        node_hash: sha256_text(text_at(t, source)),
                        override_type: None,
                        override_target: None,
                    },
                )
            } else {
                None
            }
        }
}

/// The class that is declared at a place. One without a name is left out.
pub open spec fn class_at(root: SyntaxTree, source: Seq<char>) -> spec_fn(Seq<int>) -> Option<
    ClassFact,
> {
    |place: Seq<int>|
        {
            let t = node_at(root, place)->0;
            let name = class_name(t, source);
            if visited(csharp_grammar(source), root, place) && is_class(t.kind) && name.len() > 0 {
                Some(
                    ClassFact {
                        name,
                        line_start: line_of(t.start_row),
                        line_end: line_of(t.end_row),
                        bases: text_in(kind_of(t, "base_list"@), source),
                        docstring: doc_before(
                            DocStyle::CSharp,
                            node_at(root, place.drop_last())->0,
                            place.last(),
                            source,
                        ),
                        body: text_at(t, source),
                        node_hash: sha256_text(text_at(t, source)),
                    },
                )
            } else {
                None
            }
        }
}

/// The field that a part of a declaration at a place declares.
pub open spec fn variable_at(root: SyntaxTree, source: Seq<char>) -> spec_fn(Seq<int>) -> Option<
    VariableFact,
> {
    |place: Seq<int>|
        {
            let t = node_at(root, place)->0;
            if in_field(root, place, source) && t.kind == "variable_declarator"@ && field_of(
                t,
                "name"@,
            ) is Some {
                Some(
                    VariableFact {
                        name: text_at(field_of(t, "name"@)->0, source),
                        value: declarator_value(t, source),
                        line: line_of(
                            node_at(root, place.drop_last().drop_last())->0.start_row,
                        ),
                    },
                )
            } else {
                None
            }
        }
}

/// A part of a declaration of fields inside a place that can be reached belongs to a declaration
/// that stands there, too.
proof fn lemma_field_inside(root: SyntaxTree, source: Seq<char>, top: Seq<int>, place: Seq<int>)
    requires
        reachable(csharp_grammar(source), root, top),
        in_field(root, place, source),
        inside(place, top),
    ensures
        place.len() >= top.len() + 2,
        inside(place.drop_last().drop_last(), top),
        !is_definition(csharp_grammar(source), root, place.drop_last().drop_last()),
        (csharp_grammar(source).stops)(node_at(root, place.drop_last().drop_last())->0),
{
    lemma_kinds();
    let n = top.len() as int;
    let declaration = place.drop_last().drop_last();
    if place.len() < n + 2 {
        assert(top.take(declaration.len() as int) =~= place.take(n).take(declaration.len() as int));
        assert(top.take(declaration.len() as int) =~= declaration);
        lemma_out_of_reach(csharp_grammar(source), root, declaration, top);
    } else {
        assert(declaration.take(n) =~= place.take(n));
    }
}

/// Inside a definition the declarations of fields stand in its body.
proof fn lemma_field_in_body(root: SyntaxTree, source: Seq<char>, top: Seq<int>, place: Seq<int>)
    requires
        visited(csharp_grammar(source), root, top),
        is_definition(csharp_grammar(source), root, top),
        in_field(root, place, source),
        inside(place, top),
    ensures
        place.len() > top.len() + 1,
        (csharp_grammar(source).body)(node_at(root, top)->0) == Some(place[top.len() as int]),
        place[top.len() as int + 1] >= 0,
{
    lemma_kinds();
    lemma_field_inside(root, source, top, place);
    let declaration = place.drop_last().drop_last();
    if declaration.len() == top.len() {
        assert(declaration.take(top.len() as int) =~= declaration);
    }
    lemma_body_only(csharp_grammar(source), root, top, declaration);
}

/// What is found in the children of the list of variables of a declaration of fields from `j` on.
proof fn lemma_declarators(
    root: SyntaxTree,
    source: Seq<char>,
    place: Seq<int>,
    t: SyntaxTree,
    k: int,
    j: int,
)
    requires
        visited(csharp_grammar(source), root, place),
        node_at(root, place) == Some(t),
        t.kind == "field_declaration"@,
        kind_index(t, "variable_declaration"@) == Some(k),
        0 <= k < t.children.len(),
        0 <= j <= t.children[k].children.len(),
    ensures
        facts_in(
            declarator_facts(t.children[k], j, line_of(t.start_row), source).variables,
            variable_at(root, source),
            Part::Children(place.push(k), j),
        ),
        declarator_facts(t.children[k], j, line_of(t.start_row), source) == (Facts {
            variables: declarator_facts(t.children[k], j, line_of(t.start_row), source).variables,
            ..Facts::none()
        }),
    decreases t.children[k].children.len() - j,
{
    let at = variable_at(root, source);
    let decl = t.children[k];
    let list = place.push(k);
    lemma_kinds();
    assert(list.drop_last() =~= place);
    assert(list.last() == k);
    assert(node_at(root, list) == Some(decl));
    if j == decl.children.len() {
        let part = Part::Children(list, j);
        assert forall|p: Seq<int>| in_part(p, part) implies #[trigger] at(p) is None by {
            if node_at(root, p) is Some {
                lemma_inside_exists(root, p, list);
            }
        }
        lemma_none_in(at, part);
    } else {
        lemma_declarators(root, source, place, t, k, j + 1);
        let q = list.push(j);
        assert(q.drop_last() =~= list);
        assert(q.last() == j);
        assert(node_at(root, q) == Some(decl.children[j]));
        assert(in_field(root, q, source));
        let part = Part::Children(q, 0);
        assert forall|p: Seq<int>| in_part(p, part) implies #[trigger] at(p) is None by {
            if in_field(root, p, source) {
                let f = p.drop_last().drop_last();
                let n = place.len() as int;
                assert(q.take(n) =~= place);
                assert(f.take(n) =~= p.take(q.len() as int).take(n));
                lemma_not_gone_into(csharp_grammar(source), root, place, f);
            }
        }
        lemma_none_in(at, part);
        assert forall|p: Seq<int>|
            inside(p, q) && p.len() > q.len() && (#[trigger] at(p) is Some) implies p[q.len() as int]
            >= 0 by {
            lemma_inside_exists(root, p, q);
        }
        lemma_node_then_children(Seq::<VariableFact>::empty(), at, q);
        let a = of_option(at(q)) + Seq::<VariableFact>::empty();
        let b = declarator_facts(decl, j + 1, line_of(t.start_row), source).variables;
        lemma_child_then_rest(a, b, at, list, j);
        assert(a + b =~= declarator_facts(decl, j, line_of(t.start_row), source).variables);
        assert(declarator_facts(decl, j, line_of(t.start_row), source) =~= (Facts {
            variables: declarator_facts(decl, j, line_of(t.start_row), source).variables,
            ..Facts::none()
        }));
    }
}

/// What is found in a declaration of fields.
proof fn lemma_fields(root: SyntaxTree, source: Seq<char>, place: Seq<int>, t: SyntaxTree)
    requires
        visited(csharp_grammar(source), root, place),
        node_at(root, place) == Some(t),
        t.kind == "field_declaration"@,
    ensures
        found_in(field_facts(t, source), root, source, Part::Whole(place)),
{
    lemma_kinds();
    let g = csharp_grammar(source);
    let n = place.len() as int;
    let part = Part::Children(place, 0);
    let at = variable_at(root, source);
    assert(!is_definition(g, root, place));
    lemma_kind_index(t, "variable_declaration"@, 0);
    assert forall|p: Seq<int>| #[trigger] in_part(p, Part::Whole(place)) && p != place implies !visited(
        g,
        root,
        p,
    ) by {
        if p.len() == n {
            assert(p.take(n) =~= p);
        }
        lemma_not_gone_into(g, root, place, p);
    }
    assert forall|p: Seq<int>| in_field(root, p, source) && inside(p, place) implies p.len() > n + 1
        && kind_index(t, "variable_declaration"@) == Some(p[n]) && p[n + 1] >= 0 by {
        lemma_field_inside(root, source, place, p);
        let f = p.drop_last().drop_last();
        if f.len() > n {
            lemma_not_gone_into(g, root, place, f);
        }
        assert(f.take(n) =~= f);
        assert(p.drop_last().last() == p[n]);
        lemma_inside_exists(root, p, p.drop_last());
        assert(p.take(n + 1) =~= p.drop_last());
    }
    assert(place.take(n) =~= place);
    if in_field(root, place, source) {
        lemma_field_inside(root, source, place, place);
    }
    match kind_index(t, "variable_declaration"@) {
        Some(k) => {
            lemma_declarators(root, source, place, t, k, 0);
            lemma_node_then_body(field_facts(t, source).variables, at, place, k);
            assert(at(place) is None);
            assert(of_option(at(place)) + field_facts(t, source).variables =~= field_facts(
                t,
                source,
            ).variables);
        },
        None => {
            assert forall|p: Seq<int>| in_part(p, Part::Whole(place)) implies #[trigger] at(p)
                is None by {}
            lemma_none_in(at, Part::Whole(place));
        },
    }
    lemma_none_in(call_at(root, source), Part::Whole(place));
    lemma_none_in(function_at(root, source), Part::Whole(place));
    lemma_none_in(class_at(root, source), Part::Whole(place));
    lemma_none_in(import_at(root, source), Part::Whole(place));
}

/// The first child of a kind is a child.
proof fn lemma_kind_index(t: SyntaxTree, kind: Seq<char>, i: int)
    ensures
        kind_index_from(t, kind, i) matches Some(k) ==> 0 <= k < t.children.len(),
    decreases t.children.len() - i,
{
    if 0 <= i < t.children.len() {
        lemma_kind_index(t, kind, i + 1);
    }
}

/// Whether facts are those of a part of the tree.
spec fn found_in(f: Facts, root: SyntaxTree, source: Seq<char>, part: Part) -> bool {
    &&& facts_in(f.calls, call_at(root, source), part)
    &&& facts_in(f.functions, function_at(root, source), part)
    &&& facts_in(f.classes, class_at(root, source), part)
    &&& facts_in(f.imports, import_at(root, source), part)
    &&& facts_in(f.variables, variable_at(root, source), part)
}

/// A fact that is there or not, as a list.
spec fn of_option<T>(o: Option<T>) -> Seq<T> {
    match o {
        Some(x) => seq![x],
        None => Seq::empty(),
    }
}

/// What stands at a place itself.
spec fn own_facts(root: SyntaxTree, source: Seq<char>, place: Seq<int>) -> Facts {
    Facts {
        calls: of_option(call_at(root, source)(place)),
        functions: of_option(function_at(root, source)(place)),
        classes: of_option(class_at(root, source)(place)),
        imports: of_option(import_at(root, source)(place)),
        variables: of_option(variable_at(root, source)(place)),
    }
}

/// Nothing is found where nothing is looked at.
proof fn lemma_nothing(root: SyntaxTree, source: Seq<char>, part: Part)
    requires
        forall|p: Seq<int>| #[trigger] in_part(p, part) ==> !looked_at(root, p, source),
    ensures
        found_in(Facts::none(), root, source, part),
{
    assert forall|p: Seq<int>| in_part(p, part) implies #[trigger] call_at(root, source)(
        p,
    ) is None by {}
    lemma_none_in(call_at(root, source), part);
    assert forall|p: Seq<int>| in_part(p, part) implies #[trigger] function_at(root, source)(
        p,
    ) is None by {}
    lemma_none_in(function_at(root, source), part);
    assert forall|p: Seq<int>| in_part(p, part) implies #[trigger] class_at(root, source)(
        p,
    ) is None by {}
    lemma_none_in(class_at(root, source), part);
    assert forall|p: Seq<int>| in_part(p, part) implies #[trigger] import_at(root, source)(
        p,
    ) is None by {}
    lemma_none_in(import_at(root, source), part);
    assert forall|p: Seq<int>| in_part(p, part) implies #[trigger] variable_at(root, source)(
        p,
    ) is None by {}
    lemma_none_in(variable_at(root, source), part);
}

/// The facts of a node: what it is itself, then what its children hold.
proof fn lemma_own_then_children(rest: Facts, root: SyntaxTree, source: Seq<char>, top: Seq<int>)
    requires
        found_in(rest, root, source, Part::Children(top, 0)),
    ensures
        found_in(own_facts(root, source, top).join(rest), root, source, Part::Whole(top)),
{
    assert forall|p: Seq<int>|
        looked_at(root, p, source) && inside(p, top) && p.len() > top.len() implies p[top.len() as int]
        >= 0 by {
        lemma_inside_exists(root, p, top);
    }
    lemma_node_then_children(rest.calls, call_at(root, source), top);
    lemma_node_then_children(rest.functions, function_at(root, source), top);
    lemma_node_then_children(rest.classes, class_at(root, source), top);
    lemma_node_then_children(rest.imports, import_at(root, source), top);
    lemma_node_then_children(rest.variables, variable_at(root, source), top);
}

/// The facts of a definition: what it is itself, then what its body holds.
proof fn lemma_own_then_body(
    rest: Facts,
    root: SyntaxTree,
    source: Seq<char>,
    top: Seq<int>,
    k: int,
)
    requires
        found_in(rest, root, source, Part::Children(top.push(k), 0)),
        visited(csharp_grammar(source), root, top),
        is_definition(csharp_grammar(source), root, top),
        (csharp_grammar(source).body)(node_at(root, top)->0) == Some(k),
    ensures
        found_in(own_facts(root, source, top).join(rest), root, source, Part::Whole(top)),
{
    assert forall|p: Seq<int>|
        looked_at(root, p, source) && inside(p, top) && p.len() > top.len() implies p.len()
        > top.len() + 1 && p[top.len() as int] == k && p[top.len() as int + 1] >= 0 by {
        if in_field(root, p, source) {
            lemma_field_in_body(root, source, top, p);
        } else {
            lemma_body_only(csharp_grammar(source), root, top, p);
        }
    }
    lemma_node_then_body(rest.calls, call_at(root, source), top, k);
    lemma_node_then_body(rest.functions, function_at(root, source), top, k);
    lemma_node_then_body(rest.classes, class_at(root, source), top, k);
    lemma_node_then_body(rest.imports, import_at(root, source), top, k);
    lemma_node_then_body(rest.variables, variable_at(root, source), top, k);
}

/// What is found in the children of a node from `i` on.
proof fn lemma_children(
    root: SyntaxTree,
    source: Seq<char>,
    top: Seq<int>,
    t: SyntaxTree,
    i: int,
    class: Option<Seq<char>>,
    func: Option<Seq<char>>,
    depth: nat,
)
    requires
        0 <= i <= t.children.len(),
        node_at(root, top) == Some(t),
        forall|k: int|
            0 <= k < t.children.len() ==> {
                &&& reachable(csharp_grammar(source), root, #[trigger] top.push(k))
                &&& class_around(root, top.push(k), source) == class
                &&& function_around(root, top.push(k), source) == func
                &&& depth_of(csharp_grammar(source), root, top.push(k)) == depth
            },
    ensures
        found_in(
            children_facts(t, i, source, class, func, depth),
            root,
            source,
            Part::Children(top, i),
        ),
    decreases t, t.children.len() - i, 3nat,
{
    if i == t.children.len() {
        let part = Part::Children(top, i);
        assert forall|p: Seq<int>| #[trigger] in_part(p, part) implies !looked_at(root, p, source) by {
            if node_at(root, p) is Some {
                lemma_inside_exists(root, p, top);
            }
        }
        lemma_nothing(root, source, part);
    } else {
        assert(top.push(i).drop_last() =~= top);
        assert(top.push(i).last() == i);
        lemma_node(root, source, top, t, i, class, func, depth);
        lemma_children(root, source, top, t, i + 1, class, func, depth);
        let a = node_facts(t, i, source, class, func, depth);
        let b = children_facts(t, i + 1, source, class, func, depth);
        lemma_child_then_rest(a.calls, b.calls, call_at(root, source), top, i);
        lemma_child_then_rest(a.functions, b.functions, function_at(root, source), top, i);
        lemma_child_then_rest(a.classes, b.classes, class_at(root, source), top, i);
        lemma_child_then_rest(a.imports, b.imports, import_at(root, source), top, i);
        lemma_child_then_rest(a.variables, b.variables, variable_at(root, source), top, i);
    }
}

/// What is found in a child of a node.
proof fn lemma_node(
    root: SyntaxTree,
    source: Seq<char>,
    top: Seq<int>,
    parent: SyntaxTree,
    i: int,
    class: Option<Seq<char>>,
    func: Option<Seq<char>>,
    depth: nat,
)
    requires
        0 <= i < parent.children.len(),
        node_at(root, top) == Some(parent),
        reachable(csharp_grammar(source), root, top.push(i)),
        class_around(root, top.push(i), source) == class,
        function_around(root, top.push(i), source) == func,
        depth_of(csharp_grammar(source), root, top.push(i)) == depth,
    ensures
        found_in(
            node_facts(parent, i, source, class, func, depth),
            root,
            source,
            Part::Whole(top.push(i)),
        ),
    decreases parent, parent.children.len() - i, 2nat,
{
    let g = csharp_grammar(source);
    let place = top.push(i);
    let t = parent.children[i];
    let whole = Part::Whole(place);
    let own = own_facts(root, source, place);
    assert(place.drop_last() =~= top);
    assert(place.last() == i);
    assert(node_at(root, place) == Some(t));
    assert(!(place.len() > 1 && is_definition(g, root, place.drop_last())));
    lemma_kinds();
    if depth > 500 {
        assert forall|p: Seq<int>| #[trigger] in_part(p, whole) implies !looked_at(root, p, source) by {
            lemma_stops(g, root, place, p);
            if in_field(root, p, source) {
                lemma_field_inside(root, source, place, p);
                lemma_stops(g, root, place, p.drop_last().drop_last());
            }
        }
        lemma_nothing(root, source, whole);
    } else if is_function(t.kind) || is_class(t.kind) {
        assert(is_definition(g, root, place));
        lemma_definition(root, source, top, parent, i, class);
    } else if t.kind == "field_declaration"@ {
        lemma_fields(root, source, place, t);
    } else if t.kind == "using_directive"@ {
        assert(!is_definition(g, root, place));
        if in_field(root, place, source) {
            assert(place.take(place.len() as int) =~= place);
            lemma_field_inside(root, source, place, place);
        }
        let part = Part::Children(place, 0);
        assert forall|p: Seq<int>| #[trigger] in_part(p, part) implies !looked_at(
            root,
            p,
            source,
        ) by {
            lemma_not_gone_into(g, root, place, p);
            if in_field(root, p, source) {
                lemma_field_inside(root, source, place, p);
                let f = p.drop_last().drop_last();
                if f.len() > place.len() {
                    lemma_not_gone_into(g, root, place, f);
                } else {
                    assert(f.take(place.len() as int) =~= f);
                }
            }
        }
        lemma_nothing(root, source, part);
        lemma_own_then_children(Facts::none(), root, source, place);
        assert(own.join(Facts::none()) =~= node_facts(parent, i, source, class, func, depth));
    } else {
        assert(!is_definition(g, root, place));
        assert forall|k: int| 0 <= k < t.children.len() implies {
            &&& reachable(g, root, #[trigger] place.push(k))
            &&& class_around(root, place.push(k), source) == class
            &&& function_around(root, place.push(k), source) == func
            &&& depth_of(g, root, place.push(k)) == depth + 1
        } by {
            lemma_child(g, root, place, k);
        }
        lemma_children(root, source, place, t, 0, class, func, depth + 1);
        let rest = children_facts(t, 0, source, class, func, depth + 1);
        lemma_own_then_children(rest, root, source, place);
        if in_field(root, place, source) {
            assert(place.take(place.len() as int) =~= place);
            lemma_field_inside(root, source, place, place);
        }
        assert(own.join(rest) =~= node_facts(parent, i, source, class, func, depth));
    }
}

/// What is found in a function or a class.
proof fn lemma_definition(
    root: SyntaxTree,
    source: Seq<char>,
    top: Seq<int>,
    parent: SyntaxTree,
    i: int,
    class: Option<Seq<char>>,
)
    requires
        0 <= i < parent.children.len(),
        node_at(root, top) == Some(parent),
        visited(csharp_grammar(source), root, top.push(i)),
        is_definition(csharp_grammar(source), root, top.push(i)),
        class_around(root, top.push(i), source) == class,
    ensures
        found_in(
            if is_function(parent.children[i].kind) {
                function_facts(parent, i, source, class)
            } else {
                class_facts(parent, i, source)
            },
            root,
            source,
            Part::Whole(top.push(i)),
        ),
    decreases parent, parent.children.len() - i, 1nat,
{
    lemma_kinds();
    let g = csharp_grammar(source);
    let place = top.push(i);
    let t = parent.children[i];
    assert(place.drop_last() =~= top);
    assert(place.last() == i);
    assert(node_at(root, place) == Some(t));
    let own = own_facts(root, source, place);
    let facts = if is_function(t.kind) {
        function_facts(parent, i, source, class)
    } else {
        class_facts(parent, i, source)
    };
    if in_field(root, place, source) {
        assert(place.take(place.len() as int) =~= place);
        lemma_field_inside(root, source, place, place);
    }
    lemma_field(t, "body"@, 0);
    match (g.body)(t) {
        Some(k) => {
            let inner = place.push(k);
            let b = t.children[k];
            let inner_class = if is_function(t.kind) {
                class
            } else {
                Some(class_name(t, source))
            };
            let inner_func = if is_function(t.kind) {
                Some(function_name(t, source))
            } else {
                None
            };
            assert forall|j: int| 0 <= j < b.children.len() implies {
                &&& reachable(g, root, #[trigger] inner.push(j))
                &&& class_around(root, inner.push(j), source) == inner_class
                &&& function_around(root, inner.push(j), source) == inner_func
                &&& depth_of(g, root, inner.push(j)) == 1
            } by {
                lemma_child_of_body(g, root, place, k, j);
                assert(class_around(root, inner, source) == class_around(root, place, source));
            }
            assert(node_at(root, inner) == Some(b)) by {
                assert(inner.drop_last() =~= place);
            }
            lemma_children(root, source, inner, b, 0, inner_class, inner_func, 1);
            let rest = children_facts(b, 0, source, inner_class, inner_func, 1);
            lemma_own_then_body(rest, root, source, place, k);
            assert(own.join(rest) =~= facts);
        },
        None => {
            let part = Part::Children(place, 0);
            assert forall|p: Seq<int>| #[trigger] in_part(p, part) implies !looked_at(root, p, source) by {
                if visited(g, root, p) {
                    lemma_body_only(g, root, place, p);
                } else if in_field(root, p, source) {
                    lemma_field_in_body(root, source, place, p);
                }
            }
            lemma_nothing(root, source, part);
            lemma_own_then_children(Facts::none(), root, source, place);
            assert(own.join(Facts::none()) =~= facts);
        },
    }
}

proof fn lemma_file(root: SyntaxTree, source: Seq<char>)
    ensures
        found_in(csharp_facts(root, source), root, source, Part::Whole(Seq::<int>::empty())),
{
    let top = Seq::<int>::empty();
    assert(node_at(root, top) == Some(root));
    assert forall|k: int| 0 <= k < root.children.len() implies {
        &&& reachable(csharp_grammar(source), root, #[trigger] top.push(k))
        &&& class_around(root, top.push(k), source) == None::<Seq<char>>
        &&& function_around(root, top.push(k), source) == None::<Seq<char>>
        &&& depth_of(csharp_grammar(source), root, top.push(k)) == 0
    } by {
        assert(top.push(k).drop_last() =~= top);
    }
    lemma_children(root, source, top, root, 0, None, None, 0);
    let rest = csharp_facts(root, source);
    lemma_own_then_children(rest, root, source, top);
    assert(own_facts(root, source, top).join(rest) =~= rest);
}

/// The kinds that are told apart are different ones.
proof fn lemma_kinds()
    ensures
        "method_declaration"@ != "class_declaration"@,
        "method_declaration"@ != "interface_declaration"@,
        "method_declaration"@ != "struct_declaration"@,
        "method_declaration"@ != "enum_declaration"@,
        "method_declaration"@ != "record_declaration"@,
        "constructor_declaration"@ != "class_declaration"@,
        "constructor_declaration"@ != "interface_declaration"@,
        "constructor_declaration"@ != "struct_declaration"@,
        "constructor_declaration"@ != "enum_declaration"@,
        "constructor_declaration"@ != "record_declaration"@,
        "destructor_declaration"@ != "class_declaration"@,
        "destructor_declaration"@ != "interface_declaration"@,
        "destructor_declaration"@ != "struct_declaration"@,
        "destructor_declaration"@ != "enum_declaration"@,
        "destructor_declaration"@ != "record_declaration"@,
        "local_function_statement"@ != "class_declaration"@,
        "local_function_statement"@ != "interface_declaration"@,
        "local_function_statement"@ != "struct_declaration"@,
        "local_function_statement"@ != "enum_declaration"@,
        "local_function_statement"@ != "record_declaration"@,
        "method_declaration"@ != "using_directive"@,
        "constructor_declaration"@ != "using_directive"@,
        "destructor_declaration"@ != "using_directive"@,
        "local_function_statement"@ != "using_directive"@,
        "method_declaration"@ != "field_declaration"@,
        "constructor_declaration"@ != "field_declaration"@,
        "destructor_declaration"@ != "field_declaration"@,
        "local_function_statement"@ != "field_declaration"@,
        "method_declaration"@ != "invocation_expression"@,
        "constructor_declaration"@ != "invocation_expression"@,
        "destructor_declaration"@ != "invocation_expression"@,
        "local_function_statement"@ != "invocation_expression"@,
        "class_declaration"@ != "using_directive"@,
        "interface_declaration"@ != "using_directive"@,
        "struct_declaration"@ != "using_directive"@,
        "enum_declaration"@ != "using_directive"@,
        "record_declaration"@ != "using_directive"@,
        "class_declaration"@ != "field_declaration"@,
        "interface_declaration"@ != "field_declaration"@,
        "struct_declaration"@ != "field_declaration"@,
        "enum_declaration"@ != "field_declaration"@,
        "record_declaration"@ != "field_declaration"@,
        "class_declaration"@ != "invocation_expression"@,
        "interface_declaration"@ != "invocation_expression"@,
        "struct_declaration"@ != "invocation_expression"@,
        "enum_declaration"@ != "invocation_expression"@,
        "record_declaration"@ != "invocation_expression"@,
        "using_directive"@ != "field_declaration"@,
        "using_directive"@ != "invocation_expression"@,
        "field_declaration"@ != "invocation_expression"@,
{
    reveal_strlit("method_declaration");
    reveal_strlit("constructor_declaration");
    reveal_strlit("destructor_declaration");
    reveal_strlit("local_function_statement");
    reveal_strlit("class_declaration");
    reveal_strlit("interface_declaration");
    reveal_strlit("struct_declaration");
    reveal_strlit("enum_declaration");
    reveal_strlit("record_declaration");
    reveal_strlit("using_directive");
    reveal_strlit("field_declaration");
    reveal_strlit("invocation_expression");
    assert("method_declaration"@.len() == 18);
    assert("constructor_declaration"@.len() == 23);
    assert("destructor_declaration"@.len() == 22);
    assert("local_function_statement"@.len() == 24);
    assert("class_declaration"@.len() == 17);
    assert("interface_declaration"@.len() == 21);
    assert("struct_declaration"@.len() == 18);
    assert("enum_declaration"@.len() == 16);
    assert("record_declaration"@.len() == 18);
    assert("using_directive"@.len() == 15);
    assert("field_declaration"@.len() == 17);
    assert("invocation_expression"@.len() == 21);
    assert("method_declaration"@[0] == 'm');
    assert("struct_declaration"@[0] == 's');
    assert("record_declaration"@[0] == 'r');
    assert("class_declaration"@[0] == 'c');
    assert("field_declaration"@[0] == 'f');
    assert("interface_declaration"@[2] == 't');
    assert("invocation_expression"@[2] == 'v');
}

/// Every call in a C# file is found once, in the order of the file, and its caller is the function
/// in whose body it stands; the module where it stands in no function, or directly in a class.
pub proof fn law_calls_have_the_function_around_them_as_caller(root: SyntaxTree, source: Seq<char>)
    ensures
        facts_by_place(csharp_facts(root, source).calls, call_at(root, source)),
{
    lemma_file(root, source);
}

/// Every function and every class with a name is found once, in the order of the file; the class
/// around a function qualifies its name.
pub proof fn law_every_function_and_class_is_found(root: SyntaxTree, source: Seq<char>)
    ensures
        facts_by_place(csharp_facts(root, source).functions, function_at(root, source)),
        facts_by_place(csharp_facts(root, source).classes, class_at(root, source)),
{
    lemma_file(root, source);
}

/// Every directive and every field is found once, in the order of the file.
pub proof fn law_directives_and_fields_are_found(root: SyntaxTree, source: Seq<char>)
    ensures
        facts_by_place(csharp_facts(root, source).imports, import_at(root, source)),
        facts_by_place(csharp_facts(root, source).variables, variable_at(root, source)),
{
    lemma_file(root, source);
}

/// A field leads to a child.
proof fn lemma_field(t: SyntaxTree, name: Seq<char>, i: int)
    ensures
        t.field_index_from(name, i) matches Some(k) ==> 0 <= k < t.children.len(),
    decreases t.fields.len() - i,
{
    if 0 <= i < t.fields.len() {
        lemma_field(t, name, i + 1);
    }
}

} // verus!
