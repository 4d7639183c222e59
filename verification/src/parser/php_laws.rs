//! Where the facts of a PHP file come from.

use crate::parser::places::{
    facts_by_place, facts_in, in_part, inside, lemma_child_then_rest, lemma_inside_exists,
    lemma_node_then_body, lemma_node_then_children, lemma_none_in, node_at, Part,
};
use crate::parser::php::{
    base_names, child_text, children_facts, class_facts, function_facts, node_facts, php_facts,
    phpdoc, use_facts,
};
use crate::parser::scopes::{
    depth_of, enclosing, in_definition, is_definition, lemma_body_only, lemma_child,
    lemma_child_of_body, lemma_not_gone_into, lemma_out_of_reach, lemma_stops, reachable, visited, Grammar,
};
use crate::parser::syntax::{kind_index, kind_index_from, line_of, text_at, SyntaxTree};
use crate::parser::types::{sha256_text, CallFact, ClassFact, Facts, FunctionFact, ImportFact, VariableFact};
use crate::parser::walk::{
    field_of, first_of, kind_of, last_named, or_empty, short_value, text_in,
};
use crate::text::begins_with;
use vstd::prelude::*;
use vstd::string::*;

verus! {

/// Whether a node is a function or a method.
pub open spec fn is_function(kind: Seq<char>) -> bool {
    kind == "function_definition"@ || kind == "method_declaration"@
}

/// Whether a node is a class, an interface, a trait or an enum.
pub open spec fn is_class(kind: Seq<char>) -> bool {
    kind == "class_declaration"@ || kind == "interface_declaration"@ || kind
        == "trait_declaration"@ || kind == "enum_declaration"@
}

/// The name of a function or a class, empty where it has none.
pub open spec fn function_name(t: SyntaxTree, source: Seq<char>) -> Seq<char> {
    or_empty(
        first_of(text_in(field_of(t, "name"@), source), text_in(kind_of(t, "name"@), source)),
    )
}

/// The name of a class, empty where it has none.
pub open spec fn class_name(t: SyntaxTree, source: Seq<char>) -> Seq<char> {
    function_name(t, source)
}

/// What PHP makes of nodes: the bodies of functions and classes with a name are gone into;
/// `use` declarations are not.
pub open spec fn php_grammar(source: Seq<char>) -> Grammar {
    Grammar {
        defines: |t: SyntaxTree| is_function(t.kind) || is_class(t.kind),
        body: |t: SyntaxTree|
            if function_name(t, source).len() == 0 {
                None
            } else if t.field_index("body"@) is Some {
                t.field_index("body"@)
            } else if is_function(t.kind) {
                kind_index(t, "compound_statement"@)
            } else {
                first_of(
                    kind_index(t, "declaration_list"@),
                    kind_index(t, "enum_declaration_list"@),
                )
            },
        stops: |t: SyntaxTree| t.kind == "namespace_use_declaration"@,
    }
}

/// Whether a child of a `use` declaration that is looked at stands at a place.
pub open spec fn in_use(root: SyntaxTree, place: Seq<int>, source: Seq<char>) -> bool {
    &&& place.len() > 1
    &&& node_at(root, place) is Some
    &&& visited(php_grammar(source), root, place.drop_last())
    &&& node_at(root, place.drop_last())->0.kind == "namespace_use_declaration"@
}

/// Whether a fact may come from a place.
spec fn looked_at(root: SyntaxTree, place: Seq<int>, source: Seq<char>) -> bool {
    visited(php_grammar(source), root, place) || in_use(root, place, source)
}

/// The kind of the node that a place stands directly in.
pub open spec fn kind_above(root: SyntaxTree, place: Seq<int>, source: Seq<char>) -> Seq<char> {
    if place.len() <= 1 {
        "program"@
    } else {
        node_at(root, place.drop_last())->0.kind
    }
}

/// The name of the function in whose body a place stands, with no class in between.
pub open spec fn function_around(
    root: SyntaxTree,
    place: Seq<int>,
    source: Seq<char>,
) -> Option<Seq<char>> {
    match enclosing(php_grammar(source), root, place) {
        Some(d) => if is_function(node_at(root, d)->0.kind) {
            Some(function_name(node_at(root, d)->0, source))
        } else {
            None
        },
        None => None,
    }
}

/// The name of the class in whose body a place stands, the innermost one.
pub open spec fn class_around(
    root: SyntaxTree,
    place: Seq<int>,
    source: Seq<char>,
) -> Option<Seq<char>>
    decreases place.len(),
{
    if place.len() <= 1 {
        None
    } else if in_definition(php_grammar(source), root, place) && !is_function(
        node_at(root, place.drop_last().drop_last())->0.kind,
    ) {
        Some(class_name(node_at(root, place.drop_last().drop_last())->0, source))
    } else {
        class_around(root, place.drop_last(), source)
    }
}

/// Whether a node is a call of a function, of a method, or of a method of a class.
pub open spec fn is_call(kind: Seq<char>) -> bool {
    kind == "function_call_expression"@ || kind == "member_call_expression"@ || kind
        == "nullsafe_member_call_expression"@ || kind == "scoped_call_expression"@
}

/// Whether a node brings in another file.
pub open spec fn brings_in(kind: Seq<char>) -> bool {
    kind == "include_expression"@ || kind == "include_once_expression"@ || kind
        == "require_expression"@ || kind == "require_once_expression"@
}

/// The call that stands at a place: its caller is the function in whose body it stands.
pub open spec fn call_at(root: SyntaxTree, source: Seq<char>) -> spec_fn(Seq<int>) -> Option<
    CallFact,
> {
    |place: Seq<int>|
        {
            let t = node_at(root, place)->0;
            let callee = or_empty(
                first_of(
                    text_in(field_of(t, "function"@), source),
                    text_in(field_of(t, "name"@), source),
                ),
            );
            if visited(php_grammar(source), root, place) && is_call(t.kind) && callee.len() > 0 {
                Some(
                    CallFact {
                        caller: match function_around(root, place, source) {
                            Some(name) => name,
                            None => "<module>"@,
                        },
                        callee,
                        line: line_of(t.start_row),
                    },
                )
            } else {
                None
            }
        }
}

/// The file that is brought in at a place, or the name that a clause of a `use` declaration there
/// imports.
pub open spec fn import_at(root: SyntaxTree, source: Seq<char>) -> spec_fn(Seq<int>) -> Option<
    ImportFact,
> {
    |place: Seq<int>|
        {
            let t = node_at(root, place)->0;
            if visited(php_grammar(source), root, place) && brings_in(t.kind) {
                Some(
                    ImportFact {
                        module: match last_named(t) {
                            Some(k) => Some(text_at(t.children[k], source)),
                            None => None,
                        },
                        name: None,
                        alias: None,
                        line: line_of(t.start_row),
                        kind: if t.kind == "require_expression"@ || t.kind
                            == "require_once_expression"@ {
                            "require"@
                        } else {
                            "include"@
                        },
                    },
                )
            } else if in_use(root, place, source) && t.kind == "namespace_use_clause"@ {
                Some(
                    ImportFact {
                        module: first_of(
                            text_in(kind_of(t, "qualified_name"@), source),
                            text_in(kind_of(t, "name"@), source),
                        ),
                        name: None,
                        alias: text_in(field_of(t, "alias"@), source),
                        line: line_of(node_at(root, place.drop_last())->0.start_row),
                        kind: "use"@,
                    },
                )
            } else {
                None
            }
        }
}

/// The function that is declared at a place. One without a name is left out.
pub open spec fn function_at(root: SyntaxTree, source: Seq<char>) -> spec_fn(Seq<int>) -> Option<
    FunctionFact,
> {
    |place: Seq<int>|
        {
            let t = node_at(root, place)->0;
            let name = function_name(t, source);
            if visited(php_grammar(source), root, place) && is_function(t.kind) && name.len() > 0 {
                Some(
                    FunctionFact {
                        name,
                        qualified_name: match class_around(root, place, source) {
                            Some(class) => Some(class + "::"@ + name),
                            None => None,
                        },
                        line_start: line_of(t.start_row),
                        line_end: line_of(t.end_row),
                        args: first_of(
                            text_in(field_of(t, "parameters"@), source),
                            text_in(kind_of(t, "formal_parameters"@), source),
                        ),
                        return_type: text_in(field_of(t, "return_type"@), source),
                        docstring: phpdoc(
                            node_at(root, place.drop_last())->0,
                            place.last(),
                            source,
                        ),
                        body: text_at(t, source),
                        is_async: false,
                        node_hash: sha256_text(text_at(t, source)),
                        override_type: None,
                        override_target: None,
                    },
                )
            } else {
                None
            }
        }
}

/// The class that is declared at a place. One without a name is left out.
pub open spec fn class_at(root: SyntaxTree, source: Seq<char>) -> spec_fn(Seq<int>) -> Option<
    ClassFact,
> {
    |place: Seq<int>|
        {
            let t = node_at(root, place)->0;
            let name = class_name(t, source);
            if visited(php_grammar(source), root, place) && is_class(t.kind) && name.len() > 0 {
                Some(
                    ClassFact {
                        name,
                        line_start: line_of(t.start_row),
                        line_end: line_of(t.end_row),
                        bases: base_names(t, source),
                        docstring: phpdoc(
                            node_at(root, place.drop_last())->0,
                            place.last(),
                            source,
                        ),
                        body: text_at(t, source),
                        node_hash: sha256_text(text_at(t, source)),
                    },
                )
            } else {
                None
            }
        }
}

/// The variable that a statement at a place of the program itself sets.
pub open spec fn variable_at(root: SyntaxTree, source: Seq<char>) -> spec_fn(Seq<int>) -> Option<
    VariableFact,
> {
    |place: Seq<int>|
        {
            let t = node_at(root, place)->0;
            let assignment = kind_of(t, "assignment_expression"@);
            let name = or_empty(
                first_of(
                    text_in(field_of(assignment->0, "left"@), source),
                    child_text(assignment->0, 0, source),
                ),
            );
            if visited(php_grammar(source), root, place) && t.kind == "expression_statement"@
                && kind_above(root, place, source) == "program"@ && assignment is Some && name.len()
                > 0 && name != "="@ {
                Some(
                    VariableFact {
                        name,
                        value: short_value(
                            first_of(
                                text_in(field_of(assignment->0, "right"@), source),
                                child_text(assignment->0, 2, source),
                            ),
                        ),
                        line: line_of(assignment->0.start_row),
                    },
                )
            } else {
                None
            }
        }
}

/// A child of a `use` declaration inside a place that can be reached belongs to a declaration that
/// stands there, too.
proof fn lemma_use_inside(root: SyntaxTree, source: Seq<char>, top: Seq<int>, place: Seq<int>)
    requires
        reachable(php_grammar(source), root, top),
        in_use(root, place, source),
        inside(place, top),
    ensures
        place.len() >= top.len() + 1,
        inside(place.drop_last(), top),
        !is_definition(php_grammar(source), root, place.drop_last()),
        (php_grammar(source).stops)(node_at(root, place.drop_last())->0),
{
    lemma_kinds();
    let n = top.len() as int;
    let declaration = place.drop_last();
    if place.len() < n + 1 {
        assert(place.take(n) =~= place);
        assert(top.take(declaration.len() as int) =~= declaration);
        lemma_out_of_reach(php_grammar(source), root, declaration, top);
    } else {
        assert(declaration.take(n) =~= place.take(n));
    }
}

/// Inside a definition the `use` declarations stand in its body.
proof fn lemma_use_in_body(root: SyntaxTree, source: Seq<char>, top: Seq<int>, place: Seq<int>)
    requires
        visited(php_grammar(source), root, top),
        is_definition(php_grammar(source), root, top),
        in_use(root, place, source),
        inside(place, top),
    ensures
        place.len() > top.len() + 1,
        (php_grammar(source).body)(node_at(root, top)->0) == Some(place[top.len() as int]),
        place[top.len() as int + 1] >= 0,
{
    lemma_kinds();
    lemma_use_inside(root, source, top, place);
    let declaration = place.drop_last();
    if declaration.len() == top.len() {
        assert(declaration.take(top.len() as int) =~= declaration);
    }
    lemma_body_only(php_grammar(source), root, top, declaration);
}

/// What is found in the children of a `use` declaration from `j` on.
proof fn lemma_clauses(
    root: SyntaxTree,
    source: Seq<char>,
    place: Seq<int>,
    t: SyntaxTree,
    j: int,
)
    requires
        visited(php_grammar(source), root, place),
        node_at(root, place) == Some(t),
        t.kind == "namespace_use_declaration"@,
        0 <= j <= t.children.len(),
    ensures
        found_in(use_facts(t, j, source), root, source, Part::Children(place, j)),
    decreases t.children.len() - j,
{
    let g = php_grammar(source);
    lemma_kinds();
    assert(!is_definition(g, root, place));
    if j == t.children.len() {
        let part = Part::Children(place, j);
        assert forall|p: Seq<int>| #[trigger] in_part(p, part) implies !looked_at(
            root,
            p,
            source,
        ) by {
            if node_at(root, p) is Some {
                lemma_inside_exists(root, p, place);
            }
        }
        lemma_nothing(root, source, part);
    } else {
        lemma_clauses(root, source, place, t, j + 1);
        let q = place.push(j);
        assert(q.drop_last() =~= place);
        assert(q.last() == j);
        assert(q.take(place.len() as int) =~= place);
        assert(node_at(root, q) == Some(t.children[j]));
        assert(in_use(root, q, source));
        lemma_not_gone_into(g, root, place, q);
        let part = Part::Children(q, 0);
        assert forall|p: Seq<int>| #[trigger] in_part(p, part) implies !looked_at(
            root,
            p,
            source,
        ) by {
            let n = place.len() as int;
            assert(p.take(n) =~= p.take(q.len() as int).take(n));
            lemma_not_gone_into(g, root, place, p);
            if in_use(root, p, source) {
                assert(p.drop_last().take(n) =~= p.take(n));
                lemma_not_gone_into(g, root, place, p.drop_last());
            }
        }
        lemma_nothing(root, source, part);
        lemma_own_then_children(Facts::none(), root, source, q);
        let a = own_facts(root, source, q).join(Facts::none());
        let b = use_facts(t, j + 1, source);
        lemma_child_then_rest(a.calls, b.calls, call_at(root, source), place, j);
        lemma_child_then_rest(a.functions, b.functions, function_at(root, source), place, j);
        lemma_child_then_rest(a.classes, b.classes, class_at(root, source), place, j);
        lemma_child_then_rest(a.imports, b.imports, import_at(root, source), place, j);
        lemma_child_then_rest(a.variables, b.variables, variable_at(root, source), place, j);
        assert(a.join(b) =~= use_facts(t, j, source));
    }
}

/// The first child of a kind is a child.
proof fn lemma_kind_index(t: SyntaxTree, kind: Seq<char>, i: int)
    ensures
        kind_index_from(t, kind, i) matches Some(k) ==> 0 <= k < t.children.len(),
    decreases t.children.len() - i,
{
    if 0 <= i < t.children.len() {
        lemma_kind_index(t, kind, i + 1);
    }
}

/// Which of the expressions that bring in a file begin with `require`.
proof fn lemma_require(kind: Seq<char>)
    requires
        brings_in(kind),
    ensures
        begins_with(kind, "require"@) <==> kind == "require_expression"@ || kind
            == "require_once_expression"@,
{
    reveal_strlit("require");
    reveal_strlit("require_expression");
    reveal_strlit("require_once_expression");
    reveal_strlit("include_expression");
    reveal_strlit("include_once_expression");
    assert("require_expression"@.take(7) =~= "require"@);
    assert("require_once_expression"@.take(7) =~= "require"@);
    assert("include_expression"@.take(7)[0] == 'i');
    assert("include_once_expression"@.take(7)[0] == 'i');
    assert("require"@[0] == 'r');
    assert("require"@.len() == 7);
}

/// Whether facts are those of a part of the tree.
spec fn found_in(f: Facts, root: SyntaxTree, source: Seq<char>, part: Part) -> bool {
    &&& facts_in(f.calls, call_at(root, source), part)
    &&& facts_in(f.functions, function_at(root, source), part)
    &&& facts_in(f.classes, class_at(root, source), part)
    &&& facts_in(f.imports, import_at(root, source), part)
    &&& facts_in(f.variables, variable_at(root, source), part)
}

/// A fact that is there or not, as a list.
spec fn of_option<T>(o: Option<T>) -> Seq<T> {
    match o {
        Some(x) => seq![x],
        None => Seq::empty(),
    }
}

/// What stands at a place itself.
spec fn own_facts(root: SyntaxTree, source: Seq<char>, place: Seq<int>) -> Facts {
    Facts {
        calls: of_option(call_at(root, source)(place)),
        functions: of_option(function_at(root, source)(place)),
        classes: of_option(class_at(root, source)(place)),
        imports: of_option(import_at(root, source)(place)),
        variables: of_option(variable_at(root, source)(place)),
    }
}

/// Nothing is found where nothing is looked at.
proof fn lemma_nothing(root: SyntaxTree, source: Seq<char>, part: Part)
    requires
        forall|p: Seq<int>| #[trigger] in_part(p, part) ==> !looked_at(root, p, source),
    ensures
        found_in(Facts::none(), root, source, part),
{
    assert forall|p: Seq<int>| in_part(p, part) implies #[trigger] call_at(root, source)(
        p,
    ) is None by {}
    lemma_none_in(call_at(root, source), part);
    assert forall|p: Seq<int>| in_part(p, part) implies #[trigger] function_at(root, source)(
        p,
    ) is None by {}
    lemma_none_in(function_at(root, source), part);
    assert forall|p: Seq<int>| in_part(p, part) implies #[trigger] class_at(root, source)(
        p,
    ) is None by {}
    lemma_none_in(class_at(root, source), part);
    assert forall|p: Seq<int>| in_part(p, part) implies #[trigger] import_at(root, source)(
        p,
    ) is None by {}
    lemma_none_in(import_at(root, source), part);
    assert forall|p: Seq<int>| in_part(p, part) implies #[trigger] variable_at(root, source)(
        p,
    ) is None by {}
    lemma_none_in(variable_at(root, source), part);
}

/// The facts of a node: what it is itself, then what its children hold.
proof fn lemma_own_then_children(rest: Facts, root: SyntaxTree, source: Seq<char>, top: Seq<int>)
    requires
        found_in(rest, root, source, Part::Children(top, 0)),
    ensures
        found_in(own_facts(root, source, top).join(rest), root, source, Part::Whole(top)),
{
    assert forall|p: Seq<int>|
        looked_at(root, p, source) && inside(p, top) && p.len() > top.len() implies p[top.len() as int]
        >= 0 by {
        lemma_inside_exists(root, p, top);
    }
    lemma_node_then_children(rest.calls, call_at(root, source), top);
    lemma_node_then_children(rest.functions, function_at(root, source), top);
    lemma_node_then_children(rest.classes, class_at(root, source), top);
    lemma_node_then_children(rest.imports, import_at(root, source), top);
    lemma_node_then_children(rest.variables, variable_at(root, source), top);
}

/// The facts of a definition: what it is itself, then what its body holds.
proof fn lemma_own_then_body(
    rest: Facts,
    root: SyntaxTree,
    source: Seq<char>,
    top: Seq<int>,
    k: int,
)
    requires
        found_in(rest, root, source, Part::Children(top.push(k), 0)),
        visited(php_grammar(source), root, top),
        is_definition(php_grammar(source), root, top),
        (php_grammar(source).body)(node_at(root, top)->0) == Some(k),
    ensures
        found_in(own_facts(root, source, top).join(rest), root, source, Part::Whole(top)),
{
    assert forall|p: Seq<int>|
        looked_at(root, p, source) && inside(p, top) && p.len() > top.len() implies p.len()
        > top.len() + 1 && p[top.len() as int] == k && p[top.len() as int + 1] >= 0 by {
        if in_use(root, p, source) {
            lemma_use_in_body(root, source, top, p);
        } else {
            lemma_body_only(php_grammar(source), root, top, p);
        }
    }
    lemma_node_then_body(rest.calls, call_at(root, source), top, k);
    lemma_node_then_body(rest.functions, function_at(root, source), top, k);
    lemma_node_then_body(rest.classes, class_at(root, source), top, k);
    lemma_node_then_body(rest.imports, import_at(root, source), top, k);
    lemma_node_then_body(rest.variables, variable_at(root, source), top, k);
}

/// What is found in the children of a node from `i` on.
proof fn lemma_children(
    root: SyntaxTree,
    source: Seq<char>,
    top: Seq<int>,
    t: SyntaxTree,
    i: int,
    class: Option<Seq<char>>,
    func: Option<Seq<char>>,
    above: Seq<char>,
    depth: nat,
)
    requires
        0 <= i <= t.children.len(),
        node_at(root, top) == Some(t),
        forall|k: int|
            0 <= k < t.children.len() ==> {
                &&& reachable(php_grammar(source), root, #[trigger] top.push(k))
                &&& class_around(root, top.push(k), source) == class
                &&& function_around(root, top.push(k), source) == func
                &&& kind_above(root, top.push(k), source) == above
                &&& depth_of(php_grammar(source), root, top.push(k)) == depth
            },
    ensures
        found_in(
            children_facts(t, i, source, class, func, above, depth),
            root,
            source,
            Part::Children(top, i),
        ),
    decreases t, t.children.len() - i, 3nat,
{
    if i == t.children.len() {
        let part = Part::Children(top, i);
        assert forall|p: Seq<int>| #[trigger] in_part(p, part) implies !looked_at(root, p, source) by {
            if node_at(root, p) is Some {
                lemma_inside_exists(root, p, top);
            }
        }
        lemma_nothing(root, source, part);
    } else {
        assert(top.push(i).drop_last() =~= top);
        assert(top.push(i).last() == i);
        lemma_node(root, source, top, t, i, class, func, above, depth);
        lemma_children(root, source, top, t, i + 1, class, func, above, depth);
        let a = node_facts(t, i, source, class, func, above, depth);
        let b = children_facts(t, i + 1, source, class, func, above, depth);
        lemma_child_then_rest(a.calls, b.calls, call_at(root, source), top, i);
        lemma_child_then_rest(a.functions, b.functions, function_at(root, source), top, i);
        lemma_child_then_rest(a.classes, b.classes, class_at(root, source), top, i);
        lemma_child_then_rest(a.imports, b.imports, import_at(root, source), top, i);
        lemma_child_then_rest(a.variables, b.variables, variable_at(root, source), top, i);
    }
}

/// What is found in a child of a node.
proof fn lemma_node(
    root: SyntaxTree,
    source: Seq<char>,
    top: Seq<int>,
    parent: SyntaxTree,
    i: int,
    class: Option<Seq<char>>,
    func: Option<Seq<char>>,
    above: Seq<char>,
    depth: nat,
)
    requires
        0 <= i < parent.children.len(),
        node_at(root, top) == Some(parent),
        reachable(php_grammar(source), root, top.push(i)),
        class_around(root, top.push(i), source) == class,
        function_around(root, top.push(i), source) == func,
        kind_above(root, top.push(i), source) == above,
        depth_of(php_grammar(source), root, top.push(i)) == depth,
    ensures
        found_in(
            node_facts(parent, i, source, class, func, above, depth),
            root,
            source,
            Part::Whole(top.push(i)),
        ),
    decreases parent, parent.children.len() - i, 2nat,
{
    let g = php_grammar(source);
    let place = top.push(i);
    let t = parent.children[i];
    let whole = Part::Whole(place);
    let own = own_facts(root, source, place);
    assert(place.drop_last() =~= top);
    assert(place.last() == i);
    assert(node_at(root, place) == Some(t));
    assert(!(place.len() > 1 && is_definition(g, root, place.drop_last())));
    lemma_kinds();
    if depth > 500 {
        assert forall|p: Seq<int>| #[trigger] in_part(p, whole) implies !looked_at(root, p, source) by {
            lemma_stops(g, root, place, p);
            if in_use(root, p, source) {
                lemma_use_inside(root, source, place, p);
                lemma_stops(g, root, place, p.drop_last());
            }
        }
        lemma_nothing(root, source, whole);
    } else if is_function(t.kind) || is_class(t.kind) {
        assert(is_definition(g, root, place));
        lemma_definition(root, source, top, parent, i, class);
    } else if t.kind == "namespace_use_declaration"@ {
        assert(!is_definition(g, root, place));
        if in_use(root, place, source) {
            assert(place.take(place.len() as int) =~= place);
            lemma_use_inside(root, source, place, place);
        }
        lemma_clauses(root, source, place, t, 0);
        let rest = use_facts(t, 0, source);
        lemma_own_then_children(rest, root, source, place);
        assert(own.join(rest) =~= node_facts(
            parent,
            i,
            source,
            class,
            func,
            above,
            depth,
        ));
    } else {
        assert(!is_definition(g, root, place));
        assert forall|k: int| 0 <= k < t.children.len() implies {
            &&& reachable(g, root, #[trigger] place.push(k))
            &&& class_around(root, place.push(k), source) == class
            &&& function_around(root, place.push(k), source) == func
            &&& kind_above(root, place.push(k), source) == t.kind
            &&& depth_of(g, root, place.push(k)) == depth + 1
        } by {
            lemma_child(g, root, place, k);
        }
        lemma_children(root, source, place, t, 0, class, func, t.kind, depth + 1);
        let rest = children_facts(t, 0, source, class, func, t.kind, depth + 1);
        lemma_own_then_children(rest, root, source, place);
        if in_use(root, place, source) {
            assert(place.take(place.len() as int) =~= place);
            lemma_use_inside(root, source, place, place);
        }
        if brings_in(t.kind) {
            lemma_require(t.kind);
        }
        assert(own.join(rest) =~= node_facts(parent, i, source, class, func, above, depth));
    }
}

/// What is found in a function or a class.
proof fn lemma_definition(
    root: SyntaxTree,
    source: Seq<char>,
    top: Seq<int>,
    parent: SyntaxTree,
    i: int,
    class: Option<Seq<char>>,
)
    requires
        0 <= i < parent.children.len(),
        node_at(root, top) == Some(parent),
        visited(php_grammar(source), root, top.push(i)),
        is_definition(php_grammar(source), root, top.push(i)),
        class_around(root, top.push(i), source) == class,
    ensures
        found_in(
            if is_function(parent.children[i].kind) {
                function_facts(parent, i, source, class)
            } else {
                class_facts(parent, i, source)
            },
            root,
            source,
            Part::Whole(top.push(i)),
        ),
    decreases parent, parent.children.len() - i, 1nat,
{
    lemma_kinds();
    let g = php_grammar(source);
    let place = top.push(i);
    let t = parent.children[i];
    assert(place.drop_last() =~= top);
    assert(place.last() == i);
    assert(node_at(root, place) == Some(t));
    let own = own_facts(root, source, place);
    let facts = if is_function(t.kind) {
        function_facts(parent, i, source, class)
    } else {
        class_facts(parent, i, source)
    };
    if in_use(root, place, source) {
        assert(place.take(place.len() as int) =~= place);
        lemma_use_inside(root, source, place, place);
    }
    lemma_field(t, "body"@, 0);
    lemma_kind_index(t, "compound_statement"@, 0);
    lemma_kind_index(t, "declaration_list"@, 0);
    lemma_kind_index(t, "enum_declaration_list"@, 0);
    match (g.body)(t) {
        Some(k) => {
            let inner = place.push(k);
            let b = t.children[k];
            let inner_class = if is_function(t.kind) {
                class
            } else {
                Some(class_name(t, source))
            };
            let inner_func = if is_function(t.kind) {
                Some(function_name(t, source))
            } else {
                None
            };
            assert forall|j: int| 0 <= j < b.children.len() implies {
                &&& reachable(g, root, #[trigger] inner.push(j))
                &&& class_around(root, inner.push(j), source) == inner_class
                &&& function_around(root, inner.push(j), source) == inner_func
                &&& kind_above(root, inner.push(j), source) == b.kind
                &&& depth_of(g, root, inner.push(j)) == 1
            } by {
                lemma_child_of_body(g, root, place, k, j);
                assert(class_around(root, inner, source) == class_around(root, place, source));
            }
            assert(node_at(root, inner) == Some(b)) by {
                assert(inner.drop_last() =~= place);
            }
            lemma_children(root, source, inner, b, 0, inner_class, inner_func, b.kind, 1);
            let rest = children_facts(b, 0, source, inner_class, inner_func, b.kind, 1);
            lemma_own_then_body(rest, root, source, place, k);
            assert(own.join(rest) =~= facts);
        },
        None => {
            let part = Part::Children(place, 0);
            assert forall|p: Seq<int>| #[trigger] in_part(p, part) implies !looked_at(root, p, source) by {
                if visited(g, root, p) {
                    lemma_body_only(g, root, place, p);
                } else if in_use(root, p, source) {
                    lemma_use_in_body(root, source, place, p);
                }
            }
            lemma_nothing(root, source, part);
            lemma_own_then_children(Facts::none(), root, source, place);
            assert(own.join(Facts::none()) =~= facts);
        },
    }
}

proof fn lemma_file(root: SyntaxTree, source: Seq<char>)
    ensures
        found_in(php_facts(root, source), root, source, Part::Whole(Seq::<int>::empty())),
{
    let top = Seq::<int>::empty();
    assert(node_at(root, top) == Some(root));
    assert forall|k: int| 0 <= k < root.children.len() implies {
        &&& reachable(php_grammar(source), root, #[trigger] top.push(k))
        &&& class_around(root, top.push(k), source) == None::<Seq<char>>
        &&& function_around(root, top.push(k), source) == None::<Seq<char>>
        &&& kind_above(root, top.push(k), source) == "program"@
        &&& depth_of(php_grammar(source), root, top.push(k)) == 0
    } by {
        assert(top.push(k).drop_last() =~= top);
    }
    lemma_children(root, source, top, root, 0, None, None, "program"@, 0);
    let rest = php_facts(root, source);
    lemma_own_then_children(rest, root, source, top);
    assert(own_facts(root, source, top).join(rest) =~= rest);
}

/// The kinds that are told apart are different ones.
proof fn lemma_kinds()
    ensures
        "function_definition"@ != "class_declaration"@,
        "function_definition"@ != "interface_declaration"@,
        "function_definition"@ != "trait_declaration"@,
        "function_definition"@ != "enum_declaration"@,
        "method_declaration"@ != "class_declaration"@,
        "method_declaration"@ != "interface_declaration"@,
        "method_declaration"@ != "trait_declaration"@,
        "method_declaration"@ != "enum_declaration"@,
        "function_definition"@ != "namespace_use_declaration"@,
        "method_declaration"@ != "namespace_use_declaration"@,
        "function_definition"@ != "include_expression"@,
        "function_definition"@ != "include_once_expression"@,
        "function_definition"@ != "require_expression"@,
        "function_definition"@ != "require_once_expression"@,
        "method_declaration"@ != "include_expression"@,
        "method_declaration"@ != "include_once_expression"@,
        "method_declaration"@ != "require_expression"@,
        "method_declaration"@ != "require_once_expression"@,
        "function_definition"@ != "function_call_expression"@,
        "function_definition"@ != "member_call_expression"@,
        "function_definition"@ != "nullsafe_member_call_expression"@,
        "function_definition"@ != "scoped_call_expression"@,
        "method_declaration"@ != "function_call_expression"@,
        "method_declaration"@ != "member_call_expression"@,
        "method_declaration"@ != "nullsafe_member_call_expression"@,
        "method_declaration"@ != "scoped_call_expression"@,
        "function_definition"@ != "expression_statement"@,
        "method_declaration"@ != "expression_statement"@,
        "class_declaration"@ != "namespace_use_declaration"@,
        "interface_declaration"@ != "namespace_use_declaration"@,
        "trait_declaration"@ != "namespace_use_declaration"@,
        "enum_declaration"@ != "namespace_use_declaration"@,
        "class_declaration"@ != "include_expression"@,
        "class_declaration"@ != "include_once_expression"@,
        "class_declaration"@ != "require_expression"@,
        "class_declaration"@ != "require_once_expression"@,
        "interface_declaration"@ != "include_expression"@,
        "interface_declaration"@ != "include_once_expression"@,
        "interface_declaration"@ != "require_expression"@,
        "interface_declaration"@ != "require_once_expression"@,
        "trait_declaration"@ != "include_expression"@,
        "trait_declaration"@ != "include_once_expression"@,
        "trait_declaration"@ != "require_expression"@,
        "trait_declaration"@ != "require_once_expression"@,
        "enum_declaration"@ != "include_expression"@,
        "enum_declaration"@ != "include_once_expression"@,
        "enum_declaration"@ != "require_expression"@,
        "enum_declaration"@ != "require_once_expression"@,
        "class_declaration"@ != "function_call_expression"@,
        "class_declaration"@ != "member_call_expression"@,
        "class_declaration"@ != "nullsafe_member_call_expression"@,
        "class_declaration"@ != "scoped_call_expression"@,
        "interface_declaration"@ != "function_call_expression"@,
        "interface_declaration"@ != "member_call_expression"@,
        "interface_declaration"@ != "nullsafe_member_call_expression"@,
        "interface_declaration"@ != "scoped_call_expression"@,
        "trait_declaration"@ != "function_call_expression"@,
        "trait_declaration"@ != "member_call_expression"@,
        "trait_declaration"@ != "nullsafe_member_call_expression"@,
        "trait_declaration"@ != "scoped_call_expression"@,
        "enum_declaration"@ != "function_call_expression"@,
        "enum_declaration"@ != "member_call_expression"@,
        "enum_declaration"@ != "nullsafe_member_call_expression"@,
        "enum_declaration"@ != "scoped_call_expression"@,
        "class_declaration"@ != "expression_statement"@,
        "interface_declaration"@ != "expression_statement"@,
        "trait_declaration"@ != "expression_statement"@,
        "enum_declaration"@ != "expression_statement"@,
        "namespace_use_declaration"@ != "include_expression"@,
        "namespace_use_declaration"@ != "include_once_expression"@,
        "namespace_use_declaration"@ != "require_expression"@,
        "namespace_use_declaration"@ != "require_once_expression"@,
        "namespace_use_declaration"@ != "function_call_expression"@,
        "namespace_use_declaration"@ != "member_call_expression"@,
        "namespace_use_declaration"@ != "nullsafe_member_call_expression"@,
        "namespace_use_declaration"@ != "scoped_call_expression"@,
        "namespace_use_declaration"@ != "expression_statement"@,
        "include_expression"@ != "function_call_expression"@,
        "include_expression"@ != "member_call_expression"@,
        "include_expression"@ != "nullsafe_member_call_expression"@,
        "include_expression"@ != "scoped_call_expression"@,
        "include_once_expression"@ != "function_call_expression"@,
        "include_once_expression"@ != "member_call_expression"@,
        "include_once_expression"@ != "nullsafe_member_call_expression"@,
        "include_once_expression"@ != "scoped_call_expression"@,
        "require_expression"@ != "function_call_expression"@,
        "require_expression"@ != "member_call_expression"@,
        "require_expression"@ != "nullsafe_member_call_expression"@,
        "require_expression"@ != "scoped_call_expression"@,
        "require_once_expression"@ != "function_call_expression"@,
        "require_once_expression"@ != "member_call_expression"@,
        "require_once_expression"@ != "nullsafe_member_call_expression"@,
        "require_once_expression"@ != "scoped_call_expression"@,
        "include_expression"@ != "expression_statement"@,
        "include_once_expression"@ != "expression_statement"@,
        "require_expression"@ != "expression_statement"@,
        "require_once_expression"@ != "expression_statement"@,
        "function_call_expression"@ != "expression_statement"@,
        "member_call_expression"@ != "expression_statement"@,
        "nullsafe_member_call_expression"@ != "expression_statement"@,
        "scoped_call_expression"@ != "expression_statement"@,
{
    reveal_strlit("function_definition");
    reveal_strlit("method_declaration");
    reveal_strlit("class_declaration");
    reveal_strlit("interface_declaration");
    reveal_strlit("trait_declaration");
    reveal_strlit("enum_declaration");
    reveal_strlit("namespace_use_declaration");
    reveal_strlit("include_expression");
    reveal_strlit("include_once_expression");
    reveal_strlit("require_expression");
    reveal_strlit("require_once_expression");
    reveal_strlit("function_call_expression");
    reveal_strlit("member_call_expression");
    reveal_strlit("nullsafe_member_call_expression");
    reveal_strlit("scoped_call_expression");
    reveal_strlit("expression_statement");
    assert("function_definition"@.len() == 19);
    assert("method_declaration"@.len() == 18);
    assert("class_declaration"@.len() == 17);
    assert("interface_declaration"@.len() == 21);
    assert("trait_declaration"@.len() == 17);
    assert("enum_declaration"@.len() == 16);
    assert("namespace_use_declaration"@.len() == 25);
    assert("include_expression"@.len() == 18);
    assert("include_once_expression"@.len() == 23);
    assert("require_expression"@.len() == 18);
    assert("require_once_expression"@.len() == 23);
    assert("function_call_expression"@.len() == 24);
    assert("member_call_expression"@.len() == 22);
    assert("nullsafe_member_call_expression"@.len() == 31);
    assert("scoped_call_expression"@.len() == 22);
    assert("expression_statement"@.len() == 20);
    assert("method_declaration"@[0] == 'm');
    assert("include_expression"@[0] == 'i');
    assert("require_expression"@[0] == 'r');
}

/// Every call in a PHP file is found once, in the order of the file, and its caller is the function
/// or method in whose body it stands; the module where it stands in no function, or directly in a
/// class.
pub proof fn law_calls_have_the_function_around_them_as_caller(root: SyntaxTree, source: Seq<char>)
    ensures
        facts_by_place(php_facts(root, source).calls, call_at(root, source)),
{
    lemma_file(root, source);
}

/// Every function, method and class with a name is found once, in the order of the file; the class
/// around a method qualifies its name.
pub proof fn law_every_function_and_class_is_found(root: SyntaxTree, source: Seq<char>)
    ensures
        facts_by_place(php_facts(root, source).functions, function_at(root, source)),
        facts_by_place(php_facts(root, source).classes, class_at(root, source)),
{
    lemma_file(root, source);
}

/// Every file that is brought in, every name that a `use` declaration imports and every variable
/// that a statement of the program itself sets is found once, in the order of the file.
pub proof fn law_imports_and_variables_are_found(root: SyntaxTree, source: Seq<char>)
    ensures
        facts_by_place(php_facts(root, source).imports, import_at(root, source)),
        facts_by_place(php_facts(root, source).variables, variable_at(root, source)),
{
    lemma_file(root, source);
}

/// A field leads to a child.
proof fn lemma_field(t: SyntaxTree, name: Seq<char>, i: int)
    ensures
        t.field_index_from(name, i) matches Some(k) ==> 0 <= k < t.children.len(),
    decreases t.fields.len() - i,
{
    if 0 <= i < t.fields.len() {
        lemma_field(t, name, i + 1);
    }
}

} // verus!
