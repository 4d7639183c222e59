//! Where the facts of a Ruby file come from.

use crate::parser::places::{
    facts_by_place, facts_in, in_part, inside, lemma_child_then_rest, lemma_inside_exists,
    lemma_node_then_body, lemma_node_then_children, lemma_none_in, node_at, Part,
};
use crate::parser::ruby::{children_facts, class_facts, function_facts, node_facts, required_file, ruby_facts};
use crate::parser::scopes::{
    depth_of, enclosing, in_definition, is_definition, lemma_body_only, lemma_child,
    lemma_child_of_body, lemma_stops, reachable, visited, Grammar,
};
use crate::parser::syntax::{line_of, text_at, SyntaxTree};
use crate::parser::types::{sha256_text, CallFact, ClassFact, Facts, FunctionFact, ImportFact, VariableFact};
use crate::parser::walk::{doc_before, field_of, first_of, or_empty, short_value, text_in, DocStyle};
use vstd::prelude::*;
use vstd::string::*;

verus! {

/// Whether a node is a method.
pub open spec fn is_function(kind: Seq<char>) -> bool {
    kind == "method"@ || kind == "singleton_method"@
}

/// Whether a node is a class, a module or a singleton class that is opened.
pub open spec fn is_class(kind: Seq<char>) -> bool {
    kind == "class"@ || kind == "module"@ || kind == "singleton_class"@
}

/// The name of a method, empty where it has none.
pub open spec fn function_name(t: SyntaxTree, source: Seq<char>) -> Seq<char> {
    or_empty(text_in(field_of(t, "name"@), source))
}

/// The name of a class, or the value that it opens; empty where it has neither.
pub open spec fn class_name(t: SyntaxTree, source: Seq<char>) -> Seq<char> {
    or_empty(
        first_of(
            text_in(field_of(t, "name"@), source),
            text_in(field_of(t, "value"@), source),
        ),
    )
}

/// What Ruby makes of nodes: the bodies of methods and classes with a name are gone into.
pub open spec fn ruby_grammar(source: Seq<char>) -> Grammar {
    Grammar {
        defines: |t: SyntaxTree| is_function(t.kind) || is_class(t.kind),
        body: |t: SyntaxTree|
            if (if is_function(t.kind) {
                function_name(t, source)
            } else {
                class_name(t, source)
            }).len() > 0 {
                t.field_index("body"@)
            } else {
                None
            },
        stops: |t: SyntaxTree| false,
    }
}

/// The name of the function in whose body a place stands, with no class in between.
pub open spec fn function_around(
    root: SyntaxTree,
    place: Seq<int>,
    source: Seq<char>,
) -> Option<Seq<char>> {
    match enclosing(ruby_grammar(source), root, place) {
        Some(d) => if is_function(node_at(root, d)->0.kind) {
            Some(function_name(node_at(root, d)->0, source))
        } else {
            None
        },
        None => None,
    }
}

/// The name of the class in whose body a place stands, the innermost one.
pub open spec fn class_around(
    root: SyntaxTree,
    place: Seq<int>,
    source: Seq<char>,
) -> Option<Seq<char>>
    decreases place.len(),
{
    if place.len() <= 1 {
        None
    } else if in_definition(ruby_grammar(source), root, place) && !is_function(
        node_at(root, place.drop_last().drop_last())->0.kind,
    ) {
        Some(class_name(node_at(root, place.drop_last().drop_last())->0, source))
    } else {
        class_around(root, place.drop_last(), source)
    }
}

/// Whether a place stands in the file itself: in no method or class, and inside no call and no
/// assignment.
pub open spec fn in_the_file(root: SyntaxTree, place: Seq<int>, source: Seq<char>) -> bool
    decreases place.len(),
{
    if place.len() <= 1 {
        true
    } else if in_definition(ruby_grammar(source), root, place) {
        false
    } else {
        &&& in_the_file(root, place.drop_last(), source)
        &&& node_at(root, place.drop_last())->0.kind != "call"@
        &&& node_at(root, place.drop_last())->0.kind != "assignment"@
    }
}

/// Whether a called name brings in another file.
pub open spec fn brings_in(callee: Seq<char>) -> bool {
    callee == "require"@ || callee == "require_relative"@ || callee == "load"@
}

/// The name that is called at a place, empty where none is.
pub open spec fn called_name(root: SyntaxTree, place: Seq<int>, source: Seq<char>) -> Seq<char> {
    let t = node_at(root, place)->0;
    if visited(ruby_grammar(source), root, place) && t.kind == "call"@ {
        or_empty(text_in(field_of(t, "method"@), source))
    } else {
        Seq::empty()
    }
}

/// The call that stands at a place: its caller is the method in whose body it stands.
pub open spec fn call_at(root: SyntaxTree, source: Seq<char>) -> spec_fn(Seq<int>) -> Option<
    CallFact,
> {
    |place: Seq<int>|
        {
            let callee = called_name(root, place, source);
            if callee.len() > 0 && !brings_in(callee) {
                Some(
                    CallFact {
                        caller: match function_around(root, place, source) {
                            Some(name) => name,
                            None => "<module>"@,
                        },
                        callee,
                        line: line_of(node_at(root, place)->0.start_row),
                    },
                )
            } else {
                None
            }
        }
}

/// The file that is brought in at a place.
pub open spec fn import_at(root: SyntaxTree, source: Seq<char>) -> spec_fn(Seq<int>) -> Option<
    ImportFact,
> {
    |place: Seq<int>|
        {
            let callee = called_name(root, place, source);
            if callee.len() > 0 && brings_in(callee) {
                Some(
                    ImportFact {
                        module: required_file(node_at(root, place)->0, source),
                        name: None,
                        alias: None,
                        line: line_of(node_at(root, place)->0.start_row),
                        kind: callee,
                    },
                )
            } else {
                None
            }
        }
}

/// The method that is declared at a place: `Class#method`, or `Class.method` where it belongs to
/// the class itself. One without a name is left out.
pub open spec fn function_at(root: SyntaxTree, source: Seq<char>) -> spec_fn(Seq<int>) -> Option<
    FunctionFact,
> {
    |place: Seq<int>|
        {
            let t = node_at(root, place)->0;
            let name = function_name(t, source);
            if visited(ruby_grammar(source), root, place) && is_function(t.kind) && name.len() > 0 {
                Some(
                    FunctionFact {
                        name,
                        qualified_name: match class_around(root, place, source) {
                            Some(class) => Some(
                                class + (if t.kind == "singleton_method"@ {
                                    "."@
                                } else {
                                    "#"@
                                }) + name,
                            ),
                            None => None,
                        },
                        line_start: line_of(t.start_row),
                        line_end: line_of(t.end_row),
                        args: text_in(field_of(t, "parameters"@), source),
                        return_type: None,
                        docstring: doc_before(
                            DocStyle::Ruby,
                            node_at(root, place.drop_last())->0,
                            place.last(),
                            source,
                        ),
                        body: text_at(t, source),
                        is_async: false,
                        node_hash: sha256_text(text_at(t, source)),
                        override_type: None,
                        override_target: None,
                    },
                )
            } else {
                None
            }
        }
}

/// The class or module that is declared at a place. One without a name is left out.
pub open spec fn class_at(root: SyntaxTree, source: Seq<char>) -> spec_fn(Seq<int>) -> Option<
    ClassFact,
> {
    |place: Seq<int>|
        {
            let t = node_at(root, place)->0;
            let name = class_name(t, source);
            if visited(ruby_grammar(source), root, place) && is_class(t.kind) && name.len() > 0 {
                Some(
                    ClassFact {
                        name,
                        line_start: line_of(t.start_row),
                        line_end: line_of(t.end_row),
                        bases: text_in(field_of(t, "superclass"@), source),
                        docstring: doc_before(
                            DocStyle::Ruby,
                            node_at(root, place.drop_last())->0,
                            place.last(),
                            source,
                        ),
                        body: text_at(t, source),
                        node_hash: sha256_text(text_at(t, source)),
                    },
                )
            } else {
                None
            }
        }
}

/// The variable that is set at a place of the file itself.
pub open spec fn variable_at(root: SyntaxTree, source: Seq<char>) -> spec_fn(Seq<int>) -> Option<
    VariableFact,
> {
    |place: Seq<int>|
        {
            let t = node_at(root, place)->0;
            let name = or_empty(text_in(field_of(t, "left"@), source));
            if visited(ruby_grammar(source), root, place) && t.kind == "assignment"@ && in_the_file(
                root,
                place,
                source,
            ) && name.len() > 0 {
                Some(
                    VariableFact {
                        name,
                        value: short_value(text_in(field_of(t, "right"@), source)),
                        line: line_of(t.start_row),
                    },
                )
            } else {
                None
            }
        }
}

/// Whether facts are those of a part of the tree.
spec fn found_in(f: Facts, root: SyntaxTree, source: Seq<char>, part: Part) -> bool {
    &&& facts_in(f.calls, call_at(root, source), part)
    &&& facts_in(f.functions, function_at(root, source), part)
    &&& facts_in(f.classes, class_at(root, source), part)
    &&& facts_in(f.imports, import_at(root, source), part)
    &&& facts_in(f.variables, variable_at(root, source), part)
}

/// A fact that is there or not, as a list.
spec fn of_option<T>(o: Option<T>) -> Seq<T> {
    match o {
        Some(x) => seq![x],
        None => Seq::empty(),
    }
}

/// What stands at a place itself.
spec fn own_facts(root: SyntaxTree, source: Seq<char>, place: Seq<int>) -> Facts {
    Facts {
        calls: of_option(call_at(root, source)(place)),
        functions: of_option(function_at(root, source)(place)),
        classes: of_option(class_at(root, source)(place)),
        imports: of_option(import_at(root, source)(place)),
        variables: of_option(variable_at(root, source)(place)),
    }
}

/// Nothing is found where nothing is looked at.
proof fn lemma_nothing(root: SyntaxTree, source: Seq<char>, part: Part)
    requires
        forall|p: Seq<int>| #[trigger] in_part(p, part) ==> !visited(ruby_grammar(source), root, p),
    ensures
        found_in(Facts::none(), root, source, part),
{
    assert forall|p: Seq<int>| in_part(p, part) implies #[trigger] call_at(root, source)(
        p,
    ) is None by {}
    lemma_none_in(call_at(root, source), part);
    assert forall|p: Seq<int>| in_part(p, part) implies #[trigger] function_at(root, source)(
        p,
    ) is None by {}
    lemma_none_in(function_at(root, source), part);
    assert forall|p: Seq<int>| in_part(p, part) implies #[trigger] class_at(root, source)(
        p,
    ) is None by {}
    lemma_none_in(class_at(root, source), part);
    assert forall|p: Seq<int>| in_part(p, part) implies #[trigger] import_at(root, source)(
        p,
    ) is None by {}
    lemma_none_in(import_at(root, source), part);
    assert forall|p: Seq<int>| in_part(p, part) implies #[trigger] variable_at(root, source)(
        p,
    ) is None by {}
    lemma_none_in(variable_at(root, source), part);
}

/// The facts of a node: what it is itself, then what its children hold.
proof fn lemma_own_then_children(rest: Facts, root: SyntaxTree, source: Seq<char>, top: Seq<int>)
    requires
        found_in(rest, root, source, Part::Children(top, 0)),
    ensures
        found_in(own_facts(root, source, top).join(rest), root, source, Part::Whole(top)),
{
    assert forall|p: Seq<int>|
        visited(ruby_grammar(source), root, p) && inside(p, top) && p.len() > top.len() implies p[top.len() as int]
        >= 0 by {
        lemma_inside_exists(root, p, top);
    }
    lemma_node_then_children(rest.calls, call_at(root, source), top);
    lemma_node_then_children(rest.functions, function_at(root, source), top);
    lemma_node_then_children(rest.classes, class_at(root, source), top);
    lemma_node_then_children(rest.imports, import_at(root, source), top);
    lemma_node_then_children(rest.variables, variable_at(root, source), top);
}

/// The facts of a definition: what it is itself, then what its body holds.
proof fn lemma_own_then_body(
    rest: Facts,
    root: SyntaxTree,
    source: Seq<char>,
    top: Seq<int>,
    k: int,
)
    requires
        found_in(rest, root, source, Part::Children(top.push(k), 0)),
        visited(ruby_grammar(source), root, top),
        is_definition(ruby_grammar(source), root, top),
        (ruby_grammar(source).body)(node_at(root, top)->0) == Some(k),
    ensures
        found_in(own_facts(root, source, top).join(rest), root, source, Part::Whole(top)),
{
    assert forall|p: Seq<int>|
        visited(ruby_grammar(source), root, p) && inside(p, top) && p.len() > top.len() implies p.len()
        > top.len() + 1 && p[top.len() as int] == k && p[top.len() as int + 1] >= 0 by {
        lemma_body_only(ruby_grammar(source), root, top, p);
    }
    lemma_node_then_body(rest.calls, call_at(root, source), top, k);
    lemma_node_then_body(rest.functions, function_at(root, source), top, k);
    lemma_node_then_body(rest.classes, class_at(root, source), top, k);
    lemma_node_then_body(rest.imports, import_at(root, source), top, k);
    lemma_node_then_body(rest.variables, variable_at(root, source), top, k);
}

/// What is found in the children of a node from `i` on.
proof fn lemma_children(
    root: SyntaxTree,
    source: Seq<char>,
    top: Seq<int>,
    t: SyntaxTree,
    i: int,
    class: Option<Seq<char>>,
    func: Option<Seq<char>>,
    file: bool,
    depth: nat,
)
    requires
        0 <= i <= t.children.len(),
        node_at(root, top) == Some(t),
        forall|k: int|
            0 <= k < t.children.len() ==> {
                &&& reachable(ruby_grammar(source), root, #[trigger] top.push(k))
                &&& class_around(root, top.push(k), source) == class
                &&& function_around(root, top.push(k), source) == func
                &&& in_the_file(root, top.push(k), source) == file
                &&& depth_of(ruby_grammar(source), root, top.push(k)) == depth
            },
    ensures
        found_in(
            children_facts(t, i, source, class, func, file, depth),
            root,
            source,
            Part::Children(top, i),
        ),
    decreases t, t.children.len() - i, 3nat,
{
    if i == t.children.len() {
        let part = Part::Children(top, i);
        assert forall|p: Seq<int>| #[trigger] in_part(p, part) implies !visited(ruby_grammar(source), root, p) by {
            if node_at(root, p) is Some {
                lemma_inside_exists(root, p, top);
            }
        }
        lemma_nothing(root, source, part);
    } else {
        assert(top.push(i).drop_last() =~= top);
        assert(top.push(i).last() == i);
        lemma_node(root, source, top, t, i, class, func, file, depth);
        lemma_children(root, source, top, t, i + 1, class, func, file, depth);
        let a = node_facts(t, i, source, class, func, file, depth);
        let b = children_facts(t, i + 1, source, class, func, file, depth);
        lemma_child_then_rest(a.calls, b.calls, call_at(root, source), top, i);
        lemma_child_then_rest(a.functions, b.functions, function_at(root, source), top, i);
        lemma_child_then_rest(a.classes, b.classes, class_at(root, source), top, i);
        lemma_child_then_rest(a.imports, b.imports, import_at(root, source), top, i);
        lemma_child_then_rest(a.variables, b.variables, variable_at(root, source), top, i);
    }
}

/// What is found in a child of a node.
proof fn lemma_node(
    root: SyntaxTree,
    source: Seq<char>,
    top: Seq<int>,
    parent: SyntaxTree,
    i: int,
    class: Option<Seq<char>>,
    func: Option<Seq<char>>,
    file: bool,
    depth: nat,
)
    requires
        0 <= i < parent.children.len(),
        node_at(root, top) == Some(parent),
        reachable(ruby_grammar(source), root, top.push(i)),
        class_around(root, top.push(i), source) == class,
        function_around(root, top.push(i), source) == func,
        in_the_file(root, top.push(i), source) == file,
        depth_of(ruby_grammar(source), root, top.push(i)) == depth,
    ensures
        found_in(
            node_facts(parent, i, source, class, func, file, depth),
            root,
            source,
            Part::Whole(top.push(i)),
        ),
    decreases parent, parent.children.len() - i, 2nat,
{
    let g = ruby_grammar(source);
    let place = top.push(i);
    let t = parent.children[i];
    let whole = Part::Whole(place);
    let own = own_facts(root, source, place);
    assert(place.drop_last() =~= top);
    assert(place.last() == i);
    assert(node_at(root, place) == Some(t));
    assert(!(place.len() > 1 && is_definition(g, root, place.drop_last())));
    lemma_kinds();
    if depth > 500 {
        assert forall|p: Seq<int>| #[trigger] in_part(p, whole) implies !visited(ruby_grammar(source), root, p) by {
            lemma_stops(g, root, place, p);
        }
        lemma_nothing(root, source, whole);
    } else if is_function(t.kind) || is_class(t.kind) {
        assert(is_definition(g, root, place));
        lemma_definition(root, source, top, parent, i, class);
    } else {
        assert(!is_definition(g, root, place));
        let inner_file = file && t.kind != "call"@ && t.kind != "assignment"@;
        assert forall|k: int| 0 <= k < t.children.len() implies {
            &&& reachable(g, root, #[trigger] place.push(k))
            &&& class_around(root, place.push(k), source) == class
            &&& function_around(root, place.push(k), source) == func
            &&& in_the_file(root, place.push(k), source) == inner_file
            &&& depth_of(g, root, place.push(k)) == depth + 1
        } by {
            lemma_child(g, root, place, k);
        }
        lemma_children(root, source, place, t, 0, class, func, inner_file, depth + 1);
        let rest = children_facts(t, 0, source, class, func, inner_file, depth + 1);
        lemma_own_then_children(rest, root, source, place);
        reveal_strlit("require");
        reveal_strlit("require_relative");
        reveal_strlit("load");
        assert(own.join(rest) =~= node_facts(parent, i, source, class, func, file, depth));
    }
}

/// What is found in a function or a class.
proof fn lemma_definition(
    root: SyntaxTree,
    source: Seq<char>,
    top: Seq<int>,
    parent: SyntaxTree,
    i: int,
    class: Option<Seq<char>>,
)
    requires
        0 <= i < parent.children.len(),
        node_at(root, top) == Some(parent),
        visited(ruby_grammar(source), root, top.push(i)),
        is_definition(ruby_grammar(source), root, top.push(i)),
        class_around(root, top.push(i), source) == class,
    ensures
        found_in(
            if is_function(parent.children[i].kind) {
                function_facts(parent, i, source, class)
            } else {
                class_facts(parent, i, source)
            },
            root,
            source,
            Part::Whole(top.push(i)),
        ),
    decreases parent, parent.children.len() - i, 1nat,
{
    lemma_kinds();
    let g = ruby_grammar(source);
    let place = top.push(i);
    let t = parent.children[i];
    assert(place.drop_last() =~= top);
    assert(place.last() == i);
    assert(node_at(root, place) == Some(t));
    let own = own_facts(root, source, place);
    let facts = if is_function(t.kind) {
        function_facts(parent, i, source, class)
    } else {
        class_facts(parent, i, source)
    };
    lemma_field(t, "body"@, 0);
    match (g.body)(t) {
        Some(k) => {
            let inner = place.push(k);
            let b = t.children[k];
            let inner_class = if is_function(t.kind) {
                class
            } else {
                Some(class_name(t, source))
            };
            let inner_func = if is_function(t.kind) {
                Some(function_name(t, source))
            } else {
                None
            };
            assert forall|j: int| 0 <= j < b.children.len() implies {
                &&& reachable(g, root, #[trigger] inner.push(j))
                &&& class_around(root, inner.push(j), source) == inner_class
                &&& function_around(root, inner.push(j), source) == inner_func
                &&& in_the_file(root, inner.push(j), source) == false
                &&& depth_of(g, root, inner.push(j)) == 1
            } by {
                lemma_child_of_body(g, root, place, k, j);
                assert(class_around(root, inner, source) == class_around(root, place, source));
            }
            assert(node_at(root, inner) == Some(b)) by {
                assert(inner.drop_last() =~= place);
            }
            lemma_children(root, source, inner, b, 0, inner_class, inner_func, false, 1);
            let rest = children_facts(b, 0, source, inner_class, inner_func, false, 1);
            lemma_own_then_body(rest, root, source, place, k);
            assert(own.join(rest) =~= facts);
        },
        None => {
            let part = Part::Children(place, 0);
            assert forall|p: Seq<int>| #[trigger] in_part(p, part) implies !visited(ruby_grammar(source), root, p) by {
                if visited(g, root, p) {
                    lemma_body_only(g, root, place, p);
                }
            }
            lemma_nothing(root, source, part);
            lemma_own_then_children(Facts::none(), root, source, place);
            assert(own.join(Facts::none()) =~= facts);
        },
    }
}

proof fn lemma_file(root: SyntaxTree, source: Seq<char>)
    ensures
        found_in(ruby_facts(root, source), root, source, Part::Whole(Seq::<int>::empty())),
{
    let top = Seq::<int>::empty();
    assert(node_at(root, top) == Some(root));
    assert forall|k: int| 0 <= k < root.children.len() implies {
        &&& reachable(ruby_grammar(source), root, #[trigger] top.push(k))
        &&& class_around(root, top.push(k), source) == None::<Seq<char>>
        &&& function_around(root, top.push(k), source) == None::<Seq<char>>
        &&& in_the_file(root, top.push(k), source) == true
        &&& depth_of(ruby_grammar(source), root, top.push(k)) == 0
    } by {
        assert(top.push(k).drop_last() =~= top);
    }
    lemma_children(root, source, top, root, 0, None, None, true, 0);
    let rest = ruby_facts(root, source);
    lemma_own_then_children(rest, root, source, top);
    assert(own_facts(root, source, top).join(rest) =~= rest);
}

/// The kinds that are told apart are different ones.
proof fn lemma_kinds()
    ensures
        "method"@ != "class"@,
        "method"@ != "module"@,
        "method"@ != "singleton_class"@,
        "singleton_method"@ != "class"@,
        "singleton_method"@ != "module"@,
        "singleton_method"@ != "singleton_class"@,
        "method"@ != "call"@,
        "singleton_method"@ != "call"@,
        "method"@ != "assignment"@,
        "singleton_method"@ != "assignment"@,
        "class"@ != "call"@,
        "module"@ != "call"@,
        "singleton_class"@ != "call"@,
        "class"@ != "assignment"@,
        "module"@ != "assignment"@,
        "singleton_class"@ != "assignment"@,
        "call"@ != "assignment"@,
{
    reveal_strlit("method");
    reveal_strlit("singleton_method");
    reveal_strlit("class");
    reveal_strlit("module");
    reveal_strlit("singleton_class");
    reveal_strlit("call");
    reveal_strlit("assignment");
    assert("method"@.len() == 6);
    assert("singleton_method"@.len() == 16);
    assert("class"@.len() == 5);
    assert("module"@.len() == 6);
    assert("singleton_class"@.len() == 15);
    assert("call"@.len() == 4);
    assert("assignment"@.len() == 10);
    assert("method"@[1] == 'e');
    assert("module"@[1] == 'o');
}

/// Every call in a Ruby file is found once, in the order of the file, and its caller is the method
/// in whose body it stands; the module where it stands in no method, or directly in a class. A call
/// that brings in a file is an import instead.
pub proof fn law_calls_have_the_method_around_them_as_caller(root: SyntaxTree, source: Seq<char>)
    ensures
        facts_by_place(ruby_facts(root, source).calls, call_at(root, source)),
        facts_by_place(ruby_facts(root, source).imports, import_at(root, source)),
{
    lemma_file(root, source);
}

/// Every method, class and module with a name is found once, in the order of the file; the class
/// around a method qualifies its name.
pub proof fn law_every_method_and_class_is_found(root: SyntaxTree, source: Seq<char>)
    ensures
        facts_by_place(ruby_facts(root, source).functions, function_at(root, source)),
        facts_by_place(ruby_facts(root, source).classes, class_at(root, source)),
{
    lemma_file(root, source);
}

/// The variables of a Ruby file are those that it sets itself, outside of methods and classes, each
/// of them found once for each time that it is set.
pub proof fn law_variables_of_the_file_are_found(root: SyntaxTree, source: Seq<char>)
    ensures
        facts_by_place(ruby_facts(root, source).variables, variable_at(root, source)),
{
    lemma_file(root, source);
}

/// A field leads to a child.
proof fn lemma_field(t: SyntaxTree, name: Seq<char>, i: int)
    ensures
        t.field_index_from(name, i) matches Some(k) ==> 0 <= k < t.children.len(),
    decreases t.fields.len() - i,
{
    if 0 <= i < t.fields.len() {
        lemma_field(t, name, i + 1);
    }
}

} // verus!
