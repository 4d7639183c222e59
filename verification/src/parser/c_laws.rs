//! Where the facts of a C or C++ file come from.

use crate::parser::c::{
    c_facts, children_facts, declared_name, descendant_from, function_facts,
    node_facts, record_facts,
};
use crate::parser::places::{
    facts_by_place, facts_in, in_part, inside, lemma_child_then_rest, lemma_inside_exists,
    lemma_node_then_body, lemma_node_then_children, lemma_none_in, node_at, Part,
};
use crate::parser::syntax::{line_of, text_at, SyntaxTree};
use crate::parser::types::{
    sha256_text, CallFact, ClassFact, Facts, FunctionFact, ImportFact, VariableFact,
};
use crate::parser::walk::{field_of, first_of, kind_of, or_empty, text_in};
use vstd::prelude::*;
use vstd::string::*;

verus! {

/// The name of the function that a definition defines, empty where it has none.
pub open spec fn function_name(t: SyntaxTree, source: Seq<char>) -> Seq<char> {
    match field_of(t, "declarator"@) {
        Some(d) => or_empty(declared_name(d, source)),
        None => Seq::empty(),
    }
}

/// The name of the record that a specifier declares, empty where it has none.
pub open spec fn record_name(t: SyntaxTree, source: Seq<char>) -> Seq<char> {
    or_empty(
        first_of(
            text_in(field_of(t, "name"@), source),
            text_in(kind_of(t, "type_identifier"@), source),
        ),
    )
}

/// Whether a node is a struct, a union, an enum or a class.
pub open spec fn is_record(kind: Seq<char>) -> bool {
    kind == "struct_specifier"@ || kind == "union_specifier"@ || kind == "enum_specifier"@ || kind
        == "class_specifier"@
}

/// Whether a function or a record stands at a place. What stands directly in one is its name, its
/// body and the like.
pub open spec fn is_definition(root: SyntaxTree, place: Seq<int>) -> bool
    decreases place.len(),
{
    &&& place.len() > 0
    &&& node_at(root, place) matches Some(t) && (t.kind == "function_definition"@ || is_record(
        t.kind,
    ))
    &&& !(place.len() > 1 && is_definition(root, place.drop_last()))
}

/// The place of the function or record in whose body a place stands, the innermost one.
pub open spec fn enclosing(root: SyntaxTree, place: Seq<int>) -> Option<Seq<int>>
    decreases place.len(),
{
    if place.len() <= 1 {
        None
    } else if place.len() > 2 && is_definition(root, place.drop_last().drop_last()) {
        Some(place.drop_last().drop_last())
    } else {
        enclosing(root, place.drop_last())
    }
}

/// How deep a place stands in the body of the definition that encloses it.
pub open spec fn depth_of(root: SyntaxTree, place: Seq<int>) -> nat
    decreases place.len(),
{
    if place.len() <= 1 {
        0
    } else if place.len() > 2 && is_definition(root, place.drop_last().drop_last()) {
        1
    } else {
        depth_of(root, place.drop_last()) + 1
    }
}

/// Whether the child at `k` of the definition at `place` is gone into: it is the body of a function
/// with a name or, in C++, of a record with a name.
pub open spec fn is_open_body(
    root: SyntaxTree,
    place: Seq<int>,
    k: int,
    source: Seq<char>,
    cpp: bool,
) -> bool {
    node_at(root, place) matches Some(t) && t.field_index("body"@) == Some(k) && (if t.kind
        == "function_definition"@ {
        function_name(t, source).len() > 0
    } else {
        cpp && record_name(t, source).len() > 0
    })
}

/// Whether a place can be reached from the root: along bodies that are gone into, and past no
/// directive that brings in a header.
pub open spec fn reachable(root: SyntaxTree, place: Seq<int>, source: Seq<char>, cpp: bool) -> bool
    decreases place.len(),
{
    &&& place.len() > 0
    &&& node_at(root, place) is Some
    &&& if place.len() == 1 {
        true
    } else if place.len() > 2 && is_definition(root, place.drop_last().drop_last()) {
        let definition = place.drop_last().drop_last();
        &&& reachable(root, definition, source, cpp)
        &&& depth_of(root, definition) <= 500
        &&& is_open_body(root, definition, place.drop_last().last(), source, cpp)
    } else {
        let parent = place.drop_last();
        &&& reachable(root, parent, source, cpp)
        &&& depth_of(root, parent) <= 500
        &&& !is_definition(root, parent)
        &&& node_at(root, parent)->0.kind != "preproc_include"@
    }
}

/// Whether a place is looked at: it can be reached, and it is not too deep.
pub open spec fn visited(root: SyntaxTree, place: Seq<int>, source: Seq<char>, cpp: bool) -> bool {
    reachable(root, place, source, cpp) && depth_of(root, place) <= 500
}

/// The name of the function in whose body a place stands, with no record in between.
pub open spec fn function_around(
    root: SyntaxTree,
    place: Seq<int>,
    source: Seq<char>,
) -> Option<Seq<char>> {
    match enclosing(root, place) {
        Some(d) => if node_at(root, d)->0.kind == "function_definition"@ {
            Some(function_name(node_at(root, d)->0, source))
        } else {
            None
        },
        None => None,
    }
}

/// The name of the record in whose body a place stands, the innermost one.
pub open spec fn record_around(
    root: SyntaxTree,
    place: Seq<int>,
    source: Seq<char>,
) -> Option<Seq<char>>
    decreases place.len(),
{
    if place.len() <= 1 {
        None
    } else if place.len() > 2 && is_definition(root, place.drop_last().drop_last()) && node_at(
        root,
        place.drop_last().drop_last(),
    )->0.kind != "function_definition"@ {
        Some(record_name(node_at(root, place.drop_last().drop_last())->0, source))
    } else {
        record_around(root, place.drop_last(), source)
    }
}

/// The call that stands at a place: its caller is the function in whose body it stands.
pub open spec fn call_at(root: SyntaxTree, source: Seq<char>, cpp: bool) -> spec_fn(
    Seq<int>,
) -> Option<CallFact> {
    |place: Seq<int>|
        {
            let t = node_at(root, place)->0;
            let callee = or_empty(text_in(field_of(t, "function"@), source));
            if visited(root, place, source, cpp) && t.kind == "call_expression"@ && callee.len()
                > 0 {
                Some(
                    CallFact {
                        caller: match function_around(root, place, source) {
                            Some(name) => name,
                            None => "<module>"@,
                        },
                        callee,
                        line: line_of(t.start_row),
                    },
                )
            } else {
                None
            }
        }
}

/// The function that is defined at a place. One that has no name is left out.
pub open spec fn function_at(root: SyntaxTree, source: Seq<char>, cpp: bool) -> spec_fn(
    Seq<int>,
) -> Option<FunctionFact> {
    |place: Seq<int>|
        {
            let t = node_at(root, place)->0;
            let name = function_name(t, source);
            if visited(root, place, source, cpp) && t.kind == "function_definition"@ && name.len()
                > 0 {
                Some(
                    FunctionFact {
                        name,
                        qualified_name: match record_around(root, place, source) {
                            Some(record) => Some(record + "::"@ + name),
                            None => None,
                        },
                        line_start: line_of(t.start_row),
                        line_end: line_of(t.end_row),
                        args: text_in(
                            descendant_from(field_of(t, "declarator"@)->0, "parameter_list"@, 0),
                            source,
                        ),
                        return_type: text_in(field_of(t, "type"@), source),
                        docstring: None,
                        body: text_at(t, source),
                        is_async: false,
                        node_hash: sha256_text(text_at(t, source)),
                        override_type: None,
                        override_target: None,
                    },
                )
            } else {
                None
            }
        }
}

/// The record that is declared at a place. One that has no name is left out.
pub open spec fn record_at(root: SyntaxTree, source: Seq<char>, cpp: bool) -> spec_fn(
    Seq<int>,
) -> Option<ClassFact> {
    |place: Seq<int>|
        {
            let t = node_at(root, place)->0;
            let name = record_name(t, source);
            if visited(root, place, source, cpp) && is_record(t.kind) && name.len() > 0 {
                Some(
                    ClassFact {
                        name,
                        line_start: line_of(t.start_row),
                        line_end: line_of(t.end_row),
                        bases: None,
                        docstring: None,
                        body: text_at(t, source),
                        node_hash: sha256_text(text_at(t, source)),
                    },
                )
            } else {
                None
            }
        }
}

/// The header that is brought in at a place.
pub open spec fn header_at(root: SyntaxTree, source: Seq<char>, cpp: bool) -> spec_fn(
    Seq<int>,
) -> Option<ImportFact> {
    |place: Seq<int>|
        {
            let t = node_at(root, place)->0;
            if visited(root, place, source, cpp) && t.kind == "preproc_include"@ {
                Some(
                    ImportFact {
                        module: first_of(
                            text_in(field_of(t, "path"@), source),
                            first_of(
                                text_in(kind_of(t, "string_literal"@), source),
                                text_in(kind_of(t, "system_lib_string"@), source),
                            ),
                        ),
                        name: None,
                        alias: None,
                        line: line_of(t.start_row),
                        kind: "include"@,
                    },
                )
            } else {
                None
            }
        }
}

/// Whether facts are those of a part of the tree.
spec fn found_in(f: Facts, root: SyntaxTree, source: Seq<char>, cpp: bool, part: Part) -> bool {
    &&& facts_in(f.calls, call_at(root, source, cpp), part)
    &&& facts_in(f.functions, function_at(root, source, cpp), part)
    &&& facts_in(f.classes, record_at(root, source, cpp), part)
    &&& facts_in(f.imports, header_at(root, source, cpp), part)
    &&& f.variables == Seq::<VariableFact>::empty()
}

/// Where a place is not looked at, nothing inside it is, unless it is a body.
proof fn lemma_stops(
    root: SyntaxTree,
    source: Seq<char>,
    cpp: bool,
    top: Seq<int>,
    place: Seq<int>,
)
    requires
        top.len() > 0,
        !visited(root, top, source, cpp),
        !(top.len() > 1 && is_definition(root, top.drop_last())),
        inside(place, top),
    ensures
        !visited(root, place, source, cpp),
    decreases place.len(),
{
    let n = top.len() as int;
    if place.len() == n {
        assert(place.take(n) =~= place);
    } else {
        let parent = place.drop_last();
        assert(parent.take(n) =~= place.take(n));
        lemma_stops(root, source, cpp, top, parent);
        if place.len() > n + 1 {
            let before = parent.drop_last();
            assert(before.take(n) =~= place.take(n));
            lemma_stops(root, source, cpp, top, before);
        } else {
            assert(parent =~= top);
        }
    }
}

/// Nothing is found where nothing is looked at.
proof fn lemma_nothing(root: SyntaxTree, source: Seq<char>, cpp: bool, part: Part)
    requires
        forall|p: Seq<int>| #[trigger] in_part(p, part) ==> !visited(root, p, source, cpp),
    ensures
        found_in(Facts::none(), root, source, cpp, part),
{
    assert forall|p: Seq<int>| in_part(p, part) implies #[trigger] call_at(root, source, cpp)(
        p,
    ) is None by {}
    assert forall|p: Seq<int>| in_part(p, part) implies #[trigger] function_at(root, source, cpp)(
        p,
    ) is None by {}
    assert forall|p: Seq<int>| in_part(p, part) implies #[trigger] record_at(root, source, cpp)(
        p,
    ) is None by {}
    assert forall|p: Seq<int>| in_part(p, part) implies #[trigger] header_at(root, source, cpp)(
        p,
    ) is None by {}
    lemma_none_in(call_at(root, source, cpp), part);
    lemma_none_in(function_at(root, source, cpp), part);
    lemma_none_in(record_at(root, source, cpp), part);
    lemma_none_in(header_at(root, source, cpp), part);
}

/// The facts of a node: what it is itself, then what its children hold.
proof fn lemma_own_then_children(
    own: Facts,
    rest: Facts,
    root: SyntaxTree,
    source: Seq<char>,
    cpp: bool,
    top: Seq<int>,
)
    requires
        found_in(rest, root, source, cpp, Part::Children(top, 0)),
        own.calls == of_option(call_at(root, source, cpp)(top)),
        own.functions == of_option(function_at(root, source, cpp)(top)),
        own.classes == of_option(record_at(root, source, cpp)(top)),
        own.imports == of_option(header_at(root, source, cpp)(top)),
        own.variables == Seq::<VariableFact>::empty(),
    ensures
        found_in(own.join(rest), root, source, cpp, Part::Whole(top)),
{
    assert forall|p: Seq<int>|
        visited(root, p, source, cpp) && inside(p, top) && p.len() > top.len() implies p[top.len() as int]
        >= 0 by {
        lemma_inside_exists(root, p, top);
    }
    lemma_node_then_children(rest.calls, call_at(root, source, cpp), top);
    lemma_node_then_children(rest.functions, function_at(root, source, cpp), top);
    lemma_node_then_children(rest.classes, record_at(root, source, cpp), top);
    lemma_node_then_children(rest.imports, header_at(root, source, cpp), top);
    assert(own.variables + rest.variables =~= Seq::<VariableFact>::empty());
}

/// The facts of a definition: what it is itself, then what its body holds.
proof fn lemma_own_then_body(
    own: Facts,
    rest: Facts,
    root: SyntaxTree,
    source: Seq<char>,
    cpp: bool,
    top: Seq<int>,
    k: int,
)
    requires
        found_in(rest, root, source, cpp, Part::Children(top.push(k), 0)),
        own.calls == of_option(call_at(root, source, cpp)(top)),
        own.functions == of_option(function_at(root, source, cpp)(top)),
        own.classes == of_option(record_at(root, source, cpp)(top)),
        own.imports == of_option(header_at(root, source, cpp)(top)),
        own.variables == Seq::<VariableFact>::empty(),
        is_definition(root, top),
        forall|j: int| j != k ==> !(#[trigger] is_open_body(root, top, j, source, cpp)),
    ensures
        found_in(own.join(rest), root, source, cpp, Part::Whole(top)),
{
    assert forall|p: Seq<int>|
        visited(root, p, source, cpp) && inside(p, top) && p.len() > top.len() implies p.len()
        > top.len() + 1 && p[top.len() as int] == k && p[top.len() as int + 1] >= 0 by {
        lemma_body_only(root, source, cpp, top, p);
        lemma_inside_exists(root, p, top.push(k));
    }
    lemma_node_then_body(rest.calls, call_at(root, source, cpp), top, k);
    lemma_node_then_body(rest.functions, function_at(root, source, cpp), top, k);
    lemma_node_then_body(rest.classes, record_at(root, source, cpp), top, k);
    lemma_node_then_body(rest.imports, header_at(root, source, cpp), top, k);
    assert(own.variables + rest.variables =~= Seq::<VariableFact>::empty());
}

/// Inside a definition only what stands in its body is looked at.
proof fn lemma_body_only(
    root: SyntaxTree,
    source: Seq<char>,
    cpp: bool,
    top: Seq<int>,
    place: Seq<int>,
)
    requires
        is_definition(root, top),
        visited(root, place, source, cpp),
        inside(place, top),
        place.len() > top.len(),
    ensures
        place.len() > top.len() + 1,
        is_open_body(root, top, place[top.len() as int], source, cpp),
        inside(place, top.push(place[top.len() as int])),
{
    let n = top.len() as int;
    let k = place[n];
    let child = top.push(k);
    assert(place.take(n + 1) =~= place.take(n).push(k));
    assert(child.drop_last() =~= top);
    if place.len() == n + 1 {
        assert(place =~= child);
        assert(!is_definition(root, place.drop_last().drop_last()) || place.len() <= 2);
    } else {
        let inner = place.take(n + 2);
        assert(inner.drop_last() =~= child);
        assert(inner.drop_last().drop_last() =~= top);
        if !is_open_body(root, top, k, source, cpp) {
            assert(!is_definition(root, child));
            assert(!visited(root, inner, source, cpp));
            assert(place.take(inner.len() as int) =~= inner);
            lemma_stops(root, source, cpp, inner, place);
        }
    }
}

/// A fact that is there or not, as a list.
spec fn of_option<T>(o: Option<T>) -> Seq<T> {
    match o {
        Some(x) => seq![x],
        None => Seq::empty(),
    }
}

/// What is found in the children of a node from `i` on.
proof fn lemma_children(
    root: SyntaxTree,
    source: Seq<char>,
    cpp: bool,
    top: Seq<int>,
    t: SyntaxTree,
    i: int,
    class: Option<Seq<char>>,
    func: Option<Seq<char>>,
    depth: nat,
)
    requires
        0 <= i <= t.children.len(),
        node_at(root, top) == Some(t),
        forall|k: int|
            0 <= k < t.children.len() ==> {
                &&& reachable(root, #[trigger] top.push(k), source, cpp)
                &&& record_around(root, top.push(k), source) == class
                &&& function_around(root, top.push(k), source) == func
                &&& depth_of(root, top.push(k)) == depth
            },
    ensures
        found_in(
            children_facts(t, i, source, cpp, class, func, depth),
            root,
            source,
            cpp,
            Part::Children(top, i),
        ),
    decreases t, 0nat, t.children.len() - i,
{
    if i == t.children.len() {
        let part = Part::Children(top, i);
        assert forall|p: Seq<int>| #[trigger] in_part(p, part) implies !visited(
            root,
            p,
            source,
            cpp,
        ) by {
            if node_at(root, p) is Some {
                lemma_inside_exists(root, p, top);
            }
        }
        lemma_nothing(root, source, cpp, part);
    } else {
        let place = top.push(i);
        assert(place.drop_last() =~= top);
        assert(place.last() == i);
        lemma_node(root, source, cpp, place, t.children[i], class, func, depth);
        lemma_children(root, source, cpp, top, t, i + 1, class, func, depth);
        let a = node_facts(t.children[i], source, cpp, class, func, depth);
        let b = children_facts(t, i + 1, source, cpp, class, func, depth);
        lemma_child_then_rest(a.calls, b.calls, call_at(root, source, cpp), top, i);
        lemma_child_then_rest(a.functions, b.functions, function_at(root, source, cpp), top, i);
        lemma_child_then_rest(a.classes, b.classes, record_at(root, source, cpp), top, i);
        lemma_child_then_rest(a.imports, b.imports, header_at(root, source, cpp), top, i);
        assert(a.variables + b.variables =~= Seq::<VariableFact>::empty());
    }
}

/// What is found in a node.
proof fn lemma_node(
    root: SyntaxTree,
    source: Seq<char>,
    cpp: bool,
    place: Seq<int>,
    t: SyntaxTree,
    class: Option<Seq<char>>,
    func: Option<Seq<char>>,
    depth: nat,
)
    requires
        node_at(root, place) == Some(t),
        reachable(root, place, source, cpp),
        record_around(root, place, source) == class,
        function_around(root, place, source) == func,
        depth_of(root, place) == depth,
    ensures
        found_in(
            node_facts(t, source, cpp, class, func, depth),
            root,
            source,
            cpp,
            Part::Whole(place),
        ),
    decreases t, 2nat, 0nat,
{
    let whole = Part::Whole(place);
    assert(!(place.len() > 1 && is_definition(root, place.drop_last())));
    lemma_kinds();
    if depth > 500 {
        assert forall|p: Seq<int>| #[trigger] in_part(p, whole) implies !visited(
            root,
            p,
            source,
            cpp,
        ) by {
            lemma_stops(root, source, cpp, place, p);
        }
        lemma_nothing(root, source, cpp, whole);
    } else if t.kind == "function_definition"@ || is_record(t.kind) {
        assert(is_definition(root, place));
        lemma_definition(root, source, cpp, place, t, class, depth);
    } else {
        assert(!is_definition(root, place));
        let own = Facts {
            calls: of_option(call_at(root, source, cpp)(place)),
            functions: Seq::empty(),
            classes: Seq::empty(),
            imports: of_option(header_at(root, source, cpp)(place)),
            variables: Seq::empty(),
        };
        if t.kind == "preproc_include"@ {
            let part = Part::Children(place, 0);
            assert forall|p: Seq<int>| #[trigger] in_part(p, part) implies !visited(
                root,
                p,
                source,
                cpp,
            ) by {
                let n = place.len() as int;
                let child = place.push(p[n]);
                assert(child.drop_last() =~= place);
                assert(p.take(n + 1) =~= p.take(n).push(p[n]));
                lemma_stops(root, source, cpp, child, p);
            }
            lemma_nothing(root, source, cpp, part);
            lemma_own_then_children(own, Facts::none(), root, source, cpp, place);
            assert(own.join(Facts::none()) =~= node_facts(t, source, cpp, class, func, depth));
        } else {
            assert forall|k: int| 0 <= k < t.children.len() implies {
                &&& reachable(root, #[trigger] place.push(k), source, cpp)
                &&& record_around(root, place.push(k), source) == class
                &&& function_around(root, place.push(k), source) == func
                &&& depth_of(root, place.push(k)) == depth + 1
            } by {
                assert(place.push(k).drop_last() =~= place);
                assert(place.push(k).last() == k);
            }
            lemma_children(root, source, cpp, place, t, 0, class, func, depth + 1);
            let rest = children_facts(t, 0, source, cpp, class, func, depth + 1);
            lemma_own_then_children(own, rest, root, source, cpp, place);
            assert(own.join(rest) =~= node_facts(t, source, cpp, class, func, depth));
        }
    }
}

/// The kinds that are told apart are different ones.
proof fn lemma_kinds()
    ensures
        "call_expression"@ != "function_definition"@,
        "call_expression"@ != "preproc_include"@,
        "function_definition"@ != "preproc_include"@,
        !is_record("call_expression"@),
        !is_record("function_definition"@),
        !is_record("preproc_include"@),
{
    reveal_strlit("call_expression");
    reveal_strlit("function_definition");
    reveal_strlit("preproc_include");
    reveal_strlit("struct_specifier");
    reveal_strlit("union_specifier");
    reveal_strlit("enum_specifier");
    reveal_strlit("class_specifier");
    assert("call_expression"@.len() == 15);
    assert("function_definition"@.len() == 19);
    assert("preproc_include"@[0] == 'p');
    assert("call_expression"@[1] == 'a');
    assert("struct_specifier"@[0] == 's');
    assert("union_specifier"@[0] == 'u');
    assert("enum_specifier"@[0] == 'e');
    assert("class_specifier"@[1] == 'l');
    assert("function_definition"@[0] == 'f');
}

/// What is found in a function or a record.
proof fn lemma_definition(
    root: SyntaxTree,
    source: Seq<char>,
    cpp: bool,
    place: Seq<int>,
    t: SyntaxTree,
    class: Option<Seq<char>>,
    depth: nat,
)
    requires
        node_at(root, place) == Some(t),
        visited(root, place, source, cpp),
        is_definition(root, place),
        record_around(root, place, source) == class,
        depth_of(root, place) == depth,
    ensures
        found_in(
            if t.kind == "function_definition"@ {
                function_facts(t, source, cpp, class)
            } else {
                record_facts(t, source, cpp)
            },
            root,
            source,
            cpp,
            Part::Whole(place),
        ),
    decreases t, 1nat, 0nat,
{
    lemma_kinds();
    let is_function = t.kind == "function_definition"@;
    let own = Facts {
        calls: Seq::empty(),
        functions: of_option(function_at(root, source, cpp)(place)),
        classes: of_option(record_at(root, source, cpp)(place)),
        imports: Seq::empty(),
        variables: Seq::empty(),
    };
    let facts = if is_function {
        function_facts(t, source, cpp, class)
    } else {
        record_facts(t, source, cpp)
    };
    lemma_field(t, "body"@, 0);
    let body = t.field_index("body"@);
    if body is Some && is_open_body(root, place, body->0, source, cpp) {
        let k = body->0;
        let inner = place.push(k);
        let b = t.children[k];
        assert(inner.drop_last() =~= place);
        assert(inner.last() == k);
        let inner_class = if is_function {
            class
        } else {
            Some(record_name(t, source))
        };
        let inner_func = if is_function {
            Some(function_name(t, source))
        } else {
            None
        };
        assert forall|j: int| 0 <= j < b.children.len() implies {
            &&& reachable(root, #[trigger] inner.push(j), source, cpp)
            &&& record_around(root, inner.push(j), source) == inner_class
            &&& function_around(root, inner.push(j), source) == inner_func
            &&& depth_of(root, inner.push(j)) == 1
        } by {
            assert(inner.push(j).drop_last() =~= inner);
            assert(inner.push(j).last() == j);
            assert(!(inner.len() > 2 && is_definition(root, place.drop_last())));
            assert(record_around(root, inner, source) == record_around(root, place, source));
        }
        lemma_children(root, source, cpp, inner, b, 0, inner_class, inner_func, 1);
        let rest = children_facts(b, 0, source, cpp, inner_class, inner_func, 1);
        lemma_own_then_body(own, rest, root, source, cpp, place, k);
        assert(own.join(rest) =~= facts);
    } else {
        let part = Part::Children(place, 0);
        assert forall|p: Seq<int>| #[trigger] in_part(p, part) implies !visited(
            root,
            p,
            source,
            cpp,
        ) by {
            if visited(root, p, source, cpp) {
                lemma_body_only(root, source, cpp, place, p);
            }
        }
        lemma_nothing(root, source, cpp, part);
        lemma_own_then_children(own, Facts::none(), root, source, cpp, place);
        assert(own.join(Facts::none()) =~= facts);
    }
}

/// A field leads to a child.
proof fn lemma_field(t: SyntaxTree, name: Seq<char>, i: int)
    ensures
        t.field_index_from(name, i) matches Some(k) ==> 0 <= k < t.children.len(),
    decreases t.fields.len() - i,
{
    if 0 <= i < t.fields.len() {
        lemma_field(t, name, i + 1);
    }
}

/// Every call is found once, in the order of the file, and its caller is the function in whose body
/// it stands, the innermost one; the module where it stands in the body of no function, or in C++
/// directly in a record.
pub proof fn law_calls_have_the_function_around_them_as_caller(
    root: SyntaxTree,
    source: Seq<char>,
    cpp: bool,
)
    ensures
        facts_by_place(c_facts(root, source, cpp).calls, call_at(root, source, cpp)),
{
    lemma_file(root, source, cpp);
}

/// Every function that is defined with a name is found once, in the order of the file, with its
/// name, its lines, its parameters, its type and its text; in C++ the record around it qualifies
/// its name.
pub proof fn law_every_function_is_found(root: SyntaxTree, source: Seq<char>, cpp: bool)
    ensures
        facts_by_place(c_facts(root, source, cpp).functions, function_at(root, source, cpp)),
{
    lemma_file(root, source, cpp);
}

/// Every record with a name is found once, in the order of the file, and so is every header that is
/// brought in.
pub proof fn law_every_record_and_header_is_found(root: SyntaxTree, source: Seq<char>, cpp: bool)
    ensures
        facts_by_place(c_facts(root, source, cpp).classes, record_at(root, source, cpp)),
        facts_by_place(c_facts(root, source, cpp).imports, header_at(root, source, cpp)),
        c_facts(root, source, cpp).variables.len() == 0,
{
    lemma_file(root, source, cpp);
}

proof fn lemma_file(root: SyntaxTree, source: Seq<char>, cpp: bool)
    ensures
        found_in(
            c_facts(root, source, cpp),
            root,
            source,
            cpp,
            Part::Whole(Seq::<int>::empty()),
        ),
{
    let top = Seq::<int>::empty();
    assert forall|k: int| 0 <= k < root.children.len() implies {
        &&& reachable(root, #[trigger] top.push(k), source, cpp)
        &&& record_around(root, top.push(k), source) == None::<Seq<char>>
        &&& function_around(root, top.push(k), source) == None::<Seq<char>>
        &&& depth_of(root, top.push(k)) == 0
    } by {
        assert(top.push(k).drop_last() =~= top);
        assert(node_at(root, top) == Some(root));
    }
    lemma_children(root, source, cpp, top, root, 0, None, None, 0);
    let rest = c_facts(root, source, cpp);
    lemma_own_then_children(Facts::none(), rest, root, source, cpp, top);
    assert(Facts::none().join(rest) =~= rest);
}

} // verus!
