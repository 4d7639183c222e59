//! Which places of a syntax tree are looked at, and in whose body they stand.

use crate::parser::places::{inside, lemma_inside_exists, node_at};
use crate::parser::syntax::SyntaxTree;
use vstd::prelude::*;

verus! {

/// What a language makes of the nodes of its trees.
pub ghost struct Grammar {
    /// Whether a node is a function or a class, so that it has a body of its own.
    pub defines: spec_fn(SyntaxTree) -> bool,
    /// Which child of a function or a class is gone into, where one is.
    pub body: spec_fn(SyntaxTree) -> Option<int>,
    /// Whether a node is not gone into.
    pub stops: spec_fn(SyntaxTree) -> bool,
}

/// Whether a function or a class stands at a place. What stands directly in one is its name, its
/// body and the like.
pub open spec fn is_definition(g: Grammar, root: SyntaxTree, place: Seq<int>) -> bool
    decreases place.len(),
{
    &&& place.len() > 0
    &&& node_at(root, place) matches Some(t) && (g.defines)(t)
    &&& !(place.len() > 1 && is_definition(g, root, place.drop_last()))
}

/// Whether a place stands directly in the body of a function or a class, or in what else it has.
pub open spec fn in_definition(g: Grammar, root: SyntaxTree, place: Seq<int>) -> bool {
    place.len() > 2 && is_definition(g, root, place.drop_last().drop_last())
}

/// The place of the function or class in whose body a place stands, the innermost one.
pub open spec fn enclosing(g: Grammar, root: SyntaxTree, place: Seq<int>) -> Option<Seq<int>>
    decreases place.len(),
{
    if place.len() <= 1 {
        None
    } else if in_definition(g, root, place) {
        Some(place.drop_last().drop_last())
    } else {
        enclosing(g, root, place.drop_last())
    }
}

/// How deep a place stands in the body of the definition that encloses it.
pub open spec fn depth_of(g: Grammar, root: SyntaxTree, place: Seq<int>) -> nat
    decreases place.len(),
{
    if place.len() <= 1 {
        0
    } else if in_definition(g, root, place) {
        1
    } else {
        depth_of(g, root, place.drop_last()) + 1
    }
}

/// Whether a place can be reached from the root: along the bodies of functions and classes, and
/// past no node that is not gone into.
pub open spec fn reachable(g: Grammar, root: SyntaxTree, place: Seq<int>) -> bool
    decreases place.len(),
{
    &&& place.len() > 0
    &&& node_at(root, place) is Some
    &&& if place.len() == 1 {
        true
    } else if in_definition(g, root, place) {
        let definition = place.drop_last().drop_last();
        &&& reachable(g, root, definition)
        &&& depth_of(g, root, definition) <= 500
        &&& (g.body)(node_at(root, definition)->0) == Some(place.drop_last().last())
    } else {
        let parent = place.drop_last();
        &&& reachable(g, root, parent)
        &&& depth_of(g, root, parent) <= 500
        &&& !is_definition(g, root, parent)
        &&& !(g.stops)(node_at(root, parent)->0)
    }
}

/// Whether a place is looked at: it can be reached, and it is not too deep.
pub open spec fn visited(g: Grammar, root: SyntaxTree, place: Seq<int>) -> bool {
    reachable(g, root, place) && depth_of(g, root, place) <= 500
}

/// Where a place is not looked at, nothing inside it is, unless it is a body.
pub proof fn lemma_stops(g: Grammar, root: SyntaxTree, top: Seq<int>, place: Seq<int>)
    requires
        top.len() > 0,
        !visited(g, root, top),
        !(top.len() > 1 && is_definition(g, root, top.drop_last())),
        inside(place, top),
    ensures
        !visited(g, root, place),
    decreases place.len(),
{
    let n = top.len() as int;
    if place.len() == n {
        assert(place.take(n) =~= place);
    } else {
        let parent = place.drop_last();
        assert(parent.take(n) =~= place.take(n));
        lemma_stops(g, root, top, parent);
        if place.len() > n + 1 {
            let before = parent.drop_last();
            assert(before.take(n) =~= place.take(n));
            lemma_stops(g, root, top, before);
        } else {
            assert(parent =~= top);
        }
    }
}

/// Nothing is looked at inside a node that is not gone into.
pub proof fn lemma_not_gone_into(g: Grammar, root: SyntaxTree, top: Seq<int>, place: Seq<int>)
    requires
        visited(g, root, top),
        !is_definition(g, root, top),
        (g.stops)(node_at(root, top)->0),
        inside(place, top),
        place.len() > top.len(),
    ensures
        !visited(g, root, place),
{
    let n = top.len() as int;
    let child = top.push(place[n]);
    assert(child.drop_last() =~= top);
    assert(place.take(n + 1) =~= place.take(n).push(place[n]));
    assert(!in_definition(g, root, child));
    lemma_stops(g, root, child, place);
}

/// Inside a definition only what stands in its body is looked at.
pub proof fn lemma_body_only(g: Grammar, root: SyntaxTree, top: Seq<int>, place: Seq<int>)
    requires
        is_definition(g, root, top),
        visited(g, root, place),
        inside(place, top),
        place.len() > top.len(),
    ensures
        place.len() > top.len() + 1,
        (g.body)(node_at(root, top)->0) == Some(place[top.len() as int]),
        inside(place, top.push(place[top.len() as int])),
        place[top.len() as int + 1] >= 0,
{
    let n = top.len() as int;
    let k = place[n];
    let child = top.push(k);
    assert(place.take(n + 1) =~= place.take(n).push(k));
    assert(child.drop_last() =~= top);
    if place.len() == n + 1 {
        assert(place =~= child);
        assert(!in_definition(g, root, place));
    } else {
        let inner = place.take(n + 2);
        assert(inner.drop_last() =~= child);
        assert(inner.drop_last().drop_last() =~= top);
        if (g.body)(node_at(root, top)->0) != Some(k) {
            assert(!is_definition(g, root, child));
            assert(in_definition(g, root, inner));
            assert(!visited(g, root, inner));
            assert(place.take(inner.len() as int) =~= inner);
            lemma_stops(g, root, inner, place);
        }
        lemma_inside_exists(root, place, child);
    }
}

/// A child of a node that is gone into can be reached, and has the same definition around it.
pub proof fn lemma_child(g: Grammar, root: SyntaxTree, top: Seq<int>, k: int)
    requires
        visited(g, root, top),
        !is_definition(g, root, top),
        !(g.stops)(node_at(root, top)->0),
        0 <= k < node_at(root, top)->0.children.len(),
    ensures
        reachable(g, root, top.push(k)),
        depth_of(g, root, top.push(k)) == depth_of(g, root, top) + 1,
        enclosing(g, root, top.push(k)) == enclosing(g, root, top),
        !in_definition(g, root, top.push(k)),
        node_at(root, top.push(k)) == Some(node_at(root, top)->0.children[k]),
        top.push(k).drop_last() == top,
{
    assert(top.push(k).drop_last() =~= top);
    assert(top.push(k).last() == k);
    assert(!(top.len() > 1 && is_definition(g, root, top.drop_last())));
}

/// A child of the body of a definition can be reached, and has that definition around it.
pub proof fn lemma_child_of_body(g: Grammar, root: SyntaxTree, top: Seq<int>, k: int, j: int)
    requires
        visited(g, root, top),
        is_definition(g, root, top),
        (g.body)(node_at(root, top)->0) == Some(k),
        0 <= k < node_at(root, top)->0.children.len(),
        0 <= j < node_at(root, top)->0.children[k].children.len(),
    ensures
        node_at(root, top.push(k)) == Some(node_at(root, top)->0.children[k]),
        reachable(g, root, top.push(k).push(j)),
        depth_of(g, root, top.push(k).push(j)) == 1,
        enclosing(g, root, top.push(k).push(j)) == Some(top),
        in_definition(g, root, top.push(k).push(j)),
        top.push(k).push(j).drop_last() == top.push(k),
        top.push(k).drop_last() == top,
        !in_definition(g, root, top.push(k)),
{
    assert(top.push(k).drop_last() =~= top);
    assert(top.push(k).last() == k);
    assert(top.push(k).push(j).drop_last() =~= top.push(k));
    assert(top.push(k).push(j).last() == j);
}

/// What stands inside a node that is not gone into cannot be reached.
pub proof fn lemma_out_of_reach(g: Grammar, root: SyntaxTree, top: Seq<int>, place: Seq<int>)
    requires
        visited(g, root, top),
        !is_definition(g, root, top),
        (g.stops)(node_at(root, top)->0),
        inside(place, top),
        place.len() > top.len(),
    ensures
        !reachable(g, root, place),
{
    let n = top.len() as int;
    let parent = place.drop_last();
    assert(parent.take(n) =~= place.take(n));
    if parent.len() == n {
        assert(parent =~= top);
        assert(!(top.len() > 1 && is_definition(g, root, top.drop_last())));
    } else {
        lemma_not_gone_into(g, root, top, parent);
        let before = parent.drop_last();
        assert(before.take(n) =~= place.take(n));
        if before.len() == n {
            assert(before =~= top);
        } else {
            lemma_not_gone_into(g, root, top, before);
        }
    }
}

} // verus!
