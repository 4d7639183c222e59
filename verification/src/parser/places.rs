//! Places in a syntax tree, and facts listed by the places that they come from.

use crate::parser::syntax::SyntaxTree;
use vstd::prelude::*;

verus! {

/// The node that a way of child indices leads to.
pub open spec fn node_at(t: SyntaxTree, place: Seq<int>) -> Option<SyntaxTree>
    decreases place.len(),
{
    if place.len() == 0 {
        Some(t)
    } else {
        match node_at(t, place.drop_last()) {
            Some(parent) => if 0 <= place.last() < parent.children.len() {
                Some(parent.children[place.last()])
            } else {
                None
            },
            None => None,
        }
    }
}

/// Whether the node at `place` is the one at `top` or stands inside it.
pub open spec fn inside(place: Seq<int>, top: Seq<int>) -> bool {
    place.len() >= top.len() && place.take(top.len() as int) == top
}

/// Whether the node at `a` begins before the one at `b`, or encloses it.
pub open spec fn earlier(a: Seq<int>, b: Seq<int>) -> bool {
    exists|i: int|
        0 <= i <= a.len() && i < b.len() && #[trigger] a.take(i) == b.take(i) && (i == a.len()
            || a[i] < b[i])
}

/// A part of a tree.
pub ghost enum Part {
    /// The node at a place, with all that stands inside it.
    Whole(Seq<int>),
    /// The children from an index on of the node at a place, with all that stands inside them.
    Children(Seq<int>, int),
}

/// Whether a place is in a part of the tree.
pub open spec fn in_part(place: Seq<int>, part: Part) -> bool {
    match part {
        Part::Whole(top) => inside(place, top),
        Part::Children(top, i) => inside(place, top) && place.len() > top.len()
            && place[top.len() as int] >= i,
    }
}

/// Whether `places` are all the places of a part that `at` gives a fact for, in the order of the
/// file, and `facts` are their facts.
pub open spec fn listed<T>(
    facts: Seq<T>,
    places: Seq<Seq<int>>,
    at: spec_fn(Seq<int>) -> Option<T>,
    part: Part,
) -> bool {
    &&& places.len() == facts.len()
    &&& forall|i: int|
        0 <= i < places.len() ==> in_part(#[trigger] places[i], part) && at(places[i]) == Some(
            facts[i],
        )
    &&& forall|p: Seq<int>|
        in_part(p, part) && (#[trigger] at(p) is Some) ==> places.contains(p)
    &&& forall|i: int, j: int|
        0 <= i < j < places.len() ==> earlier(#[trigger] places[i], #[trigger] places[j])
}

/// Whether `facts` are those that `at` gives for the places of a part of the tree, each for one
/// place, in the order of the file.
pub open spec fn facts_in<T>(
    facts: Seq<T>,
    at: spec_fn(Seq<int>) -> Option<T>,
    part: Part,
) -> bool {
    exists|places: Seq<Seq<int>>| #[trigger] listed(facts, places, at, part)
}

/// Whether `facts` are those that `at` gives for the places of the tree, each for one place, in
/// the order of the file.
pub open spec fn facts_by_place<T>(facts: Seq<T>, at: spec_fn(Seq<int>) -> Option<T>) -> bool {
    facts_in(facts, at, Part::Whole(Seq::empty()))
}

/// Facts of one part of the tree, then those of a later part.
proof fn lemma_join_parts<T>(
    a: Seq<T>,
    first: Part,
    b: Seq<T>,
    second: Part,
    at: spec_fn(Seq<int>) -> Option<T>,
    whole: Part,
)
    requires
        facts_in(a, at, first),
        facts_in(b, at, second),
        forall|p: Seq<int>| #[trigger]
            at(p) is Some ==> (in_part(p, whole) <==> in_part(p, first) || in_part(p, second)),
        forall|p: Seq<int>, q: Seq<int>|
            #![trigger in_part(p, first), in_part(q, second)]
            in_part(p, first) && in_part(q, second) && at(p) is Some && at(q) is Some ==> earlier(
                p,
                q,
            ),
    ensures
        facts_in(a + b, at, whole),
{
    let x = choose|x: Seq<Seq<int>>| #[trigger] listed(a, x, at, first);
    let y = choose|y: Seq<Seq<int>>| #[trigger] listed(b, y, at, second);
    let z = x + y;
    let c = a + b;
    assert forall|i: int| 0 <= i < z.len() implies in_part(#[trigger] z[i], whole) && at(z[i])
        == Some(c[i]) by {
        if i < x.len() {
            assert(z[i] == x[i]);
        } else {
            assert(z[i] == y[i - x.len()]);
        }
        assert(at(z[i]) is Some);
    }
    assert forall|p: Seq<int>| in_part(p, whole) && (#[trigger] at(p) is Some) implies z.contains(
        p,
    ) by {
        if in_part(p, first) {
            let i = choose|i: int| 0 <= i < x.len() && x[i] == p;
            assert(z[i] == p);
        } else {
            let i = choose|i: int| 0 <= i < y.len() && y[i] == p;
            assert(z[i + x.len()] == p);
        }
    }
    assert forall|i: int, j: int| 0 <= i < j < z.len() implies earlier(
        #[trigger] z[i],
        #[trigger] z[j],
    ) by {
        if j < x.len() {
            assert(z[i] == x[i] && z[j] == x[j]);
        } else if i >= x.len() {
            assert(z[i] == y[i - x.len()] && z[j] == y[j - x.len()]);
        } else {
            assert(z[i] == x[i] && z[j] == y[j - x.len()]);
            assert(in_part(x[i], first) && in_part(y[j - x.len()], second));
        }
    }
    assert(listed(c, z, at, whole));
}

/// Nothing is listed where there is nothing.
pub proof fn lemma_none_in<T>(at: spec_fn(Seq<int>) -> Option<T>, part: Part)
    requires
        forall|p: Seq<int>| in_part(p, part) ==> #[trigger] at(p) is None,
    ensures
        facts_in(Seq::<T>::empty(), at, part),
{
    assert(listed(Seq::<T>::empty(), Seq::<Seq<int>>::empty(), at, part));
}

/// The facts in a child, then those in the children after it.
pub proof fn lemma_child_then_rest<T>(
    a: Seq<T>,
    b: Seq<T>,
    at: spec_fn(Seq<int>) -> Option<T>,
    top: Seq<int>,
    i: int,
)
    requires
        facts_in(a, at, Part::Whole(top.push(i))),
        facts_in(b, at, Part::Children(top, i + 1)),
    ensures
        facts_in(a + b, at, Part::Children(top, i)),
{
    let child = top.push(i);
    let n = top.len() as int;
    let first = Part::Whole(child);
    let second = Part::Children(top, i + 1);
    let whole = Part::Children(top, i);
    assert(child.take(n) =~= top);
    assert forall|p: Seq<int>| #[trigger] at(p) is Some implies (in_part(p, whole) <==> in_part(
        p,
        first,
    ) || in_part(p, second)) by {
        if inside(p, child) {
            assert(p.take(n) =~= p.take(n + 1).take(n));
            assert(p[n] == p.take(n + 1)[n]);
        }
        if in_part(p, whole) && p[n] == i {
            assert(p.take(n + 1) =~= p.take(n).push(p[n]));
        }
    }
    assert forall|p: Seq<int>, q: Seq<int>|
        #![trigger in_part(p, first), in_part(q, second)]
        in_part(p, first) && in_part(q, second) && at(p) is Some && at(q) is Some implies earlier(
        p,
        q,
    ) by {
        assert(p[n] == p.take(n + 1)[n]);
        assert(p.take(n) =~= p.take(n + 1).take(n));
        assert(p.take(n) == q.take(n));
    }
    lemma_join_parts(a, first, b, second, at, whole);
}

/// The facts in a node: its own one, where it has one, then those in its children.
pub proof fn lemma_node_then_children<T>(
    b: Seq<T>,
    at: spec_fn(Seq<int>) -> Option<T>,
    top: Seq<int>,
)
    requires
        facts_in(b, at, Part::Children(top, 0)),
        forall|p: Seq<int>|
            inside(p, top) && p.len() > top.len() && (#[trigger] at(p) is Some) ==> p[top.len() as int]
                >= 0,
    ensures
        facts_in(
            (match at(top) {
                Some(f) => seq![f],
                None => Seq::empty(),
            }) + b,
            at,
            Part::Whole(top),
        ),
{
    let n = top.len() as int;
    let y = choose|y: Seq<Seq<int>>| #[trigger] listed(b, y, at, Part::Children(top, 0));
    let a: Seq<T> = match at(top) {
        Some(f) => seq![f],
        None => Seq::empty(),
    };
    let x: Seq<Seq<int>> = match at(top) {
        Some(f) => seq![top],
        None => Seq::empty(),
    };
    let z = x + y;
    let c = a + b;
    assert(top.take(n) =~= top);
    assert forall|i: int| 0 <= i < z.len() implies in_part(#[trigger] z[i], Part::Whole(top)) && at(
        z[i],
    ) == Some(c[i]) by {
        if i >= x.len() {
            assert(z[i] == y[i - x.len()]);
        }
    }
    assert forall|p: Seq<int>|
        in_part(p, Part::Whole(top)) && (#[trigger] at(p) is Some) implies z.contains(p) by {
        if p.len() == n {
            assert(p.take(n) =~= p);
            assert(z[0] == top);
        } else {
            let i = choose|i: int| 0 <= i < y.len() && y[i] == p;
            assert(z[i + x.len()] == p);
        }
    }
    assert forall|i: int, j: int| 0 <= i < j < z.len() implies earlier(
        #[trigger] z[i],
        #[trigger] z[j],
    ) by {
        if i >= x.len() {
            assert(z[i] == y[i - x.len()] && z[j] == y[j - x.len()]);
        } else {
            assert(z[j] == y[j - x.len()]);
            assert(z[i] == top);
            assert(z[i].take(n) == z[j].take(n));
        }
    }
    assert(listed(c, z, at, Part::Whole(top)));
}

/// The facts in a node of whose children only one is gone into: its own one, where it has one,
/// then those in the children of that child.
pub proof fn lemma_node_then_body<T>(
    b: Seq<T>,
    at: spec_fn(Seq<int>) -> Option<T>,
    top: Seq<int>,
    k: int,
)
    requires
        facts_in(b, at, Part::Children(top.push(k), 0)),
        forall|p: Seq<int>|
            inside(p, top) && p.len() > top.len() && (#[trigger] at(p) is Some) ==> p.len()
                > top.len() + 1 && p[top.len() as int] == k && p[top.len() as int + 1] >= 0,
    ensures
        facts_in(
            (match at(top) {
                Some(f) => seq![f],
                None => Seq::empty(),
            }) + b,
            at,
            Part::Whole(top),
        ),
{
    let n = top.len() as int;
    let body = top.push(k);
    let y = choose|y: Seq<Seq<int>>| #[trigger] listed(b, y, at, Part::Children(body, 0));
    let a: Seq<T> = match at(top) {
        Some(f) => seq![f],
        None => Seq::empty(),
    };
    let x: Seq<Seq<int>> = match at(top) {
        Some(f) => seq![top],
        None => Seq::empty(),
    };
    let z = x + y;
    let c = a + b;
    assert(top.take(n) =~= top);
    assert(body.take(n) =~= top);
    assert forall|i: int| 0 <= i < y.len() implies #[trigger] y[i].take(n) == top by {
        assert(y[i].take(n) =~= y[i].take(n + 1).take(n));
    }
    assert forall|i: int| 0 <= i < z.len() implies in_part(#[trigger] z[i], Part::Whole(top)) && at(
        z[i],
    ) == Some(c[i]) by {
        if i >= x.len() {
            assert(z[i] == y[i - x.len()]);
            assert(y[i - x.len()].take(n) == top);
        }
    }
    assert forall|p: Seq<int>|
        in_part(p, Part::Whole(top)) && (#[trigger] at(p) is Some) implies z.contains(p) by {
        if p.len() == n {
            assert(p.take(n) =~= p);
            assert(z[0] == top);
        } else {
            assert(p.take(n + 1) =~= p.take(n).push(p[n]));
            let i = choose|i: int| 0 <= i < y.len() && y[i] == p;
            assert(z[i + x.len()] == p);
        }
    }
    assert forall|i: int, j: int| 0 <= i < j < z.len() implies earlier(
        #[trigger] z[i],
        #[trigger] z[j],
    ) by {
        if i >= x.len() {
            assert(z[i] == y[i - x.len()] && z[j] == y[j - x.len()]);
        } else {
            assert(z[j] == y[j - x.len()]);
            assert(z[i] == top);
            assert(y[j - x.len()].take(n) == top);
            assert(z[i].take(n) == z[j].take(n));
        }
    }
    assert(listed(c, z, at, Part::Whole(top)));
}

/// What stands at a place inside a node stands there in the whole tree.
pub proof fn lemma_inside_exists(t: SyntaxTree, place: Seq<int>, top: Seq<int>)
    requires
        node_at(t, place) is Some,
        inside(place, top),
    ensures
        node_at(t, top) is Some,
        place.len() > top.len() ==> 0 <= place[top.len() as int] < node_at(
            t,
            top,
        )->0.children.len(),
        node_at(t, place.take(top.len() as int)) is Some,
    decreases place.len(),
{
    let n = top.len() as int;
    if place.len() == n {
        assert(place.take(n) =~= place);
    } else {
        let up = place.drop_last();
        assert(up.take(n) =~= place.take(n));
        if up.len() == n {
            assert(up =~= top);
            assert(place.last() == place[n]);
        } else {
            assert(up[n] == place[n]);
        }
        lemma_inside_exists(t, up, top);
    }
}

} // verus!
