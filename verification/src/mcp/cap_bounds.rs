//! No more is cut out of a response than the budget needs.

use crate::json::{
    key_index, lemma_key_index, lemma_value_put, lemma_value_update, member, number_of,
    ordered_deep, put, ser_len, value_at, Json, JsonModel,
};
use crate::mcp::cap::{
    cap_response, cut_at, cut_down, cut_entry, cut_results, cuttable, first_results, fitting_results, heaviest,
    heaviest_entries, heaviest_in_results, heaviest_items, lemma_cut_results, lemma_first_results,
    omit_oversize_sections, results_of, shrink_report, shrink_search_results, shrunk, Cut,
    SearchShrink, Section,
};
use vstd::prelude::*;
use vstd::string::*;

verus! {

/// The part of a value that a way of indices leads to.
pub open spec fn part(v: JsonModel, path: Seq<int>) -> Option<JsonModel>
    decreases path.len(),
{
    if path.len() == 0 {
        Some(v)
    } else {
        match v {
            JsonModel::Array(s) => if 0 <= path[0] < s.len() {
                part(s[path[0]], path.skip(1))
            } else {
                None
            },
            JsonModel::Object(s) => if 0 <= path[0] < s.len() {
                part(s[path[0]].1, path.skip(1))
            } else {
                None
            },
            _ => None,
        }
    }
}

/// How many parts of its own a value has.
pub open spec fn breadth(v: JsonModel) -> nat {
    match v {
        JsonModel::Array(s) => s.len(),
        JsonModel::Object(s) => s.len(),
        _ => 0,
    }
}

/// The section at the entry `entry` of the object at `path`: a list of more than one item or,
/// where not only lists count, an object of more than 16 keys.
pub open spec fn section_at(
    v: JsonModel,
    path: Seq<int>,
    entry: int,
    only_lists: bool,
) -> Option<JsonModel> {
    match part(v, path) {
        Some(JsonModel::Object(s)) => if 0 <= entry < s.len() && (s[entry].1 is Array
            && breadth(s[entry].1) > 1 || !only_lists && s[entry].1 is Object && breadth(s[entry].1)
            > 16) {
            Some(s[entry].1)
        } else {
            None
        },
        _ => None,
    }
}

/// Whether `x` names a section of `v`, with its size and the number of its parts.
pub open spec fn names_section(v: JsonModel, x: Section, only_lists: bool) -> bool {
    section_at(v, x.path, x.entry, only_lists) matches Some(w) && x.size == ser_len(w) && x.count
        == breadth(w)
}

/// The section that is cut next is one of the response, and none is larger. There is none only
/// where the response has no section.
pub proof fn law_largest_section_is_cut(v: JsonModel, only_lists: bool)
    ensures
        heaviest(v, only_lists) matches Some(x) ==> names_section(v, x, only_lists),
        forall|path: Seq<int>, entry: int|
            #[trigger] section_at(v, path, entry, only_lists) matches Some(w) ==> heaviest(
                v,
                only_lists,
            ) is Some && ser_len(w) <= heaviest(v, only_lists)->0.size,
    decreases v, 1int,
{
    match v {
        JsonModel::Array(s) => {
            lemma_largest_of_items(s, s.len() as int, only_lists);
            if let Some(x) = heaviest(v, only_lists) {
                assert(names_section(v, x, only_lists));
            }
        },
        JsonModel::Object(s) => {
            lemma_largest_of_entries(s, s.len() as int, only_lists);
        },
        _ => {
            assert forall|path: Seq<int>, entry: int| #[trigger]
                section_at(v, path, entry, only_lists) is None by {}
        },
    }
}

proof fn lemma_largest_of_items(s: Seq<JsonModel>, n: int, only_lists: bool)
    requires
        0 <= n <= s.len(),
    ensures
        heaviest_items(s, n, only_lists) matches Some(x) ==> x.path.len() > 0 && names_section(
            JsonModel::Array(s),
            x,
            only_lists,
        ),
        forall|path: Seq<int>, entry: int|
            path.len() > 0 && path[0] < n && (#[trigger] section_at(
                JsonModel::Array(s),
                path,
                entry,
                only_lists,
            ) is Some) ==> heaviest_items(s, n, only_lists) is Some && ser_len(
                section_at(JsonModel::Array(s), path, entry, only_lists)->0,
            ) <= heaviest_items(s, n, only_lists)->0.size,
    decreases s, n,
{
    if n > 0 {
        lemma_largest_of_items(s, n - 1, only_lists);
        law_largest_section_is_cut(s[n - 1], only_lists);
        if let Some(x) = heaviest(s[n - 1], only_lists) {
            let path = seq![n - 1] + x.path;
            assert(path.skip(1) =~= x.path);
            assert(part(JsonModel::Array(s), path) == part(s[n - 1], x.path));
            assert(section_at(JsonModel::Array(s), path, x.entry, only_lists) == section_at(
                s[n - 1],
                x.path,
                x.entry,
                only_lists,
            ));
        }
        assert forall|path: Seq<int>, entry: int|
            path.len() > 0 && path[0] < n && (#[trigger] section_at(
                JsonModel::Array(s),
                path,
                entry,
                only_lists,
            ) is Some) implies heaviest_items(s, n, only_lists) is Some && ser_len(
            section_at(JsonModel::Array(s), path, entry, only_lists)->0,
        ) <= heaviest_items(s, n, only_lists)->0.size by {
            if path[0] == n - 1 {
                assert(section_at(JsonModel::Array(s), path, entry, only_lists) == section_at(
                    s[n - 1],
                    path.skip(1),
                    entry,
                    only_lists,
                ));
            }
        }
    }
}

proof fn lemma_largest_of_entries(s: Seq<(Seq<char>, JsonModel)>, n: int, only_lists: bool)
    requires
        0 <= n <= s.len(),
    ensures
        heaviest_entries(s, n, only_lists) matches Some(x) ==> names_section(
            JsonModel::Object(s),
            x,
            only_lists,
        ),
        forall|path: Seq<int>, entry: int|
            (if path.len() > 0 {
                path[0] < n
            } else {
                entry < n
            }) && (#[trigger] section_at(JsonModel::Object(s), path, entry, only_lists) is Some)
                ==> heaviest_entries(s, n, only_lists) is Some && ser_len(
                section_at(JsonModel::Object(s), path, entry, only_lists)->0,
            ) <= heaviest_entries(s, n, only_lists)->0.size,
    decreases s, n,
{
    let o = JsonModel::Object(s);
    if n > 0 {
        lemma_largest_of_entries(s, n - 1, only_lists);
        law_largest_section_is_cut(s[n - 1].1, only_lists);
        let none = Seq::<int>::empty();
        assert(part(o, none) == Some(o));
        assert(cuttable(s[n - 1].1, only_lists) is Some <==> section_at(
            o,
            none,
            n - 1,
            only_lists,
        ) is Some);
        if let Some(x) = heaviest(s[n - 1].1, only_lists) {
            let path = seq![n - 1] + x.path;
            assert(path.skip(1) =~= x.path);
            assert(part(o, path) == part(s[n - 1].1, x.path));
            assert(section_at(o, path, x.entry, only_lists) == section_at(
                s[n - 1].1,
                x.path,
                x.entry,
                only_lists,
            ));
        }
        assert forall|path: Seq<int>, entry: int|
            (if path.len() > 0 {
                path[0] < n
            } else {
                entry < n
            }) && (#[trigger] section_at(o, path, entry, only_lists) is Some) implies heaviest_entries(
            s,
            n,
            only_lists,
        ) is Some && ser_len(section_at(o, path, entry, only_lists)->0) <= heaviest_entries(
            s,
            n,
            only_lists,
        )->0.size by {
            if path.len() == 0 {
                assert(path =~= none);
            } else if path[0] == n - 1 {
                assert(section_at(o, path, entry, only_lists) == section_at(
                    s[n - 1].1,
                    path.skip(1),
                    entry,
                    only_lists,
                ));
            }
        }
    }
}

/// A cut changes the object that it is made in, and nothing that stands beside the way to it:
/// `other` is a way that leaves the way to the object at `i`.
pub proof fn law_cut_changes_one_object(
    v: JsonModel,
    path: Seq<int>,
    entry: int,
    cut: Cut,
    s: Seq<(Seq<char>, JsonModel)>,
    other: Seq<int>,
    i: int,
)
    requires
        part(v, path) == Some(JsonModel::Object(s)),
        0 <= entry < s.len(),
    ensures
        part(cut_at(v, path, entry, cut), path) == Some(
            JsonModel::Object(cut_entry(s, entry, cut)),
        ),
        0 <= i < path.len() && i < other.len() && other[i] != path[i] && (forall|j: int|
            0 <= j < i ==> #[trigger] other[j] == path[j]) ==> part(
            cut_at(v, path, entry, cut),
            other,
        ) == part(v, other),
    decreases path.len(),
{
    if path.len() > 0 {
        let inner = match v {
            JsonModel::Array(a) => a[path[0]],
            JsonModel::Object(o) => o[path[0]].1,
            _ => v,
        };
        let rest = if other.len() > 0 {
            other.skip(1)
        } else {
            other
        };
        law_cut_changes_one_object(inner, path.skip(1), entry, cut, s, rest, i - 1);
        if 0 < i < path.len() && i < other.len() && (forall|j: int|
            0 <= j < i ==> #[trigger] other[j] == path[j]) {
            assert(other[0] == path[0]);
            assert forall|j: int| 0 <= j < i - 1 implies #[trigger] rest[j] == path.skip(1)[j] by {
                assert(other[j + 1] == path[j + 1]);
            }
        }
    }
}

/// Whether `next` is what comes of cutting the largest section of `v`: a list is halved where only
/// lists count, and otherwise the section is left out.
pub open spec fn one_cut(v: JsonModel, next: JsonModel, only_lists: bool) -> bool {
    exists|x: Section|
        {
            &&& #[trigger] names_section(v, x, only_lists)
            &&& forall|path: Seq<int>, entry: int|
                #[trigger] section_at(v, path, entry, only_lists) matches Some(w) ==> ser_len(w)
                    <= x.size
            &&& next == cut_at(
                v,
                x.path,
                x.entry,
                if only_lists {
                    Cut::Halve
                } else {
                    Cut::Omit(x.count as usize)
                },
            )
        }
}

/// Whether a response has no section that could be cut.
pub open spec fn nothing_to_cut(v: JsonModel, only_lists: bool) -> bool {
    forall|path: Seq<int>, entry: int| #[trigger] section_at(v, path, entry, only_lists) is None
}

/// Whether the step to `steps[i]` is one cut, made because what was there before did not fit.
pub open spec fn needed_cut(steps: Seq<JsonModel>, i: int, budget: nat, only_lists: bool) -> bool {
    ser_len(steps[i - 1]) > budget && one_cut(steps[i - 1], steps[i], only_lists)
}

/// Whether `steps` leads from `v` to a response that fits: each step is one cut, made because what
/// was there before did not fit.
pub open spec fn cut_steps(v: JsonModel, budget: nat, only_lists: bool, steps: Seq<JsonModel>) -> bool {
    &&& steps.len() > 0
    &&& steps[0] == v
    &&& forall|i: int|
        0 < i < steps.len() ==> #[trigger] needed_cut(steps, i, budget, only_lists)
}

/// No cut is made that the budget does not need, and cutting stops only where the response fits,
/// where nothing is left in it to cut, or where all the cuts that are allowed were made.
pub proof fn law_each_cut_is_needed(v: JsonModel, budget: nat, only_lists: bool, n: nat) -> (steps:
    Seq<JsonModel>)
    ensures
        cut_steps(v, budget, only_lists, steps),
        steps.last() == cut_down(v, budget, only_lists, n),
        steps.len() <= n + 1,
        ser_len(steps.last()) <= budget || nothing_to_cut(steps.last(), only_lists) || steps.len()
            == n + 1,
        ser_len(v) <= budget ==> steps.last() == v,
    decreases n,
{
    law_largest_section_is_cut(v, only_lists);
    if n > 0 && ser_len(v) > budget && heaviest(v, only_lists) is Some {
        let x = heaviest(v, only_lists)->0;
        let next = cut_at(
            v,
            x.path,
            x.entry,
            if only_lists {
                Cut::Halve
            } else {
                Cut::Omit(x.count as usize)
            },
        );
        let rest = law_each_cut_is_needed(next, budget, only_lists, (n - 1) as nat);
        let steps = seq![v] + rest;
        assert(one_cut(v, next, only_lists));
        assert forall|i: int| 0 < i < steps.len() implies #[trigger] needed_cut(
            steps,
            i,
            budget,
            only_lists,
        ) by {
            assert(steps[i] == rest[i - 1]);
            if i > 1 {
                assert(steps[i - 1] == rest[i - 2]);
                assert(needed_cut(rest, i - 1, budget, only_lists));
            }
        }
        assert(steps.last() == rest.last());
        steps
    } else {
        assert(seq![v].last() == v);
        seq![v]
    }
}

/// Whether a way leads into an item of the list of what a search found.
pub open spec fn in_an_item(v: JsonModel, path: Seq<int>) -> bool {
    v matches JsonModel::Object(s) && path.len() >= 2 && key_index(s, "results"@) == Some(path[0])
        && s[path[0]].1 is Array
}

/// Whether `next` is what comes of leaving out the largest section inside the items that a search
/// found.
pub open spec fn one_section_less(v: JsonModel, next: JsonModel) -> bool {
    exists|x: Section|
        {
            &&& #[trigger] names_section(v, x, false)
            &&& in_an_item(v, x.path)
            &&& forall|path: Seq<int>, entry: int|
                in_an_item(v, path) && (#[trigger] section_at(v, path, entry, false) is Some)
                    ==> ser_len(section_at(v, path, entry, false)->0) <= x.size
            &&& next == cut_at(v, x.path, x.entry, Cut::Omit(x.count as usize))
        }
}

/// Whether the items that a search found have no section that could be left out.
pub open spec fn bare_items(v: JsonModel) -> bool {
    forall|path: Seq<int>, entry: int|
        in_an_item(v, path) ==> #[trigger] section_at(v, path, entry, false) is None
}

/// Whether the step to `steps[i]` leaves out one section, because what was there before did not fit.
pub open spec fn needed_omission(steps: Seq<JsonModel>, i: int, budget: nat) -> bool {
    ser_len(steps[i - 1]) > budget && one_section_less(steps[i - 1], steps[i])
}

/// Whether `steps` leads from `v` to a search response that fits: each step leaves out one section,
/// because what was there before did not fit.
pub open spec fn search_steps(v: JsonModel, budget: nat, steps: Seq<JsonModel>) -> bool {
    &&& steps.len() > 0
    &&& steps[0] == v
    &&& forall|i: int| 0 < i < steps.len() ==> #[trigger] needed_omission(steps, i, budget)
}

proof fn lemma_largest_in_items(v: JsonModel)
    ensures
        heaviest_in_results(v) matches Some(x) ==> names_section(v, x, false) && in_an_item(
            v,
            x.path,
        ),
        forall|path: Seq<int>, entry: int|
            in_an_item(v, path) && (#[trigger] section_at(v, path, entry, false) is Some)
                ==> heaviest_in_results(v) is Some && ser_len(
                section_at(v, path, entry, false)->0,
            ) <= heaviest_in_results(v)->0.size,
{
    if let JsonModel::Object(s) = v {
        lemma_key_index(s, "results"@, 0);
        if let Some(k) = key_index(s, "results"@) {
            if let JsonModel::Array(a) = s[k].1 {
                let list = JsonModel::Array(a);
                let n = a.len() as int;
                lemma_largest_of_items(a, n, false);
                if let Some(x) = heaviest_items(a, n, false) {
                    let path = seq![k] + x.path;
                    assert(path.skip(1) =~= x.path);
                    assert(part(v, path) == part(list, x.path));
                }
                assert forall|path: Seq<int>, entry: int|
                    in_an_item(v, path) && (#[trigger] section_at(v, path, entry, false)
                        is Some) implies heaviest_in_results(v) is Some && ser_len(
                    section_at(v, path, entry, false)->0,
                ) <= heaviest_in_results(v)->0.size by {
                    let rest = path.skip(1);
                    assert(section_at(v, path, entry, false) == section_at(
                        list,
                        rest,
                        entry,
                        false,
                    ));
                    assert(rest.len() > 0 && rest[0] < n);
                }
            }
        }
    }
}

proof fn lemma_search_steps(v: JsonModel, budget: nat, n: nat) -> (steps: Seq<JsonModel>)
    ensures
        search_steps(v, budget, steps),
        steps.last() == cut_results(v, budget, n),
        steps.len() <= n + 1,
        ser_len(steps.last()) <= budget || bare_items(steps.last()) || steps.len() == n + 1,
        steps.len() > 1 <==> n > 0 && ser_len(v) > budget && heaviest_in_results(v) is Some,
        steps.len() == 1 ==> steps.last() == v,
    decreases n,
{
    lemma_largest_in_items(v);
    if n > 0 && ser_len(v) > budget && heaviest_in_results(v) is Some {
        let x = heaviest_in_results(v)->0;
        let next = cut_at(v, x.path, x.entry, Cut::Omit(x.count as usize));
        let rest = lemma_search_steps(next, budget, (n - 1) as nat);
        let steps = seq![v] + rest;
        assert(one_section_less(v, next));
        assert forall|i: int| 0 < i < steps.len() implies #[trigger] needed_omission(
            steps,
            i,
            budget,
        ) by {
            assert(steps[i] == rest[i - 1]);
            if i > 1 {
                assert(steps[i - 1] == rest[i - 2]);
                assert(needed_omission(rest, i - 1, budget));
            }
        }
        assert(steps.last() == rest.last());
        steps
    } else {
        assert(seq![v].last() == v);
        seq![v]
    }
}

/// A search response with the first `m` of the items that were found: the list stands at `k`.
pub open spec fn with_first_items(s: Seq<(Seq<char>, JsonModel)>, k: int, m: int) -> JsonModel {
    JsonModel::Object(s.update(k, ("results"@, JsonModel::Array(s[k].1->Array_0.take(m)))))
}

/// Whether as many items are shown as fit: with `shown` items and the marks the response is within
/// the budget, unless it is a single one, and with more of them it is not.
pub open spec fn as_many_as_fit(
    s: Seq<(Seq<char>, JsonModel)>,
    k: int,
    budget: nat,
    shown: nat,
) -> bool {
    let total = breadth(s[k].1);
    &&& shown <= total
    &&& total >= 1 ==> shown >= 1
    &&& shown > 1 ==> ser_len(with_first_items(s, k, shown as int)) + 48 <= budget
    &&& forall|m: int|
        shown < m <= total ==> ser_len(#[trigger] with_first_items(s, k, m)) + 48 > budget
}

proof fn lemma_as_many_as_fit(
    s: Seq<(Seq<char>, JsonModel)>,
    k: int,
    total: nat,
    shown: nat,
    budget: nat,
)
    requires
        key_index(s, "results"@) == Some(k),
        0 <= k < s.len(),
        s[k].0 == "results"@,
        s[k].1 is Array,
        total == breadth(s[k].1),
        shown <= total,
        total >= 1 ==> shown >= 1,
        forall|m: int|
            shown < m <= total ==> ser_len(#[trigger] with_first_items(s, k, m)) + 48 > budget,
    ensures
        as_many_as_fit(s, k, budget, fitting_results(JsonModel::Object(s), shown, budget)),
    decreases shown,
{
    assert(first_results(JsonModel::Object(s), shown as int) == with_first_items(
        s,
        k,
        shown as int,
    ));
    if shown > 1 && ser_len(with_first_items(s, k, shown as int)) + 48 > budget {
        lemma_as_many_as_fit(s, k, total, (shown - 1) as nat, budget);
    }
}

/// The list of what a search found is shortened no further than the budget asks for. Sections
/// inside the items go first, one by one and only as long as the response does not fit; where it
/// fits then, all items are shown. Otherwise as many of the first items are shown as fit into the
/// budget with 48 bytes for the marks, but at least one: with one more the response would not fit.
/// The marks, and the report, say how many there are and how many are shown.
pub proof fn law_list_is_shortened_no_further_than_needed(
    v: JsonModel,
    a: Seq<JsonModel>,
    budget: nat,
) -> (steps: Seq<JsonModel>)
    requires
        ordered_deep(v),
        results_of(v) == Some(a),
        budget > 0,
        ser_len(v) > budget,
    ensures
        search_steps(v, budget, steps),
        ser_len(steps.last()) <= budget || bare_items(steps.last()) || steps.len() == 1025,
        shrink_report(v, budget).sections_omitted == (steps.len() > 1),
        ser_len(steps.last()) <= budget ==> shrunk(v, budget) == steps.last() && !shrink_report(
            v,
            budget,
        ).results_shortened,
        ser_len(steps.last()) > budget ==> (steps.last() matches JsonModel::Object(s) && exists|
            k: int,
            shown: nat,
        |
            {
                &&& 0 <= k < s.len()
                &&& s[k].0 == "results"@
                &&& s[k].1 matches JsonModel::Array(c) && c.len() == a.len()
                &&& #[trigger] as_many_as_fit(s, k, budget, shown)
                &&& shown == a.len() ==> shrunk(v, budget) == steps.last()
                &&& shown < a.len() ==> {
                    &&& results_of(shrunk(v, budget)) == Some(s[k].1->Array_0.take(shown as int))
                    &&& member(shrunk(v, budget), "results_total"@) == Some(
                        JsonModel::Number(number_of(a.len() as u64)),
                    )
                    &&& member(shrunk(v, budget), "results_shown"@) == Some(
                        JsonModel::Number(number_of(shown as u64)),
                    )
                    &&& forall|key: Seq<char>|
                        key != "results"@ && key != "results_total"@ && key != "results_shown"@
                            ==> #[trigger] member(shrunk(v, budget), key) == member(
                            steps.last(),
                            key,
                        )
                }
                &&& shrink_report(v, budget).results_shortened == (shown < a.len())
                &&& shown < a.len() ==> shrink_report(v, budget).results_total == a.len() as usize
                &&& shown < a.len() ==> shrink_report(v, budget).results_shown == shown as usize
            }),
{
    let steps = lemma_search_steps(v, budget, 1024);
    let cut = steps.last();
    lemma_cut_results(v, a, budget, 1024);
    let c = results_of(cut)->0;
    let s = cut->Object_0;
    lemma_key_index(s, "results"@, 0);
    let k = key_index(s, "results"@)->0;
    let shown = fitting_results(cut, a.len(), budget);
    lemma_as_many_as_fit(s, k, a.len(), a.len(), budget);
    assert(first_results(cut, shown as int) == with_first_items(s, k, shown as int));
    assert(as_many_as_fit(s, k, budget, shown));
    if ser_len(cut) > budget && shown < a.len() {
        reveal_strlit("results");
        reveal_strlit("results_total");
        reveal_strlit("results_shown");
        assert("results"@.len() == 7);
        assert("results_total"@.len() == 13);
        assert("results_shown"@.len() == 13);
        assert("results_total"@[8] != "results_shown"@[8]);
        let first = with_first_items(s, k, shown as int)->Object_0;
        let total = JsonModel::Number(number_of(a.len() as u64));
        let number = JsonModel::Number(number_of(shown as u64));
        let one = put(first, "results_total"@, total);
        lemma_first_results(cut, c, shown as int, shown as int);
        assert forall|key: Seq<char>| #[trigger]
            member(shrunk(v, budget), key) == (if key == "results_shown"@ {
                Some(number)
            } else if key == "results_total"@ {
                Some(total)
            } else {
                value_at(first, key)
            }) by {
            lemma_value_put(first, "results_total"@, total, key);
            lemma_value_put(one, "results_shown"@, number, key);
        }
        assert forall|key: Seq<char>| key != "results"@ implies #[trigger] value_at(first, key)
            == member(cut, key) by {
            lemma_value_update(s, k, JsonModel::Array(c.take(shown as int)), key);
        }
        assert(results_of(JsonModel::Object(first)) == Some(c.take(shown as int)));
        assert(member(shrunk(v, budget), "results"@) == value_at(first, "results"@));
    }
    steps
}

/// A response is shortened by halving its largest list, again and again, until it fits, until
/// no list has more than one item or until 256 cuts were made; a response that fits, or that has
/// no budget, stays as it is.
pub proof fn law_response_is_shortened_to_the_budget(
    value: Json,
    budget: usize,
    r: (Json, bool),
) -> (steps: Seq<JsonModel>)
    requires
        value.wf(),
        call_ensures(cap_response, (value, budget), r),
    ensures
        budget == 0 ==> r.0.model() == value.model() && !r.1,
        budget > 0 ==> {
            &&& cut_steps(value.model(), budget as nat, true, steps)
            &&& steps.last() == r.0.model()
            &&& r.1 == (steps.len() > 1)
            &&& ser_len(r.0.model()) <= budget || nothing_to_cut(r.0.model(), true) || steps.len()
                == 257
        },
{
    let steps = law_each_cut_is_needed(value.model(), budget as nat, true, 256);
    lemma_any_cut(value.model(), budget as nat, true, steps);
    steps
}

/// Sections are left out of a response, the largest first, until it fits, until it has no more of
/// them or until 256 cuts were made; a response that fits, or that has no budget, stays as it is.
pub proof fn law_sections_are_left_out_to_the_budget(
    value: Json,
    budget: usize,
    r: (Json, bool),
) -> (steps: Seq<JsonModel>)
    requires
        value.wf(),
        call_ensures(omit_oversize_sections, (value, budget), r),
    ensures
        budget == 0 ==> r.0.model() == value.model() && !r.1,
        budget > 0 ==> {
            &&& cut_steps(value.model(), budget as nat, false, steps)
            &&& steps.last() == r.0.model()
            &&& r.1 == (steps.len() > 1)
            &&& ser_len(r.0.model()) <= budget || nothing_to_cut(r.0.model(), false) || steps.len()
                == 257
        },
{
    let steps = law_each_cut_is_needed(value.model(), budget as nat, false, 256);
    lemma_any_cut(value.model(), budget as nat, false, steps);
    steps
}

proof fn lemma_any_cut(v: JsonModel, budget: nat, only_lists: bool, steps: Seq<JsonModel>)
    requires
        cut_steps(v, budget, only_lists, steps),
        ser_len(steps.last()) <= budget || nothing_to_cut(steps.last(), only_lists) || steps.len()
            > 1,
    ensures
        steps.len() > 1 <==> ser_len(v) > budget && heaviest(v, only_lists) is Some,
{
    law_largest_section_is_cut(v, only_lists);
    if steps.len() > 1 {
        assert(needed_cut(steps, 1, budget, only_lists));
        let x = choose|x: Section|
            {
                &&& #[trigger] names_section(v, x, only_lists)
                &&& forall|path: Seq<int>, entry: int|
                    #[trigger] section_at(v, path, entry, only_lists) matches Some(w) ==> ser_len(w)
                        <= x.size
                &&& steps[1] == cut_at(
                    v,
                    x.path,
                    x.entry,
                    if only_lists {
                        Cut::Halve
                    } else {
                        Cut::Omit(x.count as usize)
                    },
                )
            };
        assert(section_at(v, x.path, x.entry, only_lists) is Some);
    } else if let Some(x) = heaviest(v, only_lists) {
        assert(section_at(v, x.path, x.entry, only_lists) is Some);
    }
}

/// A search response that fits, or that has no budget, stays as it is, and nothing is reported.
pub proof fn law_small_search_response_stays(
    value: Json,
    budget: usize,
    r: (Json, SearchShrink),
)
    requires
        value.wf(),
        call_ensures(shrink_search_results, (value, budget), r),
        budget == 0 || ser_len(value.model()) <= budget,
    ensures
        r.0.model() == value.model(),
        !r.1.sections_omitted,
        !r.1.results_shortened,
        r.1.full_bytes == ser_len(value.model()) as usize,
{
}

} // verus!
