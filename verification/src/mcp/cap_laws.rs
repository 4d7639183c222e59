//! What stays of a response that is cut down.

use crate::json::{
    key_index, lemma_key_index, lemma_ordered_items, lemma_ordered_values, lemma_same_keys,
    lemma_value_put, lemma_value_update, lemma_value_without, number_of, ordered_deep,
    ordered_items, ordered_values, put, ser_len, value_at, without, JsonModel,
};
use crate::mcp::cap::{
    cut_at, cut_down, cut_entry, cuttable, half, heaviest, is_mark, law_shortened_list_is_marked,
    lemma_cut_ordered, lemma_heaviest_place, lemma_only_entry, section_in, Cut, Section,
};
use vstd::prelude::*;
use vstd::string::*;

verus! {

/// Whether a key is one of the marks that a cut may set over what stood there before.
pub open spec fn overwritten(key: Seq<char>, only_lists: bool) -> bool {
    if only_lists {
        exists|k: Seq<char>| key == #[trigger] (k + "_truncated"@)
    } else {
        is_mark(key)
    }
}

/// Whether a key is one of the marks that a cut sets.
pub open spec fn set_by_cut(key: Seq<char>, only_lists: bool) -> bool {
    if only_lists {
        exists|k: Seq<char>| key == #[trigger] (k + "_truncated"@) || key == k + "_total"@
    } else {
        is_mark(key)
    }
}

/// Whether no key is new but for the marks of a cut.
pub open spec fn nothing_new(
    x: Seq<(Seq<char>, JsonModel)>,
    y: Seq<(Seq<char>, JsonModel)>,
    only_lists: bool,
) -> bool {
    forall|k: Seq<char>|
        #[trigger] value_at(y, k) is Some ==> value_at(x, k) is Some || set_by_cut(k, only_lists)
}

/// Whether a section may be left out: it is a list or an object, and the mark says that it was.
pub open spec fn left_out(
    key: Seq<char>,
    value: JsonModel,
    y: Seq<(Seq<char>, JsonModel)>,
) -> bool {
    (value is Array || value is Object) && value_at(y, key + "_omitted"@) == Some(
        JsonModel::Bool(true),
    )
}

/// Whether the marks for sections left out are still there.
pub open spec fn marks_stay(
    x: Seq<(Seq<char>, JsonModel)>,
    y: Seq<(Seq<char>, JsonModel)>,
) -> bool {
    forall|k: Seq<char>|
        value_at(x, k + "_omitted"@) == Some(JsonModel::Bool(true)) ==> #[trigger] value_at(
            y,
            k + "_omitted"@,
        ) == Some(JsonModel::Bool(true))
}

/// Whether `b` is what stays of `a` after cuts. Values that are neither lists nor objects are
/// the same. Where only lists are cut, a list keeps its first items, at least one where it had
/// any, and an object keeps its keys. Otherwise a list keeps all its items, and an object its
/// keys but those of the lists and objects that are marked as left out. No key is new, and
/// none has another value, but for the marks of the cuts.
pub open spec fn stays(a: JsonModel, b: JsonModel, only_lists: bool) -> bool
    decreases a, 0int,
{
    match a {
        JsonModel::Array(x) => match b {
            JsonModel::Array(y) => {
                &&& y.len() <= x.len()
                &&& x.len() >= 1 ==> y.len() >= 1
                &&& !only_lists ==> y.len() == x.len()
                &&& items_stay(x, y, y.len() as int, only_lists)
            },
            _ => false,
        },
        JsonModel::Object(x) => match b {
            JsonModel::Object(y) => {
                &&& marks_stay(x, y)
                &&& nothing_new(x, y, only_lists)
                &&& entries_stay(x, y, x.len() as int, only_lists)
            },
            _ => false,
        },
        _ => a == b,
    }
}

/// Whether the first `n` items stay.
pub open spec fn items_stay(
    x: Seq<JsonModel>,
    y: Seq<JsonModel>,
    n: int,
    only_lists: bool,
) -> bool
    decreases x, n,
{
    if n <= 0 || n > x.len() {
        true
    } else {
        items_stay(x, y, n - 1, only_lists) && stays(x[n - 1], y[n - 1], only_lists)
    }
}

/// Whether the first `n` entries stay.
pub open spec fn entries_stay(
    x: Seq<(Seq<char>, JsonModel)>,
    y: Seq<(Seq<char>, JsonModel)>,
    n: int,
    only_lists: bool,
) -> bool
    decreases x, n,
{
    if n <= 0 || n > x.len() {
        true
    } else {
        &&& entries_stay(x, y, n - 1, only_lists)
        &&& overwritten(x[n - 1].0, only_lists) || (match value_at(y, x[n - 1].0) {
            Some(w) => stays(x[n - 1].1, w, only_lists),
            None => !only_lists && left_out(x[n - 1].0, x[n - 1].1, y),
        })
    }
}

/// Whether one entry stays.
pub open spec fn entry_stays(
    e: (Seq<char>, JsonModel),
    y: Seq<(Seq<char>, JsonModel)>,
    only_lists: bool,
) -> bool {
    overwritten(e.0, only_lists) || (match value_at(y, e.0) {
        Some(w) => stays(e.1, w, only_lists),
        None => !only_lists && left_out(e.0, e.1, y),
    })
}

/// The first `n` items stay where each of them does.
proof fn lemma_items_stay(x: Seq<JsonModel>, y: Seq<JsonModel>, n: int, only_lists: bool)
    requires
        0 <= n <= x.len(),
    ensures
        items_stay(x, y, n, only_lists) <==> forall|i: int|
            0 <= i < n ==> stays(#[trigger] x[i], y[i], only_lists),
    decreases n,
{
    if n > 0 {
        lemma_items_stay(x, y, n - 1, only_lists);
        assert(items_stay(x, y, n, only_lists) == (items_stay(x, y, n - 1, only_lists) && stays(
            x[n - 1],
            y[n - 1],
            only_lists,
        )));
    }
}

/// The first `n` entries stay where each of them does.
proof fn lemma_entries_stay(
    x: Seq<(Seq<char>, JsonModel)>,
    y: Seq<(Seq<char>, JsonModel)>,
    n: int,
    only_lists: bool,
)
    requires
        0 <= n <= x.len(),
    ensures
        entries_stay(x, y, n, only_lists) <==> forall|i: int|
            0 <= i < n ==> entry_stays(#[trigger] x[i], y, only_lists),
    decreases n,
{
    if n > 0 {
        lemma_entries_stay(x, y, n - 1, only_lists);
        assert(entries_stay(x, y, n, only_lists) == (entries_stay(x, y, n - 1, only_lists)
            && entry_stays(x[n - 1], y, only_lists)));
    }
}

/// A value that is not cut stays.
proof fn lemma_stays_same(a: JsonModel, only_lists: bool)
    requires
        ordered_deep(a),
    ensures
        stays(a, a, only_lists),
    decreases a,
{
    match a {
        JsonModel::Array(x) => {
            assert(ordered_items(x, x.len() as int));
            lemma_ordered_items(x, x.len() as int);
            assert forall|i: int| 0 <= i < x.len() implies stays(
                #[trigger] x[i],
                x[i],
                only_lists,
            ) by {
                assert(ordered_deep(x[i]));
                lemma_stays_same(x[i], only_lists);
            }
            lemma_items_stay(x, x, x.len() as int, only_lists);
        },
        JsonModel::Object(x) => {
            lemma_ordered_values(x, x.len() as int);
            assert forall|i: int| 0 <= i < x.len() implies entry_stays(
                #[trigger] x[i],
                x,
                only_lists,
            ) by {
                assert(ordered_deep(x[i].1));
                lemma_only_entry(x, i);
                lemma_stays_same(x[i].1, only_lists);
            }
            lemma_entries_stay(x, x, x.len() as int, only_lists);
        },
        _ => {},
    }
}

/// What stays of what stays of a value stays of it.
proof fn lemma_stays_on(a: JsonModel, b: JsonModel, c: JsonModel, only_lists: bool)
    requires
        stays(a, b, only_lists),
        stays(b, c, only_lists),
    ensures
        stays(a, c, only_lists),
    decreases a,
{
    match a {
        JsonModel::Array(x) => {
            let y = b->Array_0;
            let z = c->Array_0;
            lemma_items_stay(x, y, y.len() as int, only_lists);
            lemma_items_stay(y, z, z.len() as int, only_lists);
            assert forall|i: int| 0 <= i < z.len() implies stays(
                #[trigger] x[i],
                z[i],
                only_lists,
            ) by {
                assert(stays(x[i], y[i], only_lists));
                assert(stays(y[i], z[i], only_lists));
                lemma_stays_on(x[i], y[i], z[i], only_lists);
            }
            lemma_items_stay(x, z, z.len() as int, only_lists);
        },
        JsonModel::Object(x) => {
            let y = b->Object_0;
            let z = c->Object_0;
            lemma_entries_stay(x, y, x.len() as int, only_lists);
            lemma_entries_stay(y, z, y.len() as int, only_lists);
            assert(marks_stay(x, z)) by {
                assert forall|k: Seq<char>|
                    value_at(x, k + "_omitted"@) == Some(
                        JsonModel::Bool(true),
                    ) implies #[trigger] value_at(z, k + "_omitted"@) == Some(
                    JsonModel::Bool(true),
                ) by {
                    assert(value_at(y, k + "_omitted"@) == Some(JsonModel::Bool(true)));
                }
            }
            assert(nothing_new(x, z, only_lists)) by {
                assert forall|k: Seq<char>| #[trigger] value_at(z, k) is Some implies value_at(
                    x,
                    k,
                ) is Some || set_by_cut(k, only_lists) by {
                    assert(value_at(y, k) is Some || set_by_cut(k, only_lists));
                }
            }
            assert forall|i: int| 0 <= i < x.len() implies entry_stays(
                #[trigger] x[i],
                z,
                only_lists,
            ) by {
                assert(entry_stays(x[i], y, only_lists));
                let key = x[i].0;
                if !overwritten(key, only_lists) {
                    lemma_key_index(y, key, 0);
                    match key_index(y, key) {
                        Some(j) => {
                            assert(y[j].0 == key);
                            assert(entry_stays(y[j], z, only_lists));
                            if let Some(w) = value_at(z, key) {
                                lemma_stays_on(x[i].1, y[j].1, w, only_lists);
                            }
                        },
                        None => {
                            assert(value_at(y, key) is None);
                            assert(value_at(z, key) is None);
                            assert(left_out(key, x[i].1, z));
                        },
                    }
                }
            }
            lemma_entries_stay(x, z, x.len() as int, only_lists);
        },
        _ => {},
    }
}

/// The marks end in different letters.
proof fn lemma_marks_differ(k: Seq<char>, key: Seq<char>)
    ensures
        k + "_omitted"@ != key + "_count"@,
{
    reveal_strlit("_omitted");
    reveal_strlit("_count");
    assert((k + "_omitted"@).last() == 'd');
    assert((key + "_count"@).last() == 't');
}

/// What stays of an object after an entry was left out.
proof fn lemma_omitted_stays(s: Seq<(Seq<char>, JsonModel)>, entry: int, count: usize)
    requires
        ordered_deep(JsonModel::Object(s)),
        0 <= entry < s.len(),
        cuttable(s[entry].1, false) is Some,
    ensures
        stays(
            JsonModel::Object(s),
            JsonModel::Object(cut_entry(s, entry, Cut::Omit(count))),
            false,
        ),
{
    let key = s[entry].0;
    let omitted = key + "_omitted"@;
    let counted = key + "_count"@;
    let number = JsonModel::Number(number_of(count as u64));
    let gone = without(s, key);
    let one = put(gone, omitted, JsonModel::Bool(true));
    let r = cut_entry(s, entry, Cut::Omit(count));
    assert(is_mark(omitted));
    assert(is_mark(counted)) by {
        assert(counted == key + "_omitted"@ || counted == key + "_count"@);
    }
    assert forall|x: Seq<char>| #[trigger] value_at(r, x) == (if x == counted {
        Some(number)
    } else if x == omitted {
        Some(JsonModel::Bool(true))
    } else if x == key {
        None
    } else {
        value_at(s, x)
    }) by {
        lemma_value_without(s, key, x);
        lemma_value_put(gone, omitted, JsonModel::Bool(true), x);
        lemma_value_put(one, counted, number, x);
    }
    assert forall|k: Seq<char>|
        value_at(s, k + "_omitted"@) == Some(JsonModel::Bool(true)) implies #[trigger] value_at(
        r,
        k + "_omitted"@,
    ) == Some(JsonModel::Bool(true)) by {
        lemma_marks_differ(k, key);
        lemma_only_entry(s, entry);
    }
    assert(marks_stay(s, r));
    assert(nothing_new(s, r, false));
    lemma_marks_differ(key, key);
    lemma_ordered_values(s, s.len() as int);
    assert(ordered_values(s, s.len() as int));
    assert forall|i: int| 0 <= i < s.len() implies entry_stays(#[trigger] s[i], r, false) by {
        lemma_only_entry(s, i);
        lemma_only_entry(s, entry);
        assert(ordered_deep(s[i].1));
        if i == entry {
            assert(left_out(key, s[i].1, r));
        } else {
            lemma_stays_same(s[i].1, false);
        }
    }
    lemma_entries_stay(s, r, s.len() as int, false);
}

/// What stays of an object after a list in it was shortened.
proof fn lemma_halved_stays(s: Seq<(Seq<char>, JsonModel)>, entry: int)
    requires
        ordered_deep(JsonModel::Object(s)),
        0 <= entry < s.len(),
        cuttable(s[entry].1, true) is Some,
    ensures
        stays(JsonModel::Object(s), JsonModel::Object(cut_entry(s, entry, Cut::Halve)), true),
{
    let key = s[entry].0;
    let a = s[entry].1->Array_0;
    let list = JsonModel::Array(a.take(half(a.len()) as int));
    let total = key + "_total"@;
    let truncated = key + "_truncated"@;
    let number = JsonModel::Number(number_of(a.len() as u64));
    let shorter = s.update(entry, (key, list));
    let with_total = if key_index(shorter, total) is Some {
        shorter
    } else {
        put(shorter, total, number)
    };
    let r = cut_entry(s, entry, Cut::Halve);
    law_shortened_list_is_marked(s, entry, a);
    lemma_only_entry(s, entry);
    assert(set_by_cut(truncated, true));
    assert(set_by_cut(total, true)) by {
        assert(total == key + "_truncated"@ || total == key + "_total"@);
    }
    assert forall|x: Seq<char>| x != key && x != truncated && (x != total || value_at(
        s,
        x,
    ) is Some) implies #[trigger] value_at(r, x) == value_at(s, x) by {
        lemma_value_update(s, entry, list, x);
        lemma_value_put(shorter, total, number, x);
        lemma_value_put(with_total, truncated, JsonModel::Bool(true), x);
    }
    assert forall|k: Seq<char>|
        value_at(s, k + "_omitted"@) == Some(JsonModel::Bool(true)) implies #[trigger] value_at(
        r,
        k + "_omitted"@,
    ) == Some(JsonModel::Bool(true)) by {}
    assert(marks_stay(s, r));
    assert(nothing_new(s, r, true));
    lemma_ordered_values(s, s.len() as int);
    assert(ordered_values(s, s.len() as int));
    assert forall|i: int| 0 <= i < s.len() implies entry_stays(#[trigger] s[i], r, true) by {
        lemma_only_entry(s, i);
        assert(ordered_deep(s[i].1));
        lemma_stays_same(s[i].1, true);
        if i == entry {
            let b = a.take(half(a.len()) as int);
            lemma_items_stay(a, a, a.len() as int, true);
            lemma_items_stay(a, b, b.len() as int, true);
            assert(stays(s[i].1, list, true));
        }
    }
    lemma_entries_stay(s, r, s.len() as int, true);
}

/// What stays of a value after one cut.
proof fn lemma_cut_stays(v: JsonModel, x: Section, only_lists: bool, cut: Cut)
    requires
        ordered_deep(v),
        section_in(v, x, only_lists),
        only_lists ==> cut is Halve,
        !only_lists ==> cut is Omit,
    ensures
        stays(v, cut_at(v, x.path, x.entry, cut), only_lists),
    decreases x.path.len(),
{
    let inside = Section { path: x.path.skip(1), ..x };
    match v {
        JsonModel::Array(s) => {
            let p = x.path[0];
            let inner = cut_at(s[p], x.path.skip(1), x.entry, cut);
            let u = s.update(p, inner);
            assert(ordered_items(s, s.len() as int));
            lemma_ordered_items(s, s.len() as int);
            assert(ordered_deep(s[p]));
            lemma_cut_stays(s[p], inside, only_lists, cut);
            assert forall|i: int| 0 <= i < s.len() implies stays(
                #[trigger] s[i],
                u[i],
                only_lists,
            ) by {
                assert(ordered_deep(s[i]));
                if i != p {
                    lemma_stays_same(s[i], only_lists);
                }
            }
            lemma_items_stay(s, u, u.len() as int, only_lists);
        },
        JsonModel::Object(s) => {
            if x.path.len() == 0 {
                match cut {
                    Cut::Omit(count) => {
                        lemma_omitted_stays(s, x.entry, count);
                    },
                    Cut::Halve => {
                        lemma_halved_stays(s, x.entry);
                    },
                }
            } else {
                let p = x.path[0];
                let inner = cut_at(s[p].1, x.path.skip(1), x.entry, cut);
                let u = s.update(p, (s[p].0, inner));
                lemma_ordered_values(s, s.len() as int);
                assert(ordered_deep(s[p].1));
                lemma_cut_stays(s[p].1, inside, only_lists, cut);
                assert forall|k: Seq<char>| #[trigger] key_index(u, k) == key_index(s, k) by {
                    lemma_same_keys(s, u, k, 0);
                }
                assert forall|k: Seq<char>|
                    value_at(s, k + "_omitted"@) == Some(
                        JsonModel::Bool(true),
                    ) implies #[trigger] value_at(u, k + "_omitted"@) == Some(
                    JsonModel::Bool(true),
                ) by {
                    lemma_key_index(s, k + "_omitted"@, 0);
                    assert(key_index(u, k + "_omitted"@) == key_index(s, k + "_omitted"@));
                }
                assert(marks_stay(s, u));
                assert forall|k: Seq<char>| #[trigger] value_at(u, k) is Some implies value_at(
                    s,
                    k,
                ) is Some by {
                    assert(key_index(u, k) == key_index(s, k));
                }
                assert(nothing_new(s, u, only_lists));
                assert forall|i: int| 0 <= i < s.len() implies entry_stays(
                    #[trigger] s[i],
                    u,
                    only_lists,
                ) by {
                    assert(ordered_deep(s[i].1));
                    lemma_only_entry(s, i);
                    assert(key_index(u, s[i].0) == Some(i));
                    if i != p {
                        lemma_stays_same(s[i].1, only_lists);
                    }
                }
                lemma_entries_stay(s, u, s.len() as int, only_lists);
            }
        },
        _ => {},
    }
}

/// What stays of a value that is cut down.
proof fn lemma_cut_down_stays(v: JsonModel, budget: nat, only_lists: bool, n: nat)
    requires
        ordered_deep(v),
    ensures
        stays(v, cut_down(v, budget, only_lists, n), only_lists),
    decreases n,
{
    lemma_stays_same(v, only_lists);
    if n > 0 && ser_len(v) > budget {
        if let Some(s) = heaviest(v, only_lists) {
            let cut = if only_lists {
                Cut::Halve
            } else {
                Cut::Omit(s.count as usize)
            };
            let next = cut_at(v, s.path, s.entry, cut);
            lemma_heaviest_place(v, only_lists);
            lemma_cut_stays(v, s, only_lists, cut);
            lemma_cut_ordered(v, s.path, s.entry, cut);
            lemma_cut_down_stays(next, budget, only_lists, (n - 1) as nat);
            lemma_stays_on(
                v,
                next,
                cut_down(next, budget, only_lists, (n - 1) as nat),
                only_lists,
            );
        }
    }
}

/// Where lists are shortened to meet a budget, nothing else is touched: texts, numbers and
/// flags stay whole, every object keeps its keys, and every list its first items, at least
/// one where it had any.
pub proof fn law_only_lists_are_shortened(v: JsonModel, budget: nat, n: nat)
    requires
        ordered_deep(v),
    ensures
        stays(v, cut_down(v, budget, true, n), true),
{
    lemma_cut_down_stays(v, budget, true, n);
}

/// Where sections are left out to meet a budget, each of them is either there as a whole,
/// but for the sections inside it that are left out in turn, or it is marked as left out: no
/// list is shown in part.
pub proof fn law_sections_go_as_a_whole(v: JsonModel, budget: nat, n: nat)
    requires
        ordered_deep(v),
    ensures
        stays(v, cut_down(v, budget, false, n), false),
{
    lemma_cut_down_stays(v, budget, false, n);
}

} // verus!
