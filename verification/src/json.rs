//! JSON values.

use crate::text::{chars_of, str_eq};
use vstd::prelude::*;
use vstd::string::*;
use vstd::utf8::*;

verus! {

#[verifier::external_type_specification]
#[verifier::external_body]
pub struct ExValue(serde_json::Value);

#[verifier::external_type_specification]
#[verifier::external_body]
pub struct ExNumber(serde_json::Number);

/// The model of a JSON value. A number stays the number that `serde_json` holds.
pub enum JsonModel {
    Null,
    Bool(bool),
    Number(serde_json::Number),
    Text(Seq<char>),
    Array(Seq<JsonModel>),
    Object(Seq<(Seq<char>, JsonModel)>),
}

/// Whether one text stands before another, character by character.
pub open spec fn before(a: Seq<char>, b: Seq<char>) -> bool
    decreases a.len(),
{
    if b.len() == 0 {
        false
    } else if a.len() == 0 {
        true
    } else if a[0] != b[0] {
        a[0] < b[0]
    } else {
        before(a.skip(1), b.skip(1))
    }
}

/// No text stands before itself, and of two different texts one stands before the other.
pub proof fn lemma_before_total(a: Seq<char>, b: Seq<char>)
    ensures
        !before(a, a),
        before(a, b) || before(b, a) || a == b,
        !(before(a, b) && before(b, a)),
    decreases a.len(),
{
    if a.len() > 0 && b.len() > 0 && a[0] == b[0] {
        lemma_before_total(a.skip(1), b.skip(1));
        if a.skip(1) == b.skip(1) {
            assert(a =~= seq![a[0]] + a.skip(1));
            assert(b =~= seq![b[0]] + b.skip(1));
        }
    }
    if a.len() > 0 {
        lemma_before_total(a.skip(1), a.skip(1));
    }
    if a.len() == 0 && b.len() == 0 {
        assert(a =~= b);
    }
}

/// The order of texts is transitive.
pub proof fn lemma_before_transitive(a: Seq<char>, b: Seq<char>, c: Seq<char>)
    requires
        before(a, b),
        before(b, c),
    ensures
        before(a, c),
    decreases a.len(),
{
    if a.len() > 0 && b.len() > 0 && c.len() > 0 && a[0] == b[0] && b[0] == c[0] {
        lemma_before_transitive(a.skip(1), b.skip(1), c.skip(1));
    }
}

/// Whether `a` stands before `b`.
pub fn stands_before(a: &str, b: &str) -> (r: bool)
    ensures
        r == before(a@, b@),
{
    let x = chars_of(a);
    let y = chars_of(b);
    let mut i: usize = 0;
    assert(x@.skip(0) == x@);
    assert(y@.skip(0) == y@);
    while i < x.len() && i < y.len() && x[i] == y[i]
        invariant
            i <= x@.len(),
            i <= y@.len(),
            before(x@, y@) == before(x@.skip(i as int), y@.skip(i as int)),
        decreases x.len() - i,
    {
        assert(x@.skip(i as int).skip(1) == x@.skip(i + 1));
        assert(y@.skip(i as int).skip(1) == y@.skip(i + 1));
        i += 1;
    }
    if i >= y.len() {
        false
    } else if i >= x.len() {
        true
    } else {
        x[i] < y[i]
    }
}

/// Whether the keys of an object stand in order, each of them once.
pub open spec fn ordered(s: Seq<(Seq<char>, JsonModel)>) -> bool {
    forall|i: int, j: int| 0 <= i < j < s.len() ==> before(#[trigger] s[i].0, #[trigger] s[j].0)
}

/// Whether the keys of every object inside stand in order.
pub open spec fn ordered_deep(v: JsonModel) -> bool
    decreases v, 0int,
{
    match v {
        JsonModel::Array(s) => ordered_items(s, s.len() as int),
        JsonModel::Object(s) => ordered(s) && ordered_values(s, s.len() as int),
        _ => true,
    }
}

/// Whether the keys of every object inside each of the first `n` values stand in order.
pub open spec fn ordered_items(s: Seq<JsonModel>, n: int) -> bool
    decreases s, n,
{
    if n <= 0 || n > s.len() {
        true
    } else {
        ordered_items(s, n - 1) && ordered_deep(s[n - 1])
    }
}

/// Whether the keys of every object inside the value of each of the first `n` entries stand
/// in order.
pub open spec fn ordered_values(s: Seq<(Seq<char>, JsonModel)>, n: int) -> bool
    decreases s, n,
{
    if n <= 0 || n > s.len() {
        true
    } else {
        ordered_values(s, n - 1) && ordered_deep(s[n - 1].1)
    }
}

/// The keys stand in order in the first `n` values where they do in each of them.
pub proof fn lemma_ordered_items(s: Seq<JsonModel>, n: int)
    requires
        0 <= n <= s.len(),
    ensures
        ordered_items(s, n) <==> forall|i: int| 0 <= i < n ==> #[trigger] ordered_deep(s[i]),
    decreases n,
{
    if n > 0 {
        lemma_ordered_items(s, n - 1);
        assert(ordered_items(s, n) == (ordered_items(s, n - 1) && ordered_deep(s[n - 1])));
    }
}

/// The keys stand in order in the first `n` entries where they do in each of them.
pub proof fn lemma_ordered_values(s: Seq<(Seq<char>, JsonModel)>, n: int)
    requires
        0 <= n <= s.len(),
    ensures
        ordered_values(s, n) <==> forall|i: int| 0 <= i < n ==> #[trigger] ordered_deep(s[i].1),
    decreases n,
{
    if n > 0 {
        lemma_ordered_values(s, n - 1);
        assert(ordered_values(s, n) == (ordered_values(s, n - 1) && ordered_deep(s[n - 1].1)));
    }
}

/// The entries with `key` set to `value`: in place where the key is there, else where the
/// order of the keys has it.
pub open spec fn put(
    s: Seq<(Seq<char>, JsonModel)>,
    key: Seq<char>,
    value: JsonModel,
) -> Seq<(Seq<char>, JsonModel)>
    decreases s.len(),
{
    if s.len() == 0 {
        seq![(key, value)]
    } else if s[0].0 == key {
        seq![(key, value)] + s.skip(1)
    } else if before(key, s[0].0) {
        seq![(key, value)] + s
    } else {
        seq![s[0]] + put(s.skip(1), key, value)
    }
}

/// The index of a key.
pub open spec fn key_index(s: Seq<(Seq<char>, JsonModel)>, key: Seq<char>) -> Option<int> {
    key_index_from(s, key, 0)
}

/// As [`key_index`], among the entries from `i` on.
pub open spec fn key_index_from(
    s: Seq<(Seq<char>, JsonModel)>,
    key: Seq<char>,
    i: int,
) -> Option<int>
    decreases s.len() - i,
{
    if i < 0 || i >= s.len() {
        None
    } else if s[i].0 == key {
        Some(i)
    } else {
        key_index_from(s, key, i + 1)
    }
}

/// Where a key was found, it stands.
pub proof fn lemma_key_index(s: Seq<(Seq<char>, JsonModel)>, key: Seq<char>, i: int)
    ensures
        key_index_from(s, key, i) matches Some(k) ==> 0 <= k < s.len() && i <= k && s[k].0 == key,
        0 <= i && key_index_from(s, key, i) is None ==> forall|j: int|
            i <= j < s.len() ==> (#[trigger] s[j]).0 != key,
    decreases s.len() - i,
{
    if 0 <= i < s.len() && s[i].0 != key {
        lemma_key_index(s, key, i + 1);
    }
}

/// The value of a key.
pub open spec fn value_at(s: Seq<(Seq<char>, JsonModel)>, key: Seq<char>) -> Option<JsonModel> {
    match key_index(s, key) {
        Some(k) => Some(s[k].1),
        None => None,
    }
}

/// The value of a key in an object.
pub open spec fn member(v: JsonModel, key: Seq<char>) -> Option<JsonModel> {
    match v {
        JsonModel::Object(s) => value_at(s, key),
        _ => None,
    }
}

/// The entries without a key.
pub open spec fn without(s: Seq<(Seq<char>, JsonModel)>, key: Seq<char>) -> Seq<
    (Seq<char>, JsonModel),
> {
    match key_index(s, key) {
        Some(k) => s.remove(k),
        None => s,
    }
}

/// Entries with the same keys hold a key at the same place.
pub proof fn lemma_same_keys(
    s: Seq<(Seq<char>, JsonModel)>,
    t: Seq<(Seq<char>, JsonModel)>,
    key: Seq<char>,
    i: int,
)
    requires
        s.len() == t.len(),
        forall|j: int| 0 <= j < s.len() ==> (#[trigger] s[j]).0 == t[j].0,
    ensures
        key_index_from(s, key, i) == key_index_from(t, key, i),
    decreases s.len() - i,
{
    if 0 <= i < s.len() {
        assert(s[i].0 == t[i].0);
        lemma_same_keys(s, t, key, i + 1);
    }
}

/// A key is found at the first entry, or else among the rest.
pub proof fn lemma_value_cons(s: Seq<(Seq<char>, JsonModel)>, key: Seq<char>)
    requires
        s.len() > 0,
    ensures
        value_at(s, key) == (if s[0].0 == key {
            Some(s[0].1)
        } else {
            value_at(s.skip(1), key)
        }),
{
    lemma_index_shift(s, key, 0);
    lemma_key_index(s.skip(1), key, 0);
}

proof fn lemma_index_shift(s: Seq<(Seq<char>, JsonModel)>, key: Seq<char>, i: int)
    requires
        s.len() > 0,
        0 <= i,
    ensures
        key_index_from(s, key, i + 1) == (match key_index_from(s.skip(1), key, i) {
            Some(k) => Some(k + 1),
            None => None,
        }),
    decreases s.len() - i,
{
    if i + 1 < s.len() {
        assert(s.skip(1)[i] == s[i + 1]);
        lemma_index_shift(s, key, i + 1);
    }
}

/// Setting a key sets that key alone.
pub proof fn lemma_value_put(
    s: Seq<(Seq<char>, JsonModel)>,
    key: Seq<char>,
    value: JsonModel,
    x: Seq<char>,
)
    ensures
        value_at(put(s, key, value), x) == (if x == key {
            Some(value)
        } else {
            value_at(s, x)
        }),
    decreases s.len(),
{
    let p = put(s, key, value);
    lemma_value_cons(p, x);
    if s.len() == 0 {
        assert(p.skip(1) =~= s);
    } else if s[0].0 == key {
        lemma_value_cons(s, x);
        assert(p.skip(1) =~= s.skip(1));
    } else if before(key, s[0].0) {
        assert(p.skip(1) =~= s);
    } else {
        lemma_value_cons(s, x);
        lemma_value_put(s.skip(1), key, value, x);
        assert(p.skip(1) =~= put(s.skip(1), key, value));
    }
}

/// Taking a key out takes out that key alone.
pub proof fn lemma_value_without(s: Seq<(Seq<char>, JsonModel)>, key: Seq<char>, x: Seq<char>)
    requires
        ordered(s),
    ensures
        value_at(without(s, key), x) == (if x == key {
            None
        } else {
            value_at(s, x)
        }),
{
    let w = without(s, key);
    lemma_key_index(s, key, 0);
    lemma_key_index(s, x, 0);
    lemma_key_index(w, x, 0);
    lemma_before_total(key, key);
    lemma_before_total(x, x);
    if let Some(k) = key_index(s, key) {
        assert forall|i: int| 0 <= i < w.len() implies #[trigger] w[i] == s[if i < k {
            i
        } else {
            i + 1
        }] by {}
        if x == key {
            if let Some(i) = key_index(w, x) {
                let a = if i < k {
                    i
                } else {
                    i + 1
                };
                assert(s[a].0 == s[k].0);
                if a < k {
                    assert(before(s[a].0, s[k].0));
                } else {
                    assert(before(s[k].0, s[a].0));
                }
            }
        } else {
            match (key_index(s, x), key_index(w, x)) {
                (Some(a), Some(i)) => {
                    let b = if i < k {
                        i
                    } else {
                        i + 1
                    };
                    assert(s[a].0 == s[b].0);
                    if a < b {
                        assert(before(s[a].0, s[b].0));
                    } else if b < a {
                        assert(before(s[b].0, s[a].0));
                    }
                },
                (Some(a), None) => {
                    let i = if a < k {
                        a
                    } else {
                        a - 1
                    };
                    assert(w[i] == s[a]);
                },
                (None, Some(i)) => {
                    assert(w[i].0 == x);
                },
                (None, None) => {},
            }
        }
    }
}

/// Replacing the value of an entry leaves the other keys as they are.
pub proof fn lemma_value_update(
    s: Seq<(Seq<char>, JsonModel)>,
    i: int,
    value: JsonModel,
    x: Seq<char>,
)
    requires
        0 <= i < s.len(),
        x != s[i].0,
    ensures
        value_at(s.update(i, (s[i].0, value)), x) == value_at(s, x),
{
    lemma_same_keys(s, s.update(i, (s[i].0, value)), x, 0);
    lemma_key_index(s, x, 0);
}

/// Setting a key in ordered entries keeps the order and touches no other key.
pub proof fn lemma_put(s: Seq<(Seq<char>, JsonModel)>, key: Seq<char>, value: JsonModel)
    requires
        ordered(s),
    ensures
        ordered(put(s, key, value)),
        put(s, key, value).len() >= 1,
        forall|i: int|
            0 <= i < put(s, key, value).len() ==> (#[trigger] put(s, key, value)[i] == (key, value)
                || s.contains(put(s, key, value)[i])),
    decreases s.len(),
{
    let p = put(s, key, value);
    if s.len() == 0 {
    } else if s[0].0 == key {
        assert forall|i: int, j: int| 0 <= i < j < p.len() implies before(
            #[trigger] p[i].0,
            #[trigger] p[j].0,
        ) by {
            assert(before(s[i].0, s[j].0));
        }
        assert forall|i: int| 0 <= i < p.len() implies (#[trigger] p[i] == (key, value)
            || s.contains(p[i])) by {
            if i > 0 {
                assert(p[i] == s[i]);
            }
        }
    } else if before(key, s[0].0) {
        assert forall|i: int, j: int| 0 <= i < j < p.len() implies before(
            #[trigger] p[i].0,
            #[trigger] p[j].0,
        ) by {
            if i == 0 {
                if j > 1 {
                    assert(before(s[0].0, s[j - 1].0));
                    lemma_before_transitive(key, s[0].0, s[j - 1].0);
                }
            } else {
                assert(before(s[i - 1].0, s[j - 1].0));
            }
        }
        assert forall|i: int| 0 <= i < p.len() implies (#[trigger] p[i] == (key, value)
            || s.contains(p[i])) by {
            if i > 0 {
                assert(p[i] == s[i - 1]);
            }
        }
    } else {
        let rest = s.skip(1);
        assert(ordered(rest)) by {
            assert forall|i: int, j: int| 0 <= i < j < rest.len() implies before(
                #[trigger] rest[i].0,
                #[trigger] rest[j].0,
            ) by {
                assert(before(s[i + 1].0, s[j + 1].0));
            }
        }
        lemma_put(rest, key, value);
        let q = put(rest, key, value);
        lemma_before_total(key, s[0].0);
        assert forall|i: int, j: int| 0 <= i < j < p.len() implies before(
            #[trigger] p[i].0,
            #[trigger] p[j].0,
        ) by {
            if i == 0 {
                assert(p[j] == q[j - 1]);
                if q[j - 1] != (key, value) {
                    let k = choose|k: int| 0 <= k < rest.len() && rest[k] == q[j - 1];
                    assert(before(s[0].0, s[k + 1].0));
                }
            } else {
                assert(before(q[i - 1].0, q[j - 1].0));
            }
        }
        assert forall|i: int| 0 <= i < p.len() implies (#[trigger] p[i] == (key, value)
            || s.contains(p[i])) by {
            if i > 0 {
                assert(p[i] == q[i - 1]);
                if q[i - 1] != (key, value) {
                    let k = choose|k: int| 0 <= k < rest.len() && rest[k] == q[i - 1];
                    assert(s[k + 1] == p[i]);
                }
            } else {
                assert(p[i] == s[0]);
            }
        }
    }
}

/// Taking a key out of ordered entries keeps the order.
pub proof fn lemma_without(s: Seq<(Seq<char>, JsonModel)>, key: Seq<char>)
    requires
        ordered(s),
    ensures
        ordered(without(s, key)),
        forall|i: int|
            0 <= i < without(s, key).len() ==> s.contains(#[trigger] without(s, key)[i]),
{
    lemma_key_index(s, key, 0);
    let w = without(s, key);
    if let Some(k) = key_index(s, key) {
        assert forall|i: int, j: int| 0 <= i < j < w.len() implies before(
            #[trigger] w[i].0,
            #[trigger] w[j].0,
        ) by {
            let a = if i < k {
                i
            } else {
                i + 1
            };
            let b = if j < k {
                j
            } else {
                j + 1
            };
            assert(before(s[a].0, s[b].0));
        }
        assert forall|i: int| 0 <= i < w.len() implies s.contains(#[trigger] w[i]) by {
            let a = if i < k {
                i
            } else {
                i + 1
            };
            assert(w[i] == s[a]);
        }
    }
}

/// The entries with the first `n` of `entries` set one after another.
pub open spec fn put_all(entries: Seq<(Seq<char>, JsonModel)>, n: int) -> Seq<
    (Seq<char>, JsonModel),
>
    decreases n,
{
    if n <= 0 || n > entries.len() {
        Seq::empty()
    } else {
        put(put_all(entries, n - 1), entries[n - 1].0, entries[n - 1].1)
    }
}

/// The entries in the order of their keys; of equal keys the last one counts.
pub open spec fn in_order(entries: Seq<(Seq<char>, JsonModel)>) -> Seq<(Seq<char>, JsonModel)> {
    put_all(entries, entries.len() as int)
}

/// Setting entries one after another gives ordered entries, all of them from among those set.
pub proof fn lemma_put_all(entries: Seq<(Seq<char>, JsonModel)>, n: int)
    requires
        0 <= n <= entries.len(),
    ensures
        ordered(put_all(entries, n)),
        forall|i: int|
            0 <= i < put_all(entries, n).len() ==> entries.contains(
                #[trigger] put_all(entries, n)[i],
            ),
    decreases n,
{
    if n > 0 {
        lemma_put_all(entries, n - 1);
        let s = put_all(entries, n - 1);
        lemma_put(s, entries[n - 1].0, entries[n - 1].1);
        let p = put_all(entries, n);
        assert forall|i: int| 0 <= i < p.len() implies entries.contains(#[trigger] p[i]) by {
            if p[i] == (entries[n - 1].0, entries[n - 1].1) {
                assert(p[i] == entries[n - 1]);
            } else {
                let k = choose|k: int| 0 <= k < s.len() && s[k] == p[i];
                assert(entries.contains(s[k]));
            }
        }
    }
}

/// A value with the keys of every object inside in order.
pub open spec fn canonical(v: JsonModel) -> JsonModel
    decreases v,
{
    match v {
        JsonModel::Array(s) => JsonModel::Array(canonical_items(s)),
        JsonModel::Object(s) => JsonModel::Object(in_order(canonical_entries(s))),
        _ => v,
    }
}

/// The values with the keys of every object inside in order.
pub open spec fn canonical_items(s: Seq<JsonModel>) -> Seq<JsonModel>
    decreases s,
{
    Seq::new(
        s.len(),
        |i: int|
            if 0 <= i < s.len() {
                canonical(s[i])
            } else {
                arbitrary()
            },
    )
}

/// The entries with the keys of every object in their values in order.
pub open spec fn canonical_entries(s: Seq<(Seq<char>, JsonModel)>) -> Seq<(Seq<char>, JsonModel)>
    decreases s,
{
    Seq::new(
        s.len(),
        |i: int|
            if 0 <= i < s.len() {
                (s[i].0, canonical(s[i].1))
            } else {
                arbitrary()
            },
    )
}

/// A value whose keys stand in order is canonical.
pub proof fn lemma_canonical_ordered(v: JsonModel)
    requires
        ordered_deep(v),
    ensures
        canonical(v) == v,
    decreases v,
{
    match v {
        JsonModel::Array(s) => {
            lemma_ordered_items(s, s.len() as int);
            assert forall|i: int| 0 <= i < s.len() implies #[trigger] canonical_items(s)[i] == s[i] by {
                assert(ordered_deep(s[i]));
                lemma_canonical_ordered(s[i]);
            }
            assert(canonical_items(s) =~= s);
        },
        JsonModel::Object(s) => {
            lemma_ordered_values(s, s.len() as int);
            assert forall|i: int| 0 <= i < s.len() implies #[trigger] canonical_entries(s)[i]
                == s[i] by {
                assert(ordered_deep(s[i].1));
                lemma_canonical_ordered(s[i].1);
            }
            assert(canonical_entries(s) =~= s);
            lemma_in_order(s, s.len() as int);
            assert(s.take(s.len() as int) =~= s);
        },
        _ => {},
    }
}

proof fn lemma_in_order(s: Seq<(Seq<char>, JsonModel)>, n: int)
    requires
        ordered(s),
        0 <= n <= s.len(),
    ensures
        put_all(s, n) == s.take(n),
    decreases n,
{
    if n > 0 {
        lemma_in_order(s, n - 1);
        lemma_put_last(s.take(n - 1), s[n - 1].0, s[n - 1].1);
        assert(s.take(n) =~= s.take(n - 1).push(s[n - 1]));
    } else {
        assert(s.take(n) =~= Seq::<(Seq<char>, JsonModel)>::empty());
    }
}

proof fn lemma_put_last(s: Seq<(Seq<char>, JsonModel)>, key: Seq<char>, value: JsonModel)
    requires
        forall|i: int| 0 <= i < s.len() ==> before((#[trigger] s[i]).0, key),
    ensures
        put(s, key, value) == s.push((key, value)),
    decreases s.len(),
{
    if s.len() > 0 {
        assert(before(s[0].0, key));
        lemma_before_total(s[0].0, key);
        assert forall|i: int| 0 <= i < s.skip(1).len() implies before(
            (#[trigger] s.skip(1)[i]).0,
            key,
        ) by {
            assert(before(s[i + 1].0, key));
        }
        lemma_put_last(s.skip(1), key, value);
        assert(seq![s[0]] + s.skip(1).push((key, value)) =~= s.push((key, value)));
    } else {
        assert(s.push((key, value)) =~= seq![(key, value)]);
    }
}

/// A JSON value held as plain values. The keys of an object stand in order.
#[derive(Debug)]
pub enum Json {
    Null,
    Bool(bool),
    Number(serde_json::Number),
    Text(String),
    Array(Vec<Json>),
    Object(Vec<(String, Json)>),
}

impl Json {
    /// The model of the value.
    pub open spec fn model(self) -> JsonModel
        decreases self,
    {
        match self {
            Json::Null => JsonModel::Null,
            Json::Bool(b) => JsonModel::Bool(b),
            Json::Number(n) => JsonModel::Number(n),
            Json::Text(s) => JsonModel::Text(s@),
            Json::Array(v) => JsonModel::Array(
                Seq::new(
                    v@.len(),
                    |i: int|
                        if 0 <= i < v@.len() {
                            v@[i].model()
                        } else {
                            arbitrary()
                        },
                ),
            ),
            Json::Object(v) => JsonModel::Object(
                Seq::new(
                    v@.len(),
                    |i: int|
                        if 0 <= i < v@.len() {
                            (v@[i].0@, v@[i].1.model())
                        } else {
                            arbitrary()
                        },
                ),
            ),
        }
    }

    /// Whether the keys of every object inside stand in order.
    pub open spec fn wf(self) -> bool {
        ordered_deep(self.model())
    }
}

/// The models of a list of values.
pub open spec fn models(v: Seq<Json>) -> Seq<JsonModel> {
    v.map_values(|j: Json| j.model())
}

/// The models of a list of entries.
pub open spec fn entry_models(v: Seq<(String, Json)>) -> Seq<(Seq<char>, JsonModel)> {
    v.map_values(|e: (String, Json)| (e.0@, e.1.model()))
}

/// The model of an array or an object, over the models of what it holds.
pub broadcast proof fn lemma_model(v: Json)
    ensures
        #![trigger v.model()]
        v matches Json::Array(s) ==> v.model() == JsonModel::Array(models(s@)),
        v matches Json::Object(s) ==> v.model() == JsonModel::Object(entry_models(s@)),
{
    match v {
        Json::Array(s) => {
            assert(v.model()->Array_0 =~= models(s@));
        },
        Json::Object(s) => {
            assert(v.model()->Object_0 =~= entry_models(s@));
        },
        _ => {},
    }
}

/// What a `serde_json::Value` holds; the entries of an object stand as its map walks them.
pub uninterp spec fn value_model(v: serde_json::Value) -> JsonModel;

/// The compact text of a value, as `serde_json` writes it.
pub uninterp spec fn json_text(v: JsonModel) -> Option<Seq<char>>;

/// The text of a value over several lines, where it can be written.
pub uninterp spec fn json_pretty_text(v: JsonModel) -> Option<Seq<char>>;

/// The value that `serde_json` reads from a text.
pub uninterp spec fn parsed_json(text: Seq<char>) -> Option<JsonModel>;

/// The number that `serde_json` makes of an integer.
pub uninterp spec fn number_of(n: u64) -> serde_json::Number;

/// Whether a number is one that is made of an integer.
pub open spec fn whole(n: serde_json::Number) -> bool {
    exists|k: u64| n == #[trigger] number_of(k)
}

/// Whether a value is read back from its text as it was written: its numbers are integers, and it
/// is no deeper than `depth`. A number with a fraction may be read as its neighbour, and a text
/// that is nested too deep is not read at all.
pub open spec fn readable(v: JsonModel, depth: nat) -> bool
    decreases depth,
{
    match v {
        JsonModel::Number(n) => whole(n),
        JsonModel::Array(s) => depth > 0 && forall|i: int|
            0 <= i < s.len() ==> readable(#[trigger] s[i], (depth - 1) as nat),
        JsonModel::Object(s) => depth > 0 && forall|i: int|
            0 <= i < s.len() ==> readable((#[trigger] s[i]).1, (depth - 1) as nat),
        _ => true,
    }
}

/// One level of a `serde_json::Value`.
enum ValueLevel<'a> {
    Null,
    Bool(bool),
    Number(&'a serde_json::Number),
    Text(&'a String),
    Array(&'a Vec<serde_json::Value>),
    Object(Vec<(&'a String, &'a serde_json::Value)>),
}

/// Tells the variants of `serde_json::Value` apart.
#[verifier::external_body]
fn value_level<'a>(v: &'a serde_json::Value) -> (r: ValueLevel<'a>)
    ensures
        match r {
            ValueLevel::Null => value_model(*v) == JsonModel::Null,
            ValueLevel::Bool(b) => value_model(*v) == JsonModel::Bool(b),
            ValueLevel::Number(n) => value_model(*v) == JsonModel::Number(*n),
            ValueLevel::Text(s) => value_model(*v) == JsonModel::Text(s@),
            ValueLevel::Array(a) => value_model(*v) == JsonModel::Array(
                a@.map_values(|x: serde_json::Value| value_model(x)),
            ),
            ValueLevel::Object(o) => value_model(*v) == JsonModel::Object(
                o@.map_values(|e: (&String, &serde_json::Value)| (e.0@, value_model(*e.1))),
            ),
        },
{
    match v {
        serde_json::Value::Null => ValueLevel::Null,
        serde_json::Value::Bool(b) => ValueLevel::Bool(*b),
        serde_json::Value::Number(n) => ValueLevel::Number(n),
        serde_json::Value::String(s) => ValueLevel::Text(s),
        serde_json::Value::Array(a) => ValueLevel::Array(a),
        serde_json::Value::Object(m) => ValueLevel::Object(m.iter().collect()),
    }
}

/// One level of a `serde_json::Value` to be made.
enum ValueParts {
    Null,
    Bool(bool),
    Number(serde_json::Number),
    Text(String),
    Array(Vec<serde_json::Value>),
    Object(Vec<(String, serde_json::Value)>),
}

/// Makes a `serde_json::Value`. The map of an object is filled in the order of its keys and
/// is walked in that order.
#[verifier::external_body]
fn make_value(p: ValueParts) -> (r: serde_json::Value)
    requires
        p matches ValueParts::Object(o) ==> ordered(
            o@.map_values(|e: (String, serde_json::Value)| (e.0@, value_model(e.1))),
        ),
    ensures
        value_model(r) == (match p {
            ValueParts::Null => JsonModel::Null,
            ValueParts::Bool(b) => JsonModel::Bool(b),
            ValueParts::Number(n) => JsonModel::Number(n),
            ValueParts::Text(s) => JsonModel::Text(s@),
            ValueParts::Array(a) => JsonModel::Array(
                a@.map_values(|x: serde_json::Value| value_model(x)),
            ),
            ValueParts::Object(o) => JsonModel::Object(
                o@.map_values(|e: (String, serde_json::Value)| (e.0@, value_model(e.1))),
            ),
        }),
{
    match p {
        ValueParts::Null => serde_json::Value::Null,
        ValueParts::Bool(b) => serde_json::Value::Bool(b),
        ValueParts::Number(n) => serde_json::Value::Number(n),
        ValueParts::Text(s) => serde_json::Value::String(s),
        ValueParts::Array(a) => serde_json::Value::Array(a),
        ValueParts::Object(o) => serde_json::Value::Object(o.into_iter().collect()),
    }
}

/// `serde_json::Number::clone` gives the same number.
pub assume_specification[ <serde_json::Number as Clone>::clone ](
    n: &serde_json::Number,
) -> (r: serde_json::Number)
    ensures
        r == *n,
;

/// Calls `serde_json::Number::from` on an integer.
#[verifier::external_body]
fn make_number(n: u64) -> (r: serde_json::Number)
    ensures
        r == number_of(n),
{
    serde_json::Number::from(n)
}

/// Calls `serde_json::to_string`, which writes a value without spaces. It fails at keys that are
/// no text, which a value does not have. What it writes of a value without fractions that is
/// nested no more than 127 levels deep, `serde_json::from_str` reads as the same value.
#[verifier::external_body]
fn write_value(v: &serde_json::Value) -> (r: Option<String>)
    ensures
        r is Some,
        readable(value_model(*v), 127) ==> parsed_json(r->0@) == Some(value_model(*v)),
        json_text(value_model(*v)) == (match r {
            Some(s) => Some(s@),
            None => None,
        }),
{
    serde_json::to_string(v).ok()
}

/// Calls `serde_json::to_string_pretty`, which writes a value over several lines.
#[verifier::external_body]
fn write_value_pretty(v: &serde_json::Value) -> (r: Option<String>)
    ensures
        json_pretty_text(value_model(*v)) == (match r {
            Some(s) => Some(s@),
            None => None,
        }),
{
    serde_json::to_string_pretty(v).ok()
}

/// Calls `serde_json::from_str` for a value.
#[verifier::external_body]
fn read_value(text: &str) -> (r: Option<serde_json::Value>)
    ensures
        parsed_json(text@) == (match r {
            Some(v) => Some(value_model(v)),
            None => None,
        }),
{
    serde_json::from_str(text).ok()
}

/// The length in bytes of the text of a value; 0 where it has none.
pub open spec fn ser_len(v: JsonModel) -> nat {
    match json_text(v) {
        Some(t) => encode_utf8(t).len(),
        None => 0,
    }
}

impl Json {
    /// The number `n`.
    pub fn number(n: u64) -> (r: Json)
        ensures
            r.model() == JsonModel::Number(number_of(n)),
            r.wf(),
    {
        Json::Number(make_number(n))
    }

    /// The object with the given entries; of equal keys the last one counts.
    pub fn object(entries: Vec<(String, Json)>) -> (r: Json)
        requires
            forall|i: int| 0 <= i < entries@.len() ==> (#[trigger] entries@[i]).1.wf(),
        ensures
            r.wf(),
            r.model() == JsonModel::Object(in_order(entry_models(entries@))),
    {
        broadcast use lemma_model;

        let ghost all = entry_models(entries@);
        let mut out: Vec<(String, Json)> = Vec::new();
        let mut rest = entries;
        let n: usize = rest.len();
        let mut i: usize = 0;
        assert(entry_models(out@) == put_all(all, 0));
        while i < n
            invariant
                i <= n,
                n == all.len(),
                rest@.len() == n - i,
                entry_models(rest@) == all.skip(i as int),
                forall|k: int| 0 <= k < rest@.len() ==> (#[trigger] rest@[k]).1.wf(),
                forall|k: int| 0 <= k < out@.len() ==> (#[trigger] out@[k]).1.wf(),
                entry_models(out@) == put_all(all, i as int),
            decreases n - i,
        {
            let ghost before_rest = rest@;
            let e = rest.remove(0);
            proof {
                assert(entry_models(before_rest)[0] == all[i as int]);
                assert(entry_models(rest@) =~= all.skip(i + 1)) by {
                    assert(entry_models(rest@) =~= entry_models(before_rest).skip(1));
                }
                lemma_put_all(all, i as int);
            }
            put_entry(&mut out, e.0, e.1);
            i += 1;
        }
        let r = Json::Object(out);
        proof {
            lemma_put_all(all, n as int);
            let m = entry_models(out@);
            lemma_ordered_values(m, m.len() as int);
            assert forall|k: int| 0 <= k < m.len() implies #[trigger] ordered_deep(m[k].1) by {
                assert(out@[k].1.wf());
            }
        }
        r
    }

    /// The value that a text holds, with the keys of every object in order.
    pub fn parse(text: &str) -> (r: Option<Json>)
        ensures
            match r {
                Some(j) => j.wf() && parsed_json(text@) is Some && j.model() == canonical(
                    parsed_json(text@)->0,
                ),
                None => parsed_json(text@) is None,
            },
    {
        match read_value(text) {
            Some(v) => Some(from_value(&v)),
            None => None,
        }
    }

    /// A copy of the value.
    pub fn copy(&self) -> (r: Json)
        ensures
            r.model() == self.model(),
        decreases *self,
    {
        broadcast use lemma_model;

        match self {
            Json::Null => Json::Null,
            Json::Bool(b) => Json::Bool(*b),
            Json::Number(n) => Json::Number(n.clone()),
            Json::Text(s) => Json::Text(s.clone()),
            Json::Array(a) => {
                let mut out: Vec<Json> = Vec::new();
                let mut i: usize = 0;
                while i < a.len()
                    invariant
                        i <= a@.len(),
                        *self == Json::Array(*a),
                        out@.len() == i,
                        forall|k: int| 0 <= k < i ==> (#[trigger] out@[k]).model() == a@[k].model(),
                    decreases a.len() - i,
                {
                    assert(decreases_to!(*self => self->Array_0@[i as int]));
                    out.push(a[i].copy());
                    i += 1;
                }
                assert(models(out@) =~= models(a@));
                Json::Array(out)
            },
            Json::Object(o) => {
                let mut out: Vec<(String, Json)> = Vec::new();
                let mut i: usize = 0;
                while i < o.len()
                    invariant
                        i <= o@.len(),
                        *self == Json::Object(*o),
                        out@.len() == i,
                        forall|k: int|
                            0 <= k < i ==> (#[trigger] out@[k]).0@ == o@[k].0@ && out@[k].1.model()
                                == o@[k].1.model(),
                    decreases o.len() - i,
                {
                    assert(decreases_to!(*self => self->Object_0@[i as int].1));
                    out.push((o[i].0.clone(), o[i].1.copy()));
                    i += 1;
                }
                assert(entry_models(out@) =~= entry_models(o@));
                Json::Object(out)
            },
        }
    }

    /// The compact text of the value. A value without fractions that is not nested too deep is
    /// read back from it as it is.
    pub fn text(&self) -> (r: Option<String>)
        requires
            self.wf(),
        ensures
            r is Some,
            readable(self.model(), 127) ==> parsed_json(r->0@) == Some(self.model()),
            json_text(self.model()) == (match r {
                Some(s) => Some(s@),
                None => None,
            }),
    {
        let v = to_value(self);
        write_value(&v)
    }

    /// The text of the value over several lines.
    pub fn pretty_text(&self) -> (r: Option<String>)
        requires
            self.wf(),
        ensures
            json_pretty_text(self.model()) == (match r {
                Some(s) => Some(s@),
                None => None,
            }),
    {
        let v = to_value(self);
        write_value_pretty(&v)
    }

    /// The length in bytes of the compact text.
    pub fn text_len(&self) -> (r: usize)
        requires
            self.wf(),
        ensures
            r == ser_len(self.model()),
    {
        match self.text() {
            Some(s) => s.as_str().as_bytes().len(),
            None => 0,
        }
    }
}

/// Whether each value of a list is well formed.
pub proof fn lemma_items_wf(v: Seq<Json>)
    ensures
        ordered_items(models(v), v.len() as int) <==> forall|k: int|
            0 <= k < v.len() ==> (#[trigger] v[k]).wf(),
{
    let s = models(v);
    lemma_ordered_items(s, s.len() as int);
    if forall|k: int| 0 <= k < v.len() ==> (#[trigger] v[k]).wf() {
        assert forall|k: int| 0 <= k < s.len() implies #[trigger] ordered_deep(s[k]) by {
            assert(v[k].wf());
        }
    }
    if ordered_items(s, v.len() as int) {
        assert forall|k: int| 0 <= k < v.len() implies (#[trigger] v[k]).wf() by {
            assert(ordered_deep(s[k]));
        }
    }
}

/// Whether the value of each entry is well formed.
pub proof fn lemma_entries_wf(o: Seq<(String, Json)>)
    ensures
        ordered_values(entry_models(o), o.len() as int) <==> forall|k: int|
            0 <= k < o.len() ==> (#[trigger] o[k]).1.wf(),
{
    let s = entry_models(o);
    lemma_ordered_values(s, s.len() as int);
    if forall|k: int| 0 <= k < o.len() ==> (#[trigger] o[k]).1.wf() {
        assert forall|k: int| 0 <= k < s.len() implies #[trigger] ordered_deep(s[k].1) by {
            assert(o[k].1.wf());
        }
    }
    if ordered_values(s, o.len() as int) {
        assert forall|k: int| 0 <= k < o.len() implies (#[trigger] o[k]).1.wf() by {
            assert(ordered_deep(s[k].1));
        }
    }
}

/// Replacing the value of an entry keeps the order of the keys.
pub proof fn lemma_update_ordered(s: Seq<(Seq<char>, JsonModel)>, i: int, value: JsonModel)
    requires
        ordered(s),
        0 <= i < s.len(),
    ensures
        ordered(s.update(i, (s[i].0, value))),
{
    let u = s.update(i, (s[i].0, value));
    assert forall|a: int, b: int| 0 <= a < b < u.len() implies before(
        #[trigger] u[a].0,
        #[trigger] u[b].0,
    ) by {
        assert(before(s[a].0, s[b].0));
    }
}

/// Sets a key in an object's entries.
pub fn put_entry(entries: &mut Vec<(String, Json)>, key: String, value: Json)
    requires
        ordered(entry_models(old(entries)@)),
        value.wf(),
        forall|k: int| 0 <= k < old(entries)@.len() ==> (#[trigger] old(entries)@[k]).1.wf(),
    ensures
        entry_models(final(entries)@) == put(
            entry_models(old(entries)@),
            key@,
            value.model(),
        ),
        ordered(entry_models(final(entries)@)),
        forall|k: int| 0 <= k < final(entries)@.len() ==> (#[trigger] final(entries)@[k]).1.wf(),
{
    let ghost s = entry_models(entries@);
    let ghost m = value.model();
    proof {
        lemma_put(s, key@, m);
        assert(s.skip(0) == s);
        assert(s.take(0) + put(s.skip(0), key@, m) == put(s, key@, m));
    }
    let n: usize = entries.len();
    let mut i: usize = 0;
    while i < n && !str_eq(entries[i].0.as_str(), key.as_str()) && !stands_before(
        key.as_str(),
        entries[i].0.as_str(),
    )
        invariant
            i <= n,
            n == entries@.len(),
            entries@ == old(entries)@,
            s == entry_models(entries@),
            s.take(i as int) + put(s.skip(i as int), key@, m) == put(s, key@, m),
        decreases n - i,
    {
        proof {
            let rest = s.skip(i as int);
            assert(rest[0] == s[i as int]);
            assert(rest.skip(1) == s.skip(i + 1));
            assert(s.take(i + 1) + put(s.skip(i + 1), key@, m) == s.take(i as int) + (seq![rest[0]]
                + put(rest.skip(1), key@, m)));
        }
        i += 1;
    }
    let ghost rest = s.skip(i as int);
    let ghost before_set = entries@;
    if i < n && str_eq(entries[i].0.as_str(), key.as_str()) {
        let ghost k0 = key@;
        entries.set(i, (key, value));
        proof {
            assert(rest[0] == s[i as int]);
            assert(entry_models(entries@) =~= s.take(i as int) + (seq![(k0, m)] + rest.skip(1)));
        }
    } else {
        let ghost k0 = key@;
        entries.insert(i, (key, value));
        proof {
            if i < n {
                assert(rest[0] == s[i as int]);
            }
            assert(entry_models(entries@) =~= s.take(i as int) + (seq![(k0, m)] + rest));
        }
    }
}

/// Finds a key in an object's entries.
pub fn find_key(entries: &Vec<(String, Json)>, key: &str) -> (r: Option<usize>)
    ensures
        match r {
            Some(k) => k < entries@.len() && key_index(entry_models(entries@), key@) == Some(
                k as int,
            ),
            None => key_index(entry_models(entries@), key@) is None,
        },
{
    let mut i: usize = 0;
    while i < entries.len()
        invariant
            i <= entries@.len(),
            key_index(entry_models(entries@), key@) == key_index_from(
                entry_models(entries@),
                key@,
                i as int,
            ),
        decreases entries.len() - i,
    {
        if str_eq(entries[i].0.as_str(), key) {
            return Some(i);
        }
        i += 1;
    }
    None
}

/// The value that a `serde_json::Value` holds, with the keys of every object in order.
pub(crate) fn from_value(v: &serde_json::Value) -> (r: Json)
    ensures
        r.wf(),
        r.model() == canonical(value_model(*v)),
    decreases value_model(*v),
{
    broadcast use lemma_model;

    match value_level(v) {
        ValueLevel::Null => Json::Null,
        ValueLevel::Bool(b) => Json::Bool(b),
        ValueLevel::Number(n) => Json::Number(n.clone()),
        ValueLevel::Text(s) => Json::Text(s.clone()),
        ValueLevel::Array(a) => {
            let ghost items = a@.map_values(|x: serde_json::Value| value_model(x));
            let mut out: Vec<Json> = Vec::new();
            let mut i: usize = 0;
            while i < a.len()
                invariant
                    i <= a@.len(),
                    items == a@.map_values(|x: serde_json::Value| value_model(x)),
                    value_model(*v) == JsonModel::Array(items),
                    out@.len() == i,
                    forall|k: int| 0 <= k < i ==> (#[trigger] out@[k]).wf(),
                    forall|k: int| 0 <= k < i ==> (#[trigger] out@[k]).model() == canonical(items[k]),
                decreases a.len() - i,
            {
                proof {
                    assert(items[i as int] == value_model(a@[i as int]));
                    assert(decreases_to!(value_model(*v) => value_model(*v)->Array_0[i as int]));
                }
                let j = from_value(&a[i]);
                out.push(j);
                i += 1;
            }
            let r = Json::Array(out);
            proof {
                lemma_model(r);
                assert(models(out@) =~= canonical_items(items));
                assert(r.model() == canonical(value_model(*v)));
                lemma_ordered_items(models(out@), out@.len() as int);
                assert forall|k: int| 0 <= k < models(out@).len() implies #[trigger] ordered_deep(
                    models(out@)[k],
                ) by {
                    assert(out@[k].wf());
                }
            }
            r
        },
        ValueLevel::Object(o) => {
            let ghost items = o@.map_values(
                |e: (&String, &serde_json::Value)| (e.0@, value_model(*e.1)),
            );
            let mut out: Vec<(String, Json)> = Vec::new();
            let mut i: usize = 0;
            while i < o.len()
                invariant
                    i <= o@.len(),
                    items == o@.map_values(
                        |e: (&String, &serde_json::Value)| (e.0@, value_model(*e.1)),
                    ),
                    value_model(*v) == JsonModel::Object(items),
                    out@.len() == i,
                    forall|k: int| 0 <= k < i ==> (#[trigger] out@[k]).1.wf(),
                    forall|k: int|
                        0 <= k < i ==> (#[trigger] out@[k]).0@ == items[k].0 && out@[k].1.model()
                            == canonical(items[k].1),
                decreases o.len() - i,
            {
                let e = o[i];
                proof {
                    assert(items[i as int] == (e.0@, value_model(*e.1)));
                    assert(decreases_to!(value_model(*v) => value_model(*v)->Object_0[i as int].1));
                }
                let j = from_value(e.1);
                out.push((e.0.clone(), j));
                i += 1;
            }
            proof {
                assert(entry_models(out@) =~= canonical_entries(items));
            }
            Json::object(out)
        },
    }
}

/// The `serde_json::Value` that holds a value.
pub(crate) fn to_value(j: &Json) -> (r: serde_json::Value)
    requires
        j.wf(),
    ensures
        value_model(r) == j.model(),
    decreases *j,
{
    broadcast use lemma_model;

    match j {
        Json::Null => make_value(ValueParts::Null),
        Json::Bool(b) => make_value(ValueParts::Bool(*b)),
        Json::Number(n) => make_value(ValueParts::Number(n.clone())),
        Json::Text(s) => make_value(ValueParts::Text(s.clone())),
        Json::Array(a) => {
            let mut out: Vec<serde_json::Value> = Vec::new();
            let mut i: usize = 0;
            while i < a.len()
                invariant
                    i <= a@.len(),
                    *j == Json::Array(*a),
                    j.wf(),
                    out@.len() == i,
                    forall|k: int| 0 <= k < i ==> value_model(#[trigger] out@[k]) == a@[k].model(),
                decreases a.len() - i,
            {
                proof {
                    lemma_model(*j);
                    assert(j.model() == JsonModel::Array(models(a@)));
                    assert(models(a@)[i as int] == a@[i as int].model());
                    lemma_ordered_items(models(a@), a@.len() as int);
                    assert(ordered_deep(models(a@)[i as int]));
                }
                out.push(to_value(&a[i]));
                i += 1;
            }
            proof {
                assert(out@.map_values(|x: serde_json::Value| value_model(x)) =~= models(a@));
            }
            make_value(ValueParts::Array(out))
        },
        Json::Object(o) => {
            let mut out: Vec<(String, serde_json::Value)> = Vec::new();
            let mut i: usize = 0;
            while i < o.len()
                invariant
                    i <= o@.len(),
                    *j == Json::Object(*o),
                    j.wf(),
                    out@.len() == i,
                    forall|k: int|
                        0 <= k < i ==> (#[trigger] out@[k]).0@ == o@[k].0@ && value_model(out@[k].1)
                            == o@[k].1.model(),
                decreases o.len() - i,
            {
                proof {
                    lemma_model(*j);
                    assert(j.model() == JsonModel::Object(entry_models(o@)));
                    assert(entry_models(o@)[i as int] == (o@[i as int].0@, o@[i as int].1.model()));
                    lemma_ordered_values(entry_models(o@), o@.len() as int);
                    assert(ordered_deep(entry_models(o@)[i as int].1));
                }
                let v = to_value(&o[i].1);
                out.push((o[i].0.clone(), v));
                i += 1;
            }
            proof {
                assert(out@.map_values(|e: (String, serde_json::Value)| (e.0@, value_model(e.1)))
                    =~= entry_models(o@));
            }
            make_value(ValueParts::Object(out))
        },
    }
}

/// Of two texts that first differ at a place, the one with the smaller character there stands
/// first; of two texts of which one begins with the other, the shorter one does.
pub proof fn law_first_difference_decides(
    common: Seq<char>,
    a: Seq<char>,
    b: Seq<char>,
)
    ensures
        a.len() > 0 && b.len() > 0 && a[0] != b[0] ==> (before(common + a, common + b) <==> a[0]
            < b[0]),
        b.len() > 0 ==> before(common, common + b),
        !before(common + a, common),
    decreases common.len(),
{
    if common.len() == 0 {
        assert(common + a =~= a);
        assert(common + b =~= b);
    } else {
        let c = common.skip(1);
        assert((common + a).skip(1) =~= c + a);
        assert((common + b).skip(1) =~= c + b);
        law_first_difference_decides(c, a, b);
    }
}

/// The keys of an object stand in order, whatever order they were given in; each has the value
/// that was given last for it, and there is no other key.
pub proof fn law_last_value_of_a_key_counts(
    entries: Seq<(Seq<char>, JsonModel)>,
    i: int,
    key: Seq<char>,
)
    requires
        0 <= i < entries.len(),
        forall|j: int| i < j < entries.len() ==> (#[trigger] entries[j]).0 != entries[i].0,
        forall|j: int| 0 <= j < entries.len() ==> (#[trigger] entries[j]).0 != key,
    ensures
        ordered(in_order(entries)),
        value_at(in_order(entries), entries[i].0) == Some(entries[i].1),
        value_at(in_order(entries), key) is None,
{
    lemma_put_all_values(entries, entries.len() as int, i, key);
}

proof fn lemma_put_all_values(
    entries: Seq<(Seq<char>, JsonModel)>,
    n: int,
    i: int,
    key: Seq<char>,
)
    requires
        0 <= n <= entries.len(),
        0 <= i < entries.len(),
        forall|j: int| i < j < entries.len() ==> (#[trigger] entries[j]).0 != entries[i].0,
        forall|j: int| 0 <= j < entries.len() ==> (#[trigger] entries[j]).0 != key,
    ensures
        ordered(put_all(entries, n)),
        i < n ==> value_at(put_all(entries, n), entries[i].0) == Some(entries[i].1),
        value_at(put_all(entries, n), key) is None,
    decreases n,
{
    if n > 0 {
        let e = entries[n - 1];
        lemma_put_all_values(entries, n - 1, i, key);
        lemma_put(put_all(entries, n - 1), e.0, e.1);
        lemma_value_put(put_all(entries, n - 1), e.0, e.1, entries[i].0);
        lemma_value_put(put_all(entries, n - 1), e.0, e.1, key);
    }
}

/// In its canonical form an array has the canonical forms of its items, in their order, and an
/// object the canonical form of the last value of each key; everything else stays as it is.
pub proof fn law_canonical_form_keeps_the_values(v: JsonModel, i: int)
    ensures
        v matches JsonModel::Array(s) ==> (canonical(v) matches JsonModel::Array(t) && t.len()
            == s.len() && (0 <= i < s.len() ==> t[i] == canonical(s[i]))),
        v matches JsonModel::Object(s) ==> (canonical(v) matches JsonModel::Object(t) && ordered(t)
            && (0 <= i < s.len() && (forall|j: int|
            i < j < s.len() ==> (#[trigger] s[j]).0 != s[i].0) ==> value_at(t, s[i].0) == Some(
            canonical(s[i].1),
        ))),
        !(v is Array) && !(v is Object) ==> canonical(v) == v,
{
    if let JsonModel::Object(s) = v {
        let e = canonical_entries(s);
        lemma_put_all_ordered(e, e.len() as int);
        if 0 <= i < s.len() && (forall|j: int|
            i < j < s.len() ==> (#[trigger] s[j]).0 != s[i].0) {
            assert forall|j: int| i < j < e.len() implies (#[trigger] e[j]).0 != e[i].0 by {
                assert(s[j].0 != s[i].0);
            }
            lemma_put_all_value(e, e.len() as int, i);
        }
    }
}

proof fn lemma_put_all_ordered(entries: Seq<(Seq<char>, JsonModel)>, n: int)
    requires
        0 <= n <= entries.len(),
    ensures
        ordered(put_all(entries, n)),
    decreases n,
{
    if n > 0 {
        lemma_put_all_ordered(entries, n - 1);
        lemma_put(put_all(entries, n - 1), entries[n - 1].0, entries[n - 1].1);
    }
}

proof fn lemma_put_all_value(entries: Seq<(Seq<char>, JsonModel)>, n: int, i: int)
    requires
        0 <= i < n <= entries.len(),
        forall|j: int| i < j < n ==> (#[trigger] entries[j]).0 != entries[i].0,
    ensures
        value_at(put_all(entries, n), entries[i].0) == Some(entries[i].1),
    decreases n,
{
    let e = entries[n - 1];
    lemma_value_put(put_all(entries, n - 1), e.0, e.1, entries[i].0);
    if i < n - 1 {
        lemma_put_all_value(entries, n - 1, i);
    }
}

} // verus!
