//! Leaving out rows that were already delivered in the same session.
//!
//! A model has seen the rows that an earlier response of its session held, so they are left
//! out of later ones. What is left out is always marked: an empty list without a mark would
//! read as if there were no data. Rows are told apart by the tool and the repository that
//! they come from.

use crate::json::{
    canonical, entry_models, find_key, json_text, key_index, lemma_canonical_ordered,
    lemma_entries_wf, lemma_items_wf, lemma_key_index, lemma_model, lemma_ordered_values, lemma_put,
    lemma_same_keys, lemma_update_ordered, lemma_value_put, member, models, number_of, ordered,
    ordered_deep, ordered_items, ordered_values, parsed_json, put, put_entry, readable, value_at,
    Json, JsonModel,
};
use crate::keyed::KeyedMap;
use crate::parser::types::{sha256, sha256_digest};
use crate::parser::walk::or_empty;
use crate::text::str_eq;
use std::collections::HashSet;
use vstd::prelude::*;
use vstd::string::*;
use vstd::utf8::*;

verus! {

broadcast use vstd::std_specs::hash::group_hash_axioms;

/// The hint that goes with rows that were left out.
pub const HINT_ELIDED: &'static str = "Some rows were omitted here because they were already \
delivered earlier in THIS session. An empty or shortened list does NOT mean the data \
is absent — do not conclude that the code is unused. Look for the earlier result \
above in your context; if it is no longer there, query again by other means.";

/// How many rows are remembered of one session.
pub const MAX_ROWS_PER_SESSION: usize = 50_000;

/// How many sessions are remembered.
pub const MAX_SESSIONS: usize = 2_000;

/// The number whose first eight bytes, the lowest first, are those of `d`.
pub open spec fn low_bytes(d: Seq<u8>) -> int {
    d[0] + 0x100 * (d[1] + 0x100 * (d[2] + 0x100 * (d[3] + 0x100 * (d[4] + 0x100 * (d[5] + 0x100 * (
    d[6] + 0x100 * d[7]))))))
}

/// What is fed into the digest that a row is told by.
pub open spec fn fingerprint_input(scope: Seq<char>, text: Seq<char>) -> Seq<u8> {
    encode_utf8(scope) + seq![0u8] + encode_utf8(text)
}

/// What a row is told by: the part of a digest over the scope and the text of the row.
pub open spec fn fingerprint(scope: Seq<char>, row: JsonModel) -> u64 {
    let text = match json_text(row) {
        Some(t) => t,
        None => Seq::empty(),
    };
    low_bytes(sha256_digest(fingerprint_input(scope, text))) as u64
}

fn fingerprint_of(scope: &str, row: &Json) -> (r: u64)
    requires
        row.wf(),
    ensures
        r == fingerprint(scope@, row.model()),
{
    let text = match row.text() {
        Some(t) => t,
        None => String::new(),
    };
    let mut bytes: Vec<u8> = Vec::new();
    bytes.extend_from_slice(scope.as_bytes());
    bytes.push(0u8);
    bytes.extend_from_slice(text.as_str().as_bytes());
    proof {
        assert(bytes@ =~= fingerprint_input(scope@, text@));
    }
    let d = sha256(bytes.as_slice());
    let h: u64 = d[7] as u64;
    let h: u64 = d[6] as u64 + 0x100 * h;
    let h: u64 = d[5] as u64 + 0x100 * h;
    let h: u64 = d[4] as u64 + 0x100 * h;
    let h: u64 = d[3] as u64 + 0x100 * h;
    let h: u64 = d[2] as u64 + 0x100 * h;
    let h: u64 = d[1] as u64 + 0x100 * h;
    d[0] as u64 + 0x100 * h
}

/// What came of going over rows.
pub struct Pass {
    /// The rows that are remembered now.
    pub seen: Set<u64>,
    /// The rows that stay.
    pub kept: Seq<JsonModel>,
    /// What the rows that were left out are told by.
    pub gone: Set<u64>,
    /// What the rows that were remembered on the way are told by.
    pub fresh: Set<u64>,
    /// How many rows were left out.
    pub elided: nat,
}

/// Goes over the first `n` rows: a row that is remembered is left out, any other stays and is
/// remembered, as long as there is room.
pub open spec fn deliver(
    rows: Seq<JsonModel>,
    n: int,
    scope: Seq<char>,
    seen: Set<u64>,
) -> Pass
    decreases n,
{
    if n <= 0 || n > rows.len() {
        Pass { seen, kept: Seq::empty(), gone: Set::empty(), fresh: Set::empty(), elided: 0 }
    } else {
        let p = deliver(rows, n - 1, scope, seen);
        let fp = fingerprint(scope, rows[n - 1]);
        if p.seen.contains(fp) {
            Pass { gone: p.gone.insert(fp), elided: p.elided + 1, ..p }
        } else {
            Pass {
                kept: p.kept.push(rows[n - 1]),
                seen: if p.seen.len() < MAX_ROWS_PER_SESSION {
                    p.seen.insert(fp)
                } else {
                    p.seen
                },
                fresh: if p.seen.len() < MAX_ROWS_PER_SESSION {
                    p.fresh.insert(fp)
                } else {
                    p.fresh
                },
                ..p
            }
        }
    }
}

/// What came of going over rows a second time.
pub struct Again {
    /// The rows that stay.
    pub kept: Seq<JsonModel>,
    /// What the rows are told by of which one still stays.
    pub open: Set<u64>,
}

/// Goes over the first `n` rows of a second form of a response. A row stays unless it is told
/// by one of `gone`. Of the rows that are told by the same one of `fresh`, the first stays: it
/// was new when the first form was gone over.
pub open spec fn repeat(
    rows: Seq<JsonModel>,
    n: int,
    scope: Seq<char>,
    gone: Set<u64>,
    fresh: Set<u64>,
) -> Again
    decreases n,
{
    if n <= 0 || n > rows.len() {
        Again { kept: Seq::empty(), open: fresh }
    } else {
        let p = repeat(rows, n - 1, scope, gone, fresh);
        let fp = fingerprint(scope, rows[n - 1]);
        if gone.contains(fp) && !p.open.contains(fp) {
            p
        } else {
            Again { kept: p.kept.push(rows[n - 1]), open: p.open.remove(fp) }
        }
    }
}

/// The rows of a response: `result.rows`, or `result` where that is a list itself.
pub open spec fn rows_in(obj: JsonModel) -> Option<Seq<JsonModel>> {
    match member(obj, "result"@) {
        Some(JsonModel::Array(rows)) => Some(rows),
        Some(JsonModel::Object(r)) => match value_at(r, "rows"@) {
            Some(JsonModel::Array(rows)) => Some(rows),
            _ => None,
        },
        _ => None,
    }
}

/// The entries with the marks of `elided` rows left out. A hint that is there stays.
pub open spec fn mark_elided(s: Seq<(Seq<char>, JsonModel)>, elided: nat) -> Seq<
    (Seq<char>, JsonModel),
> {
    if elided == 0 {
        s
    } else {
        let counted = put(
            s,
            "rows_elided_already_delivered"@,
            JsonModel::Number(number_of(elided as u64)),
        );
        if key_index(counted, "hint"@) is Some {
            counted
        } else {
            put(counted, "hint"@, JsonModel::Text(HINT_ELIDED@))
        }
    }
}

/// A response with other rows, and with the marks of `elided` rows left out: inside `result`
/// next to `rows`, or next to `result` where that is a list itself.
pub open spec fn with_rows(obj: JsonModel, rows: Seq<JsonModel>, elided: nat) -> JsonModel {
    match obj {
        JsonModel::Object(s) => match key_index(s, "result"@) {
            Some(k) => match s[k].1 {
                JsonModel::Array(_) => JsonModel::Object(
                    mark_elided(s.update(k, (s[k].0, JsonModel::Array(rows))), elided),
                ),
                JsonModel::Object(r) => match key_index(r, "rows"@) {
                    Some(j) => JsonModel::Object(
                        s.update(
                            k,
                            (
                                s[k].0,
                                JsonModel::Object(
                                    mark_elided(
                                        r.update(j, (r[j].0, JsonModel::Array(rows))),
                                        elided,
                                    ),
                                ),
                            ),
                        ),
                    ),
                    None => obj,
                },
                _ => obj,
            },
            None => obj,
        },
        _ => obj,
    }
}

/// Exchanges the value of an object's entry.
fn exchange(entries: &mut Vec<(String, Json)>, k: usize, value: Json) -> (r: Json)
    requires
        k < old(entries)@.len(),
    ensures
        r == old(entries)@[k as int].1,
        final(entries)@.len() == old(entries)@.len(),
        final(entries)@[k as int].0@ == old(entries)@[k as int].0@,
        final(entries)@[k as int].1 == value,
        forall|i: int|
            0 <= i < old(entries)@.len() && i != k ==> #[trigger] final(entries)@[i] == old(
                entries,
            )@[i],
        entry_models(final(entries)@) == entry_models(old(entries)@).update(
            k as int,
            (old(entries)@[k as int].0@, value.model()),
        ),
{
    let ghost before = entries@;
    let e = entries.remove(k);
    entries.insert(k, (e.0, value));
    proof {
        assert(entry_models(entries@) =~= entry_models(before).update(
            k as int,
            (before[k as int].0@, value.model()),
        ));
    }
    e.1
}

fn put_elided_marks(entries: &mut Vec<(String, Json)>, elided: usize)
    requires
        ordered(entry_models(old(entries)@)),
        forall|k: int| 0 <= k < old(entries)@.len() ==> (#[trigger] old(entries)@[k]).1.wf(),
    ensures
        entry_models(final(entries)@) == mark_elided(entry_models(old(entries)@), elided as nat),
        ordered(entry_models(final(entries)@)),
        forall|k: int| 0 <= k < final(entries)@.len() ==> (#[trigger] final(entries)@[k]).1.wf(),
{
    if elided > 0 {
        put_entry(
            entries,
            "rows_elided_already_delivered".to_owned(),
            Json::number(elided as u64),
        );
        if find_key(entries, "hint").is_none() {
            put_entry(entries, "hint".to_owned(), Json::Text(HINT_ELIDED.to_owned()));
        }
    }
}

/// Takes the rows out of a response, and says whether there are any to take.
fn take_rows(obj: &mut Json) -> (r: Option<Vec<Json>>)
    requires
        old(obj).wf(),
    ensures
        final(obj).wf(),
        match r {
            Some(rows) => rows_in(old(obj).model()) == Some(models(rows@)) && (forall|k: int|
                0 <= k < rows@.len() ==> (#[trigger] rows@[k]).wf()) && final(obj).model()
                == with_rows(old(obj).model(), Seq::empty(), 0),
            None => rows_in(old(obj).model()) is None && *final(obj) == *old(obj),
        },
{
    broadcast use lemma_model;

    let ghost m = obj.model();
    let mut out: Option<Vec<Json>> = None;
    let mut whole = Json::Null;
    std::mem::swap(&mut whole, obj);
    match whole {
        Json::Object(entries) => {
            let ghost s = entry_models(entries@);
            let mut entries = entries;
            proof {
                assert(ordered_values(s, s.len() as int));
                lemma_entries_wf(entries@);
            }
            if let Some(k) = find_key(&entries, "result") {
                proof {
                    lemma_key_index(s, "result"@, 0);
                    assert(entries@[k as int].1.wf());
                    lemma_model(entries@[k as int].1);
                }
                let is_list: bool = match &entries[k].1 {
                    Json::Array(_) => true,
                    _ => false,
                };
                let is_table: bool = match &entries[k].1 {
                    Json::Object(inner) => match find_key(inner, "rows") {
                        Some(j) => match &inner[j].1 {
                            Json::Array(_) => true,
                            _ => false,
                        },
                        None => false,
                    },
                    _ => false,
                };
                if is_list {
                    let ghost before = entries@;
                    let none: Vec<Json> = Vec::new();
                    let empty = Json::Array(none);
                    proof {
                        lemma_model(empty);
                        assert(models(none@) =~= Seq::<JsonModel>::empty());
                        lemma_items_wf(none@);
                        assert(ordered_items(models(none@), 0));
                    }
                    let value = exchange(&mut entries, k, empty);
                    if let Json::Array(rows) = value {
                        proof {
                            assert(ordered_items(models(rows@), rows@.len() as int));
                            lemma_items_wf(rows@);
                        }
                        out = Some(rows);
                    }
                    proof {
                        lemma_update_ordered(s, k as int, empty.model());
                        lemma_entries_wf(entries@);
                    }
                } else if is_table {
                    let ghost before = entries@;
                    let value = exchange(&mut entries, k, Json::Null);
                    if let Json::Object(inner) = value {
                        let ghost r = entry_models(inner@);
                        let mut inner = inner;
                        proof {
                            assert(ordered_values(r, r.len() as int));
                            lemma_entries_wf(inner@);
                            lemma_key_index(r, "rows"@, 0);
                        }
                        if let Some(j) = find_key(&inner, "rows") {
                            proof {
                                assert(inner@[j as int].1.wf());
                                lemma_model(inner@[j as int].1);
                            }
                            let none: Vec<Json> = Vec::new();
                            let empty = Json::Array(none);
                            proof {
                                lemma_model(empty);
                                assert(models(none@) =~= Seq::<JsonModel>::empty());
                                lemma_items_wf(none@);
                                assert(ordered_items(models(none@), 0));
                            }
                            let list = exchange(&mut inner, j, empty);
                            if let Json::Array(rows) = list {
                                proof {
                                    assert(ordered_items(models(rows@), rows@.len() as int));
                                    lemma_items_wf(rows@);
                                }
                                out = Some(rows);
                            }
                            proof {
                                lemma_update_ordered(r, j as int, empty.model());
                                lemma_entries_wf(inner@);
                            }
                        }
                        let table = Json::Object(inner);
                        proof {
                            lemma_model(table);
                        }
                        let ghost middle = entry_models(entries@);
                        let _ = exchange(&mut entries, k, table);
                        proof {
                            assert(entry_models(entries@) =~= s.update(
                                k as int,
                                (s[k as int].0, table.model()),
                            ));
                            lemma_update_ordered(s, k as int, table.model());
                            lemma_entries_wf(entries@);
                        }
                    }
                }
            }
            *obj = Json::Object(entries);
            proof {
                lemma_model(*obj);
                lemma_entries_wf(entries@);
            }
        },
        other => {
            *obj = other;
        },
    }
    out
}

/// Puts rows into a response that its rows were taken out of.
fn set_rows(obj: &mut Json, rows: Vec<Json>, elided: usize)
    requires
        old(obj).wf(),
        rows_in(old(obj).model()) is Some,
        forall|k: int| 0 <= k < rows@.len() ==> (#[trigger] rows@[k]).wf(),
    ensures
        final(obj).wf(),
        final(obj).model() == with_rows(old(obj).model(), models(rows@), elided as nat),
{
    broadcast use lemma_model;

    let ghost m = obj.model();
    let list = Json::Array(rows);
    proof {
        lemma_model(list);
        lemma_items_wf(rows@);
        assert(ordered_items(models(rows@), rows@.len() as int));
    }
    let mut whole = Json::Null;
    std::mem::swap(&mut whole, obj);
    if let Json::Object(entries) = whole {
        let ghost s = entry_models(entries@);
        let mut entries = entries;
        proof {
            assert(ordered_values(s, s.len() as int));
            lemma_entries_wf(entries@);
        }
        if let Some(k) = find_key(&entries, "result") {
            proof {
                lemma_key_index(s, "result"@, 0);
                assert(entries@[k as int].1.wf());
                lemma_model(entries@[k as int].1);
            }
            let value = exchange(&mut entries, k, Json::Null);
            match value {
                Json::Object(inner) => {
                    let ghost r = entry_models(inner@);
                    let mut inner = inner;
                    proof {
                        assert(ordered_values(r, r.len() as int));
                        lemma_entries_wf(inner@);
                        lemma_key_index(r, "rows"@, 0);
                    }
                    if let Some(j) = find_key(&inner, "rows") {
                        let _ = exchange(&mut inner, j, list);
                        proof {
                            lemma_update_ordered(r, j as int, list.model());
                            lemma_entries_wf(inner@);
                        }
                        put_elided_marks(&mut inner, elided);
                    }
                    let table = Json::Object(inner);
                    proof {
                        lemma_model(table);
                        lemma_entries_wf(inner@);
                    }
                    let _ = exchange(&mut entries, k, table);
                    proof {
                        assert(entry_models(entries@) =~= s.update(
                            k as int,
                            (s[k as int].0, table.model()),
                        ));
                        lemma_update_ordered(s, k as int, table.model());
                        lemma_entries_wf(entries@);
                    }
                },
                _ => {
                    let _ = exchange(&mut entries, k, list);
                    proof {
                        assert(entry_models(entries@) =~= s.update(
                            k as int,
                            (s[k as int].0, list.model()),
                        ));
                        lemma_update_ordered(s, k as int, list.model());
                        lemma_entries_wf(entries@);
                    }
                    put_elided_marks(&mut entries, elided);
                },
            }
        }
        *obj = Json::Object(entries);
        proof {
            lemma_model(*obj);
            lemma_entries_wf(entries@);
        }
    }
}

/// Putting rows in counts no matter which rows stood there before.
proof fn lemma_with_rows_again(
    obj: JsonModel,
    a: Seq<JsonModel>,
    b: Seq<JsonModel>,
    elided: nat,
)
    requires
        rows_in(obj) is Some,
    ensures
        rows_in(with_rows(obj, a, 0)) == Some(a),
        with_rows(with_rows(obj, a, 0), b, elided) == with_rows(obj, b, elided),
{
    let s = obj->Object_0;
    lemma_key_index(s, "result"@, 0);
    let k = key_index(s, "result"@)->0;
    match s[k].1 {
        JsonModel::Object(r) => {
            lemma_key_index(r, "rows"@, 0);
            let j = key_index(r, "rows"@)->0;
            let r1 = r.update(j, (r[j].0, JsonModel::Array(a)));
            lemma_same_keys(r, r1, "rows"@, 0);
            let s1 = s.update(k, (s[k].0, JsonModel::Object(r1)));
            lemma_same_keys(s, s1, "result"@, 0);
            assert(r1.update(j, (r1[j].0, JsonModel::Array(b))) =~= r.update(
                j,
                (r[j].0, JsonModel::Array(b)),
            ));
            let t = JsonModel::Object(
                mark_elided(r.update(j, (r[j].0, JsonModel::Array(b))), elided),
            );
            assert(s1.update(k, (s1[k].0, t)) =~= s.update(k, (s[k].0, t)));
        },
        _ => {
            let s1 = s.update(k, (s[k].0, JsonModel::Array(a)));
            lemma_same_keys(s, s1, "result"@, 0);
            assert(s1.update(k, (s1[k].0, JsonModel::Array(b))) =~= s.update(
                k,
                (s[k].0, JsonModel::Array(b)),
            ));
        },
    }
}

/// Putting the same rows in again changes nothing.
proof fn lemma_with_same_rows(obj: JsonModel, rows: Seq<JsonModel>)
    requires
        rows_in(obj) == Some(rows),
    ensures
        with_rows(obj, rows, 0) == obj,
{
    let s = obj->Object_0;
    lemma_key_index(s, "result"@, 0);
    let k = key_index(s, "result"@)->0;
    match s[k].1 {
        JsonModel::Object(r) => {
            lemma_key_index(r, "rows"@, 0);
            let j = key_index(r, "rows"@)->0;
            assert(r.update(j, (r[j].0, JsonModel::Array(rows))) =~= r);
            assert(s.update(k, (s[k].0, JsonModel::Object(r))) =~= s);
        },
        _ => {
            assert(s.update(k, (s[k].0, JsonModel::Array(rows))) =~= s);
        },
    }
}

/// What was decided about the rows of a response.
pub struct Elision {
    /// How many rows were left out.
    pub elided: usize,
    /// What the rows that were left out are told by.
    pub gone: HashSet<u64>,
    /// What the rows that were remembered on the way are told by.
    pub fresh: HashSet<u64>,
}

fn deliver_rows(rows: Vec<Json>, scope: &str, seen: &mut HashSet<u64>) -> (r: (
    Vec<Json>,
    Elision,
))
    requires
        forall|k: int| 0 <= k < rows@.len() ==> (#[trigger] rows@[k]).wf(),
    ensures
        ({
            let p = deliver(models(rows@), rows@.len() as int, scope@, old(seen)@);
            &&& final(seen)@ == p.seen
            &&& models(r.0@) == p.kept
            &&& r.1.gone@ == p.gone
            &&& r.1.fresh@ == p.fresh
            &&& r.1.elided == p.elided
        }),
        forall|k: int| 0 <= k < r.0@.len() ==> (#[trigger] r.0@[k]).wf(),
{
    let ghost all = models(rows@);
    let total: usize = rows.len();
    let mut kept: Vec<Json> = Vec::new();
    let mut gone: HashSet<u64> = HashSet::new();
    let mut fresh: HashSet<u64> = HashSet::new();
    let mut elided: usize = 0;
    assert(models(kept@) =~= Seq::<JsonModel>::empty());
    for row in it: rows
        invariant
            it.seq() == rows@,
            total == rows@.len(),
            all == models(rows@),
            forall|k: int| 0 <= k < rows@.len() ==> (#[trigger] rows@[k]).wf(),
            forall|k: int| 0 <= k < kept@.len() ==> (#[trigger] kept@[k]).wf(),
            elided <= it.index(),
            seen@ == deliver(all, it.index() as int, scope@, old(seen)@).seen,
            models(kept@) == deliver(all, it.index() as int, scope@, old(seen)@).kept,
            gone@ == deliver(all, it.index() as int, scope@, old(seen)@).gone,
            fresh@ == deliver(all, it.index() as int, scope@, old(seen)@).fresh,
            elided == deliver(all, it.index() as int, scope@, old(seen)@).elided,
    {
        let ghost i = it.index() as int;
        assert(row == rows@[i]);
        assert(all[i] == row.model());
        let fp: u64 = fingerprint_of(scope, &row);
        if seen.contains(&fp) {
            let _ = gone.insert(fp);
            elided += 1;
        } else {
            if seen.len() < MAX_ROWS_PER_SESSION {
                let _ = seen.insert(fp);
                let _ = fresh.insert(fp);
            }
            let ghost before = kept@;
            kept.push(row);
            assert(models(kept@) =~= models(before).push(row.model()));
        }
    }
    (kept, Elision { elided, gone, fresh })
}

fn repeat_rows(
    rows: Vec<Json>,
    scope: &str,
    gone: &HashSet<u64>,
    fresh: HashSet<u64>,
) -> (r: Vec<Json>)
    requires
        forall|k: int| 0 <= k < rows@.len() ==> (#[trigger] rows@[k]).wf(),
    ensures
        models(r@) == repeat(models(rows@), rows@.len() as int, scope@, gone@, fresh@).kept,
        forall|k: int| 0 <= k < r@.len() ==> (#[trigger] r@[k]).wf(),
        r@.len() <= rows@.len(),
{
    let ghost all = models(rows@);
    let ghost first = fresh@;
    let mut open = fresh;
    let mut kept: Vec<Json> = Vec::new();
    assert(models(kept@) =~= Seq::<JsonModel>::empty());
    for row in it: rows
        invariant
            it.seq() == rows@,
            all == models(rows@),
            kept@.len() <= it.index(),
            forall|k: int| 0 <= k < rows@.len() ==> (#[trigger] rows@[k]).wf(),
            forall|k: int| 0 <= k < kept@.len() ==> (#[trigger] kept@[k]).wf(),
            models(kept@) == repeat(all, it.index() as int, scope@, gone@, first).kept,
            open@ == repeat(all, it.index() as int, scope@, gone@, first).open,
    {
        let ghost i = it.index() as int;
        assert(row == rows@[i]);
        assert(all[i] == row.model());
        let fp: u64 = fingerprint_of(scope, &row);
        if !gone.contains(&fp) || open.contains(&fp) {
            let _ = open.remove(&fp);
            let ghost before = kept@;
            kept.push(row);
            assert(models(kept@) =~= models(before).push(row.model()));
        }
    }
    kept
}

/// The rows that sessions have seen.
pub struct SessionDedup {
    pub is_enabled: bool,
    /// What the rows that a session has seen are told by.
    pub sessions: KeyedMap<String, HashSet<u64>>,
    pub elided_total: u64,
}

/// What sessions remember.
pub open spec fn memory_of(m: Map<Seq<char>, HashSet<u64>>) -> Map<Seq<char>, Set<u64>> {
    Map::new(|k: Seq<char>| m.dom().contains(k), |k: Seq<char>| m[k]@)
}

/// What a session remembers.
pub open spec fn seen_by(memory: Map<Seq<char>, Set<u64>>, sid: Seq<char>) -> Set<u64> {
    if memory.dom().contains(sid) {
        memory[sid]
    } else {
        Set::empty()
    }
}

/// What is remembered when a session is about to be used: everything, unless it is a new
/// session and there is no room for it.
pub open spec fn make_room(memory: Map<Seq<char>, Set<u64>>, sid: Seq<char>) -> Map<
    Seq<char>,
    Set<u64>,
> {
    if !memory.dom().contains(sid) && memory.dom().len() >= MAX_SESSIONS {
        Map::empty()
    } else {
        memory
    }
}

/// What came of delivering one response.
pub struct Step {
    pub memory: Map<Seq<char>, Set<u64>>,
    pub value: JsonModel,
    pub gone: Set<u64>,
    pub fresh: Set<u64>,
    pub elided: nat,
}

/// Delivers a response to a session: its rows that the session has seen are left out, the
/// others are remembered.
pub open spec fn deliver_value(
    memory: Map<Seq<char>, Set<u64>>,
    sid: Seq<char>,
    scope: Seq<char>,
    value: JsonModel,
) -> Step {
    let room = make_room(memory, sid);
    let rows = match rows_in(value) {
        Some(rows) => rows,
        None => Seq::empty(),
    };
    let p = deliver(rows, rows.len() as int, scope, seen_by(room, sid));
    Step {
        memory: room.insert(sid, p.seen),
        value: if rows_in(value) is Some {
            with_rows(value, p.kept, p.elided)
        } else {
            value
        },
        gone: p.gone,
        fresh: p.fresh,
        elided: p.elided,
    }
}

/// A second form of a response that was delivered: the same rows are left out.
pub open spec fn repeat_value(
    value: JsonModel,
    scope: Seq<char>,
    gone: Set<u64>,
    fresh: Set<u64>,
) -> JsonModel {
    match rows_in(value) {
        Some(rows) => {
            let kept = repeat(rows, rows.len() as int, scope, gone, fresh).kept;
            with_rows(value, kept, (rows.len() - kept.len()) as nat)
        },
        None => value,
    }
}

impl SessionDedup {
    /// Whether no session is held twice.
    pub open spec fn wf(self) -> bool {
        self.sessions.wf()
    }

    /// What the sessions remember.
    pub open spec fn memory(self) -> Map<Seq<char>, Set<u64>> {
        memory_of(self.sessions@)
    }

    /// Nothing is remembered.
    pub fn new(enabled: bool) -> (r: Self)
        ensures
            r.wf(),
            r.is_enabled == enabled,
            r.memory() == Map::<Seq<char>, Set<u64>>::empty(),
            r.elided_total == 0,
    {
        let r = SessionDedup { is_enabled: enabled, sessions: KeyedMap::new(), elided_total: 0 };
        assert(r.memory() =~= Map::<Seq<char>, Set<u64>>::empty());
        r
    }

    /// Whether rows are left out at all.
    pub fn enabled(&self) -> (r: bool)
        ensures
            r == self.is_enabled,
    {
        self.is_enabled
    }

    /// Forgets what a session has seen.
    pub fn forget(&mut self, session_id: &str)
        requires
            old(self).wf(),
        ensures
            final(self).wf(),
            final(self).memory() == old(self).memory().remove(session_id@),
            final(self).is_enabled == old(self).is_enabled,
            final(self).elided_total == old(self).elided_total,
    {
        let key = session_id.to_owned();
        let _ = self.sessions.remove(&key);
        assert(self.memory() =~= old(self).memory().remove(session_id@));
    }

    /// Forgets what all sessions have seen. Says how many sessions there were.
    pub fn reset_all(&mut self) -> (r: usize)
        requires
            old(self).wf(),
        ensures
            final(self).wf(),
            final(self).memory() == Map::<Seq<char>, Set<u64>>::empty(),
            r == old(self).memory().dom().len(),
            final(self).is_enabled == old(self).is_enabled,
            final(self).elided_total == old(self).elided_total,
    {
        let n: usize = self.sessions.len();
        self.sessions.clear();
        proof {
            assert(self.memory() =~= Map::<Seq<char>, Set<u64>>::empty());
            assert(old(self).memory().dom() =~= old(self).sessions@.dom());
        }
        n
    }

    /// The number of sessions that are remembered, and how many rows were left out.
    pub fn stats(&self) -> (r: (usize, u64))
        requires
            self.wf(),
        ensures
            r.0 == self.memory().dom().len(),
            r.1 == self.elided_total,
    {
        assert(self.memory().dom() =~= self.sessions@.dom());
        (self.sessions.len(), self.elided_total)
    }

    /// Delivers a response to a session: leaves out the rows that it has seen, with a mark,
    /// and remembers the others. Says what was decided about the rows.
    pub fn dedup_and_record(&mut self, sid: &str, scope: &str, value: &mut Json) -> (r: Elision)
        requires
            old(self).wf(),
            old(value).wf(),
        ensures
            final(self).wf(),
            final(value).wf(),
            final(self).is_enabled == old(self).is_enabled,
            final(self).elided_total == old(self).elided_total,
            ({
                let step = deliver_value(old(self).memory(), sid@, scope@, old(value).model());
                &&& final(self).memory() == step.memory
                &&& final(value).model() == step.value
                &&& r.elided == step.elided
                &&& r.gone@ == step.gone
                &&& r.fresh@ == step.fresh
            }),
    {
        let key = sid.to_owned();
        let ghost start = self.memory();
        let ghost obj = value.model();
        proof {
            assert(self.memory().dom() =~= self.sessions@.dom());
        }
        if self.sessions.find(&key).is_none() && self.sessions.len() >= MAX_SESSIONS {
            self.sessions.clear();
        }
        let ghost room = make_room(start, sid@);
        proof {
            assert(self.memory() =~= room);
        }
        let mut seen = match self.sessions.remove(&key) {
            Some(s) => s,
            None => HashSet::new(),
        };
        assert(seen@ =~= seen_by(room, sid@));
        let mut out = Elision { elided: 0, gone: HashSet::new(), fresh: HashSet::new() };
        if let Some(rows) = take_rows(value) {
            let ghost old_rows = models(rows@);
            let ghost p = deliver(old_rows, old_rows.len() as int, scope@, seen@);
            let passed = deliver_rows(rows, scope, &mut seen);
            proof {
                lemma_with_rows_again(obj, Seq::empty(), p.kept, p.elided);
            }
            set_rows(value, passed.0, passed.1.elided);
            out = passed.1;
        }
        self.sessions.insert(key, seen);
        proof {
            assert(self.memory() =~= room.insert(sid@, seen@));
        }
        out
    }
}

/// Leaves out of the second form of a response the rows that were left out of the first.
pub fn apply_elision(value: &mut Json, scope: &str, first: Elision)
    requires
        old(value).wf(),
    ensures
        final(value).wf(),
        final(value).model() == repeat_value(
            old(value).model(),
            scope@,
            first.gone@,
            first.fresh@,
        ),
{
    let ghost obj = value.model();
    if let Some(rows) = take_rows(value) {
        let total: usize = rows.len();
        let ghost old_rows = models(rows@);
        let kept = repeat_rows(rows, scope, &first.gone, first.fresh);
        let elided: usize = total - kept.len();
        proof {
            lemma_with_rows_again(obj, Seq::empty(), models(kept@), elided as nat);
        }
        set_rows(value, kept, elided);
    }
}

/// Whether an item of a response's content is text.
pub open spec fn is_text_item(item: JsonModel) -> bool {
    member(item, "type"@) == Some(JsonModel::Text("text"@))
}

/// The index of the first text among the items from `i` on.
pub open spec fn text_item_from(items: Seq<JsonModel>, i: int) -> Option<int>
    decreases items.len() - i,
{
    if i < 0 || i >= items.len() {
        None
    } else if is_text_item(items[i]) {
        Some(i)
    } else {
        text_item_from(items, i + 1)
    }
}

/// The first text in the content of a response: its index, and the text.
pub open spec fn content_text(outer: JsonModel) -> Option<(int, Seq<char>)> {
    match member(outer, "content"@) {
        Some(JsonModel::Array(items)) => match text_item_from(items, 0) {
            Some(i) => match member(items[i], "text"@) {
                Some(JsonModel::Text(t)) => Some((i, t)),
                _ => None,
            },
            None => None,
        },
        _ => None,
    }
}

/// An object with a key set.
pub open spec fn set_member(v: JsonModel, key: Seq<char>, value: JsonModel) -> JsonModel {
    match v {
        JsonModel::Object(s) => JsonModel::Object(put(s, key, value)),
        _ => v,
    }
}

/// A response with another text in its content at `i`.
pub open spec fn set_content_text(outer: JsonModel, i: int, text: Seq<char>) -> JsonModel {
    match member(outer, "content"@) {
        Some(JsonModel::Array(items)) => if 0 <= i < items.len() {
            set_member(
                outer,
                "content"@,
                JsonModel::Array(
                    items.update(i, set_member(items[i], "text"@, JsonModel::Text(text))),
                ),
            )
        } else {
            outer
        },
        _ => outer,
    }
}

/// The value inside the first text in the content of a response.
pub open spec fn inner_value(outer: JsonModel) -> Option<JsonModel> {
    match content_text(outer) {
        Some(found) => match parsed_json(found.1) {
            Some(m) => Some(canonical(m)),
            None => None,
        },
        None => None,
    }
}

/// What came of delivering a whole response, text form first, then structured form.
pub open spec fn deliver_response(
    memory: Map<Seq<char>, Set<u64>>,
    sid: Seq<char>,
    scope: Seq<char>,
    outer: JsonModel,
) -> Step {
    let first = match inner_value(outer) {
        Some(inner) => {
            let step = deliver_value(memory, sid, scope, inner);
            let (at, _) = content_text(outer)->0;
            Step {
                value: if step.elided > 0 && json_text(step.value) is Some {
                    set_content_text(outer, at, json_text(step.value)->0)
                } else {
                    outer
                },
                ..step
            }
        },
        None => Step {
            memory,
            value: outer,
            gone: Set::empty(),
            fresh: Set::empty(),
            elided: 0,
        },
    };
    match member(first.value, "structuredContent"@) {
        Some(sc) => if inner_value(outer) is Some {
            Step {
                value: set_member(
                    first.value,
                    "structuredContent"@,
                    repeat_value(sc, scope, first.gone, first.fresh),
                ),
                ..first
            }
        } else {
            let step = deliver_value(memory, sid, scope, sc);
            Step {
                value: set_member(first.value, "structuredContent"@, step.value),
                ..step
            }
        },
        None => first,
    }
}

fn find_text_content(outer: &Json) -> (r: Option<(usize, String)>)
    ensures
        match r {
            Some(f) => content_text(outer.model()) == Some((f.0 as int, f.1@)),
            None => content_text(outer.model()) is None,
        },
{
    broadcast use lemma_model;

    if let Json::Object(entries) = outer {
        proof {
            lemma_model(*outer);
        }
        if let Some(k) = find_key(entries, "content") {
            if let Json::Array(items) = &entries[k].1 {
                proof {
                    lemma_model(entries@[k as int].1);
                }
                let mut i: usize = 0;
                while i < items.len()
                    invariant
                        i <= items@.len(),
                        member(outer.model(), "content"@) == Some(
                            JsonModel::Array(models(items@)),
                        ),
                        text_item_from(models(items@), 0) == text_item_from(
                            models(items@),
                            i as int,
                        ),
                    decreases items.len() - i,
                {
                    assert(models(items@)[i as int] == items@[i as int].model());
                    if item_is_text(&items[i]) {
                        return match item_text(&items[i]) {
                            Some(t) => Some((i, t)),
                            None => None,
                        };
                    }
                    i += 1;
                }
            }
        }
    }
    None
}

fn text_member(item: &Json, key: &str) -> (r: Option<String>)
    ensures
        match r {
            Some(t) => member(item.model(), key@) == Some(JsonModel::Text(t@)),
            None => !(member(item.model(), key@) matches Some(JsonModel::Text(_))),
        },
{
    broadcast use lemma_model;

    if let Json::Object(entries) = item {
        proof {
            lemma_model(*item);
        }
        if let Some(k) = find_key(entries, key) {
            if let Json::Text(t) = &entries[k].1 {
                return Some(t.clone());
            }
        }
    }
    None
}

fn item_is_text(item: &Json) -> (r: bool)
    ensures
        r == is_text_item(item.model()),
{
    match text_member(item, "type") {
        Some(t) => str_eq(t.as_str(), "text"),
        None => false,
    }
}

fn item_text(item: &Json) -> (r: Option<String>)
    ensures
        match r {
            Some(t) => member(item.model(), "text"@) == Some(JsonModel::Text(t@)),
            None => !(member(item.model(), "text"@) matches Some(JsonModel::Text(_))),
        },
{
    text_member(item, "text")
}

/// Sets a key of an object.
fn put_member(v: &mut Json, key: &str, value: Json)
    requires
        old(v).wf(),
        value.wf(),
    ensures
        final(v).wf(),
        final(v).model() == set_member(old(v).model(), key@, value.model()),
{
    broadcast use lemma_model;

    let mut whole = Json::Null;
    std::mem::swap(&mut whole, v);
    match whole {
        Json::Object(entries) => {
            let ghost s = entry_models(entries@);
            let mut entries = entries;
            proof {
                assert(ordered_values(s, s.len() as int));
                lemma_entries_wf(entries@);
            }
            put_entry(&mut entries, key.to_owned(), value);
            *v = Json::Object(entries);
            proof {
                lemma_model(*v);
                lemma_entries_wf(entries@);
            }
        },
        other => {
            *v = other;
        },
    }
}

/// Takes the value of a key out of an object, leaving nothing in its place.
fn take_member(v: &mut Json, key: &str) -> (r: Option<Json>)
    requires
        old(v).wf(),
    ensures
        final(v).wf(),
        match r {
            Some(x) => x.wf() && member(old(v).model(), key@) == Some(x.model())
                && final(v).model() == set_member(old(v).model(), key@, JsonModel::Null),
            None => member(old(v).model(), key@) is None && *final(v) == *old(v),
        },
{
    broadcast use lemma_model;

    let ghost m = v.model();
    let mut out: Option<Json> = None;
    let mut whole = Json::Null;
    std::mem::swap(&mut whole, v);
    match whole {
        Json::Object(entries) => {
            let ghost s = entry_models(entries@);
            let mut entries = entries;
            proof {
                assert(ordered_values(s, s.len() as int));
                lemma_entries_wf(entries@);
            }
            if let Some(k) = find_key(&entries, key) {
                proof {
                    lemma_key_index(s, key@, 0);
                    lemma_put_at(s, k as int, JsonModel::Null);
                    assert(entries@[k as int].1.wf());
                }
                let value = exchange(&mut entries, k, Json::Null);
                proof {
                    lemma_update_ordered(s, k as int, JsonModel::Null);
                }
                out = Some(value);
            }
            *v = Json::Object(entries);
            proof {
                lemma_model(*v);
                lemma_entries_wf(entries@);
            }
        },
        other => {
            *v = other;
        },
    }
    out
}

/// Setting a key that is there replaces its value.
proof fn lemma_put_at(s: Seq<(Seq<char>, JsonModel)>, k: int, value: JsonModel)
    requires
        ordered(s),
        0 <= k < s.len(),
    ensures
        put(s, s[k].0, value) == s.update(k, (s[k].0, value)),
    decreases k,
{
    let key = s[k].0;
    if k > 0 {
        assert(crate::json::before(s[0].0, s[k].0));
        crate::json::lemma_before_total(s[0].0, s[k].0);
        let r = s.skip(1);
        assert forall|i: int, j: int| 0 <= i < j < r.len() implies crate::json::before(
            #[trigger] r[i].0,
            #[trigger] r[j].0,
        ) by {
            assert(crate::json::before(s[i + 1].0, s[j + 1].0));
        }
        lemma_put_at(r, k - 1, value);
        assert(put(s, key, value) =~= s.update(k, (key, value)));
    } else {
        assert(put(s, key, value) =~= s.update(k, (key, value)));
    }
}

/// Setting a key twice sets it to the second value.
proof fn lemma_set_member_again(v: JsonModel, key: Seq<char>, a: JsonModel, b: JsonModel)
    requires
        ordered_deep(v),
    ensures
        set_member(set_member(v, key, a), key, b) == set_member(v, key, b),
{
    if let JsonModel::Object(s) = v {
        lemma_put(s, key, a);
        let p = put(s, key, a);
        lemma_put(p, key, b);
        lemma_put(s, key, b);
        assert forall|x: Seq<char>| #[trigger] value_at(put(p, key, b), x) == value_at(
            put(s, key, b),
            x,
        ) by {
            lemma_value_put(p, key, b, x);
            lemma_value_put(s, key, a, x);
            lemma_value_put(s, key, b, x);
        }
        crate::serve_cache::lemma_ordered_unique(put(p, key, b), put(s, key, b));
    }
}

fn put_content_text(outer: &mut Json, i: usize, text: String)
    requires
        old(outer).wf(),
    ensures
        final(outer).wf(),
        final(outer).model() == set_content_text(old(outer).model(), i as int, text@),
{
    broadcast use lemma_model;

    let ghost m = outer.model();
    match take_member(outer, "content") {
        Some(content) => {
            let ghost c = content.model();
            let mut content = content;
            if let Json::Array(items) = content {
                let ghost s = models(items@);
                let mut items = items;
                proof {
                    assert(ordered_items(s, s.len() as int));
                    lemma_items_wf(items@);
                }
                if i < items.len() {
                    let mut item = items.remove(i);
                    put_member(&mut item, "text", Json::Text(text));
                    items.insert(i, item);
                    proof {
                        assert(models(items@) =~= s.update(i as int, item.model()));
                        assert forall|k: int| 0 <= k < items@.len() implies (
                        #[trigger] items@[k]).wf() by {}
                    }
                }
                content = Json::Array(items);
                proof {
                    lemma_model(content);
                    lemma_items_wf(items@);
                    assert(ordered_items(models(items@), items@.len() as int));
                }
            }
            proof {
                lemma_set_member_again(m, "content"@, JsonModel::Null, content.model());
                lemma_set_same_member(m, "content"@);
            }
            put_member(outer, "content", content);
        },
        None => {},
    }
}

/// Setting a key to the value that it has changes nothing.
proof fn lemma_set_same_member(v: JsonModel, key: Seq<char>)
    requires
        ordered_deep(v),
    ensures
        member(v, key) matches Some(x) ==> set_member(v, key, x) == v,
{
    if let JsonModel::Object(s) = v {
        lemma_key_index(s, key, 0);
        if let Some(k) = key_index(s, key) {
            lemma_put_at(s, k, s[k].1);
            assert(s.update(k, (s[k].0, s[k].1)) =~= s);
        }
    }
}

/// What came of delivering the value inside the first text of a response.
pub open spec fn deliver_text(
    memory: Map<Seq<char>, Set<u64>>,
    sid: Seq<char>,
    scope: Seq<char>,
    outer: JsonModel,
) -> Step {
    deliver_value(memory, sid, scope, inner_value(outer)->0)
}

/// Whether the first text of a response that was delivered holds what stayed of the value that it
/// held before, where that value can be read back.
pub open spec fn text_reads_back(
    memory: Map<Seq<char>, Set<u64>>,
    sid: Seq<char>,
    scope: Seq<char>,
    outer: JsonModel,
) -> bool {
    inner_value(outer) is Some && readable(
        deliver_text(memory, sid, scope, outer).value,
        127,
    ) ==> inner_value(deliver_response(memory, sid, scope, outer).value) == Some(
        deliver_text(memory, sid, scope, outer).value,
    )
}

proof fn lemma_text_item(items: Seq<JsonModel>, at: int, text: Seq<char>, i: int)
    requires
        0 <= i <= at < items.len(),
        text_item_from(items, i) == Some(at),
    ensures
        text_item_from(
            items.update(at, set_member(items[at], "text"@, JsonModel::Text(text))),
            i,
        ) == Some(at),
    decreases at - i,
{
    let new = set_member(items[at], "text"@, JsonModel::Text(text));
    let updated = items.update(at, new);
    if i < at {
        assert(updated[i] == items[i]);
        assert(!is_text_item(items[i]));
        lemma_text_item(items, at, text, i + 1);
    } else {
        reveal_strlit("type");
        reveal_strlit("text");
        assert("type"@[1] == 'y' && "text"@[1] == 'e');
        lemma_item_found(items, i);
        lemma_value_put(items[at]->Object_0, "text"@, JsonModel::Text(text), "type"@);
        assert(updated[at] == new);
    }
}

proof fn lemma_item_found(items: Seq<JsonModel>, i: int)
    requires
        0 <= i,
        text_item_from(items, i) is Some,
    ensures
        i <= text_item_from(items, i)->0 < items.len(),
        is_text_item(items[text_item_from(items, i)->0]),
    decreases items.len() - i,
{
    if i < items.len() && !is_text_item(items[i]) {
        lemma_item_found(items, i + 1);
    }
}

/// A text that was put into a response is its first text.
proof fn lemma_content_text_put(outer: JsonModel, text: Seq<char>)
    requires
        content_text(outer) is Some,
    ensures
        ({
            let (at, _) = content_text(outer)->0;
            content_text(set_content_text(outer, at, text)) == Some((at, text))
        }),
{
    let (at, _) = content_text(outer)->0;
    let items = member(outer, "content"@)->0->Array_0;
    lemma_item_found(items, 0);
    lemma_text_item(items, at, text, 0);
    let new = set_member(items[at], "text"@, JsonModel::Text(text));
    let value = JsonModel::Array(items.update(at, new));
    lemma_value_put(outer->Object_0, "content"@, value, "content"@);
    lemma_value_put(items[at]->Object_0, "text"@, JsonModel::Text(text), "text"@);
}

/// Another form of a response does not change its first text.
proof fn lemma_content_text_kept(outer: JsonModel, form: JsonModel)
    ensures
        content_text(set_member(outer, "structuredContent"@, form)) == content_text(outer),
{
    reveal_strlit("content");
    reveal_strlit("structuredContent");
    assert("content"@.len() == 7);
    assert("structuredContent"@.len() == 17);
    if let JsonModel::Object(s) = outer {
        lemma_value_put(s, "structuredContent"@, form, "content"@);
    }
}

impl SessionDedup {
    /// Delivers a whole response to a session: the value inside its first text, and its
    /// structured form, which repeats the same rows. Says how many rows were left out.
    pub fn process_value(&mut self, sid: &str, scope: &str, outer: &mut Json) -> (elided: usize)
        requires
            old(self).wf(),
            old(outer).wf(),
        ensures
            final(self).wf(),
            final(outer).wf(),
            final(self).is_enabled == old(self).is_enabled,
            final(self).elided_total == old(self).elided_total,
            ({
                let step = deliver_response(
                    old(self).memory(),
                    sid@,
                    scope@,
                    old(outer).model(),
                );
                &&& final(self).memory() == step.memory
                &&& final(outer).model() == step.value
                &&& elided == step.elided
            }),
            elided > 0 ==> text_reads_back(
                old(self).memory(),
                sid@,
                scope@,
                old(outer).model(),
            ),
    {
        let ghost start = outer.model();
        let ghost memory = self.memory();
        let mut elided: usize = 0;
        let mut decided: Option<Elision> = None;
        if let Some(found) = find_text_content(outer) {
            if let Some(parsed) = Json::parse(found.1.as_str()) {
                let mut inner = parsed;
                let first = self.dedup_and_record(sid, scope, &mut inner);
                elided = first.elided;
                decided = Some(first);
                if elided > 0 {
                    if let Some(text) = inner.text() {
                        proof {
                            lemma_canonical_ordered(inner.model());
                            lemma_content_text_put(start, text@);
                        }
                        put_content_text(outer, found.0, text);
                    }
                }
            }
        }
        let ghost middle = outer.model();
        if let Some(structured) = take_member(outer, "structuredContent") {
            let mut structured = structured;
            match decided {
                Some(first) => {
                    apply_elision(&mut structured, scope, first);
                },
                None => {
                    let only = self.dedup_and_record(sid, scope, &mut structured);
                    elided = only.elided;
                },
            }
            proof {
                lemma_set_member_again(
                    middle,
                    "structuredContent"@,
                    JsonModel::Null,
                    structured.model(),
                );
                lemma_content_text_kept(middle, structured.model());
            }
            put_member(outer, "structuredContent", structured);
        }
        elided
    }

    /// Delivers the text of a response to a session. Where nothing is left out, the text stays
    /// as it is; so it does without a session, with the memory switched off, and where the
    /// text is no JSON. Says how many rows were left out.
    pub fn process(&mut self, session_id: Option<&str>, scope: &str, payload: &str) -> (r: (
        String,
        usize,
    ))
        requires
            old(self).wf(),
        ensures
            final(self).wf(),
            final(self).is_enabled == old(self).is_enabled,
            (!old(self).is_enabled || session_id is None || parsed_json(payload@) is None) ==> r.0@
                == payload@ && r.1 == 0 && *final(self) == *old(self),
            old(self).is_enabled && session_id is Some && parsed_json(payload@) is Some ==> {
                let step = deliver_response(
                    old(self).memory(),
                    session_id->0@,
                    scope@,
                    canonical(parsed_json(payload@)->0),
                );
                let out = json_text(step.value);
                &&& final(self).memory() == step.memory
                &&& final(self).elided_total == old(self).elided_total.wrapping_add(
                    step.elided as u64,
                )
                &&& r.0@ == (if step.elided > 0 && out is Some {
                    out->0
                } else {
                    payload@
                })
                &&& r.1 == (if out is Some {
                    step.elided
                } else {
                    0
                })
                &&& step.elided > 0 ==> {
                    &&& out is Some
                    &&& readable(step.value, 127) ==> parsed_json(r.0@) == Some(step.value)
                    &&& text_reads_back(
                        old(self).memory(),
                        session_id->0@,
                        scope@,
                        canonical(parsed_json(payload@)->0),
                    )
                }
            },
    {
        if !self.is_enabled {
            return (payload.to_owned(), 0);
        }
        let sid = match session_id {
            Some(s) => s,
            None => {
                return (payload.to_owned(), 0);
            },
        };
        let mut outer = match Json::parse(payload) {
            Some(v) => v,
            None => {
                return (payload.to_owned(), 0);
            },
        };
        let elided: usize = self.process_value(sid, scope, &mut outer);
        if elided == 0 {
            return (payload.to_owned(), 0);
        }
        self.elided_total = self.elided_total.wrapping_add(elided as u64);
        match outer.text() {
            Some(text) => (text, elided),
            None => (payload.to_owned(), 0),
        }
    }
}

/// Whether no two of the rows are told by the same number.
pub open spec fn told_apart(rows: Seq<JsonModel>, scope: Seq<char>) -> bool {
    forall|i: int, j: int|
        0 <= i < j < rows.len() ==> fingerprint(scope, #[trigger] rows[i]) != fingerprint(
            scope,
            #[trigger] rows[j],
        )
}

/// Whether none of the rows is remembered.
pub open spec fn none_seen(rows: Seq<JsonModel>, scope: Seq<char>, seen: Set<u64>) -> bool {
    forall|i: int|
        0 <= i < rows.len() ==> !seen.contains(fingerprint(scope, #[trigger] rows[i]))
}

/// What a pass over rows keeps: nothing that is remembered is forgotten, only rows that were
/// gone over are remembered in addition, and each row either stays or is counted.
proof fn lemma_deliver(rows: Seq<JsonModel>, n: int, scope: Seq<char>, seen: Set<u64>)
    requires
        0 <= n <= rows.len(),
        seen.finite(),
    ensures
        ({
            let p = deliver(rows, n, scope, seen);
            &&& p.elided + p.kept.len() == n
            &&& seen.subset_of(p.seen)
            &&& p.gone.subset_of(p.seen)
            &&& p.fresh.subset_of(p.seen)
            &&& p.fresh.disjoint(seen)
            &&& p.seen == seen.union(p.fresh)
            &&& p.seen.finite()
            &&& p.seen.len() <= seen.len() + n
            &&& seen.len() <= MAX_ROWS_PER_SESSION ==> p.seen.len() <= MAX_ROWS_PER_SESSION
            &&& forall|f: u64| #[trigger]
                p.seen.contains(f) ==> seen.contains(f) || exists|i: int|
                    0 <= i < n && fingerprint(scope, #[trigger] rows[i]) == f
            &&& seen.len() + n <= MAX_ROWS_PER_SESSION ==> forall|i: int|
                0 <= i < n ==> p.seen.contains(fingerprint(scope, #[trigger] rows[i]))
        }),
    decreases n,
{
    if n > 0 {
        lemma_deliver(rows, n - 1, scope, seen);
        let q = deliver(rows, n - 1, scope, seen);
        let p = deliver(rows, n, scope, seen);
        let fp = fingerprint(scope, rows[n - 1]);
        assert forall|f: u64| #[trigger] p.seen.contains(f) implies seen.contains(f) || exists|
            i: int,
        | 0 <= i < n && fingerprint(scope, #[trigger] rows[i]) == f by {
            if f == fp {
                assert(fingerprint(scope, rows[n - 1]) == f);
            } else {
                assert(q.seen.contains(f));
            }
        }
    }
}

/// A pass over rows that are told apart and of which none is remembered leaves nothing out.
proof fn lemma_deliver_unseen(rows: Seq<JsonModel>, n: int, scope: Seq<char>, seen: Set<u64>)
    requires
        0 <= n <= rows.len(),
        seen.finite(),
        told_apart(rows, scope),
        none_seen(rows, scope, seen),
    ensures
        deliver(rows, n, scope, seen).elided == 0,
        deliver(rows, n, scope, seen).kept == rows.take(n),
        deliver(rows, n, scope, seen).gone == Set::<u64>::empty(),
    decreases n,
{
    if n > 0 {
        lemma_deliver_unseen(rows, n - 1, scope, seen);
        lemma_deliver(rows, n - 1, scope, seen);
        let q = deliver(rows, n - 1, scope, seen);
        assert(!seen.contains(fingerprint(scope, rows[n - 1])));
        assert(rows.take(n) =~= rows.take(n - 1).push(rows[n - 1]));
    }
}

/// A pass over rows that are all remembered leaves everything out.
proof fn lemma_deliver_seen(rows: Seq<JsonModel>, n: int, scope: Seq<char>, seen: Set<u64>)
    requires
        0 <= n <= rows.len(),
        forall|i: int|
            0 <= i < rows.len() ==> seen.contains(fingerprint(scope, #[trigger] rows[i])),
    ensures
        deliver(rows, n, scope, seen).elided == n,
        deliver(rows, n, scope, seen).kept == Seq::<JsonModel>::empty(),
        deliver(rows, n, scope, seen).seen == seen,
    decreases n,
{
    if n > 0 {
        lemma_deliver_seen(rows, n - 1, scope, seen);
        assert(seen.contains(fingerprint(scope, rows[n - 1])));
    }
}

/// Of two passes over the same rows, one of which goes further, the longer remembers what the
/// shorter does, and in addition only what the shorter did not remember; nothing where there
/// was no room.
proof fn lemma_deliver_longer(
    rows: Seq<JsonModel>,
    n: int,
    m: int,
    scope: Seq<char>,
    seen: Set<u64>,
)
    requires
        0 <= n <= m <= rows.len(),
        seen.finite(),
    ensures
        ({
            let p = deliver(rows, n, scope, seen);
            let q = deliver(rows, m, scope, seen);
            &&& p.seen.subset_of(q.seen)
            &&& p.gone.subset_of(q.gone)
            &&& p.fresh.subset_of(q.fresh)
            &&& forall|f: u64| #[trigger]
                q.fresh.contains(f) && p.seen.contains(f) ==> p.fresh.contains(f)
            &&& p.seen.len() >= MAX_ROWS_PER_SESSION ==> q.seen == p.seen
        }),
    decreases m,
{
    if n < m {
        lemma_deliver_longer(rows, n, m - 1, scope, seen);
        lemma_deliver(rows, m - 1, scope, seen);
    }
}

/// A second pass over the same rows leaves out what the first did.
proof fn lemma_repeat(rows: Seq<JsonModel>, n: int, scope: Seq<char>, seen: Set<u64>)
    requires
        0 <= n <= rows.len(),
        seen.finite(),
    ensures
        ({
            let all = deliver(rows, rows.len() as int, scope, seen);
            let again = repeat(rows, n, scope, all.gone, all.fresh);
            &&& again.kept == deliver(rows, n, scope, seen).kept
            &&& again.open == all.fresh.difference(deliver(rows, n, scope, seen).fresh)
        }),
    decreases n,
{
    let all = deliver(rows, rows.len() as int, scope, seen);
    let again = repeat(rows, n, scope, all.gone, all.fresh);
    let p = deliver(rows, n, scope, seen);
    if n > 0 {
        lemma_repeat(rows, n - 1, scope, seen);
        lemma_deliver(rows, n - 1, scope, seen);
        lemma_deliver(rows, n, scope, seen);
        lemma_deliver(rows, rows.len() as int, scope, seen);
        lemma_deliver_longer(rows, n - 1, rows.len() as int, scope, seen);
        lemma_deliver_longer(rows, n, rows.len() as int, scope, seen);
        let q = deliver(rows, n - 1, scope, seen);
        let fp = fingerprint(scope, rows[n - 1]);
        if q.seen.contains(fp) {
            assert(p.gone.contains(fp));
            assert(all.gone.contains(fp));
        } else if q.seen.len() < MAX_ROWS_PER_SESSION {
            assert(p.fresh.contains(fp));
            assert(all.fresh.contains(fp));
            assert(!q.fresh.contains(fp));
        } else {
            assert(!all.seen.contains(fp));
            assert(!all.gone.contains(fp));
            assert(!all.fresh.contains(fp));
        }
        assert(again.open =~= all.fresh.difference(p.fresh));
    } else {
        assert(again.open =~= all.fresh.difference(p.fresh));
    }
}

/// Where the marks of a response stand: inside `result` next to `rows`, or next to `result`
/// where that is a list itself.
pub open spec fn marked_entries(obj: JsonModel) -> Seq<(Seq<char>, JsonModel)> {
    match member(obj, "result"@) {
        Some(JsonModel::Object(r)) => r,
        _ => obj->Object_0,
    }
}

/// The rows, the marks and the other entries of a response whose rows were replaced.
proof fn lemma_with_rows(obj: JsonModel, rows: Seq<JsonModel>, elided: nat)
    requires
        ordered_deep(obj),
        rows_in(obj) is Some,
        elided > 0,
    ensures
        rows_in(with_rows(obj, rows, elided)) == Some(rows),
        value_at(
            marked_entries(with_rows(obj, rows, elided)),
            "rows_elided_already_delivered"@,
        ) == Some(JsonModel::Number(number_of(elided as u64))),
        value_at(marked_entries(with_rows(obj, rows, elided)), "hint"@) == (if value_at(
            marked_entries(obj),
            "hint"@,
        ) is Some {
            value_at(marked_entries(obj), "hint"@)
        } else {
            Some(JsonModel::Text(HINT_ELIDED@))
        }),
{
    reveal_strlit("rows");
    reveal_strlit("result");
    reveal_strlit("hint");
    reveal_strlit("rows_elided_already_delivered");
    let mark = "rows_elided_already_delivered"@;
    assert("rows"@.len() == 4);
    assert("hint"@.len() == 4);
    assert("rows"@[0] != "hint"@[0]);
    assert("result"@.len() == 6);
    assert(mark.len() == 29);
    let s = obj->Object_0;
    lemma_key_index(s, "result"@, 0);
    let k = key_index(s, "result"@)->0;
    lemma_ordered_values(s, s.len() as int);
    let e = match s[k].1 {
        JsonModel::Object(r) => {
            lemma_key_index(r, "rows"@, 0);
            let j = key_index(r, "rows"@)->0;
            assert(ordered_deep(s[k].1));
            lemma_update_ordered(r, j, JsonModel::Array(rows));
            let u = r.update(j, (r[j].0, JsonModel::Array(rows)));
            lemma_same_keys(r, u, "rows"@, 0);
            lemma_same_keys(r, u, "hint"@, 0);
            lemma_key_index(r, "hint"@, 0);
            u
        },
        _ => {
            lemma_update_ordered(s, k, JsonModel::Array(rows));
            let u = s.update(k, (s[k].0, JsonModel::Array(rows)));
            lemma_same_keys(s, u, "result"@, 0);
            lemma_same_keys(s, u, "hint"@, 0);
            lemma_key_index(s, "hint"@, 0);
            u
        },
    };
    let n = JsonModel::Number(number_of(elided as u64));
    let h = JsonModel::Text(HINT_ELIDED@);
    let counted = put(e, mark, n);
    lemma_put(e, mark, n);
    lemma_value_put(e, mark, n, "rows"@);
    lemma_value_put(e, mark, n, "result"@);
    lemma_value_put(e, mark, n, "hint"@);
    lemma_value_put(e, mark, n, mark);
    lemma_put(counted, "hint"@, h);
    lemma_value_put(counted, "hint"@, h, "rows"@);
    lemma_value_put(counted, "hint"@, h, "result"@);
    lemma_value_put(counted, "hint"@, h, "hint"@);
    lemma_value_put(counted, "hint"@, h, mark);
    let marked = mark_elided(e, elided);
    if let JsonModel::Object(r) = s[k].1 {
        let u = s.update(k, (s[k].0, JsonModel::Object(marked)));
        lemma_same_keys(s, u, "result"@, 0);
    }
}

/// Rows that are told apart, and of which the session has seen none, are all delivered: a
/// first delivery leaves nothing out, and the response stays as it is.
pub proof fn law_first_delivery_keeps_all(
    memory: Map<Seq<char>, Set<u64>>,
    sid: Seq<char>,
    scope: Seq<char>,
    value: JsonModel,
)
    requires
        seen_by(memory, sid).finite(),
        rows_in(value) is Some ==> told_apart(rows_in(value)->0, scope) && none_seen(
            rows_in(value)->0,
            scope,
            seen_by(memory, sid),
        ),
    ensures
        deliver_value(memory, sid, scope, value).elided == 0,
        deliver_value(memory, sid, scope, value).value == value,
{
    if let Some(rows) = rows_in(value) {
        lemma_deliver_unseen(
            rows,
            rows.len() as int,
            scope,
            seen_by(make_room(memory, sid), sid),
        );
        assert(rows.take(rows.len() as int) =~= rows);
        lemma_with_same_rows(value, rows);
    }
}

/// Rows that were delivered to a session, while there was room to remember them, are left out
/// when they are delivered to it again. `again` may hold other entries than the first response.
pub proof fn law_repeats_are_left_out(
    memory: Map<Seq<char>, Set<u64>>,
    sid: Seq<char>,
    scope: Seq<char>,
    first: JsonModel,
    again: JsonModel,
)
    requires
        ordered_deep(again),
        seen_by(memory, sid).finite(),
        rows_in(first) is Some,
        rows_in(again) == rows_in(first),
        seen_by(memory, sid).len() + rows_in(first)->0.len() <= 50_000,
    ensures
        ({
            let remembered = deliver_value(memory, sid, scope, first).memory;
            let step = deliver_value(remembered, sid, scope, again);
            &&& step.elided == rows_in(first)->0.len()
            &&& rows_in(step.value) == Some(Seq::<JsonModel>::empty())
            &&& step.memory == remembered
        }),
{
    let rows = rows_in(first)->0;
    let room = make_room(memory, sid);
    lemma_deliver(rows, rows.len() as int, scope, seen_by(room, sid));
    let remembered = deliver_value(memory, sid, scope, first).memory;
    assert(make_room(remembered, sid) == remembered);
    lemma_deliver_seen(rows, rows.len() as int, scope, seen_by(remembered, sid));
    assert(remembered.insert(sid, remembered[sid]) =~= remembered);
    if rows.len() > 0 {
        lemma_with_rows(again, Seq::empty(), rows.len());
    } else {
        lemma_with_same_rows(again, rows);
        assert(rows =~= Seq::<JsonModel>::empty());
    }
}

/// What is left out is always marked: the response says how many rows were left out, and has
/// a hint, its own one where it has one. A response of which nothing was left out stays as it
/// is, an empty one too.
pub proof fn law_left_out_rows_are_marked(
    memory: Map<Seq<char>, Set<u64>>,
    sid: Seq<char>,
    scope: Seq<char>,
    value: JsonModel,
)
    requires
        ordered_deep(value),
        seen_by(memory, sid).finite(),
    ensures
        ({
            let step = deliver_value(memory, sid, scope, value);
            let marks = marked_entries(step.value);
            let hint = value_at(marked_entries(value), "hint"@);
            &&& step.elided > 0 ==> {
                &&& value_at(marks, "rows_elided_already_delivered"@) == Some(
                    JsonModel::Number(number_of(step.elided as u64)),
                )
                &&& value_at(marks, "hint"@) == (if hint is Some {
                    hint
                } else {
                    Some(JsonModel::Text(HINT_ELIDED@))
                })
                &&& rows_in(value)->0.len() == rows_in(step.value)->0.len() + step.elided
            }
            &&& step.elided == 0 ==> step.value == value
        }),
{
    if let Some(rows) = rows_in(value) {
        let seen = seen_by(make_room(memory, sid), sid);
        lemma_deliver(rows, rows.len() as int, scope, seen);
        let p = deliver(rows, rows.len() as int, scope, seen);
        if p.elided > 0 {
            lemma_with_rows(value, p.kept, p.elided);
        } else {
            lemma_all_kept(rows, rows.len() as int, scope, seen);
            assert(rows.take(rows.len() as int) =~= rows);
            lemma_with_same_rows(value, rows);
        }
    }
}

/// A pass that leaves nothing out keeps the rows as they are.
proof fn lemma_all_kept(rows: Seq<JsonModel>, n: int, scope: Seq<char>, seen: Set<u64>)
    requires
        0 <= n <= rows.len(),
        deliver(rows, n, scope, seen).elided == 0,
    ensures
        deliver(rows, n, scope, seen).kept == rows.take(n),
    decreases n,
{
    if n > 0 {
        lemma_all_kept(rows, n - 1, scope, seen);
        assert(rows.take(n) =~= rows.take(n - 1).push(rows[n - 1]));
    }
}

/// The second form of a response leaves out exactly the rows that its first form left out, also
/// where a row stands in it more than once: rows that are the same before are the same after,
/// and as many are marked as left out. Forms that are the same stay the same.
pub proof fn law_second_form_keeps_the_same_rows(
    memory: Map<Seq<char>, Set<u64>>,
    sid: Seq<char>,
    scope: Seq<char>,
    first: JsonModel,
    second: JsonModel,
)
    requires
        ordered_deep(first),
        ordered_deep(second),
        seen_by(memory, sid).finite(),
        rows_in(first) is Some,
        rows_in(second) == rows_in(first),
    ensures
        ({
            let step = deliver_value(memory, sid, scope, first);
            let again = repeat_value(second, scope, step.gone, step.fresh);
            let kept = rows_in(step.value)->0;
            &&& rows_in(step.value) is Some
            &&& rows_in(again) == rows_in(step.value)
            &&& again == with_rows(second, kept, step.elided)
            &&& second == first ==> again == step.value
        }),
{
    let rows = rows_in(first)->0;
    let n = rows.len() as int;
    let seen = seen_by(make_room(memory, sid), sid);
    let p = deliver(rows, n, scope, seen);
    lemma_deliver(rows, n, scope, seen);
    lemma_repeat(rows, n, scope, seen);
    if p.elided > 0 {
        lemma_with_rows(first, p.kept, p.elided);
        lemma_with_rows(second, p.kept, p.elided);
    } else {
        lemma_all_kept(rows, n, scope, seen);
        assert(rows.take(n) =~= rows);
        lemma_with_same_rows(first, rows);
        lemma_with_same_rows(second, rows);
    }
}

/// In a response that was delivered, the structured form holds the rows that the text form
/// holds, where it held the same rows before.
pub proof fn law_both_forms_hold_the_same_rows(
    memory: Map<Seq<char>, Set<u64>>,
    sid: Seq<char>,
    scope: Seq<char>,
    outer: JsonModel,
    inner: JsonModel,
    structured: JsonModel,
)
    requires
        ordered_deep(outer),
        ordered_deep(inner),
        ordered_deep(structured),
        seen_by(memory, sid).finite(),
        inner_value(outer) == Some(inner),
        member(outer, "structuredContent"@) == Some(structured),
        rows_in(inner) is Some,
        rows_in(structured) == rows_in(inner),
    ensures
        ({
            let step = deliver_response(memory, sid, scope, outer);
            let text_form = deliver_value(memory, sid, scope, inner);
            &&& member(step.value, "structuredContent"@) matches Some(form) && rows_in(form)
                == rows_in(text_form.value)
            &&& step.elided == text_form.elided
            &&& step.memory == text_form.memory
        }),
{
    reveal_strlit("content");
    reveal_strlit("structuredContent");
    assert("content"@.len() == 7);
    assert("structuredContent"@.len() == 17);
    law_second_form_keeps_the_same_rows(memory, sid, scope, inner, structured);
    let text_form = deliver_value(memory, sid, scope, inner);
    let (at, _) = content_text(outer)->0;
    let text = json_text(text_form.value)->0;
    let s = outer->Object_0;
    let middle = if text_form.elided > 0 && json_text(text_form.value) is Some {
        set_content_text(outer, at, text)
    } else {
        outer
    };
    if middle != outer {
        let items = member(outer, "content"@)->0->Array_0;
        let value = JsonModel::Array(
            items.update(at, set_member(items[at], "text"@, JsonModel::Text(text))),
        );
        lemma_value_put(s, "content"@, value, "structuredContent"@);
    }
    let form = repeat_value(structured, scope, text_form.gone, text_form.fresh);
    lemma_value_put(middle->Object_0, "structuredContent"@, form, "structuredContent"@);
}

/// Where the rows stand that stay of the first `n`.
pub open spec fn kept_places(
    rows: Seq<JsonModel>,
    n: int,
    scope: Seq<char>,
    seen: Set<u64>,
) -> Seq<int>
    decreases n,
{
    if n <= 0 || n > rows.len() {
        Seq::empty()
    } else {
        let before = kept_places(rows, n - 1, scope, seen);
        if deliver(rows, n - 1, scope, seen).seen.contains(fingerprint(scope, rows[n - 1])) {
            before
        } else {
            before.push(n - 1)
        }
    }
}

/// The rows that stay are rows of the response, in their order, and those that are left out are
/// the rest of them: each row either stays or is counted.
pub proof fn law_kept_rows_are_in_order(
    rows: Seq<JsonModel>,
    n: int,
    scope: Seq<char>,
    seen: Set<u64>,
)
    requires
        0 <= n <= rows.len(),
        seen.finite(),
    ensures
        ({
            let p = deliver(rows, n, scope, seen);
            let at = kept_places(rows, n, scope, seen);
            &&& p.kept.len() + p.elided == n
            &&& at.len() == p.kept.len()
            &&& forall|i: int|
                0 <= i < at.len() ==> 0 <= #[trigger] at[i] < n && p.kept[i] == rows[at[i]]
            &&& forall|i: int, j: int| 0 <= i < j < at.len() ==> #[trigger] at[i] < #[trigger] at[j]
        }),
    decreases n,
{
    lemma_deliver(rows, n, scope, seen);
    if n > 0 {
        law_kept_rows_are_in_order(rows, n - 1, scope, seen);
    }
}

/// A session that was forgotten, or was never seen, is delivered a response as if no session
/// had been delivered anything.
pub proof fn law_forgotten_session_is_new(
    memory: Map<Seq<char>, Set<u64>>,
    sid: Seq<char>,
    scope: Seq<char>,
    outer: JsonModel,
)
    ensures
        ({
            let step = deliver_response(memory.remove(sid), sid, scope, outer);
            let fresh = deliver_response(Map::empty(), sid, scope, outer);
            &&& step.value == fresh.value
            &&& step.elided == fresh.elided
            &&& seen_by(step.memory, sid) == seen_by(fresh.memory, sid)
        }),
{
    assert(seen_by(make_room(memory.remove(sid), sid), sid) == Set::<u64>::empty());
    assert(seen_by(make_room(Map::empty(), sid), sid) == Set::<u64>::empty());
}

/// What one session is delivered does not change what another one remembers, as long as no
/// new session finds the memory full.
pub proof fn law_sessions_are_isolated(
    memory: Map<Seq<char>, Set<u64>>,
    sid: Seq<char>,
    other: Seq<char>,
    scope: Seq<char>,
    outer: JsonModel,
)
    requires
        other != sid,
        memory.dom().contains(sid) || memory.dom().len() < 2_000,
    ensures
        seen_by(deliver_response(memory, sid, scope, outer).memory, other) == seen_by(
            memory,
            other,
        ),
{
}

/// Whether what is remembered is within the limits.
pub open spec fn bounded(memory: Map<Seq<char>, Set<u64>>) -> bool {
    &&& memory.dom().finite()
    &&& memory.dom().len() <= 2_000
    &&& forall|sid: Seq<char>| #[trigger]
        memory.dom().contains(sid) ==> memory[sid].finite() && memory[sid].len()
            <= 50_000
}

/// What is remembered stays within the limits, whatever is delivered.
pub proof fn law_memory_stays_bounded(
    memory: Map<Seq<char>, Set<u64>>,
    sid: Seq<char>,
    scope: Seq<char>,
    outer: JsonModel,
)
    requires
        bounded(memory),
    ensures
        bounded(deliver_response(memory, sid, scope, outer).memory),
{
    let value = match inner_value(outer) {
        Some(inner) => inner,
        None => match member(outer, "structuredContent"@) {
            Some(sc) => sc,
            None => outer,
        },
    };
    let room = make_room(memory, sid);
    let rows = match rows_in(value) {
        Some(rows) => rows,
        None => Seq::empty(),
    };
    lemma_deliver(rows, rows.len() as int, scope, seen_by(room, sid));
    let step = deliver_value(memory, sid, scope, value);
    assert(step.memory.dom() =~= room.dom().insert(sid));
    assert(bounded(step.memory));
}

/// No byte of a text without the null character is zero.
proof fn lemma_no_zero_byte(s: Seq<char>)
    requires
        !s.contains('\0'),
    ensures
        forall|i: int| 0 <= i < encode_utf8(s).len() ==> #[trigger] encode_utf8(s)[i] != 0,
    decreases s.len(),
{
    if s.len() > 0 {
        let rest = s.drop_first();
        assert(!rest.contains('\0')) by {
            if rest.contains('\0') {
                let j = choose|j: int| 0 <= j < rest.len() && rest[j] == '\0';
                assert(s[j + 1] == '\0');
            }
        }
        lemma_no_zero_byte(rest);
        assert(s[0] != '\0');
        let c = s[0] as u32;
        char_is_scalar(s[0]);
        char_u32_cast('\0', 0);
        char_u32_cast(s[0], c);
        assert(c != 0);
        assert(c != 0 && c <= 0x7F ==> (c & 0x7F) as u8 != 0) by (bit_vector);
        assert(0xC0u8 | ((c >> 6) & 0x1F) as u8 != 0) by (bit_vector);
        assert(0xE0u8 | ((c >> 12) & 0x0F) as u8 != 0) by (bit_vector);
        assert(0xF0u8 | ((c >> 18) & 0x7) as u8 != 0) by (bit_vector);
        assert(0x80u8 | (c & 0x3F) as u8 != 0) by (bit_vector);
        assert(0x80u8 | ((c >> 6) & 0x3F) as u8 != 0) by (bit_vector);
        assert(0x80u8 | ((c >> 12) & 0x3F) as u8 != 0) by (bit_vector);
        let head = encode_scalar(c);
        assert forall|i: int| 0 <= i < head.len() implies #[trigger] head[i] != 0 by {}
        assert(encode_utf8(s) =~= head + encode_utf8(rest));
    }
}

/// Rows of different scopes are not taken for each other: the digests that they are told by
/// are made of different bytes, unless both the scope and the text of the row are the same.
pub proof fn law_scopes_are_isolated(
    a: Seq<char>,
    row_a: Seq<char>,
    b: Seq<char>,
    row_b: Seq<char>,
)
    requires
        !a.contains('\0'),
        !b.contains('\0'),
    ensures
        fingerprint_input(a, row_a) == fingerprint_input(b, row_b) <==> a == b && row_a == row_b,
{
    if fingerprint_input(a, row_a) == fingerprint_input(b, row_b) {
        let x = fingerprint_input(a, row_a);
        let y = fingerprint_input(b, row_b);
        let n = encode_utf8(a).len() as int;
        let m = encode_utf8(b).len() as int;
        lemma_no_zero_byte(a);
        lemma_no_zero_byte(b);
        assert(x[n] == 0 && y[m] == 0);
        if n < m {
            assert(y[n] == encode_utf8(b)[n]);
        }
        if m < n {
            assert(x[m] == encode_utf8(a)[m]);
        }
        assert(encode_utf8(a) =~= encode_utf8(b)) by {
            assert(encode_utf8(a) =~= x.take(n));
            assert(encode_utf8(b) =~= y.take(n));
        }
        assert(encode_utf8(row_a) =~= encode_utf8(row_b)) by {
            assert(encode_utf8(row_a) =~= x.skip(n + 1));
            assert(encode_utf8(row_b) =~= y.skip(n + 1));
        }
        encode_utf8_decode_utf8(a);
        encode_utf8_decode_utf8(b);
        encode_utf8_decode_utf8(row_a);
        encode_utf8_decode_utf8(row_b);
    }
}

/// A row that is not remembered and does not stand earlier in the response stays, whatever else
/// is left out.
pub proof fn law_new_rows_stay(
    memory: Map<Seq<char>, Set<u64>>,
    sid: Seq<char>,
    scope: Seq<char>,
    value: JsonModel,
    i: int,
)
    requires
        ordered_deep(value),
        seen_by(memory, sid).finite(),
        rows_in(value) is Some,
        0 <= i < rows_in(value)->0.len(),
        !seen_by(memory, sid).contains(fingerprint(scope, rows_in(value)->0[i])),
        forall|j: int|
            0 <= j < i ==> fingerprint(scope, #[trigger] rows_in(value)->0[j]) != fingerprint(
                scope,
                rows_in(value)->0[i],
            ),
    ensures
        rows_in(deliver_value(memory, sid, scope, value).value) is Some,
        rows_in(deliver_value(memory, sid, scope, value).value)->0.contains(
            rows_in(value)->0[i],
        ),
        kept_places(
            rows_in(value)->0,
            rows_in(value)->0.len() as int,
            scope,
            seen_by(make_room(memory, sid), sid),
        ).contains(i),
{
    let rows = rows_in(value)->0;
    let n = rows.len() as int;
    let seen = seen_by(make_room(memory, sid), sid);
    lemma_new_row_stays(rows, n, scope, seen, i);
    law_kept_rows_are_in_order(rows, n, scope, seen);
    let p = deliver(rows, n, scope, seen);
    let at = kept_places(rows, n, scope, seen);
    let x = choose|x: int| 0 <= x < at.len() && at[x] == i;
    assert(p.kept[x] == rows[i]);
    if p.elided > 0 {
        lemma_with_rows(value, p.kept, p.elided);
    } else {
        lemma_all_kept(rows, n, scope, seen);
        assert(rows.take(n) =~= rows);
        lemma_with_same_rows(value, rows);
    }
}

proof fn lemma_new_row_stays(
    rows: Seq<JsonModel>,
    n: int,
    scope: Seq<char>,
    seen: Set<u64>,
    i: int,
)
    requires
        0 <= i < n <= rows.len(),
        seen.finite(),
        !seen.contains(fingerprint(scope, rows[i])),
        forall|j: int|
            0 <= j < i ==> fingerprint(scope, #[trigger] rows[j]) != fingerprint(scope, rows[i]),
    ensures
        kept_places(rows, n, scope, seen).contains(i),
    decreases n,
{
    let at = kept_places(rows, n, scope, seen);
    if n - 1 == i {
        lemma_deliver(rows, i, scope, seen);
        assert(at.last() == i);
    } else {
        lemma_new_row_stays(rows, n - 1, scope, seen, i);
        let before = kept_places(rows, n - 1, scope, seen);
        let x = choose|x: int| 0 <= x < before.len() && before[x] == i;
        assert(at[x] == before[x]);
    }
}

/// Forgetting a session concerns that session alone: it gets every row again that does not stand
/// earlier in the response, another one that was given the rows gets none of them, and one
/// session less is remembered.
pub proof fn law_one_session_is_forgotten(
    memory: Map<Seq<char>, Set<u64>>,
    a: Seq<char>,
    b: Seq<char>,
    scope: Seq<char>,
    value: JsonModel,
    i: int,
)
    requires
        a != b,
        ordered_deep(value),
        memory.dom().finite(),
        memory.dom().contains(a),
        memory.dom().contains(b),
        rows_in(value) is Some,
        forall|j: int|
            0 <= j < rows_in(value)->0.len() ==> memory[b].contains(
                fingerprint(scope, #[trigger] rows_in(value)->0[j]),
            ),
        0 <= i < rows_in(value)->0.len(),
        forall|j: int|
            0 <= j < i ==> fingerprint(scope, #[trigger] rows_in(value)->0[j]) != fingerprint(
                scope,
                rows_in(value)->0[i],
            ),
    ensures
        ({
            let rest = memory.remove(a);
            &&& rest.dom().len() == memory.dom().len() - 1
            &&& deliver_value(rest, b, scope, value).elided == rows_in(value)->0.len()
            &&& rows_in(deliver_value(rest, a, scope, value).value) is Some
            &&& rows_in(deliver_value(rest, a, scope, value).value)->0.contains(
                rows_in(value)->0[i],
            )
        }),
{
    let rest = memory.remove(a);
    let rows = rows_in(value)->0;
    assert(rest.dom() =~= memory.dom().remove(a));
    lemma_deliver_seen(rows, rows.len() as int, scope, rest[b]);
    law_new_rows_stay(rest, a, scope, value, i);
}

/// What a client reads from the first text of a response that rows were left out of: the rows that
/// stayed, in their order, and next to them how many are missing and a hint. Of a text that can be
/// read back this holds after [`SessionDedup::process`].
pub proof fn law_read_text_holds_the_rows_that_stayed(
    memory: Map<Seq<char>, Set<u64>>,
    sid: Seq<char>,
    scope: Seq<char>,
    outer: JsonModel,
    inner: JsonModel,
)
    requires
        ordered_deep(inner),
        seen_by(memory, sid).finite(),
        inner_value(outer) == Some(inner),
        rows_in(inner) is Some,
        deliver_response(memory, sid, scope, outer).elided > 0,
        text_reads_back(memory, sid, scope, outer),
        readable(deliver_text(memory, sid, scope, outer).value, 127),
    ensures
        ({
            let step = deliver_response(memory, sid, scope, outer);
            let rows = rows_in(inner)->0;
            let seen = seen_by(make_room(memory, sid), sid);
            let p = deliver(rows, rows.len() as int, scope, seen);
            &&& step.elided == p.elided
            &&& inner_value(step.value) matches Some(read) && rows_in(read) == Some(p.kept)
                && value_at(marked_entries(read), "rows_elided_already_delivered"@) == Some(
                JsonModel::Number(number_of(p.elided as u64)),
            ) && value_at(marked_entries(read), "hint"@) is Some
        }),
{
    let rows = rows_in(inner)->0;
    let seen = seen_by(make_room(memory, sid), sid);
    let p = deliver(rows, rows.len() as int, scope, seen);
    lemma_with_rows(inner, p.kept, p.elided);
    law_left_out_rows_are_marked(memory, sid, scope, inner);
}

/// What a row is told by holds the first eight bytes of the SHA-256 digest of the scope, a zero
/// byte and the text of the row, the lowest byte first.
pub proof fn law_rows_are_told_by_eight_bytes(scope: Seq<char>, row: JsonModel)
    ensures
        ({
            let d = sha256_digest(
                encode_utf8(scope) + seq![0u8] + encode_utf8(or_empty(json_text(row))),
            );
            let told = fingerprint(scope, row) as int;
            &&& told % 0x100 == d[0]
            &&& told / 0x100 % 0x100 == d[1]
            &&& told / 0x1_0000 % 0x100 == d[2]
            &&& told / 0x100_0000 % 0x100 == d[3]
            &&& told / 0x1_0000_0000 % 0x100 == d[4]
            &&& told / 0x100_0000_0000 % 0x100 == d[5]
            &&& told / 0x1_0000_0000_0000 % 0x100 == d[6]
            &&& told / 0x100_0000_0000_0000 == d[7]
        }),
{
    let text = match json_text(row) {
        Some(t) => t,
        None => Seq::empty(),
    };
    let d = sha256_digest(fingerprint_input(scope, text));
    assert(fingerprint_input(scope, text) =~= encode_utf8(scope) + seq![0u8] + encode_utf8(
        or_empty(json_text(row)),
    ));
    lemma_eight_bytes(
        d[0] as int,
        d[1] as int,
        d[2] as int,
        d[3] as int,
        d[4] as int,
        d[5] as int,
        d[6] as int,
        d[7] as int,
    );
    assert(0 <= low_bytes(d) <= u64::MAX);
}

/// Eight bytes that make a number, the lowest first, are read back from it one by one.
proof fn lemma_eight_bytes(
    a: int,
    b: int,
    c: int,
    d: int,
    e: int,
    f: int,
    g: int,
    h: int,
)
    requires
        0 <= a < 0x100,
        0 <= b < 0x100,
        0 <= c < 0x100,
        0 <= d < 0x100,
        0 <= e < 0x100,
        0 <= f < 0x100,
        0 <= g < 0x100,
        0 <= h < 0x100,
    ensures
        ({
            let told = a + 0x100 * b + 0x1_0000 * c + 0x100_0000 * d + 0x1_0000_0000 * e
                + 0x100_0000_0000 * f + 0x1_0000_0000_0000 * g + 0x100_0000_0000_0000 * h;
            &&& told % 0x100 == a
            &&& told / 0x100 % 0x100 == b
            &&& told / 0x1_0000 % 0x100 == c
            &&& told / 0x100_0000 % 0x100 == d
            &&& told / 0x1_0000_0000 % 0x100 == e
            &&& told / 0x100_0000_0000 % 0x100 == f
            &&& told / 0x1_0000_0000_0000 % 0x100 == g
            &&& told / 0x100_0000_0000_0000 == h
        }),
{
    let r6 = g + 0x100 * h;
    let r5 = f + 0x100 * r6;
    let r4 = e + 0x100 * r5;
    let r3 = d + 0x100 * r4;
    let r2 = c + 0x100 * r3;
    let r1 = b + 0x100 * r2;
    let told = a + 0x100 * r1;
    assert(told / 0x100 == r1);
    assert(told / 0x1_0000 == r2);
    assert(told / 0x100_0000 == r3);
    assert(told / 0x1_0000_0000 == r4);
    assert(told / 0x100_0000_0000 == r5);
    assert(told / 0x1_0000_0000_0000 == r6);
    assert(told / 0x100_0000_0000_0000 == h);
}

/// Whether two digests differ in one of their first eight bytes.
pub open spec fn differ_early(a: Seq<u8>, b: Seq<u8>) -> bool {
    exists|i: int| 0 <= i < 8 && #[trigger] a[i] != b[i]
}

/// Rows whose digests differ in one of the first eight bytes are told apart, and rows whose digests
/// begin with the same eight bytes are not.
pub proof fn law_digests_tell_rows_apart(
    scope: Seq<char>,
    a: JsonModel,
    other_scope: Seq<char>,
    b: JsonModel,
)
    ensures
        differ_early(
            sha256_digest(encode_utf8(scope) + seq![0u8] + encode_utf8(or_empty(json_text(a)))),
            sha256_digest(
                encode_utf8(other_scope) + seq![0u8] + encode_utf8(or_empty(json_text(b))),
            ),
        ) <==> fingerprint(scope, a) != fingerprint(other_scope, b),
{
    law_rows_are_told_by_eight_bytes(scope, a);
    law_rows_are_told_by_eight_bytes(other_scope, b);
    let x = sha256_digest(
        encode_utf8(scope) + seq![0u8] + encode_utf8(or_empty(json_text(a))),
    );
    let y = sha256_digest(
        encode_utf8(other_scope) + seq![0u8] + encode_utf8(or_empty(json_text(b))),
    );
    assert(fingerprint_input(scope, or_empty(json_text(a))) =~= encode_utf8(scope) + seq![0u8]
        + encode_utf8(or_empty(json_text(a))));
    assert(fingerprint_input(other_scope, or_empty(json_text(b))) =~= encode_utf8(other_scope)
        + seq![0u8] + encode_utf8(or_empty(json_text(b))));
    if fingerprint(scope, a) != fingerprint(other_scope, b) {
        assert(x[0] != y[0] || x[1] != y[1] || x[2] != y[2] || x[3] != y[3] || x[4] != y[4] || x[5]
            != y[5] || x[6] != y[6] || x[7] != y[7]);
    }
}

/// A session that is new is given every row of its first response, as far as the digests of the
/// rows differ in one of their first eight bytes: nothing is left out and nothing is marked.
pub proof fn law_new_session_is_given_every_row(
    memory: Map<Seq<char>, Set<u64>>,
    sid: Seq<char>,
    scope: Seq<char>,
    value: JsonModel,
    rows: Seq<JsonModel>,
)
    requires
        !memory.dom().contains(sid),
        rows_in(value) == Some(rows),
        forall|i: int, j: int|
            #![trigger rows[i], rows[j]]
            0 <= i < j < rows.len() ==> differ_early(
                sha256_digest(
                    encode_utf8(scope) + seq![0u8] + encode_utf8(or_empty(json_text(rows[i]))),
                ),
                sha256_digest(
                    encode_utf8(scope) + seq![0u8] + encode_utf8(or_empty(json_text(rows[j]))),
                ),
            ),
    ensures
        deliver_value(memory, sid, scope, value).elided == 0,
        deliver_value(memory, sid, scope, value).value == value,
        rows_in(deliver_value(memory, sid, scope, value).value) == Some(rows),
{
    assert forall|i: int, j: int| 0 <= i < j < rows.len() implies fingerprint(
        scope,
        #[trigger] rows[i],
    ) != fingerprint(scope, #[trigger] rows[j]) by {
        law_digests_tell_rows_apart(scope, rows[i], scope, rows[j]);
    }
    law_first_delivery_keeps_all(memory, sid, scope, value);
}

/// A row that a session has not been given is given to it: of a second response, each row stays
/// whose digest differs early from those of all rows of the first response and from those of the
/// rows before it.
pub proof fn law_rows_not_given_yet_are_given(
    memory: Map<Seq<char>, Set<u64>>,
    sid: Seq<char>,
    scope: Seq<char>,
    first: JsonModel,
    other_scope: Seq<char>,
    second: JsonModel,
    k: int,
)
    requires
        ordered_deep(second),
        !memory.dom().contains(sid),
        rows_in(first) is Some,
        rows_in(second) is Some,
        0 <= k < rows_in(second)->0.len(),
        forall|i: int|
            0 <= i < rows_in(first)->0.len() ==> differ_early(
                sha256_digest(
                    encode_utf8(scope) + seq![0u8] + encode_utf8(
                        or_empty(json_text(#[trigger] rows_in(first)->0[i])),
                    ),
                ),
                sha256_digest(
                    encode_utf8(other_scope) + seq![0u8] + encode_utf8(
                        or_empty(json_text(rows_in(second)->0[k])),
                    ),
                ),
            ),
        forall|i: int|
            0 <= i < k ==> differ_early(
                sha256_digest(
                    encode_utf8(other_scope) + seq![0u8] + encode_utf8(
                        or_empty(json_text(#[trigger] rows_in(second)->0[i])),
                    ),
                ),
                sha256_digest(
                    encode_utf8(other_scope) + seq![0u8] + encode_utf8(
                        or_empty(json_text(rows_in(second)->0[k])),
                    ),
                ),
            ),
    ensures
        ({
            let given = deliver_value(memory, sid, scope, first).memory;
            let step = deliver_value(given, sid, other_scope, second);
            &&& rows_in(step.value) is Some
            &&& rows_in(step.value)->0.contains(rows_in(second)->0[k])
        }),
{
    let given = deliver_value(memory, sid, scope, first).memory;
    let a = rows_in(first)->0;
    let b = rows_in(second)->0;
    let seen = seen_by(make_room(memory, sid), sid);
    assert(seen =~= Set::<u64>::empty());
    lemma_deliver(a, a.len() as int, scope, seen);
    let fp = fingerprint(other_scope, b[k]);
    if seen_by(given, sid).contains(fp) {
        let i = choose|i: int| 0 <= i < a.len() && fingerprint(scope, #[trigger] a[i]) == fp;
        assert(rows_in(first)->0[i] == a[i]);
        law_digests_tell_rows_apart(scope, a[i], other_scope, b[k]);
    }
    assert forall|j: int| 0 <= j < k implies fingerprint(
        other_scope,
        #[trigger] rows_in(second)->0[j],
    ) != fp by {
        law_digests_tell_rows_apart(other_scope, b[j], other_scope, b[k]);
    }
    law_new_rows_stay(given, sid, other_scope, second, k);
}

/// The rows of a response stand under `result`, or under `rows` in the object there; a response
/// without a list at either place has none.
pub proof fn law_rows_stand_under_the_result(
    obj: Seq<(Seq<char>, JsonModel)>,
    inner: Seq<(Seq<char>, JsonModel)>,
    rows: Seq<JsonModel>,
)
    ensures
        value_at(obj, "result"@) == Some(JsonModel::Array(rows)) ==> rows_in(JsonModel::Object(obj))
            == Some(rows),
        value_at(obj, "result"@) == Some(JsonModel::Object(inner)) && value_at(inner, "rows"@)
            == Some(JsonModel::Array(rows)) ==> rows_in(JsonModel::Object(obj)) == Some(rows),
        value_at(obj, "result"@) == Some(JsonModel::Object(inner)) && !(value_at(inner, "rows"@)
            matches Some(JsonModel::Array(_))) ==> rows_in(JsonModel::Object(obj)) is None,
        value_at(obj, "result"@) is None ==> rows_in(JsonModel::Object(obj)) is None,
{
}

/// Of the texts in the content of a response the first one is read, whatever stands before it.
pub proof fn law_first_text_is_read(
    outer: JsonModel,
    items: Seq<JsonModel>,
    i: int,
    text: Seq<char>,
)
    requires
        member(outer, "content"@) == Some(JsonModel::Array(items)),
        0 <= i < items.len(),
        member(items[i], "type"@) == Some(JsonModel::Text("text"@)),
        member(items[i], "text"@) == Some(JsonModel::Text(text)),
        forall|j: int|
            0 <= j < i ==> member(#[trigger] items[j], "type"@) != Some(
                JsonModel::Text("text"@),
            ),
    ensures
        content_text(outer) == Some((i, text)),
{
    lemma_first_text(items, i, 0);
}

proof fn lemma_first_text(items: Seq<JsonModel>, i: int, from: int)
    requires
        0 <= from <= i < items.len(),
        member(items[i], "type"@) == Some(JsonModel::Text("text"@)),
        forall|j: int|
            0 <= j < i ==> member(#[trigger] items[j], "type"@) != Some(
                JsonModel::Text("text"@),
            ),
    ensures
        text_item_from(items, from) == Some(i),
    decreases i - from,
{
    if from < i {
        lemma_first_text(items, i, from + 1);
    }
}

/// A response that has no text with a value in it is delivered by its structured form; one that has
/// neither stays as it is, and nothing is remembered of it.
pub proof fn law_structured_form_alone_is_delivered(
    memory: Map<Seq<char>, Set<u64>>,
    sid: Seq<char>,
    scope: Seq<char>,
    outer: Seq<(Seq<char>, JsonModel)>,
    form: JsonModel,
    key: Seq<char>,
)
    requires
        inner_value(JsonModel::Object(outer)) is None,
    ensures
        ({
            let step = deliver_response(memory, sid, scope, JsonModel::Object(outer));
            let alone = deliver_value(memory, sid, scope, form);
            &&& value_at(outer, "structuredContent"@) == Some(form) ==> {
                &&& member(step.value, "structuredContent"@) == Some(alone.value)
                &&& step.memory == alone.memory
                &&& step.elided == alone.elided
                &&& key != "structuredContent"@ ==> member(step.value, key) == value_at(outer, key)
            }
            &&& value_at(outer, "structuredContent"@) is None ==> {
                &&& step.value == JsonModel::Object(outer)
                &&& step.memory == memory
                &&& step.elided == 0
            }
        }),
{
    if value_at(outer, "structuredContent"@) == Some(form) {
        let alone = deliver_value(memory, sid, scope, form);
        lemma_value_put(outer, "structuredContent"@, alone.value, "structuredContent"@);
        lemma_value_put(outer, "structuredContent"@, alone.value, key);
    }
}

/// A response whose text was delivered keeps everything but that text and its structured form; the
/// text stays too where nothing was left out of it.
pub proof fn law_rest_of_a_response_stays(
    memory: Map<Seq<char>, Set<u64>>,
    sid: Seq<char>,
    scope: Seq<char>,
    outer: Seq<(Seq<char>, JsonModel)>,
    key: Seq<char>,
)
    requires
        key != "structuredContent"@,
        key != "content"@ || deliver_response(
            memory,
            sid,
            scope,
            JsonModel::Object(outer),
        ).elided == 0,
    ensures
        member(
            deliver_response(memory, sid, scope, JsonModel::Object(outer)).value,
            key,
        ) == value_at(outer, key),
{
    let v = JsonModel::Object(outer);
    let step = deliver_response(memory, sid, scope, v);
    if let Some(inner) = inner_value(v) {
        let first = deliver_value(memory, sid, scope, inner);
        let (at, _) = content_text(v)->0;
        let changed = first.elided > 0 && json_text(first.value) is Some;
        let text = json_text(first.value)->0;
        let next = if changed {
            set_content_text(v, at, text)
        } else {
            v
        };
        if changed {
            if let Some(JsonModel::Array(items)) = member(v, "content"@) {
                let list = JsonModel::Array(
                    items.update(at, set_member(items[at], "text"@, JsonModel::Text(text))),
                );
                lemma_value_put(outer, "content"@, list, key);
            }
        }
        assert(member(next, key) == value_at(outer, key));
        if let Some(sc) = member(next, "structuredContent"@) {
            let again = repeat_value(sc, scope, first.gone, first.fresh);
            lemma_value_put(next->Object_0, "structuredContent"@, again, key);
        }
    } else if let Some(sc) = member(v, "structuredContent"@) {
        lemma_value_put(
            outer,
            "structuredContent"@,
            deliver_value(memory, sid, scope, sc).value,
            key,
        );
    }
}

} // verus!
