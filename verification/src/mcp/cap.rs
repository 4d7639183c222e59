//! Keeping responses within a budget of bytes.
//!
//! A response that is too large is dumped into a file by the client, and the model loses
//! sight of its structure. So it is cut at the source: lists are shortened, whole sections
//! are left out, and what was cut is marked next to it.

use crate::json::{
    entry_models, find_key, key_index, lemma_entries_wf, lemma_key_index, lemma_model,
    lemma_ordered_items, lemma_ordered_values, lemma_put, lemma_same_keys, lemma_update_ordered,
    lemma_value_put, lemma_value_update, lemma_value_without, lemma_without, member, models,
    number_of, ordered, ordered_deep, ordered_items, ordered_values, put, put_entry, ser_len,
    value_at, without, Json, JsonModel,
};
use crate::text::{in_list, lists, str_eq};
use vstd::prelude::*;
use vstd::string::*;

verus! {

/// The default budget in bytes of a response.
pub const DEFAULT_MAX_RESPONSE_BYTES: usize = 48_000;

/// The default ceiling of the budget that a client may ask for in one call.
pub const DEFAULT_MAX_RESPONSE_BYTES_HARD: usize = 192_000;

/// The default limit in characters of the body of a function or class.
pub const DEFAULT_MAX_FUNCTION_BODY_CHARS: usize = 15_000;

/// The hint on a response whose lists were shortened.
pub const CAP_HINT: &'static str = "Ответ усечён до лимита размера ([mcp].max_response_bytes) во избежание \
сброса в файл на стороне клиента. Самые длинные массивы сокращены — рядом с каждым `<ключ>_total` \
(исходное число элементов) и `<ключ>_truncated`. Нужен полный перечень — запросите точечно \
(по конкретному имени/фильтру) либо поднимите [mcp].max_response_bytes.";

/// The hint on a response with sections left out.
pub const OMIT_HINT: &'static str = "Крупные секции опущены ЦЕЛИКОМ (массив/мапа = полные данные \
объекта; частичный обрез исказил бы ответ). Рядом — `<секция>_omitted` + `<секция>_count`. \
Нужно значение/секция: проверить КОНКРЕТНОЕ значение — grep_code/grep_body по его имени; \
секция СРЕДНЕГО размера — запроси объект с узким sections=[<секция>] (только её); полный набор \
значений перечисления (сотни) дампом недоступен — бери конкретное значение по имени из кода \
объекта, где оно используется.";

/// The limits that the server applies to responses.
#[derive(Debug)]
pub struct CapSettings {
    /// The budget in bytes; 0 switches the guard off.
    pub response_bytes: usize,
    /// The ceiling of the budget that a client may ask for.
    pub response_bytes_hard: usize,
    /// The limit in characters of a body; 0 switches it off.
    pub function_body_chars: usize,
    /// The tools whose responses are shortened.
    pub tools: Vec<String>,
    /// Whether responses are shortened at all.
    pub enabled: bool,
}

impl CapSettings {
    /// Whether the ceiling leaves room for a response.
    pub open spec fn wf(self) -> bool {
        self.response_bytes_hard > 0
    }
}

/// Whether a tool is among those whose responses are shortened by default.
pub open spec fn is_default_tool(tool: Seq<char>) -> bool {
    tool == "get_event_subscriptions"@ || tool == "bsl_sql"@ || tool == "find_references"@ || tool
        == "get_register_writers"@
}

/// The tools whose responses are shortened by default.
pub fn default_cap_set() -> (r: Vec<String>)
    ensures
        forall|t: Seq<char>| lists(r@, t) <==> is_default_tool(t),
{
    let r = vec![
        "get_event_subscriptions".to_owned(),
        "bsl_sql".to_owned(),
        "find_references".to_owned(),
        "get_register_writers".to_owned(),
    ];
    proof {
        assert(r@[0]@ == "get_event_subscriptions"@);
        assert(r@[1]@ == "bsl_sql"@);
        assert(r@[2]@ == "find_references"@);
        assert(r@[3]@ == "get_register_writers"@);
    }
    r
}

impl Default for CapSettings {
    fn default() -> (r: Self)
        ensures
            r.wf(),
            r.response_bytes == DEFAULT_MAX_RESPONSE_BYTES,
            r.response_bytes_hard == DEFAULT_MAX_RESPONSE_BYTES_HARD,
            r.function_body_chars == DEFAULT_MAX_FUNCTION_BODY_CHARS,
            forall|t: Seq<char>| lists(r.tools@, t) <==> is_default_tool(t),
            r.enabled,
    {
        CapSettings {
            response_bytes: DEFAULT_MAX_RESPONSE_BYTES,
            response_bytes_hard: DEFAULT_MAX_RESPONSE_BYTES_HARD,
            function_body_chars: DEFAULT_MAX_FUNCTION_BODY_CHARS,
            tools: default_cap_set(),
            enabled: true,
        }
    }
}

/// Sets the budget; nothing given means the default, 0 switches the guard off.
pub fn set_response_cap(settings: &mut CapSettings, bytes: Option<usize>)
    ensures
        old(settings).wf() ==> final(settings).wf(),
        *final(settings) == (CapSettings {
            response_bytes: (match bytes {
                Some(n) => n,
                None => DEFAULT_MAX_RESPONSE_BYTES,
            }),
            ..*old(settings)
        }),
{
    settings.response_bytes = match bytes {
        Some(n) => n,
        None => DEFAULT_MAX_RESPONSE_BYTES,
    };
}

/// The budget in bytes; 0 means that the guard is off.
pub fn response_cap(settings: &CapSettings) -> (r: usize)
    ensures
        r == settings.response_bytes,
{
    settings.response_bytes
}

/// The ceiling that a setting asks for. A ceiling of 0 would clamp every request to nothing,
/// so it means the default too.
pub open spec fn hard_cap(bytes: Option<usize>) -> usize {
    match bytes {
        Some(n) => if n > 0 {
            n
        } else {
            DEFAULT_MAX_RESPONSE_BYTES_HARD
        },
        None => DEFAULT_MAX_RESPONSE_BYTES_HARD,
    }
}

/// Sets the ceiling of the budget that a client may ask for.
pub fn set_response_cap_hard(settings: &mut CapSettings, bytes: Option<usize>)
    ensures
        final(settings).wf(),
        *final(settings) == (CapSettings {
            response_bytes_hard: hard_cap(bytes),
            ..*old(settings)
        }),
{
    settings.response_bytes_hard = match bytes {
        Some(n) => if n > 0 {
            n
        } else {
            DEFAULT_MAX_RESPONSE_BYTES_HARD
        },
        None => DEFAULT_MAX_RESPONSE_BYTES_HARD,
    };
}

/// The ceiling of the budget that a client may ask for.
pub fn response_cap_hard(settings: &CapSettings) -> (r: usize)
    ensures
        r == settings.response_bytes_hard,
{
    settings.response_bytes_hard
}

/// The budget that applies to one response.
#[derive(Debug, Clone, Copy, PartialEq, Eq, Structural)]
pub struct RequestBudget {
    /// How many bytes apply; 0 means that the guard is off.
    pub applied: usize,
    /// What the client asked for.
    pub requested: Option<usize>,
    /// Whether the request was clamped to the ceiling.
    pub clamped: bool,
}

/// The budget of one call: what the client asked for, but not above the ceiling. A client
/// cannot switch the guard off.
pub open spec fn request_budget(settings: CapSettings, requested: Option<usize>) -> RequestBudget {
    match requested {
        None => RequestBudget { applied: settings.response_bytes, requested, clamped: false },
        Some(n) => if n == 0 {
            RequestBudget { applied: settings.response_bytes, requested, clamped: false }
        } else if n > settings.response_bytes_hard {
            RequestBudget { applied: settings.response_bytes_hard, requested, clamped: true }
        } else {
            RequestBudget { applied: n, requested, clamped: false }
        },
    }
}

/// Resolves the budget of one call.
pub fn resolve_request_budget(settings: &CapSettings, requested: Option<usize>) -> (r:
    RequestBudget)
    ensures
        r == request_budget(*settings, requested),
{
    match requested {
        None => RequestBudget { applied: settings.response_bytes, requested, clamped: false },
        Some(n) => if n == 0 {
            RequestBudget { applied: settings.response_bytes, requested, clamped: false }
        } else if n > settings.response_bytes_hard {
            RequestBudget { applied: settings.response_bytes_hard, requested, clamped: true }
        } else {
            RequestBudget { applied: n, requested, clamped: false }
        },
    }
}

/// A client that asks for a budget never gets more than the ceiling, and never less than it
/// asked for unless it is clamped to the ceiling.
pub proof fn law_request_within_ceiling(settings: CapSettings, n: usize)
    requires
        n > 0,
    ensures
        request_budget(settings, Some(n)).applied <= settings.response_bytes_hard,
        request_budget(settings, Some(n)).applied <= n,
        request_budget(settings, Some(n)).clamped <==> n > settings.response_bytes_hard,
        !request_budget(settings, Some(n)).clamped ==> request_budget(settings, Some(n)).applied
            == n,
{
}

/// A client cannot switch the guard off: where the server keeps it on, some bytes apply.
pub proof fn law_guard_stays_on(settings: CapSettings, requested: Option<usize>)
    requires
        settings.response_bytes > 0,
        settings.wf(),
    ensures
        request_budget(settings, requested).applied > 0,
{
}

/// Sets the limit of a body; nothing given means the default, 0 switches it off.
pub fn set_function_body_cap(settings: &mut CapSettings, chars: Option<usize>)
    ensures
        old(settings).wf() ==> final(settings).wf(),
        *final(settings) == (CapSettings {
            function_body_chars: (match chars {
                Some(n) => n,
                None => DEFAULT_MAX_FUNCTION_BODY_CHARS,
            }),
            ..*old(settings)
        }),
{
    settings.function_body_chars = match chars {
        Some(n) => n,
        None => DEFAULT_MAX_FUNCTION_BODY_CHARS,
    };
}

/// The limit in characters of a body; 0 means that it is off.
pub fn function_body_cap(settings: &CapSettings) -> (r: usize)
    ensures
        r == settings.function_body_chars,
{
    settings.function_body_chars
}

/// Sets the tools whose responses are shortened; nothing given, or an empty list, means the
/// default ones.
pub fn set_cap_tools(settings: &mut CapSettings, tools: Option<Vec<String>>)
    ensures
        old(settings).wf() ==> final(settings).wf(),
        final(settings).response_bytes == old(settings).response_bytes,
        final(settings).response_bytes_hard == old(settings).response_bytes_hard,
        final(settings).function_body_chars == old(settings).function_body_chars,
        final(settings).enabled == old(settings).enabled,
        forall|t: Seq<char>|
            #![trigger lists(final(settings).tools@, t)]
            lists(final(settings).tools@, t) <==> (match tools {
                Some(v) => if v@.len() > 0 {
                    lists(v@, t)
                } else {
                    is_default_tool(t)
                },
                None => is_default_tool(t),
            }),
{
    settings.tools = match tools {
        Some(v) => if v.len() > 0 {
            v
        } else {
            default_cap_set()
        },
        None => default_cap_set(),
    };
}

/// Switches shortening on or off; nothing given means on.
pub fn set_cap_enabled(settings: &mut CapSettings, enabled: Option<bool>)
    ensures
        old(settings).wf() ==> final(settings).wf(),
        *final(settings) == (CapSettings {
            enabled: (match enabled {
                Some(b) => b,
                None => true,
            }),
            ..*old(settings)
        }),
{
    settings.enabled = match enabled {
        Some(b) => b,
        None => true,
    };
}

/// Whether responses are shortened at all.
pub fn cap_enabled(settings: &CapSettings) -> (r: bool)
    ensures
        r == settings.enabled,
{
    settings.enabled
}

/// Whether the responses of a tool are shortened. The switch counts before the list.
pub fn cap_applies(settings: &CapSettings, tool: &str) -> (r: bool)
    ensures
        r == (settings.enabled && lists(settings.tools@, tool@)),
{
    settings.enabled && in_list(&settings.tools, tool)
}

/// Whether a tool answers with a whole structure, whose lists are never shortened.
pub fn is_structural_tool(tool: &str) -> (r: bool)
    ensures
        r == (tool@ == "get_object_structure"@),
{
    str_eq(tool, "get_object_structure")
}

/// How many keys an object must have more than to count as a section of data.
pub const OMIT_OBJECT_MIN_KEYS: usize = 16;

/// How many cuts are made at most in one response.
pub const MAX_CUTS: usize = 256;

/// How many cuts are made at most in the items of one search response.
pub const MAX_SEARCH_CUTS: usize = 1024;

/// How many bytes are kept free for the marks of a shortened search response.
pub const RESULTS_MARKERS_BYTES: usize = 48;

/// A section of a value: the entry at `entry` of the object at `path`.
pub struct Section {
    /// The way from the root to the object, by indices.
    pub path: Seq<int>,
    pub entry: int,
    /// How many items or keys the section has.
    pub count: nat,
    /// How many bytes its text has.
    pub size: nat,
}

/// The heavier of two sections; the first where they weigh the same.
pub open spec fn heavier(a: Option<Section>, b: Option<Section>) -> Option<Section> {
    match (a, b) {
        (Some(x), Some(y)) => if y.size > x.size {
            b
        } else {
            a
        },
        (Some(_), None) => a,
        (None, _) => b,
    }
}

/// A section of the child at `i`, seen from its parent.
pub open spec fn within(i: int, s: Option<Section>) -> Option<Section> {
    match s {
        Some(x) => Some(Section { path: seq![i] + x.path, ..x }),
        None => None,
    }
}

/// How many parts a value has that can be cut; `only_lists` says whether only lists can be.
pub open spec fn cuttable(v: JsonModel, only_lists: bool) -> Option<nat> {
    match v {
        JsonModel::Array(s) => if s.len() > 1 {
            Some(s.len())
        } else {
            None
        },
        JsonModel::Object(s) => if !only_lists && s.len() > OMIT_OBJECT_MIN_KEYS {
            Some(s.len())
        } else {
            None
        },
        _ => None,
    }
}

/// The entry at `i` itself as a section.
pub open spec fn own_section(s: Seq<(Seq<char>, JsonModel)>, i: int, only_lists: bool) -> Option<
    Section,
> {
    match cuttable(s[i].1, only_lists) {
        Some(count) => Some(
            Section { path: Seq::empty(), entry: i, count, size: ser_len(s[i].1) },
        ),
        None => None,
    }
}

/// The heaviest section that can be cut, the first of several: a list of more than one item,
/// or, where not only lists count, an object of more than 16 keys.
pub open spec fn heaviest(v: JsonModel, only_lists: bool) -> Option<Section>
    decreases v, 0int,
{
    match v {
        JsonModel::Array(s) => heaviest_items(s, s.len() as int, only_lists),
        JsonModel::Object(s) => heaviest_entries(s, s.len() as int, only_lists),
        _ => None,
    }
}

/// The heaviest section in the first `n` items of a list.
pub open spec fn heaviest_items(s: Seq<JsonModel>, n: int, only_lists: bool) -> Option<Section>
    decreases s, n,
{
    if n <= 0 || n > s.len() {
        None
    } else {
        heavier(heaviest_items(s, n - 1, only_lists), within(n - 1, heaviest(s[n - 1], only_lists)))
    }
}

/// The heaviest section in the first `n` entries of an object.
pub open spec fn heaviest_entries(s: Seq<(Seq<char>, JsonModel)>, n: int, only_lists: bool) -> Option<
    Section,
>
    decreases s, n,
{
    if n <= 0 || n > s.len() {
        None
    } else {
        heavier(
            heaviest_entries(s, n - 1, only_lists),
            heavier(
                own_section(s, n - 1, only_lists),
                within(n - 1, heaviest(s[n - 1].1, only_lists)),
            ),
        )
    }
}

/// How an entry of an object is cut.
#[derive(Clone, Copy)]
pub enum Cut {
    /// Left out, with a mark and the number of its parts.
    Omit(usize),
    /// Shortened to half, with a mark and the number of items it had.
    Halve,
}

/// The number of items that stay of `n`.
pub open spec fn half(n: nat) -> nat {
    if n >= 2 {
        n / 2
    } else {
        n
    }
}

/// The entries of an object with the one at `entry` cut.
pub open spec fn cut_entry(s: Seq<(Seq<char>, JsonModel)>, entry: int, cut: Cut) -> Seq<
    (Seq<char>, JsonModel),
> {
    let key = s[entry].0;
    match cut {
        Cut::Omit(count) => put(
            put(without(s, key), key + "_omitted"@, JsonModel::Bool(true)),
            key + "_count"@,
            JsonModel::Number(number_of(count as u64)),
        ),
        Cut::Halve => match s[entry].1 {
            JsonModel::Array(a) => {
                let shorter = s.update(entry, (key, JsonModel::Array(a.take(half(a.len()) as int))));
                let total = if key_index(shorter, key + "_total"@) is Some {
                    shorter
                } else {
                    put(
                        shorter,
                        key + "_total"@,
                        JsonModel::Number(number_of(a.len() as u64)),
                    )
                };
                put(total, key + "_truncated"@, JsonModel::Bool(true))
            },
            _ => s,
        },
    }
}

/// A value with the entry at `entry` of the object at `path` cut.
pub open spec fn cut_at(v: JsonModel, path: Seq<int>, entry: int, cut: Cut) -> JsonModel
    decreases path.len(),
{
    match v {
        JsonModel::Array(s) => if path.len() > 0 && 0 <= path[0] < s.len() {
            JsonModel::Array(s.update(path[0], cut_at(s[path[0]], path.skip(1), entry, cut)))
        } else {
            v
        },
        JsonModel::Object(s) => if path.len() == 0 {
            if 0 <= entry < s.len() {
                JsonModel::Object(cut_entry(s, entry, cut))
            } else {
                v
            }
        } else if 0 <= path[0] < s.len() {
            JsonModel::Object(
                s.update(
                    path[0],
                    (s[path[0]].0, cut_at(s[path[0]].1, path.skip(1), entry, cut)),
                ),
            )
        } else {
            v
        },
        _ => v,
    }
}

/// A value after at most `n` cuts of its heaviest section, as many as the budget needs.
pub open spec fn cut_down(v: JsonModel, budget: nat, only_lists: bool, n: nat) -> JsonModel
    decreases n,
{
    if n == 0 || ser_len(v) <= budget {
        v
    } else {
        match heaviest(v, only_lists) {
            None => v,
            Some(s) => cut_down(
                cut_at(
                    v,
                    s.path,
                    s.entry,
                    if only_lists {
                        Cut::Halve
                    } else {
                        Cut::Omit(s.count as usize)
                    },
                ),
                budget,
                only_lists,
                (n - 1) as nat,
            ),
        }
    }
}

/// A section that was found.
struct FoundSection {
    path: Vec<usize>,
    entry: usize,
    count: usize,
    size: usize,
}

impl FoundSection {
    spec fn section(self) -> Section {
        Section {
            path: self.path@.map_values(|i: usize| i as int),
            entry: self.entry as int,
            count: self.count as nat,
            size: self.size as nat,
        }
    }
}

spec fn found(o: Option<FoundSection>) -> Option<Section> {
    match o {
        Some(f) => Some(f.section()),
        None => None,
    }
}

fn heavier_of(a: Option<FoundSection>, b: Option<FoundSection>) -> (r: Option<FoundSection>)
    ensures
        found(r) == heavier(found(a), found(b)),
{
    match (a, b) {
        (Some(x), Some(y)) => if y.size > x.size {
            Some(y)
        } else {
            Some(x)
        },
        (Some(x), None) => Some(x),
        (None, b) => b,
    }
}

fn seen_from_parent(i: usize, s: Option<FoundSection>) -> (r: Option<FoundSection>)
    ensures
        found(r) == within(i as int, found(s)),
{
    match s {
        Some(f) => {
            let ghost before = f.path@;
            let mut path = f.path;
            path.insert(0, i);
            proof {
                assert(path@.map_values(|k: usize| k as int) =~= seq![i as int]
                    + before.map_values(|k: usize| k as int));
            }
            Some(FoundSection { path, entry: f.entry, count: f.count, size: f.size })
        },
        None => None,
    }
}

fn cuttable_parts(v: &Json, only_lists: bool) -> (r: Option<usize>)
    ensures
        match r {
            Some(n) => cuttable(v.model(), only_lists) == Some(n as nat),
            None => cuttable(v.model(), only_lists) is None,
        },
{
    broadcast use lemma_model;

    match v {
        Json::Array(a) => if a.len() > 1 {
            Some(a.len())
        } else {
            None
        },
        Json::Object(o) => if !only_lists && o.len() > OMIT_OBJECT_MIN_KEYS {
            Some(o.len())
        } else {
            None
        },
        _ => None,
    }
}

fn own_section_of(o: &Vec<(String, Json)>, i: usize, only_lists: bool) -> (r: Option<FoundSection>)
    requires
        i < o@.len(),
        o@[i as int].1.wf(),
    ensures
        found(r) == own_section(entry_models(o@), i as int, only_lists),
{
    match cuttable_parts(&o[i].1, only_lists) {
        Some(count) => {
            let path: Vec<usize> = Vec::new();
            assert(path@.map_values(|k: usize| k as int) =~= Seq::<int>::empty());
            Some(FoundSection { path, entry: i, count, size: o[i].1.text_len() })
        },
        None => None,
    }
}

fn heaviest_section(v: &Json, only_lists: bool) -> (r: Option<FoundSection>)
    requires
        v.wf(),
    ensures
        found(r) == heaviest(v.model(), only_lists),
    decreases *v,
{
    broadcast use lemma_model;

    match v {
        Json::Array(a) => {
            let ghost s = models(a@);
            let mut best: Option<FoundSection> = None;
            let mut i: usize = 0;
            proof {
                lemma_model(*v);
                lemma_ordered_items(s, s.len() as int);
            }
            while i < a.len()
                invariant
                    i <= a@.len(),
                    *v == Json::Array(*a),
                    s == models(a@),
                    forall|k: int| 0 <= k < s.len() ==> #[trigger] ordered_deep(s[k]),
                    found(best) == heaviest_items(s, i as int, only_lists),
                decreases a.len() - i,
            {
                proof {
                    assert(ordered_deep(s[i as int]));
                    assert(decreases_to!(*v => v->Array_0@[i as int]));
                }
                let inner = heaviest_section(&a[i], only_lists);
                best = heavier_of(best, seen_from_parent(i, inner));
                i += 1;
            }
            best
        },
        Json::Object(o) => {
            let ghost s = entry_models(o@);
            let mut best: Option<FoundSection> = None;
            let mut i: usize = 0;
            proof {
                lemma_model(*v);
                lemma_ordered_values(s, s.len() as int);
            }
            while i < o.len()
                invariant
                    i <= o@.len(),
                    *v == Json::Object(*o),
                    s == entry_models(o@),
                    forall|k: int| 0 <= k < s.len() ==> #[trigger] ordered_deep(s[k].1),
                    found(best) == heaviest_entries(s, i as int, only_lists),
                decreases o.len() - i,
            {
                proof {
                    assert(ordered_deep(s[i as int].1));
                    assert(decreases_to!(*v => v->Object_0@[i as int].1));
                }
                let own = own_section_of(o, i, only_lists);
                let inner = heaviest_section(&o[i].1, only_lists);
                best = heavier_of(best, heavier_of(own, seen_from_parent(i, inner)));
                i += 1;
            }
            best
        },
        _ => None,
    }
}

/// Setting keys keeps the objects inside in order.
proof fn lemma_put_deep(s: Seq<(Seq<char>, JsonModel)>, key: Seq<char>, value: JsonModel)
    requires
        ordered(s),
        ordered_values(s, s.len() as int),
        ordered_deep(value),
    ensures
        ordered(put(s, key, value)),
        ordered_values(put(s, key, value), put(s, key, value).len() as int),
{
    lemma_put(s, key, value);
    let p = put(s, key, value);
    lemma_ordered_values(s, s.len() as int);
    lemma_ordered_values(p, p.len() as int);
    assert forall|i: int| 0 <= i < p.len() implies #[trigger] ordered_deep(p[i].1) by {
        if p[i] != (key, value) {
            let k = choose|k: int| 0 <= k < s.len() && s[k] == p[i];
            assert(ordered_deep(s[k].1));
        }
    }
}

/// Replacing the value of an entry keeps the objects inside in order.
proof fn lemma_update_deep(s: Seq<(Seq<char>, JsonModel)>, i: int, value: JsonModel)
    requires
        ordered(s),
        ordered_values(s, s.len() as int),
        ordered_deep(value),
        0 <= i < s.len(),
    ensures
        ordered(s.update(i, (s[i].0, value))),
        ordered_values(s.update(i, (s[i].0, value)), s.len() as int),
{
    let u = s.update(i, (s[i].0, value));
    lemma_update_ordered(s, i, value);
    lemma_ordered_values(s, s.len() as int);
    lemma_ordered_values(u, u.len() as int);
    assert forall|k: int| 0 <= k < u.len() implies #[trigger] ordered_deep(u[k].1) by {
        assert(ordered_deep(s[k].1));
    }
}

/// Taking a key out keeps the objects inside in order.
proof fn lemma_without_deep(s: Seq<(Seq<char>, JsonModel)>, key: Seq<char>)
    requires
        ordered(s),
        ordered_values(s, s.len() as int),
    ensures
        ordered(without(s, key)),
        ordered_values(without(s, key), without(s, key).len() as int),
{
    lemma_without(s, key);
    let w = without(s, key);
    lemma_ordered_values(s, s.len() as int);
    lemma_ordered_values(w, w.len() as int);
    assert forall|i: int| 0 <= i < w.len() implies #[trigger] ordered_deep(w[i].1) by {
        let k = choose|k: int| 0 <= k < s.len() && s[k] == w[i];
        assert(ordered_deep(s[k].1));
    }
}

/// Shortening a list keeps the objects inside in order.
proof fn lemma_take_deep(a: Seq<JsonModel>, n: int)
    requires
        ordered_deep(JsonModel::Array(a)),
        0 <= n <= a.len(),
    ensures
        ordered_deep(JsonModel::Array(a.take(n))),
{
    assert(ordered_items(a, a.len() as int));
    let t = a.take(n);
    lemma_ordered_items(a, a.len() as int);
    lemma_ordered_items(t, t.len() as int);
    assert forall|i: int| 0 <= i < t.len() implies #[trigger] ordered_deep(t[i]) by {
        assert(ordered_deep(a[i]));
    }
    assert(ordered_items(t, t.len() as int));
}

/// The key with a suffix.
fn with_suffix(key: &String, suffix: &str) -> (r: String)
    ensures
        r@ == key@ + suffix@,
{
    let mut out = key.clone();
    out.append(suffix);
    out
}

fn cut_entry_of(o: Vec<(String, Json)>, entry: usize, cut: Cut) -> (r: Vec<(String, Json)>)
    requires
        entry < o@.len(),
        ordered(entry_models(o@)),
        ordered_values(entry_models(o@), o@.len() as int),
    ensures
        entry_models(r@) == cut_entry(entry_models(o@), entry as int, cut),
        ordered(entry_models(r@)),
        ordered_values(entry_models(r@), r@.len() as int),
{
    broadcast use lemma_model;

    let ghost s = entry_models(o@);
    let ghost key0 = s[entry as int].0;
    proof {
        lemma_entries_wf(o@);
        lemma_key_index(s, key0, 0);
    }
    let mut o = o;
    match cut {
        Cut::Omit(count) => {
            proof {
                assert(s[entry as int].0 == key0);
                let k = key_index(s, key0)->0;
                if k != entry {
                    if k < entry {
                        assert(crate::json::before(s[k].0, s[entry as int].0));
                    } else {
                        assert(crate::json::before(s[entry as int].0, s[k].0));
                    }
                    crate::json::lemma_before_total(key0, key0);
                }
                assert(key_index(s, key0) == Some(entry as int));
            }
            let ghost before = o@;
            let e = o.remove(entry);
            let key = e.0;
            proof {
                assert(entry_models(o@) =~= without(s, key0));
                lemma_without_deep(s, key0);
                lemma_entries_wf(o@);
                lemma_put_deep(without(s, key0), key0 + "_omitted"@, JsonModel::Bool(true));
            }
            put_entry(&mut o, with_suffix(&key, "_omitted"), Json::Bool(true));
            let ghost one = put(without(s, key0), key0 + "_omitted"@, JsonModel::Bool(true));
            proof {
                lemma_put_deep(
                    one,
                    key0 + "_count"@,
                    JsonModel::Number(number_of(count as u64)),
                );
                lemma_entries_wf(o@);
            }
            put_entry(&mut o, with_suffix(&key, "_count"), Json::number(count as u64));
            proof {
                lemma_entries_wf(o@);
            }
            o
        },
        Cut::Halve => {
            let ghost before = o@;
            let is_list: bool = match &o[entry].1 {
                Json::Array(_) => true,
                _ => false,
            };
            if !is_list {
                return o;
            }
            let e = o.remove(entry);
            let key = e.0;
            if let Json::Array(items) = e.1 {
                let ghost a = models(items@);
                let total: usize = items.len();
                let mut items = items;
                let keep: usize = if total >= 2 {
                    total / 2
                } else {
                    total
                };
                proof {
                    assert(s[entry as int].1 == JsonModel::Array(a));
                    lemma_ordered_values(s, s.len() as int);
                    assert(ordered_deep(s[entry as int].1));
                }
                items.truncate(keep);
                let ghost shorter = JsonModel::Array(a.take(half(a.len()) as int));
                proof {
                    assert(models(items@) =~= a.take(keep as int));
                    lemma_take_deep(a, keep as int);
                }
                o.insert(entry, (key.clone(), Json::Array(items)));
                let ghost s1 = s.update(entry as int, (key0, shorter));
                proof {
                    lemma_model(o@[entry as int].1);
                    assert(entry_models(o@) =~= s1);
                    lemma_update_deep(s, entry as int, shorter);
                    lemma_entries_wf(o@);
                }
                let mark = with_suffix(&key, "_total");
                if find_key(&o, mark.as_str()).is_none() {
                    proof {
                        lemma_put_deep(
                            s1,
                            key0 + "_total"@,
                            JsonModel::Number(number_of(a.len() as u64)),
                        );
                    }
                    put_entry(&mut o, mark, Json::number(total as u64));
                }
                proof {
                    lemma_entries_wf(o@);
                    lemma_put_deep(
                        entry_models(o@),
                        key0 + "_truncated"@,
                        JsonModel::Bool(true),
                    );
                }
                put_entry(&mut o, with_suffix(&key, "_truncated"), Json::Bool(true));
                proof {
                    lemma_entries_wf(o@);
                }
            }
            o
        },
    }
}

fn cut_path(v: Json, path: &Vec<usize>, from: usize, entry: usize, cut: Cut) -> (r: Json)
    requires
        v.wf(),
        from <= path@.len(),
    ensures
        r.wf(),
        r.model() == cut_at(
            v.model(),
            path@.map_values(|i: usize| i as int).skip(from as int),
            entry as int,
            cut,
        ),
    decreases path@.len() - from,
{
    broadcast use lemma_model;

    let ghost way = path@.map_values(|i: usize| i as int).skip(from as int);
    let ghost m = v.model();
    match v {
        Json::Array(a) => {
            let ghost s = models(a@);
            if from < path.len() && path[from] < a.len() {
                let i: usize = path[from];
                proof {
                    lemma_ordered_items(s, s.len() as int);
                    assert(way[0] == i);
                    assert(way.skip(1) =~= path@.map_values(|i: usize| i as int).skip(from + 1));
                    assert(ordered_deep(s[i as int]));
                }
                let mut a = a;
                let child = a.remove(i);
                let edited = cut_path(child, path, from + 1, entry, cut);
                a.insert(i, edited);
                let r = Json::Array(a);
                proof {
                    lemma_model(r);
                    let u = s.update(i as int, edited.model());
                    assert(models(a@) =~= u);
                    lemma_ordered_items(u, u.len() as int);
                    assert forall|k: int| 0 <= k < u.len() implies #[trigger] ordered_deep(
                        u[k],
                    ) by {
                        assert(ordered_deep(s[k]));
                    }
                    assert(ordered_items(u, u.len() as int));
                }
                r
            } else {
                Json::Array(a)
            }
        },
        Json::Object(o) => {
            let ghost s = entry_models(o@);
            proof {
                assert(ordered_values(s, s.len() as int));
            }
            if from == path.len() {
                if entry < o.len() {
                    let cut_down = cut_entry_of(o, entry, cut);
                    let r = Json::Object(cut_down);
                    proof {
                        lemma_model(r);
                    }
                    r
                } else {
                    Json::Object(o)
                }
            } else if path[from] < o.len() {
                let i: usize = path[from];
                proof {
                    lemma_ordered_values(s, s.len() as int);
                    assert(way[0] == i);
                    assert(way.skip(1) =~= path@.map_values(|i: usize| i as int).skip(from + 1));
                    assert(ordered_deep(s[i as int].1));
                }
                let mut o = o;
                let e = o.remove(i);
                let key = e.0;
                let edited = cut_path(e.1, path, from + 1, entry, cut);
                o.insert(i, (key, edited));
                let r = Json::Object(o);
                proof {
                    lemma_model(r);
                    lemma_update_deep(s, i as int, edited.model());
                    assert(entry_models(o@) =~= s.update(
                        i as int,
                        (s[i as int].0, edited.model()),
                    ));
                }
                r
            } else {
                Json::Object(o)
            }
        },
        other => other,
    }
}

fn cut_loop(value: Json, budget: usize, only_lists: bool, cuts: usize) -> (r: (Json, bool))
    requires
        value.wf(),
    ensures
        r.0.wf(),
        r.0.model() == cut_down(value.model(), budget as nat, only_lists, cuts as nat),
        r.1 == (cuts > 0 && ser_len(value.model()) > budget && heaviest(
            value.model(),
            only_lists,
        ) is Some),
{
    let ghost start = value.model();
    let mut v = value;
    let mut any: bool = false;
    let mut left: usize = cuts;
    while left > 0 && v.text_len() > budget
        invariant
            left <= cuts,
            start == value.model(),
            v.wf(),
            cut_down(start, budget as nat, only_lists, cuts as nat) == cut_down(
                v.model(),
                budget as nat,
                only_lists,
                left as nat,
            ),
            !any ==> left == cuts && v.model() == start,
            any ==> cuts > 0 && ser_len(start) > budget && heaviest(start, only_lists) is Some,
        decreases left,
    {
        match heaviest_section(&v, only_lists) {
            None => {
                return (v, any);
            },
            Some(f) => {
                let cut = if only_lists {
                    Cut::Halve
                } else {
                    Cut::Omit(f.count)
                };
                proof {
                    assert(f.path@.map_values(|i: usize| i as int).skip(0) =~= f.path@.map_values(
                        |i: usize| i as int,
                    ));
                }
                v = cut_path(v, &f.path, 0, f.entry, cut);
                any = true;
                left -= 1;
            },
        }
    }
    (v, any)
}

/// Shortens lists until the text of the value fits the budget: each step halves the heaviest
/// list, down to one item, and marks next to it how many items it had at first. A budget of 0
/// changes nothing. Also says whether anything was shortened.
pub fn cap_response(value: Json, budget: usize) -> (r: (Json, bool))
    requires
        value.wf(),
    ensures
        r.0.wf(),
        r.0.model() == (if budget == 0 {
            value.model()
        } else {
            cut_down(value.model(), budget as nat, true, MAX_CUTS as nat)
        }),
        r.1 == (budget > 0 && ser_len(value.model()) > budget && heaviest(
            value.model(),
            true,
        ) is Some),
{
    if budget == 0 {
        return (value, false);
    }
    cut_loop(value, budget, true, MAX_CUTS)
}

/// Leaves out whole sections until the text of the value fits the budget: each step leaves
/// out the heaviest list or map and marks in its place how many parts it had. Nothing is
/// shortened: a section is there whole, or it is not there. A budget of 0 changes nothing.
/// Also says whether anything was left out.
pub fn omit_oversize_sections(value: Json, budget: usize) -> (r: (Json, bool))
    requires
        value.wf(),
    ensures
        r.0.wf(),
        r.0.model() == (if budget == 0 {
            value.model()
        } else {
            cut_down(value.model(), budget as nat, false, MAX_CUTS as nat)
        }),
        r.1 == (budget > 0 && ser_len(value.model()) > budget && heaviest(
            value.model(),
            false,
        ) is Some),
{
    if budget == 0 {
        return (value, false);
    }
    cut_loop(value, budget, false, MAX_CUTS)
}

/// The items that a search found.
pub open spec fn results_of(v: JsonModel) -> Option<Seq<JsonModel>> {
    match member(v, "results"@) {
        Some(JsonModel::Array(a)) => Some(a),
        _ => None,
    }
}

/// The heaviest section inside the items that a search found. The list of the items itself
/// is none.
pub open spec fn heaviest_in_results(v: JsonModel) -> Option<Section> {
    match v {
        JsonModel::Object(s) => match key_index(s, "results"@) {
            Some(k) => match s[k].1 {
                JsonModel::Array(a) => within(k, heaviest_items(a, a.len() as int, false)),
                _ => None,
            },
            None => None,
        },
        _ => None,
    }
}

/// A search response after at most `n` sections inside its items were left out, as many as
/// the budget needs.
pub open spec fn cut_results(v: JsonModel, budget: nat, n: nat) -> JsonModel
    decreases n,
{
    if n == 0 || ser_len(v) <= budget {
        v
    } else {
        match heaviest_in_results(v) {
            None => v,
            Some(s) => cut_results(
                cut_at(v, s.path, s.entry, Cut::Omit(s.count as usize)),
                budget,
                (n - 1) as nat,
            ),
        }
    }
}

/// A search response with only the first `n` items.
pub open spec fn first_results(v: JsonModel, n: int) -> JsonModel {
    match v {
        JsonModel::Object(s) => match key_index(s, "results"@) {
            Some(k) => match s[k].1 {
                JsonModel::Array(a) => JsonModel::Object(
                    s.update(k, (s[k].0, JsonModel::Array(a.take(n)))),
                ),
                _ => v,
            },
            None => v,
        },
        _ => v,
    }
}

/// How many of `shown` items stay: as many as leave room for the marks, but at least one.
pub open spec fn fitting_results(v: JsonModel, shown: nat, budget: nat) -> nat
    decreases shown,
{
    if shown > 1 && ser_len(first_results(v, shown as int)) + RESULTS_MARKERS_BYTES > budget {
        fitting_results(v, (shown - 1) as nat, budget)
    } else {
        shown
    }
}

/// A search response with the marks of how many items there were and how many are shown.
pub open spec fn mark_results(v: JsonModel, total: nat, shown: nat) -> JsonModel {
    match v {
        JsonModel::Object(s) => JsonModel::Object(
            put(
                put(s, "results_total"@, JsonModel::Number(number_of(total as u64))),
                "results_shown"@,
                JsonModel::Number(number_of(shown as u64)),
            ),
        ),
        _ => v,
    }
}

/// What was done to a search response to make it fit.
#[derive(Debug, Clone, Copy, PartialEq, Eq, Structural)]
pub struct SearchShrink {
    /// The size of the whole response in bytes.
    pub full_bytes: usize,
    /// Whether sections inside the items were left out.
    pub sections_omitted: bool,
    /// Whether the list of the items was shortened.
    pub results_shortened: bool,
    /// How many items there were, where the list was shortened.
    pub results_total: usize,
    /// How many items are shown, where the list was shortened.
    pub results_shown: usize,
}

impl Default for SearchShrink {
    fn default() -> (r: Self)
        ensures
            r == (SearchShrink {
                full_bytes: 0,
                sections_omitted: false,
                results_shortened: false,
                results_total: 0,
                results_shown: 0,
            }),
    {
        SearchShrink {
            full_bytes: 0,
            sections_omitted: false,
            results_shortened: false,
            results_total: 0,
            results_shown: 0,
        }
    }
}

impl SearchShrink {
    /// Whether the response was changed at all.
    pub fn any(&self) -> (r: bool)
        ensures
            r == (self.sections_omitted || self.results_shortened),
    {
        self.sections_omitted || self.results_shortened
    }
}

/// A search response made to fit: sections inside the items are left out first, and only
/// where that is not enough the list of the items is shortened.
pub open spec fn shrunk(v: JsonModel, budget: nat) -> JsonModel {
    if budget == 0 || ser_len(v) <= budget {
        v
    } else {
        let cut = cut_results(v, budget, MAX_SEARCH_CUTS as nat);
        if ser_len(cut) <= budget {
            cut
        } else {
            match results_of(cut) {
                None => cut,
                Some(a) => {
                    let shown = fitting_results(cut, a.len(), budget);
                    if shown < a.len() {
                        mark_results(first_results(cut, shown as int), a.len(), shown)
                    } else {
                        cut
                    }
                },
            }
        }
    }
}

/// What was done to a search response to make it fit.
pub open spec fn shrink_report(v: JsonModel, budget: nat) -> SearchShrink {
    let cut = cut_results(v, budget, MAX_SEARCH_CUTS as nat);
    let over = budget > 0 && ser_len(v) > budget;
    let total = match results_of(cut) {
        Some(a) => a.len(),
        None => 0,
    };
    let shown = fitting_results(cut, total, budget);
    let shortened = over && ser_len(cut) > budget && shown < total;
    SearchShrink {
        full_bytes: ser_len(v) as usize,
        sections_omitted: over && heaviest_in_results(v) is Some,
        results_shortened: shortened,
        results_total: if shortened {
            total as usize
        } else {
            0
        },
        results_shown: if shortened {
            shown as usize
        } else {
            0
        },
    }
}

fn heaviest_section_in_items(v: &Json) -> (r: Option<FoundSection>)
    requires
        v.wf(),
    ensures
        found(r) == heaviest_in_results(v.model()),
{
    broadcast use lemma_model;

    if let Json::Object(o) = v {
        let ghost s = entry_models(o@);
        proof {
            lemma_model(*v);
            lemma_ordered_values(s, s.len() as int);
        }
        if let Some(k) = find_key(o, "results") {
            if let Json::Array(a) = &o[k].1 {
                proof {
                    lemma_model(o@[k as int].1);
                    assert(ordered_deep(s[k as int].1));
                    assert(s[k as int].1 == JsonModel::Array(models(a@)));
                }
                let inner = heaviest_section(&o[k].1, false);
                return seen_from_parent(k, inner);
            }
        }
    }
    None
}

fn results_len(v: &Json) -> (r: usize)
    ensures
        r == (match results_of(v.model()) {
            Some(a) => a.len(),
            None => 0,
        }),
{
    broadcast use lemma_model;

    if let Json::Object(o) = v {
        proof {
            lemma_model(*v);
        }
        if let Some(k) = find_key(o, "results") {
            if let Json::Array(a) = &o[k].1 {
                proof {
                    lemma_model(o@[k as int].1);
                }
                return a.len();
            }
        }
    }
    0
}

fn take_results(v: Json, n: usize) -> (r: Json)
    requires
        v.wf(),
        n <= (match results_of(v.model()) {
            Some(a) => a.len(),
            None => 0,
        }),
    ensures
        r.wf(),
        r.model() == first_results(v.model(), n as int),
{
    broadcast use lemma_model;

    let ghost m = v.model();
    match v {
        Json::Object(o) => {
            let ghost s = entry_models(o@);
            proof {
                assert(ordered_values(s, s.len() as int));
                lemma_ordered_values(s, s.len() as int);
            }
            match find_key(&o, "results") {
                Some(k) => {
                    let is_list: bool = match &o[k].1 {
                        Json::Array(_) => true,
                        _ => false,
                    };
                    if !is_list {
                        return Json::Object(o);
                    }
                    let mut o = o;
                    let e = o.remove(k);
                    let key = e.0;
                    if let Json::Array(items) = e.1 {
                        let ghost a = models(items@);
                        proof {
                            assert(s[k as int].1 == JsonModel::Array(a));
                            assert(ordered_deep(s[k as int].1));
                            lemma_take_deep(a, n as int);
                        }
                        let mut items = items;
                        items.truncate(n);
                        proof {
                            assert(models(items@) =~= a.take(n as int));
                        }
                        o.insert(k, (key, Json::Array(items)));
                        proof {
                            lemma_model(o@[k as int].1);
                            assert(entry_models(o@) =~= s.update(
                                k as int,
                                (s[k as int].0, JsonModel::Array(a.take(n as int))),
                            ));
                            lemma_update_deep(s, k as int, JsonModel::Array(a.take(n as int)));
                        }
                    }
                    let r = Json::Object(o);
                    proof {
                        lemma_model(r);
                    }
                    r
                },
                None => Json::Object(o),
            }
        },
        other => other,
    }
}

fn put_marks(v: Json, total: usize, shown: usize) -> (r: Json)
    requires
        v.wf(),
    ensures
        r.wf(),
        r.model() == mark_results(v.model(), total as nat, shown as nat),
{
    broadcast use lemma_model;

    match v {
        Json::Object(o) => {
            let ghost s = entry_models(o@);
            let ghost one = put(
                s,
                "results_total"@,
                JsonModel::Number(number_of(total as u64)),
            );
            proof {
                assert(ordered_values(s, s.len() as int));
                lemma_entries_wf(o@);
                lemma_put_deep(
                    s,
                    "results_total"@,
                    JsonModel::Number(number_of(total as u64)),
                );
                lemma_put_deep(
                    one,
                    "results_shown"@,
                    JsonModel::Number(number_of(shown as u64)),
                );
            }
            let mut o = o;
            put_entry(&mut o, "results_total".to_owned(), Json::number(total as u64));
            put_entry(&mut o, "results_shown".to_owned(), Json::number(shown as u64));
            let r = Json::Object(o);
            proof {
                lemma_model(r);
            }
            r
        },
        other => other,
    }
}

/// Taking first items again gives the smaller number of them.
pub(crate) proof fn lemma_first_results(v: JsonModel, a: Seq<JsonModel>, m: int, n: int)
    requires
        results_of(v) == Some(a),
        0 <= n <= m <= a.len(),
    ensures
        first_results(first_results(v, m), n) == first_results(v, n),
        results_of(first_results(v, m)) == Some(a.take(m)),
        first_results(v, a.len() as int) == v,
{
    let s = v->Object_0;
    lemma_key_index(s, "results"@, 0);
    let k = key_index(s, "results"@)->0;
    let t = s.update(k, (s[k].0, JsonModel::Array(a.take(m))));
    lemma_same_keys(s, t, "results"@, 0);
    assert(a.take(m).take(n) =~= a.take(n));
    assert(t.update(k, (t[k].0, JsonModel::Array(a.take(n)))) =~= s.update(
        k,
        (s[k].0, JsonModel::Array(a.take(n))),
    ));
    assert(a.take(a.len() as int) =~= a);
    assert(s.update(k, (s[k].0, JsonModel::Array(a))) =~= s);
}

/// Makes a search response fit the budget without losing what was found: sections inside the
/// items are left out first, and only where that is not enough the list of the items is
/// shortened, down to one item. A budget of 0 changes nothing.
pub fn shrink_search_results(value: Json, budget: usize) -> (r: (Json, SearchShrink))
    requires
        value.wf(),
    ensures
        r.0.wf(),
        r.0.model() == shrunk(value.model(), budget as nat),
        r.1 == shrink_report(value.model(), budget as nat),
{
    let ghost start = value.model();
    let mut out = SearchShrink::default();
    out.full_bytes = value.text_len();
    if budget == 0 || out.full_bytes <= budget {
        return (value, out);
    }
    let mut v = value;
    let mut left: usize = MAX_SEARCH_CUTS;
    let mut more: bool = true;
    while left > 0 && more && v.text_len() > budget
        invariant
            left <= MAX_SEARCH_CUTS,
            start == value.model(),
            v.wf(),
            budget > 0,
            ser_len(start) > budget,
            out.full_bytes == ser_len(start),
            !out.results_shortened,
            out.results_total == 0,
            out.results_shown == 0,
            cut_results(start, budget as nat, MAX_SEARCH_CUTS as nat) == cut_results(
                v.model(),
                budget as nat,
                left as nat,
            ),
            !more ==> heaviest_in_results(v.model()) is None,
            !out.sections_omitted ==> left == MAX_SEARCH_CUTS && v.model() == start,
            out.sections_omitted ==> heaviest_in_results(start) is Some,
        decreases left + if more {
            1int
        } else {
            0int
        },
    {
        match heaviest_section_in_items(&v) {
            None => {
                more = false;
            },
            Some(f) => {
                proof {
                    assert(f.path@.map_values(|i: usize| i as int).skip(0) =~= f.path@.map_values(
                        |i: usize| i as int,
                    ));
                }
                v = cut_path(v, &f.path, 0, f.entry, Cut::Omit(f.count));
                out.sections_omitted = true;
                left -= 1;
            },
        }
    }
    let ghost cut = v.model();
    assert(cut == cut_results(start, budget as nat, MAX_SEARCH_CUTS as nat));
    if v.text_len() > budget {
        let total: usize = results_len(&v);
        let mut shown: usize = total;
        let ghost a = match results_of(cut) {
            Some(a) => a,
            None => Seq::empty(),
        };
        proof {
            if results_of(cut) is Some {
                lemma_first_results(cut, a, a.len() as int, a.len() as int);
            }
        }
        let mut room: bool = false;
        while shown > 1 && !room
            invariant
                shown <= total,
                total == a.len(),
                total > 0 ==> results_of(cut) == Some(a),
                v.wf(),
                total > 0 ==> v.model() == first_results(cut, shown as int),
                total == 0 ==> v.model() == cut,
                fitting_results(cut, total as nat, budget as nat) == fitting_results(
                    cut,
                    shown as nat,
                    budget as nat,
                ),
                room ==> fitting_results(cut, shown as nat, budget as nat) == shown,
            decreases shown + if room {
                0int
            } else {
                1int
            },
        {
            let len: usize = v.text_len();
            if len <= budget && budget - len >= RESULTS_MARKERS_BYTES {
                room = true;
            } else {
                proof {
                    lemma_first_results(cut, a, shown as int, shown - 1);
                }
                shown -= 1;
                v = take_results(v, shown);
            }
        }
        if shown < total {
            v = put_marks(v, total, shown);
            out.results_shortened = true;
            out.results_total = total;
            out.results_shown = shown;
        }
    }
    (v, out)
}

/// How many cuts [`cut_down`] makes.
pub open spec fn cuts_made(v: JsonModel, budget: nat, only_lists: bool, n: nat) -> nat
    decreases n,
{
    if n == 0 || ser_len(v) <= budget {
        0
    } else {
        match heaviest(v, only_lists) {
            None => 0,
            Some(s) => 1 + cuts_made(
                cut_at(
                    v,
                    s.path,
                    s.entry,
                    if only_lists {
                        Cut::Halve
                    } else {
                        Cut::Omit(s.count as usize)
                    },
                ),
                budget,
                only_lists,
                (n - 1) as nat,
            ),
        }
    }
}

/// A response that was cut down fits the budget, unless nothing is left in it to cut or all
/// the cuts that are allowed were made.
pub proof fn law_cut_down_fits(v: JsonModel, budget: nat, only_lists: bool, n: nat)
    ensures
        ({
            let r = cut_down(v, budget, only_lists, n);
            ser_len(r) <= budget || heaviest(r, only_lists) is None || cuts_made(
                v,
                budget,
                only_lists,
                n,
            ) == n
        }),
    decreases n,
{
    if n > 0 && ser_len(v) > budget {
        if let Some(s) = heaviest(v, only_lists) {
            let next = cut_at(
                v,
                s.path,
                s.entry,
                if only_lists {
                    Cut::Halve
                } else {
                    Cut::Omit(s.count as usize)
                },
            );
            law_cut_down_fits(next, budget, only_lists, (n - 1) as nat);
        }
    }
}

/// A suffix tells two keys apart.
proof fn lemma_suffixes(key: Seq<char>)
    ensures
        key + "_total"@ != key,
        key + "_truncated"@ != key,
        key + "_total"@ != key + "_truncated"@,
        key + "_omitted"@ != key,
        key + "_count"@ != key,
        key + "_omitted"@ != key + "_count"@,
{
    reveal_strlit("_total");
    reveal_strlit("_truncated");
    reveal_strlit("_omitted");
    reveal_strlit("_count");
    assert((key + "_total"@).len() == key.len() + 6);
    assert((key + "_truncated"@).len() == key.len() + 10);
    assert((key + "_omitted"@).len() == key.len() + 8);
    assert((key + "_count"@).len() == key.len() + 6);
}

/// A list that is shortened keeps the first half of its items, at least one, and next to it stands
/// how many items it had: the number from the first time that it was shortened.
pub proof fn law_shortened_list_is_marked(
    s: Seq<(Seq<char>, JsonModel)>,
    entry: int,
    a: Seq<JsonModel>,
)
    requires
        0 <= entry < s.len(),
        ordered(s),
        s[entry].1 == JsonModel::Array(a),
        a.len() >= 1,
    ensures
        ({
            let key = s[entry].0;
            let r = cut_entry(s, entry, Cut::Halve);
            &&& 1 <= half(a.len()) <= a.len()
            &&& value_at(r, key) == Some(
                JsonModel::Array(
                    a.take(
                        if a.len() == 1 {
                            1
                        } else {
                            (a.len() / 2) as int
                        },
                    ),
                ),
            )
            &&& value_at(r, key + "_truncated"@) == Some(JsonModel::Bool(true))
            &&& value_at(r, key + "_total"@) == (match value_at(s, key + "_total"@) {
                Some(t) => Some(t),
                None => Some(JsonModel::Number(number_of(a.len() as u64))),
            })
        }),
{
    let key = s[entry].0;
    lemma_suffixes(key);
    let list = JsonModel::Array(a.take(half(a.len()) as int));
    let shorter = s.update(entry, (key, list));
    let total = key + "_total"@;
    let mark = key + "_truncated"@;
    let number = JsonModel::Number(number_of(a.len() as u64));
    lemma_value_update(s, entry, list, total);
    lemma_same_keys(s, shorter, key, 0);
    lemma_only_entry(s, entry);
    lemma_key_index(shorter, total, 0);
    let with_total = if key_index(shorter, total) is Some {
        shorter
    } else {
        put(shorter, total, number)
    };
    lemma_value_put(shorter, total, number, key);
    lemma_value_put(shorter, total, number, total);
    lemma_value_put(with_total, mark, JsonModel::Bool(true), key);
    lemma_value_put(with_total, mark, JsonModel::Bool(true), total);
    lemma_value_put(with_total, mark, JsonModel::Bool(true), mark);
}

/// In ordered entries a key is found where it stands.
pub proof fn lemma_only_entry(s: Seq<(Seq<char>, JsonModel)>, entry: int)
    requires
        0 <= entry < s.len(),
        ordered(s),
    ensures
        key_index(s, s[entry].0) == Some(entry),
{
    lemma_key_index(s, s[entry].0, 0);
    crate::json::lemma_before_total(s[entry].0, s[entry].0);
    let k = key_index(s, s[entry].0)->0;
    if k < entry {
        assert(crate::json::before(s[k].0, s[entry].0));
    } else if entry < k {
        assert(crate::json::before(s[entry].0, s[k].0));
    }
}

/// A section that is left out is gone as a whole, and in its place stands how many parts it
/// had.
pub proof fn law_omitted_section_is_counted(
    s: Seq<(Seq<char>, JsonModel)>,
    entry: int,
    count: usize,
)
    requires
        0 <= entry < s.len(),
        ordered(s),
    ensures
        ({
            let key = s[entry].0;
            let r = cut_entry(s, entry, Cut::Omit(count));
            &&& value_at(r, key) is None
            &&& value_at(r, key + "_omitted"@) == Some(JsonModel::Bool(true))
            &&& value_at(r, key + "_count"@) == Some(JsonModel::Number(number_of(count as u64)))
        }),
{
    let key = s[entry].0;
    lemma_suffixes(key);
    let gone = without(s, key);
    let number = JsonModel::Number(number_of(count as u64));
    let one = put(gone, key + "_omitted"@, JsonModel::Bool(true));
    lemma_value_without(s, key, key);
    lemma_value_put(gone, key + "_omitted"@, JsonModel::Bool(true), key);
    lemma_value_put(gone, key + "_omitted"@, JsonModel::Bool(true), key + "_omitted"@);
    lemma_value_put(one, key + "_count"@, number, key);
    lemma_value_put(one, key + "_count"@, number, key + "_omitted"@);
    lemma_value_put(one, key + "_count"@, number, key + "_count"@);
}

/// Whether a key is one of the marks that a cut sets.
pub open spec fn is_mark(key: Seq<char>) -> bool {
    exists|k: Seq<char>| key == #[trigger] (k + "_omitted"@) || key == k + "_count"@
}

/// Whether a value is neither a list nor an object.
pub open spec fn is_plain(v: Option<JsonModel>) -> bool {
    !(v matches Some(JsonModel::Array(_))) && !(v matches Some(JsonModel::Object(_)))
}

/// Whether an item is still told by the same plain values, apart from the marks.
pub open spec fn same_passport(a: JsonModel, b: JsonModel) -> bool {
    forall|x: Seq<char>|
        !is_mark(x) && is_plain(member(a, x)) ==> #[trigger] member(b, x) == member(a, x)
}

/// Leaving out a section inside an item leaves the plain values of the item as they are.
proof fn lemma_cut_passport(v: JsonModel, path: Seq<int>, entry: int, count: usize)
    requires
        ordered_deep(v),
        v matches JsonModel::Object(s) ==> (path.len() == 0 && 0 <= entry < s.len() ==> cuttable(
            s[entry].1,
            false,
        ) is Some),
    ensures
        same_passport(v, cut_at(v, path, entry, Cut::Omit(count))),
{
    let r = cut_at(v, path, entry, Cut::Omit(count));
    if let JsonModel::Object(s) = v {
        assert forall|x: Seq<char>| !is_mark(x) && is_plain(member(v, x)) implies #[trigger] member(
            r,
            x,
        ) == member(v, x) by {
            if path.len() == 0 {
                if 0 <= entry < s.len() {
                    let key = s[entry].0;
                    let gone = without(s, key);
                    let one = put(gone, key + "_omitted"@, JsonModel::Bool(true));
                    lemma_only_entry(s, entry);
                    assert(x != key);
                    assert(x != key + "_omitted"@);
                    assert(x != key + "_count"@);
                    lemma_value_without(s, key, x);
                    lemma_value_put(gone, key + "_omitted"@, JsonModel::Bool(true), x);
                    lemma_value_put(
                        one,
                        key + "_count"@,
                        JsonModel::Number(number_of(count as u64)),
                        x,
                    );
                }
            } else if 0 <= path[0] < s.len() {
                let inner = s[path[0]].1;
                if x != s[path[0]].0 {
                    lemma_value_update(
                        s,
                        path[0],
                        cut_at(inner, path.skip(1), entry, Cut::Omit(count)),
                        x,
                    );
                } else {
                    lemma_only_entry(s, path[0]);
                    lemma_same_keys(s, r->Object_0, x, 0);
                }
            }
        }
    }
}

/// Where the heaviest section stands there is an object with a part that can be cut.
pub proof fn lemma_heaviest_place(v: JsonModel, only_lists: bool)
    ensures
        heaviest(v, only_lists) matches Some(x) ==> section_in(v, x, only_lists),
    decreases v, 1int,
{
    match v {
        JsonModel::Array(s) => {
            lemma_heaviest_item_place(s, s.len() as int, only_lists);
        },
        JsonModel::Object(s) => {
            lemma_heaviest_entry_place(s, s.len() as int, only_lists);
        },
        _ => {},
    }
}

/// Whether a section names a part of a value that can be cut.
pub open spec fn section_in(v: JsonModel, x: Section, only_lists: bool) -> bool
    decreases x.path.len(),
{
    match v {
        JsonModel::Array(s) => x.path.len() > 0 && 0 <= x.path[0] < s.len() && section_in(
            s[x.path[0]],
            Section { path: x.path.skip(1), ..x },
            only_lists,
        ),
        JsonModel::Object(s) => if x.path.len() == 0 {
            0 <= x.entry < s.len() && cuttable(s[x.entry].1, only_lists) is Some
        } else {
            0 <= x.path[0] < s.len() && section_in(
                s[x.path[0]].1,
                Section { path: x.path.skip(1), ..x },
                only_lists,
            )
        },
        _ => false,
    }
}

proof fn lemma_heaviest_item_place(s: Seq<JsonModel>, n: int, only_lists: bool)
    ensures
        heaviest_items(s, n, only_lists) matches Some(x) ==> x.path.len() > 0 && 0 <= x.path[0]
            < s.len() && section_in(
            s[x.path[0]],
            Section { path: x.path.skip(1), ..x },
            only_lists,
        ),
    decreases s, n,
{
    if 0 < n <= s.len() {
        lemma_heaviest_item_place(s, n - 1, only_lists);
        lemma_heaviest_place(s[n - 1], only_lists);
        if let Some(x) = heaviest(s[n - 1], only_lists) {
            assert((seq![n - 1] + x.path).skip(1) =~= x.path);
        }
    }
}

proof fn lemma_heaviest_entry_place(s: Seq<(Seq<char>, JsonModel)>, n: int, only_lists: bool)
    ensures
        heaviest_entries(s, n, only_lists) matches Some(x) ==> section_in(
            JsonModel::Object(s),
            x,
            only_lists,
        ),
    decreases s, n,
{
    if 0 < n <= s.len() {
        lemma_heaviest_entry_place(s, n - 1, only_lists);
        lemma_heaviest_place(s[n - 1].1, only_lists);
        if let Some(x) = heaviest(s[n - 1].1, only_lists) {
            assert((seq![n - 1] + x.path).skip(1) =~= x.path);
        }
    }
}

/// One cut inside the items of a search response keeps every item and what tells it.
proof fn lemma_cut_result(v: JsonModel, a: Seq<JsonModel>, count: usize)
    requires
        ordered_deep(v),
        results_of(v) == Some(a),
        heaviest_in_results(v) is Some,
    ensures
        ({
            let x = heaviest_in_results(v)->0;
            let r = cut_at(v, x.path, x.entry, Cut::Omit(count));
            &&& results_of(r) matches Some(b) && b.len() == a.len() && (forall|i: int|
                0 <= i < a.len() ==> same_passport(#[trigger] a[i], b[i]))
        }),
{
    let s = v->Object_0;
    let x = heaviest_in_results(v)->0;
    lemma_key_index(s, "results"@, 0);
    let k = key_index(s, "results"@)->0;
    lemma_heaviest_item_place(a, a.len() as int, false);
    let y = heaviest_items(a, a.len() as int, false)->0;
    let way = y.path;
    assert(x.path =~= seq![k] + way);
    assert(x.path.skip(1) =~= way);
    let j = way[0];
    let item = a[j];
    let rest = way.skip(1);
    let edited = cut_at(item, rest, x.entry, Cut::Omit(count));
    let b = a.update(j, edited);
    let r = cut_at(v, x.path, x.entry, Cut::Omit(count));
    assert(cut_at(JsonModel::Array(a), way, x.entry, Cut::Omit(count)) == JsonModel::Array(b));
    let t = s.update(k, (s[k].0, JsonModel::Array(b)));
    assert(r == JsonModel::Object(t));
    lemma_same_keys(s, t, "results"@, 0);
    lemma_ordered_values(s, s.len() as int);
    assert(ordered_deep(s[k].1));
    assert(ordered_items(a, a.len() as int));
    lemma_ordered_items(a, a.len() as int);
    assert(ordered_deep(a[j]));
    lemma_cut_passport(item, rest, x.entry, count);
}

/// Cutting an entry keeps the objects inside in order.
proof fn lemma_cut_entry_ordered(s: Seq<(Seq<char>, JsonModel)>, entry: int, cut: Cut)
    requires
        ordered(s),
        ordered_values(s, s.len() as int),
        0 <= entry < s.len(),
    ensures
        ordered(cut_entry(s, entry, cut)),
        ordered_values(cut_entry(s, entry, cut), cut_entry(s, entry, cut).len() as int),
{
    let key = s[entry].0;
    match cut {
        Cut::Omit(count) => {
            let gone = without(s, key);
            let one = put(gone, key + "_omitted"@, JsonModel::Bool(true));
            let number = JsonModel::Number(number_of(count as u64));
            lemma_without_deep(s, key);
            lemma_put_deep(gone, key + "_omitted"@, JsonModel::Bool(true));
            lemma_put_deep(one, key + "_count"@, number);
        },
        Cut::Halve => {
            if let JsonModel::Array(a) = s[entry].1 {
                let list = JsonModel::Array(a.take(half(a.len()) as int));
                let shorter = s.update(entry, (key, list));
                let number = JsonModel::Number(number_of(a.len() as u64));
                let total = if key_index(shorter, key + "_total"@) is Some {
                    shorter
                } else {
                    put(shorter, key + "_total"@, number)
                };
                lemma_ordered_values(s, s.len() as int);
                assert(ordered_deep(s[entry].1));
                lemma_take_deep(a, half(a.len()) as int);
                lemma_update_deep(s, entry, list);
                lemma_put_deep(shorter, key + "_total"@, number);
                lemma_put_deep(total, key + "_truncated"@, JsonModel::Bool(true));
            }
        },
    }
}

/// Cutting at a path keeps the objects inside in order.
pub proof fn lemma_cut_ordered(v: JsonModel, path: Seq<int>, entry: int, cut: Cut)
    requires
        ordered_deep(v),
    ensures
        ordered_deep(cut_at(v, path, entry, cut)),
    decreases path.len(),
{
    match v {
        JsonModel::Array(s) => {
            if path.len() > 0 && 0 <= path[0] < s.len() {
                assert(ordered_items(s, s.len() as int));
                lemma_ordered_items(s, s.len() as int);
                assert(ordered_deep(s[path[0]]));
                lemma_cut_ordered(s[path[0]], path.skip(1), entry, cut);
                let u = s.update(path[0], cut_at(s[path[0]], path.skip(1), entry, cut));
                lemma_ordered_items(u, u.len() as int);
                assert forall|k: int| 0 <= k < u.len() implies #[trigger] ordered_deep(u[k]) by {
                    assert(ordered_deep(s[k]));
                }
                assert(ordered_items(u, u.len() as int));
            }
        },
        JsonModel::Object(s) => {
            assert(ordered_values(s, s.len() as int));
            if path.len() == 0 {
                if 0 <= entry < s.len() {
                    lemma_cut_entry_ordered(s, entry, cut);
                    let r = cut_entry(s, entry, cut);
                    assert(ordered_values(r, r.len() as int));
                }
            } else if 0 <= path[0] < s.len() {
                lemma_ordered_values(s, s.len() as int);
                assert(ordered_deep(s[path[0]].1));
                lemma_cut_ordered(s[path[0]].1, path.skip(1), entry, cut);
                let inner = cut_at(s[path[0]].1, path.skip(1), entry, cut);
                lemma_update_deep(s, path[0], inner);
                let u = s.update(path[0], (s[path[0]].0, inner));
                assert(ordered_values(u, u.len() as int));
            }
        },
        _ => {},
    }
}

/// Leaving out sections inside the items keeps every item and what tells it.
pub(crate) proof fn lemma_cut_results(v: JsonModel, a: Seq<JsonModel>, budget: nat, n: nat)
    requires
        ordered_deep(v),
        results_of(v) == Some(a),
    ensures
        ordered_deep(cut_results(v, budget, n)),
        results_of(cut_results(v, budget, n)) matches Some(b) && b.len() == a.len() && (forall|
            i: int,
        |
            0 <= i < a.len() ==> same_passport(#[trigger] a[i], b[i])),
    decreases n,
{
    if n > 0 && ser_len(v) > budget {
        if let Some(x) = heaviest_in_results(v) {
            let count = x.count as usize;
            let next = cut_at(v, x.path, x.entry, Cut::Omit(count));
            lemma_cut_result(v, a, count);
            lemma_cut_ordered(v, x.path, x.entry, Cut::Omit(count));
            let b = results_of(next)->0;
            lemma_cut_results(next, b, budget, (n - 1) as nat);
            let c = results_of(cut_results(next, budget, (n - 1) as nat))->0;
            assert forall|i: int| 0 <= i < a.len() implies same_passport(#[trigger] a[i], c[i]) by {
                assert(same_passport(a[i], b[i]));
                assert(same_passport(b[i], c[i]));
                assert forall|y: Seq<char>|
                    !is_mark(y) && is_plain(member(a[i], y)) implies #[trigger] member(c[i], y)
                    == member(a[i], y) by {
                    assert(member(b[i], y) == member(a[i], y));
                }
            }
        }
    }
}

proof fn lemma_fitting(v: JsonModel, shown: nat, budget: nat)
    ensures
        fitting_results(v, shown, budget) <= shown,
        shown >= 1 ==> fitting_results(v, shown, budget) >= 1,
    decreases shown,
{
    if shown > 1 {
        lemma_fitting(v, (shown - 1) as nat, budget);
    }
}

/// What a search found is never lost, whatever the budget: at least one item is shown, the
/// items shown are the first ones, and each of them is told by the same plain values as
/// before.
pub proof fn law_search_keeps_items(v: JsonModel, a: Seq<JsonModel>, budget: nat)
    requires
        ordered_deep(v),
        results_of(v) == Some(a),
        a.len() >= 1,
    ensures
        results_of(shrunk(v, budget)) matches Some(b) && 1 <= b.len() <= a.len() && (forall|i: int|
            0 <= i < b.len() ==> same_passport(#[trigger] a[i], b[i])),
{
    assert forall|i: int| 0 <= i < a.len() implies same_passport(#[trigger] a[i], a[i]) by {}
    if budget > 0 && ser_len(v) > budget {
        let cut = cut_results(v, budget, MAX_SEARCH_CUTS as nat);
        lemma_cut_results(v, a, budget, MAX_SEARCH_CUTS as nat);
        let b = results_of(cut)->0;
        let shown = fitting_results(cut, b.len(), budget);
        lemma_fitting(cut, b.len(), budget);
        lemma_first_results(cut, b, shown as int, shown as int);
        let first = first_results(cut, shown as int);
        if ser_len(cut) > budget && shown < b.len() {
            reveal_strlit("results");
            reveal_strlit("results_total");
            reveal_strlit("results_shown");
            assert("results"@.len() == 7);
            assert("results_total"@.len() == 13);
            assert("results_shown"@.len() == 13);
            let s = first->Object_0;
            let total = JsonModel::Number(number_of(b.len() as u64));
            let one = put(s, "results_total"@, total);
            lemma_value_put(s, "results_total"@, total, "results"@);
            lemma_value_put(
                one,
                "results_shown"@,
                JsonModel::Number(number_of(shown as u64)),
                "results"@,
            );
            let c = b.take(shown as int);
            assert forall|i: int| 0 <= i < c.len() implies same_passport(#[trigger] a[i], c[i]) by {
                assert(c[i] == b[i]);
            }
        }
    }
}

/// A request that is clamped gets the ceiling. One that asks for nothing, or for no bytes, gets the
/// budget of the server. The budget says what was asked for.
pub proof fn law_budget_of_a_request(settings: CapSettings, requested: Option<usize>)
    ensures
        ({
            let b = request_budget(settings, requested);
            &&& b.requested == requested
            &&& b.clamped ==> b.applied == settings.response_bytes_hard && requested is Some
            &&& requested is None || requested == Some(0usize) ==> b.applied
                == settings.response_bytes && !b.clamped
        }),
{
}

/// The ceiling is what the settings ask for; a ceiling of nothing, or none at all, means 192000 bytes.
pub proof fn law_ceiling_of_the_settings(n: usize)
    ensures
        n > 0 ==> hard_cap(Some(n)) == n,
        hard_cap(Some(0)) == 192_000,
        hard_cap(None) == 192_000,
{
}

/// A report gives the size of the whole response. Where nothing was shortened, it counts no items.
pub proof fn law_report_gives_the_full_size(v: JsonModel, budget: nat)
    ensures
        shrink_report(v, budget).full_bytes == ser_len(v) as usize,
        !shrink_report(v, budget).results_shortened ==> shrink_report(v, budget).results_total == 0
            && shrink_report(v, budget).results_shown == 0,
        budget == 0 || ser_len(v) <= budget ==> !shrink_report(v, budget).sections_omitted
            && !shrink_report(v, budget).results_shortened,
{
}

} // verus!
