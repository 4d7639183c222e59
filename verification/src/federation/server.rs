//! Calls from other nodes of the federation.

use crate::federation::RepoEntry;
use crate::json::{
    canonical, entry_models, in_order, json_pretty_text, lemma_model, lemma_ordered_items, models,
    ordered_deep, parsed_json, Json, JsonModel,
};
use crate::text::{str_eq, texts};
use vstd::prelude::*;
use vstd::string::*;

verus! {

/// Whether a tool answers calls that another node forwards.
pub open spec fn forwarded(tool: Seq<char>) -> bool {
    tool == "search_function"@ || tool == "search_class"@ || tool == "get_function"@ || tool
        == "get_class"@ || tool == "get_callers"@ || tool == "get_callees"@ || tool
        == "find_symbol"@ || tool == "get_imports"@ || tool == "get_file_summary"@ || tool
        == "get_stats"@ || tool == "search_text"@ || tool == "grep_body"@
}

/// Whether a tool answers calls that another node forwards.
pub fn is_forwarded(tool: &str) -> (r: bool)
    ensures
        r == forwarded(tool@),
{
    str_eq(tool, "search_function") || str_eq(tool, "search_class") || str_eq(
        tool,
        "get_function",
    ) || str_eq(tool, "get_class") || str_eq(tool, "get_callers") || str_eq(tool, "get_callees")
        || str_eq(tool, "find_symbol") || str_eq(tool, "get_imports") || str_eq(
        tool,
        "get_file_summary",
    ) || str_eq(tool, "get_stats") || str_eq(tool, "search_text") || str_eq(tool, "grep_body")
}

/// The place of a repository with a given alias, from `i` on.
pub open spec fn place_from(repos: Seq<(String, RepoEntry)>, alias: Seq<char>, i: int) -> Option<
    int,
>
    decreases repos.len() - i,
{
    if i < 0 || i >= repos.len() {
        None
    } else if repos[i].0@ == alias {
        Some(i)
    } else {
        place_from(repos, alias, i + 1)
    }
}

fn find_repo(repos: &Vec<(String, RepoEntry)>, alias: &str) -> (r: Option<usize>)
    ensures
        match r {
            Some(i) => i < repos@.len() && place_from(repos@, alias@, 0) == Some(i as int),
            None => place_from(repos@, alias@, 0) is None,
        },
{
    let mut i: usize = 0;
    while i < repos.len()
        invariant
            i <= repos@.len(),
            place_from(repos@, alias@, 0) == place_from(repos@, alias@, i as int),
        decreases repos.len() - i,
    {
        if str_eq(repos[i].0.as_str(), alias) {
            return Some(i);
        }
        i += 1;
    }
    None
}

/// Why a call from another node cannot be answered.
#[derive(Debug, Clone)]
pub enum LocalFault {
    /// The repository is not known.
    Unknown,
    /// The repository is not local here: the settings of the nodes do not agree.
    Diverged { ip: String, message: String },
}

/// What is said of a repository that is not local here.
pub open spec fn diverged_message(repo: Seq<char>, ip: Seq<char>) -> Seq<char> {
    "Конфиги разошлись: репо '"@ + repo
        + "' помечен local на удалённой стороне, но у нас он указывает на ip="@ + ip
}

/// The repository that a call from another node is about, by its place. It must be local.
pub fn resolve_local(repos: &Vec<(String, RepoEntry)>, repo: &str) -> (r: Result<
    usize,
    LocalFault,
>)
    ensures
        match place_from(repos@, repo@, 0) {
            None => r is Err && r->Err_0 is Unknown,
            Some(i) => if repos@[i].1.is_local {
                r is Ok && r->Ok_0 == i
            } else {
                r matches Err(LocalFault::Diverged { ip, message }) && ip@ == repos@[i].1.ip@
                    && message@ == diverged_message(repo@, repos@[i].1.ip@)
            },
        },
{
    match find_repo(repos, repo) {
        None => Err(LocalFault::Unknown),
        Some(i) => {
            let entry = &repos[i].1;
            if entry.is_local {
                return Ok(i);
            }
            let mut message = "Конфиги разошлись: репо '".to_owned();
            message.append(repo);
            message.append(
                "' помечен local на удалённой стороне, но у нас он указывает на ip=",
            );
            message.append(entry.ip.as_str());
            Err(LocalFault::Diverged { ip: entry.ip.clone(), message })
        },
    }
}

/// How a list of texts is written for people.
pub uninterp spec fn debug_list(items: Seq<Seq<char>>) -> Seq<char>;

/// Calls `format!` with `{:?}` on a list of texts.
#[verifier::external_body]
fn write_list(items: &Vec<String>) -> (r: String)
    ensures
        r@ == debug_list(texts(items@)),
{
    format!("{:?}", items)
}

/// What is answered to a call for statistics.
#[derive(Debug, Clone)]
pub enum StatsRoute {
    /// The statistics of the repository at this place.
    Local(usize),
    /// That the repository is not local here.
    Diverged { ip: String, message: String },
    /// That the repository is not known.
    Unknown(String),
    /// The statistics of the repositories at these places.
    All(Vec<usize>),
}

/// What is said of a repository that is not local here, where its statistics are asked for.
pub open spec fn stats_diverged_message(repo: Seq<char>, ip: Seq<char>) -> Seq<char> {
    "Конфиги разошлись: репо '"@ + repo
        + "' помечен local у вызывающей стороны, у нас он remote (ip="@ + ip + ")"@
}

/// What is said of a repository that is not known, given the list of those that are.
pub open spec fn unknown_message(repo: Seq<char>, list: Seq<char>) -> Seq<char> {
    "Неизвестный repo '"@ + repo + "'. Доступные на этой ноде: "@ + list + "."@
}

/// What is said of a repository that is not known, given the list of those that are.
pub fn unknown_repo_message(repo: &str, list: &str) -> (r: String)
    ensures
        r@ == unknown_message(repo@, list@),
{
    let mut message = "Неизвестный repo '".to_owned();
    message.append(repo);
    message.append("'. Доступные на этой ноде: ");
    message.append(list);
    message.append(".");
    message
}

/// The aliases of repositories.
pub open spec fn aliases(repos: Seq<(String, RepoEntry)>) -> Seq<Seq<char>> {
    repos.map_values(|e: (String, RepoEntry)| e.0@)
}

/// The places of those among the first `n` repositories that are local.
pub open spec fn local_places(repos: Seq<(String, RepoEntry)>, n: int) -> Seq<usize>
    decreases n,
{
    if n <= 0 {
        Seq::empty()
    } else if repos[n - 1].1.is_local {
        local_places(repos, n - 1).push((n - 1) as usize)
    } else {
        local_places(repos, n - 1)
    }
}

fn repo_aliases(repos: &Vec<(String, RepoEntry)>) -> (r: Vec<String>)
    ensures
        texts(r@) == aliases(repos@),
{
    let mut out: Vec<String> = Vec::new();
    let mut i: usize = 0;
    while i < repos.len()
        invariant
            i <= repos@.len(),
            out@.len() == i,
            forall|k: int| 0 <= k < i ==> (#[trigger] out@[k])@ == repos@[k].0@,
        decreases repos.len() - i,
    {
        out.push(repos[i].0.clone());
        i += 1;
    }
    proof {
        assert(texts(out@) =~= aliases(repos@));
    }
    out
}

/// What is answered to a call for statistics. Without a repository, those of the local ones:
/// calls are never passed on, so that nodes cannot call each other in a circle.
pub fn handle_get_stats(repos: &Vec<(String, RepoEntry)>, repo: Option<&str>) -> (r: StatsRoute)
    ensures
        match repo {
            None => r matches StatsRoute::All(places) && places@ == local_places(
                repos@,
                repos@.len() as int,
            ),
            Some(alias) => match place_from(repos@, alias@, 0) {
                None => r matches StatsRoute::Unknown(message) && message@ == unknown_message(
                    alias@,
                    debug_list(aliases(repos@)),
                ),
                Some(i) => if repos@[i].1.is_local {
                    r matches StatsRoute::Local(k) && k == i
                } else {
                    r matches StatsRoute::Diverged { ip, message } && ip@ == repos@[i].1.ip@
                        && message@ == stats_diverged_message(alias@, repos@[i].1.ip@)
                },
            },
        },
{
    let alias = match repo {
        Some(alias) => alias,
        None => {
            let mut places: Vec<usize> = Vec::new();
            let mut i: usize = 0;
            while i < repos.len()
                invariant
                    i <= repos@.len(),
                    places@ == local_places(repos@, i as int),
                decreases repos.len() - i,
            {
                if repos[i].1.is_local {
                    places.push(i);
                }
                i += 1;
            }
            return StatsRoute::All(places);
        },
    };
    match find_repo(repos, alias) {
        None => {
            let known = repo_aliases(repos);
            let list = write_list(&known);
            StatsRoute::Unknown(unknown_repo_message(alias, list.as_str()))
        },
        Some(i) => {
            let entry = &repos[i].1;
            if entry.is_local {
                return StatsRoute::Local(i);
            }
            let mut message = "Конфиги разошлись: репо '".to_owned();
            message.append(alias);
            message.append("' помечен local у вызывающей стороны, у нас он remote (ip=");
            message.append(entry.ip.as_str());
            message.append(")");
            StatsRoute::Diverged { ip: entry.ip.clone(), message }
        },
    }
}

/// The statistics of one repository in a summary: the answer as a value, or, where it is none,
/// the alias and the raw answer.
pub open spec fn stats_item(alias: Seq<char>, body: Seq<char>) -> JsonModel {
    match parsed_json(body) {
        Some(m) => canonical(m),
        None => JsonModel::Object(
            in_order(
                seq![("repo"@, JsonModel::Text(alias)), ("raw"@, JsonModel::Text(body))],
            ),
        ),
    }
}

/// The statistics of repositories in a summary.
pub open spec fn stats_items(bodies: Seq<(String, String)>) -> Seq<JsonModel> {
    Seq::new(bodies.len(), |i: int| stats_item(bodies[i].0@, bodies[i].1@))
}

fn summary_item(alias: &str, body: &str) -> (r: Json)
    ensures
        r.wf(),
        r.model() == stats_item(alias@, body@),
{
    match Json::parse(body) {
        Some(v) => v,
        None => {
            let mut entries: Vec<(String, Json)> = Vec::new();
            entries.push(("repo".to_owned(), Json::Text(alias.to_owned())));
            entries.push(("raw".to_owned(), Json::Text(body.to_owned())));
            proof {
                broadcast use lemma_model;

                assert(entry_models(entries@) =~= seq![
                    ("repo"@, JsonModel::Text(alias@)),
                    ("raw"@, JsonModel::Text(body@)),
                ]);
                assert forall|i: int| 0 <= i < entries@.len() implies (
                #[trigger] entries@[i]).1.wf() by {}
            }
            Json::object(entries)
        },
    }
}

/// The summary of the statistics of repositories, given the answer of each.
pub open spec fn stats_summary_value(bodies: Seq<(String, String)>) -> JsonModel {
    JsonModel::Object(in_order(seq![("repos"@, JsonModel::Array(stats_items(bodies)))]))
}

/// The summary of the statistics of repositories, given the alias and the answer of each.
pub fn stats_summary(bodies: &Vec<(String, String)>) -> (r: Json)
    ensures
        r.wf(),
        r.model() == stats_summary_value(bodies@),
{
    let mut items: Vec<Json> = Vec::new();
    let mut i: usize = 0;
    while i < bodies.len()
        invariant
            i <= bodies@.len(),
            items@.len() == i,
            forall|k: int|
                0 <= k < i ==> (#[trigger] items@[k]).wf() && items@[k].model() == stats_item(
                    bodies@[k].0@,
                    bodies@[k].1@,
                ),
        decreases bodies.len() - i,
    {
        items.push(summary_item(bodies[i].0.as_str(), bodies[i].1.as_str()));
        i += 1;
    }
    let ghost list = items@;
    let mut entries: Vec<(String, Json)> = Vec::new();
    let array = Json::Array(items);
    proof {
        broadcast use lemma_model;

        lemma_model(array);
        assert(models(list) =~= stats_items(bodies@));
        lemma_ordered_items(models(list), list.len() as int);
        assert forall|k: int| 0 <= k < list.len() implies #[trigger] ordered_deep(
            models(list)[k],
        ) by {
            assert(list[k].wf());
        }
    }
    entries.push(("repos".to_owned(), array));
    proof {
        assert(entry_models(entries@) =~= seq![
            ("repos"@, JsonModel::Array(stats_items(bodies@))),
        ]);
    }
    Json::object(entries)
}

/// The summary as it is sent; an empty object where it cannot be written.
pub fn stats_body(bodies: &Vec<(String, String)>) -> (r: String)
    ensures
        r@ == (match json_pretty_text(stats_summary_value(bodies@)) {
            Some(text) => text,
            None => "{}"@,
        }),
{
    match stats_summary(bodies).pretty_text() {
        Some(text) => text,
        None => "{}".to_owned(),
    }
}

/// A summary never speaks of a repository that another node serves.
pub proof fn law_summary_is_local(repos: Seq<(String, RepoEntry)>, n: int)
    requires
        0 <= n <= repos.len() <= usize::MAX,
    ensures
        forall|k: int|
            0 <= k < local_places(repos, n).len() ==> (#[trigger] local_places(repos, n)[k]) < n
                && repos[local_places(repos, n)[k] as int].1.is_local,
    decreases n,
{
    if n > 0 {
        law_summary_is_local(repos, n - 1);
    }
}

/// A summary speaks of every repository that is local here, in the order of the settings, each
/// once.
pub proof fn law_summary_has_every_local_repository(
    repos: Seq<(String, RepoEntry)>,
    n: int,
    i: int,
)
    requires
        0 <= i < n <= repos.len() <= usize::MAX,
        repos[i].1.is_local,
    ensures
        local_places(repos, n).contains(i as usize),
        forall|a: int, b: int|
            0 <= a < b < local_places(repos, n).len() ==> #[trigger] local_places(repos, n)[a]
                < #[trigger] local_places(repos, n)[b],
    decreases n,
{
    let now = local_places(repos, n);
    let before = local_places(repos, n - 1);
    lemma_places_rise(repos, n);
    if i == n - 1 {
        assert(now[before.len() as int] == i);
    } else {
        law_summary_has_every_local_repository(repos, n - 1, i);
        let k = choose|k: int| 0 <= k < before.len() && before[k] == i;
        assert(now[k] == i);
    }
}

proof fn lemma_places_rise(repos: Seq<(String, RepoEntry)>, n: int)
    requires
        0 <= n <= repos.len() <= usize::MAX,
    ensures
        forall|a: int, b: int|
            0 <= a < b < local_places(repos, n).len() ==> #[trigger] local_places(repos, n)[a]
                < #[trigger] local_places(repos, n)[b],
    decreases n,
{
    if n > 0 {
        lemma_places_rise(repos, n - 1);
        law_summary_is_local(repos, n - 1);
        let now = local_places(repos, n);
        let before = local_places(repos, n - 1);
        assert forall|a: int, b: int| 0 <= a < b < now.len() implies #[trigger] now[a]
            < #[trigger] now[b] by {
            assert(now[a] == before[a]);
            if b < before.len() {
                assert(now[b] == before[b]);
            }
        }
    }
}

/// A repository is found by its alias, the first one where several have it, and is unknown only
/// where none has it.
pub proof fn law_repository_is_found_by_its_alias(
    repos: Seq<(String, RepoEntry)>,
    alias: Seq<char>,
    i: int,
)
    requires
        0 <= i <= repos.len(),
    ensures
        match place_from(repos, alias, i) {
            Some(k) => i <= k < repos.len() && repos[k].0@ == alias && forall|j: int|
                i <= j < k ==> (#[trigger] repos[j]).0@ != alias,
            None => forall|j: int| i <= j < repos.len() ==> (#[trigger] repos[j]).0@ != alias,
        },
    decreases repos.len() - i,
{
    if i < repos.len() {
        law_repository_is_found_by_its_alias(repos, alias, i + 1);
    }
}

/// A summary has the statistics of each repository in its place: the value that its answer stands
/// for, in order, or the answer as it is where it stands for none.
pub proof fn law_summary_keeps_every_answer(bodies: Seq<(String, String)>, i: int)
    requires
        0 <= i < bodies.len(),
    ensures
        stats_items(bodies).len() == bodies.len(),
        parsed_json(bodies[i].1@) matches Some(m) ==> stats_items(bodies)[i] == canonical(m),
        parsed_json(bodies[i].1@) is None ==> (stats_items(bodies)[i] == JsonModel::Object(
            in_order(
                seq![
                    ("repo"@, JsonModel::Text(bodies[i].0@)),
                    ("raw"@, JsonModel::Text(bodies[i].1@)),
                ],
            ),
        )),
        stats_summary_value(bodies) == JsonModel::Object(
            in_order(seq![("repos"@, JsonModel::Array(stats_items(bodies)))]),
        ),
{
}

} // verus!
