//! Reading the settings of a serving node again, as a whole or not at all.

use crate::federation::RepoEntry;
use crate::text::{in_list, join, joined, lists, str_eq, texts, trim, trimmed};
use vstd::prelude::*;
use vstd::string::*;

verus! {

/// What reading the settings again came to.
#[derive(Debug, Clone, PartialEq, Eq)]
pub struct ReloadResult {
    pub reloaded: bool,
    /// How often something changed since the node was started.
    pub generation: u64,
    pub added: Vec<String>,
    pub removed: Vec<String>,
    pub changed: Vec<String>,
    /// The settings that count only once the node is started again.
    pub restart_required: Vec<String>,
    pub error: Option<String>,
    pub finished_at_unix: u64,
}

/// The settings of the connections to a database.
#[derive(Debug, Clone, Copy, PartialEq, Eq, Structural)]
pub struct PoolConfig {
    pub max_size: usize,
    pub cache_kib: i64,
    pub busy_timeout_ms: u64,
}

/// A repository in the settings of a serving node.
#[derive(Debug, Clone)]
pub struct ServePath {
    pub alias: String,
    pub ip: String,
}

/// The settings of a serving node.
#[derive(Debug, Clone)]
pub struct ServeSettings {
    /// The address of the node itself.
    pub me_ip: String,
    pub paths: Vec<ServePath>,
    pub pool: PoolConfig,
}

/// Whether two settings of connections differ.
pub fn pool_differs(left: PoolConfig, right: PoolConfig) -> (r: bool)
    ensures
        r == (left != right),
{
    left.max_size != right.max_size || left.cache_kib != right.cache_kib || left.busy_timeout_ms
        != right.busy_timeout_ms
}

/// Whether two optional texts are the same.
pub open spec fn same_text(a: Option<String>, b: Option<String>) -> bool {
    match (a, b) {
        (Some(x), Some(y)) => x@ == y@,
        (None, None) => true,
        _ => false,
    }
}

fn text_same(a: &Option<String>, b: &Option<String>) -> (r: bool)
    ensures
        r == same_text(*a, *b),
{
    match (a, b) {
        (Some(x), Some(y)) => str_eq(x.as_str(), y.as_str()),
        (None, None) => true,
        _ => false,
    }
}

/// Whether two entries are about the same repository at the same place.
pub open spec fn same_repo(a: RepoEntry, b: RepoEntry) -> bool {
    &&& a.is_local == b.is_local
    &&& same_text(a.root_path, b.root_path)
    &&& a.ip@ == b.ip@
    &&& a.port == b.port
    &&& same_text(a.language, b.language)
}

/// Whether a repository changed.
pub fn repo_changed(left: &RepoEntry, right: &RepoEntry) -> (r: bool)
    ensures
        r == !same_repo(*left, *right),
{
    left.is_local != right.is_local || !text_same(&left.root_path, &right.root_path) || !str_eq(
        left.ip.as_str(),
        right.ip.as_str(),
    ) || left.port != right.port || !text_same(&left.language, &right.language)
}

/// The repository with an alias, from the place `i` on.
pub open spec fn entry_from(repos: Seq<(String, RepoEntry)>, alias: Seq<char>, i: int) -> Option<
    RepoEntry,
>
    decreases repos.len() - i,
{
    if i < 0 || i >= repos.len() {
        None
    } else if repos[i].0@ == alias {
        Some(repos[i].1)
    } else {
        entry_from(repos, alias, i + 1)
    }
}

/// The repository with an alias.
pub open spec fn entry_at(repos: Seq<(String, RepoEntry)>, alias: Seq<char>) -> Option<RepoEntry> {
    entry_from(repos, alias, 0)
}

fn find_entry<'a>(repos: &'a Vec<(String, RepoEntry)>, alias: &str) -> (r: Option<&'a RepoEntry>)
    ensures
        match r {
            Some(e) => entry_at(repos@, alias@) == Some(*e),
            None => entry_at(repos@, alias@) is None,
        },
{
    let mut i: usize = 0;
    while i < repos.len()
        invariant
            i <= repos@.len(),
            entry_at(repos@, alias@) == entry_from(repos@, alias@, i as int),
        decreases repos.len() - i,
    {
        if str_eq(repos[i].0.as_str(), alias) {
            return Some(&repos[i].1);
        }
        i += 1;
    }
    None
}

/// The aliases among the first `n` repositories that others do not have.
pub open spec fn missing_in(
    repos: Seq<(String, RepoEntry)>,
    n: int,
    others: Seq<(String, RepoEntry)>,
) -> Seq<Seq<char>>
    decreases n,
{
    if n <= 0 {
        Seq::empty()
    } else if entry_at(others, repos[n - 1].0@) is None {
        missing_in(repos, n - 1, others).push(repos[n - 1].0@)
    } else {
        missing_in(repos, n - 1, others)
    }
}

/// The aliases among the first `n` repositories that are there before and after, but changed.
pub open spec fn changed_in(
    old_repos: Seq<(String, RepoEntry)>,
    n: int,
    new_repos: Seq<(String, RepoEntry)>,
) -> Seq<Seq<char>>
    decreases n,
{
    if n <= 0 {
        Seq::empty()
    } else {
        let (alias, entry) = old_repos[n - 1];
        match entry_at(new_repos, alias@) {
            Some(e) => if same_repo(entry, e) {
                changed_in(old_repos, n - 1, new_repos)
            } else {
                changed_in(old_repos, n - 1, new_repos).push(alias@)
            },
            None => changed_in(old_repos, n - 1, new_repos),
        }
    }
}

fn missing_aliases_in(
    repos: &Vec<(String, RepoEntry)>,
    others: &Vec<(String, RepoEntry)>,
) -> (r: Vec<String>)
    ensures
        texts(r@) == missing_in(repos@, repos@.len() as int, others@),
{
    let mut out: Vec<String> = Vec::new();
    let mut i: usize = 0;
    proof {
        assert(texts(out@) =~= Seq::<Seq<char>>::empty());
    }
    while i < repos.len()
        invariant
            i <= repos@.len(),
            texts(out@) == missing_in(repos@, i as int, others@),
        decreases repos.len() - i,
    {
        let ghost before = out@;
        if find_entry(others, repos[i].0.as_str()).is_none() {
            out.push(repos[i].0.clone());
            proof {
                assert(texts(out@) =~= texts(before).push(repos@[i as int].0@));
            }
        }
        i += 1;
    }
    out
}

/// What changed between the repositories before and after: those added, those removed and those
/// changed.
pub open spec fn difference(
    old_repos: Seq<(String, RepoEntry)>,
    new_repos: Seq<(String, RepoEntry)>,
) -> (Seq<Seq<char>>, Seq<Seq<char>>, Seq<Seq<char>>) {
    (
        missing_in(new_repos, new_repos.len() as int, old_repos),
        missing_in(old_repos, old_repos.len() as int, new_repos),
        changed_in(old_repos, old_repos.len() as int, new_repos),
    )
}

/// What changed between the repositories before and after: those added, those removed and those
/// changed.
pub fn diff_repos(
    old_repos: &Vec<(String, RepoEntry)>,
    new_repos: &Vec<(String, RepoEntry)>,
) -> (r: (Vec<String>, Vec<String>, Vec<String>))
    ensures
        (texts(r.0@), texts(r.1@), texts(r.2@)) == difference(old_repos@, new_repos@),
{
    let added = missing_aliases_in(new_repos, old_repos);
    let removed = missing_aliases_in(old_repos, new_repos);
    let mut changed: Vec<String> = Vec::new();
    let mut i: usize = 0;
    proof {
        assert(texts(changed@) =~= Seq::<Seq<char>>::empty());
    }
    while i < old_repos.len()
        invariant
            i <= old_repos@.len(),
            texts(changed@) == changed_in(old_repos@, i as int, new_repos@),
        decreases old_repos.len() - i,
    {
        let ghost before = changed@;
        if let Some(e) = find_entry(new_repos, old_repos[i].0.as_str()) {
            if repo_changed(&old_repos[i].1, e) {
                changed.push(old_repos[i].0.clone());
                proof {
                    assert(texts(changed@) =~= texts(before).push(old_repos@[i as int].0@));
                }
            }
        }
        i += 1;
    }
    (added, removed, changed)
}

/// Whether a text comes before another in the order of their characters.
pub open spec fn text_before(a: Seq<char>, b: Seq<char>) -> bool
    decreases a.len(),
{
    if b.len() == 0 {
        false
    } else if a.len() == 0 {
        true
    } else if a[0] != b[0] {
        (a[0] as u32) < (b[0] as u32)
    } else {
        text_before(a.skip(1), b.skip(1))
    }
}

/// Whether each text of a list comes before those that follow it.
pub open spec fn ascending(s: Seq<Seq<char>>) -> bool {
    forall|i: int, j: int| 0 <= i < j < s.len() ==> text_before(#[trigger] s[i], #[trigger] s[j])
}

/// The aliases of repositories.
pub open spec fn aliases(repos: Seq<(String, RepoEntry)>) -> Seq<Seq<char>> {
    repos.map_values(|p: (String, RepoEntry)| p.0@)
}

/// Whether repositories stand in the order of their aliases, each alias once.
pub open spec fn in_order(repos: Seq<(String, RepoEntry)>) -> bool {
    ascending(aliases(repos))
}

proof fn lemma_before(a: Seq<char>, b: Seq<char>)
    ensures
        !text_before(a, a),
        !(text_before(a, b) && text_before(b, a)),
    decreases a.len(),
{
    if a.len() > 0 {
        if b.len() > 0 {
            lemma_before(a.skip(1), b.skip(1));
        } else {
            lemma_before(a.skip(1), b);
        }
    }
}

proof fn lemma_same_members(a: Seq<Seq<char>>, b: Seq<Seq<char>>)
    requires
        ascending(a),
        ascending(b),
        forall|k: Seq<char>| a.contains(k) <==> b.contains(k),
    ensures
        a == b,
    decreases a.len(),
{
    if a.len() == 0 {
        if b.len() > 0 {
            assert(b.contains(b[0]));
        }
        assert(a =~= b);
    } else {
        assert(a.contains(a.last()));
        let j = choose|j: int| 0 <= j < b.len() && b[j] == a.last();
        assert(b.contains(b.last()));
        let i = choose|i: int| 0 <= i < a.len() && a[i] == b.last();
        lemma_before(a.last(), b.last());
        assert(a.last() == b.last());
        let (c, d) = (a.drop_last(), b.drop_last());
        assert forall|k: Seq<char>| c.contains(k) <==> d.contains(k) by {
            if c.contains(k) {
                let x = choose|x: int| 0 <= x < c.len() && c[x] == k;
                assert(a[x] == k);
                assert(text_before(a[x], a.last()));
                lemma_before(k, k);
                assert(b.contains(k));
                let y = choose|y: int| 0 <= y < b.len() && b[y] == k;
                assert(d[y] == k);
            }
            if d.contains(k) {
                let x = choose|x: int| 0 <= x < d.len() && d[x] == k;
                assert(b[x] == k);
                assert(text_before(b[x], b.last()));
                lemma_before(k, k);
                assert(a.contains(k));
                let y = choose|y: int| 0 <= y < a.len() && a[y] == k;
                assert(c[y] == k);
            }
        }
        lemma_same_members(c, d);
        assert(a =~= c.push(a.last()));
        assert(b =~= d.push(b.last()));
    }
}

proof fn lemma_entry(repos: Seq<(String, RepoEntry)>, alias: Seq<char>, i: int)
    requires
        0 <= i <= repos.len(),
    ensures
        entry_from(repos, alias, i) is None ==> forall|k: int|
            i <= k < repos.len() ==> (#[trigger] repos[k]).0@ != alias,
        entry_from(repos, alias, i) matches Some(e) ==> exists|k: int|
            i <= k < repos.len() && (#[trigger] repos[k]).0@ == alias && repos[k].1 == e,
    decreases repos.len() - i,
{
    if i < repos.len() {
        lemma_entry(repos, alias, i + 1);
        if repos[i].0@ == alias {
            assert(repos[i].1 == entry_from(repos, alias, i)->0);
        }
    }
}

proof fn lemma_own_entry(repos: Seq<(String, RepoEntry)>, i: int)
    requires
        in_order(repos),
        0 <= i < repos.len(),
    ensures
        entry_at(repos, repos[i].0@) == Some(repos[i].1),
{
    lemma_entry(repos, repos[i].0@, 0);
    let e = entry_at(repos, repos[i].0@);
    assert(repos[i].0@ == repos[i].0@);
    assert(e is Some);
    let k = choose|k: int|
        0 <= k < repos.len() && (#[trigger] repos[k]).0@ == repos[i].0@ && repos[k].1 == e->0;
    let names = aliases(repos);
    assert(names[k] == repos[k].0@ && names[i] == repos[i].0@);
    lemma_before(names[i], names[i]);
    assert(k == i);
}

proof fn lemma_missing(repos: Seq<(String, RepoEntry)>, n: int, others: Seq<(String, RepoEntry)>)
    requires
        in_order(repos),
        0 <= n <= repos.len(),
    ensures
        ascending(missing_in(repos, n, others)),
        forall|k: Seq<char>|
            #[trigger] missing_in(repos, n, others).contains(k) <==> aliases(repos).take(n).contains(
                k,
            ) && entry_at(others, k) is None,
    decreases n,
{
    if n > 0 {
        lemma_missing(repos, n - 1, others);
        let before = missing_in(repos, n - 1, others);
        let names = aliases(repos);
        let name = repos[n - 1].0@;
        assert(names[n - 1] == name);
        let chosen = |k: Seq<char>| entry_at(others, k) is None;
        let after = missing_in(repos, n, others);
        lemma_grown(names, n, before, after, chosen);
        assert forall|k: Seq<char>| #[trigger] after.contains(k) <==> names.take(n).contains(k)
            && entry_at(others, k) is None by {
            assert(after.contains(k) <==> names.take(n).contains(k) && chosen(k));
        }
    } else {
        assert(aliases(repos).take(n) =~= Seq::<Seq<char>>::empty());
    }
}

proof fn lemma_changed(
    old_repos: Seq<(String, RepoEntry)>,
    n: int,
    new_repos: Seq<(String, RepoEntry)>,
)
    requires
        in_order(old_repos),
        0 <= n <= old_repos.len(),
    ensures
        ascending(changed_in(old_repos, n, new_repos)),
        forall|k: Seq<char>|
            #[trigger] changed_in(old_repos, n, new_repos).contains(k) <==> aliases(old_repos).take(
                n,
            ).contains(k) && differs_at(old_repos, new_repos, k),
    decreases n,
{
    if n > 0 {
        lemma_changed(old_repos, n - 1, new_repos);
        let before = changed_in(old_repos, n - 1, new_repos);
        let names = aliases(old_repos);
        let name = old_repos[n - 1].0@;
        assert(names[n - 1] == name);
        lemma_own_entry(old_repos, n - 1);
        let chosen = |k: Seq<char>| differs_at(old_repos, new_repos, k);
        let after = changed_in(old_repos, n, new_repos);
        lemma_grown(names, n, before, after, chosen);
        assert forall|k: Seq<char>| #[trigger] after.contains(k) <==> names.take(n).contains(k)
            && differs_at(old_repos, new_repos, k) by {
            assert(after.contains(k) <==> names.take(n).contains(k) && chosen(k));
        }
    } else {
        assert(aliases(old_repos).take(n) =~= Seq::<Seq<char>>::empty());
    }
}

proof fn lemma_grown(
    names: Seq<Seq<char>>,
    n: int,
    before: Seq<Seq<char>>,
    after: Seq<Seq<char>>,
    chosen: spec_fn(Seq<char>) -> bool,
)
    requires
        ascending(names),
        0 < n <= names.len(),
        after == if chosen(names[n - 1]) {
            before.push(names[n - 1])
        } else {
            before
        },
        ascending(before),
        forall|k: Seq<char>|
            #[trigger] before.contains(k) <==> names.take(n - 1).contains(k) && chosen(k),
    ensures
        ascending(after),
        forall|k: Seq<char>|
            #[trigger] after.contains(k) <==> names.take(n).contains(k) && chosen(k),
{
    let name = names[n - 1];
    let taken = chosen(name);
    assert(names.take(n) =~= names.take(n - 1).push(name));
    assert forall|k: Seq<char>| #[trigger] after.contains(k) <==> names.take(n).contains(k)
        && chosen(k) by {
        assert(before.contains(k) <==> names.take(n - 1).contains(k) && chosen(k));
        if names.take(n).contains(k) {
            let x = choose|x: int| 0 <= x < n && names.take(n)[x] == k;
            if x < n - 1 {
                assert(names.take(n - 1)[x] == k);
            } else if taken {
                assert(after.last() == k);
            }
        }
        if names.take(n - 1).contains(k) {
            let head = names.take(n - 1);
            let x = choose|x: int| 0 <= x < head.len() && head[x] == k;
            assert(names.take(n)[x] == k);
        }
        if before.contains(k) {
            let x = choose|x: int| 0 <= x < before.len() && before[x] == k;
            assert(after[x] == k);
        }
        if after.contains(k) {
            let x = choose|x: int| 0 <= x < after.len() && after[x] == k;
            if x < before.len() {
                assert(before[x] == k);
            } else {
                assert(names.take(n)[n - 1] == k);
            }
        }
    }
    if taken {
        assert forall|i: int, j: int| 0 <= i < j < after.len() implies text_before(
            #[trigger] after[i],
            #[trigger] after[j],
        ) by {
            if j == before.len() {
                assert(before[i] == after[i]);
                assert(before.contains(before[i]));
                let head = names.take(n - 1);
                assert(head.contains(before[i]));
                let x = choose|x: int| 0 <= x < head.len() && head[x] == before[i];
                assert(names[x] == before[i]);
            } else {
                assert(before[i] == after[i] && before[j] == after[j]);
            }
        }
    }
}

/// Whether a repository is there before and after, but at another place.
pub open spec fn differs_at(
    old_repos: Seq<(String, RepoEntry)>,
    new_repos: Seq<(String, RepoEntry)>,
    alias: Seq<char>,
) -> bool {
    match (entry_at(old_repos, alias), entry_at(new_repos, alias)) {
        (Some(a), Some(b)) => !same_repo(a, b),
        _ => false,
    }
}

/// What the difference between repositories holds: added are those that are only there after,
/// removed those that are only there before, changed those that are there both times and differ.
/// Each list is in the order of the aliases and holds none twice.
pub proof fn law_differences_are_in_order(
    old_repos: Seq<(String, RepoEntry)>,
    new_repos: Seq<(String, RepoEntry)>,
)
    requires
        in_order(old_repos),
        in_order(new_repos),
    ensures
        ({
            let (added, removed, changed) = difference(old_repos, new_repos);
            &&& ascending(added)
            &&& ascending(removed)
            &&& ascending(changed)
            &&& forall|k: Seq<char>|
                #[trigger] added.contains(k) <==> entry_at(new_repos, k) is Some && entry_at(
                    old_repos,
                    k,
                ) is None
            &&& forall|k: Seq<char>|
                #[trigger] removed.contains(k) <==> entry_at(old_repos, k) is Some && entry_at(
                    new_repos,
                    k,
                ) is None
            &&& forall|k: Seq<char>|
                #[trigger] changed.contains(k) <==> differs_at(old_repos, new_repos, k)
        }),
{
    lemma_missing(new_repos, new_repos.len() as int, old_repos);
    lemma_missing(old_repos, old_repos.len() as int, new_repos);
    lemma_changed(old_repos, old_repos.len() as int, new_repos);
    lemma_alias_is_there(old_repos);
    lemma_alias_is_there(new_repos);
}

proof fn lemma_alias_is_there(repos: Seq<(String, RepoEntry)>)
    ensures
        forall|k: Seq<char>|
            #[trigger] aliases(repos).take(repos.len() as int).contains(k) <==> entry_at(repos, k)
                is Some,
{
    let names = aliases(repos).take(repos.len() as int);
    assert forall|k: Seq<char>| #[trigger] names.contains(k) <==> entry_at(repos, k) is Some by {
        lemma_entry(repos, k, 0);
        if names.contains(k) {
            let x = choose|x: int| 0 <= x < names.len() && names[x] == k;
            assert(repos[x].0@ == k);
        }
        if entry_at(repos, k) is Some {
            let x = choose|x: int| 0 <= x < repos.len() && (#[trigger] repos[x]).0@ == k;
            assert(names[x] == k);
        }
    }
}

/// The way back: what was added is removed, what was removed is added, and what changed is the
/// same.
pub proof fn law_swapped_differences(
    old_repos: Seq<(String, RepoEntry)>,
    new_repos: Seq<(String, RepoEntry)>,
)
    requires
        in_order(old_repos),
        in_order(new_repos),
    ensures
        ({
            let (added, removed, changed) = difference(old_repos, new_repos);
            difference(new_repos, old_repos) == (removed, added, changed)
        }),
{
    law_differences_are_in_order(old_repos, new_repos);
    law_differences_are_in_order(new_repos, old_repos);
    let there = changed_in(old_repos, old_repos.len() as int, new_repos);
    let back = changed_in(new_repos, new_repos.len() as int, old_repos);
    assert forall|k: Seq<char>| there.contains(k) <==> back.contains(k) by {
        assert(differs_at(old_repos, new_repos, k) == differs_at(new_repos, old_repos, k));
    }
    lemma_same_members(back, there);
}

/// The aliases among the first `n` repositories of a serving node that are its own, but that
/// the daemon does not know.
pub open spec fn unpaired(
    paths: Seq<ServePath>,
    n: int,
    me_ip: Seq<char>,
    daemon_aliases: Seq<String>,
) -> Seq<Seq<char>>
    decreases n,
{
    if n <= 0 {
        Seq::empty()
    } else {
        let p = paths[n - 1];
        if trimmed(p.ip@) == trimmed(me_ip) && !lists(daemon_aliases, p.alias@) {
            unpaired(paths, n - 1, me_ip, daemon_aliases).push(p.alias@)
        } else {
            unpaired(paths, n - 1, me_ip, daemon_aliases)
        }
    }
}

/// The aliases of a serving node's own repositories that the daemon does not know.
pub fn missing_aliases(serve: &ServeSettings, daemon_aliases: &Vec<String>) -> (r: Vec<String>)
    ensures
        texts(r@) == unpaired(
            serve.paths@,
            serve.paths@.len() as int,
            serve.me_ip@,
            daemon_aliases@,
        ),
{
    let me = trim(serve.me_ip.as_str());
    let mut out: Vec<String> = Vec::new();
    let mut i: usize = 0;
    proof {
        assert(texts(out@) =~= Seq::<Seq<char>>::empty());
    }
    while i < serve.paths.len()
        invariant
            i <= serve.paths@.len(),
            me@ == trimmed(serve.me_ip@),
            texts(out@) == unpaired(serve.paths@, i as int, serve.me_ip@, daemon_aliases@),
        decreases serve.paths.len() - i,
    {
        let ghost before = out@;
        let p = &serve.paths[i];
        let own: bool = str_eq(trim(p.ip.as_str()).as_str(), me.as_str());
        if own && !in_list(daemon_aliases, p.alias.as_str()) {
            out.push(p.alias.clone());
            proof {
                assert(texts(out@) =~= texts(before).push(p.alias@));
            }
        }
        i += 1;
    }
    out
}

/// What is done to take new settings into use.
#[derive(Debug, Clone, PartialEq, Eq)]
pub enum ReloadAction {
    /// Drop the cached responses of a repository.
    InvalidateScope(String),
    /// Let in the nodes of the old settings and those of the new ones.
    AllowBoth,
    /// Take the new repositories into use.
    StoreRepos,
    /// Let in the nodes of the new settings only.
    AllowNew,
    /// Forget what was delivered in the sessions.
    ResetDedup,
    /// Bring the tools of the languages up to date.
    ReloadExtensions,
}

/// What is done to take new settings into use, as a mathematical value.
#[verifier::ext_equal]
pub enum Action {
    InvalidateScope(Seq<char>),
    AllowBoth,
    StoreRepos,
    AllowNew,
    ResetDedup,
    ReloadExtensions,
}

impl View for ReloadAction {
    type V = Action;

    open spec fn view(&self) -> Action {
        match self {
            ReloadAction::InvalidateScope(alias) => Action::InvalidateScope(alias@),
            ReloadAction::AllowBoth => Action::AllowBoth,
            ReloadAction::StoreRepos => Action::StoreRepos,
            ReloadAction::AllowNew => Action::AllowNew,
            ReloadAction::ResetDedup => Action::ResetDedup,
            ReloadAction::ReloadExtensions => Action::ReloadExtensions,
        }
    }
}

/// The actions as mathematical values.
pub open spec fn action_models(v: Seq<ReloadAction>) -> Seq<Action> {
    v.map_values(|a: ReloadAction| a@)
}

/// The cached responses of each of the repositories are dropped.
pub open spec fn invalidations(aliases: Seq<Seq<char>>) -> Seq<Action> {
    aliases.map_values(|a: Seq<char>| Action::InvalidateScope(a))
}

/// What is done to take new settings into use. The responses of the repositories that are gone
/// or changed are dropped before the new ones are taken into use, and once more afterwards, for
/// those that were stored in between. Nodes are let in by the old and the new settings in
/// between.
pub open spec fn actions_for(
    added: Seq<Seq<char>>,
    removed: Seq<Seq<char>>,
    changed: Seq<Seq<char>>,
) -> Seq<Action> {
    if added.len() == 0 && removed.len() == 0 && changed.len() == 0 {
        seq![Action::ReloadExtensions]
    } else {
        let affected = invalidations(removed + changed);
        affected + seq![Action::AllowBoth, Action::StoreRepos, Action::AllowNew] + affected + (
        if removed.len() + changed.len() > 0 {
            seq![Action::ResetDedup]
        } else {
            Seq::empty()
        }) + seq![Action::ReloadExtensions]
    }
}

fn push_invalidations(out: &mut Vec<ReloadAction>, aliases: &Vec<String>)
    ensures
        action_models(final(out)@) == action_models(old(out)@) + invalidations(texts(aliases@)),
{
    let ghost start = action_models(out@);
    let ghost all = texts(aliases@);
    let mut i: usize = 0;
    proof {
        assert(invalidations(all.take(0)) =~= Seq::<Action>::empty());
        assert(start + Seq::<Action>::empty() =~= start);
    }
    while i < aliases.len()
        invariant
            i <= aliases@.len(),
            all == texts(aliases@),
            action_models(out@) == start + invalidations(all.take(i as int)),
        decreases aliases.len() - i,
    {
        let ghost before = out@;
        out.push(ReloadAction::InvalidateScope(aliases[i].clone()));
        proof {
            assert(action_models(out@) =~= action_models(before).push(
                Action::InvalidateScope(all[i as int]),
            ));
            assert(invalidations(all.take(i + 1)) =~= invalidations(all.take(i as int)).push(
                Action::InvalidateScope(all[i as int]),
            ));
            assert(action_models(out@) =~= start + invalidations(all.take(i + 1)));
        }
        i += 1;
    }
    proof {
        assert(all.take(aliases@.len() as int) =~= all);
    }
}

/// What is done to take new settings into use, given what they change.
pub fn reload_actions(
    added: &Vec<String>,
    removed: &Vec<String>,
    changed: &Vec<String>,
) -> (r: Vec<ReloadAction>)
    ensures
        action_models(r@) == actions_for(texts(added@), texts(removed@), texts(changed@)),
{
    let ghost a = texts(removed@);
    let ghost b = texts(changed@);
    let ghost affected = invalidations(a + b);
    let mut out: Vec<ReloadAction> = Vec::new();
    if added.is_empty() && removed.is_empty() && changed.is_empty() {
        out.push(ReloadAction::ReloadExtensions);
        proof {
            assert(action_models(out@) =~= seq![Action::ReloadExtensions]);
        }
        return out;
    }
    push_invalidations(&mut out, removed);
    push_invalidations(&mut out, changed);
    proof {
        assert(action_models(out@) =~= affected);
    }
    out.push(ReloadAction::AllowBoth);
    out.push(ReloadAction::StoreRepos);
    out.push(ReloadAction::AllowNew);
    let ghost switched = affected + seq![Action::AllowBoth, Action::StoreRepos, Action::AllowNew];
    proof {
        assert(action_models(out@) =~= switched);
    }
    push_invalidations(&mut out, removed);
    push_invalidations(&mut out, changed);
    proof {
        assert(action_models(out@) =~= switched + affected);
    }
    if !removed.is_empty() || !changed.is_empty() {
        out.push(ReloadAction::ResetDedup);
    }
    out.push(ReloadAction::ReloadExtensions);
    proof {
        assert(action_models(out@) =~= actions_for(texts(added@), a, b));
    }
    out
}

/// What reads the settings of a serving node again.
#[derive(Debug, Clone)]
pub struct ServeConfigReloader {
    pub serve_file: String,
    pub daemon_file: String,
    /// The address of the node when it was started.
    pub applied_me_ip: String,
    /// The settings of the connections when it was started.
    pub applied_pool: PoolConfig,
    pub generation: u64,
}

/// What is said where the address of the node itself changed.
pub open spec fn me_ip_message() -> Seq<char> {
    "Изменение [me].ip требует перезапуска serve"@
}

/// What is said where the daemon does not know a node's own repositories.
pub open spec fn unpaired_message(aliases: Seq<Seq<char>>) -> Seq<char> {
    "Локальные алиасы serve.toml без пары в daemon.toml: "@ + joined(aliases, ", "@)
}

/// Which settings count only once the node is started again.
pub open spec fn restart_list(pool: PoolConfig, applied: PoolConfig) -> Seq<Seq<char>> {
    if pool != applied {
        seq!["[pool]"@]
    } else {
        Seq::empty()
    }
}

impl ReloadResult {
    /// Whether this says that the settings could not be read again, and why.
    pub open spec fn is_failure(
        &self,
        generation: u64,
        restart_required: Seq<Seq<char>>,
        error: Seq<char>,
        now: u64,
    ) -> bool {
        &&& !self.reloaded
        &&& self.generation == generation
        &&& self.added@.len() == 0
        &&& self.removed@.len() == 0
        &&& self.changed@.len() == 0
        &&& texts(self.restart_required@) == restart_required
        &&& self.error is Some
        &&& self.error->0@ == error
        &&& self.finished_at_unix == now
    }
}

impl ServeConfigReloader {
    /// What reads the settings again, for a node that was started with these.
    pub fn new(
        serve_file: String,
        daemon_file: String,
        applied_me_ip: String,
        applied_pool: PoolConfig,
    ) -> (r: Self)
        ensures
            r.serve_file == serve_file,
            r.daemon_file == daemon_file,
            r.applied_me_ip == applied_me_ip,
            r.applied_pool == applied_pool,
            r.generation == 0,
    {
        ServeConfigReloader { serve_file, daemon_file, applied_me_ip, applied_pool, generation: 0 }
    }

    /// Where the settings of the serving node stand.
    pub fn serve_path(&self) -> (r: &str)
        ensures
            r@ == self.serve_file@,
    {
        self.serve_file.as_str()
    }

    /// Where the settings of the daemon stand.
    pub fn daemon_path(&self) -> (r: &str)
        ensures
            r@ == self.daemon_file@,
    {
        self.daemon_file.as_str()
    }

    /// The settings could not be read again. Nothing changes.
    pub fn failed(&self, restart_required: Vec<String>, error: String, now: u64) -> (r:
        ReloadResult)
        ensures
            r.is_failure(self.generation, texts(restart_required@), error@, now),
    {
        ReloadResult {
            reloaded: false,
            generation: self.generation,
            added: Vec::new(),
            removed: Vec::new(),
            changed: Vec::new(),
            restart_required,
            error: Some(error),
            finished_at_unix: now,
        }
    }

    /// Whether settings that were read can be taken into use: both files could be read, the
    /// address of the node itself is the same, and the daemon knows the node's own
    /// repositories. Says which settings count only once the node is started again.
    pub fn check(
        &self,
        serve: &Result<ServeSettings, String>,
        daemon_aliases: &Result<Vec<String>, String>,
        now: u64,
    ) -> (r: Result<Vec<String>, ReloadResult>)
        ensures
            match (*serve, *daemon_aliases) {
                (Err(e), _) => r is Err && r->Err_0.is_failure(
                    self.generation,
                    Seq::empty(),
                    e@,
                    now,
                ),
                (_, Err(e)) => r is Err && r->Err_0.is_failure(
                    self.generation,
                    Seq::empty(),
                    e@,
                    now,
                ),
                (Ok(s), Ok(known)) => {
                    let alone = unpaired(s.paths@, s.paths@.len() as int, s.me_ip@, known@);
                    if trimmed(s.me_ip@) != trimmed(self.applied_me_ip@) {
                        r is Err && r->Err_0.is_failure(
                            self.generation,
                            seq!["[me].ip"@],
                            me_ip_message(),
                            now,
                        )
                    } else if alone.len() > 0 {
                        r is Err && r->Err_0.is_failure(
                            self.generation,
                            Seq::empty(),
                            unpaired_message(alone),
                            now,
                        )
                    } else {
                        r is Ok && texts(r->Ok_0@) == restart_list(s.pool, self.applied_pool)
                    }
                },
            },
    {
        let none: Vec<String> = Vec::new();
        proof {
            assert(texts(none@) =~= Seq::<Seq<char>>::empty());
        }
        let s = match serve {
            Ok(s) => s,
            Err(e) => {
                return Err(self.failed(none, e.clone(), now));
            },
        };
        let known = match daemon_aliases {
            Ok(known) => known,
            Err(e) => {
                return Err(self.failed(none, e.clone(), now));
            },
        };
        if !str_eq(
            trim(s.me_ip.as_str()).as_str(),
            trim(self.applied_me_ip.as_str()).as_str(),
        ) {
            let mut restart: Vec<String> = Vec::new();
            restart.push("[me].ip".to_owned());
            proof {
                assert(texts(restart@) =~= seq!["[me].ip"@]);
            }
            return Err(
                self.failed(
                    restart,
                    "Изменение [me].ip требует перезапуска serve".to_owned(),
                    now,
                ),
            );
        }
        let alone = missing_aliases(s, known);
        proof {
            assert(texts(alone@).len() == alone@.len());
        }
        if !alone.is_empty() {
            let mut message = "Локальные алиасы serve.toml без пары в daemon.toml: ".to_owned();
            message.append(join(&alone, ", ").as_str());
            return Err(self.failed(none, message, now));
        }
        let mut restart: Vec<String> = Vec::new();
        if pool_differs(s.pool, self.applied_pool) {
            restart.push("[pool]".to_owned());
        }
        proof {
            assert(texts(restart@) =~= restart_list(s.pool, self.applied_pool));
        }
        Ok(restart)
    }

    /// Takes settings that were checked into use, given the repositories before, and those of
    /// the new settings, where they could be opened. Says what came of it, and what is to be
    /// done.
    pub fn reload(
        &mut self,
        restart_required: Vec<String>,
        old_repos: &Vec<(String, RepoEntry)>,
        new_repos: &Result<Vec<(String, RepoEntry)>, String>,
        now: u64,
    ) -> (r: (ReloadResult, Vec<ReloadAction>))
        ensures
            final(self).serve_file == old(self).serve_file,
            final(self).daemon_file == old(self).daemon_file,
            final(self).applied_me_ip == old(self).applied_me_ip,
            final(self).applied_pool == old(self).applied_pool,
            match *new_repos {
                Err(e) => {
                    &&& final(self).generation == old(self).generation
                    &&& r.0.is_failure(
                        old(self).generation,
                        texts(restart_required@),
                        e@,
                        now,
                    )
                    &&& r.1@.len() == 0
                },
                Ok(repos) => {
                    let added = missing_in(repos@, repos@.len() as int, old_repos@);
                    let removed = missing_in(old_repos@, old_repos@.len() as int, repos@);
                    let changed = changed_in(old_repos@, old_repos@.len() as int, repos@);
                    let same = added.len() == 0 && removed.len() == 0 && changed.len() == 0;
                    &&& final(self).generation == (if same {
                        old(self).generation
                    } else {
                        old(self).generation.wrapping_add(1)
                    })
                    &&& r.0.reloaded
                    &&& r.0.generation == final(self).generation
                    &&& texts(r.0.added@) == added
                    &&& texts(r.0.removed@) == removed
                    &&& texts(r.0.changed@) == changed
                    &&& r.0.restart_required == restart_required
                    &&& r.0.error is None
                    &&& r.0.finished_at_unix == now
                    &&& action_models(r.1@) == actions_for(added, removed, changed)
                },
            },
    {
        let repos = match new_repos {
            Ok(repos) => repos,
            Err(e) => {
                return (self.failed(restart_required, e.clone(), now), Vec::new());
            },
        };
        let (added, removed, changed) = diff_repos(old_repos, repos);
        proof {
            assert(texts(added@).len() == added@.len());
            assert(texts(removed@).len() == removed@.len());
            assert(texts(changed@).len() == changed@.len());
        }
        let actions = reload_actions(&added, &removed, &changed);
        if !(added.is_empty() && removed.is_empty() && changed.is_empty()) {
            self.generation = self.generation.wrapping_add(1);
        }
        (
            ReloadResult {
                reloaded: true,
                generation: self.generation,
                added,
                removed,
                changed,
                restart_required,
                error: None,
                finished_at_unix: now,
            },
            actions,
        )
    }
}

/// Only the responses of repositories that are gone or changed are dropped.
pub proof fn law_other_scopes_are_kept(
    added: Seq<Seq<char>>,
    removed: Seq<Seq<char>>,
    changed: Seq<Seq<char>>,
    alias: Seq<char>,
)
    ensures
        actions_for(added, removed, changed).contains(Action::InvalidateScope(alias)) <==> (
        removed.contains(alias) || changed.contains(alias)),
{
    let all = removed + changed;
    let affected = invalidations(all);
    let actions = actions_for(added, removed, changed);
    let target = Action::InvalidateScope(alias);
    if removed.contains(alias) {
        let k = choose|k: int| 0 <= k < removed.len() && removed[k] == alias;
        assert(all[k] == alias);
        assert(actions[k] == target);
    }
    if changed.contains(alias) {
        let k = choose|k: int| 0 <= k < changed.len() && changed[k] == alias;
        assert(all[removed.len() + k] == alias);
        assert(actions[removed.len() + k] == target);
    }
    if actions.contains(target) {
        let k = choose|k: int| 0 <= k < actions.len() && actions[k] == target;
        let n = affected.len() as int;
        let p = if k < n {
            k
        } else {
            k - n - 3
        };
        assert(0 <= p < n);
        assert(actions[k] == affected[p]);
        assert(all[p] == alias);
        if p < removed.len() {
            assert(removed[p] == alias);
        } else {
            assert(changed[p - removed.len()] == alias);
        }
    }
}

/// While the repositories are exchanged, the nodes of both the old and the new settings are let
/// in; and the responses of the repositories that are gone or changed are dropped once more
/// after that.
pub proof fn law_switch_is_guarded(
    added: Seq<Seq<char>>,
    removed: Seq<Seq<char>>,
    changed: Seq<Seq<char>>,
)
    requires
        added.len() + removed.len() + changed.len() > 0,
    ensures
        ({
            let actions = actions_for(added, removed, changed);
            let n = (removed.len() + changed.len()) as int;
            &&& actions[n] is AllowBoth
            &&& actions[n + 1] is StoreRepos
            &&& actions[n + 2] is AllowNew
            &&& actions.subrange(n + 3, 2 * n + 3) == invalidations(removed + changed)
            &&& actions.last() is ReloadExtensions
        }),
{
    let actions = actions_for(added, removed, changed);
    let n = (removed.len() + changed.len()) as int;
    assert(invalidations(removed + changed).len() == n);
    assert(actions.subrange(n + 3, 2 * n + 3) =~= invalidations(removed + changed));
}

/// Reading settings again that did not change leaves everything as it is.
pub proof fn law_unchanged_settings_change_nothing(repos: Seq<(String, RepoEntry)>)
    requires
        forall|i: int, j: int|
            0 <= i < j < repos.len() ==> (#[trigger] repos[i]).0@ != (#[trigger] repos[j]).0@,
    ensures
        ({
            let none = Seq::<Seq<char>>::empty();
            difference(repos, repos) == (none, none, none)
        }),
{
    lemma_same_repos(repos, repos.len() as int);
    assert(missing_in(repos, repos.len() as int, repos) =~= Seq::<Seq<char>>::empty());
    assert(changed_in(repos, repos.len() as int, repos) =~= Seq::<Seq<char>>::empty());
}

/// A repository is found where it stands.
proof fn lemma_entry_from(repos: Seq<(String, RepoEntry)>, i: int, k: int)
    requires
        0 <= i <= k < repos.len(),
        forall|i: int, j: int|
            0 <= i < j < repos.len() ==> (#[trigger] repos[i]).0@ != (#[trigger] repos[j]).0@,
    ensures
        entry_from(repos, repos[k].0@, i) == Some(repos[k].1),
    decreases k - i,
{
    if i < k {
        assert(repos[i].0@ != repos[k].0@);
        lemma_entry_from(repos, i + 1, k);
    }
}

proof fn lemma_same_repos(repos: Seq<(String, RepoEntry)>, n: int)
    requires
        0 <= n <= repos.len(),
        forall|i: int, j: int|
            0 <= i < j < repos.len() ==> (#[trigger] repos[i]).0@ != (#[trigger] repos[j]).0@,
    ensures
        missing_in(repos, n, repos).len() == 0,
        changed_in(repos, n, repos).len() == 0,
    decreases n,
{
    if n > 0 {
        lemma_same_repos(repos, n - 1);
        lemma_entry_from(repos, 0, n - 1);
    }
}

/// A repository is the same only where every part of its entry is: whether it is local, its place,
/// its address, its port and its language.
pub proof fn law_every_part_of_a_repository_counts(
    old_repos: Seq<(String, RepoEntry)>,
    new_repos: Seq<(String, RepoEntry)>,
    i: int,
    k: int,
)
    requires
        in_order(old_repos),
        in_order(new_repos),
        0 <= i < old_repos.len(),
        0 <= k < new_repos.len(),
        old_repos[i].0@ == new_repos[k].0@,
    ensures
        ({
            let (a, b) = (old_repos[i].1, new_repos[k].1);
            difference(old_repos, new_repos).2.contains(old_repos[i].0@) <==> (a.is_local
                != b.is_local || a.ip@ != b.ip@ || a.port != b.port || a.root_path is Some
                != b.root_path is Some || a.language is Some != b.language is Some || (
            a.root_path is Some && a.root_path->0@ != b.root_path->0@) || (a.language is Some
                && a.language->0@ != b.language->0@))
        }),
{
    law_differences_are_in_order(old_repos, new_repos);
    lemma_distinct_aliases(old_repos);
    lemma_distinct_aliases(new_repos);
    lemma_entry_from(old_repos, 0, i);
    lemma_entry_from(new_repos, 0, k);
}

proof fn lemma_distinct_aliases(repos: Seq<(String, RepoEntry)>)
    requires
        in_order(repos),
    ensures
        forall|i: int, j: int|
            0 <= i < j < repos.len() ==> (#[trigger] repos[i]).0@ != (#[trigger] repos[j]).0@,
{
    assert forall|i: int, j: int| 0 <= i < j < repos.len() implies (#[trigger] repos[i]).0@ != (
    #[trigger] repos[j]).0@ by {
        assert(text_before(aliases(repos)[i], aliases(repos)[j]));
        lemma_before(aliases(repos)[i], aliases(repos)[j]);
    }
}

/// The sessions forget what was delivered exactly where a repository is gone or changed.
pub proof fn law_sessions_forget_only_where_needed(
    added: Seq<Seq<char>>,
    removed: Seq<Seq<char>>,
    changed: Seq<Seq<char>>,
)
    ensures
        actions_for(added, removed, changed).contains(Action::ResetDedup) <==> removed.len() > 0
            || changed.len() > 0,
        actions_for(added, removed, changed).last() is ReloadExtensions,
        actions_for(added, removed, changed).contains(Action::StoreRepos) <==> added.len() > 0
            || removed.len() > 0 || changed.len() > 0,
{
    let actions = actions_for(added, removed, changed);
    let affected = invalidations(removed + changed);
    let n = affected.len() as int;
    assert forall|k: int| 0 <= k < n implies #[trigger] affected[k] is InvalidateScope by {}
    if removed.len() > 0 || changed.len() > 0 {
        assert(actions[2 * n + 3] is ResetDedup);
        assert(actions[n + 1] is StoreRepos);
    } else if added.len() > 0 {
        assert(actions[n + 1] is StoreRepos);
        if actions.contains(Action::ResetDedup) {
            let k = choose|k: int| 0 <= k < actions.len() && actions[k] == Action::ResetDedup;
            assert(n == 0);
            assert(k < 4);
        }
    }
}

/// A repository of the node itself that the daemon does not know is named, and no other one.
pub proof fn law_unknown_own_repositories_are_named(
    paths: Seq<ServePath>,
    me_ip: Seq<char>,
    known: Seq<String>,
    alias: Seq<char>,
)
    ensures
        unpaired(paths, paths.len() as int, me_ip, known).contains(alias) <==> exists|i: int|
            0 <= i < paths.len() && (#[trigger] paths[i]).alias@ == alias && trimmed(paths[i].ip@)
                == trimmed(me_ip) && !lists(known, alias),
{
    lemma_unpaired(paths, paths.len() as int, me_ip, known, alias);
}

proof fn lemma_unpaired(
    paths: Seq<ServePath>,
    n: int,
    me_ip: Seq<char>,
    known: Seq<String>,
    alias: Seq<char>,
)
    requires
        0 <= n <= paths.len(),
    ensures
        unpaired(paths, n, me_ip, known).contains(alias) <==> exists|i: int|
            0 <= i < n && (#[trigger] paths[i]).alias@ == alias && trimmed(paths[i].ip@) == trimmed(
                me_ip,
            ) && !lists(known, alias),
    decreases n,
{
    if n > 0 {
        lemma_unpaired(paths, n - 1, me_ip, known, alias);
        let before = unpaired(paths, n - 1, me_ip, known);
        let all = unpaired(paths, n, me_ip, known);
        let p = paths[n - 1];
        if trimmed(p.ip@) == trimmed(me_ip) && !lists(known, p.alias@) {
            assert(all == before.push(p.alias@));
            if before.contains(alias) {
                let x = choose|x: int| 0 <= x < before.len() && before[x] == alias;
                assert(all[x] == alias);
            }
            if p.alias@ == alias {
                assert(all[before.len() as int] == alias);
            }
        }
    }
}

/// Settings of the connections count only after a new start as soon as one of them differs.
pub proof fn law_every_setting_of_the_connections_counts(pool: PoolConfig, applied: PoolConfig)
    ensures
        restart_list(pool, applied).len() > 0 <==> pool.max_size != applied.max_size
            || pool.cache_kib != applied.cache_kib || pool.busy_timeout_ms
            != applied.busy_timeout_ms,
{
}

} // verus!
