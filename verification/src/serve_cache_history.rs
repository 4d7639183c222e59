//! What holds of the cache of tool responses over many calls.

use crate::serve_cache::{CacheEntry, ServeCache};
use crate::text::{begins_with, lists};
use std::sync::Arc;
use vstd::prelude::*;
use vstd::string::*;

verus! {

/// A call of the cache, with what it returned.
pub enum CacheCall {
    Get { key: Seq<char>, now: u64, found: Option<Arc<String>> },
    Insert {
        key: Seq<char>,
        payload: Arc<String>,
        repo: Seq<char>,
        deps: Seq<String>,
        ttl_ms: u128,
        now: u64,
    },
    Sweep { now: u64 },
    InvalidateScope { scope: Seq<char>, dropped: nat },
    InvalidateAll { dropped: nat },
    MarkDirty { repo: Seq<char>, files: Seq<(String, i64)>, now: u64 },
    IsPathStale { repo: Seq<char>, path: Seq<char>, now: u64 },
    InvalidateFiles { repo: Seq<char>, paths: Seq<String>, dropped: nat },
}

/// Whether a call may lead from one state of the cache to another.
pub open spec fn leads(old: ServeCache, call: CacheCall, new: ServeCache) -> bool {
    &&& old.wf()
    &&& new.wf()
    &&& match call {
        CacheCall::Get { key, now, found } => found == old.served(key, now) && old.looked_up(
            new,
            key,
            now,
        ),
        CacheCall::Insert { key, payload, repo, deps, ttl_ms, now } => ttl_ms <= 1000 * u64::MAX
            && old.inserted(new, key, payload, repo, deps, ttl_ms, now),
        CacheCall::Sweep { now } => old.swept(new, now),
        CacheCall::InvalidateScope { scope, dropped } => old.scope_dropped(new, scope) && dropped
            == old.store@.dom().len() - new.store@.dom().len(),
        CacheCall::InvalidateAll { dropped } => old.all_dropped(new) && dropped == (
        if old.is_enabled {
            old.store@.dom().len()
        } else {
            0
        }),
        CacheCall::MarkDirty { repo, files, now } => old.files_marked(new, repo, files, now),
        CacheCall::IsPathStale { repo, path, now } => old.looked_at(new, repo, path, now),
        CacheCall::InvalidateFiles { repo, paths, dropped } => old.files_dropped(new, repo, paths)
            && dropped == old.store@.dom().len() - new.store@.dom().len(),
    }
}

/// Whether the call at `i` leads from the state before it to the state after it.
pub open spec fn leads_at(states: Seq<ServeCache>, calls: Seq<CacheCall>, i: int) -> bool {
    leads(states[i], calls[i], states[i + 1])
}

/// Whether `calls` were made one after another, with these states of the cache before, between
/// and after them.
pub open spec fn history(states: Seq<ServeCache>, calls: Seq<CacheCall>) -> bool {
    &&& states.len() == calls.len() + 1
    &&& forall|i: int| 0 <= i < calls.len() ==> #[trigger] leads_at(states, calls, i)
}

/// Whether a cache is as it was made.
pub open spec fn is_new(cache: ServeCache) -> bool {
    &&& cache.store@ == Map::<Seq<char>, CacheEntry>::empty()
    &&& cache.reverse@ == Map::<(Seq<char>, Seq<char>), Vec<String>>::empty()
    &&& cache.hits == 0
    &&& cache.misses == 0
    &&& cache.invalidations == 0
}

/// Whether a call puts in a response under a key.
pub open spec fn inserts_key(call: CacheCall, key: Seq<char>) -> bool {
    call matches CacheCall::Insert { key: k, .. } && k == key
}

/// Whether a call puts in a response under a key that depends on a file.
pub open spec fn inserts_with(
    call: CacheCall,
    key: Seq<char>,
    repo: Seq<char>,
    path: Seq<char>,
) -> bool {
    call matches CacheCall::Insert { key: k, repo: r, deps, .. } && k == key && r == repo && lists(
        deps,
        path,
    )
}

/// Whether a call puts in a response under a key that depends on one of `paths` in `repo`.
pub open spec fn inserts_dependent(
    call: CacheCall,
    key: Seq<char>,
    repo: Seq<char>,
    paths: Seq<String>,
) -> bool {
    exists|i: int|
        0 <= i < paths.len() && inserts_with(call, key, repo, (#[trigger] paths[i])@)
}

/// Whether a call drops the response under a key, whatever its time is.
pub open spec fn drops_key(cache: ServeCache, call: CacheCall, key: Seq<char>) -> bool {
    match call {
        CacheCall::InvalidateScope { scope, .. } => begins_with(key, scope + "|"@),
        CacheCall::InvalidateAll { .. } => true,
        CacheCall::InvalidateFiles { repo, paths, .. } => cache.depends_on_any(repo, paths, key),
        _ => false,
    }
}

/// Whether a call is made at `now` or before, where it looks at the clock.
pub open spec fn made_by(call: CacheCall, now: u64) -> bool {
    match call {
        CacheCall::Get { now: t, .. } => t <= now,
        CacheCall::Insert { now: t, .. } => t <= now,
        CacheCall::Sweep { now: t } => t <= now,
        _ => true,
    }
}

/// Whether the call at `i` neither puts in nor drops the response under a key.
pub open spec fn leaves_key(
    states: Seq<ServeCache>,
    calls: Seq<CacheCall>,
    i: int,
    key: Seq<char>,
) -> bool {
    !inserts_key(calls[i], key) && !drops_key(states[i], calls[i], key)
}

proof fn lemma_settings(states: Seq<ServeCache>, calls: Seq<CacheCall>, n: int)
    requires
        history(states, calls),
        0 <= n < states.len(),
    ensures
        states[n].is_enabled == states[0].is_enabled,
        !states[0].is_enabled ==> states[n] == states[0],
    decreases n,
{
    if n > 0 {
        lemma_settings(states, calls, n - 1);
        assert(leads_at(states, calls, n - 1));
    }
}

/// A cache that is switched off stays as it is, whatever is called.
pub proof fn law_disabled_cache_never_changes(
    states: Seq<ServeCache>,
    calls: Seq<CacheCall>,
    n: int,
)
    requires
        history(states, calls),
        !states[0].is_enabled,
        0 <= n < states.len(),
    ensures
        states[n] == states[0],
{
    lemma_settings(states, calls, n);
}

/// A response is served as it was put in until its time is up, and not afterwards, whatever was
/// under its key before and whatever is called in between, but for another insertion under the
/// key and for the calls that drop it.
pub proof fn law_insert_lasts(
    states: Seq<ServeCache>,
    calls: Seq<CacheCall>,
    i: int,
    n: int,
    later: u64,
)
    requires
        history(states, calls),
        states[0].is_enabled,
        0 <= i < n < states.len(),
        calls[i] matches CacheCall::Insert { key, now, .. } && now <= later && forall|m: int|
            i < m < n ==> #[trigger] leaves_key(states, calls, m, key),
        forall|m: int| i < m < n ==> made_by(#[trigger] calls[m], later),
    ensures
        calls[i] matches CacheCall::Insert { key, payload, ttl_ms, now, .. } && (later < now + ttl_ms
            ==> states[n].served(key, later) == Some(payload)) && (later >= now + ttl_ms
            ==> states[n].served(key, later) is None),
    decreases n,
{
    if let CacheCall::Insert { key, payload, ttl_ms, now, .. } = calls[i] {
        assert(leads_at(states, calls, i));
        lemma_insert_lasts(states, calls, i, n, later, key, payload, ttl_ms, now);
        lemma_settings(states, calls, n);
    }
}

proof fn lemma_insert_lasts(
    states: Seq<ServeCache>,
    calls: Seq<CacheCall>,
    i: int,
    n: int,
    later: u64,
    key: Seq<char>,
    payload: Arc<String>,
    ttl_ms: u128,
    now: u64,
)
    requires
        history(states, calls),
        states[0].is_enabled,
        0 <= i < n < states.len(),
        calls[i] matches CacheCall::Insert { key: k, payload: p, ttl_ms: t, now: at, .. } && k == key
            && p == payload && t == ttl_ms && at == now,
        now <= later,
        forall|m: int| i < m < n ==> #[trigger] leaves_key(states, calls, m, key),
        forall|m: int| i < m < n ==> made_by(#[trigger] calls[m], later),
    ensures
        ({
            let entry = CacheEntry { payload, expires: (now + ttl_ms) as u128 };
            let store = states[n].store@;
            &&& store.dom().contains(key) ==> store[key] == entry
            &&& later < now + ttl_ms ==> store.dom().contains(key)
        }),
    decreases n,
{
    lemma_settings(states, calls, n - 1);
    assert(leads_at(states, calls, i));
    assert(leads_at(states, calls, n - 1));
    if n - 1 > i {
        lemma_insert_lasts(states, calls, i, n - 1, later, key, payload, ttl_ms, now);
        assert(leaves_key(states, calls, n - 1, key));
        assert(made_by(calls[n - 1], later));
    }
}

/// A response depends only on files that it was put in with.
pub proof fn law_dependencies_come_from_insertions(
    states: Seq<ServeCache>,
    calls: Seq<CacheCall>,
    n: int,
    repo: Seq<char>,
    path: Seq<char>,
    key: Seq<char>,
)
    requires
        history(states, calls),
        is_new(states[0]),
        0 <= n < states.len(),
        states[n].depends(repo, path, key),
    ensures
        exists|m: int|
            0 <= m < n && inserts_with(#[trigger] calls[m], key, repo, path),
    decreases n,
{
    if n > 0 {
        assert(leads_at(states, calls, n - 1));
        if states[n - 1].depends(repo, path, key) {
            law_dependencies_come_from_insertions(states, calls, n - 1, repo, path, key);
        } else {
            assert(calls[n - 1] is Insert);
        }
    }
}

/// Dropping the responses of files leaves every response that was never put in under the
/// repository with one of the files; among them those that were put in without files.
pub proof fn law_independent_responses_stay(
    states: Seq<ServeCache>,
    calls: Seq<CacheCall>,
    n: int,
    key: Seq<char>,
)
    requires
        history(states, calls),
        is_new(states[0]),
        0 <= n < calls.len(),
        calls[n] matches CacheCall::InvalidateFiles { repo, paths, .. } && forall|m: int|
            0 <= m < n ==> !inserts_dependent(#[trigger] calls[m], key, repo, paths),
        states[n].store@.dom().contains(key),
    ensures
        states[n + 1].store@.dom().contains(key),
        states[n + 1].store@[key] == states[n].store@[key],
{
    assert(leads_at(states, calls, n));
    if let CacheCall::InvalidateFiles { repo, paths, .. } = calls[n] {
        if states[n].depends_on_any(repo, paths, key) {
            let x = choose|x: int|
                0 <= x < paths.len() && states[n].depends(repo, (#[trigger] paths[x])@, key);
            law_dependencies_come_from_insertions(states, calls, n, repo, paths[x]@, key);
            let m = choose|m: int|
                0 <= m < n && inserts_with(#[trigger] calls[m], key, repo, paths[x]@);
            assert(inserts_dependent(calls[m], key, repo, paths));
        }
    }
}

/// Whether each response is put in under a key that begins with its repository.
pub open spec fn keys_name_their_repositories(calls: Seq<CacheCall>) -> bool {
    forall|m: int|
        0 <= m < calls.len() ==> (#[trigger] calls[m] matches CacheCall::Insert { key, repo, .. }
            ==> begins_with(key, repo + "|"@))
}

/// While a response is kept, it depends on all files that it was last put in with.
pub proof fn law_dependencies_last(
    states: Seq<ServeCache>,
    calls: Seq<CacheCall>,
    i: int,
    n: int,
)
    requires
        history(states, calls),
        states[0].is_enabled,
        keys_name_their_repositories(calls),
        0 <= i < n < states.len(),
        calls[i] matches CacheCall::Insert { key, .. } && states[n].store@.dom().contains(key)
            && forall|m: int| i < m < n ==> !inserts_key(#[trigger] calls[m], key),
    ensures
        calls[i] matches CacheCall::Insert { key, repo, deps, .. } && forall|p: Seq<char>|
            lists(deps, p) ==> #[trigger] states[n].depends(repo, p, key),
    decreases n,
{
    if let CacheCall::Insert { key, repo, deps, .. } = calls[i] {
        lemma_settings(states, calls, n - 1);
        assert(leads_at(states, calls, n - 1));
        if n - 1 > i {
            assert(!inserts_key(calls[n - 1], key));
            assert(states[n - 1].store@.dom().contains(key));
            law_dependencies_last(states, calls, i, n - 1);
            assert(begins_with(key, repo + "|"@)) by {
                assert(calls[i] is Insert);
            }
            assert forall|p: Seq<char>| lists(deps, p) implies #[trigger] states[n].depends(
                repo,
                p,
                key,
            ) by {
                assert(states[n - 1].depends(repo, p, key));
                if let CacheCall::InvalidateFiles { repo: r, paths, .. } = calls[n - 1] {
                    if r == repo && lists(paths, p) && paths.len() > 0 {
                        let x = choose|x: int| 0 <= x < paths.len() && (#[trigger] paths[x])@ == p;
                        assert(states[n - 1].depends(r, paths[x]@, key));
                        assert(states[n - 1].depends_on_any(r, paths, key));
                    }
                }
            }
        }
    }
}

/// Dropping the responses of files drops every response that was last put in with one of them.
pub proof fn law_dependent_responses_go(
    states: Seq<ServeCache>,
    calls: Seq<CacheCall>,
    i: int,
    n: int,
)
    requires
        history(states, calls),
        states[0].is_enabled,
        keys_name_their_repositories(calls),
        0 <= i < n < calls.len(),
        calls[n] matches CacheCall::InvalidateFiles { repo, paths, .. } && calls[i] matches
            CacheCall::Insert { key, .. } && inserts_dependent(calls[i], key, repo, paths)
            && forall|m: int| i < m < n ==> !inserts_key(#[trigger] calls[m], key),
    ensures
        calls[i] matches CacheCall::Insert { key, .. } && !states[n + 1].store@.dom().contains(key),
{
    assert(leads_at(states, calls, n));
    lemma_settings(states, calls, n);
    if let CacheCall::InvalidateFiles { repo, paths, .. } = calls[n] {
        if let CacheCall::Insert { key, deps, .. } = calls[i] {
            let x = choose|x: int|
                0 <= x < paths.len() && inserts_with(calls[i], key, repo, (#[trigger] paths[x])@);
            assert(lists(deps, paths[x]@));
            if states[n].store@.dom().contains(key) {
                law_dependencies_last(states, calls, i, n);
                assert(states[n].depends(repo, paths[x]@, key));
                assert(states[n].depends_on_any(repo, paths, key));
            }
        }
    }
}

/// How many of the first `n` calls served a response.
pub open spec fn served_in(calls: Seq<CacheCall>, n: int) -> nat
    decreases n,
{
    if n <= 0 {
        0
    } else {
        served_in(calls, n - 1) + (if calls[n - 1] matches CacheCall::Get { found: Some(_), .. } {
            1nat
        } else {
            0nat
        })
    }
}

/// How many of the first `n` calls asked for a response and got none.
pub open spec fn missed_in(calls: Seq<CacheCall>, n: int) -> nat
    decreases n,
{
    if n <= 0 {
        0
    } else {
        missed_in(calls, n - 1) + (if calls[n - 1] matches CacheCall::Get { found: None, .. } {
            1nat
        } else {
            0nat
        })
    }
}

/// How many responses the first `n` calls say that they dropped.
pub open spec fn dropped_in(calls: Seq<CacheCall>, n: int) -> nat
    decreases n,
{
    if n <= 0 {
        0
    } else {
        dropped_in(calls, n - 1) + match calls[n - 1] {
            CacheCall::InvalidateScope { dropped, .. } => dropped,
            CacheCall::InvalidateAll { dropped } => dropped,
            CacheCall::InvalidateFiles { dropped, .. } => dropped,
            _ => 0nat,
        }
    }
}

/// The counters of a new cache count the calls: those that served a response, those that found
/// none, and the responses that were dropped. The counters hold 64 bits.
pub proof fn law_counters_count_calls(states: Seq<ServeCache>, calls: Seq<CacheCall>, n: int)
    requires
        history(states, calls),
        is_new(states[0]),
        0 <= n < states.len(),
    ensures
        states[0].is_enabled && served_in(calls, n) <= u64::MAX ==> states[n].hits == served_in(
            calls,
            n,
        ),
        states[0].is_enabled && missed_in(calls, n) <= u64::MAX ==> states[n].misses == missed_in(
            calls,
            n,
        ),
        states[0].is_enabled && dropped_in(calls, n) <= u64::MAX ==> states[n].invalidations
            == dropped_in(calls, n),
        !states[0].is_enabled ==> states[n].store@.dom().len() == 0 && states[n].hits == 0
            && states[n].misses == 0 && states[n].invalidations == 0,
    decreases n,
{
    lemma_settings(states, calls, n);
    if n > 0 {
        law_counters_count_calls(states, calls, n - 1);
        lemma_settings(states, calls, n - 1);
        assert(leads_at(states, calls, n - 1));
    }
}

} // verus!
