//! The cache of tool responses.
//!
//! A response is kept under a key made of the repository, the tool and a digest of the
//! arguments. It goes stale by file: a file that changed on disk is marked dirty until the
//! index has caught up with it, and then only the responses that depend on it are dropped.
//! Times are given in milliseconds of one clock.

use crate::json::{
    before, entry_models, find_key, in_order, json_text, key_index, lemma_before_total,
    lemma_key_index, lemma_model, lemma_ordered_values, lemma_put, lemma_put_all, lemma_value_cons,
    lemma_value_put, lemma_value_without, lemma_without, ordered, ordered_deep, ordered_values, put,
    put_all, value_at, without, Json, JsonModel,
};
use crate::keyed::{distinct, kept, lemma_map_of, map_of, KeyedMap};
use crate::parser::types::{is_hex_digit, sha256_hex, sha256_text};
use crate::text::{begins_with, in_list, lemma_lists_push, lists, starts_with, str_eq};
use std::sync::Arc;
use vstd::prelude::*;
use vstd::string::*;

verus! {

/// `Arc::clone` gives another pointer to the same value.
#[verifier::external_body]
pub(crate) fn share<T>(p: &Arc<T>) -> (r: Arc<T>)
    ensures
        r == *p,
{
    p.clone()
}

/// After how many insertions expired responses are swept out.
pub const SWEEP_EVERY: u64 = 256;

/// How long a file stays marked dirty where the index never reports it, in milliseconds.
pub const DIRTY_MAX_AGE_MS: u64 = 120_000;

/// A response in the cache.
#[derive(Debug)]
pub struct CacheEntry {
    pub payload: Arc<String>,
    /// When the response expires.
    pub expires: u128,
}

/// The cache of tool responses.
#[derive(Debug)]
pub struct ServeCache {
    /// The responses by key.
    pub store: KeyedMap<String, CacheEntry>,
    /// The files, by repository and path, that are newer on disk than in the index: the time
    /// of the file, and when it was marked.
    pub dirty: KeyedMap<(String, String), (i64, u64)>,
    /// The keys that depend on a file, by repository and path.
    pub reverse: KeyedMap<(String, String), Vec<String>>,
    pub ttl_ms: u128,
    pub is_enabled: bool,
    pub hits: u64,
    pub misses: u64,
    pub invalidations: u64,
    pub inserts: u64,
    /// How often the index of a repository has moved.
    pub epochs: KeyedMap<String, u64>,
    /// How often all repositories were dropped at once.
    pub epoch_all: u64,
}

/// Whether a mark made at `marked` still counts.
pub open spec fn fresh(marked: u64, now: u64) -> bool {
    now < marked + DIRTY_MAX_AGE_MS
}

/// The marks after `files` were marked dirty one after another, the first `n` of them.
pub open spec fn marked(
    d: Map<(Seq<char>, Seq<char>), (i64, u64)>,
    repo: Seq<char>,
    files: Seq<(String, i64)>,
    n: int,
    now: u64,
) -> Map<(Seq<char>, Seq<char>), (i64, u64)>
    decreases n,
{
    if n <= 0 || n > files.len() {
        d
    } else {
        marked(d, repo, files, n - 1, now).insert(
            (repo, files[n - 1].0@),
            (files[n - 1].1, now),
        )
    }
}

/// The marks without those of `paths`.
pub open spec fn unmarked(
    d: Map<(Seq<char>, Seq<char>), (i64, u64)>,
    repo: Seq<char>,
    paths: Seq<String>,
) -> Map<(Seq<char>, Seq<char>), (i64, u64)> {
    kept(d, |k: (Seq<char>, Seq<char>), v: (i64, u64)| !(k.0 == repo && lists(paths, k.1)))
}

impl ServeCache {
    /// Whether the parts of the cache are well formed.
    pub open spec fn wf(self) -> bool {
        &&& self.store.wf()
        &&& self.dirty.wf()
        &&& self.reverse.wf()
        &&& self.epochs.wf()
        &&& self.ttl_ms <= 1000 * u64::MAX
        &&& forall|f: (Seq<char>, Seq<char>)| #[trigger]
            self.reverse@.dom().contains(f) ==> self.reverse@[f]@.len() > 0
    }

    /// Whether the response under `key` depends on a file.
    pub open spec fn depends(self, repo: Seq<char>, path: Seq<char>, key: Seq<char>) -> bool {
        self.reverse@.dom().contains((repo, path)) && lists(self.reverse@[(repo, path)]@, key)
    }

    /// Whether the response under `key` depends on one of `paths`.
    pub open spec fn depends_on_any(
        self,
        repo: Seq<char>,
        paths: Seq<String>,
        key: Seq<char>,
    ) -> bool {
        exists|i: int| 0 <= i < paths.len() && self.depends(repo, (#[trigger] paths[i])@, key)
    }

    /// The generation of a repository's index.
    pub open spec fn epoch_of(self, repo: Seq<char>) -> u64 {
        (if self.epochs@.dom().contains(repo) {
            self.epochs@[repo]
        } else {
            0u64
        }).wrapping_add(self.epoch_all)
    }

    /// The generations after the index of a repository moved.
    pub open spec fn bumped(self, repo: Seq<char>) -> Map<Seq<char>, u64> {
        self.epochs@.insert(
            repo,
            (if self.epochs@.dom().contains(repo) {
                self.epochs@[repo]
            } else {
                0u64
            }).wrapping_add(1),
        )
    }

    /// Everything but the responses, the marks, the dependencies and the counters is as in
    /// `other`.
    pub open spec fn same_settings(self, other: Self) -> bool {
        self.ttl_ms == other.ttl_ms && self.is_enabled == other.is_enabled
    }

    /// The response that is served for a key.
    pub open spec fn served(self, key: Seq<char>, now: u64) -> Option<Arc<String>> {
        if self.is_enabled && self.store@.dom().contains(key) && self.store@[key].expires > now {
            Some(self.store@[key].payload)
        } else {
            None
        }
    }

    /// An empty cache. A response lives for `ttl_secs` seconds, at least one. A cache that is
    /// switched off keeps nothing.
    pub fn new(ttl_secs: u64, enabled: bool) -> (r: Self)
        ensures
            r.wf(),
            r.store@ == Map::<Seq<char>, CacheEntry>::empty(),
            r.dirty@ == Map::<(Seq<char>, Seq<char>), (i64, u64)>::empty(),
            r.reverse@ == Map::<(Seq<char>, Seq<char>), Vec<String>>::empty(),
            r.epochs@ == Map::<Seq<char>, u64>::empty(),
            r.epoch_all == 0,
            r.ttl_ms == 1000 * (if ttl_secs == 0 {
                1
            } else {
                ttl_secs as int
            }),
            r.is_enabled == enabled,
            r.hits == 0,
            r.misses == 0,
            r.invalidations == 0,
            r.inserts == 0,
    {
        let secs: u64 = if ttl_secs == 0 {
            1
        } else {
            ttl_secs
        };
        ServeCache {
            store: KeyedMap::new(),
            dirty: KeyedMap::new(),
            reverse: KeyedMap::new(),
            ttl_ms: 1000 * (secs as u128),
            is_enabled: enabled,
            hits: 0,
            misses: 0,
            invalidations: 0,
            inserts: 0,
            epochs: KeyedMap::new(),
            epoch_all: 0,
        }
    }

    /// Whether the cache is switched on.
    pub fn enabled(&self) -> (r: bool)
        ensures
            r == self.is_enabled,
    {
        self.is_enabled
    }

    /// What the cache `new` is after a response was asked for in this one.
    pub open spec fn looked_up(self, new: Self, key: Seq<char>, now: u64) -> bool {
        if !self.is_enabled {
            new == self
        } else {
            let found = self.served(key, now) is Some;
            &&& new.store@ == (if found {
                self.store@
            } else {
                self.store@.remove(key)
            })
            &&& new.hits == (if found {
                self.hits.wrapping_add(1)
            } else {
                self.hits
            })
            &&& new.misses == (if found {
                self.misses
            } else {
                self.misses.wrapping_add(1)
            })
            &&& new.same_settings(self)
            &&& new.dirty@ == self.dirty@
            &&& new.reverse@ == self.reverse@
            &&& new.epochs@ == self.epochs@
            &&& new.epoch_all == self.epoch_all
            &&& new.invalidations == self.invalidations
            &&& new.inserts == self.inserts
        }
    }

    /// The response under a key. One that has expired is dropped.
    pub fn get(&mut self, key: &str, now: u64) -> (r: Option<Arc<String>>)
        requires
            old(self).wf(),
        ensures
            final(self).wf(),
            r == old(self).served(key@, now),
            old(self).looked_up(*final(self), key@, now),
    {
        if !self.is_enabled {
            return None;
        }
        let k = key.to_owned();
        if let Some(e) = self.store.get(&k) {
            if e.expires > now as u128 {
                let payload = share(&e.payload);
                self.hits = self.hits.wrapping_add(1);
                return Some(payload);
            }
        }
        self.misses = self.misses.wrapping_add(1);
        let _ = self.store.remove(&k);
        None
    }

    /// Keeps a response for the usual time and notes the files that it depends on.
    pub fn insert(
        &mut self,
        key: String,
        payload: Arc<String>,
        repo: &str,
        deps: &Vec<String>,
        now: u64,
    )
        requires
            old(self).wf(),
        ensures
            final(self).wf(),
            old(self).inserted(
                *final(self),
                key@,
                payload,
                repo@,
                deps@,
                old(self).ttl_ms,
                now,
            ),
    {
        let ttl: u128 = self.ttl_ms;
        self.store_for(key, payload, repo, deps, ttl, now);
    }

    /// As [`insert`](Self::insert), for a given time. A response that depends on no file is
    /// never dropped because of one, so it is kept for a short time only.
    pub fn insert_with_ttl(
        &mut self,
        key: String,
        payload: Arc<String>,
        repo: &str,
        deps: &Vec<String>,
        ttl_ms: u64,
        now: u64,
    )
        requires
            old(self).wf(),
        ensures
            final(self).wf(),
            old(self).inserted(
                *final(self),
                key@,
                payload,
                repo@,
                deps@,
                ttl_ms as u128,
                now,
            ),
    {
        self.store_for(key, payload, repo, deps, ttl_ms as u128, now);
    }

    /// What the cache `new` is after a response was put into this one.
    pub open spec fn inserted(
        self,
        new: Self,
        key: Seq<char>,
        payload: Arc<String>,
        repo: Seq<char>,
        deps: Seq<String>,
        ttl_ms: u128,
        now: u64,
    ) -> bool {
        if !self.is_enabled {
            new == self
        } else {
            let entry = CacheEntry { payload, expires: (now + ttl_ms) as u128 };
            let store = self.store@.insert(key, entry);
            let due = self.inserts % SWEEP_EVERY == SWEEP_EVERY - 1;
            &&& new.same_settings(self)
            &&& new.hits == self.hits
            &&& new.misses == self.misses
            &&& new.invalidations == self.invalidations
            &&& new.inserts == self.inserts.wrapping_add(1)
            &&& new.epochs@ == self.epochs@
            &&& new.epoch_all == self.epoch_all
            &&& new.store@ == (if due {
                unexpired(store, now)
            } else {
                store
            })
            &&& new.dirty@ == (if due {
                unfaded(self.dirty@, now)
            } else {
                self.dirty@
            })
            &&& forall|r: Seq<char>, p: Seq<char>, k: Seq<char>| #[trigger]
                new.depends(r, p, k) <==> (self.depends(r, p, k) || (r == repo && lists(deps, p)
                    && k == key)) && (due ==> new.store@.dom().contains(k))
        }
    }

    fn store_for(
        &mut self,
        key: String,
        payload: Arc<String>,
        repo: &str,
        deps: &Vec<String>,
        ttl_ms: u128,
        now: u64,
    )
        requires
            old(self).wf(),
            ttl_ms <= 1000 * u64::MAX,
        ensures
            final(self).wf(),
            old(self).inserted(*final(self), key@, payload, repo@, deps@, ttl_ms, now),
    {
        if !self.is_enabled {
            return;
        }
        let entry = CacheEntry { payload, expires: now as u128 + ttl_ms };
        self.store.insert(key.clone(), entry);
        let mut i: usize = 0;
        while i < deps.len()
            invariant
                i <= deps@.len(),
                self.wf(),
                self.store@ == old(self).store@.insert(key@, entry),
                self.dirty == old(self).dirty,
                self.same_settings(*old(self)),
                self.hits == old(self).hits,
                self.misses == old(self).misses,
                self.invalidations == old(self).invalidations,
                self.inserts == old(self).inserts,
                self.epochs == old(self).epochs,
                self.epoch_all == old(self).epoch_all,
                forall|r: Seq<char>, p: Seq<char>, k: Seq<char>| #[trigger]
                    self.depends(r, p, k) <==> (old(self).depends(r, p, k) || (r == repo@ && lists(
                        deps@.take(i as int),
                        p,
                    ) && k == key@)),
            decreases deps.len() - i,
        {
            let ghost before = *self;
            self.note_dependency(repo, deps[i].as_str(), key.as_str());
            proof {
                let taken = deps@.take(i as int);
                let more = deps@.take(i + 1);
                assert(more == taken.push(deps@[i as int]));
                assert forall|p: Seq<char>| lists(more, p) <==> (lists(taken, p) || p
                    == deps@[i as int]@) by {
                    lemma_lists_push(taken, deps@[i as int], p);
                }
            }
            i += 1;
        }
        assert(deps@.take(i as int) == deps@);
        let ghost noted = *self;
        let count: u64 = self.inserts;
        self.inserts = count.wrapping_add(1);
        let ghost counted = *self;
        assert forall|r: Seq<char>, p: Seq<char>, k: Seq<char>| #[trigger]
            counted.depends(r, p, k) <==> (old(self).depends(r, p, k) || (r == repo@ && lists(
                deps@,
                p,
            ) && k == key@)) by {
            assert(noted.depends(r, p, k) == counted.depends(r, p, k));
        }
        if count % SWEEP_EVERY == SWEEP_EVERY - 1 {
            let _ = self.sweep(now);
            assert forall|r: Seq<char>, p: Seq<char>, k: Seq<char>| #[trigger]
                self.depends(r, p, k) <==> counted.depends(r, p, k) && self.store@.dom().contains(
                k,
            ) by {}
        }
    }

    fn note_dependency(&mut self, repo: &str, path: &str, key: &str)
        requires
            old(self).wf(),
        ensures
            final(self).wf(),
            *final(self) == (ServeCache { reverse: final(self).reverse, ..*old(self) }),
            forall|r: Seq<char>, p: Seq<char>, k: Seq<char>| #[trigger]
                final(self).depends(r, p, k) <==> (old(self).depends(r, p, k) || (r == repo@ && p
                    == path@ && k == key@)),
    {
        let file = (repo.to_owned(), path.to_owned());
        let ghost f = (repo@, path@);
        assert(file@ == f);
        let mut keys = match self.reverse.remove(&file) {
            Some(keys) => keys,
            None => Vec::new(),
        };
        let ghost before = keys@;
        if !in_list(&keys, key) {
            keys.push(key.to_owned());
        }
        proof {
            assert forall|k: Seq<char>| lists(keys@, k) <==> (lists(before, k) || k == key@) by {
                if keys@.len() > before.len() {
                    assert(keys@ == before.push(keys@.last()));
                    lemma_lists_push(before, keys@.last(), k);
                }
            }
            assert(lists(keys@, key@));
            assert(keys@.len() > 0);
        }
        self.reverse.insert(file, keys);
        proof {
            assert(self.reverse@ =~= old(self).reverse@.insert(f, keys));
        }
    }

    /// Drops the responses that have expired, and what depends on responses that are gone;
    /// takes back the marks that have faded. Says how many responses were dropped.
    pub fn sweep(&mut self, now: u64) -> (r: usize)
        requires
            old(self).wf(),
        ensures
            final(self).wf(),
            old(self).store@.dom().finite(),
            old(self).swept(*final(self), now),
            r == (if old(self).is_enabled {
                old(self).store@.dom().len() - final(self).store@.dom().len()
            } else {
                0
            }),
    {
        if !self.is_enabled {
            proof {
                lemma_map_of(self.store.entries@);
            }
            return 0;
        }
        let keep_entry = |k: &String, e: &CacheEntry| -> (b: bool)
            ensures
                b == (e.expires > now),
            { e.expires > now as u128 };
        let removed: usize = self.store.retain(
            keep_entry,
            Ghost(|k: Seq<char>, e: CacheEntry| e.expires > now),
        );
        assert(self.store@ =~= unexpired(old(self).store@, now));
        let ghost shrunk = *self;
        self.forget_gone();
        let ghost clean = *self;
        let keep_mark = |k: &(String, String), m: &(i64, u64)| -> (b: bool)
            ensures
                b == fresh(m.1, now),
            { (now as u128) < m.1 as u128 + DIRTY_MAX_AGE_MS as u128 };
        let _ = self.dirty.retain(
            keep_mark,
            Ghost(|k: (Seq<char>, Seq<char>), m: (i64, u64)| fresh(m.1, now)),
        );
        proof {
            assert(self.dirty@ =~= unfaded(old(self).dirty@, now));
            assert forall|r: Seq<char>, p: Seq<char>, k: Seq<char>| #[trigger]
                self.depends(r, p, k) <==> old(self).depends(r, p, k)
                    && self.store@.dom().contains(k) by {
                assert(clean.depends(r, p, k) == self.depends(r, p, k));
                assert(shrunk.depends(r, p, k) == old(self).depends(r, p, k));
            }
        }
        removed
    }

    /// What the cache `new` is after this one was swept.
    pub open spec fn swept(self, new: Self, now: u64) -> bool {
        if !self.is_enabled {
            new == self
        } else {
            &&& new.same_settings(self)
            &&& new.hits == self.hits
            &&& new.misses == self.misses
            &&& new.invalidations == self.invalidations
            &&& new.inserts == self.inserts
            &&& new.epochs@ == self.epochs@
            &&& new.epoch_all == self.epoch_all
            &&& new.store@ == unexpired(self.store@, now)
            &&& new.dirty@ == unfaded(self.dirty@, now)
            &&& forall|r: Seq<char>, p: Seq<char>, k: Seq<char>| #[trigger]
                new.depends(r, p, k) <==> self.depends(r, p, k) && new.store@.dom().contains(k)
        }
    }

    /// Takes out the dependencies of responses that are gone.
    fn forget_gone(&mut self)
        requires
            old(self).wf(),
        ensures
            final(self).wf(),
            *final(self) == (ServeCache { reverse: final(self).reverse, ..*old(self) }),
            forall|r: Seq<char>, p: Seq<char>, k: Seq<char>| #[trigger]
                final(self).depends(r, p, k) <==> old(self).depends(r, p, k)
                    && old(self).store@.dom().contains(k),
    {
        let ghost all = self.reverse@;
        let mut rest: KeyedMap<(String, String), Vec<String>> = KeyedMap::new();
        std::mem::swap(&mut rest, &mut self.reverse);
        let ghost s = rest.entries@;
        let n: usize = rest.entries.len();
        let mut i: usize = 0;
        while i < n
            invariant
                i <= n,
                n == s.len(),
                rest.entries@ == s,
                distinct(s),
                all == map_of(s),
                self.wf(),
                *self == (ServeCache { reverse: self.reverse, ..*old(self) }),
                forall|r: Seq<char>, p: Seq<char>| #[trigger]
                    self.reverse@.dom().contains((r, p)) ==> exists|x: int|
                        0 <= x < i && (#[trigger] s[x]).0@ == (r, p),
                forall|r: Seq<char>, p: Seq<char>, k: Seq<char>| #[trigger]
                    self.depends(r, p, k) ==> all.dom().contains((r, p)) && lists(all[(r, p)]@, k)
                        && self.store@.dom().contains(k),
                forall|x: int, k: Seq<char>|
                    #![trigger s[x], self.store@.dom().contains(k)]
                    0 <= x < i && lists(s[x].1@, k) && self.store@.dom().contains(k)
                        ==> self.depends(s[x].0@.0, s[x].0@.1, k),
            decreases n - i,
        {
            let ghost before = *self;
            let mut left: Vec<String> = Vec::new();
            let mut j: usize = 0;
            while j < rest.entries[i].1.len()
                invariant
                    i < n,
                    n == s.len(),
                    rest.entries@ == s,
                    j <= s[i as int].1@.len(),
                    self.store.wf(),
                    forall|k: Seq<char>| #[trigger]
                        lists(left@, k) <==> lists(s[i as int].1@.take(j as int), k)
                            && self.store@.dom().contains(k),
                decreases s[i as int].1@.len() - j,
            {
                let key = &rest.entries[i].1[j];
                let ghost old_left = left@;
                if self.store.find(key).is_some() {
                    left.push(key.clone());
                }
                proof {
                    let list = s[i as int].1@;
                    assert(list.take(j + 1) == list.take(j as int).push(list[j as int]));
                    assert forall|k: Seq<char>| #[trigger]
                        lists(left@, k) <==> lists(list.take(j + 1), k)
                            && self.store@.dom().contains(k) by {
                        lemma_lists_push(list.take(j as int), list[j as int], k);
                        if left@.len() > old_left.len() {
                            assert(left@ == old_left.push(left@.last()));
                            lemma_lists_push(old_left, left@.last(), k);
                        }
                    }
                }
                j += 1;
            }
            proof {
                assert(s[i as int].1@.take(j as int) == s[i as int].1@);
                lemma_map_of(s);
                assert(all[s[i as int].0@] == s[i as int].1);
            }
            let ghost f = s[i as int].0@;
            if left.len() > 0 {
                let file = (rest.entries[i].0.0.clone(), rest.entries[i].0.1.clone());
                assert(file@ == f);
                self.reverse.insert(file, left);
            } else {
                assert forall|k: Seq<char>| !lists(left@, k) by {}
            }
            proof {
                assert(!before.reverse@.dom().contains(f)) by {
                    if before.reverse@.dom().contains(f) {
                        assert(before.reverse@.dom().contains((f.0, f.1)));
                        let x = choose|x: int| 0 <= x < i && (#[trigger] s[x]).0@ == (f.0, f.1);
                        assert(s[x].0@ != s[i as int].0@);
                    }
                }
                assert forall|r: Seq<char>, p: Seq<char>, k: Seq<char>| #[trigger]
                    self.depends(r, p, k) <==> (before.depends(r, p, k) || ((r, p) == f && lists(
                        left@,
                        k,
                    ))) by {}
                assert forall|r: Seq<char>, p: Seq<char>| #[trigger]
                    self.reverse@.dom().contains((r, p)) implies exists|x: int|
                    0 <= x < i + 1 && (#[trigger] s[x]).0@ == (r, p) by {
                    if before.reverse@.dom().contains((r, p)) {
                        let x = choose|x: int| 0 <= x < i && (#[trigger] s[x]).0@ == (r, p);
                        assert(s[x].0@ == (r, p));
                    } else {
                        assert(s[i as int].0@ == (r, p));
                    }
                }
                assert forall|x: int, k: Seq<char>|
                    #![trigger s[x], self.store@.dom().contains(k)]
                    0 <= x < i + 1 && lists(s[x].1@, k) && self.store@.dom().contains(
                        k,
                    ) implies self.depends(s[x].0@.0, s[x].0@.1, k) by {
                    if x < i {
                        assert(before.store@.dom().contains(k));
                        assert(before.depends(s[x].0@.0, s[x].0@.1, k));
                    } else {
                        assert(lists(left@, k));
                    }
                }
            }
            i += 1;
        }
        proof {
            lemma_map_of(s);
            assert forall|r: Seq<char>, p: Seq<char>, k: Seq<char>| #[trigger]
                self.depends(r, p, k) <==> old(self).depends(r, p, k)
                    && old(self).store@.dom().contains(k) by {
                if old(self).depends(r, p, k) && old(self).store@.dom().contains(k) {
                    assert(map_of(s).dom().contains((r, p)));
                    let x = choose|x: int| 0 <= x < s.len() && (#[trigger] s[x]).0@ == (r, p);
                    assert(map_of(s)[s[x].0@] == s[x].1);
                    assert(self.store@.dom().contains(k));
                    assert(self.depends(s[x].0@.0, s[x].0@.1, k));
                }
            }
        }
    }
}

/// The responses that have not expired.
pub open spec fn unexpired(m: Map<Seq<char>, CacheEntry>, now: u64) -> Map<Seq<char>, CacheEntry> {
    kept(m, |k: Seq<char>, e: CacheEntry| e.expires > now)
}

/// The marks that still count.
pub open spec fn unfaded(m: Map<(Seq<char>, Seq<char>), (i64, u64)>, now: u64) -> Map<
    (Seq<char>, Seq<char>),
    (i64, u64),
> {
    kept(m, |k: (Seq<char>, Seq<char>), v: (i64, u64)| fresh(v.1, now))
}

/// The arguments of a call without the repository.
pub open spec fn without_repo(args: JsonModel) -> JsonModel {
    match args {
        JsonModel::Object(s) => JsonModel::Object(without(s, "repo"@)),
        _ => args,
    }
}

/// The text that the arguments of a call are told by.
pub open spec fn args_text(args: JsonModel) -> Seq<char> {
    match json_text(without_repo(args)) {
        Some(t) => t,
        None => "null"@,
    }
}

/// The key of a response: the repository, the tool and the digest of the other arguments.
pub open spec fn cache_key(scope: Seq<char>, tool: Seq<char>, args: JsonModel) -> Seq<char> {
    scope + "|"@ + tool + "|"@ + sha256_text(args_text(args))
}

/// The responses of other repositories than `scope`.
pub open spec fn outside_scope(m: Map<Seq<char>, CacheEntry>, scope: Seq<char>) -> Map<
    Seq<char>,
    CacheEntry,
> {
    kept(m, |k: Seq<char>, e: CacheEntry| !begins_with(k, scope + "|"@))
}

impl ServeCache {
    /// The counters and settings are as in `other`, but for the number of dropped responses.
    pub open spec fn same_counts(self, other: Self) -> bool {
        self.same_settings(other) && self.hits == other.hits && self.misses == other.misses
            && self.inserts == other.inserts
    }

    /// What the cache `new` is after one repository was dropped from this one.
    pub open spec fn scope_dropped(self, new: Self, scope: Seq<char>) -> bool {
        if !self.is_enabled {
            new == self
        } else {
            &&& new.store@ == outside_scope(self.store@, scope)
            &&& new.dirty@ == kept(
                self.dirty@,
                |k: (Seq<char>, Seq<char>), v: (i64, u64)| k.0 != scope,
            )
            &&& (forall|q: Seq<char>, p: Seq<char>, k: Seq<char>| #[trigger]
                new.depends(q, p, k) <==> self.depends(q, p, k) && q != scope)
            &&& new.epochs@ == self.bumped(scope)
            &&& new.epoch_all == self.epoch_all
            &&& new.invalidations == self.invalidations.wrapping_add(
                (self.store@.dom().len() - new.store@.dom().len()) as u64,
            )
            &&& new.same_counts(self)
        }
    }

    /// What the cache `new` is after everything was dropped from this one.
    pub open spec fn all_dropped(self, new: Self) -> bool {
        if !self.is_enabled {
            new == self
        } else {
            &&& new.store@ == Map::<Seq<char>, CacheEntry>::empty()
            &&& new.dirty@ == Map::<(Seq<char>, Seq<char>), (i64, u64)>::empty()
            &&& new.reverse@ == Map::<(Seq<char>, Seq<char>), Vec<String>>::empty()
            &&& new.epochs@ == self.epochs@
            &&& new.epoch_all == self.epoch_all.wrapping_add(1)
            &&& new.invalidations == self.invalidations.wrapping_add(self.store@.dom().len() as u64)
            &&& new.same_counts(self)
        }
    }

    /// What the cache `new` is after files were marked dirty in this one.
    pub open spec fn files_marked(
        self,
        new: Self,
        repo: Seq<char>,
        files: Seq<(String, i64)>,
        now: u64,
    ) -> bool {
        if !self.is_enabled || files.len() == 0 {
            new == self
        } else {
            &&& new.dirty@ == marked(self.dirty@, repo, files, files.len() as int, now)
            &&& new.epochs@ == self.bumped(repo)
            &&& new == (ServeCache { dirty: new.dirty, epochs: new.epochs, ..self })
        }
    }

    /// What the cache `new` is after the responses of files were dropped from this one.
    pub open spec fn files_dropped(self, new: Self, repo: Seq<char>, paths: Seq<String>) -> bool {
        if !self.is_enabled || paths.len() == 0 {
            new == self
        } else {
            &&& new.store@ == kept(
                self.store@,
                |k: Seq<char>, e: CacheEntry| !self.depends_on_any(repo, paths, k),
            )
            &&& new.dirty@ == unmarked(self.dirty@, repo, paths)
            &&& (forall|q: Seq<char>, p: Seq<char>, k: Seq<char>| #[trigger]
                new.depends(q, p, k) <==> self.depends(q, p, k) && !(q == repo && lists(paths, p)))
            &&& new.epochs@ == self.bumped(repo)
            &&& new.epoch_all == self.epoch_all
            &&& new.invalidations == self.invalidations.wrapping_add(
                (self.store@.dom().len() - new.store@.dom().len()) as u64,
            )
            &&& new.same_counts(self)
        }
    }

    /// The key of a response. The order of the arguments does not matter.
    pub fn key(scope: &str, tool: &str, args: &Json) -> (r: String)
        requires
            args.wf(),
        ensures
            r@ == cache_key(scope@, tool@, args.model()),
            r@.len() == scope@.len() + tool@.len() + 66,
            forall|i: int|
                scope@.len() + tool@.len() + 2 <= i < r@.len() ==> is_hex_digit(#[trigger] r@[i]),
    {
        broadcast use lemma_model;

        let stripped = match args.copy() {
            Json::Object(entries) => {
                let ghost s = entry_models(entries@);
                let mut entries = entries;
                proof {
                    lemma_model(*args);
                    lemma_without(s, "repo"@);
                    lemma_ordered_values(s, s.len() as int);
                }
                if let Some(k) = find_key(&entries, "repo") {
                    let _ = entries.remove(k);
                }
                proof {
                    let w = without(s, "repo"@);
                    assert(entry_models(entries@) =~= w);
                    lemma_ordered_values(w, w.len() as int);
                    assert forall|i: int| 0 <= i < w.len() implies #[trigger] ordered_deep(
                        w[i].1,
                    ) by {
                        let x = choose|x: int| 0 <= x < s.len() && s[x] == w[i];
                        assert(ordered_deep(s[x].1));
                    }
                    assert(ordered_values(w, w.len() as int));
                }
                Json::Object(entries)
            },
            other => other,
        };
        proof {
            lemma_model(stripped);
        }
        let text = match stripped.text() {
            Some(t) => t,
            None => "null".to_owned(),
        };
        let hash = sha256_hex(text.as_str());
        let mut out = String::new();
        out.append(scope);
        out.append("|");
        out.append(tool);
        out.append("|");
        out.append(hash.as_str());
        assert(out@ == cache_key(scope@, tool@, args.model()));
        proof {
            reveal_strlit("|");
            let start = scope@.len() + tool@.len() + 2;
            assert forall|i: int| start <= i < out@.len() implies is_hex_digit(#[trigger] out@[i]) by {
                assert(out@[i] == hash@[i - start]);
            }
        }
        out
    }

    /// The generation of a repository's index. A response that was computed in one generation
    /// is not kept in another.
    pub fn epoch(&self, repo: &str) -> (r: u64)
        requires
            self.wf(),
        ensures
            r == self.epoch_of(repo@),
    {
        let key = repo.to_owned();
        let own: u64 = match self.epochs.get(&key) {
            Some(n) => *n,
            None => 0,
        };
        own.wrapping_add(self.epoch_all)
    }

    fn bump_epoch(&mut self, repo: &str)
        requires
            old(self).wf(),
        ensures
            final(self).wf(),
            *final(self) == (ServeCache { epochs: final(self).epochs, ..*old(self) }),
            final(self).epochs@ == old(self).bumped(repo@),
    {
        let key = repo.to_owned();
        let own: u64 = match self.epochs.get(&key) {
            Some(n) => *n,
            None => 0,
        };
        self.epochs.insert(key, own.wrapping_add(1));
    }

    /// Drops everything of one repository: its responses, their dependencies and its marks.
    /// Says how many responses were dropped.
    pub fn invalidate_scope(&mut self, scope: &str) -> (r: usize)
        requires
            old(self).wf(),
        ensures
            final(self).wf(),
            old(self).store@.dom().finite(),
            old(self).scope_dropped(*final(self), scope@),
            r == old(self).store@.dom().len() - final(self).store@.dom().len(),
    {
        if !self.is_enabled {
            proof {
                lemma_map_of(self.store.entries@);
            }
            return 0;
        }
        self.bump_epoch(scope);
        let mut prefix = scope.to_owned();
        prefix.append("|");
        let keep_entry = |k: &String, e: &CacheEntry| -> (b: bool)
            ensures
                b == !begins_with(k@, prefix@),
            { !starts_with(k.as_str(), prefix.as_str()) };
        let removed: usize = self.store.retain(
            keep_entry,
            Ghost(|k: Seq<char>, e: CacheEntry| !begins_with(k, prefix@)),
        );
        assert(self.store@ =~= outside_scope(old(self).store@, scope@));
        let ghost before = *self;
        let keep_keys = |k: &(String, String), v: &Vec<String>| -> (b: bool)
            ensures
                b == (k@.0 != scope@),
            { !str_eq(k.0.as_str(), scope) };
        let _ = self.reverse.retain(
            keep_keys,
            Ghost(|k: (Seq<char>, Seq<char>), v: Vec<String>| k.0 != scope@),
        );
        let ghost unlinked = *self;
        assert forall|q: Seq<char>, p: Seq<char>, k: Seq<char>| #[trigger]
            unlinked.depends(q, p, k) <==> old(self).depends(q, p, k) && q != scope@ by {}
        let keep_mark = |k: &(String, String), v: &(i64, u64)| -> (b: bool)
            ensures
                b == (k@.0 != scope@),
            { !str_eq(k.0.as_str(), scope) };
        let _ = self.dirty.retain(
            keep_mark,
            Ghost(|k: (Seq<char>, Seq<char>), v: (i64, u64)| k.0 != scope@),
        );
        self.invalidations = self.invalidations.wrapping_add(removed as u64);
        proof {
            assert(self.dirty@ =~= kept(
                old(self).dirty@,
                |k: (Seq<char>, Seq<char>), v: (i64, u64)| k.0 != scope@,
            ));
            assert forall|q: Seq<char>, p: Seq<char>, k: Seq<char>| #[trigger]
                self.depends(q, p, k) <==> old(self).depends(q, p, k) && q != scope@ by {
                assert(unlinked.depends(q, p, k) == self.depends(q, p, k));
            }
        }
        removed
    }

    /// Drops everything. Says how many responses were dropped.
    pub fn invalidate_all(&mut self) -> (r: usize)
        requires
            old(self).wf(),
        ensures
            final(self).wf(),
            old(self).all_dropped(*final(self)),
            r == (if old(self).is_enabled {
                old(self).store@.dom().len()
            } else {
                0
            }),
    {
        if !self.is_enabled {
            return 0;
        }
        self.epoch_all = self.epoch_all.wrapping_add(1);
        let removed: usize = self.store.len();
        self.store.clear();
        self.reverse.clear();
        self.dirty.clear();
        self.invalidations = self.invalidations.wrapping_add(removed as u64);
        removed
    }

    /// Marks files dirty: they have the given times on disk, and the index has not caught up.
    pub fn mark_dirty(&mut self, repo: &str, files: &Vec<(String, i64)>, now: u64)
        requires
            old(self).wf(),
        ensures
            final(self).wf(),
            old(self).files_marked(*final(self), repo@, files@, now),
    {
        if !self.is_enabled || files.len() == 0 {
            return;
        }
        self.bump_epoch(repo);
        let mut i: usize = 0;
        while i < files.len()
            invariant
                i <= files@.len(),
                self.wf(),
                self.dirty@ == marked(old(self).dirty@, repo@, files@, i as int, now),
                self.epochs@ == old(self).bumped(repo@),
                *self == (ServeCache { dirty: self.dirty, epochs: self.epochs, ..*old(self) }),
            decreases files.len() - i,
        {
            let file = (repo.to_owned(), files[i].0.clone());
            assert(file@ == (repo@, files@[i as int].0@));
            self.dirty.insert(file, (files[i].1, now));
            i += 1;
        }
    }

    /// What the cache `new` is after the mark of a file was looked at in this one.
    pub open spec fn looked_at(
        self,
        new: Self,
        repo: Seq<char>,
        path: Seq<char>,
        now: u64,
    ) -> bool {
        if !self.is_enabled {
            new == self
        } else {
            &&& new == (ServeCache { dirty: new.dirty, ..self })
            &&& new.dirty@ == (if self.dirty@.dom().contains((repo, path)) && !fresh(
                self.dirty@[(repo, path)].1,
                now,
            ) {
                self.dirty@.remove((repo, path))
            } else {
                self.dirty@
            })
        }
    }

    /// Whether a file is newer on disk than the time that the index has of it. A mark that
    /// has faded is taken back.
    pub fn is_path_stale(&mut self, repo: &str, path: &str, index_mtime: i64, now: u64) -> (r: bool)
        requires
            old(self).wf(),
        ensures
            final(self).wf(),
            r == (old(self).is_enabled && old(self).dirty@.dom().contains((repo@, path@)) && fresh(
                old(self).dirty@[(repo@, path@)].1,
                now,
            ) && old(self).dirty@[(repo@, path@)].0 > index_mtime),
            old(self).looked_at(*final(self), repo@, path@, now),
    {
        if !self.is_enabled {
            return false;
        }
        let file = (repo.to_owned(), path.to_owned());
        assert(file@ == (repo@, path@));
        match self.dirty.get(&file) {
            None => {
                return false;
            },
            Some(m) => {
                if (now as u128) < m.1 as u128 + DIRTY_MAX_AGE_MS as u128 {
                    return m.0 > index_mtime;
                }
            },
        }
        let _ = self.dirty.remove(&file);
        false
    }

    /// The index has caught up with files: takes back their marks and drops the responses
    /// that depend on them, and no others. Says how many responses were dropped.
    pub fn invalidate_files(&mut self, repo: &str, paths: &Vec<String>) -> (r: usize)
        requires
            old(self).wf(),
        ensures
            final(self).wf(),
            old(self).store@.dom().finite(),
            old(self).files_dropped(*final(self), repo@, paths@),
            r == old(self).store@.dom().len() - final(self).store@.dom().len(),
    {
        if !self.is_enabled || paths.len() == 0 {
            proof {
                lemma_map_of(self.store.entries@);
            }
            return 0;
        }
        self.bump_epoch(repo);
        let ghost bumped = *self;
        let keep_mark = |k: &(String, String), v: &(i64, u64)| -> (b: bool)
            ensures
                b == !(k@.0 == repo@ && lists(paths@, k@.1)),
            { !(str_eq(k.0.as_str(), repo) && in_list(paths, k.1.as_str())) };
        let _ = self.dirty.retain(
            keep_mark,
            Ghost(
                |k: (Seq<char>, Seq<char>), v: (i64, u64)|
                    !(k.0 == repo@ && lists(paths@, k.1)),
            ),
        );
        assert(self.dirty@ =~= unmarked(old(self).dirty@, repo@, paths@));
        let mut keys: Vec<String> = Vec::new();
        let mut i: usize = 0;
        while i < paths.len()
            invariant
                i <= paths@.len(),
                self.reverse.wf(),
                self.reverse@ == old(self).reverse@,
                forall|k: Seq<char>| #[trigger]
                    lists(keys@, k) <==> old(self).depends_on_any(
                        repo@,
                        paths@.take(i as int),
                        k,
                    ),
            decreases paths.len() - i,
        {
            let file = (repo.to_owned(), paths[i].clone());
            assert(file@ == (repo@, paths@[i as int]@));
            let ghost before = keys@;
            let ghost own: Seq<String> = if self.reverse@.dom().contains(file@) {
                self.reverse@[file@]@
            } else {
                Seq::empty()
            };
            if let Some(list) = self.reverse.get(&file) {
                let mut j: usize = 0;
                assert(list@.take(0) == Seq::<String>::empty());
                while j < list.len()
                    invariant
                        j <= list@.len(),
                        forall|k: Seq<char>| #[trigger]
                            lists(keys@, k) <==> lists(before, k) || lists(list@.take(j as int), k),
                    decreases list.len() - j,
                {
                    let ghost mid = keys@;
                    keys.push(list[j].clone());
                    proof {
                        assert(list@.take(j + 1) == list@.take(j as int).push(list@[j as int]));
                        assert forall|k: Seq<char>| #[trigger]
                            lists(keys@, k) <==> lists(before, k) || lists(
                                list@.take(j + 1),
                                k,
                            ) by {
                            lemma_lists_push(mid, list@[j as int], k);
                            lemma_lists_push(list@.take(j as int), list@[j as int], k);
                        }
                    }
                    j += 1;
                }
                assert(list@.take(j as int) == list@);
            }
            proof {
                let taken = paths@.take(i as int);
                let more = paths@.take(i + 1);
                assert(more == taken.push(paths@[i as int]));
                assert forall|k: Seq<char>| #[trigger]
                    lists(keys@, k) <==> old(self).depends_on_any(repo@, more, k) by {
                    assert(lists(keys@, k) <==> lists(before, k) || lists(own, k));
                    assert(lists(before, k) <==> old(self).depends_on_any(repo@, taken, k));
                    if old(self).depends_on_any(repo@, taken, k) {
                        let x = choose|x: int|
                            0 <= x < taken.len() && old(self).depends(
                                repo@,
                                (#[trigger] taken[x])@,
                                k,
                            );
                        assert(more[x] == taken[x]);
                    }
                    if lists(own, k) {
                        assert(old(self).depends(repo@, more[i as int]@, k));
                    }
                    if old(self).depends_on_any(repo@, more, k) {
                        let x = choose|x: int|
                            0 <= x < more.len() && old(self).depends(
                                repo@,
                                (#[trigger] more[x])@,
                                k,
                            );
                        if x < i {
                            assert(taken[x] == more[x]);
                        }
                    }
                }
            }
            i += 1;
        }
        assert(paths@.take(i as int) == paths@);
        let ghost marked_back = *self;
        let keep_keys = |k: &(String, String), v: &Vec<String>| -> (b: bool)
            ensures
                b == !(k@.0 == repo@ && lists(paths@, k@.1)),
            { !(str_eq(k.0.as_str(), repo) && in_list(paths, k.1.as_str())) };
        let _ = self.reverse.retain(
            keep_keys,
            Ghost(
                |k: (Seq<char>, Seq<char>), v: Vec<String>| !(k.0 == repo@ && lists(paths@, k.1)),
            ),
        );
        let ghost unlinked = *self;
        assert forall|q: Seq<char>, p: Seq<char>, k: Seq<char>| #[trigger]
            unlinked.depends(q, p, k) <==> old(self).depends(q, p, k) && !(q == repo@ && lists(
                paths@,
                p,
            )) by {}
        let keep_entry = |k: &String, e: &CacheEntry| -> (b: bool)
            ensures
                b == !lists(keys@, k@),
            { !in_list(&keys, k.as_str()) };
        let removed: usize = self.store.retain(
            keep_entry,
            Ghost(|k: Seq<char>, e: CacheEntry| !lists(keys@, k)),
        );
        self.invalidations = self.invalidations.wrapping_add(removed as u64);
        proof {
            assert(self.store@ =~= kept(
                old(self).store@,
                |k: Seq<char>, e: CacheEntry| !old(self).depends_on_any(repo@, paths@, k),
            ));
            assert forall|q: Seq<char>, p: Seq<char>, k: Seq<char>| #[trigger]
                self.depends(q, p, k) <==> old(self).depends(q, p, k) && !(q == repo@ && lists(
                    paths@,
                    p,
                )) by {
                assert(unlinked.depends(q, p, k) == self.depends(q, p, k));
            }
        }
        removed
    }

    /// How many files are marked dirty.
    pub fn dirty_count(&self) -> (r: usize)
        requires
            self.wf(),
        ensures
            r == self.dirty@.dom().len(),
    {
        self.dirty.len()
    }

    /// How many files some response depends on.
    pub fn tracked_files(&self) -> (r: usize)
        requires
            self.wf(),
        ensures
            r == self.reverse@.dom().len(),
    {
        self.reverse.len()
    }

    /// The number of responses, and how many were served, missed and dropped.
    pub fn stats(&self) -> (r: (usize, u64, u64, u64))
        requires
            self.wf(),
        ensures
            r.0 == self.store@.dom().len(),
            r.1 == self.hits,
            r.2 == self.misses,
            r.3 == self.invalidations,
    {
        (self.store.len(), self.hits, self.misses, self.invalidations)
    }
}

/// A response that was put in is served until its time is up, and no longer.
pub proof fn law_get_gives_back_insert(
    old: ServeCache,
    new: ServeCache,
    key: Seq<char>,
    payload: Arc<String>,
    repo: Seq<char>,
    deps: Seq<String>,
    ttl_ms: u128,
    now: u64,
    later: u64,
)
    requires
        old.is_enabled,
        old.inserted(new, key, payload, repo, deps, ttl_ms, now),
        ttl_ms <= 1000 * u64::MAX,
        now <= later,
    ensures
        later < now + ttl_ms ==> new.served(key, later) == Some(payload),
        later >= now + ttl_ms ==> new.served(key, later) is None,
{
}

/// A response is no longer served once its time is up.
pub proof fn law_expired_is_not_served(cache: ServeCache, key: Seq<char>, now: u64)
    requires
        cache.store@.dom().contains(key),
        cache.store@[key].expires <= now,
    ensures
        cache.served(key, now) is None,
{
}

/// A cache that is switched off serves nothing and keeps nothing.
pub proof fn law_disabled_cache_is_empty_handed(
    old: ServeCache,
    new: ServeCache,
    key: Seq<char>,
    payload: Arc<String>,
    repo: Seq<char>,
    deps: Seq<String>,
    ttl_ms: u128,
    now: u64,
)
    requires
        !old.is_enabled,
        old.inserted(new, key, payload, repo, deps, ttl_ms, now),
    ensures
        new == old,
        forall|k: Seq<char>, t: u64| #[trigger] new.served(k, t) is None,
{
}

/// Dropping the responses of files drops those that depend on one of the files, and leaves
/// every other response as it was.
pub proof fn law_only_dependent_responses_go(
    old: ServeCache,
    new: ServeCache,
    repo: Seq<char>,
    paths: Seq<String>,
    key: Seq<char>,
    now: u64,
)
    requires
        old.is_enabled,
        paths.len() > 0,
        old.files_dropped(new, repo, paths),
    ensures
        old.depends_on_any(repo, paths, key) ==> new.served(key, now) is None,
        !old.depends_on_any(repo, paths, key) ==> new.served(key, now) == old.served(key, now),
{
}

/// Whether a text has no bar in it.
pub open spec fn no_bar(s: Seq<char>) -> bool {
    !s.contains('|')
}

/// Dropping one repository drops all its responses and none of another one's. Names of
/// repositories hold no bar.
pub proof fn law_scope_is_dropped_alone(
    old: ServeCache,
    new: ServeCache,
    scope: Seq<char>,
    other: Seq<char>,
    tool: Seq<char>,
    args: JsonModel,
    now: u64,
)
    requires
        old.is_enabled,
        old.scope_dropped(new, scope),
        no_bar(scope),
        no_bar(other),
        scope != other,
    ensures
        new.served(cache_key(scope, tool, args), now) is None,
        new.served(cache_key(other, tool, args), now) == old.served(
            cache_key(other, tool, args),
            now,
        ),
{
    reveal_strlit("|");
    let bar = "|"@;
    assert(bar =~= seq!['|']);
    let own = cache_key(scope, tool, args);
    assert(own.subrange(0, scope.len() as int + 1) =~= scope + bar);
    let k = cache_key(other, tool, args);
    if begins_with(k, scope + bar) {
        let part = k.subrange(0, scope.len() as int + 1);
        assert(part == scope + bar);
        assert(part[scope.len() as int] == '|');
        if other.len() > scope.len() {
            assert(k[scope.len() as int] == other[scope.len() as int]);
            assert(other.contains('|'));
        } else if other.len() < scope.len() {
            assert(k[other.len() as int] == '|');
            assert(part[other.len() as int] == scope[other.len() as int]);
            assert(scope.contains('|'));
        } else {
            assert forall|i: int| 0 <= i < scope.len() implies scope[i] == other[i] by {
                assert(part[i] == scope[i]);
                assert(k[i] == other[i]);
            }
            assert(scope =~= other);
        }
    }
}

/// Each signal moves the generation of its repository by one, so a response that was computed
/// before the signal is told from one computed after it; other repositories do not move.
pub proof fn law_signal_moves_generation(old: ServeCache, new: ServeCache, repo: Seq<char>)
    requires
        new.epochs@ == old.bumped(repo),
        new.epoch_all == old.epoch_all,
    ensures
        new.epoch_of(repo) == old.epoch_of(repo).wrapping_add(1),
        new.epoch_of(repo) != old.epoch_of(repo),
        old.epoch_of(repo) < u64::MAX ==> new.epoch_of(repo) > old.epoch_of(repo),
        forall|q: Seq<char>| q != repo ==> #[trigger] new.epoch_of(q) == old.epoch_of(q),
{
}

/// Dropping everything moves the generation of every repository, also of those that no signal
/// was ever given for.
pub proof fn law_drop_all_moves_every_generation(old: ServeCache, new: ServeCache, repo: Seq<char>)
    requires
        old.is_enabled,
        old.all_dropped(new),
    ensures
        new.epoch_of(repo) == old.epoch_of(repo).wrapping_add(1),
        new.epoch_of(repo) != old.epoch_of(repo),
        old.epoch_of(repo) < u64::MAX ==> new.epoch_of(repo) > old.epoch_of(repo),
{
}

/// Each of the three signals of a repository moves its generation.
pub proof fn law_every_signal_is_counted(
    old: ServeCache,
    new: ServeCache,
    repo: Seq<char>,
    files: Seq<(String, i64)>,
    paths: Seq<String>,
    now: u64,
)
    requires
        old.is_enabled,
        ({
            ||| files.len() > 0 && old.files_marked(new, repo, files, now)
            ||| paths.len() > 0 && old.files_dropped(new, repo, paths)
            ||| old.scope_dropped(new, repo)
        }),
    ensures
        new.epoch_of(repo) == old.epoch_of(repo).wrapping_add(1),
        new.epoch_of(repo) != old.epoch_of(repo),
{
    law_signal_moves_generation(old, new, repo);
}

/// Whether a file counts as newer on disk than the index has it.
pub open spec fn stale(
    cache: ServeCache,
    repo: Seq<char>,
    path: Seq<char>,
    index_mtime: i64,
    now: u64,
) -> bool {
    cache.is_enabled && cache.dirty@.dom().contains((repo, path)) && fresh(
        cache.dirty@[(repo, path)].1,
        now,
    ) && cache.dirty@[(repo, path)].0 > index_mtime
}

/// A file that is marked dirty is stale for an index that has an older time of it, until the
/// mark fades; other files and other repositories are as they were.
pub proof fn law_mark_makes_stale(
    old: ServeCache,
    new: ServeCache,
    repo: Seq<char>,
    file: (String, i64),
    index_mtime: i64,
    now: u64,
    later: u64,
)
    requires
        old.is_enabled,
        old.files_marked(new, repo, seq![file], now),
    ensures
        stale(new, repo, file.0@, index_mtime, later) <==> later < now + 120_000 && file.1
            > index_mtime,
        forall|q: Seq<char>, p: Seq<char>|
            (q, p) != (repo, file.0@) ==> #[trigger] stale(new, q, p, index_mtime, later) == stale(
                old,
                q,
                p,
                index_mtime,
                later,
            ),
{
    reveal_with_fuel(marked, 2);
}

/// Files whose index has caught up, and files of a repository that was dropped, are no longer
/// stale; the others are as they were.
pub proof fn law_drop_takes_back_marks(
    old: ServeCache,
    new: ServeCache,
    repo: Seq<char>,
    paths: Seq<String>,
    q: Seq<char>,
    p: Seq<char>,
    index_mtime: i64,
    now: u64,
)
    requires
        old.is_enabled,
        paths.len() > 0,
    ensures
        old.files_dropped(new, repo, paths) ==> stale(new, q, p, index_mtime, now) == (stale(
            old,
            q,
            p,
            index_mtime,
            now,
        ) && !(q == repo && lists(paths, p))),
        old.scope_dropped(new, repo) ==> stale(new, q, p, index_mtime, now) == (stale(
            old,
            q,
            p,
            index_mtime,
            now,
        ) && q != repo),
{
}

/// Two ordered objects with the same values under all keys are the same.
pub proof fn lemma_ordered_unique(
    s: Seq<(Seq<char>, JsonModel)>,
    t: Seq<(Seq<char>, JsonModel)>,
)
    requires
        ordered(s),
        ordered(t),
        forall|x: Seq<char>| #[trigger] value_at(s, x) == value_at(t, x),
    ensures
        s == t,
    decreases s.len(),
{
    if s.len() == 0 {
        if t.len() > 0 {
            lemma_value_cons(t, t[0].0);
            assert(value_at(s, t[0].0) == value_at(t, t[0].0));
        }
        assert(s =~= t);
    } else if t.len() == 0 {
        lemma_value_cons(s, s[0].0);
        assert(value_at(s, s[0].0) == value_at(t, s[0].0));
    } else {
        let a = s[0].0;
        let b = t[0].0;
        lemma_value_cons(s, a);
        lemma_value_cons(t, b);
        assert(value_at(s, a) == value_at(t, a));
        assert(value_at(s, b) == value_at(t, b));
        lemma_key_index(t, a, 0);
        lemma_key_index(s, b, 0);
        lemma_before_total(a, b);
        let j = key_index(t, a)->0;
        let i = key_index(s, b)->0;
        if a != b {
            assert(before(t[0].0, t[j].0));
            assert(before(s[0].0, s[i].0));
        }
        assert(s[0] == t[0]);
        let s1 = s.skip(1);
        let t1 = t.skip(1);
        lemma_ordered_skip(s);
        lemma_ordered_skip(t);
        assert forall|x: Seq<char>| #[trigger] value_at(s1, x) == value_at(t1, x) by {
            assert(value_at(s, x) == value_at(t, x));
            lemma_value_cons(s, x);
            lemma_value_cons(t, x);
            if x == a {
                lemma_first_key_gone(s);
                lemma_first_key_gone(t);
            }
        }
        lemma_ordered_unique(s1, t1);
        assert(s =~= seq![s[0]] + s1);
        assert(t =~= seq![t[0]] + t1);
    }
}

proof fn lemma_ordered_skip(s: Seq<(Seq<char>, JsonModel)>)
    requires
        ordered(s),
        s.len() > 0,
    ensures
        ordered(s.skip(1)),
{
    let r = s.skip(1);
    assert forall|i: int, j: int| 0 <= i < j < r.len() implies before(
        #[trigger] r[i].0,
        #[trigger] r[j].0,
    ) by {
        assert(before(s[i + 1].0, s[j + 1].0));
    }
}

proof fn lemma_first_key_gone(s: Seq<(Seq<char>, JsonModel)>)
    requires
        ordered(s),
        s.len() > 0,
    ensures
        value_at(s.skip(1), s[0].0) is None,
{
    let r = s.skip(1);
    lemma_key_index(r, s[0].0, 0);
    if let Some(k) = key_index(r, s[0].0) {
        assert(before(s[0].0, s[k + 1].0));
        lemma_before_total(s[0].0, s[0].0);
    }
}

/// Whether no key occurs twice.
pub open spec fn distinct_keys(s: Seq<(Seq<char>, JsonModel)>) -> bool {
    forall|i: int, j: int|
        0 <= i < s.len() && 0 <= j < s.len() && i != j ==> (#[trigger] s[i]).0 != (
        #[trigger] s[j]).0
}

/// Among distinct keys, setting the first `n` entries gives each key its value.
proof fn lemma_put_all_values(a: Seq<(Seq<char>, JsonModel)>, n: int, x: Seq<char>)
    requires
        distinct_keys(a),
        0 <= n <= a.len(),
    ensures
        forall|i: int|
            0 <= i < n && (#[trigger] a[i]).0 == x ==> value_at(put_all(a, n), x) == Some(a[i].1),
        (forall|i: int| 0 <= i < n ==> (#[trigger] a[i]).0 != x) ==> value_at(
            put_all(a, n),
            x,
        ) is None,
    decreases n,
{
    if n > 0 {
        lemma_put_all_values(a, n - 1, x);
        lemma_value_put(put_all(a, n - 1), a[n - 1].0, a[n - 1].1, x);
    }
}

/// The key of a response does not depend on the order in which the arguments were given.
pub proof fn law_key_ignores_argument_order(
    scope: Seq<char>,
    tool: Seq<char>,
    a: Seq<(Seq<char>, JsonModel)>,
    b: Seq<(Seq<char>, JsonModel)>,
)
    requires
        distinct_keys(a),
        distinct_keys(b),
        forall|e: (Seq<char>, JsonModel)| #[trigger] a.contains(e) <==> b.contains(e),
    ensures
        cache_key(scope, tool, JsonModel::Object(in_order(a))) == cache_key(
            scope,
            tool,
            JsonModel::Object(in_order(b)),
        ),
{
    lemma_put_all(a, a.len() as int);
    lemma_put_all(b, b.len() as int);
    assert forall|x: Seq<char>| #[trigger] value_at(in_order(a), x) == value_at(in_order(b), x) by {
        lemma_put_all_values(a, a.len() as int, x);
        lemma_put_all_values(b, b.len() as int, x);
        if exists|i: int| 0 <= i < a.len() && (#[trigger] a[i]).0 == x {
            let i = choose|i: int| 0 <= i < a.len() && (#[trigger] a[i]).0 == x;
            assert(a.contains(a[i]));
            assert(b.contains(a[i]));
            let j = choose|j: int| 0 <= j < b.len() && b[j] == a[i];
            assert(b[j].0 == x);
        } else if exists|j: int| 0 <= j < b.len() && (#[trigger] b[j]).0 == x {
            let j = choose|j: int| 0 <= j < b.len() && (#[trigger] b[j]).0 == x;
            assert(b.contains(b[j]));
            assert(a.contains(b[j]));
            let i = choose|i: int| 0 <= i < a.len() && a[i] == b[j];
            assert(a[i].0 == x);
        }
    }
    lemma_ordered_unique(in_order(a), in_order(b));
}

/// The repository among the arguments does not count for the digest: the keys of two
/// repositories for the same arguments differ in the repository alone.
pub proof fn law_key_leaves_repository_out(
    scope: Seq<char>,
    tool: Seq<char>,
    s: Seq<(Seq<char>, JsonModel)>,
    repo: JsonModel,
)
    requires
        ordered(s),
    ensures
        cache_key(scope, tool, JsonModel::Object(put(s, "repo"@, repo))) == cache_key(
            scope,
            tool,
            JsonModel::Object(s),
        ),
{
    let key = "repo"@;
    let p = put(s, key, repo);
    lemma_put(s, key, repo);
    lemma_without(p, key);
    lemma_without(s, key);
    assert forall|x: Seq<char>| #[trigger] value_at(without(p, key), x) == value_at(
        without(s, key),
        x,
    ) by {
        lemma_value_without(p, key, x);
        lemma_value_without(s, key, x);
        lemma_value_put(s, key, repo, x);
    }
    lemma_ordered_unique(without(p, key), without(s, key));
}

/// The digest in a key is that of the arguments without the repository, whatever the scope and
/// the tool are: arguments that differ in the repository alone have the same digest.
pub proof fn law_digest_is_of_the_arguments_alone(
    scope: Seq<char>,
    tool: Seq<char>,
    a: JsonModel,
    other_scope: Seq<char>,
    other_tool: Seq<char>,
    b: JsonModel,
)
    requires
        without_repo(a) == without_repo(b),
    ensures
        cache_key(scope, tool, a) == cache_key(scope, tool, b),
        cache_key(scope, tool, a).skip(scope.len() + tool.len() + 2int) == cache_key(
            other_scope,
            other_tool,
            b,
        ).skip(other_scope.len() + other_tool.len() + 2int),
{
    reveal_strlit("|");
    let digest = sha256_text(args_text(a));
    assert(cache_key(scope, tool, a).skip(scope.len() + tool.len() + 2int) =~= digest);
    assert(cache_key(other_scope, other_tool, b).skip(other_scope.len() + other_tool.len() + 2int)
        =~= digest);
}

/// Each of several files is marked with the last time that was given for it, also where it was
/// marked before; files that are not among them keep their marks.
pub proof fn law_every_file_is_marked(
    old: ServeCache,
    new: ServeCache,
    repo: Seq<char>,
    files: Seq<(String, i64)>,
    i: int,
    path: Seq<char>,
    index_mtime: i64,
    now: u64,
    later: u64,
)
    requires
        old.is_enabled,
        old.files_marked(new, repo, files, now),
    ensures
        0 <= i < files.len() && (forall|j: int|
            i < j < files.len() ==> (#[trigger] files[j]).0@ != files[i].0@) ==> (stale(
            new,
            repo,
            files[i].0@,
            index_mtime,
            later,
        ) <==> later < now + 120_000 && files[i].1 > index_mtime),
        (forall|j: int| 0 <= j < files.len() ==> (#[trigger] files[j]).0@ != path) ==> stale(
            new,
            repo,
            path,
            index_mtime,
            later,
        ) == stale(old, repo, path, index_mtime, later),
{
    lemma_marked(old.dirty@, repo, files, files.len() as int, i, path, now);
}

proof fn lemma_marked(
    d: Map<(Seq<char>, Seq<char>), (i64, u64)>,
    repo: Seq<char>,
    files: Seq<(String, i64)>,
    n: int,
    i: int,
    path: Seq<char>,
    now: u64,
)
    requires
        0 <= n <= files.len(),
    ensures
        ({
            let m = marked(d, repo, files, n, now);
            &&& 0 <= i < n && (forall|j: int| i < j < n ==> (#[trigger] files[j]).0@ != files[i].0@)
                ==> m.dom().contains((repo, files[i].0@)) && m[(repo, files[i].0@)] == (
                files[i].1,
                now,
            )
            &&& (forall|j: int| 0 <= j < n ==> (#[trigger] files[j]).0@ != path) ==> m.dom().contains(
                (repo, path),
            ) == d.dom().contains((repo, path)) && (d.dom().contains((repo, path)) ==> m[(
                repo,
                path,
            )] == d[(repo, path)])
        }),
    decreases n,
{
    if n > 0 {
        lemma_marked(d, repo, files, n - 1, i, path, now);
    }
}

/// Sweeping changes no answer: what is served and what is stale stays the same from then on. All
/// that is left has not expired.
pub proof fn law_sweep_changes_no_answer(
    old: ServeCache,
    new: ServeCache,
    key: Seq<char>,
    repo: Seq<char>,
    path: Seq<char>,
    index_mtime: i64,
    now: u64,
    later: u64,
)
    requires
        old.is_enabled,
        old.swept(new, now),
        now <= later,
    ensures
        new.served(key, later) == old.served(key, later),
        stale(new, repo, path, index_mtime, later) == stale(old, repo, path, index_mtime, later),
        new.store@.dom().contains(key) ==> new.served(key, now) is Some,
        new.dirty@.dom().contains((repo, path)) ==> now < new.dirty@[(repo, path)].1 + 120_000,
        new.depends(repo, path, key) ==> new.store@.dom().contains(key),
        old.depends(repo, path, key) && old.served(key, now) is Some ==> new.depends(
            repo,
            path,
            key,
        ),
{
}

/// Putting a response in leaves what is served under other keys as it was, and each file that it
/// depends on is remembered. After every 256 insertions nothing is left that has expired.
pub proof fn law_insert_leaves_the_others(
    old: ServeCache,
    new: ServeCache,
    key: Seq<char>,
    payload: Arc<String>,
    repo: Seq<char>,
    deps: Seq<String>,
    ttl_ms: u128,
    now: u64,
    other: Seq<char>,
    i: int,
    later: u64,
)
    requires
        old.is_enabled,
        old.inserted(new, key, payload, repo, deps, ttl_ms, now),
        0 < ttl_ms <= 1000 * u64::MAX,
        now <= later,
    ensures
        other != key ==> new.served(other, later) == old.served(other, later),
        0 <= i < deps.len() ==> new.depends(repo, deps[i]@, key),
        (old.inserts + 1) % 256 == 0 && new.store@.dom().contains(other) ==> new.served(other, now)
            is Some,
        (old.inserts + 1) % 256 != 0 && old.store@.dom().contains(other)
            ==> new.store@.dom().contains(other),
{
    if 0 <= i < deps.len() {
        assert(lists(deps, deps[i]@));
        assert(new.served(key, now) is Some);
    }
}

/// Asking for a response, or whether a file is stale, changes no later answer.
pub proof fn law_asking_changes_no_answer(
    old: ServeCache,
    new: ServeCache,
    asked: Seq<char>,
    key: Seq<char>,
    repo: Seq<char>,
    path: Seq<char>,
    index_mtime: i64,
    now: u64,
    later: u64,
)
    requires
        old.looked_up(new, asked, now) || old.looked_at(new, repo, asked, now),
        now <= later,
    ensures
        new.served(key, later) == old.served(key, later),
        stale(new, repo, path, index_mtime, later) == stale(old, repo, path, index_mtime, later),
{
}

/// The key of a response begins with its repository and its tool.
pub proof fn law_key_begins_with_repository_and_tool(
    scope: Seq<char>,
    tool: Seq<char>,
    args: JsonModel,
)
    ensures
        begins_with(cache_key(scope, tool, args), scope + "|"@ + tool + "|"@),
{
    let head = scope + "|"@ + tool + "|"@;
    assert(cache_key(scope, tool, args).subrange(0, head.len() as int) =~= head);
}

} // verus!
