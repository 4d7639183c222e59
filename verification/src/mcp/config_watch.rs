//! Following changes of the settings of the daemon.

use crate::keyed::KeyedMap;
use crate::text::{in_list, lemma_lists_push, lists, texts};
use vstd::prelude::*;
use vstd::string::*;

verus! {

/// How long changes of a file are gathered, in milliseconds.
pub const DEBOUNCE_MS: u64 = 500;

/// A directory in the settings of the daemon.
#[derive(Debug, Clone)]
pub struct PathLanguage {
    pub alias: String,
    /// The language that was set.
    pub language: Option<String>,
    /// The language that was detected, where none was set.
    pub detected: Option<String>,
}

/// The language of a directory: the one that was set, else the one that was detected.
pub open spec fn language_of(entry: PathLanguage) -> Option<Seq<char>> {
    match entry.language {
        Some(l) => Some(l@),
        None => match entry.detected {
            Some(d) => Some(d@),
            None => None,
        },
    }
}

/// The languages of the first `n` directories by their aliases; of equal aliases the last one
/// counts. Directories without a language are left out.
pub open spec fn languages_of(entries: Seq<PathLanguage>, n: int) -> Map<Seq<char>, Seq<char>>
    decreases n,
{
    if n <= 0 {
        Map::empty()
    } else {
        match language_of(entries[n - 1]) {
            Some(l) => languages_of(entries, n - 1).insert(entries[n - 1].alias@, l),
            None => languages_of(entries, n - 1),
        }
    }
}

/// A map of texts as a mathematical value.
pub open spec fn text_map(m: Map<Seq<char>, String>) -> Map<Seq<char>, Seq<char>> {
    Map::new(|k: Seq<char>| m.dom().contains(k), |k: Seq<char>| m[k]@)
}

/// The languages of the directories by their aliases.
pub fn path_languages(entries: &Vec<PathLanguage>) -> (r: KeyedMap<String, String>)
    ensures
        r.wf(),
        text_map(r@) == languages_of(entries@, entries@.len() as int),
{
    let mut out: KeyedMap<String, String> = KeyedMap::new();
    let mut i: usize = 0;
    proof {
        assert(text_map(out@) =~= Map::<Seq<char>, Seq<char>>::empty());
    }
    while i < entries.len()
        invariant
            i <= entries@.len(),
            out.wf(),
            text_map(out@) == languages_of(entries@, i as int),
        decreases entries.len() - i,
    {
        let ghost before = out@;
        let e = &entries[i];
        let language: Option<String> = match &e.language {
            Some(l) => Some(l.clone()),
            None => match &e.detected {
                Some(d) => Some(d.clone()),
                None => None,
            },
        };
        if let Some(l) = language {
            let ghost text = l@;
            out.insert(e.alias.clone(), l);
            proof {
                assert(text_map(out@) =~= text_map(before).insert(e.alias@, text));
            }
        }
        i += 1;
    }
    out
}

/// Whether texts are the values of a map, each once.
pub open spec fn values_of(v: Seq<String>, m: Map<Seq<char>, Seq<char>>) -> bool {
    &&& texts(v).no_duplicates()
    &&& forall|l: Seq<char>| #[trigger]
        lists(v, l) <==> exists|k: Seq<char>| #[trigger] m.dom().contains(k) && m[k] == l
}

/// The languages that are in use: those of the directories, each once.
pub fn active_languages(entries: &Vec<PathLanguage>) -> (r: Vec<String>)
    ensures
        values_of(r@, languages_of(entries@, entries@.len() as int)),
{
    let map = path_languages(entries);
    let ghost m = text_map(map@);
    let mut out: Vec<String> = Vec::new();
    let mut i: usize = 0;
    proof {
        assert(texts(out@) =~= Seq::<Seq<char>>::empty());
        crate::keyed::lemma_map_of(map.entries@);
    }
    while i < map.entries.len()
        invariant
            i <= map.entries@.len(),
            texts(out@).no_duplicates(),
            forall|l: Seq<char>| #[trigger]
                lists(out@, l) <==> exists|k: int|
                    0 <= k < i && (#[trigger] map.entries@[k]).1@ == l,
        decreases map.entries.len() - i,
    {
        let ghost before = out@;
        let l = &map.entries[i].1;
        let ghost text = l@;
        if !in_list(&out, l.as_str()) {
            let copy = l.clone();
            out.push(copy);
            proof {
                assert(texts(out@) =~= texts(before).push(text));
                assert forall|a: int, b: int|
                    0 <= a < b < texts(out@).len() implies texts(out@)[a] != texts(out@)[b] by {
                    if b == before.len() {
                        if texts(before)[a] == text {
                            assert(before[a]@ == text);
                            assert(lists(before, text));
                        }
                    }
                }
                assert forall|x: Seq<char>| #[trigger] lists(out@, x) <==> exists|k: int|
                    0 <= k < i + 1 && (#[trigger] map.entries@[k]).1@ == x by {
                    lemma_lists_push(before, copy, x);
                    if lists(before, x) {
                        let k = choose|k: int| 0 <= k < i && (#[trigger] map.entries@[k]).1@ == x;
                        assert(map.entries@[k].1@ == x);
                    }
                    if x == text {
                        assert(map.entries@[i as int].1@ == x);
                    }
                }
            }
        } else {
            proof {
                assert forall|x: Seq<char>| #[trigger] lists(out@, x) <==> exists|k: int|
                    0 <= k < i + 1 && (#[trigger] map.entries@[k]).1@ == x by {
                    if lists(before, x) {
                        let k = choose|k: int| 0 <= k < i && (#[trigger] map.entries@[k]).1@ == x;
                        assert(map.entries@[k].1@ == x);
                    }
                }
            }
        }
        i += 1;
    }
    proof {
        assert forall|l: Seq<char>| #[trigger]
            lists(out@, l) <==> exists|k: Seq<char>| #[trigger] m.dom().contains(k) && m[k] == l by {
            if lists(out@, l) {
                let k = choose|k: int|
                    0 <= k < map.entries@.len() && (#[trigger] map.entries@[k]).1@ == l;
                let key = map.entries@[k].0@;
                assert(m.dom().contains(key) && m[key] == l);
            }
            if exists|k: Seq<char>| #[trigger] m.dom().contains(k) && m[k] == l {
                let key = choose|k: Seq<char>| #[trigger] m.dom().contains(k) && m[k] == l;
                assert(map@.dom().contains(key));
                let k = choose|k: int|
                    0 <= k < map.entries@.len() && (#[trigger] map.entries@[k]).0@ == key;
                assert(map.entries@[k].1@ == l);
            }
        }
    }
    out
}

/// Whether one of the paths is a target.
pub open spec fn hits(paths: Seq<String>, targets: Seq<String>) -> bool {
    exists|i: int| 0 <= i < paths.len() && lists(targets, (#[trigger] paths[i])@)
}

/// Whether an event is a change of one of the files that are followed. Reading a file is none:
/// the settings are read after each change, so that would go on forever.
pub fn is_config_change(is_access: bool, paths: &Vec<String>, targets: &Vec<String>) -> (r: bool)
    ensures
        r == (!is_access && hits(paths@, targets@)),
{
    if is_access {
        return false;
    }
    let mut i: usize = 0;
    while i < paths.len()
        invariant
            i <= paths@.len(),
            !is_access,
            forall|k: int| 0 <= k < i ==> !lists(targets@, (#[trigger] paths@[k])@),
        decreases paths.len() - i,
    {
        if in_list(targets, paths[i].as_str()) {
            assert(lists(targets@, paths@[i as int]@));
            return true;
        }
        i += 1;
    }
    false
}

/// What came of an event.
#[derive(Debug, Clone, Copy, PartialEq, Eq, Structural)]
pub enum WatchEvent {
    /// So many changes of the files that are followed.
    Changes(usize),
    /// The files could not be followed.
    Errors,
}

/// Whether the settings are read again: after every change that is about their files.
pub fn wants_reload(event: WatchEvent) -> (r: bool)
    ensures
        r == (event matches WatchEvent::Changes(n) && n > 0),
{
    match event {
        WatchEvent::Changes(n) => n > 0,
        WatchEvent::Errors => false,
    }
}

/// What is done when the settings are to be read again.
#[derive(Debug, Clone, Copy, PartialEq, Eq, Structural)]
pub enum DiskReload {
    /// Nothing: the file is gone for a moment, and everything stays as it is.
    Keep,
    /// The settings could not be read.
    Fail,
    /// The languages of the repositories are set first, then the tools are exchanged.
    Apply,
}

/// What is done when the settings are to be read again, given whether their file is there and
/// could be read.
pub fn reload_from_disk(exists: bool, readable: bool) -> (r: DiskReload)
    ensures
        r == (if !exists {
            DiskReload::Keep
        } else if !readable {
            DiskReload::Fail
        } else {
            DiskReload::Apply
        }),
{
    if !exists {
        DiskReload::Keep
    } else if !readable {
        DiskReload::Fail
    } else {
        DiskReload::Apply
    }
}

/// The directories among those of the first `n` targets, each once.
pub open spec fn parents_of(parents: Seq<Option<String>>, n: int) -> Seq<Seq<char>>
    decreases n,
{
    if n <= 0 {
        Seq::empty()
    } else {
        let before = parents_of(parents, n - 1);
        match parents[n - 1] {
            Some(p) => if before.contains(p@) {
                before
            } else {
                before.push(p@)
            },
            None => before,
        }
    }
}

/// Which of the targets from `i` on has no directory.
pub open spec fn orphan_from(parents: Seq<Option<String>>, i: int) -> Option<int>
    decreases parents.len() - i,
{
    if i < 0 || i >= parents.len() {
        None
    } else if parents[i] is None {
        Some(i)
    } else {
        orphan_from(parents, i + 1)
    }
}

/// The directories that are followed, given that of each target. The directories are followed,
/// not the files: editors write a new file and rename it.
pub fn watched_dirs(targets: &Vec<String>, parents: &Vec<Option<String>>) -> (r: Result<
    Vec<String>,
    String,
>)
    requires
        targets@.len() == parents@.len(),
    ensures
        match orphan_from(parents@, 0) {
            Some(i) => r is Err && r->Err_0@ == "config_watch: у пути "@ + targets@[i]@
                + " нет parent — не на что подписываться"@,
            None => r is Ok && texts(r->Ok_0@) == parents_of(parents@, parents@.len() as int),
        },
{
    let mut out: Vec<String> = Vec::new();
    let mut i: usize = 0;
    proof {
        assert(texts(out@) =~= Seq::<Seq<char>>::empty());
    }
    while i < parents.len()
        invariant
            i <= parents@.len(),
            targets@.len() == parents@.len(),
            orphan_from(parents@, 0) == orphan_from(parents@, i as int),
            texts(out@) == parents_of(parents@, i as int),
        decreases parents.len() - i,
    {
        let ghost before = out@;
        match &parents[i] {
            None => {
                let mut message = "config_watch: у пути ".to_owned();
                message.append(targets[i].as_str());
                message.append(" нет parent — не на что подписываться");
                return Err(message);
            },
            Some(p) => {
                let have: bool = in_list(&out, p.as_str());
                proof {
                    assert(have == texts(out@).contains(p@)) by {
                        if have {
                            let k = choose|k: int| 0 <= k < out@.len() && out@[k]@ == p@;
                            assert(texts(out@)[k] == p@);
                        }
                        if texts(out@).contains(p@) {
                            let k = choose|k: int|
                                0 <= k < texts(out@).len() && texts(out@)[k] == p@;
                            assert(out@[k]@ == p@);
                        }
                    }
                }
                if !have {
                    out.push(p.clone());
                    proof {
                        assert(texts(out@) =~= texts(before).push(p@));
                    }
                }
            },
        }
        i += 1;
    }
    Ok(out)
}

/// The language of an alias is that of the last directory with that alias which has one: the one
/// that was set, or else the one that was detected.
pub proof fn law_last_language_of_an_alias_counts(
    entries: Seq<PathLanguage>,
    n: int,
    i: int,
)
    requires
        0 <= i < n <= entries.len(),
        entries[i].language is Some || entries[i].detected is Some,
        forall|j: int|
            i < j < n ==> (#[trigger] entries[j]).alias@ != entries[i].alias@ || (
            entries[j].language is None && entries[j].detected is None),
    ensures
        languages_of(entries, n).dom().contains(entries[i].alias@),
        languages_of(entries, n)[entries[i].alias@] == (if entries[i].language is Some {
            entries[i].language->0@
        } else {
            entries[i].detected->0@
        }),
    decreases n,
{
    if n - 1 > i {
        law_last_language_of_an_alias_counts(entries, n - 1, i);
        assert(entries[n - 1].alias@ != entries[i].alias@ || language_of(entries[n - 1]) is None);
    }
}

/// An alias has a language only where a directory with that alias has one.
pub proof fn law_languages_come_from_the_directories(
    entries: Seq<PathLanguage>,
    n: int,
    alias: Seq<char>,
)
    requires
        0 <= n <= entries.len(),
        languages_of(entries, n).dom().contains(alias),
    ensures
        exists|i: int|
            0 <= i < n && (#[trigger] entries[i]).alias@ == alias && (entries[i].language is Some
                || entries[i].detected is Some),
    decreases n,
{
    if n > 0 {
        if entries[n - 1].alias@ == alias && language_of(entries[n - 1]) is Some {
            assert(entries[n - 1].alias@ == alias);
        } else {
            law_languages_come_from_the_directories(entries, n - 1, alias);
            let i = choose|i: int|
                0 <= i < n - 1 && (#[trigger] entries[i]).alias@ == alias && (entries[i].language
                    is Some || entries[i].detected is Some);
            assert(entries[i].alias@ == alias);
        }
    }
}

/// The directories of all files that are followed are watched, each once, and no other; a file
/// without a directory is named in the error, the first one where there are several.
pub proof fn law_every_directory_is_watched(parents: Seq<Option<String>>, n: int)
    requires
        0 <= n <= parents.len(),
    ensures
        forall|d: Seq<char>|
            #[trigger] parents_of(parents, n).contains(d) <==> exists|i: int|
                0 <= i < n && (#[trigger] parents[i]) is Some && parents[i]->0@ == d,
        parents_of(parents, n).no_duplicates(),
    decreases n,
{
    if n > 0 {
        law_every_directory_is_watched(parents, n - 1);
        let before = parents_of(parents, n - 1);
        let now = parents_of(parents, n);
        assert forall|d: Seq<char>| #[trigger] now.contains(d) <==> exists|i: int|
            0 <= i < n && (#[trigger] parents[i]) is Some && parents[i]->0@ == d by {
            if before.contains(d) {
                let k = choose|k: int| 0 <= k < before.len() && before[k] == d;
                assert(now[k] == d);
            }
            if exists|i: int| 0 <= i < n && (#[trigger] parents[i]) is Some && parents[i]->0@ == d {
                let i = choose|i: int|
                    0 <= i < n && (#[trigger] parents[i]) is Some && parents[i]->0@ == d;
                if i < n - 1 {
                    assert(before.contains(d));
                } else if !before.contains(d) {
                    assert(now[before.len() as int] == d);
                }
            }
            if now.contains(d) && !before.contains(d) {
                let k = choose|k: int| 0 <= k < now.len() && now[k] == d;
                assert(k == before.len());
                assert(parents[n - 1] is Some && parents[n - 1]->0@ == d);
            }
        }
    }
}

/// The first file without a directory is the one that is named.
pub proof fn law_first_orphan_is_named(parents: Seq<Option<String>>, i: int)
    requires
        0 <= i <= parents.len(),
    ensures
        match orphan_from(parents, i) {
            Some(k) => i <= k < parents.len() && parents[k] is None && forall|j: int|
                i <= j < k ==> (#[trigger] parents[j]) is Some,
            None => forall|j: int| i <= j < parents.len() ==> (#[trigger] parents[j]) is Some,
        },
    decreases parents.len() - i,
{
    if i < parents.len() {
        law_first_orphan_is_named(parents, i + 1);
    }
}

/// The languages in use are those of the directories: each that counts for an alias is there, once,
/// and no other one is.
pub proof fn law_languages_in_use_are_told_once(
    entries: Vec<PathLanguage>,
    r: Vec<String>,
    alias: Seq<char>,
    k: int,
)
    requires
        call_ensures(active_languages, (&entries,), r),
    ensures
        ({
            let m = languages_of(entries@, entries@.len() as int);
            &&& m.dom().contains(alias) ==> lists(r@, m[alias])
            &&& 0 <= k < r@.len() ==> exists|a: Seq<char>| #[trigger]
                m.dom().contains(a) && m[a] == r@[k]@
            &&& forall|i: int, j: int|
                0 <= i < j < r@.len() ==> (#[trigger] r@[i])@ != (#[trigger] r@[j])@
        }),
{
    let m = languages_of(entries@, entries@.len() as int);
    if 0 <= k < r@.len() {
        assert(lists(r@, r@[k]@));
    }
    assert forall|i: int, j: int| 0 <= i < j < r@.len() implies (#[trigger] r@[i])@ != (
    #[trigger] r@[j])@ by {
        assert(texts(r@)[i] != texts(r@)[j]);
    }
}

} // verus!
