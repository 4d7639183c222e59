//! The worker of one watched directory.
//!
//! It indexes the directory once, then follows its changes. The database, the disk and the
//! parsers are outside; what is done with them, and in which order, is decided here. A machine
//! says by `action` what is to be done, and its `next` takes how that went.

use crate::text::{decimal, push_decimal, replace_char, replaced, texts};
use vstd::hash_map::StringHashMap;
use vstd::prelude::*;

verus! {

/// A change of a file, whose path leads from the root of the directory on.
#[derive(Debug, Clone)]
pub enum FileEvent {
    Modified(String),
    Created(String),
    Deleted(String),
}

impl FileEvent {
    /// The path.
    pub open spec fn path(&self) -> Seq<char> {
        match self {
            FileEvent::Modified(p) => p@,
            FileEvent::Created(p) => p@,
            FileEvent::Deleted(p) => p@,
        }
    }

    /// The path with slashes, as the index writes it.
    pub open spec fn rel_path(&self) -> Seq<char> {
        replaced(self.path(), '\\', '/')
    }

    /// The path.
    pub fn path_text(&self) -> (r: &str)
        ensures
            r@ == self.path(),
    {
        match self {
            FileEvent::Modified(p) => p.as_str(),
            FileEvent::Created(p) => p.as_str(),
            FileEvent::Deleted(p) => p.as_str(),
        }
    }

    /// The path with slashes, as the index writes it.
    pub fn rel_path_text(&self) -> (r: String)
        ensures
            r@ == self.rel_path(),
    {
        replace_char(self.path_text(), '\\', '/')
    }
}

/// Where the database works.
#[derive(Debug, Clone, Copy, PartialEq, Eq, Structural)]
pub enum StorageMode {
    InMemory,
    Disk,
}

/// What the journal calls a place where the database works.
pub fn storage_mode_ru(mode: StorageMode) -> (r: &'static str)
    ensures
        r@ == (match mode {
            StorageMode::InMemory => "в оперативной памяти"@,
            StorageMode::Disk => "на диске"@,
        }),
{
    match mode {
        StorageMode::InMemory => "в оперативной памяти",
        StorageMode::Disk => "на диске",
    }
}

/// What is wrong with a batch.
#[derive(Debug, Clone, Copy, PartialEq, Eq, Structural)]
pub enum BatchFault {
    /// It could not be committed.
    Commit,
    /// So many of its changes could not be applied.
    Partial,
    /// What rests on the index could not be rebuilt.
    Extras,
}

/// What is wrong with a batch: the earliest step that failed counts.
pub open spec fn fault_of(commit_ok: bool, failed: int, extras_ok: bool) -> Option<BatchFault> {
    if !commit_ok {
        Some(BatchFault::Commit)
    } else if failed > 0 {
        Some(BatchFault::Partial)
    } else if !extras_ok {
        Some(BatchFault::Extras)
    } else {
        None
    }
}

/// What is said of a batch that went wrong.
pub open spec fn fault_text(fault: BatchFault, failed: nat, batch_len: nat) -> Seq<char> {
    match fault {
        BatchFault::Commit =>
            "фиксация батча не удалась — данные не применены, см. журнал демона"@,
        BatchFault::Partial => "батч применён частично: "@ + decimal(failed) + " из "@ + decimal(
            batch_len,
        )
            + " событий не удалось — эти файлы остались в индексе прежней версии, см. журнал демона"@,
        BatchFault::Extras =>
            "базовый индекс обновлён, но слой extras не пересобран — граф вызовов и связи данных отстают, см. журнал демона"@,
    }
}

/// What a batch came to. It is well only where each change was applied, the transaction was
/// committed, and what rests on the index was rebuilt.
pub fn batch_outcome(commit_ok: bool, failed: usize, batch_len: usize, extras_ok: bool) -> (r:
    Result<(), String>)
    ensures
        match fault_of(commit_ok, failed as int, extras_ok) {
            Some(fault) => r is Err && r->Err_0@ == fault_text(
                fault,
                failed as nat,
                batch_len as nat,
            ),
            None => r is Ok,
        },
{
    if !commit_ok {
        return Err(
            "фиксация батча не удалась — данные не применены, см. журнал демона".to_owned(),
        );
    }
    if failed > 0 {
        let mut text = String::new();
        text.append("батч применён частично: ");
        push_decimal(&mut text, failed as u64);
        text.append(" из ");
        push_decimal(&mut text, batch_len as u64);
        text.append(
            " событий не удалось — эти файлы остались в индексе прежней версии, см. журнал демона",
        );
        proof {
            assert(text@ =~= fault_text(BatchFault::Partial, failed as nat, batch_len as nat));
        }
        return Err(text);
    }
    if !extras_ok {
        return Err(
            "базовый индекс обновлён, но слой extras не пересобран — граф вызовов и связи данных отстают, см. журнал демона".to_owned(),
        );
    }
    Ok(())
}

/// Whether a path is that of one of the first `n` changes.
pub open spec fn touched(batch: Seq<FileEvent>, n: int, path: Seq<char>) -> bool {
    exists|i: int| 0 <= i < n && #[trigger] batch[i].rel_path() == path
}

/// The paths of the first `n` changes, each once, in the order in which they come first.
pub open spec fn touched_paths(batch: Seq<FileEvent>, n: int) -> Seq<Seq<char>>
    decreases n,
{
    if n <= 0 {
        Seq::empty()
    } else {
        let p = batch[n - 1].rel_path();
        let before = touched_paths(batch, n - 1);
        if p.len() == 0 || before.contains(p) {
            before
        } else {
            before.push(p)
        }
    }
}

/// The paths whose responses a cache must drop: those of all changes, deletions too, each once.
pub fn collect_invalidate_paths(batch: &Vec<FileEvent>) -> (r: Vec<String>)
    ensures
        texts(r@) == touched_paths(batch@, batch@.len() as int),
{
    let mut out: Vec<String> = Vec::new();
    let mut have: StringHashMap<bool> = StringHashMap::new();
    let mut i: usize = 0;
    while i < batch.len()
        invariant
            i <= batch@.len(),
            texts(out@) == touched_paths(batch@, i as int),
            forall|p: Seq<char>| #[trigger] have@.contains_key(p) <==> texts(out@).contains(p),
        decreases batch.len() - i,
    {
        let ghost before = texts(out@);
        let rel = batch[i].rel_path_text();
        if !rel.as_str().is_empty() && !have.contains_key(rel.as_str()) {
            have.insert(rel.clone(), true);
            let ghost added = rel@;
            out.push(rel);
            proof {
                assert(texts(out@) =~= before.push(added));
                assert forall|p: Seq<char>| #[trigger]
                    have@.contains_key(p) <==> texts(out@).contains(p) by {
                    if before.contains(p) {
                        let k = choose|k: int| 0 <= k < before.len() && before[k] == p;
                        assert(before.push(added)[k] == p);
                    }
                    if p == added {
                        assert(before.push(added)[before.len() as int] == p);
                    }
                }
            }
        }
        i += 1;
    }
    out
}

/// The paths of a batch are those of its changes, and each is there once.
pub proof fn law_invalidated_paths(batch: Seq<FileEvent>, n: int)
    requires
        0 <= n <= batch.len(),
    ensures
        forall|p: Seq<char>|
            p.len() > 0 ==> (#[trigger] touched_paths(batch, n).contains(p) <==> touched(
                batch,
                n,
                p,
            )),
        !touched_paths(batch, n).contains(Seq::empty()),
        touched_paths(batch, n).no_duplicates(),
    decreases n,
{
    if n > 0 {
        law_invalidated_paths(batch, n - 1);
        let q = batch[n - 1].rel_path();
        let before = touched_paths(batch, n - 1);
        let now = touched_paths(batch, n);
        assert forall|p: Seq<char>| p.len() > 0 implies (#[trigger] now.contains(p) <==> touched(
            batch,
            n,
            p,
        )) by {
            if touched(batch, n - 1, p) {
                let k = choose|k: int| 0 <= k < n - 1 && #[trigger] batch[k].rel_path() == p;
                assert(batch[k].rel_path() == p);
            }
            if p == q {
                assert(batch[n - 1].rel_path() == p);
            }
            if before.contains(p) {
                let k = choose|k: int| 0 <= k < before.len() && before[k] == p;
                assert(now[k] == p);
            }
            if now.contains(p) && !before.contains(p) {
                assert(p == q);
            }
            if q == p && q.len() > 0 && !before.contains(q) {
                assert(now[before.len() as int] == p);
            }
            if touched(batch, n, p) {
                let k = choose|k: int| 0 <= k < n && #[trigger] batch[k].rel_path() == p;
                if k < n - 1 {
                    assert(touched(batch, n - 1, p));
                }
            }
        }
    }
}

/// The latest time at which a path was changed, among the first `n` changes. Deletions have
/// none.
pub open spec fn latest(batch: Seq<(FileEvent, Option<i64>)>, n: int) -> Map<Seq<char>, i64>
    decreases n,
{
    if n <= 0 {
        Map::empty()
    } else {
        let before = latest(batch, n - 1);
        let (event, mtime) = batch[n - 1];
        let p = event.rel_path();
        match mtime {
            Some(t) => if event is Deleted || p.len() == 0 {
                before
            } else if before.contains_key(p) && before[p] >= t {
                before
            } else {
                before.insert(p, t)
            },
            None => before,
        }
    }
}

/// Whether pairs are the entries of a map, each once.
pub open spec fn entries_of(v: Seq<(String, i64)>, m: Map<Seq<char>, i64>) -> bool {
    &&& forall|i: int|
        0 <= i < v.len() ==> m.contains_key((#[trigger] v[i]).0@) && m[v[i].0@] == v[i].1
    &&& forall|p: Seq<char>| #[trigger]
        m.contains_key(p) ==> exists|i: int| 0 <= i < v.len() && (#[trigger] v[i]).0@ == p
    &&& forall|i: int, j: int|
        0 <= i < j < v.len() ==> (#[trigger] v[i]).0@ != (#[trigger] v[j]).0@
}

/// The paths that changed, each with the latest time of its change. A cache is told before the
/// changes are applied that its responses may be stale.
pub fn collect_dirty_paths(batch: &Vec<(FileEvent, Option<i64>)>) -> (r: Vec<(String, i64)>)
    ensures
        entries_of(r@, latest(batch@, batch@.len() as int)),
{
    let mut out: Vec<(String, i64)> = Vec::new();
    let mut at: StringHashMap<usize> = StringHashMap::new();
    let mut i: usize = 0;
    while i < batch.len()
        invariant
            i <= batch@.len(),
            entries_of(out@, latest(batch@, i as int)),
            forall|p: Seq<char>| #[trigger]
                at@.contains_key(p) ==> at@[p] < out@.len() && out@[at@[p] as int].0@ == p,
            forall|k: int| 0 <= k < out@.len() ==> at@.contains_key((#[trigger] out@[k]).0@),
        decreases batch.len() - i,
    {
        let ghost before = out@;
        let ghost m = latest(batch@, i as int);
        let event = &batch[i].0;
        let live: bool = match event {
            FileEvent::Deleted(_) => false,
            _ => true,
        };
        if live {
            if let Some(t) = batch[i].1 {
                let rel = event.rel_path_text();
                if !rel.as_str().is_empty() {
                    let ghost p = rel@;
                    match at.get(rel.as_str()) {
                        Some(k) => {
                            let k: usize = *k;
                            assert(m.contains_key(p) && m[p] == before[k as int].1);
                            if t > out[k].1 {
                                let (path, _) = out.remove(k);
                                out.insert(k, (path, t));
                                proof {
                                    lemma_entries_update(before, m, k as int, out@, t);
                                    assert forall|q: Seq<char>| #[trigger]
                                        at@.contains_key(q) implies at@[q] < out@.len()
                                        && out@[at@[q] as int].0@ == q by {}
                                    assert forall|j: int| 0 <= j < out@.len() implies at@.contains_key(
                                        (#[trigger] out@[j]).0@,
                                    ) by {
                                        assert(out@[j].0@ == before[j].0@);
                                    }
                                }
                            }
                        },
                        None => {
                            at.insert(rel.clone(), out.len());
                            out.push((rel, t));
                            proof {
                                assert(out@.drop_last() =~= before);
                                lemma_entries_push(before, m, out@, t);
                            }
                        },
                    }
                }
            }
        }
        i += 1;
    }
    out
}

/// A new entry.
proof fn lemma_entries_push(
    v: Seq<(String, i64)>,
    m: Map<Seq<char>, i64>,
    w: Seq<(String, i64)>,
    t: i64,
)
    requires
        entries_of(v, m),
        w.len() == v.len() + 1,
        w.drop_last() == v,
        w.last().1 == t,
        forall|i: int| 0 <= i < v.len() ==> (#[trigger] v[i]).0@ != w.last().0@,
    ensures
        entries_of(w, m.insert(w.last().0@, t)),
        !m.contains_key(w.last().0@),
{
    let p = w.last().0@;
    let n = m.insert(p, t);
    assert forall|i: int| 0 <= i < v.len() implies w[i] == #[trigger] v[i] by {
        assert(w.drop_last()[i] == w[i]);
    }
    if m.contains_key(p) {
        let i = choose|i: int| 0 <= i < v.len() && (#[trigger] v[i]).0@ == p;
        assert(v[i].0@ != p);
    }
    assert forall|q: Seq<char>| #[trigger] n.contains_key(q) implies exists|i: int|
        0 <= i < w.len() && (#[trigger] w[i]).0@ == q by {
        if q == p {
            assert(w[v.len() as int].0@ == q);
        } else {
            assert(m.contains_key(q));
            let i = choose|i: int| 0 <= i < v.len() && (#[trigger] v[i]).0@ == q;
            assert(w[i].0@ == q);
        }
    }
    assert forall|i: int| 0 <= i < w.len() implies n.contains_key((#[trigger] w[i]).0@)
        && n[w[i].0@] == w[i].1 by {
        if i < v.len() {
            assert(w[i] == v[i]);
        }
    }
    assert forall|i: int, j: int| 0 <= i < j < w.len() implies (#[trigger] w[i]).0@ != (
    #[trigger] w[j]).0@ by {
        assert(w[i] == v[i]);
        if j < v.len() {
            assert(w[j] == v[j]);
        }
    }
}

/// An entry with another value.
proof fn lemma_entries_update(
    v: Seq<(String, i64)>,
    m: Map<Seq<char>, i64>,
    k: int,
    w: Seq<(String, i64)>,
    t: i64,
)
    requires
        entries_of(v, m),
        0 <= k < v.len(),
        w.len() == v.len(),
        w[k].1 == t,
        w[k].0@ == v[k].0@,
        forall|i: int| 0 <= i < v.len() && i != k ==> #[trigger] w[i] == v[i],
    ensures
        entries_of(w, m.insert(v[k].0@, t)),
{
    let p = v[k].0@;
    let n = m.insert(p, t);
    assert forall|i: int| 0 <= i < w.len() implies #[trigger] w[i].0@ == v[i].0@ by {}
    assert forall|q: Seq<char>| #[trigger] n.contains_key(q) implies exists|i: int|
        0 <= i < w.len() && (#[trigger] w[i]).0@ == q by {
        if q == p {
            assert(w[k].0@ == q);
        } else {
            assert(m.contains_key(q));
            let i = choose|i: int| 0 <= i < v.len() && (#[trigger] v[i]).0@ == q;
            assert(w[i].0@ == q);
        }
    }
    assert forall|i: int| 0 <= i < w.len() implies n.contains_key((#[trigger] w[i]).0@)
        && n[w[i].0@] == w[i].1 by {
        assert(m.contains_key(v[i].0@) && m[v[i].0@] == v[i].1);
        if i != k {
            if i < k {
                assert(v[i].0@ != v[k].0@);
            } else {
                assert(v[k].0@ != v[i].0@);
            }
        }
    }
    assert forall|i: int, j: int| 0 <= i < j < w.len() implies (#[trigger] w[i]).0@ != (
    #[trigger] w[j]).0@ by {
        assert(v[i].0@ != v[j].0@);
    }
}

/// The cache is told of each path that was written, with the latest time of its changes: no change
/// of it is later, and one of them has that time. Deletions are not among them.
pub proof fn law_dirty_paths_have_their_latest_time(
    batch: Seq<(FileEvent, Option<i64>)>,
    n: int,
    path: Seq<char>,
)
    requires
        0 <= n <= batch.len(),
        path.len() > 0,
    ensures
        latest(batch, n).contains_key(path) <==> exists|i: int|
            0 <= i < n && #[trigger] is_write(batch[i], path),
        latest(batch, n).contains_key(path) ==> (exists|i: int|
            0 <= i < n && #[trigger] is_write(batch[i], path) && batch[i].1 == Some(
                latest(batch, n)[path],
            )) && forall|i: int|
            0 <= i < n && #[trigger] is_write(batch[i], path) ==> batch[i].1->0 <= latest(
                batch,
                n,
            )[path],
    decreases n,
{
    if n > 0 {
        law_dirty_paths_have_their_latest_time(batch, n - 1, path);
        let before = latest(batch, n - 1);
        let now = latest(batch, n);
        if is_write(batch[n - 1], path) {
            assert(now.contains_key(path));
        }
        if before.contains_key(path) {
            let i = choose|i: int|
                0 <= i < n - 1 && #[trigger] is_write(batch[i], path) && batch[i].1 == Some(
                    before[path],
                );
            assert(is_write(batch[i], path));
        }
        if now.contains_key(path) && now[path] != before[path] {
            assert(is_write(batch[n - 1], path));
        }
    }
}

/// Whether a change wrote to a path, at a time that is known.
pub open spec fn is_write(change: (FileEvent, Option<i64>), path: Seq<char>) -> bool {
    !(change.0 is Deleted) && change.0.rel_path() == path && change.1 is Some
}

/// No other path is told to the cache: one that is empty, or that no change wrote to, is not.
pub proof fn law_only_written_paths_are_dirty(
    batch: Seq<(FileEvent, Option<i64>)>,
    n: int,
)
    requires
        0 <= n <= batch.len(),
    ensures
        !latest(batch, n).contains_key(Seq::empty()),
    decreases n,
{
    if n > 0 {
        law_only_written_paths_are_dirty(batch, n - 1);
    }
}

/// The path of a change is written with slashes, whatever the system writes it with.
pub proof fn law_paths_are_written_with_slashes(event: FileEvent)
    ensures
        event.rel_path().len() == event.path().len(),
        forall|i: int|
            0 <= i < event.path().len() ==> #[trigger] event.rel_path()[i] == if event.path()[i]
                == '\\' {
                '/'
            } else {
                event.path()[i]
            },
{
}

/// A batch is well exactly where it was committed, none of its changes failed and what rests on the
/// index was rebuilt; of several faults the earliest is named.
pub proof fn law_batch_is_well_where_every_step_is(commit_ok: bool, failed: nat, extras_ok: bool)
    ensures
        fault_of(commit_ok, failed as int, extras_ok) is None <==> commit_ok && failed == 0
            && extras_ok,
        !commit_ok ==> fault_of(commit_ok, failed as int, extras_ok) == Some(BatchFault::Commit),
        commit_ok && failed > 0 ==> fault_of(commit_ok, failed as int, extras_ok) == Some(
            BatchFault::Partial,
        ),
        commit_ok && failed == 0 && !extras_ok ==> fault_of(commit_ok, failed as int, extras_ok)
            == Some(BatchFault::Extras),
{
}

/// The dirty paths are told completely: each path that has a latest time is told once, with that
/// time, and no other path is.
pub proof fn law_dirty_paths_are_told_completely(
    batch: Vec<(FileEvent, Option<i64>)>,
    r: Vec<(String, i64)>,
    path: Seq<char>,
)
    requires
        call_ensures(collect_dirty_paths, (&batch,), r),
    ensures
        ({
            let m = latest(batch@, batch@.len() as int);
            &&& m.contains_key(path) ==> exists|i: int|
                0 <= i < r@.len() && (#[trigger] r@[i]).0@ == path && r@[i].1 == m[path]
            &&& !m.contains_key(path) ==> forall|i: int|
                0 <= i < r@.len() ==> (#[trigger] r@[i]).0@ != path
            &&& forall|i: int, j: int|
                0 <= i < j < r@.len() ==> (#[trigger] r@[i]).0@ != (#[trigger] r@[j]).0@
        }),
{
    let m = latest(batch@, batch@.len() as int);
    if m.contains_key(path) {
        let i = choose|i: int| 0 <= i < r@.len() && (#[trigger] r@[i]).0@ == path;
        assert(r@[i].1 == m[path]);
    }
}

} // verus!
