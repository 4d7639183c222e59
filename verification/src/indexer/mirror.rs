//! What the index holds after a pass over the files.

use crate::indexer::candidates::{
    gone_files, known_files, lemma_known_files, reads, seen_paths, sorted, unchanged, Chosen, Entry,
    ReadOutcome, Stored,
};
use crate::indexer::file_types::Category;
use vstd::prelude::*;

verus! {

/// The digests of the files that the index knows, by path.
pub open spec fn digests(known: Map<Seq<char>, Stored>) -> Map<Seq<char>, Seq<char>> {
    known.map_values(|f: Stored| f.content_hash)
}

/// The digests after the first `n` files were written.
pub open spec fn written(
    index: Map<Seq<char>, Seq<char>>,
    chosen: Seq<Chosen>,
    n: int,
) -> Map<Seq<char>, Seq<char>>
    decreases n,
{
    if n <= 0 {
        index
    } else {
        written(index, chosen, n - 1).insert(chosen[n - 1].rel_path, chosen[n - 1].hash)
    }
}

/// The digests after the first `n` files were deleted.
pub open spec fn removed(
    index: Map<Seq<char>, Seq<char>>,
    gone: Seq<(i64, Seq<char>)>,
    n: int,
) -> Map<Seq<char>, Seq<char>>
    decreases n,
{
    if n <= 0 {
        index
    } else {
        removed(index, gone, n - 1).remove(gone[n - 1].1)
    }
}

/// The digests after a pass in which every step on the database went well: the files that were
/// chosen are written, then those that are gone are deleted.
pub open spec fn after_pass(
    known: Map<Seq<char>, Stored>,
    chosen: Seq<Chosen>,
    gone: Seq<(i64, Seq<char>)>,
) -> Map<Seq<char>, Seq<char>> {
    removed(
        written(digests(known), chosen, chosen.len() as int),
        gone,
        gone.len() as int,
    )
}

/// Whether no two entries have one path.
pub open spec fn distinct_paths(entries: Seq<Entry>) -> bool {
    forall|i: int, j: int|
        0 <= i < j < entries.len() ==> #[trigger] entries[i].rel_path
            != #[trigger] entries[j].rel_path
}

/// Whether a file was read as a text with this digest.
pub open spec fn read_as(outcome: ReadOutcome, category: Category, hash: Seq<char>) -> bool {
    outcome matches ReadOutcome::Content { hash: h, is_binary, .. } && !is_binary && !(
    category is Binary) && h@ == hash
}

/// Which entries are read: in order, each once.
proof fn lemma_reads_positions(
    entries: Seq<Entry>,
    n: int,
    known: Map<Seq<char>, Stored>,
    force: bool,
)
    requires
        0 <= n <= entries.len() <= usize::MAX,
    ensures
        ({
            let r = reads(entries, n, known, force);
            &&& forall|k: int|
                0 <= k < r.len() ==> #[trigger] r[k] < n && (force || !unchanged(
                    entries[r[k] as int],
                    known,
                ))
            &&& forall|k: int, l: int|
                0 <= k < l < r.len() ==> #[trigger] r[k] < #[trigger] r[l]
        }),
    decreases n,
{
    if n > 0 {
        lemma_reads_positions(entries, n - 1, known, force);
        let b = reads(entries, n - 1, known, force);
        let r = reads(entries, n, known, force);
        assert forall|k: int| 0 <= k < r.len() implies #[trigger] r[k] < n && (force || !unchanged(
            entries[r[k] as int],
            known,
        )) by {
            if k < b.len() {
                assert(r[k] == b[k]);
            }
        }
        assert forall|k: int, l: int| 0 <= k < l < r.len() implies #[trigger] r[k]
            < #[trigger] r[l] by {
            assert(r[k] == b[k]);
            if l < b.len() {
                assert(r[l] == b[l]);
            }
        }
    }
}

/// Whether the file at `k` among those that were read became the candidate `c`.
pub open spec fn became(
    entries: Seq<Entry>,
    to_read: Seq<usize>,
    outcomes: Seq<ReadOutcome>,
    k: int,
    c: Chosen,
) -> bool {
    let e = entries[to_read[k] as int];
    c.rel_path == e.rel_path && read_as(outcomes[k], e.category, c.hash)
}

/// Whether one of the first `n` files that were read became the candidate `c`.
pub open spec fn comes_of_reading(
    entries: Seq<Entry>,
    to_read: Seq<usize>,
    outcomes: Seq<ReadOutcome>,
    n: int,
    c: Chosen,
) -> bool {
    exists|k: int| 0 <= k < n && #[trigger] became(entries, to_read, outcomes, k, c)
}

/// Whether the file at `k` among those that were read is a candidate.
pub open spec fn is_chosen(
    entries: Seq<Entry>,
    to_read: Seq<usize>,
    outcomes: Seq<ReadOutcome>,
    k: int,
    known: Map<Seq<char>, Stored>,
    force: bool,
) -> bool {
    let e = entries[to_read[k] as int];
    exists|h: Seq<char>| #[trigger]
        read_as(outcomes[k], e.category, h) && (force || !known.contains_key(e.rel_path)
            || known[e.rel_path].content_hash != h)
}

/// The candidates are files that were read, and each file that is chosen is among them.
proof fn lemma_chosen(
    entries: Seq<Entry>,
    to_read: Seq<usize>,
    outcomes: Seq<ReadOutcome>,
    n: int,
    known: Map<Seq<char>, Stored>,
    force: bool,
)
    requires
        0 <= n,
    ensures
        ({
            let s = sorted(entries, to_read, outcomes, n, known, force);
            &&& forall|c: int|
                0 <= c < s.chosen.len() ==> comes_of_reading(
                    entries,
                    to_read,
                    outcomes,
                    n,
                    #[trigger] s.chosen[c],
                )
            &&& forall|k: int|
                0 <= k < n && #[trigger] is_chosen(entries, to_read, outcomes, k, known, force)
                    ==> exists|c: int|
                    0 <= c < s.chosen.len() && became(
                        entries,
                        to_read,
                        outcomes,
                        k,
                        #[trigger] s.chosen[c],
                    )
        }),
    decreases n,
{
    if n > 0 {
        lemma_chosen(entries, to_read, outcomes, n - 1, known, force);
        let b = sorted(entries, to_read, outcomes, n - 1, known, force);
        let s = sorted(entries, to_read, outcomes, n, known, force);
        let e = entries[to_read[n - 1] as int];
        assert forall|c: int| 0 <= c < s.chosen.len() implies comes_of_reading(
            entries,
            to_read,
            outcomes,
            n,
            #[trigger] s.chosen[c],
        ) by {
            if c < b.chosen.len() {
                assert(s.chosen[c] == b.chosen[c]);
                assert(comes_of_reading(entries, to_read, outcomes, n - 1, b.chosen[c]));
                let k = choose|k: int|
                    0 <= k < n - 1 && became(entries, to_read, outcomes, k, b.chosen[c]);
                assert(became(entries, to_read, outcomes, k, s.chosen[c]));
            } else {
                assert(became(entries, to_read, outcomes, n - 1, s.chosen[c]));
            }
        }
        assert forall|k: int|
            0 <= k < n && #[trigger] is_chosen(
                entries,
                to_read,
                outcomes,
                k,
                known,
                force,
            ) implies exists|c: int|
            0 <= c < s.chosen.len() && became(
                entries,
                to_read,
                outcomes,
                k,
                #[trigger] s.chosen[c],
            ) by {
            if k < n - 1 {
                let c = choose|c: int|
                    0 <= c < b.chosen.len() && became(
                        entries,
                        to_read,
                        outcomes,
                        k,
                        #[trigger] b.chosen[c],
                    );
                assert(s.chosen[c] == b.chosen[c]);
            } else {
                let h = choose|h: Seq<char>| #[trigger]
                    read_as(outcomes[k], e.category, h) && (force || !known.contains_key(
                        e.rel_path,
                    ) || known[e.rel_path].content_hash != h);
                assert(s.chosen.last().hash == h);
                assert(became(entries, to_read, outcomes, k, s.chosen[b.chosen.len() as int]));
            }
        }
    }
}

/// A path that is not written keeps what it had; one that is written with one digest alone has
/// that digest.
proof fn lemma_written(
    index: Map<Seq<char>, Seq<char>>,
    chosen: Seq<Chosen>,
    n: int,
    path: Seq<char>,
    hash: Seq<char>,
)
    requires
        0 <= n <= chosen.len(),
        forall|c: int|
            0 <= c < n && #[trigger] chosen[c].rel_path == path ==> chosen[c].hash == hash,
    ensures
        ({
            let w = written(index, chosen, n);
            if exists|c: int| 0 <= c < n && #[trigger] chosen[c].rel_path == path {
                w.contains_key(path) && w[path] == hash
            } else {
                w.contains_key(path) == index.contains_key(path) && (index.contains_key(path)
                    ==> w[path] == index[path])
            }
        }),
    decreases n,
{
    if n > 0 {
        lemma_written(index, chosen, n - 1, path, hash);
        if chosen[n - 1].rel_path == path {
            assert(exists|c: int| 0 <= c < n && #[trigger] chosen[c].rel_path == path);
        } else {
            if exists|c: int| 0 <= c < n && #[trigger] chosen[c].rel_path == path {
                let c = choose|c: int| 0 <= c < n && #[trigger] chosen[c].rel_path == path;
                assert(c < n - 1);
            }
        }
    }
}

/// A path that is written was written or was there.
proof fn lemma_written_paths(
    index: Map<Seq<char>, Seq<char>>,
    chosen: Seq<Chosen>,
    n: int,
    path: Seq<char>,
)
    requires
        0 <= n <= chosen.len(),
        written(index, chosen, n).contains_key(path),
    ensures
        index.contains_key(path) || exists|c: int|
            0 <= c < n && #[trigger] chosen[c].rel_path == path,
    decreases n,
{
    if n > 0 {
        if chosen[n - 1].rel_path != path {
            lemma_written_paths(index, chosen, n - 1, path);
        }
    }
}

/// Deleting takes away the paths that are gone, and only these.
proof fn lemma_removed(
    index: Map<Seq<char>, Seq<char>>,
    gone: Seq<(i64, Seq<char>)>,
    n: int,
    path: Seq<char>,
)
    requires
        0 <= n <= gone.len(),
    ensures
        ({
            let r = removed(index, gone, n);
            if exists|g: int| 0 <= g < n && (#[trigger] gone[g]).1 == path {
                !r.contains_key(path)
            } else {
                r.contains_key(path) == index.contains_key(path) && (index.contains_key(path)
                    ==> r[path] == index[path])
            }
        }),
    decreases n,
{
    if n > 0 {
        lemma_removed(index, gone, n - 1, path);
        if gone[n - 1].1 == path {
            assert(exists|g: int| 0 <= g < n && (#[trigger] gone[g]).1 == path);
        } else if exists|g: int| 0 <= g < n && (#[trigger] gone[g]).1 == path {
            let g = choose|g: int| 0 <= g < n && (#[trigger] gone[g]).1 == path;
            assert(g < n - 1);
        }
    }
}

/// The files that are gone are those that were not seen.
proof fn lemma_gone(
    stored: Seq<Stored>,
    n: int,
    known: Map<Seq<char>, Stored>,
    entries: Seq<Entry>,
)
    requires
        0 <= n <= stored.len(),
    ensures
        ({
            let gone = gone_files(stored, n, known, entries);
            &&& forall|g: int|
                0 <= g < gone.len() ==> !seen_paths(entries).contains((#[trigger] gone[g]).1)
            &&& forall|i: int|
                #![trigger stored[i]]
                0 <= i < n && known.contains_key(stored[i].path) && known[stored[i].path]
                    == stored[i] && !seen_paths(entries).contains(stored[i].path) ==> exists|
                    g: int,
                |
                    0 <= g < gone.len() && (#[trigger] gone[g]).1 == stored[i].path
        }),
    decreases n,
{
    if n > 0 {
        lemma_gone(stored, n - 1, known, entries);
        let before = gone_files(stored, n - 1, known, entries);
        let gone = gone_files(stored, n, known, entries);
        assert forall|i: int|
            #![trigger stored[i]]
            0 <= i < n && known.contains_key(stored[i].path) && known[stored[i].path]
                == stored[i] && !seen_paths(entries).contains(stored[i].path) implies exists|
            g: int,
        |
            0 <= g < gone.len() && (#[trigger] gone[g]).1 == stored[i].path by {
            if i < n - 1 {
                let g = choose|g: int|
                    0 <= g < before.len() && (#[trigger] before[g]).1 == stored[i].path;
                assert(gone[g] == before[g]);
            } else {
                assert(gone[before.len() as int].1 == stored[i].path);
            }
        }
    }
}

/// After a pass the index follows the disk: it knows no file that was not seen; a file that had
/// not changed stays as it was; and a file that was read as a text stands with its digest. Of a
/// file that could not be read, or that is binary after all, the index keeps what it knew.
pub proof fn law_index_follows_the_disk(
    stored: Seq<Stored>,
    entries: Seq<Entry>,
    outcomes: Seq<ReadOutcome>,
    force: bool,
)
    requires
        stored.len() <= usize::MAX,
        entries.len() <= usize::MAX,
        distinct_paths(entries),
        outcomes.len() == reads(
            entries,
            entries.len() as int,
            known_files(stored),
            force,
        ).len(),
    ensures
        ({
            let known = known_files(stored);
            let to_read = reads(entries, entries.len() as int, known, force);
            let s = sorted(entries, to_read, outcomes, outcomes.len() as int, known, force);
            let gone = gone_files(stored, stored.len() as int, known, entries);
            let index = after_pass(known, s.chosen, gone);
            &&& forall|p: Seq<char>| #[trigger]
                index.contains_key(p) ==> seen_paths(entries).contains(p)
            &&& forall|i: int|
                #![trigger entries[i]]
                0 <= i < entries.len() && !force && unchanged(entries[i], known)
                    ==> index.contains_key(entries[i].rel_path) && index[entries[i].rel_path]
                    == known[entries[i].rel_path].content_hash
            &&& forall|k: int, h: Seq<char>|
                0 <= k < to_read.len() && #[trigger] read_as(
                    outcomes[k],
                    entries[to_read[k] as int].category,
                    h,
                ) ==> index.contains_key(entries[to_read[k] as int].rel_path) && index[
                entries[to_read[k] as int].rel_path] == h
        }),
{
    let known = known_files(stored);
    let to_read = reads(entries, entries.len() as int, known, force);
    let n = outcomes.len() as int;
    let s = sorted(entries, to_read, outcomes, n, known, force);
    let gone = gone_files(stored, stored.len() as int, known, entries);
    let start = digests(known);
    let middle = written(start, s.chosen, s.chosen.len() as int);
    let index = after_pass(known, s.chosen, gone);
    lemma_reads_positions(entries, entries.len() as int, known, force);
    lemma_chosen(entries, to_read, outcomes, n, known, force);
    lemma_gone(stored, stored.len() as int, known, entries);
    assert forall|p: Seq<char>| #[trigger] index.contains_key(p) implies seen_paths(
        entries,
    ).contains(p) by {
        lemma_removed(middle, gone, gone.len() as int, p);
        lemma_written_paths(start, s.chosen, s.chosen.len() as int, p);
        if exists|c: int| 0 <= c < s.chosen.len() && #[trigger] s.chosen[c].rel_path == p {
            let c = choose|c: int|
                0 <= c < s.chosen.len() && #[trigger] s.chosen[c].rel_path == p;
            assert(comes_of_reading(entries, to_read, outcomes, n, s.chosen[c]));
            let k = choose|k: int|
                0 <= k < n && #[trigger] became(entries, to_read, outcomes, k, s.chosen[c]);
            assert(entries[to_read[k] as int].rel_path == p);
        } else {
            assert(known.contains_key(p));
            lemma_known_files(stored, p);
            let i = choose|i: int|
                0 <= i < stored.len() && #[trigger] stored[i] == known[p] && stored[i].path == p;
            assert(known[stored[i].path] == stored[i]);
        }
    }
    assert forall|i: int|
        #![trigger entries[i]]
        0 <= i < entries.len() && !force && unchanged(
            entries[i],
            known,
        ) implies index.contains_key(entries[i].rel_path) && index[entries[i].rel_path]
        == known[entries[i].rel_path].content_hash by {
        let p = entries[i].rel_path;
        assert forall|c: int|
            0 <= c < s.chosen.len() && #[trigger] s.chosen[c].rel_path == p implies false by {
            assert(comes_of_reading(entries, to_read, outcomes, n, s.chosen[c]));
            let k = choose|k: int|
                0 <= k < n && #[trigger] became(entries, to_read, outcomes, k, s.chosen[c]);
            assert(to_read[k] < entries.len());
            lemma_same_entry(entries, to_read[k] as int, i);
        }
        lemma_written(start, s.chosen, s.chosen.len() as int, p, Seq::empty());
        lemma_stays(middle, gone, entries, i);
    }
    assert forall|k: int, h: Seq<char>|
        0 <= k < to_read.len() && #[trigger] read_as(
            outcomes[k],
            entries[to_read[k] as int].category,
            h,
        ) implies index.contains_key(entries[to_read[k] as int].rel_path) && index[
    entries[to_read[k] as int].rel_path] == h by {
        let i = to_read[k] as int;
        let p = entries[i].rel_path;
        assert(to_read[k] < entries.len());
        assert forall|c: int|
            0 <= c < s.chosen.len() && #[trigger] s.chosen[c].rel_path
                == p implies s.chosen[c].hash == h by {
            assert(comes_of_reading(entries, to_read, outcomes, n, s.chosen[c]));
            let l = choose|l: int|
                0 <= l < n && #[trigger] became(entries, to_read, outcomes, l, s.chosen[c]);
            assert(to_read[l] < entries.len());
            lemma_same_entry(entries, to_read[l] as int, i);
            if l < k {
                assert(to_read[l] < to_read[k]);
            } else if k < l {
                assert(to_read[k] < to_read[l]);
            }
        }
        lemma_written(start, s.chosen, s.chosen.len() as int, p, h);
        if is_chosen(entries, to_read, outcomes, k, known, force) {
            let c = choose|c: int|
                0 <= c < s.chosen.len() && became(
                    entries,
                    to_read,
                    outcomes,
                    k,
                    #[trigger] s.chosen[c],
                );
            assert(s.chosen[c].rel_path == p);
        }
        lemma_stays(middle, gone, entries, i);
    }
}

/// Two entries with one path are one.
proof fn lemma_same_entry(entries: Seq<Entry>, i: int, j: int)
    requires
        distinct_paths(entries),
        0 <= i < entries.len(),
        0 <= j < entries.len(),
        entries[i].rel_path == entries[j].rel_path,
    ensures
        i == j,
{
    if i < j {
        assert(entries[i].rel_path != entries[j].rel_path);
    } else if j < i {
        assert(entries[j].rel_path != entries[i].rel_path);
    }
}

/// A file that was seen is not deleted.
proof fn lemma_stays(
    index: Map<Seq<char>, Seq<char>>,
    gone: Seq<(i64, Seq<char>)>,
    entries: Seq<Entry>,
    i: int,
)
    requires
        0 <= i < entries.len(),
        forall|g: int|
            0 <= g < gone.len() ==> !seen_paths(entries).contains((#[trigger] gone[g]).1),
    ensures
        ({
            let p = entries[i].rel_path;
            let r = removed(index, gone, gone.len() as int);
            r.contains_key(p) == index.contains_key(p) && (index.contains_key(p) ==> r[p]
                == index[p])
        }),
{
    let p = entries[i].rel_path;
    assert(seen_paths(entries).contains(p));
    lemma_removed(index, gone, gone.len() as int, p);
}

} // verus!
