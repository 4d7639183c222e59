//! Going over the files of a directory and bringing the index up to date with them.

use crate::indexer::candidates::{
    collect_entries, entry_models, error_models, excluded_files, walk, Candidate, FileEntry, KnownFiles,
    WalkedFile,
};
use crate::indexer::config::{
    all_plain, any_matches, may_keep, plain, set_patterns, IndexConfig,
};
use crate::indexer::records::{
    code_ops, ops, text_file_ops, write_code_ops, write_text_ops, ContentInput, StoreOp,
};
use crate::indexer::reindex::{Reindex, ReindexPlan};
use crate::parser::types::ParseResult;
use crate::text::texts;
use vstd::prelude::*;

pub mod candidates;
pub mod config;
pub mod file_types;
pub mod mirror;
pub mod parsed;
pub mod records;
pub mod reindex;
pub mod tables;

verus! {

/// How many paths an [`IndexResult`] holds. Beyond that many a full rebuild of what rests on the
/// index is cheaper than one by paths, so the paths are dropped.
pub const PATHS_CAP: usize = 10_000;

/// What one pass over the files came to.
#[derive(Debug)]
pub struct IndexResult {
    /// How many files were looked at, binary ones not counted.
    pub files_scanned: usize,
    /// How many files were written, new and changed ones.
    pub files_indexed: usize,
    /// How many files had not changed.
    pub files_skipped: usize,
    /// How many files are not indexed at all: those that turned out to be binary, and texts
    /// that are too large. They are not counted in `files_scanned`.
    pub files_not_indexable: usize,
    /// How many files were deleted from the index, for they are gone from the disk.
    pub files_deleted: usize,
    /// The paths at which something failed, each with the message.
    pub errors: Vec<(String, String)>,
    /// How long the pass took, in milliseconds.
    pub elapsed_ms: u64,
    /// The paths of the files that were written.
    pub changed_paths: Vec<String>,
    /// The paths of the files that were deleted.
    pub deleted_paths: Vec<String>,
    /// Whether there were too many paths, so that they were dropped.
    pub paths_overflow: bool,
}

/// The paths that were noted, or that there were too many.
#[verifier::ext_equal]
pub enum Noted {
    Paths { changed: Seq<Seq<char>>, deleted: Seq<Seq<char>> },
    Overflow,
}

impl Noted {
    /// After one more file that was written.
    pub open spec fn changed(self, path: Seq<char>) -> Noted {
        match self {
            Noted::Paths { changed, deleted } => if changed.len() + deleted.len() >= PATHS_CAP {
                Noted::Overflow
            } else {
                Noted::Paths { changed: changed.push(path), deleted }
            },
            Noted::Overflow => Noted::Overflow,
        }
    }

    /// After one more file that was deleted.
    pub open spec fn deleted(self, path: Seq<char>) -> Noted {
        match self {
            Noted::Paths { changed, deleted } => if changed.len() + deleted.len() >= PATHS_CAP {
                Noted::Overflow
            } else {
                Noted::Paths { changed, deleted: deleted.push(path) }
            },
            Noted::Overflow => Noted::Overflow,
        }
    }
}

impl IndexResult {
    /// Whether the paths are dropped where there were too many, and within the cap otherwise.
    pub open spec fn wf(&self) -> bool {
        if self.paths_overflow {
            self.changed_paths@.len() == 0 && self.deleted_paths@.len() == 0
        } else {
            self.changed_paths@.len() + self.deleted_paths@.len() <= PATHS_CAP
        }
    }

    /// The paths that were noted.
    pub open spec fn noted(&self) -> Noted {
        if self.paths_overflow {
            Noted::Overflow
        } else {
            Noted::Paths {
                changed: texts(self.changed_paths@),
                deleted: texts(self.deleted_paths@),
            }
        }
    }

    /// Whether everything but the paths is the same.
    pub open spec fn same_counts(&self, other: &IndexResult) -> bool {
        &&& self.files_scanned == other.files_scanned
        &&& self.files_indexed == other.files_indexed
        &&& self.files_skipped == other.files_skipped
        &&& self.files_not_indexable == other.files_not_indexable
        &&& self.files_deleted == other.files_deleted
        &&& self.errors == other.errors
        &&& self.elapsed_ms == other.elapsed_ms
    }

    /// Nothing was done yet.
    pub fn new() -> (r: Self)
        ensures
            r.wf(),
            r.files_scanned == 0,
            r.files_indexed == 0,
            r.files_skipped == 0,
            r.files_not_indexable == 0,
            r.files_deleted == 0,
            r.errors@.len() == 0,
            r.elapsed_ms == 0,
            r.noted() == (Noted::Paths { changed: Seq::empty(), deleted: Seq::empty() }),
    {
        let r = IndexResult {
            files_scanned: 0,
            files_indexed: 0,
            files_skipped: 0,
            files_not_indexable: 0,
            files_deleted: 0,
            errors: Vec::new(),
            elapsed_ms: 0,
            changed_paths: Vec::new(),
            deleted_paths: Vec::new(),
            paths_overflow: false,
        };
        proof {
            assert(texts(r.changed_paths@) =~= Seq::<Seq<char>>::empty());
            assert(texts(r.deleted_paths@) =~= Seq::<Seq<char>>::empty());
        }
        r
    }

    /// Notes a file that was written.
    pub fn note_changed(&mut self, rel_path: &str)
        requires
            old(self).wf(),
        ensures
            final(self).wf(),
            final(self).noted() == old(self).noted().changed(rel_path@),
            final(self).same_counts(old(self)),
    {
        if self.paths_overflow {
            return;
        }
        if self.changed_paths.len() + self.deleted_paths.len() >= PATHS_CAP {
            self.paths_overflow = true;
            self.changed_paths = Vec::new();
            self.deleted_paths = Vec::new();
            return;
        }
        let ghost before = self.changed_paths@;
        self.changed_paths.push(rel_path.to_owned());
        proof {
            assert(texts(self.changed_paths@) =~= texts(before).push(rel_path@));
        }
    }

    /// Notes a file that was deleted.
    pub fn note_deleted(&mut self, rel_path: &str)
        requires
            old(self).wf(),
        ensures
            final(self).wf(),
            final(self).noted() == old(self).noted().deleted(rel_path@),
            final(self).same_counts(old(self)),
    {
        if self.paths_overflow {
            return;
        }
        if self.changed_paths.len() + self.deleted_paths.len() >= PATHS_CAP {
            self.paths_overflow = true;
            self.changed_paths = Vec::new();
            self.deleted_paths = Vec::new();
            return;
        }
        let ghost before = self.deleted_paths@;
        self.deleted_paths.push(rel_path.to_owned());
        proof {
            assert(texts(self.deleted_paths@) =~= texts(before).push(rel_path@));
        }
    }
}

impl IndexResult {
    /// Takes over how writing a file went: the file is counted and noted, or the message is
    /// kept.
    pub fn note_written(&mut self, rel_path: &str, outcome: Result<(), String>)
        requires
            old(self).wf(),
            old(self).files_indexed < usize::MAX,
        ensures
            final(self).wf(),
            match outcome {
                Ok(_) => {
                    &&& final(self).noted() == old(self).noted().changed(rel_path@)
                    &&& final(self).files_indexed == old(self).files_indexed + 1
                    &&& final(self).same_counts(
                        &IndexResult { files_indexed: final(self).files_indexed, ..*old(self) },
                    )
                },
                Err(message) => {
                    &&& error_models(final(self).errors@) == error_models(
                        old(self).errors@,
                    ).push((rel_path@, message@))
                    &&& *final(self) == (IndexResult {
                        errors: final(self).errors,
                        ..*old(self)
                    })
                },
            },
    {
        match outcome {
            Ok(_) => {
                self.files_indexed = self.files_indexed + 1;
                self.note_changed(rel_path);
            },
            Err(message) => {
                let ghost before = self.errors@;
                let ghost m = message@;
                self.errors.push((rel_path.to_owned(), message));
                proof {
                    assert(error_models(self.errors@) =~= error_models(before).push(
                        (rel_path@, m),
                    ));
                }
            },
        }
    }

    /// Takes over that a file was deleted: it is counted and noted.
    pub fn note_removed(&mut self, rel_path: &str)
        requires
            old(self).wf(),
            old(self).files_deleted < usize::MAX,
        ensures
            final(self).wf(),
            final(self).noted() == old(self).noted().deleted(rel_path@),
            final(self).files_deleted == old(self).files_deleted + 1,
            final(self).same_counts(
                &IndexResult { files_deleted: final(self).files_deleted, ..*old(self) },
            ),
    {
        self.files_deleted = self.files_deleted + 1;
        self.note_deleted(rel_path);
    }
}

/// Once there were too many paths, none is noted any more.
pub proof fn law_overflow_stays(path: Seq<char>)
    ensures
        Noted::Overflow.changed(path) is Overflow,
        Noted::Overflow.deleted(path) is Overflow,
{
}

/// The sum of the first `n` sizes.
pub open spec fn total(sizes: Seq<u64>, n: int) -> int
    decreases n,
{
    if n <= 0 {
        0
    } else {
        total(sizes, n - 1) + sizes[n - 1]
    }
}

/// A sum only grows.
proof fn lemma_total(sizes: Seq<u64>, n: int, m: int)
    requires
        n <= m,
    ensures
        total(sizes, n) <= total(sizes, m),
    decreases m,
{
    if n < m && m > 0 {
        lemma_total(sizes, n, m - 1);
    }
}

/// How much the files of a directory weigh, given the sizes of those that are not in a
/// directory that is passed over.
pub fn estimate_source_bytes(sizes: &Vec<u64>) -> (r: u64)
    requires
        total(sizes@, sizes@.len() as int) <= u64::MAX,
    ensures
        r == total(sizes@, sizes@.len() as int),
{
    let mut sum: u64 = 0;
    let mut i: usize = 0;
    while i < sizes.len()
        invariant
            i <= sizes@.len(),
            sum == total(sizes@, i as int),
            total(sizes@, sizes@.len() as int) <= u64::MAX,
        decreases sizes.len() - i,
    {
        proof {
            lemma_total(sizes@, i + 1, sizes@.len() as int);
        }
        sum += sizes[i];
        i += 1;
    }
    sum
}

/// The indexer of a directory.
pub struct Indexer {
    pub config: IndexConfig,
}

impl Indexer {
    /// An indexer with the default settings.
    pub fn new() -> (r: Self)
        ensures
            r.config.is_default(),
    {
        Indexer { config: IndexConfig::default() }
    }

    /// An indexer with given settings.
    pub fn with_config(config: IndexConfig) -> (r: Self)
        ensures
            r.config == config,
    {
        Indexer { config }
    }

    /// Goes over the files of a walk, passing over those whose names a pattern of the settings
    /// excludes.
    pub fn collect_candidates(&self, files: &Vec<WalkedFile>, result: &mut IndexResult) -> (
        entries: Vec<FileEntry>)
        requires
            old(result).files_scanned + files@.len() <= usize::MAX,
            old(result).files_not_indexable + files@.len() <= usize::MAX,
        ensures
            exists|excluded: Seq<bool>, patterns: Seq<Seq<char>>|
                {
                    let w = #[trigger] walk(
                        files@,
                        excluded,
                        files@.len() as int,
                        self.config,
                        old(result).files_scanned as nat,
                    );
                    &&& #[trigger] may_keep(texts(self.config.exclude_file_patterns@), patterns)
                    &&& excluded.len() == files@.len()
                    &&& forall|i: int|
                        #![trigger excluded[i]]
                        0 <= i < files@.len() ==> match files@[i].name {
                            Some(name) => {
                                &&& patterns.len() == 0 ==> !excluded[i]
                                &&& plain(name@) && all_plain(patterns) ==> excluded[i]
                                    == any_matches(patterns, name@)
                            },
                            None => !excluded[i],
                        }
                    &&& entry_models(entries@) == w.entries
                    &&& *final(result) == (IndexResult {
                        files_scanned: (old(result).files_scanned + w.entries.len()) as usize,
                        files_not_indexable: (old(result).files_not_indexable
                            + w.too_large) as usize,
                        ..*old(result)
                    })
                },
    {
        let matcher = self.config.build_file_exclude_matcher();
        let excluded = excluded_files(files, &matcher);
        let entries = collect_entries(files, &excluded, &self.config, result);
        proof {
            let w = walk(
                files@,
                excluded@,
                files@.len() as int,
                self.config,
                old(result).files_scanned as nat,
            );
            assert(may_keep(texts(self.config.exclude_file_patterns@), set_patterns(matcher)));
        }
        entries
    }

    /// The work that brings the database up to date. The collector, where there is one, takes
    /// part only where all files are parsed.
    pub fn full_reindex_with_collector(
        &self,
        force: bool,
        has_collector: bool,
        known: &KnownFiles,
        candidates: &Vec<Candidate>,
        metadata_updates: &Vec<(String, i64, i64)>,
        gone: &Vec<(i64, String)>,
    ) -> (r: Reindex)
        requires
            known.wf(),
        ensures
            r.wf(),
            r == Reindex::starting(
                (ReindexPlan {
                    force,
                    fresh: known.stored().len() == 0,
                    has_collector,
                    candidates: candidates@.len() as usize,
                    updates: metadata_updates@.len() as usize,
                    gone: gone@.len() as usize,
                    bulk_threshold: self.config.bulk_threshold,
                    batch_size: self.config.batch_size,
                }),
            ),
    {
        Reindex::start(
            ReindexPlan {
                force,
                fresh: known.is_empty(),
                has_collector,
                candidates: candidates.len(),
                updates: metadata_updates.len(),
                gone: gone.len(),
                bulk_threshold: self.config.bulk_threshold,
                batch_size: self.config.batch_size,
            },
        )
    }

    /// The work that brings the database up to date, without a collector.
    pub fn full_reindex(
        &self,
        force: bool,
        known: &KnownFiles,
        candidates: &Vec<Candidate>,
        metadata_updates: &Vec<(String, i64, i64)>,
        gone: &Vec<(i64, String)>,
    ) -> (r: Reindex)
        requires
            known.wf(),
        ensures
            r.wf(),
            r == Reindex::starting(
                (ReindexPlan {
                    force,
                    fresh: known.stored().len() == 0,
                    has_collector: false,
                    candidates: candidates@.len() as usize,
                    updates: metadata_updates@.len() as usize,
                    gone: gone@.len() as usize,
                    bulk_threshold: self.config.bulk_threshold,
                    batch_size: self.config.batch_size,
                }),
            ),
    {
        self.full_reindex_with_collector(force, false, known, candidates, metadata_updates, gone)
    }

    /// The steps that write code to the database, once its file has a number there.
    pub fn write_code_to_db(
        &self,
        file_id: i64,
        parse_result: &ParseResult,
        skip_delete: bool,
        text_for_fts: Option<&str>,
        content: ContentInput<'_>,
    ) -> (r: Vec<StoreOp>)
        ensures
            ops(r@) == code_ops(
                file_id,
                parse_result.facts(),
                skip_delete,
                match text_for_fts {
                    Some(t) => Some(t@),
                    None => None,
                },
                content@,
                self.config.max_code_file_size_bytes,
            ),
    {
        write_code_ops(
            file_id,
            parse_result,
            skip_delete,
            text_for_fts,
            content,
            self.config.max_code_file_size_bytes,
        )
    }

    /// The steps that write a text to the database, once its file has a number there.
    pub fn write_text_to_db(&self, file_id: i64, content: &str, skip_delete: bool) -> (r: Vec<
        StoreOp,
    >)
        ensures
            ops(r@) == text_file_ops(file_id, skip_delete, content@),
    {
        write_text_ops(file_id, content, skip_delete)
    }
}

/// A path is noted, behind those before it, as long as fewer than ten thousand are; then there are
/// too many.
pub proof fn law_paths_are_noted(changed: Seq<Seq<char>>, deleted: Seq<Seq<char>>, path: Seq<char>)
    ensures
        ({
            let noted = Noted::Paths { changed, deleted };
            if changed.len() + deleted.len() < 10_000 {
                &&& noted.changed(path) == Noted::Paths { changed: changed.push(path), deleted }
                &&& noted.deleted(path) == Noted::Paths { changed, deleted: deleted.push(path) }
            } else {
                noted.changed(path) is Overflow && noted.deleted(path) is Overflow
            }
        }),
{
}

} // verus!
