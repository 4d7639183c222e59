//! Which files of a directory are to be indexed.
//!
//! A walk over the directory gives paths, sizes and times. Files whose size and time are those
//! that the index knows are not read; of the others, those whose content turns out to be the
//! same only get their size and time updated.

use crate::indexer::config::{
    all_plain, any_matches, excludes_file, plain, set_patterns, IndexConfig,
};
use crate::indexer::file_types::{
    categorize_file_in_repo, category_in_repo, is_size_exempt, size_exempt, Category, FileCategory,
};
use crate::indexer::records::FileRecord;
use crate::indexer::IndexResult;
use crate::text::{replace_char, replaced, str_eq};
use globset::GlobSet;
use vstd::hash_map::StringHashMap;
use vstd::prelude::*;

verus! {

/// What the index knows of a file.
#[derive(Debug, Clone)]
pub struct StoredFile {
    pub id: i64,
    pub path: String,
    pub content_hash: String,
    pub mtime: Option<i64>,
    pub file_size: Option<i64>,
}

/// What the index knows of a file, as a mathematical value.
#[verifier::ext_equal]
pub struct Stored {
    pub id: i64,
    pub path: Seq<char>,
    pub content_hash: Seq<char>,
    pub mtime: Option<i64>,
    pub file_size: Option<i64>,
}

impl View for StoredFile {
    type V = Stored;

    open spec fn view(&self) -> Stored {
        Stored {
            id: self.id,
            path: self.path@,
            content_hash: self.content_hash@,
            mtime: self.mtime,
            file_size: self.file_size,
        }
    }
}

/// The first `n` rows that have a number.
pub open spec fn stored_rows(rows: Seq<FileRecord>, n: int) -> Seq<Stored>
    decreases n,
{
    if n <= 0 {
        Seq::empty()
    } else {
        match rows[n - 1].id {
            Some(id) => stored_rows(rows, n - 1).push(
                Stored {
                    id,
                    path: rows[n - 1].path@,
                    content_hash: rows[n - 1].content_hash@,
                    mtime: rows[n - 1].mtime,
                    file_size: rows[n - 1].file_size,
                },
            ),
            None => stored_rows(rows, n - 1),
        }
    }
}

/// Which of the first `n` files a path leads to: the last one with that path.
pub open spec fn positions(files: Seq<Stored>, n: int) -> Map<Seq<char>, usize>
    decreases n,
{
    if n <= 0 {
        Map::empty()
    } else {
        positions(files, n - 1).insert(files[n - 1].path, (n - 1) as usize)
    }
}

/// A position is that of a file with the path.
proof fn lemma_positions(files: Seq<Stored>, n: int, path: Seq<char>)
    requires
        0 <= n <= files.len() <= usize::MAX,
    ensures
        positions(files, n).contains_key(path) ==> positions(files, n)[path] < n && files[
        positions(files, n)[path] as int].path == path,
        forall|i: int|
            0 <= i < n && #[trigger] files[i].path == path ==> positions(files, n).contains_key(
                path,
            ) && positions(files, n)[path] >= i,
    decreases n,
{
    if n > 0 {
        lemma_positions(files, n - 1, path);
    }
}

/// What the index knows of a path, given its files: of several with one path the last counts.
pub open spec fn known_files(stored: Seq<Stored>) -> Map<Seq<char>, Stored> {
    Map::new(
        |path: Seq<char>| positions(stored, stored.len() as int).contains_key(path),
        |path: Seq<char>| stored[positions(stored, stored.len() as int)[path] as int],
    )
}

/// What is known of a path is a file with that path.
pub proof fn lemma_known_files(stored: Seq<Stored>, path: Seq<char>)
    requires
        stored.len() <= usize::MAX,
        known_files(stored).contains_key(path),
    ensures
        exists|i: int|
            0 <= i < stored.len() && #[trigger] stored[i] == known_files(stored)[path]
                && stored[i].path == path,
{
    lemma_positions(stored, stored.len() as int, path);
    let i = positions(stored, stored.len() as int)[path] as int;
    assert(stored[i] == known_files(stored)[path]);
}

/// The files that the index knows.
pub struct KnownFiles {
    pub files: Vec<StoredFile>,
    pub index: StringHashMap<usize>,
}

impl KnownFiles {
    /// The files.
    pub open spec fn stored(&self) -> Seq<Stored> {
        self.files@.map_values(|f: StoredFile| f@)
    }

    /// Whether the index leads to the files.
    pub open spec fn wf(&self) -> bool {
        self.index@ == positions(self.stored(), self.stored().len() as int)
    }

    /// What the index knows of a path.
    pub open spec fn known(&self) -> Map<Seq<char>, Stored> {
        known_files(self.stored())
    }

    /// The files among rows of the index: those that have a number.
    pub fn new(rows: Vec<FileRecord>) -> (r: Self)
        ensures
            r.wf(),
            r.stored() == stored_rows(rows@, rows@.len() as int),
    {
        let mut files: Vec<StoredFile> = Vec::new();
        let mut index: StringHashMap<usize> = StringHashMap::new();
        let ghost mut stored: Seq<Stored> = Seq::empty();
        let mut i: usize = 0;
        while i < rows.len()
            invariant
                i <= rows@.len(),
                files@.len() <= i,
                stored == stored_rows(rows@, i as int),
                stored == files@.map_values(|f: StoredFile| f@),
                index@ == positions(stored, stored.len() as int),
            decreases rows.len() - i,
        {
            let row = &rows[i];
            if let Some(id) = row.id {
                let f = StoredFile {
                    id,
                    path: row.path.clone(),
                    content_hash: row.content_hash.clone(),
                    mtime: row.mtime,
                    file_size: row.file_size,
                };
                index.insert(f.path.clone(), files.len());
                proof {
                    let next = stored.push(f@);
                    lemma_positions_prefix(stored, f@, stored.len() as int);
                    assert(positions(next, next.len() as int) == positions(
                        next,
                        stored.len() as int,
                    ).insert(f@.path, stored.len() as usize));
                    stored = next;
                }
                files.push(f);
                proof {
                    assert(stored =~= files@.map_values(|f: StoredFile| f@));
                }
            }
            i += 1;
        }
        KnownFiles { files, index }
    }

    /// What the index knows of the file at a path.
    pub fn get(&self, path: &str) -> (r: Option<&StoredFile>)
        requires
            self.wf(),
        ensures
            match r {
                Some(f) => self.known().contains_key(path@) && self.known()[path@] == f@,
                None => !self.known().contains_key(path@),
            },
    {
        let n: usize = self.files.len();
        proof {
            lemma_positions(self.stored(), n as int, path@);
        }
        match self.index.get(path) {
            Some(i) => {
                let i: usize = *i;
                assert(self.stored()[i as int] == self.files@[i as int]@);
                Some(&self.files[i])
            },
            None => None,
        }
    }

    /// Whether the index knows no file.
    pub fn is_empty(&self) -> (r: bool)
        requires
            self.wf(),
        ensures
            r == (self.stored().len() == 0),
            r == (self.known() =~= Map::<Seq<char>, Stored>::empty()),
    {
        proof {
            let n = self.stored().len() as int;
            if n > 0 {
                let path = self.stored()[n - 1].path;
                assert(positions(self.stored(), n).contains_key(path));
                assert(self.known().contains_key(path));
            }
        }
        self.files.is_empty()
    }
}

/// The positions of files do not depend on those behind them.
proof fn lemma_positions_prefix(files: Seq<Stored>, f: Stored, n: int)
    requires
        0 <= n <= files.len(),
    ensures
        positions(files.push(f), n) == positions(files, n),
    decreases n,
{
    if n > 0 {
        lemma_positions_prefix(files, f, n - 1);
    }
}

/// A file that the walk came upon.
#[derive(Debug, Clone)]
pub struct WalkedFile {
    /// Its path from the root on.
    pub path: String,
    /// Its name, where that is Unicode.
    pub name: Option<String>,
    /// Its size in bytes, where that could be asked for.
    pub size: Option<u64>,
    /// The time of its last change in seconds, where that could be asked for.
    pub mtime: Option<i64>,
}

/// A file that is to be indexed unless it has not changed.
#[derive(Debug, Clone)]
pub struct FileEntry {
    /// Its path from the root on, as the system writes it.
    pub path: String,
    /// Its path from the root on, with slashes.
    pub rel_path: String,
    pub category: FileCategory,
    pub mtime: i64,
    pub file_size: i64,
}

/// A file that is to be indexed unless it has not changed, as a mathematical value.
#[verifier::ext_equal]
pub struct Entry {
    pub path: Seq<char>,
    pub rel_path: Seq<char>,
    pub category: Category,
    pub mtime: i64,
    pub file_size: i64,
}

impl View for FileEntry {
    type V = Entry;

    open spec fn view(&self) -> Entry {
        Entry {
            path: self.path@,
            rel_path: self.rel_path@,
            category: self.category@,
            mtime: self.mtime,
            file_size: self.file_size,
        }
    }
}

/// The entries as mathematical values.
pub open spec fn entry_models(v: Seq<FileEntry>) -> Seq<Entry> {
    v.map_values(|e: FileEntry| e@)
}

/// What is done with a file that the walk came upon.
pub enum Verdict {
    Skip,
    TooLarge,
    Take(Entry),
}

/// The language of the repository.
pub open spec fn repo_language_of(config: IndexConfig) -> Option<Seq<char>> {
    match config.repo_language {
        Some(language) => Some(language@),
        None => None,
    }
}

/// The file as an entry.
pub open spec fn entry_of(file: WalkedFile, c: Category) -> Entry {
    Entry {
        path: file.path@,
        rel_path: replaced(file.path@, '\\', '/'),
        category: c,
        mtime: match file.mtime {
            Some(t) => t,
            None => 0,
        },
        file_size: match file.size {
            Some(n) => n as i64,
            None => 0,
        },
    }
}

/// What a file is told by: its name, as the system has it; its path where the name is not Unicode.
pub open spec fn told_by(file: WalkedFile) -> Seq<char> {
    match file.name {
        Some(name) => name@,
        None => file.path@,
    }
}

/// What is done with a file that the walk came upon: what a pattern excludes and what is
/// binary is passed over; texts over the limit are too large, but for a few names.
pub open spec fn verdict(file: WalkedFile, excluded: bool, config: IndexConfig) -> Verdict {
    let c = category_in_repo(
        told_by(file),
        repo_language_of(config),
        config.extra_text_extensions@,
    );
    if excluded || c is Binary {
        Verdict::Skip
    } else if !(c is Code) && !size_exempt(told_by(file)) && (file.size matches Some(n) && n
        > config.max_file_size) {
        Verdict::TooLarge
    } else {
        Verdict::Take(entry_of(file, c))
    }
}

/// What came of a walk.
#[verifier::ext_equal]
pub struct Walk {
    pub entries: Seq<Entry>,
    pub too_large: nat,
}

/// What came of the first `n` files of a walk, before which `scanned` files were taken. It ends
/// when as many were taken as the settings allow.
pub open spec fn walk(
    files: Seq<WalkedFile>,
    excluded: Seq<bool>,
    n: int,
    config: IndexConfig,
    scanned: nat,
) -> Walk
    decreases n,
{
    if n <= 0 {
        Walk { entries: Seq::empty(), too_large: 0 }
    } else {
        let w = walk(files, excluded, n - 1, config, scanned);
        if config.max_files > 0 && scanned + w.entries.len() >= config.max_files {
            w
        } else {
            match verdict(files[n - 1], excluded[n - 1], config) {
                Verdict::Skip => w,
                Verdict::TooLarge => Walk { too_large: w.too_large + 1, ..w },
                Verdict::Take(e) => Walk { entries: w.entries.push(e), ..w },
            }
        }
    }
}

/// A walk that has ended stays as it is.
proof fn lemma_walk_ended(
    files: Seq<WalkedFile>,
    excluded: Seq<bool>,
    n: int,
    m: int,
    config: IndexConfig,
    scanned: nat,
)
    requires
        0 <= n <= m,
        config.max_files > 0,
        scanned + walk(files, excluded, n, config, scanned).entries.len() >= config.max_files,
    ensures
        walk(files, excluded, m, config, scanned) == walk(files, excluded, n, config, scanned),
    decreases m,
{
    if m > n {
        lemma_walk_ended(files, excluded, n, m - 1, config, scanned);
    }
}

fn judge(file: &WalkedFile, excluded: bool, config: &IndexConfig) -> (r: (bool, Option<FileEntry>))
    ensures
        match verdict(*file, excluded, *config) {
            Verdict::Skip => !r.0 && r.1 is None,
            Verdict::TooLarge => r.0 && r.1 is None,
            Verdict::Take(e) => !r.0 && r.1 is Some && r.1->0@ == e,
        },
{
    if excluded {
        return (false, None);
    }
    let language: Option<&str> = match &config.repo_language {
        Some(l) => Some(l.as_str()),
        None => None,
    };
    let rel_path = replace_char(file.path.as_str(), '\\', '/');
    let name: &str = match &file.name {
        Some(name) => name.as_str(),
        None => file.path.as_str(),
    };
    let category = categorize_file_in_repo(name, language, &config.extra_text_extensions);
    let limited: bool = match &category {
        FileCategory::Binary => {
            return (false, None);
        },
        FileCategory::Code(_) => false,
        FileCategory::Text => !is_size_exempt(name),
    };
    if limited {
        if let Some(n) = file.size {
            if n > config.max_file_size as u64 {
                return (true, None);
            }
        }
    }
    let entry = FileEntry {
        path: file.path.clone(),
        rel_path,
        category,
        mtime: match file.mtime {
            Some(t) => t,
            None => 0,
        },
        file_size: match file.size {
            Some(n) => n as i64,
            None => 0,
        },
    };
    (false, Some(entry))
}

/// Goes over the files of a walk, of which `excluded` says whether a pattern excludes them.
pub fn collect_entries(
    files: &Vec<WalkedFile>,
    excluded: &Vec<bool>,
    config: &IndexConfig,
    result: &mut IndexResult,
) -> (entries: Vec<FileEntry>)
    requires
        excluded@.len() == files@.len(),
        old(result).files_scanned + files@.len() <= usize::MAX,
        old(result).files_not_indexable + files@.len() <= usize::MAX,
    ensures
        ({
            let w = walk(
                files@,
                excluded@,
                files@.len() as int,
                *config,
                old(result).files_scanned as nat,
            );
            &&& entry_models(entries@) == w.entries
            &&& *final(result) == (IndexResult {
                files_scanned: (old(result).files_scanned + w.entries.len()) as usize,
                files_not_indexable: (old(result).files_not_indexable + w.too_large) as usize,
                ..*old(result)
            })
        }),
{
    let scanned: usize = result.files_scanned;
    let mut entries: Vec<FileEntry> = Vec::new();
    let mut large: usize = 0;
    let mut i: usize = 0;
    while i < files.len() && !(config.max_files > 0 && scanned + entries.len()
        >= config.max_files)
        invariant
            i <= files@.len(),
            excluded@.len() == files@.len(),
            scanned + files@.len() <= usize::MAX,
            entries@.len() + large <= i,
            entry_models(entries@) == walk(
                files@,
                excluded@,
                i as int,
                *config,
                scanned as nat,
            ).entries,
            large == walk(files@, excluded@, i as int, *config, scanned as nat).too_large,
        decreases files.len() - i,
    {
        let ghost before = entries@;
        let (too_large, taken) = judge(&files[i], excluded[i], config);
        if too_large {
            large += 1;
        }
        if let Some(e) = taken {
            entries.push(e);
            proof {
                assert(entry_models(entries@) =~= entry_models(before).push(e@));
            }
        }
        i += 1;
    }
    proof {
        if i < files.len() {
            lemma_walk_ended(
                files@,
                excluded@,
                i as int,
                files@.len() as int,
                *config,
                scanned as nat,
            );
        }
    }
    result.files_scanned = result.files_scanned + entries.len();
    result.files_not_indexable = result.files_not_indexable + large;
    entries
}

/// Which files a pattern excludes by their names; a name that is not Unicode is not matched.
pub fn excluded_files(files: &Vec<WalkedFile>, matcher: &GlobSet) -> (r: Vec<bool>)
    ensures
        r@.len() == files@.len(),
        forall|i: int|
            #![trigger r@[i]]
            0 <= i < files@.len() ==> match files@[i].name {
                Some(name) => {
                    &&& set_patterns(*matcher).len() == 0 ==> !r@[i]
                    &&& plain(name@) && all_plain(set_patterns(*matcher)) ==> r@[i]
                        == any_matches(set_patterns(*matcher), name@)
                },
                None => !r@[i],
            },
{
    let mut out: Vec<bool> = Vec::new();
    let mut i: usize = 0;
    while i < files.len()
        invariant
            i <= files@.len(),
            out@.len() == i,
            forall|k: int|
                #![trigger out@[k]]
                0 <= k < i ==> match files@[k].name {
                    Some(name) => {
                        &&& set_patterns(*matcher).len() == 0 ==> !out@[k]
                        &&& plain(name@) && all_plain(set_patterns(*matcher)) ==> out@[k]
                            == any_matches(set_patterns(*matcher), name@)
                    },
                    None => !out@[k],
                },
        decreases files.len() - i,
    {
        let b: bool = match &files[i].name {
            Some(name) => excludes_file(matcher, name.as_str()),
            None => false,
        };
        out.push(b);
        i += 1;
    }
    out
}

/// Whether a file is as the index knows it, by its time and size.
pub open spec fn unchanged(entry: Entry, known: Map<Seq<char>, Stored>) -> bool {
    known.contains_key(entry.rel_path) && known[entry.rel_path].mtime == Some(entry.mtime)
        && known[entry.rel_path].file_size == Some(entry.file_size)
}

/// Which of the first `n` entries are to be read: all of them when forced, those that changed
/// otherwise.
pub open spec fn reads(
    entries: Seq<Entry>,
    n: int,
    known: Map<Seq<char>, Stored>,
    force: bool,
) -> Seq<usize>
    decreases n,
{
    if n <= 0 {
        Seq::empty()
    } else if !force && unchanged(entries[n - 1], known) {
        reads(entries, n - 1, known, force)
    } else {
        reads(entries, n - 1, known, force).push((n - 1) as usize)
    }
}

fn same_time(stored: Option<i64>, found: i64) -> (r: bool)
    ensures
        r == (stored == Some(found)),
{
    match stored {
        Some(t) => t == found,
        None => false,
    }
}

/// Which entries are to be read. The others are counted as skipped.
pub fn entries_to_read(
    entries: &Vec<FileEntry>,
    known: &KnownFiles,
    force: bool,
    result: &mut IndexResult,
) -> (r: Vec<usize>)
    requires
        known.wf(),
        old(result).files_skipped + entries@.len() <= usize::MAX,
    ensures
        r@ == reads(entry_models(entries@), entries@.len() as int, known.known(), force),
        r@.len() <= entries@.len(),
        *final(result) == (IndexResult {
            files_skipped: (old(result).files_skipped + entries@.len() - r@.len()) as usize,
            ..*old(result)
        }),
{
    let ghost models = entry_models(entries@);
    let mut out: Vec<usize> = Vec::new();
    let mut i: usize = 0;
    while i < entries.len()
        invariant
            i <= entries@.len(),
            known.wf(),
            models == entry_models(entries@),
            out@.len() <= i,
            out@ == reads(models, i as int, known.known(), force),
        decreases entries.len() - i,
    {
        let entry = &entries[i];
        assert(models[i as int] == entry@);
        let same: bool = if force {
            false
        } else {
            match known.get(entry.rel_path.as_str()) {
                Some(f) => same_time(f.mtime, entry.mtime) && same_time(
                    f.file_size,
                    entry.file_size,
                ),
                None => false,
            }
        };
        if !same {
            out.push(i);
        }
        i += 1;
    }
    result.files_skipped = result.files_skipped + (entries.len() - out.len());
    out
}

/// What came of reading a file.
#[derive(Debug, Clone)]
pub enum ReadOutcome {
    /// Its content, the digest of it, and whether it is binary after all.
    Content { content: String, hash: String, is_binary: bool },
    /// It could not be read, with the message.
    Failed(String),
}

/// A file that is to be indexed.
#[derive(Debug, Clone)]
pub struct Candidate {
    pub rel_path: String,
    pub content: String,
    pub hash: String,
    pub category: FileCategory,
    pub mtime: i64,
    pub file_size: i64,
}

/// A file that is to be indexed, as a mathematical value.
#[verifier::ext_equal]
pub struct Chosen {
    pub rel_path: Seq<char>,
    pub content: Seq<char>,
    pub hash: Seq<char>,
    pub category: Category,
    pub mtime: i64,
    pub file_size: i64,
}

impl View for Candidate {
    type V = Chosen;

    open spec fn view(&self) -> Chosen {
        Chosen {
            rel_path: self.rel_path@,
            content: self.content@,
            hash: self.hash@,
            category: self.category@,
            mtime: self.mtime,
            file_size: self.file_size,
        }
    }
}

/// The candidates as mathematical values.
pub open spec fn chosen_models(v: Seq<Candidate>) -> Seq<Chosen> {
    v.map_values(|c: Candidate| c@)
}

/// Paths with times and sizes, as mathematical values.
pub open spec fn update_models(v: Seq<(String, i64, i64)>) -> Seq<(Seq<char>, i64, i64)> {
    v.map_values(|u: (String, i64, i64)| (u.0@, u.1, u.2))
}

/// Paths with messages, as mathematical values.
pub open spec fn error_models(v: Seq<(String, String)>) -> Seq<(Seq<char>, Seq<char>)> {
    v.map_values(|e: (String, String)| (e.0@, e.1@))
}

/// What came of reading files.
#[verifier::ext_equal]
pub struct Sorted {
    /// The files that are to be indexed.
    pub chosen: Seq<Chosen>,
    /// The files of which only the time and the size are to be updated.
    pub updates: Seq<(Seq<char>, i64, i64)>,
    /// The files that could not be read.
    pub errors: Seq<(Seq<char>, Seq<char>)>,
    /// How many files are binary.
    pub binary: nat,
}

/// What came of reading the first `n` of the files that were to be read: binary ones are left
/// out, and those whose digest the index knows only get their time and size updated.
pub open spec fn sorted(
    entries: Seq<Entry>,
    to_read: Seq<usize>,
    outcomes: Seq<ReadOutcome>,
    n: int,
    known: Map<Seq<char>, Stored>,
    force: bool,
) -> Sorted
    decreases n,
{
    if n <= 0 {
        Sorted {
            chosen: Seq::empty(),
            updates: Seq::empty(),
            errors: Seq::empty(),
            binary: 0,
        }
    } else {
        let s = sorted(entries, to_read, outcomes, n - 1, known, force);
        let e = entries[to_read[n - 1] as int];
        match outcomes[n - 1] {
            ReadOutcome::Failed(message) => Sorted {
                errors: s.errors.push((e.rel_path, message@)),
                ..s
            },
            ReadOutcome::Content { content, hash, is_binary } => if is_binary || e.category
                is Binary {
                Sorted { binary: s.binary + 1, ..s }
            } else if !force && known.contains_key(e.rel_path)
                && known[e.rel_path].content_hash == hash@ {
                Sorted { updates: s.updates.push((e.rel_path, e.mtime, e.file_size)), ..s }
            } else {
                Sorted {
                    chosen: s.chosen.push(
                        Chosen {
                            rel_path: e.rel_path,
                            content: content@,
                            hash: hash@,
                            category: e.category,
                            mtime: e.mtime,
                            file_size: e.file_size,
                        },
                    ),
                    ..s
                }
            },
        }
    }
}

/// Each file that was read is in one of the lists.
proof fn lemma_sorted_counts(
    entries: Seq<Entry>,
    to_read: Seq<usize>,
    outcomes: Seq<ReadOutcome>,
    n: int,
    known: Map<Seq<char>, Stored>,
    force: bool,
)
    requires
        0 <= n,
    ensures
        ({
            let s = sorted(entries, to_read, outcomes, n, known, force);
            s.chosen.len() + s.updates.len() + s.errors.len() + s.binary == n
        }),
    decreases n,
{
    if n > 0 {
        lemma_sorted_counts(entries, to_read, outcomes, n - 1, known, force);
    }
}

fn copy_category(c: &FileCategory) -> (r: FileCategory)
    ensures
        r@ == c@,
{
    match c {
        FileCategory::Code(language) => FileCategory::Code(language.clone()),
        FileCategory::Text => FileCategory::Text,
        FileCategory::Binary => FileCategory::Binary,
    }
}

fn is_binary_category(c: &FileCategory) -> (r: bool)
    ensures
        r == (c@ is Binary),
{
    match c {
        FileCategory::Binary => true,
        _ => false,
    }
}

/// Sorts the files that were read. A file that is binary after all is no longer counted as one
/// that was looked at.
pub fn sort_reads(
    entries: &Vec<FileEntry>,
    to_read: &Vec<usize>,
    outcomes: Vec<ReadOutcome>,
    known: &KnownFiles,
    force: bool,
    result: &mut IndexResult,
) -> (r: (Vec<Candidate>, Vec<(String, i64, i64)>))
    requires
        known.wf(),
        outcomes@.len() == to_read@.len(),
        forall|i: int| 0 <= i < to_read@.len() ==> #[trigger] to_read@[i] < entries@.len(),
        old(result).files_scanned >= to_read@.len(),
        old(result).files_skipped + to_read@.len() <= usize::MAX,
        old(result).files_not_indexable + to_read@.len() <= usize::MAX,
    ensures
        ({
            let s = sorted(
                entry_models(entries@),
                to_read@,
                outcomes@,
                outcomes@.len() as int,
                known.known(),
                force,
            );
            &&& chosen_models(r.0@) == s.chosen
            &&& update_models(r.1@) == s.updates
            &&& error_models(final(result).errors@) == error_models(old(result).errors@)
                + s.errors
            &&& final(result).files_scanned == old(result).files_scanned - s.binary
            &&& final(result).files_not_indexable == old(result).files_not_indexable + s.binary
            &&& final(result).files_skipped == old(result).files_skipped + s.updates.len()
            &&& *final(result) == (IndexResult {
                files_scanned: final(result).files_scanned,
                files_not_indexable: final(result).files_not_indexable,
                files_skipped: final(result).files_skipped,
                errors: final(result).errors,
                ..*old(result)
            })
        }),
{
    let ghost models = entry_models(entries@);
    let ghost answers = outcomes@;
    let ghost start = *result;
    let mut candidates: Vec<Candidate> = Vec::new();
    let mut updates: Vec<(String, i64, i64)> = Vec::new();
    let mut binary: usize = 0;
    proof {
        assert(error_models(start.errors@) + Seq::<(Seq<char>, Seq<char>)>::empty()
            =~= error_models(start.errors@));
    }
    let total: usize = to_read.len();
    let mut i: usize = 0;
    for outcome in it: outcomes
        invariant
            it.seq() == answers,
            it.index() == i,
            answers.len() == total,
            known.wf(),
            models == entry_models(entries@),
            answers.len() == to_read@.len(),
            forall|k: int| 0 <= k < to_read@.len() ==> #[trigger] to_read@[k] < entries@.len(),
            ({
                let s = sorted(models, to_read@, answers, i as int, known.known(), force);
                &&& chosen_models(candidates@) == s.chosen
                &&& update_models(updates@) == s.updates
                &&& error_models(result.errors@) == error_models(start.errors@) + s.errors
                &&& binary == s.binary
                &&& updates@.len() + binary <= i
            }),
            *result == (IndexResult { errors: result.errors, ..start }),
    {
        let ghost before = candidates@;
        let ghost before_updates = updates@;
        let ghost before_errors = result.errors@;
        let ghost s = sorted(models, to_read@, answers, i as int, known.known(), force);
        let entry = &entries[to_read[i]];
        assert(models[to_read@[i as int] as int] == entry@);
        assert(answers[i as int] == outcome);
        match outcome {
            ReadOutcome::Failed(message) => {
                let ghost m = message@;
                result.errors.push((entry.rel_path.clone(), message));
                proof {
                    assert(error_models(result.errors@) =~= error_models(before_errors).push(
                        (entry.rel_path@, m),
                    ));
                    assert(error_models(result.errors@) =~= error_models(start.errors@)
                        + s.errors.push((entry.rel_path@, m)));
                }
            },
            ReadOutcome::Content { content, hash, is_binary } => {
                let same: bool = if force {
                    false
                } else {
                    match known.get(entry.rel_path.as_str()) {
                        Some(f) => str_eq(f.content_hash.as_str(), hash.as_str()),
                        None => false,
                    }
                };
                if is_binary || is_binary_category(&entry.category) {
                    binary += 1;
                } else if same {
                    updates.push((entry.rel_path.clone(), entry.mtime, entry.file_size));
                    proof {
                        assert(update_models(updates@) =~= update_models(before_updates).push(
                            (entry.rel_path@, entry.mtime, entry.file_size),
                        ));
                    }
                } else {
                    let c = Candidate {
                        rel_path: entry.rel_path.clone(),
                        content,
                        hash,
                        category: copy_category(&entry.category),
                        mtime: entry.mtime,
                        file_size: entry.file_size,
                    };
                    let ghost m = c@;
                    candidates.push(c);
                    proof {
                        assert(chosen_models(candidates@) =~= chosen_models(before).push(m));
                    }
                }
            },
        }
        i += 1;
    }
    proof {
        lemma_sorted_counts(models, to_read@, answers, answers.len() as int, known.known(), force);
    }
    result.files_scanned = result.files_scanned - binary;
    result.files_not_indexable = result.files_not_indexable + binary;
    result.files_skipped = result.files_skipped + updates.len();
    (candidates, updates)
}

/// The paths that were seen.
pub open spec fn seen_paths(entries: Seq<Entry>) -> Set<Seq<char>> {
    Set::new(|p: Seq<char>| exists|i: int| 0 <= i < entries.len() && entries[i].rel_path == p)
}

/// The files among the first `n` that the index knows and that were not seen.
pub open spec fn gone_files(
    stored: Seq<Stored>,
    n: int,
    known: Map<Seq<char>, Stored>,
    entries: Seq<Entry>,
) -> Seq<(i64, Seq<char>)>
    decreases n,
{
    if n <= 0 {
        Seq::empty()
    } else {
        let f = stored[n - 1];
        let rest = gone_files(stored, n - 1, known, entries);
        if known.contains_key(f.path) && known[f.path].id == f.id && !seen_paths(
            entries,
        ).contains(f.path) {
            rest.push((f.id, f.path))
        } else {
            rest
        }
    }
}

/// Numbers with paths, as mathematical values.
pub open spec fn gone_models(v: Seq<(i64, String)>) -> Seq<(i64, Seq<char>)> {
    v.map_values(|g: (i64, String)| (g.0, g.1@))
}

/// The files that the index knows and that are gone from the disk, each with its number.
pub fn files_gone(known: &KnownFiles, entries: &Vec<FileEntry>) -> (r: Vec<(i64, String)>)
    requires
        known.wf(),
    ensures
        gone_models(r@) == gone_files(
            known.stored(),
            known.stored().len() as int,
            known.known(),
            entry_models(entries@),
        ),
{
    let ghost models = entry_models(entries@);
    let mut seen: StringHashMap<bool> = StringHashMap::new();
    let mut i: usize = 0;
    while i < entries.len()
        invariant
            i <= entries@.len(),
            models == entry_models(entries@),
            forall|p: Seq<char>| #[trigger]
                seen@.contains_key(p) <==> exists|k: int|
                    0 <= k < i && models[k].rel_path == p,
        decreases entries.len() - i,
    {
        let ghost before = seen@;
        seen.insert(entries[i].rel_path.clone(), true);
        proof {
            let q = entries@[i as int].rel_path@;
            assert(models[i as int].rel_path == q);
            assert forall|p: Seq<char>| #[trigger]
                seen@.contains_key(p) <==> exists|k: int|
                    0 <= k < i + 1 && models[k].rel_path == p by {
                if p == q {
                    assert(models[i as int].rel_path == p);
                } else {
                    assert(seen@.contains_key(p) == before.contains_key(p));
                    if exists|k: int| 0 <= k < i + 1 && models[k].rel_path == p {
                        let k = choose|k: int| 0 <= k < i + 1 && models[k].rel_path == p;
                        assert(k < i);
                    }
                }
            }
        }
        i += 1;
    }
    let mut out: Vec<(i64, String)> = Vec::new();
    let mut j: usize = 0;
    while j < known.files.len()
        invariant
            j <= known.files@.len(),
            known.wf(),
            models == entry_models(entries@),
            forall|p: Seq<char>| #[trigger]
                seen@.contains_key(p) <==> seen_paths(models).contains(p),
            gone_models(out@) == gone_files(known.stored(), j as int, known.known(), models),
        decreases known.files.len() - j,
    {
        let ghost before = out@;
        let f = &known.files[j];
        assert(known.stored()[j as int] == f@);
        let current: bool = match known.get(f.path.as_str()) {
            Some(g) => g.id == f.id,
            None => false,
        };
        if current && !seen.contains_key(f.path.as_str()) {
            out.push((f.id, f.path.clone()));
            proof {
                assert(gone_models(out@) =~= gone_models(before).push((f.id, f.path@)));
            }
        }
        j += 1;
    }
    out
}

/// The numbers of those among the first `n` candidates that the index knows.
pub open spec fn known_ids(
    chosen: Seq<Chosen>,
    n: int,
    known: Map<Seq<char>, Stored>,
) -> Seq<i64>
    decreases n,
{
    if n <= 0 {
        Seq::empty()
    } else if known.contains_key(chosen[n - 1].rel_path) {
        known_ids(chosen, n - 1, known).push(known[chosen[n - 1].rel_path].id)
    } else {
        known_ids(chosen, n - 1, known)
    }
}

/// The numbers of the candidates that the index knows: the rows that go before they are
/// written anew.
pub fn victim_ids(candidates: &Vec<Candidate>, known: &KnownFiles) -> (r: Vec<i64>)
    requires
        known.wf(),
    ensures
        r@ == known_ids(chosen_models(candidates@), candidates@.len() as int, known.known()),
{
    let ghost models = chosen_models(candidates@);
    let mut out: Vec<i64> = Vec::new();
    let mut i: usize = 0;
    while i < candidates.len()
        invariant
            i <= candidates@.len(),
            known.wf(),
            models == chosen_models(candidates@),
            out@ == known_ids(models, i as int, known.known()),
        decreases candidates.len() - i,
    {
        assert(models[i as int] == candidates@[i as int]@);
        if let Some(f) = known.get(candidates[i].rel_path.as_str()) {
            out.push(f.id);
        }
        i += 1;
    }
    out
}

/// How many of the first `n` entries are to be read.
proof fn lemma_reads(
    entries: Seq<Entry>,
    n: int,
    known: Map<Seq<char>, Stored>,
    force: bool,
)
    requires
        0 <= n <= entries.len() <= usize::MAX,
    ensures
        reads(entries, n, known, force).len() <= n,
        force ==> reads(entries, n, known, force).len() == n,
        forall|i: int|
            0 <= i < reads(entries, n, known, force).len() ==> #[trigger] reads(
                entries,
                n,
                known,
                force,
            )[i] < n,
    decreases n,
{
    if n > 0 {
        lemma_reads(entries, n - 1, known, force);
    }
}

/// Every file that was looked at is in one place: it had not changed, or it is to be indexed,
/// or it could not be read, or it is binary.
pub proof fn law_every_file_is_accounted_for(
    entries: Seq<Entry>,
    outcomes: Seq<ReadOutcome>,
    known: Map<Seq<char>, Stored>,
    force: bool,
)
    requires
        entries.len() <= usize::MAX,
        outcomes.len() == reads(entries, entries.len() as int, known, force).len(),
    ensures
        ({
            let to_read = reads(entries, entries.len() as int, known, force);
            let s = sorted(entries, to_read, outcomes, outcomes.len() as int, known, force);
            let untouched = entries.len() - to_read.len();
            entries.len() == untouched + s.updates.len() + s.chosen.len() + s.errors.len()
                + s.binary
        }),
{
    let to_read = reads(entries, entries.len() as int, known, force);
    lemma_reads(entries, entries.len() as int, known, force);
    lemma_sorted_counts(entries, to_read, outcomes, outcomes.len() as int, known, force);
}

/// A forced pass skips nothing: every file is read, and no file that was read only gets its
/// time and size updated.
pub proof fn law_forced_pass_skips_nothing(
    entries: Seq<Entry>,
    outcomes: Seq<ReadOutcome>,
    known: Map<Seq<char>, Stored>,
)
    requires
        entries.len() <= usize::MAX,
    ensures
        ({
            let to_read = reads(entries, entries.len() as int, known, true);
            &&& to_read.len() == entries.len()
            &&& sorted(
                entries,
                to_read,
                outcomes,
                outcomes.len() as int,
                known,
                true,
            ).updates.len() == 0
        }),
{
    let to_read = reads(entries, entries.len() as int, known, true);
    lemma_reads(entries, entries.len() as int, known, true);
    lemma_forced_updates(entries, to_read, outcomes, outcomes.len() as int, known);
}

proof fn lemma_forced_updates(
    entries: Seq<Entry>,
    to_read: Seq<usize>,
    outcomes: Seq<ReadOutcome>,
    n: int,
    known: Map<Seq<char>, Stored>,
)
    ensures
        sorted(entries, to_read, outcomes, n, known, true).updates.len() == 0,
    decreases n,
{
    if n > 0 {
        lemma_forced_updates(entries, to_read, outcomes, n - 1, known);
    }
}

/// A pass over files of which none changed since the index was made leaves everything as it
/// is: no file is read.
pub proof fn law_unchanged_files_are_not_read(
    entries: Seq<Entry>,
    known: Map<Seq<char>, Stored>,
)
    requires
        forall|i: int| 0 <= i < entries.len() ==> unchanged(#[trigger] entries[i], known),
    ensures
        reads(entries, entries.len() as int, known, false).len() == 0,
{
    lemma_unchanged_reads(entries, entries.len() as int, known);
}

proof fn lemma_unchanged_reads(entries: Seq<Entry>, n: int, known: Map<Seq<char>, Stored>)
    requires
        0 <= n <= entries.len(),
        forall|i: int| 0 <= i < entries.len() ==> unchanged(#[trigger] entries[i], known),
    ensures
        reads(entries, n, known, false).len() == 0,
    decreases n,
{
    if n > 0 {
        assert(unchanged(entries[n - 1], known));
        lemma_unchanged_reads(entries, n - 1, known);
    }
}

/// No more files are taken than the settings allow.
pub proof fn law_walk_keeps_the_limit(
    files: Seq<WalkedFile>,
    excluded: Seq<bool>,
    n: int,
    config: IndexConfig,
    scanned: nat,
)
    requires
        0 < config.max_files,
        scanned <= config.max_files,
    ensures
        scanned + walk(files, excluded, n, config, scanned).entries.len() <= config.max_files,
    decreases n,
{
    if n > 0 {
        law_walk_keeps_the_limit(files, excluded, n - 1, config, scanned);
    }
}

/// Whether a file is to be looked at: no pattern excludes it, its name is that of code or of a text,
/// and a text is within the limit of size, unless its name is exempt or its size is not known.
pub open spec fn indexable(file: WalkedFile, excluded: bool, config: IndexConfig) -> bool {
    let c = category_in_repo(
        told_by(file),
        repo_language_of(config),
        config.extra_text_extensions@,
    );
    &&& !excluded
    &&& c is Code || (c is Text && (size_exempt(told_by(file)) || file.size is None
        || file.size->0 <= config.max_file_size))
}

/// Every file that is to be looked at is taken, with its path, its time and its size, as long as no
/// limit on the number of files is reached.
pub proof fn law_every_indexable_file_is_taken(
    files: Seq<WalkedFile>,
    excluded: Seq<bool>,
    n: int,
    config: IndexConfig,
    scanned: nat,
    i: int,
)
    requires
        0 <= i < n <= files.len(),
        excluded.len() == files.len(),
        config.max_files == 0 || scanned + n <= config.max_files,
        indexable(files[i], excluded[i], config),
    ensures
        exists|k: int|
            0 <= k < walk(files, excluded, n, config, scanned).entries.len() && ({
                let e = #[trigger] walk(files, excluded, n, config, scanned).entries[k];
                &&& e.path == files[i].path@
                &&& e.rel_path == replaced(files[i].path@, '\\', '/')
                &&& e.category == category_in_repo(
                    told_by(files[i]),
                    repo_language_of(config),
                    config.extra_text_extensions@,
                )
                &&& files[i].mtime is Some ==> e.mtime == files[i].mtime->0
                &&& files[i].size is Some ==> e.file_size == files[i].size->0 as i64
            }),
    decreases n,
{
    let before = walk(files, excluded, n - 1, config, scanned);
    let now = walk(files, excluded, n, config, scanned);
    lemma_walk_takes_at_most(files, excluded, n - 1, config, scanned);
    if i == n - 1 {
        let k = before.entries.len() as int;
        assert(now.entries[k] == entry_of(
            files[i],
            category_in_repo(
                told_by(files[i]),
                repo_language_of(config),
                config.extra_text_extensions@,
            ),
        ));
    } else {
        law_every_indexable_file_is_taken(files, excluded, n - 1, config, scanned, i);
        let k = choose|k: int|
            0 <= k < before.entries.len() && ({
                let e = #[trigger] before.entries[k];
                &&& e.path == files[i].path@
                &&& e.rel_path == replaced(files[i].path@, '\\', '/')
                &&& e.category == category_in_repo(
                    told_by(files[i]),
                    repo_language_of(config),
                    config.extra_text_extensions@,
                )
                &&& files[i].mtime is Some ==> e.mtime == files[i].mtime->0
                &&& files[i].size is Some ==> e.file_size == files[i].size->0 as i64
            });
        assert(now.entries[k] == before.entries[k]);
    }
}

proof fn lemma_walk_takes_at_most(
    files: Seq<WalkedFile>,
    excluded: Seq<bool>,
    n: int,
    config: IndexConfig,
    scanned: nat,
)
    requires
        0 <= n,
    ensures
        walk(files, excluded, n, config, scanned).entries.len() + walk(
            files,
            excluded,
            n,
            config,
            scanned,
        ).too_large <= n,
    decreases n,
{
    if n > 0 {
        lemma_walk_takes_at_most(files, excluded, n - 1, config, scanned);
    }
}

/// No other file is taken.
pub proof fn law_only_indexable_files_are_taken(
    files: Seq<WalkedFile>,
    excluded: Seq<bool>,
    n: int,
    config: IndexConfig,
    scanned: nat,
    k: int,
)
    requires
        0 <= n <= files.len(),
        excluded.len() == files.len(),
        0 <= k < walk(files, excluded, n, config, scanned).entries.len(),
    ensures
        exists|i: int|
            0 <= i < n && indexable(#[trigger] files[i], excluded[i], config) && walk(
                files,
                excluded,
                n,
                config,
                scanned,
            ).entries[k].path == files[i].path@,
    decreases n,
{
    let before = walk(files, excluded, n - 1, config, scanned);
    if k < before.entries.len() {
        law_only_indexable_files_are_taken(files, excluded, n - 1, config, scanned, k);
        let i = choose|i: int|
            0 <= i < n - 1 && indexable(#[trigger] files[i], excluded[i], config)
                && before.entries[k].path == files[i].path@;
        assert(indexable(files[i], excluded[i], config));
    } else {
        assert(indexable(files[n - 1], excluded[n - 1], config));
    }
}

/// A file is read where the pass is forced, where the index does not know it, or where its time or
/// its size is another one; and only then.
pub proof fn law_changed_files_are_read(
    entries: Seq<Entry>,
    n: int,
    known: Map<Seq<char>, Stored>,
    force: bool,
)
    requires
        0 <= n <= entries.len() <= usize::MAX,
    ensures
        forall|i: usize|
            #[trigger] reads(entries, n, known, force).contains(i) <==> i < n && (force
                || !known.contains_key(entries[i as int].rel_path)
                || known[entries[i as int].rel_path].mtime != Some(entries[i as int].mtime)
                || known[entries[i as int].rel_path].file_size != Some(
                entries[i as int].file_size,
            )),
    decreases n,
{
    if n > 0 {
        law_changed_files_are_read(entries, n - 1, known, force);
        let before = reads(entries, n - 1, known, force);
        let now = reads(entries, n, known, force);
        assert forall|i: usize| #[trigger] now.contains(i) <==> i < n && (force
            || !known.contains_key(entries[i as int].rel_path)
            || known[entries[i as int].rel_path].mtime != Some(entries[i as int].mtime)
            || known[entries[i as int].rel_path].file_size != Some(entries[i as int].file_size)) by {
            if before.contains(i) {
                let k = choose|k: int| 0 <= k < before.len() && before[k] == i;
                assert(now[k] == i);
            }
            if i == n - 1 && now.len() > before.len() {
                assert(now[before.len() as int] == i);
            }
            if now.contains(i) && !before.contains(i) {
                let k = choose|k: int| 0 <= k < now.len() && now[k] == i;
                assert(k == before.len());
            }
        }
    }
}

/// A file that was read goes where it belongs: one that could not be read is reported with its
/// message; one whose content the index knows by its digest only gets its time and its size
/// updated, unless the pass is forced; any other that is not binary is indexed, with its content
/// and its digest.
pub proof fn law_read_files_are_sorted(
    entries: Seq<Entry>,
    to_read: Seq<usize>,
    outcomes: Seq<ReadOutcome>,
    n: int,
    known: Map<Seq<char>, Stored>,
    force: bool,
    i: int,
)
    requires
        0 <= i < n,
    ensures
        ({
            let s = sorted(entries, to_read, outcomes, n, known, force);
            let e = entries[to_read[i] as int];
            match outcomes[i] {
                ReadOutcome::Failed(message) => s.errors.contains((e.rel_path, message@)),
                ReadOutcome::Content { content, hash, is_binary } => {
                    let same = known.contains_key(e.rel_path) && known[e.rel_path].content_hash
                        == hash@;
                    if is_binary || e.category is Binary {
                        s.binary > 0
                    } else if same && !force {
                        s.updates.contains((e.rel_path, e.mtime, e.file_size))
                    } else {
                        s.chosen.contains(
                            Chosen {
                                rel_path: e.rel_path,
                                content: content@,
                                hash: hash@,
                                category: e.category,
                                mtime: e.mtime,
                                file_size: e.file_size,
                            },
                        )
                    }
                },
            }
        }),
    decreases n,
{
    let before = sorted(entries, to_read, outcomes, n - 1, known, force);
    let now = sorted(entries, to_read, outcomes, n, known, force);
    if i < n - 1 {
        law_read_files_are_sorted(entries, to_read, outcomes, n - 1, known, force, i);
        assert forall|x: Chosen| before.chosen.contains(x) implies #[trigger] now.chosen.contains(
            x,
        ) by {
            let k = choose|k: int| 0 <= k < before.chosen.len() && before.chosen[k] == x;
            assert(now.chosen[k] == x);
        }
        assert forall|x: (Seq<char>, i64, i64)| before.updates.contains(x) implies #[trigger] now.updates.contains(
            x,
        ) by {
            let k = choose|k: int| 0 <= k < before.updates.len() && before.updates[k] == x;
            assert(now.updates[k] == x);
        }
        assert forall|x: (Seq<char>, Seq<char>)| before.errors.contains(x) implies #[trigger] now.errors.contains(
            x,
        ) by {
            let k = choose|k: int| 0 <= k < before.errors.len() && before.errors[k] == x;
            assert(now.errors[k] == x);
        }
    } else {
        if now.chosen.len() > before.chosen.len() {
            assert(now.chosen.contains(now.chosen[before.chosen.len() as int]));
        }
        if now.updates.len() > before.updates.len() {
            assert(now.updates.contains(now.updates[before.updates.len() as int]));
        }
        if now.errors.len() > before.errors.len() {
            assert(now.errors.contains(now.errors[before.errors.len() as int]));
        }
    }
}

/// What the index knows of a path is the last of its files with that path.
pub proof fn law_last_row_of_a_path_counts(stored: Seq<Stored>, i: int)
    requires
        0 <= i < stored.len() <= usize::MAX,
        forall|j: int| i < j < stored.len() ==> (#[trigger] stored[j]).path != stored[i].path,
    ensures
        known_files(stored).contains_key(stored[i].path),
        known_files(stored)[stored[i].path] == stored[i],
{
    let n = stored.len() as int;
    let path = stored[i].path;
    lemma_positions(stored, n, path);
    assert(stored[i].path == path);
    let k = positions(stored, n)[path] as int;
    if k > i {
        assert(stored[k].path != path);
    }
}

/// A file that the index knows and that is not on the disk any more is gone, and no other: each one
/// that was seen stays.
pub proof fn law_files_not_seen_are_gone(
    stored: Seq<Stored>,
    n: int,
    known: Map<Seq<char>, Stored>,
    entries: Seq<Entry>,
    gone: (i64, Seq<char>),
)
    requires
        0 <= n <= stored.len(),
    ensures
        gone_files(stored, n, known, entries).contains(gone) <==> (exists|i: int|
            0 <= i < n && (#[trigger] stored[i]).id == gone.0 && stored[i].path == gone.1)
            && known.contains_key(gone.1) && known[gone.1].id == gone.0 && forall|j: int|
            0 <= j < entries.len() ==> (#[trigger] entries[j]).rel_path != gone.1,
    decreases n,
{
    if n > 0 {
        law_files_not_seen_are_gone(stored, n - 1, known, entries, gone);
        let before = gone_files(stored, n - 1, known, entries);
        let now = gone_files(stored, n, known, entries);
        let f = stored[n - 1];
        assert(seen_paths(entries).contains(gone.1) <==> exists|j: int|
            0 <= j < entries.len() && (#[trigger] entries[j]).rel_path == gone.1);
        if before.contains(gone) {
            let k = choose|k: int| 0 <= k < before.len() && before[k] == gone;
            assert(now[k] == gone);
        }
        if now.len() > before.len() {
            assert(now[before.len() as int] == (f.id, f.path));
        }
        if now.contains(gone) && !before.contains(gone) {
            let k = choose|k: int| 0 <= k < now.len() && now[k] == gone;
            assert(k == before.len());
            assert(stored[n - 1].id == gone.0);
        }
        if (exists|i: int|
            0 <= i < n && (#[trigger] stored[i]).id == gone.0 && stored[i].path == gone.1) {
            let i = choose|i: int|
                0 <= i < n && (#[trigger] stored[i]).id == gone.0 && stored[i].path == gone.1;
            if i < n - 1 {
                assert(stored[i].id == gone.0);
            }
        }
    }
}

/// The rows that go before files are written anew are those of the files that the index knows.
pub proof fn law_old_rows_of_candidates_go(
    chosen: Seq<Chosen>,
    n: int,
    known: Map<Seq<char>, Stored>,
    id: i64,
)
    requires
        0 <= n <= chosen.len(),
    ensures
        known_ids(chosen, n, known).contains(id) <==> exists|i: int|
            0 <= i < n && known.contains_key((#[trigger] chosen[i]).rel_path)
                && known[chosen[i].rel_path].id == id,
    decreases n,
{
    if n > 0 {
        law_old_rows_of_candidates_go(chosen, n - 1, known, id);
        let before = known_ids(chosen, n - 1, known);
        let now = known_ids(chosen, n, known);
        if before.contains(id) {
            let k = choose|k: int| 0 <= k < before.len() && before[k] == id;
            assert(now[k] == id);
            let i = choose|i: int|
                0 <= i < n - 1 && known.contains_key((#[trigger] chosen[i]).rel_path)
                    && known[chosen[i].rel_path].id == id;
            assert(known.contains_key(chosen[i].rel_path));
        }
        if now.len() > before.len() {
            assert(now[before.len() as int] == known[chosen[n - 1].rel_path].id);
        }
        if now.contains(id) && !before.contains(id) {
            let k = choose|k: int| 0 <= k < now.len() && now[k] == id;
            assert(k == before.len());
            assert(known.contains_key(chosen[n - 1].rel_path));
        }
    }
}

/// An entry has the path of its file, with slashes in the place of backslashes, and the time and the
/// size of the file; a time or a size that could not be read counts as zero.
pub proof fn law_entry_tells_time_and_size(file: WalkedFile, c: Category, i: int)
    ensures
        ({
            let e = entry_of(file, c);
            &&& e.path == file.path@
            &&& e.category == c
            &&& e.rel_path.len() == e.path.len()
            &&& 0 <= i < e.path.len() ==> e.rel_path[i] == if e.path[i] == '\\' {
                '/'
            } else {
                e.path[i]
            }
            &&& file.mtime is Some ==> e.mtime == file.mtime->0
            &&& file.mtime is None ==> e.mtime == 0
            &&& file.size is Some && file.size->0 <= i64::MAX ==> e.file_size == file.size->0
            &&& file.size is None ==> e.file_size == 0
        }),
{
}

/// A file is told by its name where it has one, and by its path otherwise: its language and whether
/// it is free of the limit on the size of texts depend on that alone.
pub proof fn law_file_is_told_by_its_name(
    a: WalkedFile,
    b: WalkedFile,
    config: IndexConfig,
)
    requires
        a.name is Some,
        b.name is None,
        a.name->0@ == b.path@,
        a.size == b.size,
    ensures
        verdict(a, false, config) is Take == verdict(b, false, config) is Take,
        verdict(a, false, config) is TooLarge == verdict(b, false, config) is TooLarge,
        verdict(a, true, config) is Skip,
        verdict(b, true, config) is Skip,
        verdict(a, false, config) matches Verdict::Take(e) ==> (verdict(b, false, config) matches
            Verdict::Take(f) && e.category == f.category),
{
}

/// Each row that has a number is known, with all that the index holds of it, and nothing else is.
pub proof fn law_every_numbered_row_is_known(rows: Seq<FileRecord>, i: int, k: int)
    ensures
        ({
            let stored = stored_rows(rows, rows.len() as int);
            &&& 0 <= i < rows.len() && rows[i].id is Some ==> exists|j: int|
                0 <= j < stored.len() && #[trigger] is_row(stored[j], rows[i])
            &&& 0 <= k < stored.len() ==> exists|j: int|
                0 <= j < rows.len() && is_row(stored[k], #[trigger] rows[j])
        }),
{
    lemma_stored_rows(rows, rows.len() as int, i, k);
}

/// Whether a known file is the one of a row.
pub open spec fn is_row(s: Stored, row: FileRecord) -> bool {
    &&& row.id == Some(s.id)
    &&& s.path == row.path@
    &&& s.content_hash == row.content_hash@
    &&& s.mtime == row.mtime
    &&& s.file_size == row.file_size
}

proof fn lemma_stored_rows(rows: Seq<FileRecord>, n: int, i: int, k: int)
    requires
        0 <= n <= rows.len(),
    ensures
        ({
            let stored = stored_rows(rows, n);
            &&& 0 <= i < n && rows[i].id is Some ==> exists|j: int|
                0 <= j < stored.len() && #[trigger] is_row(stored[j], rows[i])
            &&& 0 <= k < stored.len() ==> exists|j: int|
                0 <= j < n && is_row(stored[k], #[trigger] rows[j])
        }),
    decreases n,
{
    if n > 0 {
        lemma_stored_rows(rows, n - 1, i, k);
        let before = stored_rows(rows, n - 1);
        let all = stored_rows(rows, n);
        if rows[n - 1].id is Some {
            assert(is_row(all[before.len() as int], rows[n - 1]));
        }
        if 0 <= i < n - 1 && rows[i].id is Some {
            let j = choose|j: int| 0 <= j < before.len() && #[trigger] is_row(before[j], rows[i]);
            assert(all[j] == before[j]);
            assert(is_row(all[j], rows[i]));
        }
        if 0 <= k < before.len() {
            assert(all[k] == before[k]);
        }
    }
}

} // verus!
