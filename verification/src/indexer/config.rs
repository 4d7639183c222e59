//! The settings of the index of one project.

use crate::indexer::file_types::{excluded_dir, is_excluded_dir};
use crate::text::{in_list, lists, texts};
use globset::{Glob, GlobSet, GlobSetBuilder};
use vstd::prelude::*;

verus! {

/// One pattern for the names of files.
#[verifier::external_type_specification]
#[verifier::external_body]
pub struct ExGlob(globset::Glob);

/// Patterns that are gathered for a set.
#[verifier::external_type_specification]
#[verifier::external_body]
pub struct ExGlobSetBuilder(globset::GlobSetBuilder);

/// A set of patterns that a name is matched against at once.
#[verifier::external_type_specification]
#[verifier::external_body]
pub struct ExGlobSet(globset::GlobSet);

/// The pattern that a glob was made of.
pub uninterp spec fn glob_pattern(glob: Glob) -> Seq<char>;

/// The patterns that were gathered, in order.
pub uninterp spec fn gathered_patterns(builder: GlobSetBuilder) -> Seq<Seq<char>>;

/// The patterns of a set.
pub uninterp spec fn set_patterns(set: GlobSet) -> Seq<Seq<char>>;

/// Whether a pattern that has more in it than literals and stars, but no backslash, is well formed.
pub uninterp spec fn glob_valid(pattern: Seq<char>) -> bool;

/// Whether a pattern that has more in it than literals and stars matches a name, neither of which
/// has a backslash.
pub uninterp spec fn glob_matches(pattern: Seq<char>, name: Seq<char>) -> bool;

/// Whether a character is an ASCII letter or digit.
pub open spec fn letter_or_digit(c: char) -> bool {
    '0' <= c <= '9' || 'a' <= c <= 'z' || 'A' <= c <= 'Z'
}

/// Whether a text is of characters that stand for themselves in a pattern, the last of them a
/// letter or a digit.
pub open spec fn literal(s: Seq<char>) -> bool {
    s.len() > 0 && letter_or_digit(s.last()) && forall|i: int|
        0 <= i < s.len() ==> letter_or_digit(#[trigger] s[i]) || s[i] == '.' || s[i] == '_' || s[i]
            == '-'
}

/// Whether a pattern is the name of a file, or a star and what the name ends in.
pub open spec fn simple(pattern: Seq<char>) -> bool {
    literal(pattern) || (pattern.len() > 0 && pattern[0] == '*' && literal(pattern.skip(1)))
}

/// Whether a simple pattern matches a name.
pub open spec fn simple_matches(pattern: Seq<char>, name: Seq<char>) -> bool {
    if pattern[0] == '*' {
        pattern.skip(1).is_suffix_of(name)
    } else {
        pattern == name
    }
}

/// Whether a pattern is made of characters that stand for themselves and of stars, of which no two
/// stand side by side; the last character is a letter, a digit or a star.
pub open spec fn starred(pattern: Seq<char>) -> bool {
    &&& pattern.len() > 0
    &&& letter_or_digit(pattern.last()) || pattern.last() == '*'
    &&& forall|i: int|
        0 <= i < pattern.len() ==> letter_or_digit(#[trigger] pattern[i]) || pattern[i] == '.'
            || pattern[i] == '_' || pattern[i] == '-' || pattern[i] == '*'
    &&& forall|i: int, j: int|
        0 <= i && j == i + 1 && j < pattern.len() ==> !(#[trigger] pattern[i] == '*'
            && #[trigger] pattern[j] == '*')
}

/// Whether a pattern of literals and stars matches a name: a star stands for any characters, also
/// for none.
pub open spec fn starred_matches(pattern: Seq<char>, name: Seq<char>) -> bool
    decreases pattern.len(),
{
    if pattern.len() == 0 {
        name.len() == 0
    } else if pattern[0] == '*' {
        exists|k: int|
            0 <= k <= name.len() && #[trigger] starred_matches(pattern.skip(1), name.skip(k))
    } else {
        name.len() > 0 && name[0] == pattern[0] && starred_matches(pattern.skip(1), name.skip(1))
    }
}

/// How many characters the first `n` patterns have together.
pub open spec fn pattern_chars(patterns: Seq<Seq<char>>, n: int) -> nat
    decreases n,
{
    if n <= 0 {
        0
    } else {
        pattern_chars(patterns, n - 1) + patterns[n - 1].len()
    }
}

/// Whether all patterns are made of literals and stars, and have no more than a thousand
/// characters together.
pub open spec fn few_starred(patterns: Seq<Seq<char>>) -> bool {
    &&& forall|i: int| 0 <= i < patterns.len() ==> starred(#[trigger] patterns[i])
    &&& pattern_chars(patterns, patterns.len() as int) <= 1000
}

/// Whether a pattern without a backslash is well formed.
pub open spec fn well_formed(pattern: Seq<char>) -> bool {
    starred(pattern) || glob_valid(pattern)
}

/// Whether a pattern matches a name, neither of which has a backslash.
pub open spec fn matches_name(pattern: Seq<char>, name: Seq<char>) -> bool {
    if simple(pattern) {
        simple_matches(pattern, name)
    } else if starred(pattern) {
        starred_matches(pattern, name)
    } else {
        glob_matches(pattern, name)
    }
}

/// Whether all patterns are simple.
pub open spec fn all_simple(patterns: Seq<Seq<char>>) -> bool {
    forall|i: int| 0 <= i < patterns.len() ==> simple(#[trigger] patterns[i])
}

/// Whether a set can always be built of patterns: of simple ones, and of a few of literals and
/// stars.
pub open spec fn buildable(patterns: Seq<Seq<char>>) -> bool {
    all_simple(patterns) || few_starred(patterns)
}

/// Whether a text has no backslash. What a backslash means in a pattern or in a path depends on
/// the system.
pub open spec fn plain(s: Seq<char>) -> bool {
    !s.contains('\\')
}

/// Whether no pattern has a backslash.
pub open spec fn all_plain(patterns: Seq<Seq<char>>) -> bool {
    forall|i: int| 0 <= i < patterns.len() ==> plain(#[trigger] patterns[i])
}

/// Whether one of the patterns matches a name.
pub open spec fn any_matches(patterns: Seq<Seq<char>>, name: Seq<char>) -> bool {
    exists|i: int| 0 <= i < patterns.len() && matches_name(#[trigger] patterns[i], name)
}

/// Calls `globset::Glob::new`, which parses a pattern. A pattern of literals and stars is always
/// accepted. Nothing is said of which patterns with a backslash are.
#[verifier::external_body]
fn new_glob(pattern: &str) -> (r: Option<Glob>)
    ensures
        starred(pattern@) ==> r is Some,
        plain(pattern@) && !starred(pattern@) ==> r is Some == glob_valid(pattern@),
        r is Some ==> glob_pattern(r->0) == pattern@,
{
    Glob::new(pattern).ok()
}

/// Calls `globset::GlobSetBuilder::new`, which gathers nothing yet.
#[verifier::external_body]
fn new_glob_builder() -> (r: GlobSetBuilder)
    ensures
        gathered_patterns(r) == Seq::<Seq<char>>::empty(),
{
    GlobSetBuilder::new()
}

/// Calls `globset::GlobSetBuilder::add`, which puts a pattern behind those gathered before.
#[verifier::external_body]
fn add_glob(builder: &mut GlobSetBuilder, glob: Glob)
    ensures
        gathered_patterns(*final(builder)) == gathered_patterns(*old(builder)).push(
            glob_pattern(glob),
        ),
{
    builder.add(glob);
}

/// Calls `globset::GlobSetBuilder::build`, which makes a set of the patterns gathered. It can
/// fail: the regular expression that is made of the patterns has a limit of ten megabytes on its
/// size. Simple patterns are looked up as names, extensions and endings, so that none is made of
/// them. Of a thousand literals and stars the expression stays far below the limit: it has a few
/// states for each character and each pattern.
#[verifier::external_body]
fn build_glob_set(builder: &GlobSetBuilder) -> (r: Option<GlobSet>)
    ensures
        all_simple(gathered_patterns(*builder)) ==> r is Some,
        few_starred(gathered_patterns(*builder)) ==> r is Some,
        r is Some ==> set_patterns(r->0) == gathered_patterns(*builder),
{
    builder.build().ok()
}

/// Calls `globset::GlobSet::empty`, which matches nothing.
#[verifier::external_body]
fn empty_glob_set() -> (r: GlobSet)
    ensures
        set_patterns(r) == Seq::<Seq<char>>::empty(),
{
    GlobSet::empty()
}

/// Calls `globset::GlobSet::is_match`: whether one of the patterns matches. A star stands for
/// any characters. Nothing is said of patterns and names with a backslash, but that a set of no
/// patterns matches nothing.
#[verifier::external_body]
fn glob_set_matches(set: &GlobSet, name: &str) -> (r: bool)
    ensures
        set_patterns(*set).len() == 0 ==> !r,
        plain(name@) && all_plain(set_patterns(*set)) ==> (r == (exists|i: int|
            0 <= i < set_patterns(*set).len() && (if simple(#[trigger] set_patterns(*set)[i]) {
                simple_matches(set_patterns(*set)[i], name@)
            } else if starred(set_patterns(*set)[i]) {
                starred_matches(set_patterns(*set)[i], name@)
            } else {
                glob_matches(set_patterns(*set)[i], name@)
            }))),
{
    set.is_match(name)
}

/// Whether a set of patterns matches the name of a file.
pub fn excludes_file(set: &GlobSet, name: &str) -> (r: bool)
    ensures
        set_patterns(*set).len() == 0 ==> !r,
        plain(name@) && all_plain(set_patterns(*set)) ==> r == any_matches(
            set_patterns(*set),
            name@,
        ),
{
    glob_set_matches(set, name)
}

/// Whether `kept` are the well formed ones among the first `n` patterns, in order.
pub open spec fn keeps_valid(patterns: Seq<Seq<char>>, n: int, kept: Seq<Seq<char>>) -> bool
    decreases n,
{
    if n <= 0 {
        kept.len() == 0
    } else {
        let p = patterns[n - 1];
        ||| (plain(p) ==> well_formed(p)) && kept.len() > 0 && kept.last() == p && keeps_valid(
            patterns,
            n - 1,
            kept.drop_last(),
        )
        ||| (plain(p) ==> !well_formed(p)) && keeps_valid(patterns, n - 1, kept)
    }
}

/// Whether a set may be made of `kept`, given the patterns of the settings: of those that are
/// well formed, in order, or of none where a set of these could not be built.
pub open spec fn may_keep(patterns: Seq<Seq<char>>, kept: Seq<Seq<char>>) -> bool {
    exists|gathered: Seq<Seq<char>>| #[trigger]
        keeps_valid(patterns, patterns.len() as int, gathered) && (kept == gathered || (kept.len()
            == 0 && !buildable(gathered)))
}

/// A pattern that is not well formed is passed over, and the rest stays: where a set can always be
/// built of the patterns that are well formed, it is made of all of them.
pub proof fn law_bad_patterns_alone_are_left_out(
    patterns: Seq<Seq<char>>,
    valid: Seq<Seq<char>>,
    kept: Seq<Seq<char>>,
)
    requires
        all_plain(patterns),
        keeps_valid(patterns, patterns.len() as int, valid),
        buildable(valid),
        may_keep(patterns, kept),
    ensures
        kept == valid,
{
    let gathered = choose|gathered: Seq<Seq<char>>| #[trigger]
        keeps_valid(patterns, patterns.len() as int, gathered) && (kept == gathered || (kept.len()
            == 0 && !buildable(gathered)));
    lemma_valid_are_one(patterns, patterns.len() as int, valid, gathered);
}

proof fn lemma_valid_are_one(
    patterns: Seq<Seq<char>>,
    n: int,
    a: Seq<Seq<char>>,
    b: Seq<Seq<char>>,
)
    requires
        0 <= n <= patterns.len(),
        all_plain(patterns),
        keeps_valid(patterns, n, a),
        keeps_valid(patterns, n, b),
    ensures
        a == b,
    decreases n,
{
    if n > 0 {
        assert(plain(patterns[n - 1]));
        if well_formed(patterns[n - 1]) {
            lemma_valid_are_one(patterns, n - 1, a.drop_last(), b.drop_last());
            assert(a =~= a.drop_last().push(a.last()));
            assert(b =~= b.drop_last().push(b.last()));
        } else {
            lemma_valid_are_one(patterns, n - 1, a, b);
        }
    } else {
        assert(a =~= b);
    }
}

/// Simple patterns, and a few patterns of literals and stars, are all kept.
pub proof fn law_starred_patterns_are_kept(patterns: Seq<Seq<char>>, kept: Seq<Seq<char>>)
    requires
        buildable(patterns),
        may_keep(patterns, kept),
    ensures
        kept == patterns,
{
    let gathered = choose|gathered: Seq<Seq<char>>| #[trigger]
        keeps_valid(patterns, patterns.len() as int, gathered) && (kept == gathered || (kept.len()
            == 0 && !buildable(gathered)));
    assert forall|i: int| 0 <= i < patterns.len() implies starred(#[trigger] patterns[i]) by {
        if all_simple(patterns) {
            lemma_simple_is_starred(patterns[i]);
        }
    }
    lemma_starred_are_kept(patterns, patterns.len() as int, gathered);
    assert(patterns.take(patterns.len() as int) =~= patterns);
}

/// A simple pattern is made of literals and stars.
proof fn lemma_simple_is_starred(pattern: Seq<char>)
    requires
        simple(pattern),
    ensures
        starred(pattern),
        plain(pattern),
{
    if !literal(pattern) {
        let rest = pattern.skip(1);
        assert(rest.last() == pattern.last());
        assert forall|i: int| 0 <= i < pattern.len() implies letter_or_digit(
            #[trigger] pattern[i],
        ) || pattern[i] == '.' || pattern[i] == '_' || pattern[i] == '-' || pattern[i] == '*' by {
            if i > 0 {
                assert(rest[i - 1] == pattern[i]);
            }
        }
        assert forall|i: int, j: int|
            0 <= i && j == i + 1 && j < pattern.len() implies !(#[trigger] pattern[i] == '*'
            && #[trigger] pattern[j] == '*') by {
            assert(rest[j - 1] == pattern[j]);
        }
    }
    lemma_starred_is_plain(pattern);
}

/// A pattern of literals and stars has no backslash.
proof fn lemma_starred_is_plain(pattern: Seq<char>)
    requires
        starred(pattern),
    ensures
        plain(pattern),
{
    if pattern.contains('\\') {
        let i = choose|i: int| 0 <= i < pattern.len() && pattern[i] == '\\';
        assert(pattern[i] == '\\');
    }
}

/// Where all patterns are made of literals and stars, all are kept.
proof fn lemma_starred_are_kept(patterns: Seq<Seq<char>>, n: int, kept: Seq<Seq<char>>)
    requires
        0 <= n <= patterns.len(),
        forall|i: int| 0 <= i < patterns.len() ==> starred(#[trigger] patterns[i]),
        keeps_valid(patterns, n, kept),
    ensures
        kept == patterns.take(n),
    decreases n,
{
    if n > 0 {
        lemma_starred_is_plain(patterns[n - 1]);
        lemma_starred_are_kept(patterns, n - 1, kept.drop_last());
        assert(kept =~= patterns.take(n));
    }
}

/// The settings of the index of one project.
#[derive(Debug, Clone)]
pub struct IndexConfig {
    /// Directories that are passed over in addition to the usual ones.
    pub exclude_dirs: Vec<String>,
    /// Patterns for the names of files that are passed over.
    pub exclude_file_patterns: Vec<String>,
    /// Extensions of texts in addition to the usual ones.
    pub extra_text_extensions: Vec<String>,
    /// How large a text may be, in bytes. Code is indexed whatever its size.
    pub max_file_size: usize,
    /// How large code may be for its content to be stored, in bytes.
    pub max_code_file_size_bytes: usize,
    /// How many files are indexed; zero for any number.
    pub max_files: usize,
    /// From how many files on the secondary indexes are dropped and made anew.
    pub bulk_threshold: usize,
    /// The languages that are parsed.
    pub languages: Vec<String>,
    /// The language of the repository as a whole.
    pub repo_language: Option<String>,
    /// How many files one transaction holds.
    pub batch_size: usize,
    /// Where the database is kept: `auto`, `memory` or `disk`.
    pub storage_mode: String,
    /// How many percent of the free memory the database may take.
    pub memory_max_percent: u8,
    /// How long the watcher waits for silence, in milliseconds.
    pub debounce_ms: u64,
    /// How long the watcher gathers at most, in milliseconds.
    pub batch_ms: u64,
    /// From how many changed files on a full pass is made.
    pub bulk_batch_threshold: usize,
    /// How often the database is written to the disk, in seconds.
    pub flush_interval_sec: u64,
}

pub fn default_storage_mode() -> (r: String)
    ensures
        r@ == "auto"@,
{
    "auto".to_owned()
}

pub fn default_memory_max_percent() -> (r: u8)
    ensures
        r == 50,
{
    50
}

pub fn default_debounce_ms() -> (r: u64)
    ensures
        r == 1500,
{
    1500
}

pub fn default_batch_ms() -> (r: u64)
    ensures
        r == 30_000,
{
    30_000
}

pub fn default_bulk_batch_threshold() -> (r: usize)
    ensures
        r == 8000,
{
    8000
}

pub fn default_flush_interval() -> (r: u64)
    ensures
        r == 30,
{
    30
}

/// One megabyte.
pub fn default_max_file_size() -> (r: usize)
    ensures
        r == 1_048_576,
{
    1_048_576
}

/// Five megabytes.
pub fn default_max_code_file_size() -> (r: usize)
    ensures
        r == 5 * 1_048_576,
{
    5 * 1_048_576
}

pub fn default_batch_size() -> (r: usize)
    ensures
        r == 500,
{
    500
}

pub fn default_bulk_threshold() -> (r: usize)
    ensures
        r == 10,
{
    10
}

/// The languages that are parsed by default: all of them.
pub open spec fn all_languages() -> Seq<Seq<char>> {
    seq![
        "python"@,
        "javascript"@,
        "typescript"@,
        "java"@,
        "rust"@,
        "go"@,
        "bsl"@,
        "php"@,
        "c"@,
        "cpp"@,
        "csharp"@,
        "ruby"@,
        "swift"@,
        "html"@,
    ]
}

/// The languages that are parsed by default: all of them.
pub fn default_languages() -> (r: Vec<String>)
    ensures
        texts(r@) == all_languages(),
{
    let r = vec![
        "python".to_owned(),
        "javascript".to_owned(),
        "typescript".to_owned(),
        "java".to_owned(),
        "rust".to_owned(),
        "go".to_owned(),
        "bsl".to_owned(),
        "php".to_owned(),
        "c".to_owned(),
        "cpp".to_owned(),
        "csharp".to_owned(),
        "ruby".to_owned(),
        "swift".to_owned(),
        "html".to_owned(),
    ];
    proof {
        assert(texts(r@) =~= all_languages());
    }
    r
}

impl IndexConfig {
    /// Whether these are the default settings.
    pub open spec fn is_default(&self) -> bool {
        &&& self.exclude_dirs@.len() == 0
        &&& self.exclude_file_patterns@.len() == 0
        &&& self.extra_text_extensions@.len() == 0
        &&& self.max_file_size == 1_048_576
        &&& self.max_code_file_size_bytes == 5 * 1_048_576
        &&& self.max_files == 0
        &&& self.bulk_threshold == 10
        &&& texts(self.languages@) == all_languages()
        &&& self.repo_language is None
        &&& self.batch_size == 500
        &&& self.storage_mode@ == "auto"@
        &&& self.memory_max_percent == 50
        &&& self.debounce_ms == 1500
        &&& self.batch_ms == 30_000
        &&& self.bulk_batch_threshold == 8000
        &&& self.flush_interval_sec == 30
    }
}

impl Default for IndexConfig {
    fn default() -> (r: Self)
        ensures
            r.is_default(),
    {
        IndexConfig {
            exclude_dirs: Vec::new(),
            exclude_file_patterns: Vec::new(),
            extra_text_extensions: Vec::new(),
            max_file_size: default_max_file_size(),
            max_code_file_size_bytes: default_max_code_file_size(),
            max_files: 0,
            bulk_threshold: default_bulk_threshold(),
            languages: default_languages(),
            repo_language: None,
            batch_size: default_batch_size(),
            storage_mode: default_storage_mode(),
            memory_max_percent: default_memory_max_percent(),
            debounce_ms: default_debounce_ms(),
            batch_ms: default_batch_ms(),
            bulk_batch_threshold: default_bulk_batch_threshold(),
            flush_interval_sec: default_flush_interval(),
        }
    }
}

/// The set that was built; one that matches nothing where building it failed.
pub fn built_or_empty(built: Option<GlobSet>) -> (r: GlobSet)
    ensures
        match built {
            Some(set) => r == set,
            None => set_patterns(r).len() == 0,
        },
{
    match built {
        Some(set) => set,
        None => empty_glob_set(),
    }
}

impl IndexConfig {
    /// Whether a directory is passed over by its name.
    pub open spec fn excludes_dir(&self, name: Seq<char>) -> bool {
        excluded_dir(name) || lists(self.exclude_dirs@, name)
    }

    /// Whether a directory is passed over: by one of the usual names, or by one of those that
    /// the settings add.
    pub fn is_excluded_dir(&self, dir_name: &str) -> (r: bool)
        ensures
            r == self.excludes_dir(dir_name@),
    {
        is_excluded_dir(dir_name) || in_list(&self.exclude_dirs, dir_name)
    }

    /// Gathers the patterns for the names of files that are passed over. Those that are not well
    /// formed are left out.
    pub fn gather_file_patterns(&self) -> (r: GlobSetBuilder)
        ensures
            keeps_valid(
                texts(self.exclude_file_patterns@),
                self.exclude_file_patterns@.len() as int,
                gathered_patterns(r),
            ),
    {
        let mut builder = new_glob_builder();
        let ghost patterns = texts(self.exclude_file_patterns@);
        let mut i: usize = 0;
        while i < self.exclude_file_patterns.len()
            invariant
                i <= self.exclude_file_patterns@.len(),
                patterns == texts(self.exclude_file_patterns@),
                keeps_valid(patterns, i as int, gathered_patterns(builder)),
            decreases self.exclude_file_patterns.len() - i,
        {
            let ghost before = gathered_patterns(builder);
            if let Some(glob) = new_glob(self.exclude_file_patterns[i].as_str()) {
                add_glob(&mut builder, glob);
                proof {
                    assert(gathered_patterns(builder).drop_last() =~= before);
                }
            }
            i += 1;
        }
        builder
    }

    /// The patterns for the names of files that are passed over, as one set. Patterns that are
    /// not well formed are left out. The set is empty where it cannot be built, which does not
    /// happen to simple patterns, nor to a few patterns of literals and stars.
    pub fn build_file_exclude_matcher(&self) -> (r: GlobSet)
        ensures
            may_keep(texts(self.exclude_file_patterns@), set_patterns(r)),
    {
        let builder = self.gather_file_patterns();
        let r = built_or_empty(build_glob_set(&builder));
        proof {
            let patterns = texts(self.exclude_file_patterns@);
            assert(keeps_valid(patterns, patterns.len() as int, gathered_patterns(builder)));
        }
        r
    }
}

/// Each pattern that is well formed is gathered, and nothing but patterns of the settings is: none
/// that is known not to be well formed.
pub proof fn law_good_patterns_are_gathered(
    patterns: Seq<Seq<char>>,
    gathered: Seq<Seq<char>>,
    i: int,
    k: int,
)
    requires
        keeps_valid(patterns, patterns.len() as int, gathered),
    ensures
        0 <= i < patterns.len() && plain(patterns[i]) && well_formed(patterns[i])
            ==> gathered.contains(patterns[i]),
        0 <= k < gathered.len() ==> patterns.contains(gathered[k]) && (plain(gathered[k])
            ==> well_formed(gathered[k])),
        gathered.len() <= patterns.len(),
{
    lemma_good_are_gathered(patterns, patterns.len() as int, gathered, i, k);
}

proof fn lemma_good_are_gathered(
    patterns: Seq<Seq<char>>,
    n: int,
    gathered: Seq<Seq<char>>,
    i: int,
    k: int,
)
    requires
        0 <= n <= patterns.len(),
        keeps_valid(patterns, n, gathered),
    ensures
        0 <= i < n && plain(patterns[i]) && well_formed(patterns[i]) ==> gathered.contains(
            patterns[i],
        ),
        0 <= k < gathered.len() ==> patterns.contains(gathered[k]) && (plain(gathered[k])
            ==> well_formed(gathered[k])),
        gathered.len() <= n,
    decreases n,
{
    if n > 0 {
        let p = patterns[n - 1];
        if (plain(p) ==> well_formed(p)) && gathered.len() > 0 && gathered.last() == p
            && keeps_valid(patterns, n - 1, gathered.drop_last()) {
            let t = gathered.drop_last();
            lemma_good_are_gathered(patterns, n - 1, t, i, k);
            assert(gathered[gathered.len() - 1] == p);
            assert(patterns[n - 1] == p);
            if 0 <= i < n - 1 && plain(patterns[i]) && well_formed(patterns[i]) {
                let x = choose|x: int| 0 <= x < t.len() && t[x] == patterns[i];
                assert(gathered[x] == patterns[i]);
            }
            if 0 <= k < t.len() {
                assert(t[k] == gathered[k]);
            }
        } else {
            lemma_good_are_gathered(patterns, n - 1, gathered, i, k);
        }
    }
}

/// A directory is passed over by each of the names that the settings add, and by each name that is
/// always passed over; no other name is.
pub proof fn law_named_directories_are_passed_over(config: IndexConfig, i: int, name: Seq<char>)
    ensures
        0 <= i < config.exclude_dirs@.len() ==> config.excludes_dir(config.exclude_dirs@[i]@),
        excluded_dir(name) ==> config.excludes_dir(name),
        !excluded_dir(name) && (forall|k: int|
            0 <= k < config.exclude_dirs@.len() ==> (#[trigger] config.exclude_dirs@[k])@ != name)
            ==> !config.excludes_dir(name),
{
}

/// The directories that hold no sources of the project itself are always passed over: those of
/// packages, of environments, of the version control, of caches, of what was built, and the one of
/// the index.
pub proof fn law_directories_without_sources_are_passed_over(config: IndexConfig)
    ensures
        config.excludes_dir("node_modules"@),
        config.excludes_dir(".venv"@),
        config.excludes_dir("__pycache__"@),
        config.excludes_dir(".git"@),
        config.excludes_dir(".code-index"@),
        config.excludes_dir("target"@),
        config.excludes_dir(".mypy_cache"@),
        config.excludes_dir(".pytest_cache"@),
        config.excludes_dir(".tox"@),
        config.excludes_dir("dist"@),
        config.excludes_dir("build"@),
        config.excludes_dir("venv"@),
        config.excludes_dir("env"@),
        config.excludes_dir(".env"@),
{
}

/// Each language that files can be in is parsed by default.
pub proof fn law_every_language_is_parsed_by_default(config: IndexConfig)
    requires
        config.is_default(),
    ensures
        lists(config.languages@, "python"@),
        lists(config.languages@, "javascript"@),
        lists(config.languages@, "typescript"@),
        lists(config.languages@, "java"@),
        lists(config.languages@, "rust"@),
        lists(config.languages@, "go"@),
        lists(config.languages@, "bsl"@),
        lists(config.languages@, "php"@),
        lists(config.languages@, "c"@),
        lists(config.languages@, "cpp"@),
        lists(config.languages@, "csharp"@),
        lists(config.languages@, "ruby"@),
        lists(config.languages@, "swift"@),
        lists(config.languages@, "html"@),
{
    let all = texts(config.languages@);
    assert(all == all_languages());
    assert(config.languages@[0]@ == all[0]);
    assert(config.languages@[1]@ == all[1]);
    assert(config.languages@[2]@ == all[2]);
    assert(config.languages@[3]@ == all[3]);
    assert(config.languages@[4]@ == all[4]);
    assert(config.languages@[5]@ == all[5]);
    assert(config.languages@[6]@ == all[6]);
    assert(config.languages@[7]@ == all[7]);
    assert(config.languages@[8]@ == all[8]);
    assert(config.languages@[9]@ == all[9]);
    assert(config.languages@[10]@ == all[10]);
    assert(config.languages@[11]@ == all[11]);
    assert(config.languages@[12]@ == all[12]);
    assert(config.languages@[13]@ == all[13]);
}

/// A simple pattern without a star matches the name that it is and no other, as one with stars would
/// that has none; with a star it matches each name that ends in the rest of it.
pub proof fn law_simple_patterns_match_names_and_endings(pattern: Seq<char>, name: Seq<char>)
    requires
        simple(pattern),
    ensures
        literal(pattern) ==> matches_name(pattern, name) == (name == pattern) && starred_matches(
            pattern,
            name,
        ) == (name == pattern),
        pattern[0] == '*' ==> matches_name(pattern, name) == (name.len() >= pattern.len() - 1
            && name.skip(name.len() - pattern.len() + 1) == pattern.skip(1)),
{
    if literal(pattern) {
        lemma_literal_matches(pattern, name);
        assert(pattern[0] != '*') by {
            assert(letter_or_digit(pattern[0]) || pattern[0] == '.' || pattern[0] == '_'
                || pattern[0] == '-');
        }
    } else {
        let rest = pattern.skip(1);
        let k = name.len() - rest.len();
        if rest.is_suffix_of(name) {
            assert(name.skip(k) =~= rest);
        }
        if k >= 0 && name.skip(k) == rest {
            assert(name.subrange(k, name.len() as int) =~= name.skip(k));
        }
    }
}

proof fn lemma_literal_matches(pattern: Seq<char>, name: Seq<char>)
    requires
        forall|i: int|
            0 <= i < pattern.len() ==> letter_or_digit(#[trigger] pattern[i]) || pattern[i] == '.'
                || pattern[i] == '_' || pattern[i] == '-',
    ensures
        starred_matches(pattern, name) == (pattern == name),
    decreases pattern.len(),
{
    if pattern.len() == 0 {
        assert(name.len() == 0 ==> pattern =~= name);
    } else {
        assert(pattern[0] != '*');
        if name.len() > 0 {
            let p = pattern.skip(1);
            let n = name.skip(1);
            assert forall|i: int| 0 <= i < p.len() implies letter_or_digit(#[trigger] p[i]) || p[i]
                == '.' || p[i] == '_' || p[i] == '-' by {
                assert(p[i] == pattern[i + 1]);
            }
            lemma_literal_matches(p, n);
            if p == n && name[0] == pattern[0] {
                assert(pattern =~= seq![pattern[0]] + p);
                assert(name =~= seq![name[0]] + n);
            }
        }
    }
}

/// A name is excluded as soon as one of the patterns matches it, and otherwise not.
pub proof fn law_one_matching_pattern_excludes(
    patterns: Seq<Seq<char>>,
    more: Seq<Seq<char>>,
    name: Seq<char>,
)
    ensures
        any_matches(patterns + more, name) == (any_matches(patterns, name) || any_matches(
            more,
            name,
        )),
        !any_matches(Seq::empty(), name),
        patterns.len() == 1 ==> any_matches(patterns, name) == matches_name(patterns[0], name),
{
    let all = patterns + more;
    if any_matches(patterns, name) {
        let i = choose|i: int| 0 <= i < patterns.len() && matches_name(#[trigger] patterns[i], name);
        assert(all[i] == patterns[i]);
    }
    if any_matches(more, name) {
        let i = choose|i: int| 0 <= i < more.len() && matches_name(#[trigger] more[i], name);
        assert(all[patterns.len() + i] == more[i]);
    }
    if any_matches(all, name) {
        let i = choose|i: int| 0 <= i < all.len() && matches_name(#[trigger] all[i], name);
        if i < patterns.len() {
            assert(patterns[i] == all[i]);
        } else {
            assert(more[i - patterns.len()] == all[i]);
        }
    }
}

} // verus!
