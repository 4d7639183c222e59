//! The journal of the daemon and of the serving node.

use crate::text::{
    begins_with, decimal, finishes_with, law_beginnings_and_ends, lowercase, push_decimal,
    to_lowercase, trim, trimmed,
};
use vstd::prelude::*;
use vstd::string::*;

verus! {

/// How large the journal grows before a new one is begun, in bytes.
pub const MAX_LOG_BYTES: u64 = 10 * 1024 * 1024;

/// How many old journals are kept.
pub const KEEP_ROTATED: usize = 3;

/// How detailed the journal is where nothing was set.
pub const DEFAULT_LEVEL: &'static str = "info";

/// What is let into the journal at a level: of our own crates what the level says, of all others
/// warnings.
pub open spec fn directives(level: Seq<char>) -> Seq<char> {
    "warn,code_index_core="@ + level + ",code_index="@ + level + ",bsl_indexer="@ + level
        + ",bsl_extension="@ + level
}

/// The level that a setting stands for, given its lower case form without white space.
pub open spec fn level_or_default(level: Seq<char>) -> Seq<char> {
    if level.len() == 0 {
        DEFAULT_LEVEL@
    } else {
        level
    }
}

/// What is let into the journal at a level that is written in lower case, without white space.
pub fn level_directives(level: &str) -> (r: String)
    ensures
        r@ == directives(level_or_default(level@)),
{
    let level: &str = if level.is_empty() {
        DEFAULT_LEVEL
    } else {
        level
    };
    let mut out = "warn,code_index_core=".to_owned();
    out.append(level);
    out.append(",code_index=");
    out.append(level);
    out.append(",bsl_indexer=");
    out.append(level);
    out.append(",bsl_extension=");
    out.append(level);
    out
}

/// What is let into the journal at a level. White space and case do not count; an empty level is
/// the default one.
pub fn filter_directives(level: &str) -> (r: String)
    ensures
        r@ == directives(level_or_default(lowercase(trimmed(level@)))),
{
    let lower = to_lowercase(trim(level).as_str());
    level_directives(lower.as_str())
}

/// How much memory the process takes, for the journal.
pub fn memory_note(bytes: Option<u64>) -> (r: String)
    ensures
        r@ == (match bytes {
            Some(n) => decimal((n / 1_048_576) as nat) + " МБ"@,
            None => "сведений нет"@,
        }),
{
    match bytes {
        Some(n) => {
            let mut out = String::new();
            push_decimal(&mut out, n / 1_048_576);
            out.append(" МБ");
            proof {
                assert(out@ =~= decimal((n / 1_048_576) as nat) + " МБ"@);
            }
            out
        },
        None => "сведений нет".to_owned(),
    }
}

/// The name of an old journal.
pub open spec fn numbered(path: Seq<char>, n: nat) -> Seq<char> {
    path + "."@ + decimal(n)
}

/// The name of an old journal.
pub fn numbered_name(path: &str, n: usize) -> (r: String)
    ensures
        r@ == numbered(path@, n as nat),
{
    let mut out = path.to_owned();
    out.append(".");
    push_decimal(&mut out, n as u64);
    out
}

/// One step of beginning a new journal.
#[derive(Debug, Clone, Copy, PartialEq, Eq, Structural)]
pub enum RotationStep {
    /// Delete the old journal with this number.
    Remove(usize),
    /// Rename the old journal with this number, where there is one, to the next number.
    Shift(usize),
    /// Rename the journal to the first number.
    Retire,
}

/// The renaming of old journals, those with the numbers `n` down to one.
pub open spec fn shifts(n: int) -> Seq<RotationStep>
    decreases n,
{
    if n <= 0 {
        Seq::empty()
    } else {
        seq![RotationStep::Shift(n as usize)] + shifts(n - 1)
    }
}

/// The steps of beginning a new journal: the oldest one goes, the others move up, and the
/// current one becomes the first of the old ones.
pub open spec fn rotation(keep: int) -> Seq<RotationStep> {
    seq![RotationStep::Remove(keep as usize)] + shifts(keep - 1) + seq![RotationStep::Retire]
}

/// The steps of beginning a new journal.
pub fn rotation_steps(keep: usize) -> (r: Vec<RotationStep>)
    ensures
        r@ == rotation(keep as int),
{
    let mut out: Vec<RotationStep> = Vec::new();
    out.push(RotationStep::Remove(keep));
    let ghost all = rotation(keep as int);
    let mut n: usize = if keep > 0 {
        keep - 1
    } else {
        0
    };
    proof {
        assert(out@ + shifts(n as int) =~= seq![RotationStep::Remove(keep)] + shifts(keep - 1));
    }
    while n > 0
        invariant
            out@ + shifts(n as int) == seq![RotationStep::Remove(keep)] + shifts(keep - 1),
        decreases n,
    {
        let ghost before = out@;
        out.push(RotationStep::Shift(n));
        proof {
            assert(shifts(n as int) =~= seq![RotationStep::Shift(n)] + shifts(n - 1));
            assert(out@ + shifts(n - 1) =~= before + shifts(n as int));
        }
        n -= 1;
    }
    proof {
        assert(out@ + shifts(0) =~= out@);
    }
    out.push(RotationStep::Retire);
    proof {
        assert(out@ =~= all);
    }
    out
}

/// The journals: the current one, and the old ones by their numbers.
#[verifier::ext_equal]
pub struct Journals<T> {
    pub current: Option<T>,
    pub numbered: Map<int, T>,
}

/// The journals after a step.
pub open spec fn after_step<T>(j: Journals<T>, step: RotationStep) -> Journals<T> {
    match step {
        RotationStep::Remove(n) => Journals { numbered: j.numbered.remove(n as int), ..j },
        RotationStep::Shift(n) => if j.numbered.dom().contains(n as int) {
            Journals {
                numbered: j.numbered.remove(n as int).insert(n + 1, j.numbered[n as int]),
                ..j
            }
        } else {
            j
        },
        RotationStep::Retire => match j.current {
            Some(t) => Journals { current: None, numbered: j.numbered.insert(1, t) },
            None => j,
        },
    }
}

/// The journals after a number of steps.
pub open spec fn after_steps<T>(j: Journals<T>, steps: Seq<RotationStep>) -> Journals<T>
    decreases steps.len(),
{
    if steps.len() == 0 {
        j
    } else {
        after_steps(after_step(j, steps[0]), steps.skip(1))
    }
}

/// Steps one after another.
proof fn lemma_after_steps<T>(j: Journals<T>, a: Seq<RotationStep>, b: Seq<RotationStep>)
    ensures
        after_steps(j, a + b) == after_steps(after_steps(j, a), b),
    decreases a.len(),
{
    if a.len() > 0 {
        assert((a + b).skip(1) =~= a.skip(1) + b);
        lemma_after_steps(after_step(j, a[0]), a.skip(1), b);
    } else {
        assert(a + b =~= b);
    }
}

/// Old journals move up by one.
proof fn lemma_shifts<T>(j: Journals<T>, n: int)
    requires
        0 <= n < usize::MAX,
        !j.numbered.dom().contains(n + 1),
    ensures
        ({
            let r = after_steps(j, shifts(n));
            &&& r.current == j.current
            &&& forall|k: int|
                #![trigger r.numbered.dom().contains(k)]
                1 < k <= n + 1 ==> r.numbered.dom().contains(k) == j.numbered.dom().contains(k - 1)
            &&& forall|k: int|
                #![trigger r.numbered[k]]
                1 < k <= n + 1 && j.numbered.dom().contains(k - 1) ==> r.numbered[k]
                    == j.numbered[k - 1]
            &&& !r.numbered.dom().contains(1) || n == 0
            &&& n == 0 ==> r == j
            &&& forall|k: int|
                #![trigger r.numbered.dom().contains(k)]
                k > n + 1 || k < 1 ==> r.numbered.dom().contains(k) == j.numbered.dom().contains(k)
            &&& forall|k: int|
                #![trigger r.numbered[k]]
                (k > n + 1 || k < 1) && j.numbered.dom().contains(k) ==> r.numbered[k]
                    == j.numbered[k]
        }),
    decreases n,
{
    if n > 0 {
        let step = RotationStep::Shift(n as usize);
        let next = after_step(j, step);
        assert(shifts(n)[0] == step);
        assert(shifts(n).skip(1) =~= shifts(n - 1));
        assert(!next.numbered.dom().contains(n));
        lemma_shifts(next, n - 1);
        let r = after_steps(j, shifts(n));
        assert(r == after_steps(next, shifts(n - 1)));
        assert forall|k: int| #![trigger r.numbered.dom().contains(k)] 1 < k <= n + 1 implies
            r.numbered.dom().contains(k) == j.numbered.dom().contains(k - 1) by {
            if k <= n {
                assert(next.numbered.dom().contains(k - 1) == j.numbered.dom().contains(k - 1));
            }
        }
        assert forall|k: int|
            #![trigger r.numbered[k]]
            1 < k <= n + 1 && j.numbered.dom().contains(k - 1) implies r.numbered[k]
            == j.numbered[k - 1] by {
            if k <= n {
                assert(next.numbered.dom().contains(k - 1));
                assert(next.numbered[k - 1] == j.numbered[k - 1]);
            }
        }
    }
}

/// Beginning a new journal keeps the others in order: the current one becomes the first of the
/// old ones, the old ones move up by one, the oldest of those that are kept goes, and no more
/// than the given number is kept.
pub proof fn law_rotation_moves_journals_up<T>(j: Journals<T>, keep: usize)
    requires
        0 < keep,
        j.current is Some,
        forall|n: int| #[trigger] j.numbered.dom().contains(n) ==> 1 <= n <= keep,
    ensures
        ({
            let r = after_steps(j, rotation(keep as int));
            &&& r.current is None
            &&& r.numbered.dom().contains(1)
            &&& r.numbered[1] == j.current->0
            &&& forall|n: int|
                #![trigger r.numbered.dom().contains(n)]
                n != 1 ==> r.numbered.dom().contains(n) == (2 <= n <= keep
                    && j.numbered.dom().contains(n - 1))
            &&& forall|n: int|
                #![trigger r.numbered[n]]
                2 <= n <= keep && j.numbered.dom().contains(n - 1) ==> r.numbered[n]
                    == j.numbered[n - 1]
        }),
{
    let remove = seq![RotationStep::Remove(keep)];
    let retire = seq![RotationStep::Retire];
    let a = after_step(j, RotationStep::Remove(keep));
    let b = after_steps(a, shifts(keep - 1));
    let r = after_steps(j, rotation(keep as int));
    assert(remove.skip(1) =~= Seq::<RotationStep>::empty());
    assert(retire.skip(1) =~= Seq::<RotationStep>::empty());
    assert(after_steps(a, remove.skip(1)) == a);
    assert(after_steps(j, remove) == a);
    lemma_after_steps(j, remove, shifts(keep - 1));
    lemma_after_steps(j, remove + shifts(keep - 1), retire);
    lemma_shifts(a, keep - 1);
    assert(b.current == j.current);
    let c = after_step(b, RotationStep::Retire);
    assert(after_steps(c, retire.skip(1)) == c);
    assert(r == c);
    assert forall|n: int| #![trigger r.numbered.dom().contains(n)] n != 1 implies
        r.numbered.dom().contains(n) == (2 <= n <= keep && j.numbered.dom().contains(n - 1)) by {
        assert(r.numbered.dom().contains(n) == b.numbered.dom().contains(n));
        if 2 <= n <= keep {
            assert(b.numbered.dom().contains(n) == a.numbered.dom().contains(n - 1));
        } else {
            assert(b.numbered.dom().contains(n) == a.numbered.dom().contains(n));
        }
    }
    assert forall|n: int|
        #![trigger r.numbered[n]]
        2 <= n <= keep && j.numbered.dom().contains(n - 1) implies r.numbered[n]
        == j.numbered[n - 1] by {
        assert(a.numbered.dom().contains(n - 1));
        assert(b.numbered[n] == a.numbered[n - 1]);
    }
}

/// A journal that is begun anew when it grows too large.
#[derive(Debug, Clone, Copy, PartialEq, Eq, Structural)]
pub struct RotatingFile {
    /// How many bytes it holds.
    pub written: u64,
    pub max_bytes: u64,
    pub keep: usize,
}

impl RotatingFile {
    /// A journal that holds so many bytes already; it is continued.
    pub fn open(existing: u64, max_bytes: u64, keep: usize) -> (r: Self)
        ensures
            r == (RotatingFile { written: existing, max_bytes, keep }),
    {
        RotatingFile { written: existing, max_bytes, keep }
    }

    /// Whether a new journal is begun before so many bytes are written.
    pub fn needs_rotation(&self, len: u64) -> (r: bool)
        ensures
            r == (self.written + len > self.max_bytes),
    {
        self.written > self.max_bytes || len > self.max_bytes - self.written
    }

    /// A new journal was begun.
    pub fn rotated(&mut self)
        ensures
            *final(self) == (RotatingFile { written: 0, ..*old(self) }),
    {
        self.written = 0;
    }

    /// So many bytes were written.
    pub fn wrote(&mut self, len: u64)
        requires
            old(self).written + len <= u64::MAX,
        ensures
            *final(self) == (RotatingFile {
                written: (old(self).written + len) as u64,
                ..*old(self)
            }),
    {
        self.written = self.written + len;
    }
}

/// A journal stays within its limit, unless a single line is larger than that.
pub proof fn law_journal_stays_small(file: RotatingFile, len: u64)
    requires
        len <= file.max_bytes,
        file.written <= file.max_bytes,
    ensures
        (if file.written + len > file.max_bytes {
            0
        } else {
            file.written as int
        }) + len <= file.max_bytes,
{
}

/// A new journal is begun exactly where the limit would be exceeded: what is written into a journal
/// that is gone on with stays within it, and a new one begins empty.
pub proof fn law_new_journal_only_where_needed(
    file: RotatingFile,
    len: u64,
    needed: bool,
)
    requires
        call_ensures(RotatingFile::needs_rotation, (&file, len), needed),
    ensures
        !needed ==> file.written + len <= file.max_bytes,
        len <= file.max_bytes && needed ==> file.written > file.max_bytes - len,
        file.written == 0 && len <= file.max_bytes ==> !needed,
{
}

/// What is let into the journal names each part of the program, all of them at one level.
pub proof fn law_every_part_has_the_level(level: Seq<char>) -> (r: (Seq<char>, Seq<char>))
    ensures
        begins_with(directives(level), "warn,code_index_core="@ + level),
        finishes_with(directives(level), ",bsl_extension="@ + level),
        directives(level) == r.0 + (",code_index="@ + level) + r.1,
        finishes_with(r.0, level),
        begins_with(r.1, ",bsl_indexer="@ + level),
{
    let d = directives(level);
    let a = "warn,code_index_core="@ + level;
    let b = ",code_index="@ + level;
    let c = ",bsl_indexer="@ + level;
    let e = ",bsl_extension="@ + level;
    law_beginnings_and_ends(d, a, b + c + e);
    law_beginnings_and_ends(d, e, a + b + c);
    assert(d =~= a + (b + c + e));
    assert(d =~= (a + b + c) + e);
    assert(d =~= a + b + (c + e));
    law_beginnings_and_ends(a, level, "warn,code_index_core="@);
    law_beginnings_and_ends(c + e, c, e);
    (a, c + e)
}

} // verus!
