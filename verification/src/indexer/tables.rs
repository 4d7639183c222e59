//! What the rows of the index are after files were written to it.

use crate::indexer::candidates::{
    gone_files, known_files, known_ids, law_unchanged_files_are_not_read, lemma_known_files, reads,
    seen_paths, sorted, unchanged, Chosen, Entry, ReadOutcome, Stored,
};
use crate::indexer::records::{
    code_ops, content_ops, delete_ops, fact_ops, rows, text_file_ops, text_ops, Content, FileRecord,
    Op, Row,
};
use crate::indexer::reindex::{Reindex, ReindexAction, ReindexPlan};
use crate::parser::types::{CallFact, ClassFact, Facts, FunctionFact, ImportFact, VariableFact};
use vstd::prelude::*;
use vstd::utf8::encode_utf8;

verus! {

/// The tables of the index that hold what was found in files.
#[verifier::ext_equal]
pub struct Tables {
    pub functions: Seq<Row<FunctionFact>>,
    pub classes: Seq<Row<ClassFact>>,
    pub imports: Seq<Row<ImportFact>>,
    pub calls: Seq<Row<CallFact>>,
    pub variables: Seq<Row<VariableFact>>,
    /// The texts that can be searched.
    pub texts: Seq<Row<Seq<char>>>,
    /// The contents by the numbers of the files.
    pub contents: Map<i64, Content>,
}

/// What the tables hold of one file.
#[verifier::ext_equal]
pub struct FileRows {
    pub facts: Facts,
    pub texts: Seq<Seq<char>>,
    pub content: Option<Content>,
}

/// What the rows of a table say of a file.
pub open spec fn facts_of<F>(table: Seq<Row<F>>, file_id: i64) -> Seq<F>
    decreases table.len(),
{
    if table.len() == 0 {
        Seq::empty()
    } else if table.last().file_id == file_id {
        facts_of(table.drop_last(), file_id).push(table.last().fact)
    } else {
        facts_of(table.drop_last(), file_id)
    }
}

/// The rows of a table without those of some files.
pub open spec fn rows_without<F>(table: Seq<Row<F>>, file_ids: Set<i64>) -> Seq<Row<F>>
    decreases table.len(),
{
    if table.len() == 0 {
        table
    } else if file_ids.contains(table.last().file_id) {
        rows_without(table.drop_last(), file_ids)
    } else {
        rows_without(table.drop_last(), file_ids).push(table.last())
    }
}

/// What is stored of a content: that it is over the limit, where it is.
pub open spec fn within_limit(content: Seq<char>, limit: usize) -> Content {
    if encode_utf8(content).len() > limit {
        Content::Oversize
    } else {
        Content::Raw(content)
    }
}

impl Tables {
    /// What the tables hold of a file.
    pub open spec fn of(self, file_id: i64) -> FileRows {
        FileRows {
            facts: Facts {
                functions: facts_of(self.functions, file_id),
                classes: facts_of(self.classes, file_id),
                imports: facts_of(self.imports, file_id),
                calls: facts_of(self.calls, file_id),
                variables: facts_of(self.variables, file_id),
            },
            texts: facts_of(self.texts, file_id),
            content: if self.contents.contains_key(file_id) {
                Some(self.contents[file_id])
            } else {
                None
            },
        }
    }

    /// The tables after one step.
    pub open spec fn after(self, op: Op) -> Tables {
        match op {
            Op::DeleteFunctions(id) => Tables {
                functions: rows_without(self.functions, set![id]),
                ..self
            },
            Op::DeleteClasses(id) => Tables {
                classes: rows_without(self.classes, set![id]),
                ..self
            },
            Op::DeleteImports(id) => Tables {
                imports: rows_without(self.imports, set![id]),
                ..self
            },
            Op::DeleteCalls(id) => Tables { calls: rows_without(self.calls, set![id]), ..self },
            Op::DeleteVariables(id) => Tables {
                variables: rows_without(self.variables, set![id]),
                ..self
            },
            Op::DeleteTextFile(id) => Tables { texts: rows_without(self.texts, set![id]), ..self },
            Op::InsertFunctions(new) => Tables { functions: self.functions + new, ..self },
            Op::InsertClasses(new) => Tables { classes: self.classes + new, ..self },
            Op::InsertImports(new) => Tables { imports: self.imports + new, ..self },
            Op::InsertCalls(new) => Tables { calls: self.calls + new, ..self },
            Op::InsertVariables(new) => Tables { variables: self.variables + new, ..self },
            Op::InsertTextFileBlob(id, _, text) => Tables {
                texts: self.texts + seq![Row { id: None, file_id: id, fact: text }],
                ..self
            },
            Op::InsertTextFile(row) => Tables { texts: self.texts + seq![row], ..self },
            Op::UpsertContent(id, content, limit) => Tables {
                contents: self.contents.insert(id, within_limit(content, limit)),
                ..self
            },
            Op::UpsertContentBlob(id, stored) => Tables {
                contents: self.contents.insert(
                    id,
                    match stored {
                        Some(b) => Content::Blob(b),
                        None => Content::Oversize,
                    },
                ),
                ..self
            },
        }
    }

    /// The tables after the first `n` steps.
    pub open spec fn after_steps(self, steps: Seq<Op>, n: int) -> Tables
        decreases n,
    {
        if n <= 0 {
            self
        } else {
            self.after_steps(steps, n - 1).after(steps[n - 1])
        }
    }

    /// The tables after all steps.
    pub open spec fn after_all(self, steps: Seq<Op>) -> Tables {
        self.after_steps(steps, steps.len() as int)
    }

    /// The tables after what was found in some files was deleted at once.
    pub open spec fn without_files(self, file_ids: Set<i64>) -> Tables {
        Tables {
            functions: rows_without(self.functions, file_ids),
            classes: rows_without(self.classes, file_ids),
            imports: rows_without(self.imports, file_ids),
            calls: rows_without(self.calls, file_ids),
            variables: rows_without(self.variables, file_ids),
            texts: rows_without(self.texts, file_ids),
            contents: self.contents,
        }
    }
}

/// A file as it is written to the index.
#[verifier::ext_equal]
pub enum NewFile {
    Code { facts: Facts, text: Option<Seq<char>>, content: Content },
    Text(Seq<char>),
}

impl NewFile {
    /// The steps that write the file, once it has a number.
    pub open spec fn steps(self, file_id: i64, skip_delete: bool, limit: usize) -> Seq<Op> {
        match self {
            NewFile::Code { facts, text, content } => code_ops(
                file_id,
                facts,
                skip_delete,
                text,
                content,
                limit,
            ),
            NewFile::Text(text) => text_file_ops(file_id, skip_delete, text),
        }
    }

    /// What is found in the file.
    pub open spec fn facts(self) -> Facts {
        match self {
            NewFile::Code { facts, .. } => facts,
            NewFile::Text(_) => Facts::none(),
        }
    }

    /// The text of the file that can be searched.
    pub open spec fn texts(self) -> Seq<Seq<char>> {
        match self {
            NewFile::Code { text: Some(t), .. } => seq![t],
            NewFile::Code { text: None, .. } => Seq::empty(),
            NewFile::Text(t) => seq![t],
        }
    }

    /// The content of the file after it was written, given what it was before.
    pub open spec fn content(self, before: Option<Content>, limit: usize) -> Option<Content> {
        match self {
            NewFile::Code { content, .. } => match content {
                Content::Raw(c) => Some(within_limit(c, limit)),
                Content::Blob(b) => Some(Content::Blob(b)),
                Content::Oversize => Some(Content::Oversize),
                Content::Nothing => before,
            },
            NewFile::Text(_) => before,
        }
    }

    /// What the tables hold of the file after it was written, where nothing was found in it
    /// before.
    pub open spec fn anew(self, before: Option<Content>, limit: usize) -> FileRows {
        FileRows {
            facts: self.facts(),
            texts: self.texts(),
            content: self.content(before, limit),
        }
    }
}

proof fn lemma_facts_join<F>(a: Seq<Row<F>>, b: Seq<Row<F>>, file_id: i64)
    ensures
        facts_of(a + b, file_id) == facts_of(a, file_id) + facts_of(b, file_id),
    decreases b.len(),
{
    if b.len() == 0 {
        assert(a + b =~= a);
        assert(facts_of(a, file_id) + facts_of(b, file_id) =~= facts_of(a, file_id));
    } else {
        lemma_facts_join(a, b.drop_last(), file_id);
        assert((a + b).drop_last() =~= a + b.drop_last());
        assert(facts_of(a + b, file_id) =~= facts_of(a, file_id) + facts_of(b, file_id));
    }
}

proof fn lemma_facts_without<F>(table: Seq<Row<F>>, file_ids: Set<i64>, file_id: i64)
    ensures
        facts_of(rows_without(table, file_ids), file_id) == (if file_ids.contains(file_id) {
            Seq::empty()
        } else {
            facts_of(table, file_id)
        }),
    decreases table.len(),
{
    if table.len() > 0 {
        let rest = table.drop_last();
        lemma_facts_without(rest, file_ids, file_id);
        if !file_ids.contains(table.last().file_id) {
            let kept = rows_without(rest, file_ids);
            assert(kept.push(table.last()).drop_last() =~= kept);
        }
    }
}

proof fn lemma_facts_rows<F>(file_id: i64, facts: Seq<F>, other: i64)
    ensures
        facts_of(rows(file_id, facts), other) == (if file_id == other {
            facts
        } else {
            Seq::empty()
        }),
    decreases facts.len(),
{
    if facts.len() > 0 {
        lemma_facts_rows(file_id, facts.drop_last(), other);
        assert(rows(file_id, facts).drop_last() =~= rows(file_id, facts.drop_last()));
        assert(facts.drop_last().push(facts.last()) =~= facts);
    } else {
        assert(rows(file_id, facts) =~= Seq::<Row<F>>::empty());
        assert(facts =~= Seq::<F>::empty());
    }
}

proof fn lemma_facts_one<F>(row: Row<F>, other: i64)
    ensures
        facts_of(seq![row], other) == (if row.file_id == other {
            seq![row.fact]
        } else {
            Seq::empty()
        }),
{
    assert(seq![row].drop_last() =~= Seq::<Row<F>>::empty());
    assert(facts_of(seq![row].drop_last(), other) =~= Seq::<F>::empty());
    assert(facts_of(seq![row], other) =~= (if row.file_id == other {
        seq![row.fact]
    } else {
        Seq::empty()
    }));
}

proof fn lemma_steps_join(t: Tables, a: Seq<Op>, b: Seq<Op>, n: int)
    requires
        0 <= n <= b.len(),
    ensures
        t.after_steps(a + b, a.len() + n) == t.after_all(a).after_steps(b, n),
    decreases n,
{
    if n > 0 {
        lemma_steps_join(t, a, b, n - 1);
        assert((a + b)[a.len() + n - 1] == b[n - 1]);
    } else {
        lemma_steps_prefix(t, a, b, a.len() as int);
    }
}

proof fn lemma_steps_prefix(t: Tables, a: Seq<Op>, b: Seq<Op>, n: int)
    requires
        0 <= n <= a.len(),
    ensures
        t.after_steps(a + b, n) == t.after_steps(a, n),
    decreases n,
{
    if n > 0 {
        lemma_steps_prefix(t, a, b, n - 1);
        assert((a + b)[n - 1] == a[n - 1]);
    }
}

proof fn lemma_all_join(t: Tables, a: Seq<Op>, b: Seq<Op>)
    ensures
        t.after_all(a + b) == t.after_all(a).after_all(b),
{
    lemma_steps_join(t, a, b, b.len() as int);
}

proof fn lemma_deletes(t: Tables, file_id: i64, with_text: bool, k: i64)
    ensures
        ({
            let n = t.after_all(delete_ops(file_id, false, with_text));
            &&& n.contents == t.contents
            &&& n.of(k) == (if k == file_id {
                FileRows {
                    facts: Facts::none(),
                    texts: if with_text {
                        Seq::empty()
                    } else {
                        t.of(k).texts
                    },
                    content: t.of(k).content,
                }
            } else {
                t.of(k)
            })
        }),
{
    let steps = delete_ops(file_id, false, with_text);
    let one = set![file_id];
    reveal_with_fuel(Tables::after_steps, 7);
    lemma_facts_without(t.functions, one, k);
    lemma_facts_without(t.classes, one, k);
    lemma_facts_without(t.imports, one, k);
    lemma_facts_without(t.calls, one, k);
    lemma_facts_without(t.variables, one, k);
    lemma_facts_without(t.texts, one, k);
    let n = t.after_all(steps);
    assert(n.functions == rows_without(t.functions, one));
    assert(n.classes == rows_without(t.classes, one));
    assert(n.imports == rows_without(t.imports, one));
    assert(n.calls == rows_without(t.calls, one));
    assert(n.variables == rows_without(t.variables, one));
    assert(n.texts == if with_text {
        rows_without(t.texts, one)
    } else {
        t.texts
    });
}

proof fn lemma_inserts(t: Tables, file_id: i64, facts: Facts, k: i64)
    ensures
        ({
            let n = t.after_all(fact_ops(file_id, facts));
            &&& n.contents == t.contents
            &&& n.of(k) == (if k == file_id {
                FileRows { facts: t.of(k).facts.join(facts), ..t.of(k) }
            } else {
                t.of(k)
            })
        }),
{
    reveal_with_fuel(Tables::after_steps, 6);
    lemma_facts_join(t.functions, rows(file_id, facts.functions), k);
    lemma_facts_join(t.classes, rows(file_id, facts.classes), k);
    lemma_facts_join(t.imports, rows(file_id, facts.imports), k);
    lemma_facts_join(t.calls, rows(file_id, facts.calls), k);
    lemma_facts_join(t.variables, rows(file_id, facts.variables), k);
    lemma_facts_rows(file_id, facts.functions, k);
    lemma_facts_rows(file_id, facts.classes, k);
    lemma_facts_rows(file_id, facts.imports, k);
    lemma_facts_rows(file_id, facts.calls, k);
    lemma_facts_rows(file_id, facts.variables, k);
    let n = t.after_all(fact_ops(file_id, facts));
    assert(n.functions == t.functions + rows(file_id, facts.functions));
    assert(n.classes == t.classes + rows(file_id, facts.classes));
    assert(n.imports == t.imports + rows(file_id, facts.imports));
    assert(n.calls == t.calls + rows(file_id, facts.calls));
    assert(n.variables == t.variables + rows(file_id, facts.variables));
    assert(n.of(k).facts =~= (if k == file_id {
        t.of(k).facts.join(facts)
    } else {
        t.of(k).facts
    }));
}

proof fn lemma_text(t: Tables, file_id: i64, text: Option<Seq<char>>, content: Content, k: i64)
    ensures
        ({
            let n = t.after_all(text_ops(file_id, text, content));
            &&& n.contents == t.contents
            &&& n.of(k) == (if k == file_id && text is Some {
                FileRows { texts: t.of(k).texts.push(text->0), ..t.of(k) }
            } else {
                t.of(k)
            })
        }),
{
    reveal_with_fuel(Tables::after_steps, 2);
    if let Some(s) = text {
        let row = Row { id: None, file_id, fact: s };
        lemma_facts_join(t.texts, seq![row], k);
        lemma_facts_one(row, k);
        let n = t.after_all(text_ops(file_id, text, content));
        assert(n.texts == t.texts + seq![row]);
        assert(t.of(k).texts + seq![s] =~= t.of(k).texts.push(s));
        assert(t.of(k).texts + Seq::<Seq<char>>::empty() =~= t.of(k).texts);
    }
}

proof fn lemma_content(t: Tables, file_id: i64, content: Content, limit: usize, k: i64)
    ensures
        t.after_all(content_ops(file_id, content, limit)).of(k) == (if k == file_id {
            FileRows {
                content: match content {
                    Content::Raw(c) => Some(within_limit(c, limit)),
                    Content::Blob(b) => Some(Content::Blob(b)),
                    Content::Oversize => Some(Content::Oversize),
                    Content::Nothing => t.of(k).content,
                },
                ..t.of(k)
            }
        } else {
            t.of(k)
        }),
{
    reveal_with_fuel(Tables::after_steps, 2);
}

proof fn lemma_write(
    t: Tables,
    file_id: i64,
    file: NewFile,
    skip_delete: bool,
    limit: usize,
    k: i64,
)
    requires
        skip_delete ==> t.of(file_id).facts == Facts::none() && t.of(file_id).texts.len() == 0,
        file is Text ==> t.of(file_id).facts == Facts::none(),
    ensures
        ({
            let n = t.after_all(file.steps(file_id, skip_delete, limit));
            &&& k != file_id ==> n.of(k) == t.of(k)
            &&& n.of(file_id).facts == file.facts()
            &&& n.of(file_id).content == file.content(t.of(file_id).content, limit)
            &&& file.texts().len() > 0 || t.of(file_id).texts.len() == 0 ==> n.of(file_id).texts
                == file.texts()
        }),
{
    match file {
        NewFile::Code { facts, text, content } => {
            let d = delete_ops(file_id, skip_delete, text is Some);
            let f = fact_ops(file_id, facts);
            let x = text_ops(file_id, text, content);
            let c = content_ops(file_id, content, limit);
            lemma_all_join(t, d + f + x, c);
            lemma_all_join(t, d + f, x);
            lemma_all_join(t, d, f);
            let t1 = t.after_all(d);
            let t2 = t1.after_all(f);
            let t3 = t2.after_all(x);
            if skip_delete {
                assert(t1 == t);
            } else {
                lemma_deletes(t, file_id, text is Some, k);
                lemma_deletes(t, file_id, text is Some, file_id);
            }
            lemma_inserts(t1, file_id, facts, k);
            lemma_inserts(t1, file_id, facts, file_id);
            lemma_text(t2, file_id, text, content, k);
            lemma_text(t2, file_id, text, content, file_id);
            lemma_content(t3, file_id, content, limit, k);
            lemma_content(t3, file_id, content, limit, file_id);
            assert(Facts::none().join(facts) =~= facts);
            let n = t.after_all(file.steps(file_id, skip_delete, limit));
            assert(n == t3.after_all(c));
            if file.texts().len() > 0 || t.of(file_id).texts.len() == 0 {
                assert(n.of(file_id).texts =~= file.texts());
            }
        },
        NewFile::Text(s) => {
            reveal_with_fuel(Tables::after_steps, 3);
            let row = Row { id: None, file_id, fact: s };
            let kept = if skip_delete {
                t.texts
            } else {
                rows_without(t.texts, set![file_id])
            };
            let steps = text_file_ops(file_id, skip_delete, s);
            let n = t.after_all(steps);
            if skip_delete {
                assert(steps =~= seq![Op::InsertTextFile(row)]);
            } else {
                assert(steps =~= seq![Op::DeleteTextFile(file_id), Op::InsertTextFile(row)]);
            }
            assert(n == (Tables { texts: kept + seq![row], ..t }));
            lemma_facts_without(t.texts, set![file_id], k);
            lemma_facts_without(t.texts, set![file_id], file_id);
            lemma_facts_join(kept, seq![row], k);
            lemma_facts_join(kept, seq![row], file_id);
            lemma_facts_one(row, k);
            lemma_facts_one(row, file_id);
            assert(n.of(file_id).texts =~= seq![s]);
            if k != file_id {
                assert(n.of(k).texts =~= t.of(k).texts);
            }
        },
    }
}

/// After code was written, the rows of its file are exactly those of what was found in it:
/// nothing that was found in it before is left, and nothing is there twice. Rows of other files
/// stay as they are.
pub proof fn law_written_code_is_all_there_is(
    t: Tables,
    file_id: i64,
    facts: Facts,
    text: Option<Seq<char>>,
    content: Content,
    limit: usize,
    other: i64,
)
    requires
        other != file_id,
    ensures
        ({
            let n = t.after_all(code_ops(file_id, facts, false, text, content, limit));
            &&& n.of(file_id).facts == facts
            &&& text matches Some(s) ==> n.of(file_id).texts == seq![s]
            &&& n.of(other) == t.of(other)
        }),
{
    lemma_write(t, file_id, NewFile::Code { facts, text, content }, false, limit, other);
}

/// Writing the same code again changes nothing that can be read of any file.
pub proof fn law_writing_again_adds_nothing(
    t: Tables,
    file_id: i64,
    facts: Facts,
    text: Option<Seq<char>>,
    content: Content,
    limit: usize,
    k: i64,
)
    ensures
        ({
            let steps = code_ops(file_id, facts, false, text, content, limit);
            t.after_all(steps).after_all(steps).of(k) == t.after_all(steps).of(k)
        }),
{
    let file = NewFile::Code { facts, text, content };
    let steps = code_ops(file_id, facts, false, text, content, limit);
    let once = t.after_all(steps);
    lemma_write(t, file_id, file, false, limit, k);
    lemma_write(once, file_id, file, false, limit, k);
    if text is None {
        lemma_text_stays(t, file_id, facts, content, limit);
        lemma_text_stays(once, file_id, facts, content, limit);
    }
    assert(once.after_all(steps).of(file_id) =~= once.of(file_id));
}

proof fn lemma_text_stays(t: Tables, file_id: i64, facts: Facts, content: Content, limit: usize)
    ensures
        t.after_all(code_ops(file_id, facts, false, None, content, limit)).of(file_id).texts
            == t.of(file_id).texts,
{
    let d = delete_ops(file_id, false, false);
    let f = fact_ops(file_id, facts);
    let x = text_ops(file_id, None, content);
    let c = content_ops(file_id, content, limit);
    lemma_all_join(t, d + f + x, c);
    lemma_all_join(t, d + f, x);
    lemma_all_join(t, d, f);
    lemma_deletes(t, file_id, false, file_id);
    lemma_inserts(t.after_all(d), file_id, facts, file_id);
    lemma_text(t.after_all(d).after_all(f), file_id, None, content, file_id);
    lemma_content(t.after_all(d).after_all(f).after_all(x), file_id, content, limit, file_id);
}

/// What the row of a file says of it.
#[verifier::ext_equal]
pub struct FileRow {
    pub content_hash: Seq<char>,
    pub language: Seq<char>,
    pub lines_total: usize,
    pub mtime: Option<i64>,
    pub file_size: Option<i64>,
}

/// The rows of files, by path, after the row of one was put in: a path has one row, and a new row
/// takes the place of the old one.
pub open spec fn with_row(files: Map<Seq<char>, FileRow>, record: FileRecord) -> Map<
    Seq<char>,
    FileRow,
> {
    files.insert(
        record.path@,
        FileRow {
            content_hash: record.content_hash@,
            language: record.language@,
            lines_total: record.lines_total,
            mtime: record.mtime,
            file_size: record.file_size,
        },
    )
}

/// The row of a file that was written says of it what was given, whatever it said before, and
/// putting it in again changes nothing. Rows of other files stay as they are.
pub proof fn law_one_row_of_a_file(
    files: Map<Seq<char>, FileRow>,
    record: FileRecord,
    path: Seq<char>,
    content_hash: Seq<char>,
    language: Seq<char>,
    lines_total: usize,
    indexed_at: String,
    mtime: Option<i64>,
    file_size: Option<i64>,
    other: Seq<char>,
)
    requires
        record.is_new_row(
            path,
            content_hash,
            language,
            lines_total,
            indexed_at,
            mtime,
            file_size,
        ),
        other != path,
    ensures
        with_row(files, record).contains_key(path),
        with_row(files, record)[path] == (FileRow {
            content_hash,
            language,
            lines_total,
            mtime,
            file_size,
        }),
        with_row(files, record).contains_key(other) == files.contains_key(other),
        files.contains_key(other) ==> with_row(files, record)[other] == files[other],
        with_row(with_row(files, record), record) == with_row(files, record),
{
}

/// The tables after the first `n` files were written.
pub open spec fn written_tables(
    t: Tables,
    files: Seq<(i64, NewFile)>,
    n: int,
    skip_delete: bool,
    limit: usize,
) -> Tables
    decreases n,
{
    if n <= 0 {
        t
    } else {
        let before = written_tables(t, files, n - 1, skip_delete, limit);
        before.after_all(files[n - 1].1.steps(files[n - 1].0, skip_delete, limit))
    }
}

/// The tables after the writes of a pass: where many files are written to an index that is not
/// new, what was found in those that it knows is deleted at once before.
pub open spec fn pass_tables(
    t: Tables,
    plan: ReindexPlan,
    victims: Seq<i64>,
    files: Seq<(i64, NewFile)>,
    limit: usize,
) -> Tables {
    let start = if plan.bulk() && !plan.fresh {
        t.without_files(victims.to_set())
    } else {
        t
    };
    written_tables(start, files, files.len() as int, plan.skips_deletes(), limit)
}

/// Whether no number occurs twice.
pub open spec fn distinct_numbers(files: Seq<(i64, NewFile)>) -> bool {
    forall|i: int, j: int| 0 <= i < j < files.len() ==> (#[trigger] files[i]).0 != (
    #[trigger] files[j]).0
}

proof fn lemma_written_tables(
    t: Tables,
    files: Seq<(i64, NewFile)>,
    n: int,
    limit: usize,
    k: i64,
)
    requires
        0 <= n <= files.len(),
        distinct_numbers(files),
        forall|i: int|
            #![trigger files[i]]
            0 <= i < files.len() ==> t.of(files[i].0).facts == Facts::none() && t.of(
                files[i].0,
            ).texts.len() == 0,
    ensures
        ({
            let w = written_tables(t, files, n, true, limit);
            &&& forall|i: int|
                #![trigger files[i]]
                0 <= i < n ==> w.of(files[i].0) == files[i].1.anew(
                    t.of(files[i].0).content,
                    limit,
                )
            &&& forall|i: int|
                #![trigger files[i]]
                n <= i < files.len() ==> w.of(files[i].0) == t.of(files[i].0)
            &&& (forall|i: int| 0 <= i < n ==> (#[trigger] files[i]).0 != k) ==> w.of(k) == t.of(k)
        }),
    decreases n,
{
    if n > 0 {
        lemma_written_tables(t, files, n - 1, limit, k);
        let w = written_tables(t, files, n - 1, true, limit);
        let (id, file) = files[n - 1];
        let after = w.after_all(file.steps(id, true, limit));
        lemma_write(w, id, file, true, limit, k);
        assert(after.of(id) =~= file.anew(t.of(id).content, limit));
        assert forall|i: int| #![trigger files[i]] 0 <= i < files.len() && i != n - 1 implies
            after.of(files[i].0) == w.of(files[i].0) by {
            assert(files[i].0 != id);
            lemma_write(w, id, file, true, limit, files[i].0);
        }
    }
}

/// A pass that writes more files than the threshold, or writes to a new index, leaves in the
/// tables, of each file that it writes, exactly what is found in the file now: nothing from
/// before and nothing twice. So the tables of an index that was brought up to date say of these
/// files what those of a new index say. Other files stay as they are. A number that the index
/// gives to a file that it does not know has no rows yet.
pub proof fn law_bulk_update_is_as_a_new_index(
    t: Tables,
    plan: ReindexPlan,
    known: Map<Seq<char>, Stored>,
    chosen: Seq<Chosen>,
    files: Seq<(i64, NewFile)>,
    limit: usize,
    k: i64,
)
    requires
        plan.skips_deletes(),
        files.len() == chosen.len(),
        distinct_numbers(files),
        forall|i: int|
            #![trigger files[i]]
            0 <= i < files.len() ==> if known.contains_key(chosen[i].rel_path) {
                files[i].0 == known[chosen[i].rel_path].id
            } else {
                t.of(files[i].0).facts == Facts::none() && t.of(files[i].0).texts.len() == 0
            },
        plan.fresh ==> known == Map::<Seq<char>, Stored>::empty(),
        forall|i: int| 0 <= i < files.len() ==> (#[trigger] files[i]).0 != k,
        !known_ids(chosen, chosen.len() as int, known).contains(k),
    ensures
        ({
            let victims = known_ids(chosen, chosen.len() as int, known);
            let n = pass_tables(t, plan, victims, files, limit);
            &&& forall|i: int|
                #![trigger files[i]]
                0 <= i < files.len() ==> n.of(files[i].0) == files[i].1.anew(
                    t.of(files[i].0).content,
                    limit,
                )
            &&& n.of(k) == t.of(k)
        }),
{
    let victims = known_ids(chosen, chosen.len() as int, known);
    let gone = victims.to_set();
    let start = if plan.fresh {
        t
    } else {
        t.without_files(gone)
    };
    assert forall|i: int| #![trigger files[i]] 0 <= i < files.len() implies start.of(
        files[i].0,
    ).facts == Facts::none() && start.of(files[i].0).texts.len() == 0 && start.of(
        files[i].0,
    ).content == t.of(files[i].0).content by {
        if known.contains_key(chosen[i].rel_path) {
            lemma_known_id(chosen, chosen.len() as int, known, i);
        }
        if !plan.fresh {
            lemma_without_files(t, gone, files[i].0);
        }
    }
    if !plan.fresh {
        lemma_without_files(t, gone, k);
    }
    lemma_written_tables(start, files, files.len() as int, limit, k);
}

proof fn lemma_without_files(t: Tables, gone: Set<i64>, k: i64)
    ensures
        t.without_files(gone).of(k) == (if gone.contains(k) {
            FileRows { facts: Facts::none(), texts: Seq::empty(), content: t.of(k).content }
        } else {
            t.of(k)
        }),
{
    lemma_facts_without(t.functions, gone, k);
    lemma_facts_without(t.classes, gone, k);
    lemma_facts_without(t.imports, gone, k);
    lemma_facts_without(t.calls, gone, k);
    lemma_facts_without(t.variables, gone, k);
    lemma_facts_without(t.texts, gone, k);
}

proof fn lemma_known_id(chosen: Seq<Chosen>, n: int, known: Map<Seq<char>, Stored>, i: int)
    requires
        0 <= i < n <= chosen.len(),
        known.contains_key(chosen[i].rel_path),
    ensures
        known_ids(chosen, n, known).contains(known[chosen[i].rel_path].id),
    decreases n,
{
    let ids = known_ids(chosen, n, known);
    if i == n - 1 {
        assert(ids.last() == known[chosen[i].rel_path].id);
    } else {
        lemma_known_id(chosen, n - 1, known, i);
        let before = known_ids(chosen, n - 1, known);
        let x = choose|x: int|
            0 <= x < before.len() && before[x] == known[chosen[i].rel_path].id;
        assert(ids[x] == before[x]);
    }
}

/// A second pass over files that have not changed since the first does nothing: no file is
/// read, none is written, updated or deleted, and the work is done before its first step.
pub proof fn law_second_pass_does_nothing(
    stored: Seq<Stored>,
    entries: Seq<Entry>,
    plan: ReindexPlan,
)
    requires
        forall|i: int|
            0 <= i < entries.len() ==> unchanged(#[trigger] entries[i], known_files(stored)),
        forall|i: int|
            0 <= i < stored.len() ==> seen_paths(entries).contains((#[trigger] stored[i]).path),
        ({
            let known = known_files(stored);
            let to_read = reads(entries, entries.len() as int, known, false);
            let s = sorted(entries, to_read, Seq::empty(), 0, known, false);
            let gone = gone_files(stored, stored.len() as int, known, entries);
            &&& plan.candidates == s.chosen.len()
            &&& plan.updates == s.updates.len()
            &&& plan.gone == gone.len()
        }),
    ensures
        reads(entries, entries.len() as int, known_files(stored), false).len() == 0,
        gone_files(stored, stored.len() as int, known_files(stored), entries).len() == 0,
        Reindex::starting(plan).wanted() == ReindexAction::Done,
        Reindex::starting(plan).indexed == 0,
{
    law_unchanged_files_are_not_read(entries, known_files(stored));
    lemma_none_gone(stored, stored.len() as int, entries);
}

proof fn lemma_none_gone(stored: Seq<Stored>, n: int, entries: Seq<Entry>)
    requires
        0 <= n <= stored.len(),
        forall|i: int|
            0 <= i < stored.len() ==> seen_paths(entries).contains((#[trigger] stored[i]).path),
    ensures
        gone_files(stored, n, known_files(stored), entries).len() == 0,
    decreases n,
{
    if n > 0 {
        lemma_none_gone(stored, n - 1, entries);
    }
}

/// Whether a file was read as a text whose digest the index does not know for it.
pub open spec fn reads_anew(
    outcome: ReadOutcome,
    entry: Entry,
    known: Map<Seq<char>, Stored>,
) -> bool {
    outcome matches ReadOutcome::Content { hash, is_binary, .. } && !is_binary && !(entry.category
        is Binary) && !(known.contains_key(entry.rel_path) && known[entry.rel_path].content_hash
        == hash@)
}

/// A pass over files that all have another size or time, and another content, than the index
/// knows skips none of them: each is read and each is written.
pub proof fn law_changed_files_are_all_written(
    entries: Seq<Entry>,
    outcomes: Seq<ReadOutcome>,
    known: Map<Seq<char>, Stored>,
)
    requires
        entries.len() <= usize::MAX,
        forall|i: int| 0 <= i < entries.len() ==> !unchanged(#[trigger] entries[i], known),
        outcomes.len() == entries.len(),
        forall|i: int|
            0 <= i < entries.len() ==> reads_anew(outcomes[i], #[trigger] entries[i], known),
    ensures
        ({
            let to_read = reads(entries, entries.len() as int, known, false);
            let s = sorted(entries, to_read, outcomes, outcomes.len() as int, known, false);
            &&& to_read.len() == entries.len()
            &&& s.chosen.len() == entries.len()
            &&& s.updates.len() == 0
            &&& s.errors.len() == 0
        }),
{
    lemma_all_read(entries, entries.len() as int, known);
    let to_read = reads(entries, entries.len() as int, known, false);
    lemma_all_chosen(entries, to_read, outcomes, outcomes.len() as int, known);
}

proof fn lemma_all_read(entries: Seq<Entry>, n: int, known: Map<Seq<char>, Stored>)
    requires
        0 <= n <= entries.len() <= usize::MAX,
        forall|i: int| 0 <= i < entries.len() ==> !unchanged(#[trigger] entries[i], known),
    ensures
        reads(entries, n, known, false).len() == n,
        forall|i: int| 0 <= i < n ==> #[trigger] reads(entries, n, known, false)[i] == i,
    decreases n,
{
    if n > 0 {
        lemma_all_read(entries, n - 1, known);
        assert(!unchanged(entries[n - 1], known));
        let before = reads(entries, n - 1, known, false);
        let all = reads(entries, n, known, false);
        assert forall|i: int| 0 <= i < n implies #[trigger] all[i] == i by {
            if i < n - 1 {
                assert(all[i] == before[i]);
            }
        }
    }
}

proof fn lemma_all_chosen(
    entries: Seq<Entry>,
    to_read: Seq<usize>,
    outcomes: Seq<ReadOutcome>,
    n: int,
    known: Map<Seq<char>, Stored>,
)
    requires
        0 <= n <= entries.len(),
        to_read.len() == entries.len(),
        forall|i: int| 0 <= i < entries.len() ==> #[trigger] to_read[i] == i,
        forall|i: int|
            0 <= i < entries.len() ==> reads_anew(outcomes[i], #[trigger] entries[i], known),
    ensures
        ({
            let s = sorted(entries, to_read, outcomes, n, known, false);
            &&& s.chosen.len() == n
            &&& s.updates.len() == 0
            &&& s.errors.len() == 0
            &&& forall|i: int|
                0 <= i < n ==> (#[trigger] s.chosen[i]).rel_path == entries[i].rel_path
        }),
    decreases n,
{
    if n > 0 {
        lemma_all_chosen(entries, to_read, outcomes, n - 1, known);
        assert(to_read[n - 1] == n - 1);
        assert(reads_anew(outcomes[n - 1], entries[n - 1], known));
        let before = sorted(entries, to_read, outcomes, n - 1, known, false);
        let s = sorted(entries, to_read, outcomes, n, known, false);
        assert forall|i: int| 0 <= i < n implies (#[trigger] s.chosen[i]).rel_path
            == entries[i].rel_path by {
            if i < n - 1 {
                assert(s.chosen[i] == before.chosen[i]);
            }
        }
    }
}

impl Tables {
    /// The tables of a new index.
    pub open spec fn empty() -> Tables {
        Tables {
            functions: Seq::empty(),
            classes: Seq::empty(),
            imports: Seq::empty(),
            calls: Seq::empty(),
            variables: Seq::empty(),
            texts: Seq::empty(),
            contents: Map::empty(),
        }
    }

    /// Whether all rows are those of the files with the given numbers.
    pub open spec fn rows_belong(self, numbers: Set<i64>) -> bool {
        &&& belong(self.functions, numbers)
        &&& belong(self.classes, numbers)
        &&& belong(self.imports, numbers)
        &&& belong(self.calls, numbers)
        &&& belong(self.variables, numbers)
        &&& belong(self.texts, numbers)
    }

    /// How many rows the tables have.
    pub open spec fn counts(self) -> RowCounts {
        RowCounts {
            functions: self.functions.len(),
            classes: self.classes.len(),
            imports: self.imports.len(),
            calls: self.calls.len(),
            variables: self.variables.len(),
            texts: self.texts.len(),
        }
    }
}

/// Numbers of rows.
pub struct RowCounts {
    pub functions: nat,
    pub classes: nat,
    pub imports: nat,
    pub calls: nat,
    pub variables: nat,
    pub texts: nat,
}

/// Whether all rows of a table are those of the files with the given numbers.
pub open spec fn belong<F>(table: Seq<Row<F>>, numbers: Set<i64>) -> bool {
    forall|i: int| 0 <= i < table.len() ==> numbers.contains((#[trigger] table[i]).file_id)
}

/// The numbers of the files that the index knows.
pub open spec fn known_numbers(known: Map<Seq<char>, Stored>) -> Set<i64> {
    Set::new(
        |k: i64| exists|p: Seq<char>| #[trigger] known.contains_key(p) && known[p].id == k,
    )
}

/// Whether the files that are written have their numbers: those that the index knows have the
/// numbers that it knows, and the others have numbers that no row has.
pub open spec fn are_numbered(
    files: Seq<(i64, NewFile)>,
    entries: Seq<Entry>,
    known: Map<Seq<char>, Stored>,
    t: Tables,
) -> bool {
    &&& files.len() == entries.len()
    &&& distinct_numbers(files)
    &&& forall|i: int|
        #![trigger files[i]]
        0 <= i < files.len() ==> if known.contains_key(entries[i].rel_path) {
            files[i].0 == known[entries[i].rel_path].id
        } else {
            t.of(files[i].0).facts == Facts::none() && t.of(files[i].0).texts.len() == 0
        }
}

proof fn lemma_all_rows_go<F>(table: Seq<Row<F>>, numbers: Set<i64>)
    requires
        belong(table, numbers),
    ensures
        rows_without(table, numbers).len() == 0,
    decreases table.len(),
{
    if table.len() > 0 {
        let rest = table.drop_last();
        assert(numbers.contains(table[table.len() - 1].file_id));
        assert forall|i: int| 0 <= i < rest.len() implies numbers.contains(
            (#[trigger] rest[i]).file_id,
        ) by {
            assert(rest[i] == table[i]);
        }
        lemma_all_rows_go(rest, numbers);
    }
}

proof fn lemma_no_rows_left(t: Tables, numbers: Set<i64>)
    requires
        t.rows_belong(numbers),
    ensures
        t.without_files(numbers).counts() == Tables::empty().counts(),
{
    lemma_all_rows_go(t.functions, numbers);
    lemma_all_rows_go(t.classes, numbers);
    lemma_all_rows_go(t.imports, numbers);
    lemma_all_rows_go(t.calls, numbers);
    lemma_all_rows_go(t.variables, numbers);
    lemma_all_rows_go(t.texts, numbers);
}

/// How many rows there are after a file was written without deleting anything depends on the
/// file alone, besides how many there were.
proof fn lemma_same_growth(a: Tables, b: Tables, i: i64, j: i64, file: NewFile, limit: usize)
    requires
        a.counts() == b.counts(),
    ensures
        a.after_all(file.steps(i, true, limit)).counts() == b.after_all(
            file.steps(j, true, limit),
        ).counts(),
{
    reveal_with_fuel(Tables::after_steps, 8);
    match file {
        NewFile::Code { facts, text, content } => {
            lemma_code_growth(a, i, facts, text, content, limit);
            lemma_code_growth(b, j, facts, text, content, limit);
        },
        NewFile::Text(s) => {
            assert(file.steps(i, true, limit) =~= seq![
                Op::InsertTextFile(Row { id: None, file_id: i, fact: s }),
            ]);
            assert(file.steps(j, true, limit) =~= seq![
                Op::InsertTextFile(Row { id: None, file_id: j, fact: s }),
            ]);
        },
    }
}

proof fn lemma_code_growth(
    t: Tables,
    id: i64,
    facts: Facts,
    text: Option<Seq<char>>,
    content: Content,
    limit: usize,
)
    ensures
        ({
            let n = t.after_all(code_ops(id, facts, true, text, content, limit));
            n.counts() == (RowCounts {
                functions: t.functions.len() + facts.functions.len(),
                classes: t.classes.len() + facts.classes.len(),
                imports: t.imports.len() + facts.imports.len(),
                calls: t.calls.len() + facts.calls.len(),
                variables: t.variables.len() + facts.variables.len(),
                texts: t.texts.len() + if text is Some {
                    1nat
                } else {
                    0nat
                },
            })
        }),
{
    let d = delete_ops(id, true, text is Some);
    let f = fact_ops(id, facts);
    let x = text_ops(id, text, content);
    let c = content_ops(id, content, limit);
    lemma_all_join(t, d + f + x, c);
    lemma_all_join(t, d + f, x);
    lemma_all_join(t, d, f);
    reveal_with_fuel(Tables::after_steps, 6);
    let t1 = t.after_all(d);
    assert(t1 == t);
    let t2 = t1.after_all(f);
    assert(t2.functions == t.functions + rows(id, facts.functions));
    assert(t2.classes == t.classes + rows(id, facts.classes));
    assert(t2.imports == t.imports + rows(id, facts.imports));
    assert(t2.calls == t.calls + rows(id, facts.calls));
    assert(t2.variables == t.variables + rows(id, facts.variables));
    assert(t2.texts == t.texts);
    let t3 = t2.after_all(x);
    assert(t3.counts() == RowCounts { texts: t3.texts.len(), ..t2.counts() });
    assert(t3.after_all(c).counts() == t3.counts());
}

proof fn lemma_same_counts(
    a: Tables,
    b: Tables,
    files: Seq<(i64, NewFile)>,
    others: Seq<(i64, NewFile)>,
    n: int,
    limit: usize,
)
    requires
        a.counts() == b.counts(),
        files.len() == others.len(),
        0 <= n <= files.len(),
        forall|i: int| 0 <= i < files.len() ==> (#[trigger] files[i]).1 == others[i].1,
    ensures
        written_tables(a, files, n, true, limit).counts() == written_tables(
            b,
            others,
            n,
            true,
            limit,
        ).counts(),
    decreases n,
{
    if n > 0 {
        lemma_same_counts(a, b, files, others, n - 1, limit);
        assert(files[n - 1].1 == others[n - 1].1);
        lemma_same_growth(
            written_tables(a, files, n - 1, true, limit),
            written_tables(b, others, n - 1, true, limit),
            files[n - 1].0,
            others[n - 1].0,
            files[n - 1].1,
            limit,
        );
    }
}

/// A pass that finds every file of an index changed, and more of them than the threshold, makes
/// of the index what a pass over the same files makes of a new one. No file is skipped, none is
/// gone, and after it the tables have as many rows as those of the new index and say the same of
/// each file: nothing is left from before, and nothing is there twice.
pub proof fn law_updated_index_is_as_a_new_one(
    stored: Seq<Stored>,
    t: Tables,
    entries: Seq<Entry>,
    outcomes: Seq<ReadOutcome>,
    plan: ReindexPlan,
    files: Seq<(i64, NewFile)>,
    new_plan: ReindexPlan,
    new_files: Seq<(i64, NewFile)>,
    limit: usize,
)
    requires
        stored.len() <= usize::MAX,
        entries.len() <= usize::MAX,
        t.rows_belong(known_numbers(known_files(stored))),
        forall|i: int|
            0 <= i < stored.len() ==> seen_paths(entries).contains((#[trigger] stored[i]).path),
        forall|i: int|
            0 <= i < entries.len() ==> !unchanged(#[trigger] entries[i], known_files(stored)),
        outcomes.len() == entries.len(),
        forall|i: int|
            0 <= i < entries.len() ==> reads_anew(
                outcomes[i],
                #[trigger] entries[i],
                known_files(stored),
            ),
        plan.candidates == entries.len(),
        plan.bulk(),
        plan.fresh == (stored.len() == 0),
        are_numbered(files, entries, known_files(stored), t),
        new_plan.skips_deletes(),
        new_plan.fresh,
        are_numbered(new_files, entries, Map::empty(), Tables::empty()),
        forall|i: int| 0 <= i < files.len() ==> (#[trigger] files[i]).1 == new_files[i].1,
    ensures
        ({
            let known = known_files(stored);
            let to_read = reads(entries, entries.len() as int, known, false);
            let s = sorted(entries, to_read, outcomes, outcomes.len() as int, known, false);
            let gone = gone_files(stored, stored.len() as int, known, entries);
            let victims = known_ids(s.chosen, s.chosen.len() as int, known);
            let updated = pass_tables(t, plan, victims, files, limit);
            let new = pass_tables(Tables::empty(), new_plan, Seq::empty(), new_files, limit);
            &&& s.chosen.len() == entries.len()
            &&& entries.len() - to_read.len() + s.updates.len() == 0
            &&& s.errors.len() == 0
            &&& gone.len() == 0
            &&& updated.counts() == new.counts()
            &&& forall|i: int|
                #![trigger files[i]]
                0 <= i < files.len() ==> {
                    &&& updated.of(files[i].0).facts == new.of(new_files[i].0).facts
                    &&& updated.of(files[i].0).texts == new.of(new_files[i].0).texts
                }
        }),
{
    let known = known_files(stored);
    let to_read = reads(entries, entries.len() as int, known, false);
    let s = sorted(entries, to_read, outcomes, outcomes.len() as int, known, false);
    law_changed_files_are_all_written(entries, outcomes, known);
    lemma_all_read(entries, entries.len() as int, known);
    lemma_all_chosen(entries, to_read, outcomes, outcomes.len() as int, known);
    lemma_none_gone(stored, stored.len() as int, entries);
    let victims = known_ids(s.chosen, s.chosen.len() as int, known);
    let n = s.chosen.len() as int;
    assert forall|k: i64| known_numbers(known).contains(k) implies victims.to_set().contains(k) by {
        let p = choose|p: Seq<char>| #[trigger] known.contains_key(p) && known[p].id == k;
        lemma_known_files(stored, p);
        assert(seen_paths(entries).contains(p));
        let i = choose|i: int| 0 <= i < entries.len() && entries[i].rel_path == p;
        assert(s.chosen[i].rel_path == p);
        lemma_known_id(s.chosen, n, known, i);
    }
    let start = if plan.fresh {
        t
    } else {
        t.without_files(victims.to_set())
    };
    if plan.fresh {
        assert forall|p: Seq<char>| !(#[trigger] known.contains_key(p)) by {
            if known.contains_key(p) {
                lemma_known_files(stored, p);
            }
        }
        assert(known =~= Map::<Seq<char>, Stored>::empty());
        assert(known_numbers(known) =~= Set::<i64>::empty());
        lemma_rows_of_none(t);
    } else {
        lemma_no_rows_left(t, victims.to_set());
    }
    assert(start.counts() == Tables::empty().counts());
    lemma_same_counts(start, Tables::empty(), files, new_files, files.len() as int, limit);
    assert forall|i: int|
        #![trigger files[i]]
        0 <= i < files.len() implies start.of(files[i].0).facts == Facts::none() && start.of(
        files[i].0,
    ).texts.len() == 0 by {
        lemma_nothing_of(start, files[i].0);
    }
    assert forall|i: int|
        #![trigger new_files[i]]
        0 <= i < new_files.len() implies Tables::empty().of(new_files[i].0).facts == Facts::none()
        && Tables::empty().of(new_files[i].0).texts.len() == 0 by {
        lemma_nothing_of(Tables::empty(), new_files[i].0);
    }
    lemma_written_tables(start, files, files.len() as int, limit, 0);
    lemma_written_tables(Tables::empty(), new_files, new_files.len() as int, limit, 0);
    assert forall|i: int| #![trigger files[i]] 0 <= i < files.len() implies files[i].1
        == new_files[i].1 by {}
}

proof fn lemma_nothing_of(t: Tables, k: i64)
    requires
        t.counts() == Tables::empty().counts(),
    ensures
        t.of(k).facts == Facts::none(),
        t.of(k).texts.len() == 0,
{
    assert(t.of(k).facts =~= Facts::none());
}

proof fn lemma_rows_of_none(t: Tables)
    requires
        t.rows_belong(Set::empty()),
    ensures
        t.counts() == Tables::empty().counts(),
{
    if t.functions.len() > 0 {
        assert(Set::<i64>::empty().contains(t.functions[0].file_id));
    }
    if t.classes.len() > 0 {
        assert(Set::<i64>::empty().contains(t.classes[0].file_id));
    }
    if t.imports.len() > 0 {
        assert(Set::<i64>::empty().contains(t.imports[0].file_id));
    }
    if t.calls.len() > 0 {
        assert(Set::<i64>::empty().contains(t.calls[0].file_id));
    }
    if t.variables.len() > 0 {
        assert(Set::<i64>::empty().contains(t.variables[0].file_id));
    }
    if t.texts.len() > 0 {
        assert(Set::<i64>::empty().contains(t.texts[0].file_id));
    }
}

} // verus!
