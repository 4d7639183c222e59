//! The rows of the index, and the steps that write one file to it.

use crate::parser::types::{
    opt_text, CallFact, ClassFact, Facts, FunctionFact, ImportFact, ParseResult, ParsedCall,
    ParsedClass, ParsedFunction, ParsedImport, ParsedVariable, VariableFact,
};
use vstd::prelude::*;

verus! {

/// The row of a file.
#[derive(Debug, Clone)]
pub struct FileRecord {
    pub id: Option<i64>,
    pub path: String,
    pub content_hash: String,
    pub language: String,
    pub lines_total: usize,
    pub indexed_at: String,
    pub mtime: Option<i64>,
    pub file_size: Option<i64>,
}

/// The row of a function.
#[derive(Debug, Clone)]
pub struct FunctionRecord {
    pub id: Option<i64>,
    pub file_id: i64,
    pub name: String,
    pub qualified_name: Option<String>,
    pub line_start: usize,
    pub line_end: usize,
    pub args: Option<String>,
    pub return_type: Option<String>,
    pub docstring: Option<String>,
    pub body: String,
    pub is_async: bool,
    pub node_hash: String,
    pub override_type: Option<String>,
    pub override_target: Option<String>,
}

/// The row of a class.
#[derive(Debug, Clone)]
pub struct ClassRecord {
    pub id: Option<i64>,
    pub file_id: i64,
    pub name: String,
    pub line_start: usize,
    pub line_end: usize,
    pub bases: Option<String>,
    pub docstring: Option<String>,
    pub body: String,
    pub node_hash: String,
}

/// The row of an import.
#[derive(Debug, Clone)]
pub struct ImportRecord {
    pub id: Option<i64>,
    pub file_id: i64,
    pub module: Option<String>,
    pub name: Option<String>,
    pub alias: Option<String>,
    pub line: usize,
    pub kind: String,
}

/// The row of a call.
#[derive(Debug, Clone)]
pub struct CallRecord {
    pub id: Option<i64>,
    pub file_id: i64,
    pub caller: String,
    pub callee: String,
    pub line: usize,
}

/// The row of a variable.
#[derive(Debug, Clone)]
pub struct VariableRecord {
    pub id: Option<i64>,
    pub file_id: i64,
    pub name: String,
    pub value: Option<String>,
    pub line: usize,
}

/// The row of a text.
#[derive(Debug, Clone)]
pub struct TextFileRecord {
    pub id: Option<i64>,
    pub file_id: i64,
    pub content: String,
}

/// A row of something that was found in a file: its own number, that of the file, and what was
/// found.
#[verifier::ext_equal]
pub struct Row<F> {
    pub id: Option<i64>,
    pub file_id: i64,
    pub fact: F,
}

impl View for FunctionRecord {
    type V = Row<FunctionFact>;

    open spec fn view(&self) -> Row<FunctionFact> {
        Row {
            id: self.id,
            file_id: self.file_id,
            fact: FunctionFact {
                name: self.name@,
                qualified_name: opt_text(self.qualified_name),
                line_start: self.line_start as nat,
                line_end: self.line_end as nat,
                args: opt_text(self.args),
                return_type: opt_text(self.return_type),
                docstring: opt_text(self.docstring),
                body: self.body@,
                is_async: self.is_async,
                node_hash: self.node_hash@,
                override_type: opt_text(self.override_type),
                override_target: opt_text(self.override_target),
            },
        }
    }
}

impl View for ClassRecord {
    type V = Row<ClassFact>;

    open spec fn view(&self) -> Row<ClassFact> {
        Row {
            id: self.id,
            file_id: self.file_id,
            fact: ClassFact {
                name: self.name@,
                line_start: self.line_start as nat,
                line_end: self.line_end as nat,
                bases: opt_text(self.bases),
                docstring: opt_text(self.docstring),
                body: self.body@,
                node_hash: self.node_hash@,
            },
        }
    }
}

impl View for ImportRecord {
    type V = Row<ImportFact>;

    open spec fn view(&self) -> Row<ImportFact> {
        Row {
            id: self.id,
            file_id: self.file_id,
            fact: ImportFact {
                module: opt_text(self.module),
                name: opt_text(self.name),
                alias: opt_text(self.alias),
                line: self.line as nat,
                kind: self.kind@,
            },
        }
    }
}

impl View for CallRecord {
    type V = Row<CallFact>;

    open spec fn view(&self) -> Row<CallFact> {
        Row {
            id: self.id,
            file_id: self.file_id,
            fact: CallFact {
                caller: self.caller@,
                callee: self.callee@,
                line: self.line as nat,
            },
        }
    }
}

impl View for VariableRecord {
    type V = Row<VariableFact>;

    open spec fn view(&self) -> Row<VariableFact> {
        Row {
            id: self.id,
            file_id: self.file_id,
            fact: VariableFact {
                name: self.name@,
                value: opt_text(self.value),
                line: self.line as nat,
            },
        }
    }
}

/// New rows of a file, one for each fact.
pub open spec fn rows<F>(file_id: i64, facts: Seq<F>) -> Seq<Row<F>> {
    Seq::new(facts.len(), |i: int| Row { id: None, file_id, fact: facts[i] })
}

/// What is stored as the content of a file.
#[derive(Debug)]
pub enum ContentInput<'a> {
    /// A text, which is compressed when it is stored.
    Raw(&'a str),
    /// A text that was compressed before.
    Blob(&'a [u8]),
    /// That the file is over the limit.
    Oversize,
    /// No content.
    Nothing,
}

/// What is stored as the content of a file, as a mathematical value.
#[verifier::ext_equal]
pub enum Content {
    Raw(Seq<char>),
    Blob(Seq<u8>),
    Oversize,
    Nothing,
}

impl<'a> View for ContentInput<'a> {
    type V = Content;

    open spec fn view(&self) -> Content {
        match self {
            ContentInput::Raw(s) => Content::Raw(s@),
            ContentInput::Blob(b) => Content::Blob(b@),
            ContentInput::Oversize => Content::Oversize,
            ContentInput::Nothing => Content::Nothing,
        }
    }
}

/// One step of writing a file to the index.
#[derive(Debug, Clone)]
pub enum StoreOp {
    DeleteFunctions(i64),
    DeleteClasses(i64),
    DeleteImports(i64),
    DeleteCalls(i64),
    DeleteVariables(i64),
    DeleteTextFile(i64),
    InsertFunctions(Vec<FunctionRecord>),
    InsertClasses(Vec<ClassRecord>),
    InsertImports(Vec<ImportRecord>),
    InsertCalls(Vec<CallRecord>),
    InsertVariables(Vec<VariableRecord>),
    /// Stores a compressed text, and makes it searchable.
    InsertTextFileBlob { file_id: i64, blob: Vec<u8>, text: String },
    InsertTextFile(TextFileRecord),
    /// Compresses and stores a content, unless it is over the limit.
    UpsertContent { file_id: i64, content: String, limit: usize },
    /// Stores a compressed content, or that there is none.
    UpsertContentBlob { file_id: i64, stored: Option<Vec<u8>> },
}

/// One step of writing a file to the index, as a mathematical value.
#[verifier::ext_equal]
pub enum Op {
    DeleteFunctions(i64),
    DeleteClasses(i64),
    DeleteImports(i64),
    DeleteCalls(i64),
    DeleteVariables(i64),
    DeleteTextFile(i64),
    InsertFunctions(Seq<Row<FunctionFact>>),
    InsertClasses(Seq<Row<ClassFact>>),
    InsertImports(Seq<Row<ImportFact>>),
    InsertCalls(Seq<Row<CallFact>>),
    InsertVariables(Seq<Row<VariableFact>>),
    InsertTextFileBlob(i64, Seq<u8>, Seq<char>),
    InsertTextFile(Row<Seq<char>>),
    UpsertContent(i64, Seq<char>, usize),
    UpsertContentBlob(i64, Option<Seq<u8>>),
}

impl View for StoreOp {
    type V = Op;

    open spec fn view(&self) -> Op {
        match self {
            StoreOp::DeleteFunctions(id) => Op::DeleteFunctions(*id),
            StoreOp::DeleteClasses(id) => Op::DeleteClasses(*id),
            StoreOp::DeleteImports(id) => Op::DeleteImports(*id),
            StoreOp::DeleteCalls(id) => Op::DeleteCalls(*id),
            StoreOp::DeleteVariables(id) => Op::DeleteVariables(*id),
            StoreOp::DeleteTextFile(id) => Op::DeleteTextFile(*id),
            StoreOp::InsertFunctions(v) => Op::InsertFunctions(
                v@.map_values(|r: FunctionRecord| r@),
            ),
            StoreOp::InsertClasses(v) => Op::InsertClasses(v@.map_values(|r: ClassRecord| r@)),
            StoreOp::InsertImports(v) => Op::InsertImports(v@.map_values(|r: ImportRecord| r@)),
            StoreOp::InsertCalls(v) => Op::InsertCalls(v@.map_values(|r: CallRecord| r@)),
            StoreOp::InsertVariables(v) => Op::InsertVariables(
                v@.map_values(|r: VariableRecord| r@),
            ),
            StoreOp::InsertTextFileBlob { file_id, blob, text } => Op::InsertTextFileBlob(
                *file_id,
                blob@,
                text@,
            ),
            StoreOp::InsertTextFile(t) => Op::InsertTextFile(
                Row { id: t.id, file_id: t.file_id, fact: t.content@ },
            ),
            StoreOp::UpsertContent { file_id, content, limit } => Op::UpsertContent(
                *file_id,
                content@,
                *limit,
            ),
            StoreOp::UpsertContentBlob { file_id, stored } => Op::UpsertContentBlob(
                *file_id,
                match stored {
                    Some(b) => Some(b@),
                    None => None,
                },
            ),
        }
    }
}

/// The steps as mathematical values.
pub open spec fn ops(v: Seq<StoreOp>) -> Seq<Op> {
    v.map_values(|op: StoreOp| op@)
}

/// The steps that take away what is known of a file.
pub open spec fn delete_ops(file_id: i64, skip_delete: bool, with_text: bool) -> Seq<Op> {
    if skip_delete {
        Seq::empty()
    } else {
        seq![
            Op::DeleteFunctions(file_id),
            Op::DeleteClasses(file_id),
            Op::DeleteImports(file_id),
            Op::DeleteCalls(file_id),
            Op::DeleteVariables(file_id),
        ] + (if with_text {
            seq![Op::DeleteTextFile(file_id)]
        } else {
            Seq::empty()
        })
    }
}

/// The steps that write what was found in a file.
pub open spec fn fact_ops(file_id: i64, facts: Facts) -> Seq<Op> {
    seq![
        Op::InsertFunctions(rows(file_id, facts.functions)),
        Op::InsertClasses(rows(file_id, facts.classes)),
        Op::InsertImports(rows(file_id, facts.imports)),
        Op::InsertCalls(rows(file_id, facts.calls)),
        Op::InsertVariables(rows(file_id, facts.variables)),
    ]
}

/// The step that stores code as text, too. A content that was compressed before is not
/// compressed again.
pub open spec fn text_ops(file_id: i64, text: Option<Seq<char>>, content: Content) -> Seq<Op> {
    match text {
        Some(t) => match content {
            Content::Blob(b) => seq![Op::InsertTextFileBlob(file_id, b, t)],
            _ => seq![Op::InsertTextFile(Row { id: None, file_id, fact: t })],
        },
        None => Seq::empty(),
    }
}

/// The step that stores the content.
pub open spec fn content_ops(file_id: i64, content: Content, limit: usize) -> Seq<Op> {
    match content {
        Content::Raw(raw) => seq![Op::UpsertContent(file_id, raw, limit)],
        Content::Blob(b) => seq![Op::UpsertContentBlob(file_id, Some(b))],
        Content::Oversize => seq![Op::UpsertContentBlob(file_id, None)],
        Content::Nothing => Seq::empty(),
    }
}

/// The steps that write code: what is known of the file goes first, then what was found in it,
/// then its text, then its content.
pub open spec fn code_ops(
    file_id: i64,
    facts: Facts,
    skip_delete: bool,
    text: Option<Seq<char>>,
    content: Content,
    limit: usize,
) -> Seq<Op> {
    delete_ops(file_id, skip_delete, text is Some) + fact_ops(file_id, facts) + text_ops(
        file_id,
        text,
        content,
    ) + content_ops(file_id, content, limit)
}

/// The steps that write a text: what is known of it goes first.
pub open spec fn text_file_ops(file_id: i64, skip_delete: bool, content: Seq<char>) -> Seq<Op> {
    (if skip_delete {
        Seq::empty()
    } else {
        seq![Op::DeleteTextFile(file_id)]
    }) + seq![Op::InsertTextFile(Row { id: None, file_id, fact: content })]
}

impl FileRecord {
    /// Whether this is a new row of a file.
    pub open spec fn is_new_row(
        &self,
        path: Seq<char>,
        content_hash: Seq<char>,
        language: Seq<char>,
        lines_total: usize,
        indexed_at: String,
        mtime: Option<i64>,
        file_size: Option<i64>,
    ) -> bool {
        &&& self.id is None
        &&& self.path@ == path
        &&& self.content_hash@ == content_hash
        &&& self.language@ == language
        &&& self.lines_total == lines_total
        &&& self.indexed_at == indexed_at
        &&& self.mtime == mtime
        &&& self.file_size == file_size
    }
}

fn opt_copy(o: &Option<String>) -> (r: Option<String>)
    ensures
        opt_text(r) == opt_text(*o),
{
    match o {
        Some(s) => Some(s.clone()),
        None => None,
    }
}

/// The new row of a file.
pub fn file_record(
    rel_path: &str,
    content_hash: &str,
    language: &str,
    lines_total: usize,
    indexed_at: String,
    mtime: Option<i64>,
    file_size: Option<i64>,
) -> (r: FileRecord)
    ensures
        r.is_new_row(
            rel_path@,
            content_hash@,
            language@,
            lines_total,
            indexed_at,
            mtime,
            file_size,
        ),
{
    FileRecord {
        id: None,
        path: rel_path.to_owned(),
        content_hash: content_hash.to_owned(),
        language: language.to_owned(),
        lines_total,
        indexed_at,
        mtime,
        file_size,
    }
}

fn function_records(file_id: i64, found: &Vec<ParsedFunction>) -> (r: Vec<FunctionRecord>)
    ensures
        r@.map_values(|x: FunctionRecord| x@) == rows(
            file_id,
            found@.map_values(|f: ParsedFunction| f@),
        ),
{
    let mut out: Vec<FunctionRecord> = Vec::new();
    let mut i: usize = 0;
    while i < found.len()
        invariant
            i <= found@.len(),
            out@.len() == i,
            forall|k: int|
                0 <= k < i ==> (#[trigger] out@[k])@ == (Row {
                    id: None,
                    file_id,
                    fact: found@[k]@,
                }),
        decreases found.len() - i,
    {
        let f = &found[i];
        out.push(
            FunctionRecord {
                id: None,
                file_id,
                name: f.name.clone(),
                qualified_name: opt_copy(&f.qualified_name),
                line_start: f.line_start,
                line_end: f.line_end,
                args: opt_copy(&f.args),
                return_type: opt_copy(&f.return_type),
                docstring: opt_copy(&f.docstring),
                body: f.body.clone(),
                is_async: f.is_async,
                node_hash: f.node_hash.clone(),
                override_type: opt_copy(&f.override_type),
                override_target: opt_copy(&f.override_target),
            },
        );
        i += 1;
    }
    out
}

fn class_records(file_id: i64, found: &Vec<ParsedClass>) -> (r: Vec<ClassRecord>)
    ensures
        r@.map_values(|x: ClassRecord| x@) == rows(
            file_id,
            found@.map_values(|c: ParsedClass| c@),
        ),
{
    let mut out: Vec<ClassRecord> = Vec::new();
    let mut i: usize = 0;
    while i < found.len()
        invariant
            i <= found@.len(),
            out@.len() == i,
            forall|k: int|
                0 <= k < i ==> (#[trigger] out@[k])@ == (Row {
                    id: None,
                    file_id,
                    fact: found@[k]@,
                }),
        decreases found.len() - i,
    {
        let c = &found[i];
        out.push(
            ClassRecord {
                id: None,
                file_id,
                name: c.name.clone(),
                line_start: c.line_start,
                line_end: c.line_end,
                bases: opt_copy(&c.bases),
                docstring: opt_copy(&c.docstring),
                body: c.body.clone(),
                node_hash: c.node_hash.clone(),
            },
        );
        i += 1;
    }
    out
}

fn import_records(file_id: i64, found: &Vec<ParsedImport>) -> (r: Vec<ImportRecord>)
    ensures
        r@.map_values(|x: ImportRecord| x@) == rows(
            file_id,
            found@.map_values(|m: ParsedImport| m@),
        ),
{
    let mut out: Vec<ImportRecord> = Vec::new();
    let mut i: usize = 0;
    while i < found.len()
        invariant
            i <= found@.len(),
            out@.len() == i,
            forall|k: int|
                0 <= k < i ==> (#[trigger] out@[k])@ == (Row {
                    id: None,
                    file_id,
                    fact: found@[k]@,
                }),
        decreases found.len() - i,
    {
        let m = &found[i];
        out.push(
            ImportRecord {
                id: None,
                file_id,
                module: opt_copy(&m.module),
                name: opt_copy(&m.name),
                alias: opt_copy(&m.alias),
                line: m.line,
                kind: m.kind.clone(),
            },
        );
        i += 1;
    }
    out
}

fn call_records(file_id: i64, found: &Vec<ParsedCall>) -> (r: Vec<CallRecord>)
    ensures
        r@.map_values(|x: CallRecord| x@) == rows(file_id, found@.map_values(|c: ParsedCall| c@)),
{
    let mut out: Vec<CallRecord> = Vec::new();
    let mut i: usize = 0;
    while i < found.len()
        invariant
            i <= found@.len(),
            out@.len() == i,
            forall|k: int|
                0 <= k < i ==> (#[trigger] out@[k])@ == (Row {
                    id: None,
                    file_id,
                    fact: found@[k]@,
                }),
        decreases found.len() - i,
    {
        let c = &found[i];
        out.push(
            CallRecord {
                id: None,
                file_id,
                caller: c.caller.clone(),
                callee: c.callee.clone(),
                line: c.line,
            },
        );
        i += 1;
    }
    out
}

fn variable_records(file_id: i64, found: &Vec<ParsedVariable>) -> (r: Vec<VariableRecord>)
    ensures
        r@.map_values(|x: VariableRecord| x@) == rows(
            file_id,
            found@.map_values(|v: ParsedVariable| v@),
        ),
{
    let mut out: Vec<VariableRecord> = Vec::new();
    let mut i: usize = 0;
    while i < found.len()
        invariant
            i <= found@.len(),
            out@.len() == i,
            forall|k: int|
                0 <= k < i ==> (#[trigger] out@[k])@ == (Row {
                    id: None,
                    file_id,
                    fact: found@[k]@,
                }),
        decreases found.len() - i,
    {
        let v = &found[i];
        out.push(
            VariableRecord {
                id: None,
                file_id,
                name: v.name.clone(),
                value: opt_copy(&v.value),
                line: v.line,
            },
        );
        i += 1;
    }
    out
}

fn bytes_of(b: &[u8]) -> (r: Vec<u8>)
    ensures
        r@ == b@,
{
    let mut v: Vec<u8> = Vec::new();
    v.extend_from_slice(b);
    v
}

/// The steps that write code to the index, once its file has a number.
pub fn write_code_ops(
    file_id: i64,
    parse_result: &ParseResult,
    skip_delete: bool,
    text_for_fts: Option<&str>,
    content: ContentInput<'_>,
    max_code_file_size_bytes: usize,
) -> (r: Vec<StoreOp>)
    ensures
        ops(r@) == code_ops(
            file_id,
            parse_result.facts(),
            skip_delete,
            match text_for_fts {
                Some(t) => Some(t@),
                None => None,
            },
            content@,
            max_code_file_size_bytes,
        ),
{
    let mut out: Vec<StoreOp> = Vec::new();
    if !skip_delete {
        out.push(StoreOp::DeleteFunctions(file_id));
        out.push(StoreOp::DeleteClasses(file_id));
        out.push(StoreOp::DeleteImports(file_id));
        out.push(StoreOp::DeleteCalls(file_id));
        out.push(StoreOp::DeleteVariables(file_id));
        if text_for_fts.is_some() {
            out.push(StoreOp::DeleteTextFile(file_id));
        }
    }
    assert(ops(out@) =~= delete_ops(file_id, skip_delete, text_for_fts is Some));
    out.push(StoreOp::InsertFunctions(function_records(file_id, &parse_result.functions)));
    out.push(StoreOp::InsertClasses(class_records(file_id, &parse_result.classes)));
    out.push(StoreOp::InsertImports(import_records(file_id, &parse_result.imports)));
    out.push(StoreOp::InsertCalls(call_records(file_id, &parse_result.calls)));
    out.push(StoreOp::InsertVariables(variable_records(file_id, &parse_result.variables)));
    let ghost facts_done = delete_ops(file_id, skip_delete, text_for_fts is Some) + fact_ops(
        file_id,
        parse_result.facts(),
    );
    assert(ops(out@) =~= facts_done);
    if let Some(text) = text_for_fts {
        match &content {
            ContentInput::Blob(b) => {
                out.push(
                    StoreOp::InsertTextFileBlob {
                        file_id,
                        blob: bytes_of(b),
                        text: text.to_owned(),
                    },
                );
            },
            _ => {
                out.push(
                    StoreOp::InsertTextFile(
                        TextFileRecord { id: None, file_id, content: text.to_owned() },
                    ),
                );
            },
        }
    }
    let ghost text_done = facts_done + text_ops(
        file_id,
        match text_for_fts {
            Some(t) => Some(t@),
            None => None,
        },
        content@,
    );
    assert(ops(out@) =~= text_done);
    match content {
        ContentInput::Raw(raw) => {
            out.push(
                StoreOp::UpsertContent {
                    file_id,
                    content: raw.to_owned(),
                    limit: max_code_file_size_bytes,
                },
            );
        },
        ContentInput::Blob(b) => {
            out.push(StoreOp::UpsertContentBlob { file_id, stored: Some(bytes_of(b)) });
        },
        ContentInput::Oversize => {
            out.push(StoreOp::UpsertContentBlob { file_id, stored: None });
        },
        ContentInput::Nothing => {},
    }
    assert(ops(out@) =~= text_done + content_ops(file_id, content@, max_code_file_size_bytes));
    out
}

/// The steps that write a text to the index, once its file has a number.
pub fn write_text_ops(file_id: i64, content: &str, skip_delete: bool) -> (r: Vec<StoreOp>)
    ensures
        ops(r@) == text_file_ops(file_id, skip_delete, content@),
{
    let mut out: Vec<StoreOp> = Vec::new();
    if !skip_delete {
        out.push(StoreOp::DeleteTextFile(file_id));
    }
    out.push(
        StoreOp::InsertTextFile(TextFileRecord { id: None, file_id, content: content.to_owned() }),
    );
    assert(ops(out@) =~= text_file_ops(file_id, skip_delete, content@));
    out
}

/// Whether a step takes something away.
pub open spec fn is_delete(op: Op) -> bool {
    op is DeleteFunctions || op is DeleteClasses || op is DeleteImports || op is DeleteCalls
        || op is DeleteVariables || op is DeleteTextFile
}

/// What is known of a file is taken away before anything new is written of it, so that writing
/// it again leaves nothing double.
pub proof fn law_deletes_come_first(
    file_id: i64,
    facts: Facts,
    skip_delete: bool,
    text: Option<Seq<char>>,
    content: Content,
    limit: usize,
)
    ensures
        ({
            let steps = code_ops(file_id, facts, skip_delete, text, content, limit);
            &&& forall|i: int, j: int|
                0 <= i < j < steps.len() && is_delete(#[trigger] steps[j]) ==> is_delete(
                    #[trigger] steps[i],
                )
            &&& skip_delete ==> forall|i: int|
                0 <= i < steps.len() ==> !is_delete(#[trigger] steps[i])
        }),
{
    let d = delete_ops(file_id, skip_delete, text is Some);
    let steps = code_ops(file_id, facts, skip_delete, text, content, limit);
    assert forall|i: int| 0 <= i < steps.len() implies is_delete(#[trigger] steps[i]) == (i
        < d.len()) by {
        if i < d.len() {
            assert(steps[i] == d[i]);
        }
    }
}

/// What was found in a file is written, each fact as one row of the file, in order.
pub proof fn law_every_fact_gets_a_row(
    file_id: i64,
    facts: Facts,
    skip_delete: bool,
    text: Option<Seq<char>>,
    content: Content,
    limit: usize,
)
    ensures
        ({
            let steps = code_ops(file_id, facts, skip_delete, text, content, limit);
            &&& exists|i: int|
                0 <= i < steps.len() && (#[trigger] steps[i] matches Op::InsertFunctions(r)
                    && row_of_each(file_id, facts.functions, r))
            &&& exists|i: int|
                0 <= i < steps.len() && (#[trigger] steps[i] matches Op::InsertClasses(r)
                    && row_of_each(file_id, facts.classes, r))
            &&& exists|i: int|
                0 <= i < steps.len() && (#[trigger] steps[i] matches Op::InsertImports(r)
                    && row_of_each(file_id, facts.imports, r))
            &&& exists|i: int|
                0 <= i < steps.len() && (#[trigger] steps[i] matches Op::InsertCalls(r)
                    && row_of_each(file_id, facts.calls, r))
            &&& exists|i: int|
                0 <= i < steps.len() && (#[trigger] steps[i] matches Op::InsertVariables(r)
                    && row_of_each(file_id, facts.variables, r))
        }),
{
    let steps = code_ops(file_id, facts, skip_delete, text, content, limit);
    let d = delete_ops(file_id, skip_delete, text is Some).len() as int;
    assert(steps[d] == Op::InsertFunctions(rows(file_id, facts.functions)));
    assert(steps[d + 1] == Op::InsertClasses(rows(file_id, facts.classes)));
    assert(steps[d + 2] == Op::InsertImports(rows(file_id, facts.imports)));
    assert(steps[d + 3] == Op::InsertCalls(rows(file_id, facts.calls)));
    assert(steps[d + 4] == Op::InsertVariables(rows(file_id, facts.variables)));
}

/// Whether there is one new row of a file for each fact, in order.
pub open spec fn row_of_each<F>(file_id: i64, facts: Seq<F>, r: Seq<Row<F>>) -> bool {
    r.len() == facts.len() && forall|i: int|
        0 <= i < r.len() ==> (#[trigger] r[i]).id is None && r[i].file_id == file_id && r[i].fact
            == facts[i]
}

/// The content of a file is stored: as it was compressed, or as it is, to be compressed then; only
/// of a file over the limit it is noted that there is none. Its text is stored where there is one.
pub proof fn law_content_is_stored(
    file_id: i64,
    facts: Facts,
    skip_delete: bool,
    text: Option<Seq<char>>,
    content: Content,
    limit: usize,
)
    ensures
        ({
            let steps = code_ops(file_id, facts, skip_delete, text, content, limit);
            &&& content matches Content::Blob(b) ==> steps.contains(
                Op::UpsertContentBlob(file_id, Some(b)),
            )
            &&& content matches Content::Raw(raw) ==> steps.contains(
                Op::UpsertContent(file_id, raw, limit),
            )
            &&& content is Oversize ==> steps.contains(Op::UpsertContentBlob(file_id, None))
            &&& text matches Some(t) ==> if content is Blob {
                steps.contains(Op::InsertTextFileBlob(file_id, content->Blob_0, t))
            } else {
                steps.contains(Op::InsertTextFile(Row { id: None, file_id, fact: t }))
            }
        }),
{
    let steps = code_ops(file_id, facts, skip_delete, text, content, limit);
    let d = (delete_ops(file_id, skip_delete, text is Some) + fact_ops(file_id, facts)).len() as int;
    let t = text_ops(file_id, text, content);
    let c = content_ops(file_id, content, limit);
    if t.len() > 0 {
        assert(steps[d] == t[0]);
    }
    if c.len() > 0 {
        assert(steps[d + t.len()] == c[0]);
    }
}

/// Unless the rows went before, all that is known of a file is taken away before it is written.
pub proof fn law_old_rows_are_taken_away(
    file_id: i64,
    facts: Facts,
    text: Option<Seq<char>>,
    content: Content,
    limit: usize,
)
    ensures
        ({
            let steps = code_ops(file_id, facts, false, text, content, limit);
            &&& steps.contains(Op::DeleteFunctions(file_id))
            &&& steps.contains(Op::DeleteClasses(file_id))
            &&& steps.contains(Op::DeleteImports(file_id))
            &&& steps.contains(Op::DeleteCalls(file_id))
            &&& steps.contains(Op::DeleteVariables(file_id))
            &&& text is Some ==> steps.contains(Op::DeleteTextFile(file_id))
        }),
{
    let steps = code_ops(file_id, facts, false, text, content, limit);
    assert(steps[0] == Op::DeleteFunctions(file_id));
    assert(steps[1] == Op::DeleteClasses(file_id));
    assert(steps[2] == Op::DeleteImports(file_id));
    assert(steps[3] == Op::DeleteCalls(file_id));
    assert(steps[4] == Op::DeleteVariables(file_id));
    if text is Some {
        assert(steps[5] == Op::DeleteTextFile(file_id));
    }
}

/// A text is written as it is, and unless that went before, what was stored of it goes first.
pub proof fn law_text_is_stored(file_id: i64, skip_delete: bool, content: Seq<char>)
    ensures
        ({
            let steps = text_file_ops(file_id, skip_delete, content);
            &&& steps.last() == Op::InsertTextFile(Row { id: None, file_id, fact: content })
            &&& skip_delete ==> steps.len() == 1
            &&& !skip_delete ==> steps.len() == 2 && steps[0] == Op::DeleteTextFile(file_id)
        }),
{
}

} // verus!
