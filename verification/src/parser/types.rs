//! What a parser extracts from one file, and what the parsers share.

use crate::text::chars_of;
use vstd::prelude::*;
use vstd::string::*;
use vstd::utf8::*;

verus! {

/// The text inside an optional string.
pub open spec fn opt_text(o: Option<String>) -> Option<Seq<char>> {
    match o {
        Some(s) => Some(s@),
        None => None,
    }
}

/// The text inside an optional string slice.
pub open spec fn opt_str(o: Option<&str>) -> Option<Seq<char>> {
    match o {
        Some(s) => Some(s@),
        None => None,
    }
}

/// The SHA-256 digest of a byte string.
pub uninterp spec fn sha256_digest(data: Seq<u8>) -> Seq<u8>;

/// Calls `sha2::Sha256::digest`. Its result is a function of the bytes alone and
/// is 32 bytes long.
#[verifier::external_body]
pub(crate) fn sha256(data: &[u8]) -> (r: Vec<u8>)
    ensures
        r@ == sha256_digest(data@),
        r@.len() == 32,
{
    <sha2::Sha256 as sha2::Digest>::digest(data).to_vec()
}

/// The lowercase hexadecimal digit of a number below 16.
pub open spec fn hex_digit(n: int) -> char {
    if n < 10 {
        (48 + n) as char
    } else {
        (87 + n) as char
    }
}

/// Two lowercase hexadecimal digits for each byte, the high half first.
pub open spec fn hex_text(data: Seq<u8>) -> Seq<char> {
    Seq::new(
        2 * data.len(),
        |i: int|
            if i % 2 == 0 {
                hex_digit(data[i / 2] as int / 16)
            } else {
                hex_digit(data[i / 2] as int % 16)
            },
    )
}

/// Calls `hex::encode`, which writes two lowercase hexadecimal digits for each byte.
#[verifier::external_body]
pub(crate) fn hex_encode(data: &[u8]) -> (r: String)
    ensures
        r@ == hex_text(data@),
{
    hex::encode(data)
}

/// The SHA-256 digest of a text, in hexadecimal.
pub open spec fn sha256_text(data: Seq<char>) -> Seq<char> {
    hex_text(sha256_digest(encode_utf8(data)))
}

/// Whether a character is a lowercase hexadecimal digit.
pub open spec fn is_hex_digit(c: char) -> bool {
    '0' <= c <= '9' || 'a' <= c <= 'f'
}

/// The SHA-256 digest of a text, in hexadecimal.
pub fn sha256_hex(data: &str) -> (r: String)
    ensures
        r@ == sha256_text(data@),
        r@.len() == 64,
        forall|i: int| 0 <= i < r@.len() ==> is_hex_digit(#[trigger] r@[i]),
{
    let digest = sha256(data.as_bytes());
    let text = hex_encode(digest.as_slice());
    proof {
        assert forall|i: int| 0 <= i < text@.len() implies is_hex_digit(#[trigger] text@[i]) by {
            let n = if i % 2 == 0 {
                digest@[i / 2] as int / 16
            } else {
                digest@[i / 2] as int % 16
            };
            assert(0 <= n < 16);
            assert(text@[i] == hex_digit(n));
        }
    }
    text
}

/// A function found in a file.
#[derive(Debug, Clone)]
pub struct ParsedFunction {
    pub name: String,
    pub qualified_name: Option<String>,
    pub line_start: usize,
    pub line_end: usize,
    pub args: Option<String>,
    pub return_type: Option<String>,
    pub docstring: Option<String>,
    pub body: String,
    pub is_async: bool,
    pub node_hash: String,
    /// How an extension overrides a procedure.
    pub override_type: Option<String>,
    /// The procedure that an extension overrides.
    pub override_target: Option<String>,
}

/// The contents of a [`ParsedFunction`].
#[verifier::ext_equal]
pub struct FunctionFact {
    pub name: Seq<char>,
    pub qualified_name: Option<Seq<char>>,
    pub line_start: nat,
    pub line_end: nat,
    pub args: Option<Seq<char>>,
    pub return_type: Option<Seq<char>>,
    pub docstring: Option<Seq<char>>,
    pub body: Seq<char>,
    pub is_async: bool,
    pub node_hash: Seq<char>,
    pub override_type: Option<Seq<char>>,
    pub override_target: Option<Seq<char>>,
}

impl View for ParsedFunction {
    type V = FunctionFact;

    open spec fn view(&self) -> FunctionFact {
        FunctionFact {
            name: self.name@,
            qualified_name: opt_text(self.qualified_name),
            line_start: self.line_start as nat,
            line_end: self.line_end as nat,
            args: opt_text(self.args),
            return_type: opt_text(self.return_type),
            docstring: opt_text(self.docstring),
            body: self.body@,
            is_async: self.is_async,
            node_hash: self.node_hash@,
            override_type: opt_text(self.override_type),
            override_target: opt_text(self.override_target),
        }
    }
}

impl Default for ParsedFunction {
    fn default() -> (r: Self)
        ensures
            r@ == (FunctionFact {
                name: Seq::empty(),
                qualified_name: None,
                line_start: 0,
                line_end: 0,
                args: None,
                return_type: None,
                docstring: None,
                body: Seq::empty(),
                is_async: false,
                node_hash: Seq::empty(),
                override_type: None,
                override_target: None,
            }),
    {
        ParsedFunction {
            name: String::new(),
            qualified_name: None,
            line_start: 0,
            line_end: 0,
            args: None,
            return_type: None,
            docstring: None,
            body: String::new(),
            is_async: false,
            node_hash: String::new(),
            override_type: None,
            override_target: None,
        }
    }
}

/// A class found in a file.
#[derive(Debug, Clone)]
pub struct ParsedClass {
    pub name: String,
    pub line_start: usize,
    pub line_end: usize,
    pub bases: Option<String>,
    pub docstring: Option<String>,
    pub body: String,
    pub node_hash: String,
}

/// The contents of a [`ParsedClass`].
#[verifier::ext_equal]
pub struct ClassFact {
    pub name: Seq<char>,
    pub line_start: nat,
    pub line_end: nat,
    pub bases: Option<Seq<char>>,
    pub docstring: Option<Seq<char>>,
    pub body: Seq<char>,
    pub node_hash: Seq<char>,
}

impl View for ParsedClass {
    type V = ClassFact;

    open spec fn view(&self) -> ClassFact {
        ClassFact {
            name: self.name@,
            line_start: self.line_start as nat,
            line_end: self.line_end as nat,
            bases: opt_text(self.bases),
            docstring: opt_text(self.docstring),
            body: self.body@,
            node_hash: self.node_hash@,
        }
    }
}

/// An import found in a file.
#[derive(Debug, Clone)]
pub struct ParsedImport {
    pub module: Option<String>,
    pub name: Option<String>,
    pub alias: Option<String>,
    pub line: usize,
    pub kind: String,
}

/// The contents of a [`ParsedImport`].
#[verifier::ext_equal]
pub struct ImportFact {
    pub module: Option<Seq<char>>,
    pub name: Option<Seq<char>>,
    pub alias: Option<Seq<char>>,
    pub line: nat,
    pub kind: Seq<char>,
}

impl View for ParsedImport {
    type V = ImportFact;

    open spec fn view(&self) -> ImportFact {
        ImportFact {
            module: opt_text(self.module),
            name: opt_text(self.name),
            alias: opt_text(self.alias),
            line: self.line as nat,
            kind: self.kind@,
        }
    }
}

/// A call found in a file.
#[derive(Debug, Clone)]
pub struct ParsedCall {
    pub caller: String,
    pub callee: String,
    pub line: usize,
}

/// The contents of a [`ParsedCall`].
#[verifier::ext_equal]
pub struct CallFact {
    pub caller: Seq<char>,
    pub callee: Seq<char>,
    pub line: nat,
}

impl View for ParsedCall {
    type V = CallFact;

    open spec fn view(&self) -> CallFact {
        CallFact { caller: self.caller@, callee: self.callee@, line: self.line as nat }
    }
}

/// A variable found in a file.
#[derive(Debug, Clone)]
pub struct ParsedVariable {
    pub name: String,
    pub value: Option<String>,
    pub line: usize,
}

/// The contents of a [`ParsedVariable`].
#[verifier::ext_equal]
pub struct VariableFact {
    pub name: Seq<char>,
    pub value: Option<Seq<char>>,
    pub line: nat,
}

impl View for ParsedVariable {
    type V = VariableFact;

    open spec fn view(&self) -> VariableFact {
        VariableFact { name: self.name@, value: opt_text(self.value), line: self.line as nat }
    }
}

/// Everything that was extracted from a piece of a file, in source order.
#[verifier::ext_equal]
pub struct Facts {
    pub functions: Seq<FunctionFact>,
    pub classes: Seq<ClassFact>,
    pub imports: Seq<ImportFact>,
    pub calls: Seq<CallFact>,
    pub variables: Seq<VariableFact>,
}

impl Facts {
    /// Nothing extracted.
    pub open spec fn none() -> Facts {
        Facts {
            functions: Seq::empty(),
            classes: Seq::empty(),
            imports: Seq::empty(),
            calls: Seq::empty(),
            variables: Seq::empty(),
        }
    }

    /// One function.
    pub open spec fn function(f: FunctionFact) -> Facts {
        Facts { functions: seq![f], ..Facts::none() }
    }

    /// One class.
    pub open spec fn class(c: ClassFact) -> Facts {
        Facts { classes: seq![c], ..Facts::none() }
    }

    /// One import.
    pub open spec fn import(i: ImportFact) -> Facts {
        Facts { imports: seq![i], ..Facts::none() }
    }

    /// One call.
    pub open spec fn call(c: CallFact) -> Facts {
        Facts { calls: seq![c], ..Facts::none() }
    }

    /// One variable.
    pub open spec fn variable(v: VariableFact) -> Facts {
        Facts { variables: seq![v], ..Facts::none() }
    }

    /// These facts, then those of `other`.
    pub open spec fn join(self, other: Facts) -> Facts {
        Facts {
            functions: self.functions + other.functions,
            classes: self.classes + other.classes,
            imports: self.imports + other.imports,
            calls: self.calls + other.calls,
            variables: self.variables + other.variables,
        }
    }
}

/// Joining is associative and `none` is neutral.
pub broadcast proof fn lemma_join(a: Facts, b: Facts, c: Facts)
    ensures
        #[trigger] a.join(b).join(c) == a.join(b.join(c)),
{
    assert(a.join(b).join(c) =~= a.join(b.join(c)));
}

/// Joining nothing changes nothing.
pub broadcast proof fn lemma_join_none(a: Facts)
    ensures
        #[trigger] a.join(Facts::none()) == a,
{
    assert(a.join(Facts::none()) =~= a);
}

/// The result of parsing one file.
#[derive(Debug, Clone)]
pub struct ParseResult {
    pub functions: Vec<ParsedFunction>,
    pub classes: Vec<ParsedClass>,
    pub imports: Vec<ParsedImport>,
    pub calls: Vec<ParsedCall>,
    pub variables: Vec<ParsedVariable>,
    pub lines_total: usize,
}

impl ParseResult {
    /// What was extracted.
    pub open spec fn facts(&self) -> Facts {
        Facts {
            functions: self.functions@.map_values(|f: ParsedFunction| f@),
            classes: self.classes@.map_values(|c: ParsedClass| c@),
            imports: self.imports@.map_values(|i: ParsedImport| i@),
            calls: self.calls@.map_values(|c: ParsedCall| c@),
            variables: self.variables@.map_values(|v: ParsedVariable| v@),
        }
    }

    /// Appends a function.
    pub fn add_function(&mut self, f: ParsedFunction)
        ensures
            final(self).facts() == old(self).facts().join(Facts::function(f@)),
            final(self).lines_total == old(self).lines_total,
    {
        let ghost before = self.facts();
        self.functions.push(f);
        assert(self.facts() =~= before.join(Facts::function(f@)));
    }

    /// Appends a class.
    pub fn add_class(&mut self, c: ParsedClass)
        ensures
            final(self).facts() == old(self).facts().join(Facts::class(c@)),
            final(self).lines_total == old(self).lines_total,
    {
        let ghost before = self.facts();
        self.classes.push(c);
        assert(self.facts() =~= before.join(Facts::class(c@)));
    }

    /// Appends an import.
    pub fn add_import(&mut self, i: ParsedImport)
        ensures
            final(self).facts() == old(self).facts().join(Facts::import(i@)),
            final(self).lines_total == old(self).lines_total,
    {
        let ghost before = self.facts();
        self.imports.push(i);
        assert(self.facts() =~= before.join(Facts::import(i@)));
    }

    /// Appends a call.
    pub fn add_call(&mut self, c: ParsedCall)
        ensures
            final(self).facts() == old(self).facts().join(Facts::call(c@)),
            final(self).lines_total == old(self).lines_total,
    {
        let ghost before = self.facts();
        self.calls.push(c);
        assert(self.facts() =~= before.join(Facts::call(c@)));
    }

    /// Appends a variable.
    pub fn add_variable(&mut self, v: ParsedVariable)
        ensures
            final(self).facts() == old(self).facts().join(Facts::variable(v@)),
            final(self).lines_total == old(self).lines_total,
    {
        let ghost before = self.facts();
        self.variables.push(v);
        assert(self.facts() =~= before.join(Facts::variable(v@)));
    }
}

/// The result of reading a text file.
#[derive(Debug, Clone)]
pub struct TextParseResult {
    pub content: String,
    pub lines_total: usize,
}

/// How deep a walk over a syntax tree goes. A stack overflow cannot be caught, so the
/// walk stops well before one. The depth is counted anew in the body of each function.
pub const MAX_VISIT_DEPTH: usize = 500;

/// How long parsing one file may take, in milliseconds.
pub const PARSE_TIMEOUT_MS: u64 = 10_000;

/// How many leading bytes are searched for a zero byte.
pub const BINARY_PROBE_BYTES: usize = 8192;

/// Whether a text holds binary data: a zero byte among its first 8192 bytes.
pub open spec fn binary_text(s: Seq<char>) -> bool {
    exists|i: int|
        0 <= i < encode_utf8(s).len() && i < 8192 && #[trigger] encode_utf8(s)[i] == 0
}

/// Whether the text holds binary data: a zero byte among its first 8192 bytes.
pub fn looks_binary(source: &str) -> (r: bool)
    ensures
        r == binary_text(source@),
{
    let bytes = source.as_bytes();
    let mut i: usize = 0;
    while i < bytes.len() && i < BINARY_PROBE_BYTES
        invariant
            i <= bytes@.len(),
            i <= 8192,
            bytes@ == encode_utf8(source@),
            forall|j: int| 0 <= j < i ==> #[trigger] encode_utf8(source@)[j] != 0,
        decreases bytes.len() - i,
    {
        if bytes[i] == 0 {
            assert(encode_utf8(source@)[i as int] == 0);
            return true;
        }
        i += 1;
    }
    false
}

/// How often the character `c` occurs in a text.
pub open spec fn occurrences(s: Seq<char>, c: char) -> nat
    decreases s.len(),
{
    if s.len() == 0 {
        0
    } else {
        occurrences(s.drop_last(), c) + if s.last() == c {
            1nat
        } else {
            0nat
        }
    }
}

/// The number of lines of a text: one for each line feed, and one more for what
/// follows the last of them.
pub open spec fn line_count(s: Seq<char>) -> nat {
    occurrences(s, '\n') + if s.len() > 0 && s.last() != '\n' {
        1nat
    } else {
        0nat
    }
}

/// Counts the lines of a text.
pub fn count_lines(source: &str) -> (r: usize)
    ensures
        r == line_count(source@),
{
    let chars = chars_of(source);
    let mut count: usize = 0;
    let mut i: usize = 0;
    while i < chars.len()
        invariant
            i <= chars@.len(),
            chars@ == source@,
            count <= i,
            count == occurrences(source@.take(i as int), '\n'),
        decreases chars.len() - i,
    {
        assert(source@.take(i + 1).drop_last() == source@.take(i as int));
        if chars[i] == '\n' {
            count += 1;
        }
        i += 1;
    }
    assert(source@.take(i as int) == source@);
    if chars.len() > 0 && chars[chars.len() - 1] != '\n' {
        proof {
            let head = source@.drop_last();
            lemma_occurrences_bound(head, '\n');
        }
        count += 1;
    }
    count
}

proof fn lemma_occurrences_bound(s: Seq<char>, c: char)
    ensures
        occurrences(s, c) <= s.len(),
    decreases s.len(),
{
    if s.len() > 0 {
        lemma_occurrences_bound(s.drop_last(), c);
    }
}

/// The result for a file that is skipped: no facts, only the number of lines.
pub fn empty_parse_result(source: &str) -> (r: ParseResult)
    ensures
        r.facts() == Facts::none(),
        r.lines_total == line_count(source@),
{
    let r = ParseResult {
        functions: Vec::new(),
        classes: Vec::new(),
        imports: Vec::new(),
        calls: Vec::new(),
        variables: Vec::new(),
        lines_total: count_lines(source),
    };
    assert(r.facts() =~= Facts::none());
    r
}

} // verus!
