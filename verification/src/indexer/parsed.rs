//! What is written of a file once it was parsed.

use crate::indexer::candidates::Candidate;
use crate::indexer::file_types::{
    dual_indexed, is_dual_indexed_language, lower_extension, path_lower_extension, Category,
    FileCategory,
};
use crate::indexer::records::{
    code_ops, file_record, law_content_is_stored, ops, text_file_ops, write_code_ops,
    write_text_ops, Content, ContentInput, FileRecord, Op, StoreOp,
};
use crate::parser::types::{opt_text, ParseResult, TextParseResult};
use crate::paths::{extension, path_extension};
use crate::text::str_eq;
use vstd::prelude::*;
use vstd::string::*;
use vstd::utf8::*;

verus! {

/// The language of 1C dumps in XML that hold code.
pub const XML_LANGUAGE: &'static str = "xml_1c";

/// The language that texts are listed under.
pub const TEXT_LANGUAGE: &'static str = "text";

/// A file that was parsed.
#[derive(Debug, Clone)]
pub enum ParsedFile {
    /// Code.
    Code {
        rel_path: String,
        content_hash: String,
        language: String,
        lines_total: usize,
        parse_result: ParseResult,
        mtime: i64,
        file_size: i64,
        /// The content once more, for languages that are stored as text, too.
        text_for_fts: Option<String>,
        /// The content; empty once it was compressed.
        raw_content: String,
        /// The compressed content; nothing before it was compressed, and for files over the
        /// limit.
        content_blob: Option<Vec<u8>>,
    },
    /// A text.
    Text {
        rel_path: String,
        content_hash: String,
        lines_total: usize,
        content: String,
        mtime: i64,
        file_size: i64,
    },
    /// A file that could not be parsed.
    Error { rel_path: String, error: String },
}

/// What has to be asked for before a file can be written.
#[derive(Debug, Clone, Copy, PartialEq, Eq, Structural)]
pub enum ParseNeed {
    /// The parser for the extension of the file.
    Code,
    /// The parser for 1C dumps in XML, and the text.
    Xml,
    /// The text.
    Text,
}

/// What has to be asked for: 1C dumps in XML may hold code.
pub open spec fn need_of(category: Category, rel_path: Seq<char>) -> ParseNeed {
    if category is Code {
        ParseNeed::Code
    } else if extension(rel_path) == Some("xml"@) {
        ParseNeed::Xml
    } else {
        ParseNeed::Text
    }
}

/// What has to be asked for before a file can be written. Binary files never get here.
pub fn parse_need(category: &FileCategory, rel_path: &str) -> (r: ParseNeed)
    requires
        !(category@ is Binary),
    ensures
        r == need_of(category@, rel_path@),
{
    match category {
        FileCategory::Code(_) => ParseNeed::Code,
        _ => match path_extension(rel_path) {
            Some(e) => if str_eq(e.as_str(), "xml") {
                ParseNeed::Xml
            } else {
                ParseNeed::Text
            },
            None => ParseNeed::Text,
        },
    }
}

/// What came of parsing code.
#[derive(Debug, Clone)]
pub enum CodeOutcome {
    Parsed(ParseResult),
    Failed(String),
    NoParser,
}

/// The message for a file whose extension has no parser.
pub open spec fn no_parser_message(ext: Seq<char>) -> Seq<char> {
    "Нет парсера для расширения: "@ + ext
}

/// Code that was parsed, as it is written.
pub fn parsed_code(file: Candidate, outcome: CodeOutcome) -> (r: ParsedFile)
    requires
        file@.category is Code,
    ensures
        match outcome {
            CodeOutcome::Parsed(pr) => r matches ParsedFile::Code {
                rel_path,
                content_hash,
                language,
                lines_total,
                parse_result,
                mtime,
                file_size,
                text_for_fts,
                raw_content,
                content_blob,
            } && {
                &&& rel_path == file.rel_path
                &&& content_hash == file.hash
                &&& file.category == FileCategory::Code(language)
                &&& lines_total == pr.lines_total
                &&& parse_result == pr
                &&& mtime == file.mtime
                &&& file_size == file.file_size
                &&& opt_text(text_for_fts) == (if dual_indexed(language@) {
                    Some(file.content@)
                } else {
                    None
                })
                &&& raw_content == file.content
                &&& content_blob is None
            },
            CodeOutcome::Failed(message) => r == (ParsedFile::Error {
                rel_path: file.rel_path,
                error: message,
            }),
            CodeOutcome::NoParser => r matches ParsedFile::Error { rel_path, error } && {
                &&& rel_path == file.rel_path
                &&& error@ == no_parser_message(lower_extension(file.rel_path@))
            },
        },
{
    match outcome {
        CodeOutcome::Failed(message) => ParsedFile::Error {
            rel_path: file.rel_path,
            error: message,
        },
        CodeOutcome::NoParser => {
            let ext = path_lower_extension(file.rel_path.as_str());
            let mut error = String::new();
            error.append("Нет парсера для расширения: ");
            error.append(ext.as_str());
            proof {
                assert(error@ =~= no_parser_message(ext@));
            }
            ParsedFile::Error { rel_path: file.rel_path, error }
        },
        CodeOutcome::Parsed(pr) => {
            let language = match file.category {
                FileCategory::Code(language) => language,
                _ => String::new(),
            };
            let text_for_fts = if is_dual_indexed_language(language.as_str()) {
                Some(file.content.clone())
            } else {
                None
            };
            ParsedFile::Code {
                rel_path: file.rel_path,
                content_hash: file.hash,
                language,
                lines_total: pr.lines_total,
                parse_result: pr,
                mtime: file.mtime,
                file_size: file.file_size,
                text_for_fts,
                raw_content: file.content,
                content_blob: None,
            }
        },
    }
}

/// Whether a 1C dump in XML holds code.
pub open spec fn holds_code(pr: ParseResult) -> bool {
    pr.functions@.len() > 0 || pr.classes@.len() > 0 || pr.variables@.len() > 0
}

/// Whether a 1C dump in XML holds code.
pub fn xml_holds_code(pr: &ParseResult) -> (r: bool)
    ensures
        r == holds_code(*pr),
{
    !pr.functions.is_empty() || !pr.classes.is_empty() || !pr.variables.is_empty()
}

/// A text as it is written: a 1C dump in XML that holds code is code, anything else is text.
/// `xml` is what came of parsing it as a dump, where that was asked for and went well.
pub fn parsed_text(file: Candidate, xml: Option<ParseResult>, text: TextParseResult) -> (r:
    ParsedFile)
    ensures
        if xml is Some && holds_code(xml->0) {
            r matches ParsedFile::Code {
                rel_path,
                content_hash,
                language,
                lines_total,
                parse_result,
                mtime,
                file_size,
                text_for_fts,
                raw_content,
                content_blob,
            } && {
                &&& rel_path == file.rel_path
                &&& content_hash == file.hash
                &&& language@ == XML_LANGUAGE@
                &&& lines_total == xml->0.lines_total
                &&& parse_result == xml->0
                &&& mtime == file.mtime
                &&& file_size == file.file_size
                &&& text_for_fts is None
                &&& raw_content == file.content
                &&& content_blob is None
            }
        } else {
            r == (ParsedFile::Text {
                rel_path: file.rel_path,
                content_hash: file.hash,
                lines_total: text.lines_total,
                content: text.content,
                mtime: file.mtime,
                file_size: file.file_size,
            })
        },
{
    if let Some(pr) = xml {
        if xml_holds_code(&pr) {
            return ParsedFile::Code {
                rel_path: file.rel_path,
                content_hash: file.hash,
                language: XML_LANGUAGE.to_owned(),
                lines_total: pr.lines_total,
                parse_result: pr,
                mtime: file.mtime,
                file_size: file.file_size,
                text_for_fts: None,
                raw_content: file.content,
                content_blob: None,
            };
        }
    }
    ParsedFile::Text {
        rel_path: file.rel_path,
        content_hash: file.hash,
        lines_total: text.lines_total,
        content: text.content,
        mtime: file.mtime,
        file_size: file.file_size,
    }
}

/// What zstd makes of bytes at a level.
pub uninterp spec fn zstd_frame(bytes: Seq<u8>, level: int) -> Seq<u8>;

/// Calls `zstd::bulk::compress`. It can fail, when there is no memory for it; which frame it
/// gives otherwise depends on the bytes and on the level alone.
#[verifier::external_body]
fn zstd_compress(bytes: &[u8], level: i32) -> (r: Option<Vec<u8>>)
    ensures
        r is Some ==> r->0@ == zstd_frame(bytes@, level as int),
{
    zstd::bulk::compress(bytes, level).ok()
}

/// Whether a call of `zstd_compress` with these bytes and this level ended with `outcome`.
pub closed spec fn zstd_gave(raw: Seq<u8>, level: i32, outcome: Option<Vec<u8>>) -> bool {
    exists|bytes: &[u8]|
        bytes@ == raw && #[trigger] call_ensures(zstd_compress, (bytes, level), outcome)
}

/// The content that is stored, given what compressing it gave: nothing where it is over the
/// limit.
pub fn blob_within_limit(len: usize, limit: usize, compressed: Option<Vec<u8>>) -> (r: Option<
    Vec<u8>,
>)
    ensures
        r == (if len > limit {
            None
        } else {
            compressed
        }),
{
    if len > limit {
        None
    } else {
        compressed
    }
}

/// Whether two files are the same but for the content and its compressed form.
pub open spec fn same_but_content(a: ParsedFile, b: ParsedFile) -> bool {
    match (a, b) {
        (
            ParsedFile::Code {
                rel_path: p,
                content_hash: h,
                language: l,
                lines_total: n,
                parse_result: r,
                mtime: m,
                file_size: s,
                text_for_fts: t,
                ..
            },
            ParsedFile::Code {
                rel_path,
                content_hash,
                language,
                lines_total,
                parse_result,
                mtime,
                file_size,
                text_for_fts,
                ..
            },
        ) => {
            &&& p == rel_path
            &&& h == content_hash
            &&& l == language
            &&& n == lines_total
            &&& r == parse_result
            &&& m == mtime
            &&& s == file_size
            &&& t == text_for_fts
        },
        _ => a == b,
    }
}

/// Compresses the content of code, unless it is over the limit, and lets go of the text.
pub fn compress_content(file: ParsedFile, limit: usize, level: i32) -> (r: ParsedFile)
    ensures
        same_but_content(file, r),
        file is Code ==> {
            let raw = encode_utf8(file->raw_content@);
            &&& r->raw_content@.len() == 0
            &&& raw.len() > limit ==> r->content_blob is None
            &&& raw.len() <= limit ==> zstd_gave(raw, level, r->content_blob)
            &&& r->content_blob is Some ==> r->content_blob->0@ == zstd_frame(raw, level as int)
        },
{
    match file {
        ParsedFile::Code {
            rel_path,
            content_hash,
            language,
            lines_total,
            parse_result,
            mtime,
            file_size,
            text_for_fts,
            raw_content,
            content_blob,
        } => {
            let bytes = raw_content.as_str().as_bytes();
            let len: usize = bytes.len();
            let compressed = if len > limit {
                None
            } else {
                zstd_compress(bytes, level)
            };
            let blob = blob_within_limit(len, limit, compressed);
            ParsedFile::Code {
                rel_path,
                content_hash,
                language,
                lines_total,
                parse_result,
                mtime,
                file_size,
                text_for_fts,
                raw_content: String::new(),
                content_blob: blob,
            }
        },
        other => other,
    }
}

/// Content within the limit is kept: what is stored of it is the frame that zstd makes of its
/// bytes, and there is nothing only where a call with these very bytes failed.
pub proof fn law_content_within_the_limit_is_kept(
    file: ParsedFile,
    limit: usize,
    level: i32,
    r: ParsedFile,
)
    requires
        call_ensures(compress_content, (file, limit, level), r),
        file is Code,
        encode_utf8(file->raw_content@).len() <= limit,
    ensures
        r is Code,
        match r->content_blob {
            Some(blob) => blob@ == zstd_frame(encode_utf8(file->raw_content@), level as int),
            None => zstd_gave(encode_utf8(file->raw_content@), level, None),
        },
{
}

/// Content over the limit is not stored, and files that hold no code stay as they are.
pub proof fn law_content_over_the_limit_is_left_out(
    file: ParsedFile,
    limit: usize,
    level: i32,
    r: ParsedFile,
)
    requires
        call_ensures(compress_content, (file, limit, level), r),
        file is Code ==> encode_utf8(file->raw_content@).len() > limit,
    ensures
        file is Code ==> r is Code && r->content_blob is None,
        !(file is Code) ==> r == file,
{
}

/// An outcome of zstd is one of a call that was made, with the bytes and the level that it is an
/// outcome of.
proof fn law_outcomes_come_from_calls(raw: Seq<u8>, level: i32, outcome: Option<Vec<u8>>)
    requires
        zstd_gave(raw, level, outcome),
    ensures
        exists|bytes: &[u8]|
            bytes@ == raw && #[trigger] call_ensures(zstd_compress, (bytes, level), outcome),
{
}

/// The row of a file that was parsed; its path and the message where it was not.
pub fn parsed_record(file: &ParsedFile, indexed_at: String) -> (r: Result<
    FileRecord,
    (String, String),
>)
    ensures
        match *file {
            ParsedFile::Code {
                rel_path,
                content_hash,
                language,
                lines_total,
                mtime,
                file_size,
                ..
            } => r is Ok && r->Ok_0.is_new_row(
                rel_path@,
                content_hash@,
                language@,
                lines_total,
                indexed_at,
                Some(mtime),
                Some(file_size),
            ),
            ParsedFile::Text { rel_path, content_hash, lines_total, mtime, file_size, .. } => r
                is Ok && r->Ok_0.is_new_row(
                rel_path@,
                content_hash@,
                TEXT_LANGUAGE@,
                lines_total,
                indexed_at,
                Some(mtime),
                Some(file_size),
            ),
            ParsedFile::Error { rel_path, error } => r matches Err((path, message)) && path@
                == rel_path@ && message@ == error@,
        },
{
    match file {
        ParsedFile::Code {
            rel_path,
            content_hash,
            language,
            lines_total,
            mtime,
            file_size,
            ..
        } => Ok(
            file_record(
                rel_path.as_str(),
                content_hash.as_str(),
                language.as_str(),
                *lines_total,
                indexed_at,
                Some(*mtime),
                Some(*file_size),
            ),
        ),
        ParsedFile::Text { rel_path, content_hash, lines_total, mtime, file_size, .. } => Ok(
            file_record(
                rel_path.as_str(),
                content_hash.as_str(),
                TEXT_LANGUAGE,
                *lines_total,
                indexed_at,
                Some(*mtime),
                Some(*file_size),
            ),
        ),
        ParsedFile::Error { rel_path, error } => Err((rel_path.clone(), error.clone())),
    }
}

/// What is stored as the content of code, given its compressed form: that it is over the limit
/// where there is none.
pub open spec fn stored_content(blob: Option<Vec<u8>>) -> Content {
    match blob {
        Some(b) => Content::Blob(b@),
        None => Content::Oversize,
    }
}

/// The steps that write a file that was parsed, once it has a number in the index.
pub fn parsed_ops(
    file_id: i64,
    file: &ParsedFile,
    skip_delete: bool,
    max_code_file_size_bytes: usize,
) -> (r: Vec<StoreOp>)
    ensures
        ops(r@) == (match *file {
            ParsedFile::Code { parse_result, text_for_fts, content_blob, .. } => code_ops(
                file_id,
                parse_result.facts(),
                skip_delete,
                opt_text(text_for_fts),
                stored_content(content_blob),
                max_code_file_size_bytes,
            ),
            ParsedFile::Text { content, .. } => text_file_ops(file_id, skip_delete, content@),
            ParsedFile::Error { .. } => Seq::empty(),
        }),
{
    match file {
        ParsedFile::Code { parse_result, text_for_fts, content_blob, .. } => {
            let text = match text_for_fts {
                Some(t) => Some(t.as_str()),
                None => None,
            };
            let content = match content_blob {
                Some(b) => ContentInput::Blob(b.as_slice()),
                None => ContentInput::Oversize,
            };
            write_code_ops(
                file_id,
                parse_result,
                skip_delete,
                text,
                content,
                max_code_file_size_bytes,
            )
        },
        ParsedFile::Text { content, .. } => write_text_ops(file_id, content.as_str(), skip_delete),
        ParsedFile::Error { .. } => {
            let none: Vec<StoreOp> = Vec::new();
            proof {
                assert(ops(none@) =~= Seq::<Op>::empty());
            }
            none
        },
    }
}

/// What was parsed of code is written with its content: the compressed one where there is one, and
/// otherwise that it is over the limit.
pub proof fn law_compressed_content_is_written(
    file_id: i64,
    file: ParsedFile,
    skip_delete: bool,
    limit: usize,
    r: Vec<StoreOp>,
)
    requires
        call_ensures(parsed_ops, (file_id, &file, skip_delete, limit), r),
        file is Code,
    ensures
        match file->content_blob {
            Some(b) => ops(r@).contains(Op::UpsertContentBlob(file_id, Some(b@))),
            None => ops(r@).contains(Op::UpsertContentBlob(file_id, None)),
        },
{
    law_content_is_stored(
        file_id,
        file->parse_result.facts(),
        skip_delete,
        opt_text(file->text_for_fts),
        stored_content(file->content_blob),
        limit,
    );
}

/// A dump in XML is code as soon as a function, a class or a variable was found in it; imports and
/// calls alone make no code of it.
pub proof fn law_dump_with_declarations_is_code(pr: ParseResult)
    ensures
        pr.functions@.len() > 0 ==> holds_code(pr),
        pr.classes@.len() > 0 ==> holds_code(pr),
        pr.variables@.len() > 0 ==> holds_code(pr),
        pr.functions@.len() == 0 && pr.classes@.len() == 0 && pr.variables@.len() == 0
            ==> !holds_code(pr),
{
}

/// Of code its parser is asked for, of a dump in XML the parser of dumps, and of any other text none.
pub proof fn law_parser_is_asked_for_by_kind(category: Category, rel_path: Seq<char>)
    ensures
        category is Code <==> need_of(category, rel_path) is Code,
        need_of(category, rel_path) is Xml <==> !(category is Code) && extension(rel_path) == Some(
            "xml"@,
        ),
{
}

/// Code whose content was compressed is stored with it; other code is stored as over the limit.
pub proof fn law_compressed_content_is_stored(blob: Vec<u8>)
    ensures
        stored_content(Some(blob)) == Content::Blob(blob@),
        stored_content(None) is Oversize,
{
}

} // verus!
