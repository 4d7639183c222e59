use code_index::indexer::candidates::{
    entries_to_read, files_gone, sort_reads, victim_ids, Candidate, FileEntry, KnownFiles,
    ReadOutcome, WalkedFile,
};
use code_index::indexer::config::IndexConfig;
use code_index::indexer::file_types;
use code_index::indexer::file_types::FileCategory;
use code_index::indexer::parsed::{
    blob_within_limit, compress_content, parse_need, parsed_code, parsed_ops, parsed_record,
    parsed_text, CodeOutcome, ParseNeed, ParsedFile,
};
use code_index::indexer::records::{
    file_record, write_code_ops, write_text_ops, ContentInput, FileRecord, StoreOp,
};
use code_index::indexer::reindex::{Reindex, ReindexAction, ReindexAnswer, ReindexPlan};
use code_index::indexer::{estimate_source_bytes, IndexResult, Indexer, PATHS_CAP};
use code_index::parser::c::CParser;
use code_index::parser::types::TextParseResult;

#[test]
fn test_categorize_file() {
    assert_eq!(
        file_types::categorize_file("test.py"),
        FileCategory::Code("python".to_string())
    );
    assert_eq!(file_types::categorize_file("readme.md"), FileCategory::Text);
    assert_eq!(file_types::categorize_file("image.png"), FileCategory::Binary);
}

#[test]
fn test_paths_overflow_clears_lists() {
    let mut r = IndexResult {
        files_scanned: 0,
        files_indexed: 0,
        files_skipped: 0,
        files_not_indexable: 0,
        files_deleted: 0,
        errors: vec![],
        elapsed_ms: 0,
        changed_paths: Vec::new(),
        deleted_paths: Vec::new(),
        paths_overflow: false,
    };
    for i in 0..PATHS_CAP {
        r.note_changed(&format!("f{i}.py"));
    }
    assert!(!r.paths_overflow, "ровно потолок — ещё не переполнение");
    assert_eq!(r.changed_paths.len(), PATHS_CAP);

    r.note_changed("one_more.py");
    assert!(r.paths_overflow, "шаг за потолок взводит признак");
    assert!(r.changed_paths.is_empty(), "списки очищены, память не копится");
    assert!(r.deleted_paths.is_empty());

    r.note_changed("and_another.py");
    r.note_deleted("gone.py");
    assert!(r.changed_paths.is_empty());
    assert!(r.deleted_paths.is_empty());
}

#[test]
fn sizes_are_summed() {
    assert_eq!(estimate_source_bytes(&vec![]), 0);
    assert_eq!(estimate_source_bytes(&vec![5, 7, 30]), 42);
}

fn walked(path: &str, size: u64) -> WalkedFile {
    let name = path.rsplit('/').next().unwrap().to_string();
    WalkedFile { path: path.to_string(), name: Some(name), size: Some(size), mtime: Some(100) }
}

fn paths(entries: &[FileEntry]) -> Vec<String> {
    entries.iter().map(|e| e.rel_path.clone()).collect()
}

#[test]
fn the_size_limit_holds_for_texts_alone() {
    let indexer = Indexer::with_config(IndexConfig { max_file_size: 10, ..Default::default() });
    let mut result = IndexResult::new();
    let files = vec![
        walked("small.txt", 6),
        walked("big.txt", 40),
        walked("big.py", 40),
        walked("Configuration.xml", 500),
        walked("Rights.xml", 500),
        walked("Form.xml", 500),
        walked("Template.xml", 500),
        walked("ConfigDumpInfo.xml", 500),
        walked("image.png", 5),
    ];
    let entries = indexer.collect_candidates(&files, &mut result);
    assert_eq!(
        paths(&entries),
        vec!["small.txt", "big.py", "Configuration.xml", "Rights.xml", "Form.xml"]
    );
    assert_eq!(result.files_not_indexable, 2);
    assert_eq!(result.files_scanned, 5);
}

#[test]
fn a_walk_stops_at_the_limit_of_files() {
    let indexer = Indexer::with_config(IndexConfig {
        max_files: 2,
        exclude_file_patterns: vec!["skip*".to_string()],
        ..Default::default()
    });
    let mut result = IndexResult::new();
    let files = vec![
        walked("a.rs", 1),
        walked("skip.rs", 1),
        walked("dir\\b.rs", 1),
        walked("c.rs", 1),
    ];
    let entries = indexer.collect_candidates(&files, &mut result);
    assert_eq!(paths(&entries), vec!["a.rs", "dir/b.rs"]);
}

fn row(id: i64, path: &str, hash: &str, mtime: i64, size: i64) -> FileRecord {
    let mut r = file_record(path, hash, "rust", 1, "now".to_string(), Some(mtime), Some(size));
    r.id = Some(id);
    r
}

fn entry(path: &str, mtime: i64, size: i64) -> FileEntry {
    FileEntry {
        path: path.to_string(),
        rel_path: path.to_string(),
        category: FileCategory::Code("rust".to_string()),
        mtime,
        file_size: size,
    }
}

fn content(text: &str, hash: &str) -> ReadOutcome {
    ReadOutcome::Content { content: text.to_string(), hash: hash.to_string(), is_binary: false }
}

#[test]
fn unchanged_files_are_not_read() {
    let known = KnownFiles::new(vec![row(1, "a.rs", "h", 100, 5), row(2, "b.rs", "h", 100, 5)]);
    let entries = vec![entry("a.rs", 100, 5), entry("b.rs", 101, 5), entry("c.rs", 100, 5)];
    let mut result = IndexResult::new();
    assert_eq!(entries_to_read(&entries, &known, false, &mut result), vec![1, 2]);
    assert_eq!(result.files_skipped, 1);
    let mut result = IndexResult::new();
    assert_eq!(entries_to_read(&entries, &known, true, &mut result), vec![0, 1, 2]);
    assert_eq!(result.files_skipped, 0);
}

#[test]
fn what_was_read_is_sorted_out() {
    let known = KnownFiles::new(vec![row(1, "same.rs", "h1", 1, 1), row(2, "new.rs", "h2", 1, 1)]);
    let entries = vec![
        entry("same.rs", 100, 5),
        entry("new.rs", 100, 5),
        entry("bin.rs", 100, 5),
        entry("err.rs", 100, 5),
    ];
    let mut result = IndexResult::new();
    result.files_scanned = 4;
    let outcomes = vec![
        content("x", "h1"),
        content("y", "h3"),
        ReadOutcome::Content { content: String::new(), hash: "b".to_string(), is_binary: true },
        ReadOutcome::Failed("нет доступа".to_string()),
    ];
    let to_read = vec![0usize, 1, 2, 3];
    let (chosen, updates) =
        sort_reads(&entries, &to_read, outcomes, &known, false, &mut result);
    assert_eq!(chosen.len(), 1);
    assert_eq!(chosen[0].rel_path, "new.rs");
    assert_eq!(updates, vec![("same.rs".to_string(), 100, 5)]);
    assert_eq!(result.errors, vec![("err.rs".to_string(), "нет доступа".to_string())]);
    assert_eq!(result.files_skipped, 1);
    assert_eq!(result.files_not_indexable, 1);
    assert_eq!(result.files_scanned, 3);
    assert_eq!(victim_ids(&chosen, &known), vec![2]);
}

#[test]
fn files_that_are_gone_are_named() {
    let known = KnownFiles::new(vec![row(1, "a.rs", "h", 1, 1), row(7, "gone.rs", "h", 1, 1)]);
    assert!(!known.is_empty());
    assert!(known.get("gone.rs").is_some() && known.get("x").is_none());
    let gone = files_gone(&known, &vec![entry("a.rs", 1, 1)]);
    assert_eq!(gone, vec![(7, "gone.rs".to_string())]);
    assert!(KnownFiles::new(vec![]).is_empty());
}

fn candidate(path: &str, text: &str, category: FileCategory) -> Candidate {
    Candidate {
        rel_path: path.to_string(),
        content: text.to_string(),
        hash: "h".to_string(),
        category,
        mtime: 1,
        file_size: 2,
    }
}

fn code(language: &str) -> FileCategory {
    FileCategory::Code(language.to_string())
}

#[test]
fn the_category_decides_how_a_file_is_parsed() {
    assert_eq!(parse_need(&code("c"), "a.c"), ParseNeed::Code);
    assert_eq!(parse_need(&FileCategory::Text, "a.xml"), ParseNeed::Xml);
    assert_eq!(parse_need(&FileCategory::Text, "a.txt"), ParseNeed::Text);
}

#[test]
fn an_unparsable_code_file_is_an_error() {
    let file = candidate("a.c", "int x;", code("c"));
    match parsed_code(file, CodeOutcome::Failed("сбой".to_string())) {
        ParsedFile::Error { rel_path, error } => {
            assert_eq!(rel_path, "a.c");
            assert!(error.contains("сбой"));
        }
        _ => panic!("an error is expected"),
    }
    match parsed_code(candidate("a.zz", "", code("zz")), CodeOutcome::NoParser) {
        ParsedFile::Error { error, .. } => assert!(error.contains("zz")),
        _ => panic!("an error is expected"),
    }
}

#[test]
fn a_compressed_text_can_be_read_back() {
    let source = "int main(void) { return 0; }\n".repeat(50);
    let result = CParser::new().parse(&source, "a.c").unwrap();
    let parsed = parsed_code(candidate("a.c", &source, code("c")), CodeOutcome::Parsed(result));
    match compress_content(parsed, 1_000_000, 3) {
        ParsedFile::Code { content_blob: Some(blob), .. } => {
            assert!(blob.len() < source.len());
            assert_eq!(zstd::decode_all(&blob[..]).unwrap(), source.as_bytes());
        }
        _ => panic!("a compressed text is expected"),
    }
}

#[test]
fn a_large_code_file_keeps_no_content() {
    let source = "int x;\n".repeat(10);
    let result = CParser::new().parse(&source, "a.c").unwrap();
    let parsed = parsed_code(candidate("a.c", &source, code("c")), CodeOutcome::Parsed(result));
    match compress_content(parsed, 5, 3) {
        ParsedFile::Code { content_blob, .. } => assert!(content_blob.is_none()),
        _ => panic!("code is expected"),
    }
    assert_eq!(blob_within_limit(6, 5, Some(vec![1])), None);
    assert_eq!(blob_within_limit(5, 5, Some(vec![1])), Some(vec![1]));
    assert_eq!(blob_within_limit(5, 5, None), None);
}

#[test]
fn a_text_is_stored_as_it_is() {
    let file = candidate("a.md", "раз\nдва\n", FileCategory::Text);
    let text = TextParseResult { content: "раз\nдва\n".to_string(), lines_total: 2 };
    match parsed_text(file, None, text) {
        ParsedFile::Text { lines_total, content, rel_path, .. } => {
            assert_eq!((lines_total, content.as_str(), rel_path.as_str()), (2, "раз\nдва\n", "a.md"));
        }
        _ => panic!("a text is expected"),
    }
}

#[test]
fn old_rows_go_before_new_ones_come() {
    let source = "int add(int a, int b) { return a + b; }\n";
    let result = CParser::new().parse(source, "a.c").unwrap();
    let ops = write_code_ops(9, &result, false, None, ContentInput::Raw(source), 1000);
    let first_insert = ops
        .iter()
        .position(|op| matches!(op, StoreOp::InsertFunctions(_)))
        .unwrap();
    let last_delete = ops
        .iter()
        .rposition(|op| {
            matches!(
                op,
                StoreOp::DeleteFunctions(9)
                    | StoreOp::DeleteClasses(9)
                    | StoreOp::DeleteImports(9)
                    | StoreOp::DeleteCalls(9)
                    | StoreOp::DeleteVariables(9)
            )
        })
        .unwrap();
    assert!(last_delete < first_insert);
    match &ops[first_insert] {
        StoreOp::InsertFunctions(rows) => {
            assert_eq!(rows.len(), 1);
            assert_eq!((rows[0].file_id, rows[0].name.as_str()), (9, "add"));
        }
        _ => unreachable!(),
    }
    let fresh = write_code_ops(9, &result, true, None, ContentInput::Nothing, 1000);
    assert!(!fresh.iter().any(|op| matches!(op, StoreOp::DeleteFunctions(_))));
}

#[test]
fn the_content_of_code_takes_the_form_it_came_in() {
    let result = CParser::new().parse("", "a.c").unwrap();
    let last = |content| {
        write_code_ops(1, &result, true, None, content, 77).pop()
    };
    assert!(matches!(
        last(ContentInput::Raw("x")),
        Some(StoreOp::UpsertContent { file_id: 1, limit: 77, .. })
    ));
    assert!(matches!(
        last(ContentInput::Blob(&[1, 2])),
        Some(StoreOp::UpsertContentBlob { file_id: 1, stored: Some(_) })
    ));
    assert!(matches!(
        last(ContentInput::Oversize),
        Some(StoreOp::UpsertContentBlob { file_id: 1, stored: None })
    ));
    assert!(matches!(last(ContentInput::Nothing), Some(StoreOp::InsertVariables(_))));
}

#[test]
fn a_text_replaces_the_one_before() {
    let ops = write_text_ops(4, "текст", false);
    assert!(matches!(ops[0], StoreOp::DeleteTextFile(4)));
    match ops.last() {
        Some(StoreOp::InsertTextFile(r)) => assert_eq!((r.file_id, r.content.as_str()), (4, "текст")),
        _ => panic!("a text is expected"),
    }
    assert_eq!(write_text_ops(4, "текст", true).len(), 1);
}

fn reindex_plan(candidates: usize) -> ReindexPlan {
    ReindexPlan {
        force: false,
        fresh: false,
        has_collector: false,
        candidates,
        updates: 1,
        gone: 1,
        bulk_threshold: 10,
        batch_size: 2,
    }
}

fn reindex_actions(plan: ReindexPlan, fails: &dyn Fn(ReindexAction) -> bool) -> Vec<ReindexAction> {
    let mut run = Reindex::start(plan);
    let mut seen = vec![];
    loop {
        let action = run.action();
        seen.push(action);
        if matches!(action, ReindexAction::Done | ReindexAction::Failed) {
            return seen;
        }
        let answer = if fails(action) {
            ReindexAnswer::Failed
        } else if action == ReindexAction::ListMissing {
            ReindexAnswer::Found(1)
        } else {
            ReindexAnswer::Success
        };
        run = run.next(answer);
    }
}

#[test]
fn a_small_pass_writes_in_batches() {
    let seen = reindex_actions(reindex_plan(3), &|_| false);
    assert!(!seen.contains(&ReindexAction::PrepareBulk));
    for i in 0..3 {
        assert!(seen.contains(&ReindexAction::Write(i)));
    }
    assert!(seen.contains(&ReindexAction::Update(0)));
    assert!(seen.contains(&ReindexAction::Delete(0)));
    assert!(seen.contains(&ReindexAction::Fill(0)));
    assert_eq!(seen.last(), Some(&ReindexAction::Done));
    let begins = seen.iter().filter(|a| **a == ReindexAction::Begin).count();
    let commits = seen.iter().filter(|a| **a == ReindexAction::Commit).count();
    assert_eq!(begins, commits);
}

#[test]
fn a_large_pass_makes_the_indexes_anew() {
    let seen = reindex_actions(reindex_plan(12), &|_| false);
    let at = |a: ReindexAction| seen.iter().position(|x| *x == a).unwrap();
    assert!(at(ReindexAction::DeleteOldRows) < at(ReindexAction::PrepareBulk));
    assert!(at(ReindexAction::PrepareBulk) < at(ReindexAction::Write(0)));
    assert!(at(ReindexAction::Write(11)) < at(ReindexAction::FinishBulk));
}

#[test]
fn a_failed_commit_ends_the_pass() {
    let seen = reindex_actions(reindex_plan(1), &|a| a == ReindexAction::Commit);
    assert_eq!(seen.last(), Some(&ReindexAction::Failed));
}

#[test]
fn an_indexer_plans_the_pass() {
    let indexer = Indexer::new();
    let known = KnownFiles::new(vec![]);
    let run = indexer.full_reindex(
        false,
        &known,
        &vec![candidate("a.c", "", code("c"))],
        &vec![],
        &vec![],
    );
    assert_eq!(run.plan.candidates, 1);
    assert!(run.plan.fresh && !run.plan.has_collector);
    let ops = indexer.write_text_to_db(1, "x", true);
    assert_eq!(ops.len(), 1);
}

#[test]
fn a_pass_counts_and_notes_what_it_did() {
    let mut result = IndexResult::new();
    result.note_written("a.rs", Ok(()));
    result.note_written("b.rs", Err("сбой записи".to_string()));
    result.note_removed("c.rs");
    assert_eq!((result.files_indexed, result.files_deleted), (1, 1));
    assert_eq!(result.changed_paths, vec!["a.rs"]);
    assert_eq!(result.deleted_paths, vec!["c.rs"]);
    assert_eq!(result.errors, vec![("b.rs".to_string(), "сбой записи".to_string())]);
}

#[test]
fn a_parsed_file_becomes_a_row_and_its_steps() {
    let source = "int add(int a, int b) { return a + b; }\n";
    let pr = CParser::new().parse(source, "a.c").unwrap();
    let parsed = parsed_code(candidate("a.c", source, code("c")), CodeOutcome::Parsed(pr));
    let parsed = compress_content(parsed, 1000, 3);
    let row = parsed_record(&parsed, "сейчас".to_string()).unwrap();
    assert_eq!((row.path.as_str(), row.language.as_str(), row.lines_total), ("a.c", "c", 1));
    assert_eq!((row.mtime, row.file_size, row.id), (Some(1), Some(2), None));
    let ops = parsed_ops(5, &parsed, false, 1000);
    assert!(matches!(ops.last(), Some(StoreOp::UpsertContentBlob { file_id: 5, stored: Some(_) })));
    assert!(ops.iter().any(|op| matches!(op, StoreOp::DeleteFunctions(5))));

    let text = TextParseResult { content: "раз".to_string(), lines_total: 1 };
    let parsed = parsed_text(candidate("a.md", "раз", FileCategory::Text), None, text);
    let row = parsed_record(&parsed, "сейчас".to_string()).unwrap();
    assert_eq!(row.language, "text");
    let ops = parsed_ops(6, &parsed, true, 1000);
    assert_eq!(ops.len(), 1);
    assert!(matches!(&ops[0], StoreOp::InsertTextFile(r) if r.file_id == 6));

    let failed = parsed_code(candidate("b.c", "", code("c")), CodeOutcome::Failed("x".to_string()));
    assert_eq!(
        parsed_record(&failed, "сейчас".to_string()).unwrap_err(),
        ("b.c".to_string(), "x".to_string())
    );
    assert!(parsed_ops(7, &failed, true, 1000).is_empty());
}

#[test]
fn the_index_follows_the_disk() {
    let known = KnownFiles::new(vec![
        row(1, "same.rs", "h1", 100, 5),
        row(2, "changed.rs", "h2", 100, 5),
        row(3, "gone.rs", "h3", 100, 5),
        row(4, "locked.rs", "h4", 100, 5),
    ]);
    let entries = vec![
        entry("same.rs", 100, 5),
        entry("changed.rs", 200, 6),
        entry("new.rs", 200, 7),
        entry("locked.rs", 200, 5),
    ];
    let mut result = IndexResult::new();
    result.files_scanned = 4;
    let to_read = entries_to_read(&entries, &known, false, &mut result);
    assert_eq!(to_read, vec![1, 2, 3]);
    let outcomes = vec![
        content("b", "h2b"),
        content("c", "h5"),
        ReadOutcome::Failed("занят".to_string()),
    ];
    let (chosen, updates) = sort_reads(&entries, &to_read, outcomes, &known, false, &mut result);
    assert!(updates.is_empty());
    let gone = files_gone(&known, &entries);
    let mut index: std::collections::BTreeMap<String, String> = ["same.rs", "changed.rs", "gone.rs", "locked.rs"]
        .iter()
        .map(|p| (p.to_string(), known.get(p).unwrap().content_hash.clone()))
        .collect();
    for c in &chosen {
        index.insert(c.rel_path.clone(), c.hash.clone());
    }
    for (_, path) in &gone {
        index.remove(path);
    }
    let index: Vec<(&str, &str)> = index.iter().map(|(p, h)| (p.as_str(), h.as_str())).collect();
    assert_eq!(
        index,
        vec![("changed.rs", "h2b"), ("locked.rs", "h4"), ("new.rs", "h5"), ("same.rs", "h1")]
    );
}

#[test]
fn files_are_told_by_their_names_whatever_parts_their_paths() {
    let indexer = Indexer::with_config(IndexConfig { max_file_size: 10, ..Default::default() });
    let mut result = IndexResult::new();
    let mut files = Vec::new();
    for (path, name) in [
        ("dir\\ConfigDumpInfo.xml", "ConfigDumpInfo.xml"),
        ("dir\\Rights.xml", "Rights.xml"),
        ("dir\\Template.xml", "Template.xml"),
    ] {
        files.push(WalkedFile {
            path: path.to_string(),
            name: Some(name.to_string()),
            size: Some(500),
            mtime: Some(100),
        });
    }
    let entries = indexer.collect_candidates(&files, &mut result);
    assert_eq!(paths(&entries), vec!["dir/Rights.xml"]);
    assert_eq!((result.files_scanned, result.files_not_indexable), (1, 1));
}

#[test]
fn a_backslash_in_a_name_parts_nothing() {
    let indexer = Indexer::with_config(IndexConfig { max_file_size: 10, ..Default::default() });
    let mut result = IndexResult::new();
    let files = vec![WalkedFile {
        path: "x\\Rights.xml".to_string(),
        name: Some("x\\Rights.xml".to_string()),
        size: Some(500),
        mtime: Some(100),
    }];
    assert!(indexer.collect_candidates(&files, &mut result).is_empty());
    assert_eq!((result.files_scanned, result.files_not_indexable), (0, 1));
}

#[test]
fn the_limit_counts_files_that_were_taken_before() {
    let indexer = Indexer::with_config(IndexConfig { max_files: 3, ..Default::default() });
    let mut result = IndexResult::new();
    let files = vec![walked("a.rs", 1), walked("b.rs", 1)];
    assert_eq!(paths(&indexer.collect_candidates(&files, &mut result)), vec!["a.rs", "b.rs"]);
    let files = vec![walked("c.rs", 1), walked("d.rs", 1)];
    assert_eq!(paths(&indexer.collect_candidates(&files, &mut result)), vec!["c.rs"]);
    assert_eq!(result.files_scanned, 3);
}
