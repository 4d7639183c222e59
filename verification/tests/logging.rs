use code_index::logging::{
    filter_directives, level_directives, memory_note, numbered_name, rotation_steps, RotatingFile,
    RotationStep, DEFAULT_LEVEL, KEEP_ROTATED, MAX_LOG_BYTES,
};
use tracing_subscriber::EnvFilter;

#[test]
fn own_crates_at_the_level_asked_for_others_at_warn() {
    let d = filter_directives("debug");
    assert!(d.starts_with("warn,"), "чужие крейты должны быть на warn: {d}");
    assert!(d.contains("code_index_core=debug"));
    assert!(d.contains("bsl_extension=debug"));

    let empty = filter_directives("  ");
    assert!(empty.contains(&format!("code_index_core={}", DEFAULT_LEVEL)));
    assert!(EnvFilter::try_new(empty).is_ok());
    assert_eq!(level_directives(DEFAULT_LEVEL), filter_directives(""));
}

#[test]
fn memory_is_noted_in_megabytes() {
    assert_eq!(memory_note(Some(5 * 1_048_576 + 7)), "5 МБ");
    assert_eq!(memory_note(Some(0)), "0 МБ");
    assert_eq!(memory_note(None), "сведений нет");
}

#[test]
fn rotated_journals_are_numbered() {
    assert_eq!(numbered_name("/l/daemon.log", 2), "/l/daemon.log.2");
}

#[test]
fn rotation_moves_the_journals_up() {
    assert_eq!(
        rotation_steps(2),
        vec![RotationStep::Remove(2), RotationStep::Shift(1), RotationStep::Retire]
    );
    assert_eq!(rotation_steps(KEEP_ROTATED).len(), KEEP_ROTATED + 1);
}

#[test]
fn three_writes_rotate_twice() {
    let mut w = RotatingFile::open(0, 100, 2);
    let mut rotations = 0;
    for _ in 0..3 {
        if w.needs_rotation(60) {
            rotations += 1;
            w.rotated();
        }
        w.wrote(60);
    }
    assert_eq!(rotations, 2);
    assert_eq!(w.written, 60);
}

#[test]
fn an_existing_journal_is_appended_to() {
    let w = RotatingFile::open(28, MAX_LOG_BYTES, KEEP_ROTATED);
    assert_eq!(w.written, 28);
    assert!(!w.needs_rotation(24));
    assert!(w.needs_rotation(MAX_LOG_BYTES));
}
