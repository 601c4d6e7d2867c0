use qc::config::HistoryLimit;
use qc::history::{
    append_history, clear_history, dedupe_history, delete_history_entry, delete_history_range,
    parse_history, prune_history, render_history, HistoryError,
};

#[test]
fn append_history_moves_duplicate_to_end() {
    let seeded = parse_history("a\nb\nc\n");
    let entries = append_history(seeded, "b", HistoryLimit::Unlimited);
    assert_eq!(entries, vec!["a", "c", "b"]);
}

#[test]
fn append_history_respects_limit() {
    let seeded = parse_history("a\nb\n");
    let entries = append_history(seeded, "c", HistoryLimit::Limited(2));
    assert_eq!(entries, vec!["b", "c"]);
}

#[test]
fn delete_history_range_removes_slice() {
    let seeded = parse_history("one\ntwo\nthree\nfour\n");
    let entries = delete_history_range(seeded, 2, 3).expect("delete range");
    assert_eq!(entries, vec!["one", "four"]);
}

#[test]
fn dedupe_history_keeps_latest_copy() {
    let seeded = parse_history("a\nb\na\nc\nb\n");
    let entries = dedupe_history(&seeded);
    assert_eq!(entries, vec!["a", "c", "b"]);
}

#[test]
fn prune_history_disabled_clears_file() {
    let seeded = parse_history("x\ny\n");
    let entries = prune_history(seeded, HistoryLimit::Disabled);
    assert!(entries.is_empty());
    let persisted = parse_history(&render_history(&entries));
    assert!(persisted.is_empty());
}

#[test]
fn parse_history_trims_and_skips_blank_lines() {
    let entries = parse_history("  ls -la  \r\n\n   \ngit status\n");
    assert_eq!(entries, vec!["ls -la", "git status"]);
}

#[test]
fn render_history_exact_text() {
    let entries = vec!["a".to_owned(), "b".to_owned()];
    assert_eq!(render_history(&entries), "a\nb\n");
    assert_eq!(render_history(&[]), "");
}

#[test]
fn history_round_trip() {
    let entries = vec!["kubectl get pods".to_owned(), "git log".to_owned()];
    assert_eq!(parse_history(&render_history(&entries)), entries);
}

#[test]
fn append_history_disabled_and_new_entry() {
    let seeded = parse_history("a\n");
    assert!(append_history(seeded.clone(), "b", HistoryLimit::Disabled).is_empty());
    assert_eq!(append_history(seeded, "b", HistoryLimit::Unlimited), vec!["a", "b"]);
}

#[test]
fn prune_history_keeps_newest() {
    let seeded = parse_history("a\nb\nc\n");
    assert_eq!(prune_history(seeded.clone(), HistoryLimit::Limited(2)), vec!["b", "c"]);
    assert_eq!(prune_history(seeded, HistoryLimit::Unlimited), vec!["a", "b", "c"]);
}

#[test]
fn delete_history_entry_cases() {
    let seeded = parse_history("a\nb\nc\n");
    assert_eq!(delete_history_entry(seeded.clone(), 2).unwrap(), vec!["a", "c"]);
    assert_eq!(delete_history_entry(seeded.clone(), 0), Err(HistoryError::IndexZero));
    assert_eq!(
        delete_history_entry(seeded, 4),
        Err(HistoryError::IndexOutOfRange { index: 4, len: 3 })
    );
}

#[test]
fn delete_history_range_errors() {
    let seeded = parse_history("a\nb\nc\n");
    assert_eq!(delete_history_range(seeded.clone(), 0, 2), Err(HistoryError::RangeIndexZero));
    assert_eq!(delete_history_range(seeded.clone(), 3, 2), Err(HistoryError::RangeReversed));
    assert_eq!(
        delete_history_range(seeded, 2, 4),
        Err(HistoryError::RangeOutOfBounds { start: 2, end: 4, len: 3 })
    );
}

#[test]
fn clear_history_is_empty() {
    assert!(clear_history().is_empty());
}

#[test]
fn history_errors_read_as_messages() {
    assert_eq!(HistoryError::IndexZero.message(), "History index must be 1 or greater");
    assert_eq!(
        HistoryError::IndexOutOfRange { index: 4, len: 3 }.message(),
        "History index out of range: 4 (history length: 3)"
    );
    assert_eq!(
        HistoryError::RangeOutOfBounds { start: 2, end: 40, len: 3 }.message(),
        "History range out of bounds: 2-40 (history length: 3)"
    );
    assert_eq!(
        HistoryError::RangeReversed.message(),
        "History range must be start-end where start <= end"
    );
}
