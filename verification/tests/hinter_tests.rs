use qc::hinter::{
    best_match_len, char_width, common_prefix_len, first_token, highlight_segments, is_subsequence,
    matching_suffix, prefix_bytes, HighlightKind,
};

fn strings(v: &[&str]) -> Vec<String> {
    v.iter().map(|s| (*s).to_owned()).collect()
}

#[test]
fn hint_prefers_the_shortest_completion() {
    let hints = strings(&["kube-logs", "kube", "kubectl get pods", "ku"]);
    assert_eq!(matching_suffix(&hints, "ku", 2), Some("be".to_owned()));
    assert_eq!(matching_suffix(&hints, "kube", 4), Some("-logs".to_owned()));
    assert_eq!(matching_suffix(&hints, "kube-logs", 9), None);
    assert_eq!(matching_suffix(&hints, "", 0), None);
    assert_eq!(matching_suffix(&hints, "ku", 7), None);
}

#[test]
fn hint_respects_utf8_boundaries() {
    let hints = strings(&["héllo"]);
    assert_eq!(matching_suffix(&hints, "hé", 3), Some("llo".to_owned()));
    assert_eq!(matching_suffix(&hints, "hé", 2), None);
    assert_eq!(char_width('é'), 2);
    assert_eq!(char_width('a'), 1);
    assert_eq!(char_width('€'), 3);
    assert_eq!(prefix_bytes(&['h', 'é', 'x'], 3), Some(vec!['h', 'é']));
    assert_eq!(prefix_bytes(&['h', 'é'], 2), None);
}

#[test]
fn common_prefixes_count_bytes() {
    assert_eq!(common_prefix_len("héllo", "hélp"), 4);
    assert_eq!(common_prefix_len("abc", "xyz"), 0);
    let hints = strings(&["git status", "git stash"]);
    assert_eq!(best_match_len(&hints, "git stx", 7), 6);
    assert_eq!(best_match_len(&hints, "git stx", 100), 0);
}

#[test]
fn subsequences_ignore_case() {
    assert!(is_subsequence("KLG", "kube-logs"));
    assert!(is_subsequence("ÉT", "été"));
    assert!(!is_subsequence("", "anything"));
    assert!(!is_subsequence("gk", "kube-logs"));
}

#[test]
fn first_token_keeps_leading_space() {
    assert_eq!(first_token("  status --short"), "  status");
    assert_eq!(first_token("-logs"), "-logs");
    assert_eq!(first_token(""), "");
}

#[test]
fn highlighting_classifies_the_line() {
    let hints = strings(&["kube-logs", "git status"]);
    assert_eq!(highlight_segments(&hints, "", 0), vec![(HighlightKind::Neutral, String::new())]);
    assert_eq!(
        highlight_segments(&hints, "kube-logs", 9),
        vec![(HighlightKind::Exact, "kube-logs".to_owned())]
    );
    assert_eq!(
        highlight_segments(&hints, "kube-x", 6),
        vec![
            (HighlightKind::Partial, "kube-".to_owned()),
            (HighlightKind::Unmatched, "x".to_owned()),
        ]
    );
    assert_eq!(
        highlight_segments(&hints, "kube", 4),
        vec![(HighlightKind::Partial, "kube".to_owned())]
    );
    assert_eq!(
        highlight_segments(&hints, "stts", 4),
        vec![(HighlightKind::Fuzzy, "stts".to_owned())]
    );
    assert_eq!(
        highlight_segments(&hints, "zzz", 3),
        vec![(HighlightKind::Neutral, "zzz".to_owned())]
    );
}

#[test]
fn highlighting_splits_on_character_boundaries() {
    let hints = strings(&["café-au-lait"]);
    assert_eq!(
        highlight_segments(&hints, "café-x", 7),
        vec![
            (HighlightKind::Partial, "café-".to_owned()),
            (HighlightKind::Unmatched, "x".to_owned()),
        ]
    );
    assert_eq!(
        highlight_segments(&hints, "café", 4),
        vec![(HighlightKind::Neutral, "café".to_owned())]
    );
    assert_eq!(
        highlight_segments(&hints, "café-x", 3),
        vec![
            (HighlightKind::Partial, "caf".to_owned()),
            (HighlightKind::Unmatched, "é-x".to_owned()),
        ]
    );
}
