use qc::commands::{
    backup_paths, classify_input, pick_result, InputKind,
    build_hint_names, builtin_help_text, find_results, format_shortcut, generate_completion_script,
    handle_script_shortcut_command, history_listing, increment_usage, parse_builtin_command,
    parse_find_run, parse_history_range, parse_shortcut_add, parse_usage, pin_history_entry,
    profiles_from_file_names, rank_order, ranked_history_lines, render_usage,
    shortcuts_file_for_profile, unpin_history_entry, BuiltinCommand, FindResult, PinError,
    history_del_target, HistoryDelTarget,
    ShortcutSpecError,
};
use qc::number::parse_index;
use qc::shortcuts::Shortcut;

fn strings(v: &[&str]) -> Vec<String> {
    v.iter().map(|s| (*s).to_owned()).collect()
}

#[test]
fn parser_handles_common_aliases() {
    assert_eq!(parse_builtin_command(":help"), Some(BuiltinCommand::Help));
    assert_eq!(parse_builtin_command(":?"), Some(BuiltinCommand::Help));
    assert_eq!(parse_builtin_command(":q"), Some(BuiltinCommand::Exit));
    assert_eq!(parse_builtin_command(":quit"), Some(BuiltinCommand::Exit));
    assert_eq!(parse_builtin_command(":r"), Some(BuiltinCommand::Reload));
    assert_eq!(parse_builtin_command(":s"), Some(BuiltinCommand::ShortcutsList));
    assert_eq!(parse_builtin_command(":h"), Some(BuiltinCommand::HistoryList));
}

#[test]
fn parser_extracts_arguments() {
    assert_eq!(
        parse_builtin_command(":shortcuts tag k8s"),
        Some(BuiltinCommand::ShortcutsTag("k8s".to_owned()))
    );
    assert_eq!(
        parse_builtin_command(":shortcuts add x=echo hi"),
        Some(BuiltinCommand::ShortcutsAdd("x=echo hi".to_owned()))
    );
    assert_eq!(
        parse_builtin_command(":history del 2-5"),
        Some(BuiltinCommand::HistoryDel("2-5".to_owned()))
    );
    assert_eq!(
        parse_builtin_command(":find run 3"),
        Some(BuiltinCommand::Find("run 3".to_owned()))
    );
}

#[test]
fn parser_handles_non_builtin_and_unknown() {
    assert_eq!(parse_builtin_command("kubectl get pods"), None);
    assert_eq!(parse_builtin_command(":something-else"), Some(BuiltinCommand::Unknown));
}

#[test]
fn builtin_help_text_snapshot_contains_core_lines() {
    let snapshot = builtin_help_text();
    assert!(snapshot.starts_with("Built-in commands (reserved ':' namespace):"));
    assert!(snapshot.contains(":set dry-run on|off"));
    assert!(snapshot.contains(":profile use <name>"));
    assert!(snapshot.contains(":find! <text>"));
    assert!(snapshot.contains(":exit | :quit | :q"));
}

#[test]
fn parser_reads_flags_and_trims() {
    assert_eq!(parse_builtin_command(" :help"), None);
    assert_eq!(parse_builtin_command(":set dry-run on"), Some(BuiltinCommand::SetDryRun(true)));
    assert_eq!(parse_builtin_command(":set dry-run off"), Some(BuiltinCommand::SetDryRun(false)));
    assert_eq!(parse_builtin_command(":set dry-run ON"), Some(BuiltinCommand::Unknown));
    assert_eq!(
        parse_builtin_command(":profile use  prod "),
        Some(BuiltinCommand::ProfileUse("prod".to_owned()))
    );
    assert_eq!(
        parse_builtin_command(":find! kube"),
        Some(BuiltinCommand::FindBang("kube".to_owned()))
    );
    assert!(handle_script_shortcut_command(":undo"));
    assert!(!handle_script_shortcut_command("ls"));
}

#[test]
fn hint_names_put_shortcuts_first_without_duplicates() {
    let names = build_hint_names(&strings(&["a", "b"]), &strings(&["b", "c", "c"]));
    assert_eq!(names, strings(&["a", "b", "c"]));
}

#[test]
fn profile_files_are_named_by_profile() {
    assert_eq!(shortcuts_file_for_profile("DEFAULT"), "shortcuts.txt");
    assert_eq!(shortcuts_file_for_profile("prod"), "shortcuts.prod.txt");
    let profiles = profiles_from_file_names(&strings(&[
        "shortcuts.txt",
        "shortcuts.prod.txt",
        "shortcuts.dev.txt",
        "shortcuts..txt",
        "notes.txt",
        "shortcuts.prod.txt",
    ]));
    assert_eq!(profiles, strings(&["default", "dev", "prod"]));
}

#[test]
fn shortcut_specs_parse_and_fail() {
    let (name, tags, command) = parse_shortcut_add(" x [a, b] = echo hi ").unwrap();
    assert_eq!(name, "x");
    assert_eq!(tags, strings(&["a", "b"]));
    assert_eq!(command, "echo hi");
    assert_eq!(parse_shortcut_add("no equals").unwrap_err(), ShortcutSpecError::MissingEquals);
    assert_eq!(
        ShortcutSpecError::MissingEquals.message(),
        "Expected ':shortcuts add <name>[tag1,tag2]=<command>'"
    );
    assert_eq!(parse_shortcut_add("x=  ").unwrap_err(), ShortcutSpecError::EmptyNameOrCommand);
}

#[test]
fn shortcuts_are_listed_with_tags() {
    let plain = Shortcut { name: "a".to_owned(), tags: vec![], command: "ls".to_owned() };
    let tagged = Shortcut { name: "b".to_owned(), tags: strings(&["x", "y"]), command: "pwd".to_owned() };
    assert_eq!(format_shortcut(&plain), "a = ls");
    assert_eq!(format_shortcut(&tagged), "b [x,y] = pwd");
}

#[test]
fn history_ranges_parse() {
    assert_eq!(parse_history_range(" 2 - 5"), Some((2, 5)));
    assert_eq!(parse_history_range("2"), None);
    assert_eq!(parse_history_range("a-3"), None);
}

#[test]
fn completion_scripts_cover_both_shells() {
    let bash = generate_completion_script("BASH", &strings(&["deploy"])).unwrap();
    assert!(bash.starts_with("_qc_complete() {\n"));
    assert!(bash.contains(":exit :quit :q deploy\""));
    assert!(bash.ends_with("complete -F _qc_complete qc\n"));
    let ps = generate_completion_script("powershell", &strings(&["deploy"])).unwrap();
    assert!(ps.contains("':q','deploy')"));
    let err = generate_completion_script("fish", &[]).unwrap_err();
    assert_eq!(err.shell, "fish");
}

#[test]
fn usage_counters_parse_increment_and_render() {
    let mut usage = parse_usage("ls=2\nbad\n pwd = 7 \nls=3\nx=nope\n");
    assert_eq!(usage, vec![("ls".to_owned(), 3), ("pwd".to_owned(), 7)]);
    increment_usage(&mut usage, "ls");
    increment_usage(&mut usage, "git status");
    assert_eq!(render_usage(&usage), "git status=1\nls=4\npwd=7\n");
    assert_eq!(render_usage(&[]), "");
}

#[test]
fn history_is_listed_with_pins_and_counts() {
    let lines = history_listing(
        &strings(&["ls", "pwd"]),
        &strings(&["pwd"]),
        &[("ls".to_owned(), 12)],
    );
    assert_eq!(lines, strings(&["    1   [12] ls", "    2 * [0] pwd"]));
    assert_eq!(history_listing(&[], &vec![], &[]), strings(&["  (history is empty)"]));
}

#[test]
fn ranked_history_orders_by_score() {
    assert_eq!(rank_order(&[5, 9, 5, 1]), vec![1, 0, 2, 3]);
    let lines = ranked_history_lines(&strings(&["a", "b", "c"]), &[("a".to_owned(), 1)]);
    assert_eq!(
        lines,
        strings(&[
            "    1 [score:1003 freq:1 recency:3] a",
            "    2 [score:2 freq:0 recency:2] b",
            "    3 [score:1 freq:0 recency:1] c",
        ])
    );
}

#[test]
fn find_searches_shortcuts_then_history() {
    let shortcuts = vec![
        Shortcut { name: "logs".to_owned(), tags: strings(&["K8s"]), command: "kubectl logs".to_owned() },
        Shortcut { name: "st".to_owned(), tags: vec![], command: "git status".to_owned() },
    ];
    let found = find_results(&shortcuts, &strings(&["kubectl get pods", "ls"]), "  K8S ");
    assert_eq!(
        found,
        vec![FindResult::Shortcut("logs".to_owned(), "logs [K8s] = kubectl logs".to_owned())]
    );
    let found = find_results(&shortcuts, &strings(&["kubectl get pods", "ls"]), "kubectl");
    assert_eq!(
        found,
        vec![
            FindResult::Shortcut("logs".to_owned(), "logs [K8s] = kubectl logs".to_owned()),
            FindResult::History("kubectl get pods".to_owned()),
        ]
    );
    assert_eq!(parse_find_run(" run 3 "), Some(Some(3)));
    assert_eq!(parse_find_run("run x"), Some(None));
    assert_eq!(parse_find_run("kubectl"), None);
}

#[test]
fn pins_are_added_and_removed() {
    let entries = strings(&["ls", "pwd"]);
    let (pins, changed) = pin_history_entry(&entries, &vec![], " 2 ").unwrap();
    assert!(changed);
    assert_eq!(pins, strings(&["pwd"]));
    let (pins, changed) = pin_history_entry(&entries, &pins, "2").unwrap();
    assert!(!changed);
    assert_eq!(pins, strings(&["pwd"]));
    assert_eq!(pin_history_entry(&entries, &pins, "3").unwrap_err(), PinError::OutOfRange);
    assert_eq!(pin_history_entry(&entries, &pins, "0").unwrap_err(), PinError::OutOfRange);
    assert_eq!(pin_history_entry(&entries, &pins, "x").unwrap_err(), PinError::NotANumber);
    let (pins, changed) = unpin_history_entry(&entries, &pins, "2").unwrap();
    assert!(changed);
    assert!(pins.is_empty());
    let (_, changed) = unpin_history_entry(&entries, &pins, "1").unwrap();
    assert!(!changed);
}

#[test]
fn usage_counters_round_trip() {
    let usage = vec![("pwd".to_owned(), 7u64), ("git status".to_owned(), 0), ("ls".to_owned(), 18446744073709551615)];
    let text = render_usage(&usage);
    assert_eq!(text, "git status=0\nls=18446744073709551615\npwd=7\n");
    let back = parse_usage(&text);
    assert_eq!(
        back,
        vec![
            ("git status".to_owned(), 0),
            ("ls".to_owned(), 18446744073709551615),
            ("pwd".to_owned(), 7),
        ]
    );
}

#[test]
fn indexes_parse_like_usize() {
    assert_eq!(parse_index("3"), Some(3));
    assert_eq!(parse_index("+7"), Some(7));
    assert_eq!(parse_index(" 3"), None);
    assert_eq!(parse_index("-1"), None);
    assert_eq!(parse_index(""), None);
}

#[test]
fn edits_name_the_files_they_back_up() {
    assert_eq!(
        backup_paths(&BuiltinCommand::ShortcutsDel("x".to_owned()), false, "shortcuts.prod.txt"),
        strings(&["shortcuts.prod.txt", "history.txt", "history_pins.txt", "history_usage.txt"])
    );
    assert_eq!(
        backup_paths(&BuiltinCommand::HistoryClear, false, "shortcuts.prod.txt"),
        strings(&["shortcuts.txt", "history.txt", "history_pins.txt", "history_usage.txt"])
    );
    assert_eq!(
        backup_paths(&BuiltinCommand::Import("f".to_owned()), false, "shortcuts.prod.txt"),
        strings(&[
            "config.txt",
            "shortcuts.txt",
            "shortcuts.prod.txt",
            "history.txt",
            "history_pins.txt",
            "history_usage.txt",
            "placeholder_values.txt",
        ])
    );
    assert!(backup_paths(&BuiltinCommand::HistoryClear, true, "shortcuts.txt").is_empty());
    assert!(backup_paths(&BuiltinCommand::Export("f".to_owned()), false, "shortcuts.txt").is_empty());
}

#[test]
fn input_lines_are_classified() {
    let shortcuts = vec![
        Shortcut { name: "kube".to_owned(), tags: vec![], command: "kubectl".to_owned() },
        Shortcut { name: "kube".to_owned(), tags: vec![], command: "second".to_owned() },
    ];
    assert!(matches!(classify_input("   ", &shortcuts), InputKind::Blank));
    assert!(matches!(classify_input(" :q ", &shortcuts), InputKind::Builtin(BuiltinCommand::Exit)));
    assert!(matches!(classify_input(" kube ", &shortcuts), InputKind::Shortcut(0)));
    match classify_input("  ls -la ", &shortcuts) {
        InputKind::Raw(t) => assert_eq!(t, "ls -la"),
        _ => panic!("expected a raw command"),
    }
}

#[test]
fn picks_are_one_based_and_bounded() {
    assert_eq!(pick_result(3, 1), Some(0));
    assert_eq!(pick_result(3, 3), Some(2));
    assert_eq!(pick_result(3, 0), None);
    assert_eq!(pick_result(3, 4), None);
    assert_eq!(pick_result(0, 1), None);
}

#[test]
fn history_del_reads_a_range_before_an_index() {
    assert_eq!(history_del_target("2-5"), HistoryDelTarget::Range(2, 5));
    assert_eq!(history_del_target(" 3 - 3 "), HistoryDelTarget::Range(3, 3));
    assert_eq!(history_del_target("4"), HistoryDelTarget::Index(4));
    assert_eq!(history_del_target("+7"), HistoryDelTarget::Index(7));
    assert_eq!(history_del_target("x"), HistoryDelTarget::Invalid);
    assert_eq!(history_del_target("1-x"), HistoryDelTarget::Invalid);
    assert_eq!(history_del_target(""), HistoryDelTarget::Invalid);
}
