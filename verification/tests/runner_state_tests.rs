use qc::config::SafetyPolicy;
use qc::runner::{
    approval_for, audit_line, count_prod_dangerous, needs_prod_phrase, prod_phrase_given,
    run_step, status_text, yes_no_answer, Approval, AuditStatus, RunAction, RunEvent, RunState,
};
use qc::shortcuts::Shortcut;
use qc::state::{
    backup_content, export_content, parse_backup, parse_import, section_file_text, state_files,
    ImportError,
};

fn strings(v: &[&str]) -> Vec<String> {
    v.iter().map(|s| (*s).to_owned()).collect()
}

#[test]
fn safety_policy_decides_approval() {
    assert_eq!(approval_for("ls", SafetyPolicy::Block), Approval::Allowed);
    assert_eq!(approval_for("rm -rf /tmp/x", SafetyPolicy::Warn), Approval::AllowedWithWarning);
    assert_eq!(approval_for("rm -rf /tmp/x", SafetyPolicy::Confirm), Approval::AskConfirmation);
    assert_eq!(approval_for("rm -rf /tmp/x", SafetyPolicy::Block), Approval::Blocked);
    assert_eq!(
        approval_for("rm -rf /tmp/x --force", SafetyPolicy::Block),
        Approval::AllowedByForce
    );
}

#[test]
fn yes_no_answers_follow_defaults() {
    assert!(yes_no_answer("YES", false));
    assert!(yes_no_answer(" y\n", false));
    assert!(yes_no_answer("", true));
    assert!(!yes_no_answer("", false));
    assert!(!yes_no_answer("nope", true));
}

#[test]
fn prod_phrase_rules() {
    assert!(needs_prod_phrase("mkfs /dev/sda", &strings(&["PROD"])));
    assert!(!needs_prod_phrase("ls", &strings(&["prod"])));
    assert!(!needs_prod_phrase("mkfs /dev/sda", &strings(&["dev"])));
    assert!(prod_phrase_given("  PROD\n"));
    assert!(!prod_phrase_given("prod"));
    let shortcuts = vec![
        Shortcut { name: "a".to_owned(), tags: strings(&["prod"]), command: "dd if=/dev/zero".to_owned() },
        Shortcut { name: "b".to_owned(), tags: strings(&["prod"]), command: "ls".to_owned() },
        Shortcut { name: "c".to_owned(), tags: vec![], command: "rm -rf x".to_owned() },
    ];
    assert_eq!(count_prod_dangerous(&shortcuts), 1);
}

#[test]
fn audit_lines_are_formatted() {
    assert_eq!(status_text(AuditStatus::Succeeded), "ok");
    assert_eq!(status_text(AuditStatus::AbortedProdPhrase), "aborted-prod-phrase");
    assert_eq!(
        audit_line(1700000000, "prod", AuditStatus::DryRun, "echo a\necho b"),
        "1700000000|prod|dry-run|echo a echo b\n"
    );
}

#[test]
fn dry_run_only_previews() {
    let (s, a) = run_step(RunState::Start, RunEvent::Begin, true, true, Approval::Blocked);
    assert_eq!(s, RunState::AwaitPreview);
    assert_eq!(a, RunAction::AskPreview);
    let (s, a) = run_step(s, RunEvent::Answer(true), true, true, Approval::Blocked);
    assert_eq!(s, RunState::Done);
    assert_eq!(a, RunAction::Finish { status: AuditStatus::DryRun, ran: true, blocked: false });
}

#[test]
fn dangerous_run_needs_phrase_then_confirmation() {
    let (s, a) = run_step(RunState::Start, RunEvent::Begin, false, true, Approval::AskConfirmation);
    assert_eq!(a, RunAction::AskProdPhrase);
    let (s, a) = run_step(s, RunEvent::Answer(true), false, true, Approval::AskConfirmation);
    assert_eq!(a, RunAction::AskConfirmation);
    let (s, a) = run_step(s, RunEvent::Answer(true), false, true, Approval::AskConfirmation);
    assert_eq!(a, RunAction::Execute { warn: false, forced: false });
    let (s, a) = run_step(s, RunEvent::Finished(false), false, true, Approval::AskConfirmation);
    assert_eq!(s, RunState::Done);
    assert_eq!(a, RunAction::Finish { status: AuditStatus::Failed, ran: true, blocked: false });
    let (s2, a2) = run_step(s, RunEvent::Begin, false, true, Approval::AskConfirmation);
    assert_eq!(s2, RunState::Done);
    assert_eq!(a2, RunAction::Nothing);
}

#[test]
fn refusals_end_the_run() {
    let (_, a) = run_step(RunState::AwaitProdPhrase, RunEvent::Answer(false), false, true, Approval::Allowed);
    assert_eq!(a, RunAction::Finish { status: AuditStatus::AbortedProdPhrase, ran: false, blocked: false });
    let (_, a) = run_step(RunState::Start, RunEvent::Begin, false, false, Approval::Blocked);
    assert_eq!(a, RunAction::Finish { status: AuditStatus::AbortedSafety, ran: false, blocked: true });
    let (_, a) = run_step(RunState::AwaitConfirmation, RunEvent::Answer(false), false, false, Approval::AskConfirmation);
    assert_eq!(a, RunAction::Finish { status: AuditStatus::AbortedSafety, ran: false, blocked: false });
    let (_, a) = run_step(RunState::Start, RunEvent::Begin, false, false, Approval::AllowedWithWarning);
    assert_eq!(a, RunAction::Execute { warn: true, forced: false });
}

#[test]
fn export_then_import_gives_the_sections_back() {
    let text = export_content(&[
        ("config".to_owned(), "dry_run=true\n".to_owned()),
        ("history".to_owned(), "ls\npwd".to_owned()),
        ("pins".to_owned(), String::new()),
    ]);
    assert_eq!(text, "# qc-export:v1\n[config]\ndry_run=true\n[history]\nls\npwd\n[pins]\n");
    let sections = parse_import(&text).unwrap();
    assert_eq!(sections.len(), 2);
    assert_eq!(sections[0].0, "config");
    assert_eq!(sections[0].1, strings(&["dry_run=true"]));
    assert_eq!(sections[1].0, "history");
    assert_eq!(sections[1].1, strings(&["ls", "pwd"]));
    assert_eq!(section_file_text(&sections[1].1), "ls\npwd\n");
    assert_eq!(section_file_text(&[]), "");
}

#[test]
fn import_refuses_bad_files() {
    assert!(matches!(parse_import(""), Err(ImportError::Empty)));
    match parse_import("hello\n[config]\n") {
        Err(ImportError::UnsupportedHeader(h)) => assert_eq!(h, "hello"),
        _ => panic!("expected a header error"),
    }
    let ok = parse_import("  # qc-export:v1  \nstray\n[[a]]\nx\n").unwrap();
    assert_eq!(ok.len(), 1);
    assert_eq!(ok[0].0, "a");
    assert_eq!(ok[0].1, strings(&["x"]));
}

#[test]
fn backup_then_restore_gives_the_files_back() {
    let text = backup_content(&[
        ("config.txt".to_owned(), "a=1\nb=2\n".to_owned()),
        ("history.txt".to_owned(), String::new()),
        ("pins.txt".to_owned(), "x".to_owned()),
    ]);
    assert_eq!(
        text,
        "---FILE:config.txt\na=1\nb=2\n---END\n---FILE:history.txt\n\n---END\n---FILE:pins.txt\nx\n---END\n"
    );
    let files = parse_backup(&text);
    assert_eq!(
        files,
        vec![
            ("config.txt".to_owned(), "a=1\nb=2\n".to_owned()),
            ("history.txt".to_owned(), "\n".to_owned()),
            ("pins.txt".to_owned(), "x\n".to_owned()),
        ]
    );
    assert!(parse_backup("junk\n---END\n").is_empty());
}

#[test]
fn export_covers_every_state_file() {
    let files = state_files();
    assert_eq!(files.len(), 7);
    assert_eq!(files[0], ("config".to_owned(), "config.txt".to_owned()));
    assert_eq!(files[5], ("placeholder_values".to_owned(), "placeholder_values.txt".to_owned()));
    assert_eq!(files[6], ("audit".to_owned(), "audit.log".to_owned()));
}
