use qc::shortcuts::{
    fill_template, record_answer,
    add_shortcut_with_tags, delete_shortcut, expand_template, extract_template_fields,
    filter_shortcuts_by_tag, find_shortcut, format_shortcut_key, is_dangerous, parse_name_and_tags,
    parse_placeholder_values, parse_shortcuts, parse_template_field, placeholder_step, remember_placeholder_value,
    render_placeholder_values, render_shortcuts, shortcut_names, PromptStep, Shortcut,
    ShortcutError, TemplateField,
};

fn sc(name: &str, tags: &[&str], command: &str) -> Shortcut {
    Shortcut {
        name: name.to_owned(),
        tags: tags.iter().map(|t| (*t).to_owned()).collect(),
        command: command.to_owned(),
    }
}

#[test]
fn load_shortcuts_parses_tags() {
    let shortcuts =
        parse_shortcuts("kube-logs[k8s,debug]=kubectl logs deployment/{app} --follow\n")
            .expect("load shortcuts");
    assert_eq!(shortcuts.len(), 1);
    assert_eq!(shortcuts[0].name, "kube-logs");
    assert_eq!(shortcuts[0].tags, vec!["k8s", "debug"]);
}

#[test]
fn extract_template_fields_parses_defaults() {
    let fields =
        extract_template_fields("kubectl logs {app} -n {namespace?default} --tail={lines?200}");
    assert_eq!(fields.len(), 3);
    assert_eq!(fields[0].name, "app");
    assert_eq!(fields[0].default_value, None);
    assert!(!fields[0].sensitive);
    assert_eq!(fields[1].name, "namespace");
    assert_eq!(fields[1].default_value.as_deref(), Some("default"));
    assert!(!fields[1].sensitive);
    assert_eq!(fields[2].name, "lines");
    assert_eq!(fields[2].default_value.as_deref(), Some("200"));
    assert!(!fields[2].sensitive);
}

#[test]
fn extract_template_fields_parses_sensitive() {
    let fields =
        extract_template_fields("curl -H 'Authorization: Bearer {token!}' -H 'x={ns?default!}'");
    assert_eq!(fields.len(), 2);
    assert_eq!(fields[0].name, "token");
    assert!(fields[0].sensitive);
    assert_eq!(fields[0].default_value, None);
    assert_eq!(fields[1].name, "ns");
    assert!(fields[1].sensitive);
    assert_eq!(fields[1].default_value.as_deref(), Some("default"));
}

#[test]
fn expand_template_replaces_all_keys() {
    let args = vec![
        ("app".to_owned(), "my-api".to_owned()),
        ("ns".to_owned(), "default".to_owned()),
    ];
    let expanded = expand_template("kubectl logs deploy/{app} -n {ns}", &args);
    assert_eq!(expanded, "kubectl logs deploy/my-api -n default");
}

#[test]
fn filter_shortcuts_by_tag_is_case_insensitive() {
    let shortcuts = vec![sc("a", &["k8s", "debug"], "echo a"), sc("b", &["git"], "echo b")];
    let matches = filter_shortcuts_by_tag(&shortcuts, "K8S");
    assert_eq!(matches.len(), 1);
    assert_eq!(matches[0].name, "a");
}

#[test]
fn add_shortcut_with_tags_updates_existing() {
    let seeded = parse_shortcuts("kube[old]=echo old\n").expect("seed shortcuts");
    let (shortcuts, added) =
        add_shortcut_with_tags(seeded, "kube", "echo new", &["k8s".to_owned(), "ops".to_owned()])
            .expect("add/update shortcut");
    assert!(!added);
    assert_eq!(shortcuts.len(), 1);
    assert_eq!(shortcuts[0].command, "echo new");
    assert_eq!(shortcuts[0].tags, vec!["k8s", "ops"]);
}

#[test]
fn add_shortcut_appends_new_and_rejects_empty() {
    let (shortcuts, added) =
        add_shortcut_with_tags(vec![sc("a", &[], "echo a")], "b", "echo b", &[]).unwrap();
    assert!(added);
    assert_eq!(shortcut_names(&shortcuts), vec!["a", "b"]);
    assert_eq!(shortcuts[1].command, "echo b");
    let err = add_shortcut_with_tags(vec![], "  ", "echo", &[]).unwrap_err();
    assert_eq!(err, ShortcutError::EmptyNewShortcut);
}

#[test]
fn add_then_find_gives_the_new_command() {
    let (shortcuts, _) =
        add_shortcut_with_tags(vec![sc("x", &[], "ls")], "y", "pwd", &["t".to_owned()]).unwrap();
    let found = find_shortcut(&shortcuts, "y").expect("found");
    assert_eq!(found.command, "pwd");
    assert_eq!(found.tags, vec!["t"]);
}

#[test]
fn delete_then_find_gives_nothing() {
    let (shortcuts, removed) =
        delete_shortcut(vec![sc("x", &[], "ls"), sc("y", &[], "pwd")], "x");
    assert!(removed);
    assert!(find_shortcut(&shortcuts, "x").is_none());
    assert!(find_shortcut(&shortcuts, " y").is_none());
    assert_eq!(shortcut_names(&shortcuts), vec!["y"]);
    let (same, removed) = delete_shortcut(shortcuts, "nope");
    assert!(!removed);
    assert_eq!(same.len(), 1);
}

#[test]
fn parse_shortcuts_reports_bad_lines() {
    assert_eq!(
        parse_shortcuts("# c\n\nok=echo\nnot a shortcut\n").unwrap_err(),
        ShortcutError::MissingEquals { line: 4 }
    );
    assert_eq!(
        parse_shortcuts("name=   \n").unwrap_err(),
        ShortcutError::EmptyNameOrCommand { line: 1 }
    );
    let odd = parse_shortcuts("[tag]=echo\n").unwrap();
    assert_eq!(odd[0].name, "[tag]");
    assert!(odd[0].tags.is_empty());
}

#[test]
fn shortcut_file_round_trips() {
    let shortcuts = vec![sc("a", &["x", "y"], "echo a = b"), sc("b", &[], "ls -la")];
    let text = render_shortcuts(&shortcuts);
    assert_eq!(text, "a[x,y]=echo a = b\nb=ls -la\n");
    let back = parse_shortcuts(&text).unwrap();
    assert_eq!(back.len(), 2);
    assert_eq!(back[0].name, "a");
    assert_eq!(back[0].tags, vec!["x", "y"]);
    assert_eq!(back[0].command, "echo a = b");
    assert_eq!(back[1].command, "ls -la");
    assert_eq!(render_shortcuts(&[]), "");
}

#[test]
fn name_and_tags_parse_and_format() {
    let (name, tags) = parse_name_and_tags(" deploy [ Prod, ,ops ] ");
    assert_eq!(name, "deploy");
    assert_eq!(tags, vec!["Prod", "ops"]);
    assert_eq!(format_shortcut_key("n", &["a".to_owned(), "b".to_owned()]), "n[a,b]");
    assert_eq!(format_shortcut_key("n", &[]), "n");
}

#[test]
fn dangerous_commands_are_recognised() {
    assert!(is_dangerous("RM -RF /"));
    assert!(is_dangerous("sudo mkfs.ext4 /dev/sda"));
    assert!(is_dangerous("psql -c 'DROP TABLE users'"));
    assert!(is_dangerous(":(){:|:&};:"));
    assert!(!is_dangerous("ls -la"));
    assert!(!is_dangerous("formatter"));
}

#[test]
fn placeholder_step_cycles_and_defaults() {
    let field = TemplateField {
        name: "ns".to_owned(),
        default_value: Some("default".to_owned()),
        sensitive: false,
    };
    let remembered = vec!["a".to_owned(), "b".to_owned()];
    assert!(matches!(placeholder_step(&field, &remembered, 1, " ! "), PromptStep::Cycle(0)));
    assert!(matches!(placeholder_step(&field, &[], 0, "!"), PromptStep::NoPrevious));
    match placeholder_step(&field, &remembered, 1, "") {
        PromptStep::Accept(v) => assert_eq!(v, "b"),
        _ => panic!("expected a value"),
    }
    match placeholder_step(&field, &[], 0, "  ") {
        PromptStep::Accept(v) => assert_eq!(v, "default"),
        _ => panic!("expected the default"),
    }
    let bare = TemplateField { name: "x".to_owned(), default_value: None, sensitive: true };
    assert!(matches!(placeholder_step(&bare, &[], 0, ""), PromptStep::Required));
    match placeholder_step(&bare, &[], 0, "!") {
        PromptStep::Accept(v) => assert_eq!(v, "!"),
        _ => panic!("a sensitive field takes ! as a value"),
    }
}

#[test]
fn placeholder_values_parse_remember_and_render() {
    let mut values = parse_placeholder_values("ns=dev\n# c\nbad line\nns=prod\napp = api \n=x\n");
    assert_eq!(values.len(), 2);
    assert_eq!(values[0].0, "ns");
    assert_eq!(values[0].1, vec!["dev", "prod"]);
    assert_eq!(values[1].0, "app");
    assert_eq!(values[1].1, vec!["api"]);
    remember_placeholder_value(&mut values, "ns", "prod", 10);
    assert_eq!(values[0].1, vec!["prod", "dev"]);
    remember_placeholder_value(&mut values, "zone", "eu", 10);
    assert_eq!(values[2].1, vec!["eu"]);
    remember_placeholder_value(&mut values, "ns", "qa", 2);
    assert_eq!(values[0].1, vec!["qa", "prod"]);
    assert_eq!(
        render_placeholder_values(&values),
        "app=api\nns=qa\nns=prod\nzone=eu\n"
    );
}

#[test]
fn placeholder_values_round_trip() {
    let values = vec![
        ("ns".to_owned(), vec!["prod".to_owned(), "dev".to_owned()]),
        ("app".to_owned(), vec!["api=v2".to_owned()]),
    ];
    let text = render_placeholder_values(&values);
    assert_eq!(text, "app=api=v2\nns=prod\nns=dev\n");
    let back = parse_placeholder_values(&text);
    assert_eq!(back[0], ("app".to_owned(), vec!["api=v2".to_owned()]));
    assert_eq!(back[1], ("ns".to_owned(), vec!["prod".to_owned(), "dev".to_owned()]));
}

#[test]
fn template_fields_parse_one_by_one() {
    let f = parse_template_field(" lines ? 200 ! ").expect("a field");
    assert_eq!(f.name, "lines");
    assert_eq!(f.default_value.as_deref(), Some("200"));
    assert!(f.sensitive);
    let g = parse_template_field("app?").expect("a field");
    assert_eq!(g.name, "app");
    assert_eq!(g.default_value, None);
    assert!(!g.sensitive);
    assert!(parse_template_field("  ").is_none());
    assert!(parse_template_field("?x").is_none());
    assert!(parse_template_field("!").is_none());
}

#[test]
fn shortcut_errors_read_as_messages() {
    assert_eq!(
        ShortcutError::MissingEquals { line: 12 }.message("shortcuts.txt"),
        "Invalid shortcut definition at shortcuts.txt:12; expected name=command"
    );
    assert_eq!(
        ShortcutError::EmptyNameOrCommand { line: 3 }.message("s.txt"),
        "Invalid shortcut definition at s.txt:3; name and command must be non-empty"
    );
    assert_eq!(
        ShortcutError::EmptyNewShortcut.message("s.txt"),
        "Shortcut name and command must be non-empty"
    );
}

#[test]
fn fill_template_expands_every_placeholder_form() {
    let values = vec![
        ("app".to_owned(), "my-api".to_owned()),
        ("ns".to_owned(), "default".to_owned()),
    ];
    assert_eq!(
        fill_template("kubectl logs {app} -n {ns?default}", &values),
        "kubectl logs my-api -n default"
    );
    let values = vec![
        ("token".to_owned(), "s3cr3t".to_owned()),
        ("ns".to_owned(), "prod".to_owned()),
    ];
    assert_eq!(
        fill_template("curl -H 'Bearer {token!}' -H 'x={ns?default!}' {token} {other} {} {ns", &values),
        "curl -H 'Bearer s3cr3t' -H 'x=prod' s3cr3t {other} {} {ns"
    );
    assert_eq!(fill_template("echo {a?1} { a ? 2 }", &[("a".to_owned(), "z".to_owned())]), "echo z z");
}

#[test]
fn sensitive_answers_are_never_remembered() {
    let mut remembered = vec![("ns".to_owned(), vec!["dev".to_owned()])];
    let mut answers: Vec<(String, String)> = Vec::new();
    let secret = TemplateField { name: "token".to_owned(), default_value: None, sensitive: true };
    record_answer(&mut remembered, &mut answers, &secret, "hunter2".to_owned());
    assert_eq!(remembered, vec![("ns".to_owned(), vec!["dev".to_owned()])]);
    let ns = TemplateField { name: "ns".to_owned(), default_value: None, sensitive: false };
    record_answer(&mut remembered, &mut answers, &ns, "prod".to_owned());
    assert_eq!(remembered, vec![("ns".to_owned(), vec!["prod".to_owned(), "dev".to_owned()])]);
    assert_eq!(
        answers,
        vec![("token".to_owned(), "hunter2".to_owned()), ("ns".to_owned(), "prod".to_owned())]
    );
}

#[test]
fn extract_template_fields_keeps_first_of_each_name() {
    let fields = extract_template_fields("{a} {b?1} {a?z!} {} {c");
    assert_eq!(fields.len(), 2);
    assert_eq!(fields[0].name, "a");
    assert_eq!(fields[0].default_value, None);
    assert!(!fields[0].sensitive);
    assert_eq!(fields[1].name, "b");
    assert_eq!(fields[1].default_value.as_deref(), Some("1"));
    assert!(!fields[1].sensitive);
}

#[test]
fn a_whole_prompt_fills_every_placeholder() {
    let command = "deploy {env} --to {env?prod} --token {token!} --zone {zone?eu!} {env}";
    let fields = extract_template_fields(command);
    let vals = ["staging", "t0k", "us"];
    let mut remembered: Vec<(String, Vec<String>)> = Vec::new();
    let mut answers: Vec<(String, String)> = Vec::new();
    for (field, value) in fields.iter().zip(vals.iter()) {
        record_answer(&mut remembered, &mut answers, field, (*value).to_owned());
    }
    assert_eq!(
        fill_template(command, &answers),
        "deploy staging --to staging --token t0k --zone us staging"
    );
}

#[test]
fn a_whole_prompt_remembers_only_visible_answers() {
    let mut remembered = vec![
        ("env".to_owned(), (0..10).map(|i| format!("v{i}")).collect::<Vec<String>>()),
        ("token".to_owned(), vec!["old".to_owned()]),
    ];
    let fields = extract_template_fields("{env} {token!} {app}");
    let mut answers: Vec<(String, String)> = Vec::new();
    for (field, value) in fields.iter().zip(["v3", "secret", "api"].iter()) {
        record_answer(&mut remembered, &mut answers, field, (*value).to_owned());
    }
    let expected_env: Vec<String> =
        ["v3", "v0", "v1", "v2", "v4", "v5", "v6", "v7", "v8", "v9"].iter().map(|s| s.to_string()).collect();
    assert_eq!(remembered[0], ("env".to_owned(), expected_env));
    assert_eq!(remembered[1], ("token".to_owned(), vec!["old".to_owned()]));
    assert_eq!(remembered[2], ("app".to_owned(), vec!["api".to_owned()]));
    assert_eq!(remembered.len(), 3);
    assert_eq!(
        render_placeholder_values(&remembered).lines().filter(|l| l.starts_with("env=")).count(),
        10
    );
}

#[test]
fn saved_placeholder_values_load_back_unchanged() {
    let values = vec![
        ("zone".to_owned(), vec!["eu".to_owned(), "us".to_owned()]),
        ("app".to_owned(), vec!["api".to_owned()]),
        ("ns".to_owned(), vec!["prod".to_owned(), "dev".to_owned(), "qa".to_owned()]),
    ];
    let back = parse_placeholder_values(&render_placeholder_values(&values));
    assert_eq!(back.len(), values.len());
    for (key, vals) in &values {
        let found = back.iter().find(|(k, _)| k == key).expect("key kept");
        assert_eq!(&found.1, vals);
    }
}
