use qc::config::{parse_config, render_config, AppConfig, ConfigErrorKind, HistoryLimit, SafetyPolicy};

#[test]
fn history_limit_mapping_works() {
    let disabled = AppConfig {
        max_history_items: 0,
        safety_policy: SafetyPolicy::Confirm,
        dry_run: false,
        active_profile: "default".to_owned(),
    };
    let unlimited = AppConfig {
        max_history_items: -1,
        safety_policy: SafetyPolicy::Confirm,
        dry_run: false,
        active_profile: "default".to_owned(),
    };
    let limited = AppConfig {
        max_history_items: 25,
        safety_policy: SafetyPolicy::Confirm,
        dry_run: false,
        active_profile: "default".to_owned(),
    };

    assert_eq!(disabled.history_limit(), HistoryLimit::Disabled);
    assert_eq!(unlimited.history_limit(), HistoryLimit::Unlimited);
    assert_eq!(limited.history_limit(), HistoryLimit::Limited(25));
}

#[test]
fn load_config_parses_values() {
    let cfg = parse_config(
        "max_history_items=10\nsafety_policy=block\ndry_run=true\nactive_profile=prod\n",
    )
    .expect("load config");
    assert_eq!(cfg.max_history_items, 10);
    assert_eq!(cfg.safety_policy, SafetyPolicy::Block);
    assert!(cfg.dry_run);
    assert_eq!(cfg.active_profile, "prod");
}

#[test]
fn load_config_rejects_invalid_safety_policy() {
    let err = parse_config("safety_policy=banana\n").expect_err("expected parse error");
    let msg = err.message("config.txt");
    assert!(msg.contains("Invalid safety_policy value"));
}

#[test]
fn save_config_round_trips() {
    let config = AppConfig {
        max_history_items: 7,
        safety_policy: SafetyPolicy::Warn,
        dry_run: true,
        active_profile: "dev".to_owned(),
    };

    let text = render_config(&config);
    let reloaded = parse_config(&text).expect("reload config");
    assert_eq!(reloaded.max_history_items, 7);
    assert_eq!(reloaded.safety_policy, SafetyPolicy::Warn);
    assert!(reloaded.dry_run);
    assert_eq!(reloaded.active_profile, "dev");
}

#[test]
fn history_limit_maps_other_negative_values_to_disabled() {
    let cfg = AppConfig {
        max_history_items: -5,
        safety_policy: SafetyPolicy::Confirm,
        dry_run: false,
        active_profile: "default".to_owned(),
    };
    assert_eq!(cfg.history_limit(), HistoryLimit::Disabled);
}

#[test]
fn default_config_values() {
    let cfg = AppConfig::default();
    assert_eq!(cfg.max_history_items, 100);
    assert_eq!(cfg.safety_policy, SafetyPolicy::Confirm);
    assert!(!cfg.dry_run);
    assert_eq!(cfg.active_profile, "default");
}

#[test]
fn empty_config_keeps_defaults() {
    let cfg = parse_config("\n# comment\n   \n").expect("load");
    assert_eq!(cfg.max_history_items, 100);
    assert_eq!(cfg.active_profile, "default");
}

#[test]
fn config_values_are_trimmed_and_case_insensitive() {
    let cfg = parse_config("  safety_policy =  WARN \r\ndry_run= Off\nmax_history_items=+3\n").expect("load");
    assert_eq!(cfg.safety_policy, SafetyPolicy::Warn);
    assert!(!cfg.dry_run);
    assert_eq!(cfg.max_history_items, 3);
}

#[test]
fn config_error_kinds_and_lines() {
    let e = parse_config("dry_run=true\nnot a pair\n").unwrap_err();
    assert_eq!(e.line, 2);
    assert!(matches!(e.kind, ConfigErrorKind::MissingEquals));
    assert_eq!(e.message("cfg"), "Invalid config entry at cfg:2; expected key=value");

    let e = parse_config("max_history_items=abc\n").unwrap_err();
    assert!(matches!(e.kind, ConfigErrorKind::InvalidMaxHistoryItems(_)));

    let e = parse_config("max_history_items=-2\n").unwrap_err();
    assert!(matches!(e.kind, ConfigErrorKind::MaxHistoryItemsOutOfRange));

    let e = parse_config("dry_run=maybe\n").unwrap_err();
    assert!(matches!(e.kind, ConfigErrorKind::InvalidDryRun));

    let e = parse_config("active_profile=   \n").unwrap_err();
    assert!(matches!(e.kind, ConfigErrorKind::EmptyActiveProfile));

    let e = parse_config("\ncolour=blue\n").unwrap_err();
    assert_eq!(e.line, 2);
    match e.kind {
        ConfigErrorKind::UnknownKey(k) => assert_eq!(k, "colour"),
        _ => panic!("expected unknown key"),
    }
}

#[test]
fn render_config_exact_text() {
    let config = AppConfig {
        max_history_items: -1,
        safety_policy: SafetyPolicy::Block,
        dry_run: false,
        active_profile: "ops".to_owned(),
    };
    assert_eq!(
        render_config(&config),
        "max_history_items=-1\nsafety_policy=block\ndry_run=false\nactive_profile=ops\n"
    );
}

#[test]
fn bad_history_sizes_give_the_parse_reason() {
    let cases = [
        ("abc", "invalid digit found in string"),
        ("", "cannot parse integer from empty string"),
        ("-", "invalid digit found in string"),
        ("99999999999999999999x", "number too large to fit in target type"),
        ("-99999999999999999999", "number too small to fit in target type"),
        ("12a", "invalid digit found in string"),
    ];
    for (value, reason) in cases {
        let text = format!("max_history_items={value}\n");
        let e = parse_config(&text).unwrap_err();
        assert_eq!(
            e.message("config.txt"),
            format!("Invalid max_history_items value at config.txt:1: {reason}")
        );
        let expected = value.trim().parse::<isize>().unwrap_err().to_string();
        assert_eq!(reason, expected);
    }
}

#[test]
fn repeated_keys_take_their_last_value() {
    let cfg = parse_config("# c\n\ndry_run=true\nmax_history_items=5\ndry_run=off\n").unwrap();
    assert!(!cfg.dry_run);
    assert_eq!(cfg.max_history_items, 5);
    assert_eq!(cfg.safety_policy, SafetyPolicy::Confirm);
    assert_eq!(cfg.active_profile, "default");
    let blank = parse_config("   \n# only a comment\n").unwrap();
    assert_eq!(blank.max_history_items, 100);
    assert!(!blank.dry_run);
}
