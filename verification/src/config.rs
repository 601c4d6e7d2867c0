//! Application settings: the `key=value` format of `config.txt` and the
//! history limit that `max_history_items` selects.

use vstd::prelude::*;
use crate::text::{
    ascii_lower_seq, ascii_lowercase, chars_eq, chars_of, find_char, is_trimmed, lines,
    split_lines, split_once, string_of_range, trim, trim_bounds, lemma_index_of, index_of,
};
use crate::number::{
    decimal_int, int_error_message, int_error_text, isize_error_kind, isize_error_of,
    lemma_decimal_digits, lemma_parse_decimal_int, parse_isize_range, parses_as_isize,
    push_decimal_isize, IntErrorKind,
};

verus! {

/// How many raw commands the history keeps.
#[derive(Clone, Copy, Debug, PartialEq, Eq, Structural)]
pub enum HistoryLimit {
    Disabled,
    Unlimited,
    Limited(usize),
}

/// What happens before a command that matches a dangerous pattern runs.
#[derive(Clone, Copy, Debug, PartialEq, Eq, Structural)]
pub enum SafetyPolicy {
    Warn,
    Confirm,
    Block,
}

/// The settings read from `config.txt`.
#[derive(Clone, Debug)]
pub struct AppConfig {
    pub max_history_items: isize,
    pub safety_policy: SafetyPolicy,
    pub dry_run: bool,
    pub active_profile: String,
}

/// The mathematical value of an [`AppConfig`].
pub struct ConfigView {
    pub max_history_items: isize,
    pub safety_policy: SafetyPolicy,
    pub dry_run: bool,
    pub active_profile: Seq<char>,
}

impl View for AppConfig {
    type V = ConfigView;

    open spec fn view(&self) -> ConfigView {
        ConfigView {
            max_history_items: self.max_history_items,
            safety_policy: self.safety_policy,
            dry_run: self.dry_run,
            active_profile: self.active_profile@,
        }
    }
}

/// The settings used when `config.txt` is absent or silent.
pub open spec fn default_config() -> ConfigView {
    ConfigView {
        max_history_items: 100,
        safety_policy: SafetyPolicy::Confirm,
        dry_run: false,
        active_profile: "default"@,
    }
}

impl Default for AppConfig {
    fn default() -> (r: Self)
        ensures
            r@ == default_config(),
    {
        AppConfig {
            max_history_items: 100,
            safety_policy: SafetyPolicy::Confirm,
            dry_run: false,
            active_profile: String::from_str("default"),
        }
    }
}

/// The history limit that a value of `max_history_items` selects.
pub open spec fn limit_of(max_history_items: isize) -> HistoryLimit {
    if max_history_items == -1 {
        HistoryLimit::Unlimited
    } else if max_history_items > 0 {
        HistoryLimit::Limited(max_history_items as usize)
    } else {
        HistoryLimit::Disabled
    }
}

impl AppConfig {
    /// `-1` keeps every command, `0` (or any other negative value) keeps none,
    /// and a positive value keeps that many of the newest commands.
    pub fn history_limit(&self) -> (r: HistoryLimit)
        ensures
            r == limit_of(self.max_history_items),
    {
        if self.max_history_items == -1 {
            HistoryLimit::Unlimited
        } else if self.max_history_items == 0 {
            HistoryLimit::Disabled
        } else if self.max_history_items > 0 {
            HistoryLimit::Limited(self.max_history_items as usize)
        } else {
            HistoryLimit::Disabled
        }
    }
}

/// Why a line of `config.txt` was refused.
#[derive(Clone, Debug)]
pub enum ConfigErrorKind {
    /// The line holds no `=`.
    MissingEquals,
    /// `max_history_items` is not an integer, for the reason given.
    InvalidMaxHistoryItems(IntErrorKind),
    /// `max_history_items` is below `-1`.
    MaxHistoryItemsOutOfRange,
    /// `safety_policy` is not `warn`, `confirm` or `block`.
    InvalidSafetyPolicy,
    /// `dry_run` is not one of the accepted spellings of a boolean.
    InvalidDryRun,
    /// `active_profile` is empty.
    EmptyActiveProfile,
    /// The key is not one of the four known keys.
    UnknownKey(String),
}

/// A refused line of `config.txt`, with its 1-based line number.
#[derive(Clone, Debug)]
pub struct ConfigError {
    pub line: usize,
    pub kind: ConfigErrorKind,
}

/// The mathematical value of a [`ConfigErrorKind`].
pub enum ConfigErrorKindView {
    MissingEquals,
    InvalidMaxHistoryItems(IntErrorKind),
    MaxHistoryItemsOutOfRange,
    InvalidSafetyPolicy,
    InvalidDryRun,
    EmptyActiveProfile,
    UnknownKey(Seq<char>),
}

impl View for ConfigErrorKind {
    type V = ConfigErrorKindView;

    open spec fn view(&self) -> ConfigErrorKindView {
        match self {
            ConfigErrorKind::MissingEquals => ConfigErrorKindView::MissingEquals,
            ConfigErrorKind::InvalidMaxHistoryItems(k) => ConfigErrorKindView::InvalidMaxHistoryItems(*k),
            ConfigErrorKind::MaxHistoryItemsOutOfRange => ConfigErrorKindView::MaxHistoryItemsOutOfRange,
            ConfigErrorKind::InvalidSafetyPolicy => ConfigErrorKindView::InvalidSafetyPolicy,
            ConfigErrorKind::InvalidDryRun => ConfigErrorKindView::InvalidDryRun,
            ConfigErrorKind::EmptyActiveProfile => ConfigErrorKindView::EmptyActiveProfile,
            ConfigErrorKind::UnknownKey(k) => ConfigErrorKindView::UnknownKey(k@),
        }
    }
}

/// The value `safety_policy=` selects, if it names a policy (ASCII case ignored).
pub open spec fn safety_policy_of(value: Seq<char>) -> Option<SafetyPolicy> {
    let v = ascii_lower_seq(value);
    if v == "warn"@ {
        Some(SafetyPolicy::Warn)
    } else if v == "confirm"@ {
        Some(SafetyPolicy::Confirm)
    } else if v == "block"@ {
        Some(SafetyPolicy::Block)
    } else {
        None
    }
}

/// The value `dry_run=` selects, if it spells a boolean (ASCII case ignored).
pub open spec fn dry_run_of(value: Seq<char>) -> Option<bool> {
    let v = ascii_lower_seq(value);
    if v == "true"@ || v == "1"@ || v == "yes"@ || v == "on"@ {
        Some(true)
    } else if v == "false"@ || v == "0"@ || v == "no"@ || v == "off"@ {
        Some(false)
    } else {
        None
    }
}

/// One line of `config.txt` applied to the settings read so far: blank lines
/// and `#` comments change nothing; `key=value` sets a key, both sides trimmed.
pub open spec fn apply_config_line(cfg: ConfigView, line: Seq<char>) -> Result<
    ConfigView,
    ConfigErrorKindView,
> {
    let l = trim(line);
    if l.len() == 0 || l[0] == '#' {
        Ok(cfg)
    } else {
        match split_once(l, '=') {
            None => Err(ConfigErrorKindView::MissingEquals),
            Some((k, v)) => {
                let key = trim(k);
                let value = trim(v);
                if key == "max_history_items"@ {
                    match parses_as_isize(value) {
                        None => Err(
                            ConfigErrorKindView::InvalidMaxHistoryItems(isize_error_of(value).unwrap()),
                        ),
                        Some(n) => if n < -1 {
                            Err(ConfigErrorKindView::MaxHistoryItemsOutOfRange)
                        } else {
                            Ok(ConfigView { max_history_items: n, ..cfg })
                        },
                    }
                } else if key == "safety_policy"@ {
                    match safety_policy_of(value) {
                        None => Err(ConfigErrorKindView::InvalidSafetyPolicy),
                        Some(p) => Ok(ConfigView { safety_policy: p, ..cfg }),
                    }
                } else if key == "dry_run"@ {
                    match dry_run_of(value) {
                        None => Err(ConfigErrorKindView::InvalidDryRun),
                        Some(b) => Ok(ConfigView { dry_run: b, ..cfg }),
                    }
                } else if key == "active_profile"@ {
                    if value.len() == 0 {
                        Err(ConfigErrorKindView::EmptyActiveProfile)
                    } else {
                        Ok(ConfigView { active_profile: value, ..cfg })
                    }
                } else {
                    Err(ConfigErrorKindView::UnknownKey(key))
                }
            },
        }
    }
}

/// The lines `ls[i..]` applied in order to `cfg`; an error carries the
/// 1-based number of the first refused line.
pub open spec fn apply_config_lines(ls: Seq<Seq<char>>, i: int, cfg: ConfigView) -> Result<
    ConfigView,
    (int, ConfigErrorKindView),
>
    decreases ls.len() - i,
{
    if i < 0 || i >= ls.len() {
        Ok(cfg)
    } else {
        match apply_config_line(cfg, ls[i]) {
            Ok(c) => apply_config_lines(ls, i + 1, c),
            Err(e) => Err((i + 1, e)),
        }
    }
}

/// The settings that the text of `config.txt` describes.
pub open spec fn config_of(content: Seq<char>) -> Result<ConfigView, (int, ConfigErrorKindView)> {
    apply_config_lines(lines(content), 0, default_config())
}


/// Whether `v[lo..hi]` equals the string `lit`.
fn range_is(v: &[char], lo: usize, hi: usize, lit: &str) -> (r: bool)
    requires
        lo <= hi <= v.len(),
    ensures
        r == (v@.subrange(lo as int, hi as int) == lit@),
{
    let part = crate::text::sub_chars(v, lo, hi);
    let w = chars_of(lit);
    chars_eq(part.as_slice(), w.as_slice())
}

/// Applies one line (the characters `v[lo..hi]`) to `cfg`.
fn apply_line(cfg: &mut AppConfig, v: &[char], lo: usize, hi: usize) -> (r: Result<
    (),
    ConfigErrorKind,
>)
    requires
        lo <= hi <= v.len(),
    ensures
        match apply_config_line(old(cfg)@, v@.subrange(lo as int, hi as int)) {
            Ok(c) => r is Ok && final(cfg)@ == c,
            Err(e) => r matches Err(k) && k@ == e,
        },
{
    let ghost line = v@.subrange(lo as int, hi as int);
    let (a, b) = trim_bounds(v, lo, hi);
    let ghost l = v@.subrange(a as int, b as int);
    if a == b || v[a] == '#' {
        return Ok(());
    }
    let eq = match find_char(v, a, b, '=') {
        None => {
            return Err(ConfigErrorKind::MissingEquals);
        },
        Some(i) => i,
    };
    proof {
        lemma_index_of(l, '=');
        assert(l.take(eq - a) =~= v@.subrange(a as int, eq as int));
        assert(l.skip(eq - a + 1) =~= v@.subrange(eq + 1, b as int));
    }
    let (ka, kb) = trim_bounds(v, a, eq);
    let (va, vb) = trim_bounds(v, eq + 1, b);
    let ghost key = v@.subrange(ka as int, kb as int);
    let ghost value = v@.subrange(va as int, vb as int);
    if range_is(v, ka, kb, "max_history_items") {
        match parse_isize_range(v, va, vb) {
            None => {
                proof {
                    crate::number::lemma_isize_error_exists(value);
                }
                Err(ConfigErrorKind::InvalidMaxHistoryItems(isize_error_kind(v, va, vb)))
            },
            Some(n) => {
                if n < -1 {
                    Err(ConfigErrorKind::MaxHistoryItemsOutOfRange)
                } else {
                    cfg.max_history_items = n;
                    Ok(())
                }
            },
        }
    } else if range_is(v, ka, kb, "safety_policy") {
        let lower = ascii_lowercase(crate::text::sub_chars(v, va, vb).as_slice());
        let n = lower.len();
        if range_is(lower.as_slice(), 0, n, "warn") {
            cfg.safety_policy = SafetyPolicy::Warn;
        } else if range_is(lower.as_slice(), 0, n, "confirm") {
            cfg.safety_policy = SafetyPolicy::Confirm;
        } else if range_is(lower.as_slice(), 0, n, "block") {
            cfg.safety_policy = SafetyPolicy::Block;
        } else {
            assert(lower@.subrange(0, n as int) =~= lower@);
            return Err(ConfigErrorKind::InvalidSafetyPolicy);
        }
        assert(lower@.subrange(0, n as int) =~= lower@);
        Ok(())
    } else if range_is(v, ka, kb, "dry_run") {
        let lower = ascii_lowercase(crate::text::sub_chars(v, va, vb).as_slice());
        let n = lower.len();
        assert(lower@.subrange(0, n as int) =~= lower@);
        if range_is(lower.as_slice(), 0, n, "true") || range_is(lower.as_slice(), 0, n, "1")
            || range_is(lower.as_slice(), 0, n, "yes") || range_is(lower.as_slice(), 0, n, "on") {
            cfg.dry_run = true;
            Ok(())
        } else if range_is(lower.as_slice(), 0, n, "false") || range_is(lower.as_slice(), 0, n, "0")
            || range_is(lower.as_slice(), 0, n, "no") || range_is(lower.as_slice(), 0, n, "off") {
            cfg.dry_run = false;
            Ok(())
        } else {
            Err(ConfigErrorKind::InvalidDryRun)
        }
    } else if range_is(v, ka, kb, "active_profile") {
        if va == vb {
            Err(ConfigErrorKind::EmptyActiveProfile)
        } else {
            cfg.active_profile = string_of_range(v, va, vb);
            Ok(())
        }
    } else {
        Err(ConfigErrorKind::UnknownKey(string_of_range(v, ka, kb)))
    }
}

/// Reads the settings from the text of `config.txt`: keys left out keep their
/// defaults, and the first line that is neither blank, a `#` comment nor a
/// valid `key=value` is reported with its 1-based number.
pub fn parse_config(content: &str) -> (r: Result<AppConfig, ConfigError>)
    ensures
        match config_of(content@) {
            Ok(c) => r matches Ok(cfg) && cfg@ == c,
            Err((n, e)) => r matches Err(err) && err.line == n && err.kind@ == e,
        },
{
    let v = chars_of(content);
    let ls = split_lines(v.as_slice());
    let ghost all = lines(content@);
    let mut cfg = AppConfig::default();
    let mut i: usize = 0;
    while i < ls.len()
        invariant
            i <= ls.len(),
            crate::text::vviews(ls@) == all,
            all == lines(content@),
            config_of(content@) == apply_config_lines(all, i as int, cfg@),
        decreases ls.len() - i,
    {
        let line = &ls[i];
        assert(line@.subrange(0, line.len() as int) =~= all[i as int]);
        match apply_line(&mut cfg, line.as_slice(), 0, line.len()) {
            Ok(()) => {},
            Err(kind) => {
                return Err(ConfigError { line: i + 1, kind });
            },
        }
        i += 1;
    }
    Ok(cfg)
}


/// The message for a refused line of the configuration file at `path`.
pub open spec fn config_error_text(line: nat, kind: ConfigErrorKindView, path: Seq<char>) -> Seq<char> {
    let at = path + seq![':'] + crate::number::decimal(line);
    match kind {
        ConfigErrorKindView::MissingEquals => "Invalid config entry at "@ + at + "; expected key=value"@,
        ConfigErrorKindView::InvalidMaxHistoryItems(k) => "Invalid max_history_items value at "@ + at
            + ": "@ + int_error_text(k),
        ConfigErrorKindView::MaxHistoryItemsOutOfRange => "Invalid max_history_items value at "@ + at
            + "; expected -1, 0, or a positive integer"@,
        ConfigErrorKindView::InvalidSafetyPolicy => "Invalid safety_policy value at "@ + at
            + "; expected warn, confirm, or block"@,
        ConfigErrorKindView::InvalidDryRun => "Invalid dry_run value at "@ + at
            + "; expected true or false"@,
        ConfigErrorKindView::EmptyActiveProfile => "Invalid active_profile at "@ + at
            + "; value must be non-empty"@,
        ConfigErrorKindView::UnknownKey(k) => "Unknown config key '"@ + k + "' at "@ + at,
    }
}

impl ConfigError {
    /// The message that reports this error for the configuration file at `path`.
    pub fn message(&self, path: &str) -> (r: String)
        ensures
            r@ == config_error_text(self.line as nat, self.kind@, path@),
    {
        let mut at = chars_of(path);
        at.push(':');
        crate::number::push_decimal(&mut at, self.line as u64);
        let mut out: Vec<char> = Vec::new();
        match &self.kind {
            ConfigErrorKind::MissingEquals => {
                crate::text::extend_str(&mut out, "Invalid config entry at ");
                crate::text::extend_chars(&mut out, at.as_slice());
                crate::text::extend_str(&mut out, "; expected key=value");
            },
            ConfigErrorKind::InvalidMaxHistoryItems(k) => {
                crate::text::extend_str(&mut out, "Invalid max_history_items value at ");
                crate::text::extend_chars(&mut out, at.as_slice());
                crate::text::extend_str(&mut out, ": ");
                let cause = int_error_message(*k);
                crate::text::extend_str(&mut out, cause.as_str());
            },
            ConfigErrorKind::MaxHistoryItemsOutOfRange => {
                crate::text::extend_str(&mut out, "Invalid max_history_items value at ");
                crate::text::extend_chars(&mut out, at.as_slice());
                crate::text::extend_str(&mut out, "; expected -1, 0, or a positive integer");
            },
            ConfigErrorKind::InvalidSafetyPolicy => {
                crate::text::extend_str(&mut out, "Invalid safety_policy value at ");
                crate::text::extend_chars(&mut out, at.as_slice());
                crate::text::extend_str(&mut out, "; expected warn, confirm, or block");
            },
            ConfigErrorKind::InvalidDryRun => {
                crate::text::extend_str(&mut out, "Invalid dry_run value at ");
                crate::text::extend_chars(&mut out, at.as_slice());
                crate::text::extend_str(&mut out, "; expected true or false");
            },
            ConfigErrorKind::EmptyActiveProfile => {
                crate::text::extend_str(&mut out, "Invalid active_profile at ");
                crate::text::extend_chars(&mut out, at.as_slice());
                crate::text::extend_str(&mut out, "; value must be non-empty");
            },
            ConfigErrorKind::UnknownKey(k) => {
                crate::text::extend_str(&mut out, "Unknown config key '");
                crate::text::extend_str(&mut out, k.as_str());
                crate::text::extend_str(&mut out, "' at ");
                crate::text::extend_chars(&mut out, at.as_slice());
            },
        }
        assert(out@ =~= config_error_text(self.line as nat, self.kind@, path@));
        crate::text::string_of(out.as_slice())
    }
}

/// The name `config.txt` uses for a safety policy.
pub open spec fn policy_name(p: SafetyPolicy) -> Seq<char> {
    match p {
        SafetyPolicy::Warn => "warn"@,
        SafetyPolicy::Confirm => "confirm"@,
        SafetyPolicy::Block => "block"@,
    }
}

/// How a boolean is written.
pub open spec fn bool_text(b: bool) -> Seq<char> {
    if b {
        "true"@
    } else {
        "false"@
    }
}

/// A `key=value` line.
pub open spec fn kv(key: Seq<char>, value: Seq<char>) -> Seq<char> {
    key + seq!['='] + value
}

/// The text of `config.txt` that records `c`: one `key=value` line per key,
/// each ended by a newline.
pub open spec fn render_config_spec(c: ConfigView) -> Seq<char> {
    kv("max_history_items"@, decimal_int(c.max_history_items as int)) + seq!['\n'] + kv(
        "safety_policy"@,
        policy_name(c.safety_policy),
    ) + seq!['\n'] + kv("dry_run"@, bool_text(c.dry_run)) + seq!['\n'] + kv(
        "active_profile"@,
        c.active_profile,
    ) + seq!['\n']
}

/// Writes a `key=value` line with its newline to `out`.
fn push_kv(out: &mut Vec<char>, key: &str, value: &[char])
    ensures
        final(out)@ == old(out)@ + kv(key@, value@) + seq!['\n'],
{
    crate::text::extend_str(out, key);
    out.push('=');
    crate::text::extend_chars(out, value);
    out.push('\n');
    assert(final(out)@ =~= old(out)@ + kv(key@, value@) + seq!['\n']);
}

/// The text of `config.txt` that records `config`.
pub fn render_config(config: &AppConfig) -> (r: String)
    ensures
        r@ == render_config_spec(config@),
{
    let mut out: Vec<char> = Vec::new();
    let mut n: Vec<char> = Vec::new();
    push_decimal_isize(&mut n, config.max_history_items);
    assert(n@ =~= decimal_int(config.max_history_items as int));
    push_kv(&mut out, "max_history_items", n.as_slice());
    let policy = match config.safety_policy {
        SafetyPolicy::Warn => chars_of("warn"),
        SafetyPolicy::Confirm => chars_of("confirm"),
        SafetyPolicy::Block => chars_of("block"),
    };
    push_kv(&mut out, "safety_policy", policy.as_slice());
    let flag = if config.dry_run {
        chars_of("true")
    } else {
        chars_of("false")
    };
    push_kv(&mut out, "dry_run", flag.as_slice());
    let profile = chars_of(config.active_profile.as_str());
    push_kv(&mut out, "active_profile", profile.as_slice());
    assert(out@ =~= render_config_spec(config@));
    crate::text::string_of(out.as_slice())
}

proof fn lemma_kv_line(key: Seq<char>, value: Seq<char>)
    requires
        key.len() > 0,
        is_trimmed(key),
        forall|i: int| 0 <= i < key.len() ==> key[i] != '=',
        value.len() > 0,
        is_trimmed(value),
    ensures
        trim(kv(key, value)) == kv(key, value),
        split_once(kv(key, value), '=') == Some((key, value)),
        trim(key) == key,
        trim(value) == value,
        kv(key, value).len() > 0 && kv(key, value)[0] == key[0],
        kv(key, value).last() == value.last(),
{
    let l = kv(key, value);
    assert(l[0] == key[0]);
    assert(l.last() == value.last());
    crate::text::lemma_trim_trimmed(l);
    crate::text::lemma_trim_trimmed(key);
    crate::text::lemma_trim_trimmed(value);
    crate::text::lemma_index_of_is(l, '=', key.len() as int);
    assert(l.take(key.len() as int) =~= key);
    assert(l.skip(key.len() as int + 1) =~= value);
}

proof fn lemma_ascii_lower_id(s: Seq<char>)
    requires
        forall|i: int| 0 <= i < s.len() ==> 97 <= (#[trigger] s[i] as u32) <= 122,
    ensures
        ascii_lower_seq(s) == s,
{
    assert(ascii_lower_seq(s) =~= s);
}

proof fn lemma_no_newline_kv(key: Seq<char>, value: Seq<char>)
    requires
        forall|i: int| 0 <= i < key.len() ==> key[i] != '\n',
        forall|i: int| 0 <= i < value.len() ==> value[i] != '\n',
    ensures
        forall|i: int| 0 <= i < kv(key, value).len() ==> kv(key, value)[i] != '\n',
{
    assert forall|i: int| 0 <= i < kv(key, value).len() implies kv(key, value)[i] != '\n' by {
        if i > key.len() {
            assert(kv(key, value)[i] == value[i - key.len() - 1]);
        } else if i < key.len() {
            assert(kv(key, value)[i] == key[i]);
        }
    }
}

proof fn lemma_decimal_value_facts(m: int)
    requires
        m >= -1,
    ensures
        decimal_int(m).len() > 0,
        is_trimmed(decimal_int(m)),
        forall|i: int| 0 <= i < decimal_int(m).len() ==> decimal_int(m)[i] != '\n',
        parses_as_isize(decimal_int(m)) == (if isize::MIN <= m <= isize::MAX { Some(m as isize) } else { None::<isize> }),
{
    let n = decimal_int(m);
    lemma_parse_decimal_int(m);
    if m < 0 {
        let d = crate::number::decimal((-m) as nat);
        lemma_decimal_digits((-m) as nat);
        assert(n.last() == d.last());
        assert(crate::number::is_digit(d[d.len() - 1]));
        assert forall|i: int| 0 <= i < n.len() implies n[i] != '\n' by {
            if i > 0 {
                assert(n[i] == d[i - 1]);
                assert(crate::number::is_digit(d[i - 1]));
            }
        }
    } else {
        let d = crate::number::decimal(m as nat);
        lemma_decimal_digits(m as nat);
        assert(crate::number::is_digit(d[0]));
        assert(crate::number::is_digit(d[d.len() - 1]));
        assert forall|i: int| 0 <= i < n.len() implies n[i] != '\n' by {
            assert(crate::number::is_digit(d[i]));
        }
    }
}

/// The four lines of the rendered configuration.
proof fn lemma_render_lines(c: ConfigView)
    requires
        c.max_history_items >= -1,
        c.active_profile.len() > 0,
        is_trimmed(c.active_profile),
        forall|i: int| 0 <= i < c.active_profile.len() ==> c.active_profile[i] != '\n',
    ensures
        lines(render_config_spec(c)) == seq![
            kv("max_history_items"@, decimal_int(c.max_history_items as int)),
            kv("safety_policy"@, policy_name(c.safety_policy)),
            kv("dry_run"@, bool_text(c.dry_run)),
            kv("active_profile"@, c.active_profile),
        ],
{
    reveal_strlit("max_history_items");
    reveal_strlit("safety_policy");
    reveal_strlit("dry_run");
    reveal_strlit("active_profile");
    reveal_strlit("warn");
    reveal_strlit("confirm");
    reveal_strlit("block");
    reveal_strlit("true");
    reveal_strlit("false");
    let n = decimal_int(c.max_history_items as int);
    lemma_decimal_value_facts(c.max_history_items as int);
    let l1 = kv("max_history_items"@, n);
    let l2 = kv("safety_policy"@, policy_name(c.safety_policy));
    let l3 = kv("dry_run"@, bool_text(c.dry_run));
    let l4 = kv("active_profile"@, c.active_profile);
    lemma_no_newline_kv("max_history_items"@, n);
    lemma_no_newline_kv("safety_policy"@, policy_name(c.safety_policy));
    lemma_no_newline_kv("dry_run"@, bool_text(c.dry_run));
    lemma_no_newline_kv("active_profile"@, c.active_profile);
    assert(l1.last() == n.last());
    assert(l2.last() == policy_name(c.safety_policy).last());
    assert(l3.last() == bool_text(c.dry_run).last());
    assert(l4.last() == c.active_profile.last());
    let empty = Seq::<char>::empty();
    crate::text::lemma_lines_cons(l4, empty);
    crate::text::lemma_lines_cons(l3, l4 + seq!['\n']);
    crate::text::lemma_lines_cons(l2, l3 + seq!['\n'] + l4 + seq!['\n']);
    crate::text::lemma_lines_cons(l1, l2 + seq!['\n'] + l3 + seq!['\n'] + l4 + seq!['\n']);
    assert(l4 + seq!['\n'] + empty =~= l4 + seq!['\n']);
    assert(render_config_spec(c) =~= l1 + seq!['\n'] + (l2 + seq!['\n'] + l3 + seq!['\n'] + l4
        + seq!['\n']));
    assert(l2 + seq!['\n'] + l3 + seq!['\n'] + l4 + seq!['\n'] =~= l2 + seq!['\n'] + (l3
        + seq!['\n'] + l4 + seq!['\n']));
    assert(l3 + seq!['\n'] + l4 + seq!['\n'] =~= l3 + seq!['\n'] + (l4 + seq!['\n']));
    assert(lines(render_config_spec(c)) =~= seq![l1, l2, l3, l4]);
}

proof fn lemma_apply_max(cfg: ConfigView, m: isize)
    requires
        m >= -1,
    ensures
        apply_config_line(cfg, kv("max_history_items"@, decimal_int(m as int)))
            == Ok::<ConfigView, ConfigErrorKindView>(ConfigView { max_history_items: m, ..cfg }),
{
    reveal_strlit("max_history_items");
    reveal_strlit("safety_policy");
    reveal_strlit("dry_run");
    reveal_strlit("active_profile");
    lemma_decimal_value_facts(m as int);
    lemma_kv_line("max_history_items"@, decimal_int(m as int));
}

proof fn lemma_apply_policy(cfg: ConfigView, p: SafetyPolicy)
    ensures
        apply_config_line(cfg, kv("safety_policy"@, policy_name(p)))
            == Ok::<ConfigView, ConfigErrorKindView>(ConfigView { safety_policy: p, ..cfg }),
{
    reveal_strlit("max_history_items");
    reveal_strlit("safety_policy");
    reveal_strlit("warn");
    reveal_strlit("confirm");
    reveal_strlit("block");
    lemma_kv_line("safety_policy"@, policy_name(p));
    lemma_ascii_lower_id(policy_name(p));
}

proof fn lemma_apply_dry_run(cfg: ConfigView, b: bool)
    ensures
        apply_config_line(cfg, kv("dry_run"@, bool_text(b)))
            == Ok::<ConfigView, ConfigErrorKindView>(ConfigView { dry_run: b, ..cfg }),
{
    reveal_strlit("max_history_items");
    reveal_strlit("safety_policy");
    reveal_strlit("dry_run");
    reveal_strlit("true");
    reveal_strlit("false");
    reveal_strlit("1");
    reveal_strlit("yes");
    reveal_strlit("on");
    lemma_kv_line("dry_run"@, bool_text(b));
    lemma_ascii_lower_id(bool_text(b));
}

proof fn lemma_apply_profile(cfg: ConfigView, profile: Seq<char>)
    requires
        profile.len() > 0,
        is_trimmed(profile),
    ensures
        apply_config_line(cfg, kv("active_profile"@, profile))
            == Ok::<ConfigView, ConfigErrorKindView>(ConfigView { active_profile: profile, ..cfg }),
{
    reveal_strlit("max_history_items");
    reveal_strlit("safety_policy");
    reveal_strlit("dry_run");
    reveal_strlit("active_profile");
    lemma_kv_line("active_profile"@, profile);
}

/// Writing settings to `config.txt` and reading the file back gives the same
/// settings, for every configuration that `config.txt` can hold: a history
/// size of `-1` or more and a non-empty profile name without surrounding
/// whitespace or line breaks.
pub proof fn lemma_config_round_trip(c: ConfigView)
    requires
        c.max_history_items >= -1,
        c.active_profile.len() > 0,
        is_trimmed(c.active_profile),
        forall|i: int| 0 <= i < c.active_profile.len() ==> c.active_profile[i] != '\n',
    ensures
        config_of(render_config_spec(c)) == Ok::<ConfigView, (int, ConfigErrorKindView)>(c),
{
    lemma_render_lines(c);
    let ls = lines(render_config_spec(c));
    let c0 = default_config();
    let c1 = ConfigView { max_history_items: c.max_history_items, ..c0 };
    let c2 = ConfigView { safety_policy: c.safety_policy, ..c1 };
    let c3 = ConfigView { dry_run: c.dry_run, ..c2 };
    let c4 = ConfigView { active_profile: c.active_profile, ..c3 };
    lemma_apply_max(c0, c.max_history_items);
    lemma_apply_policy(c1, c.safety_policy);
    lemma_apply_dry_run(c2, c.dry_run);
    lemma_apply_profile(c3, c.active_profile);
    assert(apply_config_lines(ls, 4, c4) == Ok::<ConfigView, (int, ConfigErrorKindView)>(c4));
    assert(apply_config_lines(ls, 3, c3) == Ok::<ConfigView, (int, ConfigErrorKindView)>(c4));
    assert(apply_config_lines(ls, 2, c2) == Ok::<ConfigView, (int, ConfigErrorKindView)>(c4));
    assert(apply_config_lines(ls, 1, c1) == Ok::<ConfigView, (int, ConfigErrorKindView)>(c4));
    assert(apply_config_lines(ls, 0, c0) == Ok::<ConfigView, (int, ConfigErrorKindView)>(c4));
    assert(c4 == c);
}


// ---------------------------------------------------------------------------
// Laws of config.txt as a whole
// ---------------------------------------------------------------------------

/// A line that `config.txt` accepts: blank, a `#` comment, or a known key
/// with a valid value. Whether a line is accepted does not depend on the
/// settings read before it.
pub open spec fn config_line_ok(line: Seq<char>) -> bool {
    apply_config_line(default_config(), line) is Ok
}

/// The key that a `key=value` line sets, if the line is one.
pub open spec fn config_line_key(line: Seq<char>) -> Option<Seq<char>> {
    let t = trim(line);
    if t.len() == 0 || t[0] == '#' {
        None
    } else {
        match split_once(t, '=') {
            Some((k, v)) => Some(trim(k)),
            None => None,
        }
    }
}

/// The value that a `key=value` line gives, trimmed.
pub open spec fn config_line_value(line: Seq<char>) -> Seq<char> {
    match split_once(trim(line), '=') {
        Some((k, v)) => trim(v),
        None => Seq::empty(),
    }
}

/// The value of the last of the lines `ls[i..]` that sets `key`.
pub open spec fn last_set(ls: Seq<Seq<char>>, i: int, key: Seq<char>) -> Option<Seq<char>>
    decreases ls.len() - i,
{
    if i < 0 || i >= ls.len() {
        None
    } else {
        match last_set(ls, i + 1, key) {
            Some(v) => Some(v),
            None => if config_line_key(ls[i]) == Some(key) {
                Some(config_line_value(ls[i]))
            } else {
                None
            },
        }
    }
}

/// The settings that the lines `ls[i..]` leave when applied to `cfg`: each
/// key takes the value of the last line that sets it, and keeps its value in
/// `cfg` when no line does.
pub open spec fn settings_after(ls: Seq<Seq<char>>, i: int, cfg: ConfigView) -> ConfigView {
    ConfigView {
        max_history_items: match last_set(ls, i, "max_history_items"@) {
            Some(v) => parses_as_isize(v).unwrap(),
            None => cfg.max_history_items,
        },
        safety_policy: match last_set(ls, i, "safety_policy"@) {
            Some(v) => safety_policy_of(v).unwrap(),
            None => cfg.safety_policy,
        },
        dry_run: match last_set(ls, i, "dry_run"@) {
            Some(v) => dry_run_of(v).unwrap(),
            None => cfg.dry_run,
        },
        active_profile: match last_set(ls, i, "active_profile"@) {
            Some(v) => v,
            None => cfg.active_profile,
        },
    }
}

/// One accepted line changes only the key that it sets.
proof fn lemma_config_line_effect(cfg: ConfigView, line: Seq<char>)
    ensures
        apply_config_line(cfg, line) is Ok <==> config_line_ok(line),
        apply_config_line(cfg, line) matches Ok(c) ==> c == settings_after(seq![line], 0, cfg),
{
    reveal_strlit("max_history_items");
    reveal_strlit("safety_policy");
    reveal_strlit("dry_run");
    reveal_strlit("active_profile");
    assert("max_history_items"@.len() == 17);
    assert("safety_policy"@.len() == 13);
    assert("dry_run"@.len() == 7);
    assert("active_profile"@.len() == 14);
    let ls = seq![line];
    assert(ls[0] == line);
    assert(last_set(ls, 1, "max_history_items"@) is None);
    assert(last_set(ls, 1, "safety_policy"@) is None);
    assert(last_set(ls, 1, "dry_run"@) is None);
    assert(last_set(ls, 1, "active_profile"@) is None);
    let k = config_line_key(line);
    let v = config_line_value(line);
    assert(last_set(ls, 0, "max_history_items"@) == (if k == Some("max_history_items"@) { Some(v) } else { None }));
    assert(last_set(ls, 0, "safety_policy"@) == (if k == Some("safety_policy"@) { Some(v) } else { None }));
    assert(last_set(ls, 0, "dry_run"@) == (if k == Some("dry_run"@) { Some(v) } else { None }));
    assert(last_set(ls, 0, "active_profile"@) == (if k == Some("active_profile"@) { Some(v) } else { None }));
    if let Ok(c) = apply_config_line(cfg, line) {
        let t = trim(line);
        if t.len() == 0 || t[0] == '#' {
            assert(k is None);
        } else {
            assert(k is Some);
            let key = k.unwrap();
            let sa = settings_after(ls, 0, cfg);
            if key == "max_history_items"@ {
                assert(sa.max_history_items == c.max_history_items);
                assert(sa.safety_policy == c.safety_policy);
                assert(sa.dry_run == c.dry_run);
                assert(sa.active_profile == c.active_profile);
            } else if key == "safety_policy"@ {
                assert(sa.max_history_items == c.max_history_items);
                assert(sa.safety_policy == c.safety_policy);
                assert(sa.dry_run == c.dry_run);
                assert(sa.active_profile == c.active_profile);
            } else if key == "dry_run"@ {
                assert(sa.max_history_items == c.max_history_items);
                assert(sa.safety_policy == c.safety_policy);
                assert(sa.dry_run == c.dry_run);
                assert(sa.active_profile == c.active_profile);
            } else {
                assert(key == "active_profile"@);
                assert(sa.max_history_items == c.max_history_items);
                assert(sa.safety_policy == c.safety_policy);
                assert(sa.dry_run == c.dry_run);
                assert(sa.active_profile == c.active_profile);
            }
        }
    }
}

proof fn lemma_config_lines_effect(ls: Seq<Seq<char>>, i: int, cfg: ConfigView)
    requires
        0 <= i <= ls.len(),
    ensures
        apply_config_lines(ls, i, cfg) is Ok <==> forall|j: int|
            i <= j < ls.len() ==> config_line_ok(#[trigger] ls[j]),
        apply_config_lines(ls, i, cfg) matches Ok(c) ==> c == settings_after(ls, i, cfg),
        apply_config_lines(ls, i, cfg) matches Err((n, e)) ==> i + 1 <= n <= ls.len()
            && !config_line_ok(ls[n - 1]) && forall|j: int|
            i <= j < n - 1 ==> config_line_ok(#[trigger] ls[j]),
    decreases ls.len() - i,
{
    if i < ls.len() {
        lemma_config_line_effect(cfg, ls[i]);
        if let Ok(c1) = apply_config_line(cfg, ls[i]) {
            lemma_config_lines_effect(ls, i + 1, c1);
            let one = seq![ls[i]];
            assert(last_set(one, 1, "max_history_items"@) is None);
            assert(last_set(one, 1, "safety_policy"@) is None);
            assert(last_set(one, 1, "dry_run"@) is None);
            assert(last_set(one, 1, "active_profile"@) is None);
            if apply_config_lines(ls, i, cfg) is Ok {
                assert forall|j: int| i <= j < ls.len() implies config_line_ok(#[trigger] ls[j]) by {
                    if j == i {
                    }
                }
            }
            if let Err((n, e)) = apply_config_lines(ls, i, cfg) {
                assert forall|j: int| i <= j < n - 1 implies config_line_ok(#[trigger] ls[j]) by {
                    if j == i {
                    }
                }
            }
        }
    }
}

/// The settings that `config.txt` describes: the text is accepted exactly
/// when every line is blank, a comment or a valid `key=value`; then every key
/// takes the value of the last line that sets it and keeps its default when
/// no line does (so a text of blank lines and comments gives the defaults);
/// otherwise the error names the first bad line.
pub proof fn lemma_config_settings(content: Seq<char>)
    ensures
        config_of(content) is Ok <==> forall|j: int|
            0 <= j < lines(content).len() ==> config_line_ok(#[trigger] lines(content)[j]),
        config_of(content) matches Ok(c) ==> c == settings_after(
            lines(content),
            0,
            default_config(),
        ),
        config_of(content) matches Err((n, e)) ==> 1 <= n <= lines(content).len()
            && !config_line_ok(lines(content)[n - 1]) && forall|j: int|
            0 <= j < n - 1 ==> config_line_ok(#[trigger] lines(content)[j]),
        (forall|j: int|
            0 <= j < lines(content).len() ==> config_line_key(#[trigger] lines(content)[j])
                is None && config_line_ok(lines(content)[j])) ==> config_of(content) == Ok::<
            ConfigView,
            (int, ConfigErrorKindView),
        >(default_config()),
{
    let ls = lines(content);
    lemma_config_lines_effect(ls, 0, default_config());
    if forall|j: int| 0 <= j < ls.len() ==> config_line_key(#[trigger] ls[j]) is None
        && config_line_ok(ls[j]) {
        lemma_last_set_none(ls, 0, "max_history_items"@);
        lemma_last_set_none(ls, 0, "safety_policy"@);
        lemma_last_set_none(ls, 0, "dry_run"@);
        lemma_last_set_none(ls, 0, "active_profile"@);
    }
}

proof fn lemma_last_set_none(ls: Seq<Seq<char>>, i: int, key: Seq<char>)
    requires
        0 <= i,
        forall|j: int| 0 <= j < ls.len() ==> config_line_key(#[trigger] ls[j]) is None,
    ensures
        last_set(ls, i, key) is None,
    decreases ls.len() - i,
{
    if i < ls.len() {
        lemma_last_set_none(ls, i + 1, key);
    }
}

} // verus!
