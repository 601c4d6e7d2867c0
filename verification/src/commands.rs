//! The built-in `:` commands: how an input line is recognised, and the
//! decisions and texts that the commands compute.

use vstd::prelude::*;
use crate::text::{
    chars_eq, chars_of, is_trimmed, join, lines, sviews, string_of, strip_prefix, sub_chars, trim,
    trim_chars,
};
use crate::number::decimal;

verus! {

/// A built-in command, recognised from an input line that starts with `:`.
#[derive(Clone, Debug, PartialEq, Eq)]
pub enum BuiltinCommand {
    Help,
    Doctor,
    SetDryRun(bool),
    ProfileList,
    ProfileUse(String),
    Completion(String),
    ShortcutsList,
    ShortcutsTag(String),
    ShortcutsAdd(String),
    ShortcutsDel(String),
    HistoryList,
    HistoryRanked,
    HistoryAdd(String),
    HistoryPin(String),
    HistoryUnpin(String),
    HistoryDel(String),
    HistoryDedupe,
    HistoryClear,
    Find(String),
    FindBang(String),
    Export(String),
    Import(String),
    Undo,
    Exit,
    Reload,
    Unknown,
}

/// The mathematical value of a [`BuiltinCommand`].
pub enum CommandView {
    Help,
    Doctor,
    SetDryRun(bool),
    ProfileList,
    ProfileUse(Seq<char>),
    Completion(Seq<char>),
    ShortcutsList,
    ShortcutsTag(Seq<char>),
    ShortcutsAdd(Seq<char>),
    ShortcutsDel(Seq<char>),
    HistoryList,
    HistoryRanked,
    HistoryAdd(Seq<char>),
    HistoryPin(Seq<char>),
    HistoryUnpin(Seq<char>),
    HistoryDel(Seq<char>),
    HistoryDedupe,
    HistoryClear,
    Find(Seq<char>),
    FindBang(Seq<char>),
    Export(Seq<char>),
    Import(Seq<char>),
    Undo,
    Exit,
    Reload,
    Unknown,
}

impl View for BuiltinCommand {
    type V = CommandView;

    open spec fn view(&self) -> CommandView {
        match self {
            BuiltinCommand::Help => CommandView::Help,
            BuiltinCommand::Doctor => CommandView::Doctor,
            BuiltinCommand::SetDryRun(b) => CommandView::SetDryRun(*b),
            BuiltinCommand::ProfileList => CommandView::ProfileList,
            BuiltinCommand::ProfileUse(s) => CommandView::ProfileUse(s@),
            BuiltinCommand::Completion(s) => CommandView::Completion(s@),
            BuiltinCommand::ShortcutsList => CommandView::ShortcutsList,
            BuiltinCommand::ShortcutsTag(s) => CommandView::ShortcutsTag(s@),
            BuiltinCommand::ShortcutsAdd(s) => CommandView::ShortcutsAdd(s@),
            BuiltinCommand::ShortcutsDel(s) => CommandView::ShortcutsDel(s@),
            BuiltinCommand::HistoryList => CommandView::HistoryList,
            BuiltinCommand::HistoryRanked => CommandView::HistoryRanked,
            BuiltinCommand::HistoryAdd(s) => CommandView::HistoryAdd(s@),
            BuiltinCommand::HistoryPin(s) => CommandView::HistoryPin(s@),
            BuiltinCommand::HistoryUnpin(s) => CommandView::HistoryUnpin(s@),
            BuiltinCommand::HistoryDel(s) => CommandView::HistoryDel(s@),
            BuiltinCommand::HistoryDedupe => CommandView::HistoryDedupe,
            BuiltinCommand::HistoryClear => CommandView::HistoryClear,
            BuiltinCommand::Find(s) => CommandView::Find(s@),
            BuiltinCommand::FindBang(s) => CommandView::FindBang(s@),
            BuiltinCommand::Export(s) => CommandView::Export(s@),
            BuiltinCommand::Import(s) => CommandView::Import(s@),
            BuiltinCommand::Undo => CommandView::Undo,
            BuiltinCommand::Exit => CommandView::Exit,
            BuiltinCommand::Reload => CommandView::Reload,
            BuiltinCommand::Unknown => CommandView::Unknown,
        }
    }
}

/// The built-in command that an input line names, if the line starts with
/// `:`; the first form that matches wins, and a line that matches none is
/// `Unknown`.
pub open spec fn command_of(s: Seq<char>) -> Option<CommandView> {
    if !(s.len() > 0 && s[0] == ':') {
        None
    } else if s == ":help"@ || s == ":?"@ {
        Some(CommandView::Help)
    } else if s == ":doctor"@ {
        Some(CommandView::Doctor)
    } else if s == ":set dry-run on"@ {
        Some(CommandView::SetDryRun(true))
    } else if s == ":set dry-run off"@ {
        Some(CommandView::SetDryRun(false))
    } else if s == ":profile list"@ {
        Some(CommandView::ProfileList)
    } else if let Some(p) = strip_prefix(s, ":profile use "@) {
        Some(CommandView::ProfileUse(trim(p)))
    } else if let Some(p) = strip_prefix(s, ":completion "@) {
        Some(CommandView::Completion(trim(p)))
    } else if s == ":exit"@ || s == ":quit"@ || s == ":q"@ {
        Some(CommandView::Exit)
    } else if s == ":reload"@ || s == ":r"@ {
        Some(CommandView::Reload)
    } else if s == ":shortcuts"@ || s == ":s"@ {
        Some(CommandView::ShortcutsList)
    } else if let Some(p) = strip_prefix(s, ":shortcuts tag "@) {
        Some(CommandView::ShortcutsTag(trim(p)))
    } else if let Some(p) = strip_prefix(s, ":shortcuts add "@) {
        Some(CommandView::ShortcutsAdd(p))
    } else if let Some(p) = strip_prefix(s, ":shortcuts del "@) {
        Some(CommandView::ShortcutsDel(trim(p)))
    } else if s == ":history"@ || s == ":h"@ {
        Some(CommandView::HistoryList)
    } else if s == ":history ranked"@ {
        Some(CommandView::HistoryRanked)
    } else if let Some(p) = strip_prefix(s, ":history add "@) {
        Some(CommandView::HistoryAdd(p))
    } else if let Some(p) = strip_prefix(s, ":history pin "@) {
        Some(CommandView::HistoryPin(trim(p)))
    } else if let Some(p) = strip_prefix(s, ":history unpin "@) {
        Some(CommandView::HistoryUnpin(trim(p)))
    } else if let Some(p) = strip_prefix(s, ":history del "@) {
        Some(CommandView::HistoryDel(trim(p)))
    } else if s == ":history dedupe"@ {
        Some(CommandView::HistoryDedupe)
    } else if s == ":history clear"@ {
        Some(CommandView::HistoryClear)
    } else if let Some(p) = strip_prefix(s, ":find "@) {
        Some(CommandView::Find(p))
    } else if let Some(p) = strip_prefix(s, ":find! "@) {
        Some(CommandView::FindBang(p))
    } else if let Some(p) = strip_prefix(s, ":export "@) {
        Some(CommandView::Export(trim(p)))
    } else if let Some(p) = strip_prefix(s, ":import "@) {
        Some(CommandView::Import(trim(p)))
    } else if s == ":undo"@ {
        Some(CommandView::Undo)
    } else {
        Some(CommandView::Unknown)
    }
}

/// Whether `v` is exactly the string `lit`.
fn is_lit(v: &[char], lit: &str) -> (r: bool)
    ensures
        r == (v@ == lit@),
{
    let w = chars_of(lit);
    chars_eq(v, w.as_slice())
}

/// The rest of `v` after the prefix `lit`, if `v` starts with it.
fn strip_lit(v: &[char], lit: &str) -> (r: Option<Vec<char>>)
    ensures
        match strip_prefix(v@, lit@) {
            Some(p) => r matches Some(x) && x@ == p,
            None => r is None,
        },
{
    let w = chars_of(lit);
    assert(v@.skip(0) =~= v@);
    if crate::text::starts_with_at(v, 0, w.as_slice()) {
        let rest = sub_chars(v, w.len(), v.len());
        assert(rest@ =~= v@.skip(w.len() as int));
        Some(rest)
    } else {
        None
    }
}

/// The rest after `lit`, trimmed, as a string.
fn strip_lit_trimmed(v: &[char], lit: &str) -> (r: Option<String>)
    ensures
        match strip_prefix(v@, lit@) {
            Some(p) => r matches Some(x) && x@ == trim(p),
            None => r is None,
        },
{
    match strip_lit(v, lit) {
        Some(rest) => Some(string_of(trim_chars(rest.as_slice()).as_slice())),
        None => None,
    }
}

/// The rest after `lit`, as it stands, as a string.
fn strip_lit_raw(v: &[char], lit: &str) -> (r: Option<String>)
    ensures
        match strip_prefix(v@, lit@) {
            Some(p) => r matches Some(x) && x@ == p,
            None => r is None,
        },
{
    match strip_lit(v, lit) {
        Some(rest) => Some(string_of(rest.as_slice())),
        None => None,
    }
}

/// Recognises a built-in command: `None` for a line that does not start
/// with `:`, otherwise the command it names (`Unknown` for none).
pub fn parse_builtin_command(input: &str) -> (r: Option<BuiltinCommand>)
    ensures
        match command_of(input@) {
            Some(c) => r matches Some(x) && x@ == c,
            None => r is None,
        },
{
    let v = chars_of(input);
    let s = v.as_slice();
    if !(v.len() > 0 && v[0] == ':') {
        return None;
    }
    if is_lit(s, ":help") || is_lit(s, ":?") {
        return Some(BuiltinCommand::Help);
    }
    if is_lit(s, ":doctor") {
        return Some(BuiltinCommand::Doctor);
    }
    if is_lit(s, ":set dry-run on") {
        return Some(BuiltinCommand::SetDryRun(true));
    }
    if is_lit(s, ":set dry-run off") {
        return Some(BuiltinCommand::SetDryRun(false));
    }
    if is_lit(s, ":profile list") {
        return Some(BuiltinCommand::ProfileList);
    }
    if let Some(p) = strip_lit_trimmed(s, ":profile use ") {
        return Some(BuiltinCommand::ProfileUse(p));
    }
    if let Some(p) = strip_lit_trimmed(s, ":completion ") {
        return Some(BuiltinCommand::Completion(p));
    }
    if is_lit(s, ":exit") || is_lit(s, ":quit") || is_lit(s, ":q") {
        return Some(BuiltinCommand::Exit);
    }
    if is_lit(s, ":reload") || is_lit(s, ":r") {
        return Some(BuiltinCommand::Reload);
    }
    if is_lit(s, ":shortcuts") || is_lit(s, ":s") {
        return Some(BuiltinCommand::ShortcutsList);
    }
    if let Some(p) = strip_lit_trimmed(s, ":shortcuts tag ") {
        return Some(BuiltinCommand::ShortcutsTag(p));
    }
    if let Some(p) = strip_lit_raw(s, ":shortcuts add ") {
        return Some(BuiltinCommand::ShortcutsAdd(p));
    }
    if let Some(p) = strip_lit_trimmed(s, ":shortcuts del ") {
        return Some(BuiltinCommand::ShortcutsDel(p));
    }
    if is_lit(s, ":history") || is_lit(s, ":h") {
        return Some(BuiltinCommand::HistoryList);
    }
    if is_lit(s, ":history ranked") {
        return Some(BuiltinCommand::HistoryRanked);
    }
    if let Some(p) = strip_lit_raw(s, ":history add ") {
        return Some(BuiltinCommand::HistoryAdd(p));
    }
    if let Some(p) = strip_lit_trimmed(s, ":history pin ") {
        return Some(BuiltinCommand::HistoryPin(p));
    }
    if let Some(p) = strip_lit_trimmed(s, ":history unpin ") {
        return Some(BuiltinCommand::HistoryUnpin(p));
    }
    if let Some(p) = strip_lit_trimmed(s, ":history del ") {
        return Some(BuiltinCommand::HistoryDel(p));
    }
    if is_lit(s, ":history dedupe") {
        return Some(BuiltinCommand::HistoryDedupe);
    }
    if is_lit(s, ":history clear") {
        return Some(BuiltinCommand::HistoryClear);
    }
    if let Some(p) = strip_lit_raw(s, ":find ") {
        return Some(BuiltinCommand::Find(p));
    }
    if let Some(p) = strip_lit_raw(s, ":find! ") {
        return Some(BuiltinCommand::FindBang(p));
    }
    if let Some(p) = strip_lit_trimmed(s, ":export ") {
        return Some(BuiltinCommand::Export(p));
    }
    if let Some(p) = strip_lit_trimmed(s, ":import ") {
        return Some(BuiltinCommand::Import(p));
    }
    if is_lit(s, ":undo") {
        return Some(BuiltinCommand::Undo);
    }
    Some(BuiltinCommand::Unknown)
}

/// Whether a scripted command line names a built-in command.
pub fn handle_script_shortcut_command(input: &str) -> (r: bool)
    ensures
        r == (command_of(input@) is Some),
{
    parse_builtin_command(input).is_some()
}

/// The history files: `history.txt`, the pins and the usage counters.
pub open spec fn history_files() -> Seq<Seq<char>> {
    seq!["history.txt"@, "history_pins.txt"@, "history_usage.txt"@]
}

/// The files that a built-in command backs up before it changes them: none
/// in a scripted run; the profile's shortcut file and the history files for
/// a shortcut edit; `shortcuts.txt` and the history files for a history
/// edit; every state file, the profile's shortcut file among them, for an
/// import; none for the other commands.
pub open spec fn backup_paths_of(cmd: CommandView, scripted: bool, shortcuts_file: Seq<char>) -> Seq<
    Seq<char>,
> {
    if scripted {
        Seq::empty()
    } else {
        match cmd {
            CommandView::ShortcutsAdd(_) => seq![shortcuts_file] + history_files(),
            CommandView::ShortcutsDel(_) => seq![shortcuts_file] + history_files(),
            CommandView::HistoryAdd(_) => seq!["shortcuts.txt"@] + history_files(),
            CommandView::HistoryPin(_) => seq!["shortcuts.txt"@] + history_files(),
            CommandView::HistoryUnpin(_) => seq!["shortcuts.txt"@] + history_files(),
            CommandView::HistoryDel(_) => seq!["shortcuts.txt"@] + history_files(),
            CommandView::HistoryDedupe => seq!["shortcuts.txt"@] + history_files(),
            CommandView::HistoryClear => seq!["shortcuts.txt"@] + history_files(),
            CommandView::Import(_) => seq!["config.txt"@, "shortcuts.txt"@, shortcuts_file]
                + history_files() + seq!["placeholder_values.txt"@],
            _ => Seq::empty(),
        }
    }
}

/// Appends the history files.
fn push_history_files(out: &mut Vec<String>)
    ensures
        sviews(final(out)@) == sviews(old(out)@) + history_files(),
{
    let ghost before = sviews(out@);
    out.push(String::from_str("history.txt"));
    out.push(String::from_str("history_pins.txt"));
    out.push(String::from_str("history_usage.txt"));
    assert(sviews(out@) =~= before + history_files());
}

/// The files to back up before running `command`.
pub fn backup_paths(command: &BuiltinCommand, scripted: bool, shortcuts_file: &str) -> (r: Vec<
    String,
>)
    ensures
        sviews(r@) == backup_paths_of(command@, scripted, shortcuts_file@),
{
    let mut out: Vec<String> = Vec::new();
    if scripted {
        assert(sviews(out@) =~= Seq::<Seq<char>>::empty());
        return out;
    }
    let (lead, shortcut_edit, import) = match command {
        BuiltinCommand::ShortcutsAdd(_) | BuiltinCommand::ShortcutsDel(_) => (true, true, false),
        BuiltinCommand::HistoryAdd(_)
        | BuiltinCommand::HistoryPin(_)
        | BuiltinCommand::HistoryUnpin(_)
        | BuiltinCommand::HistoryDel(_)
        | BuiltinCommand::HistoryDedupe
        | BuiltinCommand::HistoryClear => (true, false, false),
        BuiltinCommand::Import(_) => (true, false, true),
        _ => (false, false, false),
    };
    if !lead {
        assert(sviews(out@) =~= Seq::<Seq<char>>::empty());
        return out;
    }
    if shortcut_edit {
        out.push(String::from_str(shortcuts_file));
    } else if import {
        out.push(String::from_str("config.txt"));
        out.push(String::from_str("shortcuts.txt"));
        out.push(String::from_str(shortcuts_file));
    } else {
        out.push(String::from_str("shortcuts.txt"));
    }
    let ghost head = sviews(out@);
    push_history_files(&mut out);
    let ghost mid = sviews(out@);
    assert(mid == head + history_files());
    if import {
        out.push(String::from_str("placeholder_values.txt"));
        assert(sviews(out@) =~= mid.push("placeholder_values.txt"@));
    }
    proof {
        if shortcut_edit {
            assert(sviews(out@) =~= seq![shortcuts_file@] + history_files());
        } else if import {
            assert(head =~= seq!["config.txt"@, "shortcuts.txt"@, shortcuts_file@]);
            assert(sviews(out@) =~= seq!["config.txt"@, "shortcuts.txt"@, shortcuts_file@]
                + history_files() + seq!["placeholder_values.txt"@]);
        } else {
            assert(sviews(out@) =~= seq!["shortcuts.txt"@] + history_files());
        }
    }
    out
}

/// What an input line at the prompt asks for.
#[derive(Clone, Debug)]
pub enum InputKind {
    /// Nothing but whitespace.
    Blank,
    /// A built-in command.
    Builtin(BuiltinCommand),
    /// The shortcut at this index of the shortcut list.
    Shortcut(usize),
    /// A raw shell command: the trimmed line.
    Raw(String),
}

/// The mathematical value of an [`InputKind`].
pub enum InputView {
    Blank,
    Builtin(CommandView),
    Shortcut(nat),
    Raw(Seq<char>),
}

impl View for InputKind {
    type V = InputView;

    open spec fn view(&self) -> InputView {
        match self {
            InputKind::Blank => InputView::Blank,
            InputKind::Builtin(c) => InputView::Builtin(c@),
            InputKind::Shortcut(i) => InputView::Shortcut(*i as nat),
            InputKind::Raw(s) => InputView::Raw(s@),
        }
    }
}

/// What an input line asks for: after trimming, nothing; a built-in command
/// when it starts with `:`; else the first shortcut with that exact name;
/// else a raw command.
pub open spec fn input_kind_of(input: Seq<char>, shortcuts: Seq<crate::shortcuts::ShortcutView>) -> InputView {
    let t = trim(input);
    if t.len() == 0 {
        InputView::Blank
    } else {
        match command_of(t) {
            Some(c) => InputView::Builtin(c),
            None => match crate::shortcuts::name_position(shortcuts, t) {
                Some(i) => InputView::Shortcut(i as nat),
                None => InputView::Raw(t),
            },
        }
    }
}

/// Tells what an input line at the prompt asks for.
pub fn classify_input(input: &str, shortcuts: &[crate::shortcuts::Shortcut]) -> (r: InputKind)
    ensures
        r@ == input_kind_of(input@, crate::shortcuts::shortcut_views(shortcuts@)),
{
    let t = crate::text::trim_str(input);
    if t.as_str().is_empty() {
        return InputKind::Blank;
    }
    match parse_builtin_command(t.as_str()) {
        Some(c) => InputKind::Builtin(c),
        None => match crate::shortcuts::find_index(shortcuts, t.as_str()) {
            Some(i) => InputKind::Shortcut(i),
            None => InputKind::Raw(t),
        },
    }
}

/// Only raw commands reach the history: a line taken as a raw command is
/// non-empty, does not start with `:` and names no shortcut, and a line
/// taken as a shortcut names that shortcut.
pub proof fn lemma_raw_input_is_no_shortcut(
    input: Seq<char>,
    shortcuts: Seq<crate::shortcuts::ShortcutView>,
)
    ensures
        input_kind_of(input, shortcuts) matches InputView::Raw(t) ==> t == trim(input) && t.len()
            > 0 && t[0] != ':' && !crate::shortcuts::names_of(shortcuts).contains(t),
        input_kind_of(input, shortcuts) matches InputView::Shortcut(i) ==> i < shortcuts.len()
            && shortcuts[i as int].name == trim(input),
{
    let t = trim(input);
    lemma_builtin_iff_colon(t);
    crate::history::lemma_position(crate::shortcuts::names_of(shortcuts), t);
}

/// A line is a built-in command exactly when it starts with `:`.
pub proof fn lemma_builtin_iff_colon(s: Seq<char>)
    ensures
        command_of(s) is Some <==> (s.len() > 0 && s[0] == ':'),
{
}


// ---------------------------------------------------------------------------
// Hints, profiles and shortcut specs
// ---------------------------------------------------------------------------

/// The hint list: the shortcut names, then each history entry that is not
/// already in the list, in order.
pub open spec fn hint_names(names: Seq<Seq<char>>, entries: Seq<Seq<char>>) -> Seq<Seq<char>>
    decreases entries.len(),
{
    if entries.len() == 0 {
        names
    } else {
        let h = hint_names(names, entries.drop_last());
        if h.contains(entries.last()) {
            h
        } else {
            h.push(entries.last())
        }
    }
}

fn contains_string(v: &Vec<String>, s: &String) -> (r: bool)
    ensures
        r == sviews(v@).contains(s@),
{
    let mut i: usize = 0;
    while i < v.len()
        invariant
            i <= v.len(),
            forall|k: int| 0 <= k < i ==> sviews(v@)[k] != s@,
        decreases v.len() - i,
    {
        if crate::text::str_eq(v[i].as_str(), s.as_str()) {
            assert(sviews(v@)[i as int] == s@);
            return true;
        }
        i += 1;
    }
    false
}

/// The names offered as hints: shortcut names, then history entries not yet listed.
pub fn build_hint_names(sc_names: &[String], history_entries: &[String]) -> (r: Vec<String>)
    ensures
        sviews(r@) == hint_names(sviews(sc_names@), sviews(history_entries@)),
{
    let mut r = crate::history::tail_strings(sc_names, 0);
    assert(sviews(sc_names@).skip(0) =~= sviews(sc_names@));
    let mut i: usize = 0;
    while i < history_entries.len()
        invariant
            i <= history_entries.len(),
            sviews(r@) == hint_names(sviews(sc_names@), sviews(history_entries@).take(i as int)),
        decreases history_entries.len() - i,
    {
        let ghost es = sviews(history_entries@).take(i + 1);
        assert(es.drop_last() =~= sviews(history_entries@).take(i as int));
        if !contains_string(&r, &history_entries[i]) {
            let ghost old_r = sviews(r@);
            r.push(history_entries[i].clone());
            assert(sviews(r@) =~= old_r.push(history_entries@[i as int]@));
        }
        i += 1;
    }
    assert(sviews(history_entries@).take(history_entries.len() as int) =~= sviews(
        history_entries@,
    ));
    r
}

/// The shortcut file of a profile: `shortcuts.txt` for `default` (ASCII case
/// ignored), `shortcuts.<profile>.txt` otherwise.
pub open spec fn profile_file(profile: Seq<char>) -> Seq<char> {
    if crate::text::eq_ignore_ascii_case(profile, "default"@) {
        "shortcuts.txt"@
    } else {
        "shortcuts."@ + profile + ".txt"@
    }
}

/// The shortcut file of a profile.
pub fn shortcuts_file_for_profile(profile: &str) -> (r: String)
    ensures
        r@ == profile_file(profile@),
{
    if crate::text::str_eq_ignore_ascii_case(profile, "default") {
        String::from_str("shortcuts.txt")
    } else {
        let mut out = chars_of("shortcuts.");
        crate::text::extend_str(&mut out, profile);
        crate::text::extend_str(&mut out, ".txt");
        string_of(out.as_slice())
    }
}

/// Why a `:shortcuts add` spec was refused.
#[derive(Clone, Copy, Debug, PartialEq, Eq, Structural)]
pub enum ShortcutSpecError {
    /// The spec holds no `=`.
    MissingEquals,
    /// The name or the command is empty.
    EmptyNameOrCommand,
}

impl ShortcutSpecError {
    /// The message that reports this error.
    pub fn message(&self) -> (r: String)
        ensures
            r@ == match *self {
                ShortcutSpecError::MissingEquals => "Expected ':shortcuts add <name>[tag1,tag2]=<command>'"@,
                ShortcutSpecError::EmptyNameOrCommand => "Shortcut name and command must be non-empty"@,
            },
    {
        match *self {
            ShortcutSpecError::MissingEquals => String::from_str(
                "Expected ':shortcuts add <name>[tag1,tag2]=<command>'",
            ),
            ShortcutSpecError::EmptyNameOrCommand => String::from_str(
                "Shortcut name and command must be non-empty",
            ),
        }
    }
}

/// What `:shortcuts add <name>[tags]=<command>` describes.
pub open spec fn shortcut_spec_of(spec: Seq<char>) -> Result<
    (Seq<char>, Seq<Seq<char>>, Seq<char>),
    ShortcutSpecError,
> {
    match crate::text::split_once(spec, '=') {
        None => Err(ShortcutSpecError::MissingEquals),
        Some((n, c)) => {
            let (name, tags) = crate::shortcuts::key_parts(n, false);
            let command = trim(c);
            if name.len() == 0 || command.len() == 0 {
                Err(ShortcutSpecError::EmptyNameOrCommand)
            } else {
                Ok((name, tags, command))
            }
        },
    }
}

/// Reads the `<name>[tag1,tag2]=<command>` part of `:shortcuts add`.
pub fn parse_shortcut_add(spec: &str) -> (r: Result<(String, Vec<String>, String), ShortcutSpecError>)
    ensures
        match shortcut_spec_of(spec@) {
            Ok((n, t, c)) => r matches Ok(x) && x.0@ == n && sviews(x.1@) == t && x.2@ == c,
            Err(e) => r == Err::<(String, Vec<String>, String), ShortcutSpecError>(e),
        },
{
    let v = chars_of(spec);
    let n = v.len();
    let e = match crate::text::find_char(v.as_slice(), 0, n, '=') {
        None => {
            assert(v@.subrange(0, n as int) =~= spec@);
            return Err(ShortcutSpecError::MissingEquals);
        },
        Some(e) => e,
    };
    proof {
        assert(v@.subrange(0, n as int) =~= spec@);
        crate::text::lemma_index_of(spec@, '=');
        assert(spec@.take(e as int) =~= v@.subrange(0, e as int));
        assert(spec@.skip(e + 1) =~= v@.subrange(e + 1, n as int));
    }
    let name_part = crate::text::string_of_range(v.as_slice(), 0, e);
    let (name, tags) = crate::shortcuts::parse_name_and_tags(name_part.as_str());
    let (ca, cb) = crate::text::trim_bounds(v.as_slice(), e + 1, n);
    if name.as_str().is_empty() || ca == cb {
        return Err(ShortcutSpecError::EmptyNameOrCommand);
    }
    Ok((name, tags, crate::text::string_of_range(v.as_slice(), ca, cb)))
}

/// How a shortcut is listed: `name = command`, or `name [t1,t2] = command`.
pub open spec fn shortcut_listing(s: crate::shortcuts::ShortcutView) -> Seq<char> {
    if s.tags.len() == 0 {
        s.name + " = "@ + s.command
    } else {
        s.name + " ["@ + join(s.tags, seq![',']) + "] = "@ + s.command
    }
}

/// How a shortcut is listed.
pub fn format_shortcut(shortcut: &crate::shortcuts::Shortcut) -> (r: String)
    ensures
        r@ == shortcut_listing(shortcut@),
{
    let mut out = chars_of(shortcut.name.as_str());
    if shortcut.tags.len() == 0 {
        crate::text::extend_str(&mut out, " = ");
    } else {
        crate::text::extend_str(&mut out, " [");
        let joined = crate::text::join_strings(shortcut.tags.as_slice(), ",");
        proof {
            reveal_strlit(",");
            assert(","@ =~= seq![',']);
        }
        crate::text::extend_chars(&mut out, joined.as_slice());
        crate::text::extend_str(&mut out, "] = ");
    }
    crate::text::extend_str(&mut out, shortcut.command.as_str());
    string_of(out.as_slice())
}

/// The range `start-end` of `:history del`, each bound a `usize`.
pub open spec fn history_range_of(value: Seq<char>) -> Option<(usize, usize)> {
    match crate::text::split_once(value, '-') {
        None => None,
        Some((a, b)) => match (
            crate::number::parses_as_usize(trim(a)),
            crate::number::parses_as_usize(trim(b)),
        ) {
            (Some(x), Some(y)) => Some((x, y)),
            _ => None,
        },
    }
}

/// Reads a `start-end` range.
pub fn parse_history_range(value: &str) -> (r: Option<(usize, usize)>)
    ensures
        r == history_range_of(value@),
{
    let v = chars_of(value);
    let n = v.len();
    assert(v@.subrange(0, n as int) =~= value@);
    let d = match crate::text::find_char(v.as_slice(), 0, n, '-') {
        None => {
            return None;
        },
        Some(d) => d,
    };
    proof {
        crate::text::lemma_index_of(value@, '-');
        assert(value@.take(d as int) =~= v@.subrange(0, d as int));
        assert(value@.skip(d + 1) =~= v@.subrange(d + 1, n as int));
    }
    let (a0, a1) = crate::text::trim_bounds(v.as_slice(), 0, d);
    let (b0, b1) = crate::text::trim_bounds(v.as_slice(), d + 1, n);
    let x = crate::number::parse_usize_range(v.as_slice(), a0, a1);
    let y = crate::number::parse_usize_range(v.as_slice(), b0, b1);
    match (x, y) {
        (Some(x), Some(y)) => Some((x, y)),
        _ => None,
    }
}


/// What the argument of `:history del` asks to delete.
#[derive(Clone, Copy, Debug, PartialEq, Eq, Structural)]
pub enum HistoryDelTarget {
    /// The entries `start` to `end` (1-based, both included).
    Range(usize, usize),
    /// The entry at this 1-based index.
    Index(usize),
    /// Neither a range nor an index.
    Invalid,
}

/// What `:history del <arg>` deletes: a `start-end` range when `arg` reads
/// as one, else the one index that `arg` reads as.
pub open spec fn history_del_target_of(arg: Seq<char>) -> HistoryDelTarget {
    match history_range_of(arg) {
        Some((a, b)) => HistoryDelTarget::Range(a, b),
        None => match crate::number::parses_as_usize(arg) {
            Some(i) => HistoryDelTarget::Index(i),
            None => HistoryDelTarget::Invalid,
        },
    }
}

/// Reads the argument of `:history del`: a range is tried before an index.
pub fn history_del_target(arg: &str) -> (r: HistoryDelTarget)
    ensures
        r == history_del_target_of(arg@),
{
    match parse_history_range(arg) {
        Some((a, b)) => HistoryDelTarget::Range(a, b),
        None => match crate::number::parse_index(arg) {
            Some(i) => HistoryDelTarget::Index(i),
            None => HistoryDelTarget::Invalid,
        },
    }
}

// ---------------------------------------------------------------------------
// Help and completion scripts
// ---------------------------------------------------------------------------

/// The lines of the built-in help.
pub open spec fn help_lines() -> Seq<Seq<char>> {
    seq![
        "Built-in commands (reserved ':' namespace):"@,
        "  :doctor                                       Validate config and data files"@,
        "  :set dry-run on|off                           Toggle dry-run mode"@,
        "  :profile list                                 List available profiles"@,
        "  :profile use <name>                           Switch active profile"@,
        "  :completion bash|powershell                   Generate shell completion file"@,
        "  :shortcuts | :s                               List loaded shortcuts"@,
        "  :shortcuts tag <tag>                          List shortcuts by tag"@,
        "  :shortcuts add <name>[tag1,tag2]=<command>   Add/update shortcut"@,
        "  :shortcuts del <name>                 Delete shortcut"@,
        "  :history   | :h                               List persisted history"@,
        "  :history ranked                               List ranked by recency + frequency"@,
        "  :history add <command>                        Add a history entry"@,
        "  :history del <index> | <start-end>            Delete one/range of history entries"@,
        "  :history pin <index>                          Pin a history entry"@,
        "  :history unpin <index>                        Unpin a history entry"@,
        "  :history dedupe                               Remove duplicates while keeping latest"@,
        "  :history clear                                Clear all history"@,
        "  :find <text>                                  Search shortcuts and history"@,
        "  :find! <text>                                 Search and pick an item to run"@,
        "  :find run <index>                             Run a :find result"@,
        "  :export <file>                                Export shortcuts/history/config state"@,
        "  :import <file>                                Import shortcuts/history/config state"@,
        "  :undo                                         Restore latest backup"@,
        "  :exit | :quit | :q                           Exit qc"@,
        "  :reload | :r                                  Reload config and shortcuts"@,
        "  :help | :?                                    Show this help"@,
    ]
}

/// The built-in help: its lines joined with newlines.
pub fn builtin_help_text() -> (r: String)
    ensures
        r@ == join(help_lines(), seq!['\n']),
{
    let items: [&str; 27] = [
        "Built-in commands (reserved ':' namespace):",
        "  :doctor                                       Validate config and data files",
        "  :set dry-run on|off                           Toggle dry-run mode",
        "  :profile list                                 List available profiles",
        "  :profile use <name>                           Switch active profile",
        "  :completion bash|powershell                   Generate shell completion file",
        "  :shortcuts | :s                               List loaded shortcuts",
        "  :shortcuts tag <tag>                          List shortcuts by tag",
        "  :shortcuts add <name>[tag1,tag2]=<command>   Add/update shortcut",
        "  :shortcuts del <name>                 Delete shortcut",
        "  :history   | :h                               List persisted history",
        "  :history ranked                               List ranked by recency + frequency",
        "  :history add <command>                        Add a history entry",
        "  :history del <index> | <start-end>            Delete one/range of history entries",
        "  :history pin <index>                          Pin a history entry",
        "  :history unpin <index>                        Unpin a history entry",
        "  :history dedupe                               Remove duplicates while keeping latest",
        "  :history clear                                Clear all history",
        "  :find <text>                                  Search shortcuts and history",
        "  :find! <text>                                 Search and pick an item to run",
        "  :find run <index>                             Run a :find result",
        "  :export <file>                                Export shortcuts/history/config state",
        "  :import <file>                                Import shortcuts/history/config state",
        "  :undo                                         Restore latest backup",
        "  :exit | :quit | :q                           Exit qc",
        "  :reload | :r                                  Reload config and shortcuts",
        "  :help | :?                                    Show this help",
    ];
    assert(items@.map_values(|p: &str| p@) =~= help_lines());
    let mut ls: Vec<String> = Vec::new();
    let mut i: usize = 0;
    while i < 27
        invariant
            i <= 27,
            items@.map_values(|p: &str| p@) == help_lines(),
            sviews(ls@) == help_lines().take(i as int),
        decreases 27 - i,
    {
        let ghost old_ls = sviews(ls@);
        ls.push(String::from_str(items[i]));
        assert(sviews(ls@) =~= old_ls.push(help_lines()[i as int]));
        i += 1;
        assert(help_lines().take(i as int) =~= sviews(ls@));
    }
    assert(help_lines().take(27) =~= help_lines());
    let out = crate::text::join_strings(ls.as_slice(), "\n");
    proof {
        reveal_strlit("\n");
        assert("\n"@ =~= seq!['\n']);
    }
    string_of(out.as_slice())
}

/// The built-in words that a completion script offers.
pub open spec fn completion_builtins() -> Seq<Seq<char>> {
    seq![":help"@, ":doctor"@, ":set"@, ":profile"@, ":completion"@, ":shortcuts"@, ":history"@, ":find"@, ":find!"@, ":export"@, ":import"@, ":undo"@, ":reload"@, ":exit"@, ":quit"@, ":q"@]
}

/// A word in single quotes.
pub open spec fn single_quoted(w: Seq<char>) -> Seq<char> {
    seq!['\''] + w + seq!['\'']
}

/// The bash completion script for the given words.
pub open spec fn bash_script(words: Seq<Seq<char>>) -> Seq<char> {
    "_qc_complete() {\n  local cur=\"${COMP_WORDS[COMP_CWORD]}\"\n  COMPREPLY=( $(compgen -W \""@ + join(words, seq![' ']) + "\" -- \"$cur\") )\n}\ncomplete -F _qc_complete qc\n"@
}

/// The PowerShell completion script for the given words.
pub open spec fn powershell_script(words: Seq<Seq<char>>) -> Seq<char> {
    "Register-ArgumentCompleter -Native -CommandName qc -ScriptBlock {\n  param($wordToComplete)\n  @("@ + join(words.map_values(|w: Seq<char>| single_quoted(w)), seq![',']) + ") | Where-Object { $_ -like \"$wordToComplete*\" } | ForEach-Object { [System.Management.Automation.CompletionResult]::new($_, $_, 'ParameterValue', $_) }\n}\n"@
}

/// A shell for which no completion script can be generated.
#[derive(Clone, Debug)]
pub struct UnsupportedShell {
    pub shell: String,
}

/// The completion script for `shell` (`bash` or `powershell`, ASCII case
/// ignored) that offers the built-in words and the shortcut names.
pub open spec fn completion_script_of(shell: Seq<char>, names: Seq<Seq<char>>) -> Option<Seq<char>> {
    let s = crate::text::ascii_lower_seq(shell);
    if s == "bash"@ {
        Some(bash_script(completion_builtins() + names))
    } else if s == "powershell"@ {
        Some(powershell_script(completion_builtins() + names))
    } else {
        None
    }
}

/// Joins the words, each in single quotes, with commas.
fn join_quoted(words: &[String]) -> (r: Vec<char>)
    ensures
        r@ == join(sviews(words@).map_values(|w: Seq<char>| single_quoted(w)), seq![',']),
{
    let mut quoted: Vec<String> = Vec::new();
    let mut i: usize = 0;
    while i < words.len()
        invariant
            i <= words.len(),
            sviews(quoted@) == sviews(words@).take(i as int).map_values(
                |w: Seq<char>| single_quoted(w),
            ),
        decreases words.len() - i,
    {
        let mut q: Vec<char> = Vec::new();
        q.push('\'');
        crate::text::extend_str(&mut q, words[i].as_str());
        q.push('\'');
        let ghost old_q = sviews(quoted@);
        let qs = string_of(q.as_slice());
        assert(qs@ == single_quoted(words@[i as int]@));
        let ghost qv = qs@;
        quoted.push(qs);
        assert(sviews(quoted@) =~= old_q.push(qv));
        assert(sviews(words@).take(i + 1) =~= sviews(words@).take(i as int).push(sviews(words@)[i as int]));
        i += 1;
        assert(sviews(quoted@) =~= sviews(words@).take(i as int).map_values(
            |w: Seq<char>| single_quoted(w),
        ));
    }
    assert(sviews(words@).take(words.len() as int) =~= sviews(words@));
    let r = crate::text::join_strings(quoted.as_slice(), ",");
    proof {
        reveal_strlit(",");
        assert(","@ =~= seq![',']);
    }
    r
}

/// The completion script for `shell` offering the built-ins and `shortcut_names`.
pub fn generate_completion_script(shell: &str, shortcut_names: &[String]) -> (r: Result<
    String,
    UnsupportedShell,
>)
    ensures
        match completion_script_of(shell@, sviews(shortcut_names@)) {
            Some(t) => r matches Ok(x) && x@ == t,
            None => r matches Err(e) && e.shell@ == shell@,
        },
{
    let builtins: [&str; 16] = [":help", ":doctor", ":set", ":profile", ":completion", ":shortcuts", ":history", ":find", ":find!", ":export", ":import", ":undo", ":reload", ":exit", ":quit", ":q"];
    let mut words: Vec<String> = Vec::new();
    let mut i: usize = 0;
    assert(builtins@.map_values(|p: &str| p@) =~= completion_builtins());
    while i < 16
        invariant
            i <= 16,
            builtins@.map_values(|p: &str| p@) == completion_builtins(),
            sviews(words@) == completion_builtins().take(i as int),
        decreases 16 - i,
    {
        let ghost old_w = sviews(words@);
        words.push(String::from_str(builtins[i]));
        assert(sviews(words@) =~= old_w.push(completion_builtins()[i as int]));
        i += 1;
        assert(completion_builtins().take(i as int) =~= sviews(words@));
    }
    assert(completion_builtins().take(16) =~= completion_builtins());
    let mut k: usize = 0;
    while k < shortcut_names.len()
        invariant
            k <= shortcut_names.len(),
            sviews(words@) == completion_builtins() + sviews(shortcut_names@).take(k as int),
        decreases shortcut_names.len() - k,
    {
        let ghost old_w = sviews(words@);
        words.push(shortcut_names[k].clone());
        assert(sviews(words@) =~= old_w.push(shortcut_names@[k as int]@));
        k += 1;
        assert(sviews(words@) =~= completion_builtins() + sviews(shortcut_names@).take(k as int));
    }
    assert(sviews(shortcut_names@).take(shortcut_names.len() as int) =~= sviews(shortcut_names@));
    let lower = crate::text::ascii_lowercase(chars_of(shell).as_slice());
    if chars_eq(lower.as_slice(), chars_of("bash").as_slice()) {
        let mut out = chars_of("_qc_complete() {\n  local cur=\"${COMP_WORDS[COMP_CWORD]}\"\n  COMPREPLY=( $(compgen -W \"");
        let joined = crate::text::join_strings(words.as_slice(), " ");
        proof {
            reveal_strlit(" ");
            assert(" "@ =~= seq![' ']);
        }
        crate::text::extend_chars(&mut out, joined.as_slice());
        crate::text::extend_str(&mut out, "\" -- \"$cur\") )\n}\ncomplete -F _qc_complete qc\n");
        Ok(string_of(out.as_slice()))
    } else if chars_eq(lower.as_slice(), chars_of("powershell").as_slice()) {
        let mut out = chars_of("Register-ArgumentCompleter -Native -CommandName qc -ScriptBlock {\n  param($wordToComplete)\n  @(");
        let joined = join_quoted(words.as_slice());
        crate::text::extend_chars(&mut out, joined.as_slice());
        crate::text::extend_str(&mut out, ") | Where-Object { $_ -like \"$wordToComplete*\" } | ForEach-Object { [System.Management.Automation.CompletionResult]::new($_, $_, 'ParameterValue', $_) }\n}\n");
        Ok(string_of(out.as_slice()))
    } else {
        Err(UnsupportedShell { shell: String::from_str(shell) })
    }
}


// ---------------------------------------------------------------------------
// Usage counters
// ---------------------------------------------------------------------------

/// The values of a list of usage counters.
pub open spec fn count_views(v: Seq<(String, u64)>) -> Seq<(Seq<char>, u64)> {
    v.map_values(|p: (String, u64)| (p.0@, p.1))
}

/// `m` with the counter of `k` set to `n` (a new key goes last).
pub open spec fn set_count(m: Seq<(Seq<char>, u64)>, k: Seq<char>, n: u64) -> Seq<(Seq<char>, u64)> {
    match crate::history::position(crate::shortcuts::keys_of(m), k) {
        Some(i) => m.update(i, (k, n)),
        None => m.push((k, n)),
    }
}

/// The counter that a line of `history_usage.txt` sets: `key=count`, both
/// trimmed, with a count that parses as a `u64`; other lines set none.
pub open spec fn usage_line(line: Seq<char>) -> Option<(Seq<char>, u64)> {
    let l = trim(line);
    if l.len() == 0 {
        None
    } else {
        match crate::text::split_once(l, '=') {
            None => None,
            Some((k, v)) => match crate::number::parses_as_u64(trim(v)) {
                Some(n) => Some((trim(k), n)),
                None => None,
            },
        }
    }
}

/// The counters of the lines `ls[i..]`, set in order on `m`.
pub open spec fn counts_from(ls: Seq<Seq<char>>, i: int, m: Seq<(Seq<char>, u64)>) -> Seq<
    (Seq<char>, u64),
>
    decreases ls.len() - i,
{
    if i < 0 || i >= ls.len() {
        m
    } else {
        match usage_line(ls[i]) {
            Some((k, n)) => counts_from(ls, i + 1, set_count(m, k, n)),
            None => counts_from(ls, i + 1, m),
        }
    }
}

/// The usage counters that the text of `history_usage.txt` holds.
pub open spec fn usage_of(content: Seq<char>) -> Seq<(Seq<char>, u64)> {
    counts_from(crate::text::lines(content), 0, Seq::empty())
}

/// The index of the counter of `key`.
pub fn find_count(m: &[(String, u64)], key: &str) -> (r: Option<usize>)
    ensures
        r matches Some(i) ==> crate::history::position(
            crate::shortcuts::keys_of(count_views(m@)),
            key@,
        ) == Some(i as int) && i < m.len(),
        r is None ==> crate::history::position(
            crate::shortcuts::keys_of(count_views(m@)),
            key@,
        ) is None,
{
    let ghost ks = crate::shortcuts::keys_of(count_views(m@));
    let mut j: usize = 0;
    while j < m.len()
        invariant
            j <= m.len(),
            ks == crate::shortcuts::keys_of(count_views(m@)),
            forall|k: int| 0 <= k < j ==> ks[k] != key@,
        decreases m.len() - j,
    {
        if crate::text::str_eq(m[j].0.as_str(), key) {
            proof {
                crate::history::lemma_position_is(ks, key@, j as int);
            }
            return Some(j);
        }
        j += 1;
    }
    proof {
        crate::history::lemma_position(ks, key@);
        if let Some(k) = crate::history::position(ks, key@) {
            assert(ks[k] == key@);
        }
    }
    None
}

fn set_count_exec(m: &mut Vec<(String, u64)>, key: String, n: u64)
    ensures
        count_views(final(m)@) == set_count(count_views(old(m)@), key@, n),
{
    let ghost old_m = count_views(m@);
    proof {
        crate::history::lemma_position(crate::shortcuts::keys_of(old_m), key@);
    }
    match find_count(m.as_slice(), key.as_str()) {
        Some(j) => {
            let ghost kv = key@;
            m.set(j, (key, n));
            assert(count_views(m@) =~= old_m.update(j as int, (kv, n)));
        },
        None => {
            let ghost kv = key@;
            m.push((key, n));
            assert(count_views(m@) =~= old_m.push((kv, n)));
        },
    }
}

/// Reads the usage counters from the text of `history_usage.txt`.
pub fn parse_usage(content: &str) -> (r: Vec<(String, u64)>)
    ensures
        count_views(r@) == usage_of(content@),
{
    let v = chars_of(content);
    let ls = crate::text::split_lines(v.as_slice());
    let ghost all = crate::text::lines(content@);
    let mut m: Vec<(String, u64)> = Vec::new();
    assert(count_views(m@) =~= Seq::<(Seq<char>, u64)>::empty());
    let mut i: usize = 0;
    while i < ls.len()
        invariant
            i <= ls.len(),
            crate::text::vviews(ls@) == all,
            all == crate::text::lines(content@),
            usage_of(content@) == counts_from(all, i as int, count_views(m@)),
        decreases ls.len() - i,
    {
        let line = &ls[i];
        assert(line@.subrange(0, line.len() as int) =~= line@);
        let (a, b) = crate::text::trim_bounds(line.as_slice(), 0, line.len());
        let ghost l = line@.subrange(a as int, b as int);
        if a < b {
            match crate::text::find_char(line.as_slice(), a, b, '=') {
                Some(e) => {
                    proof {
                        crate::text::lemma_index_of(l, '=');
                        assert(l.take(e - a) =~= line@.subrange(a as int, e as int));
                        assert(l.skip(e - a + 1) =~= line@.subrange(e + 1, b as int));
                    }
                    let (ka, kb) = crate::text::trim_bounds(line.as_slice(), a, e);
                    let (va, vb) = crate::text::trim_bounds(line.as_slice(), e + 1, b);
                    match crate::number::parse_u64_range(line.as_slice(), va, vb) {
                        Some(n) => {
                            let key = crate::text::string_of_range(line.as_slice(), ka, kb);
                            set_count_exec(&mut m, key, n);
                        },
                        None => {},
                    }
                },
                None => {},
            }
        }
        i += 1;
    }
    m
}

/// The counter of `command`, 0 when there is none.
pub open spec fn count_of(m: Seq<(Seq<char>, u64)>, command: Seq<char>) -> u64 {
    match crate::history::position(crate::shortcuts::keys_of(m), command) {
        Some(i) => m[i].1,
        None => 0,
    }
}

/// Counts one more run of `command`.
pub fn increment_usage(usage: &mut Vec<(String, u64)>, command: &str)
    requires
        count_of(count_views(old(usage)@), command@) < u64::MAX,
    ensures
        count_views(final(usage)@) == set_count(
            count_views(old(usage)@),
            command@,
            (count_of(count_views(old(usage)@), command@) + 1) as u64,
        ),
{
    let current = match find_count(usage.as_slice(), command) {
        Some(j) => usage[j].1,
        None => 0,
    };
    set_count_exec(usage, String::from_str(command), current + 1);
}

/// Counting one more run of `command` raises its counter by one and leaves
/// every other counter as it was.
pub proof fn lemma_increment_counts(m: Seq<(Seq<char>, u64)>, command: Seq<char>)
    requires
        count_of(m, command) < u64::MAX,
    ensures
        count_of(set_count(m, command, (count_of(m, command) + 1) as u64), command) == count_of(
            m,
            command,
        ) + 1,
        forall|x: Seq<char>|
            x != command ==> #[trigger] count_of(
                set_count(m, command, (count_of(m, command) + 1) as u64),
                x,
            ) == count_of(m, x),
{
    let n = (count_of(m, command) + 1) as u64;
    let r = set_count(m, command, n);
    let ks = crate::shortcuts::keys_of(m);
    let kr = crate::shortcuts::keys_of(r);
    crate::history::lemma_position(ks, command);
    match crate::history::position(ks, command) {
        Some(i) => {
            assert(kr =~= ks);
        },
        None => {
            assert(kr =~= ks.push(command));
            assert forall|j: int| 0 <= j < m.len() implies kr[j] != command by {
                assert(kr[j] == ks[j]);
            }
            crate::history::lemma_position_is(kr, command, m.len() as int);
        },
    }
    assert forall|x: Seq<char>| x != command implies #[trigger] count_of(r, x) == count_of(m, x) by {
        crate::history::lemma_position(ks, x);
        crate::history::lemma_position(kr, x);
        match crate::history::position(ks, x) {
            Some(j) => {
                assert(kr[j] == x);
                assert forall|l: int| 0 <= l < j implies kr[l] != x by {
                    assert(kr[l] == ks[l] || kr[l] == command);
                }
                crate::history::lemma_position_is(kr, x, j);
                assert(r[j] == m[j]);
            },
            None => {
                if let Some(j) = crate::history::position(kr, x) {
                    assert(kr[j] == x);
                    if j < m.len() {
                        assert(ks[j] == x);
                    }
                }
            },
        }
    }
}

/// The text of `history_usage.txt` for `m` with its keys in the order `ks`.
pub open spec fn render_counts_in(m: Seq<(Seq<char>, u64)>, ks: Seq<Seq<char>>) -> Seq<char> {
    crate::history::render_history_spec(
        ks.map_values(|k: Seq<char>| k + seq!['='] + crate::number::decimal(count_of(m, k) as nat)),
    )
}

/// The text of `history_usage.txt` that records `usage`: one `key=count`
/// line per key, keys in increasing order.
pub fn render_usage(usage: &[(String, u64)]) -> (r: String)
    requires
        crate::shortcuts::keys_of(count_views(usage@)).no_duplicates(),
    ensures
        exists|ks: Seq<Seq<char>>|
            crate::text::strictly_sorted(ks) && (forall|x: Seq<char>|
                ks.contains(x) <==> crate::shortcuts::keys_of(count_views(usage@)).contains(x))
                && r@ == render_counts_in(count_views(usage@), ks),
{
    let ghost m = count_views(usage@);
    let mut keys: Vec<String> = Vec::new();
    let mut i: usize = 0;
    while i < usage.len()
        invariant
            i <= usage.len(),
            m == count_views(usage@),
            sviews(keys@) == crate::shortcuts::keys_of(m).take(i as int),
        decreases usage.len() - i,
    {
        let ghost old_k = sviews(keys@);
        keys.push(usage[i].0.clone());
        assert(sviews(keys@) =~= old_k.push(crate::shortcuts::keys_of(m)[i as int]));
        i += 1;
        assert(crate::shortcuts::keys_of(m).take(i as int) =~= sviews(keys@));
    }
    assert(crate::shortcuts::keys_of(m).take(usage.len() as int) =~= crate::shortcuts::keys_of(m));
    let sorted = crate::text::sort_strings(keys);
    let ghost ks = sviews(sorted@);
    let ghost f = |k: Seq<char>| k + seq!['='] + crate::number::decimal(count_of(m, k) as nat);
    let mut ls: Vec<String> = Vec::new();
    let mut k: usize = 0;
    while k < sorted.len()
        invariant
            k <= sorted.len(),
            ks == sviews(sorted@),
            m == count_views(usage@),
            f == (|k: Seq<char>| k + seq!['='] + crate::number::decimal(count_of(m, k) as nat)),
            sviews(ls@) == ks.take(k as int).map_values(f),
        decreases sorted.len() - k,
    {
        let key = &sorted[k];
        let n = match find_count(usage, key.as_str()) {
            Some(j) => usage[j].1,
            None => 0,
        };
        let mut line = chars_of(key.as_str());
        line.push('=');
        crate::number::push_decimal(&mut line, n);
        let s = string_of(line.as_slice());
        assert(s@ =~= f(ks[k as int]));
        let ghost before = sviews(ls@);
        let ghost sv = s@;
        ls.push(s);
        assert(sviews(ls@) =~= before.push(sv));
        assert(ks.take(k + 1) =~= ks.take(k as int).push(ks[k as int]));
        k += 1;
        assert(sviews(ls@) =~= ks.take(k as int).map_values(f));
    }
    assert(ks.take(sorted.len() as int) =~= ks);
    crate::history::render_history(ls.as_slice())
}

/// A key that `history_usage.txt` can hold unchanged: trimmed, without `=`
/// and without line breaks.
pub open spec fn usage_key_ok(k: Seq<char>) -> bool {
    is_trimmed(k) && crate::shortcuts::avoids(k, '=') && crate::shortcuts::avoids(k, '\n')
}

/// The counters of the keys `ks`, in that order, as `m` counts them.
pub open spec fn counts_in(m: Seq<(Seq<char>, u64)>, ks: Seq<Seq<char>>) -> Seq<(Seq<char>, u64)> {
    ks.map_values(|k: Seq<char>| (k, count_of(m, k)))
}

/// The decimal digits of a number hold no whitespace at their ends.
proof fn lemma_decimal_trimmed(n: nat)
    ensures
        decimal(n).len() > 0,
        is_trimmed(decimal(n)),
        crate::shortcuts::avoids(decimal(n), '\n'),
{
    crate::number::lemma_decimal_digits(n);
    let d = decimal(n);
    assert(crate::number::is_digit(d[0]));
    assert(crate::number::is_digit(d[d.len() - 1]));
    assert forall|i: int| 0 <= i < d.len() implies d[i] != '\n' by {
        assert(crate::number::is_digit(d[i]));
    }
}

/// A counter line reads back as its key and count.
proof fn lemma_counter_line(k: Seq<char>, n: u64)
    requires
        usage_key_ok(k),
    ensures
        usage_line(k + seq!['='] + decimal(n as nat)) == Some((k, n)),
        crate::history::storable_entry(k + seq!['='] + decimal(n as nat)),
{
    let d = decimal(n as nat);
    let l = k + seq!['='] + d;
    lemma_decimal_trimmed(n as nat);
    crate::number::lemma_parse_decimal_nat(n as nat);
    assert(l.last() == d.last());
    if k.len() > 0 {
        assert(l[0] == k[0]);
    }
    crate::text::lemma_trim_trimmed(l);
    crate::text::lemma_trim_trimmed(k);
    crate::text::lemma_trim_trimmed(d);
    crate::text::lemma_index_of_is(l, '=', k.len() as int);
    assert(l.take(k.len() as int) =~= k);
    assert(l.skip(k.len() as int + 1) =~= d);
    assert forall|i: int| 0 <= i < l.len() implies l[i] != '\n' by {
        if i < k.len() {
            assert(l[i] == k[i]);
        } else if i > k.len() {
            assert(l[i] == d[i - k.len() - 1]);
        }
    }
}

/// Reading the counter lines of the keys `ks[i..]` after those before `i`.
proof fn lemma_counts_from_lines(m: Seq<(Seq<char>, u64)>, ks: Seq<Seq<char>>, i: int)
    requires
        0 <= i <= ks.len(),
        ks.no_duplicates(),
        forall|j: int| 0 <= j < ks.len() ==> usage_key_ok(#[trigger] ks[j]),
    ensures
        counts_from(
            ks.map_values(|k: Seq<char>| k + seq!['='] + decimal(count_of(m, k) as nat)),
            i,
            counts_in(m, ks.take(i)),
        ) == counts_in(m, ks),
    decreases ks.len() - i,
{
    let ls = ks.map_values(|k: Seq<char>| k + seq!['='] + decimal(count_of(m, k) as nat));
    if i == ks.len() {
        assert(ks.take(i) =~= ks);
    } else {
        let k = ks[i];
        lemma_counter_line(k, count_of(m, k));
        assert(ls[i] == k + seq!['='] + decimal(count_of(m, k) as nat));
        let acc = counts_in(m, ks.take(i));
        assert(crate::shortcuts::keys_of(acc) =~= ks.take(i));
        crate::history::lemma_position(ks.take(i), k);
        assert(crate::history::position(ks.take(i), k) is None) by {
            if let Some(j) = crate::history::position(ks.take(i), k) {
                assert(ks[j] == k);
            }
        }
        assert(set_count(acc, k, count_of(m, k)) =~= counts_in(m, ks.take(i + 1)));
        lemma_counts_from_lines(m, ks, i + 1);
    }
}

/// Writing usage counters to `history_usage.txt` and reading the file back
/// gives one counter per key, in the order written, each with the count
/// that it had; for keys written once each, trimmed and without `=` or line
/// breaks.
pub proof fn lemma_usage_round_trip(m: Seq<(Seq<char>, u64)>, ks: Seq<Seq<char>>)
    requires
        ks.no_duplicates(),
        forall|x: Seq<char>| ks.contains(x) <==> crate::shortcuts::keys_of(m).contains(x),
        forall|j: int| 0 <= j < ks.len() ==> usage_key_ok(#[trigger] ks[j]),
    ensures
        usage_of(render_counts_in(m, ks)) == counts_in(m, ks),
        forall|x: Seq<char>| count_of(#[trigger] usage_of(render_counts_in(m, ks)), x) == count_of(m, x),
{
    let ls = ks.map_values(|k: Seq<char>| k + seq!['='] + decimal(count_of(m, k) as nat));
    assert forall|j: int| 0 <= j < ls.len() implies crate::history::storable_entry(#[trigger] ls[j]) by {
        lemma_counter_line(ks[j], count_of(m, ks[j]));
    }
    if ks.len() == 0 {
        assert(lines(Seq::<char>::empty()) =~= Seq::<Seq<char>>::empty());
        assert(counts_in(m, ks) =~= Seq::<(Seq<char>, u64)>::empty());
    } else {
        crate::history::lemma_lines_of_rendered(ls);
    }
    assert(ks.take(0) =~= Seq::<Seq<char>>::empty());
    assert(counts_in(m, ks.take(0)) =~= Seq::<(Seq<char>, u64)>::empty());
    lemma_counts_from_lines(m, ks, 0);
    let r = counts_in(m, ks);
    assert(crate::shortcuts::keys_of(r) =~= ks);
    assert forall|x: Seq<char>| count_of(#[trigger] usage_of(render_counts_in(m, ks)), x) == count_of(m, x) by {
        crate::history::lemma_position(ks, x);
        crate::history::lemma_position(crate::shortcuts::keys_of(m), x);
        if let Some(i) = crate::history::position(ks, x) {
            assert(r[i] == (ks[i], count_of(m, ks[i])));
        } else {
            if let Some(j) = crate::history::position(crate::shortcuts::keys_of(m), x) {
                assert(crate::shortcuts::keys_of(m)[j] == x);
                assert(crate::shortcuts::keys_of(m).contains(x));
            }
        }
    }
}


// ---------------------------------------------------------------------------
// Profiles
// ---------------------------------------------------------------------------

/// The profile that a file name of the form `shortcuts.<profile>.txt` names.
pub open spec fn profile_of_file(name: Seq<char>) -> Option<Seq<char>> {
    match strip_prefix(name, "shortcuts."@) {
        Some(r) => if r.len() >= 4 && r.skip(r.len() - 4) == ".txt"@ && r.len() > 4 {
            Some(r.take(r.len() - 4))
        } else {
            None
        },
        None => None,
    }
}

/// The shortcut file of a profile other than `default` names that profile
/// again, so that the profile is listed once its file exists.
pub proof fn lemma_profile_file_names_profile(profile: Seq<char>)
    requires
        profile.len() > 0,
        !crate::text::eq_ignore_ascii_case(profile, "default"@),
    ensures
        profile_of_file(profile_file(profile)) == Some(profile),
{
    reveal_strlit("shortcuts.");
    reveal_strlit(".txt");
    let f = "shortcuts."@ + profile + ".txt"@;
    assert("shortcuts."@.is_prefix_of(f));
    let r = f.skip(10);
    assert(r =~= profile + ".txt"@);
    assert(r.skip(r.len() - 4) =~= ".txt"@);
    assert(r.take(r.len() - 4) =~= profile);
}

/// The profile named by the file name `v`, if any.
fn profile_from_name(name: &str) -> (r: Option<String>)
    ensures
        match profile_of_file(name@) {
            Some(p) => r matches Some(x) && x@ == p,
            None => r is None,
        },
{
    let v = chars_of(name);
    let rest = match strip_lit(v.as_slice(), "shortcuts.") {
        Some(r) => r,
        None => {
            return None;
        },
    };
    let n = rest.len();
    if n <= 4 {
        return None;
    }
    let tail = sub_chars(rest.as_slice(), n - 4, n);
    assert(tail@ =~= rest@.skip(n - 4));
    if !is_lit(tail.as_slice(), ".txt") {
        return None;
    }
    assert(rest@.take(n - 4) =~= rest@.subrange(0, n - 4));
    Some(crate::text::string_of_range(rest.as_slice(), 0, n - 4))
}

/// The profiles on offer: `default` and every profile that a file name of
/// the form `shortcuts.<profile>.txt` names, each once, in increasing order.
pub fn profiles_from_file_names(names: &[String]) -> (r: Vec<String>)
    ensures
        crate::text::strictly_sorted(sviews(r@)),
        forall|x: Seq<char>|
            sviews(r@).contains(x) <==> (x == "default"@ || exists|i: int|
                0 <= i < names.len() && profile_of_file(#[trigger] names@[i]@) == Some(x)),
{
    let mut profiles: Vec<String> = Vec::new();
    profiles.push(String::from_str("default"));
    assert(sviews(profiles@) =~= seq!["default"@]);
    assert(sviews(profiles@)[0] == "default"@);
    let mut i: usize = 0;
    while i < names.len()
        invariant
            i <= names.len(),
            sviews(profiles@).no_duplicates(),
            forall|x: Seq<char>|
                sviews(profiles@).contains(x) <==> (x == "default"@ || exists|k: int|
                    0 <= k < i && profile_of_file(#[trigger] names@[k]@) == Some(x)),
        decreases names.len() - i,
    {
        match profile_from_name(names[i].as_str()) {
            Some(p) => {
                if !contains_string(&profiles, &p) {
                    let ghost before = sviews(profiles@);
                    let ghost pv = p@;
                    profiles.push(p);
                    assert(sviews(profiles@) =~= before.push(pv));
                    assert(sviews(profiles@).no_duplicates()) by {
                        let s = sviews(profiles@);
                        assert forall|a: int, b: int|
                            0 <= a < s.len() && 0 <= b < s.len() && a != b implies s[a] != s[b] by {
                            if a == before.len() {
                                assert(before.contains(s[b]));
                            } else if b == before.len() {
                                assert(before.contains(s[a]));
                            }
                        }
                    }
                    assert forall|x: Seq<char>|
                        sviews(profiles@).contains(x) <==> (x == "default"@ || exists|k: int|
                            0 <= k < i + 1 && profile_of_file(#[trigger] names@[k]@) == Some(x)) by {
                        if sviews(profiles@).contains(x) && x != pv {
                            let j = choose|j: int|
                                0 <= j < sviews(profiles@).len() && sviews(profiles@)[j] == x;
                            assert(before[j] == x);
                        }
                        if x == pv {
                            assert(sviews(profiles@)[before.len() as int] == x);
                        }
                        if before.contains(x) {
                            let j = choose|j: int| 0 <= j < before.len() && before[j] == x;
                            assert(sviews(profiles@)[j] == x);
                        }
                    }
                }
            },
            None => {},
        }
        i += 1;
    }
    crate::text::sort_strings(profiles)
}

// ---------------------------------------------------------------------------
// History listings
// ---------------------------------------------------------------------------

/// `s` right-aligned in a field of three characters (`{:>3}`).
pub open spec fn pad3(s: Seq<char>) -> Seq<char> {
    if s.len() < 3 {
        Seq::new((3 - s.len()) as nat, |i: int| ' ') + s
    } else {
        s
    }
}

/// Appends `s` right-aligned in a field of three characters.
fn push_pad3(out: &mut Vec<char>, s: &[char])
    ensures
        final(out)@ == old(out)@ + pad3(s@),
{
    let mut k = s.len();
    let ghost base = out@;
    assert(Seq::<char>::new(0, |i: int| ' ') =~= Seq::<char>::empty());
    assert(base + Seq::<char>::new(0, |i: int| ' ') =~= base);
    while k < 3
        invariant
            s.len() <= k,
            s.len() < 3 ==> k <= 3,
            s.len() >= 3 ==> k == s.len(),
            out@ == base + Seq::new((k - s.len()) as nat, |i: int| ' '),
        decreases 3 - k,
    {
        out.push(' ');
        k += 1;
        assert(out@ =~= base + Seq::new((k - s.len()) as nat, |i: int| ' '));
    }
    let ghost mid = out@;
    crate::text::extend_chars(out, s);
    if s.len() >= 3 {
        assert(mid =~= base);
    }
    assert(final(out)@ =~= old(out)@ + pad3(s@));
}

/// A line of `:history`: `  <n> <pin> [<count>] <entry>`, `n` 1-based and
/// right-aligned, `*` for a pinned entry.
pub open spec fn history_line(n: nat, entry: Seq<char>, pinned: bool, count: u64) -> Seq<char> {
    "  "@ + pad3(crate::number::decimal(n)) + seq![' '] + (if pinned {
        seq!['*']
    } else {
        seq![' ']
    }) + " ["@ + crate::number::decimal(count as nat) + "] "@ + entry
}

/// The lines that `:history` prints.
pub open spec fn history_listing_of(
    entries: Seq<Seq<char>>,
    pins: Seq<Seq<char>>,
    usage: Seq<(Seq<char>, u64)>,
) -> Seq<Seq<char>> {
    if entries.len() == 0 {
        seq!["  (history is empty)"@]
    } else {
        Seq::new(
            entries.len(),
            |i: int| history_line((i + 1) as nat, entries[i], pins.contains(entries[i]), count_of(usage, entries[i])),
        )
    }
}

/// The lines that `:history` prints for the entries, pins and usage counters.
pub fn history_listing(entries: &[String], pins: &Vec<String>, usage: &[(String, u64)]) -> (r: Vec<
    String,
>)
    ensures
        sviews(r@) == history_listing_of(sviews(entries@), sviews(pins@), count_views(usage@)),
{
    let mut out: Vec<String> = Vec::new();
    if entries.len() == 0 {
        out.push(String::from_str("  (history is empty)"));
        assert(sviews(out@) =~= seq!["  (history is empty)"@]);
        return out;
    }
    let ghost want = history_listing_of(sviews(entries@), sviews(pins@), count_views(usage@));
    let mut i: usize = 0;
    while i < entries.len()
        invariant
            i <= entries.len(),
            entries.len() > 0,
            want == history_listing_of(sviews(entries@), sviews(pins@), count_views(usage@)),
            sviews(out@) == want.take(i as int),
        decreases entries.len() - i,
    {
        let pinned = contains_string(pins, &entries[i]);
        let count = match find_count(usage, entries[i].as_str()) {
            Some(j) => usage[j].1,
            None => 0,
        };
        let mut line = chars_of("  ");
        let mut num: Vec<char> = Vec::new();
        crate::number::push_decimal(&mut num, (i + 1) as u64);
        push_pad3(&mut line, num.as_slice());
        line.push(' ');
        line.push(if pinned { '*' } else { ' ' });
        crate::text::extend_str(&mut line, " [");
        crate::number::push_decimal(&mut line, count);
        crate::text::extend_str(&mut line, "] ");
        crate::text::extend_str(&mut line, entries[i].as_str());
        let s = string_of(line.as_slice());
        assert(s@ =~= want[i as int]);
        let ghost before = sviews(out@);
        let ghost sv = s@;
        out.push(s);
        assert(sviews(out@) =~= before.push(sv));
        i += 1;
        assert(sviews(out@) =~= want.take(i as int));
    }
    assert(want.take(entries.len() as int) =~= want);
    out
}

/// In the ranking, the entry at `a` comes before the one at `b`: a higher
/// score first, and for equal scores the earlier entry first.
pub open spec fn ranked_before(scores: Seq<u64>, a: int, b: int) -> bool {
    scores[a] > scores[b] || (scores[a] == scores[b] && a < b)
}

/// The indices of the scores, highest score first and equal scores in their
/// given order (a stable sort by descending score).
pub fn rank_order(scores: &[u64]) -> (r: Vec<usize>)
    ensures
        r@.len() == scores.len(),
        forall|k: int| 0 <= k < r@.len() ==> r@[k] < scores.len(),
        forall|k: int, l: int| 0 <= k < l < r@.len() ==> ranked_before(scores@, r@[k] as int, r@[l] as int),
{
    let mut o: Vec<usize> = Vec::new();
    let mut i: usize = 0;
    while i < scores.len()
        invariant
            i <= scores.len(),
            o@.len() == i,
            forall|k: int| 0 <= k < o@.len() ==> o@[k] < i,
            forall|k: int, l: int| 0 <= k < l < o@.len() ==> ranked_before(scores@, o@[k] as int, o@[l] as int),
        decreases scores.len() - i,
    {
        let mut p: usize = 0;
        while p < o.len() && scores[o[p]] >= scores[i]
            invariant
                p <= o.len(),
                i < scores.len(),
                forall|k: int| 0 <= k < o@.len() ==> o@[k] < i,
                forall|k: int| 0 <= k < p ==> ranked_before(scores@, o@[k] as int, i as int),
            decreases o.len() - p,
        {
            p += 1;
        }
        let ghost old_o = o@;
        o.insert(p, i);
        assert(o@ =~= old_o.insert(p as int, i));
        assert forall|k: int, l: int| 0 <= k < l < o@.len() implies ranked_before(
            scores@,
            o@[k] as int,
            o@[l] as int,
        ) by {
            if k < p && l == p {
            } else if k == p && l > p {
                assert(o@[l] == old_o[l - 1]);
                assert(ranked_before(scores@, i as int, old_o[p as int] as int) || l - 1 == p);
                if l - 1 > p {
                    assert(ranked_before(scores@, old_o[p as int] as int, old_o[l - 1] as int));
                }
            } else if k < p && l > p {
                assert(o@[l] == old_o[l - 1]);
                assert(o@[k] == old_o[k]);
            } else if k > p {
                assert(o@[k] == old_o[k - 1] && o@[l] == old_o[l - 1]);
            } else {
                assert(o@[k] == old_o[k] && o@[l] == old_o[l]);
            }
        }
        i += 1;
    }
    o
}


/// The score of the entry at `i` in the ranking: usage count times 1000 plus
/// recency (`len - i`).
pub open spec fn score_of(entries: Seq<Seq<char>>, usage: Seq<(Seq<char>, u64)>, i: int) -> int {
    count_of(usage, entries[i]) * 1000 + (entries.len() - i)
}

/// A line of `:history ranked`.
pub open spec fn ranked_line(n: nat, score: nat, freq: nat, recency: nat, entry: Seq<char>) -> Seq<
    char,
> {
    "  "@ + pad3(crate::number::decimal(n)) + " [score:"@ + crate::number::decimal(score)
        + " freq:"@ + crate::number::decimal(freq) + " recency:"@ + crate::number::decimal(
        recency,
    ) + "] "@ + entry
}

/// The lines that `:history ranked` prints: for the entries in the order
/// `order`, their rank, score, usage count, recency and text.
pub open spec fn ranked_lines_of(
    entries: Seq<Seq<char>>,
    usage: Seq<(Seq<char>, u64)>,
    order: Seq<usize>,
) -> Seq<Seq<char>> {
    Seq::new(
        order.len(),
        |k: int|
            ranked_line(
                (k + 1) as nat,
                score_of(entries, usage, order[k] as int) as nat,
                count_of(usage, entries[order[k] as int]) as nat,
                (entries.len() - order[k]) as nat,
                entries[order[k] as int],
            ),
    )
}

/// The lines that `:history ranked` prints: the entries by descending score
/// (usage count times 1000 plus recency), equal scores in history order.
pub fn ranked_history_lines(entries: &[String], usage: &[(String, u64)]) -> (r: Vec<String>)
    requires
        forall|i: int|
            0 <= i < entries.len() ==> #[trigger] count_of(count_views(usage@), entries@[i]@) * 1000
                + entries.len() <= u64::MAX,
    ensures
        exists|order: Seq<usize>|
            order.len() == entries.len() && (forall|k: int|
                0 <= k < order.len() ==> order[k] < entries.len()) && (forall|k: int, l: int|
                0 <= k < l < order.len() ==> #[trigger] order[k] != #[trigger] order[l]
                    && (score_of(sviews(entries@), count_views(usage@), order[k] as int)
                    > score_of(sviews(entries@), count_views(usage@), order[l] as int) || (
                score_of(sviews(entries@), count_views(usage@), order[k] as int) == score_of(
                    sviews(entries@),
                    count_views(usage@),
                    order[l] as int,
                ) && order[k] < order[l]))) && sviews(r@) == ranked_lines_of(
                sviews(entries@),
                count_views(usage@),
                order,
            ),
{
    let ghost es = sviews(entries@);
    let ghost us = count_views(usage@);
    let n = entries.len();
    let mut scores: Vec<u64> = Vec::new();
    let mut freqs: Vec<u64> = Vec::new();
    let mut i: usize = 0;
    while i < n
        invariant
            i <= n,
            n == entries.len(),
            es == sviews(entries@),
            us == count_views(usage@),
            scores@.len() == i,
            freqs@.len() == i,
            forall|j: int| 0 <= j < i ==> freqs@[j] == count_of(us, es[j]),
            forall|j: int| 0 <= j < i ==> scores@[j] == score_of(es, us, j),
            forall|j: int|
                0 <= j < entries.len() ==> #[trigger] count_of(count_views(usage@), entries@[j]@)
                    * 1000 + entries.len() <= u64::MAX,
        decreases n - i,
    {
        let f = match find_count(usage, entries[i].as_str()) {
            Some(j) => usage[j].1,
            None => 0,
        };
        assert(f == count_of(us, es[i as int]));
        assert(count_of(count_views(usage@), entries@[i as int]@) * 1000 + entries.len() <= u64::MAX);
        let score = f * 1000 + (n - i) as u64;
        scores.push(score);
        freqs.push(f);
        i += 1;
    }
    let order = rank_order(scores.as_slice());
    let mut out: Vec<String> = Vec::new();
    let mut k: usize = 0;
    while k < order.len()
        invariant
            k <= order.len(),
            order@.len() == n,
            n == entries.len(),
            es == sviews(entries@),
            us == count_views(usage@),
            forall|j: int| 0 <= j < order@.len() ==> order@[j] < n,
            forall|j: int| 0 <= j < n ==> freqs@[j] == count_of(us, es[j]),
            forall|j: int| 0 <= j < n ==> scores@[j] == score_of(es, us, j),
            scores@.len() == n,
            freqs@.len() == n,
            sviews(out@) == ranked_lines_of(es, us, order@).take(k as int),
        decreases order.len() - k,
    {
        let idx = order[k];
        let mut line = chars_of("  ");
        let mut num: Vec<char> = Vec::new();
        crate::number::push_decimal(&mut num, (k + 1) as u64);
        push_pad3(&mut line, num.as_slice());
        crate::text::extend_str(&mut line, " [score:");
        crate::number::push_decimal(&mut line, scores[idx]);
        crate::text::extend_str(&mut line, " freq:");
        crate::number::push_decimal(&mut line, freqs[idx]);
        crate::text::extend_str(&mut line, " recency:");
        crate::number::push_decimal(&mut line, (n - idx) as u64);
        crate::text::extend_str(&mut line, "] ");
        crate::text::extend_str(&mut line, entries[idx].as_str());
        let s = string_of(line.as_slice());
        assert(s@ =~= ranked_lines_of(es, us, order@)[k as int]);
        let ghost before = sviews(out@);
        let ghost sv = s@;
        out.push(s);
        assert(sviews(out@) =~= before.push(sv));
        k += 1;
        assert(sviews(out@) =~= ranked_lines_of(es, us, order@).take(k as int));
    }
    assert(ranked_lines_of(es, us, order@).take(n as int) =~= ranked_lines_of(es, us, order@));
    proof {
        assert forall|a: int, b: int| 0 <= a < b < order@.len() implies #[trigger] order@[a]
            != #[trigger] order@[b] && (score_of(es, us, order@[a] as int) > score_of(
            es,
            us,
            order@[b] as int,
        ) || (score_of(es, us, order@[a] as int) == score_of(es, us, order@[b] as int)
            && order@[a] < order@[b])) by {
            assert(ranked_before(scores@, order@[a] as int, order@[b] as int));
        }
    }
    out
}

// ---------------------------------------------------------------------------
// Finding and pinning
// ---------------------------------------------------------------------------

/// A result of `:find`.
#[derive(Clone, Debug, PartialEq, Eq)]
pub enum FindResult {
    /// A shortcut: its name, and how it is listed.
    Shortcut(String, String),
    /// A history entry.
    History(String),
}

/// The mathematical value of a [`FindResult`].
pub enum FindView {
    Shortcut(Seq<char>, Seq<char>),
    History(Seq<char>),
}

impl View for FindResult {
    type V = FindView;

    open spec fn view(&self) -> FindView {
        match self {
            FindResult::Shortcut(s, l) => FindView::Shortcut(s@, l@),
            FindResult::History(s) => FindView::History(s@),
        }
    }
}

/// The text of a shortcut that `:find` searches: name, tags and command,
/// separated by spaces, ASCII-lowercased.
pub open spec fn find_haystack(s: crate::shortcuts::ShortcutView) -> Seq<char> {
    crate::text::ascii_lower_seq(s.name + seq![' '] + join(s.tags, seq![' ']) + seq![' '] + s.command)
}

/// What `:find <query>` lists: the shortcuts whose text holds the trimmed,
/// ASCII-lowercased query (by name, with their listing), then the history
/// entries that hold it, in order.
pub open spec fn find_results_of(
    shortcuts: Seq<crate::shortcuts::ShortcutView>,
    entries: Seq<Seq<char>>,
    query: Seq<char>,
) -> Seq<FindView> {
    let needle = crate::text::ascii_lower_seq(trim(query));
    shortcuts.filter(|s: crate::shortcuts::ShortcutView| crate::text::contains_seq(find_haystack(s), needle)).map_values(
        |s: crate::shortcuts::ShortcutView| FindView::Shortcut(s.name, shortcut_listing(s)),
    ) + entries.filter(|e: Seq<char>| crate::text::contains_seq(crate::text::ascii_lower_seq(e), needle)).map_values(
        |e: Seq<char>| FindView::History(e),
    )
}

/// Text that holds `n` still holds it with more text around it.
proof fn lemma_contains_within(x: Seq<char>, pre: Seq<char>, post: Seq<char>, n: Seq<char>)
    requires
        crate::text::contains_seq(x, n),
    ensures
        crate::text::contains_seq(pre + x + post, n),
{
    let i = choose|i: int| crate::text::occurs_at(x, n, i);
    let w = pre + x + post;
    assert(w.subrange(pre.len() + i, pre.len() + i + n.len()) =~= x.subrange(i, i + n.len()));
    assert(crate::text::occurs_at(w, n, pre.len() + i));
}

/// ASCII lowercasing goes part by part.
proof fn lemma_lower_add(a: Seq<char>, b: Seq<char>)
    ensures
        crate::text::ascii_lower_seq(a + b) == crate::text::ascii_lower_seq(a)
            + crate::text::ascii_lower_seq(b),
{
    assert(crate::text::ascii_lower_seq(a + b) =~= crate::text::ascii_lower_seq(a)
        + crate::text::ascii_lower_seq(b));
}

/// A joined text, lowercased, holds what any of its parts, lowercased, holds.
proof fn lemma_join_contains_lower(parts: Seq<Seq<char>>, sep: Seq<char>, j: int, n: Seq<char>)
    requires
        0 <= j < parts.len(),
        crate::text::contains_seq(crate::text::ascii_lower_seq(parts[j]), n),
    ensures
        crate::text::contains_seq(crate::text::ascii_lower_seq(join(parts, sep)), n),
    decreases parts.len(),
{
    let e = Seq::<char>::empty();
    if parts.len() > 1 {
        let d = parts.drop_last();
        let jd = join(d, sep);
        lemma_lower_add(jd + sep, parts.last());
        lemma_lower_add(jd, sep);
        if j == parts.len() - 1 {
            lemma_contains_within(
                crate::text::ascii_lower_seq(parts.last()),
                crate::text::ascii_lower_seq(jd + sep),
                e,
                n,
            );
            assert(crate::text::ascii_lower_seq(jd + sep) + crate::text::ascii_lower_seq(
                parts.last(),
            ) + e =~= crate::text::ascii_lower_seq(join(parts, sep)));
        } else {
            assert(d[j] == parts[j]);
            lemma_join_contains_lower(d, sep, j, n);
            lemma_contains_within(
                crate::text::ascii_lower_seq(jd),
                e,
                crate::text::ascii_lower_seq(sep) + crate::text::ascii_lower_seq(parts.last()),
                n,
            );
            assert(e + crate::text::ascii_lower_seq(jd) + (crate::text::ascii_lower_seq(sep)
                + crate::text::ascii_lower_seq(parts.last())) =~= crate::text::ascii_lower_seq(
                join(parts, sep),
            ));
        }
    }
}

/// `:find` lists a shortcut whose name, command or any tag holds the
/// trimmed query, ASCII case ignored, and a history entry that holds it;
/// every result it lists is one of the given shortcuts, or one of the given
/// entries that holds the query.
pub proof fn lemma_find_hits(
    shortcuts: Seq<crate::shortcuts::ShortcutView>,
    entries: Seq<Seq<char>>,
    query: Seq<char>,
)
    ensures
        forall|i: int|
            0 <= i < shortcuts.len() && (crate::text::contains_seq(
                crate::text::ascii_lower_seq(#[trigger] shortcuts[i].name),
                crate::text::ascii_lower_seq(trim(query)),
            ) || crate::text::contains_seq(
                crate::text::ascii_lower_seq(shortcuts[i].command),
                crate::text::ascii_lower_seq(trim(query)),
            ) || exists|j: int|
                0 <= j < shortcuts[i].tags.len() && crate::text::contains_seq(
                    crate::text::ascii_lower_seq(shortcuts[i].tags[j]),
                    crate::text::ascii_lower_seq(trim(query)),
                )) ==> find_results_of(shortcuts, entries, query).contains(
                FindView::Shortcut(shortcuts[i].name, shortcut_listing(shortcuts[i])),
            ),
        forall|k: int|
            0 <= k < entries.len() && crate::text::contains_seq(
                crate::text::ascii_lower_seq(#[trigger] entries[k]),
                crate::text::ascii_lower_seq(trim(query)),
            ) ==> find_results_of(shortcuts, entries, query).contains(FindView::History(entries[k])),
        forall|r: FindView|
            #[trigger] find_results_of(shortcuts, entries, query).contains(r) ==> match r {
                FindView::Shortcut(name, listing) => exists|i: int|
                    0 <= i < shortcuts.len() && name == shortcuts[i].name && listing
                        == shortcut_listing(shortcuts[i]),
                FindView::History(e) => entries.contains(e) && crate::text::contains_seq(
                    crate::text::ascii_lower_seq(e),
                    crate::text::ascii_lower_seq(trim(query)),
                ),
            },
        exists|is: Seq<int>, ie: Seq<int>|
            #![trigger is.len(), ie.len()]
            {
                &&& find_results_of(shortcuts, entries, query).len() == is.len() + ie.len()
                &&& forall|a: int, b: int| 0 <= a < b < is.len() ==> is[a] < is[b]
                &&& forall|a: int, b: int| 0 <= a < b < ie.len() ==> ie[a] < ie[b]
                &&& forall|k: int|
                    0 <= k < is.len() ==> 0 <= #[trigger] is[k] < shortcuts.len() && find_results_of(
                        shortcuts,
                        entries,
                        query,
                    )[k] == FindView::Shortcut(
                        shortcuts[is[k]].name,
                        shortcut_listing(shortcuts[is[k]]),
                    )
                &&& forall|k: int|
                    0 <= k < ie.len() ==> 0 <= #[trigger] ie[k] < entries.len() && find_results_of(
                        shortcuts,
                        entries,
                        query,
                    )[is.len() + k] == FindView::History(entries[ie[k]])
                &&& forall|i: int|
                    0 <= i < shortcuts.len() ==> (crate::text::contains_seq(
                        find_haystack(#[trigger] shortcuts[i]),
                        crate::text::ascii_lower_seq(trim(query)),
                    ) <==> exists|k: int| 0 <= k < is.len() && is[k] == i)
                &&& forall|i: int|
                    0 <= i < entries.len() ==> (crate::text::contains_seq(
                        crate::text::ascii_lower_seq(#[trigger] entries[i]),
                        crate::text::ascii_lower_seq(trim(query)),
                    ) <==> exists|k: int| 0 <= k < ie.len() && ie[k] == i)
            },
{
    let needle = crate::text::ascii_lower_seq(trim(query));
    let ps = |s: crate::shortcuts::ShortcutView| crate::text::contains_seq(find_haystack(s), needle);
    let fs = |s: crate::shortcuts::ShortcutView| FindView::Shortcut(s.name, shortcut_listing(s));
    let pe = |e: Seq<char>| crate::text::contains_seq(crate::text::ascii_lower_seq(e), needle);
    let fe = |e: Seq<char>| FindView::History(e);
    let a = shortcuts.filter(ps).map_values(fs);
    let b = entries.filter(pe).map_values(fe);
    let res = find_results_of(shortcuts, entries, query);
    assert(res == a + b);
    let is = crate::shortcuts::lemma_filter_positions(shortcuts, ps);
    let ie = crate::shortcuts::lemma_filter_positions(entries, pe);
    assert forall|k: int| 0 <= k < is.len() implies 0 <= #[trigger] is[k] < shortcuts.len()
        && res[k] == FindView::Shortcut(shortcuts[is[k]].name, shortcut_listing(shortcuts[is[k]])) by {
        assert(a[k] == fs(shortcuts.filter(ps)[k]));
    }
    assert forall|k: int| 0 <= k < ie.len() implies 0 <= #[trigger] ie[k] < entries.len()
        && res[is.len() + k] == FindView::History(entries[ie[k]]) by {
        assert(b[k] == fe(entries.filter(pe)[k]));
        assert(res[a.len() + k] == b[k]);
    }
    assert forall|i: int| 0 <= i < shortcuts.len() implies (crate::text::contains_seq(
        find_haystack(#[trigger] shortcuts[i]),
        needle,
    ) <==> exists|k: int| 0 <= k < is.len() && is[k] == i) by {
        assert(ps(shortcuts[i]) == crate::text::contains_seq(find_haystack(shortcuts[i]), needle));
    }
    assert forall|i: int| 0 <= i < entries.len() implies (crate::text::contains_seq(
        crate::text::ascii_lower_seq(#[trigger] entries[i]),
        needle,
    ) <==> exists|k: int| 0 <= k < ie.len() && ie[k] == i) by {
        assert(pe(entries[i]) == crate::text::contains_seq(crate::text::ascii_lower_seq(entries[i]), needle));
    }
    let sp = seq![' '];
    assert forall|i: int|
        0 <= i < shortcuts.len() && (crate::text::contains_seq(
            crate::text::ascii_lower_seq(#[trigger] shortcuts[i].name),
            needle,
        ) || crate::text::contains_seq(crate::text::ascii_lower_seq(shortcuts[i].command), needle)
            || exists|j: int|
            0 <= j < shortcuts[i].tags.len() && crate::text::contains_seq(
                crate::text::ascii_lower_seq(shortcuts[i].tags[j]),
                needle,
            )) implies res.contains(fs(shortcuts[i])) by {
        let s = shortcuts[i];
        let jn = join(s.tags, sp);
        let ln = crate::text::ascii_lower_seq(s.name);
        let lsp = crate::text::ascii_lower_seq(sp);
        let lj = crate::text::ascii_lower_seq(jn);
        let lc = crate::text::ascii_lower_seq(s.command);
        lemma_lower_add(s.name + sp + jn + sp, s.command);
        lemma_lower_add(s.name + sp + jn, sp);
        lemma_lower_add(s.name + sp, jn);
        lemma_lower_add(s.name, sp);
        assert(find_haystack(s) == ln + lsp + lj + lsp + lc);
        if crate::text::contains_seq(ln, needle) {
            lemma_contains_within(ln, Seq::empty(), lsp + lj + lsp + lc, needle);
            assert(Seq::<char>::empty() + ln + (lsp + lj + lsp + lc) =~= find_haystack(s));
        } else if crate::text::contains_seq(lc, needle) {
            lemma_contains_within(lc, ln + lsp + lj + lsp, Seq::empty(), needle);
            assert(ln + lsp + lj + lsp + lc + Seq::<char>::empty() =~= find_haystack(s));
        } else {
            let j = choose|j: int|
                0 <= j < s.tags.len() && crate::text::contains_seq(
                    crate::text::ascii_lower_seq(s.tags[j]),
                    needle,
                );
            lemma_join_contains_lower(s.tags, sp, j, needle);
            lemma_contains_within(lj, ln + lsp, lsp + lc, needle);
            assert(ln + lsp + lj + (lsp + lc) =~= find_haystack(s));
        }
        assert(ps(s));
        shortcuts.lemma_filter_contains(ps, i);
        let f = shortcuts.filter(ps);
        let m = choose|m: int| 0 <= m < f.len() && f[m] == s;
        assert(a[m] == fs(s));
        assert((a + b)[m] == fs(s));
    }
    assert forall|k: int|
        0 <= k < entries.len() && crate::text::contains_seq(
            crate::text::ascii_lower_seq(#[trigger] entries[k]),
            needle,
        ) implies res.contains(FindView::History(entries[k])) by {
        entries.lemma_filter_contains(pe, k);
        let f = entries.filter(pe);
        let m = choose|m: int| 0 <= m < f.len() && f[m] == entries[k];
        assert(b[m] == fe(entries[k]));
        assert((a + b)[a.len() + m] == fe(entries[k]));
    }
    assert forall|r: FindView| #[trigger] res.contains(r) implies match r {
        FindView::Shortcut(name, listing) => exists|i: int|
            0 <= i < shortcuts.len() && name == shortcuts[i].name && listing == shortcut_listing(
                shortcuts[i],
            ),
        FindView::History(e) => entries.contains(e) && crate::text::contains_seq(
            crate::text::ascii_lower_seq(e),
            needle,
        ),
    } by {
        let m = choose|m: int| 0 <= m < res.len() && res[m] == r;
        if m < a.len() {
            let f = shortcuts.filter(ps);
            crate::shortcuts::lemma_filter_from(shortcuts, ps);
            assert(f.contains(f[m]));
            let i = choose|i: int| 0 <= i < shortcuts.len() && shortcuts[i] == f[m];
            assert(r == fs(f[m]));
            assert(r == fs(shortcuts[i]));
        } else {
            let f = entries.filter(pe);
            let mm = m - a.len();
            assert(r == b[mm]);
            entries.lemma_filter_pred(pe, mm);
            crate::shortcuts::lemma_filter_from(entries, pe);
            assert(f.contains(f[mm]));
        }
    }
}

/// The values of find results.
pub open spec fn find_views(v: Seq<FindResult>) -> Seq<FindView> {
    v.map_values(|f: FindResult| f@)
}

/// Searches shortcuts and history for `query` (`:find` and `:find!`).
pub fn find_results(
    shortcuts: &[crate::shortcuts::Shortcut],
    entries: &[String],
    query: &str,
) -> (r: Vec<FindResult>)
    ensures
        find_views(r@) == find_results_of(
            crate::shortcuts::shortcut_views(shortcuts@),
            sviews(entries@),
            query@,
        ),
{
    let q = crate::text::trim_str(query);
    let needle = crate::text::ascii_lowercase(chars_of(q.as_str()).as_slice());
    let ghost nd = needle@;
    let ghost ss = crate::shortcuts::shortcut_views(shortcuts@);
    let ghost ps = |s: crate::shortcuts::ShortcutView| crate::text::contains_seq(find_haystack(s), nd);
    let ghost fs = |s: crate::shortcuts::ShortcutView| FindView::Shortcut(s.name, shortcut_listing(s));
    let mut out: Vec<FindResult> = Vec::new();
    let mut i: usize = 0;
    assert(find_views(out@) =~= ss.take(0).filter(ps).map_values(fs)) by {
        reveal(Seq::filter);
    }
    while i < shortcuts.len()
        invariant
            i <= shortcuts.len(),
            nd == needle@,
            ss == crate::shortcuts::shortcut_views(shortcuts@),
            ps == (|s: crate::shortcuts::ShortcutView| crate::text::contains_seq(find_haystack(s), nd)),
            fs == (|s: crate::shortcuts::ShortcutView| FindView::Shortcut(s.name, shortcut_listing(s))),
            find_views(out@) == ss.take(i as int).filter(ps).map_values(fs),
        decreases shortcuts.len() - i,
    {
        let sc = &shortcuts[i];
        let mut hay = chars_of(sc.name.as_str());
        hay.push(' ');
        let tags = crate::text::join_strings(sc.tags.as_slice(), " ");
        proof {
            reveal_strlit(" ");
            assert(" "@ =~= seq![' ']);
        }
        crate::text::extend_chars(&mut hay, tags.as_slice());
        hay.push(' ');
        crate::text::extend_str(&mut hay, sc.command.as_str());
        let lower = crate::text::ascii_lowercase(hay.as_slice());
        assert(lower@ =~= find_haystack(ss[i as int]));
        proof {
            assert(ss.take(i + 1) =~= ss.take(i as int).push(ss[i as int]));
            ss.take(i as int).lemma_filter_push(ss[i as int], ps);
        }
        if crate::text::chars_contain(lower.as_slice(), needle.as_slice()) {
            let ghost before = find_views(out@);
            out.push(FindResult::Shortcut(sc.name.clone(), format_shortcut(sc)));
            assert(find_views(out@) =~= before.push(fs(ss[i as int])));
            assert(ss.take(i + 1).filter(ps).map_values(fs) =~= ss.take(i as int).filter(ps).map_values(fs).push(fs(ss[i as int])));
        }
        i += 1;
    }
    assert(ss.take(shortcuts.len() as int) =~= ss);
    let ghost first = find_views(out@);
    let ghost es = sviews(entries@);
    let ghost pe = |e: Seq<char>| crate::text::contains_seq(crate::text::ascii_lower_seq(e), nd);
    let ghost fe = |e: Seq<char>| FindView::History(e);
    let mut j: usize = 0;
    assert(find_views(out@) =~= first + es.take(0).filter(pe).map_values(fe)) by {
        reveal(Seq::filter);
    }
    while j < entries.len()
        invariant
            j <= entries.len(),
            nd == needle@,
            es == sviews(entries@),
            pe == (|e: Seq<char>| crate::text::contains_seq(crate::text::ascii_lower_seq(e), nd)),
            fe == (|e: Seq<char>| FindView::History(e)),
            find_views(out@) == first + es.take(j as int).filter(pe).map_values(fe),
        decreases entries.len() - j,
    {
        let lower = crate::text::ascii_lowercase(chars_of(entries[j].as_str()).as_slice());
        proof {
            assert(es.take(j + 1) =~= es.take(j as int).push(es[j as int]));
            es.take(j as int).lemma_filter_push(es[j as int], pe);
        }
        if crate::text::chars_contain(lower.as_slice(), needle.as_slice()) {
            let ghost before = find_views(out@);
            out.push(FindResult::History(entries[j].clone()));
            assert(find_views(out@) =~= before.push(fe(es[j as int])));
            assert(es.take(j + 1).filter(pe).map_values(fe) =~= es.take(j as int).filter(pe).map_values(fe).push(fe(es[j as int])));
        }
        j += 1;
    }
    assert(es.take(entries.len() as int) =~= es);
    out
}

/// For `:find run <index>`: `None` when the query is not `run ...` (after
/// trimming), otherwise the index as a `usize`, if it parses.
pub open spec fn find_run_of(query: Seq<char>) -> Option<Option<usize>> {
    match strip_prefix(trim(query), "run "@) {
        Some(rest) => Some(crate::number::parses_as_usize(trim(rest))),
        None => None,
    }
}

/// Recognises `:find run <index>`.
pub fn parse_find_run(query: &str) -> (r: Option<Option<usize>>)
    ensures
        r == find_run_of(query@),
{
    let q = trim_chars(chars_of(query).as_slice());
    match strip_lit(q.as_slice(), "run ") {
        Some(rest) => {
            let n = rest.len();
            let (a, b) = crate::text::trim_bounds(rest.as_slice(), 0, n);
            assert(rest@.subrange(0, n as int) =~= rest@);
            Some(crate::number::parse_usize_range(rest.as_slice(), a, b))
        },
        None => None,
    }
}

/// Why a history index was refused.
#[derive(Clone, Copy, Debug, PartialEq, Eq, Structural)]
pub enum PinError {
    /// The index is not a number.
    NotANumber,
    /// The index is 0 or past the end of the history.
    OutOfRange,
}

/// The entry that a `:history pin`/`unpin` index names: the index must parse
/// as a `usize` and lie between 1 and the history length.
pub open spec fn pin_target_of(entries: Seq<Seq<char>>, index: Seq<char>) -> Result<Seq<char>, PinError> {
    match crate::number::parses_as_usize(trim(index)) {
        None => Err(PinError::NotANumber),
        Some(n) => if n == 0 || n > entries.len() {
            Err(PinError::OutOfRange)
        } else {
            Ok(entries[n - 1])
        },
    }
}

fn pin_target(entries: &[String], index: &str) -> (r: Result<String, PinError>)
    ensures
        match pin_target_of(sviews(entries@), index@) {
            Ok(e) => r matches Ok(x) && x@ == e,
            Err(e) => r == Err::<String, PinError>(e),
        },
{
    let v = trim_chars(chars_of(index).as_slice());
    let n = v.len();
    assert(v@.subrange(0, n as int) =~= v@);
    match crate::number::parse_usize_range(v.as_slice(), 0, n) {
        None => Err(PinError::NotANumber),
        Some(k) => {
            if k == 0 || k > entries.len() {
                Err(PinError::OutOfRange)
            } else {
                Ok(entries[k - 1].clone())
            }
        },
    }
}

/// The pins after `:history pin <index>`: the entry is added unless it is
/// already pinned; the flag tells whether the pins changed.
pub fn pin_history_entry(entries: &[String], pins: &Vec<String>, index: &str) -> (r: Result<
    (Vec<String>, bool),
    PinError,
>)
    ensures
        match pin_target_of(sviews(entries@), index@) {
            Ok(e) => r matches Ok((p, changed)) && changed == !sviews(pins@).contains(e) && sviews(
                p@,
            ) == (if changed {
                sviews(pins@).push(e)
            } else {
                sviews(pins@)
            }),
            Err(e) => r == Err::<(Vec<String>, bool), PinError>(e),
        },
{
    let entry = match pin_target(entries, index) {
        Ok(e) => e,
        Err(e) => {
            return Err(e);
        },
    };
    let mut p = crate::history::tail_strings(pins.as_slice(), 0);
    assert(sviews(pins@).skip(0) =~= sviews(pins@));
    if contains_string(pins, &entry) {
        Ok((p, false))
    } else {
        let ghost ev = entry@;
        p.push(entry);
        assert(sviews(p@) =~= sviews(pins@).push(ev));
        Ok((p, true))
    }
}

/// The pins other than `e`.
pub open spec fn without_pin(pins: Seq<Seq<char>>, e: Seq<char>) -> Seq<Seq<char>> {
    pins.filter(crate::text::other_than(e))
}

/// Unpinning an entry removes every copy of it and keeps the other pins in
/// order; unpinning an entry that was just pinned gives the pins back.
pub proof fn lemma_pin_unpin(pins: Seq<Seq<char>>, e: Seq<char>)
    ensures
        !without_pin(pins, e).contains(e),
        forall|x: Seq<char>| x != e ==> (without_pin(pins, e).contains(x) <==> pins.contains(x)),
        !pins.contains(e) ==> without_pin(pins.push(e), e) == pins,
        pins.no_duplicates() && !pins.contains(e) ==> pins.push(e).no_duplicates(),
{
    let p = crate::text::other_than(e);
    assert forall|x: Seq<char>| x != e implies (without_pin(pins, e).contains(x) <==> pins.contains(x)) by {
        if pins.contains(x) {
            let i = choose|i: int| 0 <= i < pins.len() && pins[i] == x;
            pins.lemma_filter_contains(p, i);
        }
        if without_pin(pins, e).contains(x) {
            pins.lemma_filter_contains_rev(p, x);
        }
    }
    if without_pin(pins, e).contains(e) {
        let i = choose|i: int| 0 <= i < without_pin(pins, e).len() && without_pin(pins, e)[i] == e;
        pins.lemma_filter_pred(p, i);
    }
    if pins.no_duplicates() && !pins.contains(e) {
        let q = pins.push(e);
        assert forall|a: int, b: int| 0 <= a < q.len() && 0 <= b < q.len() && a != b implies q[a] != q[b] by {
            if a == pins.len() {
                assert(q[b] == pins[b]);
            } else if b == pins.len() {
                assert(q[a] == pins[a]);
            } else {
                assert(q[a] == pins[a] && q[b] == pins[b]);
            }
        }
    }
    if !pins.contains(e) {
        pins.lemma_filter_push(e, p);
        assert forall|i: int| 0 <= i < pins.len() implies p(pins[i]) by {
            assert(pins[i] != e);
        }
        crate::history::lemma_filter_all(pins, p);
    }
}

/// The pins after `:history unpin <index>`: every copy of the entry is
/// removed; the flag tells whether the pins changed.
pub fn unpin_history_entry(entries: &[String], pins: &Vec<String>, index: &str) -> (r: Result<
    (Vec<String>, bool),
    PinError,
>)
    ensures
        match pin_target_of(sviews(entries@), index@) {
            Ok(e) => r matches Ok((p, changed)) && sviews(p@) == without_pin(sviews(pins@), e)
                && changed == (p@.len() != pins@.len()),
            Err(e) => r == Err::<(Vec<String>, bool), PinError>(e),
        },
{
    let entry = match pin_target(entries, index) {
        Ok(e) => e,
        Err(e) => {
            return Err(e);
        },
    };
    let ghost s = sviews(pins@);
    let ghost keep = crate::text::other_than(entry@);
    let mut out: Vec<String> = Vec::new();
    let mut i: usize = 0;
    assert(sviews(out@) =~= s.take(0).filter(keep)) by {
        reveal(Seq::filter);
    }
    while i < pins.len()
        invariant
            i <= pins.len(),
            s == sviews(pins@),
            keep == crate::text::other_than(entry@),
            sviews(out@) == s.take(i as int).filter(keep),
        decreases pins.len() - i,
    {
        proof {
            assert(s.take(i + 1) =~= s.take(i as int).push(s[i as int]));
            s.take(i as int).lemma_filter_push(s[i as int], keep);
        }
        if !crate::text::str_eq(pins[i].as_str(), entry.as_str()) {
            let ghost before = sviews(out@);
            out.push(pins[i].clone());
            assert(sviews(out@) =~= before.push(s[i as int]));
        }
        i += 1;
    }
    assert(s.take(pins.len() as int) =~= s);
    assert(sviews(out@) == without_pin(s, entry@));
    let changed = out.len() != pins.len();
    Ok((out, changed))
}


/// The position, in a list of `count` results, that the 1-based `index`
/// picks: `None` when it is 0 or past the end.
pub fn pick_result(count: usize, index: usize) -> (r: Option<usize>)
    ensures
        r == (if 1 <= index <= count {
            Some((index - 1) as usize)
        } else {
            None::<usize>
        }),
{
    if index == 0 || index > count {
        None
    } else {
        Some(index - 1)
    }
}

/// Two texts that differ at a position shared by both are different, and
/// the second does not start the first.
proof fn lemma_lit_differs(s: Seq<char>, t: Seq<char>, i: int)
    requires
        0 <= i < s.len(),
        i < t.len(),
        s[i] != t[i],
    ensures
        s != t,
        strip_prefix(s, t) is None,
{
    if t.is_prefix_of(s) {
        assert(s.subrange(0, t.len() as int)[i] == s[i]);
    }
}

/// Each spelling of a built-in command without an argument names its own
/// command: `:help` and `:?` ask for help, `:history dedupe` dedupes the
/// history and `:history clear` clears it, and so on for every spelling.
pub proof fn lemma_builtin_spellings()
    ensures
        command_of(":help"@) == Some(CommandView::Help),
        command_of(":?"@) == Some(CommandView::Help),
        command_of(":doctor"@) == Some(CommandView::Doctor),
        command_of(":set dry-run on"@) == Some(CommandView::SetDryRun(true)),
        command_of(":set dry-run off"@) == Some(CommandView::SetDryRun(false)),
        command_of(":profile list"@) == Some(CommandView::ProfileList),
        command_of(":exit"@) == Some(CommandView::Exit),
        command_of(":quit"@) == Some(CommandView::Exit),
        command_of(":q"@) == Some(CommandView::Exit),
        command_of(":reload"@) == Some(CommandView::Reload),
        command_of(":r"@) == Some(CommandView::Reload),
        command_of(":shortcuts"@) == Some(CommandView::ShortcutsList),
        command_of(":s"@) == Some(CommandView::ShortcutsList),
        command_of(":history"@) == Some(CommandView::HistoryList),
        command_of(":h"@) == Some(CommandView::HistoryList),
        command_of(":history ranked"@) == Some(CommandView::HistoryRanked),
        command_of(":history dedupe"@) == Some(CommandView::HistoryDedupe),
        command_of(":history clear"@) == Some(CommandView::HistoryClear),
        command_of(":undo"@) == Some(CommandView::Undo),
{
    reveal_strlit(":help");
    reveal_strlit(":?");
    reveal_strlit(":doctor");
    reveal_strlit(":set dry-run on");
    reveal_strlit(":set dry-run off");
    reveal_strlit(":profile list");
    reveal_strlit(":profile use ");
    reveal_strlit(":completion ");
    reveal_strlit(":exit");
    reveal_strlit(":quit");
    reveal_strlit(":q");
    reveal_strlit(":reload");
    reveal_strlit(":r");
    reveal_strlit(":shortcuts");
    reveal_strlit(":s");
    reveal_strlit(":shortcuts tag ");
    reveal_strlit(":shortcuts add ");
    reveal_strlit(":shortcuts del ");
    reveal_strlit(":history");
    reveal_strlit(":h");
    reveal_strlit(":history ranked");
    reveal_strlit(":history add ");
    reveal_strlit(":history pin ");
    reveal_strlit(":history unpin ");
    reveal_strlit(":history del ");
    reveal_strlit(":history dedupe");
    reveal_strlit(":history clear");
    reveal_strlit(":find ");
    reveal_strlit(":find! ");
    reveal_strlit(":export ");
    reveal_strlit(":import ");
    reveal_strlit(":undo");
    lemma_lit_differs(":exit"@, ":help"@, 1);
    lemma_lit_differs(":exit"@, ":quit"@, 1);
    lemma_lit_differs(":quit"@, ":help"@, 1);
    lemma_lit_differs(":quit"@, ":exit"@, 1);
    lemma_lit_differs(":q"@, ":?"@, 1);
    lemma_lit_differs(":reload"@, ":doctor"@, 1);
    lemma_lit_differs(":r"@, ":?"@, 1);
    lemma_lit_differs(":r"@, ":q"@, 1);
    lemma_lit_differs(":s"@, ":?"@, 1);
    lemma_lit_differs(":s"@, ":q"@, 1);
    lemma_lit_differs(":s"@, ":r"@, 1);
    lemma_lit_differs(":h"@, ":?"@, 1);
    lemma_lit_differs(":h"@, ":q"@, 1);
    lemma_lit_differs(":h"@, ":r"@, 1);
    lemma_lit_differs(":h"@, ":s"@, 1);
    lemma_lit_differs(":history ranked"@, ":set dry-run on"@, 1);
    lemma_lit_differs(":history ranked"@, ":profile use "@, 1);
    lemma_lit_differs(":history ranked"@, ":completion "@, 1);
    lemma_lit_differs(":history ranked"@, ":shortcuts tag "@, 1);
    lemma_lit_differs(":history ranked"@, ":shortcuts add "@, 1);
    lemma_lit_differs(":history ranked"@, ":shortcuts del "@, 1);
    lemma_lit_differs(":history dedupe"@, ":set dry-run on"@, 1);
    lemma_lit_differs(":history dedupe"@, ":profile use "@, 1);
    lemma_lit_differs(":history dedupe"@, ":completion "@, 1);
    lemma_lit_differs(":history dedupe"@, ":shortcuts tag "@, 1);
    lemma_lit_differs(":history dedupe"@, ":shortcuts add "@, 1);
    lemma_lit_differs(":history dedupe"@, ":shortcuts del "@, 1);
    lemma_lit_differs(":history dedupe"@, ":history ranked"@, 9);
    lemma_lit_differs(":history dedupe"@, ":history add "@, 9);
    lemma_lit_differs(":history dedupe"@, ":history pin "@, 9);
    lemma_lit_differs(":history dedupe"@, ":history unpin "@, 9);
    lemma_lit_differs(":history dedupe"@, ":history del "@, 11);
    lemma_lit_differs(":history clear"@, ":profile use "@, 1);
    lemma_lit_differs(":history clear"@, ":completion "@, 1);
    lemma_lit_differs(":history clear"@, ":history add "@, 9);
    lemma_lit_differs(":history clear"@, ":history pin "@, 9);
    lemma_lit_differs(":history clear"@, ":history del "@, 9);
    lemma_lit_differs(":undo"@, ":help"@, 1);
    lemma_lit_differs(":undo"@, ":exit"@, 1);
    lemma_lit_differs(":undo"@, ":quit"@, 1);
}

/// Each built-in command that takes an argument names that command whatever
/// follows its spelling: the rest of the line is its argument, trimmed for
/// names, profiles, shells, indexes and paths, and kept as it is for a
/// shortcut definition, a history entry and a search.
pub proof fn lemma_builtin_arguments(t: Seq<char>)
    ensures
        command_of(":profile use "@ + t) == Some(CommandView::ProfileUse(trim(t))),
        command_of(":completion "@ + t) == Some(CommandView::Completion(trim(t))),
        command_of(":shortcuts tag "@ + t) == Some(CommandView::ShortcutsTag(trim(t))),
        command_of(":shortcuts add "@ + t) == Some(CommandView::ShortcutsAdd(t)),
        command_of(":shortcuts del "@ + t) == Some(CommandView::ShortcutsDel(trim(t))),
        command_of(":history add "@ + t) == Some(CommandView::HistoryAdd(t)),
        command_of(":history pin "@ + t) == Some(CommandView::HistoryPin(trim(t))),
        command_of(":history unpin "@ + t) == Some(CommandView::HistoryUnpin(trim(t))),
        command_of(":history del "@ + t) == Some(CommandView::HistoryDel(trim(t))),
        command_of(":find "@ + t) == Some(CommandView::Find(t)),
        command_of(":find! "@ + t) == Some(CommandView::FindBang(t)),
        command_of(":export "@ + t) == Some(CommandView::Export(trim(t))),
        command_of(":import "@ + t) == Some(CommandView::Import(trim(t))),
{
    lemma_argument_profileuse(t);
    lemma_argument_completion(t);
    lemma_argument_shortcutstag(t);
    lemma_argument_shortcutsadd(t);
    lemma_argument_shortcutsdel(t);
    lemma_argument_historyadd(t);
    lemma_argument_historypin(t);
    lemma_argument_historyunpin(t);
    lemma_argument_historydel(t);
    lemma_argument_find(t);
    lemma_argument_findbang(t);
    lemma_argument_export(t);
    lemma_argument_import(t);
}

proof fn lemma_argument_profileuse(t: Seq<char>)
    ensures
        command_of(":profile use "@ + t) == Some(CommandView::ProfileUse(trim(t))),
{
    reveal_strlit(":help");
    reveal_strlit(":?");
    reveal_strlit(":doctor");
    reveal_strlit(":set dry-run on");
    reveal_strlit(":set dry-run off");
    reveal_strlit(":profile list");
    reveal_strlit(":profile use ");
    lemma_lit_differs(":profile use "@ + t, ":set dry-run on"@, 1);
    lemma_lit_differs(":profile use "@ + t, ":set dry-run off"@, 1);
    lemma_lit_differs(":profile use "@ + t, ":profile list"@, 9);
    assert((":profile use "@ + t).skip(13) =~= t);
    assert((":profile use "@ + t).subrange(0, 13) =~= ":profile use "@);
}

proof fn lemma_argument_completion(t: Seq<char>)
    ensures
        command_of(":completion "@ + t) == Some(CommandView::Completion(trim(t))),
{
    reveal_strlit(":help");
    reveal_strlit(":?");
    reveal_strlit(":doctor");
    reveal_strlit(":set dry-run on");
    reveal_strlit(":set dry-run off");
    reveal_strlit(":profile list");
    reveal_strlit(":profile use ");
    reveal_strlit(":completion ");
    lemma_lit_differs(":completion "@ + t, ":set dry-run on"@, 1);
    lemma_lit_differs(":completion "@ + t, ":set dry-run off"@, 1);
    lemma_lit_differs(":completion "@ + t, ":profile list"@, 1);
    lemma_lit_differs(":completion "@ + t, ":profile use "@, 1);
    assert((":completion "@ + t).skip(12) =~= t);
    assert((":completion "@ + t).subrange(0, 12) =~= ":completion "@);
}

proof fn lemma_argument_shortcutstag(t: Seq<char>)
    ensures
        command_of(":shortcuts tag "@ + t) == Some(CommandView::ShortcutsTag(trim(t))),
{
    reveal_strlit(":help");
    reveal_strlit(":?");
    reveal_strlit(":doctor");
    reveal_strlit(":set dry-run on");
    reveal_strlit(":set dry-run off");
    reveal_strlit(":profile list");
    reveal_strlit(":profile use ");
    reveal_strlit(":completion ");
    reveal_strlit(":exit");
    reveal_strlit(":quit");
    reveal_strlit(":q");
    reveal_strlit(":reload");
    reveal_strlit(":r");
    reveal_strlit(":shortcuts");
    reveal_strlit(":s");
    reveal_strlit(":shortcuts tag ");
    lemma_lit_differs(":shortcuts tag "@ + t, ":set dry-run on"@, 2);
    lemma_lit_differs(":shortcuts tag "@ + t, ":set dry-run off"@, 2);
    lemma_lit_differs(":shortcuts tag "@ + t, ":profile use "@, 1);
    lemma_lit_differs(":shortcuts tag "@ + t, ":completion "@, 1);
    assert((":shortcuts tag "@ + t).skip(15) =~= t);
    assert((":shortcuts tag "@ + t).subrange(0, 15) =~= ":shortcuts tag "@);
}

proof fn lemma_argument_shortcutsadd(t: Seq<char>)
    ensures
        command_of(":shortcuts add "@ + t) == Some(CommandView::ShortcutsAdd(t)),
{
    reveal_strlit(":help");
    reveal_strlit(":?");
    reveal_strlit(":doctor");
    reveal_strlit(":set dry-run on");
    reveal_strlit(":set dry-run off");
    reveal_strlit(":profile list");
    reveal_strlit(":profile use ");
    reveal_strlit(":completion ");
    reveal_strlit(":exit");
    reveal_strlit(":quit");
    reveal_strlit(":q");
    reveal_strlit(":reload");
    reveal_strlit(":r");
    reveal_strlit(":shortcuts");
    reveal_strlit(":s");
    reveal_strlit(":shortcuts tag ");
    reveal_strlit(":shortcuts add ");
    lemma_lit_differs(":shortcuts add "@ + t, ":set dry-run on"@, 2);
    lemma_lit_differs(":shortcuts add "@ + t, ":set dry-run off"@, 2);
    lemma_lit_differs(":shortcuts add "@ + t, ":profile use "@, 1);
    lemma_lit_differs(":shortcuts add "@ + t, ":completion "@, 1);
    lemma_lit_differs(":shortcuts add "@ + t, ":shortcuts tag "@, 11);
    assert((":shortcuts add "@ + t).skip(15) =~= t);
    assert((":shortcuts add "@ + t).subrange(0, 15) =~= ":shortcuts add "@);
}

proof fn lemma_argument_shortcutsdel(t: Seq<char>)
    ensures
        command_of(":shortcuts del "@ + t) == Some(CommandView::ShortcutsDel(trim(t))),
{
    reveal_strlit(":help");
    reveal_strlit(":?");
    reveal_strlit(":doctor");
    reveal_strlit(":set dry-run on");
    reveal_strlit(":set dry-run off");
    reveal_strlit(":profile list");
    reveal_strlit(":profile use ");
    reveal_strlit(":completion ");
    reveal_strlit(":exit");
    reveal_strlit(":quit");
    reveal_strlit(":q");
    reveal_strlit(":reload");
    reveal_strlit(":r");
    reveal_strlit(":shortcuts");
    reveal_strlit(":s");
    reveal_strlit(":shortcuts tag ");
    reveal_strlit(":shortcuts add ");
    reveal_strlit(":shortcuts del ");
    lemma_lit_differs(":shortcuts del "@ + t, ":set dry-run on"@, 2);
    lemma_lit_differs(":shortcuts del "@ + t, ":set dry-run off"@, 2);
    lemma_lit_differs(":shortcuts del "@ + t, ":profile use "@, 1);
    lemma_lit_differs(":shortcuts del "@ + t, ":completion "@, 1);
    lemma_lit_differs(":shortcuts del "@ + t, ":shortcuts tag "@, 11);
    lemma_lit_differs(":shortcuts del "@ + t, ":shortcuts add "@, 11);
    assert((":shortcuts del "@ + t).skip(15) =~= t);
    assert((":shortcuts del "@ + t).subrange(0, 15) =~= ":shortcuts del "@);
}

proof fn lemma_argument_historyadd(t: Seq<char>)
    ensures
        command_of(":history add "@ + t) == Some(CommandView::HistoryAdd(t)),
{
    reveal_strlit(":help");
    reveal_strlit(":?");
    reveal_strlit(":doctor");
    reveal_strlit(":set dry-run on");
    reveal_strlit(":set dry-run off");
    reveal_strlit(":profile list");
    reveal_strlit(":profile use ");
    reveal_strlit(":completion ");
    reveal_strlit(":exit");
    reveal_strlit(":quit");
    reveal_strlit(":q");
    reveal_strlit(":reload");
    reveal_strlit(":r");
    reveal_strlit(":shortcuts");
    reveal_strlit(":s");
    reveal_strlit(":shortcuts tag ");
    reveal_strlit(":shortcuts add ");
    reveal_strlit(":shortcuts del ");
    reveal_strlit(":history");
    reveal_strlit(":h");
    reveal_strlit(":history ranked");
    reveal_strlit(":history add ");
    lemma_lit_differs(":history add "@ + t, ":set dry-run on"@, 1);
    lemma_lit_differs(":history add "@ + t, ":set dry-run off"@, 1);
    lemma_lit_differs(":history add "@ + t, ":profile list"@, 1);
    lemma_lit_differs(":history add "@ + t, ":profile use "@, 1);
    lemma_lit_differs(":history add "@ + t, ":completion "@, 1);
    lemma_lit_differs(":history add "@ + t, ":shortcuts tag "@, 1);
    lemma_lit_differs(":history add "@ + t, ":shortcuts add "@, 1);
    lemma_lit_differs(":history add "@ + t, ":shortcuts del "@, 1);
    lemma_lit_differs(":history add "@ + t, ":history ranked"@, 9);
    assert((":history add "@ + t).skip(13) =~= t);
    assert((":history add "@ + t).subrange(0, 13) =~= ":history add "@);
}

proof fn lemma_argument_historypin(t: Seq<char>)
    ensures
        command_of(":history pin "@ + t) == Some(CommandView::HistoryPin(trim(t))),
{
    reveal_strlit(":help");
    reveal_strlit(":?");
    reveal_strlit(":doctor");
    reveal_strlit(":set dry-run on");
    reveal_strlit(":set dry-run off");
    reveal_strlit(":profile list");
    reveal_strlit(":profile use ");
    reveal_strlit(":completion ");
    reveal_strlit(":exit");
    reveal_strlit(":quit");
    reveal_strlit(":q");
    reveal_strlit(":reload");
    reveal_strlit(":r");
    reveal_strlit(":shortcuts");
    reveal_strlit(":s");
    reveal_strlit(":shortcuts tag ");
    reveal_strlit(":shortcuts add ");
    reveal_strlit(":shortcuts del ");
    reveal_strlit(":history");
    reveal_strlit(":h");
    reveal_strlit(":history ranked");
    reveal_strlit(":history add ");
    reveal_strlit(":history pin ");
    lemma_lit_differs(":history pin "@ + t, ":set dry-run on"@, 1);
    lemma_lit_differs(":history pin "@ + t, ":set dry-run off"@, 1);
    lemma_lit_differs(":history pin "@ + t, ":profile list"@, 1);
    lemma_lit_differs(":history pin "@ + t, ":profile use "@, 1);
    lemma_lit_differs(":history pin "@ + t, ":completion "@, 1);
    lemma_lit_differs(":history pin "@ + t, ":shortcuts tag "@, 1);
    lemma_lit_differs(":history pin "@ + t, ":shortcuts add "@, 1);
    lemma_lit_differs(":history pin "@ + t, ":shortcuts del "@, 1);
    lemma_lit_differs(":history pin "@ + t, ":history ranked"@, 9);
    lemma_lit_differs(":history pin "@ + t, ":history add "@, 9);
    assert((":history pin "@ + t).skip(13) =~= t);
    assert((":history pin "@ + t).subrange(0, 13) =~= ":history pin "@);
}

proof fn lemma_argument_historyunpin(t: Seq<char>)
    ensures
        command_of(":history unpin "@ + t) == Some(CommandView::HistoryUnpin(trim(t))),
{
    reveal_strlit(":help");
    reveal_strlit(":?");
    reveal_strlit(":doctor");
    reveal_strlit(":set dry-run on");
    reveal_strlit(":set dry-run off");
    reveal_strlit(":profile list");
    reveal_strlit(":profile use ");
    reveal_strlit(":completion ");
    reveal_strlit(":exit");
    reveal_strlit(":quit");
    reveal_strlit(":q");
    reveal_strlit(":reload");
    reveal_strlit(":r");
    reveal_strlit(":shortcuts");
    reveal_strlit(":s");
    reveal_strlit(":shortcuts tag ");
    reveal_strlit(":shortcuts add ");
    reveal_strlit(":shortcuts del ");
    reveal_strlit(":history");
    reveal_strlit(":h");
    reveal_strlit(":history ranked");
    reveal_strlit(":history add ");
    reveal_strlit(":history pin ");
    reveal_strlit(":history unpin ");
    lemma_lit_differs(":history unpin "@ + t, ":set dry-run on"@, 1);
    lemma_lit_differs(":history unpin "@ + t, ":set dry-run off"@, 1);
    lemma_lit_differs(":history unpin "@ + t, ":profile use "@, 1);
    lemma_lit_differs(":history unpin "@ + t, ":completion "@, 1);
    lemma_lit_differs(":history unpin "@ + t, ":shortcuts tag "@, 1);
    lemma_lit_differs(":history unpin "@ + t, ":shortcuts add "@, 1);
    lemma_lit_differs(":history unpin "@ + t, ":shortcuts del "@, 1);
    lemma_lit_differs(":history unpin "@ + t, ":history ranked"@, 9);
    lemma_lit_differs(":history unpin "@ + t, ":history add "@, 9);
    lemma_lit_differs(":history unpin "@ + t, ":history pin "@, 9);
    assert((":history unpin "@ + t).skip(15) =~= t);
    assert((":history unpin "@ + t).subrange(0, 15) =~= ":history unpin "@);
}

proof fn lemma_argument_historydel(t: Seq<char>)
    ensures
        command_of(":history del "@ + t) == Some(CommandView::HistoryDel(trim(t))),
{
    reveal_strlit(":help");
    reveal_strlit(":?");
    reveal_strlit(":doctor");
    reveal_strlit(":set dry-run on");
    reveal_strlit(":set dry-run off");
    reveal_strlit(":profile list");
    reveal_strlit(":profile use ");
    reveal_strlit(":completion ");
    reveal_strlit(":exit");
    reveal_strlit(":quit");
    reveal_strlit(":q");
    reveal_strlit(":reload");
    reveal_strlit(":r");
    reveal_strlit(":shortcuts");
    reveal_strlit(":s");
    reveal_strlit(":shortcuts tag ");
    reveal_strlit(":shortcuts add ");
    reveal_strlit(":shortcuts del ");
    reveal_strlit(":history");
    reveal_strlit(":h");
    reveal_strlit(":history ranked");
    reveal_strlit(":history add ");
    reveal_strlit(":history pin ");
    reveal_strlit(":history unpin ");
    reveal_strlit(":history del ");
    lemma_lit_differs(":history del "@ + t, ":set dry-run on"@, 1);
    lemma_lit_differs(":history del "@ + t, ":set dry-run off"@, 1);
    lemma_lit_differs(":history del "@ + t, ":profile list"@, 1);
    lemma_lit_differs(":history del "@ + t, ":profile use "@, 1);
    lemma_lit_differs(":history del "@ + t, ":completion "@, 1);
    lemma_lit_differs(":history del "@ + t, ":shortcuts tag "@, 1);
    lemma_lit_differs(":history del "@ + t, ":shortcuts add "@, 1);
    lemma_lit_differs(":history del "@ + t, ":shortcuts del "@, 1);
    lemma_lit_differs(":history del "@ + t, ":history ranked"@, 9);
    lemma_lit_differs(":history del "@ + t, ":history add "@, 9);
    lemma_lit_differs(":history del "@ + t, ":history pin "@, 9);
    lemma_lit_differs(":history del "@ + t, ":history unpin "@, 9);
    assert((":history del "@ + t).skip(13) =~= t);
    assert((":history del "@ + t).subrange(0, 13) =~= ":history del "@);
}

proof fn lemma_argument_find(t: Seq<char>)
    ensures
        command_of(":find "@ + t) == Some(CommandView::Find(t)),
{
    reveal_strlit(":help");
    reveal_strlit(":?");
    reveal_strlit(":doctor");
    reveal_strlit(":set dry-run on");
    reveal_strlit(":set dry-run off");
    reveal_strlit(":profile list");
    reveal_strlit(":profile use ");
    reveal_strlit(":completion ");
    reveal_strlit(":exit");
    reveal_strlit(":quit");
    reveal_strlit(":q");
    reveal_strlit(":reload");
    reveal_strlit(":r");
    reveal_strlit(":shortcuts");
    reveal_strlit(":s");
    reveal_strlit(":shortcuts tag ");
    reveal_strlit(":shortcuts add ");
    reveal_strlit(":shortcuts del ");
    reveal_strlit(":history");
    reveal_strlit(":h");
    reveal_strlit(":history ranked");
    reveal_strlit(":history add ");
    reveal_strlit(":history pin ");
    reveal_strlit(":history unpin ");
    reveal_strlit(":history del ");
    reveal_strlit(":history dedupe");
    reveal_strlit(":history clear");
    reveal_strlit(":find ");
    lemma_lit_differs(":find "@ + t, ":doctor"@, 1);
    lemma_lit_differs(":find "@ + t, ":set dry-run on"@, 1);
    lemma_lit_differs(":find "@ + t, ":set dry-run off"@, 1);
    lemma_lit_differs(":find "@ + t, ":profile list"@, 1);
    lemma_lit_differs(":find "@ + t, ":profile use "@, 1);
    lemma_lit_differs(":find "@ + t, ":completion "@, 1);
    lemma_lit_differs(":find "@ + t, ":reload"@, 1);
    lemma_lit_differs(":find "@ + t, ":shortcuts"@, 1);
    lemma_lit_differs(":find "@ + t, ":shortcuts tag "@, 1);
    lemma_lit_differs(":find "@ + t, ":shortcuts add "@, 1);
    lemma_lit_differs(":find "@ + t, ":shortcuts del "@, 1);
    lemma_lit_differs(":find "@ + t, ":history"@, 1);
    lemma_lit_differs(":find "@ + t, ":history ranked"@, 1);
    lemma_lit_differs(":find "@ + t, ":history add "@, 1);
    lemma_lit_differs(":find "@ + t, ":history pin "@, 1);
    lemma_lit_differs(":find "@ + t, ":history unpin "@, 1);
    lemma_lit_differs(":find "@ + t, ":history del "@, 1);
    lemma_lit_differs(":find "@ + t, ":history dedupe"@, 1);
    lemma_lit_differs(":find "@ + t, ":history clear"@, 1);
    assert((":find "@ + t).skip(6) =~= t);
    assert((":find "@ + t).subrange(0, 6) =~= ":find "@);
}

proof fn lemma_argument_findbang(t: Seq<char>)
    ensures
        command_of(":find! "@ + t) == Some(CommandView::FindBang(t)),
{
    reveal_strlit(":help");
    reveal_strlit(":?");
    reveal_strlit(":doctor");
    reveal_strlit(":set dry-run on");
    reveal_strlit(":set dry-run off");
    reveal_strlit(":profile list");
    reveal_strlit(":profile use ");
    reveal_strlit(":completion ");
    reveal_strlit(":exit");
    reveal_strlit(":quit");
    reveal_strlit(":q");
    reveal_strlit(":reload");
    reveal_strlit(":r");
    reveal_strlit(":shortcuts");
    reveal_strlit(":s");
    reveal_strlit(":shortcuts tag ");
    reveal_strlit(":shortcuts add ");
    reveal_strlit(":shortcuts del ");
    reveal_strlit(":history");
    reveal_strlit(":h");
    reveal_strlit(":history ranked");
    reveal_strlit(":history add ");
    reveal_strlit(":history pin ");
    reveal_strlit(":history unpin ");
    reveal_strlit(":history del ");
    reveal_strlit(":history dedupe");
    reveal_strlit(":history clear");
    reveal_strlit(":find ");
    reveal_strlit(":find! ");
    lemma_lit_differs(":find! "@ + t, ":doctor"@, 1);
    lemma_lit_differs(":find! "@ + t, ":set dry-run on"@, 1);
    lemma_lit_differs(":find! "@ + t, ":set dry-run off"@, 1);
    lemma_lit_differs(":find! "@ + t, ":profile list"@, 1);
    lemma_lit_differs(":find! "@ + t, ":profile use "@, 1);
    lemma_lit_differs(":find! "@ + t, ":completion "@, 1);
    lemma_lit_differs(":find! "@ + t, ":reload"@, 1);
    lemma_lit_differs(":find! "@ + t, ":shortcuts"@, 1);
    lemma_lit_differs(":find! "@ + t, ":shortcuts tag "@, 1);
    lemma_lit_differs(":find! "@ + t, ":shortcuts add "@, 1);
    lemma_lit_differs(":find! "@ + t, ":shortcuts del "@, 1);
    lemma_lit_differs(":find! "@ + t, ":history"@, 1);
    lemma_lit_differs(":find! "@ + t, ":history ranked"@, 1);
    lemma_lit_differs(":find! "@ + t, ":history add "@, 1);
    lemma_lit_differs(":find! "@ + t, ":history pin "@, 1);
    lemma_lit_differs(":find! "@ + t, ":history unpin "@, 1);
    lemma_lit_differs(":find! "@ + t, ":history del "@, 1);
    lemma_lit_differs(":find! "@ + t, ":history dedupe"@, 1);
    lemma_lit_differs(":find! "@ + t, ":history clear"@, 1);
    lemma_lit_differs(":find! "@ + t, ":find "@, 5);
    assert((":find! "@ + t).skip(7) =~= t);
    assert((":find! "@ + t).subrange(0, 7) =~= ":find! "@);
}

proof fn lemma_argument_export(t: Seq<char>)
    ensures
        command_of(":export "@ + t) == Some(CommandView::Export(trim(t))),
{
    reveal_strlit(":help");
    reveal_strlit(":?");
    reveal_strlit(":doctor");
    reveal_strlit(":set dry-run on");
    reveal_strlit(":set dry-run off");
    reveal_strlit(":profile list");
    reveal_strlit(":profile use ");
    reveal_strlit(":completion ");
    reveal_strlit(":exit");
    reveal_strlit(":quit");
    reveal_strlit(":q");
    reveal_strlit(":reload");
    reveal_strlit(":r");
    reveal_strlit(":shortcuts");
    reveal_strlit(":s");
    reveal_strlit(":shortcuts tag ");
    reveal_strlit(":shortcuts add ");
    reveal_strlit(":shortcuts del ");
    reveal_strlit(":history");
    reveal_strlit(":h");
    reveal_strlit(":history ranked");
    reveal_strlit(":history add ");
    reveal_strlit(":history pin ");
    reveal_strlit(":history unpin ");
    reveal_strlit(":history del ");
    reveal_strlit(":history dedupe");
    reveal_strlit(":history clear");
    reveal_strlit(":find ");
    reveal_strlit(":find! ");
    reveal_strlit(":export ");
    lemma_lit_differs(":export "@ + t, ":set dry-run on"@, 1);
    lemma_lit_differs(":export "@ + t, ":set dry-run off"@, 1);
    lemma_lit_differs(":export "@ + t, ":profile list"@, 1);
    lemma_lit_differs(":export "@ + t, ":profile use "@, 1);
    lemma_lit_differs(":export "@ + t, ":completion "@, 1);
    lemma_lit_differs(":export "@ + t, ":shortcuts"@, 1);
    lemma_lit_differs(":export "@ + t, ":shortcuts tag "@, 1);
    lemma_lit_differs(":export "@ + t, ":shortcuts add "@, 1);
    lemma_lit_differs(":export "@ + t, ":shortcuts del "@, 1);
    lemma_lit_differs(":export "@ + t, ":history"@, 1);
    lemma_lit_differs(":export "@ + t, ":history ranked"@, 1);
    lemma_lit_differs(":export "@ + t, ":history add "@, 1);
    lemma_lit_differs(":export "@ + t, ":history pin "@, 1);
    lemma_lit_differs(":export "@ + t, ":history unpin "@, 1);
    lemma_lit_differs(":export "@ + t, ":history del "@, 1);
    lemma_lit_differs(":export "@ + t, ":history dedupe"@, 1);
    lemma_lit_differs(":export "@ + t, ":history clear"@, 1);
    lemma_lit_differs(":export "@ + t, ":find "@, 1);
    lemma_lit_differs(":export "@ + t, ":find! "@, 1);
    assert((":export "@ + t).skip(8) =~= t);
    assert((":export "@ + t).subrange(0, 8) =~= ":export "@);
}

proof fn lemma_argument_import(t: Seq<char>)
    ensures
        command_of(":import "@ + t) == Some(CommandView::Import(trim(t))),
{
    reveal_strlit(":help");
    reveal_strlit(":?");
    reveal_strlit(":doctor");
    reveal_strlit(":set dry-run on");
    reveal_strlit(":set dry-run off");
    reveal_strlit(":profile list");
    reveal_strlit(":profile use ");
    reveal_strlit(":completion ");
    reveal_strlit(":exit");
    reveal_strlit(":quit");
    reveal_strlit(":q");
    reveal_strlit(":reload");
    reveal_strlit(":r");
    reveal_strlit(":shortcuts");
    reveal_strlit(":s");
    reveal_strlit(":shortcuts tag ");
    reveal_strlit(":shortcuts add ");
    reveal_strlit(":shortcuts del ");
    reveal_strlit(":history");
    reveal_strlit(":h");
    reveal_strlit(":history ranked");
    reveal_strlit(":history add ");
    reveal_strlit(":history pin ");
    reveal_strlit(":history unpin ");
    reveal_strlit(":history del ");
    reveal_strlit(":history dedupe");
    reveal_strlit(":history clear");
    reveal_strlit(":find ");
    reveal_strlit(":find! ");
    reveal_strlit(":export ");
    reveal_strlit(":import ");
    lemma_lit_differs(":import "@ + t, ":set dry-run on"@, 1);
    lemma_lit_differs(":import "@ + t, ":set dry-run off"@, 1);
    lemma_lit_differs(":import "@ + t, ":profile list"@, 1);
    lemma_lit_differs(":import "@ + t, ":profile use "@, 1);
    lemma_lit_differs(":import "@ + t, ":completion "@, 1);
    lemma_lit_differs(":import "@ + t, ":shortcuts"@, 1);
    lemma_lit_differs(":import "@ + t, ":shortcuts tag "@, 1);
    lemma_lit_differs(":import "@ + t, ":shortcuts add "@, 1);
    lemma_lit_differs(":import "@ + t, ":shortcuts del "@, 1);
    lemma_lit_differs(":import "@ + t, ":history"@, 1);
    lemma_lit_differs(":import "@ + t, ":history ranked"@, 1);
    lemma_lit_differs(":import "@ + t, ":history add "@, 1);
    lemma_lit_differs(":import "@ + t, ":history pin "@, 1);
    lemma_lit_differs(":import "@ + t, ":history unpin "@, 1);
    lemma_lit_differs(":import "@ + t, ":history del "@, 1);
    lemma_lit_differs(":import "@ + t, ":history dedupe"@, 1);
    lemma_lit_differs(":import "@ + t, ":history clear"@, 1);
    lemma_lit_differs(":import "@ + t, ":find "@, 1);
    lemma_lit_differs(":import "@ + t, ":find! "@, 1);
    lemma_lit_differs(":import "@ + t, ":export "@, 1);
    assert((":import "@ + t).skip(8) =~= t);
    assert((":import "@ + t).subrange(0, 8) =~= ":import "@);
}

} // verus!
