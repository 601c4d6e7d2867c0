//! The decisions around running a command: the safety policy, the prod
//! phrase for dangerous prod-tagged shortcuts, dry runs, and the audit trail.
//!
//! Running a command alternates questions to the user with decisions; the
//! decisions are the step function [`run_step`], and the caller asks the
//! questions and runs the command.

use vstd::prelude::*;
use crate::config::SafetyPolicy;
use crate::shortcuts::{holds_dangerous_pattern, has_tag, unicode_lowercase};
use crate::text::{chars_of, contains_seq, string_of, sviews, trim};

verus! {

/// What the safety policy asks for before a command runs.
#[derive(Clone, Copy, Debug, PartialEq, Eq, Structural)]
pub enum Approval {
    /// Not dangerous: run it.
    Allowed,
    /// Dangerous under `warn`: print a warning, then run it.
    AllowedWithWarning,
    /// Dangerous under `confirm`: ask, with "no" as the default.
    AskConfirmation,
    /// Dangerous under `block`, but `--force` is present: say so and run it.
    AllowedByForce,
    /// Dangerous under `block` without `--force`: refuse.
    Blocked,
}

/// A command that counts as dangerous.
pub open spec fn dangerous(command: Seq<char>) -> bool {
    holds_dangerous_pattern(unicode_lowercase(command))
}

/// What the safety policy asks for before `command` runs.
pub open spec fn approval_of(command: Seq<char>, policy: SafetyPolicy) -> Approval {
    if !dangerous(command) {
        Approval::Allowed
    } else {
        match policy {
            SafetyPolicy::Warn => Approval::AllowedWithWarning,
            SafetyPolicy::Confirm => Approval::AskConfirmation,
            SafetyPolicy::Block => if contains_seq(command, "--force"@) {
                Approval::AllowedByForce
            } else {
                Approval::Blocked
            },
        }
    }
}

/// What the safety policy asks for before `command` runs.
pub fn approval_for(command: &str, policy: SafetyPolicy) -> (r: Approval)
    ensures
        r == approval_of(command@, policy),
{
    if !crate::shortcuts::is_dangerous(command) {
        return Approval::Allowed;
    }
    match policy {
        SafetyPolicy::Warn => Approval::AllowedWithWarning,
        SafetyPolicy::Confirm => Approval::AskConfirmation,
        SafetyPolicy::Block => {
            let v = chars_of(command);
            let f = chars_of("--force");
            if crate::text::chars_contain(v.as_slice(), f.as_slice()) {
                Approval::AllowedByForce
            } else {
                Approval::Blocked
            }
        },
    }
}

/// The answer to a yes/no question: the Unicode-lowercased trimmed input;
/// empty gives the default, otherwise only `y` and `yes` mean yes.
pub open spec fn yes_no_of(input: Seq<char>, default_yes: bool) -> bool {
    let r = unicode_lowercase(trim(input));
    if r.len() == 0 {
        default_yes
    } else {
        r == "y"@ || r == "yes"@
    }
}

/// The answer that the input line gives to a yes/no question.
pub fn yes_no_answer(input: &str, default_yes: bool) -> (r: bool)
    ensures
        r == yes_no_of(input@, default_yes),
{
    let t = crate::text::trim_str(input);
    let lowered = crate::shortcuts::to_lowercase(t.as_str());
    if lowered.as_str().is_empty() {
        return default_yes;
    }
    crate::text::str_eq(lowered.as_str(), "y") || crate::text::str_eq(lowered.as_str(), "yes")
}

/// A dangerous command of a prod-tagged shortcut needs the prod phrase.
pub open spec fn needs_prod_phrase_of(command: Seq<char>, tags: Seq<Seq<char>>) -> bool {
    has_tag(tags, "prod"@) && dangerous(command)
}

/// Whether `command` needs the prod phrase before it runs.
pub fn needs_prod_phrase(command: &str, tags: &[String]) -> (r: bool)
    ensures
        r == needs_prod_phrase_of(command@, sviews(tags@)),
{
    let mut i: usize = 0;
    let mut is_prod = false;
    while i < tags.len()
        invariant
            i <= tags.len(),
            is_prod == (exists|k: int|
                0 <= k < i && crate::text::eq_ignore_ascii_case(sviews(tags@)[k], "prod"@)),
        decreases tags.len() - i,
    {
        let hit = crate::text::str_eq_ignore_ascii_case(tags[i].as_str(), "prod");
        assert(sviews(tags@)[i as int] == tags@[i as int]@);
        if hit {
            is_prod = true;
        }
        proof {
            if !hit {
                assert forall|k: int|
                    0 <= k < i + 1 && crate::text::eq_ignore_ascii_case(
                        sviews(tags@)[k],
                        "prod"@,
                    ) implies k < i by {}
            }
        }
        i += 1;
    }
    is_prod && crate::shortcuts::is_dangerous(command)
}

/// Whether the input line gives the prod phrase: `PROD`, surrounding
/// whitespace ignored.
pub fn prod_phrase_given(input: &str) -> (r: bool)
    ensures
        r == (trim(input@) == "PROD"@),
{
    let t = crate::text::trim_str(input);
    crate::text::str_eq(t.as_str(), "PROD")
}

/// How a command run ended, as the audit log records it.
#[derive(Clone, Copy, Debug, PartialEq, Eq, Structural)]
pub enum AuditStatus {
    AbortedPreview,
    DryRun,
    AbortedProdPhrase,
    AbortedSafety,
    Failed,
    Succeeded,
}

/// The word the audit log uses for a status.
pub open spec fn status_word(s: AuditStatus) -> Seq<char> {
    match s {
        AuditStatus::AbortedPreview => "aborted-preview"@,
        AuditStatus::DryRun => "dry-run"@,
        AuditStatus::AbortedProdPhrase => "aborted-prod-phrase"@,
        AuditStatus::AbortedSafety => "aborted-safety"@,
        AuditStatus::Failed => "failed"@,
        AuditStatus::Succeeded => "ok"@,
    }
}

/// The word the audit log uses for a status.
pub fn status_text(s: AuditStatus) -> (r: String)
    ensures
        r@ == status_word(s),
{
    match s {
        AuditStatus::AbortedPreview => String::from_str("aborted-preview"),
        AuditStatus::DryRun => String::from_str("dry-run"),
        AuditStatus::AbortedProdPhrase => String::from_str("aborted-prod-phrase"),
        AuditStatus::AbortedSafety => String::from_str("aborted-safety"),
        AuditStatus::Failed => String::from_str("failed"),
        AuditStatus::Succeeded => String::from_str("ok"),
    }
}

/// A line of the audit log: `timestamp|profile|status|command`, with each
/// newline of the command replaced by a space.
pub open spec fn audit_line_text(ts: u64, profile: Seq<char>, status: AuditStatus, command: Seq<
    char,
>) -> Seq<char> {
    crate::number::decimal(ts as nat) + seq!['|'] + profile + seq!['|'] + status_word(status)
        + seq!['|'] + crate::text::replace_all(command, seq!['\n'], seq![' ']) + seq!['\n']
}

/// A line of the audit log.
pub fn audit_line(ts: u64, profile: &str, status: AuditStatus, command: &str) -> (r: String)
    ensures
        r@ == audit_line_text(ts, profile@, status, command@),
{
    let mut out: Vec<char> = Vec::new();
    crate::number::push_decimal(&mut out, ts);
    out.push('|');
    crate::text::extend_str(&mut out, profile);
    out.push('|');
    let st = status_text(status);
    crate::text::extend_str(&mut out, st.as_str());
    out.push('|');
    let c = chars_of(command);
    let mut nl: Vec<char> = Vec::new();
    nl.push('\n');
    let mut sp: Vec<char> = Vec::new();
    sp.push(' ');
    assert(nl@ =~= seq!['\n']);
    assert(sp@ =~= seq![' ']);
    let replaced = crate::text::replace_chars(c.as_slice(), nl.as_slice(), sp.as_slice());
    crate::text::extend_chars(&mut out, replaced.as_slice());
    out.push('\n');
    assert(out@ =~= audit_line_text(ts, profile@, status, command@));
    string_of(out.as_slice())
}

/// Where a command run stands.
#[derive(Clone, Copy, Debug, PartialEq, Eq, Structural)]
pub enum RunState {
    /// Nothing decided yet.
    Start,
    /// Dry run: waiting for the answer to the preview question.
    AwaitPreview,
    /// Waiting for the prod phrase.
    AwaitProdPhrase,
    /// Waiting for the answer to the confirmation question.
    AwaitConfirmation,
    /// The command is running.
    AwaitRun,
    /// The run is over.
    Done,
}

/// What happened since the last step.
#[derive(Clone, Copy, Debug, PartialEq, Eq, Structural)]
pub enum RunEvent {
    /// The run begins.
    Begin,
    /// The user answered a question (yes or no, or whether the phrase was right).
    Answer(bool),
    /// The command finished, successfully or not.
    Finished(bool),
}

/// What the caller does next.
#[derive(Clone, Copy, Debug, PartialEq, Eq, Structural)]
pub enum RunAction {
    /// Show the command and ask whether to run it (default yes).
    AskPreview,
    /// Ask for the prod phrase.
    AskProdPhrase,
    /// Ask whether to run the dangerous command (default no).
    AskConfirmation,
    /// Run the command; warn first (`warn` policy) or say that `--force`
    /// allowed it, as the flags tell.
    Execute { warn: bool, forced: bool },
    /// Stop: log the status; `ran` tells whether the run counts as done
    /// (the command ran, or a dry run was accepted), so that history and
    /// usage are updated; `blocked` tells that the safety policy refused it.
    Finish { status: AuditStatus, ran: bool, blocked: bool },
    /// Nothing to do (an event that does not fit the state).
    Nothing,
}

/// The decision after `event` in `state`, for a run with the given dry-run
/// flag, prod-phrase need and safety approval: a dry run only previews;
/// otherwise the prod phrase comes first, then the safety policy, then the
/// command runs.
pub open spec fn run_step_of(
    state: RunState,
    event: RunEvent,
    dry_run: bool,
    needs_phrase: bool,
    approval: Approval,
) -> (RunState, RunAction) {
    let after_phrase = match approval {
        Approval::Allowed => (RunState::AwaitRun, RunAction::Execute { warn: false, forced: false }),
        Approval::AllowedWithWarning => (
            RunState::AwaitRun,
            RunAction::Execute { warn: true, forced: false },
        ),
        Approval::AllowedByForce => (
            RunState::AwaitRun,
            RunAction::Execute { warn: false, forced: true },
        ),
        Approval::AskConfirmation => (RunState::AwaitConfirmation, RunAction::AskConfirmation),
        Approval::Blocked => (
            RunState::Done,
            RunAction::Finish { status: AuditStatus::AbortedSafety, ran: false, blocked: true },
        ),
    };
    match (state, event) {
        (RunState::Start, RunEvent::Begin) => if dry_run {
            (RunState::AwaitPreview, RunAction::AskPreview)
        } else if needs_phrase {
            (RunState::AwaitProdPhrase, RunAction::AskProdPhrase)
        } else {
            after_phrase
        },
        (RunState::AwaitPreview, RunEvent::Answer(yes)) => if yes {
            (RunState::Done, RunAction::Finish { status: AuditStatus::DryRun, ran: true, blocked: false })
        } else {
            (
                RunState::Done,
                RunAction::Finish { status: AuditStatus::AbortedPreview, ran: false, blocked: false },
            )
        },
        (RunState::AwaitProdPhrase, RunEvent::Answer(ok)) => if ok {
            after_phrase
        } else {
            (
                RunState::Done,
                RunAction::Finish {
                    status: AuditStatus::AbortedProdPhrase,
                    ran: false,
                    blocked: false,
                },
            )
        },
        (RunState::AwaitConfirmation, RunEvent::Answer(yes)) => if yes {
            (RunState::AwaitRun, RunAction::Execute { warn: false, forced: false })
        } else {
            (
                RunState::Done,
                RunAction::Finish { status: AuditStatus::AbortedSafety, ran: false, blocked: false },
            )
        },
        (RunState::AwaitRun, RunEvent::Finished(ok)) => (
            RunState::Done,
            RunAction::Finish {
                status: if ok {
                    AuditStatus::Succeeded
                } else {
                    AuditStatus::Failed
                },
                ran: true,
                blocked: false,
            },
        ),
        _ => (state, RunAction::Nothing),
    }
}

/// The next state and action of a command run.
pub fn run_step(
    state: RunState,
    event: RunEvent,
    dry_run: bool,
    needs_phrase: bool,
    approval: Approval,
) -> (r: (RunState, RunAction))
    ensures
        r == run_step_of(state, event, dry_run, needs_phrase, approval),
{
    let after_phrase = match approval {
        Approval::Allowed => (RunState::AwaitRun, RunAction::Execute { warn: false, forced: false }),
        Approval::AllowedWithWarning => (
            RunState::AwaitRun,
            RunAction::Execute { warn: true, forced: false },
        ),
        Approval::AllowedByForce => (
            RunState::AwaitRun,
            RunAction::Execute { warn: false, forced: true },
        ),
        Approval::AskConfirmation => (RunState::AwaitConfirmation, RunAction::AskConfirmation),
        Approval::Blocked => (
            RunState::Done,
            RunAction::Finish { status: AuditStatus::AbortedSafety, ran: false, blocked: true },
        ),
    };
    match (state, event) {
        (RunState::Start, RunEvent::Begin) => if dry_run {
            (RunState::AwaitPreview, RunAction::AskPreview)
        } else if needs_phrase {
            (RunState::AwaitProdPhrase, RunAction::AskProdPhrase)
        } else {
            after_phrase
        },
        (RunState::AwaitPreview, RunEvent::Answer(yes)) => if yes {
            (RunState::Done, RunAction::Finish { status: AuditStatus::DryRun, ran: true, blocked: false })
        } else {
            (
                RunState::Done,
                RunAction::Finish { status: AuditStatus::AbortedPreview, ran: false, blocked: false },
            )
        },
        (RunState::AwaitProdPhrase, RunEvent::Answer(ok)) => if ok {
            after_phrase
        } else {
            (
                RunState::Done,
                RunAction::Finish {
                    status: AuditStatus::AbortedProdPhrase,
                    ran: false,
                    blocked: false,
                },
            )
        },
        (RunState::AwaitConfirmation, RunEvent::Answer(yes)) => if yes {
            (RunState::AwaitRun, RunAction::Execute { warn: false, forced: false })
        } else {
            (
                RunState::Done,
                RunAction::Finish { status: AuditStatus::AbortedSafety, ran: false, blocked: false },
            )
        },
        (RunState::AwaitRun, RunEvent::Finished(ok)) => (
            RunState::Done,
            RunAction::Finish {
                status: if ok {
                    AuditStatus::Succeeded
                } else {
                    AuditStatus::Failed
                },
                ran: true,
                blocked: false,
            },
        ),
        _ => (state, RunAction::Nothing),
    }
}

/// A dangerous command is never executed without the user's consent: under
/// `block` without `--force` the first step refuses it, under `confirm` the
/// first step asks, and a prod-tagged dangerous command is asked for the
/// phrase before anything else (outside dry runs).
pub proof fn lemma_dangerous_needs_consent(command: Seq<char>, tags: Seq<Seq<char>>, policy: SafetyPolicy)
    requires
        dangerous(command),
    ensures
        ({
            let first = run_step_of(
                RunState::Start,
                RunEvent::Begin,
                false,
                needs_prod_phrase_of(command, tags),
                approval_of(command, policy),
            ).1;
            &&& has_tag(tags, "prod"@) ==> first == RunAction::AskProdPhrase
            &&& !has_tag(tags, "prod"@) && policy == SafetyPolicy::Confirm ==> first
                == RunAction::AskConfirmation
            &&& !has_tag(tags, "prod"@) && policy == SafetyPolicy::Block && !contains_seq(
                command,
                "--force"@,
            ) ==> first == RunAction::Finish {
                status: AuditStatus::AbortedSafety,
                ran: false,
                blocked: true,
            }
        }),
{
}

/// What every step of a command run keeps: a dry run stays among the
/// preview states and never executes; a blocked command (outside dry runs)
/// never leaves the states before execution and is never executed; a command
/// that needs the prod phrase is executed from the states before the phrase
/// only on a right phrase; a command that needs confirmation is executed
/// only on a "yes" to the confirmation question; and a finished run stays
/// finished.
pub proof fn lemma_run_step_safety(
    state: RunState,
    event: RunEvent,
    dry_run: bool,
    needs_phrase: bool,
    approval: Approval,
)
    ensures
        ({
            let (next, action) = run_step_of(state, event, dry_run, needs_phrase, approval);
            &&& dry_run && (state == RunState::Start || state == RunState::AwaitPreview || state
                == RunState::Done) ==> (next == RunState::Start || next == RunState::AwaitPreview
                || next == RunState::Done) && !(action is Execute)
            &&& !dry_run && approval == Approval::Blocked && (state == RunState::Start || state
                == RunState::AwaitProdPhrase || state == RunState::Done) ==> (next
                == RunState::Start || next == RunState::AwaitProdPhrase || next == RunState::Done)
                && !(action is Execute)
            &&& needs_phrase && (state == RunState::Start || state == RunState::AwaitProdPhrase)
                && action is Execute ==> state == RunState::AwaitProdPhrase && event
                == RunEvent::Answer(true)
            &&& approval == Approval::AskConfirmation && action is Execute ==> state
                == RunState::AwaitConfirmation && event == RunEvent::Answer(true)
            &&& state == RunState::Done ==> next == RunState::Done && action == RunAction::Nothing
        }),
{
}

/// The number of prod-tagged shortcuts whose command is dangerous.
pub open spec fn prod_dangerous_count(s: Seq<crate::shortcuts::ShortcutView>) -> nat {
    s.filter(|x: crate::shortcuts::ShortcutView| needs_prod_phrase_of(x.command, x.tags)).len()
}

/// Counts the prod-tagged shortcuts with a dangerous command (for `:doctor`).
pub fn count_prod_dangerous(shortcuts: &[crate::shortcuts::Shortcut]) -> (r: usize)
    ensures
        r == prod_dangerous_count(crate::shortcuts::shortcut_views(shortcuts@)),
{
    let ghost s = crate::shortcuts::shortcut_views(shortcuts@);
    let ghost p = |x: crate::shortcuts::ShortcutView| needs_prod_phrase_of(x.command, x.tags);
    let mut n: usize = 0;
    let mut i: usize = 0;
    assert(s.take(0).filter(p).len() == 0) by {
        reveal(Seq::filter);
    }
    while i < shortcuts.len()
        invariant
            i <= shortcuts.len(),
            s == crate::shortcuts::shortcut_views(shortcuts@),
            p == (|x: crate::shortcuts::ShortcutView| needs_prod_phrase_of(x.command, x.tags)),
            n == s.take(i as int).filter(p).len(),
            n <= i,
        decreases shortcuts.len() - i,
    {
        proof {
            assert(s.take(i + 1) =~= s.take(i as int).push(s[i as int]));
            s.take(i as int).lemma_filter_push(s[i as int], p);
        }
        if needs_prod_phrase(shortcuts[i].command.as_str(), shortcuts[i].tags.as_slice()) {
            n += 1;
        }
        i += 1;
    }
    assert(s.take(shortcuts.len() as int) =~= s);
    n
}

} // verus!
