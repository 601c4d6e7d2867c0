//! The command history: the format of `history.txt` and the edits that the
//! built-in `:history` commands make to it.

use vstd::prelude::*;
use crate::config::HistoryLimit;
use crate::text::{chars_of, is_trimmed, join, lines, split_lines, string_of, sviews, trim, trim_chars};

verus! {

/// The entries that the text of `history.txt` holds: its lines, trimmed, with
/// blank lines left out.
pub open spec fn history_of(content: Seq<char>) -> Seq<Seq<char>> {
    lines(content).map_values(|l: Seq<char>| trim(l)).filter(|l: Seq<char>| l.len() > 0)
}

/// Reads the entries of `history.txt` from its text.
pub fn parse_history(content: &str) -> (r: Vec<String>)
    ensures
        sviews(r@) == history_of(content@),
{
    let v = chars_of(content);
    let ls = split_lines(v.as_slice());
    let ghost all = lines(content@);
    let ghost trimmed = all.map_values(|l: Seq<char>| trim(l));
    let ghost keep = |l: Seq<char>| l.len() > 0;
    let mut r: Vec<String> = Vec::new();
    let mut i: usize = 0;
    while i < ls.len()
        invariant
            i <= ls.len(),
            crate::text::vviews(ls@) == all,
            trimmed == all.map_values(|l: Seq<char>| trim(l)),
            keep == (|l: Seq<char>| l.len() > 0),
            sviews(r@) == trimmed.take(i as int).filter(keep),
        decreases ls.len() - i,
    {
        let t = trim_chars(ls[i].as_slice());
        proof {
            assert(trimmed.take(i + 1) =~= trimmed.take(i as int).push(trimmed[i as int]));
            trimmed.take(i as int).lemma_filter_push(trimmed[i as int], keep);
        }
        if t.len() > 0 {
            let ghost old_r = sviews(r@);
            r.push(string_of(t.as_slice()));
            assert(sviews(r@) =~= old_r.push(t@));
        }
        i += 1;
    }
    assert(trimmed.take(ls.len() as int) =~= trimmed);
    r
}

/// The text of `history.txt` that holds `entries`: one entry per line, each
/// ended by a newline; no entries give an empty file.
pub open spec fn render_history_spec(entries: Seq<Seq<char>>) -> Seq<char> {
    if entries.len() == 0 {
        Seq::empty()
    } else {
        join(entries, seq!['\n']) + seq!['\n']
    }
}

/// The text of `history.txt` that holds `entries`.
pub fn render_history(entries: &[String]) -> (r: String)
    ensures
        r@ == render_history_spec(sviews(entries@)),
{
    if entries.len() == 0 {
        return String::new();
    }
    let mut out = crate::text::join_strings(entries, "\n");
    proof {
        reveal_strlit("\n");
        assert("\n"@ =~= seq!['\n']);
    }
    out.push('\n');
    string_of(out.as_slice())
}

/// An entry that `history.txt` can hold unchanged: non-empty, without
/// surrounding whitespace and without line breaks.
pub open spec fn storable_entry(e: Seq<char>) -> bool {
    &&& e.len() > 0
    &&& is_trimmed(e)
    &&& forall|i: int| 0 <= i < e.len() ==> e[i] != '\n'
}


/// A sequence whose elements all satisfy `p` is its own filter.
pub proof fn lemma_filter_all<A>(s: Seq<A>, p: spec_fn(A) -> bool)
    requires
        forall|i: int| 0 <= i < s.len() ==> p(s[i]),
    ensures
        s.filter(p) == s,
    decreases s.len(),
{
    reveal(Seq::filter);
    if s.len() > 0 {
        lemma_filter_all(s.drop_last(), p);
        assert(s.drop_last().push(s.last()) =~= s);
    }
}

/// Filtering a sequence without copies leaves none.
pub proof fn lemma_filter_no_duplicates<A>(s: Seq<A>, p: spec_fn(A) -> bool)
    requires
        s.no_duplicates(),
    ensures
        s.filter(p).no_duplicates(),
    decreases s.len(),
{
    if s.len() > 0 {
        let d = s.drop_last();
        let x = s.last();
        assert(d.no_duplicates()) by {
            assert forall|i: int, j: int| 0 <= i < d.len() && 0 <= j < d.len() && i != j implies d[i] != d[j] by {
                assert(d[i] == s[i] && d[j] == s[j]);
            }
        }
        lemma_filter_no_duplicates(d, p);
        assert(d.push(x) =~= s);
        d.lemma_filter_push(x, p);
        if p(x) {
            let f = d.filter(p);
            assert(!f.contains(x)) by {
                if f.contains(x) {
                    d.lemma_filter_contains_rev(p, x);
                    let k = choose|k: int| 0 <= k < d.len() && d[k] == x;
                    assert(s[k] == s[s.len() - 1]);
                }
            }
            assert forall|i: int, j: int| 0 <= i < f.push(x).len() && 0 <= j < f.push(x).len() && i != j implies f.push(x)[i] != f.push(x)[j] by {
                if i == f.len() {
                    assert(f.contains(f.push(x)[j]) || j == f.len());
                } else if j == f.len() {
                    assert(f.contains(f.push(x)[i]));
                }
            }
        }
    }
}

/// `join` seen from the front.
pub proof fn lemma_join_front(e: Seq<Seq<char>>, sep: Seq<char>)
    requires
        e.len() >= 2,
    ensures
        join(e, sep) == e[0] + sep + join(e.drop_first(), sep),
    decreases e.len(),
{
    if e.len() == 2 {
        assert(e.drop_last() =~= seq![e[0]]);
        assert(e.drop_first() =~= seq![e[1]]);
        assert(join(e.drop_last(), sep) == e[0]);
        assert(join(e.drop_first(), sep) == e[1]);
        assert(e.last() == e[1]);
        assert(join(e, sep) =~= e[0] + sep + join(e.drop_first(), sep));
    } else {
        lemma_join_front(e.drop_last(), sep);
        assert(e.drop_last().drop_first() =~= e.drop_first().drop_last());
        assert(e.drop_last()[0] == e[0]);
        assert(e.drop_first().last() == e.last());
        assert(join(e.drop_first(), sep) == join(e.drop_first().drop_last(), sep) + sep + e.last());
        assert(join(e, sep) =~= e[0] + sep + join(e.drop_first(), sep));
    }
}

/// The lines of entries joined by newlines, with a final newline, are the
/// entries, when each is non-empty, trimmed and free of line breaks.
pub proof fn lemma_lines_of_rendered(e: Seq<Seq<char>>)
    requires
        e.len() > 0,
        forall|i: int| 0 <= i < e.len() ==> storable_entry(#[trigger] e[i]),
    ensures
        lines(join(e, seq!['\n']) + seq!['\n']) == e,
    decreases e.len(),
{
    let nl = seq!['\n'];
    assert(storable_entry(e[0]));
    if e.len() == 1 {
        crate::text::lemma_lines_cons(e[0], Seq::empty());
        assert(e[0] + nl + Seq::<char>::empty() =~= e[0] + nl);
        assert(seq![e[0]] =~= e);
    } else {
        lemma_join_front(e, nl);
        let rest = e.drop_first();
        assert forall|i: int| 0 <= i < rest.len() implies storable_entry(#[trigger] rest[i]) by {
            assert(rest[i] == e[i + 1]);
        }
        lemma_lines_of_rendered(rest);
        crate::text::lemma_lines_cons(e[0], join(rest, nl) + nl);
        assert(join(e, nl) + nl =~= e[0] + nl + (join(rest, nl) + nl));
        assert(seq![e[0]] + rest =~= e);
    }
}

/// Writing entries to `history.txt` and reading the file back gives the same
/// entries, when each entry is non-empty, has no surrounding whitespace and
/// no line break.
pub proof fn lemma_history_round_trip(e: Seq<Seq<char>>)
    requires
        forall|i: int| 0 <= i < e.len() ==> storable_entry(#[trigger] e[i]),
    ensures
        history_of(render_history_spec(e)) == e,
{
    if e.len() == 0 {
        assert(lines(Seq::<char>::empty()) =~= Seq::<Seq<char>>::empty());
        assert(history_of(Seq::empty()) =~= e) by {
            reveal(Seq::filter);
        }
    } else {
        lemma_lines_of_rendered(e);
        let t = e.map_values(|l: Seq<char>| trim(l));
        assert forall|i: int| 0 <= i < e.len() implies t[i] == e[i] by {
            assert(storable_entry(e[i]));
            crate::text::lemma_trim_trimmed(e[i]);
        }
        assert(t =~= e);
        lemma_filter_all(e, |l: Seq<char>| l.len() > 0);
    }
}


// ---------------------------------------------------------------------------
// Edits of the entry list
// ---------------------------------------------------------------------------

/// The index of the first occurrence of `x` in `s`, if any.
pub open spec fn position<A>(s: Seq<A>, x: A) -> Option<int>
    decreases s.len(),
{
    if s.len() == 0 {
        None
    } else if s[0] == x {
        Some(0)
    } else {
        match position(s.drop_first(), x) {
            Some(i) => Some(i + 1),
            None => None,
        }
    }
}

/// `position` is the first occurrence.
pub proof fn lemma_position<A>(s: Seq<A>, x: A)
    ensures
        position(s, x) matches Some(i) ==> 0 <= i < s.len() && s[i] == x && forall|j: int|
            0 <= j < i ==> s[j] != x,
        position(s, x) is None ==> !s.contains(x),
    decreases s.len(),
{
    if s.len() > 0 && s[0] != x {
        lemma_position(s.drop_first(), x);
        if let Some(i) = position(s.drop_first(), x) {
            assert forall|j: int| 0 <= j < i + 1 implies s[j] != x by {
                if j > 0 {
                    assert(s[j] == s.drop_first()[j - 1]);
                }
            }
        } else {
            assert forall|j: int| 0 <= j < s.len() implies s[j] != x by {
                if j > 0 {
                    assert(s[j] == s.drop_first()[j - 1]);
                }
            }
        }
    }
}

/// A first occurrence found by scanning is `position`.
pub proof fn lemma_position_is<A>(s: Seq<A>, x: A, i: int)
    requires
        0 <= i < s.len(),
        s[i] == x,
        forall|j: int| 0 <= j < i ==> s[j] != x,
    ensures
        position(s, x) == Some(i),
{
    lemma_position(s, x);
    if let Some(k) = position(s, x) {
        assert(k == i);
    } else {
        assert(s.contains(x));
    }
}

/// The first index `i` with `v[i]@ == s`, if any.
pub fn find_string(v: &[String], s: &str) -> (r: Option<usize>)
    ensures
        r matches Some(i) ==> position(sviews(v@), s@) == Some(i as int),
        r is None ==> position(sviews(v@), s@) is None,
{
    let mut j: usize = 0;
    while j < v.len()
        invariant
            j <= v.len(),
            forall|k: int| 0 <= k < j ==> sviews(v@)[k] != s@,
        decreases v.len() - j,
    {
        if crate::text::str_eq(v[j].as_str(), s) {
            proof {
                lemma_position_is(sviews(v@), s@, j as int);
            }
            return Some(j);
        }
        j += 1;
    }
    proof {
        lemma_position(sviews(v@), s@);
        if let Some(k) = position(sviews(v@), s@) {
            assert(sviews(v@)[k] == s@);
        }
    }
    None
}

/// `v[start..]` as a new vector.
pub fn tail_strings(v: &[String], start: usize) -> (r: Vec<String>)
    requires
        start <= v.len(),
    ensures
        sviews(r@) == sviews(v@).skip(start as int),
{
    let mut r: Vec<String> = Vec::new();
    let mut k = start;
    while k < v.len()
        invariant
            start <= k <= v.len(),
            sviews(r@) == sviews(v@).subrange(start as int, k as int),
        decreases v.len() - k,
    {
        let ghost old_r = sviews(r@);
        let c = v[k].clone();
        assert(c@ == sviews(v@)[k as int]);
        r.push(c);
        assert(sviews(r@) =~= old_r.push(c@));
        k += 1;
        assert(sviews(r@) =~= sviews(v@).subrange(start as int, k as int));
    }
    assert(sviews(v@).subrange(start as int, v.len() as int) =~= sviews(v@).skip(start as int));
    r
}

/// `s` without the first occurrence of `x`.
pub open spec fn without_first(s: Seq<Seq<char>>, x: Seq<char>) -> Seq<Seq<char>> {
    match position(s, x) {
        Some(i) => s.remove(i),
        None => s,
    }
}

/// The newest entries of `s` that a limit keeps.
pub open spec fn keep_newest(s: Seq<Seq<char>>, limit: HistoryLimit) -> Seq<Seq<char>> {
    match limit {
        HistoryLimit::Limited(m) => if s.len() > m {
            s.skip(s.len() - m)
        } else {
            s
        },
        _ => s,
    }
}

/// The history after `command` ran: the first earlier copy of the command is
/// removed, the command becomes the newest entry, and only the newest entries
/// that the limit allows stay; a disabled history holds nothing.
pub open spec fn appended(s: Seq<Seq<char>>, command: Seq<char>, limit: HistoryLimit) -> Seq<
    Seq<char>,
> {
    if limit == HistoryLimit::Disabled {
        Seq::empty()
    } else {
        keep_newest(without_first(s, command).push(command), limit)
    }
}

/// The history cut down to the limit at start-up; a disabled history holds nothing.
pub open spec fn pruned(s: Seq<Seq<char>>, limit: HistoryLimit) -> Seq<Seq<char>> {
    if limit == HistoryLimit::Disabled {
        Seq::empty()
    } else {
        keep_newest(s, limit)
    }
}

fn keep_newest_exec(v: Vec<String>, limit: HistoryLimit) -> (r: Vec<String>)
    ensures
        sviews(r@) == keep_newest(sviews(v@), limit),
{
    match limit {
        HistoryLimit::Limited(m) => {
            if v.len() > m {
                tail_strings(v.as_slice(), v.len() - m)
            } else {
                v
            }
        },
        _ => v,
    }
}

/// The history after `command` ran (the entries that `history.txt` then holds).
pub fn append_history(entries: Vec<String>, command: &str, history_limit: HistoryLimit) -> (r: Vec<
    String,
>)
    ensures
        sviews(r@) == appended(sviews(entries@), command@, history_limit),
{
    if history_limit == HistoryLimit::Disabled {
        return Vec::new();
    }
    let mut entries = entries;
    let ghost s = sviews(entries@);
    proof {
        lemma_position(s, command@);
    }
    match find_string(entries.as_slice(), command) {
        Some(i) => {
            entries.remove(i);
            assert(sviews(entries@) =~= s.remove(i as int));
        },
        None => {},
    }
    entries.push(String::from_str(command));
    assert(sviews(entries@) =~= without_first(s, command@).push(command@));
    keep_newest_exec(entries, history_limit)
}

/// The history cut down to the limit (what start-up keeps of `history.txt`).
pub fn prune_history(entries: Vec<String>, history_limit: HistoryLimit) -> (r: Vec<String>)
    ensures
        sviews(r@) == pruned(sviews(entries@), history_limit),
{
    if history_limit == HistoryLimit::Disabled {
        return Vec::new();
    }
    keep_newest_exec(entries, history_limit)
}

/// Why an edit of the history was refused.
#[derive(Clone, Copy, Debug, PartialEq, Eq, Structural)]
pub enum HistoryError {
    /// A 1-based index of 0.
    IndexZero,
    /// An index past the end of the history.
    IndexOutOfRange { index: usize, len: usize },
    /// A range with a bound of 0.
    RangeIndexZero,
    /// A range whose start lies after its end.
    RangeReversed,
    /// A range that reaches past the end of the history.
    RangeOutOfBounds { start: usize, end: usize, len: usize },
}

/// The message that reports a refused history edit.
pub open spec fn history_error_text(e: HistoryError) -> Seq<char> {
    let d = |n: usize| crate::number::decimal(n as nat);
    match e {
        HistoryError::IndexZero => "History index must be 1 or greater"@,
        HistoryError::IndexOutOfRange { index, len } => "History index out of range: "@ + d(index)
            + " (history length: "@ + d(len) + ")"@,
        HistoryError::RangeIndexZero => "History range indexes must be 1 or greater"@,
        HistoryError::RangeReversed => "History range must be start-end where start <= end"@,
        HistoryError::RangeOutOfBounds { start, end, len } => "History range out of bounds: "@
            + d(start) + "-"@ + d(end) + " (history length: "@ + d(len) + ")"@,
    }
}

impl HistoryError {
    /// The message that reports this error.
    pub fn message(&self) -> (r: String)
        ensures
            r@ == history_error_text(*self),
    {
        let mut out: Vec<char> = Vec::new();
        match *self {
            HistoryError::IndexZero => {
                crate::text::extend_str(&mut out, "History index must be 1 or greater");
            },
            HistoryError::IndexOutOfRange { index, len } => {
                crate::text::extend_str(&mut out, "History index out of range: ");
                crate::number::push_decimal(&mut out, index as u64);
                crate::text::extend_str(&mut out, " (history length: ");
                crate::number::push_decimal(&mut out, len as u64);
                crate::text::extend_str(&mut out, ")");
            },
            HistoryError::RangeIndexZero => {
                crate::text::extend_str(&mut out, "History range indexes must be 1 or greater");
            },
            HistoryError::RangeReversed => {
                crate::text::extend_str(
                    &mut out,
                    "History range must be start-end where start <= end",
                );
            },
            HistoryError::RangeOutOfBounds { start, end, len } => {
                crate::text::extend_str(&mut out, "History range out of bounds: ");
                crate::number::push_decimal(&mut out, start as u64);
                crate::text::extend_str(&mut out, "-");
                crate::number::push_decimal(&mut out, end as u64);
                crate::text::extend_str(&mut out, " (history length: ");
                crate::number::push_decimal(&mut out, len as u64);
                crate::text::extend_str(&mut out, ")");
            },
        }
        assert(out@ =~= history_error_text(*self));
        string_of(out.as_slice())
    }
}

/// Removes the entry with the given 1-based index.
pub fn delete_history_entry(entries: Vec<String>, one_based_index: usize) -> (r: Result<
    Vec<String>,
    HistoryError,
>)
    ensures
        one_based_index == 0 ==> r == Err::<Vec<String>, HistoryError>(HistoryError::IndexZero),
        one_based_index > entries.len() ==> r == Err::<Vec<String>, HistoryError>(
            HistoryError::IndexOutOfRange { index: one_based_index, len: entries.len() },
        ),
        1 <= one_based_index <= entries.len() ==> (r matches Ok(v) && sviews(v@) == sviews(
            entries@,
        ).remove(one_based_index - 1)),
{
    if one_based_index == 0 {
        return Err(HistoryError::IndexZero);
    }
    let zero_based = one_based_index - 1;
    if zero_based >= entries.len() {
        return Err(HistoryError::IndexOutOfRange { index: one_based_index, len: entries.len() });
    }
    let mut entries = entries;
    let ghost s = sviews(entries@);
    entries.remove(zero_based);
    assert(sviews(entries@) =~= s.remove(zero_based as int));
    Ok(entries)
}

/// The history after `:history clear`: no entries.
pub fn clear_history() -> (r: Vec<String>)
    ensures
        r@.len() == 0,
{
    Vec::new()
}

/// The entries `s[..k]` that remain when `s[start..=end]` is removed.
spec fn kept_prefix(s: Seq<Seq<char>>, start: int, end: int, k: int) -> Seq<Seq<char>> {
    if k <= start {
        s.take(k)
    } else if k <= end + 1 {
        s.take(start)
    } else {
        s.take(start) + s.subrange(end + 1, k)
    }
}

/// Removes the entries from the 1-based index `one_based_start` to
/// `one_based_end`, both included.
pub fn delete_history_range(entries: Vec<String>, one_based_start: usize, one_based_end: usize) -> (r:
    Result<Vec<String>, HistoryError>)
    ensures
        one_based_start == 0 || one_based_end == 0 ==> r == Err::<Vec<String>, HistoryError>(
            HistoryError::RangeIndexZero,
        ),
        one_based_start > 0 && one_based_end > 0 && one_based_start > one_based_end ==> r == Err::<
            Vec<String>,
            HistoryError,
        >(HistoryError::RangeReversed),
        0 < one_based_start <= one_based_end && one_based_end > entries.len() ==> r == Err::<
            Vec<String>,
            HistoryError,
        >(
            HistoryError::RangeOutOfBounds {
                start: one_based_start,
                end: one_based_end,
                len: entries.len(),
            },
        ),
        0 < one_based_start <= one_based_end <= entries.len() ==> (r matches Ok(v) && sviews(v@)
            == sviews(entries@).take(one_based_start - 1) + sviews(entries@).skip(
            one_based_end as int,
        )),
{
    if one_based_start == 0 || one_based_end == 0 {
        return Err(HistoryError::RangeIndexZero);
    }
    if one_based_start > one_based_end {
        return Err(HistoryError::RangeReversed);
    }
    let start = one_based_start - 1;
    let end = one_based_end - 1;
    if start >= entries.len() || end >= entries.len() {
        return Err(
            HistoryError::RangeOutOfBounds {
                start: one_based_start,
                end: one_based_end,
                len: entries.len(),
            },
        );
    }
    let mut r: Vec<String> = Vec::new();
    let mut k: usize = 0;
    while k < entries.len()
        invariant
            0 <= start <= end < entries.len(),
            k <= entries.len(),
            sviews(r@) == kept_prefix(sviews(entries@), start as int, end as int, k as int),
        decreases entries.len() - k,
    {
        let ghost s = sviews(entries@);
        let ghost old_r = sviews(r@);
        if k < start || k > end {
            let c = entries[k].clone();
            assert(c@ == s[k as int]);
            r.push(c);
            assert(sviews(r@) =~= old_r.push(c@));
        }
        k += 1;
        assert(sviews(r@) =~= kept_prefix(s, start as int, end as int, k as int));
    }
    assert(sviews(r@) =~= sviews(entries@).take(start as int) + sviews(entries@).skip(
        end + 1,
    ));
    Ok(r)
}

/// `s` with only the last copy of each entry kept, in their order.
pub open spec fn deduped(s: Seq<Seq<char>>) -> Seq<Seq<char>>
    decreases s.len(),
{
    if s.len() == 0 {
        s
    } else if s.drop_first().contains(s[0]) {
        deduped(s.drop_first())
    } else {
        seq![s[0]] + deduped(s.drop_first())
    }
}

/// Keeps only the newest copy of each entry, in their order (`:history dedupe`).
pub fn dedupe_history(entries: &[String]) -> (r: Vec<String>)
    ensures
        sviews(r@) == deduped(sviews(entries@)),
{
    let ghost s = sviews(entries@);
    let mut r: Vec<String> = Vec::new();
    let mut i: usize = 0;
    assert(s.skip(0) =~= s);
    assert(sviews(r@) + deduped(s) =~= deduped(s));
    while i < entries.len()
        invariant
            i <= entries.len(),
            s == sviews(entries@),
            deduped(s) == sviews(r@) + deduped(s.skip(i as int)),
        decreases entries.len() - i,
    {
        let rest = tail_strings(entries, i + 1);
        let later = find_string(rest.as_slice(), entries[i].as_str());
        let ghost t = s.skip(i as int);
        assert(t.drop_first() =~= s.skip(i + 1));
        proof {
            lemma_position(s.skip(i + 1), s[i as int]);
        }
        if later.is_none() {
            let ghost old_r = sviews(r@);
            r.push(entries[i].clone());
            assert(sviews(r@) + deduped(s.skip(i + 1)) =~= old_r + (seq![t[0]] + deduped(
                t.drop_first(),
            )));
        } else {
            assert(s.skip(i + 1).contains(s[i as int]));
        }
        i += 1;
    }
    assert(s.skip(i as int) =~= Seq::<Seq<char>>::empty());
    assert(sviews(r@) + Seq::<Seq<char>>::empty() =~= sviews(r@));
    r
}


// ---------------------------------------------------------------------------
// Laws of the history edits
// ---------------------------------------------------------------------------

/// The history after a dedupe holds each entry once, holds exactly the
/// entries it held before, and a history without copies is left unchanged.
pub proof fn lemma_dedupe_laws(s: Seq<Seq<char>>)
    ensures
        deduped(s).no_duplicates(),
        forall|x: Seq<char>| deduped(s).contains(x) <==> s.contains(x),
        s.no_duplicates() ==> deduped(s) == s,
    decreases s.len(),
{
    if s.len() > 0 {
        let t = s.drop_first();
        lemma_dedupe_laws(t);
        assert forall|x: Seq<char>| deduped(s).contains(x) <==> s.contains(x) by {
            if s.contains(x) && x != s[0] {
                let k = choose|k: int| 0 <= k < s.len() && s[k] == x;
                assert(t[k - 1] == x);
            }
            if t.contains(x) {
                let k = choose|k: int| 0 <= k < t.len() && t[k] == x;
                assert(s[k + 1] == x);
            }
            if !t.contains(s[0]) {
                let d = seq![s[0]] + deduped(t);
                if d.contains(x) && x != s[0] {
                    let k = choose|k: int| 0 <= k < d.len() && d[k] == x;
                    assert(deduped(t)[k - 1] == x);
                }
                if deduped(t).contains(x) {
                    let k = choose|k: int| 0 <= k < deduped(t).len() && deduped(t)[k] == x;
                    assert(d[k + 1] == x);
                }
                assert(d[0] == s[0]);
            }
        }
        if !t.contains(s[0]) {
            let d = seq![s[0]] + deduped(t);
            assert forall|i: int, j: int| 0 <= i < d.len() && 0 <= j < d.len() && i != j implies d[i]
                != d[j] by {
                if i > 0 && j > 0 {
                    assert(d[i] == deduped(t)[i - 1]);
                    assert(d[j] == deduped(t)[j - 1]);
                } else if i == 0 {
                    assert(deduped(t).contains(d[j]));
                } else {
                    assert(deduped(t).contains(d[i]));
                }
            }
        }
        if s.no_duplicates() {
            assert(t.no_duplicates()) by {
                assert forall|i: int, j: int| 0 <= i < t.len() && 0 <= j < t.len() && i != j implies t[i]
                    != t[j] by {
                    assert(t[i] == s[i + 1] && t[j] == s[j + 1]);
                }
            }
            assert(!t.contains(s[0])) by {
                if t.contains(s[0]) {
                    let k = choose|k: int| 0 <= k < t.len() && t[k] == s[0];
                    assert(s[k + 1] == s[0]);
                }
            }
            assert(seq![s[0]] + t =~= s);
        }
    }
}

proof fn lemma_remove_no_duplicates(s: Seq<Seq<char>>, i: int)
    requires
        s.no_duplicates(),
        0 <= i < s.len(),
    ensures
        s.remove(i).no_duplicates(),
        !s.remove(i).contains(s[i]),
{
    let r = s.remove(i);
    assert forall|a: int, b: int| 0 <= a < r.len() && 0 <= b < r.len() && a != b implies r[a]
        != r[b] by {
        let a2 = if a < i { a } else { a + 1 };
        let b2 = if b < i { b } else { b + 1 };
        assert(r[a] == s[a2] && r[b] == s[b2]);
    }
    if r.contains(s[i]) {
        let k = choose|k: int| 0 <= k < r.len() && r[k] == s[i];
        let k2 = if k < i { k } else { k + 1 };
        assert(r[k] == s[k2]);
    }
}

/// Running a command keeps a history without copies free of copies: the
/// command then appears once, as the newest entry, and the history never
/// grows past its limit.
pub proof fn lemma_append_laws(s: Seq<Seq<char>>, command: Seq<char>, limit: HistoryLimit)
    requires
        s.no_duplicates(),
    ensures
        appended(s, command, limit).no_duplicates(),
        limit != HistoryLimit::Disabled && limit != HistoryLimit::Limited(0) ==> appended(
            s,
            command,
            limit,
        ).len() > 0 && appended(s, command, limit).last() == command,
        limit matches HistoryLimit::Limited(m) ==> appended(s, command, limit).len() <= m,
        limit == HistoryLimit::Disabled ==> appended(s, command, limit).len() == 0,
{
    lemma_position(s, command);
    let w = without_first(s, command);
    if let Some(i) = position(s, command) {
        lemma_remove_no_duplicates(s, i);
    }
    let p = w.push(command);
    assert(p.no_duplicates()) by {
        assert forall|a: int, b: int| 0 <= a < p.len() && 0 <= b < p.len() && a != b implies p[a]
            != p[b] by {
            if a < w.len() && b < w.len() {
                assert(p[a] == w[a] && p[b] == w[b]);
            } else if a == w.len() {
                assert(w.contains(p[b]));
            } else {
                assert(w.contains(p[a]));
            }
        }
    }
    if let HistoryLimit::Limited(m) = limit {
        if p.len() > m {
            let k = p.skip(p.len() - m);
            assert forall|a: int, b: int| 0 <= a < k.len() && 0 <= b < k.len() && a != b implies k[a]
                != k[b] by {
                assert(k[a] == p[a + p.len() - m] && k[b] == p[b + p.len() - m]);
            }
            if m > 0 {
                assert(k.last() == p.last());
            }
        }
    }
}

} // verus!
