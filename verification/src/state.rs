//! Whole-state files: the export format (`# qc-export:v1` with `[section]`
//! blocks) and the backup format (`---FILE:<path>` ... `---END` blocks).

use vstd::prelude::*;
use crate::shortcuts::{add_value, value_lists, keys_of};
use crate::text::{chars_of, lines, string_of, sviews, trim, vviews, strip_prefix};

verus! {

/// The first line of an export file.
pub open spec fn export_header() -> Seq<char> {
    "# qc-export:v1"@
}

/// A file's text followed by a newline unless it is empty or already ends
/// with one.
pub open spec fn ended(c: Seq<char>) -> Seq<char> {
    if c.len() > 0 && c.last() != '\n' {
        c + seq!['\n']
    } else {
        c
    }
}

/// The block of one section of an export file.
pub open spec fn section_text(name: Seq<char>, content: Seq<char>) -> Seq<char> {
    seq!['['] + name + seq![']', '\n'] + ended(content)
}

/// The blocks of the sections, in order.
pub open spec fn sections_text(s: Seq<(Seq<char>, Seq<char>)>) -> Seq<char>
    decreases s.len(),
{
    if s.len() == 0 {
        Seq::empty()
    } else {
        sections_text(s.drop_last()) + section_text(s.last().0, s.last().1)
    }
}

/// The text of an export file: the header line, then one block per section.
pub open spec fn export_text(s: Seq<(Seq<char>, Seq<char>)>) -> Seq<char> {
    export_header() + seq!['\n'] + sections_text(s)
}

/// The values of a list of string pairs.
pub open spec fn pairs(v: Seq<(String, String)>) -> Seq<(Seq<char>, Seq<char>)> {
    v.map_values(|p: (String, String)| (p.0@, p.1@))
}

/// Appends `c`, then a newline unless `c` is empty or ends with one.
fn push_ended(out: &mut Vec<char>, c: &str)
    ensures
        final(out)@ == old(out)@ + ended(c@),
{
    let v = chars_of(c);
    crate::text::extend_chars(out, v.as_slice());
    if v.len() > 0 && v[v.len() - 1] != '\n' {
        out.push('\n');
    }
    assert(final(out)@ =~= old(out)@ + ended(c@));
}

/// The text of an export file holding the given `(section, file text)` pairs.
pub fn export_content(sections: &[(String, String)]) -> (r: String)
    ensures
        r@ == export_text(pairs(sections@)),
{
    let mut out = chars_of("# qc-export:v1");
    out.push('\n');
    let ghost base = out@;
    let mut i: usize = 0;
    while i < sections.len()
        invariant
            i <= sections.len(),
            out@ == base + sections_text(pairs(sections@).take(i as int)),
        decreases sections.len() - i,
    {
        let ghost before = out@;
        out.push('[');
        crate::text::extend_str(&mut out, sections[i].0.as_str());
        out.push(']');
        out.push('\n');
        push_ended(&mut out, sections[i].1.as_str());
        proof {
            let p = pairs(sections@);
            assert(p.take(i + 1).drop_last() =~= p.take(i as int));
            assert(p.take(i + 1).last() == p[i as int]);
            assert(out@ =~= before + section_text(p[i as int].0, p[i as int].1));
        }
        i += 1;
    }
    assert(pairs(sections@).take(sections.len() as int) =~= pairs(sections@));
    string_of(out.as_slice())
}

/// The sections of an export, in order, each with the file it holds.
pub open spec fn state_files_spec() -> Seq<(Seq<char>, Seq<char>)> {
    seq![
        ("config"@, "config.txt"@),
        ("shortcuts"@, "shortcuts.txt"@),
        ("history"@, "history.txt"@),
        ("pins"@, "history_pins.txt"@),
        ("usage"@, "history_usage.txt"@),
        ("placeholder_values"@, "placeholder_values.txt"@),
        ("audit"@, "audit.log"@),
    ]
}

/// The sections of an export and the files they hold.
pub fn state_files() -> (r: Vec<(String, String)>)
    ensures
        pairs(r@) == state_files_spec(),
{
    let mut out: Vec<(String, String)> = Vec::new();
    out.push((String::from_str("config"), String::from_str("config.txt")));
    out.push((String::from_str("shortcuts"), String::from_str("shortcuts.txt")));
    out.push((String::from_str("history"), String::from_str("history.txt")));
    out.push((String::from_str("pins"), String::from_str("history_pins.txt")));
    out.push((String::from_str("usage"), String::from_str("history_usage.txt")));
    out.push((String::from_str("placeholder_values"), String::from_str("placeholder_values.txt")));
    out.push((String::from_str("audit"), String::from_str("audit.log")));
    assert(pairs(out@) =~= state_files_spec());
    out
}

/// `s` without its leading and trailing `[` and `]` characters (`trim_matches`).
pub open spec fn strip_brackets_start(s: Seq<char>) -> Seq<char>
    decreases s.len(),
{
    if s.len() > 0 && (s[0] == '[' || s[0] == ']') {
        strip_brackets_start(s.drop_first())
    } else {
        s
    }
}

/// `s` without its trailing `[` and `]` characters.
pub open spec fn strip_brackets_end(s: Seq<char>) -> Seq<char>
    decreases s.len(),
{
    if s.len() > 0 && (s.last() == '[' || s.last() == ']') {
        strip_brackets_end(s.drop_last())
    } else {
        s
    }
}

/// A line that opens a section: it starts with `[` and ends with `]`.
pub open spec fn is_section_line(l: Seq<char>) -> bool {
    l.len() > 0 && l[0] == '[' && l.last() == ']'
}

/// The sections that the lines `ls[i..]` fill, with `cur` the open section:
/// a section line opens the section named by its text without brackets;
/// any other line goes to the open section, if it has a name. A section
/// that receives no line is absent.
pub open spec fn sections_from(
    ls: Seq<Seq<char>>,
    i: int,
    cur: Seq<char>,
    m: Seq<(Seq<char>, Seq<Seq<char>>)>,
) -> Seq<(Seq<char>, Seq<Seq<char>>)>
    decreases ls.len() - i,
{
    if i < 0 || i >= ls.len() {
        m
    } else if is_section_line(ls[i]) {
        sections_from(ls, i + 1, strip_brackets_end(strip_brackets_start(ls[i])), m)
    } else if cur.len() > 0 {
        sections_from(ls, i + 1, cur, add_value(m, cur, ls[i]))
    } else {
        sections_from(ls, i + 1, cur, m)
    }
}

/// Why an import file was refused.
#[derive(Clone, Debug)]
pub enum ImportError {
    /// The file holds no line.
    Empty,
    /// The first line is not the export header; it is given.
    UnsupportedHeader(String),
}

/// What an import file holds: its sections with their lines, or why it is
/// refused.
pub open spec fn import_of(content: Seq<char>) -> Result<Seq<(Seq<char>, Seq<Seq<char>>)>, Option<Seq<char>>> {
    let ls = lines(content);
    if ls.len() == 0 {
        Err(None)
    } else if trim(ls[0]) != export_header() {
        Err(Some(ls[0]))
    } else {
        Ok(sections_from(ls, 1, Seq::empty(), Seq::empty()))
    }
}

/// The name inside the brackets of a section line (`v[lo..hi]`).
fn strip_brackets(v: &[char]) -> (r: Vec<char>)
    ensures
        r@ == strip_brackets_end(strip_brackets_start(v@)),
{
    let mut a: usize = 0;
    assert(v@.skip(0) =~= v@);
    while a < v.len() && (v[a] == '[' || v[a] == ']')
        invariant
            a <= v.len(),
            strip_brackets_start(v@) == strip_brackets_start(v@.skip(a as int)),
        decreases v.len() - a,
    {
        assert(v@.skip(a as int).drop_first() =~= v@.skip(a + 1));
        a += 1;
    }
    let ghost t = v@.skip(a as int);
    assert(strip_brackets_start(t) == t);
    let mut b = v.len();
    assert(t.take(t.len() as int) =~= t);
    while b > a && (v[b - 1] == '[' || v[b - 1] == ']')
        invariant
            a <= b <= v.len(),
            t == v@.skip(a as int),
            strip_brackets_end(t) == strip_brackets_end(t.take(b - a)),
        decreases b - a,
    {
        assert(t.take(b - a).drop_last() =~= t.take(b - a - 1));
        b -= 1;
    }
    assert(t.take(b - a) =~= v@.subrange(a as int, b as int));
    crate::text::sub_chars(v, a, b)
}

/// Reads an import file: the sections with their lines.
pub fn parse_import(content: &str) -> (r: Result<Vec<(String, Vec<String>)>, ImportError>)
    ensures
        match import_of(content@) {
            Ok(m) => r matches Ok(x) && value_lists(x@) == m,
            Err(None) => r matches Err(ImportError::Empty),
            Err(Some(h)) => r matches Err(ImportError::UnsupportedHeader(x)) && x@ == h,
        },
{
    let v = chars_of(content);
    let ls = crate::text::split_lines(v.as_slice());
    let ghost all = lines(content@);
    if ls.len() == 0 {
        return Err(ImportError::Empty);
    }
    let header = crate::text::trim_chars(ls[0].as_slice());
    if !crate::text::chars_eq(header.as_slice(), chars_of("# qc-export:v1").as_slice()) {
        return Err(ImportError::UnsupportedHeader(string_of(ls[0].as_slice())));
    }
    let mut m: Vec<(String, Vec<String>)> = Vec::new();
    assert(value_lists(m@) =~= Seq::<(Seq<char>, Seq<Seq<char>>)>::empty());
    let mut cur: Vec<char> = Vec::new();
    let mut i: usize = 1;
    while i < ls.len()
        invariant
            1 <= i <= ls.len(),
            vviews(ls@) == all,
            all == lines(content@),
            sections_from(all, 1, Seq::empty(), Seq::empty()) == sections_from(
                all,
                i as int,
                cur@,
                value_lists(m@),
            ),
        decreases ls.len() - i,
    {
        let line = &ls[i];
        if line.len() > 0 && line[0] == '[' && line[line.len() - 1] == ']' {
            cur = strip_brackets(line.as_slice());
        } else if cur.len() > 0 {
            let key = string_of(cur.as_slice());
            let value = string_of(line.as_slice());
            let ghost old_m = value_lists(m@);
            let ghost kv = key@;
            let ghost vv = value@;
            proof {
                crate::history::lemma_position(keys_of(old_m), kv);
            }
            match crate::shortcuts::find_key(m.as_slice(), key.as_str()) {
                Some(j) => {
                    let mut entry = (String::new(), Vec::new());
                    std::mem::swap(&mut entry, &mut m[j]);
                    let ghost ev = sviews(entry.1@);
                    assert(ev == old_m[j as int].1);
                    assert(entry.0@ == kv);
                    entry.1.push(value);
                    assert(sviews(entry.1@) =~= ev.push(vv));
                    m.set(j, entry);
                    assert(value_lists(m@) =~= add_value(old_m, kv, vv));
                },
                None => {
                    let mut vals: Vec<String> = Vec::new();
                    vals.push(value);
                    assert(sviews(vals@) =~= seq![vv]);
                    m.push((key, vals));
                    assert(value_lists(m@) =~= add_value(old_m, kv, vv));
                },
            }
        }
        i += 1;
    }
    Ok(m)
}

/// The text written back for an imported section: its lines joined by
/// newlines with a final newline; no lines give an empty file.
pub fn section_file_text(section_lines: &[String]) -> (r: String)
    ensures
        r@ == crate::history::render_history_spec(sviews(section_lines@)),
{
    crate::history::render_history(section_lines)
}


// ---------------------------------------------------------------------------
// Backups
// ---------------------------------------------------------------------------

/// A file's text followed by a newline unless it already ends with one (an
/// empty text gets one too).
pub open spec fn newline_ended(c: Seq<char>) -> Seq<char> {
    if c.len() > 0 && c.last() == '\n' {
        c
    } else {
        c + seq!['\n']
    }
}

/// The block of one file in a backup.
pub open spec fn backup_block(path: Seq<char>, content: Seq<char>) -> Seq<char> {
    "---FILE:"@ + path + seq!['\n'] + newline_ended(content) + "---END"@ + seq!['\n']
}

/// The text of a backup of the given `(path, file text)` pairs, in order.
pub open spec fn backup_text(files: Seq<(Seq<char>, Seq<char>)>) -> Seq<char>
    decreases files.len(),
{
    if files.len() == 0 {
        Seq::empty()
    } else {
        backup_text(files.drop_last()) + backup_block(files.last().0, files.last().1)
    }
}

/// The text of a backup of the given files.
pub fn backup_content(files: &[(String, String)]) -> (r: String)
    ensures
        r@ == backup_text(pairs(files@)),
{
    let mut out: Vec<char> = Vec::new();
    let mut i: usize = 0;
    while i < files.len()
        invariant
            i <= files.len(),
            out@ == backup_text(pairs(files@).take(i as int)),
        decreases files.len() - i,
    {
        let ghost before = out@;
        crate::text::extend_str(&mut out, "---FILE:");
        crate::text::extend_str(&mut out, files[i].0.as_str());
        out.push('\n');
        let c = chars_of(files[i].1.as_str());
        crate::text::extend_chars(&mut out, c.as_slice());
        if !(c.len() > 0 && c[c.len() - 1] == '\n') {
            out.push('\n');
        }
        crate::text::extend_str(&mut out, "---END");
        out.push('\n');
        proof {
            let p = pairs(files@);
            assert(p.take(i + 1).drop_last() =~= p.take(i as int));
            assert(p.take(i + 1).last() == p[i as int]);
            assert(out@ =~= before + backup_block(p[i as int].0, p[i as int].1));
        }
        i += 1;
    }
    assert(pairs(files@).take(files.len() as int) =~= pairs(files@));
    string_of(out.as_slice())
}

/// The files that restoring the lines `ls[i..]` writes, in order, after
/// `out`: `---FILE:<path>` opens a file, `---END` writes the open file with
/// the lines collected since it was opened (each followed by a newline), and
/// other lines are collected while a file is open.
pub open spec fn restore_from(
    ls: Seq<Seq<char>>,
    i: int,
    cur: Option<Seq<char>>,
    acc: Seq<Seq<char>>,
    out: Seq<(Seq<char>, Seq<char>)>,
) -> Seq<(Seq<char>, Seq<char>)>
    decreases ls.len() - i,
{
    if i < 0 || i >= ls.len() {
        out
    } else if let Some(p) = strip_prefix(ls[i], "---FILE:"@) {
        restore_from(ls, i + 1, Some(p), Seq::empty(), out)
    } else if ls[i] == "---END"@ {
        match cur {
            Some(p) => restore_from(
                ls,
                i + 1,
                None,
                Seq::empty(),
                out.push((p, crate::history::render_history_spec(acc))),
            ),
            None => restore_from(ls, i + 1, None, Seq::empty(), out),
        }
    } else if cur is Some {
        restore_from(ls, i + 1, cur, acc.push(ls[i]), out)
    } else {
        restore_from(ls, i + 1, cur, acc, out)
    }
}

/// The files that restoring a backup writes, with their new text, in order.
pub open spec fn restore_of(content: Seq<char>) -> Seq<(Seq<char>, Seq<char>)> {
    restore_from(lines(content), 0, None, Seq::empty(), Seq::empty())
}

/// Reads a backup: the `(path, text)` writes that restoring it makes, in order.
pub fn parse_backup(content: &str) -> (r: Vec<(String, String)>)
    ensures
        pairs(r@) == restore_of(content@),
{
    let v = chars_of(content);
    let ls = crate::text::split_lines(v.as_slice());
    let ghost all = lines(content@);
    let mut out: Vec<(String, String)> = Vec::new();
    let mut cur: Option<String> = None;
    let mut acc: Vec<String> = Vec::new();
    assert(pairs(out@) =~= Seq::<(Seq<char>, Seq<char>)>::empty());
    assert(sviews(acc@) =~= Seq::<Seq<char>>::empty());
    let mut i: usize = 0;
    while i < ls.len()
        invariant
            i <= ls.len(),
            vviews(ls@) == all,
            all == lines(content@),
            restore_of(content@) == restore_from(
                all,
                i as int,
                match cur {
                    Some(c) => Some(c@),
                    None => None,
                },
                sviews(acc@),
                pairs(out@),
            ),
        decreases ls.len() - i,
    {
        let line = ls[i].as_slice();
        let marker = chars_of("---FILE:");
        assert(line@.skip(0) =~= line@);
        if crate::text::starts_with_at(line, 0, marker.as_slice()) {
            let rest = crate::text::sub_chars(line, marker.len(), line.len());
            assert(rest@ =~= line@.skip(marker.len() as int));
            cur = Some(string_of(rest.as_slice()));
            acc = Vec::new();
            assert(sviews(acc@) =~= Seq::<Seq<char>>::empty());
        } else if crate::text::chars_eq(line, chars_of("---END").as_slice()) {
            match cur {
                Some(p) => {
                    let text = crate::history::render_history(acc.as_slice());
                    let ghost before = pairs(out@);
                    let ghost pv = (p@, text@);
                    out.push((p, text));
                    assert(pairs(out@) =~= before.push(pv));
                },
                None => {},
            }
            cur = None;
            acc = Vec::new();
            assert(sviews(acc@) =~= Seq::<Seq<char>>::empty());
        } else if cur.is_some() {
            let ghost before = sviews(acc@);
            acc.push(string_of(line));
            assert(sviews(acc@) =~= before.push(line@));
        }
        i += 1;
    }
    out
}


/// A carriage return stands at `i` directly before a line break.
pub open spec fn crlf_at(t: Seq<char>, i: int) -> bool {
    t[i] == '\r' && t[i + 1] == '\n'
}

/// No carriage return stands directly before a line break in `t`.
pub open spec fn no_crlf(t: Seq<char>) -> bool {
    forall|i: int| 0 <= i < t.len() - 1 ==> !#[trigger] crlf_at(t, i)
}

/// A line that restoring a backup treats as text: it neither opens a file
/// (`---FILE:`) nor closes one (`---END`).
pub open spec fn marker_free(l: Seq<char>) -> bool {
    strip_prefix(l, "---FILE:"@) is None && l != "---END"@
}

/// A file that a backup gives back as it was written to the backup: a path
/// without line breaks that does not end with `\r`, and a text that, once
/// it ends with a newline, has no `\r` before a line break and no line
/// that is a backup marker.
pub open spec fn restorable_file(path: Seq<char>, content: Seq<char>) -> bool {
    &&& crate::shortcuts::avoids(path, '\n')
    &&& (path.len() > 0 ==> path.last() != '\r')
    &&& no_crlf(newline_ended(content))
    &&& forall|j: int|
        0 <= j < lines(newline_ended(content)).len() ==> marker_free(
            #[trigger] lines(newline_ended(content))[j],
        )
}

/// What restoring the backup of `files` writes: each path with its text,
/// followed by a newline unless it already ends with one.
pub open spec fn restored(files: Seq<(Seq<char>, Seq<char>)>) -> Seq<(Seq<char>, Seq<char>)> {
    files.map_values(|f: (Seq<char>, Seq<char>)| (f.0, newline_ended(f.1)))
}

/// The lines of a text that ends with a newline and has no `\r` before a
/// line break, written back one per line, give the text.
pub proof fn lemma_render_lines_of(t: Seq<char>)
    requires
        t.len() > 0,
        t.last() == '\n',
        no_crlf(t),
    ensures
        lines(t).len() > 0,
        crate::history::render_history_spec(lines(t)) == t,
    decreases t.len(),
{
    crate::text::lemma_index_of(t, '\n');
    let i = crate::text::index_of(t, '\n').unwrap();
    let a = t.take(i);
    let r = t.skip(i + 1);
    assert(t =~= a + seq!['\n'] + r);
    crate::text::lemma_lines_split(a, r);
    if a.len() > 0 {
        assert(a.last() == t[i - 1]);
        assert(!crlf_at(t, i - 1));
    }
    assert(crate::text::strip_cr(a) == a);
    if r.len() == 0 {
        assert(lines(r) =~= Seq::<Seq<char>>::empty());
        assert(lines(t) =~= seq![a]);
        assert(crate::history::render_history_spec(lines(t)) =~= t);
    } else {
        assert(r.last() == t.last());
        assert forall|j: int| 0 <= j < r.len() - 1 implies !#[trigger] crlf_at(r, j) by {
            assert(r[j] == t[j + i + 1]);
            assert(r[j + 1] == t[j + i + 2]);
            assert(!crlf_at(t, j + i + 1));
        }
        lemma_render_lines_of(r);
        let l = lines(t);
        assert(l =~= seq![a] + lines(r));
        crate::history::lemma_join_front(l, seq!['\n']);
        assert(l.drop_first() =~= lines(r));
        assert(crate::history::render_history_spec(l) =~= t);
    }
}

/// The lines of one block of a backup.
proof fn lemma_block_lines(path: Seq<char>, content: Seq<char>)
    requires
        restorable_file(path, content),
    ensures
        lines(backup_block(path, content)) == seq!["---FILE:"@ + path] + lines(
            newline_ended(content),
        ) + seq!["---END"@],
{
    reveal_strlit("---FILE:");
    reveal_strlit("---END");
    let f = "---FILE:"@ + path;
    let ne = newline_ended(content);
    let e = "---END"@;
    assert forall|i: int| 0 <= i < f.len() implies f[i] != '\n' by {
        if i >= 8 {
            assert(f[i] == path[i - 8]);
        }
    }
    assert(f.last() != '\r');
    assert(crate::text::strip_cr(f) == f);
    assert(backup_block(path, content) =~= f + seq!['\n'] + (ne + (e + seq!['\n'])));
    crate::text::lemma_lines_split(f, ne + (e + seq!['\n']));
    crate::text::lemma_lines_append(ne, e + seq!['\n']);
    assert(e + seq!['\n'] =~= e + seq!['\n'] + Seq::<char>::empty());
    crate::text::lemma_lines_split(e, Seq::empty());
    assert(lines(Seq::<char>::empty()) =~= Seq::<Seq<char>>::empty());
    assert(crate::text::strip_cr(e) == e);
    assert(lines(e + seq!['\n']) =~= seq![e]);
    assert(seq![f] + (lines(ne) + seq![e]) =~= seq![f] + lines(ne) + seq![e]);
}

/// Restoring from a position inside a suffix does not depend on the lines before.
proof fn lemma_restore_shift(
    pre: Seq<Seq<char>>,
    r: Seq<Seq<char>>,
    j: int,
    cur: Option<Seq<char>>,
    acc: Seq<Seq<char>>,
    out: Seq<(Seq<char>, Seq<char>)>,
)
    requires
        0 <= j <= r.len(),
    ensures
        restore_from(pre + r, pre.len() + j, cur, acc, out) == restore_from(r, j, cur, acc, out),
    decreases r.len() - j,
{
    if j < r.len() {
        assert((pre + r)[pre.len() + j] == r[j]);
        let l = r[j];
        if let Some(p) = strip_prefix(l, "---FILE:"@) {
            lemma_restore_shift(pre, r, j + 1, Some(p), Seq::empty(), out);
        } else if l == "---END"@ {
            match cur {
                Some(p) => lemma_restore_shift(
                    pre,
                    r,
                    j + 1,
                    None,
                    Seq::empty(),
                    out.push((p, crate::history::render_history_spec(acc))),
                ),
                None => lemma_restore_shift(pre, r, j + 1, None, Seq::empty(), out),
            }
        } else if cur is Some {
            lemma_restore_shift(pre, r, j + 1, cur, acc.push(l), out);
        } else {
            lemma_restore_shift(pre, r, j + 1, cur, acc, out);
        }
    }
}

/// The text lines of an open file are collected up to its `---END`.
proof fn lemma_restore_collect(
    ls: Seq<Seq<char>>,
    c: Seq<Seq<char>>,
    k: int,
    p: Seq<char>,
    out: Seq<(Seq<char>, Seq<char>)>,
)
    requires
        1 <= k <= c.len() + 1,
        c.len() + 1 < ls.len(),
        forall|j: int| 0 <= j < c.len() ==> ls[j + 1] == c[j],
        forall|j: int| 0 <= j < c.len() ==> marker_free(#[trigger] c[j]),
    ensures
        restore_from(ls, k, Some(p), c.take(k - 1), out) == restore_from(
            ls,
            c.len() as int + 1,
            Some(p),
            c,
            out,
        ),
    decreases c.len() + 1 - k,
{
    if k <= c.len() {
        assert(ls[k] == c[k - 1]);
        assert(marker_free(c[k - 1]));
        assert(c.take(k - 1).push(c[k - 1]) =~= c.take(k));
        lemma_restore_collect(ls, c, k + 1, p, out);
    } else {
        assert(c.take(k - 1) =~= c);
    }
}

/// Restoring one block writes its file and goes on after it.
proof fn lemma_restore_block(
    path: Seq<char>,
    c: Seq<Seq<char>>,
    r: Seq<Seq<char>>,
    out: Seq<(Seq<char>, Seq<char>)>,
)
    requires
        forall|j: int| 0 <= j < c.len() ==> marker_free(#[trigger] c[j]),
    ensures
        restore_from(seq!["---FILE:"@ + path] + c + seq!["---END"@] + r, 0, None, Seq::empty(), out)
            == restore_from(
            r,
            0,
            None,
            Seq::empty(),
            out.push((path, crate::history::render_history_spec(c))),
        ),
{
    reveal_strlit("---FILE:");
    reveal_strlit("---END");
    let f = "---FILE:"@ + path;
    let e = "---END"@;
    let b = seq![f] + c + seq![e];
    let ls = b + r;
    assert(ls[0] == f);
    assert("---FILE:"@.is_prefix_of(f));
    assert(f.skip(8) =~= path);
    assert(strip_prefix(f, "---FILE:"@) == Some(path));
    assert(c.take(0) =~= Seq::<Seq<char>>::empty());
    assert forall|j: int| 0 <= j < c.len() implies ls[j + 1] == c[j] by {}
    lemma_restore_collect(ls, c, 1, path, out);
    assert(ls[c.len() as int + 1] == e);
    assert(!"---FILE:"@.is_prefix_of(e));
    let out2 = out.push((path, crate::history::render_history_spec(c)));
    assert(b.len() == c.len() + 2);
    lemma_restore_shift(b, r, 0, None, Seq::empty(), out2);
}

/// Restoring the lines of a backup of `files`, followed by more lines,
/// writes the files and goes on with the rest.
proof fn lemma_restore_files(
    files: Seq<(Seq<char>, Seq<char>)>,
    r: Seq<Seq<char>>,
    out: Seq<(Seq<char>, Seq<char>)>,
)
    requires
        forall|k: int| 0 <= k < files.len() ==> restorable_file(#[trigger] files[k].0, files[k].1),
    ensures
        backup_text(files).len() == 0 || backup_text(files).last() == '\n',
        restore_from(lines(backup_text(files)) + r, 0, None, Seq::empty(), out) == restore_from(
            r,
            0,
            None,
            Seq::empty(),
            out + restored(files),
        ),
    decreases files.len(),
{
    if files.len() == 0 {
        assert(lines(Seq::<char>::empty()) =~= Seq::<Seq<char>>::empty());
        assert(Seq::<Seq<char>>::empty() + r =~= r);
        assert(out + restored(files) =~= out);
    } else {
        let d = files.drop_last();
        let l = files.last();
        assert(restorable_file(files[files.len() - 1].0, files[files.len() - 1].1));
        assert forall|k: int| 0 <= k < d.len() implies restorable_file(#[trigger] d[k].0, d[k].1) by {
            assert(d[k] == files[k]);
        }
        let ne = newline_ended(l.1);
        let c = lines(ne);
        lemma_block_lines(l.0, l.1);
        let blk = backup_block(l.0, l.1);
        let bl = seq!["---FILE:"@ + l.0] + c + seq!["---END"@];
        lemma_restore_files(d, bl + r, out);
        crate::text::lemma_lines_append(backup_text(d), blk);
        assert(lines(backup_text(files)) + r =~= lines(backup_text(d)) + (bl + r));
        assert forall|j: int| 0 <= j < c.len() implies marker_free(#[trigger] c[j]) by {}
        lemma_restore_block(l.0, c, r, out + restored(d));
        assert(ne.len() > 0 && ne.last() == '\n');
        lemma_render_lines_of(ne);
        assert((out + restored(d)).push((l.0, ne)) =~= out + restored(files));
    }
}

/// Restoring a backup writes back every file that it holds, in order, with
/// the text it had, followed by a newline unless it already ended with one;
/// for files whose path has no line break and does not end with `\r`, and
/// whose text holds no `\r` before a line break and no backup marker line.
pub proof fn lemma_backup_round_trip(files: Seq<(Seq<char>, Seq<char>)>)
    requires
        forall|k: int| 0 <= k < files.len() ==> restorable_file(#[trigger] files[k].0, files[k].1),
    ensures
        restore_of(backup_text(files)) == restored(files),
{
    lemma_restore_files(files, Seq::empty(), Seq::empty());
    assert(lines(backup_text(files)) + Seq::<Seq<char>>::empty() =~= lines(backup_text(files)));
    assert(Seq::<(Seq<char>, Seq<char>)>::empty() + restored(files) =~= restored(files));
}


/// A section that an import gives back as it was exported: a name without
/// line breaks and, when the section has text, a non-empty name that neither
/// starts nor ends with `[` or `]`; a text that, once it ends with a newline,
/// has no `\r` before a line break and no line that opens a section.
pub open spec fn importable_section(name: Seq<char>, content: Seq<char>) -> bool {
    &&& crate::shortcuts::avoids(name, '\n')
    &&& content.len() > 0 ==> {
        &&& name.len() > 0
        &&& name[0] != '[' && name[0] != ']'
        &&& name.last() != '[' && name.last() != ']'
    }
    &&& no_crlf(ended(content))
    &&& forall|j: int|
        0 <= j < lines(ended(content)).len() ==> !is_section_line(
            #[trigger] lines(ended(content))[j],
        )
}

/// The sections that hold some text.
pub open spec fn nonempty_sections(s: Seq<(Seq<char>, Seq<char>)>) -> Seq<(Seq<char>, Seq<char>)> {
    s.filter(|x: (Seq<char>, Seq<char>)| x.1.len() > 0)
}

/// What importing the export of `s` reads: each section that holds text,
/// with the lines of its text.
pub open spec fn imported(s: Seq<(Seq<char>, Seq<char>)>) -> Seq<(Seq<char>, Seq<Seq<char>>)> {
    nonempty_sections(s).map_values(
        |x: (Seq<char>, Seq<char>)| (x.0, lines(ended(x.1))),
    )
}

/// The lines of one section block.
proof fn lemma_section_lines(name: Seq<char>, content: Seq<char>)
    requires
        crate::shortcuts::avoids(name, '\n'),
    ensures
        lines(section_text(name, content)) == seq![seq!['['] + name + seq![']']] + lines(
            ended(content),
        ),
{
    let f = seq!['['] + name + seq![']'];
    assert forall|i: int| 0 <= i < f.len() implies f[i] != '\n' by {
        if 0 < i < f.len() - 1 {
            assert(f[i] == name[i - 1]);
        }
    }
    assert(crate::text::strip_cr(f) == f);
    assert(section_text(name, content) =~= f + seq!['\n'] + ended(content));
    crate::text::lemma_lines_split(f, ended(content));
}

/// Reading sections from a position inside a suffix does not depend on the
/// lines before.
proof fn lemma_sections_shift(
    pre: Seq<Seq<char>>,
    r: Seq<Seq<char>>,
    j: int,
    cur: Seq<char>,
    m: Seq<(Seq<char>, Seq<Seq<char>>)>,
)
    requires
        0 <= j <= r.len(),
    ensures
        sections_from(pre + r, pre.len() + j, cur, m) == sections_from(r, j, cur, m),
    decreases r.len() - j,
{
    if j < r.len() {
        assert((pre + r)[pre.len() + j] == r[j]);
        let l = r[j];
        if is_section_line(l) {
            lemma_sections_shift(pre, r, j + 1, strip_brackets_end(strip_brackets_start(l)), m);
        } else if cur.len() > 0 {
            lemma_sections_shift(pre, r, j + 1, cur, add_value(m, cur, l));
        } else {
            lemma_sections_shift(pre, r, j + 1, cur, m);
        }
    }
}

/// Lines that start with a section line, or no lines, are read the same
/// whatever section was open.
proof fn lemma_sections_cur(r: Seq<Seq<char>>, c1: Seq<char>, c2: Seq<char>, m: Seq<(Seq<char>, Seq<Seq<char>>)>)
    requires
        r.len() == 0 || is_section_line(r[0]),
    ensures
        sections_from(r, 0, c1, m) == sections_from(r, 0, c2, m),
{
}

/// The text lines of a section are gathered under its name.
proof fn lemma_sections_collect(
    ls: Seq<Seq<char>>,
    c: Seq<Seq<char>>,
    k: int,
    name: Seq<char>,
    m: Seq<(Seq<char>, Seq<Seq<char>>)>,
)
    requires
        1 <= k <= c.len(),
        c.len() + 1 <= ls.len(),
        name.len() > 0,
        !keys_of(m).contains(name),
        forall|j: int| 0 <= j < c.len() ==> ls[j + 1] == c[j],
        forall|j: int| 0 <= j < c.len() ==> !is_section_line(#[trigger] c[j]),
    ensures
        sections_from(ls, k + 1, name, m.push((name, c.take(k)))) == sections_from(
            ls,
            c.len() as int + 1,
            name,
            m.push((name, c)),
        ),
    decreases c.len() - k,
{
    if k < c.len() {
        let mk = m.push((name, c.take(k)));
        assert(ls[k + 1] == c[k]);
        assert(!is_section_line(c[k]));
        let ks = keys_of(mk);
        assert(ks[m.len() as int] == name);
        assert forall|j: int| 0 <= j < m.len() implies ks[j] != name by {
            assert(ks[j] == keys_of(m)[j]);
        }
        crate::history::lemma_position_is(ks, name, m.len() as int);
        assert(c.take(k).push(c[k]) =~= c.take(k + 1));
        assert(add_value(mk, name, c[k]) =~= m.push((name, c.take(k + 1))));
        lemma_sections_collect(ls, c, k + 1, name, m);
    } else {
        assert(c.take(k) =~= c);
    }
}

/// Reading one section block adds its lines under its name, if it has any.
proof fn lemma_sections_block(
    name: Seq<char>,
    content: Seq<char>,
    r: Seq<Seq<char>>,
    cur: Seq<char>,
    m: Seq<(Seq<char>, Seq<Seq<char>>)>,
)
    requires
        importable_section(name, content),
        r.len() == 0 || is_section_line(r[0]),
        content.len() > 0 ==> !keys_of(m).contains(name),
    ensures
        sections_from(seq![seq!['['] + name + seq![']']] + lines(ended(content)) + r, 0, cur, m)
            == sections_from(
            r,
            0,
            cur,
            if content.len() > 0 {
                m.push((name, lines(ended(content))))
            } else {
                m
            },
        ),
{
    let f = seq!['['] + name + seq![']'];
    let c = lines(ended(content));
    let b = seq![f] + c;
    let ls = b + r;
    assert(ls[0] == f);
    assert(is_section_line(f));
    let n2 = strip_brackets_end(strip_brackets_start(f));
    if content.len() == 0 {
        assert(ended(content) == content);
        assert(c =~= Seq::<Seq<char>>::empty());
        assert(b.len() == 1);
        assert(sections_from(ls, 0, cur, m) == sections_from(ls, 1, n2, m));
        lemma_sections_shift(b, r, 0, n2, m);
        lemma_sections_cur(r, n2, cur, m);
    } else {
        assert(f.drop_first() =~= name + seq![']']);
        assert((name + seq![']']).drop_last() =~= name);
        assert((name + seq![']'])[0] == name[0]);
        assert(strip_brackets_start(name + seq![']']) == name + seq![']']);
        assert(strip_brackets_end(name) == name);
        assert(n2 == name);
        lemma_render_lines_of(ended(content));
        assert(c.len() > 0);
        assert forall|j: int| 0 <= j < c.len() implies ls[j + 1] == c[j] by {}
        assert(ls[1] == c[0]);
        assert(!is_section_line(c[0]));
        crate::history::lemma_position(keys_of(m), name);
        assert(crate::history::position(keys_of(m), name) is None) by {
            if let Some(i) = crate::history::position(keys_of(m), name) {
                assert(keys_of(m)[i] == name);
                assert(keys_of(m).contains(name));
            }
        }
        assert(seq![c[0]] =~= c.take(1));
        assert(add_value(m, name, c[0]) =~= m.push((name, c.take(1))));
        assert(sections_from(ls, 0, cur, m) == sections_from(ls, 1, name, m));
        assert(sections_from(ls, 1, name, m) == sections_from(ls, 2, name, m.push((name, c.take(1)))));
        lemma_sections_collect(ls, c, 1, name, m);
        let m2 = m.push((name, c));
        assert(b.len() == c.len() + 1);
        lemma_sections_shift(b, r, 0, name, m2);
        lemma_sections_cur(r, name, cur, m2);
    }
}

/// Reading the lines of the blocks of `s`, followed by more sections,
/// adds the sections of `s` that hold text.
proof fn lemma_sections_all(
    s: Seq<(Seq<char>, Seq<char>)>,
    r: Seq<Seq<char>>,
    cur: Seq<char>,
    m: Seq<(Seq<char>, Seq<Seq<char>>)>,
)
    requires
        forall|k: int| 0 <= k < s.len() ==> importable_section(#[trigger] s[k].0, s[k].1),
        keys_of(m + imported(s)).no_duplicates(),
        r.len() == 0 || is_section_line(r[0]),
    ensures
        sections_text(s).len() == 0 || sections_text(s).last() == '\n',
        lines(sections_text(s)).len() == 0 || is_section_line(lines(sections_text(s))[0]),
        sections_from(lines(sections_text(s)) + r, 0, cur, m) == sections_from(
            r,
            0,
            cur,
            m + imported(s),
        ),
    decreases s.len(),
{
    let p = |x: (Seq<char>, Seq<char>)| x.1.len() > 0;
    let g = |x: (Seq<char>, Seq<char>)| (x.0, lines(ended(x.1)));
    if s.len() == 0 {
        assert(lines(Seq::<char>::empty()) =~= Seq::<Seq<char>>::empty());
        assert(Seq::<Seq<char>>::empty() + r =~= r);
        assert(imported(s) =~= Seq::<(Seq<char>, Seq<Seq<char>>)>::empty()) by {
            reveal(Seq::filter);
        }
        assert(m + imported(s) =~= m);
    } else {
        let d = s.drop_last();
        let l = s.last();
        assert(s =~= d.push(l));
        assert(importable_section(s[s.len() - 1].0, s[s.len() - 1].1));
        assert forall|k: int| 0 <= k < d.len() implies importable_section(#[trigger] d[k].0, d[k].1) by {
            assert(d[k] == s[k]);
        }
        d.lemma_filter_push(l, p);
        let extra: Seq<(Seq<char>, Seq<Seq<char>>)> = if l.1.len() > 0 {
            seq![(l.0, lines(ended(l.1)))]
        } else {
            Seq::empty()
        };
        assert(imported(s) =~= imported(d) + extra);
        assert(m + imported(s) =~= (m + imported(d)) + extra);
        // the keys of the shorter list have no duplicates either
        let ka = keys_of(m + imported(d));
        let kb = keys_of(m + imported(s));
        assert forall|i: int, j: int| 0 <= i < ka.len() && 0 <= j < ka.len() && i != j implies ka[i] != ka[j] by {
            assert((m + imported(d))[i] == (m + imported(s))[i]);
            assert((m + imported(d))[j] == (m + imported(s))[j]);
            assert(ka[i] == kb[i]);
            assert(ka[j] == kb[j]);
        }
        assert(ka.no_duplicates());
        let f = seq!['['] + l.0 + seq![']'];
        let c = lines(ended(l.1));
        let bl = seq![f] + c;
        lemma_section_lines(l.0, l.1);
        lemma_sections_all(d, bl + r, cur, m);
        crate::text::lemma_lines_append(sections_text(d), section_text(l.0, l.1));
        assert(lines(sections_text(s)) + r =~= lines(sections_text(d)) + (bl + r));
        if l.1.len() > 0 {
            assert((m + imported(s))[ka.len() as int] == (l.0, lines(ended(l.1))));
            assert(kb[ka.len() as int] == l.0);
            assert forall|i: int| 0 <= i < ka.len() implies ka[i] != l.0 by {
                assert((m + imported(d))[i] == (m + imported(s))[i]);
                assert(ka[i] == kb[i]);
            }
            assert(!keys_of(m + imported(d)).contains(l.0));
        }
        lemma_sections_block(l.0, l.1, r, cur, m + imported(d));
        assert(bl + r =~= seq![f] + c + r);
        if l.1.len() > 0 {
            assert((m + imported(d)).push((l.0, c)) =~= m + imported(s));
        } else {
            assert(m + imported(d) =~= m + imported(s));
        }
        if lines(sections_text(d)).len() == 0 {
            assert(lines(sections_text(s)) =~= bl);
        } else {
            assert(lines(sections_text(s))[0] == lines(sections_text(d))[0]);
        }
    }
}

/// Importing an export gives back every section that holds text, with the
/// lines of that text, and writes back each such file with its text,
/// followed by a newline unless it already ended with one; for sections
/// whose names and texts an export can carry and whose non-empty sections
/// have distinct names.
pub proof fn lemma_export_import_round_trip(s: Seq<(Seq<char>, Seq<char>)>)
    requires
        forall|k: int| 0 <= k < s.len() ==> importable_section(#[trigger] s[k].0, s[k].1),
        keys_of(imported(s)).no_duplicates(),
    ensures
        import_of(export_text(s)) == Ok::<
            Seq<(Seq<char>, Seq<Seq<char>>)>,
            Option<Seq<char>>,
        >(imported(s)),
        forall|k: int|
            0 <= k < imported(s).len() ==> crate::history::render_history_spec(
                #[trigger] imported(s)[k].1,
            ) == ended(nonempty_sections(s)[k].1),
{
    reveal_strlit("# qc-export:v1");
    let h = export_header();
    let st = sections_text(s);
    assert(export_text(s) =~= h + seq!['\n'] + st);
    crate::text::lemma_lines_split(h, st);
    assert(crate::text::strip_cr(h) == h);
    crate::text::lemma_trim_trimmed(h);
    let ls = lines(export_text(s));
    assert(ls =~= seq![h] + lines(st));
    assert(Seq::<(Seq<char>, Seq<Seq<char>>)>::empty() + imported(s) =~= imported(s));
    lemma_sections_all(s, Seq::empty(), Seq::empty(), Seq::empty());
    assert(lines(st) + Seq::<Seq<char>>::empty() =~= lines(st));
    lemma_sections_shift(seq![h], lines(st), 0, Seq::empty(), Seq::empty());
    assert forall|k: int| 0 <= k < imported(s).len() implies crate::history::render_history_spec(
        #[trigger] imported(s)[k].1,
    ) == ended(nonempty_sections(s)[k].1) by {
        let ns = nonempty_sections(s);
        let x = ns[k];
        s.lemma_filter_pred(|x: (Seq<char>, Seq<char>)| x.1.len() > 0, k);
        assert(ns.contains(x));
        s.lemma_filter_contains_rev(|x: (Seq<char>, Seq<char>)| x.1.len() > 0, x);
        let i = choose|i: int| 0 <= i < s.len() && s[i] == x;
        assert(importable_section(s[i].0, s[i].1));
        lemma_render_lines_of(ended(x.1));
    }
}

} // verus!
