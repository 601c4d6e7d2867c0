//! Named shortcuts: the `name[tag1,tag2]=command` format of `shortcuts.txt`,
//! edits of the shortcut list, command templates with `{placeholder}` fields,
//! and the check for dangerous commands.

use vstd::prelude::*;
use crate::history::{lemma_filter_all, lemma_join_front, position, lemma_position};
use crate::text::{
    chars_eq, chars_of, find_char, index_of, is_trimmed, join, lemma_index_of, lines, split_lines,
    split_once, string_of, string_of_range, sub_chars, sviews, trim, trim_bounds, vviews,
};

verus! {

/// A named shortcut for a command, with optional tags.
#[derive(Clone, Debug)]
pub struct Shortcut {
    pub name: String,
    pub tags: Vec<String>,
    pub command: String,
}

/// The mathematical value of a [`Shortcut`].
pub struct ShortcutView {
    pub name: Seq<char>,
    pub tags: Seq<Seq<char>>,
    pub command: Seq<char>,
}

impl View for Shortcut {
    type V = ShortcutView;

    open spec fn view(&self) -> ShortcutView {
        ShortcutView { name: self.name@, tags: sviews(self.tags@), command: self.command@ }
    }
}

/// The values of a sequence of shortcuts.
pub open spec fn shortcut_views(v: Seq<Shortcut>) -> Seq<ShortcutView> {
    v.map_values(|s: Shortcut| s@)
}

/// A `{placeholder}` of a command template.
#[derive(Clone, Debug)]
pub struct TemplateField {
    pub name: String,
    pub default_value: Option<String>,
    pub sensitive: bool,
}

/// The mathematical value of a [`TemplateField`].
pub struct FieldView {
    pub name: Seq<char>,
    pub default_value: Option<Seq<char>>,
    pub sensitive: bool,
}

impl View for TemplateField {
    type V = FieldView;

    open spec fn view(&self) -> FieldView {
        FieldView {
            name: self.name@,
            default_value: match self.default_value {
                Some(d) => Some(d@),
                None => None,
            },
            sensitive: self.sensitive,
        }
    }
}

/// The values of a sequence of template fields.
pub open spec fn field_views(v: Seq<TemplateField>) -> Seq<FieldView> {
    v.map_values(|f: TemplateField| f@)
}

/// The pieces of `s` between the occurrences of `c` (`str::split`).
pub open spec fn split_on(s: Seq<char>, c: char) -> Seq<Seq<char>>
    decreases s.len(),
{
    match index_of(s, c) {
        Some(i) => {
            proof {
                lemma_index_of(s, c);
            }
            seq![s.take(i)] + split_on(s.skip(i + 1), c)
        },
        None => seq![s],
    }
}

/// The index of the last occurrence of `c` in `s`, if any.
pub open spec fn last_index_of(s: Seq<char>, c: char) -> Option<int>
    decreases s.len(),
{
    if s.len() == 0 {
        None
    } else if s.last() == c {
        Some(s.len() - 1)
    } else {
        last_index_of(s.drop_last(), c)
    }
}

proof fn lemma_last_index_of(s: Seq<char>, c: char)
    ensures
        last_index_of(s, c) matches Some(i) ==> 0 <= i < s.len() && s[i] == c && forall|j: int|
            i < j < s.len() ==> s[j] != c,
        last_index_of(s, c) is None ==> forall|j: int| 0 <= j < s.len() ==> s[j] != c,
    decreases s.len(),
{
    if s.len() > 0 && s.last() != c {
        lemma_last_index_of(s.drop_last(), c);
        if let Some(i) = last_index_of(s.drop_last(), c) {
            assert forall|j: int| i < j < s.len() implies s[j] != c by {
                if j < s.len() - 1 {
                    assert(s[j] == s.drop_last()[j]);
                }
            }
        } else {
            assert forall|j: int| 0 <= j < s.len() implies s[j] != c by {
                if j < s.len() - 1 {
                    assert(s[j] == s.drop_last()[j]);
                }
            }
        }
    }
}

/// The trimmed, non-empty pieces of `s` between commas: a list of tags.
pub open spec fn tags_of(s: Seq<char>) -> Seq<Seq<char>> {
    split_on(s, ',').map_values(|t: Seq<char>| trim(t)).filter(|t: Seq<char>| t.len() > 0)
}

/// Splits `name[tag1,tag2]` into a name and its tags. Without a `[` before
/// the last `]`, or (when `require_name` holds) with an empty name before
/// the `[`, the whole trimmed text is the name and there are no tags.
pub open spec fn key_parts(raw: Seq<char>, require_name: bool) -> (Seq<char>, Seq<Seq<char>>) {
    let key = trim(raw);
    match index_of(key, '[') {
        None => (key, Seq::empty()),
        Some(o) => match last_index_of(key, ']') {
            None => (key, Seq::empty()),
            Some(c) => if c <= o {
                (key, Seq::empty())
            } else {
                let name = trim(key.take(o));
                let raw_tags = trim(key.subrange(o + 1, c));
                if require_name && name.len() == 0 {
                    (key, Seq::empty())
                } else {
                    (name, tags_of(raw_tags))
                }
            },
        },
    }
}

/// The position of the last `c` in `v[lo..hi]`.
fn rfind_char(v: &[char], lo: usize, hi: usize, c: char) -> (r: Option<usize>)
    requires
        lo <= hi <= v.len(),
    ensures
        r matches Some(i) ==> lo <= i < hi && last_index_of(v@.subrange(lo as int, hi as int), c)
            == Some(i - lo),
        r is None ==> last_index_of(v@.subrange(lo as int, hi as int), c) is None,
{
    let ghost s = v@.subrange(lo as int, hi as int);
    let mut i = hi;
    while i > lo
        invariant
            lo <= i <= hi <= v.len(),
            s == v@.subrange(lo as int, hi as int),
            forall|j: int| i <= j < hi ==> v@[j] != c,
            last_index_of(s, c) == last_index_of(v@.subrange(lo as int, i as int), c),
        decreases i - lo,
    {
        if v[i - 1] == c {
            return Some(i - 1);
        }
        assert(v@.subrange(lo as int, i as int).drop_last() =~= v@.subrange(lo as int, i - 1));
        i -= 1;
    }
    None
}

/// The trimmed, non-empty comma-separated pieces of `v[lo..hi]`.
fn split_tags(v: &[char], lo: usize, hi: usize) -> (r: Vec<String>)
    requires
        lo <= hi <= v.len(),
    ensures
        sviews(r@) == tags_of(v@.subrange(lo as int, hi as int)),
{
    let ghost keep = |t: Seq<char>| t.len() > 0;
    let ghost tr = |t: Seq<char>| trim(t);
    let mut r: Vec<String> = Vec::new();
    let mut start = lo;
    // pieces consumed so far
    let ghost mut done: Seq<Seq<char>> = Seq::empty();
    loop
        invariant
            lo <= start <= hi <= v.len(),
            keep == (|t: Seq<char>| t.len() > 0),
            tr == (|t: Seq<char>| trim(t)),
            split_on(v@.subrange(lo as int, hi as int), ',') == done + split_on(
                v@.subrange(start as int, hi as int),
                ',',
            ),
            sviews(r@) == done.map_values(tr).filter(keep),
        decreases hi - start,
    {
        let ghost rest = v@.subrange(start as int, hi as int);
        match find_char(v, start, hi, ',') {
            Some(i) => {
                proof {
                    lemma_index_of(rest, ',');
                    assert(rest.take(i - start) =~= v@.subrange(start as int, i as int));
                    assert(rest.skip(i - start + 1) =~= v@.subrange(i + 1, hi as int));
                }
                let (a, b) = trim_bounds(v, start, i);
                let ghost piece = v@.subrange(start as int, i as int);
                proof {
                    assert(done.push(piece).map_values(tr) =~= done.map_values(tr).push(trim(piece)));
                    done.map_values(tr).lemma_filter_push(trim(piece), keep);
                }
                if a < b {
                    let ghost old_r = sviews(r@);
                    r.push(string_of_range(v, a, b));
                    assert(sviews(r@) =~= old_r.push(trim(piece)));
                }
                proof {
                    assert(done + split_on(rest, ',') =~= done.push(piece) + split_on(
                        v@.subrange(i + 1, hi as int),
                        ',',
                    ));
                    done = done.push(piece);
                }
                start = i + 1;
            },
            None => {
                let (a, b) = trim_bounds(v, start, hi);
                proof {
                    assert(done.push(rest).map_values(tr) =~= done.map_values(tr).push(trim(rest)));
                    done.map_values(tr).lemma_filter_push(trim(rest), keep);
                    assert(done + split_on(rest, ',') =~= done.push(rest));
                }
                if a < b {
                    let ghost old_r = sviews(r@);
                    r.push(string_of_range(v, a, b));
                    assert(sviews(r@) =~= old_r.push(trim(rest)));
                }
                return r;
            },
        }
    }
}

/// Splits a key of the form `name[tag1,tag2]` (see [`key_parts`]).
pub fn split_key(raw: &str, require_name: bool) -> (r: (String, Vec<String>))
    ensures
        (r.0@, sviews(r.1@)) == key_parts(raw@, require_name),
{
    let v0 = chars_of(raw);
    let (ka, kb) = trim_bounds(v0.as_slice(), 0, v0.len());
    assert(v0@.subrange(0, v0.len() as int) =~= raw@);
    let key = sub_chars(v0.as_slice(), ka, kb);
    let n = key.len();
    assert(key@.subrange(0, n as int) =~= key@);
    let whole = (string_of(key.as_slice()), Vec::new());
    assert(sviews(whole.1@) =~= Seq::<Seq<char>>::empty());
    let open_index = match find_char(key.as_slice(), 0, n, '[') {
        None => {
            return whole;
        },
        Some(o) => o,
    };
    let close_index = match rfind_char(key.as_slice(), 0, n, ']') {
        None => {
            return whole;
        },
        Some(c) => c,
    };
    if close_index <= open_index {
        return whole;
    }
    let (na, nb) = trim_bounds(key.as_slice(), 0, open_index);
    assert(key@.take(open_index as int) =~= key@.subrange(0, open_index as int));
    if require_name && na == nb {
        return whole;
    }
    let (ta, tb) = trim_bounds(key.as_slice(), open_index + 1, close_index);
    let tags = split_tags(key.as_slice(), ta, tb);
    (string_of_range(key.as_slice(), na, nb), tags)
}

/// Splits the key of a line of `shortcuts.txt` into the shortcut's name and tags.
pub fn parse_shortcut_key(key: &str) -> (r: (String, Vec<String>))
    ensures
        (r.0@, sviews(r.1@)) == key_parts(key@, true),
{
    split_key(key, true)
}

/// Splits the `<name>[tag1,tag2]` part of `:shortcuts add` into a name and tags.
pub fn parse_name_and_tags(raw: &str) -> (r: (String, Vec<String>))
    ensures
        (r.0@, sviews(r.1@)) == key_parts(raw@, false),
{
    split_key(raw, false)
}

/// The key under which a shortcut is written: the name, then its tags in
/// brackets, separated by commas, if it has any.
pub open spec fn shortcut_key_text(name: Seq<char>, tags: Seq<Seq<char>>) -> Seq<char> {
    if tags.len() == 0 {
        name
    } else {
        name + seq!['['] + join(tags, seq![',']) + seq![']']
    }
}

/// Writes the key of a shortcut.
pub fn format_shortcut_key(name: &str, tags: &[String]) -> (r: String)
    ensures
        r@ == shortcut_key_text(name@, sviews(tags@)),
{
    let mut out = chars_of(name);
    if tags.len() > 0 {
        out.push('[');
        let joined = crate::text::join_strings(tags, ",");
        proof {
            reveal_strlit(",");
            assert(","@ =~= seq![',']);
        }
        crate::text::extend_chars(&mut out, joined.as_slice());
        out.push(']');
    }
    string_of(out.as_slice())
}


// ---------------------------------------------------------------------------
// Template fields
// ---------------------------------------------------------------------------

/// The field that the text between `{` and `}` describes: `name`,
/// `name?default`, with a trailing `!` for a sensitive value; surrounding
/// whitespace is ignored, an empty default is no default, and an empty name
/// is no field.
pub open spec fn template_field_of(raw: Seq<char>) -> Option<FieldView> {
    let r = trim(raw);
    if r.len() == 0 {
        None
    } else {
        let sensitive = r.last() == '!';
        let r2 = if sensitive {
            trim(r.drop_last())
        } else {
            r
        };
        let (name, default_value) = match split_once(r2, '?') {
            Some((n, d)) => (trim(n), if trim(d).len() == 0 {
                None
            } else {
                Some(trim(d))
            }),
            None => (r2, None),
        };
        if name.len() == 0 {
            None
        } else {
            Some(FieldView { name, default_value, sensitive })
        }
    }
}

/// Reads the field between `{` and `}` (the characters `v[lo..hi]`).
fn parse_template_field_range(v: &[char], lo: usize, hi: usize) -> (r: Option<TemplateField>)
    requires
        lo <= hi <= v.len(),
    ensures
        match template_field_of(v@.subrange(lo as int, hi as int)) {
            Some(f) => r matches Some(x) && x@ == f,
            None => r is None,
        },
{
    let (a, b) = trim_bounds(v, lo, hi);
    if a == b {
        return None;
    }
    let sensitive = v[b - 1] == '!';
    let (a2, b2) = if sensitive {
        assert(v@.subrange(a as int, b as int).drop_last() =~= v@.subrange(a as int, b - 1));
        trim_bounds(v, a, b - 1)
    } else {
        (a, b)
    };
    let ghost r2 = v@.subrange(a2 as int, b2 as int);
    match find_char(v, a2, b2, '?') {
        Some(q) => {
            proof {
                lemma_index_of(r2, '?');
                assert(r2.take(q - a2) =~= v@.subrange(a2 as int, q as int));
                assert(r2.skip(q - a2 + 1) =~= v@.subrange(q + 1, b2 as int));
            }
            let (na, nb) = trim_bounds(v, a2, q);
            let (da, db) = trim_bounds(v, q + 1, b2);
            if na == nb {
                return None;
            }
            let default_value = if da == db {
                None
            } else {
                Some(string_of_range(v, da, db))
            };
            Some(TemplateField { name: string_of_range(v, na, nb), default_value, sensitive })
        },
        None => {
            if a2 == b2 {
                return None;
            }
            Some(TemplateField { name: string_of_range(v, a2, b2), default_value: None, sensitive })
        },
    }
}

/// Reads the description of one `{placeholder}`.
pub fn parse_template_field(raw: &str) -> (r: Option<TemplateField>)
    ensures
        match template_field_of(raw@) {
            Some(f) => r matches Some(x) && x@ == f,
            None => r is None,
        },
{
    let v = chars_of(raw);
    assert(v@.subrange(0, v.len() as int) =~= raw@);
    parse_template_field_range(v.as_slice(), 0, v.len())
}

/// Whether a field named `name` is among `fields`.
pub open spec fn has_field(fields: Seq<FieldView>, name: Seq<char>) -> bool {
    exists|i: int| 0 <= i < fields.len() && fields[i].name == name
}

/// The fields of the template `s`, added to `acc` in order of first
/// appearance: a `{` opens a field that the next `}` closes; text after a `{`
/// that is never closed holds no field; a field whose name is already known,
/// or that describes no field, is skipped.
pub open spec fn fields_from(s: Seq<char>, acc: Seq<FieldView>) -> Seq<FieldView>
    decreases s.len(),
{
    if s.len() == 0 {
        acc
    } else if s[0] == '{' {
        let rest = s.drop_first();
        match index_of(rest, '}') {
            None => acc,
            Some(j) => {
                proof {
                    lemma_index_of(rest, '}');
                }
                let after = rest.skip(j + 1);
                match template_field_of(rest.take(j)) {
                    Some(f) => if has_field(acc, f.name) {
                        fields_from(after, acc)
                    } else {
                        fields_from(after, acc.push(f))
                    },
                    None => fields_from(after, acc),
                }
            },
        }
    } else {
        fields_from(s.drop_first(), acc)
    }
}

/// The `{placeholder}` fields of a command template, in order, each name once.
pub open spec fn template_fields(command: Seq<char>) -> Seq<FieldView> {
    fields_from(command, Seq::empty())
}

fn has_field_named(fields: &Vec<TemplateField>, name: &String) -> (r: bool)
    ensures
        r == has_field(field_views(fields@), name@),
{
    let mut i: usize = 0;
    while i < fields.len()
        invariant
            i <= fields.len(),
            forall|k: int| 0 <= k < i ==> field_views(fields@)[k].name != name@,
        decreases fields.len() - i,
    {
        if crate::text::str_eq(fields[i].name.as_str(), name.as_str()) {
            assert(field_views(fields@)[i as int].name == name@);
            return true;
        }
        i += 1;
    }
    false
}

/// Extracts `{placeholder}` names from a command template, in order, without duplicates.
pub fn extract_template_fields(command: &str) -> (r: Vec<TemplateField>)
    ensures
        field_views(r@) == template_fields(command@),
{
    let v = chars_of(command);
    let mut fields: Vec<TemplateField> = Vec::new();
    let mut i: usize = 0;
    assert(v@.skip(0) =~= v@);
    assert(field_views(fields@) =~= Seq::<FieldView>::empty());
    while i < v.len()
        invariant
            i <= v.len(),
            v@ == command@,
            template_fields(command@) == fields_from(v@.skip(i as int), field_views(fields@)),
        decreases v.len() - i,
    {
        let ghost s = v@.skip(i as int);
        if v[i] == '{' {
            let ghost rest = s.drop_first();
            assert(rest =~= v@.subrange(i + 1, v.len() as int));
            match find_char(v.as_slice(), i + 1, v.len(), '}') {
                None => {
                    return fields;
                },
                Some(j) => {
                    proof {
                        lemma_index_of(rest, '}');
                        assert(rest.take(j - i - 1) =~= v@.subrange(i + 1, j as int));
                        assert(rest.skip(j - i) =~= v@.skip(j + 1));
                    }
                    match parse_template_field_range(v.as_slice(), i + 1, j) {
                        Some(f) => {
                            if !has_field_named(&fields, &f.name) {
                                let ghost old_f = field_views(fields@);
                                let ghost fv = f@;
                                fields.push(f);
                                assert(field_views(fields@) =~= old_f.push(fv));
                            }
                        },
                        None => {},
                    }
                    i = j + 1;
                },
            }
        } else {
            assert(s.drop_first() =~= v@.skip(i + 1));
            i += 1;
        }
    }
    assert(v@.skip(i as int) =~= Seq::<char>::empty());
    fields
}

/// Every name appears once among the fields of a template.
pub proof fn lemma_template_fields_distinct(command: Seq<char>)
    ensures
        forall|i: int, j: int|
            0 <= i < j < template_fields(command).len() ==> template_fields(command)[i].name
                != template_fields(command)[j].name,
{
    lemma_fields_from_distinct(command, Seq::empty());
}

proof fn lemma_fields_from_distinct(s: Seq<char>, acc: Seq<FieldView>)
    requires
        forall|i: int, j: int| 0 <= i < j < acc.len() ==> acc[i].name != acc[j].name,
    ensures
        forall|i: int, j: int|
            0 <= i < j < fields_from(s, acc).len() ==> fields_from(s, acc)[i].name != fields_from(
                s,
                acc,
            )[j].name,
    decreases s.len(),
{
    if s.len() > 0 {
        if s[0] == '{' {
            let rest = s.drop_first();
            lemma_index_of(rest, '}');
            if let Some(j) = index_of(rest, '}') {
                let after = rest.skip(j + 1);
                match template_field_of(rest.take(j)) {
                    Some(f) => {
                        if has_field(acc, f.name) {
                            lemma_fields_from_distinct(after, acc);
                        } else {
                            let a2 = acc.push(f);
                            assert forall|i: int, k: int| 0 <= i < k < a2.len() implies a2[i].name
                                != a2[k].name by {
                                if k == acc.len() {
                                    assert(a2[i] == acc[i]);
                                }
                            }
                            lemma_fields_from_distinct(after, a2);
                        }
                    },
                    None => {
                        lemma_fields_from_distinct(after, acc);
                    },
                }
            }
        } else {
            lemma_fields_from_distinct(s.drop_first(), acc);
        }
    }
}


// ---------------------------------------------------------------------------
// The shortcut file
// ---------------------------------------------------------------------------

/// Why a line of `shortcuts.txt`, or a new shortcut, was refused.
#[derive(Clone, Copy, Debug, PartialEq, Eq, Structural)]
pub enum ShortcutError {
    /// The line (1-based) holds no `=`.
    MissingEquals { line: usize },
    /// The line (1-based) has an empty name or an empty command.
    EmptyNameOrCommand { line: usize },
    /// A shortcut to add has an empty name or an empty command.
    EmptyNewShortcut,
}

/// The message that reports a refused shortcut for the shortcut file at `path`.
pub open spec fn shortcut_error_text(e: ShortcutError, path: Seq<char>) -> Seq<char> {
    match e {
        ShortcutError::MissingEquals { line } => "Invalid shortcut definition at "@ + path
            + seq![':'] + crate::number::decimal(line as nat) + "; expected name=command"@,
        ShortcutError::EmptyNameOrCommand { line } => "Invalid shortcut definition at "@ + path
            + seq![':'] + crate::number::decimal(line as nat)
            + "; name and command must be non-empty"@,
        ShortcutError::EmptyNewShortcut => "Shortcut name and command must be non-empty"@,
    }
}

impl ShortcutError {
    /// The message that reports this error for the shortcut file at `path`.
    pub fn message(&self, path: &str) -> (r: String)
        ensures
            r@ == shortcut_error_text(*self, path@),
    {
        let mut out: Vec<char> = Vec::new();
        match *self {
            ShortcutError::MissingEquals { line } => {
                crate::text::extend_str(&mut out, "Invalid shortcut definition at ");
                crate::text::extend_str(&mut out, path);
                out.push(':');
                crate::number::push_decimal(&mut out, line as u64);
                crate::text::extend_str(&mut out, "; expected name=command");
            },
            ShortcutError::EmptyNameOrCommand { line } => {
                crate::text::extend_str(&mut out, "Invalid shortcut definition at ");
                crate::text::extend_str(&mut out, path);
                out.push(':');
                crate::number::push_decimal(&mut out, line as u64);
                crate::text::extend_str(&mut out, "; name and command must be non-empty");
            },
            ShortcutError::EmptyNewShortcut => {
                crate::text::extend_str(&mut out, "Shortcut name and command must be non-empty");
            },
        }
        assert(out@ =~= shortcut_error_text(*self, path@));
        string_of(out.as_slice())
    }
}

/// What a line of `shortcuts.txt` holds: nothing (blank or `#` comment), a
/// shortcut, or an error (`false`: no `=`; `true`: empty name or command).
pub open spec fn shortcut_line(line: Seq<char>) -> Option<Result<ShortcutView, bool>> {
    let l = trim(line);
    if l.len() == 0 || l[0] == '#' {
        None
    } else {
        match split_once(l, '=') {
            None => Some(Err(false)),
            Some((k, c)) => {
                let (name, tags) = key_parts(k, true);
                let command = trim(c);
                if name.len() == 0 || command.len() == 0 {
                    Some(Err(true))
                } else {
                    Some(Ok(ShortcutView { name, tags, command }))
                }
            },
        }
    }
}

/// The shortcuts of the lines `ls[i..]`, after those in `acc`; an error
/// carries the 1-based number of the first refused line.
pub open spec fn shortcuts_from(ls: Seq<Seq<char>>, i: int, acc: Seq<ShortcutView>) -> Result<
    Seq<ShortcutView>,
    ShortcutError,
>
    decreases ls.len() - i,
{
    if i < 0 || i >= ls.len() {
        Ok(acc)
    } else {
        match shortcut_line(ls[i]) {
            None => shortcuts_from(ls, i + 1, acc),
            Some(Ok(s)) => shortcuts_from(ls, i + 1, acc.push(s)),
            Some(Err(empty)) => if empty {
                Err(ShortcutError::EmptyNameOrCommand { line: (i + 1) as usize })
            } else {
                Err(ShortcutError::MissingEquals { line: (i + 1) as usize })
            },
        }
    }
}

/// The shortcuts that the text of `shortcuts.txt` defines.
pub open spec fn shortcuts_of(content: Seq<char>) -> Result<Seq<ShortcutView>, ShortcutError> {
    shortcuts_from(lines(content), 0, Seq::empty())
}

/// A line that `shortcuts.txt` accepts: blank, a `#` comment, or a
/// `key=command` with a non-empty name and command.
pub open spec fn shortcut_line_ok(line: Seq<char>) -> bool {
    !(shortcut_line(line) matches Some(Err(_)))
}

/// The shortcuts that the lines `ls` define, in order.
pub open spec fn defined_shortcuts(ls: Seq<Seq<char>>) -> Seq<ShortcutView>
    decreases ls.len(),
{
    if ls.len() == 0 {
        Seq::empty()
    } else {
        (match shortcut_line(ls[0]) {
            Some(Ok(x)) => seq![x],
            _ => Seq::empty(),
        }) + defined_shortcuts(ls.drop_first())
    }
}

/// The 1-based line that an error of the shortcut file names (0 for none).
pub open spec fn shortcut_error_line(e: ShortcutError) -> int {
    match e {
        ShortcutError::MissingEquals { line } => line as int,
        ShortcutError::EmptyNameOrCommand { line } => line as int,
        ShortcutError::EmptyNewShortcut => 0,
    }
}

proof fn lemma_shortcuts_from_ok(ls: Seq<Seq<char>>, i: int, acc: Seq<ShortcutView>)
    requires
        0 <= i <= ls.len(),
        ls.len() <= usize::MAX,
    ensures
        shortcuts_from(ls, i, acc) is Ok <==> forall|j: int|
            i <= j < ls.len() ==> shortcut_line_ok(#[trigger] ls[j]),
        shortcuts_from(ls, i, acc) matches Ok(v) ==> v == acc + defined_shortcuts(ls.skip(i)),
        shortcuts_from(ls, i, acc) matches Err(e) ==> exists|k: int|
            i <= k < ls.len() && !shortcut_line_ok(ls[k]) && shortcut_error_line(e) == k + 1
                && forall|j: int| i <= j < k ==> shortcut_line_ok(#[trigger] ls[j]),
    decreases ls.len() - i,
{
    if i == ls.len() {
        assert(ls.skip(i) =~= Seq::<Seq<char>>::empty());
        assert(acc + Seq::<ShortcutView>::empty() =~= acc);
    } else {
        let l = ls[i];
        assert(ls.skip(i).drop_first() =~= ls.skip(i + 1));
        assert(ls.skip(i)[0] == l);
        match shortcut_line(l) {
            None => {
                lemma_shortcuts_from_ok(ls, i + 1, acc);
                assert(defined_shortcuts(ls.skip(i)) =~= defined_shortcuts(ls.skip(i + 1)));
            },
            Some(Ok(x)) => {
                lemma_shortcuts_from_ok(ls, i + 1, acc.push(x));
                assert(defined_shortcuts(ls.skip(i)) == seq![x] + defined_shortcuts(ls.skip(i + 1)));
                assert(acc.push(x) + defined_shortcuts(ls.skip(i + 1)) =~= acc + (seq![x]
                    + defined_shortcuts(ls.skip(i + 1))));
            },
            Some(Err(_)) => {
                if let Err(e) = shortcuts_from(ls, i, acc) {
                    assert(shortcut_error_line(e) == i + 1);
                    assert(forall|j: int| i <= j < i ==> shortcut_line_ok(#[trigger] ls[j]));
                }
            },
        }
        if let Err(e) = shortcuts_from(ls, i, acc) {
            if shortcut_line_ok(l) {
                let k = choose|k: int|
                    i + 1 <= k < ls.len() && !shortcut_line_ok(ls[k]) && shortcut_error_line(e)
                        == k + 1 && forall|j: int|
                        i + 1 <= j < k ==> shortcut_line_ok(#[trigger] ls[j]);
                assert forall|j: int| i <= j < k implies shortcut_line_ok(#[trigger] ls[j]) by {
                    if j > i {
                    }
                }
            }
        }
    }
}

/// `shortcuts.txt` is accepted exactly when every line is blank, a comment
/// or a well-formed `key=command`; then it defines one shortcut per such
/// line, in order; otherwise the error names the first bad line (for any
/// text that fits in memory).
pub proof fn lemma_shortcut_file_accepted(content: Seq<char>)
    requires
        content.len() <= usize::MAX,
    ensures
        shortcuts_of(content) is Ok <==> forall|j: int|
            0 <= j < lines(content).len() ==> shortcut_line_ok(#[trigger] lines(content)[j]),
        shortcuts_of(content) matches Ok(v) ==> v == defined_shortcuts(lines(content)),
        shortcuts_of(content) matches Err(e) ==> exists|k: int|
            0 <= k < lines(content).len() && !shortcut_line_ok(lines(content)[k])
                && shortcut_error_line(e) == k + 1 && forall|j: int|
                0 <= j < k ==> shortcut_line_ok(#[trigger] lines(content)[j]),
{
    let ls = lines(content);
    crate::text::lemma_lines_len(content);
    lemma_shortcuts_from_ok(ls, 0, Seq::empty());
    assert(ls.skip(0) =~= ls);
    assert(Seq::<ShortcutView>::empty() + defined_shortcuts(ls) =~= defined_shortcuts(ls));
}

/// Reads one line (the characters `v`) of `shortcuts.txt`.
fn parse_shortcut_line(v: &[char]) -> (r: Option<Result<Shortcut, bool>>)
    ensures
        match shortcut_line(v@) {
            None => r is None,
            Some(Ok(s)) => r matches Some(Ok(x)) && x@ == s,
            Some(Err(e)) => r == Some(Err::<Shortcut, bool>(e)),
        },
{
    assert(v@.subrange(0, v.len() as int) =~= v@);
    let (a, b) = trim_bounds(v, 0, v.len());
    if a == b || v[a] == '#' {
        return None;
    }
    let ghost l = v@.subrange(a as int, b as int);
    match find_char(v, a, b, '=') {
        None => Some(Err(false)),
        Some(e) => {
            proof {
                lemma_index_of(l, '=');
                assert(l.take(e - a) =~= v@.subrange(a as int, e as int));
                assert(l.skip(e - a + 1) =~= v@.subrange(e + 1, b as int));
            }
            let key = string_of_range(v, a, e);
            let (name, tags) = parse_shortcut_key(key.as_str());
            let (ca, cb) = trim_bounds(v, e + 1, b);
            if name.as_str().is_empty() || ca == cb {
                return Some(Err(true));
            }
            Some(Ok(Shortcut { name, tags, command: string_of_range(v, ca, cb) }))
        },
    }
}

/// Reads the shortcuts defined by the text of `shortcuts.txt`: one
/// `name[tags]=command` per line, blank lines and `#` comments ignored; the
/// first malformed line is reported with its 1-based number.
pub fn parse_shortcuts(content: &str) -> (r: Result<Vec<Shortcut>, ShortcutError>)
    ensures
        match shortcuts_of(content@) {
            Ok(s) => r matches Ok(v) && shortcut_views(v@) == s,
            Err(e) => r == Err::<Vec<Shortcut>, ShortcutError>(e),
        },
{
    let v = chars_of(content);
    let ls = split_lines(v.as_slice());
    let ghost all = lines(content@);
    let mut out: Vec<Shortcut> = Vec::new();
    let mut i: usize = 0;
    assert(shortcut_views(out@) =~= Seq::<ShortcutView>::empty());
    while i < ls.len()
        invariant
            i <= ls.len(),
            vviews(ls@) == all,
            all == lines(content@),
            shortcuts_of(content@) == shortcuts_from(all, i as int, shortcut_views(out@)),
        decreases ls.len() - i,
    {
        match parse_shortcut_line(ls[i].as_slice()) {
            None => {},
            Some(Ok(s)) => {
                let ghost old_out = shortcut_views(out@);
                let ghost sv = s@;
                out.push(s);
                assert(shortcut_views(out@) =~= old_out.push(sv));
            },
            Some(Err(empty)) => {
                if empty {
                    return Err(ShortcutError::EmptyNameOrCommand { line: i + 1 });
                } else {
                    return Err(ShortcutError::MissingEquals { line: i + 1 });
                }
            },
        }
        i += 1;
    }
    Ok(out)
}

/// The line under which a shortcut is written.
pub open spec fn shortcut_line_text(s: ShortcutView) -> Seq<char> {
    shortcut_key_text(s.name, s.tags) + seq!['='] + s.command
}

/// The text of `shortcuts.txt` that defines `s`, one shortcut per line.
pub open spec fn render_shortcuts_spec(s: Seq<ShortcutView>) -> Seq<char> {
    crate::history::render_history_spec(s.map_values(|x: ShortcutView| shortcut_line_text(x)))
}

/// Writes the line of one shortcut.
pub fn format_shortcut_line(s: &Shortcut) -> (r: String)
    ensures
        r@ == shortcut_line_text(s@),
{
    let key = format_shortcut_key(s.name.as_str(), s.tags.as_slice());
    let mut out = chars_of(key.as_str());
    out.push('=');
    crate::text::extend_str(&mut out, s.command.as_str());
    string_of(out.as_slice())
}

/// The text of `shortcuts.txt` that defines `shortcuts`.
pub fn render_shortcuts(shortcuts: &[Shortcut]) -> (r: String)
    ensures
        r@ == render_shortcuts_spec(shortcut_views(shortcuts@)),
{
    let mut ls: Vec<String> = Vec::new();
    let mut i: usize = 0;
    while i < shortcuts.len()
        invariant
            i <= shortcuts.len(),
            sviews(ls@) == shortcut_views(shortcuts@).take(i as int).map_values(
                |x: ShortcutView| shortcut_line_text(x),
            ),
        decreases shortcuts.len() - i,
    {
        let ghost old_ls = sviews(ls@);
        let line = format_shortcut_line(&shortcuts[i]);
        let ghost lv = line@;
        assert(lv == shortcut_line_text(shortcut_views(shortcuts@)[i as int]));
        ls.push(line);
        assert(sviews(ls@) =~= old_ls.push(lv));
        assert(shortcut_views(shortcuts@).take(i + 1) =~= shortcut_views(shortcuts@).take(
            i as int,
        ).push(shortcut_views(shortcuts@)[i as int]));
        i += 1;
        assert(sviews(ls@) =~= shortcut_views(shortcuts@).take(i as int).map_values(
            |x: ShortcutView| shortcut_line_text(x),
        ));
    }
    assert(shortcut_views(shortcuts@).take(shortcuts.len() as int) =~= shortcut_views(
        shortcuts@,
    ));
    crate::history::render_history(ls.as_slice())
}


/// No character of `s` is `c`.
pub open spec fn avoids(s: Seq<char>, c: char) -> bool {
    forall|i: int| 0 <= i < s.len() ==> s[i] != c
}

/// A shortcut that `shortcuts.txt` can hold unchanged: a non-empty trimmed
/// name that does not start with `#` and holds no `=`, `[` or line break;
/// non-empty trimmed tags without `,`, `=` or line breaks; a non-empty
/// trimmed command without line breaks.
pub open spec fn storable_shortcut(s: ShortcutView) -> bool {
    &&& s.name.len() > 0
    &&& is_trimmed(s.name)
    &&& s.name[0] != '#'
    &&& avoids(s.name, '=') && avoids(s.name, '[') && avoids(s.name, '\n')
    &&& forall|k: int|
        0 <= k < s.tags.len() ==> {
            &&& (#[trigger] s.tags[k]).len() > 0
            &&& is_trimmed(s.tags[k])
            &&& avoids(s.tags[k], ',') && avoids(s.tags[k], '=') && avoids(s.tags[k], '\n')
        }
    &&& s.command.len() > 0
    &&& is_trimmed(s.command)
    &&& avoids(s.command, '\n')
}

/// A piece without `c`, then `c`, then the rest, splits into that piece and
/// the pieces of the rest.
proof fn lemma_split_on_cons(a: Seq<char>, c: char, rest: Seq<char>)
    requires
        avoids(a, c),
    ensures
        split_on(a + seq![c] + rest, c) == seq![a] + split_on(rest, c),
{
    let s = a + seq![c] + rest;
    crate::text::lemma_index_of_is(s, c, a.len() as int);
    assert(s.take(a.len() as int) =~= a);
    assert(s.skip(a.len() as int + 1) =~= rest);
}

/// Splitting comma-joined pieces without commas at the commas gives the pieces.
proof fn lemma_split_join(parts: Seq<Seq<char>>)
    requires
        parts.len() > 0,
        forall|k: int| 0 <= k < parts.len() ==> avoids(#[trigger] parts[k], ','),
    ensures
        split_on(join(parts, seq![',']), ',') == parts,
    decreases parts.len(),
{
    assert(avoids(parts[0], ','));
    if parts.len() == 1 {
        lemma_index_of(parts[0], ',');
        assert(seq![parts[0]] =~= parts);
    } else {
        lemma_join_front(parts, seq![',']);
        let rest = parts.drop_first();
        assert forall|k: int| 0 <= k < rest.len() implies avoids(#[trigger] rest[k], ',') by {
            assert(rest[k] == parts[k + 1]);
        }
        lemma_split_join(rest);
        lemma_split_on_cons(parts[0], ',', join(rest, seq![',']));
        assert(seq![parts[0]] + rest =~= parts);
    }
}

/// The key written for a name and tags reads back as that name and those
/// tags, when the name is non-empty, trimmed and holds no `[`, and each tag
/// is non-empty, trimmed and holds no `,`.
pub proof fn lemma_shortcut_key_round_trip(name: Seq<char>, tags: Seq<Seq<char>>)
    requires
        name.len() > 0,
        is_trimmed(name),
        avoids(name, '['),
        forall|k: int|
            0 <= k < tags.len() ==> (#[trigger] tags[k]).len() > 0 && is_trimmed(tags[k])
                && avoids(tags[k], ','),
    ensures
        key_parts(shortcut_key_text(name, tags), true) == (name, tags),
{
    crate::text::lemma_trim_trimmed(name);
    if tags.len() == 0 {
        lemma_index_of(name, '[');
    } else {
        let j = join(tags, seq![',']);
        let key = name + seq!['['] + j + seq![']'];
        assert forall|k: int| 0 <= k < tags.len() implies #[trigger] tags[k].len() > 0 by {}
        crate::text::lemma_join_ends(tags, seq![',']);
        assert(tags[0].len() > 0 && is_trimmed(tags[0]));
        assert(tags.last().len() > 0 && is_trimmed(tags[tags.len() - 1]));
        assert(is_trimmed(j));
        crate::text::lemma_trim_trimmed(j);
        assert(key[0] == name[0]);
        assert(key.last() == ']');
        crate::text::lemma_trim_trimmed(key);
        crate::text::lemma_index_of_is(key, '[', name.len() as int);
        assert(last_index_of(key, ']') == Some(key.len() - 1));
        assert(key.take(name.len() as int) =~= name);
        assert(key.subrange(name.len() as int + 1, key.len() - 1) =~= j);
        assert forall|k: int| 0 <= k < tags.len() implies avoids(#[trigger] tags[k], ',') by {}
        lemma_split_join(tags);
        let tr = |t: Seq<char>| trim(t);
        assert forall|k: int| 0 <= k < tags.len() implies tags.map_values(tr)[k] == tags[k] by {
            crate::text::lemma_trim_trimmed(tags[k]);
        }
        assert(tags.map_values(tr) =~= tags);
        lemma_filter_all(tags, |t: Seq<char>| t.len() > 0);
        assert(tags_of(j) == tags);
    }
}

/// The line written for a storable shortcut reads back as that shortcut.
proof fn lemma_line_round_trip(s: ShortcutView)
    requires
        storable_shortcut(s),
    ensures
        shortcut_line(shortcut_line_text(s)) == Some(Ok::<ShortcutView, bool>(s)),
        crate::history::storable_entry(shortcut_line_text(s)),
{
    let key = shortcut_key_text(s.name, s.tags);
    let line = shortcut_line_text(s);
    lemma_shortcut_key_round_trip(s.name, s.tags);
    // the key holds no `=` and no line break
    if s.tags.len() > 0 {
        let j = join(s.tags, seq![',']);
        crate::text::lemma_join_avoids(s.tags, seq![','], '=');
        crate::text::lemma_join_avoids(s.tags, seq![','], '\n');
        assert(key == s.name + seq!['['] + j + seq![']']);
        assert forall|i: int| 0 <= i < key.len() implies key[i] != '=' && key[i] != '\n' by {
            if i < s.name.len() {
                assert(key[i] == s.name[i]);
            } else if i == s.name.len() {
            } else if i < s.name.len() + 1 + j.len() {
                assert(key[i] == j[i - s.name.len() - 1]);
            }
        }
        assert(key[0] == s.name[0]);
    }
    assert(avoids(key, '=') && avoids(key, '\n'));
    assert(key.len() > 0 && key[0] == s.name[0]);
    assert(line == key + seq!['='] + s.command);
    assert(line[0] == s.name[0]);
    assert(line.last() == s.command.last());
    crate::text::lemma_trim_trimmed(line);
    crate::text::lemma_trim_trimmed(s.command);
    crate::text::lemma_index_of_is(line, '=', key.len() as int);
    assert(line.take(key.len() as int) =~= key);
    assert(line.skip(key.len() as int + 1) =~= s.command);
    assert forall|i: int| 0 <= i < line.len() implies line[i] != '\n' by {
        if i < key.len() {
            assert(line[i] == key[i]);
        } else if i > key.len() {
            assert(line[i] == s.command[i - key.len() - 1]);
        }
    }
}

/// The shortcuts read from `lines[i..]`, after the first `i` of `s`, are `s`.
proof fn lemma_shortcuts_from_lines(s: Seq<ShortcutView>, ls: Seq<Seq<char>>, i: int)
    requires
        0 <= i <= s.len(),
        ls.len() == s.len(),
        forall|k: int| 0 <= k < ls.len() ==> shortcut_line(#[trigger] ls[k]) == Some(Ok::<ShortcutView, bool>(s[k])),
    ensures
        shortcuts_from(ls, i, s.take(i)) == Ok::<Seq<ShortcutView>, ShortcutError>(s),
    decreases s.len() - i,
{
    if i == s.len() {
        assert(s.take(i) =~= s);
    } else {
        assert(shortcut_line(ls[i]) == Some(Ok::<ShortcutView, bool>(s[i])));
        assert(s.take(i).push(s[i]) =~= s.take(i + 1));
        lemma_shortcuts_from_lines(s, ls, i + 1);
    }
}

/// Writing shortcuts to `shortcuts.txt` and reading the file back gives the
/// same shortcuts, in the same order, for every list of storable shortcuts.
pub proof fn lemma_shortcuts_round_trip(s: Seq<ShortcutView>)
    requires
        forall|k: int| 0 <= k < s.len() ==> storable_shortcut(#[trigger] s[k]),
    ensures
        shortcuts_of(render_shortcuts_spec(s)) == Ok::<Seq<ShortcutView>, ShortcutError>(s),
{
    let ls = s.map_values(|x: ShortcutView| shortcut_line_text(x));
    assert forall|k: int| 0 <= k < ls.len() implies shortcut_line(#[trigger] ls[k]) == Some(
        Ok::<ShortcutView, bool>(s[k]),
    ) && crate::history::storable_entry(ls[k]) by {
        lemma_line_round_trip(s[k]);
    }
    if s.len() == 0 {
        assert(render_shortcuts_spec(s) == Seq::<char>::empty());
        assert(lines(Seq::<char>::empty()) =~= Seq::<Seq<char>>::empty());
        assert(s =~= Seq::<ShortcutView>::empty());
    } else {
        crate::history::lemma_lines_of_rendered(ls);
        assert(lines(render_shortcuts_spec(s)) == ls);
        lemma_shortcuts_from_lines(s, ls, 0);
        assert(s.take(0) =~= Seq::<ShortcutView>::empty());
    }
}


// ---------------------------------------------------------------------------
// Edits and lookups
// ---------------------------------------------------------------------------

/// A copy of a shortcut.
pub fn copy_shortcut(s: &Shortcut) -> (r: Shortcut)
    ensures
        r@ == s@,
{
    let tags = crate::history::tail_strings(s.tags.as_slice(), 0);
    assert(sviews(s.tags@).skip(0) =~= sviews(s.tags@));
    Shortcut { name: s.name.clone(), tags, command: s.command.clone() }
}

/// The names of the shortcuts, in order.
pub open spec fn names_of(s: Seq<ShortcutView>) -> Seq<Seq<char>> {
    s.map_values(|x: ShortcutView| x.name)
}

/// The names of the shortcuts, in order.
pub fn shortcut_names(shortcuts: &[Shortcut]) -> (r: Vec<String>)
    ensures
        sviews(r@) == names_of(shortcut_views(shortcuts@)),
{
    let mut r: Vec<String> = Vec::new();
    let mut i: usize = 0;
    while i < shortcuts.len()
        invariant
            i <= shortcuts.len(),
            sviews(r@) == names_of(shortcut_views(shortcuts@).take(i as int)),
        decreases shortcuts.len() - i,
    {
        let ghost old_r = sviews(r@);
        let n = shortcuts[i].name.clone();
        r.push(n);
        assert(sviews(r@) =~= old_r.push(shortcuts@[i as int].name@));
        i += 1;
        assert(names_of(shortcut_views(shortcuts@).take(i as int)) =~= sviews(r@));
    }
    assert(shortcut_views(shortcuts@).take(shortcuts.len() as int) =~= shortcut_views(
        shortcuts@,
    ));
    r
}

/// The index of the first shortcut named `name`.
pub open spec fn name_position(s: Seq<ShortcutView>, name: Seq<char>) -> Option<int> {
    position(names_of(s), name)
}

pub(crate) fn find_index(shortcuts: &[Shortcut], name: &str) -> (r: Option<usize>)
    ensures
        r matches Some(i) ==> name_position(shortcut_views(shortcuts@), name@) == Some(i as int)
            && i < shortcuts.len(),
        r is None ==> name_position(shortcut_views(shortcuts@), name@) is None,
{
    let ghost ns = names_of(shortcut_views(shortcuts@));
    let mut j: usize = 0;
    while j < shortcuts.len()
        invariant
            j <= shortcuts.len(),
            ns == names_of(shortcut_views(shortcuts@)),
            forall|k: int| 0 <= k < j ==> ns[k] != name@,
        decreases shortcuts.len() - j,
    {
        if crate::text::str_eq(shortcuts[j].name.as_str(), name) {
            proof {
                crate::history::lemma_position_is(ns, name@, j as int);
            }
            return Some(j);
        }
        j += 1;
    }
    proof {
        lemma_position(ns, name@);
        if let Some(k) = position(ns, name@) {
            assert(ns[k] == name@);
        }
    }
    None
}

/// The shortcut list after adding or updating `name`: a shortcut with that
/// name gets the new command and tags in place (`false`), otherwise the new
/// shortcut is appended (`true`); an empty name or command is refused.
pub open spec fn added(
    s: Seq<ShortcutView>,
    name: Seq<char>,
    command: Seq<char>,
    tags: Seq<Seq<char>>,
) -> Option<(Seq<ShortcutView>, bool)> {
    if trim(name).len() == 0 || trim(command).len() == 0 {
        None
    } else {
        match name_position(s, name) {
            Some(i) => Some((s.update(i, ShortcutView { name: s[i].name, tags, command }), false)),
            None => Some((s.push(ShortcutView { name, tags, command }), true)),
        }
    }
}

/// Adds the shortcut `name`, or updates its command and tags if it exists;
/// the flag tells whether it was added.
pub fn add_shortcut_with_tags(
    shortcuts: Vec<Shortcut>,
    name: &str,
    command: &str,
    tags: &[String],
) -> (r: Result<(Vec<Shortcut>, bool), ShortcutError>)
    ensures
        match added(shortcut_views(shortcuts@), name@, command@, sviews(tags@)) {
            Some((s, b)) => r matches Ok((v, flag)) && shortcut_views(v@) == s && flag == b,
            None => r == Err::<(Vec<Shortcut>, bool), ShortcutError>(
                ShortcutError::EmptyNewShortcut,
            ),
        },
{
    let tn = crate::text::trim_str(name);
    let tc = crate::text::trim_str(command);
    if tn.as_str().is_empty() || tc.as_str().is_empty() {
        return Err(ShortcutError::EmptyNewShortcut);
    }
    let tag_list = crate::history::tail_strings(tags, 0);
    assert(sviews(tags@).skip(0) =~= sviews(tags@));
    let mut shortcuts = shortcuts;
    let ghost s = shortcut_views(shortcuts@);
    match find_index(shortcuts.as_slice(), name) {
        Some(i) => {
            let existing_name = shortcuts[i].name.clone();
            let updated = Shortcut { name: existing_name, tags: tag_list, command: String::from_str(command) };
            let ghost uv = updated@;
            shortcuts.set(i, updated);
            assert(shortcut_views(shortcuts@) =~= s.update(i as int, uv));
            Ok((shortcuts, false))
        },
        None => {
            let fresh = Shortcut {
                name: String::from_str(name),
                tags: tag_list,
                command: String::from_str(command),
            };
            let ghost fv = fresh@;
            shortcuts.push(fresh);
            assert(shortcut_views(shortcuts@) =~= s.push(fv));
            Ok((shortcuts, true))
        },
    }
}

/// The shortcuts not named `name`.
pub open spec fn without_name(s: Seq<ShortcutView>, name: Seq<char>) -> Seq<ShortcutView> {
    s.filter(|x: ShortcutView| x.name != name)
}

/// Removes every shortcut named `name`; the flag tells whether any was removed.
pub fn delete_shortcut(shortcuts: Vec<Shortcut>, name: &str) -> (r: (Vec<Shortcut>, bool))
    ensures
        shortcut_views(r.0@) == without_name(shortcut_views(shortcuts@), name@),
        r.1 == (without_name(shortcut_views(shortcuts@), name@).len() != shortcuts@.len()),
{
    let ghost s = shortcut_views(shortcuts@);
    let ghost keep = |x: ShortcutView| x.name != name@;
    let mut out: Vec<Shortcut> = Vec::new();
    let mut i: usize = 0;
    let original_len = shortcuts.len();
    assert(shortcut_views(out@) =~= s.take(0).filter(keep)) by {
        reveal(Seq::filter);
    }
    while i < shortcuts.len()
        invariant
            i <= shortcuts.len(),
            s == shortcut_views(shortcuts@),
            keep == (|x: ShortcutView| x.name != name@),
            shortcut_views(out@) == s.take(i as int).filter(keep),
        decreases shortcuts.len() - i,
    {
        proof {
            assert(s.take(i + 1) =~= s.take(i as int).push(s[i as int]));
            s.take(i as int).lemma_filter_push(s[i as int], keep);
        }
        if !crate::text::str_eq(shortcuts[i].name.as_str(), name) {
            let ghost old_out = shortcut_views(out@);
            let c = copy_shortcut(&shortcuts[i]);
            out.push(c);
            assert(shortcut_views(out@) =~= old_out.push(s[i as int]));
        }
        i += 1;
    }
    assert(s.take(shortcuts.len() as int) =~= s);
    let removed = out.len() != original_len;
    (out, removed)
}


/// The first shortcut named exactly `input`.
pub fn find_shortcut<'a>(shortcuts: &'a [Shortcut], input: &str) -> (r: Option<&'a Shortcut>)
    ensures
        match name_position(shortcut_views(shortcuts@), input@) {
            Some(i) => r matches Some(x) && *x == shortcuts@[i],
            None => r is None,
        },
{
    match find_index(shortcuts, input) {
        Some(i) => Some(&shortcuts[i]),
        None => None,
    }
}

/// Whether one of `tags` equals `tag` when ASCII case is ignored.
pub open spec fn has_tag(tags: Seq<Seq<char>>, tag: Seq<char>) -> bool {
    exists|i: int| 0 <= i < tags.len() && crate::text::eq_ignore_ascii_case(tags[i], tag)
}

fn has_tag_exec(tags: &[String], tag: &str) -> (r: bool)
    ensures
        r == has_tag(sviews(tags@), tag@),
{
    let mut i: usize = 0;
    while i < tags.len()
        invariant
            i <= tags.len(),
            forall|k: int| 0 <= k < i ==> !crate::text::eq_ignore_ascii_case(sviews(tags@)[k], tag@),
        decreases tags.len() - i,
    {
        if crate::text::str_eq_ignore_ascii_case(tags[i].as_str(), tag) {
            assert(crate::text::eq_ignore_ascii_case(sviews(tags@)[i as int], tag@));
            return true;
        }
        i += 1;
    }
    false
}

/// The shortcuts that carry `tag` (ASCII case ignored), in order.
pub open spec fn with_tag(s: Seq<ShortcutView>, tag: Seq<char>) -> Seq<ShortcutView> {
    s.filter(|x: ShortcutView| has_tag(x.tags, tag))
}

/// What a filter keeps was among the filtered items.
pub(crate) proof fn lemma_filter_from<A>(s: Seq<A>, p: spec_fn(A) -> bool)
    ensures
        forall|x: A| #[trigger] s.filter(p).contains(x) ==> s.contains(x),
    decreases s.len(),
{
    reveal(Seq::filter);
    if s.len() > 0 {
        let d = s.drop_last();
        lemma_filter_from(d, p);
        assert forall|x: A| #[trigger] s.filter(p).contains(x) implies s.contains(x) by {
            let f = s.filter(p);
            let df = d.filter(p);
            let j = choose|j: int| 0 <= j < f.len() && f[j] == x;
            if p(s.last()) && j == f.len() - 1 {
                assert(f == df.push(s.last()));
                assert(s[s.len() - 1] == x);
            } else {
                if p(s.last()) {
                    assert(f == df.push(s.last()));
                } else {
                    assert(f == df);
                }
                assert(df[j] == x);
                assert(df.contains(x));
                let k = choose|k: int| 0 <= k < d.len() && d[k] == x;
                assert(s[k] == x);
            }
        }
    }
}

/// The positions that a filter keeps: strictly increasing, exactly the
/// positions whose items satisfy the predicate, in order.
pub(crate) proof fn lemma_filter_positions<A>(s: Seq<A>, p: spec_fn(A) -> bool) -> (idx: Seq<int>)
    ensures
        idx.len() == s.filter(p).len(),
        forall|k: int|
            0 <= k < idx.len() ==> 0 <= #[trigger] idx[k] < s.len() && s.filter(p)[k] == s[idx[k]],
        forall|a: int, b: int| 0 <= a < b < idx.len() ==> idx[a] < idx[b],
        forall|i: int|
            0 <= i < s.len() ==> (p(#[trigger] s[i]) <==> exists|k: int|
                0 <= k < idx.len() && idx[k] == i),
    decreases s.len(),
{
    reveal(Seq::filter);
    if s.len() == 0 {
        Seq::empty()
    } else {
        let d = s.drop_last();
        let r = lemma_filter_positions(d, p);
        let n = s.len() - 1;
        if p(s.last()) {
            let idx = r.push(n);
            assert(s.filter(p) == d.filter(p).push(s.last()));
            assert forall|k: int| 0 <= k < idx.len() implies 0 <= #[trigger] idx[k] < s.len()
                && s.filter(p)[k] == s[idx[k]] by {
                if k < r.len() {
                    assert(d[r[k]] == s[r[k]]);
                }
            }
            assert forall|i: int| 0 <= i < s.len() implies (p(#[trigger] s[i]) <==> exists|k: int|
                0 <= k < idx.len() && idx[k] == i) by {
                if i < n {
                    assert(d[i] == s[i]);
                    if exists|k: int| 0 <= k < idx.len() && idx[k] == i {
                        let k = choose|k: int| 0 <= k < idx.len() && idx[k] == i;
                        assert(k < r.len());
                        assert(r[k] == i);
                    }
                    if exists|k: int| 0 <= k < r.len() && r[k] == i {
                        let k = choose|k: int| 0 <= k < r.len() && r[k] == i;
                        assert(idx[k] == i);
                    }
                } else {
                    assert(idx[r.len() as int] == i);
                }
            }
            idx
        } else {
            assert(s.filter(p) == d.filter(p));
            assert forall|k: int| 0 <= k < r.len() implies 0 <= #[trigger] r[k] < s.len()
                && s.filter(p)[k] == s[r[k]] by {
                assert(d[r[k]] == s[r[k]]);
            }
            assert forall|i: int| 0 <= i < s.len() implies (p(#[trigger] s[i]) <==> exists|k: int|
                0 <= k < r.len() && r[k] == i) by {
                if i < n {
                    assert(d[i] == s[i]);
                } else {
                    if exists|k: int| 0 <= k < r.len() && r[k] == i {
                        let k = choose|k: int| 0 <= k < r.len() && r[k] == i;
                        assert(r[k] < d.len());
                    }
                }
            }
            r
        }
    }
}

/// Filtering shortcuts by a tag keeps exactly the shortcuts that carry the
/// tag at some position of their tag list, ASCII case ignored: every
/// shortcut with such a tag is kept, and every kept shortcut is one of the
/// given shortcuts and has such a tag.
pub proof fn lemma_tag_filter(s: Seq<ShortcutView>, tag: Seq<char>)
    ensures
        forall|i: int, j: int|
            0 <= i < s.len() && 0 <= j < s[i].tags.len() && crate::text::eq_ignore_ascii_case(
                #[trigger] s[i].tags[j],
                tag,
            ) ==> with_tag(s, tag).contains(s[i]),
        forall|x: ShortcutView|
            #[trigger] with_tag(s, tag).contains(x) ==> s.contains(x) && exists|j: int|
                0 <= j < x.tags.len() && crate::text::eq_ignore_ascii_case(x.tags[j], tag),
        exists|idx: Seq<int>|
            #![trigger idx.len()]
            {
                &&& idx.len() == with_tag(s, tag).len()
                &&& forall|k: int|
                    0 <= k < idx.len() ==> 0 <= #[trigger] idx[k] < s.len() && with_tag(s, tag)[k]
                        == s[idx[k]]
                &&& forall|a: int, b: int| 0 <= a < b < idx.len() ==> idx[a] < idx[b]
                &&& forall|i: int|
                    #![trigger s[i]]
                    0 <= i < s.len() ==> ((exists|j: int|
                        0 <= j < s[i].tags.len() && crate::text::eq_ignore_ascii_case(
                            s[i].tags[j],
                            tag,
                        )) <==> exists|k: int| 0 <= k < idx.len() && idx[k] == i)
            },
{
    let p = |x: ShortcutView| has_tag(x.tags, tag);
    let idx = lemma_filter_positions(s, p);
    assert forall|i: int|
        #![trigger s[i]]
        0 <= i < s.len() implies ((exists|j: int|
            0 <= j < s[i].tags.len() && crate::text::eq_ignore_ascii_case(s[i].tags[j], tag))
            <==> exists|k: int| 0 <= k < idx.len() && idx[k] == i) by {
        assert(p(s[i]) == has_tag(s[i].tags, tag));
    }
    assert forall|i: int, j: int|
        0 <= i < s.len() && 0 <= j < s[i].tags.len() && crate::text::eq_ignore_ascii_case(
            #[trigger] s[i].tags[j],
            tag,
        ) implies with_tag(s, tag).contains(s[i]) by {
        assert(p(s[i]));
        s.lemma_filter_contains(p, i);
    }
    lemma_filter_from(s, p);
    assert forall|x: ShortcutView| #[trigger] with_tag(s, tag).contains(x) implies exists|j: int|
        0 <= j < x.tags.len() && crate::text::eq_ignore_ascii_case(x.tags[j], tag) by {
        let f = with_tag(s, tag);
        let k = choose|k: int| 0 <= k < f.len() && f[k] == x;
        s.lemma_filter_pred(p, k);
    }
}

/// The shortcuts that carry `tag`, ASCII case ignored, in order.
pub fn filter_shortcuts_by_tag<'a>(shortcuts: &'a [Shortcut], tag: &str) -> (r: Vec<&'a Shortcut>)
    ensures
        r@.map_values(|x: &Shortcut| x@) == with_tag(shortcut_views(shortcuts@), tag@),
{
    let ghost s = shortcut_views(shortcuts@);
    let ghost keep = |x: ShortcutView| has_tag(x.tags, tag@);
    let mut out: Vec<&'a Shortcut> = Vec::new();
    let mut i: usize = 0;
    assert(out@.map_values(|x: &Shortcut| x@) =~= s.take(0).filter(keep)) by {
        reveal(Seq::filter);
    }
    while i < shortcuts.len()
        invariant
            i <= shortcuts.len(),
            s == shortcut_views(shortcuts@),
            keep == (|x: ShortcutView| has_tag(x.tags, tag@)),
            out@.map_values(|x: &Shortcut| x@) == s.take(i as int).filter(keep),
        decreases shortcuts.len() - i,
    {
        proof {
            assert(s.take(i + 1) =~= s.take(i as int).push(s[i as int]));
            s.take(i as int).lemma_filter_push(s[i as int], keep);
        }
        if has_tag_exec(shortcuts[i].tags.as_slice(), tag) {
            let ghost old_out = out@.map_values(|x: &Shortcut| x@);
            out.push(&shortcuts[i]);
            assert(out@.map_values(|x: &Shortcut| x@) =~= old_out.push(s[i as int]));
        }
        i += 1;
    }
    assert(s.take(shortcuts.len() as int) =~= s);
    out
}

// ---------------------------------------------------------------------------
// Template expansion
// ---------------------------------------------------------------------------

/// The placeholder text `{key}`.
pub open spec fn braced(key: Seq<char>) -> Seq<char> {
    seq!['{'] + key + seq!['}']
}

/// `command` with, for each `(key, value)` in turn, every `{key}` replaced by `value`.
pub open spec fn expanded(command: Seq<char>, args: Seq<(Seq<char>, Seq<char>)>) -> Seq<char>
    decreases args.len(),
{
    if args.len() == 0 {
        command
    } else {
        crate::text::replace_all(
            expanded(command, args.drop_last()),
            braced(args.last().0),
            args.last().1,
        )
    }
}

/// The values of a list of string pairs.
pub open spec fn pair_views(v: Seq<(String, String)>) -> Seq<(Seq<char>, Seq<char>)> {
    v.map_values(|p: (String, String)| (p.0@, p.1@))
}

/// Replaces every `{key}` occurrence in `command` with the matching value
/// from `args`, taking the pairs in the order given.
pub fn expand_template(command: &str, args: &[(String, String)]) -> (r: String)
    ensures
        r@ == expanded(command@, pair_views(args@)),
{
    let mut cur = chars_of(command);
    let mut i: usize = 0;
    while i < args.len()
        invariant
            i <= args.len(),
            cur@ == expanded(command@, pair_views(args@).take(i as int)),
        decreases args.len() - i,
    {
        let mut pat: Vec<char> = Vec::new();
        pat.push('{');
        crate::text::extend_str(&mut pat, args[i].0.as_str());
        pat.push('}');
        let value = chars_of(args[i].1.as_str());
        assert(pat@ =~= braced(args@[i as int].0@));
        cur = crate::text::replace_chars(cur.as_slice(), pat.as_slice(), value.as_slice());
        i += 1;
        assert(pair_views(args@).take(i as int).drop_last() =~= pair_views(args@).take(
            i - 1,
        ));
    }
    assert(pair_views(args@).take(args.len() as int) =~= pair_views(args@));
    string_of(cur.as_slice())
}

/// The value given for `name`: the first pair with that key.
pub open spec fn value_for(values: Seq<(Seq<char>, Seq<char>)>, name: Seq<char>) -> Option<
    Seq<char>,
> {
    match position(keys_of(values), name) {
        Some(i) => Some(values[i].1),
        None => None,
    }
}

/// The template `s` with its placeholders filled in: scanning as
/// [`fields_from`] does, each closed `{t}` that describes a field (in any of
/// its forms `{name}`, `{name?default}`, `{name!}`, `{name?default!}`) and
/// whose name has a value becomes that value; all other text is kept.
pub open spec fn filled(s: Seq<char>, values: Seq<(Seq<char>, Seq<char>)>) -> Seq<char>
    decreases s.len(),
{
    if s.len() == 0 {
        s
    } else if s[0] == '{' {
        let rest = s.drop_first();
        match index_of(rest, '}') {
            None => s,
            Some(j) => {
                proof {
                    lemma_index_of(rest, '}');
                }
                let t = rest.take(j);
                let after = rest.skip(j + 1);
                match template_field_of(t) {
                    Some(f) => match value_for(values, f.name) {
                        Some(v) => v + filled(after, values),
                        None => braced(t) + filled(after, values),
                    },
                    None => braced(t) + filled(after, values),
                }
            },
        }
    } else {
        seq![s[0]] + filled(s.drop_first(), values)
    }
}

/// The fields found after `acc` start with `acc` itself.
proof fn lemma_fields_from_keeps(s: Seq<char>, acc: Seq<FieldView>)
    ensures
        fields_from(s, acc).len() >= acc.len(),
        forall|i: int| 0 <= i < acc.len() ==> #[trigger] fields_from(s, acc)[i] == acc[i],
    decreases s.len(),
{
    if s.len() > 0 {
        if s[0] == '{' {
            let rest = s.drop_first();
            lemma_index_of(rest, '}');
            if let Some(j) = index_of(rest, '}') {
                let after = rest.skip(j + 1);
                match template_field_of(rest.take(j)) {
                    Some(f) => if has_field(acc, f.name) {
                        lemma_fields_from_keeps(after, acc);
                    } else {
                        lemma_fields_from_keeps(after, acc.push(f));
                        assert forall|i: int| 0 <= i < acc.len() implies #[trigger] fields_from(
                            s,
                            acc,
                        )[i] == acc[i] by {
                            assert(acc.push(f)[i] == acc[i]);
                        }
                    },
                    None => lemma_fields_from_keeps(after, acc),
                }
            }
        } else {
            lemma_fields_from_keeps(s.drop_first(), acc);
        }
    }
}

/// A template without placeholders is left as it is, whatever values are
/// given.
pub proof fn lemma_fill_without_fields(s: Seq<char>, values: Seq<(Seq<char>, Seq<char>)>)
    requires
        template_fields(s).len() == 0,
    ensures
        filled(s, values) == s,
    decreases s.len(),
{
    let e = Seq::<FieldView>::empty();
    if s.len() > 0 {
        if s[0] == '{' {
            let rest = s.drop_first();
            lemma_index_of(rest, '}');
            if let Some(j) = index_of(rest, '}') {
                let t = rest.take(j);
                let after = rest.skip(j + 1);
                match template_field_of(t) {
                    Some(f) => {
                        lemma_fields_from_keeps(after, e.push(f));
                    },
                    None => {
                        lemma_fill_without_fields(after, values);
                        assert(braced(t) + after =~= s);
                    },
                }
            }
        } else {
            lemma_fill_without_fields(s.drop_first(), values);
            assert(seq![s[0]] + s.drop_first() =~= s);
        }
    }
}

/// The answers to the fields `fs`: each field's name with the value given
/// for it, in order.
pub open spec fn answers_for(fs: Seq<FieldView>, vals: Seq<Seq<char>>) -> Seq<
    (Seq<char>, Seq<char>),
> {
    Seq::new(fs.len(), |i: int| (fs[i].name, vals[i]))
}

/// The template `s` with each placeholder replaced: scanning as [`filled`]
/// does, every closed `{t}` that describes a field becomes the value that
/// `values` gives for the field's name.
pub open spec fn substituted(s: Seq<char>, values: Seq<(Seq<char>, Seq<char>)>) -> Seq<char>
    decreases s.len(),
{
    if s.len() == 0 {
        s
    } else if s[0] == '{' {
        let rest = s.drop_first();
        match index_of(rest, '}') {
            None => s,
            Some(j) => {
                proof {
                    lemma_index_of(rest, '}');
                }
                let t = rest.take(j);
                let after = rest.skip(j + 1);
                match template_field_of(t) {
                    Some(f) => value_for(values, f.name)->0 + substituted(after, values),
                    None => braced(t) + substituted(after, values),
                }
            },
        }
    } else {
        seq![s[0]] + substituted(s.drop_first(), values)
    }
}

/// When every field found in `s` after `acc` has a value, filling in `s`
/// replaces every placeholder.
proof fn lemma_filled_all(
    s: Seq<char>,
    acc: Seq<FieldView>,
    values: Seq<(Seq<char>, Seq<char>)>,
)
    requires
        forall|n: Seq<char>| has_field(fields_from(s, acc), n) ==> value_for(values, n) is Some,
    ensures
        filled(s, values) == substituted(s, values),
    decreases s.len(),
{
    if s.len() > 0 {
        if s[0] == '{' {
            let rest = s.drop_first();
            lemma_index_of(rest, '}');
            if let Some(j) = index_of(rest, '}') {
                let after = rest.skip(j + 1);
                match template_field_of(rest.take(j)) {
                    Some(f) => {
                        let acc2 = if has_field(acc, f.name) {
                            acc
                        } else {
                            acc.push(f)
                        };
                        assert(fields_from(s, acc) == fields_from(after, acc2));
                        lemma_fields_from_keeps(after, acc2);
                        let i = if has_field(acc, f.name) {
                            choose|i: int| 0 <= i < acc.len() && acc[i].name == f.name
                        } else {
                            acc.len() as int
                        };
                        assert(acc2[i].name == f.name);
                        assert(fields_from(after, acc2)[i].name == f.name);
                        assert(has_field(fields_from(s, acc), f.name));
                        lemma_filled_all(after, acc2, values);
                    },
                    None => {
                        assert(fields_from(s, acc) == fields_from(after, acc));
                        lemma_filled_all(after, acc, values);
                    },
                }
            }
        } else {
            assert(fields_from(s, acc) == fields_from(s.drop_first(), acc));
            lemma_filled_all(s.drop_first(), acc, values);
        }
    }
}

/// Answering the placeholders of a command template one field after the
/// other fills in the whole command: each field, however often and in
/// whichever form it occurs, takes the value given for it, and every closed
/// `{t}` that describes a field is replaced.
pub proof fn lemma_prompt_expansion(command: Seq<char>, vals: Seq<Seq<char>>)
    requires
        vals.len() == template_fields(command).len(),
    ensures
        forall|i: int|
            0 <= i < vals.len() ==> value_for(
                answers_for(template_fields(command), vals),
                #[trigger] template_fields(command)[i].name,
            ) == Some(vals[i]),
        filled(command, answers_for(template_fields(command), vals)) == substituted(
            command,
            answers_for(template_fields(command), vals),
        ),
{
    let fs = template_fields(command);
    let a = answers_for(fs, vals);
    let ks = keys_of(a);
    lemma_template_fields_distinct(command);
    assert forall|i: int| 0 <= i < vals.len() implies value_for(a, #[trigger] fs[i].name) == Some(
        vals[i],
    ) by {
        assert(ks[i] == fs[i].name);
        assert forall|l: int| 0 <= l < i implies ks[l] != fs[i].name by {
            assert(ks[l] == fs[l].name);
        }
        crate::history::lemma_position_is(ks, fs[i].name, i);
    }
    assert forall|n: Seq<char>| has_field(fields_from(command, Seq::empty()), n) implies value_for(
        a,
        n,
    ) is Some by {
        let i = choose|i: int| 0 <= i < fs.len() && fs[i].name == n;
        assert(value_for(a, fs[i].name) == Some(vals[i]));
    }
    lemma_filled_all(command, Seq::empty(), a);
}

/// The index of the first pair with key `name`.
fn find_value(values: &[(String, String)], name: &str) -> (r: Option<usize>)
    ensures
        r matches Some(i) ==> position(keys_of(pair_views(values@)), name@) == Some(i as int)
            && i < values.len(),
        r is None ==> position(keys_of(pair_views(values@)), name@) is None,
{
    let ghost ks = keys_of(pair_views(values@));
    let mut j: usize = 0;
    while j < values.len()
        invariant
            j <= values.len(),
            ks == keys_of(pair_views(values@)),
            forall|k: int| 0 <= k < j ==> ks[k] != name@,
        decreases values.len() - j,
    {
        if crate::text::str_eq(values[j].0.as_str(), name) {
            proof {
                crate::history::lemma_position_is(ks, name@, j as int);
            }
            return Some(j);
        }
        j += 1;
    }
    proof {
        lemma_position(ks, name@);
        if let Some(k) = position(ks, name@) {
            assert(ks[k] == name@);
        }
    }
    None
}

/// Fills in the placeholders of `command` with the values given by name:
/// every closed `{...}` that describes a field, in any of its forms, whose
/// name has a value, is replaced by that value; the rest of the text stays.
pub fn fill_template(command: &str, values: &[(String, String)]) -> (r: String)
    ensures
        r@ == filled(command@, pair_views(values@)),
{
    let ghost vs = pair_views(values@);
    let v = chars_of(command);
    let mut out: Vec<char> = Vec::new();
    let mut i: usize = 0;
    assert(v@.skip(0) =~= v@);
    while i < v.len()
        invariant
            i <= v.len(),
            v@ == command@,
            vs == pair_views(values@),
            filled(command@, vs) == out@ + filled(v@.skip(i as int), vs),
        decreases v.len() - i,
    {
        let ghost s = v@.skip(i as int);
        if v[i] == '{' {
            let ghost rest = s.drop_first();
            assert(rest =~= v@.subrange(i + 1, v.len() as int));
            match find_char(v.as_slice(), i + 1, v.len(), '}') {
                None => {
                    proof {
                        lemma_index_of(rest, '}');
                    }
                    let tail = sub_chars(v.as_slice(), i, v.len());
                    assert(tail@ =~= s);
                    crate::text::extend_chars(&mut out, tail.as_slice());
                    assert(v@.skip(v.len() as int) =~= Seq::<char>::empty());
                    assert(out@ + Seq::<char>::empty() =~= out@);
                    i = v.len();
                },
                Some(j) => {
                    let ghost t = v@.subrange(i + 1, j as int);
                    proof {
                        lemma_index_of(rest, '}');
                        assert(rest.take(j - i - 1) =~= t);
                        assert(rest.skip(j - i) =~= v@.skip(j + 1));
                    }
                    let ghost before = out@;
                    let mut done = false;
                    match parse_template_field_range(v.as_slice(), i + 1, j) {
                        Some(f) => {
                            match find_value(values, f.name.as_str()) {
                                Some(k) => {
                                    crate::text::extend_str(&mut out, values[k].1.as_str());
                                    assert(out@ == before + vs[k as int].1);
                                    done = true;
                                },
                                None => {},
                            }
                        },
                        None => {},
                    }
                    if !done {
                        let b = sub_chars(v.as_slice(), i, j + 1);
                        assert(b@ =~= braced(t));
                        crate::text::extend_chars(&mut out, b.as_slice());
                    }
                    proof {
                        assert(filled(s, vs) == out@.skip(before.len() as int) + filled(
                            v@.skip(j + 1),
                            vs,
                        )) by {
                            assert(out@.skip(before.len() as int) =~= out@.subrange(
                                before.len() as int,
                                out@.len() as int,
                            ));
                        }
                        assert(out@ =~= before + out@.skip(before.len() as int));
                    }
                    i = j + 1;
                },
            }
        } else {
            assert(s.drop_first() =~= v@.skip(i + 1));
            let ghost before = out@;
            out.push(v[i]);
            assert(out@ + filled(v@.skip(i + 1), vs) =~= before + (seq![s[0]] + filled(
                s.drop_first(),
                vs,
            )));
            i += 1;
        }
    }
    assert(v@.skip(i as int) =~= Seq::<char>::empty());
    assert(out@ + Seq::<char>::empty() =~= out@);
    string_of(out.as_slice())
}

// ---------------------------------------------------------------------------
// Dangerous commands
// ---------------------------------------------------------------------------

/// What `str::to_lowercase` gives for a string: its Unicode lowercase
/// mapping, which depends on the whole string (a final sigma, for one).
pub uninterp spec fn unicode_lowercase(s: Seq<char>) -> Seq<char>;

/// `str::to_lowercase`: the Unicode lowercase form of `s`. The contract only
/// names the result `unicode_lowercase(s)`; what the mapping does to each
/// character is not stated.
#[verifier::external_body]
pub(crate) fn to_lowercase(s: &str) -> (r: String)
    ensures
        r@ == unicode_lowercase(s@),
{
    s.to_lowercase()
}

/// The patterns that mark a command as dangerous.
pub open spec fn dangerous_patterns() -> Seq<Seq<char>> {
    seq![
        "rm -rf"@,
        "rm -fr"@,
        "del /f"@,
        "del /s"@,
        "del /q"@,
        "format "@,
        "mkfs"@,
        "dd if="@,
        "drop table"@,
        "drop database"@,
        "truncate table"@,
        ":(){:|:&};:"@,
    ]
}

/// A (lowercased) command that holds one of the dangerous patterns.
pub open spec fn holds_dangerous_pattern(lowered: Seq<char>) -> bool {
    exists|i: int|
        0 <= i < dangerous_patterns().len() && crate::text::contains_seq(
            lowered,
            dangerous_patterns()[i],
        )
}

/// Whether an already lowercased command holds one of the dangerous patterns.
pub fn contains_dangerous_pattern(lowered: &str) -> (r: bool)
    ensures
        r == holds_dangerous_pattern(lowered@),
{
    let v = chars_of(lowered);
    let patterns: [&str; 12] = [
        "rm -rf",
        "rm -fr",
        "del /f",
        "del /s",
        "del /q",
        "format ",
        "mkfs",
        "dd if=",
        "drop table",
        "drop database",
        "truncate table",
        ":(){:|:&};:",
    ];
    assert(patterns@.map_values(|p: &str| p@) =~= dangerous_patterns());
    let mut i: usize = 0;
    while i < 12
        invariant
            i <= 12,
            v@ == lowered@,
            patterns@.map_values(|p: &str| p@) == dangerous_patterns(),
            forall|k: int| 0 <= k < i ==> !crate::text::contains_seq(lowered@, dangerous_patterns()[k]),
        decreases 12 - i,
    {
        let p = chars_of(patterns[i]);
        assert(p@ == dangerous_patterns()[i as int]);
        if crate::text::chars_contain(v.as_slice(), p.as_slice()) {
            return true;
        }
        i += 1;
    }
    false
}

/// A lowercased command is dangerous exactly when it holds one of the
/// documented patterns: `rm -rf`, `rm -fr`, `del /f`, `del /s`, `del /q`,
/// `format `, `mkfs`, `dd if=`, `drop table`, `drop database`,
/// `truncate table` or the fork bomb `:(){:|:&};:`, anywhere in it.
pub proof fn lemma_documented_patterns(lowered: Seq<char>)
    ensures
        crate::text::contains_seq(lowered, "rm -rf"@) ==> holds_dangerous_pattern(lowered),
        crate::text::contains_seq(lowered, "rm -fr"@) ==> holds_dangerous_pattern(lowered),
        crate::text::contains_seq(lowered, "del /f"@) ==> holds_dangerous_pattern(lowered),
        crate::text::contains_seq(lowered, "del /s"@) ==> holds_dangerous_pattern(lowered),
        crate::text::contains_seq(lowered, "del /q"@) ==> holds_dangerous_pattern(lowered),
        crate::text::contains_seq(lowered, "format "@) ==> holds_dangerous_pattern(lowered),
        crate::text::contains_seq(lowered, "mkfs"@) ==> holds_dangerous_pattern(lowered),
        crate::text::contains_seq(lowered, "dd if="@) ==> holds_dangerous_pattern(lowered),
        crate::text::contains_seq(lowered, "drop table"@) ==> holds_dangerous_pattern(lowered),
        crate::text::contains_seq(lowered, "drop database"@) ==> holds_dangerous_pattern(lowered),
        crate::text::contains_seq(lowered, "truncate table"@) ==> holds_dangerous_pattern(lowered),
        crate::text::contains_seq(lowered, ":(){:|:&};:"@) ==> holds_dangerous_pattern(lowered),
        holds_dangerous_pattern(lowered) ==> (crate::text::contains_seq(lowered, "rm -rf"@) || crate::text::contains_seq(lowered, "rm -fr"@) || crate::text::contains_seq(lowered, "del /f"@) || crate::text::contains_seq(lowered, "del /s"@) || crate::text::contains_seq(lowered, "del /q"@) || crate::text::contains_seq(lowered, "format "@) || crate::text::contains_seq(lowered, "mkfs"@) || crate::text::contains_seq(lowered, "dd if="@) || crate::text::contains_seq(lowered, "drop table"@) || crate::text::contains_seq(lowered, "drop database"@) || crate::text::contains_seq(lowered, "truncate table"@) || crate::text::contains_seq(lowered, ":(){:|:&};:"@)),
{
    assert(dangerous_patterns()[0] == "rm -rf"@);
    assert(dangerous_patterns()[1] == "rm -fr"@);
    assert(dangerous_patterns()[2] == "del /f"@);
    assert(dangerous_patterns()[3] == "del /s"@);
    assert(dangerous_patterns()[4] == "del /q"@);
    assert(dangerous_patterns()[5] == "format "@);
    assert(dangerous_patterns()[6] == "mkfs"@);
    assert(dangerous_patterns()[7] == "dd if="@);
    assert(dangerous_patterns()[8] == "drop table"@);
    assert(dangerous_patterns()[9] == "drop database"@);
    assert(dangerous_patterns()[10] == "truncate table"@);
    assert(dangerous_patterns()[11] == ":(){:|:&};:"@);
    if holds_dangerous_pattern(lowered) {
        let i = choose|i: int|
            0 <= i < dangerous_patterns().len() && crate::text::contains_seq(
                lowered,
                dangerous_patterns()[i],
            );
        assert(crate::text::contains_seq(lowered, dangerous_patterns()[i]));
    }
}

/// Returns `true` when `command` matches a known dangerous pattern (after
/// Unicode lowercasing).
pub fn is_dangerous(command: &str) -> (r: bool)
    ensures
        r == holds_dangerous_pattern(unicode_lowercase(command@)),
{
    let lowered = to_lowercase(command);
    contains_dangerous_pattern(lowered.as_str())
}


// ---------------------------------------------------------------------------
// Laws of the shortcut edits
// ---------------------------------------------------------------------------

/// After a shortcut is added or updated, looking its name up finds it with
/// the new command and tags, and the other shortcuts are unchanged.
pub proof fn lemma_add_then_find(
    s: Seq<ShortcutView>,
    name: Seq<char>,
    command: Seq<char>,
    tags: Seq<Seq<char>>,
)
    requires
        added(s, name, command, tags) is Some,
    ensures
        ({
            let s2 = added(s, name, command, tags).unwrap().0;
            &&& name_position(s2, name) matches Some(i) && s2[i].command == command && s2[i].tags
                == tags && s2[i].name == name
            &&& forall|j: int| 0 <= j < s.len() && s[j].name != name ==> s2[j] == s[j]
        }),
{
    let ns = names_of(s);
    lemma_position(ns, name);
    let s2 = added(s, name, command, tags).unwrap().0;
    match name_position(s, name) {
        Some(i) => {
            assert(names_of(s2) =~= ns);
            assert(ns[i] == s[i].name);
        },
        None => {
            assert(names_of(s2) =~= ns.push(name));
            crate::history::lemma_position_is(names_of(s2), name, s.len() as int);
            assert forall|j: int| 0 <= j < s.len() implies s2[j] == s[j] by {}
        },
    }
}

/// After the shortcuts named `name` are deleted, none is left, and the
/// others keep their order.
pub proof fn lemma_delete_then_find(s: Seq<ShortcutView>, name: Seq<char>)
    ensures
        name_position(without_name(s, name), name) is None,
        forall|x: ShortcutView| x.name != name ==> (s.contains(x) <==> without_name(s, name).contains(x)),
{
    let keep = |x: ShortcutView| x.name != name;
    let d = without_name(s, name);
    broadcast use vstd::seq_lib::group_filter_ensures;
    lemma_position(names_of(d), name);
    if let Some(i) = name_position(d, name) {
        assert(keep(d[i]));
    }
    assert forall|x: ShortcutView| x.name != name implies (s.contains(x) <==> d.contains(x)) by {
        if s.contains(x) {
            let k = choose|k: int| 0 <= k < s.len() && s[k] == x;
            assert(keep(s[k]));
        }
        if d.contains(x) {
            s.lemma_filter_contains_rev(keep, x);
        }
    }
}


// ---------------------------------------------------------------------------
// Prompting for placeholder values
// ---------------------------------------------------------------------------

/// The default offered for a field: the remembered value at `index`, if
/// there is one, else the field's own default.
pub open spec fn default_for(field: FieldView, remembered: Seq<Seq<char>>, index: int) -> Option<
    Seq<char>,
> {
    if 0 <= index < remembered.len() {
        Some(remembered[index])
    } else {
        field.default_value
    }
}

/// The default offered for a field.
pub fn placeholder_default(field: &TemplateField, remembered: &[String], index: usize) -> (r:
    Option<String>)
    ensures
        match default_for(field@, sviews(remembered@), index as int) {
            Some(d) => r matches Some(x) && x@ == d,
            None => r is None,
        },
{
    if index < remembered.len() {
        Some(remembered[index].clone())
    } else {
        match &field.default_value {
            Some(d) => Some(d.clone()),
            None => None,
        }
    }
}

/// The question asked for a field: `  name [hidden]: ` for a sensitive one,
/// `  name [default: d] (enter to accept, ! to cycle): ` with a default, and
/// `  name: ` otherwise.
pub open spec fn prompt_text(field: FieldView, default: Option<Seq<char>>) -> Seq<char> {
    if field.sensitive {
        "  "@ + field.name + " [hidden]: "@
    } else {
        match default {
            Some(d) => "  "@ + field.name + " [default: "@ + d + "] (enter to accept, ! to cycle): "@,
            None => "  "@ + field.name + ": "@,
        }
    }
}

/// The question asked for a field.
pub fn prompt_label(field: &TemplateField, default: &Option<String>) -> (r: String)
    ensures
        r@ == prompt_text(
            field@,
            match default {
                Some(d) => Some(d@),
                None => None,
            },
        ),
{
    let mut out = chars_of("  ");
    crate::text::extend_str(&mut out, field.name.as_str());
    if field.sensitive {
        crate::text::extend_str(&mut out, " [hidden]: ");
    } else {
        match default {
            Some(d) => {
                crate::text::extend_str(&mut out, " [default: ");
                crate::text::extend_str(&mut out, d.as_str());
                crate::text::extend_str(&mut out, "] (enter to accept, ! to cycle): ");
            },
            None => {
                crate::text::extend_str(&mut out, ": ");
            },
        }
    }
    string_of(out.as_slice())
}

/// What an answer to the question for a field leads to.
#[derive(Clone, Debug)]
pub enum PromptStep {
    /// `!` with remembered values: ask again offering the value at this index.
    Cycle(usize),
    /// `!` without remembered values: say so and ask again.
    NoPrevious,
    /// No answer and no default: the value is required; ask again.
    Required,
    /// The value of the field.
    Accept(String),
}

/// The mathematical value of a [`PromptStep`].
pub enum PromptStepView {
    Cycle(nat),
    NoPrevious,
    Required,
    Accept(Seq<char>),
}

impl View for PromptStep {
    type V = PromptStepView;

    open spec fn view(&self) -> PromptStepView {
        match self {
            PromptStep::Cycle(i) => PromptStepView::Cycle(*i as nat),
            PromptStep::NoPrevious => PromptStepView::NoPrevious,
            PromptStep::Required => PromptStepView::Required,
            PromptStep::Accept(s) => PromptStepView::Accept(s@),
        }
    }
}

/// The step after the raw answer `raw` to the question for a field offered
/// with the remembered value at `index`: a non-sensitive `!` cycles through
/// the remembered values; an empty answer takes the default; an answer that
/// leaves the value empty is refused.
pub open spec fn prompt_step_of(
    field: FieldView,
    remembered: Seq<Seq<char>>,
    index: int,
    raw: Seq<char>,
) -> PromptStepView {
    let input = trim(raw);
    if !field.sensitive && input == "!"@ {
        if remembered.len() == 0 {
            PromptStepView::NoPrevious
        } else {
            PromptStepView::Cycle(((index + 1) % (remembered.len() as int)) as nat)
        }
    } else {
        let value = if input.len() == 0 {
            match default_for(field, remembered, index) {
                Some(d) => d,
                None => Seq::empty(),
            }
        } else {
            input
        };
        if value.len() == 0 {
            PromptStepView::Required
        } else {
            PromptStepView::Accept(value)
        }
    }
}

/// Decides what the answer `raw` to the question for `field` leads to.
pub fn placeholder_step(field: &TemplateField, remembered: &[String], index: usize, raw: &str) -> (r:
    PromptStep)
    requires
        index < usize::MAX,
    ensures
        r@ == prompt_step_of(field@, sviews(remembered@), index as int, raw@),
        r matches PromptStep::Accept(v) ==> v@.len() > 0,
{
    let input = crate::text::trim_str(raw);
    if !field.sensitive && crate::text::str_eq(input.as_str(), "!") {
        if remembered.len() == 0 {
            return PromptStep::NoPrevious;
        } else {
            return PromptStep::Cycle((index + 1) % remembered.len());
        }
    }
    let value = if input.as_str().is_empty() {
        match placeholder_default(field, remembered, index) {
            Some(d) => d,
            None => String::new(),
        }
    } else {
        input
    };
    if value.as_str().is_empty() {
        PromptStep::Required
    } else {
        PromptStep::Accept(value)
    }
}


// ---------------------------------------------------------------------------
// Remembered placeholder values
// ---------------------------------------------------------------------------

/// The values of a list of keys with their value lists.
pub open spec fn value_lists(v: Seq<(String, Vec<String>)>) -> Seq<(Seq<char>, Seq<Seq<char>>)> {
    v.map_values(|p: (String, Vec<String>)| (p.0@, sviews(p.1@)))
}

/// The keys of a list of keyed entries.
pub open spec fn keys_of<V>(m: Seq<(Seq<char>, V)>) -> Seq<Seq<char>> {
    m.map_values(|p: (Seq<char>, V)| p.0)
}

/// The `key=value` pair that a line of `placeholder_values.txt` holds, if
/// any: blank lines, `#` comments, lines without `=`, and lines with an empty
/// key or value hold none.
pub open spec fn placeholder_line(line: Seq<char>) -> Option<(Seq<char>, Seq<char>)> {
    let l = trim(line);
    if l.len() == 0 || l[0] == '#' {
        None
    } else {
        match split_once(l, '=') {
            None => None,
            Some((k, v)) => if trim(k).len() == 0 || trim(v).len() == 0 {
                None
            } else {
                Some((trim(k), trim(v)))
            },
        }
    }
}

/// `m` with `v` appended to the values of `k` (a new key goes last).
pub open spec fn add_value(m: Seq<(Seq<char>, Seq<Seq<char>>)>, k: Seq<char>, v: Seq<char>) -> Seq<
    (Seq<char>, Seq<Seq<char>>),
> {
    match position(keys_of(m), k) {
        Some(i) => m.update(i, (k, m[i].1.push(v))),
        None => m.push((k, seq![v])),
    }
}

/// The remembered values of the lines `ls[i..]`, added to `m`.
pub open spec fn values_from(ls: Seq<Seq<char>>, i: int, m: Seq<(Seq<char>, Seq<Seq<char>>)>) -> Seq<
    (Seq<char>, Seq<Seq<char>>),
>
    decreases ls.len() - i,
{
    if i < 0 || i >= ls.len() {
        m
    } else {
        match placeholder_line(ls[i]) {
            Some((k, v)) => values_from(ls, i + 1, add_value(m, k, v)),
            None => values_from(ls, i + 1, m),
        }
    }
}

/// The remembered values that the text of `placeholder_values.txt` holds,
/// each key with its values in file order.
pub open spec fn placeholder_values_of(content: Seq<char>) -> Seq<(Seq<char>, Seq<Seq<char>>)> {
    values_from(lines(content), 0, Seq::empty())
}

/// The index of the entry for `key`.
pub fn find_key(m: &[(String, Vec<String>)], key: &str) -> (r: Option<usize>)
    ensures
        r matches Some(i) ==> position(keys_of(value_lists(m@)), key@) == Some(i as int) && i
            < m.len(),
        r is None ==> position(keys_of(value_lists(m@)), key@) is None,
{
    let ghost ks = keys_of(value_lists(m@));
    let mut j: usize = 0;
    while j < m.len()
        invariant
            j <= m.len(),
            ks == keys_of(value_lists(m@)),
            forall|k: int| 0 <= k < j ==> ks[k] != key@,
        decreases m.len() - j,
    {
        if crate::text::str_eq(m[j].0.as_str(), key) {
            proof {
                crate::history::lemma_position_is(ks, key@, j as int);
            }
            return Some(j);
        }
        j += 1;
    }
    proof {
        lemma_position(ks, key@);
        if let Some(k) = position(ks, key@) {
            assert(ks[k] == key@);
        }
    }
    None
}

/// Reads the remembered values from the text of `placeholder_values.txt`.
pub fn parse_placeholder_values(content: &str) -> (r: Vec<(String, Vec<String>)>)
    ensures
        value_lists(r@) == placeholder_values_of(content@),
{
    let v = chars_of(content);
    let ls = split_lines(v.as_slice());
    let ghost all = lines(content@);
    let mut m: Vec<(String, Vec<String>)> = Vec::new();
    assert(value_lists(m@) =~= Seq::<(Seq<char>, Seq<Seq<char>>)>::empty());
    let mut i: usize = 0;
    while i < ls.len()
        invariant
            i <= ls.len(),
            vviews(ls@) == all,
            all == lines(content@),
            placeholder_values_of(content@) == values_from(all, i as int, value_lists(m@)),
        decreases ls.len() - i,
    {
        let line = &ls[i];
        assert(line@.subrange(0, line.len() as int) =~= line@);
        let (a, b) = trim_bounds(line.as_slice(), 0, line.len());
        let ghost l = line@.subrange(a as int, b as int);
        if a < b && line[a] != '#' {
            match find_char(line.as_slice(), a, b, '=') {
                Some(e) => {
                    proof {
                        lemma_index_of(l, '=');
                        assert(l.take(e - a) =~= line@.subrange(a as int, e as int));
                        assert(l.skip(e - a + 1) =~= line@.subrange(e + 1, b as int));
                    }
                    let (ka, kb) = trim_bounds(line.as_slice(), a, e);
                    let (va, vb) = trim_bounds(line.as_slice(), e + 1, b);
                    if ka < kb && va < vb {
                        let key = string_of_range(line.as_slice(), ka, kb);
                        let value = string_of_range(line.as_slice(), va, vb);
                        let ghost old_m = value_lists(m@);
                        let ghost kv = key@;
                        let ghost vv = value@;
                        proof {
                            lemma_position(keys_of(old_m), kv);
                        }
                        match find_key(m.as_slice(), key.as_str()) {
                            Some(j) => {
                                let mut entry = (String::new(), Vec::new());
                                std::mem::swap(&mut entry, &mut m[j]);
                                let ghost ev = sviews(entry.1@);
                                assert(ev == old_m[j as int].1);
                                assert(entry.0@ == kv);
                                entry.1.push(value);
                                assert(sviews(entry.1@) =~= ev.push(vv));
                                m.set(j, entry);
                                assert(value_lists(m@) =~= add_value(old_m, kv, vv));
                            },
                            None => {
                                let mut vals: Vec<String> = Vec::new();
                                vals.push(value);
                                assert(sviews(vals@) =~= seq![vv]);
                                m.push((key, vals));
                                assert(value_lists(m@) =~= add_value(old_m, kv, vv));
                            },
                        }
                    }
                },
                None => {},
            }
        }
        i += 1;
    }
    m
}


/// The `key=value` lines of one key's values.
pub open spec fn lines_for(m: Seq<(Seq<char>, Seq<Seq<char>>)>, k: Seq<char>) -> Seq<Seq<char>> {
    match position(keys_of(m), k) {
        Some(i) => m[i].1.map_values(|v: Seq<char>| k + seq!['='] + v),
        None => Seq::empty(),
    }
}

/// The `key=value` lines of the keys `ks`, in that order.
pub open spec fn value_lines(m: Seq<(Seq<char>, Seq<Seq<char>>)>, ks: Seq<Seq<char>>) -> Seq<
    Seq<char>,
>
    decreases ks.len(),
{
    if ks.len() == 0 {
        Seq::empty()
    } else {
        value_lines(m, ks.drop_last()) + lines_for(m, ks.last())
    }
}

/// The text of `placeholder_values.txt` for `m` with its keys listed in the order `ks`.
pub open spec fn render_values_in(m: Seq<(Seq<char>, Seq<Seq<char>>)>, ks: Seq<Seq<char>>) -> Seq<
    char,
> {
    crate::history::render_history_spec(value_lines(m, ks))
}

/// The text of `placeholder_values.txt` that records `values`: the keys in
/// increasing order, each with one `key=value` line per value, in order.
pub fn render_placeholder_values(values: &[(String, Vec<String>)]) -> (r: String)
    requires
        keys_of(value_lists(values@)).no_duplicates(),
    ensures
        exists|ks: Seq<Seq<char>>|
            crate::text::strictly_sorted(ks) && (forall|x: Seq<char>|
                ks.contains(x) <==> keys_of(value_lists(values@)).contains(x)) && r@
                == render_values_in(value_lists(values@), ks),
{
    let ghost m = value_lists(values@);
    let mut keys: Vec<String> = Vec::new();
    let mut i: usize = 0;
    while i < values.len()
        invariant
            i <= values.len(),
            m == value_lists(values@),
            sviews(keys@) == keys_of(m).take(i as int),
        decreases values.len() - i,
    {
        let ghost old_k = sviews(keys@);
        keys.push(values[i].0.clone());
        assert(sviews(keys@) =~= old_k.push(keys_of(m)[i as int]));
        i += 1;
        assert(keys_of(m).take(i as int) =~= sviews(keys@));
    }
    assert(keys_of(m).take(values.len() as int) =~= keys_of(m));
    let sorted = crate::text::sort_strings(keys);
    let ghost ks = sviews(sorted@);
    let mut ls: Vec<String> = Vec::new();
    let mut k: usize = 0;
    while k < sorted.len()
        invariant
            k <= sorted.len(),
            ks == sviews(sorted@),
            m == value_lists(values@),
            sviews(ls@) == value_lines(m, ks.take(k as int)),
        decreases sorted.len() - k,
    {
        proof {
            assert(ks.take(k + 1).drop_last() =~= ks.take(k as int));
            assert(ks.take(k + 1).last() == ks[k as int]);
        }
        let key = &sorted[k];
        match find_key(values, key.as_str()) {
            Some(j) => {
                let entries = &values[j].1;
                let ghost base = sviews(ls@);
                let ghost kv = key@;
                let mut e: usize = 0;
                while e < entries.len()
                    invariant
                        e <= entries.len(),
                        sviews(ls@) == base + sviews(entries@).take(e as int).map_values(
                            |v: Seq<char>| kv + seq!['='] + v,
                        ),
                        kv == key@,
                    decreases entries.len() - e,
                {
                    let mut line = chars_of(key.as_str());
                    line.push('=');
                    crate::text::extend_str(&mut line, entries[e].as_str());
                    let ls_line = string_of(line.as_slice());
                    let ghost lv = ls_line@;
                    assert(lv =~= kv + seq!['='] + sviews(entries@)[e as int]);
                    let ghost before = sviews(ls@);
                    ls.push(ls_line);
                    assert(sviews(ls@) =~= before.push(lv));
                    assert(sviews(entries@).take(e + 1) =~= sviews(entries@).take(e as int).push(
                        sviews(entries@)[e as int],
                    ));
                    e += 1;
                    assert(sviews(ls@) =~= base + sviews(entries@).take(e as int).map_values(
                        |v: Seq<char>| kv + seq!['='] + v,
                    ));
                }
                assert(sviews(entries@).take(entries.len() as int) =~= sviews(entries@));
                assert(m[j as int].1 == sviews(entries@));
            },
            None => {
                assert(sviews(ls@) =~= sviews(ls@) + Seq::<Seq<char>>::empty());
            },
        }
        k += 1;
    }
    assert(ks.take(sorted.len() as int) =~= ks);
    crate::history::render_history(ls.as_slice())
}

/// The values remembered for `k`, none when `k` has no entry.
pub open spec fn values_of_key(m: Seq<(Seq<char>, Seq<Seq<char>>)>, k: Seq<char>) -> Seq<Seq<char>> {
    match position(keys_of(m), k) {
        Some(i) => m[i].1,
        None => Seq::empty(),
    }
}

/// A key with values that `placeholder_values.txt` can hold unchanged: a
/// non-empty trimmed key that does not start with `#` and holds no `=` or
/// line break, with at least one value, each non-empty, trimmed and without
/// line breaks.
pub open spec fn storable_values(k: Seq<char>, vs: Seq<Seq<char>>) -> bool {
    &&& k.len() > 0
    &&& is_trimmed(k)
    &&& k[0] != '#'
    &&& avoids(k, '=') && avoids(k, '\n')
    &&& vs.len() > 0
    &&& forall|j: int|
        0 <= j < vs.len() ==> (#[trigger] vs[j]).len() > 0 && is_trimmed(vs[j]) && avoids(
            vs[j],
            '\n',
        )
}

/// A `key=value` line reads back as that key and value.
proof fn lemma_value_line(k: Seq<char>, v: Seq<char>)
    requires
        k.len() > 0,
        is_trimmed(k),
        k[0] != '#',
        avoids(k, '='),
        avoids(k, '\n'),
        v.len() > 0,
        is_trimmed(v),
        avoids(v, '\n'),
    ensures
        placeholder_line(k + seq!['='] + v) == Some((k, v)),
        crate::history::storable_entry(k + seq!['='] + v),
{
    let l = k + seq!['='] + v;
    assert(l[0] == k[0]);
    assert(l.last() == v.last());
    crate::text::lemma_trim_trimmed(l);
    crate::text::lemma_trim_trimmed(k);
    crate::text::lemma_trim_trimmed(v);
    crate::text::lemma_index_of_is(l, '=', k.len() as int);
    assert(l.take(k.len() as int) =~= k);
    assert(l.skip(k.len() as int + 1) =~= v);
    assert forall|i: int| 0 <= i < l.len() implies l[i] != '\n' by {
        if i < k.len() {
            assert(l[i] == k[i]);
        } else if i > k.len() {
            assert(l[i] == v[i - k.len() - 1]);
        }
    }
}

/// Reading values from a position inside a suffix does not depend on the
/// lines before.
proof fn lemma_values_shift(
    pre: Seq<Seq<char>>,
    r: Seq<Seq<char>>,
    j: int,
    m: Seq<(Seq<char>, Seq<Seq<char>>)>,
)
    requires
        0 <= j <= r.len(),
    ensures
        values_from(pre + r, pre.len() + j, m) == values_from(r, j, m),
    decreases r.len() - j,
{
    if j < r.len() {
        assert((pre + r)[pre.len() + j] == r[j]);
        match placeholder_line(r[j]) {
            Some((k, v)) => lemma_values_shift(pre, r, j + 1, add_value(m, k, v)),
            None => lemma_values_shift(pre, r, j + 1, m),
        }
    }
}

/// The lines of one key are gathered under it.
proof fn lemma_values_collect(
    ls: Seq<Seq<char>>,
    k: Seq<char>,
    vs: Seq<Seq<char>>,
    j: int,
    m: Seq<(Seq<char>, Seq<Seq<char>>)>,
)
    requires
        1 <= j <= vs.len(),
        vs.len() <= ls.len(),
        storable_values(k, vs),
        !keys_of(m).contains(k),
        forall|i: int| 0 <= i < vs.len() ==> ls[i] == k + seq!['='] + vs[i],
    ensures
        values_from(ls, j, m.push((k, vs.take(j)))) == values_from(ls, vs.len() as int, m.push((k, vs))),
    decreases vs.len() - j,
{
    if j < vs.len() {
        let mj = m.push((k, vs.take(j)));
        assert(vs[j].len() > 0 && is_trimmed(vs[j]) && avoids(vs[j], '\n'));
        lemma_value_line(k, vs[j]);
        let ks = keys_of(mj);
        assert(ks[m.len() as int] == k);
        assert forall|i: int| 0 <= i < m.len() implies ks[i] != k by {
            assert(ks[i] == keys_of(m)[i]);
        }
        crate::history::lemma_position_is(ks, k, m.len() as int);
        assert(vs.take(j).push(vs[j]) =~= vs.take(j + 1));
        assert(add_value(mj, k, vs[j]) =~= m.push((k, vs.take(j + 1))));
        lemma_values_collect(ls, k, vs, j + 1, m);
    } else {
        assert(vs.take(j) =~= vs);
    }
}

/// Reading the lines of one key adds the key with its values.
proof fn lemma_values_block(
    k: Seq<char>,
    vs: Seq<Seq<char>>,
    r: Seq<Seq<char>>,
    m: Seq<(Seq<char>, Seq<Seq<char>>)>,
)
    requires
        storable_values(k, vs),
        !keys_of(m).contains(k),
    ensures
        values_from(vs.map_values(|v: Seq<char>| k + seq!['='] + v) + r, 0, m) == values_from(
            r,
            0,
            m.push((k, vs)),
        ),
{
    let b = vs.map_values(|v: Seq<char>| k + seq!['='] + v);
    let ls = b + r;
    assert forall|i: int| 0 <= i < vs.len() implies ls[i] == k + seq!['='] + vs[i] by {}
    assert(vs[0].len() > 0 && is_trimmed(vs[0]) && avoids(vs[0], '\n'));
    lemma_value_line(k, vs[0]);
    crate::history::lemma_position(keys_of(m), k);
    assert(position(keys_of(m), k) is None) by {
        if let Some(i) = position(keys_of(m), k) {
            assert(keys_of(m)[i] == k);
        }
    }
    assert(seq![vs[0]] =~= vs.take(1));
    assert(add_value(m, k, vs[0]) =~= m.push((k, vs.take(1))));
    lemma_values_collect(ls, k, vs, 1, m);
    lemma_values_shift(b, r, 0, m.push((k, vs)));
}

/// Reading the lines of the keys `ks`, followed by more lines, adds each key
/// with its values.
proof fn lemma_values_all(
    m: Seq<(Seq<char>, Seq<Seq<char>>)>,
    ks: Seq<Seq<char>>,
    r: Seq<Seq<char>>,
    acc: Seq<(Seq<char>, Seq<Seq<char>>)>,
)
    requires
        ks.no_duplicates(),
        forall|j: int| 0 <= j < ks.len() ==> !keys_of(acc).contains(#[trigger] ks[j]),
        forall|j: int| 0 <= j < ks.len() ==> storable_values(#[trigger] ks[j], values_of_key(m, ks[j])),
    ensures
        values_from(value_lines(m, ks) + r, 0, acc) == values_from(
            r,
            0,
            acc + ks.map_values(|k: Seq<char>| (k, values_of_key(m, k))),
        ),
    decreases ks.len(),
{
    let f = |k: Seq<char>| (k, values_of_key(m, k));
    if ks.len() == 0 {
        assert(value_lines(m, ks) + r =~= r);
        assert(acc + ks.map_values(f) =~= acc);
    } else {
        let d = ks.drop_last();
        let l = ks.last();
        assert(ks[ks.len() - 1] == l);
        assert(storable_values(l, values_of_key(m, l)));
        assert(!keys_of(acc).contains(l));
        let vs = values_of_key(m, l);
        let b = lines_for(m, l);
        assert(b =~= vs.map_values(|v: Seq<char>| l + seq!['='] + v));
        assert forall|j: int| 0 <= j < d.len() implies !keys_of(acc).contains(#[trigger] d[j]) by {
            assert(d[j] == ks[j]);
        }
        assert forall|j: int| 0 <= j < d.len() implies storable_values(#[trigger] d[j], values_of_key(m, d[j])) by {
            assert(d[j] == ks[j]);
        }
        assert(d.no_duplicates());
        lemma_values_all(m, d, b + r, acc);
        assert(value_lines(m, ks) + r =~= value_lines(m, d) + (b + r));
        let a2 = acc + d.map_values(f);
        assert(!keys_of(a2).contains(l)) by {
            if keys_of(a2).contains(l) {
                let i = choose|i: int| 0 <= i < keys_of(a2).len() && keys_of(a2)[i] == l;
                if i < acc.len() {
                    assert(keys_of(acc)[i] == l);
                } else {
                    assert(d[i - acc.len()] == l);
                    assert(ks[i - acc.len()] == ks[ks.len() - 1]);
                }
            }
        }
        lemma_values_block(l, vs, r, a2);
        assert(a2.push((l, vs)) =~= acc + ks.map_values(f));
    }
}

/// Writing remembered placeholder values to `placeholder_values.txt` and
/// reading the file back gives each key once, in the order written, with
/// its values in order; for keys written once each that, with their values,
/// the file can hold unchanged.
pub proof fn lemma_placeholder_values_round_trip(m: Seq<(Seq<char>, Seq<Seq<char>>)>, ks: Seq<Seq<char>>)
    requires
        ks.no_duplicates(),
        forall|j: int| 0 <= j < ks.len() ==> storable_values(#[trigger] ks[j], values_of_key(m, ks[j])),
    ensures
        placeholder_values_of(render_values_in(m, ks)) == ks.map_values(
            |k: Seq<char>| (k, values_of_key(m, k)),
        ),
{
    let ls = value_lines(m, ks);
    lemma_value_lines_storable(m, ks);
    if ls.len() == 0 {
        assert(lines(Seq::<char>::empty()) =~= Seq::<Seq<char>>::empty());
    } else {
        crate::history::lemma_lines_of_rendered(ls);
    }
    lemma_values_all(m, ks, Seq::empty(), Seq::empty());
    assert(ls + Seq::<Seq<char>>::empty() =~= ls);
    assert(Seq::<(Seq<char>, Seq<Seq<char>>)>::empty() + ks.map_values(
        |k: Seq<char>| (k, values_of_key(m, k)),
    ) =~= ks.map_values(|k: Seq<char>| (k, values_of_key(m, k))));
}

/// Saving remembered values, each key once and each key with its values
/// storable, and loading the file back gives the same keys, each with the
/// same values in the same order, whatever order the keys were written in.
pub proof fn lemma_placeholder_values_reload(
    m: Seq<(Seq<char>, Seq<Seq<char>>)>,
    ks: Seq<Seq<char>>,
)
    requires
        ks.no_duplicates(),
        forall|x: Seq<char>| ks.contains(x) <==> keys_of(m).contains(x),
        forall|i: int| 0 <= i < m.len() ==> storable_values(#[trigger] m[i].0, m[i].1),
    ensures
        forall|x: Seq<char>|
            #[trigger] keys_of(placeholder_values_of(render_values_in(m, ks))).contains(x)
                <==> keys_of(m).contains(x),
        forall|x: Seq<char>|
            #[trigger] values_of_key(placeholder_values_of(render_values_in(m, ks)), x)
                == values_of_key(m, x),
{
    let km = keys_of(m);
    assert forall|j: int| 0 <= j < ks.len() implies storable_values(
        #[trigger] ks[j],
        values_of_key(m, ks[j]),
    ) by {
        assert(ks.contains(ks[j]));
        crate::history::lemma_position(km, ks[j]);
        let i = position(km, ks[j])->0;
        assert(km[i] == m[i].0);
        assert(storable_values(m[i].0, m[i].1));
    }
    lemma_placeholder_values_round_trip(m, ks);
    let r = placeholder_values_of(render_values_in(m, ks));
    assert(keys_of(r) =~= ks);
    assert forall|x: Seq<char>| #[trigger] values_of_key(r, x) == values_of_key(m, x) by {
        crate::history::lemma_position(ks, x);
        crate::history::lemma_position(km, x);
        if let Some(i) = position(ks, x) {
            assert(r[i] == (ks[i], values_of_key(m, ks[i])));
        } else {
            if let Some(j) = position(km, x) {
                assert(km[j] == x);
                assert(km.contains(x));
            }
        }
    }
}

/// The lines of storable keys and values can be written unchanged.
proof fn lemma_value_lines_storable(m: Seq<(Seq<char>, Seq<Seq<char>>)>, ks: Seq<Seq<char>>)
    requires
        forall|j: int| 0 <= j < ks.len() ==> storable_values(#[trigger] ks[j], values_of_key(m, ks[j])),
    ensures
        forall|i: int| 0 <= i < value_lines(m, ks).len() ==> crate::history::storable_entry(
            #[trigger] value_lines(m, ks)[i],
        ),
    decreases ks.len(),
{
    if ks.len() > 0 {
        let d = ks.drop_last();
        let l = ks.last();
        assert(storable_values(ks[ks.len() - 1], values_of_key(m, ks[ks.len() - 1])));
        assert forall|j: int| 0 <= j < d.len() implies storable_values(#[trigger] d[j], values_of_key(m, d[j])) by {
            assert(d[j] == ks[j]);
        }
        lemma_value_lines_storable(m, d);
        let vs = values_of_key(m, l);
        let a = value_lines(m, d);
        let b = lines_for(m, l);
        assert(b =~= vs.map_values(|v: Seq<char>| l + seq!['='] + v));
        assert forall|i: int| 0 <= i < value_lines(m, ks).len() implies crate::history::storable_entry(
            #[trigger] value_lines(m, ks)[i],
        ) by {
            if i >= a.len() {
                let j = i - a.len();
                assert(value_lines(m, ks)[i] == b[j]);
                assert(vs[j].len() > 0 && is_trimmed(vs[j]) && avoids(vs[j], '\n'));
                lemma_value_line(l, vs[j]);
            } else {
                assert(value_lines(m, ks)[i] == a[i]);
            }
        }
    }
}

/// `m` after `value` was used for `key`: the value moves to the front of the
/// key's list (a new key goes last), and the list keeps at most `max_values`.
pub open spec fn remembered(
    m: Seq<(Seq<char>, Seq<Seq<char>>)>,
    key: Seq<char>,
    value: Seq<char>,
    max_values: nat,
) -> Seq<(Seq<char>, Seq<Seq<char>>)> {
    let (m1, i) = match position(keys_of(m), key) {
        Some(i) => (m, i),
        None => (m.push((key, Seq::empty())), m.len() as int),
    };
    m1.update(i, (m1[i].0, moved_to_front(m1[i].1, value, max_values)))
}

/// The list `list` after `value` was used: `value` first, then the other
/// values in their order, at most `max_values` of them.
pub open spec fn moved_to_front(list: Seq<Seq<char>>, value: Seq<char>, max_values: nat) -> Seq<
    Seq<char>,
> {
    let l = seq![value] + list.filter(crate::text::other_than(value));
    if l.len() > max_values {
        l.take(max_values as int)
    } else {
        l
    }
}

/// Remembering `value` for `key` puts it first in the key's list (when the
/// list may hold any value), keeps the list within `max_values` and free of
/// copies if it was, adds the key at the end if it was new, and leaves the
/// other keys' lists unchanged.
pub proof fn lemma_remember_laws(
    m: Seq<(Seq<char>, Seq<Seq<char>>)>,
    key: Seq<char>,
    value: Seq<char>,
    max_values: nat,
)
    ensures
        keys_of(remembered(m, key, value, max_values)) == (if keys_of(m).contains(key) {
            keys_of(m)
        } else {
            keys_of(m).push(key)
        }),
        values_of_key(remembered(m, key, value, max_values), key) == moved_to_front(
            values_of_key(m, key),
            value,
            max_values,
        ),
        max_values > 0 ==> values_of_key(remembered(m, key, value, max_values), key)[0] == value,
        values_of_key(remembered(m, key, value, max_values), key).len() <= max_values,
        values_of_key(m, key).no_duplicates() ==> values_of_key(
            remembered(m, key, value, max_values),
            key,
        ).no_duplicates(),
        forall|x: Seq<char>|
            x != key ==> #[trigger] values_of_key(remembered(m, key, value, max_values), x)
                == values_of_key(m, x),
{
    let ks = keys_of(m);
    lemma_position(ks, key);
    let (m1, i) = match position(ks, key) {
        Some(i) => (m, i),
        None => (m.push((key, Seq::<Seq<char>>::empty())), m.len() as int),
    };
    let r = remembered(m, key, value, max_values);
    let old_list = m1[i].1;
    let p = crate::text::other_than(value);
    let list = seq![value] + old_list.filter(p);
    let kept = if list.len() > max_values {
        list.take(max_values as int)
    } else {
        list
    };
    assert(r == m1.update(i, (m1[i].0, kept)));
    let k1 = keys_of(m1);
    assert(keys_of(r) =~= k1);
    if position(ks, key) is None {
        assert(k1 =~= ks.push(key));
        assert forall|j: int| 0 <= j < m.len() implies k1[j] != key by {
            assert(k1[j] == ks[j]);
        }
        crate::history::lemma_position_is(k1, key, i);
        assert(!ks.contains(key)) by {
            if ks.contains(key) {
                let j = choose|j: int| 0 <= j < ks.len() && ks[j] == key;
                assert(k1[j] == key);
            }
        }
        assert(old_list =~= Seq::<Seq<char>>::empty());
        assert(values_of_key(m, key) =~= Seq::<Seq<char>>::empty());
    } else {
        assert(ks.contains(key));
        assert(k1 == ks);
        assert(values_of_key(m, key) == old_list);
    }
    assert(m1[i].0 == key);
    assert(position(keys_of(r), key) == Some(i));
    assert(values_of_key(r, key) == kept);
    if values_of_key(m, key).no_duplicates() {
        crate::history::lemma_filter_no_duplicates(old_list, p);
        let f = old_list.filter(p);
        assert(!f.contains(value)) by {
            if f.contains(value) {
                let j = choose|j: int| 0 <= j < f.len() && f[j] == value;
                old_list.lemma_filter_pred(p, j);
            }
        }
        assert(list.no_duplicates()) by {
            assert forall|a: int, b: int| 0 <= a < list.len() && 0 <= b < list.len() && a != b implies list[a] != list[b] by {
                if a == 0 {
                    assert(list[b] == f[b - 1]);
                } else if b == 0 {
                    assert(list[a] == f[a - 1]);
                } else {
                    assert(list[a] == f[a - 1] && list[b] == f[b - 1]);
                }
            }
        }
    }
    assert forall|x: Seq<char>| x != key implies #[trigger] values_of_key(r, x) == values_of_key(m, x) by {
        lemma_position(ks, x);
        lemma_position(keys_of(r), x);
        match position(ks, x) {
            Some(j) => {
                assert(keys_of(r)[j] == x);
                assert forall|l: int| 0 <= l < j implies keys_of(r)[l] != x by {
                    assert(keys_of(r)[l] == ks[l]);
                }
                crate::history::lemma_position_is(keys_of(r), x, j);
                assert(r[j] == m[j]);
            },
            None => {
                if let Some(j) = position(keys_of(r), x) {
                    assert(keys_of(r)[j] == x);
                    if j < m.len() {
                        assert(ks[j] == x);
                        assert(ks.contains(x));
                    }
                }
            },
        }
    }
}

/// Records that `value` was used for `key`.
pub fn remember_placeholder_value(
    values: &mut Vec<(String, Vec<String>)>,
    key: &str,
    value: &str,
    max_values: usize,
)
    ensures
        value_lists(final(values)@) == remembered(
            value_lists(old(values)@),
            key@,
            value@,
            max_values as nat,
        ),
{
    let ghost m = value_lists(values@);
    proof {
        lemma_position(keys_of(m), key@);
    }
    let i = match find_key(values.as_slice(), key) {
        Some(i) => i,
        None => {
            let empty_vals: Vec<String> = Vec::new();
            assert(sviews(empty_vals@) =~= Seq::<Seq<char>>::empty());
            values.push((String::from_str(key), empty_vals));
            assert(value_lists(values@) =~= m.push((key@, Seq::empty())));
            values.len() - 1
        },
    };
    let ghost m1 = value_lists(values@);
    let mut entry = (String::new(), Vec::new());
    std::mem::swap(&mut entry, &mut values[i]);
    let ghost keep = crate::text::other_than(value@);
    let ghost old_list = sviews(entry.1@);
    assert(old_list == m1[i as int].1);
    let mut list: Vec<String> = Vec::new();
    list.push(String::from_str(value));
    let mut k: usize = 0;
    assert(sviews(list@) =~= seq![value@] + old_list.take(0).filter(keep)) by {
        reveal(Seq::filter);
    }
    while k < entry.1.len()
        invariant
            k <= entry.1.len(),
            old_list == sviews(entry.1@),
            keep == crate::text::other_than(value@),
            sviews(list@) == seq![value@] + old_list.take(k as int).filter(keep),
        decreases entry.1.len() - k,
    {
        proof {
            assert(old_list.take(k + 1) =~= old_list.take(k as int).push(old_list[k as int]));
            old_list.take(k as int).lemma_filter_push(old_list[k as int], keep);
        }
        if !crate::text::str_eq(entry.1[k].as_str(), value) {
            let ghost before = sviews(list@);
            list.push(entry.1[k].clone());
            assert(sviews(list@) =~= before.push(old_list[k as int]));
        }
        k += 1;
    }
    assert(old_list.take(entry.1.len() as int) =~= old_list);
    let ghost full = sviews(list@);
    if list.len() > max_values {
        list.truncate(max_values);
        assert(sviews(list@) =~= full.take(max_values as int));
    }
    let ghost kept = sviews(list@);
    let ghost kname = entry.0@;
    entry.1 = list;
    values.set(i, entry);
    assert(value_lists(values@) =~= m1.update(i as int, (kname, kept)));
}


/// How many values are remembered for each placeholder.
pub const REMEMBERED_VALUES: usize = 10;

/// Takes the accepted answer `value` for `field`: the answer joins the
/// answers given so far, and, unless the field is sensitive, is remembered
/// for the field's name (sensitive values are never stored).
pub fn record_answer(
    remembered_values: &mut Vec<(String, Vec<String>)>,
    answers: &mut Vec<(String, String)>,
    field: &TemplateField,
    value: String,
)
    ensures
        field.sensitive ==> value_lists(final(remembered_values)@) == value_lists(
            old(remembered_values)@,
        ),
        !field.sensitive ==> value_lists(final(remembered_values)@) == remembered(
            value_lists(old(remembered_values)@),
            field.name@,
            value@,
            REMEMBERED_VALUES as nat,
        ),
        pair_views(final(answers)@) == pair_views(old(answers)@).push((field.name@, value@)),
{
    if !field.sensitive {
        remember_placeholder_value(
            remembered_values,
            field.name.as_str(),
            value.as_str(),
            REMEMBERED_VALUES,
        );
    }
    let ghost before = pair_views(answers@);
    let ghost item = (field.name@, value@);
    answers.push((field.name.clone(), value));
    assert(pair_views(answers@) =~= before.push(item));
}

/// The remembered values after the answers `vals` to the fields `fs`, taken
/// in order: the answer to a field that is not sensitive is remembered for
/// the field's name, and the answer to a sensitive field changes nothing.
pub open spec fn remember_answers(
    m: Seq<(Seq<char>, Seq<Seq<char>>)>,
    fs: Seq<FieldView>,
    vals: Seq<Seq<char>>,
) -> Seq<(Seq<char>, Seq<Seq<char>>)>
    decreases fs.len(),
{
    if fs.len() == 0 {
        m
    } else {
        let n = fs.len() - 1;
        let before = remember_answers(m, fs.drop_last(), vals);
        if fs[n].sensitive {
            before
        } else {
            remembered(before, fs[n].name, vals[n], REMEMBERED_VALUES as nat)
        }
    }
}

/// Whether a field of `fs` that is not sensitive is named `k`.
pub open spec fn answered_name(fs: Seq<FieldView>, k: Seq<char>) -> bool {
    exists|i: int| 0 <= i < fs.len() && !fs[i].sensitive && fs[i].name == k
}

proof fn lemma_answers_remembered(
    m: Seq<(Seq<char>, Seq<Seq<char>>)>,
    fs: Seq<FieldView>,
    vals: Seq<Seq<char>>,
)
    requires
        fs.len() <= vals.len(),
        forall|i: int, j: int| 0 <= i < j < fs.len() ==> fs[i].name != fs[j].name,
    ensures
        forall|i: int|
            0 <= i < fs.len() && !fs[i].sensitive ==> values_of_key(
                remember_answers(m, fs, vals),
                #[trigger] fs[i].name,
            ) == moved_to_front(values_of_key(m, fs[i].name), vals[i], REMEMBERED_VALUES as nat),
        forall|k: Seq<char>|
            !answered_name(fs, k) ==> #[trigger] values_of_key(remember_answers(m, fs, vals), k)
                == values_of_key(m, k),
        forall|k: Seq<char>|
            #[trigger] keys_of(remember_answers(m, fs, vals)).contains(k) <==> (keys_of(
                m,
            ).contains(k) || answered_name(fs, k)),
    decreases fs.len(),
{
    if fs.len() == 0 {
        assert forall|k: Seq<char>| !answered_name(fs, k) by {}
    } else {
        let n = fs.len() - 1;
        let d = fs.drop_last();
        let before = remember_answers(m, d, vals);
        let r = remember_answers(m, fs, vals);
        let name = fs[n].name;
        assert forall|i: int, j: int| 0 <= i < j < d.len() implies d[i].name != d[j].name by {
            assert(d[i] == fs[i] && d[j] == fs[j]);
        }
        lemma_answers_remembered(m, d, vals);
        assert(!answered_name(d, name)) by {
            if answered_name(d, name) {
                let i = choose|i: int| 0 <= i < d.len() && !d[i].sensitive && d[i].name == name;
                assert(d[i] == fs[i]);
            }
        }
        assert forall|k: Seq<char>| k != name implies (answered_name(fs, k) <==> answered_name(
            d,
            k,
        )) by {
            if answered_name(fs, k) {
                let i = choose|i: int| 0 <= i < fs.len() && !fs[i].sensitive && fs[i].name == k;
                assert(d[i] == fs[i]);
            }
            if answered_name(d, k) {
                let i = choose|i: int| 0 <= i < d.len() && !d[i].sensitive && d[i].name == k;
                assert(d[i] == fs[i]);
            }
        }
        if fs[n].sensitive {
            assert(r == before);
            assert(!answered_name(fs, name)) by {
                if answered_name(fs, name) {
                    let i = choose|i: int| 0 <= i < fs.len() && !fs[i].sensitive && fs[i].name
                        == name;
                    assert(d[i] == fs[i]);
                }
            }
            assert forall|i: int| 0 <= i < fs.len() && !fs[i].sensitive implies values_of_key(
                r,
                #[trigger] fs[i].name,
            ) == moved_to_front(values_of_key(m, fs[i].name), vals[i], REMEMBERED_VALUES as nat) by {
                assert(d[i] == fs[i]);
            }
        } else {
            let v = vals[n];
            assert(r == remembered(before, name, v, REMEMBERED_VALUES as nat));
            lemma_remember_laws(before, name, v, REMEMBERED_VALUES as nat);
            assert(answered_name(fs, name));
            assert forall|i: int| 0 <= i < fs.len() && !fs[i].sensitive implies values_of_key(
                r,
                #[trigger] fs[i].name,
            ) == moved_to_front(values_of_key(m, fs[i].name), vals[i], REMEMBERED_VALUES as nat) by {
                if i < n {
                    assert(d[i] == fs[i]);
                    assert(values_of_key(r, fs[i].name) == values_of_key(before, fs[i].name));
                }
            }
            assert forall|k: Seq<char>| #[trigger] keys_of(r).contains(k) <==> (keys_of(
                m,
            ).contains(k) || answered_name(fs, k)) by {
                if k != name {
                    if keys_of(r).contains(k) {
                        if !keys_of(before).contains(k) {
                            let j = choose|j: int| 0 <= j < keys_of(r).len() && keys_of(r)[j] == k;
                            assert(keys_of(before).push(name)[j] == k);
                        }
                    }
                    if keys_of(before).contains(k) {
                        let j = choose|j: int| 0 <= j < keys_of(before).len() && keys_of(before)[j] == k;
                        if !keys_of(before).contains(name) {
                            assert(keys_of(before).push(name)[j] == k);
                        }
                    }
                } else if !keys_of(before).contains(name) {
                    assert(keys_of(before).push(name)[keys_of(before).len() as int] == name);
                }
            }
        }
    }
}

/// Answering the placeholders of a command template, one answer per field,
/// changes the remembered values only for the names of fields that are not
/// sensitive: each such name's list becomes its answer followed by its
/// earlier values other than the answer, at most `REMEMBERED_VALUES` in all,
/// and a new such name is added; every other name, those of sensitive fields
/// among them, keeps its values, or stays absent.
pub proof fn lemma_prompt_remembers(
    m: Seq<(Seq<char>, Seq<Seq<char>>)>,
    command: Seq<char>,
    vals: Seq<Seq<char>>,
)
    requires
        vals.len() == template_fields(command).len(),
    ensures
        forall|i: int|
            0 <= i < vals.len() && !template_fields(command)[i].sensitive ==> values_of_key(
                remember_answers(m, template_fields(command), vals),
                #[trigger] template_fields(command)[i].name,
            ) == moved_to_front(
                values_of_key(m, template_fields(command)[i].name),
                vals[i],
                REMEMBERED_VALUES as nat,
            ),
        forall|k: Seq<char>|
            !answered_name(template_fields(command), k) ==> #[trigger] values_of_key(
                remember_answers(m, template_fields(command), vals),
                k,
            ) == values_of_key(m, k),
        forall|k: Seq<char>|
            #[trigger] keys_of(remember_answers(m, template_fields(command), vals)).contains(k) <==> (
            keys_of(m).contains(k) || answered_name(template_fields(command), k)),
{
    lemma_template_fields_distinct(command);
    lemma_answers_remembered(m, template_fields(command), vals);
}

} // verus!
