//! Inline hints and highlighting for the prompt: prefix completion against
//! the hint list, the length of the best partial match, and fuzzy
//! (subsequence) matching.
//!
//! The editor gives cursor positions in bytes of UTF-8, so positions here are
//! byte offsets, and the spec functions measure text by its UTF-8 length.

use vstd::prelude::*;
use crate::text::{chars_of, is_ws, string_of, sviews};

verus! {

/// The number of bytes that UTF-8 uses for `c` (`char::len_utf8`).
pub open spec fn utf8_width(c: char) -> nat {
    let u = c as u32;
    if u < 0x80 {
        1
    } else if u < 0x800 {
        2
    } else if u < 0x10000 {
        3
    } else {
        4
    }
}

/// The number of bytes that UTF-8 uses for `s` (`str::len`).
pub open spec fn utf8_len(s: Seq<char>) -> nat
    decreases s.len(),
{
    if s.len() == 0 {
        0
    } else {
        utf8_width(s[0]) + utf8_len(s.drop_first())
    }
}

/// `str::get(..pos)`: the characters that fill the first `pos` bytes, if
/// `pos` falls on a character boundary within the string.
pub open spec fn prefix_at_byte(s: Seq<char>, pos: int) -> Option<Seq<char>>
    decreases s.len(),
{
    if pos == 0 {
        Some(Seq::empty())
    } else if s.len() == 0 || pos < 0 {
        None
    } else {
        match prefix_at_byte(s.drop_first(), pos - utf8_width(s[0])) {
            Some(p) => Some(seq![s[0]] + p),
            None => None,
        }
    }
}

/// The number of bytes that UTF-8 uses for `c`.
pub fn char_width(c: char) -> (r: usize)
    ensures
        r == utf8_width(c),
{
    let u = c as u32;
    if u < 0x80 {
        1
    } else if u < 0x800 {
        2
    } else if u < 0x10000 {
        3
    } else {
        4
    }
}

proof fn lemma_utf8_len_push(s: Seq<char>, c: char)
    ensures
        utf8_len(s.push(c)) == utf8_len(s) + utf8_width(c),
    decreases s.len(),
{
    if s.len() > 0 {
        lemma_utf8_len_push(s.drop_first(), c);
        assert(s.push(c).drop_first() =~= s.drop_first().push(c));
        assert(s.push(c)[0] == s[0]);
    } else {
        assert(s.push(c).drop_first() =~= Seq::<char>::empty());
        assert(utf8_len(Seq::<char>::empty()) == 0);
    }
}

proof fn lemma_prefix_at_byte_take(s: Seq<char>, k: int, pos: int)
    requires
        0 <= k <= s.len(),
        pos >= utf8_len(s.take(k)),
    ensures
        prefix_at_byte(s, pos) == match prefix_at_byte(s.skip(k), pos - utf8_len(s.take(k))) {
            Some(p) => Some(s.take(k) + p),
            None => None::<Seq<char>>,
        },
    decreases k,
{
    if k == 0 {
        assert(s.skip(0) =~= s);
        assert(s.take(0) =~= Seq::<char>::empty());
        if let Some(p) = prefix_at_byte(s, pos) {
            assert(Seq::<char>::empty() + p =~= p);
        }
    } else {
        assert(s.take(k).drop_first() =~= s.drop_first().take(k - 1));
        assert(s.drop_first().skip(k - 1) =~= s.skip(k));
        lemma_prefix_at_byte_take(s.drop_first(), k - 1, pos - utf8_width(s[0]));
        if pos == 0 {
            assert(utf8_width(s[0]) > 0);
        }
        match prefix_at_byte(s.skip(k), pos - utf8_len(s.take(k))) {
            Some(p) => {
                assert(seq![s[0]] + (s.drop_first().take(k - 1) + p) =~= s.take(k) + p);
            },
            None => {},
        }
    }
}

/// `line.get(..pos)`.
pub fn prefix_bytes(line: &[char], pos: usize) -> (r: Option<Vec<char>>)
    ensures
        match prefix_at_byte(line@, pos as int) {
            Some(p) => r matches Some(x) && x@ == p,
            None => r is None,
        },
{
    let mut k: usize = 0;
    let mut acc: usize = 0;
    assert(line@.take(0) =~= Seq::<char>::empty());
    while k < line.len() && acc < pos
        invariant
            k <= line.len(),
            acc == utf8_len(line@.take(k as int)),
            acc <= pos,
        decreases line.len() - k,
    {
        let w = char_width(line[k]);
        if w > pos - acc {
            proof {
                lemma_prefix_at_byte_take(line@, k as int, pos as int);
                let rest = line@.skip(k as int);
                assert(rest[0] == line@[k as int]);
                if let Some(p) = prefix_at_byte(rest.drop_first(), pos - acc - w) {
                    assert(false);
                }
            }
            return None;
        }
        proof {
            assert(line@.take(k + 1) =~= line@.take(k as int).push(line@[k as int]));
            lemma_utf8_len_push(line@.take(k as int), line@[k as int]);
        }
        acc += w;
        k += 1;
    }
    proof {
        lemma_prefix_at_byte_take(line@, k as int, pos as int);
        assert(line@.take(k as int) + Seq::<char>::empty() =~= line@.take(k as int));
    }
    if acc == pos {
        Some(crate::text::sub_chars(line, 0, k))
    } else {
        assert(k == line.len());
        assert(line@.skip(k as int) =~= Seq::<char>::empty());
        None
    }
}


/// What `str::get(..pos)` finds is a prefix of the string, `pos` bytes long.
pub proof fn lemma_prefix_at_byte(s: Seq<char>, pos: int)
    ensures
        prefix_at_byte(s, pos) matches Some(p) ==> p.is_prefix_of(s) && utf8_len(p) == pos,
    decreases s.len(),
{
    if pos != 0 && s.len() > 0 && pos >= 0 {
        lemma_prefix_at_byte(s.drop_first(), pos - utf8_width(s[0]));
        if let Some(p) = prefix_at_byte(s.drop_first(), pos - utf8_width(s[0])) {
            let q = seq![s[0]] + p;
            assert(q.drop_first() =~= p);
            assert forall|i: int| 0 <= i < q.len() implies q[i] == s[i] by {
                if i > 0 {
                    assert(q[i] == p[i - 1]);
                }
            }
            assert(q =~= s.take(q.len() as int));
        }
    } else if pos == 0 {
        assert(Seq::<char>::empty() =~= s.take(0));
    }
}

proof fn lemma_utf8_len_take(s: Seq<char>, k: int)
    requires
        0 <= k <= s.len(),
    ensures
        utf8_len(s.take(k)) <= utf8_len(s),
    decreases s.len() - k,
{
    if k < s.len() {
        lemma_utf8_len_take(s, k + 1);
        assert(s.take(k + 1) =~= s.take(k).push(s[k]));
        lemma_utf8_len_push(s.take(k), s[k]);
    } else {
        assert(s.take(k) =~= s);
    }
}

/// The UTF-8 length of `v`, as a wide integer.
fn utf8_len_exec(v: &[char]) -> (r: u128)
    ensures
        r == utf8_len(v@),
{
    let mut acc: u128 = 0;
    let mut k: usize = 0;
    assert(v@.take(0) =~= Seq::<char>::empty());
    while k < v.len()
        invariant
            k <= v.len(),
            acc == utf8_len(v@.take(k as int)),
            acc <= 4 * k,
        decreases v.len() - k,
    {
        proof {
            assert(v@.take(k + 1) =~= v@.take(k as int).push(v@[k as int]));
            lemma_utf8_len_push(v@.take(k as int), v@[k as int]);
        }
        acc = acc + char_width(v[k]) as u128;
        k += 1;
    }
    assert(v@.take(v.len() as int) =~= v@);
    acc
}

/// A hint list entry that completes `prefix`: it starts with the prefix and
/// is longer.
pub open spec fn completes(s: Seq<char>, prefix: Seq<char>) -> bool {
    prefix.is_prefix_of(s) && utf8_len(s) > utf8_len(prefix)
}

/// The first of the shortest entries (by UTF-8 length) that complete `prefix`.
pub open spec fn shortest_completion(entries: Seq<Seq<char>>, prefix: Seq<char>) -> Option<
    Seq<char>,
>
    decreases entries.len(),
{
    if entries.len() == 0 {
        None
    } else {
        let b = shortest_completion(entries.drop_last(), prefix);
        let x = entries.last();
        if completes(x, prefix) && (b is None || utf8_len(x) < utf8_len(b.unwrap())) {
            Some(x)
        } else {
            b
        }
    }
}

proof fn lemma_shortest_completion(entries: Seq<Seq<char>>, prefix: Seq<char>)
    ensures
        shortest_completion(entries, prefix) matches Some(b) ==> completes(b, prefix)
            && entries.contains(b) && forall|i: int|
            0 <= i < entries.len() && completes(#[trigger] entries[i], prefix) ==> utf8_len(b)
                <= utf8_len(entries[i]),
        shortest_completion(entries, prefix) is None ==> forall|i: int|
            0 <= i < entries.len() ==> !completes(#[trigger] entries[i], prefix),
        shortest_completion(entries, prefix) matches Some(b) ==> exists|k: int|
            0 <= k < entries.len() && entries[k] == b && forall|i: int|
                0 <= i < k && completes(#[trigger] entries[i], prefix) ==> utf8_len(entries[i])
                    > utf8_len(b),
    decreases entries.len(),
{
    if entries.len() > 0 {
        let d = entries.drop_last();
        lemma_shortest_completion(d, prefix);
        assert forall|i: int| 0 <= i < d.len() implies d[i] == entries[i] by {}
        if let Some(b) = shortest_completion(entries, prefix) {
            if shortest_completion(d, prefix) == Some(b) {
                let k = choose|k: int|
                    0 <= k < d.len() && d[k] == b && forall|i: int|
                        0 <= i < k && completes(#[trigger] d[i], prefix) ==> utf8_len(d[i])
                            > utf8_len(b);
                assert(entries[k] == b);
                assert forall|i: int|
                    0 <= i < k && completes(#[trigger] entries[i], prefix) implies utf8_len(
                        entries[i],
                    ) > utf8_len(b) by {
                    assert(d[i] == entries[i]);
                }
            } else {
                let k = entries.len() - 1;
                assert(entries[k] == b);
                assert forall|i: int|
                    0 <= i < k && completes(#[trigger] entries[i], prefix) implies utf8_len(
                        entries[i],
                    ) > utf8_len(b) by {
                    assert(d[i] == entries[i]);
                    assert(completes(d[i], prefix));
                }
            }
        }
    }
}

/// The inline hint for `line` with the cursor at byte `pos`: the rest of the
/// shortest entry that completes the text before the cursor; nothing for an
/// empty or invalid prefix, or when no entry completes it.
pub open spec fn hint_suffix(entries: Seq<Seq<char>>, line: Seq<char>, pos: int) -> Option<
    Seq<char>,
> {
    match prefix_at_byte(line, pos) {
        None => None,
        Some(p) => if p.len() == 0 {
            None
        } else {
            match shortest_completion(entries, p) {
                Some(s) => Some(s.skip(p.len() as int)),
                None => None,
            }
        },
    }
}

/// A hint completes the text before the cursor to an entry of the hint list,
/// adds at least one character, no entry that also completes that text is
/// shorter, and the entry is the first of the shortest; a blank line gets no
/// hint.
pub proof fn lemma_hint_completes(entries: Seq<Seq<char>>, line: Seq<char>, pos: int)
    ensures
        line.len() == 0 ==> hint_suffix(entries, line, pos) is None,
        hint_suffix(entries, line, pos) matches Some(h) ==> {
            let p = prefix_at_byte(line, pos).unwrap();
            &&& h.len() > 0
            &&& entries.contains(p + h)
            &&& forall|i: int|
                0 <= i < entries.len() && completes(#[trigger] entries[i], p) ==> utf8_len(p + h)
                    <= utf8_len(entries[i])
            &&& exists|k: int|
                0 <= k < entries.len() && entries[k] == p + h && forall|i: int|
                    0 <= i < k && completes(#[trigger] entries[i], p) ==> utf8_len(entries[i])
                        > utf8_len(p + h)
        },
{
    if let Some(p) = prefix_at_byte(line, pos) {
        if line.len() == 0 {
            assert(pos == 0);
        }
        lemma_shortest_completion(entries, p);
        if let Some(s) = shortest_completion(entries, p) {
            if p.len() > 0 {
                assert(p + s.skip(p.len() as int) =~= s);
                if s.len() == p.len() {
                    assert(s =~= p);
                }
            }
        }
    }
}

/// The inline hint for `line` with the cursor at byte `pos`.
pub fn matching_suffix(shortcuts: &[String], line: &str, pos: usize) -> (r: Option<String>)
    ensures
        match hint_suffix(sviews(shortcuts@), line@, pos as int) {
            Some(h) => r matches Some(x) && x@ == h,
            None => r is None,
        },
{
    let v = chars_of(line);
    let prefix = match prefix_bytes(v.as_slice(), pos) {
        None => {
            return None;
        },
        Some(p) => p,
    };
    if prefix.len() == 0 {
        return None;
    }
    let plen = utf8_len_exec(prefix.as_slice());
    let ghost es = sviews(shortcuts@);
    let mut best: Option<(Vec<char>, u128)> = None;
    let mut i: usize = 0;
    while i < shortcuts.len()
        invariant
            i <= shortcuts.len(),
            es == sviews(shortcuts@),
            plen == utf8_len(prefix@),
            match shortest_completion(es.take(i as int), prefix@) {
                Some(b) => best matches Some(x) && x.0@ == b && x.1 == utf8_len(b),
                None => best is None,
            },
        decreases shortcuts.len() - i,
    {
        let s = chars_of(shortcuts[i].as_str());
        proof {
            assert(es.take(i + 1).drop_last() =~= es.take(i as int));
            assert(es.take(i + 1).last() == s@);
            assert(s@.skip(0) =~= s@);
        }
        if crate::text::starts_with_at(s.as_slice(), 0, prefix.as_slice()) {
            let slen = utf8_len_exec(s.as_slice());
            if slen > plen {
                let better = match &best {
                    None => true,
                    Some(b) => slen < b.1,
                };
                if better {
                    best = Some((s, slen));
                }
            }
        }
        i += 1;
    }
    assert(es.take(shortcuts.len() as int) =~= es);
    match best {
        None => None,
        Some(b) => {
            proof {
                lemma_shortest_completion(es, prefix@);
            }
            Some(crate::text::string_of_range(b.0.as_slice(), prefix.len(), b.0.len()))
        },
    }
}

/// The number of leading characters that `a` and `b` share.
pub open spec fn common_chars(a: Seq<char>, b: Seq<char>) -> nat
    decreases a.len(),
{
    if a.len() > 0 && b.len() > 0 && a[0] == b[0] {
        1 + common_chars(a.drop_first(), b.drop_first())
    } else {
        0
    }
}

/// The byte length of the longest common prefix of `a` and `b`.
pub open spec fn common_prefix_bytes(a: Seq<char>, b: Seq<char>) -> nat {
    utf8_len(a.take(common_chars(a, b) as int))
}

proof fn lemma_common_chars(a: Seq<char>, b: Seq<char>, i: int)
    requires
        0 <= i <= a.len(),
        i <= b.len(),
        forall|j: int| 0 <= j < i ==> a[j] == b[j],
        i == a.len() || i == b.len() || a[i] != b[i],
    ensures
        common_chars(a, b) == i,
    decreases i,
{
    if i > 0 {
        lemma_common_chars(a.drop_first(), b.drop_first(), i - 1);
    }
}

/// The byte length of the longest common prefix of two strings.
pub fn common_prefix_len(left: &str, right: &str) -> (r: u128)
    ensures
        r == common_prefix_bytes(left@, right@),
{
    let a = chars_of(left);
    let b = chars_of(right);
    let mut i: usize = 0;
    while i < a.len() && i < b.len() && a[i] == b[i]
        invariant
            i <= a.len(),
            i <= b.len(),
            forall|j: int| 0 <= j < i ==> a@[j] == b@[j],
        decreases a.len() - i,
    {
        i += 1;
    }
    proof {
        lemma_common_chars(a@, b@, i as int);
    }
    utf8_len_exec(crate::text::sub_chars(a.as_slice(), 0, i).as_slice())
}

/// The longest common prefix, in bytes, between `prefix` and any entry.
pub open spec fn longest_common(entries: Seq<Seq<char>>, prefix: Seq<char>) -> nat
    decreases entries.len(),
{
    if entries.len() == 0 {
        0
    } else {
        let m = longest_common(entries.drop_last(), prefix);
        let c = common_prefix_bytes(prefix, entries.last());
        if c > m {
            c
        } else {
            m
        }
    }
}

/// The length in bytes of the best partial match of the text before the
/// cursor (0 for an invalid cursor or no common prefix).
pub open spec fn best_match(entries: Seq<Seq<char>>, line: Seq<char>, pos: int) -> nat {
    match prefix_at_byte(line, pos) {
        None => 0,
        Some(p) => longest_common(entries, p),
    }
}

proof fn lemma_longest_common_bound(entries: Seq<Seq<char>>, prefix: Seq<char>)
    ensures
        longest_common(entries, prefix) <= utf8_len(prefix),
    decreases entries.len(),
{
    if entries.len() > 0 {
        lemma_longest_common_bound(entries.drop_last(), prefix);
        let k = common_chars(prefix, entries.last());
        lemma_common_chars_bound(prefix, entries.last());
        lemma_utf8_len_take(prefix, k as int);
    }
}

proof fn lemma_common_chars_bound(a: Seq<char>, b: Seq<char>)
    ensures
        common_chars(a, b) <= a.len(),
        common_chars(a, b) <= b.len(),
    decreases a.len(),
{
    if a.len() > 0 && b.len() > 0 && a[0] == b[0] {
        lemma_common_chars_bound(a.drop_first(), b.drop_first());
    }
}

/// The length in bytes of the best partial match before the cursor.
pub fn best_match_len(shortcuts: &[String], line: &str, pos: usize) -> (r: usize)
    ensures
        r == best_match(sviews(shortcuts@), line@, pos as int),
{
    let v = chars_of(line);
    let prefix = match prefix_bytes(v.as_slice(), pos) {
        None => {
            return 0;
        },
        Some(p) => p,
    };
    let ptext = string_of(prefix.as_slice());
    proof {
        lemma_prefix_at_byte(line@, pos as int);
    }
    let ghost es = sviews(shortcuts@);
    let mut best: u128 = 0;
    let mut i: usize = 0;
    while i < shortcuts.len()
        invariant
            i <= shortcuts.len(),
            es == sviews(shortcuts@),
            ptext@ == prefix@,
            utf8_len(prefix@) == pos,
            best == longest_common(es.take(i as int), prefix@),
        decreases shortcuts.len() - i,
    {
        proof {
            assert(es.take(i + 1).drop_last() =~= es.take(i as int));
            assert(es.take(i + 1).last() == shortcuts@[i as int]@);
        }
        let c = common_prefix_len(ptext.as_str(), shortcuts[i].as_str());
        if c > best {
            best = c;
        }
        i += 1;
    }
    assert(es.take(shortcuts.len() as int) =~= es);
    proof {
        lemma_longest_common_bound(es, prefix@);
    }
    best as usize
}


/// What `char::to_lowercase` yields for `c`: its Unicode lowercase mapping.
pub uninterp spec fn unicode_char_lowercase(c: char) -> Seq<char>;

/// `char::to_lowercase`, collected: the Unicode lowercase mapping of `c`,
/// which, as the standard library documents, is one or more characters.
/// What the mapping is, is left to the name `unicode_char_lowercase`.
#[verifier::external_body]
fn char_to_lowercase(c: char) -> (r: Vec<char>)
    ensures
        r@ == unicode_char_lowercase(c),
        r@.len() > 0,
{
    c.to_lowercase().collect()
}

/// The first character of the Unicode lowercase mapping of `c`.
pub open spec fn lower_first(c: char) -> char {
    unicode_char_lowercase(c)[0]
}

/// The first character of the Unicode lowercase mapping of `c`.
fn lowercase_first(c: char) -> (r: char)
    ensures
        r == lower_first(c),
{
    let v = char_to_lowercase(c);
    v[0]
}

/// Every character of `needle` appears in `haystack` in the same order,
/// comparing first lowercase characters.
pub open spec fn subsequence_of(needle: Seq<char>, haystack: Seq<char>) -> bool
    decreases haystack.len(),
{
    if needle.len() == 0 {
        true
    } else if haystack.len() == 0 {
        false
    } else if lower_first(haystack[0]) == lower_first(needle[0]) {
        subsequence_of(needle.drop_first(), haystack.drop_first())
    } else {
        subsequence_of(needle, haystack.drop_first())
    }
}

/// `idx` places the characters of `needle`, in order, at strictly
/// increasing positions of `haystack` whose characters have the same first
/// lowercase character.
pub open spec fn placed_at(needle: Seq<char>, haystack: Seq<char>, idx: Seq<int>) -> bool {
    &&& idx.len() == needle.len()
    &&& forall|i: int|
        0 <= i < idx.len() ==> 0 <= #[trigger] idx[i] < haystack.len() && unicode_char_lowercase(
            haystack[idx[i]],
        )[0] == unicode_char_lowercase(needle[i])[0]
    &&& forall|i: int, j: int| 0 <= i < j < idx.len() ==> idx[i] < idx[j]
}

/// Positions for a subsequence found by the scan.
proof fn lemma_subsequence_placed(needle: Seq<char>, haystack: Seq<char>) -> (idx: Seq<int>)
    requires
        subsequence_of(needle, haystack),
    ensures
        placed_at(needle, haystack, idx),
    decreases haystack.len(),
{
    if needle.len() == 0 {
        Seq::empty()
    } else if lower_first(haystack[0]) == lower_first(needle[0]) {
        let rest = lemma_subsequence_placed(needle.drop_first(), haystack.drop_first());
        let idx = seq![0int] + rest.map_values(|k: int| k + 1);
        assert forall|i: int| 0 < i < idx.len() implies idx[i] == rest[i - 1] + 1 by {}
        assert forall|i: int|
            0 <= i < idx.len() implies 0 <= #[trigger] idx[i] < haystack.len()
                && unicode_char_lowercase(haystack[idx[i]])[0] == unicode_char_lowercase(
                needle[i],
            )[0] by {
            if i > 0 {
                assert(haystack[idx[i]] == haystack.drop_first()[rest[i - 1]]);
                assert(needle[i] == needle.drop_first()[i - 1]);
            }
        }
        idx
    } else {
        let rest = lemma_subsequence_placed(needle, haystack.drop_first());
        let idx = rest.map_values(|k: int| k + 1);
        assert forall|i: int|
            0 <= i < idx.len() implies 0 <= #[trigger] idx[i] < haystack.len()
                && unicode_char_lowercase(haystack[idx[i]])[0] == unicode_char_lowercase(
                needle[i],
            )[0] by {
            assert(haystack[idx[i]] == haystack.drop_first()[rest[i]]);
        }
        idx
    }
}

/// The scan finds every subsequence that positions show.
proof fn lemma_placed_subsequence(needle: Seq<char>, haystack: Seq<char>, idx: Seq<int>)
    requires
        placed_at(needle, haystack, idx),
    ensures
        subsequence_of(needle, haystack),
    decreases haystack.len(),
{
    if needle.len() > 0 {
        assert(0 <= idx[0] < haystack.len());
        let h2 = haystack.drop_first();
        if lower_first(haystack[0]) == lower_first(needle[0]) {
            let n2 = needle.drop_first();
            let d = idx.drop_first();
            let idx2 = d.map_values(|k: int| k - 1);
            assert forall|i: int|
                0 <= i < idx2.len() implies 0 <= #[trigger] idx2[i] < h2.len()
                    && unicode_char_lowercase(h2[idx2[i]])[0] == unicode_char_lowercase(
                    n2[i],
                )[0] by {
                assert(idx[0] < idx[i + 1]);
                assert(idx2[i] == idx[i + 1] - 1);
                assert(h2[idx2[i]] == haystack[idx[i + 1]]);
                assert(n2[i] == needle[i + 1]);
            }
            assert forall|i: int, j: int| 0 <= i < j < idx2.len() implies idx2[i] < idx2[j] by {
                assert(idx[i + 1] < idx[j + 1]);
            }
            lemma_placed_subsequence(n2, h2, idx2);
        } else {
            assert(idx[0] != 0);
            let idx2 = idx.map_values(|k: int| k - 1);
            assert forall|i: int|
                0 <= i < idx2.len() implies 0 <= #[trigger] idx2[i] < h2.len()
                    && unicode_char_lowercase(h2[idx2[i]])[0] == unicode_char_lowercase(
                    needle[i],
                )[0] by {
                if i > 0 {
                    assert(idx[0] < idx[i]);
                }
                assert(h2[idx2[i]] == haystack[idx[i]]);
            }
            assert forall|i: int, j: int| 0 <= i < j < idx2.len() implies idx2[i] < idx2[j] by {
                assert(idx[i] < idx[j]);
            }
            lemma_placed_subsequence(needle, h2, idx2);
        }
    }
}

/// A needle is a subsequence of a haystack exactly when its characters can
/// be placed, in order, at strictly increasing positions of the haystack
/// whose characters lowercase to the same first character.
pub proof fn lemma_subsequence_positions(needle: Seq<char>, haystack: Seq<char>)
    ensures
        subsequence_of(needle, haystack) <==> exists|idx: Seq<int>|
            placed_at(needle, haystack, idx),
{
    if subsequence_of(needle, haystack) {
        let idx = lemma_subsequence_placed(needle, haystack);
        assert(placed_at(needle, haystack, idx));
    }
    if exists|idx: Seq<int>| placed_at(needle, haystack, idx) {
        let idx = choose|idx: Seq<int>| placed_at(needle, haystack, idx);
        lemma_placed_subsequence(needle, haystack, idx);
    }
}

/// Fuzzy matching ignores case on both sides: replacing characters of the
/// needle or of the haystack by characters with the same lowercase mapping
/// (`K` by `k`, say) does not change whether the needle matches.
pub proof fn lemma_subsequence_ignores_case(
    n1: Seq<char>,
    n2: Seq<char>,
    h1: Seq<char>,
    h2: Seq<char>,
)
    requires
        n1.len() == n2.len(),
        h1.len() == h2.len(),
        forall|i: int| 0 <= i < n1.len() ==> unicode_char_lowercase(n1[i]) == unicode_char_lowercase(
            n2[i],
        ),
        forall|i: int| 0 <= i < h1.len() ==> unicode_char_lowercase(h1[i]) == unicode_char_lowercase(
            h2[i],
        ),
    ensures
        subsequence_of(n1, h1) == subsequence_of(n2, h2),
{
    lemma_subsequence_positions(n1, h1);
    lemma_subsequence_positions(n2, h2);
    if subsequence_of(n1, h1) {
        let idx = choose|idx: Seq<int>| placed_at(n1, h1, idx);
        assert forall|i: int|
            0 <= i < idx.len() implies 0 <= #[trigger] idx[i] < h2.len() && unicode_char_lowercase(
                h2[idx[i]],
            )[0] == unicode_char_lowercase(n2[i])[0] by {}
        assert(placed_at(n2, h2, idx));
    }
    if subsequence_of(n2, h2) {
        let idx = choose|idx: Seq<int>| placed_at(n2, h2, idx);
        assert forall|i: int|
            0 <= i < idx.len() implies 0 <= #[trigger] idx[i] < h1.len() && unicode_char_lowercase(
                h1[idx[i]],
            )[0] == unicode_char_lowercase(n1[i])[0] by {}
        assert(placed_at(n1, h1, idx));
    }
}

/// Returns `true` when every character of `needle` appears in `haystack`
/// in the same order (case-insensitive). An empty needle never matches.
pub fn is_subsequence(needle: &str, haystack: &str) -> (r: bool)
    ensures
        r == (needle@.len() > 0 && subsequence_of(needle@, haystack@)),
        r == (needle@.len() > 0 && exists|idx: Seq<int>| placed_at(needle@, haystack@, idx)),
{
    proof {
        lemma_subsequence_positions(needle@, haystack@);
    }
    let n = chars_of(needle);
    let h = chars_of(haystack);
    if n.len() == 0 {
        return false;
    }
    let mut i: usize = 0;
    let mut j: usize = 0;
    assert(n@.skip(0) =~= n@);
    assert(h@.skip(0) =~= h@);
    while i < n.len()
        invariant
            i <= n.len(),
            j <= h.len(),
            subsequence_of(needle@, haystack@) == subsequence_of(n@.skip(i as int), h@.skip(
                j as int,
            )),
        decreases h.len() - j, n.len() - i,
    {
        if j == h.len() {
            assert(h@.skip(j as int) =~= Seq::<char>::empty());
            proof {
                lemma_subsequence_positions(needle@, haystack@);
            }
            return false;
        }
        let nc = lowercase_first(n[i]);
        let hc = lowercase_first(h[j]);
        assert(n@.skip(i as int).drop_first() =~= n@.skip(i + 1));
        assert(h@.skip(j as int).drop_first() =~= h@.skip(j + 1));
        if hc == nc {
            i += 1;
        }
        j += 1;
    }
    assert(n@.skip(i as int) =~= Seq::<char>::empty());
    true
}

/// The start of `s` up to the first whitespace that follows non-whitespace
/// (`reached` tells whether non-whitespace was already seen).
pub open spec fn token_from(s: Seq<char>, reached: bool) -> Seq<char>
    decreases s.len(),
{
    if s.len() == 0 {
        s
    } else if reached && is_ws(s[0]) {
        Seq::empty()
    } else {
        seq![s[0]] + token_from(s.drop_first(), reached || !is_ws(s[0]))
    }
}

/// The first token of a hint, with the whitespace before it.
pub fn first_token(hint: &str) -> (r: String)
    ensures
        r@ == token_from(hint@, false),
{
    let v = chars_of(hint);
    let mut token: Vec<char> = Vec::new();
    let mut reached = false;
    let mut i: usize = 0;
    assert(v@.skip(0) =~= v@);
    while i < v.len()
        invariant
            i <= v.len(),
            v@ == hint@,
            token_from(hint@, false) == token@ + token_from(v@.skip(i as int), reached),
        decreases v.len() - i,
    {
        let c = v[i];
        let ws = crate::text::is_whitespace(c);
        assert(v@.skip(i as int).drop_first() =~= v@.skip(i + 1));
        if reached && ws {
            assert(token@ + Seq::<char>::empty() =~= token@);
            return string_of(token.as_slice());
        }
        if !ws {
            reached = true;
        }
        let ghost old_t = token@;
        token.push(c);
        assert(old_t + (seq![c] + token_from(v@.skip(i + 1), reached)) =~= token@ + token_from(
            v@.skip(i + 1),
            reached,
        ));
        i += 1;
    }
    assert(v@.skip(i as int) =~= Seq::<char>::empty());
    assert(token@ + Seq::<char>::empty() =~= token@);
    string_of(token.as_slice())
}

/// How a piece of the input line is shown.
#[derive(Clone, Copy, Debug, PartialEq, Eq, Structural)]
pub enum HighlightKind {
    /// No match.
    Neutral,
    /// The whole line is an entry of the hint list.
    Exact,
    /// The text before the cursor matches an entry as a subsequence.
    Fuzzy,
    /// The part that matches an entry as a prefix.
    Partial,
    /// The part after the matching prefix.
    Unmatched,
}

/// The characters after the first `pos` bytes, if `pos` is a boundary (`str::get(pos..)`).
pub open spec fn suffix_at_byte(s: Seq<char>, pos: int) -> Option<Seq<char>> {
    match prefix_at_byte(s, pos) {
        Some(p) => Some(s.skip(p.len() as int)),
        None => None,
    }
}

/// Whether some entry holds `needle` as a subsequence.
pub open spec fn fuzzy_match(entries: Seq<Seq<char>>, needle: Seq<char>) -> bool {
    exists|i: int| 0 <= i < entries.len() && subsequence_of(needle, entries[i])
}

/// Whether the text before the cursor is the whole line and an entry.
pub open spec fn exact_entry(entries: Seq<Seq<char>>, line: Seq<char>, cursor: int) -> bool {
    &&& match prefix_at_byte(line, cursor) {
        Some(p) => entries.contains(p),
        None => false,
    }
    &&& cursor == utf8_len(line)
}

/// Whether the text before the cursor is not empty and is a subsequence of
/// an entry.
pub open spec fn fuzzy_before(entries: Seq<Seq<char>>, line: Seq<char>, cursor: int) -> bool {
    match prefix_at_byte(line, cursor) {
        Some(p) => p.len() > 0 && fuzzy_match(entries, p),
        None => false,
    }
}

/// The styled pieces of the input line with the cursor at byte `cursor`:
/// an empty line is one empty neutral piece; a line equal to an entry with
/// the cursor at its end is exact; with no common prefix it is fuzzy when the
/// text before the cursor is a subsequence of an entry, else neutral;
/// otherwise the matching prefix is partial and the rest, if any, unmatched.
pub open spec fn highlight_of(entries: Seq<Seq<char>>, line: Seq<char>, cursor: int) -> Seq<
    (HighlightKind, Seq<char>),
> {
    if line.len() == 0 {
        seq![(HighlightKind::Neutral, Seq::empty())]
    } else {
        let m = best_match(entries, line, cursor);
        if exact_entry(entries, line, cursor) {
            seq![(HighlightKind::Exact, line)]
        } else if m == 0 {
            if fuzzy_before(entries, line, cursor) {
                seq![(HighlightKind::Fuzzy, line)]
            } else {
                seq![(HighlightKind::Neutral, line)]
            }
        } else {
            let first = match prefix_at_byte(line, m as int) {
                Some(p) => seq![(HighlightKind::Partial, p)],
                None => Seq::empty(),
            };
            let second = match suffix_at_byte(line, m as int) {
                Some(u) => if u.len() > 0 {
                    seq![(HighlightKind::Unmatched, u)]
                } else {
                    Seq::empty()
                },
                None => Seq::empty(),
            };
            first + second
        }
    }
}

/// The texts of styled pieces, concatenated in order.
pub open spec fn pieces_text(ps: Seq<(HighlightKind, Seq<char>)>) -> Seq<char>
    decreases ps.len(),
{
    if ps.len() == 0 {
        Seq::empty()
    } else {
        pieces_text(ps.drop_last()) + ps.last().1
    }
}

proof fn lemma_pieces_one(x: (HighlightKind, Seq<char>))
    ensures
        pieces_text(seq![x]) == x.1,
{
    let e = Seq::<(HighlightKind, Seq<char>)>::empty();
    assert(seq![x].drop_last() =~= e);
    assert(pieces_text(e) == Seq::<char>::empty());
    assert(Seq::<char>::empty() + x.1 =~= x.1);
}

/// The longest common prefix with an entry ends on a character boundary.
proof fn lemma_longest_common_take(entries: Seq<Seq<char>>, prefix: Seq<char>)
    ensures
        exists|k: int|
            0 <= k <= prefix.len() && longest_common(entries, prefix) == utf8_len(prefix.take(k)),
    decreases entries.len(),
{
    if entries.len() == 0 {
        assert(prefix.take(0) =~= Seq::<char>::empty());
        assert(longest_common(entries, prefix) == utf8_len(prefix.take(0)));
    } else {
        lemma_longest_common_take(entries.drop_last(), prefix);
        let k = common_chars(prefix, entries.last());
        lemma_common_chars_bound(prefix, entries.last());
        if common_prefix_bytes(prefix, entries.last()) > longest_common(entries.drop_last(), prefix) {
            assert(longest_common(entries, prefix) == utf8_len(prefix.take(k as int)));
        }
    }
}

/// The characters that fill the bytes of a character prefix are that prefix.
proof fn lemma_prefix_at_take(s: Seq<char>, k: int)
    requires
        0 <= k <= s.len(),
    ensures
        prefix_at_byte(s, utf8_len(s.take(k)) as int) == Some(s.take(k)),
        suffix_at_byte(s, utf8_len(s.take(k)) as int) == Some(s.skip(k)),
{
    lemma_prefix_at_byte_take(s, k, utf8_len(s.take(k)) as int);
    assert(s.take(k) + Seq::<char>::empty() =~= s.take(k));
}

/// The pieces of a highlighted line, read in order, are the line itself.
pub proof fn lemma_highlight_covers_line(entries: Seq<Seq<char>>, line: Seq<char>, cursor: int)
    ensures
        pieces_text(highlight_of(entries, line, cursor)) == line,
{
    let h = highlight_of(entries, line, cursor);
    if line.len() == 0 {
        lemma_pieces_one((HighlightKind::Neutral, Seq::<char>::empty()));
        assert(line =~= Seq::<char>::empty());
    } else {
        let m = best_match(entries, line, cursor);
        if exact_entry(entries, line, cursor) || m == 0 {
            assert(h.len() == 1);
            assert(h =~= seq![h[0]]);
            lemma_pieces_one(h[0]);
        } else {
            let p = prefix_at_byte(line, cursor).unwrap();
            lemma_prefix_at_byte(line, cursor);
            lemma_longest_common_take(entries, p);
            let k = choose|k: int| 0 <= k <= p.len() && longest_common(entries, p) == utf8_len(p.take(k));
            assert(p.take(k) =~= line.take(k));
            lemma_prefix_at_take(line, k);
            let a = line.take(k);
            let u = line.skip(k);
            assert(a + u =~= line);
            if u.len() > 0 {
                assert(h =~= seq![(HighlightKind::Partial, a), (HighlightKind::Unmatched, u)]);
                assert(h.drop_last() =~= seq![(HighlightKind::Partial, a)]);
                lemma_pieces_one((HighlightKind::Partial, a));
            } else {
                assert(h =~= seq![(HighlightKind::Partial, a)]);
                lemma_pieces_one((HighlightKind::Partial, a));
                assert(u =~= Seq::<char>::empty());
                assert(a =~= line);
            }
        }
    }
}

/// The cases of highlighting: an empty line is one empty neutral piece; a
/// line that is an entry, with the cursor at its end, is one exact piece;
/// with no common prefix before the cursor the line is one piece, fuzzy when
/// the text before the cursor is a non-empty subsequence of an entry and
/// neutral otherwise; else the first `m` bytes (`m` the longest common
/// prefix, which ends on a character boundary) are a partial piece, followed
/// by the rest of the line, when there is any, as an unmatched piece.
pub proof fn lemma_highlight_cases(entries: Seq<Seq<char>>, line: Seq<char>, cursor: int)
    ensures
        line.len() == 0 ==> highlight_of(entries, line, cursor) == seq![
            (HighlightKind::Neutral, Seq::<char>::empty()),
        ],
        line.len() > 0 && exact_entry(entries, line, cursor) ==> highlight_of(
            entries,
            line,
            cursor,
        ) == seq![(HighlightKind::Exact, line)],
        line.len() > 0 && !exact_entry(entries, line, cursor) && best_match(entries, line, cursor)
            == 0 ==> highlight_of(entries, line, cursor) == seq![
            (
                if fuzzy_before(entries, line, cursor) {
                    HighlightKind::Fuzzy
                } else {
                    HighlightKind::Neutral
                },
                line,
            ),
        ],
        line.len() > 0 && !exact_entry(entries, line, cursor) && best_match(entries, line, cursor)
            > 0 ==> exists|k: int|
            0 < k <= line.len() && best_match(entries, line, cursor) == utf8_len(line.take(k))
                && highlight_of(entries, line, cursor) == seq![
                (HighlightKind::Partial, line.take(k)),
            ] + (if k < line.len() {
                seq![(HighlightKind::Unmatched, line.skip(k))]
            } else {
                Seq::empty()
            }),
{
    let h = highlight_of(entries, line, cursor);
    let m = best_match(entries, line, cursor);
    if line.len() > 0 && !exact_entry(entries, line, cursor) && m > 0 {
        let p = prefix_at_byte(line, cursor).unwrap();
        lemma_prefix_at_byte(line, cursor);
        lemma_longest_common_take(entries, p);
        let k = choose|k: int| 0 <= k <= p.len() && longest_common(entries, p) == utf8_len(p.take(k));
        assert(p.take(k) =~= line.take(k));
        lemma_prefix_at_take(line, k);
        if k == 0 {
            assert(line.take(0) =~= Seq::<char>::empty());
        }
        let a = line.take(k);
        let u = line.skip(k);
        if k < line.len() {
            assert(u.len() > 0);
            assert(h =~= seq![(HighlightKind::Partial, a)] + seq![(HighlightKind::Unmatched, u)]);
        } else {
            assert(u.len() == 0);
            assert(h =~= seq![(HighlightKind::Partial, a)] + Seq::<(HighlightKind, Seq<char>)>::empty());
        }
    }
}

/// The values of styled pieces.
pub open spec fn piece_views(v: Seq<(HighlightKind, String)>) -> Seq<(HighlightKind, Seq<char>)> {
    v.map_values(|p: (HighlightKind, String)| (p.0, p.1@))
}

fn any_subsequence(entries: &[String], needle: &str) -> (r: bool)
    ensures
        r == fuzzy_match(sviews(entries@), needle@) && needle@.len() > 0 || (r == false
            && needle@.len() == 0),
{
    let mut i: usize = 0;
    while i < entries.len()
        invariant
            i <= entries.len(),
            forall|k: int|
                0 <= k < i ==> !(needle@.len() > 0 && subsequence_of(needle@, sviews(entries@)[k])),
        decreases entries.len() - i,
    {
        if is_subsequence(needle, entries[i].as_str()) {
            assert(subsequence_of(needle@, sviews(entries@)[i as int]));
            return true;
        }
        i += 1;
    }
    false
}

/// The styled pieces of the input line (what the highlighter shows).
pub fn highlight_segments(shortcuts: &[String], line: &str, cursor: usize) -> (r: Vec<
    (HighlightKind, String),
>)
    ensures
        piece_views(r@) == highlight_of(sviews(shortcuts@), line@, cursor as int),
{
    let mut out: Vec<(HighlightKind, String)> = Vec::new();
    let v = chars_of(line);
    if v.len() == 0 {
        out.push((HighlightKind::Neutral, String::new()));
        assert(piece_views(out@) =~= highlight_of(sviews(shortcuts@), line@, cursor as int));
        return out;
    }
    let match_len = best_match_len(shortcuts, line, cursor);
    let prefix = prefix_bytes(v.as_slice(), cursor);
    let ghost es = sviews(shortcuts@);
    let mut exact = false;
    match &prefix {
        Some(p) => {
            let ps = string_of(p.as_slice());
            match crate::history::find_string(shortcuts, ps.as_str()) {
                Some(_) => {
                    proof {
                        crate::history::lemma_position(es, p@);
                    }
                    exact = true;
                },
                None => {
                    proof {
                        crate::history::lemma_position(es, p@);
                    }
                },
            }
        },
        None => {},
    }
    if exact && utf8_len_exec(v.as_slice()) == cursor as u128 {
        out.push((HighlightKind::Exact, String::from_str(line)));
        assert(piece_views(out@) =~= highlight_of(sviews(shortcuts@), line@, cursor as int));
        return out;
    }
    if match_len == 0 {
        let p = match prefix {
            Some(p) => p,
            None => Vec::new(),
        };
        let ps = string_of(p.as_slice());
        if p.len() > 0 && any_subsequence(shortcuts, ps.as_str()) {
            out.push((HighlightKind::Fuzzy, String::from_str(line)));
        } else {
            out.push((HighlightKind::Neutral, String::from_str(line)));
        }
        assert(piece_views(out@) =~= highlight_of(sviews(shortcuts@), line@, cursor as int));
        return out;
    }
    match prefix_bytes(v.as_slice(), match_len) {
        Some(m) => {
            out.push((HighlightKind::Partial, string_of(m.as_slice())));
            proof {
                lemma_prefix_at_byte(line@, match_len as int);
            }
            if m.len() < v.len() {
                out.push(
                    (HighlightKind::Unmatched, crate::text::string_of_range(v.as_slice(), m.len(), v.len())),
                );
                assert(v@.subrange(m@.len() as int, v@.len() as int) =~= v@.skip(m@.len() as int));
            } else {
                assert(v@.skip(m@.len() as int) =~= Seq::<char>::empty());
            }
        },
        None => {},
    }
    assert(piece_views(out@) =~= highlight_of(sviews(shortcuts@), line@, cursor as int));
    out
}

} // verus!
