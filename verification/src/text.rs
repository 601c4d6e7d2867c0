//! Character-level text utilities shared by the parsers and renderers.
//!
//! Strings are modelled by their sequence of characters (`s@`). The spec
//! functions here state what `str::trim`, `str::lines`, `str::split_once`,
//! `str::contains`, `str::replace` and friends compute on such sequences; the
//! executable functions compute the same on vectors of characters.

use vstd::prelude::*;

verus! {

// ---------------------------------------------------------------------------
// Conversions between strings and character vectors
// ---------------------------------------------------------------------------

/// Collects the characters of `s` into a vector.
pub fn chars_of(s: &str) -> (v: Vec<char>)
    ensures
        v@ == s@,
{
    let mut v: Vec<char> = Vec::new();
    for c in it: s.chars()
        invariant
            v@ == it.seq().take(it.index() as int),
    {
        v.push(c);
    }
    v
}

/// Appends one character to a string (`String::push`).
#[verifier::external_body]
fn push_char(s: &mut String, c: char)
    ensures
        final(s)@ == old(s)@.push(c),
{
    s.push(c);
}

/// Builds a string from a sequence of characters.
pub fn string_of(v: &[char]) -> (s: String)
    ensures
        s@ == v@,
{
    let mut s = String::new();
    let mut i: usize = 0;
    while i < v.len()
        invariant
            i <= v.len(),
            s@ == v@.take(i as int),
        decreases v.len() - i,
    {
        push_char(&mut s, v[i]);
        i += 1;
        assert(s@ == v@.take(i as int));
    }
    assert(v@.take(v.len() as int) == v@);
    s
}

/// Copies the characters `v[lo..hi]` into a new vector.
pub fn sub_chars(v: &[char], lo: usize, hi: usize) -> (r: Vec<char>)
    requires
        lo <= hi <= v.len(),
    ensures
        r@ == v@.subrange(lo as int, hi as int),
{
    let mut r: Vec<char> = Vec::new();
    let mut i = lo;
    while i < hi
        invariant
            lo <= i <= hi <= v.len(),
            r@ == v@.subrange(lo as int, i as int),
        decreases hi - i,
    {
        r.push(v[i]);
        i += 1;
        assert(r@ == v@.subrange(lo as int, i as int));
    }
    r
}

/// Builds a string from the characters `v[lo..hi]`.
pub fn string_of_range(v: &[char], lo: usize, hi: usize) -> (s: String)
    requires
        lo <= hi <= v.len(),
    ensures
        s@ == v@.subrange(lo as int, hi as int),
{
    let r = sub_chars(v, lo, hi);
    string_of(r.as_slice())
}

/// Whether two character sequences are equal.
pub fn chars_eq(a: &[char], b: &[char]) -> (r: bool)
    ensures
        r == (a@ == b@),
{
    if a.len() != b.len() {
        return false;
    }
    let mut i: usize = 0;
    while i < a.len()
        invariant
            a.len() == b.len(),
            i <= a.len(),
            forall|j: int| 0 <= j < i ==> a@[j] == b@[j],
        decreases a.len() - i,
    {
        if a[i] != b[i] {
            return false;
        }
        i += 1;
    }
    assert(a@ =~= b@);
    true
}

/// Whether the string `s` equals the string `t`.
pub fn str_eq(s: &str, t: &str) -> (r: bool)
    ensures
        r == (s@ == t@),
{
    let a = chars_of(s);
    let b = chars_of(t);
    chars_eq(a.as_slice(), b.as_slice())
}

/// The character sequences held by a vector of character vectors.
pub open spec fn vviews(v: Seq<Vec<char>>) -> Seq<Seq<char>> {
    v.map_values(|x: Vec<char>| x@)
}

/// The character sequences held by a sequence of strings.
pub open spec fn sviews(v: Seq<String>) -> Seq<Seq<char>> {
    v.map_values(|x: String| x@)
}

// ---------------------------------------------------------------------------
// Whitespace and trimming
// ---------------------------------------------------------------------------

/// Unicode `White_Space`, the property that `char::is_whitespace` tests.
pub open spec fn is_ws(c: char) -> bool {
    let u = c as u32;
    ||| 0x09 <= u <= 0x0D
    ||| u == 0x20
    ||| u == 0x85
    ||| u == 0xA0
    ||| u == 0x1680
    ||| 0x2000 <= u <= 0x200A
    ||| u == 0x2028
    ||| u == 0x2029
    ||| u == 0x202F
    ||| u == 0x205F
    ||| u == 0x3000
}

/// Whether `c` is whitespace (`char::is_whitespace`).
pub fn is_whitespace(c: char) -> (r: bool)
    ensures
        r == is_ws(c),
{
    let u = c as u32;
    (0x09 <= u && u <= 0x0D) || u == 0x20 || u == 0x85 || u == 0xA0 || u == 0x1680 || (0x2000
        <= u && u <= 0x200A) || u == 0x2028 || u == 0x2029 || u == 0x202F || u == 0x205F || u
        == 0x3000
}

/// `s` without its leading whitespace.
pub open spec fn trim_start(s: Seq<char>) -> Seq<char>
    decreases s.len(),
{
    if s.len() > 0 && is_ws(s[0]) {
        trim_start(s.drop_first())
    } else {
        s
    }
}

/// `s` without its trailing whitespace.
pub open spec fn trim_end(s: Seq<char>) -> Seq<char>
    decreases s.len(),
{
    if s.len() > 0 && is_ws(s.last()) {
        trim_end(s.drop_last())
    } else {
        s
    }
}

/// `s` without leading and trailing whitespace (`str::trim`).
pub open spec fn trim(s: Seq<char>) -> Seq<char> {
    trim_end(trim_start(s))
}

/// A trimmed sequence neither starts nor ends with whitespace.
pub open spec fn is_trimmed(s: Seq<char>) -> bool {
    s.len() > 0 ==> !is_ws(s[0]) && !is_ws(s.last())
}

proof fn lemma_trim_start_skip(s: Seq<char>, i: int)
    requires
        0 <= i <= s.len(),
        forall|j: int| 0 <= j < i ==> is_ws(s[j]),
    ensures
        trim_start(s) == trim_start(s.skip(i)),
    decreases i,
{
    if i > 0 {
        assert(s.drop_first().skip(i - 1) =~= s.skip(i));
        lemma_trim_start_skip(s.drop_first(), i - 1);
    } else {
        assert(s.skip(0) =~= s);
    }
}

proof fn lemma_trim_end_take(s: Seq<char>, i: int)
    requires
        0 <= i <= s.len(),
        forall|j: int| i <= j < s.len() ==> is_ws(s[j]),
    ensures
        trim_end(s) == trim_end(s.take(i)),
    decreases s.len() - i,
{
    if i < s.len() {
        assert(s.drop_last().take(i) =~= s.take(i));
        lemma_trim_end_take(s.drop_last(), i);
    } else {
        assert(s.take(i) =~= s);
    }
}

proof fn lemma_trim_start_props(s: Seq<char>)
    ensures
        trim_start(s).len() > 0 ==> !is_ws(trim_start(s)[0]),
        trim_start(s).len() <= s.len(),
        trim_start(s).is_suffix_of(s),
    decreases s.len(),
{
    if s.len() > 0 && is_ws(s[0]) {
        lemma_trim_start_props(s.drop_first());
        let t = trim_start(s.drop_first());
        assert(t =~= s.drop_first().skip(s.drop_first().len() - t.len()));
        assert(t =~= s.skip(s.len() - t.len()));
    } else {
        assert(s =~= s.skip(0));
    }
}

proof fn lemma_trim_end_props(s: Seq<char>)
    ensures
        trim_end(s).len() > 0 ==> !is_ws(trim_end(s).last()),
        trim_end(s).len() <= s.len(),
        trim_end(s).is_prefix_of(s),
        s.len() > 0 && !is_ws(s[0]) ==> trim_end(s).len() > 0 && trim_end(s)[0] == s[0],
    decreases s.len(),
{
    if s.len() > 0 && is_ws(s.last()) {
        lemma_trim_end_props(s.drop_last());
    }
}

/// Trimming a trimmed sequence changes nothing.
pub proof fn lemma_trim_trimmed(s: Seq<char>)
    requires
        is_trimmed(s),
    ensures
        trim(s) == s,
{
}

/// The bounds of `trim(v[lo..hi])` inside `v`.
pub fn trim_bounds(v: &[char], lo: usize, hi: usize) -> (r: (usize, usize))
    requires
        lo <= hi <= v.len(),
    ensures
        lo <= r.0 <= r.1 <= hi,
        v@.subrange(r.0 as int, r.1 as int) == trim(v@.subrange(lo as int, hi as int)),
{
    let ghost s = v@.subrange(lo as int, hi as int);
    let mut a = lo;
    while a < hi && is_whitespace(v[a])
        invariant
            lo <= a <= hi <= v.len(),
            forall|j: int| lo <= j < a ==> is_ws(v@[j]),
        decreases hi - a,
    {
        a += 1;
    }
    proof {
        lemma_trim_start_skip(s, a - lo);
        assert(s.skip(a - lo) =~= v@.subrange(a as int, hi as int));
    }
    let ghost t = v@.subrange(a as int, hi as int);
    assert(trim_start(t) == t);
    let mut b = hi;
    while b > a && is_whitespace(v[b - 1])
        invariant
            lo <= a <= b <= hi <= v.len(),
            forall|j: int| b <= j < hi ==> is_ws(v@[j]),
        decreases b - a,
    {
        b -= 1;
    }
    proof {
        lemma_trim_end_take(t, b - a);
        assert(t.take(b - a) =~= v@.subrange(a as int, b as int));
    }
    (a, b)
}

/// `trim(v)` as a new vector.
pub fn trim_chars(v: &[char]) -> (r: Vec<char>)
    ensures
        r@ == trim(v@),
{
    let (a, b) = trim_bounds(v, 0, v.len());
    assert(v@.subrange(0, v.len() as int) =~= v@);
    sub_chars(v, a, b)
}

/// `s.trim()` as a new string.
pub fn trim_str(s: &str) -> (r: String)
    ensures
        r@ == trim(s@),
{
    let v = chars_of(s);
    let t = trim_chars(v.as_slice());
    string_of(t.as_slice())
}


// ---------------------------------------------------------------------------
// Searching and splitting
// ---------------------------------------------------------------------------

/// The index of the first occurrence of `c` in `s`, if any.
pub open spec fn index_of(s: Seq<char>, c: char) -> Option<int>
    decreases s.len(),
{
    if s.len() == 0 {
        None
    } else if s[0] == c {
        Some(0)
    } else {
        match index_of(s.drop_first(), c) {
            Some(i) => Some(i + 1),
            None => None,
        }
    }
}

/// `index_of` is the first occurrence.
pub proof fn lemma_index_of(s: Seq<char>, c: char)
    ensures
        index_of(s, c) matches Some(i) ==> 0 <= i < s.len() && s[i] == c && forall|j: int|
            0 <= j < i ==> s[j] != c,
        index_of(s, c) is None ==> forall|j: int| 0 <= j < s.len() ==> s[j] != c,
    decreases s.len(),
{
    if s.len() > 0 && s[0] != c {
        lemma_index_of(s.drop_first(), c);
        if let Some(i) = index_of(s.drop_first(), c) {
            assert forall|j: int| 0 <= j < i + 1 implies s[j] != c by {
                if j > 0 {
                    assert(s[j] == s.drop_first()[j - 1]);
                }
            }
        } else {
            assert forall|j: int| 0 <= j < s.len() implies s[j] != c by {
                if j > 0 {
                    assert(s[j] == s.drop_first()[j - 1]);
                }
            }
        }
    }
}

/// A first occurrence found by scanning is `index_of`.
pub proof fn lemma_index_of_is(s: Seq<char>, c: char, i: int)
    requires
        0 <= i < s.len(),
        s[i] == c,
        forall|j: int| 0 <= j < i ==> s[j] != c,
    ensures
        index_of(s, c) == Some(i),
{
    lemma_index_of(s, c);
    if let Some(k) = index_of(s, c) {
        assert(k == i);
    }
}

/// The position of the first `c` in `v[lo..hi]`, relative to `lo`.
pub fn find_char(v: &[char], lo: usize, hi: usize, c: char) -> (r: Option<usize>)
    requires
        lo <= hi <= v.len(),
    ensures
        r matches Some(i) ==> lo <= i < hi && index_of(v@.subrange(lo as int, hi as int), c)
            == Some(i - lo),
        r is None ==> index_of(v@.subrange(lo as int, hi as int), c) is None,
{
    let ghost s = v@.subrange(lo as int, hi as int);
    let mut i = lo;
    while i < hi
        invariant
            lo <= i <= hi <= v.len(),
            s == v@.subrange(lo as int, hi as int),
            forall|j: int| lo <= j < i ==> v@[j] != c,
        decreases hi - i,
    {
        if v[i] == c {
            proof {
                lemma_index_of_is(s, c, i - lo);
            }
            return Some(i);
        }
        i += 1;
    }
    proof {
        lemma_index_of(s, c);
        if let Some(k) = index_of(s, c) {
            assert(s[k] == v@[lo + k]);
        }
    }
    None
}

/// `str::split_once` on a character: the parts before and after the first `c`.
pub open spec fn split_once(s: Seq<char>, c: char) -> Option<(Seq<char>, Seq<char>)> {
    match index_of(s, c) {
        Some(i) => Some((s.take(i), s.skip(i + 1))),
        None => None,
    }
}

/// A line without the carriage return that ended it.
pub open spec fn strip_cr(l: Seq<char>) -> Seq<char> {
    if l.len() > 0 && l.last() == '\r' {
        l.drop_last()
    } else {
        l
    }
}

/// The lines of `s`, as `str::lines` yields them: split at `\n`, a `\r`
/// before the `\n` removed, and no empty line after a final `\n`.
pub open spec fn lines(s: Seq<char>) -> Seq<Seq<char>>
    decreases s.len(),
{
    if s.len() == 0 {
        seq![]
    } else {
        match index_of(s, '\n') {
            Some(i) => {
                proof {
                    lemma_index_of(s, '\n');
                }
                seq![strip_cr(s.take(i))] + lines(s.skip(i + 1))
            },
            None => seq![s],
        }
    }
}

/// A line without `\n` and not ending in `\r`, then `\n`, is one line.
pub proof fn lemma_lines_cons(a: Seq<char>, rest: Seq<char>)
    requires
        forall|i: int| 0 <= i < a.len() ==> a[i] != '\n',
        a.len() > 0 ==> a.last() != '\r',
    ensures
        lines(a + seq!['\n'] + rest) == seq![a] + lines(rest),
{
    let s = a + seq!['\n'] + rest;
    lemma_index_of_is(s, '\n', a.len() as int);
    assert(s.take(a.len() as int) =~= a);
    assert(s.skip(a.len() as int + 1) =~= rest);
}

/// Splits `v` into its lines (`str::lines`).
pub fn split_lines(v: &[char]) -> (r: Vec<Vec<char>>)
    ensures
        vviews(r@) == lines(v@),
{
    let mut r: Vec<Vec<char>> = Vec::new();
    let mut start: usize = 0;
    assert(v@.skip(0) =~= v@);
    assert(vviews(r@) + lines(v@) =~= lines(v@));
    while start < v.len()
        invariant
            start <= v.len(),
            lines(v@) == vviews(r@) + lines(v@.skip(start as int)),
        decreases v.len() - start,
    {
        let ghost rest = v@.skip(start as int);
        assert(rest =~= v@.subrange(start as int, v.len() as int));
        match find_char(v, start, v.len(), '\n') {
            Some(i) => {
                let mut line = sub_chars(v, start, i);
                if line.len() > 0 && line[line.len() - 1] == '\r' {
                    line.pop();
                }
                proof {
                    lemma_index_of(rest, '\n');
                    assert(rest.take(i - start) =~= v@.subrange(start as int, i as int));
                    assert(rest.skip(i - start + 1) =~= v@.skip(i + 1));
                }
                let ghost old_r = vviews(r@);
                r.push(line);
                assert(vviews(r@) =~= old_r.push(strip_cr(rest.take(i - start))));
                start = i + 1;
            },
            None => {
                let line = sub_chars(v, start, v.len());
                let ghost old_r = vviews(r@);
                r.push(line);
                assert(vviews(r@) =~= old_r.push(rest));
                assert(v@.skip(v.len() as int) =~= Seq::<char>::empty());
                assert(lines(v@) =~= vviews(r@));
                return r;
            },
        }
    }
    assert(v@.skip(start as int) =~= Seq::<char>::empty());
    assert(lines(v@) =~= vviews(r@));
    r
}


// ---------------------------------------------------------------------------
// Prefixes, substrings, replacement and joining
// ---------------------------------------------------------------------------

/// Whether `v[lo..]` starts with `p`.
pub fn starts_with_at(v: &[char], lo: usize, p: &[char]) -> (r: bool)
    requires
        lo <= v.len(),
    ensures
        r == p@.is_prefix_of(v@.skip(lo as int)),
{
    if p.len() > v.len() - lo {
        return false;
    }
    let mut i: usize = 0;
    while i < p.len()
        invariant
            lo + p.len() <= v.len(),
            i <= p.len(),
            forall|j: int| 0 <= j < i ==> p@[j] == v@[lo + j],
        decreases p.len() - i,
    {
        if p[i] != v[lo + i] {
            assert(v@.skip(lo as int)[i as int] == v@[lo + i]);
            return false;
        }
        i += 1;
    }
    assert(p@ =~= v@.skip(lo as int).take(p.len() as int));
    true
}

/// Holds of the strings other than `e`.
pub open spec fn other_than(e: Seq<char>) -> spec_fn(Seq<char>) -> bool {
    |x: Seq<char>| x != e
}

/// `str::strip_prefix`: the rest of `s` after the prefix `p`, if `s` starts with `p`.
pub open spec fn strip_prefix(s: Seq<char>, p: Seq<char>) -> Option<Seq<char>> {
    if p.is_prefix_of(s) {
        Some(s.skip(p.len() as int))
    } else {
        None
    }
}

/// `p` occurs in `s` at index `i`.
pub open spec fn occurs_at(s: Seq<char>, p: Seq<char>, i: int) -> bool {
    0 <= i && i + p.len() <= s.len() && s.subrange(i, i + p.len()) == p
}

/// `p` occurs somewhere in `s` (`str::contains`).
pub open spec fn contains_seq(s: Seq<char>, p: Seq<char>) -> bool {
    exists|i: int| occurs_at(s, p, i)
}

/// Whether `p` occurs in `s`.
pub fn chars_contain(s: &[char], p: &[char]) -> (r: bool)
    ensures
        r == contains_seq(s@, p@),
{
    if p.len() > s.len() {
        assert forall|i: int| !occurs_at(s@, p@, i) by {}
        return false;
    }
    let mut i: usize = 0;
    while i <= s.len() - p.len()
        invariant
            p.len() <= s.len(),
            i <= s.len() - p.len() + 1,
            forall|k: int| 0 <= k < i ==> !occurs_at(s@, p@, k),
        decreases s.len() - p.len() + 1 - i,
    {
        if starts_with_at(s, i, p) {
            assert(s@.skip(i as int).take(p.len() as int) =~= s@.subrange(
                i as int,
                i + p.len(),
            ));
            assert(occurs_at(s@, p@, i as int));
            return true;
        }
        assert(s@.skip(i as int).take(p.len() as int) =~= s@.subrange(i as int, i + p.len()));
        i += 1;
    }
    assert forall|k: int| !occurs_at(s@, p@, k) by {
        if 0 <= k && k + p.len() <= s.len() {
            assert(k < i);
        }
    }
    false
}

/// `s` with every non-overlapping occurrence of `p`, from left to right,
/// replaced by `t` (`str::replace` for a non-empty pattern).
pub open spec fn replace_all(s: Seq<char>, p: Seq<char>, t: Seq<char>) -> Seq<char>
    decreases s.len(),
{
    if s.len() == 0 || p.len() == 0 {
        s
    } else if p.is_prefix_of(s) {
        t + replace_all(s.skip(p.len() as int), p, t)
    } else {
        seq![s[0]] + replace_all(s.drop_first(), p, t)
    }
}

/// Replaces every occurrence of `p` in `s` by `t`.
pub fn replace_chars(s: &[char], p: &[char], t: &[char]) -> (r: Vec<char>)
    requires
        p.len() > 0,
    ensures
        r@ == replace_all(s@, p@, t@),
{
    let mut r: Vec<char> = Vec::new();
    let mut i: usize = 0;
    assert(s@.skip(0) =~= s@);
    while i < s.len()
        invariant
            p.len() > 0,
            i <= s.len(),
            replace_all(s@, p@, t@) == r@ + replace_all(s@.skip(i as int), p@, t@),
        decreases s.len() - i,
    {
        let ghost rest = s@.skip(i as int);
        let ghost old_r = r@;
        if starts_with_at(s, i, p) {
            let mut k: usize = 0;
            while k < t.len()
                invariant
                    k <= t.len(),
                    r@ == old_r + t@.take(k as int),
                decreases t.len() - k,
            {
                r.push(t[k]);
                k += 1;
                assert(r@ =~= old_r + t@.take(k as int));
            }
            assert(t@.take(t.len() as int) =~= t@);
            assert(rest.skip(p.len() as int) =~= s@.skip(i + p.len()));
            assert(old_r + (t@ + replace_all(rest.skip(p.len() as int), p@, t@)) =~= r@
                + replace_all(s@.skip(i + p.len()), p@, t@));
            i += p.len();
        } else {
            r.push(s[i]);
            assert(rest.drop_first() =~= s@.skip(i + 1));
            assert(old_r + (seq![s@[i as int]] + replace_all(rest.drop_first(), p@, t@)) =~= r@
                + replace_all(s@.skip(i + 1), p@, t@));
            i += 1;
        }
    }
    assert(s@.skip(i as int) =~= Seq::<char>::empty());
    assert(r@ + Seq::<char>::empty() =~= r@);
    r
}

/// The parts joined with `sep` between consecutive parts (`join`).
pub open spec fn join(parts: Seq<Seq<char>>, sep: Seq<char>) -> Seq<char>
    decreases parts.len(),
{
    if parts.len() == 0 {
        Seq::empty()
    } else if parts.len() == 1 {
        parts[0]
    } else {
        join(parts.drop_last(), sep) + sep + parts.last()
    }
}

/// Appends the characters of `s` to `r`.
pub fn extend_chars(r: &mut Vec<char>, s: &[char])
    ensures
        final(r)@ == old(r)@ + s@,
{
    let ghost r0 = r@;
    let mut k: usize = 0;
    while k < s.len()
        invariant
            k <= s.len(),
            r@ == r0 + s@.take(k as int),
        decreases s.len() - k,
    {
        r.push(s[k]);
        k += 1;
        assert(r@ =~= r0 + s@.take(k as int));
    }
    assert(s@.take(s.len() as int) =~= s@);
}

/// Appends the characters of the string `s` to `r`.
pub fn extend_str(r: &mut Vec<char>, s: &str)
    ensures
        final(r)@ == old(r)@ + s@,
{
    let v = chars_of(s);
    extend_chars(r, v.as_slice());
}

/// Joins strings with a separator.
pub fn join_strings(parts: &[String], sep: &str) -> (r: Vec<char>)
    ensures
        r@ == join(sviews(parts@), sep@),
{
    let mut r: Vec<char> = Vec::new();
    let mut i: usize = 0;
    while i < parts.len()
        invariant
            i <= parts.len(),
            r@ == join(sviews(parts@).take(i as int), sep@),
        decreases parts.len() - i,
    {
        let ghost prev = sviews(parts@).take(i as int);
        if i > 0 {
            extend_str(&mut r, sep);
        }
        extend_str(&mut r, parts[i].as_str());
        i += 1;
        proof {
            let cur = sviews(parts@).take(i as int);
            assert(cur.drop_last() =~= prev);
            if i == 1 {
                assert(r@ =~= cur[0]);
            }
        }
    }
    assert(sviews(parts@).take(parts.len() as int) =~= sviews(parts@));
    r
}

// ---------------------------------------------------------------------------
// ASCII case
// ---------------------------------------------------------------------------

/// `char::to_ascii_lowercase`.
pub open spec fn ascii_lower(c: char) -> char {
    if 65 <= (c as u32) <= 90 {
        ((c as u32) + 32) as char
    } else {
        c
    }
}

/// `str::to_ascii_lowercase`.
pub open spec fn ascii_lower_seq(s: Seq<char>) -> Seq<char> {
    s.map_values(|c: char| ascii_lower(c))
}

/// `str::eq_ignore_ascii_case`.
pub open spec fn eq_ignore_ascii_case(a: Seq<char>, b: Seq<char>) -> bool {
    ascii_lower_seq(a) == ascii_lower_seq(b)
}

/// Lowercases one ASCII letter.
pub fn to_ascii_lower(c: char) -> (r: char)
    ensures
        r == ascii_lower(c),
{
    let u = c as u32;
    if 65 <= u && u <= 90 {
        ((u as u8) + 32) as char
    } else {
        c
    }
}

/// `v` with its ASCII letters lowercased.
pub fn ascii_lowercase(v: &[char]) -> (r: Vec<char>)
    ensures
        r@ == ascii_lower_seq(v@),
{
    let mut r: Vec<char> = Vec::new();
    let mut i: usize = 0;
    while i < v.len()
        invariant
            i <= v.len(),
            r@ == ascii_lower_seq(v@.take(i as int)),
        decreases v.len() - i,
    {
        r.push(to_ascii_lower(v[i]));
        i += 1;
        assert(r@ =~= ascii_lower_seq(v@.take(i as int)));
    }
    assert(v@.take(v.len() as int) =~= v@);
    r
}

/// Whether two strings are equal when ASCII case is ignored.
pub fn str_eq_ignore_ascii_case(a: &str, b: &str) -> (r: bool)
    ensures
        r == eq_ignore_ascii_case(a@, b@),
{
    let x = chars_of(a);
    let y = chars_of(b);
    let lx = ascii_lowercase(x.as_slice());
    let ly = ascii_lowercase(y.as_slice());
    chars_eq(lx.as_slice(), ly.as_slice())
}


// ---------------------------------------------------------------------------
// Ordering
// ---------------------------------------------------------------------------

/// `a` comes before `b` in the order of strings: lexicographic by code point
/// (the order `String` compares in, since UTF-8 keeps code point order).
pub open spec fn lex_lt(a: Seq<char>, b: Seq<char>) -> bool
    decreases a.len(),
{
    if a.len() == 0 {
        b.len() > 0
    } else if b.len() == 0 {
        false
    } else if a[0] != b[0] {
        (a[0] as u32) < (b[0] as u32)
    } else {
        lex_lt(a.drop_first(), b.drop_first())
    }
}

/// The order of strings is a strict total order.
pub proof fn lemma_lex_order(a: Seq<char>, b: Seq<char>, c: Seq<char>)
    ensures
        !lex_lt(a, a),
        a != b ==> lex_lt(a, b) || lex_lt(b, a),
        lex_lt(a, b) ==> !lex_lt(b, a),
        lex_lt(a, b) && lex_lt(b, c) ==> lex_lt(a, c),
    decreases a.len(),
{
    if a.len() > 0 && b.len() > 0 && a[0] != b[0] {
        assert((a[0] as u32) != (b[0] as u32)) by {
            if (a[0] as u32) == (b[0] as u32) {
                vstd::utf8::char_u32_cast(a[0], a[0] as u32);
                vstd::utf8::char_u32_cast(b[0], b[0] as u32);
            }
        }
    }
    if a.len() > 0 {
        lemma_lex_order(a.drop_first(), a.drop_first(), a.drop_first());
        if b.len() > 0 {
            lemma_lex_order(a.drop_first(), b.drop_first(), a.drop_first());
            if c.len() > 0 {
                lemma_lex_order(a.drop_first(), b.drop_first(), c.drop_first());
            }
            if a != b && a[0] == b[0] {
                assert(a.drop_first() != b.drop_first()) by {
                    if a.drop_first() == b.drop_first() {
                        assert(a =~= b) by {
                            assert forall|i: int| 0 <= i < a.len() implies a[i] == b[i] by {
                                if i > 0 {
                                    assert(a[i] == a.drop_first()[i - 1]);
                                    assert(b[i] == b.drop_first()[i - 1]);
                                }
                            }
                        }
                    }
                }
            }
        }
    } else {
        if a != b {
            assert(b.len() > 0) by {
                if b.len() == 0 {
                    assert(a =~= b);
                }
            }
        }
    }
}

/// Whether `a` comes before `b`.
pub fn chars_lt(a: &[char], b: &[char]) -> (r: bool)
    ensures
        r == lex_lt(a@, b@),
{
    let mut i: usize = 0;
    assert(a@.skip(0) =~= a@);
    assert(b@.skip(0) =~= b@);
    while i < a.len() && i < b.len() && a[i] == b[i]
        invariant
            i <= a.len(),
            i <= b.len(),
            lex_lt(a@, b@) == lex_lt(a@.skip(i as int), b@.skip(i as int)),
        decreases a.len() - i,
    {
        assert(a@.skip(i as int).drop_first() =~= a@.skip(i + 1));
        assert(b@.skip(i as int).drop_first() =~= b@.skip(i + 1));
        i += 1;
    }
    if i == a.len() {
        i < b.len()
    } else if i == b.len() {
        false
    } else {
        (a[i] as u32) < (b[i] as u32)
    }
}

/// The elements in strictly increasing order of strings.
pub open spec fn strictly_sorted(s: Seq<Seq<char>>) -> bool {
    forall|i: int, j: int| 0 <= i < j < s.len() ==> lex_lt(s[i], s[j])
}

/// The strings of `v` in increasing order (`sort`), for strings that are all
/// different: the result holds the same strings, sorted.
pub fn sort_strings(v: Vec<String>) -> (r: Vec<String>)
    requires
        sviews(v@).no_duplicates(),
    ensures
        r@.len() == v@.len(),
        strictly_sorted(sviews(r@)),
        forall|x: Seq<char>| sviews(r@).contains(x) <==> sviews(v@).contains(x),
{
    let ghost s = sviews(v@);
    let mut r: Vec<String> = Vec::new();
    let mut k: usize = 0;
    while k < v.len()
        invariant
            k <= v.len(),
            s == sviews(v@),
            s.no_duplicates(),
            r@.len() == k,
            strictly_sorted(sviews(r@)),
            forall|x: Seq<char>| sviews(r@).contains(x) <==> s.take(k as int).contains(x),
        decreases v.len() - k,
    {
        let x = v[k].clone();
        let xv = chars_of(x.as_str());
        let ghost xs = x@;
        assert(xs == s[k as int]);
        assert(!sviews(r@).contains(xs)) by {
            if sviews(r@).contains(xs) {
                assert(s.take(k as int).contains(xs));
                let j = choose|j: int| 0 <= j < k && #[trigger] s.take(k as int)[j] == xs;
                assert(s[j] == s[k as int]);
            }
        }
        // find the insertion point
        let mut p: usize = 0;
        while p < r.len() && chars_lt(chars_of(r[p].as_str()).as_slice(), xv.as_slice())
            invariant
                p <= r.len(),
                forall|j: int| 0 <= j < p ==> lex_lt(sviews(r@)[j], xs),
                xv@ == xs,
            decreases r.len() - p,
        {
            p += 1;
        }
        let ghost old_r = sviews(r@);
        proof {
            if p < old_r.len() {
                lemma_lex_order(old_r[p as int], xs, xs);
                assert(old_r[p as int] != xs) by {
                    assert(old_r.contains(old_r[p as int]));
                }
                assert(lex_lt(xs, old_r[p as int]));
            }
        }
        r.insert(p, x);
        assert(sviews(r@) =~= old_r.insert(p as int, xs));
        proof {
            let nr = sviews(r@);
            assert forall|i: int, j: int| 0 <= i < j < nr.len() implies lex_lt(nr[i], nr[j]) by {
                if i < p && j == p {
                } else if i < p && j > p {
                    assert(nr[j] == old_r[j - 1]);
                    lemma_lex_order(nr[i], xs, old_r[p as int]);
                    if j - 1 > p {
                        lemma_lex_order(nr[i], old_r[p as int], old_r[j - 1]);
                        lemma_lex_order(xs, old_r[p as int], old_r[j - 1]);
                    }
                } else if i == p {
                    assert(nr[j] == old_r[j - 1]);
                    if j - 1 > p {
                        lemma_lex_order(xs, old_r[p as int], old_r[j - 1]);
                    }
                } else if i > p {
                    assert(nr[i] == old_r[i - 1] && nr[j] == old_r[j - 1]);
                } else {
                    assert(nr[i] == old_r[i] && nr[j] == old_r[j]);
                }
            }
            assert(s.take(k + 1) =~= s.take(k as int).push(xs));
            assert forall|y: Seq<char>| nr.contains(y) <==> s.take(k + 1).contains(y) by {
                if nr.contains(y) {
                    let j = choose|j: int| 0 <= j < nr.len() && nr[j] == y;
                    if j < p {
                        assert(old_r[j] == y);
                        assert(old_r.contains(y));
                    } else if j > p {
                        assert(old_r[j - 1] == y);
                        assert(old_r.contains(y));
                    }
                    if y != xs {
                        assert(s.take(k as int).contains(y));
                        let m = choose|m: int| 0 <= m < k && #[trigger] s.take(k as int)[m] == y;
                        assert(s.take(k + 1)[m] == y);
                    } else {
                        assert(s.take(k + 1)[k as int] == y);
                    }
                }
                if s.take(k + 1).contains(y) {
                    let m = choose|m: int| 0 <= m < k + 1 && #[trigger] s.take(k + 1)[m] == y;
                    if m < k {
                        assert(s.take(k as int)[m] == y);
                        assert(old_r.contains(y));
                        let j = choose|j: int| 0 <= j < old_r.len() && old_r[j] == y;
                        if j < p {
                            assert(nr[j] == y);
                        } else {
                            assert(nr[j + 1] == y);
                        }
                    } else {
                        assert(nr[p as int] == y);
                    }
                }
            }
        }
        k += 1;
    }
    assert(s.take(v.len() as int) =~= s);
    r
}


/// A character that no part and not the separator holds is not in the join.
pub proof fn lemma_join_avoids(parts: Seq<Seq<char>>, sep: Seq<char>, c: char)
    requires
        forall|k: int, i: int| 0 <= k < parts.len() && 0 <= i < parts[k].len() ==> #[trigger] parts[k][i] != c,
        forall|i: int| 0 <= i < sep.len() ==> sep[i] != c,
    ensures
        forall|i: int| 0 <= i < join(parts, sep).len() ==> join(parts, sep)[i] != c,
    decreases parts.len(),
{
    if parts.len() == 1 {
        assert forall|i: int| 0 <= i < join(parts, sep).len() implies join(parts, sep)[i] != c by {
            assert(parts[0][i] != c);
        }
    } else if parts.len() > 1 {
        let d = parts.drop_last();
        assert forall|k: int, i: int| 0 <= k < d.len() && 0 <= i < d[k].len() implies #[trigger] d[k][i] != c by {
            assert(d[k] == parts[k]);
        }
        lemma_join_avoids(d, sep, c);
        let a = join(d, sep);
        let l = parts.last();
        assert forall|i: int| 0 <= i < join(parts, sep).len() implies join(parts, sep)[i] != c by {
            if i >= a.len() + sep.len() {
                assert(join(parts, sep)[i] == l[i - a.len() - sep.len()]);
                assert(parts[parts.len() - 1][i - a.len() - sep.len()] != c);
            } else if i >= a.len() {
                assert(join(parts, sep)[i] == sep[i - a.len()]);
            } else {
                assert(join(parts, sep)[i] == a[i]);
            }
        }
    }
}

/// The join of non-empty parts starts with the first part's first character
/// and ends with the last part's last character.
pub proof fn lemma_join_ends(parts: Seq<Seq<char>>, sep: Seq<char>)
    requires
        parts.len() > 0,
        forall|k: int| 0 <= k < parts.len() ==> #[trigger] parts[k].len() > 0,
    ensures
        join(parts, sep).len() > 0,
        join(parts, sep)[0] == parts[0][0],
        join(parts, sep).last() == parts.last().last(),
    decreases parts.len(),
{
    assert(parts[0].len() > 0);
    assert(parts.last().len() > 0);
    if parts.len() > 1 {
        let d = parts.drop_last();
        assert forall|k: int| 0 <= k < d.len() implies #[trigger] d[k].len() > 0 by {
            assert(d[k] == parts[k]);
        }
        lemma_join_ends(d, sep);
        assert(d[0] == parts[0]);
    }
}


/// A piece without `\n`, then `\n`, then the rest: the first line is the
/// piece without a final `\r`.
pub proof fn lemma_lines_split(a: Seq<char>, rest: Seq<char>)
    requires
        forall|i: int| 0 <= i < a.len() ==> a[i] != '\n',
    ensures
        lines(a + seq!['\n'] + rest) == seq![strip_cr(a)] + lines(rest),
{
    let s = a + seq!['\n'] + rest;
    lemma_index_of_is(s, '\n', a.len() as int);
    assert(s.take(a.len() as int) =~= a);
    assert(s.skip(a.len() as int + 1) =~= rest);
}

/// The lines of a text that is empty or ends with `\n`, followed by more
/// text, are its lines followed by the lines of the rest.
pub proof fn lemma_lines_append(x: Seq<char>, y: Seq<char>)
    requires
        x.len() == 0 || x.last() == '\n',
    ensures
        lines(x + y) == lines(x) + lines(y),
    decreases x.len(),
{
    if x.len() == 0 {
        assert(x + y =~= y);
        assert(lines(x) =~= Seq::<Seq<char>>::empty());
        assert(Seq::<Seq<char>>::empty() + lines(y) =~= lines(y));
    } else {
        lemma_index_of(x, '\n');
        let i = index_of(x, '\n').unwrap();
        let a = x.take(i);
        let r = x.skip(i + 1);
        assert(x =~= a + seq!['\n'] + r);
        assert forall|j: int| 0 <= j < a.len() implies a[j] != '\n' by {}
        lemma_lines_split(a, r);
        assert(x + y =~= a + seq!['\n'] + (r + y));
        lemma_lines_split(a, r + y);
        if r.len() > 0 {
            assert(r.last() == x.last());
        }
        lemma_lines_append(r, y);
        assert(seq![strip_cr(a)] + (lines(r) + lines(y)) =~= seq![strip_cr(a)] + lines(r) + lines(y));
    }
}


/// A text has no more lines than characters.
pub proof fn lemma_lines_len(s: Seq<char>)
    ensures
        lines(s).len() <= s.len(),
    decreases s.len(),
{
    if s.len() > 0 {
        lemma_index_of(s, '\n');
        if let Some(i) = index_of(s, '\n') {
            lemma_lines_len(s.skip(i + 1));
        }
    }
}

} // verus!
