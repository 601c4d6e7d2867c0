//! Decimal integers: what `str::parse` accepts for the integer types, and the
//! digits that `Display` writes for them.

use vstd::prelude::*;

verus! {

/// An ASCII decimal digit.
pub open spec fn is_digit(c: char) -> bool {
    48 <= (c as u32) <= 57
}

/// The value of a decimal digit.
pub open spec fn digit_value(c: char) -> nat {
    ((c as u32) - 48) as nat
}

/// Every character of `s` is a decimal digit.
pub open spec fn all_digits(s: Seq<char>) -> bool {
    forall|i: int| 0 <= i < s.len() ==> is_digit(s[i])
}

/// The number that a string of decimal digits denotes.
pub open spec fn digits_value(s: Seq<char>) -> nat
    decreases s.len(),
{
    if s.len() == 0 {
        0
    } else {
        digits_value(s.drop_last()) * 10 + digit_value(s.last())
    }
}

/// What `str::parse` gives for an unsigned integer type, before the range
/// check: an optional `+`, then one or more decimal digits.
pub open spec fn parse_unsigned(s: Seq<char>) -> Option<nat> {
    let d = if s.len() > 0 && s[0] == '+' {
        s.drop_first()
    } else {
        s
    };
    if d.len() > 0 && all_digits(d) {
        Some(digits_value(d))
    } else {
        None
    }
}

/// What `str::parse` gives for a signed integer type, before the range
/// check: an optional `+` or `-`, then one or more decimal digits.
pub open spec fn parse_signed(s: Seq<char>) -> Option<int> {
    if s.len() > 0 && s[0] == '-' {
        let d = s.drop_first();
        if d.len() > 0 && all_digits(d) {
            Some(-digits_value(d))
        } else {
            None
        }
    } else {
        match parse_unsigned(s) {
            Some(n) => Some(n as int),
            None => None,
        }
    }
}

/// `s.parse::<usize>()` succeeds with the value `n`.
pub open spec fn parses_as_usize(s: Seq<char>) -> Option<usize> {
    match parse_unsigned(s) {
        Some(n) => if n <= usize::MAX {
            Some(n as usize)
        } else {
            None
        },
        None => None,
    }
}

/// `s.parse::<u64>()`.
pub open spec fn parses_as_u64(s: Seq<char>) -> Option<u64> {
    match parse_unsigned(s) {
        Some(n) => if n <= u64::MAX {
            Some(n as u64)
        } else {
            None
        },
        None => None,
    }
}

/// `s.parse::<isize>()`.
pub open spec fn parses_as_isize(s: Seq<char>) -> Option<isize> {
    match parse_signed(s) {
        Some(n) => if isize::MIN <= n <= isize::MAX {
            Some(n as isize)
        } else {
            None
        },
        None => None,
    }
}

proof fn lemma_digits_value_take_le(s: Seq<char>, i: int)
    requires
        0 <= i <= s.len(),
    ensures
        digits_value(s.take(i)) <= digits_value(s),
    decreases s.len() - i,
{
    if i < s.len() {
        lemma_digits_value_take_le(s.drop_last(), i);
        assert(s.drop_last().take(i) =~= s.take(i));
    } else {
        assert(s.take(i) =~= s);
    }
}

/// The value of the digits `v[lo..hi]`, if they are all digits, there is at
/// least one, and the value fits in a `u64`.
fn digits_u64(v: &[char], lo: usize, hi: usize) -> (r: Option<u64>)
    requires
        lo <= hi <= v.len(),
    ensures
        ({
            let d = v@.subrange(lo as int, hi as int);
            match r {
                Some(n) => d.len() > 0 && all_digits(d) && digits_value(d) == n,
                None => !(d.len() > 0 && all_digits(d) && digits_value(d) <= u64::MAX),
            }
        }),
{
    let ghost d = v@.subrange(lo as int, hi as int);
    if lo == hi {
        return None;
    }
    let mut acc: u64 = 0;
    let mut i = lo;
    while i < hi
        invariant
            lo <= i <= hi <= v.len(),
            d == v@.subrange(lo as int, hi as int),
            all_digits(d.take(i - lo)),
            digits_value(d.take(i - lo)) == acc,
        decreases hi - i,
    {
        let c = v[i];
        let u = c as u32;
        if !(48 <= u && u <= 57) {
            assert(!is_digit(d[i - lo]));
            return None;
        }
        let digit = (u - 48) as u64;
        assert(d.take(i - lo + 1).drop_last() =~= d.take(i - lo));
        if acc > (u64::MAX - digit) / 10 {
            proof {
                assert(acc * 10 + digit > u64::MAX) by (nonlinear_arith)
                    requires
                        acc > (u64::MAX - digit) / 10,
                        digit <= 9,
                ;
                lemma_digits_value_take_le(d, i - lo + 1);
            }
            return None;
        }
        acc = acc * 10 + digit;
        i += 1;
    }
    assert(d.take(hi - lo) =~= d);
    Some(acc)
}

/// `v[lo..hi].parse::<u64>()`.
pub fn parse_u64_range(v: &[char], lo: usize, hi: usize) -> (r: Option<u64>)
    requires
        lo <= hi <= v.len(),
    ensures
        r == parses_as_u64(v@.subrange(lo as int, hi as int)),
{
    let ghost s = v@.subrange(lo as int, hi as int);
    let start = if lo < hi && v[lo] == '+' {
        lo + 1
    } else {
        lo
    };
    if lo < hi {
        assert(s.drop_first() =~= v@.subrange(lo + 1, hi as int));
    }
    digits_u64(v, start, hi)
}

/// `v[lo..hi].parse::<usize>()`.
pub fn parse_usize_range(v: &[char], lo: usize, hi: usize) -> (r: Option<usize>)
    requires
        lo <= hi <= v.len(),
    ensures
        r == parses_as_usize(v@.subrange(lo as int, hi as int)),
{
    let ghost s = v@.subrange(lo as int, hi as int);
    let start = if lo < hi && v[lo] == '+' {
        lo + 1
    } else {
        lo
    };
    if lo < hi {
        assert(s.drop_first() =~= v@.subrange(lo + 1, hi as int));
    }
    match digits_u64(v, start, hi) {
        Some(n) => {
            if n as u128 <= usize::MAX as u128 {
                Some(n as usize)
            } else {
                None
            }
        },
        None => {
            proof {
                assert(usize::MAX <= u64::MAX);
            }
            None
        },
    }
}

/// `s.parse::<usize>()`: an index or count typed by the user.
pub fn parse_index(s: &str) -> (r: Option<usize>)
    ensures
        r == parses_as_usize(s@),
{
    let v = crate::text::chars_of(s);
    assert(v@.subrange(0, v.len() as int) =~= s@);
    parse_usize_range(v.as_slice(), 0, v.len())
}

/// `v[lo..hi].parse::<isize>()`.
pub fn parse_isize_range(v: &[char], lo: usize, hi: usize) -> (r: Option<isize>)
    requires
        lo <= hi <= v.len(),
    ensures
        r == parses_as_isize(v@.subrange(lo as int, hi as int)),
{
    let ghost s = v@.subrange(lo as int, hi as int);
    if lo < hi {
        assert(s.drop_first() =~= v@.subrange(lo + 1, hi as int));
    }
    assert(isize::MAX < u64::MAX);
    if lo < hi && v[lo] == '-' {
        match digits_u64(v, lo + 1, hi) {
            Some(n) => {
                if n as i128 <= -(isize::MIN as i128) {
                    Some((-(n as i128)) as isize)
                } else {
                    None
                }
            },
            None => None,
        }
    } else {
        let start = if lo < hi && v[lo] == '+' {
            lo + 1
        } else {
            lo
        };
        match digits_u64(v, start, hi) {
            Some(n) => {
                if n as i128 <= isize::MAX as i128 {
                    Some(n as isize)
                } else {
                    None
                }
            },
            None => None,
        }
    }
}

/// The decimal digit for `d < 10`.
pub open spec fn digit_char(d: nat) -> char {
    (48 + d) as char
}

/// The decimal digits of `n`, without leading zeros.
pub open spec fn decimal(n: nat) -> Seq<char>
    decreases n,
{
    if n < 10 {
        seq![digit_char(n)]
    } else {
        decimal(n / 10).push(digit_char(n % 10))
    }
}

/// How `Display` writes an integer.
pub open spec fn decimal_int(n: int) -> Seq<char> {
    if n < 0 {
        seq!['-'] + decimal((-n) as nat)
    } else {
        decimal(n as nat)
    }
}

/// The digits of `n` read back give `n`.
pub proof fn lemma_decimal_digits(n: nat)
    ensures
        decimal(n).len() > 0,
        all_digits(decimal(n)),
        digits_value(decimal(n)) == n,
        decimal(n)[0] != '+' && decimal(n)[0] != '-',
    decreases n,
{
    if n >= 10 {
        lemma_decimal_digits(n / 10);
        assert(decimal(n).drop_last() =~= decimal(n / 10));
        let d = (n % 10) as nat;
        assert(digit_char(d) as u32 == 48 + d);
        assert(decimal(n).last() == digit_char(d));
        assert(digits_value(decimal(n)) == digits_value(decimal(n / 10)) * 10 + d);
        assert((n / 10) * 10 + d == n);
    } else {
        assert(digit_char(n) as u32 == 48 + n);
        assert(decimal(n).drop_last() =~= Seq::<char>::empty());
        assert(digits_value(Seq::<char>::empty()) == 0);
        assert(digits_value(decimal(n)) == n);
    }
}

/// Parsing what `Display` writes gives the number back.
pub proof fn lemma_parse_decimal_int(n: int)
    ensures
        parse_signed(decimal_int(n)) == Some(n),
{
    if n < 0 {
        lemma_decimal_digits((-n) as nat);
        assert((seq!['-'] + decimal((-n) as nat)).drop_first() =~= decimal((-n) as nat));
    } else {
        lemma_decimal_digits(n as nat);
    }
}

/// Parsing what `Display` writes for an unsigned number gives it back.
pub proof fn lemma_parse_decimal_nat(n: nat)
    ensures
        parse_unsigned(decimal(n)) == Some(n),
{
    lemma_decimal_digits(n);
}

/// Appends the decimal digits of `n` to `r`.
pub fn push_decimal(r: &mut Vec<char>, n: u64)
    ensures
        final(r)@ == old(r)@ + decimal(n as nat),
    decreases n,
{
    if n >= 10 {
        push_decimal(r, n / 10);
    }
    let d = (n % 10) as u8;
    r.push((48u8 + d) as char);
    proof {
        if n < 10 {
            assert(n % 10 == n);
        }
    }
    assert(final(r)@ =~= old(r)@ + decimal(n as nat)) by {
        if n >= 10 {
            assert(decimal(n as nat) =~= decimal((n / 10) as nat).push(digit_char((n % 10) as nat)));
        }
    }
}

/// Appends how `Display` writes `n` to `r`.
pub fn push_decimal_isize(r: &mut Vec<char>, n: isize)
    ensures
        final(r)@ == old(r)@ + decimal_int(n as int),
{
    if n < 0 {
        r.push('-');
        let m: u64 = (-(n as i128)) as u64;
        let ghost r1 = r@;
        push_decimal(r, m);
        assert(r@ =~= old(r)@ + decimal_int(n as int));
    } else {
        push_decimal(r, n as u64);
    }
}


/// Why `str::parse` refused a string as an integer (`IntErrorKind`).
#[derive(Clone, Copy, Debug, PartialEq, Eq, Structural)]
pub enum IntErrorKind {
    /// The string is empty.
    Empty,
    /// A character is not a digit (a lone sign counts as one).
    InvalidDigit,
    /// The value is above the type's maximum.
    PosOverflow,
    /// The value is below the type's minimum.
    NegOverflow,
}

/// The number of leading decimal digits of `s`.
pub open spec fn digit_run(s: Seq<char>) -> nat
    decreases s.len(),
{
    if s.len() > 0 && is_digit(s[0]) {
        1 + digit_run(s.drop_first())
    } else {
        0
    }
}

/// Why `s.parse::<isize>()` fails, if it does: the digits are read from the
/// left, so the value overflows before a later non-digit is seen.
pub open spec fn isize_error_of(s: Seq<char>) -> Option<IntErrorKind> {
    if s.len() == 0 {
        Some(IntErrorKind::Empty)
    } else if (s[0] == '+' || s[0] == '-') && s.len() == 1 {
        Some(IntErrorKind::InvalidDigit)
    } else {
        let neg = s[0] == '-';
        let d = if s[0] == '+' || s[0] == '-' {
            s.drop_first()
        } else {
            s
        };
        let k = digit_run(d);
        let v = digits_value(d.take(k as int));
        if !neg && v > isize::MAX {
            Some(IntErrorKind::PosOverflow)
        } else if neg && v > isize::MAX + 1 {
            Some(IntErrorKind::NegOverflow)
        } else if k < d.len() {
            Some(IntErrorKind::InvalidDigit)
        } else {
            None
        }
    }
}

/// The words that `ParseIntError` shows for each kind.
pub open spec fn int_error_text(k: IntErrorKind) -> Seq<char> {
    match k {
        IntErrorKind::Empty => "cannot parse integer from empty string"@,
        IntErrorKind::InvalidDigit => "invalid digit found in string"@,
        IntErrorKind::PosOverflow => "number too large to fit in target type"@,
        IntErrorKind::NegOverflow => "number too small to fit in target type"@,
    }
}

proof fn lemma_digit_run(s: Seq<char>)
    ensures
        digit_run(s) <= s.len(),
        all_digits(s.take(digit_run(s) as int)),
        digit_run(s) < s.len() ==> !is_digit(s[digit_run(s) as int]),
        all_digits(s) ==> digit_run(s) == s.len(),
    decreases s.len(),
{
    if s.len() > 0 && is_digit(s[0]) {
        lemma_digit_run(s.drop_first());
        let k = digit_run(s.drop_first()) as int;
        assert forall|i: int| 0 <= i < k + 1 implies is_digit(#[trigger] s.take(k + 1)[i]) by {
            if i > 0 {
                assert(s.take(k + 1)[i] == s.drop_first().take(k)[i - 1]);
            }
        }
        if all_digits(s) {
            assert forall|i: int| 0 <= i < s.len() - 1 implies is_digit(#[trigger] s.drop_first()[i]) by {
                assert(s.drop_first()[i] == s[i + 1]);
            }
        }
    } else {
        assert(s.take(0).len() == 0);
    }
}

/// A refused `isize` has a reason.
pub proof fn lemma_isize_error_exists(s: Seq<char>)
    ensures
        parses_as_isize(s) is None <==> isize_error_of(s) is Some,
{
    if s.len() > 0 && !((s[0] == '+' || s[0] == '-') && s.len() == 1) {
        let d = if s[0] == '+' || s[0] == '-' {
            s.drop_first()
        } else {
            s
        };
        lemma_digit_run(d);
        let k = digit_run(d);
        if k == d.len() {
            assert(d.take(k as int) =~= d);
        }
        if all_digits(d) {
            assert(d.take(k as int) =~= d);
        }
    }
}

/// Why `v[lo..hi].parse::<isize>()` fails.
pub fn isize_error_kind(v: &[char], lo: usize, hi: usize) -> (r: IntErrorKind)
    requires
        lo <= hi <= v.len(),
        isize_error_of(v@.subrange(lo as int, hi as int)) is Some,
    ensures
        isize_error_of(v@.subrange(lo as int, hi as int)) == Some(r),
{
    let ghost s = v@.subrange(lo as int, hi as int);
    if lo == hi {
        return IntErrorKind::Empty;
    }
    if (v[lo] == '+' || v[lo] == '-') && hi - lo == 1 {
        return IntErrorKind::InvalidDigit;
    }
    let neg = v[lo] == '-';
    let start = if v[lo] == '+' || v[lo] == '-' { lo + 1 } else { lo };
    let ghost d = v@.subrange(start as int, hi as int);
    assert(d =~= (if s[0] == '+' || s[0] == '-' { s.drop_first() } else { s }));
    proof {
        lemma_digit_run(d);
    }
    let ghost k = digit_run(d);
    // the digits read so far, with their value while it stays at most `cap`
    let cap: u128 = (isize::MAX as u128) + 1;
    let mut acc: u128 = 0;
    let mut over = false;
    let mut i = start;
    assert(d.take(0) =~= Seq::<char>::empty());
    while i < hi && 48 <= (v[i] as u32) && (v[i] as u32) <= 57
        invariant
            start <= i <= hi <= v.len(),
            d == v@.subrange(start as int, hi as int),
            k == digit_run(d),
            k <= d.len(),
            all_digits(d.take(k as int)),
            k < d.len() ==> !is_digit(d[k as int]),
            i - start <= k,
            !over ==> acc == digits_value(d.take(i - start)) && acc <= cap,
            over ==> digits_value(d.take(i - start)) > cap,
            cap == isize::MAX + 1,
        decreases hi - i,
    {
        proof {
            if i - start == k {
                assert(d[k as int] == v@[i as int]);
            }
            assert(d.take(i - start + 1).drop_last() =~= d.take(i - start));
            assert(d.take(i - start + 1).last() == v@[i as int]);
        }
        let digit = ((v[i] as u32) - 48) as u128;
        if !over {
            let next = acc * 10 + digit;
            if next > cap {
                over = true;
            } else {
                acc = next;
            }
        } else {
            proof {
                assert(digits_value(d.take(i - start + 1)) >= digits_value(d.take(i - start)) * 10)
                    by (nonlinear_arith)
                    requires
                        digits_value(d.take(i - start + 1)) == digits_value(d.take(i - start)) * 10
                            + digit_value(v@[i as int]),
                ;
            }
        }
        i += 1;
    }
    proof {
        if i < hi {
            assert(!is_digit(d[i - start]));
            if i - start < k {
                assert(d.take(k as int)[i - start] == d[i - start]);
            }
        }
        assert(i - start == k);
    }
    let ghost val = digits_value(d.take(k as int));
    assert(over ==> val > cap);
    assert(!over ==> val == acc);
    assert(neg == (s[0] == '-'));
    if !neg && (over || acc > isize::MAX as u128) {
        IntErrorKind::PosOverflow
    } else if neg && over {
        IntErrorKind::NegOverflow
    } else {
        IntErrorKind::InvalidDigit
    }
}


/// The words that `ParseIntError` shows for `k`.
pub fn int_error_message(k: IntErrorKind) -> (r: String)
    ensures
        r@ == int_error_text(k),
{
    match k {
        IntErrorKind::Empty => String::from_str("cannot parse integer from empty string"),
        IntErrorKind::InvalidDigit => String::from_str("invalid digit found in string"),
        IntErrorKind::PosOverflow => String::from_str("number too large to fit in target type"),
        IntErrorKind::NegOverflow => String::from_str("number too small to fit in target type"),
    }
}

} // verus!
