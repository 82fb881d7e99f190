use vstd::prelude::*;

verus! {

// ---------------------------------------------------------------------------
// Character classes
// ---------------------------------------------------------------------------

/// Unicode `White_Space`: the characters that `char::is_whitespace`, `str::trim`
/// and the `\s` class of a formula pattern treat as blank.
pub open spec fn is_ws(c: char) -> bool {
    ||| ('\t' <= c && c <= '\r')
    ||| c == ' '
    ||| c == '\u{85}'
    ||| c == '\u{a0}'
    ||| c == '\u{1680}'
    ||| ('\u{2000}' <= c && c <= '\u{200a}')
    ||| c == '\u{2028}'
    ||| c == '\u{2029}'
    ||| c == '\u{202f}'
    ||| c == '\u{205f}'
    ||| c == '\u{3000}'
}

pub open spec fn is_upper(c: char) -> bool {
    'A' <= c && c <= 'Z'
}

pub open spec fn is_lower(c: char) -> bool {
    'a' <= c && c <= 'z'
}

pub open spec fn is_ascii_alpha(c: char) -> bool {
    is_upper(c) || is_lower(c)
}

pub open spec fn is_digit(c: char) -> bool {
    '0' <= c && c <= '9'
}

pub open spec fn digit_value(c: char) -> int {
    (c as int) - ('0' as int)
}

pub fn is_whitespace(c: char) -> (b: bool)
    ensures
        b == is_ws(c),
{
    ('\t' <= c && c <= '\r') || c == ' ' || c == '\u{85}' || c == '\u{a0}' || c == '\u{1680}'
        || ('\u{2000}' <= c && c <= '\u{200a}') || c == '\u{2028}' || c == '\u{2029}' || c
        == '\u{202f}' || c == '\u{205f}' || c == '\u{3000}'
}

pub fn is_upper_char(c: char) -> (b: bool)
    ensures
        b == is_upper(c),
{
    'A' <= c && c <= 'Z'
}

pub fn is_ascii_alpha_char(c: char) -> (b: bool)
    ensures
        b == is_ascii_alpha(c),
{
    ('A' <= c && c <= 'Z') || ('a' <= c && c <= 'z')
}

pub fn is_digit_char(c: char) -> (b: bool)
    ensures
        b == is_digit(c),
{
    '0' <= c && c <= '9'
}

// ---------------------------------------------------------------------------
// Conversions between `str`/`String` and character vectors
// ---------------------------------------------------------------------------

/// Collects the characters of a string slice into a vector.
pub fn chars_of(s: &str) -> (v: Vec<char>)
    ensures
        v@ == s@,
{
    let mut v: Vec<char> = Vec::new();
    for c in it: s.chars()
        invariant
            v@ == it.seq().take(it.index() as int),
            it.seq() == s@,
    {
        v.push(c);
    }
    v
}

/// Builds a `String` holding exactly the given characters
/// (`Iterator::collect` into `String`).
#[verifier::external_body]
pub(crate) fn string_of(v: &[char]) -> (s: String)
    ensures
        s@ == v@,
{
    v.iter().collect()
}

/// Copies the characters `s[lo..hi]` into a fresh vector.
pub fn slice_chars(s: &Vec<char>, lo: usize, hi: usize) -> (v: Vec<char>)
    requires
        lo <= hi <= s.len(),
    ensures
        v@ == s@.subrange(lo as int, hi as int),
{
    let mut v: Vec<char> = Vec::new();
    let mut i = lo;
    while i < hi
        invariant
            lo <= i <= hi <= s.len(),
            v@ == s@.subrange(lo as int, i as int),
        decreases hi - i,
    {
        v.push(s[i]);
        i += 1;
    }
    v
}

/// Appends the characters of `t` to `v`.
pub fn append_chars(v: &mut Vec<char>, t: &Vec<char>)
    ensures
        final(v)@ == old(v)@ + t@,
{
    let mut i: usize = 0;
    while i < t.len()
        invariant
            i <= t.len(),
            v@ == old(v)@ + t@.take(i as int),
        decreases t.len() - i,
    {
        v.push(t[i]);
        i += 1;
        assert(t@.take(i as int) == t@.take((i - 1) as int).push(t@[i - 1]));
    }
    assert(t@.take(t.len() as int) == t@);
}

// ---------------------------------------------------------------------------
// Trimming (`str::trim`)
// ---------------------------------------------------------------------------

/// Index of the first non-blank character of `s[i..]`, or `s.len()`.
pub open spec fn skip_ws(s: Seq<char>, i: int) -> int
    decreases s.len() - i,
{
    if 0 <= i < s.len() && is_ws(s[i]) {
        skip_ws(s, i + 1)
    } else {
        i
    }
}

/// End of `s[lo..hi]` once its trailing blanks are cut off.
pub open spec fn trim_end_at(s: Seq<char>, lo: int, hi: int) -> int
    decreases hi - lo,
{
    if lo < hi && is_ws(s[hi - 1]) {
        trim_end_at(s, lo, hi - 1)
    } else {
        hi
    }
}

/// Start of `s[lo..hi]` once its leading blanks are cut off.
pub open spec fn trim_start_at(s: Seq<char>, lo: int, hi: int) -> int
    decreases hi - lo,
{
    if lo < hi && is_ws(s[lo]) {
        trim_start_at(s, lo + 1, hi)
    } else {
        lo
    }
}

/// `str::trim`: the text without leading and trailing Unicode blanks.
pub open spec fn trimmed(s: Seq<char>) -> Seq<char> {
    let a = trim_start_at(s, 0, s.len() as int);
    let b = trim_end_at(s, a, s.len() as int);
    s.subrange(a, b)
}

pub proof fn lemma_trim_start_bounds(s: Seq<char>, lo: int, hi: int)
    requires
        0 <= lo <= hi <= s.len(),
    ensures
        lo <= trim_start_at(s, lo, hi) <= hi,
        forall|k: int| lo <= k < trim_start_at(s, lo, hi) ==> is_ws(#[trigger] s[k]),
        trim_start_at(s, lo, hi) < hi ==> !is_ws(s[trim_start_at(s, lo, hi)]),
    decreases hi - lo,
{
    if lo < hi && is_ws(s[lo]) {
        lemma_trim_start_bounds(s, lo + 1, hi);
    }
}

pub proof fn lemma_trim_end_bounds(s: Seq<char>, lo: int, hi: int)
    requires
        0 <= lo <= hi <= s.len(),
    ensures
        lo <= trim_end_at(s, lo, hi) <= hi,
        forall|k: int| trim_end_at(s, lo, hi) <= k < hi ==> is_ws(#[trigger] s[k]),
        trim_end_at(s, lo, hi) > lo ==> !is_ws(s[trim_end_at(s, lo, hi) - 1]),
    decreases hi - lo,
{
    if lo < hi && is_ws(s[hi - 1]) {
        lemma_trim_end_bounds(s, lo, hi - 1);
    }
}

/// Start index of the trimmed part of `s[lo..hi]`.
pub fn trim_start(s: &Vec<char>, lo: usize, hi: usize) -> (r: usize)
    requires
        lo <= hi <= s.len(),
    ensures
        r == trim_start_at(s@, lo as int, hi as int),
        lo <= r <= hi,
{
    proof {
        lemma_trim_start_bounds(s@, lo as int, hi as int);
    }
    let mut i = lo;
    while i < hi && is_whitespace(s[i])
        invariant
            lo <= i <= hi <= s.len(),
            trim_start_at(s@, i as int, hi as int) == trim_start_at(s@, lo as int, hi as int),
        decreases hi - i,
    {
        i += 1;
    }
    i
}

/// End index of the trimmed part of `s[lo..hi]`.
pub fn trim_end(s: &Vec<char>, lo: usize, hi: usize) -> (r: usize)
    requires
        lo <= hi <= s.len(),
    ensures
        r == trim_end_at(s@, lo as int, hi as int),
        lo <= r <= hi,
{
    proof {
        lemma_trim_end_bounds(s@, lo as int, hi as int);
    }
    let mut j = hi;
    while lo < j && is_whitespace(s[j - 1])
        invariant
            lo <= j <= hi <= s.len(),
            trim_end_at(s@, lo as int, j as int) == trim_end_at(s@, lo as int, hi as int),
        decreases j - lo,
    {
        j -= 1;
    }
    j
}

/// `str::trim` on a character vector.
pub fn trim(s: &Vec<char>) -> (t: Vec<char>)
    ensures
        t@ == trimmed(s@),
{
    let a = trim_start(s, 0, s.len());
    let b = trim_end(s, a, s.len());
    slice_chars(s, a, b)
}

// ---------------------------------------------------------------------------
// Integer parsing (`i32::from_str`, `usize::from_str`)
// ---------------------------------------------------------------------------

pub open spec fn all_digits(s: Seq<char>) -> bool {
    forall|i: int| 0 <= i < s.len() ==> is_digit(#[trigger] s[i])
}

/// Value of a run of decimal digits.
pub open spec fn digits_value(s: Seq<char>) -> nat
    decreases s.len(),
{
    if s.len() == 0 {
        0
    } else {
        (digits_value(s.drop_last()) * 10 + digit_value(s.last())) as nat
    }
}

/// Magnitude part accepted by `from_str`: at least one digit, digits only.
pub open spec fn spec_parse_magnitude(d: Seq<char>) -> Option<nat> {
    if d.len() > 0 && all_digits(d) {
        Some(digits_value(d))
    } else {
        None
    }
}

/// `i32::from_str`: an optional `+` or `-`, then at least one ASCII digit,
/// and a value inside the range of `i32`.
pub open spec fn spec_parse_i32(s: Seq<char>) -> Option<i32> {
    if s.len() == 0 {
        None
    } else {
        let neg = s[0] == '-';
        let d = if s[0] == '-' || s[0] == '+' {
            s.drop_first()
        } else {
            s
        };
        match spec_parse_magnitude(d) {
            None => None,
            Some(m) => {
                let v: int = if neg {
                    -m
                } else {
                    m as int
                };
                if i32::MIN <= v <= i32::MAX {
                    Some(v as i32)
                } else {
                    None
                }
            },
        }
    }
}

/// `usize::from_str`: an optional `+`, then at least one ASCII digit, and a
/// value that fits in `usize`.
pub open spec fn spec_parse_usize(s: Seq<char>) -> Option<usize> {
    if s.len() == 0 {
        None
    } else {
        let d = if s[0] == '+' {
            s.drop_first()
        } else {
            s
        };
        match spec_parse_magnitude(d) {
            None => None,
            Some(m) => if m <= usize::MAX {
                Some(m as usize)
            } else {
                None
            },
        }
    }
}

pub proof fn lemma_digits_value_prefix(s: Seq<char>, i: int)
    requires
        0 <= i <= s.len(),
        all_digits(s),
    ensures
        digits_value(s.take(i)) <= digits_value(s),
    decreases s.len() - i,
{
    if i < s.len() {
        lemma_digits_value_prefix(s, i + 1);
        assert(s.take(i + 1).drop_last() == s.take(i));
        assert(is_digit(s[i]));
    } else {
        assert(s.take(i) == s);
    }
}

/// Parses the digits of `s[lo..hi]` into a magnitude, giving up with `None`
/// as soon as the value exceeds `limit`.
fn parse_magnitude(s: &Vec<char>, lo: usize, hi: usize, limit: u64) -> (r: Option<u64>)
    requires
        lo <= hi <= s.len(),
    ensures
        match spec_parse_magnitude(s@.subrange(lo as int, hi as int)) {
            Some(m) => if m <= limit {
                r == Some(m as u64)
            } else {
                r is None
            },
            None => r is None,
        },
{
    let ghost d = s@.subrange(lo as int, hi as int);
    if lo == hi {
        return None;
    }
    let mut i = lo;
    let mut acc: u64 = 0;
    while i < hi
        invariant
            lo <= i <= hi <= s.len(),
            d == s@.subrange(lo as int, hi as int),
            all_digits(d.take(i - lo)),
            acc == digits_value(d.take(i - lo)),
            acc <= limit,
        decreases hi - i,
    {
        let c = s[i];
        if !is_digit_char(c) {
            assert(d[i - lo] == c);
            return None;
        }
        proof {
            assert(d.take(i - lo + 1).drop_last() == d.take(i - lo));
            assert(d.take(i - lo + 1).last() == c);
        }
        let dv = (c as u64) - ('0' as u64);
        let next: u128 = (acc as u128) * 10 + (dv as u128);
        if next > limit as u128 {
            proof {
                assert(digits_value(d.take(i - lo + 1)) == next);
                if all_digits(d) {
                    lemma_digits_value_prefix(d, i - lo + 1);
                }
            }
            // the magnitude is already too large, or the text is not a number
            return None;
        }
        acc = next as u64;
        i += 1;
    }
    assert(d.take(hi - lo) == d);
    Some(acc)
}

/// `i32::from_str` applied to `s[lo..hi]`.
pub fn parse_i32_range(s: &Vec<char>, lo: usize, hi: usize) -> (r: Option<i32>)
    requires
        lo <= hi <= s.len(),
    ensures
        r == spec_parse_i32(s@.subrange(lo as int, hi as int)),
{
    let ghost t = s@.subrange(lo as int, hi as int);
    if lo == hi {
        return None;
    }
    let neg = s[lo] == '-';
    let start = if s[lo] == '-' || s[lo] == '+' {
        lo + 1
    } else {
        lo
    };
    proof {
        if s[lo as int] == '-' || s[lo as int] == '+' {
            assert(t.drop_first() == s@.subrange(lo + 1, hi as int));
        }
    }
    match parse_magnitude(s, start, hi, 0x8000_0000) {
        None => None,
        Some(m) => {
            if neg {
                Some((0 - (m as i64)) as i32)
            } else if m <= 0x7fff_ffff {
                Some(m as i32)
            } else {
                None
            }
        },
    }
}

/// `usize::from_str` applied to `s[lo..hi]`.
pub fn parse_usize_range(s: &Vec<char>, lo: usize, hi: usize) -> (r: Option<usize>)
    requires
        lo <= hi <= s.len(),
    ensures
        r == spec_parse_usize(s@.subrange(lo as int, hi as int)),
{
    let ghost t = s@.subrange(lo as int, hi as int);
    if lo == hi {
        return None;
    }
    let start = if s[lo] == '+' {
        lo + 1
    } else {
        lo
    };
    proof {
        if s[lo as int] == '+' {
            assert(t.drop_first() == s@.subrange(lo + 1, hi as int));
        }
    }
    match parse_magnitude(s, start, hi, usize::MAX as u64) {
        None => None,
        Some(m) => Some(m as usize),
    }
}

/// `i32::from_str` on a whole character vector.
pub fn parse_i32(s: &Vec<char>) -> (r: Option<i32>)
    ensures
        r == spec_parse_i32(s@),
{
    assert(s@.subrange(0, s@.len() as int) == s@);
    parse_i32_range(s, 0, s.len())
}

/// `s.trim().parse::<i32>()` on `s[lo..hi]`.
pub fn parse_trimmed_i32_range(s: &Vec<char>, lo: usize, hi: usize) -> (r: Option<i32>)
    requires
        lo <= hi <= s.len(),
    ensures
        r == spec_parse_i32(trimmed(s@.subrange(lo as int, hi as int))),
{
    let a = trim_start(s, lo, hi);
    let b = trim_end(s, a, hi);
    proof {
        lemma_trim_range(s@, lo as int, hi as int);
    }
    parse_i32_range(s, a, b)
}

/// Trimming a window of `s` is the same as trimming with the window's bounds.
pub proof fn lemma_trim_range(s: Seq<char>, lo: int, hi: int)
    requires
        0 <= lo <= hi <= s.len(),
    ensures
        ({
            let a = trim_start_at(s, lo, hi);
            let b = trim_end_at(s, a, hi);
            trimmed(s.subrange(lo, hi)) == s.subrange(a, b)
        }),
{
    let w = s.subrange(lo, hi);
    lemma_shift_trim_start(s, lo, hi, lo);
    let a = trim_start_at(s, lo, hi);
    lemma_trim_start_bounds(s, lo, hi);
    lemma_shift_trim_end(s, lo, a, hi);
    let b = trim_end_at(s, a, hi);
    lemma_trim_end_bounds(s, a, hi);
    assert(w.subrange(a - lo, b - lo) == s.subrange(a, b));
}

proof fn lemma_shift_trim_start(s: Seq<char>, lo: int, hi: int, base: int)
    requires
        0 <= base <= lo <= hi <= s.len(),
    ensures
        trim_start_at(s.subrange(base, hi), lo - base, hi - base) + base == trim_start_at(
            s,
            lo,
            hi,
        ),
    decreases hi - lo,
{
    if lo < hi && is_ws(s[lo]) {
        lemma_shift_trim_start(s, lo + 1, hi, base);
    }
}

proof fn lemma_shift_trim_end(s: Seq<char>, base: int, lo: int, hi: int)
    requires
        0 <= base <= lo <= hi <= s.len(),
    ensures
        trim_end_at(s.subrange(base, hi), lo - base, hi - base) + base == trim_end_at(s, lo, hi),
    decreases hi - lo,
{
    let w = s.subrange(base, hi);
    if lo < hi && is_ws(s[hi - 1]) {
        lemma_shift_trim_end_inner(s, base, lo, hi - 1, hi);
    }
}

proof fn lemma_shift_trim_end_inner(s: Seq<char>, base: int, lo: int, j: int, hi: int)
    requires
        0 <= base <= lo <= j <= hi <= s.len(),
    ensures
        trim_end_at(s.subrange(base, hi), lo - base, j - base) + base == trim_end_at(s, lo, j),
    decreases j - lo,
{
    if lo < j && is_ws(s[j - 1]) {
        lemma_shift_trim_end_inner(s, base, lo, j - 1, hi);
    }
}

// ---------------------------------------------------------------------------
// Decimal rendering (`Display` for integers)
// ---------------------------------------------------------------------------

pub open spec fn digit_char(d: int) -> char {
    ((d + 48) as u8) as char
}

/// Decimal digits of a natural number, most significant first.
pub open spec fn nat_decimal(n: nat) -> Seq<char>
    decreases n,
{
    if n < 10 {
        seq![digit_char(n as int)]
    } else {
        nat_decimal(n / 10).push(digit_char((n % 10) as int))
    }
}

/// `i32::to_string`.
pub open spec fn i32_decimal(v: i32) -> Seq<char> {
    if v < 0 {
        seq!['-'] + nat_decimal((-(v as int)) as nat)
    } else {
        nat_decimal(v as nat)
    }
}

pub proof fn lemma_digit_char(d: int)
    requires
        0 <= d < 10,
    ensures
        is_digit(digit_char(d)),
        digit_value(digit_char(d)) == d,
{
}

pub proof fn lemma_nat_decimal(n: nat)
    ensures
        nat_decimal(n).len() > 0,
        all_digits(nat_decimal(n)),
        digits_value(nat_decimal(n)) == n,
    decreases n,
{
    lemma_digit_char((n % 10) as int);
    if n >= 10 {
        lemma_nat_decimal(n / 10);
        let s = nat_decimal(n);
        assert(s.drop_last() == nat_decimal(n / 10));
        assert(s.last() == digit_char((n % 10) as int));
        assert(n == (n / 10) * 10 + n % 10);
        assert(digits_value(s) == digits_value(nat_decimal(n / 10)) * 10 + digit_value(s.last()));
        assert forall|i: int| 0 <= i < s.len() implies is_digit(#[trigger] s[i]) by {
            if i < s.len() - 1 {
                assert(s[i] == nat_decimal(n / 10)[i]);
            }
        }
    } else {
        let s = nat_decimal(n);
        assert(s.drop_last() =~= Seq::<char>::empty());
        assert(digits_value(s.drop_last()) == 0);
        assert(s.last() == digit_char(n as int));
        assert(n % 10 == n);
    }
}

/// Law: the decimal text of a number reads back as that number
/// (`i32::to_string`, then `i32::from_str`).
pub proof fn law_parse_i32_of_decimal(v: i32)
    ensures
        spec_parse_i32(i32_decimal(v)) == Some(v),
{
    let s = i32_decimal(v);
    if v < 0 {
        let m = (-(v as int)) as nat;
        lemma_nat_decimal(m);
        assert(s.drop_first() == nat_decimal(m));
    } else {
        lemma_nat_decimal(v as nat);
        let d = nat_decimal(v as nat);
        assert(is_digit(d[0]));
    }
}

/// Law: the decimal text of a `usize` reads back as that number
/// (`usize::to_string`, then `usize::from_str`).
pub proof fn law_parse_usize_of_decimal(n: usize)
    ensures
        spec_parse_usize(nat_decimal(n as nat)) == Some(n),
{
    lemma_nat_decimal(n as nat);
    assert(is_digit(nat_decimal(n as nat)[0]));
}

fn digit_to_char(d: u64) -> (c: char)
    requires
        d < 10,
    ensures
        c == digit_char(d as int),
{
    ((d as u8) + 48u8) as char
}

/// Appends the decimal digits of `n` to `out`.
pub fn push_decimal(out: &mut Vec<char>, n: u64)
    ensures
        final(out)@ == old(out)@ + nat_decimal(n as nat),
    decreases n,
{
    if n < 10 {
        out.push(digit_to_char(n));
    } else {
        push_decimal(out, n / 10);
        out.push(digit_to_char(n % 10));
    }
}

/// `i32::to_string` as characters.
pub fn i32_to_chars(v: i32) -> (r: Vec<char>)
    ensures
        r@ == i32_decimal(v),
{
    let mut out: Vec<char> = Vec::new();
    if v < 0 {
        out.push('-');
        let m: u64 = (0 - (v as i64)) as u64;
        push_decimal(&mut out, m);
    } else {
        push_decimal(&mut out, v as u64);
    }
    out
}

/// `usize::to_string` as characters.
pub fn usize_to_chars(v: usize) -> (r: Vec<char>)
    ensures
        r@ == nat_decimal(v as nat),
{
    let mut out: Vec<char> = Vec::new();
    push_decimal(&mut out, v as u64);
    out
}

// ---------------------------------------------------------------------------
// Searching and replacing (`str::find`, `str::contains`, `str::replace`)
// ---------------------------------------------------------------------------

/// `p` occurs in `s` at position `i`.
pub open spec fn occurs_at(s: Seq<char>, p: Seq<char>, i: int) -> bool {
    0 <= i && i + p.len() <= s.len() && s.subrange(i, i + p.len()) == p
}

/// Leftmost occurrence of `p` in `s` at or after `i`.
pub open spec fn spec_find_from(s: Seq<char>, p: Seq<char>, i: int) -> Option<int>
    decreases s.len() + 1 - i,
{
    if i < 0 || i + p.len() > s.len() {
        None
    } else if occurs_at(s, p, i) {
        Some(i)
    } else {
        spec_find_from(s, p, i + 1)
    }
}

/// `str::find` for a string pattern.
pub open spec fn spec_find(s: Seq<char>, p: Seq<char>) -> Option<int> {
    spec_find_from(s, p, 0)
}

/// `str::contains` for a string pattern.
pub open spec fn spec_contains(s: Seq<char>, p: Seq<char>) -> bool {
    spec_find(s, p) is Some
}

/// First position of the character `c` in `s`.
pub open spec fn spec_find_char(s: Seq<char>, c: char) -> Option<int> {
    spec_find(s, seq![c])
}

pub proof fn lemma_find_from_props(s: Seq<char>, p: Seq<char>, i: int)
    requires
        0 <= i,
    ensures
        match spec_find_from(s, p, i) {
            Some(k) => i <= k && occurs_at(s, p, k) && forall|j: int|
                i <= j < k ==> !occurs_at(s, p, j),
            None => forall|j: int| i <= j ==> !occurs_at(s, p, j),
        },
    decreases s.len() + 1 - i,
{
    if i + p.len() > s.len() {
    } else if occurs_at(s, p, i) {
    } else {
        lemma_find_from_props(s, p, i + 1);
    }
}

/// Whether `p` occurs in `s` at position `i`.
pub fn occurs_at_exec(s: &Vec<char>, p: &Vec<char>, i: usize) -> (b: bool)
    ensures
        b == occurs_at(s@, p@, i as int),
{
    if i > s.len() || p.len() > s.len() - i {
        return false;
    }
    let mut k: usize = 0;
    while k < p.len()
        invariant
            i + p.len() <= s.len(),
            k <= p.len(),
            forall|j: int| 0 <= j < k ==> s@[i + j] == p@[j],
        decreases p.len() - k,
    {
        if s[i + k] != p[k] {
            assert(s@.subrange(i as int, i + p.len())[k as int] != p@[k as int]);
            return false;
        }
        k += 1;
    }
    assert(s@.subrange(i as int, i + p.len()) == p@);
    true
}

/// `str::find` from a starting position.
pub fn find_from(s: &Vec<char>, p: &Vec<char>, start: usize) -> (r: Option<usize>)
    ensures
        match r {
            Some(k) => spec_find_from(s@, p@, start as int) == Some(k as int),
            None => spec_find_from(s@, p@, start as int) is None,
        },
{
    let mut i = start;
    while i < s.len() && p.len() <= s.len() - i
        invariant
            start <= i,
            i > s.len() ==> i == start,
            spec_find_from(s@, p@, i as int) == spec_find_from(s@, p@, start as int),
        decreases s.len() + 1 - i,
    {
        if occurs_at_exec(s, p, i) {
            return Some(i);
        }
        i += 1;
    }
    if i == s.len() && p.len() == 0 {
        assert(s@.subrange(i as int, i as int) =~= p@);
        return Some(i);
    }
    None
}

/// `str::contains` for a string pattern.
pub fn contains(s: &Vec<char>, p: &Vec<char>) -> (b: bool)
    ensures
        b == spec_contains(s@, p@),
{
    find_from(s, p, 0).is_some()
}

/// `str::find` for a single character.
pub fn find_char(s: &Vec<char>, c: char) -> (r: Option<usize>)
    ensures
        match r {
            Some(k) => spec_find_char(s@, c) == Some(k as int),
            None => spec_find_char(s@, c) is None,
        },
        r is Some ==> r.unwrap() < s.len() && s@[r.unwrap() as int] == c,
{
    let mut i: usize = 0;
    while i < s.len()
        invariant
            i <= s.len(),
            spec_find_from(s@, seq![c], i as int) == spec_find_char(s@, c),
        decreases s.len() - i,
    {
        if s[i] == c {
            assert(s@.subrange(i as int, i + 1) == seq![c]);
            return Some(i);
        }
        assert(s@.subrange(i as int, i + 1)[0] == s@[i as int]);
        i += 1;
    }
    None
}

/// `str::replace`: every non-overlapping occurrence of `p`, scanning from the
/// left, becomes `t`; an empty `p` matches before every character and at the end.
pub open spec fn spec_replace_all(s: Seq<char>, p: Seq<char>, t: Seq<char>) -> Seq<char>
    decreases s.len(),
{
    if p.len() == 0 {
        if s.len() == 0 {
            t
        } else {
            t + seq![s[0]] + spec_replace_all(s.drop_first(), p, t)
        }
    } else if s.len() < p.len() {
        s
    } else if s.subrange(0, p.len() as int) == p {
        t + spec_replace_all(s.subrange(p.len() as int, s.len() as int), p, t)
    } else {
        seq![s[0]] + spec_replace_all(s.drop_first(), p, t)
    }
}

/// `str::replacen(p, t, 1)`: only the leftmost occurrence of `p` becomes `t`.
pub open spec fn spec_replace_first(s: Seq<char>, p: Seq<char>, t: Seq<char>) -> Seq<char> {
    match spec_find(s, p) {
        Some(k) => s.subrange(0, k) + t + s.subrange(k + p.len(), s.len() as int),
        None => s,
    }
}

/// `str::replace`.
pub fn replace_all(s: &Vec<char>, p: &Vec<char>, t: &Vec<char>) -> (r: Vec<char>)
    ensures
        r@ == spec_replace_all(s@, p@, t@),
{
    let mut out: Vec<char> = Vec::new();
    let mut i: usize = 0;
    assert(s@.subrange(0, s@.len() as int) == s@);
    while i < s.len()
        invariant
            i <= s.len(),
            out@ + spec_replace_all(s@.subrange(i as int, s.len() as int), p@, t@)
                == spec_replace_all(s@, p@, t@),
        decreases s.len() - i,
    {
        let ghost rest = s@.subrange(i as int, s.len() as int);
        if p.len() == 0 {
            append_chars(&mut out, t);
            out.push(s[i]);
            proof {
                assert(rest.drop_first() == s@.subrange(i + 1, s.len() as int));
                assert(out@ + spec_replace_all(rest.drop_first(), p@, t@) == (out@.drop_last()
                    + seq![s@[i as int]]) + spec_replace_all(rest.drop_first(), p@, t@));
            }
            i += 1;
            proof {
                let o = out@;
                assert(o =~= (o.drop_last().subrange(0, o.len() - 1 - t@.len()) + t@) + seq![
                    s@[i - 1],
                ]);
            }
        } else if p.len() > s.len() - i {
            proof {
                assert(spec_replace_all(rest, p@, t@) == rest);
            }
            append_chars(&mut out, &slice_chars(s, i, s.len()));
            i = s.len();
            assert(s@.subrange(i as int, s.len() as int) =~= Seq::<char>::empty());
        } else if occurs_at_exec(s, p, i) {
            append_chars(&mut out, t);
            proof {
                assert(rest.subrange(0, p@.len() as int) == s@.subrange(i as int, i + p@.len()));
                assert(rest.subrange(p@.len() as int, rest.len() as int) == s@.subrange(
                    i + p@.len(),
                    s.len() as int,
                ));
            }
            i += p.len();
        } else {
            proof {
                assert(rest.subrange(0, p@.len() as int) == s@.subrange(i as int, i + p@.len()));
                assert(rest.drop_first() == s@.subrange(i + 1, s.len() as int));
            }
            out.push(s[i]);
            i += 1;
        }
    }
    if p.len() == 0 {
        append_chars(&mut out, t);
    }
    proof {
        let e = s@.subrange(s.len() as int, s.len() as int);
        assert(e =~= Seq::<char>::empty());
        if p@.len() != 0 {
            assert(spec_replace_all(e, p@, t@) == e);
        }
    }
    assert(out@ =~= spec_replace_all(s@, p@, t@));
    out
}

/// `str::replacen(p, t, 1)`.
pub fn replace_first(s: &Vec<char>, p: &Vec<char>, t: &Vec<char>) -> (r: Vec<char>)
    ensures
        r@ == spec_replace_first(s@, p@, t@),
{
    match find_from(s, p, 0) {
        None => slice_chars(s, 0, s.len()),
        Some(k) => {
            proof {
                lemma_find_from_props(s@, p@, 0);
                assert(occurs_at(s@, p@, k as int));
            }
            let mut out = slice_chars(s, 0, k);
            append_chars(&mut out, t);
            append_chars(&mut out, &slice_chars(s, k + p.len(), s.len()));
            out
        },
    }
}

/// Whether `s` and `t` hold the same characters.
pub fn chars_eq(s: &Vec<char>, t: &Vec<char>) -> (b: bool)
    ensures
        b == (s@ == t@),
{
    if s.len() != t.len() {
        return false;
    }
    let b = occurs_at_exec(s, t, 0);
    proof {
        assert(s@.subrange(0, t@.len() as int) == s@);
    }
    b
}

/// `s` begins with `p`.
pub open spec fn starts_with(s: Seq<char>, p: Seq<char>) -> bool {
    p.len() <= s.len() && s.subrange(0, p.len() as int) == p
}

pub fn starts_with_exec(s: &Vec<char>, p: &Vec<char>) -> (b: bool)
    ensures
        b == starts_with(s@, p@),
{
    occurs_at_exec(s, p, 0)
}

/// Whether the characters of `s` are exactly those of `lit`.
pub fn eq_lit(s: &Vec<char>, lit: &[char]) -> (b: bool)
    ensures
        b == (s@ == lit@),
{
    if s.len() != lit.len() {
        return false;
    }
    let mut i: usize = 0;
    while i < s.len()
        invariant
            s.len() == lit@.len(),
            i <= s.len(),
            forall|j: int| 0 <= j < i ==> s@[j] == lit@[j],
        decreases s.len() - i,
    {
        if s[i] != lit[i] {
            return false;
        }
        i += 1;
    }
    assert(s@ == lit@);
    true
}

/// Whether `s` begins with the characters of `lit`.
pub fn starts_with_lit(s: &Vec<char>, lit: &[char]) -> (b: bool)
    ensures
        b == starts_with(s@, lit@),
{
    if s.len() < lit.len() {
        return false;
    }
    let mut i: usize = 0;
    while i < lit.len()
        invariant
            lit@.len() <= s.len(),
            i <= lit.len(),
            forall|j: int| 0 <= j < i ==> s@[j] == lit@[j],
        decreases lit.len() - i,
    {
        if s[i] != lit[i] {
            return false;
        }
        i += 1;
    }
    assert(s@.subrange(0, lit@.len() as int) == lit@);
    true
}

// ---------------------------------------------------------------------------
// Unicode character properties
// ---------------------------------------------------------------------------

/// Whether a character beyond ASCII has the Unicode `Alphabetic` property.
pub uninterp spec fn unicode_alphabetic(c: char) -> bool;

/// Whether a character beyond ASCII is in one of the Unicode numeric
/// categories (`Nd`, `Nl`, `No`).
pub uninterp spec fn unicode_numeric(c: char) -> bool;

/// `char::is_alphabetic`: among ASCII characters exactly the letters; beyond
/// ASCII the Unicode `Alphabetic` property.
pub open spec fn is_alphabetic_char(c: char) -> bool {
    if c <= '\u{7f}' {
        is_ascii_alpha(c)
    } else {
        unicode_alphabetic(c)
    }
}

/// `char::is_numeric`: among ASCII characters exactly the digits; beyond
/// ASCII the Unicode numeric categories.
pub open spec fn is_numeric_char(c: char) -> bool {
    if c <= '\u{7f}' {
        is_digit(c)
    } else {
        unicode_numeric(c)
    }
}

/// `char::is_alphabetic`. Trusted: the result is the Unicode `Alphabetic`
/// property of `c`, which among ASCII characters exactly the letters have.
#[verifier::external_body]
pub(crate) fn is_alphabetic(c: char) -> (b: bool)
    ensures
        c <= '\u{7f}' ==> (b == is_ascii_alpha(c)),
        c > '\u{7f}' ==> (b == unicode_alphabetic(c)),
{
    c.is_alphabetic()
}

/// `char::is_numeric`. Trusted: the result is whether `c` lies in a Unicode
/// numeric category, which among ASCII characters exactly the digits do.
#[verifier::external_body]
pub(crate) fn is_numeric(c: char) -> (b: bool)
    ensures
        c <= '\u{7f}' ==> (b == is_digit(c)),
        c > '\u{7f}' ==> (b == unicode_numeric(c)),
{
    c.is_numeric()
}

/// Whether a character beyond ASCII is a Unicode decimal digit (general
/// category `Nd`).
pub uninterp spec fn unicode_decimal_digit(c: char) -> bool;

/// The `\d` class of a `regex` pattern: among ASCII characters exactly `0`..`9`;
/// beyond ASCII the Unicode decimal digits.
pub open spec fn is_decimal_char(c: char) -> bool {
    if c <= '\u{7f}' {
        is_digit(c)
    } else {
        unicode_decimal_digit(c)
    }
}

/// The `\d` class of a `regex` pattern, tested on one character. Trusted: the
/// crate documents `\d` as `\p{Nd}`, the Unicode decimal digits, of which the
/// ASCII ones are `0`..`9`.
#[verifier::external_body]
pub(crate) fn is_decimal_digit(c: char) -> (b: bool)
    ensures
        c <= '\u{7f}' ==> (b == is_digit(c)),
        c > '\u{7f}' ==> (b == unicode_decimal_digit(c)),
{
    let mut buf = [0u8; 4];
    let text: &str = c.encode_utf8(&mut buf);
    regex::Regex::new(r"\A\d\z").unwrap().is_match(text)
}

/// End of the run of decimal digits (`\d`) from `i`.
pub open spec fn decimal_run(s: Seq<char>, i: int) -> int
    decreases s.len() - i,
{
    if 0 <= i < s.len() && is_decimal_char(s[i]) {
        decimal_run(s, i + 1)
    } else {
        i
    }
}

pub proof fn lemma_decimal_run(s: Seq<char>, i: int)
    requires
        0 <= i <= s.len(),
    ensures
        i <= decimal_run(s, i) <= s.len(),
    decreases s.len() - i,
{
    if i < s.len() && is_decimal_char(s[i]) {
        lemma_decimal_run(s, i + 1);
    }
}

/// End of the run of decimal digits (`\d`) from `i`.
pub fn decimal_run_exec(s: &Vec<char>, i: usize) -> (r: usize)
    requires
        i <= s.len(),
    ensures
        r == decimal_run(s@, i as int),
        i <= r <= s.len(),
{
    proof {
        lemma_decimal_run(s@, i as int);
    }
    let mut j = i;
    while j < s.len() && is_decimal_digit(s[j])
        invariant
            i <= j <= s.len(),
            decimal_run(s@, j as int) == decimal_run(s@, i as int),
        decreases s.len() - j,
    {
        j += 1;
    }
    j
}

// ---------------------------------------------------------------------------
// Splitting (`str::split` on a character)
// ---------------------------------------------------------------------------

/// The pieces of `s` between occurrences of `sep` (`str::split` on a
/// character): one more piece than there are separators.
pub open spec fn split_char(s: Seq<char>, sep: char) -> Seq<Seq<char>>
    decreases s.len(),
{
    if s.len() == 0 {
        seq![Seq::empty()]
    } else {
        let p = split_char(s.drop_last(), sep);
        if s.last() == sep {
            p.push(Seq::empty())
        } else {
            p.update(p.len() - 1, p.last().push(s.last()))
        }
    }
}

pub proof fn lemma_split_char_len(s: Seq<char>, sep: char)
    ensures
        split_char(s, sep).len() >= 1,
    decreases s.len(),
{
    if s.len() > 0 {
        lemma_split_char_len(s.drop_last(), sep);
    }
}

/// Splits `s` at every `sep` (see `split_char`).
pub fn split_at_char(s: &Vec<char>, sep: char) -> (v: Vec<Vec<char>>)
    ensures
        v@.map_values(|x: Vec<char>| x@) == split_char(s@, sep),
{
    let mut pieces: Vec<Vec<char>> = Vec::new();
    let mut cur: Vec<char> = Vec::new();
    let mut i: usize = 0;
    while i < s.len()
        invariant
            i <= s.len(),
            pieces@.map_values(|x: Vec<char>| x@).push(cur@) == split_char(s@.take(i as int), sep),
        decreases s.len() - i,
    {
        let ghost before = pieces@.map_values(|x: Vec<char>| x@).push(cur@);
        assert(s@.take(i + 1).drop_last() == s@.take(i as int));
        if s[i] == sep {
            pieces.push(cur);
            cur = Vec::new();
            assert(pieces@.map_values(|x: Vec<char>| x@).push(cur@) == before.push(Seq::empty()));
        } else {
            cur.push(s[i]);
            assert(pieces@.map_values(|x: Vec<char>| x@).push(cur@) == before.update(
                before.len() - 1,
                before.last().push(s@[i as int]),
            ));
        }
        i += 1;
    }
    assert(s@.take(s.len() as int) == s@);
    pieces.push(cur);
    pieces
}


/// A run of ASCII digits whose value fits in `i32` reads as that value.
pub proof fn lemma_parse_digits(d: Seq<char>)
    requires
        d.len() > 0,
        all_digits(d),
        digits_value(d) <= i32::MAX,
    ensures
        spec_parse_i32(d) == Some(digits_value(d) as i32),
{
    assert(is_digit(d[0]));
}


} // verus!
