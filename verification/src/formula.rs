use vstd::prelude::*;
use crate::columns::all_upper;
use crate::text::{
    all_digits, is_digit, is_decimal_char, is_decimal_digit, is_upper, is_upper_char, is_whitespace, is_ws, skip_ws, slice_chars,
    starts_with, starts_with_lit,
};

verus! {

// ---------------------------------------------------------------------------
// The shapes of formula text
//
//   operand   ::= [A-Z]+ digit+ | digit+
//   cell      ::= [A-Z]+ digit+
//   binary    ::= blank* operand blank* ('+' | '-' | '*' | '/') blank* operand blank*
//   range fn  ::= ('SUM' | 'AVG' | 'AVERAGE' | 'MIN' | 'MAX' | 'STDEV' | 'STDDEV') '(' cell ':' cell ')'
//   sleep     ::= 'SLEEP(' ( digit+ | cell ) ')'
//
// A digit is a Unicode decimal digit, and a blank Unicode white space, as in
// the `\d` and `\s` classes of a `regex` pattern.
// ---------------------------------------------------------------------------

/// First index at or after `i` that is not an upper-case letter.
pub open spec fn upper_run(s: Seq<char>, i: int) -> int
    decreases s.len() - i,
{
    if 0 <= i < s.len() && is_upper(s[i]) {
        upper_run(s, i + 1)
    } else {
        i
    }
}

/// First index at or after `i` that is not a decimal digit (`\d`).
pub open spec fn digit_run(s: Seq<char>, i: int) -> int
    decreases s.len() - i,
{
    if 0 <= i < s.len() && is_decimal_char(s[i]) {
        digit_run(s, i + 1)
    } else {
        i
    }
}

/// End of a `cell` token starting at `i`.
pub open spec fn cell_end(s: Seq<char>, i: int) -> Option<int> {
    let j = upper_run(s, i);
    let k = digit_run(s, j);
    if j > i && k > j {
        Some(k)
    } else {
        None
    }
}

/// End of an `operand` token starting at `i`.
pub open spec fn operand_end(s: Seq<char>, i: int) -> Option<int> {
    if 0 <= i < s.len() && is_decimal_char(s[i]) {
        Some(digit_run(s, i))
    } else {
        cell_end(s, i)
    }
}

pub open spec fn is_operator(c: char) -> bool {
    c == '+' || c == '-' || c == '*' || c == '/'
}

/// A `binary` formula: the bounds of the left operand, the operator and the
/// bounds of the right operand.
pub struct BinaryParts {
    pub left_start: usize,
    pub left_end: usize,
    pub op: char,
    pub right_start: usize,
    pub right_end: usize,
}

pub open spec fn spec_binary(s: Seq<char>) -> Option<(int, int, char, int, int)> {
    let a = skip_ws(s, 0);
    match operand_end(s, a) {
        None => None,
        Some(e1) => {
            let b = skip_ws(s, e1);
            if b < s.len() && is_operator(s[b]) {
                let c = skip_ws(s, b + 1);
                match operand_end(s, c) {
                    None => None,
                    Some(e2) => if skip_ws(s, e2) == s.len() {
                        Some((a, e1, s[b], c, e2))
                    } else {
                        None
                    },
                }
            } else {
                None
            }
        },
    }
}

/// The whole text is one `cell` token.
pub open spec fn is_cell_text(s: Seq<char>) -> bool {
    cell_end(s, 0) == Some(s.len() as int)
}

// ---------------------------------------------------------------------------
// Properties of the scanners
// ---------------------------------------------------------------------------

pub proof fn lemma_upper_run(s: Seq<char>, i: int)
    requires
        0 <= i <= s.len(),
    ensures
        i <= upper_run(s, i) <= s.len(),
        forall|k: int| i <= k < upper_run(s, i) ==> is_upper(#[trigger] s[k]),
        upper_run(s, i) < s.len() ==> !is_upper(s[upper_run(s, i)]),
    decreases s.len() - i,
{
    if i < s.len() && is_upper(s[i]) {
        lemma_upper_run(s, i + 1);
    }
}

pub proof fn lemma_digit_run(s: Seq<char>, i: int)
    requires
        0 <= i <= s.len(),
    ensures
        i <= digit_run(s, i) <= s.len(),
        forall|k: int| i <= k < digit_run(s, i) ==> is_decimal_char(#[trigger] s[k]),
        digit_run(s, i) < s.len() ==> !is_decimal_char(s[digit_run(s, i)]),
    decreases s.len() - i,
{
    if i < s.len() && is_decimal_char(s[i]) {
        lemma_digit_run(s, i + 1);
    }
}

pub proof fn lemma_skip_ws(s: Seq<char>, i: int)
    requires
        0 <= i <= s.len(),
    ensures
        i <= skip_ws(s, i) <= s.len(),
        forall|k: int| i <= k < skip_ws(s, i) ==> is_ws(#[trigger] s[k]),
        skip_ws(s, i) < s.len() ==> !is_ws(s[skip_ws(s, i)]),
    decreases s.len() - i,
{
    if i < s.len() && is_ws(s[i]) {
        lemma_skip_ws(s, i + 1);
    }
}

pub proof fn lemma_cell_end(s: Seq<char>, i: int)
    requires
        0 <= i <= s.len(),
    ensures
        cell_end(s, i) matches Some(e) ==> i < e <= s.len(),
{
    lemma_upper_run(s, i);
    lemma_digit_run(s, upper_run(s, i));
}

pub proof fn lemma_operand_end(s: Seq<char>, i: int)
    requires
        0 <= i <= s.len(),
    ensures
        operand_end(s, i) matches Some(e) ==> i < e <= s.len(),
{
    lemma_cell_end(s, i);
    lemma_digit_run(s, i);
}

// ---------------------------------------------------------------------------
// Executable scanners
// ---------------------------------------------------------------------------

pub fn upper_run_exec(s: &Vec<char>, i: usize) -> (r: usize)
    requires
        i <= s.len(),
    ensures
        r == upper_run(s@, i as int),
        i <= r <= s.len(),
{
    proof {
        lemma_upper_run(s@, i as int);
    }
    let mut j = i;
    while j < s.len() && is_upper_char(s[j])
        invariant
            i <= j <= s.len(),
            upper_run(s@, j as int) == upper_run(s@, i as int),
        decreases s.len() - j,
    {
        j += 1;
    }
    j
}

pub fn digit_run_exec(s: &Vec<char>, i: usize) -> (r: usize)
    requires
        i <= s.len(),
    ensures
        r == digit_run(s@, i as int),
        i <= r <= s.len(),
{
    proof {
        lemma_digit_run(s@, i as int);
    }
    let mut j = i;
    while j < s.len() && is_decimal_digit(s[j])
        invariant
            i <= j <= s.len(),
            digit_run(s@, j as int) == digit_run(s@, i as int),
        decreases s.len() - j,
    {
        j += 1;
    }
    j
}

pub fn skip_ws_exec(s: &Vec<char>, i: usize) -> (r: usize)
    requires
        i <= s.len(),
    ensures
        r == skip_ws(s@, i as int),
        i <= r <= s.len(),
{
    proof {
        lemma_skip_ws(s@, i as int);
    }
    let mut j = i;
    while j < s.len() && is_whitespace(s[j])
        invariant
            i <= j <= s.len(),
            skip_ws(s@, j as int) == skip_ws(s@, i as int),
        decreases s.len() - j,
    {
        j += 1;
    }
    j
}

pub fn cell_end_exec(s: &Vec<char>, i: usize) -> (r: Option<usize>)
    requires
        i <= s.len(),
    ensures
        match r {
            Some(e) => cell_end(s@, i as int) == Some(e as int),
            None => cell_end(s@, i as int) is None,
        },
{
    let j = upper_run_exec(s, i);
    let k = digit_run_exec(s, j);
    if j > i && k > j {
        Some(k)
    } else {
        None
    }
}

pub fn operand_end_exec(s: &Vec<char>, i: usize) -> (r: Option<usize>)
    requires
        i <= s.len(),
    ensures
        match r {
            Some(e) => operand_end(s@, i as int) == Some(e as int),
            None => operand_end(s@, i as int) is None,
        },
{
    if i < s.len() && is_decimal_digit(s[i]) {
        Some(digit_run_exec(s, i))
    } else {
        cell_end_exec(s, i)
    }
}

/// Recognises a `binary` formula.
pub fn parse_binary(s: &Vec<char>) -> (r: Option<BinaryParts>)
    ensures
        match r {
            Some(p) => spec_binary(s@) == Some(
                (
                    p.left_start as int,
                    p.left_end as int,
                    p.op,
                    p.right_start as int,
                    p.right_end as int,
                ),
            ) && p.left_start < p.left_end <= s.len() && p.right_start < p.right_end <= s.len(),
            None => spec_binary(s@) is None,
        },
{
    let a = skip_ws_exec(s, 0);
    let e1 = match operand_end_exec(s, a) {
        None => return None,
        Some(e) => e,
    };
    proof {
        lemma_operand_end(s@, a as int);
    }
    let b = skip_ws_exec(s, e1);
    if b < s.len() && (s[b] == '+' || s[b] == '-' || s[b] == '*' || s[b] == '/') {
        let c = skip_ws_exec(s, b + 1);
        let e2 = match operand_end_exec(s, c) {
            None => return None,
            Some(e) => e,
        };
        proof {
            lemma_operand_end(s@, c as int);
        }
        if skip_ws_exec(s, e2) == s.len() {
            Some(BinaryParts { left_start: a, left_end: e1, op: s[b], right_start: c, right_end: e2 })
        } else {
            None
        }
    } else {
        None
    }
}

/// Whether the whole text is one `cell` token.
pub fn is_cell_text_exec(s: &Vec<char>) -> (b: bool)
    ensures
        b == is_cell_text(s@),
{
    match cell_end_exec(s, 0) {
        Some(e) => e == s.len(),
        None => false,
    }
}

// ---------------------------------------------------------------------------
// Calls: `FUNC(<cell>:<cell>)` and `SLEEP(<digits or cell>)`
// ---------------------------------------------------------------------------

pub open spec fn lit_sleep_open() -> Seq<char> {
    seq!['S', 'L', 'E', 'E', 'P', '(']
}

/// Length of the name of a range function that `s` starts with, followed by
/// `(`; 0 when there is none.
pub open spec fn range_name_len(s: Seq<char>) -> int {
    if starts_with(s, seq!['S', 'U', 'M', '(']) || starts_with(s, seq!['A', 'V', 'G', '('])
        || starts_with(s, seq!['M', 'I', 'N', '(']) || starts_with(s, seq!['M', 'A', 'X', '(']) {
        3
    } else if starts_with(s, seq!['S', 'T', 'D', 'E', 'V', '(']) {
        5
    } else if starts_with(s, seq!['S', 'T', 'D', 'D', 'E', 'V', '(']) {
        6
    } else if starts_with(s, seq!['A', 'V', 'E', 'R', 'A', 'G', 'E', '(']) {
        7
    } else {
        0
    }
}

/// The whole text is `FUNC(<cell>:<cell>)` with `FUNC` one of `SUM`, `AVG`,
/// `AVERAGE`, `MIN`, `MAX`, `STDEV`, `STDDEV`: the name and the text between
/// the brackets.
pub open spec fn range_call(s: Seq<char>) -> Option<(Seq<char>, Seq<char>)> {
    let n = range_name_len(s);
    if n == 0 {
        None
    } else {
        match cell_end(s, n + 1) {
            None => None,
            Some(e1) => if e1 < s.len() && s[e1] == ':' {
                match cell_end(s, e1 + 1) {
                    None => None,
                    Some(e2) => if e2 + 1 == s.len() && s[e2] == ')' {
                        Some((s.subrange(0, n), s.subrange(n + 1, e2)))
                    } else {
                        None
                    },
                }
            } else {
                None
            },
        }
    }
}

/// The whole text is `SLEEP(<digits or cell>)`: the text between the
/// brackets.
pub open spec fn sleep_call(s: Seq<char>) -> Option<Seq<char>> {
    if starts_with(s, lit_sleep_open()) {
        match operand_end(s, 6) {
            Some(e) => if e + 1 == s.len() && s[e] == ')' {
                Some(s.subrange(6, e))
            } else {
                None
            },
            None => None,
        }
    } else {
        None
    }
}

/// The `cell` tokens of `s` from `i` on, leftmost first and not overlapping.
pub open spec fn cell_tokens(s: Seq<char>, i: int) -> Seq<Seq<char>>
    decreases s.len() - i,
{
    if i < 0 || i >= s.len() {
        Seq::empty()
    } else {
        match cell_end(s, i) {
            Some(e) => {
                proof {
                    lemma_cell_end(s, i);
                }
                seq![s.subrange(i, e)] + cell_tokens(s, e)
            },
            None => cell_tokens(s, i + 1),
        }
    }
}

fn range_name_len_exec(s: &Vec<char>) -> (n: usize)
    ensures
        n == range_name_len(s@),
{
    let sum = ['S', 'U', 'M', '('];
    let avg = ['A', 'V', 'G', '('];
    let min = ['M', 'I', 'N', '('];
    let max = ['M', 'A', 'X', '('];
    let sd = ['S', 'T', 'D', 'E', 'V', '('];
    let sdd = ['S', 'T', 'D', 'D', 'E', 'V', '('];
    let average = ['A', 'V', 'E', 'R', 'A', 'G', 'E', '('];
    assert(sdd@ =~= seq!['S', 'T', 'D', 'D', 'E', 'V', '(']);
    assert(average@ =~= seq!['A', 'V', 'E', 'R', 'A', 'G', 'E', '(']);
    assert(sum@ =~= seq!['S', 'U', 'M', '(']);
    assert(avg@ =~= seq!['A', 'V', 'G', '(']);
    assert(min@ =~= seq!['M', 'I', 'N', '(']);
    assert(max@ =~= seq!['M', 'A', 'X', '(']);
    assert(sd@ =~= seq!['S', 'T', 'D', 'E', 'V', '(']);
    if starts_with_lit(s, &sum) || starts_with_lit(s, &avg) || starts_with_lit(s, &min) || starts_with_lit(s, &max) {
        3
    } else if starts_with_lit(s, &sd) {
        5
    } else if starts_with_lit(s, &sdd) {
        6
    } else if starts_with_lit(s, &average) {
        7
    } else {
        0
    }
}

/// Recognises `FUNC(<cell>:<cell>)` (see `range_call`).
pub fn range_call_exec(s: &Vec<char>) -> (r: Option<(Vec<char>, Vec<char>)>)
    ensures
        match r {
            Some((f, g)) => range_call(s@) == Some((f@, g@)),
            None => range_call(s@) is None,
        },
{
    let n = range_name_len_exec(s);
    if n == 0 {
        return None;
    }
    let e1 = match cell_end_exec(s, n + 1) {
        None => return None,
        Some(e) => e,
    };
    proof {
        lemma_cell_end(s@, n + 1);
    }
    if !(e1 < s.len() && s[e1] == ':') {
        return None;
    }
    let e2 = match cell_end_exec(s, e1 + 1) {
        None => return None,
        Some(e) => e,
    };
    proof {
        lemma_cell_end(s@, e1 + 1);
    }
    if e2 < s.len() && e2 == s.len() - 1 && s[e2] == ')' {
        Some((slice_chars(s, 0, n), slice_chars(s, n + 1, e2)))
    } else {
        None
    }
}

/// Recognises `SLEEP(<digits or cell>)` (see `sleep_call`).
pub fn sleep_call_exec(s: &Vec<char>) -> (r: Option<Vec<char>>)
    ensures
        match r {
            Some(inner) => sleep_call(s@) == Some(inner@),
            None => sleep_call(s@) is None,
        },
{
    let open = ['S', 'L', 'E', 'E', 'P', '('];
    assert(open@ =~= lit_sleep_open());
    if !starts_with_lit(s, &open) {
        return None;
    }
    match operand_end_exec(s, 6) {
        Some(e) => {
            proof {
                lemma_operand_end(s@, 6);
            }
            if e < s.len() && e == s.len() - 1 && s[e] == ')' {
                Some(slice_chars(s, 6, e))
            } else {
                None
            }
        },
        None => None,
    }
}

/// The `cell` tokens of `s` (see `cell_tokens`).
pub fn cell_tokens_exec(s: &Vec<char>) -> (v: Vec<Vec<char>>)
    ensures
        v@.map_values(|x: Vec<char>| x@) == cell_tokens(s@, 0),
{
    let mut out: Vec<Vec<char>> = Vec::new();
    let mut i: usize = 0;
    while i < s.len()
        invariant
            i <= s.len(),
            out@.map_values(|x: Vec<char>| x@) + cell_tokens(s@, i as int) == cell_tokens(s@, 0),
        decreases s.len() - i,
    {
        let ghost before = out@.map_values(|x: Vec<char>| x@);
        match cell_end_exec(s, i) {
            Some(e) => {
                proof {
                    lemma_cell_end(s@, i as int);
                }
                let tok = slice_chars(s, i, e);
                out.push(tok);
                assert(out@.map_values(|x: Vec<char>| x@) == before.push(s@.subrange(i as int, e as int)));
                assert(before.push(s@.subrange(i as int, e as int)) + cell_tokens(s@, e as int) =~= before + (seq![
                    s@.subrange(i as int, e as int),
                ] + cell_tokens(s@, e as int)));
                i = e;
            },
            None => {
                i += 1;
            },
        }
    }
    assert(cell_tokens(s@, i as int) == Seq::<Seq<char>>::empty());
    assert(out@.map_values(|x: Vec<char>| x@) + Seq::<Seq<char>>::empty() =~= out@.map_values(|x: Vec<char>| x@));
    out
}


/// A run of ASCII digits ends where the first non-digit stands.
proof fn lemma_digit_run_exact(s: Seq<char>, i: int, e: int)
    requires
        0 <= i <= e <= s.len(),
        forall|k: int| i <= k < e ==> is_digit(#[trigger] s[k]),
        e < s.len() ==> !is_decimal_char(s[e]),
    ensures
        digit_run(s, i) == e,
{
    lemma_digit_run(s, i);
    let d = digit_run(s, i);
    if d < e {
        assert(is_digit(s[d]));
    } else if d > e {
        assert(is_decimal_char(s[e]));
    }
}

/// `d1 op d2`, two runs of ASCII digits around an operator, is a binary
/// formula with `d1` on the left and `d2` on the right.
pub proof fn lemma_binary_of_numbers(d1: Seq<char>, op: char, d2: Seq<char>)
    requires
        d1.len() > 0,
        d2.len() > 0,
        all_digits(d1),
        all_digits(d2),
        is_operator(op),
    ensures
        spec_binary(d1 + seq![op] + d2) == Some(
            (0int, d1.len() as int, op, d1.len() + 1int, d1.len() + 1int + d2.len()),
        ),
        (d1 + seq![op] + d2).subrange(0, d1.len() as int) == d1,
        (d1 + seq![op] + d2).subrange(d1.len() + 1int, d1.len() + 1int + d2.len()) == d2,
{
    let f = d1 + seq![op] + d2;
    let n1 = d1.len() as int;
    let n = f.len() as int;
    assert(f[0] == d1[0] && is_digit(d1[0]));
    assert(f[n1] == op);
    assert(f[n1 + 1] == d2[0] && is_digit(d2[0]));
    assert(skip_ws(f, 0) == 0);
    lemma_digit_run_exact(f, 0, n1);
    assert(operand_end(f, 0) == Some(n1));
    assert(skip_ws(f, n1) == n1);
    assert(skip_ws(f, n1 + 1) == n1 + 1);
    assert forall|k: int| n1 + 1 <= k < n implies is_digit(#[trigger] f[k]) by {
        assert(f[k] == d2[k - n1 - 1]);
    }
    lemma_digit_run_exact(f, n1 + 1, n);
    assert(operand_end(f, n1 + 1) == Some(n));
    assert(skip_ws(f, n) == n);
    assert(f.subrange(0, n1) =~= d1);
    assert(f.subrange(n1 + 1, n) =~= d2);
}


/// Upper-case letters followed by ASCII digits form one `cell` token, and
/// no binary formula.
pub proof fn lemma_cell_token(col: Seq<char>, d: Seq<char>)
    requires
        col.len() > 0,
        d.len() > 0,
        all_upper(col),
        all_digits(d),
    ensures
        cell_end(col + d, 0) == Some((col + d).len() as int),
        upper_run(col + d, 0) == col.len(),
        spec_binary(col + d) is None,
{
    let t = col + d;
    let n1 = col.len() as int;
    let n = t.len() as int;
    assert(t[0] == col[0] && is_upper(col[0]));
    assert(t[n1] == d[0] && is_digit(d[0]));
    lemma_upper_run(t, 0);
    let u = upper_run(t, 0);
    if u < n1 {
        assert(t[u] == col[u]);
    } else if u > n1 {
        assert(is_upper(t[n1]));
    }
    assert forall|k: int| n1 <= k < n implies is_digit(#[trigger] t[k]) by {
        assert(t[k] == d[k - n1]);
    }
    lemma_digit_run_exact(t, n1, n);
    assert(skip_ws(t, 0) == 0);
    assert(skip_ws(t, n) == n);
}


/// `cell op d2`, a `cell` token (upper-case letters, then ASCII digits), an
/// operator and a run of ASCII digits, is a binary formula with the cell on
/// the left and the number on the right.
pub proof fn lemma_binary_cell_left(col: Seq<char>, d: Seq<char>, op: char, d2: Seq<char>)
    requires
        col.len() > 0,
        d.len() > 0,
        d2.len() > 0,
        all_upper(col),
        all_digits(d),
        all_digits(d2),
        is_operator(op),
    ensures
        spec_binary(col + d + seq![op] + d2) == Some(
            (0int, (col + d).len() as int, op, (col + d).len() + 1int, (col + d).len() + 1int + d2.len()),
        ),
        (col + d + seq![op] + d2).subrange(0, (col + d).len() as int) == col + d,
        (col + d + seq![op] + d2).subrange((col + d).len() + 1int, (col + d).len() + 1int + d2.len()) == d2,
{
    let t = col + d;
    let f = t + seq![op] + d2;
    let m = col.len() as int;
    let n1 = t.len() as int;
    let n = f.len() as int;
    assert(f[0] == col[0] && is_upper(col[0]));
    assert(f[n1] == op);
    assert(f[n1 + 1] == d2[0] && is_digit(d2[0]));
    assert(f[m] == d[0] && is_digit(d[0]));
    lemma_upper_run(f, 0);
    let u = upper_run(f, 0);
    if u < m {
        assert(f[u] == col[u]);
    } else if u > m {
        assert(is_upper(f[m]));
    }
    assert forall|k: int| m <= k < n1 implies is_digit(#[trigger] f[k]) by {
        assert(f[k] == d[k - m]);
    }
    lemma_digit_run_exact(f, m, n1);
    assert(skip_ws(f, 0) == 0);
    assert(operand_end(f, 0) == Some(n1));
    assert(skip_ws(f, n1) == n1);
    assert(skip_ws(f, n1 + 1) == n1 + 1);
    assert forall|k: int| n1 + 1 <= k < n implies is_digit(#[trigger] f[k]) by {
        assert(f[k] == d2[k - n1 - 1]);
    }
    lemma_digit_run_exact(f, n1 + 1, n);
    assert(operand_end(f, n1 + 1) == Some(n));
    assert(skip_ws(f, n) == n);
    assert(f.subrange(0, n1) =~= t);
    assert(f.subrange(n1 + 1, n) =~= d2);
}

} // verus!
