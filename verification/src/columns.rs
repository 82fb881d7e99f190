use vstd::prelude::*;
use crate::text::{is_upper, is_upper_char, string_of};

verus! {

// ---------------------------------------------------------------------------
// Column letters  <->  column indices
// ---------------------------------------------------------------------------

/// Value of an upper-case letter as a bijective base-26 digit (`A` = 1).
pub open spec fn letter_value(c: char) -> int {
    (c as int) - ('A' as int) + 1
}

pub open spec fn all_upper(s: Seq<char>) -> bool {
    forall|i: int| 0 <= i < s.len() ==> is_upper(#[trigger] s[i])
}

/// `index = index * 26 + letter` folded over the letters with the wrap-around
/// of `i32` arithmetic.
pub open spec fn col_fold(s: Seq<char>) -> i32
    decreases s.len(),
{
    if s.len() == 0 {
        0
    } else {
        col_fold(s.drop_last()).wrapping_mul(26).wrapping_add(letter_value(s.last()) as i32)
    }
}

/// Exact bijective base-26 value of a run of upper-case letters.
pub open spec fn col_value(s: Seq<char>) -> int
    decreases s.len(),
{
    if s.len() == 0 {
        0
    } else {
        col_value(s.drop_last()) * 26 + letter_value(s.last())
    }
}

/// Column index of a name made of `A`..`Z` (`A` = 0, `Z` = 25, `AA` = 26, ...);
/// -1 when a character is not an upper-case letter.
pub open spec fn spec_col_index(s: Seq<char>) -> i32 {
    if all_upper(s) {
        col_fold(s).wrapping_sub(1)
    } else {
        -1i32
    }
}

/// The table of one-, two- and three-letter names that the sheet consults
/// before computing an index, a cache of the calculation: `A..Z` -> 0..25,
/// `AA..ZZ` -> 26 + 26*i + j, and `AAA..ZZZ` -> 702 + 676*i + 26*j + k.
pub open spec fn column_table(s: Seq<char>) -> Option<i32> {
    if !all_upper(s) {
        None
    } else if s.len() == 1 {
        Some((letter_value(s[0]) - 1) as i32)
    } else if s.len() == 2 {
        Some((26 + (letter_value(s[0]) - 1) * 26 + (letter_value(s[1]) - 1)) as i32)
    } else if s.len() == 3 {
        Some(
            (702 + (letter_value(s[0]) - 1) * 676 + (letter_value(s[1]) - 1) * 26 + (
            letter_value(s[2]) - 1)) as i32,
        )
    } else {
        None
    }
}

/// Column index with the table consulted first.
pub open spec fn spec_col_index_table(s: Seq<char>) -> i32 {
    match column_table(s) {
        Some(v) => v,
        None => spec_col_index(s),
    }
}

/// Computes the column index of a name of upper-case letters; any other
/// character gives -1.
pub fn get_col_index(col: &Vec<char>) -> (r: i32)
    ensures
        r == spec_col_index(col@),
{
    let mut index: i32 = 0;
    let mut i: usize = 0;
    while i < col.len()
        invariant
            i <= col.len(),
            all_upper(col@.take(i as int)),
            index == col_fold(col@.take(i as int)),
        decreases col.len() - i,
    {
        let c = col[i];
        if !is_upper_char(c) {
            assert(!all_upper(col@)) by {
                assert(!is_upper(col@[i as int]));
            }
            return -1;
        }
        proof {
            assert(col@.take(i + 1).drop_last() == col@.take(i as int));
        }
        index = index.wrapping_mul(26).wrapping_add(((c as u32) - 64) as i32);
        i += 1;
    }
    assert(col@.take(col.len() as int) == col@);
    index.wrapping_sub(1)
}

/// Whether every character is an upper-case letter.
pub fn all_upper_exec(col: &Vec<char>) -> (b: bool)
    ensures
        b == all_upper(col@),
{
    let mut i: usize = 0;
    while i < col.len()
        invariant
            i <= col.len(),
            all_upper(col@.take(i as int)),
        decreases col.len() - i,
    {
        if !is_upper_char(col[i]) {
            assert(!is_upper(col@[i as int]));
            return false;
        }
        assert(col@.take(i + 1) == col@.take(i as int).push(col@[i as int]));
        i += 1;
    }
    assert(col@.take(col.len() as int) == col@);
    true
}

/// Column index, looking names of one to three letters up in the table first.
pub fn get_col_index_table(col: &Vec<char>) -> (r: i32)
    ensures
        r == spec_col_index_table(col@),
{
    let n = col.len();
    if 1 <= n && n <= 3 {
        let all = all_upper_exec(col);
        if all {
            let a = ((col[0] as u32) - 65) as i32;
            if n == 1 {
                return a;
            }
            let b = ((col[1] as u32) - 65) as i32;
            if n == 2 {
                return 26 + a * 26 + b;
            }
            let c = ((col[2] as u32) - 65) as i32;
            return 702 + a * 676 + b * 26 + c;
        }
    }
    get_col_index(col)
}

/// Letter for a remainder `0..26`.
pub open spec fn letter_of(d: int) -> char {
    ((d + 65) as u8) as char
}

/// Bijective base-26 name of `n` (`1` -> `A`, `27` -> `AA`); empty for 0.
pub open spec fn col_name(n: nat) -> Seq<char>
    decreases n,
{
    if n == 0 {
        Seq::empty()
    } else {
        col_name(((n - 1) / 26) as nat).push(letter_of((n - 1) % 26))
    }
}

/// Name of the 0-based column `col` (`0` -> `A`, `26` -> `AA`).  The index
/// is moved to 1-based with the wrap-around of `usize`.
pub open spec fn spec_column_name(col: usize) -> Seq<char> {
    col_name(col.wrapping_add(1) as nat)
}

fn letter_char(d: usize) -> (c: char)
    requires
        d < 26,
    ensures
        c == letter_of(d as int),
        is_upper(c),
{
    ((d as u8) + 65u8) as char
}

/// Column name as characters.
pub fn column_name_chars(col: usize) -> (r: Vec<char>)
    ensures
        r@ == spec_column_name(col),
{
    let mut name: Vec<char> = Vec::new();
    let mut n: usize = col.wrapping_add(1);
    while n > 0
        invariant
            name@ + Seq::empty() == name@,
            col_name(spec_column_name_arg(col)) == col_name(n as nat) + name@,
        decreases n,
    {
        let d = (n - 1) % 26;
        let ghost old_name = name@;
        let ghost old_n = n;
        name.insert(0, letter_char(d));
        n = (n - 1) / 26;
        proof {
            assert(col_name(old_n as nat) == col_name(n as nat).push(letter_of(d as int)));
            assert(name@ == seq![letter_of(d as int)] + old_name);
            assert(col_name(n as nat).push(letter_of(d as int)) + old_name == col_name(n as nat)
                + name@);
        }
    }
    assert(col_name(0) == Seq::<char>::empty());
    name
}

pub open spec fn spec_column_name_arg(col: usize) -> nat {
    col.wrapping_add(1) as nat
}

/// Column name utility (converts a 0-based index to "A", "B", ..., "Z", "AA", ...).
pub fn column_name(col: usize) -> (s: String)
    ensures
        s@ == spec_column_name(col),
{
    let v = column_name_chars(col);
    string_of(v.as_slice())
}

// ---------------------------------------------------------------------------
// Laws relating names and indices
// ---------------------------------------------------------------------------

pub proof fn lemma_col_name_upper(n: nat)
    ensures
        all_upper(col_name(n)),
        n > 0 ==> col_name(n).len() > 0,
    decreases n,
{
    if n > 0 {
        lemma_col_name_upper(((n - 1) / 26) as nat);
        let d = (n - 1) % 26;
        assert(is_upper(letter_of(d))) by {
            assert(0 <= d < 26);
        }
    }
}

pub proof fn lemma_col_value_of_name(n: nat)
    ensures
        col_value(col_name(n)) == n,
    decreases n,
{
    if n > 0 {
        let q = ((n - 1) / 26) as nat;
        lemma_col_value_of_name(q);
        let d = (n - 1) % 26;
        assert(col_name(n).drop_last() == col_name(q));
        assert(letter_value(letter_of(d)) == d + 1) by {
            assert(0 <= d < 26);
        }
    }
}

pub proof fn lemma_name_of_col_value(s: Seq<char>)
    requires
        all_upper(s),
    ensures
        col_name(col_value(s) as nat) == s,
        col_value(s) >= 0,
        s.len() > 0 ==> col_value(s) > 0,
    decreases s.len(),
{
    if s.len() > 0 {
        let p = s.drop_last();
        assert(all_upper(p));
        lemma_name_of_col_value(p);
        let c = s.last();
        assert(is_upper(c));
        let v = col_value(s);
        assert(v == col_value(p) * 26 + letter_value(c));
        assert((v - 1) / 26 == col_value(p) && (v - 1) % 26 == letter_value(c) - 1) by {
            assert(1 <= letter_value(c) <= 26);
        }
        assert(letter_of(letter_value(c) - 1) == c);
        assert(s == p.push(c));
    }
}

/// While the exact value stays within `i32`, the wrapping fold is exact.
pub proof fn lemma_col_fold_exact(s: Seq<char>)
    requires
        all_upper(s),
        col_value(s) <= i32::MAX,
    ensures
        col_fold(s) == col_value(s),
    decreases s.len(),
{
    if s.len() > 0 {
        let p = s.drop_last();
        assert(all_upper(p));
        assert(is_upper(s.last()));
        lemma_name_of_col_value(p);
        assert(col_value(p) <= col_value(s));
        lemma_col_fold_exact(p);
    }
}

/// Law: the index of the name of column `c` is `c`, for every column whose
/// 1-based number fits in `i32`.
pub proof fn law_col_index_of_column_name(c: usize)
    requires
        c < i32::MAX,
    ensures
        spec_col_index(spec_column_name(c)) == c as i32,
{
    let n = (c + 1) as nat;
    assert(c.wrapping_add(1) == c + 1);
    lemma_col_name_upper(n);
    lemma_col_value_of_name(n);
    lemma_col_fold_exact(col_name(n));
}

/// Law: a name of upper-case letters is the name of its own index, as long as
/// its 1-based value fits in `i32`.
pub proof fn law_column_name_of_col_index(s: Seq<char>)
    requires
        s.len() > 0,
        all_upper(s),
        col_value(s) <= i32::MAX,
    ensures
        spec_col_index(s) >= 0,
        spec_column_name(spec_col_index(s) as usize) == s,
{
    lemma_name_of_col_value(s);
    lemma_col_fold_exact(s);
    let c = spec_col_index(s);
    assert(c == col_value(s) - 1);
    assert((c as usize).wrapping_add(1) == col_value(s));
}


/// Law: the table is a cache of the calculation: for every name, looking it
/// up first gives the index the calculation gives.
pub proof fn law_col_index_table_is_calculation(s: Seq<char>)
    ensures
        spec_col_index_table(s) == spec_col_index(s),
{
    if all_upper(s) && 1 <= s.len() <= 3 {
        let a = letter_value(s[0]);
        assert(is_upper(s[0]));
        let s1 = s.take(1);
        assert(s1.drop_last() =~= Seq::<char>::empty());
        assert(col_value(Seq::<char>::empty()) == 0);
        assert(s1.last() == s[0]);
        assert(col_value(s1) == a);
        if s.len() >= 2 {
            let b = letter_value(s[1]);
            assert(is_upper(s[1]));
            let s2 = s.take(2);
            assert(s2.drop_last() =~= s1);
            assert(s2.last() == s[1]);
            assert(col_value(s2) == a * 26 + b);
            if s.len() == 3 {
                let c = letter_value(s[2]);
                assert(is_upper(s[2]));
                assert(s.drop_last() =~= s2);
                assert(col_value(s) == (a * 26 + b) * 26 + c);
            } else {
                assert(s2 =~= s);
            }
        } else {
            assert(s1 =~= s);
        }
        lemma_col_fold_exact(s);
    }
}


/// `x` comes before `y` among column names: it is shorter, or as long and
/// alphabetically first.
pub open spec fn name_before(x: Seq<char>, y: Seq<char>) -> bool {
    ||| x.len() < y.len()
    ||| (x.len() == y.len() && exists|k: int| 0 <= k < x.len() && x.take(k) == y.take(k) && #[trigger] x[k] < y[k])
}

/// The value of the name `AA...A` of `l` letters.
pub open spec fn least_of_len(l: nat) -> int
    decreases l,
{
    if l == 0 {
        0
    } else {
        least_of_len((l - 1) as nat) * 26 + 1
    }
}

proof fn lemma_value_bounds(s: Seq<char>)
    requires
        all_upper(s),
    ensures
        least_of_len(s.len()) <= col_value(s) <= 26 * least_of_len(s.len()),
    decreases s.len(),
{
    if s.len() > 0 {
        let p = s.drop_last();
        assert(all_upper(p));
        assert(is_upper(s.last()));
        lemma_value_bounds(p);
    }
}

proof fn lemma_least_grows(a: nat, b: nat)
    requires
        a <= b,
    ensures
        least_of_len(a) <= least_of_len(b),
        least_of_len(a) >= 0,
    decreases b,
{
    if a < b {
        lemma_least_grows(a, (b - 1) as nat);
    } else if a > 0 {
        lemma_least_grows((a - 1) as nat, (a - 1) as nat);
    }
}

proof fn lemma_lex_value(x: Seq<char>, y: Seq<char>, k: int)
    requires
        all_upper(x),
        all_upper(y),
        x.len() == y.len(),
        0 <= k < x.len(),
        x.take(k) == y.take(k),
        x[k] < y[k],
    ensures
        col_value(x) < col_value(y),
    decreases x.len(),
{
    let px = x.drop_last();
    let py = y.drop_last();
    assert(all_upper(px) && all_upper(py));
    assert(is_upper(x.last()) && is_upper(y.last()));
    if k == x.len() - 1 {
        assert(px == x.take(k) && py == y.take(k));
    } else {
        assert(px.take(k) == x.take(k) && py.take(k) == y.take(k));
        assert(px[k] == x[k] && py[k] == y[k]);
        lemma_lex_value(px, py, k);
    }
}

proof fn lemma_first_difference(x: Seq<char>, y: Seq<char>, i: int) -> (k: int)
    requires
        x.len() == y.len(),
        0 <= i <= x.len(),
        x.take(i) == y.take(i),
        x != y,
    ensures
        i <= k < x.len(),
        x.take(k) == y.take(k),
        x[k] != y[k],
    decreases x.len() - i,
{
    if i == x.len() {
        assert(x == x.take(i) && y == y.take(i));
        assert(false);
        i
    } else if x[i] != y[i] {
        i
    } else {
        assert(x.take(i + 1) == x.take(i).push(x[i]));
        assert(y.take(i + 1) == y.take(i).push(y[i]));
        lemma_first_difference(x, y, i + 1)
    }
}

/// Law: column names are ordered as their columns: the name of an earlier
/// column is shorter, or as long and alphabetically first; every name is a
/// non-empty run of `A`..`Z`.
pub proof fn law_column_names_ordered(n: usize, m: usize)
    requires
        n < m < usize::MAX,
    ensures
        spec_column_name(n).len() > 0,
        all_upper(spec_column_name(n)),
        name_before(spec_column_name(n), spec_column_name(m)),
{
    let x = spec_column_name(n);
    let y = spec_column_name(m);
    assert(n.wrapping_add(1) == n + 1 && m.wrapping_add(1) == m + 1);
    assert(x == col_name((n + 1) as nat) && y == col_name((m + 1) as nat));
    lemma_col_name_upper((n + 1) as nat);
    lemma_col_name_upper((m + 1) as nat);
    lemma_col_value_of_name((n + 1) as nat);
    lemma_col_value_of_name((m + 1) as nat);
    lemma_value_bounds(x);
    lemma_value_bounds(y);
    if x.len() > y.len() {
        lemma_least_grows((y.len() + 1) as nat, x.len());
        assert(least_of_len((y.len() + 1) as nat) == least_of_len(y.len()) * 26 + 1);
        assert(false);
    } else if x.len() == y.len() {
        assert(x != y);
        assert(x.take(0) =~= y.take(0));
        let k = lemma_first_difference(x, y, 0);
        if x[k] > y[k] {
            assert(y.take(k) == x.take(k));
            lemma_lex_value(y, x, k);
            assert(false);
        }
        assert(x[k] < y[k]);
    }
}

} // verus!
