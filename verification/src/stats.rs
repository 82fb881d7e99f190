//! Aggregates over the values of a range of cells.

use vstd::prelude::*;

verus! {

/// Sum with the wrap-around of `i32` addition, from the left.
pub open spec fn wsum(v: Seq<i32>) -> i32
    decreases v.len(),
{
    if v.len() == 0 {
        0
    } else {
        wsum(v.drop_last()).wrapping_add(v.last())
    }
}

/// Smallest value, starting from `i32::MAX`.
pub open spec fn seq_min(v: Seq<i32>) -> i32
    decreases v.len(),
{
    if v.len() == 0 {
        i32::MAX
    } else if v.last() < seq_min(v.drop_last()) {
        v.last()
    } else {
        seq_min(v.drop_last())
    }
}

/// Largest value, starting from `i32::MIN`.
pub open spec fn seq_max(v: Seq<i32>) -> i32
    decreases v.len(),
{
    if v.len() == 0 {
        i32::MIN
    } else if v.last() > seq_max(v.drop_last()) {
        v.last()
    } else {
        seq_max(v.drop_last())
    }
}

/// Exact sum.
pub open spec fn sum_int(v: Seq<i32>) -> int
    decreases v.len(),
{
    if v.len() == 0 {
        0
    } else {
        sum_int(v.drop_last()) + v.last()
    }
}

/// Exact sum of squares.
pub open spec fn sumsq_int(v: Seq<i32>) -> int
    decreases v.len(),
{
    if v.len() == 0 {
        0
    } else {
        sumsq_int(v.drop_last()) + v.last() * v.last()
    }
}

/// `n * sum(x^2) - sum(x)^2`, that is `n^2` times the population variance.
pub open spec fn scaled_variance(v: Seq<i32>) -> int {
    v.len() * sumsq_int(v) - sum_int(v) * sum_int(v)
}

/// `k` is at most the population standard deviation rounded half up:
/// `k - 1/2 <= sqrt(d / n^2)`, i.e. `(2k - 1)^2 n^2 <= 4 d`.
pub open spec fn below_rounded_sqrt(k: int, n: int, d: int) -> bool {
    k == 0 || (2 * k - 1) * (2 * k - 1) * (n * n) <= 4 * d
}

/// The population standard deviation of `v`, rounded to the nearest integer
/// (halves up) and saturated at `i32::MAX`; 0 for fewer than two values.
pub open spec fn is_stdev(v: Seq<i32>, r: i32) -> bool {
    if v.len() <= 1 {
        r == 0
    } else {
        let n = v.len() as int;
        let d = scaled_variance(v);
        &&& r >= 0
        &&& below_rounded_sqrt(r as int, n, d)
        &&& (r < i32::MAX ==> !below_rounded_sqrt(r + 1, n, d))
    }
}

pub proof fn lemma_below_rounded_sqrt_mono(k: int, n: int, d: int)
    requires
        k >= 0,
        below_rounded_sqrt(k + 1, n, d),
    ensures
        below_rounded_sqrt(k, n, d),
{
    if k > 0 {
        assert((2 * k - 1) * (2 * k - 1) * (n * n) <= (2 * k + 1) * (2 * k + 1) * (n * n))
            by (nonlinear_arith)
            requires
                k > 0,
        ;
    }
}

/// The standard deviation is unique.
pub proof fn lemma_stdev_unique(v: Seq<i32>, a: i32, b: i32)
    requires
        is_stdev(v, a),
        is_stdev(v, b),
    ensures
        a == b,
{
    if v.len() > 1 {
        let n = v.len() as int;
        let d = scaled_variance(v);
        if a < b {
            lemma_below_rounded_sqrt_down(b as int, a + 1, n, d);
        } else if b < a {
            lemma_below_rounded_sqrt_down(a as int, b + 1, n, d);
        }
    }
}

pub proof fn lemma_below_rounded_sqrt_down(k: int, j: int, n: int, d: int)
    requires
        0 <= j <= k,
        below_rounded_sqrt(k, n, d),
    ensures
        below_rounded_sqrt(j, n, d),
    decreases k - j,
{
    if j < k {
        lemma_below_rounded_sqrt_mono(k - 1, n, d);
        lemma_below_rounded_sqrt_down(k - 1, j, n, d);
    }
}

fn below_rounded_sqrt_exec(k: u64, n: i128, d: i128) -> (b: bool)
    requires
        2 <= n <= i32::MAX,
        -0x1000_0000_0000_0000_0000_0000_0000_0000int <= d <= 0x1000_0000_0000_0000_0000_0000_0000_0000int,
        k < 0x8000_0000_0000_0000,
    ensures
        b == below_rounded_sqrt(k as int, n as int, d as int),
{
    if k == 0 {
        return true;
    }
    proof {
        assert((2 * k - 1) * n <= 0x8000_0000_0000_0000_0000_0000) by (nonlinear_arith)
            requires
                1 <= k < 0x8000_0000_0000_0000,
                2 <= n <= 0x7fff_ffff,
        ;
    }
    let t: u128 = ((2 * (k as u128)) - 1) * (n as u128);
    if t > 0x8000_0000_0000_0000 {
        proof {
            assert(t * t > 4 * d) by (nonlinear_arith)
                requires
                    t > 0x8000_0000_0000_0000,
                    d <= 0x1000_0000_0000_0000_0000_0000_0000_0000int,
            ;
            assert((2 * k - 1) * (2 * k - 1) * (n * n) == t * t) by (nonlinear_arith)
                requires
                    t == (2 * k - 1) * n,
            ;
        }
        return false;
    }
    proof {
        assert(t * t <= 0x4000_0000_0000_0000_0000_0000_0000_0000int) by (nonlinear_arith)
            requires
                0 <= t <= 0x8000_0000_0000_0000,
        ;
        assert((2 * k - 1) * (2 * k - 1) * (n * n) == t * t) by (nonlinear_arith)
            requires
                t == (2 * k - 1) * n,
        ;
    }
    let sq: u128 = t * t;
    (sq as i128) <= 4 * d
}

/// Population standard deviation, rounded to the nearest integer.
pub fn stdev(values: &Vec<i32>) -> (r: i32)
    requires
        values.len() <= i32::MAX,
    ensures
        is_stdev(values@, r),
{
    let count = values.len();
    if count <= 1 {
        return 0;
    }
    let mut s: i128 = 0;
    let mut q: i128 = 0;
    let mut i: usize = 0;
    while i < count
        invariant
            count == values.len() <= i32::MAX,
            i <= count,
            s == sum_int(values@.take(i as int)),
            q == sumsq_int(values@.take(i as int)),
            -(i * 0x8000_0000) <= s <= i * 0x8000_0000,
            0 <= q <= i * 0x4000_0000_0000_0000,
        decreases count - i,
    {
        let x = values[i] as i128;
        proof {
            assert(values@.take(i + 1).drop_last() == values@.take(i as int));
            assert(x * x <= 0x4000_0000_0000_0000) by (nonlinear_arith)
                requires
                    -0x8000_0000 <= x <= 0x7fff_ffff,
            ;
            assert(0 <= x * x) by (nonlinear_arith);
        }
        s = s + x;
        q = q + x * x;
        i += 1;
    }
    assert(values@.take(count as int) == values@);
    let n = count as i128;
    proof {
        assert(n * q <= 0x1000_0000_0000_0000_0000_0000_0000_0000int) by (nonlinear_arith)
            requires
                0 <= q <= n * 0x4000_0000_0000_0000,
                2 <= n <= 0x7fff_ffff,
        ;
        assert(s * s <= 0x1000_0000_0000_0000_0000_0000_0000_0000int) by (nonlinear_arith)
            requires
                -(n * 0x8000_0000) <= s <= n * 0x8000_0000,
                2 <= n <= 0x7fff_ffff,
        ;
        assert(0 <= s * s) by (nonlinear_arith);
        assert(0 <= n * q) by (nonlinear_arith)
            requires
                0 <= q,
                0 <= n,
        ;
    }
    let d: i128 = n * q - s * s;
    let mut lo: u64 = 0;
    let mut hi: u64 = 0x8000_0000_0000_0000;
    proof {
        assert(!below_rounded_sqrt(hi as int, n as int, d as int)) by {
            let k = hi as int;
            assert((2 * k - 1) * (2 * k - 1) * (n * n) > 4 * d) by (nonlinear_arith)
                requires
                    k == 0x8000_0000_0000_0000,
                    2 <= n,
                    d <= 0x1000_0000_0000_0000_0000_0000_0000_0000int,
            ;
        }
    }
    while hi - lo > 1
        invariant
            lo < hi <= 0x8000_0000_0000_0000,
            2 <= n <= i32::MAX,
            -0x1000_0000_0000_0000_0000_0000_0000_0000int <= d <= 0x1000_0000_0000_0000_0000_0000_0000_0000int,
            below_rounded_sqrt(lo as int, n as int, d as int),
            !below_rounded_sqrt(hi as int, n as int, d as int),
        decreases hi - lo,
    {
        let mid = lo + (hi - lo) / 2;
        if below_rounded_sqrt_exec(mid, n, d) {
            lo = mid;
        } else {
            hi = mid;
        }
    }
    if lo > 0x7fff_ffff {
        proof {
            lemma_below_rounded_sqrt_down(lo as int, i32::MAX as int, n as int, d as int);
        }
        i32::MAX
    } else {
        lo as i32
    }
}

/// Wrapping sum of a vector.
pub fn sum_values(values: &Vec<i32>) -> (r: i32)
    ensures
        r == wsum(values@),
{
    let mut result: i32 = 0;
    let mut i: usize = 0;
    while i < values.len()
        invariant
            i <= values.len(),
            result == wsum(values@.take(i as int)),
        decreases values.len() - i,
    {
        assert(values@.take(i + 1).drop_last() == values@.take(i as int));
        result = result.wrapping_add(values[i]);
        i += 1;
    }
    assert(values@.take(values.len() as int) == values@);
    result
}

/// Smallest value (`i32::MAX` for none).
pub fn min_value(values: &Vec<i32>) -> (r: i32)
    ensures
        r == seq_min(values@),
{
    let mut result: i32 = i32::MAX;
    let mut i: usize = 0;
    while i < values.len()
        invariant
            i <= values.len(),
            result == seq_min(values@.take(i as int)),
        decreases values.len() - i,
    {
        assert(values@.take(i + 1).drop_last() == values@.take(i as int));
        if values[i] < result {
            result = values[i];
        }
        i += 1;
    }
    assert(values@.take(values.len() as int) == values@);
    result
}

/// Largest value (`i32::MIN` for none).
pub fn max_value(values: &Vec<i32>) -> (r: i32)
    ensures
        r == seq_max(values@),
{
    let mut result: i32 = i32::MIN;
    let mut i: usize = 0;
    while i < values.len()
        invariant
            i <= values.len(),
            result == seq_max(values@.take(i as int)),
        decreases values.len() - i,
    {
        assert(values@.take(i + 1).drop_last() == values@.take(i as int));
        if values[i] > result {
            result = values[i];
        }
        i += 1;
    }
    assert(values@.take(values.len() as int) == values@);
    result
}


/// Every partial sum, from the first value on, fits in `i32`.
pub open spec fn sums_fit(v: Seq<i32>) -> bool {
    forall|k: int| 0 <= k <= v.len() ==> i32::MIN <= #[trigger] sum_int(v.take(k)) <= i32::MAX
}

/// Where no partial sum leaves `i32`, the wrapping sum is the exact sum.
pub proof fn lemma_wsum_exact(v: Seq<i32>)
    requires
        sums_fit(v),
    ensures
        wsum(v) == sum_int(v),
    decreases v.len(),
{
    if v.len() > 0 {
        let p = v.drop_last();
        assert forall|k: int| 0 <= k <= p.len() implies i32::MIN <= #[trigger] sum_int(p.take(k)) <= i32::MAX by {
            assert(p.take(k) == v.take(k));
        }
        lemma_wsum_exact(p);
        assert(v.take(v.len() as int) == v);
    }
}

/// The least value times the count is at most the sum, and the sum at most
/// the greatest value times the count.
pub proof fn lemma_sum_between(v: Seq<i32>)
    requires
        v.len() > 0,
    ensures
        seq_min(v) * v.len() <= sum_int(v) <= seq_max(v) * v.len(),
    decreases v.len(),
{
    let n = v.len() as int;
    let p = v.drop_last();
    let x = v.last();
    if n == 1 {
        assert(sum_int(p) == 0 && seq_min(p) == i32::MAX && seq_max(p) == i32::MIN);
        assert(seq_min(v) == x && seq_max(v) == x);
    } else {
        lemma_sum_between(p);
        let lo = seq_min(v);
        let hi = seq_max(v);
        let plo = seq_min(p);
        let phi = seq_max(p);
        assert(lo <= plo && lo <= x);
        assert(hi >= phi && hi >= x);
        assert(lo * (n - 1) <= plo * (n - 1)) by (nonlinear_arith)
            requires
                lo <= plo,
                n - 1 >= 0,
        ;
        assert(hi * (n - 1) >= phi * (n - 1)) by (nonlinear_arith)
            requires
                hi >= phi,
                n - 1 >= 0,
        ;
        assert(lo * n == lo * (n - 1) + lo) by (nonlinear_arith);
        assert(hi * n == hi * (n - 1) + hi) by (nonlinear_arith);
    }
}


/// The largest and the smallest value of a non-empty list are among its
/// values, and bound all of them.
pub proof fn lemma_seq_extremes(v: Seq<i32>)
    requires
        v.len() > 0,
    ensures
        v.contains(seq_max(v)),
        v.contains(seq_min(v)),
        forall|k: int| 0 <= k < v.len() ==> seq_min(v) <= #[trigger] v[k] <= seq_max(v),
    decreases v.len(),
{
    let p = v.drop_last();
    if v.len() == 1 {
        assert(v[0] == v.last());
    } else {
        lemma_seq_extremes(p);
        let a = choose|k: int| 0 <= k < p.len() && p[k] == seq_max(p);
        let b = choose|k: int| 0 <= k < p.len() && p[k] == seq_min(p);
        assert(v[a] == p[a] && v[b] == p[b]);
        assert(v[v.len() - 1] == v.last());
        assert forall|k: int| 0 <= k < v.len() implies seq_min(v) <= #[trigger] v[k] <= seq_max(v) by {
            if k < v.len() - 1 {
                assert(v[k] == p[k]);
            }
        }
    }
}

} // verus!
