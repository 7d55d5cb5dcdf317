//! Descriptive statistics over fixed-point sequences.
//!
//! Each executable function is pinned by its contract to a specification
//! mirror: a spec function that performs the same integer arithmetic over the
//! sequence view, so results are functionally determined by the input.

use vstd::prelude::*;
use crate::fx::{
    SCALE, VAL_BOUND, LEN_BOUND, SAT_BOUND, fx_ok, vals_ok, tdiv, tclamp, is_sqrt, sqrt_floor,
    lemma_sqrt_exists, lemma_sqrt_unique, lemma_tdiv_nonneg, lemma_tdiv_abs, lemma_tdiv_mono,
    lemma_tdiv_exact, lemma_tdiv_bracket_gen, lemma_tdiv_scale, divt64, divt128, clamp64,
    fx_sqrt, sat64,
};
use crate::seqs::{
    sum_vals, sorted, sort_vals, lemma_sum_vals_take, lemma_sum_vals_bound, lemma_sort_vals_props,
    lemma_sort_vals_fx_ok, sorted_copy,
};

verus! {

/// Mirror of the mean: truncated division of the sum by the length; zero for
/// the empty sequence.
pub open spec fn mean_fx(s: Seq<i64>) -> int {
    if s.len() == 0 {
        0
    } else {
        tdiv(sum_vals(s), s.len() as int)
    }
}

/// The mean of in-range values is in range.
pub proof fn lemma_mean_fx_ok(s: Seq<i64>)
    requires
        vals_ok(s),
    ensures
        fx_ok(mean_fx(s)),
{
    if s.len() > 0 {
        assert forall|i: int| 0 <= i < s.len()
            implies -(VAL_BOUND as int) <= #[trigger] s[i] <= VAL_BOUND as int by {
            assert(fx_ok(s[i] as int));
        }
        lemma_sum_vals_bound(s, VAL_BOUND as int);
        lemma_tdiv_bracket_gen(sum_vals(s), s.len() as int, -VAL_BOUND as int, VAL_BOUND as int);
        assert(s.len() * VAL_BOUND == VAL_BOUND * s.len()) by (nonlinear_arith);
    }
}

/// Mean (average) of a data set; zero when empty.
pub fn calculate_mean(data: &Vec<i64>) -> (r: i64)
    requires
        vals_ok(data@),
    ensures
        r == mean_fx(data@),
        fx_ok(r as int),
{
    let n: usize = data.len();
    if n == 0 {
        return 0;
    }
    let mut acc: i64 = 0;
    let mut i: usize = 0;
    proof {
        assert(data@.take(0) =~= Seq::<i64>::empty());
    }
    while i < n
        invariant
            n == data@.len(),
            vals_ok(data@),
            0 <= i <= n,
            acc == sum_vals(data@.take(i as int)),
            -(i as int) * (VAL_BOUND as int) <= acc as int <= (i as int) * (VAL_BOUND as int),
        decreases n - i,
    {
        proof {
            lemma_sum_vals_take(data@, i as int);
            assert(fx_ok(data@[i as int] as int));
            assert((i as int) * (VAL_BOUND as int) + VAL_BOUND ==
                ((i + 1) as int) * (VAL_BOUND as int)) by (nonlinear_arith);
        }
        acc = acc + data[i];
        i = i + 1;
    }
    proof {
        assert(data@.take(n as int) =~= data@);
        lemma_mean_fx_ok(data@);
    }
    divt64(acc, n as i64)
}

/// Mirror of the median of an already ordered sequence: the middle element,
/// or the truncated average of the two middle elements.
pub open spec fn median_sorted_fx(t: Seq<i64>) -> int {
    if t.len() == 0 {
        0
    } else if t.len() % 2 == 0 {
        tdiv(t[t.len() as int / 2 - 1] + t[t.len() as int / 2], 2)
    } else {
        t[t.len() as int / 2] as int
    }
}

/// Median of an already ordered data set; zero when empty.
pub fn calculate_median(sorted_data: &Vec<i64>) -> (r: i64)
    requires
        vals_ok(sorted_data@),
    ensures
        r == median_sorted_fx(sorted_data@),
        fx_ok(r as int),
{
    let n: usize = sorted_data.len();
    if n == 0 {
        return 0;
    }
    if n % 2 == 0 {
        let a: i64 = sorted_data[n / 2 - 1];
        let b: i64 = sorted_data[n / 2];
        proof {
            assert(fx_ok(sorted_data@[n as int / 2 - 1] as int));
            assert(fx_ok(sorted_data@[n as int / 2] as int));
            lemma_tdiv_bracket_gen(a as int + b as int, 2, -VAL_BOUND as int, VAL_BOUND as int);
        }
        divt64(a + b, 2)
    } else {
        sorted_data[n / 2]
    }
}

/// Mirror of percentile lookup in an ordered sequence, by linear
/// interpolation between bracketing order statistics. `p` is a fixed-point
/// percentage in `[0, 100]` (clamped).
pub open spec fn percentile_sorted_fx(t: Seq<i64>, p: int) -> int {
    if t.len() == 0 {
        0
    } else {
        let pc = tclamp(p, 0, 100 * SCALE as int);
        let idx = tdiv(pc * (t.len() - 1), 100);
        let lo = tdiv(idx, SCALE as int);
        let w = idx - lo * SCALE;
        if w == 0 || lo + 1 >= t.len() {
            t[lo] as int
        } else {
            tdiv(t[lo] * (SCALE - w) + t[lo + 1] * w, SCALE as int)
        }
    }
}

/// Mirror of percentile over an arbitrary sequence: sort, then interpolate.
pub open spec fn percentile_fx(s: Seq<i64>, p: int) -> int {
    percentile_sorted_fx(sort_vals(s), p)
}

/// The fractional index used by [`percentile_sorted_fx`] lies in
/// `[0, SCALE * (len - 1)]`, so `lo` is a valid index.
proof fn lemma_percentile_index(t: Seq<i64>, p: int)
    requires
        t.len() >= 1,
    ensures
        ({
            let pc = tclamp(p, 0, 100 * SCALE as int);
            let idx = tdiv(pc * (t.len() - 1), 100);
            let lo = tdiv(idx, SCALE as int);
            let w = idx - lo * SCALE;
            0 <= idx <= SCALE * (t.len() - 1) && 0 <= lo <= t.len() - 1 && 0 <= w < SCALE
                && (lo == t.len() - 1 ==> w == 0)
        }),
{
    let pc = tclamp(p, 0, 100 * SCALE as int);
    let idx = tdiv(pc * (t.len() - 1), 100);
    let lo = tdiv(idx, SCALE as int);
    let w = idx - lo * SCALE;
    assert(0 <= pc * (t.len() - 1)) by (nonlinear_arith)
        requires pc >= 0 && t.len() >= 1,
    ;
    assert(pc * (t.len() - 1) <= (100 * SCALE as int) * (t.len() - 1)) by (nonlinear_arith)
        requires pc <= 100 * SCALE as int && t.len() >= 1,
    ;
    assert((100 * SCALE as int) * (t.len() - 1) == (SCALE as int * (t.len() - 1)) * 100)
        by (nonlinear_arith);
    lemma_tdiv_bracket_gen(pc * (t.len() - 1), 100, 0, SCALE as int * (t.len() - 1));
    lemma_tdiv_nonneg(idx, SCALE as int);
    lemma_tdiv_bracket_gen(idx, SCALE as int, 0, t.len() - 1);
    vstd::arithmetic::div_mod::lemma_fundamental_div_mod(idx, SCALE as int);
    if lo == t.len() - 1 {
        assert(idx == SCALE as int * (t.len() - 1) ==> w == 0) by (nonlinear_arith)
            requires lo == t.len() - 1 && w == idx - lo * SCALE,
        ;
        assert(idx >= SCALE as int * (t.len() - 1)) by {
            assert(idx == SCALE as int * lo + w);
        }
    }
}

/// An interpolated percentile of an ordered in-range sequence lies between
/// the two order statistics that bracket it.
proof fn lemma_percentile_sorted_bounds(t: Seq<i64>, p: int)
    requires
        t.len() >= 1,
        sorted(t),
        forall|i: int| 0 <= i < t.len() ==> #[trigger] fx_ok(t[i] as int),
    ensures
        ({
            let pc = tclamp(p, 0, 100 * SCALE as int);
            let idx = tdiv(pc * (t.len() - 1), 100);
            let lo = tdiv(idx, SCALE as int);
            t[lo] <= percentile_sorted_fx(t, p)
                && (lo + 1 < t.len() ==> percentile_sorted_fx(t, p) <= t[lo + 1])
                && (lo + 1 >= t.len() ==> percentile_sorted_fx(t, p) <= t[lo])
        }),
{
    lemma_percentile_index(t, p);
    let pc = tclamp(p, 0, 100 * SCALE as int);
    let idx = tdiv(pc * (t.len() - 1), 100);
    let lo = tdiv(idx, SCALE as int);
    let w = idx - lo * SCALE;
    if w == 0 || lo + 1 >= t.len() {
    } else {
        let a = t[lo] as int;
        let b = t[lo + 1] as int;
        assert(a <= b);
        assert(a * SCALE <= a * (SCALE - w) + b * w) by (nonlinear_arith)
            requires a <= b && 0 <= w < SCALE,
        ;
        assert(a * (SCALE - w) + b * w <= b * SCALE) by (nonlinear_arith)
            requires a <= b && 0 <= w < SCALE,
        ;
        lemma_tdiv_bracket_gen(a * (SCALE - w) + b * w, SCALE as int, a, b);
    }
}

/// Percentile lookup is monotone in the requested percentage over an ordered
/// sequence.
pub proof fn lemma_percentile_sorted_mono(t: Seq<i64>, p: int, q: int)
    requires
        t.len() >= 1,
        sorted(t),
        forall|i: int| 0 <= i < t.len() ==> #[trigger] fx_ok(t[i] as int),
        p <= q,
    ensures
        percentile_sorted_fx(t, p) <= percentile_sorted_fx(t, q),
{
    lemma_percentile_index(t, p);
    lemma_percentile_index(t, q);
    lemma_percentile_sorted_bounds(t, p);
    lemma_percentile_sorted_bounds(t, q);
    let pcp = tclamp(p as int, 0, 100 * SCALE as int);
    let pcq = tclamp(q as int, 0, 100 * SCALE as int);
    let idxp = tdiv(pcp * (t.len() - 1), 100);
    let idxq = tdiv(pcq * (t.len() - 1), 100);
    let lop = tdiv(idxp, SCALE as int);
    let loq = tdiv(idxq, SCALE as int);
    let wp = idxp - lop * SCALE;
    let wq = idxq - loq * SCALE;
    assert(pcp <= pcq);
    assert(pcp * (t.len() - 1) <= pcq * (t.len() - 1)) by (nonlinear_arith)
        requires pcp <= pcq && t.len() >= 1,
    ;
    lemma_tdiv_mono(pcp * (t.len() - 1), pcq * (t.len() - 1), 100);
    lemma_tdiv_mono(idxp, idxq, SCALE as int);
    if lop == loq {
        if wp == wq {
        } else if lop + 1 >= t.len() {
            // both reduce to t[lop]
        } else {
            let a = t[lop] as int;
            let b = t[lop + 1] as int;
            assert(wp < wq) by {
                assert(idxp == lop * SCALE + wp);
                assert(idxq == loq * SCALE + wq);
            }
            if wp == 0 {
                // percentile at p is t[lop]; at q it is bracketed below by t[lop]
            } else {
                assert(a * (SCALE - wp) + b * wp <= a * (SCALE - wq) + b * wq) by (nonlinear_arith)
                    requires a <= b && wp <= wq,
                ;
                lemma_tdiv_mono(a * (SCALE - wp) + b * wp, a * (SCALE - wq) + b * wq, SCALE as int);
            }
        }
    } else {
        assert(lop < loq);
        assert(lop + 1 <= loq);
        assert(t[lop] <= t[loq]);
        if lop + 1 < t.len() {
            assert(t[lop + 1] <= t[loq]);
        }
    }
}

/// Mirror of variance about a given center: truncated division of the summed
/// squared deviations by `(len - 1) * SCALE`; zero below two points.
pub open spec fn sum_sq_dev(s: Seq<i64>, m: int) -> int
    decreases s.len(),
{
    if s.len() == 0 {
        0
    } else {
        sum_sq_dev(s.drop_last(), m) + (s.last() - m) * (s.last() - m)
    }
}

/// Peeling one element off a prefix of summed squared deviations.
pub proof fn lemma_sum_sq_dev_take(s: Seq<i64>, m: int, i: int)
    requires
        0 <= i < s.len(),
    ensures
        sum_sq_dev(s.take(i + 1), m) == sum_sq_dev(s.take(i), m) + (s[i] - m) * (s[i] - m),
{
    assert(s.take(i + 1).drop_last() =~= s.take(i));
    assert(s.take(i + 1).last() == s[i]);
}

/// Summed squared deviations are nonnegative and bounded by
/// `len * (2 * VAL_BOUND)^2` for in-range data and center.
pub proof fn lemma_sum_sq_dev_bounds(s: Seq<i64>, m: int)
    requires
        forall|i: int| 0 <= i < s.len() ==> #[trigger] fx_ok(s[i] as int),
        fx_ok(m),
    ensures
        0 <= sum_sq_dev(s, m),
        sum_sq_dev(s, m) <= s.len() * ((2 * VAL_BOUND as int) * (2 * VAL_BOUND as int)),
    decreases s.len(),
{
    let bb = (2 * VAL_BOUND as int) * (2 * VAL_BOUND as int);
    if s.len() == 0 {
    } else {
        assert(forall|i: int| 0 <= i < s.drop_last().len()
            ==> #[trigger] fx_ok(s.drop_last()[i] as int));
        lemma_sum_sq_dev_bounds(s.drop_last(), m);
        assert(fx_ok(s[s.len() - 1] as int));
        let d = s.last() - m;
        assert(0 <= d * d <= bb) by (nonlinear_arith)
            requires
                -2 * VAL_BOUND as int <= d <= 2 * VAL_BOUND as int,
                bb == (2 * VAL_BOUND as int) * (2 * VAL_BOUND as int),
        ;
        assert((s.len() - 1) * bb + bb == s.len() * bb) by (nonlinear_arith);
    }
}

/// Mirror of sample variance about a supplied mean.
pub open spec fn variance_about_fx(s: Seq<i64>, m: int) -> int {
    if s.len() < 2 {
        0
    } else {
        tdiv(sum_sq_dev(s, m), (s.len() - 1) * SCALE)
    }
}

/// Mirror of sample variance about the sequence's own mean.
pub open spec fn variance_fx(s: Seq<i64>) -> int {
    variance_about_fx(s, mean_fx(s))
}

/// Sample variance is nonnegative and bounded for in-range inputs.
pub proof fn lemma_variance_about_bounds(s: Seq<i64>, m: int)
    requires
        vals_ok(s),
        fx_ok(m),
    ensures
        0 <= variance_about_fx(s, m),
        variance_about_fx(s, m) <= 4 * VAL_BOUND as int * VAL_BOUND as int,
{
    if s.len() < 2 {
    } else {
        let bb = (2 * VAL_BOUND as int) * (2 * VAL_BOUND as int);
        lemma_sum_sq_dev_bounds(s, m);
        lemma_tdiv_nonneg(sum_sq_dev(s, m), (s.len() - 1) * SCALE);
        assert(s.len() * bb <= (4 * VAL_BOUND as int * VAL_BOUND as int)
            * ((s.len() - 1) * SCALE as int)) by (nonlinear_arith)
            requires 2 <= s.len() && SCALE as int == 10000 && bb == (2 * VAL_BOUND as int) * (2
                * VAL_BOUND as int),
        ;
        lemma_tdiv_bracket_gen(
            sum_sq_dev(s, m),
            (s.len() - 1) * SCALE,
            0,
            4 * VAL_BOUND as int * VAL_BOUND as int,
        );
    }
}

/// Sample variance of a data set about a supplied mean (the `n - 1`
/// denominator); zero below two points.
pub fn calculate_variance(data: &Vec<i64>, mean: i64) -> (r: i64)
    requires
        vals_ok(data@),
        fx_ok(mean as int),
    ensures
        r == variance_about_fx(data@, mean as int),
        0 <= r <= 4 * VAL_BOUND as int * VAL_BOUND as int,
{
    let n: usize = data.len();
    if n < 2 {
        return 0;
    }
    let mut acc: i128 = 0;
    let mut i: usize = 0;
    proof {
        assert(data@.take(0) =~= Seq::<i64>::empty());
    }
    while i < n
        invariant
            n == data@.len(),
            2 <= n <= LEN_BOUND,
            vals_ok(data@),
            fx_ok(mean as int),
            0 <= i <= n,
            acc == sum_sq_dev(data@.take(i as int), mean as int),
            0 <= acc as int <= (i as int) * ((2 * VAL_BOUND as int) * (2 * VAL_BOUND as int)),
        decreases n - i,
    {
        proof {
            assert(fx_ok(data@[i as int] as int));
        }
        let d: i64 = data[i] - mean;
        proof {
            lemma_sum_sq_dev_take(data@, mean as int, i as int);
            let bb = (2 * VAL_BOUND as int) * (2 * VAL_BOUND as int);
            assert(0 <= (d as int) * (d as int) <= bb) by (nonlinear_arith)
                requires
                    -2 * VAL_BOUND as int <= d as int <= 2 * VAL_BOUND as int,
                    bb == (2 * VAL_BOUND as int) * (2 * VAL_BOUND as int),
            ;
            assert((i as int) * bb + bb == ((i + 1) as int) * bb) by (nonlinear_arith);
            assert(((i + 1) as int) * bb <= (LEN_BOUND as int) * bb) by (nonlinear_arith)
                requires (i + 1) as int <= LEN_BOUND as int && bb >= 0,
            ;
            assert((LEN_BOUND as int) * bb == 4_000_000_000_000_000_000int) by (nonlinear_arith)
                requires
                    bb == (2 * VAL_BOUND as int) * (2 * VAL_BOUND as int),
                    VAL_BOUND as int == 10_000_000,
                    LEN_BOUND as int == 10000,
            ;
        }
        let sq: i128 = (d as i128) * (d as i128);
        acc = acc + sq;
        i = i + 1;
    }
    proof {
        assert(data@.take(n as int) =~= data@);
        lemma_variance_about_bounds(data@, mean as int);
        assert((n as int - 1) * SCALE as int <= i64::MAX as int) by (nonlinear_arith)
            requires 2 <= n as int <= LEN_BOUND as int && SCALE as int == 10000,
        ;
    }
    let denom: i128 = ((n - 1) as i128) * (SCALE as i128);
    let q: i128 = divt128(acc, denom);
    q as i64
}

/// Mirror of standard deviation: the fixed-point square root of the variance
/// about the sequence's own mean.
pub open spec fn std_dev_fx(s: Seq<i64>) -> int {
    sqrt_floor(variance_fx(s) * SCALE)
}

/// Standard deviation of a data set (square root of sample variance).
pub fn calculate_std_deviation(data: &Vec<i64>) -> (r: i64)
    requires
        vals_ok(data@),
    ensures
        r == std_dev_fx(data@),
        r >= 0,
        is_sqrt(variance_fx(data@) * SCALE, r as int),
{
    let mean: i64 = calculate_mean(data);
    let var: i64 = calculate_variance(data, mean);
    fx_sqrt(var)
}

/// A specific percentile of a data set (sorting a copy first); `percentile`
/// is a fixed-point percentage, clamped to `[0, 100]`.
pub fn calculate_percentile(data: &Vec<i64>, percentile: i64) -> (r: i64)
    requires
        vals_ok(data@),
    ensures
        r == percentile_fx(data@, percentile as int),
        fx_ok(r as int),
{
    if data.len() == 0 {
        return 0;
    }
    let t: Vec<i64> = sorted_copy(data);
    proof {
        lemma_sort_vals_fx_ok(data@);
        lemma_sort_vals_props(data@);
    }
    percentile_of_sorted(&t, percentile)
}

/// Percentile lookup in an already ordered data set (see
/// [`percentile_sorted_fx`]).
pub fn percentile_of_sorted(t: &Vec<i64>, percentile: i64) -> (r: i64)
    requires
        t@.len() >= 1,
        t@.len() <= LEN_BOUND,
        forall|i: int| 0 <= i < t@.len() ==> #[trigger] fx_ok(t@[i] as int),
    ensures
        r == percentile_sorted_fx(t@, percentile as int),
        fx_ok(r as int),
{
    let n: usize = t.len();
    let pc: i64 = clamp64(percentile, 0, 100 * SCALE);
    proof {
        lemma_percentile_index(t@, percentile as int);
        assert(pc as int * (n - 1) <= (100 * SCALE as int) * (LEN_BOUND as int))
            by (nonlinear_arith)
            requires 0 <= pc as int <= 100 * SCALE as int && 0 <= n as int - 1 <= LEN_BOUND as int,
        ;
    }
    let idx: i64 = divt64(pc * ((n - 1) as i64), 100);
    let lo: i64 = divt64(idx, SCALE);
    let w: i64 = idx - lo * SCALE;
    if w == 0 || lo + 1 >= n as i64 {
        let r: i64 = t[lo as usize];
        r
    } else {
        let a: i64 = t[lo as usize];
        let b: i64 = t[(lo + 1) as usize];
        proof {
            assert(fx_ok(t@[lo as int] as int));
            assert(fx_ok(t@[lo as int + 1] as int));
            assert(-(VAL_BOUND as int) * (SCALE as int) <= a as int * (SCALE - w)
                <= (VAL_BOUND as int) * (SCALE as int)) by (nonlinear_arith)
                requires
                    -(VAL_BOUND as int) <= a as int <= VAL_BOUND as int && 0 <= SCALE as int - w
                        <= SCALE as int,
            ;
            assert(-(VAL_BOUND as int) * (SCALE as int) <= b as int * w
                <= (VAL_BOUND as int) * (SCALE as int)) by (nonlinear_arith)
                requires -(VAL_BOUND as int) <= b as int <= VAL_BOUND as int && 0 <= w
                    <= SCALE as int,
            ;
            assert(a as int * (SCALE - w) + b as int * w <= (VAL_BOUND as int) * (SCALE as int))
                by (nonlinear_arith)
                requires
                    -(VAL_BOUND as int) <= a as int <= VAL_BOUND as int && -(VAL_BOUND as int)
                        <= b as int <= VAL_BOUND as int && 0 <= w < SCALE as int,
            ;
            assert(-((VAL_BOUND as int) * (SCALE as int)) <= a as int * (SCALE - w) + b as int * w)
                by (nonlinear_arith)
                requires
                    -(VAL_BOUND as int) <= a as int <= VAL_BOUND as int && -(VAL_BOUND as int)
                        <= b as int <= VAL_BOUND as int && 0 <= w < SCALE as int,
            ;
            lemma_tdiv_bracket_gen(
                a as int * (SCALE - w) + b as int * w,
                SCALE as int,
                -VAL_BOUND as int,
                VAL_BOUND as int,
            );
        }
        divt64(a * (SCALE - w) + b * w, SCALE)
    }
}

/// Quartiles never cross: for any nonempty in-range sequence the 25th, 50th,
/// 75th and 90th percentiles are in nondecreasing order.
pub proof fn lemma_percentiles_ordered(s: Seq<i64>)
    requires
        vals_ok(s),
        s.len() >= 1,
    ensures
        percentile_fx(s, 25 * SCALE as int) <= percentile_fx(s, 50 * SCALE as int),
        percentile_fx(s, 50 * SCALE as int) <= percentile_fx(s, 75 * SCALE as int),
        percentile_fx(s, 75 * SCALE as int) <= percentile_fx(s, 90 * SCALE as int),
{
    lemma_sort_vals_props(s);
    lemma_sort_vals_fx_ok(s);
    lemma_percentile_sorted_mono(sort_vals(s), 25 * SCALE as int, 50 * SCALE as int);
    lemma_percentile_sorted_mono(sort_vals(s), 50 * SCALE as int, 75 * SCALE as int);
    lemma_percentile_sorted_mono(sort_vals(s), 75 * SCALE as int, 90 * SCALE as int);
}

/// The median agrees with the 50th percentile: the direct middle-element
/// computation and the interpolating percentile path give the same value.
pub proof fn lemma_median_is_p50(s: Seq<i64>)
    requires
        vals_ok(s),
    ensures
        median_sorted_fx(sort_vals(s)) == percentile_fx(s, 50 * SCALE as int),
{
    lemma_sort_vals_props(s);
    let t = sort_vals(s);
    if t.len() == 0 {
    } else {
        let n = t.len() as int;
        let pc = tclamp(50 * SCALE as int, 0, 100 * SCALE as int);
        assert(pc == 50 * SCALE as int);
        let idx = tdiv(pc * (n - 1), 100);
        assert(pc * (n - 1) == (SCALE as int / 2 * (n - 1)) * 100) by (nonlinear_arith)
            requires pc == 50 * SCALE as int && SCALE as int == 10000,
        ;
        lemma_tdiv_exact(SCALE as int / 2 * (n - 1), 100);
        assert(idx == 5000 * (n - 1));
        let lo = tdiv(idx, SCALE as int);
        let w = idx - lo * SCALE;
        if n % 2 == 1 {
            let m = n / 2;
            assert(n == 2 * m + 1);
            assert(5000 * (n - 1) == m * SCALE) by (nonlinear_arith)
                requires n == 2 * m + 1 && SCALE as int == 10000,
            ;
            lemma_tdiv_exact(m, SCALE as int);
            assert(lo == m);
            assert(w == 0) by (nonlinear_arith)
                requires idx == m * SCALE as int && lo == m && w == idx - lo * SCALE,
            ;
        } else {
            let m = n / 2;
            assert(n == 2 * m);
            assert(m >= 1);
            assert(idx == (m - 1) * SCALE + 5000) by (nonlinear_arith)
                requires idx == 5000 * (n - 1) && n == 2 * m && SCALE as int == 10000,
            ;
            vstd::arithmetic::div_mod::lemma_fundamental_div_mod_converse(
                idx, SCALE as int, m - 1, 5000,
            );
            lemma_tdiv_nonneg(idx, SCALE as int);
            assert(lo == m - 1);
            assert(w == 5000) by (nonlinear_arith)
                requires idx == (m - 1) * SCALE as int + 5000 && lo == m - 1 && w == idx - lo
                    * SCALE,
            ;
            assert(lo + 1 == m < n);
            let a = t[m - 1] as int;
            let b = t[m] as int;
            assert(a * (SCALE - 5000) + b * 5000 == 5000 * (a + b)) by (nonlinear_arith)
                requires SCALE as int == 10000,
            ;
            assert(SCALE as int == 5000 * 2);
            lemma_tdiv_scale(a + b, 2, 5000);
        }
    }
}

/// Sample variance is never negative, and the standard deviation is exactly
/// the fixed-point square root of the variance.
pub proof fn lemma_std_dev_is_sqrt_of_variance(s: Seq<i64>)
    requires
        vals_ok(s),
    ensures
        variance_fx(s) >= 0,
        is_sqrt(variance_fx(s) * SCALE, std_dev_fx(s)),
{
    lemma_mean_fx_ok(s);
    lemma_variance_about_bounds(s, mean_fx(s));
    assert(variance_fx(s) * SCALE >= 0) by (nonlinear_arith)
        requires variance_fx(s) >= 0 && SCALE as int == 10000,
    ;
    lemma_sqrt_exists(variance_fx(s) * SCALE);
}

/// The rounding bucket used for mode detection: the value rounded half away
/// from zero to two decimal places (so buckets are hundredths).
pub open spec fn bucket_of(v: i64) -> int {
    let q = tdiv(v as int, 100);
    let r = v - q * 100;
    if r >= 50 {
        q + 1
    } else if r <= -50 {
        q - 1
    } else {
        q
    }
}

/// How many elements of `s` fall into bucket `k`.
pub open spec fn count_bucket(s: Seq<i64>, k: int) -> int
    decreases s.len(),
{
    if s.len() == 0 {
        0
    } else {
        count_bucket(s.drop_last(), k) + (if bucket_of(s.last()) == k {
            1int
        } else {
            0int
        })
    }
}

/// Peeling one element off a prefix bucket count.
pub proof fn lemma_count_bucket_take(s: Seq<i64>, k: int, i: int)
    requires
        0 <= i < s.len(),
    ensures
        count_bucket(s.take(i + 1), k) == count_bucket(s.take(i), k) + (if bucket_of(s[i]) == k {
            1int
        } else {
            0int
        }),
{
    assert(s.take(i + 1).drop_last() =~= s.take(i));
    assert(s.take(i + 1).last() == s[i]);
}

/// Bucket counts are nonnegative and bounded by the length.
pub proof fn lemma_count_bucket_bounds(s: Seq<i64>, k: int)
    ensures
        0 <= count_bucket(s, k) <= s.len(),
    decreases s.len(),
{
    if s.len() > 0 {
        lemma_count_bucket_bounds(s.drop_last(), k);
    }
}

/// The distinct buckets of `s`, in order of first appearance.
pub open spec fn distinct_buckets(s: Seq<i64>) -> Seq<int>
    decreases s.len(),
{
    if s.len() == 0 {
        Seq::empty()
    } else {
        let d = distinct_buckets(s.drop_last());
        if d.contains(bucket_of(s.last())) {
            d
        } else {
            d.push(bucket_of(s.last()))
        }
    }
}

/// Unfolding one step of the distinct-bucket list over a growing prefix.
pub proof fn lemma_distinct_buckets_take(s: Seq<i64>, i: int)
    requires
        0 <= i < s.len(),
    ensures
        distinct_buckets(s.take(i + 1)) == (if distinct_buckets(s.take(i)).contains(
            bucket_of(s[i]),
        ) {
            distinct_buckets(s.take(i))
        } else {
            distinct_buckets(s.take(i)).push(bucket_of(s[i]))
        }),
{
    assert(s.take(i + 1).drop_last() =~= s.take(i));
    assert(s.take(i + 1).last() == s[i]);
}

/// A bucket that is not listed among the distinct buckets has count zero.
pub proof fn lemma_count_zero_if_unlisted(s: Seq<i64>, k: int)
    requires
        !distinct_buckets(s).contains(k),
    ensures
        count_bucket(s, k) == 0,
    decreases s.len(),
{
    if s.len() > 0 {
        let d = distinct_buckets(s.drop_last());
        if d.contains(bucket_of(s.last())) {
            assert(!d.contains(k));
        } else {
            assert(forall|j: int| 0 <= j < d.len() ==> d.push(bucket_of(s.last()))[j] == #[trigger] d[j]);
            assert forall|j: int| 0 <= j < d.len() implies #[trigger] d[j] != k by {
                assert(distinct_buckets(s)[j] == d[j]);
            }
            assert(!d.contains(k));
            assert(bucket_of(s.last()) != k) by {
                assert(distinct_buckets(s)[d.len() as int] == bucket_of(s.last()));
            }
        }
        lemma_count_zero_if_unlisted(s.drop_last(), k);
    }
}

/// The distinct-bucket list never repeats a key.
pub proof fn lemma_distinct_buckets_nodup(s: Seq<i64>)
    ensures
        forall|j1: int, j2: int|
            0 <= j1 < j2 < distinct_buckets(s).len() ==> #[trigger] distinct_buckets(s)[j1]
                != #[trigger] distinct_buckets(s)[j2],
    decreases s.len(),
{
    if s.len() > 0 {
        lemma_distinct_buckets_nodup(s.drop_last());
        let d = distinct_buckets(s.drop_last());
        if !d.contains(bucket_of(s.last())) {
            assert(forall|j: int| 0 <= j < d.len() ==> #[trigger] d[j] != bucket_of(s.last()));
        }
    }
}

/// The largest bucket count among the listed keys.
pub open spec fn max_count(s: Seq<i64>, keys: Seq<int>) -> int
    decreases keys.len(),
{
    if keys.len() == 0 {
        0
    } else {
        let rest = max_count(s, keys.drop_last());
        let c = count_bucket(s, keys.last());
        if c > rest {
            c
        } else {
            rest
        }
    }
}

/// Peeling one key off a prefix maximum.
pub proof fn lemma_max_count_take(s: Seq<i64>, keys: Seq<int>, j: int)
    requires
        0 <= j < keys.len(),
    ensures
        max_count(s, keys.take(j + 1)) == (if count_bucket(s, keys[j]) > max_count(
            s,
            keys.take(j),
        ) {
            count_bucket(s, keys[j])
        } else {
            max_count(s, keys.take(j))
        }),
{
    assert(keys.take(j + 1).drop_last() =~= keys.take(j));
    assert(keys.take(j + 1).last() == keys[j]);
}

/// The mode keys: listed buckets whose count equals `mc`, scaled back to
/// fixed-point values (one bucket is a hundredth of a unit).
pub open spec fn mode_keys(s: Seq<i64>, keys: Seq<int>, mc: int) -> Seq<i64>
    decreases keys.len(),
{
    if keys.len() == 0 {
        Seq::empty()
    } else {
        let rest = mode_keys(s, keys.drop_last(), mc);
        if count_bucket(s, keys.last()) == mc {
            rest.push((keys.last() * 100) as i64)
        } else {
            rest
        }
    }
}

/// Peeling one key off a prefix of the mode-key list.
pub proof fn lemma_mode_keys_take(s: Seq<i64>, keys: Seq<int>, mc: int, j: int)
    requires
        0 <= j < keys.len(),
    ensures
        mode_keys(s, keys.take(j + 1), mc) == (if count_bucket(s, keys[j]) == mc {
            mode_keys(s, keys.take(j), mc).push((keys[j] * 100) as i64)
        } else {
            mode_keys(s, keys.take(j), mc)
        }),
{
    assert(keys.take(j + 1).drop_last() =~= keys.take(j));
    assert(keys.take(j + 1).last() == keys[j]);
}

/// Mirror of mode detection: group values into hundredth-sized buckets, and
/// return every bucket that attains the maximal frequency, provided that
/// frequency exceeds one; empty otherwise.
pub open spec fn mode_fx(s: Seq<i64>) -> Seq<i64> {
    if s.len() == 0 {
        Seq::empty()
    } else {
        let keys = distinct_buckets(s);
        let mc = max_count(s, keys);
        if mc <= 1 {
            Seq::empty()
        } else {
            mode_keys(s, keys, mc)
        }
    }
}

/// The bucket of an in-range value is small enough to scale back by 100.
pub proof fn lemma_bucket_of_range(v: i64)
    requires
        fx_ok(v as int),
    ensures
        -(VAL_BOUND as int) - 100 <= bucket_of(v) * 100 <= VAL_BOUND as int + 100,
{
    lemma_tdiv_abs(v as int, 100);
    let q = tdiv(v as int, 100);
    lemma_tdiv_bracket_gen(v as int, 100, -(VAL_BOUND as int / 100), VAL_BOUND as int / 100);
    assert(-(VAL_BOUND as int) - 100 <= bucket_of(v) * 100 <= VAL_BOUND as int + 100)
        by (nonlinear_arith)
        requires
            -(VAL_BOUND as int / 100) <= q <= VAL_BOUND as int / 100,
            bucket_of(v) == q || bucket_of(v) == q + 1 || bucket_of(v) == q - 1,
            VAL_BOUND as int == 10_000_000,
    ;
}

/// Mode (most frequent rounded value or values) of a data set, in order of
/// first appearance; empty when no value repeats.
pub fn calculate_mode(data: &Vec<i64>) -> (r: Vec<i64>)
    requires
        vals_ok(data@),
    ensures
        r@ == mode_fx(data@),
{
    let n: usize = data.len();
    let mut r: Vec<i64> = Vec::new();
    if n == 0 {
        proof {
            assert(r@ =~= mode_fx(data@));
        }
        return r;
    }
    let ghost sv = data@;
    let mut keys: Vec<i64> = Vec::new();
    let mut counts: Vec<usize> = Vec::new();
    let mut i: usize = 0;
    proof {
        assert(sv.take(0) =~= Seq::<i64>::empty());
        lemma_distinct_buckets_nodup(sv);
    }
    while i < n
        invariant
            n == sv.len(),
            sv == data@,
            vals_ok(sv),
            0 <= i <= n,
            keys@.len() == counts@.len(),
            keys@.len() == distinct_buckets(sv.take(i as int)).len(),
            forall|j: int| 0 <= j < keys@.len() ==> #[trigger] keys@[j] as int == distinct_buckets(
                sv.take(i as int),
            )[j],
            forall|j: int| 0 <= j < counts@.len() ==> #[trigger] counts@[j] as int == count_bucket(
                sv.take(i as int),
                keys@[j] as int,
            ),
            forall|j1: int, j2: int|
                0 <= j1 < j2 < keys@.len() ==> #[trigger] keys@[j1] != #[trigger] keys@[j2],
        decreases n - i,
    {
        proof {
            assert(fx_ok(sv[i as int] as int));
            lemma_bucket_of_range(data@[i as int]);
        }
        let v: i64 = data[i];
        let q: i64 = divt64(v, 100);
        let rem: i64 = v - q * 100;
        let k: i64 = if rem >= 50 {
            q + 1
        } else if rem <= -50 {
            q - 1
        } else {
            q
        };
        proof {
            assert(k as int == bucket_of(sv[i as int]));
            lemma_distinct_buckets_take(sv, i as int);
            lemma_count_bucket_take(sv, k as int, i as int);
            lemma_count_bucket_bounds(sv.take(i as int), k as int);
        }
        let mut j: usize = 0;
        let mut found: bool = false;
        while j < keys.len() && !found
            invariant
                keys@.len() == counts@.len(),
                0 <= j <= keys@.len(),
                !found ==> forall|jj: int| 0 <= jj < j ==> #[trigger] keys@[jj] != k,
                found ==> j < keys@.len() && keys@[j as int] == k,
            decreases keys@.len() - j + (if found { 0int } else { 1int }),
        {
            if keys[j] == k {
                found = true;
            } else {
                j = j + 1;
            }
        }
        if found {
            proof {
                assert(distinct_buckets(sv.take(i as int)).contains(k as int)) by {
                    assert(distinct_buckets(sv.take(i as int))[j as int] == k as int);
                }
                assert forall|jj: int| 0 <= jj < counts@.len() && jj != j as int
                    implies count_bucket(sv.take(i as int + 1), keys@[jj] as int) == count_bucket(
                    sv.take(i as int),
                    keys@[jj] as int,
                ) by {
                    lemma_count_bucket_take(sv, keys@[jj] as int, i as int);
                }
                lemma_count_bucket_bounds(sv.take(i as int + 1), k as int);
            }
            let c: usize = counts[j];
            counts.set(j, c + 1);
        } else {
            proof {
                assert(j as int == keys@.len());
                if distinct_buckets(sv.take(i as int)).contains(k as int) {
                    let jj = choose|jj: int|
                        0 <= jj < distinct_buckets(sv.take(i as int)).len() && distinct_buckets(
                            sv.take(i as int),
                        )[jj] == k as int;
                    assert(keys@[jj] as int == k as int);
                    assert(false);
                }
                assert forall|jj: int| 0 <= jj < counts@.len()
                    implies count_bucket(sv.take(i as int + 1), keys@[jj] as int) == count_bucket(
                    sv.take(i as int),
                    keys@[jj] as int,
                ) by {
                    lemma_count_bucket_take(sv, keys@[jj] as int, i as int);
                }
                lemma_count_zero_if_unlisted(sv.take(i as int), k as int);
            }
            keys.push(k);
            counts.push(1);
        }
        i = i + 1;
    }
    proof {
        assert(sv.take(n as int) =~= sv);
    }
    let ghost dkeys = distinct_buckets(sv);
    let m: usize = keys.len();
    let mut mc: usize = 0;
    let mut j: usize = 0;
    proof {
        assert(dkeys.take(0) =~= Seq::<int>::empty());
    }
    while j < m
        invariant
            m == keys@.len(),
            keys@.len() == counts@.len(),
            sv == data@,
            vals_ok(sv),
            dkeys == distinct_buckets(sv),
            dkeys.len() == keys@.len(),
            forall|jj: int| 0 <= jj < keys@.len() ==> #[trigger] keys@[jj] as int == dkeys[jj],
            forall|jj: int| 0 <= jj < counts@.len() ==> #[trigger] counts@[jj] as int
                == count_bucket(sv, keys@[jj] as int),
            0 <= j <= m,
            mc as int == max_count(sv, dkeys.take(j as int)),
            mc <= LEN_BOUND,
        decreases m - j,
    {
        proof {
            lemma_max_count_take(sv, dkeys, j as int);
            lemma_count_bucket_bounds(sv, dkeys[j as int]);
        }
        let c: usize = counts[j];
        if c > mc {
            mc = c;
        }
        j = j + 1;
    }
    proof {
        assert(dkeys.take(m as int) =~= dkeys);
    }
    if mc <= 1 {
        proof {
            assert(r@ =~= mode_fx(sv));
        }
        return r;
    }
    let mut j2: usize = 0;
    proof {
        assert(dkeys.take(0) =~= Seq::<int>::empty());
        assert(r@ =~= mode_keys(sv, dkeys.take(0), mc as int));
    }
    while j2 < m
        invariant
            m == keys@.len(),
            keys@.len() == counts@.len(),
            sv == data@,
            vals_ok(sv),
            dkeys == distinct_buckets(sv),
            dkeys.len() == keys@.len(),
            forall|jj: int| 0 <= jj < keys@.len() ==> #[trigger] keys@[jj] as int == dkeys[jj],
            forall|jj: int| 0 <= jj < counts@.len() ==> #[trigger] counts@[jj] as int
                == count_bucket(sv, keys@[jj] as int),
            0 <= j2 <= m,
            r@ == mode_keys(sv, dkeys.take(j2 as int), mc as int),
        decreases m - j2,
    {
        proof {
            lemma_mode_keys_take(sv, dkeys, mc as int, j2 as int);
        }
        let c: usize = counts[j2];
        if c == mc {
            proof {
                let kk = keys@[j2 as int];
                assert(dkeys[j2 as int] == kk as int);
                assert(dkeys_elem_in_range(sv, j2 as int)) by {
                    lemma_distinct_bucket_elem_range(sv, j2 as int);
                }
            }
            let kv: i64 = keys[j2] * 100;
            r.push(kv);
        }
        j2 = j2 + 1;
    }
    proof {
        assert(dkeys.take(m as int) =~= dkeys);
    }
    r
}

/// The listed bucket at `j` is the bucket of some element, hence in range.
pub open spec fn dkeys_elem_in_range(s: Seq<i64>, j: int) -> bool {
    -(VAL_BOUND as int) - 100 <= distinct_buckets(s)[j] * 100 <= VAL_BOUND as int + 100
}

/// Every listed distinct bucket is the bucket of some element of `s`.
pub proof fn lemma_distinct_bucket_elem_range(s: Seq<i64>, j: int)
    requires
        vals_ok(s),
        0 <= j < distinct_buckets(s).len(),
    ensures
        dkeys_elem_in_range(s, j),
    decreases s.len(),
{
    if s.len() == 0 {
    } else {
        let d = distinct_buckets(s.drop_last());
        assert(forall|i: int| 0 <= i < s.drop_last().len() ==> #[trigger] fx_ok(
            s.drop_last()[i] as int,
        ));
        if d.contains(bucket_of(s.last())) {
            lemma_distinct_bucket_elem_range(s.drop_last(), j);
        } else {
            if j < d.len() {
                lemma_distinct_bucket_elem_range(s.drop_last(), j);
            } else {
                assert(fx_ok(s[s.len() - 1] as int));
                lemma_bucket_of_range(s.last());
            }
        }
    }
}

/// Saturation bound for standardized deviations (z-values): fixed-point
/// 10,000 whole units, far beyond any meaningful standardized grade.
pub const Z_BOUND: i64 = 100_000_000;

/// Standardized deviation of `x` about mean `m` with deviation `sd > 0`,
/// saturated to `[-Z_BOUND, Z_BOUND]`.
pub open spec fn zval(x: i64, m: int, sd: int) -> int {
    tclamp(tdiv((x - m) * SCALE, sd), -Z_BOUND as int, Z_BOUND as int)
}

/// Fixed-point square of the standardized deviation.
pub open spec fn zsq(x: i64, m: int, sd: int) -> int {
    tdiv(zval(x, m, sd) * zval(x, m, sd), SCALE as int)
}

/// Fixed-point cube of the standardized deviation.
pub open spec fn zcube(x: i64, m: int, sd: int) -> int {
    tdiv(zsq(x, m, sd) * zval(x, m, sd), SCALE as int)
}

/// Fixed-point fourth power of the standardized deviation.
pub open spec fn zquart(x: i64, m: int, sd: int) -> int {
    tdiv(zsq(x, m, sd) * zsq(x, m, sd), SCALE as int)
}

/// Elementary bounds on the standardized powers.
pub proof fn lemma_z_bounds(x: i64, m: int, sd: int)
    requires
        sd > 0,
    ensures
        -(Z_BOUND as int) <= zval(x, m, sd) <= Z_BOUND as int,
        0 <= zsq(x, m, sd) <= 1_000_000_000_000int,
        -10_000_000_000_000_0000int <= zcube(x, m, sd) <= 10_000_000_000_000_0000int,
        0 <= zquart(x, m, sd) <= 100_000_000_000_000_000_000int,
{
    let z = zval(x, m, sd);
    assert(0 <= z * z <= 10_000_000_000_000_000int) by (nonlinear_arith)
        requires -100_000_000 <= z <= 100_000_000,
    ;
    lemma_tdiv_bracket_gen(z * z, SCALE as int, 0, 1_000_000_000_000int);
    let z2 = zsq(x, m, sd);
    assert(-(z2 * 100_000_000) <= z2 * z <= z2 * 100_000_000) by (nonlinear_arith)
        requires -100_000_000 <= z <= 100_000_000 && z2 >= 0,
    ;
    assert(z2 * 100_000_000 <= 1000_000_000_000_000_000_000int) by (nonlinear_arith)
        requires 0 <= z2 <= 1_000_000_000_000int,
    ;
    lemma_tdiv_bracket_gen(
        z2 * z,
        SCALE as int,
        -10_000_000_000_000_0000int,
        10_000_000_000_000_0000int,
    );
    assert(0 <= z2 * z2 <= 1_000_000_000_000_000_000_000_000int) by (nonlinear_arith)
        requires 0 <= z2 <= 1_000_000_000_000int,
    ;
    lemma_tdiv_bracket_gen(z2 * z2, SCALE as int, 0, 100_000_000_000_000_000_000int);
}

/// Sum of standardized cubes over the sequence.
pub open spec fn sum_zcube(s: Seq<i64>, m: int, sd: int) -> int
    decreases s.len(),
{
    if s.len() == 0 {
        0
    } else {
        sum_zcube(s.drop_last(), m, sd) + zcube(s.last(), m, sd)
    }
}

/// Sum of standardized fourth powers over the sequence.
pub open spec fn sum_zquart(s: Seq<i64>, m: int, sd: int) -> int
    decreases s.len(),
{
    if s.len() == 0 {
        0
    } else {
        sum_zquart(s.drop_last(), m, sd) + zquart(s.last(), m, sd)
    }
}

/// Peeling one element off the prefix sums of standardized powers.
pub proof fn lemma_sum_z_take(s: Seq<i64>, m: int, sd: int, i: int)
    requires
        0 <= i < s.len(),
    ensures
        sum_zcube(s.take(i + 1), m, sd) == sum_zcube(s.take(i), m, sd) + zcube(s[i], m, sd),
        sum_zquart(s.take(i + 1), m, sd) == sum_zquart(s.take(i), m, sd) + zquart(s[i], m, sd),
{
    assert(s.take(i + 1).drop_last() =~= s.take(i));
    assert(s.take(i + 1).last() == s[i]);
}

/// Bounds on the summed standardized powers.
pub proof fn lemma_sum_z_bounds(s: Seq<i64>, m: int, sd: int)
    requires
        sd > 0,
    ensures
        -(s.len() * 10_000_000_000_000_0000int) <= sum_zcube(s, m, sd) <= s.len()
            * 10_000_000_000_000_0000int,
        0 <= sum_zquart(s, m, sd) <= s.len() * 100_000_000_000_000_000_000int,
    decreases s.len(),
{
    if s.len() > 0 {
        lemma_sum_z_bounds(s.drop_last(), m, sd);
        lemma_z_bounds(s.last(), m, sd);
        assert((s.len() - 1) * 10_000_000_000_000_0000int + 10_000_000_000_000_0000int == s.len()
            * 10_000_000_000_000_0000int) by (nonlinear_arith);
        assert((s.len() - 1) * 100_000_000_000_000_000_000int + 100_000_000_000_000_000_000int
            == s.len() * 100_000_000_000_000_000_000int) by (nonlinear_arith);
    }
}

/// Mirror of adjusted Fisher-Pearson skewness about a supplied mean and
/// deviation, saturated into the returnable range; zero below three points or
/// when the deviation is zero.
pub open spec fn skewness_about_fx(s: Seq<i64>, m: int, sd: int) -> int {
    if s.len() < 3 || sd == 0 {
        0
    } else {
        tclamp(
            tdiv(s.len() * sum_zcube(s, m, sd), (s.len() - 1) * (s.len() - 2)),
            -SAT_BOUND as int,
            SAT_BOUND as int,
        )
    }
}

/// Mirror of bias-corrected excess kurtosis about a supplied mean and
/// deviation, saturated into the returnable range; zero below four points or
/// when the deviation is zero.
pub open spec fn kurtosis_about_fx(s: Seq<i64>, m: int, sd: int) -> int {
    if s.len() < 4 || sd == 0 {
        0
    } else {
        let main = tdiv(
            s.len() * (s.len() + 1) * sum_zquart(s, m, sd),
            (s.len() - 1) * (s.len() - 2) * (s.len() - 3),
        );
        let adj = tdiv(3 * (s.len() - 1) * (s.len() - 1) * SCALE, (s.len() - 2) * (s.len() - 3));
        tclamp(main - adj, -SAT_BOUND as int, SAT_BOUND as int)
    }
}

/// One standardized value and its powers, computed executably.
fn z_powers(x: i64, m: i64, sd: i64) -> (r: (i64, i64))
    requires
        fx_ok(x as int),
        fx_ok(m as int),
        sd > 0,
    ensures
        r.0 as int == zval(x, m as int, sd as int),
        r.1 as int == zsq(x, m as int, sd as int),
        -(Z_BOUND as int) <= r.0 <= Z_BOUND as int,
        0 <= r.1 <= 1_000_000_000_000i64,
{
    let d: i64 = x - m;
    let zr: i64 = divt64(d * SCALE, sd);
    let z: i64 = clamp64(zr, -Z_BOUND, Z_BOUND);
    proof {
        lemma_z_bounds(x, m as int, sd as int);
        assert(z * z <= 10_000_000_000_000_000i64) by (nonlinear_arith)
            requires -100_000_000 <= z <= 100_000_000,
        ;
        assert(z * z >= 0) by (nonlinear_arith);
    }
    let z2: i64 = divt64(z * z, SCALE);
    (z, z2)
}

/// Skewness (asymmetry) of a data set about a supplied mean and standard
/// deviation; zero below three points or for zero deviation.
pub fn calculate_skewness(data: &Vec<i64>, mean: i64, std_dev: i64) -> (r: i64)
    requires
        vals_ok(data@),
        fx_ok(mean as int),
        std_dev >= 0,
    ensures
        r == skewness_about_fx(data@, mean as int, std_dev as int),
{
    let n: usize = data.len();
    if n < 3 || std_dev == 0 {
        return 0;
    }
    let mut acc: i128 = 0;
    let mut i: usize = 0;
    proof {
        assert(data@.take(0) =~= Seq::<i64>::empty());
    }
    while i < n
        invariant
            n == data@.len(),
            3 <= n <= LEN_BOUND,
            vals_ok(data@),
            fx_ok(mean as int),
            std_dev > 0,
            0 <= i <= n,
            acc == sum_zcube(data@.take(i as int), mean as int, std_dev as int),
            -(i as int) * 10_000_000_000_000_0000int <= acc as int <= (i as int)
                * 10_000_000_000_000_0000int,
        decreases n - i,
    {
        proof {
            assert(fx_ok(data@[i as int] as int));
            lemma_z_bounds(data@[i as int], mean as int, std_dev as int);
            lemma_sum_z_take(data@, mean as int, std_dev as int, i as int);
            assert((i as int) * 10_000_000_000_000_0000int + 10_000_000_000_000_0000int == ((i
                + 1) as int) * 10_000_000_000_000_0000int) by (nonlinear_arith);
            assert(((i + 1) as int) * 10_000_000_000_000_0000int <= (LEN_BOUND as int)
                * 10_000_000_000_000_0000int) by (nonlinear_arith)
                requires (i + 1) as int <= LEN_BOUND as int,
            ;
        }
        let x: i64 = data[i];
        let zz = z_powers(x, mean, std_dev);
        proof {
            assert((zz.1 as int) * (zz.0 as int) <= 1_000_000_000_000int * 100_000_000int)
                by (nonlinear_arith)
                requires
                    0 <= zz.1 as int <= 1_000_000_000_000int && -100_000_000 <= zz.0 as int
                        <= 100_000_000,
            ;
            assert((zz.1 as int) * (zz.0 as int) >= -(1_000_000_000_000int * 100_000_000int))
                by (nonlinear_arith)
                requires
                    0 <= zz.1 as int <= 1_000_000_000_000int && -100_000_000 <= zz.0 as int
                        <= 100_000_000,
            ;
            lemma_tdiv_bracket_gen(
                (zz.1 as int) * (zz.0 as int),
                SCALE as int,
                -10_000_000_000_000_0000int,
                10_000_000_000_000_0000int,
            );
        }
        let zc: i128 = divt128((zz.1 as i128) * (zz.0 as i128), SCALE as i128);
        acc = acc + zc;
        i = i + 1;
    }
    proof {
        assert(data@.take(n as int) =~= data@);
        assert((n as int) * (acc as int) <= (LEN_BOUND as int) * ((LEN_BOUND as int)
            * 10_000_000_000_000_0000int)) by (nonlinear_arith)
            requires
                0 < n as int <= LEN_BOUND as int,
                acc as int <= (n as int) * 10_000_000_000_000_0000int,
        ;
        assert((n as int) * (acc as int) >= -((LEN_BOUND as int) * ((LEN_BOUND as int)
            * 10_000_000_000_000_0000int))) by (nonlinear_arith)
            requires
                0 < n as int <= LEN_BOUND as int,
                acc as int >= -((n as int) * 10_000_000_000_000_0000int),
        ;
        assert(((n - 1) as int) * ((n - 2) as int) >= 1) by (nonlinear_arith)
            requires n as int >= 3,
        ;
        assert(((n - 1) as int) * ((n - 2) as int) <= 100_000_000int) by (nonlinear_arith)
            requires 3 <= n as int <= 10000,
        ;
    }
    let num: i128 = (n as i128) * acc;
    let den: i128 = ((n - 1) as i128) * ((n - 2) as i128);
    let q: i128 = divt128(num, den);
    sat64(q)
}

/// Kurtosis (tail weight, excess and bias-corrected) of a data set about a
/// supplied mean and standard deviation; zero below four points or for zero
/// deviation.
pub fn calculate_kurtosis(data: &Vec<i64>, mean: i64, std_dev: i64) -> (r: i64)
    requires
        vals_ok(data@),
        fx_ok(mean as int),
        std_dev >= 0,
    ensures
        r == kurtosis_about_fx(data@, mean as int, std_dev as int),
{
    let n: usize = data.len();
    if n < 4 || std_dev == 0 {
        return 0;
    }
    let mut acc: i128 = 0;
    let mut i: usize = 0;
    proof {
        assert(data@.take(0) =~= Seq::<i64>::empty());
    }
    while i < n
        invariant
            n == data@.len(),
            4 <= n <= LEN_BOUND,
            vals_ok(data@),
            fx_ok(mean as int),
            std_dev > 0,
            0 <= i <= n,
            acc == sum_zquart(data@.take(i as int), mean as int, std_dev as int),
            0 <= acc as int <= (i as int) * 100_000_000_000_000_000_000int,
        decreases n - i,
    {
        proof {
            assert(fx_ok(data@[i as int] as int));
            lemma_z_bounds(data@[i as int], mean as int, std_dev as int);
            lemma_sum_z_take(data@, mean as int, std_dev as int, i as int);
            assert((i as int) * 100_000_000_000_000_000_000int + 100_000_000_000_000_000_000int
                == ((i + 1) as int) * 100_000_000_000_000_000_000int) by (nonlinear_arith);
            assert(((i + 1) as int) * 100_000_000_000_000_000_000int <= (LEN_BOUND as int)
                * 100_000_000_000_000_000_000int) by (nonlinear_arith)
                requires (i + 1) as int <= LEN_BOUND as int,
            ;
        }
        let x: i64 = data[i];
        let zz = z_powers(x, mean, std_dev);
        proof {
            assert(0 <= (zz.1 as int) * (zz.1 as int) <= 1_000_000_000_000int
                * 1_000_000_000_000int) by (nonlinear_arith)
                requires 0 <= zz.1 as int <= 1_000_000_000_000int,
            ;
            lemma_tdiv_bracket_gen(
                (zz.1 as int) * (zz.1 as int),
                SCALE as int,
                0,
                100_000_000_000_000_000_000int,
            );
        }
        let zq: i128 = divt128((zz.1 as i128) * (zz.1 as i128), SCALE as i128);
        acc = acc + zq;
        i = i + 1;
    }
    proof {
        assert(data@.take(n as int) =~= data@);
        assert((n as int) * ((n + 1) as int) <= 100_020_000int) by (nonlinear_arith)
            requires 4 <= n as int <= 10000,
        ;
        assert(0 <= (n as int) * ((n + 1) as int) * (acc as int) <= 100_020_000int
            * ((LEN_BOUND as int) * 100_000_000_000_000_000_000int)) by (nonlinear_arith)
            requires
                0 <= acc as int <= (LEN_BOUND as int) * 100_000_000_000_000_000_000int,
                4 <= n as int,
                (n as int) * ((n + 1) as int) <= 100_020_000int,
        ;
        assert(1 <= ((n - 1) as int) * ((n - 2) as int) <= 100_000_000int) by (nonlinear_arith)
            requires 4 <= n as int <= 10000,
        ;
        assert(1 <= ((n - 1) as int) * ((n - 2) as int) * ((n - 3) as int)
            <= 1_000_000_000_000int) by (nonlinear_arith)
            requires 4 <= n as int <= 10000,
        ;
        assert(0 <= 3 * ((n - 1) as int) * ((n - 1) as int) <= 300_000_000int)
            by (nonlinear_arith)
            requires 4 <= n as int <= 10000,
        ;
        assert(1 <= ((n - 2) as int) * ((n - 3) as int) <= 100_000_000int) by (nonlinear_arith)
            requires 4 <= n as int <= 10000,
        ;
        assert(0 <= 3 * ((n - 1) as int) * ((n - 1) as int) * SCALE <= 3_000_000_000_000int)
            by (nonlinear_arith)
            requires 4 <= n as int <= 10000 && SCALE as int == 10000,
        ;
        lemma_tdiv_nonneg(
            (n as int) * ((n + 1) as int) * (acc as int),
            ((n - 1) as int) * ((n - 2) as int) * ((n - 3) as int),
        );
        lemma_tdiv_nonneg(
            3 * ((n - 1) as int) * ((n - 1) as int) * SCALE,
            ((n - 2) as int) * ((n - 3) as int),
        );
        lemma_tdiv_abs(
            3 * ((n - 1) as int) * ((n - 1) as int) * SCALE,
            ((n - 2) as int) * ((n - 3) as int),
        );
    }
    let num: i128 = (n as i128) * ((n + 1) as i128) * acc;
    let den: i128 = ((n - 1) as i128) * ((n - 2) as i128) * ((n - 3) as i128);
    let main: i128 = divt128(num, den);
    let adj_num: i128 = 3 * ((n - 1) as i128) * ((n - 1) as i128) * (SCALE as i128);
    let adj_den: i128 = ((n - 2) as i128) * ((n - 3) as i128);
    let adj: i128 = divt128(adj_num, adj_den);
    proof {
        lemma_tdiv_abs(num as int, den as int);
    }
    sat64(main - adj)
}

/// Aggregated descriptive statistics of one numeric sequence. A value
/// object, recomputed wholesale by [`calculate_statistics`].
#[derive(Clone, Debug, PartialEq)]
pub struct Statistics {
    pub count: usize,
    pub sum: i64,
    pub mean: i64,
    pub median: i64,
    pub mode: Vec<i64>,
    pub min: i64,
    pub max: i64,
    pub range: i64,
    pub variance: i64,
    pub std_deviation: i64,
    pub percentile_25: i64,
    pub percentile_50: i64,
    pub percentile_75: i64,
    pub percentile_90: i64,
    pub iqr: i64,
    pub skewness: i64,
    pub kurtosis: i64,
}

/// Every field of a statistics record is pinned to its specification
/// mirror over the given sequence.
pub open spec fn stats_match(r: Statistics, s: Seq<i64>) -> bool {
    &&& r.count == s.len()
    &&& r.sum == sum_vals(s)
    &&& r.mean == mean_fx(s)
    &&& r.median == median_sorted_fx(sort_vals(s))
    &&& r.mode@ == mode_fx(s)
    &&& r.min == (if s.len() == 0 { 0int } else { sort_vals(s)[0] as int })
    &&& r.max == (if s.len() == 0 { 0int } else { sort_vals(s)[s.len() - 1] as int })
    &&& r.range == r.max - r.min
    &&& r.variance == variance_fx(s)
    &&& r.std_deviation == std_dev_fx(s)
    &&& r.percentile_25 == percentile_fx(s, 25 * SCALE as int)
    &&& r.percentile_50 == percentile_fx(s, 50 * SCALE as int)
    &&& r.percentile_75 == percentile_fx(s, 75 * SCALE as int)
    &&& r.percentile_90 == percentile_fx(s, 90 * SCALE as int)
    &&& r.iqr == r.percentile_75 - r.percentile_25
    &&& r.skewness == skewness_about_fx(s, mean_fx(s), std_dev_fx(s))
    &&& r.kurtosis == kurtosis_about_fx(s, mean_fx(s), std_dev_fx(s))
}

/// Comprehensive statistics for a data set. Every field is pinned to its
/// specification mirror; the empty sequence gives the all-zero summary.
pub fn calculate_statistics(data: &Vec<i64>) -> (r: Statistics)
    requires
        vals_ok(data@),
    ensures
        stats_match(r, data@),
        r.count == data@.len(),
        r.sum == sum_vals(data@),
        r.mean == mean_fx(data@),
        r.median == median_sorted_fx(sort_vals(data@)),
        r.mode@ == mode_fx(data@),
        r.min == (if data@.len() == 0 { 0int } else { sort_vals(data@)[0] as int }),
        r.max == (if data@.len() == 0 { 0int } else {
            sort_vals(data@)[data@.len() - 1] as int
        }),
        r.range == r.max - r.min,
        r.variance == variance_fx(data@),
        r.std_deviation == std_dev_fx(data@),
        r.percentile_25 == percentile_fx(data@, 25 * SCALE as int),
        r.percentile_50 == percentile_fx(data@, 50 * SCALE as int),
        r.percentile_75 == percentile_fx(data@, 75 * SCALE as int),
        r.percentile_90 == percentile_fx(data@, 90 * SCALE as int),
        r.iqr == r.percentile_75 - r.percentile_25,
        r.skewness == skewness_about_fx(data@, mean_fx(data@), std_dev_fx(data@)),
        r.kurtosis == kurtosis_about_fx(data@, mean_fx(data@), std_dev_fx(data@)),
        fx_ok(r.mean as int),
        fx_ok(r.median as int),
        fx_ok(r.min as int),
        fx_ok(r.max as int),
        fx_ok(r.percentile_25 as int),
        fx_ok(r.percentile_50 as int),
        fx_ok(r.percentile_75 as int),
        fx_ok(r.percentile_90 as int),
        r.std_deviation >= 0,
{
    let n: usize = data.len();
    if n == 0 {
        let mode: Vec<i64> = Vec::new();
        proof {
            assert(mode@ =~= mode_fx(data@));
            assert(sort_vals(data@) =~= Seq::<i64>::empty());
            lemma_sqrt_exists(0);
            lemma_sqrt_unique(0, 0, sqrt_floor(0));
        }
        return Statistics {
            count: 0,
            sum: 0,
            mean: 0,
            median: 0,
            mode,
            min: 0,
            max: 0,
            range: 0,
            variance: 0,
            std_deviation: 0,
            percentile_25: 0,
            percentile_50: 0,
            percentile_75: 0,
            percentile_90: 0,
            iqr: 0,
            skewness: 0,
            kurtosis: 0,
        };
    }
    let mut acc: i64 = 0;
    let mut i: usize = 0;
    proof {
        assert(data@.take(0) =~= Seq::<i64>::empty());
    }
    while i < n
        invariant
            n == data@.len(),
            vals_ok(data@),
            0 <= i <= n,
            acc == sum_vals(data@.take(i as int)),
            -(i as int) * (VAL_BOUND as int) <= acc as int <= (i as int) * (VAL_BOUND as int),
        decreases n - i,
    {
        proof {
            lemma_sum_vals_take(data@, i as int);
            assert(fx_ok(data@[i as int] as int));
            assert((i as int) * (VAL_BOUND as int) + VAL_BOUND == ((i + 1) as int)
                * (VAL_BOUND as int)) by (nonlinear_arith);
        }
        acc = acc + data[i];
        i = i + 1;
    }
    proof {
        assert(data@.take(n as int) =~= data@);
    }
    let sum: i64 = acc;
    let mean: i64 = calculate_mean(data);
    let t: Vec<i64> = sorted_copy(data);
    proof {
        lemma_sort_vals_props(data@);
        lemma_sort_vals_fx_ok(data@);
    }
    let median: i64 = calculate_median(&t);
    let mode: Vec<i64> = calculate_mode(data);
    let min: i64 = t[0];
    let max: i64 = t[n - 1];
    proof {
        assert(fx_ok(t@[0] as int));
        assert(fx_ok(t@[n as int - 1] as int));
    }
    let range: i64 = max - min;
    let variance: i64 = calculate_variance(data, mean);
    let std_deviation: i64 = fx_sqrt(variance);
    let percentile_25: i64 = percentile_of_sorted(&t, 25 * SCALE);
    let percentile_50: i64 = percentile_of_sorted(&t, 50 * SCALE);
    let percentile_75: i64 = percentile_of_sorted(&t, 75 * SCALE);
    let percentile_90: i64 = percentile_of_sorted(&t, 90 * SCALE);
    let iqr: i64 = percentile_75 - percentile_25;
    let skewness: i64 = calculate_skewness(data, mean, std_deviation);
    let kurtosis: i64 = calculate_kurtosis(data, mean, std_deviation);
    Statistics {
        count: n,
        sum,
        mean,
        median,
        mode,
        min,
        max,
        range,
        variance,
        std_deviation,
        percentile_25,
        percentile_50,
        percentile_75,
        percentile_90,
        iqr,
        skewness,
        kurtosis,
    }
}

/// The outlier fences of the interquartile-range rule.
pub open spec fn outlier_lower_fx(s: Seq<i64>) -> int {
    percentile_fx(s, 25 * SCALE as int) - tdiv(
        3 * (percentile_fx(s, 75 * SCALE as int) - percentile_fx(s, 25 * SCALE as int)),
        2,
    )
}

/// The upper outlier fence of the interquartile-range rule.
pub open spec fn outlier_upper_fx(s: Seq<i64>) -> int {
    percentile_fx(s, 75 * SCALE as int) + tdiv(
        3 * (percentile_fx(s, 75 * SCALE as int) - percentile_fx(s, 25 * SCALE as int)),
        2,
    )
}

/// Index-value pairs of elements outside `[lo, hi]`, in order of appearance.
pub open spec fn outlier_pairs(s: Seq<i64>, lo: int, hi: int) -> Seq<(usize, i64)>
    decreases s.len(),
{
    if s.len() == 0 {
        Seq::empty()
    } else {
        let rest = outlier_pairs(s.drop_last(), lo, hi);
        if s.last() < lo || s.last() > hi {
            rest.push(((s.len() - 1) as usize, s.last()))
        } else {
            rest
        }
    }
}

/// Peeling one element off a prefix of the outlier list.
pub proof fn lemma_outlier_pairs_take(s: Seq<i64>, lo: int, hi: int, i: int)
    requires
        0 <= i < s.len(),
    ensures
        outlier_pairs(s.take(i + 1), lo, hi) == (if s[i] < lo || s[i] > hi {
            outlier_pairs(s.take(i), lo, hi).push((i as usize, s[i]))
        } else {
            outlier_pairs(s.take(i), lo, hi)
        }),
{
    assert(s.take(i + 1).drop_last() =~= s.take(i));
    assert(s.take(i + 1).last() == s[i]);
}

/// Mirror of outlier detection: elements outside the interquartile fences,
/// with their original indices; empty below four points.
pub open spec fn outliers_fx(s: Seq<i64>) -> Seq<(usize, i64)> {
    if s.len() < 4 {
        Seq::empty()
    } else {
        outlier_pairs(s, outlier_lower_fx(s), outlier_upper_fx(s))
    }
}

/// Detect outliers by the interquartile-range rule: values beyond 1.5 IQR
/// below the 25th or above the 75th percentile, with their indices.
pub fn detect_outliers(data: &Vec<i64>) -> (r: Vec<(usize, i64)>)
    requires
        vals_ok(data@),
    ensures
        r@ == outliers_fx(data@),
{
    let n: usize = data.len();
    let mut r: Vec<(usize, i64)> = Vec::new();
    if n < 4 {
        proof {
            assert(r@ =~= outliers_fx(data@));
        }
        return r;
    }
    let t: Vec<i64> = sorted_copy(data);
    proof {
        lemma_sort_vals_props(data@);
        lemma_sort_vals_fx_ok(data@);
    }
    let p25: i64 = percentile_of_sorted(&t, 25 * SCALE);
    let p75: i64 = percentile_of_sorted(&t, 75 * SCALE);
    let iqr: i64 = p75 - p25;
    let margin: i64 = divt64(3 * iqr, 2);
    proof {
        lemma_tdiv_abs(3 * iqr as int, 2);
    }
    let lower: i64 = p25 - margin;
    let upper: i64 = p75 + margin;
    let mut i: usize = 0;
    proof {
        assert(data@.take(0) =~= Seq::<i64>::empty());
        assert(r@ =~= outlier_pairs(data@.take(0), lower as int, upper as int));
    }
    while i < n
        invariant
            n == data@.len(),
            vals_ok(data@),
            0 <= i <= n,
            lower as int == outlier_lower_fx(data@),
            upper as int == outlier_upper_fx(data@),
            r@ == outlier_pairs(data@.take(i as int), lower as int, upper as int),
        decreases n - i,
    {
        proof {
            lemma_outlier_pairs_take(data@, lower as int, upper as int, i as int);
        }
        let v: i64 = data[i];
        if v < lower || v > upper {
            r.push((i, v));
        }
        i = i + 1;
    }
    proof {
        assert(data@.take(n as int) =~= data@);
    }
    r
}

} // verus!
