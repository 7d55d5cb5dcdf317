//! Smoothing and correlation utilities: moving averages, exponential
//! smoothing, Pearson correlation, relative variability, z-scores, rank
//! percentile, histogram bucketing and autocorrelation.

use vstd::prelude::*;
use crate::fx::{
    SCALE, VAL_BOUND, LEN_BOUND, fx_ok, vals_ok, tdiv, tclamp, sqrt_floor, is_sqrt,
    lemma_sqrt_exists, lemma_sqrt_unique, lemma_tdiv_nonneg, lemma_tdiv_abs, lemma_tdiv_mono,
    lemma_tdiv_bracket_gen, divt64, divt128, clamp64, isqrt128,
};
use crate::seqs::{sum_vals, lemma_sum_vals_take, lemma_sum_vals_bound};
use crate::stats::{mean_fx, variance_fx, std_dev_fx, sum_sq_dev, lemma_sum_sq_dev_take,
    lemma_sum_sq_dev_bounds, lemma_mean_fx_ok, lemma_variance_about_bounds, calculate_mean,
    calculate_variance, calculate_std_deviation};

verus! {

/// Sum of products of deviations of two equal-length sequences about their
/// means.
pub open spec fn sum_prod_dev(a: Seq<i64>, b: Seq<i64>, ma: int, mb: int) -> int
    decreases a.len(),
{
    if a.len() == 0 || b.len() == 0 {
        0
    } else {
        sum_prod_dev(a.drop_last(), b.drop_last(), ma, mb) + (a.last() - ma) * (b.last() - mb)
    }
}

/// Peeling one element off a prefix of the deviation-product sum.
pub proof fn lemma_sum_prod_dev_take(a: Seq<i64>, b: Seq<i64>, ma: int, mb: int, i: int)
    requires
        0 <= i < a.len(),
        0 <= i < b.len(),
    ensures
        sum_prod_dev(a.take(i + 1), b.take(i + 1), ma, mb) == sum_prod_dev(
            a.take(i),
            b.take(i),
            ma,
            mb,
        ) + (a[i] - ma) * (b[i] - mb),
{
    assert(a.take(i + 1).drop_last() =~= a.take(i));
    assert(b.take(i + 1).drop_last() =~= b.take(i));
    assert(a.take(i + 1).last() == a[i]);
    assert(b.take(i + 1).last() == b[i]);
}

/// The deviation-product sum of in-range data is bounded by
/// `len * (2 VAL_BOUND)^2`.
pub proof fn lemma_sum_prod_dev_bound(a: Seq<i64>, b: Seq<i64>, ma: int, mb: int)
    requires
        a.len() == b.len(),
        forall|i: int| 0 <= i < a.len() ==> #[trigger] fx_ok(a[i] as int),
        forall|i: int| 0 <= i < b.len() ==> #[trigger] fx_ok(b[i] as int),
        fx_ok(ma),
        fx_ok(mb),
    ensures
        -(a.len() * ((2 * VAL_BOUND as int) * (2 * VAL_BOUND as int))) <= sum_prod_dev(
            a,
            b,
            ma,
            mb,
        ) <= a.len() * ((2 * VAL_BOUND as int) * (2 * VAL_BOUND as int)),
    decreases a.len(),
{
    let bb = (2 * VAL_BOUND as int) * (2 * VAL_BOUND as int);
    if a.len() == 0 {
    } else {
        assert(forall|i: int| 0 <= i < a.drop_last().len() ==> #[trigger] fx_ok(
            a.drop_last()[i] as int,
        ));
        assert(forall|i: int| 0 <= i < b.drop_last().len() ==> #[trigger] fx_ok(
            b.drop_last()[i] as int,
        ));
        lemma_sum_prod_dev_bound(a.drop_last(), b.drop_last(), ma, mb);
        assert(fx_ok(a[a.len() - 1] as int));
        assert(fx_ok(b[b.len() - 1] as int));
        let da = a.last() - ma;
        let db = b.last() - mb;
        assert(-bb <= da * db <= bb) by (nonlinear_arith)
            requires
                -2 * VAL_BOUND as int <= da <= 2 * VAL_BOUND as int,
                -2 * VAL_BOUND as int <= db <= 2 * VAL_BOUND as int,
                bb == (2 * VAL_BOUND as int) * (2 * VAL_BOUND as int),
        ;
        assert((a.len() - 1) * bb + bb == a.len() * bb) by (nonlinear_arith);
    }
}

/// Mirror of the Pearson correlation coefficient: the deviation-product sum
/// over the square root of the product of squared-deviation sums, clamped to
/// the mathematical range `[-1, 1]`; zero for mismatched lengths, fewer than
/// two points, or a zero denominator.
pub open spec fn correlation_fx(a: Seq<i64>, b: Seq<i64>) -> int {
    if a.len() != b.len() || a.len() < 2 {
        0
    } else {
        let ma = mean_fx(a);
        let mb = mean_fx(b);
        let sp = sum_prod_dev(a, b, ma, mb);
        let denom = sqrt_floor(sum_sq_dev(a, ma) * sum_sq_dev(b, mb));
        if denom == 0 {
            0
        } else {
            tclamp(tdiv(sp * SCALE, denom), -SCALE as int, SCALE as int)
        }
    }
}

/// Pearson correlation coefficient between two equal-length data sets.
pub fn calculate_correlation(data1: &Vec<i64>, data2: &Vec<i64>) -> (r: i64)
    requires
        vals_ok(data1@),
        vals_ok(data2@),
    ensures
        r == correlation_fx(data1@, data2@),
        -SCALE <= r <= SCALE,
{
    let n: usize = data1.len();
    if n != data2.len() || n < 2 {
        return 0;
    }
    let m1: i64 = calculate_mean(data1);
    let m2: i64 = calculate_mean(data2);
    let ghost bb = (2 * VAL_BOUND as int) * (2 * VAL_BOUND as int);
    let mut sp: i128 = 0;
    let mut ss1: i128 = 0;
    let mut ss2: i128 = 0;
    let mut i: usize = 0;
    proof {
        assert(data1@.take(0) =~= Seq::<i64>::empty());
        assert(data2@.take(0) =~= Seq::<i64>::empty());
    }
    while i < n
        invariant
            n == data1@.len(),
            n == data2@.len(),
            2 <= n <= LEN_BOUND,
            vals_ok(data1@),
            vals_ok(data2@),
            fx_ok(m1 as int),
            fx_ok(m2 as int),
            m1 as int == mean_fx(data1@),
            m2 as int == mean_fx(data2@),
            bb == (2 * VAL_BOUND as int) * (2 * VAL_BOUND as int),
            0 <= i <= n,
            sp == sum_prod_dev(data1@.take(i as int), data2@.take(i as int), m1 as int, m2 as int),
            ss1 == sum_sq_dev(data1@.take(i as int), m1 as int),
            ss2 == sum_sq_dev(data2@.take(i as int), m2 as int),
            -((i as int) * bb) <= sp as int <= (i as int) * bb,
            0 <= ss1 as int <= (i as int) * bb,
            0 <= ss2 as int <= (i as int) * bb,
        decreases n - i,
    {
        proof {
            assert(fx_ok(data1@[i as int] as int));
            assert(fx_ok(data2@[i as int] as int));
            lemma_sum_prod_dev_take(data1@, data2@, m1 as int, m2 as int, i as int);
            lemma_sum_sq_dev_take(data1@, m1 as int, i as int);
            lemma_sum_sq_dev_take(data2@, m2 as int, i as int);
        }
        let d1: i64 = data1[i] - m1;
        let d2: i64 = data2[i] - m2;
        proof {
            assert(-bb <= (d1 as int) * (d2 as int) <= bb) by (nonlinear_arith)
                requires
                    -2 * VAL_BOUND as int <= d1 as int <= 2 * VAL_BOUND as int,
                    -2 * VAL_BOUND as int <= d2 as int <= 2 * VAL_BOUND as int,
                    bb == (2 * VAL_BOUND as int) * (2 * VAL_BOUND as int),
            ;
            assert(0 <= (d1 as int) * (d1 as int) <= bb) by (nonlinear_arith)
                requires
                    -2 * VAL_BOUND as int <= d1 as int <= 2 * VAL_BOUND as int,
                    bb == (2 * VAL_BOUND as int) * (2 * VAL_BOUND as int),
            ;
            assert(0 <= (d2 as int) * (d2 as int) <= bb) by (nonlinear_arith)
                requires
                    -2 * VAL_BOUND as int <= d2 as int <= 2 * VAL_BOUND as int,
                    bb == (2 * VAL_BOUND as int) * (2 * VAL_BOUND as int),
            ;
            assert((i as int) * bb + bb == ((i + 1) as int) * bb) by (nonlinear_arith);
            assert(((i + 1) as int) * bb <= (LEN_BOUND as int) * bb) by (nonlinear_arith)
                requires (i + 1) as int <= LEN_BOUND as int && bb >= 0,
            ;
            assert((LEN_BOUND as int) * bb == 4_000_000_000_000_000_000int) by (nonlinear_arith)
                requires
                    bb == (2 * VAL_BOUND as int) * (2 * VAL_BOUND as int),
                    VAL_BOUND as int == 10_000_000,
                    LEN_BOUND as int == 10000,
            ;
        }
        sp = sp + (d1 as i128) * (d2 as i128);
        ss1 = ss1 + (d1 as i128) * (d1 as i128);
        ss2 = ss2 + (d2 as i128) * (d2 as i128);
        i = i + 1;
    }
    proof {
        assert(data1@.take(n as int) =~= data1@);
        assert(data2@.take(n as int) =~= data2@);
        assert((LEN_BOUND as int) * bb == 4_000_000_000_000_000_000int) by (nonlinear_arith)
            requires
                bb == (2 * VAL_BOUND as int) * (2 * VAL_BOUND as int),
                VAL_BOUND as int == 10_000_000,
                LEN_BOUND as int == 10000,
        ;
        assert((n as int) * bb <= (LEN_BOUND as int) * bb) by (nonlinear_arith)
            requires n as int <= LEN_BOUND as int && bb >= 0,
        ;
        assert(0 <= (ss1 as int) * (ss2 as int) <= 4_000_000_000_000_000_000int
            * 4_000_000_000_000_000_000int) by (nonlinear_arith)
            requires
                0 <= ss1 as int <= 4_000_000_000_000_000_000int,
                0 <= ss2 as int <= 4_000_000_000_000_000_000int,
        ;
    }
    let prod: u128 = (ss1 as u128) * (ss2 as u128);
    let denom_u: u128 = isqrt128(prod);
    proof {
        assert((denom_u as int) * (denom_u as int) <= (ss1 as int) * (ss2 as int));
        assert(denom_u as int <= 4_000_000_000_000_000_000int) by (nonlinear_arith)
            requires
                (denom_u as int) * (denom_u as int) <= 4_000_000_000_000_000_000int
                    * 4_000_000_000_000_000_000int,
                denom_u as int >= 0,
        ;
    }
    let denom: i128 = denom_u as i128;
    if denom == 0 {
        return 0;
    }
    proof {
        assert(-(4_000_000_000_000_000_000int * SCALE as int) <= (sp as int) * (SCALE as int)
            <= 4_000_000_000_000_000_000int * SCALE as int) by (nonlinear_arith)
            requires -4_000_000_000_000_000_000int <= sp as int <= 4_000_000_000_000_000_000int
                && SCALE as int == 10000,
        ;
    }
    let q: i128 = divt128(sp * (SCALE as i128), denom);
    if q < -(SCALE as i128) {
        -SCALE
    } else if q > SCALE as i128 {
        SCALE
    } else {
        q as i64
    }
}

/// One trailing-window average used by the moving average: the window ends
/// at `i` and shrinks near the start of the sequence.
pub open spec fn window_avg_fx(s: Seq<i64>, w: int, i: int) -> i64 {
    let start = if i >= w - 1 {
        i - w + 1
    } else {
        0
    };
    tdiv(sum_vals(s.subrange(start, i + 1)), i + 1 - start) as i64
}

/// Mirror of the moving average: each point averages the trailing window
/// ending there, with the window clamped to the sequence length and
/// shrinking at the start; empty for empty input or zero window.
pub open spec fn moving_average_fx(s: Seq<i64>, w: int) -> Seq<i64> {
    if s.len() == 0 || w <= 0 {
        Seq::empty()
    } else {
        let ws = if w > s.len() {
            s.len() as int
        } else {
            w
        };
        Seq::new(s.len(), |i: int| window_avg_fx(s, ws, i))
    }
}

/// Moving average with the given window size (clamped to the data length);
/// empty for empty data or a zero window.
pub fn calculate_moving_average(data: &Vec<i64>, window_size: usize) -> (r: Vec<i64>)
    requires
        vals_ok(data@),
    ensures
        r@ == moving_average_fx(data@, window_size as int),
        forall|j: int| 0 <= j < r@.len() ==> #[trigger] fx_ok(r@[j] as int),
{
    let n: usize = data.len();
    let mut r: Vec<i64> = Vec::new();
    if n == 0 || window_size == 0 {
        proof {
            assert(r@ =~= moving_average_fx(data@, window_size as int));
        }
        return r;
    }
    let ws: usize = if window_size > n {
        n
    } else {
        window_size
    };
    let mut i: usize = 0;
    while i < n
        invariant
            n == data@.len(),
            vals_ok(data@),
            1 <= ws <= n,
            ws as int == (if window_size as int > data@.len() {
                data@.len() as int
            } else {
                window_size as int
            }),
            0 <= i <= n,
            r@.len() == i,
            forall|j: int| 0 <= j < i ==> #[trigger] r@[j] == window_avg_fx(
                data@,
                ws as int,
                j,
            ),
            forall|j: int| 0 <= j < i ==> #[trigger] fx_ok(r@[j] as int),
        decreases n - i,
    {
        let start: usize = if i >= ws - 1 {
            i + 1 - ws
        } else {
            0
        };
        let cnt: usize = i + 1 - start;
        let mut acc: i64 = 0;
        let mut j: usize = 0;
        proof {
            assert(data@.subrange(start as int, start as int) =~= Seq::<i64>::empty());
        }
        while j < cnt
            invariant
                n == data@.len(),
                vals_ok(data@),
                0 <= start as int,
                start as int + cnt as int <= n,
                cnt >= 1,
                0 <= j <= cnt,
                acc == sum_vals(data@.subrange(start as int, start as int + j as int)),
                -(j as int) * (VAL_BOUND as int) <= acc as int <= (j as int) * (VAL_BOUND as int),
            decreases cnt - j,
        {
            proof {
                let sub1 = data@.subrange(start as int, start as int + j as int + 1);
                assert(sub1.drop_last() =~= data@.subrange(start as int, start as int + j as int));
                assert(sub1.last() == data@[start as int + j as int]);
                assert(fx_ok(data@[start as int + j as int] as int));
                assert((j as int) * (VAL_BOUND as int) + VAL_BOUND == ((j + 1) as int)
                    * (VAL_BOUND as int)) by (nonlinear_arith);
            }
            acc = acc + data[start + j];
            j = j + 1;
        }
        proof {
            lemma_tdiv_bracket_gen(
                acc as int,
                cnt as int,
                -VAL_BOUND as int,
                VAL_BOUND as int,
            );
            assert(-(VAL_BOUND as int) * (cnt as int) <= acc as int) by (nonlinear_arith)
                requires
                    -(cnt as int) * (VAL_BOUND as int) <= acc as int,
            ;
        }
        let avg: i64 = divt64(acc, cnt as i64);
        r.push(avg);
        i = i + 1;
    }
    proof {
        assert(r@ =~= moving_average_fx(data@, window_size as int));
    }
    r
}

/// The smoothed sequence of the exponential moving average with clamped
/// factor `a` (fixed-point in `[0, SCALE]`): seeded with the first raw value,
/// then blending each raw value against the previous smoothed output.
pub open spec fn ema_rec(s: Seq<i64>, a: int) -> Seq<i64>
    decreases s.len(),
{
    if s.len() == 0 {
        Seq::empty()
    } else if s.len() == 1 {
        seq![s[0]]
    } else {
        let p = ema_rec(s.drop_last(), a);
        p.push(tdiv(a * s.last() + (SCALE - a) * p.last(), SCALE as int) as i64)
    }
}

/// Mirror of the exponential moving average with raw (unclamped) factor.
pub open spec fn ema_fx(s: Seq<i64>, alpha: int) -> Seq<i64> {
    ema_rec(s, tclamp(alpha, 0, SCALE as int))
}

/// Smoothed values stay within the fixed-point domain, and the sequence has
/// the input's length.
pub proof fn lemma_ema_rec_ok(s: Seq<i64>, a: int)
    requires
        0 <= a <= SCALE as int,
        forall|i: int| 0 <= i < s.len() ==> #[trigger] fx_ok(s[i] as int),
    ensures
        ema_rec(s, a).len() == s.len(),
        forall|i: int| 0 <= i < s.len() ==> #[trigger] fx_ok(ema_rec(s, a)[i] as int),
    decreases s.len(),
{
    if s.len() <= 1 {
    } else {
        assert(forall|i: int| 0 <= i < s.drop_last().len() ==> #[trigger] fx_ok(
            s.drop_last()[i] as int,
        ));
        lemma_ema_rec_ok(s.drop_last(), a);
        let p = ema_rec(s.drop_last(), a);
        let last = p.last();
        assert(fx_ok(p[p.len() - 1] as int));
        assert(fx_ok(s[s.len() - 1] as int));
        let num = a * s.last() + (SCALE - a) * last;
        assert(-(VAL_BOUND as int) * (SCALE as int) <= num <= (VAL_BOUND as int) * (SCALE as int))
            by (nonlinear_arith)
            requires
                0 <= a <= SCALE as int,
                -(VAL_BOUND as int) <= s.last() as int <= VAL_BOUND as int,
                -(VAL_BOUND as int) <= last as int <= VAL_BOUND as int,
                num == a * s.last() + (SCALE as int - a) * last,
        ;
        lemma_tdiv_bracket_gen(num, SCALE as int, -VAL_BOUND as int, VAL_BOUND as int);
        assert(forall|i: int| 0 <= i < p.len() ==> ema_rec(s, a)[i] == #[trigger] p[i]);
    }
}

/// Unfolding one step of the smoothed sequence over a growing prefix.
pub proof fn lemma_ema_rec_take(s: Seq<i64>, a: int, i: int)
    requires
        1 <= i < s.len(),
    ensures
        ema_rec(s.take(i + 1), a) == ema_rec(s.take(i), a).push(
            tdiv(
                a * s[i] + (SCALE - a) * ema_rec(s.take(i), a).last(),
                SCALE as int,
            ) as i64,
        ),
{
    assert(s.take(i + 1).drop_last() =~= s.take(i));
    assert(s.take(i + 1).last() == s[i]);
    assert(s.take(i + 1).len() == i + 1 >= 2);
}

/// Exponential moving average of a data set with smoothing factor `alpha`
/// (fixed-point, clamped to `[0, 1]`); empty for empty data.
pub fn calculate_ema(data: &Vec<i64>, alpha: i64) -> (r: Vec<i64>)
    requires
        vals_ok(data@),
    ensures
        r@ == ema_fx(data@, alpha as int),
        forall|j: int| 0 <= j < r@.len() ==> #[trigger] fx_ok(r@[j] as int),
{
    let n: usize = data.len();
    let mut r: Vec<i64> = Vec::new();
    if n == 0 {
        proof {
            assert(r@ =~= ema_fx(data@, alpha as int));
        }
        return r;
    }
    let a: i64 = clamp64(alpha, 0, SCALE);
    proof {
        assert(fx_ok(data@[0] as int));
        assert(forall|i: int| 0 <= i < data@.len() ==> #[trigger] fx_ok(data@[i] as int));
    }
    r.push(data[0]);
    let mut i: usize = 1;
    proof {
        assert(data@.take(1) =~= seq![data@[0]]);
        assert(r@ =~= ema_rec(data@.take(1), a as int));
        lemma_ema_rec_ok(data@.take(1), a as int);
    }
    while i < n
        invariant
            n == data@.len(),
            vals_ok(data@),
            0 <= a as int <= SCALE as int,
            a as int == tclamp(alpha as int, 0, SCALE as int),
            1 <= i <= n,
            r@ == ema_rec(data@.take(i as int), a as int),
            r@.len() == i,
            forall|j: int| 0 <= j < i ==> #[trigger] fx_ok(r@[j] as int),
        decreases n - i,
    {
        proof {
            lemma_ema_rec_take(data@, a as int, i as int);
            assert(fx_ok(data@[i as int] as int));
            assert(fx_ok(r@[i as int - 1] as int));
            let num = (a as int) * data@[i as int] + (SCALE as int - a as int) * r@[i as int - 1];
            assert(-(VAL_BOUND as int) * (SCALE as int) <= num <= (VAL_BOUND as int)
                * (SCALE as int)) by (nonlinear_arith)
                requires
                    0 <= a as int <= SCALE as int,
                    -(VAL_BOUND as int) <= data@[i as int] as int <= VAL_BOUND as int,
                    -(VAL_BOUND as int) <= r@[i as int - 1] as int <= VAL_BOUND as int,
                    num == (a as int) * data@[i as int] + (SCALE as int - a as int) * r@[i as int
                        - 1],
            ;
            lemma_tdiv_bracket_gen(num, SCALE as int, -VAL_BOUND as int, VAL_BOUND as int);
            assert(-(100_000_000_000int) <= (a as int) * data@[i as int]
                <= 100_000_000_000int) by (nonlinear_arith)
                requires
                    0 <= a as int <= 10000,
                    -10_000_000 <= data@[i as int] as int <= 10_000_000,
            ;
            assert(-(100_000_000_000int) <= (SCALE as int - a as int) * r@[i as int - 1]
                <= 100_000_000_000int) by (nonlinear_arith)
                requires
                    0 <= SCALE as int - a as int <= 10000,
                    -10_000_000 <= r@[i as int - 1] as int <= 10_000_000,
            ;
        }
        let prev: i64 = r[i - 1];
        let num: i64 = a * data[i] + (SCALE - a) * prev;
        let e: i64 = divt64(num, SCALE);
        r.push(e);
        i = i + 1;
    }
    proof {
        assert(data@.take(n as int) =~= data@);
    }
    r
}

/// Mirror of z-score normalization: each value's deviation from the mean in
/// units of the standard deviation; all zeros when the deviation is zero.
pub open spec fn z_scores_fx(s: Seq<i64>) -> Seq<i64> {
    let m = mean_fx(s);
    let sd = std_dev_fx(s);
    if sd == 0 {
        Seq::new(s.len(), |i: int| 0i64)
    } else {
        Seq::new(s.len(), |i: int| tdiv((s[i] - m) * SCALE, sd) as i64)
    }
}

/// Z-scores of a data set (deviations in units of standard deviation).
pub fn calculate_z_scores(data: &Vec<i64>) -> (r: Vec<i64>)
    requires
        vals_ok(data@),
    ensures
        r@ == z_scores_fx(data@),
{
    let n: usize = data.len();
    let mean: i64 = calculate_mean(data);
    let sd: i64 = calculate_std_deviation(data);
    let mut r: Vec<i64> = Vec::new();
    let mut i: usize = 0;
    if sd == 0 {
        while i < n
            invariant
                n == data@.len(),
                0 <= i <= n,
                r@.len() == i,
                forall|j: int| 0 <= j < i ==> #[trigger] r@[j] == 0i64,
            decreases n - i,
        {
            r.push(0);
            i = i + 1;
        }
        proof {
            assert(r@ =~= z_scores_fx(data@));
        }
        return r;
    }
    while i < n
        invariant
            n == data@.len(),
            vals_ok(data@),
            fx_ok(mean as int),
            mean as int == mean_fx(data@),
            sd as int == std_dev_fx(data@),
            sd > 0,
            0 <= i <= n,
            r@.len() == i,
            forall|j: int| 0 <= j < i ==> #[trigger] r@[j] as int == tdiv(
                (data@[j] - mean_fx(data@)) * SCALE,
                std_dev_fx(data@),
            ),
        decreases n - i,
    {
        proof {
            assert(fx_ok(data@[i as int] as int));
            lemma_tdiv_abs((data@[i as int] - mean as int) * SCALE, sd as int);
        }
        let d: i64 = data[i] - mean;
        let z: i64 = divt64(d * SCALE, sd);
        r.push(z);
        i = i + 1;
    }
    proof {
        assert(r@ =~= z_scores_fx(data@));
    }
    r
}

/// Mirror of the coefficient of variation: standard deviation relative to
/// the absolute mean, as a fixed-point percentage; zero for a zero mean.
pub open spec fn cv_fx(s: Seq<i64>) -> int {
    let m = mean_fx(s);
    if m == 0 {
        0
    } else {
        tdiv(std_dev_fx(s) * 100 * SCALE, if m >= 0 {
            m
        } else {
            -m
        })
    }
}

/// Coefficient of variation of a data set, as a fixed-point percentage.
pub fn calculate_cv(data: &Vec<i64>) -> (r: i64)
    requires
        vals_ok(data@),
    ensures
        r == cv_fx(data@),
        r >= 0,
{
    let mean: i64 = calculate_mean(data);
    if mean == 0 {
        return 0;
    }
    let sd: i64 = calculate_std_deviation(data);
    proof {
        lemma_mean_fx_ok(data@);
        lemma_variance_about_bounds(data@, mean_fx(data@));
        let v = variance_fx(data@);
        assert(v * SCALE <= 4 * VAL_BOUND as int * VAL_BOUND as int * SCALE) by (nonlinear_arith)
            requires 0 <= v <= 4 * VAL_BOUND as int * VAL_BOUND as int && SCALE as int == 10000,
        ;
        assert(is_sqrt(v * SCALE, sd as int));
        assert(sd as int <= 3_000_000_000int) by (nonlinear_arith)
            requires
                (sd as int) * (sd as int) <= v * SCALE,
                v * SCALE <= 4 * 10_000_000int * 10_000_000int * 10000,
                sd as int >= 0,
        ;
        lemma_tdiv_nonneg(sd as int * 100 * SCALE, if mean as int >= 0 {
            mean as int
        } else {
            -(mean as int)
        });
    }
    let m_abs: i64 = if mean >= 0 {
        mean
    } else {
        -mean
    };
    divt64(sd * 100 * SCALE, m_abs)
}

/// Count of elements strictly below `v`.
pub open spec fn count_below(s: Seq<i64>, v: i64) -> int
    decreases s.len(),
{
    if s.len() == 0 {
        0
    } else {
        count_below(s.drop_last(), v) + (if s.last() < v {
            1int
        } else {
            0int
        })
    }
}

/// Count of elements within a thousandth of a unit of `v`.
pub open spec fn count_near(s: Seq<i64>, v: i64) -> int
    decreases s.len(),
{
    if s.len() == 0 {
        0
    } else {
        count_near(s.drop_last(), v) + (if -10 < s.last() - v < 10 {
            1int
        } else {
            0int
        })
    }
}

/// Peeling one element off the prefix rank counts.
pub proof fn lemma_counts_take(s: Seq<i64>, v: i64, i: int)
    requires
        0 <= i < s.len(),
    ensures
        count_below(s.take(i + 1), v) == count_below(s.take(i), v) + (if s[i] < v {
            1int
        } else {
            0int
        }),
        count_near(s.take(i + 1), v) == count_near(s.take(i), v) + (if -10 < s[i] - v < 10 {
            1int
        } else {
            0int
        }),
{
    assert(s.take(i + 1).drop_last() =~= s.take(i));
    assert(s.take(i + 1).last() == s[i]);
}

/// The rank counts are bounded by the length.
pub proof fn lemma_counts_bounds(s: Seq<i64>, v: i64)
    ensures
        0 <= count_below(s, v) <= s.len(),
        0 <= count_near(s, v) <= s.len(),
    decreases s.len(),
{
    if s.len() > 0 {
        lemma_counts_bounds(s.drop_last(), v);
    }
}

/// Mirror of the value-rank percentile: elements strictly below plus half of
/// the elements tied with `v` (mid-rank), as a fixed-point percentage of the
/// count; zero for empty data.
pub open spec fn value_percentile_fx(s: Seq<i64>, v: i64) -> int {
    if s.len() == 0 {
        0
    } else {
        tdiv((2 * count_below(s, v) + count_near(s, v)) * 50 * SCALE, s.len() as int)
    }
}

/// Rank percentile of `value` within a data set (mid-rank convention for
/// ties within a thousandth of a unit).
pub fn calculate_value_percentile(data: &Vec<i64>, value: i64) -> (r: i64)
    requires
        vals_ok(data@),
        fx_ok(value as int),
    ensures
        r == value_percentile_fx(data@, value),
{
    let n: usize = data.len();
    if n == 0 {
        return 0;
    }
    let mut below: usize = 0;
    let mut near: usize = 0;
    let mut i: usize = 0;
    proof {
        assert(data@.take(0) =~= Seq::<i64>::empty());
    }
    while i < n
        invariant
            n == data@.len(),
            n <= LEN_BOUND,
            vals_ok(data@),
            fx_ok(value as int),
            0 <= i <= n,
            below as int == count_below(data@.take(i as int), value),
            near as int == count_near(data@.take(i as int), value),
            below <= i,
            near <= i,
        decreases n - i,
    {
        proof {
            lemma_counts_take(data@, value, i as int);
            assert(fx_ok(data@[i as int] as int));
        }
        let x: i64 = data[i];
        if x < value {
            below = below + 1;
        }
        let diff: i64 = x - value;
        if -10 < diff && diff < 10 {
            near = near + 1;
        }
        i = i + 1;
    }
    proof {
        assert(data@.take(n as int) =~= data@);
        lemma_tdiv_nonneg(
            (2 * below as int + near as int) * 50 * SCALE,
            n as int,
        );
        assert((2 * below as int + near as int) * 50 * SCALE as int
            <= 30000int * 50 * 10000) by (nonlinear_arith)
            requires 0 <= 2 * below as int + near as int <= 30000 && SCALE as int == 10000,
        ;
    }
    let num: i64 = (2 * (below as i64) + (near as i64)) * 50 * SCALE;
    divt64(num, n as i64)
}

/// Mirror of autocorrelation at a given lag: the lagged deviation products
/// over `(len - lag) * variance`; zero when the sequence is not longer than
/// the lag or the variance is zero.
pub open spec fn sum_lagged(s: Seq<i64>, m: int, lag: int, k: int) -> int
    decreases k,
{
    if k <= 0 {
        0
    } else {
        sum_lagged(s, m, lag, k - 1) + (s[k - 1] - m) * (s[k - 1 + lag] - m)
    }
}

/// Mirror of autocorrelation at `lag`.
pub open spec fn autocorrelation_fx(s: Seq<i64>, lag: int) -> int {
    if s.len() <= lag || lag < 0 {
        0
    } else {
        let m = mean_fx(s);
        let v = variance_fx(s);
        if v == 0 {
            0
        } else {
            tdiv(sum_lagged(s, m, lag, s.len() - lag), (s.len() - lag) * v)
        }
    }
}

/// The lagged deviation-product sum is bounded.
pub proof fn lemma_sum_lagged_bound(s: Seq<i64>, m: int, lag: int, k: int)
    requires
        forall|i: int| 0 <= i < s.len() ==> #[trigger] fx_ok(s[i] as int),
        fx_ok(m),
        0 <= lag,
        0 <= k,
        k + lag <= s.len(),
    ensures
        -(k * ((2 * VAL_BOUND as int) * (2 * VAL_BOUND as int))) <= sum_lagged(s, m, lag, k) <= k
            * ((2 * VAL_BOUND as int) * (2 * VAL_BOUND as int)),
    decreases k,
{
    let bb = (2 * VAL_BOUND as int) * (2 * VAL_BOUND as int);
    if k == 0 {
    } else {
        lemma_sum_lagged_bound(s, m, lag, k - 1);
        assert(fx_ok(s[k - 1] as int));
        assert(fx_ok(s[k - 1 + lag] as int));
        let da = s[k - 1] - m;
        let db = s[k - 1 + lag] - m;
        assert(-bb <= da * db <= bb) by (nonlinear_arith)
            requires
                -2 * VAL_BOUND as int <= da <= 2 * VAL_BOUND as int,
                -2 * VAL_BOUND as int <= db <= 2 * VAL_BOUND as int,
                bb == (2 * VAL_BOUND as int) * (2 * VAL_BOUND as int),
        ;
        assert((k - 1) * bb + bb == k * bb) by (nonlinear_arith);
    }
}

/// Autocorrelation of a data set at the given lag.
pub fn calculate_autocorrelation(data: &Vec<i64>, lag: usize) -> (r: i64)
    requires
        vals_ok(data@),
    ensures
        r == autocorrelation_fx(data@, lag as int),
{
    let n: usize = data.len();
    if n <= lag {
        return 0;
    }
    let mean: i64 = calculate_mean(data);
    let variance: i64 = calculate_variance(data, mean);
    if variance == 0 {
        return 0;
    }
    let ghost bb = (2 * VAL_BOUND as int) * (2 * VAL_BOUND as int);
    let n2: usize = n - lag;
    let mut acc: i128 = 0;
    let mut i: usize = 0;
    while i < n2
        invariant
            n == data@.len(),
            n <= LEN_BOUND,
            vals_ok(data@),
            fx_ok(mean as int),
            lag < n,
            n2 == n - lag,
            bb == (2 * VAL_BOUND as int) * (2 * VAL_BOUND as int),
            0 <= i <= n2,
            acc == sum_lagged(data@, mean as int, lag as int, i as int),
            -((i as int) * bb) <= acc as int <= (i as int) * bb,
        decreases n2 - i,
    {
        proof {
            assert(fx_ok(data@[i as int] as int));
            assert(fx_ok(data@[i as int + lag as int] as int));
        }
        let d1: i64 = data[i] - mean;
        let d2: i64 = data[i + lag] - mean;
        proof {
            assert(-bb <= (d1 as int) * (d2 as int) <= bb) by (nonlinear_arith)
                requires
                    -2 * VAL_BOUND as int <= d1 as int <= 2 * VAL_BOUND as int,
                    -2 * VAL_BOUND as int <= d2 as int <= 2 * VAL_BOUND as int,
                    bb == (2 * VAL_BOUND as int) * (2 * VAL_BOUND as int),
            ;
            assert((i as int) * bb + bb == ((i + 1) as int) * bb) by (nonlinear_arith);
            assert(((i + 1) as int) * bb <= (LEN_BOUND as int) * bb) by (nonlinear_arith)
                requires (i + 1) as int <= LEN_BOUND as int && bb >= 0,
            ;
            assert((LEN_BOUND as int) * bb == 4_000_000_000_000_000_000int) by (nonlinear_arith)
                requires
                    bb == (2 * VAL_BOUND as int) * (2 * VAL_BOUND as int),
                    VAL_BOUND as int == 10_000_000,
                    LEN_BOUND as int == 10000,
            ;
        }
        acc = acc + (d1 as i128) * (d2 as i128);
        i = i + 1;
    }
    proof {
        assert((n2 as int) * (variance as int) <= (LEN_BOUND as int)
            * (4 * VAL_BOUND as int * VAL_BOUND as int)) by (nonlinear_arith)
            requires
                0 < n2 as int <= LEN_BOUND as int,
                0 <= variance as int <= 4 * VAL_BOUND as int * VAL_BOUND as int,
        ;
        assert((n2 as int) * (variance as int) > 0) by (nonlinear_arith)
            requires n2 as int > 0 && variance as int > 0,
        ;
        lemma_tdiv_abs(acc as int, (n2 as int) * (variance as int));
        assert((LEN_BOUND as int) * bb == 4_000_000_000_000_000_000int) by (nonlinear_arith)
            requires
                bb == (2 * VAL_BOUND as int) * (2 * VAL_BOUND as int),
                VAL_BOUND as int == 10_000_000,
                LEN_BOUND as int == 10000,
        ;
        assert((n2 as int) * bb <= (LEN_BOUND as int) * bb) by (nonlinear_arith)
            requires n2 as int <= LEN_BOUND as int && bb >= 0,
        ;
    }
    let den: i128 = (n2 as i128) * (variance as i128);
    let q: i128 = divt128(acc, den);
    q as i64
}

/// Minimum element of the sequence (0 for the empty sequence).
pub open spec fn min_val(s: Seq<i64>) -> int
    decreases s.len(),
{
    if s.len() == 0 {
        0
    } else if s.len() == 1 {
        s[0] as int
    } else {
        let m = min_val(s.drop_last());
        if s.last() < m {
            s.last() as int
        } else {
            m
        }
    }
}

/// Maximum element of the sequence (0 for the empty sequence).
pub open spec fn max_val(s: Seq<i64>) -> int
    decreases s.len(),
{
    if s.len() == 0 {
        0
    } else if s.len() == 1 {
        s[0] as int
    } else {
        let m = max_val(s.drop_last());
        if s.last() > m {
            s.last() as int
        } else {
            m
        }
    }
}

/// Unfolding one step of the running extremes over a growing prefix.
pub proof fn lemma_minmax_take(s: Seq<i64>, i: int)
    requires
        1 <= i < s.len(),
    ensures
        min_val(s.take(i + 1)) == (if (s[i] as int) < min_val(s.take(i)) {
            s[i] as int
        } else {
            min_val(s.take(i))
        }),
        max_val(s.take(i + 1)) == (if (s[i] as int) > max_val(s.take(i)) {
            s[i] as int
        } else {
            max_val(s.take(i))
        }),
{
    assert(s.take(i + 1).drop_last() =~= s.take(i));
    assert(s.take(i + 1).last() == s[i]);
    assert(s.take(i + 1).len() == i + 1 >= 2);
}

/// The extremes bracket every element and are elements themselves (hence in
/// range for in-range data).
pub proof fn lemma_minmax_props(s: Seq<i64>)
    requires
        s.len() >= 1,
        forall|i: int| 0 <= i < s.len() ==> #[trigger] fx_ok(s[i] as int),
    ensures
        forall|i: int| 0 <= i < s.len() ==> min_val(s) <= #[trigger] s[i] as int <= max_val(s),
        fx_ok(min_val(s)),
        fx_ok(max_val(s)),
        min_val(s) <= max_val(s),
    decreases s.len(),
{
    if s.len() == 1 {
        assert(fx_ok(s[0] as int));
    } else {
        assert(forall|i: int| 0 <= i < s.drop_last().len() ==> #[trigger] fx_ok(
            s.drop_last()[i] as int,
        ));
        lemma_minmax_props(s.drop_last());
        assert(fx_ok(s[s.len() - 1] as int));
        assert(forall|i: int| 0 <= i < s.len() - 1 ==> s.drop_last()[i] == #[trigger] s[i]);
    }
}

/// The bucket index of a value: its offset from the minimum divided by the
/// bucket width, capped at the last bucket.
pub open spec fn hb_idx(v: i64, minv: int, bs: int, nb: int) -> int {
    let q = tdiv(v - minv, bs);
    if q > nb - 1 {
        nb - 1
    } else {
        q
    }
}

/// Count of elements falling into bucket `k`.
pub open spec fn count_hb(s: Seq<i64>, minv: int, bs: int, nb: int, k: int) -> int
    decreases s.len(),
{
    if s.len() == 0 {
        0
    } else {
        count_hb(s.drop_last(), minv, bs, nb, k) + (if hb_idx(s.last(), minv, bs, nb) == k {
            1int
        } else {
            0int
        })
    }
}

/// Peeling one element off a prefix bucket count.
pub proof fn lemma_count_hb_take(s: Seq<i64>, minv: int, bs: int, nb: int, k: int, i: int)
    requires
        0 <= i < s.len(),
    ensures
        count_hb(s.take(i + 1), minv, bs, nb, k) == count_hb(s.take(i), minv, bs, nb, k) + (
        if hb_idx(s[i], minv, bs, nb) == k {
            1int
        } else {
            0int
        }),
{
    assert(s.take(i + 1).drop_last() =~= s.take(i));
    assert(s.take(i + 1).last() == s[i]);
}

/// Bucket counts are bounded by the length.
pub proof fn lemma_count_hb_bounds(s: Seq<i64>, minv: int, bs: int, nb: int, k: int)
    ensures
        0 <= count_hb(s, minv, bs, nb, k) <= s.len(),
    decreases s.len(),
{
    if s.len() > 0 {
        lemma_count_hb_bounds(s.drop_last(), minv, bs, nb, k);
    }
}

/// The bucket width used by the histogram: the range divided by the bucket
/// count, but at least one fixed-point unit.
pub open spec fn hb_width(s: Seq<i64>, nb: int) -> int {
    let q = tdiv(max_val(s) - min_val(s), nb);
    if q < 1 {
        1
    } else {
        q
    }
}

/// Mirror of histogram bucketing: equal-width buckets from the minimum to
/// the maximum, the last bucket stretched a thousandth beyond the maximum so
/// it is always included; a single bucket when all values coincide; empty for
/// empty data or no buckets.
pub open spec fn histogram_fx(s: Seq<i64>, nb: int) -> Seq<(i64, i64, usize)> {
    if s.len() == 0 || nb <= 0 {
        Seq::empty()
    } else if max_val(s) == min_val(s) {
        seq![(min_val(s) as i64, max_val(s) as i64, s.len() as usize)]
    } else {
        let minv = min_val(s);
        let bs = hb_width(s, nb);
        Seq::new(
            nb as nat,
            |k: int|
                (
                    (minv + k * bs) as i64,
                    (if k == nb - 1 {
                        max_val(s) + 10
                    } else {
                        minv + k * bs + bs
                    }) as i64,
                    count_hb(s, minv, bs, nb, k) as usize,
                ),
        )
    }
}

/// Histogram of a data set with the given number of equal-width buckets:
/// each entry is (bucket start, bucket end, count).
pub fn generate_histogram(data: &Vec<i64>, num_buckets: usize) -> (r: Vec<(i64, i64, usize)>)
    requires
        vals_ok(data@),
        num_buckets <= LEN_BOUND,
    ensures
        r@ == histogram_fx(data@, num_buckets as int),
{
    let n: usize = data.len();
    let nb: usize = num_buckets;
    let mut r: Vec<(i64, i64, usize)> = Vec::new();
    if n == 0 || nb == 0 {
        proof {
            assert(r@ =~= histogram_fx(data@, nb as int));
        }
        return r;
    }
    proof {
        assert(forall|i: int| 0 <= i < data@.len() ==> #[trigger] fx_ok(data@[i] as int));
        lemma_minmax_props(data@);
    }
    let mut mn: i64 = data[0];
    let mut mx: i64 = data[0];
    let mut i: usize = 1;
    proof {
        assert(data@.take(1) =~= seq![data@[0]]);
        assert(fx_ok(data@[0] as int));
    }
    while i < n
        invariant
            n == data@.len(),
            vals_ok(data@),
            1 <= i <= n,
            mn as int == min_val(data@.take(i as int)),
            mx as int == max_val(data@.take(i as int)),
            fx_ok(mn as int),
            fx_ok(mx as int),
        decreases n - i,
    {
        proof {
            lemma_minmax_take(data@, i as int);
            assert(fx_ok(data@[i as int] as int));
        }
        let v: i64 = data[i];
        if v < mn {
            mn = v;
        }
        if v > mx {
            mx = v;
        }
        i = i + 1;
    }
    proof {
        assert(data@.take(n as int) =~= data@);
    }
    if mx == mn {
        r.push((mn, mx, n));
        proof {
            assert(r@ =~= histogram_fx(data@, nb as int));
        }
        return r;
    }
    let q: i64 = divt64(mx - mn, nb as i64);
    let bs: i64 = if q < 1 {
        1
    } else {
        q
    };
    proof {
        lemma_tdiv_nonneg(mx as int - mn as int, nb as int);
        assert(bs as int == hb_width(data@, nb as int));
        assert((nb as int) * tdiv(mx as int - mn as int, nb as int) <= mx as int - mn as int) by {
            let d = mx as int - mn as int;
            lemma_tdiv_nonneg(d, nb as int);
            vstd::arithmetic::div_mod::lemma_fundamental_div_mod(d, nb as int);
            assert(d == (nb as int) * (d / (nb as int)) + d % (nb as int));
            assert(d % (nb as int) >= 0);
        }
        assert((nb as int) * (bs as int) <= 2 * VAL_BOUND as int + LEN_BOUND as int)
            by (nonlinear_arith)
            requires
                bs as int == (if tdiv(mx as int - mn as int, nb as int) < 1 {
                    1int
                } else {
                    tdiv(mx as int - mn as int, nb as int)
                }),
                (nb as int) * tdiv(mx as int - mn as int, nb as int) <= mx as int - mn as int,
                0 < mx as int - mn as int <= 2 * VAL_BOUND as int,
                0 < nb as int <= LEN_BOUND as int,
        ;
    }
    let mut counts: Vec<usize> = Vec::new();
    let mut k: usize = 0;
    while k < nb
        invariant
            0 <= k <= nb,
            counts@.len() == k,
            forall|j: int| 0 <= j < k ==> #[trigger] counts@[j] == 0usize,
        decreases nb - k,
    {
        counts.push(0);
        k = k + 1;
    }
    let ghost minv = mn as int;
    let ghost bsg = bs as int;
    let mut i2: usize = 0;
    proof {
        assert(data@.take(0) =~= Seq::<i64>::empty());
    }
    while i2 < n
        invariant
            n == data@.len(),
            n <= LEN_BOUND,
            vals_ok(data@),
            minv == min_val(data@),
            mn as int == minv,
            fx_ok(minv),
            bsg == bs as int,
            bs >= 1,
            bs as int <= 2 * VAL_BOUND as int,
            1 <= nb <= LEN_BOUND,
            forall|j: int| 0 <= j < data@.len() ==> minv <= #[trigger] data@[j] as int,
            counts@.len() == nb,
            0 <= i2 <= n,
            forall|j: int| 0 <= j < nb ==> #[trigger] counts@[j] as int == count_hb(
                data@.take(i2 as int),
                minv,
                bsg,
                nb as int,
                j,
            ),
        decreases n - i2,
    {
        proof {
            assert(fx_ok(data@[i2 as int] as int));
            assert(data@[i2 as int] as int >= minv);
            lemma_tdiv_nonneg(data@[i2 as int] - minv, bsg);
        }
        let v: i64 = data[i2];
        let qi: i64 = divt64(v - mn, bs);
        let idx: usize = if qi > (nb - 1) as i64 {
            nb - 1
        } else {
            qi as usize
        };
        proof {
            assert(idx as int == hb_idx(data@[i2 as int], minv, bsg, nb as int));
            assert(idx < nb);
            assert forall|j: int| 0 <= j < nb implies count_hb(
                data@.take(i2 as int + 1),
                minv,
                bsg,
                nb as int,
                j,
            ) == count_hb(data@.take(i2 as int), minv, bsg, nb as int, j) + (if j == idx as int {
                1int
            } else {
                0int
            }) by {
                lemma_count_hb_take(data@, minv, bsg, nb as int, j, i2 as int);
            }
            lemma_count_hb_bounds(data@.take(i2 as int), minv, bsg, nb as int, idx as int);
        }
        let c: usize = counts[idx];
        counts.set(idx, c + 1);
        i2 = i2 + 1;
    }
    proof {
        assert(data@.take(n as int) =~= data@);
    }
    let mut k2: usize = 0;
    while k2 < nb
        invariant
            n == data@.len(),
            vals_ok(data@),
            minv == min_val(data@),
            max_val(data@) != min_val(data@),
            fx_ok(minv),
            fx_ok(max_val(data@)),
            mx as int == max_val(data@),
            mn as int == min_val(data@),
            bsg == bs as int,
            bs >= 1,
            bs as int == hb_width(data@, nb as int),
            (nb as int) * (bs as int) <= 2 * VAL_BOUND as int + LEN_BOUND as int,
            1 <= nb <= LEN_BOUND,
            counts@.len() == nb,
            forall|j: int| 0 <= j < nb ==> #[trigger] counts@[j] as int == count_hb(
                data@,
                minv,
                bsg,
                nb as int,
                j,
            ),
            0 <= k2 <= nb,
            r@.len() == k2,
            forall|j: int| 0 <= j < k2 ==> #[trigger] r@[j] == histogram_fx(
                data@,
                nb as int,
            )[j],
            n >= 1,
        decreases nb - k2,
    {
        proof {
            assert(0 <= (k2 as int) * (bs as int) <= (nb as int) * (bs as int))
                by (nonlinear_arith)
                requires 0 <= k2 as int <= nb as int && bs as int >= 1,
            ;
        }
        let start: i64 = mn + (k2 as i64) * bs;
        let end: i64 = if k2 == nb - 1 {
            mx + 10
        } else {
            start + bs
        };
        let c: usize = counts[k2];
        proof {
            lemma_count_hb_bounds(data@, minv, bsg, nb as int, k2 as int);
        }
        r.push((start, end, c));

        k2 = k2 + 1;
    }
    proof {
        assert(r@ =~= histogram_fx(data@, nb as int));
    }
    r
}

} // verus!
