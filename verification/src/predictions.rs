//! Grade prediction: the target-average inverse, a three-method ensemble
//! forecast (trend extrapolation, exponential smoothing, weighted recency
//! regression), what-if analysis and pass-probability estimation.

use vstd::prelude::*;
use vstd::string::StringExecFns;
use crate::fx::{
    SCALE, VAL_BOUND, LEN_BOUND, TS_BOUND, SAT_BOUND, fx_ok, vals_ok, tdiv, tclamp, sqrt_floor,
    is_sqrt, lemma_sqrt_exists, lemma_tdiv_nonneg, lemma_tdiv_abs, lemma_tdiv_mono,
    lemma_tdiv_bracket_gen, divt64, divt128, divt128s, clamp64, fx_sqrt, sat64,
};
use crate::seqs::{sort_ts, sorted_ts, lemma_sort_ts_props, sorted_by_ts};
use crate::stats::{mean_fx, variance_fx, std_dev_fx, lemma_variance_about_bounds,
    lemma_mean_fx_ok, calculate_mean, calculate_variance, calculate_std_deviation};
use crate::smooth::{ema_fx, cv_fx, lemma_ema_rec_ok, calculate_ema, calculate_cv};
use crate::trend::{series_ok, trend_denom, trend_slope_fx, trend_intercept_fx, trend_r2_fx,
    min_ts, sum_y, calculate_trend, TrendResult};
use crate::grades::{Grade, GradeV, grade_ok, grades_ok, lower_of, sum_gv, sum_gw, sum_gvw,
    lemma_grade_sums_take, lemma_grade_sums_bounds, trips_of, trips_ok, lemma_trips_of_ok,
    trips_vec, lemma_trip_sums_take, lemma_trip_sums_bounds, sum_tv, sum_tw, sum_tvw};

verus! {

/// A forecast: point estimate, confidence in `[0, 1]`, interval bounds, and
/// the tag of the method that produced it.
#[derive(Clone, Debug)]
pub struct PredictionResult {
    pub predicted_value: i64,
    pub confidence: i64,
    pub lower_bound: i64,
    pub upper_bound: i64,
    pub method: String,
}

/// Mirror of the target-average inverse: the grade needed so that the
/// weighted average reaches `target`.
pub open spec fn grade_needed_fx(
    current_average: int,
    current_weight: int,
    target: int,
    new_weight: int,
) -> int {
    tdiv(target * (current_weight + new_weight) - current_average * current_weight, new_weight)
}

/// The grade needed on one additional weighted assessment so that the
/// weighted average reaches the target.
pub fn predict_grade_needed(
    current_average: i64,
    current_total_weight: i64,
    target_average: i64,
    new_grade_weight: i64,
) -> (r: i64)
    requires
        fx_ok(current_average as int),
        fx_ok(target_average as int),
        0 <= current_total_weight <= 200_000_000_000,
        0 < new_grade_weight <= VAL_BOUND,
    ensures
        r as int == grade_needed_fx(
            current_average as int,
            current_total_weight as int,
            target_average as int,
            new_grade_weight as int,
        ),
{
    let total: i128 = (current_total_weight as i128) + (new_grade_weight as i128);
    proof {
        assert(-4_000_000_000_000_000_000int <= (target_average as int) * (total as int)
            <= 4_000_000_000_000_000_000int) by (nonlinear_arith)
            requires
                -10_000_000 <= target_average as int <= 10_000_000,
                0 <= total as int <= 200_010_000_000int,
        ;
        assert(-4_000_000_000_000_000_000int <= (current_average as int)
            * (current_total_weight as int) <= 4_000_000_000_000_000_000int) by (nonlinear_arith)
            requires
                -10_000_000 <= current_average as int <= 10_000_000,
                0 <= current_total_weight as int <= 200_000_000_000int,
        ;
        lemma_tdiv_abs(
            (target_average as int) * (total as int) - (current_average as int)
                * (current_total_weight as int),
            new_grade_weight as int,
        );
    }
    let num: i128 = (target_average as i128) * total - (current_average as i128)
        * (current_total_weight as i128);
    divt128(num, new_grade_weight as i128) as i64
}

/// The values of a triple sequence, in order.
pub open spec fn tvals(t: Seq<(i64, i64, i64)>) -> Seq<i64> {
    t.map_values(|p: (i64, i64, i64)| p.1)
}

/// The (timestamp, value) pairs of a triple sequence, in order.
pub open spec fn tpairs(t: Seq<(i64, i64, i64)>) -> Seq<(i64, i64)> {
    t.map_values(|p: (i64, i64, i64)| (p.0, p.1))
}

/// The sorted triples of a grade list.
pub open spec fn st_of(s: Seq<Grade>) -> Seq<(i64, i64, i64)> {
    sort_ts(trips_of(s))
}

/// The slope of the fitted trend, total over all series (zero in the
/// degenerate cases).
pub open spec fn slope_of(s: Seq<(i64, i64)>) -> int {
    if s.len() < 2 || trend_denom(s) == 0 {
        0
    } else {
        trend_slope_fx(s)
    }
}

/// The intercept of the fitted trend, total over all series.
pub open spec fn intercept_of(s: Seq<(i64, i64)>) -> int {
    if s.len() < 2 {
        0
    } else if trend_denom(s) == 0 {
        tdiv(sum_y(s), s.len() as int)
    } else {
        trend_intercept_fx(s)
    }
}

/// The goodness of fit of the fitted trend, total over all series.
pub open spec fn r2_of(s: Seq<(i64, i64)>) -> int {
    if s.len() < 2 || trend_denom(s) == 0 {
        0
    } else {
        trend_r2_fx(s)
    }
}

/// Mirror of the trend sub-prediction over sorted triples (at least two):
/// extrapolate one average inter-sample interval beyond the last timestamp;
/// the confidence is the goodness of fit, clamped into `[0, 1]`.
pub open spec fn trend_pred_fx(t: Seq<(i64, i64, i64)>) -> (int, int) {
    let p = tpairs(t);
    let first = t[0].0 as int;
    let last = t[t.len() - 1].0 as int;
    let interval = tdiv(last - first, t.len() - 1);
    let next = (last - first) + interval;
    let raw = slope_of(p) * next + intercept_of(p);
    (tclamp(raw, SCALE as int, 10 * SCALE as int), tclamp(r2_of(p), 0, SCALE as int))
}

/// Mirror of the smoothing sub-prediction: the last output of the
/// exponential moving average (factor 0.3), with confidence inversely
/// related to the smoothed sequence's own variance, clamped to `[0.1, 0.9]`.
pub open spec fn ema_pred_fx(t: Seq<(i64, i64, i64)>) -> (int, int) {
    let e = ema_fx(tvals(t), 3000);
    let pred = tclamp(e[e.len() - 1] as int, SCALE as int, 10 * SCALE as int);
    let v = if e.len() > 1 {
        variance_fx(e)
    } else {
        SCALE as int
    };
    let conf = tclamp(
        tdiv((SCALE as int) * (SCALE as int), SCALE + sqrt_floor(v * SCALE)),
        1000,
        9000,
    );
    (pred, conf)
}

/// Sum of values weighted by the square of the one-based position.
pub open spec fn sum_posv(t: Seq<(i64, i64, i64)>, k: int) -> int
    decreases k,
{
    if k <= 0 {
        0
    } else {
        sum_posv(t, k - 1) + t[k - 1].1 * (k * k)
    }
}

/// Sum of squared one-based positions.
pub open spec fn sum_posw(k: int) -> int
    decreases k,
{
    if k <= 0 {
        0
    } else {
        sum_posw(k - 1) + k * k
    }
}

/// Bounds on the position-weighted sums.
pub proof fn lemma_pos_sums_bounds(t: Seq<(i64, i64, i64)>, k: int)
    requires
        trips_ok(t),
        0 <= k <= t.len(),
        t.len() <= LEN_BOUND,
    ensures
        0 < k ==> sum_posw(k) >= 1,
        0 <= sum_posw(k) <= k * 100_000_000int,
        -((VAL_BOUND as int) * sum_posw(k)) <= sum_posv(t, k) <= (VAL_BOUND as int) * sum_posw(k),
    decreases k,
{
    if k > 0 {
        lemma_pos_sums_bounds(t, k - 1);
        assert(-TS_BOUND <= t[k - 1].0 <= TS_BOUND && fx_ok(t[k - 1].1 as int) && 0 <= t[k - 1].2
            <= VAL_BOUND);
        assert(1 <= k * k <= 100_000_000int) by (nonlinear_arith)
            requires 1 <= k <= 10000,
        ;
        assert((k - 1) * 100_000_000int + 100_000_000int == k * 100_000_000int)
            by (nonlinear_arith);
        let v = t[k - 1].1 as int;
        let kk = k * k;
        assert(-((VAL_BOUND as int) * kk) <= v * kk <= (VAL_BOUND as int) * kk)
            by (nonlinear_arith)
            requires -(VAL_BOUND as int) <= v <= VAL_BOUND as int && kk >= 0,
        ;
        assert((VAL_BOUND as int) * (sum_posw(k - 1) + kk) == (VAL_BOUND as int) * sum_posw(
            k - 1,
        ) + (VAL_BOUND as int) * kk) by (nonlinear_arith);
    }
}

/// Mirror of the regression sub-prediction: below three points, the plain
/// average with fixed confidence 0.3; otherwise a quadratically
/// position-weighted recency average with confidence derived from the
/// coefficient of variation, clamped to `[0.1, 0.9]`.
pub open spec fn reg_pred_fx(t: Seq<(i64, i64, i64)>) -> (int, int) {
    if t.len() < 3 {
        (tdiv(sum_tv(t), t.len() as int), 3000int)
    } else {
        let pred = tclamp(
            tdiv(sum_posv(t, t.len() as int), sum_posw(t.len() as int)),
            SCALE as int,
            10 * SCALE as int,
        );
        let cv = cv_fx(tvals(t));
        let cvm = if cv > 100 * SCALE as int {
            100 * SCALE as int
        } else {
            cv
        };
        let conf = tclamp(tdiv(100 * SCALE - cvm, 100), 1000, 9000);
        (pred, conf)
    }
}

/// The ensemble blend weights: the trend weight grows with five or more
/// points, the smoothing weight is fixed, the regression weight absorbs the
/// remainder.
pub open spec fn blend_weights(n: int) -> (int, int, int) {
    let tw = if n >= 5 {
        4000int
    } else {
        2000int
    };
    (tw, 3000int, SCALE - tw - 3000)
}

/// Mirror of the combined ensemble point estimate (before clamping).
pub open spec fn ensemble_raw_fx(s: Seq<Grade>) -> int {
    let t = st_of(s);
    let w = blend_weights(s.len() as int);
    tdiv(
        trend_pred_fx(t).0 * w.0 + ema_pred_fx(t).0 * w.1 + reg_pred_fx(t).0 * w.2,
        SCALE as int,
    )
}

/// Mirror of the combined ensemble confidence: the unweighted mean of the
/// three sub-confidences.
pub open spec fn ensemble_conf_fx(s: Seq<Grade>) -> int {
    let t = st_of(s);
    tdiv(trend_pred_fx(t).1 + ema_pred_fx(t).1 + reg_pred_fx(t).1, 3)
}

/// The standard deviation of the time-ordered grade values.
pub open spec fn ensemble_sd_fx(s: Seq<Grade>) -> int {
    std_dev_fx(tvals(st_of(s)))
}

/// The in-domain property carries from sorted triples to their values.
pub proof fn lemma_tvals_ok(t: Seq<(i64, i64, i64)>)
    requires
        trips_ok(t),
        t.len() <= LEN_BOUND,
    ensures
        vals_ok(tvals(t)),
        tvals(t).len() == t.len(),
{
    assert forall|i: int| 0 <= i < tvals(t).len() implies #[trigger] fx_ok(
        tvals(t)[i] as int,
    ) by {
        assert(-TS_BOUND <= t[i].0 <= TS_BOUND && fx_ok(t[i].1 as int) && 0 <= t[i].2
            <= VAL_BOUND);
    }
}

/// The series property carries from sorted triples to their pairs.
pub proof fn lemma_tpairs_ok(t: Seq<(i64, i64, i64)>)
    requires
        trips_ok(t),
        t.len() <= LEN_BOUND,
    ensures
        series_ok(tpairs(t)),
        tpairs(t).len() == t.len(),
{
    assert forall|i: int| 0 <= i < tpairs(t).len() implies -TS_BOUND
        <= (#[trigger] tpairs(t)[i]).0 <= TS_BOUND && fx_ok(tpairs(t)[i].1 as int) by {
        assert(-TS_BOUND <= t[i].0 <= TS_BOUND && fx_ok(t[i].1 as int) && 0 <= t[i].2
            <= VAL_BOUND);
    }
}

/// Build the (timestamp, value) pairs of a triple list.
pub fn pairs_vec(t: &Vec<(i64, i64, i64)>) -> (r: Vec<(i64, i64)>)
    ensures
        r@ == tpairs(t@),
{
    let n: usize = t.len();
    let mut r: Vec<(i64, i64)> = Vec::new();
    let mut i: usize = 0;
    while i < n
        invariant
            n == t@.len(),
            0 <= i <= n,
            r@.len() == i,
            forall|j: int| 0 <= j < i ==> #[trigger] r@[j] == (t@[j].0, t@[j].1),
        decreases n - i,
    {
        let p: (i64, i64, i64) = t[i];
        r.push((p.0, p.1));
        i = i + 1;
    }
    proof {
        assert(r@ =~= tpairs(t@));
    }
    r
}

/// Build the values of a triple list.
fn vals_vec(t: &Vec<(i64, i64, i64)>) -> (r: Vec<i64>)
    ensures
        r@ == tvals(t@),
{
    let n: usize = t.len();
    let mut r: Vec<i64> = Vec::new();
    let mut i: usize = 0;
    while i < n
        invariant
            n == t@.len(),
            0 <= i <= n,
            r@.len() == i,
            forall|j: int| 0 <= j < i ==> #[trigger] r@[j] == t@[j].1,
        decreases n - i,
    {
        let p: (i64, i64, i64) = t[i];
        r.push(p.1);
        i = i + 1;
    }
    proof {
        assert(r@ =~= tvals(t@));
    }
    r
}

/// The trend sub-prediction over sorted triples.
fn predict_from_trend(t: &Vec<(i64, i64, i64)>) -> (r: (i64, i64))
    requires
        trips_ok(t@),
        2 <= t@.len() <= LEN_BOUND,
    ensures
        r.0 as int == trend_pred_fx(t@).0,
        r.1 as int == trend_pred_fx(t@).1,
        SCALE as int <= r.0 as int <= 10 * SCALE as int,
        0 <= r.1 as int <= SCALE as int,
{
    let n: usize = t.len();
    proof {
        lemma_tpairs_ok(t@);
        assert(-TS_BOUND <= t@[0].0 <= TS_BOUND && fx_ok(t@[0].1 as int) && 0 <= t@[0].2
            <= VAL_BOUND);
        assert(-TS_BOUND <= t@[n as int - 1].0 <= TS_BOUND && fx_ok(t@[n as int - 1].1 as int)
            && 0 <= t@[n as int - 1].2 <= VAL_BOUND);
    }
    let pairs: Vec<(i64, i64)> = pairs_vec(t);
    let tr: TrendResult = calculate_trend(&pairs);
    let first: i64 = t[0].0;
    let last: i64 = t[n - 1].0;
    proof {
        lemma_tdiv_abs(last as int - first as int, n as int - 1);
    }
    let interval: i64 = divt64(last - first, (n - 1) as i64);
    let next: i64 = (last - first) + interval;
    proof {
        assert(tr.slope as int == slope_of(tpairs(t@)));
        assert(tr.intercept as int == intercept_of(tpairs(t@)));
        assert(tr.r_squared as int == r2_of(tpairs(t@)));
        assert(-(SAT_BOUND as int) <= tr.slope as int <= SAT_BOUND as int) by {
            if tpairs(t@).len() >= 2 && trend_denom(tpairs(t@)) != 0 {
            }
        }
        assert(-42_000_000_000_000_000_000_000_000_000int <= (tr.slope as int) * (next as int)
            <= 42_000_000_000_000_000_000_000_000_000int) by (nonlinear_arith)
            requires
                -1_000_000_000_000_000int <= tr.slope as int <= 1_000_000_000_000_000int,
                -42_000_000_000_000int <= next as int <= 42_000_000_000_000int,
        ;
    }
    let raw: i128 = (tr.slope as i128) * (next as i128) + (tr.intercept as i128);
    let pred: i64 = if raw < (SCALE as i128) {
        SCALE
    } else if raw > 10 * (SCALE as i128) {
        10 * SCALE
    } else {
        raw as i64
    };
    let conf: i64 = clamp64(tr.r_squared, 0, SCALE);
    (pred, conf)
}

/// The smoothing sub-prediction over sorted triples.
fn predict_from_ema(t: &Vec<(i64, i64, i64)>) -> (r: (i64, i64))
    requires
        trips_ok(t@),
        1 <= t@.len() <= LEN_BOUND,
    ensures
        r.0 as int == ema_pred_fx(t@).0,
        r.1 as int == ema_pred_fx(t@).1,
        SCALE as int <= r.0 as int <= 10 * SCALE as int,
        1000 <= r.1 as int <= 9000,
{
    proof {
        lemma_tvals_ok(t@);
    }
    let values: Vec<i64> = vals_vec(t);
    let e: Vec<i64> = calculate_ema(&values, 3000);
    proof {
        assert(e@.len() == t@.len()) by {
            crate::smooth::lemma_ema_rec_ok(tvals(t@), tclamp(3000, 0, SCALE as int));
        }
        assert(vals_ok(e@)) by {
            assert(forall|j: int| 0 <= j < e@.len() ==> #[trigger] fx_ok(e@[j] as int));
        }
    }
    let last: i64 = e[e.len() - 1];
    let pred: i64 = clamp64(last, SCALE, 10 * SCALE);
    let var: i64 = if e.len() > 1 {
        let m: i64 = calculate_mean(&e);
        calculate_variance(&e, m)
    } else {
        SCALE
    };
    let sv: i64 = fx_sqrt(var);
    proof {
        assert(is_sqrt(var * SCALE, sv as int));
        assert(var * SCALE <= 4_000_000_000_000_000_000int) by (nonlinear_arith)
            requires 0 <= var as int <= 400_000_000_000_000int && SCALE as int == 10000,
        ;
        assert(sv as int <= 3_000_000_000int) by (nonlinear_arith)
            requires
                (sv as int) * (sv as int) <= var * SCALE,
                var * SCALE <= 4_000_000_000_000_000_000int,
                sv as int >= 0,
        ;
        lemma_tdiv_nonneg((SCALE as int) * (SCALE as int), SCALE as int + sv as int);
    }
    let q: i64 = divt64(SCALE * SCALE, SCALE + sv);
    let conf: i64 = clamp64(q, 1000, 9000);
    (pred, conf)
}

/// The regression sub-prediction over sorted triples.
fn predict_from_regression(t: &Vec<(i64, i64, i64)>) -> (r: (i64, i64))
    requires
        trips_ok(t@),
        1 <= t@.len() <= LEN_BOUND,
    ensures
        r.0 as int == reg_pred_fx(t@).0,
        r.1 as int == reg_pred_fx(t@).1,
        t@.len() >= 3 ==> SCALE as int <= r.0 as int <= 10 * SCALE as int,
        t@.len() >= 3 ==> 1000 <= r.1 as int <= 9000,
        t@.len() < 3 ==> fx_ok(r.0 as int) && r.1 == 3000,
{
    let n: usize = t.len();
    if n < 3 {
        let mut acc: i64 = 0;
        let mut i: usize = 0;
        proof {
            assert(t@.take(0) =~= Seq::<(i64, i64, i64)>::empty());
        }
        while i < n
            invariant
                n == t@.len(),
                n <= LEN_BOUND,
                trips_ok(t@),
                0 <= i <= n,
                acc as int == sum_tv(t@.take(i as int)),
                -((i as int) * (VAL_BOUND as int)) <= acc as int <= (i as int)
                    * (VAL_BOUND as int),
            decreases n - i,
        {
            proof {
                lemma_trip_sums_take(t@, i as int);
                assert(-TS_BOUND <= t@[i as int].0 <= TS_BOUND && fx_ok(t@[i as int].1 as int)
                    && 0 <= t@[i as int].2 <= VAL_BOUND);
                assert((i as int) * (VAL_BOUND as int) + VAL_BOUND as int == ((i + 1) as int)
                    * (VAL_BOUND as int)) by (nonlinear_arith);
            }
            let v: i64 = t[i].1;
            acc = acc + v;
            i = i + 1;
        }
        proof {
            assert(t@.take(n as int) =~= t@);
            assert((-(VAL_BOUND as int)) * (n as int) == -((n as int) * (VAL_BOUND as int)))
                by (nonlinear_arith);
            assert((VAL_BOUND as int) * (n as int) == (n as int) * (VAL_BOUND as int))
                by (nonlinear_arith);
            lemma_tdiv_bracket_gen(acc as int, n as int, -VAL_BOUND as int, VAL_BOUND as int);
        }
        let avg: i64 = divt64(acc, n as i64);
        return (avg, 3000);
    }
    let mut ws: i128 = 0;
    let mut wt: i64 = 0;
    let mut i: usize = 0;
    while i < n
        invariant
            n == t@.len(),
            3 <= n <= LEN_BOUND,
            trips_ok(t@),
            0 <= i <= n,
            ws as int == sum_posv(t@, i as int),
            wt as int == sum_posw(i as int),
            0 <= wt as int <= (i as int) * 100_000_000int,
            -((VAL_BOUND as int) * (wt as int)) <= ws as int <= (VAL_BOUND as int) * (wt as int),
        decreases n - i,
    {
        proof {
            lemma_pos_sums_bounds(t@, i as int + 1);
            lemma_pos_sums_bounds(t@, i as int);
            assert(-TS_BOUND <= t@[i as int].0 <= TS_BOUND && fx_ok(t@[i as int].1 as int) && 0
                <= t@[i as int].2 <= VAL_BOUND);
            assert(1 <= ((i + 1) as int) * ((i + 1) as int) <= 100_000_000int)
                by (nonlinear_arith)
                requires 1 <= (i + 1) as int <= 10000,
            ;
            assert((i as int) * 100_000_000int + 100_000_000int == ((i + 1) as int)
                * 100_000_000int) by (nonlinear_arith);
            assert(((i + 1) as int) * 100_000_000int <= 1_000_000_000_000int)
                by (nonlinear_arith)
                requires (i + 1) as int <= 10000,
            ;
            assert((VAL_BOUND as int) * 1_000_000_000_000int == 10_000_000_000_000_000_000int)
                by (nonlinear_arith);
            assert((VAL_BOUND as int) * (wt as int) <= (VAL_BOUND as int)
                * 1_000_000_000_000int) by (nonlinear_arith)
                requires 0 <= wt as int <= 1_000_000_000_000int,
            ;
            assert((VAL_BOUND as int) * (wt as int + ((i + 1) as int) * ((i + 1) as int)) == (
            VAL_BOUND as int) * (wt as int) + (VAL_BOUND as int) * (((i + 1) as int) * ((i
                + 1) as int))) by (nonlinear_arith);
            let kk = ((i + 1) as int) * ((i + 1) as int);
            let v = t@[i as int].1 as int;
            assert(-((VAL_BOUND as int) * kk) <= v * kk <= (VAL_BOUND as int) * kk)
                by (nonlinear_arith)
                requires -(VAL_BOUND as int) <= v <= VAL_BOUND as int && kk >= 0,
            ;
            assert((VAL_BOUND as int) * kk <= 1_000_000_000_000_000int) by (nonlinear_arith)
                requires 1 <= kk <= 100_000_000int && VAL_BOUND as int == 10_000_000,
            ;
        }
        let k: i64 = (i + 1) as i64;
        let v: i64 = t[i].1;
        ws = ws + (v as i128) * ((k * k) as i128);
        wt = wt + k * k;
        i = i + 1;
    }
    proof {
        lemma_pos_sums_bounds(t@, n as int);
        assert((-(VAL_BOUND as int)) * (wt as int) == -((VAL_BOUND as int) * (wt as int)))
            by (nonlinear_arith);
        lemma_tdiv_bracket_gen(ws as int, wt as int, -VAL_BOUND as int, VAL_BOUND as int);
        lemma_tvals_ok(t@);
    }
    let rawpred: i64 = divt128(ws, wt as i128) as i64;
    let pred: i64 = clamp64(rawpred, SCALE, 10 * SCALE);
    let values: Vec<i64> = vals_vec(t);
    let cv: i64 = calculate_cv(&values);
    let cvm: i64 = if cv > 100 * SCALE {
        100 * SCALE
    } else {
        cv
    };
    proof {
        lemma_tdiv_nonneg(100 * SCALE as int - cvm as int, 100);
    }
    let q: i64 = divt64(100 * SCALE - cvm, 100);
    let conf: i64 = clamp64(q, 1000, 9000);
    (pred, conf)
}

/// Whether a prediction result is functionally pinned to the ensemble
/// mirrors for the given grade list.
pub open spec fn is_ensemble_prediction(r: PredictionResult, s: Seq<Grade>) -> bool {
    if s.len() == 0 {
        r.predicted_value == 0 && r.confidence == 0 && r.lower_bound == 0 && r.upper_bound == 0
            && r.method@ == "none"@
    } else if s.len() == 1 {
        r.predicted_value == s[0].value && r.confidence == 2000 && r.lower_bound as int == (
        if s[0].value - SCALE >= SCALE {
            s[0].value - SCALE
        } else {
            SCALE as int
        }) && r.upper_bound as int == (if s[0].value + SCALE <= 10 * SCALE {
            s[0].value + SCALE
        } else {
            10 * SCALE as int
        }) && r.method@ == "single_value"@
    } else {
        r.predicted_value as int == tclamp(ensemble_raw_fx(s), SCALE as int, 10 * SCALE as int)
            && r.confidence as int == ensemble_conf_fx(s) && r.lower_bound as int == (
        if ensemble_raw_fx(s) - 2 * ensemble_sd_fx(s) >= SCALE as int {
            ensemble_raw_fx(s) - 2 * ensemble_sd_fx(s)
        } else {
            SCALE as int
        }) && r.upper_bound as int == (if ensemble_raw_fx(s) + 2 * ensemble_sd_fx(s) <= 10
            * SCALE as int {
            ensemble_raw_fx(s) + 2 * ensemble_sd_fx(s)
        } else {
            10 * SCALE as int
        }) && r.method@ == "ensemble"@
    }
}

/// Predict the next grade from the history by combining trend
/// extrapolation, exponential smoothing and weighted recency regression
/// with fixed blend weights. The history is sorted by timestamp internally.
pub fn predict_next_grade(grades: &Vec<Grade>) -> (r: PredictionResult)
    requires
        grades_ok(grades@),
    ensures
        is_ensemble_prediction(r, grades@),
{
    let n: usize = grades.len();
    if n == 0 {
        return PredictionResult {
            predicted_value: 0,
            confidence: 0,
            lower_bound: 0,
            upper_bound: 0,
            method: String::from_str("none"),
        };
    }
    if n == 1 {
        proof {
            assert(grade_ok(grades@[0]));
        }
        let v: i64 = grades[0].value;
        let lo: i64 = if v - SCALE >= SCALE {
            v - SCALE
        } else {
            SCALE
        };
        let hi: i64 = if v + SCALE <= 10 * SCALE {
            v + SCALE
        } else {
            10 * SCALE
        };
        return PredictionResult {
            predicted_value: v,
            confidence: 2000,
            lower_bound: lo,
            upper_bound: hi,
            method: String::from_str("single_value"),
        };
    }
    let trips: Vec<(i64, i64, i64)> = trips_vec(grades);
    let t: Vec<(i64, i64, i64)> = sorted_by_ts(&trips);
    proof {
        lemma_trips_of_ok(grades@);
    }
    let tp: (i64, i64) = predict_from_trend(&t);
    let ep: (i64, i64) = predict_from_ema(&t);
    let rp: (i64, i64) = predict_from_regression(&t);
    let tw: i64 = if n >= 5 {
        4000
    } else {
        2000
    };
    let ew: i64 = 3000;
    let rw: i64 = SCALE - tw - ew;
    proof {
        assert(-10_000_000_000_000_0000int <= (tp.0 as int) * (tw as int)
            <= 10_000_000_000_000_0000int) by (nonlinear_arith)
            requires -10_000_000 <= tp.0 as int <= 10_000_000 && 0 <= tw as int <= 10000,
        ;
        assert(-10_000_000_000_000_0000int <= (ep.0 as int) * (ew as int)
            <= 10_000_000_000_000_0000int) by (nonlinear_arith)
            requires -10_000_000 <= ep.0 as int <= 10_000_000 && 0 <= ew as int <= 10000,
        ;
        assert(-10_000_000_000_000_0000int <= (rp.0 as int) * (rw as int)
            <= 10_000_000_000_000_0000int) by (nonlinear_arith)
            requires -10_000_000 <= rp.0 as int <= 10_000_000 && 0 <= rw as int <= 10000,
        ;
        lemma_tdiv_abs(
            (tp.0 as int) * (tw as int) + (ep.0 as int) * (ew as int) + (rp.0 as int)
                * (rw as int),
            SCALE as int,
        );
    }
    let combined: i64 = divt64(tp.0 * tw + ep.0 * ew + rp.0 * rw, SCALE);
    proof {
        lemma_tdiv_nonneg(tp.1 as int + ep.1 as int + rp.1 as int, 3);
    }
    let avg_conf: i64 = divt64(tp.1 + ep.1 + rp.1, 3);
    proof {
        lemma_tvals_ok(t@);
    }
    let values: Vec<i64> = vals_vec(&t);
    let sd: i64 = calculate_std_deviation(&values);
    proof {
        lemma_mean_fx_ok(values@);
        lemma_variance_about_bounds(values@, mean_fx(values@));
        let v = variance_fx(values@);
        assert(v * SCALE <= 4 * VAL_BOUND as int * VAL_BOUND as int * SCALE) by (nonlinear_arith)
            requires 0 <= v <= 4 * VAL_BOUND as int * VAL_BOUND as int && SCALE as int == 10000,
        ;
        assert(is_sqrt(v * SCALE, sd as int));
        assert(sd as int <= 3_000_000_000int) by (nonlinear_arith)
            requires
                (sd as int) * (sd as int) <= v * SCALE,
                v * SCALE <= 4 * 10_000_000int * 10_000_000int * 10000,
                sd as int >= 0,
        ;
    }
    let lower: i64 = if combined - 2 * sd >= SCALE {
        combined - 2 * sd
    } else {
        SCALE
    };
    let upper: i64 = if combined + 2 * sd <= 10 * SCALE {
        combined + 2 * sd
    } else {
        10 * SCALE
    };
    let pv: i64 = clamp64(combined, SCALE, 10 * SCALE);
    PredictionResult {
        predicted_value: pv,
        confidence: avg_conf,
        lower_bound: lower,
        upper_bound: upper,
        method: String::from_str("ensemble"),
    }
}

/// For any nonempty history of valid grades (values within 1..=10), the
/// ensemble's point estimate stays within the grade range and its
/// confidence within zero and one.
pub proof fn lemma_prediction_in_range(r: PredictionResult, s: Seq<Grade>)
    requires
        is_ensemble_prediction(r, s),
        s.len() >= 1,
        forall|i: int| 0 <= i < s.len() ==> SCALE as int <= (#[trigger] s[i]).value as int <= 10
            * SCALE as int,
    ensures
        SCALE as int <= r.predicted_value as int <= 10 * SCALE as int,
        0 <= r.confidence as int <= SCALE as int,
{
    if s.len() == 1 {
        assert(SCALE as int <= s[0].value as int <= 10 * SCALE as int);
    } else {
        let t = st_of(s);
        let tp = trend_pred_fx(t);
        let ep = ema_pred_fx(t);
        let rp = reg_pred_fx(t);
        assert(0 <= tp.1 <= SCALE as int);
        assert(1000 <= ep.1 <= 9000);
        assert(rp.1 == 3000 || 1000 <= rp.1 <= 9000);
        lemma_tdiv_bracket_gen(tp.1 + ep.1 + rp.1, 3, 0, SCALE as int);
    }
}

/// The ensemble is a function of the input history alone: two results
/// pinned to the same history are identical in every numeric field and
/// label.
pub proof fn lemma_prediction_deterministic(
    r1: PredictionResult,
    r2: PredictionResult,
    s: Seq<Grade>,
)
    requires
        is_ensemble_prediction(r1, s),
        is_ensemble_prediction(r2, s),
    ensures
        r1.predicted_value == r2.predicted_value,
        r1.confidence == r2.confidence,
        r1.lower_bound == r2.lower_bound,
        r1.upper_bound == r2.upper_bound,
        r1.method@ == r2.method@,
{
}

/// The grade needed for one target, with its feasibility; a non-positive
/// weight admits no solution.
#[derive(Clone, Copy, Debug, PartialEq)]
pub struct GradeNeeded {
    pub target_average: i64,
    pub grade_needed: i64,
    pub weight: i64,
    pub achievable: bool,
}

/// One row of the impact curve: a hypothetical grade, the average it would
/// produce, and the change it causes.
#[derive(Clone, Copy, Debug, PartialEq)]
pub struct ImpactEntry {
    pub hypothetical_grade: i64,
    pub resulting_average: i64,
    pub impact: i64,
}

/// Result of a what-if scenario.
#[derive(Clone, Debug)]
pub struct WhatIfResult {
    pub current_average: i64,
    pub new_average: i64,
    pub change: i64,
    pub change_percent: i64,
    pub grades_needed_for_target: Vec<GradeNeeded>,
    pub impact_analysis: Vec<ImpactEntry>,
}

/// The weighted average used by the scenario engine: value-weight products
/// over the total weight, zero when the total weight is zero.
pub open spec fn scen_avg(sum_vw: int, sum_w: int) -> int {
    if sum_w > 0 {
        tdiv(sum_vw, sum_w)
    } else {
        0
    }
}

/// The hypothetical grade of impact-curve row `j` (1.0 to 10.0 in steps of
/// one half).
pub open spec fn impact_grade(j: int) -> int {
    SCALE + j * 5000
}

/// The impact-curve row for hypothetical grade `g` against a current
/// weighted state.
pub open spec fn impact_entry_fx(ca: int, cw: int, nw: int, j: int) -> (int, int) {
    let g = impact_grade(j);
    let tw2 = cw + nw;
    let resulting = if tw2 > 0 {
        tdiv(ca * cw + g * nw, tw2)
    } else {
        0
    };
    (resulting, resulting - ca)
}

/// The impact curve of 19 entries is pinned to its mirror.
pub open spec fn impact_entries_ok(r: Seq<ImpactEntry>, ca: int, cw: int, nw: int) -> bool {
    r.len() == 19 && (forall|j: int|
        0 <= j < 19 ==> (#[trigger] r[j]).hypothetical_grade as int == impact_grade(j)
            && r[j].resulting_average as int == impact_entry_fx(ca, cw, nw, j).0
            && r[j].impact as int == impact_entry_fx(ca, cw, nw, j).1)
}

/// Build the 19-row impact curve against a current weighted state.
fn generate_impact_entries(ca: i64, cw: i64, nw: i64) -> (r: Vec<ImpactEntry>)
    requires
        fx_ok(ca as int),
        0 <= cw <= 200_000_000_000,
        0 <= nw <= VAL_BOUND,
    ensures
        impact_entries_ok(r@, ca as int, cw as int, nw as int),
        forall|j: int| 0 <= j < r@.len() ==> fx_ok((#[trigger] r@[j]).resulting_average as int),
{
    let mut r: Vec<ImpactEntry> = Vec::new();
    let mut j: usize = 0;
    let tw2: i64 = cw + nw;
    while j < 19
        invariant
            fx_ok(ca as int),
            0 <= cw <= 200_000_000_000,
            0 <= nw <= VAL_BOUND,
            tw2 == cw + nw,
            0 <= j <= 19,
            r@.len() == j,
            forall|k: int| 0 <= k < j ==> (#[trigger] r@[k]).hypothetical_grade as int
                == impact_grade(k) && r@[k].resulting_average as int == impact_entry_fx(
                ca as int,
                cw as int,
                nw as int,
                k,
            ).0 && r@[k].impact as int == impact_entry_fx(ca as int, cw as int, nw as int, k).1,
            forall|k: int| 0 <= k < j ==> fx_ok((#[trigger] r@[k]).resulting_average as int),
        decreases 19 - j,
    {
        let g: i64 = SCALE + (j as i64) * 5000;
        let resulting: i64 = if tw2 > 0 {
            proof {
                assert(-2_000_000_000_000_000_000int <= (ca as int) * (cw as int)
                    <= 2_000_000_000_000_000_000int) by (nonlinear_arith)
                    requires
                        -10_000_000 <= ca as int <= 10_000_000,
                        0 <= cw as int <= 200_000_000_000int,
                ;
                assert(-1_000_000_000_000_0000int <= (g as int) * (nw as int)
                    <= 1_000_000_000_000_0000int) by (nonlinear_arith)
                    requires 0 <= g as int <= 100_000 && 0 <= nw as int <= 10_000_000,
                ;
                assert((ca as int) * (cw as int) + (g as int) * (nw as int)
                    <= (VAL_BOUND as int) * (tw2 as int)) by (nonlinear_arith)
                    requires
                        -(VAL_BOUND as int) <= ca as int <= VAL_BOUND as int,
                        0 <= g as int <= VAL_BOUND as int,
                        0 <= cw as int,
                        0 <= nw as int,
                        tw2 as int == cw as int + nw as int,
                ;
                assert((-(VAL_BOUND as int)) * (tw2 as int) <= (ca as int) * (cw as int) + (
                g as int) * (nw as int)) by (nonlinear_arith)
                    requires
                        -(VAL_BOUND as int) <= ca as int <= VAL_BOUND as int,
                        0 <= g as int <= VAL_BOUND as int,
                        0 <= cw as int,
                        0 <= nw as int,
                        tw2 as int == cw as int + nw as int,
                ;
                lemma_tdiv_bracket_gen(
                    (ca as int) * (cw as int) + (g as int) * (nw as int),
                    tw2 as int,
                    -VAL_BOUND as int,
                    VAL_BOUND as int,
                );
            }
            divt128((ca as i128) * (cw as i128) + (g as i128) * (nw as i128), tw2 as i128) as i64
        } else {
            0
        };
        r.push(ImpactEntry { hypothetical_grade: g, resulting_average: resulting, impact: resulting - ca });
        j = j + 1;
    }
    r
}

/// The six fixed what-if targets (5.5 to 8.0 in steps of one half).
pub open spec fn whatif_target(j: int) -> int {
    55000 + j * 5000
}

/// The grade-needed row of a what-if scenario for target index `j`.
pub open spec fn whatif_needed_fx(na: int, ntw: int, dw: int, j: int) -> (int, bool) {
    let target = whatif_target(j);
    if dw > 0 {
        let gn = grade_needed_fx(na, ntw, target, dw);
        (gn, SCALE as int <= gn <= 10 * SCALE as int)
    } else {
        (0int, false)
    }
}

/// Whether a what-if result is pinned to the scenario mirrors.
pub open spec fn is_whatif_result(r: WhatIfResult, s: Seq<Grade>, h: Seq<Grade>) -> bool {
    if s.len() == 0 && h.len() == 0 {
        r.current_average == 0 && r.new_average == 0 && r.change == 0 && r.change_percent == 0
            && r.grades_needed_for_target@.len() == 0 && r.impact_analysis@.len() == 0
    } else {
        let ca = scen_avg(sum_gvw(s), sum_gw(s));
        let na = scen_avg(sum_gvw(s) + sum_gvw(h), sum_gw(s) + sum_gw(h));
        let dw = if h.len() > 0 {
            h[0].weight as int
        } else {
            SCALE as int
        };
        let ntw = sum_gw(s) + sum_gw(h);
        &&& r.current_average == ca
        &&& r.new_average == na
        &&& r.change == na - ca
        &&& r.change_percent as int == (if ca > 0 {
            tdiv((na - ca) * 100 * SCALE, ca)
        } else {
            0int
        })
        &&& r.grades_needed_for_target@.len() == 6
        &&& (forall|j: int|
            0 <= j < 6 ==> (#[trigger] r.grades_needed_for_target@[j]).target_average as int
                == whatif_target(j) && r.grades_needed_for_target@[j].grade_needed as int
                == whatif_needed_fx(na, ntw, dw, j).0 && r.grades_needed_for_target@[j].weight
                as int == dw && r.grades_needed_for_target@[j].achievable == whatif_needed_fx(
                na,
                ntw,
                dw,
                j,
            ).1)
        &&& impact_entries_ok(r.impact_analysis@, na, ntw, dw)
    }
}

/// What-if analysis: the averages before and after hypothetical grades, the
/// change they cause, the grades needed for the fixed targets, and the
/// impact curve.
pub fn calculate_whatif(grades: &Vec<Grade>, hypothetical: &Vec<Grade>) -> (r: WhatIfResult)
    requires
        grades_ok(grades@),
        grades_ok(hypothetical@),
    ensures
        is_whatif_result(r, grades@, hypothetical@),
{
    let n: usize = grades.len();
    let m: usize = hypothetical.len();
    if n == 0 && m == 0 {
        return WhatIfResult {
            current_average: 0,
            new_average: 0,
            change: 0,
            change_percent: 0,
            grades_needed_for_target: Vec::new(),
            impact_analysis: Vec::new(),
        };
    }
    let gs = crate::grades::grade_sums(grades);
    let hs = crate::grades::grade_sums(hypothetical);
    proof {
        lemma_grade_sums_bounds(grades@);
        lemma_grade_sums_bounds(hypothetical@);
    }
    let ca: i64 = if gs.1 > 0 {
        proof {
            assert((-(VAL_BOUND as int)) * sum_gw(grades@) == -((VAL_BOUND as int) * sum_gw(
                grades@,
            ))) by (nonlinear_arith);
            lemma_tdiv_bracket_gen(
                sum_gvw(grades@),
                sum_gw(grades@),
                -VAL_BOUND as int,
                VAL_BOUND as int,
            );
        }
        divt128(gs.2, gs.1 as i128) as i64
    } else {
        0
    };
    let ntw: i64 = gs.1 + hs.1;
    let nsum: i128 = gs.2 + hs.2;
    let na: i64 = if ntw > 0 {
        proof {
            assert(sum_gvw(grades@) + sum_gvw(hypothetical@) <= (VAL_BOUND as int) * (sum_gw(
                grades@,
            ) + sum_gw(hypothetical@))) by (nonlinear_arith)
                requires
                    sum_gvw(grades@) <= (VAL_BOUND as int) * sum_gw(grades@),
                    sum_gvw(hypothetical@) <= (VAL_BOUND as int) * sum_gw(hypothetical@),
            ;
            assert((-(VAL_BOUND as int)) * (sum_gw(grades@) + sum_gw(hypothetical@)) <= sum_gvw(
                grades@,
            ) + sum_gvw(hypothetical@)) by (nonlinear_arith)
                requires
                    -((VAL_BOUND as int) * sum_gw(grades@)) <= sum_gvw(grades@),
                    -((VAL_BOUND as int) * sum_gw(hypothetical@)) <= sum_gvw(hypothetical@),
            ;
            lemma_tdiv_bracket_gen(
                sum_gvw(grades@) + sum_gvw(hypothetical@),
                sum_gw(grades@) + sum_gw(hypothetical@),
                -VAL_BOUND as int,
                VAL_BOUND as int,
            );
        }
        divt128(nsum, ntw as i128) as i64
    } else {
        0
    };
    let change: i64 = na - ca;
    let change_percent: i64 = if ca > 0 {
        proof {
            assert(-20_000_000_000_000_000_000_000int <= (change as int) * 100 * (SCALE as int)
                <= 20_000_000_000_000_000_000_000int) by (nonlinear_arith)
                requires -20_000_000 <= change as int <= 20_000_000 && SCALE as int == 10000,
            ;
            lemma_tdiv_abs((change as int) * 100 * (SCALE as int), ca as int);
        }
        divt128((change as i128) * 100 * (SCALE as i128), ca as i128) as i64
    } else {
        0
    };
    let dw: i64 = if m > 0 {
        proof {
            assert(grade_ok(hypothetical@[0]));
        }
        hypothetical[0].weight
    } else {
        SCALE
    };
    let mut needed: Vec<GradeNeeded> = Vec::new();
    let mut j: usize = 0;
    while j < 6
        invariant
            fx_ok(na as int),
            0 <= ntw <= 200_000_000_000,
            0 <= dw <= VAL_BOUND,
            0 <= j <= 6,
            needed@.len() == j,
            forall|k: int| 0 <= k < j ==> (#[trigger] needed@[k]).target_average as int
                == whatif_target(k) && needed@[k].grade_needed as int == whatif_needed_fx(
                na as int,
                ntw as int,
                dw as int,
                k,
            ).0 && needed@[k].weight == dw && needed@[k].achievable == whatif_needed_fx(
                na as int,
                ntw as int,
                dw as int,
                k,
            ).1,
        decreases 6 - j,
    {
        let target: i64 = 55000 + (j as i64) * 5000;
        let row: GradeNeeded = if dw > 0 {
            let gn: i64 = predict_grade_needed(na, ntw, target, dw);
            GradeNeeded {
                target_average: target,
                grade_needed: gn,
                weight: dw,
                achievable: SCALE <= gn && gn <= 10 * SCALE,
            }
        } else {
            GradeNeeded { target_average: target, grade_needed: 0, weight: dw, achievable: false }
        };
        needed.push(row);
        j = j + 1;
    }
    let impact: Vec<ImpactEntry> = generate_impact_entries(na, ntw, dw);
    WhatIfResult {
        current_average: ca,
        new_average: na,
        change,
        change_percent,
        grades_needed_for_target: needed,
        impact_analysis: impact,
    }
}

/// The case-folded subject grades' weighted state: (count, weight sum,
/// value-weight sum).
pub open spec fn subject_state(s: Seq<Grade>, key: Seq<char>) -> (int, int, int) {
    let f = crate::grades::filter_subject(s, key);
    (f.len() as int, sum_gw(f), sum_gvw(f))
}

/// Impact analysis for one subject: with no grades of the subject, each row
/// echoes the hypothetical grade with zero impact; otherwise the impact
/// curve against the subject's weighted state (average zero when the
/// subject's weights sum to zero).
pub fn generate_impact_analysis(grades: &Vec<Grade>, subject: &str, weight: i64) -> (r: Vec<
    ImpactEntry,
>)
    requires
        grades_ok(grades@),
        0 <= weight <= VAL_BOUND,
    ensures
        ({
            let st = subject_state(grades@, crate::grades::lower_of(subject@));
            if st.0 == 0 {
                r@.len() == 19 && (forall|j: int|
                    0 <= j < 19 ==> (#[trigger] r@[j]).hypothetical_grade as int == impact_grade(
                        j,
                    ) && r@[j].resulting_average as int == impact_grade(j) && r@[j].impact == 0)
            } else {
                impact_entries_ok(r@, scen_avg(st.2, st.1), st.1, weight as int)
            }
        }),
{
    let f: Vec<Grade> = crate::grades::filter_by_subject(grades, subject);
    proof {
        crate::grades::lemma_filter_subject_ok(grades@, crate::grades::lower_of(subject@));
        crate::grades::lemma_sums_by_views(
            f@,
            crate::grades::filter_subject(grades@, crate::grades::lower_of(subject@)),
        );
    }
    if f.len() == 0 {
        let mut r: Vec<ImpactEntry> = Vec::new();
        let mut j: usize = 0;
        while j < 19
            invariant
                0 <= j <= 19,
                r@.len() == j,
                forall|k: int| 0 <= k < j ==> (#[trigger] r@[k]).hypothetical_grade as int
                    == impact_grade(k) && r@[k].resulting_average as int == impact_grade(k)
                    && r@[k].impact == 0,
            decreases 19 - j,
        {
            let g: i64 = SCALE + (j as i64) * 5000;
            r.push(ImpactEntry { hypothetical_grade: g, resulting_average: g, impact: 0 });
            j = j + 1;
        }
        return r;
    }
    let sums = crate::grades::grade_sums(&f);
    proof {
        lemma_grade_sums_bounds(f@);
    }
    let ca: i64 = if sums.1 > 0 {
        proof {
            assert((-(VAL_BOUND as int)) * sum_gw(f@) == -((VAL_BOUND as int) * sum_gw(f@)))
                by (nonlinear_arith);
            lemma_tdiv_bracket_gen(sum_gvw(f@), sum_gw(f@), -VAL_BOUND as int, VAL_BOUND as int);
        }
        divt128(sums.2, sums.1 as i128) as i64
    } else {
        0
    };
    generate_impact_entries(ca, sums.1, weight)
}

/// The grade-needed row for one queried target against a subject's state.
pub open spec fn target_needed_fx(ca: int, cw: int, w: int, target: int) -> (int, bool) {
    if w > 0 {
        let gn = grade_needed_fx(ca, cw, target, w);
        (gn, SCALE as int <= gn <= 10 * SCALE as int)
    } else {
        (0int, false)
    }
}

/// Grades needed to reach each queried target in one subject
/// (case-insensitive): with no grades of the subject, exactly the target is
/// needed; a non-positive weight admits no solution.
pub fn calculate_grades_for_targets(
    grades: &Vec<Grade>,
    subject: &str,
    weight: i64,
    targets: &Vec<i64>,
) -> (r: Vec<GradeNeeded>)
    requires
        grades_ok(grades@),
        0 <= weight <= VAL_BOUND,
        vals_ok(targets@),
    ensures
        r@.len() == targets@.len(),
        ({
            let st = subject_state(grades@, crate::grades::lower_of(subject@));
            if st.0 == 0 {
                forall|j: int|
                    0 <= j < r@.len() ==> (#[trigger] r@[j]).target_average == targets@[j]
                        && r@[j].grade_needed == targets@[j] && r@[j].weight == weight
                        && r@[j].achievable == (SCALE as int <= targets@[j] as int <= 10
                        * SCALE as int)
            } else {
                forall|j: int|
                    0 <= j < r@.len() ==> (#[trigger] r@[j]).target_average == targets@[j]
                        && r@[j].grade_needed as int == target_needed_fx(
                        scen_avg(st.2, st.1),
                        st.1,
                        weight as int,
                        targets@[j] as int,
                    ).0 && r@[j].weight == weight && r@[j].achievable == target_needed_fx(
                        scen_avg(st.2, st.1),
                        st.1,
                        weight as int,
                        targets@[j] as int,
                    ).1
            }
        }),
{
    let f: Vec<Grade> = crate::grades::filter_by_subject(grades, subject);
    proof {
        crate::grades::lemma_filter_subject_ok(grades@, crate::grades::lower_of(subject@));
        crate::grades::lemma_sums_by_views(
            f@,
            crate::grades::filter_subject(grades@, crate::grades::lower_of(subject@)),
        );
    }
    let nt: usize = targets.len();
    let mut r: Vec<GradeNeeded> = Vec::new();
    if f.len() == 0 {
        let mut j: usize = 0;
        while j < nt
            invariant
                nt == targets@.len(),
                vals_ok(targets@),
                0 <= j <= nt,
                r@.len() == j,
                forall|k: int| 0 <= k < j ==> (#[trigger] r@[k]).target_average == targets@[k]
                    && r@[k].grade_needed == targets@[k] && r@[k].weight == weight
                    && r@[k].achievable == (SCALE as int <= targets@[k] as int <= 10
                    * SCALE as int),
            decreases nt - j,
        {
            let t: i64 = targets[j];
            r.push(GradeNeeded {
                target_average: t,
                grade_needed: t,
                weight,
                achievable: SCALE <= t && t <= 10 * SCALE,
            });
            j = j + 1;
        }
        return r;
    }
    let sums = crate::grades::grade_sums(&f);
    proof {
        lemma_grade_sums_bounds(f@);
    }
    let ca: i64 = if sums.1 > 0 {
        proof {
            assert((-(VAL_BOUND as int)) * sum_gw(f@) == -((VAL_BOUND as int) * sum_gw(f@)))
                by (nonlinear_arith);
            lemma_tdiv_bracket_gen(sum_gvw(f@), sum_gw(f@), -VAL_BOUND as int, VAL_BOUND as int);
        }
        divt128(sums.2, sums.1 as i128) as i64
    } else {
        0
    };
    let cw: i64 = sums.1;
    let mut j: usize = 0;
    while j < nt
        invariant
            nt == targets@.len(),
            vals_ok(targets@),
            fx_ok(ca as int),
            0 <= cw <= 100_000_000_000,
            0 <= weight <= VAL_BOUND,
            cw as int == subject_state(grades@, crate::grades::lower_of(subject@)).1,
            ca as int == scen_avg(
                subject_state(grades@, crate::grades::lower_of(subject@)).2,
                subject_state(grades@, crate::grades::lower_of(subject@)).1,
            ),
            0 <= j <= nt,
            r@.len() == j,
            forall|k: int| 0 <= k < j ==> (#[trigger] r@[k]).target_average == targets@[k]
                && r@[k].grade_needed as int == target_needed_fx(
                ca as int,
                cw as int,
                weight as int,
                targets@[k] as int,
            ).0 && r@[k].weight == weight && r@[k].achievable == target_needed_fx(
                ca as int,
                cw as int,
                weight as int,
                targets@[k] as int,
            ).1,
        decreases nt - j,
    {
        proof {
            assert(fx_ok(targets@[j as int] as int));
        }
        let t: i64 = targets[j];
        let row: GradeNeeded = if weight > 0 {
            let gn: i64 = predict_grade_needed(ca, cw, t, weight);
            GradeNeeded {
                target_average: t,
                grade_needed: gn,
                weight,
                achievable: SCALE <= gn && gn <= 10 * SCALE,
            }
        } else {
            GradeNeeded { target_average: t, grade_needed: 0, weight, achievable: false }
        };
        r.push(row);
        j = j + 1;
    }
    r
}

/// The ensemble's point estimate as a total function of the history.
pub open spec fn ens_value_fx(s: Seq<Grade>) -> int {
    if s.len() == 0 {
        0
    } else if s.len() == 1 {
        s[0].value as int
    } else {
        tclamp(ensemble_raw_fx(s), SCALE as int, 10 * SCALE as int)
    }
}

/// The ensemble's confidence as a total function of the history.
pub open spec fn ens_conf_fx(s: Seq<Grade>) -> int {
    if s.len() == 0 {
        0
    } else if s.len() == 1 {
        2000
    } else {
        ensemble_conf_fx(s)
    }
}

/// Whether a final-grade projection is pinned to its mirrors.
pub open spec fn is_final_projection(
    r: PredictionResult,
    s: Seq<Grade>,
    remaining: int,
    tw: int,
) -> bool {
    if s.len() == 0 {
        r.predicted_value == 0 && r.confidence == 0 && r.lower_bound == 0 && r.upper_bound == 0
            && r.method@ == "none"@
    } else {
        let fw = remaining * tw;
        let totw = sum_gw(s) + fw;
        let pf = if totw > 0 {
            tdiv(sum_gvw(s) + ens_value_fx(s) * fw, totw)
        } else {
            0int
        };
        let adj = tdiv((SCALE as int) * (SCALE as int), SCALE + remaining * 1000);
        &&& r.predicted_value as int == tclamp(pf, SCALE as int, 10 * SCALE as int)
        &&& r.confidence as int == tdiv(ens_conf_fx(s) * adj, SCALE as int)
        &&& r.lower_bound as int == (if pf - SCALE >= SCALE { pf - SCALE } else { SCALE as int })
        &&& r.upper_bound as int == (if pf + SCALE <= 10 * SCALE {
            pf + SCALE
        } else {
            10 * SCALE as int
        })
        &&& r.method@ == "final_projection"@
    }
}

/// Project the final grade: blend the current weighted sum with the
/// ensemble's next-grade estimate applied to the remaining assessments, and
/// damp the confidence by how many assessments remain.
pub fn predict_final_grade(
    current_grades: &Vec<Grade>,
    remaining_assessments: usize,
    typical_weight: i64,
) -> (r: PredictionResult)
    requires
        grades_ok(current_grades@),
        remaining_assessments <= LEN_BOUND,
        0 <= typical_weight <= VAL_BOUND,
    ensures
        is_final_projection(
            r,
            current_grades@,
            remaining_assessments as int,
            typical_weight as int,
        ),
{
    let n: usize = current_grades.len();
    if n == 0 {
        return PredictionResult {
            predicted_value: 0,
            confidence: 0,
            lower_bound: 0,
            upper_bound: 0,
            method: String::from_str("none"),
        };
    }
    let pred: PredictionResult = predict_next_grade(current_grades);
    let sums = crate::grades::grade_sums(current_grades);
    proof {
        lemma_grade_sums_bounds(current_grades@);
        if current_grades@.len() == 1 {
            assert(grade_ok(current_grades@[0]));
        }
        assert(0 <= (remaining_assessments as int) * (typical_weight as int)
            <= 100_000_000_000int) by (nonlinear_arith)
            requires
                0 <= remaining_assessments as int <= 10000,
                0 <= typical_weight as int <= 10_000_000,
        ;
    }
    let fw: i64 = (remaining_assessments as i64) * typical_weight;
    proof {
        assert(fx_ok(pred.predicted_value as int));
        assert(-1_000_000_000_000_000_000int <= (pred.predicted_value as int) * (fw as int)
            <= 1_000_000_000_000_000_000int) by (nonlinear_arith)
            requires
                -10_000_000 <= pred.predicted_value as int <= 10_000_000,
                0 <= fw as int <= 100_000_000_000int,
        ;
    }
    let fs: i128 = (pred.predicted_value as i128) * (fw as i128);
    let totw: i64 = sums.1 + fw;
    let pf: i64 = if totw > 0 {
        proof {
            lemma_tdiv_abs(sum_gvw(current_grades@) + (pred.predicted_value as int) * (fw as int),
                totw as int);
        }
        divt128(sums.2 + fs, totw as i128) as i64
    } else {
        0
    };
    proof {
        assert(0 <= (remaining_assessments as int) * 1000 <= 10_000_000int) by (nonlinear_arith)
            requires 0 <= remaining_assessments as int <= 10000,
        ;
        lemma_tdiv_nonneg(
            (SCALE as int) * (SCALE as int),
            SCALE as int + (remaining_assessments as int) * 1000,
        );
        assert((SCALE as int) * (SCALE as int) <= (SCALE as int) * (SCALE as int
            + (remaining_assessments as int) * 1000)) by (nonlinear_arith)
            requires 0 <= (remaining_assessments as int) * 1000 && SCALE as int == 10000,
        ;
        lemma_tdiv_bracket_gen(
            (SCALE as int) * (SCALE as int),
            SCALE as int + (remaining_assessments as int) * 1000,
            0,
            SCALE as int,
        );
    }
    let adj: i64 = divt64(SCALE * SCALE, SCALE + (remaining_assessments as i64) * 1000);
    proof {
        assert(pred.confidence as int == ens_conf_fx(current_grades@));
        assert(0 <= ens_conf_fx(current_grades@) <= SCALE as int) by {
            if current_grades@.len() >= 2 {
                let t = st_of(current_grades@);
                lemma_trips_of_ok(current_grades@);
                assert(0 <= trend_pred_fx(t).1 <= SCALE as int);
                assert(1000 <= ema_pred_fx(t).1 <= 9000);
                assert(reg_pred_fx(t).1 == 3000 || 1000 <= reg_pred_fx(t).1 <= 9000);
                lemma_tdiv_bracket_gen(
                    trend_pred_fx(t).1 + ema_pred_fx(t).1 + reg_pred_fx(t).1,
                    3,
                    0,
                    SCALE as int,
                );
            }
        }
        assert(0 <= (pred.confidence as int) * (adj as int) <= 100_000_000int)
            by (nonlinear_arith)
            requires 0 <= pred.confidence as int <= 10000 && 0 <= adj as int <= 10000,
        ;
        lemma_tdiv_nonneg((pred.confidence as int) * (adj as int), SCALE as int);
    }
    let conf: i64 = divt64(pred.confidence * adj, SCALE);
    let lower: i64 = if pf - SCALE >= SCALE {
        pf - SCALE
    } else {
        SCALE
    };
    let upper: i64 = if pf + SCALE <= 10 * SCALE {
        pf + SCALE
    } else {
        10 * SCALE
    };
    let pv: i64 = clamp64(pf, SCALE, 10 * SCALE);
    PredictionResult {
        predicted_value: pv,
        confidence: conf,
        lower_bound: lower,
        upper_bound: upper,
        method: String::from_str("final_projection"),
    }
}

/// The fixed-point growth factor per whole unit of the exponential curve.
pub const E_FX: i64 = 27_183;

/// Repeated fixed-point multiplication by the growth factor: the
/// exponential of a whole number of units.
pub open spec fn exp_int_fx(k: int) -> int
    decreases k,
{
    if k <= 0 {
        SCALE as int
    } else {
        tdiv(exp_int_fx(k - 1) * E_FX, SCALE as int)
    }
}

/// Cubic fixed-point approximation of the exponential on `[0, 1)`.
pub open spec fn exp_frac_fx(f: int) -> int {
    SCALE + f + tdiv(f * f, 2 * SCALE as int) + tdiv(tdiv(f * f, SCALE as int) * f, 6
        * SCALE as int)
}

/// The fixed-point exponential of a nonnegative argument.
pub open spec fn exp_nonneg_fx(d: int) -> int {
    tdiv(exp_int_fx(d / (SCALE as int)) * exp_frac_fx(d % (SCALE as int)), SCALE as int)
}

/// The fixed-point exponential (reciprocal for negative arguments).
pub open spec fn exp_fx(d: int) -> int {
    if d >= 0 {
        exp_nonneg_fx(d)
    } else {
        tdiv((SCALE as int) * (SCALE as int), exp_nonneg_fx(-d))
    }
}

/// One multiplication step of the whole-unit exponential at least keeps,
/// and at most triples, the value.
proof fn lemma_exp_int_step(e: int)
    requires
        SCALE as int <= e,
    ensures
        SCALE as int <= tdiv(e * E_FX, SCALE as int) <= 3 * e,
{
    assert((SCALE as int) * (SCALE as int) <= e * (E_FX as int)) by (nonlinear_arith)
        requires SCALE as int <= e && E_FX as int == 27_183 && SCALE as int == 10000,
    ;
    assert(e * (E_FX as int) <= (3 * e) * (SCALE as int)) by (nonlinear_arith)
        requires SCALE as int <= e && E_FX as int == 27_183 && SCALE as int == 10000,
    ;
    lemma_tdiv_bracket_gen(e * E_FX, SCALE as int, SCALE as int, 3 * e);
}

/// Bounds on the whole-unit exponential for small exponents.
pub proof fn lemma_exp_int_bounds(k: int)
    requires
        0 <= k <= 5,
    ensures
        SCALE as int <= exp_int_fx(k) <= 2_430_000int,
{
    assert(exp_int_fx(0) == SCALE as int);
    lemma_exp_int_step(exp_int_fx(0));
    assert(SCALE as int <= exp_int_fx(1) <= 30_000int);
    lemma_exp_int_step(exp_int_fx(1));
    assert(SCALE as int <= exp_int_fx(2) <= 90_000int);
    lemma_exp_int_step(exp_int_fx(2));
    assert(SCALE as int <= exp_int_fx(3) <= 270_000int);
    lemma_exp_int_step(exp_int_fx(3));
    assert(SCALE as int <= exp_int_fx(4) <= 810_000int);
    lemma_exp_int_step(exp_int_fx(4));
    assert(SCALE as int <= exp_int_fx(5) <= 2_430_000int);
}

/// Bounds on the fractional exponential.
pub proof fn lemma_exp_frac_bounds(f: int)
    requires
        0 <= f < SCALE as int,
    ensures
        SCALE as int <= exp_frac_fx(f) <= 27_000int,
{
    assert(0 <= f * f <= 100_000_000int) by (nonlinear_arith)
        requires 0 <= f && f < 10000,
    ;
    lemma_tdiv_nonneg(f * f, 2 * SCALE as int);
    lemma_tdiv_nonneg(f * f, SCALE as int);
    lemma_tdiv_bracket_gen(f * f, 2 * SCALE as int, 0, 5000);
    lemma_tdiv_bracket_gen(f * f, SCALE as int, 0, 10000);
    let c = tdiv(f * f, SCALE as int);
    assert(0 <= c * f <= 100_000_000int) by (nonlinear_arith)
        requires 0 <= c <= 10000 && 0 <= f < 10000,
    ;
    lemma_tdiv_nonneg(c * f, 6 * SCALE as int);
    lemma_tdiv_bracket_gen(c * f, 6 * SCALE as int, 0, 1667);
}

/// Bounds on the fixed-point exponential over the clamped sigmoid domain.
pub proof fn lemma_exp_nonneg_bounds(d: int)
    requires
        0 <= d <= 5 * SCALE as int,
    ensures
        SCALE as int <= exp_nonneg_fx(d) <= 7_000_000int,
{
    let k = d / (SCALE as int);
    let f = d % (SCALE as int);
    vstd::arithmetic::div_mod::lemma_fundamental_div_mod(d, SCALE as int);
    assert(0 <= k <= 5) by (nonlinear_arith)
        requires
            d == (SCALE as int) * k + f,
            0 <= f < SCALE as int,
            0 <= d <= 5 * SCALE as int,
            SCALE as int == 10000,
    ;
    lemma_exp_int_bounds(k);
    lemma_exp_frac_bounds(f);
    let ei = exp_int_fx(k);
    let ef = exp_frac_fx(f);
    assert((SCALE as int) * (SCALE as int) <= ei * ef <= 2_430_000int * 27_000int)
        by (nonlinear_arith)
        requires
            SCALE as int <= ei <= 2_430_000int,
            SCALE as int <= ef <= 27_000int,
    ;
    lemma_tdiv_bracket_gen(ei * ef, SCALE as int, SCALE as int, 7_000_000int);
}

/// The fixed-point exponential, executable, over the clamped sigmoid
/// domain.
fn exp_fixed(d: i64) -> (r: i64)
    requires
        -5 * SCALE <= d <= 5 * SCALE,
    ensures
        r as int == exp_fx(d as int),
        0 <= r <= 7_000_000,
{
    if d >= 0 {
        exp_nonneg_fixed(d)
    } else {
        let e: i64 = exp_nonneg_fixed(-d);
        proof {
            lemma_exp_nonneg_bounds(-(d as int));
            lemma_tdiv_nonneg((SCALE as int) * (SCALE as int), e as int);
            lemma_tdiv_bracket_gen((SCALE as int) * (SCALE as int), e as int, 0, SCALE as int);
        }
        divt64(SCALE * SCALE, e)
    }
}

/// The nonnegative-argument fixed-point exponential, executable.
fn exp_nonneg_fixed(d: i64) -> (r: i64)
    requires
        0 <= d <= 5 * SCALE,
    ensures
        r as int == exp_nonneg_fx(d as int),
        SCALE as int <= r as int <= 7_000_000int,
{
    let k: i64 = d / SCALE;
    let f: i64 = d % SCALE;
    proof {
        lemma_exp_nonneg_bounds(d as int);
        assert(0 <= k <= 5);
        lemma_exp_int_bounds(k as int);
        lemma_exp_frac_bounds(f as int);
    }
    let mut ei: i64 = SCALE;
    let mut j: i64 = 0;
    while j < k
        invariant
            0 <= j <= k <= 5,
            ei as int == exp_int_fx(j as int),
            SCALE as int <= ei as int <= 2_430_000int,
        decreases k - j,
    {
        proof {
            lemma_exp_int_bounds(j as int + 1);
            lemma_exp_int_bounds(j as int);
            lemma_tdiv_nonneg((ei as int) * (E_FX as int), SCALE as int);
        }
        ei = divt64(ei * E_FX, SCALE);
        j = j + 1;
    }
    proof {
        assert(0 <= (f as int) * (f as int) <= 100_000_000int) by (nonlinear_arith)
            requires 0 <= f as int && (f as int) < 10000,
        ;
        lemma_tdiv_nonneg((f as int) * (f as int), 2 * SCALE as int);
        lemma_tdiv_nonneg((f as int) * (f as int), SCALE as int);
        lemma_tdiv_bracket_gen((f as int) * (f as int), SCALE as int, 0, 10000);
        let c = tdiv((f as int) * (f as int), SCALE as int);
        assert(0 <= c * (f as int) <= 100_000_000int) by (nonlinear_arith)
            requires 0 <= c <= 10000 && 0 <= f as int && (f as int) < 10000,
        ;
        lemma_tdiv_nonneg(c * (f as int), 6 * SCALE as int);
        lemma_tdiv_bracket_gen((f as int) * (f as int), 2 * SCALE as int, 0, 5000);
        lemma_tdiv_bracket_gen(c * (f as int), 6 * SCALE as int, 0, 1667);
    }
    let sq: i64 = divt64(f * f, 2 * SCALE);
    let c64: i64 = divt64(f * f, SCALE);
    let cu: i64 = divt64(c64 * f, 6 * SCALE);
    let ef: i64 = SCALE + f + sq + cu;
    proof {
        lemma_exp_frac_bounds(f as int);
        assert((SCALE as int) * (SCALE as int) <= (ei as int) * (ef as int) <= 2_430_000int
            * 27_000int) by (nonlinear_arith)
            requires
                SCALE as int <= ei as int <= 2_430_000int,
                SCALE as int <= ef as int <= 27_000int,
        ;
        lemma_tdiv_bracket_gen(
            (ei as int) * (ef as int),
            SCALE as int,
            SCALE as int,
            7_000_000int,
        );
    }
    divt64(ei * ef, SCALE)
}

/// Mirror of the pass probability: one half with no history; certainty when
/// at most a minimal grade is needed; impossibility when more than the
/// maximal grade is needed; otherwise a sigmoid of the (clamped) difficulty
/// of the needed grade relative to the current average.
pub open spec fn pass_probability_fx(s: Seq<Grade>, rw: int) -> int {
    if s.len() == 0 {
        5000
    } else {
        let ca = scen_avg(sum_gvw(s), sum_gw(s));
        let mn = tdiv((PASS_TARGET as int) * (sum_gw(s) + rw) - sum_gvw(s), rw);
        if mn <= SCALE as int {
            SCALE as int
        } else if mn > 10 * SCALE as int {
            0
        } else {
            let d = tclamp(tdiv(mn - ca, 2), -5 * SCALE as int, 5 * SCALE as int);
            tdiv((SCALE as int) * (SCALE as int), SCALE + exp_fx(d))
        }
    }
}

/// The fixed-point passing average used by the pass-probability estimate.
pub const PASS_TARGET: i64 = 55_000;

/// Probability of reaching a passing average, given the remaining weight:
/// a fixed-point value in `[0, 1]`.
pub fn calculate_pass_probability(grades: &Vec<Grade>, remaining_weight: i64) -> (r: i64)
    requires
        grades_ok(grades@),
        0 < remaining_weight <= 100_000_000_000,
    ensures
        r as int == pass_probability_fx(grades@, remaining_weight as int),
        0 <= r <= SCALE,
{
    let n: usize = grades.len();
    if n == 0 {
        return 5000;
    }
    let sums = crate::grades::grade_sums(grades);
    proof {
        lemma_grade_sums_bounds(grades@);
    }
    let ca: i64 = if sums.1 > 0 {
        proof {
            assert((-(VAL_BOUND as int)) * sum_gw(grades@) == -((VAL_BOUND as int) * sum_gw(
                grades@,
            ))) by (nonlinear_arith);
            lemma_tdiv_bracket_gen(
                sum_gvw(grades@),
                sum_gw(grades@),
                -VAL_BOUND as int,
                VAL_BOUND as int,
            );
        }
        divt128(sums.2, sums.1 as i128) as i64
    } else {
        0
    };
    proof {
        assert(0 <= (PASS_TARGET as int) * (sum_gw(grades@) + remaining_weight as int)
            <= 11_005_500_000_000_000int) by (nonlinear_arith)
            requires
                0 <= sum_gw(grades@) + remaining_weight as int <= 200_000_000_000int,
                PASS_TARGET as int == 55_000,
        ;
        lemma_tdiv_abs(
            (PASS_TARGET as int) * (sum_gw(grades@) + remaining_weight as int) - sum_gvw(grades@),
            remaining_weight as int,
        );
    }
    let total: i128 = (sums.1 as i128) + (remaining_weight as i128);
    let mn: i64 = divt128(
        (PASS_TARGET as i128) * total - sums.2,
        remaining_weight as i128,
    ) as i64;
    if mn <= SCALE {
        return SCALE;
    }
    if mn > 10 * SCALE {
        return 0;
    }
    proof {
        lemma_tdiv_abs(mn as int - ca as int, 2);
    }
    let draw: i64 = divt64(mn - ca, 2);
    let d: i64 = clamp64(draw, -5 * SCALE, 5 * SCALE);
    let e: i64 = exp_fixed(d);
    proof {
        lemma_tdiv_nonneg((SCALE as int) * (SCALE as int), SCALE as int + e as int);
        lemma_tdiv_bracket_gen(
            (SCALE as int) * (SCALE as int),
            SCALE as int + e as int,
            0,
            SCALE as int,
        );
    }
    divt64(SCALE * SCALE, SCALE + e)
}

/// The decimal digits of a nonnegative count.
pub open spec fn dec_chars(n: int) -> Seq<char>
    decreases n,
{
    if n < 10 {
        seq![crate::grades::dchar(n)]
    } else {
        dec_chars(n / 10).push(crate::grades::dchar(n % 10))
    }
}

/// Render a count in decimal.
fn render_count(n: usize) -> (r: String)
    requires
        n <= 100_000,
    ensures
        r@ == dec_chars(n as int),
    decreases n,
{
    if n < 10 {
        String::from_str(crate::grades::digit_str(n as i64))
    } else {
        let mut s: String = render_count(n / 10);
        s.append(crate::grades::digit_str((n % 10) as i64));
        s
    }
}

/// The mean value of a subject's grades (meaningful when nonempty).
pub open spec fn pr_avg(f: Seq<Grade>) -> int {
    tdiv(crate::grades::sum_gv(f), f.len() as int)
}

/// The failing count of a subject's grades.
pub open spec fn pr_fail(f: Seq<Grade>) -> int {
    f.len() - crate::grades::count_pass(f)
}

/// The mean of the last three values of a subject's grades (meaningful when
/// at least three).
pub open spec fn pr_recent(f: Seq<Grade>) -> int {
    tdiv(
        f[f.len() - 1].value + f[f.len() - 2].value + f[f.len() - 3].value,
        3,
    )
}

/// The study-priority score of a subject: lower averages, failing grades
/// and a recent decline all raise it.
pub open spec fn priority_score_fx(f: Seq<Grade>) -> int {
    (10 * SCALE as int - pr_avg(f)) * 10 + pr_fail(f) * 15 * SCALE + (if f.len() >= 3
        && pr_recent(f) < pr_avg(f) {
        10 * SCALE as int
    } else {
        0int
    })
}

/// The reason attached to a subject's priority recommendation.
pub open spec fn priority_reason_fx(f: Seq<Grade>) -> Seq<char> {
    if pr_avg(f) < 55000 {
        "Failing average - immediate attention needed"@
    } else if pr_fail(f) > 0 {
        dec_chars(pr_fail(f)) + " failing grade(s) affecting average"@
    } else if pr_avg(f) < 65000 {
        "Below target average - room for improvement"@
    } else if f.len() >= 3 && pr_recent(f) < pr_avg(f) - 5000 {
        "Recent decline detected"@
    } else {
        "Maintain current performance"@
    }
}

/// Some row of the priority list names the given subject.
pub open spec fn subject_appears(r: Seq<(String, i64, String)>, key: Seq<char>) -> bool {
    exists|j: int| 0 <= j < r.len() && (#[trigger] r[j]).0@ == key
}

/// One priority row is pinned to the mirrors of the subject it names (an
/// unmatched subject scores as an empty record).
pub open spec fn priority_entry_ok(e: (String, i64, String), gs: Seq<Grade>) -> bool {
    let f = crate::grades::filter_subject(gs, lower_of(e.0@));
    if f.len() == 0 {
        e.1 == 100 * SCALE as int && e.2@ == "Maintain current performance"@
    } else {
        e.1 as int == priority_score_fx(f) && e.2@ == priority_reason_fx(f)
    }
}

/// Study priorities: one (subject, score, reason) row per distinct subject,
/// in order of nonincreasing score.
pub fn suggest_priorities(grades: &Vec<Grade>) -> (r: Vec<(String, i64, String)>)
    requires
        grades_ok(grades@),
    ensures
        r@.len() == crate::summary::distinct_subjects(grades@).len(),
        forall|j: int| 0 <= j < r@.len() ==> priority_entry_ok(#[trigger] r@[j], grades@),
        forall|j1: int, j2: int|
            0 <= j1 < j2 < r@.len() ==> (#[trigger] r@[j1]).1 >= (#[trigger] r@[j2]).1,
        forall|k: int|
            0 <= k < crate::summary::distinct_subjects(grades@).len() ==> subject_appears(
                r@,
                #[trigger] crate::summary::distinct_subjects(grades@)[k],
            ),
{
    let keys: Vec<String> = crate::summary::distinct_subject_names(grades);
    let ghost dk = crate::summary::distinct_subjects(grades@);
    let m: usize = keys.len();
    let mut out: Vec<(String, i64, String)> = Vec::new();
    let mut i: usize = 0;
    while i < m
        invariant
            grades_ok(grades@),
            dk == crate::summary::distinct_subjects(grades@),
            m == keys@.len(),
            m == dk.len(),
            forall|j: int| 0 <= j < m ==> #[trigger] keys@[j]@ == dk[j],
            0 <= i <= m,
            out@.len() == i,
            forall|j: int| 0 <= j < out@.len() ==> priority_entry_ok(#[trigger] out@[j], grades@),
            forall|j1: int, j2: int|
                0 <= j1 < j2 < out@.len() ==> (#[trigger] out@[j1]).1 >= (#[trigger] out@[j2]).1,
            forall|k: int| 0 <= k < i ==> subject_appears(out@, #[trigger] dk[k]),
        decreases m - i,
    {
        let ghost key = lower_of(dk[i as int]);
        let ghost fs = crate::grades::filter_subject(grades@, key);
        let f: Vec<Grade> = crate::grades::filter_by_subject(grades, keys[i].as_str());
        proof {
            crate::grades::lemma_filter_subject_ok(grades@, key);
            crate::grades::lemma_sums_by_views(f@, fs);
            crate::summary::lemma_pass_by_views(f@, fs);
        }
        let n: usize = f.len();
        let score: i64 = if n == 0 {
            // a listed subject always has at least one grade, but the score
            // is well defined either way
            100 * SCALE + 0
        } else {
            let sums = crate::grades::grade_sums(&f);
            proof {
                lemma_grade_sums_bounds(f@);
                assert((-(VAL_BOUND as int)) * (n as int) == -((n as int) * (VAL_BOUND as int)))
                    by (nonlinear_arith);
                assert((VAL_BOUND as int) * (n as int) == (n as int) * (VAL_BOUND as int))
                    by (nonlinear_arith);
                lemma_tdiv_bracket_gen(
                    crate::grades::sum_gv(f@),
                    n as int,
                    -VAL_BOUND as int,
                    VAL_BOUND as int,
                );
            }
            let avg: i64 = divt64(sums.0, n as i64);
            let pc: usize = crate::summary::count_passing(&f);
            let fail: i64 = (n - pc) as i64;
            let mut sc: i64 = (10 * SCALE - avg) * 10 + fail * 15 * SCALE;
            if n >= 3 {
                proof {
                    assert(grade_ok(f@[n as int - 1]));
                    assert(grade_ok(f@[n as int - 2]));
                    assert(grade_ok(f@[n as int - 3]));
                    lemma_tdiv_abs(
                        f@[n as int - 1].value + f@[n as int - 2].value + f@[n as int - 3].value,
                        3,
                    );
                }
                let recent_sum: i64 = f[n - 1].value + f[n - 2].value + f[n - 3].value;
                let ravg: i64 = divt64(recent_sum, 3);
                if ravg < avg {
                    sc = sc + 10 * SCALE;
                }
            }
            sc
        };
        let reason: String = if n == 0 {
            String::from_str("Maintain current performance")
        } else {
            let sums = crate::grades::grade_sums(&f);
            proof {
                lemma_grade_sums_bounds(f@);
                assert((-(VAL_BOUND as int)) * (n as int) == -((n as int) * (VAL_BOUND as int)))
                    by (nonlinear_arith);
                assert((VAL_BOUND as int) * (n as int) == (n as int) * (VAL_BOUND as int))
                    by (nonlinear_arith);
                lemma_tdiv_bracket_gen(
                    crate::grades::sum_gv(f@),
                    n as int,
                    -VAL_BOUND as int,
                    VAL_BOUND as int,
                );
            }
            let avg: i64 = divt64(sums.0, n as i64);
            let pc: usize = crate::summary::count_passing(&f);
            let fail: usize = n - pc;
            if avg < 55000 {
                String::from_str("Failing average - immediate attention needed")
            } else if fail > 0 {
                let mut msg: String = render_count(fail);
                msg.append(" failing grade(s) affecting average");
                msg
            } else if avg < 65000 {
                String::from_str("Below target average - room for improvement")
            } else {
                let mut declined: bool = false;
                if n >= 3 {
                    proof {
                        assert(grade_ok(f@[n as int - 1]));
                        assert(grade_ok(f@[n as int - 2]));
                        assert(grade_ok(f@[n as int - 3]));
                        lemma_tdiv_abs(
                            f@[n as int - 1].value + f@[n as int - 2].value + f@[n as int
                                - 3].value,
                            3,
                        );
                    }
                    let recent_sum: i64 = f[n - 1].value + f[n - 2].value + f[n - 3].value;
                    let ravg: i64 = divt64(recent_sum, 3);
                    if ravg < avg - 5000 {
                        declined = true;
                    }
                }
                if declined {
                    String::from_str("Recent decline detected")
                } else {
                    String::from_str("Maintain current performance")
                }
            }
        };
        proof {
            if n > 0 {
                assert(fs.len() == n);
                assert(fs[fs.len() - 1]@ == f@[n as int - 1]@);
                if n >= 2 {
                    assert(fs[fs.len() - 2]@ == f@[n as int - 2]@);
                }
                if n >= 3 {
                    assert(fs[fs.len() - 3]@ == f@[n as int - 3]@);
                }
                assert(score as int == priority_score_fx(fs));
                assert(reason@ == priority_reason_fx(fs));
            } else {
                assert(fs.len() == 0);
            }
        }
        let subj: String = String::from_str(keys[i].as_str());
        let mut k: usize = 0;
        while k < out.len() && out[k].1 >= score
            invariant
                0 <= k <= out@.len(),
                forall|j: int| 0 <= j < k ==> (#[trigger] out@[j]).1 >= score,
            decreases out@.len() - k,
        {
            k = k + 1;
        }
        let ghost old_out = out@;
        out.insert(k, (subj, score, reason));
        proof {
            assert forall|k2: int| 0 <= k2 < i + 1 implies subject_appears(
                out@,
                #[trigger] dk[k2],
            ) by {
                if k2 == i as int {
                    assert(out@[k as int].0@ == dk[k2]);
                } else {
                    let oldj = choose|j: int|
                        0 <= j < old_out.len() && (#[trigger] old_out[j]).0@ == dk[k2];
                    if oldj < k as int {
                        assert(out@[oldj].0@ == dk[k2]);
                    } else {
                        assert(out@[oldj + 1].0@ == dk[k2]);
                    }
                }
            }
            assert(priority_entry_ok(out@[k as int], grades@)) by {
                assert(out@[k as int].0@ == dk[i as int]);
                assert(out@[k as int].1 == score && out@[k as int].2@ == reason@);
            }
        }
        i = i + 1;
    }
    out
}

} // verus!
