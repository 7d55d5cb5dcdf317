//! Ordinary least-squares trend analysis over a time series of
//! (timestamp, value) pairs, with a qualitative direction and strength
//! classification.

use vstd::prelude::*;
use vstd::string::StringExecFns;
use crate::fx::{
    SCALE, VAL_BOUND, LEN_BOUND, TS_BOUND, SAT_BOUND, fx_ok, tdiv, tdivs, tclamp,
    lemma_tdiv_nonneg, lemma_tdiv_abs, lemma_tdiv_bracket_gen, lemma_tdivs_abs, divt64, divt128,
    divt128s, sat64,
};

verus! {

/// The time series is an acceptable engine input: bounded length, bounded
/// timestamps, in-range values.
pub open spec fn series_ok(s: Seq<(i64, i64)>) -> bool {
    s.len() <= LEN_BOUND && (forall|i: int|
        0 <= i < s.len() ==> -TS_BOUND <= (#[trigger] s[i]).0 <= TS_BOUND && fx_ok(s[i].1 as int))
}

/// The minimum timestamp of the series (0 for the empty series).
pub open spec fn min_ts(s: Seq<(i64, i64)>) -> int
    decreases s.len(),
{
    if s.len() == 0 {
        0
    } else if s.len() == 1 {
        s[0].0 as int
    } else {
        let m = min_ts(s.drop_last());
        if (s.last().0 as int) < m {
            s.last().0 as int
        } else {
            m
        }
    }
}

/// Unfolding the running minimum timestamp over a growing prefix.
pub proof fn lemma_min_ts_take(s: Seq<(i64, i64)>, i: int)
    requires
        1 <= i < s.len(),
    ensures
        min_ts(s.take(i + 1)) == (if (s[i].0 as int) < min_ts(s.take(i)) {
            s[i].0 as int
        } else {
            min_ts(s.take(i))
        }),
{
    assert(s.take(i + 1).drop_last() =~= s.take(i));
    assert(s.take(i + 1).last() == s[i]);
    assert(s.take(i + 1).len() == i + 1 >= 2);
}

/// The minimum timestamp brackets every timestamp and is itself in range.
pub proof fn lemma_min_ts_props(s: Seq<(i64, i64)>)
    requires
        s.len() >= 1,
        series_ok(s),
    ensures
        forall|i: int| 0 <= i < s.len() ==> min_ts(s) <= (#[trigger] s[i]).0 as int,
        -TS_BOUND <= min_ts(s) <= TS_BOUND,
    decreases s.len(),
{
    if s.len() == 1 {
    } else {
        assert(series_ok(s.drop_last())) by {
            assert(forall|i: int| 0 <= i < s.drop_last().len() ==> s.drop_last()[i] == #[trigger] s[i]);
        }
        lemma_min_ts_props(s.drop_last());
        assert(forall|i: int| 0 <= i < s.len() - 1 ==> s.drop_last()[i] == #[trigger] s[i]);
    }
}

/// Sum of re-based timestamps.
pub open spec fn sum_x(s: Seq<(i64, i64)>, mt: int) -> int
    decreases s.len(),
{
    if s.len() == 0 {
        0
    } else {
        sum_x(s.drop_last(), mt) + (s.last().0 - mt)
    }
}

/// Sum of values.
pub open spec fn sum_y(s: Seq<(i64, i64)>) -> int
    decreases s.len(),
{
    if s.len() == 0 {
        0
    } else {
        sum_y(s.drop_last()) + s.last().1
    }
}

/// Sum of products of re-based timestamps and values.
pub open spec fn sum_xy(s: Seq<(i64, i64)>, mt: int) -> int
    decreases s.len(),
{
    if s.len() == 0 {
        0
    } else {
        sum_xy(s.drop_last(), mt) + (s.last().0 - mt) * s.last().1
    }
}

/// Sum of squared re-based timestamps.
pub open spec fn sum_x2(s: Seq<(i64, i64)>, mt: int) -> int
    decreases s.len(),
{
    if s.len() == 0 {
        0
    } else {
        sum_x2(s.drop_last(), mt) + (s.last().0 - mt) * (s.last().0 - mt)
    }
}

/// Sum of squared deviations of the values about `my`.
pub open spec fn ss_tot_p(s: Seq<(i64, i64)>, my: int) -> int
    decreases s.len(),
{
    if s.len() == 0 {
        0
    } else {
        ss_tot_p(s.drop_last(), my) + (s.last().1 - my) * (s.last().1 - my)
    }
}

/// The fitted (predicted) value of the regression line at re-based time `x`,
/// saturated into the returnable range.
pub open spec fn fitted_at(slope: int, intercept: int, x: int) -> int {
    tclamp(slope * x + intercept, -SAT_BOUND as int, SAT_BOUND as int)
}

/// Sum of squared residuals about the fitted line.
pub open spec fn ss_res_p(s: Seq<(i64, i64)>, mt: int, slope: int, intercept: int) -> int
    decreases s.len(),
{
    if s.len() == 0 {
        0
    } else {
        let r = s.last().1 - fitted_at(slope, intercept, s.last().0 - mt);
        ss_res_p(s.drop_last(), mt, slope, intercept) + r * r
    }
}

/// Peeling one element off the prefix regression sums.
pub proof fn lemma_reg_sums_take(s: Seq<(i64, i64)>, mt: int, i: int)
    requires
        0 <= i < s.len(),
    ensures
        sum_x(s.take(i + 1), mt) == sum_x(s.take(i), mt) + (s[i].0 - mt),
        sum_y(s.take(i + 1)) == sum_y(s.take(i)) + s[i].1,
        sum_xy(s.take(i + 1), mt) == sum_xy(s.take(i), mt) + (s[i].0 - mt) * s[i].1,
        sum_x2(s.take(i + 1), mt) == sum_x2(s.take(i), mt) + (s[i].0 - mt) * (s[i].0 - mt),
{
    assert(s.take(i + 1).drop_last() =~= s.take(i));
    assert(s.take(i + 1).last() == s[i]);
}

/// Peeling one element off the prefix goodness-of-fit sums.
pub proof fn lemma_fit_sums_take(s: Seq<(i64, i64)>, mt: int, my: int, slope: int, b: int, i: int)
    requires
        0 <= i < s.len(),
    ensures
        ss_tot_p(s.take(i + 1), my) == ss_tot_p(s.take(i), my) + (s[i].1 - my) * (s[i].1 - my),
        ss_res_p(s.take(i + 1), mt, slope, b) == ss_res_p(s.take(i), mt, slope, b) + (s[i].1
            - fitted_at(slope, b, s[i].0 - mt)) * (s[i].1 - fitted_at(slope, b, s[i].0 - mt)),
{
    assert(s.take(i + 1).drop_last() =~= s.take(i));
    assert(s.take(i + 1).last() == s[i]);
}

/// The regression denominator of the series.
pub open spec fn trend_denom(s: Seq<(i64, i64)>) -> int {
    s.len() * sum_x2(s, min_ts(s)) - sum_x(s, min_ts(s)) * sum_x(s, min_ts(s))
}

/// Mirror of the fitted slope (fixed-point value change per timestamp unit),
/// saturated into the returnable range. Meaningful only when the denominator
/// is nonzero.
pub open spec fn trend_slope_fx(s: Seq<(i64, i64)>) -> int {
    let mt = min_ts(s);
    tclamp(
        tdivs(s.len() * sum_xy(s, mt) - sum_x(s, mt) * sum_y(s), trend_denom(s)),
        -SAT_BOUND as int,
        SAT_BOUND as int,
    )
}

/// Mirror of the fitted intercept (the value at the minimum timestamp),
/// saturated into the returnable range.
pub open spec fn trend_intercept_fx(s: Seq<(i64, i64)>) -> int {
    let mt = min_ts(s);
    tclamp(
        tdiv(sum_y(s) - trend_slope_fx(s) * sum_x(s, mt), s.len() as int),
        -SAT_BOUND as int,
        SAT_BOUND as int,
    )
}

/// Mirror of the goodness of fit: one minus the residual share of the total
/// variation; zero when all values are equal.
pub open spec fn trend_r2_fx(s: Seq<(i64, i64)>) -> int {
    let mt = min_ts(s);
    let my = tdiv(sum_y(s), s.len() as int);
    let tot = ss_tot_p(s, my);
    if tot > 0 {
        tclamp(
            SCALE - tdiv(ss_res_p(s, mt, trend_slope_fx(s), trend_intercept_fx(s)) * SCALE, tot),
            -SAT_BOUND as int,
            SAT_BOUND as int,
        )
    } else {
        0
    }
}

/// The direction label derived from the slope: stable within a thousandth of
/// a unit per timestamp unit, otherwise the sign decides.
pub open spec fn direction_label(slope: int) -> Seq<char> {
    if -10 < slope < 10 {
        "stable"@
    } else if slope > 0 {
        "improving"@
    } else {
        "declining"@
    }
}

/// The strength label derived from the goodness of fit, with fixed
/// breakpoints at 0.1, 0.3 and 0.6.
pub open spec fn strength_label(r2: int) -> Seq<char> {
    if r2 < 1000 {
        "none"@
    } else if r2 < 3000 {
        "weak"@
    } else if r2 < 6000 {
        "moderate"@
    } else {
        "strong"@
    }
}

/// Result of fitting an ordinary least-squares line to a time series.
#[derive(Clone, Debug)]
pub struct TrendResult {
    pub slope: i64,
    pub intercept: i64,
    pub r_squared: i64,
    pub direction: String,
    pub strength: String,
    pub predicted_values: Vec<i64>,
}

/// Whether a trend result is the degenerate all-zero "stable" result.
pub open spec fn trend_is_degenerate(r: TrendResult, intercept: int) -> bool {
    r.slope == 0 && r.intercept == intercept && r.r_squared == 0 && r.direction@ == "stable"@
        && r.strength@ == "none"@ && r.predicted_values@ =~= Seq::<i64>::empty()
}

/// Every field of a trend result is pinned to its specification mirror
/// over the given series.
pub open spec fn trend_match(r: TrendResult, s: Seq<(i64, i64)>) -> bool {
    if s.len() < 2 {
        trend_is_degenerate(r, 0)
    } else if trend_denom(s) == 0 {
        trend_is_degenerate(r, tdiv(sum_y(s), s.len() as int))
    } else {
        &&& r.slope == trend_slope_fx(s)
        &&& r.intercept == trend_intercept_fx(s)
        &&& r.r_squared == trend_r2_fx(s)
        &&& r.direction@ == direction_label(trend_slope_fx(s))
        &&& r.strength@ == strength_label(trend_r2_fx(s))
        &&& r.predicted_values@.len() == s.len()
        &&& forall|i: int| 0 <= i < s.len() ==> #[trigger] r.predicted_values@[i] as int
            == fitted_at(trend_slope_fx(s), trend_intercept_fx(s), s[i].0 - min_ts(s))
    }
}

/// Fit an ordinary least-squares line to a time series. Timestamps are
/// re-based to the minimum timestamp before fitting (the intercept is the
/// fitted value there); the input is not sorted by time. Fewer than two
/// points, or all-equal timestamps, give the degenerate stable result.
pub fn calculate_trend(data: &Vec<(i64, i64)>) -> (r: TrendResult)
    requires
        series_ok(data@),
    ensures
        trend_match(r, data@),
        data@.len() < 2 ==> trend_is_degenerate(r, 0),
        data@.len() >= 2 && trend_denom(data@) == 0 ==> trend_is_degenerate(
            r,
            tdiv(sum_y(data@), data@.len() as int),
        ),
        data@.len() >= 2 && trend_denom(data@) != 0 ==> {
            &&& r.slope == trend_slope_fx(data@)
            &&& r.intercept == trend_intercept_fx(data@)
            &&& r.r_squared == trend_r2_fx(data@)
            &&& r.direction@ == direction_label(trend_slope_fx(data@))
            &&& r.strength@ == strength_label(trend_r2_fx(data@))
            &&& r.predicted_values@.len() == data@.len()
            &&& forall|i: int| 0 <= i < data@.len() ==> #[trigger] r.predicted_values@[i] as int
                == fitted_at(
                trend_slope_fx(data@),
                trend_intercept_fx(data@),
                data@[i].0 - min_ts(data@),
            )
        },
        r.r_squared <= SCALE,
{
    let n: usize = data.len();
    if n < 2 {
        return TrendResult {
            slope: 0,
            intercept: 0,
            r_squared: 0,
            direction: String::from_str("stable"),
            strength: String::from_str("none"),
            predicted_values: Vec::new(),
        };
    }
    proof {
        lemma_min_ts_props(data@);
    }
    let mut mt: i64 = data[0].0;
    let mut i: usize = 1;
    proof {
        assert(data@.take(1) =~= seq![data@[0]]);
    }
    while i < n
        invariant
            n == data@.len(),
            series_ok(data@),
            1 <= i <= n,
            mt as int == min_ts(data@.take(i as int)),
            -TS_BOUND <= mt as int <= TS_BOUND,
        decreases n - i,
    {
        proof {
            lemma_min_ts_take(data@, i as int);
        }
        let t: i64 = data[i].0;
        if t < mt {
            mt = t;
        }
        i = i + 1;
    }
    proof {
        assert(data@.take(n as int) =~= data@);
    }
    let ghost mtg = mt as int;
    let mut sx: i128 = 0;
    let mut sy: i128 = 0;
    let mut sxy: i128 = 0;
    let mut sx2: i128 = 0;
    let mut i2: usize = 0;
    proof {
        assert(data@.take(0) =~= Seq::<(i64, i64)>::empty());
    }
    while i2 < n
        invariant
            n == data@.len(),
            2 <= n <= LEN_BOUND,
            series_ok(data@),
            mtg == mt as int,
            mtg == min_ts(data@),
            -TS_BOUND <= mtg <= TS_BOUND,
            forall|j: int| 0 <= j < data@.len() ==> mtg <= (#[trigger] data@[j]).0 as int,
            0 <= i2 <= n,
            sx == sum_x(data@.take(i2 as int), mtg),
            sy == sum_y(data@.take(i2 as int)),
            sxy == sum_xy(data@.take(i2 as int), mtg),
            sx2 == sum_x2(data@.take(i2 as int), mtg),
            0 <= sx as int <= (i2 as int) * (2 * TS_BOUND as int),
            -((i2 as int) * (VAL_BOUND as int)) <= sy as int <= (i2 as int) * (VAL_BOUND as int),
            -((i2 as int) * 200_000_000_000_000_000_000int) <= sxy as int <= (i2 as int)
                * 200_000_000_000_000_000_000int,
            0 <= sx2 as int <= (i2 as int) * 400_000_000_000_000_000_000_000_000int,
        decreases n - i2,
    {
        proof {
            lemma_reg_sums_take(data@, mtg, i2 as int);
            assert(-TS_BOUND <= (data@[i2 as int]).0 as int <= TS_BOUND && fx_ok(
                data@[i2 as int].1 as int,
            ));
        }
        let x: i64 = data[i2].0 - mt;
        let y: i64 = data[i2].1;
        proof {
            assert(0 <= x as int <= 2 * TS_BOUND as int);
            assert(-200_000_000_000_000_000_000int <= (x as int) * (y as int)
                <= 200_000_000_000_000_000_000int) by (nonlinear_arith)
                requires
                    0 <= x as int <= 20_000_000_000_000int,
                    -10_000_000 <= y as int <= 10_000_000,
            ;
            assert(0 <= (x as int) * (x as int) <= 400_000_000_000_000_000_000_000_000int)
                by (nonlinear_arith)
                requires 0 <= x as int <= 20_000_000_000_000int,
            ;
            assert((i2 as int) * (2 * TS_BOUND as int) + 2 * TS_BOUND as int == ((i2 + 1) as int)
                * (2 * TS_BOUND as int)) by (nonlinear_arith);
            assert((i2 as int) * (VAL_BOUND as int) + VAL_BOUND as int == ((i2 + 1) as int)
                * (VAL_BOUND as int)) by (nonlinear_arith);
            assert((i2 as int) * 200_000_000_000_000_000_000int + 200_000_000_000_000_000_000int
                == ((i2 + 1) as int) * 200_000_000_000_000_000_000int) by (nonlinear_arith);
            assert((i2 as int) * 400_000_000_000_000_000_000_000_000int
                + 400_000_000_000_000_000_000_000_000int == ((i2 + 1) as int)
                * 400_000_000_000_000_000_000_000_000int) by (nonlinear_arith);
            assert(((i2 + 1) as int) * (2 * TS_BOUND as int) <= (LEN_BOUND as int) * (2
                * TS_BOUND as int)) by (nonlinear_arith)
                requires (i2 + 1) as int <= LEN_BOUND as int,
            ;
            assert(((i2 + 1) as int) * (VAL_BOUND as int) <= (LEN_BOUND as int)
                * (VAL_BOUND as int)) by (nonlinear_arith)
                requires (i2 + 1) as int <= LEN_BOUND as int,
            ;
            assert(((i2 + 1) as int) * 200_000_000_000_000_000_000int <= (LEN_BOUND as int)
                * 200_000_000_000_000_000_000int) by (nonlinear_arith)
                requires (i2 + 1) as int <= LEN_BOUND as int,
            ;
            assert(((i2 + 1) as int) * 400_000_000_000_000_000_000_000_000int <= (LEN_BOUND as int)
                * 400_000_000_000_000_000_000_000_000int) by (nonlinear_arith)
                requires (i2 + 1) as int <= LEN_BOUND as int,
            ;
        }
        sx = sx + (x as i128);
        sy = sy + (y as i128);
        sxy = sxy + (x as i128) * (y as i128);
        sx2 = sx2 + (x as i128) * (x as i128);
        i2 = i2 + 1;
    }
    proof {
        assert(data@.take(n as int) =~= data@);
        lemma_trend_sum_bounds(n as int, sx as int, sy as int, sxy as int, sx2 as int);
    }
    let denom: i128 = (n as i128) * sx2 - sx * sx;
    if denom == 0 {
        proof {
            lemma_tdiv_abs(sy as int, n as int);
        }
        let my: i64 = divt128(sy, n as i128) as i64;
        return TrendResult {
            slope: 0,
            intercept: my,
            r_squared: 0,
            direction: String::from_str("stable"),
            strength: String::from_str("none"),
            predicted_values: Vec::new(),
        };
    }
    let slope_num: i128 = (n as i128) * sxy - sx * sy;
    let slope: i64 = sat64(divt128s(slope_num, denom));
    proof {
        assert(-(2_000_000_000_000_000_000_000_000_000_000_00int) <= (slope as int) * (sx as int)
            <= 2_000_000_000_000_000_000_000_000_000_000_00int) by (nonlinear_arith)
            requires
                -(SAT_BOUND as int) <= slope as int <= SAT_BOUND as int,
                0 <= sx as int <= 200_000_000_000_000_000int,
                SAT_BOUND as int == 1_000_000_000_000_000,
        ;
        lemma_tdiv_abs(sy as int - (slope as int) * (sx as int), n as int);
    }
    let intercept: i64 = sat64(divt128(sy - (slope as i128) * sx, n as i128));
    proof {
        lemma_tdiv_abs(sy as int, n as int);
        assert((-(VAL_BOUND as int)) * (n as int) == -((n as int) * (VAL_BOUND as int)))
            by (nonlinear_arith);
        assert((VAL_BOUND as int) * (n as int) == (n as int) * (VAL_BOUND as int))
            by (nonlinear_arith);
        lemma_tdiv_bracket_gen(sy as int, n as int, -VAL_BOUND as int, VAL_BOUND as int);
    }
    let my: i64 = divt128(sy, n as i128) as i64;
    let ghost slg = slope as int;
    let ghost icg = intercept as int;
    let ghost myg = my as int;
    let mut tot: i128 = 0;
    let mut res: i128 = 0;
    let mut preds: Vec<i64> = Vec::new();
    let mut i3: usize = 0;
    proof {
        assert(data@.take(0) =~= Seq::<(i64, i64)>::empty());
    }
    while i3 < n
        invariant
            n == data@.len(),
            2 <= n <= LEN_BOUND,
            series_ok(data@),
            mtg == mt as int,
            mtg == min_ts(data@),
            -TS_BOUND <= mtg <= TS_BOUND,
            forall|j: int| 0 <= j < data@.len() ==> mtg <= (#[trigger] data@[j]).0 as int,
            slg == slope as int,
            icg == intercept as int,
            myg == my as int,
            -(SAT_BOUND as int) <= slg <= SAT_BOUND as int,
            -(SAT_BOUND as int) <= icg <= SAT_BOUND as int,
            -(VAL_BOUND as int) <= myg <= VAL_BOUND as int,
            0 <= i3 <= n,
            tot == ss_tot_p(data@.take(i3 as int), myg),
            res == ss_res_p(data@.take(i3 as int), mtg, slg, icg),
            preds@.len() == i3,
            forall|j: int| 0 <= j < i3 ==> #[trigger] preds@[j] as int == fitted_at(
                slg,
                icg,
                data@[j].0 - mtg,
            ),
            0 <= tot as int <= (i3 as int) * 400_000_000_000_000int,
            0 <= res as int <= (i3 as int) * 1_030_000_000_000_000_000_000_000_000_000int,
        decreases n - i3,
    {
        proof {
            lemma_fit_sums_take(data@, mtg, myg, slg, icg, i3 as int);
            assert(-TS_BOUND <= (data@[i3 as int]).0 as int <= TS_BOUND && fx_ok(
                data@[i3 as int].1 as int,
            ));
        }
        let x: i64 = data[i3].0 - mt;
        let y: i64 = data[i3].1;
        proof {
            assert(0 <= x as int <= 2 * TS_BOUND as int);
            assert(-(2_000_000_000_000_000_000_000_000_000_000_00int) <= (slg) * (x as int)
                <= 2_000_000_000_000_000_000_000_000_000_000_00int) by (nonlinear_arith)
                requires
                    -(SAT_BOUND as int) <= slg <= SAT_BOUND as int,
                    0 <= x as int <= 20_000_000_000_000int,
                    SAT_BOUND as int == 1_000_000_000_000_000,
            ;
        }
        let pred: i64 = sat64((slope as i128) * (x as i128) + (intercept as i128));
        proof {
            assert(pred as int == fitted_at(slg, icg, x as int));
            let dt = (y as int) - myg;
            assert(0 <= dt * dt <= 400_000_000_000_000int) by (nonlinear_arith)
                requires -20_000_000 <= dt <= 20_000_000,
            ;
            let dr = (y as int) - (pred as int);
            assert(0 <= dr * dr <= 1_030_000_000_000_000_000_000_000_000_000int)
                by (nonlinear_arith)
                requires -1_000_010_000_000_000int <= dr <= 1_000_010_000_000_000int,
            ;
            assert((i3 as int) * 400_000_000_000_000int + 400_000_000_000_000int == ((i3
                + 1) as int) * 400_000_000_000_000int) by (nonlinear_arith);
            assert((i3 as int) * 1_030_000_000_000_000_000_000_000_000_000int
                + 1_030_000_000_000_000_000_000_000_000_000int == ((i3 + 1) as int)
                * 1_030_000_000_000_000_000_000_000_000_000int) by (nonlinear_arith);
            assert(((i3 + 1) as int) * 400_000_000_000_000int <= (LEN_BOUND as int)
                * 400_000_000_000_000int) by (nonlinear_arith)
                requires (i3 + 1) as int <= LEN_BOUND as int,
            ;
            assert(((i3 + 1) as int) * 1_030_000_000_000_000_000_000_000_000_000int
                <= (LEN_BOUND as int) * 1_030_000_000_000_000_000_000_000_000_000int)
                by (nonlinear_arith)
                requires (i3 + 1) as int <= LEN_BOUND as int,
            ;
        }
        let dt: i64 = y - my;
        let dr: i128 = (y as i128) - (pred as i128);
        tot = tot + (dt as i128) * (dt as i128);
        res = res + dr * dr;
        preds.push(pred);
        i3 = i3 + 1;
    }
    proof {
        assert(data@.take(n as int) =~= data@);
        assert((LEN_BOUND as int) * 400_000_000_000_000int == 4_000_000_000_000_000_000int)
            by (nonlinear_arith);
        assert((LEN_BOUND as int) * 1_030_000_000_000_000_000_000_000_000_000int
            == 10_300_000_000_000_000_000_000_000_000_000_000int) by (nonlinear_arith);
    }
    let r_squared: i64 = if tot > 0 {
        proof {
            assert(0 <= (res as int) * (SCALE as int)
                <= 103_000_000_000_000_000_000_000_000_000_000_000_000int) by (nonlinear_arith)
                requires
                    0 <= res as int <= 10_300_000_000_000_000_000_000_000_000_000_000int,
                    SCALE as int == 10000,
            ;
            lemma_tdiv_nonneg((res as int) * (SCALE as int), tot as int);
        }
        let q: i128 = divt128(res * (SCALE as i128), tot);
        sat64((SCALE as i128) - q)
    } else {
        0
    };
    let direction: String = if -10 < slope && slope < 10 {
        String::from_str("stable")
    } else if slope > 0 {
        String::from_str("improving")
    } else {
        String::from_str("declining")
    };
    let strength: String = if r_squared < 1000 {
        String::from_str("none")
    } else if r_squared < 3000 {
        String::from_str("weak")
    } else if r_squared < 6000 {
        String::from_str("moderate")
    } else {
        String::from_str("strong")
    };
    TrendResult {
        slope,
        intercept,
        r_squared,
        direction,
        strength,
        predicted_values: preds,
    }
}

/// Combined magnitude bounds on the regression sums of a full series.
proof fn lemma_trend_sum_bounds(n: int, sx: int, sy: int, sxy: int, sx2: int)
    requires
        2 <= n <= LEN_BOUND as int,
        0 <= sx <= n * (2 * TS_BOUND as int),
        -(n * (VAL_BOUND as int)) <= sy <= n * (VAL_BOUND as int),
        -(n * 200_000_000_000_000_000_000int) <= sxy <= n * 200_000_000_000_000_000_000int,
        0 <= sx2 <= n * 400_000_000_000_000_000_000_000_000int,
    ensures
        0 <= sx <= 200_000_000_000_000_000int,
        -100_000_000_000int <= sy <= 100_000_000_000int,
        -2_000_000_000_000_000_000_000_000int <= sxy <= 2_000_000_000_000_000_000_000_000int,
        0 <= sx2 <= 4_000_000_000_000_000_000_000_000_000_000int,
        0 <= n * sx2 <= 4_000_000_000_000_000_000_000_000_000_000_0000int,
        0 <= sx * sx <= 4_000_000_000_000_000_000_000_000_000_000_0000int,
        -20_000_000_000_000_000_000_000_000_000int <= n * sxy
            <= 20_000_000_000_000_000_000_000_000_000int,
        -20_000_000_000_000_000_000_000_000_000int <= sx * sy
            <= 20_000_000_000_000_000_000_000_000_000int,
{
    assert(n * (2 * TS_BOUND as int) <= (LEN_BOUND as int) * (2 * TS_BOUND as int))
        by (nonlinear_arith)
        requires n <= LEN_BOUND as int,
    ;
    assert(n * (VAL_BOUND as int) <= (LEN_BOUND as int) * (VAL_BOUND as int)) by (nonlinear_arith)
        requires n <= LEN_BOUND as int,
    ;
    assert(n * 200_000_000_000_000_000_000int <= (LEN_BOUND as int)
        * 200_000_000_000_000_000_000int) by (nonlinear_arith)
        requires n <= LEN_BOUND as int,
    ;
    assert(n * 400_000_000_000_000_000_000_000_000int <= (LEN_BOUND as int)
        * 400_000_000_000_000_000_000_000_000int) by (nonlinear_arith)
        requires n <= LEN_BOUND as int,
    ;
    assert((LEN_BOUND as int) * (2 * TS_BOUND as int) == 200_000_000_000_000_000int)
        by (nonlinear_arith);
    assert((LEN_BOUND as int) * (VAL_BOUND as int) == 100_000_000_000int) by (nonlinear_arith);
    assert((LEN_BOUND as int) * 200_000_000_000_000_000_000int
        == 2_000_000_000_000_000_000_000_000int) by (nonlinear_arith);
    assert((LEN_BOUND as int) * 400_000_000_000_000_000_000_000_000int
        == 4_000_000_000_000_000_000_000_000_000_000int) by (nonlinear_arith);
    assert(0 <= n * sx2 <= 4_000_000_000_000_000_000_000_000_000_000_0000int) by (nonlinear_arith)
        requires 2 <= n <= 10000 && 0 <= sx2 <= 4_000_000_000_000_000_000_000_000_000_000int,
    ;
    assert(0 <= sx * sx <= 4_000_000_000_000_000_000_000_000_000_000_0000int) by (nonlinear_arith)
        requires 0 <= sx <= 200_000_000_000_000_000int,
    ;
    assert(-20_000_000_000_000_000_000_000_000_000int <= n * sxy
        <= 20_000_000_000_000_000_000_000_000_000int) by (nonlinear_arith)
        requires
            2 <= n <= 10000,
            -2_000_000_000_000_000_000_000_000int <= sxy <= 2_000_000_000_000_000_000_000_000int,
    ;
    assert(-20_000_000_000_000_000_000_000_000_000int <= sx * sy
        <= 20_000_000_000_000_000_000_000_000_000int) by (nonlinear_arith)
        requires
            0 <= sx <= 200_000_000_000_000_000int,
            -100_000_000_000int <= sy <= 100_000_000_000int,
    ;
}

} // verus!
