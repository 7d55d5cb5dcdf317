//! Per-subject aggregation: subject summaries, the summary table ordered by
//! subject name, extreme subjects, attention flags, and the all-in-one
//! analytics result.

use vstd::prelude::*;
use vstd::string::StrSliceExecFns;
use vstd::string::StringExecFns;
use crate::fx::{
    SCALE, VAL_BOUND, LEN_BOUND, TS_BOUND, fx_ok, vals_ok, tdiv, tclamp, lemma_tdiv_nonneg,
    lemma_tdiv_abs, lemma_tdiv_bracket_gen, divt64, divt128, clamp64,
};
use crate::seqs::{sort_ts, lemma_sort_ts_props};
use crate::smooth::{min_val, max_val, lemma_minmax_take, lemma_minmax_props};
use crate::trend::{calculate_trend, TrendResult, trend_match};
use crate::stats::{Statistics, calculate_statistics, stats_match};
use crate::grades::{
    Grade, GradeV, grade_ok, grades_ok, lower_of, filter_subject, filter_by_subject,
    lemma_filter_subject_ok, lemma_sums_by_views, sum_gv, sum_gw, sum_gvw, count_pass,
    lemma_grade_sums_bounds, lemma_pass_sums_bounds, grade_sums, trips_of, trips_ok,
    lemma_trips_of_ok, trips_vec, str_eq, lowercase, subject_matches,
};
use crate::predictions::{
    PredictionResult, predict_next_grade, is_ensemble_prediction, ens_value_fx, st_of, tpairs,
    tvals, slope_of,
};
use crate::seqs::sorted_by_ts;
use crate::predictions::pairs_vec;

verus! {

/// Aggregated view of one subject's grades.
#[derive(Clone, Debug)]
pub struct SubjectSummary {
    pub subject: String,
    pub average: i64,
    pub weighted_average: i64,
    pub grade_count: usize,
    pub total_weight: i64,
    pub highest: i64,
    pub lowest: i64,
    pub passing_count: usize,
    pub failing_count: usize,
    pub trend: i64,
    pub predicted_next: i64,
}

/// The values of a grade list.
pub open spec fn gvals_of(s: Seq<Grade>) -> Seq<i64> {
    s.map_values(|g: Grade| g.value)
}

/// The unweighted average mirror of a nonempty grade list.
pub open spec fn uavg_fx(f: Seq<Grade>) -> int {
    tdiv(sum_gv(f), f.len() as int)
}

/// The weighted-average mirror a summary reports (falls back to the
/// unweighted average for zero total weight).
pub open spec fn swavg_fx(f: Seq<Grade>) -> int {
    if sum_gw(f) > 0 {
        tdiv(sum_gvw(f), sum_gw(f))
    } else {
        uavg_fx(f)
    }
}

/// The trend slope a summary reports for a subject's grades.
pub open spec fn strend_fx(f: Seq<Grade>) -> int {
    if f.len() >= 2 {
        slope_of(tpairs(st_of(f)))
    } else {
        0
    }
}

/// Every field of a subject summary is pinned to its mirror over the
/// grades of the queried subject (`q` is the query text).
#[verifier::opaque]
pub open spec fn is_subject_summary(ss: SubjectSummary, gs: Seq<Grade>, q: Seq<char>) -> bool {
    let f = filter_subject(gs, lower_of(q));
    if f.len() == 0 {
        ss.subject@ == q && ss.average == 0 && ss.weighted_average == 0 && ss.grade_count == 0
            && ss.total_weight == 0 && ss.highest == 0 && ss.lowest == 0 && ss.passing_count == 0
            && ss.failing_count == 0 && ss.trend == 0 && ss.predicted_next == 0
    } else {
        &&& ss.subject@ == q
        &&& ss.average == uavg_fx(f)
        &&& ss.weighted_average == swavg_fx(f)
        &&& ss.grade_count == f.len()
        &&& ss.total_weight == sum_gw(f)
        &&& ss.highest == max_val(gvals_of(f))
        &&& ss.lowest == min_val(gvals_of(f))
        &&& ss.passing_count == count_pass(f)
        &&& ss.failing_count == f.len() - count_pass(f)
        &&& ss.trend == strend_fx(f)
        &&& ss.predicted_next == ens_value_fx(f)
    }
}

/// Two grade lists with equal views have equal passing counts.
pub proof fn lemma_pass_by_views(a: Seq<Grade>, b: Seq<Grade>)
    requires
        a.len() == b.len(),
        forall|j: int| 0 <= j < a.len() ==> #[trigger] a[j]@ == b[j]@,
    ensures
        count_pass(a) == count_pass(b),
    decreases a.len(),
{
    if a.len() > 0 {
        assert(forall|j: int| 0 <= j < a.drop_last().len() ==> #[trigger] a.drop_last()[j]@
            == b.drop_last()[j]@) by {
            assert(forall|j: int| 0 <= j < a.len() - 1 ==> a.drop_last()[j] == #[trigger] a[j]
                && b.drop_last()[j] == b[j]);
        }
        lemma_pass_by_views(a.drop_last(), b.drop_last());
        assert(a[a.len() - 1]@ == b[b.len() - 1]@);
    }
}

/// Count the passing grades of a list.
pub(crate) fn count_passing(f: &Vec<Grade>) -> (r: usize)
    ensures
        r as int == count_pass(f@),
        r <= f@.len(),
{
    let n: usize = f.len();
    let mut c: usize = 0;
    let mut i: usize = 0;
    proof {
        assert(f@.take(0) =~= Seq::<Grade>::empty());
    }
    while i < n
        invariant
            n == f@.len(),
            0 <= i <= n,
            c as int == count_pass(f@.take(i as int)),
            c <= i,
        decreases n - i,
    {
        proof {
            crate::grades::lemma_pass_sums_take(f@, i as int);
        }
        if f[i].is_passing {
            c = c + 1;
        }
        i = i + 1;
    }
    proof {
        assert(f@.take(n as int) =~= f@);
    }
    c
}

/// The least and greatest values of a nonempty grade list.
fn grade_extremes(f: &Vec<Grade>) -> (r: (i64, i64))
    requires
        f@.len() >= 1,
        grades_ok(f@),
    ensures
        r.0 as int == min_val(gvals_of(f@)),
        r.1 as int == max_val(gvals_of(f@)),
        fx_ok(r.0 as int),
        fx_ok(r.1 as int),
{
    let n: usize = f.len();
    proof {
        assert(grade_ok(f@[0]));
        assert(gvals_of(f@).take(1) =~= seq![f@[0].value]);
        assert forall|i: int| 0 <= i < gvals_of(f@).len() implies #[trigger] fx_ok(
            gvals_of(f@)[i] as int,
        ) by {
            assert(grade_ok(f@[i]));
        }
        lemma_minmax_props(gvals_of(f@));
    }
    let mut mn: i64 = f[0].value;
    let mut mx: i64 = f[0].value;
    let mut i: usize = 1;
    while i < n
        invariant
            n == f@.len(),
            n == gvals_of(f@).len(),
            grades_ok(f@),
            forall|j: int| 0 <= j < n ==> #[trigger] gvals_of(f@)[j] == f@[j].value,
            1 <= i <= n,
            mn as int == min_val(gvals_of(f@).take(i as int)),
            mx as int == max_val(gvals_of(f@).take(i as int)),
            fx_ok(mn as int),
            fx_ok(mx as int),
        decreases n - i,
    {
        proof {
            lemma_minmax_take(gvals_of(f@), i as int);
            assert(grade_ok(f@[i as int]));
        }
        let v: i64 = f[i].value;
        if v < mn {
            mn = v;
        }
        if v > mx {
            mx = v;
        }
        i = i + 1;
    }
    proof {
        assert(gvals_of(f@).take(n as int) =~= gvals_of(f@));
    }
    (mn, mx)
}

/// Comprehensive summary of one subject (case-insensitive): averages,
/// extremes, pass tallies, trend slope, and the ensemble's next-grade
/// estimate; the all-zero summary when the subject has no grades.
pub fn get_subject_summary(grades: &Vec<Grade>, subject: &str) -> (r: SubjectSummary)
    requires
        grades_ok(grades@),
    ensures
        is_subject_summary(r, grades@, subject@),
{
    proof {
        reveal(is_subject_summary);
    }
    let ghost key = lower_of(subject@);
    let ghost fs = filter_subject(grades@, key);
    let f: Vec<Grade> = filter_by_subject(grades, subject);
    proof {
        lemma_filter_subject_ok(grades@, key);
        lemma_sums_by_views(f@, fs);
        lemma_pass_by_views(f@, fs);
        assert forall|j: int| 0 <= j < f@.len() implies #[trigger] gvals_of(f@)[j] == gvals_of(
            fs,
        )[j] by {
            assert(f@[j]@ == fs[j]@);
        }
        assert(gvals_of(f@) =~= gvals_of(fs));
        assert forall|j: int| 0 <= j < f@.len() implies #[trigger] trips_of(f@)[j] == trips_of(
            fs,
        )[j] by {
            assert(f@[j]@ == fs[j]@);
        }
        assert(trips_of(f@) =~= trips_of(fs));
    }
    let n: usize = f.len();
    if n == 0 {
        return SubjectSummary {
            subject: String::from_str(subject),
            average: 0,
            weighted_average: 0,
            grade_count: 0,
            total_weight: 0,
            highest: 0,
            lowest: 0,
            passing_count: 0,
            failing_count: 0,
            trend: 0,
            predicted_next: 0,
        };
    }
    let sums = grade_sums(&f);
    proof {
        lemma_grade_sums_bounds(f@);
        assert((-(VAL_BOUND as int)) * (n as int) == -((n as int) * (VAL_BOUND as int)))
            by (nonlinear_arith);
        assert((VAL_BOUND as int) * (n as int) == (n as int) * (VAL_BOUND as int))
            by (nonlinear_arith);
        lemma_tdiv_bracket_gen(sum_gv(f@), n as int, -VAL_BOUND as int, VAL_BOUND as int);
    }
    let average: i64 = divt64(sums.0, n as i64);
    let weighted_average: i64 = if sums.1 > 0 {
        proof {
            assert((-(VAL_BOUND as int)) * sum_gw(f@) == -((VAL_BOUND as int) * sum_gw(f@)))
                by (nonlinear_arith);
            lemma_tdiv_bracket_gen(sum_gvw(f@), sum_gw(f@), -VAL_BOUND as int, VAL_BOUND as int);
        }
        divt128(sums.2, sums.1 as i128) as i64
    } else {
        average
    };
    let ex: (i64, i64) = grade_extremes(&f);
    let pc: usize = count_passing(&f);
    let trend: i64 = if n >= 2 {
        let trips: Vec<(i64, i64, i64)> = trips_vec(&f);
        let t: Vec<(i64, i64, i64)> = sorted_by_ts(&trips);
        proof {
            lemma_trips_of_ok(f@);
            crate::predictions::lemma_tpairs_ok(t@);
        }
        let pairs: Vec<(i64, i64)> = pairs_vec(&t);
        let tr: TrendResult = calculate_trend(&pairs);
        proof {
            assert(st_of(fs) == t@);
            if tpairs(t@).len() >= 2 && crate::trend::trend_denom(tpairs(t@)) != 0 {
            }
        }
        tr.slope
    } else {
        0
    };
    let pred: PredictionResult = predict_next_grade(&f);
    proof {
        assert(st_of(f@) == st_of(fs));
        if f@.len() == 1 {
            assert(f@[0]@ == fs[0]@);
        }
        assert(ens_value_fx(f@) == ens_value_fx(fs));
    }
    SubjectSummary {
        subject: String::from_str(subject),
        average,
        weighted_average,
        grade_count: n,
        total_weight: sums.1,
        highest: ex.1,
        lowest: ex.0,
        passing_count: pc,
        failing_count: n - pc,
        trend,
        predicted_next: pred.predicted_value,
    }
}

/// The distinct case-folded subjects of the grades, in order of first
/// appearance.
pub open spec fn distinct_subjects(s: Seq<Grade>) -> Seq<Seq<char>>
    decreases s.len(),
{
    if s.len() == 0 {
        Seq::empty()
    } else {
        let d = distinct_subjects(s.drop_last());
        if d.contains(lower_of(s.last().subject@)) {
            d
        } else {
            d.push(lower_of(s.last().subject@))
        }
    }
}

/// Unfolding the distinct-subject list over a growing prefix.
pub proof fn lemma_distinct_subjects_take(s: Seq<Grade>, i: int)
    requires
        0 <= i < s.len(),
    ensures
        distinct_subjects(s.take(i + 1)) == (if distinct_subjects(s.take(i)).contains(
            lower_of(s[i].subject@),
        ) {
            distinct_subjects(s.take(i))
        } else {
            distinct_subjects(s.take(i)).push(lower_of(s[i].subject@))
        }),
{
    assert(s.take(i + 1).drop_last() =~= s.take(i));
    assert(s.take(i + 1).last() == s[i]);
}

/// The distinct-subject list never repeats a key.
pub proof fn lemma_distinct_subjects_nodup(s: Seq<Grade>)
    ensures
        forall|j1: int, j2: int|
            0 <= j1 < j2 < distinct_subjects(s).len() ==> #[trigger] distinct_subjects(s)[j1]
                != #[trigger] distinct_subjects(s)[j2],
    decreases s.len(),
{
    if s.len() > 0 {
        lemma_distinct_subjects_nodup(s.drop_last());
        let d = distinct_subjects(s.drop_last());
        if !d.contains(lower_of(s.last().subject@)) {
            assert(forall|j: int| 0 <= j < d.len() ==> #[trigger] d[j] != lower_of(
                s.last().subject@,
            ));
        }
    }
}

/// Collect the distinct case-folded subject names, in order of first
/// appearance.
pub(crate) fn distinct_subject_names(grades: &Vec<Grade>) -> (r: Vec<String>)
    ensures
        r@.len() == distinct_subjects(grades@).len(),
        forall|j: int| 0 <= j < r@.len() ==> #[trigger] r@[j]@ == distinct_subjects(grades@)[j],
        forall|j1: int, j2: int|
            0 <= j1 < j2 < r@.len() ==> #[trigger] r@[j1]@ != #[trigger] r@[j2]@,
{
    let n: usize = grades.len();
    let mut keys: Vec<String> = Vec::new();
    let mut i: usize = 0;
    proof {
        assert(grades@.take(0) =~= Seq::<Grade>::empty());
    }
    while i < n
        invariant
            n == grades@.len(),
            0 <= i <= n,
            keys@.len() == distinct_subjects(grades@.take(i as int)).len(),
            forall|j: int| 0 <= j < keys@.len() ==> #[trigger] keys@[j]@ == distinct_subjects(
                grades@.take(i as int),
            )[j],
            forall|j1: int, j2: int|
                0 <= j1 < j2 < keys@.len() ==> #[trigger] keys@[j1]@ != #[trigger] keys@[j2]@,
        decreases n - i,
    {
        proof {
            lemma_distinct_subjects_take(grades@, i as int);
        }
        let kl: String = lowercase(grades[i].subject.as_str());
        let ghost key = lower_of(grades@[i as int].subject@);
        let mut j: usize = 0;
        let mut found: bool = false;
        while j < keys.len() && !found
            invariant
                0 <= j <= keys@.len(),
                kl@ == key,
                !found ==> forall|jj: int| 0 <= jj < j ==> #[trigger] keys@[jj]@ != key,
                found ==> j < keys@.len() && keys@[j as int]@ == key,
            decreases keys@.len() - j + (if found { 0int } else { 1int }),
        {
            let m: bool = str_eq(keys[j].as_str(), kl.as_str());
            if m {
                found = true;
            } else {
                j = j + 1;
            }
        }
        let ghost dk = distinct_subjects(grades@.take(i as int));
        if found {
            proof {
                assert(dk.contains(key)) by {
                    assert(dk[j as int] == key);
                }
            }
        } else {
            proof {
                if dk.contains(key) {
                    let jj = choose|jj: int| 0 <= jj < dk.len() && dk[jj] == key;
                    assert(keys@[jj]@ == key);
                    assert(false);
                }
            }
            keys.push(kl);
        }
        i = i + 1;
    }
    proof {
        assert(grades@.take(n as int) =~= grades@);
    }
    keys
}

/// Summaries of every subject, one per distinct case-folded subject, in
/// order of first appearance; each summary is pinned to its mirror.
pub fn get_all_subject_summaries(grades: &Vec<Grade>) -> (r: Vec<SubjectSummary>)
    requires
        grades_ok(grades@),
    ensures
        r@.len() == distinct_subjects(grades@).len(),
        forall|j: int| 0 <= j < r@.len() ==> is_subject_summary(
            #[trigger] r@[j],
            grades@,
            r@[j].subject@,
        ),
        forall|j: int| 0 <= j < r@.len() ==> (#[trigger] r@[j]).subject@ == distinct_subjects(
            grades@,
        )[j],
{
    let keys: Vec<String> = distinct_subject_names(grades);
    let ghost dk = distinct_subjects(grades@);
    let m: usize = keys.len();
    let mut out: Vec<SubjectSummary> = Vec::new();
    let mut i: usize = 0;
    while i < m
        invariant
            grades_ok(grades@),
            dk == distinct_subjects(grades@),
            m == keys@.len(),
            m == dk.len(),
            forall|j: int| 0 <= j < m ==> #[trigger] keys@[j]@ == dk[j],
            0 <= i <= m,
            out@.len() == i,
            forall|j: int| 0 <= j < i ==> is_subject_summary(
                #[trigger] out@[j],
                grades@,
                out@[j].subject@,
            ),
            forall|j: int| 0 <= j < i ==> (#[trigger] out@[j]).subject@ == dk[j],
        decreases m - i,
    {
        let ss: SubjectSummary = get_subject_summary(grades, keys[i].as_str());
        proof {
            assert(ss.subject@ == keys@[i as int]@) by {
                reveal(is_subject_summary);
            }
        }
        out.push(ss);
        i = i + 1;
    }
    out
}

/// The weighted average a summary would report for the subject with query
/// text `q`.
pub open spec fn subj_wavg(gs: Seq<Grade>, q: Seq<char>) -> int {
    let f = filter_subject(gs, lower_of(q));
    if f.len() == 0 {
        0
    } else {
        swavg_fx(f)
    }
}

/// The trend slope a summary would report for the subject with query text
/// `q`.
pub open spec fn subj_trend(gs: Seq<Grade>, q: Seq<char>) -> int {
    let f = filter_subject(gs, lower_of(q));
    if f.len() == 0 {
        0
    } else {
        strend_fx(f)
    }
}

/// Copy a summary field by field.
fn clone_summary(ss: &SubjectSummary) -> (r: SubjectSummary)
    ensures
        r.subject@ == ss.subject@,
        r.average == ss.average,
        r.weighted_average == ss.weighted_average,
        r.grade_count == ss.grade_count,
        r.total_weight == ss.total_weight,
        r.highest == ss.highest,
        r.lowest == ss.lowest,
        r.passing_count == ss.passing_count,
        r.failing_count == ss.failing_count,
        r.trend == ss.trend,
        r.predicted_next == ss.predicted_next,
{
    SubjectSummary {
        subject: String::from_str(ss.subject.as_str()),
        average: ss.average,
        weighted_average: ss.weighted_average,
        grade_count: ss.grade_count,
        total_weight: ss.total_weight,
        highest: ss.highest,
        lowest: ss.lowest,
        passing_count: ss.passing_count,
        failing_count: ss.failing_count,
        trend: ss.trend,
        predicted_next: ss.predicted_next,
    }
}

/// A cloned summary satisfies the same pinning predicate.
proof fn lemma_summary_clone(a: SubjectSummary, b: SubjectSummary, gs: Seq<Grade>)
    requires
        is_subject_summary(a, gs, a.subject@),
        b.subject@ == a.subject@,
        b.average == a.average,
        b.weighted_average == a.weighted_average,
        b.grade_count == a.grade_count,
        b.total_weight == a.total_weight,
        b.highest == a.highest,
        b.lowest == a.lowest,
        b.passing_count == a.passing_count,
        b.failing_count == a.failing_count,
        b.trend == a.trend,
        b.predicted_next == a.predicted_next,
    ensures
        is_subject_summary(b, gs, b.subject@),
{
    reveal(is_subject_summary);
}

/// The best and worst subjects by weighted average: the summaries attaining
/// the greatest and least weighted average (none when there are no grades).
pub fn find_extreme_subjects(grades: &Vec<Grade>) -> (r: (
    Option<SubjectSummary>,
    Option<SubjectSummary>,
))
    requires
        grades_ok(grades@),
    ensures
        r.0 is Some <==> distinct_subjects(grades@).len() > 0,
        r.1 is Some <==> distinct_subjects(grades@).len() > 0,
        r.0 is Some ==> {
            let b = r.0->Some_0;
            &&& is_subject_summary(b, grades@, b.subject@)
            &&& distinct_subjects(grades@).contains(b.subject@)
            &&& forall|k: int|
                0 <= k < distinct_subjects(grades@).len() ==> subj_wavg(
                    grades@,
                    #[trigger] distinct_subjects(grades@)[k],
                ) <= b.weighted_average
        },
        r.1 is Some ==> {
            let w = r.1->Some_0;
            &&& is_subject_summary(w, grades@, w.subject@)
            &&& distinct_subjects(grades@).contains(w.subject@)
            &&& forall|k: int|
                0 <= k < distinct_subjects(grades@).len() ==> subj_wavg(
                    grades@,
                    #[trigger] distinct_subjects(grades@)[k],
                ) >= w.weighted_average
        },
{
    let summaries: Vec<SubjectSummary> = get_all_subject_summaries(grades);
    let ghost dk = distinct_subjects(grades@);
    let m: usize = summaries.len();
    if m == 0 {
        return (None, None);
    }
    proof {
        assert(is_subject_summary(summaries@[0], grades@, summaries@[0].subject@));
        assert(summaries@[0].weighted_average == subj_wavg(grades@, dk[0])) by {
            reveal(is_subject_summary);
        }
    }
    let mut best: usize = 0;
    let mut worst: usize = 0;
    let mut j: usize = 1;
    while j < m
        invariant
            grades_ok(grades@),
            dk == distinct_subjects(grades@),
            m == summaries@.len(),
            m == dk.len(),
            forall|jj: int| 0 <= jj < m ==> is_subject_summary(
                #[trigger] summaries@[jj],
                grades@,
                summaries@[jj].subject@,
            ),
            forall|jj: int| 0 <= jj < m ==> (#[trigger] summaries@[jj]).subject@ == dk[jj],
            1 <= j <= m,
            best < m,
            worst < m,
            forall|k: int| 0 <= k < j ==> subj_wavg(grades@, #[trigger] dk[k])
                <= summaries@[best as int].weighted_average,
            forall|k: int| 0 <= k < j ==> subj_wavg(grades@, #[trigger] dk[k])
                >= summaries@[worst as int].weighted_average,
        decreases m - j,
    {
        proof {
            assert(summaries@[j as int].weighted_average == subj_wavg(grades@, dk[j as int])) by {
                reveal(is_subject_summary);
            }
        }
        if summaries[j].weighted_average >= summaries[best].weighted_average {
            best = j;
        }
        if summaries[j].weighted_average < summaries[worst].weighted_average {
            worst = j;
        }
        j = j + 1;
    }
    let b: SubjectSummary = clone_summary(&summaries[best]);
    let w: SubjectSummary = clone_summary(&summaries[worst]);
    proof {
        lemma_summary_clone(summaries@[best as int], b, grades@);
        lemma_summary_clone(summaries@[worst as int], w, grades@);
        assert(dk[best as int] == b.subject@);
        assert(dk[worst as int] == w.subject@);
    }
    (Some(b), Some(w))
}

/// The subjects that need attention, in summary order: weighted average
/// below six, or a declining trend steeper than a tenth per time unit.
pub open spec fn needs_attention(gs: Seq<Grade>, q: Seq<char>) -> bool {
    subj_wavg(gs, q) < 6 * SCALE as int || subj_trend(gs, q) < -1000
}

/// The distinct subjects needing attention, in order.
pub open spec fn attention_keys(gs: Seq<Grade>, keys: Seq<Seq<char>>) -> Seq<Seq<char>>
    decreases keys.len(),
{
    if keys.len() == 0 {
        Seq::empty()
    } else {
        let rest = attention_keys(gs, keys.drop_last());
        if needs_attention(gs, keys.last()) {
            rest.push(keys.last())
        } else {
            rest
        }
    }
}

/// Peeling one key off a prefix of the attention list.
proof fn lemma_attention_take(gs: Seq<Grade>, keys: Seq<Seq<char>>, i: int)
    requires
        0 <= i < keys.len(),
    ensures
        attention_keys(gs, keys.take(i + 1)) == (if needs_attention(gs, keys[i]) {
            attention_keys(gs, keys.take(i)).push(keys[i])
        } else {
            attention_keys(gs, keys.take(i))
        }),
{
    assert(keys.take(i + 1).drop_last() =~= keys.take(i));
    assert(keys.take(i + 1).last() == keys[i]);
}

/// Summaries of the subjects needing attention (failing or declining), in
/// summary order.
pub fn get_attention_needed(grades: &Vec<Grade>) -> (r: Vec<SubjectSummary>)
    requires
        grades_ok(grades@),
    ensures
        r@.len() == attention_keys(grades@, distinct_subjects(grades@)).len(),
        forall|j: int| 0 <= j < r@.len() ==> is_subject_summary(
            #[trigger] r@[j],
            grades@,
            r@[j].subject@,
        ),
        forall|j: int| 0 <= j < r@.len() ==> (#[trigger] r@[j]).subject@ == attention_keys(
            grades@,
            distinct_subjects(grades@),
        )[j],
{
    let summaries: Vec<SubjectSummary> = get_all_subject_summaries(grades);
    let ghost dk = distinct_subjects(grades@);
    let m: usize = summaries.len();
    let mut out: Vec<SubjectSummary> = Vec::new();
    let mut j: usize = 0;
    proof {
        assert(dk.take(0) =~= Seq::<Seq<char>>::empty());
    }
    let mut src: Vec<SubjectSummary> = summaries;
    let mut taken: usize = 0;
    while taken < m
        invariant
            grades_ok(grades@),
            dk == distinct_subjects(grades@),
            m == dk.len(),
            src@.len() + taken == m,
            forall|jj: int| 0 <= jj < src@.len() ==> is_subject_summary(
                #[trigger] src@[jj],
                grades@,
                src@[jj].subject@,
            ),
            forall|jj: int| 0 <= jj < src@.len() ==> (#[trigger] src@[jj]).subject@ == dk[taken
                + jj],
            0 <= taken <= m,
            out@.len() == attention_keys(grades@, dk.take(taken as int)).len(),
            forall|jj: int| 0 <= jj < out@.len() ==> is_subject_summary(
                #[trigger] out@[jj],
                grades@,
                out@[jj].subject@,
            ),
            forall|jj: int| 0 <= jj < out@.len() ==> (#[trigger] out@[jj]).subject@
                == attention_keys(grades@, dk.take(taken as int))[jj],
        decreases m - taken,
    {
        let ss: SubjectSummary = src.remove(0);
        proof {
            lemma_attention_take(grades@, dk, taken as int);
            assert(ss.subject@ == dk[taken as int]);
            assert(ss.weighted_average == subj_wavg(grades@, ss.subject@) && ss.trend
                == subj_trend(grades@, ss.subject@)) by {
                reveal(is_subject_summary);
            }
        }
        if ss.weighted_average < 6 * SCALE || ss.trend < -1000 {
            out.push(ss);
        }
        taken = taken + 1;
    }
    proof {
        assert(dk.take(m as int) =~= dk);
    }
    out
}

/// The complete analytics bundle over one grade list.
#[derive(Clone, Debug)]
pub struct AnalyticsResult {
    pub overall_average: i64,
    pub weighted_average: i64,
    pub gpa: i64,
    pub total_grades: usize,
    pub passing_grades: usize,
    pub failing_grades: usize,
    pub pass_rate: i64,
    pub subjects: Vec<SubjectSummary>,
    pub statistics: Statistics,
    pub trend: TrendResult,
    pub predictions: Vec<PredictionResult>,
}

/// Comprehensive analytics: overall and weighted averages, GPA under the
/// standard scale, pass tallies, one summary and one ensemble prediction
/// per subject, descriptive statistics of all values, and the overall
/// time-ordered trend.
pub fn analyze_all(grades: &Vec<Grade>) -> (r: AnalyticsResult)
    requires
        grades_ok(grades@),
    ensures
        r.overall_average == crate::grades::simple_average_fx(grades@),
        r.weighted_average == crate::grades::weighted_average_fx(grades@),
        r.gpa == crate::grades::gpa_fx(grades@, 10 * SCALE as int, 4 * SCALE as int),
        r.total_grades == grades@.len(),
        r.passing_grades as int == count_pass(grades@),
        r.failing_grades as int == grades@.len() - count_pass(grades@),
        grades@.len() > 0 ==> r.pass_rate as int == crate::grades::pass_rate_fx(grades@),
        grades@.len() == 0 ==> r.pass_rate == 0,
        r.subjects@.len() == distinct_subjects(grades@).len(),
        forall|j: int| 0 <= j < r.subjects@.len() ==> is_subject_summary(
            #[trigger] r.subjects@[j],
            grades@,
            r.subjects@[j].subject@,
        ),
        forall|j: int| 0 <= j < r.subjects@.len() ==> (#[trigger] r.subjects@[j]).subject@
            == distinct_subjects(grades@)[j],
        stats_match(r.statistics, gvals_of(grades@)),
        trend_match(r.trend, tpairs(st_of(grades@))),
        r.predictions@.len() == distinct_subjects(grades@).len(),
        forall|j: int| 0 <= j < r.predictions@.len() ==> is_ensemble_prediction(
            #[trigger] r.predictions@[j],
            filter_subject(grades@, lower_of(distinct_subjects(grades@)[j])),
        ),
{
    let overall_average: i64 = crate::grades::calculate_simple_average(grades);
    let weighted_average: i64 = crate::grades::calculate_weighted_average(grades);
    let scale: crate::grades::GpaScale = Default::default();
    let gpa: i64 = crate::grades::calculate_gpa(grades, &scale);
    let pass_fail: crate::grades::PassFailStats = crate::grades::calculate_pass_fail_stats(
        grades,
    );
    let subjects: Vec<SubjectSummary> = get_all_subject_summaries(grades);
    let ghost dk = distinct_subjects(grades@);
    let mut values: Vec<i64> = Vec::new();
    let n: usize = grades.len();
    let mut i: usize = 0;
    while i < n
        invariant
            n == grades@.len(),
            grades_ok(grades@),
            0 <= i <= n,
            values@.len() == i,
            forall|j: int| 0 <= j < i ==> #[trigger] values@[j] == grades@[j].value,
        decreases n - i,
    {
        let v: i64 = grades[i].value;
        values.push(v);
        i = i + 1;
    }
    proof {
        assert(values@ =~= gvals_of(grades@));
        assert(vals_ok(values@)) by {
            assert forall|j: int| 0 <= j < values@.len() implies #[trigger] fx_ok(
                values@[j] as int,
            ) by {
                assert(grade_ok(grades@[j]));
            }
        }
    }
    let statistics: Statistics = calculate_statistics(&values);
    let trips: Vec<(i64, i64, i64)> = trips_vec(grades);
    let t: Vec<(i64, i64, i64)> = sorted_by_ts(&trips);
    proof {
        lemma_trips_of_ok(grades@);
        crate::predictions::lemma_tpairs_ok(t@);
    }
    let pairs: Vec<(i64, i64)> = pairs_vec(&t);
    let trend: TrendResult = calculate_trend(&pairs);
    let m: usize = subjects.len();
    let mut predictions: Vec<PredictionResult> = Vec::new();
    let mut j: usize = 0;
    while j < m
        invariant
            grades_ok(grades@),
            dk == distinct_subjects(grades@),
            m == subjects@.len(),
            m == dk.len(),
            forall|jj: int| 0 <= jj < m ==> (#[trigger] subjects@[jj]).subject@ == dk[jj],
            0 <= j <= m,
            predictions@.len() == j,
            forall|jj: int| 0 <= jj < j ==> is_ensemble_prediction(
                #[trigger] predictions@[jj],
                filter_subject(grades@, lower_of(dk[jj])),
            ),
        decreases m - j,
    {
        let ghost key = lower_of(dk[j as int]);
        let ghost fs = filter_subject(grades@, key);
        let f: Vec<Grade> = filter_by_subject(grades, subjects[j].subject.as_str());
        proof {
            lemma_filter_subject_ok(grades@, key);
            assert forall|jj: int| 0 <= jj < f@.len() implies #[trigger] trips_of(f@)[jj]
                == trips_of(fs)[jj] by {
                assert(f@[jj]@ == fs[jj]@);
            }
            assert(trips_of(f@) =~= trips_of(fs));
            if f@.len() == 1 {
                assert(f@[0]@ == fs[0]@);
            }
        }
        let pred: PredictionResult = predict_next_grade(&f);
        proof {
            assert(st_of(f@) == st_of(fs));
            assert(is_ensemble_prediction(pred, fs));
        }
        predictions.push(pred);
        j = j + 1;
    }
    AnalyticsResult {
        overall_average,
        weighted_average,
        gpa,
        total_grades: n,
        passing_grades: pass_fail.passing,
        failing_grades: pass_fail.failing,
        pass_rate: pass_fail.pass_rate,
        subjects,
        statistics,
        trend,
        predictions,
    }
}

} // verus!
