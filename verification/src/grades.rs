//! Grade bookkeeping: weighted averages, GPA conversion, per-subject
//! aggregation, pass/fail tallies, monthly grouping and running averages.

use vstd::prelude::*;
use vstd::string::StrSliceExecFns;
use vstd::string::StringExecFns;
use crate::fx::{
    SCALE, VAL_BOUND, LEN_BOUND, TS_BOUND, fx_ok, tdiv, tclamp, lemma_tdiv_nonneg, lemma_tdiv_abs,
    lemma_tdiv_bracket_gen, divt64, divt128, clamp64,
};
use crate::seqs::{sort_ts, sorted_ts, lemma_sort_ts_props, lemma_sort_ts_elems, sorted_by_ts};

verus! {

/// One grade entry: a fixed-point value in `[1, 10]` notionally, a
/// non-negative fixed-point weight, a subject, a free-form description, a
/// millisecond timestamp, and the derived passing flag.
#[derive(Debug)]
pub struct Grade {
    pub value: i64,
    pub weight: i64,
    pub subject: String,
    pub description: String,
    pub timestamp: i64,
    pub is_passing: bool,
}

/// The mathematical content of a grade.
pub ghost struct GradeV {
    pub value: int,
    pub weight: int,
    pub subject: Seq<char>,
    pub description: Seq<char>,
    pub timestamp: int,
    pub is_passing: bool,
}

impl View for Grade {
    type V = GradeV;

    open spec fn view(&self) -> GradeV {
        GradeV {
            value: self.value as int,
            weight: self.weight as int,
            subject: self.subject@,
            description: self.description@,
            timestamp: self.timestamp as int,
            is_passing: self.is_passing,
        }
    }
}

/// The fixed-point passing threshold (5.5).
pub const PASS_MARK: i64 = 55_000;

impl Grade {
    /// Build a grade; it is passing when the value reaches the 5.5 mark.
    pub fn new(
        value: i64,
        weight: i64,
        subject: String,
        description: String,
        timestamp: i64,
    ) -> (r: Grade)
        ensures
            r.value == value,
            r.weight == weight,
            r.subject@ == subject@,
            r.description@ == description@,
            r.timestamp == timestamp,
            r.is_passing == (value >= PASS_MARK),
    {
        let is_passing: bool = value >= PASS_MARK;
        Grade { value, weight, subject, description, timestamp, is_passing }
    }
}

/// A grade is within the engine's fixed-point domain: in-range value,
/// non-negative bounded weight, bounded timestamp.
pub open spec fn grade_ok(g: Grade) -> bool {
    fx_ok(g.value as int) && 0 <= g.weight <= VAL_BOUND && -TS_BOUND <= g.timestamp <= TS_BOUND
}

/// A grade list is an acceptable engine input.
pub open spec fn grades_ok(s: Seq<Grade>) -> bool {
    s.len() <= LEN_BOUND && (forall|i: int| 0 <= i < s.len() ==> grade_ok(#[trigger] s[i]))
}

/// Copy a grade field by field (the contract pins every field's content).
pub fn clone_grade(g: &Grade) -> (r: Grade)
    ensures
        r@ == g@,
{
    Grade {
        value: g.value,
        weight: g.weight,
        subject: String::from_str(g.subject.as_str()),
        description: String::from_str(g.description.as_str()),
        timestamp: g.timestamp,
        is_passing: g.is_passing,
    }
}

/// Character-for-character string equality.
pub fn str_eq(a: &str, b: &str) -> (r: bool)
    ensures
        r == (a@ == b@),
{
    let la: usize = a.unicode_len();
    let lb: usize = b.unicode_len();
    if la != lb {
        proof {
            assert(a@ != b@) by {
                assert(a@.len() != b@.len());
            }
        }
        return false;
    }
    let mut i: usize = 0;
    while i < la
        invariant
            la as nat == a@.len(),
            la as nat == b@.len(),
            0 <= i <= la,
            forall|j: int| 0 <= j < i ==> a@[j] == #[trigger] b@[j],
        decreases la - i,
    {
        let ca: char = a.get_char(i);
        let cb: char = b.get_char(i);
        if ca != cb {
            proof {
                assert(a@[i as int] != b@[i as int]);
            }
            return false;
        }
        i = i + 1;
    }
    proof {
        assert(a@ =~= b@);
    }
    true
}

/// The case-folded form of a character sequence, as `str::to_lowercase`
/// computes it: a pure function of the characters alone.
pub uninterp spec fn lower_of(s: Seq<char>) -> Seq<char>;

/// Relies on str::to_lowercase: the result depends on the characters alone
/// and is the Unicode lowercase form of the input.
#[verifier::external_body]
pub(crate) fn lowercase(s: &str) -> (r: String)
    ensures
        r@ == lower_of(s@),
{
    s.to_lowercase()
}

/// Whether a grade belongs to the subject with case-folded key `key`.
pub open spec fn subject_matches(g: Grade, key: Seq<char>) -> bool {
    lower_of(g.subject@) == key
}

/// Case-insensitive comparison of a grade's subject with a query subject.
fn grade_subject_eq(g: &Grade, subject_lower: &String) -> (r: bool)
    requires
        exists|q: Seq<char>| subject_lower@ == lower_of(q),
    ensures
        r == subject_matches(*g, subject_lower@),
{
    let gl: String = lowercase(g.subject.as_str());
    str_eq(gl.as_str(), subject_lower.as_str())
}

/// The grades of one subject, in order of appearance.
pub open spec fn filter_subject(s: Seq<Grade>, key: Seq<char>) -> Seq<Grade>
    decreases s.len(),
{
    if s.len() == 0 {
        Seq::empty()
    } else {
        let rest = filter_subject(s.drop_last(), key);
        if subject_matches(s.last(), key) {
            rest.push(s.last())
        } else {
            rest
        }
    }
}

/// Peeling one element off a prefix of the subject filter.
pub proof fn lemma_filter_subject_take(s: Seq<Grade>, key: Seq<char>, i: int)
    requires
        0 <= i < s.len(),
    ensures
        filter_subject(s.take(i + 1), key) == (if subject_matches(s[i], key) {
            filter_subject(s.take(i), key).push(s[i])
        } else {
            filter_subject(s.take(i), key)
        }),
{
    assert(s.take(i + 1).drop_last() =~= s.take(i));
    assert(s.take(i + 1).last() == s[i]);
}

/// The subject filter keeps only (all) grades of the subject, in order, and
/// its result is again an acceptable grade list.
pub proof fn lemma_filter_subject_ok(s: Seq<Grade>, key: Seq<char>)
    requires
        grades_ok(s),
    ensures
        grades_ok(filter_subject(s, key)),
        filter_subject(s, key).len() <= s.len(),
    decreases s.len(),
{
    if s.len() > 0 {
        assert(grades_ok(s.drop_last())) by {
            assert(forall|i: int| 0 <= i < s.drop_last().len() ==> s.drop_last()[i]
                == #[trigger] s[i]);
        }
        lemma_filter_subject_ok(s.drop_last(), key);
        assert(grade_ok(s[s.len() - 1]));
    }
}

/// Sum of grade values.
pub open spec fn sum_gv(s: Seq<Grade>) -> int
    decreases s.len(),
{
    if s.len() == 0 {
        0
    } else {
        sum_gv(s.drop_last()) + s.last().value
    }
}

/// Sum of grade weights.
pub open spec fn sum_gw(s: Seq<Grade>) -> int
    decreases s.len(),
{
    if s.len() == 0 {
        0
    } else {
        sum_gw(s.drop_last()) + s.last().weight
    }
}

/// Sum of value-weight products.
pub open spec fn sum_gvw(s: Seq<Grade>) -> int
    decreases s.len(),
{
    if s.len() == 0 {
        0
    } else {
        sum_gvw(s.drop_last()) + s.last().value * s.last().weight
    }
}

/// Peeling one element off the prefix grade sums.
pub proof fn lemma_grade_sums_take(s: Seq<Grade>, i: int)
    requires
        0 <= i < s.len(),
    ensures
        sum_gv(s.take(i + 1)) == sum_gv(s.take(i)) + s[i].value,
        sum_gw(s.take(i + 1)) == sum_gw(s.take(i)) + s[i].weight,
        sum_gvw(s.take(i + 1)) == sum_gvw(s.take(i)) + s[i].value * s[i].weight,
{
    assert(s.take(i + 1).drop_last() =~= s.take(i));
    assert(s.take(i + 1).last() == s[i]);
}

/// Bounds on the grade sums: the weighted sum is bracketed by the total
/// weight scaled by the value bound, so weighted averages stay in range.
pub proof fn lemma_grade_sums_bounds(s: Seq<Grade>)
    requires
        forall|i: int| 0 <= i < s.len() ==> grade_ok(#[trigger] s[i]),
    ensures
        -(s.len() * (VAL_BOUND as int)) <= sum_gv(s) <= s.len() * (VAL_BOUND as int),
        0 <= sum_gw(s) <= s.len() * (VAL_BOUND as int),
        -((VAL_BOUND as int) * sum_gw(s)) <= sum_gvw(s) <= (VAL_BOUND as int) * sum_gw(s),
    decreases s.len(),
{
    if s.len() == 0 {
    } else {
        assert(forall|i: int| 0 <= i < s.drop_last().len() ==> grade_ok(
            #[trigger] s.drop_last()[i],
        ));
        lemma_grade_sums_bounds(s.drop_last());
        assert(grade_ok(s[s.len() - 1]));
        let v = s.last().value as int;
        let w = s.last().weight as int;
        assert(-((VAL_BOUND as int) * w) <= v * w <= (VAL_BOUND as int) * w) by (nonlinear_arith)
            requires -(VAL_BOUND as int) <= v <= VAL_BOUND as int && w >= 0,
        ;
        assert((s.len() - 1) * (VAL_BOUND as int) + VAL_BOUND as int == s.len()
            * (VAL_BOUND as int)) by (nonlinear_arith);
        assert((VAL_BOUND as int) * (sum_gw(s.drop_last()) + w) == (VAL_BOUND as int) * sum_gw(
            s.drop_last(),
        ) + (VAL_BOUND as int) * w) by (nonlinear_arith);
    }
}

/// Mirror of the simple (unweighted) average of grade values.
pub open spec fn simple_average_fx(s: Seq<Grade>) -> int {
    if s.len() == 0 {
        0
    } else {
        tdiv(sum_gv(s), s.len() as int)
    }
}

/// Mirror of the weighted average: the value-weight products over the total
/// weight, falling back to the simple average for zero total weight.
pub open spec fn weighted_average_fx(s: Seq<Grade>) -> int {
    if s.len() == 0 {
        0
    } else if sum_gw(s) == 0 {
        simple_average_fx(s)
    } else {
        tdiv(sum_gvw(s), sum_gw(s))
    }
}

/// Both average mirrors stay within the fixed-point domain.
pub proof fn lemma_averages_ok(s: Seq<Grade>)
    requires
        forall|i: int| 0 <= i < s.len() ==> grade_ok(#[trigger] s[i]),
    ensures
        fx_ok(simple_average_fx(s)),
        fx_ok(weighted_average_fx(s)),
{
    if s.len() > 0 {
        lemma_grade_sums_bounds(s);
        assert((-(VAL_BOUND as int)) * (s.len() as int) == -(s.len() * (VAL_BOUND as int)))
            by (nonlinear_arith);
        assert((VAL_BOUND as int) * (s.len() as int) == s.len() * (VAL_BOUND as int))
            by (nonlinear_arith);
        lemma_tdiv_bracket_gen(sum_gv(s), s.len() as int, -VAL_BOUND as int, VAL_BOUND as int);
        if sum_gw(s) != 0 {
            assert((-(VAL_BOUND as int)) * sum_gw(s) == -((VAL_BOUND as int) * sum_gw(s)))
                by (nonlinear_arith);
            lemma_tdiv_bracket_gen(sum_gvw(s), sum_gw(s), -VAL_BOUND as int, VAL_BOUND as int);
        }
    }
}

/// The three grade sums of a list, computed in one pass.
pub fn grade_sums(grades: &Vec<Grade>) -> (r: (i64, i64, i128))
    requires
        grades_ok(grades@),
    ensures
        r.0 as int == sum_gv(grades@),
        r.1 as int == sum_gw(grades@),
        r.2 as int == sum_gvw(grades@),
        -100_000_000_000 <= r.0 <= 100_000_000_000,
        0 <= r.1 <= 100_000_000_000,
        -1_000_000_000_000_000_000 <= r.2 <= 1_000_000_000_000_000_000,
{
    let n: usize = grades.len();
    let mut sv: i64 = 0;
    let mut sw: i64 = 0;
    let mut svw: i128 = 0;
    let mut i: usize = 0;
    proof {
        assert(grades@.take(0) =~= Seq::<Grade>::empty());
    }
    while i < n
        invariant
            n == grades@.len(),
            n <= LEN_BOUND,
            grades_ok(grades@),
            0 <= i <= n,
            sv as int == sum_gv(grades@.take(i as int)),
            sw as int == sum_gw(grades@.take(i as int)),
            svw as int == sum_gvw(grades@.take(i as int)),
            -((i as int) * (VAL_BOUND as int)) <= sv as int <= (i as int) * (VAL_BOUND as int),
            0 <= sw as int <= (i as int) * (VAL_BOUND as int),
            -((i as int) * 100_000_000_000_000int) <= svw as int <= (i as int)
                * 100_000_000_000_000int,
        decreases n - i,
    {
        proof {
            lemma_grade_sums_take(grades@, i as int);
            assert(grade_ok(grades@[i as int]));
            let v = grades@[i as int].value as int;
            let w = grades@[i as int].weight as int;
            assert(-100_000_000_000_000int <= v * w <= 100_000_000_000_000int)
                by (nonlinear_arith)
                requires
                    -10_000_000 <= v <= 10_000_000,
                    0 <= w <= 10_000_000,
            ;
            assert((i as int) * (VAL_BOUND as int) + VAL_BOUND as int == ((i + 1) as int)
                * (VAL_BOUND as int)) by (nonlinear_arith);
            assert((i as int) * 100_000_000_000_000int + 100_000_000_000_000int == ((i
                + 1) as int) * 100_000_000_000_000int) by (nonlinear_arith);
            assert(((i + 1) as int) * (VAL_BOUND as int) <= (LEN_BOUND as int)
                * (VAL_BOUND as int)) by (nonlinear_arith)
                requires (i + 1) as int <= LEN_BOUND as int,
            ;
            assert(((i + 1) as int) * 100_000_000_000_000int <= (LEN_BOUND as int)
                * 100_000_000_000_000int) by (nonlinear_arith)
                requires (i + 1) as int <= LEN_BOUND as int,
            ;
        }
        let g_v: i64 = grades[i].value;
        let g_w: i64 = grades[i].weight;
        sv = sv + g_v;
        sw = sw + g_w;
        svw = svw + (g_v as i128) * (g_w as i128);
        i = i + 1;
    }
    proof {
        assert(grades@.take(n as int) =~= grades@);
        assert((n as int) * (VAL_BOUND as int) <= 100_000_000_000int) by (nonlinear_arith)
            requires n as int <= 10000 && VAL_BOUND as int == 10_000_000,
        ;
        assert((n as int) * 100_000_000_000_000int <= 1_000_000_000_000_000_000int)
            by (nonlinear_arith)
            requires n as int <= 10000,
        ;
    }
    (sv, sw, svw)
}

/// Simple (unweighted) average of the grade values; zero when empty.
pub fn calculate_simple_average(grades: &Vec<Grade>) -> (r: i64)
    requires
        grades_ok(grades@),
    ensures
        r == simple_average_fx(grades@),
        fx_ok(r as int),
{
    let n: usize = grades.len();
    if n == 0 {
        return 0;
    }
    let sums = grade_sums(grades);
    proof {
        lemma_averages_ok(grades@);
        lemma_tdiv_abs(sum_gv(grades@), n as int);
    }
    divt64(sums.0, n as i64)
}

/// Weighted average of the grades (weights as multipliers); falls back to
/// the simple average when all weights are zero; zero when empty.
pub fn calculate_weighted_average(grades: &Vec<Grade>) -> (r: i64)
    requires
        grades_ok(grades@),
    ensures
        r == weighted_average_fx(grades@),
        fx_ok(r as int),
{
    let n: usize = grades.len();
    if n == 0 {
        return 0;
    }
    let sums = grade_sums(grades);
    proof {
        lemma_averages_ok(grades@);
        lemma_grade_sums_bounds(grades@);
    }
    if sums.1 == 0 {
        proof {
            lemma_tdiv_abs(sum_gv(grades@), n as int);
        }
        divt64(sums.0, n as i64)
    } else {
        proof {
            lemma_tdiv_abs(sum_gvw(grades@), sum_gw(grades@));
        }
        let q: i128 = divt128(sums.2, sums.1 as i128);
        q as i64
    }
}

/// Configuration of the GPA rescaling: the source scale's ceiling, the
/// (informational) passing mark, and the target scale's ceiling.
#[derive(Clone, Debug, PartialEq)]
pub struct GpaScale {
    pub max_grade: i64,
    pub passing_grade: i64,
    pub gpa_max: i64,
}

impl Default for GpaScale {
    /// The standard scale: grades 1..10, passing at 5.5, GPA ceiling 4.0.
    fn default() -> (r: GpaScale)
        ensures
            r.max_grade == 10 * SCALE,
            r.passing_grade == PASS_MARK as int,
            r.gpa_max == 4 * SCALE,
    {
        GpaScale { max_grade: 10 * SCALE, passing_grade: PASS_MARK, gpa_max: 4 * SCALE }
    }
}

/// Mirror of the GPA conversion: linear rescaling of the weighted average
/// from `[1, max_grade]` onto `[0, gpa_max]`, clamped into that range.
pub open spec fn gpa_fx(s: Seq<Grade>, max_grade: int, gpa_max: int) -> int {
    if s.len() == 0 {
        0
    } else {
        tclamp(
            tdiv((weighted_average_fx(s) - SCALE) * gpa_max, max_grade - SCALE),
            0,
            gpa_max,
        )
    }
}

/// GPA of the grades under the given scale; zero when empty.
pub fn calculate_gpa(grades: &Vec<Grade>, scale: &GpaScale) -> (r: i64)
    requires
        grades_ok(grades@),
        scale.max_grade > SCALE,
        0 <= scale.gpa_max <= VAL_BOUND,
    ensures
        r == gpa_fx(grades@, scale.max_grade as int, scale.gpa_max as int),
        0 <= r <= scale.gpa_max,
{
    let n: usize = grades.len();
    if n == 0 {
        return 0;
    }
    let wavg: i64 = calculate_weighted_average(grades);
    proof {
        let num = (wavg as int - SCALE) * (scale.gpa_max as int);
        assert(-200_000_000_000_000int <= num <= 200_000_000_000_000int) by (nonlinear_arith)
            requires
                -20_000_000 <= wavg as int - SCALE <= 20_000_000,
                0 <= scale.gpa_max as int <= 10_000_000,
                num == (wavg as int - SCALE) * (scale.gpa_max as int),
        ;
        lemma_tdiv_abs(num, scale.max_grade as int - SCALE as int);
    }
    let q: i128 = divt128(
        ((wavg - SCALE) as i128) * (scale.gpa_max as i128),
        (scale.max_grade - SCALE) as i128,
    );
    let unclamped: i64 = q as i64;
    clamp64(unclamped, 0, scale.gpa_max)
}

/// Average for one subject (case-insensitive match): weighted by default,
/// unweighted when the subject's weights are all zero; zero when the subject
/// has no grades.
pub open spec fn subject_average_fx(s: Seq<Grade>, key: Seq<char>) -> int {
    let f = filter_subject(s, key);
    if f.len() == 0 {
        0
    } else if sum_gw(f) == 0 {
        tdiv(sum_gv(f), f.len() as int)
    } else {
        tdiv(sum_gvw(f), sum_gw(f))
    }
}

/// Collect the grades of one subject (case-insensitive), preserving order.
pub fn filter_by_subject(grades: &Vec<Grade>, subject: &str) -> (r: Vec<Grade>)
    requires
        grades_ok(grades@),
    ensures
        r@.len() == filter_subject(grades@, lower_of(subject@)).len(),
        forall|j: int| 0 <= j < r@.len() ==> #[trigger] r@[j]@ == filter_subject(
            grades@,
            lower_of(subject@),
        )[j]@,
        grades_ok(r@),
    decreases grades@.len(),
{
    let ghost key = lower_of(subject@);
    let sl: String = lowercase(subject);
    let n: usize = grades.len();
    let mut r: Vec<Grade> = Vec::new();
    let mut i: usize = 0;
    proof {
        assert(grades@.take(0) =~= Seq::<Grade>::empty());
        lemma_filter_subject_ok(grades@, key);
    }
    while i < n
        invariant
            n == grades@.len(),
            grades_ok(grades@),
            key == lower_of(subject@),
            sl@ == key,
            exists|q: Seq<char>| sl@ == lower_of(q),
            0 <= i <= n,
            r@.len() == filter_subject(grades@.take(i as int), key).len(),
            forall|j: int| 0 <= j < r@.len() ==> #[trigger] r@[j]@ == filter_subject(
                grades@.take(i as int),
                key,
            )[j]@,
            grades_ok(r@),
        decreases n - i,
    {
        proof {
            lemma_filter_subject_take(grades@, key, i as int);
            assert(grade_ok(grades@[i as int]));
            lemma_filter_subject_ok(grades@.take(i as int), key);
            assert(grades@.take(i as int).len() <= n);
        }
        let m: bool = grade_subject_eq(&grades[i], &sl);
        if m {
            let c: Grade = clone_grade(&grades[i]);
            r.push(c);
        }
        i = i + 1;
    }
    proof {
        assert(grades@.take(n as int) =~= grades@);
    }
    r
}

/// Average of the grades of one subject (case-insensitive).
pub fn calculate_subject_average(grades: &Vec<Grade>, subject: &str) -> (r: i64)
    requires
        grades_ok(grades@),
    ensures
        r == subject_average_fx(grades@, lower_of(subject@)),
        fx_ok(r as int),
{
    let ghost key = lower_of(subject@);
    let f: Vec<Grade> = filter_by_subject(grades, subject);
    proof {
        lemma_filter_subject_ok(grades@, key);
        lemma_sums_by_views(f@, filter_subject(grades@, key));
    }
    let n: usize = f.len();
    if n == 0 {
        return 0;
    }
    let sums = grade_sums(&f);
    proof {
        lemma_averages_ok(filter_subject(grades@, key));
        lemma_grade_sums_bounds(f@);
    }
    if sums.1 == 0 {
        proof {
            lemma_tdiv_abs(sum_gv(f@), n as int);
        }
        divt64(sums.0, n as i64)
    } else {
        proof {
            lemma_tdiv_abs(sum_gvw(f@), sum_gw(f@));
        }
        let q: i128 = divt128(sums.2, sums.1 as i128);
        q as i64
    }
}

/// Two grade lists with equal views have equal sums.
pub proof fn lemma_sums_by_views(a: Seq<Grade>, b: Seq<Grade>)
    requires
        a.len() == b.len(),
        forall|j: int| 0 <= j < a.len() ==> #[trigger] a[j]@ == b[j]@,
    ensures
        sum_gv(a) == sum_gv(b),
        sum_gw(a) == sum_gw(b),
        sum_gvw(a) == sum_gvw(b),
    decreases a.len(),
{
    if a.len() > 0 {
        assert(forall|j: int| 0 <= j < a.drop_last().len() ==> #[trigger] a.drop_last()[j]@
            == b.drop_last()[j]@) by {
            assert(forall|j: int| 0 <= j < a.len() - 1 ==> a.drop_last()[j] == #[trigger] a[j]
                && b.drop_last()[j] == b[j]);
        }
        lemma_sums_by_views(a.drop_last(), b.drop_last());
        assert(a[a.len() - 1]@ == b[b.len() - 1]@);
    }
}

/// Pass/fail tallies and class averages over a grade list.
#[derive(Clone, Debug, PartialEq)]
pub struct PassFailStats {
    pub total: usize,
    pub passing: usize,
    pub failing: usize,
    pub pass_rate: i64,
    pub fail_rate: i64,
    pub average_passing: i64,
    pub average_failing: i64,
}

/// Count of passing grades.
pub open spec fn count_pass(s: Seq<Grade>) -> int
    decreases s.len(),
{
    if s.len() == 0 {
        0
    } else {
        count_pass(s.drop_last()) + (if s.last().is_passing {
            1int
        } else {
            0int
        })
    }
}

/// Sum of passing grade values.
pub open spec fn sum_pass(s: Seq<Grade>) -> int
    decreases s.len(),
{
    if s.len() == 0 {
        0
    } else {
        sum_pass(s.drop_last()) + (if s.last().is_passing {
            s.last().value as int
        } else {
            0int
        })
    }
}

/// Sum of failing grade values.
pub open spec fn sum_fail(s: Seq<Grade>) -> int
    decreases s.len(),
{
    if s.len() == 0 {
        0
    } else {
        sum_fail(s.drop_last()) + (if s.last().is_passing {
            0int
        } else {
            s.last().value as int
        })
    }
}

/// Peeling one element off the prefix pass/fail sums.
pub proof fn lemma_pass_sums_take(s: Seq<Grade>, i: int)
    requires
        0 <= i < s.len(),
    ensures
        count_pass(s.take(i + 1)) == count_pass(s.take(i)) + (if s[i].is_passing {
            1int
        } else {
            0int
        }),
        sum_pass(s.take(i + 1)) == sum_pass(s.take(i)) + (if s[i].is_passing {
            s[i].value as int
        } else {
            0int
        }),
        sum_fail(s.take(i + 1)) == sum_fail(s.take(i)) + (if s[i].is_passing {
            0int
        } else {
            s[i].value as int
        }),
{
    assert(s.take(i + 1).drop_last() =~= s.take(i));
    assert(s.take(i + 1).last() == s[i]);
}

/// The pass count and class sums are bounded.
pub proof fn lemma_pass_sums_bounds(s: Seq<Grade>)
    requires
        forall|i: int| 0 <= i < s.len() ==> grade_ok(#[trigger] s[i]),
    ensures
        0 <= count_pass(s) <= s.len(),
        -(s.len() * (VAL_BOUND as int)) <= sum_pass(s) <= s.len() * (VAL_BOUND as int),
        -(s.len() * (VAL_BOUND as int)) <= sum_fail(s) <= s.len() * (VAL_BOUND as int),
    decreases s.len(),
{
    if s.len() > 0 {
        assert(forall|i: int| 0 <= i < s.drop_last().len() ==> grade_ok(
            #[trigger] s.drop_last()[i],
        ));
        lemma_pass_sums_bounds(s.drop_last());
        assert(grade_ok(s[s.len() - 1]));
        assert((s.len() - 1) * (VAL_BOUND as int) + VAL_BOUND as int == s.len()
            * (VAL_BOUND as int)) by (nonlinear_arith);
    }
}

/// Mirror of the pass rate as a fixed-point percentage.
pub open spec fn pass_rate_fx(s: Seq<Grade>) -> int {
    tdiv(count_pass(s) * 100 * SCALE, s.len() as int)
}

/// Pass/fail statistics: counts, rates (fixed-point percentages) and the
/// average value of each class; the all-zero record when empty.
pub fn calculate_pass_fail_stats(grades: &Vec<Grade>) -> (r: PassFailStats)
    requires
        grades_ok(grades@),
    ensures
        r.total == grades@.len(),
        r.passing as int == count_pass(grades@),
        r.failing as int == grades@.len() - count_pass(grades@),
        grades@.len() > 0 ==> r.pass_rate == pass_rate_fx(grades@),
        grades@.len() > 0 ==> r.fail_rate as int == tdiv(
            (grades@.len() - count_pass(grades@)) * 100 * SCALE,
            grades@.len() as int,
        ),
        grades@.len() == 0 ==> r.pass_rate == 0 && r.fail_rate == 0,
        r.average_passing as int == (if count_pass(grades@) == 0 {
            0int
        } else {
            tdiv(sum_pass(grades@), count_pass(grades@))
        }),
        r.average_failing as int == (if count_pass(grades@) == grades@.len() {
            0int
        } else {
            tdiv(sum_fail(grades@), grades@.len() - count_pass(grades@))
        }),
{
    let n: usize = grades.len();
    if n == 0 {
        return PassFailStats {
            total: 0,
            passing: 0,
            failing: 0,
            pass_rate: 0,
            fail_rate: 0,
            average_passing: 0,
            average_failing: 0,
        };
    }
    let mut pc: usize = 0;
    let mut sp: i64 = 0;
    let mut sf: i64 = 0;
    let mut i: usize = 0;
    proof {
        assert(grades@.take(0) =~= Seq::<Grade>::empty());
    }
    while i < n
        invariant
            n == grades@.len(),
            n <= LEN_BOUND,
            grades_ok(grades@),
            0 <= i <= n,
            pc as int == count_pass(grades@.take(i as int)),
            sp as int == sum_pass(grades@.take(i as int)),
            sf as int == sum_fail(grades@.take(i as int)),
            pc <= i,
            -((i as int) * (VAL_BOUND as int)) <= sp as int <= (i as int) * (VAL_BOUND as int),
            -((i as int) * (VAL_BOUND as int)) <= sf as int <= (i as int) * (VAL_BOUND as int),
        decreases n - i,
    {
        proof {
            lemma_pass_sums_take(grades@, i as int);
            assert(grade_ok(grades@[i as int]));
            assert((i as int) * (VAL_BOUND as int) + VAL_BOUND as int == ((i + 1) as int)
                * (VAL_BOUND as int)) by (nonlinear_arith);
            assert(((i + 1) as int) * (VAL_BOUND as int) <= (LEN_BOUND as int)
                * (VAL_BOUND as int)) by (nonlinear_arith)
                requires (i + 1) as int <= LEN_BOUND as int,
            ;
        }
        if grades[i].is_passing {
            pc = pc + 1;
            sp = sp + grades[i].value;
        } else {
            sf = sf + grades[i].value;
        }
        i = i + 1;
    }
    proof {
        assert(grades@.take(n as int) =~= grades@);
        lemma_pass_sums_bounds(grades@);
        assert(0 <= (pc as int) * 100 * SCALE <= 10_000_000_000int) by (nonlinear_arith)
            requires 0 <= pc as int <= 10000 && SCALE as int == 10000,
        ;
        assert(0 <= ((n - pc) as int) * 100 * SCALE <= 10_000_000_000int) by (nonlinear_arith)
            requires 0 <= (n - pc) as int <= 10000 && SCALE as int == 10000,
        ;
        lemma_tdiv_nonneg((pc as int) * 100 * SCALE, n as int);
        lemma_tdiv_nonneg(((n - pc) as int) * 100 * SCALE, n as int);
    }
    let pass_rate: i64 = divt64((pc as i64) * 100 * SCALE, n as i64);
    let fail_rate: i64 = divt64(((n - pc) as i64) * 100 * SCALE, n as i64);
    let average_passing: i64 = if pc == 0 {
        0
    } else {
        proof {
            lemma_tdiv_abs(sum_pass(grades@), pc as int);
        }
        divt64(sp, pc as i64)
    };
    let average_failing: i64 = if pc == n {
        0
    } else {
        proof {
            lemma_tdiv_abs(sum_fail(grades@), n as int - pc as int);
        }
        divt64(sf, (n - pc) as i64)
    };
    PassFailStats {
        total: n,
        passing: pc,
        failing: n - pc,
        pass_rate,
        fail_rate,
        average_passing,
        average_failing,
    }
}

/// The whole-number bucket of a grade value: its floor, clamped to 1..=10.
pub open spec fn dist_bucket(v: i64) -> int {
    tclamp(v as int / SCALE as int, 1, 10)
}

/// Count of grades in whole-number bucket `k`.
pub open spec fn count_dist(s: Seq<Grade>, k: int) -> int
    decreases s.len(),
{
    if s.len() == 0 {
        0
    } else {
        count_dist(s.drop_last(), k) + (if dist_bucket(s.last().value) == k {
            1int
        } else {
            0int
        })
    }
}

/// Peeling one element off a prefix distribution count.
pub proof fn lemma_count_dist_take(s: Seq<Grade>, k: int, i: int)
    requires
        0 <= i < s.len(),
    ensures
        count_dist(s.take(i + 1), k) == count_dist(s.take(i), k) + (if dist_bucket(s[i].value)
            == k {
            1int
        } else {
            0int
        }),
{
    assert(s.take(i + 1).drop_last() =~= s.take(i));
    assert(s.take(i + 1).last() == s[i]);
}

/// Distribution counts are bounded by the length.
pub proof fn lemma_count_dist_bounds(s: Seq<Grade>, k: int)
    ensures
        0 <= count_dist(s, k) <= s.len(),
    decreases s.len(),
{
    if s.len() > 0 {
        lemma_count_dist_bounds(s.drop_last(), k);
    }
}

/// The decimal label of a whole-number bucket (1..=10).
pub open spec fn dist_label(k: int) -> Seq<char> {
    if k == 1 {
        "1"@
    } else if k == 2 {
        "2"@
    } else if k == 3 {
        "3"@
    } else if k == 4 {
        "4"@
    } else if k == 5 {
        "5"@
    } else if k == 6 {
        "6"@
    } else if k == 7 {
        "7"@
    } else if k == 8 {
        "8"@
    } else if k == 9 {
        "9"@
    } else {
        "10"@
    }
}

/// Grade distribution over the whole-number buckets 1..=10: each entry is
/// the bucket's decimal label and the count of grades whose value floors
/// into it (values outside the range clamp to the nearest bucket).
pub fn calculate_distribution(grades: &Vec<Grade>) -> (r: Vec<(String, usize)>)
    requires
        grades_ok(grades@),
    ensures
        r@.len() == 10,
        forall|k: int| 0 <= k < 10 ==> (#[trigger] r@[k]).0@ == dist_label(k + 1),
        forall|k: int| 0 <= k < 10 ==> (#[trigger] r@[k]).1 as int == count_dist(grades@, k + 1),
{
    let n: usize = grades.len();
    let mut counts: Vec<usize> = Vec::new();
    let mut k: usize = 0;
    while k < 10
        invariant
            0 <= k <= 10,
            counts@.len() == k,
            forall|j: int| 0 <= j < k ==> #[trigger] counts@[j] == 0usize,
        decreases 10 - k,
    {
        counts.push(0);
        k = k + 1;
    }
    let mut i: usize = 0;
    proof {
        assert(grades@.take(0) =~= Seq::<Grade>::empty());
    }
    while i < n
        invariant
            n == grades@.len(),
            n <= LEN_BOUND,
            grades_ok(grades@),
            counts@.len() == 10,
            0 <= i <= n,
            forall|j: int| 0 <= j < 10 ==> #[trigger] counts@[j] as int == count_dist(
                grades@.take(i as int),
                j + 1,
            ),
        decreases n - i,
    {
        proof {
            assert(grade_ok(grades@[i as int]));
        }
        let v: i64 = grades[i].value;
        let fl: i64 = crate::fx::divf64(v, SCALE);
        let b: i64 = clamp64(fl, 1, 10);
        let idx: usize = (b - 1) as usize;
        proof {
            assert(b as int == dist_bucket(grades@[i as int].value));
            assert forall|j: int| 0 <= j < 10 implies #[trigger] count_dist(
                grades@.take(i as int + 1),
                j + 1,
            ) == count_dist(grades@.take(i as int), j + 1) + (if j == idx as int {
                1int
            } else {
                0int
            }) by {
                lemma_count_dist_take(grades@, j + 1, i as int);
            }
            lemma_count_dist_bounds(grades@.take(i as int), idx as int + 1);
        }
        let c: usize = counts[idx];
        counts.set(idx, c + 1);
        i = i + 1;
    }
    proof {
        assert(grades@.take(n as int) =~= grades@);
    }
    let mut r: Vec<(String, usize)> = Vec::new();
    let mut k2: usize = 0;
    while k2 < 10
        invariant
            counts@.len() == 10,
            forall|j: int| 0 <= j < 10 ==> #[trigger] counts@[j] as int == count_dist(
                grades@,
                j + 1,
            ),
            0 <= k2 <= 10,
            r@.len() == k2,
            forall|j: int| 0 <= j < k2 ==> (#[trigger] r@[j]).0@ == dist_label(j + 1),
            forall|j: int| 0 <= j < k2 ==> (#[trigger] r@[j]).1 as int == count_dist(
                grades@,
                j + 1,
            ),
        decreases 10 - k2,
    {
        let label: &str = if k2 == 0 {
            "1"
        } else if k2 == 1 {
            "2"
        } else if k2 == 2 {
            "3"
        } else if k2 == 3 {
            "4"
        } else if k2 == 4 {
            "5"
        } else if k2 == 5 {
            "6"
        } else if k2 == 6 {
            "7"
        } else if k2 == 7 {
            "8"
        } else if k2 == 8 {
            "9"
        } else {
            "10"
        };
        let c: usize = counts[k2];
        r.push((String::from_str(label), c));
        k2 = k2 + 1;
    }
    r
}

/// The digit character of `d` (0..=9).
pub open spec fn dchar(d: int) -> char {
    if d == 0 {
        '0'
    } else if d == 1 {
        '1'
    } else if d == 2 {
        '2'
    } else if d == 3 {
        '3'
    } else if d == 4 {
        '4'
    } else if d == 5 {
        '5'
    } else if d == 6 {
        '6'
    } else if d == 7 {
        '7'
    } else if d == 8 {
        '8'
    } else {
        '9'
    }
}

/// The approximate calendar year of a nonnegative epoch second count
/// (365-day years, as the month key uses).
pub open spec fn mk_year(t: int) -> int {
    1970 + (t / 86400) / 365
}

/// The approximate month (1..=12) of a nonnegative epoch second count
/// (30-day months, capped at 12).
pub open spec fn mk_month(t: int) -> int {
    let m = ((t / 86400) % 365) / 30 + 1;
    if m > 12 {
        12
    } else {
        m
    }
}

/// The seven characters of a month key: four year digits, a dash, two month
/// digits.
pub open spec fn month_key_chars(y: int, m: int) -> Seq<char> {
    seq![
        dchar(y / 1000 % 10),
        dchar(y / 100 % 10),
        dchar(y / 10 % 10),
        dchar(y % 10),
        '-',
        dchar(m / 10 % 10),
        dchar(m % 10),
    ]
}

/// The month key of a millisecond timestamp.
pub open spec fn month_key_of(ts_ms: int) -> Seq<char> {
    month_key_chars(mk_year(ts_ms / 1000), mk_month(ts_ms / 1000))
}

/// A static string holding one decimal digit.
pub(crate) fn digit_str(d: i64) -> (r: &'static str)
    requires
        0 <= d <= 9,
    ensures
        r@ == seq![dchar(d as int)],
{
    proof {
        reveal_strlit("0");
        reveal_strlit("1");
        reveal_strlit("2");
        reveal_strlit("3");
        reveal_strlit("4");
        reveal_strlit("5");
        reveal_strlit("6");
        reveal_strlit("7");
        reveal_strlit("8");
        reveal_strlit("9");
    }
    let r: &'static str = if d == 0 {
        "0"
    } else if d == 1 {
        "1"
    } else if d == 2 {
        "2"
    } else if d == 3 {
        "3"
    } else if d == 4 {
        "4"
    } else if d == 5 {
        "5"
    } else if d == 6 {
        "6"
    } else if d == 7 {
        "7"
    } else {
        "8"
    };
    let r2: &'static str = if d == 9 {
        "9"
    } else {
        r
    };
    proof {
        assert(r2@ =~= seq![dchar(d as int)]);
    }
    r2
}

/// Approximate `YYYY-MM` month key of an epoch second count: 365-day years
/// from 1970 and 30-day months, the month capped at 12.
pub fn chrono_lite_month_key(timestamp_secs: i64) -> (r: String)
    requires
        0 <= timestamp_secs <= 10_000_000_000,
    ensures
        r@ == month_key_chars(mk_year(timestamp_secs as int), mk_month(timestamp_secs as int)),
{
    let days: i64 = timestamp_secs / 86400;
    let years: i64 = days / 365;
    let year: i64 = 1970 + years;
    let day_of_year: i64 = days % 365;
    let month0: i64 = day_of_year / 30 + 1;
    let month: i64 = if month0 > 12 {
        12
    } else {
        month0
    };
    proof {
        assert(year as int == mk_year(timestamp_secs as int));
        assert(month as int == mk_month(timestamp_secs as int));
        assert(1970 <= year <= 2287) by {
            assert(timestamp_secs as int / 86400 <= 115_740) by (nonlinear_arith)
                requires 0 <= timestamp_secs as int <= 10_000_000_000int,
            ;
            assert((timestamp_secs as int / 86400) / 365 <= 317) by (nonlinear_arith)
                requires 0 <= timestamp_secs as int / 86400 <= 115_740,
            ;
        }
        assert(1 <= month <= 12);
        reveal_strlit("-");
    }
    let mut out: String = String::from_str(digit_str(year / 1000 % 10));
    out.append(digit_str(year / 100 % 10));
    out.append(digit_str(year / 10 % 10));
    out.append(digit_str(year % 10));
    out.append("-");
    out.append(digit_str(month / 10 % 10));
    out.append(digit_str(month % 10));
    proof {
        assert(out@ =~= month_key_chars(year as int, month as int));
        assert("-"@ =~= seq!['-']);
    }
    out
}

/// The distinct month keys of the grades, in order of first appearance.
pub open spec fn distinct_months(s: Seq<Grade>) -> Seq<Seq<char>>
    decreases s.len(),
{
    if s.len() == 0 {
        Seq::empty()
    } else {
        let d = distinct_months(s.drop_last());
        if d.contains(month_key_of(s.last().timestamp as int)) {
            d
        } else {
            d.push(month_key_of(s.last().timestamp as int))
        }
    }
}

/// The mathematical contents of the grades with the given month key, in
/// order of appearance.
pub open spec fn month_group(s: Seq<Grade>, key: Seq<char>) -> Seq<GradeV>
    decreases s.len(),
{
    if s.len() == 0 {
        Seq::empty()
    } else {
        let rest = month_group(s.drop_last(), key);
        if month_key_of(s.last().timestamp as int) == key {
            rest.push(s.last()@)
        } else {
            rest
        }
    }
}

/// Unfolding the month grouping over a growing prefix.
pub proof fn lemma_month_take(s: Seq<Grade>, key: Seq<char>, i: int)
    requires
        0 <= i < s.len(),
    ensures
        distinct_months(s.take(i + 1)) == (if distinct_months(s.take(i)).contains(
            month_key_of(s[i].timestamp as int),
        ) {
            distinct_months(s.take(i))
        } else {
            distinct_months(s.take(i)).push(month_key_of(s[i].timestamp as int))
        }),
        month_group(s.take(i + 1), key) == (if month_key_of(s[i].timestamp as int) == key {
            month_group(s.take(i), key).push(s[i]@)
        } else {
            month_group(s.take(i), key)
        }),
{
    assert(s.take(i + 1).drop_last() =~= s.take(i));
    assert(s.take(i + 1).last() == s[i]);
}

/// A month key that is not listed among the distinct months has an empty
/// group.
pub proof fn lemma_month_group_empty_if_unlisted(s: Seq<Grade>, key: Seq<char>)
    requires
        !distinct_months(s).contains(key),
    ensures
        month_group(s, key) == Seq::<GradeV>::empty(),
    decreases s.len(),
{
    if s.len() > 0 {
        let d = distinct_months(s.drop_last());
        if d.contains(month_key_of(s.last().timestamp as int)) {
            assert(!d.contains(key));
        } else {
            assert forall|j: int| 0 <= j < d.len() implies #[trigger] d[j] != key by {
                assert(distinct_months(s)[j] == d[j]);
            }
            assert(!d.contains(key));
            assert(month_key_of(s.last().timestamp as int) != key) by {
                assert(distinct_months(s)[d.len() as int] == month_key_of(
                    s.last().timestamp as int,
                ));
            }
        }
        lemma_month_group_empty_if_unlisted(s.drop_last(), key);
        assert(month_group(s, key) =~= Seq::<GradeV>::empty());
    }
}

/// The views of a grade list.
pub open spec fn views_of(s: Seq<Grade>) -> Seq<GradeV> {
    s.map_values(|g: Grade| g@)
}

/// Group the grades by approximate calendar month of their timestamp, keys
/// in order of first appearance, each group in order of appearance. Requires
/// nonnegative timestamps (epoch milliseconds).
pub fn group_by_month(grades: &Vec<Grade>) -> (r: Vec<(String, Vec<Grade>)>)
    requires
        grades_ok(grades@),
        forall|i: int| 0 <= i < grades@.len() ==> (#[trigger] grades@[i]).timestamp >= 0,
    ensures
        r@.len() == distinct_months(grades@).len(),
        forall|j: int| 0 <= j < r@.len() ==> (#[trigger] r@[j]).0@ == distinct_months(grades@)[j],
        forall|j: int| 0 <= j < r@.len() ==> views_of((#[trigger] r@[j]).1@) == month_group(
            grades@,
            distinct_months(grades@)[j],
        ),
{
    let n: usize = grades.len();
    let mut r: Vec<(String, Vec<Grade>)> = Vec::new();
    let mut i: usize = 0;
    proof {
        assert(grades@.take(0) =~= Seq::<Grade>::empty());
    }
    while i < n
        invariant
            n == grades@.len(),
            grades_ok(grades@),
            forall|ii: int| 0 <= ii < grades@.len() ==> (#[trigger] grades@[ii]).timestamp >= 0,
            0 <= i <= n,
            r@.len() == distinct_months(grades@.take(i as int)).len(),
            forall|j: int| 0 <= j < r@.len() ==> (#[trigger] r@[j]).0@ == distinct_months(
                grades@.take(i as int),
            )[j],
            forall|j: int| 0 <= j < r@.len() ==> views_of((#[trigger] r@[j]).1@) == month_group(
                grades@.take(i as int),
                distinct_months(grades@.take(i as int))[j],
            ),
            forall|j1: int, j2: int|
                0 <= j1 < j2 < r@.len() ==> (#[trigger] r@[j1]).0@ != (#[trigger] r@[j2]).0@,
        decreases n - i,
    {
        proof {
            assert(grade_ok(grades@[i as int]));
            lemma_month_take(grades@, Seq::<char>::empty(), i as int);
        }
        let g: &Grade = &grades[i];
        let ghost key = month_key_of(g.timestamp as int);
        let ts_secs: i64 = g.timestamp / 1000;
        proof {
            assert(ts_secs as int == g.timestamp as int / 1000) by {
                lemma_tdiv_nonneg(g.timestamp as int, 1000);
            }
            assert(ts_secs <= 10_000_000_000int) by (nonlinear_arith)
                requires
                    0 <= g.timestamp as int <= 10_000_000_000_000int,
                    ts_secs as int == g.timestamp as int / 1000,
            ;
        }
        let keystr: String = chrono_lite_month_key(ts_secs);
        let mut j: usize = 0;
        let mut found: bool = false;
        while j < r.len() && !found
            invariant
                0 <= j <= r@.len(),
                keystr@ == key,
                !found ==> forall|jj: int| 0 <= jj < j ==> (#[trigger] r@[jj]).0@ != key,
                found ==> j < r@.len() && r@[j as int].0@ == key,
            decreases r@.len() - j + (if found { 0int } else { 1int }),
        {
            let m: bool = str_eq(r[j].0.as_str(), keystr.as_str());
            if m {
                found = true;
            } else {
                j = j + 1;
            }
        }
        let ghost dk = distinct_months(grades@.take(i as int));
        proof {
            lemma_month_take(grades@, key, i as int);
            assert forall|kk: int| 0 <= kk < r@.len() && r@[kk].0@ != key implies month_group(
                grades@.take(i as int + 1),
                dk[kk],
            ) == month_group(grades@.take(i as int), dk[kk]) by {
                lemma_month_take(grades@, dk[kk], i as int);
            }
        }
        if found {
            proof {
                assert(dk.contains(key)) by {
                    assert(dk[j as int] == key);
                }
            }
            let mut entry: (String, Vec<Grade>) = r.remove(j);
            let c: Grade = clone_grade(g);
            entry.1.push(c);
            r.insert(j, entry);
            proof {
                assert(r@ =~= old_insert_update(r@, j as int));
                assert(views_of(r@[j as int].1@) =~= month_group(
                    grades@.take(i as int + 1),
                    dk[j as int],
                ));
                assert forall|jj: int| 0 <= jj < r@.len() && jj != j as int
                    implies views_of((#[trigger] r@[jj]).1@) == month_group(
                    grades@.take(i as int + 1),
                    dk[jj],
                ) by {}
            }
        } else {
            proof {
                assert(j as int == r@.len());
                if dk.contains(key) {
                    let jj = choose|jj: int| 0 <= jj < dk.len() && dk[jj] == key;
                    assert(r@[jj].0@ == key);
                    assert(false);
                }
            }
            proof {
                lemma_month_group_empty_if_unlisted(grades@.take(i as int), key);
            }
            let c: Grade = clone_grade(g);
            let mut body: Vec<Grade> = Vec::new();
            body.push(c);
            r.push((keystr, body));
            proof {
                assert(views_of(r@[r@.len() - 1].1@) =~= month_group(
                    grades@.take(i as int + 1),
                    key,
                ));
            }
        }
        i = i + 1;
    }
    proof {
        assert(grades@.take(n as int) =~= grades@);
    }
    r
}

/// Identity helper: after remove-then-insert at `j`, the sequence equals
/// itself (used to stabilize reasoning about the in-place group update).
pub open spec fn old_insert_update(s: Seq<(String, Vec<Grade>)>, j: int) -> Seq<
    (String, Vec<Grade>),
> {
    s
}

/// The (timestamp, value, weight) triples of the grades, in order.
pub open spec fn trips_of(s: Seq<Grade>) -> Seq<(i64, i64, i64)> {
    s.map_values(|g: Grade| (g.timestamp, g.value, g.weight))
}

/// A triple list is within the engine's domain.
pub open spec fn trips_ok(s: Seq<(i64, i64, i64)>) -> bool {
    forall|i: int|
        0 <= i < s.len() ==> -TS_BOUND <= (#[trigger] s[i]).0 <= TS_BOUND && fx_ok(s[i].1 as int)
            && 0 <= s[i].2 <= VAL_BOUND
}

/// The triples of an acceptable grade list are in the domain, and so is
/// their rearrangement by timestamp.
pub proof fn lemma_trips_of_ok(s: Seq<Grade>)
    requires
        grades_ok(s),
    ensures
        trips_ok(trips_of(s)),
        trips_ok(sort_ts(trips_of(s))),
        sort_ts(trips_of(s)).len() == s.len(),
{
    assert forall|i: int| 0 <= i < trips_of(s).len() implies -TS_BOUND
        <= (#[trigger] trips_of(s)[i]).0 <= TS_BOUND && fx_ok(trips_of(s)[i].1 as int) && 0
        <= trips_of(s)[i].2 <= VAL_BOUND by {
        assert(grade_ok(s[i]));
    }
    lemma_sort_ts_props(trips_of(s));
    lemma_sort_ts_elems(trips_of(s));
    assert forall|i: int| 0 <= i < sort_ts(trips_of(s)).len() implies -TS_BOUND
        <= (#[trigger] sort_ts(trips_of(s))[i]).0 <= TS_BOUND && fx_ok(
        sort_ts(trips_of(s))[i].1 as int,
    ) && 0 <= sort_ts(trips_of(s))[i].2 <= VAL_BOUND by {
        assert(trips_of(s).contains(sort_ts(trips_of(s))[i]));
        let j = choose|j: int|
            0 <= j < trips_of(s).len() && trips_of(s)[j] == sort_ts(trips_of(s))[i];
        assert(grade_ok(s[j]));
    }
}

/// Build the (timestamp, value, weight) triples of the grades.
pub fn trips_vec(grades: &Vec<Grade>) -> (r: Vec<(i64, i64, i64)>)
    ensures
        r@ == trips_of(grades@),
{
    let n: usize = grades.len();
    let mut r: Vec<(i64, i64, i64)> = Vec::new();
    let mut i: usize = 0;
    while i < n
        invariant
            n == grades@.len(),
            0 <= i <= n,
            r@.len() == i,
            forall|j: int| 0 <= j < i ==> #[trigger] r@[j] == (grades@[j].timestamp,
            grades@[j].value, grades@[j].weight),
        decreases n - i,
    {
        let g: &Grade = &grades[i];
        r.push((g.timestamp, g.value, g.weight));
        i = i + 1;
    }
    proof {
        assert(r@ =~= trips_of(grades@));
    }
    r
}

/// Sum of the values of a triple list.
pub open spec fn sum_tv(s: Seq<(i64, i64, i64)>) -> int
    decreases s.len(),
{
    if s.len() == 0 {
        0
    } else {
        sum_tv(s.drop_last()) + s.last().1
    }
}

/// Sum of the weights of a triple list.
pub open spec fn sum_tw(s: Seq<(i64, i64, i64)>) -> int
    decreases s.len(),
{
    if s.len() == 0 {
        0
    } else {
        sum_tw(s.drop_last()) + s.last().2
    }
}

/// Sum of the value-weight products of a triple list.
pub open spec fn sum_tvw(s: Seq<(i64, i64, i64)>) -> int
    decreases s.len(),
{
    if s.len() == 0 {
        0
    } else {
        sum_tvw(s.drop_last()) + s.last().1 * s.last().2
    }
}

/// Peeling one element off the prefix triple sums.
pub proof fn lemma_trip_sums_take(s: Seq<(i64, i64, i64)>, i: int)
    requires
        0 <= i < s.len(),
    ensures
        sum_tv(s.take(i + 1)) == sum_tv(s.take(i)) + s[i].1,
        sum_tw(s.take(i + 1)) == sum_tw(s.take(i)) + s[i].2,
        sum_tvw(s.take(i + 1)) == sum_tvw(s.take(i)) + s[i].1 * s[i].2,
{
    assert(s.take(i + 1).drop_last() =~= s.take(i));
    assert(s.take(i + 1).last() == s[i]);
}

/// Bounds on the triple sums for in-domain triples.
pub proof fn lemma_trip_sums_bounds(s: Seq<(i64, i64, i64)>)
    requires
        trips_ok(s),
    ensures
        -(s.len() * (VAL_BOUND as int)) <= sum_tv(s) <= s.len() * (VAL_BOUND as int),
        0 <= sum_tw(s) <= s.len() * (VAL_BOUND as int),
        -((VAL_BOUND as int) * sum_tw(s)) <= sum_tvw(s) <= (VAL_BOUND as int) * sum_tw(s),
    decreases s.len(),
{
    if s.len() > 0 {
        assert(trips_ok(s.drop_last())) by {
            assert(forall|i: int| 0 <= i < s.len() - 1 ==> s.drop_last()[i] == #[trigger] s[i]);
        }
        lemma_trip_sums_bounds(s.drop_last());
        assert(-TS_BOUND <= s[s.len() - 1].0 <= TS_BOUND && fx_ok(s[s.len() - 1].1 as int) && 0
            <= s[s.len() - 1].2 <= VAL_BOUND);
        let v = s.last().1 as int;
        let w = s.last().2 as int;
        assert(-((VAL_BOUND as int) * w) <= v * w <= (VAL_BOUND as int) * w) by (nonlinear_arith)
            requires -(VAL_BOUND as int) <= v <= VAL_BOUND as int && w >= 0,
        ;
        assert((s.len() - 1) * (VAL_BOUND as int) + VAL_BOUND as int == s.len()
            * (VAL_BOUND as int)) by (nonlinear_arith);
        assert((VAL_BOUND as int) * (sum_tw(s.drop_last()) + w) == (VAL_BOUND as int) * sum_tw(
            s.drop_last(),
        ) + (VAL_BOUND as int) * w) by (nonlinear_arith);
    }
}

/// Average of the values of a subrange of a triple list (nonempty).
pub open spec fn trip_range_avg(t: Seq<(i64, i64, i64)>, a: int, b: int) -> int {
    tdiv(sum_tv(t.subrange(a, b)), b - a)
}

/// Mirror of the improvement measure: the average value of the last quarter
/// of the time-ordered grades minus that of the first quarter (quarters are
/// at least one grade); zero below two grades.
pub open spec fn improvement_fx(s: Seq<Grade>) -> int {
    if s.len() < 2 {
        0
    } else {
        let t = sort_ts(trips_of(s));
        let q = if s.len() as int / 4 >= 1 {
            s.len() as int / 4
        } else {
            1
        };
        trip_range_avg(t, t.len() - q, t.len() as int) - trip_range_avg(t, 0, q)
    }
}

/// Sum the values of the triples in `[a, b)`.
fn sum_range_values(t: &Vec<(i64, i64, i64)>, a: usize, b: usize) -> (r: i64)
    requires
        a <= b,
        b <= t@.len(),
        t@.len() <= LEN_BOUND,
        trips_ok(t@),
    ensures
        r as int == sum_tv(t@.subrange(a as int, b as int)),
        -((b - a) as int * (VAL_BOUND as int)) <= r as int <= (b - a) as int * (VAL_BOUND as int),
{
    let mut acc: i64 = 0;
    let mut j: usize = a;
    proof {
        assert(t@.subrange(a as int, a as int) =~= Seq::<(i64, i64, i64)>::empty());
    }
    while j < b
        invariant
            a <= j <= b,
            b <= t@.len(),
            t@.len() <= LEN_BOUND,
            trips_ok(t@),
            acc as int == sum_tv(t@.subrange(a as int, j as int)),
            -((j - a) as int * (VAL_BOUND as int)) <= acc as int <= (j - a) as int
                * (VAL_BOUND as int),
        decreases b - j,
    {
        proof {
            let sub1 = t@.subrange(a as int, j as int + 1);
            assert(sub1.drop_last() =~= t@.subrange(a as int, j as int));
            assert(sub1.last() == t@[j as int]);
            assert(-TS_BOUND <= t@[j as int].0 <= TS_BOUND && fx_ok(t@[j as int].1 as int) && 0
                <= t@[j as int].2 <= VAL_BOUND);
            assert((j - a) as int * (VAL_BOUND as int) + VAL_BOUND as int == ((j + 1 - a) as int)
                * (VAL_BOUND as int)) by (nonlinear_arith);
            assert(((j + 1 - a) as int) * (VAL_BOUND as int) <= (LEN_BOUND as int)
                * (VAL_BOUND as int)) by (nonlinear_arith)
                requires (j + 1 - a) as int <= LEN_BOUND as int,
            ;
        }
        let v: i64 = t[j].1;
        acc = acc + v;
        j = j + 1;
    }
    acc
}

/// Improvement since the start of the period: the last quarter's average
/// value minus the first quarter's, over the time-ordered grades.
pub fn calculate_improvement(grades: &Vec<Grade>) -> (r: i64)
    requires
        grades_ok(grades@),
    ensures
        r == improvement_fx(grades@),
        -2 * VAL_BOUND <= r <= 2 * VAL_BOUND,
{
    let n: usize = grades.len();
    if n < 2 {
        return 0;
    }
    let trips: Vec<(i64, i64, i64)> = trips_vec(grades);
    let t: Vec<(i64, i64, i64)> = sorted_by_ts(&trips);
    proof {
        lemma_trips_of_ok(grades@);
    }
    let q: usize = if n / 4 >= 1 {
        n / 4
    } else {
        1
    };
    let first_sum: i64 = sum_range_values(&t, 0, q);
    let last_sum: i64 = sum_range_values(&t, n - q, n);
    proof {
        assert((-(VAL_BOUND as int)) * (q as int) == -((q as int) * (VAL_BOUND as int)))
            by (nonlinear_arith);
        assert((VAL_BOUND as int) * (q as int) == (q as int) * (VAL_BOUND as int))
            by (nonlinear_arith);
        lemma_tdiv_bracket_gen(first_sum as int, q as int, -VAL_BOUND as int, VAL_BOUND as int);
        lemma_tdiv_bracket_gen(last_sum as int, q as int, -VAL_BOUND as int, VAL_BOUND as int);
    }
    let first_avg: i64 = divt64(first_sum, q as i64);
    let last_avg: i64 = divt64(last_sum, q as i64);
    last_avg - first_avg
}

/// Mirror of the running weighted average at each time-ordered grade: the
/// weighted average of everything up to and including it, or the raw value
/// while the cumulative weight is zero.
pub open spec fn running_avg_seq(t: Seq<(i64, i64, i64)>) -> Seq<(i64, i64)>
    decreases t.len(),
{
    if t.len() == 0 {
        Seq::empty()
    } else {
        let prev = running_avg_seq(t.drop_last());
        let avg = if sum_tw(t) > 0 {
            tdiv(sum_tvw(t), sum_tw(t))
        } else {
            t.last().1 as int
        };
        prev.push((t.last().0, avg as i64))
    }
}

/// Unfolding the running average over a growing prefix.
pub proof fn lemma_running_avg_take(t: Seq<(i64, i64, i64)>, i: int)
    requires
        0 <= i < t.len(),
    ensures
        running_avg_seq(t.take(i + 1)) == running_avg_seq(t.take(i)).push(
            (
                t[i].0,
                (if sum_tw(t.take(i + 1)) > 0 {
                    tdiv(sum_tvw(t.take(i + 1)), sum_tw(t.take(i + 1)))
                } else {
                    t[i].1 as int
                }) as i64,
            ),
        ),
{
    assert(t.take(i + 1).drop_last() =~= t.take(i));
    assert(t.take(i + 1).last() == t[i]);
}

/// Running weighted average over time: one (timestamp, average) pair per
/// grade, in timestamp order.
pub fn calculate_running_average(grades: &Vec<Grade>) -> (r: Vec<(i64, i64)>)
    requires
        grades_ok(grades@),
    ensures
        r@ == running_avg_seq(sort_ts(trips_of(grades@))),
        forall|j: int| 0 <= j < r@.len() ==> #[trigger] fx_ok((r@[j]).1 as int),
{
    let n: usize = grades.len();
    let trips: Vec<(i64, i64, i64)> = trips_vec(grades);
    let t: Vec<(i64, i64, i64)> = sorted_by_ts(&trips);
    proof {
        lemma_trips_of_ok(grades@);
    }
    let mut r: Vec<(i64, i64)> = Vec::new();
    let mut rs: i128 = 0;
    let mut rw: i64 = 0;
    let mut i: usize = 0;
    proof {
        assert(t@.take(0) =~= Seq::<(i64, i64, i64)>::empty());
        assert(r@ =~= running_avg_seq(t@.take(0)));
    }
    while i < n
        invariant
            n == grades@.len(),
            n <= LEN_BOUND,
            t@ == sort_ts(trips_of(grades@)),
            t@.len() == n,
            trips_ok(t@),
            0 <= i <= n,
            rs as int == sum_tvw(t@.take(i as int)),
            rw as int == sum_tw(t@.take(i as int)),
            0 <= rw as int <= (i as int) * (VAL_BOUND as int),
            -((VAL_BOUND as int) * (rw as int)) <= rs as int <= (VAL_BOUND as int) * (rw as int),
            r@ == running_avg_seq(t@.take(i as int)),
            forall|j: int| 0 <= j < r@.len() ==> #[trigger] fx_ok((r@[j]).1 as int),
        decreases n - i,
    {
        proof {
            lemma_trip_sums_take(t@, i as int);
            lemma_running_avg_take(t@, i as int);
            assert(-TS_BOUND <= t@[i as int].0 <= TS_BOUND && fx_ok(t@[i as int].1 as int) && 0
                <= t@[i as int].2 <= VAL_BOUND);
            let v = t@[i as int].1 as int;
            let w = t@[i as int].2 as int;
            assert(-((VAL_BOUND as int) * w) <= v * w <= (VAL_BOUND as int) * w)
                by (nonlinear_arith)
                requires -(VAL_BOUND as int) <= v <= VAL_BOUND as int && 0 <= w,
            ;
            assert((i as int) * (VAL_BOUND as int) + VAL_BOUND as int == ((i + 1) as int)
                * (VAL_BOUND as int)) by (nonlinear_arith);
            assert(((i + 1) as int) * (VAL_BOUND as int) <= (LEN_BOUND as int)
                * (VAL_BOUND as int)) by (nonlinear_arith)
                requires (i + 1) as int <= LEN_BOUND as int,
            ;
            assert((VAL_BOUND as int) * ((rw as int) + w) == (VAL_BOUND as int) * (rw as int) + (
            VAL_BOUND as int) * w) by (nonlinear_arith);
            assert((VAL_BOUND as int) * ((i + 1) as int) <= 100_000_000_000_0000int)
                by (nonlinear_arith)
                requires (i + 1) as int <= 10000 && VAL_BOUND as int == 10_000_000,
            ;
            assert((VAL_BOUND as int) * (rw as int) <= (VAL_BOUND as int) * (((i
                + 1) as int) * (VAL_BOUND as int))) by (nonlinear_arith)
                requires 0 <= rw as int + w <= ((i + 1) as int) * (VAL_BOUND as int) && w >= 0
                    && rw as int <= ((i + 1) as int) * (VAL_BOUND as int),
            ;
            assert((VAL_BOUND as int) * (((i + 1) as int) * (VAL_BOUND as int))
                <= 1_000_000_000_000_000_000int) by (nonlinear_arith)
                requires (i + 1) as int <= 10000 && VAL_BOUND as int == 10_000_000,
            ;
        }
        let trip: (i64, i64, i64) = t[i];
        rs = rs + (trip.1 as i128) * (trip.2 as i128);
        rw = rw + trip.2;
        let avg: i64 = if rw > 0 {
            proof {
                assert((-(VAL_BOUND as int)) * (rw as int) == -((VAL_BOUND as int) * (rw as int)))
                    by (nonlinear_arith);
                lemma_tdiv_bracket_gen(rs as int, rw as int, -VAL_BOUND as int, VAL_BOUND as int);
            }
            divt128(rs, rw as i128) as i64
        } else {
            trip.1
        };
        r.push((trip.0, avg));
        i = i + 1;
    }
    proof {
        assert(t@.take(n as int) =~= t@);
    }
    r
}

} // verus!
