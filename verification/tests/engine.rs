// Tests for the fixed-point grade analytics engine. Values carry four
// decimal places: 10000 is 1.0, 55000 is 5.5, 100000 is 10.0.

use grade_analytics::fx::SCALE;
use grade_analytics::grades::{
    calculate_distribution, calculate_gpa, calculate_improvement, calculate_pass_fail_stats,
    calculate_running_average, calculate_simple_average, calculate_subject_average,
    calculate_weighted_average, chrono_lite_month_key, group_by_month, Grade, GpaScale,
};
use grade_analytics::predictions::{
    calculate_grades_for_targets, calculate_pass_probability, calculate_whatif,
    generate_impact_analysis, predict_final_grade, predict_grade_needed, predict_next_grade,
    suggest_priorities,
};
use grade_analytics::seqs::sorted_copy;
use grade_analytics::smooth::{
    calculate_autocorrelation, calculate_correlation, calculate_cv, calculate_ema,
    calculate_moving_average, calculate_value_percentile, calculate_z_scores, generate_histogram,
};
use grade_analytics::stats::{
    calculate_mean, calculate_median, calculate_mode, calculate_percentile, calculate_skewness,
    calculate_statistics, calculate_std_deviation, calculate_variance, detect_outliers,
};
use grade_analytics::summary::{
    analyze_all, find_extreme_subjects, get_all_subject_summaries, get_attention_needed,
    get_subject_summary,
};
use grade_analytics::trend::calculate_trend;
use grade_analytics::validate_grade;

fn fxv(whole: i64) -> i64 {
    whole * SCALE
}

fn create_test_grades() -> Vec<Grade> {
    vec![
        Grade::new(fxv(8), fxv(1), "Math".to_string(), "Test 1".to_string(), 1000),
        Grade::new(fxv(7), fxv(2), "Math".to_string(), "Test 2".to_string(), 2000),
        Grade::new(fxv(6), fxv(1), "English".to_string(), "Test 1".to_string(), 1500),
        Grade::new(fxv(9), fxv(1), "English".to_string(), "Test 2".to_string(), 2500),
    ]
}

fn prediction_test_grades() -> Vec<Grade> {
    vec![
        Grade::new(fxv(7), fxv(1), "Math".to_string(), "Test 1".to_string(), 1000),
        Grade::new(fxv(8), fxv(1), "Math".to_string(), "Test 2".to_string(), 2000),
        Grade::new(fxv(6), fxv(1), "Math".to_string(), "Test 3".to_string(), 3000),
        Grade::new(75000, fxv(1), "Math".to_string(), "Test 4".to_string(), 4000),
    ]
}

#[test]
fn test_mean() {
    let data = vec![fxv(1), fxv(2), fxv(3), fxv(4), fxv(5)];
    assert!((calculate_mean(&data) - fxv(3)).abs() < 100);
}

#[test]
fn test_median_odd() {
    let sorted = vec![fxv(1), fxv(2), fxv(3), fxv(4), fxv(5)];
    assert!((calculate_median(&sorted) - fxv(3)).abs() < 100);
}

#[test]
fn test_median_even() {
    let sorted = vec![fxv(1), fxv(2), fxv(3), fxv(4)];
    assert!((calculate_median(&sorted) - 25000).abs() < 100);
}

#[test]
fn test_std_deviation() {
    let data = vec![fxv(2), fxv(4), fxv(4), fxv(4), fxv(5), fxv(5), fxv(7), fxv(9)];
    let std_dev = calculate_std_deviation(&data);
    // sample (n - 1) variance gives sqrt(32/7), about 2.14
    assert!((std_dev - 21380).abs() < 10);
}

#[test]
fn test_correlation() {
    let data1 = vec![fxv(1), fxv(2), fxv(3), fxv(4), fxv(5)];
    let data2 = vec![fxv(1), fxv(2), fxv(3), fxv(4), fxv(5)];
    assert!((calculate_correlation(&data1, &data2) - fxv(1)).abs() < 100);
}

#[test]
fn test_trend() {
    let data = vec![(1, fxv(5)), (2, fxv(6)), (3, fxv(7)), (4, fxv(8)), (5, fxv(9))];
    let trend = calculate_trend(&data);
    assert!(trend.direction == "improving");
    assert!((trend.slope - fxv(1)).abs() < 100);
}

#[test]
fn test_simple_average() {
    let grades = create_test_grades();
    let avg = calculate_simple_average(&grades);
    assert!((avg - 75000).abs() < 100);
}

#[test]
fn test_weighted_average() {
    let grades = create_test_grades();
    let avg = calculate_weighted_average(&grades);
    // (8*1 + 7*2 + 6*1 + 9*1) / (1+2+1+1) = 37/5 = 7.4
    assert!((avg - 74000).abs() < 100);
}

#[test]
fn test_subject_average() {
    let grades = create_test_grades();
    let math_avg = calculate_subject_average(&grades, "Math");
    // Math: (8*1 + 7*2) / 3 = 22/3 = 7.333...
    assert!((math_avg - 73333).abs() < 100);
}

#[test]
fn test_pass_fail_stats() {
    let grades = create_test_grades();
    let stats = calculate_pass_fail_stats(&grades);
    assert_eq!(stats.total, 4);
    assert_eq!(stats.passing, 4);
    assert_eq!(stats.failing, 0);
}

#[test]
fn test_grade_creation() {
    let grade = Grade::new(85000, fxv(1), "Math".to_string(), "Test 1".to_string(), 1234567890);
    assert!(grade.is_passing);
    assert_eq!(grade.value, 85000);
}

#[test]
fn test_validate_grade() {
    assert!(validate_grade(55000));
    assert!(validate_grade(fxv(10)));
    assert!(validate_grade(fxv(1)));
    assert!(!validate_grade(5000));
    assert!(!validate_grade(105000));
}

#[test]
fn test_predict_grade_needed() {
    // Average 7.0 with weight 4, target 7.5 with new weight 1:
    // (7.5 * 5 - 7.0 * 4) / 1 = 37.5 - 28 = 9.5
    let needed = predict_grade_needed(fxv(7), fxv(4), 75000, fxv(1));
    assert!((needed - 95000).abs() < 100);
}

#[test]
fn test_predict_next_grade() {
    let grades = prediction_test_grades();
    let prediction = predict_next_grade(&grades);
    assert!(prediction.predicted_value >= fxv(1) && prediction.predicted_value <= fxv(10));
    assert!(prediction.confidence >= 0 && prediction.confidence <= fxv(1));
}

#[test]
fn test_whatif() {
    let grades = prediction_test_grades();
    let hypothetical =
        vec![Grade::new(fxv(9), fxv(1), "Math".to_string(), "Test 5".to_string(), 5000)];
    let result = calculate_whatif(&grades, &hypothetical);
    assert!(result.new_average > result.current_average);
}

#[test]
fn test_pass_probability() {
    let passing_grades =
        vec![Grade::new(fxv(8), fxv(1), "Math".to_string(), "Test".to_string(), 1000)];
    let probability = calculate_pass_probability(&passing_grades, fxv(1));
    assert!(probability > 5000);
}

#[test]
fn round_trip_mean_median() {
    let data = vec![fxv(1), fxv(2), fxv(3), fxv(4), fxv(5)];
    assert_eq!(calculate_mean(&data), fxv(3));
    let sorted = sorted_copy(&data);
    assert_eq!(calculate_median(&sorted), fxv(3));
}

#[test]
fn percentiles_are_ordered() {
    let data = vec![fxv(9), fxv(1), fxv(4), fxv(7), fxv(2), fxv(6), fxv(3)];
    let stats = calculate_statistics(&data);
    assert!(stats.percentile_25 <= stats.percentile_50);
    assert!(stats.percentile_50 <= stats.percentile_75);
    assert!(stats.percentile_75 <= stats.percentile_90);
}

#[test]
fn median_equals_fiftieth_percentile() {
    let odd = vec![fxv(5), fxv(1), fxv(3)];
    let sorted_odd = sorted_copy(&odd);
    assert_eq!(calculate_percentile(&odd, 50 * SCALE), calculate_median(&sorted_odd));
    let even = vec![fxv(4), fxv(1), fxv(3), fxv(2)];
    let sorted_even = sorted_copy(&even);
    assert_eq!(calculate_percentile(&even, 50 * SCALE), calculate_median(&sorted_even));
}

#[test]
fn variance_nonnegative_and_std_matches() {
    let data = vec![fxv(2), fxv(8), fxv(5), fxv(3)];
    let mean = calculate_mean(&data);
    let variance = calculate_variance(&data, mean);
    assert!(variance >= 0);
    let sd = calculate_std_deviation(&data);
    // sd is the floor square root of variance in fixed-point units
    assert!(sd * sd <= variance * SCALE);
    assert!((sd + 1) * (sd + 1) > variance * SCALE);
}

#[test]
fn empty_statistics_are_zero() {
    let data: Vec<i64> = vec![];
    let stats = calculate_statistics(&data);
    assert_eq!(stats.count, 0);
    assert_eq!(stats.mean, 0);
    assert_eq!(stats.median, 0);
    assert!(stats.mode.is_empty());
    assert_eq!(stats.std_deviation, 0);
}

#[test]
fn mode_detects_repeats() {
    let data = vec![fxv(1), fxv(2), fxv(2), fxv(3)];
    assert_eq!(calculate_mode(&data), vec![fxv(2)]);
    let unique = vec![fxv(1), fxv(2), fxv(3)];
    assert!(calculate_mode(&unique).is_empty());
}

#[test]
fn variance_below_two_points_is_zero() {
    let data = vec![fxv(7)];
    assert_eq!(calculate_variance(&data, fxv(7)), 0);
}

#[test]
fn skewness_of_symmetric_data_is_zero() {
    let data = vec![fxv(1), fxv(2), fxv(3)];
    let mean = calculate_mean(&data);
    let sd = calculate_std_deviation(&data);
    assert_eq!(calculate_skewness(&data, mean, sd), 0);
}

#[test]
fn moving_average_shrinks_at_start() {
    let data = vec![fxv(2), fxv(4), fxv(6)];
    let ma = calculate_moving_average(&data, 2);
    assert_eq!(ma, vec![fxv(2), fxv(3), fxv(5)]);
}

#[test]
fn ema_seeds_with_first_value() {
    let data = vec![fxv(1), fxv(2)];
    let ema = calculate_ema(&data, 3000);
    assert_eq!(ema, vec![fxv(1), 13000]);
}

#[test]
fn z_scores_zero_variance() {
    let data = vec![fxv(5), fxv(5), fxv(5)];
    assert_eq!(calculate_z_scores(&data), vec![0, 0, 0]);
}

#[test]
fn value_percentile_mid_rank() {
    let data = vec![fxv(1), fxv(2), fxv(3), fxv(4)];
    // 2.5 sits above two of four values: the 50th percentile
    assert_eq!(calculate_value_percentile(&data, 25000), 50 * SCALE);
}

#[test]
fn histogram_includes_maximum() {
    let data = vec![fxv(1), fxv(2), fxv(3), fxv(4)];
    let hist = generate_histogram(&data, 2);
    assert_eq!(hist.len(), 2);
    assert_eq!(hist[0].2 + hist[1].2, 4);
    // the final bucket is nudged past the maximum
    assert!(hist[1].1 > fxv(4));
}

#[test]
fn autocorrelation_short_series_is_zero() {
    let data = vec![fxv(1), fxv(2)];
    assert_eq!(calculate_autocorrelation(&data, 5), 0);
}

#[test]
fn cv_is_relative_spread() {
    let data = vec![fxv(5), fxv(5)];
    assert_eq!(calculate_cv(&data), 0);
}

#[test]
fn outliers_found_with_indices() {
    let data = vec![fxv(5), fxv(5), fxv(5), fxv(5), fxv(5), fxv(500)];
    let out = detect_outliers(&data);
    assert_eq!(out, vec![(5usize, fxv(500))]);
    let few = vec![fxv(1), fxv(100)];
    assert!(detect_outliers(&few).is_empty());
}

#[test]
fn gpa_rescales_linearly() {
    let grades = vec![Grade::new(fxv(10), fxv(1), "Math".to_string(), "T".to_string(), 0)];
    let scale = GpaScale::default();
    assert_eq!(calculate_gpa(&grades, &scale), fxv(4));
    let low = vec![Grade::new(fxv(1), fxv(1), "Math".to_string(), "T".to_string(), 0)];
    assert_eq!(calculate_gpa(&low, &scale), 0);
}

#[test]
fn improvement_compares_quarters() {
    let grades = vec![
        Grade::new(fxv(1), fxv(1), "M".to_string(), "a".to_string(), 10),
        Grade::new(fxv(2), fxv(1), "M".to_string(), "b".to_string(), 20),
        Grade::new(fxv(3), fxv(1), "M".to_string(), "c".to_string(), 30),
        Grade::new(fxv(4), fxv(1), "M".to_string(), "d".to_string(), 40),
    ];
    assert_eq!(calculate_improvement(&grades), fxv(3));
}

#[test]
fn running_average_accumulates() {
    let grades = vec![
        Grade::new(fxv(2), fxv(1), "M".to_string(), "a".to_string(), 10),
        Grade::new(fxv(4), fxv(1), "M".to_string(), "b".to_string(), 20),
    ];
    let ra = calculate_running_average(&grades);
    assert_eq!(ra, vec![(10, fxv(2)), (20, fxv(3))]);
}

#[test]
fn distribution_counts_whole_buckets() {
    let grades = vec![
        Grade::new(15000, fxv(1), "M".to_string(), "a".to_string(), 0),
        Grade::new(fxv(2), fxv(1), "M".to_string(), "b".to_string(), 0),
    ];
    let dist = calculate_distribution(&grades);
    assert_eq!(dist.len(), 10);
    assert_eq!(dist[0], ("1".to_string(), 1));
    assert_eq!(dist[1], ("2".to_string(), 1));
}

#[test]
fn month_key_format() {
    assert_eq!(chrono_lite_month_key(0), "1970-01");
    assert_eq!(chrono_lite_month_key(40 * 86400), "1970-02");
}

#[test]
fn group_by_month_keys() {
    let grades = vec![
        Grade::new(fxv(7), fxv(1), "M".to_string(), "a".to_string(), 0),
        Grade::new(fxv(8), fxv(1), "M".to_string(), "b".to_string(), 40 * 86400 * 1000),
    ];
    let groups = group_by_month(&grades);
    assert_eq!(groups.len(), 2);
    assert_eq!(groups[0].0, "1970-01");
    assert_eq!(groups[0].1.len(), 1);
    assert_eq!(groups[1].0, "1970-02");
}

#[test]
fn subject_summary_counts() {
    let grades = create_test_grades();
    let summary = get_subject_summary(&grades, "math");
    assert_eq!(summary.grade_count, 2);
    assert_eq!(summary.highest, fxv(8));
    assert_eq!(summary.lowest, fxv(7));
    assert_eq!(summary.passing_count, 2);
    assert_eq!(summary.failing_count, 0);
}

#[test]
fn all_subject_summaries_cover_subjects() {
    let grades = create_test_grades();
    let summaries = get_all_subject_summaries(&grades);
    assert_eq!(summaries.len(), 2);
    let names: Vec<String> = summaries.iter().map(|s| s.subject.clone()).collect();
    assert!(names.contains(&"math".to_string()));
    assert!(names.contains(&"english".to_string()));
}

#[test]
fn extremes_and_attention() {
    let grades = vec![
        Grade::new(fxv(9), fxv(1), "Math".to_string(), "a".to_string(), 0),
        Grade::new(fxv(4), fxv(1), "English".to_string(), "b".to_string(), 0),
    ];
    let (best, worst) = find_extreme_subjects(&grades);
    assert_eq!(best.unwrap().subject, "math");
    assert_eq!(worst.unwrap().subject, "english");
    let attention = get_attention_needed(&grades);
    assert_eq!(attention.len(), 1);
    assert_eq!(attention[0].subject, "english");
}

#[test]
fn analyze_all_composes() {
    let grades = create_test_grades();
    let result = analyze_all(&grades);
    assert_eq!(result.total_grades, 4);
    assert_eq!(result.passing_grades, 4);
    assert_eq!(result.failing_grades, 0);
    assert_eq!(result.overall_average, 75000);
    assert_eq!(result.weighted_average, 74000);
    assert_eq!(result.subjects.len(), 2);
    assert_eq!(result.predictions.len(), 2);
    assert_eq!(result.statistics.count, 4);
}

#[test]
fn whatif_target_rows() {
    let grades = prediction_test_grades();
    let hypothetical =
        vec![Grade::new(fxv(9), fxv(1), "Math".to_string(), "Test 5".to_string(), 5000)];
    let result = calculate_whatif(&grades, &hypothetical);
    assert_eq!(result.grades_needed_for_target.len(), 6);
    assert_eq!(result.grades_needed_for_target[0].target_average, 55000);
    assert_eq!(result.impact_analysis.len(), 19);
    assert_eq!(result.impact_analysis[0].hypothetical_grade, fxv(1));
}

#[test]
fn impact_analysis_without_history_echoes_grade() {
    let grades: Vec<Grade> = vec![];
    let rows = generate_impact_analysis(&grades, "Math", fxv(1));
    assert_eq!(rows.len(), 19);
    assert_eq!(rows[3].resulting_average, rows[3].hypothetical_grade);
    assert_eq!(rows[3].impact, 0);
}

#[test]
fn targets_without_history_need_exactly_target() {
    let grades: Vec<Grade> = vec![];
    let targets = vec![fxv(6), fxv(12)];
    let rows = calculate_grades_for_targets(&grades, "Math", fxv(1), &targets);
    assert_eq!(rows.len(), 2);
    assert_eq!(rows[0].grade_needed, fxv(6));
    assert!(rows[0].achievable);
    assert!(!rows[1].achievable);
}

#[test]
fn final_grade_projection_in_range() {
    let grades = prediction_test_grades();
    let pred = predict_final_grade(&grades, 2, fxv(1));
    assert!(pred.predicted_value >= fxv(1) && pred.predicted_value <= fxv(10));
    assert!(pred.confidence >= 0 && pred.confidence <= fxv(1));
    assert_eq!(pred.method, "final_projection");
}

#[test]
fn pass_probability_extremes() {
    let perfect = vec![Grade::new(fxv(10), fxv(1), "M".to_string(), "a".to_string(), 0)];
    assert_eq!(calculate_pass_probability(&perfect, fxv(1)), fxv(1));
    let hopeless = vec![
        Grade::new(fxv(1), fxv(1), "M".to_string(), "a".to_string(), 0),
        Grade::new(fxv(1), fxv(1), "M".to_string(), "b".to_string(), 1),
        Grade::new(fxv(1), fxv(1), "M".to_string(), "c".to_string(), 2),
        Grade::new(fxv(1), fxv(1), "M".to_string(), "d".to_string(), 3),
    ];
    assert_eq!(calculate_pass_probability(&hopeless, fxv(1)), 0);
}

#[test]
fn prediction_is_deterministic() {
    let grades = prediction_test_grades();
    let p1 = predict_next_grade(&grades);
    let p2 = predict_next_grade(&grades);
    assert_eq!(p1.predicted_value, p2.predicted_value);
    assert_eq!(p1.confidence, p2.confidence);
    assert_eq!(p1.lower_bound, p2.lower_bound);
    assert_eq!(p1.upper_bound, p2.upper_bound);
    assert_eq!(p1.method, p2.method);
    assert_eq!(p1.method, "ensemble");
}

#[test]
fn single_grade_prediction() {
    let one = vec![Grade::new(fxv(7), fxv(1), "M".to_string(), "a".to_string(), 0)];
    let p = predict_next_grade(&one);
    assert_eq!(p.predicted_value, fxv(7));
    assert_eq!(p.confidence, 2000);
    assert_eq!(p.method, "single_value");
    let none: Vec<Grade> = vec![];
    let p0 = predict_next_grade(&none);
    assert_eq!(p0.method, "none");
    assert_eq!(p0.confidence, 0);
}

#[test]
fn trend_degenerate_cases() {
    let short = vec![(1i64, fxv(5))];
    let t = calculate_trend(&short);
    assert_eq!(t.direction, "stable");
    assert_eq!(t.strength, "none");
    assert!(t.predicted_values.is_empty());
    let flat_times = vec![(5i64, fxv(3)), (5i64, fxv(7))];
    let t2 = calculate_trend(&flat_times);
    assert_eq!(t2.slope, 0);
    assert_eq!(t2.intercept, fxv(5));
}

#[test]
fn priorities_rank_failing_subjects_first() {
    let grades = vec![
        Grade::new(fxv(9), fxv(1), "Math".to_string(), "a".to_string(), 0),
        Grade::new(fxv(3), fxv(1), "English".to_string(), "b".to_string(), 0),
    ];
    let priorities = suggest_priorities(&grades);
    assert_eq!(priorities.len(), 2);
    assert_eq!(priorities[0].0, "english");
    assert!(priorities[0].1 > priorities[1].1);
    assert_eq!(priorities[0].2, "Failing average - immediate attention needed");
    assert_eq!(priorities[1].2, "Maintain current performance");
}

#[test]
fn priorities_report_failing_counts() {
    let grades = vec![
        Grade::new(fxv(8), fxv(1), "Math".to_string(), "a".to_string(), 0),
        Grade::new(fxv(8), fxv(1), "Math".to_string(), "b".to_string(), 1),
        Grade::new(fxv(8), fxv(1), "Math".to_string(), "c".to_string(), 2),
        Grade::new(fxv(4), fxv(1), "Math".to_string(), "d".to_string(), 3),
    ]; // average 7.0 with one failing grade
    let priorities = suggest_priorities(&grades);
    assert_eq!(priorities.len(), 1);
    assert_eq!(priorities[0].2, "1 failing grade(s) affecting average");
}
