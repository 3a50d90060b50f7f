use bank_analysis::models::StatsError;
use bank_analysis::stats::{calculate_median, median_checked, percentile, percentile_checked};

fn ratio_as_f64(num: u128, den: u128) -> f64 {
    num as f64 / den as f64
}

#[test]
fn test_percentile() {
    let values = vec![12, 7, 22, 15, 9, 30, 18, 5, 14, 10];
    let target_num = 9.0; // 25th percentile (rounded)
    let func_num = percentile(&values, 1, 4) as f64;

    assert_eq!(target_num, func_num);
}

#[test]
fn test_median() {
    let values = vec![12, 7, 22, 15, 9, 30, 18, 5, 14, 10];
    let target_median = 13.0;
    let func_num = calculate_median(&values);

    assert_eq!(target_median, ratio_as_f64(func_num.num, func_num.den));
}

#[test]
fn median_even_count_is_mean_of_central_pair() {
    // sorted: [1, 2, 3, 4] -> (2 + 3) / 2 = 2.5
    let values = vec![4, 1, 3, 2];
    let m = calculate_median(&values);
    assert_eq!(m.den, 2);
    assert_eq!(m.num, 5);
    assert_eq!(ratio_as_f64(m.num, m.den), 2.5);
}

#[test]
fn median_odd_count_is_central_element() {
    // sorted: [5, 8, 11] -> 8
    let values = vec![11, 5, 8];
    let m = calculate_median(&values);
    assert_eq!(ratio_as_f64(m.num, m.den), 8.0);
}

#[test]
fn median_single_element() {
    let values = vec![42];
    let m = calculate_median(&values);
    assert_eq!(ratio_as_f64(m.num, m.den), 42.0);
}

#[test]
fn median_empty_input_is_reported() {
    let values: Vec<u64> = vec![];
    assert_eq!(median_checked(&values), Err(StatsError::EmptyInput));
}

#[test]
fn median_checked_matches_unchecked() {
    let values = vec![12, 7, 22, 15, 9, 30, 18, 5, 14, 10];
    let m = median_checked(&values).unwrap();
    assert_eq!(ratio_as_f64(m.num, m.den), 13.0);
}

#[test]
fn percentile_empty_input_is_reported() {
    let values: Vec<u64> = vec![];
    assert_eq!(percentile_checked(&values, 1, 4), Err(StatsError::EmptyInput));
}

#[test]
fn percentile_extremes_select_min_and_max() {
    let values = vec![12, 7, 22, 15, 9, 30, 18, 5, 14, 10];
    assert_eq!(percentile(&values, 0, 1), 5);
    assert_eq!(percentile(&values, 1, 1), 30);
}

#[test]
fn percentile_q3_of_ten_values() {
    // sorted: [5,7,9,10,12,14,15,18,22,30]; round(0.75 * 9) = 7 -> 18
    let values = vec![12, 7, 22, 15, 9, 30, 18, 5, 14, 10];
    assert_eq!(percentile(&values, 3, 4), 18);
}

#[test]
fn percentile_rounds_half_up() {
    // n = 3: round(0.5 * 2) = 1 -> middle element
    let values = vec![30, 10, 20];
    assert_eq!(percentile(&values, 1, 2), 20);
    // n = 4: round(0.25 * 3) = round(0.75) = 1 -> second element
    let values4 = vec![40, 10, 30, 20];
    assert_eq!(percentile(&values4, 1, 4), 20);
}
