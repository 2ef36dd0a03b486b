use wrkviz::{Decimal, EmptyInputError, LatencyRow, Report, Reports};

fn dec(units: u64, exp: i32) -> Decimal {
    Decimal { units, exp }
}

fn row(ms: Decimal, fraction: Decimal, count: u32) -> LatencyRow {
    LatencyRow { latency_ms: ms, cumulative_fraction: fraction, cumulative_count: count, ignored: dec(1, 0) }
}

fn report(rows: Vec<LatencyRow>) -> Report {
    Report {
        target: "t".to_string(),
        duration_s: 1,
        req_per_s: dec(1, 0),
        hdr_histogram: Vec::new(),
        detailed_latency: rows,
        source_filename: None,
    }
}

#[test]
fn max_latency_over_three_reports() {
    let reports = Reports::new(vec![
        report(vec![row(dec(1, 0), dec(5, -1), 1), row(dec(120, 0), dec(1, 0), 2)]),
        report(vec![row(dec(955, -1), dec(1, 0), 3)]),
        report(vec![row(dec(20025, -2), dec(1, 0), 4)]),
    ]);
    assert_eq!(reports.max_latency(), Ok(dec(20025, -2)));
    assert_eq!(reports.min_latency(), Ok(dec(1, 0)));
}

#[test]
fn max_latency_of_no_reports_fails() {
    let reports = Reports::new(Vec::new());
    assert_eq!(reports.max_latency(), Err(EmptyInputError));
    assert_eq!(reports.min_latency(), Err(EmptyInputError));
    assert_eq!(reports.min_pct(), Err(EmptyInputError));
    assert_eq!(reports.max_pct(), Err(EmptyInputError));
}

#[test]
fn reports_without_rows_fail() {
    let reports = Reports::new(vec![report(Vec::new())]);
    assert_eq!(reports.max_latency(), Err(EmptyInputError));
    assert_eq!(reports.get(0).max_cumulative_count(), Err(EmptyInputError));
}

#[test]
fn percentile_bounds() {
    let reports = Reports::new(vec![
        report(vec![row(dec(1, 0), dec(25, -2), 1), row(dec(2, 0), dec(9, -1), 2)]),
        report(vec![row(dec(1, 0), dec(1, -1), 1), row(dec(2, 0), dec(1, 0), 2)]),
    ]);
    assert!(reports.percentiles_fit());
    // percentiles: fractions times one hundred
    assert_eq!(reports.min_pct(), Ok(dec(1, 1)));
    assert_eq!(reports.max_pct(), Ok(dec(1, 2)));
    assert_eq!(reports.get(0).min_pct(), Ok(dec(25, 0)));
    assert_eq!(reports.get(0).max_pct(), Ok(dec(9, 1)));
}

#[test]
fn comparison_across_exponents() {
    assert!(dec(955, -1).is_at_most(&dec(120, 0)));
    assert!(!dec(120, 0).is_at_most(&dec(955, -1)));
    assert!(dec(10, 0).is_at_most(&dec(1, 1)));
    assert!(dec(1, 1).is_at_most(&dec(10, 0)));
    assert!(dec(1, -30).is_at_most(&dec(0, 5)) == false);
    assert!(dec(u64::MAX, 0).is_at_most(&dec(1, 20)));
}

#[test]
fn equal_maxima_keep_the_first() {
    let reports = Reports::new(vec![report(vec![row(dec(10, -1), dec(1, 0), 1), row(dec(1, 0), dec(1, 0), 2)])]);
    assert_eq!(reports.max_latency(), Ok(dec(10, -1)));
}

#[test]
fn max_cumulative_count_of_a_report() {
    let r = report(vec![row(dec(1, 0), dec(5, -1), 7), row(dec(2, 0), dec(1, 0), 12)]);
    assert_eq!(r.max_cumulative_count(), Ok(12));
    assert_eq!(r.min_cumulative_count(), Ok(7));
}

#[test]
fn cumulative_counts_over_reports() {
    let reports = Reports::new(vec![
        report(vec![row(dec(1, 0), dec(5, -1), 7), row(dec(2, 0), dec(1, 0), 12)]),
        report(vec![row(dec(1, 0), dec(5, -1), 3), row(dec(2, 0), dec(1, 0), 9)]),
    ]);
    assert_eq!(reports.min_cumulative_count(), Ok(3));
    assert_eq!(reports.max_cumulative_count(), Ok(12));
    let none = Reports::new(Vec::new());
    assert_eq!(none.min_cumulative_count(), Err(EmptyInputError));
    assert_eq!(none.max_cumulative_count(), Err(EmptyInputError));
}

#[test]
fn percentile_of_one_row() {
    let r = report(vec![row(dec(1, 0), dec(5, -1), 1)]);
    assert_eq!(r.min_pct(), Ok(dec(5, 1)));
    assert_eq!(r.max_pct(), Ok(dec(5, 1)));
    assert_eq!(report(Vec::new()).min_pct(), Err(EmptyInputError));
}

#[test]
fn percentiles_fit_detects_huge_exponents() {
    let reports = Reports::new(vec![report(vec![row(dec(1, 0), dec(1, i32::MAX), 1)])]);
    assert!(!reports.percentiles_fit());
}

#[test]
fn set_filename_on_every_report() {
    let mut reports = Reports::new(vec![report(Vec::new()), report(Vec::new())]);
    reports.set_filename(&"run.txt".to_string());
    assert_eq!(reports.get(0).source_filename.as_deref(), Some("run.txt"));
    assert_eq!(reports.get(1).source_filename.as_deref(), Some("run.txt"));
    let mut one = report(Vec::new());
    one.set_filename("a".to_string());
    assert_eq!(one.source_filename.as_deref(), Some("a"));
}
