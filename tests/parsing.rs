use wrkviz::{chars_of, decimal_float, is_spectrum_ordered, milliseconds, parse, Decimal, ParseError};

fn section(target: &str, secs: u32, req: &str) -> String {
    let mut s = String::new();
    s.push_str(&format!("Running {}s test @ {}\n", secs, target));
    s.push_str("  2 threads and 10 connections\n");
    s.push_str("  Thread Stats   Avg      Stdev     Max   +/- Stdev\n");
    s.push_str("    Latency     1.00ms  200.00us   5.00ms   90.00%\n");
    s.push_str("  Latency Distribution (HdrHistogram - Recorded Latency)\n");
    s.push_str(" 50.000%    1.00ms\n");
    s.push_str(" 75.000%  500.00us\n");
    s.push_str(" 90.000%    2.00s\n");
    s.push_str(" 99.000%   10.50ms\n");
    s.push_str("100.000%   20.00ns\n");
    s.push_str("\n");
    s.push_str("  Detailed Percentile spectrum:\n");
    s.push_str("       Value   Percentile   TotalCount 1/(1-Percentile)\n");
    s.push_str("\n");
    s.push_str("       0.500     0.000000            1         1.00\n");
    s.push_str("       1.000     0.500000           10         2.00\n");
    s.push_str("       1.000     0.750000           15         4.00\n");
    s.push_str("       2.000     1.000000           20          inf\n");
    s.push_str("#[Mean    =        1.000, StdDeviation   =        0.100]\n");
    s.push_str("----------------------------------------------------------\n");
    s.push_str("  100000 requests in 10.00s, 10.00MB read\n");
    s.push_str(&format!("Requests/sec:  {}\n", req));
    s.push_str("Transfer/sec:      1.00MB\n");
    s
}

fn dec(units: u64, exp: i32) -> Decimal {
    Decimal { units, exp }
}

#[test]
fn two_reports_in_order() {
    let text = section("http://a.example/", 10, "10000.50") + &section("http://b.example/x", 30, "42.25");
    let reports = parse(&text).unwrap();
    assert_eq!(reports.len(), 2);
    let a = reports.get(0);
    let b = reports.get(1);
    assert_eq!(a.target, "http://a.example/");
    assert_eq!(a.duration_s, 10);
    assert_eq!(a.req_per_s, dec(100005, -1));
    assert_eq!(b.target, "http://b.example/x");
    assert_eq!(b.duration_s, 30);
    assert_eq!(b.req_per_s, dec(4225, -2));
    assert_eq!(a.source_filename, None);
}

#[test]
fn histogram_and_spectrum_rows() {
    let reports = parse(&section("t", 1, "1.00")).unwrap();
    let r = reports.get(0);
    assert_eq!(r.hdr_histogram.len(), 5);
    assert_eq!(r.hdr_histogram[0].percentile, dec(5, 1));
    assert_eq!(r.hdr_histogram[4].percentile, dec(1, 2));
    assert_eq!(r.hdr_histogram[0].latency_ms, dec(1, 0));
    assert_eq!(r.hdr_histogram[1].latency_ms, dec(5, -1));
    assert_eq!(r.hdr_histogram[2].latency_ms, dec(2, 3));
    assert_eq!(r.hdr_histogram[3].latency_ms, dec(105, -1));
    assert_eq!(r.hdr_histogram[4].latency_ms, dec(2, -5));
    // the sentinel row with `inf` ends the spectrum and is not data
    assert_eq!(r.detailed_latency.len(), 3);
    assert_eq!(r.detailed_latency[0].latency_ms, dec(5, -1));
    assert_eq!(r.detailed_latency[0].cumulative_fraction, dec(0, 0));
    assert_eq!(r.detailed_latency[0].cumulative_count, 1);
    assert_eq!(r.detailed_latency[0].ignored, dec(1, 0));
    assert_eq!(r.detailed_latency[2].cumulative_fraction, dec(75, -2));
    assert_eq!(r.detailed_latency[2].cumulative_count, 15);
}

#[test]
fn parsing_twice_gives_the_same_reports() {
    let text = section("x", 5, "3.50") + &section("y", 6, "4.50");
    let a = parse(&text).unwrap();
    let b = parse(&text).unwrap();
    assert_eq!(format!("{:?}", a), format!("{:?}", b));
}

#[test]
fn parsed_spectra_are_ascending() {
    let reports = parse(&(section("x", 5, "3.50") + &section("y", 6, "4.50"))).unwrap();
    for i in 0..reports.len() {
        let rows = &reports.get(i).detailed_latency;
        assert!(is_spectrum_ordered(rows));
        for w in rows.windows(2) {
            assert!(w[0].cumulative_count <= w[1].cumulative_count);
        }
    }
}

#[test]
fn descending_spectrum_is_rejected() {
    let text = section("x", 5, "3.50").replace("           15         4.00", "            9         4.00");
    assert_eq!(parse(&text).unwrap_err(), ParseError { offset: 0 });
}

#[test]
fn unit_conversion_to_milliseconds() {
    let us = chars_of("500.00us");
    assert_eq!(milliseconds(&us, 0), Some((dec(5, -1), 8)));
    let s = chars_of("2.00s");
    assert_eq!(milliseconds(&s, 0), Some((dec(2, 3), 5)));
    let ms = chars_of("10.50ms");
    assert_eq!(milliseconds(&ms, 0), Some((dec(105, -1), 7)));
    let ns = chars_of("1500.00ns");
    assert_eq!(milliseconds(&ns, 0), Some((dec(15, -4), 9)));
    assert_eq!(milliseconds(&chars_of("10.50"), 0), None);
    assert_eq!(milliseconds(&chars_of("10.50ks"), 0), None);
}

#[test]
fn decimals_need_a_fraction() {
    assert_eq!(decimal_float(&chars_of("12"), 0), None);
    assert_eq!(decimal_float(&chars_of("12."), 0), None);
    assert_eq!(decimal_float(&chars_of(".5"), 0), None);
    assert_eq!(decimal_float(&chars_of("12.500x"), 0), Some((dec(125, -1), 6)));
    assert_eq!(decimal_float(&chars_of("0.000"), 0), Some((dec(0, 0), 5)));
    assert_eq!(decimal_float(&chars_of("99999999999999999999.0"), 0), None);
}

#[test]
fn missing_requests_line_fails() {
    let text = section("x", 5, "3.50").replace("Requests/sec:", "Requests/min:");
    assert_eq!(parse(&text).unwrap_err(), ParseError { offset: 0 });
}

#[test]
fn empty_input_fails() {
    assert_eq!(parse("").unwrap_err(), ParseError { offset: 0 });
    assert_eq!(parse("hello\n").unwrap_err(), ParseError { offset: 0 });
}

#[test]
fn trailing_text_is_ignored() {
    let text = section("x", 5, "3.50") + "\nsome other text\n";
    let reports = parse(&text).unwrap();
    assert_eq!(reports.len(), 1);
}

#[test]
fn malformed_second_section_fails_whole_parse() {
    let first = section("x", 5, "3.50");
    let text = first.clone() + "Running 5s test @ y\nnothing else\n";
    let offset = first.chars().count();
    assert_eq!(parse(&text).unwrap_err(), ParseError { offset });
}

#[test]
fn crlf_line_endings_are_accepted() {
    let text = section("x", 5, "3.50").replace('\n', "\r\n");
    let reports = parse(&text).unwrap();
    assert_eq!(reports.len(), 1);
    assert_eq!(reports.get(0).target, "x");
    assert_eq!(reports.get(0).detailed_latency.len(), 3);
}

#[test]
fn duration_must_fit_u32() {
    let text = section("x", 5, "3.50").replace("Running 5s", "Running 4294967296s");
    assert!(parse(&text).is_err());
    let text = section("x", 5, "3.50").replace("Running 5s", "Running 4294967295s");
    assert_eq!(parse(&text).unwrap().get(0).duration_s, 4294967295);
}

#[test]
fn parsed_numbers_are_in_normal_form() {
    assert_eq!(decimal_float(&chars_of("2000.00"), 0), Some((dec(2, 3), 7)));
    assert_eq!(milliseconds(&chars_of("2000.00ms"), 0), milliseconds(&chars_of("2.00s"), 0).map(|(d, _)| (d, 9)));
    assert_eq!(dec(20, 0).reduce(), dec(2, 1));
    assert_eq!(dec(0, -7).reduce(), dec(0, 0));
    assert_eq!(dec(7, i32::MAX).reduce(), dec(7, i32::MAX));
}
