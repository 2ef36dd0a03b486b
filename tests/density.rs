use wrkviz::{
    density, latency_buckets, normalize, Bucket, Decimal, DegenerateHistogramError, DensityPoint, LatencyRow,
    Line, LinePlot, Plot, RenderError, Violin, Renderer, RendererInput, Report, Reports,
};

fn dec(units: u64, exp: i32) -> Decimal {
    Decimal { units, exp }
}

fn row(ms: Decimal, count: u32) -> LatencyRow {
    LatencyRow { latency_ms: ms, cumulative_fraction: dec(1, 0), cumulative_count: count, ignored: dec(1, 0) }
}

fn report(rows: Vec<LatencyRow>) -> Report {
    Report {
        target: "t".to_string(),
        duration_s: 1,
        req_per_s: dec(1, 0),
        hdr_histogram: Vec::new(),
        detailed_latency: rows,
        source_filename: None,
    }
}

#[test]
fn duplicate_latencies_share_a_bucket() {
    let r = report(vec![row(dec(1, 0), 10), row(dec(1, 0), 15), row(dec(2, 0), 20)]);
    let buckets = latency_buckets(&r);
    assert_eq!(
        buckets,
        vec![Bucket { latency_ms: dec(1, 0), count: 15 }, Bucket { latency_ms: dec(2, 0), count: 5 }]
    );
    let points = normalize(&buckets).unwrap();
    // 0.9 and 0.3
    assert_eq!(points[0], DensityPoint { latency_ms: dec(1, 0), numerator: 135, denominator: 150 });
    assert_eq!(points[1], DensityPoint { latency_ms: dec(2, 0), numerator: 45, denominator: 150 });
    assert_eq!(points[0].numerator * 10, points[0].denominator * 9);
    assert_eq!(points[1].numerator * 10, points[1].denominator * 3);
    assert_eq!(density(&r).unwrap(), points);
}

#[test]
fn single_row_gives_one_point() {
    let r = report(vec![row(dec(3, 0), 7)]);
    let points = density(&r).unwrap();
    assert_eq!(points, vec![DensityPoint { latency_ms: dec(3, 0), numerator: 63, denominator: 70 }]);
}

#[test]
fn flat_histogram_is_degenerate() {
    let r = report(vec![row(dec(1, 0), 0), row(dec(2, 0), 0)]);
    assert_eq!(density(&r), Err(DegenerateHistogramError));
    assert_eq!(density(&report(Vec::new())), Err(DegenerateHistogramError));
}

#[test]
fn separated_equal_latencies_stay_apart() {
    let r = report(vec![row(dec(1, 0), 2), row(dec(2, 0), 5), row(dec(1, 0), 9)]);
    let buckets = latency_buckets(&r);
    assert_eq!(buckets.len(), 3);
    assert_eq!(buckets[2], Bucket { latency_ms: dec(1, 0), count: 4 });
}

#[test]
fn renderer_kinds() {
    let reports = Reports::new(vec![report(vec![row(dec(1, 0), 10), row(dec(2, 0), 30)])]);
    let line = Renderer::new(RendererInput::Line, reports.clone(), "out.svg");
    match line.render() {
        Ok(Plot::Line(p)) => {
            assert_eq!(p, LinePlot { min_pct: dec(1, 2), max_pct: dec(1, 2), max_latency: dec(2, 0) })
        }
        _ => panic!("expected a line plot"),
    }
    let violin = Renderer::new(RendererInput::Violin, reports, "out.svg");
    match violin.render() {
        Ok(Plot::Violin(p)) => {
            assert_eq!(p.max_latency, dec(2, 0));
            assert_eq!(p.lanes.len(), 1);
            assert_eq!(p.lanes[0][1], DensityPoint { latency_ms: dec(2, 0), numerator: 180, denominator: 200 });
        }
        _ => panic!("expected a violin plot"),
    }
    let empty = Renderer::new(RendererInput::Violin, Reports::new(Vec::new()), "out.svg");
    assert!(matches!(empty.render(), Err(RenderError::EmptyInput)));
    let flat = Reports::new(vec![report(vec![row(dec(1, 0), 0)])]);
    let flat = Renderer::new(RendererInput::Violin, flat, "out.svg");
    assert!(matches!(flat.render(), Err(RenderError::DegenerateHistogram)));
}

#[test]
fn equal_values_written_differently_share_a_bucket() {
    let r = report(vec![row(dec(10, -1), 4), row(dec(1, 0), 6), row(dec(200, -2), 10)]);
    let buckets = latency_buckets(&r);
    assert_eq!(
        buckets,
        vec![Bucket { latency_ms: dec(1, 0), count: 6 }, Bucket { latency_ms: dec(2, 0), count: 4 }]
    );
}

#[test]
fn chart_constructors() {
    let line = Line::new(Reports::new(Vec::new()), "a.svg");
    assert_eq!(line.filename, "a.svg");
    let violin = Violin::new(Reports::new(Vec::new()), "b.svg");
    assert_eq!(violin.filename, "b.svg");
    assert_eq!(violin.reports.len(), 0);
}
