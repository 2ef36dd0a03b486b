use vstd::prelude::*;
use crate::decimal::Decimal;
use crate::density::{DensityPoint, density, normalized, buckets_of};
use crate::report::{Column, Reports, ReportView, all_rows, column, fold_extreme, percent_of, percentiles_fit};

verus! {

/// The chart kinds, chosen by the caller.
#[derive(Clone, Copy, Debug, PartialEq, Eq, Structural)]
pub enum RendererInput {
    Violin,
    Line,
}

/// A ridge chart: one mirrored density lane per report.
pub struct Violin {
    pub reports: Reports,
    pub filename: String,
}

/// A line chart: latency against percentile, one line per report.
pub struct Line {
    pub reports: Reports,
    pub filename: String,
}

/// A chart of the chosen kind over the reports, to be written to `filename`.
pub enum Renderer {
    Violin(Violin),
    Line(Line),
}

/// The axis bounds of a line chart.
#[derive(Clone, Copy, Debug, PartialEq, Eq, Structural)]
pub struct LinePlot {
    /// The smallest percentile: the smallest cumulative fraction times one hundred.
    pub min_pct: Decimal,
    /// The largest percentile: the largest cumulative fraction times one hundred.
    pub max_pct: Decimal,
    pub max_latency: Decimal,
}

/// The data of a ridge chart: the latency axis bound and, per report in
/// order, its density points before smoothing.
pub struct ViolinPlot {
    pub max_latency: Decimal,
    pub lanes: Vec<Vec<DensityPoint>>,
}

/// What a renderer draws.
pub enum Plot {
    Violin(ViolinPlot),
    Line(LinePlot),
}

/// Why there is nothing to draw.
#[derive(Clone, Copy, Debug, PartialEq, Eq, Structural)]
pub enum RenderError {
    /// No report, or no spectrum row, to size the axes by.
    EmptyInput,
    /// A report's largest bucket count is not positive.
    DegenerateHistogram,
}

pub open spec fn extreme(rs: Seq<ReportView>, c: Column, want_max: bool) -> Option<Decimal> {
    fold_extreme(None, column(all_rows(rs), c), want_max)
}

/// Every report has a density.
pub open spec fn all_dense(rs: Seq<ReportView>) -> bool {
    forall|i: int| 0 <= i < rs.len() ==> (#[trigger] normalized(buckets_of(rs[i].detailed_latency))) is Ok
}

/// What `render` returns for a line chart over `rs`.
pub open spec fn line_result(rs: Seq<ReportView>, r: Result<Plot, RenderError>) -> bool {
    match (extreme(rs, Column::Fraction, false), extreme(rs, Column::Fraction, true),
        extreme(rs, Column::Latency, true)) {
        (Some(lo), Some(hi), Some(lat)) => r == Ok::<Plot, RenderError>(
            Plot::Line(LinePlot { min_pct: percent_of(lo), max_pct: percent_of(hi), max_latency: lat })),
        _ => r == Err::<Plot, RenderError>(RenderError::EmptyInput),
    }
}

/// What `render` returns for a ridge chart over `rs`.
pub open spec fn violin_result(rs: Seq<ReportView>, r: Result<Plot, RenderError>) -> bool {
    match extreme(rs, Column::Latency, true) {
        None => r == Err::<Plot, RenderError>(RenderError::EmptyInput),
        Some(lat) => if all_dense(rs) {
            (r matches Ok(Plot::Violin(p)) && p.max_latency == lat && p.lanes@.len() == rs.len()
                && forall|i: int| 0 <= i < rs.len() ==> (#[trigger] p.lanes@[i])@
                    == normalized(buckets_of(rs[i].detailed_latency))->Ok_0)
        } else {
            r == Err::<Plot, RenderError>(RenderError::DegenerateHistogram)
        },
    }
}

impl Renderer {
    pub fn new(input: RendererInput, reports: Reports, filename: &str) -> (r: Renderer)
        ensures
            input == RendererInput::Violin ==> (r matches Renderer::Violin(v) && v.reports@ == reports@
                && v.filename@ == filename@),
            input == RendererInput::Line ==> (r matches Renderer::Line(l) && l.reports@ == reports@
                && l.filename@ == filename@),
    {
        match input {
            RendererInput::Violin => Renderer::Violin(Violin::new(reports, filename)),
            RendererInput::Line => Renderer::Line(Line::new(reports, filename)),
        }
    }

    /// The data the chart is drawn from.
    pub fn render(&self) -> (r: Result<Plot, RenderError>)
        requires
            self matches Renderer::Line(l) ==> percentiles_fit(all_rows(l.reports@)),
        ensures
            self matches Renderer::Line(l) ==> line_result(l.reports@, r),
            self matches Renderer::Violin(v) ==> violin_result(v.reports@, r),
    {
        match self {
            Renderer::Line(l) => l.render(),
            Renderer::Violin(v) => v.render(),
        }
    }
}

impl Line {
    pub fn new(reports: Reports, filename: &str) -> (r: Line)
        ensures
            r.reports@ == reports@,
            r.filename@ == filename@,
    {
        Line { reports, filename: filename.to_owned() }
    }

    pub fn render(&self) -> (r: Result<Plot, RenderError>)
        requires
            percentiles_fit(all_rows(self.reports@)),
        ensures
            line_result(self.reports@, r),
    {
        let lo = match self.reports.min_pct() { Ok(d) => d, Err(_) => { return Err(RenderError::EmptyInput); } };
        let hi = match self.reports.max_pct() { Ok(d) => d, Err(_) => { return Err(RenderError::EmptyInput); } };
        let lat = match self.reports.max_latency() {
            Ok(d) => d,
            Err(_) => { return Err(RenderError::EmptyInput); },
        };
        Ok(Plot::Line(LinePlot { min_pct: lo, max_pct: hi, max_latency: lat }))
    }
}

impl Violin {
    pub fn new(reports: Reports, filename: &str) -> (r: Violin)
        ensures
            r.reports@ == reports@,
            r.filename@ == filename@,
    {
        Violin { reports, filename: filename.to_owned() }
    }

    pub fn render(&self) -> (r: Result<Plot, RenderError>)
        ensures
            violin_result(self.reports@, r),
    {
        let lat = match self.reports.max_latency() {
            Ok(d) => d,
            Err(_) => { return Err(RenderError::EmptyInput); },
        };
        assert(extreme(self.reports@, Column::Latency, true) == Some(lat));
        let n = self.reports.len();
        let mut lanes: Vec<Vec<DensityPoint>> = Vec::new();
        let mut i: usize = 0;
        while i < n
            invariant
                n == self.reports@.len(),
                extreme(self.reports@, Column::Latency, true) == Some(lat),
                i <= n,
                lanes@.len() == i,
                forall|j: int| 0 <= j < i ==> (#[trigger] normalized(buckets_of(self.reports@[j].detailed_latency))) is Ok,
                forall|j: int| 0 <= j < i ==> (#[trigger] lanes@[j])@
                    == normalized(buckets_of(self.reports@[j].detailed_latency))->Ok_0,
            decreases n - i,
        {
            let rep = self.reports.get(i);
            match density(rep) {
                Ok(points) => {
                    lanes.push(points);
                },
                Err(_) => {
                    assert(normalized(buckets_of(self.reports@[i as int].detailed_latency)) is Err);
                    assert(!all_dense(self.reports@));
                    return Err(RenderError::DegenerateHistogram);
                },
            }
            i = i + 1;
        }
        Ok(Plot::Violin(ViolinPlot { max_latency: lat, lanes }))
    }
}

} // verus!
