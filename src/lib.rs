//! Turns the text report of an HTTP load-testing tool into structured
//! benchmark runs, answers axis-bound queries over them, and rebuilds the
//! per-bucket latency density used by ridge-style charts.

mod decimal;
mod density;
mod grammar;
mod parser;
mod renderer;
mod report;
mod scan;
mod tokens;

pub use decimal::Decimal;
pub use density::{Bucket, DegenerateHistogramError, DensityPoint, density, latency_buckets, normalize};
pub use parser::{ParseError, is_spectrum_ordered, parse};
pub use renderer::{Line, LinePlot, Plot, RenderError, Renderer, RendererInput, Violin, ViolinPlot};
pub use report::{Column, EmptyInputError, HdrRow, LatencyRow, Report, ReportView, Reports};
pub use scan::chars_of;
pub use tokens::{decimal_float, milliseconds};
