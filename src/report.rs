use vstd::prelude::*;
use crate::decimal::Decimal;
use vstd::std_specs::iter::IteratorSpec;

verus! {

/// One line of the coarse histogram: a percentile and the latency at it.
#[derive(Clone, Copy, Debug, PartialEq, Eq, Structural)]
pub struct HdrRow {
    pub percentile: Decimal,
    pub latency_ms: Decimal,
}

/// One row of the detailed percentile spectrum.
///
/// The fourth column of the source row is kept as `ignored`: its meaning is
/// not documented and nothing reads it.
#[derive(Clone, Copy, Debug, PartialEq, Eq, Structural)]
pub struct LatencyRow {
    pub latency_ms: Decimal,
    pub cumulative_fraction: Decimal,
    pub cumulative_count: u32,
    pub ignored: Decimal,
}

/// One benchmark run.
#[derive(Clone, Debug)]
pub struct Report {
    pub target: String,
    pub duration_s: u32,
    pub req_per_s: Decimal,
    pub hdr_histogram: Vec<HdrRow>,
    pub detailed_latency: Vec<LatencyRow>,
    pub source_filename: Option<String>,
}

/// The mathematical content of a [`Report`].
pub ghost struct ReportView {
    pub target: Seq<char>,
    pub duration_s: u32,
    pub req_per_s: Decimal,
    pub hdr_histogram: Seq<HdrRow>,
    pub detailed_latency: Seq<LatencyRow>,
    pub source_filename: Option<Seq<char>>,
}

pub open spec fn opt_string_view(s: Option<String>) -> Option<Seq<char>> {
    match s {
        Some(t) => Some(t@),
        None => None,
    }
}

impl View for Report {
    type V = ReportView;

    open spec fn view(&self) -> ReportView {
        ReportView {
            target: self.target@,
            duration_s: self.duration_s,
            req_per_s: self.req_per_s,
            hdr_histogram: self.hdr_histogram@,
            detailed_latency: self.detailed_latency@,
            source_filename: opt_string_view(self.source_filename),
        }
    }
}

/// Consecutive rows of an ascending cumulative spectrum: neither the latency,
/// the cumulative fraction nor the cumulative count goes down.
pub open spec fn rows_in_order(a: LatencyRow, b: LatencyRow) -> bool {
    &&& a.latency_ms.le(b.latency_ms)
    &&& a.cumulative_fraction.le(b.cumulative_fraction)
    &&& a.cumulative_count <= b.cumulative_count
}

/// The whole spectrum is ascending.
pub open spec fn spectrum_ordered(rows: Seq<LatencyRow>) -> bool {
    forall|i: int| 0 < i < rows.len() ==> #[trigger] rows_in_order(rows[i - 1], rows[i])
}

impl ReportView {
    pub open spec fn wf(self) -> bool {
        spectrum_ordered(self.detailed_latency)
    }
}

/// Which column of the detailed spectrum a query folds.
#[derive(Clone, Copy, Debug, PartialEq, Eq, Structural)]
pub enum Column {
    Latency,
    Fraction,
}

pub open spec fn column_value(r: LatencyRow, c: Column) -> Decimal {
    match c {
        Column::Latency => r.latency_ms,
        Column::Fraction => r.cumulative_fraction,
    }
}

pub open spec fn column(rows: Seq<LatencyRow>, c: Column) -> Seq<Decimal> {
    rows.map_values(|r: LatencyRow| column_value(r, c))
}

/// One step of a min or max fold; on a tie the earlier value is kept.
pub open spec fn pick(acc: Option<Decimal>, x: Decimal, want_max: bool) -> Decimal {
    match acc {
        None => x,
        Some(m) => if want_max {
            if x.le(m) { m } else { x }
        } else {
            if m.le(x) { m } else { x }
        },
    }
}

/// The extremum of `s` folded onto `acc`: `None` only where there is no value at all.
pub open spec fn fold_extreme(acc: Option<Decimal>, s: Seq<Decimal>, want_max: bool) -> Option<Decimal>
    decreases s.len(),
{
    if s.len() == 0 {
        acc
    } else {
        Some(pick(fold_extreme(acc, s.drop_last(), want_max), s.last(), want_max))
    }
}

/// The smallest or largest cumulative count of `rows`, folded onto `acc`.
pub open spec fn fold_count(acc: Option<u32>, rows: Seq<LatencyRow>, want_max: bool) -> Option<u32>
    decreases rows.len(),
{
    if rows.len() == 0 {
        acc
    } else {
        let c = rows.last().cumulative_count;
        Some(match fold_count(acc, rows.drop_last(), want_max) {
            None => c,
            Some(m) => if (want_max && c > m) || (!want_max && c < m) { c } else { m },
        })
    }
}

pub open spec fn count_result(r: Option<u32>) -> Result<u32, EmptyInputError> {
    match r {
        Some(c) => Ok(c),
        None => Err(EmptyInputError),
    }
}

/// A cumulative fraction as a percentile: times one hundred, in normal form.
pub open spec fn percent_of(d: Decimal) -> Decimal {
    Decimal { units: d.units, exp: (d.exp + 2) as i32 }.reduced()
}

pub open spec fn percent_result(r: Option<Decimal>) -> Result<Decimal, EmptyInputError> {
    match r {
        Some(d) => Ok(percent_of(d)),
        None => Err(EmptyInputError),
    }
}

/// Every cumulative fraction can be written times one hundred: its exponent
/// leaves room for two more places.
pub open spec fn percentiles_fit(rows: Seq<LatencyRow>) -> bool {
    forall|i: int| 0 <= i < rows.len() ==> (#[trigger] rows[i]).cumulative_fraction.exp <= i32::MAX - 2
}

/// Every spectrum row of every report, in order.
pub open spec fn all_rows(reports: Seq<ReportView>) -> Seq<LatencyRow>
    decreases reports.len(),
{
    if reports.len() == 0 {
        Seq::empty()
    } else {
        all_rows(reports.drop_last()) + reports.last().detailed_latency
    }
}

/// No report, or no spectrum row at all, to fold over.
#[derive(Clone, Copy, Debug, PartialEq, Eq, Structural)]
pub struct EmptyInputError;

pub open spec fn result_of(r: Option<Decimal>) -> Result<Decimal, EmptyInputError> {
    match r {
        Some(d) => Ok(d),
        None => Err(EmptyInputError),
    }
}

proof fn lemma_fold_extreme_append(acc: Option<Decimal>, s1: Seq<Decimal>, s2: Seq<Decimal>, want_max: bool)
    ensures
        fold_extreme(acc, s1 + s2, want_max) == fold_extreme(fold_extreme(acc, s1, want_max), s2, want_max),
    decreases s2.len(),
{
    if s2.len() == 0 {
        assert(s1 + s2 =~= s1);
    } else {
        lemma_fold_extreme_append(acc, s1, s2.drop_last(), want_max);
        assert((s1 + s2).drop_last() =~= s1 + s2.drop_last());
    }
}

proof fn lemma_fold_extreme_bounds(s: Seq<Decimal>, want_max: bool)
    ensures
        fold_extreme(None, s, want_max) is None <==> s.len() == 0,
        fold_extreme(None, s, want_max) matches Some(m) ==> {
            &&& forall|i: int| 0 <= i < s.len() ==> if want_max { (#[trigger] s[i]).le(m) } else { m.le(s[i]) }
            &&& exists|i: int| 0 <= i < s.len() && s[i] == m
        },
    decreases s.len(),
{
    if s.len() > 0 {
        let t = s.drop_last();
        lemma_fold_extreme_bounds(t, want_max);
        let x = s.last();
        match fold_extreme(None, t, want_max) {
            None => {
                assert(s[0] == x);
            },
            Some(m0) => {
                let m = pick(Some(m0), x, want_max);
                crate::decimal::le_total(x, m0);
                let j = choose|j: int| 0 <= j < t.len() && t[j] == m0;
                assert(s[j] == t[j]);
                assert(s[s.len() - 1] == x);
                assert forall|i: int| 0 <= i < s.len() implies if want_max { (#[trigger] s[i]).le(m) } else {
                    m.le(s[i])
                } by {
                    if i < s.len() - 1 {
                        assert(s[i] == t[i]);
                        if want_max {
                            if !x.le(m0) {
                                crate::decimal::le_transitive(s[i], m0, x);
                            }
                        } else {
                            if !m0.le(x) {
                                crate::decimal::le_transitive(x, m0, s[i]);
                            }
                        }
                    } else {
                        crate::decimal::le_total(x, x);
                    }
                }
            },
        }
    }
}

/// The largest latency over all reports is at least every row's latency and
/// is the latency of some row; it is missing only where there is no row.
pub proof fn max_latency_is_largest(reports: Seq<ReportView>)
    ensures
        fold_extreme(None, column(all_rows(reports), Column::Latency), true) is None
            <==> all_rows(reports).len() == 0,
        fold_extreme(None, column(all_rows(reports), Column::Latency), true) matches Some(m) ==> {
            &&& forall|i: int| 0 <= i < all_rows(reports).len()
                ==> (#[trigger] all_rows(reports)[i]).latency_ms.le(m)
            &&& exists|i: int| 0 <= i < all_rows(reports).len() && all_rows(reports)[i].latency_ms == m
        },
{
    let rows = all_rows(reports);
    let s = column(rows, Column::Latency);
    lemma_fold_extreme_bounds(s, true);
    if let Some(m) = fold_extreme(None, s, true) {
        assert forall|i: int| 0 <= i < rows.len() implies (#[trigger] rows[i]).latency_ms.le(m) by {
            assert(s[i] == rows[i].latency_ms);
        }
        let j = choose|j: int| 0 <= j < s.len() && s[j] == m;
        assert(rows[j].latency_ms == m);
    }
}

/// The smallest cumulative fraction over all reports is at most every row's
/// fraction and is the fraction of some row.
pub proof fn min_pct_is_smallest(reports: Seq<ReportView>)
    ensures
        fold_extreme(None, column(all_rows(reports), Column::Fraction), false) is None
            <==> all_rows(reports).len() == 0,
        fold_extreme(None, column(all_rows(reports), Column::Fraction), false) matches Some(m) ==> {
            &&& forall|i: int| 0 <= i < all_rows(reports).len()
                ==> m.le((#[trigger] all_rows(reports)[i]).cumulative_fraction)
            &&& exists|i: int| 0 <= i < all_rows(reports).len() && all_rows(reports)[i].cumulative_fraction == m
        },
{
    let rows = all_rows(reports);
    let s = column(rows, Column::Fraction);
    lemma_fold_extreme_bounds(s, false);
    if let Some(m) = fold_extreme(None, s, false) {
        assert forall|i: int| 0 <= i < rows.len() implies m.le((#[trigger] rows[i]).cumulative_fraction) by {
            assert(s[i] == rows[i].cumulative_fraction);
        }
        let j = choose|j: int| 0 <= j < s.len() && s[j] == m;
        assert(rows[j].cumulative_fraction == m);
    }
}

/// Folds one column of `rows` onto `acc`.
fn fold_rows(rows: &Vec<LatencyRow>, c: Column, want_max: bool, acc: Option<Decimal>) -> (r: Option<Decimal>)
    ensures
        r == fold_extreme(acc, column(rows@, c), want_max),
{
    let mut cur = acc;
    let mut i: usize = 0;
    while i < rows.len()
        invariant
            i <= rows@.len(),
            cur == fold_extreme(acc, column(rows@.subrange(0, i as int), c), want_max),
        decreases rows.len() - i,
    {
        let row = rows[i];
        let x = match c {
            Column::Latency => row.latency_ms,
            Column::Fraction => row.cumulative_fraction,
        };
        let next = match cur {
            None => x,
            Some(m) => if want_max {
                if x.is_at_most(&m) { m } else { x }
            } else {
                if m.is_at_most(&x) { m } else { x }
            },
        };
        proof {
            let s = column(rows@.subrange(0, i + 1), c);
            assert(s.drop_last() =~= column(rows@.subrange(0, i as int), c));
        }
        cur = Some(next);
        i = i + 1;
    }
    proof {
        assert(rows@.subrange(0, rows@.len() as int) =~= rows@);
    }
    cur
}

/// The rows of a prefix of the reports come first among all the rows.
proof fn lemma_all_rows_prefix(rs: Seq<ReportView>, n: int)
    requires
        0 <= n <= rs.len(),
    ensures
        all_rows(rs.subrange(0, n)).len() <= all_rows(rs).len(),
        forall|k: int| 0 <= k < all_rows(rs.subrange(0, n)).len() ==> #[trigger] all_rows(rs)[k]
            == all_rows(rs.subrange(0, n))[k],
    decreases rs.len(),
{
    if n == rs.len() {
        assert(rs.subrange(0, n) =~= rs);
    } else {
        let t = rs.drop_last();
        assert(t.subrange(0, n) =~= rs.subrange(0, n));
        lemma_all_rows_prefix(t, n);
        assert forall|k: int| 0 <= k < all_rows(t).len() implies #[trigger] all_rows(rs)[k] == all_rows(t)[k] by {}
    }
}

proof fn lemma_fold_count_append(acc: Option<u32>, s1: Seq<LatencyRow>, s2: Seq<LatencyRow>, want_max: bool)
    ensures
        fold_count(acc, s1 + s2, want_max) == fold_count(fold_count(acc, s1, want_max), s2, want_max),
    decreases s2.len(),
{
    if s2.len() == 0 {
        assert(s1 + s2 =~= s1);
    } else {
        lemma_fold_count_append(acc, s1, s2.drop_last(), want_max);
        assert((s1 + s2).drop_last() =~= s1 + s2.drop_last());
    }
}

/// Folds the cumulative counts of `rows` onto `acc`.
fn fold_counts(rows: &Vec<LatencyRow>, want_max: bool, acc: Option<u32>) -> (r: Option<u32>)
    ensures
        r == fold_count(acc, rows@, want_max),
{
    let mut cur = acc;
    let mut i: usize = 0;
    while i < rows.len()
        invariant
            i <= rows@.len(),
            cur == fold_count(acc, rows@.subrange(0, i as int), want_max),
        decreases rows.len() - i,
    {
        let c = rows[i].cumulative_count;
        proof {
            assert(rows@.subrange(0, i + 1).drop_last() =~= rows@.subrange(0, i as int));
        }
        cur = Some(match cur {
            None => c,
            Some(m) => if (want_max && c > m) || (!want_max && c < m) { c } else { m },
        });
        i = i + 1;
    }
    proof {
        assert(rows@.subrange(0, rows@.len() as int) =~= rows@);
    }
    cur
}

/// The fold's result is one of the values folded.
proof fn lemma_fold_extreme_member(s: Seq<Decimal>, want_max: bool)
    ensures
        fold_extreme(None, s, want_max) matches Some(m) ==> exists|i: int| 0 <= i < s.len() && s[i] == m,
{
    lemma_fold_extreme_bounds(s, want_max);
}

/// A fraction times one hundred.
fn percent(d: Decimal) -> (r: Decimal)
    requires
        d.exp <= i32::MAX - 2,
    ensures
        r == percent_of(d),
{
    Decimal { units: d.units, exp: d.exp + 2 }.reduce()
}

/// The percentile of a folded fraction, where the fraction came from `rows`.
fn percent_of_fold(f: Option<Decimal>, rows: Ghost<Seq<LatencyRow>>, want_max: bool) -> (r: Result<Decimal, EmptyInputError>)
    requires
        f == fold_extreme(None, column(rows@, Column::Fraction), want_max),
        percentiles_fit(rows@),
    ensures
        r == percent_result(f),
{
    match f {
        None => Err(EmptyInputError),
        Some(d) => {
            proof {
                let s = column(rows@, Column::Fraction);
                lemma_fold_extreme_member(s, want_max);
                let i = choose|i: int| 0 <= i < s.len() && s[i] == d;
                assert(rows@[i].cumulative_fraction.exp <= i32::MAX - 2);
            }
            Ok(percent(d))
        },
    }
}

impl LatencyRow {
    /// The row's percentile: its cumulative fraction times one hundred.
    pub fn percentile(&self) -> (r: Decimal)
        requires
            self.cumulative_fraction.exp <= i32::MAX - 2,
        ensures
            r == percent_of(self.cumulative_fraction),
    {
        percent(self.cumulative_fraction)
    }
}

impl Report {
    /// The smallest percentile of the spectrum: the smallest cumulative
    /// fraction times one hundred.
    pub fn min_pct(&self) -> (r: Result<Decimal, EmptyInputError>)
        requires
            percentiles_fit(self@.detailed_latency),
        ensures
            r == percent_result(fold_extreme(None, column(self@.detailed_latency, Column::Fraction), false)),
    {
        let f = fold_rows(&self.detailed_latency, Column::Fraction, false, None);
        percent_of_fold(f, Ghost(self@.detailed_latency), false)
    }

    /// The largest percentile of the spectrum: the largest cumulative
    /// fraction times one hundred.
    pub fn max_pct(&self) -> (r: Result<Decimal, EmptyInputError>)
        requires
            percentiles_fit(self@.detailed_latency),
        ensures
            r == percent_result(fold_extreme(None, column(self@.detailed_latency, Column::Fraction), true)),
    {
        let f = fold_rows(&self.detailed_latency, Column::Fraction, true, None);
        percent_of_fold(f, Ghost(self@.detailed_latency), true)
    }

    /// The smallest latency of the spectrum, in milliseconds.
    pub fn min_latency(&self) -> (r: Result<Decimal, EmptyInputError>)
        ensures
            r == result_of(fold_extreme(None, column(self@.detailed_latency, Column::Latency), false)),
    {
        match fold_rows(&self.detailed_latency, Column::Latency, false, None) {
            Some(d) => Ok(d),
            None => Err(EmptyInputError),
        }
    }

    /// The largest latency of the spectrum, in milliseconds.
    pub fn max_latency(&self) -> (r: Result<Decimal, EmptyInputError>)
        ensures
            r == result_of(fold_extreme(None, column(self@.detailed_latency, Column::Latency), true)),
    {
        match fold_rows(&self.detailed_latency, Column::Latency, true, None) {
            Some(d) => Ok(d),
            None => Err(EmptyInputError),
        }
    }

    /// The smallest cumulative count of the spectrum.
    pub fn min_cumulative_count(&self) -> (r: Result<u32, EmptyInputError>)
        ensures
            r == count_result(fold_count(None, self@.detailed_latency, false)),
    {
        match fold_counts(&self.detailed_latency, false, None) {
            Some(c) => Ok(c),
            None => Err(EmptyInputError),
        }
    }

    /// The largest cumulative count of the spectrum.
    pub fn max_cumulative_count(&self) -> (r: Result<u32, EmptyInputError>)
        ensures
            r == count_result(fold_count(None, self@.detailed_latency, true)),
    {
        match fold_counts(&self.detailed_latency, true, None) {
            Some(c) => Ok(c),
            None => Err(EmptyInputError),
        }
    }

    /// Records which file the report came from.
    pub fn set_filename(&mut self, filename: String)
        ensures
            final(self)@ == (ReportView { source_filename: Some(filename@), ..old(self)@ }),
    {
        self.source_filename = Some(filename);
    }
}

} // verus!

verus! {

/// The benchmark runs of one invocation, in input order.
#[derive(Clone, Debug)]
pub struct Reports(pub Vec<Report>);

impl View for Reports {
    type V = Seq<ReportView>;

    open spec fn view(&self) -> Seq<ReportView> {
        self.0@.map_values(|r: Report| r@)
    }
}

impl Reports {
    pub fn new(reports: Vec<Report>) -> (r: Reports)
        ensures
            r@ == reports@.map_values(|x: Report| x@),
    {
        Reports(reports)
    }

    pub fn len(&self) -> (r: usize)
        ensures
            r == self@.len(),
    {
        self.0.len()
    }

    /// The reports in order.
    pub fn iter(&self) -> (r: std::slice::Iter<'_, Report>)
        ensures
            r.remaining() == self.0@.map_values(|x: Report| &x),
    {
        self.0.as_slice().iter()
    }

    /// The report at `idx`.
    pub fn get(&self, idx: usize) -> (r: &Report)
        requires
            idx < self@.len(),
        ensures
            r@ == self@[idx as int],
    {
        &self.0[idx]
    }

    /// Folds one column over every row of every report.
    fn fold_all(&self, c: Column, want_max: bool) -> (r: Option<Decimal>)
        ensures
            r == fold_extreme(None, column(all_rows(self@), c), want_max),
    {
        let mut acc: Option<Decimal> = None;
        let mut i: usize = 0;
        while i < self.0.len()
            invariant
                i <= self@.len(),
                acc == fold_extreme(None, column(all_rows(self@.subrange(0, i as int)), c), want_max),
            decreases self.0.len() - i,
        {
            let rows = &self.0[i].detailed_latency;
            proof {
                let pre = self@.subrange(0, i as int);
                let next = self@.subrange(0, i + 1);
                assert(next.drop_last() =~= pre);
                assert(all_rows(next) == all_rows(pre) + rows@);
                assert(column(all_rows(pre) + rows@, c) =~= column(all_rows(pre), c) + column(rows@, c));
                lemma_fold_extreme_append(None, column(all_rows(pre), c), column(rows@, c), want_max);
            }
            acc = fold_rows(rows, c, want_max, acc);
            i = i + 1;
        }
        proof {
            assert(self@.subrange(0, self@.len() as int) =~= self@);
        }
        acc
    }

    /// Folds the cumulative counts over every row of every report.
    fn fold_all_counts(&self, want_max: bool) -> (r: Option<u32>)
        ensures
            r == fold_count(None, all_rows(self@), want_max),
    {
        let mut acc: Option<u32> = None;
        let mut i: usize = 0;
        while i < self.0.len()
            invariant
                i <= self@.len(),
                acc == fold_count(None, all_rows(self@.subrange(0, i as int)), want_max),
            decreases self.0.len() - i,
        {
            let rows = &self.0[i].detailed_latency;
            proof {
                let pre = self@.subrange(0, i as int);
                let next = self@.subrange(0, i + 1);
                assert(next.drop_last() =~= pre);
                assert(all_rows(next) == all_rows(pre) + rows@);
                lemma_fold_count_append(None, all_rows(pre), rows@, want_max);
            }
            acc = fold_counts(rows, want_max, acc);
            i = i + 1;
        }
        proof {
            assert(self@.subrange(0, self@.len() as int) =~= self@);
        }
        acc
    }

    /// Whether every cumulative fraction can be written as a percentile (see
    /// `min_pct`).
    pub fn percentiles_fit(&self) -> (r: bool)
        ensures
            r == percentiles_fit(all_rows(self@)),
    {
        let mut i: usize = 0;
        while i < self.0.len()
            invariant
                i <= self@.len(),
                percentiles_fit(all_rows(self@.subrange(0, i as int))),
            decreases self.0.len() - i,
        {
            let rows = &self.0[i].detailed_latency;
            let ghost pre = self@.subrange(0, i as int);
            proof {
                assert(self@.subrange(0, i + 1).drop_last() =~= pre);
                assert(all_rows(self@.subrange(0, i + 1)) == all_rows(pre) + rows@);
            }
            let mut j: usize = 0;
            while j < rows.len()
                invariant
                    j <= rows@.len(),
                    i < self@.len(),
                    pre == self@.subrange(0, i as int),
                    all_rows(self@.subrange(0, i + 1)) == all_rows(pre) + rows@,
                    forall|k: int| 0 <= k < j ==> (#[trigger] rows@[k]).cumulative_fraction.exp <= i32::MAX - 2,
                decreases rows.len() - j,
            {
                if rows[j].cumulative_fraction.exp > i32::MAX - 2 {
                    proof {
                        let all = all_rows(self@);
                        lemma_all_rows_prefix(self@, i + 1);
                        let q = all_rows(self@.subrange(0, i + 1));
                        assert(q[all_rows(pre).len() + j] == rows@[j as int]);
                        assert(all[all_rows(pre).len() + j] == rows@[j as int]);
                    }
                    return false;
                }
                j = j + 1;
            }
            proof {
                let q = all_rows(self@.subrange(0, i + 1));
                assert forall|k: int| 0 <= k < q.len() implies (#[trigger] q[k]).cumulative_fraction.exp
                    <= i32::MAX - 2 by {
                    if k >= all_rows(pre).len() {
                        assert(q[k] == rows@[k - all_rows(pre).len()]);
                    } else {
                        assert(q[k] == all_rows(pre)[k]);
                    }
                }
            }
            i = i + 1;
        }
        proof {
            assert(self@.subrange(0, self@.len() as int) =~= self@);
        }
        true
    }

    /// The smallest percentile over all reports: the smallest cumulative
    /// fraction times one hundred.
    pub fn min_pct(&self) -> (r: Result<Decimal, EmptyInputError>)
        requires
            percentiles_fit(all_rows(self@)),
        ensures
            r == percent_result(fold_extreme(None, column(all_rows(self@), Column::Fraction), false)),
    {
        let f = self.fold_all(Column::Fraction, false);
        percent_of_fold(f, Ghost(all_rows(self@)), false)
    }

    /// The largest percentile over all reports: the largest cumulative
    /// fraction times one hundred.
    pub fn max_pct(&self) -> (r: Result<Decimal, EmptyInputError>)
        requires
            percentiles_fit(all_rows(self@)),
        ensures
            r == percent_result(fold_extreme(None, column(all_rows(self@), Column::Fraction), true)),
    {
        let f = self.fold_all(Column::Fraction, true);
        percent_of_fold(f, Ghost(all_rows(self@)), true)
    }

    /// The smallest cumulative count over all reports.
    pub fn min_cumulative_count(&self) -> (r: Result<u32, EmptyInputError>)
        ensures
            r == count_result(fold_count(None, all_rows(self@), false)),
    {
        match self.fold_all_counts(false) {
            Some(c) => Ok(c),
            None => Err(EmptyInputError),
        }
    }

    /// The largest cumulative count over all reports.
    pub fn max_cumulative_count(&self) -> (r: Result<u32, EmptyInputError>)
        ensures
            r == count_result(fold_count(None, all_rows(self@), true)),
    {
        match self.fold_all_counts(true) {
            Some(c) => Ok(c),
            None => Err(EmptyInputError),
        }
    }

    /// The smallest latency over all reports, in milliseconds.
    pub fn min_latency(&self) -> (r: Result<Decimal, EmptyInputError>)
        ensures
            r == result_of(fold_extreme(None, column(all_rows(self@), Column::Latency), false)),
    {
        match self.fold_all(Column::Latency, false) {
            Some(d) => Ok(d),
            None => Err(EmptyInputError),
        }
    }

    /// The largest latency over all reports, in milliseconds.
    pub fn max_latency(&self) -> (r: Result<Decimal, EmptyInputError>)
        ensures
            r == result_of(fold_extreme(None, column(all_rows(self@), Column::Latency), true)),
    {
        match self.fold_all(Column::Latency, true) {
            Some(d) => Ok(d),
            None => Err(EmptyInputError),
        }
    }

    /// Records the source file on every report.
    pub fn set_filename(&mut self, filename: &String)
        ensures
            final(self)@.len() == old(self)@.len(),
            forall|i: int| 0 <= i < old(self)@.len() ==> #[trigger] final(self)@[i]
                == (ReportView { source_filename: Some(filename@), ..old(self)@[i] }),
    {
        let n = self.0.len();
        let mut i: usize = 0;
        while i < n
            invariant
                n == old(self)@.len() == self@.len(),
                i <= n,
                forall|j: int| 0 <= j < i ==> #[trigger] self@[j]
                    == (ReportView { source_filename: Some(filename@), ..old(self)@[j] }),
                forall|j: int| i <= j < n ==> #[trigger] self@[j] == old(self)@[j],
            decreases n - i,
        {
            let ghost before = self.0@;
            let ghost start = self@;
            proof {
                assert(forall|j: int| 0 <= j < n ==> #[trigger] start[j] == before[j]@);
                assert(self@[i as int] == old(self)@[i as int]);
                assert(self@[i as int] == before[i as int]@);
            }
            let mut r = self.0.remove(i);
            proof {
                assert(r == before[i as int]);
            }
            let name = filename.clone();
            r.set_filename(name);
            self.0.insert(i, r);
            proof {
                assert(self.0@ =~= before.update(i as int, r));
                assert(forall|j: int| 0 <= j < n ==> #[trigger] self@[j] == self.0@[j]@);
                assert(forall|j: int| 0 <= j < n ==> #[trigger] old(self)@[j] == old(self).0@[j]@);
                assert(self@[i as int] == (ReportView { source_filename: Some(filename@), ..old(self)@[i as int] }));
                assert(forall|j: int| 0 <= j < n && j != i ==> #[trigger] self@[j] == start[j]);
            }
            i = i + 1;
        }
    }
}

} // verus!
