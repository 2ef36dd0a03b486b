use vstd::prelude::*;
use itertools::Itertools;
use crate::decimal::{Decimal, le_transitive, reduced_fixed, reduced_keeps_value, reduced_unique};
use crate::report::{LatencyRow, Report, spectrum_ordered, rows_in_order};

verus! {

/// A latency in normal form, as a key that std compares field by field.
pub type LatencyKey = (u64, i32);

/// Groups of consecutive items with equal keys ("runs"), in order, each
/// with the values of its items in order.
pub open spec fn runs(s: Seq<(LatencyKey, i64)>) -> Seq<(LatencyKey, Seq<i64>)>
    decreases s.len(),
{
    if s.len() == 0 {
        Seq::empty()
    } else {
        let prev = runs(s.drop_last());
        let (k, v) = s.last();
        if prev.len() > 0 && prev.last().0 == k {
            prev.update(prev.len() - 1, (k, prev.last().1.push(v)))
        } else {
            prev.push((k, seq![v]))
        }
    }
}

pub open spec fn runs_view(g: Vec<(LatencyKey, Vec<i64>)>) -> Seq<(LatencyKey, Seq<i64>)> {
    g@.map_values(|x: (LatencyKey, Vec<i64>)| (x.0, x.1@))
}

/// Relies on itertools' `group_by`: consecutive items that map to the same
/// key form one group, groups come out in order, and each group yields its
/// items in order.
#[verifier::external_body]
fn latency_runs(items: &Vec<(LatencyKey, i64)>) -> (r: Vec<(LatencyKey, Vec<i64>)>)
    ensures
        runs_view(r) == runs(items@),
{
    let groups = items.iter().group_by(|item| item.0);
    groups.into_iter().map(|(key, group)| (key, group.map(|item| item.1).collect())).collect()
}

/// The rise of the cumulative count at row `i` (the first row rises from zero).
pub open spec fn count_rise(rows: Seq<LatencyRow>, i: int) -> int {
    if i == 0 {
        rows[0].cumulative_count as int
    } else {
        rows[i].cumulative_count - rows[i - 1].cumulative_count
    }
}

/// A latency's normal form as a key: equal keys exactly for equal values.
pub open spec fn key_of(d: Decimal) -> LatencyKey {
    (d.reduced().units, d.reduced().exp)
}

/// Each row's latency with the rise of the count at it.
pub open spec fn rises(rows: Seq<LatencyRow>) -> Seq<(LatencyKey, i64)> {
    Seq::new(rows.len(), |i: int| (key_of(rows[i].latency_ms), count_rise(rows, i) as i64))
}

pub open spec fn total(s: Seq<i64>) -> int
    decreases s.len(),
{
    if s.len() == 0 {
        0
    } else {
        total(s.drop_last()) + s.last()
    }
}

/// A bound on a bucket's count: a spectrum's count rises are each within
/// `2^32`, and a bucket sums fewer than `2^64` of them.
pub const MAX_BUCKET_COUNT: i128 = 0x1_0000_0000_0000_0000_0000_0000;

/// Rows of one latency value merged: the latency in normal form and the
/// summed rise of the count.
#[derive(Clone, Copy, Debug, PartialEq, Eq, Structural)]
pub struct Bucket {
    pub latency_ms: Decimal,
    pub count: i128,
}

/// The buckets of a spectrum: the count rises, summed over each run of rows
/// whose latencies have the same value.
pub open spec fn buckets_of(rows: Seq<LatencyRow>) -> Seq<Bucket> {
    runs(rises(rows)).map_values(|g: (LatencyKey, Seq<i64>)|
        Bucket { latency_ms: Decimal { units: g.0.0, exp: g.0.1 }, count: total(g.1) as i128 })
}

proof fn lemma_runs_bounded(s: Seq<(LatencyKey, i64)>, lo: int, hi: int)
    requires
        forall|i: int| 0 <= i < s.len() ==> lo <= (#[trigger] s[i]).1 <= hi,
    ensures
        forall|j: int| 0 <= j < runs(s).len() ==> (#[trigger] runs(s)[j]).1.len() <= s.len(),
        forall|j: int, k: int| 0 <= j < runs(s).len() && 0 <= k < runs(s)[j].1.len()
            ==> lo <= #[trigger] runs(s)[j].1[k] <= hi,
    decreases s.len(),
{
    if s.len() > 0 {
        let t = s.drop_last();
        assert forall|i: int| 0 <= i < t.len() implies lo <= (#[trigger] t[i]).1 <= hi by {
            assert(t[i] == s[i]);
        }
        lemma_runs_bounded(t, lo, hi);
        let prev = runs(t);
        let (k, v) = s.last();
        assert(lo <= v <= hi);
        if prev.len() > 0 && prev.last().0 == k {
            let g = prev.last().1.push(v);
            assert forall|kk: int| 0 <= kk < g.len() implies lo <= #[trigger] g[kk] <= hi by {
                if kk < g.len() - 1 {
                    assert(g[kk] == prev[prev.len() - 1].1[kk]);
                }
            }
        }
    }
}

/// Sums one group; `n` bounds its length.
fn group_total(g: &Vec<i64>, n: usize) -> (r: i128)
    requires
        g@.len() <= n,
        forall|k: int| 0 <= k < g@.len() ==> -0x1_0000_0000 <= #[trigger] g@[k] <= 0x1_0000_0000,
    ensures
        r == total(g@),
        -0x1_0000_0000 * n <= r <= 0x1_0000_0000 * n,
{
    let mut acc: i128 = 0;
    let mut k: usize = 0;
    while k < g.len()
        invariant
            k <= g@.len() <= n,
            forall|kk: int| 0 <= kk < g@.len() ==> -0x1_0000_0000 <= #[trigger] g@[kk] <= 0x1_0000_0000,
            acc == total(g@.subrange(0, k as int)),
            -0x1_0000_0000 * k <= acc <= 0x1_0000_0000 * k,
        decreases g.len() - k,
    {
        proof {
            assert(g@.subrange(0, k + 1).drop_last() =~= g@.subrange(0, k as int));
            assert(0x1_0000_0000 * k <= 0x1_0000_0000 * 0xffff_ffff_ffff_ffffu64) by (nonlinear_arith)
                requires k <= 0xffff_ffff_ffff_ffffu64;
        }
        acc = acc + g[k] as i128;
        k = k + 1;
    }
    proof {
        assert(g@.subrange(0, g@.len() as int) =~= g@);
        assert(0x1_0000_0000 * k <= 0x1_0000_0000 * n) by (nonlinear_arith)
            requires k <= n;
    }
    acc
}

/// Differencing and grouping: the rise of the cumulative count at each row,
/// summed over each run of rows with the same latency.
pub fn latency_buckets(report: &Report) -> (r: Vec<Bucket>)
    ensures
        r@ == buckets_of(report@.detailed_latency),
        forall|j: int| 0 <= j < r@.len() ==> -MAX_BUCKET_COUNT <= (#[trigger] r@[j]).count <= MAX_BUCKET_COUNT,
{
    let rows = &report.detailed_latency;
    let n = rows.len();
    let mut items: Vec<(LatencyKey, i64)> = Vec::new();
    let mut i: usize = 0;
    while i < n
        invariant
            n == rows@.len(),
            i <= n,
            items@ == rises(rows@).take(i as int),
        decreases n - i,
    {
        let row = rows[i];
        let rise: i64 = if i == 0 {
            row.cumulative_count as i64
        } else {
            row.cumulative_count as i64 - rows[i - 1].cumulative_count as i64
        };
        let key = row.latency_ms.reduce();
        items.push(((key.units, key.exp), rise));
        proof {
            assert(items@ =~= rises(rows@).take(i + 1));
        }
        i = i + 1;
    }
    proof {
        assert(items@ =~= rises(rows@));
        assert forall|j: int| 0 <= j < items@.len() implies
            -0x1_0000_0000 <= (#[trigger] items@[j]).1 <= 0x1_0000_0000 by {}
        lemma_runs_bounded(items@, -0x1_0000_0000, 0x1_0000_0000);
    }
    let groups = latency_runs(&items);
    let mut out: Vec<Bucket> = Vec::new();
    let mut j: usize = 0;
    while j < groups.len()
        invariant
            j <= groups@.len(),
            n == items@.len(),
            runs_view(groups) == runs(items@),
            items@ == rises(rows@),
            forall|jj: int| 0 <= jj < runs(items@).len() ==> (#[trigger] runs(items@)[jj]).1.len() <= n,
            forall|jj: int, k: int| 0 <= jj < runs(items@).len() && 0 <= k < runs(items@)[jj].1.len()
                ==> -0x1_0000_0000 <= #[trigger] runs(items@)[jj].1[k] <= 0x1_0000_0000,
            out@ == buckets_of(rows@).take(j as int),
            forall|jj: int| 0 <= jj < out@.len() ==> -MAX_BUCKET_COUNT <= (#[trigger] out@[jj]).count <= MAX_BUCKET_COUNT,
        decreases groups.len() - j,
    {
        let g = &groups[j];
        proof {
            assert(runs_view(groups)[j as int] == (g.0, g.1@));
        }
        let t = group_total(&g.1, n);
        proof {
            assert(0x1_0000_0000 * n <= 0x1_0000_0000 * 0xffff_ffff_ffff_ffffu64) by (nonlinear_arith)
                requires n <= 0xffff_ffff_ffff_ffffu64;
        }
        out.push(Bucket { latency_ms: Decimal { units: g.0.0, exp: g.0.1 }, count: t });
        proof {
            assert(out@ =~= buckets_of(rows@).take(j + 1));
        }
        j = j + 1;
    }
    proof {
        assert(out@ =~= buckets_of(rows@));
    }
    out
}

/// Numeric order of two latency keys.
pub open spec fn key_le(a: LatencyKey, b: LatencyKey) -> bool {
    Decimal { units: a.0, exp: a.1 }.le(Decimal { units: b.0, exp: b.1 })
}

pub open spec fn key_reduced(k: LatencyKey) -> bool {
    Decimal { units: k.0, exp: k.1 }.is_reduced()
}

proof fn lemma_runs_keys(s: Seq<(LatencyKey, i64)>)
    requires
        forall|i: int| 0 < i < s.len() ==> key_le(#[trigger] s[i - 1].0, s[i].0),
        forall|i: int| 0 <= i < s.len() ==> key_reduced(#[trigger] s[i].0),
    ensures
        forall|j: int| 0 <= j < runs(s).len() ==> key_reduced(#[trigger] runs(s)[j].0),
        runs(s).len() > 0 <==> s.len() > 0,
        s.len() > 0 ==> runs(s).last().0 == s.last().0,
        forall|j: int| 0 < j < runs(s).len() ==> key_le(#[trigger] runs(s)[j - 1].0, runs(s)[j].0)
            && runs(s)[j - 1].0 != runs(s)[j].0,
    decreases s.len(),
{
    if s.len() > 0 {
        let t = s.drop_last();
        assert forall|i: int| 0 < i < t.len() implies key_le(#[trigger] t[i - 1].0, t[i].0) by {
            assert(t[i - 1] == s[i - 1] && t[i] == s[i]);
        }
        assert forall|i: int| 0 <= i < t.len() implies key_reduced(#[trigger] t[i].0) by {
            assert(t[i] == s[i]);
        }
        lemma_runs_keys(t);
        let prev = runs(t);
        let r = runs(s);
        if t.len() > 0 {
            assert(key_le(s[s.len() - 2].0, s[s.len() - 1].0));
        }
        assert forall|j: int| 0 < j < r.len() implies key_le(#[trigger] r[j - 1].0, r[j].0)
            && r[j - 1].0 != r[j].0 by {
            if j < prev.len() {
                assert(r[j - 1].0 == prev[j - 1].0 && r[j].0 == prev[j].0);
            }
        }
        assert(key_reduced(s[s.len() - 1].0));
        assert forall|j: int| 0 <= j < r.len() implies key_reduced(#[trigger] r[j].0) by {
            if j < prev.len() {
                assert(r[j].0 == prev[j].0);
            }
        }
    }
}

proof fn lemma_total_bounds(g: Seq<i64>, hi: int)
    requires
        0 <= hi,
        forall|k: int| 0 <= k < g.len() ==> 0 <= #[trigger] g[k] <= hi,
    ensures
        0 <= total(g) <= g.len() * hi,
    decreases g.len(),
{
    if g.len() > 0 {
        let t = g.drop_last();
        assert forall|k: int| 0 <= k < t.len() implies 0 <= #[trigger] t[k] <= hi by {
            assert(t[k] == g[k]);
        }
        lemma_total_bounds(t, hi);
        assert(g.last() <= hi);
        assert(t.len() * hi + hi == g.len() * hi) by (nonlinear_arith)
            requires t.len() + 1 == g.len();
    }
}

/// For an ascending spectrum, the buckets strictly ascend in latency value
/// (so no two buckets share a value), and no bucket has a negative count.
pub proof fn buckets_ascend(rows: Seq<LatencyRow>)
    requires
        spectrum_ordered(rows),
        rows.len() <= usize::MAX,
    ensures
        forall|j: int| 0 < j < buckets_of(rows).len() ==>
            (#[trigger] buckets_of(rows)[j - 1]).latency_ms.le(buckets_of(rows)[j].latency_ms)
            && !buckets_of(rows)[j].latency_ms.le(buckets_of(rows)[j - 1].latency_ms),
        forall|j: int| 0 <= j < buckets_of(rows).len() ==> (#[trigger] buckets_of(rows)[j]).count >= 0,
{
    let s = rises(rows);
    assert forall|i: int| 0 < i < s.len() implies key_le(#[trigger] s[i - 1].0, s[i].0) by {
        assert(rows_in_order(rows[i - 1], rows[i]));
        let a = rows[i - 1].latency_ms;
        let c = rows[i].latency_ms;
        reduced_keeps_value(a);
        reduced_keeps_value(c);
        le_transitive(a.reduced(), a, c);
        le_transitive(a.reduced(), c, c.reduced());
    }
    assert forall|i: int| 0 <= i < s.len() implies key_reduced(#[trigger] s[i].0) by {
        reduced_keeps_value(rows[i].latency_ms);
    }
    assert forall|i: int| 0 <= i < s.len() implies 0 <= (#[trigger] s[i]).1 <= 0x1_0000_0000 by {
        if i > 0 {
            assert(rows_in_order(rows[i - 1], rows[i]));
        }
    }
    lemma_runs_keys(s);
    lemma_runs_bounded(s, 0, 0x1_0000_0000);
    let r = runs(s);
    let b = buckets_of(rows);
    assert forall|j: int| 0 < j < b.len() implies (#[trigger] b[j - 1]).latency_ms.le(b[j].latency_ms)
        && !b[j].latency_ms.le(b[j - 1].latency_ms) by {
        assert(key_le(r[j - 1].0, r[j].0) && r[j - 1].0 != r[j].0);
        assert(key_reduced(r[j - 1].0) && key_reduced(r[j].0));
        let x = b[j - 1].latency_ms;
        let y = b[j].latency_ms;
        reduced_fixed(x);
        reduced_fixed(y);
        reduced_unique(x, y);
    }
    assert forall|j: int| 0 <= j < b.len() implies (#[trigger] b[j]).count >= 0 by {
        lemma_total_bounds(r[j].1, 0x1_0000_0000);
        assert(r[j].1.len() * 0x1_0000_0000 <= 0xffff_ffff_ffff_ffffu64 * 0x1_0000_0000) by (nonlinear_arith)
            requires r[j].1.len() <= 0xffff_ffff_ffff_ffffu64;
    }
}

/// For an ascending spectrum, every density lies between zero and nine tenths.
pub proof fn densities_within_headroom(rows: Seq<LatencyRow>)
    requires
        spectrum_ordered(rows),
        rows.len() <= usize::MAX,
        normalized(buckets_of(rows)) is Ok,
    ensures
        forall|j: int| 0 <= j < scaled_points(buckets_of(rows)).len() ==> {
            let d = #[trigger] scaled_points(buckets_of(rows))[j];
            0 <= d.numerator && d.numerator * HEADROOM_DEN <= d.denominator * HEADROOM_NUM
        },
{
    let b = buckets_of(rows);
    buckets_ascend(rows);
    lemma_peak_bounds(b);
    let k = choose|k: int| 0 <= k < b.len() && (#[trigger] b[k]).count == peak(b);
    assert(peak(b) <= MAX_BUCKET_COUNT) by {
        lemma_buckets_bounded(rows);
    }
    assert forall|j: int| 0 <= j < scaled_points(b).len() implies {
        let d = #[trigger] scaled_points(b)[j];
        0 <= d.numerator && d.numerator * HEADROOM_DEN <= d.denominator * HEADROOM_NUM
    } by {
        lemma_buckets_bounded(rows);
        assert(b[j].count <= peak(b));
    }
}

proof fn lemma_buckets_bounded(rows: Seq<LatencyRow>)
    requires
        spectrum_ordered(rows),
        rows.len() <= usize::MAX,
    ensures
        forall|j: int| 0 <= j < buckets_of(rows).len() ==> 0 <= (#[trigger] buckets_of(rows)[j]).count
            <= MAX_BUCKET_COUNT,
{
    let s = rises(rows);
    assert forall|i: int| 0 <= i < s.len() implies 0 <= (#[trigger] s[i]).1 <= 0x1_0000_0000 by {
        if i > 0 {
            assert(rows_in_order(rows[i - 1], rows[i]));
        }
    }
    lemma_runs_bounded(s, 0, 0x1_0000_0000);
    let r = runs(s);
    let b = buckets_of(rows);
    assert forall|j: int| 0 <= j < b.len() implies 0 <= (#[trigger] b[j]).count <= MAX_BUCKET_COUNT by {
        lemma_total_bounds(r[j].1, 0x1_0000_0000);
        assert(r[j].1.len() * 0x1_0000_0000 <= 0xffff_ffff_ffff_ffffu64 * 0x1_0000_0000) by (nonlinear_arith)
            requires r[j].1.len() <= 0xffff_ffff_ffff_ffffu64;
    }
}

/// Headroom: densities are scaled to at most nine tenths.
pub const HEADROOM_NUM: i128 = 9;
pub const HEADROOM_DEN: i128 = 10;

/// A bucket's density, `numerator / denominator`: its count over the largest
/// count of its report, times nine tenths.
#[derive(Clone, Copy, Debug, PartialEq, Eq, Structural)]
pub struct DensityPoint {
    pub latency_ms: Decimal,
    pub numerator: i128,
    pub denominator: i128,
}

/// The largest count is not positive: there is nothing to scale by.
#[derive(Clone, Copy, Debug, PartialEq, Eq, Structural)]
pub struct DegenerateHistogramError;

/// The largest count among the buckets (zero where there is none).
pub open spec fn peak(b: Seq<Bucket>) -> int
    decreases b.len(),
{
    if b.len() == 0 {
        0
    } else if b.len() == 1 {
        b[0].count as int
    } else {
        let m = peak(b.drop_last());
        if b.last().count > m { b.last().count as int } else { m }
    }
}

/// Each bucket scaled by the largest count and the headroom.
pub open spec fn scaled_points(b: Seq<Bucket>) -> Seq<DensityPoint> {
    b.map_values(|x: Bucket| DensityPoint {
        latency_ms: x.latency_ms,
        numerator: (HEADROOM_NUM * x.count) as i128,
        denominator: (HEADROOM_DEN * peak(b)) as i128,
    })
}

pub open spec fn normalized(b: Seq<Bucket>) -> Result<Seq<DensityPoint>, DegenerateHistogramError> {
    if b.len() == 0 || peak(b) <= 0 {
        Err(DegenerateHistogramError)
    } else {
        Ok(scaled_points(b))
    }
}

proof fn lemma_peak_bounds(b: Seq<Bucket>)
    ensures
        forall|j: int| 0 <= j < b.len() ==> (#[trigger] b[j]).count <= peak(b),
        b.len() > 0 ==> exists|j: int| 0 <= j < b.len() && (#[trigger] b[j]).count == peak(b),
    decreases b.len(),
{
    if b.len() > 1 {
        let t = b.drop_last();
        lemma_peak_bounds(t);
        assert forall|j: int| 0 <= j < b.len() implies (#[trigger] b[j]).count <= peak(b) by {
            if j < b.len() - 1 {
                assert(b[j] == t[j]);
            }
        }
        if b.last().count > peak(t) {
            assert(b[b.len() - 1].count == peak(b));
        } else {
            let j = choose|j: int| 0 <= j < t.len() && (#[trigger] t[j]).count == peak(t);
            assert(b[j] == t[j]);
        }
    } else if b.len() == 1 {
        assert(b[0].count == peak(b));
    }
}

/// Normalization: each bucket's count divided by the largest count, times
/// nine tenths. Fails where the largest count is not positive.
pub fn normalize(buckets: &Vec<Bucket>) -> (r: Result<Vec<DensityPoint>, DegenerateHistogramError>)
    requires
        forall|j: int| 0 <= j < buckets@.len() ==> -MAX_BUCKET_COUNT <= (#[trigger] buckets@[j]).count
            <= MAX_BUCKET_COUNT,
    ensures
        match normalized(buckets@) {
            Ok(v) => r is Ok && r->Ok_0@ == v,
            Err(e) => r == Err::<Vec<DensityPoint>, DegenerateHistogramError>(e),
        },
{
    let n = buckets.len();
    if n == 0 {
        return Err(DegenerateHistogramError);
    }
    let mut m: i128 = buckets[0].count;
    let mut i: usize = 1;
    while i < n
        invariant
            n == buckets@.len(),
            1 <= i <= n,
            m == peak(buckets@.take(i as int)),
        decreases n - i,
    {
        proof {
            assert(buckets@.take(i + 1).drop_last() =~= buckets@.take(i as int));
        }
        if buckets[i].count > m {
            m = buckets[i].count;
        }
        i = i + 1;
    }
    proof {
        assert(buckets@.take(n as int) =~= buckets@);
        lemma_peak_bounds(buckets@);
        let k = choose|k: int| 0 <= k < buckets@.len() && (#[trigger] buckets@[k]).count == peak(buckets@);
        assert(-MAX_BUCKET_COUNT <= buckets@[k].count <= MAX_BUCKET_COUNT);
    }
    if m <= 0 {
        return Err(DegenerateHistogramError);
    }
    let mut out: Vec<DensityPoint> = Vec::new();
    let mut j: usize = 0;
    while j < n
        invariant
            n == buckets@.len(),
            j <= n,
            m == peak(buckets@),
            0 < m <= MAX_BUCKET_COUNT,
            forall|jj: int| 0 <= jj < buckets@.len() ==> -MAX_BUCKET_COUNT <= (#[trigger] buckets@[jj]).count
                <= MAX_BUCKET_COUNT,
            out@ == scaled_points(buckets@).take(j as int),
        decreases n - j,
    {
        let b = buckets[j];
        out.push(DensityPoint {
            latency_ms: b.latency_ms,
            numerator: HEADROOM_NUM * b.count,
            denominator: HEADROOM_DEN * m,
        });
        proof {
            assert(out@ =~= scaled_points(buckets@).take(j + 1));
        }
        j = j + 1;
    }
    proof {
        assert(out@ =~= scaled_points(buckets@));
    }
    Ok(out)
}

/// Density reconstruction before smoothing: differencing, grouping and
/// normalization of one report's spectrum.
pub fn density(report: &Report) -> (r: Result<Vec<DensityPoint>, DegenerateHistogramError>)
    ensures
        match normalized(buckets_of(report@.detailed_latency)) {
            Ok(v) => r is Ok && r->Ok_0@ == v,
            Err(e) => r == Err::<Vec<DensityPoint>, DegenerateHistogramError>(e),
        },
{
    let b = latency_buckets(report);
    normalize(&b)
}

} // verus!
