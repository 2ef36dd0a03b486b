use vstd::prelude::*;
use vstd::string::StrSliceExecFns;
use crate::decimal::Decimal;
use crate::grammar::{CharClass, starts_with, start_line, hdr_section, spectrum_section, requests_line,
    transfer_line, section, sections, document, running_label, seconds_label, test_label, latency_header,
    spectrum_header, requests_label, transfer_label};
use crate::report::{HdrRow, LatencyRow, Report, ReportView, Reports, rows_in_order, spectrum_ordered};
use crate::scan::{chars_of, class_end_exec, find_exec, line_ending_exec, skip_line_exec, starts_with_exec,
    uint_token_exec};
use crate::tokens::{decimal_float, hdr_histogram, detailed_latency};

verus! {

/// The input does not follow the report grammar; `offset` is the position,
/// counted in characters, of the section that failed.
#[derive(Clone, Copy, Debug, PartialEq, Eq, Structural)]
pub struct ParseError {
    pub offset: usize,
}

/// The fixed texts of the grammar, as characters.
struct Labels {
    running: Vec<char>,
    seconds: Vec<char>,
    test: Vec<char>,
    latency: Vec<char>,
    spectrum: Vec<char>,
    requests: Vec<char>,
    transfer: Vec<char>,
}

impl Labels {
    spec fn wf(&self) -> bool {
        &&& self.running@ == running_label()
        &&& self.seconds@ == seconds_label()
        &&& self.test@ == test_label()
        &&& self.latency@ == latency_header()
        &&& self.spectrum@ == spectrum_header()
        &&& self.requests@ == requests_label()
        &&& self.transfer@ == transfer_label()
    }

    fn new() -> (r: Labels)
        ensures
            r.wf(),
    {
        Labels {
            running: chars_of("Running "),
            seconds: chars_of("s "),
            test: chars_of("test @ "),
            latency: chars_of("Latency Distribution (HdrHistogram - Recorded Latency)"),
            spectrum: chars_of("Detailed Percentile spectrum"),
            requests: chars_of("Requests/sec:"),
            transfer: chars_of("Transfer/sec:"),
        }
    }
}

fn read_start_line(text: &str, s: &Vec<char>, p: usize, lb: &Labels) -> (r: Option<(u32, String, usize)>)
    requires
        p <= s@.len(),
        s@ == text@,
        lb.wf(),
    ensures
        r is Some <==> start_line(s@, p as int) is Some,
        r matches Some((secs, target, q)) ==> start_line(s@, p as int) == Some((secs, target@, q as int))
            && p < q <= s@.len(),
{
    if !starts_with_exec(s, p, &lb.running) {
        return None;
    }
    let len = s.len();
    assert(p + lb.running@.len() <= len);
    let p1 = p + lb.running.len();
    let (secs, p2) = match uint_token_exec(s, p1) {
        None => { return None; },
        Some(x) => x,
    };
    if !starts_with_exec(s, p2, &lb.seconds) {
        return None;
    }
    assert(p2 + lb.seconds@.len() <= len);
    let p3 = p2 + lb.seconds.len();
    if !starts_with_exec(s, p3, &lb.test) {
        return None;
    }
    let p4 = p3 + lb.test.len();
    let e = class_end_exec(s, p4, CharClass::InLine);
    match line_ending_exec(s, e) {
        None => None,
        Some(next) => {
            let target = text.substring_char(p4, e).to_owned();
            Some((secs, target, next))
        },
    }
}

fn hdr_section_exec(s: &Vec<char>, p: usize, lb: &Labels) -> (r: Option<(Vec<HdrRow>, usize)>)
    requires
        p <= s@.len(),
        lb.wf(),
    ensures
        r is Some <==> hdr_section(s@, p as int) is Some,
        r matches Some((v, q)) ==> hdr_section(s@, p as int) == Some((v@, q as int)) && p < q <= s@.len(),
{
    match find_exec(s, p, &lb.latency) {
        None => None,
        Some(h) => match skip_line_exec(s, h) {
            None => None,
            Some(q) => hdr_histogram(s, q),
        },
    }
}

fn spectrum_section_exec(s: &Vec<char>, p: usize, lb: &Labels) -> (r: Option<(Vec<LatencyRow>, usize)>)
    requires
        p <= s@.len(),
        lb.wf(),
    ensures
        r is Some <==> spectrum_section(s@, p as int) is Some,
        r matches Some((v, q)) ==> spectrum_section(s@, p as int) == Some((v@, q as int))
            && p < q <= s@.len(),
{
    let h = match find_exec(s, p, &lb.spectrum) { None => { return None; }, Some(x) => x };
    let q1 = match skip_line_exec(s, h) { None => { return None; }, Some(x) => x };
    let q2 = match skip_line_exec(s, q1) { None => { return None; }, Some(x) => x };
    let (rows, q3) = match detailed_latency(s, q2) { None => { return None; }, Some(x) => x };
    match skip_line_exec(s, q3) {
        None => None,
        Some(q4) => Some((rows, q4)),
    }
}

fn requests_line_exec(s: &Vec<char>, p: usize, lb: &Labels) -> (r: Option<(Decimal, usize)>)
    requires
        p <= s@.len(),
        lb.wf(),
    ensures
        r is Some <==> requests_line(s@, p as int) is Some,
        r matches Some((v, q)) ==> requests_line(s@, p as int) == Some((v, q as int)) && p < q <= s@.len(),
{
    let len = s.len();
    let h = match find_exec(s, p, &lb.requests) { None => { return None; }, Some(x) => x };
    assert(h + lb.requests@.len() <= len);
    let q0 = class_end_exec(s, h + lb.requests.len(), CharClass::Multispace);
    let (d, q) = match decimal_float(s, q0) { None => { return None; }, Some(x) => x };
    match line_ending_exec(s, q) {
        None => None,
        Some(e) => Some((d, e)),
    }
}

fn transfer_line_exec(s: &Vec<char>, p: usize, lb: &Labels) -> (r: Option<usize>)
    requires
        p <= s@.len(),
        lb.wf(),
    ensures
        r is Some <==> transfer_line(s@, p as int) is Some,
        r matches Some(q) ==> transfer_line(s@, p as int) == Some(q as int) && p < q <= s@.len(),
{
    match find_exec(s, p, &lb.transfer) {
        None => None,
        Some(h) => skip_line_exec(s, h),
    }
}

/// Whether the spectrum ascends in latency, cumulative fraction and count.
pub fn is_spectrum_ordered(rows: &Vec<LatencyRow>) -> (r: bool)
    ensures
        r == spectrum_ordered(rows@),
{
    let mut i: usize = 1;
    while i < rows.len()
        invariant
            1 <= i,
            forall|j: int| 0 < j < i && j < rows@.len() ==> #[trigger] rows_in_order(rows@[j - 1], rows@[j]),
        decreases rows.len() - i,
    {
        let a = rows[i - 1];
        let b = rows[i];
        if !(a.latency_ms.is_at_most(&b.latency_ms) && a.cumulative_fraction.is_at_most(&b.cumulative_fraction)
            && a.cumulative_count <= b.cumulative_count) {
            assert(!rows_in_order(rows@[i - 1], rows@[i as int]));
            return false;
        }
        i = i + 1;
    }
    true
}

/// One report section at `p`.
fn report_section(text: &str, s: &Vec<char>, p: usize, lb: &Labels) -> (r: Option<(Report, usize)>)
    requires
        p <= s@.len(),
        s@ == text@,
        lb.wf(),
    ensures
        r is Some <==> section(s@, p as int) is Some,
        r matches Some((rep, q)) ==> section(s@, p as int) == Some((rep@, q as int)) && p < q <= s@.len(),
{
    proof {
        reveal(section);
    }
    let (secs, target, p1) = match read_start_line(text, s, p, lb) { None => { return None; }, Some(x) => x };
    let (hdr, p2) = match hdr_section_exec(s, p1, lb) { None => { return None; }, Some(x) => x };
    let (rows, p3) = match spectrum_section_exec(s, p2, lb) { None => { return None; }, Some(x) => x };
    let (req, p4) = match requests_line_exec(s, p3, lb) { None => { return None; }, Some(x) => x };
    let p5 = match transfer_line_exec(s, p4, lb) { None => { return None; }, Some(x) => x };
    if !is_spectrum_ordered(&rows) {
        return None;
    }
    let rep = Report {
        target,
        duration_s: secs,
        req_per_s: req,
        hdr_histogram: hdr,
        detailed_latency: rows,
        source_filename: None,
    };
    Some((rep, p5))
}

/// `acc` put in front of a list of sections, or the failure unchanged.
pub open spec fn prepend(acc: Seq<ReportView>, r: Result<Seq<ReportView>, int>) -> Result<Seq<ReportView>, int> {
    match r {
        Ok(rest) => Ok(acc + rest),
        Err(e) => Err(e),
    }
}

/// What `parse` returns for a text, over the grammar.
pub open spec fn parse_result(text: Seq<char>, r: Result<Reports, ParseError>) -> bool {
    match document(text) {
        Ok(v) => r is Ok && r->Ok_0@ == v,
        Err(o) => r == Err::<Reports, ParseError>(ParseError { offset: o as usize }),
    }
}

proof fn lemma_sections_ordered(s: Seq<char>, p: int)
    ensures
        sections(s, p) matches Ok(v) ==> forall|i: int| 0 <= i < v.len() ==> (#[trigger] v[i]).wf(),
    decreases s.len() - p,
{
    reveal(section);
    if starts_with(s, p, running_label()) {
        if let Some((r, q)) = section(s, p) {
            if p < q <= s.len() {
                lemma_sections_ordered(s, q);
                if let Ok(rest) = sections(s, q) {
                    let v = seq![r] + rest;
                    assert forall|i: int| 0 <= i < v.len() implies (#[trigger] v[i]).wf() by {
                        if i > 0 {
                            assert(v[i] == rest[i - 1]);
                        }
                    }
                }
            }
        }
    }
}

/// Every report that a successful parse returns has an ascending spectrum:
/// latency, cumulative fraction and cumulative count never go down from one
/// row to the next.
pub proof fn parsed_spectra_ascend(text: Seq<char>, r: Result<Reports, ParseError>)
    requires
        parse_result(text, r),
    ensures
        r matches Ok(rs) ==> forall|i: int| 0 <= i < rs@.len() ==> (#[trigger] rs@[i]).wf(),
{
    if starts_with(text, 0, running_label()) {
        lemma_sections_ordered(text, 0);
    }
}

proof fn lemma_section_starts(s: Seq<char>, p: int)
    requires
        section(s, p) is Some,
    ensures
        starts_with(s, p, running_label()),
{
    reveal(section);
    assert(start_line(s, p) is Some);
}

proof fn lemma_sections_step(s: Seq<char>, p: int, r: ReportView, q: int, rest: Seq<ReportView>)
    requires
        section(s, p) == Some((r, q)),
        p < q <= s.len(),
        sections(s, q) == Ok::<Seq<ReportView>, int>(rest),
    ensures
        sections(s, p) == Ok::<Seq<ReportView>, int>(seq![r] + rest),
{
    lemma_section_starts(s, p);
}

proof fn lemma_sections_from(s: Seq<char>, bounds: Seq<int>, reps: Seq<ReportView>, k: int)
    requires
        bounds.len() == reps.len() + 1,
        0 <= k <= reps.len(),
        forall|i: int| 0 <= i < reps.len() ==> bounds[i] < bounds[i + 1] <= s.len()
            && #[trigger] section(s, bounds[i]) == Some((reps[i], bounds[i + 1])),
        !starts_with(s, bounds[reps.len() as int], running_label()),
    ensures
        sections(s, bounds[k]) == Ok::<Seq<ReportView>, int>(reps.subrange(k, reps.len() as int)),
    decreases reps.len() - k,
{
    if k == reps.len() {
        assert(reps.subrange(k, k) =~= Seq::<ReportView>::empty());
    } else {
        lemma_sections_from(s, bounds, reps, k + 1);
        assert(section(s, bounds[k]) == Some((reps[k], bounds[k + 1])));
        lemma_sections_step(s, bounds[k], reps[k], bounds[k + 1], reps.subrange(k + 1, reps.len() as int));
        assert(seq![reps[k]] + reps.subrange(k + 1, reps.len() as int) =~= reps.subrange(k, reps.len() as int));
    }
}

/// A text made of report sections back to back, each well formed and each
/// starting where the one before ends, and then text that does not begin
/// with `Running `, parses to exactly one report per section, in order.
pub proof fn sections_parse_in_order(s: Seq<char>, bounds: Seq<int>, reps: Seq<ReportView>)
    requires
        reps.len() >= 1,
        bounds.len() == reps.len() + 1,
        bounds[0] == 0,
        forall|i: int| 0 <= i < reps.len() ==> bounds[i] < bounds[i + 1] <= s.len()
            && #[trigger] section(s, bounds[i]) == Some((reps[i], bounds[i + 1])),
        !starts_with(s, bounds[reps.len() as int], running_label()),
    ensures
        document(s) == Ok::<Seq<ReportView>, int>(reps),
{
    lemma_sections_from(s, bounds, reps, 0);
    assert(section(s, bounds[0]) == Some((reps[0], bounds[1])));
    lemma_section_starts(s, 0);
    assert(reps.subrange(0, reps.len() as int) =~= reps);
}

/// Parsing the same text twice gives the same reports, or the same error.
pub proof fn parse_is_deterministic(
    t1: Seq<char>,
    t2: Seq<char>,
    r1: Result<Reports, ParseError>,
    r2: Result<Reports, ParseError>,
)
    requires
        t1 == t2,
        parse_result(t1, r1),
        parse_result(t2, r2),
    ensures
        r1 is Ok <==> r2 is Ok,
        r1 matches Ok(a) ==> r2->Ok_0@ == a@,
        r1 is Err ==> r1 == r2,
{
}

/// Parses one or more report sections, back to back, from the text of a
/// load-testing run. Text after the last section that does not begin a new
/// section is ignored; a malformed section fails the whole parse. Numbers are
/// kept exactly, so a number whose digits do not fit in `u64`, or with more
/// than `MAX_FRACTION_DIGITS` digits after the point, makes its section
/// malformed.
pub fn parse(text: &str) -> (r: Result<Reports, ParseError>)
    ensures
        parse_result(text@, r),
        r matches Ok(rs) ==> forall|i: int| 0 <= i < rs@.len() ==> (#[trigger] rs@[i]).wf(),
        text@.len() == 0 ==> r == Err::<Reports, ParseError>(ParseError { offset: 0 }),
{
    let r = parse_document(text);
    proof {
        parsed_spectra_ascend(text@, r);
        reveal_strlit("Running ");
    }
    r
}

fn parse_document(text: &str) -> (r: Result<Reports, ParseError>)
    ensures
        parse_result(text@, r),
{
    let lb = Labels::new();
    let s = chars_of(text);
    if !starts_with_exec(&s, 0, &lb.running) {
        return Err(ParseError { offset: 0 });
    }
    let mut out: Vec<Report> = Vec::new();
    let mut pos: usize = 0;
    loop
        invariant
            pos <= s@.len(),
            s@ == text@,
            lb.wf(),
            starts_with(s@, 0, running_label()),
            sections(s@, 0) == prepend(out@.map_values(|x: Report| x@), sections(s@, pos as int)),
        decreases s@.len() - pos,
    {
        if !starts_with_exec(&s, pos, &lb.running) {
            proof {
                assert(out@.map_values(|x: Report| x@) + Seq::<ReportView>::empty()
                    =~= out@.map_values(|x: Report| x@));
            }
            return Ok(Reports::new(out));
        }
        match report_section(text, &s, pos, &lb) {
            None => {
                return Err(ParseError { offset: pos });
            },
            Some((rep, q)) => {
                proof {
                    let acc = out@.map_values(|x: Report| x@);
                    let acc2 = out@.push(rep).map_values(|x: Report| x@);
                    assert(acc2 =~= acc.push(rep@));
                    match sections(s@, q as int) {
                        Ok(rest) => {
                            assert(acc + (seq![rep@] + rest) =~= acc2 + rest);
                        },
                        Err(e) => {},
                    }
                }
                out.push(rep);
                pos = q;
            },
        }
    }
}

} // verus!
