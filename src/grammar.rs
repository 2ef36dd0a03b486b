use vstd::prelude::*;
use crate::decimal::Decimal;
use crate::report::{HdrRow, LatencyRow, ReportView, spectrum_ordered};

verus! {

/// A number may have at most this many digits after its decimal point.
pub const MAX_FRACTION_DIGITS: usize = 18;

/// The character classes the grammar skips over.
#[derive(Clone, Copy, Debug, PartialEq, Eq, Structural)]
pub enum CharClass {
    /// `0` to `9`.
    Digit,
    /// Space and tab.
    Space,
    /// Space, tab, carriage return and line feed.
    Multispace,
    /// Anything but carriage return and line feed.
    InLine,
}

pub open spec fn in_class(c: char, k: CharClass) -> bool {
    match k {
        CharClass::Digit => '0' <= c && c <= '9',
        CharClass::Space => c == ' ' || c == '\t',
        CharClass::Multispace => c == ' ' || c == '\t' || c == '\r' || c == '\n',
        CharClass::InLine => c != '\r' && c != '\n',
    }
}

/// The end of the run of characters of class `k` that starts at `p`.
pub open spec fn class_end(s: Seq<char>, p: int, k: CharClass) -> int
    decreases s.len() - p,
{
    if 0 <= p < s.len() && in_class(s[p], k) {
        class_end(s, p + 1, k)
    } else {
        p
    }
}

pub open spec fn digit_value(c: char) -> nat {
    ((c as u32) - ('0' as u32)) as nat
}

/// The number written by `acc` followed by the digits `s[a..b]`.
pub open spec fn digits_onto(s: Seq<char>, a: int, b: int, acc: nat) -> nat
    decreases b - a,
{
    if b <= a {
        acc
    } else {
        digits_onto(s, a, b - 1, acc) * 10 + digit_value(s[b - 1])
    }
}

/// Whether `t` occurs in `s` at `p`.
pub open spec fn starts_with(s: Seq<char>, p: int, t: Seq<char>) -> bool {
    0 <= p && p + t.len() <= s.len() && s.subrange(p, p + t.len()) == t
}

/// The first occurrence of `t` in `s` at or after `p`.
pub open spec fn find(s: Seq<char>, p: int, t: Seq<char>) -> Option<int>
    decreases s.len() + 1 - p,
{
    if p < 0 || p + t.len() > s.len() {
        None
    } else if starts_with(s, p, t) {
        Some(p)
    } else {
        find(s, p + 1, t)
    }
}

/// A line ending (`\n` or `\r\n`) at `p`: the position after it.
pub open spec fn line_ending(s: Seq<char>, p: int) -> Option<int> {
    if 0 <= p < s.len() && s[p] == '\n' {
        Some(p + 1)
    } else if 0 <= p && p + 1 < s.len() && s[p] == '\r' && s[p + 1] == '\n' {
        Some(p + 2)
    } else {
        None
    }
}

/// The rest of the current line and its line ending: the start of the next line.
pub open spec fn skip_line(s: Seq<char>, p: int) -> Option<int> {
    line_ending(s, class_end(s, p, CharClass::InLine))
}

/// An unsigned integer that fits in `u32`.
pub open spec fn uint_token(s: Seq<char>, p: int) -> Option<(u32, int)> {
    let e = class_end(s, p, CharClass::Digit);
    let v = digits_onto(s, p, e, 0);
    if e > p && v <= u32::MAX {
        Some((v as u32, e))
    } else {
        None
    }
}

/// A decimal number `digits.digits`, its fractional part mandatory, in
/// normal form. Its digits must fit in `u64`, with at most
/// `MAX_FRACTION_DIGITS` after the point.
pub open spec fn decimal_token(s: Seq<char>, p: int) -> Option<(Decimal, int)> {
    let e1 = class_end(s, p, CharClass::Digit);
    let e2 = class_end(s, e1 + 1, CharClass::Digit);
    let frac = e2 - e1 - 1;
    let units = digits_onto(s, e1 + 1, e2, digits_onto(s, p, e1, 0));
    if e1 > p && e1 < s.len() && s[e1] == '.' && frac > 0 && frac <= MAX_FRACTION_DIGITS
        && units <= u64::MAX {
        Some((Decimal { units: units as u64, exp: (-frac) as i32 }.reduced(), e2))
    } else {
        None
    }
}

/// The exponent shift that turns a value in a unit into milliseconds:
/// `s` is three places up, `ms` none, `us` three down, `ns` six down.
pub open spec fn unit_at(s: Seq<char>, p: int) -> Option<(int, int)> {
    if 0 <= p < s.len() && s[p] == 's' {
        Some((3, p + 1))
    } else if 0 <= p && p + 1 < s.len() && s[p + 1] == 's' && s[p] == 'm' {
        Some((0, p + 2))
    } else if 0 <= p && p + 1 < s.len() && s[p + 1] == 's' && s[p] == 'u' {
        Some((-3, p + 2))
    } else if 0 <= p && p + 1 < s.len() && s[p + 1] == 's' && s[p] == 'n' {
        Some((-6, p + 2))
    } else {
        None
    }
}

/// A duration with its unit, in milliseconds.
pub open spec fn ms_token(s: Seq<char>, p: int) -> Option<(Decimal, int)> {
    match decimal_token(s, p) {
        None => None,
        Some((d, q)) => match unit_at(s, q) {
            None => None,
            Some((shift, e)) => Some((Decimal { units: d.units, exp: (d.exp + shift) as i32 }.reduced(), e)),
        },
    }
}

/// A coarse histogram line: spaces, `<percentile>%`, spaces, a duration.
pub open spec fn hdr_row(s: Seq<char>, p: int) -> Option<(HdrRow, int)> {
    match decimal_token(s, class_end(s, p, CharClass::Space)) {
        None => None,
        Some((pct, q)) => {
            let q2 = class_end(s, q + 1, CharClass::Space);
            if q < s.len() && s[q] == '%' && q2 > q + 1 {
                match ms_token(s, q2) {
                    None => None,
                    Some((ms, e)) => Some((HdrRow { percentile: pct, latency_ms: ms }, e)),
                }
            } else {
                None
            }
        },
    }
}

/// Further histogram lines, each after a run of white space; stops before
/// the white space that no line follows.
pub open spec fn hdr_more(s: Seq<char>, p: int) -> (Seq<HdrRow>, int)
    decreases s.len() - p,
{
    let q = class_end(s, p, CharClass::Multispace);
    if q > p {
        match hdr_row(s, q) {
            Some((r, e)) => if p < e <= s.len() {
                let (rest, end) = hdr_more(s, e);
                (seq![r] + rest, end)
            } else {
                (Seq::empty(), p)
            },
            None => (Seq::empty(), p),
        }
    } else {
        (Seq::empty(), p)
    }
}

/// One or more histogram lines.
pub open spec fn hdr_block(s: Seq<char>, p: int) -> Option<(Seq<HdrRow>, int)> {
    match hdr_row(s, p) {
        None => None,
        Some((r, q)) => {
            let (rest, end) = hdr_more(s, q);
            Some((seq![r] + rest, end))
        },
    }
}

/// White space, a decimal number, spaces.
pub open spec fn decimal_field(s: Seq<char>, p: int) -> Option<(Decimal, int)> {
    match decimal_token(s, class_end(s, p, CharClass::Multispace)) {
        None => None,
        Some((d, q)) => Some((d, class_end(s, q, CharClass::Space))),
    }
}

/// White space, an unsigned integer, spaces.
pub open spec fn uint_field(s: Seq<char>, p: int) -> Option<(u32, int)> {
    match uint_token(s, class_end(s, p, CharClass::Multispace)) {
        None => None,
        Some((v, q)) => Some((v, class_end(s, q, CharClass::Space))),
    }
}

/// A spectrum row: latency, cumulative fraction, cumulative count and a
/// fourth number.
pub open spec fn spectrum_row(s: Seq<char>, p: int) -> Option<(LatencyRow, int)> {
    match decimal_field(s, p) {
        None => None,
        Some((a, p1)) => match decimal_field(s, p1) {
            None => None,
            Some((b, p2)) => match uint_field(s, p2) {
                None => None,
                Some((c, p3)) => match decimal_field(s, p3) {
                    None => None,
                    Some((d, p4)) => Some((
                        LatencyRow { latency_ms: a, cumulative_fraction: b, cumulative_count: c, ignored: d },
                        p4,
                    )),
                },
            },
        },
    }
}

/// Further spectrum rows, each after a run of white space.
pub open spec fn spectrum_more(s: Seq<char>, p: int) -> (Seq<LatencyRow>, int)
    decreases s.len() - p,
{
    let q = class_end(s, p, CharClass::Multispace);
    if q > p {
        match spectrum_row(s, q) {
            Some((r, e)) => if p < e <= s.len() {
                let (rest, end) = spectrum_more(s, e);
                (seq![r] + rest, end)
            } else {
                (Seq::empty(), p)
            },
            None => (Seq::empty(), p),
        }
    } else {
        (Seq::empty(), p)
    }
}

/// One or more spectrum rows.
pub open spec fn spectrum_block(s: Seq<char>, p: int) -> Option<(Seq<LatencyRow>, int)> {
    match spectrum_row(s, p) {
        None => None,
        Some((r, q)) => {
            let (rest, end) = spectrum_more(s, q);
            Some((seq![r] + rest, end))
        },
    }
}

pub open spec fn running_label() -> Seq<char> {
    "Running "@
}

pub open spec fn seconds_label() -> Seq<char> {
    "s "@
}

pub open spec fn test_label() -> Seq<char> {
    "test @ "@
}

pub open spec fn latency_header() -> Seq<char> {
    "Latency Distribution (HdrHistogram - Recorded Latency)"@
}

pub open spec fn spectrum_header() -> Seq<char> {
    "Detailed Percentile spectrum"@
}

pub open spec fn requests_label() -> Seq<char> {
    "Requests/sec:"@
}

pub open spec fn transfer_label() -> Seq<char> {
    "Transfer/sec:"@
}

/// `Running <N>s test @ <target>` and its line ending: the duration, the
/// target, and the start of the next line.
pub open spec fn start_line(s: Seq<char>, p: int) -> Option<(u32, Seq<char>, int)> {
    let p1 = p + running_label().len();
    if !starts_with(s, p, running_label()) {
        None
    } else {
        match uint_token(s, p1) {
            None => None,
            Some((secs, p2)) => {
                let p3 = p2 + seconds_label().len();
                let p4 = p3 + test_label().len();
                let e = class_end(s, p4, CharClass::InLine);
                if starts_with(s, p2, seconds_label()) && starts_with(s, p3, test_label()) {
                    match line_ending(s, e) {
                        None => None,
                        Some(next) => Some((secs, s.subrange(p4, e), next)),
                    }
                } else {
                    None
                }
            },
        }
    }
}

/// Up to the histogram header, past its line, then the histogram lines.
pub open spec fn hdr_section(s: Seq<char>, p: int) -> Option<(Seq<HdrRow>, int)> {
    match find(s, p, latency_header()) {
        None => None,
        Some(h) => match skip_line(s, h) {
            None => None,
            Some(q) => hdr_block(s, q),
        },
    }
}

/// Up to the spectrum header, past it and the column header line, the rows,
/// then the rest of the line where the rows stop.
pub open spec fn spectrum_section(s: Seq<char>, p: int) -> Option<(Seq<LatencyRow>, int)> {
    match find(s, p, spectrum_header()) {
        None => None,
        Some(h) => match skip_line(s, h) {
            None => None,
            Some(q1) => match skip_line(s, q1) {
                None => None,
                Some(q2) => match spectrum_block(s, q2) {
                    None => None,
                    Some((rows, q3)) => match skip_line(s, q3) {
                        None => None,
                        Some(q4) => Some((rows, q4)),
                    },
                },
            },
        },
    }
}

/// Up to `Requests/sec:`, white space, the throughput and a line ending.
pub open spec fn requests_line(s: Seq<char>, p: int) -> Option<(Decimal, int)> {
    match find(s, p, requests_label()) {
        None => None,
        Some(h) => match decimal_token(s, class_end(s, h + requests_label().len(), CharClass::Multispace)) {
            None => None,
            Some((d, q)) => match line_ending(s, q) {
                None => None,
                Some(e) => Some((d, e)),
            },
        },
    }
}

/// Up to `Transfer/sec:` and past its line.
pub open spec fn transfer_line(s: Seq<char>, p: int) -> Option<int> {
    match find(s, p, transfer_label()) {
        None => None,
        Some(h) => skip_line(s, h),
    }
}

/// One report section starting at `p`, and where it ends. A spectrum that
/// is not ascending makes the section malformed.
#[verifier::opaque]
pub open spec fn section(s: Seq<char>, p: int) -> Option<(ReportView, int)> {
    match start_line(s, p) {
        None => None,
        Some((secs, target, p1)) => match hdr_section(s, p1) {
            None => None,
            Some((hdr, p2)) => match spectrum_section(s, p2) {
                None => None,
                Some((rows, p3)) => match requests_line(s, p3) {
                    None => None,
                    Some((req, p4)) => match transfer_line(s, p4) {
                        None => None,
                        Some(p5) => if spectrum_ordered(rows) {
                            Some((
                                ReportView {
                                    target,
                                    duration_s: secs,
                                    req_per_s: req,
                                    hdr_histogram: hdr,
                                    detailed_latency: rows,
                                    source_filename: None,
                                },
                                p5,
                            ))
                        } else {
                            None
                        },
                    },
                },
            },
        },
    }
}

/// Sections back to back from `p`. Text that does not begin with
/// `Running ` ends the list; a section that begins so and is malformed fails
/// the whole parse, with the offset where it begins.
pub open spec fn sections(s: Seq<char>, p: int) -> Result<Seq<ReportView>, int>
    decreases s.len() - p,
{
    if !starts_with(s, p, running_label()) {
        Ok(Seq::empty())
    } else {
        match section(s, p) {
            None => Err(p),
            Some((r, q)) => if p < q <= s.len() {
                match sections(s, q) {
                    Ok(rest) => Ok(seq![r] + rest),
                    Err(e) => Err(e),
                }
            } else {
                Err(p)
            },
        }
    }
}

/// A whole document: one or more sections, then anything.
pub open spec fn document(s: Seq<char>) -> Result<Seq<ReportView>, int> {
    if starts_with(s, 0, running_label()) {
        sections(s, 0)
    } else {
        Err(0)
    }
}

} // verus!
