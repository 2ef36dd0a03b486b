use vstd::prelude::*;
use crate::decimal::Decimal;
use crate::grammar::{CharClass, MAX_FRACTION_DIGITS, class_end, digits_onto, decimal_token, unit_at,
    ms_token, hdr_row, hdr_more, hdr_block, decimal_field, uint_field, spectrum_row, spectrum_more,
    spectrum_block};
use crate::report::{HdrRow, LatencyRow};
use crate::scan::{class_end_exec, digits_exec, uint_token_exec, lemma_class_run,
    lemma_digits_above_acc};

verus! {

/// A decimal number `digits.digits` at `p`, and the position after it.
pub fn decimal_float(s: &Vec<char>, p: usize) -> (r: Option<(Decimal, usize)>)
    requires
        p <= s@.len(),
    ensures
        r is Some <==> decimal_token(s@, p as int) is Some,
        r matches Some((v, q)) ==> decimal_token(s@, p as int) == Some((v, q as int))
            && p < q <= s@.len(),
{
    let e1 = class_end_exec(s, p, CharClass::Digit);
    if e1 == p || e1 >= s.len() || s[e1] != '.' {
        return None;
    }
    let e2 = class_end_exec(s, e1 + 1, CharClass::Digit);
    let frac = e2 - e1 - 1;
    if frac == 0 || frac > MAX_FRACTION_DIGITS {
        return None;
    }
    proof {
        lemma_class_run(s@, p as int, CharClass::Digit);
        lemma_class_run(s@, e1 + 1, CharClass::Digit);
    }
    match digits_exec(s, p, e1, 0) {
        None => {
            proof {
                lemma_digits_above_acc(s@, e1 + 1, e2 as int, digits_onto(s@, p as int, e1 as int, 0));
            }
            None
        },
        Some(ip) => match digits_exec(s, e1 + 1, e2, ip) {
            None => None,
            Some(u) => {
                let d = Decimal { units: u, exp: -(frac as i32) }.reduce();
                Some((d, e2))
            },
        },
    }
}

/// The unit after a duration: its shift to milliseconds and the position after it.
pub fn unit_at_exec(s: &Vec<char>, p: usize) -> (r: Option<(i32, usize)>)
    requires
        p <= s@.len(),
    ensures
        r is Some <==> unit_at(s@, p as int) is Some,
        r matches Some((v, q)) ==> unit_at(s@, p as int) == Some((v as int, q as int))
            && p < q <= s@.len(),
{
    if p < s.len() && s[p] == 's' {
        Some((3, p + 1))
    } else if s.len() > 1 && p < s.len() - 1 && s[p + 1] == 's' {
        if s[p] == 'm' {
            Some((0, p + 2))
        } else if s[p] == 'u' {
            Some((-3, p + 2))
        } else if s[p] == 'n' {
            Some((-6, p + 2))
        } else {
            None
        }
    } else {
        None
    }
}

/// A duration with its unit, converted to milliseconds.
pub fn milliseconds(s: &Vec<char>, p: usize) -> (r: Option<(Decimal, usize)>)
    requires
        p <= s@.len(),
    ensures
        r is Some <==> ms_token(s@, p as int) is Some,
        r matches Some((v, q)) ==> ms_token(s@, p as int) == Some((v, q as int))
            && p < q <= s@.len(),
{
    match decimal_float(s, p) {
        None => None,
        Some((d, q)) => match unit_at_exec(s, q) {
            None => None,
            Some((shift, e)) => {
                proof {
                    lemma_decimal_exp_range(s@, p as int);
                }
                Some((Decimal { units: d.units, exp: d.exp + shift }.reduce(), e))
            },
        },
    }
}

/// A number read from the text has a small exponent.
proof fn lemma_decimal_exp_range(s: Seq<char>, p: int)
    requires
        decimal_token(s, p) is Some,
    ensures
        -(MAX_FRACTION_DIGITS as int) <= decimal_token(s, p)->Some_0.0.exp <= 20,
{
    let e1 = class_end(s, p, CharClass::Digit);
    let e2 = class_end(s, e1 + 1, CharClass::Digit);
    let frac = e2 - e1 - 1;
    let units = digits_onto(s, e1 + 1, e2, digits_onto(s, p, e1, 0));
    crate::decimal::reduced_exp_range(Decimal { units: units as u64, exp: (-frac) as i32 });
}

/// A coarse histogram line.
pub fn hdr_row_exec(s: &Vec<char>, p: usize) -> (r: Option<(HdrRow, usize)>)
    requires
        p <= s@.len(),
    ensures
        r is Some <==> hdr_row(s@, p as int) is Some,
        r matches Some((v, q)) ==> hdr_row(s@, p as int) == Some((v, q as int))
            && p < q <= s@.len(),
{
    let q0 = class_end_exec(s, p, CharClass::Space);
    match decimal_float(s, q0) {
        None => None,
        Some((pct, q)) => {
            if q < s.len() && s[q] == '%' {
                let q2 = class_end_exec(s, q + 1, CharClass::Space);
                if q2 > q + 1 {
                    match milliseconds(s, q2) {
                        None => None,
                        Some((ms, e)) => Some((HdrRow { percentile: pct, latency_ms: ms }, e)),
                    }
                } else {
                    None
                }
            } else {
                None
            }
        },
    }
}

/// One or more histogram lines separated by white space.
pub fn hdr_histogram(s: &Vec<char>, p: usize) -> (r: Option<(Vec<HdrRow>, usize)>)
    requires
        p <= s@.len(),
    ensures
        r is Some <==> hdr_block(s@, p as int) is Some,
        r matches Some((v, q)) ==> hdr_block(s@, p as int) == Some((v@, q as int))
            && p < q <= s@.len(),
{
    let (first, q0) = match hdr_row_exec(s, p) {
        None => { return None; },
        Some(x) => x,
    };
    let mut rows: Vec<HdrRow> = Vec::new();
    rows.push(first);
    let mut pos = q0;
    loop
        invariant
            p < q0 <= pos <= s@.len(),
            hdr_more(s@, q0 as int) == (rows@.drop_first() + hdr_more(s@, pos as int).0,
                hdr_more(s@, pos as int).1),
            rows@.len() >= 1,
            rows@[0] == first,
        ensures
            p < q0 <= pos <= s@.len(),
            hdr_more(s@, q0 as int) == (rows@.drop_first() + hdr_more(s@, pos as int).0,
                hdr_more(s@, pos as int).1),
            rows@.len() >= 1,
            rows@[0] == first,
            hdr_more(s@, pos as int) == (Seq::<HdrRow>::empty(), pos as int),
        decreases s@.len() - pos,
    {
        let q = class_end_exec(s, pos, CharClass::Multispace);
        if q == pos {
            break;
        }
        match hdr_row_exec(s, q) {
            None => { break; },
            Some((row, e)) => {
                proof {
                    assert(rows@.push(row).drop_first() =~= rows@.drop_first().push(row));
                    let (rest, end) = hdr_more(s@, e as int);
                    assert(hdr_more(s@, pos as int) == (seq![row] + rest, end));
                    assert(rows@.drop_first() + (seq![row] + rest) =~= rows@.drop_first().push(row) + rest);
                }
                rows.push(row);
                pos = e;
            },
        }
    }
    proof {
        assert(rows@ =~= seq![first] + rows@.drop_first());
        assert(rows@.drop_first() + Seq::<HdrRow>::empty() =~= rows@.drop_first());
    }
    Some((rows, pos))
}

/// White space, a decimal number, spaces.
pub fn decimal_field_exec(s: &Vec<char>, p: usize) -> (r: Option<(Decimal, usize)>)
    requires
        p <= s@.len(),
    ensures
        r is Some <==> decimal_field(s@, p as int) is Some,
        r matches Some((v, q)) ==> decimal_field(s@, p as int) == Some((v, q as int))
            && p < q <= s@.len(),
{
    let q0 = class_end_exec(s, p, CharClass::Multispace);
    match decimal_float(s, q0) {
        None => None,
        Some((d, q)) => Some((d, class_end_exec(s, q, CharClass::Space))),
    }
}

/// White space, an unsigned integer, spaces.
pub fn uint_field_exec(s: &Vec<char>, p: usize) -> (r: Option<(u32, usize)>)
    requires
        p <= s@.len(),
    ensures
        r is Some <==> uint_field(s@, p as int) is Some,
        r matches Some((v, q)) ==> uint_field(s@, p as int) == Some((v, q as int))
            && p < q <= s@.len(),
{
    let q0 = class_end_exec(s, p, CharClass::Multispace);
    match uint_token_exec(s, q0) {
        None => None,
        Some((d, q)) => Some((d, class_end_exec(s, q, CharClass::Space))),
    }
}

/// A spectrum row of four numbers.
pub fn spectrum_row_exec(s: &Vec<char>, p: usize) -> (r: Option<(LatencyRow, usize)>)
    requires
        p <= s@.len(),
    ensures
        r is Some <==> spectrum_row(s@, p as int) is Some,
        r matches Some((v, q)) ==> spectrum_row(s@, p as int) == Some((v, q as int))
            && p < q <= s@.len(),
{
    let (a, p1) = match decimal_field_exec(s, p) { None => { return None; }, Some(x) => x };
    let (b, p2) = match decimal_field_exec(s, p1) { None => { return None; }, Some(x) => x };
    let (c, p3) = match uint_field_exec(s, p2) { None => { return None; }, Some(x) => x };
    let (d, p4) = match decimal_field_exec(s, p3) { None => { return None; }, Some(x) => x };
    Some((LatencyRow { latency_ms: a, cumulative_fraction: b, cumulative_count: c, ignored: d }, p4))
}

/// One or more spectrum rows separated by white space.
pub fn detailed_latency(s: &Vec<char>, p: usize) -> (r: Option<(Vec<LatencyRow>, usize)>)
    requires
        p <= s@.len(),
    ensures
        r is Some <==> spectrum_block(s@, p as int) is Some,
        r matches Some((v, q)) ==> spectrum_block(s@, p as int) == Some((v@, q as int))
            && p < q <= s@.len(),
{
    let (first, q0) = match spectrum_row_exec(s, p) {
        None => { return None; },
        Some(x) => x,
    };
    let mut rows: Vec<LatencyRow> = Vec::new();
    rows.push(first);
    let mut pos = q0;
    loop
        invariant
            p < q0 <= pos <= s@.len(),
            spectrum_more(s@, q0 as int) == (rows@.drop_first() + spectrum_more(s@, pos as int).0,
                spectrum_more(s@, pos as int).1),
            rows@.len() >= 1,
            rows@[0] == first,
        ensures
            p < q0 <= pos <= s@.len(),
            spectrum_more(s@, q0 as int) == (rows@.drop_first() + spectrum_more(s@, pos as int).0,
                spectrum_more(s@, pos as int).1),
            rows@.len() >= 1,
            rows@[0] == first,
            spectrum_more(s@, pos as int) == (Seq::<LatencyRow>::empty(), pos as int),
        decreases s@.len() - pos,
    {
        let q = class_end_exec(s, pos, CharClass::Multispace);
        if q == pos {
            break;
        }
        match spectrum_row_exec(s, q) {
            None => { break; },
            Some((row, e)) => {
                proof {
                    assert(rows@.push(row).drop_first() =~= rows@.drop_first().push(row));
                    let (rest, end) = spectrum_more(s@, e as int);
                    assert(spectrum_more(s@, pos as int) == (seq![row] + rest, end));
                    assert(rows@.drop_first() + (seq![row] + rest) =~= rows@.drop_first().push(row) + rest);
                }
                rows.push(row);
                pos = e;
            },
        }
    }
    proof {
        assert(rows@ =~= seq![first] + rows@.drop_first());
        assert(rows@.drop_first() + Seq::<LatencyRow>::empty() =~= rows@.drop_first());
    }
    Some((rows, pos))
}

} // verus!
