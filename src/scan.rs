use vstd::prelude::*;
use vstd::std_specs::iter::IteratorSpec;
use crate::decimal::Decimal;
use crate::grammar::{CharClass, in_class, class_end, digits_onto, digit_value, starts_with, find,
    line_ending, skip_line};

verus! {

broadcast use vstd::string::group_string_axioms;

/// The characters of `t`, in order.
pub fn chars_of(t: &str) -> (v: Vec<char>)
    ensures
        v@ == t@,
{
    let mut v: Vec<char> = Vec::new();
    for c in it: t.chars()
        invariant
            it.seq() == t@,
            v@ == t@.take(it.index() as int),
    {
        v.push(c);
    }
    proof {
        assert(v@ =~= t@);
    }
    v
}

pub fn in_class_exec(c: char, k: CharClass) -> (r: bool)
    ensures
        r == in_class(c, k),
{
    match k {
        CharClass::Digit => '0' <= c && c <= '9',
        CharClass::Space => c == ' ' || c == '\t',
        CharClass::Multispace => c == ' ' || c == '\t' || c == '\r' || c == '\n',
        CharClass::InLine => c != '\r' && c != '\n',
    }
}

/// The end of the run of class `k` that starts at `p`.
pub fn class_end_exec(s: &Vec<char>, p: usize, k: CharClass) -> (e: usize)
    requires
        p <= s@.len(),
    ensures
        e == class_end(s@, p as int, k),
        p <= e <= s@.len(),
{
    let mut i = p;
    while i < s.len() && in_class_exec(s[i], k)
        invariant
            p <= i <= s@.len(),
            class_end(s@, p as int, k) == class_end(s@, i as int, k),
        decreases s.len() - i,
    {
        i = i + 1;
    }
    i
}

proof fn lemma_digits_grow(s: Seq<char>, a: int, i: int, b: int, acc: nat)
    requires
        a <= i <= b,
    ensures
        digits_onto(s, a, i, acc) <= digits_onto(s, a, b, acc),
    decreases b - i,
{
    if i < b {
        lemma_digits_grow(s, a, i, b - 1, acc);
    }
}

pub proof fn lemma_digits_above_acc(s: Seq<char>, a: int, b: int, acc: nat)
    ensures
        acc <= digits_onto(s, a, b, acc),
    decreases b - a,
{
    if a < b {
        lemma_digits_above_acc(s, a, b - 1, acc);
    }
}

/// The number written by `acc` followed by the digits `s[a..b]`, or `None`
/// where it does not fit in `u64`.
pub fn digits_exec(s: &Vec<char>, a: usize, b: usize, acc: u64) -> (r: Option<u64>)
    requires
        a <= b <= s@.len(),
        forall|i: int| a <= i < b ==> in_class(#[trigger] s@[i], CharClass::Digit),
    ensures
        match r {
            Some(v) => v == digits_onto(s@, a as int, b as int, acc as nat),
            None => digits_onto(s@, a as int, b as int, acc as nat) > u64::MAX,
        },
{
    let mut cur = acc;
    let mut i = a;
    while i < b
        invariant
            a <= i <= b <= s@.len(),
            forall|j: int| a <= j < b ==> in_class(#[trigger] s@[j], CharClass::Digit),
            cur == digits_onto(s@, a as int, i as int, acc as nat),
        decreases b - i,
    {
        let c = s[i];
        assert(in_class(s@[i as int], CharClass::Digit));
        let d = (c as u32 - '0' as u32) as u64;
        assert(d == digit_value(c));
        if cur > (u64::MAX - d) / 10 {
            proof {
                assert(cur * 10 + d > u64::MAX) by (nonlinear_arith)
                    requires cur > (u64::MAX - d) / 10, d <= 9;
                lemma_digits_grow(s@, a as int, i + 1, b as int, acc as nat);
            }
            return None;
        }
        proof {
            assert(cur * 10 + d <= u64::MAX) by (nonlinear_arith)
                requires cur <= (u64::MAX - d) / 10, d <= 9;
        }
        cur = cur * 10 + d;
        i = i + 1;
    }
    Some(cur)
}

pub fn uint_token_exec(s: &Vec<char>, p: usize) -> (r: Option<(u32, usize)>)
    requires
        p <= s@.len(),
    ensures
        r is Some <==> crate::grammar::uint_token(s@, p as int) is Some,
        r matches Some((v, q)) ==> crate::grammar::uint_token(s@, p as int) == Some((v, q as int))
            && p < q <= s@.len(),
{
    let e = class_end_exec(s, p, CharClass::Digit);
    if e == p {
        return None;
    }
    proof {
        lemma_class_run(s@, p as int, CharClass::Digit);
    }
    match digits_exec(s, p, e, 0) {
        None => None,
        Some(v) => if v > 0xffff_ffffu64 {
            None
        } else {
            Some((v as u32, e))
        },
    }
}

/// Every character of a run belongs to its class.
pub proof fn lemma_class_run(s: Seq<char>, p: int, k: CharClass)
    requires
        0 <= p <= s.len(),
    ensures
        forall|i: int| p <= i < class_end(s, p, k) ==> in_class(#[trigger] s[i], k),
        p <= class_end(s, p, k) <= s.len(),
    decreases s.len() - p,
{
    if p < s.len() && in_class(s[p], k) {
        lemma_class_run(s, p + 1, k);
    }
}

/// Whether `t` occurs in `s` at `p`.
pub fn starts_with_exec(s: &Vec<char>, p: usize, t: &Vec<char>) -> (r: bool)
    requires
        p <= s@.len(),
    ensures
        r == starts_with(s@, p as int, t@),
{
    if t.len() > s.len() - p {
        return false;
    }
    let mut j: usize = 0;
    while j < t.len()
        invariant
            j <= t@.len(),
            p + t@.len() <= s@.len(),
            t.len() <= s.len() - p,
            s@.subrange(p as int, p + j) == t@.subrange(0, j as int),
        decreases t.len() - j,
    {
        let idx: usize = p + j;
        if s[idx] != t[j] {
            proof {
                assert(s@.subrange(p as int, p + t@.len())[j as int] != t@[j as int]);
            }
            return false;
        }
        proof {
            assert(s@.subrange(p as int, p + j + 1) =~= s@.subrange(p as int, p + j).push(s@[p + j]));
            assert(t@.subrange(0, j + 1) =~= t@.subrange(0, j as int).push(t@[j as int]));
        }
        j = j + 1;
    }
    proof {
        assert(t@.subrange(0, t@.len() as int) =~= t@);
    }
    true
}

/// The first occurrence of `t` at or after `p`.
pub fn find_exec(s: &Vec<char>, p: usize, t: &Vec<char>) -> (r: Option<usize>)
    requires
        p <= s@.len(),
    ensures
        r is Some <==> find(s@, p as int, t@) is Some,
        r matches Some(h) ==> find(s@, p as int, t@) == Some(h as int) && p <= h
            && h + t@.len() <= s@.len(),
{
    let mut i = p;
    while i <= s.len() && t.len() <= s.len() - i
        invariant
            p <= i,
            i <= s@.len() + 1,
            find(s@, p as int, t@) == find(s@, i as int, t@),
        decreases s.len() + 1 - i,
    {
        if starts_with_exec(s, i, t) {
            return Some(i);
        }
        proof {
            if t@.len() == 0 {
                assert(s@.subrange(i as int, i as int) =~= t@);
            }
        }
        i = i + 1;
    }
    None
}

pub fn line_ending_exec(s: &Vec<char>, p: usize) -> (r: Option<usize>)
    requires
        p <= s@.len(),
    ensures
        r is Some <==> line_ending(s@, p as int) is Some,
        r matches Some(q) ==> line_ending(s@, p as int) == Some(q as int) && p < q <= s@.len(),
{
    if p < s.len() && s[p] == '\n' {
        Some(p + 1)
    } else if s.len() > 1 && p < s.len() - 1 && s[p] == '\r' && s[p + 1] == '\n' {
        Some(p + 2)
    } else {
        None
    }
}

pub fn skip_line_exec(s: &Vec<char>, p: usize) -> (r: Option<usize>)
    requires
        p <= s@.len(),
    ensures
        r is Some <==> skip_line(s@, p as int) is Some,
        r matches Some(q) ==> skip_line(s@, p as int) == Some(q as int) && p < q <= s@.len(),
{
    let e = class_end_exec(s, p, CharClass::InLine);
    line_ending_exec(s, e)
}

} // verus!
