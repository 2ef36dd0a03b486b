use vstd::prelude::*;

verus! {

/// Ten to the power `n`.
pub open spec fn pow10(n: nat) -> nat
    decreases n,
{
    if n == 0 {
        1
    } else {
        10 * pow10((n - 1) as nat)
    }
}

/// An exact decimal number: `units * 10^exp`.
///
/// Every number in the report text is written with a fractional part, so it
/// is kept as the integer of its digits and the power of ten that places the
/// decimal point; no rounding takes place anywhere.
#[derive(Clone, Copy, Debug, PartialEq, Eq, Structural)]
pub struct Decimal {
    pub units: u64,
    pub exp: i32,
}

impl Decimal {
    /// `self.units` scaled to the exponent `m` (which must not exceed `self.exp`).
    pub open spec fn scaled(self, m: int) -> int {
        self.units * pow10((self.exp - m) as nat)
    }

    /// Numeric order: `self <= other` as numbers.
    pub open spec fn le(self, other: Decimal) -> bool {
        let m = if self.exp <= other.exp { self.exp as int } else { other.exp as int };
        self.scaled(m) <= other.scaled(m)
    }

    /// Whether `self` and `other` denote the same number.
    pub open spec fn same_value(self, other: Decimal) -> bool {
        self.le(other) && other.le(self)
    }

    /// The normal form of the number: trailing zeros of `units` moved into
    /// the exponent, and zero written as `0 * 10^0`.
    pub open spec fn reduced(self) -> Decimal
        decreases self.units,
    {
        if self.units == 0 {
            Decimal { units: 0, exp: 0 }
        } else if self.units % 10 == 0 && self.exp < i32::MAX {
            Decimal { units: self.units / 10, exp: (self.exp + 1) as i32 }.reduced()
        } else {
            self
        }
    }

    /// Already in normal form.
    pub open spec fn is_reduced(self) -> bool {
        &&& self.units == 0 ==> self.exp == 0
        &&& self.units != 0 && self.exp < i32::MAX ==> self.units % 10 != 0
    }
}

proof fn lemma_pow10_positive(n: nat)
    ensures
        pow10(n) >= 1,
    decreases n,
{
    if n > 0 {
        lemma_pow10_positive((n - 1) as nat);
    }
}

proof fn lemma_pow10_grows(a: nat, b: nat)
    requires
        a <= b,
    ensures
        pow10(a) <= pow10(b),
    decreases b,
{
    if a < b {
        lemma_pow10_grows(a, (b - 1) as nat);
        lemma_pow10_positive((b - 1) as nat);
    }
}

proof fn lemma_pow10_add(x: nat, y: nat)
    ensures
        pow10(x + y) == pow10(x) * pow10(y),
    decreases y,
{
    if y > 0 {
        lemma_pow10_add(x, (y - 1) as nat);
        assert(pow10(x + y) == 10 * pow10((x + y - 1) as nat));
        assert(pow10(y) == 10 * pow10((y - 1) as nat));
        assert(10 * (pow10(x) * pow10((y - 1) as nat)) == pow10(x) * (10 * pow10((y - 1) as nat)))
            by (nonlinear_arith);
    } else {
        assert(pow10(0nat) == 1);
        assert(x + y == x);
    }
}

/// Scaling to a lower exponent multiplies by a power of ten.
proof fn lemma_scaled_lower(d: Decimal, m: int, k: int)
    requires
        k <= m <= d.exp,
    ensures
        d.scaled(k) == d.scaled(m) * pow10((m - k) as nat),
{
    lemma_pow10_add((d.exp - m) as nat, (m - k) as nat);
    assert(((d.exp - m) as nat + (m - k) as nat) as nat == (d.exp - k) as nat);
    assert(d.units * (pow10((d.exp - m) as nat) * pow10((m - k) as nat))
        == (d.units * pow10((d.exp - m) as nat)) * pow10((m - k) as nat)) by (nonlinear_arith);
}

/// The order may be read at any exponent at or below both.
proof fn lemma_le_at(a: Decimal, b: Decimal, k: int)
    requires
        k <= a.exp,
        k <= b.exp,
    ensures
        a.le(b) <==> a.scaled(k) <= b.scaled(k),
{
    let m = if a.exp <= b.exp { a.exp as int } else { b.exp as int };
    lemma_scaled_lower(a, m, k);
    lemma_scaled_lower(b, m, k);
    let p = pow10((m - k) as nat);
    lemma_pow10_positive((m - k) as nat);
    assert(a.scaled(m) <= b.scaled(m) <==> a.scaled(m) * p <= b.scaled(m) * p) by (nonlinear_arith)
        requires p >= 1;
}

/// Numeric order is transitive.
pub proof fn le_transitive(a: Decimal, b: Decimal, c: Decimal)
    requires
        a.le(b),
        b.le(c),
    ensures
        a.le(c),
{
    let k1 = if a.exp <= b.exp { a.exp as int } else { b.exp as int };
    let k = if k1 <= c.exp { k1 } else { c.exp as int };
    lemma_le_at(a, b, k);
    lemma_le_at(b, c, k);
    lemma_le_at(a, c, k);
}

/// Numeric order is total.
pub proof fn le_total(a: Decimal, b: Decimal)
    ensures
        a.le(b) || b.le(a),
{
}

proof fn lemma_reduced_scale(d: Decimal)
    requires
        d.units != 0,
    ensures
        d.reduced().exp >= d.exp,
        d.reduced().units != 0,
        d.units == d.reduced().units * pow10((d.reduced().exp - d.exp) as nat),
        d.reduced().is_reduced(),
    decreases d.units,
{
    if d.units % 10 == 0 && d.exp < i32::MAX {
        let e = Decimal { units: d.units / 10, exp: (d.exp + 1) as i32 };
        assert(e.units != 0);
        lemma_reduced_scale(e);
        let r = d.reduced();
        let k = (r.exp - e.exp) as nat;
        assert((r.exp - d.exp) as nat == k + 1);
        assert(pow10(k + 1) == 10 * pow10(k));
        assert(d.units == e.units * 10) by (nonlinear_arith)
            requires d.units % 10 == 0, e.units == d.units / 10;
        assert(e.units * 10 == r.units * pow10(k) * 10) by (nonlinear_arith)
            requires e.units == r.units * pow10(k);
        assert(r.units * pow10(k) * 10 == r.units * (10 * pow10(k))) by (nonlinear_arith);
    } else {
        assert(pow10(0nat) == 1);
        assert((d.exp - d.exp) as nat == 0nat);
    }
}

/// The normal form has the value of the number.
pub proof fn reduced_keeps_value(d: Decimal)
    ensures
        d.reduced().same_value(d),
        d.reduced().is_reduced(),
{
    let r = d.reduced();
    if d.units == 0 {
        let k = if d.exp <= 0 { d.exp as int } else { 0 };
        lemma_le_at(r, d, k);
        lemma_le_at(d, r, k);
    } else {
        lemma_reduced_scale(d);
        lemma_le_at(r, d, d.exp as int);
        lemma_le_at(d, r, d.exp as int);
        assert(pow10(0nat) == 1);
        assert((d.exp - d.exp) as nat == 0nat);
        assert(d.scaled(d.exp as int) == d.units * 1);
    }
}

/// The normal form of a number in normal form is itself.
pub proof fn reduced_fixed(d: Decimal)
    requires
        d.is_reduced(),
    ensures
        d.reduced() == d,
{
}

/// Numbers in normal form with the same value are the same.
proof fn lemma_reduced_equal(a: Decimal, b: Decimal)
    requires
        a.is_reduced(),
        b.is_reduced(),
        a.same_value(b),
        a.exp <= b.exp,
    ensures
        a == b,
{
    let k = a.exp as int;
    lemma_le_at(a, b, k);
    lemma_le_at(b, a, k);
    let d = (b.exp - a.exp) as nat;
    assert(pow10(0nat) == 1);
    assert((a.exp - k) as nat == 0nat);
    assert(a.scaled(k) == a.units * 1);
    assert(a.units == b.units * pow10(d));
    lemma_pow10_positive(d);
    if a.units == 0 {
        assert(b.units == 0) by (nonlinear_arith)
            requires b.units * pow10(d) == 0, pow10(d) >= 1, b.units >= 0;
        assert(a.exp == 0 && b.exp == 0);
    } else if d > 0 {
        let q = b.units * pow10((d - 1) as nat);
        assert(pow10(d) == 10 * pow10((d - 1) as nat));
        assert(a.units == q * 10) by (nonlinear_arith)
            requires a.units == b.units * pow10(d), pow10(d) == 10 * pow10((d - 1) as nat),
                q == b.units * pow10((d - 1) as nat);
        assert((q * 10) % 10 == 0) by (nonlinear_arith);
        assert(false);
    } else {
        assert(d == 0nat);
        assert(a.units == b.units * 1);
        assert(a.exp == b.exp);
    }
}

/// Two numbers have the same value exactly when their normal forms are equal.
pub proof fn reduced_unique(a: Decimal, b: Decimal)
    ensures
        a.same_value(b) <==> a.reduced() == b.reduced(),
{
    reduced_keeps_value(a);
    reduced_keeps_value(b);
    let ra = a.reduced();
    let rb = b.reduced();
    if a.same_value(b) {
        le_transitive(ra, a, b);
        le_transitive(ra, b, rb);
        le_transitive(rb, b, a);
        le_transitive(rb, a, ra);
        if ra.exp <= rb.exp {
            lemma_reduced_equal(ra, rb);
        } else {
            lemma_reduced_equal(rb, ra);
        }
    }
    if ra == rb {
        le_transitive(a, ra, b);
        le_transitive(b, rb, a);
    }
}

/// The normal form never moves the exponent up by twenty or more: `units`
/// has at most twenty digits.
pub proof fn reduced_exp_range(d: Decimal)
    ensures
        d.units != 0 ==> d.exp <= d.reduced().exp < d.exp + 20,
        d.units == 0 ==> d.reduced().exp == 0,
{
    if d.units != 0 {
        let r = d.reduced();
        lemma_reduced_scale(d);
        let k = (r.exp - d.exp) as nat;
        if k >= 20 {
            lemma_pow10_grows(20, k);
            reveal_with_fuel(pow10, 21);
            assert(r.units * pow10(k) >= pow10(k)) by (nonlinear_arith)
                requires r.units >= 1, pow10(k) >= 0;
        }
    }
}

/// `10^n` for a small `n`, computed exactly.
fn pow10_exec(n: u32) -> (r: u128)
    requires
        n <= 19,
    ensures
        r == pow10(n as nat),
        r <= 10_000_000_000_000_000_000u128,
{
    let mut r: u128 = 1;
    let mut i: u32 = 0;
    while i < n
        invariant
            i <= n <= 19,
            r == pow10(i as nat),
            r <= pow10(i as nat),
            pow10(i as nat) <= 10_000_000_000_000_000_000u128,
        decreases n - i,
    {
        proof {
            lemma_pow10_grows((i + 1) as nat, 19);
            reveal_with_fuel(pow10, 20);
        }
        r = r * 10;
        i = i + 1;
    }
    r
}

/// Compares `a * 10^d` with `b`, where `d` may be large.
fn shifted_le(a: u64, d: u64, b: u64) -> (r: bool)
    ensures
        r == (a * pow10(d as nat) <= b),
{
    if a == 0 {
        return true;
    }
    if d >= 20 {
        proof {
            lemma_pow10_grows(20, d as nat);
            reveal_with_fuel(pow10, 21);
            assert(a * pow10(d as nat) >= pow10(d as nat)) by (nonlinear_arith)
                requires a >= 1, pow10(d as nat) >= 0;
        }
        return false;
    }
    let p = pow10_exec(d as u32);
    proof {
        assert(a * p <= 0xffff_ffff_ffff_ffffu128 * 10_000_000_000_000_000_000u128) by (nonlinear_arith)
            requires a <= 0xffff_ffff_ffff_ffffu64, p <= 10_000_000_000_000_000_000u128;
    }
    (a as u128) * p <= b as u128
}

/// Compares `a * 10^d` with `b` the other way round.
fn shifted_ge(a: u64, d: u64, b: u64) -> (r: bool)
    ensures
        r == (a * pow10(d as nat) >= b),
{
    if a == 0 {
        return b == 0;
    }
    if d >= 20 {
        proof {
            lemma_pow10_grows(20, d as nat);
            reveal_with_fuel(pow10, 21);
            assert(a * pow10(d as nat) >= pow10(d as nat)) by (nonlinear_arith)
                requires a >= 1, pow10(d as nat) >= 0;
        }
        return true;
    }
    let p = pow10_exec(d as u32);
    proof {
        assert(a * p <= 0xffff_ffff_ffff_ffffu128 * 10_000_000_000_000_000_000u128) by (nonlinear_arith)
            requires a <= 0xffff_ffff_ffff_ffffu64, p <= 10_000_000_000_000_000_000u128;
    }
    (a as u128) * p >= b as u128
}

impl Decimal {
    /// The normal form of the number.
    pub fn reduce(&self) -> (r: Decimal)
        ensures
            r == self.reduced(),
    {
        if self.units == 0 {
            return Decimal { units: 0, exp: 0 };
        }
        let mut cur = *self;
        while cur.units % 10 == 0 && cur.exp < i32::MAX
            invariant
                cur.units != 0,
                cur.reduced() == self.reduced(),
            decreases cur.units,
        {
            cur = Decimal { units: cur.units / 10, exp: cur.exp + 1 };
        }
        cur
    }

    /// Numeric comparison of two decimals of any exponents.
    pub fn is_at_most(&self, other: &Decimal) -> (r: bool)
        ensures
            r == self.le(*other),
    {
        if self.exp <= other.exp {
            let d = (other.exp as i64 - self.exp as i64) as u64;
            assert(pow10(0nat) == 1);
            assert(((self.exp - self.exp) as nat) == 0nat);
            assert(self.scaled(self.exp as int) == self.units * 1);
            assert(other.scaled(self.exp as int) == other.units * pow10(d as nat));
            shifted_ge(other.units, d, self.units)
        } else {
            let d = (self.exp as i64 - other.exp as i64) as u64;
            assert(pow10(0nat) == 1);
            assert(((other.exp - other.exp) as nat) == 0nat);
            assert(other.scaled(other.exp as int) == other.units * 1);
            assert(self.scaled(other.exp as int) == self.units * pow10(d as nat));
            shifted_le(self.units, d, other.units)
        }
    }
}

} // verus!
