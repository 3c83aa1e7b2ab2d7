//! Fixed-point money and the exact decimal amounts it is rounded from.
use vstd::prelude::*;

verus! {

/// Number of decimal digits kept after the point.
pub const PRECISION_DIGITS: u32 = 4;

/// An exact decimal amount, `mantissa / 10^scale`, as written in the input.
#[derive(Clone, Copy, Debug, PartialEq, Eq, Structural)]
pub struct Decimal {
    pub mantissa: i64,
    pub scale: u32,
}

/// Ten to the power `n`.
pub open spec fn pow10(n: nat) -> nat
    decreases n,
{
    if n == 0 {
        1
    } else {
        10 * pow10((n - 1) as nat)
    }
}

pub open spec fn abs(x: int) -> int {
    if x < 0 {
        -x
    } else {
        x
    }
}

/// `m / p` rounded to the nearest integer, halves away from zero.
pub open spec fn div_round_half_away(m: int, p: nat) -> int
    recommends
        p > 0,
{
    let a = abs(m);
    let q = a / (p as int);
    let mag = if 2 * (a % (p as int)) >= p { q + 1 } else { q };
    if m < 0 {
        -mag
    } else {
        mag
    }
}

pub open spec fn fits_i64(x: int) -> bool {
    i64::MIN <= x <= i64::MAX
}

/// The value of `d` in fixed-point units, rounded half away from zero.
pub open spec fn units_of(d: Decimal) -> int {
    if d.scale <= PRECISION_DIGITS {
        d.mantissa * pow10((PRECISION_DIGITS - d.scale) as nat)
    } else {
        div_round_half_away(d.mantissa as int, pow10((d.scale - PRECISION_DIGITS) as nat))
    }
}

/// The decimal that denotes exactly `units` fixed-point units.
pub open spec fn decimal_of_units(units: i64) -> Decimal {
    Decimal { mantissa: units, scale: PRECISION_DIGITS }
}

proof fn lemma_pow10_positive(n: nat)
    ensures
        pow10(n) >= 1,
    decreases n,
{
    if n > 0 {
        lemma_pow10_positive((n - 1) as nat);
    }
}

proof fn lemma_pow10_monotonic(a: nat, b: nat)
    requires
        a <= b,
    ensures
        pow10(a) <= pow10(b),
    decreases b,
{
    if a < b {
        lemma_pow10_monotonic(a, (b - 1) as nat);
        lemma_pow10_positive((b - 1) as nat);
    }
}

proof fn lemma_pow10_values()
    ensures
        pow10(4) == 10000,
        pow10(19) == 10000000000000000000nat,
        pow10(20) == 100000000000000000000nat,
{
    reveal_with_fuel(pow10, 21);
}

/// Computes `10^n` for exponents whose power fits in a `u64`.
fn pow10_u64(n: u32) -> (r: u64)
    requires
        n <= 19,
    ensures
        r as nat == pow10(n as nat),
{
    let mut r: u64 = 1;
    let mut i: u32 = 0;
    while i < n
        invariant
            i <= n <= 19,
            r as nat == pow10(i as nat),
        decreases n - i,
    {
        proof {
            lemma_pow10_monotonic((i + 1) as nat, 19);
            lemma_pow10_values();
        }
        r = r * 10;
        i = i + 1;
    }
    r
}

impl Decimal {
    /// Rounds the amount to fixed-point units (half away from zero).
    /// Returns `None` exactly when the rounded value does not fit in an `i64`.
    pub fn to_units(&self) -> (r: Option<i64>)
        ensures
            match r {
                Some(u) => u as int == units_of(*self),
                None => !fits_i64(units_of(*self)),
            },
    {
        if self.scale <= PRECISION_DIGITS {
            let p = pow10_u64(PRECISION_DIGITS - self.scale);
            proof {
                lemma_pow10_monotonic((PRECISION_DIGITS - self.scale) as nat, 4);
                lemma_pow10_positive((PRECISION_DIGITS - self.scale) as nat);
                lemma_pow10_values();
                let m = self.mantissa as int;
                assert(-0x8000_0000_0000_0000_0000 <= m * (p as int) <= 0x8000_0000_0000_0000_0000)
                    by (nonlinear_arith)
                    requires
                        -0x8000_0000_0000_0000 <= m < 0x8000_0000_0000_0000,
                        0 < p <= 10000,
                ;
            }
            let v: i128 = self.mantissa as i128 * p as i128;
            if v < i64::MIN as i128 || v > i64::MAX as i128 {
                None
            } else {
                Some(v as i64)
            }
        } else if self.scale - PRECISION_DIGITS > 19 {
            proof {
                let k = (self.scale - PRECISION_DIGITS) as nat;
                lemma_pow10_monotonic(20, k);
                lemma_pow10_values();
                let a = abs(self.mantissa as int);
                assert(a / (pow10(k) as int) == 0) by (nonlinear_arith)
                    requires
                        0 <= a < pow10(k),
                ;
                assert(a % (pow10(k) as int) == a) by (nonlinear_arith)
                    requires
                        0 <= a < pow10(k),
                ;
            }
            Some(0)
        } else {
            let p = pow10_u64(self.scale - PRECISION_DIGITS);
            proof {
                lemma_pow10_monotonic(1, (self.scale - PRECISION_DIGITS) as nat);
                reveal_with_fuel(pow10, 2);
            }
            let a: u64 = if self.mantissa < 0 {
                (-(self.mantissa as i128)) as u64
            } else {
                self.mantissa as u64
            };
            let q = a / p;
            let rem = a % p;
            proof {
                lemma_pow10_monotonic(1, (self.scale - PRECISION_DIGITS) as nat);
                assert(a as int == abs(self.mantissa as int));
                assert(q <= a / 10) by (nonlinear_arith)
                    requires
                        p >= 10,
                        q == a / p,
                ;
            }
            let mag: u64 = if rem >= p - rem { q + 1 } else { q };
            let m: i64 = mag as i64;
            if self.mantissa < 0 {
                Some(-m)
            } else {
                Some(m)
            }
        }
    }

    /// Whether the amount is strictly below zero.
    pub fn is_negative(&self) -> (r: bool)
        ensures
            r == (self.mantissa < 0),
    {
        self.mantissa < 0
    }
}

/// A non-negative amount rounds to a non-negative number of units.
pub(crate) proof fn lemma_units_of_nonnegative(d: Decimal)
    requires
        d.mantissa >= 0,
    ensures
        units_of(d) >= 0,
{
    if d.scale <= PRECISION_DIGITS {
        let p = pow10((PRECISION_DIGITS - d.scale) as nat);
        assert(d.mantissa * p >= 0) by (nonlinear_arith)
            requires
                d.mantissa >= 0,
        ;
    } else {
        let p = pow10((d.scale - PRECISION_DIGITS) as nat);
        lemma_pow10_positive((d.scale - PRECISION_DIGITS) as nat);
        assert((d.mantissa as int) / (p as int) >= 0) by (nonlinear_arith)
            requires
                d.mantissa >= 0,
                p >= 1,
        ;
    }
}

/// Rounding is idempotent: an amount that already has whole fixed-point
/// units rounds to itself, however many trailing zero digits it is written
/// with.
pub proof fn lemma_rounding_idempotent(units: i64, extra_zeros: nat)
    requires
        fits_i64(units * pow10(extra_zeros)),
        PRECISION_DIGITS + extra_zeros <= u32::MAX,
    ensures
        units_of(
            Decimal {
                mantissa: (units * pow10(extra_zeros)) as i64,
                scale: (PRECISION_DIGITS + extra_zeros) as u32,
            },
        ) == units,
{
    let p = pow10(extra_zeros);
    lemma_pow10_positive(extra_zeros);
    let d = Decimal {
        mantissa: (units * pow10(extra_zeros)) as i64,
        scale: (PRECISION_DIGITS + extra_zeros) as u32,
    };
    if extra_zeros == 0 {
        assert(pow10(0) == 1);
        assert(units * p == units as int) by (nonlinear_arith)
            requires
                p == 1,
        ;
        assert(d.mantissa == units);
        assert(units_of(d) == units * pow10(0));
    } else {
        assert((d.scale - PRECISION_DIGITS) as nat == extra_zeros);
        let m = units * p;
        let a = abs(units as int);
        assert(abs(m) == a * p) by (nonlinear_arith)
            requires
                m == units * p,
                a == abs(units as int),
                p >= 1,
        ;
        assert((a * p) / (p as int) == a && (a * p) % (p as int) == 0) by (nonlinear_arith)
            requires
                a >= 0,
                p >= 1,
        ;
        assert((m < 0) == (units < 0)) by (nonlinear_arith)
            requires
                m == units * p,
                p >= 1,
        ;
        assert(d.mantissa as int == m);
        assert(units_of(d) == div_round_half_away(m, p));
    }
}

/// Rounding the result of a rounding changes nothing.
pub proof fn lemma_round_of_rounded(d: Decimal)
    requires
        fits_i64(units_of(d)),
    ensures
        units_of(decimal_of_units(units_of(d) as i64)) == units_of(d),
{
    lemma_rounding_idempotent(units_of(d) as i64, 0);
}

} // verus!
