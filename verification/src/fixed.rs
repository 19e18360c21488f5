//! A fixed-point scalar whose arithmetic is proved against the integers.
use vstd::prelude::*;
use crate::scalar::Real;

verus! {

/// The number of steps between two consecutive integers: `2^32`.
pub const UNIT: u128 = 0x1_0000_0000;

/// The magnitude of the smallest `i64`.
pub const MIN_MAGNITUDE: u128 = 0x8000_0000_0000_0000;

/// A number of `1 / 2^32` steps, held in 64 bits. Arithmetic truncates towards zero and
/// saturates: the two extreme bit patterns stand for the infinities.
#[derive(Clone, Copy, Debug, PartialEq, Eq, Structural)]
pub struct Fixed {
    /// The value in steps of `1 / 2^32`.
    pub raw: i64,
}

/// `x` limited to the range of `i64`.
pub open spec fn saturated(x: int) -> i64 {
    if x > i64::MAX {
        i64::MAX
    } else if x < i64::MIN {
        i64::MIN
    } else {
        x as i64
    }
}

/// The magnitude of an integer.
pub open spec fn magnitude(x: int) -> nat {
    if x < 0 {
        (-x) as nat
    } else {
        x as nat
    }
}

/// A magnitude with a sign, limited to the range of `i64`.
pub open spec fn signed(negative: bool, m: nat) -> i64 {
    saturated(if negative {
        -(m as int)
    } else {
        m as int
    })
}

/// Ten to the power `n`.
pub open spec fn pow10(n: nat) -> nat
    decreases n,
{
    if n == 0 {
        1
    } else {
        10 * pow10((n - 1) as nat)
    }
}

/// The steps of `mantissa / 10^digits`, rounded down.
pub open spec fn decimal_steps(mantissa: nat, digits: nat) -> nat {
    (mantissa * UNIT as nat) / pow10(digits)
}

/// The largest natural whose square is at most `n`.
pub open spec fn is_root(n: nat, r: nat) -> bool {
    r * r <= n < (r + 1) * (r + 1)
}

/// The integer square root.
pub open spec fn root(n: nat) -> nat {
    choose|r: nat| is_root(n, r)
}

impl Fixed {
    /// The product, truncated towards zero.
    pub open spec fn product(self, rhs: Fixed) -> Fixed {
        Fixed {
            raw: signed(
                (self.raw < 0) != (rhs.raw < 0),
                (magnitude(self.raw as int) * magnitude(rhs.raw as int)) / UNIT as nat,
            ),
        }
    }

    /// The quotient, truncated towards zero; a zero divisor saturates.
    pub open spec fn quotient(self, rhs: Fixed) -> Fixed {
        if rhs.raw == 0 {
            Fixed {
                raw: if self.raw > 0 {
                    i64::MAX
                } else if self.raw < 0 {
                    i64::MIN
                } else {
                    0
                },
            }
        } else {
            Fixed {
                raw: signed(
                    (self.raw < 0) != (rhs.raw < 0),
                    (magnitude(self.raw as int) * UNIT as nat) / magnitude(rhs.raw as int),
                ),
            }
        }
    }

    /// The `n`-th power by repeated multiplication.
    pub open spec fn power(self, n: nat) -> Fixed
        decreases n,
    {
        if n == 0 {
            Fixed { raw: UNIT as i64 }
        } else {
            self.power((n - 1) as nat).product(self)
        }
    }
}

/// The magnitude of `x`.
fn magnitude_of(x: i64) -> (m: u128)
    ensures
        m == magnitude(x as int),
        m <= MIN_MAGNITUDE,
{
    if x < 0 {
        (-(x as i128)) as u128
    } else {
        x as u128
    }
}

/// Puts a sign on `m` and limits the result to the range of `i64`.
fn signed_of(negative: bool, m: u128) -> (r: i64)
    ensures
        r == signed(negative, m as nat),
{
    if negative {
        if m >= MIN_MAGNITUDE {
            i64::MIN
        } else {
            -(m as i64)
        }
    } else {
        if m >= MIN_MAGNITUDE {
            i64::MAX
        } else {
            m as i64
        }
    }
}

/// Powers of ten are positive.
pub proof fn lemma_pow10_positive(n: nat)
    ensures
        pow10(n) >= 1,
    decreases n,
{
    if n > 0 {
        lemma_pow10_positive((n - 1) as nat);
    }
}

proof fn lemma_root_unique(n: nat, a: nat, b: nat)
    requires
        is_root(n, a),
        is_root(n, b),
    ensures
        a == b,
{
    if a < b {
        assert((a + 1) * (a + 1) <= b * b) by (nonlinear_arith)
            requires
                a + 1 <= b,
        ;
    } else if b < a {
        assert((b + 1) * (b + 1) <= a * a) by (nonlinear_arith)
            requires
                b + 1 <= a,
        ;
    }
}

/// The root of a natural is the one whose square fits.
pub proof fn lemma_root(n: nat, r: nat)
    requires
        is_root(n, r),
    ensures
        root(n) == r,
{
    lemma_root_unique(n, r, root(n));
}

/// The integer square root by bisection.
fn root_of(n: u128) -> (r: u128)
    requires
        n < 0x8000_0000_0000_0000_0000_0000,
    ensures
        r == root(n as nat),
{
    let mut lo: u128 = 0;
    let mut hi: u128 = 0x1_0000_0000_0000;
    while lo + 1 < hi
        invariant
            lo < hi <= 0x1_0000_0000_0000,
            lo * lo <= n < hi * hi,
        decreases hi - lo,
    {
        let mid: u128 = lo + (hi - lo) / 2;
        assert(mid * mid <= 0x1_0000_0000_0000 * 0x1_0000_0000_0000) by (nonlinear_arith)
            requires
                mid <= 0x1_0000_0000_0000,
        ;
        if mid * mid <= n {
            lo = mid;
        } else {
            hi = mid;
        }
    }
    proof {
        assert(is_root(n as nat, lo as nat));
        lemma_root_unique(n as nat, lo as nat, root(n as nat));
    }
    lo
}

/// The steps of `mantissa / 10^digits`, rounded down.
fn decimal_steps_of(mantissa: u128, digits: u32) -> (r: u128)
    requires
        mantissa <= MIN_MAGNITUDE,
    ensures
        r == decimal_steps(mantissa as nat, digits as nat),
{
    let base: u128 = mantissa * UNIT;
    let mut acc: u128 = base;
    assert(base as nat / 1 == base);
    for done in 0..digits
        invariant
            base == mantissa * UNIT,
            acc as nat == base as nat / pow10(done as nat),
    {
        proof {
            let p: nat = pow10(done as nat);
            lemma_pow10_positive(done as nat);
            vstd::arithmetic::div_mod::lemma_div_denominator(base as int, p as int, 10);
            assert(p * 10 == 10 * p);
        }
        acc = acc / 10;
    }
    acc
}

impl Real for Fixed {
    open spec fn spec_zero() -> Fixed {
        Fixed { raw: 0 }
    }

    fn zero() -> (r: Fixed) {
        Fixed { raw: 0 }
    }

    open spec fn spec_one() -> Fixed {
        Fixed { raw: UNIT as i64 }
    }

    fn one() -> (r: Fixed) {
        Fixed { raw: UNIT as i64 }
    }

    open spec fn spec_pi() -> Fixed {
        Fixed { raw: 13_493_037_704 }
    }

    fn pi() -> (r: Fixed) {
        Fixed { raw: 13_493_037_704 }
    }

    open spec fn spec_infinity() -> Fixed {
        Fixed { raw: i64::MAX }
    }

    fn infinity() -> (r: Fixed) {
        Fixed { raw: i64::MAX }
    }

    open spec fn spec_neg_infinity() -> Fixed {
        Fixed { raw: i64::MIN }
    }

    fn neg_infinity() -> (r: Fixed) {
        Fixed { raw: i64::MIN }
    }

    open spec fn spec_decimal(mantissa: i64, digits: u32) -> Fixed {
        Fixed {
            raw: signed(
                mantissa < 0,
                decimal_steps(magnitude(mantissa as int), digits as nat),
            ),
        }
    }

    fn decimal(mantissa: i64, digits: u32) -> (r: Fixed) {
        let steps: u128 = decimal_steps_of(magnitude_of(mantissa), digits);
        Fixed { raw: signed_of(mantissa < 0, steps) }
    }

    open spec fn spec_from_usize(n: usize) -> Fixed {
        Fixed { raw: saturated(n * UNIT) }
    }

    fn from_usize(n: usize) -> (r: Fixed) {
        let m: u128 = n as u128 * UNIT;
        Fixed { raw: signed_of(false, m) }
    }

    open spec fn spec_add(self, rhs: Fixed) -> Fixed {
        Fixed { raw: saturated(self.raw + rhs.raw) }
    }

    fn add(self, rhs: Fixed) -> (r: Fixed) {
        let s: i128 = self.raw as i128 + rhs.raw as i128;
        Fixed { raw: saturate(s) }
    }

    open spec fn spec_sub(self, rhs: Fixed) -> Fixed {
        Fixed { raw: saturated(self.raw - rhs.raw) }
    }

    fn sub(self, rhs: Fixed) -> (r: Fixed) {
        let s: i128 = self.raw as i128 - rhs.raw as i128;
        Fixed { raw: saturate(s) }
    }

    open spec fn spec_mul(self, rhs: Fixed) -> Fixed {
        self.product(rhs)
    }

    fn mul(self, rhs: Fixed) -> (r: Fixed) {
        let a: u128 = magnitude_of(self.raw);
        let b: u128 = magnitude_of(rhs.raw);
        assert(a * b <= MIN_MAGNITUDE * MIN_MAGNITUDE) by (nonlinear_arith)
            requires
                a <= MIN_MAGNITUDE,
                b <= MIN_MAGNITUDE,
        ;
        let m: u128 = (a * b) / UNIT;
        Fixed { raw: signed_of((self.raw < 0) != (rhs.raw < 0), m) }
    }

    open spec fn spec_div(self, rhs: Fixed) -> Fixed {
        self.quotient(rhs)
    }

    fn div(self, rhs: Fixed) -> (r: Fixed) {
        if rhs.raw == 0 {
            let raw: i64 = if self.raw > 0 {
                i64::MAX
            } else if self.raw < 0 {
                i64::MIN
            } else {
                0
            };
            Fixed { raw }
        } else {
            let a: u128 = magnitude_of(self.raw);
            let b: u128 = magnitude_of(rhs.raw);
            let m: u128 = (a * UNIT) / b;
            Fixed { raw: signed_of((self.raw < 0) != (rhs.raw < 0), m) }
        }
    }

    open spec fn spec_neg(self) -> Fixed {
        Fixed { raw: saturated(-self.raw) }
    }

    fn neg(self) -> (r: Fixed) {
        let s: i128 = -(self.raw as i128);
        Fixed { raw: saturate(s) }
    }

    open spec fn spec_inv(self) -> Fixed {
        if self.raw == 0 {
            self
        } else {
            Fixed { raw: UNIT as i64 }.quotient(self)
        }
    }

    fn inv(self) -> (r: Fixed) {
        if self.raw == 0 {
            self
        } else {
            Fixed { raw: UNIT as i64 }.div(self)
        }
    }

    open spec fn spec_powi(self, n: i32) -> Fixed {
        if n >= 0 {
            self.power(n as nat)
        } else {
            Fixed { raw: UNIT as i64 }.quotient(self.power((-n) as nat))
        }
    }

    fn powi(self, n: i32) -> (r: Fixed) {
        let count: i64 = if n >= 0 {
            n as i64
        } else {
            -(n as i64)
        };
        let mut acc: Fixed = Fixed { raw: UNIT as i64 };
        let mut done: i64 = 0;
        while done < count
            invariant
                0 <= done <= count,
                acc == self.power(done as nat),
            decreases count - done,
        {
            acc = acc.mul(self);
            done = done + 1;
        }
        if n >= 0 {
            acc
        } else {
            Fixed { raw: UNIT as i64 }.div(acc)
        }
    }

    open spec fn spec_sqrt(self) -> Fixed {
        if self.raw <= 0 {
            Fixed { raw: 0 }
        } else {
            Fixed { raw: saturated(root((self.raw * UNIT) as nat) as int) }
        }
    }

    fn sqrt(self) -> (r: Fixed) {
        if self.raw <= 0 {
            Fixed { raw: 0 }
        } else {
            let m: u128 = root_of(self.raw as u128 * UNIT);
            Fixed { raw: signed_of(false, m) }
        }
    }

    open spec fn spec_abs(self) -> Fixed {
        Fixed { raw: saturated(magnitude(self.raw as int) as int) }
    }

    fn abs(self) -> (r: Fixed) {
        Fixed { raw: signed_of(false, magnitude_of(self.raw)) }
    }

    open spec fn spec_min(self, rhs: Fixed) -> Fixed {
        if rhs.raw < self.raw {
            rhs
        } else {
            self
        }
    }

    fn min(self, rhs: Fixed) -> (r: Fixed) {
        if rhs.raw < self.raw {
            rhs
        } else {
            self
        }
    }

    open spec fn spec_max(self, rhs: Fixed) -> Fixed {
        if rhs.raw > self.raw {
            rhs
        } else {
            self
        }
    }

    fn max(self, rhs: Fixed) -> (r: Fixed) {
        if rhs.raw > self.raw {
            rhs
        } else {
            self
        }
    }

    open spec fn spec_floor(self) -> i64 {
        (self.raw as int / UNIT as int) as i64
    }

    fn floor(self) -> (r: i64) {
        if self.raw >= 0 {
            self.raw / 0x1_0000_0000
        } else {
            let m: u128 = (magnitude_of(self.raw) + (UNIT - 1)) / UNIT;
            -(m as i64)
        }
    }

    open spec fn spec_lt(self, rhs: Fixed) -> bool {
        self.raw < rhs.raw
    }

    fn lt(self, rhs: Fixed) -> (r: bool) {
        self.raw < rhs.raw
    }

    open spec fn spec_le(self, rhs: Fixed) -> bool {
        self.raw <= rhs.raw
    }

    fn le(self, rhs: Fixed) -> (r: bool) {
        self.raw <= rhs.raw
    }

    open spec fn spec_equals(self, rhs: Fixed) -> bool {
        self.raw == rhs.raw
    }

    fn equals(self, rhs: Fixed) -> (r: bool) {
        self.raw == rhs.raw
    }

    open spec fn spec_is_finite(self) -> bool {
        i64::MIN < self.raw < i64::MAX
    }

    fn is_finite(self) -> (r: bool) {
        i64::MIN < self.raw && self.raw < i64::MAX
    }

    open spec fn spec_is_nan(self) -> bool {
        false
    }

    fn is_nan(self) -> (r: bool) {
        false
    }

    open spec fn spec_total_le(self, rhs: Fixed) -> bool {
        self.raw <= rhs.raw
    }

    fn total_le(self, rhs: Fixed) -> (r: bool) {
        self.raw <= rhs.raw
    }

    proof fn law_min_le(x: Fixed, other: Fixed, bound: Fixed) {
    }

    proof fn law_le_max(x: Fixed, other: Fixed, bound: Fixed) {
    }

    proof fn law_total_le_total(x: Fixed, y: Fixed) {
    }

    proof fn law_total_le_transitive(x: Fixed, y: Fixed, z: Fixed) {
    }

    proof fn law_zero_one() {
    }

    proof fn law_nothing_taken() {
    }

    proof fn law_le_itself(x: Fixed) {
    }

    proof fn law_room(bound: Fixed, x: Fixed, mantissa: i64, digits: u32) {
        assert(Self::spec_decimal(mantissa, digits).raw >= 0);
    }
}

/// Limits `x` to the range of `i64`.
fn saturate(x: i128) -> (r: i64)
    ensures
        r == saturated(x as int),
{
    if x > i64::MAX as i128 {
        i64::MAX
    } else if x < i64::MIN as i128 {
        i64::MIN
    } else {
        x as i64
    }
}

/// Whether two numbers differ by at most `bound`.
pub open spec fn near(x: int, y: int, bound: int) -> bool {
    -bound <= x - y <= bound
}

/// What truncation leaves of an exact value of `x / d`: `r` is the nearest step towards zero.
pub open spec fn truncates(x: int, d: int, r: int) -> bool {
    &&& x >= 0 ==> r >= 0 && 0 <= x - r * d < d
    &&& x <= 0 ==> r <= 0 && 0 <= r * d - x < d
}

proof fn lemma_signed_division(negative: bool, m: nat, d: nat)
    requires
        d > 0,
        m < MIN_MAGNITUDE * d,
    ensures
        truncates(
            if negative {
                -(m as int)
            } else {
                m as int
            },
            d as int,
            signed(negative, m / d) as int,
        ),
{
    let q = m / d;
    vstd::arithmetic::div_mod::lemma_fundamental_div_mod(m as int, d as int);
    assert(d * q == q * d) by (nonlinear_arith);
    assert(q < MIN_MAGNITUDE) by (nonlinear_arith)
        requires
            q * d <= m,
            m < MIN_MAGNITUDE * d,
            d > 0,
    ;
    assert((-(q as int)) * d == -(q * d)) by (nonlinear_arith);
}

proof fn lemma_magnitudes(a: int, b: int)
    ensures
        magnitude(a) * magnitude(b) == magnitude(a * b),
        (a < 0) != (b < 0) ==> a * b <= 0,
        (a < 0) == (b < 0) ==> a * b >= 0,
{
    assert((-a) * (-b) == a * b && (-a) * b == -(a * b) && a * (-b) == -(a * b))
        by (nonlinear_arith);
    if a >= 0 && b >= 0 {
        assert(a * b >= 0) by (nonlinear_arith)
            requires
                a >= 0,
                b >= 0,
        ;
    } else if a < 0 && b < 0 {
        assert((-a) * (-b) >= 0) by (nonlinear_arith)
            requires
                a < 0,
                b < 0,
        ;
    } else if a < 0 {
        assert((-a) * b >= 0) by (nonlinear_arith)
            requires
                a < 0,
                b >= 0,
        ;
    } else {
        assert(a * (-b) >= 0) by (nonlinear_arith)
            requires
                a >= 0,
                b < 0,
        ;
    }
}

/// A product that is in range is the exact one, truncated to a step towards zero.
pub proof fn lemma_product_truncates(a: Fixed, b: Fixed)
    requires
        magnitude(a.raw * b.raw) < MIN_MAGNITUDE * UNIT,
    ensures
        truncates(a.raw * b.raw, UNIT as int, a.mul(b).raw as int),
{
    lemma_magnitudes(a.raw as int, b.raw as int);
    lemma_signed_division(
        (a.raw < 0) != (b.raw < 0),
        magnitude(a.raw as int) * magnitude(b.raw as int),
        UNIT as nat,
    );
}

/// A quotient that is in range is the exact one, truncated to a step towards zero.
pub proof fn lemma_quotient_truncates(a: Fixed, b: Fixed)
    requires
        b.raw > 0,
        magnitude(a.raw as int) * UNIT < MIN_MAGNITUDE * b.raw,
    ensures
        truncates(a.raw * UNIT, b.raw as int, a.div(b).raw as int),
{
    lemma_signed_division(
        a.raw < 0,
        magnitude(a.raw as int) * UNIT as nat,
        b.raw as nat,
    );
}

/// The square of a number that is at least as far from zero is at least as large.
pub proof fn lemma_square_monotone(a: Fixed, b: Fixed)
    requires
        magnitude(a.raw as int) <= magnitude(b.raw as int),
    ensures
        0 <= a.mul(a).raw <= b.mul(b).raw,
{
    let (m, n) = (magnitude(a.raw as int), magnitude(b.raw as int));
    assert(m * m <= n * n) by (nonlinear_arith)
        requires
            m <= n,
    ;
    vstd::arithmetic::div_mod::lemma_div_is_ordered((m * m) as int, (n * n) as int, UNIT as int);
    vstd::arithmetic::div_mod::lemma_div_pos_is_pos((m * m) as int, UNIT as int);
}

/// A quotient is never further from zero than the exact one.
pub proof fn lemma_quotient_bounded(a: Fixed, b: Fixed)
    requires
        b.raw > 0,
    ensures
        magnitude(a.div(b).raw as int) * b.raw <= magnitude(a.raw as int) * UNIT,
{
    let m = magnitude(a.raw as int) * UNIT as nat;
    let d = b.raw as nat;
    let q = m / d;
    vstd::arithmetic::div_mod::lemma_fundamental_div_mod(m as int, d as int);
    assert(d * q == q * d) by (nonlinear_arith);
    let r = magnitude(a.div(b).raw as int);
    assert(r <= q);
    assert(r * d <= q * d) by (nonlinear_arith)
        requires
            r <= q,
    ;
}

/// Every natural has a root.
pub proof fn lemma_root_is_root(n: nat)
    ensures
        is_root(n, root(n)),
    decreases n,
{
    if n == 0 {
        assert(is_root(0, 0)) by (nonlinear_arith);
    } else {
        lemma_root_is_root((n - 1) as nat);
        let r = root((n - 1) as nat);
        if (r + 1) * (r + 1) <= n {
            assert((r + 2) * (r + 2) > (r + 1) * (r + 1)) by (nonlinear_arith);
            assert(is_root(n, r + 1));
        } else {
            assert(is_root(n, r));
        }
    }
}

/// Sums, differences and opposites are exact within the range, and at its end beyond; the order is
/// that of the numbers, and magnitudes, minima and maxima follow it.
pub proof fn lemma_sums_are_exact_in_range(a: Fixed, b: Fixed)
    ensures
        i64::MIN <= a.raw + b.raw <= i64::MAX ==> a.add(b).raw == a.raw + b.raw,
        a.raw + b.raw > i64::MAX ==> a.add(b).raw == i64::MAX,
        a.raw + b.raw < i64::MIN ==> a.add(b).raw == i64::MIN,
        i64::MIN <= a.raw - b.raw <= i64::MAX ==> a.sub(b).raw == a.raw - b.raw,
        a.raw - b.raw > i64::MAX ==> a.sub(b).raw == i64::MAX,
        a.raw - b.raw < i64::MIN ==> a.sub(b).raw == i64::MIN,
        a.raw > i64::MIN ==> a.neg().raw == -a.raw,
        a.raw >= 0 ==> a.abs() == a,
        a.raw < 0 ==> a.abs() == a.neg(),
        a.lt(b) <==> a.raw < b.raw,
        a.le(b) <==> !b.lt(a),
        a.equals(b) <==> a.le(b) && b.le(a),
        a.min(b).le(a) && a.min(b).le(b) && (a.min(b) == a || a.min(b) == b),
        a.le(a.max(b)) && b.le(a.max(b)) && (a.max(b) == a || a.max(b) == b),
{
}

/// The largest integer that is not above a number is its floor.
pub proof fn lemma_floor_is_below(a: Fixed)
    ensures
        a.floor() * UNIT <= a.raw < (a.floor() + 1) * UNIT,
{
    let q = a.raw as int / UNIT as int;
    vstd::arithmetic::div_mod::lemma_fundamental_div_mod(a.raw as int, UNIT as int);
    assert(i64::MIN <= q <= i64::MAX);
}

/// Whole numbers and powers are what they should be: one is the unit, a power is one factor more
/// than the one before, and a negative power is one over the positive one.
pub proof fn lemma_powers_multiply(a: Fixed, n: i32)
    requires
        0 <= n < i32::MAX,
    ensures
        a.powi(0) == Fixed::spec_one(),
        a.powi((n + 1) as i32) == a.powi(n).mul(a),
        n > 0 ==> a.powi((-n) as i32) == Fixed::spec_one().div(a.powi(n)),
        a.raw != 0 ==> a.inv() == Fixed::spec_one().div(a),
{
}

/// A decimal is its mantissa over the power of ten, cut off towards zero, where that is in range.
pub proof fn lemma_decimal_truncates(mantissa: i64, digits: u32)
    requires
        decimal_steps(magnitude(mantissa as int), digits as nat) <= i64::MAX,
    ensures
        truncates(
            mantissa * UNIT,
            pow10(digits as nat) as int,
            Fixed::spec_decimal(mantissa, digits).raw as int,
        ),
{
    let m = magnitude(mantissa as int);
    let d = pow10(digits as nat);
    lemma_pow10_positive(digits as nat);
    let n = m * UNIT as nat;
    let q = (n / d) as int;
    vstd::arithmetic::div_mod::lemma_fundamental_div_mod(n as int, d as int);
    assert(d as int * q == q * d) by (nonlinear_arith);
    assert((-q) * d == -(q * d)) by (nonlinear_arith);
    assert(q >= 0);
    if mantissa < 0 {
        assert(mantissa * UNIT == -(n as int)) by (nonlinear_arith)
            requires
                n == (-mantissa) * UNIT,
        ;
    }
}

/// The stored ratio of a circle's circumference to its diameter is right to nine decimals.
pub proof fn lemma_pi_is_close()
    ensures
        3_141_592_653 * UNIT < Fixed::spec_pi().raw * 1_000_000_000 < 3_141_592_654 * UNIT,
{
}

} // verus!
