//! IEEE 754 binary64 numbers, held as bit patterns.
//!
//! Thresholds, prices, and confidences are doubles, and routing decisions hang on
//! their exact comparisons. A [`Binary64`] carries the bit pattern of a double;
//! comparison and arithmetic are integer computations that are proved to give what
//! IEEE 754 prescribes under rounding to nearest, ties to even.
//!
//! The mathematical value of a pattern is an integer: every finite double is a
//! multiple of `2^-1074`, so [`Binary64::value`] counts those units. The two
//! infinities count as `±2^2098`, one step beyond the largest finite magnitude,
//! which is exactly where IEEE 754 places the overflow threshold.

use vstd::arithmetic::power2::{
    lemma2_to64, lemma2_to64_rest, lemma_pow2_adds, lemma_pow2_pos, lemma_pow2_strictly_increases,
    lemma_pow2_unfold, pow2,
};
use vstd::prelude::*;

verus! {

/// The sign bit.
pub const SIGN_BIT: u64 = 0x8000_0000_0000_0000;

/// The bit pattern of positive infinity; larger magnitudes are NaN.
pub const INFINITY_BITS: u64 = 0x7FF0_0000_0000_0000;

/// The pattern that invalid operations produce.
pub const NAN_BITS: u64 = 0x7FF8_0000_0000_0000;

/// `2^52`: the weight of the implicit leading significand bit.
pub const HIDDEN_BIT: u64 = 0x0010_0000_0000_0000;

/// The bit pattern of `0`.
pub const ZERO: u64 = 0;

/// The bit pattern of `0.5`.
pub const HALF: u64 = 0x3FE0_0000_0000_0000;

/// The bit pattern of `1`.
pub const ONE: u64 = 0x3FF0_0000_0000_0000;

/// The bit pattern of `2`.
pub const TWO: u64 = 0x4000_0000_0000_0000;

/// The bit pattern of `2^-52`, the distance from `1` to the next larger number.
pub const EPSILON: u64 = 0x3CB0_0000_0000_0000;

/// A binary64 number, as its bit pattern.
///
/// `==` compares patterns. Numeric comparison is [`Binary64::lt`] and
/// [`Binary64::le`], under which the two zeros are equal and NaN is unordered.
#[derive(Clone, Copy, Debug, PartialEq, Eq, Structural)]
pub struct Binary64 {
    pub bits: u64,
}

/// The magnitude of the sign-free pattern `m`, in units of `2^-1074`.
pub open spec fn scaled(m: int) -> int {
    let exponent = m / HIDDEN_BIT as int;
    let fraction = m % (HIDDEN_BIT as int);
    if exponent == 0 {
        fraction
    } else {
        (HIDDEN_BIT + fraction) * pow2((exponent - 1) as nat)
    }
}

/// Whether `m` is the sign-free pattern nearest to the magnitude `n / d` (in units of
/// `2^-1074`), a tie going to the even pattern and overflow to infinity.
pub open spec fn is_nearest(m: int, n: int, d: int) -> bool {
    &&& 0 <= m <= INFINITY_BITS
    &&& m > 0 ==> {
        let edge = d * (scaled(m - 1) + scaled(m));
        2 * n > edge || (2 * n == edge && m % 2 == 0)
    }
    &&& m < INFINITY_BITS ==> {
        let edge = d * (scaled(m) + scaled(m + 1));
        2 * n < edge || (2 * n == edge && m % 2 == 0)
    }
}

/// The sign-free pattern nearest to the magnitude `n / d`.
pub open spec fn nearest(n: int, d: int) -> int {
    choose|m: int| is_nearest(m, n, d)
}

/// `x` with its sign dropped.
pub open spec fn magnitude_of(x: int) -> int {
    if x < 0 {
        -x
    } else {
        x
    }
}

/// The number with the given sign and sign-free pattern.
pub open spec fn signed(negative: bool, m: int) -> Binary64 {
    Binary64 {
        bits: if negative {
            (m + SIGN_BIT) as u64
        } else {
            m as u64
        },
    }
}

impl Binary64 {
    /// The number with the bit pattern `bits`.
    pub open spec fn pattern(bits: u64) -> Binary64 {
        Binary64 { bits }
    }

    /// The number with the bit pattern `bits`.
    #[verifier::when_used_as_spec(pattern)]
    pub fn of(bits: u64) -> (r: Binary64)
        ensures
            r == Binary64::pattern(bits),
    {
        Binary64 { bits }
    }

    /// The pattern without its sign bit.
    pub open spec fn magnitude(self) -> int {
        self.bits as int % SIGN_BIT as int
    }

    /// Whether the sign bit is set.
    pub open spec fn negative(self) -> bool {
        self.bits >= SIGN_BIT
    }

    /// Whether this is not a number.
    pub open spec fn nan(self) -> bool {
        self.magnitude() > INFINITY_BITS
    }

    /// Whether this is a finite number.
    pub open spec fn finite(self) -> bool {
        self.magnitude() < INFINITY_BITS
    }

    /// Whether this is one of the infinities.
    pub open spec fn infinite(self) -> bool {
        self.magnitude() == INFINITY_BITS
    }

    /// The number in units of `2^-1074`.
    pub open spec fn value(self) -> int {
        if self.negative() {
            -scaled(self.magnitude())
        } else {
            scaled(self.magnitude())
        }
    }

    /// `self < other`.
    pub open spec fn less(self, other: Binary64) -> bool {
        !self.nan() && !other.nan() && self.value() < other.value()
    }

    /// `self <= other`.
    pub open spec fn at_most(self, other: Binary64) -> bool {
        !self.nan() && !other.nan() && self.value() <= other.value()
    }

    /// `-self`.
    pub open spec fn negation(self) -> Binary64 {
        signed(!self.negative(), self.magnitude())
    }

    /// `self + other`.
    pub open spec fn plus(self, other: Binary64) -> Binary64 {
        if self.nan() || other.nan() {
            Binary64 { bits: NAN_BITS }
        } else if self.infinite() {
            if other.infinite() && self.negative() != other.negative() {
                Binary64 { bits: NAN_BITS }
            } else {
                self
            }
        } else if other.infinite() {
            other
        } else {
            let exact = self.value() + other.value();
            if exact == 0 {
                signed(self.negative() && other.negative(), 0)
            } else {
                signed(exact < 0, nearest(magnitude_of(exact), 1))
            }
        }
    }

    /// `self - other`.
    pub open spec fn minus(self, other: Binary64) -> Binary64 {
        self.plus(other.negation())
    }

    /// `self * other`.
    pub open spec fn times(self, other: Binary64) -> Binary64 {
        let negative = self.negative() != other.negative();
        if self.nan() || other.nan() {
            Binary64 { bits: NAN_BITS }
        } else if self.infinite() || other.infinite() {
            if self.magnitude() == 0 || other.magnitude() == 0 {
                Binary64 { bits: NAN_BITS }
            } else {
                signed(negative, INFINITY_BITS as int)
            }
        } else {
            signed(
                negative,
                nearest(scaled(self.magnitude()) * scaled(other.magnitude()), pow2(1074) as int),
            )
        }
    }

    /// `self / other`.
    pub open spec fn over(self, other: Binary64) -> Binary64 {
        let negative = self.negative() != other.negative();
        if self.nan() || other.nan() {
            Binary64 { bits: NAN_BITS }
        } else if self.infinite() {
            if other.infinite() {
                Binary64 { bits: NAN_BITS }
            } else {
                signed(negative, INFINITY_BITS as int)
            }
        } else if other.infinite() {
            signed(negative, 0)
        } else if other.magnitude() == 0 {
            if self.magnitude() == 0 {
                Binary64 { bits: NAN_BITS }
            } else {
                signed(negative, INFINITY_BITS as int)
            }
        } else {
            signed(
                negative,
                nearest(scaled(self.magnitude()) * pow2(1074), scaled(other.magnitude())),
            )
        }
    }
}

// ── The number line ─────────────────────────────────────────────────────────

/// A significand `q` at unit exponent `k` is laid out as the pattern `k * 2^52 + q`.
proof fn lemma_scaled_layout(k: int, q: int)
    requires
        0 <= k,
        0 <= q <= 2 * HIDDEN_BIT,
        k > 0 ==> q >= HIDDEN_BIT,
    ensures
        scaled(k * HIDDEN_BIT + q) == q * pow2(k as nat),
{
    lemma2_to64();
    let m = k * HIDDEN_BIT + q;
    if q < HIDDEN_BIT {
        assert(m / HIDDEN_BIT as int == 0 && m % (HIDDEN_BIT as int) == q);
        assert(q * pow2(k as nat) == q) by (nonlinear_arith)
            requires
                pow2(k as nat) == 1,
        ;
    } else if q < 2 * HIDDEN_BIT {
        assert(m / HIDDEN_BIT as int == k + 1 && m % (HIDDEN_BIT as int) == q - HIDDEN_BIT);
    } else {
        assert(m / HIDDEN_BIT as int == k + 2 && m % (HIDDEN_BIT as int) == 0);
        lemma_pow2_unfold((k + 1) as nat);
        assert(HIDDEN_BIT * (2 * pow2(k as nat)) == (2 * HIDDEN_BIT) * pow2(k as nat))
            by (nonlinear_arith);
    }
}

/// The layout of an arbitrary pattern.
proof fn lemma_scaled_parts(m: int) -> (r: (int, int))
    requires
        0 <= m,
    ensures
        0 <= r.0,
        0 <= r.1 < 2 * HIDDEN_BIT,
        r.0 > 0 ==> r.1 >= HIDDEN_BIT,
        m == r.0 * HIDDEN_BIT + r.1,
        scaled(m) == r.1 * pow2(r.0 as nat),
{
    lemma2_to64();
    let exponent = m / HIDDEN_BIT as int;
    let fraction = m % (HIDDEN_BIT as int);
    if exponent == 0 {
        assert(fraction * pow2(0) == fraction) by (nonlinear_arith)
            requires
                pow2(0) == 1,
        ;
        (0, fraction)
    } else {
        (exponent - 1, HIDDEN_BIT + fraction)
    }
}

/// The next pattern up is strictly larger.
proof fn lemma_scaled_step(m: int)
    requires
        0 <= m,
    ensures
        0 <= scaled(m) < scaled(m + 1),
{
    let (k, q) = lemma_scaled_parts(m);
    lemma_scaled_layout(k, q + 1);
    lemma_pow2_pos(k as nat);
    assert(0 <= q * pow2(k as nat) < (q + 1) * pow2(k as nat)) by (nonlinear_arith)
        requires
            0 <= q,
            pow2(k as nat) > 0,
    ;
}

/// Larger patterns are larger numbers.
pub proof fn lemma_scaled_increases(a: int, b: int)
    requires
        0 <= a < b,
    ensures
        0 <= scaled(a) < scaled(b),
    decreases b - a,
{
    lemma_scaled_step(a);
    if a + 1 < b {
        lemma_scaled_increases(a + 1, b);
    }
}

/// At most one pattern is nearest to a given magnitude.
pub proof fn lemma_nearest_unique(m1: int, m2: int, n: int, d: int)
    requires
        d > 0,
        is_nearest(m1, n, d),
        is_nearest(m2, n, d),
    ensures
        m1 == m2,
{
    lemma_nearest_not_below(m1, m2, n, d);
    lemma_nearest_not_below(m2, m1, n, d);
}

proof fn lemma_nearest_not_below(m1: int, m2: int, n: int, d: int)
    requires
        d > 0,
        is_nearest(m1, n, d),
        is_nearest(m2, n, d),
    ensures
        m2 <= m1,
{
    let high = scaled(m1) + scaled(m1 + 1);
    let low = scaled(m2 - 1) + scaled(m2);
    if m1 + 1 < m2 {
        lemma_scaled_increases(m1, m2 - 1);
        lemma_scaled_increases(m1 + 1, m2);
        assert(d * high < d * low) by (nonlinear_arith)
            requires
                d > 0,
                high < low,
        ;
    }
}

// ── Rounding ────────────────────────────────────────────────────────────────

/// `2^e` for a non-negative exponent, and 1 otherwise: the factor on the numerator side.
spec fn up_factor(e: int) -> int {
    if e >= 0 {
        pow2(e as nat) as int
    } else {
        1
    }
}

/// `2^-e` for a negative exponent, and 1 otherwise: the factor on the other side.
spec fn down_factor(e: int) -> int {
    if e < 0 {
        pow2((-e) as nat) as int
    } else {
        1
    }
}

/// Whether the magnitude `n / d` lies in `[mant, mant + 1) * 2^e`, at its lower end
/// exactly when `sticky` is false.
spec fn brackets(n: int, d: int, mant: int, e: int, sticky: bool) -> bool {
    let low = d * mant * up_factor(e);
    let x = n * down_factor(e);
    &&& low <= x
    &&& x < d * (mant + 1) * up_factor(e)
    &&& sticky <==> x != low
}

/// Moving the unit from `2^e` to `2^k`: where `mant` splits into `q * 2^s + rem`, twice
/// the magnitude compares with the midpoint `2 * q + 1` as `rem` does with half of `2^s`.
proof fn lemma_split(n: int, d: int, mant: int, e: int, sticky: bool, k: int, q: int, rem: int)
    requires
        d > 0,
        k >= 0,
        k > e,
        brackets(n, d, mant, e, sticky),
        mant == q * pow2((k - e) as nat) + rem,
        0 <= rem < pow2((k - e) as nat),
    ensures
        2 * d * q * pow2(k as nat) <= 2 * n < 2 * d * (q + 1) * pow2(k as nat),
        2 * rem < pow2((k - e) as nat) ==> 2 * n < d * (2 * q + 1) * pow2(k as nat),
        2 * rem == pow2((k - e) as nat) && !sticky ==> 2 * n == d * (2 * q + 1) * pow2(k as nat),
        2 * rem == pow2((k - e) as nat) && sticky ==> 2 * n > d * (2 * q + 1) * pow2(k as nat),
        2 * rem > pow2((k - e) as nat) ==> 2 * n > d * (2 * q + 1) * pow2(k as nat),
{
    let t = pow2((k - e) as nat) as int;
    let h = pow2((k - e - 1) as nat) as int;
    let p = pow2(k as nat) as int;
    let a = up_factor(e);
    let b = down_factor(e);
    lemma_pow2_unfold((k - e) as nat);
    lemma_pow2_pos((k - e - 1) as nat);
    lemma_pow2_pos(k as nat);
    assert(a > 0 && b > 0 && p * b == t * a) by {
        if e >= 0 {
            lemma_pow2_pos(e as nat);
            lemma_pow2_adds((k - e) as nat, e as nat);
        } else {
            lemma_pow2_pos((-e) as nat);
            lemma_pow2_adds(k as nat, (-e) as nat);
        }
    }
    // Everything is compared after multiplying by `b` and dividing by `a`.
    let da = d * a;
    let x = n * b;
    assert(da > 0) by (nonlinear_arith)
        requires
            d > 0,
            a > 0,
            da == d * a,
    ;
    assert(d * mant * a == da * (q * t) + da * rem && d * (mant + 1) * a == da * (q * t) + da * rem
        + da) by (nonlinear_arith)
        requires
            mant == q * t + rem,
            da == d * a,
    ;
    assert(da * (q * t) + da * t == da * ((q + 1) * t)) by (nonlinear_arith);
    assert(da * rem + da <= da * t) by (nonlinear_arith)
        requires
            da > 0,
            rem + 1 <= t,
    ;
    assert(da * rem >= 0) by (nonlinear_arith)
        requires
            da > 0,
            rem >= 0,
    ;
    assert(da * t == 2 * (da * h)) by (nonlinear_arith)
        requires
            t == 2 * h,
    ;
    if rem < h {
        assert(da * rem + da <= da * h) by (nonlinear_arith)
            requires
                da > 0,
                rem + 1 <= h,
        ;
    }
    if rem > h {
        assert(da * rem >= da * h + da) by (nonlinear_arith)
            requires
                da > 0,
                rem >= h + 1,
        ;
    }
    let base = 2 * d * q * p;
    let mid = d * (2 * q + 1) * p;
    let top = 2 * d * (q + 1) * p;
    lemma_regroup(2 * d * q, p, b, t, a);
    lemma_regroup(d * (2 * q + 1), p, b, t, a);
    lemma_regroup(2 * d * (q + 1), p, b, t, a);
    assert((2 * d * q) * (t * a) == 2 * (da * (q * t))) by (nonlinear_arith)
        requires
            da == d * a,
    ;
    assert((d * (2 * q + 1)) * (t * a) == 2 * (da * (q * t)) + da * t) by (nonlinear_arith)
        requires
            da == d * a,
    ;
    assert((2 * d * (q + 1)) * (t * a) == 2 * (da * ((q + 1) * t))) by (nonlinear_arith)
        requires
            da == d * a,
    ;
    assert((2 * n) * b == 2 * x) by (nonlinear_arith)
        requires
            x == n * b,
    ;
    lemma_cancel(base, 2 * n, b);
    lemma_cancel(2 * n, base, b);
    lemma_cancel(mid, 2 * n, b);
    lemma_cancel(2 * n, mid, b);
    lemma_cancel(top, 2 * n, b);
    lemma_cancel(2 * n, top, b);
}

proof fn lemma_regroup(x: int, p: int, b: int, t: int, a: int)
    requires
        p * b == t * a,
    ensures
        (x * p) * b == x * (t * a),
{
    assert((x * p) * b == x * (p * b)) by (nonlinear_arith);
}

proof fn lemma_cancel(x: int, y: int, b: int)
    requires
        b > 0,
    ensures
        x * b <= y * b ==> x <= y,
        x * b < y * b ==> x < y,
        x * b == y * b ==> x == y,
{
    if x >= y {
        assert(x * b >= y * b) by (nonlinear_arith)
            requires
                x >= y,
                b > 0,
        ;
    }
    if x > y {
        assert(x * b > y * b) by (nonlinear_arith)
            requires
                x > y,
                b > 0,
        ;
    }
    if x < y {
        assert(x * b < y * b) by (nonlinear_arith)
            requires
                x < y,
                b > 0,
        ;
    }
}

/// Rounding a magnitude down to its significand gives the nearest pattern.
proof fn lemma_round_down(n: int, d: int, k: int, q: int)
    requires
        d > 0,
        0 <= k <= 2045,
        0 <= q < 2 * HIDDEN_BIT,
        k > 0 ==> q >= HIDDEN_BIT,
        2 * d * q * pow2(k as nat) <= 2 * n,
        2 * n < d * (2 * q + 1) * pow2(k as nat) || (2 * n == d * (2 * q + 1) * pow2(k as nat) && q % 2
            == 0),
    ensures
        is_nearest(k * HIDDEN_BIT + q, n, d),
{
    let m = k * HIDDEN_BIT + q;
    let p = pow2(k as nat) as int;
    lemma_scaled_layout(k, q);
    lemma_scaled_layout(k, q + 1);
    assert(d * (q * p + (q + 1) * p) == d * (2 * q + 1) * p) by (nonlinear_arith);
    if m > 0 {
        lemma_scaled_increases(m - 1, m);
        assert(d * (scaled(m - 1) + q * p) < 2 * d * q * p) by (nonlinear_arith)
            requires
                d > 0,
                scaled(m - 1) < q * p,
        ;
    }
}

/// Rounding a magnitude up past its midpoint gives the nearest pattern.
proof fn lemma_round_up(n: int, d: int, k: int, q: int)
    requires
        d > 0,
        0 <= k <= 2045,
        0 <= q < 2 * HIDDEN_BIT,
        k > 0 ==> q >= HIDDEN_BIT,
        2 * n < 2 * d * (q + 1) * pow2(k as nat),
        2 * n > d * (2 * q + 1) * pow2(k as nat) || (2 * n == d * (2 * q + 1) * pow2(k as nat) && q % 2
            == 1),
    ensures
        is_nearest(k * HIDDEN_BIT + q + 1, n, d),
{
    let m = k * HIDDEN_BIT + q + 1;
    let p = pow2(k as nat) as int;
    lemma_scaled_layout(k, q);
    lemma_scaled_layout(k, q + 1);
    assert(d * (q * p + (q + 1) * p) == d * (2 * q + 1) * p) by (nonlinear_arith);
    lemma_scaled_increases(m, m + 1);
    assert(d * ((q + 1) * p + scaled(m + 1)) > 2 * d * (q + 1) * p) by (nonlinear_arith)
        requires
            d > 0,
            scaled(m + 1) > (q + 1) * p,
    ;
}

/// A magnitude at or beyond `2^2098` overflows.
proof fn lemma_overflow(n: int, d: int, k: int, q: int)
    requires
        d > 0,
        k >= 2046,
        q >= HIDDEN_BIT,
        2 * d * q * pow2(k as nat) <= 2 * n,
    ensures
        is_nearest(INFINITY_BITS as int, n, d),
{
    let top = pow2(2046) as int;
    let p = pow2(k as nat) as int;
    let m = INFINITY_BITS as int;
    lemma_scaled_layout(2046, HIDDEN_BIT as int);
    lemma_scaled_increases(m - 1, m);
    if k > 2046 {
        lemma_pow2_strictly_increases(2046, k as nat);
    }
    lemma_pow2_pos(2046);
    assert(HIDDEN_BIT * top <= q * p) by (nonlinear_arith)
        requires
            0 < HIDDEN_BIT <= q,
            0 < top <= p,
    ;
    assert(d * (scaled(m - 1) + scaled(m)) < 2 * d * q * p) by (nonlinear_arith)
        requires
            d > 0,
            scaled(m - 1) < scaled(m),
            scaled(m) <= q * p,
    ;
}

/// `2^s` for a small exponent.
fn power_of_two(s: u32) -> (r: u128)
    requires
        s <= 126,
    ensures
        r == pow2(s as nat),
{
    let mut r: u128 = 1;
    let mut i: u32 = 0;
    proof {
        lemma2_to64();
    }
    while i < s
        invariant
            i <= s <= 126,
            r == pow2(i as nat),
        decreases s - i,
    {
        proof {
            lemma_pow2_unfold((i + 1) as nat);
            lemma_pow2_126(i as nat);
        }
        r = r * 2;
        i = i + 1;
    }
    r
}

proof fn lemma_pow2_126(i: nat)
    requires
        i <= 126,
    ensures
        pow2(i) <= 0x4000_0000_0000_0000_0000_0000_0000_0000,
{
    lemma2_to64();
    lemma2_to64_rest();
    lemma_pow2_adds(63, 63);
    if i < 126 {
        lemma_pow2_strictly_increases(i, 126);
    }
}

/// The number of significant bits of `mant`.
fn bit_length(mant: u128) -> (len: u32)
    requires
        mant > 0,
    ensures
        0 < len <= 128,
        pow2((len - 1) as nat) <= mant < pow2(len as nat),
{
    let mut len: u32 = 1;
    let mut rest: u128 = mant;
    proof {
        lemma2_to64();
        assert(pow2(0) * mant == mant && pow2(0) * (mant + 1) == mant + 1) by (nonlinear_arith)
            requires
                pow2(0) == 1,
        ;
    }
    while rest > 1
        invariant
            0 < len <= 128,
            rest > 0,
            pow2((len - 1) as nat) * rest <= mant < pow2((len - 1) as nat) * (rest + 1),
        decreases rest,
    {
        let half: u128 = rest / 2;
        proof {
            let p = pow2((len - 1) as nat) as int;
            lemma_pow2_unfold(len as nat);
            lemma_pow2_pos((len - 1) as nat);
            assert((2 * p) * half <= p * rest && p * (rest + 1) <= (2 * p) * (half + 1))
                by (nonlinear_arith)
                requires
                    2 * half <= rest <= 2 * half + 1,
                    p > 0,
            ;
            if len >= 128 {
                lemma2_to64_rest();
                lemma_pow2_adds(64, 64);
                lemma_pow2_unfold(128);
                assert(p * rest >= p * 2) by (nonlinear_arith)
                    requires
                        rest >= 2,
                        p > 0,
                ;
            }
        }
        rest = half;
        len = len + 1;
    }
    proof {
        let p = pow2((len - 1) as nat) as int;
        lemma_pow2_unfold(len as nat);
        assert(p * rest == p && p * (rest + 1) == 2 * p) by (nonlinear_arith)
            requires
                rest == 1,
        ;
    }
    len
}

/// Rounds the magnitude `n / d`, bracketed by `mant` at unit `2^e`, to its nearest pattern.
fn round(mant: u128, e: i32, sticky: bool, Ghost(n): Ghost<int>, Ghost(d): Ghost<int>) -> (m: u64)
    requires
        0 < mant < pow2(124),
        -5000 <= e <= 5000,
        sticky ==> mant >= pow2(56),
        d > 0,
        brackets(n, d, mant as int, e as int, sticky),
    ensures
        is_nearest(m as int, n, d),
{
    proof {
        lemma2_to64();
        lemma2_to64_rest();
    }
    let len = bit_length(mant);
    assert(len <= 124) by {
        if len > 124 {
            if len - 1 > 124 {
                lemma_pow2_strictly_increases(124, (len - 1) as nat);
            }
        }
    }
    assert(sticky ==> len >= 57) by {
        if sticky && len < 57 {
            if len < 56 {
                lemma_pow2_strictly_increases(len as nat, 56);
            }
        }
    }
    let lead: i32 = len as i32 - 53 + e;
    let k: i32 = if lead > 0 {
        lead
    } else {
        0
    };
    let s: i32 = k - e;
    if s <= 0 {
        // The significand fits without rounding.
        let shift: u32 = (-s) as u32;
        assert(shift <= 52 && len + shift <= 53) by {
            if k > 0 {
                assert(s == len - 53);
            }
        }
        let factor = power_of_two(shift);
        proof {
            lemma_pow2_adds(len as nat, shift as nat);
            lemma_pow2_adds((len - 1) as nat, shift as nat);
            lemma_pow2_pos(shift as nat);
            assert(pow2((len - 1) as nat) * factor <= mant * factor < pow2(len as nat) * factor)
                by (nonlinear_arith)
                requires
                    pow2((len - 1) as nat) <= mant < pow2(len as nat),
                    factor > 0,
            ;
            if len + shift < 53 {
                lemma_pow2_strictly_increases((len + shift) as nat, 53);
            }
        }
        let q: u128 = mant * factor;
        proof {
            let p = pow2(k as nat) as int;
            lemma_pow2_adds(k as nat, shift as nat);
            assert(e == k + shift);
            lemma_pow2_pos(k as nat);
            assert(2 * n == 2 * d * q * p) by (nonlinear_arith)
                requires
                    n * 1 == d * mant * (p * factor),
                    q == mant * factor,
            ;
            assert(2 * n < d * (2 * q + 1) * p) by (nonlinear_arith)
                requires
                    2 * n == 2 * d * q * p,
                    d > 0,
                    p > 0,
            ;
        }
        if k > 2045 {
            proof {
                lemma_overflow(n, d, k as int, q as int);
            }
            return INFINITY_BITS;
        }
        proof {
            lemma_round_down(n, d, k as int, q as int);
        }
        return k as u64 * HIDDEN_BIT + q as u64;
    }
    if s >= 126 {
        // Far below half of the smallest subnormal.
        proof {
            assert(k == 0);
            lemma_pow2_strictly_increases(124, s as nat);
            lemma_pow2_unfold(s as nat);
            lemma_pow2_strictly_increases(124, (s - 1) as nat);
            assert(0 * pow2(s as nat) + mant == mant);
            lemma_split(n, d, mant as int, e as int, sticky, 0, 0, mant as int);
            lemma_round_down(n, d, 0, 0);
        }
        return 0;
    }
    let t = power_of_two(s as u32);
    proof {
        lemma_pow2_pos(s as nat);
        lemma_pow2_unfold(s as nat);
    }
    let q: u128 = mant / t;
    let rem: u128 = mant % t;
    proof {
        assert(mant == q * t + rem) by {
            vstd::arithmetic::div_mod::lemma_fundamental_div_mod(mant as int, t as int);
            assert(t * q == q * t) by (nonlinear_arith);
        }
        // The quotient has at most 53 bits, and exactly 53 above the subnormal range.
        lemma_significand(mant as int, len as int, s as int, q as int, rem as int);
        if k > 0 {
            assert(len - s == 53);
        }
        if len - s < 53 && len - s > 0 {
            lemma_pow2_strictly_increases((len - s) as nat, 53);
        }
        lemma_split(n, d, mant as int, e as int, sticky, k as int, q as int, rem as int);
    }
    if k > 2045 {
        proof {
            lemma_overflow(n, d, k as int, q as int);
        }
        return INFINITY_BITS;
    }
    let half: u128 = t / 2;
    if rem > half || (rem == half && (sticky || q % 2 == 1)) {
        proof {
            lemma_round_up(n, d, k as int, q as int);
        }
        k as u64 * HIDDEN_BIT + q as u64 + 1
    } else {
        proof {
            lemma_round_down(n, d, k as int, q as int);
        }
        k as u64 * HIDDEN_BIT + q as u64
    }
}

/// Dropping the low `s` bits of a `len`-bit number leaves `len - s` bits.
proof fn lemma_significand(mant: int, len: int, s: int, q: int, rem: int)
    requires
        0 < s,
        0 < len,
        pow2((len - 1) as nat) <= mant < pow2(len as nat),
        0 <= q,
        mant == q * pow2(s as nat) + rem,
        0 <= rem < pow2(s as nat),
    ensures
        len <= s ==> q == 0,
        len > s ==> pow2((len - s - 1) as nat) <= q < pow2((len - s) as nat),
{
    let t = pow2(s as nat) as int;
    lemma_pow2_pos(s as nat);
    if len <= s {
        if len < s {
            lemma_pow2_strictly_increases(len as nat, s as nat);
        }
        if q >= 1 {
            assert(q * t >= t) by (nonlinear_arith)
                requires
                    q >= 1,
                    t > 0,
            ;
        }
    } else {
        lemma_pow2_adds((len - s) as nat, s as nat);
        lemma_pow2_adds((len - s - 1) as nat, s as nat);
        let high = pow2((len - s) as nat) as int;
        let low = pow2((len - s - 1) as nat) as int;
        if q >= high {
            assert(q * t >= high * t) by (nonlinear_arith)
                requires
                    q >= high,
                    t > 0,
            ;
        }
        if q < low {
            assert(q * t + t <= low * t) by (nonlinear_arith)
                requires
                    q + 1 <= low,
                    t > 0,
            ;
        }
    }
}

// ── Comparison and arithmetic ───────────────────────────────────────────────

/// A finite pattern as a significand and a unit exponent.
fn significand(m: u64) -> (r: (u64, i32))
    requires
        m < INFINITY_BITS,
    ensures
        0 <= r.1 <= 2045,
        r.0 < 2 * HIDDEN_BIT,
        r.1 > 0 ==> r.0 >= HIDDEN_BIT,
        r.0 == 0 <==> m == 0,
        scaled(m as int) == r.0 * pow2(r.1 as nat),
{
    let exponent: u64 = m / HIDDEN_BIT;
    let fraction: u64 = m % HIDDEN_BIT;
    proof {
        lemma2_to64();
        assert(fraction * pow2(0) == fraction) by (nonlinear_arith)
            requires
                pow2(0) == 1,
        ;
    }
    if exponent == 0 {
        (fraction, 0)
    } else {
        (HIDDEN_BIT + fraction, (exponent - 1) as i32)
    }
}

proof fn lemma_rounded(m: int, n: int, d: int)
    requires
        d > 0,
        is_nearest(m, n, d),
    ensures
        nearest(n, d) == m,
{
    lemma_nearest_unique(nearest(n, d), m, n, d);
}

/// The number with the given sign and sign-free pattern.
fn with_sign(negative: bool, m: u64) -> (r: Binary64)
    requires
        m < SIGN_BIT,
    ensures
        r == signed(negative, m as int),
{
    if negative {
        Binary64 { bits: m + SIGN_BIT }
    } else {
        Binary64 { bits: m }
    }
}

/// An exact integer magnitude brackets itself.
proof fn lemma_brackets_exact(n: int, d: int, mant: int, e: int)
    requires
        d > 0,
        n * down_factor(e) == d * mant * up_factor(e),
    ensures
        brackets(n, d, mant, e, false),
{
    let a = up_factor(e);
    assert(a > 0) by {
        if e >= 0 {
            lemma_pow2_pos(e as nat);
        }
    }
    assert(d * mant * a < d * (mant + 1) * a) by (nonlinear_arith)
        requires
            d > 0,
            a > 0,
    ;
}

impl Binary64 {
    fn magnitude_bits(self) -> (m: u64)
        ensures
            m == self.magnitude(),
    {
        self.bits % SIGN_BIT
    }

    fn sign(self) -> (b: bool)
        ensures
            b == self.negative(),
    {
        self.bits >= SIGN_BIT
    }

    /// Whether this is not a number.
    pub fn is_nan(self) -> (b: bool)
        ensures
            b == self.nan(),
    {
        self.magnitude_bits() > INFINITY_BITS
    }

    /// Whether this is a finite number.
    pub fn is_finite(self) -> (b: bool)
        ensures
            b == self.finite(),
    {
        self.magnitude_bits() < INFINITY_BITS
    }

    /// `self < other`; false when either is NaN.
    pub fn lt(self, other: Binary64) -> (b: bool)
        ensures
            b == self.less(other),
    {
        let m1 = self.magnitude_bits();
        let m2 = other.magnitude_bits();
        proof {
            lemma_zero();
            if m1 > 0 {
                lemma_scaled_increases(0, m1 as int);
            }
            if m2 > 0 {
                lemma_scaled_increases(0, m2 as int);
            }
            if m1 < m2 {
                lemma_scaled_increases(m1 as int, m2 as int);
            }
            if m2 < m1 {
                lemma_scaled_increases(m2 as int, m1 as int);
            }
        }
        if m1 > INFINITY_BITS || m2 > INFINITY_BITS {
            false
        } else if self.sign() {
            if other.sign() {
                m1 > m2
            } else {
                m1 > 0 || m2 > 0
            }
        } else if other.sign() {
            false
        } else {
            m1 < m2
        }
    }

    /// `self <= other`; false when either is NaN.
    pub fn le(self, other: Binary64) -> (b: bool)
        ensures
            b == self.at_most(other),
    {
        !self.is_nan() && !other.is_nan() && !other.lt(self)
    }

    /// `-self`.
    pub fn neg(self) -> (r: Binary64)
        ensures
            r == self.negation(),
    {
        with_sign(!self.sign(), self.magnitude_bits())
    }

    /// `self + other`.
    pub fn add(self, other: Binary64) -> (r: Binary64)
        ensures
            r == self.plus(other),
    {
        let m1 = self.magnitude_bits();
        let m2 = other.magnitude_bits();
        if m1 > INFINITY_BITS || m2 > INFINITY_BITS {
            return Binary64 { bits: NAN_BITS };
        }
        if m1 == INFINITY_BITS {
            if m2 == INFINITY_BITS && self.sign() != other.sign() {
                return Binary64 { bits: NAN_BITS };
            }
            return self;
        }
        if m2 == INFINITY_BITS {
            return other;
        }
        let r1 = significand(m1);
        let r2 = significand(m2);
        if r1.1 >= r2.1 {
            add_finite(self.sign(), r1.0, r1.1, other.sign(), r2.0, r2.1)
        } else {
            add_finite(other.sign(), r2.0, r2.1, self.sign(), r1.0, r1.1)
        }
    }

    /// `self - other`.
    pub fn sub(self, other: Binary64) -> (r: Binary64)
        ensures
            r == self.minus(other),
    {
        self.add(other.neg())
    }
}

proof fn lemma_zero()
    ensures
        scaled(0) == 0,
{
}

/// `s1 * 2^e1` with its sign.
spec fn term(negative: bool, s: int, e: int) -> int {
    if negative {
        -(s * pow2(e as nat))
    } else {
        s * pow2(e as nat)
    }
}

/// Adds two finite numbers given by sign, significand, and unit exponent, the first
/// having the larger exponent.
fn add_finite(n1: bool, s1: u64, e1: i32, n2: bool, s2: u64, e2: i32) -> (r: Binary64)
    requires
        0 <= e2 <= e1 <= 2045,
        s1 < 2 * HIDDEN_BIT,
        s2 < 2 * HIDDEN_BIT,
        e1 > 0 ==> s1 >= HIDDEN_BIT,
    ensures
        ({
            let exact = term(n1, s1 as int, e1 as int) + term(n2, s2 as int, e2 as int);
            r == if exact == 0 {
                signed(n1 && n2, 0)
            } else {
                signed(exact < 0, nearest(magnitude_of(exact), 1))
            }
        }),
{
    let ghost exact = term(n1, s1 as int, e1 as int) + term(n2, s2 as int, e2 as int);
    let gap: i32 = e1 - e2;
    proof {
        lemma2_to64();
        lemma2_to64_rest();
        lemma_pow2_pos(e2 as nat);
        lemma_pow2_pos(e1 as nat);
        lemma_pow2_adds(e2 as nat, gap as nat);
    }
    if gap <= 70 {
        let factor = power_of_two(gap as u32);
        proof {
            lemma_pow2_pos(gap as nat);
            lemma_pow2_adds(53, gap as nat);
            lemma_pow2_adds(63, 60);
            lemma_pow2_unfold(124);
            if gap < 70 {
                lemma_pow2_strictly_increases((53 + gap) as nat, 123);
            }
            assert(0 <= s1 * factor < pow2(53) * factor) by (nonlinear_arith)
                requires
                    s1 < pow2(53),
                    factor > 0,
            ;
            lemma_pow2_strictly_increases(53, 123);
        }
        let wide: u128 = s1 as u128 * factor;
        let narrow: u128 = s2 as u128;
        let ghost p = pow2(e2 as nat) as int;
        proof {
            assert(s1 * pow2(e1 as nat) == wide * p) by (nonlinear_arith)
                requires
                    wide == s1 * factor,
                    pow2(e1 as nat) == p * factor,
            ;
            assert((wide + narrow) * p == wide * p + narrow * p && (wide - narrow) * p == wide * p
                - narrow * p && (narrow - wide) * p == narrow * p - wide * p) by (nonlinear_arith);
        }
        if n1 == n2 {
            let sum: u128 = wide + narrow;
            finish_sum(n1, n1, sum, e2, Ghost(exact))
        } else if wide >= narrow {
            finish_sum(n1, false, wide - narrow, e2, Ghost(exact))
        } else {
            finish_sum(n2, false, narrow - wide, e2, Ghost(exact))
        }
    } else {
        // The second term lies wholly below the first one's last place.
        let wide: u128 = s1 as u128 * 0x2_0000;
        let ghost unit = pow2((e1 - 17) as nat) as int;
        let ghost small = s2 * pow2(e2 as nat);
        proof {
            lemma_pow2_adds(17, (e1 - 17) as nat);
            lemma_pow2_adds(7, 63);
            lemma_pow2_pos((e1 - 17) as nat);
            lemma_pow2_strictly_increases(56, 69);
            lemma_pow2_strictly_increases(70, 124);
            lemma_pow2_adds(6, 63);
            lemma_small_term(s2 as int, e1 as int, e2 as int);
            assert(s1 * pow2(e1 as nat) == wide * unit) by (nonlinear_arith)
                requires
                    wide == s1 * 0x2_0000,
                    pow2(e1 as nat) == 0x2_0000 * unit,
            ;
            assert((wide + 1) * unit == wide * unit + unit && (wide - 1) * unit == wide * unit - unit)
                by (nonlinear_arith);
            assert(1 * wide * unit == wide * unit && 1 * (wide + 1) * unit == (wide + 1) * unit && 1 * (
            wide - 1) * unit == (wide - 1) * unit && magnitude_of(exact) * 1 == magnitude_of(exact));
            assert(wide * unit >= 2 * unit) by (nonlinear_arith)
                requires
                    wide >= 2,
                    unit > 0,
            ;
        }
        let m: u64 = if n1 == n2 {
            round(wide, e1 - 17, s2 > 0, Ghost(magnitude_of(exact)), Ghost(1int))
        } else if s2 == 0 {
            round(wide, e1 - 17, false, Ghost(magnitude_of(exact)), Ghost(1int))
        } else {
            round(wide - 1, e1 - 17, true, Ghost(magnitude_of(exact)), Ghost(1int))
        };
        proof {
            lemma_rounded(m as int, magnitude_of(exact), 1);
        }
        with_sign(n1, m)
    }
}

/// A 53-bit term more than 70 places down is less than `2^(e1 - 17)`.
proof fn lemma_small_term(s2: int, e1: int, e2: int)
    requires
        0 <= e2,
        e1 - e2 > 70,
        0 <= s2 < 2 * HIDDEN_BIT,
    ensures
        0 <= s2 * pow2(e2 as nat) < pow2((e1 - 17) as nat),
        s2 == 0 <==> s2 * pow2(e2 as nat) == 0,
{
    let p = pow2(e2 as nat) as int;
    lemma2_to64_rest();
    lemma_pow2_pos(e2 as nat);
    lemma_pow2_adds(53, e2 as nat);
    lemma_pow2_strictly_increases((53 + e2) as nat, (e1 - 17) as nat);
    assert(0 <= s2 * p <= pow2(53) * p && (s2 > 0 ==> s2 * p > 0)) by (nonlinear_arith)
        requires
            0 <= s2 <= pow2(53),
            p > 0,
    ;
}

/// Rounds an exact sum `± mant * 2^e`; a zero sum takes the sign `zero_negative`.
fn finish_sum(negative: bool, zero_negative: bool, mant: u128, e: i32, Ghost(exact): Ghost<int>) -> (r:
    Binary64)
    requires
        mant < pow2(124),
        0 <= e <= 2045,
        exact == term(negative, mant as int, e as int),
    ensures
        r == if exact == 0 {
            signed(zero_negative, 0)
        } else {
            signed(exact < 0, nearest(magnitude_of(exact), 1))
        },
{
    let ghost p = pow2(e as nat) as int;
    proof {
        lemma_pow2_pos(e as nat);
        assert(mant > 0 ==> mant * p > 0) by (nonlinear_arith)
            requires
                p > 0,
        ;
        assert(mant == 0 ==> mant * p == 0) by (nonlinear_arith);
    }
    if mant == 0 {
        return with_sign(zero_negative, 0);
    }
    proof {
        assert(magnitude_of(exact) * 1 == 1 * mant * p);
        lemma_brackets_exact(magnitude_of(exact), 1, mant as int, e as int);
    }
    let m = round(mant, e, false, Ghost(magnitude_of(exact)), Ghost(1int));
    proof {
        lemma_rounded(m as int, magnitude_of(exact), 1);
    }
    with_sign(negative, m)
}

impl Binary64 {
    /// `self * other`.
    pub fn mul(self, other: Binary64) -> (r: Binary64)
        ensures
            r == self.times(other),
    {
        let m1 = self.magnitude_bits();
        let m2 = other.magnitude_bits();
        let negative = self.sign() != other.sign();
        if m1 > INFINITY_BITS || m2 > INFINITY_BITS {
            return Binary64 { bits: NAN_BITS };
        }
        if m1 == INFINITY_BITS || m2 == INFINITY_BITS {
            if m1 == 0 || m2 == 0 {
                return Binary64 { bits: NAN_BITS };
            }
            return with_sign(negative, INFINITY_BITS);
        }
        let r1 = significand(m1);
        let r2 = significand(m2);
        let m = mul_finite(r1.0, r1.1, r2.0, r2.1);
        with_sign(negative, m)
    }

    /// `self / other`.
    pub fn div(self, other: Binary64) -> (r: Binary64)
        ensures
            r == self.over(other),
    {
        let m1 = self.magnitude_bits();
        let m2 = other.magnitude_bits();
        let negative = self.sign() != other.sign();
        if m1 > INFINITY_BITS || m2 > INFINITY_BITS {
            return Binary64 { bits: NAN_BITS };
        }
        if m1 == INFINITY_BITS {
            if m2 == INFINITY_BITS {
                return Binary64 { bits: NAN_BITS };
            }
            return with_sign(negative, INFINITY_BITS);
        }
        if m2 == INFINITY_BITS {
            return with_sign(negative, 0);
        }
        if m2 == 0 {
            if m1 == 0 {
                return Binary64 { bits: NAN_BITS };
            }
            return with_sign(negative, INFINITY_BITS);
        }
        let r1 = significand(m1);
        let r2 = significand(m2);
        let m = div_finite(r1.0, r1.1, r2.0, r2.1);
        with_sign(negative, m)
    }
}

/// Nothing rounds to zero.
proof fn lemma_nearest_zero(d: int)
    requires
        d > 0,
    ensures
        nearest(0, d) == 0,
{
    lemma_scaled_increases(0, 1);
    assert(d * (scaled(0) + scaled(1)) > 0) by (nonlinear_arith)
        requires
            d > 0,
            scaled(0) + scaled(1) > 0,
    ;
    lemma_rounded(0, 0, d);
}

/// The nearest pattern to the product of two finite magnitudes.
fn mul_finite(s1: u64, e1: i32, s2: u64, e2: i32) -> (m: u64)
    requires
        0 <= e1 <= 2045,
        0 <= e2 <= 2045,
        s1 < 2 * HIDDEN_BIT,
        s2 < 2 * HIDDEN_BIT,
    ensures
        m <= INFINITY_BITS,
        m == nearest((s1 * pow2(e1 as nat)) * (s2 * pow2(e2 as nat)), pow2(1074) as int),
{
    let ghost p1 = pow2(e1 as nat) as int;
    let ghost p2 = pow2(e2 as nat) as int;
    let ghost n = (s1 * p1) * (s2 * p2);
    let ghost d = pow2(1074) as int;
    proof {
        lemma_pow2_pos(1074);
        lemma2_to64();
        lemma2_to64_rest();
        lemma_pow2_adds(53, 53);
        lemma_pow2_strictly_increases(106, 124);
        assert(0 <= s1 * s2 < pow2(53) * pow2(53)) by (nonlinear_arith)
            requires
                0 <= s1 < pow2(53),
                0 <= s2 < pow2(53),
        ;
        lemma_pow2_126(106);
        assert((s1 * p1) * (s2 * p2) == (s1 * s2) * (p1 * p2)) by (nonlinear_arith);
    }
    let mant: u128 = s1 as u128 * s2 as u128;
    if mant == 0 {
        proof {
            assert((s1 * s2) * (p1 * p2) == 0) by (nonlinear_arith)
                requires
                    s1 * s2 == 0,
            ;
            lemma_nearest_zero(d);
        }
        return 0;
    }
    let e: i32 = e1 + e2 - 1074;
    proof {
        let a = up_factor(e as int);
        let b = down_factor(e as int);
        lemma_pow2_adds(e1 as nat, e2 as nat);
        assert(p1 * p2 * b == d * a) by {
            if e >= 0 {
                lemma_pow2_adds(1074, e as nat);
            } else {
                lemma_pow2_adds((e1 + e2) as nat, (-e) as nat);
            }
        }
        assert(n * b == d * mant * a) by (nonlinear_arith)
            requires
                n == mant * (p1 * p2),
                p1 * p2 * b == d * a,
        ;
        lemma_brackets_exact(n, d, mant as int, e as int);
    }
    let m = round(mant, e, false, Ghost(n), Ghost(d));
    proof {
        lemma_rounded(m as int, n, d);
    }
    m
}

/// The nearest pattern to the quotient of two finite magnitudes.
fn div_finite(s1: u64, e1: i32, s2: u64, e2: i32) -> (m: u64)
    requires
        0 <= e1 <= 2045,
        0 <= e2 <= 2045,
        s1 < 2 * HIDDEN_BIT,
        0 < s2 < 2 * HIDDEN_BIT,
    ensures
        m <= INFINITY_BITS,
        m == nearest((s1 * pow2(e1 as nat)) * pow2(1074), s2 * pow2(e2 as nat)),
{
    let ghost n = (s1 * pow2(e1 as nat)) * pow2(1074);
    let ghost d = s2 * pow2(e2 as nat);
    proof {
        lemma_pow2_pos(e2 as nat);
        assert(d > 0) by (nonlinear_arith)
            requires
                d == s2 * pow2(e2 as nat),
                s2 > 0,
                pow2(e2 as nat) > 0,
        ;
        lemma2_to64();
        lemma2_to64_rest();
    }
    if s1 == 0 {
        proof {
            assert(n == 0) by (nonlinear_arith)
                requires
                    n == (s1 * pow2(e1 as nat)) * pow2(1074),
                    s1 == 0,
            ;
            lemma_nearest_zero(d);
        }
        return 0;
    }
    // Bring the dividend's leading bit up so that the quotient keeps enough places.
    let mut top: u64 = s1;
    let mut j: i32 = 0;
    proof {
        assert(s1 * pow2(0) == s1) by (nonlinear_arith)
            requires
                pow2(0) == 1,
        ;
    }
    while top < HIDDEN_BIT
        invariant
            s1 > 0,
            0 <= j <= 52,
            top < 2 * HIDDEN_BIT,
            top == s1 * pow2(j as nat),
            pow2(52) == HIDDEN_BIT,
        decreases 2 * HIDDEN_BIT - top,
    {
        proof {
            lemma_pow2_unfold((j + 1) as nat);
            lemma_pow2_pos(j as nat);
            assert(s1 * (2 * pow2(j as nat)) == 2 * (s1 * pow2(j as nat)) && s1 * pow2(j as nat)
                >= pow2(j as nat)) by (nonlinear_arith)
                requires
                    s1 >= 1,
                    pow2(j as nat) > 0,
            ;
        }
        top = top * 2;
        j = j + 1;
    }
    let ghost wide_int = top * pow2(70);
    proof {
        lemma_pow2_adds(63, 7);
        lemma_pow2_adds(52, 70);
        lemma_pow2_adds(53, 70);
        lemma_pow2_unfold(123);
        lemma_pow2_unfold(124);
        lemma_pow2_126(123);
        assert(pow2(52) * pow2(70) <= wide_int < pow2(53) * pow2(70)) by (nonlinear_arith)
            requires
                wide_int == top * pow2(70),
                pow2(52) <= top < pow2(53),
                pow2(70) > 0,
        ;
    }
    let wide: u128 = top as u128 * 0x40_0000_0000_0000_0000;
    let divisor: u128 = s2 as u128;
    let mant: u128 = wide / divisor;
    let rem: u128 = wide % divisor;
    let e: i32 = e1 - j - 70 - e2 + 1074;
    proof {
        vstd::arithmetic::div_mod::lemma_fundamental_div_mod(wide as int, divisor as int);
        lemma_pow2_adds(53, 69);
        lemma_pow2_strictly_increases(56, 69);
        if mant < pow2(69) {
            assert(divisor * mant + divisor <= pow2(53) * pow2(69)) by (nonlinear_arith)
                requires
                    0 < divisor <= pow2(53),
                    0 <= mant,
                    mant + 1 <= pow2(69),
            ;
        }
        assert(divisor * mant >= mant) by (nonlinear_arith)
            requires
                divisor >= 1,
                mant >= 0,
        ;
        lemma_quotient_brackets(
            s1 as int,
            e1 as int,
            s2 as int,
            e2 as int,
            j as int,
            wide as int,
            mant as int,
            rem as int,
        );
    }
    let m = round(mant, e, rem > 0, Ghost(n), Ghost(d));
    proof {
        lemma_rounded(m as int, n, d);
    }
    m
}

proof fn lemma_quotient_brackets(
    s1: int,
    e1: int,
    s2: int,
    e2: int,
    j: int,
    wide: int,
    mant: int,
    rem: int,
)
    requires
        0 <= e1,
        0 <= e2,
        0 <= j,
        s2 > 0,
        wide == (s1 * pow2(j as nat)) * pow2(70),
        wide == s2 * mant + rem,
        0 <= rem < s2,
    ensures
        brackets(
            (s1 * pow2(e1 as nat)) * pow2(1074),
            s2 * pow2(e2 as nat),
            mant,
            e1 - j - 70 - e2 + 1074,
            rem > 0,
        ),
{
    let e = e1 - j - 70 - e2 + 1074;
    let a = up_factor(e);
    let b = down_factor(e);
    let p1 = pow2(e1 as nat) as int;
    let p2 = pow2(e2 as nat) as int;
    let pj = pow2(j as nat) as int;
    let p70 = pow2(70) as int;
    let p1074 = pow2(1074) as int;
    lemma_pow2_pos(e2 as nat);
    lemma_pow2_adds(e1 as nat, 1074);
    lemma_pow2_adds(j as nat, 70);
    lemma_pow2_adds((j + 70) as nat, e2 as nat);
    assert(a > 0 && p1 * p1074 * b == (pj * p70) * p2 * a) by {
        if e >= 0 {
            lemma_pow2_pos(e as nat);
            lemma_pow2_adds((j + 70 + e2) as nat, e as nat);
        } else {
            lemma_pow2_adds((e1 + 1074) as nat, (-e) as nat);
        }
    }
    let w = p2 * a;
    assert(w > 0) by (nonlinear_arith)
        requires
            w == p2 * a,
            p2 > 0,
            a > 0,
    ;
    let x = (s1 * p1) * p1074 * b;
    assert(x == wide * w) by {
        assert((s1 * p1) * p1074 * b == s1 * (p1 * p1074 * b)) by (nonlinear_arith);
        assert(s1 * ((pj * p70) * p2 * a) == ((s1 * pj) * p70) * (p2 * a)) by (nonlinear_arith);
    }
    assert((s2 * p2) * mant * a == (s2 * mant) * w && (s2 * p2) * (mant + 1) * a == (s2 * mant) * w
        + s2 * w) by (nonlinear_arith)
        requires
            w == p2 * a,
    ;
    assert(wide * w == (s2 * mant) * w + rem * w) by (nonlinear_arith)
        requires
            wide == s2 * mant + rem,
    ;
    assert(0 <= rem * w < s2 * w && (rem > 0 ==> rem * w > 0) && (rem == 0 ==> rem * w == 0))
        by (nonlinear_arith)
        requires
            0 <= rem < s2,
            w > 0,
    ;
}

// ── Selection ───────────────────────────────────────────────────────────────

impl Binary64 {
    /// Whether this lies in the closed interval from `low` to `high`.
    pub open spec fn within(self, low: Binary64, high: Binary64) -> bool {
        low.at_most(self) && self.at_most(high)
    }

    /// `self` without its sign.
    pub open spec fn absolute(self) -> Binary64 {
        signed(false, self.magnitude())
    }

    /// The smaller of the two; the other one if one is NaN.
    pub open spec fn smaller(self, other: Binary64) -> Binary64 {
        if self.nan() || other.less(self) {
            other
        } else {
            self
        }
    }

    /// `self` moved into the interval from `low` to `high`; NaN stays NaN.
    pub open spec fn clamped(self, low: Binary64, high: Binary64) -> Binary64 {
        if self.less(low) {
            low
        } else if high.less(self) {
            high
        } else {
            self
        }
    }

    /// Whether `low <= self <= high`.
    pub fn is_within(self, low: Binary64, high: Binary64) -> (b: bool)
        ensures
            b == self.within(low, high),
    {
        low.le(self) && self.le(high)
    }

    /// `self` without its sign.
    pub fn abs(self) -> (r: Binary64)
        ensures
            r == self.absolute(),
    {
        Binary64 { bits: self.magnitude_bits() }
    }

    /// The smaller of the two; the other one if one is NaN.
    pub fn min(self, other: Binary64) -> (r: Binary64)
        ensures
            r == self.smaller(other),
    {
        if self.is_nan() || other.lt(self) {
            other
        } else {
            self
        }
    }

    /// `self` moved into the interval from `low` to `high`; NaN stays NaN.
    pub fn clamp(self, low: Binary64, high: Binary64) -> (r: Binary64)
        requires
            low.at_most(high),
        ensures
            r == self.clamped(low, high),
    {
        if self.lt(low) {
            low
        } else if high.lt(self) {
            high
        } else {
            self
        }
    }
}

// ── Order and rounding ──────────────────────────────────────────────────────

/// Whether the magnitude `n / d` rounds to the pattern `m` or a larger one.
spec fn reaches(m: int, n: int, d: int) -> bool {
    m == 0 || {
        let edge = d * (scaled(m - 1) + scaled(m));
        2 * n > edge || (2 * n == edge && m % 2 == 0)
    }
}

proof fn lemma_nearest_below(n: int, d: int, m: int)
    requires
        0 <= m <= INFINITY_BITS,
        m < INFINITY_BITS ==> !reaches(m + 1, n, d),
    ensures
        exists|k: int| is_nearest(k, n, d),
    decreases m,
{
    if reaches(m, n, d) {
        assert(is_nearest(m, n, d));
    } else {
        lemma_nearest_below(n, d, m - 1);
    }
}

/// Every magnitude has a nearest pattern.
pub proof fn lemma_nearest_exists(n: int, d: int)
    ensures
        is_nearest(nearest(n, d), n, d),
{
    lemma_nearest_below(n, d, INFINITY_BITS as int);
}

/// Rounding keeps the order of magnitudes.
pub proof fn lemma_nearest_monotone(n1: int, n2: int, d: int)
    requires
        d > 0,
        n1 <= n2,
    ensures
        nearest(n1, d) <= nearest(n2, d),
{
    lemma_nearest_exists(n1, d);
    lemma_nearest_exists(n2, d);
    let m1 = nearest(n1, d);
    let m2 = nearest(n2, d);
    if m2 < m1 {
        let low = scaled(m1 - 1) + scaled(m1);
        let high = scaled(m2) + scaled(m2 + 1);
        if m2 + 1 < m1 {
            lemma_scaled_increases(m2, m1 - 1);
            lemma_scaled_increases(m2 + 1, m1);
            assert(d * high < d * low) by (nonlinear_arith)
                requires
                    d > 0,
                    high < low,
            ;
        }
    }
}

/// A magnitude that is itself representable rounds to itself.
pub proof fn lemma_nearest_exact(m: int, d: int)
    requires
        d > 0,
        0 <= m <= INFINITY_BITS,
    ensures
        nearest(d * scaled(m), d) == m,
{
    let n = d * scaled(m);
    if m > 0 {
        lemma_scaled_step(m - 1);
        assert(2 * n > d * (scaled(m - 1) + scaled(m))) by (nonlinear_arith)
            requires
                d > 0,
                n == d * scaled(m),
                scaled(m - 1) < scaled(m),
        ;
    }
    lemma_scaled_step(m);
    assert(2 * n < d * (scaled(m) + scaled(m + 1))) by (nonlinear_arith)
        requires
            d > 0,
            n == d * scaled(m),
            scaled(m) < scaled(m + 1),
    ;
    assert(is_nearest(m, n, d));
    lemma_nearest_exists(n, d);
    lemma_nearest_unique(m, nearest(n, d), n, d);
}

/// The value of a signed pattern.
proof fn lemma_signed_value(negative: bool, m: int)
    requires
        0 <= m <= INFINITY_BITS,
    ensures
        signed(negative, m).magnitude() == m,
        signed(negative, m).negative() == negative,
        signed(negative, m).value() == if negative {
            -scaled(m)
        } else {
            scaled(m)
        },
        !signed(negative, m).nan(),
{
}

/// The value to which an exact sum of numbers rounds.
pub open spec fn rounded(exact: int) -> int {
    if exact < 0 {
        -scaled(nearest(-exact, 1))
    } else {
        scaled(nearest(exact, 1))
    }
}

proof fn lemma_rounded_monotone(a: int, b: int)
    requires
        a <= b,
    ensures
        rounded(a) <= rounded(b),
{
    lemma_nearest_exists(magnitude_of(a), 1);
    lemma_nearest_exists(magnitude_of(b), 1);
    let m = nearest(magnitude_of(a), 1);
    let k = nearest(magnitude_of(b), 1);
    lemma_scaled_step(m);
    lemma_scaled_step(k);
    if a >= 0 {
        lemma_nearest_monotone(a, b, 1);
        if m < k {
            lemma_scaled_increases(m, k);
        }
    } else if b < 0 {
        lemma_nearest_monotone(-b, -a, 1);
        if k < m {
            lemma_scaled_increases(k, m);
        }
    }
}

/// A sum that is not negative does not round to a negative number.
pub proof fn lemma_rounded_sign(exact: int)
    requires
        exact >= 0,
    ensures
        rounded(exact) >= 0,
{
    lemma_nearest_exists(exact, 1);
    lemma_scaled_step(nearest(exact, 1));
}

/// The sum of two finite numbers is a number, the exact sum rounded.
pub proof fn lemma_sum_value(a: Binary64, b: Binary64)
    requires
        a.finite(),
        b.finite(),
    ensures
        !a.plus(b).nan(),
        a.plus(b).value() == rounded(a.value() + b.value()),
{
    let exact = a.value() + b.value();
    lemma_nearest_exists(magnitude_of(exact), 1);
    lemma_signed_value(exact < 0, nearest(magnitude_of(exact), 1));
    lemma_signed_value(a.negative() && b.negative(), 0);
    if exact == 0 {
        lemma_scaled_step(0);
        lemma_nearest_exact(0, 1);
        assert(scaled(0) == 0);
    }
}

/// A number between zero and a finite number is finite.
pub proof fn lemma_below_finite(a: Binary64, b: Binary64)
    requires
        a.at_most(b),
        b.finite(),
        a.value() >= 0,
    ensures
        a.finite(),
{
    if a.infinite() {
        lemma_scaled_increases(b.magnitude(), INFINITY_BITS as int);
        lemma_scaled_increases(0, INFINITY_BITS as int);
    }
}

/// Addition keeps the order of its first operand.
pub proof fn law_addition_is_monotone(a: Binary64, b: Binary64, c: Binary64)
    requires
        a.finite(),
        b.finite(),
        c.finite(),
        a.at_most(b),
    ensures
        a.plus(c).at_most(b.plus(c)),
{
    lemma_sum_value(a, c);
    lemma_sum_value(b, c);
    lemma_rounded_monotone(a.value() + c.value(), b.value() + c.value());
}

/// Addition does not depend on the order of its operands, but for the pattern of a NaN.
pub proof fn law_addition_commutes(a: Binary64, b: Binary64)
    requires
        !a.nan(),
        !b.nan(),
    ensures
        a.plus(b) == b.plus(a),
{
}

/// Subtraction keeps the order of its first operand.
pub proof fn law_subtraction_is_monotone(a: Binary64, b: Binary64, c: Binary64)
    requires
        a.finite(),
        b.finite(),
        c.finite(),
        a.at_most(b),
    ensures
        a.minus(c).at_most(b.minus(c)),
{
    lemma_signed_value(!c.negative(), c.magnitude());
    law_addition_is_monotone(a, b, c.negation());
}

/// Subtraction reverses the order of its second operand.
pub proof fn law_subtraction_is_antitone(a: Binary64, b: Binary64, c: Binary64)
    requires
        a.finite(),
        b.finite(),
        c.finite(),
        a.at_most(b),
    ensures
        c.minus(b).at_most(c.minus(a)),
{
    lemma_signed_value(!a.negative(), a.magnitude());
    lemma_signed_value(!b.negative(), b.magnitude());
    law_addition_is_monotone(b.negation(), a.negation(), c);
    law_addition_commutes(b.negation(), c);
    law_addition_commutes(a.negation(), c);
}

/// Multiplication by a number that is not negative keeps the order of non-negative numbers.
pub proof fn law_multiplication_is_monotone(a: Binary64, b: Binary64, c: Binary64)
    requires
        a.finite(),
        b.finite(),
        c.finite(),
        !a.negative(),
        !b.negative(),
        !c.negative(),
        a.at_most(b),
    ensures
        a.times(c).at_most(b.times(c)),
{
    let n1 = scaled(a.magnitude()) * scaled(c.magnitude());
    let n2 = scaled(b.magnitude()) * scaled(c.magnitude());
    let d = pow2(1074) as int;
    lemma_pow2_pos(1074);
    lemma_scaled_step(c.magnitude());
    assert(n1 <= n2) by (nonlinear_arith)
        requires
            n1 == scaled(a.magnitude()) * scaled(c.magnitude()),
            n2 == scaled(b.magnitude()) * scaled(c.magnitude()),
            scaled(a.magnitude()) <= scaled(b.magnitude()),
            0 <= scaled(c.magnitude()),
    ;
    lemma_nearest_exists(n1, d);
    lemma_nearest_exists(n2, d);
    lemma_nearest_monotone(n1, n2, d);
    lemma_signed_value(false, nearest(n1, d));
    lemma_signed_value(false, nearest(n2, d));
    if nearest(n1, d) < nearest(n2, d) {
        lemma_scaled_increases(nearest(n1, d), nearest(n2, d));
    }
}

/// Adding zero to a number changes nothing but the sign of a negative zero.
pub proof fn law_zero_is_neutral(a: Binary64)
    requires
        !a.nan(),
        a.magnitude() != 0 || !a.negative(),
    ensures
        a.plus(Binary64::of(ZERO)) == a,
{
    if a.finite() {
        let m = a.magnitude();
        assert(scaled(0) == 0);
        lemma_nearest_exact(m, 1);
        assert(1 * scaled(m) == scaled(m));
        if m > 0 {
            lemma_scaled_increases(0, m);
        }
    }
}

// ── What rounding and the operations mean ───────────────────────────────────

/// Rounding is to the nearest pattern: no other finite one is closer to the exact quotient, and of
/// two equally close ones the even one is taken.
pub proof fn law_rounding_is_to_the_nearest(n: int, d: int, other: int)
    requires
        d > 0,
        n >= 0,
        0 <= other < INFINITY_BITS,
        nearest(n, d) < INFINITY_BITS,
    ensures
        magnitude_of(n - d * scaled(nearest(n, d))) <= magnitude_of(n - d * scaled(other)),
        other != nearest(n, d) && magnitude_of(n - d * scaled(nearest(n, d))) == magnitude_of(
            n - d * scaled(other),
        ) ==> nearest(n, d) % 2 == 0,
{
    let m = nearest(n, d);
    lemma_nearest_exists(n, d);
    let here = d * scaled(m);
    let there = d * scaled(other);
    if other < m {
        lemma_scaled_step(m - 1);
        if other < m - 1 {
            lemma_scaled_increases(other, m - 1);
        }
        let below = d * scaled(m - 1);
        assert(there <= below) by (nonlinear_arith)
            requires
                there == d * scaled(other),
                below == d * scaled(m - 1),
                scaled(other) <= scaled(m - 1),
                d > 0,
        ;
        assert(below < here) by (nonlinear_arith)
            requires
                here == d * scaled(m),
                below == d * scaled(m - 1),
                scaled(m - 1) < scaled(m),
                d > 0,
        ;
        assert(d * (scaled(m - 1) + scaled(m)) == below + here) by (nonlinear_arith)
            requires
                here == d * scaled(m),
                below == d * scaled(m - 1),
        ;
    } else if other > m {
        lemma_scaled_step(m);
        if m + 1 < other {
            lemma_scaled_increases(m + 1, other);
        }
        let above = d * scaled(m + 1);
        assert(above <= there) by (nonlinear_arith)
            requires
                there == d * scaled(other),
                above == d * scaled(m + 1),
                scaled(m + 1) <= scaled(other),
                d > 0,
        ;
        assert(here < above) by (nonlinear_arith)
            requires
                here == d * scaled(m),
                above == d * scaled(m + 1),
                scaled(m) < scaled(m + 1),
                d > 0,
        ;
        assert(d * (scaled(m) + scaled(m + 1)) == here + above) by (nonlinear_arith)
            requires
                here == d * scaled(m),
                above == d * scaled(m + 1),
        ;
    }
}

/// A sum of finite numbers is the exact sum rounded, a difference the exact difference.
pub proof fn law_sums_and_differences_are_rounded_once(a: Binary64, b: Binary64)
    requires
        a.finite(),
        b.finite(),
    ensures
        !a.plus(b).nan(),
        a.plus(b).value() == rounded(a.value() + b.value()),
        !a.minus(b).nan(),
        a.minus(b).value() == rounded(a.value() - b.value()),
{
    lemma_sum_value(a, b);
    lemma_signed_value(!b.negative(), b.magnitude());
    lemma_sum_value(a, b.negation());
}

/// A product of finite numbers has the nearest magnitude to the exact one, and is negative exactly
/// if one factor is.
pub proof fn law_products_are_rounded_once(a: Binary64, b: Binary64)
    requires
        a.finite(),
        b.finite(),
    ensures
        !a.times(b).nan(),
        a.times(b).magnitude() == nearest(
            scaled(a.magnitude()) * scaled(b.magnitude()),
            pow2(1074) as int,
        ),
        a.times(b).negative() == (a.negative() != b.negative()),
{
    let n = scaled(a.magnitude()) * scaled(b.magnitude());
    lemma_nearest_exists(n, pow2(1074) as int);
    lemma_signed_value(a.negative() != b.negative(), nearest(n, pow2(1074) as int));
}

/// A quotient of finite numbers has the nearest magnitude to the exact one, and is negative exactly
/// if one of the two is; a number other than zero over zero is infinite.
pub proof fn law_quotients_are_rounded_once(a: Binary64, b: Binary64)
    requires
        a.finite(),
        b.finite(),
    ensures
        b.magnitude() > 0 ==> !a.over(b).nan() && a.over(b).magnitude() == nearest(
            scaled(a.magnitude()) * pow2(1074),
            scaled(b.magnitude()),
        ) && a.over(b).negative() == (a.negative() != b.negative()),
        b.magnitude() == 0 && a.magnitude() > 0 ==> a.over(b).infinite() && a.over(b).negative()
            == (a.negative() != b.negative()),
        b.magnitude() == 0 && a.magnitude() == 0 ==> a.over(b).nan(),
{
    let n = scaled(a.magnitude()) * pow2(1074);
    lemma_nearest_exists(n, scaled(b.magnitude()));
    lemma_signed_value(a.negative() != b.negative(), nearest(n, scaled(b.magnitude())));
    lemma_signed_value(a.negative() != b.negative(), INFINITY_BITS as int);
}

/// Nothing that is not a number becomes one, and is neither below nor at most anything.
pub proof fn law_nan_stays_nan(x: Binary64, other: Binary64)
    requires
        x.nan(),
    ensures
        x.plus(other).nan(),
        other.plus(x).nan(),
        x.minus(other).nan(),
        other.minus(x).nan(),
        x.times(other).nan(),
        other.times(x).nan(),
        x.over(other).nan(),
        other.over(x).nan(),
        !x.less(other) && !other.less(x) && !x.at_most(other) && !other.at_most(x),
{
}

/// Infinities swallow finite numbers in sums; opposite ones cancel to no number; a product of an
/// infinity with zero, and a quotient of two infinities, are no numbers.
pub proof fn law_infinities_swallow_finite_numbers(inf: Binary64, x: Binary64, other: Binary64)
    requires
        inf.infinite(),
        x.finite(),
        other.infinite(),
    ensures
        inf.plus(x) == inf,
        x.plus(inf) == inf,
        inf.plus(other) == if inf.negative() == other.negative() {
            inf
        } else {
            Binary64::of(NAN_BITS)
        },
        x.magnitude() == 0 ==> inf.times(x).nan() && x.times(inf).nan(),
        x.magnitude() > 0 ==> inf.times(x).infinite() && inf.times(x).negative() == (inf.negative()
            != x.negative()),
        inf.over(other).nan(),
        inf.over(x).infinite(),
        x.over(inf).magnitude() == 0,
{
    lemma_signed_value(inf.negative() != x.negative(), INFINITY_BITS as int);
    lemma_signed_value(inf.negative() != x.negative(), 0);
}

/// Numbers compare by their values, and a value decides the number but for the sign of zero.
pub proof fn law_numbers_compare_by_value(a: Binary64, b: Binary64)
    requires
        !a.nan(),
        !b.nan(),
    ensures
        a.less(b) <==> a.value() < b.value(),
        a.at_most(b) <==> a.value() <= b.value(),
        a.value() == b.value() ==> a == b || (a.magnitude() == 0 && b.magnitude() == 0),
        a.value() == 0 <==> a.magnitude() == 0,
{
    assert(scaled(0) == 0);
    if a.magnitude() > 0 {
        lemma_scaled_increases(0, a.magnitude());
    }
    if b.magnitude() > 0 {
        lemma_scaled_increases(0, b.magnitude());
    }
    if a.magnitude() < b.magnitude() {
        lemma_scaled_increases(a.magnitude(), b.magnitude());
    }
    if b.magnitude() < a.magnitude() {
        lemma_scaled_increases(b.magnitude(), a.magnitude());
    }
}

/// The smaller of two numbers is one of them and exceeds neither; a number goes before what is
/// none.
pub proof fn law_the_smaller_exceeds_neither(a: Binary64, b: Binary64)
    ensures
        a.smaller(b) == a || a.smaller(b) == b,
        !a.nan() && !b.nan() ==> a.smaller(b).at_most(a) && a.smaller(b).at_most(b),
        a.nan() ==> a.smaller(b) == b,
        !a.nan() && b.nan() ==> a.smaller(b) == a,
{
}

/// Clamping leaves a number in the interval as it is, and moves one outside to the nearer end.
pub proof fn law_clamping_moves_to_the_nearer_end(x: Binary64, low: Binary64, high: Binary64)
    requires
        low.at_most(high),
    ensures
        x.within(low, high) ==> x.clamped(low, high) == x,
        x.less(low) ==> x.clamped(low, high) == low,
        high.less(x) ==> x.clamped(low, high) == high,
        !x.nan() ==> x.clamped(low, high).within(low, high),
        x.nan() ==> x.clamped(low, high) == x,
{
}

/// Negation turns the sign and nothing else, and the absolute number drops it.
pub proof fn law_signs_turn_and_drop(x: Binary64)
    ensures
        x.negation().magnitude() == x.magnitude(),
        x.negation().negative() == !x.negative(),
        x.absolute().magnitude() == x.magnitude(),
        !x.absolute().negative(),
        x.value() == if x.negative() {
            -scaled(x.magnitude())
        } else {
            scaled(x.magnitude())
        },
        x.within(x, x) <==> !x.nan(),
{
}

/// Patterns count units: up to the second smallest exponent the pattern itself, and one exponent
/// up twice as many.
pub proof fn law_patterns_count_units(m: int)
    requires
        0 <= m,
    ensures
        m <= 2 * HIDDEN_BIT ==> scaled(m) == m,
        m >= HIDDEN_BIT ==> scaled(m + HIDDEN_BIT) == 2 * scaled(m),
{
    lemma2_to64();
    if m <= 2 * HIDDEN_BIT {
        lemma_scaled_layout(0, m);
        assert(m * pow2(0) == m) by (nonlinear_arith)
            requires
                pow2(0) == 1,
        ;
    }
    if m >= HIDDEN_BIT {
        crate::routing_log::lemma_doubled(m);
    }
}

} // verus!
