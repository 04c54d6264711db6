//! Double-precision numbers.
//!
//! A [`Number`] is a bit pattern of IEEE 754 binary64, and its arithmetic is
//! integer arithmetic. The magnitude of every finite number is a whole
//! multiple of the least positive one, 2^-1074. In those units sums and
//! products are exact, and what an operation returns is the exact result
//! rounded once, to the nearest representable magnitude, ties to the even one.

use crate::number::natural::Natural;
use crate::text::{cat2, decimal, decimal_text, digit, signed_decimal};
use vstd::arithmetic::power2::pow2;
use vstd::prelude::*;

pub mod counting;
pub mod decimal;
pub mod figures;
pub mod laws;
pub mod natural;
pub mod nearness;
pub mod power;
pub mod root;
pub mod writing;

verus! {

pub const SIGN: u64 = 0x8000_0000_0000_0000;

/// The magnitude of the infinities. Those above it are not numbers.
pub const INFINITE: u64 = 0x7ff0_0000_0000_0000;

pub const NOT_A_NUMBER: u64 = 0x7ff8_0000_0000_0000;

/// The magnitude of one.
pub const ONE: u64 = 0x3ff0_0000_0000_0000;

pub const TWO_52: u64 = 0x10_0000_0000_0000;

/// A number in double precision, by its bit pattern.
#[derive(Debug, Clone, Copy)]
pub struct Number {
    pub bits: u64,
}

// ---------------------------------------------------------------------------
// What a bit pattern means
// ---------------------------------------------------------------------------

pub open spec fn magnitude(x: Number) -> nat {
    (x.bits % SIGN) as nat
}

pub open spec fn is_negative(x: Number) -> bool {
    x.bits >= SIGN
}

pub open spec fn is_nan(x: Number) -> bool {
    magnitude(x) > INFINITE
}

pub open spec fn is_infinite(x: Number) -> bool {
    magnitude(x) == INFINITE
}

pub open spec fn is_finite(x: Number) -> bool {
    magnitude(x) < INFINITE
}

pub open spec fn is_zero(x: Number) -> bool {
    magnitude(x) == 0
}

/// How many times a significand is doubled.
pub open spec fn scale(m: nat) -> nat {
    if m / TWO_52 as nat >= 1 {
        (m / TWO_52 as nat - 1) as nat
    } else {
        0
    }
}

pub open spec fn significand(m: nat) -> nat {
    (m - scale(m) * TWO_52) as nat
}

/// A finite magnitude in units of 2^-1074.
pub open spec fn units(m: nat) -> nat {
    significand(m) * pow2(scale(m))
}

/// The number one in those units.
pub open spec fn one() -> nat {
    pow2(1074)
}

/// A finite number in those units, with its sign.
pub open spec fn signed_units(x: Number) -> int {
    if is_negative(x) {
        -(units(magnitude(x)) as int)
    } else {
        units(magnitude(x)) as int
    }
}

/// The number with a sign and a magnitude.
pub open spec fn with_sign(negative: bool, m: nat) -> Number {
    Number {
        bits: if negative {
            (m + SIGN) as u64
        } else {
            m as u64
        },
    }
}

pub open spec fn not_a_number() -> Number {
    Number { bits: NOT_A_NUMBER }
}

// ---------------------------------------------------------------------------
// Rounding
// ---------------------------------------------------------------------------

/// The whole number nearest to `num / den`; of two, the even one.
pub open spec fn nearest(num: nat, den: nat) -> nat {
    let q = num / den;
    let r = num % den;
    if 2 * r < den {
        q
    } else if 2 * r > den {
        q + 1
    } else {
        q + q % 2
    }
}

pub open spec fn excess(a: nat, b: nat) -> nat {
    if a >= b {
        (a - b + 1) as nat
    } else {
        0
    }
}

/// The least scale from `s` on at which `num / den` has a significand of at
/// most 53 bits before its point.
pub open spec fn scale_from(num: nat, den: nat, s: nat) -> nat
    decreases excess(num, den * pow2(53 + s)),
{
    if den == 0 || num < den * pow2(53 + s) {
        s
    } else {
        proof {
            lemma_doubled(den, s);
        }
        scale_from(num, den, s + 1)
    }
}

pub proof fn lemma_doubled(den: nat, s: nat)
    ensures
        den > 0 ==> den * pow2(53 + (s + 1)) > den * pow2(53 + s),
{
    vstd::arithmetic::power2::lemma_pow2_unfold(54 + s);
    vstd::arithmetic::power2::lemma_pow2_pos(53 + s);
    let p = pow2(53 + s);
    assert(den > 0 ==> den * (2 * p) > den * p) by (nonlinear_arith)
        requires
            p > 0,
    ;
}

/// The magnitude nearest to `num / den` units.
pub open spec fn rounded(num: nat, den: nat) -> nat {
    let s = scale_from(num, den, 0);
    let m = s * TWO_52 + nearest(num, den * pow2(s));
    if m >= INFINITE {
        INFINITE as nat
    } else {
        m as nat
    }
}

proof fn lemma_scale_from(num: nat, den: nat, from: nat, s: nat)
    requires
        den > 0,
        from <= s,
        num < den * pow2(53 + s),
        s > 0 ==> num >= den * pow2((52 + s) as nat),
    ensures
        scale_from(num, den, from) == s,
    decreases s - from,
{
    if from < s {
        let a = (53 + from) as nat;
        let b = (52 + s) as nat;
        if a < b {
            vstd::arithmetic::power2::lemma_pow2_strictly_increases(a, b);
        }
        assert(den * pow2(a) <= den * pow2(b)) by (nonlinear_arith)
            requires
                pow2(a) <= pow2(b),
        ;
        lemma_scale_from(num, den, from + 1, s);
    }
}

/// What the scale that `rounded` chooses is.
pub proof fn lemma_scale_chosen(num: nat, den: nat, from: nat)
    requires
        den > 0,
        from > 0 ==> num >= den * pow2((52 + from) as nat),
    ensures
        scale_from(num, den, from) >= from,
        num < den * pow2(53 + scale_from(num, den, from)),
        scale_from(num, den, from) > 0 ==> num >= den * pow2(
            (52 + scale_from(num, den, from)) as nat,
        ),
    decreases excess(num, den * pow2(53 + from)),
{
    lemma_doubled(den, from);
    if num >= den * pow2(53 + from) {
        lemma_scale_chosen(num, den, from + 1);
    }
}

fn round(num: &Natural, den: &Natural) -> (m: u64)
    requires
        den@ > 0,
    ensures
        m == rounded(num@, den@),
        m <= INFINITE,
{
    let ghost n = num@;
    let ghost d = den@;
    let (whole, _) = num.divided(den);
    let b = whole.bits();
    let s: u128 = if b > 53 {
        b - 53
    } else {
        0
    };
    proof {
        vstd::arithmetic::div_mod::lemma_fundamental_div_mod(n as int, d as int);
        let w = whole@;
        let r = n % d;
        let p = pow2(b as nat);
        assert(n < d * p) by (nonlinear_arith)
            requires
                n == d * w + r,
                r < d,
                w + 1 <= p,
        ;
        if b > 53 {
            let h = pow2((b - 1) as nat);
            assert(n >= d * h) by (nonlinear_arith)
                requires
                    n == d * w + r,
                    r >= 0,
                    w >= h,
            ;
        } else if b < 53 {
            vstd::arithmetic::power2::lemma_pow2_strictly_increases(b as nat, 53);
            assert(d * p <= d * pow2(53)) by (nonlinear_arith)
                requires
                    p <= pow2(53),
            ;
        }
        lemma_scale_from(n, d, 0, s as nat);
    }
    if s > 2046 {
        assert(s * TWO_52 >= INFINITE) by (nonlinear_arith)
            requires
                s >= 2047,
        ;
        return INFINITE;
    }
    let unit = den.shifted(s as usize);
    proof {
        vstd::arithmetic::power2::lemma_pow2_pos(s as nat);
        assert(d * pow2(s as nat) > 0) by (nonlinear_arith)
            requires
                d > 0,
                pow2(s as nat) > 0,
        ;
    }
    let (q, r) = num.divided(&unit);
    proof {
        vstd::arithmetic::power2::lemma_pow2_adds(53, s as nat);
        vstd::arithmetic::power2::lemma2_to64();
        vstd::arithmetic::power2::lemma2_to64_rest();
        vstd::arithmetic::div_mod::lemma_fundamental_div_mod(n as int, unit@ as int);
        let u = unit@ as int;
        let p = pow2(s as nat) as int;
        assert(q@ < 0x20_0000_0000_0000) by (nonlinear_arith)
            requires
                n == u * q@ + n as int % u,
                n as int % u >= 0,
                n < d * (0x20_0000_0000_0000 * p),
                u == d * p,
                u > 0,
        ;
    }
    let top = q.to_u64();
    let twice = r.times_plus(2, 0);
    let digit: u64 = if twice.less(&unit) {
        top
    } else if unit.less(&twice) {
        top + 1
    } else {
        top + top % 2
    };
    assert(digit == nearest(n, unit@));
    let m: u64 = (s as u64) * TWO_52 + digit;
    if m >= INFINITE {
        INFINITE
    } else {
        m
    }
}

// ---------------------------------------------------------------------------
// Taking numbers apart and putting them together
// ---------------------------------------------------------------------------

pub proof fn lemma_magnitude(x: Number)
    ensures
        magnitude(x) < SIGN,
        x.bits == magnitude(x) + (if is_negative(x) {
            SIGN as int
        } else {
            0
        }),
{
}

pub proof fn lemma_with_sign(negative: bool, m: nat)
    requires
        m < SIGN,
    ensures
        magnitude(with_sign(negative, m)) == m,
        is_negative(with_sign(negative, m)) == negative,
{
}

pub(crate) fn signed(negative: bool, m: u64) -> (r: Number)
    requires
        m < SIGN,
    ensures
        r == with_sign(negative, m as nat),
        magnitude(r) == m,
        is_negative(r) == negative,
{
    Number {
        bits: if negative {
            m + SIGN
        } else {
            m
        },
    }
}

/// A finite magnitude in units.
fn in_units(m: u64) -> (r: Natural)
    requires
        m < INFINITE,
    ensures
        r@ == units(m as nat),
{
    let e: u64 = m / TWO_52;
    let s: u64 = if e >= 1 {
        e - 1
    } else {
        0
    };
    Natural::from_u64(m - s * TWO_52).shifted(s as usize)
}

/// The number one in units.
fn one_in_units() -> (r: Natural)
    ensures
        r@ == one(),
        r@ > 0,
{
    proof {
        vstd::arithmetic::power2::lemma_pow2_pos(1074);
        assert(1 * pow2(1074) == pow2(1074));
    }
    Natural::from_u64(1).shifted(1074)
}

fn whole_units() -> (r: Natural)
    ensures
        r@ == 1,
{
    Natural::from_u64(1)
}

impl Number {
    /// The number with a bit pattern.
    pub fn from_bits(bits: u64) -> (r: Number)
        ensures
            r == (Number { bits }),
    {
        Number { bits }
    }

    pub fn to_bits(self) -> (r: u64)
        ensures
            r == self.bits,
    {
        self.bits
    }

    pub fn nan() -> (r: Number)
        ensures
            r == not_a_number(),
            is_nan(r),
    {
        Number { bits: NOT_A_NUMBER }
    }

    pub fn zero() -> (r: Number)
        ensures
            r == with_sign(false, 0),
            is_zero(r),
    {
        Number { bits: 0 }
    }

    pub fn one() -> (r: Number)
        ensures
            r == with_sign(false, ONE as nat),
    {
        Number { bits: ONE }
    }

    pub fn infinity(negative: bool) -> (r: Number)
        ensures
            r == with_sign(negative, INFINITE as nat),
    {
        signed(negative, INFINITE)
    }

    pub fn magnitude(self) -> (m: u64)
        ensures
            m == magnitude(self),
    {
        self.bits % SIGN
    }

    pub fn is_negative(self) -> (r: bool)
        ensures
            r == is_negative(self),
    {
        self.bits >= SIGN
    }

    pub fn is_nan(self) -> (r: bool)
        ensures
            r == is_nan(self),
    {
        self.magnitude() > INFINITE
    }

    pub fn is_infinite(self) -> (r: bool)
        ensures
            r == is_infinite(self),
    {
        self.magnitude() == INFINITE
    }

    pub fn is_zero(self) -> (r: bool)
        ensures
            r == is_zero(self),
    {
        self.magnitude() == 0
    }
}

// ---------------------------------------------------------------------------
// Comparison
// ---------------------------------------------------------------------------

/// Where a number stands among the others. The two zeros stand together.
pub open spec fn rank(x: Number) -> int {
    if is_negative(x) {
        -(magnitude(x) as int)
    } else {
        magnitude(x) as int
    }
}

pub open spec fn less(x: Number, y: Number) -> bool {
    !is_nan(x) && !is_nan(y) && rank(x) < rank(y)
}

pub open spec fn less_or_same(x: Number, y: Number) -> bool {
    !is_nan(x) && !is_nan(y) && rank(x) <= rank(y)
}

pub open spec fn equal(x: Number, y: Number) -> bool {
    !is_nan(x) && !is_nan(y) && rank(x) == rank(y)
}

impl PartialEq for Number {
    fn eq(&self, other: &Number) -> (r: bool) {
        let a = self.magnitude();
        let b = other.magnitude();
        if a > INFINITE || b > INFINITE {
            false
        } else if a == 0 && b == 0 {
            true
        } else {
            self.bits == other.bits
        }
    }
}

impl vstd::std_specs::cmp::PartialEqSpecImpl for Number {
    open spec fn obeys_eq_spec() -> bool {
        true
    }

    open spec fn eq_spec(&self, other: &Number) -> bool {
        equal(*self, *other)
    }
}

impl Number {
    pub fn less(self, other: Number) -> (r: bool)
        ensures
            r == less(self, other),
    {
        let a = self.magnitude();
        let b = other.magnitude();
        if a > INFINITE || b > INFINITE {
            return false;
        }
        match (self.is_negative(), other.is_negative()) {
            (true, true) => b < a,
            (true, false) => a > 0 || b > 0,
            (false, true) => false,
            (false, false) => a < b,
        }
    }

    pub fn less_or_same(self, other: Number) -> (r: bool)
        ensures
            r == less_or_same(self, other),
    {
        self.less(other) || self == other
    }

    /// The lesser of two numbers, or the one that is a number.
    pub fn min(self, other: Number) -> (r: Number)
        ensures
            r == lesser(self, other),
    {
        if self.is_nan() || other.less(self) {
            other
        } else {
            self
        }
    }

    /// The greater of two numbers, or the one that is a number.
    pub fn max(self, other: Number) -> (r: Number)
        ensures
            r == greater(self, other),
    {
        if self.is_nan() || self.less(other) {
            other
        } else {
            self
        }
    }
}

pub open spec fn lesser(x: Number, y: Number) -> Number {
    if is_nan(x) || less(y, x) {
        y
    } else {
        x
    }
}

pub open spec fn greater(x: Number, y: Number) -> Number {
    if is_nan(x) || less(x, y) {
        y
    } else {
        x
    }
}

// ---------------------------------------------------------------------------
// Arithmetic
// ---------------------------------------------------------------------------

pub open spec fn negated(x: Number) -> Number {
    with_sign(!is_negative(x), magnitude(x))
}

pub open spec fn absolute(x: Number) -> Number {
    with_sign(false, magnitude(x))
}

/// The number nearest to a whole count of units.
pub open spec fn of_units(u: int) -> Number {
    with_sign(u < 0, rounded((if u < 0 {
        -u
    } else {
        u
    }) as nat, 1))
}

pub open spec fn sum(x: Number, y: Number) -> Number {
    if is_nan(x) || is_nan(y) {
        not_a_number()
    } else if is_infinite(x) {
        if is_infinite(y) && is_negative(x) != is_negative(y) {
            not_a_number()
        } else {
            x
        }
    } else if is_infinite(y) {
        y
    } else {
        let u = signed_units(x) + signed_units(y);
        if u == 0 {
            with_sign(is_negative(x) && is_negative(y), 0)
        } else {
            of_units(u)
        }
    }
}

pub open spec fn difference(x: Number, y: Number) -> Number {
    sum(x, negated(y))
}

pub open spec fn product(x: Number, y: Number) -> Number {
    let negative = is_negative(x) != is_negative(y);
    if is_nan(x) || is_nan(y) || (is_infinite(x) && is_zero(y)) || (is_zero(x) && is_infinite(y)) {
        not_a_number()
    } else if is_infinite(x) || is_infinite(y) {
        with_sign(negative, INFINITE as nat)
    } else {
        with_sign(negative, rounded(units(magnitude(x)) * units(magnitude(y)), one()))
    }
}

pub open spec fn quotient(x: Number, y: Number) -> Number {
    let negative = is_negative(x) != is_negative(y);
    if is_nan(x) || is_nan(y) || (is_infinite(x) && is_infinite(y)) || (is_zero(x) && is_zero(y)) {
        not_a_number()
    } else if is_infinite(x) || is_zero(y) {
        with_sign(negative, INFINITE as nat)
    } else if is_infinite(y) {
        with_sign(negative, 0)
    } else {
        with_sign(negative, rounded(units(magnitude(x)) * one(), units(magnitude(y))))
    }
}

/// What is left of `x` after whole multiples of `y`, with the sign of `x`.
pub open spec fn remainder(x: Number, y: Number) -> Number {
    if is_nan(x) || is_nan(y) || is_infinite(x) || is_zero(y) {
        not_a_number()
    } else if is_infinite(y) {
        x
    } else {
        with_sign(is_negative(x), rounded(units(magnitude(x)) % units(magnitude(y)), 1))
    }
}

pub proof fn lemma_units_zero(m: nat)
    requires
        m < INFINITE,
    ensures
        units(m) == 0 <==> m == 0,
{
    vstd::arithmetic::power2::lemma_pow2_pos(scale(m));
    let p = pow2(scale(m));
    let c = significand(m);
    assert(c * p == 0 <==> c == 0) by (nonlinear_arith)
        requires
            p > 0,
    ;
}

impl Number {
    pub fn negated(self) -> (r: Number)
        ensures
            r == negated(self),
    {
        signed(!self.is_negative(), self.magnitude())
    }

    pub fn abs(self) -> (r: Number)
        ensures
            r == absolute(self),
    {
        signed(false, self.magnitude())
    }

    pub fn plus(self, other: Number) -> (r: Number)
        ensures
            r == sum(self, other),
    {
        if self.is_nan() || other.is_nan() {
            return Number::nan();
        }
        if self.is_infinite() {
            if other.is_infinite() && self.is_negative() != other.is_negative() {
                return Number::nan();
            }
            return self;
        }
        if other.is_infinite() {
            return other;
        }
        let a = in_units(self.magnitude());
        let b = in_units(other.magnitude());
        let one = whole_units();
        if self.is_negative() == other.is_negative() {
            let total = a.plus(&b);
            if total.is_zero() {
                return signed(self.is_negative(), 0);
            }
            signed(self.is_negative(), round(&total, &one))
        } else if a.less(&b) {
            signed(other.is_negative(), round(&b.minus(&a), &one))
        } else if b.less(&a) {
            signed(self.is_negative(), round(&a.minus(&b), &one))
        } else {
            signed(false, 0)
        }
    }

    pub fn minus(self, other: Number) -> (r: Number)
        ensures
            r == difference(self, other),
    {
        self.plus(other.negated())
    }

    pub fn times(self, other: Number) -> (r: Number)
        ensures
            r == product(self, other),
    {
        let negative = self.is_negative() != other.is_negative();
        if self.is_nan() || other.is_nan() || (self.is_infinite() && other.is_zero()) || (
        self.is_zero() && other.is_infinite()) {
            return Number::nan();
        }
        if self.is_infinite() || other.is_infinite() {
            return signed(negative, INFINITE);
        }
        let a = in_units(self.magnitude());
        let b = in_units(other.magnitude());
        signed(negative, round(&a.times(&b), &one_in_units()))
    }

    pub fn over(self, other: Number) -> (r: Number)
        ensures
            r == quotient(self, other),
    {
        let negative = self.is_negative() != other.is_negative();
        if self.is_nan() || other.is_nan() || (self.is_infinite() && other.is_infinite()) || (
        self.is_zero() && other.is_zero()) {
            return Number::nan();
        }
        if self.is_infinite() || other.is_zero() {
            return signed(negative, INFINITE);
        }
        if other.is_infinite() {
            return signed(negative, 0);
        }
        let a = in_units(self.magnitude());
        let b = in_units(other.magnitude());
        proof {
            lemma_units_zero(magnitude(other));
        }
        signed(negative, round(&a.shifted(1074), &b))
    }

    pub fn modulo(self, other: Number) -> (r: Number)
        ensures
            r == remainder(self, other),
    {
        if self.is_nan() || other.is_nan() || self.is_infinite() || other.is_zero() {
            return Number::nan();
        }
        if other.is_infinite() {
            return self;
        }
        let a = in_units(self.magnitude());
        let b = in_units(other.magnitude());
        proof {
            lemma_units_zero(magnitude(other));
        }
        let (_, r) = a.divided(&b);
        signed(self.is_negative(), round(&r, &whole_units()))
    }
}

// ---------------------------------------------------------------------------
// Whole numbers
// ---------------------------------------------------------------------------

/// Which whole number a fraction goes to.
#[derive(Clone, Copy, PartialEq, Eq, Structural)]
pub enum Toward {
    Zero,
    Above,
    Below,
    /// The nearest, and half way away from zero.
    Nearest,
}

/// The whole part of a magnitude of `u` units under a sign.
pub open spec fn whole_part(u: nat, negative: bool, toward: Toward) -> nat {
    let n = u / one();
    let f = u % one();
    let up = match toward {
        Toward::Zero => false,
        Toward::Above => f > 0 && !negative,
        Toward::Below => f > 0 && negative,
        Toward::Nearest => 2 * f >= one(),
    };
    if up {
        n + 1
    } else {
        n
    }
}

pub open spec fn whole(x: Number, toward: Toward) -> Number {
    if !is_finite(x) {
        x
    } else {
        with_sign(
            is_negative(x),
            rounded(whole_part(units(magnitude(x)), is_negative(x), toward) * one(), 1),
        )
    }
}

/// The magnitude of a finite number cut to a whole one.
pub open spec fn truncated(x: Number) -> nat {
    units(magnitude(x)) / one()
}

pub open spec fn of_count(n: nat) -> Number {
    with_sign(false, rounded(n * one(), 1))
}

/// The whole number that a finite number gives when cut.
pub open spec fn integer(x: Number) -> int {
    if is_negative(x) {
        -(truncated(x) as int)
    } else {
        truncated(x) as int
    }
}

/// The whole number that a number gives when cut, held between `low` and
/// `high`.
pub open spec fn clamped(x: Number, low: int, high: int) -> int {
    if is_nan(x) {
        0
    } else {
        let n = if is_infinite(x) {
            if is_negative(x) {
                low
            } else {
                high
            }
        } else {
            integer(x)
        };
        if n < low {
            low
        } else if n > high {
            high
        } else {
            n
        }
    }
}

impl Number {
    pub fn whole(self, toward: Toward) -> (r: Number)
        ensures
            r == whole(self, toward),
    {
        if self.magnitude() >= INFINITE {
            return self;
        }
        let one = one_in_units();
        let (n, f) = in_units(self.magnitude()).divided(&one);
        let up = match toward {
            Toward::Zero => false,
            Toward::Above => !f.is_zero() && !self.is_negative(),
            Toward::Below => !f.is_zero() && self.is_negative(),
            Toward::Nearest => !f.times_plus(2, 0).less(&one),
        };
        let n = if up {
            n.plus(&whole_units())
        } else {
            n
        };
        signed(self.is_negative(), round(&n.shifted(1074), &whole_units()))
    }

    pub fn floor(self) -> (r: Number)
        ensures
            r == whole(self, Toward::Below),
    {
        self.whole(Toward::Below)
    }

    pub fn ceil(self) -> (r: Number)
        ensures
            r == whole(self, Toward::Above),
    {
        self.whole(Toward::Above)
    }

    pub fn trunc(self) -> (r: Number)
        ensures
            r == whole(self, Toward::Zero),
    {
        self.whole(Toward::Zero)
    }

    pub fn round(self) -> (r: Number)
        ensures
            r == whole(self, Toward::Nearest),
    {
        self.whole(Toward::Nearest)
    }

    pub fn from_count(n: usize) -> (r: Number)
        ensures
            r == of_count(n as nat),
    {
        let u = Natural::from_u64(n as u64).shifted(1074);
        signed(false, round(&u, &whole_units()))
    }

    /// The magnitude cut to a whole number, or `limit` where it is more.
    fn cut(self, limit: u64) -> (r: u64)
        requires
            is_finite(self),
        ensures
            r == (if truncated(self) > limit {
                limit as nat
            } else {
                truncated(self)
            }),
    {
        let (n, _) = in_units(self.magnitude()).divided(&one_in_units());
        if Natural::from_u64(limit).less(&n) {
            limit
        } else {
            n.to_u64()
        }
    }

    pub fn to_usize(self) -> (r: usize)
        ensures
            r == clamped(self, 0, usize::MAX as int),
    {
        if self.is_nan() || self.is_negative() {
            return 0;
        }
        if self.is_infinite() {
            return usize::MAX;
        }
        self.cut(usize::MAX as u64) as usize
    }

    /// The whole number that is left when a fraction is cut off, in full.
    pub fn integer_text(self) -> (r: String)
        requires
            is_finite(self),
        ensures
            r@ == signed_decimal(integer(self)),
    {
        let (n, _) = in_units(self.magnitude()).divided(&one_in_units());
        let digits = natural_text(&n);
        if self.is_negative() && !n.is_zero() {
            cat2("-", digits.as_str())
        } else {
            digits
        }
    }
}

/// A natural number in decimal.
fn natural_text(n: &Natural) -> (r: String)
    ensures
        r@ == decimal(n@),
    decreases n@,
{
    let ten = Natural::from_u64(10);
    if n.less(&ten) {
        decimal_text(n.to_u64())
    } else {
        let (rest, last) = n.divided(&ten);
        proof {
            vstd::arithmetic::div_mod::lemma_fundamental_div_mod(n@ as int, 10);
        }
        let mut s = natural_text(&rest);
        s.push(digit(last.to_u64() as u8));
        s
    }
}

} // verus!
