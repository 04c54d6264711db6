//! Arithmetic on whole numbers is exact, and order is that of values.

use crate::number::counting::{law_counts_are_exact, EXACT};
use crate::number::decimal::lemma_rounded_scaled;
use crate::number::{
    absolute, clamped, difference, equal, greater, integer, is_finite, is_nan, is_negative, is_zero,
    less, less_or_same, lesser, lemma_with_sign, magnitude, negated, not_a_number, of_count, one,
    product, quotient, rank, remainder, rounded, scale, signed_units, significand, sum, units,
    whole, whole_part, with_sign, Number, Toward, INFINITE, ONE, TWO_52,
};
use vstd::arithmetic::power2::pow2;
use vstd::prelude::*;

verus! {

/// The number of an integer.
pub open spec fn of_int(n: int) -> Number {
    if n < 0 {
        negated(of_count((-n) as nat))
    } else {
        of_count(n as nat)
    }
}

/// Whether an integer is one that a number holds exactly.
pub open spec fn is_held(n: int) -> bool {
    -EXACT < n < EXACT
}

proof fn lemma_one()
    ensures
        one() > 0,
{
    vstd::arithmetic::power2::lemma_pow2_pos(1074);
}

/// The number one is the unit that integers are counted by.
pub proof fn law_one_is_one()
    ensures
        units(ONE as nat) == one(),
{
    vstd::arithmetic::power2::lemma_pow2_adds(52, 1022);
    vstd::arithmetic::power2::lemma2_to64();
    vstd::arithmetic::power2::lemma2_to64_rest();
    assert(ONE as nat / TWO_52 as nat == 1023);
    assert(scale(ONE as nat) == 1022);
    assert(significand(ONE as nat) == pow2(52));
}

/// An integer that is held is a finite number of that many ones.
pub proof fn lemma_held(n: int)
    requires
        is_held(n),
    ensures
        is_finite(of_int(n)),
        is_negative(of_int(n)) == (n < 0),
        signed_units(of_int(n)) == n * one(),
        n != 0 ==> !is_zero(of_int(n)),
        n == 0 ==> is_zero(of_int(n)),
        magnitude(of_int(n)) == rounded((if n < 0 {
            -n
        } else {
            n
        }) as nat * one(), 1),
        units(magnitude(of_int(n))) == (if n < 0 {
            -n
        } else {
            n
        }) * one(),
{
    let k = (if n < 0 {
        -n
    } else {
        n
    }) as nat;
    law_counts_are_exact(k);
    lemma_one();
    let m = magnitude(of_count(k));
    lemma_with_sign(true, m);
    lemma_with_sign(false, m);
    lemma_rounded_small(k);
    if n != 0 {
        assert(k * one() > 0) by (nonlinear_arith)
            requires
                k > 0,
                one() > 0,
        ;
        assert(significand(0) == 0);
        assert(units(0) == 0);
    } else {
        assert(k * one() == 0) by (nonlinear_arith)
            requires
                k == 0,
        ;
        lemma_zero_units(m);
    }
    if n < 0 {
        assert(-(k * one()) == n * one()) by (nonlinear_arith)
            requires
                k == -n,
        ;
    }
}

proof fn lemma_zero_units(m: nat)
    requires
        units(m) == 0,
    ensures
        m == 0,
{
    vstd::arithmetic::power2::lemma_pow2_pos(scale(m));
    let p = pow2(scale(m));
    let c = significand(m);
    assert(c == 0) by (nonlinear_arith)
        requires
            c * p == 0,
            p > 0,
    ;
}

pub proof fn lemma_rounded_small(k: nat)
    ensures
        rounded(k * one(), 1) <= INFINITE,
        magnitude(of_count(k)) == rounded(k * one(), 1),
        !is_negative(of_count(k)),
{
    lemma_with_sign(false, rounded(k * one(), 1));
}

// ---------------------------------------------------------------------------
// Order
// ---------------------------------------------------------------------------

proof fn lemma_units_step(m: nat)
    ensures
        units(m) < units(m + 1),
{
    let two = TWO_52 as nat;
    let s = scale(m);
    let c = significand(m);
    let p = pow2(s);
    vstd::arithmetic::power2::lemma_pow2_pos(s);
    vstd::arithmetic::power2::lemma_pow2_unfold(s + 1);
    assert(m == (m / two) * two + m % two) by (nonlinear_arith)
        requires
            two > 0,
    ;
    let e = m / two;
    let f = m % two;
    if f + 1 < two {
        assert((m + 1) / two == e && (m + 1) % two == f + 1) by {
            vstd::arithmetic::div_mod::lemma_fundamental_div_mod_converse(
                m as int + 1,
                two as int,
                e as int,
                f as int + 1,
            );
        }
        assert(significand(m + 1) == c + 1);
        assert((c + 1) * p > c * p) by (nonlinear_arith)
            requires
                p > 0,
        ;
    } else {
        assert((m + 1) / two == e + 1 && (m + 1) % two == 0) by {
            vstd::arithmetic::div_mod::lemma_fundamental_div_mod_converse(
                m as int + 1,
                two as int,
                e as int + 1,
                0,
            );
        }
        let d = significand(m + 1);
        if e == 0 {
            assert(scale(m + 1) == 0);
            assert(d == m + 1 && c == m);
            assert(d * p > c * p) by (nonlinear_arith)
                requires
                    p > 0,
                    d == c + 1,
            ;
        } else {
            assert(s == e - 1);
            assert(scale(m + 1) == e);
            assert((e - 1) * two + two == e * two) by (nonlinear_arith);
            assert(c == m - (e - 1) * two);
            assert((e + 1) * two == e * two + two) by (nonlinear_arith);
            assert(m + 1 == (e + 1) * two);
            assert(d == two);
            assert(c == 2 * two - 1);
            assert(d * (2 * p) > c * p) by (nonlinear_arith)
                requires
                    p > 0,
                    2 * d == c + 1,
            ;
        }
    }
}

proof fn lemma_units_grow(a: nat, b: nat)
    requires
        a < b,
    ensures
        units(a) < units(b),
    decreases b - a,
{
    lemma_units_step((b - 1) as nat);
    if a + 1 < b {
        lemma_units_grow(a, (b - 1) as nat);
    }
}

/// Numbers are ordered as the values they stand for are, the two zeros being
/// one; what is no number is in no order with anything.
pub proof fn law_order_is_that_of_values(x: Number, y: Number)
    ensures
        is_finite(x) && is_finite(y) ==> {
            &&& less(x, y) <==> signed_units(x) < signed_units(y)
            &&& less_or_same(x, y) <==> signed_units(x) <= signed_units(y)
            &&& equal(x, y) <==> signed_units(x) == signed_units(y)
        },
        is_nan(x) || is_nan(y) ==> !less(x, y) && !less_or_same(x, y) && !equal(x, y),
{
    if is_finite(x) && is_finite(y) {
        let a = magnitude(x);
        let b = magnitude(y);
        if a < b {
            lemma_units_grow(a, b);
        } else if b < a {
            lemma_units_grow(b, a);
        }
        if a > 0 {
            lemma_units_grow(0, a);
        }
        if b > 0 {
            lemma_units_grow(0, b);
        }
        assert(significand(0) == 0);
        assert(units(0) == 0);
    }
}

/// Integers are ordered as numbers as they are by themselves.
pub proof fn law_integers_keep_their_order(a: int, b: int)
    requires
        is_held(a),
        is_held(b),
    ensures
        less(of_int(a), of_int(b)) <==> a < b,
        less_or_same(of_int(a), of_int(b)) <==> a <= b,
        equal(of_int(a), of_int(b)) <==> a == b,
{
    lemma_held(a);
    lemma_held(b);
    lemma_one();
    law_order_is_that_of_values(of_int(a), of_int(b));
    let w = one() as int;
    assert(a * w < b * w <==> a < b) by (nonlinear_arith)
        requires
            w > 0,
    ;
    assert(a * w <= b * w <==> a <= b) by (nonlinear_arith)
        requires
            w > 0,
    ;
}

/// The lesser of two numbers is one of them and no more than either; the
/// greater is one of them and no less.
pub proof fn law_lesser_and_greater(x: Number, y: Number)
    requires
        !is_nan(x),
        !is_nan(y),
    ensures
        lesser(x, y) == x || lesser(x, y) == y,
        less_or_same(lesser(x, y), x) && less_or_same(lesser(x, y), y),
        greater(x, y) == x || greater(x, y) == y,
        less_or_same(x, greater(x, y)) && less_or_same(y, greater(x, y)),
{
}

// ---------------------------------------------------------------------------
// Arithmetic
// ---------------------------------------------------------------------------

/// Adding, subtracting and negating integers is exact.
pub proof fn law_integers_add_up(a: int, b: int)
    requires
        is_held(a),
        is_held(b),
    ensures
        is_held(a + b) ==> sum(of_int(a), of_int(b)) == of_int(a + b),
        is_held(a - b) ==> difference(of_int(a), of_int(b)) == of_int(a - b),
        equal(negated(of_int(a)), of_int(-a)),
        equal(absolute(of_int(a)), of_int(if a < 0 {
            -a
        } else {
            a
        })),
{
    lemma_held(a);
    lemma_held(b);
    lemma_held(-a);
    lemma_one();
    let w = one() as int;
    let y = negated(of_int(b));
    lemma_with_sign(!is_negative(of_int(b)), magnitude(of_int(b)));
    assert(signed_units(y) == -(b * w));
    let z = negated(of_int(a));
    lemma_with_sign(!is_negative(of_int(a)), magnitude(of_int(a)));
    lemma_with_sign(false, magnitude(of_int(a)));
    law_order_is_that_of_values(z, of_int(-a));
    assert(-(a * w) == (-a) * w) by (nonlinear_arith);
    let k = if a < 0 {
        -a
    } else {
        a
    };
    lemma_held(k);
    law_order_is_that_of_values(absolute(of_int(a)), of_int(k));
    if is_held(a + b) {
        assert(a * w + b * w == (a + b) * w) by (nonlinear_arith);
        lemma_ones(a + b);
        lemma_zero_is_one(of_int(a), of_int(b), a, b);
    }
    if is_held(a - b) {
        assert(a * w + -(b * w) == (a - b) * w) by (nonlinear_arith);
        lemma_ones(a - b);
    }
}

proof fn lemma_zero_is_one(x: Number, y: Number, a: int, b: int)
    requires
        is_negative(x) == (a < 0),
        is_negative(y) == (b < 0),
    ensures
        a + b == 0 ==> !(is_negative(x) && is_negative(y)),
{
}

/// So many ones, rounded, are the integer.
pub proof fn lemma_ones(n: int)
    requires
        is_held(n),
    ensures
        n != 0 ==> crate::number::of_units(n * one()) == of_int(n),
        n * one() == 0 <==> n == 0,
        n == 0 ==> of_int(n) == with_sign(false, 0),
{
    lemma_one();
    lemma_held(n);
    let w = one() as int;
    let k = if n < 0 {
        -n
    } else {
        n
    };
    assert(n * w < 0 <==> n < 0) by (nonlinear_arith)
        requires
            w > 0,
    ;
    assert(n * w == 0 <==> n == 0) by (nonlinear_arith)
        requires
            w > 0,
    ;
    assert(n < 0 ==> -(n * w) == k * w) by (nonlinear_arith)
        requires
            n < 0 ==> k == -n,
    ;
    lemma_rounded_small(k as nat);
    lemma_with_sign(true, rounded(k as nat * one(), 1));
    if n == 0 {
        assert(rounded(0, 1) == 0);
    }
}

/// Multiplying integers is exact, and so is dividing one by another that
/// goes into it; what is left over has the sign of what was divided.
pub proof fn law_integers_multiply_and_divide(a: int, b: int)
    requires
        is_held(a),
        is_held(b),
    ensures
        is_held(a * b) ==> equal(product(of_int(a), of_int(b)), of_int(a * b)),
        is_held(a * b) && b != 0 ==> equal(quotient(of_int(a * b), of_int(b)), of_int(a)),
        b != 0 ==> equal(
            remainder(of_int(a), of_int(b)),
            of_int(
                if a < 0 {
                    -((-a) % (if b < 0 {
                        -b
                    } else {
                        b
                    }))
                } else {
                    a % (if b < 0 {
                        -b
                    } else {
                        b
                    })
                },
            ),
        ),
{
    lemma_held(a);
    lemma_held(b);
    lemma_one();
    let w = one();
    let p = (if a < 0 {
        -a
    } else {
        a
    }) as nat;
    let q = (if b < 0 {
        -b
    } else {
        b
    }) as nat;
    let n = a * b;
    let r = p * q;
    assert(r == (if n < 0 {
        -n
    } else {
        n
    })) by (nonlinear_arith)
        requires
            n == a * b,
            r == p * q,
            p == (if a < 0 {
                -a
            } else {
                a
            }),
            q == (if b < 0 {
                -b
            } else {
                b
            }),
    ;
    if is_held(n) {
        lemma_held(n);
        assert((p * w) * (q * w) == w * (r * w)) by (nonlinear_arith)
            requires
                r == p * q,
        ;
        assert(w * 1 == w);
        lemma_rounded_scaled(r * w, 1, w);
        let x = product(of_int(a), of_int(b));
        let negative = is_negative(of_int(a)) != is_negative(of_int(b));
        lemma_rounded_small(r);
        lemma_with_sign(negative, rounded(r * w, 1));
        assert(n != 0 ==> negative == (n < 0)) by (nonlinear_arith)
            requires
                n == a * b,
                negative == ((a < 0) != (b < 0)),
        ;
        assert(rank(x) == rank(of_int(n)));
        if b != 0 {
            assert(q > 0);
            lemma_held(a);
            assert((r * w) * w == (q * w) * (p * w)) by (nonlinear_arith)
                requires
                    r == p * q,
            ;
            assert((q * w) * 1 == q * w);
            assert(q * w > 0) by (nonlinear_arith)
                requires
                    q > 0,
                    w > 0,
            ;
            lemma_rounded_scaled(p * w, 1, q * w);
            let y = quotient(of_int(n), of_int(b));
            let sign = is_negative(of_int(n)) != is_negative(of_int(b));
            lemma_rounded_small(p);
            lemma_with_sign(sign, rounded(p * w, 1));
            assert(a != 0 ==> sign == (a < 0)) by (nonlinear_arith)
                requires
                    n == a * b,
                    b != 0,
                    sign == ((n < 0) != (b < 0)),
            ;
            assert(rank(y) == rank(of_int(a)));
        }
    }
    if b != 0 {
        let k = p % q;
        assert(q > 0);
        assert((p * w) % (q * w) == k * w) by {
            vstd::arithmetic::div_mod::lemma_fundamental_div_mod(p as int, q as int);
            let d = p / q;
            assert(p * w == (q * w) * d + k * w) by (nonlinear_arith)
                requires
                    p == q * d + k,
            ;
            assert(0 <= k * w < q * w) by (nonlinear_arith)
                requires
                    0 <= k < q,
                    w > 0,
            ;
            assert((q * w) * d == d * (q * w)) by (nonlinear_arith);
            vstd::arithmetic::div_mod::lemma_fundamental_div_mod_converse(
                (p * w) as int,
                (q * w) as int,
                d as int,
                (k * w) as int,
            );
        }
        let left = if a < 0 {
            -(k as int)
        } else {
            k as int
        };
        assert(k < q);
        lemma_held(left);
        lemma_rounded_small(k);
        lemma_with_sign(is_negative(of_int(a)), rounded(k * w, 1));
        assert(rank(remainder(of_int(a), of_int(b))) == rank(of_int(left)));
    }
}

/// Nothing comes of dividing by zero, or of what is no number.
pub proof fn law_undefined_is_no_number(x: Number, y: Number)
    requires
        is_nan(x) || is_nan(y),
    ensures
        is_nan(sum(x, y)),
        is_nan(difference(x, y)),
        is_nan(product(x, y)),
        is_nan(quotient(x, y)),
        is_nan(remainder(x, y)),
        is_nan(quotient(of_int(0), of_int(0))),
        is_nan(remainder(x, of_int(0))),
{
    lemma_held(0);
    assert(is_nan(not_a_number()));
    if is_nan(y) {
        lemma_with_sign(!is_negative(y), magnitude(y));
    }
}

// ---------------------------------------------------------------------------
// Whole numbers
// ---------------------------------------------------------------------------

/// A number goes down to the integer below it, up to the one above it, to
/// the one toward zero, and to the nearest: half way away from zero.
pub proof fn law_whole_numbers_near(x: Number)
    requires
        is_finite(x),
        -EXACT * one() < signed_units(x) < (EXACT - 1) * one(),
        signed_units(x) > -(EXACT - 1) * one(),
    ensures
        ({
            let u = signed_units(x);
            let w = one() as int;
            &&& equal(whole(x, Toward::Below), of_int(u / w))
            &&& equal(whole(x, Toward::Above), of_int(-((-u) / w)))
            &&& equal(
                whole(x, Toward::Zero),
                of_int(
                    if u < 0 {
                        -((-u) / w)
                    } else {
                        u / w
                    },
                ),
            )
            &&& equal(
                whole(x, Toward::Nearest),
                of_int(
                    if u < 0 {
                        -((-2 * u + w) / (2 * w))
                    } else {
                        (2 * u + w) / (2 * w)
                    },
                ),
            )
        }),
{
    lemma_one();
    let w = one() as int;
    let u = signed_units(x);
    let a = units(magnitude(x)) as int;
    let n = a / w;
    let f = a % w;
    vstd::arithmetic::div_mod::lemma_fundamental_div_mod(a, w);
    assert(a < (EXACT - 1) * w) by {
        if u < 0 {
            assert(-(EXACT - 1) * w == -((EXACT - 1) * w)) by (nonlinear_arith);
        }
    }
    assert(n < EXACT - 1) by (nonlinear_arith)
        requires
            a == w * n + f,
            f >= 0,
            a < (EXACT - 1) * w,
            w > 0,
    ;
    assert(0 <= n) by (nonlinear_arith)
        requires
            a == w * n + f,
            f < w,
            a >= 0,
            w > 0,
    ;
    let up = n + 1;
    assert(up * w == w * n + w) by (nonlinear_arith)
        requires
            up == n + 1,
    ;
    // the other side of a fraction
    assert((-a) / w == if f == 0 {
        -n
    } else {
        -n - 1
    }) by {
        if f == 0 {
            assert(-a == (-n) * w + 0) by (nonlinear_arith)
                requires
                    a == w * n + f,
                    f == 0,
            ;
            vstd::arithmetic::div_mod::lemma_fundamental_div_mod_converse(-a, w, -n, 0);
        } else {
            assert(-a == (-n - 1) * w + (w - f)) by (nonlinear_arith)
                requires
                    a == w * n + f,
            ;
            vstd::arithmetic::div_mod::lemma_fundamental_div_mod_converse(-a, w, -n - 1, w - f);
        }
    }
    assert((2 * a + w) / (2 * w) == if 2 * f >= w {
        n + 1
    } else {
        n
    }) by {
        if 2 * f >= w {
            assert(2 * a + w == (n + 1) * (2 * w) + (2 * f - w)) by (nonlinear_arith)
                requires
                    a == w * n + f,
            ;
            vstd::arithmetic::div_mod::lemma_fundamental_div_mod_converse(
                2 * a + w,
                2 * w,
                n + 1,
                2 * f - w,
            );
        } else {
            assert(2 * a + w == n * (2 * w) + (2 * f + w)) by (nonlinear_arith)
                requires
                    a == w * n + f,
            ;
            vstd::arithmetic::div_mod::lemma_fundamental_div_mod_converse(
                2 * a + w,
                2 * w,
                n,
                2 * f + w,
            );
        }
    }
    lemma_whole_is(x, Toward::Below);
    lemma_whole_is(x, Toward::Above);
    lemma_whole_is(x, Toward::Zero);
    lemma_whole_is(x, Toward::Nearest);
    if u < 0 {
        assert(is_negative(x) && a == -u);
    } else {
        assert(a == u || (is_negative(x) && a == 0));
        if is_negative(x) && u == 0 {
            assert(f == 0 && n == 0) by (nonlinear_arith)
                requires
                    a == w * n + f,
                    a == 0,
                    w > 0,
                    f >= 0,
                    n >= 0,
            ;
        }
    }
}

proof fn lemma_whole_is(x: Number, toward: Toward)
    requires
        is_finite(x),
        whole_part(units(magnitude(x)), is_negative(x), toward) < EXACT,
    ensures
        ({
            let n = whole_part(units(magnitude(x)), is_negative(x), toward) as int;
            equal(
                whole(x, toward),
                of_int(
                    if is_negative(x) {
                        -n
                    } else {
                        n
                    },
                ),
            )
        }),
{
    let n = whole_part(units(magnitude(x)), is_negative(x), toward);
    let k = if is_negative(x) {
        -(n as int)
    } else {
        n as int
    };
    lemma_held(k);
    lemma_rounded_small(n);
    lemma_with_sign(is_negative(x), rounded(n * one(), 1));
}

/// An integer that is held is whole already, and is cut to itself.
pub proof fn law_integers_are_whole(n: int, toward: Toward, low: int, high: int)
    requires
        is_held(n),
    ensures
        equal(whole(of_int(n), toward), of_int(n)),
        whole(of_int(n), toward) == of_int(n),
        integer(of_int(n)) == n,
        low <= n <= high ==> clamped(of_int(n), low, high) == n,
        n < low <= high ==> clamped(of_int(n), low, high) == low,
        low <= high < n ==> clamped(of_int(n), low, high) == high,
{
    lemma_held(n);
    lemma_one();
    let w = one() as int;
    let k = (if n < 0 {
        -n
    } else {
        n
    }) as nat;
    assert(k * w == k * w + 0);
    vstd::arithmetic::div_mod::lemma_fundamental_div_mod_converse(
        (k * one()) as int,
        w,
        k as int,
        0,
    );
    assert(whole_part(k * one(), is_negative(of_int(n)), toward) == k);
    lemma_whole_is(of_int(n), toward);
    lemma_rounded_small(k);
    lemma_with_sign(true, rounded(k * one(), 1));
}

} // verus!
