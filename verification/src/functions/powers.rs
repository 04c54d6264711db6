//! Roots and powers of integers are those of the integers.

use crate::eval::value::ValueModel;
use crate::eval::{Here, Surroundings};
use crate::functions::laws::{call_of, is_the_integer, lemma_call, makes, number};
use crate::functions::names::lemma_number_names;
use crate::functions::{rounded_to, ten, Builtin, Evaluated};
use crate::number::decimal::lemma_rounded_scaled;
use crate::number::laws::{
    is_held, law_integers_are_whole, law_integers_keep_their_order,
    law_integers_multiply_and_divide, law_one_is_one, lemma_held, lemma_ones, of_int,
};
use crate::number::power::{
    common_log, natural_log, natural_power, power, whole_power,
};
use crate::number::root::{floor_root, is_floor_root, root_rounded, root_scale_from, square_root};
use crate::number::{
    equal, is_finite, is_nan, is_negative, is_zero, lemma_magnitude, lemma_with_sign, magnitude,
    one, product, quotient, rounded, scale, significand, truncated, units, with_sign, Number, Toward,
    INFINITE, ONE, TWO_52,
};
use crate::parser::ast::ExprModel;
use crate::tree::Tree;
use vstd::arithmetic::power2::pow2;
use vstd::prelude::*;

verus! {

// ---------------------------------------------------------------------------
// Roots
// ---------------------------------------------------------------------------

proof fn lemma_root_scale(v: nat, u: nat, from: nat, s: nat)
    requires
        v == u * u,
        from <= s,
        u < pow2(53 + s),
        s > 0 ==> u >= pow2(52 + s),
    ensures
        root_scale_from(v, from) == s,
    decreases s - from,
{
    let p = pow2(53 + from);
    vstd::arithmetic::power2::lemma_pow2_adds(53 + from, 53 + from);
    assert(p * p == pow2(106 + 2 * from));
    if from < s {
        if 53 + from < 52 + s {
            vstd::arithmetic::power2::lemma_pow2_strictly_increases(53 + from, 52 + s);
        }
        assert(u >= p);
        assert(u * u >= p * p) by (nonlinear_arith)
            requires
                u >= p,
        ;
        lemma_root_scale(v, u, from + 1, s);
    } else {
        assert(u * u < p * p) by (nonlinear_arith)
            requires
                u < p,
        ;
    }
}

proof fn lemma_floor_of_square(c: nat)
    ensures
        floor_root(c * c) == c,
{
    assert(c * c < (c + 1) * (c + 1)) by (nonlinear_arith);
    assert(is_floor_root(c, c * c));
    let q = floor_root(c * c);
    assert(is_floor_root(q, c * c));
    assert(q == c) by (nonlinear_arith)
        requires
            q * q <= c * c,
            c * c < (q + 1) * (q + 1),
    ;
}

/// The root of the square of a number is that number.
proof fn lemma_root_of_square(m: nat)
    requires
        m < INFINITE,
    ensures
        root_rounded(units(m) * units(m)) == m,
{
    let s = scale(m);
    let c = significand(m);
    let u = units(m);
    let v = u * u;
    let p = pow2(s);
    let two = TWO_52 as nat;
    vstd::arithmetic::power2::lemma2_to64();
    vstd::arithmetic::power2::lemma2_to64_rest();
    vstd::arithmetic::power2::lemma_pow2_pos(s);
    vstd::arithmetic::power2::lemma_pow2_adds(53, s);
    vstd::arithmetic::power2::lemma_pow2_adds(52, s);
    vstd::arithmetic::power2::lemma_pow2_adds(s, s);
    assert(m == (m / two) * two + m % two) by (nonlinear_arith)
        requires
            two > 0,
    ;
    assert(c < 2 * two && (s > 0 ==> c >= two) && c + s * two == m) by (nonlinear_arith)
        requires
            two > 0,
            m == (m / two) * two + m % two,
            0 <= m % two < two,
            s == (if m / two >= 1 {
                (m / two - 1) as nat
            } else {
                0
            }),
            c == (m - s * two) as nat,
    ;
    assert(u < pow2(53) * p) by (nonlinear_arith)
        requires
            u == c * p,
            c < 2 * two,
            pow2(53) == 2 * two,
            p > 0,
    ;
    assert(s > 0 ==> u >= pow2(52) * p) by (nonlinear_arith)
        requires
            u == c * p,
            s > 0 ==> c >= two,
            pow2(52) == two,
    ;
    lemma_root_scale(v, u, 0, s);
    let w = pow2(2 * s);
    assert(w == p * p);
    assert(v == (c * c) * w) by (nonlinear_arith)
        requires
            v == u * u,
            u == c * p,
            w == p * p,
    ;
    assert(w > 0) by (nonlinear_arith)
        requires
            w == p * p,
            p > 0,
    ;
    vstd::arithmetic::div_mod::lemma_div_by_multiple((c * c) as int, w as int);
    assert(v / w == c * c);
    lemma_floor_of_square(c);
    assert(4 * v <= (2 * c + 1) * (2 * c + 1) * w) by (nonlinear_arith)
        requires
            v == (c * c) * w,
    ;
}

/// The square root of the square of a number that is not below zero is that
/// number.
#[verifier::rlimit(50)]
pub proof fn law_root_of_a_square(x: Number, r: Number)
    requires
        is_finite(x),
        is_finite(r),
        !is_negative(x),
        !is_negative(r),
        !is_zero(x),
        units(magnitude(x)) * one() == units(magnitude(r)) * units(magnitude(r)),
    ensures
        square_root(x) == r,
{
    lemma_magnitude(r);
    lemma_root_of_square(magnitude(r));
}

/// `sqrt` of the square of an integer gives the integer, and of what is below
/// zero no number.
#[verifier::rlimit(50)]
pub proof fn law_roots_of_integers(
    a: ExprModel,
    k: int,
    t: Tree,
    here: Here,
    env: Surroundings,
)
    requires
        makes(a, of_int(k * k), t, here, env),
        k > 0,
        is_held(k),
        is_held(k * k),
    ensures
        call_of("sqrt"@, seq![a], t, here, env) == number(of_int(k)),
{
    lemma_number_names();
    let args = seq![a];
    assert(args[0] == a);
    lemma_call(Builtin::Sqrt, "sqrt"@, args, t, here, env);
    assert(k * k > 0) by (nonlinear_arith)
        requires
            k > 0,
    ;
    lemma_held(k);
    lemma_held(k * k);
    let w = one() as int;
    assert((k * k) * w * w == (k * w) * (k * w)) by (nonlinear_arith);
    law_root_of_a_square(of_int(k * k), of_int(k));
}

// ---------------------------------------------------------------------------
// Powers
// ---------------------------------------------------------------------------

proof fn lemma_power_of_product(a: nat, b: nat, n: nat)
    ensures
        natural_power(a * b, n) == natural_power(a, n) * natural_power(b, n),
        a > 0 ==> natural_power(a, n) > 0,
    decreases n,
{
    if n > 0 {
        let m = (n - 1) as nat;
        lemma_power_of_product(a, b, m);
        let (x, y) = (natural_power(a, m), natural_power(b, m));
        assert(natural_power(a * b, n) == (a * b) * natural_power(a * b, m));
        assert(natural_power(a, n) == a * x && natural_power(b, n) == b * y);
        assert((a * b) * (x * y) == (a * x) * (b * y)) by (nonlinear_arith);
        assert(a > 0 && x > 0 ==> a * x > 0) by (nonlinear_arith);
        assert(natural_power(a * b, m) == x * y);
        assert(natural_power(a * b, n) == (a * x) * (b * y));
    } else {
        let (x, y) = (natural_power(a, n), natural_power(b, n));
        assert(x * y == 1) by (nonlinear_arith)
            requires
                x == 1,
                y == 1,
        ;
    }
}

proof fn lemma_power_one(n: nat)
    ensures
        natural_power(1, n) == 1,
    decreases n,
{
    if n > 0 {
        lemma_power_one((n - 1) as nat);
    }
}

proof fn lemma_odd_power(a: int, n: nat)
    ensures
        int_power(a, n) == (if a < 0 && n % 2 == 1 {
            -(natural_power((-a) as nat, n) as int)
        } else if a < 0 {
            natural_power((-a) as nat, n) as int
        } else {
            natural_power(a as nat, n) as int
        }),
    decreases n,
{
    if n > 0 {
        let m = (n - 1) as nat;
        lemma_odd_power(a, m);
        let b = -a;
        let y = natural_power((if a < 0 {
            b
        } else {
            a
        }) as nat, m) as int;
        assert(a * y == -(b * y) && a * (-y) == b * y) by (nonlinear_arith)
            requires
                b == -a,
        ;
    }
}

/// An integer to a power: itself so many times.
pub open spec fn int_power(a: int, n: nat) -> int
    decreases n,
{
    if n == 0 {
        1
    } else {
        a * int_power(a, (n - 1) as nat)
    }
}

/// An integer to a power that is not below zero is the integer so many times
/// itself.
proof fn lemma_integer_power(a: int, n: nat)
    requires
        is_held(a),
        n <= 1024,
        is_held(int_power(a, n)),
    ensures
        equal(power(of_int(a), of_int(n as int)), of_int(int_power(a, n))),
{
    let x = of_int(a);
    let y = of_int(n as int);
    lemma_held(a);
    lemma_held(n as int);
    lemma_held(int_power(a, n));
    law_one_is_one();
    lemma_ones(1);
    lemma_held(1);
    law_integers_keep_their_order(int_power(a, n), int_power(a, n));
    lemma_with_sign(false, ONE as nat);
    vstd::arithmetic::power2::lemma_pow2_pos(1074);
    let w = one();
    crate::number::laws::law_order_is_that_of_values(with_sign(false, ONE as nat), of_int(1));
    law_integers_keep_their_order(a, 1);
    lemma_odd_power(a, n);
    let k = (if a < 0 {
        -a
    } else {
        a
    }) as nat;
    let z = natural_power(k, n);
    vstd::arithmetic::div_mod::lemma_div_by_multiple(n as int, w as int);
    vstd::arithmetic::div_mod::lemma_mod_multiples_basic(n as int, w as int);
    assert(truncated(y) == n);
    if n == 0 {
    } else if a == 1 {
        lemma_power_one(n);
        assert(x == with_sign(false, ONE as nat)) by {
            crate::number::decimal::law_units_round_back(ONE as nat);
            assert(1 * w == w);
        }
    } else if a == 0 {
        assert(natural_power(0, n) == 0);
        lemma_with_sign(false, 0);
        crate::number::laws::law_order_is_that_of_values(with_sign(false, 0), of_int(0));
        assert(units(0) == 0) by {
            assert(significand(0) == 0);
            assert(0 * pow2(scale(0)) == 0);
        }
    } else {
        lemma_power_of_product(k, w, n);
        lemma_power_of_product(w, 1, n);
        let o = natural_power(w, n);
        assert(o > 0);
        assert(units(magnitude(x)) == k * w);
        assert(z * o * w == (z * w) * o && 1 * o == o) by (nonlinear_arith);
        lemma_rounded_scaled(z * w, 1, o);
        assert(whole_power(k * w, false, n) == rounded(z * w, 1));
        if a < 0 && n % 2 == 1 {
            assert(z as int == -int_power(a, n));
        }
        if x == with_sign(false, ONE as nat) {
            assert(equal(x, of_int(1)));
        }
        lemma_signed(int_power(a, n), z);
    }
}

proof fn lemma_signed(n: int, z: nat)
    requires
        is_held(n),
        n != 0,
        z == (if n < 0 {
            -n
        } else {
            n
        }),
    ensures
        equal(with_sign(n < 0, rounded(z * one(), 1)), of_int(n)),
{
    lemma_held(n);
    lemma_with_sign(n < 0, rounded(z * one(), 1));
    law_integers_keep_their_order(n, n);
}

/// `pow` of integers is the integer power, where it is one that a number
/// holds.
#[verifier::rlimit(50)]
pub proof fn law_powers_of_integers(
    a: ExprModel,
    b: ExprModel,
    x: int,
    n: nat,
    t: Tree,
    here: Here,
    env: Surroundings,
)
    requires
        makes(a, of_int(x), t, here, env),
        makes(b, of_int(n as int), t, here, env),
        is_held(x),
        n <= 1024,
        is_held(int_power(x, n)),
    ensures
        is_the_integer(call_of("pow"@, seq![a, b], t, here, env), int_power(x, n)),
{
    lemma_number_names();
    let args = seq![a, b];
    assert(args[0] == a && args[1] == b);
    lemma_call(Builtin::Pow, "pow"@, args, t, here, env);
    lemma_integer_power(x, n);
}

/// Numbers of one value that are not zero are one number.
proof fn lemma_one_number(x: Number, y: Number)
    requires
        equal(x, y),
        is_finite(y),
        !is_zero(y),
    ensures
        x == y,
{
    lemma_magnitude(x);
    lemma_magnitude(y);
}

proof fn lemma_power_positive(a: int, n: nat)
    requires
        a > 0,
    ensures
        int_power(a, n) > 0,
    decreases n,
{
    if n > 0 {
        lemma_power_positive(a, (n - 1) as nat);
        assert(a * int_power(a, (n - 1) as nat) > 0) by (nonlinear_arith)
            requires
                a > 0,
                int_power(a, (n - 1) as nat) > 0,
        ;
    }
}

/// `round` to places behind the point leaves an integer as it is.
#[verifier::rlimit(50)]
pub proof fn law_rounding_leaves_integers(
    a: ExprModel,
    b: ExprModel,
    x: int,
    places: nat,
    t: Tree,
    here: Here,
    env: Surroundings,
)
    requires
        makes(a, of_int(x), t, here, env),
        makes(b, of_int(places as int), t, here, env),
        x != 0,
        is_held(x),
        places <= 1024,
        is_held(int_power(10, places)),
        is_held(x * int_power(10, places)),
    ensures
        is_the_integer(call_of("round"@, seq![a, b], t, here, env), x),
{
    lemma_number_names();
    let args = seq![a, b];
    assert(args[0] == a && args[1] == b);
    lemma_call(Builtin::Round, "round"@, args, t, here, env);
    let f = int_power(10, places);
    lemma_power_positive(10, places);
    lemma_integer_power(10, places);
    lemma_held(f);
    lemma_held(x);
    lemma_held(x * f);
    assert(x * f != 0) by (nonlinear_arith)
        requires
            x != 0,
            f > 0,
    ;
    law_integers_are_whole(places as int, Toward::Zero, 0, 0);
    law_integers_are_whole(x * f, Toward::Nearest, 0, 0);
    law_integers_multiply_and_divide(x, f);
    let factor = power(ten(), of_int(places as int));
    lemma_one_number(factor, of_int(f));
    lemma_one_number(product(of_int(x), of_int(f)), of_int(x * f));
    assert(rounded_to(of_int(x), of_int(places as int)) == quotient(of_int(x * f), of_int(f)));
}

/// There is no root and no logarithm of what is below zero, and the logarithm
/// of zero is below all numbers.
#[verifier::rlimit(50)]
pub proof fn law_what_has_a_logarithm(
    a: ExprModel,
    x: Number,
    t: Tree,
    here: Here,
    env: Surroundings,
)
    requires
        makes(a, x, t, here, env),
    ensures
        is_negative(x) && !is_zero(x) ==> {
            &&& is_no_number(call_of("sqrt"@, seq![a], t, here, env))
            &&& is_no_number(call_of("log"@, seq![a], t, here, env))
            &&& is_no_number(call_of("log10"@, seq![a], t, here, env))
        },
        is_zero(x) ==> {
            &&& call_of("log"@, seq![a], t, here, env) == number(with_sign(true, INFINITE as nat))
            &&& call_of("log10"@, seq![a], t, here, env) == number(
                with_sign(true, INFINITE as nat),
            )
        },
{
    lemma_number_names();
    let args = seq![a];
    assert(args[0] == a);
    lemma_call(Builtin::Sqrt, "sqrt"@, args, t, here, env);
    lemma_call(Builtin::Log, "log"@, args, t, here, env);
    lemma_call(Builtin::Log10, "log10"@, args, t, here, env);
    lemma_logarithms(x);
}

proof fn lemma_logarithms(x: Number)
    ensures
        is_negative(x) && !is_zero(x) ==> is_nan(square_root(x)) && is_nan(natural_log(x))
            && is_nan(common_log(x)),
        is_zero(x) ==> natural_log(x) == with_sign(true, INFINITE as nat) && common_log(x)
            == with_sign(true, INFINITE as nat),
{
    lemma_magnitude(x);
}

/// Whether a result is a number that is none.
pub open spec fn is_no_number(r: Evaluated) -> bool {
    r matches Ok(ValueModel::Number(y)) && is_nan(y)
}

} // verus!
