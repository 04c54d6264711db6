//! Square roots.

use crate::number::natural::Natural;
use crate::number::{
    in_units, is_infinite, is_nan, is_negative, is_zero, magnitude, not_a_number, one, signed,
    units, with_sign, Number, INFINITE, TWO_52,
};
use vstd::arithmetic::power2::pow2;
use vstd::prelude::*;

verus! {

pub open spec fn is_floor_root(q: nat, w: nat) -> bool {
    q * q <= w < (q + 1) * (q + 1)
}

/// The greatest whole number whose square is at most `w`.
pub open spec fn floor_root(w: nat) -> nat {
    choose|q: nat| is_floor_root(q, w)
}

/// The least scale from `s` on at which the root of `v` has at most 53 bits
/// before its point.
pub open spec fn root_scale_from(v: nat, s: nat) -> nat
    decreases crate::number::excess(v, pow2(106 + 2 * s)),
{
    if v < pow2(106 + 2 * s) {
        s
    } else {
        proof {
            vstd::arithmetic::power2::lemma_pow2_strictly_increases(
                106 + 2 * s,
                106 + 2 * (s + 1),
            );
        }
        root_scale_from(v, s + 1)
    }
}

/// The magnitude nearest to the root of `v` units.
pub open spec fn root_rounded(v: nat) -> nat {
    let s = root_scale_from(v, 0);
    let q = floor_root(v / pow2(2 * s));
    let up = 4 * v > (2 * q + 1) * (2 * q + 1) * pow2(2 * s);
    let m = s * TWO_52 + q + if up {
        1int
    } else {
        0
    };
    if m >= INFINITE {
        INFINITE as nat
    } else {
        m as nat
    }
}

pub open spec fn square_root(x: Number) -> Number {
    if is_nan(x) {
        not_a_number()
    } else if is_zero(x) {
        x
    } else if is_negative(x) {
        not_a_number()
    } else if is_infinite(x) {
        x
    } else {
        with_sign(false, root_rounded(units(magnitude(x)) * one()))
    }
}

proof fn lemma_floor_root_unique(a: nat, b: nat, w: nat)
    requires
        is_floor_root(a, w),
        is_floor_root(b, w),
    ensures
        a == b,
{
    if a < b {
        assert((a + 1) * (a + 1) <= b * b) by (nonlinear_arith)
            requires
                a + 1 <= b,
        ;
    } else if b < a {
        assert((b + 1) * (b + 1) <= a * a) by (nonlinear_arith)
            requires
                b + 1 <= a,
        ;
    }
}

proof fn lemma_root_scale(v: nat, from: nat, s: nat)
    requires
        from <= s,
        v < pow2(106 + 2 * s),
        s > 0 ==> v >= pow2((104 + 2 * s) as nat),
    ensures
        root_scale_from(v, from) == s,
    decreases s - from,
{
    if from < s {
        if 106 + 2 * from < 104 + 2 * s {
            vstd::arithmetic::power2::lemma_pow2_strictly_increases(
                106 + 2 * from,
                (104 + 2 * s) as nat,
            );
        }
        lemma_root_scale(v, from + 1, s);
    }
}

/// The floor root of a number of at most 106 bits.
fn small_root(w: &Natural) -> (q: u64)
    requires
        w@ < pow2(106),
    ensures
        q == floor_root(w@),
        q < pow2(53),
{
    let mut q: u64 = 0;
    let mut i: u32 = 53;
    proof {
        vstd::arithmetic::power2::lemma_pow2_adds(53, 53);
        assert(0nat * 0nat == 0);
        vstd::arithmetic::power2::lemma2_to64_rest();
    }
    while i > 0
        invariant
            i <= 53,
            q + pow2(i as nat) <= pow2(53),
            (q as nat) * (q as nat) <= w@,
            w@ < (q + pow2(i as nat)) * (q + pow2(i as nat)),
            pow2(53) == 0x20_0000_0000_0000,
        decreases i,
    {
        i = i - 1;
        proof {
            vstd::arithmetic::power2::lemma2_to64();
            vstd::arithmetic::power2::lemma2_to64_rest();
            vstd::arithmetic::power2::lemma_pow2_unfold((i + 1) as nat);
            vstd::arithmetic::power2::lemma_pow2_pos(i as nat);
        }
        let bit = bit_at(i);
        let t: u64 = q + bit;
        let n = Natural::from_u64(t);
        let square = n.times(&n);
        if !w.less(&square) {
            q = t;
        }
    }
    proof {
        vstd::arithmetic::power2::lemma2_to64();
        assert(is_floor_root(q as nat, w@));
        lemma_floor_root_unique(q as nat, floor_root(w@), w@);
    }
    q
}

fn bit_at(n: u32) -> (r: u64)
    requires
        n < 63,
    ensures
        r == pow2(n as nat),
{
    let mut r: u64 = 1;
    proof {
        vstd::arithmetic::power2::lemma2_to64();
        vstd::arithmetic::power2::lemma2_to64_rest();
    }
    for i in 0..n
        invariant
            n < 63,
            r == pow2(i as nat),
            pow2(63) == 0x8000_0000_0000_0000,
    {
        proof {
            vstd::arithmetic::power2::lemma_pow2_unfold((i + 1) as nat);
            vstd::arithmetic::power2::lemma_pow2_strictly_increases((i + 1) as nat, 63);
        }
        r = r * 2;
    }
    r
}

fn root_of(v: &Natural) -> (m: u64)
    ensures
        m == root_rounded(v@),
        m <= INFINITE,
{
    let b = v.bits();
    let s: u128 = if b > 106 {
        (b - 105) / 2
    } else {
        0
    };
    proof {
        let n = v@;
        if (b as nat) < 106 + 2 * s {
            vstd::arithmetic::power2::lemma_pow2_strictly_increases(
                b as nat,
                (106 + 2 * s) as nat,
            );
        }
        if s > 0 && 104 + 2 * s < b - 1 {
            vstd::arithmetic::power2::lemma_pow2_strictly_increases(
                (104 + 2 * s) as nat,
                (b - 1) as nat,
            );
        }
        lemma_root_scale(n, 0, s as nat);
    }
    if s > 2046 {
        assert(s * TWO_52 >= INFINITE) by (nonlinear_arith)
            requires
                s >= 2047,
        ;
        return INFINITE;
    }
    let twice: usize = 2 * (s as usize);
    proof {
        vstd::arithmetic::power2::lemma_pow2_pos(twice as nat);
        assert(1 * pow2(twice as nat) == pow2(twice as nat));
    }
    let unit = Natural::from_u64(1).shifted(twice);
    let (w, _) = v.divided(&unit);
    proof {
        vstd::arithmetic::power2::lemma_pow2_adds(106, twice as nat);
        vstd::arithmetic::div_mod::lemma_fundamental_div_mod(v@ as int, unit@ as int);
        let p = pow2(106) as int;
        let u = unit@ as int;
        let n = v@ as int;
        assert(w@ < p) by (nonlinear_arith)
            requires
                n == u * w@ + n % u,
                n % u >= 0,
                n < p * u,
                u > 0,
        ;
    }
    let q = small_root(&w);
    proof {
        vstd::arithmetic::power2::lemma2_to64();
        vstd::arithmetic::power2::lemma2_to64_rest();
    }
    let half = Natural::from_u64(2 * q + 1);
    let square = half.times(&half).shifted(twice);
    let up = square.less(&v.times_plus(4, 0));
    let m: u64 = (s as u64) * TWO_52 + q + if up {
        1
    } else {
        0
    };
    if m >= INFINITE {
        INFINITE
    } else {
        m
    }
}

impl Number {
    pub fn sqrt(self) -> (r: Number)
        ensures
            r == square_root(self),
    {
        if self.is_nan() {
            return Number::nan();
        }
        if self.is_zero() {
            return self;
        }
        if self.is_negative() {
            return Number::nan();
        }
        if self.is_infinite() {
            return self;
        }
        let v = in_units(self.magnitude()).shifted(1074);
        signed(false, root_of(&v))
    }
}

} // verus!
