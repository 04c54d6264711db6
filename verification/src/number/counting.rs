//! Counts as numbers.

use crate::number::{
    equal, is_nan, is_negative, lemma_scale_chosen, lemma_with_sign, magnitude, of_count, one,
    rounded, scale, scale_from, significand, units, INFINITE, TWO_52,
};
use vstd::arithmetic::power2::pow2;
use vstd::prelude::*;

verus! {

/// Up to here every count is a number of its own.
pub const EXACT: u64 = 0x20_0000_0000_0000;

/// A count that has at most 53 bits is the number it is taken for.
pub proof fn law_counts_are_exact(k: nat)
    requires
        k < EXACT,
    ensures
        !is_nan(of_count(k)),
        !is_negative(of_count(k)),
        magnitude(of_count(k)) < INFINITE,
        units(magnitude(of_count(k))) == k * one(),
{
    let num = k * one();
    let s = scale_from(num, 1, 0);
    let big = pow2(1074);
    vstd::arithmetic::power2::lemma2_to64();
    vstd::arithmetic::power2::lemma2_to64_rest();
    vstd::arithmetic::power2::lemma_pow2_pos(1074);
    lemma_scale_chosen(num, 1, 0);
    let two = TWO_52 as nat;
    let p = pow2(s);
    vstd::arithmetic::power2::lemma_pow2_pos(s);
    if k == 0 {
        assert(num == 0);
        if s > 0 {
            vstd::arithmetic::power2::lemma_pow2_pos((52 + s) as nat);
        }
        assert(p == 1);
        assert(rounded(0, 1) == 0);
        lemma_with_sign(false, 0);
        assert(significand(0) == 0);
        assert(units(0) == 0);
    } else {
        // The scale is at most that of one.
        vstd::arithmetic::power2::lemma_pow2_adds(53, 1074);
        assert(num < pow2(1127)) by (nonlinear_arith)
            requires
                num == k * big,
                k < 2 * two,
                big > 0,
                pow2(1127) == (2 * two) * big,
        ;
        assert(num >= big) by (nonlinear_arith)
            requires
                num == k * big,
                k >= 1,
        ;
        if s == 0 {
            vstd::arithmetic::power2::lemma_pow2_strictly_increases(53, 1074);
            assert(false);
        }
        if s > 1074 {
            if 1127 < 52 + s {
                vstd::arithmetic::power2::lemma_pow2_strictly_increases(1127, (52 + s) as nat);
            }
            assert(false);
        }
        let rest = pow2((1074 - s) as nat);
        vstd::arithmetic::power2::lemma_pow2_adds((1074 - s) as nat, s);
        let q = k * rest;
        assert(num == q * p) by (nonlinear_arith)
            requires
                num == k * big,
                big == rest * p,
                q == k * rest,
        ;
        vstd::arithmetic::div_mod::lemma_fundamental_div_mod_converse(
            num as int,
            p as int,
            q as int,
            0,
        );
        assert(1 * p == p);
        vstd::arithmetic::power2::lemma_pow2_adds(53, s);
        vstd::arithmetic::power2::lemma_pow2_adds(52, s);
        assert(two <= q < 2 * two) by (nonlinear_arith)
            requires
                num == q * p,
                p > 0,
                num < 1 * ((2 * two) * p),
                num >= 1 * (two * p),
        ;
        let m = s * TWO_52 + q;
        assert(m < INFINITE);
        assert(rounded(num, 1) == m);
        lemma_with_sign(false, m as nat);
        assert(m / two as int == s + 1) by (nonlinear_arith)
            requires
                m == s * two + q,
                two <= q < 2 * two,
                two > 0,
        ;
        assert(scale(m as nat) == s);
        assert(significand(m as nat) == q);
    }
}

/// Different counts are different numbers.
pub proof fn law_counts_differ(a: nat, b: nat)
    requires
        a < EXACT,
        b < EXACT,
    ensures
        equal(of_count(a), of_count(b)) <==> a == b,
{
    law_counts_are_exact(a);
    law_counts_are_exact(b);
    vstd::arithmetic::power2::lemma_pow2_pos(1074);
    if a != b && equal(of_count(a), of_count(b)) {
        let w = one();
        assert(a == b) by (nonlinear_arith)
            requires
                a * w == b * w,
                w > 0,
        ;
    }
}

} // verus!
