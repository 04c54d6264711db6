//! What is written of a number is that number.

use crate::eval::value::number_text;
use crate::number::decimal::{
    law_display_reads_back, lemma_decimal, lemma_positional_parses, lemma_signed_parses,
    parse_number, positional, ten_to,
};
use crate::number::{
    equal, integer, is_finite, is_infinite, is_nan, is_negative, lemma_magnitude, lemma_with_sign,
    one, rounded, truncated, with_sign, Number,
};
use crate::text::signed_decimal;
use vstd::prelude::*;

verus! {

/// An integer is read as the number it is, with its sign.
pub proof fn law_integers_are_read(n: int)
    ensures
        parse_number(signed_decimal(n)) == Some(
            with_sign(
                n < 0,
                rounded((if n < 0 {
                    -n
                } else {
                    n
                }) as nat * one(), 1),
            ),
        ),
{
    let k = (if n < 0 {
        -n
    } else {
        n
    }) as nat;
    lemma_decimal(k);
    assert(ten_to(0) == 1);
    assert(k * 1 == k);
    lemma_positional_parses(k, 0);
    lemma_signed_parses(positional(k, 0), n < 0);
}

/// A number that is written reads back as a number of the same value; what
/// is no number, and what is beyond all numbers, is called by its name.
pub proof fn law_numbers_read_back(x: Number)
    ensures
        is_finite(x) ==> (parse_number(number_text(x)) matches Some(y) && equal(y, x)),
        is_nan(x) ==> number_text(x) == "NaN"@,
        is_infinite(x) && is_negative(x) ==> number_text(x) == "-Infinity"@,
        is_infinite(x) && !is_negative(x) ==> number_text(x) == "Infinity"@,
{
    if is_finite(x) {
        lemma_magnitude(x);
        law_display_reads_back(x);
        let n = integer(x);
        law_integers_are_read(n);
        let k = truncated(x);
        lemma_with_sign(is_negative(x), rounded(k * one(), 1));
        lemma_with_sign(n < 0, rounded(k * one(), 1));
        if k == 0 {
            assert(0 * one() == 0);
            crate::number::laws::lemma_ones(0);
        }
    }
}

} // verus!
