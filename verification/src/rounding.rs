//! Rounding of exact rational coordinates to the nearest pixel.
//!
//! Line rasterization steps along the segment in equal real-valued
//! increments and rounds each position to the nearest integer, halves
//! rounding away from zero. `rnd` captures that rounding exactly on the
//! rational `num / den`.

use vstd::prelude::*;
use vstd::arithmetic::div_mod::{
    lemma_div_is_ordered, lemma_div_multiples_vanish_fancy, lemma_div_pos_is_pos,
};

verus! {

/// The integer nearest to `num / den` (with `den >= 1`), halves rounding
/// away from zero.
pub open spec fn rnd(num: int, den: int) -> int {
    if num >= 0 {
        (2 * num + den) / (2 * den)
    } else {
        -((2 * (-num) + den) / (2 * den))
    }
}

/// Rounding an exact multiple of the denominator gives the quotient back.
pub proof fn lemma_rnd_exact(a: int, den: int)
    requires
        1 <= den,
    ensures
        rnd(a * den, den) == a,
{
    if a * den >= 0 {
        assert(2 * (a * den) + den == (2 * den) * a + den) by (nonlinear_arith);
        lemma_div_multiples_vanish_fancy(a, den, 2 * den);
    } else {
        assert(2 * (-(a * den)) + den == (2 * den) * (-a) + den) by (nonlinear_arith);
        lemma_div_multiples_vanish_fancy(-a, den, 2 * den);
    }
}

/// A value between two integer bounds rounds to a result between those
/// bounds: if `lo <= num / den <= hi` then `lo <= rnd(num, den) <= hi`.
pub proof fn lemma_rnd_range(num: int, den: int, lo: int, hi: int)
    requires
        1 <= den,
        lo * den <= num,
        num <= hi * den,
    ensures
        lo <= rnd(num, den),
        rnd(num, den) <= hi,
{
    if num >= 0 {
        let q = (2 * num + den) / (2 * den);
        // upper bound
        assert(2 * num + den <= (2 * den) * hi + den) by (nonlinear_arith)
            requires num <= hi * den;
        lemma_div_is_ordered(2 * num + den, (2 * den) * hi + den, 2 * den);
        lemma_div_multiples_vanish_fancy(hi, den, 2 * den);
        // lower bound
        if lo >= 0 {
            assert((2 * den) * lo + den <= 2 * num + den) by (nonlinear_arith)
                requires lo * den <= num;
            lemma_div_is_ordered((2 * den) * lo + den, 2 * num + den, 2 * den);
            lemma_div_multiples_vanish_fancy(lo, den, 2 * den);
        } else {
            lemma_div_pos_is_pos(2 * num + den, 2 * den);
        }
    } else {
        let q = (2 * (-num) + den) / (2 * den);
        // num < 0 and num >= lo * den forces lo < 0
        assert(lo < 0) by (nonlinear_arith)
            requires lo * den <= num && num < 0 && den >= 1;
        // lower bound of rnd, i.e. upper bound of q: q <= -lo
        assert(2 * (-num) + den <= (2 * den) * (-lo) + den) by (nonlinear_arith)
            requires lo * den <= num;
        lemma_div_is_ordered(2 * (-num) + den, (2 * den) * (-lo) + den, 2 * den);
        lemma_div_multiples_vanish_fancy(-lo, den, 2 * den);
        // upper bound of rnd, i.e. lower bound of q
        if hi < 0 {
            assert((2 * den) * (-hi) + den <= 2 * (-num) + den) by (nonlinear_arith)
                requires num <= hi * den;
            lemma_div_is_ordered((2 * den) * (-hi) + den, 2 * (-num) + den, 2 * den);
            lemma_div_multiples_vanish_fancy(-hi, den, 2 * den);
        } else {
            lemma_div_pos_is_pos(2 * (-num) + den, 2 * den);
        }
    }
}

/// Computes `rnd(num, den)` with machine integers.
pub fn rnd_exec(num: i64, den: i64) -> (r: i64)
    requires
        1 <= den,
    ensures
        r as int == rnd(num as int, den as int),
{
    let d: u128 = den as u128;
    if num >= 0 {
        let n: u128 = num as u128;
        let q: u128 = (2 * n + d) / (2 * d);
        proof {
            lemma_div_pos_is_pos(2 * (num as int) + den as int, 2 * (den as int));
            lemma_mul_le_self(num as int, den as int);
            lemma_rnd_range(num as int, den as int, 0, num as int);
        }
        q as i64
    } else {
        let m: u128 = (-(num as i128)) as u128;
        let q: u128 = (2 * m + d) / (2 * d);
        proof {
            lemma_div_pos_is_pos(2 * (-(num as int)) + den as int, 2 * (den as int));
            lemma_mul_le_self(num as int, den as int);
            lemma_rnd_range(num as int, den as int, num as int, 0);
        }
        (-(q as i128)) as i64
    }
}

/// Multiplying by a denominator of at least one moves a value away from
/// zero, which bounds `rnd(num, den)` between `0` and `num`.
proof fn lemma_mul_le_self(num: int, den: int)
    requires
        1 <= den,
    ensures
        num >= 0 ==> num <= num * den,
        num < 0 ==> num * den <= num,
{
    assert(num >= 0 ==> num <= num * den) by (nonlinear_arith)
        requires 1 <= den;
    assert(num < 0 ==> num * den <= num) by (nonlinear_arith)
        requires 1 <= den;
}

} // verus!
