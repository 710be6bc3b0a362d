//! Proportional redistribution of "not stated" population counts.
//!
//! Per area and dataset, the count recorded under the not-stated column is
//! spread across the known categories in proportion to their shares:
//! `final = known + round(known / total_known * not_stated)`, rounded to the
//! nearest integer with halves rounding up (away from zero; all quantities
//! are non-negative). When nothing is known (`total_known == 0`) the known
//! count is kept as is and the not-stated units are dropped.

use vstd::arithmetic::div_mod::{
    lemma_fundamental_div_mod,
    lemma_fundamental_div_mod_converse,
    lemma_mod_bound,
};
use vstd::arithmetic::mul::lemma_mul_inequality;
use vstd::prelude::*;

verus! {

/// The rounded share of the not-stated count owed to a category with
/// `known` units out of `total > 0` known units:
/// `round(known * not_stated / total)`, halves up.
pub open spec fn rounded_share(known: int, total: int, not_stated: int) -> int {
    (2 * known * not_stated + total) / (2 * total)
}

/// The final count for one category after redistribution.
pub open spec fn final_count_spec(known: int, total: int, not_stated: int) -> int {
    if total > 0 {
        known + rounded_share(known, total, not_stated)
    } else {
        known
    }
}

/// The sum of a sequence of integers.
pub open spec fn seq_sum(s: Seq<int>) -> int
    decreases s.len(),
{
    if s.len() == 0 {
        0
    } else {
        seq_sum(s.drop_last()) + s.last()
    }
}

/// The sum of the final counts over the categories of one dataset, where
/// `s` holds the known count of each category.
pub open spec fn sum_final(s: Seq<int>, total: int, not_stated: int) -> int
    decreases s.len(),
{
    if s.len() == 0 {
        0
    } else {
        sum_final(s.drop_last(), total, not_stated) + final_count_spec(s.last(), total, not_stated)
    }
}

/// The final count for one category, computed exactly.
pub fn final_count(known: u32, total: u64, not_stated: u32) -> (r: u64)
    requires
        known <= total,
    ensures
        r == final_count_spec(known as int, total as int, not_stated as int),
        r <= known + not_stated,
{
    if total == 0 {
        known as u64
    } else {
        proof {
            assert((known as int) * (not_stated as int) <= 0xffff_ffff * 0xffff_ffff)
                by (nonlinear_arith)
                requires
                    0 <= known < 0x1_0000_0000,
                    0 <= not_stated < 0x1_0000_0000,
            ;
            assert(0 <= (known as int) * (not_stated as int)) by (nonlinear_arith)
                requires
                    0 <= known,
                    0 <= not_stated,
            ;
        }
        let kn: u128 = (known as u128) * (not_stated as u128);
        let num: u128 = 2 * kn + (total as u128);
        let den: u128 = 2 * (total as u128);
        let share: u128 = num / den;
        proof {
            lemma_rounded_share_le(known as int, total as int, not_stated as int);
            assert(2 * kn == 2 * (known as int) * (not_stated as int)) by (nonlinear_arith)
                requires
                    kn == (known as int) * (not_stated as int),
            ;
            assert(share == rounded_share(known as int, total as int, not_stated as int));
        }
        (known as u64) + (share as u64)
    }
}

/// With a positive known total, a category's rounded share never exceeds
/// the whole not-stated count.
pub proof fn lemma_rounded_share_le(known: int, total: int, not_stated: int)
    requires
        0 < total,
        0 <= known <= total,
        0 <= not_stated,
    ensures
        0 <= rounded_share(known, total, not_stated) <= not_stated,
{
    let num = 2 * known * not_stated + total;
    let den = 2 * total;
    lemma_fundamental_div_mod(num, den);
    lemma_mod_bound(num, den);
    assert(2 * known * not_stated <= 2 * total * not_stated) by (nonlinear_arith)
        requires
            0 <= known <= total,
            0 <= not_stated,
    ;
    assert(0 <= 2 * known * not_stated) by (nonlinear_arith)
        requires
            0 <= known,
            0 <= not_stated,
    ;
    let q = num / den;
    if q > not_stated {
        lemma_mul_inequality(not_stated + 1, q, den);
        assert((not_stated + 1) * den == 2 * total * not_stated + 2 * total) by (nonlinear_arith)
            requires
                den == 2 * total,
        ;
        assert(den * q <= num);
        assert(false);
    }
    if q < 0 {
        lemma_mul_inequality(q, -1, den);
        assert(q * den <= -1 * den);
        assert(den * q <= num);
        assert(false);
    }
}

/// Lower and upper bounds on one category's rounded share, scaled by the
/// divisor: the share is the true proportional share up to half a unit.
proof fn lemma_share_scaled_bounds(known: int, total: int, not_stated: int)
    requires
        0 < total,
        0 <= known,
        0 <= not_stated,
    ensures
        2 * total * rounded_share(known, total, not_stated) <= 2 * known * not_stated + total,
        2 * total * rounded_share(known, total, not_stated) >= 2 * known * not_stated + total - (2
            * total - 1),
{
    let num = 2 * known * not_stated + total;
    let den = 2 * total;
    lemma_fundamental_div_mod(num, den);
    lemma_mod_bound(num, den);
}

/// Scaled bounds on the sum of rounded shares over a sequence of known
/// counts.
proof fn lemma_sum_share_bounds(s: Seq<int>, total: int, not_stated: int)
    requires
        0 < total,
        0 <= not_stated,
        forall|i: int| 0 <= i < s.len() ==> 0 <= #[trigger] s[i],
    ensures
        2 * total * (sum_final(s, total, not_stated) - seq_sum(s)) <= 2 * not_stated * seq_sum(s)
            + total * s.len(),
        2 * total * (sum_final(s, total, not_stated) - seq_sum(s)) >= 2 * not_stated * seq_sum(s)
            - (2 * total - 1) * s.len(),
    decreases s.len(),
{
    if s.len() == 0 {
        assert(2 * total * (sum_final(s, total, not_stated) - seq_sum(s)) == 0)
            by (nonlinear_arith)
            requires
                sum_final(s, total, not_stated) == 0,
                seq_sum(s) == 0,
        ;
        assert(2 * not_stated * seq_sum(s) == 0 && total * s.len() == 0 && (2 * total - 1)
            * s.len() == 0) by (nonlinear_arith)
            requires
                seq_sum(s) == 0,
                s.len() == 0,
        ;
    } else {
        let pre = s.drop_last();
        let k = s.last();
        assert(forall|i: int| 0 <= i < pre.len() ==> 0 <= #[trigger] pre[i]);
        lemma_sum_share_bounds(pre, total, not_stated);
        lemma_share_scaled_bounds(k, total, not_stated);
        assert(sum_final(s, total, not_stated) - seq_sum(s) == (sum_final(pre, total, not_stated)
            - seq_sum(pre)) + rounded_share(k, total, not_stated));
        assert(2 * total * (sum_final(s, total, not_stated) - seq_sum(s)) == 2 * total * (
        sum_final(pre, total, not_stated) - seq_sum(pre)) + 2 * total * rounded_share(
            k,
            total,
            not_stated,
        )) by (nonlinear_arith)
            requires
                sum_final(s, total, not_stated) - seq_sum(s) == (sum_final(pre, total, not_stated)
                    - seq_sum(pre)) + rounded_share(k, total, not_stated),
        ;
        assert(2 * not_stated * seq_sum(s) == 2 * not_stated * seq_sum(pre) + 2 * k * not_stated)
            by (nonlinear_arith)
            requires
                seq_sum(s) == seq_sum(pre) + k,
        ;
        assert(total * s.len() == total * pre.len() + total) by (nonlinear_arith)
            requires
                s.len() == pre.len() + 1,
        ;
        assert((2 * total - 1) * s.len() == (2 * total - 1) * pre.len() + (2 * total - 1))
            by (nonlinear_arith)
            requires
                s.len() == pre.len() + 1,
        ;
    }
}

/// Redistribution conserves the total population up to rounding: when the
/// known counts sum to a positive `total`, the final counts sum to
/// `total + not_stated`, off by at most the number of categories.
pub proof fn lemma_redistribution_conserves(s: Seq<int>, total: int, not_stated: int)
    requires
        0 < total,
        0 <= not_stated,
        forall|i: int| 0 <= i < s.len() ==> 0 <= #[trigger] s[i],
        seq_sum(s) == total,
    ensures
        total + not_stated - s.len() <= sum_final(s, total, not_stated) <= total + not_stated
            + s.len(),
{
    lemma_sum_share_bounds(s, total, not_stated);
    let d = sum_final(s, total, not_stated) - total;
    let m = s.len() as int;
    assert(2 * total * d <= 2 * not_stated * total + total * m);
    assert(2 * total * d >= 2 * not_stated * total - (2 * total - 1) * m);
    if d > not_stated + m {
        lemma_mul_inequality(not_stated + m + 1, d, 2 * total);
        assert((not_stated + m + 1) * (2 * total) > 2 * not_stated * total + total * m)
            by (nonlinear_arith)
            requires
                0 < total,
                0 <= m,
        ;
        assert(false);
    }
    if d < not_stated - m {
        lemma_mul_inequality(d, not_stated - m - 1, 2 * total);
        assert((not_stated - m - 1) * (2 * total) < 2 * not_stated * total - (2 * total - 1) * m)
            by (nonlinear_arith)
            requires
                0 < total,
                0 <= m,
        ;
        assert(false);
    }
}

/// With nothing to redistribute, the final count is exactly the known
/// count: a single category with no not-stated source keeps its raw value.
pub proof fn lemma_no_redistribution(known: int, total: int)
    requires
        0 <= known <= total,
    ensures
        final_count_spec(known, total, 0) == known,
{
    if total > 0 {
        assert(2 * known * 0 + total == total);
        lemma_fundamental_div_mod_converse(total, 2 * total, 0, total);
    }
}

} // verus!
