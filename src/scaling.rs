use vstd::prelude::*;
use vstd::arithmetic::div_mod::{lemma_div_is_ordered, lemma_div_is_ordered_by_denominator};

use crate::ideal::{amounts, sum_amounts};
use crate::sqrt::{floor_sqrt, sqrt_u128};
use crate::sums::{all_nonneg, lemma_sum_prefix_le, lemma_sum_push, seq_sum};
use crate::types::{Contribution, QfError, ALPHA_ONE};

verus! {

/// The square roots of each contribution, one by one.
pub open spec fn strict_roots(cs: Seq<Contribution>) -> Seq<int> {
    cs.map_values(|c: Contribution| floor_sqrt(c.amount as nat) as int)
}

pub open spec fn strict_sum_sqrt(cs: Seq<Contribution>) -> int {
    seq_sum(strict_roots(cs))
}

/// The strict ideal match: the square of the sum of the roots of each
/// contribution less the sum of all amounts, with no floor at zero.
pub open spec fn strict_ideal_match(cs: Seq<Contribution>) -> int {
    strict_sum_sqrt(cs) * strict_sum_sqrt(cs) - sum_amounts(cs)
}

/// The strict ideal match can be computed in 128 bits and is not negative.
pub open spec fn strict_ideal_fits(cs: Seq<Contribution>) -> bool {
    sum_amounts(cs) <= u128::MAX && strict_sum_sqrt(cs) * strict_sum_sqrt(cs) <= u128::MAX
        && strict_ideal_match(cs) >= 0
}

/// The strict ideal match of a set of contributions, or an arithmetic error
/// where a step overflows or the difference would be negative.
pub fn calculate_strict_ideal_match(contributions: &Vec<Contribution>) -> (r: Result<
    u128,
    QfError,
>)
    ensures
        r.is_ok() <==> strict_ideal_fits(contributions@),
        r.is_ok() ==> r.unwrap() == strict_ideal_match(contributions@),
        r.is_err() ==> r == Err::<u128, QfError>(QfError::ArithmeticOverflow),
{
    let ghost cs = contributions@;
    let mut sum_sqrt: u128 = 0;
    let mut sum_contributions: u128 = 0;
    let mut overflow = false;
    let mut i: usize = 0;
    proof {
        assert(strict_roots(cs).take(0) =~= Seq::<int>::empty());
        assert(amounts(cs).take(0) =~= Seq::<int>::empty());
    }
    while i < contributions.len()
        invariant
            cs == contributions@,
            i <= cs.len(),
            !overflow ==> sum_sqrt == seq_sum(strict_roots(cs).take(i as int)),
            !overflow ==> sum_contributions == seq_sum(amounts(cs).take(i as int)),
            overflow ==> !strict_ideal_fits(cs),
        decreases cs.len() - i,
    {
        let amount = contributions[i].amount;
        let root = sqrt_u128(amount);
        proof {
            assert(strict_roots(cs).take(i + 1) =~= strict_roots(cs).take(i as int).push(
                root as int,
            ));
            assert(amounts(cs).take(i + 1) =~= amounts(cs).take(i as int).push(amount as int));
            lemma_sum_push(strict_roots(cs).take(i as int), root as int);
            lemma_sum_push(amounts(cs).take(i as int), amount as int);
            lemma_sum_prefix_le(strict_roots(cs), i + 1);
            lemma_sum_prefix_le(amounts(cs), i + 1);
        }
        if !overflow {
            match (sum_sqrt.checked_add(root), sum_contributions.checked_add(amount)) {
                (Some(s), Some(t)) => {
                    sum_sqrt = s;
                    sum_contributions = t;
                },
                _ => {
                    proof {
                        let ss = strict_sum_sqrt(cs);
                        if ss > u128::MAX {
                            assert(ss * ss > u128::MAX) by (nonlinear_arith)
                                requires
                                    ss > u128::MAX,
                            ;
                        }
                    }
                    overflow = true;
                },
            }
        }
        i = i + 1;
    }
    if overflow {
        return Err(QfError::ArithmeticOverflow);
    }
    proof {
        assert(strict_roots(cs).take(i as int) =~= strict_roots(cs));
        assert(amounts(cs).take(i as int) =~= amounts(cs));
    }
    match sum_sqrt.checked_mul(sum_sqrt) {
        Some(sq) => {
            if sq >= sum_contributions {
                Ok(sq - sum_contributions)
            } else {
                Err(QfError::ArithmeticOverflow)
            }
        },
        None => Err(QfError::ArithmeticOverflow),
    }
}

/// The scaling factor for a total ideal match and a matching pool, in
/// units of 1/10000: one where the pool covers the ideal matches (or there
/// are none), else the pool's share of the ideal total, rounded down and at
/// least one unit.
pub open spec fn alpha_of(total_ideal: int, pool: int) -> int {
    if total_ideal == 0 || total_ideal <= pool {
        ALPHA_ONE as int
    } else if pool * (ALPHA_ONE as int) / total_ideal >= 1 {
        pool * (ALPHA_ONE as int) / total_ideal
    } else {
        1
    }
}

/// `alpha_of` can be computed with a 128-bit intermediate product.
pub open spec fn alpha_fits(total_ideal: int, pool: int) -> bool {
    total_ideal == 0 || total_ideal <= pool || pool * (ALPHA_ONE as int) <= u128::MAX
}

/// The scaling factor for a total ideal match and a matching pool.
pub fn compute_alpha(total_ideal_match: u128, matching_pool: u128) -> (r: Result<u32, QfError>)
    ensures
        r.is_ok() <==> alpha_fits(total_ideal_match as int, matching_pool as int),
        r.is_ok() ==> r.unwrap() == alpha_of(total_ideal_match as int, matching_pool as int),
        r.is_err() ==> r == Err::<u32, QfError>(QfError::ArithmeticOverflow),
{
    if total_ideal_match == 0 || total_ideal_match <= matching_pool {
        return Ok(ALPHA_ONE);
    }
    match matching_pool.checked_mul(ALPHA_ONE as u128) {
        Some(p) => {
            let a = p / total_ideal_match;
            proof {
                lemma_alpha_bounds(total_ideal_match as int, matching_pool as int);
            }
            if a >= 1 {
                Ok(a as u32)
            } else {
                Ok(1)
            }
        },
        None => Err(QfError::ArithmeticOverflow),
    }
}

/// Alpha lies in `[1, ALPHA_ONE]`.
pub proof fn lemma_alpha_bounds(total_ideal: int, pool: int)
    requires
        total_ideal >= 0,
        pool >= 0,
    ensures
        1 <= alpha_of(total_ideal, pool) <= ALPHA_ONE,
{
    if total_ideal > 0 && total_ideal > pool {
        assert(pool * 10000 / total_ideal <= 10000) by (nonlinear_arith)
            requires
                0 <= pool < total_ideal,
        ;
    }
}

/// One project's match after scaling by `alpha`.
pub open spec fn scaled_of(ideal: int, alpha: int) -> int {
    if alpha >= ALPHA_ONE {
        ideal
    } else {
        ideal * alpha / (ALPHA_ONE as int)
    }
}

/// `scaled_of` can be computed in 128 bits.
pub open spec fn scaled_fits(ideal: int, alpha: int) -> bool {
    alpha >= ALPHA_ONE || ideal * alpha <= u128::MAX
}

/// One project's match after scaling by `alpha`.
pub fn scale_match(ideal_match: u128, alpha: u32) -> (r: Result<u128, QfError>)
    ensures
        r.is_ok() <==> scaled_fits(ideal_match as int, alpha as int),
        r.is_ok() ==> r.unwrap() == scaled_of(ideal_match as int, alpha as int),
        r.is_err() ==> r == Err::<u128, QfError>(QfError::ArithmeticOverflow),
{
    if alpha >= ALPHA_ONE {
        Ok(ideal_match)
    } else {
        match ideal_match.checked_mul(alpha as u128) {
            Some(p) => Ok(p / (ALPHA_ONE as u128)),
            None => Err(QfError::ArithmeticOverflow),
        }
    }
}

/// Alpha never rises as the total ideal match grows, and never falls as the
/// matching pool grows.
pub proof fn lemma_alpha_monotone(total1: int, total2: int, pool1: int, pool2: int)
    requires
        0 <= total1 <= total2,
        0 <= pool1 <= pool2,
    ensures
        alpha_of(total2, pool1) <= alpha_of(total1, pool1),
        alpha_of(total1, pool1) <= alpha_of(total1, pool2),
{
    lemma_alpha_bounds(total1, pool1);
    lemma_alpha_bounds(total2, pool1);
    lemma_alpha_bounds(total1, pool2);
    if total1 > 0 && total1 > pool1 {
        lemma_div_is_ordered_by_denominator(pool1 * 10000, total1, total2);
        if total1 > pool2 {
            lemma_div_is_ordered(pool1 * 10000, pool2 * 10000, total1);
        }
    }
}

/// The scaled matches of a sequence of ideal matches.
pub open spec fn scaled_all(ideals: Seq<int>, alpha: int) -> Seq<int> {
    ideals.map_values(|m: int| scaled_of(m, alpha))
}

proof fn lemma_scaled_sum_bound(ideals: Seq<int>, alpha: int)
    requires
        all_nonneg(ideals),
        1 <= alpha < ALPHA_ONE,
    ensures
        seq_sum(scaled_all(ideals, alpha)) * (ALPHA_ONE as int) <= seq_sum(ideals) * alpha,
    decreases ideals.len(),
{
    if ideals.len() > 0 {
        let rest = ideals.drop_last();
        let m = ideals.last();
        lemma_scaled_sum_bound(rest, alpha);
        assert(scaled_all(ideals, alpha).drop_last() =~= scaled_all(rest, alpha));
        assert((m * alpha / 10000) * 10000 <= m * alpha) by (nonlinear_arith)
            requires
                m >= 0,
                alpha >= 1,
        ;
        let a = seq_sum(scaled_all(rest, alpha));
        let b = seq_sum(rest);
        assert((a + m * alpha / 10000) * 10000 <= (b + m) * alpha) by (nonlinear_arith)
            requires
                a * 10000 <= b * alpha,
                (m * alpha / 10000) * 10000 <= m * alpha,
        ;
    }
}

/// Scaling never spends more than the pool, whenever alpha is not raised to
/// its floor of one unit (that is, whenever the pool covers the ideal total
/// or at least 1/10000 of it).
pub proof fn lemma_scaled_within_pool(ideals: Seq<int>, pool: int)
    requires
        all_nonneg(ideals),
        pool >= 0,
        seq_sum(ideals) <= pool || pool * (ALPHA_ONE as int) >= seq_sum(ideals),
    ensures
        seq_sum(scaled_all(ideals, alpha_of(seq_sum(ideals), pool))) <= pool,
{
    let total = seq_sum(ideals);
    let alpha = alpha_of(total, pool);
    crate::sums::lemma_sum_nonneg(ideals);
    lemma_alpha_bounds(total, pool);
    if alpha >= ALPHA_ONE {
        assert(scaled_all(ideals, alpha) =~= ideals);
        if total > pool {
            assert(pool * 10000 / total < 10000) by (nonlinear_arith)
                requires
                    0 <= pool < total,
            ;
        }
    } else {
        lemma_scaled_sum_bound(ideals, alpha);
        assert(total > pool);
        assert(pool * 10000 / total >= 1) by (nonlinear_arith)
            requires
                pool * 10000 >= total,
                total > 0,
        ;
        assert(alpha * total <= pool * 10000) by (nonlinear_arith)
            requires
                alpha == pool * 10000 / total,
                total > 0,
                pool >= 0,
        ;
        let s = seq_sum(scaled_all(ideals, alpha));
        assert(s <= pool) by (nonlinear_arith)
            requires
                s * 10000 <= total * alpha,
                alpha * total <= pool * 10000,
        ;
    }
}

} // verus!
