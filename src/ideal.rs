use vstd::prelude::*;

use crate::sqrt::{floor_sqrt, sqrt_u128};
use crate::sums::{
    all_nonneg, lemma_sum_elem_le, lemma_sum_nonneg, lemma_sum_prefix_le, lemma_sum_push,
    lemma_sum_update, seq_sum,
};
use crate::types::{AccountId, Contribution, QfError};

verus! {

/// Per-contributor totals below this use the linear fallback in the live formula.
pub const SMALL_TOTAL: u128 = 1000;

/// The amounts of a sequence of contributions, as integers.
pub open spec fn amounts(cs: Seq<Contribution>) -> Seq<int> {
    cs.map_values(|c: Contribution| c.amount as int)
}

/// The sum of all amounts.
pub open spec fn sum_amounts(cs: Seq<Contribution>) -> int {
    seq_sum(amounts(cs))
}

/// The first position of `who` among the grouped totals, or -1.
pub open spec fn find_contributor(g: Seq<(AccountId, int)>, who: AccountId) -> int
    decreases g.len(),
{
    if g.len() == 0 {
        -1
    } else {
        let r = find_contributor(g.drop_last(), who);
        if r >= 0 {
            r
        } else if g.last().0 == who {
            g.len() - 1
        } else {
            -1
        }
    }
}

/// Adds `a` to the total of `who`, or appends `who` with total `a`.
pub open spec fn add_to_group(g: Seq<(AccountId, int)>, who: AccountId, a: int) -> Seq<
    (AccountId, int),
> {
    let k = find_contributor(g, who);
    if k < 0 {
        g.push((who, a))
    } else {
        g.update(k, (who, g[k].1 + a))
    }
}

/// Each contributor with the sum of their amounts, in order of first appearance.
pub open spec fn contributor_totals(cs: Seq<Contribution>) -> Seq<(AccountId, int)>
    decreases cs.len(),
{
    if cs.len() == 0 {
        Seq::empty()
    } else {
        add_to_group(
            contributor_totals(cs.drop_last()),
            cs.last().contributor,
            cs.last().amount as int,
        )
    }
}

/// The totals alone.
pub open spec fn totals_only(g: Seq<(AccountId, int)>) -> Seq<int> {
    g.map_values(|p: (AccountId, int)| p.1)
}

/// What one contributor total adds to the sum of roots in the live formula.
pub open spec fn root_term(a: int) -> int {
    if a < SMALL_TOTAL {
        if a / 10 > 1 {
            a / 10
        } else {
            1
        }
    } else {
        floor_sqrt(a as nat) as int
    }
}

pub open spec fn roots_of(g: Seq<(AccountId, int)>) -> Seq<int> {
    g.map_values(|p: (AccountId, int)| root_term(p.1))
}

/// The quadratic-funding bonus, floored at zero.
pub open spec fn qf_bonus(sum_sqrt: int, sum_contributions: int) -> int {
    if sum_sqrt * sum_sqrt > sum_contributions {
        sum_sqrt * sum_sqrt - sum_contributions
    } else {
        0
    }
}

/// The sum of roots of the per-contributor totals.
pub open spec fn live_sum_sqrt(cs: Seq<Contribution>) -> int {
    seq_sum(roots_of(contributor_totals(cs)))
}

/// The live ideal match of one project's contributions.
pub open spec fn live_ideal_match(cs: Seq<Contribution>) -> int {
    qf_bonus(live_sum_sqrt(cs), sum_amounts(cs))
}

/// The live ideal match can be computed in 128 bits.
pub open spec fn live_ideal_fits(cs: Seq<Contribution>) -> bool {
    sum_amounts(cs) <= u128::MAX && live_sum_sqrt(cs) * live_sum_sqrt(cs) <= u128::MAX
}

pub proof fn lemma_find_range(g: Seq<(AccountId, int)>, who: AccountId)
    ensures
        -1 <= find_contributor(g, who) < g.len(),
        find_contributor(g, who) >= 0 ==> g[find_contributor(g, who)].0 == who,
    decreases g.len(),
{
    if g.len() > 0 {
        lemma_find_range(g.drop_last(), who);
    }
}

proof fn lemma_find_none(g: Seq<(AccountId, int)>, who: AccountId)
    requires
        forall|k: int| 0 <= k < g.len() ==> g[k].0 != who,
    ensures
        find_contributor(g, who) == -1,
    decreases g.len(),
{
    if g.len() > 0 {
        lemma_find_none(g.drop_last(), who);
    }
}

proof fn lemma_find_first(g: Seq<(AccountId, int)>, who: AccountId, j: int)
    requires
        0 <= j < g.len(),
        g[j].0 == who,
        forall|k: int| 0 <= k < j ==> g[k].0 != who,
    ensures
        find_contributor(g, who) == j,
    decreases g.len(),
{
    if j < g.len() - 1 {
        lemma_find_first(g.drop_last(), who, j);
    } else {
        lemma_find_none(g.drop_last(), who);
    }
}

proof fn lemma_amounts_push(cs: Seq<Contribution>, i: int)
    requires
        0 <= i < cs.len(),
    ensures
        amounts(cs.take(i + 1)) == amounts(cs.take(i)).push(cs[i].amount as int),
        amounts(cs.take(i + 1)) == amounts(cs).take(i + 1),
        sum_amounts(cs.take(i + 1)) == sum_amounts(cs.take(i)) + cs[i].amount,
{
    assert(amounts(cs.take(i + 1)) =~= amounts(cs.take(i)).push(cs[i].amount as int));
    assert(amounts(cs.take(i + 1)) =~= amounts(cs).take(i + 1));
    lemma_sum_push(amounts(cs.take(i)), cs[i].amount as int);
}

/// The grouped totals are non-negative and sum to the sum of all amounts.
pub proof fn lemma_totals_sum(cs: Seq<Contribution>)
    ensures
        all_nonneg(totals_only(contributor_totals(cs))),
        seq_sum(totals_only(contributor_totals(cs))) == sum_amounts(cs),
    decreases cs.len(),
{
    if cs.len() > 0 {
        let prev = cs.drop_last();
        lemma_totals_sum(prev);
        let g = contributor_totals(prev);
        let who = cs.last().contributor;
        let a = cs.last().amount as int;
        lemma_find_range(g, who);
        let k = find_contributor(g, who);
        if k < 0 {
            assert(totals_only(g.push((who, a))) =~= totals_only(g).push(a));
            lemma_sum_push(totals_only(g), a);
        } else {
            assert(totals_only(g.update(k, (who, g[k].1 + a))) =~= totals_only(g).update(
                k,
                g[k].1 + a,
            ));
            lemma_sum_update(totals_only(g), k, g[k].1 + a);
        }
        assert(amounts(cs).drop_last() =~= amounts(prev));
    }
}

proof fn lemma_roots_nonneg(g: Seq<(AccountId, int)>)
    ensures
        all_nonneg(roots_of(g)),
{
}

/// The sum of all amounts, or `None` where it does not fit in 128 bits.
pub fn sum_of_amounts(contributions: &Vec<Contribution>) -> (r: Option<u128>)
    ensures
        r.is_some() <==> sum_amounts(contributions@) <= u128::MAX,
        r.is_some() ==> r.unwrap() == sum_amounts(contributions@),
{
    let mut sum: u128 = 0;
    let mut i: usize = 0;
    while i < contributions.len()
        invariant
            i <= contributions@.len(),
            sum == sum_amounts(contributions@.take(i as int)),
        decreases contributions@.len() - i,
    {
        proof {
            lemma_amounts_push(contributions@, i as int);
        }
        match sum.checked_add(contributions[i].amount) {
            Some(s) => {
                sum = s;
            },
            None => {
                proof {
                    lemma_sum_prefix_le(amounts(contributions@), i + 1);
                }
                return None;
            },
        }
        i = i + 1;
    }
    assert(contributions@.take(i as int) =~= contributions@);
    Some(sum)
}

/// The grouped totals as integers.
pub open spec fn totals_view(v: Seq<(AccountId, u128)>) -> Seq<(AccountId, int)> {
    v.map_values(|p: (AccountId, u128)| (p.0, p.1 as int))
}

/// Groups contributions by contributor, summing the amounts of each.
fn group_by_contributor(contributions: &Vec<Contribution>) -> (r: Vec<(AccountId, u128)>)
    requires
        sum_amounts(contributions@) <= u128::MAX,
    ensures
        totals_view(r@) == contributor_totals(contributions@),
{
    let mut totals: Vec<(AccountId, u128)> = Vec::new();
    let mut i: usize = 0;
    proof {
        assert(contributions@.take(0) =~= Seq::<Contribution>::empty());
        assert(totals_view(totals@) =~= contributor_totals(contributions@.take(0)));
    }
    while i < contributions.len()
        invariant
            i <= contributions@.len(),
            sum_amounts(contributions@) <= u128::MAX,
            totals_view(totals@) == contributor_totals(contributions@.take(i as int)),
        decreases contributions@.len() - i,
    {
        let c = contributions[i];
        let ghost g = totals_view(totals@);
        let ghost prefix = contributions@.take(i as int);
        proof {
            assert(contributions@.take(i + 1).drop_last() =~= prefix);
            lemma_amounts_push(contributions@, i as int);
            lemma_sum_prefix_le(amounts(contributions@), i + 1);
            lemma_totals_sum(prefix);
        }
        let mut j: usize = 0;
        let mut found = false;
        while j < totals.len()
            invariant_except_break
                !found,
            invariant
                j <= totals@.len(),
                g == totals_view(totals@),
                forall|k: int| 0 <= k < j ==> g[k].0 != c.contributor,
            ensures
                j <= totals@.len(),
                forall|k: int| 0 <= k < j ==> g[k].0 != c.contributor,
                found ==> j < totals@.len() && g[j as int].0 == c.contributor,
                !found ==> j == totals@.len(),
            decreases totals@.len() - j,
        {
            if totals[j].0 == c.contributor {
                found = true;
                break;
            }
            j = j + 1;
        }
        if found {
            proof {
                lemma_find_first(g, c.contributor, j as int);
                assert(totals_only(g)[j as int] == g[j as int].1);
                assert(g[j as int].1 == totals[j as int].1 as int);
                lemma_sum_elem_le(totals_only(g), j as int);
            }
            let prev = totals[j].1;
            totals.set(j, (c.contributor, prev + c.amount));
            proof {
                assert(totals_view(totals@) =~= g.update(
                    j as int,
                    (c.contributor, g[j as int].1 + c.amount),
                ));
            }
        } else {
            proof {
                lemma_find_none(g, c.contributor);
            }
            totals.push((c.contributor, c.amount));
            proof {
                assert(totals_view(totals@) =~= g.push((c.contributor, c.amount as int)));
            }
        }
        i = i + 1;
    }
    assert(contributions@.take(i as int) =~= contributions@);
    totals
}

/// The live ideal match of one project's contributions: contributions are
/// grouped by contributor, each total below `SMALL_TOTAL` counts as
/// `max(total / 10, 1)` and any other as its square root, and the match is
/// the square of the sum of those values less the sum of all amounts, or zero.
pub fn calculate_project_ideal_match(contributions: &Vec<Contribution>) -> (r: Result<
    u128,
    QfError,
>)
    ensures
        r.is_ok() <==> live_ideal_fits(contributions@),
        r.is_ok() ==> r.unwrap() == live_ideal_match(contributions@),
        r.is_err() ==> r == Err::<u128, QfError>(QfError::ArithmeticOverflow),
{
    let sum_contributions = match sum_of_amounts(contributions) {
        Some(s) => s,
        None => {
            return Err(QfError::ArithmeticOverflow);
        },
    };
    let totals = group_by_contributor(contributions);
    let ghost g = contributor_totals(contributions@);
    let mut sum_sqrt: u128 = 0;
    let mut k: usize = 0;
    proof {
        assert(roots_of(g).take(0) =~= Seq::<int>::empty());
        lemma_roots_nonneg(g);
    }
    while k < totals.len()
        invariant
            k <= totals@.len(),
            g == totals_view(totals@),
            g == contributor_totals(contributions@),
            all_nonneg(roots_of(g)),
            sum_sqrt == seq_sum(roots_of(g).take(k as int)),
        decreases totals@.len() - k,
    {
        let a = totals[k].1;
        let term: u128 = if a < SMALL_TOTAL {
            if a / 10 > 1 {
                a / 10
            } else {
                1
            }
        } else {
            sqrt_u128(a)
        };
        proof {
            assert(roots_of(g).take(k + 1) =~= roots_of(g).take(k as int).push(term as int));
            lemma_sum_push(roots_of(g).take(k as int), term as int);
        }
        match sum_sqrt.checked_add(term) {
            Some(s) => {
                sum_sqrt = s;
            },
            None => {
                proof {
                    lemma_sum_prefix_le(roots_of(g), k + 1);
                    assert(seq_sum(roots_of(g).take(k + 1)) > u128::MAX);
                    assert(live_sum_sqrt(contributions@) == seq_sum(roots_of(g)));
                    let ss = live_sum_sqrt(contributions@);
                    assert(ss * ss > u128::MAX) by (nonlinear_arith)
                        requires
                            ss > u128::MAX,
                    ;
                }
                return Err(QfError::ArithmeticOverflow);
            },
        }
        k = k + 1;
    }
    proof {
        assert(roots_of(g).take(k as int) =~= roots_of(g));
    }
    let sqrt_squared = match sum_sqrt.checked_mul(sum_sqrt) {
        Some(s) => s,
        None => {
            return Err(QfError::ArithmeticOverflow);
        },
    };
    if sqrt_squared > sum_contributions {
        Ok(sqrt_squared - sum_contributions)
    } else {
        Ok(0)
    }
}

} // verus!

verus! {

/// The live ideal match is never negative.
pub proof fn lemma_live_ideal_nonneg(cs: Seq<Contribution>)
    ensures
        live_ideal_match(cs) >= 0,
{
}

/// With at most one distinct contributor there is no quadratic-funding
/// bonus, where that contributor's total is at least 1 and either at most
/// 109 or at least `SMALL_TOTAL` (between the two, the linear fallback
/// exceeds the true root).
pub proof fn lemma_single_contributor_no_bonus(cs: Seq<Contribution>)
    requires
        contributor_totals(cs).len() <= 1,
        contributor_totals(cs).len() == 1 ==> {
            let a = contributor_totals(cs)[0].1;
            (1 <= a <= 109 || a >= SMALL_TOTAL)
        },
    ensures
        live_ideal_match(cs) == 0,
{
    let g = contributor_totals(cs);
    lemma_totals_sum(cs);
    if g.len() == 0 {
        assert(roots_of(g) =~= Seq::<int>::empty());
        assert(totals_only(g) =~= Seq::<int>::empty());
        assert(seq_sum(Seq::<int>::empty()) == 0);
        assert(live_sum_sqrt(cs) == 0);
        assert(sum_amounts(cs) == 0);
    } else {
        let a = g[0].1;
        assert(totals_only(g)[0] == a);
        assert(a >= 0);
        assert(roots_of(g).drop_last() =~= Seq::<int>::empty());
        assert(totals_only(g).drop_last() =~= Seq::<int>::empty());
        assert(seq_sum(Seq::<int>::empty()) == 0);
        assert(totals_only(g).last() == a);
        assert(sum_amounts(cs) == a);
        let t = root_term(a);
        assert(live_sum_sqrt(cs) == t);
        if a >= SMALL_TOTAL {
            crate::sqrt::lemma_floor_sqrt(a as nat);
            assert(t == floor_sqrt(a as nat) as int);
            assert(t * t <= a);
        } else if a / 10 <= 1 {
            assert(1 <= a);
            assert(t * t <= a) by (nonlinear_arith)
                requires
                    t == 1,
                    1 <= a,
            ;
        } else if a / 10 > 1 {
            assert(t * t <= a) by (nonlinear_arith)
                requires
                    t == a / 10,
                    a <= 109,
                    t >= 0,
            ;
        }
        assert(t * t <= a);
        assert(qf_bonus(t, a) == 0);
    }
}

} // verus!

verus! {

/// `who` has a position among the grouped totals exactly when some entry
/// carries `who`.
pub proof fn lemma_find_exists(g: Seq<(AccountId, int)>, who: AccountId)
    ensures
        find_contributor(g, who) >= 0 <==> exists|k: int| 0 <= k < g.len() && g[k].0 == who,
    decreases g.len(),
{
    if g.len() > 0 {
        let h = g.drop_last();
        lemma_find_exists(h, who);
        if exists|k: int| 0 <= k < h.len() && h[k].0 == who {
            let k = choose|k: int| 0 <= k < h.len() && h[k].0 == who;
            assert(g[k].0 == who);
        }
        if exists|k: int| 0 <= k < g.len() && g[k].0 == who {
            let k = choose|k: int| 0 <= k < g.len() && g[k].0 == who;
            if k < h.len() {
                assert(h[k].0 == who);
            }
        }
    }
}

/// Grouping one more contribution: how the grouped totals change.
pub proof fn lemma_totals_push(s: Seq<Contribution>, c: Contribution, who: AccountId)
    ensures
        contributor_totals(s.push(c)) == add_to_group(
            contributor_totals(s),
            c.contributor,
            c.amount as int,
        ),
        find_contributor(contributor_totals(s.push(c)), who) >= 0 <==> (find_contributor(
            contributor_totals(s),
            who,
        ) >= 0 || c.contributor == who),
        contributor_totals(s.push(c)).len() == contributor_totals(s).len() + (if find_contributor(
            contributor_totals(s),
            c.contributor,
        ) < 0 {
            1int
        } else {
            0int
        }),
{
    assert(s.push(c).drop_last() =~= s);
    let g = contributor_totals(s);
    let g2 = contributor_totals(s.push(c));
    lemma_find_range(g, c.contributor);
    lemma_find_exists(g, who);
    lemma_find_exists(g2, who);
    let k = find_contributor(g, c.contributor);
    if k < 0 {
        if exists|m: int| 0 <= m < g.len() && g[m].0 == who {
            let m = choose|m: int| 0 <= m < g.len() && g[m].0 == who;
            assert(g2[m].0 == who);
        }
        if c.contributor == who {
            assert(g2[g.len() as int].0 == who);
        }
    } else {
        if exists|m: int| 0 <= m < g.len() && g[m].0 == who {
            let m = choose|m: int| 0 <= m < g.len() && g[m].0 == who;
            assert(g2[m].0 == who);
        }
        if exists|m: int| 0 <= m < g2.len() && g2[m].0 == who {
            let m = choose|m: int| 0 <= m < g2.len() && g2[m].0 == who;
            assert(g[m].0 == who);
        }
    }
}

} // verus!
