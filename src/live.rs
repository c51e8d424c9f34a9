use vstd::prelude::*;

use crate::ideal::{
    calculate_project_ideal_match, lemma_live_ideal_nonneg, live_ideal_fits, live_ideal_match,
};
use crate::scaling::{
    alpha_fits, alpha_of, compute_alpha, lemma_alpha_bounds, scale_match, scaled_all,
    scaled_fits,
};
use crate::sums::{all_nonneg, lemma_sum_prefix_le, lemma_sum_push, seq_sum};
use crate::system::{lemma_filter_push, of_project, of_round};
use crate::types::{Balance, Contribution, Project, ProjectWithMatching, QfError};

verus! {

/// The contributions to one project, in order.
pub fn contributions_of_project(contributions: &Vec<Contribution>, project_id: u32) -> (r: Vec<
    Contribution,
>)
    ensures
        r@ == of_project(contributions@, project_id),
{
    let ghost cs = contributions@;
    let mut out: Vec<Contribution> = Vec::new();
    let mut i: usize = 0;
    proof {
        assert(cs.take(0) =~= Seq::<Contribution>::empty());
        assert(of_project(cs.take(0), project_id) =~= Seq::<Contribution>::empty()) by {
            reveal(Seq::filter);
        }
    }
    while i < contributions.len()
        invariant
            cs == contributions@,
            i <= cs.len(),
            out@ == of_project(cs.take(i as int), project_id),
        decreases cs.len() - i,
    {
        let c = contributions[i];
        proof {
            assert(cs.take(i + 1) =~= cs.take(i as int).push(c));
            lemma_filter_push(cs.take(i as int), c, |c: Contribution| c.project_id == project_id);
        }
        if c.project_id == project_id {
            out.push(c);
        }
        i = i + 1;
    }
    proof {
        assert(cs.take(i as int) =~= cs);
    }
    out
}

/// The contributions made in one round, in order.
pub fn contributions_of_round(contributions: &Vec<Contribution>, round_id: u32) -> (r: Vec<
    Contribution,
>)
    ensures
        r@ == of_round(contributions@, round_id),
{
    let ghost cs = contributions@;
    let mut out: Vec<Contribution> = Vec::new();
    let mut i: usize = 0;
    proof {
        assert(cs.take(0) =~= Seq::<Contribution>::empty());
        assert(of_round(cs.take(0), round_id) =~= Seq::<Contribution>::empty()) by {
            reveal(Seq::filter);
        }
    }
    while i < contributions.len()
        invariant
            cs == contributions@,
            i <= cs.len(),
            out@ == of_round(cs.take(i as int), round_id),
        decreases cs.len() - i,
    {
        let c = contributions[i];
        proof {
            assert(cs.take(i + 1) =~= cs.take(i as int).push(c));
            lemma_filter_push(cs.take(i as int), c, |c: Contribution| c.round_id == round_id);
        }
        if c.round_id == round_id {
            out.push(c);
        }
        i = i + 1;
    }
    proof {
        assert(cs.take(i as int) =~= cs);
    }
    out
}

/// The live ideal match of each project.
pub open spec fn ideals_of(ps: Seq<Project>, cs: Seq<Contribution>) -> Seq<int> {
    Seq::new(ps.len(), |k: int| live_ideal_match(of_project(cs, ps[k].project_id)))
}

/// The total live ideal match over the projects.
pub open spec fn total_ideal_of(ps: Seq<Project>, cs: Seq<Contribution>) -> int {
    seq_sum(ideals_of(ps, cs))
}

/// The alpha of the live distribution.
pub open spec fn live_alpha(ps: Seq<Project>, cs: Seq<Contribution>, pool: int) -> int {
    alpha_of(total_ideal_of(ps, cs), pool)
}

/// The scaled match of each project.
pub open spec fn scaled_of_projects(ps: Seq<Project>, cs: Seq<Contribution>, pool: int) -> Seq<
    int,
> {
    scaled_all(ideals_of(ps, cs), live_alpha(ps, cs, pool))
}

/// The live distribution can be computed in 128 bits and does not spend
/// more than the pool.
pub open spec fn live_fits(ps: Seq<Project>, cs: Seq<Contribution>, pool: int) -> bool {
    let ideals = ideals_of(ps, cs);
    let alpha = live_alpha(ps, cs, pool);
    let scaled = scaled_of_projects(ps, cs, pool);
    &&& forall|k: int| 0 <= k < ps.len() ==> live_ideal_fits(of_project(cs, #[trigger] ps[k].project_id))
    &&& total_ideal_of(ps, cs) <= u128::MAX
    &&& alpha_fits(total_ideal_of(ps, cs), pool)
    &&& forall|k: int| 0 <= k < ps.len() ==> scaled_fits(#[trigger] ideals[k], alpha)
    &&& forall|k: int|
        0 <= k < ps.len() ==> (#[trigger] ps[k]).total_contributions + scaled[k] <= u128::MAX
    &&& seq_sum(scaled) <= pool
}

/// Project `k` of the live distribution.
pub open spec fn live_entry(ps: Seq<Project>, cs: Seq<Contribution>, pool: int, k: int) -> ProjectWithMatching {
    ProjectWithMatching {
        project: ps[k],
        ideal_match: ideals_of(ps, cs)[k] as u128,
        scaled_match: scaled_of_projects(ps, cs, pool)[k] as u128,
        total_funding: (ps[k].total_contributions + scaled_of_projects(ps, cs, pool)[k]) as u128,
    }
}

proof fn lemma_scaled_nonneg(m: int, alpha: int)
    requires
        m >= 0,
        alpha >= 1,
    ensures
        crate::scaling::scaled_of(m, alpha) >= 0,
{
    assert(m * alpha / 10000 >= 0) by (nonlinear_arith)
        requires
            m >= 0,
            alpha >= 1,
    ;
}

/// The live distribution over the given projects: each project's ideal match
/// over its contributions, one alpha for all, each scaled match and total
/// funding, and what is left of the pool.
pub fn distribute_matching(
    projects: &Vec<Project>,
    contributions: &Vec<Contribution>,
    matching_pool: Balance,
) -> (r: Result<(Vec<ProjectWithMatching>, u32, Balance), QfError>)
    ensures
        r.is_ok() <==> live_fits(projects@, contributions@, matching_pool as int),
        r.is_err() ==> r == Err::<(Vec<ProjectWithMatching>, u32, Balance), QfError>(
            QfError::ArithmeticOverflow,
        ),
        r.is_ok() ==> {
            let (out, alpha, left) = r.unwrap();
            &&& out@.len() == projects@.len()
            &&& forall|k: int|
                0 <= k < out@.len() ==> #[trigger] out@[k] == live_entry(
                    projects@,
                    contributions@,
                    matching_pool as int,
                    k,
                )
            &&& alpha == live_alpha(projects@, contributions@, matching_pool as int)
            &&& left == matching_pool - seq_sum(
                scaled_of_projects(projects@, contributions@, matching_pool as int),
            )
        },
{
    let ghost ps = projects@;
    let ghost cs = contributions@;
    let ghost pool = matching_pool as int;
    let ghost ideals = ideals_of(ps, cs);
    let mut ideal_v: Vec<u128> = Vec::new();
    let mut total: u128 = 0;
    let mut k: usize = 0;
    proof {
        assert(ideals.take(0) =~= Seq::<int>::empty());
        assert forall|j: int| 0 <= j < ideals.len() implies ideals[j] >= 0 by {
            lemma_live_ideal_nonneg(of_project(cs, ps[j].project_id));
        }
    }
    while k < projects.len()
        invariant
            ps == projects@,
            cs == contributions@,
            ideals == ideals_of(ps, cs),
            all_nonneg(ideals),
            k <= ps.len(),
            ideal_v@.len() == k,
            forall|j: int| 0 <= j < k ==> #[trigger] ideal_v@[j] == ideals[j],
            forall|j: int| 0 <= j < k ==> live_ideal_fits(of_project(cs, #[trigger] ps[j].project_id)),
            total == seq_sum(ideals.take(k as int)),
        decreases ps.len() - k,
    {
        let own = contributions_of_project(contributions, projects[k].project_id);
        let ideal = match calculate_project_ideal_match(&own) {
            Ok(v) => v,
            Err(e) => {
                return Err(e);
            },
        };
        proof {
            assert(ideals.take(k + 1) =~= ideals.take(k as int).push(ideal as int));
            lemma_sum_push(ideals.take(k as int), ideal as int);
            lemma_sum_prefix_le(ideals, k + 1);
        }
        total = match total.checked_add(ideal) {
            Some(t) => t,
            None => {
                return Err(QfError::ArithmeticOverflow);
            },
        };
        ideal_v.push(ideal);
        k = k + 1;
    }
    proof {
        assert(ideals.take(k as int) =~= ideals);
    }
    let alpha = match compute_alpha(total, matching_pool) {
        Ok(a) => a,
        Err(e) => {
            return Err(e);
        },
    };
    let ghost scaled = scaled_all(ideals, alpha as int);
    proof {
        lemma_alpha_bounds(total as int, pool);
        assert forall|j: int| 0 <= j < scaled.len() implies scaled[j] >= 0 by {
            lemma_scaled_nonneg(ideals[j], alpha as int);
        }
        assert(scaled.take(0) =~= Seq::<int>::empty());
    }
    let mut out: Vec<ProjectWithMatching> = Vec::new();
    let mut used: u128 = 0;
    let mut k: usize = 0;
    while k < projects.len()
        invariant
            ps == projects@,
            cs == contributions@,
            ideals == ideals_of(ps, cs),
            pool == matching_pool as int,
            alpha == live_alpha(ps, cs, pool),
            scaled == scaled_of_projects(ps, cs, pool),
            all_nonneg(scaled),
            scaled.len() == ps.len(),
            ideal_v@.len() == ps.len(),
            forall|j: int| 0 <= j < ps.len() ==> #[trigger] ideal_v@[j] == ideals[j],
            k <= ps.len(),
            out@.len() == k,
            forall|j: int| 0 <= j < k ==> #[trigger] out@[j] == live_entry(ps, cs, pool, j),
            forall|j: int| 0 <= j < k ==> scaled_fits(#[trigger] ideals[j], alpha as int),
            forall|j: int|
                0 <= j < k ==> (#[trigger] ps[j]).total_contributions + scaled[j] <= u128::MAX,
            used == seq_sum(scaled.take(k as int)),
        decreases ps.len() - k,
    {
        let ideal = ideal_v[k];
        let scaled_match = match scale_match(ideal, alpha) {
            Ok(v) => v,
            Err(e) => {
                return Err(e);
            },
        };
        let project = projects[k];
        let total_funding = match project.total_contributions.checked_add(scaled_match) {
            Some(t) => t,
            None => {
                return Err(QfError::ArithmeticOverflow);
            },
        };
        proof {
            assert(scaled.take(k + 1) =~= scaled.take(k as int).push(scaled_match as int));
            lemma_sum_push(scaled.take(k as int), scaled_match as int);
            lemma_sum_prefix_le(scaled, k + 1);
        }
        used = match used.checked_add(scaled_match) {
            Some(u) => u,
            None => {
                return Err(QfError::ArithmeticOverflow);
            },
        };
        out.push(
            ProjectWithMatching { project, ideal_match: ideal, scaled_match, total_funding },
        );
        k = k + 1;
    }
    proof {
        assert(scaled.take(k as int) =~= scaled);
    }
    if used > matching_pool {
        return Err(QfError::ArithmeticOverflow);
    }
    Ok((out, alpha, matching_pool - used))
}

} // verus!
