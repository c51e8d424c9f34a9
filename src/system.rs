use vstd::prelude::*;

use crate::ideal::{
    amounts, contributor_totals, find_contributor, lemma_totals_push, sum_amounts,
};
use crate::live::{
    contributions_of_project, contributions_of_round, distribute_matching, live_alpha, live_entry,
    live_fits, scaled_of_projects,
};
use crate::scaling::{
    alpha_fits, alpha_of, calculate_strict_ideal_match, compute_alpha, strict_ideal_fits,
    strict_ideal_match,
};
use crate::sums::{all_nonneg, lemma_sum_prefix_le, lemma_sum_push, seq_sum};
use crate::types::{
    AccountId, Balance, Contribution, Project, ProjectWithMatching, QfError, Round, RoundData,
    Timestamp,
};

verus! {

/// Milliseconds in an hour.
pub const MS_PER_HOUR: u64 = 3_600_000;

/// The contributions to one project.
pub open spec fn of_project(cs: Seq<Contribution>, project_id: u32) -> Seq<Contribution> {
    cs.filter(|c: Contribution| c.project_id == project_id)
}

/// The contributions made in one round.
pub open spec fn of_round(cs: Seq<Contribution>, round_id: u32) -> Seq<Contribution> {
    cs.filter(|c: Contribution| c.round_id == round_id)
}

/// Filtering a sequence with one more element.
pub proof fn lemma_filter_push<A>(s: Seq<A>, x: A, pred: spec_fn(A) -> bool)
    ensures
        s.push(x).filter(pred) == (if pred(x) {
            s.filter(pred).push(x)
        } else {
            s.filter(pred)
        }),
{
    reveal(Seq::filter);
    assert(s.push(x).drop_last() =~= s);
}

/// Filtering keeps nothing where no element passes.
pub proof fn lemma_filter_none<A>(s: Seq<A>, pred: spec_fn(A) -> bool)
    requires
        forall|j: int| 0 <= j < s.len() ==> !pred(s[j]),
    ensures
        s.filter(pred) == Seq::<A>::empty(),
    decreases s.len(),
{
    reveal(Seq::filter);
    if s.len() > 0 {
        lemma_filter_none(s.drop_last(), pred);
    }
    assert(s.filter(pred) =~= Seq::<A>::empty());
}

/// `who` has contributed to the project before.
pub open spec fn has_contributed(cs: Seq<Contribution>, who: AccountId, project_id: u32) -> bool {
    exists|j: int| 0 <= j < cs.len() && cs[j].contributor == who && cs[j].project_id == project_id
}

/// Whether `x` occurs in `v`.
pub fn contains_id(v: &Vec<u32>, x: u32) -> (r: bool)
    ensures
        r == v@.contains(x),
{
    let mut i: usize = 0;
    while i < v.len()
        invariant
            i <= v@.len(),
            forall|k: int| 0 <= k < i ==> v@[k] != x,
        decreases v@.len() - i,
    {
        if v[i] == x {
            assert(v@[i as int] == x);
            return true;
        }
        i = i + 1;
    }
    false
}

/// A copy of a list of ids.
pub fn copy_ids(v: &Vec<u32>) -> (r: Vec<u32>)
    ensures
        r@ == v@,
{
    let mut out: Vec<u32> = Vec::new();
    let mut i: usize = 0;
    while i < v.len()
        invariant
            i <= v@.len(),
            out@ == v@.take(i as int),
        decreases v@.len() - i,
    {
        proof {
            assert(v@.take(i + 1) =~= v@.take(i as int).push(v@[i as int]));
        }
        out.push(v[i]);
        i = i + 1;
    }
    proof {
        assert(v@.take(i as int) =~= v@);
    }
    out
}

/// Two rounds hold the same values, the eligible ids compared as sequences.
pub open spec fn same_round(a: Round, b: Round) -> bool {
    &&& a.round_id == b.round_id
    &&& a.matching_pool == b.matching_pool
    &&& a.eligible_projects@ == b.eligible_projects@
    &&& a.start_time == b.start_time
    &&& a.end_time == b.end_time
    &&& a.active == b.active
    &&& a.final_alpha == b.final_alpha
    &&& a.is_finalized == b.is_finalized
}

/// A copy of a round.
pub fn copy_round(r: &Round) -> (c: Round)
    ensures
        same_round(c, *r),
{
    let ids = copy_ids(&r.eligible_projects);
    Round {
        round_id: r.round_id,
        matching_pool: r.matching_pool,
        eligible_projects: ids,
        start_time: r.start_time,
        end_time: r.end_time,
        active: r.active,
        final_alpha: r.final_alpha,
        is_finalized: r.is_finalized,
    }
}

/// The strict ideal match of each eligible project over a round's contributions.
pub open spec fn strict_ideals(cs: Seq<Contribution>, round_id: u32, ids: Seq<u32>) -> Seq<int> {
    Seq::new(ids.len(), |k: int| strict_ideal_match(of_project(of_round(cs, round_id), ids[k])))
}

/// The alpha fixed at finalization can be computed.
pub open spec fn finalize_fits(cs: Seq<Contribution>, r: Round) -> bool {
    let ideals = strict_ideals(cs, r.round_id, r.eligible_projects@);
    &&& forall|k: int|
        0 <= k < r.eligible_projects@.len() ==> strict_ideal_fits(
            of_project(of_round(cs, r.round_id), #[trigger] r.eligible_projects@[k]),
        )
    &&& seq_sum(ideals) <= u128::MAX
    &&& alpha_fits(seq_sum(ideals), r.matching_pool as int)
}

/// The alpha fixed at finalization.
pub open spec fn finalize_alpha(cs: Seq<Contribution>, r: Round) -> int {
    alpha_of(seq_sum(strict_ideals(cs, r.round_id, r.eligible_projects@)), r.matching_pool as int)
}

/// A round after finalization with `alpha`.
pub open spec fn finalized_round(r: Round, alpha: u32) -> Round {
    Round { final_alpha: Some(alpha), is_finalized: true, active: false, ..r }
}

/// Distinct values in order of first appearance.
pub open spec fn distinct_ids(s: Seq<u32>) -> Seq<u32>
    decreases s.len(),
{
    if s.len() == 0 {
        s
    } else if distinct_ids(s.drop_last()).contains(s.last()) {
        distinct_ids(s.drop_last())
    } else {
        distinct_ids(s.drop_last()).push(s.last())
    }
}

/// The contributions made by `who`.
pub open spec fn of_user(cs: Seq<Contribution>, who: AccountId) -> Seq<Contribution> {
    cs.filter(|c: Contribution| c.contributor == who)
}

/// The rounds of a sequence of contributions.
pub open spec fn round_ids(cs: Seq<Contribution>) -> Seq<u32> {
    cs.map_values(|c: Contribution| c.round_id)
}

/// The projects of a sequence of contributions.
pub open spec fn project_ids(cs: Seq<Contribution>) -> Seq<u32> {
    cs.map_values(|c: Contribution| c.project_id)
}

/// What `finalize_round` did, from the state before, the state after and its
/// result: the errors in the order they are checked, or the round's alpha
/// fixed, the round made inactive and everything else kept.
pub open spec fn finalize_post(
    before: QfSystem,
    after: QfSystem,
    caller: AccountId,
    round_id: u32,
    r: Result<u32, QfError>,
) -> bool {
    if caller != before.spec_admin() {
        r == Err::<u32, QfError>(QfError::Unauthorized) && after == before
    } else if !before.has_round(round_id) {
        r == Err::<u32, QfError>(QfError::RoundNotFound) && after == before
    } else if before.round(round_id).is_finalized {
        r == Err::<u32, QfError>(QfError::AlreadyFinalized) && after == before
    } else if !finalize_fits(before.spec_contributions(), before.round(round_id)) {
        r == Err::<u32, QfError>(QfError::ArithmeticOverflow) && after == before
    } else {
        &&& r is Ok
        &&& r.unwrap() == finalize_alpha(before.spec_contributions(), before.round(round_id))
        &&& after.spec_rounds().len() == before.spec_rounds().len()
        &&& forall|k: int|
            0 <= k < after.spec_rounds().len() && k != round_id - 1 ==> #[trigger] after.spec_rounds()[k]
                == before.spec_rounds()[k]
        &&& same_round(after.round(round_id), finalized_round(before.round(round_id), r.unwrap()))
        &&& after.spec_projects() == before.spec_projects()
        &&& after.spec_contributions() == before.spec_contributions()
        &&& after.spec_admin() == before.spec_admin()
        &&& after.spec_next_project_id() == before.spec_next_project_id()
        &&& after.spec_next_round_id() == before.spec_next_round_id()
        &&& after.spec_min_contribution() == before.spec_min_contribution()
    }
}

/// Finalization is write-once: once a round is finalized, a second
/// finalization by the admin fails with `AlreadyFinalized`, changes nothing,
/// and the round keeps the alpha of the first.
pub proof fn lemma_finalize_write_once(
    s0: QfSystem,
    s1: QfSystem,
    s2: QfSystem,
    caller: AccountId,
    round_id: u32,
    alpha: u32,
    r2: Result<u32, QfError>,
)
    requires
        s0.wf(),
        finalize_post(s0, s1, caller, round_id, Ok(alpha)),
        finalize_post(s1, s2, s1.spec_admin(), round_id, r2),
    ensures
        r2 == Err::<u32, QfError>(QfError::AlreadyFinalized),
        s2 == s1,
        s2.round(round_id).final_alpha == Some(alpha),
{
}

/// A round is open for contributions at `now`.
pub open spec fn is_open_at(r: Round, now: Timestamp) -> bool {
    r.active && r.start_time <= now && now <= r.end_time
}

/// The registry of projects, rounds and contributions, with an admin.
/// Project and round ids are given out in order from 1, and the project with
/// id `k` is stored at position `k - 1` (likewise for rounds).
pub struct QfSystem {
    admin: AccountId,
    projects: Vec<Project>,
    rounds: Vec<Round>,
    contributions: Vec<Contribution>,
    next_project_id: u32,
    next_round_id: u32,
    min_contribution: Balance,
}

impl QfSystem {
    /// The admin's account.
    pub closed spec fn spec_admin(&self) -> AccountId {
        self.admin
    }

    /// The registered projects, the one of id `k` at position `k - 1`.
    pub closed spec fn spec_projects(&self) -> Seq<Project> {
        self.projects@
    }

    /// The rounds, the one of id `k` at position `k - 1`.
    pub closed spec fn spec_rounds(&self) -> Seq<Round> {
        self.rounds@
    }

    /// Every contribution ever recorded, in order.
    pub closed spec fn spec_contributions(&self) -> Seq<Contribution> {
        self.contributions@
    }

    /// The id that the next project will get.
    pub closed spec fn spec_next_project_id(&self) -> u32 {
        self.next_project_id
    }

    /// The id that the next round will get.
    pub closed spec fn spec_next_round_id(&self) -> u32 {
        self.next_round_id
    }

    /// The smallest accepted contribution.
    pub closed spec fn spec_min_contribution(&self) -> Balance {
        self.min_contribution
    }

    /// A project of this id is registered.
    pub open spec fn has_project(&self, project_id: u32) -> bool {
        1 <= project_id && project_id < self.spec_next_project_id()
    }

    /// The project of a registered id.
    pub open spec fn project(&self, project_id: u32) -> Project {
        self.spec_projects()[project_id - 1]
    }

    /// A round of this id exists.
    pub open spec fn has_round(&self, round_id: u32) -> bool {
        1 <= round_id && round_id < self.spec_next_round_id()
    }

    /// The round of an existing id.
    pub open spec fn round(&self, round_id: u32) -> Round {
        self.spec_rounds()[round_id - 1]
    }

    /// Ids match positions; every contribution goes to a registered project;
    /// each project's total and contributor count agree with the
    /// contributions; a finalized round has its alpha and is inactive.
    pub closed spec fn wf(&self) -> bool {
        &&& self.next_project_id as int == self.projects@.len() + 1
        &&& self.next_round_id as int == self.rounds@.len() + 1
        &&& forall|k: int|
            0 <= k < self.projects@.len() ==> #[trigger] self.projects@[k].project_id == k + 1
        &&& forall|k: int|
            0 <= k < self.rounds@.len() ==> #[trigger] self.rounds@[k].round_id == k + 1
        &&& forall|k: int|
            0 <= k < self.rounds@.len() && (#[trigger] self.rounds@[k]).is_finalized ==> (
            self.rounds@[k].final_alpha.is_some() && !self.rounds@[k].active)
        &&& forall|j: int|
            0 <= j < self.contributions@.len() ==> 1 <= (
            #[trigger] self.contributions@[j]).project_id < self.next_project_id
        &&& forall|k: int|
            0 <= k < self.projects@.len() ==> (#[trigger] self.projects@[k]).total_contributions
                == sum_amounts(of_project(self.contributions@, (k + 1) as u32))
        &&& forall|k: int|
            0 <= k < self.projects@.len() ==> (#[trigger] self.projects@[k]).contributor_count
                == contributor_totals(of_project(self.contributions@, (k + 1) as u32)).len()
    }

    /// An empty registry whose admin is `caller`.
    pub fn new(caller: AccountId, min_contribution: Balance) -> (r: Self)
        ensures
            r.wf(),
            r.spec_admin() == caller,
            r.spec_min_contribution() == min_contribution,
            r.spec_projects().len() == 0,
            r.spec_rounds().len() == 0,
            r.spec_contributions().len() == 0,
            r.spec_next_project_id() == 1,
            r.spec_next_round_id() == 1,
    {
        QfSystem {
            admin: caller,
            projects: Vec::new(),
            rounds: Vec::new(),
            contributions: Vec::new(),
            next_project_id: 1,
            next_round_id: 1,
            min_contribution,
        }
    }

    /// The id that the next project will get.
    pub fn next_project_id(&self) -> (r: u32)
        ensures
            r == self.spec_next_project_id(),
    {
        self.next_project_id
    }

    /// The id that the next round will get.
    pub fn next_round_id(&self) -> (r: u32)
        ensures
            r == self.spec_next_round_id(),
    {
        self.next_round_id
    }

    /// The admin's account.
    pub fn admin(&self) -> (r: AccountId)
        ensures
            r == self.spec_admin(),
    {
        self.admin
    }

    /// The smallest accepted contribution.
    pub fn min_contribution(&self) -> (r: Balance)
        ensures
            r == self.spec_min_contribution(),
    {
        self.min_contribution
    }

    /// Registers a new project with no contributions; admin only.
    pub fn add_project(&mut self, caller: AccountId) -> (r: Result<u32, QfError>)
        requires
            old(self).wf(),
        ensures
            final(self).wf(),
            caller != old(self).spec_admin() ==> r == Err::<u32, QfError>(QfError::Unauthorized),
            caller == old(self).spec_admin() && old(self).spec_next_project_id() == u32::MAX ==> r
                == Err::<u32, QfError>(QfError::ArithmeticOverflow),
            r.is_err() ==> *final(self) == *old(self),
            caller == old(self).spec_admin() && old(self).spec_next_project_id() < u32::MAX
                ==> r == Ok::<u32, QfError>(old(self).spec_next_project_id()),
            r.is_ok() ==> {
                &&& final(self).spec_projects() == old(self).spec_projects().push(
                    (Project {
                        project_id: r.unwrap(),
                        total_contributions: 0,
                        contributor_count: 0,
                    }),
                )
                &&& final(self).spec_next_project_id() == old(self).spec_next_project_id() + 1
                &&& final(self).spec_rounds() == old(self).spec_rounds()
                &&& final(self).spec_contributions() == old(self).spec_contributions()
                &&& final(self).spec_admin() == old(self).spec_admin()
                &&& final(self).spec_next_round_id() == old(self).spec_next_round_id()
                &&& final(self).spec_min_contribution() == old(self).spec_min_contribution()
            },
    {
        if caller != self.admin {
            return Err(QfError::Unauthorized);
        }
        if self.next_project_id == u32::MAX {
            return Err(QfError::ArithmeticOverflow);
        }
        let project_id = self.next_project_id;
        let project = Project { project_id, total_contributions: 0, contributor_count: 0 };
        let ghost cs = self.contributions@;
        proof {
            let none = of_project(cs, project_id);
            lemma_filter_none(cs, |c: Contribution| c.project_id == project_id);
            assert(crate::ideal::amounts(none) =~= Seq::<int>::empty());
        }
        self.projects.push(project);
        self.next_project_id = self.next_project_id + 1;
        proof {
            assert forall|k: int| 0 <= k < self.projects@.len() implies (
            #[trigger] self.projects@[k]).total_contributions == sum_amounts(
                of_project(self.contributions@, (k + 1) as u32),
            ) && self.projects@[k].contributor_count == contributor_totals(
                of_project(self.contributions@, (k + 1) as u32),
            ).len() by {
                if k == self.projects@.len() - 1 {
                    assert(of_project(cs, project_id) =~= Seq::<Contribution>::empty());
                }
            }
        }
        Ok(project_id)
    }

    /// Opens a round over registered projects, from `now` for
    /// `duration_hours` hours; admin only.
    pub fn create_round(
        &mut self,
        caller: AccountId,
        now: Timestamp,
        matching_pool: Balance,
        eligible_projects: Vec<u32>,
        duration_hours: u64,
    ) -> (r: Result<u32, QfError>)
        requires
            old(self).wf(),
        ensures
            final(self).wf(),
            r.is_err() ==> *final(self) == *old(self),
            caller != old(self).spec_admin() ==> r == Err::<u32, QfError>(QfError::Unauthorized),
            caller == old(self).spec_admin() && (exists|k: int|
                0 <= k < eligible_projects@.len() && !old(self).has_project(
                    #[trigger] eligible_projects@[k],
                )) ==> r == Err::<u32, QfError>(QfError::ProjectNotFound),
            caller == old(self).spec_admin() && (forall|k: int|
                0 <= k < eligible_projects@.len() ==> old(self).has_project(
                    #[trigger] eligible_projects@[k],
                )) ==> {
                if now + duration_hours * MS_PER_HOUR > u64::MAX || old(
                    self,
                ).spec_next_round_id() == u32::MAX {
                    r == Err::<u32, QfError>(QfError::ArithmeticOverflow)
                } else {
                    &&& r == Ok::<u32, QfError>(old(self).spec_next_round_id())
                    &&& final(self).spec_rounds() == old(self).spec_rounds().push(
                        (Round {
                            round_id: old(self).spec_next_round_id(),
                            matching_pool,
                            eligible_projects,
                            start_time: now,
                            end_time: (now + duration_hours * MS_PER_HOUR) as u64,
                            active: true,
                            final_alpha: None,
                            is_finalized: false,
                        }),
                    )
                    &&& final(self).spec_next_round_id() == old(self).spec_next_round_id() + 1
                    &&& final(self).spec_projects() == old(self).spec_projects()
                    &&& final(self).spec_contributions() == old(self).spec_contributions()
                    &&& final(self).spec_admin() == old(self).spec_admin()
                    &&& final(self).spec_next_project_id() == old(self).spec_next_project_id()
                    &&& final(self).spec_min_contribution() == old(
                        self,
                    ).spec_min_contribution()
                }
            },
    {
        if caller != self.admin {
            return Err(QfError::Unauthorized);
        }
        let mut i: usize = 0;
        while i < eligible_projects.len()
            invariant
                i <= eligible_projects@.len(),
                *self == *old(self),
                caller == old(self).spec_admin(),
                self.wf(),
                forall|k: int| 0 <= k < i ==> self.has_project(#[trigger] eligible_projects@[k]),
            decreases eligible_projects@.len() - i,
        {
            let id = eligible_projects[i];
            if id < 1 || id >= self.next_project_id {
                return Err(QfError::ProjectNotFound);
            }
            i = i + 1;
        }
        let span = match duration_hours.checked_mul(MS_PER_HOUR) {
            Some(s) => s,
            None => {
                return Err(QfError::ArithmeticOverflow);
            },
        };
        let end_time = match now.checked_add(span) {
            Some(e) => e,
            None => {
                return Err(QfError::ArithmeticOverflow);
            },
        };
        if self.next_round_id == u32::MAX {
            return Err(QfError::ArithmeticOverflow);
        }
        let round_id = self.next_round_id;
        let round = Round {
            round_id,
            matching_pool,
            eligible_projects,
            start_time: now,
            end_time,
            active: true,
            final_alpha: None,
            is_finalized: false,
        };
        self.rounds.push(round);
        self.next_round_id = self.next_round_id + 1;
        Ok(round_id)
    }

    /// Why a contribution would be refused, checked in this order, or `None`.
    pub open spec fn contribute_error(
        &self,
        caller: AccountId,
        now: Timestamp,
        round_id: u32,
        project_id: u32,
        amount: Balance,
    ) -> Option<QfError> {
        if amount < self.spec_min_contribution() {
            Some(QfError::BelowMinimum)
        } else if !self.has_round(round_id) {
            Some(QfError::RoundNotFound)
        } else if !self.round(round_id).active {
            Some(QfError::InactiveRound)
        } else if now < self.round(round_id).start_time || now > self.round(round_id).end_time {
            Some(QfError::OutOfWindow)
        } else if !self.round(round_id).eligible_projects@.contains(project_id) {
            Some(QfError::NotEligible)
        } else if !self.has_project(project_id) {
            Some(QfError::ProjectNotFound)
        } else if self.project(project_id).total_contributions + amount > u128::MAX || (
        !has_contributed(self.spec_contributions(), caller, project_id)
            && self.project(project_id).contributor_count == u32::MAX) {
            Some(QfError::ArithmeticOverflow)
        } else {
            None
        }
    }

    /// Records a contribution of `amount` from `caller` to a project in an
    /// open round at time `now`, and updates the project's total and, for a
    /// first contribution of `caller` to it, its contributor count.
    pub fn contribute(
        &mut self,
        caller: AccountId,
        now: Timestamp,
        round_id: u32,
        project_id: u32,
        amount: Balance,
    ) -> (r: Result<(), QfError>)
        requires
            old(self).wf(),
        ensures
            final(self).wf(),
            match old(self).contribute_error(caller, now, round_id, project_id, amount) {
                Some(e) => r == Err::<(), QfError>(e) && *final(self) == *old(self),
                None => {
                    let p = old(self).project(project_id);
                    let is_new = !has_contributed(old(self).spec_contributions(), caller, project_id);
                    &&& r == Ok::<(), QfError>(())
                    &&& final(self).spec_contributions() == old(self).spec_contributions().push(
                        (Contribution { amount, contributor: caller, project_id, round_id, timestamp: now }),
                    )
                    &&& final(self).spec_projects() == old(self).spec_projects().update(
                        project_id - 1,
                        (Project {
                            project_id,
                            total_contributions: (p.total_contributions + amount) as u128,
                            contributor_count: (if is_new {
                                p.contributor_count + 1
                            } else {
                                p.contributor_count as int
                            }) as u32,
                        }),
                    )
                    &&& final(self).spec_rounds() == old(self).spec_rounds()
                    &&& final(self).spec_admin() == old(self).spec_admin()
                    &&& final(self).spec_next_project_id() == old(self).spec_next_project_id()
                    &&& final(self).spec_next_round_id() == old(self).spec_next_round_id()
                    &&& final(self).spec_min_contribution() == old(self).spec_min_contribution()
                },
            },
    {
        if amount < self.min_contribution {
            return Err(QfError::BelowMinimum);
        }
        if round_id < 1 || round_id >= self.next_round_id {
            return Err(QfError::RoundNotFound);
        }
        let ri = (round_id - 1) as usize;
        if !self.rounds[ri].active {
            return Err(QfError::InactiveRound);
        }
        if now < self.rounds[ri].start_time || now > self.rounds[ri].end_time {
            return Err(QfError::OutOfWindow);
        }
        if !contains_id(&self.rounds[ri].eligible_projects, project_id) {
            return Err(QfError::NotEligible);
        }
        if project_id < 1 || project_id >= self.next_project_id {
            return Err(QfError::ProjectNotFound);
        }
        let pi = (project_id - 1) as usize;
        let project = self.projects[pi];
        let ghost cs = self.contributions@;
        let mut seen = false;
        let mut i: usize = 0;
        proof {
            assert(cs.take(0) =~= Seq::<Contribution>::empty());
            assert(of_project(cs.take(0), project_id) =~= Seq::<Contribution>::empty()) by {
                reveal(Seq::filter);
            }
        }
        while i < self.contributions.len()
            invariant
                cs == self.contributions@,
                i <= cs.len(),
                seen <==> exists|j: int|
                    0 <= j < i && cs[j].contributor == caller && cs[j].project_id == project_id,
                seen <==> find_contributor(
                    contributor_totals(of_project(cs.take(i as int), project_id)),
                    caller,
                ) >= 0,
            decreases cs.len() - i,
        {
            let c = self.contributions[i];
            proof {
                assert(cs.take(i + 1) =~= cs.take(i as int).push(c));
                lemma_filter_push(cs.take(i as int), c, |c: Contribution| c.project_id == project_id);
                lemma_totals_push(of_project(cs.take(i as int), project_id), c, caller);
            }
            if c.contributor == caller && c.project_id == project_id {
                seen = true;
            }
            i = i + 1;
        }
        proof {
            assert(cs.take(i as int) =~= cs);
        }
        let total = match project.total_contributions.checked_add(amount) {
            Some(t) => t,
            None => {
                return Err(QfError::ArithmeticOverflow);
            },
        };
        let count = if seen {
            project.contributor_count
        } else {
            if project.contributor_count == u32::MAX {
                return Err(QfError::ArithmeticOverflow);
            }
            project.contributor_count + 1
        };
        let contribution = Contribution {
            amount,
            contributor: caller,
            project_id,
            round_id,
            timestamp: now,
        };
        let ghost old_projects = self.projects@;
        self.contributions.push(contribution);
        self.projects.set(pi, Project { project_id, total_contributions: total, contributor_count: count });
        proof {
            let cs2 = self.contributions@;
            assert(cs2 == cs.push(contribution));
            assert forall|k: int| 0 <= k < self.projects@.len() implies {
                &&& (#[trigger] self.projects@[k]).total_contributions == sum_amounts(
                    of_project(cs2, (k + 1) as u32),
                )
                &&& self.projects@[k].contributor_count == contributor_totals(
                    of_project(cs2, (k + 1) as u32),
                ).len()
            } by {
                let q = (k + 1) as u32;
                lemma_filter_push(cs, contribution, |c: Contribution| c.project_id == q);
                if k == pi {
                    let s0 = of_project(cs, q);
                    assert(amounts(s0.push(contribution)) =~= amounts(s0).push(amount as int));
                    lemma_sum_push(amounts(s0), amount as int);
                    lemma_totals_push(s0, contribution, caller);
                } else {
                    assert(self.projects@[k] == old_projects[k]);
                }
            }
            assert forall|j: int| 0 <= j < cs2.len() implies 1 <= (
            #[trigger] cs2[j]).project_id < self.next_project_id by {
                if j < cs.len() {
                    assert(cs2[j] == cs[j]);
                }
            }
        }
        Ok(())
    }

    /// The registered projects of the given ids.
    pub open spec fn projects_of(&self, ids: Seq<u32>) -> Seq<Project> {
        Seq::new(ids.len(), |k: int| self.project(ids[k]))
    }

    /// Every id names a registered project.
    pub open spec fn all_registered(&self, ids: Seq<u32>) -> bool {
        forall|k: int| 0 <= k < ids.len() ==> self.has_project(#[trigger] ids[k])
    }

    /// The live distribution of a round over the given contributions: fails
    /// with `ProjectNotFound` where an eligible project is not registered, and
    /// otherwise as `distribute_matching` over the eligible projects.
    pub fn calculate_live_qf_distribution(
        &self,
        round: &Round,
        contributions: &Vec<Contribution>,
    ) -> (r: Result<(Vec<ProjectWithMatching>, u32, Balance), QfError>)
        requires
            self.wf(),
        ensures
            !self.all_registered(round.eligible_projects@) ==> r == Err::<
                (Vec<ProjectWithMatching>, u32, Balance),
                QfError,
            >(QfError::ProjectNotFound),
            self.all_registered(round.eligible_projects@) ==> {
                let ps = self.projects_of(round.eligible_projects@);
                let cs = contributions@;
                let pool = round.matching_pool as int;
                &&& r.is_ok() <==> live_fits(ps, cs, pool)
                &&& r.is_err() ==> r == Err::<(Vec<ProjectWithMatching>, u32, Balance), QfError>(
                    QfError::ArithmeticOverflow,
                )
                &&& r.is_ok() ==> {
                    let (out, alpha, left) = r.unwrap();
                    &&& out@.len() == ps.len()
                    &&& forall|k: int|
                        0 <= k < out@.len() ==> #[trigger] out@[k] == live_entry(ps, cs, pool, k)
                    &&& alpha == live_alpha(ps, cs, pool)
                    &&& left == pool - seq_sum(scaled_of_projects(ps, cs, pool))
                }
            },
    {
        let ids = &round.eligible_projects;
        let mut found: Vec<Project> = Vec::new();
        let mut i: usize = 0;
        while i < ids.len()
            invariant
                self.wf(),
                ids@ == round.eligible_projects@,
                i <= ids@.len(),
                found@.len() == i,
                forall|k: int| 0 <= k < i ==> self.has_project(#[trigger] ids@[k]),
                forall|k: int| 0 <= k < i ==> #[trigger] found@[k] == self.project(ids@[k]),
            decreases ids@.len() - i,
        {
            let id = ids[i];
            if id < 1 || id >= self.next_project_id {
                assert(!self.has_project(ids@[i as int]));
                assert(!self.all_registered(round.eligible_projects@)) by {
                    if self.all_registered(round.eligible_projects@) {
                        assert(self.has_project(round.eligible_projects@[i as int]));
                    }
                }
                return Err(QfError::ProjectNotFound);
            }
            found.push(self.projects[(id - 1) as usize]);
            i = i + 1;
        }
        proof {
            assert(found@ =~= self.projects_of(ids@));
            assert forall|k: int| 0 <= k < found@.len() implies #[trigger] found@[k].project_id
                == ids@[k] by {
                assert(self.projects@[ids@[k] - 1].project_id == ids@[k] - 1 + 1);
            }
        }
        distribute_matching(&found, contributions, round.matching_pool)
    }

    /// A round with its contributions and its live distribution.
    pub fn get_round_data(&self, round_id: u32) -> (r: Result<RoundData, QfError>)
        requires
            self.wf(),
        ensures
            !self.has_round(round_id) ==> r == Err::<RoundData, QfError>(QfError::RoundNotFound),
            self.has_round(round_id) ==> {
                let round = self.round(round_id);
                let ps = self.projects_of(round.eligible_projects@);
                let cs = of_round(self.spec_contributions(), round_id);
                let pool = round.matching_pool as int;
                &&& !self.all_registered(round.eligible_projects@) ==> r == Err::<
                    RoundData,
                    QfError,
                >(QfError::ProjectNotFound)
                &&& self.all_registered(round.eligible_projects@) ==> {
                    &&& r.is_ok() <==> live_fits(ps, cs, pool)
                    &&& r.is_err() ==> r == Err::<RoundData, QfError>(QfError::ArithmeticOverflow)
                    &&& r.is_ok() ==> {
                        let d = r.unwrap();
                        &&& same_round(d.round_info, round)
                        &&& d.contributions@ == cs
                        &&& d.projects@.len() == ps.len()
                        &&& forall|k: int|
                            0 <= k < d.projects@.len() ==> #[trigger] d.projects@[k] == live_entry(
                                ps,
                                cs,
                                pool,
                                k,
                            )
                        &&& d.current_alpha == live_alpha(ps, cs, pool)
                        &&& d.total_matching_available == pool - seq_sum(
                            scaled_of_projects(ps, cs, pool),
                        )
                    }
                }
            },
    {
        if round_id < 1 || round_id >= self.next_round_id {
            return Err(QfError::RoundNotFound);
        }
        let round = copy_round(&self.rounds[(round_id - 1) as usize]);
        let contributions = contributions_of_round(&self.contributions, round_id);
        match self.calculate_live_qf_distribution(&round, &contributions) {
            Ok((projects, current_alpha, total_matching_available)) => Ok(
                RoundData {
                    round_info: round,
                    projects,
                    contributions,
                    current_alpha,
                    total_matching_available,
                },
            ),
            Err(e) => Err(e),
        }
    }

    /// Fixes a round's alpha once and for all from the strict ideal match of
    /// each eligible project, and closes the round; admin only.
    pub fn finalize_round(&mut self, caller: AccountId, round_id: u32) -> (r: Result<u32, QfError>)
        requires
            old(self).wf(),
        ensures
            final(self).wf(),
            finalize_post(*old(self), *final(self), caller, round_id, r),
    {
        if caller != self.admin {
            return Err(QfError::Unauthorized);
        }
        if round_id < 1 || round_id >= self.next_round_id {
            return Err(QfError::RoundNotFound);
        }
        let ri = (round_id - 1) as usize;
        if self.rounds[ri].is_finalized {
            return Err(QfError::AlreadyFinalized);
        }
        let ghost before = *self;
        let ghost round = self.rounds@[ri as int];
        let ghost ids = round.eligible_projects@;
        let ghost ideals = strict_ideals(self.contributions@, round_id, ids);
        let in_round = contributions_of_round(&self.contributions, round_id);
        let mut total: u128 = 0;
        let mut k: usize = 0;
        let n = self.rounds[ri].eligible_projects.len();
        proof {
            assert(ideals.take(0) =~= Seq::<int>::empty());
        }
        while k < n
            invariant
                *self == before,
                before == *old(self),
                caller == before.admin,
                1 <= round_id < before.next_round_id,
                !round.is_finalized,
                self.wf(),
                ri == round_id - 1,
                ri < self.rounds@.len(),
                round == self.rounds@[ri as int],
                round.round_id == round_id,
                ids == round.eligible_projects@,
                n == ids.len(),
                ideals == strict_ideals(self.contributions@, round_id, ids),
                in_round@ == of_round(self.contributions@, round_id),
                k <= n,
                forall|j: int| 0 <= j < k ==> ideals[j] >= 0,
                forall|j: int|
                    0 <= j < k ==> strict_ideal_fits(
                        of_project(of_round(self.contributions@, round_id), #[trigger] ids[j]),
                    ),
                total == seq_sum(ideals.take(k as int)),
            decreases n - k,
        {
            let id = self.rounds[ri].eligible_projects[k];
            let own = contributions_of_project(&in_round, id);
            let ideal = match calculate_strict_ideal_match(&own) {
                Ok(v) => v,
                Err(e) => {
                    proof {
                        assert(id == ids[k as int]);
                        assert(!strict_ideal_fits(
                            of_project(of_round(self.contributions@, round_id), ids[k as int]),
                        ));
                        assert(!finalize_fits(self.contributions@, round));
                    }
                    return Err(e);
                },
            };
            proof {
                assert(ideals.take(k + 1) =~= ideals.take(k as int).push(ideal as int));
                lemma_sum_push(ideals.take(k as int), ideal as int);
            }
            total = match total.checked_add(ideal) {
                Some(t) => t,
                None => {
                    proof {
                        if forall|j: int|
                            0 <= j < ids.len() ==> strict_ideal_fits(
                                of_project(of_round(self.contributions@, round_id), #[trigger] ids[j]),
                            ) {
                            assert forall|j: int| 0 <= j < ideals.len() implies ideals[j] >= 0 by {
                                assert(strict_ideal_fits(
                                    of_project(of_round(self.contributions@, round_id), ids[j]),
                                ));
                            }
                            assert(all_nonneg(ideals));
                            lemma_sum_prefix_le(ideals, k + 1);
                            assert(seq_sum(ideals) > u128::MAX);
                        }
                        assert(!finalize_fits(self.contributions@, round));
                    }
                    return Err(QfError::ArithmeticOverflow);
                },
            };
            k = k + 1;
        }
        proof {
            assert(ideals.take(k as int) =~= ideals);
        }
        let alpha = match compute_alpha(total, self.rounds[ri].matching_pool) {
            Ok(a) => a,
            Err(e) => {
                return Err(e);
            },
        };
        let mut updated = copy_round(&self.rounds[ri]);
        updated.final_alpha = Some(alpha);
        updated.is_finalized = true;
        updated.active = false;
        self.rounds.set(ri, updated);
        Ok(alpha)
    }

    /// What `user` has contributed in all (saturating at the largest
    /// balance), the number of distinct projects supported (saturating at
    /// `u32::MAX`), and the distinct rounds participated in, in order of first
    /// contribution.
    pub fn get_user_stats(&self, user: AccountId) -> (r: (Balance, u32, Vec<u32>))
        ensures
            ({
                let mine = of_user(self.spec_contributions(), user);
                let n = distinct_ids(project_ids(mine)).len();
                &&& r.0 == (if sum_amounts(mine) > u128::MAX {
                    u128::MAX as int
                } else {
                    sum_amounts(mine)
                })
                &&& r.1 == (if n > u32::MAX {
                    u32::MAX as int
                } else {
                    n as int
                })
                &&& r.2@ == distinct_ids(round_ids(mine))
            }),
    {
        let ghost cs = self.contributions@;
        let mut total_contributed: u128 = 0;
        let mut overflowed = false;
        let mut projects_supported: Vec<u32> = Vec::new();
        let mut rounds_participated: Vec<u32> = Vec::new();
        let mut i: usize = 0;
        proof {
            assert(cs.take(0) =~= Seq::<Contribution>::empty());
            assert(of_user(cs.take(0), user) =~= Seq::<Contribution>::empty()) by {
                reveal(Seq::filter);
            }
            assert(project_ids(of_user(cs.take(0), user)) =~= Seq::<u32>::empty());
            assert(round_ids(of_user(cs.take(0), user)) =~= Seq::<u32>::empty());
            assert(amounts(of_user(cs.take(0), user)) =~= Seq::<int>::empty());
        }
        while i < self.contributions.len()
            invariant
                cs == self.contributions@,
                i <= cs.len(),
                overflowed <==> sum_amounts(of_user(cs.take(i as int), user)) > u128::MAX,
                !overflowed ==> total_contributed == sum_amounts(of_user(cs.take(i as int), user)),
                projects_supported@ == distinct_ids(project_ids(of_user(cs.take(i as int), user))),
                rounds_participated@ == distinct_ids(round_ids(of_user(cs.take(i as int), user))),
            decreases cs.len() - i,
        {
            let c = self.contributions[i];
            let ghost mine = of_user(cs.take(i as int), user);
            proof {
                assert(cs.take(i + 1) =~= cs.take(i as int).push(c));
                lemma_filter_push(cs.take(i as int), c, |c: Contribution| c.contributor == user);
            }
            if c.contributor == user {
                proof {
                    let mine2 = mine.push(c);
                    assert(amounts(mine2) =~= amounts(mine).push(c.amount as int));
                    lemma_sum_push(amounts(mine), c.amount as int);
                    assert(project_ids(mine2) =~= project_ids(mine).push(c.project_id));
                    assert(round_ids(mine2) =~= round_ids(mine).push(c.round_id));
                    assert(project_ids(mine2).drop_last() =~= project_ids(mine));
                    assert(round_ids(mine2).drop_last() =~= round_ids(mine));
                    assert(all_nonneg(amounts(mine)));
                    crate::sums::lemma_sum_nonneg(amounts(mine));
                }
                if !overflowed {
                    match total_contributed.checked_add(c.amount) {
                        Some(t) => {
                            total_contributed = t;
                        },
                        None => {
                            overflowed = true;
                        },
                    }
                }
                if !contains_id(&projects_supported, c.project_id) {
                    projects_supported.push(c.project_id);
                }
                if !contains_id(&rounds_participated, c.round_id) {
                    rounds_participated.push(c.round_id);
                }
            }
            i = i + 1;
        }
        proof {
            assert(cs.take(i as int) =~= cs);
        }
        let total = if overflowed {
            u128::MAX
        } else {
            total_contributed
        };
        let count: u32 = if projects_supported.len() > u32::MAX as usize {
            u32::MAX
        } else {
            projects_supported.len() as u32
        };
        (total, count, rounds_participated)
    }

    /// The ids of the rounds open for contributions at `now`, in id order.
    pub fn get_active_rounds(&self, now: Timestamp) -> (r: Vec<u32>)
        requires
            self.wf(),
        ensures
            forall|id: u32| r@.contains(id) <==> self.has_round(id) && is_open_at(self.round(id), now),
            forall|a: int, b: int| 0 <= a < b < r@.len() ==> r@[a] < r@[b],
    {
        let mut active_rounds: Vec<u32> = Vec::new();
        let mut i: usize = 0;
        while i < self.rounds.len()
            invariant
                self.wf(),
                i <= self.rounds@.len(),
                forall|id: u32|
                    active_rounds@.contains(id) <==> 1 <= id <= i && is_open_at(
                        self.rounds@[id - 1],
                        now,
                    ),
                forall|a: int| 0 <= a < active_rounds@.len() ==> 1 <= #[trigger] active_rounds@[a] <= i,
                forall|a: int, b: int|
                    0 <= a < b < active_rounds@.len() ==> active_rounds@[a] < active_rounds@[b],
            decreases self.rounds@.len() - i,
        {
            let round = &self.rounds[i];
            let ghost prev = active_rounds@;
            let x = (i + 1) as u32;
            if round.active && now >= round.start_time && now <= round.end_time {
                active_rounds.push(x);
            }
            proof {
                assert forall|id: u32|
                    active_rounds@.contains(id) <==> 1 <= id <= i + 1 && is_open_at(
                        self.rounds@[id - 1],
                        now,
                    ) by {
                    if prev.contains(id) {
                        let j = choose|j: int| 0 <= j < prev.len() && prev[j] == id;
                        assert(active_rounds@[j] == id);
                    }
                    if active_rounds@.contains(id) && id != x {
                        let j = choose|j: int|
                            0 <= j < active_rounds@.len() && active_rounds@[j] == id;
                        assert(prev[j] == id);
                    }
                    if id == x && is_open_at(self.rounds@[id - 1], now) {
                        assert(active_rounds@[active_rounds@.len() - 1] == id);
                    }
                }
            }
            i = i + 1;
        }
        active_rounds
    }
}

} // verus!
