use vstd::prelude::*;

verus! {

/// A currency amount in the smallest units.
pub type Balance = u128;

/// A point in time, in milliseconds.
pub type Timestamp = u64;

/// Fixed-point value of an alpha of one: full ideal funding.
pub const ALPHA_ONE: u32 = 10000;

/// A 32-byte account identity.
#[derive(Clone, Copy, Debug, Eq, Hash)]
pub struct AccountId {
    pub bytes: [u8; 32],
}

impl PartialEq for AccountId {
    fn eq(&self, o: &AccountId) -> (r: bool) {
        let mut i: usize = 0;
        while i < 32
            invariant
                i <= 32,
                forall|k: int| 0 <= k < i ==> self.bytes[k] == o.bytes[k],
            decreases 32 - i,
        {
            if self.bytes[i] != o.bytes[i] {
                return false;
            }
            i = i + 1;
        }
        proof {
            assert(self.bytes =~= o.bytes);
        }
        true
    }
}

impl vstd::std_specs::cmp::PartialEqSpecImpl for AccountId {
    open spec fn obeys_eq_spec() -> bool {
        true
    }

    open spec fn eq_spec(&self, o: &AccountId) -> bool {
        *self == *o
    }
}

/// One contribution: never changed once recorded.
#[derive(Clone, Copy, Debug, PartialEq, Eq)]
pub struct Contribution {
    pub amount: Balance,
    pub contributor: AccountId,
    pub project_id: u32,
    pub round_id: u32,
    pub timestamp: Timestamp,
}

/// A project with the running sum of what it received and its number of
/// distinct contributors.
#[derive(Clone, Copy, Debug, PartialEq, Eq)]
pub struct Project {
    pub project_id: u32,
    pub total_contributions: Balance,
    pub contributor_count: u32,
}

/// A funding round. `final_alpha` is set once, when the round is finalized.
#[derive(Clone, Debug, PartialEq, Eq)]
pub struct Round {
    pub round_id: u32,
    pub matching_pool: Balance,
    pub eligible_projects: Vec<u32>,
    pub start_time: Timestamp,
    pub end_time: Timestamp,
    pub active: bool,
    pub final_alpha: Option<u32>,
    pub is_finalized: bool,
}

/// A project with its ideal match, its match after scaling, and the sum of
/// its contributions and scaled match.
#[derive(Clone, Copy, Debug, PartialEq, Eq)]
pub struct ProjectWithMatching {
    pub project: Project,
    pub ideal_match: Balance,
    pub scaled_match: Balance,
    pub total_funding: Balance,
}

/// A snapshot of a round with its live matching.
#[derive(Clone, Debug, PartialEq, Eq)]
pub struct RoundData {
    pub round_info: Round,
    pub projects: Vec<ProjectWithMatching>,
    pub contributions: Vec<Contribution>,
    pub current_alpha: u32,
    pub total_matching_available: Balance,
}

/// Why a call was rejected.
#[derive(Clone, Copy, Debug, PartialEq, Eq, Structural)]
pub enum QfError {
    RoundNotFound,
    ProjectNotFound,
    NotEligible,
    InactiveRound,
    OutOfWindow,
    BelowMinimum,
    AlreadyFinalized,
    Unauthorized,
    ArithmeticOverflow,
}

impl QfError {
    /// A human-readable description of the error.
    pub fn message(&self) -> (r: &'static str) {
        match self {
            QfError::RoundNotFound => "Round does not exist",
            QfError::ProjectNotFound => "Project does not exist",
            QfError::NotEligible => "Project is not eligible for this round",
            QfError::InactiveRound => "Round is not active",
            QfError::OutOfWindow => "Round is not within active time period",
            QfError::BelowMinimum => "Contribution below minimum amount",
            QfError::AlreadyFinalized => "Round already finalized",
            QfError::Unauthorized => "Caller is not the admin",
            QfError::ArithmeticOverflow => "Arithmetic overflow",
        }
    }
}

} // verus!
