//! Capital-constrained quadratic funding: integer square root, per-project
//! ideal match, pool scaling and a round registry with write-once finalization.

pub mod ideal;
pub mod live;
pub mod scaling;
pub mod sqrt;
pub mod sums;
pub mod system;
pub mod types;

pub use ideal::calculate_project_ideal_match;
pub use live::distribute_matching;
pub use scaling::{calculate_strict_ideal_match, compute_alpha, scale_match};
pub use sqrt::sqrt_u128;
pub use system::QfSystem;
pub use types::{
    AccountId, Balance, Contribution, Project, ProjectWithMatching, QfError, Round, RoundData,
    Timestamp, ALPHA_ONE,
};
