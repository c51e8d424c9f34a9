use qf_funding::{
    calculate_project_ideal_match, calculate_strict_ideal_match, compute_alpha,
    distribute_matching, scale_match, sqrt_u128, AccountId, Contribution, Project, QfError,
    QfSystem,
};

fn account(n: u8) -> AccountId {
    AccountId { bytes: [n; 32] }
}

fn gift(who: u8, project_id: u32, amount: u128) -> Contribution {
    Contribution {
        amount,
        contributor: account(who),
        project_id,
        round_id: 1,
        timestamp: 0,
    }
}

/// A registry with two projects and one open round over both.
fn two_project_round(pool: u128) -> QfSystem {
    let admin = account(0);
    let mut qf = QfSystem::new(admin, 1);
    assert_eq!(qf.add_project(admin), Ok(1));
    assert_eq!(qf.add_project(admin), Ok(2));
    assert_eq!(qf.create_round(admin, 1000, pool, vec![1, 2], 1), Ok(1));
    qf
}

#[test]
fn lib_constructor_works() {
    let qf_system = QfSystem::new(account(0), 1000);
    assert_eq!(qf_system.next_project_id(), 1);
    assert_eq!(qf_system.next_round_id(), 1);
}

#[test]
fn add_project_works() {
    let mut qf_system = QfSystem::new(account(0), 1000);
    let project_id = qf_system.add_project(account(0)).unwrap();
    assert_eq!(project_id, 1);
    assert_eq!(qf_system.next_project_id(), 2);
}

#[test]
fn constructor_works() {
    let mut qf_system = QfSystem::new(account(7), 1000);
    assert_eq!(qf_system.min_contribution(), 1000);
    assert!(qf_system.add_project(account(7)).is_ok());
}

#[test]
fn sqrt_small_bands() {
    let expected: [(u128, u128); 14] = [
        (0, 0), (1, 1), (3, 1), (4, 2), (8, 2), (9, 3), (15, 3), (16, 4), (24, 4),
        (35, 5), (48, 6), (63, 7), (80, 8), (99, 9),
    ];
    for (x, r) in expected {
        assert_eq!(sqrt_u128(x), r, "sqrt of {}", x);
    }
}

#[test]
fn sqrt_newton_values() {
    assert_eq!(sqrt_u128(100), 10);
    assert_eq!(sqrt_u128(101), 10);
    assert_eq!(sqrt_u128(120), 10);
    assert_eq!(sqrt_u128(121), 11);
    assert_eq!(sqrt_u128(1_000_000), 1000);
    assert_eq!(sqrt_u128(999_999), 999);
    assert_eq!(sqrt_u128(u128::MAX), u64::MAX as u128);
}

#[test]
fn sqrt_floor_property_on_range() {
    for x in 0u128..5000 {
        let r = sqrt_u128(x);
        assert!(r * r <= x && x < (r + 1) * (r + 1), "x = {}", x);
    }
}

#[test]
fn ideal_match_empty_is_zero() {
    assert_eq!(calculate_project_ideal_match(&vec![]), Ok(0));
}

#[test]
fn ideal_match_two_contributors() {
    let cs = vec![gift(1, 1, 100), gift(2, 1, 100)];
    // 100 < 1000: each counts as 100 / 10 = 10, so 20^2 - 200.
    assert_eq!(calculate_project_ideal_match(&cs), Ok(200));
}

#[test]
fn ideal_match_groups_by_contributor() {
    // One contributor giving twice: one total of 2500, root 50, no bonus.
    let cs = vec![gift(1, 1, 1000), gift(1, 1, 1500)];
    assert_eq!(calculate_project_ideal_match(&cs), Ok(0));
    // Two contributors of 2500 each: (50 + 50)^2 - 5000.
    let cs = vec![gift(1, 1, 1000), gift(2, 1, 2500), gift(1, 1, 1500)];
    assert_eq!(calculate_project_ideal_match(&cs), Ok(10000 - 5000));
}

#[test]
fn ideal_match_single_contributor_is_zero() {
    for a in [1u128, 5, 50, 109, 1000, 4096, 123_456] {
        assert_eq!(calculate_project_ideal_match(&vec![gift(9, 1, a)]), Ok(0), "a = {}", a);
    }
}

#[test]
fn ideal_match_single_small_contributor_fallback() {
    // 500 counts as 50 in the live formula: 50^2 - 500.
    assert_eq!(calculate_project_ideal_match(&vec![gift(9, 1, 500)]), Ok(2000));
}

#[test]
fn ideal_match_overflow_is_rejected() {
    let cs = vec![gift(1, 1, u128::MAX), gift(2, 1, 1)];
    assert_eq!(calculate_project_ideal_match(&cs), Err(QfError::ArithmeticOverflow));
}

#[test]
fn strict_ideal_match_values() {
    assert_eq!(calculate_strict_ideal_match(&vec![gift(1, 1, 100), gift(2, 1, 100)]), Ok(200));
    assert_eq!(calculate_strict_ideal_match(&vec![gift(3, 2, 400)]), Ok(0));
    assert_eq!(calculate_strict_ideal_match(&vec![]), Ok(0));
    // A single non-square amount: 1 - 2 would be negative.
    assert_eq!(
        calculate_strict_ideal_match(&vec![gift(3, 2, 2)]),
        Err(QfError::ArithmeticOverflow)
    );
}

#[test]
fn alpha_partial_funding_scenario() {
    assert_eq!(compute_alpha(1000, 100), Ok(1000));
    assert_eq!(scale_match(500, 1000), Ok(50));
}

#[test]
fn alpha_full_and_clamped() {
    assert_eq!(compute_alpha(0, 0), Ok(10000));
    assert_eq!(compute_alpha(200, 1000), Ok(10000));
    assert_eq!(compute_alpha(1000, 1000), Ok(10000));
    assert_eq!(compute_alpha(1001, 1000), Ok(9990));
    assert_eq!(compute_alpha(1_000_000, 1), Ok(1));
    assert_eq!(compute_alpha(u128::MAX, u128::MAX / 2), Err(QfError::ArithmeticOverflow));
    assert_eq!(scale_match(777, 10000), Ok(777));
    assert_eq!(scale_match(u128::MAX, 5000), Err(QfError::ArithmeticOverflow));
}

#[test]
fn alpha_monotone_samples() {
    let pool = 1000u128;
    let mut last = 10001u32;
    for total in [0u128, 500, 1000, 1500, 3000, 10_000, 1_000_000, 100_000_000] {
        let a = compute_alpha(total, pool).unwrap();
        assert!(a <= last);
        last = a;
    }
    let mut last = 0u32;
    for pool in [0u128, 10, 100, 999, 1000, 5000] {
        let a = compute_alpha(1000, pool).unwrap();
        assert!(a >= last);
        last = a;
    }
}

#[test]
fn distribution_never_overspends() {
    let projects = vec![
        Project { project_id: 1, total_contributions: 7000, contributor_count: 3 },
        Project { project_id: 2, total_contributions: 3000, contributor_count: 2 },
    ];
    let cs = vec![
        gift(1, 1, 2000), gift(2, 1, 3000), gift(3, 1, 2000),
        gift(4, 2, 1000), gift(5, 2, 2000),
    ];
    let (out, alpha, left) = distribute_matching(&projects, &cs, 5000).unwrap();
    let used: u128 = out.iter().map(|p| p.scaled_match).sum();
    assert!(used <= 5000);
    assert_eq!(left, 5000 - used);
    assert!(alpha < 10000);
}

#[test]
fn round_scenario_live_and_final() {
    let mut qf = two_project_round(1000);
    assert_eq!(qf.contribute(account(1), 2000, 1, 1, 100), Ok(()));
    assert_eq!(qf.contribute(account(2), 2000, 1, 1, 100), Ok(()));
    assert_eq!(qf.contribute(account(3), 2000, 1, 2, 400), Ok(()));
    // The strict formula: A = (10 + 10)^2 - 200 = 200, B = 20^2 - 400 = 0,
    // total 200 within the pool of 1000, so alpha is one.
    assert_eq!(qf.finalize_round(account(0), 1), Ok(10000));
    let data = qf.get_round_data(1).unwrap();
    assert_eq!(data.round_info.final_alpha, Some(10000));
    assert!(data.round_info.is_finalized);
    assert!(!data.round_info.active);
    // The live formula counts 400 (< 1000) as 40: B = 40^2 - 400 = 1200.
    assert_eq!(data.projects[0].ideal_match, 200);
    assert_eq!(data.projects[1].ideal_match, 1200);
    assert_eq!(data.current_alpha, 7142);
    assert_eq!(data.projects[0].scaled_match, 142);
    assert_eq!(data.projects[1].scaled_match, 857);
    assert_eq!(data.projects[0].total_funding, 200 + 142);
    assert_eq!(data.total_matching_available, 1000 - 142 - 857);
    assert_eq!(data.contributions.len(), 3);
}

#[test]
fn clamped_alpha_that_would_overspend_is_rejected() {
    let projects = vec![Project { project_id: 1, total_contributions: 2_000_000, contributor_count: 2 }];
    // Ideal match (1000 + 1000)^2 - 2_000_000 = 2_000_000; an empty pool
    // gives alpha 1, which would still pay out 200.
    let cs = vec![gift(1, 1, 1_000_000), gift(2, 1, 1_000_000)];
    assert_eq!(distribute_matching(&projects, &cs, 0), Err(QfError::ArithmeticOverflow));
    let (out, alpha, left) = distribute_matching(&projects, &cs, 200).unwrap();
    assert_eq!(alpha, 1);
    assert_eq!(out[0].scaled_match, 200);
    assert_eq!(left, 0);
}

#[test]
fn scaling_scenario_two_projects_within_pool() {
    let projects = vec![
        Project { project_id: 1, total_contributions: 200, contributor_count: 2 },
        Project { project_id: 2, total_contributions: 4000, contributor_count: 1 },
    ];
    let cs = vec![gift(1, 1, 100), gift(2, 1, 100), gift(3, 2, 4000)];
    let (out, alpha, left) = distribute_matching(&projects, &cs, 1000).unwrap();
    assert_eq!(alpha, 10000);
    assert_eq!(out[0].ideal_match, 200);
    assert_eq!(out[0].scaled_match, 200);
    assert_eq!(out[1].ideal_match, 0);
    assert_eq!(out[1].scaled_match, 0);
    assert_eq!(out[1].total_funding, 4000);
    assert_eq!(left, 800);
}

#[test]
fn empty_round_keeps_whole_pool() {
    let qf = two_project_round(5000);
    let data = qf.get_round_data(1).unwrap();
    assert_eq!(data.current_alpha, 10000);
    assert_eq!(data.projects.len(), 2);
    assert!(data.projects.iter().all(|p| p.scaled_match == 0 && p.ideal_match == 0));
    assert_eq!(data.total_matching_available, 5000);
}

#[test]
fn finalize_is_write_once() {
    let mut qf = two_project_round(1000);
    assert_eq!(qf.contribute(account(1), 1500, 1, 1, 100), Ok(()));
    assert_eq!(qf.contribute(account(2), 1500, 1, 1, 100), Ok(()));
    let first = qf.finalize_round(account(0), 1).unwrap();
    assert_eq!(qf.finalize_round(account(0), 1), Err(QfError::AlreadyFinalized));
    let data = qf.get_round_data(1).unwrap();
    assert_eq!(data.round_info.final_alpha, Some(first));
}

#[test]
fn finalize_errors() {
    let mut qf = two_project_round(1000);
    assert_eq!(qf.finalize_round(account(5), 1), Err(QfError::Unauthorized));
    assert_eq!(qf.finalize_round(account(0), 9), Err(QfError::RoundNotFound));
    assert_eq!(qf.contribute(account(1), 1500, 1, 1, 2), Ok(()));
    assert_eq!(qf.finalize_round(account(0), 1), Err(QfError::ArithmeticOverflow));
}

#[test]
fn contribute_errors() {
    let admin = account(0);
    let mut qf = QfSystem::new(admin, 10);
    qf.add_project(admin).unwrap();
    qf.add_project(admin).unwrap();
    qf.add_project(admin).unwrap();
    qf.create_round(admin, 1000, 500, vec![1, 2], 1).unwrap();
    assert_eq!(qf.contribute(account(1), 1000, 1, 1, 9), Err(QfError::BelowMinimum));
    assert_eq!(qf.contribute(account(1), 1000, 2, 1, 10), Err(QfError::RoundNotFound));
    assert_eq!(qf.contribute(account(1), 999, 1, 1, 10), Err(QfError::OutOfWindow));
    assert_eq!(qf.contribute(account(1), 1000 + 3_600_001, 1, 1, 10), Err(QfError::OutOfWindow));
    assert_eq!(qf.contribute(account(1), 1000, 1, 3, 10), Err(QfError::NotEligible));
    assert_eq!(qf.contribute(account(1), 1000 + 3_600_000, 1, 1, 16), Ok(()));
    qf.finalize_round(admin, 1).unwrap();
    assert_eq!(qf.contribute(account(1), 1000, 1, 1, 10), Err(QfError::InactiveRound));
}

#[test]
fn contribution_total_overflow_is_rejected() {
    let admin = account(0);
    let mut qf = QfSystem::new(admin, 0);
    qf.add_project(admin).unwrap();
    qf.create_round(admin, 0, 0, vec![1], 1).unwrap();
    assert_eq!(qf.contribute(account(1), 0, 1, 1, u128::MAX), Ok(()));
    assert_eq!(qf.contribute(account(2), 0, 1, 1, 1), Err(QfError::ArithmeticOverflow));
}

#[test]
fn admin_only_and_missing_projects() {
    let admin = account(0);
    let mut qf = QfSystem::new(admin, 1);
    assert_eq!(qf.add_project(account(1)), Err(QfError::Unauthorized));
    assert_eq!(qf.create_round(account(1), 0, 10, vec![], 1), Err(QfError::Unauthorized));
    assert_eq!(qf.create_round(admin, 0, 10, vec![1], 1), Err(QfError::ProjectNotFound));
    qf.add_project(admin).unwrap();
    assert_eq!(qf.create_round(admin, u64::MAX, 10, vec![1], 1), Err(QfError::ArithmeticOverflow));
    assert_eq!(qf.create_round(admin, 0, 10, vec![1], 2), Ok(1));
    assert_eq!(qf.next_round_id(), 2);
    assert_eq!(qf.get_round_data(2).unwrap_err(), QfError::RoundNotFound);
}

#[test]
fn contributor_count_counts_distinct() {
    let mut qf = two_project_round(1000);
    qf.contribute(account(1), 1000, 1, 1, 100).unwrap();
    qf.contribute(account(1), 1000, 1, 1, 50).unwrap();
    qf.contribute(account(2), 1000, 1, 1, 20).unwrap();
    qf.contribute(account(1), 1000, 1, 2, 5).unwrap();
    let data = qf.get_round_data(1).unwrap();
    assert_eq!(data.projects[0].project.total_contributions, 170);
    assert_eq!(data.projects[0].project.contributor_count, 2);
    assert_eq!(data.projects[1].project.contributor_count, 1);
}

#[test]
fn user_stats_and_active_rounds() {
    let admin = account(0);
    let mut qf = QfSystem::new(admin, 1);
    qf.add_project(admin).unwrap();
    qf.add_project(admin).unwrap();
    qf.create_round(admin, 0, 100, vec![1, 2], 1).unwrap();
    qf.create_round(admin, 0, 100, vec![2], 2).unwrap();
    qf.contribute(account(1), 10, 1, 1, 5).unwrap();
    qf.contribute(account(1), 10, 2, 2, 9).unwrap();
    qf.contribute(account(1), 10, 1, 2, 11).unwrap();
    qf.contribute(account(2), 10, 1, 1, 100).unwrap();
    assert_eq!(qf.get_user_stats(account(1)), (25, 2, vec![1, 2]));
    assert_eq!(qf.get_user_stats(account(3)), (0, 0, vec![]));
    assert_eq!(qf.get_active_rounds(10), vec![1, 2]);
    assert_eq!(qf.get_active_rounds(3_600_001), vec![2]);
    qf.finalize_round(admin, 2).unwrap();
    assert_eq!(qf.get_active_rounds(10), vec![1]);
}

#[test]
fn error_messages() {
    assert_eq!(QfError::AlreadyFinalized.message(), "Round already finalized");
    assert_eq!(QfError::RoundNotFound.message(), "Round does not exist");
}
