use bench_king::optimize::calculate_optimal_performance;
use bench_king::prioritize::sort_roster_slots_by_restrictivness;
use bench_king::types::{
    BenchKingError, PlayerPerformance, ProgressTracker, RosterSlot, TeamWeekPerformance,
    BENCH_SLOT, IR_SLOT,
};

fn slot(slot: u32, restrictiveness: u32, count: i64) -> RosterSlot {
    RosterSlot { slot, restrictiveness, count }
}

fn player(player_id: i64, points: i64, lineup_slot: u32, eligible: &[u32]) -> PlayerPerformance {
    PlayerPerformance { player_id, points, lineup_slot, eligible_slots: eligible.to_vec() }
}

fn team(team_id: u32, total_points: i64, roster: Option<Vec<PlayerPerformance>>) -> TeamWeekPerformance {
    TeamWeekPerformance { team_id, total_points, roster }
}

#[test]
fn prioritize_orders_by_restrictiveness_then_id() {
    // QB (id 0) and kicker (id 17) share a short name length; the flex-like
    // slot (id 3) has a long one. Ties fall back to the slot identifier.
    let config = vec![
        slot(3, 8, 1),
        slot(17, 2, 1),
        slot(0, 2, 1),
        slot(16, 4, 2),
    ];
    let out = sort_roster_slots_by_restrictivness(&config).unwrap();
    let ids: Vec<u32> = out.iter().map(|rs| rs.slot).collect();
    assert_eq!(ids, vec![0, 17, 16, 3]);
    assert_eq!(out[3].count, 1);
}

#[test]
fn prioritize_excludes_bench_injury_reserve_and_zero_counts() {
    let config = vec![
        slot(BENCH_SLOT, 5, 7),
        slot(0, 2, 1),
        slot(IR_SLOT, 2, 2),
        slot(4, 2, 0),
        slot(2, 2, -3),
    ];
    let out = sort_roster_slots_by_restrictivness(&config).unwrap();
    assert_eq!(out.len(), 1);
    assert_eq!(out[0].slot, 0);
}

#[test]
fn prioritize_is_deterministic() {
    let config = vec![slot(6, 2, 1), slot(0, 2, 1), slot(2, 2, 2), slot(4, 2, 2)];
    let a = sort_roster_slots_by_restrictivness(&config).unwrap();
    let b = sort_roster_slots_by_restrictivness(&config).unwrap();
    assert_eq!(a, b);
    let ids: Vec<u32> = a.iter().map(|rs| rs.slot).collect();
    assert_eq!(ids, vec![0, 2, 4, 6]);
}

#[test]
fn prioritize_only_bench_and_ir_is_empty_configuration() {
    let config = vec![slot(BENCH_SLOT, 5, 7), slot(IR_SLOT, 2, 1)];
    let r = sort_roster_slots_by_restrictivness(&config);
    assert_eq!(r, Err(BenchKingError::EmptyConfiguration));
}

#[test]
fn optimize_empty_roster_yields_zero_optimal() {
    let slots = vec![slot(0, 2, 1), slot(2, 2, 2)];
    let t = calculate_optimal_performance(team(1, 123, Some(vec![])), &slots).unwrap();
    assert_eq!(t.optimal_points, 0);
    assert_eq!(t.actual_points, 123);
    assert_eq!(t.zero_point_starters, 0);
}

#[test]
fn optimize_missing_roster_is_data_unavailable() {
    let slots = vec![slot(0, 2, 1)];
    let r = calculate_optimal_performance(team(1, 0, None), &slots);
    assert_eq!(r, Err(BenchKingError::DataUnavailable));
}

#[test]
fn optimize_two_players_fills_qb_then_flex() {
    // P1: 8.0 points, only QB. P2: 5.0 points, QB or flex. The QB slot is
    // considered first, takes P1, and the flex still gets P2: 13.0 total.
    let qb = 0u32;
    let flex = 3u32;
    let slots = vec![slot(qb, 2, 1), slot(flex, 8, 1)];
    let roster = vec![
        player(1, 80, qb, &[qb]),
        player(2, 50, BENCH_SLOT, &[qb, flex]),
    ];
    let t = calculate_optimal_performance(team(9, 130, Some(roster)), &slots).unwrap();
    assert_eq!(t.optimal_points, 130);
}

#[test]
fn optimize_never_drafts_a_player_twice() {
    // One player eligible for both slots is counted once.
    let slots = vec![slot(0, 2, 1), slot(3, 8, 1)];
    let roster = vec![player(1, 100, 0, &[0, 3])];
    let t = calculate_optimal_performance(team(9, 100, Some(roster)), &slots).unwrap();
    assert_eq!(t.optimal_points, 100);
}

#[test]
fn optimize_prefers_higher_scorer_for_a_slot() {
    let slots = vec![slot(0, 2, 1)];
    let roster = vec![
        player(1, 30, BENCH_SLOT, &[0]),
        player(2, 90, 0, &[0]),
    ];
    let t = calculate_optimal_performance(team(9, 30, Some(roster)), &slots).unwrap();
    assert_eq!(t.optimal_points, 90);
}

#[test]
fn optimize_unfillable_slot_contributes_zero() {
    let slots = vec![slot(0, 2, 1), slot(17, 6, 1)];
    let roster = vec![player(1, 70, 0, &[0])];
    let t = calculate_optimal_performance(team(9, 70, Some(roster)), &slots).unwrap();
    assert_eq!(t.optimal_points, 70);
}

#[test]
fn optimize_counts_zero_point_starters() {
    let slots = vec![slot(0, 2, 1), slot(2, 2, 2)];
    let roster = vec![
        player(1, 0, 0, &[0]),          // scoring slot, zero points: counted
        player(2, 0, BENCH_SLOT, &[2]), // benched zero: not counted
        player(3, 0, IR_SLOT, &[2]),    // injury reserve zero: not counted
        player(4, 55, 2, &[2]),         // scored: not counted
    ];
    let t = calculate_optimal_performance(team(9, 55, Some(roster)), &slots).unwrap();
    assert_eq!(t.zero_point_starters, 1);
}

#[test]
fn suboptimal_points_is_optimal_minus_actual() {
    // Reported 9.5, optimal 13.0: 3.5 points were left behind.
    let t = ProgressTracker { optimal_points: 130, actual_points: 95, zero_point_starters: 0 };
    assert_eq!(t.suboptimal_points(), 35);
    assert_eq!(t.rounded_suboptimal(), 4);
}

#[test]
fn rounding_is_half_away_from_zero_for_display() {
    let up = ProgressTracker { optimal_points: 34, actual_points: 0, zero_point_starters: 0 };
    assert_eq!(up.rounded_suboptimal(), 3);
    let down = ProgressTracker { optimal_points: 0, actual_points: 35, zero_point_starters: 0 };
    assert_eq!(down.suboptimal_points(), -35);
    assert_eq!(down.rounded_suboptimal(), -4);
}

#[test]
fn add_combines_component_wise() {
    let a = ProgressTracker { optimal_points: 130, actual_points: 95, zero_point_starters: 1 };
    let b = ProgressTracker { optimal_points: 70, actual_points: -5, zero_point_starters: 2 };
    let c = a.add(b);
    assert_eq!(c.optimal_points, 200);
    assert_eq!(c.actual_points, 90);
    assert_eq!(c.zero_point_starters, 3);
}

#[test]
fn add_is_commutative_and_associative_on_values() {
    let a = ProgressTracker { optimal_points: 10, actual_points: 2, zero_point_starters: 1 };
    let b = ProgressTracker { optimal_points: 20, actual_points: 4, zero_point_starters: 0 };
    let c = ProgressTracker { optimal_points: 30, actual_points: 8, zero_point_starters: 2 };
    assert_eq!(a.add(b), b.add(a));
    assert_eq!(a.add(b).add(c), a.add(b.add(c)));
}

#[test]
fn greedy_is_a_heuristic_for_non_nested_eligibility() {
    // The documented approximation: slot A (more restrictive) takes the
    // top scorer X even though only X could have filled slot B, so the
    // greedy total is 10.0 where the true optimum (A=Y, B=X) is 19.0.
    let a = 0u32;
    let b = 2u32;
    let slots = vec![slot(a, 2, 1), slot(b, 4, 1)];
    let roster = vec![
        player(1, 100, a, &[a, b]), // X: 10.0 points, fits either slot
        player(2, 90, BENCH_SLOT, &[a]), // Y: 9.0 points, fits only A
    ];
    let t = calculate_optimal_performance(team(9, 100, Some(roster)), &slots).unwrap();
    assert_eq!(t.optimal_points, 100);
}

#[test]
fn negative_scorers_are_never_drafted() {
    // The guaranteed floor: leaving the slot empty (0.0) beats starting a
    // player on -2.0, so the optimum is 0 and 2.0 points were left behind.
    let slots = vec![slot(0, 2, 1)];
    let roster = vec![player(1, -20, 0, &[0])];
    let t = calculate_optimal_performance(team(9, -20, Some(roster)), &slots).unwrap();
    assert_eq!(t.optimal_points, 0);
    assert_eq!(t.suboptimal_points(), 20);
}

#[test]
fn negative_scorer_is_skipped_for_a_positive_one() {
    let slots = vec![slot(0, 2, 2)];
    let roster = vec![
        player(1, -30, BENCH_SLOT, &[0]),
        player(2, 50, 0, &[0]),
    ];
    let t = calculate_optimal_performance(team(9, 50, Some(roster)), &slots).unwrap();
    assert_eq!(t.optimal_points, 50);
}
