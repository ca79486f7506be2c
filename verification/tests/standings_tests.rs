use bench_king::records::{
    matchup_only_records, matchup_only_standings, MatchupOutcome, MatchupWinner, SimpleRecord,
};
use bench_king::season::aggregate_results;
use bench_king::standings::{bench_king, bench_king_standing_from_team_map};
use bench_king::types::{
    BenchKingError, Matchup, PlayerPerformance, ProgressTracker, RosterSlot, TeamWeekPerformance,
};
use bench_king::weekly::bench_king_details_for_week;

fn slot(slot: u32, restrictiveness: u32, count: i64) -> RosterSlot {
    RosterSlot { slot, restrictiveness, count }
}

fn player(player_id: i64, points: i64, lineup_slot: u32, eligible: &[u32]) -> PlayerPerformance {
    PlayerPerformance { player_id, points, lineup_slot, eligible_slots: eligible.to_vec() }
}

fn team(team_id: u32, total_points: i64, roster: Option<Vec<PlayerPerformance>>) -> TeamWeekPerformance {
    TeamWeekPerformance { team_id, total_points, roster }
}

fn tracker(optimal: i64, actual: i64, zeros: i64) -> ProgressTracker {
    ProgressTracker { optimal_points: optimal, actual_points: actual, zero_point_starters: zeros }
}

#[test]
fn details_for_week_optimizes_both_sides() {
    let slots = vec![slot(0, 2, 1)];
    let m = Matchup {
        away: team(1, 50, Some(vec![player(10, 80, bench_king::types::BENCH_SLOT, &[0]), player(11, 50, 0, &[0])])),
        home: team(2, 90, Some(vec![player(20, 90, 0, &[0])])),
    };
    let out = bench_king_details_for_week(vec![m], &slots).unwrap();
    assert_eq!(out.len(), 2);
    assert_eq!(out[0].0, 1);
    assert_eq!(out[0].1.optimal_points, 80);
    assert_eq!(out[0].1.actual_points, 50);
    assert_eq!(out[1].0, 2);
    assert_eq!(out[1].1.optimal_points, 90);
}

#[test]
fn details_for_week_first_result_wins_on_duplicate_team() {
    let slots = vec![slot(0, 2, 1)];
    let first = Matchup {
        away: team(1, 10, Some(vec![player(10, 10, 0, &[0])])),
        home: team(2, 20, Some(vec![player(20, 20, 0, &[0])])),
    };
    let second = Matchup {
        away: team(1, 99, Some(vec![player(30, 99, 0, &[0])])),
        home: team(3, 30, Some(vec![player(40, 30, 0, &[0])])),
    };
    let out = bench_king_details_for_week(vec![first, second], &slots).unwrap();
    assert_eq!(out.len(), 3);
    assert_eq!(out[0].0, 1);
    assert_eq!(out[0].1.actual_points, 10);
    assert_eq!(out[2].0, 3);
}

#[test]
fn details_for_week_missing_roster_is_data_unavailable() {
    let slots = vec![slot(0, 2, 1)];
    let m = Matchup {
        away: team(1, 50, Some(vec![player(10, 50, 0, &[0])])),
        home: team(2, 90, None),
    };
    let r = bench_king_details_for_week(vec![m], &slots);
    assert_eq!(r, Err(BenchKingError::DataUnavailable));
}

#[test]
fn aggregate_sums_each_team_across_weeks() {
    // Week one has teams 1 and 2; week two has teams 1 and 3: a team with
    // no entry in a week simply contributes nothing for that week.
    let results = vec![
        (1u32, tracker(100, 80, 1)),
        (2u32, tracker(50, 50, 0)),
        (1u32, tracker(30, 10, 2)),
        (3u32, tracker(70, 60, 0)),
    ];
    let out = aggregate_results(&results);
    assert_eq!(out.len(), 3);
    assert_eq!(out[0], (1, tracker(130, 90, 3)));
    assert_eq!(out[1], (2, tracker(50, 50, 0)));
    assert_eq!(out[2], (3, tracker(70, 60, 0)));
}

#[test]
fn aggregate_in_parts_matches_aggregate_of_whole() {
    // Summing weeks one-and-two, then adding week three, agrees with
    // aggregating all three weeks at once.
    let weeks_1_2 = vec![(1u32, tracker(100, 80, 0)), (1u32, tracker(20, 10, 1))];
    let week_3 = vec![(1u32, tracker(5, 5, 0))];
    let partial = aggregate_results(&weeks_1_2);
    let split_total = partial[0].1.add(aggregate_results(&week_3)[0].1);
    let mut all = weeks_1_2.clone();
    all.extend(week_3.clone());
    let direct = aggregate_results(&all);
    assert_eq!(direct[0].1, split_total);
}

#[test]
fn ranking_is_by_suboptimal_points_descending() {
    let results = vec![
        (1u32, tracker(100, 90, 0)), // left 1.0 behind
        (2u32, tracker(100, 50, 0)), // left 5.0 behind
        (3u32, tracker(100, 61, 0)), // left 3.9 behind
    ];
    let out = bench_king_standing_from_team_map(&results);
    let ids: Vec<u32> = out.iter().map(|p| p.0).collect();
    assert_eq!(ids, vec![2, 3, 1]);
    let king = bench_king(&out).unwrap();
    assert_eq!(king.0, 2);
}

#[test]
fn ranking_ties_break_by_team_identifier_ascending() {
    // Both teams left exactly 3.5 points behind; the lower identifier
    // comes first, and a second run agrees.
    let results = vec![(7u32, tracker(130, 95, 0)), (3u32, tracker(95, 60, 0))];
    let a = bench_king_standing_from_team_map(&results);
    let b = bench_king_standing_from_team_map(&results);
    assert_eq!(a, b);
    let ids: Vec<u32> = a.iter().map(|p| p.0).collect();
    assert_eq!(ids, vec![3, 7]);
}

#[test]
fn ranking_does_not_round_before_comparing() {
    // 3.5 and 3.9 both display as 4, but 3.9 ranks first.
    let results = vec![(1u32, tracker(35, 0, 0)), (2u32, tracker(39, 0, 0))];
    let out = bench_king_standing_from_team_map(&results);
    assert_eq!(out[0].0, 2);
    assert_eq!(out[0].1.rounded_suboptimal(), 4);
    assert_eq!(out[1].1.rounded_suboptimal(), 4);
}

#[test]
fn empty_standings_have_no_king() {
    let empty: Vec<(u32, ProgressTracker)> = vec![];
    assert_eq!(bench_king(&empty), Err(BenchKingError::NoStandings));
}

#[test]
fn ranking_aggregate_of_single_week_matches_ranking_details() {
    let week = vec![
        (4u32, tracker(100, 80, 0)),
        (2u32, tracker(60, 10, 1)),
        (9u32, tracker(75, 70, 0)),
    ];
    let ranked_directly = bench_king_standing_from_team_map(&week);
    let aggregated = aggregate_results(&week);
    let ranked_after_aggregate = bench_king_standing_from_team_map(&aggregated);
    assert_eq!(ranked_after_aggregate, ranked_directly);
}

#[test]
fn a_week_without_matchups_has_empty_details() {
    let slots = vec![slot(0, 2, 1)];
    let out = bench_king_details_for_week(vec![], &slots).unwrap();
    assert!(out.is_empty());
    assert!(bench_king_standing_from_team_map(&out).is_empty());
}

#[test]
fn full_pipeline_crowns_the_right_king() {
    // Configuration with a bench entry to filter; two teams: team 1 left
    // its best scorer benched, team 2 started its best lineup.
    let config = vec![
        slot(bench_king::types::BENCH_SLOT, 5, 7),
        slot(3, 8, 1),
        slot(0, 2, 1),
    ];
    let target = bench_king::prioritize::sort_roster_slots_by_restrictivness(&config).unwrap();
    let m = Matchup {
        away: team(
            1,
            60,
            Some(vec![
                player(10, 120, bench_king::types::BENCH_SLOT, &[0]),
                player(11, 60, 0, &[0]),
                player(12, 0, 3, &[0, 3]),
            ]),
        ),
        home: team(2, 150, Some(vec![player(20, 90, 0, &[0]), player(21, 60, 3, &[3])])),
    };
    let deets = bench_king_details_for_week(vec![m], &target).unwrap();
    let standings = bench_king_standing_from_team_map(&aggregate_results(&deets));
    let king = bench_king(&standings).unwrap();
    // Team 1 could have scored 12.0 (QB) + 0.0 (flex) = 12.0 but scored
    // 6.0; team 2 already scored its optimum of 15.0.
    assert_eq!(king.0, 1);
    assert_eq!(king.1.optimal_points, 120);
    assert_eq!(king.1.suboptimal_points(), 60);
    assert_eq!(standings[1].1.suboptimal_points(), 0);
    // Team 1 started one scoring-slot player on zero points.
    assert_eq!(king.1.zero_point_starters, 1);
}

fn outcome(winner: MatchupWinner, home: u32, hp: i64, away: u32, ap: i64) -> MatchupOutcome {
    MatchupOutcome { winner, home_team: home, home_points: hp, away_team: away, away_points: ap }
}

#[test]
fn records_tally_wins_losses_and_points() {
    let teams = vec![1u32, 2u32, 3u32];
    let matchups = vec![
        outcome(MatchupWinner::Home, 1, 1000, 2, 900),
        outcome(MatchupWinner::Away, 2, 800, 3, 850),
        outcome(MatchupWinner::Undecided, 1, 0, 3, 0),
    ];
    let out = matchup_only_records(&teams, &matchups);
    assert_eq!(out.len(), 3);
    let r1 = out[0].1;
    assert_eq!((r1.wins, r1.losses, r1.ties), (1, 0, 0));
    assert_eq!((r1.points_for, r1.points_against), (1000, 900));
    let r2 = out[1].1;
    assert_eq!((r2.wins, r2.losses), (0, 2));
    assert_eq!((r2.points_for, r2.points_against), (1700, 1850));
    let r3 = out[2].1;
    assert_eq!((r3.wins, r3.losses), (1, 0));
    assert_eq!((r3.points_for, r3.points_against), (850, 800));
}

#[test]
fn records_ignore_unlisted_teams() {
    let teams = vec![1u32];
    let matchups = vec![outcome(MatchupWinner::Home, 1, 500, 42, 400)];
    let out = matchup_only_records(&teams, &matchups);
    assert_eq!(out.len(), 1);
    assert_eq!(out[0].1.wins, 1);
}

#[test]
fn record_standings_order_by_wins_then_points() {
    let rec = |w: u64, pf: i64, pa: i64| SimpleRecord {
        wins: w,
        losses: 0,
        ties: 0,
        points_for: pf,
        points_against: pa,
    };
    let records = vec![
        (1u32, rec(5, 1000, 900)),
        (2u32, rec(7, 800, 700)),
        (3u32, rec(5, 1200, 800)),
        (4u32, rec(5, 1200, 800)),
    ];
    let out = matchup_only_standings(&records);
    let ids: Vec<u32> = out.iter().map(|p| p.0).collect();
    assert_eq!(ids, vec![2, 3, 4, 1]);
}
