//! The data model: player performances, roster slots, per-team-week results,
//! and the error conditions of the analysis.
//!
//! Points are fixed-point numbers held in tenths of a point, so a reported
//! score of 9.5 points is the value 95. All arithmetic on them is exact.

use vstd::prelude::*;

verus! {

/// Lineup-slot identifier of the bench: a benched player's points never count.
pub const BENCH_SLOT: u32 = 21;

/// Lineup-slot identifier of injury reserve, the other non-scoring slot.
pub const IR_SLOT: u32 = 23;

/// True of slot types whose occupants score points for the team: everything
/// but the bench and injury reserve.
pub open spec fn is_scoring_slot(slot: u32) -> bool {
    slot != BENCH_SLOT && slot != IR_SLOT
}

/// One entry of a league's roster configuration: a slot type, how hard the
/// slot is to fill, and how many starting slots of that type the league has.
///
/// `restrictiveness` is the proxy by which slots are ordered before
/// optimization (lower means fewer kinds of player can fill the slot, so it
/// is considered first). It is resolved once when the configuration is
/// loaded; the classic choice is the length of the slot type's display name.
#[derive(Clone, Copy, Debug, PartialEq, Eq, Structural)]
pub struct RosterSlot {
    pub slot: u32,
    pub restrictiveness: u32,
    pub count: i64,
}

/// One player's result for a team-week: identifier, scored points (tenths,
/// may be zero or negative), the lineup slot the player actually occupied,
/// and the slot types the player was eligible to fill that week.
#[derive(Debug)]
pub struct PlayerPerformance {
    pub player_id: i64,
    pub points: i64,
    pub lineup_slot: u32,
    pub eligible_slots: Vec<u32>,
}

/// One team's side of a weekly matchup: the reported total and, when the
/// source supplied it, the roster of player performances for the scoring
/// period. A missing roster makes optimization impossible for the team-week.
#[derive(Debug)]
pub struct TeamWeekPerformance {
    pub team_id: u32,
    pub total_points: i64,
    pub roster: Option<Vec<PlayerPerformance>>,
}

/// A head-to-head matchup of one week.
#[derive(Debug)]
pub struct Matchup {
    pub away: TeamWeekPerformance,
    pub home: TeamWeekPerformance,
}

/// Why a report could not be produced.
#[derive(Clone, Copy, Debug, PartialEq, Eq, Structural)]
pub enum BenchKingError {
    /// A team's roster for the scoring period is missing, so its optimal
    /// lineup cannot be computed; a silent zero would corrupt aggregates.
    DataUnavailable,
    /// The roster configuration has no scoring slot left after filtering, so
    /// every optimization would be trivially zero.
    EmptyConfiguration,
    /// Ranking an empty results mapping: there is no team to crown.
    NoStandings,
}

/// The outcome of optimizing one team-week (or the component-wise sum of
/// several): the reported actual total, the best total achievable under the
/// slot constraints, and how many scoring-slot starters scored exactly zero.
#[derive(Clone, Copy, Debug, PartialEq, Eq, Structural)]
pub struct ProgressTracker {
    pub optimal_points: i64,
    pub actual_points: i64,
    pub zero_point_starters: i64,
}

/// Rounds a points value held in tenths to the nearest whole point, halves
/// away from zero, as reports display it; ranking never rounds.
pub open spec fn rounded_points(tenths: int) -> int {
    if tenths >= 0 {
        (tenths + 5) / 10
    } else {
        -(((-tenths) + 5) / 10)
    }
}

impl ProgressTracker {
    /// The points the team left behind: optimal minus actual, in tenths.
    /// Widened so that no pair of totals can overflow.
    pub fn suboptimal_points(&self) -> (r: i128)
        ensures
            r == self.optimal_points - self.actual_points,
    {
        self.optimal_points as i128 - self.actual_points as i128
    }

    /// The suboptimal points rounded to whole points for display.
    pub fn rounded_suboptimal(&self) -> (r: i128)
        ensures
            r == rounded_points(self.optimal_points - self.actual_points),
    {
        let tenths: i128 = self.optimal_points as i128 - self.actual_points as i128;
        if tenths >= 0 {
            (((tenths as u128) + 5) / 10) as i128
        } else {
            let magnitude: u128 = (((-tenths) as u128) + 5) / 10;
            -(magnitude as i128)
        }
    }

    /// Component-wise addition, the rule by which weekly results combine
    /// into season totals.
    pub fn add(self, other: Self) -> (r: Self)
        requires
            i64::MIN <= self.optimal_points + other.optimal_points <= i64::MAX,
            i64::MIN <= self.actual_points + other.actual_points <= i64::MAX,
            i64::MIN <= self.zero_point_starters + other.zero_point_starters <= i64::MAX,
        ensures
            r.optimal_points == self.optimal_points + other.optimal_points,
            r.actual_points == self.actual_points + other.actual_points,
            r.zero_point_starters == self.zero_point_starters + other.zero_point_starters,
    {
        ProgressTracker {
            optimal_points: self.optimal_points + other.optimal_points,
            actual_points: self.actual_points + other.actual_points,
            zero_point_starters: self.zero_point_starters + other.zero_point_starters,
        }
    }
}

} // verus!
