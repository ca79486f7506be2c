//! One week of standings detail: every matchup's two sides are optimized
//! and the results collected into a mapping from team to result. A team
//! appears at most once; if an identifier repeats, the first result wins.
//! A side with no roster makes the whole week `DataUnavailable`, never a
//! silent zero.

use vstd::prelude::*;

use crate::optimize::{
    calculate_optimal_performance, optimal_points_of, roster_ok, zps_count,
};
use crate::season::find_team;
use crate::types::{BenchKingError, Matchup, ProgressTracker, RosterSlot, TeamWeekPerformance};

verus! {

/// What one side of a matchup contributes to the week, as unbounded
/// integers. The roster-less case never reaches a result: it is the
/// `DataUnavailable` error instead.
pub ghost struct WeekEntry {
    pub team: u32,
    pub optimal: int,
    pub actual: int,
    pub zeros: int,
}

/// The entry one team side yields.
pub open spec fn entry_of(t: TeamWeekPerformance, slots: Seq<RosterSlot>) -> WeekEntry {
    WeekEntry {
        team: t.team_id,
        optimal: match t.roster {
            Some(r) => optimal_points_of(r@, slots),
            None => 0,
        },
        actual: t.total_points as int,
        zeros: match t.roster {
            Some(r) => zps_count(r@),
            None => 0,
        },
    }
}

/// A week's entries in matchup order, away side before home side.
pub open spec fn week_entries(data: Seq<Matchup>, slots: Seq<RosterSlot>) -> Seq<WeekEntry>
    decreases data.len(),
{
    if data.len() == 0 {
        Seq::empty()
    } else {
        week_entries(data.drop_last(), slots) + seq![
            entry_of(data.last().away, slots),
            entry_of(data.last().home, slots),
        ]
    }
}

/// Some entry carries this team identifier.
pub open spec fn contains_team(s: Seq<WeekEntry>, t: u32) -> bool {
    exists|i: int| 0 <= i < s.len() && (#[trigger] s[i]).team == t
}

/// Keeps each team's first entry and drops the rest.
pub open spec fn dedup_first_by_team(s: Seq<WeekEntry>) -> Seq<WeekEntry>
    decreases s.len(),
{
    if s.len() == 0 {
        s
    } else {
        let pre = dedup_first_by_team(s.drop_last());
        if contains_team(pre, s.last().team) {
            pre
        } else {
            pre.push(s.last())
        }
    }
}

/// The week's mapping from team to result: every side optimized, first
/// entry winning on a repeated identifier.
pub open spec fn week_details_model(data: Seq<Matchup>, slots: Seq<RosterSlot>) -> Seq<WeekEntry> {
    dedup_first_by_team(week_entries(data, slots))
}

/// The concrete pair realizes the model entry.
pub open spec fn pair_matches(p: (u32, ProgressTracker), e: WeekEntry) -> bool {
    &&& p.0 == e.team
    &&& p.1.optimal_points as int == e.optimal
    &&& p.1.actual_points as int == e.actual
    &&& p.1.zero_point_starters as int == e.zeros
}

/// The concrete mapping realizes the model, entry for entry.
pub open spec fn entries_match(out: Seq<(u32, ProgressTracker)>, model: Seq<WeekEntry>) -> bool {
    &&& out.len() == model.len()
    &&& forall|k: int| 0 <= k < out.len() ==> pair_matches(#[trigger] out[k], model[k])
}

/// Optimizes both sides of every matchup of one week and collects the
/// results by team. Each team appears at most once: the first result wins
/// if an identifier repeats. If any side's roster is missing, the week
/// fails with `DataUnavailable` rather than reporting a partial mapping.
#[verifier::loop_isolation(false)]
pub fn bench_king_details_for_week(data: Vec<Matchup>, roster_target: &Vec<RosterSlot>) -> (r:
    Result<Vec<(u32, ProgressTracker)>, BenchKingError>)
    requires
        forall|k: int|
            0 <= k < data@.len() ==> roster_ok((#[trigger] data@[k]).away) && roster_ok(
                data@[k].home,
            ),
    ensures
        match r {
            Ok(out) => {
                &&& forall|k: int|
                    0 <= k < data@.len() ==> (#[trigger] data@[k]).away.roster is Some
                        && data@[k].home.roster is Some
                &&& entries_match(out@, week_details_model(data@, roster_target@))
                &&& forall|k1: int, k2: int|
                    0 <= k1 < k2 < out@.len() ==> out@[k1].0 != out@[k2].0
            },
            Err(e) => {
                &&& e == BenchKingError::DataUnavailable
                &&& exists|k: int|
                    0 <= k < data@.len() && ((#[trigger] data@[k]).away.roster is None
                        || data@[k].home.roster is None)
            },
        },
{
    let ghost full = data@;
    let mut rest = data;
    let mut out: Vec<(u32, ProgressTracker)> = Vec::new();
    assert(full.take(0) =~= Seq::<Matchup>::empty());
    assert(rest@ =~= full.subrange(0, full.len() as int));
    while rest.len() > 0
        invariant
            rest@.len() <= full.len(),
            rest@ == full.subrange(full.len() - rest@.len(), full.len() as int),
            forall|k: int|
                0 <= k < full.len() - rest@.len() ==> (#[trigger] full[k]).away.roster is Some
                    && full[k].home.roster is Some,
            entries_match(out@, week_details_model(full.take(full.len() - rest@.len()), roster_target@)),
            forall|k1: int, k2: int| 0 <= k1 < k2 < out@.len() ==> out@[k1].0 != out@[k2].0,
        decreases rest@.len(),
    {
        let ghost i = full.len() - rest@.len();
        let ghost w0 = week_entries(full.take(i), roster_target@);
        let ghost model0 = dedup_first_by_team(w0);
        let m = rest.remove(0);
        proof {
            assert(m == full[i]);
            assert(rest@ =~= full.subrange(i + 1, full.len() as int));
        }
        let away_id = m.away.team_id;
        let home_id = m.home.team_id;
        let ghost ea = entry_of(full[i].away, roster_target@);
        let ghost eh = entry_of(full[i].home, roster_target@);
        let p_away = match calculate_optimal_performance(m.away, roster_target) {
            Ok(p) => p,
            Err(e) => {
                return Err(e);
            },
        };
        let p_home = match calculate_optimal_performance(m.home, roster_target) {
            Ok(p) => p,
            Err(e) => {
                return Err(e);
            },
        };
        proof {
            assert(full.take(i + 1).drop_last() =~= full.take(i));
            assert(full.take(i + 1).last() == full[i]);
            assert(week_entries(full.take(i + 1), roster_target@) == w0 + seq![ea, eh]);
            assert(w0 + seq![ea, eh] =~= w0.push(ea).push(eh));
            assert(w0.push(ea).drop_last() =~= w0);
            assert(w0.push(ea).push(eh).drop_last() =~= w0.push(ea));
            assert(pair_matches((away_id, p_away), ea));
            assert(pair_matches((home_id, p_home), eh));
        }
        let ghost model_a = dedup_first_by_team(w0.push(ea));
        match find_team(&out, away_id) {
            Some(_) => {
                proof {
                    let j = choose|j: int| 0 <= j < out@.len() && out@[j].0 == away_id;
                    assert(model0[j].team == away_id);
                    assert(contains_team(model0, ea.team));
                    assert(model_a == model0);
                }
            },
            None => {
                proof {
                    assert(!contains_team(model0, ea.team)) by {
                        if contains_team(model0, ea.team) {
                            let j = choose|j: int|
                                0 <= j < model0.len() && model0[j].team == ea.team;
                            assert(out@[j].0 == away_id);
                        }
                    }
                    assert(model_a == model0.push(ea));
                }
                out.push((away_id, p_away));
            },
        }
        let ghost model_h = dedup_first_by_team(w0.push(ea).push(eh));
        match find_team(&out, home_id) {
            Some(_) => {
                proof {
                    let j = choose|j: int| 0 <= j < out@.len() && out@[j].0 == home_id;
                    assert(model_a[j].team == home_id);
                    assert(contains_team(model_a, eh.team));
                    assert(model_h == model_a);
                }
            },
            None => {
                proof {
                    assert(!contains_team(model_a, eh.team)) by {
                        if contains_team(model_a, eh.team) {
                            let j = choose|j: int|
                                0 <= j < model_a.len() && model_a[j].team == eh.team;
                            assert(out@[j].0 == home_id);
                        }
                    }
                    assert(model_h == model_a.push(eh));
                }
                out.push((home_id, p_home));
            },
        }
        proof {
            assert(full.len() - rest@.len() == i + 1);
            assert(entries_match(out@, week_details_model(full.take(i + 1), roster_target@)));
        }
    }
    proof {
        assert(full.take(full.len() as int) =~= full);
    }
    Ok(out)
}

} // verus!
