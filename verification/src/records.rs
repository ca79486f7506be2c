//! Win-loss standings from matchup outcomes alone: every decided matchup
//! credits the winner with a win and the loser with a loss, and both sides
//! with the points they scored and allowed. Records are then ranked by
//! wins, points for, and points against, all descending.

use vstd::prelude::*;

use crate::sorting::{
    insert_sorted, lemma_insert_sorted_at, lemma_sort_with_ensures, sort_with, sorted_with,
    strict_weak_order,
};

verus! {

/// One team's season record: wins, losses, ties, and the points scored for
/// and against it (in tenths). Ties are carried for reporting but never
/// produced by the tally, which counts decided matchups only.
#[derive(Clone, Copy, Debug, PartialEq, Eq, Structural)]
pub struct SimpleRecord {
    pub wins: u64,
    pub losses: u64,
    pub ties: u64,
    pub points_for: i64,
    pub points_against: i64,
}

/// Who won a matchup, as the source reports it; anything undecided counts
/// for nobody.
#[derive(Clone, Copy, Debug, PartialEq, Eq, Structural)]
pub enum MatchupWinner {
    Home,
    Away,
    Undecided,
}

/// One matchup's outcome: the two teams, their totals (tenths), and the
/// reported winner.
#[derive(Clone, Copy, Debug, PartialEq, Eq, Structural)]
pub struct MatchupOutcome {
    pub winner: MatchupWinner,
    pub home_team: u32,
    pub home_points: i64,
    pub away_team: u32,
    pub away_points: i64,
}

/// What one matchup adds to team `t`'s (wins, losses, points for, points
/// against). A team meeting itself takes both sides' credit, as two
/// updates in home-then-away order.
pub open spec fn record_step(pre: (int, int, int, int), m: MatchupOutcome, t: u32) -> (
    int,
    int,
    int,
    int,
) {
    match m.winner {
        MatchupWinner::Home => {
            let w = if m.home_team == t {
                (pre.0 + 1, pre.1, pre.2 + m.home_points, pre.3 + m.away_points)
            } else {
                pre
            };
            if m.away_team == t {
                (w.0, w.1 + 1, w.2 + m.away_points, w.3 + m.home_points)
            } else {
                w
            }
        },
        MatchupWinner::Away => {
            let w = if m.away_team == t {
                (pre.0 + 1, pre.1, pre.2 + m.away_points, pre.3 + m.home_points)
            } else {
                pre
            };
            if m.home_team == t {
                (w.0, w.1 + 1, w.2 + m.home_points, w.3 + m.away_points)
            } else {
                w
            }
        },
        MatchupWinner::Undecided => pre,
    }
}

/// Team `t`'s (wins, losses, points for, points against) over a season of
/// matchups, as unbounded integers.
pub open spec fn record_sums(ms: Seq<MatchupOutcome>, t: u32) -> (int, int, int, int)
    decreases ms.len(),
{
    if ms.len() == 0 {
        (0int, 0int, 0int, 0int)
    } else {
        record_step(record_sums(ms.drop_last(), t), ms.last(), t)
    }
}

/// The magnitude bound on a matchup's point contributions to `t`.
pub open spec fn record_abs_step(pre: int, m: MatchupOutcome, t: u32) -> int {
    if m.home_team == t || m.away_team == t {
        pre + vstd::math::abs(m.home_points as int) + vstd::math::abs(m.away_points as int)
    } else {
        pre
    }
}

/// The magnitude sum of every point value that could reach team `t`'s
/// totals: the bound under which the tally cannot overflow.
pub open spec fn record_abs_sums(ms: Seq<MatchupOutcome>, t: u32) -> int
    decreases ms.len(),
{
    if ms.len() == 0 {
        0
    } else {
        record_abs_step(record_abs_sums(ms.drop_last(), t), ms.last(), t)
    }
}

/// The team's potential point totals stay within the fixed-width range.
pub open spec fn record_fits(ms: Seq<MatchupOutcome>, t: u32) -> bool {
    record_abs_sums(ms, t) <= i64::MAX
}

/// Point totals are bounded by the magnitude sums; win and loss counts by
/// the number of matchups.
pub proof fn lemma_record_sums_bound(ms: Seq<MatchupOutcome>, t: u32)
    ensures
        0 <= record_abs_sums(ms, t),
        -record_abs_sums(ms, t) <= record_sums(ms, t).2 <= record_abs_sums(ms, t),
        -record_abs_sums(ms, t) <= record_sums(ms, t).3 <= record_abs_sums(ms, t),
        0 <= record_sums(ms, t).0 <= ms.len(),
        0 <= record_sums(ms, t).1 <= ms.len(),
    decreases ms.len(),
{
    if ms.len() > 0 {
        lemma_record_sums_bound(ms.drop_last(), t);
    }
}

/// A prefix's magnitude sum never exceeds the whole season's.
pub proof fn lemma_record_abs_sums_prefix(ms: Seq<MatchupOutcome>, i: int, t: u32)
    requires
        0 <= i <= ms.len(),
    ensures
        record_abs_sums(ms.take(i), t) <= record_abs_sums(ms, t),
    decreases ms.len() - i,
{
    if i == ms.len() {
        assert(ms.take(i) =~= ms);
    } else {
        lemma_record_abs_sums_prefix(ms, i + 1, t);
        assert(ms.take(i + 1).drop_last() =~= ms.take(i));
        assert(ms.take(i + 1).last() == ms[i]);
        assert(vstd::math::abs(ms[i].home_points as int) >= 0);
        assert(vstd::math::abs(ms[i].away_points as int) >= 0);
    }
}

fn find_record(v: &Vec<(u32, SimpleRecord)>, id: u32) -> (r: Option<usize>)
    ensures
        match r {
            Some(j) => j < v@.len() && v@[j as int].0 == id,
            None => forall|k: int| 0 <= k < v@.len() ==> (#[trigger] v@[k]).0 != id,
        },
{
    let mut i: usize = 0;
    while i < v.len()
        invariant
            0 <= i <= v@.len(),
            forall|k: int| 0 <= k < i ==> (#[trigger] v@[k]).0 != id,
        decreases v@.len() - i,
    {
        if v[i].0 == id {
            return Some(i);
        }
        i += 1;
    }
    None
}

fn set_record(v: &mut Vec<(u32, SimpleRecord)>, j: usize, value: (u32, SimpleRecord))
    requires
        j < old(v)@.len(),
    ensures
        final(v)@ == old(v)@.update(j as int, value),
{
    let _ = v.remove(j);
    v.insert(j, value);
    assert(v@ =~= old(v)@.update(j as int, value));
}

/// `out` realizes the records of `teams` after the matchups `ms`: one entry
/// per listed team, in list order, holding that team's tallied record.
pub open spec fn records_match(
    out: Seq<(u32, SimpleRecord)>,
    teams: Seq<u32>,
    ms: Seq<MatchupOutcome>,
) -> bool {
    &&& out.len() == teams.len()
    &&& forall|k: int|
        0 <= k < out.len() ==> {
            &&& (#[trigger] out[k]).0 == teams[k]
            &&& out[k].1.wins as int == record_sums(ms, teams[k]).0
            &&& out[k].1.losses as int == record_sums(ms, teams[k]).1
            &&& out[k].1.ties == 0
            &&& out[k].1.points_for as int == record_sums(ms, teams[k]).2
            &&& out[k].1.points_against as int == record_sums(ms, teams[k]).3
        }
}

/// Tallies the season's records for the listed teams: each decided matchup
/// gives the winner a win and the loser a loss, and both sides their points
/// scored and allowed. Matchup sides whose team is not listed are ignored;
/// undecided matchups count for nobody, and ties stay zero.
#[verifier::loop_isolation(false)]
pub fn matchup_only_records(teams: &Vec<u32>, matchups: &Vec<MatchupOutcome>) -> (out: Vec<
    (u32, SimpleRecord),
>)
    requires
        forall|i: int, j: int| 0 <= i < j < teams@.len() ==> teams@[i] != teams@[j],
        forall|t: u32| #[trigger] record_fits(matchups@, t),
    ensures
        records_match(out@, teams@, matchups@),
{
    let ghost ms = matchups@;
    let mut out: Vec<(u32, SimpleRecord)> = Vec::new();
    let zero = SimpleRecord { wins: 0, losses: 0, ties: 0, points_for: 0, points_against: 0 };
    let mut i: usize = 0;
    while i < teams.len()
        invariant
            0 <= i <= teams@.len(),
            out@.len() == i,
            forall|k: int| 0 <= k < i ==> (#[trigger] out@[k]) == (teams@[k], zero),
        decreases teams@.len() - i,
    {
        out.push((teams[i], zero));
        i += 1;
    }
    assert(ms.take(0) =~= Seq::<MatchupOutcome>::empty());
    assert(records_match(out@, teams@, ms.take(0)));
    let mut w: usize = 0;
    while w < matchups.len()
        invariant
            0 <= w <= ms.len(),
            records_match(out@, teams@, ms.take(w as int)),
        decreases ms.len() - w,
    {
        let m = matchups[w];
        proof {
            assert(ms.take(w + 1).drop_last() =~= ms.take(w as int));
            assert(ms.take(w + 1).last() == m);
            assert forall|t: u32| #![trigger record_sums(ms.take(w + 1), t)] true implies {
                &&& -record_abs_sums(ms, t) <= record_sums(ms.take(w + 1), t).2 <= record_abs_sums(
                    ms,
                    t,
                )
                &&& -record_abs_sums(ms, t) <= record_sums(ms.take(w + 1), t).3 <= record_abs_sums(
                    ms,
                    t,
                )
                &&& 0 <= record_sums(ms.take(w + 1), t).0 <= w + 1
                &&& 0 <= record_sums(ms.take(w + 1), t).1 <= w + 1
            } by {
                lemma_record_sums_bound(ms.take(w + 1), t);
                lemma_record_abs_sums_prefix(ms, w + 1, t);
            }
            assert forall|t: u32| #![trigger record_sums(ms.take(w as int), t)] true implies {
                &&& 0 <= record_abs_sums(ms.take(w as int), t)
                &&& -record_abs_sums(ms.take(w as int), t) <= record_sums(ms.take(w as int), t).2
                    <= record_abs_sums(ms.take(w as int), t)
                &&& -record_abs_sums(ms.take(w as int), t) <= record_sums(ms.take(w as int), t).3
                    <= record_abs_sums(ms.take(w as int), t)
                &&& record_abs_sums(ms.take(w + 1), t) <= record_abs_sums(ms, t)
                &&& record_abs_sums(ms, t) <= i64::MAX
                &&& 0 <= record_sums(ms.take(w as int), t).0 <= w
                &&& 0 <= record_sums(ms.take(w as int), t).1 <= w
            } by {
                lemma_record_sums_bound(ms.take(w as int), t);
                lemma_record_abs_sums_prefix(ms, w + 1, t);
                assert(record_fits(ms, t));
            }
        }
        match m.winner {
            MatchupWinner::Home => {
                match find_record(&out, m.home_team) {
                    Some(j) => {
                        let cur = out[j];
                        let updated = SimpleRecord {
                            wins: cur.1.wins + 1,
                            losses: cur.1.losses,
                            ties: cur.1.ties,
                            points_for: cur.1.points_for + m.home_points,
                            points_against: cur.1.points_against + m.away_points,
                        };
                        set_record(&mut out, j, (m.home_team, updated));
                    },
                    None => {},
                }
                match find_record(&out, m.away_team) {
                    Some(j) => {
                        let cur = out[j];
                        let updated = SimpleRecord {
                            wins: cur.1.wins,
                            losses: cur.1.losses + 1,
                            ties: cur.1.ties,
                            points_for: cur.1.points_for + m.away_points,
                            points_against: cur.1.points_against + m.home_points,
                        };
                        set_record(&mut out, j, (m.away_team, updated));
                    },
                    None => {},
                }
            },
            MatchupWinner::Away => {
                match find_record(&out, m.away_team) {
                    Some(j) => {
                        let cur = out[j];
                        let updated = SimpleRecord {
                            wins: cur.1.wins + 1,
                            losses: cur.1.losses,
                            ties: cur.1.ties,
                            points_for: cur.1.points_for + m.away_points,
                            points_against: cur.1.points_against + m.home_points,
                        };
                        set_record(&mut out, j, (m.away_team, updated));
                    },
                    None => {},
                }
                match find_record(&out, m.home_team) {
                    Some(j) => {
                        let cur = out[j];
                        let updated = SimpleRecord {
                            wins: cur.1.wins,
                            losses: cur.1.losses + 1,
                            ties: cur.1.ties,
                            points_for: cur.1.points_for + m.home_points,
                            points_against: cur.1.points_against + m.away_points,
                        };
                        set_record(&mut out, j, (m.home_team, updated));
                    },
                    None => {},
                }
            },
            MatchupWinner::Undecided => {},
        }
        proof {
            assert forall|k: int| 0 <= k < out@.len() implies {
                &&& (#[trigger] out@[k]).0 == teams@[k]
                &&& out@[k].1.wins as int == record_sums(ms.take(w + 1), teams@[k]).0
                &&& out@[k].1.losses as int == record_sums(ms.take(w + 1), teams@[k]).1
                &&& out@[k].1.ties == 0
                &&& out@[k].1.points_for as int == record_sums(ms.take(w + 1), teams@[k]).2
                &&& out@[k].1.points_against as int == record_sums(ms.take(w + 1), teams@[k]).3
            } by {}
        }
        w += 1;
    }
    assert(ms.take(ms.len() as int) =~= ms);
    out
}

/// `a` ranks strictly ahead of `b`: better record by wins, then points
/// for, then points against, all descending, with ties broken by the lower
/// team identifier.
pub open spec fn record_before(a: (u32, SimpleRecord), b: (u32, SimpleRecord)) -> bool {
    ||| a.1.wins > b.1.wins
    ||| (a.1.wins == b.1.wins && a.1.points_for > b.1.points_for)
    ||| (a.1.wins == b.1.wins && a.1.points_for == b.1.points_for && a.1.points_against
        > b.1.points_against)
    ||| (a.1.wins == b.1.wins && a.1.points_for == b.1.points_for && a.1.points_against
        == b.1.points_against && a.0 < b.0)
}

/// The record ordering as a value, for the sorting specifications.
pub open spec fn record_order() -> spec_fn((u32, SimpleRecord), (u32, SimpleRecord)) -> bool {
    |a: (u32, SimpleRecord), b: (u32, SimpleRecord)| record_before(a, b)
}

/// The record ordering is a strict weak order, so sorting by it behaves.
pub proof fn lemma_record_order_strict_weak()
    ensures
        strict_weak_order(record_order()),
{
}

fn record_before_exec(a: &(u32, SimpleRecord), b: &(u32, SimpleRecord)) -> (r: bool)
    ensures
        r == record_before(*a, *b),
{
    if a.1.wins != b.1.wins {
        a.1.wins > b.1.wins
    } else if a.1.points_for != b.1.points_for {
        a.1.points_for > b.1.points_for
    } else if a.1.points_against != b.1.points_against {
        a.1.points_against > b.1.points_against
    } else {
        a.0 < b.0
    }
}

#[verifier::loop_isolation(false)]
fn insert_record(out: &mut Vec<(u32, SimpleRecord)>, x: (u32, SimpleRecord))
    ensures
        final(out)@ == insert_sorted(record_order(), x, old(out)@),
{
    let ghost s = out@;
    let mut j: usize = 0;
    while j < out.len() && record_before_exec(&out[j], &x)
        invariant
            0 <= j <= s.len(),
            forall|k: int| 0 <= k < j ==> record_before(#[trigger] s[k], x),
        decreases s.len() - j,
    {
        j += 1;
    }
    proof {
        lemma_insert_sorted_at(record_order(), x, s, j as int);
    }
    out.insert(j, x);
    assert(out@ =~= s.subrange(0, j as int) + seq![x] + s.subrange(j as int, s.len() as int));
}

/// Ranks records into standings: wins, then points for, then points
/// against, all descending, ties by ascending team identifier. The output
/// is a permutation of the input and a pure function of it.
#[verifier::loop_isolation(false)]
pub fn matchup_only_standings(records: &Vec<(u32, SimpleRecord)>) -> (out: Vec<(u32, SimpleRecord)>)
    ensures
        out@ == sort_with(record_order(), records@),
        sorted_with(record_order(), out@),
        out@.to_multiset() == records@.to_multiset(),
        out@.len() == records@.len(),
{
    let ghost orig = records@;
    let mut out: Vec<(u32, SimpleRecord)> = Vec::new();
    assert(orig.subrange(orig.len() as int, orig.len() as int) =~= Seq::<
        (u32, SimpleRecord),
    >::empty());
    let mut n: usize = records.len();
    while n > 0
        invariant
            0 <= n <= orig.len(),
            out@ == sort_with(record_order(), orig.subrange(n as int, orig.len() as int)),
        decreases n,
    {
        n -= 1;
        let x = records[n];
        proof {
            let tail = orig.subrange(n as int + 1, orig.len() as int);
            let whole = orig.subrange(n as int, orig.len() as int);
            assert(whole[0] == x);
            assert(whole.drop_first() =~= tail);
        }
        insert_record(&mut out, x);
    }
    assert(orig.subrange(0, orig.len() as int) =~= orig);
    proof {
        lemma_record_order_strict_weak();
        lemma_sort_with_ensures(record_order(), orig);
    }
    out
}

} // verus!
