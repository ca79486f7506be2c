//! The standings aggregator's accumulation step: per-team-week results,
//! from one week or many, are summed component-wise per team into season
//! totals. The fold is pure: it takes the complete list of results and
//! returns a fresh mapping, keyed by each team's first appearance.

use vstd::prelude::*;

use crate::types::ProgressTracker;

verus! {

/// The team identifiers of a result list in order of first appearance:
/// the keys of the aggregated mapping.
pub open spec fn agg_ids(s: Seq<(u32, ProgressTracker)>) -> Seq<u32>
    decreases s.len(),
{
    if s.len() == 0 {
        Seq::empty()
    } else {
        let pre = agg_ids(s.drop_last());
        if pre.contains(s.last().0) {
            pre
        } else {
            pre.push(s.last().0)
        }
    }
}

/// One team's summed (optimal, actual, zero-point-starter) totals over a
/// result list, as unbounded integers.
pub open spec fn team_sums(s: Seq<(u32, ProgressTracker)>, t: u32) -> (int, int, int)
    decreases s.len(),
{
    if s.len() == 0 {
        (0int, 0int, 0int)
    } else {
        let pre = team_sums(s.drop_last(), t);
        if s.last().0 == t {
            (
                pre.0 + s.last().1.optimal_points,
                pre.1 + s.last().1.actual_points,
                pre.2 + s.last().1.zero_point_starters,
            )
        } else {
            pre
        }
    }
}

/// One team's summed component magnitudes: the bound under which no partial
/// sum of the fold can overflow.
pub open spec fn team_abs_sums(s: Seq<(u32, ProgressTracker)>, t: u32) -> (int, int, int)
    decreases s.len(),
{
    if s.len() == 0 {
        (0int, 0int, 0int)
    } else {
        let pre = team_abs_sums(s.drop_last(), t);
        if s.last().0 == t {
            (
                pre.0 + vstd::math::abs(s.last().1.optimal_points as int),
                pre.1 + vstd::math::abs(s.last().1.actual_points as int),
                pre.2 + vstd::math::abs(s.last().1.zero_point_starters as int),
            )
        } else {
            pre
        }
    }
}

/// The team's magnitude sums stay within the fixed-width range.
pub open spec fn team_fits(s: Seq<(u32, ProgressTracker)>, t: u32) -> bool {
    team_abs_sums(s, t).0 <= i64::MAX && team_abs_sums(s, t).1 <= i64::MAX && team_abs_sums(
        s,
        t,
    ).2 <= i64::MAX
}

/// `out` is the aggregated mapping of `s`: one entry per team in order of
/// first appearance, holding that team's component-wise sums.
pub open spec fn agg_matches(out: Seq<(u32, ProgressTracker)>, s: Seq<(u32, ProgressTracker)>) -> bool {
    &&& out.len() == agg_ids(s).len()
    &&& forall|k: int|
        0 <= k < out.len() ==> {
            &&& (#[trigger] out[k]).0 == agg_ids(s)[k]
            &&& out[k].1.optimal_points as int == team_sums(s, agg_ids(s)[k]).0
            &&& out[k].1.actual_points as int == team_sums(s, agg_ids(s)[k]).1
            &&& out[k].1.zero_point_starters as int == team_sums(s, agg_ids(s)[k]).2
        }
}

/// Sums are bounded by their magnitude sums, which never go negative.
pub proof fn lemma_team_sums_bound(s: Seq<(u32, ProgressTracker)>, t: u32)
    ensures
        0 <= team_abs_sums(s, t).0,
        0 <= team_abs_sums(s, t).1,
        0 <= team_abs_sums(s, t).2,
        -team_abs_sums(s, t).0 <= team_sums(s, t).0 <= team_abs_sums(s, t).0,
        -team_abs_sums(s, t).1 <= team_sums(s, t).1 <= team_abs_sums(s, t).1,
        -team_abs_sums(s, t).2 <= team_sums(s, t).2 <= team_abs_sums(s, t).2,
    decreases s.len(),
{
    if s.len() > 0 {
        lemma_team_sums_bound(s.drop_last(), t);
    }
}

/// A prefix's magnitude sums never exceed the whole list's.
pub proof fn lemma_team_abs_sums_prefix(s: Seq<(u32, ProgressTracker)>, i: int, t: u32)
    requires
        0 <= i <= s.len(),
    ensures
        team_abs_sums(s.take(i), t).0 <= team_abs_sums(s, t).0,
        team_abs_sums(s.take(i), t).1 <= team_abs_sums(s, t).1,
        team_abs_sums(s.take(i), t).2 <= team_abs_sums(s, t).2,
    decreases s.len() - i,
{
    if i == s.len() {
        assert(s.take(i) =~= s);
    } else {
        lemma_team_abs_sums_prefix(s, i + 1, t);
        assert(s.take(i + 1).drop_last() =~= s.take(i));
        assert(s.take(i + 1).last() == s[i]);
        assert(vstd::math::abs(s[i].1.optimal_points as int) >= 0);
        assert(vstd::math::abs(s[i].1.actual_points as int) >= 0);
        assert(vstd::math::abs(s[i].1.zero_point_starters as int) >= 0);
    }
}

/// The aggregated mapping's keys never repeat.
pub proof fn lemma_agg_ids_distinct(s: Seq<(u32, ProgressTracker)>)
    ensures
        forall|k1: int, k2: int|
            0 <= k1 < k2 < agg_ids(s).len() ==> agg_ids(s)[k1] != agg_ids(s)[k2],
    decreases s.len(),
{
    if s.len() > 0 {
        lemma_agg_ids_distinct(s.drop_last());
        let pre = agg_ids(s.drop_last());
        if !pre.contains(s.last().0) {
            assert forall|k1: int, k2: int|
                0 <= k1 < k2 < agg_ids(s).len() implies agg_ids(s)[k1] != agg_ids(s)[k2] by {
                if k2 == agg_ids(s).len() - 1 {
                    assert(agg_ids(s)[k1] == pre[k1]);
                    assert(!pre.contains(s.last().0));
                }
            }
        }
    }
}

/// Looks a team up in a result list: the first position carrying its
/// identifier, if any.
pub fn find_team(v: &Vec<(u32, ProgressTracker)>, id: u32) -> (r: Option<usize>)
    ensures
        match r {
            Some(j) => j < v@.len() && v@[j as int].0 == id,
            None => forall|k: int| 0 <= k < v@.len() ==> (#[trigger] v@[k]).0 != id,
        },
{
    let mut i: usize = 0;
    while i < v.len()
        invariant
            0 <= i <= v@.len(),
            forall|k: int| 0 <= k < i ==> (#[trigger] v@[k]).0 != id,
        decreases v@.len() - i,
    {
        if v[i].0 == id {
            return Some(i);
        }
        i += 1;
    }
    None
}

/// Aggregates per-team-week results into one total per team: every entry of
/// a team is summed component-wise, and each team's total is keyed by its
/// first appearance. Weeks in which a team has no entry simply contribute
/// nothing.
#[verifier::loop_isolation(false)]
pub fn aggregate_results(results: &Vec<(u32, ProgressTracker)>) -> (out: Vec<(u32, ProgressTracker)>)
    requires
        forall|t: u32| #[trigger] team_fits(results@, t),
    ensures
        agg_matches(out@, results@),
        forall|k1: int, k2: int| 0 <= k1 < k2 < out@.len() ==> out@[k1].0 != out@[k2].0,
{
    let ghost s = results@;
    let mut out: Vec<(u32, ProgressTracker)> = Vec::new();
    assert(s.take(0) =~= Seq::<(u32, ProgressTracker)>::empty());
    let mut i: usize = 0;
    while i < results.len()
        invariant
            0 <= i <= s.len(),
            agg_matches(out@, s.take(i as int)),
            forall|k1: int, k2: int| 0 <= k1 < k2 < out@.len() ==> out@[k1].0 != out@[k2].0,
        decreases s.len() - i,
    {
        let p = results[i];
        let ghost pre_ids = agg_ids(s.take(i as int));
        proof {
            assert(s.take(i + 1).drop_last() =~= s.take(i as int));
            assert(s.take(i + 1).last() == s[i as int]);
            lemma_agg_ids_distinct(s.take(i + 1));
        }
        match find_team(&out, p.0) {
            Some(j) => {
                proof {
                    assert(out@[j as int].0 == p.0);
                    assert(agg_ids(s.take(i as int))[j as int] == p.0);
                    assert(pre_ids.contains(p.0));
                    assert(agg_ids(s.take(i + 1)) == pre_ids);
                    assert(team_fits(s, p.0));
                    lemma_team_sums_bound(s.take(i + 1), p.0);
                    lemma_team_abs_sums_prefix(s, i + 1, p.0);
                }
                let cur = out[j];
                let combined = cur.1.add(p.1);
                replace_entry(&mut out, j, (p.0, combined));
                proof {
                    assert forall|k: int| 0 <= k < out@.len() implies {
                        &&& (#[trigger] out@[k]).0 == agg_ids(s.take(i + 1))[k]
                        &&& out@[k].1.optimal_points as int == team_sums(
                            s.take(i + 1),
                            agg_ids(s.take(i + 1))[k],
                        ).0
                        &&& out@[k].1.actual_points as int == team_sums(
                            s.take(i + 1),
                            agg_ids(s.take(i + 1))[k],
                        ).1
                        &&& out@[k].1.zero_point_starters as int == team_sums(
                            s.take(i + 1),
                            agg_ids(s.take(i + 1))[k],
                        ).2
                    } by {
                        if k != j {
                            assert(agg_ids(s.take(i + 1))[k] != p.0);
                        }
                    }
                }
            },
            None => {
                proof {
                    assert(!pre_ids.contains(p.0)) by {
                        if pre_ids.contains(p.0) {
                            let k = choose|k: int| 0 <= k < pre_ids.len() && pre_ids[k] == p.0;
                            assert(out@[k].0 == p.0);
                        }
                    }
                    assert(agg_ids(s.take(i + 1)) == pre_ids.push(p.0));
                }
                out.push(p);
                proof {
                    assert forall|k: int| 0 <= k < out@.len() implies {
                        &&& (#[trigger] out@[k]).0 == agg_ids(s.take(i + 1))[k]
                        &&& out@[k].1.optimal_points as int == team_sums(
                            s.take(i + 1),
                            agg_ids(s.take(i + 1))[k],
                        ).0
                        &&& out@[k].1.actual_points as int == team_sums(
                            s.take(i + 1),
                            agg_ids(s.take(i + 1))[k],
                        ).1
                        &&& out@[k].1.zero_point_starters as int == team_sums(
                            s.take(i + 1),
                            agg_ids(s.take(i + 1))[k],
                        ).2
                    } by {
                        if k < out@.len() - 1 {
                            assert(out@[k].0 == pre_ids[k]);
                            assert(pre_ids[k] != p.0) by {
                                assert(pre_ids.contains(pre_ids[k]));
                            }
                        } else {
                            assert(out@[k] == (p.0, p.1));
                            assert(team_sums(s.take(i as int), p.0) == (0int, 0int, 0int)) by {
                                lemma_agg_ids_contains(s.take(i as int), p.0);
                                lemma_team_sums_absent(s.take(i as int), p.0);
                            }
                        }
                    }
                }
            },
        }
        i += 1;
    }
    assert(s.take(s.len() as int) =~= s);
    out
}

/// A team appears among the aggregated keys exactly when it has an entry.
pub proof fn lemma_agg_ids_contains(s: Seq<(u32, ProgressTracker)>, t: u32)
    ensures
        agg_ids(s).contains(t) <==> exists|k: int| 0 <= k < s.len() && (#[trigger] s[k]).0 == t,
    decreases s.len(),
{
    if s.len() > 0 {
        lemma_agg_ids_contains(s.drop_last(), t);
        let pre = agg_ids(s.drop_last());
        let ids = agg_ids(s);
        if s.last().0 == t {
            if pre.contains(t) {
                assert(ids == pre);
            } else {
                assert(ids == pre.push(t));
                assert(ids[ids.len() - 1] == t);
            }
            assert(ids.contains(t));
            assert(s[s.len() - 1].0 == t);
        } else {
            if exists|k: int| 0 <= k < s.len() && (#[trigger] s[k]).0 == t {
                let k = choose|k: int| 0 <= k < s.len() && (#[trigger] s[k]).0 == t;
                assert(k < s.len() - 1);
                assert(s.drop_last()[k].0 == t);
                assert(pre.contains(t));
                let m = choose|m: int| 0 <= m < pre.len() && pre[m] == t;
                assert(ids[m] == t);
                assert(ids.contains(t));
            }
            if ids.contains(t) {
                let m = choose|m: int| 0 <= m < ids.len() && ids[m] == t;
                assert(m < pre.len()) by {
                    if m >= pre.len() {
                        assert(ids == pre.push(s.last().0));
                        assert(ids[m] == s.last().0);
                    }
                }
                assert(pre.contains(t));
                let k = choose|k: int| 0 <= k < s.drop_last().len() && (#[trigger] s.drop_last()[k]).0 == t;
                assert(s[k].0 == t);
            }
        }
    }
}

/// A team that never appears sums to zero.
pub proof fn lemma_team_sums_absent(s: Seq<(u32, ProgressTracker)>, t: u32)
    requires
        forall|k: int| 0 <= k < s.len() ==> (#[trigger] s[k]).0 != t,
    ensures
        team_sums(s, t) == (0int, 0int, 0int),
    decreases s.len(),
{
    if s.len() > 0 {
        assert(s.last().0 != t);
        lemma_team_sums_absent(s.drop_last(), t);
    }
}

/// Replaces one entry of a result list.
fn replace_entry(v: &mut Vec<(u32, ProgressTracker)>, j: usize, value: (u32, ProgressTracker))
    requires
        j < old(v)@.len(),
    ensures
        final(v)@ == old(v)@.update(j as int, value),
{
    let _ = v.remove(j);
    v.insert(j, value);
    assert(v@ =~= old(v)@.update(j as int, value));
}

} // verus!
