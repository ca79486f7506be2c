//! The library's general laws, each proved once and for all: the greedy
//! draft never assigns a player twice, its total is realized by an
//! eligibility-respecting lineup, each of its picks is a best available
//! choice, and — where eligibility nests along the priority order — it
//! dominates every valid lineup outright; the optimal total is never
//! negative and an empty roster optimizes to zero;
//! season aggregation splits over any partition of the weeks; and
//! aggregating a single week then ranking it equals ranking the week's
//! details directly.

use vstd::prelude::*;

use crate::optimize::{
    eligible_for, expand_slots, first_pick_from, greedy_picks, id_picked, optimal_points_of,
    perf_before, perf_order, picks_distinct, picks_in_range, picks_points, points_at,
    sorted_roster,
};
use crate::season::{agg_ids, agg_matches, lemma_team_sums_absent, team_sums};
use crate::sorting::{sort_with, sorted_with};
use crate::standings::standing_order;
use crate::types::{PlayerPerformance, ProgressTracker, RosterSlot};

verus! {

/// What a successful scan yields: a position in range, past the start
/// point, holding an undrafted, non-negative-scoring player eligible for
/// the slot.
pub proof fn lemma_first_pick_properties(
    s: Seq<PlayerPerformance>,
    picks: Seq<int>,
    slot: u32,
    i: int,
)
    requires
        0 <= i <= s.len(),
    ensures
        match first_pick_from(s, picks, slot, i) {
            Some(j) => i <= j < s.len() && !id_picked(s, picks, s[j].player_id) && eligible_for(
                s[j],
                slot,
            ) && s[j].points >= 0,
            None => true,
        },
    decreases s.len() - i,
{
    if i < s.len() {
        if !(!id_picked(s, picks, s[i].player_id) && eligible_for(s[i], slot) && s[i].points
            >= 0) {
            lemma_first_pick_properties(s, picks, slot, i + 1);
        }
    }
}

/// No player identifier is ever drafted into more than one slot: the
/// greedy picks are distinct positions carrying distinct players.
pub proof fn lemma_greedy_no_double_assignment(s: Seq<PlayerPerformance>, order: Seq<u32>)
    ensures
        picks_in_range(s, greedy_picks(s, order)),
        picks_distinct(greedy_picks(s, order)),
        forall|k1: int, k2: int|
            0 <= k1 < k2 < greedy_picks(s, order).len() ==> s[#[trigger] greedy_picks(s, order)[k1]].player_id
                != s[#[trigger] greedy_picks(s, order)[k2]].player_id,
    decreases order.len(),
{
    if order.len() > 0 {
        lemma_greedy_no_double_assignment(s, order.drop_last());
        let pre = greedy_picks(s, order.drop_last());
        let picks = greedy_picks(s, order);
        match first_pick_from(s, pre, order.last(), 0) {
            Some(i) => {
                lemma_first_pick_properties(s, pre, order.last(), 0);
                assert(picks == pre.push(i));
                assert forall|k1: int, k2: int|
                    0 <= k1 < k2 < picks.len() implies s[#[trigger] picks[k1]].player_id
                    != s[#[trigger] picks[k2]].player_id && picks[k1] != picks[k2] by {
                    if k2 == picks.len() - 1 {
                        assert(picks[k1] == pre[k1]);
                        assert(picks[k2] == i);
                        assert(0 <= pre[k1] < s.len());
                        if s[pre[k1]].player_id == s[i].player_id {
                            assert(id_picked(s, pre, s[i].player_id));
                        }
                    } else {
                        assert(picks[k1] == pre[k1]);
                        assert(picks[k2] == pre[k2]);
                    }
                }
            },
            None => {
                assert(picks == pre);
            },
        }
    }
}

/// The slot each draft step filled, with the position it drafted, or
/// nothing where the slot went unfilled.
pub open spec fn greedy_assign(s: Seq<PlayerPerformance>, order: Seq<u32>) -> Seq<Option<int>>
    decreases order.len(),
{
    if order.len() == 0 {
        Seq::empty()
    } else {
        greedy_assign(s, order.drop_last()).push(
            first_pick_from(s, greedy_picks(s, order.drop_last()), order.last(), 0),
        )
    }
}

/// The filled steps' positions, in draft order.
pub open spec fn drafted_positions(assign: Seq<Option<int>>) -> Seq<int>
    decreases assign.len(),
{
    if assign.len() == 0 {
        Seq::empty()
    } else {
        let pre = drafted_positions(assign.drop_last());
        match assign.last() {
            Some(j) => pre.push(j),
            None => pre,
        }
    }
}

/// The points a lineup scores: the sum over its filled steps.
pub open spec fn lineup_points(s: Seq<PlayerPerformance>, assign: Seq<Option<int>>) -> int
    decreases assign.len(),
{
    if assign.len() == 0 {
        0
    } else {
        lineup_points(s, assign.drop_last()) + match assign.last() {
            Some(j) => points_at(s, j),
            None => 0,
        }
    }
}

/// The optimizer's total is no fiction: it is scored by an actual lineup
/// that fills each slot place, in priority order, with an eligible player,
/// and whose drafted positions are exactly the (distinct) greedy picks.
pub proof fn lemma_greedy_realizes_lineup(s: Seq<PlayerPerformance>, order: Seq<u32>)
    ensures
        greedy_assign(s, order).len() == order.len(),
        forall|k: int|
            0 <= k < order.len() ==> match #[trigger] greedy_assign(s, order)[k] {
                Some(j) => 0 <= j < s.len() && eligible_for(s[j], order[k]),
                None => true,
            },
        drafted_positions(greedy_assign(s, order)) == greedy_picks(s, order),
        lineup_points(s, greedy_assign(s, order)) == picks_points(s, greedy_picks(s, order)),
    decreases order.len(),
{
    if order.len() > 0 {
        lemma_greedy_realizes_lineup(s, order.drop_last());
        let a_pre = greedy_assign(s, order.drop_last());
        let pre = greedy_picks(s, order.drop_last());
        let pick = first_pick_from(s, pre, order.last(), 0);
        let a = greedy_assign(s, order);
        assert(a == a_pre.push(pick));
        assert(a.drop_last() =~= a_pre);
        lemma_first_pick_properties(s, pre, order.last(), 0);
        assert forall|k: int|
            0 <= k < order.len() implies match #[trigger] greedy_assign(s, order)[k] {
            Some(j) => 0 <= j < s.len() && eligible_for(s[j], order[k]),
            None => true,
        } by {
            if k < order.len() - 1 {
                assert(a[k] == a_pre[k]);
                assert(order.drop_last()[k] == order[k]);
            }
        }
        match pick {
            Some(i) => {
                assert(greedy_picks(s, order) == pre.push(i));
                assert(pre.push(i).drop_last() =~= pre);
            },
            None => {
                assert(greedy_picks(s, order) == pre);
            },
        }
    }
}

proof fn lemma_first_pick_le(
    s: Seq<PlayerPerformance>,
    picks: Seq<int>,
    slot: u32,
    j: int,
    start: int,
)
    requires
        0 <= start <= j < s.len(),
        !id_picked(s, picks, s[j].player_id),
        eligible_for(s[j], slot),
        s[j].points >= 0,
    ensures
        match first_pick_from(s, picks, slot, start) {
            Some(i) => start <= i <= j,
            None => false,
        },
    decreases j - start,
{
    if start < j {
        if !(!id_picked(s, picks, s[start].player_id) && eligible_for(s[start], slot)
            && s[start].points >= 0) {
            lemma_first_pick_le(s, picks, slot, j, start + 1);
        }
    }
}

/// Each greedy pick is a best available choice: at the step that drafted
/// it, no still-undrafted eligible player with a non-negative score scored
/// more (negative scorers are never drafted at all). The procedure is
/// only a heuristic across steps — a narrow slot's best pick can starve a
/// later slot — but within a step it never passes over a better player.
pub proof fn lemma_greedy_pick_is_best(
    s: Seq<PlayerPerformance>,
    picks: Seq<int>,
    slot: u32,
    j: int,
)
    requires
        sorted_with(perf_order(), s),
        0 <= j < s.len(),
        !id_picked(s, picks, s[j].player_id),
        eligible_for(s[j], slot),
        s[j].points >= 0,
    ensures
        match first_pick_from(s, picks, slot, 0) {
            Some(i) => s[j].points <= s[i].points,
            None => false,
        },
{
    lemma_first_pick_le(s, picks, slot, j, 0);
    match first_pick_from(s, picks, slot, 0) {
        Some(i) => {
            if i < j {
                assert(!perf_order()(s[j], s[i]));
                assert(!perf_before(s[j], s[i]));
            }
        },
        None => {},
    }
}

proof fn lemma_greedy_picks_points_nonneg(s: Seq<PlayerPerformance>, order: Seq<u32>)
    ensures
        picks_points(s, greedy_picks(s, order)) >= 0,
    decreases order.len(),
{
    if order.len() > 0 {
        lemma_greedy_picks_points_nonneg(s, order.drop_last());
        let pre = greedy_picks(s, order.drop_last());
        match first_pick_from(s, pre, order.last(), 0) {
            Some(i) => {
                lemma_first_pick_properties(s, pre, order.last(), 0);
                assert(greedy_picks(s, order) == pre.push(i));
                assert(pre.push(i).drop_last() =~= pre);
                assert(points_at(s, i) >= 0);
            },
            None => {
                assert(greedy_picks(s, order) == pre);
            },
        }
    }
}

/// The optimal total is never negative, whatever the scores: the draft
/// leaves a place empty rather than fill it with a negative scorer, and an
/// empty or unfillable place contributes zero, never a penalty.
pub proof fn lemma_optimal_nonnegative(ros: Seq<PlayerPerformance>, slots: Seq<RosterSlot>)
    ensures
        optimal_points_of(ros, slots) >= 0,
{
    lemma_greedy_picks_points_nonneg(sorted_roster(ros), expand_slots(slots));
}

/// An empty performance list can fill nothing, whatever the slots.
pub proof fn lemma_empty_roster_optimal(slots: Seq<RosterSlot>)
    ensures
        optimal_points_of(Seq::empty(), slots) == 0,
{
    assert(sorted_roster(Seq::<PlayerPerformance>::empty()) == Seq::<PlayerPerformance>::empty());
    lemma_greedy_picks_empty(expand_slots(slots));
}

proof fn lemma_greedy_picks_empty(order: Seq<u32>)
    ensures
        greedy_picks(Seq::<PlayerPerformance>::empty(), order) == Seq::<int>::empty(),
    decreases order.len(),
{
    if order.len() > 0 {
        lemma_greedy_picks_empty(order.drop_last());
    }
}

/// A drafted step's contribution to a lineup's total.
pub open spec fn step_points(s: Seq<PlayerPerformance>, e: Option<int>) -> int {
    match e {
        Some(j) => points_at(s, j),
        None => 0,
    }
}

/// Each player appears once in the roster, as a roster lists players.
pub open spec fn distinct_player_ids(s: Seq<PlayerPerformance>) -> bool {
    forall|j1: int, j2: int|
        0 <= j1 < j2 < s.len() ==> (#[trigger] s[j1]).player_id != (#[trigger] s[j2]).player_id
}

/// Any player who fits an earlier (more restrictive) slot of the priority
/// order also fits every later slot: the shape under which the greedy
/// draft is exact.
pub open spec fn nested_eligibility(s: Seq<PlayerPerformance>, order: Seq<u32>) -> bool {
    forall|m1: int, m2: int, j: int|
        #![trigger order[m1], order[m2], s[j]]
        0 <= m1 <= m2 < order.len() && 0 <= j < s.len() && eligible_for(s[j], order[m1])
            ==> eligible_for(s[j], order[m2])
}

/// `v` is a lineup a team could field from the state `picks`: one entry
/// per slot place of `order`, each filled place holding an eligible,
/// not-yet-drafted roster position, no position used twice.
pub open spec fn valid_lineup_from(
    s: Seq<PlayerPerformance>,
    order: Seq<u32>,
    picks: Seq<int>,
    v: Seq<Option<int>>,
) -> bool {
    &&& v.len() == order.len()
    &&& forall|k: int|
        0 <= k < v.len() ==> match #[trigger] v[k] {
            Some(j) => {
                &&& 0 <= j < s.len()
                &&& eligible_for(s[j], order[k])
                &&& !id_picked(s, picks, s[j].player_id)
            },
            None => true,
        }
    &&& forall|k1: int, k2: int|
        0 <= k1 < k2 < v.len() && v[k1] is Some ==> #[trigger] v[k1] != #[trigger] v[k2]
}

/// The greedy draft with its state explicit: fills `order` front to back,
/// starting from the already-drafted `picks`.
pub open spec fn greedy_from(s: Seq<PlayerPerformance>, order: Seq<u32>, picks: Seq<int>) -> Seq<
    int,
>
    decreases order.len(),
{
    if order.len() == 0 {
        picks
    } else {
        match first_pick_from(s, picks, order[0], 0) {
            Some(i) => greedy_from(s, order.drop_first(), picks.push(i)),
            None => greedy_from(s, order.drop_first(), picks),
        }
    }
}

proof fn lemma_greedy_from_push(s: Seq<PlayerPerformance>, order: Seq<u32>, m: u32, picks: Seq<int>)
    ensures
        greedy_from(s, order.push(m), picks) == {
            let g = greedy_from(s, order, picks);
            match first_pick_from(s, g, m, 0) {
                Some(i) => g.push(i),
                None => g,
            }
        },
    decreases order.len(),
{
    if order.len() == 0 {
        assert(order.push(m)[0] == m);
        assert(order.push(m).drop_first() =~= order);
        assert(greedy_from(s, order, picks) == picks);
        match first_pick_from(s, picks, m, 0) {
            Some(i) => {
                assert(greedy_from(s, order.push(m), picks) == greedy_from(s, order, picks.push(i)));
                assert(greedy_from(s, order, picks.push(i)) == picks.push(i));
            },
            None => {
                assert(greedy_from(s, order.push(m), picks) == greedy_from(s, order, picks));
            },
        }
    } else {
        assert(order.push(m)[0] == order[0]);
        assert(order.push(m).drop_first() =~= order.drop_first().push(m));
        match first_pick_from(s, picks, order[0], 0) {
            Some(i) => {
                lemma_greedy_from_push(s, order.drop_first(), m, picks.push(i));
                assert(greedy_from(s, order.push(m), picks) == greedy_from(
                    s,
                    order.drop_first().push(m),
                    picks.push(i),
                ));
                assert(greedy_from(s, order, picks) == greedy_from(
                    s,
                    order.drop_first(),
                    picks.push(i),
                ));
            },
            None => {
                lemma_greedy_from_push(s, order.drop_first(), m, picks);
                assert(greedy_from(s, order.push(m), picks) == greedy_from(
                    s,
                    order.drop_first().push(m),
                    picks,
                ));
                assert(greedy_from(s, order, picks) == greedy_from(s, order.drop_first(), picks));
            },
        }
    }
}

proof fn lemma_greedy_from_equiv(s: Seq<PlayerPerformance>, order: Seq<u32>)
    ensures
        greedy_from(s, order, Seq::empty()) == greedy_picks(s, order),
    decreases order.len(),
{
    if order.len() > 0 {
        lemma_greedy_from_equiv(s, order.drop_last());
        lemma_greedy_from_push(s, order.drop_last(), order.last(), Seq::empty());
        assert(order.drop_last().push(order.last()) =~= order);
    }
}

proof fn lemma_lineup_points_front(s: Seq<PlayerPerformance>, v: Seq<Option<int>>)
    requires
        v.len() > 0,
    ensures
        lineup_points(s, v) == step_points(s, v[0]) + lineup_points(s, v.drop_first()),
    decreases v.len(),
{
    if v.len() == 1 {
        assert(v.drop_last() =~= Seq::<Option<int>>::empty());
        assert(v.drop_first() =~= Seq::<Option<int>>::empty());
        assert(v.last() == v[0]);
    } else {
        lemma_lineup_points_front(s, v.drop_last());
        assert(v.drop_last().drop_first() =~= v.drop_first().drop_last());
        assert(v.drop_last()[0] == v[0]);
        assert(v.drop_first().last() == v.last());
    }
}

proof fn lemma_lineup_points_update(
    s: Seq<PlayerPerformance>,
    v: Seq<Option<int>>,
    k: int,
    x: Option<int>,
)
    requires
        0 <= k < v.len(),
    ensures
        lineup_points(s, v.update(k, x)) == lineup_points(s, v) - step_points(s, v[k]) + step_points(s, x),
    decreases v.len(),
{
    if k == v.len() - 1 {
        assert(v.update(k, x).drop_last() =~= v.drop_last());
        assert(v.update(k, x).last() == x);
    } else {
        lemma_lineup_points_update(s, v.drop_last(), k, x);
        assert(v.update(k, x).drop_last() =~= v.drop_last().update(k, x));
        assert(v.update(k, x).last() == v.last());
        assert(v.drop_last()[k] == v[k]);
    }
}

proof fn lemma_id_picked_push(s: Seq<PlayerPerformance>, picks: Seq<int>, i: int, pid: i64)
    requires
        0 <= i < s.len(),
    ensures
        id_picked(s, picks.push(i), pid) <==> (id_picked(s, picks, pid) || s[i].player_id == pid),
{
    if id_picked(s, picks.push(i), pid) {
        let k = choose|k: int|
            0 <= k < picks.push(i).len() && 0 <= picks.push(i)[k] < s.len()
                && s[picks.push(i)[k]].player_id == pid;
        if k < picks.len() {
            assert(picks[k] == picks.push(i)[k]);
            assert(id_picked(s, picks, pid));
        } else {
            assert(picks.push(i)[k] == i);
        }
    }
    if id_picked(s, picks, pid) {
        let k = choose|k: int|
            0 <= k < picks.len() && 0 <= picks[k] < s.len() && s[picks[k]].player_id == pid;
        assert(picks.push(i)[k] == picks[k]);
        assert(id_picked(s, picks.push(i), pid));
    }
    if s[i].player_id == pid {
        assert(picks.push(i)[picks.len() as int] == i);
        assert(id_picked(s, picks.push(i), pid));
    }
}

proof fn lemma_greedy_from_gain(
    s: Seq<PlayerPerformance>,
    order: Seq<u32>,
    picks: Seq<int>,
    v: Seq<Option<int>>,
)
    requires
        sorted_with(perf_order(), s),
        distinct_player_ids(s),
        nested_eligibility(s, order),
        valid_lineup_from(s, order, picks, v),
    ensures
        picks_points(s, greedy_from(s, order, picks)) - picks_points(s, picks) >= lineup_points(
            s,
            v,
        ),
    decreases order.len(), 1int,
{
    if order.len() == 0 {
        assert(greedy_from(s, order, picks) == picks);
    } else {
        let slot0 = order[0];
        let order1 = order.drop_first();
        assert(nested_eligibility(s, order1)) by {
            assert forall|m1: int, m2: int, j: int|
                #![trigger order1[m1], order1[m2], s[j]]
                0 <= m1 <= m2 < order1.len() && 0 <= j < s.len() && eligible_for(
                    s[j],
                    order1[m1],
                ) implies eligible_for(s[j], order1[m2]) by {
                assert(order1[m1] == order[m1 + 1]);
                assert(order1[m2] == order[m2 + 1]);
            }
        }
        match first_pick_from(s, picks, slot0, 0) {
            None => {
                // The scan found nobody: any first choice the lineup makes
                // must have scored negative, so dropping it loses nothing.
                let v2: Seq<Option<int>> = if v[0] is Some {
                    v.update(0, None)
                } else {
                    v
                };
                assert(v2[0] is None);
                assert(lineup_points(s, v2) >= lineup_points(s, v)) by {
                    match v[0] {
                        Some(j) => {
                            assert(0 <= j < s.len());
                            if s[j].points >= 0 {
                                lemma_first_pick_le(s, picks, slot0, j, 0);
                            }
                            assert(points_at(s, j) < 0);
                            lemma_lineup_points_update(s, v, 0, None);
                        },
                        None => {},
                    }
                }
                assert(valid_lineup_from(s, order, picks, v2)) by {
                    if v[0] is Some {
                        assert forall|k: int| 0 <= k < v2.len() implies match #[trigger] v2[k] {
                            Some(j) => {
                                &&& 0 <= j < s.len()
                                &&& eligible_for(s[j], order[k])
                                &&& !id_picked(s, picks, s[j].player_id)
                            },
                            None => true,
                        } by {
                            if k != 0 {
                                assert(v2[k] == v[k]);
                            }
                        }
                        assert forall|k1: int, k2: int|
                            0 <= k1 < k2 < v2.len() && v2[k1] is Some implies #[trigger] v2[k1]
                            != #[trigger] v2[k2] by {
                            if k1 != 0 {
                                assert(v2[k1] == v[k1]);
                                assert(v2[k2] == v[k2]);
                            }
                        }
                    }
                }
                let v1 = v2.drop_first();
                assert(valid_lineup_from(s, order1, picks, v1)) by {
                    assert forall|k: int| 0 <= k < v1.len() implies match #[trigger] v1[k] {
                        Some(j) => {
                            &&& 0 <= j < s.len()
                            &&& eligible_for(s[j], order1[k])
                            &&& !id_picked(s, picks, s[j].player_id)
                        },
                        None => true,
                    } by {
                        assert(v1[k] == v2[k + 1]);
                        assert(order1[k] == order[k + 1]);
                    }
                    assert forall|k1: int, k2: int|
                        0 <= k1 < k2 < v1.len() && v1[k1] is Some implies #[trigger] v1[k1]
                        != #[trigger] v1[k2] by {
                        assert(v1[k1] == v2[k1 + 1]);
                        assert(v1[k2] == v2[k2 + 1]);
                        assert(v2[k1 + 1] != v2[k2 + 1]);
                    }
                }
                lemma_greedy_from_gain(s, order1, picks, v1);
                lemma_lineup_points_front(s, v2);
                assert(step_points(s, v2[0]) == 0);
                assert(greedy_from(s, order, picks) == greedy_from(s, order1, picks));
            },
            Some(i) => {
                lemma_first_pick_properties(s, picks, slot0, 0);
                if exists|m: int| 0 <= m < v.len() && v[m] == Some(i) {
                    // v already drafts position i somewhere: move it to the
                    // front, sending v's first choice (if any) to that later
                    // slot, which nesting makes legal. The total is
                    // unchanged.
                    let m = choose|m: int| 0 <= m < v.len() && v[m] == Some(i);
                    let va = v.update(0, Some(i));
                    let v2 = va.update(m, v[0]);
                    lemma_lineup_points_update(s, v, 0, Some(i));
                    lemma_lineup_points_update(s, va, m, v[0]);
                    assert(va[m] == Some(i)) by {
                        if m != 0 {
                            assert(va[m] == v[m]);
                        }
                    }
                    assert(lineup_points(s, v2) == lineup_points(s, v));
                    assert(v2[0] == Some(i)) by {
                        if m != 0 {
                            assert(v2[0] == va[0]);
                        }
                    }
                    assert(valid_lineup_from(s, order, picks, v2)) by {
                        assert forall|k: int| 0 <= k < v2.len() implies match #[trigger] v2[k] {
                            Some(j) => {
                                &&& 0 <= j < s.len()
                                &&& eligible_for(s[j], order[k])
                                &&& !id_picked(s, picks, s[j].player_id)
                            },
                            None => true,
                        } by {
                            if k == m && m != 0 {
                                assert(v2[k] == v[0]);
                                match v[0] {
                                    Some(j0) => {
                                        assert(eligible_for(s[j0], order[0]));
                                        assert(eligible_for(s[j0], order[m]));
                                    },
                                    None => {},
                                }
                            } else if k == 0 {
                                assert(v2[0] == Some(i));
                            } else {
                                assert(v2[k] == v[k]);
                            }
                        }
                        assert forall|k1: int, k2: int|
                            0 <= k1 < k2 < v2.len() && v2[k1] is Some implies #[trigger] v2[k1]
                            != #[trigger] v2[k2] by {
                            lemma_swap_keeps_distinct(v, m, i, k1, k2);
                        }
                    }
                    lemma_gain_with_first_pick(s, order, picks, i, v2);
                } else {
                    // v never drafts position i: drafting it first instead
                    // of v's first choice loses nothing — the greedy pick
                    // is a best available choice, never scores negative,
                    // and a negative first choice only hurt the total.
                    let v2 = v.update(0, Some(i));
                    lemma_lineup_points_update(s, v, 0, Some(i));
                    match v[0] {
                        Some(j0) => {
                            if s[j0].points >= 0 {
                                lemma_greedy_pick_is_best(s, picks, slot0, j0);
                            } else {
                                assert(points_at(s, j0) < 0);
                                assert(s[i].points >= 0);
                            }
                        },
                        None => {},
                    }
                    assert(lineup_points(s, v2) >= lineup_points(s, v));
                    assert(valid_lineup_from(s, order, picks, v2)) by {
                        assert forall|k: int| 0 <= k < v2.len() implies match #[trigger] v2[k] {
                            Some(j) => {
                                &&& 0 <= j < s.len()
                                &&& eligible_for(s[j], order[k])
                                &&& !id_picked(s, picks, s[j].player_id)
                            },
                            None => true,
                        } by {
                            if k != 0 {
                                assert(v2[k] == v[k]);
                            }
                        }
                        assert forall|k1: int, k2: int|
                            0 <= k1 < k2 < v2.len() && v2[k1] is Some implies #[trigger] v2[k1]
                            != #[trigger] v2[k2] by {
                            if k1 == 0 {
                                assert(v2[k2] == v[k2]);
                                assert(v[k2] != Some(i));
                            } else {
                                assert(v2[k1] == v[k1]);
                                assert(v2[k2] == v[k2]);
                            }
                        }
                    }
                    lemma_gain_with_first_pick(s, order, picks, i, v2);
                }
            },
        }
    }
}

/// Swapping two entries of a lineup keeps its entries pairwise distinct.
proof fn lemma_swap_keeps_distinct(v: Seq<Option<int>>, m: int, i: int, k1: int, k2: int)
    requires
        0 <= m < v.len(),
        v[m] == Some(i),
        forall|a: int, b: int|
            0 <= a < b < v.len() && v[a] is Some ==> #[trigger] v[a] != #[trigger] v[b],
        0 <= k1 < k2 < v.len(),
        v.update(0, Some(i)).update(m, v[0])[k1] is Some,
    ensures
        v.update(0, Some(i)).update(m, v[0])[k1] != v.update(0, Some(i)).update(m, v[0])[k2],
{
    let v2 = v.update(0, Some(i)).update(m, v[0]);
    if m == 0 {
        assert(v2 =~= v);
    } else {
        // v2 is v with positions 0 and m exchanged.
        assert(v2[0] == Some(i) && v2[0] == v[m]);
        assert(v2[m] == v[0]);
        if k1 == 0 {
            if k2 == m {
                if v[0] is Some {
                    assert(v[0] != v[m]);
                }
                if v[0] is None {
                    assert(v2[k2] is None);
                    assert(v2[k1] is Some);
                }
            } else {
                assert(v2[k2] == v[k2]);
                if k2 < m {
                    assert(v[k2] != v[m]);
                } else {
                    assert(v[m] != v[k2]);
                }
            }
        } else if k1 == m {
            assert(v2[k1] == v[0]);
            assert(v2[k2] == v[k2]);
            assert(v[0] != v[k2]);
        } else if k2 == m {
            assert(v2[k1] == v[k1]);
            assert(v2[k2] == v[0]);
            assert(v[0] is Some ==> v[0] != v[k1]);
            if v[0] is None {
                assert(v[k1] != v[m]);
                assert(v2[k2] is None);
            } else {
                assert(v[0] != v[k1]);
            }
        } else {
            assert(v2[k1] == v[k1]);
            assert(v2[k2] == v[k2]);
        }
    }
}

/// The common tail of the dominance induction: once the compared lineup
/// drafts the greedy pick first, strip that step and recurse.
proof fn lemma_gain_with_first_pick(
    s: Seq<PlayerPerformance>,
    order: Seq<u32>,
    picks: Seq<int>,
    i: int,
    v2: Seq<Option<int>>,
)
    requires
        sorted_with(perf_order(), s),
        distinct_player_ids(s),
        nested_eligibility(s, order),
        order.len() > 0,
        first_pick_from(s, picks, order[0], 0) == Some(i),
        0 <= i < s.len(),
        valid_lineup_from(s, order, picks, v2),
        v2[0] == Some(i),
    ensures
        picks_points(s, greedy_from(s, order, picks)) - picks_points(s, picks) >= lineup_points(
            s,
            v2,
        ),
    decreases order.len(), 0int,
{
    let order1 = order.drop_first();
    assert(nested_eligibility(s, order1)) by {
        assert forall|m1: int, m2: int, j: int|
            #![trigger order1[m1], order1[m2], s[j]]
            0 <= m1 <= m2 < order1.len() && 0 <= j < s.len() && eligible_for(
                s[j],
                order1[m1],
            ) implies eligible_for(s[j], order1[m2]) by {
            assert(order1[m1] == order[m1 + 1]);
            assert(order1[m2] == order[m2 + 1]);
        }
    }
    assert(greedy_from(s, order, picks) == greedy_from(s, order1, picks.push(i)));
    assert(picks_points(s, picks.push(i)) == picks_points(s, picks) + points_at(s, i)) by {
        assert(picks.push(i).drop_last() =~= picks);
    }
    assert(forall|k: int| 1 <= k < v2.len() ==> #[trigger] v2[k] != Some(i));
    let v1 = v2.drop_first();
    assert(valid_lineup_from(s, order1, picks.push(i), v1)) by {
        assert forall|k: int| 0 <= k < v1.len() implies match #[trigger] v1[k] {
            Some(j) => {
                &&& 0 <= j < s.len()
                &&& eligible_for(s[j], order1[k])
                &&& !id_picked(s, picks.push(i), s[j].player_id)
            },
            None => true,
        } by {
            assert(v1[k] == v2[k + 1]);
            assert(order1[k] == order[k + 1]);
            match v2[k + 1] {
                Some(j) => {
                    assert(v2[k + 1] != Some(i));
                    assert(j != i);
                    assert(s[j].player_id != s[i].player_id) by {
                        if j < i {
                            assert(s[j].player_id != s[i].player_id);
                        } else {
                            assert(s[i].player_id != s[j].player_id);
                        }
                    }
                    lemma_id_picked_push(s, picks, i, s[j].player_id);
                },
                None => {},
            }
        }
        assert forall|k1: int, k2: int|
            0 <= k1 < k2 < v1.len() && v1[k1] is Some implies #[trigger] v1[k1] != #[trigger] v1[k2]
            by {
            assert(v1[k1] == v2[k1 + 1]);
            assert(v1[k2] == v2[k2 + 1]);
            assert(v2[k1 + 1] != v2[k2 + 1]);
        }
    }
    lemma_greedy_from_gain(s, order1, picks.push(i), v1);
    lemma_lineup_points_front(s, v2);
    assert(step_points(s, v2[0]) == points_at(s, i));
}

/// Where the optimizer's approximation is exact: if eligibility nests
/// along the priority order and every roster entry is a distinct player,
/// the greedy total is at least the total of every lineup the team could
/// validly have fielded from those slots — negative scorers included,
/// since fielding one only hurts a lineup. Outside that shape the
/// procedure stays a documented heuristic.
pub proof fn lemma_greedy_dominates_nested_lineups(
    s: Seq<PlayerPerformance>,
    order: Seq<u32>,
    v: Seq<Option<int>>,
)
    requires
        sorted_with(perf_order(), s),
        distinct_player_ids(s),
        nested_eligibility(s, order),
        valid_lineup_from(s, order, Seq::empty(), v),
    ensures
        picks_points(s, greedy_picks(s, order)) >= lineup_points(s, v),
{
    lemma_greedy_from_equiv(s, order);
    lemma_greedy_from_gain(s, order, Seq::empty(), v);
    assert(picks_points(s, Seq::<int>::empty()) == 0);
}

/// Aggregation splits over any partition of the weeks: summing a team over
/// two result lists and adding equals summing over their concatenation, so
/// weekly partial sums always agree with a single full-range sum, whatever
/// the order results arrived in.
pub proof fn lemma_team_sums_concat(
    a: Seq<(u32, ProgressTracker)>,
    b: Seq<(u32, ProgressTracker)>,
    t: u32,
)
    ensures
        team_sums(a + b, t).0 == team_sums(a, t).0 + team_sums(b, t).0,
        team_sums(a + b, t).1 == team_sums(a, t).1 + team_sums(b, t).1,
        team_sums(a + b, t).2 == team_sums(a, t).2 + team_sums(b, t).2,
    decreases b.len(),
{
    if b.len() == 0 {
        assert(a + b =~= a);
    } else {
        lemma_team_sums_concat(a, b.drop_last(), t);
        assert((a + b).drop_last() =~= a + b.drop_last());
        assert((a + b).last() == b.last());
    }
}

/// Aggregating a single week is the identity: every team appears once, so
/// its season total is its one weekly result.
pub proof fn lemma_aggregate_single_week(week: Seq<(u32, ProgressTracker)>)
    requires
        forall|k1: int, k2: int| 0 <= k1 < k2 < week.len() ==> week[k1].0 != week[k2].0,
    ensures
        agg_ids(week).len() == week.len(),
        forall|k: int| 0 <= k < week.len() ==> agg_ids(week)[k] == week[k].0,
        forall|k: int|
            0 <= k < week.len() ==> team_sums(week, (#[trigger] week[k]).0) == (
                week[k].1.optimal_points as int,
                week[k].1.actual_points as int,
                week[k].1.zero_point_starters as int,
            ),
    decreases week.len(),
{
    if week.len() > 0 {
        let pre = week.drop_last();
        lemma_aggregate_single_week(pre);
        let pre_ids = agg_ids(pre);
        let t = week.last().0;
        assert(!pre_ids.contains(t)) by {
            if pre_ids.contains(t) {
                let k = choose|k: int| 0 <= k < pre_ids.len() && pre_ids[k] == t;
                assert(pre[k].0 == t);
                assert(week[k].0 == t);
            }
        }
        assert(agg_ids(week) == pre_ids.push(t));
        assert forall|k: int|
            0 <= k < week.len() implies team_sums(week, (#[trigger] week[k]).0) == (
            week[k].1.optimal_points as int,
            week[k].1.actual_points as int,
            week[k].1.zero_point_starters as int,
        ) by {
            if k < week.len() - 1 {
                assert(week[k].0 != t);
                assert(team_sums(week, week[k].0) == team_sums(pre, week[k].0));
                assert(pre[k] == week[k]);
            } else {
                assert(forall|m: int| 0 <= m < pre.len() ==> (#[trigger] pre[m]).0 != t);
                lemma_team_sums_absent(pre, t);
            }
        }
    }
}

/// Aggregating one week's details and then ranking them gives the same
/// standings as ranking the details directly.
pub proof fn lemma_rank_single_week_aggregate(
    week: Seq<(u32, ProgressTracker)>,
    agg: Seq<(u32, ProgressTracker)>,
)
    requires
        forall|k1: int, k2: int| 0 <= k1 < k2 < week.len() ==> week[k1].0 != week[k2].0,
        agg_matches(agg, week),
    ensures
        agg == week,
        sort_with(standing_order(), agg) == sort_with(standing_order(), week),
{
    lemma_aggregate_single_week(week);
    assert(agg =~= week);
}

} // verus!
