//! The lineup optimizer: for one team-week, greedily assigns the week's
//! performances to the prioritized scoring slots to find the best total the
//! team could have scored, and counts the starters who scored exactly zero.
//!
//! The greedy procedure fills slots most-restrictive-first and, within a
//! slot, takes the highest-scoring still-unassigned eligible player, never
//! one who scored negative: a place left empty scores zero, so the optimal
//! total is never negative. It is exact when eligibility nests along the
//! priority order and otherwise a deterministic approximation; it never
//! assigns a player twice.

use vstd::prelude::*;

use crate::sorting::{insert_sorted, lemma_insert_sorted_at, sort_with};
use crate::types::{
    is_scoring_slot, BenchKingError, PlayerPerformance, ProgressTracker, RosterSlot,
    TeamWeekPerformance,
};

verus! {

/// `a` is sorted ahead of `b`: more points, or equal points and the lower
/// player identifier. Ties beyond that keep their input order (the sort is
/// stable), so the scan order is deterministic.
pub open spec fn perf_before(a: PlayerPerformance, b: PlayerPerformance) -> bool {
    a.points > b.points || (a.points == b.points && a.player_id < b.player_id)
}

/// The performance ordering as a value, for the sorting specifications.
pub open spec fn perf_order() -> spec_fn(PlayerPerformance, PlayerPerformance) -> bool {
    |a: PlayerPerformance, b: PlayerPerformance| perf_before(a, b)
}

/// The performance ordering is a strict weak order, so sorting by it
/// behaves.
pub proof fn lemma_perf_order_strict_weak()
    ensures
        crate::sorting::strict_weak_order(perf_order()),
{
}

/// The roster as the optimizer scans it: points descending.
pub open spec fn sorted_roster(ros: Seq<PlayerPerformance>) -> Seq<PlayerPerformance> {
    sort_with(perf_order(), ros)
}

/// The player may legally fill the slot this week.
pub open spec fn eligible_for(p: PlayerPerformance, slot: u32) -> bool {
    p.eligible_slots@.contains(slot)
}

/// Some already-picked entry carries this player identifier: a player can
/// be drafted into at most one slot.
pub open spec fn id_picked(s: Seq<PlayerPerformance>, picks: Seq<int>, pid: i64) -> bool {
    exists|k: int|
        0 <= k < picks.len() && 0 <= picks[k] < s.len() && s[#[trigger] picks[k]].player_id == pid
}

/// The first position at or after `i` holding an eligible, not-yet-drafted
/// player who did not score negative, if any: exactly the scan the
/// optimizer performs for one slot. A negative scorer is never drafted:
/// leaving the place empty scores zero, which is already better, and it
/// keeps the optimal total from ever falling below zero.
pub open spec fn first_pick_from(
    s: Seq<PlayerPerformance>,
    picks: Seq<int>,
    slot: u32,
    i: int,
) -> Option<int>
    decreases s.len() - i
    when 0 <= i <= s.len()
{
    if i >= s.len() {
        None
    } else if !id_picked(s, picks, s[i].player_id) && eligible_for(s[i], slot) && s[i].points
        >= 0 {
        Some(i)
    } else {
        first_pick_from(s, picks, slot, i + 1)
    }
}

/// The slot type repeated once per starting place.
pub open spec fn repeat_slot(slot: u32, n: int) -> Seq<u32>
    decreases (if n <= 0 { 0int } else { n }),
{
    if n <= 0 {
        Seq::empty()
    } else {
        repeat_slot(slot, n - 1).push(slot)
    }
}

/// A prioritized slot sequence flattened into one slot type per place to
/// fill, in the order the optimizer fills them.
pub open spec fn expand_slots(slots: Seq<RosterSlot>) -> Seq<u32>
    decreases slots.len(),
{
    if slots.len() == 0 {
        Seq::empty()
    } else {
        expand_slots(slots.drop_last()) + repeat_slot(slots.last().slot, slots.last().count as int)
    }
}

/// The positions the greedy procedure drafts, in draft order, when filling
/// `order` against the sorted roster `s`.
pub open spec fn greedy_picks(s: Seq<PlayerPerformance>, order: Seq<u32>) -> Seq<int>
    decreases order.len(),
{
    if order.len() == 0 {
        Seq::empty()
    } else {
        let pre = greedy_picks(s, order.drop_last());
        match first_pick_from(s, pre, order.last(), 0) {
            Some(i) => pre.push(i),
            None => pre,
        }
    }
}

/// The points at position `i`, zero outside the roster.
pub open spec fn points_at(s: Seq<PlayerPerformance>, i: int) -> int {
    if 0 <= i < s.len() {
        s[i].points as int
    } else {
        0
    }
}

/// The total points of the drafted positions.
pub open spec fn picks_points(s: Seq<PlayerPerformance>, picks: Seq<int>) -> int
    decreases picks.len(),
{
    if picks.len() == 0 {
        0
    } else {
        picks_points(s, picks.drop_last()) + points_at(s, picks.last())
    }
}

/// The sum of the points' magnitudes over a roster: the bound under which
/// no partial greedy total can overflow.
pub open spec fn abs_points_sum(s: Seq<PlayerPerformance>) -> int
    decreases s.len(),
{
    if s.len() == 0 {
        0
    } else {
        abs_points_sum(s.drop_last()) + vstd::math::abs(s.last().points as int)
    }
}

/// The magnitude sum restricted to the drafted positions.
pub open spec fn sel_abs(s: Seq<PlayerPerformance>, picks: Seq<int>) -> int
    decreases s.len(),
{
    if s.len() == 0 {
        0
    } else {
        sel_abs(s.drop_last(), picks) + if picks.contains(s.len() - 1) {
            vstd::math::abs(s.last().points as int)
        } else {
            0
        }
    }
}

/// Every pick denotes a roster position.
pub open spec fn picks_in_range(s: Seq<PlayerPerformance>, picks: Seq<int>) -> bool {
    forall|k: int| 0 <= k < picks.len() ==> 0 <= #[trigger] picks[k] < s.len()
}

/// No roster position is drafted twice.
pub open spec fn picks_distinct(picks: Seq<int>) -> bool {
    forall|k1: int, k2: int|
        0 <= k1 < k2 < picks.len() ==> #[trigger] picks[k1] != #[trigger] picks[k2]
}

/// What one team-week's optimization reports as the best achievable total:
/// greedy draft of the sorted roster against the flattened slot order.
/// Never negative: a place a negative scorer would fill is left empty.
pub open spec fn optimal_points_of(ros: Seq<PlayerPerformance>, slots: Seq<RosterSlot>) -> int {
    picks_points(sorted_roster(ros), greedy_picks(sorted_roster(ros), expand_slots(slots)))
}

/// The machine limits under which a team side can be optimized: the points'
/// magnitude sum and the roster length stay within the fixed-width range. A
/// missing roster is fine here; it becomes the `DataUnavailable` error.
pub open spec fn roster_ok(t: TeamWeekPerformance) -> bool {
    match t.roster {
        Some(r) => abs_points_sum(r@) <= i64::MAX && r@.len() <= i64::MAX,
        None => true,
    }
}

/// A scoring-slot occupant who scored exactly zero.
pub open spec fn is_zero_point_starter(p: PlayerPerformance) -> bool {
    is_scoring_slot(p.lineup_slot) && p.points == 0
}

/// How many of the reported lineup's scoring-slot occupants scored zero.
pub open spec fn zps_count(s: Seq<PlayerPerformance>) -> int
    decreases s.len(),
{
    if s.len() == 0 {
        0
    } else {
        zps_count(s.drop_last()) + if is_zero_point_starter(s.last()) {
            1int
        } else {
            0int
        }
    }
}

proof fn lemma_sel_abs_le_total(s: Seq<PlayerPerformance>, picks: Seq<int>)
    ensures
        0 <= sel_abs(s, picks) <= abs_points_sum(s),
    decreases s.len(),
{
    if s.len() > 0 {
        lemma_sel_abs_le_total(s.drop_last(), picks);
    }
}

proof fn lemma_sel_abs_push_outside(s: Seq<PlayerPerformance>, picks: Seq<int>, i: int)
    requires
        !(0 <= i < s.len()) || picks.contains(i),
    ensures
        sel_abs(s, picks.push(i)) == sel_abs(s, picks),
    decreases s.len(),
{
    if s.len() > 0 {
        lemma_sel_abs_push_outside(s.drop_last(), picks, i);
        assert(picks.push(i).contains(s.len() - 1) == picks.contains(s.len() - 1)) by {
            if picks.push(i).contains(s.len() - 1) {
                let k = choose|k: int|
                    0 <= k < picks.push(i).len() && picks.push(i)[k] == s.len() - 1;
                if k < picks.len() {
                    assert(picks[k] == s.len() - 1);
                }
            }
            if picks.contains(s.len() - 1) {
                let k = choose|k: int| 0 <= k < picks.len() && picks[k] == s.len() - 1;
                assert(picks.push(i)[k] == s.len() - 1);
            }
        }
    }
}

proof fn lemma_sel_abs_push(s: Seq<PlayerPerformance>, picks: Seq<int>, i: int)
    requires
        0 <= i < s.len(),
        !picks.contains(i),
    ensures
        sel_abs(s, picks.push(i)) == sel_abs(s, picks) + vstd::math::abs(s[i].points as int),
    decreases s.len(),
{
    let last: int = s.len() - 1;
    if i == last {
        lemma_sel_abs_push_outside(s.drop_last(), picks, i);
        assert(picks.push(i).contains(last)) by {
            assert(picks.push(i)[picks.len() as int] == i);
        }
    } else {
        lemma_sel_abs_push(s.drop_last(), picks, i);
        assert(picks.push(i).contains(last) == picks.contains(last)) by {
            if picks.push(i).contains(last) {
                let k = choose|k: int| 0 <= k < picks.push(i).len() && picks.push(i)[k] == last;
                if k < picks.len() {
                    assert(picks[k] == last);
                }
            }
            if picks.contains(last) {
                let k = choose|k: int| 0 <= k < picks.len() && picks[k] == last;
                assert(picks.push(i)[k] == last);
            }
        }
    }
}

fn ids_contain(v: &Vec<i64>, x: i64) -> (r: bool)
    ensures
        r == v@.contains(x),
{
    let mut i: usize = 0;
    while i < v.len()
        invariant
            0 <= i <= v@.len(),
            forall|k: int| 0 <= k < i ==> v@[k] != x,
        decreases v@.len() - i,
    {
        if v[i] == x {
            assert(v@.contains(x));
            return true;
        }
        i += 1;
    }
    false
}

fn slots_contain(v: &Vec<u32>, x: u32) -> (r: bool)
    ensures
        r == v@.contains(x),
{
    let mut i: usize = 0;
    while i < v.len()
        invariant
            0 <= i <= v@.len(),
            forall|k: int| 0 <= k < i ==> v@[k] != x,
        decreases v@.len() - i,
    {
        if v[i] == x {
            assert(v@.contains(x));
            return true;
        }
        i += 1;
    }
    false
}

fn perf_before_exec(a: &PlayerPerformance, b: &PlayerPerformance) -> (r: bool)
    ensures
        r == perf_before(*a, *b),
{
    a.points > b.points || (a.points == b.points && a.player_id < b.player_id)
}

#[verifier::loop_isolation(false)]
fn insert_performance(out: &mut Vec<PlayerPerformance>, x: PlayerPerformance)
    ensures
        final(out)@ == insert_sorted(perf_order(), x, old(out)@),
{
    let ghost s = out@;
    let mut j: usize = 0;
    while j < out.len() && perf_before_exec(&out[j], &x)
        invariant
            0 <= j <= s.len(),
            forall|k: int| 0 <= k < j ==> perf_before(#[trigger] s[k], x),
        decreases s.len() - j,
    {
        j += 1;
    }
    proof {
        lemma_insert_sorted_at(perf_order(), x, s, j as int);
    }
    out.insert(j, x);
    assert(out@ =~= s.subrange(0, j as int) + seq![x] + s.subrange(j as int, s.len() as int));
}

/// Sorts a roster points-descending, ties by ascending player identifier,
/// further ties in input order: the deterministic scan order of the greedy
/// draft.
#[verifier::loop_isolation(false)]
pub fn sorted_performances(v: Vec<PlayerPerformance>) -> (r: Vec<PlayerPerformance>)
    ensures
        r@ == sorted_roster(v@),
        crate::sorting::sorted_with(perf_order(), r@),
        r@.to_multiset() == v@.to_multiset(),
        r@.len() == v@.len(),
{
    let ghost orig = v@;
    let mut v = v;
    let mut out: Vec<PlayerPerformance> = Vec::new();
    assert(v@ =~= orig.take(v@.len() as int));
    assert(orig.subrange(orig.len() as int, orig.len() as int) =~= Seq::<
        PlayerPerformance,
    >::empty());
    while v.len() > 0
        invariant
            v@.len() <= orig.len(),
            v@ == orig.take(v@.len() as int),
            out@ == sort_with(perf_order(), orig.subrange(v@.len() as int, orig.len() as int)),
        decreases v@.len(),
    {
        let ghost n = v@.len() as int;
        let x = v.pop().unwrap();
        proof {
            assert(x == orig[n - 1]);
            let tail = orig.subrange(n, orig.len() as int);
            let whole = orig.subrange(n - 1, orig.len() as int);
            assert(whole[0] == orig[n - 1]);
            assert(whole.drop_first() =~= tail);
            assert(v@ =~= orig.take(v@.len() as int));
        }
        insert_performance(&mut out, x);
    }
    assert(orig.subrange(0, orig.len() as int) =~= orig);
    proof {
        lemma_perf_order_strict_weak();
        crate::sorting::lemma_sort_with_ensures(perf_order(), orig);
    }
    out
}

/// Runs the greedy draft: walks the prioritized slots, and for each starting
/// place takes the first (hence highest-scoring) eligible player not yet
/// drafted, provided the player did not score negative; an empty place
/// scores zero, so the total never goes below zero. Returns the drafted
/// players' total points.
#[verifier::loop_isolation(false)]
pub fn greedy_optimal(sorted: &Vec<PlayerPerformance>, slots: &Vec<RosterSlot>) -> (r: i64)
    requires
        abs_points_sum(sorted@) <= i64::MAX,
    ensures
        r as int == picks_points(sorted@, greedy_picks(sorted@, expand_slots(slots@))),
        r >= 0,
{
    let ghost s = sorted@;
    let mut opt: i64 = 0;
    let mut drafted: Vec<i64> = Vec::new();
    let ghost mut picks: Seq<int> = Seq::empty();
    let ghost mut processed: Seq<u32> = Seq::empty();
    proof {
        assert(expand_slots(slots@.take(0)) =~= Seq::<u32>::empty());
        assert(picks =~= greedy_picks(s, processed));
        lemma_sel_abs_le_total(s, picks);
    }
    let mut si: usize = 0;
    while si < slots.len()
        invariant
            0 <= si <= slots@.len(),
            processed == expand_slots(slots@.take(si as int)),
            picks == greedy_picks(s, processed),
            picks_in_range(s, picks),
            picks_distinct(picks),
            drafted@.len() == picks.len(),
            forall|k: int|
                0 <= k < picks.len() ==> drafted@[k] == s[#[trigger] picks[k]].player_id,
            opt as int == picks_points(s, picks),
            0 <= opt,
            -sel_abs(s, picks) <= opt as int <= sel_abs(s, picks),
        decreases slots@.len() - si,
    {
        let slot_id: u32 = slots[si].slot;
        let count: i64 = slots[si].count;
        let ghost outer_processed = processed;
        let mut rep: i64 = 0;
        while rep < count
            invariant
                0 <= rep,
                rep <= if count >= 0 { count } else { 0 },
                processed == outer_processed + repeat_slot(slot_id, rep as int),
                picks == greedy_picks(s, processed),
                picks_in_range(s, picks),
                picks_distinct(picks),
                drafted@.len() == picks.len(),
                forall|k: int|
                    0 <= k < picks.len() ==> drafted@[k] == s[#[trigger] picks[k]].player_id,
                opt as int == picks_points(s, picks),
                0 <= opt,
                -sel_abs(s, picks) <= opt as int <= sel_abs(s, picks),
            decreases count - rep,
        {
            // Scan the sorted roster for the first undrafted eligible player.
            let mut idx: usize = 0;
            let mut chosen: Option<usize> = None;
            while idx < sorted.len() && chosen.is_none()
                invariant
                    0 <= idx <= s.len(),
                    chosen is None ==> first_pick_from(s, picks, slot_id, 0) == first_pick_from(
                        s,
                        picks,
                        slot_id,
                        idx as int,
                    ),
                    match chosen {
                        Some(c) => {
                            &&& c < s.len()
                            &&& !id_picked(s, picks, s[c as int].player_id)
                            &&& eligible_for(s[c as int], slot_id)
                            &&& s[c as int].points >= 0
                            &&& first_pick_from(s, picks, slot_id, 0) == Some(c as int)
                        },
                        None => true,
                    },
                decreases s.len() - idx + (if chosen is None { 1int } else { 0int }),
            {
                let pid: i64 = sorted[idx].player_id;
                let already = ids_contain(&drafted, pid);
                proof {
                    if already {
                        let k = choose|k: int| 0 <= k < drafted@.len() && drafted@[k] == pid;
                        assert(drafted@[k] == s[picks[k]].player_id);
                        assert(0 <= picks[k] < s.len());
                        assert(id_picked(s, picks, pid));
                    } else {
                        if id_picked(s, picks, pid) {
                            let k = choose|k: int|
                                0 <= k < picks.len() && 0 <= picks[k] < s.len()
                                    && s[picks[k]].player_id == pid;
                            assert(drafted@[k] == pid);
                            assert(drafted@.contains(pid));
                        }
                    }
                }
                if !already && slots_contain(&sorted[idx].eligible_slots, slot_id)
                    && sorted[idx].points >= 0 {
                    chosen = Some(idx);
                    assert(first_pick_from(s, picks, slot_id, idx as int) == Some(idx as int));
                } else {
                    assert(first_pick_from(s, picks, slot_id, idx as int) == first_pick_from(
                        s,
                        picks,
                        slot_id,
                        idx as int + 1,
                    ));
                    idx += 1;
                }
            }
            proof {
                if chosen is None {
                    assert(idx == s.len());
                    assert(first_pick_from(s, picks, slot_id, idx as int) is None);
                }
            }
            let ghost new_processed = processed.push(slot_id);
            proof {
                assert(new_processed.drop_last() =~= processed);
                assert(repeat_slot(slot_id, rep as int + 1).drop_last() =~= repeat_slot(
                    slot_id,
                    rep as int,
                ));
                assert(new_processed =~= outer_processed + repeat_slot(slot_id, rep as int + 1));
            }
            match chosen {
                Some(c) => {
                    let ghost ci = c as int;
                    proof {
                        assert(!id_picked(s, picks, s[ci].player_id));
                        if picks.contains(ci) {
                            let k = choose|k: int| 0 <= k < picks.len() && picks[k] == ci;
                            assert(s[picks[k]].player_id == s[ci].player_id);
                            assert(id_picked(s, picks, s[ci].player_id));
                        }
                        lemma_sel_abs_push(s, picks, ci);
                        lemma_sel_abs_le_total(s, picks.push(ci));
                        assert(picks.push(ci).drop_last() =~= picks);
                    }
                    let pts: i64 = sorted[c].points;
                    opt = opt + pts;
                    drafted.push(sorted[c].player_id);
                    proof {
                        picks = picks.push(ci);
                        assert(greedy_picks(s, new_processed) == picks);
                    }
                },
                None => {
                    proof {
                        assert(greedy_picks(s, new_processed) == picks);
                    }
                },
            }
            proof {
                processed = new_processed;
            }
            rep = rep + 1;
        }
        proof {
            assert(slots@.take(si as int + 1).drop_last() =~= slots@.take(si as int));
            assert(slots@.take(si as int + 1).last() == slots@[si as int]);
            if count <= 0 {
                assert(repeat_slot(slot_id, count as int) =~= Seq::<u32>::empty());
                assert(processed =~= outer_processed + repeat_slot(slot_id, count as int));
            }
            assert(processed =~= expand_slots(slots@.take(si as int + 1)));
        }
        si += 1;
    }
    proof {
        assert(slots@.take(slots@.len() as int) =~= slots@);
    }
    opt
}

/// Counts the reported lineup's scoring-slot occupants who scored zero.
#[verifier::loop_isolation(false)]
pub fn count_zero_point_starters(ros: &Vec<PlayerPerformance>) -> (r: i64)
    requires
        ros@.len() <= i64::MAX,
    ensures
        r as int == zps_count(ros@),
{
    let mut count: i64 = 0;
    let mut i: usize = 0;
    assert(ros@.take(0) =~= Seq::<PlayerPerformance>::empty());
    while i < ros.len()
        invariant
            0 <= i <= ros@.len(),
            0 <= count as int <= i,
            count as int == zps_count(ros@.take(i as int)),
        decreases ros@.len() - i,
    {
        proof {
            assert(ros@.take(i as int + 1).drop_last() =~= ros@.take(i as int));
            assert(ros@.take(i as int + 1).last() == ros@[i as int]);
        }
        let p = &ros[i];
        if p.lineup_slot != crate::types::BENCH_SLOT && p.lineup_slot != crate::types::IR_SLOT
            && p.points == 0 {
            count = count + 1;
        }
        i += 1;
    }
    assert(ros@.take(ros@.len() as int) =~= ros@);
    count
}

/// Optimizes one team-week: reports the team's actual total as given, the
/// greedy-optimal total achievable under the slot constraints — never
/// negative, since an empty place always beats a negative scorer — and the
/// zero-point starters of the reported lineup. A missing roster is the
/// `DataUnavailable` condition; nothing is optimized for such a team-week.
pub fn calculate_optimal_performance(
    performance: TeamWeekPerformance,
    slots: &Vec<RosterSlot>,
) -> (r: Result<ProgressTracker, BenchKingError>)
    requires
        roster_ok(performance),
    ensures
        match r {
            Ok(t) => match performance.roster {
                Some(ros) => {
                    &&& t.actual_points == performance.total_points
                    &&& t.optimal_points as int == optimal_points_of(ros@, slots@)
                    &&& t.optimal_points >= 0
                    &&& t.zero_point_starters as int == zps_count(ros@)
                },
                None => false,
            },
            Err(e) => {
                &&& e == BenchKingError::DataUnavailable
                &&& performance.roster is None
            },
        },
{
    let TeamWeekPerformance { team_id: _, total_points, roster } = performance;
    match roster {
        None => Err(BenchKingError::DataUnavailable),
        Some(ros) => {
            let ghost ros0 = ros@;
            let zeros = count_zero_point_starters(&ros);
            let sorted = sorted_performances(ros);
            proof {
                lemma_sort_abs_points_sum(ros0);
            }
            let opt = greedy_optimal(&sorted, slots);
            Ok(
                ProgressTracker {
                    optimal_points: opt,
                    actual_points: total_points,
                    zero_point_starters: zeros,
                },
            )
        },
    }
}

proof fn lemma_abs_points_sum_singleton(p: PlayerPerformance)
    ensures
        abs_points_sum(seq![p]) == vstd::math::abs(p.points as int),
{
    assert(seq![p].drop_last() =~= Seq::<PlayerPerformance>::empty());
    assert(abs_points_sum(Seq::<PlayerPerformance>::empty()) == 0);
}

/// Magnitude sums add across concatenation.
proof fn lemma_abs_points_sum_concat(a: Seq<PlayerPerformance>, b: Seq<PlayerPerformance>)
    ensures
        abs_points_sum(a + b) == abs_points_sum(a) + abs_points_sum(b),
    decreases b.len(),
{
    if b.len() == 0 {
        assert(a + b =~= a);
    } else {
        lemma_abs_points_sum_concat(a, b.drop_last());
        assert((a + b).drop_last() =~= a + b.drop_last());
        assert((a + b).last() == b.last());
    }
}

/// Insertion adds exactly the inserted player's magnitude.
proof fn lemma_insert_sorted_abs_points_sum(x: PlayerPerformance, s: Seq<PlayerPerformance>)
    ensures
        abs_points_sum(insert_sorted(perf_order(), x, s)) == abs_points_sum(s) + vstd::math::abs(
            x.points as int,
        ),
    decreases s.len(),
{
    let out = insert_sorted(perf_order(), x, s);
    if s.len() == 0 {
        assert(out =~= seq![x]);
        lemma_abs_points_sum_singleton(x);
        assert(abs_points_sum(s) == 0);
    } else if perf_order()(s[0], x) {
        let rest = s.drop_first();
        lemma_insert_sorted_abs_points_sum(x, rest);
        assert(out =~= seq![s[0]] + insert_sorted(perf_order(), x, rest));
        lemma_abs_points_sum_concat(seq![s[0]], insert_sorted(perf_order(), x, rest));
        assert(s =~= seq![s[0]] + rest);
        lemma_abs_points_sum_concat(seq![s[0]], rest);
        lemma_abs_points_sum_singleton(s[0]);
    } else {
        assert(out =~= seq![x] + s);
        lemma_abs_points_sum_concat(seq![x], s);
        lemma_abs_points_sum_singleton(x);
    }
}

/// Sorting a roster leaves the magnitude sum unchanged, so the overflow
/// bound carries over from the roster as fetched to the roster as scanned.
pub proof fn lemma_sort_abs_points_sum(s: Seq<PlayerPerformance>)
    ensures
        abs_points_sum(sorted_roster(s)) == abs_points_sum(s),
    decreases s.len(),
{
    if s.len() == 0 {
    } else {
        let rest = s.drop_first();
        lemma_sort_abs_points_sum(rest);
        lemma_insert_sorted_abs_points_sum(s[0], sort_with(perf_order(), rest));
        assert(s =~= seq![s[0]] + rest);
        lemma_abs_points_sum_concat(seq![s[0]], rest);
        lemma_abs_points_sum_singleton(s[0]);
    }
}

} // verus!
