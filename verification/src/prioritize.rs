//! The slot prioritizer: turns a league's roster configuration into the
//! ordered slot sequence the optimizer consumes. Non-scoring slots (bench,
//! injury reserve) and slots with no starting place are dropped; what
//! remains is ordered most-restrictive-first so that narrowly eligible
//! players are placed before broadly eligible ones are consumed.

use vstd::prelude::*;

use crate::sorting::{
    insert_sorted, lemma_insert_sorted_at, lemma_sort_with_ensures,
    sort_with, sorted_with, strict_weak_order,
};
use crate::types::{is_scoring_slot, BenchKingError, RosterSlot};

verus! {

/// A configuration entry survives filtering when its slot scores points and
/// the league actually has starting places of that type.
pub open spec fn keeps_slot(rs: RosterSlot) -> bool {
    is_scoring_slot(rs.slot) && rs.count > 0
}

/// The filter predicate as a value, so every use names the same function.
pub open spec fn keeps_slot_fn() -> spec_fn(RosterSlot) -> bool {
    |rs: RosterSlot| keeps_slot(rs)
}

/// The scoring part of a roster configuration, in configuration order.
pub open spec fn scoring_slots(s: Seq<RosterSlot>) -> Seq<RosterSlot> {
    s.filter(keeps_slot_fn())
}

/// `a` is strictly more restrictive than `b`: lower restrictiveness key, or
/// an equal key and a lower slot identifier. The identifier breaks every
/// tie, which keeps the prioritized order total and reproducible.
pub open spec fn slot_before(a: RosterSlot, b: RosterSlot) -> bool {
    a.restrictiveness < b.restrictiveness
        || (a.restrictiveness == b.restrictiveness && a.slot < b.slot)
}

/// The slot ordering as a value, for use with the sorting specifications.
pub open spec fn slot_order() -> spec_fn(RosterSlot, RosterSlot) -> bool {
    |a: RosterSlot, b: RosterSlot| slot_before(a, b)
}

/// The slot ordering is a strict weak order, so sorting by it behaves.
pub proof fn lemma_slot_order_strict_weak()
    ensures
        strict_weak_order(slot_order()),
{
}

fn slot_before_exec(a: &RosterSlot, b: &RosterSlot) -> (r: bool)
    ensures
        r == slot_before(*a, *b),
{
    a.restrictiveness < b.restrictiveness
        || (a.restrictiveness == b.restrictiveness && a.slot < b.slot)
}

/// Inserts one entry into an already sorted run, keeping it sorted.
#[verifier::loop_isolation(false)]
fn insert_slot(out: &mut Vec<RosterSlot>, x: RosterSlot)
    ensures
        final(out)@ == insert_sorted(slot_order(), x, old(out)@),
{
    let ghost s = out@;
    let mut j: usize = 0;
    while j < out.len() && slot_before_exec(&out[j], &x)
        invariant
            0 <= j <= s.len(),
            forall|k: int| 0 <= k < j ==> slot_before(#[trigger] s[k], x),
        decreases s.len() - j,
    {
        j += 1;
    }
    proof {
        lemma_insert_sorted_at(slot_order(), x, s, j as int);
    }
    out.insert(j, x);
    assert(out@ =~= s.subrange(0, j as int) + seq![x] + s.subrange(j as int, s.len() as int));
}

/// Orders the scoring slots of a roster configuration most-restrictive
/// first: ascending restrictiveness key, ties broken by ascending slot
/// identifier. Restrictiveness is the proxy resolved at configuration load
/// (classically the display-name length of the slot type); the order is
/// total and deterministic, so two runs on the same input agree. A
/// configuration with no scoring slot left is an error: every optimization
/// against it would be trivially zero.
#[verifier::loop_isolation(false)]
pub fn sort_roster_slots_by_restrictivness(config: &Vec<RosterSlot>) -> (r: Result<
    Vec<RosterSlot>,
    BenchKingError,
>)
    requires
        forall|i: int, j: int|
            0 <= i < j < config@.len() ==> (#[trigger] config@[i]).slot != (#[trigger] config@[j]).slot,
    ensures
        match r {
            Ok(out) => {
                &&& scoring_slots(config@).len() > 0
                &&& out@ == sort_with(slot_order(), scoring_slots(config@))
                &&& sorted_with(slot_order(), out@)
                &&& forall|k: int|
                    0 <= k < out@.len() ==> keeps_slot(#[trigger] out@[k])
                &&& out@.to_multiset() == scoring_slots(config@).to_multiset()
            },
            Err(e) => {
                &&& e == BenchKingError::EmptyConfiguration
                &&& scoring_slots(config@).len() == 0
            },
        },
{
    let mut kept: Vec<RosterSlot> = Vec::new();
    proof {
        assert(scoring_slots(config@.take(0)) == Seq::<RosterSlot>::empty()) by {
            reveal(Seq::filter);
            assert(config@.take(0) =~= Seq::<RosterSlot>::empty());
        }
    }
    let mut i: usize = 0;
    while i < config.len()
        invariant
            0 <= i <= config@.len(),
            kept@ == scoring_slots(config@.take(i as int)),
        decreases config@.len() - i,
    {
        let rs = config[i];
        proof {
            assert(config@.take(i + 1) =~= config@.take(i as int).push(rs));
            config@.take(i as int).lemma_filter_push(rs, keeps_slot_fn());
        }
        if rs.slot != crate::types::BENCH_SLOT && rs.slot != crate::types::IR_SLOT && rs.count > 0 {
            kept.push(rs);
        }
        i += 1;
    }
    assert(config@.take(config@.len() as int) =~= config@);
    if kept.len() == 0 {
        return Err(BenchKingError::EmptyConfiguration);
    }
    let ghost filtered = scoring_slots(config@);
    let mut out: Vec<RosterSlot> = Vec::new();
    let mut n: usize = kept.len();
    while n > 0
        invariant
            0 <= n <= kept@.len(),
            out@ == sort_with(slot_order(), kept@.subrange(n as int, kept@.len() as int)),
        decreases n,
    {
        n -= 1;
        let x = kept[n];
        let ghost tail = kept@.subrange(n as int + 1, kept@.len() as int);
        let ghost whole = kept@.subrange(n as int, kept@.len() as int);
        assert(whole[0] == x);
        assert(whole.drop_first() =~= tail);
        insert_slot(&mut out, x);
    }
    assert(kept@.subrange(0, kept@.len() as int) =~= kept@);
    proof {
        lemma_slot_order_strict_weak();
        lemma_sort_with_ensures(slot_order(), filtered);
        broadcast use vstd::seq_lib::group_seq_properties;
        assert forall|k: int| 0 <= k < out@.len() implies keeps_slot(#[trigger] out@[k]) by {
            assert(out@.to_multiset().contains(out@[k]));
            assert(filtered.to_multiset().contains(out@[k]));
            assert(filtered.contains(out@[k]));
            let j = choose|j: int| 0 <= j < filtered.len() && filtered[j] == out@[k];
            config@.lemma_filter_pred(keeps_slot_fn(), j);
        }
    }
    Ok(out)
}

} // verus!
