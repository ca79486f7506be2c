//! Ranking: orders (team, result) pairs by suboptimal points descending —
//! the team that left the most points behind comes first — with ties broken
//! by ascending team identifier, so the standings are deterministic however
//! the results mapping was iterated. The top entry is the "bench king".

use vstd::prelude::*;

use crate::sorting::{
    insert_sorted, lemma_insert_sorted_at, lemma_sort_with_ensures, sort_with, sorted_with,
    strict_weak_order,
};
use crate::types::{BenchKingError, ProgressTracker};

verus! {

/// `a` ranks strictly ahead of `b`: more points left behind, or the same
/// gap and the lower team identifier.
pub open spec fn standing_before(a: (u32, ProgressTracker), b: (u32, ProgressTracker)) -> bool {
    let sa = a.1.optimal_points - a.1.actual_points;
    let sb = b.1.optimal_points - b.1.actual_points;
    sa > sb || (sa == sb && a.0 < b.0)
}

/// The standings ordering as a value, for the sorting specifications.
pub open spec fn standing_order() -> spec_fn((u32, ProgressTracker), (u32, ProgressTracker)) -> bool {
    |a: (u32, ProgressTracker), b: (u32, ProgressTracker)| standing_before(a, b)
}

/// The standings ordering is a strict weak order, so sorting by it behaves.
pub proof fn lemma_standing_order_strict_weak()
    ensures
        strict_weak_order(standing_order()),
{
}

fn standing_before_exec(a: &(u32, ProgressTracker), b: &(u32, ProgressTracker)) -> (r: bool)
    ensures
        r == standing_before(*a, *b),
{
    let sa: i128 = a.1.optimal_points as i128 - a.1.actual_points as i128;
    let sb: i128 = b.1.optimal_points as i128 - b.1.actual_points as i128;
    sa > sb || (sa == sb && a.0 < b.0)
}

#[verifier::loop_isolation(false)]
fn insert_standing(out: &mut Vec<(u32, ProgressTracker)>, x: (u32, ProgressTracker))
    ensures
        final(out)@ == insert_sorted(standing_order(), x, old(out)@),
{
    let ghost s = out@;
    let mut j: usize = 0;
    while j < out.len() && standing_before_exec(&out[j], &x)
        invariant
            0 <= j <= s.len(),
            forall|k: int| 0 <= k < j ==> standing_before(#[trigger] s[k], x),
        decreases s.len() - j,
    {
        j += 1;
    }
    proof {
        lemma_insert_sorted_at(standing_order(), x, s, j as int);
    }
    out.insert(j, x);
    assert(out@ =~= s.subrange(0, j as int) + seq![x] + s.subrange(j as int, s.len() as int));
}

/// Ranks a results mapping into standings: suboptimal points descending,
/// ties by ascending team identifier. The output is a permutation of the
/// input and a pure function of it, so repeated runs agree; rounding plays
/// no part in the order.
#[verifier::loop_isolation(false)]
pub fn bench_king_standing_from_team_map(data: &Vec<(u32, ProgressTracker)>) -> (out: Vec<
    (u32, ProgressTracker),
>)
    ensures
        out@ == sort_with(standing_order(), data@),
        sorted_with(standing_order(), out@),
        out@.to_multiset() == data@.to_multiset(),
        out@.len() == data@.len(),
{
    let ghost orig = data@;
    let mut out: Vec<(u32, ProgressTracker)> = Vec::new();
    assert(orig.subrange(orig.len() as int, orig.len() as int) =~= Seq::<
        (u32, ProgressTracker),
    >::empty());
    let mut n: usize = data.len();
    while n > 0
        invariant
            0 <= n <= orig.len(),
            out@ == sort_with(standing_order(), orig.subrange(n as int, orig.len() as int)),
        decreases n,
    {
        n -= 1;
        let x = data[n];
        proof {
            let tail = orig.subrange(n as int + 1, orig.len() as int);
            let whole = orig.subrange(n as int, orig.len() as int);
            assert(whole[0] == x);
            assert(whole.drop_first() =~= tail);
        }
        insert_standing(&mut out, x);
    }
    assert(orig.subrange(0, orig.len() as int) =~= orig);
    proof {
        lemma_standing_order_strict_weak();
        lemma_sort_with_ensures(standing_order(), orig);
    }
    out
}

/// The top of the standings: the team that left the most points behind.
/// Empty standings have no king, which callers must face explicitly.
pub fn bench_king(standings: &Vec<(u32, ProgressTracker)>) -> (r: Result<
    (u32, ProgressTracker),
    BenchKingError,
>)
    ensures
        match r {
            Ok(king) => standings@.len() > 0 && king == standings@[0],
            Err(e) => e == BenchKingError::NoStandings && standings@.len() == 0,
        },
{
    if standings.len() == 0 {
        Err(BenchKingError::NoStandings)
    } else {
        Ok(standings[0])
    }
}

} // verus!
