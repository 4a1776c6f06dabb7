//! The median of repeated measurements, which steadies a noisy reading.
use crate::connection::Time;
use vstd::prelude::*;
use vstd::relations::{sorted_by, total_ordering};
use vstd::seq_lib::{lemma_sorted_unique, to_multiset_build, to_multiset_insert};

verus! {

/// Number of measurements that a steadied reading is taken from.
pub const STABILIZE_CNT: usize = 10;

/// The order of the times.
pub open spec fn not_after() -> spec_fn(Time, Time) -> bool {
    |a: Time, b: Time| a <= b
}

/// The times in rising order.
pub open spec fn in_order(samples: Seq<Time>) -> Seq<Time> {
    samples.sort_by(not_after())
}

/// The median of the times: the middle one of them in rising order, and the
/// lower one of the two in the middle where their number is even.
pub open spec fn median_of(samples: Seq<Time>) -> Time
    recommends
        samples.len() > 0,
{
    in_order(samples)[(samples.len() - 1) / 2]
}

/// The order of the times is a total one.
pub proof fn lemma_not_after_is_total()
    ensures
        total_ordering(not_after()),
{
    let r = not_after();
    assert(vstd::relations::reflexive(r));
    assert(vstd::relations::antisymmetric(r));
    assert(vstd::relations::transitive(r));
    assert(vstd::relations::strongly_connected(r));
}

/// The times in rising order.
pub fn sorted(samples: &[Time]) -> (r: Vec<Time>)
    ensures
        r@ == in_order(samples@),
        r@.len() == samples@.len(),
{
    let mut out: Vec<Time> = Vec::with_capacity(samples.len());
    let mut i: usize = 0;
    proof {
        assert(samples@.subrange(0, 0) =~= Seq::<Time>::empty());
    }
    while i < samples.len()
        invariant
            i <= samples.len(),
            out@.len() == i,
            sorted_by(out@, not_after()),
            out@.to_multiset() == samples@.subrange(0, i as int).to_multiset(),
        decreases samples.len() - i,
    {
        let x = samples[i];
        let mut j: usize = 0;
        while j < out.len() && out[j] <= x
            invariant
                j <= out@.len(),
                forall|k: int| 0 <= k < j ==> out@[k] <= x,
            decreases out@.len() - j,
        {
            j += 1;
        }
        let ghost before = out@;
        out.insert(j, x);
        proof {
            let le = not_after();
            assert forall|a: int, b: int| 0 <= a < b < out@.len() implies #[trigger] le(
                out@[a],
                out@[b],
            ) by {
                let pa = if a < j {
                    a
                } else {
                    a - 1
                };
                let pb = if b < j {
                    b
                } else {
                    b - 1
                };
                if a != j && b != j {
                    assert(le(before[pa], before[pb]));
                } else if a == j {
                    assert(le(before[j as int], before[pb]));
                }
            }
            to_multiset_insert(before, j as int, x);
            to_multiset_build(samples@.subrange(0, i as int), x);
            assert(samples@.subrange(0, i as int + 1) =~= samples@.subrange(0, i as int).push(x));
        }
        i += 1;
    }
    proof {
        assert(samples@.subrange(0, samples@.len() as int) =~= samples@);
        lemma_not_after_is_total();
        samples@.lemma_sort_by_ensures(not_after());
        lemma_sorted_unique(out@, in_order(samples@), not_after());
    }
    out
}

/// The median of the given times, if there are any: see [`median_of`].
pub fn median(samples: &[Time]) -> (r: Option<Time>)
    ensures
        r is None <==> samples@.len() == 0,
        r matches Some(m) ==> m == median_of(samples@),
{
    if samples.len() == 0 {
        return None;
    }
    let ordered = sorted(samples);
    Some(ordered[(ordered.len() - 1) / 2])
}

} // verus!
