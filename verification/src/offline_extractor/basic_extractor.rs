//! The plainest reading of saved measurements: when they were taken.
use crate::connection::Time;
use crate::online_tracker::SavedLats;
use vstd::prelude::*;

verus! {

/// Extracts the timestamps from the saved measurements, in their order.
pub fn extract(data: SavedLats) -> (r: Vec<Time>)
    ensures
        r@ == Seq::new(data@.len(), |i: int| data@[i].2),
{
    let mut out: Vec<Time> = Vec::with_capacity(data.len());
    let mut i: usize = 0;
    while i < data.len()
        invariant
            i <= data@.len(),
            out@ == Seq::new(i as nat, |i: int| data@[i].2),
        decreases data@.len() - i,
    {
        out.push(data[i].2);
        i += 1;
        proof {
            assert(out@ =~= Seq::new(i as nat, |i: int| data@[i].2));
        }
    }
    out
}

} // verus!
