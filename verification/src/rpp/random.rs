//! Random choices among addresses, made by the `rand` crate.
use crate::connection::Address;
use rand::seq::SliceRandom;
use vstd::prelude::*;

verus! {

/// Each item of `picked` stands in `pool`, and no place of `pool` was picked
/// twice.
pub open spec fn picked_from(picked: Seq<Address>, pool: Seq<Address>) -> bool {
    exists|at: Seq<int>|
        {
            &&& at.len() == picked.len()
            &&& at.no_duplicates()
            &&& forall|i: int|
                0 <= i < picked.len() ==> 0 <= #[trigger] at[i] < pool.len() && picked[i]
                    == pool[at[i]]
        }
}

/// `SliceRandom::choose` on the generator of the thread: one of the
/// addresses of the pool, or nothing if the pool is empty. Which one it is
/// differs from call to call.
#[verifier::external_body]
pub(crate) fn pick_one(pool: &[Address]) -> (r: Option<Address>)
    ensures
        r is None <==> pool@.len() == 0,
        r matches Some(a) ==> pool@.contains(a),
{
    pool.choose(&mut rand::thread_rng()).copied()
}

/// `SliceRandom::choose_multiple` on the generator of the thread: `amount`
/// addresses from different places of the pool, or all of them
/// if there are fewer, in an order that differs from call to call.
#[verifier::external_body]
pub(crate) fn pick_many(pool: &[Address], amount: usize) -> (r: Vec<Address>)
    ensures
        r@.len() == if amount <= pool@.len() {
            amount as nat
        } else {
            pool@.len()
        },
        picked_from(r@, pool@),
{
    pool.choose_multiple(&mut rand::thread_rng(), amount).copied().collect()
}

/// What was picked from a pool is in the pool.
pub proof fn lemma_picked_is_member(picked: Seq<Address>, pool: Seq<Address>, i: int)
    requires
        picked_from(picked, pool),
        0 <= i < picked.len(),
    ensures
        pool.contains(picked[i]),
{
    let at = choose|at: Seq<int>|
        {
            &&& at.len() == picked.len()
            &&& at.no_duplicates()
            &&& forall|i: int|
                0 <= i < picked.len() ==> 0 <= #[trigger] at[i] < pool.len() && picked[i]
                    == pool[at[i]]
        };
    assert(0 <= at[i] < pool.len() && picked[i] == pool[at[i]]);
}

} // verus!
