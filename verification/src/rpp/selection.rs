//! The decisions of set construction, apart from the measurements that they
//! rest on.
use crate::connection::{Address, Time};
use crate::rpp::sequence::{
    is_subsequence, lemma_prefix_is_subsequence, lemma_without_range_is_subsequence,
    without_chunk, without_range,
};
use vstd::prelude::*;

verus! {

/// Number of candidates, the address to evict counted in, that forward
/// selection tries first on a pool of `total` addresses: a tenth of the
/// pool, but no fewer than one more than the ways of a set.
pub open spec fn first_candidates(total: int, n_lines: int) -> int {
    if total / 10 > n_lines + 1 {
        total / 10
    } else {
        n_lines + 1
    }
}

/// The number of candidates that forward selection starts with, if the pool
/// holds at least one address more than a set has ways.
pub fn first_candidate_count(total: usize, n_lines: usize) -> (r: Option<usize>)
    ensures
        r is Some <==> total >= n_lines + 1,
        r matches Some(n) ==> n == first_candidates(total as int, n_lines as int) && n_lines + 1
            <= n <= total,
        r matches Some(n) ==> (total / 10 <= n_lines + 1 ==> n == n_lines + 1),
{
    if total <= n_lines {
        return None;
    }
    let tenth = total / 10;
    if tenth > n_lines + 1 {
        Some(tenth)
    } else {
        Some(n_lines + 1)
    }
}

/// Forward selection has a start on every pool of at least `n_lines + 1`
/// addresses: the first subset that it tries exists, is no larger than the
/// pool, and where a tenth of the pool is no more than `n_lines + 1` it holds
/// exactly `n_lines + 1` candidates, the address to evict among them.
pub proof fn lemma_forward_selection_starts(total: int, n_lines: int)
    requires
        0 <= n_lines,
        total >= n_lines + 1,
    ensures
        n_lines + 1 <= first_candidates(total, n_lines) <= total,
        total / 10 <= n_lines + 1 ==> first_candidates(total, n_lines) == n_lines + 1,
{
}

/// Length of one of the `n_lines + 1` chunks that a set of `len` addresses
/// is cut into.
pub open spec fn chunk_len(len: int, n_lines: int) -> int {
    len / (n_lines + 1)
}

/// A set after one round of backward selection. Where chunk `k` proved
/// redundant it is taken out; where none of the first `n_lines` chunks did,
/// what follows them is cut off.
pub open spec fn reduced(s: Seq<Address>, n_lines: int, redundant: Option<usize>) -> Seq<Address> {
    let cl = chunk_len(s.len() as int, n_lines);
    match redundant {
        Some(k) => without_range(s, k * cl, cl),
        None => s.subrange(0, n_lines * cl),
    }
}

/// The arithmetic of one round: the chunks are not empty, the first
/// `n_lines` of them lie within the set and leave a rest behind them.
pub proof fn lemma_chunks(len: int, n_lines: int, k: int)
    requires
        0 <= n_lines < len,
        0 <= k < n_lines,
    ensures
        chunk_len(len, n_lines) >= 1,
        k * chunk_len(len, n_lines) >= 0,
        (k + 1) * chunk_len(len, n_lines) <= n_lines * chunk_len(len, n_lines),
        n_lines * chunk_len(len, n_lines) + chunk_len(len, n_lines) <= len,
        n_lines * chunk_len(len, n_lines) >= n_lines,
        (k + 1) * chunk_len(len, n_lines) == k * chunk_len(len, n_lines) + chunk_len(
            len,
            n_lines,
        ),
{
    let cl = chunk_len(len, n_lines);
    assert(cl >= 1 && (n_lines + 1) * cl <= len) by (nonlinear_arith)
        requires
            0 <= n_lines < len,
            cl == len / (n_lines + 1),
    ;
    assert(k * cl >= 0 && (k + 1) * cl <= n_lines * cl && n_lines * cl >= n_lines && (k + 1) * cl
        == k * cl + cl && (n_lines + 1) * cl == n_lines * cl + cl) by (nonlinear_arith)
        requires
            0 <= k < n_lines,
            cl >= 1,
    ;
}

/// The arithmetic of a round in which no chunk proved redundant.
pub proof fn lemma_tail(len: int, n_lines: int)
    requires
        0 <= n_lines < len,
    ensures
        chunk_len(len, n_lines) >= 1,
        n_lines <= n_lines * chunk_len(len, n_lines) < len,
{
    let cl = chunk_len(len, n_lines);
    assert(cl >= 1 && (n_lines + 1) * cl <= len) by (nonlinear_arith)
        requires
            0 <= n_lines < len,
            cl == len / (n_lines + 1),
    ;
    assert(n_lines * cl >= n_lines && (n_lines + 1) * cl == n_lines * cl + cl)
        by (nonlinear_arith)
        requires
            0 <= n_lines,
            cl >= 1,
    ;
}

/// One round of backward selection leaves a shorter set that still has an
/// address for every way, made of addresses of the set it started from.
pub proof fn lemma_reduced(s: Seq<Address>, n_lines: int, redundant: Option<usize>)
    requires
        0 <= n_lines < s.len(),
        redundant matches Some(k) ==> k < n_lines,
    ensures
        n_lines <= reduced(s, n_lines, redundant).len() < s.len(),
        is_subsequence(reduced(s, n_lines, redundant), s),
{
    let cl = chunk_len(s.len() as int, n_lines);
    match redundant {
        Some(k) => {
            lemma_chunks(s.len() as int, n_lines, k as int);
            lemma_without_range_is_subsequence(s, k * cl, cl);
        },
        None => {
            lemma_tail(s.len() as int, n_lines);
            lemma_prefix_is_subsequence(s, n_lines * cl);
        },
    }
}

/// Applies one round of backward selection to `s`, given which of the first
/// `n_lines` chunks the measurements showed to be redundant, if any.
pub fn reduce(s: &mut Vec<Address>, n_lines: usize, redundant: Option<usize>)
    requires
        old(s)@.len() > n_lines,
        redundant matches Some(k) ==> k < n_lines,
    ensures
        final(s)@ == reduced(old(s)@, n_lines as int, redundant),
        n_lines <= final(s)@.len() < old(s)@.len(),
        is_subsequence(final(s)@, old(s)@),
{
    let len = s.len();
    let cl = len / (n_lines + 1);
    proof {
        lemma_reduced(s@, n_lines as int, redundant);
    }
    match redundant {
        Some(k) => {
            proof {
                lemma_chunks(len as int, n_lines as int, k as int);
            }
            let rest = without_chunk(s.as_slice(), k * cl, cl);
            *s = rest;
        },
        None => {
            proof {
                lemma_tail(len as int, n_lines as int);
            }
            s.truncate(n_lines * cl);
        },
    }
}

/// A candidate set collides with a color that is already there when more
/// than half of the trials against it ended in an eviction.
pub fn collides(evictions: usize, trials: usize) -> (b: bool)
    ensures
        b <==> 2 * evictions > trials,
{
    evictions > trials / 2
}

/// A pair of timings of one address, first uncached and then cached, is
/// fit for training when the cached access was not the slower one.
pub fn fit_for_training(miss_time: Time, hit_time: Time) -> (b: bool)
    ensures
        b <==> miss_time >= hit_time,
{
    miss_time >= hit_time
}

} // verus!
