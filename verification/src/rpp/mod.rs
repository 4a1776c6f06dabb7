//! Remote prime and probe: the construction of eviction sets over a
//! connection that only allows timed accesses, and the priming and probing of
//! the sets that were built.
pub mod accesses;
pub mod addresses;
pub mod median;
pub mod origin;
pub mod params;
pub mod random;
pub mod rpp_connector;
pub mod selection;
pub mod sequence;
pub mod timing_classif;

use crate::connection::{Address, CacheConnector, Time};
use crate::error::Error;
pub use crate::rpp::accesses::{
    broken_check, build_accesses, build_run, built_classifier, built_pool, eviction_check,
    lemma_rounds_sown_extended, rounds_sown,
    first_miss_is_last, forward_break, forward_checks, forward_run, misses, narrowed,
    narrowing_break, narrowing_checks, narrowing_run, no_miss, primes_of, probes_of,
    round_break, round_checks, round_complete, round_outcome, round_run, sampled, seen_to_evict,
    sweep_checks, sweep_run, swept, timed, trained_hits, trained_misses, training_accesses,
    training_run, trial_against, trial_break, trial_checks, trial_collides, uniqueness_break,
    uniqueness_checks, uniqueness_run, within, Access, BuildRound, Sample, Trial,
};
pub use crate::rpp::addresses::{
    at_home, below, homed, lemma_homed_below, lemma_pages_differ, lemma_parts_below,
    lemma_variant_moved, lemma_variant_of_page, page_offsets, variant_of, variant_of_page,
};
pub use crate::rpp::params::{
    core_i7, core_i7_ddio, xeon_e5, xeon_e5_ddio, xeon_platinum, xeon_platinum_ddio, CacheParams,
    RppParams, PAGE_SIZE,
};
pub use crate::rpp::origin::{
    derivation_failed, derived, lemma_attempt_kept, lemma_derivation_kept, lemma_derived_kept,
    derivations_failed, lemma_derivation_extended, lemma_derivations_extended,
    lemma_extends_begins, lemma_recorded_kept, lemma_unkept, lemma_unselected,
    passed_uniqueness, recorded_at, seeded, seeds_of, selected, selection_failed,
    sweep_complete, Attempt, Derivation, Ending, Fate, Seeding, Selection,
};
use crate::rpp::random::{pick_many, pick_one};
use crate::rpp::selection::{
    chunk_len, collides, first_candidate_count, first_candidates, fit_for_training, lemma_chunks,
    reduce,
};
use crate::rpp::sequence::{
    disjoint, extends, is_subsequence, lemma_extends_trans, lemma_filter_is_subsequence,
    lemma_prefix_is_subsequence, lemma_subsequence_all, lemma_subsequence_disjoint,
    lemma_subsequence_len, lemma_subsequence_no_duplicates, lemma_subsequence_refl,
    lemma_subsequence_trans, lemma_unused_disjoint, lemma_without_range_is_subsequence, prefix,
    unused, without_chunk, without_first, without_range,
};
use crate::rpp::timing_classif::{CacheTiming, TimingClassifier};
use vstd::multiset::Multiset;
use vstd::prelude::*;

verus! {

/// Number of timing pairs that the classifier is first trained with.
pub const TIMINGS_INIT_FILL: usize = 150;

/// Number of timing pairs of a later round of training.
pub const TIMING_REFRESH_FILL: usize = 50;

/// Size of the first address pool below which training is not refreshed.
pub const REFRESH_FLOOR: usize = 500;

/// Number of failures in a row that the construction of sets puts up with.
pub const RETRY_CNT: usize = 10;

/// Lowest of the address bits that select the set within a page.
pub const CTL_BIT: usize = 6;

/// Number of values that the address bits from 6 up to 12 take: so many sets
/// has a color, and so many address pools are kept.
pub const NUM_VARIANTS: usize = 64;

/// Number of witnesses that a candidate set is tried against for each color.
pub const UNIQUENESS_TRIALS: usize = 5;

/// What is read and written at one address.
pub type Contents = u8;

/// Addresses that together fill every reachable way of one cache set.
pub type EvictionSet = Vec<Address>;

/// A code that stands for one page color.
pub type ColorCode = usize;

/// A code that stands for one set among those of a color.
pub type ColoredSetCode = usize;

/// The latencies of the addresses of one set, in the order of the set.
pub type Latencies = Vec<Time>;

/// Names one cache set: its color, and its place among the sets of the color.
#[derive(Copy, Clone, Default, Debug, PartialOrd, PartialEq, Eq, Ord, Structural)]
pub struct SetCode(pub ColorCode, pub ColoredSetCode);

/// The outcome of probing a set, with the data that was gathered.
#[derive(Clone, Debug, PartialOrd, PartialEq, Eq, Ord)]
pub enum ProbeResult<T> {
    /// Something else was loaded into the set since it was primed.
    Activated(T),
    /// The set is as it was primed.
    Stale(T),
}

impl<T> ProbeResult<T> {
    /// The data that the outcome carries.
    pub open spec fn data(self) -> T {
        match self {
            ProbeResult::Activated(d) => d,
            ProbeResult::Stale(d) => d,
        }
    }

    /// Tests whether the probe registered an activation.
    pub fn is_activated(&self) -> (b: bool)
        ensures
            b <==> self is Activated,
    {
        match self {
            ProbeResult::Activated(_) => true,
            ProbeResult::Stale(_) => false,
        }
    }

    /// Tests whether the probe registered no activation.
    pub fn is_stale(&self) -> (b: bool)
        ensures
            b <==> self is Stale,
    {
        !self.is_activated()
    }
}

/// One of the probes registered an activation.
pub open spec fn some_activated<T>(probes: Seq<ProbeResult<T>>) -> bool {
    exists|i: int| 0 <= i < probes.len() && #[trigger] probes[i] is Activated
}

/// Tests whether an activation has been observed in the given probe results.
pub fn has_activation<T>(probes: &[ProbeResult<T>]) -> (b: bool)
    ensures
        b <==> some_activated(probes@),
{
    let mut i: usize = 0;
    while i < probes.len()
        invariant
            i <= probes.len(),
            forall|j: int| 0 <= j < i ==> !(#[trigger] probes@[j] is Activated),
        decreases probes.len() - i,
    {
        if probes[i].is_activated() {
            return true;
        }
        i += 1;
    }
    false
}

/// One of the latencies is judged a miss by the classifier.
pub open spec fn registers_miss(classifier: TimingClassifier, lats: Seq<Time>) -> bool {
    exists|i: int| 0 <= i < lats.len() && #[trigger] classifier.judgement(lats[i]) is Miss
}

/// Turns the latencies of the addresses of a set into the outcome of the
/// probe: an activation if one of them is judged a miss.
pub fn classify_probe(classifier: &TimingClassifier, lats: Latencies) -> (r: ProbeResult<
    Latencies,
>)
    requires
        classifier.wf(),
    ensures
        r.data() == lats,
        r is Activated <==> registers_miss(*classifier, lats@),
{
    let mut i: usize = 0;
    while i < lats.len()
        invariant
            i <= lats.len(),
            classifier.wf(),
            forall|j: int| 0 <= j < i ==> !(#[trigger] classifier.judgement(lats@[j]) is Miss),
        decreases lats.len() - i,
    {
        if classifier.is_miss(lats[i]) {
            return ProbeResult::Activated(lats);
        }
        i += 1;
    }
    ProbeResult::Stale(lats)
}

/// The codes of all sets of `sets`, color by color.
pub open spec fn all_codes(sets: Seq<Seq<Seq<Address>>>) -> Seq<SetCode>
    decreases sets.len(),
{
    if sets.len() == 0 {
        Seq::empty()
    } else {
        all_codes(sets.drop_last()) + Seq::new(
            sets.last().len(),
            |i: int| SetCode((sets.len() - 1) as usize, i as usize),
        )
    }
}

/// What forward selection may return on a pool: a prefix of the pool that
/// leaves at least one address of the pool out and is no shorter than the
/// first subset to be tried.
pub open spec fn forward_accepts(pool: Seq<Address>, n_lines: int, s: Seq<Address>) -> bool {
    &&& pool.len() >= n_lines + 1
    &&& first_candidates(pool.len() as int, n_lines) <= s.len() + 1 <= pool.len()
    &&& s == pool.subrange(0, s.len() as int)
}

/// On a pool of just one address more than a set has ways, what forward
/// selection returns is the pool without its last address: with the address
/// to evict, one candidate more than there are ways.
pub proof fn lemma_forward_selection_at_boundary(
    pool: Seq<Address>,
    n_lines: int,
    s: Seq<Address>,
)
    requires
        0 <= n_lines,
        pool.len() == n_lines + 1,
        forward_accepts(pool, n_lines, s),
    ensures
        s.len() + 1 == n_lines + 1,
        s == pool.drop_last(),
{
}

/// Forward selection succeeds with its first subset where the first check
/// is judged a miss: the run has one check only, and the set that is
/// returned is as long as the first subset.
pub proof fn lemma_forward_selection_first_check(
    classifier: TimingClassifier,
    total: int,
    n_lines: int,
    s: Seq<Address>,
    lats: Seq<Time>,
)
    requires
        lats.len() == s.len() + 2 - first_candidates(total, n_lines),
        first_miss_is_last(classifier, lats),
        classifier.judgement(lats[0]) is Miss,
    ensures
        lats.len() == 1,
        s.len() + 1 == first_candidates(total, n_lines),
{
    if lats.len() > 1 {
        assert(lats.drop_last()[0] == lats[0]);
    }
}

/// The context of remote prime and probe over one connection: the eviction
/// sets that were built, by color, and what is left of the address pools.
pub struct Rpp<C> {
    params: RppParams,
    conn: C,
    colored_sets: Vec<Vec<Vec<Address>>>,
    addrs: Vec<Vec<Address>>,
    classifier: TimingClassifier,
    quite: bool,
    log: Ghost<Seq<Access>>,
}

impl<C> Rpp<C> {
    /// The eviction sets: for each color, the sets of that color.
    pub closed spec fn sets(&self) -> Seq<Seq<Seq<Address>>> {
        Seq::new(
            self.colored_sets@.len(),
            |c: int|
                Seq::new(self.colored_sets@[c]@.len(), |i: int| self.colored_sets@[c]@[i]@),
        )
    }

    /// The address pools, one for each value of the address bits 6 to 12.
    pub closed spec fn pools(&self) -> Seq<Seq<Address>> {
        Seq::new(self.addrs@.len(), |i: int| self.addrs@[i]@)
    }

    /// The quantities that the engine was set up with.
    pub closed spec fn layout(&self) -> RppParams {
        self.params
    }

    /// The classifier that tells hits from misses.
    pub closed spec fn timings(&self) -> TimingClassifier {
        self.classifier
    }

    /// Whether progress is not to be reported.
    pub closed spec fn quiet(&self) -> bool {
        self.quite
    }

    /// The accesses that the engine has completed over its connection, in
    /// their order.
    pub closed spec fn accesses(&self) -> Seq<Access> {
        self.log@
    }

    /// The address lies in the work buffer.
    pub open spec fn in_buffer(&self, a: Address) -> bool {
        a < self.layout().v_buf
    }

    /// The addresses lie in the work buffer.
    pub open spec fn all_in_buffer(&self, s: Seq<Address>) -> bool {
        below(s, self.layout().v_buf as int)
    }

    /// No access that the engine has completed went beyond the work buffer.
    pub open spec fn confined(&self) -> bool {
        forall|i: int|
            0 <= i < self.accesses().len() ==> within(
                #[trigger] self.accesses()[i],
                self.layout().v_buf as int,
            )
    }

    /// Without a further access the accesses stay confined to the work
    /// buffer.
    pub proof fn lemma_confined_kept(&self, before: &Self)
        requires
            self.accesses() == before.accesses(),
            self.layout() == before.layout(),
        ensures
            self.stays_confined(before),
    {
        if before.confined() {
            assert forall|i: int| 0 <= i < self.accesses().len() implies within(
                #[trigger] self.accesses()[i],
                self.layout().v_buf as int,
            ) by {
                assert(self.accesses()[i] == before.accesses()[i]);
            }
        }
    }

    /// One more access within the work buffer leaves the accesses confined
    /// to it.
    pub proof fn lemma_confined_push(&self, before: &Self, access: Access)
        requires
            self.accesses() == before.accesses().push(access),
            self.layout() == before.layout(),
            within(access, before.layout().v_buf as int),
        ensures
            self.stays_confined(before),
    {
        if before.confined() {
            assert forall|i: int| 0 <= i < self.accesses().len() implies within(
                #[trigger] self.accesses()[i],
                self.layout().v_buf as int,
            ) by {
                if i < before.accesses().len() {
                    assert(self.accesses()[i] == before.accesses()[i]);
                }
            }
        }
    }

    /// The addresses of the sets and of the pools lie in the work buffer.
    pub proof fn lemma_in_buffer(&self)
        requires
            self.wf(),
        ensures
            forall|c: int, i: int|
                0 <= c < self.sets().len() && 0 <= i < NUM_VARIANTS ==> self.all_in_buffer(
                    #[trigger] self.sets()[c][i],
                ),
            forall|i: int| 0 <= i < NUM_VARIANTS ==> self.all_in_buffer(#[trigger] self.pools()[i]),
    {
        let limit = self.layout().v_buf as int;
        assert forall|c: int, i: int|
            0 <= c < self.sets().len() && 0 <= i < NUM_VARIANTS implies self.all_in_buffer(
            #[trigger] self.sets()[c][i],
        ) by {
            let s = self.sets()[c][i];
            assert(homed(s, i, limit));
            assert forall|k: int| 0 <= k < s.len() implies (#[trigger] s[k]) < limit by {
                assert(at_home(s[k], i, limit));
            }
        }
        assert forall|i: int| 0 <= i < NUM_VARIANTS implies self.all_in_buffer(
            #[trigger] self.pools()[i],
        ) by {
            let s = self.pools()[i];
            assert(homed(s, i, limit));
            assert forall|k: int| 0 <= k < s.len() implies (#[trigger] s[k]) < limit by {
                assert(at_home(s[k], i, limit));
            }
        }
    }

    /// If the accesses before were confined to the work buffer, they still
    /// are.
    pub open spec fn stays_confined(&self, before: &Self) -> bool {
        before.confined() ==> self.confined()
    }

    /// There is a pool for each variant, each color has a set for each
    /// variant, each set has an address for each reachable way, and no
    /// address serves twice.
    pub open spec fn wf(&self) -> bool {
        &&& self.timings().wf()
        &&& self.layout().v_buf as int % PAGE_SIZE as int == 0
        &&& self.shaped()
        &&& self.tidy()
        &&& forall|c: int, i: int|
            0 <= c < self.sets().len() && 0 <= i < NUM_VARIANTS ==> (#[trigger] self.sets()[c][i]).len()
                == self.layout().n_lines
    }

    /// The addresses of `s` can make up a further set of variant `variant`:
    /// they are of that variant, none occurs twice, none is left in the pool
    /// of the variant, and none belongs to a set that was built.
    pub open spec fn fresh(&self, s: Seq<Address>, variant: int) -> bool {
        &&& homed(s, variant, self.layout().v_buf as int)
        &&& disjoint(s, self.pools()[variant])
        &&& forall|c: int| 0 <= c < self.sets().len() ==> disjoint(s, #[trigger] self.sets()[c][variant])
    }

    /// There is a pool for each variant, and each color has a set for each
    /// variant.
    pub open spec fn shaped(&self) -> bool {
        &&& self.pools().len() == NUM_VARIANTS
        &&& forall|c: int|
            0 <= c < self.sets().len() ==> (#[trigger] self.sets()[c]).len() == NUM_VARIANTS
    }

    /// No address serves twice: each pool and each set holds addresses of
    /// its variant only, each of them once; no address of a set is left in a
    /// pool, and no two sets share an address.
    pub open spec fn tidy(&self) -> bool {
        &&& forall|i: int|
            0 <= i < NUM_VARIANTS ==> homed(#[trigger] self.pools()[i], i, self.layout().v_buf as int)
        &&& forall|c: int, i: int|
            0 <= c < self.sets().len() && 0 <= i < NUM_VARIANTS ==> homed(
                #[trigger] self.sets()[c][i],
                i,
                self.layout().v_buf as int,
            )
        &&& forall|c: int, i: int|
            0 <= c < self.sets().len() && 0 <= i < NUM_VARIANTS ==> disjoint(
                #[trigger] self.sets()[c][i],
                self.pools()[i],
            )
        &&& forall|c: int, d: int, i: int|
            0 <= c < self.sets().len() && 0 <= d < self.sets().len() && c != d && 0 <= i
                < NUM_VARIANTS ==> disjoint(
                #[trigger] self.sets()[c][i],
                #[trigger] self.sets()[d][i],
            )
    }

    /// Thinning a pool leaves no address to serve twice.
    pub proof fn lemma_tidy_thinned(&self, before: &Self, idx: int)
        requires
            before.shaped(),
            before.tidy(),
            self.pool_thinned(before, idx),
            0 <= idx < NUM_VARIANTS,
        ensures
            self.shaped(),
            self.tidy(),
    {
        let pool = self.pools()[idx];
        let old_pool = before.pools()[idx];
        let limit = self.layout().v_buf as int;
        assert(homed(old_pool, idx, limit));
        lemma_subsequence_no_duplicates(pool, old_pool);
        lemma_subsequence_all(pool, old_pool, |a: Address| at_home(a, idx, limit));
        assert forall|i: int| 0 <= i < NUM_VARIANTS implies homed(
            #[trigger] self.pools()[i],
            i,
            limit,
        ) by {
            if i != idx {
                assert(self.pools()[i] == before.pools()[i]);
                assert(homed(before.pools()[i], i, limit));
            }
        }
        assert forall|c: int, i: int|
            0 <= c < self.sets().len() && 0 <= i < NUM_VARIANTS implies disjoint(
            #[trigger] self.sets()[c][i],
            self.pools()[i],
        ) by {
            assert(disjoint(before.sets()[c][i], before.pools()[i]));
            if i == idx {
                lemma_subsequence_disjoint(pool, old_pool, before.sets()[c][i]);
            } else {
                assert(self.pools()[i] == before.pools()[i]);
            }
        }
    }

    /// A set that could be added before a pool was thinned can be added
    /// after it.
    pub proof fn lemma_fresh_thinned(&self, before: &Self, s: Seq<Address>, variant: int, idx: int)
        requires
            before.shaped(),
            before.fresh(s, variant),
            self.pool_thinned(before, idx),
            0 <= idx < NUM_VARIANTS,
            0 <= variant < NUM_VARIANTS,
        ensures
            self.fresh(s, variant),
    {
        if variant == idx {
            lemma_subsequence_disjoint(self.pools()[idx], before.pools()[idx], s);
        } else {
            assert(self.pools()[variant] == before.pools()[variant]);
        }
    }

    /// What was taken from a pool for a set, and is no longer in the pool,
    /// can be added as a set.
    pub proof fn lemma_fresh_taken(&self, before: &Self, s: Seq<Address>, idx: int)
        requires
            before.shaped(),
            before.tidy(),
            0 <= idx < NUM_VARIANTS,
            is_subsequence(s, before.pools()[idx]),
            self.pool_replaced(
                before,
                idx,
                before.pools()[idx].filter(|a: Address| !s.contains(a)),
            ),
        ensures
            self.fresh(s, idx),
            self.pool_thinned(before, idx),
            self.tidy(),
    {
        let old_pool = before.pools()[idx];
        let limit = self.layout().v_buf as int;
        assert(homed(old_pool, idx, limit));
        lemma_subsequence_no_duplicates(s, old_pool);
        lemma_subsequence_all(s, old_pool, |a: Address| at_home(a, idx, limit));
        lemma_unused_disjoint(old_pool, s);
        lemma_filter_is_subsequence(old_pool, |a: Address| !s.contains(a));
        assert forall|c: int| 0 <= c < self.sets().len() implies disjoint(
            s,
            #[trigger] self.sets()[c][idx],
        ) by {
            assert(disjoint(before.sets()[c][idx], before.pools()[idx]));
            lemma_subsequence_disjoint(s, old_pool, before.sets()[c][idx]);
        }
        assert(self.pool_thinned(before, idx));
        self.lemma_tidy_thinned(before, idx);
    }

    /// Adding a color of sets that could each be added leaves no address to
    /// serve twice.
    pub proof fn lemma_tidy_extended(&self, before: &Self, color: Seq<Seq<Address>>)
        requires
            before.shaped(),
            before.tidy(),
            self.sets() == before.sets().push(color),
            self.pools() == before.pools(),
            self.layout() == before.layout(),
            color.len() == NUM_VARIANTS,
            forall|j: int| 0 <= j < NUM_VARIANTS ==> before.fresh(#[trigger] color[j], j),
        ensures
            self.shaped(),
            self.tidy(),
    {
        let n = before.sets().len() as int;
        assert forall|c: int| 0 <= c < self.sets().len() implies (#[trigger] self.sets()[c]).len()
            == NUM_VARIANTS by {
            if c < n {
                assert(self.sets()[c] == before.sets()[c]);
            }
        }
        assert forall|c: int, i: int|
            0 <= c < self.sets().len() && 0 <= i < NUM_VARIANTS implies homed(
            #[trigger] self.sets()[c][i],
            i,
            self.layout().v_buf as int,
        ) by {
            if c < n {
                assert(self.sets()[c] == before.sets()[c]);
                assert(homed(before.sets()[c][i], i, before.layout().v_buf as int));
            } else {
                assert(before.fresh(color[i], i));
            }
        }
        assert forall|c: int, i: int|
            0 <= c < self.sets().len() && 0 <= i < NUM_VARIANTS implies disjoint(
            #[trigger] self.sets()[c][i],
            self.pools()[i],
        ) by {
            if c < n {
                assert(self.sets()[c] == before.sets()[c]);
                assert(disjoint(before.sets()[c][i], before.pools()[i]));
            } else {
                assert(before.fresh(color[i], i));
            }
        }
        assert forall|c: int, d: int, i: int|
            0 <= c < self.sets().len() && 0 <= d < self.sets().len() && c != d && 0 <= i
                < NUM_VARIANTS implies disjoint(
            #[trigger] self.sets()[c][i],
            #[trigger] self.sets()[d][i],
        ) by {
            if c < n && d < n {
                assert(self.sets()[c] == before.sets()[c]);
                assert(self.sets()[d] == before.sets()[d]);
                assert(disjoint(before.sets()[c][i], before.sets()[d][i]));
            } else if c < n {
                assert(self.sets()[c] == before.sets()[c]);
                assert(before.fresh(color[i], i));
                assert(disjoint(color[i], before.sets()[c][i]));
            } else {
                assert(self.sets()[d] == before.sets()[d]);
                assert(before.fresh(color[i], i));
                assert(disjoint(color[i], before.sets()[d][i]));
            }
        }
    }

    /// Every color has a set for each of the `NUM_VARIANTS` variants, which
    /// is a set for each set of a page where a cache line has 64 bytes, and
    /// every set has an address for each reachable way.
    pub proof fn lemma_sets_shape(&self, c: int, i: int)
        requires
            self.wf(),
            0 <= c < self.sets().len(),
            0 <= i < NUM_VARIANTS,
        ensures
            self.sets()[c].len() == NUM_VARIANTS,
            self.layout().n_sets_per_page == PAGE_SIZE / 64 ==> self.sets()[c].len()
                == self.layout().n_sets_per_page,
            self.sets()[c][i].len() == self.layout().n_lines,
    {
    }

    /// The addresses of a set lie in the work buffer, their bits 6 to 12 hold
    /// the place of the set among the sets of its color, and their bits
    /// below are 0.
    pub proof fn lemma_set_addresses(&self, code: SetCode, k: int)
        requires
            self.wf(),
            self.has_set(code),
            0 <= k < self.set_of(code).len(),
        ensures
            self.set_of(code)[k] < self.layout().v_buf,
            self.set_of(code)[k] & 0x3F == 0,
            variant_of(self.set_of(code)[k]) == code.1,
            self.set_of(code).len() == self.layout().n_lines,
            self.set_of(code).no_duplicates(),
    {
        assert(self.sets()[code.0 as int].len() == NUM_VARIANTS);
        assert(homed(
            self.sets()[code.0 as int][code.1 as int],
            code.1 as int,
            self.layout().v_buf as int,
        ));
        assert(at_home(self.set_of(code)[k], code.1 as int, self.layout().v_buf as int));
    }

    /// No two sets share an address.
    pub proof fn lemma_sets_disjoint(&self, a: SetCode, b: SetCode)
        requires
            self.wf(),
            self.has_set(a),
            self.has_set(b),
            a != b,
        ensures
            disjoint(self.set_of(a), self.set_of(b)),
    {
        let x = self.set_of(a);
        let y = self.set_of(b);
        assert(self.sets()[a.0 as int].len() == NUM_VARIANTS);
        assert(self.sets()[b.0 as int].len() == NUM_VARIANTS);
        let limit = self.layout().v_buf as int;
        assert(homed(self.sets()[a.0 as int][a.1 as int], a.1 as int, limit));
        assert(homed(self.sets()[b.0 as int][b.1 as int], b.1 as int, limit));
        if a.1 == b.1 {
            assert(disjoint(self.sets()[a.0 as int][a.1 as int], self.sets()[b.0 as int][a.1 as int]));
        } else {
            assert forall|i: int, j: int| 0 <= i < x.len() && 0 <= j < y.len() implies x[i]
                != y[j] by {
                assert(at_home(x[i], a.1 as int, limit));
                assert(at_home(y[j], b.1 as int, limit));
            }
        }
    }

    /// Nothing but the connection differs between the two, but for the
    /// accesses that were made since.
    pub open spec fn engine_kept(&self, before: &Self) -> bool {
        &&& extends(self.accesses(), before.accesses())
        &&& self.sets() == before.sets()
        &&& self.pools() == before.pools()
        &&& self.layout() == before.layout()
        &&& self.timings() == before.timings()
        &&& self.quiet() == before.quiet()
    }

    /// Only the pool at `idx` differs between the two, apart from the
    /// connection and the accesses that were made since, and it holds `pool`
    /// now.
    pub open spec fn pool_replaced(&self, before: &Self, idx: int, pool: Seq<Address>) -> bool {
        &&& extends(self.accesses(), before.accesses())
        &&& self.sets() == before.sets()
        &&& self.pools() == before.pools().update(idx, pool)
        &&& self.layout() == before.layout()
        &&& self.timings() == before.timings()
        &&& self.quiet() == before.quiet()
    }

    /// Only the pool at `idx` differs between the two, apart from the
    /// connection and the accesses that were made since, and it holds what
    /// is left of some of its addresses.
    pub open spec fn pool_thinned(&self, before: &Self, idx: int) -> bool {
        &&& extends(self.accesses(), before.accesses())
        &&& self.sets() == before.sets()
        &&& self.pools().len() == before.pools().len()
        &&& forall|j: int|
            0 <= j < self.pools().len() && j != idx ==> #[trigger] self.pools()[j]
                == before.pools()[j]
        &&& is_subsequence(self.pools()[idx], before.pools()[idx])
        &&& self.layout() == before.layout()
        &&& self.timings() == before.timings()
        &&& self.quiet() == before.quiet()
    }

    /// The classifier has seen no fewer timings than before, and nothing
    /// else but the connection differs between the two, but for the accesses
    /// that were made since.
    pub open spec fn trained_further(&self, before: &Self) -> bool {
        &&& extends(self.accesses(), before.accesses())
        &&& self.sets() == before.sets()
        &&& self.pools() == before.pools()
        &&& self.layout() == before.layout()
        &&& self.quiet() == before.quiet()
        &&& self.timings().wf()
        &&& before.timings().hit_samples().subset_of(self.timings().hit_samples())
        &&& before.timings().miss_samples().subset_of(self.timings().miss_samples())
    }

    /// The engine was made by a construction with these steps: from no
    /// access at all, with a classifier that has seen no timing and a first
    /// pool that holds the address at the start of each page of the buffer,
    /// page by page.
    pub open spec fn built_by(
        &self,
        untrained: TimingClassifier,
        first: Seq<Sample>,
        trained: TimingClassifier,
        rounds: Seq<BuildRound>,
    ) -> bool {
        &&& untrained.hit_samples() == Multiset::<Time>::empty()
        &&& untrained.miss_samples() == Multiset::<Time>::empty()
        &&& build_run(
            Seq::empty(),
            self.accesses(),
            untrained,
            self.timings(),
            Seq::new(
                (self.layout().v_buf / PAGE_SIZE) as nat,
                |x: int| variant_of_page(x as usize, 0),
            ),
            self.pools()[0],
            self.layout().v_buf,
            self.layout().n_lines as int,
            first,
            trained,
            rounds,
        )
    }

    /// The record of accesses holds a selection that ended with `set`, a set
    /// of variant `v`, and, where `v` is not 0, right after it a check of
    /// the uniqueness of `set` against the colors `others`, which it passed.
    pub open spec fn backed(
        &self,
        set: Seq<Address>,
        others: Seq<Seq<Seq<Address>>>,
        v: int,
    ) -> bool {
        exists|sel: Selection, trials: Seq<Trial>| #[trigger]
            derived(self.accesses(), self.layout().n_lines as int, set, others, v, sel, trials)
    }

    /// The set of variant `v` of color `c` is backed by the record of
    /// accesses, its uniqueness checked against the colors before `c`.
    pub open spec fn set_selected(&self, c: int, v: int) -> bool {
        self.backed(self.sets()[c][v], self.sets().subrange(0, c), v)
    }

    /// Every set is backed by the record of accesses.
    pub open spec fn sets_selected(&self) -> bool {
        forall|c: int, v: int|
            0 <= c < self.sets().len() && 0 <= v < NUM_VARIANTS ==> #[trigger] self.set_selected(
                c,
                v,
            )
    }

    /// A set that the record backed is backed by every longer record.
    pub proof fn lemma_backed_kept(
        &self,
        before: &Self,
        set: Seq<Address>,
        others: Seq<Seq<Seq<Address>>>,
        v: int,
    )
        requires
            before.backed(set, others, v),
            extends(self.accesses(), before.accesses()),
            self.layout() == before.layout(),
        ensures
            self.backed(set, others, v),
    {
        let n_lines = self.layout().n_lines as int;
        let (sel, trials) = choose|sel: Selection, trials: Seq<Trial>| #[trigger]
            derived(before.accesses(), n_lines, set, others, v, sel, trials);
        lemma_derived_kept(
            self.accesses(),
            before.accesses(),
            n_lines,
            set,
            others,
            v,
            sel,
            trials,
        );
    }

    /// Sets that the record backed are backed by every longer record.
    pub proof fn lemma_sets_selected_kept(&self, before: &Self)
        requires
            before.sets_selected(),
            extends(self.accesses(), before.accesses()),
            self.layout() == before.layout(),
            self.sets() == before.sets(),
        ensures
            self.sets_selected(),
    {
        assert forall|c: int, v: int|
            0 <= c < self.sets().len() && 0 <= v < NUM_VARIANTS implies #[trigger]
            self.set_selected(c, v) by {
            assert(before.set_selected(c, v));
            self.lemma_backed_kept(before, self.sets()[c][v], self.sets().subrange(0, c), v);
        }
    }

    /// The addresses of the sets that the codes name, set by set.
    pub open spec fn sets_of(&self, codes: Seq<SetCode>) -> Seq<Seq<Address>> {
        Seq::new(codes.len(), |i: int| self.set_of(codes[i]))
    }

    /// Since `before`, the set of variant `i` was to be derived from the
    /// addresses of `set`, and every one of these attempts has failed.
    pub open spec fn derived_in_vain(
        &self,
        before: &Self,
        set: Seq<Address>,
        i: usize,
        attempts: Seq<Attempt>,
    ) -> bool {
        derivation_failed(
            self.accesses(),
            before.timings(),
            set,
            before.layout().n_lines as int,
            before.sets(),
            Derivation {
                variant: i,
                start: before.accesses().len() as int,
                end: self.accesses().len() as int,
                pool: before.pools()[i as int],
                left: self.pools()[i as int],
                attempts,
            },
        )
    }

    /// Since `before`, the sets of a color were to be derived from `set`,
    /// and the derivation `d` of one of them has failed, with the last
    /// access that was made.
    pub open spec fn gave_up_on(&self, before: &Self, set: Seq<Address>, d: Derivation) -> bool {
        &&& derivation_failed(
            self.accesses(),
            before.timings(),
            set,
            before.layout().n_lines as int,
            before.sets(),
            d,
        )
        &&& 1 <= d.variant < NUM_VARIANTS
        &&& before.accesses().len() <= d.start
        &&& d.end == self.accesses().len()
        &&& d.pool == before.pools()[d.variant as int]
        &&& d.left == self.pools()[d.variant as int]
    }

    /// From position `from` of the record on, the sets of a color were to be
    /// derived from `set`, a set that the record backs, as often as the
    /// derivations `ds` tell, and each time the derivation of one of them
    /// has failed.
    pub open spec fn gave_out(&self, from: int, set: Seq<Address>, ds: Seq<Derivation>) -> bool {
        &&& derivations_failed(
            self.accesses(),
            from,
            self.timings(),
            set,
            self.layout().n_lines as int,
            self.sets(),
            self.pools(),
            ds,
        )
        &&& self.backed(set, self.sets(), 0)
    }

    /// The engine is one whose construction has run dry: an engine of this
    /// layout that has accessed nothing beyond its buffer, made by a
    /// construction with these steps, which has left fewer addresses in the
    /// first pool than a set has ways, and one more, while a color was still
    /// to be built.
    pub open spec fn ran_dry(
        &self,
        layout: RppParams,
        untrained: TimingClassifier,
        first: Seq<Sample>,
        trained: TimingClassifier,
        rounds: Seq<BuildRound>,
    ) -> bool {
        &&& self.wf()
        &&& self.confined()
        &&& self.layout() == layout
        &&& self.pools()[0].len() < layout.n_lines + 1
        &&& self.sets().len() < layout.n_colors
        &&& self.built_by(untrained, first, trained, rounds)
    }

    /// The engine is one whose construction was given up: an engine of this
    /// layout that has accessed nothing beyond its buffer, and whose record
    /// holds `RETRY_CNT` derivations and one more, from `set`, that have
    /// failed one after the other.
    pub open spec fn abandoned(
        &self,
        layout: RppParams,
        set: Seq<Address>,
        ds: Seq<Derivation>,
    ) -> bool {
        &&& self.wf()
        &&& self.confined()
        &&& self.layout() == layout
        &&& self.gave_out(0, set, ds)
        &&& ds.len() == RETRY_CNT + 1
    }

    /// The code names a set that was built.
    pub open spec fn has_set(&self, code: SetCode) -> bool {
        code.0 < self.sets().len() && code.1 < self.sets()[code.0 as int].len()
    }

    /// The addresses of the set that the code names.
    pub open spec fn set_of(&self, code: SetCode) -> Seq<Address> {
        self.sets()[code.0 as int][code.1 as int]
    }

    /// Returns the number of profiled colors.
    pub fn colors_len(&self) -> (n: usize)
        ensures
            n == self.sets().len(),
    {
        self.colored_sets.len()
    }

    /// Returns the codes of all profiled colors, in rising order.
    pub fn colors(&self) -> (r: Vec<ColorCode>)
        ensures
            r@ == Seq::new(self.sets().len(), |c: int| c as usize),
    {
        let n = self.colored_sets.len();
        let mut out: Vec<ColorCode> = Vec::with_capacity(n);
        let mut c: usize = 0;
        while c < n
            invariant
                c <= n,
                out@ == Seq::new(c as nat, |c: int| c as usize),
            decreases n - c,
        {
            out.push(c);
            c += 1;
            proof {
                assert(out@ =~= Seq::new(c as nat, |c: int| c as usize));
            }
        }
        out
    }

    /// Returns the number of eviction sets that were profiled for the color.
    pub fn color_len(&self, color_code: ColorCode) -> (n: usize)
        requires
            color_code < self.sets().len(),
        ensures
            n == self.sets()[color_code as int].len(),
    {
        self.colored_sets[color_code].len()
    }

    /// Returns the codes of the sets of the color, in rising order.
    pub fn iter_color(&self, color_code: ColorCode) -> (r: Vec<ColoredSetCode>)
        requires
            color_code < self.sets().len(),
        ensures
            r@ == Seq::new(self.sets()[color_code as int].len(), |i: int| i as usize),
    {
        let n = self.colored_sets[color_code].len();
        let mut out: Vec<ColoredSetCode> = Vec::with_capacity(n);
        let mut i: usize = 0;
        while i < n
            invariant
                i <= n,
                out@ == Seq::new(i as nat, |i: int| i as usize),
            decreases n - i,
        {
            out.push(i);
            i += 1;
            proof {
                assert(out@ =~= Seq::new(i as nat, |i: int| i as usize));
            }
        }
        out
    }

    /// Returns the addresses of the set that the code names, in their
    /// stored order.
    pub fn addresses(&self, set_code: &SetCode) -> (r: Vec<Address>)
        requires
            self.has_set(*set_code),
        ensures
            r@ == self.set_of(*set_code),
    {
        let set = &self.colored_sets[set_code.0][set_code.1];
        let r = prefix(set.as_slice(), set.len());
        proof {
            assert(set@.subrange(0, set@.len() as int) =~= set@);
        }
        r
    }

    /// Tells whether the code names a set that was built.
    pub fn contains(&self, set_code: &SetCode) -> (b: bool)
        ensures
            b == self.has_set(*set_code),
    {
        set_code.0 < self.colored_sets.len() && set_code.1 < self.colored_sets[set_code.0].len()
    }

    /// Tells whether progress is not to be reported.
    pub fn is_quiet(&self) -> (b: bool)
        ensures
            b == self.quiet(),
    {
        self.quite
    }

    /// Returns the codes of all profiled sets, color by color.
    pub fn iter(&self) -> (r: Vec<SetCode>)
        ensures
            r@ == all_codes(self.sets()),
    {
        let n = self.colored_sets.len();
        let mut out: Vec<SetCode> = Vec::new();
        let mut c: usize = 0;
        proof {
            assert(self.sets().subrange(0, 0) =~= Seq::empty());
        }
        while c < n
            invariant
                c <= n,
                n == self.sets().len(),
                out@ == all_codes(self.sets().subrange(0, c as int)),
            decreases n - c,
        {
            let m = self.colored_sets[c].len();
            let ghost done = out@;
            let ghost upto = self.sets().subrange(0, c as int + 1);
            proof {
                assert(upto.drop_last() =~= self.sets().subrange(0, c as int));
                assert(upto.last() == self.sets()[c as int]);
            }
            let mut i: usize = 0;
            while i < m
                invariant
                    i <= m,
                    c < n,
                    m == self.sets()[c as int].len(),
                    out@ == done + Seq::new(i as nat, |i: int| SetCode(c, i as usize)),
                decreases m - i,
            {
                out.push(SetCode(c, i));
                i += 1;
                proof {
                    assert(out@ =~= done + Seq::new(i as nat, |i: int| SetCode(c, i as usize)));
                }
            }
            proof {
                assert(Seq::new(m as nat, |i: int| SetCode(c, i as usize)) =~= Seq::new(
                    upto.last().len(),
                    |i: int| SetCode((upto.len() - 1) as usize, i as usize),
                ));
            }
            c += 1;
        }
        proof {
            assert(self.sets().subrange(0, n as int) =~= self.sets());
        }
        out
    }
}

impl<C: CacheConnector<Item = Contents>> Rpp<C> {
    /// Brings `addr` into the cache.
    fn cache(&mut self, addr: Address) -> (r: Result<(), Error>)
        ensures
            final(self).engine_kept(old(self)),
            r is Ok ==> final(self).accesses() == old(self).accesses().push(Access::Cached(addr)),
            r is Err ==> final(self).accesses() == old(self).accesses(),
            r matches Err(e) ==> e is Transport,
            old(self).in_buffer(addr) ==> final(self).stays_confined(old(self)),
    {
        match self.conn.cache(addr) {
            Ok(()) => {
                self.log = Ghost(self.log@.push(Access::Cached(addr)));
                proof {
                    if old(self).in_buffer(addr) {
                        self.lemma_confined_push(old(self), Access::Cached(addr));
                    }
                }
                Ok(())
            },
            Err(e) => {
                proof {
                    self.lemma_confined_kept(old(self));
                }
                Err(Error::Transport(e))
            },
        }
    }

    /// Brings the addresses of `set` into the cache, in their order.
    fn cache_all(&mut self, set: &[Address]) -> (r: Result<(), Error>)
        ensures
            final(self).engine_kept(old(self)),
            r is Ok ==> final(self).accesses() == old(self).accesses().push(
                Access::CachedAll(set@),
            ),
            r is Err ==> final(self).accesses() == old(self).accesses(),
            r matches Err(e) ==> e is Transport,
            old(self).all_in_buffer(set@) ==> final(self).stays_confined(old(self)),
    {
        match self.conn.cache_all(set) {
            Ok(()) => {
                self.log = Ghost(self.log@.push(Access::CachedAll(set@)));
                proof {
                    if old(self).all_in_buffer(set@) {
                        self.lemma_confined_push(old(self), Access::CachedAll(set@));
                    }
                }
                Ok(())
            },
            Err(e) => {
                proof {
                    self.lemma_confined_kept(old(self));
                }
                Err(Error::Transport(e))
            },
        }
    }

    /// Times one access to `addr`.
    fn time_access(&mut self, addr: Address) -> (r: Result<Time, Error>)
        ensures
            final(self).engine_kept(old(self)),
            r matches Ok(t) ==> final(self).accesses() == old(self).accesses().push(
                Access::Timed(addr, t),
            ),
            r is Err ==> final(self).accesses() == old(self).accesses(),
            r matches Err(e) ==> e is Transport,
            old(self).in_buffer(addr) ==> final(self).stays_confined(old(self)),
    {
        match self.conn.time_access(addr) {
            Ok(t) => {
                self.log = Ghost(self.log@.push(Access::Timed(addr, t)));
                proof {
                    if old(self).in_buffer(addr) {
                        self.lemma_confined_push(old(self), Access::Timed(addr, t));
                    }
                }
                Ok(t)
            },
            Err(e) => {
                proof {
                    self.lemma_confined_kept(old(self));
                }
                Err(Error::Transport(e))
            },
        }
    }

    /// Primes the set: loads all its addresses, in their stored order.
    /// Fails only where the connection does.
    pub fn prime(&mut self, set_code: &SetCode) -> (r: Result<(), Error>)
        requires
            old(self).has_set(*set_code),
        ensures
            final(self).engine_kept(old(self)),
            r is Ok ==> final(self).accesses() == old(self).accesses().push(
                Access::CachedAll(old(self).set_of(*set_code)),
            ),
            r is Err ==> final(self).accesses() == old(self).accesses(),
            r matches Err(e) ==> e is Transport,
            old(self).wf() ==> final(self).stays_confined(old(self)),
    {
        match self.conn.cache_all(self.colored_sets[set_code.0][set_code.1].as_slice()) {
            Ok(()) => {
                self.log = Ghost(self.log@.push(Access::CachedAll(self.set_of(*set_code))));
                proof {
                    if old(self).wf() {
                        old(self).lemma_in_buffer();
                        assert(old(self).sets()[set_code.0 as int].len() == NUM_VARIANTS);
                        self.lemma_confined_push(
                            old(self),
                            Access::CachedAll(self.set_of(*set_code)),
                        );
                    }
                }
                Ok(())
            },
            Err(e) => {
                proof {
                    self.lemma_confined_kept(old(self));
                }
                Err(Error::Transport(e))
            },
        }
    }

    /// Probes the set: times an access to each of its addresses, in their
    /// stored order. The outcome carries the latencies; it is an activation
    /// if the classifier judges one of them a miss. Fails only where the
    /// connection does.
    pub fn probe(&mut self, set_code: &SetCode) -> (r: Result<ProbeResult<Latencies>, Error>)
        requires
            old(self).wf(),
            old(self).has_set(*set_code),
        ensures
            final(self).engine_kept(old(self)),
            r matches Err(e) ==> e is Transport,
            r matches Ok(p) ==> p.data()@.len() == old(self).set_of(*set_code).len() && (p
                is Activated <==> registers_miss(old(self).timings(), p.data()@)),
            r matches Ok(p) ==> final(self).accesses() == old(self).accesses() + timed(
                old(self).set_of(*set_code),
                p.data()@,
            ),
            r is Err ==> exists|lats: Seq<Time>|
                lats.len() < old(self).set_of(*set_code).len() && final(self).accesses() == old(
                    self,
                ).accesses() + #[trigger] timed(
                    old(self).set_of(*set_code).subrange(0, lats.len() as int),
                    lats,
                ),
            final(self).stays_confined(old(self)),
    {
        let n = self.colored_sets[set_code.0][set_code.1].len();
        let mut lats: Latencies = Vec::with_capacity(n);
        let mut i: usize = 0;
        proof {
            assert(self.accesses() =~= old(self).accesses() + timed(
                self.set_of(*set_code).subrange(0, 0),
                lats@,
            ));
        }
        while i < n
            invariant
                self.stays_confined(old(self)),
                old(self).wf(),
                i <= n,
                self.has_set(*set_code),
                n == self.set_of(*set_code).len(),
                self.engine_kept(old(self)),
                lats@.len() == i,
                self.accesses() == old(self).accesses() + timed(
                    self.set_of(*set_code).subrange(0, i as int),
                    lats@,
                ),
            decreases n - i,
        {
            let addr = self.colored_sets[set_code.0][set_code.1][i];
            proof {
                old(self).lemma_in_buffer();
                assert(old(self).sets()[set_code.0 as int].len() == NUM_VARIANTS);
                assert(old(self).all_in_buffer(old(self).sets()[set_code.0 as int][set_code.1 as int]));
            }
            let lat = match self.time_access(addr) {
                Ok(lat) => lat,
                Err(e) => {
                    proof {
                        assert(self.accesses() == old(self).accesses() + timed(
                            old(self).set_of(*set_code).subrange(0, lats@.len() as int),
                            lats@,
                        ));
                    }
                    return Err(e);
                },
            };
            lats.push(lat);
            i += 1;
            proof {
                let set = self.set_of(*set_code);
                assert(timed(set.subrange(0, i as int), lats@) =~= timed(
                    set.subrange(0, i - 1),
                    lats@.drop_last(),
                ).push(Access::Timed(addr, lat)));
                assert(lats@.drop_last() =~= lats@.subrange(0, i - 1));
                assert(self.accesses() =~= old(self).accesses() + timed(
                    set.subrange(0, i as int),
                    lats@,
                ));
            }
        }
        proof {
            let set = self.set_of(*set_code);
            assert(set.subrange(0, n as int) =~= set);
        }
        Ok(classify_probe(&self.classifier, lats))
    }

    /// Primes all the sets, in the order given. Stops at the first failure.
    pub fn prime_all(&mut self, set_codes: &[SetCode]) -> (r: Result<(), Error>)
        requires
            forall|i: int| 0 <= i < set_codes@.len()
                ==> old(self).has_set(#[trigger] set_codes@[i]),
        ensures
            final(self).engine_kept(old(self)),
            r is Ok ==> final(self).accesses() == old(self).accesses() + Seq::new(
                set_codes@.len(),
                |i: int| Access::CachedAll(old(self).set_of(set_codes@[i])),
            ),
            r is Err ==> exists|done: int|
                0 <= done < set_codes@.len() && final(self).accesses() == old(self).accesses()
                    + #[trigger] primes_of(old(self).sets_of(set_codes@), done),
            r matches Err(e) ==> e is Transport,
            old(self).wf() ==> final(self).stays_confined(old(self)),
    {
        let mut i: usize = 0;
        proof {
            assert(self.accesses() =~= old(self).accesses() + Seq::new(
                0,
                |i: int| Access::CachedAll(old(self).set_of(set_codes@[i])),
            ));
        }
        while i < set_codes.len()
            invariant
                old(self).wf() ==> self.stays_confined(old(self)),
                i <= set_codes.len(),
                self.engine_kept(old(self)),
                forall|i: int|
                    0 <= i < set_codes@.len() ==> old(self).has_set(#[trigger] set_codes@[i]),
                self.accesses() == old(self).accesses() + Seq::new(
                    i as nat,
                    |i: int| Access::CachedAll(old(self).set_of(set_codes@[i])),
                ),
            decreases set_codes.len() - i,
        {
            match self.prime(&set_codes[i]) {
                Ok(()) => {},
                Err(e) => {
                    proof {
                        assert(self.accesses() =~= old(self).accesses() + primes_of(
                            old(self).sets_of(set_codes@),
                            i as int,
                        ));
                    }
                    return Err(e);
                },
            }
            i += 1;
            proof {
                assert(self.accesses() =~= old(self).accesses() + Seq::new(
                    i as nat,
                    |i: int| Access::CachedAll(old(self).set_of(set_codes@[i])),
                ));
            }
        }
        Ok(())
    }

    /// Probes all the sets, in the order given, and returns the outcomes in
    /// that order. Stops at the first failure.
    pub fn probe_all(&mut self, set_codes: &[SetCode]) -> (r: Result<
        Vec<ProbeResult<Latencies>>,
        Error,
    >)
        requires
            old(self).wf(),
            forall|i: int| 0 <= i < set_codes@.len()
                ==> old(self).has_set(#[trigger] set_codes@[i]),
        ensures
            final(self).engine_kept(old(self)),
            r matches Err(e) ==> e is Transport,
            r matches Ok(v) ==> v@.len() == set_codes@.len() && forall|i: int|
                0 <= i < v@.len() ==> (#[trigger] v@[i]).data()@.len() == old(self).set_of(
                    set_codes@[i],
                ).len() && (v@[i] is Activated <==> registers_miss(
                    old(self).timings(),
                    v@[i].data()@,
                )),
            r matches Ok(v) ==> final(self).accesses() == old(self).accesses() + probes_of(
                Seq::new(set_codes@.len(), |i: int| old(self).set_of(set_codes@[i])),
                Seq::new(v@.len(), |i: int| v@[i].data()@),
            ),
            r is Err ==> exists|lats: Seq<Seq<Time>>, last: Seq<Time>|
                {
                    &&& lats.len() < set_codes@.len()
                    &&& last.len() < old(self).set_of(set_codes@[lats.len() as int]).len()
                    &&& final(self).accesses() == old(self).accesses() + #[trigger] probes_of(
                        old(self).sets_of(set_codes@).subrange(0, lats.len() as int),
                        lats,
                    ) + #[trigger] timed(
                        old(self).set_of(set_codes@[lats.len() as int]).subrange(
                            0,
                            last.len() as int,
                        ),
                        last,
                    )
                },
            final(self).stays_confined(old(self)),
    {
        let mut out: Vec<ProbeResult<Latencies>> = Vec::with_capacity(set_codes.len());
        let mut i: usize = 0;
        proof {
            assert(self.accesses() =~= old(self).accesses() + probes_of(
                Seq::new(0, |i: int| old(self).set_of(set_codes@[i])),
                Seq::new(0, |i: int| out@[i].data()@),
            ));
        }
        while i < set_codes.len()
            invariant
                self.stays_confined(old(self)),
                i <= set_codes.len(),
                self.engine_kept(old(self)),
                old(self).wf(),
                self.accesses() == old(self).accesses() + probes_of(
                    Seq::new(i as nat, |i: int| old(self).set_of(set_codes@[i])),
                    Seq::new(i as nat, |i: int| out@[i].data()@),
                ),
                forall|i: int|
                    0 <= i < set_codes@.len() ==> old(self).has_set(#[trigger] set_codes@[i]),
                out@.len() == i,
                forall|j: int|
                    0 <= j < i ==> (#[trigger] out@[j]).data()@.len() == old(self).set_of(
                        set_codes@[j],
                    ).len() && (out@[j] is Activated <==> registers_miss(
                        old(self).timings(),
                        out@[j].data()@,
                    )),
            decreases set_codes.len() - i,
        {
            let ghost probed = out@;
            let ghost before = self.accesses();
            let p = match self.probe(&set_codes[i]) {
                Ok(p) => p,
                Err(e) => {
                    proof {
                        let set = old(self).set_of(set_codes@[i as int]);
                        let last = choose|last: Seq<Time>|
                            last.len() < set.len() && self.accesses() == before + #[trigger] timed(
                                set.subrange(0, last.len() as int),
                                last,
                            );
                        let lats = Seq::new(i as nat, |i: int| out@[i].data()@);
                        assert(old(self).sets_of(set_codes@).subrange(0, lats.len() as int)
                            =~= Seq::new(i as nat, |i: int| old(self).set_of(set_codes@[i])));
                        assert(self.accesses() == old(self).accesses() + probes_of(
                            old(self).sets_of(set_codes@).subrange(0, lats.len() as int),
                            lats,
                        ) + timed(
                            old(self).set_of(set_codes@[lats.len() as int]).subrange(
                                0,
                                last.len() as int,
                            ),
                            last,
                        ));
                    }
                    return Err(e);
                },
            };
            out.push(p);
            i += 1;
            proof {
                let sets = Seq::new(i as nat, |i: int| old(self).set_of(set_codes@[i]));
                let lats = Seq::new(i as nat, |i: int| out@[i].data()@);
                assert(sets.drop_last() =~= Seq::new(
                    (i - 1) as nat,
                    |i: int| old(self).set_of(set_codes@[i]),
                ));
                assert(lats.drop_last() =~= Seq::new((i - 1) as nat, |i: int| probed[i].data()@));
                assert(self.accesses() =~= old(self).accesses() + probes_of(sets, lats));
            }
        }
        Ok(out)
    }

    /// Checks whether loading the addresses of `set` evicts `addr`: brings
    /// `addr` into the cache, then the addresses of `set` in their order, and
    /// tells whether the classifier judges the next access to `addr` a miss.
    /// Fails only where the connection does.
    pub fn check_evicts(&mut self, set: &[Address], addr: Address) -> (r: Result<bool, Error>)
        requires
            old(self).wf(),
        ensures
            final(self).engine_kept(old(self)),
            r matches Ok(evicted) ==> exists|lat: Time|
                final(self).accesses() == old(self).accesses() + #[trigger] eviction_check(
                    set@,
                    addr,
                    lat,
                ) && (evicted <==> old(self).timings().judgement(lat) is Miss),
            r matches Ok(evicted) ==> (evicted <==> seen_to_evict(
                final(self).accesses(),
                old(self).timings(),
                set@,
                addr,
            )),
            r matches Err(e) ==> e is Transport,
            r is Err ==> exists|done: int|
                0 <= done <= 2 && final(self).accesses() == old(self).accesses()
                    + #[trigger] broken_check(set@, addr, done),
            old(self).in_buffer(addr) && old(self).all_in_buffer(set@)
                ==> final(self).stays_confined(old(self)),
    {
        match self.cache(addr) {
            Ok(()) => {},
            Err(e) => {
                proof {
                    assert(self.accesses() =~= old(self).accesses() + broken_check(set@, addr, 0));
                }
                return Err(e);
            },
        }
        match self.cache_all(set) {
            Ok(()) => {},
            Err(e) => {
                proof {
                    assert(self.accesses() =~= old(self).accesses() + broken_check(set@, addr, 1));
                }
                return Err(e);
            },
        }
        let lat = match self.time_access(addr) {
            Ok(lat) => lat,
            Err(e) => {
                proof {
                    assert(self.accesses() =~= old(self).accesses() + broken_check(set@, addr, 2));
                }
                return Err(e);
            },
        };
        let evicted = self.classifier.is_miss(lat);
        proof {
            let done = eviction_check(set@, addr, lat);
            assert(self.accesses() =~= old(self).accesses() + done);
            let n = self.accesses().len() as int;
            assert(self.accesses().subrange(n - 3, n) =~= done);
            if seen_to_evict(self.accesses(), self.timings(), set@, addr) {
                let other = choose|other: Time|
                    self.accesses().subrange(n - 3, n) == #[trigger] eviction_check(
                        set@,
                        addr,
                        other,
                    ) && self.timings().judgement(other) is Miss;
                assert(eviction_check(set@, addr, other)[2] == done[2]);
            }
        }
        Ok(evicted)
    }

    /// Looks for a prefix of the pool at `idx` that evicts `addr`. The first
    /// one tried has one address less than [`first_candidates`] says; each
    /// further one has one address more, up to all of the pool but its last
    /// address. The prefix that is returned is the first of them that was
    /// seen to evict `addr`; where none was, that is reported after all of
    /// them were checked. A pool of fewer addresses than a set has ways, and
    /// one more, is reported as exhausted without any access.
    pub fn forward_selection(&mut self, idx: usize, addr: Address) -> (r: Result<
        EvictionSet,
        Error,
    >)
        requires
            old(self).wf(),
            idx < NUM_VARIANTS,
        ensures
            final(self).engine_kept(old(self)),
            (r matches Err(e) && e is Exhausted)
                <==> old(self).pools()[idx as int].len() < old(self).layout().n_lines + 1,
            r matches Ok(s) ==> forward_accepts(
                old(self).pools()[idx as int],
                old(self).layout().n_lines as int,
                s@,
            ),
            r matches Ok(s) ==> seen_to_evict(
                final(self).accesses(),
                old(self).timings(),
                s@,
                addr,
            ),
            r matches Ok(s) ==> exists|lats: Seq<Time>|
                {
                    &&& #[trigger] forward_run(
                        old(self).accesses(),
                        final(self).accesses(),
                        old(self).pools()[idx as int],
                        addr,
                        first_candidates(
                            old(self).pools()[idx as int].len() as int,
                            old(self).layout().n_lines as int,
                        ) - 1,
                        lats,
                    )
                    &&& lats.len() == s@.len() + 2 - first_candidates(
                        old(self).pools()[idx as int].len() as int,
                        old(self).layout().n_lines as int,
                    )
                    &&& first_miss_is_last(old(self).timings(), lats)
                },
            (r matches Err(e) && e is NoEviction) ==> exists|lats: Seq<Time>|
                {
                    &&& #[trigger] forward_run(
                        old(self).accesses(),
                        final(self).accesses(),
                        old(self).pools()[idx as int],
                        addr,
                        first_candidates(
                            old(self).pools()[idx as int].len() as int,
                            old(self).layout().n_lines as int,
                        ) - 1,
                        lats,
                    )
                    &&& lats.len() == old(self).pools()[idx as int].len() + 1 - first_candidates(
                        old(self).pools()[idx as int].len() as int,
                        old(self).layout().n_lines as int,
                    )
                    &&& no_miss(old(self).timings(), lats)
                },
            (r matches Err(e) && e is Exhausted) ==> final(self).accesses() == old(self).accesses(),
            (r matches Err(e) && e is Transport) ==> exists|lats: Seq<Time>, done: int|
                {
                    &&& #[trigger] forward_break(
                        old(self).accesses(),
                        final(self).accesses(),
                        old(self).pools()[idx as int],
                        addr,
                        first_candidates(
                            old(self).pools()[idx as int].len() as int,
                            old(self).layout().n_lines as int,
                        ) - 1,
                        lats,
                        done,
                    )
                    &&& no_miss(old(self).timings(), lats)
                },
            r matches Err(e) ==> e is Exhausted || e is NoEviction || e is Transport,
            old(self).in_buffer(addr) ==> final(self).stays_confined(old(self)),
    {
        let total = self.addrs[idx].len();
        let n_lines = self.params.n_lines;
        let first = match first_candidate_count(total, n_lines) {
            Some(n) => n,
            None => {
                return Err(Error::Exhausted);
            },
        };
        let mut sub_set = prefix(self.addrs[idx].as_slice(), first - 1);
        let ghost mut lats: Seq<Time> = Seq::empty();
        proof {
            assert(self.accesses() =~= old(self).accesses() + forward_checks(
                self.pools()[idx as int],
                addr,
                first - 1,
                lats,
            ));
        }
        while sub_set.len() < total
            invariant
                old(self).in_buffer(addr) ==> self.stays_confined(old(self)),
                old(self).wf(),
                idx < NUM_VARIANTS,
                self.engine_kept(old(self)),
                lats.len() == sub_set@.len() + 1 - first,
                no_miss(old(self).timings(), lats),
                self.accesses() == old(self).accesses() + forward_checks(
                    self.pools()[idx as int],
                    addr,
                    first - 1,
                    lats,
                ),
                total == self.pools()[idx as int].len(),
                n_lines == self.layout().n_lines,
                total >= n_lines + 1,
                first == first_candidates(total as int, n_lines as int),
                first <= sub_set@.len() + 1 <= total + 1,
                sub_set@ == self.pools()[idx as int].subrange(0, sub_set@.len() as int),
            decreases total - sub_set@.len(),
        {
            proof {
                old(self).lemma_in_buffer();
                lemma_parts_below(
                    old(self).pools()[idx as int],
                    sub_set@.len() as int,
                    0,
                    old(self).layout().v_buf as int,
                );
            }
            let ghost before = self.accesses();
            let checked = self.check_evicts(sub_set.as_slice(), addr);
            proof {
                if checked is Ok {
                    let lat = choose|lat: Time|
                        self.accesses() == before + #[trigger] eviction_check(sub_set@, addr, lat)
                            && (checked.unwrap() <==> old(self).timings().judgement(lat)
                            is Miss);
                    let known = lats;
                    lats = lats.push(lat);
                    assert(lats.drop_last() =~= known);
                    assert(self.accesses() =~= old(self).accesses() + forward_checks(
                        self.pools()[idx as int],
                        addr,
                        first - 1,
                        lats,
                    ));
                }
            }
            match checked {
                Ok(true) => {
                    proof {
                        assert(first_miss_is_last(old(self).timings(), lats));
                        assert(forward_run(
                            old(self).accesses(),
                            self.accesses(),
                            old(self).pools()[idx as int],
                            addr,
                            first - 1,
                            lats,
                        ));
                    }
                    return Ok(sub_set);
                },
                Ok(false) => {},
                Err(e) => {
                    proof {
                        let done = choose|done: int|
                            0 <= done <= 2 && self.accesses() == before + #[trigger] broken_check(
                                sub_set@,
                                addr,
                                done,
                            );
                        assert(forward_break(
                            old(self).accesses(),
                            self.accesses(),
                            old(self).pools()[idx as int],
                            addr,
                            first - 1,
                            lats,
                            done,
                        ));
                    }
                    return Err(e);
                },
            }
            let ghost tried = sub_set@.len() as int;
            sub_set.push(self.addrs[idx][sub_set.len()]);
            proof {
                let pool = self.pools()[idx as int];
                assert(pool.subrange(0, tried + 1) =~= pool.subrange(0, tried).push(pool[tried]));
            }
        }
        proof {
            assert(forward_run(
                old(self).accesses(),
                self.accesses(),
                old(self).pools()[idx as int],
                addr,
                first - 1,
                lats,
            ));
        }
        Err(Error::NoEviction)
    }

    /// Looks among the first chunks of `s`, as many as a set has ways, for
    /// one without which the rest of `s` still evicts `x`.
    fn find_redundant_chunk(&mut self, s: &Vec<Address>, x: Address) -> (r: Result<
        Option<usize>,
        Error,
    >)
        requires
            old(self).wf(),
            s@.len() > old(self).layout().n_lines,
        ensures
            final(self).engine_kept(old(self)),
            r matches Err(e) ==> e is Transport,
            r matches Ok(Some(k)) ==> k < old(self).layout().n_lines,
            r matches Ok(found) ==> exists|lats: Seq<Time>|
                {
                    &&& #[trigger] round_run(
                        old(self).accesses(),
                        final(self).accesses(),
                        s@,
                        x,
                        old(self).layout().n_lines as int,
                        lats,
                    )
                    &&& round_complete(old(self).timings(), lats, old(self).layout().n_lines as int)
                    &&& found == round_outcome(old(self).timings(), lats)
                },
            r is Err ==> exists|lats: Seq<Time>, done: int| #[trigger]
                round_break(
                    old(self).accesses(),
                    final(self).accesses(),
                    old(self).timings(),
                    s@,
                    x,
                    old(self).layout().n_lines as int,
                    lats,
                    done,
                ),
            old(self).in_buffer(x) && old(self).all_in_buffer(s@)
                ==> final(self).stays_confined(old(self)),
    {
        let n_lines = self.params.n_lines;
        let chunk_len = s.len() / (n_lines + 1);
        let mut k: usize = 0;
        let ghost mut lats: Seq<Time> = Seq::empty();
        proof {
            assert(self.accesses() =~= old(self).accesses() + round_checks(
                s@,
                x,
                n_lines as int,
                lats,
            ));
        }
        while k < n_lines
            invariant
                lats.len() == k,
                no_miss(old(self).timings(), lats),
                self.accesses() == old(self).accesses() + round_checks(s@, x, n_lines as int, lats),
                old(self).in_buffer(x) && old(self).all_in_buffer(s@)
                    ==> self.stays_confined(old(self)),
                old(self).wf(),
                self.engine_kept(old(self)),
                n_lines == self.layout().n_lines,
                s@.len() > n_lines,
                chunk_len == crate::rpp::selection::chunk_len(s@.len() as int, n_lines as int),
                k <= n_lines,
            decreases n_lines - k,
        {
            proof {
                lemma_chunks(s@.len() as int, n_lines as int, k as int);
            }
            assert(k * chunk_len + chunk_len <= s@.len() <= usize::MAX) by {
                vstd::std_specs::vec::axiom_spec_len(s);
            }
            let rest = without_chunk(s.as_slice(), k * chunk_len, chunk_len);
            proof {
                if old(self).all_in_buffer(s@) {
                    lemma_parts_below(
                        s@,
                        k * chunk_len,
                        chunk_len as int,
                        old(self).layout().v_buf as int,
                    );
                }
            }
            let ghost before = self.accesses();
            let evicted = match self.check_evicts(rest.as_slice(), x) {
                Ok(evicted) => evicted,
                Err(e) => {
                    proof {
                        let done = choose|done: int|
                            0 <= done <= 2 && self.accesses() == before + #[trigger] broken_check(
                                rest@,
                                x,
                                done,
                            );
                        assert(round_break(
                            old(self).accesses(),
                            self.accesses(),
                            old(self).timings(),
                            s@,
                            x,
                            n_lines as int,
                            lats,
                            done,
                        ));
                    }
                    return Err(e);
                },
            };
            proof {
                let lat = choose|lat: Time|
                    self.accesses() == before + #[trigger] eviction_check(rest@, x, lat) && (evicted
                        <==> old(self).timings().judgement(lat) is Miss);
                let known = lats;
                lats = lats.push(lat);
                assert(lats.drop_last() =~= known);
                assert(self.accesses() =~= old(self).accesses() + round_checks(
                    s@,
                    x,
                    n_lines as int,
                    lats,
                ));
            }
            if evicted {
                proof {
                    assert(round_run(
                        old(self).accesses(),
                        self.accesses(),
                        s@,
                        x,
                        n_lines as int,
                        lats,
                    ));
                }
                return Ok(Some(k));
            }
            k += 1;
        }
        proof {
            assert(round_run(old(self).accesses(), self.accesses(), s@, x, n_lines as int, lats));
        }
        Ok(None)
    }

    /// Narrows `s`, a set that evicts `x`, down to as many addresses as a
    /// set has ways. Each round cuts `s` into chunks, one more than there
    /// are ways, and takes out the first chunk without which `x` is still
    /// evicted, or what follows the chunks tried if every one of them is
    /// needed: see [`reduce`]. A set that is too narrow from the start is
    /// refused; one of just the right size is left alone, and nothing is
    /// accessed for it.
    pub fn backward_selection(&mut self, s: &mut EvictionSet, x: Address) -> (r: Result<
        (),
        Error,
    >)
        requires
            old(self).wf(),
        ensures
            final(self).engine_kept(old(self)),
            (r matches Err(e) && e is NarrowedBelowMinimum)
                <==> old(s)@.len() < old(self).layout().n_lines,
            old(s)@.len() < old(self).layout().n_lines ==> final(s)@ == old(s)@ && *final(self)
                == *old(self),
            old(s)@.len() <= old(self).layout().n_lines
                ==> final(self).accesses() == old(self).accesses(),
            old(s)@.len() == old(self).layout().n_lines ==> r is Ok && final(s)@ == old(s)@
                && *final(self) == *old(self),
            r is Ok ==> final(s)@.len() == old(self).layout().n_lines,
            r is Ok ==> exists|rounds: Seq<Seq<Time>>|
                {
                    &&& #[trigger] narrowing_run(
                        old(self).accesses(),
                        final(self).accesses(),
                        old(self).timings(),
                        old(s)@,
                        x,
                        old(self).layout().n_lines as int,
                        rounds,
                    )
                    &&& final(s)@ == narrowed(
                        old(self).timings(),
                        old(s)@,
                        old(self).layout().n_lines as int,
                        rounds,
                    )
                },
            (r matches Err(e) && e is Transport) ==> exists|
                rounds: Seq<Seq<Time>>,
                lats: Seq<Time>,
                done: int,
            |
                {
                    &&& #[trigger] narrowing_break(
                        old(self).accesses(),
                        final(self).accesses(),
                        old(self).timings(),
                        old(s)@,
                        x,
                        old(self).layout().n_lines as int,
                        rounds,
                        lats,
                        done,
                    )
                    &&& final(s)@ == narrowed(
                        old(self).timings(),
                        old(s)@,
                        old(self).layout().n_lines as int,
                        rounds,
                    )
                },
            is_subsequence(final(s)@, old(s)@),
            r matches Err(e) ==> e is NarrowedBelowMinimum || e is Transport,
            old(self).in_buffer(x) && old(self).all_in_buffer(old(s)@)
                ==> final(self).stays_confined(old(self)) && final(self).all_in_buffer(final(s)@),
    {
        let n_lines = self.params.n_lines;
        proof {
            lemma_subsequence_refl(s@);
        }
        if s.len() < n_lines {
            return Err(Error::NarrowedBelowMinimum);
        }
        let ghost mut rounds: Seq<Seq<Time>> = Seq::empty();
        proof {
            assert(self.accesses() =~= old(self).accesses() + narrowing_checks(
                self.timings(),
                s@,
                x,
                n_lines as int,
                rounds,
            ));
            assert(narrowing_run(
                old(self).accesses(),
                self.accesses(),
                self.timings(),
                s@,
                x,
                n_lines as int,
                rounds,
            ));
        }
        if s.len() == n_lines {
            return Ok(());
        }
        while s.len() > n_lines
            invariant
                s@ == narrowed(old(self).timings(), old(s)@, n_lines as int, rounds),
                narrowing_run(
                    old(self).accesses(),
                    self.accesses(),
                    old(self).timings(),
                    old(s)@,
                    x,
                    n_lines as int,
                    rounds,
                ),
                old(self).in_buffer(x) && old(self).all_in_buffer(old(s)@)
                    ==> self.stays_confined(old(self)) && self.all_in_buffer(s@),
                old(self).wf(),
                self.engine_kept(old(self)),
                n_lines == self.layout().n_lines,
                old(s)@.len() > n_lines,
                s@.len() >= n_lines,
                is_subsequence(s@, old(s)@),
            decreases s@.len(),
        {
            let ghost checked = self.accesses();
            let redundant = match self.find_redundant_chunk(s, x) {
                Ok(redundant) => redundant,
                Err(e) => {
                    proof {
                        let (lats, done) = choose|lats: Seq<Time>, done: int| #[trigger]
                            round_break(
                                checked,
                                self.accesses(),
                                old(self).timings(),
                                s@,
                                x,
                                n_lines as int,
                                lats,
                                done,
                            );
                        assert(narrowing_break(
                            old(self).accesses(),
                            self.accesses(),
                            old(self).timings(),
                            old(s)@,
                            x,
                            n_lines as int,
                            rounds,
                            lats,
                            done,
                        ));
                    }
                    return Err(e);
                },
            };
            let ghost before = s@;
            reduce(s, n_lines, redundant);
            proof {
                let lats = choose|lats: Seq<Time>|
                    {
                        &&& #[trigger] round_run(
                            checked,
                            self.accesses(),
                            before,
                            x,
                            n_lines as int,
                            lats,
                        )
                        &&& round_complete(old(self).timings(), lats, n_lines as int)
                        &&& redundant == round_outcome(old(self).timings(), lats)
                    };
                let known = rounds;
                rounds = rounds.push(lats);
                assert(rounds.drop_last() =~= known);
                assert(self.accesses() =~= old(self).accesses() + narrowing_checks(
                    old(self).timings(),
                    old(s)@,
                    x,
                    n_lines as int,
                    rounds,
                ));
                lemma_subsequence_trans(s@, before, old(s)@);
                if old(self).all_in_buffer(old(s)@) {
                    let limit = old(self).layout().v_buf as int;
                    lemma_subsequence_all(s@, old(s)@, |a: Address| a < limit);
                }
            }
        }
        Ok(())
    }

    /// Takes the addresses of `s` out of the pool at `idx`.
    fn remove_used_addrs(&mut self, s: &[Address], idx: usize)
        requires
            idx < old(self).pools().len(),
        ensures
            final(self).pool_replaced(
                old(self),
                idx as int,
                old(self).pools()[idx as int].filter(|a: Address| !s@.contains(a)),
            ),
            final(self).accesses() == old(self).accesses(),
    {
        let rest = unused(self.addrs[idx].as_slice(), s);
        let pool = &mut self.addrs[idx];
        *pool = rest;
        proof {
            assert(self.pools() =~= old(self).pools().update(idx as int, rest@));
        }
    }

    /// Takes out of the pool at `idx` every address that the set `s` evicts.
    /// Where the connection fails, the pool stays without the addresses
    /// taken out so far.
    fn cleanup_congruent(&mut self, s: &[Address], idx: usize) -> (r: Result<(), Error>)
        requires
            old(self).wf(),
            idx < NUM_VARIANTS,
        ensures
            final(self).pool_thinned(old(self), idx as int),
            exists|lats: Seq<Time>|
                {
                    &&& #[trigger] sweep_run(
                        old(self).accesses(),
                        final(self).accesses(),
                        old(self).timings(),
                        s@,
                        old(self).pools()[idx as int],
                        final(self).pools()[idx as int],
                        lats,
                    )
                    &&& r is Ok ==> lats.len() == old(self).pools()[idx as int].len()
                        && final(self).accesses() == old(self).accesses() + sweep_checks(
                        s@,
                        old(self).pools()[idx as int],
                        lats,
                    )
                    &&& r is Err ==> lats.len() < old(self).pools()[idx as int].len()
                },
            r matches Err(e) ==> e is Transport,
            old(self).all_in_buffer(s@) ==> final(self).stays_confined(old(self)),
    {
        let addrs = prefix(self.addrs[idx].as_slice(), self.addrs[idx].len());
        let mut i: usize = 0;
        let mut k: usize = 0;
        let ghost mut lats: Seq<Time> = Seq::empty();
        proof {
            lemma_subsequence_refl(self.pools()[idx as int]);
            assert(addrs@ =~= self.pools()[idx as int]);
            assert(self.accesses() =~= old(self).accesses() + sweep_checks(s@, addrs@, lats));
            assert(self.pools()[idx as int] =~= swept(self.timings(), addrs@, lats)
                + addrs@.subrange(0, addrs@.len() as int));
        }
        while k < addrs.len()
            invariant
                old(self).all_in_buffer(s@) ==> self.stays_confined(old(self)),
                old(self).wf(),
                self.wf(),
                idx < NUM_VARIANTS,
                self.pool_thinned(old(self), idx as int),
                addrs@ == old(self).pools()[idx as int],
                k <= addrs@.len(),
                i <= self.pools()[idx as int].len(),
                self.pools()[idx as int].len() - i == addrs@.len() - k,
                lats.len() == k,
                i == swept(old(self).timings(), addrs@, lats).len(),
                self.accesses() == old(self).accesses() + sweep_checks(s@, addrs@, lats),
                self.pools()[idx as int] == swept(old(self).timings(), addrs@, lats)
                    + addrs@.subrange(k as int, addrs@.len() as int),
            decreases addrs@.len() - k,
        {
            let x = addrs[k];
            let ghost before = *self;
            proof {
                vstd::std_specs::vec::axiom_spec_len(&self.addrs@[idx as int]);
                old(self).lemma_in_buffer();
            }
            let checked = self.check_evicts(s, x);
            let evicted = match checked {
                Ok(evicted) => evicted,
                Err(e) => {
                    proof {
                        assert(sweep_run(
                            old(self).accesses(),
                            self.accesses(),
                            old(self).timings(),
                            s@,
                            addrs@,
                            self.pools()[idx as int],
                            lats,
                        ));
                    }
                    return Err(e);
                },
            };
            let ghost lat = choose|lat: Time|
                self.accesses() == before.accesses() + #[trigger] eviction_check(s@, x, lat) && (
                evicted <==> before.timings().judgement(lat) is Miss);
            let ghost earlier = lats;
            proof {
                lats = lats.push(lat);
                assert(lats.drop_last() =~= earlier);
                assert(self.accesses() =~= old(self).accesses() + sweep_checks(s@, addrs@, lats));
            }
            if evicted {
                let ghost pool_before = self.pools()[idx as int];
                let ghost removed_from = *self;
                let pool = &mut self.addrs[idx];
                pool.remove(i);
                proof {
                    let pool_after = self.pools()[idx as int];
                    assert(pool_after =~= without_range(pool_before, i as int, 1));
                    lemma_without_range_is_subsequence(pool_before, i as int, 1);
                    lemma_subsequence_trans(pool_after, pool_before, old(self).pools()[idx as int]);
                    assert(self.sets() =~= before.sets());
                    assert forall|j: int|
                        0 <= j < self.pools().len() && j != idx implies #[trigger] self.pools()[j]
                        == old(self).pools()[j] by {
                        assert(self.pools()[j] == before.pools()[j]);
                    }
                    self.lemma_tidy_thinned(old(self), idx as int);
                    self.lemma_confined_kept(&removed_from);
                    assert(pool_after =~= swept(old(self).timings(), addrs@, lats)
                        + addrs@.subrange(k + 1, addrs@.len() as int));
                }
            } else {
                proof {
                    assert(self.pools()[idx as int] =~= swept(old(self).timings(), addrs@, lats)
                        + addrs@.subrange(k + 1, addrs@.len() as int));
                }
                i += 1;
            }
            k += 1;
        }
        proof {
            assert(sweep_run(
                old(self).accesses(),
                self.accesses(),
                old(self).timings(),
                s@,
                addrs@,
                self.pools()[idx as int],
                lats,
            ));
        }
        Ok(())
    }

    /// Builds an eviction set for `addr` from the pool at `idx`, by forward
    /// and then backward selection, and takes its addresses out of the pool.
    /// Where it fails, the pools are as they were.
    fn build_set_for_idx_addr(&mut self, idx: usize, addr: Address) -> (r: Result<
        EvictionSet,
        Error,
    >)
        requires
            old(self).wf(),
            idx < NUM_VARIANTS,
        ensures
            final(self).wf(),
            r matches Ok(s) ==> s@.len() == old(self).layout().n_lines && is_subsequence(
                s@,
                old(self).pools()[idx as int],
            ) && final(self).pool_replaced(
                old(self),
                idx as int,
                old(self).pools()[idx as int].filter(|a: Address| !s@.contains(a)),
            ) && final(self).fresh(s@, idx as int),
            r matches Ok(s) ==> exists|sel: Selection|
                {
                    &&& #[trigger] selected(
                        final(self).accesses(),
                        old(self).layout().n_lines as int,
                        s@,
                        sel,
                    )
                    &&& sel.begins(
                        old(self).accesses().len() as int,
                        old(self).timings(),
                        old(self).pools()[idx as int],
                        addr,
                    )
                    &&& sel.end(old(self).layout().n_lines as int) == final(self).accesses().len()
                },
            r is Err ==> final(self).engine_kept(old(self)),
            r matches Err(e) ==> exists|end: Ending|
                {
                    &&& #[trigger] selection_failed(
                        old(self).accesses(),
                        final(self).accesses(),
                        old(self).timings(),
                        old(self).pools()[idx as int],
                        addr,
                        old(self).layout().n_lines as int,
                        end,
                    )
                    &&& e is Exhausted <==> end is Exhausted
                    &&& e is NoEviction <==> end is NoEviction
                },
            (r matches Err(e) && e is Exhausted)
                <==> old(self).pools()[idx as int].len() < old(self).layout().n_lines + 1,
            r matches Err(e) ==> e is Exhausted || e is NoEviction || e is Transport,
            old(self).in_buffer(addr) ==> final(self).stays_confined(old(self)),
    {
        let ghost n_lines = self.layout().n_lines as int;
        let ghost pool = self.pools()[idx as int];
        let ghost from = first_candidates(pool.len() as int, n_lines) - 1;
        let mut s = match self.forward_selection(idx, addr) {
            Ok(s) => s,
            Err(e) => {
                proof {
                    match e {
                        Error::Exhausted => {
                            assert(selection_failed(
                                old(self).accesses(),
                                self.accesses(),
                                old(self).timings(),
                                pool,
                                addr,
                                n_lines,
                                Ending::Exhausted,
                            ));
                        },
                        Error::NoEviction => {
                            let lats = choose|lats: Seq<Time>|
                                {
                                    &&& #[trigger] forward_run(
                                        old(self).accesses(),
                                        self.accesses(),
                                        pool,
                                        addr,
                                        from,
                                        lats,
                                    )
                                    &&& lats.len() == pool.len() - from
                                    &&& no_miss(old(self).timings(), lats)
                                };
                            assert(selection_failed(
                                old(self).accesses(),
                                self.accesses(),
                                old(self).timings(),
                                pool,
                                addr,
                                n_lines,
                                Ending::NoEviction(lats),
                            ));
                        },
                        _ => {
                            let (lats, done) = choose|lats: Seq<Time>, done: int|
                                {
                                    &&& #[trigger] forward_break(
                                        old(self).accesses(),
                                        self.accesses(),
                                        pool,
                                        addr,
                                        from,
                                        lats,
                                        done,
                                    )
                                    &&& no_miss(old(self).timings(), lats)
                                };
                            assert(selection_failed(
                                old(self).accesses(),
                                self.accesses(),
                                old(self).timings(),
                                pool,
                                addr,
                                n_lines,
                                Ending::ForwardBroken(lats, done),
                            ));
                        },
                    }
                }
                return Err(e);
            },
        };
        let ghost widest = s@;
        let ghost lats = choose|lats: Seq<Time>|
            {
                &&& #[trigger] forward_run(
                    old(self).accesses(),
                    self.accesses(),
                    pool,
                    addr,
                    first_candidates(pool.len() as int, n_lines) - 1,
                    lats,
                )
                &&& lats.len() == widest.len() + 2 - first_candidates(pool.len() as int, n_lines)
                &&& first_miss_is_last(old(self).timings(), lats)
            };
        let ghost widened = *self;
        proof {
            lemma_prefix_is_subsequence(old(self).pools()[idx as int], widest.len() as int);
            old(self).lemma_in_buffer();
            lemma_parts_below(
                old(self).pools()[idx as int],
                widest.len() as int,
                0,
                old(self).layout().v_buf as int,
            );
        }
        match self.backward_selection(&mut s, addr) {
            Ok(()) => {},
            Err(e) => {
                proof {
                    let (rounds, last, done) = choose|
                        rounds: Seq<Seq<Time>>,
                        last: Seq<Time>,
                        done: int,
                    | #[trigger]
                        narrowing_break(
                            widened.accesses(),
                            self.accesses(),
                            widened.timings(),
                            widest,
                            addr,
                            n_lines,
                            rounds,
                            last,
                            done,
                        );
                    assert(widest =~= pool.subrange(0, from + lats.len() - 1));
                    assert(selection_failed(
                        old(self).accesses(),
                        self.accesses(),
                        old(self).timings(),
                        pool,
                        addr,
                        n_lines,
                        Ending::BackwardBroken(lats, rounds, last, done),
                    ));
                }
                return Err(e);
            },
        }
        let ghost rounds = choose|rounds: Seq<Seq<Time>>|
            {
                &&& #[trigger] narrowing_run(
                    widened.accesses(),
                    self.accesses(),
                    widened.timings(),
                    widest,
                    addr,
                    n_lines,
                    rounds,
                )
                &&& s@ == narrowed(widened.timings(), widest, n_lines, rounds)
            };
        let ghost sel = Selection {
            start: old(self).accesses().len() as int,
            classifier: old(self).timings(),
            pool,
            addr,
            lats,
            rounds,
        };
        proof {
            lemma_subsequence_trans(s@, widest, old(self).pools()[idx as int]);
            assert(sel.widest(n_lines) =~= widest);
            assert(self.accesses() =~= old(self).accesses() + sel.accesses(n_lines));
            assert(self.accesses().subrange(sel.start, sel.start + sel.accesses(n_lines).len())
                =~= sel.accesses(n_lines));
        }
        let ghost narrowed = *self;
        self.remove_used_addrs(s.as_slice(), idx);
        proof {
            self.lemma_fresh_taken(old(self), s@, idx as int);
            self.lemma_confined_kept(&narrowed);
        }
        let r = Ok(s);
        assert(r matches Ok(m) && selected(self.accesses(), n_lines, m@, sel));
        r
    }

    /// Trains the classifier on `samples_num` addresses of the first pool,
    /// chosen at random, or on all of them if the pool has fewer: each is
    /// timed, cached, and timed again, and the pair of timings is recorded,
    /// the second as a hit and the first as a miss, unless the cached access
    /// was the slower one. The memory is taken not to be cached yet. Fails
    /// only where the connection does.
    fn train_classifier(&mut self, samples_num: usize) -> (r: Result<(), Error>)
        requires
            old(self).wf(),
        ensures
            final(self).trained_further(old(self)),
            r is Ok ==> exists|samples: Seq<Sample>|
                #[trigger] training_run(
                    old(self).accesses(),
                    final(self).accesses(),
                    old(self).timings(),
                    final(self).timings(),
                    old(self).pools()[0],
                    samples_num as int,
                    samples,
                ),
            old(self).pools()[0].len() == 0 || samples_num == 0 ==> r is Ok,
            r matches Err(e) ==> e is Transport,
            final(self).stays_confined(old(self)),
    {
        broadcast use vstd::multiset::group_multiset_properties;

        let picks = pick_many(self.addrs[0].as_slice(), samples_num);
        let mut k: usize = 0;
        let ghost mut samples: Seq<Sample> = Seq::empty();
        proof {
            assert(self.accesses() =~= old(self).accesses() + training_accesses(samples));
            assert(self.timings().hit_samples() =~= old(self).timings().hit_samples().add(
                trained_hits(samples),
            ));
            assert(self.timings().miss_samples() =~= old(self).timings().miss_samples().add(
                trained_misses(samples),
            ));
        }
        while k < picks.len()
            invariant
                self.stays_confined(old(self)),
                old(self).wf(),
                self.wf(),
                self.trained_further(old(self)),
                crate::rpp::random::picked_from(picks@, old(self).pools()[0]),
                old(self).pools()[0].len() == 0 || samples_num == 0 ==> picks@.len() == 0,
                k <= picks@.len(),
                samples.len() == k,
                forall|j: int| 0 <= j < k ==> (#[trigger] samples[j]).addr == picks@[j],
                self.accesses() == old(self).accesses() + training_accesses(samples),
                self.timings().hit_samples() == old(self).timings().hit_samples().add(
                    trained_hits(samples),
                ),
                self.timings().miss_samples() == old(self).timings().miss_samples().add(
                    trained_misses(samples),
                ),
            decreases picks@.len() - k,
        {
            let ofs = picks[k];
            proof {
                crate::rpp::random::lemma_picked_is_member(picks@, old(self).pools()[0], k as int);
                old(self).lemma_in_buffer();
            }
            let ghost started = self.accesses();
            let miss_time = self.time_access(ofs)?;
            self.cache(ofs)?;
            let hit_time = self.time_access(ofs)?;
            let ghost step = Sample { addr: ofs, miss_time, hit_time };
            let ghost known = samples;
            proof {
                samples = samples.push(step);
                assert(samples.drop_last() =~= known);
                assert(self.accesses() =~= started + step.accesses());
                assert(self.accesses() =~= old(self).accesses() + training_accesses(samples));
            }
            if fit_for_training(miss_time, hit_time) {
                let ghost before = *self;
                match self.classifier.record(CacheTiming::Hit(hit_time)) {
                    Ok(()) => {},
                    Err(e) => {
                        proof {
                            assert(self.sets() =~= before.sets());
                            assert(self.pools() =~= before.pools());
                            self.lemma_confined_kept(&before);
                        }
                        return Err(e);
                    },
                }
                let rec = self.classifier.record(CacheTiming::Miss(miss_time));
                proof {
                    assert(self.sets() =~= before.sets());
                    assert(self.pools() =~= before.pools());
                    self.lemma_confined_kept(&before);
                }
                match rec {
                    Ok(()) => {},
                    Err(e) => {
                        return Err(e);
                    },
                }
                proof {
                    assert(self.timings().hit_samples() =~= old(self).timings().hit_samples().add(
                        trained_hits(samples),
                    ));
                    assert(self.timings().miss_samples() =~= old(self).timings().miss_samples().add(trained_misses(samples)));
                }
            }
            k += 1;
        }
        proof {
            assert(sampled(samples) =~= picks@);
            assert(training_run(
                old(self).accesses(),
                self.accesses(),
                old(self).timings(),
                self.timings(),
                old(self).pools()[0],
                samples_num as int,
                samples,
            ));
        }
        Ok(())
    }

    /// Draws the witnesses for a trial against the set at `idx` of a color:
    /// `UNIQUENESS_TRIALS` addresses of that set, chosen at random.
    fn draw_witnesses(&self, color: usize, idx: usize) -> (witnesses: Vec<Address>)
        requires
            self.wf(),
            color < self.sets().len(),
            idx < NUM_VARIANTS,
        ensures
            witnesses@.len() == if self.sets()[color as int][idx as int].len() == 0 {
                0
            } else {
                UNIQUENESS_TRIALS as int
            },
            forall|j: int|
                0 <= j < witnesses@.len() ==> self.sets()[color as int][idx as int].contains(
                    #[trigger] witnesses@[j],
                ),
            self.all_in_buffer(witnesses@),
    {
        let mut witnesses: Vec<Address> = Vec::with_capacity(UNIQUENESS_TRIALS);
        let mut t: usize = 0;
        assert(self.sets()[color as int].len() == NUM_VARIANTS);
        while t < UNIQUENESS_TRIALS
            invariant
                self.wf(),
                idx < NUM_VARIANTS,
                color < self.sets().len(),
                t <= UNIQUENESS_TRIALS,
                witnesses@.len() == if self.sets()[color as int][idx as int].len() == 0 {
                    0
                } else {
                    t as int
                },
                forall|j: int|
                    0 <= j < witnesses@.len() ==> self.sets()[color as int][idx as int].contains(
                        #[trigger] witnesses@[j],
                    ),
                self.all_in_buffer(witnesses@),
            decreases UNIQUENESS_TRIALS - t,
        {
            assert(self.sets()[color as int].len() == NUM_VARIANTS);
            match pick_one(self.colored_sets[color][idx].as_slice()) {
                Some(a) => {
                    proof {
                        self.lemma_in_buffer();
                        let from = self.sets()[color as int][idx as int];
                        assert(from.contains(a));
                        assert(self.all_in_buffer(from));
                    }
                    witnesses.push(a);
                },
                None => {},
            }
            t += 1;
        }
        witnesses
    }

    /// Checks `set` against each of the witnesses, in their order, and
    /// counts the checks that ended in an eviction.
    fn count_evictions(&mut self, set: &[Address], witnesses: &Vec<Address>) -> (r: Result<
        usize,
        Error,
    >)
        requires
            old(self).wf(),
        ensures
            final(self).engine_kept(old(self)),
            r matches Err(e) ==> e is Transport,
            r matches Ok(n) ==> exists|lats: Seq<Time>|
                {
                    &&& final(self).accesses() == old(self).accesses() + #[trigger] trial_checks(
                        set@,
                        witnesses@,
                        lats,
                    )
                    &&& lats.len() == witnesses@.len()
                    &&& n == misses(old(self).timings(), lats)
                },
            r is Err ==> exists|lats: Seq<Time>, done: int| #[trigger]
                trial_break(
                    old(self).accesses(),
                    final(self).accesses(),
                    set@,
                    witnesses@,
                    lats,
                    done,
                ),
            old(self).all_in_buffer(set@) && old(self).all_in_buffer(witnesses@)
                ==> final(self).stays_confined(old(self)),
    {
        let mut evictions: usize = 0;
        let mut w: usize = 0;
        let ghost mut lats: Seq<Time> = Seq::empty();
        proof {
            assert(self.accesses() =~= old(self).accesses() + trial_checks(
                set@,
                witnesses@,
                lats,
            ));
        }
        while w < witnesses.len()
            invariant
                old(self).all_in_buffer(set@) && old(self).all_in_buffer(witnesses@)
                    ==> self.stays_confined(old(self)),
                old(self).wf(),
                self.engine_kept(old(self)),
                w <= witnesses@.len(),
                lats.len() == w,
                evictions == misses(old(self).timings(), lats),
                evictions <= w,
                self.accesses() == old(self).accesses() + trial_checks(set@, witnesses@, lats),
            decreases witnesses@.len() - w,
        {
            let ghost before = self.accesses();
            let evicted = match self.check_evicts(set, witnesses[w]) {
                Ok(evicted) => evicted,
                Err(e) => {
                    proof {
                        let done = choose|done: int|
                            0 <= done <= 2 && self.accesses() == before + #[trigger] broken_check(
                                set@,
                                witnesses@[w as int],
                                done,
                            );
                        assert(trial_break(
                            old(self).accesses(),
                            self.accesses(),
                            set@,
                            witnesses@,
                            lats,
                            done,
                        ));
                    }
                    return Err(e);
                },
            };
            proof {
                let lat = choose|lat: Time|
                    self.accesses() == before + #[trigger] eviction_check(
                        set@,
                        witnesses@[w as int],
                        lat,
                    ) && (evicted <==> old(self).timings().judgement(lat) is Miss);
                let known = lats;
                lats = lats.push(lat);
                assert(lats.drop_last() =~= known);
                assert(self.accesses() =~= old(self).accesses() + trial_checks(
                    set@,
                    witnesses@,
                    lats,
                ));
            }
            if evicted {
                evictions += 1;
            }
            w += 1;
        }
        Ok(evictions)
    }

    /// Tests a candidate set against the sets at `idx` of all colors built
    /// so far, color after color. A candidate without any address is
    /// refused before anything else. Against each, it draws witnesses from that
    /// set at random and counts how often the candidate evicts one; where
    /// more than half of the checks end in an eviction, the candidate falls
    /// into a set that is there already and is not unique, and no further
    /// color is tried.
    pub fn is_unique(&mut self, set: &[Address], idx: usize) -> (r: Result<bool, Error>)
        requires
            old(self).wf(),
            idx < NUM_VARIANTS,
        ensures
            final(self).engine_kept(old(self)),
            (r matches Err(e) && e is EmptySet) <==> set@.len() == 0,
            set@.len() == 0 ==> final(self).accesses() == old(self).accesses(),
            r matches Err(e) ==> e is EmptySet || e is Transport,
            r matches Ok(unique) ==> exists|trials: Seq<Trial>|
                {
                    &&& #[trigger] uniqueness_run(
                        old(self).accesses(),
                        final(self).accesses(),
                        old(self).timings(),
                        set@,
                        old(self).sets(),
                        idx as int,
                        trials,
                    )
                    &&& unique ==> trials.len() == old(self).sets().len()
                    &&& !unique ==> trials.len() > 0
                    &&& trials.len() > 0 ==> (unique <==> !trial_collides(
                        old(self).timings(),
                        trials.last(),
                    ))
                },
            (r matches Err(e) && e is Transport) ==> exists|
                trials: Seq<Trial>,
                last: Trial,
                done: int,
            | #[trigger]
                uniqueness_break(
                    old(self).accesses(),
                    final(self).accesses(),
                    old(self).timings(),
                    set@,
                    old(self).sets(),
                    idx as int,
                    trials,
                    last,
                    done,
                ),
            old(self).sets().len() == 0 && set@.len() > 0 ==> (r matches Ok(b) && b),
            old(self).sets().len() == 0 ==> final(self).accesses() == old(self).accesses(),
            old(self).all_in_buffer(set@) ==> final(self).stays_confined(old(self)),
    {
        if set.len() == 0 {
            proof {
                self.lemma_confined_kept(old(self));
            }
            return Err(Error::EmptySet);
        }
        let colors = self.colored_sets.len();
        let mut color: usize = 0;
        let ghost mut trials: Seq<Trial> = Seq::empty();
        proof {
            assert(self.accesses() =~= old(self).accesses() + uniqueness_checks(set@, trials));
        }
        while color < colors
            invariant
                old(self).all_in_buffer(set@) ==> self.stays_confined(old(self)),
                old(self).wf(),
                self.engine_kept(old(self)),
                idx < NUM_VARIANTS,
                set@.len() > 0,
                colors == self.sets().len(),
                color <= colors,
                trials.len() == color,
                uniqueness_run(
                    old(self).accesses(),
                    self.accesses(),
                    old(self).timings(),
                    set@,
                    old(self).sets(),
                    idx as int,
                    trials,
                ),
                forall|c: int|
                    0 <= c < trials.len() ==> !trial_collides(
                        old(self).timings(),
                        #[trigger] trials[c],
                    ),
            decreases colors - color,
        {
            let witnesses = self.draw_witnesses(color, idx);
            let ghost before = self.accesses();
            let evictions = match self.count_evictions(set, &witnesses) {
                Ok(evictions) => evictions,
                Err(e) => {
                    proof {
                        let (lats, done) = choose|lats: Seq<Time>, done: int| #[trigger]
                            trial_break(before, self.accesses(), set@, witnesses@, lats, done);
                        let last = Trial { witnesses: witnesses@, lats };
                        assert(uniqueness_break(
                            old(self).accesses(),
                            self.accesses(),
                            old(self).timings(),
                            set@,
                            old(self).sets(),
                            idx as int,
                            trials,
                            last,
                            done,
                        ));
                    }
                    return Err(e);
                },
            };
            proof {
                let lats = choose|lats: Seq<Time>|
                    {
                        &&& self.accesses() == before + #[trigger] trial_checks(
                            set@,
                            witnesses@,
                            lats,
                        )
                        &&& lats.len() == witnesses@.len()
                        &&& evictions == misses(old(self).timings(), lats)
                    };
                let known = trials;
                trials = trials.push(Trial { witnesses: witnesses@, lats });
                assert(trials.drop_last() =~= known);
                assert(self.accesses() =~= old(self).accesses() + uniqueness_checks(
                    set@,
                    trials,
                ));
                assert forall|c: int| 0 <= c < trials.len() implies trial_against(
                    old(self).sets()[c][idx as int],
                    #[trigger] trials[c],
                ) by {
                    if c < known.len() {
                        assert(trials[c] == known[c]);
                    }
                }
                assert forall|c: int| 0 <= c < trials.len() - 1 implies !trial_collides(
                    old(self).timings(),
                    #[trigger] trials[c],
                ) by {
                    assert(trials[c] == known[c]);
                }
                assert(uniqueness_run(
                    old(self).accesses(),
                    self.accesses(),
                    old(self).timings(),
                    set@,
                    old(self).sets(),
                    idx as int,
                    trials,
                ));
                assert(trials.last().lats == lats);
            }
            if collides(evictions, UNIQUENESS_TRIALS) {
                return Ok(false);
            }
            color += 1;
        }
        Ok(true)
    }

    /// Tries the address of `set` at `k`, moved to variant `i`, as the seed
    /// of the set of variant `i`: selects a set for it from the pool of the
    /// variant and checks the uniqueness of that set. A set that is not
    /// unique, or whose check fails, is given up, its addresses with it.
    fn try_sibling(&mut self, set: &[Address], i: usize, k: usize) -> (r: Option<EvictionSet>)
        requires
            old(self).wf(),
            1 <= i < NUM_VARIANTS,
            k < set@.len(),
        ensures
            final(self).wf(),
            final(self).pool_thinned(old(self), i as int),
            r matches Some(s) ==> s@.len() == old(self).layout().n_lines && is_subsequence(
                s@,
                old(self).pools()[i as int],
            ) && final(self).fresh(s@, i as int),
            r matches Some(s) ==> final(self).backed(s@, old(self).sets(), i as int),
            r is None ==> exists|a: Attempt|
                {
                    &&& #[trigger] a.failed(
                        final(self).accesses(),
                        old(self).timings(),
                        seeds_of(set@, i)[k as int],
                        old(self).layout().n_lines as int,
                        old(self).sets(),
                        i as int,
                    )
                    &&& a.start == old(self).accesses().len()
                    &&& a.end == final(self).accesses().len()
                    &&& a.pool == old(self).pools()[i as int]
                    &&& a.left == final(self).pools()[i as int]
                },
            old(self).all_in_buffer(set@) ==> final(self).stays_confined(old(self)),
    {
        let addr = set[k] ^ (i << CTL_BIT);
        let ghost n_lines = self.layout().n_lines as int;
        let ghost pool = self.pools()[i as int];
        proof {
            if old(self).all_in_buffer(set@) {
                lemma_variant_moved(set@[k as int], i, old(self).layout().v_buf);
            }
            lemma_subsequence_refl(pool);
        }
        let new_set = match self.build_set_for_idx_addr(i, addr) {
            Ok(new_set) => new_set,
            Err(_) => {
                proof {
                    let end = choose|end: Ending| #[trigger]
                        selection_failed(
                            old(self).accesses(),
                            self.accesses(),
                            old(self).timings(),
                            pool,
                            addr,
                            n_lines,
                            end,
                        );
                    lemma_unselected(
                        old(self).accesses(),
                        self.accesses(),
                        old(self).timings(),
                        pool,
                        addr,
                        n_lines,
                        old(self).sets(),
                        i as int,
                        end,
                    );
                    assert(self.pools() == old(self).pools());
                    let a = Attempt {
                        start: old(self).accesses().len() as int,
                        end: self.accesses().len() as int,
                        pool,
                        left: pool,
                        fate: Fate::Unselected(end),
                    };
                    assert(seeds_of(set@, i)[k as int] == addr);
                    assert(a.failed(
                        self.accesses(),
                        old(self).timings(),
                        seeds_of(set@, i)[k as int],
                        n_lines,
                        old(self).sets(),
                        i as int,
                    ));
                }
                return None;
            },
        };
        let ghost sel = choose|sel: Selection|
            {
                &&& #[trigger] selected(self.accesses(), n_lines, new_set@, sel)
                &&& sel.begins(old(self).accesses().len() as int, old(self).timings(), pool, addr)
                &&& sel.end(n_lines) == self.accesses().len()
            };
        let ghost built = *self;
        proof {
            lemma_homed_below(new_set@, i as int, self.layout().v_buf as int);
            lemma_filter_is_subsequence(pool, |a: Address| !new_set@.contains(a));
        }
        let unique = self.is_unique(new_set.as_slice(), i);
        let ghost mut fate = Fate::Unchecked(sel);
        match unique {
            Ok(true) => {
                proof {
                    let trials = choose|trials: Seq<Trial>|
                        {
                            &&& #[trigger] uniqueness_run(
                                built.accesses(),
                                self.accesses(),
                                built.timings(),
                                new_set@,
                                built.sets(),
                                i as int,
                                trials,
                            )
                            &&& trials.len() == built.sets().len()
                            &&& trials.len() > 0 ==> !trial_collides(built.timings(), trials.last())
                        };
                    lemma_recorded_kept(
                        self.accesses(),
                        built.accesses(),
                        sel.start,
                        sel.accesses(n_lines),
                    );
                    assert(self.accesses().subrange(
                        sel.end(n_lines),
                        sel.end(n_lines) + uniqueness_checks(new_set@, trials).len(),
                    ) =~= uniqueness_checks(new_set@, trials));
                    assert(derived(
                        self.accesses(),
                        n_lines,
                        new_set@,
                        old(self).sets(),
                        i as int,
                        sel,
                        trials,
                    ));
                }
                return Some(new_set);
            },
            Ok(false) => {
                proof {
                    let trials = choose|trials: Seq<Trial>|
                        {
                            &&& #[trigger] uniqueness_run(
                                built.accesses(),
                                self.accesses(),
                                built.timings(),
                                new_set@,
                                built.sets(),
                                i as int,
                                trials,
                            )
                            &&& trials.len() > 0
                            &&& trial_collides(built.timings(), trials.last())
                        };
                    fate = Fate::Collided(sel, trials);
                }
            },
            Err(e) => {
                proof {
                    if e is EmptySet {
                        fate = Fate::Unchecked(sel);
                    } else {
                        let (trials, last, done) = choose|
                            trials: Seq<Trial>,
                            last: Trial,
                            done: int,
                        | #[trigger]
                            uniqueness_break(
                                built.accesses(),
                                self.accesses(),
                                built.timings(),
                                new_set@,
                                built.sets(),
                                i as int,
                                trials,
                                last,
                                done,
                            );
                        fate = Fate::CheckBroken(sel, trials, last, done);
                    }
                }
            },
        }
        proof {
            lemma_unkept(
                built.accesses(),
                self.accesses(),
                old(self).timings(),
                pool,
                addr,
                n_lines,
                old(self).sets(),
                i as int,
                sel,
                new_set@,
                fate,
            );
            assert(self.pools() == built.pools());
            let a = Attempt {
                start: sel.start,
                end: self.accesses().len() as int,
                pool,
                left: pool.filter(|a: Address| !new_set@.contains(a)),
                fate,
            };
            assert(seeds_of(set@, i)[k as int] == addr);
            assert(a.left == self.pools()[i as int]);
            assert(a.failed(
                self.accesses(),
                old(self).timings(),
                seeds_of(set@, i)[k as int],
                n_lines,
                old(self).sets(),
                i as int,
            ));
        }
        None
    }

    /// Derives the set of variant `i` that belongs to the color of `set`:
    /// tries the addresses of `set`, moved to variant `i`, one after the
    /// other as the address to evict, and returns the first set that could
    /// be built from the pool of the variant and is unique. A set that is
    /// not unique is given up, its addresses with it.
    fn derive_sibling(&mut self, set: &[Address], i: usize) -> (r: Option<EvictionSet>)
        requires
            old(self).wf(),
            1 <= i < NUM_VARIANTS,
        ensures
            final(self).wf(),
            final(self).pool_thinned(old(self), i as int),
            r matches Some(s) ==> s@.len() == old(self).layout().n_lines && is_subsequence(
                s@,
                old(self).pools()[i as int],
            ) && final(self).fresh(s@, i as int),
            r matches Some(s) ==> final(self).backed(s@, old(self).sets(), i as int),
            r is None ==> exists|attempts: Seq<Attempt>| #[trigger]
                final(self).derived_in_vain(old(self), set@, i, attempts),
            old(self).all_in_buffer(set@) ==> final(self).stays_confined(old(self)),
    {
        let mut k: usize = 0;
        let ghost mut attempts: Seq<Attempt> = Seq::empty();
        proof {
            lemma_subsequence_refl(self.pools()[i as int]);
            reveal(derivation_failed);
            assert(self.derived_in_vain(old(self), set@.subrange(0, 0), i, attempts));
        }
        while k < set.len()
            invariant
                old(self).all_in_buffer(set@) ==> self.stays_confined(old(self)),
                old(self).wf(),
                self.wf(),
                1 <= i < NUM_VARIANTS,
                self.pool_thinned(old(self), i as int),
                k <= set@.len(),
                self.derived_in_vain(old(self), set@.subrange(0, k as int), i, attempts),
            decreases set@.len() - k,
        {
            let ghost before = *self;
            let tried = self.try_sibling(set, i, k);
            proof {
                lemma_subsequence_trans(
                    self.pools()[i as int],
                    before.pools()[i as int],
                    old(self).pools()[i as int],
                );
                assert forall|j: int|
                    0 <= j < self.pools().len() && j != i implies #[trigger] self.pools()[j] == old(
                    self,
                ).pools()[j] by {
                    assert(self.pools()[j] == before.pools()[j]);
                }
            }
            match tried {
                Some(new_set) => {
                    proof {
                        lemma_subsequence_trans(
                            new_set@,
                            before.pools()[i as int],
                            old(self).pools()[i as int],
                        );
                    }
                    return Some(new_set);
                },
                None => {
                    proof {
                        let a = choose|a: Attempt|
                            {
                                &&& #[trigger] a.failed(
                                    self.accesses(),
                                    before.timings(),
                                    seeds_of(set@, i)[k as int],
                                    before.layout().n_lines as int,
                                    before.sets(),
                                    i as int,
                                )
                                &&& a.start == before.accesses().len()
                                &&& a.end == self.accesses().len()
                                &&& a.pool == before.pools()[i as int]
                                &&& a.left == self.pools()[i as int]
                            };
                        lemma_derivation_extended(
                            before.accesses(),
                            self.accesses(),
                            old(self).timings(),
                            set@,
                            k as int,
                            old(self).layout().n_lines as int,
                            old(self).sets(),
                            Derivation {
                                variant: i,
                                start: old(self).accesses().len() as int,
                                end: before.accesses().len() as int,
                                pool: old(self).pools()[i as int],
                                left: before.pools()[i as int],
                                attempts,
                            },
                            a,
                        );
                        attempts = attempts.push(a);
                    }
                },
            }
            k += 1;
        }
        proof {
            assert(set@.subrange(0, k as int) =~= set@);
        }
        None
    }

    /// Adds a color: the given set, which is its set of variant 0, and a
    /// derived set for each of the other variants. Where one of them cannot
    /// be derived, no color is added.
    fn add_sets(&mut self, set: &Vec<Address>) -> (r: Result<(), Error>)
        requires
            old(self).wf(),
            set@.len() == old(self).layout().n_lines,
            old(self).fresh(set@, 0),
            old(self).backed(set@, old(self).sets(), 0),
        ensures
            final(self).wf(),
            extends(final(self).accesses(), old(self).accesses()),
            r is Ok ==> forall|v: int|
                0 <= v < NUM_VARIANTS ==> #[trigger] final(self).set_selected(
                    old(self).sets().len() as int,
                    v,
                ),
            old(self).sets_selected() ==> final(self).sets_selected(),
            final(self).layout() == old(self).layout(),
            final(self).quiet() == old(self).quiet(),
            final(self).timings() == old(self).timings(),
            final(self).pools()[0] == old(self).pools()[0],
            r is Ok
                ==> final(self).sets().len() == old(self).sets().len() + 1
                    && final(self).sets().drop_last() == old(self).sets()
                    && final(self).sets().last()[0] == set@,
            r matches Err(e) ==> e is DerivationFailed && final(self).sets() == old(self).sets(),
            r is Err ==> exists|d: Derivation| #[trigger] final(self).gave_up_on(old(self), set@, d),
            final(self).pools().len() == NUM_VARIANTS,
            forall|j: int|
                0 <= j < NUM_VARIANTS ==> is_subsequence(
                    #[trigger] final(self).pools()[j],
                    old(self).pools()[j],
                ),
            final(self).stays_confined(old(self)),
    {
        let mut sets: Vec<Vec<Address>> = Vec::with_capacity(NUM_VARIANTS);
        sets.push(prefix(set.as_slice(), set.len()));
        proof {
            assert(set@.subrange(0, set@.len() as int) =~= set@);
            lemma_homed_below(set@, 0, self.layout().v_buf as int);
            assert forall|j: int| 0 <= j < NUM_VARIANTS implies is_subsequence(
                #[trigger] self.pools()[j],
                old(self).pools()[j],
            ) by {
                lemma_subsequence_refl(self.pools()[j]);
            }
        }
        let mut i: usize = 1;
        while i < NUM_VARIANTS
            invariant
                self.pools().len() == NUM_VARIANTS,
                forall|j: int|
                    0 <= j < NUM_VARIANTS ==> is_subsequence(
                        #[trigger] self.pools()[j],
                        old(self).pools()[j],
                    ),
                forall|j: int|
                    i <= j < NUM_VARIANTS ==> #[trigger] self.pools()[j] == old(self).pools()[j],
                self.stays_confined(old(self)),
                extends(self.accesses(), old(self).accesses()),
                old(self).wf(),
                self.wf(),
                1 <= i <= NUM_VARIANTS,
                sets@.len() == i,
                sets@[0]@ == set@,
                old(self).all_in_buffer(set@),
                forall|j: int| 0 <= j < i ==> (#[trigger] sets@[j])@.len() == self.layout().n_lines,
                forall|j: int| 0 <= j < i ==> self.fresh(#[trigger] sets@[j]@, j),
                forall|j: int| 0 <= j < i ==> self.backed(#[trigger] sets@[j]@, self.sets(), j),
                old(self).sets_selected() ==> self.sets_selected(),
                self.sets() == old(self).sets(),
                self.layout() == old(self).layout(),
                self.quiet() == old(self).quiet(),
                self.timings() == old(self).timings(),
                self.pools()[0] == old(self).pools()[0],
            decreases NUM_VARIANTS - i,
        {
            let ghost round = *self;
            let derived = self.derive_sibling(set.as_slice(), i);
            proof {
                assert forall|j: int| 0 <= j < i implies self.fresh(#[trigger] sets@[j]@, j) by {
                    self.lemma_fresh_thinned(&round, sets@[j]@, j, i as int);
                }
                assert forall|j: int| 0 <= j < i implies self.backed(
                    #[trigger] sets@[j]@,
                    self.sets(),
                    j,
                ) by {
                    self.lemma_backed_kept(&round, sets@[j]@, self.sets(), j);
                }
                if old(self).sets_selected() {
                    self.lemma_sets_selected_kept(&round);
                }
                assert forall|j: int| 0 <= j < NUM_VARIANTS implies is_subsequence(
                    #[trigger] self.pools()[j],
                    old(self).pools()[j],
                ) by {
                    if j == i {
                        lemma_subsequence_trans(
                            self.pools()[j],
                            round.pools()[j],
                            old(self).pools()[j],
                        );
                    } else {
                        assert(self.pools()[j] == round.pools()[j]);
                    }
                }
                assert forall|j: int| i < j < NUM_VARIANTS implies #[trigger] self.pools()[j]
                    == old(self).pools()[j] by {
                    assert(self.pools()[j] == round.pools()[j]);
                }
            }
            match derived {
                Some(s) => {
                    sets.push(s);
                },
                None => {
                    proof {
                        let attempts = choose|attempts: Seq<Attempt>| #[trigger]
                            self.derived_in_vain(&round, set@, i, attempts);
                        let d = Derivation {
                            variant: i,
                            start: round.accesses().len() as int,
                            end: self.accesses().len() as int,
                            pool: round.pools()[i as int],
                            left: self.pools()[i as int],
                            attempts,
                        };
                        assert(self.gave_up_on(old(self), set@, d));
                    }
                    return Err(Error::DerivationFailed);
                },
            }
            i += 1;
        }
        let ghost color = Seq::new(NUM_VARIANTS as nat, |j: int| sets@[j]@);
        let ghost before = *self;
        self.colored_sets.push(sets);
        proof {
            assert(self.sets() =~= before.sets().push(color));
            assert(self.sets().drop_last() =~= before.sets());
            assert(self.pools() =~= before.pools());
            self.lemma_tidy_extended(&before, color);
            self.lemma_confined_kept(&before);
            let c = before.sets().len() as int;
            assert(self.sets().subrange(0, c) =~= before.sets());
            assert forall|v: int| 0 <= v < NUM_VARIANTS implies #[trigger] self.set_selected(
                c,
                v,
            ) by {
                assert(before.backed(sets@[v]@, before.sets(), v));
                self.lemma_backed_kept(&before, sets@[v]@, before.sets(), v);
            }
            if old(self).sets_selected() {
                assert forall|d: int, v: int|
                    0 <= d < self.sets().len() && 0 <= v < NUM_VARIANTS implies #[trigger]
                    self.set_selected(d, v) by {
                    if d < c {
                        assert(before.set_selected(d, v));
                        assert(self.sets().subrange(0, d) =~= before.sets().subrange(0, d));
                        self.lemma_backed_kept(
                            &before,
                            before.sets()[d][v],
                            before.sets().subrange(0, d),
                            v,
                        );
                    }
                }
            }
        }
        Ok(())
    }

    /// Takes one occurrence of `addr` out of the first pool.
    fn retire(&mut self, addr: Address)
        requires
            old(self).wf(),
            old(self).pools()[0].contains(addr),
        ensures
            final(self).wf(),
            final(self).pool_thinned(old(self), 0),
            final(self).pools()[0].len() == old(self).pools()[0].len() - 1,
            final(self).accesses() == old(self).accesses(),
            without_first(old(self).pools()[0], addr, final(self).pools()[0]),
    {
        let mut i: usize = 0;
        let n = self.addrs[0].len();
        while i < n
            invariant
                old(self).wf(),
                self == old(self),
                n == self.pools()[0].len(),
                self.pools().len() == NUM_VARIANTS,
                i <= n,
                forall|j: int| 0 <= j < i ==> self.pools()[0][j] != addr,
            decreases n - i,
        {
            if self.addrs[0][i] == addr {
                let ghost pool_before = self.pools()[0];
                let pool = &mut self.addrs[0];
                pool.remove(i);
                proof {
                    let pool_after = self.pools()[0];
                    assert(pool_after =~= without_range(pool_before, i as int, 1));
                    lemma_without_range_is_subsequence(pool_before, i as int, 1);
                    assert(self.sets() =~= old(self).sets());
                    assert(self.pools().len() == old(self).pools().len());
                    assert(self.timings() == old(self).timings());
                    assert(self.layout() == old(self).layout());
                    self.lemma_tidy_thinned(old(self), 0);
                }
                return ;
            }
            i += 1;
        }
    }

    /// Builds the first set of a new color: an eviction set for an address
    /// of the first pool, chosen at random. The addresses that the set
    /// evicts leave the pool with it, so that the addresses that stay belong
    /// to other colors. Where no prefix of the pool evicts the chosen
    /// address, that address is retired from the pool.
    fn build_initial_set(&mut self) -> (r: Result<EvictionSet, Error>)
        requires
            old(self).wf(),
        ensures
            final(self).wf(),
            final(self).pool_thinned(old(self), 0),
            r matches Ok(s) ==> s@.len() == old(self).layout().n_lines && final(self).fresh(s@, 0),
            r matches Ok(s) ==> exists|sel: Selection|
                {
                    &&& #[trigger] selected(
                        final(self).accesses(),
                        old(self).layout().n_lines as int,
                        s@,
                        sel,
                    )
                    &&& sel.start == old(self).accesses().len()
                    &&& sel.classifier == old(self).timings()
                    &&& sel.pool == old(self).pools()[0]
                    &&& sel.pool.contains(sel.addr)
                },
            exists|how: Seeding|
                {
                    &&& #[trigger] seeded(
                        old(self).accesses(),
                        final(self).accesses(),
                        old(self).timings(),
                        old(self).pools()[0],
                        final(self).pools()[0],
                        old(self).layout().n_lines as int,
                        how,
                    )
                    &&& (r matches Err(e) && e is Exhausted) <==> how is Exhausted
                    &&& (r matches Err(e) && e is NoEviction) <==> how is Retired
                    &&& r is Ok <==> sweep_complete(
                        old(self).pools()[0],
                        old(self).layout().n_lines as int,
                        how,
                    )
                    &&& r matches Ok(s) ==> s@ == how->Swept_0.outcome(
                        old(self).layout().n_lines as int,
                    )
                },
            (r matches Err(e) && e is Exhausted)
                <==> old(self).pools()[0].len() < old(self).layout().n_lines + 1,
            (r matches Err(e) && e is NoEviction) ==> exists|seed: Address, lats: Seq<Time>|
                {
                    &&& without_first(old(self).pools()[0], seed, final(self).pools()[0])
                    &&& #[trigger] selection_failed(
                        old(self).accesses(),
                        final(self).accesses(),
                        old(self).timings(),
                        old(self).pools()[0],
                        seed,
                        old(self).layout().n_lines as int,
                        Ending::NoEviction(lats),
                    )
                },
            r matches Err(e) ==> e is Exhausted || e is NoEviction || e is Transport,
            final(self).stays_confined(old(self)),
    {
        let ghost n_lines = self.layout().n_lines as int;
        let ghost pool = self.pools()[0];
        proof {
            lemma_subsequence_refl(self.pools()[0]);
        }
        let addr = match pick_one(self.addrs[0].as_slice()) {
            Some(a) => a,
            None => {
                proof {
                    self.lemma_confined_kept(old(self));
                    reveal(seeded);
                    assert(seeded(
                        old(self).accesses(),
                        self.accesses(),
                        old(self).timings(),
                        pool,
                        self.pools()[0],
                        n_lines,
                        Seeding::Exhausted,
                    ));
                }
                return Err(Error::Exhausted);
            },
        };
        proof {
            self.lemma_in_buffer();
            assert(self.all_in_buffer(self.pools()[0]));
        }
        let set = match self.build_set_for_idx_addr(0, addr) {
            Ok(set) => set,
            Err(e) => {
                let ghost end = choose|end: Ending|
                    {
                        &&& #[trigger] selection_failed(
                            old(self).accesses(),
                            self.accesses(),
                            old(self).timings(),
                            pool,
                            addr,
                            n_lines,
                            end,
                        )
                        &&& e is Exhausted <==> end is Exhausted
                        &&& e is NoEviction <==> end is NoEviction
                    };
                match e {
                    Error::NoEviction => {
                        self.retire(addr);
                        proof {
                            assert(without_first(pool, addr, self.pools()[0]));
                            let lats = end->NoEviction_0;
                            assert(selection_failed(
                                old(self).accesses(),
                                self.accesses(),
                                old(self).timings(),
                                pool,
                                addr,
                                n_lines,
                                Ending::NoEviction(lats),
                            ));
                            reveal(seeded);
                            assert(seeded(
                                old(self).accesses(),
                                self.accesses(),
                                old(self).timings(),
                                pool,
                                self.pools()[0],
                                n_lines,
                                Seeding::Retired(addr, lats),
                            ));
                        }
                        return Err(Error::NoEviction);
                    },
                    _ => {
                        proof {
                            reveal(seeded);
                            assert(self.pools() == old(self).pools());
                            if e is Exhausted {
                                assert(seeded(
                                    old(self).accesses(),
                                    self.accesses(),
                                    old(self).timings(),
                                    pool,
                                    self.pools()[0],
                                    n_lines,
                                    Seeding::Exhausted,
                                ));
                            } else {
                                assert(seeded(
                                    old(self).accesses(),
                                    self.accesses(),
                                    old(self).timings(),
                                    pool,
                                    self.pools()[0],
                                    n_lines,
                                    Seeding::Broken(addr, end),
                                ));
                            }
                        }
                        return Err(e);
                    },
                }
            },
        };
        let ghost built = *self;
        let ghost sel = choose|sel: Selection|
            {
                &&& #[trigger] selected(self.accesses(), n_lines, set@, sel)
                &&& sel.begins(
                    old(self).accesses().len() as int,
                    old(self).timings(),
                    old(self).pools()[0],
                    addr,
                )
                &&& sel.end(n_lines) == self.accesses().len()
            };
        proof {
            lemma_filter_is_subsequence(old(self).pools()[0], |a: Address| !set@.contains(a));
            lemma_homed_below(set@, 0, self.layout().v_buf as int);
        }
        let cleaned = self.cleanup_congruent(set.as_slice(), 0);
        let ghost lats = choose|lats: Seq<Time>|
            {
                &&& #[trigger] sweep_run(
                    built.accesses(),
                    self.accesses(),
                    built.timings(),
                    set@,
                    built.pools()[0],
                    self.pools()[0],
                    lats,
                )
                &&& cleaned is Ok ==> lats.len() == built.pools()[0].len()
                &&& cleaned is Err ==> lats.len() < built.pools()[0].len()
            };
        proof {
            self.lemma_tidy_thinned(&built, 0);
            self.lemma_fresh_thinned(&built, set@, 0, 0);
            lemma_subsequence_trans(self.pools()[0], built.pools()[0], old(self).pools()[0]);
            assert forall|j: int|
                0 <= j < self.pools().len() && j != 0 implies #[trigger] self.pools()[j] == old(
                self,
            ).pools()[j] by {
                assert(self.pools()[j] == built.pools()[j]);
            }
            lemma_recorded_kept(
                self.accesses(),
                built.accesses(),
                sel.start,
                sel.accesses(n_lines),
            );
            assert(built.accesses() =~= old(self).accesses() + sel.accesses(n_lines));
            reveal(seeded);
            assert(seeded(
                old(self).accesses(),
                self.accesses(),
                old(self).timings(),
                pool,
                self.pools()[0],
                n_lines,
                Seeding::Swept(sel, lats),
            ));
        }
        match cleaned {
            Ok(()) => {
                let r = Ok(set);
                assert(r matches Ok(m) && selected(self.accesses(), n_lines, m@, sel));
                r
            },
            Err(e) => Err(e),
        }
    }

    /// Refreshes the training of the classifier on `TIMING_REFRESH_FILL`
    /// addresses of the first pool, as long as the pool holds `REFRESH_FLOOR`
    /// addresses or more; with fewer, nothing is accessed and the classifier
    /// is left alone.
    fn refresh_classifier(&mut self) -> (r: Result<(), Error>)
        requires
            old(self).wf(),
        ensures
            final(self).trained_further(old(self)),
            final(self).stays_confined(old(self)),
            old(self).pools()[0].len() < REFRESH_FLOOR ==> r is Ok && final(self).accesses()
                == old(self).accesses() && final(self).timings() == old(self).timings(),
            old(self).pools()[0].len() >= REFRESH_FLOOR && r is Ok ==> exists|
                samples: Seq<Sample>,
            |
                #[trigger] training_run(
                    old(self).accesses(),
                    final(self).accesses(),
                    old(self).timings(),
                    final(self).timings(),
                    old(self).pools()[0],
                    TIMING_REFRESH_FILL as int,
                    samples,
                ),
            r matches Err(e) ==> e is Transport,
    {
        if self.addrs[0].len() >= REFRESH_FLOOR {
            self.train_classifier(TIMING_REFRESH_FILL)
        } else {
            proof {
                self.lemma_confined_kept(old(self));
            }
            Ok(())
        }
    }

    /// Reserves the work buffer, trains the classifier on
    /// `TIMINGS_INIT_FILL` addresses of the first pool, and then builds
    /// eviction sets, round after round, until there is a color for every
    /// page color of the cache. Every round ends with a refresh of the
    /// classifier on `TIMING_REFRESH_FILL` addresses, as long as the first
    /// pool holds `REFRESH_FLOOR` addresses or more. Every set that is built
    /// comes from a selection that the record of accesses holds, and every
    /// set of a variant other than the first has passed the check of its
    /// uniqueness right after. Gives up when the first training fails, when
    /// the first pool can seed no further set, when the sets of a color
    /// could not be derived in `RETRY_CNT` more tries after the first, or
    /// when the connection has failed more than `RETRY_CNT` times since the
    /// last color was added.
    fn build_sets(&mut self) -> (r: Result<(), Error>)
        requires
            old(self).wf(),
            old(self).sets_selected(),
        ensures
            final(self).wf(),
            final(self).sets_selected(),
            extends(
                final(self).accesses(),
                old(self).accesses().push(Access::Reserved(old(self).layout().v_buf)),
            ),
            final(self).layout() == old(self).layout(),
            final(self).quiet() == old(self).quiet(),
            r is Ok ==> final(self).sets().len() >= old(self).layout().n_colors,
            r is Ok && old(self).sets().len() <= old(self).layout().n_colors
                ==> final(self).sets().len() == old(self).layout().n_colors,
            r is Ok || (r matches Err(e) && e is Exhausted) ==> exists|
                first: Seq<Sample>,
                trained: TimingClassifier,
                rounds: Seq<BuildRound>,
            |
                #[trigger] build_run(
                    old(self).accesses(),
                    final(self).accesses(),
                    old(self).timings(),
                    final(self).timings(),
                    old(self).pools()[0],
                    final(self).pools()[0],
                    old(self).layout().v_buf,
                    old(self).layout().n_lines as int,
                    first,
                    trained,
                    rounds,
                ),
            (r matches Err(e) && e is DerivationFailed) ==> exists|
                set: Seq<Address>,
                ds: Seq<Derivation>,
            |
                #[trigger] final(self).gave_out(old(self).accesses().len() as int, set, ds)
                    && ds.len() == RETRY_CNT + 1,
            r matches Err(e) ==> e is Exhausted || e is DerivationFailed || e is Transport,
            (r matches Err(e) && e is Exhausted) ==> final(self).pools()[0].len() < old(
                self,
            ).layout().n_lines + 1 && final(self).sets().len() < old(self).layout().n_colors,
            old(self).sets().len() >= old(self).layout().n_colors ==> final(self).sets() == old(
                self,
            ).sets() && (r matches Err(e) ==> e is Transport),
            old(self).sets().len() < old(self).layout().n_colors && old(self).pools()[0].len()
                < old(self).layout().n_lines + 1 ==> (r matches Err(e) && (e is Exhausted || e
                is Transport)),
            old(self).pools()[0].len() == 0 ==> (r is Ok <==> old(self).sets().len() >= old(
                self,
            ).layout().n_colors) && (r matches Err(e) ==> e is Exhausted),
            final(self).stays_confined(old(self)),
    {
        let pages_to_profile = self.params.n_colors;
        self.conn.reserve(self.params.v_buf);
        self.log = Ghost(self.log@.push(Access::Reserved(self.params.v_buf)));
        proof {
            self.lemma_confined_push(old(self), Access::Reserved(self.params.v_buf));
            assert(self.accesses().subrange(0, old(self).accesses().len() as int)
                =~= old(self).accesses());
            self.lemma_sets_selected_kept(old(self));
        }
        let ghost reserved = *self;
        let first_training = self.train_classifier(TIMINGS_INIT_FILL);
        proof {
            self.lemma_sets_selected_kept(&reserved);
        }
        first_training?;
        let ghost first: Seq<Sample> = choose|samples: Seq<Sample>|
            #[trigger] training_run(
                reserved.accesses(),
                self.accesses(),
                reserved.timings(),
                self.timings(),
                reserved.pools()[0],
                TIMINGS_INIT_FILL as int,
                samples,
            );
        let ghost trained = self.timings();
        let ghost mut rounds: Seq<BuildRound> = Seq::empty();
        proof {
            assert(self.accesses() =~= reserved.accesses() + training_accesses(first)
                + build_accesses(rounds));
        }
        let mut failures: usize = 0;
        while self.colored_sets.len() < pages_to_profile
            invariant
                build_run(
                    old(self).accesses(),
                    self.accesses(),
                    old(self).timings(),
                    self.timings(),
                    old(self).pools()[0],
                    self.pools()[0],
                    old(self).layout().v_buf,
                    old(self).layout().n_lines as int,
                    first,
                    trained,
                    rounds,
                ),
                self.stays_confined(old(self)),
                extends(
                    self.accesses(),
                    old(self).accesses().push(Access::Reserved(old(self).layout().v_buf)),
                ),
                self.wf(),
                self.sets_selected(),
                self.layout() == old(self).layout(),
                self.quiet() == old(self).quiet(),
                pages_to_profile == self.layout().n_colors,
                failures <= RETRY_CNT,
                self.pools()[0].len() <= old(self).pools()[0].len(),
                old(self).sets().len() >= pages_to_profile || old(self).pools()[0].len()
                    < self.layout().n_lines + 1 ==> self.sets() == old(self).sets(),
                old(self).sets().len() <= pages_to_profile ==> self.sets().len()
                    <= pages_to_profile,
            decreases
                    pages_to_profile - self.sets().len(),
                    (RETRY_CNT - failures) + self.pools()[0].len(),
        {
            let ghost round = *self;
            let built = self.build_initial_set();
            let ghost sown = *self;
            let ghost how = choose|how: Seeding|
                {
                    &&& #[trigger] seeded(
                        round.accesses(),
                        sown.accesses(),
                        round.timings(),
                        round.pools()[0],
                        sown.pools()[0],
                        round.layout().n_lines as int,
                        how,
                    )
                    &&& (built matches Err(Error::Exhausted)) <==> how is Exhausted
                };
            proof {
                lemma_subsequence_len(self.pools()[0], round.pools()[0]);
                self.lemma_sets_selected_kept(&round);
            }
            match built {
                Ok(set) => {
                    let mut err_cnt: usize = 0;
                    let mut added = false;
                    proof {
                        let n_lines = self.layout().n_lines as int;
                        let sel = choose|sel: Selection| #[trigger]
                            selected(self.accesses(), n_lines, set@, sel);
                        assert(derived(
                            self.accesses(),
                            n_lines,
                            set@,
                            self.sets(),
                            0,
                            sel,
                            Seq::empty(),
                        ));
                    }
                    let ghost mut fails: Seq<Derivation> = Seq::empty();
                    while !added
                        invariant
                            self.sets_selected(),
                            !added ==> self.backed(set@, self.sets(), 0),
                            fails.len() == err_cnt,
                            !added ==> self.gave_out(
                                old(self).accesses().len() as int,
                                set@,
                                fails,
                            ),
                            is_subsequence(self.pools()[0], round.pools()[0]),
                            self.pools()[0] == sown.pools()[0],
                            extends(self.accesses(), sown.accesses()),
                            pages_to_profile == self.layout().n_colors,
                            old(self).sets().len() < pages_to_profile,
                            old(self).pools()[0].len() >= self.layout().n_lines + 1,
                            self.pools()[0].len() <= old(self).pools()[0].len(),
                            self.stays_confined(old(self)),
                            extends(
                                self.accesses(),
                                old(self).accesses().push(
                                    Access::Reserved(old(self).layout().v_buf),
                                ),
                            ),
                            self.wf(),
                            self.layout() == old(self).layout(),
                            self.quiet() == old(self).quiet(),
                            set@.len() == self.layout().n_lines,
                            !added ==> self.fresh(set@, 0),
                            err_cnt <= RETRY_CNT,
                            self.sets().len() == round.sets().len() + if added {
                                1nat
                            } else {
                                0nat
                            },
                            self.timings() == round.timings(),
                            extends(self.accesses(), round.accesses()),
                        decreases
                                if added {
                                    0int
                                } else {
                                    1int
                                },
                                RETRY_CNT - err_cnt,
                    {
                        let ghost tried = *self;
                        let r = self.add_sets(&set);
                        proof {
                            lemma_extends_trans(
                                self.accesses(),
                                tried.accesses(),
                                round.accesses(),
                            );
                            lemma_extends_trans(
                                self.accesses(),
                                tried.accesses(),
                                sown.accesses(),
                            );
                            if r is Err {
                                self.lemma_backed_kept(&tried, set@, self.sets(), 0);
                                let d = choose|d: Derivation| #[trigger]
                                    self.gave_up_on(&tried, set@, d);
                                lemma_derivations_extended(
                                    tried.accesses(),
                                    self.accesses(),
                                    old(self).accesses().len() as int,
                                    self.timings(),
                                    set@,
                                    self.layout().n_lines as int,
                                    self.sets(),
                                    tried.pools(),
                                    self.pools(),
                                    fails,
                                    d,
                                );
                                fails = fails.push(d);
                            }
                        }
                        match r {
                            Ok(()) => {
                                added = true;
                            },
                            Err(e) => {
                                if err_cnt >= RETRY_CNT {
                                    proof {
                                        assert(self.gave_out(
                                            old(self).accesses().len() as int,
                                            set@,
                                            fails,
                                        ));
                                    }
                                    return Err(e);
                                }
                                err_cnt += 1;
                            },
                        }
                    }
                    failures = 0;
                },
                Err(e) => {
                    match e {
                        Error::NoEviction => {},
                        Error::Exhausted => {
                            proof {
                                reveal(seeded);
                                assert(self.accesses() == round.accesses());
                                assert(self.pools()[0] == round.pools()[0]);
                                assert(build_run(
                                    old(self).accesses(),
                                    self.accesses(),
                                    old(self).timings(),
                                    self.timings(),
                                    old(self).pools()[0],
                                    self.pools()[0],
                                    old(self).layout().v_buf,
                                    old(self).layout().n_lines as int,
                                    first,
                                    trained,
                                    rounds,
                                ));
                            }
                            return Err(e);
                        },
                        _ => {
                            if failures >= RETRY_CNT {
                                return Err(e);
                            }
                            failures += 1;
                        },
                    }
                },
            }
            let ghost worked = *self;
            let refreshed = self.refresh_classifier();
            proof {
                self.lemma_sets_selected_kept(&worked);
                let step = BuildRound {
                    start: round.accesses().len() as int,
                    sown: sown.accesses().len() as int,
                    seeding: how,
                    work: worked.accesses().subrange(
                        round.accesses().len() as int,
                        worked.accesses().len() as int,
                    ),
                    before: round.pools()[0],
                    pool: worked.pools()[0],
                    trained: worked.timings(),
                    refresh: self.accesses().subrange(
                        worked.accesses().len() as int,
                        self.accesses().len() as int,
                    ),
                    refresh_ran: refreshed is Ok,
                    refreshed: self.timings(),
                };
                let longer = rounds.push(step);
                assert(longer.drop_last() =~= rounds);
                assert(worked.accesses() =~= round.accesses() + step.work);
                assert(self.accesses() =~= worked.accesses() + step.refresh);
                assert(self.accesses() =~= round.accesses() + step.accesses());
                assert(self.accesses() =~= old(self).accesses().push(
                    Access::Reserved(old(self).layout().v_buf),
                ) + training_accesses(first) + build_accesses(longer));
                if step.pool.len() >= REFRESH_FLOOR && step.refresh_ran {
                    let samples = choose|samples: Seq<Sample>|
                        #[trigger] training_run(
                            worked.accesses(),
                            self.accesses(),
                            worked.timings(),
                            self.timings(),
                            worked.pools()[0],
                            TIMING_REFRESH_FILL as int,
                            samples,
                        );
                    assert(step.refresh =~= Seq::<Access>::empty() + training_accesses(samples));
                    assert(training_run(
                        Seq::empty(),
                        step.refresh,
                        step.trained,
                        step.refreshed,
                        step.pool,
                        TIMING_REFRESH_FILL as int,
                        samples,
                    ));
                }
                assert(step.closed_as_due());
                assert forall|j: int| 0 <= j < longer.len() implies (#[trigger] longer[j]).trained
                    == built_classifier(trained, longer.subrange(0, j)) by {
                    if j < rounds.len() {
                        assert(longer.subrange(0, j) =~= rounds.subrange(0, j));
                        assert(longer[j] == rounds[j]);
                    } else {
                        assert(longer.subrange(0, j) =~= rounds);
                    }
                }
                assert forall|j: int| 0 <= j < longer.len() implies (
                #[trigger] longer[j]).closed_as_due() by {
                    if j < rounds.len() {
                        assert(longer[j] == rounds[j]);
                    }
                }
                lemma_extends_begins(
                    self.accesses(),
                    round.accesses(),
                    round.accesses().len() as int,
                );
                lemma_extends_begins(
                    self.accesses(),
                    sown.accesses(),
                    sown.accesses().len() as int,
                );
                assert(round.accesses().subrange(0, round.accesses().len() as int)
                    =~= round.accesses());
                assert(sown.accesses().subrange(0, sown.accesses().len() as int)
                    =~= sown.accesses());
                assert(step.sown_in(self.accesses(), old(self).layout().n_lines as int));
                lemma_rounds_sown_extended(
                    round.accesses(),
                    self.accesses(),
                    (old(self).accesses().len() + 1 + training_accesses(first).len()) as int,
                    old(self).layout().n_lines as int,
                    rounds,
                    step,
                );
                assert forall|j: int| 0 <= j < longer.len() implies (#[trigger] longer[j]).before
                    == built_pool(old(self).pools()[0], longer.subrange(0, j)) by {
                    if j < rounds.len() {
                        assert(longer.subrange(0, j) =~= rounds.subrange(0, j));
                        assert(longer[j] == rounds[j]);
                    } else {
                        assert(longer.subrange(0, j) =~= rounds);
                    }
                }
                rounds = longer;
            }
            match refreshed {
                Ok(()) => {},
                Err(e) => {
                    if failures >= RETRY_CNT {
                        return Err(e);
                    }
                    failures += 1;
                },
            }
        }
        Ok(())
    }

    /// Creates an engine for the given cache and builds all its eviction
    /// sets: a color for every page color of the cache, with a set for each
    /// variant. The work buffer is reserved before anything is accessed, and
    /// no access goes beyond it. The classifier is trained right after the
    /// reservation and refreshed after every round of the construction while
    /// the first pool is large enough: see [`Rpp::built_by`]. Every set
    /// comes from a selection that the record of accesses holds: see
    /// [`Rpp::sets_selected`]. The construction gives up when the first
    /// training fails, when the first pool can seed no further set, when the
    /// sets of a color could not be derived in `RETRY_CNT` more tries after
    /// the first, or when the connection has failed more than `RETRY_CNT`
    /// times since the last color was added. A cache without page colors
    /// needs no set, so that only the training can fail; a buffer without a
    /// page is not accessed at all, and seeds no set. `quite` tells whether
    /// progress is not to be reported.
    pub fn with_params(conn: C, quite: bool, cparams: CacheParams) -> (r: Result<Rpp<C>, Error>)
        ensures
            r matches Ok(rpp) ==> rpp.wf() && rpp.confined() && rpp.layout() == RppParams::of(
                cparams@,
            ) && rpp.quiet() == quite && rpp.sets().len() == RppParams::of(cparams@).n_colors,
            r matches Ok(rpp) ==> rpp.accesses().len() > 0 && rpp.accesses()[0]
                == Access::Reserved(RppParams::of(cparams@).v_buf),
            r matches Ok(rpp) ==> rpp.sets_selected(),
            r matches Ok(rpp) ==> exists|
                untrained: TimingClassifier,
                first: Seq<Sample>,
                trained: TimingClassifier,
                rounds: Seq<BuildRound>,
            | #[trigger] rpp.built_by(untrained, first, trained, rounds),
            (r matches Err(e) && e is Exhausted) ==> exists|
                rpp: Rpp<C>,
                untrained: TimingClassifier,
                first: Seq<Sample>,
                trained: TimingClassifier,
                rounds: Seq<BuildRound>,
            | #[trigger] rpp.ran_dry(RppParams::of(cparams@), untrained, first, trained, rounds),
            (r matches Err(e) && e is DerivationFailed) ==> exists|
                rpp: Rpp<C>,
                set: Seq<Address>,
                ds: Seq<Derivation>,
            | #[trigger] rpp.abandoned(RppParams::of(cparams@), set, ds),
            r matches Err(e) ==> e is Exhausted || e is DerivationFailed || e is Transport,
            RppParams::of(cparams@).n_colors == 0 ==> (r matches Err(e) ==> e is Transport),
            RppParams::of(cparams@).n_colors > 0 && RppParams::of(cparams@).v_buf / PAGE_SIZE
                < RppParams::of(cparams@).n_lines + 1 ==> (r matches Err(e) && (e is Exhausted || e
                is Transport)),
            RppParams::of(cparams@).v_buf / PAGE_SIZE == 0 ==> (r is Ok <==> RppParams::of(
                cparams@,
            ).n_colors == 0) && (r matches Err(e) ==> e is Exhausted),
    {
        let classifier = TimingClassifier::new();
        let params = cparams.quantities();
        let pages = params.v_buf / PAGE_SIZE;
        let mut addrs: Vec<Vec<Address>> = Vec::with_capacity(NUM_VARIANTS);
        let mut i: usize = 0;
        while i < NUM_VARIANTS
            invariant
                i <= NUM_VARIANTS,
                addrs@.len() == i,
                pages * PAGE_SIZE <= usize::MAX,
                forall|j: int| 0 <= j < i ==> homed((#[trigger] addrs@[j])@, j, pages * PAGE_SIZE),
                i > 0 ==> addrs@[0]@ == Seq::new(
                    pages as nat,
                    |x: int| variant_of_page(x as usize, 0),
                ),
            decreases NUM_VARIANTS - i,
        {
            addrs.push(page_offsets(pages, i));
            i += 1;
        }
        let mut rpp = Rpp {
            params,
            conn,
            colored_sets: Vec::with_capacity(params.n_colors),
            addrs,
            classifier,
            quite,
            log: Ghost(Seq::empty()),
        };
        proof {
            assert(rpp.sets() =~= Seq::empty());
            assert(rpp.confined());
            CacheParams::lemma_whole_pages(cparams@);
        }
        let ghost fresh = rpp;
        proof {
            assert(fresh.pools()[0].len() == pages);
        }
        match rpp.build_sets() {
            Ok(()) => {},
            Err(e) => {
                proof {
                    if e is DerivationFailed {
                        let (set, ds) = choose|set: Seq<Address>, ds: Seq<Derivation>|
                            #[trigger] rpp.gave_out(fresh.accesses().len() as int, set, ds)
                                && ds.len() == RETRY_CNT + 1;
                        assert(rpp.abandoned(RppParams::of(cparams@), set, ds));
                    }
                    if e is Exhausted {
                        let (first, trained, rounds) = choose|
                            first: Seq<Sample>,
                            trained: TimingClassifier,
                            rounds: Seq<BuildRound>,
                        |
                            #[trigger] build_run(
                                fresh.accesses(),
                                rpp.accesses(),
                                fresh.timings(),
                                rpp.timings(),
                                fresh.pools()[0],
                                rpp.pools()[0],
                                fresh.layout().v_buf,
                                fresh.layout().n_lines as int,
                                first,
                                trained,
                                rounds,
                            );
                        assert(fresh.pools()[0] =~= Seq::new(
                            (params.v_buf / PAGE_SIZE) as nat,
                            |x: int| variant_of_page(x as usize, 0),
                        ));
                        assert(fresh.accesses() =~= Seq::empty());
                        assert(rpp.built_by(fresh.timings(), first, trained, rounds));
                        assert(rpp.ran_dry(
                            RppParams::of(cparams@),
                            fresh.timings(),
                            first,
                            trained,
                            rounds,
                        ));
                    }
                }
                return Err(e);
            },
        }
        let ghost untrained = fresh.timings();
        let ghost (first, trained, rounds) = choose|
                first: Seq<Sample>,
                trained: TimingClassifier,
                rounds: Seq<BuildRound>,
            |
                #[trigger] build_run(
                    fresh.accesses(),
                    rpp.accesses(),
                    fresh.timings(),
                    rpp.timings(),
                    fresh.pools()[0],
                    rpp.pools()[0],
                    fresh.layout().v_buf,
                    fresh.layout().n_lines as int,
                    first,
                    trained,
                    rounds,
                );
        proof {
            let reserved = Seq::<Access>::empty().push(Access::Reserved(params.v_buf));
            assert(rpp.accesses().subrange(0, 1)[0] == reserved[0]);
            assert(fresh.pools()[0] =~= Seq::new(
                (params.v_buf / PAGE_SIZE) as nat,
                |x: int| variant_of_page(x as usize, 0),
            ));
            assert(fresh.accesses() =~= Seq::empty());
        }
        let r = Ok(rpp);
        assert(r matches Ok(made) && made.built_by(untrained, first, trained, rounds));
        r
    }

    /// Creates an engine for the default cache: see [`Rpp::with_params`].
    pub fn new(conn: C, quite: bool) -> (r: Result<Rpp<C>, Error>)
        ensures
            r matches Ok(rpp) ==> rpp.wf() && rpp.confined() && rpp.quiet() == quite
                && rpp.layout() == RppParams::of(
                CacheParams::geometry(64, 12, 12, 6_291_456, 5000),
            ) && rpp.sets().len() == 128,
            r matches Ok(rpp) ==> rpp.sets_selected(),
            r matches Ok(rpp) ==> exists|
                untrained: TimingClassifier,
                first: Seq<Sample>,
                trained: TimingClassifier,
                rounds: Seq<BuildRound>,
            | #[trigger] rpp.built_by(untrained, first, trained, rounds),
            (r matches Err(e) && e is Exhausted) ==> exists|
                rpp: Rpp<C>,
                untrained: TimingClassifier,
                first: Seq<Sample>,
                trained: TimingClassifier,
                rounds: Seq<BuildRound>,
            |
                #[trigger] rpp.ran_dry(
                    RppParams::of(CacheParams::geometry(64, 12, 12, 6_291_456, 5000)),
                    untrained,
                    first,
                    trained,
                    rounds,
                ),
            (r matches Err(e) && e is DerivationFailed) ==> exists|
                rpp: Rpp<C>,
                set: Seq<Address>,
                ds: Seq<Derivation>,
            |
                #[trigger] rpp.abandoned(
                    RppParams::of(CacheParams::geometry(64, 12, 12, 6_291_456, 5000)),
                    set,
                    ds,
                ),
            r matches Err(e) ==> e is Exhausted || e is DerivationFailed || e is Transport,
    {
        Self::with_params(conn, quite, core_i7())
    }
}

} // verus!
