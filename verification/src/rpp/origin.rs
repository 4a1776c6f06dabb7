//! Where a set comes from: the selection that made it, and the check of its
//! uniqueness, found again in the record of accesses.
use crate::connection::{Address, Time};
use crate::rpp::accesses::{
    first_miss_is_last, forward_break, forward_checks, narrowed, narrowing_break,
    narrowing_checks, no_miss, round_complete, sweep_run, trial_against, trial_collides,
    uniqueness_break, uniqueness_checks, uniqueness_run, Access, Trial,
};
use crate::rpp::selection::first_candidates;
use crate::rpp::sequence::{
    extends, is_subsequence, lemma_subsequence_refl, lemma_subsequence_trans, without_first,
};
use crate::rpp::{CTL_BIT, NUM_VARIANTS};
use crate::rpp::timing_classif::TimingClassifier;
use vstd::prelude::*;

verus! {

/// The selection of one set: what it began with, and what its checks
/// measured.
pub ghost struct Selection {
    /// The number of accesses made before the selection.
    pub start: int,
    /// The classifier that judged the timings.
    pub classifier: TimingClassifier,
    /// The pool that the set was taken from.
    pub pool: Seq<Address>,
    /// The address that the set was built to evict.
    pub addr: Address,
    /// What the checks of the forward selection measured.
    pub lats: Seq<Time>,
    /// What the checks of each round of the backward selection measured.
    pub rounds: Seq<Seq<Time>>,
}

impl Selection {
    /// The size of the first prefix of the pool that was checked.
    pub open spec fn first_len(self, n_lines: int) -> int {
        first_candidates(self.pool.len() as int, n_lines) - 1
    }

    /// The prefix of the pool that the forward selection ended with.
    pub open spec fn widest(self, n_lines: int) -> Seq<Address> {
        self.pool.subrange(0, self.first_len(n_lines) + self.lats.len() - 1)
    }

    /// The accesses of the selection: those of the forward selection, then
    /// those of the backward selection.
    pub open spec fn accesses(self, n_lines: int) -> Seq<Access> {
        forward_checks(self.pool, self.addr, self.first_len(n_lines), self.lats) + narrowing_checks(
            self.classifier,
            self.widest(n_lines),
            self.addr,
            n_lines,
            self.rounds,
        )
    }

    /// The set that the selection ended with.
    pub open spec fn outcome(self, n_lines: int) -> Seq<Address> {
        narrowed(self.classifier, self.widest(n_lines), n_lines, self.rounds)
    }

    /// The selection ran as it is due. The pool had an address more than a
    /// set has ways. The forward selection stopped at the first prefix that
    /// was seen to evict the address, within the pool without its last
    /// address. Every round of the backward selection went on to the first
    /// chunk without which the address was still seen to be evicted, or
    /// through as many chunks as a set has ways. What was left has as many
    /// addresses as a set has ways.
    pub open spec fn sound(self, n_lines: int) -> bool {
        &&& self.pool.len() >= n_lines + 1
        &&& self.first_len(n_lines) + self.lats.len() <= self.pool.len()
        &&& first_miss_is_last(self.classifier, self.lats)
        &&& forall|j: int|
            0 <= j < self.rounds.len() ==> round_complete(
                self.classifier,
                #[trigger] self.rounds[j],
                n_lines,
            )
        &&& self.outcome(n_lines).len() == n_lines
    }

    /// The selection began after `start` accesses, with this classifier,
    /// this pool and this address to evict.
    pub open spec fn begins(
        self,
        start: int,
        classifier: TimingClassifier,
        pool: Seq<Address>,
        addr: Address,
    ) -> bool {
        self.start == start && self.classifier == classifier && self.pool == pool && self.addr
            == addr
    }

    /// The number of accesses made when the selection was over.
    pub open spec fn end(self, n_lines: int) -> int {
        self.start + self.accesses(n_lines).len()
    }
}

/// `part` stands in `accesses` from position `start` on.
pub open spec fn recorded_at(accesses: Seq<Access>, start: int, part: Seq<Access>) -> bool {
    0 <= start && start + part.len() <= accesses.len() && accesses.subrange(
        start,
        start + part.len(),
    ) =~= part
}

/// `set` is what the selection `sel` ended with, and the record `accesses`
/// holds the accesses of that selection.
pub open spec fn selected(
    accesses: Seq<Access>,
    n_lines: int,
    set: Seq<Address>,
    sel: Selection,
) -> bool {
    &&& sel.sound(n_lines)
    &&& recorded_at(accesses, sel.start, sel.accesses(n_lines))
    &&& set == sel.outcome(n_lines)
}

/// From position `start` on, the record `accesses` holds a check of the
/// uniqueness of `set` against the sets of variant `idx` of every color of
/// `sets`, with the trials `trials`, and no trial found `set` to collide.
pub open spec fn passed_uniqueness(
    accesses: Seq<Access>,
    start: int,
    classifier: TimingClassifier,
    set: Seq<Address>,
    sets: Seq<Seq<Seq<Address>>>,
    idx: int,
    trials: Seq<Trial>,
) -> bool {
    &&& recorded_at(accesses, start, uniqueness_checks(set, trials))
    &&& trials.len() == sets.len()
    &&& forall|c: int| 0 <= c < trials.len() ==> trial_against(sets[c][idx], #[trigger] trials[c])
    &&& forall|c: int| 0 <= c < trials.len() ==> !trial_collides(classifier, #[trigger] trials[c])
}

/// `set`, a set of variant `idx`, is what the selection `sel` ended with.
/// Where `idx` is not 0, its uniqueness against the colors of `sets` was
/// checked right after the selection, with the trials `trials`, and it
/// passed.
pub open spec fn derived(
    accesses: Seq<Access>,
    n_lines: int,
    set: Seq<Address>,
    sets: Seq<Seq<Seq<Address>>>,
    idx: int,
    sel: Selection,
    trials: Seq<Trial>,
) -> bool {
    &&& selected(accesses, n_lines, set, sel)
    &&& idx != 0 ==> passed_uniqueness(
        accesses,
        sel.end(n_lines),
        sel.classifier,
        set,
        sets,
        idx,
        trials,
    )
}

/// What a record holds at a position, a longer record holds there too.
pub proof fn lemma_recorded_kept(
    later: Seq<Access>,
    accesses: Seq<Access>,
    start: int,
    part: Seq<Access>,
)
    requires
        recorded_at(accesses, start, part),
        extends(later, accesses),
    ensures
        recorded_at(later, start, part),
{
    assert forall|i: int| 0 <= i < part.len() implies later.subrange(start, start + part.len())[i]
        == part[i] by {
        assert(later.subrange(0, accesses.len() as int)[start + i] == accesses[start + i]);
        assert(accesses.subrange(start, start + part.len())[i] == accesses[start + i]);
    }
}

/// A set that is known to come from a selection, and to have passed its
/// check, by a record of accesses is known so by every longer record.
pub proof fn lemma_derived_kept(
    later: Seq<Access>,
    accesses: Seq<Access>,
    n_lines: int,
    set: Seq<Address>,
    sets: Seq<Seq<Seq<Address>>>,
    idx: int,
    sel: Selection,
    trials: Seq<Trial>,
)
    requires
        derived(accesses, n_lines, set, sets, idx, sel, trials),
        extends(later, accesses),
    ensures
        derived(later, n_lines, set, sets, idx, sel, trials),
{
    lemma_recorded_kept(later, accesses, sel.start, sel.accesses(n_lines));
    if idx != 0 {
        lemma_recorded_kept(later, accesses, sel.end(n_lines), uniqueness_checks(set, trials));
    }
}

/// How the selection of a set for one seed ended without a set.
pub ghost enum Ending {
    /// The pool held fewer addresses than a set has ways, and one more:
    /// nothing was accessed.
    Exhausted,
    /// No prefix of the pool was seen to evict the seed; the checks
    /// measured these latencies.
    NoEviction(Seq<Time>),
    /// The connection failed in the forward selection, after the checks
    /// that measured these latencies and so many accesses of the next
    /// check.
    ForwardBroken(Seq<Time>, int),
    /// The connection failed in the backward selection: after the forward
    /// checks that measured the first latencies, the rounds that measured
    /// the second, and, in the round after them, the checks that measured
    /// the third and so many accesses of the next check.
    BackwardBroken(Seq<Time>, Seq<Seq<Time>>, Seq<Time>, int),
}

/// A selection for `seed` on `pool` has been run since `before` and ended
/// without a set, in the way that `end` tells.
pub open spec fn selection_failed(
    before: Seq<Access>,
    after: Seq<Access>,
    classifier: TimingClassifier,
    pool: Seq<Address>,
    seed: Address,
    n_lines: int,
    end: Ending,
) -> bool {
    let from = first_candidates(pool.len() as int, n_lines) - 1;
    match end {
        Ending::Exhausted => pool.len() < n_lines + 1 && after == before,
        Ending::NoEviction(lats) => {
            &&& pool.len() >= n_lines + 1
            &&& after == before + forward_checks(pool, seed, from, lats)
            &&& from + lats.len() == pool.len()
            &&& no_miss(classifier, lats)
        },
        Ending::ForwardBroken(lats, done) => {
            &&& pool.len() >= n_lines + 1
            &&& forward_break(before, after, pool, seed, from, lats, done)
            &&& no_miss(classifier, lats)
        },
        Ending::BackwardBroken(lats, rounds, last, done) => {
            &&& pool.len() >= n_lines + 1
            &&& from + lats.len() <= pool.len()
            &&& first_miss_is_last(classifier, lats)
            &&& narrowing_break(
                before + forward_checks(pool, seed, from, lats),
                after,
                classifier,
                pool.subrange(0, from + lats.len() - 1),
                seed,
                n_lines,
                rounds,
                last,
                done,
            )
        },
    }
}

/// How the attempt at a set for one seed, with a check of its uniqueness,
/// ended without a set.
pub ghost enum Fate {
    /// No set was selected.
    Unselected(Ending),
    /// The set of this selection holds no address, so that its uniqueness
    /// cannot be checked.
    Unchecked(Selection),
    /// The set of this selection was found to collide with a set that is
    /// there already, by the last of these trials.
    Collided(Selection, Seq<Trial>),
    /// The connection failed in the check of the uniqueness of the set of
    /// this selection: after these trials, and, in the trial after them,
    /// the checks of the given trial and so many accesses of the next
    /// check.
    CheckBroken(Selection, Seq<Trial>, Trial, int),
}

/// One attempt at a set for a seed: the part of the record of accesses that
/// it fills, the pool before it and after it, and its fate.
pub ghost struct Attempt {
    /// The number of accesses made before the attempt.
    pub start: int,
    /// The number of accesses made when the attempt was over.
    pub end: int,
    /// The pool that the attempt began with.
    pub pool: Seq<Address>,
    /// The pool that the attempt has left.
    pub left: Seq<Address>,
    /// How the attempt ended.
    pub fate: Fate,
}

impl Attempt {
    /// The record `accesses` holds the attempt, made for `seed` while the
    /// colors `sets` were there, and it ended without a set as its fate
    /// tells. A set that was selected has left the pool, whatever became of
    /// it.
    #[verifier::opaque]
    pub open spec fn failed(
        self,
        accesses: Seq<Access>,
        classifier: TimingClassifier,
        seed: Address,
        n_lines: int,
        sets: Seq<Seq<Seq<Address>>>,
        idx: int,
    ) -> bool {
        &&& 0 <= self.start <= self.end <= accesses.len()
        &&& match self.fate {
            Fate::Unselected(end) => {
                &&& selection_failed(
                    accesses.subrange(0, self.start),
                    accesses.subrange(0, self.end),
                    classifier,
                    self.pool,
                    seed,
                    n_lines,
                    end,
                )
                &&& self.left == self.pool
            },
            Fate::Unchecked(sel) => {
                &&& sel.begins(self.start, classifier, self.pool, seed)
                &&& selected(accesses, n_lines, sel.outcome(n_lines), sel)
                &&& sel.end(n_lines) == self.end
                &&& sel.outcome(n_lines).len() == 0
                &&& self.left == self.pool.filter(|a: Address| !sel.outcome(n_lines).contains(a))
            },
            Fate::Collided(sel, trials) => {
                &&& sel.begins(self.start, classifier, self.pool, seed)
                &&& selected(accesses, n_lines, sel.outcome(n_lines), sel)
                &&& sel.end(n_lines) <= self.end
                &&& uniqueness_run(
                    accesses.subrange(0, sel.end(n_lines)),
                    accesses.subrange(0, self.end),
                    classifier,
                    sel.outcome(n_lines),
                    sets,
                    idx,
                    trials,
                )
                &&& trials.len() > 0
                &&& trial_collides(classifier, trials.last())
                &&& self.left == self.pool.filter(|a: Address| !sel.outcome(n_lines).contains(a))
            },
            Fate::CheckBroken(sel, trials, last, done) => {
                &&& sel.begins(self.start, classifier, self.pool, seed)
                &&& selected(accesses, n_lines, sel.outcome(n_lines), sel)
                &&& sel.end(n_lines) <= self.end
                &&& uniqueness_break(
                    accesses.subrange(0, sel.end(n_lines)),
                    accesses.subrange(0, self.end),
                    classifier,
                    sel.outcome(n_lines),
                    sets,
                    idx,
                    trials,
                    last,
                    done,
                )
                &&& self.left == self.pool.filter(|a: Address| !sel.outcome(n_lines).contains(a))
            },
        }
    }
}

/// The addresses of `set` moved to the variant `variant`, which are the
/// seeds of the set of that variant.
pub open spec fn seeds_of(set: Seq<Address>, variant: usize) -> Seq<Address> {
    Seq::new(set.len(), |k: int| set[k] ^ (variant << CTL_BIT))
}

/// The derivation of the set of one variant of a color: an attempt for each
/// seed, one after the other.
pub ghost struct Derivation {
    /// The variant whose set was to be derived.
    pub variant: usize,
    /// The number of accesses made before the derivation.
    pub start: int,
    /// The number of accesses made when the derivation was over.
    pub end: int,
    /// The pool of the variant before the derivation.
    pub pool: Seq<Address>,
    /// The pool of the variant after the derivation.
    pub left: Seq<Address>,
    /// The attempts, seed by seed.
    pub attempts: Seq<Attempt>,
}

/// The record `accesses` holds the derivation `d` of a set from the
/// addresses of `set`, and it has failed: there was an attempt for every
/// address of `set`, moved to the variant, each began where the one before
/// had ended, in the record and with the pool, and each ended without a set.
#[verifier::opaque]
pub open spec fn derivation_failed(
    accesses: Seq<Access>,
    classifier: TimingClassifier,
    set: Seq<Address>,
    n_lines: int,
    sets: Seq<Seq<Seq<Address>>>,
    d: Derivation,
) -> bool {
    &&& 1 <= d.variant < NUM_VARIANTS
    &&& 0 <= d.start <= d.end <= accesses.len()
    &&& d.attempts.len() == set.len()
    &&& forall|k: int|
        0 <= k < d.attempts.len() ==> (#[trigger] d.attempts[k]).failed(
            accesses,
            classifier,
            seeds_of(set, d.variant)[k],
            n_lines,
            sets,
            d.variant as int,
        )
    &&& forall|k: int|
        0 <= k < d.attempts.len() ==> (#[trigger] d.attempts[k]).start == (if k == 0 {
            d.start
        } else {
            d.attempts[k - 1].end
        }) && d.attempts[k].pool == (if k == 0 {
            d.pool
        } else {
            d.attempts[k - 1].left
        })
    &&& d.end == (if d.attempts.len() == 0 {
        d.start
    } else {
        d.attempts.last().end
    })
    &&& d.left == (if d.attempts.len() == 0 {
        d.pool
    } else {
        d.attempts.last().left
    })
}

/// A longer record begins as the record that it extends.
pub proof fn lemma_extends_begins(later: Seq<Access>, accesses: Seq<Access>, k: int)
    requires
        extends(later, accesses),
        0 <= k <= accesses.len(),
    ensures
        later.subrange(0, k) == accesses.subrange(0, k),
{
    assert forall|i: int| 0 <= i < k implies later.subrange(0, k)[i] == accesses.subrange(0, k)[i] by {
        assert(later.subrange(0, accesses.len() as int)[i] == accesses[i]);
    }
    assert(later.subrange(0, k) =~= accesses.subrange(0, k));
}

/// An attempt that a record holds, a longer record holds too.
pub proof fn lemma_attempt_kept(
    later: Seq<Access>,
    accesses: Seq<Access>,
    a: Attempt,
    classifier: TimingClassifier,
    seed: Address,
    n_lines: int,
    sets: Seq<Seq<Seq<Address>>>,
    idx: int,
)
    requires
        a.failed(accesses, classifier, seed, n_lines, sets, idx),
        extends(later, accesses),
    ensures
        a.failed(later, classifier, seed, n_lines, sets, idx),
{
    reveal(Attempt::failed);
    lemma_extends_begins(later, accesses, a.start);
    lemma_extends_begins(later, accesses, a.end);
    match a.fate {
        Fate::Unselected(_) => {},
        Fate::Unchecked(sel) => {
            lemma_recorded_kept(later, accesses, sel.start, sel.accesses(n_lines));
        },
        Fate::Collided(sel, _) => {
            lemma_extends_begins(later, accesses, sel.end(n_lines));
            lemma_recorded_kept(later, accesses, sel.start, sel.accesses(n_lines));
        },
        Fate::CheckBroken(sel, _, _, _) => {
            lemma_extends_begins(later, accesses, sel.end(n_lines));
            lemma_recorded_kept(later, accesses, sel.start, sel.accesses(n_lines));
        },
    }
}

/// A failed derivation that a record holds, a longer record holds too.
pub proof fn lemma_derivation_kept(
    later: Seq<Access>,
    accesses: Seq<Access>,
    classifier: TimingClassifier,
    set: Seq<Address>,
    n_lines: int,
    sets: Seq<Seq<Seq<Address>>>,
    d: Derivation,
)
    requires
        derivation_failed(accesses, classifier, set, n_lines, sets, d),
        extends(later, accesses),
    ensures
        derivation_failed(later, classifier, set, n_lines, sets, d),
{
    reveal(derivation_failed);
    assert forall|k: int| 0 <= k < d.attempts.len() implies (#[trigger] d.attempts[k]).failed(
        later,
        classifier,
        seeds_of(set, d.variant)[k],
        n_lines,
        sets,
        d.variant as int,
    ) by {
        lemma_attempt_kept(
            later,
            accesses,
            d.attempts[k],
            classifier,
            seeds_of(set, d.variant)[k],
            n_lines,
            sets,
            d.variant as int,
        );
    }
}

/// A selection that ended without a set is an attempt that failed.
pub proof fn lemma_unselected(
    before: Seq<Access>,
    accesses: Seq<Access>,
    classifier: TimingClassifier,
    pool: Seq<Address>,
    seed: Address,
    n_lines: int,
    sets: Seq<Seq<Seq<Address>>>,
    idx: int,
    end: Ending,
)
    requires
        selection_failed(before, accesses, classifier, pool, seed, n_lines, end),
        extends(accesses, before),
    ensures
        (Attempt {
            start: before.len() as int,
            end: accesses.len() as int,
            pool,
            left: pool,
            fate: Fate::Unselected(end),
        }).failed(accesses, classifier, seed, n_lines, sets, idx),
{
    reveal(Attempt::failed);
    assert(accesses.subrange(0, before.len() as int) =~= before);
    assert(accesses.subrange(0, accesses.len() as int) =~= accesses);
}

/// A selection whose set was then found to collide, or could not be
/// checked, is an attempt that failed.
pub proof fn lemma_unkept(
    built: Seq<Access>,
    accesses: Seq<Access>,
    classifier: TimingClassifier,
    pool: Seq<Address>,
    seed: Address,
    n_lines: int,
    sets: Seq<Seq<Seq<Address>>>,
    idx: int,
    sel: Selection,
    set: Seq<Address>,
    fate: Fate,
)
    requires
        selected(built, n_lines, set, sel),
        sel.classifier == classifier,
        sel.pool == pool,
        sel.addr == seed,
        sel.end(n_lines) == built.len(),
        extends(accesses, built),
        match fate {
            Fate::Unselected(_) => false,
            Fate::Unchecked(s) => s == sel && set.len() == 0 && accesses == built,
            Fate::Collided(s, trials) => s == sel && uniqueness_run(
                built,
                accesses,
                classifier,
                set,
                sets,
                idx,
                trials,
            ) && trials.len() > 0 && trial_collides(classifier, trials.last()),
            Fate::CheckBroken(s, trials, last, done) => s == sel && uniqueness_break(
                built,
                accesses,
                classifier,
                set,
                sets,
                idx,
                trials,
                last,
                done,
            ),
        },
    ensures
        (Attempt {
            start: sel.start,
            end: accesses.len() as int,
            pool,
            left: pool.filter(|a: Address| !set.contains(a)),
            fate,
        }).failed(accesses, classifier, seed, n_lines, sets, idx),
{
    reveal(Attempt::failed);
    lemma_recorded_kept(accesses, built, sel.start, sel.accesses(n_lines));
    assert(accesses.subrange(0, built.len() as int) =~= built);
    assert(accesses.subrange(0, accesses.len() as int) =~= accesses);
    assert(set == sel.outcome(n_lines));
}

/// A failed derivation goes on with one more attempt that failed.
pub proof fn lemma_derivation_extended(
    before: Seq<Access>,
    accesses: Seq<Access>,
    classifier: TimingClassifier,
    set: Seq<Address>,
    k: int,
    n_lines: int,
    sets: Seq<Seq<Seq<Address>>>,
    d: Derivation,
    a: Attempt,
)
    requires
        0 <= k < set.len(),
        derivation_failed(before, classifier, set.subrange(0, k), n_lines, sets, d),
        extends(accesses, before),
        a.failed(accesses, classifier, seeds_of(set, d.variant)[k], n_lines, sets, d.variant as int),
        a.start == d.end,
        a.pool == d.left,
        a.end == accesses.len(),
    ensures
        derivation_failed(
            accesses,
            classifier,
            set.subrange(0, k + 1),
            n_lines,
            sets,
            Derivation { end: a.end, left: a.left, attempts: d.attempts.push(a), ..d },
        ),
{
    let seeds = set.subrange(0, k);
    let more = set.subrange(0, k + 1);
    let longer = d.attempts.push(a);
    let e = Derivation { end: a.end, left: a.left, attempts: longer, ..d };
    lemma_derivation_kept(accesses, before, classifier, seeds, n_lines, sets, d);
    reveal(derivation_failed);
    assert(d.attempts.len() == k);
    assert(longer.len() == k + 1);
    assert(longer.last() == a);
    assert(more.len() == k + 1);
    assert forall|j: int| 0 <= j < longer.len() implies (#[trigger] longer[j]).failed(
        accesses,
        classifier,
        seeds_of(more, e.variant)[j],
        n_lines,
        sets,
        e.variant as int,
    ) by {
        if j < k {
            assert(longer[j] == d.attempts[j]);
            assert(seeds_of(more, d.variant)[j] == seeds_of(seeds, d.variant)[j]);
        } else {
            assert(longer[j] == a);
            assert(seeds_of(more, d.variant)[j] == seeds_of(set, d.variant)[k]);
        }
    }
    assert forall|j: int| 0 <= j < longer.len() implies (#[trigger] longer[j]).start == (if j
        == 0 {
        e.start
    } else {
        longer[j - 1].end
    }) && longer[j].pool == (if j == 0 {
        e.pool
    } else {
        longer[j - 1].left
    }) by {
        if j < k {
            assert(longer[j] == d.attempts[j]);
            if j > 0 {
                assert(longer[j - 1] == d.attempts[j - 1]);
            }
        } else {
            assert(longer[j] == a);
            if j > 0 {
                assert(longer[j - 1] == d.attempts[k - 1]);
                assert(d.attempts.last() == d.attempts[k - 1]);
            }
        }
    }
    assert(0 <= e.start <= e.end <= accesses.len()) by {
        reveal(Attempt::failed);
    }
}

/// The record `accesses` holds, from position `from` on, the derivations
/// `ds`, one after the other, each of a set from the addresses of `set`, and
/// every one of them has failed. The pool that each of them has left holds
/// all that the pool of its variant holds in `pools`, and the last one has
/// left that pool, with the last access of the record.
pub open spec fn derivations_failed(
    accesses: Seq<Access>,
    from: int,
    classifier: TimingClassifier,
    set: Seq<Address>,
    n_lines: int,
    sets: Seq<Seq<Seq<Address>>>,
    pools: Seq<Seq<Address>>,
    ds: Seq<Derivation>,
) -> bool {
    &&& pools.len() == NUM_VARIANTS
    &&& forall|k: int|
        0 <= k < ds.len() ==> derivation_failed(
            accesses,
            classifier,
            set,
            n_lines,
            sets,
            #[trigger] ds[k],
        )
    &&& forall|k: int|
        0 <= k < ds.len() ==> from <= (#[trigger] ds[k]).start && (k + 1 < ds.len() ==> ds[k].end
            <= ds[k + 1].start)
    &&& forall|k: int|
        0 <= k < ds.len() ==> (#[trigger] ds[k]).variant < NUM_VARIANTS && is_subsequence(
            pools[ds[k].variant as int],
            ds[k].left,
        )
    &&& ds.len() > 0 ==> ds.last().end == accesses.len() && ds.last().left
        == pools[ds.last().variant as int]
}

/// Derivations that failed go on with one more that failed.
pub proof fn lemma_derivations_extended(
    before: Seq<Access>,
    accesses: Seq<Access>,
    from: int,
    classifier: TimingClassifier,
    set: Seq<Address>,
    n_lines: int,
    sets: Seq<Seq<Seq<Address>>>,
    pools_before: Seq<Seq<Address>>,
    pools: Seq<Seq<Address>>,
    ds: Seq<Derivation>,
    d: Derivation,
)
    requires
        derivations_failed(before, from, classifier, set, n_lines, sets, pools_before, ds),
        extends(accesses, before),
        derivation_failed(accesses, classifier, set, n_lines, sets, d),
        from <= before.len() <= d.start,
        d.end == accesses.len(),
        pools.len() == NUM_VARIANTS,
        d.variant < NUM_VARIANTS,
        d.left == pools[d.variant as int],
        forall|j: int| 0 <= j < NUM_VARIANTS ==> is_subsequence(#[trigger] pools[j], pools_before[j]),
    ensures
        derivations_failed(accesses, from, classifier, set, n_lines, sets, pools, ds.push(d)),
{
    let longer = ds.push(d);
    assert forall|k: int| 0 <= k < longer.len() implies derivation_failed(
        accesses,
        classifier,
        set,
        n_lines,
        sets,
        #[trigger] longer[k],
    ) by {
        if k < ds.len() {
            assert(longer[k] == ds[k]);
            lemma_derivation_kept(accesses, before, classifier, set, n_lines, sets, ds[k]);
        }
    }
    assert forall|k: int| 0 <= k < longer.len() implies from <= (#[trigger] longer[k]).start && (k
        + 1 < longer.len() ==> longer[k].end <= longer[k + 1].start) by {
        if k < ds.len() {
            assert(longer[k] == ds[k]);
            if k + 1 < ds.len() {
                assert(longer[k + 1] == ds[k + 1]);
            } else {
                assert(ds[k] == ds.last());
            }
        }
    }
    assert forall|k: int| 0 <= k < longer.len() implies (#[trigger] longer[k]).variant
        < NUM_VARIANTS && is_subsequence(pools[longer[k].variant as int], longer[k].left) by {
        if k < ds.len() {
            assert(longer[k] == ds[k]);
            let v = ds[k].variant as int;
            lemma_subsequence_trans(pools[v], pools_before[v], ds[k].left);
        } else {
            lemma_subsequence_refl(d.left);
        }
    }
}

/// What became of the attempt to seed a color: to build its first set for
/// an address of the first pool, and to sweep the pool with that set.
pub ghost enum Seeding {
    /// The pool held fewer addresses than a set has ways, and one more:
    /// nothing was accessed, and the pool is as it was.
    Exhausted,
    /// No prefix of the pool was seen to evict this seed, by the checks that
    /// measured these latencies: the seed was retired from the pool.
    Retired(Address, Seq<Time>),
    /// The connection failed in the selection of a set for this seed, in
    /// the way that is told: the pool is as it was.
    Broken(Address, Ending),
    /// A set was selected, by this selection, and taken out of the pool.
    /// The pool was then swept with it, as far as these latencies go: every
    /// address whose check was judged a miss has left the pool.
    Swept(Selection, Seq<Time>),
}

/// A color was to be seeded since `before`, from the pool `pool`, and
/// `how` tells what became of it; `left` is the pool after it.
#[verifier::opaque]
pub open spec fn seeded(
    before: Seq<Access>,
    after: Seq<Access>,
    classifier: TimingClassifier,
    pool: Seq<Address>,
    left: Seq<Address>,
    n_lines: int,
    how: Seeding,
) -> bool {
    match how {
        Seeding::Exhausted => pool.len() < n_lines + 1 && after == before && left == pool,
        Seeding::Retired(seed, lats) => {
            &&& pool.contains(seed)
            &&& selection_failed(
                before,
                after,
                classifier,
                pool,
                seed,
                n_lines,
                Ending::NoEviction(lats),
            )
            &&& without_first(pool, seed, left)
        },
        Seeding::Broken(seed, end) => {
            &&& pool.contains(seed)
            &&& (end is ForwardBroken || end is BackwardBroken)
            &&& selection_failed(before, after, classifier, pool, seed, n_lines, end)
            &&& left == pool
        },
        Seeding::Swept(sel, lats) => {
            &&& pool.contains(sel.addr)
            &&& sel.begins(before.len() as int, classifier, pool, sel.addr)
            &&& sel.sound(n_lines)
            &&& sweep_run(
                before + sel.accesses(n_lines),
                after,
                classifier,
                sel.outcome(n_lines),
                pool.filter(|a: Address| !sel.outcome(n_lines).contains(a)),
                left,
                lats,
            )
        },
    }
}

/// The sweep of a seeding went through the whole pool.
pub open spec fn sweep_complete(pool: Seq<Address>, n_lines: int, how: Seeding) -> bool {
    how matches Seeding::Swept(sel, lats) && lats.len() == pool.filter(
        |a: Address| !sel.outcome(n_lines).contains(a),
    ).len()
}

} // verus!
