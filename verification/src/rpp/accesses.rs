//! What an engine asks of its connection, written down access by access,
//! and what the runs of its procedures look like in that record.
use crate::connection::{Address, Time};
use crate::rpp::addresses::below;
use crate::rpp::origin::{lemma_extends_begins, seeded, Seeding};
use crate::rpp::random::picked_from;
use crate::rpp::selection::{chunk_len, reduced};
use crate::rpp::sequence::{extends, is_subsequence, without_range};
use crate::rpp::timing_classif::TimingClassifier;
use crate::rpp::{REFRESH_FLOOR, TIMINGS_INIT_FILL, TIMING_REFRESH_FILL, UNIQUENESS_TRIALS};
use vstd::multiset::Multiset;
use vstd::prelude::*;

verus! {

/// One access that an engine has completed over its connection.
pub ghost enum Access {
    /// The address was brought into the cache.
    Cached(Address),
    /// The addresses were brought into the cache, in this order.
    CachedAll(Seq<Address>),
    /// An access to the address was timed and took so long.
    Timed(Address, Time),
    /// Memory of this size was reserved.
    Reserved(usize),
}

/// The access is to addresses below `limit` only.
pub open spec fn within(access: Access, limit: int) -> bool {
    match access {
        Access::Cached(a) => a < limit,
        Access::CachedAll(s) => below(s, limit),
        Access::Timed(a, _) => a < limit,
        Access::Reserved(_) => true,
    }
}

/// The timed accesses to the addresses of a set, in their order, with the
/// latencies that were measured.
pub open spec fn timed(addrs: Seq<Address>, lats: Seq<Time>) -> Seq<Access> {
    Seq::new(addrs.len(), |i: int| Access::Timed(addrs[i], lats[i]))
}

/// The timed accesses of the probes of several sets, set after set.
pub open spec fn probes_of(sets: Seq<Seq<Address>>, lats: Seq<Seq<Time>>) -> Seq<Access>
    decreases sets.len(),
{
    if sets.len() == 0 {
        Seq::empty()
    } else {
        probes_of(sets.drop_last(), lats.drop_last()) + timed(sets.last(), lats.last())
    }
}

/// The accesses that prime the first `done` of the sets, one access for
/// each set, in their order.
pub open spec fn primes_of(sets: Seq<Seq<Address>>, done: int) -> Seq<Access> {
    Seq::new(done as nat, |i: int| Access::CachedAll(sets[i]))
}

/// The accesses of one check of whether `set` evicts `addr`: `addr` is
/// cached, then the addresses of `set`, then an access to `addr` is timed.
pub open spec fn eviction_check(set: Seq<Address>, addr: Address, lat: Time) -> Seq<Access> {
    seq![Access::Cached(addr), Access::CachedAll(set), Access::Timed(addr, lat)]
}

/// The first `done` accesses of a check of whether `set` evicts `addr` that
/// did not get as far as the timed access.
pub open spec fn broken_check(set: Seq<Address>, addr: Address, done: int) -> Seq<Access> {
    seq![Access::Cached(addr), Access::CachedAll(set)].subrange(0, done)
}

/// The accesses of the checks of whether `set` evicts the addresses of
/// `pool`, one check for each latency of `lats`, in the order of the pool.
pub open spec fn sweep_checks(set: Seq<Address>, pool: Seq<Address>, lats: Seq<Time>) -> Seq<
    Access,
>
    decreases lats.len(),
{
    if lats.len() == 0 {
        Seq::empty()
    } else {
        sweep_checks(set, pool, lats.drop_last()) + eviction_check(
            set,
            pool[lats.len() - 1],
            lats.last(),
        )
    }
}

/// The addresses of `pool` that stay after the checks that measured `lats`:
/// those whose check the classifier does not judge a miss, in their order.
pub open spec fn swept(classifier: TimingClassifier, pool: Seq<Address>, lats: Seq<Time>) -> Seq<
    Address,
>
    decreases lats.len(),
{
    if lats.len() == 0 {
        Seq::empty()
    } else if classifier.judgement(lats.last()) is Miss {
        swept(classifier, pool, lats.drop_last())
    } else {
        swept(classifier, pool, lats.drop_last()).push(pool[lats.len() - 1])
    }
}

/// A sweep of `pool` by `set` has been run since `before`, as far as the
/// latencies `lats` go: an address was checked for each of them, and
/// `left` is what stays of the pool: the addresses that were checked and
/// not seen to be evicted, then those that were not checked.
pub open spec fn sweep_run(
    before: Seq<Access>,
    after: Seq<Access>,
    classifier: TimingClassifier,
    set: Seq<Address>,
    pool: Seq<Address>,
    left: Seq<Address>,
    lats: Seq<Time>,
) -> bool {
    &&& lats.len() <= pool.len()
    &&& extends(after, before + sweep_checks(set, pool, lats))
    &&& left == swept(classifier, pool, lats) + pool.subrange(
        lats.len() as int,
        pool.len() as int,
    )
}

/// The accesses of the checks that forward selection makes for `addr` on a
/// pool, one for each of the latencies: the first on the first `from`
/// addresses of the pool, each further one on one address more.
pub open spec fn forward_checks(
    pool: Seq<Address>,
    addr: Address,
    from: int,
    lats: Seq<Time>,
) -> Seq<Access>
    decreases lats.len(),
{
    if lats.len() == 0 {
        Seq::empty()
    } else {
        forward_checks(pool, addr, from, lats.drop_last()) + eviction_check(
            pool.subrange(0, from + lats.len() - 1),
            addr,
            lats.last(),
        )
    }
}

/// Since `before`, exactly the checks of forward selection for `addr` on
/// the pool were made, starting with the first `from` addresses of the pool,
/// and measured these latencies.
pub open spec fn forward_run(
    before: Seq<Access>,
    after: Seq<Access>,
    pool: Seq<Address>,
    addr: Address,
    from: int,
    lats: Seq<Time>,
) -> bool {
    after == before + forward_checks(pool, addr, from, lats)
}

/// A forward selection for `addr` on `pool` has been run since `before` and
/// broke off where the connection failed: the checks that were completed
/// measured `lats`, and of the next check `done` accesses were made.
pub open spec fn forward_break(
    before: Seq<Access>,
    after: Seq<Access>,
    pool: Seq<Address>,
    addr: Address,
    from: int,
    lats: Seq<Time>,
    done: int,
) -> bool {
    &&& 0 <= done <= 2
    &&& from + lats.len() < pool.len()
    &&& after == before + forward_checks(pool, addr, from, lats) + broken_check(
        pool.subrange(0, from + lats.len()),
        addr,
        done,
    )
}

/// The classifier judges none of the latencies a miss.
pub open spec fn no_miss(classifier: TimingClassifier, lats: Seq<Time>) -> bool {
    forall|j: int| 0 <= j < lats.len() ==> !(#[trigger] classifier.judgement(lats[j]) is Miss)
}

/// The classifier judges the last of the latencies a miss, and none before
/// it.
pub open spec fn first_miss_is_last(classifier: TimingClassifier, lats: Seq<Time>) -> bool {
    &&& lats.len() > 0
    &&& classifier.judgement(lats.last()) is Miss
    &&& no_miss(classifier, lats.drop_last())
}

/// The accesses of the checks of one round of backward selection on `s` for
/// `x`, one for each of the latencies: the first on `s` without its first
/// chunk, each further one on `s` without its next chunk.
pub open spec fn round_checks(s: Seq<Address>, x: Address, n_lines: int, lats: Seq<Time>) -> Seq<
    Access,
>
    decreases lats.len(),
{
    if lats.len() == 0 {
        Seq::empty()
    } else {
        let k = lats.len() - 1;
        let cl = chunk_len(s.len() as int, n_lines);
        round_checks(s, x, n_lines, lats.drop_last()) + eviction_check(
            without_range(s, k * cl, cl),
            x,
            lats.last(),
        )
    }
}

/// Since `before`, exactly the checks of one round of backward selection
/// were made, and measured these latencies.
pub open spec fn round_run(
    before: Seq<Access>,
    after: Seq<Access>,
    s: Seq<Address>,
    x: Address,
    n_lines: int,
    lats: Seq<Time>,
) -> bool {
    after == before + round_checks(s, x, n_lines, lats)
}

/// The latencies are those of a whole round: the round ends with the first
/// check that is judged a miss, or after as many checks as a set has ways.
pub open spec fn round_complete(classifier: TimingClassifier, lats: Seq<Time>, n_lines: int) -> bool {
    ||| first_miss_is_last(classifier, lats) && lats.len() <= n_lines
    ||| no_miss(classifier, lats) && lats.len() == n_lines
}

/// The chunk that a round showed to be redundant: the one that the last
/// check left out, if that check is judged a miss.
pub open spec fn round_outcome(classifier: TimingClassifier, lats: Seq<Time>) -> Option<usize> {
    if lats.len() > 0 && classifier.judgement(lats.last()) is Miss {
        Some((lats.len() - 1) as usize)
    } else {
        None
    }
}

/// What is left of `s` after the rounds of backward selection whose checks
/// measured these latencies.
pub open spec fn narrowed(
    classifier: TimingClassifier,
    s: Seq<Address>,
    n_lines: int,
    rounds: Seq<Seq<Time>>,
) -> Seq<Address>
    decreases rounds.len(),
{
    if rounds.len() == 0 {
        s
    } else {
        reduced(
            narrowed(classifier, s, n_lines, rounds.drop_last()),
            n_lines,
            round_outcome(classifier, rounds.last()),
        )
    }
}

/// The accesses of the checks of the rounds of backward selection on `s`.
pub open spec fn narrowing_checks(
    classifier: TimingClassifier,
    s: Seq<Address>,
    x: Address,
    n_lines: int,
    rounds: Seq<Seq<Time>>,
) -> Seq<Access>
    decreases rounds.len(),
{
    if rounds.len() == 0 {
        Seq::empty()
    } else {
        narrowing_checks(classifier, s, x, n_lines, rounds.drop_last()) + round_checks(
            narrowed(classifier, s, n_lines, rounds.drop_last()),
            x,
            n_lines,
            rounds.last(),
        )
    }
}

/// Since `before`, exactly the checks of these rounds of backward selection
/// on `s` were made, each of them a whole round.
pub open spec fn narrowing_run(
    before: Seq<Access>,
    after: Seq<Access>,
    classifier: TimingClassifier,
    s: Seq<Address>,
    x: Address,
    n_lines: int,
    rounds: Seq<Seq<Time>>,
) -> bool {
    &&& after == before + narrowing_checks(classifier, s, x, n_lines, rounds)
    &&& forall|j: int|
        0 <= j < rounds.len() ==> round_complete(classifier, #[trigger] rounds[j], n_lines)
}

/// A round of narrowing `s` has been run since `before` and broke off where
/// the connection failed: the checks that were completed measured `lats`,
/// none of them a miss, and of the next check `done` accesses were made.
pub open spec fn round_break(
    before: Seq<Access>,
    after: Seq<Access>,
    classifier: TimingClassifier,
    s: Seq<Address>,
    x: Address,
    n_lines: int,
    lats: Seq<Time>,
    done: int,
) -> bool {
    &&& 0 <= done <= 2
    &&& lats.len() < n_lines
    &&& no_miss(classifier, lats)
    &&& after == before + round_checks(s, x, n_lines, lats) + broken_check(
        without_range(
            s,
            lats.len() * chunk_len(s.len() as int, n_lines),
            chunk_len(s.len() as int, n_lines),
        ),
        x,
        done,
    )
}

/// A backward selection on `s` has been run since `before` and broke off
/// where the connection failed: the rounds `rounds` were completed, and the
/// round after them broke off after the checks that measured `lats` and
/// `done` accesses of the next check.
pub open spec fn narrowing_break(
    before: Seq<Access>,
    after: Seq<Access>,
    classifier: TimingClassifier,
    s: Seq<Address>,
    x: Address,
    n_lines: int,
    rounds: Seq<Seq<Time>>,
    lats: Seq<Time>,
    done: int,
) -> bool {
    &&& forall|j: int|
        0 <= j < rounds.len() ==> round_complete(classifier, #[trigger] rounds[j], n_lines)
    &&& round_break(
        before + narrowing_checks(classifier, s, x, n_lines, rounds),
        after,
        classifier,
        narrowed(classifier, s, n_lines, rounds),
        x,
        n_lines,
        lats,
        done,
    )
}

/// The trial of a candidate set against one color: the witnesses that were
/// drawn from the set of the color, and the latencies that the checks
/// against them measured.
pub ghost struct Trial {
    /// The witnesses, in the order in which they were drawn.
    pub witnesses: Seq<Address>,
    /// What the check against each witness measured.
    pub lats: Seq<Time>,
}

/// The accesses of the checks of `set` against the first witnesses, one for
/// each of the latencies.
pub open spec fn trial_checks(set: Seq<Address>, witnesses: Seq<Address>, lats: Seq<Time>) -> Seq<
    Access,
>
    decreases lats.len(),
{
    if lats.len() == 0 {
        Seq::empty()
    } else {
        trial_checks(set, witnesses, lats.drop_last()) + eviction_check(
            set,
            witnesses[lats.len() - 1],
            lats.last(),
        )
    }
}

/// Number of the latencies that the classifier judges a miss.
pub open spec fn misses(classifier: TimingClassifier, lats: Seq<Time>) -> nat
    decreases lats.len(),
{
    if lats.len() == 0 {
        0
    } else {
        misses(classifier, lats.drop_last()) + if classifier.judgement(lats.last()) is Miss {
            1nat
        } else {
            0nat
        }
    }
}

/// The trial is one against the set `from`: its witnesses were drawn from
/// that set, `UNIQUENESS_TRIALS` of them unless the set is empty, and each
/// was checked.
pub open spec fn trial_against(from: Seq<Address>, trial: Trial) -> bool {
    &&& trial.lats.len() == trial.witnesses.len()
    &&& trial.witnesses.len() == if from.len() == 0 {
        0
    } else {
        UNIQUENESS_TRIALS as int
    }
    &&& forall|j: int|
        0 <= j < trial.witnesses.len() ==> from.contains(#[trigger] trial.witnesses[j])
}

/// More than half of the checks of the trial ended in an eviction.
pub open spec fn trial_collides(classifier: TimingClassifier, trial: Trial) -> bool {
    2 * misses(classifier, trial.lats) > UNIQUENESS_TRIALS
}

/// A trial of `set` against `witnesses` has been run since `before` and
/// broke off where the connection failed: the checks that were completed
/// measured `lats`, and of the next check `done` accesses were made.
pub open spec fn trial_break(
    before: Seq<Access>,
    after: Seq<Access>,
    set: Seq<Address>,
    witnesses: Seq<Address>,
    lats: Seq<Time>,
    done: int,
) -> bool {
    &&& 0 <= done <= 2
    &&& lats.len() < witnesses.len()
    &&& after == before + trial_checks(set, witnesses, lats) + broken_check(
        set,
        witnesses[lats.len() as int],
        done,
    )
}

/// The accesses of the checks of the trials of `set`, trial after trial.
pub open spec fn uniqueness_checks(set: Seq<Address>, trials: Seq<Trial>) -> Seq<Access>
    decreases trials.len(),
{
    if trials.len() == 0 {
        Seq::empty()
    } else {
        uniqueness_checks(set, trials.drop_last()) + trial_checks(
            set,
            trials.last().witnesses,
            trials.last().lats,
        )
    }
}

/// Since `before`, exactly the checks of these trials of `set` were made:
/// one trial against the set at `idx` of each of the first colors, none of
/// them but the last a collision.
pub open spec fn uniqueness_run(
    before: Seq<Access>,
    after: Seq<Access>,
    classifier: TimingClassifier,
    set: Seq<Address>,
    sets: Seq<Seq<Seq<Address>>>,
    idx: int,
    trials: Seq<Trial>,
) -> bool {
    &&& after == before + uniqueness_checks(set, trials)
    &&& trials.len() <= sets.len()
    &&& forall|c: int| 0 <= c < trials.len() ==> trial_against(sets[c][idx], #[trigger] trials[c])
    &&& forall|c: int|
        0 <= c < trials.len() - 1 ==> !trial_collides(classifier, #[trigger] trials[c])
}

/// A check of the uniqueness of `set` has been run since `before` and broke
/// off where the connection failed: the trials `trials` were completed, one
/// for each of the first colors, and none of them found `set` to collide;
/// the trial against the next color, with the witnesses of `last`, broke
/// off after the checks that measured the latencies of `last` and `done`
/// accesses of the next check.
pub open spec fn uniqueness_break(
    before: Seq<Access>,
    after: Seq<Access>,
    classifier: TimingClassifier,
    set: Seq<Address>,
    sets: Seq<Seq<Seq<Address>>>,
    idx: int,
    trials: Seq<Trial>,
    last: Trial,
    done: int,
) -> bool {
    &&& trials.len() < sets.len()
    &&& forall|c: int| 0 <= c < trials.len() ==> trial_against(sets[c][idx], #[trigger] trials[c])
    &&& forall|c: int| 0 <= c < trials.len() ==> !trial_collides(classifier, #[trigger] trials[c])
    &&& forall|j: int|
        0 <= j < last.witnesses.len() ==> sets[trials.len() as int][idx].contains(
            #[trigger] last.witnesses[j],
        )
    &&& last.witnesses.len() == UNIQUENESS_TRIALS
    &&& trial_break(
        before + uniqueness_checks(set, trials),
        after,
        set,
        last.witnesses,
        last.lats,
        done,
    )
}

/// One step of training: the address that was taken, how long the access to
/// it took before it was cached, and how long after.
pub ghost struct Sample {
    /// The address that was accessed.
    pub addr: Address,
    /// The time of the access before the address was cached.
    pub miss_time: Time,
    /// The time of the access after the address was cached.
    pub hit_time: Time,
}

impl Sample {
    /// The pair of timings is fit for training: the cached access was not
    /// the slower one.
    pub open spec fn fit(self) -> bool {
        self.miss_time >= self.hit_time
    }

    /// The accesses of the step: the address is timed, cached, and timed
    /// again.
    pub open spec fn accesses(self) -> Seq<Access> {
        seq![
            Access::Timed(self.addr, self.miss_time),
            Access::Cached(self.addr),
            Access::Timed(self.addr, self.hit_time),
        ]
    }
}

/// The accesses of the steps of a training, step after step.
pub open spec fn training_accesses(samples: Seq<Sample>) -> Seq<Access>
    decreases samples.len(),
{
    if samples.len() == 0 {
        Seq::empty()
    } else {
        training_accesses(samples.drop_last()) + samples.last().accesses()
    }
}

/// The times that a training records as hits: the times after caching of
/// the steps that are fit for training.
pub open spec fn trained_hits(samples: Seq<Sample>) -> Multiset<Time>
    decreases samples.len(),
{
    if samples.len() == 0 {
        Multiset::empty()
    } else if samples.last().fit() {
        trained_hits(samples.drop_last()).insert(samples.last().hit_time)
    } else {
        trained_hits(samples.drop_last())
    }
}

/// The times that a training records as misses: the times before caching of
/// the steps that are fit for training.
pub open spec fn trained_misses(samples: Seq<Sample>) -> Multiset<Time>
    decreases samples.len(),
{
    if samples.len() == 0 {
        Multiset::empty()
    } else if samples.last().fit() {
        trained_misses(samples.drop_last()).insert(samples.last().miss_time)
    } else {
        trained_misses(samples.drop_last())
    }
}

/// The addresses of the steps of a training, in their order.
pub open spec fn sampled(samples: Seq<Sample>) -> Seq<Address> {
    Seq::new(samples.len(), |i: int| samples[i].addr)
}

/// A training with these steps has been run on the pool since `before`: the
/// steps took `amount` addresses from different places of the pool, or as
/// many as the pool has; exactly their accesses were made; and the
/// classifier has recorded the timings of the steps that are fit, and no
/// others.
pub open spec fn training_run(
    before: Seq<Access>,
    after: Seq<Access>,
    trained: TimingClassifier,
    training: TimingClassifier,
    pool: Seq<Address>,
    amount: int,
    samples: Seq<Sample>,
) -> bool {
    &&& after == before + training_accesses(samples)
    &&& samples.len() == if amount <= pool.len() {
        amount
    } else {
        pool.len() as int
    }
    &&& picked_from(sampled(samples), pool)
    &&& training.hit_samples() == trained.hit_samples().add(trained_hits(samples))
    &&& training.miss_samples() == trained.miss_samples().add(trained_misses(samples))
}

/// One round of the construction of sets: the attempt at a color, and the
/// refresh of the training that closes the round.
pub ghost struct BuildRound {
    /// The number of accesses made before the round.
    pub start: int,
    /// The number of accesses made when the color was seeded, or could not
    /// be.
    pub sown: int,
    /// What became of the seeding.
    pub seeding: Seeding,
    /// The accesses of the attempt at a color.
    pub work: Seq<Access>,
    /// The first pool before the attempt.
    pub before: Seq<Address>,
    /// The first pool after the attempt.
    pub pool: Seq<Address>,
    /// The classifier after the attempt, which the attempt has not touched.
    pub trained: TimingClassifier,
    /// The accesses of the refresh.
    pub refresh: Seq<Access>,
    /// Whether the refresh ran through without a failure.
    pub refresh_ran: bool,
    /// The classifier after the refresh.
    pub refreshed: TimingClassifier,
}

impl BuildRound {
    /// The accesses of the round.
    pub open spec fn accesses(self) -> Seq<Access> {
        self.work + self.refresh
    }

    /// The record `accesses` holds the seeding of the round, with which its
    /// attempt began, and the first pool after the attempt is what the
    /// seeding has left of the first pool before it.
    pub open spec fn sown_in(self, accesses: Seq<Access>, n_lines: int) -> bool {
        &&& 0 <= self.start <= self.sown <= accesses.len()
        &&& self.sown - self.start <= self.work.len()
        &&& !(self.seeding is Exhausted)
        &&& seeded(
            accesses.subrange(0, self.start),
            accesses.subrange(0, self.sown),
            self.trained,
            self.before,
            self.pool,
            n_lines,
            self.seeding,
        )
    }

    /// The round is closed as it is due. The attempt has taken addresses
    /// out of the first pool, if any, and has added none. While the first
    /// pool then holds fewer
    /// than `REFRESH_FLOOR` addresses nothing is accessed for a refresh and
    /// the classifier is left alone; else the classifier is trained on
    /// `TIMING_REFRESH_FILL` addresses of the pool, which is what the
    /// refresh has done where it ran through.
    pub open spec fn closed_as_due(self) -> bool {
        &&& is_subsequence(self.pool, self.before)
        &&& self.pool.len() < REFRESH_FLOOR ==> self.refresh.len() == 0 && self.refreshed
            == self.trained && self.refresh_ran
        &&& self.pool.len() >= REFRESH_FLOOR && self.refresh_ran ==> exists|samples: Seq<Sample>|
            #[trigger] training_run(
                Seq::empty(),
                self.refresh,
                self.trained,
                self.refreshed,
                self.pool,
                TIMING_REFRESH_FILL as int,
                samples,
            )
    }
}

/// The accesses of the rounds of a construction, round after round.
pub open spec fn build_accesses(rounds: Seq<BuildRound>) -> Seq<Access>
    decreases rounds.len(),
{
    if rounds.len() == 0 {
        Seq::empty()
    } else {
        build_accesses(rounds.drop_last()) + rounds.last().accesses()
    }
}

/// The classifier after the rounds of a construction that began with the
/// classifier `first`.
pub open spec fn built_classifier(
    first: TimingClassifier,
    rounds: Seq<BuildRound>,
) -> TimingClassifier {
    if rounds.len() == 0 {
        first
    } else {
        rounds.last().refreshed
    }
}

/// The first pool after the rounds of a construction that began with the
/// first pool `pool`.
pub open spec fn built_pool(pool: Seq<Address>, rounds: Seq<BuildRound>) -> Seq<Address> {
    if rounds.len() == 0 {
        pool
    } else {
        rounds.last().pool
    }
}

/// The record `accesses` holds the seeding of every round, and the rounds
/// follow each other in the record from position `from` on.
pub open spec fn rounds_sown(
    accesses: Seq<Access>,
    from: int,
    n_lines: int,
    rounds: Seq<BuildRound>,
) -> bool {
    forall|j: int|
        0 <= j < rounds.len() ==> (#[trigger] rounds[j]).sown_in(accesses, n_lines) && rounds[j].start
            == from + build_accesses(rounds.subrange(0, j)).len()
}

/// Rounds that were sown go on with one more that was sown.
pub proof fn lemma_rounds_sown_extended(
    before: Seq<Access>,
    accesses: Seq<Access>,
    from: int,
    n_lines: int,
    rounds: Seq<BuildRound>,
    step: BuildRound,
)
    requires
        rounds_sown(before, from, n_lines, rounds),
        extends(accesses, before),
        step.sown_in(accesses, n_lines),
        step.start == from + build_accesses(rounds).len(),
    ensures
        rounds_sown(accesses, from, n_lines, rounds.push(step)),
{
    let longer = rounds.push(step);
    assert forall|j: int| 0 <= j < longer.len() implies (#[trigger] longer[j]).sown_in(
        accesses,
        n_lines,
    ) && longer[j].start == from + build_accesses(longer.subrange(0, j)).len() by {
        if j < rounds.len() {
            assert(longer[j] == rounds[j]);
            assert(longer.subrange(0, j) =~= rounds.subrange(0, j));
            lemma_extends_begins(accesses, before, rounds[j].start);
            lemma_extends_begins(accesses, before, rounds[j].sown);
        } else {
            assert(longer.subrange(0, j) =~= rounds);
        }
    }
}

/// A construction of sets has been run since `before`: the buffer of
/// `v_buf` bytes was reserved; then the classifier was trained on
/// `TIMINGS_INIT_FILL` addresses of the first pool, with the steps `first`;
/// then came the rounds, each closed as it is due, each beginning with the
/// classifier and the first pool that the one before has left, and `left`
/// is the first pool after the last of them. Each round began with the
/// seeding of a color, which the record holds, and the first pool after the
/// round is what the seeding has left of it.
pub open spec fn build_run(
    before: Seq<Access>,
    after: Seq<Access>,
    untrained: TimingClassifier,
    built: TimingClassifier,
    pool: Seq<Address>,
    left: Seq<Address>,
    v_buf: usize,
    n_lines: int,
    first: Seq<Sample>,
    trained: TimingClassifier,
    rounds: Seq<BuildRound>,
) -> bool {
    &&& training_run(
        before.push(Access::Reserved(v_buf)),
        before.push(Access::Reserved(v_buf)) + training_accesses(first),
        untrained,
        trained,
        pool,
        TIMINGS_INIT_FILL as int,
        first,
    )
    &&& after == before.push(Access::Reserved(v_buf)) + training_accesses(first) + build_accesses(
        rounds,
    )
    &&& forall|j: int| 0 <= j < rounds.len() ==> (#[trigger] rounds[j]).closed_as_due()
    &&& forall|j: int|
        0 <= j < rounds.len() ==> (#[trigger] rounds[j]).trained == built_classifier(
            trained,
            rounds.subrange(0, j),
        )
    &&& built == built_classifier(trained, rounds)
    &&& forall|j: int|
        0 <= j < rounds.len() ==> (#[trigger] rounds[j]).before == built_pool(
            pool,
            rounds.subrange(0, j),
        )
    &&& left == built_pool(pool, rounds)
    &&& rounds_sown(
        after,
        (before.len() + 1 + training_accesses(first).len()) as int,
        n_lines,
        rounds,
    )
}

/// The last accesses were a check of whether `set` evicts `addr`, and the
/// classifier judges what was measured a miss.
pub open spec fn seen_to_evict(
    accesses: Seq<Access>,
    classifier: TimingClassifier,
    set: Seq<Address>,
    addr: Address,
) -> bool {
    exists|lat: Time|
        {
            &&& accesses.len() >= 3
            &&& accesses.subrange(accesses.len() - 3, accesses.len() as int)
                == #[trigger] eviction_check(set, addr, lat)
            &&& classifier.judgement(lat) is Miss
        }
}

} // verus!
