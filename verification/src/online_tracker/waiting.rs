//! Waiting in vain: the probes that found nothing activated, found again in
//! the record of accesses.
use crate::connection::{Address, Time};
use crate::online_tracker::pattern::WINDOW_SIZE;
use crate::rpp::sequence::extends;
use crate::rpp::timing_classif::TimingClassifier;
use crate::rpp::{
    lemma_recorded_kept, probes_of, recorded_at, registers_miss, timed, Access, Latencies,
    ProbeResult, SetCode,
};
use vstd::prelude::*;

verus! {

/// A probe of some sets that found none of them activated.
pub ghost struct IdleProbe {
    /// The number of accesses made before the probe.
    pub at: int,
    /// What the probe measured, set by set.
    pub lats: Seq<Seq<Time>>,
}

/// The record `accesses` holds, not before position `low`, the probe `p` of
/// the sets `sets`, and the classifier judges no latency of it a miss.
pub open spec fn idle_probe(
    accesses: Seq<Access>,
    classifier: TimingClassifier,
    sets: Seq<Seq<Address>>,
    low: int,
    p: IdleProbe,
) -> bool {
    &&& low <= p.at
    &&& recorded_at(accesses, p.at, probes_of(sets, p.lats))
    &&& p.lats.len() == sets.len()
    &&& forall|i: int|
        0 <= i < sets.len() ==> (#[trigger] p.lats[i]).len() == sets[i].len() && !registers_miss(
            classifier,
            p.lats[i],
        )
}

/// The record holds the probe at `k` of `probes` after the one before it,
/// or not before `from` if it is the first, and it found nothing activated.
pub open spec fn idle_at(
    accesses: Seq<Access>,
    from: int,
    classifier: TimingClassifier,
    sets: Seq<Seq<Address>>,
    probes: Seq<IdleProbe>,
    k: int,
) -> bool {
    idle_probe(
        accesses,
        classifier,
        sets,
        if k == 0 {
            from
        } else {
            probes[k - 1].at + probes_of(sets, probes[k - 1].lats).len()
        },
        probes[k],
    )
}

/// From position `from` on, the record `accesses` holds the probes `probes`
/// of the sets `sets`, one after the other, and none of them found a set
/// activated.
pub open spec fn idles(
    accesses: Seq<Access>,
    from: int,
    classifier: TimingClassifier,
    sets: Seq<Seq<Address>>,
    probes: Seq<IdleProbe>,
) -> bool {
    forall|k: int|
        0 <= k < probes.len() ==> #[trigger] idle_at(accesses, from, classifier, sets, probes, k)
}

/// The sets of the window around position `pos` of a ring, where `all`
/// holds the sets that the codes of the ring name.
pub open spec fn window_sets(
    all: Seq<Seq<Seq<Address>>>,
    ring: Seq<SetCode>,
    pos: int,
) -> Seq<Seq<Address>> {
    Seq::new(
        WINDOW_SIZE as nat,
        |k: int|
            {
                let code = ring[(pos + k - WINDOW_SIZE / 2) % (ring.len() as int)];
                all[code.0 as int][code.1 as int]
            },
    )
}

/// The sets are some that a tracker of the ring watches when it waits: the
/// first set of the ring alone, or the sets of the window around some
/// position of the ring.
pub open spec fn watched(
    all: Seq<Seq<Seq<Address>>>,
    ring: Seq<SetCode>,
    sets: Seq<Seq<Address>>,
) -> bool {
    ||| sets == seq![all[ring[0].0 as int][ring[0].1 as int]]
    ||| exists|pos: int| sets == #[trigger] window_sets(all, ring, pos)
}

/// The latencies that the outcomes of probes carry, probe by probe.
pub open spec fn latencies_of(probes: Seq<ProbeResult<Latencies>>) -> Seq<Seq<Time>> {
    Seq::new(probes.len(), |i: int| probes[i].data()@)
}

/// The record `accesses` ends with the probe of the sets `sets` that
/// measured `lats`, made after the first `from` accesses.
pub open spec fn ends_with_probes(
    accesses: Seq<Access>,
    from: int,
    sets: Seq<Seq<Address>>,
    lats: Seq<Seq<Time>>,
) -> bool {
    &&& lats.len() == sets.len()
    &&& forall|i: int| 0 <= i < sets.len() ==> (#[trigger] lats[i]).len() == sets[i].len()
    &&& recorded_at(
        accesses,
        accesses.len() - probes_of(sets, lats).len(),
        probes_of(sets, lats),
    )
    &&& from <= accesses.len() - probes_of(sets, lats).len()
}

/// The probe of one set alone is its timed accesses.
pub proof fn lemma_probe_of_one(set: Seq<Address>, lats: Seq<Time>)
    ensures
        probes_of(seq![set], seq![lats]) == timed(set, lats),
{
    let sets = seq![set];
    let all = seq![lats];
    assert(sets.drop_last() =~= Seq::<Seq<Address>>::empty());
    assert(all.drop_last() =~= Seq::<Seq<Time>>::empty());
    reveal_with_fuel(probes_of, 2);
    assert(probes_of(sets, all) =~= timed(set, lats));
}

/// Idle probes that a record holds, a longer record holds too.
pub proof fn lemma_idles_kept(
    later: Seq<Access>,
    accesses: Seq<Access>,
    from: int,
    classifier: TimingClassifier,
    sets: Seq<Seq<Address>>,
    probes: Seq<IdleProbe>,
)
    requires
        idles(accesses, from, classifier, sets, probes),
        extends(later, accesses),
    ensures
        idles(later, from, classifier, sets, probes),
{
    assert forall|k: int| 0 <= k < probes.len() implies #[trigger] idle_at(
        later,
        from,
        classifier,
        sets,
        probes,
        k,
    ) by {
        assert(idle_at(accesses, from, classifier, sets, probes, k));
        lemma_recorded_kept(later, accesses, probes[k].at, probes_of(sets, probes[k].lats));
    }
}

/// Idle probes that began later began earlier too.
pub proof fn lemma_idles_from(
    accesses: Seq<Access>,
    from: int,
    earlier: int,
    classifier: TimingClassifier,
    sets: Seq<Seq<Address>>,
    probes: Seq<IdleProbe>,
)
    requires
        idles(accesses, from, classifier, sets, probes),
        earlier <= from,
    ensures
        idles(accesses, earlier, classifier, sets, probes),
{
    assert forall|k: int| 0 <= k < probes.len() implies #[trigger] idle_at(
        accesses,
        earlier,
        classifier,
        sets,
        probes,
        k,
    ) by {
        assert(idle_at(accesses, from, classifier, sets, probes, k));
    }
}

/// Idle probes go on with one more probe that found nothing activated.
pub proof fn lemma_idles_extended(
    before: Seq<Access>,
    accesses: Seq<Access>,
    from: int,
    classifier: TimingClassifier,
    sets: Seq<Seq<Address>>,
    probes: Seq<IdleProbe>,
    p: IdleProbe,
)
    requires
        idles(before, from, classifier, sets, probes),
        extends(accesses, before),
        from <= before.len(),
        idle_probe(accesses, classifier, sets, before.len() as int, p),
    ensures
        idles(accesses, from, classifier, sets, probes.push(p)),
{
    let longer = probes.push(p);
    lemma_idles_kept(accesses, before, from, classifier, sets, probes);
    assert forall|k: int| 0 <= k < longer.len() implies #[trigger] idle_at(
        accesses,
        from,
        classifier,
        sets,
        longer,
        k,
    ) by {
        if k < probes.len() {
            assert(idle_at(accesses, from, classifier, sets, probes, k));
            assert(longer[k] == probes[k]);
            if k > 0 {
                assert(longer[k - 1] == probes[k - 1]);
            }
        } else if k > 0 {
            assert(longer[k - 1] == probes[k - 1]);
            assert(idle_at(before, from, classifier, sets, probes, k - 1));
        }
    }
}

} // verus!
