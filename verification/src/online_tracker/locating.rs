//! Rounds of locating that found no pattern, found again in the record of
//! accesses.
use crate::connection::{Address, Time};
use crate::online_tracker::located_by;
use crate::online_tracker::pattern::{decides, Sighting};
use crate::rpp::sequence::extends;
use crate::rpp::timing_classif::TimingClassifier;
use crate::rpp::{lemma_extends_begins, Access, ColorCode};
use vstd::prelude::*;

verus! {

/// How a round of locating ended without a pattern.
pub ghost enum Blind {
    /// The connection or the sender failed in the round.
    Broken,
    /// The round was completed: it measured these latencies and gathered
    /// these traces, in which no color is the only one that shows a pattern.
    Indecisive(Map<ColorCode, Vec<Sighting>>, Seq<Seq<Seq<Time>>>),
}

/// A round of locating that found no pattern, with the part of the record
/// of accesses that it fills.
pub ghost struct FailedRound {
    /// The number of accesses made before the round.
    pub start: int,
    /// The number of accesses made when the round was over.
    pub end: int,
    /// How the round ended.
    pub how: Blind,
}

/// The record `accesses` holds the round `round`, not before position
/// `low`, and it ended without a pattern in the way that it tells.
pub open spec fn round_failed(
    accesses: Seq<Access>,
    sets: Seq<Seq<Seq<Address>>>,
    classifier: TimingClassifier,
    low: int,
    round: FailedRound,
) -> bool {
    &&& 0 <= round.start
    &&& low <= round.start <= round.end <= accesses.len()
    &&& match round.how {
        Blind::Broken => true,
        Blind::Indecisive(traces, lats) => {
            &&& located_by(
                accesses.subrange(0, round.start),
                accesses.subrange(0, round.end),
                sets,
                classifier,
                traces,
                lats,
            )
            &&& forall|color: ColorCode| !decides(traces, color)
        },
    }
}

/// The record holds the round at `k` of `rounds` after the one before it,
/// or not before `from` if it is the first, and it found no pattern.
pub open spec fn failed_at(
    accesses: Seq<Access>,
    from: int,
    sets: Seq<Seq<Seq<Address>>>,
    classifier: TimingClassifier,
    rounds: Seq<FailedRound>,
    k: int,
) -> bool {
    round_failed(
        accesses,
        sets,
        classifier,
        if k == 0 {
            from
        } else {
            rounds[k - 1].end
        },
        rounds[k],
    )
}

/// From position `from` on, the record `accesses` holds the rounds `rounds`
/// of locating, one after the other, and none of them found a pattern.
pub open spec fn rounds_failed(
    accesses: Seq<Access>,
    from: int,
    sets: Seq<Seq<Seq<Address>>>,
    classifier: TimingClassifier,
    rounds: Seq<FailedRound>,
) -> bool {
    forall|k: int|
        0 <= k < rounds.len() ==> #[trigger] failed_at(accesses, from, sets, classifier, rounds, k)
}

/// The number of rounds in which the connection or the sender failed.
pub open spec fn broken_rounds(rounds: Seq<FailedRound>) -> nat
    decreases rounds.len(),
{
    if rounds.len() == 0 {
        0
    } else {
        broken_rounds(rounds.drop_last()) + if rounds.last().how is Broken {
            1nat
        } else {
            0nat
        }
    }
}

/// Failed rounds that a record holds, a longer record holds too.
pub proof fn lemma_rounds_kept(
    later: Seq<Access>,
    accesses: Seq<Access>,
    from: int,
    sets: Seq<Seq<Seq<Address>>>,
    classifier: TimingClassifier,
    rounds: Seq<FailedRound>,
)
    requires
        rounds_failed(accesses, from, sets, classifier, rounds),
        extends(later, accesses),
    ensures
        rounds_failed(later, from, sets, classifier, rounds),
{
    assert forall|k: int| 0 <= k < rounds.len() implies #[trigger] failed_at(
        later,
        from,
        sets,
        classifier,
        rounds,
        k,
    ) by {
        assert(failed_at(accesses, from, sets, classifier, rounds, k));
        lemma_extends_begins(later, accesses, rounds[k].start);
        lemma_extends_begins(later, accesses, rounds[k].end);
    }
}

/// Failed rounds go on with one more round that found no pattern.
pub proof fn lemma_rounds_extended(
    before: Seq<Access>,
    accesses: Seq<Access>,
    from: int,
    sets: Seq<Seq<Seq<Address>>>,
    classifier: TimingClassifier,
    rounds: Seq<FailedRound>,
    round: FailedRound,
)
    requires
        rounds_failed(before, from, sets, classifier, rounds),
        extends(accesses, before),
        from <= before.len(),
        round_failed(accesses, sets, classifier, before.len() as int, round),
    ensures
        rounds_failed(accesses, from, sets, classifier, rounds.push(round)),
        broken_rounds(rounds.push(round)) == broken_rounds(rounds) + if round.how is Broken {
            1nat
        } else {
            0nat
        },
{
    let longer = rounds.push(round);
    assert(longer.drop_last() =~= rounds);
    assert forall|k: int| 0 <= k < longer.len() implies #[trigger] failed_at(
        accesses,
        from,
        sets,
        classifier,
        longer,
        k,
    ) by {
        if k < rounds.len() {
            assert(failed_at(before, from, sets, classifier, rounds, k));
            assert(longer[k] == rounds[k]);
            if k > 0 {
                assert(longer[k - 1] == rounds[k - 1]);
            }
            lemma_extends_begins(accesses, before, rounds[k].start);
            lemma_extends_begins(accesses, before, rounds[k].end);
        } else if k > 0 {
            assert(longer[k - 1] == rounds[k - 1]);
            assert(failed_at(before, from, sets, classifier, rounds, k - 1));
        }
    }
}

} // verus!
