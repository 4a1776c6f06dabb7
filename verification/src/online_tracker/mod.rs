//! Tracking of the receive ring of the observed machine through the cache
//! sets that its slots map to.
pub mod clock;
pub mod locating;
pub mod pattern;
pub mod tracking;
pub mod waiting;

pub use crate::connection::Time;
use crate::connection::{CacheConnector, PacketSender};
use crate::error::Error;
use crate::online_tracker::clock::Stopwatch;
pub use crate::online_tracker::locating::{
    broken_rounds, failed_at, lemma_rounds_extended, round_failed, rounds_failed, Blind,
    FailedRound,
};
pub use crate::online_tracker::waiting::{
    ends_with_probes, idle_at, idle_probe, idles, latencies_of, lemma_idles_extended,
    lemma_idles_from, lemma_idles_kept, lemma_probe_of_one, watched, window_sets, IdleProbe,
};
use crate::online_tracker::locating::lemma_rounds_kept;
use crate::online_tracker::pattern::{
    coded, decides, lemma_first_activated, lemma_tally_sighted, pass_len, shows_pattern, wins,
    Pattern, PatternIdx, PossiblePatterns, Sighting, REPEATINGS, WINDOW_SIZE,
};
pub use crate::online_tracker::tracking::SyncStatus;
use crate::online_tracker::tracking::{TrackingContext, TrackingState};
use crate::output::Record;
pub use crate::rpp::params::CacheParams;
use crate::rpp::params::RppParams;
use crate::rpp::sequence::extends;
pub use crate::rpp::{
    has_activation, ColorCode, ColoredSetCode, Contents, Latencies, ProbeResult, Rpp, SetCode,
};
use crate::connection::Address;
use crate::rpp::timing_classif::TimingClassifier;
use crate::rpp::{
    probes_of, registers_miss, some_activated, timed, Access, BuildRound, Derivation, Sample,
    NUM_VARIANTS,
};
use std::collections::HashMap;
use vstd::prelude::*;

verus! {

/// One saved measurement: the probes of the window, how the measurement
/// relates to the injected packets, and when it was taken, in nanoseconds
/// since the start of the run.
pub type LatsEntry = (Vec<ProbeResult<Latencies>>, SyncStatus, Time);

/// Saved measurements, in the order in which they were taken.
pub type SavedLats = Vec<LatsEntry>;

/// Number of failures that locating the ring, and measuring, put up with.
pub const MAX_FAIL_CNT: usize = 100;

/// Number of probes in a row without any activation after which waiting for
/// one is given up.
pub const MAX_IDLE_PROBES: usize = usize::MAX;

/// What a builder has been given so far.
pub ghost struct BuilderState<C, R, S> {
    /// The connection to the observed cache.
    pub conn: Option<C>,
    /// The sink for the measurements.
    pub output: Option<R>,
    /// The sender of control packets.
    pub sender: Option<S>,
    /// The description of the observed cache.
    pub cparam: Option<CacheParams>,
    /// Whether progress is not to be reported.
    pub quite: bool,
}

/// Builds and sets up an `OnlineTracker`.
pub struct OnlineTrackerBuilder<C, R, S> {
    conn: Option<C>,
    output: Option<R>,
    sender: Option<S>,
    cparam: Option<CacheParams>,
    quite: bool,
}

impl<C, R, S> View for OnlineTrackerBuilder<C, R, S> {
    type V = BuilderState<C, R, S>;

    closed spec fn view(&self) -> BuilderState<C, R, S> {
        BuilderState {
            conn: self.conn,
            output: self.output,
            sender: self.sender,
            cparam: self.cparam,
            quite: self.quite,
        }
    }
}

impl<C, R, S> Default for OnlineTrackerBuilder<C, R, S> {
    fn default() -> (b: Self)
        ensures
            b@ == (BuilderState::<C, R, S> {
                conn: None,
                output: None,
                sender: None,
                cparam: None,
                quite: false,
            }),
    {
        OnlineTrackerBuilder { conn: None, output: None, sender: None, cparam: None, quite: false }
    }
}

impl<C, R, S> OnlineTrackerBuilder<C, R, S> {
    /// Returns a builder that has been given nothing yet.
    pub fn new() -> (b: OnlineTrackerBuilder<C, R, S>)
        ensures
            b@ == (BuilderState::<C, R, S> {
                conn: None,
                output: None,
                sender: None,
                cparam: None,
                quite: false,
            }),
    {
        OnlineTrackerBuilder { conn: None, output: None, sender: None, cparam: None, quite: false }
    }
}

/// The traces of a round of locating met these sets: there is a trace for
/// each color, of `REPEATINGS` passes over the sets of the color, and a
/// sighting names the set that was probed.
pub open spec fn traces_of(traces: Map<ColorCode, Vec<Sighting>>, sets: Seq<Seq<Seq<usize>>>) -> bool {
    &&& forall|c: ColorCode| traces.contains_key(c) <==> c < sets.len()
    &&& forall|c: ColorCode|
        c < sets.len() ==> (#[trigger] traces[c])@.len() == REPEATINGS * sets[c as int].len()
    &&& forall|c: ColorCode, j: int|
        c < sets.len() && 0 <= j < traces[c]@.len() ==> (#[trigger] traces[c]@[j]) is None
            || traces[c]@[j] == Some((j % (sets[c as int].len() as int)) as usize)
}

/// The sighting that the latencies of the probe of a set make: the set, if
/// one of the latencies is judged a miss.
pub open spec fn sighting(classifier: TimingClassifier, lats: Seq<Time>, set: usize) -> Sighting {
    if registers_miss(classifier, lats) {
        Some(set)
    } else {
        None
    }
}

/// The accesses of the locating passes over the sets of a color, one prime
/// and one probe for each entry of `lats`: the sets are taken in their
/// order, pass after pass, and each is primed and then probed with the
/// latencies of its entry.
pub open spec fn scan_accesses(color_sets: Seq<Seq<Address>>, lats: Seq<Seq<Time>>) -> Seq<Access>
    decreases lats.len(),
{
    if lats.len() == 0 {
        Seq::empty()
    } else {
        let set = color_sets[(lats.len() - 1) % (color_sets.len() as int)];
        scan_accesses(color_sets, lats.drop_last()).push(Access::CachedAll(set)) + timed(
            set,
            lats.last(),
        )
    }
}

/// The trace is the one of `REPEATINGS` passes over the sets of a color
/// whose probes measured `lats`: sighting `j` is the set probed, the one at
/// `j` taken round the sets, exactly when its probe registered a miss.
pub open spec fn traced(
    color_sets: Seq<Seq<Address>>,
    classifier: TimingClassifier,
    trace: Seq<Sighting>,
    lats: Seq<Seq<Time>>,
) -> bool {
    &&& trace.len() == REPEATINGS * color_sets.len()
    &&& lats.len() == trace.len()
    &&& forall|j: int|
        0 <= j < trace.len() ==> #[trigger] trace[j] == sighting(
            classifier,
            lats[j],
            (j % (color_sets.len() as int)) as usize,
        )
}

/// The accesses of a round of locating: those of the passes over each
/// color, color after color.
pub open spec fn locating_accesses(
    sets: Seq<Seq<Seq<Address>>>,
    lats: Seq<Seq<Seq<Time>>>,
) -> Seq<Access>
    decreases lats.len(),
{
    if lats.len() == 0 {
        Seq::empty()
    } else {
        locating_accesses(sets, lats.drop_last()) + scan_accesses(
            sets[lats.len() - 1],
            lats.last(),
        )
    }
}

/// A round of locating over these sets was made since `before`, measured
/// `lats` and gathered `traces`: exactly the primes and probes of the round
/// were made, and there is a trace for each color, made of its probes.
pub open spec fn located_by(
    before: Seq<Access>,
    after: Seq<Access>,
    sets: Seq<Seq<Seq<Address>>>,
    classifier: TimingClassifier,
    traces: Map<ColorCode, Vec<Sighting>>,
    lats: Seq<Seq<Seq<Time>>>,
) -> bool {
    &&& after == before + locating_accesses(sets, lats)
    &&& lats.len() == sets.len()
    &&& forall|c: ColorCode| traces.contains_key(c) <==> c < sets.len()
    &&& forall|c: ColorCode|
        c < sets.len() ==> traced(sets[c as int], classifier, (#[trigger] traces[c])@, lats[c as int])
}

/// What matters of a run of measurements for the injection of packets.
pub ghost struct RunState {
    /// Number of measurements since the last synchronization that hit.
    pub unsynced: nat,
    /// The last synchronization missed.
    pub should_send: bool,
    /// A packet has been injected in the run.
    pub injected: bool,
}

impl RunState {
    /// A packet is due before the next measurement.
    pub open spec fn due(self) -> bool {
        self.unsynced > 2 || self.should_send
    }
}

/// The state of a run after the measurements that it has saved: before each
/// measurement a packet is injected if one is due, and the status of the
/// measurement tells how the state moves on.
pub open spec fn run_state(run: Seq<LatsEntry>) -> RunState
    decreases run.len(),
{
    if run.len() == 0 {
        RunState { unsynced: 0, should_send: false, injected: false }
    } else {
        let before = run_state(run.drop_last());
        let injected = before.injected || before.due();
        match run.last().1 {
            SyncStatus::NoSync => RunState {
                unsynced: before.unsynced + 1,
                should_send: false,
                injected,
            },
            SyncStatus::Hit => RunState { unsynced: 0, should_send: false, injected },
            SyncStatus::Miss => RunState { unsynced: before.unsynced, should_send: true, injected },
        }
    }
}

/// Number of packets that were injected in a run for the measurements that
/// it has saved: one before each measurement before which a packet was due.
pub open spec fn injections(run: Seq<LatsEntry>) -> nat
    decreases run.len(),
{
    if run.len() == 0 {
        0
    } else {
        injections(run.drop_last()) + if run_state(run.drop_last()).due() {
            1nat
        } else {
            0nat
        }
    }
}

/// The packets of a run keep pace with its measurements. `marks` tells for
/// each measurement of the run how many packets had been sent when it was
/// saved, and `started` how many had been sent when the run began to
/// measure: since the measurement before, or since the run began to
/// measure, one packet was sent if one was due, and none otherwise.
pub open spec fn paced(marks: Seq<nat>, started: nat, run: Seq<LatsEntry>) -> bool {
    &&& marks.len() == run.len()
    &&& forall|j: int|
        0 <= j < run.len() ==> #[trigger] sent_for(marks, started, j) == if run_state(
            run.subrange(0, j),
        ).due() {
            1int
        } else {
            0int
        }
}

/// The number of packets that were sent for the measurement `j` of a run:
/// since the measurement before it, or since the run began to measure.
pub open spec fn sent_for(marks: Seq<nat>, started: nat, j: int) -> int {
    marks[j] - if j == 0 {
        started
    } else {
        marks[j - 1]
    }
}

/// A run that keeps pace goes on with a measurement before which the due
/// packet was sent, and no other.
pub proof fn lemma_paced_extended(
    marks: Seq<nat>,
    started: nat,
    run: Seq<LatsEntry>,
    entry: LatsEntry,
    mark: nat,
)
    requires
        paced(marks, started, run),
        mark == (if run.len() == 0 {
            started
        } else {
            marks.last()
        }) + if run_state(run).due() {
            1nat
        } else {
            0nat
        },
    ensures
        paced(marks.push(mark), started, run.push(entry)),
{
    let longer = marks.push(mark);
    let more = run.push(entry);
    assert forall|j: int| 0 <= j < more.len() implies #[trigger] sent_for(longer, started, j)
        == if run_state(more.subrange(0, j)).due() {
        1int
    } else {
        0int
    } by {
        if j < run.len() {
            assert(more.subrange(0, j) =~= run.subrange(0, j));
            assert(sent_for(longer, started, j) == sent_for(marks, started, j));
        } else {
            assert(more.subrange(0, j) =~= run);
            if j > 0 {
                assert(longer[j - 1] == marks.last());
            }
        }
    }
}

/// The statuses of a run follow the injections: a measurement is without
/// synchronization exactly when no packet was injected in the run up to it,
/// so that a hit or a miss comes only after an injection.
pub open spec fn statuses_follow(run: Seq<LatsEntry>) -> bool {
    forall|j: int|
        0 <= j < run.len() ==> ((#[trigger] run[j]).1 is NoSync <==> !run_state(
            run.subrange(0, j + 1),
        ).injected)
}

/// No measurement of the run is stamped with an earlier time than one
/// before it.
pub open spec fn stamps_ascend(run: Seq<LatsEntry>) -> bool {
    forall|i: int, j: int| 0 <= i <= j < run.len() ==> (#[trigger] run[i]).2 <= (#[trigger] run[j]).2
}

/// The last accesses were the probe of `set`, which measured `lats`.
pub open spec fn ends_with_probe(accesses: Seq<Access>, set: Seq<Address>, lats: Seq<Time>) -> bool {
    &&& lats.len() == set.len()
    &&& accesses.len() >= set.len()
    &&& accesses.subrange(accesses.len() - set.len(), accesses.len() as int) == timed(set, lats)
}

/// A measurement as the tracker saves it: the probes of a whole window, of
/// which the one after the middle registered an activation if the
/// synchronization hit, and some other one if it missed or if no packet was
/// injected.
pub open spec fn well_measured(entry: LatsEntry) -> bool {
    &&& entry.0@.len() == WINDOW_SIZE
    &&& some_activated(entry.0@)
    &&& entry.1 is Hit ==> entry.0@[WINDOW_SIZE as int / 2 + 1] is Activated
    &&& entry.1 is Miss ==> !(entry.0@[WINDOW_SIZE as int / 2 + 1] is Activated)
}

/// The layout of the engine that a builder makes: that of the cache that
/// was described, or of the default cache where none was.
pub open spec fn planned_layout(cparam: Option<CacheParams>) -> RppParams {
    match cparam {
        Some(cp) => RppParams::of(cp@),
        None => RppParams::of(CacheParams::geometry(64, 12, 12, 6_291_456, 5000)),
    }
}

/// The codes of the sets of a color, in their order.
pub open spec fn sets_of_color(color: ColorCode) -> Seq<SetCode> {
    Seq::new(NUM_VARIANTS as nat, |i: int| SetCode(color, i as usize))
}

/// The main tracking component: observes the cache activity that incoming
/// packets cause and records it.
pub struct OnlineTracker<C, R, S> {
    rpp: Rpp<C>,
    output: R,
    sender: S,
    pattern: Pattern,
    quite: bool,
    init: bool,
    saved: Ghost<Seq<LatsEntry>>,
    sent: Ghost<nat>,
    tries: Ghost<nat>,
    runs: Ghost<nat>,
    marks: Ghost<Seq<nat>>,
    faults: Ghost<nat>,
}

impl<C, R, S> OnlineTracker<C, R, S> {
    /// The measurements that the tracker has handed to its sink, in their
    /// order.
    pub closed spec fn saved(&self) -> Seq<LatsEntry> {
        self.saved@
    }

    /// Number of packets that the tracker has had its sender send.
    pub closed spec fn packets_sent(&self) -> nat {
        self.sent@
    }

    /// Number of rounds of locating that the tracker has begun.
    pub closed spec fn locating_rounds(&self) -> nat {
        self.tries@
    }

    /// For each measurement that the tracker has handed to its sink, in
    /// their order, the number of packets that it had had its sender send
    /// by then.
    pub closed spec fn sent_by(&self) -> Seq<nat> {
        self.marks@
    }

    /// Number of failures of the connection or the sender that the tracker
    /// has put up with while it waited for an activation.
    pub closed spec fn failures_borne(&self) -> nat {
        self.faults@
    }

    /// Since `before` the tracker has lost the ring: the record ends with
    /// the probe `p` of the sets of the window around some position of the
    /// pattern, and the probe found none of them activated.
    pub open spec fn lost_the_ring(
        &self,
        before: &Self,
        sets: Seq<Seq<Address>>,
        p: IdleProbe,
    ) -> bool {
        &&& exists|pos: int|
            sets == #[trigger] window_sets(before.engine().sets(), before.ring()@, pos)
        &&& idle_probe(
            self.engine().accesses(),
            before.engine().timings(),
            sets,
            before.engine().accesses().len() as int,
            p,
        )
        &&& p.at + probes_of(sets, p.lats).len() == self.engine().accesses().len()
    }

    /// Since `before` the tracker has waited in vain: from position `from`
    /// of the record on it has probed sets that it watches, with `probes`,
    /// until it had probed them `MAX_IDLE_PROBES` times and found nothing
    /// activated, or had put up with `MAX_FAIL_CNT` failures.
    pub open spec fn waited_in_vain(
        &self,
        before: &Self,
        from: int,
        sets: Seq<Seq<Address>>,
        probes: Seq<IdleProbe>,
    ) -> bool {
        &&& watched(before.engine().sets(), before.ring()@, sets)
        &&& before.engine().accesses().len() <= from
        &&& idles(self.engine().accesses(), from, before.engine().timings(), sets, probes)
        &&& (probes.len() == MAX_IDLE_PROBES || self.failures_borne() >= before.failures_borne()
            + MAX_FAIL_CNT)
    }

    /// Number of runs of measurements that the tracker has begun.
    pub closed spec fn measuring_runs(&self) -> nat {
        self.runs@
    }

    /// The pattern was found by a round of locating whose accesses are those
    /// from `start` on: the round measured `lats` and gathered `traces`, and
    /// `color` is the one color whose trace shows a pattern, which is the
    /// sets of that color in their order.
    pub open spec fn found_by(
        &self,
        start: int,
        color: ColorCode,
        traces: Map<ColorCode, Vec<Sighting>>,
        lats: Seq<Seq<Seq<Time>>>,
    ) -> bool {
        &&& 0 <= start <= self.engine().accesses().len()
        &&& located_by(
            self.engine().accesses().subrange(0, start),
            self.engine().accesses(),
            self.engine().sets(),
            self.engine().timings(),
            traces,
            lats,
        )
        &&& decides(traces, color)
        &&& self.on_color(color)
    }

    /// The sink was handed no measurement that it had before, and every
    /// measurement that it was handed since is one of a whole window with an
    /// activation in it.
    pub open spec fn saved_since(&self, before: &Self) -> bool {
        &&& extends(self.saved(), before.saved())
        &&& forall|i: int|
            before.saved().len() <= i < self.saved().len() ==> well_measured(
                #[trigger] self.saved()[i],
            )
    }

    /// The engine that primes and probes.
    pub closed spec fn engine(&self) -> Rpp<C> {
        self.rpp
    }

    /// The pattern that was found, if the ring has been located.
    pub closed spec fn ring(&self) -> Pattern {
        self.pattern
    }

    /// The ring has been located.
    pub closed spec fn is_initialized(&self) -> bool {
        self.init
    }

    /// Whether progress is not to be reported.
    pub closed spec fn quiet(&self) -> bool {
        self.quite
    }

    /// What was saved since an earlier state was saved since every state
    /// before that.
    pub proof fn lemma_saved_since(&self, mid: &Self, before: &Self)
        requires
            self.saved_since(mid),
            mid.saved_since(before),
        ensures
            self.saved_since(before),
    {
        let a = before.saved();
        let b = mid.saved();
        let c = self.saved();
        assert(c.subrange(0, a.len() as int) =~= b.subrange(0, a.len() as int)) by {
            assert forall|i: int| 0 <= i < a.len() implies c.subrange(0, a.len() as int)[i]
                == b.subrange(0, a.len() as int)[i] by {
                assert(c.subrange(0, b.len() as int)[i] == b[i]);
            }
        }
        assert forall|i: int| a.len() <= i < c.len() implies well_measured(#[trigger] c[i]) by {
            if i < b.len() {
                assert(c.subrange(0, b.len() as int)[i] == b[i]);
                assert(well_measured(b[i]));
            }
        }
    }

    /// The pattern is made of the sets of one color, in their order.
    pub open spec fn on_color(&self, color: ColorCode) -> bool {
        &&& color < self.engine().sets().len()
        &&& self.ring()@ == sets_of_color(color)
    }

    /// The pattern names sets of the engine only.
    pub open spec fn pattern_fits(&self) -> bool {
        &&& self.ring()@.len() > 0
        &&& forall|i: int| 0 <= i < self.ring()@.len() ==> self.engine().has_set(#[trigger] self.ring()@[i])
    }

    /// The engine is well formed and has not accessed anything beyond its
    /// work buffer, and once the ring has been located the pattern is not
    /// empty and names sets of the engine only.
    pub open spec fn wf(&self) -> bool {
        &&& self.engine().wf()
        &&& self.engine().confined()
        &&& self.is_initialized() ==> self.pattern_fits()
    }

    /// Nothing but the connection, the sender and the sink differs between
    /// the two, but for the accesses that were made and the measurements
    /// that were saved since.
    pub open spec fn tracker_kept(&self, before: &Self) -> bool {
        &&& self.measuring_runs() == before.measuring_runs()
        &&& self.kept_over_runs(before)
    }

    /// Nothing but the connection, the sender and the sink differs between
    /// the two, but for the accesses that were made, the measurements that
    /// were saved and the runs of measurements that were begun since.
    pub open spec fn kept_over_runs(&self, before: &Self) -> bool {
        &&& self.locating_rounds() == before.locating_rounds()
        &&& self.engine().engine_kept(&before.engine())
        &&& self.engine().stays_confined(&before.engine())
        &&& self.ring() == before.ring()
        &&& self.is_initialized() == before.is_initialized()
        &&& self.quiet() == before.quiet()
    }
}

/// Settles one round of measuring, given the probes of the window around the
/// position of the context. Where a packet was injected and the set after
/// the middle of the window was activated, the synchronization hit and the
/// position moves on by one. Where a packet was injected otherwise, the
/// synchronization missed and the position is recovered from the probes,
/// which fails if none of them registered an activation. Where no packet was
/// injected, the measurement counts as unsynchronized.
pub fn settle<A>(ctx: &mut TrackingContext, pattern: &Pattern, probes: &[ProbeResult<A>]) -> (r:
    Result<(), Error>)
    requires
        pattern@.len() > 0,
        probes@.len() > WINDOW_SIZE / 2 + 1,
        old(ctx)@.unsynced < usize::MAX,
    ensures
        old(ctx)@.is_injected && probes@[WINDOW_SIZE as int / 2 + 1] is Activated ==> r is Ok
            && final(ctx)@ == (TrackingState {
            pos: ((old(ctx)@.pos + 1) % (pattern@.len() as int)) as usize,
            unsynced: 0,
            should_send: false,
            sync_status: SyncStatus::Hit,
            ..old(ctx)@
        }),
        old(ctx)@.is_injected && !(probes@[WINDOW_SIZE as int / 2 + 1] is Activated) ==> (
        match crate::online_tracker::pattern::located(probes@) {
            Some(i) => r is Ok && final(ctx)@ == (TrackingState {
                pos: ((old(ctx)@.pos + i - WINDOW_SIZE / 2 + 1) % (pattern@.len() as int)) as usize,
                should_send: true,
                sync_status: SyncStatus::Miss,
                ..old(ctx)@
            }),
            None => (r matches Err(e) && e is Unrecoverable) && final(ctx)@ == old(ctx)@,
        }),
        !old(ctx)@.is_injected ==> r is Ok && final(ctx)@ == (TrackingState {
            unsynced: (old(ctx)@.unsynced + 1) as usize,
            should_send: false,
            sync_status: SyncStatus::NoSync,
            ..old(ctx)@
        }),
{
    if probes[WINDOW_SIZE / 2 + 1].is_activated() && ctx.is_injected() {
        ctx.sync_hit(pattern.next_pos(ctx.pos()));
    } else if ctx.is_injected() {
        let recovered = pattern.recover_next(ctx.pos(), probes)?;
        ctx.sync_miss(recovered);
    } else {
        ctx.unsynced_meaurement();
    }
    Ok(())
}

impl<C, R, S> OnlineTrackerBuilder<C, R, S> where
    C: CacheConnector<Item = Contents>,
    R: Record<LatsEntry>,
    S: PacketSender,
 {
    /// Sets the connection of the future `OnlineTracker`.
    pub fn set_conn(self, conn: C) -> (b: Self)
        ensures
            b@ == (BuilderState { conn: Some(conn), ..self@ }),
    {
        let mut b = self;
        b.conn = Some(conn);
        b
    }

    /// Sets the sink that the future `OnlineTracker` records to.
    pub fn set_output(self, output: R) -> (b: Self)
        ensures
            b@ == (BuilderState { output: Some(output), ..self@ }),
    {
        let mut b = self;
        b.output = Some(output);
        b
    }

    /// Sets the packet sender of the future `OnlineTracker`.
    pub fn set_sender(self, sender: S) -> (b: Self)
        ensures
            b@ == (BuilderState { sender: Some(sender), ..self@ }),
    {
        let mut b = self;
        b.sender = Some(sender);
        b
    }

    /// Sets whether the future `OnlineTracker` keeps quiet about its
    /// progress.
    pub fn set_quite(self, quite: bool) -> (b: Self)
        ensures
            b@ == (BuilderState { quite, ..self@ }),
    {
        let mut b = self;
        b.quite = quite;
        b
    }

    /// Sets the description of the observed cache.
    pub fn set_cache(self, cparam: CacheParams) -> (b: Self)
        ensures
            b@ == (BuilderState { cparam: Some(cparam), ..self@ }),
    {
        let mut b = self;
        b.cparam = Some(cparam);
        b
    }

    /// Finishes the construction: builds the eviction sets of the cache that
    /// was described, or of the default cache where none was. Fails as
    /// incomplete if the connection, the sink or the sender is not set, and
    /// otherwise where the construction of the sets gives up.
    pub fn finalize(self) -> (r: Result<OnlineTracker<C, R, S>, Error>)
        ensures
            (r matches Err(e) && e is BuilderIncomplete) <==> (self@.conn is None || self@.output
                is None || self@.sender is None),
            r matches Ok(t) ==> t.packets_sent() == 0 && t.locating_rounds() == 0
                && t.measuring_runs() == 0,
            r matches Ok(t) ==> t.wf() && !t.is_initialized() && t.quiet() == self@.quite
                && t.saved().len() == 0 && t.engine().quiet() == self@.quite
                && t.engine().sets().len() == (
            match self@.cparam {
                Some(cp) => RppParams::of(cp@).n_colors,
                None => RppParams::of(CacheParams::geometry(64, 12, 12, 6_291_456, 5000)).n_colors,
            }),
            r matches Ok(t) ==> t.engine().sets_selected(),
            r matches Ok(t) ==> exists|
                untrained: TimingClassifier,
                first: Seq<Sample>,
                trained: TimingClassifier,
                rounds: Seq<BuildRound>,
            | #[trigger] t.engine().built_by(untrained, first, trained, rounds),
            (r matches Err(e) && e is Exhausted) ==> exists|
                rpp: Rpp<C>,
                untrained: TimingClassifier,
                first: Seq<Sample>,
                trained: TimingClassifier,
                rounds: Seq<BuildRound>,
            |
                #[trigger] rpp.ran_dry(
                    planned_layout(self@.cparam),
                    untrained,
                    first,
                    trained,
                    rounds,
                ),
            (r matches Err(e) && e is DerivationFailed) ==> exists|
                rpp: Rpp<C>,
                set: Seq<Address>,
                ds: Seq<Derivation>,
            |
                #[trigger] rpp.abandoned(planned_layout(self@.cparam), set, ds),
            r matches Err(e) ==> e is BuilderIncomplete || e is Exhausted || e is DerivationFailed
                || e is Transport,
    {
        let conn = match self.conn {
            Some(c) => c,
            None => {
                return Err(Error::BuilderIncomplete);
            },
        };
        let output = match self.output {
            Some(o) => o,
            None => {
                return Err(Error::BuilderIncomplete);
            },
        };
        let sender = match self.sender {
            Some(s) => s,
            None => {
                return Err(Error::BuilderIncomplete);
            },
        };
        let cparam = match self.cparam {
            Some(cp) => cp,
            None => CacheParams::default(),
        };
        let quite = self.quite;
        let ghost layout = RppParams::of(cparam@);
        let rpp = match Rpp::with_params(conn, quite, cparam) {
            Ok(rpp) => rpp,
            Err(e) => {
                proof {
                    if e is DerivationFailed {
                        let (rpp, set, ds) = choose|
                            rpp: Rpp<C>,
                            set: Seq<Address>,
                            ds: Seq<Derivation>,
                        | #[trigger] rpp.abandoned(layout, set, ds);
                        assert(layout == planned_layout(self@.cparam));
                        assert(rpp.abandoned(planned_layout(self@.cparam), set, ds));
                    }
                    if e is Exhausted {
                        let (rpp, untrained, first, trained, rounds) = choose|
                            rpp: Rpp<C>,
                            untrained: TimingClassifier,
                            first: Seq<Sample>,
                            trained: TimingClassifier,
                            rounds: Seq<BuildRound>,
                        | #[trigger] rpp.ran_dry(layout, untrained, first, trained, rounds);
                        assert(layout == planned_layout(self@.cparam));
                        assert(rpp.ran_dry(
                            planned_layout(self@.cparam),
                            untrained,
                            first,
                            trained,
                            rounds,
                        ));
                    }
                }
                return Err(e);
            },
        };
        let ghost (untrained, first, trained, rounds) = choose|
            untrained: TimingClassifier,
            first: Seq<Sample>,
            trained: TimingClassifier,
            rounds: Seq<BuildRound>,
        | #[trigger] rpp.built_by(untrained, first, trained, rounds);
        let r = Ok(
            OnlineTracker {
                rpp,
                output,
                sender,
                pattern: Pattern::default(),
                quite,
                init: false,
                saved: Ghost(Seq::empty()),
                sent: Ghost(0),
                tries: Ghost(0),
                runs: Ghost(0),
                marks: Ghost(Seq::empty()),
                faults: Ghost(0),
            },
        );
        assert(r matches Ok(t) && t.engine().built_by(untrained, first, trained, rounds));
        r
    }
}

impl<C, R, S> OnlineTracker<C, R, S> where
    C: CacheConnector<Item = Contents>,
    R: Record<LatsEntry>,
    S: PacketSender,
 {
    /// Sets whether the tracker keeps quiet about its progress.
    pub fn set_quite(&mut self, quite: bool)
        ensures
            final(self).quiet() == quite,
            final(self).engine() == old(self).engine(),
            final(self).ring() == old(self).ring(),
            final(self).is_initialized() == old(self).is_initialized(),
            final(self).saved() == old(self).saved(),
            final(self).sent_by() == old(self).sent_by(),
            final(self).failures_borne() == old(self).failures_borne(),
    {
        self.quite = quite;
    }

    /// Tells whether the tracker keeps quiet about its progress.
    pub fn is_quiet(&self) -> (b: bool)
        ensures
            b == self.quiet(),
    {
        self.quite
    }

    /// Has the sender send one control packet. Fails where the sender does,
    /// and no packet counts as sent then.
    fn send(&mut self) -> (r: Result<(), Error>)
        ensures
            final(self).tracker_kept(old(self)),
            final(self).saved() == old(self).saved(),
            final(self).sent_by() == old(self).sent_by(),
            final(self).failures_borne() == old(self).failures_borne(),
            final(self).engine().accesses() == old(self).engine().accesses(),
            final(self).locating_rounds() == old(self).locating_rounds(),
            r is Ok ==> final(self).packets_sent() == old(self).packets_sent() + 1,
            r is Err ==> final(self).packets_sent() == old(self).packets_sent(),
            r matches Err(e) ==> e is Transport,
    {
        match self.sender.send_packet() {
            Ok(()) => {
                self.sent = Ghost(self.sent@ + 1);
                Ok(())
            },
            Err(e) => Err(Error::Transport(e)),
        }
    }

    /// Saves one measurement.
    fn save(&mut self, probes: Vec<ProbeResult<Latencies>>, stat: SyncStatus, timestamp: Time) -> (r:
        Result<(), Error>)
        ensures
            final(self).tracker_kept(old(self)),
            final(self).packets_sent() == old(self).packets_sent(),
            r is Ok ==> final(self).saved() == old(self).saved().push((probes, stat, timestamp)),
            r is Ok ==> final(self).sent_by() == old(self).sent_by().push(old(self).packets_sent()),
            r is Err ==> final(self).saved() == old(self).saved(),
            r is Err ==> final(self).sent_by() == old(self).sent_by(),
            final(self).failures_borne() == old(self).failures_borne(),
            r matches Err(e) ==> e is Transport,
    {
        let ghost entry = (probes, stat, timestamp);
        match self.output.record((probes, stat, timestamp)) {
            Ok(()) => {
                self.saved = Ghost(self.saved@.push(entry));
                self.marks = Ghost(self.marks@.push(self.sent@));
                Ok(())
            },
            Err(e) => Err(Error::Transport(e)),
        }
    }

    /// Locates the receive ring in the cache, trying again after a failure
    /// until it is found or `MAX_FAIL_CNT` tries after the first have failed
    /// too; the ring then counts as not located. The pattern that was there
    /// before stays in that case. The ring is located on one color: on the
    /// one color whose trace, in the last round of locating, shows a
    /// pattern, which is then the sets of that color in their order.
    pub fn init(&mut self) -> (r: Result<(), Error>)
        requires
            old(self).wf(),
        ensures
            final(self).wf(),
            final(self).engine().engine_kept(&old(self).engine()),
            final(self).quiet() == old(self).quiet(),
            final(self).saved() == old(self).saved(),
            final(self).sent_by() == old(self).sent_by(),
            exists|rounds: Seq<FailedRound>|
                {
                    &&& #[trigger] rounds_failed(
                        final(self).engine().accesses(),
                        old(self).engine().accesses().len() as int,
                        old(self).engine().sets(),
                        old(self).engine().timings(),
                        rounds,
                    )
                    &&& rounds.len() + (if r is Ok {
                        1nat
                    } else {
                        0nat
                    }) == final(self).locating_rounds() - old(self).locating_rounds()
                    &&& final(self).failures_borne() == old(self).failures_borne() + broken_rounds(
                        rounds,
                    )
                },
            r is Ok ==> final(self).is_initialized(),
            r is Ok ==> exists|color: ColorCode| final(self).on_color(color),
            r is Ok ==> exists|
                start: int,
                color: ColorCode,
                traces: Map<ColorCode, Vec<Sighting>>,
                lats: Seq<Seq<Seq<Time>>>,
            |
                start >= old(self).engine().accesses().len() && #[trigger] final(self).found_by(
                    start,
                    color,
                    traces,
                    lats,
                ),
            1 <= final(self).locating_rounds() - old(self).locating_rounds() <= MAX_FAIL_CNT + 1,
            r is Err ==> final(self).locating_rounds() - old(self).locating_rounds()
                == MAX_FAIL_CNT + 1,
            final(self).measuring_runs() == old(self).measuring_runs(),
            final(self).packets_sent() >= old(self).packets_sent(),
            r is Ok ==> final(self).packets_sent() >= old(self).packets_sent() + 2 * REPEATINGS
                * NUM_VARIANTS * old(self).engine().sets().len(),
            r is Err
                ==> final(self).is_initialized() == old(self).is_initialized()
                    && final(self).ring() == old(self).ring(),
            r matches Err(e) ==> e is NotLocated,
    {
        let mut err_cnt: usize = 0;
        let mut located = false;
        let ghost mut rounds: Seq<FailedRound> = Seq::empty();
        while !located
            invariant
                rounds.len() == err_cnt,
                rounds_failed(
                    self.engine().accesses(),
                    old(self).engine().accesses().len() as int,
                    old(self).engine().sets(),
                    old(self).engine().timings(),
                    rounds,
                ),
                self.failures_borne() == old(self).failures_borne() + broken_rounds(rounds),
                self.locating_rounds() == old(self).locating_rounds() + err_cnt + if located {
                    1nat
                } else {
                    0nat
                },
                located ==> exists|
                    start: int,
                    color: ColorCode,
                    traces: Map<ColorCode, Vec<Sighting>>,
                    lats: Seq<Seq<Seq<Time>>>,
                |
                    start >= old(self).engine().accesses().len() && #[trigger] self.found_by(
                        start,
                        color,
                        traces,
                        lats,
                    ),
                self.wf(),
                self.engine().engine_kept(&old(self).engine()),
                self.quiet() == old(self).quiet(),
                self.saved() == old(self).saved(),
                self.sent_by() == old(self).sent_by(),
                self.measuring_runs() == old(self).measuring_runs(),
                self.packets_sent() >= old(self).packets_sent(),
                located ==> self.packets_sent() >= old(self).packets_sent() + 2 * REPEATINGS
                    * NUM_VARIANTS * old(self).engine().sets().len(),
                self.is_initialized() == old(self).is_initialized(),
                !located ==> self.ring() == old(self).ring(),
                located ==> self.pattern_fits(),
                located ==> exists|color: ColorCode| self.on_color(color),
                err_cnt <= MAX_FAIL_CNT,
            decreases
                    if located {
                        0int
                    } else {
                        1int
                    },
                    MAX_FAIL_CNT - err_cnt,
        {
            let ghost tried = self.engine().accesses().len() as int;
            let ghost before = self.engine().accesses();
            match self.locate_rx() {
                Ok(()) => {
                    located = true;
                    proof {
                        lemma_rounds_kept(
                            self.engine().accesses(),
                            before,
                            old(self).engine().accesses().len() as int,
                            old(self).engine().sets(),
                            old(self).engine().timings(),
                            rounds,
                        );
                        let (color, traces, lats) = choose|
                            color: ColorCode,
                            traces: Map<ColorCode, Vec<Sighting>>,
                            lats: Seq<Seq<Seq<Time>>>,
                        | #[trigger] self.found_by(tried, color, traces, lats);
                        assert(tried >= old(self).engine().accesses().len() && self.found_by(
                            tried,
                            color,
                            traces,
                            lats,
                        ));
                    }
                },
                Err(e) => {
                    let ghost mut how = Blind::Broken;
                    match e {
                        Error::Indecisive => {
                            proof {
                                let (traces, lats) = choose|
                                    traces: Map<ColorCode, Vec<Sighting>>,
                                    lats: Seq<Seq<Seq<Time>>>,
                                |
                                    {
                                        &&& #[trigger] located_by(
                                            before,
                                            self.engine().accesses(),
                                            old(self).engine().sets(),
                                            old(self).engine().timings(),
                                            traces,
                                            lats,
                                        )
                                        &&& forall|color: ColorCode| !decides(traces, color)
                                    };
                                how = Blind::Indecisive(traces, lats);
                            }
                        },
                        _ => {
                            self.faults = Ghost(self.faults@ + 1);
                        },
                    }
                    proof {
                        let acc = self.engine().accesses();
                        let round = FailedRound {
                            start: before.len() as int,
                            end: acc.len() as int,
                            how,
                        };
                        assert(acc.subrange(0, before.len() as int) =~= before);
                        assert(acc.subrange(0, acc.len() as int) =~= acc);
                        assert(round_failed(
                            acc,
                            old(self).engine().sets(),
                            old(self).engine().timings(),
                            before.len() as int,
                            round,
                        ));
                        lemma_rounds_extended(
                            before,
                            acc,
                            old(self).engine().accesses().len() as int,
                            old(self).engine().sets(),
                            old(self).engine().timings(),
                            rounds,
                            round,
                        );
                        rounds = rounds.push(round);
                    }
                    if err_cnt >= MAX_FAIL_CNT {
                        return Err(Error::NotLocated);
                    }
                    err_cnt += 1;
                },
            }
        }
        let ghost color = choose|color: ColorCode| self.on_color(color);
        let ghost (start, by, traces, lats) = choose|
            start: int,
            color: ColorCode,
            traces: Map<ColorCode, Vec<Sighting>>,
            lats: Seq<Seq<Seq<Time>>>,
        |
            start >= old(self).engine().accesses().len() && #[trigger] self.found_by(
                start,
                color,
                traces,
                lats,
            );
        self.init = true;
        proof {
            assert(self.on_color(color));
            assert(self.found_by(start, by, traces, lats));
        }
        Ok(())
    }

    /// Takes `cnt` measurements and records them. Fails as uninitialized
    /// where the ring has not been located. A run of measurements that
    /// fails is started anew, until one succeeds or `MAX_FAIL_CNT` runs
    /// after the first have failed too; the failure of the last run is then
    /// handed on. The last `cnt` measurements that were saved are those of
    /// the run that succeeded.
    pub fn track(&mut self, cnt: usize) -> (r: Result<(), Error>)
        requires
            old(self).wf(),
        ensures
            final(self).wf(),
            final(self).kept_over_runs(old(self)),
            final(self).saved_since(old(self)),
            old(self).is_initialized() ==> 1 <= final(self).measuring_runs() - old(
                self,
            ).measuring_runs() <= MAX_FAIL_CNT + 1,
            old(self).is_initialized() && r is Err ==> final(self).measuring_runs() - old(
                self,
            ).measuring_runs() == MAX_FAIL_CNT + 1,
            r is Ok ==> final(self).saved().len() >= old(self).saved().len() + cnt,
            final(self).packets_sent() >= old(self).packets_sent(),
            r is Ok ==> final(self).packets_sent() > old(self).packets_sent() + injections(
                final(self).saved().subrange(
                    final(self).saved().len() - cnt,
                    final(self).saved().len() as int,
                ),
            ),
            r is Ok ==> statuses_follow(
                final(self).saved().subrange(
                    final(self).saved().len() - cnt,
                    final(self).saved().len() as int,
                ),
            ),
            r is Ok ==> stamps_ascend(
                final(self).saved().subrange(
                    final(self).saved().len() - cnt,
                    final(self).saved().len() as int,
                ),
            ),
            r is Ok ==> exists|started: nat|
                {
                    &&& #[trigger] paced(
                        final(self).sent_by().subrange(
                            final(self).sent_by().len() - cnt,
                            final(self).sent_by().len() as int,
                        ),
                        started,
                        final(self).saved().subrange(
                            final(self).saved().len() - cnt,
                            final(self).saved().len() as int,
                        ),
                    )
                    &&& final(self).packets_sent() == if cnt == 0 {
                        started
                    } else {
                        final(self).sent_by().last()
                    }
                },
            (r matches Err(e) && e is Unrecoverable) ==> exists|
                sets: Seq<Seq<Address>>,
                p: IdleProbe,
            | #[trigger] final(self).lost_the_ring(old(self), sets, p),
            (r matches Err(e) && e is NoActivation) ==> exists|
                from: int,
                sets: Seq<Seq<Address>>,
                probes: Seq<IdleProbe>,
            | #[trigger] final(self).waited_in_vain(old(self), from, sets, probes),
            final(self).failures_borne() >= old(self).failures_borne(),
            !old(self).is_initialized() ==> *final(self) == *old(self),
            (r matches Err(e) && e is Uninitialized) <==> !old(self).is_initialized(),
            r matches Err(e) ==> e is Uninitialized || e is Transport || e is NoActivation || e
                is Unrecoverable,
    {
        if !self.init {
            return Err(Error::Uninitialized);
        }
        let mut err_cnt: usize = 0;
        let mut done = false;
        while !done
            invariant
                old(self).wf(),
                old(self).is_initialized(),
                self.kept_over_runs(old(self)),
                self.measuring_runs() == old(self).measuring_runs() + err_cnt + if done {
                    1nat
                } else {
                    0nat
                },
                self.saved_since(old(self)),
                done ==> self.saved().len() >= old(self).saved().len() + cnt,
                self.packets_sent() >= old(self).packets_sent(),
                done ==> self.packets_sent() > old(self).packets_sent() + injections(
                    self.saved().subrange(self.saved().len() - cnt, self.saved().len() as int),
                ),
                done ==> statuses_follow(
                    self.saved().subrange(self.saved().len() - cnt, self.saved().len() as int),
                ),
                done ==> stamps_ascend(
                    self.saved().subrange(self.saved().len() - cnt, self.saved().len() as int),
                ),
                done ==> exists|started: nat|
                    {
                        &&& #[trigger] paced(
                            self.sent_by().subrange(
                                self.sent_by().len() - cnt,
                                self.sent_by().len() as int,
                            ),
                            started,
                            self.saved().subrange(
                                self.saved().len() - cnt,
                                self.saved().len() as int,
                            ),
                        )
                        &&& self.packets_sent() == if cnt == 0 {
                            started
                        } else {
                            self.sent_by().last()
                        }
                    },
                self.failures_borne() >= old(self).failures_borne(),
                err_cnt <= MAX_FAIL_CNT,
            decreases
                    if done {
                        0int
                    } else {
                        1int
                    },
                    MAX_FAIL_CNT - err_cnt,
        {
            self.runs = Ghost(self.runs@ + 1);
            let ghost round = *self;
            let measured = self.measure(cnt);
            proof {
                self.lemma_saved_since(&round, old(self));
                if measured matches Err(Error::Unrecoverable) {
                    let (sets, p) = choose|sets: Seq<Seq<Address>>, p: IdleProbe|
                        #[trigger] self.lost_the_ring(&round, sets, p);
                    assert(self.lost_the_ring(old(self), sets, p));
                }
                if measured matches Err(Error::NoActivation) {
                    let (sets, probes) = choose|sets: Seq<Seq<Address>>, probes: Seq<IdleProbe>|
                        #[trigger] self.waited_in_vain(
                            &round,
                            round.engine().accesses().len() as int,
                            sets,
                            probes,
                        );
                    assert(self.waited_in_vain(
                        old(self),
                        round.engine().accesses().len() as int,
                        sets,
                        probes,
                    ));
                }
                if measured is Ok {
                    let started = choose|started: nat|
                        {
                            &&& #[trigger] paced(
                                self.sent_by().subrange(
                                    round.sent_by().len() as int,
                                    self.sent_by().len() as int,
                                ),
                                started,
                                self.saved().subrange(
                                    round.saved().len() as int,
                                    self.saved().len() as int,
                                ),
                            )
                            &&& self.packets_sent() == if cnt == 0 {
                                started
                            } else {
                                self.sent_by().last()
                            }
                        };
                    assert(paced(
                        self.sent_by().subrange(
                            self.sent_by().len() - cnt,
                            self.sent_by().len() as int,
                        ),
                        started,
                        self.saved().subrange(self.saved().len() - cnt, self.saved().len() as int),
                    ));
                }
            }
            match measured {
                Ok(()) => {
                    done = true;
                },
                Err(e) => {
                    if err_cnt >= MAX_FAIL_CNT {
                        return Err(e);
                    }
                    err_cnt += 1;
                },
            }
        }
        Ok(())
    }

    /// Locates the receive ring: gathers a trace for each color and picks
    /// the pattern out of them. The ring is taken to lie on a single page.
    fn locate_rx(&mut self) -> (r: Result<(), Error>)
        requires
            old(self).wf(),
        ensures
            final(self).engine().engine_kept(&old(self).engine()),
            final(self).engine().stays_confined(&old(self).engine()),
            final(self).quiet() == old(self).quiet(),
            final(self).saved() == old(self).saved(),
            final(self).sent_by() == old(self).sent_by(),
            final(self).failures_borne() == old(self).failures_borne(),
            final(self).is_initialized() == old(self).is_initialized(),
            final(self).locating_rounds() == old(self).locating_rounds() + 1,
            final(self).measuring_runs() == old(self).measuring_runs(),
            final(self).packets_sent() >= old(self).packets_sent(),
            r is Ok ==> final(self).packets_sent() == old(self).packets_sent() + 2 * REPEATINGS
                * NUM_VARIANTS * old(self).engine().sets().len(),
            r is Ok ==> final(self).pattern_fits(),
            r is Ok ==> exists|color: ColorCode| final(self).on_color(color),
            r is Ok ==> exists|
                color: ColorCode,
                traces: Map<ColorCode, Vec<Sighting>>,
                lats: Seq<Seq<Seq<Time>>>,
            |
                #[trigger] final(self).found_by(
                    old(self).engine().accesses().len() as int,
                    color,
                    traces,
                    lats,
                ),
            r is Err ==> final(self).ring() == old(self).ring(),
            (r matches Err(e) && e is Indecisive) ==> exists|
                traces: Map<ColorCode, Vec<Sighting>>,
                lats: Seq<Seq<Seq<Time>>>,
            |
                {
                    &&& #[trigger] located_by(
                        old(self).engine().accesses(),
                        final(self).engine().accesses(),
                        old(self).engine().sets(),
                        old(self).engine().timings(),
                        traces,
                        lats,
                    )
                    &&& forall|color: ColorCode| !decides(traces, color)
                },
            r matches Err(e) ==> e is Transport || e is Indecisive,
    {
        self.tries = Ghost(self.tries@ + 1);
        let patterns = self.locate_rx_round()?;
        let ghost traces = patterns@;
        let ghost scan = choose|lats: Seq<Seq<Seq<Time>>>|
            #[trigger] located_by(
                old(self).engine().accesses(),
                self.engine().accesses(),
                old(self).engine().sets(),
                old(self).engine().timings(),
                traces,
                lats,
            );
        let found = match Pattern::find(patterns) {
            Ok(found) => found,
            Err(e) => {
                proof {
                    assert(located_by(
                        old(self).engine().accesses(),
                        self.engine().accesses(),
                        old(self).engine().sets(),
                        old(self).engine().timings(),
                        traces,
                        scan,
                    ));
                    assert forall|color: ColorCode| !decides(traces, color) by {}
                }
                return Err(e);
            },
        };
        let ghost mut located: ColorCode = 0;
        proof {
            let sets = self.engine().sets();
            let (color, pat) = choose|color: ColorCode, pat: Seq<ColoredSetCode>|
                decides(traces, color) && shows_pattern(traces[color]@, pat) && found@ == coded(
                    color,
                    pat,
                );
            let trace = traces[color]@;
            let n = sets[color as int].len() as int;
            assert(traces.contains_key(color));
            assert(n == NUM_VARIANTS);
            assert(pass_len(trace) == n);
            assert forall|i: int| 0 <= i < found@.len() implies self.engine().has_set(
                #[trigger] found@[i],
            ) by {
                assert(wins(trace, i, pat[i]));
                lemma_tally_sighted(trace, pass_len(trace), i, pat[i], trace.len() as int);
                let j = choose|j: int|
                    0 <= j < trace.len() && j % pass_len(trace) == i && #[trigger] trace[j]
                        == Some(pat[i]);
                assert(trace[j] == Some((j % n) as usize));
            }
            assert forall|i: int| 0 <= i < found@.len() implies found@[i] == SetCode(
                color,
                i as usize,
            ) by {
                assert(wins(trace, i, pat[i]));
                lemma_tally_sighted(trace, pass_len(trace), i, pat[i], trace.len() as int);
                let j = choose|j: int|
                    0 <= j < trace.len() && j % pass_len(trace) == i && #[trigger] trace[j]
                        == Some(pat[i]);
                assert(trace[j] == Some((j % n) as usize));
            }
            assert(found@ =~= sets_of_color(color));
            assert(decides(traces, color));
            located = color;
        }
        self.pattern = found;
        proof {
            assert(self.on_color(located));
            let start = old(self).engine().accesses().len() as int;
            assert(self.engine().accesses().subrange(0, start) =~= old(self).engine().accesses());
            assert(self.found_by(start, located, traces, scan));
        }
        Ok(())
    }

    /// Gathers the trace of one color: `REPEATINGS` passes over its sets, in
    /// each of which every set is primed and, after two packets were sent,
    /// probed. A sighting names the set that was probed, if the probe
    /// registered an activation.
    fn scan_color(&mut self, color_code: ColorCode) -> (r: Result<Vec<Sighting>, Error>)
        requires
            old(self).wf(),
            color_code < old(self).engine().sets().len(),
        ensures
            final(self).tracker_kept(old(self)),
            final(self).saved() == old(self).saved(),
            final(self).sent_by() == old(self).sent_by(),
            final(self).failures_borne() == old(self).failures_borne(),
            r matches Ok(trace) ==> exists|lats: Seq<Seq<Time>>|
                {
                    &&& #[trigger] traced(
                        old(self).engine().sets()[color_code as int],
                        old(self).engine().timings(),
                        trace@,
                        lats,
                    )
                    &&& final(self).engine().accesses() == old(self).engine().accesses()
                        + scan_accesses(old(self).engine().sets()[color_code as int], lats)
                },
            r matches Ok(trace) ==> final(self).packets_sent() == old(self).packets_sent() + 2
                * trace@.len(),
            final(self).packets_sent() >= old(self).packets_sent(),
            r matches Err(e) ==> e is Transport,
    {
        let color_len = self.rpp.color_len(color_code);
        let mut pattern: Vec<Sighting> = Vec::with_capacity(color_len);
        let ghost sets = self.engine().sets();
        let ghost color_sets = sets[color_code as int];
        let ghost timings = self.engine().timings();
        let ghost mut lats: Seq<Seq<Time>> = Seq::empty();
        let mut round: usize = 0;
        proof {
            assert(self.engine().accesses() =~= old(self).engine().accesses() + scan_accesses(
                color_sets,
                lats,
            ));
        }
        while round < REPEATINGS
            invariant
                old(self).wf(),
                self.tracker_kept(old(self)),
                self.saved() == old(self).saved(),
                self.sent_by() == old(self).sent_by(),
                self.failures_borne() == old(self).failures_borne(),
                sets == old(self).engine().sets(),
                timings == old(self).engine().timings(),
                color_code < sets.len(),
                color_sets == sets[color_code as int],
                color_len == color_sets.len(),
                round <= REPEATINGS,
                pattern@.len() == round * color_len,
                lats.len() == pattern@.len(),
                forall|j: int|
                    0 <= j < pattern@.len() ==> #[trigger] pattern@[j] == sighting(
                        timings,
                        lats[j],
                        (j % (color_len as int)) as usize,
                    ),
                self.engine().accesses() == old(self).engine().accesses() + scan_accesses(
                    color_sets,
                    lats,
                ),
                self.packets_sent() == old(self).packets_sent() + 2 * pattern@.len(),
            decreases REPEATINGS - round,
        {
            let mut colored_set_code: usize = 0;
            while colored_set_code < color_len
                invariant
                    old(self).wf(),
                    self.tracker_kept(old(self)),
                    self.saved() == old(self).saved(),
                    self.sent_by() == old(self).sent_by(),
                    self.failures_borne() == old(self).failures_borne(),
                    sets == old(self).engine().sets(),
                    timings == old(self).engine().timings(),
                    color_code < sets.len(),
                    color_sets == sets[color_code as int],
                    color_len == color_sets.len(),
                    round < REPEATINGS,
                    colored_set_code <= color_len,
                    pattern@.len() == round * color_len + colored_set_code,
                    lats.len() == pattern@.len(),
                    forall|j: int|
                        0 <= j < pattern@.len() ==> #[trigger] pattern@[j] == sighting(
                            timings,
                            lats[j],
                            (j % (color_len as int)) as usize,
                        ),
                    self.engine().accesses() == old(self).engine().accesses() + scan_accesses(
                        color_sets,
                        lats,
                    ),
                    self.packets_sent() == old(self).packets_sent() + 2 * pattern@.len(),
                decreases color_len - colored_set_code,
            {
                let set_code = SetCode(color_code, colored_set_code);
                self.rpp.prime(&set_code)?;
                self.send()?;
                self.send()?;
                let probe = self.rpp.probe(&set_code)?;
                proof {
                    vstd::arithmetic::div_mod::lemma_mod_multiples_vanish(
                        round as int,
                        colored_set_code as int,
                        color_len as int,
                    );
                    vstd::arithmetic::div_mod::lemma_small_mod(
                        colored_set_code as nat,
                        color_len as nat,
                    );
                    assert(color_len * round == round * color_len) by (nonlinear_arith);
                    let known = lats;
                    lats = lats.push(probe.data()@);
                    assert(lats.drop_last() =~= known);
                    assert(color_sets[colored_set_code as int] == self.engine().set_of(set_code));
                    assert(self.engine().accesses() =~= old(self).engine().accesses()
                        + scan_accesses(color_sets, lats));
                }
                if probe.is_activated() {
                    pattern.push(Some(set_code.1));
                } else {
                    pattern.push(None);
                }
                colored_set_code += 1;
            }
            proof {
                assert((round + 1) * color_len == round * color_len + color_len)
                    by (nonlinear_arith);
            }
            round += 1;
        }
        proof {
            assert(pattern@.len() == REPEATINGS * color_sets.len()) by (nonlinear_arith)
                requires
                    pattern@.len() == round * color_len,
                    round == REPEATINGS,
                    color_len == color_sets.len(),
            ;
            assert(traced(
                old(self).engine().sets()[color_code as int],
                old(self).engine().timings(),
                pattern@,
                lats,
            ));
            assert(self.engine().accesses() == old(self).engine().accesses() + scan_accesses(
                old(self).engine().sets()[color_code as int],
                lats,
            ));
        }
        let ghost witness = lats;
        let r = Ok(pattern);
        assert(r matches Ok(trace) && traced(
            old(self).engine().sets()[color_code as int],
            old(self).engine().timings(),
            trace@,
            witness,
        ));
        r
    }

    /// Gathers the traces of all colors, color after color: see
    /// [`located_by`]. Two packets are sent before each probe.
    fn locate_rx_round(&mut self) -> (r: Result<PossiblePatterns, Error>)
        requires
            old(self).wf(),
        ensures
            final(self).tracker_kept(old(self)),
            final(self).saved() == old(self).saved(),
            final(self).sent_by() == old(self).sent_by(),
            final(self).failures_borne() == old(self).failures_borne(),
            r matches Ok(m) ==> traces_of(m@, old(self).engine().sets()),
            r matches Ok(m) ==> exists|lats: Seq<Seq<Seq<Time>>>|
                #[trigger] located_by(
                    old(self).engine().accesses(),
                    final(self).engine().accesses(),
                    old(self).engine().sets(),
                    old(self).engine().timings(),
                    m@,
                    lats,
                ),
            r is Ok ==> final(self).packets_sent() == old(self).packets_sent() + 2 * REPEATINGS
                * NUM_VARIANTS * old(self).engine().sets().len(),
            final(self).packets_sent() >= old(self).packets_sent(),
            r matches Err(e) ==> e is Transport,
    {
        broadcast use vstd::std_specs::hash::group_hash_axioms;

        let colors = self.rpp.colors_len();
        let mut patterns: PossiblePatterns = HashMap::with_capacity(colors);
        let ghost sets = self.engine().sets();
        let ghost timings = self.engine().timings();
        let ghost mut lats: Seq<Seq<Seq<Time>>> = Seq::empty();
        let mut color_code: usize = 0;
        proof {
            assert(self.engine().accesses() =~= old(self).engine().accesses() + locating_accesses(
                sets,
                lats,
            ));
        }
        while color_code < colors
            invariant
                old(self).wf(),
                self.tracker_kept(old(self)),
                self.saved() == old(self).saved(),
                self.sent_by() == old(self).sent_by(),
                self.failures_borne() == old(self).failures_borne(),
                sets == old(self).engine().sets(),
                timings == old(self).engine().timings(),
                colors == sets.len(),
                color_code <= colors,
                lats.len() == color_code,
                forall|c: ColorCode| patterns@.contains_key(c) <==> c < color_code,
                forall|c: ColorCode|
                    c < color_code ==> traced(
                        sets[c as int],
                        timings,
                        (#[trigger] patterns@[c])@,
                        lats[c as int],
                    ),
                self.engine().accesses() == old(self).engine().accesses() + locating_accesses(
                    sets,
                    lats,
                ),
                self.packets_sent() == old(self).packets_sent() + 2 * REPEATINGS * NUM_VARIANTS
                    * color_code,
            decreases colors - color_code,
        {
            let ghost before = self.engine().accesses();
            let ghost gathered = patterns@;
            let pattern = self.scan_color(color_code)?;
            proof {
                let scan = choose|scan: Seq<Seq<Time>>|
                    {
                        &&& #[trigger] traced(sets[color_code as int], timings, pattern@, scan)
                        &&& self.engine().accesses() == before + scan_accesses(
                            sets[color_code as int],
                            scan,
                        )
                    };
                let known = lats;
                lats = lats.push(scan);
                assert(lats.drop_last() =~= known);
                assert(self.engine().accesses() =~= old(self).engine().accesses()
                    + locating_accesses(sets, lats));
                assert(sets[color_code as int].len() == NUM_VARIANTS);
                assert(2 * REPEATINGS * NUM_VARIANTS * (color_code + 1) == 2 * REPEATINGS
                    * NUM_VARIANTS * color_code + 2 * (REPEATINGS * NUM_VARIANTS))
                    by (nonlinear_arith);
            }
            patterns.insert(color_code, pattern);
            proof {
                assert forall|c: ColorCode| c < color_code + 1 implies traced(
                    sets[c as int],
                    timings,
                    (#[trigger] patterns@[c])@,
                    lats[c as int],
                ) by {
                    if c < color_code {
                        assert(patterns@[c] == gathered[c]);
                    }
                }
            }
            color_code += 1;
        }
        proof {
            assert(located_by(
                old(self).engine().accesses(),
                self.engine().accesses(),
                old(self).engine().sets(),
                old(self).engine().timings(),
                patterns@,
                lats,
            ));
            assert forall|c: ColorCode, j: int|
                c < sets.len() && 0 <= j < patterns@[c]@.len() implies (
            #[trigger] patterns@[c]@[j]) is None || patterns@[c]@[j] == Some(
                (j % (sets[c as int].len() as int)) as usize,
            ) by {
                assert(traced(sets[c as int], timings, patterns@[c]@, lats[c as int]));
            }
        }
        let ghost witness = lats;
        let r = Ok(patterns);
        assert(r matches Ok(m) && located_by(
            old(self).engine().accesses(),
            self.engine().accesses(),
            old(self).engine().sets(),
            old(self).engine().timings(),
            m@,
            witness,
        ));
        r
    }

    /// Waits for the first set of the pattern to be activated: primes it,
    /// sends a packet and probes it, over and over. The ring is then taken
    /// to be at position 1. Gives up after `MAX_FAIL_CNT` failures of the
    /// connection or the sender, or after `MAX_IDLE_PROBES` probes without
    /// an activation.
    fn get_init_pos(&mut self) -> (r: Result<PatternIdx, Error>)
        requires
            old(self).wf(),
            old(self).is_initialized(),
        ensures
            final(self).tracker_kept(old(self)),
            final(self).saved() == old(self).saved(),
            final(self).sent_by() == old(self).sent_by(),
            final(self).locating_rounds() == old(self).locating_rounds(),
            final(self).packets_sent() >= old(self).packets_sent(),
            old(self).failures_borne() <= final(self).failures_borne() <= old(self).failures_borne()
                + MAX_FAIL_CNT,
            r matches Ok(p) ==> p == 1,
            r is Ok ==> final(self).packets_sent() > old(self).packets_sent(),
            r is Ok ==> exists|lats: Seq<Time>|
                #[trigger] ends_with_probe(
                    final(self).engine().accesses(),
                    old(self).engine().set_of(old(self).ring()@[0]),
                    lats,
                ) && registers_miss(old(self).engine().timings(), lats),
            r is Err ==> exists|probes: Seq<IdleProbe>|
                {
                    &&& #[trigger] idles(
                        final(self).engine().accesses(),
                        old(self).engine().accesses().len() as int,
                        old(self).engine().timings(),
                        seq![old(self).engine().set_of(old(self).ring()@[0])],
                        probes,
                    )
                    &&& (probes.len() == MAX_IDLE_PROBES || final(self).failures_borne() == old(
                        self,
                    ).failures_borne() + MAX_FAIL_CNT)
                },
            r matches Err(e) ==> e is NoActivation,
    {
        let first = self.pattern.get(0);
        let mut err_cnt: usize = 0;
        let mut idle: usize = 0;
        let mut activated = false;
        let ghost mut probes: Seq<IdleProbe> = Seq::empty();
        let ghost watched = seq![self.engine().set_of(first)];
        while !activated
            invariant
                self.locating_rounds() == old(self).locating_rounds(),
                self.packets_sent() >= old(self).packets_sent(),
                activated ==> self.packets_sent() > old(self).packets_sent(),
                activated ==> exists|lats: Seq<Time>|
                    #[trigger] ends_with_probe(
                        self.engine().accesses(),
                        old(self).engine().set_of(old(self).ring()@[0]),
                        lats,
                    ) && registers_miss(old(self).engine().timings(), lats),
                old(self).wf(),
                old(self).is_initialized(),
                self.tracker_kept(old(self)),
                self.saved() == old(self).saved(),
                self.sent_by() == old(self).sent_by(),
                first == self.ring()@[0],
                watched == seq![old(self).engine().set_of(old(self).ring()@[0])],
                probes.len() == idle,
                self.failures_borne() == old(self).failures_borne() + err_cnt,
                idles(
                    self.engine().accesses(),
                    old(self).engine().accesses().len() as int,
                    old(self).engine().timings(),
                    watched,
                    probes,
                ),
                err_cnt <= MAX_FAIL_CNT,
                idle <= MAX_IDLE_PROBES,
            decreases
                    if activated {
                        0int
                    } else {
                        1int
                    },
                    (MAX_FAIL_CNT - err_cnt) + (MAX_IDLE_PROBES - idle),
        {
            if err_cnt >= MAX_FAIL_CNT || idle >= MAX_IDLE_PROBES {
                return Err(Error::NoActivation);
            }
            let ghost before = self.engine().accesses();
            let ghost mut found: Option<IdleProbe> = None;
            match self.rpp.prime(&first) {
                Ok(()) => {
                    match self.send() {
                        Ok(()) => {
                            let ghost primed = self.engine().accesses();
                            match self.rpp.probe(&first) {
                                Ok(probe) => {
                                    proof {
                                        let set = self.engine().set_of(first);
                                        let acc = self.engine().accesses();
                                        assert(acc.subrange(
                                            acc.len() - set.len(),
                                            acc.len() as int,
                                        ) =~= timed(set, probe.data()@));
                                    }
                                    if probe.is_activated() {
                                        proof {
                                            let set = self.engine().set_of(first);
                                            assert(set == old(self).engine().set_of(
                                                old(self).ring()@[0],
                                            ));
                                            assert(ends_with_probe(
                                                self.engine().accesses(),
                                                old(self).engine().set_of(old(self).ring()@[0]),
                                                probe.data()@,
                                            ));
                                            assert(registers_miss(
                                                old(self).engine().timings(),
                                                probe.data()@,
                                            ));
                                        }
                                        activated = true;
                                    } else {
                                        proof {
                                            let set = self.engine().set_of(first);
                                            let p = IdleProbe {
                                                at: primed.len() as int,
                                                lats: seq![probe.data()@],
                                            };
                                            lemma_probe_of_one(set, probe.data()@);
                                            assert(idle_probe(
                                                self.engine().accesses(),
                                                old(self).engine().timings(),
                                                watched,
                                                before.len() as int,
                                                p,
                                            ));
                                            found = Some(p);
                                        }
                                        idle += 1;
                                    }
                                },
                                Err(_) => {
                                    self.faults = Ghost(self.faults@ + 1);
                                    err_cnt += 1;
                                },
                            }
                        },
                        Err(_) => {
                            self.faults = Ghost(self.faults@ + 1);
                            err_cnt += 1;
                        },
                    }
                },
                Err(_) => {
                    self.faults = Ghost(self.faults@ + 1);
                    err_cnt += 1;
                },
            }
            proof {
                match found {
                    Some(p) => {
                        lemma_idles_extended(
                            before,
                            self.engine().accesses(),
                            old(self).engine().accesses().len() as int,
                            old(self).engine().timings(),
                            watched,
                            probes,
                            p,
                        );
                        probes = probes.push(p);
                    },
                    None => {
                        lemma_idles_kept(
                            self.engine().accesses(),
                            before,
                            old(self).engine().accesses().len() as int,
                            old(self).engine().timings(),
                            watched,
                            probes,
                        );
                    },
                }
            }
        }
        Ok(1)
    }

    /// Probes the sets of the window until one of them is activated or a
    /// packet has been injected. Before each probe a packet is injected if
    /// the context asks for one. Gives up after `MAX_IDLE_PROBES` probes
    /// without an activation.
    fn await_activation(&mut self, ctx: &mut TrackingContext, es: &Vec<SetCode>) -> (r: Result<
        Vec<ProbeResult<Latencies>>,
        Error,
    >)
        requires
            old(self).wf(),
            forall|i: int| 0 <= i < es@.len() ==> old(self).engine().has_set(#[trigger] es@[i]),
        ensures
            final(self).tracker_kept(old(self)),
            final(self).saved() == old(self).saved(),
            final(self).sent_by() == old(self).sent_by(),
            final(self).failures_borne() == old(self).failures_borne(),
            final(ctx)@ == (TrackingState {
                is_injected: final(ctx)@.is_injected,
                ..old(ctx)@
            }),
            r is Ok
                ==> final(ctx)@.is_injected == (old(ctx)@.is_injected || old(ctx)@.should_inject()),
            r is Ok ==> final(self).packets_sent() == old(self).packets_sent() + if old(
                ctx,
            )@.should_inject() {
                1nat
            } else {
                0nat
            },
            final(self).packets_sent() >= old(self).packets_sent(),
            r matches Ok(probes) ==> probes@.len() == es@.len() && (some_activated(probes@)
                || final(ctx)@.is_injected),
            r matches Ok(probes) ==> ends_with_probes(
                final(self).engine().accesses(),
                old(self).engine().accesses().len() as int,
                old(self).engine().sets_of(es@),
                latencies_of(probes@),
            ),
            r matches Ok(probes) ==> forall|i: int|
                0 <= i < probes@.len() ==> ((#[trigger] probes@[i]) is Activated <==> registers_miss(
                    old(self).engine().timings(),
                    probes@[i].data()@,
                )),
            (r matches Err(e) && e is NoActivation) ==> exists|probes: Seq<IdleProbe>|
                {
                    &&& #[trigger] idles(
                        final(self).engine().accesses(),
                        old(self).engine().accesses().len() as int,
                        old(self).engine().timings(),
                        old(self).engine().sets_of(es@),
                        probes,
                    )
                    &&& probes.len() == MAX_IDLE_PROBES
                },
            r matches Err(e) ==> e is Transport || e is NoActivation,
    {
        let mut idle: usize = 0;
        let ghost mut probes: Seq<IdleProbe> = Seq::empty();
        let ghost watched = self.engine().sets_of(es@);
        loop
            invariant
                old(self).wf(),
                self.tracker_kept(old(self)),
                self.saved() == old(self).saved(),
                self.sent_by() == old(self).sent_by(),
                self.failures_borne() == old(self).failures_borne(),
                forall|i: int| 0 <= i < es@.len() ==> old(self).engine().has_set(#[trigger] es@[i]),
                ctx@ == old(ctx)@,
                self.packets_sent() == old(self).packets_sent(),
                watched == old(self).engine().sets_of(es@),
                probes.len() == idle,
                idles(
                    self.engine().accesses(),
                    old(self).engine().accesses().len() as int,
                    old(self).engine().timings(),
                    watched,
                    probes,
                ),
                idle <= MAX_IDLE_PROBES,
            decreases MAX_IDLE_PROBES - idle,
        {
            if idle >= MAX_IDLE_PROBES {
                return Err(Error::NoActivation);
            }
            if ctx.should_inject() || ctx.is_injected() {
                if ctx.should_inject() {
                    self.send()?;
                    ctx.inject();
                }
                let ghost before = self.engine().accesses();
                let ghost engine = self.engine();
                let probes = self.rpp.probe_all(es.as_slice())?;
                proof {
                    let lats = latencies_of(probes@);
                    let probed = Seq::new(es@.len(), |i: int| engine.set_of(es@[i]));
                    assert(probed =~= watched);
                    let acc = self.engine().accesses();
                    assert(acc == before + probes_of(probed, lats));
                    assert(acc.subrange(acc.len() - probes_of(watched, lats).len(), acc.len() as int)
                        =~= probes_of(watched, lats));
                }
                return Ok(probes);
            }
            let ghost before = self.engine().accesses();
            let ghost engine = self.engine();
            let seen = self.rpp.probe_all(es.as_slice())?;
            proof {
                let lats = latencies_of(seen@);
                let probed = Seq::new(es@.len(), |i: int| engine.set_of(es@[i]));
                assert(probed =~= watched);
                let acc = self.engine().accesses();
                assert(acc == before + probes_of(probed, lats));
                assert(acc.subrange(acc.len() - probes_of(watched, lats).len(), acc.len() as int)
                    =~= probes_of(watched, lats));
            }
            if has_activation(seen.as_slice()) {
                return Ok(seen);
            }
            proof {
                let p = IdleProbe { at: before.len() as int, lats: latencies_of(seen@) };
                let probed = Seq::new(es@.len(), |i: int| engine.set_of(es@[i]));
                assert(probed =~= watched);
                let acc = self.engine().accesses();
                assert(acc == before + probes_of(probed, p.lats));
                assert(acc.subrange(p.at, p.at + probes_of(watched, p.lats).len()) =~= probes_of(
                    watched,
                    p.lats,
                ));
                assert forall|i: int| 0 <= i < watched.len() implies (#[trigger] p.lats[i]).len()
                    == watched[i].len() && !registers_miss(old(self).engine().timings(), p.lats[i]) by {
                    assert(!(seen@[i] is Activated));
                }
                assert(idle_probe(
                    acc,
                    old(self).engine().timings(),
                    watched,
                    before.len() as int,
                    p,
                ));
                lemma_idles_extended(
                    before,
                    acc,
                    old(self).engine().accesses().len() as int,
                    old(self).engine().timings(),
                    watched,
                    probes,
                    p,
                );
                probes = probes.push(p);
            }
            idle += 1;
        }
    }

    /// Takes `cnt` measurements: finds out when the ring is at its first
    /// position, and measures from there on. See [`Self::measure_from`].
    fn measure(&mut self, cnt: usize) -> (r: Result<(), Error>)
        requires
            old(self).wf(),
            old(self).is_initialized(),
        ensures
            final(self).tracker_kept(old(self)),
            final(self).saved_since(old(self)),
            final(self).packets_sent() >= old(self).packets_sent(),
            r is Ok ==> final(self).saved().len() == old(self).saved().len() + cnt,
            r is Ok ==> statuses_follow(
                final(self).saved().subrange(
                    old(self).saved().len() as int,
                    final(self).saved().len() as int,
                ),
            ),
            r is Ok ==> final(self).packets_sent() > old(self).packets_sent() + injections(
                final(self).saved().subrange(
                    old(self).saved().len() as int,
                    final(self).saved().len() as int,
                ),
            ),
            r is Ok ==> stamps_ascend(
                final(self).saved().subrange(
                    old(self).saved().len() as int,
                    final(self).saved().len() as int,
                ),
            ),
            r is Ok ==> exists|started: nat|
                {
                    &&& old(self).packets_sent() < started
                    &&& #[trigger] paced(
                        final(self).sent_by().subrange(
                            old(self).sent_by().len() as int,
                            final(self).sent_by().len() as int,
                        ),
                        started,
                        final(self).saved().subrange(
                            old(self).saved().len() as int,
                            final(self).saved().len() as int,
                        ),
                    )
                    &&& final(self).packets_sent() == if cnt == 0 {
                        started
                    } else {
                        final(self).sent_by().last()
                    }
                },
            r is Ok ==> final(self).sent_by().len() == old(self).sent_by().len() + cnt,
            final(self).failures_borne() >= old(self).failures_borne(),
            (r matches Err(e) && e is Unrecoverable) ==> exists|
                sets: Seq<Seq<Address>>,
                p: IdleProbe,
            | #[trigger] final(self).lost_the_ring(old(self), sets, p),
            (r matches Err(e) && e is NoActivation) ==> exists|
                sets: Seq<Seq<Address>>,
                probes: Seq<IdleProbe>,
            |
                #[trigger] final(self).waited_in_vain(
                    old(self),
                    old(self).engine().accesses().len() as int,
                    sets,
                    probes,
                ),
            r matches Err(e) ==> e is Transport || e is NoActivation || e is Unrecoverable,
    {
        let init_pos = match self.get_init_pos() {
            Ok(pos) => pos,
            Err(e) => {
                proof {
                    let probes = choose|probes: Seq<IdleProbe>|
                        {
                            &&& #[trigger] idles(
                                self.engine().accesses(),
                                old(self).engine().accesses().len() as int,
                                old(self).engine().timings(),
                                seq![old(self).engine().set_of(old(self).ring()@[0])],
                                probes,
                            )
                            &&& (probes.len() == MAX_IDLE_PROBES || self.failures_borne() == old(
                                self,
                            ).failures_borne() + MAX_FAIL_CNT)
                        };
                    assert(self.waited_in_vain(
                        old(self),
                        old(self).engine().accesses().len() as int,
                        seq![old(self).engine().set_of(old(self).ring()@[0])],
                        probes,
                    ));
                }
                return Err(e);
            },
        };
        let ghost found = *self;
        let r = self.measure_from(init_pos, cnt);
        proof {
            self.lemma_saved_since(&found, old(self));
            if r matches Err(Error::Unrecoverable) {
                let (sets, p) = choose|sets: Seq<Seq<Address>>, p: IdleProbe|
                    #[trigger] self.lost_the_ring(&found, sets, p);
                assert(self.lost_the_ring(old(self), sets, p));
            }
            if r matches Err(Error::NoActivation) {
                let (sets, probes) = choose|sets: Seq<Seq<Address>>, probes: Seq<IdleProbe>|
                    #[trigger] self.waited_in_vain(
                        &found,
                        found.engine().accesses().len() as int,
                        sets,
                        probes,
                    );
                lemma_idles_from(
                    self.engine().accesses(),
                    found.engine().accesses().len() as int,
                    old(self).engine().accesses().len() as int,
                    old(self).engine().timings(),
                    sets,
                    probes,
                );
                assert(self.waited_in_vain(
                    old(self),
                    old(self).engine().accesses().len() as int,
                    sets,
                    probes,
                ));
            }
            if r is Ok {
                assert(paced(
                    self.sent_by().subrange(
                        old(self).sent_by().len() as int,
                        self.sent_by().len() as int,
                    ),
                    found.packets_sent(),
                    self.saved().subrange(
                        old(self).saved().len() as int,
                        self.saved().len() as int,
                    ),
                ));
            }
        }
        r
    }

    /// Takes `cnt` measurements, beginning with the ring at `init_pos`. Each
    /// one primes the window around the position of the ring, waits for an
    /// activation or injects a packet, settles where the ring is now, and
    /// records the probes with the time that has passed since the run
    /// began. A packet is injected only before a measurement before which
    /// one is due, and a measurement counts as unsynchronized exactly when
    /// no packet was injected in the run up to it.
    fn measure_from(&mut self, init_pos: PatternIdx, cnt: usize) -> (r: Result<(), Error>)
        requires
            old(self).wf(),
            old(self).is_initialized(),
        ensures
            final(self).tracker_kept(old(self)),
            final(self).saved_since(old(self)),
            final(self).packets_sent() >= old(self).packets_sent(),
            r is Ok ==> final(self).saved().len() == old(self).saved().len() + cnt,
            r is Ok ==> final(self).sent_by().len() == old(self).sent_by().len() + cnt,
            r is Ok ==> statuses_follow(
                final(self).saved().subrange(
                    old(self).saved().len() as int,
                    final(self).saved().len() as int,
                ),
            ),
            r is Ok ==> final(self).packets_sent() == old(self).packets_sent() + injections(
                final(self).saved().subrange(
                    old(self).saved().len() as int,
                    final(self).saved().len() as int,
                ),
            ),
            r is Ok ==> stamps_ascend(
                final(self).saved().subrange(
                    old(self).saved().len() as int,
                    final(self).saved().len() as int,
                ),
            ),
            r is Ok ==> paced(
                final(self).sent_by().subrange(
                    old(self).sent_by().len() as int,
                    final(self).sent_by().len() as int,
                ),
                old(self).packets_sent(),
                final(self).saved().subrange(
                    old(self).saved().len() as int,
                    final(self).saved().len() as int,
                ),
            ),
            r is Ok ==> final(self).packets_sent() == if cnt == 0 {
                old(self).packets_sent()
            } else {
                final(self).sent_by().last()
            },
            final(self).failures_borne() == old(self).failures_borne(),
            (r matches Err(e) && e is Unrecoverable) ==> exists|
                sets: Seq<Seq<Address>>,
                p: IdleProbe,
            | #[trigger] final(self).lost_the_ring(old(self), sets, p),
            (r matches Err(e) && e is NoActivation) ==> exists|
                sets: Seq<Seq<Address>>,
                probes: Seq<IdleProbe>,
            |
                #[trigger] final(self).waited_in_vain(
                    old(self),
                    old(self).engine().accesses().len() as int,
                    sets,
                    probes,
                ),
            r matches Err(e) ==> e is Transport || e is NoActivation || e is Unrecoverable,
    {
        let mut ctx = TrackingContext::new(init_pos);
        let mut watch = Stopwatch::start();
        let mut taken: usize = 0;
        let ghost started = self.packets_sent();
        let ghost mut run: Seq<LatsEntry> = Seq::empty();
        proof {
            assert(run =~= self.saved().subrange(
                old(self).saved().len() as int,
                self.saved().len() as int,
            ));
        }
        let ghost mut marks: Seq<nat> = Seq::empty();
        proof {
            assert(marks =~= self.sent_by().subrange(
                old(self).sent_by().len() as int,
                self.sent_by().len() as int,
            ));
        }
        while taken < cnt
            invariant
                started == old(self).packets_sent(),
                self.failures_borne() == old(self).failures_borne(),
                run == self.saved().subrange(
                    old(self).saved().len() as int,
                    self.saved().len() as int,
                ),
                self.sent_by().len() == old(self).sent_by().len() + taken,
                marks == self.sent_by().subrange(
                    old(self).sent_by().len() as int,
                    self.sent_by().len() as int,
                ),
                paced(marks, started, run),
                self.packets_sent() == if taken == 0 {
                    started
                } else {
                    marks.last()
                },
                statuses_follow(run),
                stamps_ascend(run),
                forall|j: int| 0 <= j < run.len() ==> (#[trigger] run[j]).2 <= watch.last(),
                self.packets_sent() == started + injections(run),
                ctx@.unsynced == run_state(run).unsynced,
                ctx@.should_send == run_state(run).should_send,
                ctx@.is_injected == run_state(run).injected,
                old(self).wf(),
                old(self).is_initialized(),
                self.tracker_kept(old(self)),
                self.saved_since(old(self)),
                self.saved().len() == old(self).saved().len() + taken,
                ctx@.unsynced <= 3,
                taken <= cnt,
            decreases cnt - taken,
        {
            let es = self.pattern.window(ctx.pos());
            proof {
                assert forall|i: int| 0 <= i < es@.len() implies self.engine().has_set(
                    #[trigger] es@[i],
                ) by {
                    vstd::arithmetic::div_mod::lemma_mod_bound(
                        ctx@.pos + i - WINDOW_SIZE / 2,
                        self.ring()@.len() as int,
                    );
                }
            }
            self.rpp.prime_all(es.as_slice())?;
            let ghost due = ctx@.should_inject();
            let ghost primed = *self;
            let ghost primed_pos = ctx@.pos;
            let probe_res = match self.await_activation(&mut ctx, &es) {
                Ok(probe_res) => probe_res,
                Err(e) => {
                    proof {
                        if e is NoActivation {
                            let sets = primed.engine().sets_of(es@);
                            let probes = choose|probes: Seq<IdleProbe>|
                                {
                                    &&& #[trigger] idles(
                                        self.engine().accesses(),
                                        primed.engine().accesses().len() as int,
                                        primed.engine().timings(),
                                        sets,
                                        probes,
                                    )
                                    &&& probes.len() == MAX_IDLE_PROBES
                                };
                            lemma_idles_from(
                                self.engine().accesses(),
                                primed.engine().accesses().len() as int,
                                old(self).engine().accesses().len() as int,
                                old(self).engine().timings(),
                                sets,
                                probes,
                            );
                            assert(sets =~= window_sets(
                                old(self).engine().sets(),
                                old(self).ring()@,
                                ctx@.pos as int,
                            ));
                            assert(self.waited_in_vain(
                                old(self),
                                old(self).engine().accesses().len() as int,
                                sets,
                                probes,
                            ));
                        }
                    }
                    return Err(e);
                },
            };
            proof {
                lemma_first_activated(
                    probe_res@,
                    WINDOW_SIZE as int / 2,
                    probe_res@.len() as int,
                );
                lemma_first_activated(probe_res@, 0, WINDOW_SIZE as int / 2);
            }
            match settle(&mut ctx, &self.pattern, probe_res.as_slice()) {
                Ok(()) => {},
                Err(e) => {
                    proof {
                        let acc = self.engine().accesses();
                        let sets = primed.engine().sets_of(es@);
                        let lats = latencies_of(probe_res@);
                        let p = IdleProbe { at: acc.len() - probes_of(sets, lats).len(), lats };
                        assert(sets =~= window_sets(
                            old(self).engine().sets(),
                            old(self).ring()@,
                            primed_pos as int,
                        ));
                        assert forall|i: int| 0 <= i < sets.len() implies (#[trigger] p.lats[i]).len()
                            == sets[i].len() && !registers_miss(
                            old(self).engine().timings(),
                            p.lats[i],
                        ) by {
                            assert(!(probe_res@[i] is Activated));
                        }
                        assert(self.lost_the_ring(old(self), sets, p));
                    }
                    return Err(e);
                },
            }
            let ghost read_before = watch.last();
            let stamp = watch.read();
            let ghost before = self.saved();
            let ghost marked = self.sent_by();
            let status = ctx.sync_status();
            let ghost entry = (probe_res, status, stamp);
            self.save(probe_res, status, stamp)?;
            proof {
                assert(due == run_state(run).due());
                lemma_paced_extended(marks, started, run, entry, self.packets_sent());
                marks = marks.push(self.packets_sent());
                assert(marks =~= self.sent_by().subrange(
                    old(self).sent_by().len() as int,
                    self.sent_by().len() as int,
                ));
                assert(self.saved().subrange(0, old(self).saved().len() as int) =~= before.subrange(
                    0,
                    old(self).saved().len() as int,
                ));
                let known = run;
                run = run.push(entry);
                assert(run.drop_last() =~= known);
                assert(run =~= self.saved().subrange(
                    old(self).saved().len() as int,
                    self.saved().len() as int,
                ));
                assert forall|i: int, j: int| 0 <= i <= j < run.len() implies (#[trigger] run[i]).2
                    <= (#[trigger] run[j]).2 by {
                    if j < known.len() {
                        assert(run[i] == known[i] && run[j] == known[j]);
                    } else if i < known.len() {
                        assert(run[i] == known[i]);
                        assert(known[i].2 <= read_before);
                    }
                }
                assert forall|j: int| 0 <= j < run.len() implies (#[trigger] run[j]).2
                    <= watch.last() by {
                    if j < known.len() {
                        assert(run[j] == known[j]);
                        assert(known[j].2 <= read_before);
                    }
                }
                assert forall|j: int| 0 <= j < run.len() implies ((#[trigger] run[j]).1
                    is NoSync <==> !run_state(run.subrange(0, j + 1)).injected) by {
                    if j < known.len() {
                        assert(run.subrange(0, j + 1) =~= known.subrange(0, j + 1));
                        assert(run[j] == known[j]);
                    } else {
                        assert(run.subrange(0, j + 1) =~= run);
                    }
                }
            }
            taken += 1;
        }
        proof {
            let tail = self.sent_by().subrange(
                old(self).sent_by().len() as int,
                self.sent_by().len() as int,
            );
            if cnt > 0 {
                assert(tail.last() == self.sent_by().last());
            }
            assert(paced(tail, started, run));
        }
        Ok(())
    }
}

} // verus!
