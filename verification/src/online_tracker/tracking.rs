//! The state of one run of measurements: where in the pattern the ring is
//! taken to be, and whether the tracker is in step with it.
use crate::online_tracker::pattern::PatternIdx;
use vstd::prelude::*;

verus! {

/// How a measurement relates to the packets that the tracker injects.
#[derive(Clone, Copy, Debug, PartialEq, PartialOrd, Eq, Ord, Structural)]
pub enum SyncStatus {
    /// No packet was injected for the measurement.
    NoSync,
    /// The injected packet activated the set that was expected.
    Hit,
    /// The injected packet activated another set, or none.
    Miss,
}

impl Default for SyncStatus {
    fn default() -> (s: SyncStatus)
        ensures
            s == SyncStatus::NoSync,
    {
        SyncStatus::NoSync
    }
}

/// What a tracking context holds.
pub ghost struct TrackingState {
    /// The position in the pattern that is expected to be filled next.
    pub pos: PatternIdx,
    /// The outcome of the last measurement.
    pub sync_status: SyncStatus,
    /// The last synchronization missed, so that another one is due.
    pub should_send: bool,
    /// A packet has been injected.
    pub is_injected: bool,
    /// Number of measurements since the last synchronization that hit.
    pub unsynced: usize,
}

impl TrackingState {
    /// A packet is to be injected: after more than two measurements without
    /// synchronization, or after a synchronization that missed.
    pub open spec fn should_inject(self) -> bool {
        self.unsynced > 2 || self.should_send
    }
}

/// The context of one run of measurements.
#[derive(Debug, PartialEq, PartialOrd, Eq, Ord)]
pub struct TrackingContext {
    pos: PatternIdx,
    sync_status: SyncStatus,
    should_send: bool,
    is_injected: bool,
    unsynced: usize,
}

impl View for TrackingContext {
    type V = TrackingState;

    closed spec fn view(&self) -> TrackingState {
        TrackingState {
            pos: self.pos,
            sync_status: self.sync_status,
            should_send: self.should_send,
            is_injected: self.is_injected,
            unsynced: self.unsynced,
        }
    }
}

impl Default for TrackingContext {
    /// A fresh context at position 0.
    fn default() -> (ctx: TrackingContext)
        ensures
            ctx@ == (TrackingState {
                pos: 0,
                sync_status: SyncStatus::NoSync,
                should_send: false,
                is_injected: false,
                unsynced: 0,
            }),
    {
        TrackingContext::new(0)
    }
}

impl TrackingContext {
    /// A fresh context at position `init_pos`: nothing was injected, nothing
    /// measured, no synchronization is due.
    pub fn new(init_pos: PatternIdx) -> (ctx: TrackingContext)
        ensures
            ctx@ == (TrackingState {
                pos: init_pos,
                sync_status: SyncStatus::NoSync,
                should_send: false,
                is_injected: false,
                unsynced: 0,
            }),
    {
        TrackingContext {
            pos: init_pos,
            sync_status: SyncStatus::NoSync,
            should_send: false,
            is_injected: false,
            unsynced: 0,
        }
    }

    /// The position in the pattern that is expected to be filled next.
    pub fn pos(&self) -> (p: PatternIdx)
        ensures
            p == self@.pos,
    {
        self.pos
    }

    /// The outcome of the last measurement.
    pub fn sync_status(&self) -> (s: SyncStatus)
        ensures
            s == self@.sync_status,
    {
        self.sync_status
    }

    /// Tests whether a packet is to be injected.
    pub fn should_inject(&self) -> (b: bool)
        ensures
            b == self@.should_inject(),
    {
        self.unsynced > 2 || self.should_send
    }

    /// Tests whether the last synchronization missed.
    pub fn should_send(&self) -> (b: bool)
        ensures
            b == self@.should_send,
    {
        self.should_send
    }

    /// Number of measurements since the last synchronization that hit.
    pub fn unsynced(&self) -> (n: usize)
        ensures
            n == self@.unsynced,
    {
        self.unsynced
    }

    /// Notes that a packet has been injected.
    pub fn inject(&mut self) -> (ctx: &mut Self)
        ensures
            ctx@ == (TrackingState { is_injected: true, ..old(self)@ }),
            *final(self) == *final(ctx),
    {
        self.is_injected = true;
        self
    }

    /// Tests whether a packet has been injected.
    pub fn is_injected(&self) -> (b: bool)
        ensures
            b == self@.is_injected,
    {
        self.is_injected
    }

    /// Updates the context after a synchronization that hit: the ring is at
    /// `next_pos`, and the count of unsynchronized measurements starts anew.
    pub fn sync_hit(&mut self, next_pos: PatternIdx) -> (ctx: &mut Self)
        ensures
            ctx@ == (TrackingState {
                pos: next_pos,
                unsynced: 0,
                should_send: false,
                sync_status: SyncStatus::Hit,
                ..old(self)@
            }),
            *final(self) == *final(ctx),
    {
        self.pos = next_pos;
        self.unsynced = 0;
        self.should_send = false;
        self.sync_status = SyncStatus::Hit;
        self
    }

    /// Updates the context after a synchronization that missed: the ring is
    /// at `recovered_pos`, and another synchronization is due.
    pub fn sync_miss(&mut self, recovered_pos: PatternIdx) -> (ctx: &mut Self)
        ensures
            ctx@ == (TrackingState {
                pos: recovered_pos,
                should_send: true,
                sync_status: SyncStatus::Miss,
                ..old(self)@
            }),
            *final(self) == *final(ctx),
    {
        self.pos = recovered_pos;
        self.should_send = true;
        self.sync_status = SyncStatus::Miss;
        self
    }

    /// Updates the context after a measurement without synchronization.
    pub fn unsynced_meaurement(&mut self) -> (ctx: &mut Self)
        requires
            old(self)@.unsynced < usize::MAX,
        ensures
            ctx@ == (TrackingState {
                unsynced: (old(self)@.unsynced + 1) as usize,
                should_send: false,
                sync_status: SyncStatus::NoSync,
                ..old(self)@
            }),
            *final(self) == *final(ctx),
    {
        self.unsynced += 1;
        self.should_send = false;
        self.sync_status = SyncStatus::NoSync;
        self
    }
}

} // verus!
