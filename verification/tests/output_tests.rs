use netcat::error::Error;
use netcat::offline_extractor::basic_extractor::extract;
use netcat::online_tracker::clock::{later, saturate, Stopwatch};
use netcat::online_tracker::tracking::SyncStatus;
use netcat::online_tracker::{LatsEntry, SavedLats};
use netcat::output::Record;
use netcat::rpp::ProbeResult;

#[test]
fn a_vector_keeps_what_is_recorded() {
    let mut sink: Vec<u32> = Vec::new();
    sink.record(3).unwrap();
    sink.record(1).unwrap();
    sink.record(3).unwrap();
    assert_eq!(sink, vec![3, 1, 3]);
}

#[test]
fn extract_reads_the_timestamps() {
    let none: SavedLats = Vec::new();
    assert_eq!(extract(none), Vec::<u64>::new());
    let mut data: SavedLats = Vec::new();
    let first: LatsEntry = (vec![ProbeResult::Stale(vec![100, 101])], SyncStatus::NoSync, 17);
    let second: LatsEntry = (vec![ProbeResult::Activated(vec![400])], SyncStatus::Hit, 5);
    let third: LatsEntry = (Vec::new(), SyncStatus::Miss, u64::MAX);
    data.record(first).unwrap();
    data.record(second).unwrap();
    data.record(third).unwrap();
    assert_eq!(extract(data), vec![17, 5, u64::MAX]);
}

#[test]
fn timestamps_saturate() {
    assert_eq!(saturate(0), 0);
    assert_eq!(saturate(17), 17);
    assert_eq!(saturate(u64::MAX as u128), u64::MAX);
    assert_eq!(saturate(u64::MAX as u128 + 1), u64::MAX);
    assert_eq!(saturate(u128::MAX), u64::MAX);
}

#[test]
fn failures_have_messages() {
    assert_eq!(Error::Exhausted.message(), "ERROR: No addrs left");
    assert_eq!(Error::Indecisive.message(), "ERROR: Cannot decide on pattern");
    assert_eq!(Error::Unrecoverable.message(), "ERROR: Cannot recover position");
    assert_eq!(
        Error::Uninitialized.message(),
        "ERROR: Online tracker is not initialized. Call init()."
    );
    assert_eq!(
        Error::NoActivation.message(),
        "ERROR: Cannot determine the initial position in RX"
    );
    assert_eq!(
        Error::NarrowedBelowMinimum.message(),
        "ERROR: the initial set for backwards selection is too narrow."
    );
    assert_eq!(
        Error::NoEviction.message(),
        "ERROR: cannot build set for the chosen address."
    );
    assert_eq!(Error::DerivationFailed.message(), "ERROR: could not derive sets");
    assert_eq!(Error::EmptySet.message(), "ERROR: Eviction set is empty");
    assert_eq!(
        Error::NotLocated.message(),
        "ERROR: INITIALIZATION FAILED. Could not locate RX buffer in memory"
    );
    assert_eq!(Error::Unrecordable.message(), "ERROR: could not record a timing");
    assert_eq!(
        Error::BuilderIncomplete.message(),
        "ERROR: connector, output or packet sender is not set"
    );
    let cause = std::io::Error::new(std::io::ErrorKind::NotConnected, "down");
    assert_eq!(Error::Transport(cause).message(), "ERROR: the connection failed");
}

#[test]
fn a_stopwatch_never_goes_back() {
    let mut watch = Stopwatch::start();
    let mut last = 0;
    for _ in 0..1000 {
        let now = watch.read();
        assert!(now >= last);
        last = now;
    }
}

#[test]
fn the_later_reading_is_kept() {
    assert_eq!(later(0, 0), 0);
    assert_eq!(later(5, 9), 9);
    assert_eq!(later(9, 5), 9);
    assert_eq!(later(u64::MAX, 0), u64::MAX);
    assert_eq!(later(0, u64::MAX), u64::MAX);
}
