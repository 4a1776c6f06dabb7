use netcat::error::Error;
use netcat::online_tracker::pattern::Pattern;
use netcat::online_tracker::settle;
use netcat::online_tracker::tracking::{SyncStatus, TrackingContext};
use netcat::rpp::{ProbeResult, SetCode};

fn ten_sets() -> Pattern {
    Pattern::from((0..10).map(|x| SetCode(x, 1)).collect::<Vec<SetCode>>())
}

fn probes(activated: &[usize]) -> Vec<ProbeResult<()>> {
    let mut v = vec![ProbeResult::Stale(()); 10];
    for i in activated {
        v[*i] = ProbeResult::Activated(());
    }
    v
}

#[test]
fn fresh_context() {
    let ctx = TrackingContext::new(7);
    assert_eq!(ctx.pos(), 7);
    assert_eq!(ctx.sync_status(), SyncStatus::NoSync);
    assert_eq!(ctx.unsynced(), 0);
    assert!(!ctx.is_injected());
    assert!(!ctx.should_send());
    assert!(!ctx.should_inject());
}

#[test]
fn default_status_is_no_sync() {
    assert_eq!(SyncStatus::default(), SyncStatus::NoSync);
}

#[test]
fn inject_only_marks_the_injection() {
    let mut ctx = TrackingContext::new(3);
    ctx.inject();
    assert!(ctx.is_injected());
    assert_eq!(ctx.pos(), 3);
    assert_eq!(ctx.unsynced(), 0);
    assert!(!ctx.should_send());
    assert_eq!(ctx.sync_status(), SyncStatus::NoSync);
}

#[test]
fn unsynced_measurements_ask_for_injection_after_the_third() {
    let mut ctx = TrackingContext::new(0);
    ctx.unsynced_meaurement();
    assert!(!ctx.should_inject());
    ctx.unsynced_meaurement();
    assert_eq!(ctx.unsynced(), 2);
    assert!(!ctx.should_inject());
    ctx.unsynced_meaurement();
    assert_eq!(ctx.unsynced(), 3);
    assert!(ctx.should_inject());
    assert_eq!(ctx.sync_status(), SyncStatus::NoSync);
    assert!(!ctx.should_send());
}

#[test]
fn sync_hit_starts_the_count_anew() {
    let mut ctx = TrackingContext::new(0);
    ctx.unsynced_meaurement().unsynced_meaurement().unsynced_meaurement().inject();
    ctx.sync_hit(5);
    assert_eq!(ctx.pos(), 5);
    assert_eq!(ctx.unsynced(), 0);
    assert!(!ctx.should_send());
    assert!(!ctx.should_inject());
    assert_eq!(ctx.sync_status(), SyncStatus::Hit);
    assert!(ctx.is_injected());
}

#[test]
fn sync_miss_asks_for_another_injection() {
    let mut ctx = TrackingContext::new(0);
    ctx.unsynced_meaurement();
    ctx.sync_miss(9);
    assert_eq!(ctx.pos(), 9);
    assert_eq!(ctx.unsynced(), 1);
    assert!(ctx.should_send());
    assert!(ctx.should_inject());
    assert_eq!(ctx.sync_status(), SyncStatus::Miss);
    // a measurement without synchronization takes the request back
    ctx.unsynced_meaurement();
    assert!(!ctx.should_send());
    assert_eq!(ctx.unsynced(), 2);
}

#[test]
fn settle_without_injection_counts_the_measurement() {
    let pattern = ten_sets();
    let mut ctx = TrackingContext::new(2);
    settle(&mut ctx, &pattern, &probes(&[6])).unwrap();
    assert_eq!(ctx.pos(), 2);
    assert_eq!(ctx.unsynced(), 1);
    assert_eq!(ctx.sync_status(), SyncStatus::NoSync);
    settle(&mut ctx, &pattern, &probes(&[])).unwrap();
    assert_eq!(ctx.unsynced(), 2);
}

#[test]
fn settle_hits_on_the_set_after_the_middle() {
    let pattern = ten_sets();
    let mut ctx = TrackingContext::new(9);
    ctx.inject();
    settle(&mut ctx, &pattern, &probes(&[0, 6])).unwrap();
    assert_eq!(ctx.pos(), 0);
    assert_eq!(ctx.sync_status(), SyncStatus::Hit);
    assert_eq!(ctx.unsynced(), 0);
    assert!(!ctx.should_send());
}

#[test]
fn settle_recovers_after_a_miss() {
    let pattern = ten_sets();
    let mut ctx = TrackingContext::new(2);
    ctx.inject();
    settle(&mut ctx, &pattern, &probes(&[1, 8])).unwrap();
    // index 8 stands for position 2 + 8 - 5, after which 6 is expected
    assert_eq!(ctx.pos(), 6);
    assert_eq!(ctx.sync_status(), SyncStatus::Miss);
    assert!(ctx.should_send());
    let mut ctx = TrackingContext::new(2);
    ctx.inject();
    settle(&mut ctx, &pattern, &probes(&[1])).unwrap();
    assert_eq!(ctx.pos(), 9);
    assert_eq!(ctx.sync_status(), SyncStatus::Miss);
}

#[test]
fn settle_fails_where_nothing_was_activated() {
    let pattern = ten_sets();
    let mut ctx = TrackingContext::new(2);
    ctx.inject();
    let r = settle(&mut ctx, &pattern, &probes(&[]));
    assert!(matches!(r, Err(Error::Unrecoverable)));
    assert_eq!(ctx.pos(), 2);
    assert_eq!(ctx.sync_status(), SyncStatus::NoSync);
    assert!(!ctx.should_send());
}
