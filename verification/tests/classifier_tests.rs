use netcat::rpp::timing_classif::{judge, CacheTiming, TimingClassifier};

#[test]
fn cache_timing_accessors() {
    assert_eq!(CacheTiming::Hit(7).time(), 7);
    assert_eq!(CacheTiming::Miss(9).time(), 9);
    assert!(CacheTiming::Hit(7).is_hit());
    assert!(!CacheTiming::Hit(7).is_miss());
    assert!(CacheTiming::Miss(7).is_miss());
    assert!(!CacheTiming::Miss(7).is_hit());
}

#[test]
fn judge_picks_the_nearer_centroid() {
    assert_eq!(judge(100, 400, 249), CacheTiming::Hit(249));
    assert_eq!(judge(100, 400, 250), CacheTiming::Hit(250));
    assert_eq!(judge(100, 400, 251), CacheTiming::Miss(251));
    assert_eq!(judge(100, 400, 0), CacheTiming::Hit(0));
    assert_eq!(judge(100, 400, u64::MAX), CacheTiming::Miss(u64::MAX));
    assert_eq!(judge(400, 100, 0), CacheTiming::Miss(0));
    assert_eq!(judge(5, 5, 5), CacheTiming::Hit(5));
    assert_eq!(judge(0, u64::MAX, u64::MAX), CacheTiming::Miss(u64::MAX));
}

#[test]
fn classifier_convergence() {
    let mut c = TimingClassifier::new();
    for _ in 0..100 {
        c.record(CacheTiming::Hit(100)).expect("a hit was not recorded");
    }
    for _ in 0..100 {
        c.record(CacheTiming::Miss(400)).expect("a miss was not recorded");
    }
    assert!(c.is_miss(251));
    assert!(c.is_hit(249));
    // the tie goes to the hit
    assert!(c.is_hit(250));
    assert!(!c.is_miss(250));
    assert_eq!(c.classify(400), CacheTiming::Miss(400));
    assert_eq!(c.classify(100), CacheTiming::Hit(100));
}

#[test]
fn untrained_classifier_sees_no_miss() {
    let c = TimingClassifier::new();
    for t in [0u64, 1, 100, 250, 400, 1 << 40, u64::MAX] {
        assert!(!c.is_miss(t));
        assert!(c.is_hit(t));
        assert_eq!(c.classify(t), CacheTiming::Hit(t));
    }
}

#[test]
fn classifier_without_misses_sees_no_miss() {
    let mut c = TimingClassifier::new();
    for _ in 0..10 {
        c.record(CacheTiming::Hit(100)).unwrap();
    }
    // 10 lies nearer to 0 than to 100, and is a hit all the same
    for t in [0u64, 10, 49, 50, 51, 100, 1000, u64::MAX] {
        assert!(!c.is_miss(t));
        assert!(c.is_hit(t));
    }
}

#[test]
fn classifier_without_hits_sees_no_miss() {
    let mut c = TimingClassifier::new();
    for _ in 0..10 {
        c.record(CacheTiming::Miss(400)).unwrap();
    }
    for t in [0u64, 399, 400, 401, u64::MAX] {
        assert!(!c.is_miss(t));
    }
}

#[test]
fn centroid_is_the_median() {
    let mut c = TimingClassifier::new();
    c.record(CacheTiming::Hit(100)).unwrap();
    for t in [300u64, 500, 10_000] {
        c.record(CacheTiming::Miss(t)).unwrap();
    }
    // the centroids are 100 and 500: 300 is the tie, and 10 000 does not pull
    assert!(c.is_hit(300));
    assert!(c.is_miss(301));
    // a further low miss moves the median of the misses to 300
    c.record(CacheTiming::Miss(200)).unwrap();
    c.record(CacheTiming::Miss(250)).unwrap();
    assert!(c.is_hit(200));
    assert!(c.is_miss(201));
}

#[test]
fn centroid_follows_the_records() {
    let mut c = TimingClassifier::new();
    c.record(CacheTiming::Hit(100)).unwrap();
    c.record(CacheTiming::Miss(400)).unwrap();
    assert!(c.is_hit(250));
    assert!(c.is_miss(251));
    c.record(CacheTiming::Hit(200)).unwrap();
    c.record(CacheTiming::Hit(200)).unwrap();
    // hits at 100, 200, 200: the median is 200 now
    assert!(c.is_hit(300));
    assert!(c.is_miss(301));
}

#[test]
fn clear_forgets_the_training() {
    let mut c = TimingClassifier::new();
    c.record(CacheTiming::Hit(100)).unwrap();
    c.record(CacheTiming::Miss(400)).unwrap();
    assert!(c.is_miss(1000));
    c.clear();
    assert!(!c.is_miss(1000));
    c.record(CacheTiming::Hit(10)).unwrap();
    c.record(CacheTiming::Miss(20)).unwrap();
    assert!(c.is_miss(16));
    assert!(c.is_hit(15));
}

#[test]
fn large_timings_are_recorded() {
    let mut c = TimingClassifier::new();
    c.record(CacheTiming::Hit(0)).unwrap();
    c.record(CacheTiming::Miss(u64::MAX)).unwrap();
    assert!(c.is_hit(1));
    assert!(c.is_miss(u64::MAX));
}

#[test]
fn centroid_of_an_even_cluster_is_the_lower_median() {
    let mut c = TimingClassifier::new();
    c.record(CacheTiming::Hit(100)).unwrap();
    c.record(CacheTiming::Hit(200)).unwrap();
    c.record(CacheTiming::Miss(1000)).unwrap();
    // the centroids are 100 and 1000: 550 is the tie
    assert!(c.is_hit(550));
    assert!(c.is_miss(551));
    c.record(CacheTiming::Miss(262_143)).unwrap();
    // misses at 1000 and 262 143: the centroid stays at 1000
    assert!(c.is_hit(550));
    assert!(c.is_miss(551));
    c.record(CacheTiming::Miss(262_143)).unwrap();
    // now it is 262 143, and the tie is at 131 121
    assert!(c.is_hit(131_121));
    assert!(c.is_miss(131_122));
}
