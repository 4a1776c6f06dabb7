use netcat::rpp::median::{median, sorted, STABILIZE_CNT};
use netcat::rpp::selection::{collides, first_candidate_count, fit_for_training, reduce};
use netcat::rpp::sequence::{contains_address, prefix, unused, without_chunk};
use netcat::rpp::timing_classif::{CacheTiming, TimingClassifier};
use netcat::rpp::{classify_probe, has_activation, page_offsets, ProbeResult, SetCode};

#[test]
fn macro_test() {
    let samples: Vec<u64> = (0..STABILIZE_CNT).map(|_| 1).collect();
    let med = median(&samples).unwrap();
    assert_eq!(1, med, "Median from const failed");

    let v = vec![1, 2, 4, 5, 6, 324, 22, 3, 10, 13]; // 1, 2, 3, 4, 5, 6, 10, 13, 22, 324
    let mut it = v.into_iter();

    let samples: Vec<u64> = (0..STABILIZE_CNT).map(|_| it.next().unwrap()).collect();
    let med = median(&samples).unwrap();
    assert_eq!(5, med, "Median from even iter failed");

    let v = vec![1, 2, 4, 5, 6, 324, 22, 3, 10, 13, 0];
    let mut it = v.into_iter();

    let samples: Vec<u64> = (0..STABILIZE_CNT).map(|_| it.next().unwrap()).collect();
    let med = median(&samples).unwrap();
    assert_eq!(5, med, "Median from odd iter failed");
}

#[test]
fn median_of_few() {
    assert_eq!(median(&[]), None);
    assert_eq!(median(&[7]), Some(7));
    assert_eq!(median(&[9, 7]), Some(7));
    assert_eq!(median(&[9, 7, 8]), Some(8));
    assert_eq!(median(&[u64::MAX, 0, u64::MAX, 0]), Some(0));
    assert_eq!(median(&[3, 3, 3, 1, 1]), Some(3));
}

#[test]
fn sorted_orders_and_keeps_every_sample() {
    assert_eq!(sorted(&[]), Vec::<u64>::new());
    assert_eq!(
        sorted(&[1, 2, 4, 5, 6, 324, 22, 3, 10, 13]),
        vec![1, 2, 3, 4, 5, 6, 10, 13, 22, 324]
    );
    assert_eq!(sorted(&[2, 1, 2, 1, 2]), vec![1, 1, 2, 2, 2]);
}

#[test]
fn probe_result_tells_its_kind() {
    let a: ProbeResult<Vec<u64>> = ProbeResult::Activated(vec![1]);
    let s: ProbeResult<Vec<u64>> = ProbeResult::Stale(vec![1]);
    assert!(a.is_activated());
    assert!(!a.is_stale());
    assert!(s.is_stale());
    assert!(!s.is_activated());
}

#[test]
fn has_activation_looks_at_every_probe() {
    let none: Vec<ProbeResult<()>> = Vec::new();
    assert!(!has_activation(&none));
    assert!(!has_activation(&[ProbeResult::Stale(()), ProbeResult::Stale(())]));
    assert!(has_activation(&[ProbeResult::Stale(()), ProbeResult::Activated(())]));
    assert!(has_activation(&[ProbeResult::Activated(()), ProbeResult::Stale(())]));
}

#[test]
fn classify_probe_looks_for_a_miss() {
    let mut c = TimingClassifier::new();
    assert_eq!(classify_probe(&c, vec![400, 400]), ProbeResult::Stale(vec![400, 400]));
    c.record(CacheTiming::Hit(100)).unwrap();
    c.record(CacheTiming::Miss(400)).unwrap();
    assert_eq!(classify_probe(&c, vec![100, 120]), ProbeResult::Stale(vec![100, 120]));
    assert_eq!(classify_probe(&c, vec![100, 250]), ProbeResult::Stale(vec![100, 250]));
    assert_eq!(
        classify_probe(&c, vec![100, 251]),
        ProbeResult::Activated(vec![100, 251])
    );
    assert_eq!(
        classify_probe(&c, vec![390, 100]),
        ProbeResult::Activated(vec![390, 100])
    );
    assert_eq!(classify_probe(&c, vec![]), ProbeResult::Stale(vec![]));
}

#[test]
fn first_candidates_of_forward_selection() {
    // fewer addresses than ways and one more: nothing to start with
    assert_eq!(first_candidate_count(0, 0), None);
    assert_eq!(first_candidate_count(12, 12), None);
    assert_eq!(first_candidate_count(2, 12), None);
    assert_eq!(first_candidate_count(usize::MAX, usize::MAX), None);
    // at the boundary and up to ten times the ways: one more than the ways
    assert_eq!(first_candidate_count(13, 12), Some(13));
    assert_eq!(first_candidate_count(130, 12), Some(13));
    assert_eq!(first_candidate_count(139, 12), Some(13));
    // beyond that a tenth of the pool
    assert_eq!(first_candidate_count(140, 12), Some(14));
    assert_eq!(first_candidate_count(5000, 12), Some(500));
    assert_eq!(first_candidate_count(5000, 2), Some(500));
    assert_eq!(first_candidate_count(1, 0), Some(1));
}

#[test]
fn reduce_takes_out_the_redundant_chunk() {
    // ten addresses, two ways: three chunks of three, one address over
    let mut s: Vec<usize> = (0..10).collect();
    reduce(&mut s, 2, Some(0));
    assert_eq!(s, vec![3, 4, 5, 6, 7, 8, 9]);
    let mut s: Vec<usize> = (0..10).collect();
    reduce(&mut s, 2, Some(1));
    assert_eq!(s, vec![0, 1, 2, 6, 7, 8, 9]);
    // no chunk is redundant: what follows the first two chunks goes
    let mut s: Vec<usize> = (0..10).collect();
    reduce(&mut s, 2, None);
    assert_eq!(s, vec![0, 1, 2, 3, 4, 5]);
}

#[test]
fn reduce_ends_at_the_number_of_ways() {
    let mut s: Vec<usize> = vec![10, 20, 30];
    reduce(&mut s, 2, Some(1));
    assert_eq!(s, vec![10, 30]);
    let mut s: Vec<usize> = vec![10, 20, 30];
    reduce(&mut s, 2, None);
    assert_eq!(s, vec![10, 20]);
    let mut s: Vec<usize> = vec![10, 20, 30];
    reduce(&mut s, 0, None);
    assert_eq!(s, Vec::<usize>::new());
    let mut s: Vec<usize> = (0..27).collect();
    let mut rounds = 0;
    while s.len() > 12 {
        reduce(&mut s, 12, None);
        rounds += 1;
    }
    assert_eq!(s.len(), 12);
    assert_eq!(rounds, 2);
}

#[test]
fn collides_needs_more_than_half() {
    assert!(!collides(0, 5));
    assert!(!collides(2, 5));
    assert!(collides(3, 5));
    assert!(collides(5, 5));
    assert!(!collides(2, 4));
    assert!(collides(3, 4));
    assert!(!collides(0, 0));
    assert!(collides(usize::MAX, usize::MAX));
}

#[test]
fn training_discards_inversions() {
    assert!(fit_for_training(400, 100));
    assert!(fit_for_training(100, 100));
    assert!(!fit_for_training(100, 400));
    assert!(!fit_for_training(0, 1));
}

#[test]
fn sequence_helpers() {
    let pool: Vec<usize> = vec![5, 6, 7, 8, 9, 6];
    assert!(contains_address(&pool, 9));
    assert!(!contains_address(&pool, 4));
    assert!(!contains_address(&[], 4));
    assert_eq!(prefix(&pool, 0), Vec::<usize>::new());
    assert_eq!(prefix(&pool, 3), vec![5, 6, 7]);
    assert_eq!(prefix(&pool, 6), pool);
    assert_eq!(without_chunk(&pool, 1, 2), vec![5, 8, 9, 6]);
    assert_eq!(without_chunk(&pool, 0, 6), Vec::<usize>::new());
    assert_eq!(without_chunk(&pool, 6, 0), pool);
    assert_eq!(unused(&pool, &[6, 9]), vec![5, 7, 8]);
    assert_eq!(unused(&pool, &[]), pool);
    assert_eq!(unused(&pool, &[1, 2]), pool);
}

#[test]
fn page_offsets_set_the_variant_bits() {
    assert_eq!(page_offsets(0, 0), Vec::<usize>::new());
    assert_eq!(page_offsets(3, 0), vec![0, 4096, 8192]);
    assert_eq!(page_offsets(3, 1), vec![64, 4096 + 64, 8192 + 64]);
    assert_eq!(page_offsets(2, 63), vec![63 * 64, 4096 + 63 * 64]);
    for a in page_offsets(10, 37) {
        assert_eq!((a & 0xFC0) >> 6, 37);
    }
}

#[test]
fn set_codes_are_ordered_by_color_first() {
    assert!(SetCode(0, 5) < SetCode(1, 0));
    assert!(SetCode(1, 0) < SetCode(1, 1));
    assert_eq!(SetCode::default(), SetCode(0, 0));
}
