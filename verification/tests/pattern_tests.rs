use netcat::error::Error;
use netcat::online_tracker::pattern::{pattern_of, Pattern, WINDOW_SIZE};
use netcat::rpp::{ProbeResult, SetCode};
use std::collections::HashMap;

fn ten_sets() -> Pattern {
    let codes: Vec<SetCode> = vec![0, 1, 2, 3, 4, 5, 6, 7, 8, 9]
        .into_iter()
        .map(|x| SetCode(x, 1))
        .collect();
    Pattern::from(codes)
}

fn all_stale() -> Vec<ProbeResult<()>> {
    vec![ProbeResult::Stale(()); 10]
}

#[test]
fn pattern_finding() {
    let measurements = vec![
        Some(1),
        Some(9),
        Some(3),
        Some(4),
        Some(1),
        Some(2),
        Some(3),
        Some(4),
        Some(1),
        Some(2),
        None,
        Some(4),
        Some(1),
        Some(2),
        Some(3),
        Some(4),
        Some(8),
        Some(2),
        Some(4),
        Some(4),
        Some(1),
        Some(2),
        Some(3),
        Some(4),
        Some(1),
        None,
        Some(3),
        Some(4),
        Some(1),
        Some(2),
        Some(3),
        None,
    ];

    let expected: Pattern =
        vec![SetCode(0, 1), SetCode(0, 2), SetCode(0, 3), SetCode(0, 4)].into();

    let mut hm = HashMap::new();
    hm.insert(0, measurements);

    let pattern = Pattern::find(hm).expect("No pattern found");
    assert_eq!(expected, pattern, "The pattern is incorrect");
}

#[test]
fn window_test() {
    let pattern: Pattern = ten_sets();

    let w: Vec<usize> = pattern
        .window(2)
        .iter()
        .map(|SetCode(x, _)| *x)
        .collect();

    assert_eq!(
        w,
        [7, 8, 9, 0, 1, 2, 3, 4, 5, 6],
        "The window is not correct"
    );
}

#[test]
fn recover_test() {
    let current_pos = 2;
    let pattern: Pattern = ten_sets();

    // window is [7, 8, 9, 0, 1, 2, 3, 4, 5, 6]
    //                           ^ current_pos

    let recoverable_after = vec![
        ProbeResult::Stale(()),
        ProbeResult::Stale(()),
        ProbeResult::Stale(()),
        ProbeResult::Stale(()),
        ProbeResult::Stale(()),
        ProbeResult::Stale(()),     // <- current_pos
        ProbeResult::Activated(()), // <- corresponds to 3: 4 is expected next
        ProbeResult::Stale(()),
        ProbeResult::Stale(()),
        ProbeResult::Stale(()),
    ];
    let recoverable_after_expected = 4usize;

    let recoverable_before = vec![
        ProbeResult::Stale(()),
        ProbeResult::Activated(()), // <- corresponds to 8: 9 is expected next
        ProbeResult::Stale(()),
        ProbeResult::Stale(()),
        ProbeResult::Stale(()),
        ProbeResult::Stale(()), // <- current_pos
        ProbeResult::Stale(()),
        ProbeResult::Stale(()),
        ProbeResult::Stale(()),
        ProbeResult::Stale(()),
    ];
    let recoverable_before_expected = 9usize;

    let unrecoverable = vec![ProbeResult::Stale(()); 10];

    assert_eq!(
        pattern
            .recover_next(current_pos, &recoverable_after)
            .expect("Recovery after resulted in an error"),
        recoverable_after_expected,
        "Wrong recovery if after"
    );
    assert_eq!(
        pattern
            .recover_next(current_pos, &recoverable_before)
            .expect("Recovery before resulted in an error"),
        recoverable_before_expected,
        "Wrong recovery if before"
    );
    assert!(
        pattern.recover_next(current_pos, &unrecoverable).is_err(),
        "Recovery did not result in an error, but should"
    )
}

#[test]
fn window_is_cyclic() {
    let pattern = ten_sets();
    for p in 0..25usize {
        let w = pattern.window(p);
        assert_eq!(w.len(), WINDOW_SIZE);
        for k in 0..WINDOW_SIZE {
            let at = (p + 10 * WINDOW_SIZE + k - WINDOW_SIZE / 2) % pattern.len();
            assert_eq!(w[k], pattern.get(at));
        }
        assert_eq!(w[WINDOW_SIZE / 2], pattern.get(p % pattern.len()));
    }
}

#[test]
fn window_of_a_short_pattern_repeats_it() {
    let pattern = Pattern::from(vec![SetCode(3, 0), SetCode(3, 1), SetCode(3, 2)]);
    let w: Vec<usize> = pattern.window(0).iter().map(|SetCode(_, i)| *i).collect();
    // index 5 holds position 0; 0 - 5 taken round a pattern of three is 1
    assert_eq!(w, [1, 2, 0, 1, 2, 0, 1, 2, 0, 1]);
    let single = Pattern::from(vec![SetCode(7, 7)]);
    assert_eq!(single.window(4), vec![SetCode(7, 7); 10]);
}

#[test]
fn next_pos_cycles_through_all_positions() {
    let pattern = ten_sets();
    let mut pos = 4;
    let mut seen = vec![false; 10];
    for _ in 0..10 {
        seen[pos] = true;
        pos = pattern.next_pos(pos);
    }
    assert_eq!(pos, 4);
    assert!(seen.iter().all(|s| *s));
    assert_eq!(pattern.next_pos(9), 0);
    assert_eq!(pattern.next_pos(0), 1);
    assert_eq!(pattern.next_pos(usize::MAX), (usize::MAX % 10 + 1) % 10);
}

#[test]
fn recover_fails_on_stale_probes_at_any_position() {
    let pattern = ten_sets();
    for pos in 0..12usize {
        let r = pattern.recover_next(pos, &all_stale());
        assert!(matches!(r, Err(Error::Unrecoverable)));
    }
    let none: Vec<ProbeResult<()>> = Vec::new();
    assert!(matches!(pattern.recover_next(0, &none), Err(Error::Unrecoverable)));
    // an empty pattern has no position to recover
    let empty = Pattern::default();
    assert!(matches!(empty.recover_next(3, &all_stale()), Err(Error::Unrecoverable)));
    assert!(matches!(empty.recover_next(0, &none), Err(Error::Unrecoverable)));
}

#[test]
fn recover_prefers_the_upper_half() {
    let pattern = ten_sets();
    let mut probes = all_stale();
    probes[0] = ProbeResult::Activated(());
    probes[9] = ProbeResult::Activated(());
    probes[7] = ProbeResult::Activated(());
    // index 7 stands for position 2 + 7 - 5, after which 5 is expected
    assert_eq!(pattern.recover_next(2, &probes).unwrap(), 5);
    let mut probes = all_stale();
    probes[5] = ProbeResult::Activated(());
    assert_eq!(pattern.recover_next(2, &probes).unwrap(), 3);
    let mut probes = all_stale();
    probes[0] = ProbeResult::Activated(());
    probes[4] = ProbeResult::Activated(());
    // in the lower half the first activation counts: 2 + 0 - 5 + 1 round ten
    assert_eq!(pattern.recover_next(2, &probes).unwrap(), 8);
    let mut probes = all_stale();
    probes[9] = ProbeResult::Activated(());
    assert_eq!(pattern.recover_next(8, &probes).unwrap(), 3);
    // position 0 with the first probe activated: 0 - 5 + 1 round ten
    let mut probes = all_stale();
    probes[0] = ProbeResult::Activated(());
    assert_eq!(pattern.recover_next(0, &probes).unwrap(), 6);
    // the last position is followed by the first
    let mut probes = all_stale();
    probes[5] = ProbeResult::Activated(());
    assert_eq!(pattern.recover_next(9, &probes).unwrap(), 0);
}

#[test]
fn recover_reads_short_and_long_probe_lists() {
    let pattern = ten_sets();
    let short = vec![ProbeResult::Stale(()), ProbeResult::Activated(())];
    assert_eq!(pattern.recover_next(2, &short).unwrap(), 9);
    let mut long: Vec<ProbeResult<()>> = vec![ProbeResult::Stale(()); 14];
    long[13] = ProbeResult::Activated(());
    assert_eq!(pattern.recover_next(0, &long).unwrap(), 9);
}

#[test]
fn pattern_needs_a_strict_maximum() {
    // position 1 sees set 2 and set 5 four times each
    let mut trace = Vec::new();
    for pass in 0..8 {
        trace.push(Some(1));
        trace.push(if pass % 2 == 0 { Some(2) } else { Some(5) });
    }
    assert_eq!(pattern_of(&trace), None);
    let mut hm = HashMap::new();
    hm.insert(3, trace);
    assert!(matches!(Pattern::find(hm), Err(Error::Indecisive)));
}

#[test]
fn pattern_needs_a_sighting_at_every_position() {
    let mut trace = Vec::new();
    for _ in 0..8 {
        trace.push(Some(1));
        trace.push(None);
    }
    assert_eq!(pattern_of(&trace), None);
}

#[test]
fn pattern_of_one_sighting_among_none() {
    let mut trace = vec![None; 16];
    trace[4] = Some(6);
    trace[9] = Some(2);
    assert_eq!(pattern_of(&trace), Some(vec![6, 2]));
}

#[test]
fn pattern_of_short_traces() {
    let empty: Vec<Option<usize>> = Vec::new();
    assert_eq!(pattern_of(&empty), Some(Vec::new()));
    assert_eq!(pattern_of(&[Some(1), Some(1), Some(1)]), None);
    assert_eq!(pattern_of(&[Some(4); 8]), Some(vec![4]));
}

#[test]
fn find_needs_exactly_one_color() {
    let good: Vec<Option<usize>> = vec![Some(1), Some(2)]
        .into_iter()
        .cycle()
        .take(16)
        .collect();
    let silent: Vec<Option<usize>> = vec![None; 16];

    let none: HashMap<usize, Vec<Option<usize>>> = HashMap::new();
    assert!(matches!(Pattern::find(none), Err(Error::Indecisive)));

    let mut only_silent = HashMap::new();
    only_silent.insert(0, silent.clone());
    only_silent.insert(1, silent.clone());
    assert!(matches!(Pattern::find(only_silent), Err(Error::Indecisive)));

    let mut two = HashMap::new();
    two.insert(0, good.clone());
    two.insert(5, good.clone());
    assert!(matches!(Pattern::find(two), Err(Error::Indecisive)));

    let mut one = HashMap::new();
    one.insert(0, silent.clone());
    one.insert(5, good.clone());
    one.insert(9, silent);
    let found = Pattern::find(one).expect("No pattern found");
    assert_eq!(found, Pattern::from(vec![SetCode(5, 1), SetCode(5, 2)]));
    assert_eq!(found.len(), 2);
    assert!(!found.is_empty());
    assert_eq!(found.as_slice(), &[SetCode(5, 1), SetCode(5, 2)]);
}

#[test]
fn default_pattern_is_empty() {
    let p = Pattern::default();
    assert!(p.is_empty());
    assert_eq!(p.len(), 0);
}
