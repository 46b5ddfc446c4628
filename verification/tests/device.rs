use bogo_gpu::device::{
    choose_device, read_finding, unpack_best, DeviceAction, Finding, Pipeline, ScoreHistory,
};
use bogo_gpu::rng::init_arr;

#[test]
fn a_device_is_chosen_by_its_number() {
    assert_eq!(choose_device("0\n", 2), Some(0));
    assert_eq!(choose_device("  1 \r\n", 2), Some(1));
    assert_eq!(choose_device("+1", 2), Some(1));
    assert_eq!(choose_device("-0", 2), Some(0));
    assert_eq!(choose_device("2", 2), None);
    assert_eq!(choose_device("-1", 2), None);
    assert_eq!(choose_device("", 2), None);
    assert_eq!(choose_device("one", 2), None);
    assert_eq!(choose_device("0", 0), None);
    assert_eq!(choose_device("99999999999", 2), None);
}

#[test]
fn nothing_is_pruned_before_eight_scores() {
    let mut scores = ScoreHistory::new();
    for _ in 0..7 {
        scores.record(10);
        assert_eq!(scores.min_threshold(), 0);
    }
    scores.record(10);
    assert_eq!(scores.min_threshold(), 9);
}

#[test]
fn zero_scores_are_left_out() {
    let mut scores = ScoreHistory::new();
    for _ in 0..100 {
        scores.record(0);
    }
    assert_eq!(scores.min_threshold(), 0);
    for _ in 0..8 {
        scores.record(1);
    }
    assert_eq!(scores.min_threshold(), 0);
}

#[test]
fn the_threshold_follows_the_last_scores() {
    let mut scores = ScoreHistory::new();
    for _ in 0..32 {
        scores.record(4);
    }
    assert_eq!(scores.min_threshold(), 3);
    for _ in 0..16 {
        scores.record(7);
    }
    // sixteen fours and sixteen sevens average five and a half
    assert_eq!(scores.min_threshold(), 4);
    for _ in 0..16 {
        scores.record(7);
    }
    assert_eq!(scores.min_threshold(), 6);
    for _ in 0..32 {
        scores.record(u32::MAX);
    }
    assert_eq!(scores.min_threshold(), u32::MAX - 1);
}

#[test]
fn the_packed_word_is_split() {
    assert_eq!(unpack_best(0), (0, 0));
    assert_eq!(unpack_best((7 << 32) | 5), (7, 5));
    assert_eq!(unpack_best(u64::MAX), (u32::MAX, u32::MAX));
    let mut scores = ScoreHistory::new();
    for _ in 0..8 {
        assert_eq!(scores.conclude((9 << 32) | 3), (9, 3));
    }
    assert_eq!(scores.min_threshold(), 8);
}

#[test]
fn the_winning_block_is_read() {
    let indices = [100u64, 200, 300];
    let mut arrays = vec![0u8; 75];
    for i in 0..25usize {
        arrays[25 + i] = 25 - i as u8;
    }
    let found = read_finding((6 << 32) | 1, &indices, &arrays, 99);
    assert_eq!((found.score, found.index), (6, 200));
    assert_eq!(found.arr[0], 25);
    assert_eq!(found.arr[24], 1);
    let nothing = read_finding(2, &indices, &arrays, 99);
    assert_eq!((nothing.score, nothing.index, nothing.arr), (0, 99, init_arr()));
}

fn finding(score: u32, index: u64) -> Finding {
    Finding { score, index, arr: [score as u8; 25] }
}

#[test]
fn a_batch_is_spread_over_the_slots() {
    // 2 * 3 * 10 = 60 shuffles in a launch
    let mut pipe = Pipeline::new(3, 2, 3, 10).unwrap();
    let mut launches: Vec<(usize, u64, u32)> = Vec::new();
    let mut finishes: Vec<usize> = Vec::new();
    let mut running: Vec<(usize, u64)> = Vec::new();
    let mut action = pipe.begin(1000, 250);
    let done = loop {
        action = match action {
            DeviceAction::Launch { slot, base, count, min_threshold } => {
                assert_eq!(min_threshold, 0);
                assert!(running.iter().all(|r| r.0 != slot));
                running.push((slot, base));
                launches.push((slot, base, count));
                pipe.launched()
            }
            DeviceAction::Finish { slot } => {
                let at = running.iter().position(|r| r.0 == slot).unwrap();
                let (_, base) = running.remove(at);
                finishes.push(slot);
                pipe.finished(finding(if base == 1120 { 8 } else { 5 }, base))
            }
            DeviceAction::Done(best) => break best,
        };
    };
    assert_eq!(
        launches,
        vec![(0, 1000, 60), (1, 1060, 60), (2, 1120, 60), (0, 1180, 60), (1, 1240, 10)]
    );
    assert_eq!(finishes, vec![0, 1, 2, 0, 1]);
    assert!(running.is_empty());
    assert_eq!((done.score, done.index), (8, 1120));
}

#[test]
fn an_equal_finding_does_not_replace_the_best() {
    let mut pipe = Pipeline::new(1, 1, 1, 10).unwrap();
    assert!(matches!(pipe.begin(0, 20), DeviceAction::Launch { slot: 0, base: 0, count: 10, .. }));
    assert!(matches!(pipe.launched(), DeviceAction::Finish { slot: 0 }));
    let next = pipe.finished(finding(5, 3));
    assert!(matches!(next, DeviceAction::Launch { slot: 0, base: 10, count: 10, .. }));
    assert!(matches!(pipe.launched(), DeviceAction::Finish { slot: 0 }));
    match pipe.finished(finding(5, 13)) {
        DeviceAction::Done(best) => assert_eq!((best.score, best.index), (5, 3)),
        other => panic!("not done: {other:?}"),
    }
}

#[test]
fn an_empty_device_batch_is_done_at_once() {
    let mut pipe = Pipeline::new(3, 256, 256, 4096).unwrap();
    match pipe.begin(7, 0) {
        DeviceAction::Done(best) => {
            assert_eq!((best.score, best.index, best.arr), (0, 7, init_arr()));
        }
        other => panic!("not done: {other:?}"),
    }
}

#[test]
fn slots_of_an_abandoned_batch_are_waited_for() {
    let mut pipe = Pipeline::new(2, 1, 1, 10).unwrap();
    pipe.begin(0, 100);
    pipe.launched();
    // the batch is given up with the first slot running
    assert!(matches!(pipe.begin(500, 10), DeviceAction::Finish { slot: 0 }));
    let next = pipe.finished(finding(3, 4));
    assert!(matches!(next, DeviceAction::Launch { slot: 0, base: 500, count: 10, .. }));
    assert!(matches!(pipe.launched(), DeviceAction::Finish { slot: 0 }));
    match pipe.finished(finding(2, 505)) {
        DeviceAction::Done(best) => assert_eq!((best.score, best.index), (3, 4)),
        other => panic!("not done: {other:?}"),
    }
}

#[test]
fn thresholds_are_carried_over_batches() {
    let mut pipe = Pipeline::new(1, 1, 1, 1).unwrap();
    let mut action = pipe.begin(0, 9);
    let mut thresholds: Vec<u32> = Vec::new();
    loop {
        action = match action {
            DeviceAction::Launch { min_threshold, .. } => {
                thresholds.push(min_threshold);
                pipe.launched()
            }
            DeviceAction::Finish { .. } => pipe.finished(finding(6, 0)),
            DeviceAction::Done(_) => break,
        };
    }
    assert_eq!(thresholds, vec![0, 0, 0, 0, 0, 0, 0, 0, 5]);
    match pipe.begin(0, 1) {
        DeviceAction::Launch { min_threshold, .. } => assert_eq!(min_threshold, 5),
        other => panic!("no launch: {other:?}"),
    }
}

#[test]
fn a_pipeline_needs_slots_and_threads() {
    assert!(Pipeline::new(0, 1, 1, 1).is_none());
    assert!(Pipeline::new(3, 0, 256, 4096).is_none());
    assert!(Pipeline::new(3, 256, 0, 4096).is_none());
    assert!(Pipeline::new(3, u32::MAX, u32::MAX, 2).is_none());
    assert!(Pipeline::new(3, u32::MAX, u32::MAX, 1).is_some());
}

#[test]
fn a_device_batch_may_reach_the_last_index() {
    let mut pipe = Pipeline::new(1, 1, 1, 10).unwrap();
    let first = pipe.begin(u64::MAX - 9, 10);
    assert!(matches!(first, DeviceAction::Launch { count: 10, .. }));
}
