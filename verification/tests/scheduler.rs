use bogo_gpu::compute::Backend;
use bogo_gpu::rng::Rng;
use bogo_gpu::scheduler::{
    is_report_due, Action, Chunk, Event, Lease, LeaseRun, Order, RangeResult, Scheduler,
    CHUNK_SIZE,
};
use bogo_gpu::worker::{GuiStatsInner, Stamp};
use std::time::Instant;

fn lease(seed: u64, count: u64) -> Lease {
    Lease { seed_str: format!("{seed}"), seed, count }
}

fn sent(action: Action) -> (u64, u64, u64) {
    match action {
        Action::Send(c) => (c.seed, c.lo, c.hi),
        other => panic!("not a chunk: {other:?}"),
    }
}

fn result(lo: u64, hi: u64, best_correct: u32, best_index: u64) -> RangeResult {
    RangeResult { lo, hi, best_correct, best_arr: [best_correct as u8; 25], best_index }
}

#[test]
fn a_lease_is_cut_into_chunks() {
    let count = 2 * CHUNK_SIZE + 10;
    let mut run = LeaseRun::new(lease(5, count));
    assert_eq!(run.lease().count, count);
    assert_eq!(sent(run.step(Event::Begin)), (5, 0, CHUNK_SIZE));
    assert!(matches!(run.step(Event::Sent), Action::Wait { accepts_lease: true, .. }));
    let next = run.step(Event::Done(result(0, CHUNK_SIZE, 4, 9)));
    assert_eq!(sent(next), (5, CHUNK_SIZE, 2 * CHUNK_SIZE));
    assert!(matches!(run.step(Event::Sent), Action::CheckClock));
    assert!(matches!(run.step(Event::Clock(false)), Action::Wait { accepts_lease: true, .. }));
    let next = run.step(Event::Done(result(CHUNK_SIZE, 2 * CHUNK_SIZE, 6, CHUNK_SIZE + 1)));
    assert_eq!(sent(next), (5, 2 * CHUNK_SIZE, count));
    assert!(matches!(run.step(Event::Sent), Action::CheckClock));
    // a report is due: the better of the two chunks
    match run.step(Event::Clock(true)) {
        Action::Report(tick) => {
            assert_eq!(tick.seed_str, "5");
            assert_eq!((tick.total_done, tick.shuffles), (2 * CHUNK_SIZE, 2 * CHUNK_SIZE));
            assert_eq!((tick.best_correct, tick.best_index), (6, CHUNK_SIZE + 1));
            assert_eq!(tick.best_arr, [6u8; 25]);
        }
        other => panic!("no report: {other:?}"),
    }
    assert!(matches!(run.step(Event::Reported), Action::Wait { accepts_lease: true, .. }));
    let next = run.step(Event::Done(result(2 * CHUNK_SIZE, count, 2, 2 * CHUNK_SIZE)));
    assert!(matches!(next, Action::CheckClock));
    // the lease is over, so there is a report whether one is due or not
    match run.step(Event::Clock(false)) {
        Action::Report(tick) => {
            assert_eq!((tick.total_done, tick.shuffles), (count, 10));
            assert_eq!((tick.best_correct, tick.best_index), (2, 2 * CHUNK_SIZE));
        }
        other => panic!("no report: {other:?}"),
    }
    assert!(matches!(run.step(Event::Reported), Action::Finish));
    assert!(run.finish().is_none());
}

#[test]
fn an_empty_lease_is_over_at_once() {
    let mut run = LeaseRun::new(lease(5, 0));
    assert!(matches!(run.step(Event::Begin), Action::Finish));
    assert!(run.finish().is_none());
}

#[test]
fn a_newer_lease_is_switched_to_after_the_chunk() {
    let mut run = LeaseRun::new(lease(5, 3 * CHUNK_SIZE));
    assert_eq!(sent(run.step(Event::Begin)), (5, 0, CHUNK_SIZE));
    run.step(Event::Sent);
    let next = run.step(Event::Lease(lease(6, 100)));
    assert!(matches!(next, Action::Wait { accepts_lease: false, .. }));
    // no further chunk is sent, and the final report is made
    let next = run.step(Event::Done(result(0, CHUNK_SIZE, 3, 8)));
    assert!(matches!(next, Action::CheckClock));
    match run.step(Event::Clock(false)) {
        Action::Report(tick) => assert_eq!((tick.best_correct, tick.total_done), (3, CHUNK_SIZE)),
        other => panic!("no report: {other:?}"),
    }
    assert!(matches!(run.step(Event::Reported), Action::Finish));
    let newer = run.finish().unwrap();
    assert_eq!((newer.seed, newer.count), (6, 100));
}

#[test]
fn an_equal_score_does_not_replace_the_winner() {
    let mut run = LeaseRun::new(lease(5, 3 * CHUNK_SIZE));
    run.step(Event::Begin);
    run.step(Event::Sent);
    run.step(Event::Done(result(0, CHUNK_SIZE, 3, 8)));
    run.step(Event::Sent);
    run.step(Event::Clock(false));
    run.step(Event::Done(result(CHUNK_SIZE, 2 * CHUNK_SIZE, 3, CHUNK_SIZE + 4)));
    run.step(Event::Sent);
    match run.step(Event::Clock(true)) {
        Action::Report(tick) => assert_eq!((tick.best_correct, tick.best_index), (3, 8)),
        other => panic!("no report: {other:?}"),
    }
}

#[test]
fn every_great_result_of_a_window_is_reported() {
    let count = 2 * CHUNK_SIZE;
    let mut run = LeaseRun::new(lease(5, count));
    run.step(Event::Begin);
    run.step(Event::Sent);
    run.step(Event::Done(result(0, CHUNK_SIZE, 17, 8)));
    run.step(Event::Sent);
    run.step(Event::Clock(false));
    run.step(Event::Done(result(CHUNK_SIZE, count, 16, CHUNK_SIZE + 4)));
    let tick = match run.step(Event::Clock(false)) {
        Action::Report(tick) => tick,
        other => panic!("no report: {other:?}"),
    };
    assert_eq!((tick.best_correct, tick.best_index), (17, 8));
    let mut stats = GuiStatsInner::new(&None, Vec::new(), Instant::now());
    let persist = stats.record_tick_at(&tick, Stamp { nanos: 1, unix: 2 });
    let kept: Vec<(u32, u64, u64)> =
        persist.history.unwrap().iter().map(|e| (e.correct, e.index, e.id)).collect();
    assert_eq!(kept, vec![(17, 8, 1), (16, CHUNK_SIZE + 4, 2)]);
    assert_eq!(stats.saved_arrays.len(), 2);
}

#[test]
fn a_report_leaves_no_great_results_behind() {
    let mut run = LeaseRun::new(lease(5, 3 * CHUNK_SIZE));
    run.step(Event::Begin);
    run.step(Event::Sent);
    run.step(Event::Done(result(0, CHUNK_SIZE, 16, 8)));
    run.step(Event::Sent);
    match run.step(Event::Clock(true)) {
        Action::Report(tick) => assert_eq!(tick.great.len(), 1),
        other => panic!("no report: {other:?}"),
    }
    run.step(Event::Reported);
    run.step(Event::Done(result(CHUNK_SIZE, 2 * CHUNK_SIZE, 15, CHUNK_SIZE)));
    run.step(Event::Sent);
    match run.step(Event::Clock(true)) {
        Action::Report(tick) => assert!(tick.great.is_empty()),
        other => panic!("no report: {other:?}"),
    }
}

#[test]
fn the_end_of_the_session_leaves_the_lease() {
    let mut run = LeaseRun::new(lease(5, 100));
    run.step(Event::Begin);
    run.step(Event::Sent);
    assert!(matches!(run.step(Event::Closed), Action::Finish));
    assert!(run.finish().is_none());
}

#[test]
fn chunks_of_a_huge_lease_follow_each_other() {
    let mut run = LeaseRun::new(lease(5, u64::MAX));
    let mut action = run.step(Event::Begin);
    let mut covered: u64 = 0;
    for _ in 0..50 {
        let (_, lo, hi) = sent(action);
        assert_eq!(lo, covered);
        covered = hi;
        let answer = run.step(Event::Sent);
        if matches!(answer, Action::CheckClock) {
            run.step(Event::Clock(false));
        }
        action = run.step(Event::Done(result(lo, hi, 1, lo)));
    }
    assert_eq!(covered, 50 * CHUNK_SIZE);
}

#[test]
fn the_last_chunk_ends_at_the_last_index() {
    let count = 3 * CHUNK_SIZE + 1;
    let mut run = LeaseRun::new(lease(5, count));
    let mut event = Event::Begin;
    let mut chunk = (5, 0, 0);
    let mut events = 0;
    loop {
        events += 1;
        event = match run.step(event) {
            Action::Send(c) => {
                assert_eq!(c.lo, chunk.2);
                chunk = (c.seed, c.lo, c.hi);
                Event::Sent
            }
            Action::Wait { .. } => Event::Done(result(chunk.1, chunk.2, 1, chunk.1)),
            Action::CheckClock => Event::Clock(true),
            Action::Report(_) => Event::Reported,
            Action::Finish => break,
        };
    }
    assert_eq!(chunk, (5, 3 * CHUNK_SIZE, count));
    // four chunks take at most five events each, and one more
    assert!(events <= 5 * 4 + 1);
}

#[test]
fn a_result_is_reported_while_the_next_chunk_is_searched() {
    let mut run = LeaseRun::new(lease(5, 2 * CHUNK_SIZE));
    run.step(Event::Begin);
    let wait = run.step(Event::Sent);
    assert!(matches!(wait, Action::Wait { has_report: false, .. }));
    // nothing to report yet
    let wait = run.step(Event::Clock(true));
    assert!(matches!(wait, Action::Wait { accepts_lease: true, has_report: false }));
    run.step(Event::Done(result(0, CHUNK_SIZE, 7, 3)));
    run.step(Event::Sent);
    let wait = run.step(Event::Clock(false));
    assert!(matches!(wait, Action::Wait { accepts_lease: true, has_report: true }));
    let wait = run.step(Event::Lease(lease(6, 1)));
    assert!(matches!(wait, Action::Wait { accepts_lease: false, has_report: true }));
    match run.step(Event::Clock(true)) {
        Action::Report(tick) => {
            assert_eq!(tick.best_correct, 7);
            assert_eq!((tick.shuffles, tick.total_done), (CHUNK_SIZE, CHUNK_SIZE));
        }
        other => panic!("no report: {other:?}"),
    }
    // the chunk is still waited for, though a newer lease has come
    let wait = run.step(Event::Reported);
    assert!(matches!(wait, Action::Wait { accepts_lease: false, has_report: false }));
    run.step(Event::Done(result(CHUNK_SIZE, 2 * CHUNK_SIZE, 4, CHUNK_SIZE)));
    match run.step(Event::Clock(false)) {
        Action::Report(tick) => assert_eq!((tick.best_correct, tick.shuffles), (4, CHUNK_SIZE)),
        other => panic!("no report: {other:?}"),
    }
    assert!(matches!(run.step(Event::Reported), Action::Finish));
    assert_eq!(run.finish().unwrap().seed, 6);
}

#[test]
fn leases_are_worked_off_one_after_the_other() {
    let mut stats = GuiStatsInner::new(&None, Vec::new(), Instant::now());
    let mut scheduler = Scheduler::new();
    let stamp = Stamp { nanos: 1, unix: 2 };
    assert!(scheduler.lease().is_none());
    assert!(scheduler.accepts(&stats, &Event::Begin));
    assert!(!scheduler.accepts(&stats, &Event::Sent));
    let order = scheduler.process_lease_at(&mut stats, Event::Begin, stamp);
    assert!(matches!(order, Order::AwaitLease));
    let order = scheduler.process_lease_at(&mut stats, Event::Lease(lease(5, 100)), stamp);
    assert!(matches!(order, Order::Start));
    assert_eq!(stats.seed_str, "5");
    assert_eq!(scheduler.lease().unwrap().count, 100);
    match scheduler.process_lease_at(&mut stats, Event::Begin, stamp) {
        Order::Send(c) => assert_eq!((c.seed, c.lo, c.hi), (5, 0, 100)),
        other => panic!("no chunk: {other:?}"),
    }
    scheduler.process_lease_at(&mut stats, Event::Sent, stamp);
    let order = scheduler.process_lease_at(&mut stats, Event::Lease(lease(6, 10)), stamp);
    assert!(matches!(order, Order::Wait { accepts_lease: false, has_report: false }));
    let done = Event::Done(result(0, 100, 17, 8));
    let order = scheduler.process_lease_at(&mut stats, done, stamp);
    assert!(matches!(order, Order::CheckClock));
    match scheduler.process_lease_at(&mut stats, Event::Clock(false), stamp) {
        Order::Report(tick, persist) => {
            assert_eq!((tick.best_correct, tick.total_done), (17, 100));
            assert_eq!(persist.history.unwrap().len(), 1);
            assert_eq!(persist.best.unwrap().correct, 17);
        }
        other => panic!("no report: {other:?}"),
    }
    assert_eq!((stats.session_best, stats.total_shuffles, stats.ticks.len()), (17, 100, 1));
    // the lease that came during the first one follows it at once
    let order = scheduler.process_lease_at(&mut stats, Event::Reported, stamp);
    assert!(matches!(order, Order::Start));
    assert_eq!(stats.seed_str, "6");
    scheduler.process_lease_at(&mut stats, Event::Begin, stamp);
    scheduler.process_lease_at(&mut stats, Event::Sent, stamp);
    let order = scheduler.process_lease_at(&mut stats, Event::Closed, stamp);
    assert!(matches!(order, Order::AwaitLease));
    let order = scheduler.process_lease_at(&mut stats, Event::Closed, stamp);
    assert!(matches!(order, Order::Stop));
}

#[test]
fn records_go_with_the_reports_of_a_lease() {
    let mut stats = GuiStatsInner::new(&None, Vec::new(), Instant::now());
    let mut scheduler = Scheduler::new();
    let mut event = Event::Lease(lease(5, 4 * CHUNK_SIZE));
    let mut scores = [9u32, 18, 16, 11].into_iter();
    let mut written = Vec::new();
    let mut chunk = (0, 0);
    loop {
        event = match scheduler.process_lease_at(&mut stats, event, Stamp { nanos: 7, unix: 8 }) {
            Order::Start => Event::Begin,
            Order::Send(c) => {
                chunk = (c.lo, c.hi);
                Event::Sent
            }
            Order::Wait { .. } => {
                let lo = stats.total_shuffles;
                Event::Done(result(lo, lo + CHUNK_SIZE, scores.next().unwrap(), lo))
            }
            Order::CheckClock => Event::Clock(true),
            Order::Report(_, persist) => {
                written.push((persist.best.map(|b| b.correct), persist.history.map(|h| h.len())));
                Event::Reported
            }
            Order::AwaitLease => break,
            Order::Stop => panic!("nothing ends the session"),
        };
    }
    assert_eq!(chunk, (3 * CHUNK_SIZE, 4 * CHUNK_SIZE));
    assert_eq!(
        written,
        vec![(Some(9), None), (Some(18), Some(1)), (None, Some(2)), (None, None)]
    );
    assert_eq!((stats.session_best, stats.all_time_best), (18, 18));
    assert_eq!((stats.session_best_arr, stats.all_time_best_arr), ([18u8; 25], [18u8; 25]));
    let ticks: Vec<u32> = stats.ticks.iter().map(|t| t.best_correct).collect();
    assert_eq!(ticks, vec![9, 18, 16, 11]);
    let saved: Vec<u32> = stats.saved_arrays.iter().map(|e| e.correct).collect();
    assert_eq!(saved, vec![18, 16]);
}

#[test]
fn a_total_that_would_not_fit_is_not_taken() {
    let mut stats = GuiStatsInner::new(&None, Vec::new(), Instant::now());
    let mut scheduler = Scheduler::new();
    let stamp = Stamp { nanos: 1, unix: 2 };
    scheduler.process_lease_at(&mut stats, Event::Lease(lease(5, 100)), stamp);
    scheduler.process_lease_at(&mut stats, Event::Begin, stamp);
    scheduler.process_lease_at(&mut stats, Event::Sent, stamp);
    scheduler.process_lease_at(&mut stats, Event::Done(result(0, 100, 1, 1)), stamp);
    stats.total_shuffles = u64::MAX - 99;
    assert!(!scheduler.accepts(&stats, &Event::Clock(true)));
    stats.total_shuffles = u64::MAX - 100;
    assert!(scheduler.accepts(&stats, &Event::Clock(true)));
}

#[test]
fn the_current_time_stamps_a_report() {
    let mut stats = GuiStatsInner::new(&None, Vec::new(), Instant::now());
    let mut scheduler = Scheduler::new();
    scheduler.process_lease(&mut stats, Event::Lease(lease(5, 100)));
    scheduler.process_lease(&mut stats, Event::Begin);
    scheduler.process_lease(&mut stats, Event::Sent);
    scheduler.process_lease(&mut stats, Event::Done(result(0, 100, 20, 1)));
    match scheduler.process_lease(&mut stats, Event::Clock(true)) {
        Order::Report(_, persist) => {
            assert!(persist.history.unwrap()[0].timestamp > 1_577_836_800);
            assert!(persist.best.unwrap().timestamp > 1_577_836_800);
        }
        other => panic!("no report: {other:?}"),
    }
}

#[test]
fn a_chunk_is_searched() {
    let chunk = Chunk { seed: 42, lo: 1000, hi: 2000 };
    assert_eq!(chunk.count(), 1000);
    let mut backend = Backend::new_default().unwrap();
    let found = chunk.search(&mut backend).unwrap();
    assert_eq!((found.lo, found.hi), (1000, 2000));
    assert_eq!((found.best_correct, found.best_index), (6, 1523));
    assert_eq!(found.best_arr, Rng::new(42, 1523).shuffle());
}

#[test]
fn reports_name_the_best_shuffle_of_the_lease() {
    let mut run = LeaseRun::new(lease(42, 2000));
    let mut backend = Backend::new_default().unwrap();
    let mut action = run.step(Event::Begin);
    loop {
        action = match action {
            Action::Send(chunk) => {
                run.step(Event::Sent);
                run.step(Event::Done(chunk.search(&mut backend).unwrap()))
            }
            Action::CheckClock => run.step(Event::Clock(false)),
            Action::Report(tick) => {
                assert_eq!((tick.best_correct, tick.best_index, tick.total_done), (6, 1523, 2000));
                assert_eq!(tick.best_arr, Rng::new(42, 1523).shuffle());
                run.step(Event::Reported)
            }
            Action::Finish => break,
            Action::Wait { .. } => panic!("nothing to wait for"),
        };
    }
}

#[test]
fn events_out_of_step_are_recognised() {
    let mut run = LeaseRun::new(lease(5, 100));
    assert!(run.accepts(&Event::Begin));
    assert!(!run.accepts(&Event::Sent));
    run.step(Event::Begin);
    assert!(run.accepts(&Event::Sent));
    assert!(!run.accepts(&Event::Done(result(0, 100, 1, 1))));
    run.step(Event::Sent);
    assert!(run.accepts(&Event::Done(result(0, 100, 1, 1))));
    assert!(!run.accepts(&Event::Done(result(100, 0, 1, 1))));
    assert!(run.accepts(&Event::Closed));
    assert!(run.accepts(&Event::Lease(lease(6, 1))));
    run.step(Event::Lease(lease(6, 1)));
    assert!(!run.accepts(&Event::Lease(lease(7, 1))));
    assert!(run.accepts(&Event::Clock(true)));
    assert!(!run.accepts(&Event::Reported));
    run.step(Event::Done(result(0, 100, 1, 1)));
    assert!(run.accepts(&Event::Clock(true)));
    run.step(Event::Clock(true));
    assert!(run.accepts(&Event::Reported));
    run.step(Event::Reported);
    assert!(!run.accepts(&Event::Closed));
}

#[test]
fn reports_are_due_every_second() {
    assert!(!is_report_due(999_999_999));
    assert!(is_report_due(1_000_000_000));
}
