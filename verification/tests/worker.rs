use bogo_gpu::config::Config;
use bogo_gpu::history::{
    next_free_id, remember, BestRecord, GreatArray, SavedArray, MAX_SAVED, MIN_SAVED_CORRECT,
};
use bogo_gpu::rng::init_arr;
use bogo_gpu::worker::{
    copy_saved, GuiStatsInner, Stamp, Tick, Worker, WorkerCmd, MAX_TICKS,
};
use std::collections::VecDeque;
use std::time::Instant;

fn config(uuid: &str) -> Config {
    Config::for_user(uuid.to_string(), "nick".to_string(), "code".to_string())
}

fn saved(id: u64) -> SavedArray {
    SavedArray {
        id,
        correct: 16,
        arr: init_arr(),
        seed: "1".to_string(),
        index: 0,
        rate: 1,
        total_shuffles: 2,
        timestamp: 3,
    }
}

fn tick(best_correct: u32, shuffles: u64) -> Tick {
    Tick {
        seed_str: "77".to_string(),
        total_done: 900,
        shuffles,
        best_correct,
        best_arr: [best_correct as u8; 25],
        best_index: 5,
        great: if best_correct >= MIN_SAVED_CORRECT {
            vec![great(best_correct, 5)]
        } else {
            Vec::new()
        },
    }
}

fn great(correct: u32, index: u64) -> GreatArray {
    GreatArray { correct, arr: [correct as u8; 25], index }
}

fn stats() -> GuiStatsInner {
    GuiStatsInner::new(&None, Vec::new(), Instant::now())
}

fn stamp() -> Stamp {
    Stamp { nanos: 1234, unix: 56 }
}

#[test]
fn the_display_starts_from_the_best_record() {
    let empty = stats();
    assert_eq!((empty.all_time_best, empty.all_time_best_arr), (0, init_arr()));
    assert_eq!((empty.session_best, empty.session_best_arr), (0, init_arr()));
    assert_eq!(empty.status, "stopped");
    assert!(!empty.running);
    let record = BestRecord {
        correct: 12,
        arr: [9u8; 25],
        seed: "3".to_string(),
        index: 4,
        timestamp: 5,
    };
    let full = GuiStatsInner::new(&Some(record.clone()), vec![saved(1)], Instant::now());
    assert_eq!((full.all_time_best, full.all_time_best_arr), (12, [9u8; 25]));
    assert_eq!(full.session_best, 0);
    assert_eq!(full.saved_arrays.len(), 1);
}

#[test]
fn a_tick_is_counted_in() {
    let mut s = stats();
    s.total_shuffles = 1000;
    let persist = s.record_tick_at(&tick(7, 50), stamp());
    assert_eq!(s.total_shuffles, 1050);
    assert_eq!(s.shuffles_per_sec, 50);
    assert_eq!((s.session_best, s.session_best_arr), (7, [7u8; 25]));
    assert_eq!((s.all_time_best, s.all_time_best_arr), (7, [7u8; 25]));
    assert_eq!(s.ticks.len(), 1);
    assert_eq!((s.ticks[0].best_correct, s.ticks[0].shuffles), (7, 50));
    assert!(persist.history.is_none());
    let best = persist.best.unwrap();
    assert_eq!((best.correct, best.index, best.timestamp), (7, 5, 56));
    assert_eq!(best.seed, "77");
}

#[test]
fn an_equal_score_replaces_nothing() {
    let mut s = stats();
    s.record_tick_at(&tick(7, 50), stamp());
    let mut again = tick(7, 60);
    again.best_arr = [1u8; 25];
    let persist = s.record_tick_at(&again, stamp());
    assert_eq!(s.session_best_arr, [7u8; 25]);
    assert_eq!(s.all_time_best_arr, [7u8; 25]);
    assert!(persist.best.is_none());
    assert_eq!(s.shuffles_per_sec, 60);
}

#[test]
fn bests_never_fall() {
    let mut s = stats();
    let mut highest: u32 = 0;
    for score in [3u32, 9, 4, 9, 11, 2] {
        s.record_tick_at(&tick(score, 1), stamp());
        highest = highest.max(score);
        assert_eq!((s.session_best, s.all_time_best), (highest, highest));
    }
}

#[test]
fn great_arrays_are_kept() {
    let mut s = stats();
    s.total_shuffles = 10;
    assert!(s.record_tick_at(&tick(MIN_SAVED_CORRECT - 1, 5), stamp()).history.is_none());
    assert!(s.saved_arrays.is_empty());
    let persist = s.record_tick_at(&tick(MIN_SAVED_CORRECT, 5), stamp());
    let history = persist.history.unwrap();
    assert_eq!(history.len(), 1);
    assert_eq!(s.saved_arrays.len(), 1);
    let entry = &history[0];
    assert_eq!((entry.id, entry.correct, entry.index), (1234, 16, 5));
    assert_eq!((entry.rate, entry.total_shuffles, entry.timestamp), (5, 20, 56));
    assert_eq!(entry.seed, "77");
}

#[test]
fn every_great_result_of_a_tick_is_kept() {
    let mut s = stats();
    let mut t = tick(17, 9);
    t.great = vec![great(17, 100), great(16, 200), great(16, 300)];
    let history = s.record_tick_at(&t, stamp()).history.unwrap();
    let kept: Vec<(u32, u64)> = history.iter().map(|e| (e.correct, e.index)).collect();
    assert_eq!(kept, vec![(17, 100), (16, 200), (16, 300)]);
    assert_eq!(history[1].arr, [16u8; 25]);
    for entry in &history {
        assert_eq!((entry.rate, entry.total_shuffles, entry.timestamp), (9, 9, 56));
        assert_eq!(entry.seed, "77");
    }
    assert_eq!(format!("{:?}", s.saved_arrays), format!("{history:?}"));
}

#[test]
fn ids_are_unique_whatever_the_clock_shows() {
    let mut s = stats();
    let mut t = tick(17, 1);
    t.great = vec![great(17, 1), great(16, 2)];
    s.record_tick_at(&t, stamp());
    s.record_tick_at(&t, Stamp { nanos: 1233, unix: 0 });
    s.record_tick_at(&t, Stamp { nanos: u64::MAX, unix: 0 });
    s.record_tick_at(&tick(20, 1), Stamp { nanos: 0, unix: 0 });
    let ids: Vec<u64> = s.saved_arrays.iter().map(|e| e.id).collect();
    assert_eq!(ids, vec![1234, 1235, 1233, 1236, u64::MAX, 0, 1]);
    assert_eq!(next_free_id(&s.saved_arrays, 1234), 1237);
    assert_eq!(next_free_id(&s.saved_arrays, u64::MAX), 2);
    assert_eq!(next_free_id(&s.saved_arrays, 50), 50);
}

#[test]
fn ticks_are_kept_for_two_minutes() {
    let mut s = stats();
    for n in 0..(MAX_TICKS as u64 + 5) {
        s.record_tick_at(&tick(1, n), stamp());
    }
    assert_eq!(s.ticks.len(), 120);
    assert_eq!(s.ticks[0].shuffles, 5);
    assert_eq!(s.ticks[119].shuffles, 124);
}

#[test]
fn the_history_drops_its_oldest_entries() {
    let mut entries: Vec<SavedArray> = Vec::new();
    for id in 0..(MAX_SAVED as u64 + 3) {
        remember(&mut entries, saved(id));
    }
    assert_eq!(entries.len(), 1000);
    assert_eq!(entries[0].id, 3);
    assert_eq!(entries[999].id, 1002);
    // a list that is too long to begin with is cut at once
    let mut long: Vec<SavedArray> = Vec::new();
    for id in 0..1500u64 {
        long.push(saved(id));
    }
    remember(&mut long, saved(1500));
    assert_eq!(long.len(), 1000);
    assert_eq!(long[0].id, 501);
    assert_eq!(copy_saved(&long).len(), 1000);
}

#[test]
fn records_outlive_the_program() {
    let mut s = stats();
    let mut best: Option<BestRecord> = None;
    let mut history: Vec<SavedArray> = Vec::new();
    for score in [5u32, 17, 12, 18, 18, 16] {
        let persist = s.record_tick_at(&tick(score, 3), stamp());
        if let Some(record) = persist.best {
            best = Some(record);
        }
        if let Some(entries) = persist.history {
            history = entries;
        }
    }
    let reloaded = GuiStatsInner::new(&best, history, Instant::now());
    assert_eq!(reloaded.all_time_best, 18);
    assert_eq!(reloaded.all_time_best, s.all_time_best);
    assert_eq!(reloaded.all_time_best_arr, s.all_time_best_arr);
    assert_eq!(reloaded.saved_arrays.len(), 4);
    assert_eq!(format!("{:?}", reloaded.saved_arrays), format!("{:?}", s.saved_arrays));
    assert_eq!(reloaded.session_best, 0);
}

#[test]
fn statuses_are_shown() {
    let mut s = stats();
    s.session_starting();
    assert!(s.running);
    assert_eq!(s.status, "starting…");
    s.backend_failed("no device");
    assert_eq!(s.status, "backend error: no device");
    s.backend_panicked("oops");
    assert_eq!(s.status, "backend panic: oops");
    s.backend_ready();
    assert_eq!(s.status, "backend ready, connecting…");
    s.connecting(2);
    assert_eq!(s.status, "connecting… (backoff 2s)");
    s.disconnected(30);
    assert_eq!(s.status, "disconnected — retry in 30s");
    s.connected();
    assert_eq!(s.status, "connected ✅");
    s.lease_started(&"99".to_string());
    assert_eq!(s.seed_str, "99");
    s.shuffles_per_sec = 5;
    s.session_stopped();
    assert!(!s.running);
    assert_eq!((s.status.as_str(), s.shuffles_per_sec, s.seed_str.as_str()), ("stopped", 0, ""));
}

#[test]
fn a_line_sums_the_display_up() {
    let mut s = stats();
    s.record_tick_at(&tick(7, 50), stamp());
    assert_eq!(
        s.status_line(),
        "status: stopped | 50/s | session best 7/25 | all-time best 7/25 | total 50"
    );
}

fn start(uuid: &str) -> WorkerCmd {
    WorkerCmd::Start(config(uuid))
}

/// The sessions that some commands lead to, each under its uuid.
fn sessions(mut worker: Worker, cmds: Vec<WorkerCmd>) -> Vec<String> {
    let mut s = stats();
    let mut cmds: VecDeque<WorkerCmd> = cmds.into();
    let mut out = Vec::new();
    while let Some(config) = worker.run(&mut s, &mut cmds) {
        assert!(s.running);
        assert_eq!(s.status, "starting…");
        s.session_stopped();
        out.push(config.user.uuid);
    }
    assert!(cmds.is_empty());
    assert!(!s.running);
    out
}

#[test]
fn a_worker_waits_for_its_first_command() {
    assert!(sessions(Worker::new(), Vec::new()).is_empty());
    assert!(sessions(Worker::new(), vec![WorkerCmd::Stop, WorkerCmd::Stop]).is_empty());
    assert_eq!(sessions(Worker::new(), vec![start("a")]), vec!["a"]);
}

#[test]
fn a_worker_may_start_at_once() {
    assert_eq!(sessions(Worker::new_with_autostart(config("auto")), Vec::new()), vec!["auto"]);
    let cmds = vec![WorkerCmd::Stop, start("b")];
    assert_eq!(sessions(Worker::new_with_autostart(config("auto")), cmds), vec!["auto", "b"]);
}

#[test]
fn no_session_starts_before_a_start_command() {
    let mut s = stats();
    let mut worker = Worker::new();
    let mut cmds: VecDeque<WorkerCmd> = VecDeque::new();
    for _ in 0..5 {
        assert!(worker.run(&mut s, &mut cmds).is_none());
        assert!(!s.running);
        cmds.push_back(WorkerCmd::Stop);
    }
    cmds.push_back(start("a").clone());
    cmds.push_back(start("b"));
    assert_eq!(worker.run(&mut s, &mut cmds).unwrap().user.uuid, "a");
    assert!(s.running);
    // what was not needed to start the session is left
    assert_eq!(cmds.len(), 1);
}

#[test]
fn a_start_during_a_session_restarts() {
    // the command that ends a session is the first one of the next call
    let cmds = vec![start("a"), start("b"), WorkerCmd::Stop];
    assert_eq!(sessions(Worker::new(), cmds), vec!["a", "b"]);
}
