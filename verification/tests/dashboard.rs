use bogo_gpu::config::Config;
use bogo_gpu::dashboard::{
    arrays_label, display_order, format_uptime, highlight_threshold, is_good, is_highlighted,
    ArraySort, Dashboard, GridView, Magnitude, SecondCount, Snapshot, Tab, Uptime, SECOND,
};
use bogo_gpu::history::SavedArray;
use bogo_gpu::rng::init_arr;
use bogo_gpu::worker::{GuiStatsInner, TickRecord, WorkerCmd};
use std::time::Instant;

fn saved(id: u64, correct: u32, timestamp: i64) -> SavedArray {
    SavedArray {
        id,
        correct,
        arr: init_arr(),
        seed: "1".to_string(),
        index: 0,
        rate: 0,
        total_shuffles: 0,
        timestamp,
    }
}

fn stats() -> GuiStatsInner {
    GuiStatsInner::new(&None, Vec::new(), Instant::now())
}

fn window() -> Dashboard {
    Dashboard::new(Config::for_user("u".to_string(), "n".to_string(), "c".to_string()), 0)
}

#[test]
fn recent_arrays_come_first() {
    let entries =
        vec![saved(1, 16, 50), saved(9, 20, 70), saved(3, 18, 70), saved(4, 16, 10), saved(3, 17, 70)];
    assert_eq!(display_order(&entries, ArraySort::Recent), vec![1, 2, 4, 0, 3]);
}

#[test]
fn the_highest_arrays_come_first() {
    let entries =
        vec![saved(1, 16, 50), saved(9, 20, 70), saved(3, 20, 90), saved(4, 16, 50), saved(5, 17, 1)];
    assert_eq!(display_order(&entries, ArraySort::Highest), vec![2, 1, 4, 0, 3]);
    assert_eq!(display_order(&Vec::new(), ArraySort::Highest), Vec::<usize>::new());
}

#[test]
fn the_order_is_that_of_a_stable_sort() {
    let mut entries: Vec<SavedArray> = Vec::new();
    for i in 0..60u64 {
        entries.push(saved(i * 7 % 11, 16 + (i * 5 % 4) as u32, (i * 3 % 7) as i64));
    }
    let mut recent: Vec<usize> = (0..60).collect();
    recent.sort_by_key(|&i| (-entries[i].timestamp, -(entries[i].id as i64)));
    assert_eq!(display_order(&entries, ArraySort::Recent), recent);
    let mut highest: Vec<usize> = (0..60).collect();
    highest.sort_by_key(|&i| (-(entries[i].correct as i64), -entries[i].timestamp));
    assert_eq!(display_order(&entries, ArraySort::Highest), highest);
}

#[test]
fn scores_two_above_the_average_are_highlighted() {
    assert_eq!(highlight_threshold(&Vec::new()), u32::MAX);
    assert_eq!(highlight_threshold(&vec![3]), 5);
    assert_eq!(highlight_threshold(&vec![3, 4]), 5);
    assert_eq!(highlight_threshold(&vec![5, 5, 6, 6]), 7);
    assert_eq!(highlight_threshold(&vec![0, 0]), 2);
    assert_eq!(highlight_threshold(&vec![u32::MAX, u32::MAX]), u32::MAX);
    assert_eq!(highlight_threshold(&vec![u32::MAX - 2]), u32::MAX);
    assert_eq!(highlight_threshold(&vec![u32::MAX - 3]), u32::MAX - 1);
    assert!(is_highlighted(5, 5));
    assert!(!is_highlighted(4, 5));
    assert!(!is_highlighted(0, 0));
    assert!(is_good(20));
    assert!(!is_good(19));
}

#[test]
fn thresholds_agree_with_the_rounded_average() {
    for n in 1..120u32 {
        let scores: Vec<u32> = (0..n).map(|i| i * 17 % 26).collect();
        let average = scores.iter().map(|&s| s as f64).sum::<f64>() / scores.len() as f64;
        assert_eq!(highlight_threshold(&scores), (average + 2.0).floor() as u32);
    }
}

#[test]
fn large_numbers_have_units() {
    assert_eq!(Magnitude::of(0), Magnitude::Ones);
    assert_eq!(Magnitude::of(999), Magnitude::Ones);
    assert_eq!(Magnitude::of(1_000), Magnitude::Thousands);
    assert_eq!(Magnitude::of(999_999), Magnitude::Thousands);
    assert_eq!(Magnitude::of(1_000_000), Magnitude::Millions);
    assert_eq!(Magnitude::of(1_000_000_000), Magnitude::Billions);
    assert_eq!(Magnitude::of(999_999_999_999), Magnitude::Billions);
    assert_eq!(Magnitude::of(1_000_000_000_000), Magnitude::Trillions);
    assert_eq!(Magnitude::of(u64::MAX), Magnitude::Trillions);
}

#[test]
fn captions_are_written_out() {
    assert_eq!(format_uptime(0), "0h 0m 0s");
    assert_eq!(format_uptime(59), "0h 0m 59s");
    assert_eq!(format_uptime(3_661), "1h 1m 1s");
    assert_eq!(format_uptime(360_000), "100h 0m 0s");
    assert_eq!(format_uptime(u64::MAX), "5124095576030431h 0m 15s");
    assert_eq!(arrays_label(0), "Arrays");
    assert_eq!(arrays_label(12), "Arrays (12)");
}

#[test]
fn the_uptime_pauses_while_stopped() {
    let mut uptime = Uptime::new();
    assert_eq!(uptime.secs(5 * SECOND), 0);
    uptime.observe(true, 10 * SECOND);
    assert_eq!(uptime.secs(10 * SECOND), 0);
    assert_eq!(uptime.secs(13 * SECOND - 1), 2);
    uptime.observe(true, 13 * SECOND);
    assert_eq!(uptime.secs(13 * SECOND), 3);
    uptime.observe(false, 14 * SECOND + 5);
    assert_eq!(uptime.secs(14 * SECOND + 5), 4);
    assert_eq!(uptime.secs(100 * SECOND), 4);
    uptime.observe(true, 200 * SECOND);
    assert_eq!(uptime.secs(202 * SECOND), 6);
    // a clock that runs back stands still
    uptime.observe(false, 0);
    assert_eq!(uptime.secs(0), 4);
}

#[test]
fn seconds_are_counted() {
    let mut seconds = SecondCount::new(5);
    seconds.tick(SECOND);
    assert_eq!(seconds.count(), 0);
    seconds.tick(SECOND + 5);
    assert_eq!(seconds.count(), 1);
    seconds.tick(SECOND + 6);
    seconds.tick(0);
    assert_eq!(seconds.count(), 1);
    // one at a time, however long it took
    seconds.tick(50 * SECOND);
    assert_eq!(seconds.count(), 2);
}

#[test]
fn a_snapshot_shows_the_worker() {
    let mut s = stats();
    for n in 1..4u32 {
        s.ticks.push(TickRecord { best_correct: n, best_arr: [n as u8; 25], shuffles: 9 });
    }
    s.nickname = "Ann".to_string();
    s.saved_arrays.push(saved(4, 16, 1));
    let snap = Snapshot::of(&s);
    assert_eq!(snap.ticks.len(), 3);
    assert_eq!(snap.ticks[2], (3, [3u8; 25]));
    assert_eq!(snap.scores(), vec![3, 2, 1]);
    assert_eq!(snap.nickname, "Ann");
    assert_eq!(snap.status, "stopped");
    assert_eq!(snap.saved_arrays[0].id, 4);
    assert!(matches!(snap.grid(), GridView::LastTick(3, [3, ..])));
}

#[test]
fn before_the_first_tick_the_best_of_the_session_is_shown() {
    let mut s = stats();
    assert!(matches!(Snapshot::of(&s).grid(), GridView::Nothing));
    s.session_best = 4;
    s.session_best_arr = [4u8; 25];
    assert!(matches!(Snapshot::of(&s).grid(), GridView::SessionBest([4, ..])));
    assert!(matches!(Snapshot::empty().grid(), GridView::Nothing));
}

#[test]
fn the_window_follows_the_worker() {
    let mut w = window();
    assert_eq!(w.active_tab, Tab::Dashboard);
    assert!(w.history.is_empty());
    let mut s = stats();
    s.session_starting();
    s.ticks.push(TickRecord { best_correct: 6, best_arr: [0u8; 25], shuffles: 1 });
    w.refresh_snapshot(&s, SECOND);
    assert_eq!(w.history, vec![6]);
    assert!(w.snap.running);
    assert_eq!(w.uptime.secs(3 * SECOND), 2);
    s.session_stopped();
    w.refresh_snapshot(&s, 4 * SECOND);
    assert_eq!(w.uptime.secs(9 * SECOND), 3);
}

#[test]
fn the_button_stops_and_starts() {
    let mut w = window();
    match w.toggle() {
        WorkerCmd::Start(c) => assert_eq!(c.user.uuid, "u"),
        WorkerCmd::Stop => panic!("nothing runs"),
    }
    let mut s = stats();
    s.session_starting();
    w.refresh_snapshot(&s, 0);
    assert!(matches!(w.toggle(), WorkerCmd::Stop));
}

#[test]
fn opening_the_settings_discards_old_edits() {
    let mut w = window();
    w.settings.edit.uuid = "edited".to_string();
    w.open_tab(Tab::Arrays);
    assert_eq!(w.settings.edit.uuid, "edited");
    w.open_tab(Tab::Settings);
    assert_eq!(w.settings.edit.uuid, "u");
    w.settings.edit.uuid = "edited".to_string();
    w.open_tab(Tab::Settings);
    assert_eq!(w.settings.edit.uuid, "edited");
    assert_eq!(w.active_tab, Tab::Settings);
}

#[test]
fn a_selection_ends_with_its_entry() {
    let mut w = window();
    let mut s = stats();
    s.saved_arrays = vec![saved(4, 16, 1), saved(5, 17, 2), saved(5, 18, 3)];
    w.refresh_snapshot(&s, 0);
    assert_eq!(w.selected_entry(), None);
    w.selected_array = Some(5);
    assert_eq!(w.selected_entry(), Some(1));
    assert_eq!(w.selected_array, Some(5));
    s.saved_arrays = vec![saved(4, 16, 1)];
    w.refresh_snapshot(&s, 0);
    assert_eq!(w.selected_entry(), None);
    assert_eq!(w.selected_array, None);
}
