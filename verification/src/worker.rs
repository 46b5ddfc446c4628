//! What the worker shows of itself, and when it runs.

use crate::config::{ComputeModel, Config, ConfigModel, UserModel};
use crate::history::{
    free_id, great_models, ids_differ, lemma_free_where_asked, lemma_ids_differ, next_free_id,
    remember, remembered, saved_models, BestModel, BestRecord, GreatArray, GreatModel, SavedArray, SavedModel, MAX_SAVED,
    MIN_SAVED_CORRECT,
};
use crate::rng::{init_arr, ordered};
use crate::text::{decimal, push_decimal};
use std::collections::VecDeque;
use std::time::Instant;
use vstd::prelude::*;
use vstd::string::*;

verus! {

/// `std::time::Instant`, a point of the monotonic clock; it is only carried
/// through.
#[verifier::external_type_specification]
#[verifier::external_body]
pub struct ExInstant(std::time::Instant);

/// How many ticks are kept for display.
pub const MAX_TICKS: usize = 120;

/// A single completed tick (one second of work).
#[derive(Debug, Clone, Copy)]
pub struct TickRecord {
    pub best_correct: u32,
    pub best_arr: [u8; 25],
    pub shuffles: u64,
}

/// Commands the GUI can send to the worker.
#[derive(Debug)]
pub enum WorkerCmd {
    /// Stop processing and disconnect.
    Stop,
    /// Start (or restart) with a (possibly new) config.
    Start(Config),
}

impl Clone for WorkerCmd {
    fn clone(&self) -> (r: Self)
        ensures
            match (*self, r) {
                (WorkerCmd::Stop, WorkerCmd::Stop) => true,
                (WorkerCmd::Start(a), WorkerCmd::Start(b)) => b@ == a@,
                _ => false,
            },
    {
        match self {
            WorkerCmd::Stop => WorkerCmd::Stop,
            WorkerCmd::Start(config) => WorkerCmd::Start(config.clone()),
        }
    }
}

/// What a stretch of work under one lease has come to.
#[derive(Debug)]
pub struct Tick {
    pub seed_str: String,
    /// Shuffles done under the lease so far.
    pub total_done: u64,
    /// Shuffles done since the last tick.
    pub shuffles: u64,
    pub best_correct: u32,
    pub best_arr: [u8; 25],
    pub best_index: u64,
    /// Every result since the last tick that reaches the cutoff of the history.
    pub great: Vec<GreatArray>,
}

/// The contents of a `Tick`.
#[verifier::ext_equal]
pub struct TickModel {
    pub seed_str: Seq<char>,
    pub total_done: u64,
    pub shuffles: u64,
    pub best_correct: u32,
    pub best_arr: Seq<u8>,
    pub best_index: u64,
    pub great: Seq<GreatModel>,
}

impl View for Tick {
    type V = TickModel;

    open spec fn view(&self) -> TickModel {
        TickModel {
            seed_str: self.seed_str@,
            total_done: self.total_done,
            shuffles: self.shuffles,
            best_correct: self.best_correct,
            best_arr: self.best_arr@,
            best_index: self.best_index,
            great: great_models(self.great@),
        }
    }
}

/// When something was found.
#[derive(Debug, Clone, Copy)]
pub struct Stamp {
    /// Nanoseconds since the Unix epoch.
    pub nanos: u64,
    /// Seconds since the Unix epoch.
    pub unix: i64,
}

/// Everything that is displayed of the worker.
pub struct GuiStatsInner {
    /// Rolling history — one entry per tick (second), newest last.
    pub ticks: Vec<TickRecord>,
    /// Running total shuffles ever submitted.
    pub total_shuffles: u64,
    /// Shuffles in the last second (for display).
    pub shuffles_per_sec: u64,
    /// Best score so far *this session* (resets on app restart).
    pub session_best: u32,
    /// Best array so far this session.
    pub session_best_arr: [u8; 25],
    /// All-time best score ever recorded, persisted to disk across sessions.
    pub all_time_best: u32,
    /// All-time best array ever recorded.
    pub all_time_best_arr: [u8; 25],
    /// Connection status string.
    pub status: String,
    /// Nickname (filled in on welcome).
    pub nickname: String,
    /// Current seed string.
    pub seed_str: String,
    /// History of "great" arrays, persisted to disk.
    pub saved_arrays: Vec<SavedArray>,
    /// Uptime start.
    pub start: Instant,
    /// Whether the worker is currently running.
    pub running: bool,
}

/// The contents of a `TickRecord`.
#[verifier::ext_equal]
pub struct TickRecordModel {
    pub best_correct: u32,
    pub best_arr: Seq<u8>,
    pub shuffles: u64,
}

impl View for TickRecord {
    type V = TickRecordModel;

    open spec fn view(&self) -> TickRecordModel {
        TickRecordModel {
            best_correct: self.best_correct,
            best_arr: self.best_arr@,
            shuffles: self.shuffles,
        }
    }
}

/// The contents of a `GuiStatsInner`.
#[verifier::ext_equal]
pub struct StatsModel {
    pub ticks: Seq<TickRecordModel>,
    pub total_shuffles: u64,
    pub shuffles_per_sec: u64,
    pub session_best: u32,
    pub session_best_arr: Seq<u8>,
    pub all_time_best: u32,
    pub all_time_best_arr: Seq<u8>,
    pub status: Seq<char>,
    pub nickname: Seq<char>,
    pub seed_str: Seq<char>,
    pub saved_arrays: Seq<SavedModel>,
    pub start: Instant,
    pub running: bool,
}

impl View for GuiStatsInner {
    type V = StatsModel;

    open spec fn view(&self) -> StatsModel {
        StatsModel {
            ticks: self.ticks@.map_values(|t: TickRecord| t@),
            total_shuffles: self.total_shuffles,
            shuffles_per_sec: self.shuffles_per_sec,
            session_best: self.session_best,
            session_best_arr: self.session_best_arr@,
            all_time_best: self.all_time_best,
            all_time_best_arr: self.all_time_best_arr@,
            status: self.status@,
            nickname: self.nickname@,
            seed_str: self.seed_str@,
            saved_arrays: saved_models(self.saved_arrays@),
            start: self.start,
            running: self.running,
        }
    }
}

/// What the display starts from: the best array ever, the saved history, and
/// nothing of this session.
pub open spec fn fresh_stats(
    best: Option<BestModel>,
    saved: Seq<SavedModel>,
    start: Instant,
) -> StatsModel {
    StatsModel {
        ticks: Seq::empty(),
        total_shuffles: 0,
        shuffles_per_sec: 0,
        session_best: 0,
        session_best_arr: ordered(),
        all_time_best: match best {
            Some(b) => b.correct,
            None => 0,
        },
        all_time_best_arr: match best {
            Some(b) => b.arr,
            None => ordered(),
        },
        status: "stopped"@,
        nickname: Seq::empty(),
        seed_str: Seq::empty(),
        saved_arrays: saved,
        start,
        running: false,
    }
}

/// The ticks with one more; the oldest gives way beyond the maximum.
pub open spec fn rolled(ticks: Seq<TickRecordModel>, tick: TickRecordModel) -> Seq<
    TickRecordModel,
> {
    let all = ticks.push(tick);
    if all.len() > MAX_TICKS {
        all.drop_first()
    } else {
        all
    }
}

/// The history entry of a result of a tick, under the total that counts the
/// tick in.
pub open spec fn entry_of_great(
    great: GreatModel,
    tick: TickModel,
    total: u64,
    id: u64,
    stamp: Stamp,
) -> SavedModel {
    SavedModel {
        id,
        correct: great.correct,
        arr: great.arr,
        seed: tick.seed_str,
        index: great.index,
        rate: tick.shuffles,
        total_shuffles: total,
        timestamp: stamp.unix,
    }
}

/// A history with the first `n` results of a tick that reach the cutoff, in the
/// order in which they came, each under the first free id from its time on.
pub open spec fn with_greats(
    saved: Seq<SavedModel>,
    tick: TickModel,
    n: nat,
    total: u64,
    stamp: Stamp,
) -> Seq<SavedModel>
    decreases n,
{
    if n == 0 {
        saved
    } else {
        let before = with_greats(saved, tick, (n - 1) as nat, total, stamp);
        let id = free_id(before, stamp.nanos);
        remembered(before, entry_of_great(tick.great[n - 1], tick, total, id, stamp))
    }
}

/// The display after a tick.
pub open spec fn ticked(stats: StatsModel, tick: TickModel, stamp: Stamp) -> StatsModel {
    let total = (stats.total_shuffles + tick.shuffles) as u64;
    StatsModel {
        ticks: rolled(
            stats.ticks,
            TickRecordModel {
                best_correct: tick.best_correct,
                best_arr: tick.best_arr,
                shuffles: tick.shuffles,
            },
        ),
        total_shuffles: total,
        shuffles_per_sec: tick.shuffles,
        session_best: if tick.best_correct > stats.session_best {
            tick.best_correct
        } else {
            stats.session_best
        },
        session_best_arr: if tick.best_correct > stats.session_best {
            tick.best_arr
        } else {
            stats.session_best_arr
        },
        all_time_best: if tick.best_correct > stats.all_time_best {
            tick.best_correct
        } else {
            stats.all_time_best
        },
        all_time_best_arr: if tick.best_correct > stats.all_time_best {
            tick.best_arr
        } else {
            stats.all_time_best_arr
        },
        saved_arrays: with_greats(stats.saved_arrays, tick, tick.great.len(), total, stamp),
        ..stats
    }
}

/// The record to persist when a tick beats everything before it.
pub open spec fn record_of_tick(stats: StatsModel, tick: TickModel, stamp: Stamp) -> Option<
    BestModel,
> {
    if tick.best_correct > stats.all_time_best {
        Some(
            BestModel {
                correct: tick.best_correct,
                arr: tick.best_arr,
                seed: tick.seed_str,
                index: tick.best_index,
                timestamp: stamp.unix,
            },
        )
    } else {
        None
    }
}

/// What has to be written to disk after a tick.
#[derive(Debug)]
pub struct Persist {
    /// The whole history, when an entry was added.
    pub history: Option<Vec<SavedArray>>,
    /// The best record, when there is a new one.
    pub best: Option<BestRecord>,
}

/// The contents of a `Persist`.
#[verifier::ext_equal]
pub struct PersistModel {
    pub history: Option<Seq<SavedModel>>,
    pub best: Option<BestModel>,
}

impl View for Persist {
    type V = PersistModel;

    open spec fn view(&self) -> PersistModel {
        PersistModel {
            history: match self.history {
                Some(entries) => Some(saved_models(entries@)),
                None => None,
            },
            best: match self.best {
                Some(record) => Some(record@),
                None => None,
            },
        }
    }
}

/// What has to be written to disk after a tick: the history when the tick gives
/// something to it, and the record when there is a new one.
pub open spec fn to_write(stats: StatsModel, tick: TickModel, stamp: Stamp) -> PersistModel {
    PersistModel {
        history: if tick.great.len() > 0 {
            Some(ticked(stats, tick, stamp).saved_arrays)
        } else {
            None
        },
        best: record_of_tick(stats, tick, stamp),
    }
}

/// Whether two saved arrays hold the same.
pub open spec fn same_entry(a: SavedArray, b: SavedArray) -> bool {
    &&& a.id == b.id
    &&& a.correct == b.correct
    &&& a.arr == b.arr
    &&& a.seed@ == b.seed@
    &&& a.index == b.index
    &&& a.rate == b.rate
    &&& a.total_shuffles == b.total_shuffles
    &&& a.timestamp == b.timestamp
}

/// A copy of a list of saved arrays.
pub fn copy_saved(entries: &Vec<SavedArray>) -> (r: Vec<SavedArray>)
    ensures
        saved_models(r@) == saved_models(entries@),
        r@.len() == entries@.len(),
        forall|i: int|
            0 <= i < r@.len() ==> same_entry(#[trigger] r@[i], entries@[i]),
{
    let mut out: Vec<SavedArray> = Vec::new();
    let mut i: usize = 0;
    while i < entries.len()
        invariant
            i <= entries.len(),
            out.len() == i,
            forall|k: int| 0 <= k < i ==> (#[trigger] out@[k])@ == entries@[k]@,
            forall|k: int| 0 <= k < i ==> same_entry(#[trigger] out@[k], entries@[k]),
        decreases entries.len() - i,
    {
        out.push(entries[i].clone());
        i = i + 1;
    }
    proof {
        assert(saved_models(out@) =~= saved_models(entries@));
    }
    out
}

/// Adds the results of a tick that reach the cutoff to the history.
fn remember_greats(saved: &mut Vec<SavedArray>, tick: &Tick, total: u64, stamp: Stamp)
    ensures
        saved_models(final(saved)@) == with_greats(
            saved_models(old(saved)@),
            tick@,
            tick@.great.len(),
            total,
            stamp,
        ),
        tick.great@.len() > 0 ==> {
            let entry = final(saved)@.last();
            &&& final(saved)@.len() > 0
            &&& entry.correct == tick.great@.last().correct
            &&& entry.arr == tick.great@.last().arr
            &&& entry.index == tick.great@.last().index
            &&& entry.seed@ == tick.seed_str@
            &&& entry.rate == tick.shuffles
            &&& entry.total_shuffles == total
            &&& entry.timestamp == stamp.unix
        },
{
    let ghost before = saved_models(saved@);
    let mut i: usize = 0;
    while i < tick.great.len()
        invariant
            i <= tick.great.len(),
            before == saved_models(old(saved)@),
            saved_models(saved@) == with_greats(before, tick@, i as nat, total, stamp),
            i > 0 ==> {
                let entry = saved@.last();
                &&& saved@.len() > 0
                &&& entry.correct == tick.great@[i - 1].correct
                &&& entry.arr == tick.great@[i - 1].arr
                &&& entry.index == tick.great@[i - 1].index
                &&& entry.seed@ == tick.seed_str@
                &&& entry.rate == tick.shuffles
                &&& entry.total_shuffles == total
                &&& entry.timestamp == stamp.unix
            },
        decreases tick.great.len() - i,
    {
        let great = tick.great[i];
        let id = next_free_id(saved, stamp.nanos);
        let entry = SavedArray {
            id,
            correct: great.correct,
            arr: great.arr,
            seed: tick.seed_str.clone(),
            index: great.index,
            rate: tick.shuffles,
            total_shuffles: total,
            timestamp: stamp.unix,
        };
        proof {
            assert(tick@.great[i as int] == great@);
            assert(entry@ =~= entry_of_great(great@, tick@, total, id, stamp));
        }
        remember(saved, entry);
        i = i + 1;
    }
}

impl GuiStatsInner {
    /// The display at the start of the program.
    pub fn new(best: &Option<BestRecord>, saved: Vec<SavedArray>, start: Instant) -> (r: Self)
        ensures
            r@ == fresh_stats(
                match *best {
                    Some(b) => Some(b@),
                    None => None,
                },
                saved_models(saved@),
                start,
            ),
            *best matches Some(b) ==> r.all_time_best == b.correct && r.all_time_best_arr == b.arr,
            *best is None ==> r.all_time_best == 0 && forall|i: int|
                0 <= i < 25 ==> #[trigger] r.all_time_best_arr@[i] == i + 1,
            r.session_best == 0,
            forall|i: int| 0 <= i < 25 ==> #[trigger] r.session_best_arr@[i] == i + 1,
            r.saved_arrays == saved,
            r.ticks@.len() == 0,
            r.total_shuffles == 0,
            r.shuffles_per_sec == 0,
            r.status@ == "stopped"@,
            r.nickname@.len() == 0,
            r.seed_str@.len() == 0,
            r.start == start,
            !r.running,
    {
        let (all_time_best, all_time_best_arr) = match best {
            Some(b) => (b.correct, b.arr),
            None => (0, init_arr()),
        };
        let r = GuiStatsInner {
            ticks: Vec::new(),
            total_shuffles: 0,
            shuffles_per_sec: 0,
            session_best: 0,
            session_best_arr: init_arr(),
            all_time_best,
            all_time_best_arr,
            status: "stopped".to_owned(),
            nickname: String::new(),
            seed_str: String::new(),
            saved_arrays: saved,
            start,
            running: false,
        };
        proof {
            assert(r@.ticks =~= Seq::empty());
        }
        r
    }

    /// Counts a tick in, with the given time as the time of its finds.
    pub fn record_tick_at(&mut self, tick: &Tick, stamp: Stamp) -> (r: Persist)
        requires
            old(self).total_shuffles + tick.shuffles <= u64::MAX,
        ensures
            final(self)@ == ticked(old(self)@, tick@, stamp),
            r@ == to_write(old(self)@, tick@, stamp),
            r.best is Some <==> tick.best_correct > old(self).all_time_best,
            r.best matches Some(record) ==> {
                &&& record.correct == tick.best_correct
                &&& record.arr == tick.best_arr
                &&& record.seed@ == tick.seed_str@
                &&& record.index == tick.best_index
                &&& record.timestamp == stamp.unix
            },
            r.history is Some <==> tick.great@.len() > 0,
            r.history matches Some(entries) ==> {
                &&& entries@.len() == final(self).saved_arrays@.len()
                &&& forall|i: int|
                    0 <= i < entries@.len() ==> same_entry(
                        #[trigger] entries@[i],
                        final(self).saved_arrays@[i],
                    )
            },
            tick.great@.len() > 0 ==> {
                let entry = final(self).saved_arrays@.last();
                &&& final(self).saved_arrays@.len() > 0
                &&& entry.correct == tick.great@.last().correct
                &&& entry.arr == tick.great@.last().arr
                &&& entry.index == tick.great@.last().index
                &&& entry.seed@ == tick.seed_str@
                &&& entry.rate == tick.shuffles
                &&& entry.total_shuffles == old(self).total_shuffles + tick.shuffles
                &&& entry.timestamp == stamp.unix
            },
            tick.great@.len() == 0 ==> final(self).saved_arrays == old(self).saved_arrays,
            final(self).total_shuffles == old(self).total_shuffles + tick.shuffles,
            final(self).shuffles_per_sec == tick.shuffles,
            final(self).session_best == if tick.best_correct > old(self).session_best {
                tick.best_correct
            } else {
                old(self).session_best
            },
            final(self).session_best_arr == if tick.best_correct > old(self).session_best {
                tick.best_arr
            } else {
                old(self).session_best_arr
            },
            final(self).all_time_best == if tick.best_correct > old(self).all_time_best {
                tick.best_correct
            } else {
                old(self).all_time_best
            },
            final(self).all_time_best_arr == if tick.best_correct > old(self).all_time_best {
                tick.best_arr
            } else {
                old(self).all_time_best_arr
            },
            final(self).ticks@.len() > 0,
            final(self).ticks@.last().best_correct == tick.best_correct,
            final(self).ticks@.last().best_arr == tick.best_arr,
            final(self).ticks@.last().shuffles == tick.shuffles,
            final(self).running == old(self).running,
            final(self).start == old(self).start,
            final(self).status == old(self).status,
            final(self).nickname == old(self).nickname,
            final(self).seed_str == old(self).seed_str,
    {
        let ghost before = self@;
        if tick.best_correct > self.session_best {
            self.session_best = tick.best_correct;
            self.session_best_arr = tick.best_arr;
        }
        let mut best: Option<BestRecord> = None;
        if tick.best_correct > self.all_time_best {
            self.all_time_best = tick.best_correct;
            self.all_time_best_arr = tick.best_arr;
            best = Some(
                BestRecord {
                    correct: tick.best_correct,
                    arr: tick.best_arr,
                    seed: tick.seed_str.clone(),
                    index: tick.best_index,
                    timestamp: stamp.unix,
                },
            );
        }
        let record = TickRecord {
            best_correct: tick.best_correct,
            best_arr: tick.best_arr,
            shuffles: tick.shuffles,
        };
        self.ticks.push(record);
        if self.ticks.len() > MAX_TICKS {
            self.ticks.remove(0);
        }
        proof {
            assert(self@.ticks =~= rolled(before.ticks, record@));
        }
        self.shuffles_per_sec = tick.shuffles;
        self.total_shuffles = self.total_shuffles + tick.shuffles;
        let mut history: Option<Vec<SavedArray>> = None;
        if tick.great.len() > 0 {
            let total = self.total_shuffles;
            remember_greats(&mut self.saved_arrays, tick, total, stamp);
            history = Some(copy_saved(&self.saved_arrays));
        }
        proof {
            assert(self@ =~= ticked(before, tick@, stamp));
        }
        Persist { history, best }
    }

    /// Shows that a session is being set up.
    pub fn session_starting(&mut self)
        ensures
            final(self)@ == starting(old(self)@),
    {
        self.running = true;
        self.status = "starting…".to_owned();
    }

    /// Shows that no session is running.
    pub fn session_stopped(&mut self)
        ensures
            final(self)@ == (StatsModel {
                running: false,
                status: "stopped"@,
                shuffles_per_sec: 0,
                seed_str: Seq::empty(),
                ..old(self)@
            }),
    {
        self.running = false;
        self.status = "stopped".to_owned();
        self.shuffles_per_sec = 0;
        self.seed_str = String::new();
    }

    /// Shows a status that begins with `prefix`.
    pub fn show_status(&mut self, prefix: &str, detail: &str)
        ensures
            final(self)@ == (StatsModel { status: prefix@ + detail@, ..old(self)@ }),
    {
        let mut status = prefix.to_owned();
        status.append(detail);
        self.status = status;
    }

    /// Shows that no backend could be set up.
    pub fn backend_failed(&mut self, error: &str)
        ensures
            final(self)@ == (StatsModel { status: "backend error: "@ + error@, ..old(self)@ }),
    {
        self.show_status("backend error: ", error);
    }

    /// Shows that setting up the backend ended abruptly.
    pub fn backend_panicked(&mut self, error: &str)
        ensures
            final(self)@ == (StatsModel { status: "backend panic: "@ + error@, ..old(self)@ }),
    {
        self.show_status("backend panic: ", error);
    }

    /// Shows that the backend is set up.
    pub fn backend_ready(&mut self)
        ensures
            final(self)@ == (StatsModel { status: "backend ready, connecting…"@, ..old(self)@ }),
    {
        self.status = "backend ready, connecting…".to_owned();
    }

    /// Shows that a connection is being made, after the given pause in seconds
    /// should it fail.
    pub fn connecting(&mut self, pause: u64)
        ensures
            final(self)@ == (StatsModel {
                status: "connecting… (backoff "@ + decimal(pause as nat) + "s)"@,
                ..old(self)@
            }),
    {
        let mut status = "connecting… (backoff ".to_owned();
        push_decimal(&mut status, pause);
        status.append("s)");
        self.status = status;
    }

    /// Shows that the connection is lost and comes back after a pause in
    /// seconds.
    pub fn disconnected(&mut self, pause: u64)
        ensures
            final(self)@ == (StatsModel {
                status: "disconnected — retry in "@ + decimal(pause as nat) + "s"@,
                ..old(self)@
            }),
    {
        let mut status = "disconnected — retry in ".to_owned();
        push_decimal(&mut status, pause);
        status.append("s");
        self.status = status;
    }

    /// Shows that the connection stands.
    pub fn connected(&mut self)
        ensures
            final(self)@ == (StatsModel { status: "connected ✅"@, ..old(self)@ }),
    {
        self.status = "connected ✅".to_owned();
    }

    /// Shows the lease that is being worked on.
    pub fn lease_started(&mut self, seed_str: &String)
        ensures
            final(self)@ == (StatsModel { seed_str: seed_str@, ..old(self)@ }),
    {
        self.seed_str = seed_str.clone();
    }

    /// A line that sums the display up.
    pub fn status_line(&self) -> (r: String)
        ensures
            r@ == summary(self@),
            r@ == "status: "@ + self.status@ + " | "@ + decimal(self.shuffles_per_sec as nat)
                + "/s | session best "@ + decimal(self.session_best as nat)
                + "/25 | all-time best "@ + decimal(self.all_time_best as nat) + "/25 | total "@
                + decimal(self.total_shuffles as nat),
    {
        let mut out = "status: ".to_owned();
        out.append(self.status.as_str());
        out.append(" | ");
        push_decimal(&mut out, self.shuffles_per_sec);
        out.append("/s | session best ");
        push_decimal(&mut out, self.session_best as u64);
        out.append("/25 | all-time best ");
        push_decimal(&mut out, self.all_time_best as u64);
        out.append("/25 | total ");
        push_decimal(&mut out, self.total_shuffles);
        proof {
            assert(out@ =~= summary(self@));
        }
        out
    }
}

/// The display in one line.
pub open spec fn summary(stats: StatsModel) -> Seq<char> {
    "status: "@ + stats.status + " | "@ + decimal(stats.shuffles_per_sec as nat)
        + "/s | session best "@ + decimal(stats.session_best as nat) + "/25 | all-time best "@
        + decimal(stats.all_time_best as nat) + "/25 | total "@ + decimal(
        stats.total_shuffles as nat,
    )
}

/// The display while a session is being set up.
pub open spec fn starting(stats: StatsModel) -> StatsModel {
    StatsModel { running: true, status: "starting…"@, ..stats }
}

/// Setting a session up shows the worker as running and changes nothing else
/// but the status.
pub proof fn law_starting_shows_running(stats: StatsModel)
    ensures
        starting(stats).running,
        starting(stats).status == "starting…"@,
        starting(stats).ticks == stats.ticks,
        starting(stats).total_shuffles == stats.total_shuffles,
        starting(stats).shuffles_per_sec == stats.shuffles_per_sec,
        starting(stats).session_best == stats.session_best,
        starting(stats).session_best_arr == stats.session_best_arr,
        starting(stats).all_time_best == stats.all_time_best,
        starting(stats).all_time_best_arr == stats.all_time_best_arr,
        starting(stats).nickname == stats.nickname,
        starting(stats).seed_str == stats.seed_str,
        starting(stats).saved_arrays == stats.saved_arrays,
        starting(stats).start == stats.start,
{
}

/// When the worker runs: at most one session at a time, started by command.
pub struct Worker {
    /// The configuration of a session to start with, without a command.
    autostart: Option<Config>,
}

impl View for Worker {
    type V = Option<ConfigModel>;

    closed spec fn view(&self) -> Option<ConfigModel> {
        match self.autostart {
            Some(config) => Some(config@),
            None => None,
        }
    }
}

/// The configuration that a command asks for.
pub open spec fn asked_for(cmd: WorkerCmd) -> Option<ConfigModel> {
    match cmd {
        WorkerCmd::Start(config) => Some(config@),
        WorkerCmd::Stop => None,
    }
}

/// A session to run.
pub struct SessionModel {
    pub config: ConfigModel,
    /// The display as it is when the session begins.
    pub stats: StatsModel,
    /// The commands that have not been taken by then.
    pub cmds: Seq<WorkerCmd>,
}

/// The session that starts first: what is asked for is started at once, and
/// otherwise the next command is taken. `None` where all commands are taken and
/// none of them asks for a session.
pub open spec fn first_session(
    asked: Option<ConfigModel>,
    stats: StatsModel,
    cmds: Seq<WorkerCmd>,
) -> Option<SessionModel>
    decreases cmds.len(),
{
    match asked {
        Some(config) => Some(SessionModel { config, stats: starting(stats), cmds }),
        None => if cmds.len() == 0 {
            None
        } else {
            first_session(asked_for(cmds[0]), stats, cmds.drop_first())
        },
    }
}

impl Worker {
    /// A worker that waits for its first command.
    pub fn new() -> (r: Self)
        ensures
            r@ is None,
    {
        Worker { autostart: None }
    }

    /// Like `Worker::new`, but the first session starts without a command.
    pub fn new_with_autostart(config: Config) -> (r: Self)
        ensures
            r@ == Some(config@),
            r@ == Some(
                (ConfigModel {
                    user: (UserModel {
                        uuid: config.user.uuid@,
                        nickname: config.user.nickname@,
                        code: config.user.code@,
                    }),
                    compute: (ComputeModel {
                        backend: config.compute.backend,
                        gpu_arch: config.compute.gpu_arch@,
                        blocks: config.compute.blocks,
                        threads: config.compute.threads,
                        cpu_threads: config.compute.cpu_threads,
                    }),
                }),
            ),
    {
        Worker { autostart: Some(config) }
    }

    /// Takes commands until one of them starts a session: its configuration,
    /// and the session is shown as being set up. `None` when no command is left.
    ///
    /// A command that ends a session is the first one of the next call.
    pub fn run(&mut self, stats: &mut GuiStatsInner, cmds: &mut VecDeque<WorkerCmd>) -> (r: Option<
        Config,
    >)
        ensures
            final(self)@ is None,
            match first_session(old(self)@, old(stats)@, old(cmds)@) {
                Some(session) => {
                    &&& r matches Some(config) && config@ == session.config
                    &&& final(stats)@ == session.stats
                    &&& final(cmds)@ == session.cmds
                },
                None => r is None && final(stats)@ == old(stats)@ && final(cmds)@.len() == 0,
            },
    {
        let ghost first = first_session(self@, stats@, cmds@);
        let mut asked: Option<Config> = self.autostart.take();
        loop
            invariant
                self@ is None,
                stats@ == old(stats)@,
                first == first_session(old(self)@, old(stats)@, old(cmds)@),
                first == first_session(
                    match asked {
                        Some(config) => Some(config@),
                        None => None,
                    },
                    stats@,
                    cmds@,
                ),
            decreases cmds@.len(),
        {
            if let Some(config) = asked {
                stats.session_starting();
                return Some(config);
            }
            asked = match cmds.pop_front() {
                Some(WorkerCmd::Start(config)) => Some(config),
                Some(WorkerCmd::Stop) => None,
                None => return None,
            };
        }
    }
}

/// Whether the display keeps what its fields promise: at most so many ticks,
/// and no session better than all time.
pub open spec fn stats_consistent(stats: StatsModel) -> bool {
    stats.ticks.len() <= MAX_TICKS && stats.session_best <= stats.all_time_best
}

/// The display starts out consistent, and every tick keeps it so.
pub proof fn law_stats_stay_consistent(
    best: Option<BestModel>,
    saved: Seq<SavedModel>,
    start: Instant,
    stats: StatsModel,
    tick: TickModel,
    stamp: Stamp,
)
    ensures
        stats_consistent(fresh_stats(best, saved, start)),
        stats_consistent(stats) ==> stats_consistent(ticked(stats, tick, stamp)),
{
}

/// A best record is written if and only if a tick beats everything before it,
/// and it names the score, the array, the seed and the index of that tick, and
/// when it was found.
pub proof fn law_record_is_of_the_tick(stats: StatsModel, tick: TickModel, stamp: Stamp)
    ensures
        to_write(stats, tick, stamp).best is Some <==> tick.best_correct > stats.all_time_best,
        to_write(stats, tick, stamp).best matches Some(record) ==> {
            &&& record.correct == tick.best_correct
            &&& record.arr == tick.best_arr
            &&& record.seed == tick.seed_str
            &&& record.index == tick.best_index
            &&& record.timestamp == stamp.unix
        },
        to_write(stats, tick, stamp).history is Some <==> tick.great.len() > 0,
        to_write(stats, tick, stamp).history matches Some(entries) ==> entries == ticked(
            stats,
            tick,
            stamp,
        ).saved_arrays,
{
}

/// A tick is counted in: the total grows by its shuffles, which are the rate
/// that is shown; it stands last among the ticks, those before it keep their
/// order, and only the oldest gives way; each best becomes that of the tick
/// where the tick beats it, with its array; and nothing else changes.
pub proof fn law_tick_is_counted_in(stats: StatsModel, tick: TickModel, stamp: Stamp)
    requires
        stats.total_shuffles + tick.shuffles <= u64::MAX,
    ensures
        ({
            let after = ticked(stats, tick, stamp);
            &&& after.total_shuffles == stats.total_shuffles + tick.shuffles
            &&& after.shuffles_per_sec == tick.shuffles
            &&& after.ticks.len() > 0
            &&& after.ticks.last().best_correct == tick.best_correct
            &&& after.ticks.last().best_arr == tick.best_arr
            &&& after.ticks.last().shuffles == tick.shuffles
            &&& after.ticks.len() == stats.ticks.len() + 1 || (after.ticks.len()
                == stats.ticks.len() && stats.ticks.len() >= 120)
            &&& forall|i: int|
                0 <= i < after.ticks.len() - 1 ==> #[trigger] after.ticks[i]
                    == stats.ticks[stats.ticks.len() - (after.ticks.len() - 1) + i]
            &&& (after.session_best, after.session_best_arr) == if tick.best_correct
                > stats.session_best {
                (tick.best_correct, tick.best_arr)
            } else {
                (stats.session_best, stats.session_best_arr)
            }
            &&& (after.all_time_best, after.all_time_best_arr) == if tick.best_correct
                > stats.all_time_best {
                (tick.best_correct, tick.best_arr)
            } else {
                (stats.all_time_best, stats.all_time_best_arr)
            }
            &&& after.status == stats.status
            &&& after.nickname == stats.nickname
            &&& after.seed_str == stats.seed_str
            &&& after.start == stats.start
            &&& after.running == stats.running
        }),
{
}

/// The display starts from the best record and the history that are loaded;
/// of this session there is nothing yet, and nothing runs.
pub proof fn law_display_starts_from_the_records(
    best: BestModel,
    saved: Seq<SavedModel>,
    start: Instant,
)
    ensures
        fresh_stats(Some(best), saved, start).all_time_best == best.correct,
        fresh_stats(Some(best), saved, start).all_time_best_arr == best.arr,
        fresh_stats(None, saved, start).all_time_best == 0,
        forall|b: Option<BestModel>|
            {
                let stats = #[trigger] fresh_stats(b, saved, start);
                &&& stats.saved_arrays == saved
                &&& stats.start == start
                &&& stats.session_best == 0
                &&& stats.ticks.len() == 0
                &&& stats.total_shuffles == 0
                &&& stats.shuffles_per_sec == 0
                &&& stats.nickname.len() == 0
                &&& stats.seed_str.len() == 0
                &&& !stats.running
            },
{
}

/// What is on disk after a tick: the best record and the history, as far as
/// the tick asks for them to be written.
pub open spec fn persisted(
    best: Option<BestModel>,
    saved: Seq<SavedModel>,
    stats: StatsModel,
    tick: TickModel,
    stamp: Stamp,
) -> (Option<BestModel>, Seq<SavedModel>) {
    let written = to_write(stats, tick, stamp);
    (
        match written.best {
            Some(record) => Some(record),
            None => best,
        },
        match written.history {
            Some(entries) => entries,
            None => saved,
        },
    )
}

/// Whether a display shows the best record and the history that are on disk.
pub open spec fn shows_disk(
    stats: StatsModel,
    best: Option<BestModel>,
    saved: Seq<SavedModel>,
) -> bool {
    let reloaded = fresh_stats(best, saved, stats.start);
    &&& stats.all_time_best == reloaded.all_time_best
    &&& stats.all_time_best_arr == reloaded.all_time_best_arr
    &&& stats.saved_arrays == reloaded.saved_arrays
}

/// The best array of all time and the history outlive the program: what is
/// loaded at a start is what was shown after the last tick before it.
pub proof fn law_records_outlive_the_program(
    best: Option<BestModel>,
    saved: Seq<SavedModel>,
    start: Instant,
    stats: StatsModel,
    tick: TickModel,
    stamp: Stamp,
)
    ensures
        shows_disk(fresh_stats(best, saved, start), best, saved),
        shows_disk(stats, best, saved) ==> shows_disk(
            ticked(stats, tick, stamp),
            persisted(best, saved, stats, tick, stamp).0,
            persisted(best, saved, stats, tick, stamp).1,
        ),
{
}

/// With a configuration to start with, a session starts at once, whatever
/// commands come. Without one none starts before a start command, however many
/// stop commands come, and the first start command starts one. The worker is
/// shown as running by then.
pub proof fn law_sessions_start_by_command(
    autostart: ConfigModel,
    stats: StatsModel,
    stops: Seq<WorkerCmd>,
    config: Config,
    rest: Seq<WorkerCmd>,
)
    requires
        forall|i: int| 0 <= i < stops.len() ==> #[trigger] stops[i] is Stop,
    ensures
        first_session(Some(autostart), stats, rest) == Some(
            SessionModel { config: autostart, stats: starting(stats), cmds: rest },
        ),
        first_session(None, stats, stops) is None,
        first_session(None, stats, stops.push(WorkerCmd::Start(config)) + rest) == Some(
            SessionModel { config: config@, stats: starting(stats), cmds: rest },
        ),
        starting(stats).running,
    decreases stops.len(),
{
    reveal_with_fuel(first_session, 2);
    let all = stops.push(WorkerCmd::Start(config)) + rest;
    if stops.len() == 0 {
        assert(all[0] == WorkerCmd::Start(config));
        assert(all.drop_first() =~= rest);
    } else {
        let fewer = stops.drop_first();
        assert(all[0] == stops[0]);
        assert(all.drop_first() =~= fewer.push(WorkerCmd::Start(config)) + rest);
        assert forall|i: int| 0 <= i < fewer.len() implies #[trigger] fewer[i] is Stop by {
            assert(fewer[i] == stops[i + 1]);
        }
        law_sessions_start_by_command(autostart, stats, fewer, config, rest);
    }
}

/// Whether every entry of a history reaches the cutoff.
pub open spec fn all_great(saved: Seq<SavedModel>) -> bool {
    forall|i: int| 0 <= i < saved.len() ==> (#[trigger] saved[i]).correct >= MIN_SAVED_CORRECT
}

/// Whether every result that a tick gives to the history reaches the cutoff,
/// and its best array is among them if it does.
pub open spec fn greats_are_great(tick: TickModel) -> bool {
    &&& forall|i: int|
        0 <= i < tick.great.len() ==> (#[trigger] tick.great[i]).correct >= MIN_SAVED_CORRECT
    &&& tick.best_correct >= MIN_SAVED_CORRECT ==> tick.great.contains(
        GreatModel { correct: tick.best_correct, arr: tick.best_arr, index: tick.best_index },
    )
}

/// Only arrays that reach the cutoff enter the history.
pub proof fn law_history_keeps_great_arrays(stats: StatsModel, tick: TickModel, stamp: Stamp)
    requires
        all_great(stats.saved_arrays),
        greats_are_great(tick),
    ensures
        all_great(ticked(stats, tick, stamp).saved_arrays),
{
    let total = (stats.total_shuffles + tick.shuffles) as u64;
    lemma_greats_are_great(stats.saved_arrays, tick, tick.great.len(), total, stamp);
}

proof fn lemma_greats_are_great(
    saved: Seq<SavedModel>,
    tick: TickModel,
    n: nat,
    total: u64,
    stamp: Stamp,
)
    requires
        n <= tick.great.len(),
        all_great(saved),
        greats_are_great(tick),
    ensures
        all_great(with_greats(saved, tick, n, total, stamp)),
    decreases n,
{
    if n > 0 {
        lemma_greats_are_great(saved, tick, (n - 1) as nat, total, stamp);
        assert(tick.great[n - 1].correct >= MIN_SAVED_CORRECT);
    }
}

/// Every result that a tick gives to the history becomes an entry of it. The
/// last entries are those of the tick, in the order in which they came; only
/// where there are more of them than the history keeps are the first ones
/// dropped.
pub proof fn law_great_results_become_entries(
    stats: StatsModel,
    tick: TickModel,
    stamp: Stamp,
    i: int,
)
    requires
        0 <= i < tick.great.len(),
        tick.great.len() - i <= MAX_SAVED,
    ensures
        ({
            let saved = ticked(stats, tick, stamp).saved_arrays;
            let at = saved.len() - tick.great.len() + i;
            let total = (stats.total_shuffles + tick.shuffles) as u64;
            &&& 0 <= at < saved.len()
            &&& saved[at] == entry_of_great(tick.great[i], tick, total, saved[at].id, stamp)
            &&& saved[at].correct == tick.great[i].correct
            &&& saved[at].arr == tick.great[i].arr
            &&& saved[at].index == tick.great[i].index
            &&& saved[at].seed == tick.seed_str
            &&& saved[at].rate == tick.shuffles
            &&& saved[at].total_shuffles == total
            &&& saved[at].timestamp == stamp.unix
        }),
{
    let total = (stats.total_shuffles + tick.shuffles) as u64;
    lemma_great_entry(stats.saved_arrays, tick, tick.great.len(), total, stamp, i);
}

proof fn lemma_great_entry(
    saved: Seq<SavedModel>,
    tick: TickModel,
    n: nat,
    total: u64,
    stamp: Stamp,
    i: int,
)
    requires
        0 <= i < n <= tick.great.len(),
        n - i <= MAX_SAVED,
    ensures
        ({
            let after = with_greats(saved, tick, n, total, stamp);
            let at = after.len() - n + i;
            &&& 0 <= at < after.len()
            &&& after[at] == entry_of_great(tick.great[i], tick, total, after[at].id, stamp)
        }),
    decreases n,
{
    let before = with_greats(saved, tick, (n - 1) as nat, total, stamp);
    let after = with_greats(saved, tick, n, total, stamp);
    if i < n - 1 {
        lemma_great_entry(saved, tick, (n - 1) as nat, total, stamp, i);
        assert(after[after.len() - n + i] == before[before.len() - (n - 1) + i]);
    }
}

/// The first result that a tick gives to the history is filed under the time
/// at which it was found, unless an entry is filed under that already.
pub proof fn law_entries_are_filed_under_their_time(
    stats: StatsModel,
    tick: TickModel,
    stamp: Stamp,
)
    requires
        0 < tick.great.len() <= MAX_SAVED,
        stats.saved_arrays.len() < 0x1_0000_0000_0000_0000,
        forall|i: int|
            0 <= i < stats.saved_arrays.len() ==> (#[trigger] stats.saved_arrays[i]).id
                != stamp.nanos,
    ensures
        ({
            let saved = ticked(stats, tick, stamp).saved_arrays;
            saved[saved.len() - tick.great.len()].id == stamp.nanos
        }),
{
    let total = (stats.total_shuffles + tick.shuffles) as u64;
    lemma_first_is_filed(stats.saved_arrays, tick, tick.great.len(), total, stamp);
}

proof fn lemma_first_is_filed(
    saved: Seq<SavedModel>,
    tick: TickModel,
    n: nat,
    total: u64,
    stamp: Stamp,
)
    requires
        0 < n <= MAX_SAVED,
        n <= tick.great.len(),
        saved.len() < 0x1_0000_0000_0000_0000,
        forall|i: int|
            0 <= i < saved.len() ==> (#[trigger] saved[i]).id != stamp.nanos,
    ensures
        ({
            let after = with_greats(saved, tick, n, total, stamp);
            after.len() >= n && after[after.len() - n].id == stamp.nanos
        }),
    decreases n,
{
    let before = with_greats(saved, tick, (n - 1) as nat, total, stamp);
    let after = with_greats(saved, tick, n, total, stamp);
    if n > 1 {
        lemma_first_is_filed(saved, tick, (n - 1) as nat, total, stamp);
        assert(after[after.len() - n] == before[before.len() - (n - 1)]);
    } else {
        assert(before == saved);
        lemma_free_where_asked(saved, stamp.nanos);
    }
}

/// The ids of the history stay apart, whatever the clock shows.
pub proof fn law_ids_stay_unique(stats: StatsModel, tick: TickModel, stamp: Stamp)
    requires
        ids_differ(stats.saved_arrays),
        stats.saved_arrays.len() < 0x1_0000_0000_0000_0000,
    ensures
        ids_differ(ticked(stats, tick, stamp).saved_arrays),
{
    let total = (stats.total_shuffles + tick.shuffles) as u64;
    lemma_ids_stay_unique(stats.saved_arrays, tick, tick.great.len(), total, stamp);
}

proof fn lemma_ids_stay_unique(
    saved: Seq<SavedModel>,
    tick: TickModel,
    n: nat,
    total: u64,
    stamp: Stamp,
)
    requires
        ids_differ(saved),
        saved.len() < 0x1_0000_0000_0000_0000,
    ensures
        ids_differ(with_greats(saved, tick, n, total, stamp)),
        with_greats(saved, tick, n, total, stamp).len() < 0x1_0000_0000_0000_0000,
    decreases n,
{
    if n > 0 {
        lemma_ids_stay_unique(saved, tick, (n - 1) as nat, total, stamp);
        let before = with_greats(saved, tick, (n - 1) as nat, total, stamp);
        let id = free_id(before, stamp.nanos);
        lemma_ids_differ(
            before,
            entry_of_great(tick.great[n - 1], tick, total, id, stamp),
            stamp.nanos,
        );
    }
}

} // verus!
