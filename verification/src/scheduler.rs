//! Working a lease off: chunk by chunk, with a report whenever one is due and
//! at its end.
//!
//! The schedule of one lease is a state machine. Whoever drives it performs
//! the action that it asks for and hands the outcome back as an event. The
//! scheduler runs one such machine after the other and keeps the records.

use crate::compute::{is_best, shuffle_at, Backend, BatchResult, ComputeError};
use crate::history::{
    great_models, now_nanos, now_unix, GreatArray, GreatModel, MIN_SAVED_CORRECT,
};
use crate::worker::{
    ticked, to_write, GuiStatsInner, Persist, PersistModel, Stamp, StatsModel, Tick, TickModel,
};
use vstd::prelude::*;

verus! {

/// The most shuffles that a chunk holds.
pub const CHUNK_SIZE: u64 = 2_147_483_648;

/// How long after a report the next one is due, in nanoseconds.
pub const REPORT_INTERVAL: u64 = 1_000_000_000;

/// A job of the server: the first `count` shuffles of a seed.
#[derive(Debug)]
pub struct Lease {
    pub seed_str: String,
    pub seed: u64,
    pub count: u64,
}

/// A stretch of shuffle indices for the backend: `lo .. hi`.
#[derive(Debug, Clone, Copy)]
pub struct Chunk {
    pub seed: u64,
    pub lo: u64,
    pub hi: u64,
}

/// What the backend found in a chunk.
#[derive(Debug, Clone, Copy)]
pub struct RangeResult {
    pub lo: u64,
    pub hi: u64,
    pub best_correct: u32,
    pub best_arr: [u8; 25],
    pub best_index: u64,
}

/// The contents of a `Lease`.
#[verifier::ext_equal]
pub struct LeaseModel {
    pub seed_str: Seq<char>,
    pub seed: u64,
    pub count: u64,
}

/// The contents of a `RangeResult`.
#[verifier::ext_equal]
pub struct RangeModel {
    pub lo: u64,
    pub hi: u64,
    pub best_correct: u32,
    pub best_arr: Seq<u8>,
    pub best_index: u64,
}

impl View for Lease {
    type V = LeaseModel;

    open spec fn view(&self) -> LeaseModel {
        LeaseModel { seed_str: self.seed_str@, seed: self.seed, count: self.count }
    }
}

impl View for RangeResult {
    type V = RangeModel;

    open spec fn view(&self) -> RangeModel {
        RangeModel {
            lo: self.lo,
            hi: self.hi,
            best_correct: self.best_correct,
            best_arr: self.best_arr@,
            best_index: self.best_index,
        }
    }
}

/// The contents of an optional lease.
pub open spec fn lease_model(lease: Option<Lease>) -> Option<LeaseModel> {
    match lease {
        Some(l) => Some(l@),
        None => None,
    }
}

/// Whether a result is about the given chunk.
pub open spec fn answers(r: RangeModel, c: Chunk) -> bool {
    r.lo == c.lo && r.hi == c.hi
}

/// Whether a result names the best shuffle of its range.
pub open spec fn is_truthful(r: RangeModel, seed: u64) -> bool {
    &&& is_best(seed, r.lo, r.hi - r.lo, r.best_correct, r.best_index)
    &&& r.best_arr == shuffle_at(seed, r.best_index)
}

impl Chunk {
    /// How many shuffles the chunk holds.
    pub fn count(&self) -> (r: u32)
        requires
            self.lo <= self.hi <= self.lo + u32::MAX,
        ensures
            r == self.hi - self.lo,
    {
        (self.hi - self.lo) as u32
    }

    /// Searches the chunk for its best shuffle.
    pub fn search(&self, backend: &mut Backend) -> (r: Result<RangeResult, ComputeError>)
        requires
            self.lo <= self.hi <= self.lo + u32::MAX,
        ensures
            *final(backend) == *old(backend),
            r matches Ok(found) && answers(found@, *self) && is_truthful(found@, self.seed)
                && found.lo == self.lo && found.hi == self.hi && found.best_arr@ == shuffle_at(
                self.seed,
                found.best_index,
            ) && is_best(
                self.seed,
                self.lo,
                self.hi - self.lo,
                found.best_correct,
                found.best_index,
            ),
    {
        match backend.run_batch(self.seed, self.lo, self.count()) {
            Ok(batch) => Ok(self.result(&batch)),
            Err(e) => Err(e),
        }
    }

    /// The result of the batch that was run for this chunk.
    pub fn result(&self, batch: &BatchResult) -> (r: RangeResult)
        ensures
            r@ == (RangeModel {
                lo: self.lo,
                hi: self.hi,
                best_correct: batch.best_correct,
                best_arr: batch.best_arr@,
                best_index: batch.best_index,
            }),
            r.lo == self.lo,
            r.hi == self.hi,
            r.best_correct == batch.best_correct,
            r.best_arr == batch.best_arr,
            r.best_index == batch.best_index,
    {
        RangeResult {
            lo: self.lo,
            hi: self.hi,
            best_correct: batch.best_correct,
            best_arr: batch.best_arr,
            best_index: batch.best_index,
        }
    }
}

/// Whether a report is due so many nanoseconds after the last one.
pub fn is_report_due(since_last: u64) -> (r: bool)
    ensures
        r == (since_last >= REPORT_INTERVAL),
        r == (since_last >= 1_000_000_000),
{
    since_last >= REPORT_INTERVAL
}

/// Where a schedule stands.
#[derive(Debug, Clone, Copy, PartialEq, Eq, Structural)]
pub enum Phase {
    /// Nothing has happened yet.
    Fresh,
    /// A chunk is on its way to the backend; nothing else is pending.
    Sending,
    /// The backend works; results, newer leases, the reporting interval or the
    /// end may come.
    Waiting,
    /// A result came, and the next chunk is on its way to the backend.
    Handing,
    /// A result came, and whether a report is due is being found out.
    Clock,
    /// A report is being made.
    Reporting,
    /// The lease is over.
    Finished,
}

/// What happened.
#[derive(Debug)]
pub enum Event {
    /// Work on the lease begins.
    Begin,
    /// The backend has taken the chunk.
    Sent,
    /// The backend is done with a chunk.
    Done(RangeResult),
    /// The server announced another job.
    Lease(Lease),
    /// The session ends, or no more results or leases can come.
    Closed,
    /// Whether the reporting interval has passed since the last report.
    Clock(bool),
    /// The report has been made.
    Reported,
}

/// What to do next.
#[derive(Debug)]
pub enum Action {
    /// Hand a chunk to the backend.
    Send(Chunk),
    /// Wait for a result or for the end, for a newer lease if one can be taken,
    /// and for the reporting interval to pass if there is something to report.
    Wait { accepts_lease: bool, has_report: bool },
    /// Find out whether the reporting interval has passed.
    CheckClock,
    /// Count a tick in and report it to the server.
    Report(Tick),
    /// Leave the lease.
    Finish,
}

/// The contents of an `Event`.
pub enum EventModel {
    Begin,
    Sent,
    Done(RangeModel),
    Lease(LeaseModel),
    Closed,
    Clock(bool),
    Reported,
}

/// The contents of an `Action`.
pub enum ActionModel {
    Send(Chunk),
    Wait { accepts_lease: bool, has_report: bool },
    CheckClock,
    Report(TickModel),
    Finish,
}

impl View for Event {
    type V = EventModel;

    open spec fn view(&self) -> EventModel {
        match *self {
            Event::Begin => EventModel::Begin,
            Event::Sent => EventModel::Sent,
            Event::Done(r) => EventModel::Done(r@),
            Event::Lease(l) => EventModel::Lease(l@),
            Event::Closed => EventModel::Closed,
            Event::Clock(due) => EventModel::Clock(due),
            Event::Reported => EventModel::Reported,
        }
    }
}

impl View for Action {
    type V = ActionModel;

    open spec fn view(&self) -> ActionModel {
        match *self {
            Action::Send(c) => ActionModel::Send(c),
            Action::Wait { accepts_lease, has_report } => ActionModel::Wait {
                accepts_lease,
                has_report,
            },
            Action::CheckClock => ActionModel::CheckClock,
            Action::Report(t) => ActionModel::Report(t@),
            Action::Finish => ActionModel::Finish,
        }
    }
}

/// The schedule of one lease.
#[derive(Debug)]
pub struct LeaseRun {
    lease: Lease,
    next_dispatch: u64,
    in_flight: usize,
    total_done: u64,
    tick_done: u64,
    win_best: i32,
    win_arr: [u8; 25],
    win_index: u64,
    great: Vec<GreatArray>,
    next_lease: Option<Lease>,
    phase: Phase,
}

/// The contents of a `LeaseRun`.
#[verifier::ext_equal]
pub struct RunModel {
    pub lease: LeaseModel,
    /// The first index that has not been handed to the backend.
    pub next_dispatch: u64,
    /// How many chunks the backend holds.
    pub in_flight: nat,
    /// Shuffles done under the lease.
    pub total_done: u64,
    /// Shuffles done since the last report.
    pub tick_done: u64,
    /// The best score since the last report, or -1.
    pub win_best: i32,
    pub win_arr: Seq<u8>,
    pub win_index: u64,
    /// The results since the last report that reach the cutoff of the history.
    pub great: Seq<GreatModel>,
    /// The newer lease that waits for this one to be left.
    pub next_lease: Option<LeaseModel>,
    pub phase: Phase,
}

impl View for LeaseRun {
    type V = RunModel;

    closed spec fn view(&self) -> RunModel {
        RunModel {
            lease: self.lease@,
            next_dispatch: self.next_dispatch,
            in_flight: self.in_flight as nat,
            total_done: self.total_done,
            tick_done: self.tick_done,
            win_best: self.win_best,
            win_arr: self.win_arr@,
            win_index: self.win_index,
            great: great_models(self.great@),
            next_lease: lease_model(self.next_lease),
            phase: self.phase,
        }
    }
}

/// An array of zeros, where no winner is known.
pub open spec fn blank() -> Seq<u8> {
    Seq::new(25, |i: int| 0u8)
}

/// A schedule on which nothing has happened.
pub open spec fn fresh(lease: LeaseModel) -> RunModel {
    RunModel {
        lease,
        next_dispatch: 0,
        in_flight: 0,
        total_done: 0,
        tick_done: 0,
        win_best: (-1) as i32,
        win_arr: blank(),
        win_index: 0,
        great: Seq::empty(),
        next_lease: None,
        phase: Phase::Fresh,
    }
}

/// Where the chunk that starts at `lo` ends.
pub open spec fn chunk_end(lo: int, count: u64) -> int {
    if lo + CHUNK_SIZE <= count {
        lo + CHUNK_SIZE
    } else {
        count as int
    }
}

/// Whether there is a next chunk to hand out: a newer lease stops that.
pub open spec fn can_dispatch(m: RunModel) -> bool {
    m.next_lease is None && m.next_dispatch < m.lease.count
}

/// The next chunk.
pub open spec fn next_chunk(m: RunModel) -> Chunk {
    Chunk {
        seed: m.lease.seed,
        lo: m.next_dispatch,
        hi: chunk_end(m.next_dispatch as int, m.lease.count) as u64,
    }
}

/// Hands the next chunk out.
pub open spec fn dispatched(m: RunModel, phase: Phase) -> (RunModel, ActionModel) {
    (
        RunModel {
            next_dispatch: next_chunk(m).hi,
            in_flight: m.in_flight + 1,
            phase,
            ..m
        },
        ActionModel::Send(next_chunk(m)),
    )
}

/// Goes on when nothing is left to do about the last event.
pub open spec fn turned(m: RunModel) -> (RunModel, ActionModel) {
    if can_dispatch(m) && m.in_flight == 0 {
        dispatched(m, Phase::Sending)
    } else if m.in_flight == 0 {
        (RunModel { phase: Phase::Finished, ..m }, ActionModel::Finish)
    } else {
        (
            RunModel { phase: Phase::Waiting, ..m },
            ActionModel::Wait { accepts_lease: m.next_lease is None, has_report: m.win_best >= 0 },
        )
    }
}

/// What a result gives to the history.
pub open spec fn great_of(r: RangeModel) -> GreatModel {
    GreatModel { correct: r.best_correct, arr: r.best_arr, index: r.best_index }
}

/// Counts a result in; an equal score does not replace the winner. Every
/// result that reaches the cutoff is kept for the history.
pub open spec fn absorbed(m: RunModel, r: RangeModel) -> RunModel {
    let better = r.best_correct as i32 > m.win_best;
    RunModel {
        in_flight: (m.in_flight - 1) as nat,
        total_done: (m.total_done + (r.hi - r.lo)) as u64,
        tick_done: (m.tick_done + (r.hi - r.lo)) as u64,
        win_best: if better {
            r.best_correct as i32
        } else {
            m.win_best
        },
        win_arr: if better {
            r.best_arr
        } else {
            m.win_arr
        },
        win_index: if better {
            r.best_index
        } else {
            m.win_index
        },
        great: if r.best_correct >= MIN_SAVED_CORRECT {
            m.great.push(great_of(r))
        } else {
            m.great
        },
        ..m
    }
}

/// Whether the lease is over once the last result is dealt with: the backend
/// holds none of its chunks, and no further one is to be handed out.
pub open spec fn lease_done(m: RunModel) -> bool {
    m.in_flight == 0 && (m.next_lease is Some || m.total_done >= m.lease.count)
}

/// The report on what was done since the last one.
pub open spec fn tick_of(m: RunModel) -> TickModel {
    TickModel {
        seed_str: m.lease.seed_str,
        total_done: m.total_done,
        shuffles: m.tick_done,
        best_correct: m.win_best as u32,
        best_arr: m.win_arr,
        best_index: m.win_index,
        great: m.great,
    }
}

/// Goes on after the question of a report, or leaves the lease when it is
/// over.
pub open spec fn resumed(m: RunModel) -> (RunModel, ActionModel) {
    if lease_done(m) {
        (RunModel { phase: Phase::Finished, ..m }, ActionModel::Finish)
    } else {
        turned(m)
    }
}

/// Whether the schedule can take an event where it stands.
pub open spec fn expects(m: RunModel, e: EventModel) -> bool {
    match e {
        EventModel::Begin => m.phase == Phase::Fresh,
        EventModel::Sent => m.phase == Phase::Sending || m.phase == Phase::Handing,
        EventModel::Done(r) => m.phase == Phase::Waiting && r.lo <= r.hi && m.total_done + (r.hi
            - r.lo) <= u64::MAX,
        EventModel::Lease(_) => m.phase == Phase::Waiting && m.next_lease is None,
        EventModel::Closed => m.phase == Phase::Waiting,
        EventModel::Clock(_) => m.phase == Phase::Clock || m.phase == Phase::Waiting,
        EventModel::Reported => m.phase == Phase::Reporting,
    }
}

/// What follows an event: the new state and the action to perform.
pub open spec fn next(m: RunModel, e: EventModel) -> (RunModel, ActionModel) {
    match e {
        EventModel::Begin => turned(m),
        EventModel::Sent => if m.phase == Phase::Handing {
            (RunModel { phase: Phase::Clock, ..m }, ActionModel::CheckClock)
        } else {
            turned(m)
        },
        EventModel::Done(r) => {
            let a = absorbed(m, r);
            if can_dispatch(a) {
                dispatched(a, Phase::Handing)
            } else {
                (RunModel { phase: Phase::Clock, ..a }, ActionModel::CheckClock)
            }
        },
        EventModel::Lease(l) => turned(RunModel { next_lease: Some(l), ..m }),
        EventModel::Closed => (RunModel { phase: Phase::Finished, ..m }, ActionModel::Finish),
        EventModel::Clock(due) => if (due || lease_done(m)) && m.win_best >= 0 {
            (
                RunModel {
                    win_best: (-1) as i32,
                    win_arr: blank(),
                    win_index: 0,
                    great: Seq::empty(),
                    tick_done: 0,
                    phase: Phase::Reporting,
                    ..m
                },
                ActionModel::Report(tick_of(m)),
            )
        } else {
            resumed(m)
        },
        EventModel::Reported => resumed(m),
    }
}

/// What every reachable schedule keeps: at most one chunk is with the backend,
/// and one is exactly while it is being sent or waited for. What is kept for
/// the history reaches its cutoff.
pub open spec fn well_formed(m: RunModel) -> bool {
    &&& m.next_dispatch <= m.lease.count
    &&& m.tick_done <= m.total_done
    &&& m.win_best >= -1
    &&& m.in_flight <= 1
    &&& (m.phase == Phase::Sending || m.phase == Phase::Waiting || m.phase == Phase::Handing)
        ==> m.in_flight == 1
    &&& m.phase == Phase::Fresh ==> m.in_flight == 0 && m.next_dispatch == 0
    &&& forall|i: int|
        0 <= i < m.great.len() ==> (#[trigger] m.great[i]).correct >= MIN_SAVED_CORRECT
}

impl LeaseRun {
    /// A schedule for a lease, before `Event::Begin`.
    pub fn new(lease: Lease) -> (r: Self)
        ensures
            r@ == fresh(lease@),
            r@.lease == (LeaseModel {
                seed_str: lease.seed_str@,
                seed: lease.seed,
                count: lease.count,
            }),
            well_formed(r@),
    {
        let r = LeaseRun {
            lease,
            next_dispatch: 0,
            in_flight: 0,
            total_done: 0,
            tick_done: 0,
            win_best: -1,
            win_arr: [0u8; 25],
            win_index: 0,
            great: Vec::new(),
            next_lease: None,
            phase: Phase::Fresh,
        };
        proof {
            assert(r.win_arr@ =~= blank());
            assert(r@.great =~= Seq::empty());
        }
        r
    }

    /// The lease that is being worked off.
    pub fn lease(&self) -> (r: &Lease)
        ensures
            r@ == self@.lease,
    {
        &self.lease
    }

    /// Whether the schedule can take an event where it stands.
    pub fn accepts(&self, event: &Event) -> (r: bool)
        ensures
            r == expects(self@, event@),
    {
        match event {
            Event::Begin => self.phase == Phase::Fresh,
            Event::Sent => self.phase == Phase::Sending || self.phase == Phase::Handing,
            Event::Done(result) => self.phase == Phase::Waiting && result.lo <= result.hi
                && result.hi - result.lo <= u64::MAX - self.total_done,
            Event::Lease(_) => self.phase == Phase::Waiting && self.next_lease.is_none(),
            Event::Closed => self.phase == Phase::Waiting,
            Event::Clock(_) => self.phase == Phase::Clock || self.phase == Phase::Waiting,
            Event::Reported => self.phase == Phase::Reporting,
        }
    }

    /// Takes an event and says what to do next.
    pub fn step(&mut self, event: Event) -> (r: Action)
        requires
            well_formed(old(self)@),
            expects(old(self)@, event@),
        ensures
            (final(self)@, r@) == next(old(self)@, event@),
            well_formed(final(self)@),
            event matches Event::Lease(newer) ==> final(self)@.next_lease == Some(
                (LeaseModel { seed_str: newer.seed_str@, seed: newer.seed, count: newer.count }),
            ),
            event matches Event::Done(found) ==> {
                &&& final(self)@.total_done == old(self)@.total_done + (found.hi - found.lo)
                &&& final(self)@.tick_done == old(self)@.tick_done + (found.hi - found.lo)
                &&& found.best_correct <= i32::MAX && found.best_correct > old(self)@.win_best ==> {
                    &&& final(self)@.win_best == found.best_correct
                    &&& final(self)@.win_arr == found.best_arr@
                    &&& final(self)@.win_index == found.best_index
                }
                &&& found.best_correct <= old(self)@.win_best ==> {
                    &&& final(self)@.win_best == old(self)@.win_best
                    &&& final(self)@.win_arr == old(self)@.win_arr
                    &&& final(self)@.win_index == old(self)@.win_index
                }
            },
            r matches Action::Report(tick) ==> {
                &&& tick.seed_str@ == old(self)@.lease.seed_str
                &&& tick.total_done == old(self)@.total_done
                &&& tick.shuffles == old(self)@.tick_done
                &&& tick.best_correct == old(self)@.win_best
                &&& tick.best_arr@ == old(self)@.win_arr
                &&& tick.best_index == old(self)@.win_index
                &&& great_models(tick.great@) == old(self)@.great
            },
            r matches Action::Send(chunk) ==> r@ == ActionModel::Send(chunk) && chunk.seed == old(
                self,
            )@.lease.seed,
            r matches Action::Wait { accepts_lease, has_report } ==> {
                &&& accepts_lease == (final(self)@.next_lease is None)
                &&& has_report == (final(self)@.win_best >= 0)
            },
            final(self)@.lease == old(self)@.lease,
    {
        match event {
            Event::Begin => self.turn(),
            Event::Sent => if self.phase == Phase::Handing {
                self.phase = Phase::Clock;
                Action::CheckClock
            } else {
                self.turn()
            },
            Event::Done(result) => {
                self.absorb(&result);
                if self.has_chunk() {
                    self.dispatch(Phase::Handing)
                } else {
                    self.phase = Phase::Clock;
                    Action::CheckClock
                }
            },
            Event::Lease(lease) => {
                self.next_lease = Some(lease);
                self.turn()
            },
            Event::Closed => {
                self.phase = Phase::Finished;
                Action::Finish
            },
            Event::Clock(due) => if (due || self.is_done()) && self.win_best >= 0 {
                let mut great: Vec<GreatArray> = Vec::new();
                std::mem::swap(&mut self.great, &mut great);
                let tick = Tick {
                    seed_str: self.lease.seed_str.clone(),
                    total_done: self.total_done,
                    shuffles: self.tick_done,
                    best_correct: self.win_best as u32,
                    best_arr: self.win_arr,
                    best_index: self.win_index,
                    great,
                };
                self.win_best = -1;
                self.win_arr = [0u8; 25];
                self.win_index = 0;
                self.tick_done = 0;
                self.phase = Phase::Reporting;
                proof {
                    assert(self.win_arr@ =~= blank());
                    assert(self@.great =~= Seq::empty());
                }
                Action::Report(tick)
            } else {
                self.resume()
            },
            Event::Reported => self.resume(),
        }
    }

    /// Leaves the lease and gives out the newer one, if there is one.
    pub fn finish(self) -> (r: Option<Lease>)
        ensures
            lease_model(r) == self@.next_lease,
            match r {
                Some(newer) => self@.next_lease == Some(
                    (LeaseModel { seed_str: newer.seed_str@, seed: newer.seed, count: newer.count }),
                ),
                None => self@.next_lease is None,
            },
    {
        self.next_lease
    }

    fn has_chunk(&self) -> (r: bool)
        ensures
            r == can_dispatch(self@),
    {
        self.next_lease.is_none() && self.next_dispatch < self.lease.count
    }

    fn is_done(&self) -> (r: bool)
        ensures
            r == lease_done(self@),
    {
        self.in_flight == 0 && (self.next_lease.is_some() || self.total_done >= self.lease.count)
    }

    fn will_report(&self, event: &Event) -> (r: bool)
        requires
            well_formed(self@),
            expects(self@, event@),
        ensures
            r <==> next(self@, event@).1 is Report,
            next(self@, event@).1 matches ActionModel::Report(tick) ==> tick.shuffles
                == self@.tick_done,
    {
        match event {
            Event::Clock(due) => (*due || self.is_done()) && self.win_best >= 0,
            _ => false,
        }
    }

    fn dispatch(&mut self, phase: Phase) -> (r: Action)
        requires
            can_dispatch(old(self)@),
            old(self)@.in_flight == 0,
        ensures
            (final(self)@, r@) == dispatched(old(self)@, phase),
    {
        let lo = self.next_dispatch;
        let hi = if self.lease.count - lo >= CHUNK_SIZE {
            lo + CHUNK_SIZE
        } else {
            self.lease.count
        };
        let chunk = Chunk { seed: self.lease.seed, lo, hi };
        self.next_dispatch = hi;
        self.in_flight = self.in_flight + 1;
        self.phase = phase;
        Action::Send(chunk)
    }

    fn turn(&mut self) -> (r: Action)
        requires
            old(self)@.in_flight <= 1,
        ensures
            (final(self)@, r@) == turned(old(self)@),
    {
        if self.has_chunk() && self.in_flight == 0 {
            self.dispatch(Phase::Sending)
        } else if self.in_flight == 0 {
            self.phase = Phase::Finished;
            Action::Finish
        } else {
            self.phase = Phase::Waiting;
            Action::Wait {
                accepts_lease: self.next_lease.is_none(),
                has_report: self.win_best >= 0,
            }
        }
    }

    fn resume(&mut self) -> (r: Action)
        requires
            old(self)@.in_flight <= 1,
        ensures
            (final(self)@, r@) == resumed(old(self)@),
    {
        if self.is_done() {
            self.phase = Phase::Finished;
            Action::Finish
        } else {
            self.turn()
        }
    }

    fn absorb(&mut self, result: &RangeResult)
        requires
            old(self)@.in_flight == 1,
            old(self)@.tick_done <= old(self)@.total_done,
            result.lo <= result.hi,
            old(self)@.total_done + (result.hi - result.lo) <= u64::MAX,
        ensures
            final(self)@ == absorbed(old(self)@, result@),
    {
        self.in_flight = self.in_flight - 1;
        let count = result.hi - result.lo;
        self.total_done = self.total_done + count;
        self.tick_done = self.tick_done + count;
        let score =
            #[verifier::truncate]
            (result.best_correct as i32);
        if score > self.win_best {
            self.win_best = score;
            self.win_arr = result.best_arr;
            self.win_index = result.best_index;
        }
        if result.best_correct >= MIN_SAVED_CORRECT {
            let ghost before = self.great@;
            let great = GreatArray {
                correct: result.best_correct,
                arr: result.best_arr,
                index: result.best_index,
            };
            self.great.push(great);
            proof {
                assert(great@ =~= great_of(result@));
                assert(great_models(self.great@) =~= great_models(before).push(great_of(result@)));
            }
        }
    }
}

/// What to do next about the leases.
#[derive(Debug)]
pub enum Order {
    /// Wait for a lease or for the end of the session.
    AwaitLease,
    /// Begin with a lease; the reporting interval starts anew.
    Start,
    /// Hand a chunk to the backend.
    Send(Chunk),
    /// Wait for a result or for the end, for a newer lease if one can be taken,
    /// and for the reporting interval to pass if there is something to report.
    Wait { accepts_lease: bool, has_report: bool },
    /// Find out whether the reporting interval has passed.
    CheckClock,
    /// Report a tick, which is counted in, to the server; write what is to be
    /// written.
    Report(Tick, Persist),
    /// End.
    Stop,
}

/// The contents of an `Order`.
pub enum OrderModel {
    AwaitLease,
    Start,
    Send(Chunk),
    Wait { accepts_lease: bool, has_report: bool },
    CheckClock,
    Report(TickModel, PersistModel),
    Stop,
}

impl View for Order {
    type V = OrderModel;

    open spec fn view(&self) -> OrderModel {
        match *self {
            Order::AwaitLease => OrderModel::AwaitLease,
            Order::Start => OrderModel::Start,
            Order::Send(chunk) => OrderModel::Send(chunk),
            Order::Wait { accepts_lease, has_report } => OrderModel::Wait {
                accepts_lease,
                has_report,
            },
            Order::CheckClock => OrderModel::CheckClock,
            Order::Report(tick, persist) => OrderModel::Report(tick@, persist@),
            Order::Stop => OrderModel::Stop,
        }
    }
}

/// Works leases off, one after the other.
#[derive(Debug)]
pub struct Scheduler {
    run: Option<LeaseRun>,
}

impl View for Scheduler {
    type V = Option<RunModel>;

    closed spec fn view(&self) -> Option<RunModel> {
        match self.run {
            Some(run) => Some(run@),
            None => None,
        }
    }
}

/// Whether the schedule of the lease that is worked on, if there is one, is
/// well-formed.
pub open spec fn at_work(s: Option<RunModel>) -> bool {
    s matches Some(m) ==> well_formed(m)
}

/// Takes a lease up, and shows it.
pub open spec fn taken_up(stats: StatsModel, lease: LeaseModel) -> (
    Option<RunModel>,
    StatsModel,
    OrderModel,
) {
    (
        Some(fresh(lease)),
        StatsModel { seed_str: lease.seed_str, ..stats },
        OrderModel::Start,
    )
}

/// Whether an event can be taken: between leases the beginning, a lease and
/// the end, and otherwise what the schedule of the lease takes. A tick that is
/// reported has to fit into the total.
pub open spec fn can_take(s: Option<RunModel>, stats: StatsModel, e: EventModel) -> bool {
    match s {
        None => e is Begin || e is Lease || e is Closed,
        Some(m) => {
            &&& expects(m, e)
            &&& next(m, e).1 matches ActionModel::Report(tick) ==> stats.total_shuffles
                + tick.shuffles <= u64::MAX
        },
    }
}

/// What follows an event: the schedule, the display, and what to do. A lease
/// that came during another one is taken up as soon as that is left.
pub open spec fn worked(
    s: Option<RunModel>,
    stats: StatsModel,
    e: EventModel,
    stamp: Stamp,
) -> (Option<RunModel>, StatsModel, OrderModel) {
    match s {
        None => match e {
            EventModel::Lease(lease) => taken_up(stats, lease),
            EventModel::Closed => (None, stats, OrderModel::Stop),
            _ => (None, stats, OrderModel::AwaitLease),
        },
        Some(m) => {
            let (after, action) = next(m, e);
            match action {
                ActionModel::Send(chunk) => (Some(after), stats, OrderModel::Send(chunk)),
                ActionModel::Wait { accepts_lease, has_report } => (
                    Some(after),
                    stats,
                    OrderModel::Wait { accepts_lease, has_report },
                ),
                ActionModel::CheckClock => (Some(after), stats, OrderModel::CheckClock),
                ActionModel::Report(tick) => (
                    Some(after),
                    ticked(stats, tick, stamp),
                    OrderModel::Report(tick, to_write(stats, tick, stamp)),
                ),
                ActionModel::Finish => match after.next_lease {
                    Some(lease) => taken_up(stats, lease),
                    None => (None, stats, OrderModel::AwaitLease),
                },
            }
        },
    }
}

impl Scheduler {
    /// A scheduler without a lease, before `Event::Begin`.
    pub fn new() -> (r: Self)
        ensures
            r@ is None,
            at_work(r@),
    {
        Scheduler { run: None }
    }

    /// The lease that is worked on.
    pub fn lease(&self) -> (r: Option<&Lease>)
        ensures
            match self@ {
                Some(m) => r matches Some(lease) && lease@ == m.lease,
                None => r is None,
            },
    {
        match &self.run {
            Some(run) => Some(run.lease()),
            None => None,
        }
    }

    /// Whether an event can be taken.
    pub fn accepts(&self, stats: &GuiStatsInner, event: &Event) -> (r: bool)
        requires
            at_work(self@),
        ensures
            r == can_take(self@, stats@, event@),
    {
        match &self.run {
            Some(run) => run.accepts(event) && (!run.will_report(event) || run.tick_done
                <= u64::MAX - stats.total_shuffles),
            None => match event {
                Event::Begin | Event::Lease(_) | Event::Closed => true,
                _ => false,
            },
        }
    }

    /// Takes an event and says what to do next, with the given time as the time
    /// of what is found.
    pub fn process_lease_at(
        &mut self,
        stats: &mut GuiStatsInner,
        event: Event,
        stamp: Stamp,
    ) -> (r: Order)
        requires
            at_work(old(self)@),
            can_take(old(self)@, old(stats)@, event@),
        ensures
            (final(self)@, final(stats)@, r@) == worked(
                old(self)@,
                old(stats)@,
                event@,
                stamp,
            ),
            at_work(final(self)@),
            r matches Order::Send(chunk) ==> r@ == OrderModel::Send(chunk),
            r matches Order::Wait { accepts_lease, has_report } ==> r@ == (OrderModel::Wait {
                accepts_lease,
                has_report,
            }),
            r matches Order::Report(tick, persist) ==> {
                &&& persist.best is Some <==> tick.best_correct > old(stats).all_time_best
                &&& persist.best matches Some(record) ==> {
                    &&& record.correct == tick.best_correct
                    &&& record.arr == tick.best_arr
                    &&& record.seed@ == tick.seed_str@
                    &&& record.index == tick.best_index
                    &&& record.timestamp == stamp.unix
                }
                &&& final(stats).total_shuffles == old(stats).total_shuffles + tick.shuffles
            },
    {
        match self.run.take() {
            None => match event {
                Event::Lease(lease) => self.take_up(stats, lease),
                Event::Closed => Order::Stop,
                _ => Order::AwaitLease,
            },
            Some(mut run) => {
                let action = run.step(event);
                match action {
                    Action::Send(chunk) => {
                        self.run = Some(run);
                        Order::Send(chunk)
                    },
                    Action::Wait { accepts_lease, has_report } => {
                        self.run = Some(run);
                        Order::Wait { accepts_lease, has_report }
                    },
                    Action::CheckClock => {
                        self.run = Some(run);
                        Order::CheckClock
                    },
                    Action::Report(tick) => {
                        self.run = Some(run);
                        let persist = stats.record_tick_at(&tick, stamp);
                        Order::Report(tick, persist)
                    },
                    Action::Finish => match run.finish() {
                        Some(lease) => self.take_up(stats, lease),
                        None => Order::AwaitLease,
                    },
                }
            },
        }
    }

    /// Takes an event and says what to do next, with the current time as the
    /// time of what is found.
    pub fn process_lease(&mut self, stats: &mut GuiStatsInner, event: Event) -> (r: Order)
        requires
            at_work(old(self)@),
            can_take(old(self)@, old(stats)@, event@),
        ensures
            exists|stamp: Stamp|
                (final(self)@, final(stats)@, r@) == #[trigger] worked(
                    old(self)@,
                    old(stats)@,
                    event@,
                    stamp,
                ),
            at_work(final(self)@),
    {
        let stamp = Stamp { nanos: now_nanos(), unix: now_unix() };
        self.process_lease_at(stats, event, stamp)
    }

    fn take_up(&mut self, stats: &mut GuiStatsInner, lease: Lease) -> (r: Order)
        ensures
            (final(self)@, final(stats)@, r@) == taken_up(old(stats)@, lease@),
    {
        stats.lease_started(&lease.seed_str);
        self.run = Some(LeaseRun::new(lease));
        Order::Start
    }
}

} // verus!
