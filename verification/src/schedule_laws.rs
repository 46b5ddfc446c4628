//! What holds of a lease from its first event to its last.

use crate::compute::{is_best, law_best_of_parts, lemma_score_bound, shuffle_at};
use crate::history::{GreatModel, SavedModel, MAX_SAVED, MIN_SAVED_CORRECT};
use crate::scheduler::{
    absorbed, answers, blank, can_dispatch, chunk_end, expects, fresh, great_of, is_truthful,
    next, next_chunk, taken_up, tick_of, well_formed, worked, ActionModel, Chunk, EventModel,
    LeaseModel, Phase, RangeModel, RunModel, CHUNK_SIZE,
};
use crate::worker::{
    greats_are_great, law_great_results_become_entries, ticked, Stamp, StatsModel,
    TickModel,
};
use vstd::prelude::*;

verus! {

/// The schedule after a sequence of events.
pub open spec fn state_after(lease: LeaseModel, events: Seq<EventModel>) -> RunModel
    decreases events.len(),
{
    if events.len() == 0 {
        fresh(lease)
    } else {
        next(state_after(lease, events.drop_last()), events.last()).0
    }
}

/// What the schedule asks for after a sequence of events, which is not empty.
pub open spec fn asked(lease: LeaseModel, events: Seq<EventModel>) -> ActionModel {
    next(state_after(lease, events.drop_last()), events.last()).1
}

/// The chunks that were handed out, in order.
pub open spec fn sent(lease: LeaseModel, events: Seq<EventModel>) -> Seq<Chunk>
    decreases events.len(),
{
    if events.len() == 0 {
        Seq::empty()
    } else {
        let before = sent(lease, events.drop_last());
        match next(state_after(lease, events.drop_last()), events.last()).1 {
            ActionModel::Send(c) => before.push(c),
            _ => before,
        }
    }
}

/// The reports that were made, in order.
pub open spec fn reports(lease: LeaseModel, events: Seq<EventModel>) -> Seq<TickModel>
    decreases events.len(),
{
    if events.len() == 0 {
        Seq::empty()
    } else {
        let before = reports(lease, events.drop_last());
        match next(state_after(lease, events.drop_last()), events.last()).1 {
            ActionModel::Report(t) => before.push(t),
            _ => before,
        }
    }
}

/// How many shuffles a sequence of reports counts.
pub open spec fn counted(ticks: Seq<TickModel>) -> int
    decreases ticks.len(),
{
    if ticks.len() == 0 {
        0
    } else {
        counted(ticks.drop_last()) + ticks.last().shuffles
    }
}

/// The results in the events that reach the cutoff of the history, in order.
pub open spec fn greats(events: Seq<EventModel>) -> Seq<GreatModel>
    decreases events.len(),
{
    if events.len() == 0 {
        Seq::empty()
    } else {
        let before = greats(events.drop_last());
        match events.last() {
            EventModel::Done(r) => if r.best_correct >= MIN_SAVED_CORRECT {
                before.push(great_of(r))
            } else {
                before
            },
            _ => before,
        }
    }
}

/// The results that a sequence of reports gives to the history, in order.
pub open spec fn given(ticks: Seq<TickModel>) -> Seq<GreatModel>
    decreases ticks.len(),
{
    if ticks.len() == 0 {
        Seq::empty()
    } else {
        given(ticks.drop_last()) + ticks.last().great
    }
}

/// Whether the events could happen one after the other, with a backend that
/// answers the chunk it was last given.
pub open spec fn is_history(lease: LeaseModel, events: Seq<EventModel>) -> bool
    decreases events.len(),
{
    events.len() == 0 || {
        let before = events.drop_last();
        &&& is_history(lease, before)
        &&& expects(state_after(lease, before), events.last())
        &&& events.last() matches EventModel::Done(r) ==> answers(r, sent(lease, before).last())
    }
}

/// Whether an event is one that an action waits for.
pub open spec fn is_awaited(action: ActionModel, e: EventModel) -> bool {
    match action {
        ActionModel::Send(_) => e is Sent,
        ActionModel::Wait { accepts_lease, has_report } => match e {
            EventModel::Done(_) | EventModel::Closed => true,
            EventModel::Lease(_) => accepts_lease,
            EventModel::Clock(due) => has_report && due,
            _ => false,
        },
        ActionModel::CheckClock => e is Clock,
        ActionModel::Report(_) => e is Reported,
        ActionModel::Finish => false,
    }
}

/// Whether each event after the first is one that the schedule waited for.
pub open spec fn is_carried_out(lease: LeaseModel, events: Seq<EventModel>) -> bool
    decreases events.len(),
{
    events.len() <= 1 || {
        let before = events.drop_last();
        &&& is_carried_out(lease, before)
        &&& is_awaited(asked(lease, before), events.last())
    }
}

/// Whether every result in the events names the best shuffle of its range.
pub open spec fn all_truthful(lease: LeaseModel, events: Seq<EventModel>) -> bool {
    forall|i: int|
        0 <= i < events.len() ==> (#[trigger] events[i] matches EventModel::Done(r) ==> is_truthful(
            r,
            lease.seed,
        ))
}

/// Whether every score in the events is small enough to be compared as a
/// signed number.
pub open spec fn scores_fit(events: Seq<EventModel>) -> bool {
    forall|i: int|
        0 <= i < events.len() ==> (#[trigger] events[i] matches EventModel::Done(r)
            ==> r.best_correct <= i32::MAX)
}

/// How many chunks a lease is cut into.
pub open spec fn chunk_count(lease: LeaseModel) -> int {
    (lease.count + CHUNK_SIZE - 1) / CHUNK_SIZE as int
}

/// The `k`-th chunk of a lease.
pub open spec fn chunk_at(lease: LeaseModel, k: int) -> Chunk {
    Chunk {
        seed: lease.seed,
        lo: (k * CHUNK_SIZE) as u64,
        hi: chunk_end(k * CHUNK_SIZE, lease.count) as u64,
    }
}

/// How a state and the chunks and reports before it hang together.
spec fn is_sound(
    lease: LeaseModel,
    m: RunModel,
    chunks: Seq<Chunk>,
    ticks: Seq<TickModel>,
) -> bool {
    let n = chunks.len();
    &&& well_formed(m)
    &&& m.lease == lease
    &&& m.next_dispatch == (if n * CHUNK_SIZE <= lease.count {
        n * CHUNK_SIZE
    } else {
        lease.count as int
    })
    &&& n > 0 ==> (n - 1) * CHUNK_SIZE < lease.count
    &&& forall|k: int| 0 <= k < n ==> #[trigger] chunks[k] == chunk_at(lease, k)
    &&& m.in_flight == 1 ==> n > 0 && m.total_done == chunks.last().lo && m.next_dispatch
        == chunks.last().hi
    &&& m.in_flight == 0 ==> m.total_done == m.next_dispatch
    &&& counted(ticks) + m.tick_done == m.total_done
    &&& (m.phase == Phase::Reporting ==> m.tick_done == 0)
    &&& (m.phase == Phase::Sending ==> m.next_lease is None)
}

/// What a truthful backend adds to that: the winner is the best of the
/// shuffles done since the last report.
spec fn is_winning(lease: LeaseModel, m: RunModel) -> bool {
    if m.tick_done == 0 {
        m.win_best == -1
    } else {
        &&& m.win_best >= 0
        &&& is_best(
            lease.seed,
            (m.total_done - m.tick_done) as u64,
            m.tick_done as int,
            m.win_best as u32,
            m.win_index,
        )
        &&& m.win_arr == shuffle_at(lease.seed, m.win_index)
    }
}

proof fn lemma_pushed_chunk(lease: LeaseModel, m: RunModel, chunks: Seq<Chunk>)
    requires
        chunks.len() * CHUNK_SIZE <= lease.count ==> m.next_dispatch == chunks.len() * CHUNK_SIZE,
        chunks.len() * CHUNK_SIZE > lease.count ==> m.next_dispatch == lease.count,
        m.lease == lease,
        m.next_dispatch < lease.count,
    ensures
        next_chunk(m) == chunk_at(lease, chunks.len() as int),
        next_chunk(m).lo == m.next_dispatch,
        next_chunk(m).lo < next_chunk(m).hi <= lease.count,
        chunks.len() * CHUNK_SIZE < lease.count,
        next_chunk(m).hi == (if (chunks.len() + 1) * CHUNK_SIZE <= lease.count {
            (chunks.len() + 1) * CHUNK_SIZE
        } else {
            lease.count as int
        }),
{
}

proof fn lemma_step_sound(
    lease: LeaseModel,
    m: RunModel,
    chunks: Seq<Chunk>,
    ticks: Seq<TickModel>,
    e: EventModel,
)
    requires
        is_sound(lease, m, chunks, ticks),
        expects(m, e),
        e matches EventModel::Done(r) ==> answers(r, chunks.last()),
    ensures
        ({
            let (m2, action) = next(m, e);
            let chunks2 = match action {
                ActionModel::Send(c) => chunks.push(c),
                _ => chunks,
            };
            let ticks2 = match action {
                ActionModel::Report(t) => ticks.push(t),
                _ => ticks,
            };
            is_sound(lease, m2, chunks2, ticks2)
        }),
{
    let (m2, action) = next(m, e);
    match action {
        ActionModel::Send(c) => {
            lemma_pushed_chunk(lease, m, chunks);
            assert(c == chunk_at(lease, chunks.len() as int));
        },
        ActionModel::Report(t) => {
            assert(ticks.push(t).drop_last() =~= ticks);
        },
        _ => {},
    }
}

proof fn lemma_run_sound(lease: LeaseModel, events: Seq<EventModel>)
    requires
        is_history(lease, events),
    ensures
        is_sound(lease, state_after(lease, events), sent(lease, events), reports(lease, events)),
    decreases events.len(),
{
    if events.len() > 0 {
        let before = events.drop_last();
        lemma_run_sound(lease, before);
        lemma_step_sound(
            lease,
            state_after(lease, before),
            sent(lease, before),
            reports(lease, before),
            events.last(),
        );
    }
}

proof fn lemma_step_winning(
    lease: LeaseModel,
    m: RunModel,
    chunks: Seq<Chunk>,
    ticks: Seq<TickModel>,
    e: EventModel,
)
    requires
        is_sound(lease, m, chunks, ticks),
        is_winning(lease, m),
        expects(m, e),
        e matches EventModel::Done(r) ==> answers(r, chunks.last()) && is_truthful(r, lease.seed),
    ensures
        is_winning(lease, next(m, e).0),
{
    if let EventModel::Done(r) = e {
        let n = (chunks.len() - 1) as int;
        assert(chunks[n] == chunk_at(lease, n));
        assert(r.lo < r.hi);
        lemma_score_bound(lease.seed, r.best_index);
        let a = absorbed(m, r);
        if m.tick_done > 0 {
            law_best_of_parts(
                lease.seed,
                (m.total_done - m.tick_done) as u64,
                m.tick_done as int,
                r.hi - r.lo,
                m.win_best as u32,
                m.win_index,
                r.best_correct,
                r.best_index,
            );
        }
        assert(is_winning(lease, a));
    }
}

proof fn lemma_run_winning(lease: LeaseModel, events: Seq<EventModel>)
    requires
        is_history(lease, events),
        all_truthful(lease, events),
    ensures
        is_winning(lease, state_after(lease, events)),
    decreases events.len(),
{
    if events.len() > 0 {
        let before = events.drop_last();
        assert forall|i: int| 0 <= i < before.len() implies (
        #[trigger] before[i] matches EventModel::Done(r) ==> is_truthful(r, lease.seed)) by {
            assert(before[i] == events[i]);
        }
        lemma_run_sound(lease, before);
        lemma_run_winning(lease, before);
        assert(events[events.len() - 1] == events.last());
        lemma_step_winning(
            lease,
            state_after(lease, before),
            sent(lease, before),
            reports(lease, before),
            events.last(),
        );
    }
}

/// The chunks of a lease follow each other without gap or overlap from index
/// zero on; each holds at most the chunk size, and only the last one of the
/// lease can hold less.
pub proof fn law_chunks_tile(lease: LeaseModel, events: Seq<EventModel>)
    requires
        is_history(lease, events),
    ensures
        forall|k: int|
            0 <= k < sent(lease, events).len() ==> {
                let c = #[trigger] sent(lease, events)[k];
                &&& c == chunk_at(lease, k)
                &&& c.seed == lease.seed
                &&& c.lo < c.hi <= lease.count
                &&& c.hi - c.lo <= CHUNK_SIZE
                &&& c.hi < lease.count ==> c.hi - c.lo == CHUNK_SIZE
                &&& c.hi - c.lo == 0x8000_0000 || (c.hi == lease.count && c.hi - c.lo
                    < 0x8000_0000)
                &&& k + 1 < sent(lease, events).len() ==> sent(lease, events)[k + 1].lo == c.hi
            },
        sent(lease, events).len() > 0 ==> sent(lease, events)[0].lo == 0,
{
    lemma_run_sound(lease, events);
    let chunks = sent(lease, events);
    let n = chunks.len();
    assert forall|k: int| 0 <= k < n implies {
        let c = #[trigger] chunks[k];
        &&& c == chunk_at(lease, k)
        &&& c.seed == lease.seed
        &&& c.lo < c.hi <= lease.count
        &&& c.hi - c.lo <= CHUNK_SIZE
        &&& c.hi < lease.count ==> c.hi - c.lo == CHUNK_SIZE
        &&& c.hi - c.lo == 0x8000_0000 || (c.hi == lease.count && c.hi - c.lo < 0x8000_0000)
        &&& k + 1 < n ==> chunks[k + 1].lo == c.hi
    } by {
        assert(k * CHUNK_SIZE <= (n - 1) * CHUNK_SIZE) by (nonlinear_arith)
            requires
                k <= n - 1,
        ;
        if k + 1 < n {
            assert(chunks[k + 1] == chunk_at(lease, k + 1));
            assert((k + 1) * CHUNK_SIZE <= (n - 1) * CHUNK_SIZE) by (nonlinear_arith)
                requires
                    k + 1 <= n - 1,
            ;
        }
    }
}

/// The backend never holds more than one chunk.
pub proof fn law_one_chunk_in_flight(lease: LeaseModel, events: Seq<EventModel>)
    requires
        is_history(lease, events),
    ensures
        state_after(lease, events).in_flight <= 1,
        well_formed(state_after(lease, events)),
{
    lemma_run_sound(lease, events);
}

/// Every shuffle that was done is counted by exactly one report, or will be by
/// the next.
pub proof fn law_reports_count_once(lease: LeaseModel, events: Seq<EventModel>)
    requires
        is_history(lease, events),
    ensures
        counted(reports(lease, events)) + state_after(lease, events).tick_done == state_after(
            lease,
            events,
        ).total_done,
        state_after(lease, events).total_done <= lease.count,
{
    lemma_run_sound(lease, events);
}

/// Once a newer lease has come, no further chunk of the old one is handed out.
pub proof fn law_newer_lease_stops_chunks(m: RunModel, e: EventModel)
    requires
        well_formed(m),
        m.phase != Phase::Fresh,
        m.next_lease is Some,
        expects(m, e),
    ensures
        next(m, e).1 !is Send,
        next(m, e).0.next_lease == m.next_lease,
{
}

/// A report is made only when the reporting interval has passed, or when the
/// lease is over: the backend holds none of its chunks, and either a newer lease
/// has come or all its shuffles are done. There is then something to report.
pub proof fn law_reports_come_when_due(m: RunModel, e: EventModel)
    requires
        next(m, e).1 is Report,
    ensures
        e matches EventModel::Clock(due) && (due || (m.in_flight == 0 && (m.next_lease is Some
            || m.total_done >= m.lease.count))),
        m.win_best >= 0,
        next(m, e).0.tick_done == 0,
        next(m, e).0.win_best == -1,
        next(m, e).0.great.len() == 0,
        next(m, e).0.total_done == m.total_done,
        next(m, e).0.next_dispatch == m.next_dispatch,
        next(m, e).0.in_flight == m.in_flight,
        next(m, e).0.next_lease == m.next_lease,
{
}

/// The end of the session is taken whenever the schedule waits; it leaves the
/// lease at once, and a newer lease stays.
pub proof fn law_the_end_leaves_the_lease(m: RunModel)
    requires
        m.phase == Phase::Waiting,
    ensures
        expects(m, EventModel::Closed),
        next(m, EventModel::Closed).1 is Finish,
        next(m, EventModel::Closed).0.phase == Phase::Finished,
        next(m, EventModel::Closed).0.next_lease == m.next_lease,
{
}

/// A schedule that waits takes every answer whose shuffles can be counted, the
/// clock, and a newer lease if and only if none has come yet; one that is
/// finished takes nothing.
pub proof fn law_waiting_takes_what_comes(
    m: RunModel,
    r: RangeModel,
    newer: LeaseModel,
    due: bool,
    e: EventModel,
)
    ensures
        m.phase == Phase::Waiting ==> {
            &&& expects(m, EventModel::Done(r)) <==> r.lo <= r.hi && m.total_done + (r.hi - r.lo)
                <= u64::MAX
            &&& expects(m, EventModel::Clock(due))
            &&& expects(m, EventModel::Lease(newer)) <==> m.next_lease is None
        },
        m.phase == Phase::Fresh ==> expects(m, EventModel::Begin),
        m.phase == Phase::Sending || m.phase == Phase::Handing ==> expects(m, EventModel::Sent),
        m.phase == Phase::Clock ==> expects(m, EventModel::Clock(due)),
        m.phase == Phase::Reporting ==> expects(m, EventModel::Reported),
        m.phase == Phase::Finished ==> !expects(m, e),
{
}

/// A newer lease waits until the schedule of the old one is finished and is
/// taken up right then: no chunk of the old one is handed out, and no other
/// lease comes between.
pub proof fn law_newer_lease_is_taken_up(
    m: RunModel,
    newer: LeaseModel,
    stats: StatsModel,
    e: EventModel,
    stamp: Stamp,
)
    requires
        well_formed(m),
        m.phase != Phase::Fresh,
        m.next_lease == Some(newer),
        expects(m, e),
    ensures
        next(m, e).1 is Finish ==> worked(Some(m), stats, e, stamp) == taken_up(stats, newer),
        next(m, e).1 !is Finish ==> {
            let (after, _, order) = worked(Some(m), stats, e, stamp);
            &&& after matches Some(m2) && m2.lease == m.lease && m2.next_lease == Some(newer)
            &&& order is Wait || order is CheckClock || order is Report
        },
{
}

/// Every report names the best shuffle among those that it counts, which are
/// the last that were done, given a backend that does so for its chunks.
pub proof fn law_reports_are_best(
    lease: LeaseModel,
    events: Seq<EventModel>,
    e: EventModel,
    tick: TickModel,
)
    requires
        is_history(lease, events.push(e)),
        all_truthful(lease, events.push(e)),
        next(state_after(lease, events), e).1 == ActionModel::Report(tick),
    ensures
        tick.seed_str == lease.seed_str,
        0 < tick.shuffles <= tick.total_done,
        counted(reports(lease, events.push(e))) == tick.total_done,
        is_best(
            lease.seed,
            (tick.total_done - tick.shuffles) as u64,
            tick.shuffles as int,
            tick.best_correct,
            tick.best_index,
        ),
        tick.best_arr == shuffle_at(lease.seed, tick.best_index),
{
    let all = events.push(e);
    assert(all.drop_last() =~= events);
    assert forall|i: int| 0 <= i < events.len() implies (
    #[trigger] events[i] matches EventModel::Done(r) ==> is_truthful(r, lease.seed)) by {
        assert(all[i] == events[i]);
    }
    lemma_run_sound(lease, events);
    lemma_run_winning(lease, events);
    lemma_run_sound(lease, all);
}

/// A schedule that waits has handed a chunk out.
pub(crate) proof fn lemma_waits_for_a_chunk(lease: LeaseModel, events: Seq<EventModel>)
    requires
        is_history(lease, events),
    ensures
        state_after(lease, events).phase == Phase::Waiting ==> sent(lease, events).len() > 0,
{
    lemma_run_sound(lease, events);
}

proof fn lemma_run_has_winner(lease: LeaseModel, events: Seq<EventModel>)
    requires
        is_history(lease, events),
        scores_fit(events),
    ensures
        state_after(lease, events).tick_done > 0 ==> state_after(lease, events).win_best >= 0,
    decreases events.len(),
{
    if events.len() > 0 {
        let before = events.drop_last();
        assert forall|i: int| 0 <= i < before.len() implies (
        #[trigger] before[i] matches EventModel::Done(r) ==> r.best_correct <= i32::MAX) by {
            assert(before[i] == events[i]);
        }
        lemma_run_sound(lease, before);
        lemma_run_has_winner(lease, before);
        assert(events[events.len() - 1] == events.last());
    }
}

/// What was found is reported as soon as the reporting interval has passed,
/// even while the backend is at work on the next chunk. The schedule then says
/// that it has something to report, and after the report it waits for the same
/// chunk as before.
pub proof fn law_results_are_reported_when_due(lease: LeaseModel, events: Seq<EventModel>)
    requires
        is_history(lease, events),
        scores_fit(events),
        state_after(lease, events).phase == Phase::Waiting,
        state_after(lease, events).tick_done > 0,
    ensures
        asked(lease, events) matches ActionModel::Wait { has_report, .. } && has_report,
        ({
            let m = state_after(lease, events);
            let due = events.push(EventModel::Clock(true));
            let reported = due.push(EventModel::Reported);
            &&& is_history(lease, reported)
            &&& asked(lease, due) == ActionModel::Report(tick_of(m))
            &&& tick_of(m).shuffles == m.tick_done
            &&& reports(lease, reported) == reports(lease, events).push(tick_of(m))
            &&& asked(lease, reported) is Wait
            &&& state_after(lease, reported) == RunModel {
                tick_done: 0,
                win_best: (-1) as i32,
                win_arr: blank(),
                win_index: 0,
                great: Seq::empty(),
                ..m
            }
        }),
{
    let m = state_after(lease, events);
    let due = events.push(EventModel::Clock(true));
    let reported = due.push(EventModel::Reported);
    assert(due.drop_last() =~= events);
    assert(reported.drop_last() =~= due);
    lemma_run_sound(lease, events);
    lemma_run_has_winner(lease, events);
    lemma_asked(lease, events);
    assert(state_after(lease, due) == next(m, EventModel::Clock(true)).0);
    assert(is_history(lease, due));
    assert(reports(lease, due) == reports(lease, events).push(tick_of(m)));
    assert(state_after(lease, reported) =~= RunModel {
        tick_done: 0,
        win_best: (-1) as i32,
        win_arr: blank(),
        win_index: 0,
        great: Seq::empty(),
        ..m
    });
}

/// What a schedule asks for can be seen from where it stands.
proof fn lemma_asked(lease: LeaseModel, events: Seq<EventModel>)
    requires
        events.len() > 0,
        is_history(lease, events),
    ensures
        ({
            let m = state_after(lease, events);
            match m.phase {
                Phase::Fresh => false,
                Phase::Sending | Phase::Handing => asked(lease, events) is Send,
                Phase::Waiting => asked(lease, events) == ActionModel::Wait {
                    accepts_lease: m.next_lease is None,
                    has_report: m.win_best >= 0,
                },
                Phase::Clock => asked(lease, events) is CheckClock,
                Phase::Reporting => asked(lease, events) is Report,
                Phase::Finished => asked(lease, events) is Finish,
            }
        }),
{
    lemma_run_sound(lease, events.drop_last());
}

/// How many events a schedule takes at most until it is finished.
spec fn events_left(m: RunModel, chunks: nat) -> int {
    let waiting = 3 + if m.next_lease is None {
        5 * (chunk_count(m.lease) - chunks) + 1
    } else {
        0
    };
    match m.phase {
        Phase::Fresh => 5 * chunk_count(m.lease) + 1,
        Phase::Sending => waiting + 1,
        Phase::Waiting => waiting + if m.win_best >= 0 {
            2int
        } else {
            0
        },
        Phase::Handing => waiting + 4,
        Phase::Clock => if m.in_flight == 1 {
            waiting + 3
        } else {
            2
        },
        Phase::Reporting => if m.in_flight == 1 {
            waiting + 1
        } else {
            1
        },
        Phase::Finished => 0,
    }
}

/// Nothing waits to be reported while the first chunk is sent or a report is
/// made, and once the last chunk in flight is answered there is none to hand
/// out.
spec fn is_settled(m: RunModel) -> bool {
    &&& m.phase == Phase::Sending || m.phase == Phase::Reporting || m.phase == Phase::Fresh
        ==> m.win_best == -1
    &&& (m.phase == Phase::Clock || m.phase == Phase::Reporting) && m.in_flight == 0
        ==> !can_dispatch(m)
}

proof fn lemma_events_left(lease: LeaseModel, events: Seq<EventModel>)
    requires
        is_history(lease, events),
        is_carried_out(lease, events),
    ensures
        is_settled(state_after(lease, events)),
        events.len() + events_left(state_after(lease, events), sent(lease, events).len()) <= 5
            * chunk_count(lease) + 1,
        sent(lease, events).len() <= chunk_count(lease),
    decreases events.len(),
{
    lemma_run_sound(lease, events);
    if events.len() > 0 {
        let before = events.drop_last();
        lemma_run_sound(lease, before);
        lemma_events_left(lease, before);
        if before.len() > 0 {
            lemma_asked(lease, before);
        }
        assert(is_settled(state_after(lease, events)));
    }
}

/// A lease ends: a schedule whose requests are answered, whatever the results,
/// the clock and newer leases are, takes at most five events for each of its
/// chunks and one more. Until it is finished there is an answer that it takes.
pub proof fn law_lease_ends(lease: LeaseModel, events: Seq<EventModel>)
    requires
        is_history(lease, events),
        is_carried_out(lease, events),
    ensures
        events.len() <= 5 * chunk_count(lease) + 1,
        events.len() == 5 * chunk_count(lease) + 1 ==> state_after(lease, events).phase
            == Phase::Finished,
        state_after(lease, events).phase != Phase::Finished ==> exists|e: EventModel|
            is_history(lease, #[trigger] events.push(e)) && is_carried_out(lease, events.push(e)),
{
    lemma_run_sound(lease, events);
    lemma_events_left(lease, events);
    let m = state_after(lease, events);
    if m.phase != Phase::Finished {
        let chunk = sent(lease, events).last();
        let e = match m.phase {
            Phase::Fresh => EventModel::Begin,
            Phase::Sending | Phase::Handing => EventModel::Sent,
            Phase::Waiting => EventModel::Done(
                RangeModel {
                    lo: chunk.lo,
                    hi: chunk.hi,
                    best_correct: 0,
                    best_arr: blank(),
                    best_index: 0,
                },
            ),
            Phase::Clock => EventModel::Clock(true),
            _ => EventModel::Reported,
        };
        assert(events.push(e).drop_last() =~= events);
        if events.len() > 0 {
            lemma_asked(lease, events);
        }
        if m.phase == Phase::Waiting {
            law_chunks_tile(lease, events);
        }
        assert(is_history(lease, events.push(e)));
        assert(is_carried_out(lease, events.push(e)));
    }
}

/// A lease that is left for any reason but the end of the session has all its
/// finished work reported; without a newer lease that is all of its shuffles.
pub proof fn law_lease_is_finished(lease: LeaseModel, events: Seq<EventModel>)
    requires
        is_history(lease, events),
        scores_fit(events),
        state_after(lease, events).phase == Phase::Finished,
        events.last() !is Closed,
    ensures
        counted(reports(lease, events)) == state_after(lease, events).total_done,
        given(reports(lease, events)) == greats(events),
        state_after(lease, events).next_lease is None ==> counted(reports(lease, events))
            == lease.count,
        state_after(lease, events).next_lease is None && lease.count > 0 ==> {
            &&& sent(lease, events).len() > 0
            &&& sent(lease, events).last().hi == lease.count
        },
{
    let before = events.drop_last();
    assert forall|i: int| 0 <= i < before.len() implies (
    #[trigger] before[i] matches EventModel::Done(r) ==> r.best_correct <= i32::MAX) by {
        assert(before[i] == events[i]);
    }
    lemma_run_sound(lease, before);
    lemma_run_has_winner(lease, before);
    lemma_run_sound(lease, events);
    lemma_run_has_winner(lease, events);
    lemma_greats(lease, events);
    assert(given(reports(lease, events)) + state_after(lease, events).great =~= given(
        reports(lease, events),
    ));
}

/// What holds of the results that are kept for the next report.
proof fn lemma_greats(lease: LeaseModel, events: Seq<EventModel>)
    requires
        is_history(lease, events),
    ensures
        given(reports(lease, events)) + state_after(lease, events).great == greats(events),
        state_after(lease, events).tick_done == 0 ==> state_after(lease, events).great.len() == 0,
        keeps_great(state_after(lease, events)),
    decreases events.len(),
{
    if events.len() == 0 {
        assert(given(reports(lease, events)) + state_after(lease, events).great =~= greats(events));
    } else {
        let before = events.drop_last();
        let e = events.last();
        lemma_greats(lease, before);
        lemma_run_sound(lease, before);
        let m = state_after(lease, before);
        let ticks = reports(lease, before);
        match next(m, e).1 {
            ActionModel::Report(t) => {
                assert(ticks.push(t).drop_last() =~= ticks);
                assert(given(ticks.push(t)) + Seq::<GreatModel>::empty() =~= given(ticks) + m.great);
            },
            _ => {},
        }
        if let EventModel::Done(r) = e {
            let n = (sent(lease, before).len() - 1) as int;
            assert(sent(lease, before)[n] == chunk_at(lease, n));
            assert(r.lo < r.hi);
            lemma_keeps_great(m, r);
            assert(given(ticks) + m.great.push(great_of(r)) =~= (given(ticks) + m.great).push(
                great_of(r),
            ));
        }
    }
}

/// Whether what is kept for the history reaches the cutoff, and the winner is
/// among it if it does.
spec fn keeps_great(m: RunModel) -> bool {
    &&& forall|i: int|
        0 <= i < m.great.len() ==> (#[trigger] m.great[i]).correct >= MIN_SAVED_CORRECT
    &&& m.win_best >= MIN_SAVED_CORRECT ==> m.great.contains(
        GreatModel { correct: m.win_best as u32, arr: m.win_arr, index: m.win_index },
    )
}

proof fn lemma_keeps_great(m: RunModel, r: RangeModel)
    requires
        keeps_great(m),
        m.win_best >= -1,
    ensures
        keeps_great(absorbed(m, r)),
{
    let a = absorbed(m, r);
    let score = r.best_correct;
    assert(score >= 0x8000_0000 ==> (score as i32) < 0) by (bit_vector);
    if a.win_best >= MIN_SAVED_CORRECT {
        let winner = GreatModel { correct: a.win_best as u32, arr: a.win_arr, index: a.win_index };
        if score as i32 > m.win_best {
            assert(winner == great_of(r));
            assert(a.great[a.great.len() - 1] == winner);
        } else {
            let i = choose|i: int| 0 <= i < m.great.len() && m.great[i] == winner;
            assert(a.great[i] == winner);
        }
    }
}

/// Every result that reaches the cutoff of the history is given to it by
/// exactly one report, in the order in which the results came, or will be by
/// the next.
pub proof fn law_great_results_are_given_once(lease: LeaseModel, events: Seq<EventModel>)
    requires
        is_history(lease, events),
    ensures
        given(reports(lease, events)) + state_after(lease, events).great == greats(events),
{
    lemma_greats(lease, events);
}

/// A report gives nothing to the history that does not reach the cutoff, and
/// its own best array where that does.
pub proof fn law_reports_give_great_results(
    lease: LeaseModel,
    events: Seq<EventModel>,
    e: EventModel,
    tick: TickModel,
)
    requires
        is_history(lease, events.push(e)),
        next(state_after(lease, events), e).1 == ActionModel::Report(tick),
    ensures
        greats_are_great(tick),
{
    assert(events.push(e).drop_last() =~= events);
    lemma_greats(lease, events);
}

/// A result that reaches the cutoff and came since the last report becomes an
/// entry of the history with the next one, whether it is the best of them or
/// not. Beyond the maximum of the history its last results are kept.
pub proof fn law_great_results_are_saved(
    lease: LeaseModel,
    events: Seq<EventModel>,
    j: int,
    r: RangeModel,
    e: EventModel,
    tick: TickModel,
    stats: StatsModel,
    stamp: Stamp,
)
    requires
        is_history(lease, events.push(e)),
        next(state_after(lease, events), e).1 == ActionModel::Report(tick),
        0 <= j < events.len(),
        events[j] == EventModel::Done(r),
        r.best_correct >= MIN_SAVED_CORRECT,
        reports(lease, events.take(j)).len() == reports(lease, events).len(),
        tick.great.len() <= MAX_SAVED,
    ensures
        is_saved(ticked(stats, tick, stamp), r, tick, stamp),
{
    assert(events.push(e).drop_last() =~= events);
    lemma_window(lease, events, j, r);
    let i = choose|i: int| 0 <= i < tick.great.len() && tick.great[i] == great_of(r);
    law_great_results_become_entries(stats, tick, stamp, i);
    let after = ticked(stats, tick, stamp);
    let at = after.saved_arrays.len() - tick.great.len() + i;
    assert(is_entry_of(after.saved_arrays, at, r, tick, after.total_shuffles, stamp));
}

/// Whether the entry at a place of a history is that of a result.
pub open spec fn is_entry_of(
    saved: Seq<SavedModel>,
    at: int,
    r: RangeModel,
    tick: TickModel,
    total: u64,
    stamp: Stamp,
) -> bool {
    &&& 0 <= at < saved.len()
    &&& saved[at].correct == r.best_correct
    &&& saved[at].arr == r.best_arr
    &&& saved[at].index == r.best_index
    &&& saved[at].seed == tick.seed_str
    &&& saved[at].rate == tick.shuffles
    &&& saved[at].total_shuffles == total
    &&& saved[at].timestamp == stamp.unix
}

/// Whether the history of a display has an entry for a result.
pub open spec fn is_saved(
    stats: StatsModel,
    r: RangeModel,
    tick: TickModel,
    stamp: Stamp,
) -> bool {
    exists|at: int|
        #[trigger] is_entry_of(stats.saved_arrays, at, r, tick, stats.total_shuffles, stamp)
}

/// What came since the last report is still kept.
proof fn lemma_window(lease: LeaseModel, events: Seq<EventModel>, j: int, r: RangeModel)
    requires
        0 <= j < events.len(),
        events[j] == EventModel::Done(r),
        r.best_correct >= MIN_SAVED_CORRECT,
        reports(lease, events.take(j)).len() == reports(lease, events).len(),
    ensures
        state_after(lease, events).great.contains(great_of(r)),
    decreases events.len(),
{
    let before = events.drop_last();
    let m = state_after(lease, before);
    if j == events.len() - 1 {
        assert(events.take(j) =~= before);
        let kept = state_after(lease, events).great;
        assert(kept[kept.len() - 1] == great_of(r));
    } else {
        assert(before.take(j) =~= events.take(j));
        lemma_reports_grow(lease, before, j);
        lemma_window(lease, before, j, r);
        let i = choose|i: int| 0 <= i < m.great.len() && m.great[i] == great_of(r);
        assert(state_after(lease, events).great[i] == great_of(r));
    }
}

proof fn lemma_reports_grow(lease: LeaseModel, events: Seq<EventModel>, j: int)
    requires
        0 <= j <= events.len(),
    ensures
        reports(lease, events.take(j)).len() <= reports(lease, events).len(),
    decreases events.len(),
{
    if j == events.len() {
        assert(events.take(j) =~= events);
    } else {
        assert(events.drop_last().take(j) =~= events.take(j));
        lemma_reports_grow(lease, events.drop_last(), j);
    }
}

} // verus!
