//! What becomes of jobs, results and records, from the server to the disk.

use crate::compute::{law_score_counts_the_shuffle, score_at};
use crate::history::GreatModel;
use crate::rng::{seeded, shuffled};
use crate::schedule_laws::{
    all_truthful, given, greats, is_history, law_great_results_are_given_once,
    law_reports_are_best, reports, state_after,
};
use crate::scheduler::{
    next, worked, ActionModel, EventModel, LeaseModel, OrderModel, Phase, RangeModel, RunModel,
};
use crate::worker::{law_record_is_of_the_tick, to_write, Stamp, StatsModel, TickModel};
use vstd::prelude::*;

verus! {

/// A job that comes while another is worked on waits as it is: once it has
/// come, the newer lease is that job, whatever happens after.
pub proof fn law_newer_lease_is_kept(
    lease: LeaseModel,
    events: Seq<EventModel>,
    j: int,
    newer: LeaseModel,
)
    requires
        is_history(lease, events),
        0 <= j < events.len(),
        events[j] == EventModel::Lease(newer),
    ensures
        state_after(lease, events).next_lease == Some(newer),
        state_after(lease, events).lease == lease,
    decreases events.len(),
{
    let before = events.drop_last();
    lemma_lease_is_kept(lease, before);
    if j < events.len() - 1 {
        assert(before[j] == events[j]);
        law_newer_lease_is_kept(lease, before, j, newer);
    }
}

proof fn lemma_lease_is_kept(lease: LeaseModel, events: Seq<EventModel>)
    ensures
        state_after(lease, events).lease == lease,
    decreases events.len(),
{
    if events.len() > 0 {
        lemma_lease_is_kept(lease, events.drop_last());
    }
}

/// Where no job comes while another is worked on, none waits.
pub proof fn law_no_newer_lease_without_a_job(lease: LeaseModel, events: Seq<EventModel>)
    requires
        forall|j: int| 0 <= j < events.len() ==> !((#[trigger] events[j]) is Lease),
    ensures
        state_after(lease, events).next_lease is None,
    decreases events.len(),
{
    if events.len() > 0 {
        let before = events.drop_last();
        assert forall|j: int| 0 <= j < before.len() implies !((#[trigger] before[j]) is Lease) by {
            assert(before[j] == events[j]);
        }
        law_no_newer_lease_without_a_job(lease, before);
        assert(events[events.len() - 1] == events.last());
    }
}

/// Whether a lease is about to be worked on from its first index on.
pub open spec fn is_untouched(s: Option<RunModel>, lease: LeaseModel) -> bool {
    s matches Some(m) && m.lease.seed == lease.seed && m.lease.seed_str == lease.seed_str
        && m.lease.count == lease.count && m.next_dispatch == 0 && m.in_flight == 0 && m.total_done
        == 0 && m.tick_done == 0 && m.win_best == -1 && m.great.len() == 0 && m.next_lease is None
        && m.phase == Phase::Fresh
}

/// A job that came while another was worked on is taken up in full as soon as
/// that is left, and its seed is shown.
pub proof fn law_newer_lease_is_worked_off(
    lease: LeaseModel,
    events: Seq<EventModel>,
    j: int,
    newer: LeaseModel,
    stats: StatsModel,
    stamp: Stamp,
)
    requires
        is_history(lease, events),
        0 <= j < events.len(),
        events[j] == EventModel::Lease(newer),
        state_after(lease, events).phase == Phase::Finished,
    ensures
        ({
            let before = state_after(lease, events.drop_last());
            let (s, shown, order) = worked(Some(before), stats, events.last(), stamp);
            &&& order is Start
            &&& is_untouched(s, newer)
            &&& shown == StatsModel { seed_str: newer.seed_str, ..stats }
        }),
{
    law_newer_lease_is_kept(lease, events, j, newer);
    crate::schedule_laws::law_one_chunk_in_flight(lease, events.drop_last());
}

/// A job that comes while none is worked on is taken up in full at once, and
/// its seed is shown.
pub proof fn law_lease_is_taken_up(newer: LeaseModel, stats: StatsModel, stamp: Stamp)
    ensures
        ({
            let (s, shown, order) = worked(None, stats, EventModel::Lease(newer), stamp);
            &&& order is Start
            &&& is_untouched(s, newer)
            &&& shown == StatsModel { seed_str: newer.seed_str, ..stats }
        }),
{
}

/// A lease that is left without a newer one leaves the worker waiting for the
/// next, and the end of the session between leases ends the work.
pub proof fn law_work_waits_and_ends(
    m: RunModel,
    e: EventModel,
    stats: StatsModel,
    stamp: Stamp,
)
    requires
        next(m, e).1 is Finish,
        next(m, e).0.next_lease is None,
    ensures
        worked(Some(m), stats, e, stamp) == (None::<RunModel>, stats, OrderModel::AwaitLease),
        worked(None, stats, EventModel::Begin, stamp) == (
            None::<RunModel>,
            stats,
            OrderModel::AwaitLease,
        ),
        worked(None, stats, EventModel::Closed, stamp) == (
            None::<RunModel>,
            stats,
            OrderModel::Stop,
        ),
{
}

/// While a lease is worked on, what its schedule asks for is ordered as it is:
/// the same chunk, the same wait, the same report, with the display counting the
/// report in and nothing else changing it.
pub proof fn law_orders_follow_the_schedule(
    m: RunModel,
    e: EventModel,
    stats: StatsModel,
    stamp: Stamp,
)
    ensures
        ({
            let (after, action) = next(m, e);
            let (s, shown, order) = worked(Some(m), stats, e, stamp);
            &&& action !is Finish ==> s == Some(after)
            &&& action matches ActionModel::Send(chunk) ==> order == OrderModel::Send(chunk)
                && shown == stats
            &&& action matches ActionModel::Wait { accepts_lease, has_report } ==> order == (
            OrderModel::Wait { accepts_lease, has_report }) && shown == stats
            &&& action is CheckClock ==> order is CheckClock && shown == stats
            &&& action matches ActionModel::Report(tick) ==> {
                &&& order matches OrderModel::Report(t, written) && t == tick && written
                    == to_write(stats, tick, stamp)
                &&& shown == crate::worker::ticked(stats, tick, stamp)
            }
            &&& action is Finish ==> order is Start || order is AwaitLease
        }),
{
}

/// Whether one of the results has the given score, array and index.
pub open spec fn has_result(
    results: Seq<GreatModel>,
    correct: u32,
    arr: Seq<u8>,
    index: u64,
) -> bool {
    exists|i: int|
        0 <= i < results.len() && (#[trigger] results[i]).correct == correct && results[i].arr
            == arr && results[i].index == index
}

/// A result that reaches the cutoff is given to the history, by a report that
/// was made or by the next, with its score, its array and its index.
pub proof fn law_great_results_are_given_as_found(
    lease: LeaseModel,
    events: Seq<EventModel>,
    j: int,
    r: RangeModel,
)
    requires
        is_history(lease, events),
        0 <= j < events.len(),
        events[j] == EventModel::Done(r),
        r.best_correct >= 16,
    ensures
        has_result(
            given(reports(lease, events)) + state_after(lease, events).great,
            r.best_correct,
            r.best_arr,
            r.best_index,
        ),
{
    law_great_results_are_given_once(lease, events);
    lemma_has_result(events, j, r);
}

proof fn lemma_has_result(events: Seq<EventModel>, j: int, r: RangeModel)
    requires
        0 <= j < events.len(),
        events[j] == EventModel::Done(r),
        r.best_correct >= 16,
    ensures
        has_result(greats(events), r.best_correct, r.best_arr, r.best_index),
    decreases events.len(),
{
    let all = greats(events);
    let before = events.drop_last();
    if j == events.len() - 1 {
        let last = all[all.len() - 1];
        assert(last.correct == r.best_correct && last.arr == r.best_arr && last.index
            == r.best_index);
    } else {
        assert(before[j] == events[j]);
        lemma_has_result(before, j, r);
        let some = greats(before);
        let i = choose|i: int|
            0 <= i < some.len() && (#[trigger] some[i]).correct == r.best_correct && some[i].arr
                == r.best_arr && some[i].index == r.best_index;
        assert(all[i] == some[i]);
    }
}

/// Whether an array is the shuffle of an index under a seed, and the score the
/// number of places in it that hold their own number.
pub open spec fn is_shuffle_of(correct: u32, arr: Seq<u8>, seed: u64, index: u64) -> bool {
    &&& arr == shuffled(seeded(seed, index))
    &&& correct == Set::new(|i: int| 0 <= i < 25 && arr[i] == i + 1).len()
}

proof fn lemma_is_shuffle(seed: u64, index: u64, correct: u32)
    requires
        correct == score_at(seed, index),
    ensures
        is_shuffle_of(correct, shuffled(seeded(seed, index)), seed, index),
{
    law_score_counts_the_shuffle(seed, index);
    let arr = shuffled(seeded(seed, index));
    assert(Set::new(|i: int| 0 <= i < 25 && shuffled(seeded(seed, index))[i] == i + 1) =~= Set::new(
        |i: int| 0 <= i < 25 && arr[i] == i + 1,
    ));
}

/// With a backend that names the best shuffle of each of its chunks, a report
/// names an array, its score and the index that it is the shuffle of. A best
/// record that is then written names the same, under the seed of the lease, and
/// so does everything that is given to the history.
pub proof fn law_records_are_shuffles(
    lease: LeaseModel,
    events: Seq<EventModel>,
    e: EventModel,
    tick: TickModel,
    stats: StatsModel,
    stamp: Stamp,
    i: int,
)
    requires
        is_history(lease, events.push(e)),
        all_truthful(lease, events.push(e)),
        next(state_after(lease, events), e).1 == ActionModel::Report(tick),
        0 <= i < tick.great.len(),
    ensures
        is_shuffle_of(tick.best_correct, tick.best_arr, lease.seed, tick.best_index),
        tick.total_done - tick.shuffles <= tick.best_index < tick.total_done,
        is_shuffle_of(
            tick.great[i].correct,
            tick.great[i].arr,
            lease.seed,
            tick.great[i].index,
        ),
{
    law_reported_array_is_the_shuffle(lease, events, e, tick, stats, stamp);
    let all = events.push(e);
    assert(all.drop_last() =~= events);
    law_great_results_are_given_once(lease, events);
    let m = state_after(lease, events);
    let results = greats(events);
    let at = given(reports(lease, events)).len() + i;
    assert((given(reports(lease, events)) + m.great)[at] == m.great[i]);
    assert(results[at] == tick.great[i]);
    assert forall|k: int| 0 <= k < events.len() implies (
    #[trigger] events[k] matches EventModel::Done(r) ==> crate::scheduler::is_truthful(
        r,
        lease.seed,
    )) by {
        assert(all[k] == events[k]);
    }
    lemma_sent_ranges(lease, events);
    lemma_greats_are_shuffles(lease, events, at);
}

/// With a backend that names the best shuffle of each of its chunks, a report
/// and the best record that it leads to name an array, its score and the index
/// that it is the shuffle of, under the seed of the lease.
pub proof fn law_reported_array_is_the_shuffle(
    lease: LeaseModel,
    events: Seq<EventModel>,
    e: EventModel,
    tick: TickModel,
    stats: StatsModel,
    stamp: Stamp,
)
    requires
        is_history(lease, events.push(e)),
        all_truthful(lease, events.push(e)),
        next(state_after(lease, events), e).1 == ActionModel::Report(tick),
    ensures
        is_shuffle_of(tick.best_correct, tick.best_arr, lease.seed, tick.best_index),
        tick.total_done - tick.shuffles <= tick.best_index < tick.total_done,
        to_write(stats, tick, stamp).best matches Some(record) ==> {
            &&& is_shuffle_of(record.correct, record.arr, lease.seed, record.index)
            &&& record.seed == lease.seed_str
            &&& record.index == tick.best_index
        },
{
    law_reports_are_best(lease, events, e, tick);
    lemma_is_shuffle(lease.seed, tick.best_index, tick.best_correct);
    law_record_is_of_the_tick(stats, tick, stamp);
}

/// Whether every answer in the events is about indices that are there.
spec fn ranges_hold(events: Seq<EventModel>) -> bool {
    forall|k: int|
        0 <= k < events.len() ==> (#[trigger] events[k] matches EventModel::Done(r) ==> r.lo
            < r.hi)
}

proof fn lemma_sent_ranges(lease: LeaseModel, events: Seq<EventModel>)
    requires
        is_history(lease, events),
    ensures
        ranges_hold(events),
    decreases events.len(),
{
    if events.len() > 0 {
        let before = events.drop_last();
        lemma_sent_ranges(lease, before);
        crate::schedule_laws::law_chunks_tile(lease, before);
        crate::schedule_laws::lemma_waits_for_a_chunk(lease, before);
        let chunks = crate::schedule_laws::sent(lease, before);
        assert forall|k: int| 0 <= k < events.len() implies (
        #[trigger] events[k] matches EventModel::Done(r) ==> r.lo < r.hi) by {
            if k < before.len() {
                assert(before[k] == events[k]);
            } else if events[k] is Done {
                assert(chunks[chunks.len() - 1] == chunks.last());
            }
        }
    }
}

proof fn lemma_greats_are_shuffles(lease: LeaseModel, events: Seq<EventModel>, at: int)
    requires
        all_truthful(lease, events),
        ranges_hold(events),
        0 <= at < greats(events).len(),
    ensures
        ({
            let g = greats(events)[at];
            is_shuffle_of(g.correct, g.arr, lease.seed, g.index)
        }),
    decreases events.len(),
{
    let before = events.drop_last();
    if at < greats(before).len() {
        assert forall|k: int| 0 <= k < before.len() implies (
        #[trigger] before[k] matches EventModel::Done(r) ==> crate::scheduler::is_truthful(
            r,
            lease.seed,
        ) && r.lo < r.hi) by {
            assert(before[k] == events[k]);
        }
        lemma_greats_are_shuffles(lease, before, at);
    } else {
        assert(events[events.len() - 1] == events.last());
        if let EventModel::Done(r) = events.last() {
            lemma_is_shuffle(lease.seed, r.best_index, r.best_correct);
        }
    }
}

} // verus!
