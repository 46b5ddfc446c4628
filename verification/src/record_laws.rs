//! What working leases off does to the records on display.

use crate::history::{free_id, remembered, GreatModel, SavedModel, MAX_SAVED};
use crate::schedule_laws::{
    given, greats, is_history, law_great_results_are_given_once, reports, state_after,
};
use crate::scheduler::{
    at_work, worked, EventModel, LeaseModel, OrderModel, RunModel,
};
use crate::worker::{
    entry_of_great, ticked, with_greats, Stamp, StatsModel, TickModel, TickRecordModel, MAX_TICKS,
};
use vstd::prelude::*;

verus! {

/// The last `n` of a sequence, or all of it where there are fewer.
pub open spec fn newest<T>(all: Seq<T>, n: int) -> Seq<T> {
    if all.len() > n {
        all.skip(all.len() - n)
    } else {
        all
    }
}

/// The newest of a sequence are its last items, in their order: as many as are
/// asked for, or all of them.
pub proof fn law_newest_are_the_last<T>(all: Seq<T>, n: int, i: int)
    requires
        n >= 0,
    ensures
        newest(all, n).len() == if all.len() > n {
            n
        } else {
            all.len() as int
        },
        0 <= i < newest(all, n).len() ==> newest(all, n)[i] == all[all.len() - newest(all, n).len()
            + i],
{
}

/// Whether neither the ticks nor the history on display exceed their maximum.
pub open spec fn is_within_limits(stats: StatsModel) -> bool {
    stats.ticks.len() <= MAX_TICKS && stats.saved_arrays.len() <= MAX_SAVED
}

/// What is displayed of some reports.
pub open spec fn tick_records(ticks: Seq<TickModel>) -> Seq<TickRecordModel> {
    ticks.map_values(
        |tick: TickModel|
            TickRecordModel {
                best_correct: tick.best_correct,
                best_arr: tick.best_arr,
                shuffles: tick.shuffles,
            },
    )
}

/// Whether the entries are those of the results, in the same order.
pub open spec fn are_entries_of(entries: Seq<SavedModel>, results: Seq<GreatModel>) -> bool {
    &&& entries.len() == results.len()
    &&& forall|i: int|
        0 <= i < entries.len() ==> {
            let entry = #[trigger] entries[i];
            &&& entry.correct == results[i].correct
            &&& entry.arr == results[i].arr
            &&& entry.index == results[i].index
        }
}

/// Whether a history has grown by the entries of the results and by nothing
/// else: the new entries stand last, and the oldest gave way beyond the
/// maximum.
pub open spec fn has_grown(
    before: Seq<SavedModel>,
    after: Seq<SavedModel>,
    results: Seq<GreatModel>,
) -> bool {
    exists|entries: Seq<SavedModel>| #[trigger]
        are_entries_of(entries, results) && after == newest(before + entries, MAX_SAVED as int)
}

/// Whether a best score with its array has gone with some reports: no report
/// beats it, and it has risen only to the score of one of them, whose array
/// came with it.
pub open spec fn has_risen(
    before: (u32, Seq<u8>),
    after: (u32, Seq<u8>),
    ticks: Seq<TickModel>,
) -> bool {
    &&& forall|i: int| 0 <= i < ticks.len() ==> (#[trigger] ticks[i]).best_correct <= after.0
    &&& after == before || (after.0 > before.0 && exists|i: int|
        0 <= i < ticks.len() && (#[trigger] ticks[i]).best_correct == after.0 && ticks[i].best_arr
            == after.1)
}

/// The best of the session with its array.
pub open spec fn session_record(stats: StatsModel) -> (u32, Seq<u8>) {
    (stats.session_best, stats.session_best_arr)
}

/// The best of all time with its array.
pub open spec fn all_time_record(stats: StatsModel) -> (u32, Seq<u8>) {
    (stats.all_time_best, stats.all_time_best_arr)
}

/// Whether the records on display have gone with some reports and with nothing
/// else.
pub open spec fn records_follow(
    before: StatsModel,
    after: StatsModel,
    ticks: Seq<TickModel>,
) -> bool {
    &&& after.ticks == newest(before.ticks + tick_records(ticks), MAX_TICKS as int)
    &&& has_grown(before.saved_arrays, after.saved_arrays, given(ticks))
    &&& has_risen(session_record(before), session_record(after), ticks)
    &&& has_risen(all_time_record(before), all_time_record(after), ticks)
}

/// Whether two displays show the same records; the rest may differ.
pub open spec fn same_records(a: StatsModel, b: StatsModel) -> bool {
    &&& a.ticks == b.ticks
    &&& a.saved_arrays == b.saved_arrays
    &&& session_record(a) == session_record(b)
    &&& all_time_record(a) == all_time_record(b)
}

/// The reports of an order.
pub open spec fn reported(order: OrderModel) -> Seq<TickModel> {
    match order {
        OrderModel::Report(tick, _) => seq![tick],
        _ => Seq::empty(),
    }
}

proof fn lemma_newest_twice<T>(a: Seq<T>, b: Seq<T>, n: int)
    requires
        n >= 0,
    ensures
        newest(newest(a, n) + b, n) == newest(a + b, n),
{
    assert(newest(newest(a, n) + b, n) =~= newest(a + b, n));
}

proof fn lemma_grown_twice(
    a: Seq<SavedModel>,
    b: Seq<SavedModel>,
    c: Seq<SavedModel>,
    first: Seq<GreatModel>,
    second: Seq<GreatModel>,
)
    requires
        has_grown(a, b, first),
        has_grown(b, c, second),
    ensures
        has_grown(a, c, first + second),
{
    let n = MAX_SAVED as int;
    let x = choose|x: Seq<SavedModel>| #[trigger]
        are_entries_of(x, first) && b == newest(a + x, n);
    let y = choose|y: Seq<SavedModel>| #[trigger]
        are_entries_of(y, second) && c == newest(b + y, n);
    lemma_newest_twice(a + x, y, n);
    assert(a + x + y =~= a + (x + y));
    assert(are_entries_of(x + y, first + second));
}

proof fn lemma_not_grown(a: Seq<SavedModel>)
    requires
        a.len() <= MAX_SAVED,
    ensures
        has_grown(a, a, Seq::empty()),
{
    let none = Seq::<SavedModel>::empty();
    assert(a + none =~= a);
    assert(are_entries_of(none, Seq::empty()));
}

proof fn lemma_with_greats(
    saved: Seq<SavedModel>,
    tick: TickModel,
    n: nat,
    total: u64,
    stamp: Stamp,
)
    requires
        saved.len() <= MAX_SAVED,
        n <= tick.great.len(),
    ensures
        has_grown(saved, with_greats(saved, tick, n, total, stamp), tick.great.take(n as int)),
    decreases n,
{
    let results = tick.great.take(n as int);
    if n == 0 {
        lemma_not_grown(saved);
        assert(results =~= Seq::empty());
    } else {
        let m = (n - 1) as nat;
        lemma_with_greats(saved, tick, m, total, stamp);
        let before = with_greats(saved, tick, m, total, stamp);
        let after = with_greats(saved, tick, n, total, stamp);
        let entry = entry_of_great(
            tick.great[n - 1],
            tick,
            total,
            free_id(before, stamp.nanos),
            stamp,
        );
        let one = seq![tick.great[n - 1]];
        assert(after == remembered(before, entry));
        assert(before + seq![entry] =~= before.push(entry));
        assert(are_entries_of(seq![entry], one));
        assert(has_grown(before, after, one));
        lemma_grown_twice(saved, before, after, tick.great.take(m as int), one);
        assert(tick.great.take(m as int) + one =~= results);
    }
}

proof fn lemma_tick_records(stats: StatsModel, tick: TickModel, stamp: Stamp)
    requires
        is_within_limits(stats),
    ensures
        records_follow(stats, ticked(stats, tick, stamp), seq![tick]),
{
    let after = ticked(stats, tick, stamp);
    let ticks = seq![tick];
    let total = (stats.total_shuffles + tick.shuffles) as u64;
    assert(after.ticks =~= newest(stats.ticks + tick_records(ticks), MAX_TICKS as int));
    lemma_with_greats(stats.saved_arrays, tick, tick.great.len(), total, stamp);
    assert(tick.great.take(tick.great.len() as int) =~= tick.great);
    lemma_given_one(tick);
    assert(ticks[0] == tick);
}

proof fn lemma_no_reports(stats: StatsModel, after: StatsModel)
    requires
        is_within_limits(stats),
        same_records(stats, after),
    ensures
        records_follow(stats, after, Seq::empty()),
{
    let none = Seq::<TickModel>::empty();
    assert(stats.ticks + tick_records(none) =~= stats.ticks);
    lemma_not_grown(stats.saved_arrays);
}

proof fn lemma_given_twice(first: Seq<TickModel>, second: Seq<TickModel>)
    ensures
        given(first + second) == given(first) + given(second),
    decreases second.len(),
{
    let all = first + second;
    if second.len() == 0 {
        assert(all =~= first);
        assert(given(first) + given(second) =~= given(first));
    } else {
        lemma_given_twice(first, second.drop_last());
        assert(all.drop_last() =~= first + second.drop_last());
        assert(given(all) =~= given(first) + given(second));
    }
}

proof fn lemma_risen_twice(
    a: (u32, Seq<u8>),
    b: (u32, Seq<u8>),
    c: (u32, Seq<u8>),
    first: Seq<TickModel>,
    second: Seq<TickModel>,
)
    requires
        has_risen(a, b, first),
        has_risen(b, c, second),
    ensures
        has_risen(a, c, first + second),
{
    let all = first + second;
    assert forall|i: int| 0 <= i < all.len() implies (#[trigger] all[i]).best_correct <= c.0 by {
        if i < first.len() {
            assert(all[i] == first[i]);
        } else {
            assert(all[i] == second[i - first.len()]);
        }
    }
    if c != b {
        let i = choose|i: int|
            0 <= i < second.len() && (#[trigger] second[i]).best_correct == c.0
                && second[i].best_arr == c.1;
        assert(all[first.len() + i] == second[i]);
    } else if b != a {
        let i = choose|i: int|
            0 <= i < first.len() && (#[trigger] first[i]).best_correct == b.0 && first[i].best_arr
                == b.1;
        assert(all[i] == first[i]);
    }
}

proof fn lemma_records_follow_twice(
    a: StatsModel,
    b: StatsModel,
    c: StatsModel,
    first: Seq<TickModel>,
    second: Seq<TickModel>,
)
    requires
        records_follow(a, b, first),
        records_follow(b, c, second),
    ensures
        records_follow(a, c, first + second),
{
    let x = tick_records(first);
    let y = tick_records(second);
    lemma_newest_twice(a.ticks + x, y, MAX_TICKS as int);
    assert(a.ticks + x + y =~= a.ticks + tick_records(first + second));
    lemma_given_twice(first, second);
    lemma_grown_twice(
        a.saved_arrays,
        b.saved_arrays,
        c.saved_arrays,
        given(first),
        given(second),
    );
    lemma_risen_twice(session_record(a), session_record(b), session_record(c), first, second);
    lemma_risen_twice(all_time_record(a), all_time_record(b), all_time_record(c), first, second);
}

proof fn lemma_given_one(tick: TickModel)
    ensures
        given(seq![tick]) == tick.great,
{
    let ticks = seq![tick];
    assert(ticks.drop_last() =~= Seq::empty());
    assert(given(ticks.drop_last()) =~= Seq::empty());
    assert(given(ticks) =~= tick.great);
}

proof fn lemma_work_records(s: Option<RunModel>, stats: StatsModel, e: EventModel, stamp: Stamp)
    requires
        is_within_limits(stats),
    ensures
        ({
            let (_, after, order) = worked(s, stats, e, stamp);
            &&& is_within_limits(after)
            &&& records_follow(stats, after, reported(order))
            &&& after.session_best >= stats.session_best
            &&& after.all_time_best >= stats.all_time_best
        }),
{
    let (_, after, order) = worked(s, stats, e, stamp);
    match order {
        OrderModel::Report(tick, _) => {
            lemma_tick_records(stats, tick, stamp);
        },
        _ => {
            lemma_no_reports(stats, after);
        },
    }
}

/// Whatever comes while leases are worked off, the records on display go with
/// the report that is then made, and stay as they are where none is made. The
/// ticks and the history keep their maximum, newest last. The best scores never
/// fall, and rise only to the score of the report, with its array. A record is
/// written if and only if the best of all time has risen, and the history if
/// and only if it has grown, by results that reach its cutoff.
pub proof fn law_work_keeps_the_records(
    s: Option<RunModel>,
    stats: StatsModel,
    e: EventModel,
    stamp: Stamp,
)
    requires
        at_work(s),
        is_within_limits(stats),
    ensures
        ({
            let (_, after, order) = worked(s, stats, e, stamp);
            let ticks = reported(order);
            &&& is_within_limits(after)
            &&& records_follow(stats, after, ticks)
            &&& after.session_best >= stats.session_best
            &&& after.all_time_best >= stats.all_time_best
            &&& forall|i: int|
                0 <= i < given(ticks).len() ==> (#[trigger] given(ticks)[i]).correct
                    >= 16
            &&& match order {
                OrderModel::Report(tick, written) => {
                    &&& written.best is Some <==> after.all_time_best > stats.all_time_best
                    &&& written.best matches Some(record) ==> (record.correct, record.arr)
                        == all_time_record(after)
                    &&& written.history == if tick.great.len() > 0 {
                        Some(after.saved_arrays)
                    } else {
                        None
                    }
                },
                _ => same_records(stats, after),
            }
        }),
{
    lemma_work_records(s, stats, e, stamp);
    if let OrderModel::Report(tick, _) = worked(s, stats, e, stamp).2 {
        lemma_given_one(tick);
        assert(tick.great == s->0.great);
    }
}

/// Whether the displays, the first of them before the events of a lease and
/// the others each after one more of them, could follow each other. Between
/// two events what is no record may be changed.
pub open spec fn are_shown(
    lease: LeaseModel,
    events: Seq<EventModel>,
    displays: Seq<StatsModel>,
    stamps: Seq<Stamp>,
) -> bool {
    &&& displays.len() == events.len() + 1
    &&& stamps.len() == events.len()
    &&& forall|k: int|
        0 <= k < events.len() ==> same_records(
            worked(
                Some(state_after(lease, events.take(k))),
                displays[k],
                #[trigger] events[k],
                stamps[k],
            ).1,
            displays[k + 1],
        )
}

/// From the first event of a lease to any later one, the records on display go
/// with the reports that are made on the lease: the ticks and the history keep
/// their maximum, newest last; the best scores never fall, and rise only to the
/// score of one of those reports, with its array; and what the history gains
/// are the results of the reports that reach its cutoff, in order.
pub proof fn law_lease_keeps_the_records(
    lease: LeaseModel,
    events: Seq<EventModel>,
    displays: Seq<StatsModel>,
    stamps: Seq<Stamp>,
)
    requires
        is_history(lease, events),
        are_shown(lease, events, displays, stamps),
        is_within_limits(displays[0]),
    ensures
        is_within_limits(displays.last()),
        records_follow(displays[0], displays.last(), reports(lease, events)),
        displays.last().session_best >= displays[0].session_best,
        displays.last().all_time_best >= displays[0].all_time_best,
        forall|i: int|
            0 <= i < given(reports(lease, events)).len() ==> (#[trigger] given(
                reports(lease, events),
            )[i]).correct >= 16,
    decreases events.len(),
{
    lemma_reports_are_great(lease, events);
    if events.len() == 0 {
        lemma_no_reports(displays[0], displays.last());
    } else {
        let k = events.len() - 1;
        let before = events.drop_last();
        assert(events.take(k) =~= before);
        lemma_shown_before(lease, events, displays, stamps);
        law_lease_keeps_the_records(lease, before, displays.drop_last(), stamps.drop_last());
        let m = state_after(lease, before);
        let stats = displays[k];
        assert(displays.drop_last().last() == stats);
        let (_, after, order) = worked(Some(m), stats, events[k], stamps[k]);
        lemma_work_records(Some(m), stats, events[k], stamps[k]);
        lemma_records_follow_twice(
            displays[0],
            stats,
            after,
            reports(lease, before),
            reported(order),
        );
        lemma_reports_extended(lease, events, stats, stamps[k]);
    }
}

proof fn lemma_reports_extended(
    lease: LeaseModel,
    events: Seq<EventModel>,
    stats: StatsModel,
    stamp: Stamp,
)
    requires
        events.len() > 0,
    ensures
        ({
            let before = events.drop_last();
            let s = Some(state_after(lease, before));
            reports(lease, events) == reports(lease, before) + reported(
                worked(s, stats, events.last(), stamp).2,
            )
        }),
{
    let before = events.drop_last();
    let order = worked(Some(state_after(lease, before)), stats, events.last(), stamp).2;
    assert(reports(lease, events) =~= reports(lease, before) + reported(order));
}

proof fn lemma_shown_before(
    lease: LeaseModel,
    events: Seq<EventModel>,
    displays: Seq<StatsModel>,
    stamps: Seq<Stamp>,
)
    requires
        events.len() > 0,
        are_shown(lease, events, displays, stamps),
    ensures
        are_shown(lease, events.drop_last(), displays.drop_last(), stamps.drop_last()),
{
    let before = events.drop_last();
    assert forall|k: int| 0 <= k < before.len() implies same_records(
        worked(
            Some(state_after(lease, before.take(k))),
            displays.drop_last()[k],
            #[trigger] before[k],
            stamps.drop_last()[k],
        ).1,
        displays.drop_last()[k + 1],
    ) by {
        assert(before[k] == events[k]);
        assert(before.take(k) =~= events.take(k));
    }
}

proof fn lemma_greats_reach_cutoff(events: Seq<EventModel>)
    ensures
        forall|i: int|
            0 <= i < greats(events).len() ==> (#[trigger] greats(events)[i]).correct
                >= 16,
    decreases events.len(),
{
    if events.len() > 0 {
        let earlier = greats(events.drop_last());
        lemma_greats_reach_cutoff(events.drop_last());
        assert forall|i: int| 0 <= i < greats(events).len() implies (#[trigger] greats(
            events,
        )[i]).correct >= 16 by {
            if i < earlier.len() {
                assert(greats(events)[i] == earlier[i]);
            }
        }
    }
}

proof fn lemma_reports_are_great(lease: LeaseModel, events: Seq<EventModel>)
    requires
        is_history(lease, events),
    ensures
        forall|i: int|
            0 <= i < given(reports(lease, events)).len() ==> (#[trigger] given(
                reports(lease, events),
            )[i]).correct >= 16,
{
    law_great_results_are_given_once(lease, events);
    lemma_greats_reach_cutoff(events);
    let results = given(reports(lease, events));
    assert forall|i: int| 0 <= i < results.len() implies (#[trigger] results[i]).correct
        >= 16 by {
        assert(results[i] == greats(events)[i]);
    }
}

} // verus!
