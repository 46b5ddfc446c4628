//! Laws on whole batches of a device.

use crate::device::{
    advanced, begun, collected, launched_on, launching, nothing_found, pipe_well_formed,
    DeviceActionModel, FindingModel, PipeModel, Stage,
};
use vstd::prelude::*;

verus! {

/// What follows when the device has done as it was asked. `found` is what a
/// slot that was waited for has found; a launch has no outcome.
pub open spec fn answered(m: PipeModel, found: FindingModel) -> (PipeModel, DeviceActionModel) {
    match m.stage {
        Stage::Idle => (m, DeviceActionModel::Done(m.best)),
        Stage::Launching { slot, count } => launched_on(m, slot, count),
        Stage::Reclaiming { slot } => launching(collected(m, slot, found), slot),
        Stage::Draining { slot } => advanced(collected(m, slot, found)),
    }
}

/// Where a batch stands after the device has answered so many times, and what
/// it asks for then.
pub open spec fn batch(
    m: PipeModel,
    base_index: u64,
    count: u32,
    answers: Seq<FindingModel>,
) -> (PipeModel, DeviceActionModel)
    decreases answers.len(),
{
    if answers.len() == 0 {
        begun(m, base_index, count)
    } else {
        answered(batch(m, base_index, count, answers.drop_last()).0, answers.last())
    }
}

/// Where the launches that a batch has asked for end, if each of them starts
/// where those before it end; the first starts at the first index.
pub open spec fn tiled_up_to(
    m: PipeModel,
    base_index: u64,
    count: u32,
    answers: Seq<FindingModel>,
) -> Option<int>
    decreases answers.len(),
{
    let before = if answers.len() == 0 {
        Some(base_index as int)
    } else {
        tiled_up_to(m, base_index, count, answers.drop_last())
    };
    match (before, batch(m, base_index, count, answers).1) {
        (Some(end), DeviceActionModel::Launch { slot: _, base, count: n, min_threshold: _ }) => {
            if base == end {
                Some(end + n)
            } else {
                None
            }
        },
        (before, _) => before,
    }
}

/// Whether the answer to the last request of a batch is a finding.
pub open spec fn is_heard(m: PipeModel) -> bool {
    m.stage is Reclaiming || m.stage is Draining
}

/// What keeps holding during a batch.
proof fn lemma_batch(m: PipeModel, base_index: u64, count: u32, answers: Seq<FindingModel>)
    requires
        pipe_well_formed(m),
        base_index + count <= u64::MAX + 1,
    ensures
        pipe_well_formed(batch(m, base_index, count, answers).0),
        batch(m, base_index, count, answers).0.base_index == base_index,
        batch(m, base_index, count, answers).0.total == count,
        batch(m, base_index, count, answers).0.busy.len() == m.busy.len(),
        batch(m, base_index, count, answers).0.stage is Idle <==> batch(
            m,
            base_index,
            count,
            answers,
        ).1 is Done,
        batch(m, base_index, count, answers).0.stage is Idle ==> {
            let end = batch(m, base_index, count, answers);
            end.0.offset == count && end.0.queue.len() == 0 && end.1
                == DeviceActionModel::Done(end.0.best)
        },
    decreases answers.len(),
{
    if answers.len() == 0 {
        let start = PipeModel {
            base_index,
            total: count as u64,
            offset: 0,
            next_slot: 0,
            queue: Seq::empty(),
            best: nothing_found(base_index),
            ..m
        };
        crate::device::lemma_advanced_well_formed(start);
    } else {
        lemma_batch(m, base_index, count, answers.drop_last());
        let s = batch(m, base_index, count, answers.drop_last()).0;
        let found = answers.last();
        match s.stage {
            Stage::Idle => {},
            Stage::Launching { slot, count: n } => {
                crate::device::lemma_launched_well_formed(s, slot, n);
            },
            Stage::Reclaiming { slot } => {
                crate::device::lemma_collected_well_formed(s, slot, found);
            },
            Stage::Draining { slot } => {
                crate::device::lemma_collected_well_formed(s, slot, found);
                crate::device::lemma_advanced_well_formed(collected(s, slot, found));
            },
        }
    }
}

/// The launches of a batch cover its indices once and in order: each starts
/// where the one before it ends, and a batch that is done has covered all.
pub proof fn law_launches_cover_the_batch(
    m: PipeModel,
    base_index: u64,
    count: u32,
    answers: Seq<FindingModel>,
)
    requires
        pipe_well_formed(m),
        base_index + count <= u64::MAX + 1,
    ensures
        tiled_up_to(m, base_index, count, answers) is Some,
        batch(m, base_index, count, answers).1 is Done ==> tiled_up_to(
            m,
            base_index,
            count,
            answers,
        ) == Some(base_index + count),
{
    lemma_tiled(m, base_index, count, answers);
    lemma_batch(m, base_index, count, answers);
}

proof fn lemma_tiled(m: PipeModel, base_index: u64, count: u32, answers: Seq<FindingModel>)
    requires
        pipe_well_formed(m),
        base_index + count <= u64::MAX + 1,
    ensures
        tiled_up_to(m, base_index, count, answers) == Some(
            base_index + batch(m, base_index, count, answers).0.offset + (match batch(
                m,
                base_index,
                count,
                answers,
            ).0.stage {
                Stage::Launching { slot: _, count: n } => n as int,
                _ => 0,
            }),
        ),
    decreases answers.len(),
{
    lemma_batch(m, base_index, count, answers);
    if answers.len() > 0 {
        lemma_batch(m, base_index, count, answers.drop_last());
        lemma_tiled(m, base_index, count, answers.drop_last());
    }
}

/// A batch that is done gives the best of what its slots found: nothing that
/// was found scores higher, and it is one of the findings or stands for none.
pub proof fn law_batch_gives_the_best_finding(
    m: PipeModel,
    base_index: u64,
    count: u32,
    answers: Seq<FindingModel>,
    i: int,
)
    requires
        pipe_well_formed(m),
        base_index + count <= u64::MAX + 1,
        batch(m, base_index, count, answers).1 is Done,
        0 <= i < answers.len(),
        is_heard(batch(m, base_index, count, answers.take(i)).0),
    ensures
        batch(m, base_index, count, answers).1 matches DeviceActionModel::Done(best) ==> {
            &&& answers[i].score <= best.score
            &&& best == nothing_found(base_index) || is_found(m, base_index, count, answers, best)
        },
{
    lemma_batch(m, base_index, count, answers);
    lemma_best_is_found(m, base_index, count, answers);
    lemma_best_bounds(m, base_index, count, answers, i);
}

/// Whether a slot of the batch found `best`.
pub open spec fn is_found(
    m: PipeModel,
    base_index: u64,
    count: u32,
    answers: Seq<FindingModel>,
    best: FindingModel,
) -> bool {
    exists|k: int|
        0 <= k < answers.len() && #[trigger] answers[k] == best && is_heard(
            batch(m, base_index, count, answers.take(k)).0,
        )
}

proof fn lemma_best_is_found(m: PipeModel, base_index: u64, count: u32, answers: Seq<FindingModel>)
    requires
        pipe_well_formed(m),
        base_index + count <= u64::MAX + 1,
    ensures
        ({
            let best = batch(m, base_index, count, answers).0.best;
            best == nothing_found(base_index) || is_found(m, base_index, count, answers, best)
        }),
    decreases answers.len(),
{
    if answers.len() > 0 {
        let earlier = answers.drop_last();
        lemma_best_is_found(m, base_index, count, earlier);
        lemma_batch(m, base_index, count, earlier);
        let s = batch(m, base_index, count, earlier).0;
        let best = batch(m, base_index, count, answers).0.best;
        let last = answers.len() - 1;
        assert(answers.take(last) =~= earlier);
        if best != s.best {
            assert(answers[last] == best && is_heard(s));
            assert(is_found(m, base_index, count, answers, best));
        } else if best != nothing_found(base_index) {
            let k = choose|k: int|
                0 <= k < earlier.len() && #[trigger] earlier[k] == best && is_heard(
                    batch(m, base_index, count, earlier.take(k)).0,
                );
            assert(answers[k] == earlier[k]);
            assert(answers.take(k) =~= earlier.take(k));
            assert(is_found(m, base_index, count, answers, best));
        }
    }
}

proof fn lemma_best_bounds(
    m: PipeModel,
    base_index: u64,
    count: u32,
    answers: Seq<FindingModel>,
    i: int,
)
    requires
        0 <= i < answers.len(),
        is_heard(batch(m, base_index, count, answers.take(i)).0),
    ensures
        answers[i].score <= batch(m, base_index, count, answers).0.best.score,
    decreases answers.len(),
{
    let earlier = answers.drop_last();
    if i == answers.len() - 1 {
        assert(answers.take(i) =~= earlier);
    } else {
        assert(earlier.take(i) =~= answers.take(i));
        lemma_best_bounds(m, base_index, count, earlier, i);
    }
}

/// How much is left of a batch.
spec fn work_left(m: PipeModel) -> int {
    3 * (m.total - m.offset) + m.queue.len() + match m.stage {
        Stage::Reclaiming { slot: _ } => 1int,
        Stage::Draining { slot: _ } => 2int,
        _ => 0,
    }
}

/// Whatever the slots find, a batch is done after at most three answers for
/// each of its shuffles, and one more.
pub proof fn law_batch_ends(
    m: PipeModel,
    base_index: u64,
    count: u32,
    answers: Seq<FindingModel>,
)
    requires
        pipe_well_formed(m),
        base_index + count <= u64::MAX + 1,
        answers.len() > 3 * count,
    ensures
        batch(m, base_index, count, answers).1 is Done,
{
    lemma_work_left(m, base_index, count, answers);
    lemma_batch(m, base_index, count, answers);
}

proof fn lemma_work_left(m: PipeModel, base_index: u64, count: u32, answers: Seq<FindingModel>)
    requires
        pipe_well_formed(m),
        base_index + count <= u64::MAX + 1,
    ensures
        batch(m, base_index, count, answers).0.stage is Idle || answers.len() + work_left(
            batch(m, base_index, count, answers).0,
        ) <= 3 * count + 1,
        batch(m, base_index, count, answers).0.stage is Launching ==> work_left(
            batch(m, base_index, count, answers).0,
        ) > 0,
    decreases answers.len(),
{
    lemma_batch(m, base_index, count, answers);
    if answers.len() > 0 {
        lemma_batch(m, base_index, count, answers.drop_last());
        lemma_work_left(m, base_index, count, answers.drop_last());
    }
}

} // verus!
