//! Searching a range of shuffle indices for the best score.

use crate::config::{ComputeBackend, ComputeConfig};
use crate::rng::{count_fixed_points, in_place_count, seeded, shuffled, Rng};
use crate::rng_laws::law_score_is_the_number_of_fixed_points;
use rayon::prelude::{IntoParallelIterator, ParallelIterator};
use vstd::prelude::*;

verus! {

/// Shuffles that one device thread makes per launch.
pub const DEVICE_CHUNK: u32 = 4096;

/// The best shuffle of a range of indices.
pub struct BatchResult {
    pub best_correct: u32,
    pub best_arr: [u8; 25],
    pub best_index: u64,
}

/// Why a batch gave no result. The processor always gives one.
#[derive(Debug)]
pub enum ComputeError {
    /// The device could not be set up or driven.
    Device(String),
}

/// What computes batches on this machine.
#[derive(Debug, Clone, Copy, PartialEq, Eq, Structural)]
pub enum Backend {
    Cpu,
}

/// A score together with the index that reached it.
pub type Candidate = (u32, u64);

/// The shuffle of `index`.
pub open spec fn shuffle_at(seed: u64, index: u64) -> Seq<u8> {
    shuffled(seeded(seed, index))
}

/// The score of `index`: how many numbers its shuffle leaves in place.
#[verifier::opaque]
pub open spec fn score_at(seed: u64, index: u64) -> nat {
    in_place_count(shuffle_at(seed, index), 25)
}

/// Whether `index` is the first index in `base .. base + count` with the
/// highest score, and `correct` that score. An empty range has score zero at
/// `base`.
pub open spec fn is_best(seed: u64, base: u64, count: int, correct: u32, index: u64) -> bool {
    if count <= 0 {
        correct == 0 && index == base
    } else {
        &&& base <= index < base + count
        &&& correct == score_at(seed, index)
        &&& forall|i: u64| base <= i < base + count ==> #[trigger] score_at(seed, i) <= correct
        &&& forall|i: u64| base <= i < index ==> #[trigger] score_at(seed, i) < correct
    }
}

/// The candidate that `index` contributes.
pub open spec fn candidate_at(seed: u64, index: u64) -> Candidate {
    (score_at(seed, index) as u32, index)
}

/// The candidates of a range of indices, in order.
pub open spec fn candidates(seed: u64, base: u64, count: u32) -> Seq<Candidate> {
    Seq::new(count as nat, |k: int| candidate_at(seed, (base + k) as u64))
}

/// The better of two candidates; the left one on a tie.
pub open spec fn preferred(x: Candidate, y: Candidate) -> Candidate {
    if y.0 > x.0 {
        y
    } else {
        x
    }
}

/// A way of bracketing a sequence of candidates for a reduction.
pub enum Bracketing {
    /// No candidate: the identity stands here.
    Empty,
    /// A single candidate.
    Single,
    /// A stretch of candidates and the stretch that follows it.
    Joined(Box<Bracketing>, Box<Bracketing>),
}

/// How many candidates a bracketing spans.
pub open spec fn span_of(b: Bracketing) -> nat
    decreases b,
{
    match b {
        Bracketing::Empty => 0,
        Bracketing::Single => 1,
        Bracketing::Joined(left, right) => span_of(*left) + span_of(*right),
    }
}

/// What reducing `items` by `preferred` gives under a bracketing of them.
pub open spec fn reduced(items: Seq<Candidate>, identity: Candidate, b: Bracketing) -> Candidate
    decreases b,
{
    match b {
        Bracketing::Empty => identity,
        Bracketing::Single => items[0],
        Bracketing::Joined(left, right) => preferred(
            reduced(items.take(span_of(*left) as int), identity, *left),
            reduced(items.skip(span_of(*left) as int), identity, *right),
        ),
    }
}

/// Whether `r` is what reducing `items` gives under some bracketing of them.
pub open spec fn is_reduction(items: Seq<Candidate>, identity: Candidate, r: Candidate) -> bool {
    exists|b: Bracketing|
        span_of(b) == items.len() && r == #[trigger] reduced(items, identity, b)
}

/// Scores the index `offset` places after `base_index`.
fn candidate(seed: u64, base_index: u64, offset: u64) -> (r: Candidate)
    requires
        base_index + offset <= u64::MAX,
    ensures
        r == candidate_at(seed, (base_index + offset) as u64),
{
    proof {
        reveal(score_at);
    }
    let i = base_index + offset;
    let arr = Rng::new(seed, i).shuffle();
    (count_fixed_points(&arr), i)
}

/// The candidate of an empty stretch of a batch.
fn no_candidate(base_index: u64) -> (r: Candidate)
    ensures
        r == (0u32, base_index),
{
    (0, base_index)
}

/// The better of two candidates; the left one on a tie.
fn better(a: Candidate, b: Candidate) -> (r: Candidate)
    ensures
        r == preferred(a, b),
{
    if b.0 > a.0 {
        b
    } else {
        a
    }
}

/// Maps `candidate` over `0 .. count` and reduces with `better` on the thread
/// pool, by `rayon`'s `ParallelIterator::map` and `ParallelIterator::reduce`.
///
/// Claimed of `reduce`: it applies the operator to neighbouring stretches of
/// the items, left to right, in a bracketing of its own choosing, and may put
/// the identity before the items of any stretch.
#[verifier::external_body]
fn reduce_candidates(seed: u64, base_index: u64, count: u32) -> (r: Candidate)
    requires
        base_index + count <= u64::MAX + 1,
    ensures
        is_reduction(candidates(seed, base_index, count), (0u32, base_index), r),
{
    (0..count as u64)
        .into_par_iter()
        .map(|offset| candidate(seed, base_index, offset))
        .reduce(|| no_candidate(base_index), |a, b| better(a, b))
}

/// The best shuffle in `base_index .. base_index + count`, searched on all
/// threads of the pool.
pub fn cpu_batch(seed: u64, base_index: u64, count: u32) -> (r: Result<BatchResult, ComputeError>)
    requires
        base_index + count <= u64::MAX + 1,
    ensures
        r matches Ok(b) && is_best(seed, base_index, count as int, b.best_correct, b.best_index)
            && b.best_arr@ == shuffle_at(seed, b.best_index) && b.best_arr@ == shuffled(
            seeded(seed, b.best_index),
        ),
{
    let winner = reduce_candidates(seed, base_index, count);
    proof {
        let items = candidates(seed, base_index, count);
        let b = choose|b: Bracketing|
            span_of(b) == items.len() && winner == #[trigger] reduced(
                items,
                (0u32, base_index),
                b,
            );
        lemma_reduction_leads(items, base_index, b);
        lemma_leader_is_best(seed, base_index, count, winner);
    }
    Ok(device_batch(seed, winner.0, winner.1))
}

/// The result of a batch whose winner is already known, as a device reports
/// it: the shuffle itself is made again from the winning index.
pub fn device_batch(seed: u64, best_correct: u32, best_index: u64) -> (r: BatchResult)
    ensures
        r.best_correct == best_correct,
        r.best_index == best_index,
        r.best_arr@ == shuffle_at(seed, best_index),
        r.best_arr@ == shuffled(seeded(seed, best_index)),
{
    let best_arr = Rng::new(seed, best_index).shuffle();
    BatchResult { best_correct, best_arr, best_index }
}

impl Backend {
    /// The backend of a build without a device.
    pub fn new_default() -> (r: Result<Self, ComputeError>)
        ensures
            r == Ok::<Backend, ComputeError>(Backend::Cpu),
    {
        Ok(Backend::Cpu)
    }

    /// The best shuffle in `base_index .. base_index + count`.
    pub fn run_batch(&mut self, seed: u64, base_index: u64, count: u32) -> (r: Result<
        BatchResult,
        ComputeError,
    >)
        requires
            base_index + count <= u64::MAX + 1,
        ensures
            *final(self) == *old(self),
            r matches Ok(b) && is_best(seed, base_index, count as int, b.best_correct, b.best_index)
                && b.best_arr@ == shuffle_at(seed, b.best_index),
    {
        match self {
            Backend::Cpu => cpu_batch(seed, base_index, count),
        }
    }
}

/// A kind of device that a build can drive.
#[derive(Debug, Clone, Copy, PartialEq, Eq, Structural)]
pub enum Device {
    Cuda,
    Hip,
}

/// What a session computes on, and how.
#[derive(Debug, Clone, Copy, PartialEq, Eq, Structural)]
pub enum Launch {
    /// On a device, with so many blocks of so many threads.
    Device { device: Device, blocks: u32, threads: u32, chunk_size: u32 },
    /// On so many threads of the processor; zero stands for all cores.
    Cpu { threads: u32 },
}

impl Launch {
    /// What a session computes on under a configuration, given the device that
    /// the build drives. The device settings count where a device is both
    /// there and asked for, the thread count everywhere else.
    pub fn select(config: &ComputeConfig, device: Option<Device>) -> (r: Self)
        ensures
            r == match (config.backend, device) {
                (ComputeBackend::Gpu, Some(device)) => Launch::Device {
                    device,
                    blocks: config.blocks,
                    threads: config.threads,
                    chunk_size: DEVICE_CHUNK,
                },
                _ => Launch::Cpu { threads: config.cpu_threads },
            },
            r matches Launch::Device { chunk_size, .. } ==> chunk_size == 4096,
    {
        match (config.backend, device) {
            (ComputeBackend::Gpu, Some(device)) => Launch::Device {
                device,
                blocks: config.blocks,
                threads: config.threads,
                chunk_size: DEVICE_CHUNK,
            },
            _ => Launch::Cpu { threads: config.cpu_threads },
        }
    }
}

/// A range has one best index.
pub proof fn law_best_is_unique(
    seed: u64,
    base: u64,
    count: int,
    c1: u32,
    i1: u64,
    c2: u32,
    i2: u64,
)
    requires
        is_best(seed, base, count, c1, i1),
        is_best(seed, base, count, c2, i2),
    ensures
        c1 == c2,
        i1 == i2,
{
    if count > 0 {
        assert(score_at(seed, i1) <= c2);
        assert(score_at(seed, i2) <= c1);
        if i1 < i2 {
            assert(score_at(seed, i1) < c2);
        } else if i2 < i1 {
            assert(score_at(seed, i2) < c1);
        }
    }
}

/// Cutting a range in two does not change its best index: the winner of the
/// second part replaces that of the first only with a higher score.
pub proof fn law_best_of_parts(
    seed: u64,
    base: u64,
    m: int,
    n: int,
    c1: u32,
    i1: u64,
    c2: u32,
    i2: u64,
)
    requires
        0 <= m,
        0 <= n,
        base + m <= u64::MAX,
        base + m + n <= u64::MAX + 1,
        is_best(seed, base, m, c1, i1),
        is_best(seed, (base + m) as u64, n, c2, i2),
    ensures
        is_best(
            seed,
            base,
            m + n,
            if c2 > c1 {
                c2
            } else {
                c1
            },
            if c2 > c1 {
                i2
            } else {
                i1
            },
        ),
{
    let (correct, index) = if c2 > c1 {
        (c2, i2)
    } else {
        (c1, i1)
    };
    if m + n > 0 {
        if m == 0 && c2 == 0 {
            assert(score_at(seed, base) <= 0);
        }
        assert forall|i: u64| base <= i < base + m + n implies #[trigger] score_at(seed, i)
            <= correct by {
            if i < base + m {
                assert(score_at(seed, i) <= c1);
            } else {
                assert(score_at(seed, i) <= c2);
            }
        }
        assert forall|i: u64| base <= i < index implies #[trigger] score_at(seed, i)
            < correct by {
            if i < base + m {
                assert(score_at(seed, i) <= c1);
            } else {
                assert(score_at(seed, i) < c2);
            }
        }
    }
}

/// The score of an index is the number of places of its shuffle that hold
/// their own number.
pub proof fn law_score_counts_the_shuffle(seed: u64, index: u64)
    ensures
        score_at(seed, index) == Set::new(
            |i: int| 0 <= i < 25 && shuffled(seeded(seed, index))[i] == i + 1,
        ).len(),
{
    reveal(score_at);
    law_score_is_the_number_of_fixed_points(shuffle_at(seed, index));
}

/// The best index of a range that is not empty lies in the range and has the
/// score that it is given; every other index of the range leaves fewer numbers
/// in place, or as many and comes later.
pub proof fn law_best_beats_every_index(
    seed: u64,
    base: u64,
    count: int,
    correct: u32,
    index: u64,
    other: u64,
)
    requires
        is_best(seed, base, count, correct, index),
        base <= other < base + count,
    ensures
        base <= index < base + count,
        correct == Set::new(
            |i: int| 0 <= i < 25 && shuffled(seeded(seed, index))[i] == i + 1,
        ).len(),
        Set::new(|i: int| 0 <= i < 25 && shuffled(seeded(seed, other))[i] == i + 1).len()
            < correct || (Set::new(
            |i: int| 0 <= i < 25 && shuffled(seeded(seed, other))[i] == i + 1,
        ).len() == correct && index <= other),
{
    law_score_counts_the_shuffle(seed, index);
    law_score_counts_the_shuffle(seed, other);
    assert(score_at(seed, other) <= correct);
    if other < index {
        assert(score_at(seed, other) < correct);
    }
}

/// A range without indices has no score, and its first index stands for it.
pub proof fn law_best_of_nothing(seed: u64, base: u64, count: int, correct: u32, index: u64)
    requires
        is_best(seed, base, count, correct, index),
        count <= 0,
    ensures
        correct == 0,
        index == base,
{
}

/// Whether `r` is the first of the best among `items`, or stands for a stretch
/// in which nothing scored.
spec fn leads(items: Seq<Candidate>, base: u64, r: Candidate) -> bool {
    &&& forall|k: int| 0 <= k < items.len() ==> (#[trigger] items[k]).0 <= r.0
    &&& (r == (0u32, base) || first_best(items, r))
}

spec fn first_best(items: Seq<Candidate>, r: Candidate) -> bool {
    exists|j: int|
        #![trigger items[j]]
        0 <= j < items.len() && items[j] == r && forall|k: int|
            0 <= k < j ==> (#[trigger] items[k]).0 < r.0
}

proof fn lemma_reduction_leads(items: Seq<Candidate>, base: u64, b: Bracketing)
    requires
        span_of(b) == items.len(),
    ensures
        leads(items, base, reduced(items, (0u32, base), b)),
    decreases b,
{
    let identity: Candidate = (0u32, base);
    match b {
        Bracketing::Empty => {},
        Bracketing::Single => {
            assert(first_best(items, items[0]));
        },
        Bracketing::Joined(left, right) => {
            let k = span_of(*left) as int;
            lemma_reduction_leads(items.take(k), base, *left);
            lemma_reduction_leads(items.skip(k), base, *right);
            lemma_leads_joined(
                items,
                base,
                k,
                reduced(items.take(k), identity, *left),
                reduced(items.skip(k), identity, *right),
            );
        },
    }
}

proof fn lemma_leads_joined(items: Seq<Candidate>, base: u64, k: int, x: Candidate, y: Candidate)
    requires
        0 <= k <= items.len(),
        leads(items.take(k), base, x),
        leads(items.skip(k), base, y),
    ensures
        leads(items, base, preferred(x, y)),
{
    let left = items.take(k);
    let right = items.skip(k);
    let r = preferred(x, y);
    assert forall|i: int| 0 <= i < items.len() implies (#[trigger] items[i]).0 <= r.0 by {
        if i < k {
            assert(left[i].0 <= x.0);
        } else {
            assert(right[i - k].0 <= y.0);
        }
    }
    if r != (0u32, base) {
        if y.0 > x.0 {
            let j = choose|j: int|
                #![trigger right[j]]
                0 <= j < right.len() && right[j] == y && forall|i: int|
                    0 <= i < j ==> (#[trigger] right[i]).0 < y.0;
            assert forall|i: int| 0 <= i < j + k implies (#[trigger] items[i]).0 < r.0 by {
                if i < k {
                    assert(left[i].0 <= x.0);
                } else {
                    assert(right[i - k].0 < y.0);
                }
            }
            assert(items[j + k] == r);
        } else {
            let j = choose|j: int|
                #![trigger left[j]]
                0 <= j < left.len() && left[j] == x && forall|i: int|
                    0 <= i < j ==> (#[trigger] left[i]).0 < x.0;
            assert forall|i: int| 0 <= i < j implies (#[trigger] items[i]).0 < r.0 by {
                assert(left[i].0 < x.0);
            }
            assert(items[j] == r);
        }
        assert(first_best(items, r));
    }
}

proof fn lemma_leader_is_best(seed: u64, base: u64, count: u32, r: Candidate)
    requires
        base + count <= u64::MAX + 1,
        leads(candidates(seed, base, count), base, r),
    ensures
        is_best(seed, base, count as int, r.0, r.1),
{
    let items = candidates(seed, base, count);
    assert forall|i: u64| base <= i < base + count implies items[i - base] == candidate_at(
        seed,
        i,
    ) by {}
    assert forall|i: u64| true implies #[trigger] score_at(seed, i) <= 25 by {
        lemma_score_bound(seed, i);
    }
    if count > 0 {
        let (correct, index) = r;
        assert forall|i: u64| base <= i < base + count implies #[trigger] score_at(seed, i)
            <= correct by {
            assert(items[i - base].0 <= correct);
        }
        if first_best(items, r) {
            let j = choose|j: int|
                #![trigger items[j]]
                0 <= j < items.len() && items[j] == r && forall|k: int|
                    0 <= k < j ==> (#[trigger] items[k]).0 < r.0;
            assert(index == base + j);
            assert forall|i: u64| base <= i < index implies #[trigger] score_at(seed, i)
                < correct by {
                assert(items[i - base].0 < correct);
            }
        } else {
            assert(items[0].0 <= 0);
            assert(items[0] == candidate_at(seed, base));
        }
    }
}

pub(crate) proof fn lemma_score_bound(seed: u64, index: u64)
    ensures
        score_at(seed, index) <= 25,
{
    reveal(score_at);
    crate::rng::lemma_in_place_count(shuffle_at(seed, index), 25);
}

} // verus!
