//! Driving a compute device: choosing it, keeping its slots busy, and reading
//! its findings.
//!
//! A batch on a device is a state machine. Whoever drives it performs the
//! action that it asks for on the device and hands the outcome back.

use crate::rng::{init_arr, ordered};
use crate::text::{parse_i32, spelled_i32, trimmed};
use std::collections::VecDeque;
use vstd::prelude::*;

verus! {

/// How many recent scores the pruning threshold looks back on.
pub const SCORE_WINDOW: usize = 32;

/// How many scores have to be known before anything is pruned.
pub const SCORE_MINIMUM: usize = 8;

/// The device that a user names out of `count`, if the line names one.
pub open spec fn named_device(line: Seq<char>, count: i32) -> Option<i32> {
    match spelled_i32(trimmed(line)) {
        Some(n) => if 0 <= n < count {
            Some(n)
        } else {
            None
        },
        None => None,
    }
}

/// Reads the choice of a device out of `count`.
pub fn choose_device(line: &str, count: i32) -> (r: Option<i32>)
    ensures
        r == named_device(line@, count),
{
    match parse_i32(line.trim()) {
        Some(n) => if n >= 0 && n < count {
            Some(n)
        } else {
            None
        },
        None => None,
    }
}

/// The sum of some scores.
pub open spec fn sum_of(scores: Seq<u32>) -> nat
    decreases scores.len(),
{
    if scores.len() == 0 {
        0
    } else {
        sum_of(scores.drop_last()) + scores.last() as nat
    }
}

/// The scores with one more, as far as the window reaches back; a score of
/// zero says nothing and is left out.
pub open spec fn scores_with(scores: Seq<u32>, score: u32) -> Seq<u32> {
    if score == 0 {
        scores
    } else if scores.len() < SCORE_WINDOW {
        scores.push(score)
    } else {
        scores.push(score).drop_first()
    }
}

/// The score below which a device need not look: one less than the average of
/// the recent scores, once there are enough of them.
pub open spec fn prune_below(scores: Seq<u32>) -> int {
    if scores.len() < SCORE_MINIMUM {
        0
    } else {
        let average = sum_of(scores) as int / scores.len() as int;
        if average > 0 {
            average - 1
        } else {
            0
        }
    }
}

/// The most recent scores of a device, in a ring.
#[derive(Debug, Clone, Copy)]
pub struct ScoreHistory {
    scores: [u32; 32],
    pos: usize,
    count: usize,
}

impl View for ScoreHistory {
    type V = Seq<u32>;

    closed spec fn view(&self) -> Seq<u32> {
        if self.count < SCORE_WINDOW {
            self.scores@.take(self.count as int)
        } else {
            self.scores@.skip(self.pos as int) + self.scores@.take(self.pos as int)
        }
    }
}

impl ScoreHistory {
    #[verifier::type_invariant]
    spec fn is_ring(self) -> bool {
        &&& self.count <= SCORE_WINDOW
        &&& self.pos < SCORE_WINDOW
        &&& self.count < SCORE_WINDOW ==> self.pos == self.count
    }

    /// No scores yet.
    pub fn new() -> (r: Self)
        ensures
            r@ == Seq::<u32>::empty(),
            r@.len() == 0,
    {
        let r = ScoreHistory { scores: [0u32; 32], pos: 0, count: 0 };
        proof {
            assert(r@ =~= Seq::<u32>::empty());
        }
        r
    }

    /// Takes a score in.
    pub fn record(&mut self, score: u32)
        ensures
            final(self)@ == scores_with(old(self)@, score),
    {
        proof {
            use_type_invariant(&*self);
        }
        if score == 0 {
            return;
        }
        let ghost before = self@;
        let mut scores = self.scores;
        scores[self.pos] = score;
        let pos = (self.pos + 1) % SCORE_WINDOW;
        let count = if self.count < SCORE_WINDOW {
            self.count + 1
        } else {
            self.count
        };
        let new = ScoreHistory { scores, pos, count };
        proof {
            assert(new@ =~= scores_with(before, score));
        }
        *self = new;
    }

    /// Takes in the word that a launch left, and gives its best score and the
    /// block that reached it.
    pub fn conclude(&mut self, packed: u64) -> (r: (u32, u32))
        ensures
            r.0 == packed as int / 0x1_0000_0000,
            r.1 == packed as int % 0x1_0000_0000,
            final(self)@ == scores_with(old(self)@, r.0),
    {
        let (score, block) = unpack_best(packed);
        self.record(score);
        (score, block)
    }

    /// The score below which a device need not look.
    pub fn min_threshold(&self) -> (r: u32)
        ensures
            r == prune_below(self@),
    {
        proof {
            use_type_invariant(self);
            self.lemma_len();
        }
        if self.count < SCORE_MINIMUM {
            return 0;
        }
        let mut sum: u64 = 0;
        let mut i: usize = 0;
        while i < self.count
            invariant
                i <= self.count <= SCORE_WINDOW,
                sum == sum_of(self.scores@.take(i as int)),
                sum <= i * u32::MAX,
            decreases self.count - i,
        {
            proof {
                assert(self.scores@.take(i + 1).drop_last() =~= self.scores@.take(i as int));
            }
            sum = sum + self.scores[i] as u64;
            i = i + 1;
        }
        proof {
            self.lemma_sum();
            let n = self.count as int;
            assert(sum as int / n <= u32::MAX) by (nonlinear_arith)
                requires
                    n > 0,
                    sum <= n * u32::MAX,
            ;
        }
        let average = (sum / self.count as u64) as u32;
        average.saturating_sub(1)
    }

    proof fn lemma_len(self)
        requires
            self.is_ring(),
        ensures
            self@.len() == self.count,
    {
    }

    proof fn lemma_sum(self)
        requires
            self.is_ring(),
        ensures
            sum_of(self@) == sum_of(self.scores@.take(self.count as int)),
    {
        if self.count == SCORE_WINDOW {
            let a = self.scores@.take(self.pos as int);
            let b = self.scores@.skip(self.pos as int);
            lemma_sum_joined(a, b);
            lemma_sum_joined(b, a);
            assert(a + b =~= self.scores@.take(self.count as int));
        }
    }
}

proof fn lemma_sum_joined(a: Seq<u32>, b: Seq<u32>)
    ensures
        sum_of(a + b) == sum_of(a) + sum_of(b),
    decreases b.len(),
{
    if b.len() == 0 {
        assert(a + b =~= a);
    } else {
        lemma_sum_joined(a, b.drop_last());
        assert((a + b).drop_last() =~= a + b.drop_last());
    }
}

/// A shuffle that a device found.
#[derive(Debug, Clone, Copy)]
pub struct Finding {
    pub score: u32,
    pub index: u64,
    pub arr: [u8; 25],
}

/// The contents of a `Finding`.
#[verifier::ext_equal]
pub struct FindingModel {
    pub score: u32,
    pub index: u64,
    pub arr: Seq<u8>,
}

impl View for Finding {
    type V = FindingModel;

    open spec fn view(&self) -> FindingModel {
        FindingModel { score: self.score, index: self.index, arr: self.arr@ }
    }
}

/// What stands for having found nothing.
pub open spec fn nothing_found(base: u64) -> FindingModel {
    FindingModel { score: 0, index: base, arr: ordered() }
}

/// Splits the word in which a device leaves its best score, above, and the
/// block that reached it, below.
pub fn unpack_best(packed: u64) -> (r: (u32, u32))
    ensures
        r.0 == packed as int / 0x1_0000_0000,
        r.1 == packed as int % 0x1_0000_0000,
{
    proof {
        assert(packed >> 32 == packed / 0x1_0000_0000) by (bit_vector);
        assert(packed >> 32 <= 0xffff_ffff) by (bit_vector);
        assert(packed & 0xffff_ffff == packed % 0x1_0000_0000) by (bit_vector);
        assert(packed & 0xffff_ffff <= 0xffff_ffff) by (bit_vector);
    }
    ((packed >> 32) as u32, (packed & 0xffff_ffff) as u32)
}

/// What a launch found, given the word with the best score and block, and
/// what each block left as its index and its array.
pub open spec fn found_by(
    packed: u64,
    indices: Seq<u64>,
    arrays: Seq<u8>,
    fallback_base: u64,
) -> FindingModel {
    let score = packed as int / 0x1_0000_0000;
    let block = packed as int % 0x1_0000_0000;
    if score == 0 {
        nothing_found(fallback_base)
    } else {
        FindingModel {
            score: score as u32,
            index: indices[block],
            arr: arrays.subrange(block * 25, block * 25 + 25),
        }
    }
}

/// Reads what a launch found.
pub fn read_finding(packed: u64, indices: &[u64], arrays: &[u8], fallback_base: u64) -> (r: Finding)
    requires
        packed as int / 0x1_0000_0000 > 0 ==> packed as int % 0x1_0000_0000 < indices@.len() && (
        packed as int % 0x1_0000_0000 + 1) * 25 <= arrays@.len(),
    ensures
        r@ == found_by(packed, indices@, arrays@, fallback_base),
{
    let (score, block) = unpack_best(packed);
    if score == 0 {
        return Finding { score: 0, index: fallback_base, arr: init_arr() };
    }
    let room = arrays.len();
    assert(block * 25 + 25 <= room);
    let first = block as usize * 25;
    let mut arr = [0u8; 25];
    let mut p: usize = 0;
    while p < 25
        invariant
            p <= 25,
            first == block * 25,
            first + 25 <= room,
            room == arrays@.len(),
            forall|k: int| 0 <= k < p ==> #[trigger] arr@[k] == arrays@[first + k],
        decreases 25 - p,
    {
        arr[p] = arrays[first + p];
        p = p + 1;
    }
    proof {
        assert(arr@ =~= arrays@.subrange(block * 25, block * 25 + 25));
    }
    Finding { score, index: indices[block as usize], arr }
}

/// Where a batch on a device stands.
#[derive(Debug, Clone, Copy, PartialEq, Eq, Structural)]
pub enum Stage {
    /// No batch is running.
    Idle,
    /// A slot is being launched.
    Launching { slot: usize, count: u32 },
    /// A slot that an abandoned batch left busy is being waited for.
    Reclaiming { slot: usize },
    /// The longest running slot is being waited for.
    Draining { slot: usize },
}

/// What to do on the device.
#[derive(Debug, Clone, Copy)]
pub enum DeviceAction {
    /// Launch a stretch of the batch on a slot.
    Launch { slot: usize, base: u64, count: u32, min_threshold: u32 },
    /// Wait for a slot and read what it found.
    Finish { slot: usize },
    /// The batch is done.
    Done(Finding),
}

/// The contents of a `DeviceAction`.
pub enum DeviceActionModel {
    Launch { slot: usize, base: u64, count: u32, min_threshold: u32 },
    Finish { slot: usize },
    Done(FindingModel),
}

impl View for DeviceAction {
    type V = DeviceActionModel;

    open spec fn view(&self) -> DeviceActionModel {
        match *self {
            DeviceAction::Launch { slot, base, count, min_threshold } => DeviceActionModel::Launch {
                slot,
                base,
                count,
                min_threshold,
            },
            DeviceAction::Finish { slot } => DeviceActionModel::Finish { slot },
            DeviceAction::Done(f) => DeviceActionModel::Done(f@),
        }
    }
}

/// The slots of a device and the batch that runs on them.
#[derive(Debug)]
pub struct Pipeline {
    busy: Vec<bool>,
    history: ScoreHistory,
    stride: u64,
    base_index: u64,
    total: u64,
    offset: u64,
    next_slot: usize,
    queue: VecDeque<usize>,
    best: Finding,
    stage: Stage,
}

/// The contents of a `Pipeline`.
#[verifier::ext_equal]
pub struct PipeModel {
    /// Which slots have been launched and not been waited for.
    pub busy: Seq<bool>,
    /// The recent scores.
    pub history: Seq<u32>,
    /// The most shuffles that one launch covers.
    pub stride: u64,
    /// The first index of the batch.
    pub base_index: u64,
    /// The number of shuffles of the batch.
    pub total: u64,
    /// How many of them have been launched.
    pub offset: u64,
    /// How many launches there were.
    pub next_slot: usize,
    /// The slots that this batch has running, longest running first.
    pub queue: Seq<usize>,
    /// The best finding so far.
    pub best: FindingModel,
    pub stage: Stage,
}

impl View for Pipeline {
    type V = PipeModel;

    closed spec fn view(&self) -> PipeModel {
        PipeModel {
            busy: self.busy@,
            history: self.history@,
            stride: self.stride,
            base_index: self.base_index,
            total: self.total,
            offset: self.offset,
            next_slot: self.next_slot,
            queue: self.queue@,
            best: self.best@,
            stage: self.stage,
        }
    }
}

/// The slot whose turn it is.
pub open spec fn slot_in_turn(m: PipeModel) -> usize {
    (m.next_slot as int % m.busy.len() as int) as usize
}

/// Asks for the launch of the next stretch on a slot.
pub open spec fn launching(m: PipeModel, slot: usize) -> (PipeModel, DeviceActionModel) {
    let left = m.total - m.offset;
    let count = if m.stride <= left {
        m.stride as u32
    } else {
        left as u32
    };
    (
        PipeModel { stage: Stage::Launching { slot, count }, ..m },
        DeviceActionModel::Launch {
            slot,
            base: (m.base_index + m.offset) as u64,
            count,
            min_threshold: prune_below(m.history) as u32,
        },
    )
}

/// Goes on with a batch: launches while a slot is free and something is left,
/// then waits for the slots in the order of their launches.
pub open spec fn advanced(m: PipeModel) -> (PipeModel, DeviceActionModel) {
    if m.offset < m.total && m.queue.len() < m.busy.len() {
        let slot = slot_in_turn(m);
        if m.busy[slot as int] {
            (
                PipeModel { stage: Stage::Reclaiming { slot }, ..m },
                DeviceActionModel::Finish { slot },
            )
        } else {
            launching(m, slot)
        }
    } else if m.queue.len() > 0 {
        let slot = m.queue[0];
        (
            PipeModel { stage: Stage::Draining { slot }, queue: m.queue.drop_first(), ..m },
            DeviceActionModel::Finish { slot },
        )
    } else {
        (PipeModel { stage: Stage::Idle, ..m }, DeviceActionModel::Done(m.best))
    }
}

/// Starts a batch; whatever was left of another is forgotten, but for slots
/// that are still busy.
pub open spec fn begun(m: PipeModel, base_index: u64, count: u32) -> (
    PipeModel,
    DeviceActionModel,
) {
    advanced(
        PipeModel {
            base_index,
            total: count as u64,
            offset: 0,
            next_slot: 0,
            queue: Seq::empty(),
            best: nothing_found(base_index),
            ..m
        },
    )
}

/// Takes note that a slot has been launched.
pub open spec fn launched_on(m: PipeModel, slot: usize, count: u32) -> (
    PipeModel,
    DeviceActionModel,
) {
    advanced(
        PipeModel {
            busy: m.busy.update(slot as int, true),
            queue: m.queue.push(slot),
            next_slot: (m.next_slot + 1) as usize,
            offset: (m.offset + count) as u64,
            ..m
        },
    )
}

/// Takes what a slot found; an equal score does not replace the best.
pub open spec fn collected(m: PipeModel, slot: usize, found: FindingModel) -> PipeModel {
    PipeModel {
        busy: m.busy.update(slot as int, false),
        best: if found.score > m.best.score {
            found
        } else {
            m.best
        },
        history: scores_with(m.history, found.score),
        ..m
    }
}

/// What every pipeline keeps: the queued slots are the last that had their
/// turn, in order, and all of them are busy.
pub open spec fn pipe_well_formed(m: PipeModel) -> bool {
    let n = m.busy.len();
    &&& 0 < n <= usize::MAX
    &&& m.stride > 0
    &&& m.offset <= m.total <= u32::MAX
    &&& m.base_index + m.total <= u64::MAX + 1
    &&& m.next_slot <= m.offset
    &&& m.queue.len() <= n
    &&& m.queue.len() <= m.next_slot
    &&& forall|i: int|
        0 <= i < m.queue.len() ==> #[trigger] m.queue[i] == (m.next_slot - m.queue.len() + i)
            % n as int
    &&& forall|i: int| 0 <= i < m.queue.len() ==> m.busy[(#[trigger] m.queue[i]) as int]
    &&& match m.stage {
        Stage::Idle => true,
        Stage::Launching { slot, count } => {
            &&& m.queue.len() < n
            &&& slot == slot_in_turn(m)
            &&& !m.busy[slot as int]
            &&& m.offset < m.total
            &&& count == (if m.stride <= m.total - m.offset {
                m.stride as int
            } else {
                m.total - m.offset
            })
        },
        Stage::Reclaiming { slot } => {
            &&& m.queue.len() < n
            &&& m.offset < m.total
            &&& slot == slot_in_turn(m)
        },
        Stage::Draining { slot } => {
            &&& m.queue.len() < n
            &&& m.queue.len() < m.next_slot
            &&& slot == (m.next_slot - m.queue.len() - 1) % n as int
        },
    }
}

/// Two numbers less than `n` apart leave different remainders.
proof fn lemma_remainders_differ(a: int, b: int, n: int)
    requires
        n > 0,
        a < b < a + n,
    ensures
        a % n != b % n,
{
    vstd::arithmetic::div_mod::lemma_fundamental_div_mod(a, n);
    vstd::arithmetic::div_mod::lemma_fundamental_div_mod(b, n);
    if a % n == b % n {
        let k = b / n - a / n;
        assert(b - a == n * k) by (nonlinear_arith)
            requires
                b == n * (b / n) + b % n,
                a == n * (a / n) + a % n,
                a % n == b % n,
                k == b / n - a / n,
        ;
        assert(false) by (nonlinear_arith)
            requires
                b - a == n * k,
                0 < b - a < n,
        ;
    }
}

/// Going on keeps the pipeline in order.
pub(crate) proof fn lemma_advanced_well_formed(m: PipeModel)
    requires
        pipe_well_formed(PipeModel { stage: Stage::Idle, ..m }),
    ensures
        pipe_well_formed(advanced(m).0),
{
    let n = m.busy.len() as int;
    vstd::arithmetic::div_mod::lemma_mod_bound(m.next_slot as int, n);
    if !(m.offset < m.total && m.queue.len() < m.busy.len()) && m.queue.len() > 0 {
        let rest = m.queue.drop_first();
        assert forall|i: int| 0 <= i < rest.len() implies #[trigger] rest[i] == (m.next_slot
            - rest.len() + i) % n by {
            assert(rest[i] == m.queue[i + 1]);
        }
        assert forall|i: int| 0 <= i < rest.len() implies m.busy[(#[trigger] rest[i]) as int] by {
            assert(rest[i] == m.queue[i + 1]);
        }
    }
}

pub(crate) proof fn lemma_launched_well_formed(m: PipeModel, slot: usize, count: u32)
    requires
        pipe_well_formed(m),
        m.stage == (Stage::Launching { slot, count }),
    ensures
        pipe_well_formed(launched_on(m, slot, count).0),
{
    let n = m.busy.len() as int;
    let next = PipeModel {
        busy: m.busy.update(slot as int, true),
        queue: m.queue.push(slot),
        next_slot: (m.next_slot + 1) as usize,
        offset: (m.offset + count) as u64,
        ..m
    };
    vstd::arithmetic::div_mod::lemma_mod_bound(m.next_slot as int, n);
    assert forall|i: int| 0 <= i < next.queue.len() implies #[trigger] next.queue[i] == (
    next.next_slot - next.queue.len() + i) % n by {
        if i < m.queue.len() {
            assert(next.queue[i] == m.queue[i]);
        }
    }
    assert forall|i: int| 0 <= i < next.queue.len() implies next.busy[(
    #[trigger] next.queue[i]) as int] by {
        if i < m.queue.len() {
            assert(m.busy[m.queue[i] as int]);
        }
    }
    lemma_advanced_well_formed(next);
}

pub(crate) proof fn lemma_collected_well_formed(m: PipeModel, slot: usize, found: FindingModel)
    requires
        pipe_well_formed(m),
        m.stage == (Stage::Reclaiming { slot }) || m.stage == (Stage::Draining { slot }),
    ensures
        pipe_well_formed(PipeModel { stage: Stage::Idle, ..collected(m, slot, found) }),
        (slot as int) < m.busy.len(),
{
    let n = m.busy.len() as int;
    vstd::arithmetic::div_mod::lemma_mod_bound(m.next_slot as int, n);
    vstd::arithmetic::div_mod::lemma_mod_bound(m.next_slot - m.queue.len() - 1, n);
    let next = collected(m, slot, found);
    assert forall|i: int| 0 <= i < next.queue.len() implies next.busy[(
    #[trigger] next.queue[i]) as int] by {
        let at = m.next_slot - m.queue.len() + i;
        assert(m.queue[i] == at % n);
        vstd::arithmetic::div_mod::lemma_mod_bound(at, n);
        if m.stage == (Stage::Reclaiming { slot }) {
            lemma_remainders_differ(at, m.next_slot as int, n);
        } else {
            lemma_remainders_differ(m.next_slot - m.queue.len() - 1, at, n);
        }
    }
}

impl Pipeline {
    /// A pipeline over idle slots, for launches of `blocks` times `threads`
    /// threads that each make `chunk_size` shuffles. `None` where there would
    /// be no slot or nothing to launch, or where a launch could not be counted.
    pub fn new(slots: usize, blocks: u32, threads: u32, chunk_size: u32) -> (r: Option<Self>)
        ensures
            r is Some <==> slots > 0 && 0 < blocks * threads * chunk_size <= u64::MAX,
            r matches Some(p) ==> pipe_well_formed(p@) && p@.busy == Seq::new(
                slots as nat,
                |i: int| false,
            ) && p@.history == Seq::<u32>::empty() && p@.stride == blocks * threads * chunk_size
                && p@.stage == Stage::Idle,
    {
        proof {
            assert(0 <= blocks * threads <= u32::MAX * u32::MAX) by (nonlinear_arith)
                requires
                    0 <= blocks <= u32::MAX,
                    0 <= threads <= u32::MAX,
            ;
        }
        let grid: u64 = blocks as u64 * threads as u64;
        let stride = match grid.checked_mul(chunk_size as u64) {
            Some(stride) => stride,
            None => return None,
        };
        if slots == 0 || stride == 0 {
            return None;
        }
        let mut busy: Vec<bool> = Vec::new();
        let mut i: usize = 0;
        while i < slots
            invariant
                i <= slots,
                busy@ == Seq::new(i as nat, |k: int| false),
            decreases slots - i,
        {
            busy.push(false);
            i = i + 1;
            proof {
                assert(busy@ =~= Seq::new(i as nat, |k: int| false));
            }
        }
        let best = Finding { score: 0, index: 0, arr: init_arr() };
        Some(
            Pipeline {
                busy,
                history: ScoreHistory::new(),
                stride,
                base_index: 0,
                total: 0,
                offset: 0,
                next_slot: 0,
                queue: VecDeque::new(),
                best,
                stage: Stage::Idle,
            },
        )
    }

    /// Starts a batch and says what to do first.
    pub fn begin(&mut self, base_index: u64, count: u32) -> (r: DeviceAction)
        requires
            pipe_well_formed(old(self)@),
            base_index + count <= u64::MAX + 1,
        ensures
            (final(self)@, r@) == begun(old(self)@, base_index, count),
            pipe_well_formed(final(self)@),
    {
        self.base_index = base_index;
        self.total = count as u64;
        self.offset = 0;
        self.next_slot = 0;
        self.queue = VecDeque::new();
        self.best = Finding { score: 0, index: base_index, arr: init_arr() };
        proof {
            assert(self.queue@ =~= Seq::empty());
            lemma_advanced_well_formed(self@);
        }
        self.advance()
    }

    /// Takes note that the launch that was asked for has been made.
    pub fn launched(&mut self) -> (r: DeviceAction)
        requires
            pipe_well_formed(old(self)@),
            old(self)@.stage is Launching,
        ensures
            old(self)@.stage matches Stage::Launching { slot, count } ==> (final(self)@, r@)
                == launched_on(old(self)@, slot, count),
            pipe_well_formed(final(self)@),
    {
        if let Stage::Launching { slot, count } = self.stage {
            proof {
                lemma_launched_well_formed(self@, slot, count);
                vstd::arithmetic::div_mod::lemma_mod_bound(
                    self.next_slot as int,
                    self.busy@.len() as int,
                );
            }
            self.busy.set(slot, true);
            self.queue.push_back(slot);
            self.next_slot = self.next_slot + 1;
            self.offset = self.offset + count as u64;
        }
        self.advance()
    }

    /// Takes what the slot that was waited for has found.
    pub fn finished(&mut self, found: Finding) -> (r: DeviceAction)
        requires
            pipe_well_formed(old(self)@),
            old(self)@.stage is Reclaiming || old(self)@.stage is Draining,
        ensures
            old(self)@.stage matches Stage::Reclaiming { slot } ==> (final(self)@, r@) == launching(
                collected(old(self)@, slot, found@),
                slot,
            ),
            old(self)@.stage matches Stage::Draining { slot } ==> (final(self)@, r@) == advanced(
                collected(old(self)@, slot, found@),
            ),
            pipe_well_formed(final(self)@),
    {
        match self.stage {
            Stage::Reclaiming { slot } => {
                proof {
                    lemma_collected_well_formed(self@, slot, found@);
                }
                self.collect(slot, found);
                self.launch(slot)
            },
            Stage::Draining { slot } => {
                proof {
                    lemma_collected_well_formed(self@, slot, found@);
                    lemma_advanced_well_formed(collected(self@, slot, found@));
                }
                self.collect(slot, found);
                self.advance()
            },
            _ => self.advance(),
        }
    }

    fn collect(&mut self, slot: usize, found: Finding)
        requires
            (slot as int) < old(self)@.busy.len(),
        ensures
            final(self)@ == collected(old(self)@, slot, found@),
    {
        self.busy.set(slot, false);
        if found.score > self.best.score {
            self.best = found;
        }
        self.history.record(found.score);
    }

    fn launch(&mut self, slot: usize) -> (r: DeviceAction)
        requires
            old(self)@.offset < old(self)@.total <= u32::MAX,
            old(self)@.base_index + old(self)@.total <= u64::MAX + 1,
        ensures
            (final(self)@, r@) == launching(old(self)@, slot),
    {
        let left = self.total - self.offset;
        let count = if self.stride <= left {
            self.stride as u32
        } else {
            left as u32
        };
        self.stage = Stage::Launching { slot, count };
        DeviceAction::Launch {
            slot,
            base: self.base_index + self.offset,
            count,
            min_threshold: self.history.min_threshold(),
        }
    }

    fn advance(&mut self) -> (r: DeviceAction)
        requires
            old(self)@.busy.len() > 0,
            old(self)@.offset <= old(self)@.total <= u32::MAX,
            old(self)@.base_index + old(self)@.total <= u64::MAX + 1,
        ensures
            (final(self)@, r@) == advanced(old(self)@),
    {
        if self.offset < self.total && self.queue.len() < self.busy.len() {
            let slot = self.next_slot % self.busy.len();
            if self.busy[slot] {
                self.stage = Stage::Reclaiming { slot };
                DeviceAction::Finish { slot }
            } else {
                self.launch(slot)
            }
        } else {
            let ghost before = self.queue@;
            match self.queue.pop_front() {
                Some(slot) => {
                    proof {
                        assert(self.queue@ =~= before.drop_first());
                    }
                    self.stage = Stage::Draining { slot };
                    DeviceAction::Finish { slot }
                },
                None => {
                    self.stage = Stage::Idle;
                    DeviceAction::Done(self.best)
                },
            }
        }
    }
}

/// A user names a device by its number, which has to be one of those there are.
pub proof fn law_device_is_one_of_those_there_are(line: Seq<char>, count: i32, n: i32)
    ensures
        named_device(line, count) == Some(n) <==> spelled_i32(trimmed(line)) == Some(n) && 0 <= n
            < count,
{
}

/// A sum grows by what is appended, and starts at zero.
pub proof fn law_sum_grows(scores: Seq<u32>, score: u32)
    ensures
        sum_of(Seq::empty()) == 0,
        sum_of(scores.push(score)) == sum_of(scores) + score,
{
    assert(scores.push(score).drop_last() =~= scores);
}

/// The window holds the last scores other than zero, at most 32 of them, newest
/// last; only the oldest gives way.
pub proof fn law_window_holds_the_last_scores(scores: Seq<u32>, score: u32, i: int)
    requires
        scores.len() <= 32,
    ensures
        scores_with(scores, 0) == scores,
        score > 0 ==> {
            let after = scores_with(scores, score);
            &&& after.len() == if scores.len() < 32 {
                scores.len() + 1
            } else {
                32
            }
            &&& after.last() == score
            &&& 0 <= i < after.len() - 1 ==> after[i] == scores[scores.len() - (after.len() - 1)
                + i]
        },
{
}

/// Nothing is pruned before eight scores are known. After that the threshold
/// lies one below the whole part of their average, and never below zero.
pub proof fn law_pruning_stays_below_the_average(scores: Seq<u32>)
    ensures
        scores.len() < 8 ==> prune_below(scores) == 0,
        scores.len() >= 8 ==> {
            let t = prune_below(scores);
            &&& t >= 0
            &&& t > 0 ==> (t + 1) * scores.len() <= sum_of(scores)
            &&& sum_of(scores) < (t + 2) * scores.len()
        },
{
    if scores.len() >= 8 {
        let sum = sum_of(scores) as int;
        let n = scores.len() as int;
        let average = sum / n;
        let t = prune_below(scores);
        vstd::arithmetic::div_mod::lemma_fundamental_div_mod(sum, n);
        vstd::arithmetic::div_mod::lemma_mod_bound(sum, n);
        assert(0 <= average && average * n <= sum < (average + 1) * n) by (nonlinear_arith)
            requires
                sum == n * average + sum % n,
                0 <= sum % n < n,
                sum >= 0,
        ;
        assert(sum < (t + 2) * n) by (nonlinear_arith)
            requires
                sum < (average + 1) * n,
                average <= t + 1,
                n > 0,
        ;
    }
}

/// A launch that scored is read from the block that its word names: the index
/// that this block left, and its stretch of 25 numbers. One that did not score
/// has found nothing, which stands as the numbers in order at the first index.
pub proof fn law_finding_is_that_of_the_block(
    score: u32,
    block: u32,
    indices: Seq<u64>,
    arrays: Seq<u8>,
    base: u64,
    k: int,
)
    requires
        block < indices.len(),
        block * 25 + 25 <= arrays.len(),
        0 <= k < 25,
    ensures
        ({
            let packed = (score * 0x1_0000_0000 + block) as u64;
            let found = found_by(packed, indices, arrays, base);
            &&& found.score == score
            &&& found.arr.len() == 25
            &&& score > 0 ==> found.index == indices[block as int] && found.arr[k]
                == arrays[block * 25 + k]
            &&& score == 0 ==> found.index == base && found.arr[k] == k + 1
        }),
{
    let packed = (score * 0x1_0000_0000 + block) as u64;
    assert(packed == score * 0x1_0000_0000 + block);
    assert(packed as int / 0x1_0000_0000 == score);
    assert(packed as int % 0x1_0000_0000 == block);
}

/// What is asked of a device is what the action says.
pub proof fn law_actions_say_what_is_asked(action: DeviceAction)
    ensures
        action matches DeviceAction::Launch { slot, base, count, min_threshold } ==> action@ == (
        DeviceActionModel::Launch { slot, base, count, min_threshold }),
        action matches DeviceAction::Finish { slot } ==> action@ == (DeviceActionModel::Finish {
            slot,
        }),
        action matches DeviceAction::Done(found) ==> action@ == DeviceActionModel::Done(
            FindingModel { score: found.score, index: found.index, arr: found.arr@ },
        ),
{
}

/// What a slot found is the best so far only where it scores higher than that;
/// the slot is then idle, its score is known, and nothing else changes.
pub proof fn law_findings_are_collected(m: PipeModel, slot: usize, found: FindingModel, i: int)
    requires
        (slot as int) < m.busy.len(),
    ensures
        ({
            let after = collected(m, slot, found);
            &&& found.score > m.best.score ==> after.best == found
            &&& found.score <= m.best.score ==> after.best == m.best
            &&& after.busy.len() == m.busy.len()
            &&& !after.busy[slot as int]
            &&& 0 <= i < m.busy.len() && i != slot ==> after.busy[i] == m.busy[i]
            &&& after.history == scores_with(m.history, found.score)
            &&& after.offset == m.offset && after.total == m.total && after.base_index
                == m.base_index && after.queue == m.queue && after.next_slot == m.next_slot
                && after.stride == m.stride && after.stage == m.stage
        }),
{
}

/// A launch is asked for at the first index that has not been launched, for a
/// full stride or what is left, under the threshold of the recent scores.
pub proof fn law_launch_is_for_the_next_stretch(m: PipeModel, slot: usize)
    requires
        pipe_well_formed(PipeModel { stage: Stage::Idle, ..m }),
        m.offset < m.total,
    ensures
        launching(m, slot).1 matches DeviceActionModel::Launch {
            slot: on,
            base,
            count,
            min_threshold,
        } && {
            &&& on == slot
            &&& base == m.base_index + m.offset
            &&& 0 < count <= m.stride
            &&& count == m.stride || m.offset + count == m.total
            &&& m.offset + count <= m.total
            &&& min_threshold == prune_below(m.history)
        },
        launching(m, slot).0 == (PipeModel { stage: launching(m, slot).0.stage, ..m }),
{
    law_pruning_stays_below_the_average(m.history);
    lemma_prune_fits(m.history);
}

proof fn lemma_sum_bound(scores: Seq<u32>)
    ensures
        sum_of(scores) <= scores.len() * u32::MAX,
    decreases scores.len(),
{
    if scores.len() > 0 {
        lemma_sum_bound(scores.drop_last());
    }
}

proof fn lemma_prune_fits(scores: Seq<u32>)
    ensures
        0 <= prune_below(scores) <= u32::MAX,
{
    lemma_sum_bound(scores);
    if scores.len() >= 8 {
        let sum = sum_of(scores) as int;
        let n = scores.len() as int;
        assert(0 <= sum / n <= u32::MAX) by (nonlinear_arith)
            requires
                n > 0,
                0 <= sum <= n * u32::MAX,
        ;
    }
}

/// A launch is only asked for on an idle slot, and it covers what follows the
/// launches before it.
pub proof fn law_launches_tile(m: PipeModel)
    requires
        pipe_well_formed(m),
        m.stage is Launching,
    ensures
        m.stage matches Stage::Launching { slot, count } ==> {
            &&& !m.busy[slot as int]
            &&& 0 < count <= m.stride
            &&& m.offset + count <= m.total
            &&& count < m.stride ==> m.offset + count == m.total
            &&& launched_on(m, slot, count).0.offset == m.offset + count
        },
{
}

/// A batch is only done when all of it has been launched and every slot that
/// it launched has been waited for.
pub proof fn law_done_is_complete(m: PipeModel)
    requires
        pipe_well_formed(PipeModel { stage: Stage::Idle, ..m }),
        advanced(m).1 is Done,
    ensures
        m.offset == m.total,
        m.queue.len() == 0,
        advanced(m).1 == DeviceActionModel::Done(m.best),
{
}

} // verus!
