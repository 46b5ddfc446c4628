//! What the window shows, and what its buttons do.

use crate::config::Config;
use crate::device::sum_of;
use crate::history::{saved_models, BestModel, SavedArray, SavedModel};
use crate::settings::{edit_of, SettingsPanel};
use crate::text::{decimal, push_decimal};
use crate::worker::{
    copy_saved, fresh_stats, same_entry, ticked, GuiStatsInner, Stamp, StatsModel, TickModel, TickRecord,
    WorkerCmd,
};
use vstd::prelude::*;
use vstd::string::*;

verus! {

/// Nanoseconds in a second.
pub const SECOND: u64 = 1_000_000_000;

/// From how many correct positions on a score is shown as a good one.
pub const GOOD_SCORE: u32 = 20;

/// The pages of the window.
#[derive(Debug, Clone, Copy, PartialEq, Eq, Structural)]
pub enum Tab {
    Dashboard,
    Arrays,
    Settings,
}

/// Sort order for the array history.
#[derive(Debug, Clone, Copy, PartialEq, Eq, Structural)]
pub enum ArraySort {
    Recent,
    Highest,
}

// ── Sorting the history ──────────────────────────────────────────────────────

/// Whether the sort order puts `a`, which stands at `i`, before `b`, which
/// stands at `j`. Where it does not tell them apart, they keep their order.
pub open spec fn is_before(sort: ArraySort, a: SavedModel, i: int, b: SavedModel, j: int) -> bool {
    match sort {
        ArraySort::Recent => {
            ||| a.timestamp > b.timestamp
            ||| a.timestamp == b.timestamp && a.id > b.id
            ||| a.timestamp == b.timestamp && a.id == b.id && i < j
        },
        ArraySort::Highest => {
            ||| a.correct > b.correct
            ||| a.correct == b.correct && a.timestamp > b.timestamp
            ||| a.correct == b.correct && a.timestamp == b.timestamp && i < j
        },
    }
}

/// Whether the entries at the given places stand in the sort order.
pub open spec fn is_sorted(sort: ArraySort, entries: Seq<SavedModel>, order: Seq<usize>) -> bool {
    forall|p: int, q: int|
        #![trigger order[p], order[q]]
        0 <= p < q < order.len() ==> is_before(
            sort,
            entries[order[p] as int],
            order[p] as int,
            entries[order[q] as int],
            order[q] as int,
        )
}

/// Whether each of the first `n` places is named once, and no other.
pub open spec fn names_all(order: Seq<usize>, n: nat) -> bool {
    &&& order.len() == n
    &&& forall|p: int| 0 <= p < order.len() ==> #[trigger] order[p] < n
    &&& forall|p: int, q: int| 0 <= p < q < order.len() ==> order[p] != order[q]
    &&& forall|i: usize| i < n ==> #[trigger] order.contains(i)
}

fn comes_before(sort: ArraySort, entries: &Vec<SavedArray>, i: usize, j: usize) -> (r: bool)
    requires
        i < entries.len(),
        j < entries.len(),
    ensures
        r == is_before(
            sort,
            saved_models(entries@)[i as int],
            i as int,
            saved_models(entries@)[j as int],
            j as int,
        ),
{
    let a = &entries[i];
    let b = &entries[j];
    match sort {
        ArraySort::Recent => if a.timestamp != b.timestamp {
            a.timestamp > b.timestamp
        } else if a.id != b.id {
            a.id > b.id
        } else {
            i < j
        },
        ArraySort::Highest => if a.correct != b.correct {
            a.correct > b.correct
        } else if a.timestamp != b.timestamp {
            a.timestamp > b.timestamp
        } else {
            i < j
        },
    }
}

/// The places of the entries in the order in which they are listed.
pub fn display_order(entries: &Vec<SavedArray>, sort: ArraySort) -> (r: Vec<usize>)
    ensures
        names_all(r@, entries@.len()),
        is_sorted(sort, saved_models(entries@), r@),
{
    let ghost models = saved_models(entries@);
    let mut order: Vec<usize> = Vec::new();
    let mut i: usize = 0;
    while i < entries.len()
        invariant
            i <= entries.len(),
            models == saved_models(entries@),
            names_all(order@, i as nat),
            is_sorted(sort, models, order@),
        decreases entries.len() - i,
    {
        let mut at: usize = 0;
        while at < order.len() && comes_before(sort, entries, order[at], i)
            invariant
                at <= order.len(),
                i < entries.len(),
                models == saved_models(entries@),
                names_all(order@, i as nat),
                forall|p: int|
                    0 <= p < at ==> is_before(
                        sort,
                        models[#[trigger] order@[p] as int],
                        order@[p] as int,
                        models[i as int],
                        i as int,
                    ),
            decreases order.len() - at,
        {
            at = at + 1;
        }
        let ghost before = order@;
        order.insert(at, i);
        proof {
            let after = order@;
            assert(after == before.insert(at as int, i));
            assert forall|p: int, q: int|
                #![trigger after[p], after[q]]
                0 <= p < q < after.len() implies is_before(
                sort,
                models[after[p] as int],
                after[p] as int,
                models[after[q] as int],
                after[q] as int,
            ) by {
                let p0 = if p < at { p } else { p - 1 };
                let q0 = if q < at { q } else { q - 1 };
                if p != at {
                    assert(after[p] == before[p0]);
                }
                if q != at {
                    assert(after[q] == before[q0]);
                }
                if p == at {
                    // the rest follows the first entry that does not precede the new one
                    let first = before[at as int];
                    if q0 != at {
                        assert(is_before(
                            sort,
                            models[first as int],
                            first as int,
                            models[before[q0] as int],
                            before[q0] as int,
                        ));
                    }
                }
            }
            assert forall|k: usize| k < i + 1 implies #[trigger] after.contains(k) by {
                if k == i {
                    assert(after[at as int] == i);
                } else {
                    assert(before.contains(k));
                    let p = choose|p: int| 0 <= p < before.len() && before[p] == k;
                    if p < at {
                        assert(after[p] == k);
                    } else {
                        assert(after[p + 1] == k);
                    }
                }
            }
        }
        i = i + 1;
    }
    order
}

/// No two lists of places are both sorted and complete: the order in which the
/// entries are listed is determined by the sort order.
pub proof fn law_display_order_is_determined(
    sort: ArraySort,
    entries: Seq<SavedModel>,
    a: Seq<usize>,
    b: Seq<usize>,
)
    requires
        names_all(a, entries.len()),
        names_all(b, entries.len()),
        is_sorted(sort, entries, a),
        is_sorted(sort, entries, b),
    ensures
        a == b,
{
    assert forall|p: int| 0 <= p < a.len() implies a[p] == b[p] by {
        lemma_same_place(sort, entries, a, b, p);
    }
    assert(a =~= b);
}

proof fn lemma_same_place(
    sort: ArraySort,
    entries: Seq<SavedModel>,
    a: Seq<usize>,
    b: Seq<usize>,
    p: int,
)
    requires
        names_all(a, entries.len()),
        names_all(b, entries.len()),
        is_sorted(sort, entries, a),
        is_sorted(sort, entries, b),
        0 <= p < a.len(),
    ensures
        a[p] == b[p],
    decreases p,
{
    assert forall|k: int| 0 <= k < p implies a[k] == b[k] by {
        lemma_same_place(sort, entries, a, b, k);
    }
    if a[p] != b[p] {
        assert(b.contains(a[p]));
        let q = choose|q: int| 0 <= q < b.len() && b[q] == a[p];
        assert(a.contains(b[p]));
        let s = choose|s: int| 0 <= s < a.len() && a[s] == b[p];
        if q < p {
            assert(a[q] == b[q]);
        }
        if s < p {
            assert(a[s] == b[s]);
        }
        assert(p < q && p < s);
        assert(is_before(
            sort,
            entries[b[p] as int],
            b[p] as int,
            entries[b[q] as int],
            b[q] as int,
        ));
        assert(is_before(
            sort,
            entries[a[p] as int],
            a[p] as int,
            entries[a[s] as int],
            a[s] as int,
        ));
    }
}

/// A complete list names every entry, and none twice.
pub proof fn law_lists_name_every_entry(order: Seq<usize>, n: nat, i: usize)
    requires
        names_all(order, n),
        i < n,
    ensures
        order.len() == n,
        exists|p: int|
            0 <= p < order.len() && #[trigger] order[p] == i && forall|q: int|
                0 <= q < order.len() && q != p ==> #[trigger] order[q] != i,
{
    assert(order.contains(i));
    let p = choose|p: int| 0 <= p < order.len() && order[p] == i;
    assert(0 <= p < order.len() && order[p] == i);
    assert forall|q: int| 0 <= q < order.len() && q != p implies #[trigger] order[q] != i by {}
}

/// A list by time runs from the latest to the earliest, and of one second from
/// the highest id to the lowest. A list by score runs from the highest to the
/// lowest, and of one score from the latest to the earliest. What that does not
/// tell apart keeps its order.
pub proof fn law_lists_run_down(
    sort: ArraySort,
    entries: Seq<SavedModel>,
    order: Seq<usize>,
    p: int,
    q: int,
)
    requires
        is_sorted(sort, entries, order),
        0 <= p < q < order.len(),
    ensures
        ({
            let a = entries[order[p] as int];
            let b = entries[order[q] as int];
            &&& sort == ArraySort::Recent ==> {
                &&& a.timestamp >= b.timestamp
                &&& a.timestamp == b.timestamp ==> a.id >= b.id
                &&& a.timestamp == b.timestamp && a.id == b.id ==> order[p] < order[q]
            }
            &&& sort == ArraySort::Highest ==> {
                &&& a.correct >= b.correct
                &&& a.correct == b.correct ==> a.timestamp >= b.timestamp
                &&& a.correct == b.correct && a.timestamp == b.timestamp ==> order[p] < order[q]
            }
        }),
{
}

// ── The strip of past scores ─────────────────────────────────────────────────

/// From which score on a cell of the strip is highlighted: two above the
/// average, rounded down.
pub open spec fn threshold_of(scores: Seq<u32>) -> u32 {
    if scores.len() == 0 {
        u32::MAX
    } else {
        let mark = sum_of(scores) / scores.len() + 2;
        if mark > u32::MAX {
            u32::MAX
        } else {
            mark as u32
        }
    }
}

/// The mark from which on a score is highlighted is the first whole number that
/// lies more than one above the average: two below it are not above the
/// average, one below it is. It stops at the largest number.
pub proof fn law_mark_is_two_above_the_average(scores: Seq<u32>)
    requires
        scores.len() > 0,
    ensures
        threshold_of(scores) < u32::MAX ==> (threshold_of(scores) - 2) * scores.len() <= sum_of(
            scores,
        ) < (threshold_of(scores) - 1) * scores.len(),
        threshold_of(scores) == u32::MAX ==> (u32::MAX - 2) * scores.len() <= sum_of(scores),
        threshold_of(Seq::empty()) == u32::MAX,
{
    let sum = sum_of(scores) as int;
    let n = scores.len() as int;
    let average = sum / n;
    vstd::arithmetic::div_mod::lemma_fundamental_div_mod(sum, n);
    vstd::arithmetic::div_mod::lemma_mod_bound(sum, n);
    assert(average * n <= sum < (average + 1) * n) by (nonlinear_arith)
        requires
            sum == n * average + sum % n,
            0 <= sum % n < n,
    ;
    if threshold_of(scores) == u32::MAX {
        assert((u32::MAX - 2) * n <= average * n) by (nonlinear_arith)
            requires
                u32::MAX - 2 <= average,
                n > 0,
        ;
    }
}

/// From which score on a cell of the strip is highlighted.
pub fn highlight_threshold(scores: &Vec<u32>) -> (r: u32)
    ensures
        r == threshold_of(scores@),
{
    if scores.len() == 0 {
        return u32::MAX;
    }
    let mut sum: u128 = 0;
    let mut i: usize = 0;
    while i < scores.len()
        invariant
            i <= scores.len(),
            sum == sum_of(scores@.take(i as int)),
            sum <= i * u32::MAX,
        decreases scores.len() - i,
    {
        assert(scores@.take(i + 1).drop_last() =~= scores@.take(i as int));
        sum = sum + scores[i] as u128;
        i = i + 1;
    }
    assert(scores@.take(i as int) =~= scores@);
    let average = sum / scores.len() as u128;
    if average > (u32::MAX - 2) as u128 {
        u32::MAX
    } else {
        average as u32 + 2
    }
}

/// Whether a cell of the strip is highlighted.
pub fn is_highlighted(score: u32, threshold: u32) -> (r: bool)
    ensures
        r == (score >= threshold && score > 0),
{
    score >= threshold && score > 0
}

/// Whether a score is shown as a good one.
pub fn is_good(correct: u32) -> (r: bool)
    ensures
        r == (correct >= GOOD_SCORE),
        r == (correct >= 20),
{
    correct >= GOOD_SCORE
}

// ── Numbers and captions ─────────────────────────────────────────────────────

/// The unit in which a large number is shown.
#[derive(Debug, Clone, Copy, PartialEq, Eq, Structural)]
pub enum Magnitude {
    Ones,
    Thousands,
    Millions,
    Billions,
    Trillions,
}

/// How many ones a unit has.
pub open spec fn unit(m: Magnitude) -> nat {
    match m {
        Magnitude::Ones => 1,
        Magnitude::Thousands => 1_000,
        Magnitude::Millions => 1_000_000,
        Magnitude::Billions => 1_000_000_000,
        Magnitude::Trillions => 1_000_000_000_000,
    }
}

/// Each unit is a thousand of the one below it.
pub proof fn law_units_are_thousands()
    ensures
        unit(Magnitude::Ones) == 1,
        unit(Magnitude::Thousands) == 1000 * unit(Magnitude::Ones),
        unit(Magnitude::Millions) == 1000 * unit(Magnitude::Thousands),
        unit(Magnitude::Billions) == 1000 * unit(Magnitude::Millions),
        unit(Magnitude::Trillions) == 1000 * unit(Magnitude::Billions),
{
}

impl Magnitude {
    /// The largest unit that is not larger than the number.
    pub fn of(n: u64) -> (r: Self)
        ensures
            r != Magnitude::Ones ==> unit(r) <= n,
            forall|m: Magnitude| unit(m) <= n ==> #[trigger] unit(m) <= unit(r),
    {
        if n >= 1_000_000_000_000 {
            Magnitude::Trillions
        } else if n >= 1_000_000_000 {
            Magnitude::Billions
        } else if n >= 1_000_000 {
            Magnitude::Millions
        } else if n >= 1_000 {
            Magnitude::Thousands
        } else {
            Magnitude::Ones
        }
    }
}

/// A stretch of time in hours, minutes and seconds.
pub open spec fn uptime_text(secs: nat) -> Seq<char> {
    decimal(secs / 3600) + "h "@ + decimal((secs % 3600) / 60) + "m "@ + decimal(secs % 60) + "s"@
}

/// A stretch of time in hours, minutes and seconds.
pub fn format_uptime(secs: u64) -> (r: String)
    ensures
        r@ == uptime_text(secs as nat),
        r@ == decimal((secs / 3600) as nat) + "h "@ + decimal(((secs % 3600) / 60) as nat) + "m "@
            + decimal((secs % 60) as nat) + "s"@,
{
    let mut out = String::new();
    push_decimal(&mut out, secs / 3600);
    out.append("h ");
    push_decimal(&mut out, (secs % 3600) / 60);
    out.append("m ");
    push_decimal(&mut out, secs % 60);
    out.append("s");
    proof {
        assert(out@ =~= uptime_text(secs as nat));
    }
    out
}

/// The caption of the page of saved arrays: with their number, if there are any.
pub fn arrays_label(count: usize) -> (r: String)
    ensures
        r@ == if count == 0 {
            "Arrays"@
        } else {
            "Arrays ("@ + decimal(count as nat) + ")"@
        },
{
    if count == 0 {
        return "Arrays".to_owned();
    }
    let mut out = "Arrays (".to_owned();
    push_decimal(&mut out, count as u64);
    out.append(")");
    out
}

// ── Time ─────────────────────────────────────────────────────────────────────

/// For how long the worker has run; it pauses while the worker is stopped.
/// Times are nanoseconds of a clock of the caller's; one that runs back is
/// taken to stand still.
#[derive(Debug)]
pub struct Uptime {
    secs: u64,
    was_running: bool,
    run_started: Option<u64>,
    seen: u64,
}

/// The contents of an `Uptime`.
#[verifier::ext_equal]
pub struct UptimeModel {
    /// Whole seconds of the runs that are over.
    pub secs: nat,
    /// When the present run started, if there is one.
    pub run_started: Option<nat>,
    /// The last time that was observed.
    pub seen: nat,
}

/// The time that it is by a clock that never runs back.
pub open spec fn latest(seen: nat, now: nat) -> nat {
    if now < seen {
        seen
    } else {
        now
    }
}

/// Whole seconds of running up to a time.
pub open spec fn run_secs(m: UptimeModel, now: nat) -> nat {
    m.secs + match m.run_started {
        Some(t) => ((latest(m.seen, now) - t) / SECOND as int) as nat,
        None => 0,
    }
}

/// The uptime after the worker was seen running, or stopped, at a time.
pub open spec fn observed(m: UptimeModel, running: bool, now: nat) -> UptimeModel {
    let now = latest(m.seen, now);
    if running && m.run_started is None {
        UptimeModel { run_started: Some(now), seen: now, ..m }
    } else if !running && m.run_started is Some {
        UptimeModel { secs: run_secs(m, now), run_started: None, seen: now }
    } else {
        UptimeModel { seen: now, ..m }
    }
}

/// What holds of every uptime: the runs lie in the past.
pub open spec fn uptime_well_formed(m: UptimeModel) -> bool {
    match m.run_started {
        Some(t) => m.secs * SECOND <= t <= m.seen,
        None => m.secs * SECOND <= m.seen,
    }
}

impl View for Uptime {
    type V = UptimeModel;

    closed spec fn view(&self) -> UptimeModel {
        UptimeModel {
            secs: self.secs as nat,
            run_started: match self.run_started {
                Some(t) => Some(t as nat),
                None => None,
            },
            seen: self.seen as nat,
        }
    }
}

impl Uptime {
    #[verifier::type_invariant]
    spec fn holds(self) -> bool {
        &&& uptime_well_formed(self@)
        &&& self.was_running == (self.run_started is Some)
    }

    /// No uptime yet.
    pub fn new() -> (r: Self)
        ensures
            r@ == (UptimeModel { secs: 0, run_started: None, seen: 0 }),
    {
        Uptime { secs: 0, was_running: false, run_started: None, seen: 0 }
    }

    /// Whole seconds of running up to now.
    pub fn secs(&self, now: u64) -> (r: u64)
        ensures
            r == run_secs(self@, now as nat),
    {
        proof {
            use_type_invariant(self);
        }
        let now = if now < self.seen {
            self.seen
        } else {
            now
        };
        match self.run_started {
            Some(t) => {
                let elapsed = (now - t) / SECOND;
                assert(self.secs * SECOND <= t && elapsed * SECOND <= now - t);
                self.secs + elapsed
            },
            None => self.secs,
        }
    }

    /// Takes note that the worker is running, or stopped, now.
    pub fn observe(&mut self, running: bool, now: u64)
        ensures
            final(self)@ == observed(old(self)@, running, now as nat),
    {
        proof {
            use_type_invariant(&*self);
        }
        let secs = self.secs(now);
        let now = if now < self.seen {
            self.seen
        } else {
            now
        };
        let ghost before = self@;
        proof {
            law_uptime_is_past(before, now as nat);
        }
        if running && !self.was_running {
            *self =
            Uptime { secs: self.secs, was_running: true, run_started: Some(now), seen: now };
        } else if !running && self.was_running {
            *self = Uptime { secs, was_running: false, run_started: None, seen: now };
        } else {
            *self =
            Uptime {
                secs: self.secs,
                was_running: self.was_running,
                run_started: self.run_started,
                seen: now,
            };
        }
    }
}

/// The uptime is never more than the time that has passed.
pub proof fn law_uptime_is_past(m: UptimeModel, now: nat)
    requires
        uptime_well_formed(m),
    ensures
        run_secs(m, now) * SECOND <= latest(m.seen, now),
{
    match m.run_started {
        Some(t) => {
            let elapsed = (latest(m.seen, now) - t) / SECOND as int;
            assert(elapsed * SECOND <= latest(m.seen, now) - t);
            assert((m.secs + elapsed) * SECOND == m.secs * SECOND + elapsed * SECOND)
                by (nonlinear_arith);
        },
        None => {},
    }
}

/// While the worker is stopped, the uptime stands still; while it runs, it
/// grows with the clock.
pub proof fn law_uptime_pauses(m: UptimeModel, t1: nat, t2: nat)
    requires
        uptime_well_formed(m),
        m.seen <= t1 <= t2,
    ensures
        m.run_started is None ==> run_secs(m, t1) == run_secs(m, t2),
        m.run_started matches Some(t) ==> run_secs(m, t2) == m.secs + (t2 - t) / SECOND as int,
        run_secs(m, t1) <= run_secs(m, t2),
{
}

/// Looking at the worker changes nothing of the uptime at that moment.
pub proof fn law_observing_keeps_uptime(m: UptimeModel, running: bool, now: nat)
    requires
        uptime_well_formed(m),
    ensures
        run_secs(observed(m, running, now), now) == run_secs(m, now),
        uptime_well_formed(observed(m, running, now)),
{
    law_uptime_is_past(m, now);
}

/// A run that is seen to start at one time and to stop at a later one adds the
/// whole seconds between the two to the uptime; before it starts and after it
/// has stopped the uptime stands still.
#[verifier::spinoff_prover]
pub proof fn law_a_run_counts_its_seconds(m: UptimeModel, t1: nat, t2: nat, t3: nat)
    requires
        uptime_well_formed(m),
        m.run_started is None,
        m.seen <= t1 <= t2 <= t3,
    ensures
        ({
            let before = run_secs(m, t1);
            let during = observed(m, true, t1);
            let after = observed(during, false, t2);
            &&& run_secs(during, t2) == before + (t2 - t1) / 1_000_000_000
            &&& run_secs(observed(during, true, t2), t3) == before + (t3 - t1) / 1_000_000_000
            &&& run_secs(after, t3) == before + (t2 - t1) / 1_000_000_000
            &&& run_secs(observed(m, false, t1), t3) == before
        }),
{
}

/// A clock that runs back is taken to stand still.
pub proof fn law_clock_never_runs_back(seen: nat, now: nat)
    ensures
        latest(seen, now) >= seen,
        latest(seen, now) >= now,
        latest(seen, now) == seen || latest(seen, now) == now,
{
}

/// The hours, minutes and seconds of an uptime.
#[verifier::spinoff_prover]
pub proof fn law_uptime_is_written_out(h: nat, m: nat, s: nat)
    requires
        m < 60,
        s < 60,
    ensures
        uptime_text(h * 3600 + m * 60 + s) == decimal(h) + "h "@ + decimal(m) + "m "@ + decimal(s)
            + "s"@,
{
    let secs = h * 3600 + m * 60 + s;
    assert(secs / 3600 == h && secs % 3600 == m * 60 + s);
    assert((m * 60 + s) / 60 == m);
    assert(secs % 60 == s);
}

/// Counts seconds as they are noticed: at least one passes between counts.
#[derive(Debug)]
pub struct SecondCount {
    count: u64,
    last: u64,
}

/// The contents of a `SecondCount`.
#[verifier::ext_equal]
pub struct SecondModel {
    pub count: nat,
    pub last: nat,
}

impl View for SecondCount {
    type V = SecondModel;

    closed spec fn view(&self) -> SecondModel {
        SecondModel { count: self.count as nat, last: self.last as nat }
    }
}

impl SecondCount {
    #[verifier::type_invariant]
    spec fn holds(self) -> bool {
        self.count * SECOND <= self.last
    }

    /// Starts counting.
    pub fn new(now: u64) -> (r: Self)
        ensures
            r@ == (SecondModel { count: 0, last: now as nat }),
    {
        SecondCount { count: 0, last: now }
    }

    /// How many seconds were counted.
    pub fn count(&self) -> (r: u64)
        ensures
            r == self@.count,
    {
        self.count
    }

    /// Counts a second if one has passed since the last one was counted.
    pub fn tick(&mut self, now: u64)
        ensures
            final(self)@ == if now >= old(self)@.last + 1_000_000_000 {
                SecondModel { count: old(self)@.count + 1, last: now as nat }
            } else {
                old(self)@
            },
    {
        proof {
            use_type_invariant(&*self);
        }
        if now >= self.last && now - self.last >= SECOND {
            let count = self.count + 1;
            *self = SecondCount { count, last: now };
        }
    }
}

// ── The window ───────────────────────────────────────────────────────────────

/// What one frame shows of the worker.
#[derive(Debug)]
pub struct Snapshot {
    /// Score and best array of each tick, newest last.
    pub ticks: Vec<(u32, [u8; 25])>,
    pub total_shuffles: u64,
    pub shuffles_per_sec: u64,
    /// Best score this session (resets on app restart).
    pub session_best: u32,
    pub session_best_arr: [u8; 25],
    /// All-time best ever recorded, persisted across sessions.
    pub all_time_best: u32,
    pub all_time_best_arr: [u8; 25],
    pub status: String,
    pub nickname: String,
    pub seed_str: String,
    pub running: bool,
    pub saved_arrays: Vec<SavedArray>,
}

/// The contents of a `Snapshot`.
#[verifier::ext_equal]
pub struct SnapshotModel {
    pub ticks: Seq<(u32, Seq<u8>)>,
    pub total_shuffles: u64,
    pub shuffles_per_sec: u64,
    pub session_best: u32,
    pub session_best_arr: Seq<u8>,
    pub all_time_best: u32,
    pub all_time_best_arr: Seq<u8>,
    pub status: Seq<char>,
    pub nickname: Seq<char>,
    pub seed_str: Seq<char>,
    pub running: bool,
    pub saved_arrays: Seq<SavedModel>,
}

impl View for Snapshot {
    type V = SnapshotModel;

    open spec fn view(&self) -> SnapshotModel {
        SnapshotModel {
            ticks: self.ticks@.map_values(|t: (u32, [u8; 25])| (t.0, t.1@)),
            total_shuffles: self.total_shuffles,
            shuffles_per_sec: self.shuffles_per_sec,
            session_best: self.session_best,
            session_best_arr: self.session_best_arr@,
            all_time_best: self.all_time_best,
            all_time_best_arr: self.all_time_best_arr@,
            status: self.status@,
            nickname: self.nickname@,
            seed_str: self.seed_str@,
            running: self.running,
            saved_arrays: saved_models(self.saved_arrays@),
        }
    }
}

/// What is shown before anything is known of the worker.
pub open spec fn nothing_shown() -> SnapshotModel {
    SnapshotModel {
        ticks: Seq::empty(),
        total_shuffles: 0,
        shuffles_per_sec: 0,
        session_best: 0,
        session_best_arr: Seq::new(25, |i: int| 0u8),
        all_time_best: 0,
        all_time_best_arr: Seq::new(25, |i: int| 0u8),
        status: Seq::empty(),
        nickname: Seq::empty(),
        seed_str: Seq::empty(),
        running: false,
        saved_arrays: Seq::empty(),
    }
}

/// What is shown of the worker's statistics.
pub open spec fn shown(stats: StatsModel) -> SnapshotModel {
    SnapshotModel {
        ticks: Seq::new(
            stats.ticks.len(),
            |i: int| (stats.ticks[i].best_correct, stats.ticks[i].best_arr),
        ),
        total_shuffles: stats.total_shuffles,
        shuffles_per_sec: stats.shuffles_per_sec,
        session_best: stats.session_best,
        session_best_arr: stats.session_best_arr,
        all_time_best: stats.all_time_best,
        all_time_best_arr: stats.all_time_best_arr,
        status: stats.status,
        nickname: stats.nickname,
        seed_str: stats.seed_str,
        running: stats.running,
        saved_arrays: stats.saved_arrays,
    }
}

/// The scores of the ticks, newest first.
pub open spec fn scores_of(snap: SnapshotModel) -> Seq<u32> {
    Seq::new(snap.ticks.len(), |i: int| snap.ticks[snap.ticks.len() - 1 - i].0)
}

/// The array beside the statistics.
#[derive(Debug, Clone, Copy)]
pub enum GridView {
    /// The array of the last tick, with its score.
    LastTick(u32, [u8; 25]),
    /// The best array of the session.
    SessionBest([u8; 25]),
    /// None was found yet.
    Nothing,
}

impl Snapshot {
    /// What is shown before anything is known of the worker.
    pub fn empty() -> (r: Self)
        ensures
            r@ == nothing_shown(),
    {
        let r = Snapshot {
            ticks: Vec::new(),
            total_shuffles: 0,
            shuffles_per_sec: 0,
            session_best: 0,
            session_best_arr: [0u8; 25],
            all_time_best: 0,
            all_time_best_arr: [0u8; 25],
            status: String::new(),
            nickname: String::new(),
            seed_str: String::new(),
            running: false,
            saved_arrays: Vec::new(),
        };
        proof {
            assert(r@ =~= nothing_shown());
        }
        r
    }

    /// What is shown of the worker's statistics.
    pub fn of(stats: &GuiStatsInner) -> (r: Self)
        ensures
            r@ == shown(stats@),
            r.ticks@.len() == stats.ticks@.len(),
            forall|i: int|
                0 <= i < stats.ticks@.len() ==> (#[trigger] r.ticks@[i]).0
                    == stats.ticks@[i].best_correct && r.ticks@[i].1 == stats.ticks@[i].best_arr,
            r.total_shuffles == stats.total_shuffles,
            r.shuffles_per_sec == stats.shuffles_per_sec,
            r.session_best == stats.session_best,
            r.session_best_arr == stats.session_best_arr,
            r.all_time_best == stats.all_time_best,
            r.all_time_best_arr == stats.all_time_best_arr,
            r.status@ == stats.status@,
            r.nickname@ == stats.nickname@,
            r.seed_str@ == stats.seed_str@,
            r.running == stats.running,
            saved_models(r.saved_arrays@) == saved_models(stats.saved_arrays@),
            r.saved_arrays@.len() == stats.saved_arrays@.len(),
            forall|i: int|
                0 <= i < r.saved_arrays@.len() ==> same_entry(
                    #[trigger] r.saved_arrays@[i],
                    stats.saved_arrays@[i],
                ),
    {
        let mut ticks: Vec<(u32, [u8; 25])> = Vec::new();
        let mut i: usize = 0;
        while i < stats.ticks.len()
            invariant
                i <= stats.ticks.len(),
                ticks.len() == i,
                forall|k: int|
                    0 <= k < i ==> (#[trigger] ticks@[k]).0 == stats.ticks@[k].best_correct
                        && ticks@[k].1 == stats.ticks@[k].best_arr,
            decreases stats.ticks.len() - i,
        {
            let t: &TickRecord = &stats.ticks[i];
            ticks.push((t.best_correct, t.best_arr));
            i = i + 1;
        }
        let r = Snapshot {
            ticks,
            total_shuffles: stats.total_shuffles,
            shuffles_per_sec: stats.shuffles_per_sec,
            session_best: stats.session_best,
            session_best_arr: stats.session_best_arr,
            all_time_best: stats.all_time_best,
            all_time_best_arr: stats.all_time_best_arr,
            status: stats.status.clone(),
            nickname: stats.nickname.clone(),
            seed_str: stats.seed_str.clone(),
            running: stats.running,
            saved_arrays: copy_saved(&stats.saved_arrays),
        };
        proof {
            assert(r@.ticks =~= shown(stats@).ticks);
        }
        r
    }

    /// The scores of the ticks, newest first.
    pub fn scores(&self) -> (r: Vec<u32>)
        ensures
            r@ == scores_of(self@),
            r@.len() == self.ticks@.len(),
            forall|i: int|
                0 <= i < r@.len() ==> #[trigger] r@[i] == self.ticks@[self.ticks@.len() - 1 - i].0,
    {
        let mut scores: Vec<u32> = Vec::new();
        let mut left: usize = self.ticks.len();
        while left > 0
            invariant
                left <= self.ticks.len(),
                scores.len() == self.ticks.len() - left,
                forall|k: int|
                    0 <= k < scores.len() ==> #[trigger] scores@[k] == self.ticks@[self.ticks.len()
                        - 1 - k].0,
            decreases left,
        {
            left = left - 1;
            scores.push(self.ticks[left].0);
        }
        proof {
            assert(scores@ =~= scores_of(self@));
        }
        scores
    }

    /// The array beside the statistics: that of the last tick, before the
    /// first tick the best of the session.
    pub fn grid(&self) -> (r: GridView)
        ensures
            match r {
                GridView::LastTick(score, arr) => self@.ticks.len() > 0 && self@.ticks.last() == (
                    score,
                    arr@,
                ),
                GridView::SessionBest(arr) => self@.ticks.len() == 0 && self@.session_best > 0
                    && arr@ == self@.session_best_arr,
                GridView::Nothing => self@.ticks.len() == 0 && self@.session_best == 0,
            },
    {
        if self.ticks.len() > 0 {
            let last = self.ticks[self.ticks.len() - 1];
            GridView::LastTick(last.0, last.1)
        } else if self.session_best > 0 {
            GridView::SessionBest(self.session_best_arr)
        } else {
            GridView::Nothing
        }
    }
}

/// A frame shows the statistics as they are: the ticks with their scores and
/// arrays, oldest first, and every number, text and array under its own name.
pub proof fn law_frame_shows_the_statistics(stats: StatsModel, i: int)
    ensures
        ({
            let frame = shown(stats);
            &&& frame.ticks.len() == stats.ticks.len()
            &&& 0 <= i < stats.ticks.len() ==> frame.ticks[i].0 == stats.ticks[i].best_correct
                && frame.ticks[i].1 == stats.ticks[i].best_arr
            &&& frame.total_shuffles == stats.total_shuffles
            &&& frame.shuffles_per_sec == stats.shuffles_per_sec
            &&& frame.session_best == stats.session_best
            &&& frame.session_best_arr == stats.session_best_arr
            &&& frame.all_time_best == stats.all_time_best
            &&& frame.all_time_best_arr == stats.all_time_best_arr
            &&& frame.status == stats.status
            &&& frame.nickname == stats.nickname
            &&& frame.seed_str == stats.seed_str
            &&& frame.running == stats.running
            &&& frame.saved_arrays == stats.saved_arrays
        }),
{
}

/// The display after some ticks, each with its time.
pub open spec fn after_ticks(
    stats: StatsModel,
    ticks: Seq<TickModel>,
    stamps: Seq<Stamp>,
) -> StatsModel
    decreases ticks.len(),
{
    if ticks.len() == 0 {
        stats
    } else {
        ticked(
            after_ticks(stats, ticks.drop_last(), stamps.drop_last()),
            ticks.last(),
            stamps.last(),
        )
    }
}

/// What a frame shows as the best of all time is at least the score of the
/// record that was loaded at the start, and of every tick since; and it is that
/// record or one of those ticks, with its array.
pub proof fn law_frame_shows_the_best_of_all_time(
    best: BestModel,
    saved: Seq<SavedModel>,
    start: std::time::Instant,
    ticks: Seq<TickModel>,
    stamps: Seq<Stamp>,
)
    requires
        stamps.len() == ticks.len(),
    ensures
        ({
            let frame = shown(after_ticks(fresh_stats(Some(best), saved, start), ticks, stamps));
            &&& frame.all_time_best >= best.correct
            &&& forall|i: int|
                0 <= i < ticks.len() ==> (#[trigger] ticks[i]).best_correct
                    <= frame.all_time_best
            &&& (frame.all_time_best == best.correct && frame.all_time_best_arr == best.arr) || (
            exists|i: int|
                0 <= i < ticks.len() && (#[trigger] ticks[i]).best_correct == frame.all_time_best
                    && ticks[i].best_arr == frame.all_time_best_arr)
        }),
    decreases ticks.len(),
{
    if ticks.len() > 0 {
        let fewer = ticks.drop_last();
        law_frame_shows_the_best_of_all_time(best, saved, start, fewer, stamps.drop_last());
        let stats = fresh_stats(Some(best), saved, start);
        let before = shown(after_ticks(stats, fewer, stamps.drop_last()));
        let frame = shown(after_ticks(stats, ticks, stamps));
        assert(ticks[ticks.len() - 1] == ticks.last());
        assert forall|i: int| 0 <= i < ticks.len() implies (#[trigger] ticks[i]).best_correct
            <= frame.all_time_best by {
            if i < fewer.len() {
                assert(fewer[i] == ticks[i]);
            }
        }
        if frame.all_time_best == before.all_time_best && !(before.all_time_best == best.correct
            && before.all_time_best_arr == best.arr) {
            let i = choose|i: int|
                0 <= i < fewer.len() && (#[trigger] fewer[i]).best_correct == before.all_time_best
                    && fewer[i].best_arr == before.all_time_best_arr;
            assert(ticks[i] == fewer[i]);
        }
    }
}

/// What a frame shows as the best of the session is at least the score of every
/// tick of the session, and it is one of them, with its array, or none has
/// scored.
pub proof fn law_frame_shows_the_best_of_the_session(
    best: Option<BestModel>,
    saved: Seq<SavedModel>,
    start: std::time::Instant,
    ticks: Seq<TickModel>,
    stamps: Seq<Stamp>,
)
    requires
        stamps.len() == ticks.len(),
    ensures
        ({
            let frame = shown(after_ticks(fresh_stats(best, saved, start), ticks, stamps));
            &&& forall|i: int|
                0 <= i < ticks.len() ==> (#[trigger] ticks[i]).best_correct <= frame.session_best
            &&& frame.session_best == 0 || (exists|i: int|
                0 <= i < ticks.len() && (#[trigger] ticks[i]).best_correct == frame.session_best
                    && ticks[i].best_arr == frame.session_best_arr)
        }),
    decreases ticks.len(),
{
    if ticks.len() > 0 {
        let fewer = ticks.drop_last();
        law_frame_shows_the_best_of_the_session(best, saved, start, fewer, stamps.drop_last());
        let stats = fresh_stats(best, saved, start);
        let before = shown(after_ticks(stats, fewer, stamps.drop_last()));
        let frame = shown(after_ticks(stats, ticks, stamps));
        assert(ticks[ticks.len() - 1] == ticks.last());
        assert forall|i: int| 0 <= i < ticks.len() implies (#[trigger] ticks[i]).best_correct
            <= frame.session_best by {
            if i < fewer.len() {
                assert(fewer[i] == ticks[i]);
            }
        }
        if frame.session_best == before.session_best && frame.session_best > 0 {
            let i = choose|i: int|
                0 <= i < fewer.len() && (#[trigger] fewer[i]).best_correct == before.session_best
                    && fewer[i].best_arr == before.session_best_arr;
            assert(ticks[i] == fewer[i]);
        }
    }
}

/// The strip lists the scores of the ticks from the newest to the oldest.
pub proof fn law_strip_starts_with_the_newest(snap: SnapshotModel, i: int)
    requires
        0 <= i < snap.ticks.len(),
    ensures
        scores_of(snap).len() == snap.ticks.len(),
        scores_of(snap)[i] == snap.ticks[snap.ticks.len() - 1 - i].0,
        scores_of(snap)[0] == snap.ticks.last().0,
{
}

/// Before anything is known of the worker, nothing is shown.
pub proof fn law_nothing_is_shown_at_first()
    ensures
        nothing_shown().ticks.len() == 0,
        nothing_shown().saved_arrays.len() == 0,
        nothing_shown().all_time_best == 0,
        nothing_shown().session_best == 0,
        nothing_shown().total_shuffles == 0,
        nothing_shown().shuffles_per_sec == 0,
        nothing_shown().status.len() == 0,
        nothing_shown().nickname.len() == 0,
        nothing_shown().seed_str.len() == 0,
        !nothing_shown().running,
{
}

/// Where an entry first stands among the saved ones.
pub open spec fn is_first(entries: Seq<SavedModel>, id: u64, i: int) -> bool {
    &&& 0 <= i < entries.len()
    &&& entries[i].id == id
    &&& forall|k: int| 0 <= k < i ==> (#[trigger] entries[k]).id != id
}

/// Whether no saved entry has the given id.
pub open spec fn is_gone(entries: Seq<SavedModel>, id: u64) -> bool {
    forall|k: int| 0 <= k < entries.len() ==> (#[trigger] entries[k]).id != id
}

/// The state of the window.
#[derive(Debug)]
pub struct Dashboard {
    pub snap: Snapshot,
    /// The scores of the ticks, newest first.
    pub history: Vec<u32>,
    pub active_tab: Tab,
    pub settings: SettingsPanel,
    pub uptime: Uptime,
    pub seconds: SecondCount,
    /// Sort order for the array history.
    pub array_sort: ArraySort,
    /// Id of the entry currently shown in the full-screen detail view, if any.
    pub selected_array: Option<u64>,
}

impl Dashboard {
    /// The window as it opens.
    pub fn new(initial_cfg: Config, now: u64) -> (r: Self)
        ensures
            r.snap@ == nothing_shown(),
            r.history@ == scores_of(r.snap@),
            r.active_tab == Tab::Dashboard,
            r.settings.current@ == initial_cfg@,
            r.settings.edit@ == edit_of(initial_cfg@),
            r.uptime@ == (UptimeModel { secs: 0, run_started: None, seen: 0 }),
            r.seconds@ == (SecondModel { count: 0, last: now as nat }),
            r.array_sort == ArraySort::Recent,
            r.selected_array is None,
    {
        let snap = Snapshot::empty();
        let history = snap.scores();
        Dashboard {
            snap,
            history,
            active_tab: Tab::Dashboard,
            settings: SettingsPanel::new(initial_cfg),
            uptime: Uptime::new(),
            seconds: SecondCount::new(now),
            array_sort: ArraySort::Recent,
            selected_array: None,
        }
    }

    /// Shows the worker as it is now.
    pub fn refresh_snapshot(&mut self, stats: &GuiStatsInner, now: u64)
        ensures
            final(self).snap@ == shown(stats@),
            final(self).snap.all_time_best == stats.all_time_best,
            final(self).snap.all_time_best_arr == stats.all_time_best_arr,
            final(self).snap.session_best == stats.session_best,
            final(self).snap.session_best_arr == stats.session_best_arr,
            final(self).snap.running == stats.running,
            final(self).snap.total_shuffles == stats.total_shuffles,
            final(self).snap.shuffles_per_sec == stats.shuffles_per_sec,
            final(self).history@ == scores_of(final(self).snap@),
            final(self).uptime@ == observed(old(self).uptime@, stats@.running, now as nat),
            final(self).active_tab == old(self).active_tab,
            final(self).settings == old(self).settings,
            final(self).seconds == old(self).seconds,
            final(self).array_sort == old(self).array_sort,
            final(self).selected_array == old(self).selected_array,
    {
        self.snap = Snapshot::of(stats);
        self.history = self.snap.scores();
        self.uptime.observe(self.snap.running, now);
    }

    /// Goes to a page. Opening the settings discards what was edited before.
    pub fn open_tab(&mut self, tab: Tab)
        ensures
            final(self).active_tab == tab,
            final(self).settings.current == old(self).settings.current,
            final(self).settings.edit@ == if tab == Tab::Settings && old(self).active_tab
                != Tab::Settings {
                edit_of(old(self).settings.current@)
            } else {
                old(self).settings.edit@
            },
            final(self).snap == old(self).snap,
            final(self).history == old(self).history,
            final(self).uptime == old(self).uptime,
            final(self).seconds == old(self).seconds,
            final(self).array_sort == old(self).array_sort,
            final(self).selected_array == old(self).selected_array,
    {
        if tab == Tab::Settings && self.active_tab != Tab::Settings {
            self.settings.reset();
        }
        self.active_tab = tab;
    }

    /// What the button does: it stops a worker that runs, and starts one that
    /// is stopped with the configuration that was last saved.
    pub fn toggle(&self) -> (r: WorkerCmd)
        ensures
            match r {
                WorkerCmd::Stop => self.snap.running,
                WorkerCmd::Start(config) => !self.snap.running && config@
                    == self.settings.current@,
            },
    {
        if self.snap.running {
            WorkerCmd::Stop
        } else {
            WorkerCmd::Start(self.settings.current.clone())
        }
    }

    /// The place of the entry that is shown in full, if one is. A selection
    /// whose entry is no longer kept is dropped.
    pub fn selected_entry(&mut self) -> (r: Option<usize>)
        ensures
            match (old(self).selected_array, r) {
                (Some(id), Some(i)) => is_first(old(self).snap@.saved_arrays, id, i as int)
                    && final(self).selected_array == Some(id),
                (Some(id), None) => is_gone(old(self).snap@.saved_arrays, id)
                    && final(self).selected_array is None,
                (None, r) => r is None && final(self).selected_array is None,
            },
            r matches Some(i) ==> i < old(self).snap.saved_arrays@.len() && Some(
                old(self).snap.saved_arrays@[i as int].id,
            ) == old(self).selected_array,
            r is None ==> forall|k: int|
                0 <= k < old(self).snap.saved_arrays@.len() ==> Some(
                    (#[trigger] old(self).snap.saved_arrays@[k]).id,
                ) != old(self).selected_array,
            final(self).snap == old(self).snap,
            final(self).history == old(self).history,
            final(self).active_tab == old(self).active_tab,
            final(self).settings == old(self).settings,
            final(self).uptime == old(self).uptime,
            final(self).seconds == old(self).seconds,
            final(self).array_sort == old(self).array_sort,
    {
        let id = match self.selected_array {
            Some(id) => id,
            None => return None,
        };
        let ghost start = *self;
        let ghost models = self.snap@.saved_arrays;
        let mut i: usize = 0;
        while i < self.snap.saved_arrays.len()
            invariant
                *self == start,
                start.selected_array == Some(id),
                models == self.snap@.saved_arrays,
                i <= self.snap.saved_arrays.len(),
                forall|k: int| 0 <= k < i ==> (#[trigger] models[k]).id != id,
            decreases self.snap.saved_arrays.len() - i,
        {
            assert(models[i as int].id == self.snap.saved_arrays@[i as int].id);
            if self.snap.saved_arrays[i].id == id {
                return Some(i);
            }
            i = i + 1;
        }
        self.selected_array = None;
        proof {
            assert forall|k: int| 0 <= k < start.snap.saved_arrays@.len() implies (
            #[trigger] start.snap.saved_arrays@[k]).id != id by {
                assert(models[k].id == start.snap.saved_arrays@[k].id);
            }
        }
        None
    }
}

} // verus!
