//! Records that outlive a session: the history of great arrays and the best
//! array ever, with the times at which they were found.

use crate::calendar::{
    civil_from_days, day_number, is_date, is_earlier, law_day_number_ordered,
    law_day_number_unique, lemma_four_digit_years, lemma_has_date,
};
use crate::config::{config_dir_at, entry_of, Config, Location};
use crate::primes::lemma_pigeonhole;
use crate::text::{
    decimal, digit, is_lower_at, lemma_padded, padded, push_decimal, push_padded, sorts_before,
};
use std::time::UNIX_EPOCH;
use vstd::prelude::*;
use vstd::string::*;

verus! {

/// Minimum `correct` count for an array to be saved to history.
pub const MIN_SAVED_CORRECT: u32 = 16;

/// Maximum number of entries kept in history (oldest are dropped first).
pub const MAX_SAVED: usize = 1000;

/// A single "great" array, persisted to disk.
#[derive(Debug)]
pub struct SavedArray {
    /// Unique id: the nanosecond timestamp at time of insertion or, where an
    /// entry has that already, the next number that none has.
    pub id: u64,
    /// Number of correct positions (>= MIN_SAVED_CORRECT).
    pub correct: u32,
    /// The shuffled array itself.
    pub arr: [u8; 25],
    /// Seed string for the lease this array was found in.
    pub seed: String,
    /// Index within the seed's shuffle space.
    pub index: u64,
    /// Shuffles/sec at the time this tick was reported.
    pub rate: u64,
    /// Running total shuffles (lifetime) at the time this was found.
    pub total_shuffles: u64,
    /// Unix timestamp (seconds, UTC) when this array was found.
    pub timestamp: i64,
}

/// A result that reaches the cutoff of the history, as it was found.
#[derive(Debug, Clone, Copy)]
pub struct GreatArray {
    pub correct: u32,
    pub arr: [u8; 25],
    pub index: u64,
}

/// The single best array ever found, persisted across sessions independent of
/// the cutoff of the history.
#[derive(Debug)]
pub struct BestRecord {
    pub correct: u32,
    pub arr: [u8; 25],
    pub seed: String,
    pub index: u64,
    pub timestamp: i64,
}

/// The contents of a `SavedArray`.
#[verifier::ext_equal]
pub struct SavedModel {
    pub id: u64,
    pub correct: u32,
    pub arr: Seq<u8>,
    pub seed: Seq<char>,
    pub index: u64,
    pub rate: u64,
    pub total_shuffles: u64,
    pub timestamp: i64,
}

/// The contents of a `GreatArray`.
#[verifier::ext_equal]
pub struct GreatModel {
    pub correct: u32,
    pub arr: Seq<u8>,
    pub index: u64,
}

/// The contents of a `BestRecord`.
#[verifier::ext_equal]
pub struct BestModel {
    pub correct: u32,
    pub arr: Seq<u8>,
    pub seed: Seq<char>,
    pub index: u64,
    pub timestamp: i64,
}

impl View for SavedArray {
    type V = SavedModel;

    open spec fn view(&self) -> SavedModel {
        SavedModel {
            id: self.id,
            correct: self.correct,
            arr: self.arr@,
            seed: self.seed@,
            index: self.index,
            rate: self.rate,
            total_shuffles: self.total_shuffles,
            timestamp: self.timestamp,
        }
    }
}

impl View for GreatArray {
    type V = GreatModel;

    open spec fn view(&self) -> GreatModel {
        GreatModel { correct: self.correct, arr: self.arr@, index: self.index }
    }
}

impl View for BestRecord {
    type V = BestModel;

    open spec fn view(&self) -> BestModel {
        BestModel {
            correct: self.correct,
            arr: self.arr@,
            seed: self.seed@,
            index: self.index,
            timestamp: self.timestamp,
        }
    }
}

impl Clone for SavedArray {
    fn clone(&self) -> (r: Self)
        ensures
            r@ == self@,
            r.id == self.id,
            r.correct == self.correct,
            r.arr == self.arr,
            r.seed@ == self.seed@,
            r.index == self.index,
            r.rate == self.rate,
            r.total_shuffles == self.total_shuffles,
            r.timestamp == self.timestamp,
    {
        SavedArray {
            id: self.id,
            correct: self.correct,
            arr: self.arr,
            seed: self.seed.clone(),
            index: self.index,
            rate: self.rate,
            total_shuffles: self.total_shuffles,
            timestamp: self.timestamp,
        }
    }
}

impl Clone for BestRecord {
    fn clone(&self) -> (r: Self)
        ensures
            r@ == self@,
            r.correct == self.correct,
            r.arr == self.arr,
            r.seed@ == self.seed@,
            r.index == self.index,
            r.timestamp == self.timestamp,
    {
        BestRecord {
            correct: self.correct,
            arr: self.arr,
            seed: self.seed.clone(),
            index: self.index,
            timestamp: self.timestamp,
        }
    }
}

/// The contents of a list of saved arrays.
pub open spec fn saved_models(entries: Seq<SavedArray>) -> Seq<SavedModel> {
    entries.map_values(|e: SavedArray| e@)
}

/// A history with one more entry: the newest stands last, and the oldest are
/// dropped beyond the maximum.
pub open spec fn remembered(entries: Seq<SavedModel>, entry: SavedModel) -> Seq<SavedModel> {
    let all = entries.push(entry);
    if all.len() > MAX_SAVED {
        all.skip(all.len() - MAX_SAVED)
    } else {
        all
    }
}

/// Adds an entry to the history and drops the oldest beyond the maximum.
pub fn remember(entries: &mut Vec<SavedArray>, entry: SavedArray)
    ensures
        saved_models(final(entries)@) == remembered(saved_models(old(entries)@), entry@),
        final(entries)@.len() > 0,
        final(entries)@.last() == entry,
        final(entries)@.len() == if old(entries)@.len() < 1000 {
            old(entries)@.len() + 1
        } else {
            1000
        },
        forall|i: int|
            0 <= i < final(entries)@.len() - 1 ==> #[trigger] final(entries)@[i] == old(
                entries,
            )@[old(entries)@.len() - (final(entries)@.len() - 1) + i],
{
    let ghost before = entries@;
    entries.push(entry);
    let ghost all = entries@;
    if entries.len() > MAX_SAVED {
        let excess = entries.len() - MAX_SAVED;
        let mut kept = entries.split_off(excess);
        std::mem::swap(entries, &mut kept);
        proof {
            assert(entries@ =~= all.skip(excess as int));
        }
    }
    proof {
        assert(saved_models(all) =~= saved_models(before).push(entry@));
        assert(saved_models(entries@) =~= remembered(saved_models(before), entry@));
    }
}

/// The contents of a list of results that reach the cutoff.
pub open spec fn great_models(greats: Seq<GreatArray>) -> Seq<GreatModel> {
    greats.map_values(|g: GreatArray| g@)
}

/// Whether an entry has the given id.
pub open spec fn is_taken(entries: Seq<SavedModel>, id: u64) -> bool {
    exists|i: int| 0 <= i < entries.len() && (#[trigger] entries[i]).id == id
}

/// Whether no two entries have the same id.
pub open spec fn ids_differ(entries: Seq<SavedModel>) -> bool {
    forall|i: int, j: int|
        0 <= i < j < entries.len() ==> (#[trigger] entries[i]).id != (#[trigger] entries[j]).id
}

/// The number `k` places after `from`; zero follows the last one.
pub open spec fn nth_id(from: u64, k: nat) -> u64 {
    ((from + k) % 0x1_0000_0000_0000_0000) as u64
}

/// Whether the number `k` places after `from` is the first that no entry has.
pub open spec fn is_first_free(entries: Seq<SavedModel>, from: u64, k: nat) -> bool {
    &&& !is_taken(entries, nth_id(from, k))
    &&& forall|j: nat| j < k ==> is_taken(entries, #[trigger] nth_id(from, j))
}

/// The first number from `from` on that no entry has.
pub open spec fn free_id(entries: Seq<SavedModel>, from: u64) -> u64 {
    nth_id(from, choose|k: nat| is_first_free(entries, from, k))
}

proof fn lemma_first_free(entries: Seq<SavedModel>, from: u64, k: nat)
    requires
        is_first_free(entries, from, k),
    ensures
        free_id(entries, from) == nth_id(from, k),
{
    let other = choose|k: nat| is_first_free(entries, from, k);
    if other < k {
        assert(is_taken(entries, nth_id(from, other)));
    } else if k < other {
        assert(is_taken(entries, nth_id(from, k)));
    }
}

/// There are more numbers than entries.
proof fn lemma_not_all_taken(entries: Seq<SavedModel>, from: u64)
    requires
        entries.len() < 0x1_0000_0000_0000_0000,
    ensures
        exists|k: nat| k <= entries.len() && !is_taken(entries, #[trigger] nth_id(from, k)),
{
    let n = entries.len();
    if forall|k: nat| k <= n ==> is_taken(entries, #[trigger] nth_id(from, k)) {
        let f = |k: int|
            choose|i: int|
                0 <= i < n && (#[trigger] entries[i]).id == nth_id(from, k as nat);
        assert forall|k: int| 0 <= k < n + 1 implies 0 <= #[trigger] f(k) < n && entries[f(k)].id
            == nth_id(from, k as nat) by {
            assert(is_taken(entries, nth_id(from, k as nat)));
        }
        assert forall|j: int, k: int| 0 <= j < k < n + 1 implies #[trigger] f(j) != #[trigger] f(
            k,
        ) by {
            assert(entries[f(j)].id == nth_id(from, j as nat));
            assert(entries[f(k)].id == nth_id(from, k as nat));
        }
        lemma_pigeonhole(f, n + 1, n);
    }
}

/// The first number from `from` on that no entry has.
pub fn next_free_id(entries: &Vec<SavedArray>, from: u64) -> (r: u64)
    ensures
        r == free_id(saved_models(entries@), from),
        !is_taken(saved_models(entries@), r),
{
    let ghost models = saved_models(entries@);
    let mut id = from;
    let ghost mut k: nat = 0;
    let len: usize = entries.len();
    proof {
        assert(models.len() == len);
        lemma_not_all_taken(models, from);
    }
    while has_id(entries, id)
        invariant
            models == saved_models(entries@),
            id == nth_id(from, k),
            k <= models.len(),
            forall|j: nat| j < k ==> is_taken(models, #[trigger] nth_id(from, j)),
            exists|j: nat| j <= models.len() && !is_taken(models, #[trigger] nth_id(from, j)),
        decreases models.len() - k,
    {
        id = id.wrapping_add(1);
        proof {
            let free = choose|j: nat|
                j <= models.len() && !is_taken(models, #[trigger] nth_id(from, j));
            assert(free > k);
            k = k + 1;
        }
    }
    proof {
        lemma_first_free(models, from, k);
    }
    id
}

fn has_id(entries: &Vec<SavedArray>, id: u64) -> (r: bool)
    ensures
        r == is_taken(saved_models(entries@), id),
{
    let ghost models = saved_models(entries@);
    let mut i: usize = 0;
    while i < entries.len()
        invariant
            i <= entries.len(),
            models == saved_models(entries@),
            forall|k: int| 0 <= k < i ==> (#[trigger] models[k]).id != id,
        decreases entries.len() - i,
    {
        assert(models[i as int].id == entries@[i as int].id);
        if entries[i].id == id {
            return true;
        }
        i = i + 1;
    }
    false
}

/// Adding an entry under a free id keeps the ids apart.
pub(crate) proof fn lemma_ids_differ(entries: Seq<SavedModel>, entry: SavedModel, from: u64)
    requires
        entries.len() < 0x1_0000_0000_0000_0000,
        entry.id == free_id(entries, from),
    ensures
        !is_taken(entries, entry.id),
        ids_differ(entries) ==> ids_differ(remembered(entries, entry)),
{
    lemma_not_all_taken(entries, from);
    let k = choose|k: nat| k <= entries.len() && !is_taken(entries, #[trigger] nth_id(from, k));
    let first = least_free(entries, from, k);
    lemma_first_free(entries, from, first);
    assert forall|i: int| 0 <= i < entries.len() implies (#[trigger] entries[i]).id
        != entry.id by {
        assert(!is_taken(entries, entry.id));
    }
}

proof fn least_free(entries: Seq<SavedModel>, from: u64, k: nat) -> (r: nat)
    requires
        !is_taken(entries, nth_id(from, k)),
    ensures
        is_first_free(entries, from, r),
    decreases k,
{
    if forall|j: nat| j < k ==> is_taken(entries, #[trigger] nth_id(from, j)) {
        k
    } else {
        let j = choose|j: nat| j < k && !is_taken(entries, #[trigger] nth_id(from, j));
        least_free(entries, from, j)
    }
}

/// A new entry gets the number that it asks for where no entry has it, and
/// otherwise the first number after that which none has: all between are taken.
pub proof fn law_free_id_is_the_next(entries: Seq<SavedModel>, from: u64, k: int)
    requires
        entries.len() < 0x1_0000_0000_0000_0000,
        0 <= k < (free_id(entries, from) - from) % 0x1_0000_0000_0000_0000,
    ensures
        exists|i: int|
            0 <= i < entries.len() && (#[trigger] entries[i]).id == (from + k)
                % 0x1_0000_0000_0000_0000,
{
    lemma_not_all_taken(entries, from);
    let some = choose|k: nat| k <= entries.len() && !is_taken(entries, #[trigger] nth_id(from, k));
    let first = least_free(entries, from, some);
    lemma_first_free(entries, from, first);
    assert(is_taken(entries, nth_id(from, 0)) || first == 0);
    assert(first < 0x1_0000_0000_0000_0000) by {
        if first > entries.len() {
            assert(is_taken(entries, nth_id(from, some)));
        }
    }
    assert(k < first);
    assert(is_taken(entries, nth_id(from, k as nat)));
}

pub(crate) proof fn lemma_free_where_asked(entries: Seq<SavedModel>, from: u64)
    requires
        forall|j: int| 0 <= j < entries.len() ==> (#[trigger] entries[j]).id != from,
    ensures
        free_id(entries, from) == from,
{
    assert(nth_id(from, 0) == from);
    assert(!is_taken(entries, from));
    assert(is_first_free(entries, from, 0));
    lemma_first_free(entries, from, 0);
}

/// The number that a new entry gets is one that no entry has, and it is the
/// number asked for where no entry has that.
pub proof fn law_free_id_is_free(entries: Seq<SavedModel>, from: u64, i: int)
    requires
        entries.len() < 0x1_0000_0000_0000_0000,
        0 <= i < entries.len(),
    ensures
        entries[i].id != free_id(entries, from),
        (forall|j: int| 0 <= j < entries.len() ==> (#[trigger] entries[j]).id != from) ==> free_id(
            entries,
            from,
        ) == from,
{
    lemma_not_all_taken(entries, from);
    let some = choose|k: nat| k <= entries.len() && !is_taken(entries, #[trigger] nth_id(from, k));
    let first = least_free(entries, from, some);
    lemma_first_free(entries, from, first);
    assert(!is_taken(entries, free_id(entries, from)));
    if forall|j: int| 0 <= j < entries.len() ==> (#[trigger] entries[j]).id != from {
        assert(nth_id(from, 0) == from);
        assert(!is_taken(entries, from));
        if first > 0 {
            assert(is_taken(entries, nth_id(from, 0)));
        }
    }
}

/// The history file.
pub fn history_path() -> (r: Location)
    ensures
        r@ == entry_of(config_dir_at(r.base), "arrays.json"@),
{
    Config::config_dir().join("arrays.json")
}

/// The file of the best array ever.
pub fn best_path() -> (r: Location)
    ensures
        r@ == entry_of(config_dir_at(r.base), "best.json"@),
{
    Config::config_dir().join("best.json")
}

/// The time since the Unix epoch as whole seconds and nanoseconds, by
/// `SystemTime::elapsed`; `None` before the epoch.
///
/// Claimed: the nanoseconds are less than a second. The time itself is free.
#[verifier::external_body]
fn since_epoch() -> (r: Option<(u64, u32)>)
    ensures
        r matches Some((_, nanos)) ==> nanos < 1_000_000_000,
{
    UNIX_EPOCH.elapsed().ok().map(|d| (d.as_secs(), d.subsec_nanos()))
}

/// A time since the epoch in nanoseconds, cut to 64 bits; zero before the
/// epoch.
pub open spec fn nanos_of(time: Option<(u64, u32)>) -> int {
    match time {
        Some((secs, nanos)) => (secs * 1_000_000_000 + nanos) % 0x1_0000_0000_0000_0000,
        None => 0,
    }
}

/// A time since the epoch in seconds, read as a signed number; zero before the
/// epoch.
pub open spec fn seconds_of(time: Option<(u64, u32)>) -> int {
    match time {
        Some((secs, _)) => if secs <= i64::MAX {
            secs as int
        } else {
            secs - 0x1_0000_0000_0000_0000
        },
        None => 0,
    }
}

/// A time since the epoch in nanoseconds.
pub fn to_nanos(time: Option<(u64, u32)>) -> (r: u64)
    ensures
        r == nanos_of(time),
        time is None ==> r == 0,
        time matches Some((secs, nanos)) ==> (secs * 1_000_000_000 + nanos - r)
            % 0x1_0000_0000_0000_0000 == 0,
{
    match time {
        Some((secs, nanos)) => {
            let total: u128 = secs as u128 * 1_000_000_000 + nanos as u128;
            proof {
                assert(total as u64 == total % 0x1_0000_0000_0000_0000) by (bit_vector);
            }
            #[verifier::truncate]
            (total as u64)
        },
        None => 0,
    }
}

/// A time since the epoch in seconds.
pub fn to_seconds(time: Option<(u64, u32)>) -> (r: i64)
    ensures
        r == seconds_of(time),
        time is None ==> r == 0,
        time matches Some((secs, _)) ==> if secs <= i64::MAX {
            r == secs
        } else {
            r == secs - 0x1_0000_0000_0000_0000
        },
{
    match time {
        Some((secs, _)) => {
            proof {
                assert(secs <= 0x7fff_ffff_ffff_ffff ==> secs as i64 == secs) by (bit_vector);
                assert(secs > 0x7fff_ffff_ffff_ffff ==> secs as i64 == secs
                    - 0x1_0000_0000_0000_0000) by (bit_vector);
            }
            #[verifier::truncate]
            (secs as i64)
        },
        None => 0,
    }
}

/// Current time as nanoseconds since the Unix epoch.
pub fn now_nanos() -> (r: u64)
    ensures
        exists|time: Option<(u64, u32)>| r == #[trigger] nanos_of(time),
{
    let time = since_epoch();
    to_nanos(time)
}

/// Current time as seconds since the Unix epoch (UTC).
pub fn now_unix() -> (r: i64)
    ensures
        exists|time: Option<(u64, u32)>| r == #[trigger] seconds_of(time),
{
    let time = since_epoch();
    to_seconds(time)
}

/// The date that lies the given number of days after 1970-01-01.
pub open spec fn date_at(day: int) -> (int, int, int) {
    choose|y: int, m: int, d: int| is_date(y, m, d) && day_number(y, m, d) == day
}

/// A time as "YYYY-MM-DD HH:MM:SS UTC".
pub open spec fn timestamp_text(timestamp: int) -> Seq<char> {
    let (y, m, d) = date_at(timestamp / 86_400);
    stamp_text(y, m, d, timestamp % 86_400)
}

/// A second of a day as "YYYY-MM-DD HH:MM:SS UTC".
pub open spec fn stamp_text(y: int, m: int, d: int, secs: int) -> Seq<char> {
    padded(y, 4) + "-"@ + padded(m, 2) + "-"@ + padded(d, 2) + " "@ + padded(secs / 3600, 2) + ":"@
        + padded((secs % 3600) / 60, 2) + ":"@ + padded(secs % 60, 2) + " UTC"@
}

/// How long ago a time was.
pub open spec fn relative_text(now: int, timestamp: int) -> Seq<char> {
    let diff = if now > timestamp {
        now - timestamp
    } else {
        0
    };
    if diff < 5 {
        "just now"@
    } else if diff < 60 {
        decimal(diff as nat) + "s ago"@
    } else if diff < 3600 {
        decimal((diff / 60) as nat) + "m ago"@
    } else if diff < 86_400 {
        decimal((diff / 3600) as nat) + "h ago"@
    } else if diff < 86_400 * 30 {
        decimal((diff / 86_400) as nat) + "d ago"@
    } else {
        timestamp_text(timestamp)
    }
}

/// Render an absolute UTC timestamp as "YYYY-MM-DD HH:MM:SS UTC".
pub fn format_timestamp(timestamp: i64) -> (r: String)
    ensures
        r@ == timestamp_text(timestamp as int),
{
    let (days, secs_of_day): (i64, i64) = if timestamp >= 0 {
        (timestamp / 86_400, timestamp % 86_400)
    } else {
        let before = -(timestamp + 1);
        (-(before / 86_400) - 1, 86_399 - before % 86_400)
    };
    proof {
        assert(days == timestamp as int / 86_400);
        assert(secs_of_day == timestamp as int % 86_400);
    }
    let (y, m, d) = civil_from_days(days);
    proof {
        let (dy, dm, dd) = date_at(days as int);
        law_day_number_unique(y as int, m as int, d as int, dy, dm, dd);
    }
    let h = secs_of_day / 3600;
    let mi = (secs_of_day % 3600) / 60;
    let s = secs_of_day % 60;
    let mut out = String::new();
    push_padded(&mut out, y, 4);
    out.append("-");
    push_padded(&mut out, m as i64, 2);
    out.append("-");
    push_padded(&mut out, d as i64, 2);
    out.append(" ");
    push_padded(&mut out, h, 2);
    out.append(":");
    push_padded(&mut out, mi, 2);
    out.append(":");
    push_padded(&mut out, s, 2);
    out.append(" UTC");
    proof {
        assert(out@ =~= timestamp_text(timestamp as int));
    }
    out
}

fn with_suffix(n: u64, suffix: &str) -> (r: String)
    ensures
        r@ == decimal(n as nat) + suffix@,
{
    let mut out = String::new();
    push_decimal(&mut out, n);
    out.append(suffix);
    proof {
        assert(out@ =~= decimal(n as nat) + suffix@);
    }
    out
}

/// Render how long before `now` a timestamp was ("just now", "5m ago", "3h
/// ago", "2d ago"); beyond a month, the timestamp itself.
pub fn format_relative_at(now: i64, timestamp: i64) -> (r: String)
    ensures
        r@ == relative_text(now as int, timestamp as int),
{
    let diff: u64 = if now > timestamp {
        (now as i128 - timestamp as i128) as u64
    } else {
        0
    };
    if diff < 5 {
        "just now".to_owned()
    } else if diff < 60 {
        with_suffix(diff, "s ago")
    } else if diff < 3600 {
        with_suffix(diff / 60, "m ago")
    } else if diff < 86_400 {
        with_suffix(diff / 3600, "h ago")
    } else if diff < 86_400 * 30 {
        with_suffix(diff / 86_400, "d ago")
    } else {
        format_timestamp(timestamp)
    }
}

/// Render a timestamp relative to the current time.
pub fn format_relative(timestamp: i64) -> (r: String)
    ensures
        exists|now: int| i64::MIN <= now <= i64::MAX && r@ == #[trigger] relative_text(
            now,
            timestamp as int,
        ),
{
    let now = now_unix();
    format_relative_at(now, timestamp)
}

/// Whether text has the form "YYYY-MM-DD HH:MM:SS UTC", with digits for the
/// letters before the last word.
pub open spec fn is_stamp_form(s: Seq<char>) -> bool {
    &&& s.len() == 23
    &&& s[4] == '-' && s[7] == '-' && s[10] == ' ' && s[13] == ':' && s[16] == ':'
    &&& s[19] == ' ' && s[20] == 'U' && s[21] == 'T' && s[22] == 'C'
    &&& forall|i: int|
        0 <= i < 19 && i != 4 && i != 7 && i != 10 && i != 13 && i != 16 ==> '0'
            <= #[trigger] s[i] <= '9'
}

/// The characters of a time in a year of four digits.
spec fn stamp_chars(y: int, m: int, d: int, secs: int) -> Seq<char> {
    field_chars(y, m, d, secs / 3600, (secs % 3600) / 60, secs % 60)
}

/// A time in a year of four digits, written out.
proof fn lemma_stamp_chars(y: int, m: int, d: int, secs: int)
    requires
        0 <= y <= 9999,
        is_date(y, m, d),
        0 <= secs < 86_400,
    ensures
        stamp_text(y, m, d, secs) == stamp_chars(y, m, d, secs),
        is_stamp_form(stamp_chars(y, m, d, secs)),
{
    reveal(field_chars);
    let (h, mi, s) = (secs / 3600, (secs % 3600) / 60, secs % 60);
    lemma_padded(y);
    lemma_padded(m);
    lemma_padded(d);
    lemma_padded(h);
    lemma_padded(mi);
    lemma_padded(s);
    reveal_strlit("-");
    reveal_strlit(" ");
    reveal_strlit(":");
    reveal_strlit(" UTC");
    let all = stamp_chars(y, m, d, secs);
    assert(padded(y, 4) =~= all.take(4));
    let text = padded(y, 4) + "-"@;
    assert(text =~= all.take(5));
    let text = text + padded(m, 2);
    assert(text =~= all.take(7));
    let text = text + "-"@;
    assert(text =~= all.take(8));
    let text = text + padded(d, 2);
    assert(text =~= all.take(10));
    let text = text + " "@;
    assert(text =~= all.take(11));
    let text = text + padded(h, 2);
    assert(text =~= all.take(13));
    let text = text + ":"@;
    assert(text =~= all.take(14));
    let text = text + padded(mi, 2);
    assert(text =~= all.take(16));
    let text = text + ":"@;
    assert(text =~= all.take(17));
    let text = text + padded(s, 2);
    assert(text =~= all.take(19));
    let text = text + " UTC"@;
    assert(text =~= all);
}

/// In the years 0 to 9999 the digits of a time spell a date and a time of day
/// that give the time back: as many days after 1970-01-01, and as many hours,
/// minutes and seconds after midnight.
pub proof fn law_timestamp_spells_the_time(t: int)
    requires
        -62_167_219_200 <= t <= 253_402_300_799,
    ensures
        ({
            let s = timestamp_text(t);
            let v = |i: int| s[i] as int - '0' as int;
            let y = 1000 * v(0) + 100 * v(1) + 10 * v(2) + v(3);
            let m = 10 * v(5) + v(6);
            let d = 10 * v(8) + v(9);
            let h = 10 * v(11) + v(12);
            let mi = 10 * v(14) + v(15);
            let sec = 10 * v(17) + v(18);
            &&& is_stamp_form(s)
            &&& is_date(y, m, d)
            &&& 0 <= h < 24
            &&& 0 <= mi < 60
            &&& 0 <= sec < 60
            &&& day_number(y, m, d) * 86_400 + h * 3600 + mi * 60 + sec == t
        }),
{
    let (y, m, d) = written(t);
    let secs = t % 86_400;
    lemma_clock(secs);
    lemma_spelled(y, m, d, secs / 3600, (secs % 3600) / 60, secs % 60);
}

proof fn lemma_spelled(y: int, m: int, d: int, h: int, mi: int, sec: int)
    requires
        0 <= y <= 9999,
        0 <= m < 100,
        0 <= d < 100,
        0 <= h < 100,
        0 <= mi < 100,
        0 <= sec < 100,
    ensures
        ({
            let s = field_chars(y, m, d, h, mi, sec);
            let v = |i: int| s[i] as int - '0' as int;
            &&& y == 1000 * v(0) + 100 * v(1) + 10 * v(2) + v(3)
            &&& m == 10 * v(5) + v(6)
            &&& d == 10 * v(8) + v(9)
            &&& h == 10 * v(11) + v(12)
            &&& mi == 10 * v(14) + v(15)
            &&& sec == 10 * v(17) + v(18)
        }),
{
    reveal(field_chars);
    lemma_four_digits(y);
}

/// A time is written as its date and its time of day, each number filled up to
/// its width: the date that lies as many days from 1970-01-01 as the time does.
pub proof fn law_timestamp_is_written_out(t: int, y: int, m: int, d: int, h: int, mi: int, s: int)
    requires
        is_date(y, m, d),
        0 <= h < 24,
        0 <= mi < 60,
        0 <= s < 60,
        t == day_number(y, m, d) * 86_400 + h * 3600 + mi * 60 + s,
    ensures
        timestamp_text(t) == padded(y, 4) + "-"@ + padded(m, 2) + "-"@ + padded(d, 2) + " "@
            + padded(h, 2) + ":"@ + padded(mi, 2) + ":"@ + padded(s, 2) + " UTC"@,
{
    let secs = h * 3600 + mi * 60 + s;
    let day = day_number(y, m, d);
    assert(t / 86_400 == day && t % 86_400 == secs);
    assert(secs / 3600 == h && secs % 3600 == mi * 60 + s);
    assert((mi * 60 + s) / 60 == mi);
    assert(secs % 60 == s);
    let (dy, dm, dd) = date_at(day);
    law_day_number_unique(y, m, d, dy, dm, dd);
}

/// How long ago a time was is given in the largest unit that has passed, as
/// often as that has passed whole: `n` seconds, minutes, hours or days. What is
/// less than five seconds ago, or still to come, is now; after thirty days it
/// is the time itself.
pub proof fn law_relative_times(now: int, t: int, n: nat)
    ensures
        now - t < 5 ==> relative_text(now, t) == "just now"@,
        5 <= now - t < 60 && now - t == n ==> relative_text(now, t) == decimal(n) + "s ago"@,
        60 <= now - t < 3600 && n * 60 <= now - t < (n + 1) * 60 ==> relative_text(now, t)
            == decimal(n) + "m ago"@,
        3600 <= now - t < 86_400 && n * 3600 <= now - t < (n + 1) * 3600 ==> relative_text(now, t)
            == decimal(n) + "h ago"@,
        86_400 <= now - t < 2_592_000 && n * 86_400 <= now - t < (n + 1) * 86_400
            ==> relative_text(now, t) == decimal(n) + "d ago"@,
        now - t >= 2_592_000 ==> relative_text(now, t) == timestamp_text(t),
{
}

/// In the years 0 to 9999 a time has 23 characters, and of two times the later
/// one has the text that sorts later: no two seconds are written alike.
pub proof fn law_later_times_sort_later(t1: int, t2: int)
    requires
        -62_167_219_200 <= t1 < t2 <= 253_402_300_799,
    ensures
        is_stamp_form(timestamp_text(t1)),
        is_stamp_form(timestamp_text(t2)),
        sorts_before(timestamp_text(t1), timestamp_text(t2)),
        timestamp_text(t1) != timestamp_text(t2),
{
    let (y1, m1, d1) = written(t1);
    let (y2, m2, d2) = written(t2);
    law_day_number_ordered(y1, m1, d1, y2, m2, d2);
    law_day_number_ordered(y2, m2, d2, y1, m1, d1);
    lemma_chars_ordered(y1, m1, d1, t1 % 86_400, y2, m2, d2, t2 % 86_400);
    let (a, b) = (timestamp_text(t1), timestamp_text(t2));
    let k = choose|k: int| is_lower_at(a, b, k);
    assert(a[k] < b[k]);
}

/// The date of a time in the years 0 to 9999, and its text.
proof fn written(t: int) -> (r: (int, int, int))
    requires
        -62_167_219_200 <= t <= 253_402_300_799,
    ensures
        is_date(r.0, r.1, r.2),
        day_number(r.0, r.1, r.2) == t / 86_400,
        0 <= r.0 <= 9999,
        timestamp_text(t) == stamp_chars(r.0, r.1, r.2, t % 86_400),
        is_stamp_form(timestamp_text(t)),
{
    let (y, m, d) = dated(t / 86_400);
    lemma_stamp_chars(y, m, d, t % 86_400);
    (y, m, d)
}

/// A second of a day is a second of a minute of an hour.
proof fn lemma_clock(secs: int)
    requires
        0 <= secs < 86_400,
    ensures
        secs == 3600 * (secs / 3600) + 60 * ((secs % 3600) / 60) + secs % 60,
        0 <= secs / 3600 < 24,
        0 <= (secs % 3600) / 60 < 60,
        0 <= secs % 60 < 60,
{
}

/// Earlier dates, and earlier seconds of one date, sort earlier.
proof fn lemma_chars_ordered(
    y1: int,
    m1: int,
    d1: int,
    s1: int,
    y2: int,
    m2: int,
    d2: int,
    s2: int,
)
    requires
        is_date(y1, m1, d1),
        is_date(y2, m2, d2),
        0 <= y1 <= 9999,
        0 <= y2 <= 9999,
        0 <= s1 < 86_400,
        0 <= s2 < 86_400,
        is_earlier(y1, m1, d1, y2, m2, d2) || (y1 == y2 && m1 == m2 && d1 == d2 && s1 < s2),
    ensures
        sorts_before(stamp_chars(y1, m1, d1, s1), stamp_chars(y2, m2, d2, s2)),
{
    lemma_clock(s1);
    lemma_clock(s2);
    let (h1, n1, c1) = (s1 / 3600, (s1 % 3600) / 60, s1 % 60);
    let (h2, n2, c2) = (s2 / 3600, (s2 % 3600) / 60, s2 % 60);
    if y1 < y2 {
        lemma_year_differs(y1, m1, d1, h1, n1, c1, y2, m2, d2, h2, n2, c2);
    } else {
        let f1 = seq![m1, d1, h1, n1, c1];
        let f2 = seq![m2, d2, h2, n2, c2];
        let k: int = if m1 != m2 {
            0
        } else if d1 != d2 {
            1
        } else if h1 != h2 {
            2
        } else if n1 != n2 {
            3
        } else {
            4
        };
        lemma_field_differs(y1, f1, f2, k);
    }
}

/// The date of a day of the years 0 to 9999.
proof fn dated(day: int) -> (r: (int, int, int))
    requires
        -719_528 <= day <= 2_932_896,
    ensures
        r == date_at(day),
        is_date(r.0, r.1, r.2),
        day_number(r.0, r.1, r.2) == day,
        0 <= r.0 <= 9999,
{
    let (y0, m0, d0) = lemma_has_date(day);
    let (y, m, d) = date_at(day);
    lemma_four_digit_years(y, m, d);
    (y, m, d)
}

/// The characters of a time by the numbers in it.
#[verifier::opaque]
spec fn field_chars(y: int, m: int, d: int, h: int, mi: int, s: int) -> Seq<char> {
    seq![
        digit(y / 1000),
        digit(y / 100 % 10),
        digit(y / 10 % 10),
        digit(y % 10),
        '-',
        digit(m / 10),
        digit(m % 10),
        '-',
        digit(d / 10),
        digit(d % 10),
        ' ',
        digit(h / 10),
        digit(h % 10),
        ':',
        digit(mi / 10),
        digit(mi % 10),
        ':',
        digit(s / 10),
        digit(s % 10),
        ' ',
        'U',
        'T',
        'C',
    ]
}

/// Of two numbers of two digits the larger has the larger first digit, or the
/// same and the larger last digit.
proof fn lemma_two_digits(a: int, b: int)
    requires
        0 <= a < b < 100,
    ensures
        0 <= a / 10 <= b / 10 <= 9,
        0 <= a % 10 <= 9,
        0 <= b % 10 <= 9,
        a / 10 == b / 10 ==> a % 10 < b % 10,
{
}

/// A number of four digits is made of two numbers of two.
proof fn lemma_four_digits(n: int)
    requires
        0 <= n <= 9999,
    ensures
        n == 100 * (n / 100) + n % 100,
        0 <= n / 100 < 100,
        0 <= n % 100 < 100,
        n / 1000 == n / 100 / 10,
        n / 10 % 10 == n % 100 / 10,
        n % 10 == n % 100 % 10,
{
}

proof fn lemma_year_differs(
    y1: int,
    m1: int,
    d1: int,
    h1: int,
    n1: int,
    c1: int,
    y2: int,
    m2: int,
    d2: int,
    h2: int,
    n2: int,
    c2: int,
)
    requires
        0 <= y1 < y2 <= 9999,
    ensures
        sorts_before(field_chars(y1, m1, d1, h1, n1, c1), field_chars(y2, m2, d2, h2, n2, c2)),
{
    reveal(field_chars);
    let a = field_chars(y1, m1, d1, h1, n1, c1);
    let b = field_chars(y2, m2, d2, h2, n2, c2);
    lemma_four_digits(y1);
    lemma_four_digits(y2);
    let (p1, q1) = (y1 / 100, y1 % 100);
    let (p2, q2) = (y2 / 100, y2 % 100);
    assert(a[0] == digit(p1 / 10) && b[0] == digit(p2 / 10));
    assert(a[1] == digit(p1 % 10) && b[1] == digit(p2 % 10));
    assert(a[2] == digit(q1 / 10) && b[2] == digit(q2 / 10));
    assert(a[3] == digit(q1 % 10) && b[3] == digit(q2 % 10));
    if p1 != p2 {
        lemma_two_digits(p1, p2);
        assert(is_lower_at(a, b, 0) || is_lower_at(a, b, 1));
    } else {
        lemma_two_digits(q1, q2);
        assert(is_lower_at(a, b, 2) || is_lower_at(a, b, 3));
    }
}

/// Where one of the two digit numbers after the year is the first to differ.
proof fn lemma_field_differs(y: int, f1: Seq<int>, f2: Seq<int>, k: int)
    requires
        f1.len() == 5,
        f2.len() == 5,
        0 <= k < 5,
        forall|i: int| 0 <= i < k ==> f1[i] == f2[i],
        0 <= f1[k] < f2[k] < 100,
    ensures
        sorts_before(
            field_chars(y, f1[0], f1[1], f1[2], f1[3], f1[4]),
            field_chars(y, f2[0], f2[1], f2[2], f2[3], f2[4]),
        ),
{
    reveal(field_chars);
    let a = field_chars(y, f1[0], f1[1], f1[2], f1[3], f1[4]);
    let b = field_chars(y, f2[0], f2[1], f2[2], f2[3], f2[4]);
    lemma_two_digits(f1[k], f2[k]);
    let at = 5 + 3 * k;
    assert(a[at] == digit(f1[k] / 10) && b[at] == digit(f2[k] / 10));
    assert(a[at + 1] == digit(f1[k] % 10) && b[at + 1] == digit(f2[k] % 10));
    assert forall|i: int| 0 <= i < at implies a[i] == b[i] by {
        assert(k > 0 ==> f1[0] == f2[0]);
        assert(k > 1 ==> f1[1] == f2[1]);
        assert(k > 2 ==> f1[2] == f2[2]);
        assert(k > 3 ==> f1[3] == f2[3]);
    }
    if f1[k] / 10 != f2[k] / 10 {
        assert(is_lower_at(a, b, at));
    } else {
        assert(is_lower_at(a, b, at + 1));
    }
}

/// The history never exceeds its maximum, its newest entry stands last, and
/// what is dropped is older than everything that stays.
pub proof fn law_history_is_bounded(entries: Seq<SavedModel>, entry: SavedModel)
    ensures
        remembered(entries, entry).len() <= MAX_SAVED,
        remembered(entries, entry).last() == entry,
        exists|dropped: int|
            0 <= dropped <= entries.len() && remembered(entries, entry)
                == #[trigger] entries.push(entry).skip(dropped),
        entries.len() < MAX_SAVED ==> remembered(entries, entry) == entries.push(entry),
        remembered(entries, entry).len() == if entries.len() < 1000 {
            entries.len() + 1
        } else {
            1000
        },
        forall|i: int|
            0 <= i < remembered(entries, entry).len() - 1 ==> #[trigger] remembered(
                entries,
                entry,
            )[i] == entries[entries.len() - (remembered(entries, entry).len() - 1) + i],
{
    let all = entries.push(entry);
    let dropped = if all.len() > MAX_SAVED {
        all.len() - MAX_SAVED
    } else {
        0
    };
    assert(remembered(entries, entry) =~= all.skip(dropped));
}

} // verus!
