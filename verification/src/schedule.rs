//! Matching catch windows against a weekly local-time schedule.
use vstd::prelude::*;
use crate::arith::{floor_div, floor_mod};
use vstd::arithmetic::div_mod::{lemma_div_is_ordered, lemma_fundamental_div_mod};
use crate::fish::{Fish, FishWindow, deterministic};

verus! {

/// Seconds in a day.
pub const DAY_SECS: u32 = 86_400;

/// The largest number of seconds since the epoch that a system time holds.
pub const MAX_UNIX_SECS: u64 = 0x7fff_ffff_ffff_ffff;

/// One recurring slot of the schedule, in local time of day.
///
/// `day_of_week` counts from Sunday (0) to Saturday (6); `None` means every
/// day.  When `end_sec <= start_sec` the slot runs past midnight into the
/// next day.
#[derive(Debug, Clone, Copy)]
pub struct ScheduleEntry {
    pub day_of_week: Option<u8>,
    pub start_sec: u64,
    pub end_sec: u64,
}

/// A second count read back as a signed 64-bit value, as the two's-complement
/// reinterpretation does.
pub open spec fn signed_secs(x: u64) -> int {
    if x <= 0x7fff_ffff_ffff_ffff {
        x as int
    } else {
        x as int - 0x1_0000_0000_0000_0000
    }
}

/// The weekday of a day counted from the epoch (1970-01-01 was a Thursday).
pub open spec fn weekday(day: int) -> int {
    (day + 4) % 7
}

/// Whether the entry is active on the given local day.
pub open spec fn entry_applies_on(entry: ScheduleEntry, day: int) -> bool {
    match entry.day_of_week {
        Some(d) => d as int == weekday(day),
        None => true,
    }
}

/// Local start of the entry's slot that begins on the given day.
pub open spec fn slot_start(entry: ScheduleEntry, day: int) -> int {
    day * 86_400 + signed_secs(entry.start_sec)
}

/// Local end of the entry's slot that begins on the given day.
pub open spec fn slot_end(entry: ScheduleEntry, day: int) -> int {
    day * 86_400 + signed_secs(entry.end_sec) + if entry.end_sec <= entry.start_sec {
        86_400int
    } else {
        0int
    }
}

/// The entry's slot of the given day meets the local interval
/// `[local_start, local_end)`.
pub open spec fn slot_overlaps(entry: ScheduleEntry, day: int, local_start: int, local_end: int) -> bool {
    &&& entry_applies_on(entry, day)
    &&& local_start < slot_end(entry, day)
    &&& local_end > slot_start(entry, day)
}

/// First local day whose slots are examined: the day before the window starts.
pub open spec fn first_day(local_start: int) -> int {
    local_start / 86_400 - 1
}

/// Last local day whose slots are examined: the day the window's last second
/// falls on.
pub open spec fn last_day(local_end: int) -> int {
    (local_end - 1) / 86_400
}

/// The window `[start, end)` (epoch seconds), shifted into local time by the
/// offset, meets a slot of some schedule entry that begins on a local day from
/// the day before the window starts to the day its last second falls on.
pub open spec fn overlaps_schedule(
    start: u64,
    end: u64,
    schedule: Seq<ScheduleEntry>,
    offset: i32,
) -> bool {
    let local_start = start + offset;
    let local_end = end + offset;
    exists|day: int, k: int|
        first_day(local_start) <= day <= last_day(local_end) && 0 <= k < schedule.len()
            && #[trigger] slot_overlaps(schedule[k], day, local_start, local_end)
}

/// Some slot of some entry, on any local day whatsoever, meets the local
/// interval `[local_start, local_end)`.
pub open spec fn meets_some_slot(local_start: int, local_end: int, schedule: Seq<ScheduleEntry>) -> bool {
    exists|day: int, k: int|
        0 <= k < schedule.len() && #[trigger] slot_overlaps(schedule[k], day, local_start, local_end)
}

/// Every entry gives its start and end as a time of day (at most one day).
pub open spec fn times_of_day(schedule: Seq<ScheduleEntry>) -> bool {
    forall|k: int|
        0 <= k < schedule.len() ==> #[trigger] schedule[k].start_sec <= 86_400
            && schedule[k].end_sec <= 86_400
}

/// When every entry is given as a time of day, looking at the slots that begin
/// from the day before the window to the day of its last second misses none:
/// the window overlaps the schedule exactly when it meets a slot of some entry
/// on some local day.
pub proof fn lemma_search_days_suffice(start: u64, end: u64, schedule: Seq<ScheduleEntry>, offset: i32)
    requires
        times_of_day(schedule),
    ensures
        overlaps_schedule(start, end, schedule, offset) == meets_some_slot(
            start + offset,
            end + offset,
            schedule,
        ),
{
    let ls = start + offset;
    let le = end + offset;
    if meets_some_slot(ls, le, schedule) {
        let (day, k) = choose|day: int, k: int|
            0 <= k < schedule.len() && #[trigger] slot_overlaps(schedule[k], day, ls, le);
        let e = schedule[k];
        assert(e.start_sec <= 86_400 && e.end_sec <= 86_400);
        assert(slot_end(e, day) <= day * 86_400 + 2 * 86_400);
        assert(slot_start(e, day) >= day * 86_400);
        let q1 = ls / 86_400;
        let q2 = (le - 1) / 86_400;
        lemma_fundamental_div_mod(ls, 86_400);
        lemma_fundamental_div_mod(le - 1, 86_400);
        assert(q1 <= day + 1) by (nonlinear_arith)
            requires
                ls == 86_400 * q1 + ls % 86_400,
                0 <= ls % 86_400,
                ls < day * 86_400 + 2 * 86_400,
        ;
        assert(q2 >= day) by (nonlinear_arith)
            requires
                le - 1 == 86_400 * q2 + (le - 1) % 86_400,
                (le - 1) % 86_400 < 86_400,
                le - 1 >= day * 86_400,
        ;
        assert(first_day(ls) <= day <= last_day(le));
    }
}

/// The entry's slot that begins on local day `day` (days counted from the
/// epoch, whose weekday is `(day + 4) % 7` with Sunday 0), written out: the
/// entry applies on that weekday (or every day), and the slot from
/// `day * 86400 + start_sec` to `day * 86400 + end_sec` (a day later when
/// `end_sec <= start_sec`) meets the local interval `[local_start,
/// local_end)`.
pub open spec fn weekly_slot_meets(entry: ScheduleEntry, day: int, local_start: int, local_end: int) -> bool {
    &&& match entry.day_of_week {
        Some(d) => (day + 4) % 7 == d as int,
        None => true,
    }
    &&& local_start < day * 86_400 + signed_secs(entry.end_sec) + if entry.end_sec
        <= entry.start_sec {
        86_400int
    } else {
        0int
    }
    &&& local_end > day * 86_400 + signed_secs(entry.start_sec)
}

/// A window overlaps the schedule only through a slot of some entry on a
/// local day of the entry's weekday (so an entry for day `d` never matches a
/// window away from the slots of days of weekday `d`).  When every entry is a
/// time of day, any such slot on any day makes it overlap.
pub proof fn lemma_overlap_meaning(start: u64, end: u64, schedule: Seq<ScheduleEntry>, offset: i32)
    ensures
        overlaps_schedule(start, end, schedule, offset) ==> exists|day: int, k: int|
            0 <= k < schedule.len() && #[trigger] weekly_slot_meets(
                schedule[k],
                day,
                start + offset,
                end + offset,
            ),
        (forall|k: int|
            0 <= k < schedule.len() ==> #[trigger] schedule[k].start_sec <= 86_400
                && schedule[k].end_sec <= 86_400) ==> ((exists|day: int, k: int|
            0 <= k < schedule.len() && #[trigger] weekly_slot_meets(
                schedule[k],
                day,
                start + offset,
                end + offset,
            )) ==> overlaps_schedule(start, end, schedule, offset)),
{
    let ls = start + offset;
    let le = end + offset;
    if overlaps_schedule(start, end, schedule, offset) {
        let (day, k) = choose|day: int, k: int|
            first_day(ls) <= day <= last_day(le) && 0 <= k < schedule.len()
                && #[trigger] slot_overlaps(schedule[k], day, ls, le);
        assert(weekly_slot_meets(schedule[k], day, ls, le));
    }
    if forall|k: int|
        0 <= k < schedule.len() ==> #[trigger] schedule[k].start_sec <= 86_400
            && schedule[k].end_sec <= 86_400 {
        if exists|day: int, k: int|
            0 <= k < schedule.len() && #[trigger] weekly_slot_meets(schedule[k], day, ls, le) {
            let (day, k) = choose|day: int, k: int|
                0 <= k < schedule.len() && #[trigger] weekly_slot_meets(schedule[k], day, ls, le);
            assert(slot_overlaps(schedule[k], day, ls, le));
            assert(meets_some_slot(ls, le, schedule));
            lemma_search_days_suffice(start, end, schedule, offset);
        }
    }
}

fn signed_secs_exec(x: u64) -> (r: i128)
    ensures
        r as int == signed_secs(x),
{
    if x <= MAX_UNIX_SECS {
        x as i128
    } else {
        x as i128 - 0x1_0000_0000_0000_0000i128
    }
}

/// Whether the entry's slot of `day` meets `[local_start, local_end)`.
fn slot_overlaps_exec(entry: &ScheduleEntry, day: i128, local_start: i128, local_end: i128) -> (b:
    bool)
    requires
        -0x1_0000_0000_0000_0000 < day < 0x1_0000_0000_0000_0000,
    ensures
        b == slot_overlaps(*entry, day as int, local_start as int, local_end as int),
{
    let day_start = day * 86_400;
    let wd = floor_mod(day + 4, 7);
    if let Some(entry_day) = entry.day_of_week {
        if entry_day as u32 != wd {
            return false;
        }
    }
    let slot_start = day_start + signed_secs_exec(entry.start_sec);
    let mut slot_end = day_start + signed_secs_exec(entry.end_sec);
    if entry.end_sec <= entry.start_sec {
        slot_end = slot_end + 86_400;
    }
    local_start < slot_end && local_end > slot_start
}

/// Whether the window `[window_start, window_end)` overlaps any slot of the
/// schedule once shifted by the time-zone offset.
pub fn window_overlaps_any_schedule(
    window_start: u64,
    window_end: u64,
    schedule: &[ScheduleEntry],
    timezone_offset_secs: i32,
) -> (b: bool)
    requires
        window_start <= MAX_UNIX_SECS,
        window_end <= MAX_UNIX_SECS,
    ensures
        b == overlaps_schedule(window_start, window_end, schedule@, timezone_offset_secs),
{
    let offset = timezone_offset_secs as i128;
    let local_start = window_start as i128 + offset;
    let local_end = window_end as i128 + offset;
    let first = floor_div(local_start, DAY_SECS) - 1;
    let last = floor_div(local_end - 1, DAY_SECS);
    let ghost ls = local_start as int;
    let ghost le = local_end as int;
    assert(first == first_day(ls));
    assert(last == last_day(le));
    let mut day = first;
    while day <= last
        invariant
            first <= day,
            day <= last + 1 || day == first,
            first == first_day(ls),
            last == last_day(le),
            ls == local_start,
            le == local_end,
            ls == window_start + timezone_offset_secs,
            le == window_end + timezone_offset_secs,
            -0x1_0000_0000_0000_0000 < first,
            last < 0x1_0000_0000_0000_0000,
            forall|d: int, k: int|
                first <= d < day && 0 <= k < schedule@.len() ==> !#[trigger] slot_overlaps(
                    schedule@[k],
                    d,
                    ls,
                    le,
                ),
        decreases last + 1 - day,
    {
        let mut k: usize = 0;
        while k < schedule.len()
            invariant
                first <= day <= last,
                first == first_day(ls),
                last == last_day(le),
                ls == local_start,
                le == local_end,
                ls == window_start + timezone_offset_secs,
                le == window_end + timezone_offset_secs,
                forall|d: int, j: int|
                    first <= d < day && 0 <= j < schedule@.len() ==> !#[trigger] slot_overlaps(
                        schedule@[j],
                        d,
                        ls,
                        le,
                    ),
                -0x1_0000_0000_0000_0000 < first,
                last < 0x1_0000_0000_0000_0000,
                k <= schedule@.len(),
                forall|j: int|
                    0 <= j < k ==> !#[trigger] slot_overlaps(schedule@[j], day as int, ls, le),
            decreases schedule@.len() - k,
        {
            if slot_overlaps_exec(&schedule[k], day, local_start, local_end) {
                assert(slot_overlaps(schedule@[k as int], day as int, ls, le));
                assert(ls == window_start + timezone_offset_secs);
                assert(le == window_end + timezone_offset_secs);
                assert(overlaps_schedule(window_start, window_end, schedule@, timezone_offset_secs));
                return true;
            }
            k = k + 1;
        }
        day = day + 1;
    }
    false
}

/// The moment the `i`-th window of a chain was sought from: the given
/// timestamp for the first, the end of the one before for the others.
pub open spec fn sought_from(chain: Seq<FishWindow>, i: int, timestamp: u64) -> u64 {
    if i == 0 {
        timestamp
    } else {
        chain[i - 1].end_secs()
    }
}

/// `chain` is a run of windows that `next_window` reports one after another:
/// the first sought from `timestamp` (ongoing windows included when
/// `include_ongoing`), each later one sought from the end of the one before
/// (ongoing windows excluded), every one starting no later than `horizon`.
pub open spec fn is_window_chain<F: Fn(&Fish, u64, bool, bool, bool) -> Option<FishWindow>>(
    next_window: F,
    fish: &Fish,
    timestamp: u64,
    include_ongoing: bool,
    filter_intuition: bool,
    use_fish_eyes: bool,
    horizon: u64,
    chain: Seq<FishWindow>,
) -> bool {
    forall|i: int|
        #![trigger chain[i]]
        0 <= i < chain.len() ==> {
            &&& next_window.ensures(
                (
                    fish,
                    sought_from(chain, i, timestamp),
                    include_ongoing && i == 0,
                    filter_intuition,
                    use_fish_eyes,
                ),
                Some(chain[i]),
            )
            &&& chain[i].start_secs() <= horizon
        }
}

/// Sought from `from`, `next_window` reports no window, or one that starts
/// after `horizon`.
pub open spec fn ends_search<F: Fn(&Fish, u64, bool, bool, bool) -> Option<FishWindow>>(
    next_window: F,
    fish: &Fish,
    from: u64,
    include_ongoing: bool,
    filter_intuition: bool,
    use_fish_eyes: bool,
    horizon: u64,
) -> bool {
    exists|r: Option<FishWindow>|
        #[trigger] next_window.ensures(
            (fish, from, include_ongoing, filter_intuition, use_fish_eyes),
            r,
        ) && match r {
            Some(w) => w.start_secs() > horizon,
            None => true,
        }
}

/// The search ends after `chain`: the next report is none, or starts after
/// `horizon`.
pub open spec fn chain_ends<F: Fn(&Fish, u64, bool, bool, bool) -> Option<FishWindow>>(
    next_window: F,
    fish: &Fish,
    timestamp: u64,
    include_ongoing: bool,
    filter_intuition: bool,
    use_fish_eyes: bool,
    horizon: u64,
    chain: Seq<FishWindow>,
) -> bool {
    ends_search(
        next_window,
        fish,
        sought_from(chain, chain.len() as int, timestamp),
        include_ongoing && chain.len() == 0,
        filter_intuition,
        use_fish_eyes,
        horizon,
    )
}

/// A window is kept when it has not ended by `now` and overlaps the schedule.
pub open spec fn keeps(w: FishWindow, now: u64, schedule: Seq<ScheduleEntry>, offset: i32) -> bool {
    w.end_secs() > now && overlaps_schedule(w.start_secs(), w.end_secs(), schedule, offset)
}

/// The windows of `chain` that are kept, in order.
pub open spec fn kept(chain: Seq<FishWindow>, now: u64, schedule: Seq<ScheduleEntry>, offset: i32) -> Seq<
    FishWindow,
>
    decreases chain.len(),
{
    if chain.len() == 0 {
        Seq::empty()
    } else {
        let before = kept(chain.drop_last(), now, schedule, offset);
        if keeps(chain.last(), now, schedule, offset) {
            before.push(chain.last())
        } else {
            before
        }
    }
}

/// Every kept window has not ended by `now`, overlaps the schedule, and is
/// one of the windows of the chain; so none starts after a bound that all of
/// them respect.
pub proof fn lemma_kept_sound(
    chain: Seq<FishWindow>,
    now: u64,
    schedule: Seq<ScheduleEntry>,
    offset: i32,
    horizon: u64,
)
    requires
        forall|i: int| 0 <= i < chain.len() ==> (#[trigger] chain[i]).start_secs() <= horizon,
    ensures
        kept(chain, now, schedule, offset).len() <= chain.len(),
        forall|i: int|
            0 <= i < kept(chain, now, schedule, offset).len() ==> {
                let w = #[trigger] kept(chain, now, schedule, offset)[i];
                &&& keeps(w, now, schedule, offset)
                &&& w.start_secs() <= horizon
                &&& chain.contains(w)
            },
    decreases chain.len(),
{
    if chain.len() > 0 {
        let init = chain.drop_last();
        assert forall|i: int| 0 <= i < init.len() implies (#[trigger] init[i]).start_secs() <= horizon by {
            assert(init[i] == chain[i]);
        }
        lemma_kept_sound(init, now, schedule, offset, horizon);
        let before = kept(init, now, schedule, offset);
        assert forall|i: int| 0 <= i < before.len() implies chain.contains(#[trigger] before[i]) by {
            let j = choose|j: int| 0 <= j < init.len() && init[j] == before[i];
            assert(chain[j] == init[j]);
        }
        assert(chain[chain.len() - 1] == chain.last());
    }
}

/// A schedule of one slot covering every whole day, midnight to midnight.
pub open spec fn whole_days() -> Seq<ScheduleEntry> {
    seq![ScheduleEntry { day_of_week: None, start_sec: 0, end_sec: 86_400 }]
}

/// A schedule of one slot covering every day from a time of day to the same
/// time the next day.
pub open spec fn day_from(h: u64) -> Seq<ScheduleEntry> {
    seq![ScheduleEntry { day_of_week: None, start_sec: h, end_sec: h }]
}

/// A window that lasts at least a second overlaps a schedule that covers every
/// moment of every day, whatever the offset.
pub proof fn lemma_full_day_overlaps(start: u64, end: u64, offset: i32, h: u64)
    requires
        start < end,
        h < 86_400,
    ensures
        overlaps_schedule(start, end, whole_days(), offset),
        overlaps_schedule(start, end, day_from(h), offset),
{
    let ls = start + offset;
    let le = end + offset;
    let dd = 86_400int;
    lemma_div_is_ordered(ls, le - 1, dd);
    lemma_fundamental_div_mod(ls, dd);
    let d = ls / dd;
    let e = whole_days()[0];
    assert(slot_start(e, d) == d * dd);
    assert(slot_end(e, d) == d * dd + dd);
    assert(slot_overlaps(e, d, ls, le));
    assert(first_day(ls) <= d <= last_day(le));

    let x = ls - h;
    lemma_fundamental_div_mod(x, dd);
    lemma_div_is_ordered(x, le - 1, dd);
    let q = x / dd;
    let q0 = ls / dd;
    assert(q >= q0 - 1) by (nonlinear_arith)
        requires
            x == dd * q + x % dd,
            ls == dd * q0 + ls % dd,
            0 <= x % dd < dd,
            0 <= ls % dd < dd,
            x == ls - h,
            0 <= h < dd,
            dd == 86_400,
    ;
    let g = day_from(h)[0];
    assert(slot_start(g, q) == q * dd + h);
    assert(slot_end(g, q) == q * dd + h + dd);
    assert(slot_overlaps(g, q, ls, le));
    assert(first_day(ls) <= q <= last_day(le));
}

/// The windows of `chain` that have not ended by `now`, in order.
pub open spec fn unfinished(chain: Seq<FishWindow>, now: u64) -> Seq<FishWindow>
    decreases chain.len(),
{
    if chain.len() == 0 {
        Seq::empty()
    } else {
        let before = unfinished(chain.drop_last(), now);
        if chain.last().end_secs() > now {
            before.push(chain.last())
        } else {
            before
        }
    }
}

/// Under a schedule that covers every moment of every day, every window that
/// lasts at least a second and has not ended by `now` is kept: the schedule
/// filters nothing.
pub proof fn lemma_full_day_keeps_unfinished(
    chain: Seq<FishWindow>,
    now: u64,
    offset: i32,
    h: u64,
)
    requires
        forall|i: int| 0 <= i < chain.len() ==> (#[trigger] chain[i]).start_secs() < chain[i].end_secs(),
        h < 86_400,
    ensures
        kept(chain, now, whole_days(), offset) == unfinished(chain, now),
        kept(chain, now, day_from(h), offset) == unfinished(chain, now),
    decreases chain.len(),
{
    if chain.len() > 0 {
        let init = chain.drop_last();
        assert forall|i: int| 0 <= i < init.len() implies (#[trigger] init[i]).start_secs()
            < init[i].end_secs() by {
            assert(init[i] == chain[i]);
        }
        lemma_full_day_keeps_unfinished(init, now, offset, h);
        let w = chain.last();
        assert(w == chain[chain.len() - 1]);
        lemma_full_day_overlaps(w.start_secs(), w.end_secs(), offset, h);
    }
}

/// Every report of `next_window` ends after the moment it was sought from.
pub open spec fn moves_forward<F: Fn(&Fish, u64, bool, bool, bool) -> Option<FishWindow>>(
    next_window: F,
) -> bool {
    forall|fish: &Fish, from: u64, a: bool, b: bool, c: bool, w: FishWindow|
        #[trigger] next_window.ensures((fish, from, a, b, c), Some(w)) ==> w.end_secs() > from
}

/// `chain` is the run of windows searched, and `windows` what the search
/// gives from it: the kept windows of the chain, at most `limit` of them,
/// where the search stopped at the `limit`-th kept window or because the next
/// report was none or started after `horizon`.  The chain has no more windows
/// than there are seconds from `timestamp` to the largest system time, since
/// every window ends later than the one before.
pub open spec fn search_chain<F: Fn(&Fish, u64, bool, bool, bool) -> Option<FishWindow>>(
    next_window: F,
    fish: &Fish,
    timestamp: u64,
    include_ongoing: bool,
    filter_intuition: bool,
    use_fish_eyes: bool,
    horizon: u64,
    limit: u32,
    schedule: Seq<ScheduleEntry>,
    offset: i32,
    chain: Seq<FishWindow>,
    windows: Seq<FishWindow>,
) -> bool {
    &&& is_window_chain(
        next_window,
        fish,
        timestamp,
        include_ongoing,
        filter_intuition,
        use_fish_eyes,
        horizon,
        chain,
    )
    &&& windows == kept(chain, timestamp, schedule, offset)
    &&& windows.len() <= limit
    &&& chain.len() <= MAX_UNIX_SECS - timestamp
    &&& if windows.len() == limit {
        chain.len() == 0 || keeps(chain.last(), timestamp, schedule, offset)
    } else {
        chain_ends(
            next_window,
            fish,
            timestamp,
            include_ongoing,
            filter_intuition,
            use_fish_eyes,
            horizon,
            chain,
        )
    }
}

/// `windows` is what searching the windows of `fish` gives (see
/// `search_chain`) for some run of reports of `next_window`.
pub open spec fn search_outcome<F: Fn(&Fish, u64, bool, bool, bool) -> Option<FishWindow>>(
    next_window: F,
    fish: &Fish,
    timestamp: u64,
    include_ongoing: bool,
    filter_intuition: bool,
    use_fish_eyes: bool,
    horizon: u64,
    limit: u32,
    schedule: Seq<ScheduleEntry>,
    offset: i32,
    windows: Seq<FishWindow>,
) -> bool {
    exists|chain: Seq<FishWindow>|
        search_chain(
            next_window,
            fish,
            timestamp,
            include_ongoing,
            filter_intuition,
            use_fish_eyes,
            horizon,
            limit,
            schedule,
            offset,
            chain,
            windows,
        )
}

/// Two runs of a deterministic `next_window` from the same start agree window
/// by window as far as both go.
proof fn lemma_chains_agree<F: Fn(&Fish, u64, bool, bool, bool) -> Option<FishWindow>>(
    next_window: F,
    fish: &Fish,
    timestamp: u64,
    include_ongoing: bool,
    filter_intuition: bool,
    use_fish_eyes: bool,
    h1: u64,
    h2: u64,
    c1: Seq<FishWindow>,
    c2: Seq<FishWindow>,
    i: int,
)
    requires
        deterministic(next_window),
        is_window_chain(
            next_window,
            fish,
            timestamp,
            include_ongoing,
            filter_intuition,
            use_fish_eyes,
            h1,
            c1,
        ),
        is_window_chain(
            next_window,
            fish,
            timestamp,
            include_ongoing,
            filter_intuition,
            use_fish_eyes,
            h2,
            c2,
        ),
        0 <= i < c1.len(),
        i < c2.len(),
    ensures
        c1[i] == c2[i],
    decreases i,
{
    if i > 0 {
        lemma_chains_agree(
            next_window,
            fish,
            timestamp,
            include_ongoing,
            filter_intuition,
            use_fish_eyes,
            h1,
            h2,
            c1,
            c2,
            i - 1,
        );
    }
    let from = sought_from(c1, i, timestamp);
    assert(from == sought_from(c2, i, timestamp));
    let ongoing = include_ongoing && i == 0;
    assert(next_window.ensures((fish, from, ongoing, filter_intuition, use_fish_eyes), Some(c1[i])));
    assert(next_window.ensures((fish, from, ongoing, filter_intuition, use_fish_eyes), Some(c2[i])));
}

/// The kept windows of a first part of a chain are a first part of the kept
/// windows of the chain.
proof fn lemma_kept_prefix(
    chain: Seq<FishWindow>,
    n: int,
    now: u64,
    schedule: Seq<ScheduleEntry>,
    offset: i32,
)
    requires
        0 <= n <= chain.len(),
    ensures
        kept(chain.take(n), now, schedule, offset).is_prefix_of(kept(chain, now, schedule, offset)),
    decreases chain.len(),
{
    if n == chain.len() {
        assert(chain.take(n) =~= chain);
    } else {
        let init = chain.drop_last();
        assert(init.take(n) =~= chain.take(n));
        lemma_kept_prefix(init, n, now, schedule, offset);
        let a = kept(chain.take(n), now, schedule, offset);
        let b = kept(init, now, schedule, offset);
        let c = kept(chain, now, schedule, offset);
        assert(c.subrange(0, b.len() as int) =~= b);
        assert(c.subrange(0, a.len() as int) =~= b.subrange(0, a.len() as int));
    }
}

/// A chain whose search ended cannot be extended by a deterministic
/// `next_window` with a window that starts by the same horizon.
proof fn lemma_ended_chain_is_last<F: Fn(&Fish, u64, bool, bool, bool) -> Option<FishWindow>>(
    next_window: F,
    fish: &Fish,
    timestamp: u64,
    include_ongoing: bool,
    filter_intuition: bool,
    use_fish_eyes: bool,
    h_short: u64,
    h_long: u64,
    short: Seq<FishWindow>,
    long: Seq<FishWindow>,
)
    requires
        deterministic(next_window),
        h_long <= h_short,
        is_window_chain(
            next_window,
            fish,
            timestamp,
            include_ongoing,
            filter_intuition,
            use_fish_eyes,
            h_short,
            short,
        ),
        is_window_chain(
            next_window,
            fish,
            timestamp,
            include_ongoing,
            filter_intuition,
            use_fish_eyes,
            h_long,
            long,
        ),
        chain_ends(
            next_window,
            fish,
            timestamp,
            include_ongoing,
            filter_intuition,
            use_fish_eyes,
            h_short,
            short,
        ),
    ensures
        long.len() <= short.len(),
{
    if long.len() > short.len() {
        let n = short.len() as int;
        if n > 0 {
            lemma_chains_agree(
                next_window,
                fish,
                timestamp,
                include_ongoing,
                filter_intuition,
                use_fish_eyes,
                h_short,
                h_long,
                short,
                long,
                n - 1,
            );
        }
        let from = sought_from(short, n, timestamp);
        assert(from == sought_from(long, n, timestamp));
        let ongoing = include_ongoing && n == 0;
        assert(next_window.ensures((fish, from, ongoing, filter_intuition, use_fish_eyes), Some(long[n])));
        let r = choose|r: Option<FishWindow>|
            #[trigger] next_window.ensures((fish, from, ongoing, filter_intuition, use_fish_eyes), r)
                && match r {
                Some(w) => w.start_secs() > h_short,
                None => true,
            };
        assert(r == Some(long[n]));
    }
}

/// The chains of two runs of a deterministic `next_window` from the same
/// start: the shorter is a first part of the longer.
proof fn lemma_chain_prefix<F: Fn(&Fish, u64, bool, bool, bool) -> Option<FishWindow>>(
    next_window: F,
    fish: &Fish,
    timestamp: u64,
    include_ongoing: bool,
    filter_intuition: bool,
    use_fish_eyes: bool,
    h1: u64,
    h2: u64,
    c1: Seq<FishWindow>,
    c2: Seq<FishWindow>,
)
    requires
        deterministic(next_window),
        is_window_chain(
            next_window,
            fish,
            timestamp,
            include_ongoing,
            filter_intuition,
            use_fish_eyes,
            h1,
            c1,
        ),
        is_window_chain(
            next_window,
            fish,
            timestamp,
            include_ongoing,
            filter_intuition,
            use_fish_eyes,
            h2,
            c2,
        ),
        c1.len() <= c2.len(),
    ensures
        c1 == c2.take(c1.len() as int),
{
    assert forall|i: int| 0 <= i < c1.len() implies c1[i] == c2.take(c1.len() as int)[i] by {
        lemma_chains_agree(
            next_window,
            fish,
            timestamp,
            include_ongoing,
            filter_intuition,
            use_fish_eyes,
            h1,
            h2,
            c1,
            c2,
            i,
        );
    }
    assert(c1 =~= c2.take(c1.len() as int));
}

/// With a deterministic `next_window`, raising the limit only adds windows at
/// the end: the windows found under the lower limit begin those found under
/// the higher one, and are all of them unless the lower limit was reached.
pub proof fn lemma_limit_only_appends<F: Fn(&Fish, u64, bool, bool, bool) -> Option<FishWindow>>(
    next_window: F,
    fish: &Fish,
    timestamp: u64,
    include_ongoing: bool,
    filter_intuition: bool,
    use_fish_eyes: bool,
    horizon: u64,
    limit1: u32,
    limit2: u32,
    schedule: Seq<ScheduleEntry>,
    offset: i32,
    w1: Seq<FishWindow>,
    w2: Seq<FishWindow>,
)
    requires
        deterministic(next_window),
        limit1 <= limit2,
        search_outcome(
            next_window,
            fish,
            timestamp,
            include_ongoing,
            filter_intuition,
            use_fish_eyes,
            horizon,
            limit1,
            schedule,
            offset,
            w1,
        ),
        search_outcome(
            next_window,
            fish,
            timestamp,
            include_ongoing,
            filter_intuition,
            use_fish_eyes,
            horizon,
            limit2,
            schedule,
            offset,
            w2,
        ),
    ensures
        w1.is_prefix_of(w2),
        w1.len() == limit1 || w1 == w2,
{
    let c1 = choose|c: Seq<FishWindow>|
        search_chain(
            next_window,
            fish,
            timestamp,
            include_ongoing,
            filter_intuition,
            use_fish_eyes,
            horizon,
            limit1,
            schedule,
            offset,
            c,
            w1,
        );
    let c2 = choose|c: Seq<FishWindow>|
        search_chain(
            next_window,
            fish,
            timestamp,
            include_ongoing,
            filter_intuition,
            use_fish_eyes,
            horizon,
            limit2,
            schedule,
            offset,
            c,
            w2,
        );
    if c1.len() <= c2.len() {
        lemma_chain_prefix(
            next_window,
            fish,
            timestamp,
            include_ongoing,
            filter_intuition,
            use_fish_eyes,
            horizon,
            horizon,
            c1,
            c2,
        );
        lemma_kept_prefix(c2, c1.len() as int, timestamp, schedule, offset);
        if c1.len() < c2.len() && w1.len() != limit1 {
            lemma_ended_chain_is_last(
                next_window,
                fish,
                timestamp,
                include_ongoing,
                filter_intuition,
                use_fish_eyes,
                horizon,
                horizon,
                c1,
                c2,
            );
        }
        if c1.len() == c2.len() {
            assert(c2.take(c1.len() as int) =~= c2);
        }
    } else {
        lemma_chain_prefix(
            next_window,
            fish,
            timestamp,
            include_ongoing,
            filter_intuition,
            use_fish_eyes,
            horizon,
            horizon,
            c2,
            c1,
        );
        lemma_kept_prefix(c1, c2.len() as int, timestamp, schedule, offset);
        if w2.len() != limit2 {
            lemma_ended_chain_is_last(
                next_window,
                fish,
                timestamp,
                include_ongoing,
                filter_intuition,
                use_fish_eyes,
                horizon,
                horizon,
                c2,
                c1,
            );
        }
        assert(w2.len() == limit2);
        assert(w1 =~= w2);
    }
}

/// With a deterministic `next_window`, a longer period never removes or
/// reorders windows: those found for the shorter period begin those found
/// for the longer one.
pub proof fn lemma_period_only_appends<F: Fn(&Fish, u64, bool, bool, bool) -> Option<FishWindow>>(
    next_window: F,
    fish: &Fish,
    timestamp: u64,
    include_ongoing: bool,
    filter_intuition: bool,
    use_fish_eyes: bool,
    horizon1: u64,
    horizon2: u64,
    limit: u32,
    schedule: Seq<ScheduleEntry>,
    offset: i32,
    w1: Seq<FishWindow>,
    w2: Seq<FishWindow>,
)
    requires
        deterministic(next_window),
        horizon1 <= horizon2,
        search_outcome(
            next_window,
            fish,
            timestamp,
            include_ongoing,
            filter_intuition,
            use_fish_eyes,
            horizon1,
            limit,
            schedule,
            offset,
            w1,
        ),
        search_outcome(
            next_window,
            fish,
            timestamp,
            include_ongoing,
            filter_intuition,
            use_fish_eyes,
            horizon2,
            limit,
            schedule,
            offset,
            w2,
        ),
    ensures
        w1.is_prefix_of(w2),
{
    let c1 = choose|c: Seq<FishWindow>|
        search_chain(
            next_window,
            fish,
            timestamp,
            include_ongoing,
            filter_intuition,
            use_fish_eyes,
            horizon1,
            limit,
            schedule,
            offset,
            c,
            w1,
        );
    let c2 = choose|c: Seq<FishWindow>|
        search_chain(
            next_window,
            fish,
            timestamp,
            include_ongoing,
            filter_intuition,
            use_fish_eyes,
            horizon2,
            limit,
            schedule,
            offset,
            c,
            w2,
        );
    if c1.len() <= c2.len() {
        lemma_chain_prefix(
            next_window,
            fish,
            timestamp,
            include_ongoing,
            filter_intuition,
            use_fish_eyes,
            horizon1,
            horizon2,
            c1,
            c2,
        );
        lemma_kept_prefix(c2, c1.len() as int, timestamp, schedule, offset);
    } else {
        lemma_chain_prefix(
            next_window,
            fish,
            timestamp,
            include_ongoing,
            filter_intuition,
            use_fish_eyes,
            horizon2,
            horizon1,
            c2,
            c1,
        );
        lemma_kept_prefix(c1, c2.len() as int, timestamp, schedule, offset);
        if w2.len() != limit {
            lemma_ended_chain_is_last(
                next_window,
                fish,
                timestamp,
                include_ongoing,
                filter_intuition,
                use_fish_eyes,
                horizon2,
                horizon1,
                c2,
                c1,
            );
        }
        assert(w2.len() == limit);
        assert(w1 =~= w2);
    }
}

/// What a search gives, in terms of the reports of `next_window` made with the
/// caller's own `filter_intuition` and `use_fish_eyes`: at most `limit`
/// windows, each reported by such a search, not ended by `timestamp` and
/// starting no later than `horizon`; fewer than `limit` only when such a
/// search reported none or a window starting after `horizon`; and, unless
/// `limit` is 0, the first search is made from `timestamp` with the caller's
/// `include_ongoing`.
pub proof fn lemma_search_reports<F: Fn(&Fish, u64, bool, bool, bool) -> Option<FishWindow>>(
    next_window: F,
    fish: &Fish,
    timestamp: u64,
    include_ongoing: bool,
    filter_intuition: bool,
    use_fish_eyes: bool,
    horizon: u64,
    limit: u32,
    schedule: Seq<ScheduleEntry>,
    offset: i32,
    windows: Seq<FishWindow>,
)
    requires
        search_outcome(
            next_window,
            fish,
            timestamp,
            include_ongoing,
            filter_intuition,
            use_fish_eyes,
            horizon,
            limit,
            schedule,
            offset,
            windows,
        ),
    ensures
        windows.len() <= limit,
        forall|i: int|
            #![trigger windows[i]]
            0 <= i < windows.len() ==> {
                &&& windows[i].end_secs() > timestamp
                &&& windows[i].start_secs() <= horizon
                &&& exists|from: u64, ongoing: bool|
                    #[trigger] next_window.ensures(
                        (fish, from, ongoing, filter_intuition, use_fish_eyes),
                        Some(windows[i]),
                    )
            },
        windows.len() < limit ==> exists|from: u64, ongoing: bool, r: Option<FishWindow>|
            #[trigger] next_window.ensures((fish, from, ongoing, filter_intuition, use_fish_eyes), r)
                && match r {
                Some(w) => w.start_secs() > horizon,
                None => true,
            },
        limit > 0 ==> exists|r: Option<FishWindow>|
            #[trigger] next_window.ensures(
                (fish, timestamp, include_ongoing, filter_intuition, use_fish_eyes),
                r,
            ),
{
    let chain = choose|c: Seq<FishWindow>|
        search_chain(
            next_window,
            fish,
            timestamp,
            include_ongoing,
            filter_intuition,
            use_fish_eyes,
            horizon,
            limit,
            schedule,
            offset,
            c,
            windows,
        );
    assert forall|i: int| 0 <= i < chain.len() implies (#[trigger] chain[i]).start_secs() <= horizon by {
    }
    lemma_kept_sound(chain, timestamp, schedule, offset, horizon);
    assert forall|i: int| #![trigger windows[i]] 0 <= i < windows.len() implies {
        &&& windows[i].end_secs() > timestamp
        &&& windows[i].start_secs() <= horizon
        &&& exists|from: u64, ongoing: bool|
            #[trigger] next_window.ensures(
                (fish, from, ongoing, filter_intuition, use_fish_eyes),
                Some(windows[i]),
            )
    } by {
        let w = kept(chain, timestamp, schedule, offset)[i];
        assert(chain.contains(w));
        let j = choose|j: int| 0 <= j < chain.len() && chain[j] == w;
        assert(next_window.ensures(
            (
                fish,
                sought_from(chain, j, timestamp),
                include_ongoing && j == 0,
                filter_intuition,
                use_fish_eyes,
            ),
            Some(chain[j]),
        ));
    }
    if windows.len() < limit {
        assert(chain_ends(
            next_window,
            fish,
            timestamp,
            include_ongoing,
            filter_intuition,
            use_fish_eyes,
            horizon,
            chain,
        ));
    }
    if limit > 0 {
        if chain.len() > 0 {
            assert(next_window.ensures(
                (
                    fish,
                    sought_from(chain, 0, timestamp),
                    include_ongoing && 0 == 0,
                    filter_intuition,
                    use_fish_eyes,
                ),
                Some(chain[0]),
            ));
        } else {
            assert(windows =~= Seq::<FishWindow>::empty());
            assert(ends_search(
                next_window,
                fish,
                timestamp,
                include_ongoing,
                filter_intuition,
                use_fish_eyes,
                horizon,
            ));
        }
    }
}

/// When `next_window` reports no window for the caller's flags, the search
/// gives none.
pub proof fn lemma_no_reports_no_windows<F: Fn(&Fish, u64, bool, bool, bool) -> Option<FishWindow>>(
    next_window: F,
    fish: &Fish,
    timestamp: u64,
    include_ongoing: bool,
    filter_intuition: bool,
    use_fish_eyes: bool,
    horizon: u64,
    limit: u32,
    schedule: Seq<ScheduleEntry>,
    offset: i32,
    windows: Seq<FishWindow>,
)
    requires
        search_outcome(
            next_window,
            fish,
            timestamp,
            include_ongoing,
            filter_intuition,
            use_fish_eyes,
            horizon,
            limit,
            schedule,
            offset,
            windows,
        ),
        forall|from: u64, ongoing: bool, r: Option<FishWindow>|
            #[trigger] next_window.ensures((fish, from, ongoing, filter_intuition, use_fish_eyes), r)
                ==> r is None,
    ensures
        windows.len() == 0,
{
    lemma_search_reports(
        next_window,
        fish,
        timestamp,
        include_ongoing,
        filter_intuition,
        use_fish_eyes,
        horizon,
        limit,
        schedule,
        offset,
        windows,
    );
    if windows.len() > 0 {
        let w = windows[0];
        let (from, ongoing) = choose|from: u64, ongoing: bool|
            #[trigger] next_window.ensures(
                (fish, from, ongoing, filter_intuition, use_fish_eyes),
                Some(windows[0]),
            );
    }
}

/// Every window of `chain` that has not ended by `now` and overlaps the
/// schedule is among the kept windows.
proof fn lemma_kept_complete(chain: Seq<FishWindow>, now: u64, schedule: Seq<ScheduleEntry>, offset: i32)
    ensures
        forall|i: int|
            0 <= i < chain.len() && keeps(#[trigger] chain[i], now, schedule, offset) ==> kept(
                chain,
                now,
                schedule,
                offset,
            ).contains(chain[i]),
    decreases chain.len(),
{
    if chain.len() > 0 {
        let init = chain.drop_last();
        lemma_kept_complete(init, now, schedule, offset);
        let before = kept(init, now, schedule, offset);
        assert forall|i: int|
            0 <= i < chain.len() && keeps(#[trigger] chain[i], now, schedule, offset) implies kept(
                chain,
                now,
                schedule,
                offset,
            ).contains(chain[i]) by {
            if i < chain.len() - 1 {
                assert(init[i] == chain[i]);
                let j = choose|j: int| 0 <= j < before.len() && before[j] == init[i];
                if keeps(chain.last(), now, schedule, offset) {
                    assert(before.push(chain.last())[j] == before[j]);
                }
            } else {
                assert(chain[i] == chain.last());
                assert(before.push(chain.last())[before.len() as int] == chain.last());
            }
        }
    }
}

/// The run of windows a search looks at: the first sought from `timestamp`
/// with the caller's `include_ongoing`, each later one sought from the end of
/// the one before with windows in progress left out, every search made with
/// the caller's own `filter_intuition` and `use_fish_eyes`, and every window of
/// the run starting no later than `horizon`.  The windows given are windows of
/// that run, and every window of the run that has not ended by `timestamp` and
/// overlaps the schedule is given.
pub proof fn lemma_search_run<F: Fn(&Fish, u64, bool, bool, bool) -> Option<FishWindow>>(
    next_window: F,
    fish: &Fish,
    timestamp: u64,
    include_ongoing: bool,
    filter_intuition: bool,
    use_fish_eyes: bool,
    horizon: u64,
    limit: u32,
    schedule: Seq<ScheduleEntry>,
    offset: i32,
    windows: Seq<FishWindow>,
)
    requires
        search_outcome(
            next_window,
            fish,
            timestamp,
            include_ongoing,
            filter_intuition,
            use_fish_eyes,
            horizon,
            limit,
            schedule,
            offset,
            windows,
        ),
    ensures
        exists|run: Seq<FishWindow>|
            #![trigger run.len()]
            {
                &&& forall|i: int|
                    #![trigger run[i]]
                    0 <= i < run.len() ==> {
                        &&& next_window.ensures(
                            (
                                fish,
                                if i == 0 {
                                    timestamp
                                } else {
                                    run[i - 1].end_secs()
                                },
                                include_ongoing && i == 0,
                                filter_intuition,
                                use_fish_eyes,
                            ),
                            Some(run[i]),
                        )
                        &&& run[i].start_secs() <= horizon
                    }
                &&& forall|k: int| 0 <= k < windows.len() ==> run.contains(#[trigger] windows[k])
                &&& forall|i: int|
                    #![trigger run[i]]
                    0 <= i < run.len() && run[i].end_secs() > timestamp && overlaps_schedule(
                        run[i].start_secs(),
                        run[i].end_secs(),
                        schedule,
                        offset,
                    ) ==> windows.contains(run[i])
            },
{
    let chain = choose|c: Seq<FishWindow>|
        search_chain(
            next_window,
            fish,
            timestamp,
            include_ongoing,
            filter_intuition,
            use_fish_eyes,
            horizon,
            limit,
            schedule,
            offset,
            c,
            windows,
        );
    assert forall|i: int| 0 <= i < chain.len() implies (#[trigger] chain[i]).start_secs() <= horizon by {
    }
    lemma_kept_sound(chain, timestamp, schedule, offset, horizon);
    lemma_kept_complete(chain, timestamp, schedule, offset);
    assert forall|i: int|
        #![trigger chain[i]]
        0 <= i < chain.len() implies next_window.ensures(
            (
                fish,
                if i == 0 {
                    timestamp
                } else {
                    chain[i - 1].end_secs()
                },
                include_ongoing && i == 0,
                filter_intuition,
                use_fish_eyes,
            ),
            Some(chain[i]),
        ) by {
        assert(sought_from(chain, i, timestamp) == if i == 0 {
            timestamp
        } else {
            chain[i - 1].end_secs()
        });
    }
    assert forall|k: int| 0 <= k < windows.len() implies chain.contains(#[trigger] windows[k]) by {
        assert(kept(chain, timestamp, schedule, offset)[k] == windows[k]);
    }
    assert forall|i: int|
        #![trigger chain[i]]
        0 <= i < chain.len() && chain[i].end_secs() > timestamp && overlaps_schedule(
            chain[i].start_secs(),
            chain[i].end_secs(),
            schedule,
            offset,
        ) implies windows.contains(chain[i]) by {
        assert(keeps(chain[i], timestamp, schedule, offset));
    }
}

/// The catch windows of `fish` from `timestamp` on that start within
/// `timeperiod_secs` and fall, at least in part, in the schedule (read in the
/// local time `timezone_offset_secs` away from UTC), at most `limit` of them.
///
/// `next_window(fish, from, include_ongoing, filter_intuition, use_fish_eyes)`
/// reports the fish's next window after `from`.  The windows are sought one
/// after another, each from the end of the last; the search stops at `limit`
/// windows kept, at the first window that starts after the period, or when
/// there is none.  A window is kept when it has not ended by `timestamp` and
/// overlaps the schedule.
pub fn fish_windows_in_schedule<F: Fn(&Fish, u64, bool, bool, bool) -> Option<FishWindow>>(
    fish: &Fish,
    timestamp: u64,
    schedule: &[ScheduleEntry],
    timeperiod_secs: u64,
    limit: u32,
    timezone_offset_secs: i32,
    filter_intuition: bool,
    use_fish_eyes: bool,
    include_ongoing: bool,
    next_window: &F,
) -> (windows: Vec<FishWindow>)
    requires
        timestamp + timeperiod_secs <= MAX_UNIX_SECS,
        forall|f: &Fish, from: u64, a: bool, b: bool, c: bool|
            #[trigger] next_window.requires((f, from, a, b, c)),
        moves_forward(*next_window),
    ensures
        search_outcome(
            *next_window,
            fish,
            timestamp,
            include_ongoing,
            filter_intuition,
            use_fish_eyes,
            (timestamp + timeperiod_secs) as u64,
            limit,
            schedule@,
            timezone_offset_secs,
            windows@,
        ),
{
    let now = timestamp;
    let end = timestamp + timeperiod_secs;
    let mut windows: Vec<FishWindow> = Vec::new();
    let mut current = timestamp;
    let mut include_current_ongoing = include_ongoing;
    let ghost mut chain: Seq<FishWindow> = Seq::empty();
    loop
        invariant
            end == timestamp + timeperiod_secs,
            now == timestamp,
            end <= MAX_UNIX_SECS,
            forall|f: &Fish, from: u64, a: bool, b: bool, c: bool|
                #[trigger] next_window.requires((f, from, a, b, c)),
            moves_forward(*next_window),
            is_window_chain(
                *next_window,
                fish,
                timestamp,
                include_ongoing,
                filter_intuition,
                use_fish_eyes,
                end,
                chain,
            ),
            windows@ == kept(chain, timestamp, schedule@, timezone_offset_secs),
            windows.len() <= limit,
            current == sought_from(chain, chain.len() as int, timestamp),
            include_current_ongoing == (include_ongoing && chain.len() == 0),
            chain.len() > 0 && !keeps(chain.last(), timestamp, schedule@, timezone_offset_secs)
                ==> windows.len() < limit,
            current <= MAX_UNIX_SECS,
            chain.len() <= current - timestamp,
        decreases MAX_UNIX_SECS - current,
    {
        if windows.len() >= limit as usize {
            assert(search_chain(
                *next_window,
                fish,
                timestamp,
                include_ongoing,
                filter_intuition,
                use_fish_eyes,
                end,
                limit,
                schedule@,
                timezone_offset_secs,
                chain,
                windows@,
            ));
            return windows;
        }
        let found = next_window(
            fish,
            current,
            include_current_ongoing,
            filter_intuition,
            use_fish_eyes,
        );
        let window = match found {
            Some(window) => window,
            None => {
                assert(ends_search(
                    *next_window,
                    fish,
                    current,
                    include_current_ongoing,
                    filter_intuition,
                    use_fish_eyes,
                    end,
                ));
                assert(search_chain(
                *next_window,
                fish,
                timestamp,
                include_ongoing,
                filter_intuition,
                use_fish_eyes,
                end,
                limit,
                schedule@,
                timezone_offset_secs,
                chain,
                windows@,
            ));
            return windows;
            },
        };
        let window_start = window.start();
        let window_end = window.end();
        if window_start > end {
            assert(ends_search(
                *next_window,
                fish,
                current,
                include_current_ongoing,
                filter_intuition,
                use_fish_eyes,
                end,
            ));
            assert(search_chain(
                *next_window,
                fish,
                timestamp,
                include_ongoing,
                filter_intuition,
                use_fish_eyes,
                end,
                limit,
                schedule@,
                timezone_offset_secs,
                chain,
                windows@,
            ));
            return windows;
        }
        let next_current = window_end;
        let ghost old_chain = chain;
        proof {
            chain = chain.push(window);
            assert(chain.drop_last() =~= old_chain);
            assert forall|i: int| #![trigger chain[i]] 0 <= i < chain.len() implies {
                &&& next_window.ensures(
                    (
                        fish,
                        sought_from(chain, i, timestamp),
                        include_ongoing && i == 0,
                        filter_intuition,
                        use_fish_eyes,
                    ),
                    Some(chain[i]),
                )
                &&& chain[i].start_secs() <= end
            } by {
                if i < old_chain.len() {
                    assert(chain[i] == old_chain[i]);
                    assert(sought_from(chain, i, timestamp) == sought_from(old_chain, i, timestamp));
                }
            }
        }
        if window_end > now && window_overlaps_any_schedule(
            window_start,
            window_end,
            schedule,
            timezone_offset_secs,
        ) {
            windows.push(window);
        }
        current = next_current;
        include_current_ongoing = false;
    }
}

} // verus!
