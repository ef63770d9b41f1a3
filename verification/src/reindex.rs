//! The background refresh schedule: no live filesystem watching, just a
//! full re-walk on a schedule. Once a minute the schedule is consulted with
//! the current settings, so the user can switch between an interval walk,
//! a once-a-day walk at a chosen time, or manual-only without a restart. A
//! tick is skipped while indexing is paused or a walk is still running.

use vstd::prelude::*;
use crate::query::CalendarDate;
use crate::text::{trim_string, trim};

verus! {

/// What chrono's `NaiveTime::parse_from_str(s, "%H:%M")` gives for `s`, as
/// seconds past midnight; `None` when `s` is no such time.
pub uninterp spec fn hm_of_str(s: Seq<char>) -> Option<u32>;

/// Calls chrono's `NaiveTime::parse_from_str(s, "%H:%M")`; its result,
/// as seconds past midnight, is named `hm_of_str`.
#[verifier::external_body]
fn parse_hm(s: &str) -> (r: Option<u32>)
    ensures
        r == hm_of_str(s@),
{
    match chrono::NaiveTime::parse_from_str(s, "%H:%M") {
        Ok(t) => Some(chrono::Timelike::num_seconds_from_midnight(&t)),
        Err(_) => None,
    }
}

/// The daily refresh time of a settings value ("HH:MM", 24h), surrounding
/// whitespace ignored; `None` on garbage, which disables the daily walk.
pub open spec fn daily_time_spec(s: Seq<char>) -> Option<u32> {
    hm_of_str(trim(s))
}

/// Parses the daily refresh time.
pub fn parse_daily_time(s: &str) -> (r: Option<u32>)
    ensures
        r == daily_time_spec(s@),
{
    let t = trim_string(s);
    parse_hm(t.as_str())
}

/// When the schedule last walked: the unix second of the last walk (the
/// interval clock) and the local date of the last daily walk.
#[derive(Clone, Copy)]
pub struct ReindexState {
    pub last_interval_scan: i64,
    pub last_daily_date: Option<CalendarDate>,
}

/// The schedule at start-up, `start` seconds since the epoch, local date
/// `today` and `secs_of_day` seconds past local midnight: the startup walk
/// counts as the last interval walk, and a daily walk counts as done today
/// when the app starts after today's target time (otherwise a start past
/// the target would walk twice within a minute).
pub fn reindex_start(start: i64, today: CalendarDate, secs_of_day: u32, daily_time: &str) -> (r: ReindexState)
    ensures
        r.last_interval_scan == start,
        r.last_daily_date == (match daily_time_spec(daily_time@) {
            Some(t) => if secs_of_day >= t {
                Some(today)
            } else {
                None
            },
            None => None,
        }),
{
    let last_daily_date = match parse_daily_time(daily_time) {
        Some(t) => if secs_of_day >= t {
            Some(today)
        } else {
            None
        },
        None => None,
    };
    ReindexState { last_interval_scan: start, last_daily_date }
}

/// Whole minutes from `last` to `now`, rounded toward zero.
pub open spec fn whole_minutes(last: i64, now: i64) -> int {
    if now >= last {
        (now - last) / 60
    } else {
        -((last - now) / 60)
    }
}

/// The whole `str` equals the chars of `word`.
fn str_is(s: &str, word: &str) -> (r: bool)
    ensures
        r == (s@ == word@),
{
    crate::text::str_eq(s, word)
}

/// One tick of the schedule: whether to walk now, and (when it does) the
/// walk is recorded — always for the interval clock, and as today's daily
/// walk in daily mode.
pub fn reindex_tick(
    st: &mut ReindexState,
    paused: bool,
    scanning: bool,
    mode: &str,
    interval_minutes: u32,
    daily_time: &str,
    now: i64,
    today: CalendarDate,
    secs_of_day: u32,
) -> (r: bool)
    ensures
        r == (!paused && !scanning && (if mode@ == "manual"@ {
            false
        } else if mode@ == "daily"@ {
            match daily_time_spec(daily_time@) {
                Some(t) => secs_of_day >= t && old(st).last_daily_date != Some(today),
                None => false,
            }
        } else {
            whole_minutes(old(st).last_interval_scan, now) >= (if interval_minutes < 1 {
                1
            } else {
                interval_minutes as int
            })
        })),
        r ==> final(st).last_interval_scan == now,
        r ==> final(st).last_daily_date == (if mode@ == "daily"@ {
            Some(today)
        } else {
            old(st).last_daily_date
        }),
        !r ==> *final(st) == *old(st),
{
    if paused || scanning {
        return false;
    }
    let is_manual = str_is(mode, "manual");
    let is_daily = str_is(mode, "daily");
    let due = if is_manual {
        false
    } else if is_daily {
        match parse_daily_time(daily_time) {
            Some(t) => secs_of_day >= t && st.last_daily_date != Some(today),
            None => false,
        }
    } else {
        let mins: i128 = if interval_minutes < 1 {
            1
        } else {
            interval_minutes as i128
        };
        let diff: i128 = now as i128 - st.last_interval_scan as i128;
        let whole: i128 = if diff >= 0 {
            diff / 60
        } else {
            -((-diff) / 60)
        };
        whole >= mins
    };
    if due {
        st.last_interval_scan = now;
        if is_daily {
            st.last_daily_date = Some(today);
        }
    }
    due
}

} // verus!
