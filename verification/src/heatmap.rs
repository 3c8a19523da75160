//! The calendar-grid heatmap.
//!
//! [`build_heatmap`] renders a merged history into 53 Sunday-anchored weeks
//! of 7 day-cells each, oldest first: the grid starts on the Sunday on or
//! before the day 52 weeks before `today` and runs through the Saturday on
//! or after `today`, so the last week is right-padded with future days.
//! Each cell carries its ISO date, its count, and a quantized level.

use vstd::prelude::*;

use crate::date::date_bytes;
use crate::date::date_chars_of;
use crate::date::day_limit;
use crate::date::lemma_days_before_year_lower;
use crate::date::lemma_days_before_year_upper;
use crate::date::week_day;
use crate::date::weekday_from_sunday;
use crate::services::calculate_level;
use crate::services::level_spec;
use crate::totals::max_of;
use crate::totals::Totals;

verus! {

/// One day of the grid: its ISO date `YYYY-MM-DD`, its merged count, and the
/// intensity level quantized against the history's global maximum.
pub struct HeatmapCell {
    pub date: String,
    pub count: u64,
    pub level: u8,
}

/// One column of the grid: exactly seven consecutive days, Sunday first.
pub struct HeatmapWeek {
    pub days: Vec<HeatmapCell>,
}

/// First day of the grid for a given `today`: the most recent Sunday on or
/// before the day 52 weeks earlier.
pub open spec fn grid_start(today: int) -> int {
    (today - 364) - week_day(today - 364)
}

/// A `today` the grid can be built for: late enough that the window stays
/// after 1970, early enough that the padded final week stays in range.
pub open spec fn valid_today(today: int) -> bool {
    400 <= today && today + 7 < day_limit()
}

/// The cell for day number `day` of history `totals` with global maximum
/// `maxc`: the day's date string, its count, and its quantized level.
pub open spec fn cell_matches(cell: HeatmapCell, totals: Totals, maxc: int, day: int) -> bool {
    &&& cell.date@ == date_chars_of(day)
    &&& cell.count as int == totals.count_of(day)
    &&& cell.level as int == level_spec(cell.count as int, maxc)
}

/// The grid contract: 53 weeks of exactly 7 cells, the cell at week `w`
/// position `i` describing day `grid_start(today) + 7w + i`, and the grid
/// starting on a Sunday.
pub open spec fn is_heatmap_for(weeks: Seq<HeatmapWeek>, totals: Totals, today: int) -> bool {
    &&& weeks.len() == 53
    &&& forall|w: int| 0 <= w < weeks.len() ==> (#[trigger] weeks[w]).days@.len() == 7
    &&& forall|w: int, i: int|
        0 <= w < weeks.len() && 0 <= i < 7 ==> cell_matches(
            #[trigger] weeks[w].days@[i],
            totals,
            max_of(totals@),
            grid_start(today) + 7 * w + i,
        )
    &&& week_day(grid_start(today)) == 0
}

/// Relies on `String::from_utf8`: bytes below 128 are ASCII, hence valid
/// UTF-8, and decode to the characters with the same values.
#[verifier::external_body]
fn ascii_string(b: Vec<u8>) -> (r: String)
    requires
        forall|i: int| 0 <= i < b@.len() ==> b@[i] < 128,
    ensures
        r@.len() == b@.len(),
        forall|i: int| 0 <= i < b@.len() ==> r@[i] == b@[i] as char,
{
    match String::from_utf8(b) {
        Ok(s) => s,
        Err(_) => String::new(),
    }
}

/// Relies on `std::time::SystemTime::now`, read through `duration_since` the
/// Unix epoch: the clock in whole seconds, `None` when the clock reads
/// earlier than the epoch. Nothing is promised of the value; it depends on
/// the clock. Neither call panics.
#[verifier::external_body]
fn current_unix_seconds() -> Option<u64> {
    match std::time::SystemTime::now().duration_since(std::time::UNIX_EPOCH) {
        Ok(d) => Some(d.as_secs()),
        Err(_) => None,
    }
}

/// Turn a clock reading (seconds since the Unix epoch, `None` for an
/// unreadable clock) into a UTC calendar day number, clamped into the range
/// the grid supports; the clamp only takes effect on a wildly misconfigured
/// clock (before 1971 or after the year 9900).
pub fn clamp_today(clock: Option<u64>) -> (r: u64)
    ensures
        valid_today(r as int),
        (match clock {
            Some(secs) => 400 <= secs / 86400 <= 2900000 ==> r as int == secs as int / 86400,
            None => r == 400,
        }),
{
    let day: u64 = match clock {
        Some(secs) => secs / 86400,
        None => 0,
    };
    let c: u64 = if day < 400 {
        400
    } else if day > 2900000 {
        2900000
    } else {
        day
    };
    proof {
        lemma_days_before_year_lower(10000);
    }
    c
}

/// The current UTC calendar day, as a day number the grid supports.
pub fn current_day() -> (r: u64)
    ensures
        valid_today(r as int),
{
    clamp_today(current_unix_seconds())
}

/// Build the heatmap grid for `totals` as seen from `today`.
///
/// The week count is provably 53, but the builder still refuses to collect
/// more than 54 weeks whatever the arithmetic says.
pub fn build_heatmap(totals: &Totals, today: u64) -> (weeks: Vec<HeatmapWeek>)
    requires
        totals.wf(),
        valid_today(today as int),
    ensures
        is_heatmap_for(weeks@, *totals, today as int),
        weeks@.len() <= 54,
{
    proof {
        lemma_days_before_year_upper(10000);
    }
    let maxc = totals.max_count();
    let anchor = today - 364;
    let wd = weekday_from_sunday(anchor);
    let start = anchor - wd;
    proof {
        assert(start as int == grid_start(today as int));
        assert(week_day(start as int) == 0);
    }
    let computed: u64 = (today - start) / 7 + 1;
    proof {
        assert(computed == 53);
    }
    let nweeks: u64 = if computed > 54 {
        54
    } else {
        computed
    };
    let mut weeks: Vec<HeatmapWeek> = Vec::new();
    let mut w: u64 = 0;
    while w < nweeks
        invariant
            totals.wf(),
            valid_today(today as int),
            today < 2938980,
            maxc as int == max_of(totals@),
            start as int == grid_start(today as int),
            start <= today,
            nweeks == 53,
            w <= nweeks,
            weeks@.len() == w,
            forall|k: int| 0 <= k < w ==> (#[trigger] weeks@[k]).days@.len() == 7,
            forall|k: int, i: int|
                0 <= k < w && 0 <= i < 7 ==> cell_matches(
                    #[trigger] weeks@[k].days@[i],
                    *totals,
                    maxc as int,
                    start as int + 7 * k + i,
                ),
        decreases nweeks - w,
    {
        let mut days: Vec<HeatmapCell> = Vec::new();
        let mut i: u64 = 0;
        while i < 7
            invariant
                totals.wf(),
                valid_today(today as int),
                today < 2938980,
                maxc as int == max_of(totals@),
                start as int == grid_start(today as int),
                start <= today,
                w < 53,
                i <= 7,
                days@.len() == i,
                forall|j: int|
                    0 <= j < i ==> cell_matches(
                        #[trigger] days@[j],
                        *totals,
                        maxc as int,
                        start as int + 7 * (w as int) + j,
                    ),
            decreases 7 - i,
        {
            let day = start + 7 * w + i;
            proof {
                assert(day as int <= today as int + 6);
            }
            let count = totals.get(day);
            let level = calculate_level(count, maxc);
            let text = ascii_string(date_bytes(day));
            proof {
                assert(text@ =~= date_chars_of(day as int));
            }
            days.push(HeatmapCell { date: text, count, level });
            i = i + 1;
        }
        weeks.push(HeatmapWeek { days });
        w = w + 1;
    }
    weeks
}

/// Render `totals` into the heatmap grid for the current UTC calendar day.
pub fn transform_to_heatmap(totals: &Totals) -> (weeks: Vec<HeatmapWeek>)
    requires
        totals.wf(),
    ensures
        exists|t: int| valid_today(t) && is_heatmap_for(weeks@, *totals, t),
        weeks@.len() <= 54,
{
    let today = current_day();
    let weeks = build_heatmap(totals, today);
    proof {
        assert(valid_today(today as int) && is_heatmap_for(weeks@, *totals, today as int));
    }
    weeks
}

} // verus!
