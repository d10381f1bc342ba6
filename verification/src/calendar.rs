use vstd::prelude::*;

use crate::text::{
    decimal_digit, decimal_text, push_decimal_u64, push_zero_padded, right_aligned, spaces,
    zero_padded,
};

verus! {

/// A proleptic Gregorian date between years 1 and 9999
#[derive(Clone, Copy, Debug, PartialEq, Eq, Structural, Hash)]
pub struct CalendarDate {
    /// Gregorian year
    pub year: i32,
    /// One-based month
    pub month: u8,
    /// One-based day of month
    pub day: u8,
}

/// First displayed weekday column
#[derive(Clone, Copy, Debug, PartialEq, Eq, Structural)]
pub enum CalendarWeekStart {
    /// Renders Monday in the first column
    Monday,
    /// Renders Sunday in the first column
    Sunday,
}

/// Keyboard commands understood by a calendar grid
#[derive(Clone, Copy, Debug, PartialEq, Eq, Structural)]
pub enum CalendarAction {
    /// Confirms the selected date
    Activate,
    /// Moves one day back
    PreviousDay,
    /// Moves one day forward
    NextDay,
    /// Moves one week back
    PreviousWeek,
    /// Moves one week forward
    NextWeek,
    /// Moves one month back
    PreviousMonth,
    /// Moves one month forward
    NextMonth,
    /// Selects the first day of the displayed month
    FirstDayOfMonth,
    /// Selects the last day of the displayed month
    LastDayOfMonth,
}

/// The first supported year
pub const MIN_CALENDAR_YEAR: i32 = 1;

/// The last supported year
pub const MAX_CALENDAR_YEAR: i32 = 9999;

/// `value` limited to `low..=high`
pub open spec fn clamp_int(value: int, low: int, high: int) -> int {
    if value < low {
        low
    } else if value > high {
        high
    } else {
        value
    }
}

/// Gregorian leap year rule
pub open spec fn is_leap_year(year: int) -> bool {
    year % 400 == 0 || (year % 4 == 0 && year % 100 != 0)
}

/// Days in a month; any month outside February and the four short months has 31
pub open spec fn month_length(year: int, month: int) -> int {
    if month == 2 {
        if is_leap_year(year) {
            29
        } else {
            28
        }
    } else if month == 4 || month == 6 || month == 9 || month == 11 {
        30
    } else {
        31
    }
}

/// A date inside the supported range with an existing day
pub open spec fn is_valid_date(date: CalendarDate) -> bool {
    &&& MIN_CALENDAR_YEAR <= date.year <= MAX_CALENDAR_YEAR
    &&& 1 <= date.month <= 12
    &&& 1 <= date.day <= month_length(date.year as int, date.month as int)
}

/// Year, month, then day clamped into the supported range in that order
pub open spec fn normalized_date(date: CalendarDate) -> CalendarDate {
    let year = clamp_int(date.year as int, 1, 9999);
    let month = clamp_int(date.month as int, 1, 12);
    let day = clamp_int(date.day as int, 1, month_length(year, month));
    CalendarDate { year: year as i32, month: month as u8, day: day as u8 }
}

/// Days in the years before `year`, counted from the first day of year 1
pub open spec fn days_before_year(year: int) -> int {
    let y = year - 1;
    365 * y + y / 4 - y / 100 + y / 400
}

/// Days in the months of `year` before `month`
pub open spec fn days_before_month(year: int, month: int) -> int {
    let leap: int = if is_leap_year(year) {
        1
    } else {
        0
    };
    if month <= 1 {
        0
    } else if month == 2 {
        31
    } else if month == 3 {
        59 + leap
    } else if month == 4 {
        90 + leap
    } else if month == 5 {
        120 + leap
    } else if month == 6 {
        151 + leap
    } else if month == 7 {
        181 + leap
    } else if month == 8 {
        212 + leap
    } else if month == 9 {
        243 + leap
    } else if month == 10 {
        273 + leap
    } else if month == 11 {
        304 + leap
    } else {
        334 + leap
    }
}

/// Zero-based day number of a date, counted from the first day of year 1
pub open spec fn date_ordinal(date: CalendarDate) -> int {
    days_before_year(date.year as int) + days_before_month(date.year as int, date.month as int)
        + date.day - 1
}

/// Day number of the last supported date
pub open spec fn last_date_ordinal() -> int {
    date_ordinal(CalendarDate { year: 9999, month: 12, day: 31 })
}

/// `result` is the valid date lying `days` days from `date`, stopped at the supported range
pub open spec fn is_shifted_by_days(date: CalendarDate, days: int, result: CalendarDate) -> bool {
    &&& is_valid_date(result)
    &&& date_ordinal(result) == clamp_int(
        date_ordinal(normalized_date(date)) + days,
        0,
        last_date_ordinal(),
    )
}

/// Month index counted from January of year 1 after moving by `months`, stopped at the range
pub open spec fn shifted_month_index(date: CalendarDate, months: int) -> int {
    let start = normalized_date(date);
    clamp_int((start.year - 1) * 12 + start.month - 1 + months, 0, 9999 * 12 - 1)
}

/// The date `months` months from `date`, keeping the day where the target month has it
pub open spec fn spec_add_months(date: CalendarDate, months: int) -> CalendarDate {
    let index = shifted_month_index(date, months);
    let year = index / 12 + 1;
    let month = index % 12 + 1;
    let day = normalized_date(date).day as int;
    let last = month_length(year, month);
    CalendarDate { year: year as i32, month: month as u8, day: (if day < last { day } else { last }) as u8 }
}

/// Month offsets of the weekday congruence
pub open spec fn weekday_month_code(month: int) -> int {
    if month == 1 {
        0
    } else if month == 2 {
        3
    } else if month == 3 {
        2
    } else if month == 4 {
        5
    } else if month == 5 {
        0
    } else if month == 6 {
        3
    } else if month == 7 {
        5
    } else if month == 8 {
        1
    } else if month == 9 {
        4
    } else if month == 10 {
        6
    } else if month == 11 {
        2
    } else {
        4
    }
}

/// Weekday of the normalized date, from 0 for Sunday to 6 for Saturday
pub open spec fn spec_weekday_of(date: CalendarDate) -> int {
    let d = normalized_date(date);
    let year: int = if d.month < 3 {
        d.year - 1
    } else {
        d.year as int
    };
    (year + year / 4 - year / 100 + year / 400 + weekday_month_code(d.month as int) + d.day) % 7
}

/// Blank grid cells before the first day of a month
pub open spec fn spec_month_offset(first: CalendarDate, start: CalendarWeekStart) -> int {
    let weekday = spec_weekday_of(first);
    match start {
        CalendarWeekStart::Sunday => weekday,
        CalendarWeekStart::Monday => (weekday + 6) % 7,
    }
}

/// The selection inside the displayed month: the selected date when it lies there,
/// otherwise the first day of the displayed month
pub open spec fn spec_active_date(displayed: CalendarDate, selected: CalendarDate) -> CalendarDate {
    let shown = normalized_date(displayed);
    let chosen = normalized_date(selected);
    if chosen.year == shown.year && chosen.month == shown.month {
        chosen
    } else {
        CalendarDate { year: shown.year, month: shown.month, day: 1 }
    }
}

/// The first day of the month a constructor clamps `displayed` into
pub open spec fn displayed_first(displayed: CalendarDate) -> CalendarDate {
    normalized_date(CalendarDate { year: displayed.year, month: displayed.month, day: 1 })
}

fn clamp_u8(value: u8, low: u8, high: u8) -> (result: u8)
    requires
        low <= high,
    ensures
        result as int == clamp_int(value as int, low as int, high as int),
{
    if value < low {
        low
    } else if value > high {
        high
    } else {
        value
    }
}

fn clamp_i32(value: i32, low: i32, high: i32) -> (result: i32)
    requires
        low <= high,
    ensures
        result as int == clamp_int(value as int, low as int, high as int),
{
    if value < low {
        low
    } else if value > high {
        high
    } else {
        value
    }
}

impl CalendarDate {
    /// Creates a date clamped into the supported Gregorian range
    pub fn new(year: i32, month: i32, day: i32) -> (date: Self)
        ensures
            date == normalized_date(
                CalendarDate {
                    year,
                    month: clamp_int(month as int, 0, 255) as u8,
                    day: clamp_int(day as int, 0, 255) as u8,
                },
            ),
            is_valid_date(date),
    {
        let month = clamp_i32(month, 0, 255) as u8;
        let day = clamp_i32(day, 0, 255) as u8;
        normalize_date(CalendarDate { year, month, day })
    }
}

fn leap_year(year: i32) -> (leap: bool)
    ensures
        leap == is_leap_year(year as int),
{
    year % 400 == 0 || (year % 4 == 0 && year % 100 != 0)
}

/// Number of days in `month` of `year`
pub fn days_in_month(year: i32, month: u8) -> (days: u8)
    ensures
        days as int == month_length(year as int, month as int),
{
    if month == 2 {
        if leap_year(year) {
            29
        } else {
            28
        }
    } else if month == 4 || month == 6 || month == 9 || month == 11 {
        30
    } else {
        31
    }
}

/// Clamps the year, then the month, then the day into the supported range
pub fn normalize_date(date: CalendarDate) -> (result: CalendarDate)
    ensures
        result == normalized_date(date),
        is_valid_date(result),
{
    let year = clamp_i32(date.year, 1, 9999);
    let month = clamp_u8(date.month, 1, 12);
    let day = clamp_u8(date.day, 1, days_in_month(year, month));
    CalendarDate { year, month, day }
}

/// The selection shown inside the displayed month
pub fn active_date(displayed: CalendarDate, selected: CalendarDate) -> (result: CalendarDate)
    ensures
        result == spec_active_date(displayed, selected),
        is_valid_date(result),
{
    let displayed = normalize_date(displayed);
    let selected = normalize_date(selected);
    if selected.year == displayed.year && selected.month == displayed.month {
        selected
    } else {
        CalendarDate { year: displayed.year, month: displayed.month, day: 1 }
    }
}

/// One year holds 365 days, plus one in a leap year
proof fn lemma_year_length(year: int)
    requires
        year >= 1,
    ensures
        days_before_year(year + 1) == days_before_year(year) + 365 + (if is_leap_year(year) {
            1int
        } else {
            0int
        }),
{
    let y = year - 1;
    assert(year / 4 == y / 4 + (if year % 4 == 0 { 1int } else { 0int }));
    assert(year / 100 == y / 100 + (if year % 100 == 0 { 1int } else { 0int }));
    assert(year / 400 == y / 400 + (if year % 400 == 0 { 1int } else { 0int }));
    assert(year % 400 == 0 ==> year % 100 == 0);
    assert(year % 100 == 0 ==> year % 4 == 0);
}

/// Later years start later
proof fn lemma_days_before_year_grows(first: int, second: int)
    requires
        1 <= first <= second,
    ensures
        days_before_year(first) + 365 * (second - first) <= days_before_year(second),
    decreases second - first,
{
    if first < second {
        lemma_days_before_year_grows(first, second - 1);
        lemma_year_length(second - 1);
    }
}

/// A valid date lies between the first and the last supported date
proof fn lemma_date_ordinal_bounds(date: CalendarDate)
    requires
        is_valid_date(date),
    ensures
        0 <= date_ordinal(date),
        date_ordinal(date) < days_before_year(date.year + 1),
        date_ordinal(date) <= last_date_ordinal(),
        days_before_year(date.year as int) <= date_ordinal(date),
{
    lemma_year_length(date.year as int);
    lemma_year_length(9999);
    lemma_days_before_year_grows(1, date.year as int);
    lemma_days_before_year_grows(date.year as int + 1, 10000);
}

/// Different valid dates have different day numbers
pub proof fn lemma_date_ordinal_injective(first: CalendarDate, second: CalendarDate)
    requires
        is_valid_date(first),
        is_valid_date(second),
        date_ordinal(first) == date_ordinal(second),
    ensures
        first == second,
{
    lemma_date_ordinal_bounds(first);
    lemma_date_ordinal_bounds(second);
    if first.year < second.year {
        lemma_days_before_year_grows(first.year + 1, second.year as int);
    } else if second.year < first.year {
        lemma_days_before_year_grows(second.year + 1, first.year as int);
    }
    assert(first.year == second.year);
}

/// Stepping one day forward from a date that is not the last one
proof fn lemma_next_day(date: CalendarDate)
    requires
        is_valid_date(date),
        date.day == month_length(date.year as int, date.month as int),
        !(date.year == 9999 && date.month == 12),
    ensures
        date.month < 12 ==> date_ordinal(
            CalendarDate { year: date.year, month: (date.month + 1) as u8, day: 1 },
        ) == date_ordinal(date) + 1,
        date.month == 12 ==> date_ordinal(
            CalendarDate { year: (date.year + 1) as i32, month: 1, day: 1 },
        ) == date_ordinal(date) + 1,
{
    lemma_year_length(date.year as int);
}

/// Stepping one day back from the first day of a month that is not the first one
proof fn lemma_previous_day(date: CalendarDate)
    requires
        is_valid_date(date),
        date.day == 1,
        !(date.year == 1 && date.month == 1),
    ensures
        date.month > 1 ==> date_ordinal(
            CalendarDate {
                year: date.year,
                month: (date.month - 1) as u8,
                day: month_length(date.year as int, date.month - 1) as u8,
            },
        ) + 1 == date_ordinal(date),
        date.month == 1 ==> date_ordinal(
            CalendarDate { year: (date.year - 1) as i32, month: 12, day: 31 },
        ) + 1 == date_ordinal(date),
{
    if date.month == 1 {
        lemma_year_length(date.year - 1);
    }
}

/// Moves by whole months, keeping the day where the target month has it
pub fn add_months(date: CalendarDate, months: i32) -> (result: CalendarDate)
    ensures
        result == spec_add_months(date, months as int),
        is_valid_date(result),
{
    let date = normalize_date(date);
    let raw: i64 = (date.year as i64 - 1) * 12 + date.month as i64 - 1 + months as i64;
    let index: i64 = if raw < 0 {
        0
    } else if raw > 9999 * 12 - 1 {
        9999 * 12 - 1
    } else {
        raw
    };
    let year = (index / 12 + 1) as i32;
    let month = (index % 12 + 1) as u8;
    let last = days_in_month(year, month);
    let day = if date.day < last {
        date.day
    } else {
        last
    };
    CalendarDate { year, month, day }
}

/// Moves by whole days, stopping at the first and the last supported date
pub fn add_days(date: CalendarDate, days: i32) -> (result: CalendarDate)
    ensures
        is_shifted_by_days(date, days as int, result),
{
    let mut current = normalize_date(date);
    let mut remaining = days;
    let ghost target = date_ordinal(current) + days;
    proof {
        lemma_date_ordinal_bounds(current);
        lemma_year_length(9999);
    }
    while remaining > 0
        invariant
            is_valid_date(current),
            target == date_ordinal(normalized_date(date)) + days,
            date_ordinal(current) + remaining == target,
            0 <= date_ordinal(current) <= last_date_ordinal(),
            last_date_ordinal() == days_before_year(10000) - 1,
        decreases remaining,
    {
        let last = days_in_month(current.year, current.month);
        if current.year == 9999 && current.month == 12 && current.day == last {
            return current;
        }
        if current.day < last {
            current.day = current.day + 1;
        } else {
            proof {
                lemma_next_day(current);
            }
            current = add_months(
                CalendarDate { year: current.year, month: current.month, day: 1 },
                1,
            );
        }
        proof {
            lemma_date_ordinal_bounds(current);
        }
        remaining = remaining - 1;
    }
    while remaining < 0
        invariant
            is_valid_date(current),
            target == date_ordinal(normalized_date(date)) + days,
            date_ordinal(current) + remaining == target,
            0 <= date_ordinal(current) <= last_date_ordinal(),
            remaining <= 0,
        decreases -remaining,
    {
        if current.year == 1 && current.month == 1 && current.day == 1 {
            return current;
        }
        if current.day > 1 {
            current.day = current.day - 1;
        } else {
            proof {
                lemma_previous_day(current);
            }
            let previous = add_months(
                CalendarDate { year: current.year, month: current.month, day: 1 },
                -1,
            );
            let last = days_in_month(previous.year, previous.month);
            current = CalendarDate { year: previous.year, month: previous.month, day: last };
        }
        proof {
            lemma_date_ordinal_bounds(current);
        }
        remaining = remaining + 1;
    }
    current
}

/// The date shown at `day_offset` from the first day of a month, absent outside the range
pub fn grid_date(first: CalendarDate, day_offset: i32) -> (result: Option<CalendarDate>)
    ensures
        ((first.year == 1 && first.month == 1 && day_offset < 0) || (first.year == 9999
            && first.month == 12 && day_offset >= month_length(
            first.year as int,
            first.month as int,
        ))) ==> result is None,
        !((first.year == 1 && first.month == 1 && day_offset < 0) || (first.year == 9999
            && first.month == 12 && day_offset >= month_length(
            first.year as int,
            first.month as int,
        ))) ==> (result matches Some(date) && is_shifted_by_days(first, day_offset as int, date)),
{
    if first.year == 1 && first.month == 1 && day_offset < 0 {
        return None;
    }
    if first.year == 9999 && first.month == 12 && day_offset >= days_in_month(
        first.year,
        first.month,
    ) as i32 {
        return None;
    }
    Some(add_days(first, day_offset))
}

fn weekday_month_offset(month: u8) -> (code: i32)
    ensures
        code == weekday_month_code(month as int),
{
    if month == 1 {
        0
    } else if month == 2 {
        3
    } else if month == 3 {
        2
    } else if month == 4 {
        5
    } else if month == 5 {
        0
    } else if month == 6 {
        3
    } else if month == 7 {
        5
    } else if month == 8 {
        1
    } else if month == 9 {
        4
    } else if month == 10 {
        6
    } else if month == 11 {
        2
    } else {
        4
    }
}

/// Weekday of a date, from 0 for Sunday to 6 for Saturday
pub fn weekday_of(date: CalendarDate) -> (weekday: i32)
    ensures
        weekday == spec_weekday_of(date),
        0 <= weekday < 7,
{
    let date = normalize_date(date);
    let mut year = date.year;
    if date.month < 3 {
        year = year - 1;
    }
    (year + year / 4 - year / 100 + year / 400 + weekday_month_offset(date.month) + date.day as i32)
        % 7
}

/// The weekday of a valid date advances with its day number, year 1 starting on a Monday
pub proof fn lemma_weekday_follows_day_number(date: CalendarDate)
    requires
        is_valid_date(date),
    ensures
        spec_weekday_of(date) == (date_ordinal(date) + 1) % 7,
{
    let year = date.year as int;
    let y: int = if date.month < 3 {
        year - 1
    } else {
        year
    };
    let sum = y + y / 4 - y / 100 + y / 400 + weekday_month_code(date.month as int) + date.day;
    assert(normalized_date(date) == date);
    if date.month < 3 {
        let extra = (days_before_month(year, date.month as int) - weekday_month_code(date.month as int)) / 7;
        assert(date_ordinal(date) + 1 == 7 * (52 * (year - 1) + extra) + sum);
        vstd::arithmetic::div_mod::lemma_mod_multiples_vanish(52 * (year - 1) + extra, sum, 7);
    } else {
        lemma_year_length(year);
        let leap: int = if is_leap_year(year) {
            1
        } else {
            0
        };
        let extra = (days_before_month(year, date.month as int) - leap - weekday_month_code(date.month as int) - 1) / 7;
        assert(days_before_year(year + 1) == days_before_year(year) + 365 + leap);
        assert(date_ordinal(date) + 1 == 7 * (52 * (year - 1) + extra) + sum);
        vstd::arithmetic::div_mod::lemma_mod_multiples_vanish(52 * (year - 1) + extra, sum, 7);
    }
}

/// Blank grid cells before the first day of the month
pub fn month_offset(first: CalendarDate, start: CalendarWeekStart) -> (offset: i32)
    ensures
        offset == spec_month_offset(first, start),
        0 <= offset < 7,
{
    let weekday = weekday_of(first);
    if start == CalendarWeekStart::Sunday {
        weekday
    } else {
        (weekday + 6) % 7
    }
}

/// Two-letter weekday headers in column order
pub fn weekday_labels(start: CalendarWeekStart) -> (labels: [&'static str; 7])
    ensures
        start == CalendarWeekStart::Sunday ==> labels@.map_values(|label: &str| label@) == seq![
            "Su"@,
            "Mo"@,
            "Tu"@,
            "We"@,
            "Th"@,
            "Fr"@,
            "Sa"@,
        ],
        start == CalendarWeekStart::Monday ==> labels@.map_values(|label: &str| label@) == seq![
            "Mo"@,
            "Tu"@,
            "We"@,
            "Th"@,
            "Fr"@,
            "Sa"@,
            "Su"@,
        ],
{
    let labels = if start == CalendarWeekStart::Sunday {
        ["Su", "Mo", "Tu", "We", "Th", "Fr", "Sa"]
    } else {
        ["Mo", "Tu", "We", "Th", "Fr", "Sa", "Su"]
    };
    assert(labels@.map_values(|label: &str| label@) =~= if start == CalendarWeekStart::Sunday {
        seq!["Su"@, "Mo"@, "Tu"@, "We"@, "Th"@, "Fr"@, "Sa"@]
    } else {
        seq!["Mo"@, "Tu"@, "We"@, "Th"@, "Fr"@, "Sa"@, "Su"@]
    });
    labels
}

/// The date a calendar action selects, absent for activation
pub fn date_for_action(
    displayed: CalendarDate,
    selected: CalendarDate,
    action: CalendarAction,
) -> (result: Option<CalendarDate>)
    ensures
        ({
            let shown = displayed_first(displayed);
            let active = spec_active_date(shown, selected);
            match action {
                CalendarAction::Activate => result is None,
                CalendarAction::PreviousDay => result matches Some(date) && is_shifted_by_days(
                    active,
                    -1,
                    date,
                ),
                CalendarAction::NextDay => result matches Some(date) && is_shifted_by_days(
                    active,
                    1,
                    date,
                ),
                CalendarAction::PreviousWeek => result matches Some(date) && is_shifted_by_days(
                    active,
                    -7,
                    date,
                ),
                CalendarAction::NextWeek => result matches Some(date) && is_shifted_by_days(
                    active,
                    7,
                    date,
                ),
                CalendarAction::PreviousMonth => result == Some(spec_add_months(active, -1)),
                CalendarAction::NextMonth => result == Some(spec_add_months(active, 1)),
                CalendarAction::FirstDayOfMonth => result == Some(shown),
                CalendarAction::LastDayOfMonth => result == Some(
                    CalendarDate {
                        year: shown.year,
                        month: shown.month,
                        day: month_length(shown.year as int, shown.month as int) as u8,
                    },
                ),
            }
        }),
{
    let displayed = CalendarDate::new(displayed.year, displayed.month as i32, 1);
    let selected = active_date(displayed, selected);
    match action {
        CalendarAction::Activate => None,
        CalendarAction::PreviousDay => Some(add_days(selected, -1)),
        CalendarAction::NextDay => Some(add_days(selected, 1)),
        CalendarAction::PreviousWeek => Some(add_days(selected, -7)),
        CalendarAction::NextWeek => Some(add_days(selected, 7)),
        CalendarAction::PreviousMonth => Some(add_months(selected, -1)),
        CalendarAction::NextMonth => Some(add_months(selected, 1)),
        CalendarAction::FirstDayOfMonth => Some(displayed),
        CalendarAction::LastDayOfMonth => Some(
            CalendarDate {
                year: displayed.year,
                month: displayed.month,
                day: days_in_month(displayed.year, displayed.month),
            },
        ),
    }
}

// ---------------------------------------------------------------------------
// The month grid
// ---------------------------------------------------------------------------

/// One shown day of a month grid
#[derive(Clone, Copy, Debug, PartialEq, Eq, Structural)]
pub struct CalendarCell {
    /// The date shown
    pub date: CalendarDate,
    /// Whether the date lies in the displayed month
    pub in_month: bool,
    /// Whether the date is a Saturday or a Sunday
    pub weekend: bool,
    /// Whether the date is the active selection
    pub selected: bool,
}

/// Grid positions from `first` that fall before year 1 or after year 9999
pub open spec fn grid_outside(first: CalendarDate, days: int) -> bool {
    (first.year == 1 && first.month == 1 && days < 0) || (first.year == 9999 && first.month == 12
        && days >= month_length(first.year as int, first.month as int))
}

/// The cell at `position` of a grid whose month starts at `first` after `offset` blank
/// cells: absent outside the supported range, and for a date of an adjacent month unless
/// adjacent dates are shown
pub open spec fn is_grid_cell(
    first: CalendarDate,
    active: CalendarDate,
    offset: int,
    show_adjacent: bool,
    position: int,
    cell: Option<CalendarCell>,
) -> bool {
    let days = position - offset;
    match cell {
        None => grid_outside(first, days) || (!show_adjacent && forall|date: CalendarDate|
            #[trigger] is_shifted_by_days(first, days, date) ==> !(date.year == first.year
                && date.month == first.month)),
        Some(shown) => {
            &&& !grid_outside(first, days)
            &&& is_shifted_by_days(first, days, shown.date)
            &&& shown.in_month == (shown.date.year == first.year && shown.date.month == first.month)
            &&& shown.in_month || show_adjacent
            &&& shown.weekend == (spec_weekday_of(shown.date) == 0 || spec_weekday_of(shown.date)
                == 6)
            &&& shown.selected == (shown.date == active)
        },
    }
}

/// The cell at `position` of a month grid
pub fn calendar_cell(
    first: CalendarDate,
    active: CalendarDate,
    offset: i32,
    show_adjacent: bool,
    position: i32,
) -> (cell: Option<CalendarCell>)
    requires
        0 <= offset < 7,
        0 <= position < 42,
    ensures
        is_grid_cell(first, active, offset as int, show_adjacent, position as int, cell),
{
    let days = position - offset;
    let date = match grid_date(first, days) {
        Some(date) => date,
        None => {
            return None;
        },
    };
    let in_month = date.year == first.year && date.month == first.month;
    if !in_month && !show_adjacent {
        proof {
            assert forall|other: CalendarDate| #[trigger]
                is_shifted_by_days(first, days as int, other) implies !(other.year == first.year
                && other.month == first.month) by {
                lemma_date_ordinal_injective(other, date);
            }
        }
        return None;
    }
    let weekday = weekday_of(date);
    Some(CalendarCell { date, in_month, weekend: weekday == 0 || weekday == 6, selected: date == active })
}

/// The six weeks of seven cells shown for the month of `year` and `month`, with the active
/// selection marked and adjacent-month dates kept only when `show_adjacent` holds
pub fn calendar_grid(
    year: i32,
    month: u8,
    selected: CalendarDate,
    week_start: CalendarWeekStart,
    show_adjacent: bool,
) -> (cells: Vec<Option<CalendarCell>>)
    ensures
        cells@.len() == 42,
        ({
            let first = normalized_date(CalendarDate { year, month, day: 1 });
            let active = spec_active_date(first, selected);
            let offset = spec_month_offset(first, week_start);
            forall|position: int|
                0 <= position < 42 ==> is_grid_cell(
                    first,
                    active,
                    offset,
                    show_adjacent,
                    position,
                    #[trigger] cells@[position],
                )
        }),
{
    let first = CalendarDate::new(year, month as i32, 1);
    let active = active_date(first, selected);
    let offset = month_offset(first, week_start);
    let ghost expected_first = normalized_date(CalendarDate { year, month, day: 1 });
    assert(first == expected_first);
    let mut cells: Vec<Option<CalendarCell>> = Vec::new();
    let mut position: i32 = 0;
    while position < 42
        invariant
            0 <= position <= 42,
            cells@.len() == position,
            0 <= offset < 7,
            forall|k: int|
                0 <= k < position ==> is_grid_cell(
                    first,
                    active,
                    offset as int,
                    show_adjacent,
                    k,
                    #[trigger] cells@[k],
                ),
        decreases 42 - position,
    {
        cells.push(calendar_cell(first, active, offset, show_adjacent, position));
        position = position + 1;
    }
    cells
}

/// Every day of the displayed month is shown in its month, at the cell after the blank
/// cells and the days before it
pub proof fn lemma_grid_shows_month(
    first: CalendarDate,
    active: CalendarDate,
    offset: int,
    show_adjacent: bool,
    day: int,
    cell: Option<CalendarCell>,
)
    requires
        is_valid_date(first),
        first.day == 1,
        0 <= offset < 7,
        1 <= day <= month_length(first.year as int, first.month as int),
        is_grid_cell(first, active, offset, show_adjacent, offset + day - 1, cell),
    ensures
        offset + day - 1 < 42,
        cell matches Some(shown) && shown.date == (CalendarDate {
            year: first.year,
            month: first.month,
            day: day as u8,
        }) && shown.in_month,
{
    let target = CalendarDate { year: first.year, month: first.month, day: day as u8 };
    assert(normalized_date(first) == first);
    lemma_date_ordinal_bounds(target);
    assert(date_ordinal(target) == date_ordinal(first) + day - 1);
    assert(is_shifted_by_days(first, day - 1, target));
    match cell {
        None => {
            let days = (offset + day - 1) - offset;
            assert(days == day - 1);
            assert(!grid_outside(first, days));
            assert(is_shifted_by_days(first, days, target));
        },
        Some(shown) => {
            lemma_date_ordinal_injective(shown.date, target);
        },
    }
}

/// A year zero-padded to four characters, a minus sign counting as one of them
pub open spec fn spec_year_text(year: i32) -> Seq<char> {
    if year < 0 {
        seq!['-'] + zero_padded(decimal_text((-year) as nat), 3)
    } else {
        zero_padded(decimal_text(year as nat), 4)
    }
}

fn push_year(output: &mut String, year: i32)
    ensures
        final(output)@ == old(output)@ + spec_year_text(year),
{
    if year < 0 {
        output.push('-');
        let magnitude = (-(year as i64)) as u64;
        push_zero_padded(output, magnitude, 3);
    } else {
        push_zero_padded(output, year as u64, 4);
    }
    proof {
        assert(output@ =~= old(output)@ + spec_year_text(year));
    }
}

/// The identity of a date cell under a calendar root: the root, `/date/`, then the year, month
/// and day zero-padded to four, two and two characters and joined by hyphens
pub open spec fn spec_date_id(root: Seq<char>, date: CalendarDate) -> Seq<char> {
    root + seq!['/', 'd', 'a', 't', 'e', '/'] + spec_year_text(date.year) + seq!['-']
        + zero_padded(decimal_text(date.month as nat), 2) + seq!['-'] + zero_padded(
        decimal_text(date.day as nat),
        2,
    )
}

/// Builds the identity of a date cell under a calendar root
pub fn calendar_date_id(root: &str, date: CalendarDate) -> (id: String)
    ensures
        id@ == spec_date_id(root@, date),
{
    let mut id = String::new();
    id.push_str(root);
    id.push('/');
    id.push('d');
    id.push('a');
    id.push('t');
    id.push('e');
    id.push('/');
    push_year(&mut id, date.year);
    id.push('-');
    push_zero_padded(&mut id, date.month as u64, 2);
    id.push('-');
    push_zero_padded(&mut id, date.day as u64, 2);
    proof {
        assert(id@ =~= spec_date_id(root@, date));
    }
    id
}

/// The title of a month grid: the year zero-padded to four characters, a hyphen, then the month
/// zero-padded to two
pub open spec fn spec_calendar_title(first: CalendarDate) -> Seq<char> {
    spec_year_text(first.year) + seq!['-'] + zero_padded(
        decimal_text(first.month as nat),
        2,
    )
}

/// Builds the title of a month grid
pub fn calendar_title(first: CalendarDate) -> (title: String)
    ensures
        title@ == spec_calendar_title(first),
{
    let mut title = String::new();
    push_year(&mut title, first.year);
    title.push('-');
    push_zero_padded(&mut title, first.month as u64, 2);
    proof {
        assert(title@ =~= spec_calendar_title(first));
    }
    title
}

/// The text of a day cell: the day number right-aligned in two columns, then a space
pub open spec fn spec_day_text(day: u8) -> Seq<char> {
    right_aligned(decimal_text(day as nat), 2) + seq![' ']
}

/// Builds the text of a day cell
pub fn calendar_day_text(day: u8) -> (text: String)
    ensures
        text@ == spec_day_text(day),
{
    let mut text = String::new();
    if day < 10 {
        text.push(' ');
    }
    push_decimal_u64(&mut text, day as u64);
    text.push(' ');
    proof {
        let digits = decimal_text(day as nat);
        if day < 10 {
            assert(digits.len() == 1);
            assert(spaces(1) =~= seq![' ']);
        } else {
            assert(digits == decimal_text(day as nat / 10) + seq![decimal_digit((day as nat % 10) as nat)]);
            assert(decimal_text(day as nat / 10).len() >= 1);
        }
        assert(text@ =~= spec_day_text(day));
    }
    text
}

} // verus!
