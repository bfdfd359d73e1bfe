use vstd::prelude::*;

verus! {

/// The year of the fixed epoch (January 1, 2024, 00:00:00 UTC) against
/// which the tag's year offset is computed.
pub const EPOCH_YEAR: i32 = 2024;

/// The largest calendar year the date backend supports.
pub const MAX_TAG_YEAR: i32 = 262142;

/// A calendar timestamp: year, month, day, hour, minute and second, with
/// no timezone; the caller guarantees it denotes a UTC-normalized instant.
#[derive(Clone, Copy, PartialEq, Eq, Structural, Debug)]
pub struct CalendarTimestamp {
    pub year: i32,
    pub month: u8,
    pub day: u8,
    pub hour: u8,
    pub minute: u8,
    pub second: u8,
}

pub open spec fn is_leap_year(y: int) -> bool {
    y % 4 == 0 && (y % 100 != 0 || y % 400 == 0)
}

pub open spec fn days_in_year(y: int) -> int {
    if is_leap_year(y) {
        366
    } else {
        365
    }
}

pub open spec fn days_in_month(y: int, m: int) -> int {
    if m == 2 {
        if is_leap_year(y) {
            29
        } else {
            28
        }
    } else if m == 4 || m == 6 || m == 9 || m == 11 {
        30
    } else {
        31
    }
}

/// Days of year `y` that lie before the first of month `m`.
pub open spec fn days_before_month(y: int, m: int) -> int
    decreases m,
{
    if m <= 1 {
        0
    } else {
        days_before_month(y, m - 1) + days_in_month(y, m - 1)
    }
}

/// One-based ordinal of the date within its year.
pub open spec fn day_of_year(y: int, m: int, d: int) -> int {
    days_before_month(y, m) + d
}

/// Days that lie before January 1 of year `y`, counting from year 1 of
/// the proleptic Gregorian calendar.
pub open spec fn days_before_year(y: int) -> int
    decreases y,
{
    if y <= 1 {
        0
    } else {
        days_before_year(y - 1) + days_in_year(y - 1)
    }
}

/// One-based day number of a date: January 1 of year 1 is day 1.
pub open spec fn day_number(y: int, m: int, d: int) -> int {
    days_before_year(y) + day_of_year(y, m, d)
}

pub open spec fn valid_date(y: int, m: int, d: int) -> bool {
    1 <= m <= 12 && 1 <= d <= days_in_month(y, m)
}

/// Day of the week, Monday = 0 .. Sunday = 6.  Day number 1 (January 1 of
/// year 1, proleptic Gregorian) is a Monday.
pub open spec fn weekday(y: int, m: int, d: int) -> int {
    (day_number(y, m, d) - 1) % 7
}

/// Index of the Monday-aligned week that holds day number `dn`.
pub open spec fn week_block(dn: int) -> int {
    (dn - 1) / 7
}

/// The week that holds January 4 is the first ISO week of a year.
pub open spec fn iso_week_start_block(y: int) -> int {
    week_block(day_number(y, 1, 4))
}

/// Number of ISO weeks in year `y` (52 or 53).
pub open spec fn iso_weeks_in_year(y: int) -> int {
    iso_week_start_block(y + 1) - iso_week_start_block(y)
}

/// ISO 8601 week number of the date in calendar year `y` with day number
/// `dn`: the position of its week relative to the year's first ISO week,
/// folded into the neighbouring year at the boundaries.
pub open spec fn iso_week_dn(y: int, dn: int) -> int {
    let raw = week_block(dn) - iso_week_start_block(y) + 1;
    if raw < 1 {
        week_block(dn) - iso_week_start_block(y - 1) + 1
    } else if raw > iso_weeks_in_year(y) {
        1
    } else {
        raw
    }
}

/// ISO 8601 week number of a date (1 to 53).
pub open spec fn iso_week(y: int, m: int, d: int) -> int {
    iso_week_dn(y, day_number(y, m, d))
}

impl CalendarTimestamp {
    /// Builds a timestamp from its fields.
    pub fn new(year: i32, month: u8, day: u8, hour: u8, minute: u8, second: u8) -> (r: Self)
        ensures
            r == (CalendarTimestamp { year, month, day, hour, minute, second }),
    {
        CalendarTimestamp { year, month, day, hour, minute, second }
    }

    /// Whether the fields denote a real calendar instant.
    pub open spec fn valid(self) -> bool {
        &&& valid_date(self.year as int, self.month as int, self.day as int)
        &&& self.hour < 24
        &&& self.minute < 60
        &&& self.second < 60
    }

    /// Whether a tag can be computed: a valid instant between the epoch
    /// year and the largest supported year.  Timestamps before the epoch
    /// are rejected rather than given a negative year offset.
    pub open spec fn taggable(self) -> bool {
        self.valid() && EPOCH_YEAR <= self.year <= MAX_TAG_YEAR
    }
}

/// Seconds elapsed since the Monday 00:00:00 that begins the timestamp's
/// week.
pub open spec fn week_seconds(ts: CalendarTimestamp) -> int {
    weekday(ts.year as int, ts.month as int, ts.day as int) * 86400 + ts.hour as int * 3600
        + ts.minute as int * 60 + ts.second as int
}

/// Number of seconds in one tick, a 52nd of a week (7*24*3600/52,
/// truncated).
pub const WEEK_TICK: u32 = 11631;

/// The sub-week slot of a timestamp: its position within the week at
/// `WEEK_TICK`-second granularity.
pub open spec fn tick_of(ts: CalendarTimestamp) -> int {
    week_seconds(ts) / (WEEK_TICK as int)
}

/// The tag's week component: the ISO week, corrected at year boundaries.
/// An ISO week of the previous year folded into January becomes 0; a
/// December date that falls in ISO week 1 of the next year gets the week
/// of the date seven days earlier, plus one.
pub open spec fn week_adjusted(ts: CalendarTimestamp) -> int {
    let y = ts.year as int;
    let w = iso_week(y, ts.month as int, ts.day as int);
    if ts.month == 1 && w > 51 {
        0
    } else if ts.month == 12 && w < 2 {
        iso_week_dn(y, day_number(y, 12, ts.day as int) - 7) + 1
    } else {
        w
    }
}

/// Total second index of a timestamp, used only to order instants.
pub open spec fn time_index(ts: CalendarTimestamp) -> int {
    day_number(ts.year as int, ts.month as int, ts.day as int) * 86400 + ts.hour as int * 3600
        + ts.minute as int * 60 + ts.second as int
}

/// The cumulative days before each month, written out.
pub proof fn lemma_month_table(y: int)
    ensures
        days_before_month(y, 1) == 0,
        days_before_month(y, 2) == 31,
        days_before_month(y, 3) == 59 + (if is_leap_year(y) { 1int } else { 0int }),
        days_before_month(y, 4) == 90 + (if is_leap_year(y) { 1int } else { 0int }),
        days_before_month(y, 5) == 120 + (if is_leap_year(y) { 1int } else { 0int }),
        days_before_month(y, 6) == 151 + (if is_leap_year(y) { 1int } else { 0int }),
        days_before_month(y, 7) == 181 + (if is_leap_year(y) { 1int } else { 0int }),
        days_before_month(y, 8) == 212 + (if is_leap_year(y) { 1int } else { 0int }),
        days_before_month(y, 9) == 243 + (if is_leap_year(y) { 1int } else { 0int }),
        days_before_month(y, 10) == 273 + (if is_leap_year(y) { 1int } else { 0int }),
        days_before_month(y, 11) == 304 + (if is_leap_year(y) { 1int } else { 0int }),
        days_before_month(y, 12) == 334 + (if is_leap_year(y) { 1int } else { 0int }),
{
    reveal_with_fuel(days_before_month, 13);
}

/// A valid date's ordinal lies within its year.
pub proof fn lemma_day_of_year_bounds(y: int, m: int, d: int)
    requires
        valid_date(y, m, d),
    ensures
        1 <= day_of_year(y, m, d) <= days_in_year(y),
{
    lemma_month_table(y);
}

/// Unfolding step of `days_before_year`.
pub proof fn lemma_days_before_year_step(y: int)
    requires
        y >= 1,
    ensures
        days_before_year(y + 1) == days_before_year(y) + days_in_year(y),
{
}

/// Every year has 52 or 53 ISO weeks.
pub proof fn lemma_weeks_in_year_bounds(y: int)
    requires
        y >= 1,
    ensures
        52 <= iso_weeks_in_year(y) <= 53,
{
    lemma_month_table(y);
    lemma_month_table(y + 1);
    lemma_days_before_year_step(y);
    let a = day_number(y, 1, 4);
    let b = day_number(y + 1, 1, 4);
    assert(b == a + days_in_year(y));
    vstd::arithmetic::div_mod::lemma_fundamental_div_mod(a - 1, 7);
    vstd::arithmetic::div_mod::lemma_fundamental_div_mod(b - 1, 7);
    let qa = (a - 1) / 7;
    let ra = (a - 1) % 7;
    let qb = (b - 1) / 7;
    let rb = (b - 1) % 7;
    assert(0 <= ra < 7);
    assert(0 <= rb < 7);
    assert(7 * (qb - qa) == days_in_year(y) + ra - rb);
    assert(52 <= qb - qa <= 53);
}

/// The ISO week number of any valid date lies between 1 and 53.
pub proof fn lemma_iso_week_dn_bounds(y: int, m: int, d: int)
    requires
        y >= 2,
        valid_date(y, m, d),
    ensures
        1 <= iso_week_dn(y, day_number(y, m, d)) <= 53,
{
    let dn = day_number(y, m, d);
    let raw = week_block(dn) - iso_week_start_block(y) + 1;
    lemma_weeks_in_year_bounds(y);
    lemma_weeks_in_year_bounds(y - 1);
    lemma_month_table(y);
    lemma_day_of_year_bounds(y, m, d);
    if raw < 1 {
        lemma_days_before_year_step(y - 1);
        let a = day_number(y - 1, 1, 4);
        lemma_month_table(y - 1);
        assert(day_number(y, 1, 4) == a + days_in_year(y - 1));
        assert(dn >= days_before_year(y) + 1);
        assert(dn >= a + days_in_year(y - 1) - 3);
        vstd::arithmetic::div_mod::lemma_fundamental_div_mod(dn - 1, 7);
        vstd::arithmetic::div_mod::lemma_fundamental_div_mod(a - 1, 7);
        let qd = (dn - 1) / 7;
        let ra = (a - 1) % 7;
        let rd = (dn - 1) % 7;
        let qa = (a - 1) / 7;
        assert(0 <= ra < 7);
        assert(0 <= rd < 7);
        assert(7 * (qd - qa) == (dn - a) + ra - rd);
        assert(qd - qa >= 51);
        assert(iso_week_dn(y, dn) == week_block(dn) - iso_week_start_block(y - 1) + 1);
        assert(iso_week_dn(y, dn) >= 52);
        assert(week_block(dn) <= iso_week_start_block(y) - 1);
        assert(iso_week_dn(y, dn) <= iso_weeks_in_year(y - 1));
    } else if raw > iso_weeks_in_year(y) {
    } else {
    }
}

/// The corrected week component of a valid timestamp lies in `[0, 54]`.
pub proof fn lemma_week_adjusted_bounds(ts: CalendarTimestamp)
    requires
        ts.valid(),
        ts.year >= 2,
    ensures
        0 <= week_adjusted(ts) <= 54,
{
    let y = ts.year as int;
    let m = ts.month as int;
    let d = ts.day as int;
    lemma_iso_week_dn_bounds(y, m, d);
    if ts.month == 12 && iso_week(y, m, d) < 2 {
        lemma_month_table(y);
        if d > 7 {
            assert(day_number(y, 12, d) - 7 == day_number(y, 12, d - 7));
            lemma_iso_week_dn_bounds(y, 12, d - 7);
        } else {
            assert(day_number(y, 12, d) - 7 == day_number(y, 11, d + 23));
            lemma_iso_week_dn_bounds(y, 11, d + 23);
        }
    }
}

/// The tick of any valid timestamp lies in `[0, 51]`.
pub proof fn lemma_tick_bounds(ts: CalendarTimestamp)
    requires
        ts.valid(),
    ensures
        0 <= tick_of(ts) <= 51,
{
    let wd = weekday(ts.year as int, ts.month as int, ts.day as int);
    assert(0 <= wd < 7);
    assert(0 <= week_seconds(ts) <= 604799);
    assert(tick_of(ts) == week_seconds(ts) / 11631);
    vstd::arithmetic::div_mod::lemma_div_is_ordered(week_seconds(ts), 604799, 11631);
    vstd::arithmetic::div_mod::lemma_div_pos_is_pos(week_seconds(ts), 11631);
    assert(604799int / 11631 == 51);
}

/// Whether the timestamp falls in one of the ISO-week edge windows at
/// the year boundary: a January date whose ISO week belongs to the
/// previous year, or a December date whose ISO week belongs to the next.
pub open spec fn iso_edge(ts: CalendarTimestamp) -> bool {
    let w = iso_week(ts.year as int, ts.month as int, ts.day as int);
    (ts.month == 1 && w > 51) || (ts.month == 12 && w < 2)
}

/// Away from the edge windows, the ISO week of a date is exactly the
/// offset of its Monday-aligned week from the year's first ISO week.
proof fn lemma_non_edge_raw(y: int, m: int, d: int)
    requires
        y >= 2,
        valid_date(y, m, d),
        !((m == 1 && iso_week(y, m, d) > 51) || (m == 12 && iso_week(y, m, d) < 2)),
    ensures
        iso_week(y, m, d) == week_block(day_number(y, m, d)) - iso_week_start_block(y) + 1,
{
    let dn = day_number(y, m, d);
    let raw = week_block(dn) - iso_week_start_block(y) + 1;
    lemma_weeks_in_year_bounds(y);
    lemma_month_table(y);
    let dn4 = day_number(y, 1, 4);
    vstd::arithmetic::div_mod::lemma_fundamental_div_mod(dn - 1, 7);
    vstd::arithmetic::div_mod::lemma_fundamental_div_mod(dn4 - 1, 7);
    if raw < 1 {
        // only January 1 to 3 lie before the year's first ISO week,
        // and there the ISO week is large: an excluded edge case
        vstd::arithmetic::div_mod::lemma_div_is_ordered(dn4 - 1, dn - 1, 7);
        assert(dn < dn4);
        assert(day_of_year(y, m, d) < 4);
        assert(m == 1);
        lemma_iso_week_dn_bounds(y, m, d);
        assert(iso_week(y, m, d) >= 52);
        assert(false);
    } else if raw > iso_weeks_in_year(y) {
        // only the last days of December lie past the year's last ISO
        // week, and there the ISO week is 1: an excluded edge case
        assert(dn - 1 >= 7 * week_block(dn));
        assert(7 * iso_week_start_block(y) >= dn4 - 7);
        assert(week_block(dn) >= iso_week_start_block(y) + 52);
        assert(dn >= dn4 + 358);
        assert(day_of_year(y, m, d) >= 362);
        assert(m == 12);
        assert(iso_week(y, m, d) == 1);
        assert(false);
    }
}

/// A January timestamp whose ISO week belongs to the previous year (week
/// number above 51) gets week component 0.
pub proof fn lemma_january_boundary(ts: CalendarTimestamp)
    requires
        ts.valid(),
        ts.month == 1,
        iso_week(ts.year as int, 1, ts.day as int) > 51,
    ensures
        week_adjusted(ts) == 0,
{
}

/// A December timestamp whose ISO week belongs to the next year (week
/// number below 2) gets the ISO week of the date seven days earlier,
/// plus one — which is one past the year's own last ISO week.
pub proof fn lemma_december_boundary(ts: CalendarTimestamp)
    requires
        ts.valid(),
        ts.year >= 2,
        ts.month == 12,
        iso_week(ts.year as int, 12, ts.day as int) < 2,
    ensures
        week_adjusted(ts) == iso_week_dn(
            ts.year as int,
            day_number(ts.year as int, 12, ts.day as int) - 7,
        ) + 1,
        week_adjusted(ts) == iso_weeks_in_year(ts.year as int) + 1,
{
    let y = ts.year as int;
    let d = ts.day as int;
    let dn = day_number(y, 12, d);
    let dn4 = day_number(y, 1, 4);
    let raw = week_block(dn) - iso_week_start_block(y) + 1;
    lemma_month_table(y);
    lemma_month_table(y + 1);
    lemma_weeks_in_year_bounds(y);
    lemma_days_before_year_step(y);
    vstd::arithmetic::div_mod::lemma_fundamental_div_mod(dn - 1, 7);
    vstd::arithmetic::div_mod::lemma_fundamental_div_mod(dn4 - 1, 7);
    // a December date lies at least 48 weeks past the year's first ISO
    // week, so its small ISO week number must come from the fold into
    // the next year
    assert(dn - dn4 >= 331);
    assert(7 * week_block(dn) >= dn - 7);
    assert(7 * iso_week_start_block(y) <= dn4 - 1);
    assert(raw >= 48);
    assert(raw > iso_weeks_in_year(y));
    // its week is therefore the one that holds January 4 of the next
    // year, and the week before that one is the year's last
    assert(week_block(dn) >= iso_week_start_block(y + 1));
    let dn4n = day_number(y + 1, 1, 4);
    assert(dn <= dn4n - 4);
    vstd::arithmetic::div_mod::lemma_div_is_ordered(dn - 1, dn4n - 1, 7);
    assert(week_block(dn) == iso_week_start_block(y + 1));
    let q = week_block(dn);
    let r = (dn - 1) % 7;
    vstd::arithmetic::div_mod::lemma_fundamental_div_mod_converse((dn - 8) as int, 7, q - 1, r);
    assert(week_block(dn - 7) == q - 1);
    assert(week_block(dn - 7) - iso_week_start_block(y) + 1 == iso_weeks_in_year(y));
    assert(iso_week_dn(y, dn - 7) == iso_weeks_in_year(y));
}

/// Within one epoch year and away from the ISO-week edge windows, a
/// later timestamp never gets a smaller tag: the week components are
/// ordered, and equal weeks order the ticks.  Since the tag renders
/// year, week and tick in order, the component triples — and with them
/// the digit strings read as alphabet indices — are ordered
/// lexicographically.
pub proof fn lemma_tag_monotonic(t1: CalendarTimestamp, t2: CalendarTimestamp)
    requires
        t1.valid(),
        t2.valid(),
        t1.year == t2.year,
        t1.year >= 2,
        !iso_edge(t1),
        !iso_edge(t2),
        time_index(t1) <= time_index(t2),
    ensures
        week_adjusted(t1) < week_adjusted(t2) || (week_adjusted(t1) == week_adjusted(t2)
            && tick_of(t1) <= tick_of(t2)),
{
    let y = t1.year as int;
    let dn1 = day_number(y, t1.month as int, t1.day as int);
    let dn2 = day_number(y, t2.month as int, t2.day as int);
    let ds1 = t1.hour as int * 3600 + t1.minute as int * 60 + t1.second as int;
    let ds2 = t2.hour as int * 3600 + t2.minute as int * 60 + t2.second as int;
    lemma_non_edge_raw(y, t1.month as int, t1.day as int);
    lemma_non_edge_raw(y, t2.month as int, t2.day as int);
    assert(week_adjusted(t1) == week_block(dn1) - iso_week_start_block(y) + 1);
    assert(week_adjusted(t2) == week_block(dn2) - iso_week_start_block(y) + 1);
    assert(0 <= ds1 < 86400);
    assert(0 <= ds2 < 86400);
    assert(dn1 <= dn2);
    vstd::arithmetic::div_mod::lemma_div_is_ordered(dn1 - 1, dn2 - 1, 7);
    assert(week_block(dn1) <= week_block(dn2));
    if week_block(dn1) == week_block(dn2) {
        vstd::arithmetic::div_mod::lemma_fundamental_div_mod(dn1 - 1, 7);
        vstd::arithmetic::div_mod::lemma_fundamental_div_mod(dn2 - 1, 7);
        let wd1 = (dn1 - 1) % 7;
        let wd2 = (dn2 - 1) % 7;
        assert(dn1 - 1 == 7 * week_block(dn1) + wd1);
        assert(dn2 - 1 == 7 * week_block(dn2) + wd2);
        assert(week_seconds(t1) == wd1 * 86400 + ds1);
        assert(week_seconds(t2) == wd2 * 86400 + ds2);
        assert(week_seconds(t1) <= week_seconds(t2));
        vstd::arithmetic::div_mod::lemma_div_is_ordered(
            week_seconds(t1),
            week_seconds(t2),
            11631,
        );
    }
}

/// Number of days in the given month, as executable code.
pub fn month_len(year: i32, month: u8) -> (n: u8)
    requires
        1 <= year,
        1 <= month <= 12,
    ensures
        n as int == days_in_month(year as int, month as int),
{
    if month == 2 {
        if year % 4 == 0 && (year % 100 != 0 || year % 400 == 0) {
            29
        } else {
            28
        }
    } else if month == 4 || month == 6 || month == 9 || month == 11 {
        30
    } else {
        31
    }
}

/// The date seven days before a December date, staying within the same
/// calendar year.
pub(crate) fn december_week_earlier(year: i32, day: u8) -> (r: (u8, u8))
    requires
        valid_date(year as int, 12, day as int),
    ensures
        valid_date(year as int, r.0 as int, r.1 as int),
        day_number(year as int, r.0 as int, r.1 as int) == day_number(year as int, 12, day as int)
            - 7,
{
    proof {
        let y = year as int;
        assert(days_before_month(y, 12) == days_before_month(y, 11) + 30);
    }
    if day > 7 {
        (12, day - 7)
    } else {
        (11, day + 23)
    }
}

/// Relies on `chrono::NaiveDate::from_ymd_opt` and `Datelike::iso_week` /
/// `IsoWeek::week`: the ISO 8601 week number of the date, between 1
/// and 53.
#[verifier::external_body]
pub(crate) fn iso_week_of(y: i32, m: u8, d: u8) -> (w: u32)
    requires
        1 <= y <= MAX_TAG_YEAR,
        valid_date(y as int, m as int, d as int),
    ensures
        w as int == iso_week(y as int, m as int, d as int),
        1 <= w <= 53,
{
    chrono::Datelike::iso_week(&chrono::NaiveDate::from_ymd_opt(y, m as u32, d as u32).unwrap())
        .week()
}

/// Relies on `chrono::NaiveDate::from_ymd_opt`, `Datelike::weekday` and
/// `Weekday::num_days_from_monday`: the day of the week with Monday = 0
/// .. Sunday = 6.
#[verifier::external_body]
pub(crate) fn weekday_of(y: i32, m: u8, d: u8) -> (w: u32)
    requires
        1 <= y <= MAX_TAG_YEAR,
        valid_date(y as int, m as int, d as int),
    ensures
        w as int == weekday(y as int, m as int, d as int),
        w <= 6,
{
    chrono::Datelike::weekday(&chrono::NaiveDate::from_ymd_opt(y, m as u32, d as u32).unwrap())
        .num_days_from_monday()
}

} // verus!
