//! When a file was changed, as text: date and time of day in UTC.

use vstd::prelude::*;

use crate::text::{all_digits, decimal, number, two_digits, two_digits_read_back};

verus! {

/// A change time, seen from the start of 1970 in UTC.
#[derive(Debug, Clone, Copy, PartialEq, Eq, Structural)]
pub enum ModTime {
    /// Before 1970.
    BeforeEpoch,
    /// So many whole seconds after the start of 1970.
    SinceEpoch(u64),
}

/// Whether a year of the Gregorian calendar is a leap year.
pub open spec fn is_leap(y: int) -> bool {
    y % 4 == 0 && (y % 100 != 0 || y % 400 == 0)
}

/// How many days a month has.
pub open spec fn month_days(y: int, m: int) -> int {
    if m == 2 {
        if is_leap(y) {
            29
        } else {
            28
        }
    } else if m == 4 || m == 6 || m == 9 || m == 11 {
        30
    } else {
        31
    }
}

/// How many days of a year lie before a month.
pub open spec fn month_start(y: int, m: int) -> int
    decreases m,
{
    if m <= 1 {
        0
    } else {
        month_start(y, m - 1) + month_days(y, m - 1)
    }
}

/// How many days lie between the start of year 1 and the start of a year.
pub open spec fn year_start(y: int) -> int {
    365 * (y - 1) + (y - 1) / 4 - (y - 1) / 100 + (y - 1) / 400
}

/// Whether year, month and day name a day of the Gregorian calendar.
pub open spec fn is_date(y: int, m: int, d: int) -> bool {
    1 <= m <= 12 && 1 <= d <= month_days(y, m)
}

/// How many days lie between 1 January 1970 and a date.
pub open spec fn day_number(y: int, m: int, d: int) -> int {
    year_start(y) - year_start(1970) + month_start(y, m) + d - 1
}

/// Year, month and day of the day that lies `day` days after 1 January 1970.
pub open spec fn date_of(day: int) -> (int, int, int) {
    choose|y: int, m: int, d: int| is_date(y, m, d) && #[trigger] day_number(y, m, d) == day
}

/// A number in decimal with at least four digits.
pub open spec fn four_digits(n: nat) -> Seq<char> {
    if n < 10000 {
        two_digits(n / 100) + two_digits(n % 100)
    } else {
        decimal(n)
    }
}

/// A year as text: four digits, with a sign outside of 0 to 9999.
pub open spec fn year_text(y: int) -> Seq<char> {
    if 0 <= y <= 9999 {
        four_digits(y as nat)
    } else if y < 0 {
        "-"@ + four_digits((-y) as nat)
    } else {
        "+"@ + four_digits(y as nat)
    }
}

/// Date and time of day of a moment, given in seconds after the start of 1970 in UTC.
pub open spec fn moment_text(secs: int) -> Seq<char> {
    let (y, m, d) = date_of(secs / 86400);
    let t = secs % 86400;
    year_text(y) + "-"@ + two_digits(m as nat) + "-"@ + two_digits(d as nat) + " "@ + two_digits(
        (t / 3600) as nat,
    ) + ":"@ + two_digits((t % 3600 / 60) as nat) + ":"@ + two_digits((t % 60) as nat) + " UTC"@
}

/// Whether a moment lies in the years that the calendar covers.
pub open spec fn is_covered(secs: int) -> bool {
    day_number(-262143, 1, 1) <= secs / 86400 <= day_number(262142, 12, 31)
}

/// The signed number with the same 64 bits.
pub open spec fn as_signed(n: u64) -> int {
    if n <= i64::MAX {
        n as int
    } else {
        n - 0x1_0000_0000_0000_0000
    }
}

/// The text that shows a change time; a dash where there is none to show.
pub open spec fn mtime_text(mtime: Option<ModTime>) -> Seq<char> {
    match mtime {
        Some(ModTime::SinceEpoch(secs)) if is_covered(as_signed(secs)) => moment_text(
            as_signed(secs),
        ),
        _ => "—"@,
    }
}

/// `chrono::DateTime::from_timestamp` turns seconds and nanoseconds after the start of 1970
/// into a moment in UTC, if its year lies between -262143 and 262142, and
/// `DateTime::format` writes it out: `%Y` is the year with at least four digits and, outside of
/// 0 to 9999, a sign, and each of `%m`, `%d`, `%H`, `%M` and `%S` has two digits.
#[verifier::external_body]
fn format_moment(secs: i64, nanos: u32, pattern: &str) -> (text: Option<String>)
    requires
        nanos < 1_000_000_000,
        pattern@ == "%Y-%m-%d %H:%M:%S UTC"@,
    ensures
        text is Some <==> is_covered(secs as int),
        text matches Some(t) ==> t@ == moment_text(secs as int),
{
    chrono::DateTime::from_timestamp(secs, nanos).map(|moment| moment.format(pattern).to_string())
}

/// Shows a change time; a dash where it is not known, lies before 1970 or beyond the calendar.
pub fn render_mtime(mtime: Option<ModTime>) -> (out: String)
    ensures
        out@ == mtime_text(mtime),
{
    match mtime {
        Some(ModTime::SinceEpoch(secs)) => {
            let signed: i64 = secs as i64;
            assert(signed == as_signed(secs)) by {
                assert(secs <= 0x7fff_ffff_ffff_ffff ==> secs as i64 == secs) by (bit_vector);
                assert(secs > 0x7fff_ffff_ffff_ffff ==> secs as i64 == secs
                    - 0x1_0000_0000_0000_0000) by (bit_vector);
            }
            match format_moment(signed, 0, "%Y-%m-%d %H:%M:%S UTC") {
                Some(text) => text,
                None => "—".to_owned(),
            }
        },
        _ => "—".to_owned(),
    }
}

/// The months fill the year.
proof fn month_starts(y: int)
    ensures
        forall|m: int|
            1 <= m <= 12 ==> 0 <= #[trigger] month_start(y, m) && month_start(y, m) + month_days(
                y,
                m,
            ) <= month_start(y, 13),
        forall|m: int, n: int|
            1 <= m < n <= 12 ==> #[trigger] month_start(y, m) + month_days(y, m)
                <= #[trigger] month_start(y, n),
        month_start(y, 1) == 0,
        month_start(y, 13) == year_start(y + 1) - year_start(y),
{
    reveal_with_fuel(month_start, 13);
    assert(month_start(y, 13) == if is_leap(y) {
        366int
    } else {
        365int
    });
}

/// Years follow each other.
proof fn year_starts(y: int, z: int)
    requires
        y <= z,
    ensures
        year_start(y) <= year_start(z),
    decreases z - y,
{
    if y < z {
        year_starts(y, z - 1);
        assert(year_start(z - 1) <= year_start(z));
    }
}

/// No two dates are the same day, so a day's date is the one that is shown.
pub proof fn date_is_unique(y: int, m: int, d: int)
    requires
        is_date(y, m, d),
    ensures
        date_of(day_number(y, m, d)) == (y, m, d),
{
    let day = day_number(y, m, d);
    let (y2, m2, d2) = date_of(day);
    assert(is_date(y2, m2, d2) && day_number(y2, m2, d2) == day);
    month_starts(y);
    month_starts(y2);
    if y < y2 {
        year_starts(y + 1, y2);
    } else if y2 < y {
        year_starts(y2 + 1, y);
    }
    assert(y == y2);
    assert(m == m2);
}

/// Every day has a date.
pub proof fn every_day_has_a_date(day: int)
    ensures
        ({
            let (y, m, d) = date_of(day);
            is_date(y, m, d) && day_number(y, m, d) == day
        }),
    decreases
            if day < 0 {
                -day
            } else {
                day
            },
{
    if day == 0 {
        assert(is_date(1970, 1, 1) && day_number(1970, 1, 1) == 0);
    } else if day > 0 {
        every_day_has_a_date(day - 1);
        let (y, m, d) = date_of(day - 1);
        month_starts(y);
        if d < month_days(y, m) {
            assert(is_date(y, m, d + 1) && day_number(y, m, d + 1) == day);
        } else if m < 12 {
            assert(is_date(y, m + 1, 1) && day_number(y, m + 1, 1) == day);
        } else {
            assert(is_date(y + 1, 1, 1) && day_number(y + 1, 1, 1) == day) by {
                assert(month_start(y, 13) == month_start(y, 12) + month_days(y, 12));
            }
        }
    } else {
        every_day_has_a_date(day + 1);
        let (y, m, d) = date_of(day + 1);
        if d > 1 {
            assert(is_date(y, m, d - 1) && day_number(y, m, d - 1) == day);
        } else if m > 1 {
            let last = month_days(y, m - 1);
            assert(is_date(y, m - 1, last) && day_number(y, m - 1, last) == day);
        } else {
            month_starts(y - 1);
            assert(is_date(y - 1, 12, 31) && day_number(y - 1, 12, 31) == day) by {
                assert(month_start(y - 1, 13) == month_start(y - 1, 12) + month_days(y - 1, 12));
            }
        }
    }
}

/// A time between 1970 and the end of the calendar is shown, not dashed out.
pub proof fn known_times_are_shown(secs: u64)
    requires
        secs / 86400 <= day_number(262142, 12, 31),
    ensures
        mtime_text(Some(ModTime::SinceEpoch(secs))) == moment_text(secs as int),
{
    reveal_with_fuel(month_start, 13);
}

/// A change time that is not known or lies before 1970 is a dash.
pub proof fn unknown_times_are_dashed()
    ensures
        mtime_text(None) == "—"@,
        mtime_text(Some(ModTime::BeforeEpoch)) == "—"@,
{
}

/// Seconds beyond 63 bits count from the end of the 64 bits backwards, as `i64` reads them: they
/// show the moment before 1970, or a dash beyond the first year of the calendar.
pub proof fn large_times_count_backwards(back: u64)
    requires
        1 <= back <= 0x8000_0000_0000_0000,
    ensures
        ({
            let text = mtime_text(
                Some(ModTime::SinceEpoch((0x1_0000_0000_0000_0000 - back) as u64)),
            );
            if day_number(-262143, 1, 1) <= (-back) / 86400 {
                text == moment_text(-back)
            } else {
                text == "—"@
            }
        }),
{
    reveal_with_fuel(month_start, 13);
}

/// Times after the end of the calendar are a dash.
pub proof fn times_beyond_the_calendar_are_dashed(secs: u64)
    requires
        secs <= i64::MAX,
        secs / 86400 > day_number(262142, 12, 31),
    ensures
        mtime_text(Some(ModTime::SinceEpoch(secs))) == "—"@,
{
}

/// The day after a date is the next of the month, the first of the next month, or New Year's Day;
/// a month has the days of the Gregorian calendar.
pub proof fn days_follow_each_other(y: int, m: int, d: int)
    requires
        is_date(y, m, d),
    ensures
        day_number(1970, 1, 1) == 0,
        is_date(y, m, d + 1) ==> day_number(y, m, d + 1) == day_number(y, m, d) + 1,
        !is_date(y, m, d + 1) && m < 12 ==> is_date(y, m + 1, 1) && day_number(y, m + 1, 1)
            == day_number(y, m, d) + 1,
        !is_date(y, m, d + 1) && m == 12 ==> day_number(y + 1, 1, 1) == day_number(y, m, d) + 1,
        !is_date(y, m, d + 1) ==> d == (if m == 2 {
            if y % 400 == 0 || (y % 4 == 0 && y % 100 != 0) {
                29int
            } else {
                28int
            }
        } else if m == 4 || m == 6 || m == 9 || m == 11 {
            30int
        } else {
            31int
        }),
{
    month_starts(y);
    reveal_with_fuel(month_start, 2);
    assert(month_start(y, m + 1) == month_start(y, m) + month_days(y, m));
    assert(day_number(1970, 1, 1) == 0);
    if m == 12 {
        assert(month_start(y, 13) == month_start(y, 12) + 31);
        assert(month_start(y + 1, 1) == 0);
    }
}

/// The parts of a moment's text.
pub struct Fields {
    pub year: Seq<char>,
    pub month: Seq<char>,
    pub day: Seq<char>,
    pub hour: Seq<char>,
    pub minute: Seq<char>,
    pub second: Seq<char>,
}

/// In the years of four digits, the text of a moment is a date and a time of day, and the moment
/// can be read back from them.
pub proof fn moments_read_back(secs: int) -> (t: Fields)
    requires
        day_number(0, 1, 1) <= secs / 86400 <= day_number(9999, 12, 31),
    ensures
        moment_text(secs) == t.year + "-"@ + t.month + "-"@ + t.day + " "@ + t.hour + ":"@ + t.minute
            + ":"@ + t.second + " UTC"@,
        t.year.len() == 4,
        t.month.len() == t.day.len() == t.hour.len() == t.minute.len() == t.second.len() == 2,
        all_digits(t.year) && all_digits(t.month) && all_digits(t.day),
        all_digits(t.hour) && all_digits(t.minute) && all_digits(t.second),
        is_date(number(t.year), number(t.month), number(t.day)),
        0 <= number(t.hour) < 24,
        0 <= number(t.minute) < 60,
        0 <= number(t.second) < 60,
        secs == 86400 * day_number(number(t.year), number(t.month), number(t.day)) + 3600 * number(
            t.hour,
        ) + 60 * number(t.minute) + number(t.second),
{
    let day = secs / 86400;
    every_day_has_a_date(day);
    let (y, m, d) = date_of(day);
    month_starts(y);
    assert(0 <= y <= 9999) by {
        reveal_with_fuel(month_start, 13);
        if y < 0 {
            year_starts(y + 1, 0);
        } else if y > 9999 {
            year_starts(10000, y);
            month_starts(9999);
        }
    }
    let clock = secs % 86400;
    let yy = y as nat;
    two_digits_read_back(yy / 100);
    two_digits_read_back(yy % 100);
    two_digits_read_back(m as nat);
    two_digits_read_back(d as nat);
    two_digits_read_back((clock / 3600) as nat);
    two_digits_read_back((clock % 3600 / 60) as nat);
    two_digits_read_back((clock % 60) as nat);
    let (hi, lo) = (two_digits(yy / 100), two_digits(yy % 100));
    let year = four_digits(yy);
    assert(year == hi + lo);
    assert(number(year) == y) by {
        reveal_with_fuel(number, 5);
        assert(year.drop_last() =~= hi.push(lo[0]));
        assert(year.drop_last().drop_last() =~= hi);
        assert(lo.drop_last() =~= seq![lo[0]]);
        assert(lo.drop_last().drop_last() =~= Seq::<char>::empty());
    }
    Fields {
        year,
        month: two_digits(m as nat),
        day: two_digits(d as nat),
        hour: two_digits((clock / 3600) as nat),
        minute: two_digits((clock % 3600 / 60) as nat),
        second: two_digits((clock % 60) as nat),
    }
}

} // verus!
