//! The calendar: what an instant is called in UTC.

use vstd::prelude::*;
use vstd::string::StringExecFns;

use crate::text;

verus! {

/// The year has a leap day.
pub open spec fn is_leap(year: nat) -> bool {
    year % 4 == 0 && (year % 100 != 0 || year % 400 == 0)
}

/// The days of a year.
pub open spec fn year_len(year: nat) -> nat {
    if is_leap(year) {
        366
    } else {
        365
    }
}

/// The days of a month.
pub open spec fn month_len(year: nat, month: nat) -> nat {
    if month == 2 {
        if is_leap(year) {
            29
        } else {
            28
        }
    } else if month == 4 || month == 6 || month == 9 || month == 11 {
        30
    } else {
        31
    }
}

/// A day of the calendar. Months and days count from one.
pub struct Date {
    pub year: nat,
    pub month: nat,
    pub day: nat,
}

/// The date `n` days after the first of the month.
pub open spec fn date_in(year: nat, month: nat, n: nat) -> Date
    decreases n,
{
    if n < month_len(year, month) {
        Date { year, month, day: n + 1 }
    } else if month < 12 {
        date_in(year, month + 1, (n - month_len(year, month)) as nat)
    } else {
        date_in(year + 1, 1, (n - month_len(year, month)) as nat)
    }
}

/// The date `n` days after the first of January 1970.
pub open spec fn date_of(n: nat) -> Date {
    date_in(1970, 1, n)
}

/// `n` in two digits.
pub open spec fn two_digits(n: nat) -> Seq<char> {
    seq![text::digit(n / 10), text::digit(n % 10)]
}

/// A year in four digits. One that has more is written out behind a plus sign.
pub open spec fn year_text(year: nat) -> Seq<char> {
    if year <= 9999 {
        two_digits(year / 100) + two_digits(year % 100)
    } else {
        seq!['+'] + text::digits(year, 10)
    }
}

/// The ISO-8601 text of the UTC instant `secs` seconds after the Unix epoch.
pub open spec fn iso_text(secs: nat) -> Seq<char> {
    let date = date_of(secs / 86400);
    let time = secs % 86400;
    year_text(date.year) + "-"@ + two_digits(date.month) + "-"@ + two_digits(date.day) + "T"@
        + two_digits(time / 3600) + ":"@ + two_digits(time / 60 % 60) + ":"@ + two_digits(
        time % 60,
    ) + "Z"@
}

/// The ISO-8601 text of the UTC instant `secs` seconds after the Unix epoch.
pub fn iso8601(secs: u64) -> (r: String)
    ensures
        r@ == iso_text(secs as nat),
{
    let (year, month, day) = civil(secs / 86400);
    let time: u64 = secs % 86400;
    let mut out = String::new();
    push_year(&mut out, year);
    out.append("-");
    push_two(&mut out, month);
    out.append("-");
    push_two(&mut out, day);
    out.append("T");
    push_two(&mut out, time / 3600);
    out.append(":");
    push_two(&mut out, time / 60 % 60);
    out.append(":");
    push_two(&mut out, time % 60);
    out.append("Z");
    assert(out@ =~= iso_text(secs as nat));
    out
}

/// Year, month and day of the date `days` days after the first of January 1970.
fn civil(days: u64) -> (r: (u64, u64, u64))
    requires
        days <= u64::MAX / 86400,
    ensures
        (Date { year: r.0 as nat, month: r.1 as nat, day: r.2 as nat }) == date_of(days as nat),
        1 <= r.1 <= 12,
        1 <= r.2 <= 31,
{
    let cycles: u64 = days / 146097;
    let mut year: u64 = 1970 + 400 * cycles;
    let mut month: u64 = 1;
    let mut n: u64 = days % 146097;
    proof {
        lemma_cycles(1970, cycles as nat, days as nat);
    }
    while n >= days_of_month(year, month)
        invariant
            date_of(days as nat) == date_in(year as nat, month as nat, n as nat),
            1 <= month <= 12,
            days <= u64::MAX / 86400,
            cycles == days / 146097,
            year + n <= 1970 + 400 * cycles + 146097,
        decreases n,
    {
        n = n - days_of_month(year, month);
        if month < 12 {
            month = month + 1;
        } else {
            month = 1;
            year = year + 1;
        }
    }
    (year, month, n + 1)
}

/// The days of a month.
fn days_of_month(year: u64, month: u64) -> (r: u64)
    ensures
        r == month_len(year as nat, month as nat),
{
    if month == 2 {
        if year % 4 == 0 && (year % 100 != 0 || year % 400 == 0) {
            29
        } else {
            28
        }
    } else if month == 4 || month == 6 || month == 9 || month == 11 {
        30
    } else {
        31
    }
}

/// Appends `n` in two digits.
fn push_two(out: &mut String, n: u64)
    requires
        n < 100,
    ensures
        final(out)@ == old(out)@ + two_digits(n as nat),
{
    text::push_number(out, (n / 10) as u128, 10);
    text::push_number(out, (n % 10) as u128, 10);
    assert(text::digits((n / 10) as nat, 10) =~= seq![text::digit((n / 10) as nat)]);
    assert(text::digits((n % 10) as nat, 10) =~= seq![text::digit((n % 10) as nat)]);
    assert(out@ =~= old(out)@ + two_digits(n as nat));
}

fn push_year(out: &mut String, year: u64)
    ensures
        final(out)@ == old(out)@ + year_text(year as nat),
{
    if year <= 9999 {
        push_two(out, year / 100);
        push_two(out, year % 100);
    } else {
        out.push('+');
        text::push_number(out, year as u128, 10);
    }
    assert(out@ =~= old(out)@ + year_text(year as nat));
}

// ---------------------------------------------------------------------------
// Whole years
// ---------------------------------------------------------------------------

/// The days of `k` years, from `year` on.
pub open spec fn years_len(year: nat, k: nat) -> nat
    decreases k,
{
    if k == 0 {
        0
    } else {
        years_len(year, (k - 1) as nat) + year_len((year + k - 1) as nat)
    }
}

/// A year is its twelve months.
proof fn lemma_year(year: nat, n: nat)
    requires
        n >= year_len(year),
    ensures
        date_in(year, 1, n) == date_in(year + 1, 1, (n - year_len(year)) as nat),
{
    reveal_with_fuel(date_in, 13);
}

proof fn lemma_years(year: nat, k: nat, n: nat)
    requires
        n >= years_len(year, k),
    ensures
        date_in(year, 1, n) == date_in(year + k, 1, (n - years_len(year, k)) as nat),
    decreases k,
{
    if k > 0 {
        let j = (k - 1) as nat;
        lemma_years(year, j, n);
        lemma_year(year + j, (n - years_len(year, j)) as nat);
    }
}

/// How many leap years there are up to `year`.
#[verifier::opaque]
spec fn leaps(year: int) -> int {
    year / 4 - year / 100 + year / 400
}

proof fn lemma_leap(year: nat)
    requires
        year >= 1,
    ensures
        year_len(year) == 365 + leaps(year as int) - leaps(year - 1),
{
    reveal(leaps);
    let y = year as int;
    assert(y / 4 - (y - 1) / 4 == if y % 4 == 0 {
        1int
    } else {
        0
    });
    assert(y / 100 - (y - 1) / 100 == if y % 100 == 0 {
        1int
    } else {
        0
    });
    assert(y / 400 - (y - 1) / 400 == if y % 400 == 0 {
        1int
    } else {
        0
    });
    assert(y % 400 == 0 ==> y % 100 == 0);
    assert(y % 100 == 0 ==> y % 4 == 0);
}

proof fn lemma_years_len(year: nat, k: nat)
    requires
        year >= 1,
    ensures
        years_len(year, k) == 365 * k + leaps(year + k - 1) - leaps(year - 1),
    decreases k,
{
    if k > 0 {
        lemma_years_len(year, (k - 1) as nat);
        lemma_leap((year + k - 1) as nat);
        assert(365 * k == 365 * (k - 1) + 365);
    }
}

/// The calendar repeats itself every four hundred years.
proof fn lemma_cycles(year: nat, cycles: nat, n: nat)
    requires
        year >= 1,
        n >= 146097 * cycles,
    ensures
        date_in(year, 1, n) == date_in(year + 400 * cycles, 1, (n - 146097 * cycles) as nat),
    decreases cycles,
{
    if cycles > 0 {
        lemma_years_len(year, 400);
        assert(leaps(year + 400 - 1) == leaps(year - 1) + 97) by {
            reveal(leaps);
        }
        lemma_years(year, 400, n);
        lemma_cycles(year + 400, (cycles - 1) as nat, (n - 146097) as nat);
    }
}

// ---------------------------------------------------------------------------
// Laws
// ---------------------------------------------------------------------------

/// The days of the year before the month.
pub open spec fn months_len(year: nat, month: nat) -> nat
    decreases month,
{
    if month <= 1 {
        0
    } else {
        months_len(year, (month - 1) as nat) + month_len(year, (month - 1) as nat)
    }
}

/// The days from the first of January 1970 to the date.
pub open spec fn day_number(d: Date) -> int {
    years_len(1970, (d.year - 1970) as nat) + months_len(d.year, d.month) + d.day - 1
}

proof fn lemma_day_number(year: nat, month: nat, n: nat)
    requires
        year >= 1970,
        1 <= month <= 12,
    ensures
        ({
            let d = date_in(year, month, n);
            &&& d.year >= year
            &&& 1 <= d.month <= 12
            &&& 1 <= d.day <= month_len(d.year, d.month)
            &&& day_number(d) == years_len(1970, (year - 1970) as nat) + months_len(year, month) + n
        }),
    decreases n,
{
    let len = month_len(year, month);
    if n >= len {
        if month < 12 {
            lemma_day_number(year, month + 1, (n - len) as nat);
        } else {
            reveal_with_fuel(months_len, 13);
            lemma_day_number(year + 1, 1, (n - len) as nat);
        }
    }
}

/// Every day has a date of the calendar, and counting the days up to that date
/// gives the day again. So no two days have the same date.
pub proof fn law_date_counts_the_days(n: nat)
    ensures
        ({
            let d = date_of(n);
            &&& d.year >= 1970
            &&& 1 <= d.month <= 12
            &&& 1 <= d.day <= month_len(d.year, d.month)
            &&& day_number(d) == n
        }),
{
    lemma_day_number(1970, 1, n);
}

/// Every fourth year is a leap year, but of the full centuries only every fourth.
pub proof fn law_leap_years(year: nat)
    ensures
        is_leap(4 * year) <==> year % 25 != 0 || year % 100 == 0,
        !is_leap(4 * year + 1),
        !is_leap(4 * year + 2),
        !is_leap(4 * year + 3),
        year_len(year) == 365 + (if is_leap(year) {
            1nat
        } else {
            0
        }),
{
    assert((4 * year) % 100 == 0 <==> year % 25 == 0);
    assert((4 * year) % 400 == 0 <==> year % 100 == 0);
}

/// How many days the months have. Only February depends on the year.
pub proof fn law_month_lengths(year: nat, month: nat)
    requires
        1 <= month <= 12,
    ensures
        month_len(year, month) == seq![
            31nat,
            28,
            31,
            30,
            31,
            30,
            31,
            31,
            30,
            31,
            30,
            31,
        ][month - 1] + (if month == 2 && is_leap(year) {
            1nat
        } else {
            0
        }),
{
}

/// The calendar goes on day by day: within a month to the next day, from its last day
/// to the first of the next month, and from the last of December to the first of
/// January. It begins on the first of January 1970.
pub proof fn law_calendar_goes_on_day_by_day(n: nat)
    ensures
        date_of(0) == (Date { year: 1970, month: 1, day: 1 }),
        ({
            let d = date_of(n);
            date_of(n + 1) == if d.day < month_len(d.year, d.month) {
                Date { day: d.day + 1, ..d }
            } else if d.month < 12 {
                Date { year: d.year, month: d.month + 1, day: 1 }
            } else {
                Date { year: d.year + 1, month: 1, day: 1 }
            }
        }),
{
    lemma_next_day(1970, 1, n);
}

proof fn lemma_next_day(year: nat, month: nat, n: nat)
    requires
        1 <= month <= 12,
    ensures
        ({
            let d = date_in(year, month, n);
            &&& 1 <= d.month <= 12
            &&& date_in(year, month, n + 1) == if d.day < month_len(d.year, d.month) {
                Date { day: d.day + 1, ..d }
            } else if d.month < 12 {
                Date { year: d.year, month: d.month + 1, day: 1 }
            } else {
                Date { year: d.year + 1, month: 1, day: 1 }
            }
        }),
    decreases n,
{
    let len = month_len(year, month);
    if n >= len {
        if month < 12 {
            lemma_next_day(year, month + 1, (n - len) as nat);
        } else {
            lemma_next_day(year + 1, 1, (n - len) as nat);
        }
    } else if n + 1 == len {
        if month < 12 {
            assert(date_in(year, month, n + 1) == date_in(year, month + 1, 0));
        } else {
            assert(date_in(year, month, n + 1) == date_in(year + 1, 1, 0));
        }
    }
}

/// An instant is written as year, month and day, then hour, minute and second, each
/// with its leading zeros. A year of more than four digits stands behind a plus sign.
pub proof fn law_instants_are_written_in_full(secs: nat)
    ensures
        ({
            let d = date_of(secs / 86400);
            let z = |n: nat| ('0' as nat + n % 10) as char;
            let hour = secs % 86400 / 3600;
            let minute = secs % 3600 / 60;
            let second = secs % 60;
            let year = if d.year <= 9999 {
                seq![z(d.year / 1000), z(d.year / 100), z(d.year / 10), z(d.year)]
            } else {
                seq!['+'] + text::digits(d.year, 10)
            };
            iso_text(secs) == year + seq![
                '-',
                z(d.month / 10),
                z(d.month),
                '-',
                z(d.day / 10),
                z(d.day),
                'T',
                z(hour / 10),
                z(hour),
                ':',
                z(minute / 10),
                z(minute),
                ':',
                z(second / 10),
                z(second),
                'Z',
            ]
        }),
{
    let d = date_of(secs / 86400);
    law_date_counts_the_days(secs / 86400);
    lemma_clock(secs);
    if d.year <= 9999 {
        lemma_year_digits(d.year);
    }
    lemma_instant(
        d,
        secs % 86400 / 3600,
        secs % 3600 / 60,
        secs % 60,
    );
}

proof fn lemma_clock(secs: nat)
    ensures
        secs % 86400 / 60 % 60 == secs % 3600 / 60,
        secs % 86400 % 60 == secs % 60,
        secs % 86400 / 3600 < 24,
        secs % 3600 / 60 < 60,
{
}

proof fn lemma_year_digits(year: nat)
    requires
        year <= 9999,
    ensures
        year_text(year) == seq![
            ('0' as nat + year / 1000 % 10) as char,
            ('0' as nat + year / 100 % 10) as char,
            ('0' as nat + year / 10 % 10) as char,
            ('0' as nat + year % 10) as char,
        ],
{
    lemma_two_digits(year / 100);
    lemma_two_digits(year % 100);
    assert(year / 100 / 10 == year / 1000);
    assert(year % 100 / 10 % 10 == year / 10 % 10);
    assert(year % 100 % 10 == year % 10);
}

proof fn lemma_instant(d: Date, hour: nat, minute: nat, second: nat)
    requires
        d.month <= 12,
        d.day <= 31,
        hour < 24,
        minute < 60,
        second < 60,
    ensures
        ({
            let z = |n: nat| ('0' as nat + n % 10) as char;
            year_text(d.year) + "-"@ + two_digits(d.month) + "-"@ + two_digits(d.day) + "T"@
                + two_digits(hour) + ":"@ + two_digits(minute) + ":"@ + two_digits(second) + "Z"@
                == year_text(d.year) + seq![
                '-',
                z(d.month / 10),
                z(d.month),
                '-',
                z(d.day / 10),
                z(d.day),
                'T',
                z(hour / 10),
                z(hour),
                ':',
                z(minute / 10),
                z(minute),
                ':',
                z(second / 10),
                z(second),
                'Z',
            ]
        }),
{
    reveal_strlit("-");
    reveal_strlit("T");
    reveal_strlit(":");
    reveal_strlit("Z");
    lemma_two_digits(d.month);
    lemma_two_digits(d.day);
    lemma_two_digits(hour);
    lemma_two_digits(minute);
    lemma_two_digits(second);
    let z = |n: nat| ('0' as nat + n % 10) as char;
    let y = year_text(d.year);
    let s = y + "-"@ + two_digits(d.month) + "-"@ + two_digits(d.day) + "T"@ + two_digits(hour)
        + ":"@ + two_digits(minute) + ":"@ + two_digits(second) + "Z"@;
    assert(s =~= y + seq![
        '-',
        z(d.month / 10),
        z(d.month),
        '-',
        z(d.day / 10),
        z(d.day),
        'T',
        z(hour / 10),
        z(hour),
        ':',
        z(minute / 10),
        z(minute),
        ':',
        z(second / 10),
        z(second),
        'Z',
    ]);
}

proof fn lemma_two_digits(n: nat)
    requires
        n < 100,
    ensures
        two_digits(n) == seq![('0' as nat + n / 10 % 10) as char, ('0' as nat + n % 10) as char],
{
}

} // verus!
