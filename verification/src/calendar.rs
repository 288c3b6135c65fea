//! The calendar: dates, weekdays and weeks of Modified Julian Days, and the
//! text of times and angles.
use crate::text;
use crate::text::push_u64;
use vstd::prelude::*;

verus! {

/// The days that the calendar covers, before and after day 0: those whose
/// times a 64-bit float still tells apart by a small part of a day.
pub const CALENDAR_DAYS: i64 = 100_000_000_000_000;

/// Division that rounds down, for a positive divisor.
fn floor_div(a: i64, b: i64) -> (q: i64)
    requires
        b > 0,
        -4_000_000_000_000_000 <= a <= 4_000_000_000_000_000,
    ensures
        q == a as int / b as int,
{
    if a >= 0 {
        a / b
    } else {
        let m: i64 = -(a + 1);
        let q: i64 = -(m / b) - 1;
        proof {
            let x = a as int;
            let y = b as int;
            let d = m as int / y;
            let r = m as int % y;
            vstd::arithmetic::div_mod::lemma_fundamental_div_mod(m as int, y);
            assert(x == y * (-d - 1) + (y - 1 - r)) by (nonlinear_arith)
                requires
                    m == y * d + r,
                    m == -(x + 1),
            ;
            vstd::arithmetic::div_mod::lemma_fundamental_div_mod_converse(
                x,
                y,
                -d - 1,
                y - 1 - r,
            );
        }
        q
    }
}

/// The date of a Modified Julian Day (days since 1858-11-17): year, month
/// and day, in the Julian calendar before 1582-10-15 and in the Gregorian
/// one from then on.
pub open spec fn date_of(mjd: int) -> (int, int, int) {
    let z = mjd + 2_400_001;
    let century = (4 * z - 7_468_865) / 146_097;
    let a = if z >= 2_299_161 {
        z + 1 + century - century / 4
    } else {
        z
    } + 1524;
    let y = (20 * a - 2442) / 7305;
    let start = 1461 * y / 4;
    let month = 10_000 * (a - start) / 306_001;
    let day = a - start - 306_001 * month / 10_000;
    let m = if month < 14 {
        month - 1
    } else {
        month - 13
    };
    (
        if m > 2 {
            y - 4716
        } else {
            y - 4715
        },
        m,
        day,
    )
}

/// The weekday of a Modified Julian Day, 1 for Monday to 7 for Sunday.
pub open spec fn weekday_of(mjd: int) -> int {
    (mjd + 2) % 7 + 1
}

pub open spec fn is_leap(year: int) -> bool {
    year % 4 == 0 && (year % 100 != 0 || year % 400 == 0)
}

/// The day of the year of a date.
pub open spec fn yearday(y: int, m: int, d: int) -> int {
    let c = if is_leap(y) {
        (m + 9) / 12
    } else {
        2 * ((m + 9) / 12)
    };
    275 * m / 9 - c + d - 30
}

/// The day of the year of a Modified Julian Day.
pub open spec fn yearday_of(mjd: int) -> int {
    let (y, m, d) = date_of(mjd);
    yearday(y, m, d)
}

/// The week of the year of a day of the year and its weekday.
pub open spec fn week(yd: int, weekday: int) -> int {
    let r = yd - 4;
    let w = (r + 7) / 7;
    let rest = if r >= 0 {
        r % 7
    } else {
        r + 7
    };
    if rest >= weekday {
        w + 1
    } else {
        w
    }
}

/// Days within the calendar.
pub open spec fn covered(mjd: i64) -> bool {
    -CALENDAR_DAYS <= mjd <= CALENDAR_DAYS
}

/// What a date consists of lies in its range.
pub proof fn law_date_in_range(mjd: int)
    ensures
        ({
            let (y, m, d) = date_of(mjd);
            1 <= m <= 12 && 1 <= d <= 31
        }),
{
    let z = mjd + 2_400_001;
    let century = (4 * z - 7_468_865) / 146_097;
    let a = if z >= 2_299_161 {
        z + 1 + century - century / 4
    } else {
        z
    } + 1524;
    let y = (20 * a - 2442) / 7305;
    let start = 1461 * y / 4;
    let r = a - start;
    // a lies in the year that starts at `start`
    assert(7305 * y <= 20 * a - 2442 < 7305 * y + 7305);
    assert(122 <= r <= 488);
    let month = 10_000 * r / 306_001;
    assert(3 <= month <= 15);
}

/// The date of a day given as a whole number of days since 1858-11-17.
pub fn mjd_ymd(mjd: i64) -> (r: (i64, i64, i64))
    requires
        covered(mjd),
    ensures
        (r.0 as int, r.1 as int, r.2 as int) == date_of(mjd as int),
{
    let z: i64 = mjd + 2_400_001;
    let mut a: i64 = z;
    if z >= 2_299_161 {
        let century: i64 = (4 * z - 7_468_865) / 146_097;
        a = z + 1 + century - century / 4;
    }
    a = a + 1524;
    let y: i64 = floor_div(20 * a - 2442, 7305);
    assert(7305 * y <= 20 * a - 2442 < 7305 * y + 7305);
    let start: i64 = floor_div(1461 * y, 4);
    let r: i64 = a - start;
    assert(122 <= r <= 488);
    let month: i64 = 10_000 * r / 306_001;
    assert(3 <= month <= 15);
    let day: i64 = r - 306_001 * month / 10_000;
    let m: i64 = if month < 14 {
        month - 1
    } else {
        month - 13
    };
    let year: i64 = if m > 2 {
        y - 4716
    } else {
        y - 4715
    };
    (year, m, day)
}

/// The weekday of a day: 1 for Monday to 7 for Sunday.
pub fn mjd_weekday(mjd: i64) -> (r: i64)
    requires
        covered(mjd),
    ensures
        r == weekday_of(mjd as int),
{
    let q: i64 = floor_div(mjd + 2, 7);
    mjd + 2 - 7 * q + 1
}

/// The day of the year of a day (1 to 366).
pub fn mjd_yearday(mjd: i64) -> (r: i64)
    requires
        covered(mjd),
    ensures
        r == yearday_of(mjd as int),
{
    let (y, m, d) = mjd_ymd(mjd);
    proof {
        law_date_in_range(mjd as int);
        lemma_year_bound(mjd as int);
    }
    let q: i64 = y - 4 * floor_div(y, 4);
    let c100: i64 = y - 100 * floor_div(y, 100);
    let c400: i64 = y - 400 * floor_div(y, 400);
    let leap: bool = q == 0 && (c100 != 0 || c400 == 0);
    assert(leap == is_leap(y as int));
    let c: i64 = if leap {
        (m + 9) / 12
    } else {
        2 * ((m + 9) / 12)
    };
    (275 * m) / 9 - c + d - 30
}

proof fn lemma_year_bound(mjd: int)
    requires
        -CALENDAR_DAYS <= mjd <= CALENDAR_DAYS,
    ensures
        -1_000_000_000_000 <= date_of(mjd).0 <= 1_000_000_000_000,
{
}

/// The week of the year of a day. It can be 0.
pub fn mjd_yearweek(mjd: i64) -> (r: i64)
    requires
        covered(mjd),
    ensures
        r == week(yearday_of(mjd as int), weekday_of(mjd as int)),
{
    let yd: i64 = mjd_yearday(mjd);
    proof {
        law_date_in_range(mjd as int);
        law_yearday_in_range(mjd as int);
    }
    let r: i64 = yd - 4;
    let w: i64 = (r + 7) / 7;
    let rest: i64 = if r >= 0 {
        r % 7
    } else {
        r + 7
    };
    if rest >= mjd_weekday(mjd) {
        w + 1
    } else {
        w
    }
}

/// The day of the year lies between 1 and 366.
pub proof fn law_yearday_in_range(mjd: int)
    ensures
        1 <= yearday_of(mjd) <= 366,
{
    law_date_in_range(mjd);
    lemma_month_end(mjd);
}

proof fn lemma_month_end(mjd: int)
    ensures
        ({
            let (y, m, d) = date_of(mjd);
            m == 12 ==> d <= 31
        }),
{
    law_date_in_range(mjd);
}

/// Division that rounds towards zero, by 5.
pub open spec fn fifth(a: int) -> int {
    if a >= 0 {
        a / 5
    } else {
        -((-a) / 5)
    }
}

/// Days since 1970-01-01 of a date in the Gregorian calendar, also for dates
/// before it was in use.
pub open spec fn days_of(year: int, month: int, day: int) -> int {
    let y = if month <= 2 {
        year - 1
    } else {
        year
    };
    let era = y / 400;
    let yoe = y - era * 400;
    let mp = if month > 2 {
        month - 3
    } else {
        month + 9
    };
    let doy = fifth(153 * mp + 2) + day - 1;
    let doe = yoe * 365 + yoe / 4 - yoe / 100 + doy;
    era * 146_097 + doe - 719_468
}

/// The leap year cycles of 400 years before a year.
fn cycles_before(y: i128) -> (r: i128)
    requires
        -0x1_0000_0000_0000_0000 <= y <= 0x1_0000_0000_0000_0000,
    ensures
        r == y as int / 400,
{
    if y >= 0 {
        y / 400
    } else {
        -((-(y + 1)) / 400) - 1
    }
}

/// Days since 1970-01-01 of a (proleptic Gregorian) calendar date. Any date
/// will do whose day count fits in 64 bits.
pub fn civil_days(year: i64, month: i64, day: i64) -> (r: i64)
    requires
        i64::MIN <= days_of(year as int, month as int, day as int) <= i64::MAX,
    ensures
        r == days_of(year as int, month as int, day as int),
{
    let y: i128 = if month <= 2 {
        year as i128 - 1
    } else {
        year as i128
    };
    let era: i128 = cycles_before(y);
    let yoe: i128 = y - era * 400;
    let mp: i128 = if month > 2 {
        month as i128 - 3
    } else {
        month as i128 + 9
    };
    let t: i128 = 153 * mp + 2;
    let doy: i128 = if t >= 0 {
        t / 5
    } else {
        -((-t) / 5)
    } + day as i128 - 1;
    let doe: i128 = yoe * 365 + yoe / 4 - yoe / 100 + doy;
    (era * 146_097 + doe - 719_468) as i64
}

/// The number of days of a month.
pub open spec fn month_days(year: int, month: int) -> int {
    if month == 2 {
        if is_leap(year) {
            29
        } else {
            28
        }
    } else if month == 4 || month == 6 || month == 9 || month == 11 {
        30
    } else {
        31
    }
}

/// The day count starts on 1970-01-01, goes up by one from day to day, and
/// every month has its length.
pub proof fn law_days_of(year: int, month: int, day: int)
    requires
        1 <= month <= 12,
    ensures
        days_of(1970, 1, 1) == 0,
        days_of(year, month, day + 1) == days_of(year, month, day) + 1,
        month < 12 ==> days_of(year, month + 1, 1) == days_of(year, month, 1) + month_days(
            year,
            month,
        ),
        days_of(year + 1, 1, 1) == days_of(year, 12, 1) + 31,
{
    if month == 2 {
        lemma_leap_days(year);
    }
}

/// From 1582-10-15 on, the date of a day is the date that has its day count.
pub proof fn law_calendar_round_trip(mjd: int)
    requires
        mjd >= -100_840,
    ensures
        ({
            let (y, m, d) = date_of(mjd);
            days_of(y, m, d) == mjd - 40_587
        }),
{
    let z = mjd + 2_400_001;
    let century = (4 * z - 7_468_865) / 146_097;
    let a = z + 1 + century - century / 4 + 1524;
    let y = (20 * a - 2442) / 7305;
    let start = 1461 * y / 4;
    let r = a - start;
    assert(7305 * y <= 20 * a - 2442 < 7305 * y + 7305);
    assert(122 <= r <= 488);
    let month = 10_000 * r / 306_001;
    assert(3 <= month <= 15);
    let day = r - 306_001 * month / 10_000;
    // March is month 4 here: the months of a year that starts in March
    assert(306_001 * month / 10_000 == (153 * (month - 4) + 2) / 5 + 122);
    let yy = y - 4716;
    lemma_centuries(z, century, y, r);
}

/// The century of a day is that of its year, where years start in March.
proof fn lemma_century(z: int, c: int, y: int)
    requires
        146_097 * c <= 4 * z - 7_468_865 < 146_097 * c + 146_097,
        7305 * y <= 20 * (z + 1525 + c - c / 4) - 2442 < 7305 * y + 7305,
    ensures
        100 * c + 400 <= y - 4716 < 100 * c + 500,
{
    let q = c / 4;
    assert(4 * q <= c <= 4 * q + 3);
}

/// A number of years in leap year cycles of 400 years.
proof fn lemma_cycles(y: int)
    ensures
        ({
            let yoe = y - y / 400 * 400;
            y / 400 * 146_097 + yoe * 365 + yoe / 4 - yoe / 100 == 365 * y + y / 4 - y / 100 + y
                / 400
        }),
{
    let e = y / 400;
    let yoe = y - e * 400;
    assert(0 <= yoe < 400);
    assert(y / 4 == 100 * e + yoe / 4);
    assert(y / 100 == 4 * e + yoe / 100);
}

proof fn lemma_centuries(z: int, century: int, y: int, r: int)
    requires
        century == (4 * z - 7_468_865) / 146_097,
        z + 1525 + century - century / 4 == 1461 * y / 4 + r,
        7305 * y <= 20 * (z + 1525 + century - century / 4) - 2442 < 7305 * y + 7305,
    ensures
        ({
            let yy = y - 4716;
            let yoe = yy - yy / 400 * 400;
            yy / 400 * 146_097 + yoe * 365 + yoe / 4 - yoe / 100 + (r - 123) - 719_468 == z
                - 2_440_588
        }),
{
    let yy = y - 4716;
    lemma_century(z, century, y);
    lemma_cycles(yy);
    assert(yy / 100 == century + 4);
    assert(yy / 400 == (century + 4) / 4);
    assert((century + 4) / 4 == century / 4 + 1);
    assert(1461 * y / 4 == 365 * y + y / 4);
    assert(y / 4 == yy / 4 + 1179);
}

/// The days of a year, counted in leap years.
proof fn lemma_year_days(y: int)
    ensures
        (365 * y + y / 4 - y / 100 + y / 400) - (365 * (y - 1) + (y - 1) / 4 - (y - 1) / 100 + (y
            - 1) / 400) == if is_leap(y) {
            366int
        } else {
            365
        },
{
    lemma_step(y, 4);
    lemma_step(y, 100);
    lemma_step(y, 400);
    assert(y % 400 == 0 ==> y % 100 == 0);
    assert(y % 100 == 0 ==> y % 4 == 0);
}

/// The leap days up to a year.
#[verifier::spinoff_prover]
#[verifier::rlimit(60)]
proof fn lemma_leap_days(year: int)
    ensures
        ({
            let a = year - 1;
            let b = year;
            let ya = a - a / 400 * 400;
            let yb = b - b / 400 * 400;
            (b / 400 * 146_097 + yb * 365 + yb / 4 - yb / 100) - (a / 400 * 146_097 + ya * 365 + ya
                / 4 - ya / 100) == if is_leap(year) {
                366int
            } else {
                365
            }
        }),
{
    lemma_cycles(year);
    lemma_cycles(year - 1);
    lemma_year_days(year);
}

proof fn lemma_step(y: int, n: int)
    requires
        n == 4 || n == 100 || n == 400,
    ensures
        y / n - (y - 1) / n == if y % n == 0 {
            1int
        } else {
            0
        },
{
}

/// A number in decimal, with zeros in front of it up to a width.
pub open spec fn padded(n: nat, width: nat) -> Seq<char> {
    let d = text::decimal_nat(n);
    if d.len() >= width {
        d
    } else {
        Seq::new((width - d.len()) as nat, |i: int| '0') + d
    }
}

pub(crate) fn push_padded(out: &mut String, n: u64, width: usize)
    ensures
        final(out)@ == old(out)@ + padded(n as nat, width as nat),
{
    let mut d: String = String::new();
    push_u64(&mut d, n);
    assert(d@ =~= text::decimal_nat(n as nat));
    let have: usize = d.as_str().unicode_len();
    let ghost start = out@;
    if have < width {
        let want: usize = width - have;
        let mut i: usize = 0;
        while i < want
            invariant
                i <= want,
                out@ == start + Seq::new(i as nat, |k: int| '0'),
            decreases want - i,
        {
            out.push('0');
            assert(out@ =~= start + Seq::new((i + 1) as nat, |k: int| '0'));
            i = i + 1;
        }
    }
    out.append(d.as_str());
    assert(out@ =~= start + padded(n as nat, width as nat));
}

/// A time of day as `HH:MM:SS`.
pub open spec fn clock(h: nat, m: nat, s: nat) -> Seq<char> {
    padded(h, 2) + ":"@ + padded(m, 2) + ":"@ + padded(s, 2)
}

/// A time of day as `HH:MM:SS`.
pub fn time_text(hours: u64, minutes: u64, seconds: u64) -> (r: String)
    ensures
        r@ == clock(hours as nat, minutes as nat, seconds as nat),
{
    let mut s: String = String::new();
    push_padded(&mut s, hours, 2);
    s.append(":");
    push_padded(&mut s, minutes, 2);
    s.append(":");
    push_padded(&mut s, seconds, 2);
    assert(s@ =~= clock(hours as nat, minutes as nat, seconds as nat));
    s
}

/// An angle as `+DDD.MM.SS`.
pub open spec fn arc(negative: bool, d: nat, m: nat, s: nat) -> Seq<char> {
    (if negative {
        "-"@
    } else {
        "+"@
    }) + padded(d, 3) + "."@ + padded(m, 2) + "."@ + padded(s, 2)
}

/// An angle as `+DDD.MM.SS`.
pub fn angle_text(negative: bool, degrees: u64, minutes: u64, seconds: u64) -> (r: String)
    ensures
        r@ == arc(negative, degrees as nat, minutes as nat, seconds as nat),
{
    let mut s: String = String::new();
    if negative {
        s.append("-");
    } else {
        s.append("+");
    }
    push_padded(&mut s, degrees, 3);
    s.append(".");
    push_padded(&mut s, minutes, 2);
    s.append(".");
    push_padded(&mut s, seconds, 2);
    assert(s@ =~= arc(negative, degrees as nat, minutes as nat, seconds as nat));
    s
}

/// An angle or a time in three parts, `+090d00m00.000`: whole units of at least
/// `w1` digits, minutes of at least `w2`, and the text of the seconds. A signed
/// one shows its sign.
pub open spec fn three_parts(
    sign: Option<bool>,
    whole: (nat, nat, Seq<char>),
    minutes: (nat, nat, Seq<char>),
    seconds: Seq<char>,
) -> Seq<char> {
    (match sign {
        None => Seq::empty(),
        Some(negative) => if negative {
            "-"@
        } else {
            "+"@
        },
    }) + padded(whole.0, whole.1) + whole.2 + padded(minutes.0, minutes.1) + minutes.2 + seconds
}

/// An angle or a time in three parts: whole units `d` followed by `s1`,
/// minutes `m` followed by `s2`, and the seconds.
pub fn sexagesimal_text(
    sign: Option<bool>,
    d: u64,
    w1: usize,
    s1: &str,
    m: u64,
    w2: usize,
    s2: &str,
    seconds: &str,
) -> (r: String)
    ensures
        r@ == three_parts(
            sign,
            (d as nat, w1 as nat, s1@),
            (m as nat, w2 as nat, s2@),
            seconds@,
        ),
{
    let mut s: String = String::new();
    match sign {
        None => {},
        Some(negative) => {
            if negative {
                s.append("-");
            } else {
                s.append("+");
            }
        },
    }
    push_padded(&mut s, d, w1);
    s.append(s1);
    push_padded(&mut s, m, w2);
    s.append(s2);
    s.append(seconds);
    assert(s@ =~= three_parts(
        sign,
        (d as nat, w1 as nat, s1@),
        (m as nat, w2 as nat, s2@),
        seconds@,
    ));
    s
}

/// Weekdays follow one another, Monday after Sunday; day 5 and every seventh
/// day from it is a Monday.
pub proof fn law_weekdays(mjd: int)
    ensures
        1 <= weekday_of(mjd) <= 7,
        weekday_of(mjd) < 7 ==> weekday_of(mjd + 1) == weekday_of(mjd) + 1,
        weekday_of(mjd) == 7 ==> weekday_of(mjd + 1) == 1,
        weekday_of(5 + 7 * mjd) == 1,
{
}

/// The day of the year counts the days from January 1st on, which is day 1.
pub proof fn law_yearday_counts(mjd: int)
    requires
        mjd >= -100_840,
    ensures
        ({
            let (y, m, d) = date_of(mjd);
            yearday_of(mjd) == days_of(y, m, d) - days_of(y, 1, 1) + 1
        }),
{
    let (y, m, d) = date_of(mjd);
    law_date_in_range(mjd);
    lemma_leap_days(y);
}

/// The weeks of a year begin on Mondays: the week of a day and that of the day
/// before are the same, unless it is a Monday, which starts the next week.
/// January 4th is in week 1.
pub proof fn law_weeks(yd: int, weekday: int)
    requires
        1 <= weekday <= 7,
        1 <= yd,
    ensures
        weekday > 1 && yd > 1 ==> week(yd, weekday) == week(yd - 1, weekday - 1),
        weekday == 1 && yd > 1 ==> week(yd, weekday) == week(yd - 1, 7) + 1,
        week(4, weekday) == 1,
        week(yd + 7, weekday) == week(yd, weekday) + 1,
{
    lemma_week(yd, weekday);
    lemma_week(yd + 7, weekday);
    lemma_week(4, weekday);
    if yd > 1 {
        lemma_week(yd - 1, if weekday > 1 {
            weekday - 1
        } else {
            7
        });
    }
}

proof fn lemma_week(yd: int, weekday: int)
    requires
        1 <= weekday <= 7,
        1 <= yd,
    ensures
        week(yd, weekday) == (yd - weekday + 10) / 7,
{
}

/// Before 1582-10-15 the date of a day is the one of the Julian calendar that
/// has its day count: every fourth year is a leap year.
pub proof fn law_julian_round_trip(mjd: int)
    requires
        mjd < -100_840,
    ensures
        ({
            let (y, m, d) = date_of(mjd);
            let yy = if m <= 2 {
                y - 1
            } else {
                y
            };
            let mp = if m > 2 {
                m - 3
            } else {
                m + 9
            };
            365 * yy + yy / 4 + (153 * mp + 2) / 5 + d == mjd + 678_884
        }),
{
    let z = mjd + 2_400_001;
    let a = z + 1524;
    let y = (20 * a - 2442) / 7305;
    let start = 1461 * y / 4;
    let r = a - start;
    assert(7305 * y <= 20 * a - 2442 < 7305 * y + 7305);
    assert(122 <= r <= 488);
    let month = 10_000 * r / 306_001;
    assert(3 <= month <= 15);
    assert(306_001 * month / 10_000 == (153 * (month - 4) + 2) / 5 + 122);
    assert(1461 * y / 4 == 365 * y + y / 4);
    assert(y / 4 == (y - 4716) / 4 + 1179);
}

/// The day of a date lies in its month.
pub proof fn law_day_in_month(mjd: int)
    ensures
        ({
            let (y, m, d) = date_of(mjd);
            let february: int = if mjd >= -100_840 && is_leap(y) || mjd < -100_840 && y % 4 == 0 {
                29
            } else {
                28
            };
            1 <= d <= if m == 2 {
                february
            } else {
                month_days(y, m)
            }
        }),
{
    law_date_in_range(mjd);
    let z = mjd + 2_400_001;
    let century = (4 * z - 7_468_865) / 146_097;
    let a = if z >= 2_299_161 {
        z + 1 + century - century / 4
    } else {
        z
    } + 1524;
    let y = (20 * a - 2442) / 7305;
    let start = 1461 * y / 4;
    let r = a - start;
    assert(7305 * y <= 20 * a - 2442 < 7305 * y + 7305);
    assert(122 <= r <= 488);
    let month = 10_000 * r / 306_001;
    assert(3 <= month <= 15);
    lemma_month_length(r, month);
    if month == 15 {
        assert(306_001 * month / 10_000 == 459);
        lemma_february(y, r);
        if z >= 2_299_161 && r == 488 && (y - 4715) % 100 == 0 {
            lemma_century(z, century, y);
            lemma_leap_century(z, century, y);
        }
    }
}

/// The last February day of a year counted from March on.
proof fn lemma_february(y: int, r: int)
    requires
        20 * (1461 * y / 4 + r) - 2442 < 7305 * y + 7305,
    ensures
        r <= 488,
        r == 488 ==> (y - 4715) % 4 == 0,
{
}

/// A century year with a leap day is divisible by 400.
proof fn lemma_leap_century(z: int, c: int, y: int)
    requires
        146_097 * c <= 4 * z - 7_468_865 < 146_097 * c + 146_097,
        100 * c + 400 <= y - 4716 < 100 * c + 500,
        (y - 4715) % 100 == 0,
        z + 1525 + c - c / 4 == 1461 * y / 4 + 488,
    ensures
        (y - 4715) % 400 == 0,
{
    assert(y == 100 * c + 5215);
    assert(1461 * y / 4 == 365 * y + y / 4);
    assert(y / 4 == 25 * c + 1303);
    let q = c / 4;
    assert(z == 36_524 * c + q + 1_903_741);
    assert(4 * q + 2 < c);
    assert(c % 4 == 3);
}

/// The days of a month, where months are counted from 4 for March.
proof fn lemma_month_length(r: int, month: int)
    requires
        122 <= r <= 488,
        month == 10_000 * r / 306_001,
    ensures
        3 <= month <= 15,
        month == 3 ==> r == 122,
        4 <= month <= 14 ==> r - 306_001 * month / 10_000 <= if month == 5 || month == 7 || month
            == 10 || month == 12 {
            30int
        } else {
            31
        },
        month == 15 ==> r - 306_001 * month / 10_000 <= 29,
{
}

/// The number that a row of digits stands for.
pub open spec fn number_of(s: Seq<char>) -> int
    decreases s.len(),
{
    if s.len() == 0 {
        0
    } else {
        10 * number_of(s.drop_last()) + (s.last() as u32 - '0' as u32)
    }
}

proof fn lemma_decimal_number(n: nat)
    ensures
        number_of(text::decimal_nat(n)) == n,
    decreases n,
{
    let d = text::decimal_nat(n);
    if n < 10 {
        assert(d.drop_last() =~= Seq::<char>::empty());
        assert(number_of(d.drop_last()) == 0);
        assert(d.last() == text::digit_char(n));
    } else {
        lemma_decimal_number(n / 10);
        assert(d.drop_last() =~= text::decimal_nat(n / 10));
        assert(d.last() == text::digit_char(n % 10));
    }
}

proof fn lemma_leading_zeros(k: nat, d: Seq<char>)
    ensures
        number_of(Seq::new(k, |i: int| '0') + d) == number_of(d),
    decreases k + d.len(),
{
    let z = Seq::new(k, |i: int| '0');
    if d.len() > 0 {
        assert((z + d).drop_last() =~= z + d.drop_last());
        lemma_leading_zeros(k, d.drop_last());
    } else if k > 0 {
        let m = (k - 1) as nat;
        assert((z + d).drop_last() =~= Seq::new(m, |i: int| '0') + d);
        lemma_leading_zeros(m, d);
    } else {
        assert(z + d =~= d);
    }
}

/// A padded number is a row of digits that stands for it, as long as the width
/// where the number has no more digits.
pub proof fn law_padded(n: nat, width: nat)
    ensures
        number_of(padded(n, width)) == n,
        padded(n, width).len() >= width,
        padded(n, width).len() > width ==> padded(n, width) == text::decimal_nat(n),
        forall|i: int|
            0 <= i < padded(n, width).len() ==> text::is_digit(#[trigger] padded(n, width)[i]),
{
    let d = text::decimal_nat(n);
    text::lemma_decimal_digits(n);
    lemma_decimal_number(n);
    if d.len() < width {
        let k = (width - d.len()) as nat;
        lemma_leading_zeros(k, d);
        assert forall|i: int| 0 <= i < padded(n, width).len() implies text::is_digit(
            #[trigger] padded(n, width)[i],
        ) by {
            if i >= k {
                assert(padded(n, width)[i] == d[i - k]);
            }
        }
    }
}

/// The text of a time of day: hours, minutes and seconds of two digits or more,
/// with colons between them.
pub proof fn law_clock(h: nat, m: nat, s: nat) -> (parts: (Seq<char>, Seq<char>, Seq<char>))
    ensures
        clock(h, m, s) == parts.0 + seq![':'] + parts.1 + seq![':'] + parts.2,
        number_of(parts.0) == h,
        number_of(parts.1) == m,
        number_of(parts.2) == s,
        parts.0.len() >= 2 && parts.1.len() >= 2 && parts.2.len() >= 2,
        h < 100 ==> parts.0.len() == 2,
        m < 100 ==> parts.1.len() == 2,
        s < 100 ==> parts.2.len() == 2,
{
    law_padded(h, 2);
    law_padded(m, 2);
    law_padded(s, 2);
    lemma_short(h);
    lemma_short(m);
    lemma_short(s);
    reveal_strlit(":");
    assert(":"@ =~= seq![':']);
    (padded(h, 2), padded(m, 2), padded(s, 2))
}

/// Numbers of two and of three digits.
proof fn lemma_short(n: nat)
    ensures
        n < 100 ==> text::decimal_nat(n).len() <= 2,
        n < 1000 ==> text::decimal_nat(n).len() <= 3,
{
    reveal_with_fuel(text::decimal_nat, 4);
}

/// The text of an angle: its sign, degrees of three digits or more, minutes and
/// seconds of two or more, with points between them.
pub proof fn law_arc(negative: bool, d: nat, m: nat, s: nat) -> (parts: (
    Seq<char>,
    Seq<char>,
    Seq<char>,
))
    ensures
        arc(negative, d, m, s) == seq![if negative { '-' } else { '+' }] + parts.0 + seq!['.']
            + parts.1 + seq!['.'] + parts.2,
        number_of(parts.0) == d,
        number_of(parts.1) == m,
        number_of(parts.2) == s,
        parts.0.len() >= 3 && parts.1.len() >= 2 && parts.2.len() >= 2,
        d < 1000 ==> parts.0.len() == 3,
        m < 100 ==> parts.1.len() == 2,
        s < 100 ==> parts.2.len() == 2,
{
    law_padded(d, 3);
    law_padded(m, 2);
    law_padded(s, 2);
    lemma_short(d);
    lemma_short(m);
    lemma_short(s);
    reveal_strlit(".");
    reveal_strlit("-");
    reveal_strlit("+");
    assert("."@ =~= seq!['.']);
    assert("-"@ =~= seq!['-']);
    assert("+"@ =~= seq!['+']);
    (padded(d, 3), padded(m, 2), padded(s, 2))
}

/// The text of an angle or a time in three parts: its sign where it is signed,
/// whole units and minutes in digits, each of its width or more and followed by
/// its mark, and the seconds.
pub proof fn law_three_parts(
    sign: Option<bool>,
    whole: (nat, nat, Seq<char>),
    minutes: (nat, nat, Seq<char>),
    seconds: Seq<char>,
) -> (parts: (Seq<char>, Seq<char>))
    ensures
        three_parts(sign, whole, minutes, seconds) == (match sign {
            None => Seq::empty(),
            Some(negative) => seq![
                if negative {
                    '-'
                } else {
                    '+'
                },
            ],
        }) + parts.0 + whole.2 + parts.1 + minutes.2 + seconds,
        number_of(parts.0) == whole.0,
        number_of(parts.1) == minutes.0,
        parts.0.len() >= whole.1,
        parts.1.len() >= minutes.1,
        parts.0.len() > whole.1 ==> parts.0 == text::decimal_nat(whole.0),
        parts.1.len() > minutes.1 ==> parts.1 == text::decimal_nat(minutes.0),
{
    law_padded(whole.0, whole.1);
    law_padded(minutes.0, minutes.1);
    reveal_strlit("-");
    reveal_strlit("+");
    assert("-"@ =~= seq!['-']);
    assert("+"@ =~= seq!['+']);
    (padded(whole.0, whole.1), padded(minutes.0, minutes.1))
}

} // verus!
