//! Dates of the proleptic Gregorian calendar.

use crate::text::{dec, dec_text};
use vstd::prelude::*;
use vstd::string::*;

verus! {

/// Whether `y` is a leap year.
pub open spec fn is_leap(y: int) -> bool {
    y % 4 == 0 && (y % 100 != 0 || y % 400 == 0)
}

/// How many days the months before `m` have in a year.
pub open spec fn days_before_month(y: int, m: int) -> int {
    let leap = if is_leap(y) {
        1int
    } else {
        0int
    };
    if m <= 1 {
        0
    } else if m == 2 {
        31
    } else if m == 3 {
        59 + leap
    } else if m == 4 {
        90 + leap
    } else if m == 5 {
        120 + leap
    } else if m == 6 {
        151 + leap
    } else if m == 7 {
        181 + leap
    } else if m == 8 {
        212 + leap
    } else if m == 9 {
        243 + leap
    } else if m == 10 {
        273 + leap
    } else if m == 11 {
        304 + leap
    } else if m == 12 {
        334 + leap
    } else {
        365 + leap
    }
}

/// How many days month `m` has.
pub open spec fn days_in_month(y: int, m: int) -> int {
    days_before_month(y, m + 1) - days_before_month(y, m)
}

/// Whether there is such a date.
pub open spec fn is_date(y: int, m: int, d: int) -> bool {
    1 <= m <= 12 && 1 <= d <= days_in_month(y, m)
}

/// The number of leap years from year 1 on and before `y`; negative for years before.
pub open spec fn leaps_before(y: int) -> int {
    (y - 1) / 4 - (y - 1) / 100 + (y - 1) / 400
}

/// The days from 1970-01-01 to the first day of year `y`.
pub open spec fn year_start(y: int) -> int {
    365 * (y - 1970) + leaps_before(y) - leaps_before(1970)
}

/// The days from 1970-01-01 to a date.
pub open spec fn day_number(y: int, m: int, d: int) -> int {
    year_start(y) + days_before_month(y, m) + d - 1
}

proof fn lemma_leap_step(y: int)
    ensures
        leaps_before(y + 1) - leaps_before(y) == if is_leap(y) {
            1int
        } else {
            0int
        },
{
    let q = y / 400;
    let r = y % 400;
    assert(y == 400 * q + r && 0 <= r < 400);
    lemma_div_parts(q, r);
    if r > 0 {
        lemma_div_parts(q, r - 1);
    } else {
        lemma_div_parts(q - 1, 399);
        assert(y - 1 == 400 * (q - 1) + 399);
    }
    lemma_mod_parts(q, r);
    let c = r / 100;
    let s = r % 100;
    assert(r == 100 * c + s);
    assert(r % 4 == s % 4);
    let k = s / 4;
    let u = s % 4;
    assert(s == 4 * k + u);
    if r > 0 {
        if s > 0 {
            assert((r - 1) / 100 == c);
        } else {
            assert((r - 1) / 100 == c - 1);
        }
        if u > 0 {
            assert((r - 1) / 4 == r / 4);
        } else {
            assert((r - 1) / 4 == r / 4 - 1);
        }
    }
}

/// The quotients of `400q + r` by 4, 100 and 400.
proof fn lemma_div_parts(q: int, r: int)
    requires
        0 <= r < 400,
    ensures
        (400 * q + r) / 4 == 100 * q + r / 4,
        (400 * q + r) / 100 == 4 * q + r / 100,
        (400 * q + r) / 400 == q,
{
}

/// The remainders of `400q + r` by 4, 100 and 400.
proof fn lemma_mod_parts(q: int, r: int)
    requires
        0 <= r < 400,
    ensures
        (400 * q + r) % 4 == r % 4,
        (400 * q + r) % 100 == r % 100,
        (400 * q + r) % 400 == r,
{
}

proof fn lemma_year_starts_grow(a: int, b: int)
    requires
        a < b,
    ensures
        year_start(a) + 365 + (if is_leap(a) {
            1int
        } else {
            0int
        }) <= year_start(b),
    decreases b - a,
{
    lemma_leap_step(b - 1);
    if a + 1 < b {
        lemma_year_starts_grow(a, b - 1);
    }
}

/// A day has one date: two dates with the same day number are the same.
pub proof fn law_a_day_has_one_date(y1: int, m1: int, d1: int, y2: int, m2: int, d2: int)
    requires
        is_date(y1, m1, d1),
        is_date(y2, m2, d2),
        day_number(y1, m1, d1) == day_number(y2, m2, d2),
    ensures
        y1 == y2 && m1 == m2 && d1 == d2,
{
    if y1 < y2 {
        lemma_year_starts_grow(y1, y2);
    } else if y2 < y1 {
        lemma_year_starts_grow(y2, y1);
    }
}

/// Where in its 400-year era a day lies: the century, the four-year group, the year of the
/// group, and the day of the year that starts in March.
proof fn lemma_day_of_era(doe: int)
    requires
        0 <= doe <= 146096,
    ensures
        ({
            let yoe = (doe - doe / 1460 + doe / 36524 - doe / 146096) / 365;
            let doy = doe - (365 * yoe + yoe / 4 - yoe / 100);
            &&& 0 <= yoe <= 399
            &&& 0 <= doy <= 365
            &&& doy == 365 ==> is_leap(yoe + 1)
        }),
{
    if doe == 146096 {
        assert(doe / 1460 == 100);
        assert(doe / 36524 == 4);
    } else {
        let c = doe / 36524;
        let r = doe % 36524;
        let q = r / 1461;
        let s = r % 1461;
        assert(doe == 36524 * c + r && 0 <= r < 36524 && 0 <= c <= 3);
        assert(r == 1461 * q + s && 0 <= s < 1461 && 0 <= q <= 24);
        let f = if 24 * c + q + s >= 1460 {
            1int
        } else {
            0int
        };
        assert(doe == 1460 * (25 * c + q) + (24 * c + q + s));
        assert(doe / 1460 == 25 * c + q + f);
        assert(doe / 146096 == 0);
        let n = doe - doe / 1460 + doe / 36524 - doe / 146096;
        assert(n == 365 * (100 * c + 4 * q) + (s - f));
        let t = (s - f) / 365;
        assert(0 <= t <= 3) by {
            assert(s - f >= 0);
            assert(s - f <= 1459);
        }
        let yoe = n / 365;
        assert(yoe == 100 * c + 4 * q + t);
        assert(yoe / 4 == 25 * c + q);
        assert(yoe / 100 == c);
        let doy = doe - (365 * yoe + yoe / 4 - yoe / 100);
        assert(doy == s - 365 * t);
        if doy == 365 {
            assert(t == 3 && s == 1460);
            assert(q <= 23) by {
                if q == 24 {
                    assert(r == 1461 * 24 + 1460);
                }
            }
            assert((yoe + 1) == 4 * (25 * c + q + 1));
            assert((yoe + 1) % 100 == 4 * (q + 1));
        }
    }
}

/// The month and day of a day of the year that starts in March.
proof fn lemma_day_of_march_year(doy: int)
    requires
        0 <= doy <= 365,
    ensures
        ({
            let mp = (5 * doy + 2) / 153;
            let d = doy - (153 * mp + 2) / 5 + 1;
            &&& 0 <= mp <= 11
            &&& 1 <= d
            &&& d <= (if mp == 11 {
                29int
            } else if mp == 1 || mp == 3 || mp == 6 || mp == 8 {
                30int
            } else {
                31int
            })
            &&& mp == 11 && d == 29 ==> doy == 365
            &&& (153 * mp + 2) / 5 == march_offset(mp)
        }),
{
    let mp = (5 * doy + 2) / 153;
    assert(0 <= mp <= 11);
    assert(153 * mp <= 5 * doy + 2 < 153 * mp + 153);
    assert((153 * mp + 2) / 5 == march_offset(mp));
}

/// How many days of a year that starts in March come before its month `mp`.
spec fn march_offset(mp: int) -> int {
    if mp <= 0 {
        0
    } else if mp == 1 {
        31
    } else if mp == 2 {
        61
    } else if mp == 3 {
        92
    } else if mp == 4 {
        122
    } else if mp == 5 {
        153
    } else if mp == 6 {
        184
    } else if mp == 7 {
        214
    } else if mp == 8 {
        245
    } else if mp == 9 {
        275
    } else if mp == 10 {
        306
    } else {
        337
    }
}

/// The day number of the first of March of year `y`.
proof fn lemma_march_start(era: int, yoe: int)
    requires
        0 <= yoe <= 399,
    ensures
        ({
            let y = 400 * era + yoe;
            year_start(y) + days_before_month(y, 3) == 146097 * era + 365 * yoe + yoe / 4 - yoe
                / 100 - 719468
        }),
{
    let y = 400 * era + yoe;
    lemma_leap_step(y);
    lemma_div_parts(era, yoe);
    assert((y + 1) - 1 == y);
    assert(leaps_before(y + 1) == y / 4 - y / 100 + y / 400);
    assert(leaps_before(1970) == 477);
    assert(year_start(y) + days_before_month(y, 3) == 365 * (y - 1970) + leaps_before(y + 1) - 477
        + 59);
}

/// The era of a day.
proof fn lemma_era(shifted: int, era: int)
    requires
        shifted >= 0 ==> era == shifted / 146097,
        shifted < 0 ==> era == -((146096 - shifted) / 146097),
    ensures
        146097 * era <= shifted < 146097 * era + 146097,
{
    if shifted < 0 {
        let p = (146096 - shifted) / 146097;
        assert(146097 * p <= 146096 - shifted < 146097 * p + 146097);
    }
}

/// The year after `y`, the `yoe`th of its era.
proof fn lemma_next_year(era: int, yoe: int)
    requires
        0 <= yoe <= 399,
    ensures
        ({
            let y = 400 * era + yoe;
            &&& is_leap(y + 1) == is_leap(yoe + 1)
            &&& year_start(y + 1) == year_start(y) + 365 + if is_leap(y) {
                1int
            } else {
                0int
            }
        }),
{
    let y = 400 * era + yoe;
    lemma_leap_step(y);
    if yoe < 399 {
        lemma_mod_parts(era, yoe + 1);
    } else {
        lemma_mod_parts(era + 1, 0);
        assert(y + 1 == 400 * (era + 1) + 0);
    }
}

/// The months before March have as many days as those from March on leave of the year.
proof fn lemma_months(y: int, mp: int)
    requires
        0 <= mp <= 11,
    ensures
        mp < 10 ==> days_before_month(y, mp + 3) == days_before_month(y, 3) + march_offset(mp),
        mp >= 10 ==> march_offset(mp) == 306 + days_before_month(y + 1, mp - 9),
        mp < 10 ==> days_in_month(y, mp + 3) == if mp == 1 || mp == 3 || mp == 6 || mp == 8 {
            30int
        } else {
            31int
        },
        mp == 10 ==> days_in_month(y + 1, 1) == 31,
        mp == 11 ==> days_in_month(y + 1, 2) == if is_leap(y + 1) {
            29int
        } else {
            28int
        },
{
}

/// The date of a day of the year that starts in March of the `yoe`th year of an era.
proof fn lemma_date_of_march_year(era: int, yoe: int, doy: int, mp: int, d: int)
    requires
        0 <= yoe <= 399,
        0 <= doy <= 365,
        doy == 365 ==> is_leap(yoe + 1),
        mp == (5 * doy + 2) / 153,
        d == doy - (153 * mp + 2) / 5 + 1,
    ensures
        ({
            let y = 400 * era + yoe;
            let (year, m) = if mp < 10 {
                (y, mp + 3)
            } else {
                (y + 1, mp - 9)
            };
            &&& is_date(year, m, d)
            &&& day_number(year, m, d) == 146097 * era + 365 * yoe + yoe / 4 - yoe / 100 + doy
                - 719468
        }),
{
    let y = 400 * era + yoe;
    lemma_day_of_march_year(doy);
    lemma_march_start(era, yoe);
    lemma_next_year(era, yoe);
    lemma_months(y, mp);
}

/// The date of a day, counted from 1970-01-01.
pub fn civil_from_days(z: i64) -> (date: (i64, u32, u32))
    requires
        z + 719468 <= i64::MAX,
    ensures
        is_date(date.0 as int, date.1 as int, date.2 as int),
        day_number(date.0 as int, date.1 as int, date.2 as int) == z,
{
    let shifted: i64 = z + 719468;
    let era: i64 = if shifted >= 0 {
        shifted / 146097
    } else {
        -((146096 - shifted) / 146097)
    };
    proof {
        lemma_era(shifted as int, era as int);
    }
    let doe: i64 = shifted - era * 146097;
    let yoe: i64 = (doe - doe / 1460 + doe / 36524 - doe / 146096) / 365;
    proof {
        lemma_day_of_era(doe as int);
    }
    let y: i64 = yoe + era * 400;
    let doy: i64 = doe - (365 * yoe + yoe / 4 - yoe / 100);
    proof {
        lemma_day_of_march_year(doy as int);
    }
    let mp: i64 = (5 * doy + 2) / 153;
    let d: i64 = doy - (153 * mp + 2) / 5 + 1;
    let m: i64 = if mp < 10 {
        mp + 3
    } else {
        mp - 9
    };
    let year: i64 = if m <= 2 {
        y + 1
    } else {
        y
    };
    proof {
        lemma_date_of_march_year(era as int, yoe as int, doy as int, mp as int, d as int);
    }
    (year, m as u32, d as u32)
}

/// `text` filled with zeros in front to `width` characters.
pub open spec fn zero_padded(text: Seq<char>, width: nat) -> Seq<char> {
    if text.len() >= width {
        text
    } else {
        Seq::new((width - text.len()) as nat, |i: int| '0') + text
    }
}

/// Appends `n`, filled with zeros to `width` digits.
pub fn push_padded(s: &mut String, n: u64, width: usize)
    ensures
        final(s)@ == old(s)@ + zero_padded(dec(n as nat), width as nat),
{
    let digits = dec_text(n);
    let len: usize = digits.as_str().unicode_len();
    let ghost before = s@;
    let ghost zeros = Seq::<char>::empty();
    let mut fill: usize = len;
    assert(s@ =~= before + zeros);
    while fill < width
        invariant
            len <= fill,
            fill <= width || fill == len,
            s@ == before + zeros,
            zeros == Seq::new((fill - len) as nat, |i: int| '0'),
        decreases width - fill,
    {
        s.push('0');
        proof {
            zeros = zeros.push('0');
            assert(zeros =~= Seq::new((fill + 1 - len) as nat, |i: int| '0'));
            assert(s@ =~= before + zeros);
        }
        fill = fill + 1;
    }
    s.append(digits.as_str());
    assert(s@ =~= before + zero_padded(dec(n as nat), width as nat));
}

/// A date as `YYYY-MM-DD`.
pub open spec fn date_text(y: nat, m: nat, d: nat) -> Seq<char> {
    zero_padded(dec(y), 4) + "-"@ + zero_padded(dec(m), 2) + "-"@ + zero_padded(dec(d), 2)
}

/// The date of a time in seconds since 1970, as `YYYY-MM-DD`.
pub fn date_string(unix_secs: u64) -> (text: String)
    ensures
        exists|y: int, m: int, d: int|
            y >= 0 && #[trigger] is_date(y, m, d) && day_number(y, m, d) == unix_secs / 86400
                && text@ == date_text(y as nat, m as nat, d as nat),
{
    let days: i64 = (unix_secs / 86400) as i64;
    let (y, m, d) = civil_from_days(days);
    proof {
        if y < 1970 {
            lemma_year_starts_grow(y as int, 1970);
            assert(year_start(1970) == 0);
        }
    }
    let mut s: String = String::new();
    push_padded(&mut s, y as u64, 4);
    assert(s@ =~= zero_padded(dec(y as nat), 4));
    s.append("-");
    push_padded(&mut s, m as u64, 2);
    s.append("-");
    push_padded(&mut s, d as u64, 2);
    proof {
        assert(is_date(y as int, m as int, d as int));
        assert(s@ == date_text(y as nat, m as nat, d as nat));
    }
    s
}

/// Days follow each other: 1970-01-01 is day 0, and the day after a date has the next number,
/// be it in the same month, the next month or the next year. April, June, September and
/// November have 30 days, February 28, or 29 in every fourth year but for three in four
/// hundred, and the others 31.
pub proof fn law_days_follow_each_other(y: int, m: int, d: int)
    requires
        is_date(y, m, d),
    ensures
        day_number(1970, 1, 1) == 0,
        is_date(y, m, d + 1) ==> day_number(y, m, d + 1) == day_number(y, m, d) + 1,
        !is_date(y, m, d + 1) && m < 12 ==> day_number(y, m + 1, 1) == day_number(y, m, d) + 1,
        !is_date(y, m, d + 1) && m == 12 ==> day_number(y + 1, 1, 1) == day_number(y, m, d) + 1,
        m == 4 || m == 6 || m == 9 || m == 11 ==> days_in_month(y, m) == 30,
        m == 2 ==> days_in_month(y, m) == if y % 400 == 0 || y % 4 == 0 && y % 100 != 0 {
            29int
        } else {
            28int
        },
        m != 2 && m != 4 && m != 6 && m != 9 && m != 11 ==> days_in_month(y, m) == 31,
{
    lemma_leap_step(y);
}

} // verus!
