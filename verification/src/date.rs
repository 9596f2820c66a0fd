//! Calendar days, without a date dependency: a build can pin "today" and stay
//! reproducible.

use crate::order::{text_before, text_standing};
use crate::text::{decimal, digit, digit_value, push_zero_filled, zero_filled};
use vstd::prelude::*;

verus! {

/// Whether `y` is a leap year of the Gregorian calendar.
pub open spec fn is_leap(y: int) -> bool {
    y % 4 == 0 && (y % 100 != 0 || y % 400 == 0)
}

/// The number of days of month `m` of year `y`.
pub open spec fn days_in_month(y: int, m: int) -> int {
    if m == 2 {
        if is_leap(y) {
            29
        } else {
            28
        }
    } else if m == 4 || m == 6 || m == 9 || m == 11 {
        30
    } else {
        31
    }
}

/// The number of days of year `y` before its month `m`.
pub open spec fn days_before_month(y: int, m: int) -> int
    decreases m,
{
    if m <= 1 {
        0
    } else {
        days_before_month(y, m - 1) + days_in_month(y, m - 1)
    }
}

/// The number of days from the first day of year 0 to the first day of year
/// `y`: 365 for each year, and one more for each leap year among them.
pub open spec fn days_before_year(y: int) -> int {
    365 * y + (y + 3) / 4 - (y + 99) / 100 + (y + 399) / 400
}

/// Whether `y`-`m`-`d` is a day of the calendar.
pub open spec fn is_date(y: int, m: int, d: int) -> bool {
    1 <= m <= 12 && 1 <= d <= days_in_month(y, m)
}

/// The number of days from 1970-01-01 to `y`-`m`-`d`.
pub open spec fn day_number(y: int, m: int, d: int) -> int {
    days_before_year(y) + days_before_month(y, m) + (d - 1) - 719_528
}

/// A date as `YYYY-MM-DD`.
pub open spec fn date_text(y: int, m: int, d: int) -> Seq<char> {
    zero_filled(y, 4) + seq!['-'] + zero_filled(m, 2) + seq!['-'] + zero_filled(d, 2)
}

/// Whether `text` writes the day that lies `days` days after 1970-01-01.
pub open spec fn is_text_of_day(text: Seq<char>, days: int) -> bool {
    &&& exists|y: int, m: int, d: int|
        is_date(y, m, d) && #[trigger] day_number(y, m, d) == days && text == date_text(y, m, d)
    &&& forall|y: int, m: int, d: int|
        is_date(y, m, d) && #[trigger] day_number(y, m, d) == days ==> text == date_text(y, m, d)
}

/// A year is as many days long as its months.
pub proof fn law_years_follow_each_other(y: int)
    ensures
        days_before_year(y + 1) == days_before_year(y) + days_before_month(y, 13),
        days_before_year(0) == 0,
{
    reveal_with_fuel(days_before_month, 14);
}

proof fn lemma_months(y: int)
    ensures
        days_before_month(y, 1) == 0,
        days_before_month(y, 2) == 31,
        days_before_month(y, 3) == 31 + days_in_month(y, 2),
        days_before_month(y, 4) == days_before_month(y, 3) + 31,
        days_before_month(y, 5) == days_before_month(y, 3) + 61,
        days_before_month(y, 6) == days_before_month(y, 3) + 92,
        days_before_month(y, 7) == days_before_month(y, 3) + 122,
        days_before_month(y, 8) == days_before_month(y, 3) + 153,
        days_before_month(y, 9) == days_before_month(y, 3) + 184,
        days_before_month(y, 10) == days_before_month(y, 3) + 214,
        days_before_month(y, 11) == days_before_month(y, 3) + 245,
        days_before_month(y, 12) == days_before_month(y, 3) + 275,
        days_before_month(y, 13) == days_before_month(y, 3) + 306,
{
    reveal_with_fuel(days_before_month, 14);
}

/// A later date has a larger day number, so two dates never share one.
pub proof fn law_day_numbers_rise(y1: int, m1: int, d1: int, y2: int, m2: int, d2: int)
    requires
        is_date(y1, m1, d1),
        is_date(y2, m2, d2),
        y1 < y2 || (y1 == y2 && (m1 < m2 || (m1 == m2 && d1 < d2))),
    ensures
        day_number(y1, m1, d1) < day_number(y2, m2, d2),
{
    lemma_months(y1);
    lemma_months(y2);
    if y1 < y2 {
        law_years_follow_each_other(y1);
        assert(days_before_year(y1 + 1) <= days_before_year(y2));
    }
}

/// The day that lies `days` days after 1970-01-01, as `YYYY-MM-DD`.
pub fn civil_from_days(days: i64) -> (out: String)
    requires
        days <= i64::MAX - 719_468,
    ensures
        is_text_of_day(out@, days as int),
{
    // Years that begin in March put the leap day last, and 400 of them are an
    // era of always the same length.
    let z: i64 = days + 719_468;
    let era: i64 = (if z >= 0 { z } else { z - 146_096 }) / 146_097;
    assert(era == (z as int) / 146_097);
    let doe: i64 = z - era * 146_097;
    let yoe: i64 = (doe - doe / 1460 + doe / 36_524 - doe / 146_096) / 365;
    proof {
        lemma_year_of_era(doe as int, yoe as int);
    }
    let doy: i64 = doe - (365 * yoe + yoe / 4 - yoe / 100);
    let mp: i64 = (5 * doy + 2) / 153;
    let d: i64 = doy - (153 * mp + 2) / 5 + 1;
    let m: i64 = if mp < 10 { mp + 3 } else { mp - 9 };
    let march_year: i64 = yoe + era * 400;
    let y: i64 = if m <= 2 { march_year + 1 } else { march_year };
    proof {
        lemma_day_of_march_year(era as int, doe as int, yoe as int, doy as int, mp as int, d as int);
        assert forall|y2: int, m2: int, d2: int|
            is_date(y2, m2, d2) && #[trigger] day_number(y2, m2, d2) == days implies (y2, m2, d2) == (
            y as int,
            m as int,
            d as int,
        ) by {
            if y2 < y || (y2 == y && (m2 < m || (m2 == m && d2 < d))) {
                law_day_numbers_rise(y2, m2, d2, y as int, m as int, d as int);
            } else if (y2, m2, d2) != (y as int, m as int, d as int) {
                law_day_numbers_rise(y as int, m as int, d as int, y2, m2, d2);
            }
        }
    }
    let mut out = String::new();
    push_zero_filled(&mut out, y, 4);
    out.push('-');
    push_zero_filled(&mut out, m, 2);
    out.push('-');
    push_zero_filled(&mut out, d, 2);
    proof {
        assert(out@ =~= date_text(y as int, m as int, d as int));
    }
    out
}

/// The day on which the second `secs` after the start of 1970 falls, as
/// `YYYY-MM-DD`.
pub fn utc_date(secs: u64) -> (out: String)
    ensures
        is_text_of_day(out@, (secs / 86_400) as int),
{
    civil_from_days((secs / 86_400) as i64)
}

#[verifier::external_type_specification]
#[verifier::external_body]
pub struct ExSystemTime(std::time::SystemTime);

/// `std::time::SystemTime::now`: what the clock shows. Nothing is claimed of it.
#[verifier::external_body]
fn read_clock() -> (now: std::time::SystemTime)
{
    std::time::SystemTime::now()
}

/// `std::time::SystemTime::duration_since` the start of 1970: the time between, or
/// none where the clock stands before it. Nothing is claimed of its length, which
/// the clock decides.
#[verifier::external_body]
fn since_epoch(now: std::time::SystemTime) -> (passed: Option<std::time::Duration>)
{
    now.duration_since(std::time::UNIX_EPOCH).ok()
}

/// `std::time::Duration::as_secs`: the whole seconds of a time between. Nothing is
/// claimed of their number, which the clock decides.
#[verifier::external_body]
fn whole_seconds(passed: std::time::Duration) -> (secs: u64)
{
    passed.as_secs()
}

/// The day that the clock shows, as `YYYY-MM-DD`, from the seconds since the start
/// of 1970; the first day of 1970 where it stands before it.
pub fn date_of_clock(secs: Option<u64>) -> (out: String)
    ensures
        is_text_of_day(
            out@,
            (match secs {
                Some(s) => (s / 86_400) as int,
                None => 0,
            }),
        ),
{
    match secs {
        Some(s) => utc_date(s),
        None => utc_date(0),
    }
}

/// Today in UTC, as `YYYY-MM-DD`: the day of whatever second the clock shows.
pub fn today_utc() -> (out: String)
    ensures
        exists|secs: u64| is_text_of_day(out@, (#[trigger] (secs / 86_400)) as int),
{
    let secs: Option<u64> = match since_epoch(read_clock()) {
        Some(passed) => Some(whole_seconds(passed)),
        None => None,
    };
    let out = date_of_clock(secs);
    proof {
        let shown: u64 = match secs {
            Some(s) => s,
            None => 0,
        };
        assert(is_text_of_day(out@, (shown / 86_400) as int));
    }
    out
}

/// The year of the era is the one whose days hold the day of the era.
proof fn lemma_year_of_era(doe: int, yoe: int)
    requires
        0 <= doe < 146_097,
        yoe == (doe - doe / 1460 + doe / 36_524 - doe / 146_096) / 365,
    ensures
        0 <= yoe < 400,
        365 * yoe + yoe / 4 - yoe / 100 <= doe,
        yoe < 399 ==> doe < 365 * (yoe + 1) + (yoe + 1) / 4 - (yoe + 1) / 100,
{
}

/// Division that rounds up is one more than division that rounds down, where
/// there is a remainder.
proof fn lemma_div_up(y: int, k: int)
    requires
        k > 0,
    ensures
        (y + (k - 1)) / k == y / k + (if y % k == 0 { 0int } else { 1int }),
{
    let q = y / k;
    let r = y % k;
    assert(y == q * k + r) by (nonlinear_arith)
        requires
            q == y / k,
            r == y % k,
            k > 0,
    ;
    assert((q + 1) * k == q * k + k) by (nonlinear_arith);
    if r == 0 {
        vstd::arithmetic::div_mod::lemma_fundamental_div_mod_converse(y + (k - 1), k, q, k - 1);
    } else {
        vstd::arithmetic::div_mod::lemma_fundamental_div_mod_converse(y + (k - 1), k, q + 1, r - 1);
    }
}

/// The leap years before a year, and the year itself.
proof fn lemma_leap_count(y: int)
    ensures
        days_before_year(y) + days_in_month(y, 2) == 365 * y + y / 4 - y / 100 + y / 400 + 29,
{
    lemma_div_up(y, 4);
    lemma_div_up(y, 100);
    lemma_div_up(y, 400);
    assert(y % 400 == 0 ==> y % 100 == 0) by {
        if y % 400 == 0 {
            vstd::arithmetic::div_mod::lemma_fundamental_div_mod_converse(y, 100, 4 * (y / 400), 0);
        }
    }
    assert(y % 100 == 0 ==> y % 4 == 0) by {
        if y % 100 == 0 {
            vstd::arithmetic::div_mod::lemma_fundamental_div_mod_converse(y, 4, 25 * (y / 100), 0);
        }
    }
}

/// The first of March of a year, counted from the first day of year 0.
proof fn lemma_first_of_march(era: int, yoe: int)
    requires
        0 <= yoe < 400,
    ensures
        days_before_year(yoe + era * 400) + days_before_month(yoe + era * 400, 3) == 60 + 146_097 * era + 365
            * yoe + yoe / 4 - yoe / 100,
{
    let y = yoe + era * 400;
    lemma_months(y);
    lemma_leap_count(y);
    assert(y / 4 == yoe / 4 + 100 * era);
    assert(y / 100 == yoe / 100 + 4 * era);
    assert(y / 400 == era);
}

/// The month, counted from March, and the day of the month of a day of the year.
proof fn lemma_month_of_day(doy: int, mp: int, d: int)
    requires
        0 <= doy <= 365,
        mp == (5 * doy + 2) / 153,
        d == doy - (153 * mp + 2) / 5 + 1,
    ensures
        0 <= mp <= 11,
        mp == 0 ==> d == doy + 1 && 1 <= d <= 31,
        mp == 1 ==> d == doy - 30 && 1 <= d <= 30,
        mp == 2 ==> d == doy - 60 && 1 <= d <= 31,
        mp == 3 ==> d == doy - 91 && 1 <= d <= 30,
        mp == 4 ==> d == doy - 121 && 1 <= d <= 31,
        mp == 5 ==> d == doy - 152 && 1 <= d <= 31,
        mp == 6 ==> d == doy - 183 && 1 <= d <= 30,
        mp == 7 ==> d == doy - 213 && 1 <= d <= 31,
        mp == 8 ==> d == doy - 244 && 1 <= d <= 30,
        mp == 9 ==> d == doy - 274 && 1 <= d <= 31,
        mp == 10 ==> d == doy - 305 && 1 <= d <= 31,
        mp == 11 ==> d == doy - 336 && 1 <= d <= 29,
{
}

/// The day after the last of February is a leap day only in a leap year.
proof fn lemma_last_day_of_march_year(era: int, doe: int, yoe: int)
    requires
        0 <= doe < 146_097,
        0 <= yoe < 400,
        365 * yoe + yoe / 4 - yoe / 100 <= doe,
        yoe < 399 ==> doe < 365 * (yoe + 1) + (yoe + 1) / 4 - (yoe + 1) / 100,
    ensures
        doe - (365 * yoe + yoe / 4 - yoe / 100) <= 365,
        doe - (365 * yoe + yoe / 4 - yoe / 100) == 365 ==> is_leap(yoe + era * 400 + 1),
{
    let y = yoe + era * 400 + 1;
    if doe - (365 * yoe + yoe / 4 - yoe / 100) == 365 {
        if yoe < 399 {
            assert((yoe + 1) / 4 - (yoe + 1) / 100 == yoe / 4 - yoe / 100 + 1);
            assert((yoe + 1) % 4 == 0 && (yoe + 1) % 100 != 0);
            assert(y % 4 == 0);
            assert(y % 100 != 0);
        } else {
            assert(y == 400 * (era + 1));
            assert(y % 400 == 0);
            assert(y % 4 == 0);
        }
    }
}

/// The day of the year that begins in March is the day of the calendar that
/// its month and day say.
proof fn lemma_day_of_march_year(era: int, doe: int, yoe: int, doy: int, mp: int, d: int)
    requires
        0 <= doe < 146_097,
        0 <= yoe < 400,
        365 * yoe + yoe / 4 - yoe / 100 <= doe,
        yoe < 399 ==> doe < 365 * (yoe + 1) + (yoe + 1) / 4 - (yoe + 1) / 100,
        doy == doe - (365 * yoe + yoe / 4 - yoe / 100),
        mp == (5 * doy + 2) / 153,
        d == doy - (153 * mp + 2) / 5 + 1,
    ensures
        ({
            let m = if mp < 10 { mp + 3 } else { mp - 9 };
            let y = if m <= 2 { yoe + era * 400 + 1 } else { yoe + era * 400 };
            &&& is_date(y, m, d)
            &&& day_number(y, m, d) == era * 146_097 + doe - 719_468
        }),
{
    let march_year = yoe + era * 400;
    lemma_first_of_march(era, yoe);
    lemma_months(march_year);
    lemma_months(march_year + 1);
    law_years_follow_each_other(march_year);
    lemma_last_day_of_march_year(era, doe, yoe);
    lemma_month_of_day(doy, mp, d);
    let m = if mp < 10 { mp + 3 } else { mp - 9 };
    if mp < 10 {
        assert(is_date(march_year, m, d));
        assert(days_before_month(march_year, m) + d - 1 == days_before_month(march_year, 3) + doy);
    } else {
        assert(is_date(march_year + 1, m, d));
        assert(days_before_month(march_year + 1, m) + d - 1 + 306 == doy);
    }
}

proof fn lemma_standing_of_parts(a1: Seq<char>, b1: Seq<char>, a2: Seq<char>, b2: Seq<char>)
    requires
        a1.len() == a2.len(),
    ensures
        a1 == a2 ==> text_standing(a1 + b1, a2 + b2) == text_standing(b1, b2),
        a1 != a2 ==> text_standing(a1 + b1, a2 + b2) == text_standing(a1, a2),
    decreases a1.len(),
{
    if a1.len() == 0 {
        assert(a1 =~= a2);
        assert(a1 + b1 =~= b1);
        assert(a2 + b2 =~= b2);
    } else {
        assert((a1 + b1).drop_first() =~= a1.drop_first() + b1);
        assert((a2 + b2).drop_first() =~= a2.drop_first() + b2);
        lemma_standing_of_parts(a1.drop_first(), b1, a2.drop_first(), b2);
        if a1[0] == a2[0] && a1.drop_first() == a2.drop_first() {
            assert(a1 =~= seq![a1[0]] + a1.drop_first());
            assert(a2 =~= seq![a2[0]] + a2.drop_first());
        }
    }
}

proof fn lemma_two_digits(n: int)
    requires
        0 <= n <= 99,
    ensures
        zero_filled(n, 2) == seq![digit(n / 10), digit(n % 10)],
{
    reveal_with_fuel(decimal, 3);
    assert(zero_filled(n, 2) =~= seq![digit(n / 10), digit(n % 10)]);
}

proof fn lemma_four_digits(n: int)
    requires
        0 <= n <= 9999,
    ensures
        zero_filled(n, 4) == zero_filled(n / 100, 2) + zero_filled(n % 100, 2),
{
    reveal_with_fuel(decimal, 5);
    lemma_two_digits(n / 100);
    lemma_two_digits(n % 100);
    assert(n / 10 / 10 == n / 100);
    assert(n / 100 / 10 == n / 1000);
    assert(n / 10 % 10 == n % 100 / 10);
    assert(n % 100 % 10 == n % 10);
    assert(zero_filled(n, 4) =~= seq![digit(n / 1000), digit(n / 100 % 10), digit(n / 10 % 10), digit(n % 10)]);
    assert(zero_filled(n, 4) =~= zero_filled(n / 100, 2) + zero_filled(n % 100, 2));
}

proof fn lemma_two_digits_standing(a: int, b: int)
    requires
        0 <= a <= 99,
        0 <= b <= 99,
    ensures
        text_before(zero_filled(a, 2), zero_filled(b, 2)) <==> a < b,
        zero_filled(a, 2) == zero_filled(b, 2) <==> a == b,
        zero_filled(a, 2).len() == 2,
{
    lemma_two_digits(a);
    lemma_two_digits(b);
    let x = zero_filled(a, 2);
    let y = zero_filled(b, 2);
    reveal_with_fuel(text_standing, 3);
    assert(x.drop_first() =~= seq![digit(a % 10)]);
    assert(y.drop_first() =~= seq![digit(b % 10)]);
    if x == y {
        assert(x[0] == y[0] && x[1] == y[1]);
    }
}

proof fn lemma_four_digits_standing(a: int, b: int)
    requires
        0 <= a <= 9999,
        0 <= b <= 9999,
    ensures
        text_before(zero_filled(a, 4), zero_filled(b, 4)) <==> a < b,
        zero_filled(a, 4) == zero_filled(b, 4) <==> a == b,
        zero_filled(a, 4).len() == 4,
{
    lemma_four_digits(a);
    lemma_four_digits(b);
    lemma_two_digits_standing(a / 100, b / 100);
    lemma_two_digits_standing(a % 100, b % 100);
    lemma_two_digits_standing(b / 100, a / 100);
    lemma_two_digits_standing(b % 100, a % 100);
    let (a1, b1) = (zero_filled(a / 100, 2), zero_filled(a % 100, 2));
    let (a2, b2) = (zero_filled(b / 100, 2), zero_filled(b % 100, 2));
    lemma_standing_of_parts(a1, b1, a2, b2);
    if a1 + b1 == a2 + b2 {
        assert((a1 + b1).take(2) =~= a1);
        assert((a2 + b2).take(2) =~= a2);
        assert((a1 + b1).skip(2) =~= b1);
        assert((a2 + b2).skip(2) =~= b2);
    }
}

/// Dates written as `YYYY-MM-DD` are in the order of their texts: of two days
/// of the years 0 to 9999, the one whose text comes first is the earlier one.
pub proof fn law_dates_order_as_texts(y1: int, m1: int, d1: int, y2: int, m2: int, d2: int)
    requires
        is_date(y1, m1, d1),
        is_date(y2, m2, d2),
        0 <= y1 <= 9999,
        0 <= y2 <= 9999,
    ensures
        text_before(date_text(y1, m1, d1), date_text(y2, m2, d2)) <==> day_number(y1, m1, d1)
            < day_number(y2, m2, d2),
{
    lemma_four_digits_standing(y1, y2);
    lemma_four_digits_standing(y2, y1);
    lemma_two_digits_standing(m1, m2);
    lemma_two_digits_standing(m2, m1);
    lemma_two_digits_standing(d1, d2);
    lemma_two_digits_standing(d2, d1);
    let dash = seq!['-'];
    let (a1, b1, c1) = (zero_filled(y1, 4), zero_filled(m1, 2), zero_filled(d1, 2));
    let (a2, b2, c2) = (zero_filled(y2, 4), zero_filled(m2, 2), zero_filled(d2, 2));
    let (t1, t2) = (dash + (b1 + (dash + c1)), dash + (b2 + (dash + c2)));
    assert(date_text(y1, m1, d1) =~= a1 + t1);
    assert(date_text(y2, m2, d2) =~= a2 + t2);
    lemma_standing_of_parts(a1, t1, a2, t2);
    lemma_standing_of_parts(dash, b1 + (dash + c1), dash, b2 + (dash + c2));
    lemma_standing_of_parts(b1, dash + c1, b2, dash + c2);
    lemma_standing_of_parts(dash, c1, dash, c2);
    if y1 < y2 || (y1 == y2 && (m1 < m2 || (m1 == m2 && d1 < d2))) {
        law_day_numbers_rise(y1, m1, d1, y2, m2, d2);
    } else if (y1, m1, d1) != (y2, m2, d2) {
        law_day_numbers_rise(y2, m2, d2, y1, m1, d1);
    }
}

/// The months are as long as they are: thirty days have April, June, September
/// and November, February has 28 or, in a leap year, 29, and all others have 31.
/// Every fourth year is a leap year, but of the full centuries only every fourth.
pub proof fn law_calendar(y: int, c: int)
    ensures
        days_in_month(y, 1) == 31 && days_in_month(y, 3) == 31 && days_in_month(y, 5) == 31 && days_in_month(y, 7)
            == 31,
        days_in_month(y, 8) == 31 && days_in_month(y, 10) == 31 && days_in_month(y, 12) == 31,
        days_in_month(y, 4) == 30 && days_in_month(y, 6) == 30 && days_in_month(y, 9) == 30 && days_in_month(y, 11)
            == 30,
        days_in_month(y, 2) == if is_leap(y) {
            29int
        } else {
            28int
        },
        y % 4 != 0 ==> !is_leap(y),
        y % 4 == 0 && y % 100 != 0 ==> is_leap(y),
        is_leap(100 * c) <==> c % 4 == 0,
{
    assert((100 * c) % 4 == 0);
    assert((100 * c) % 100 == 0);
    assert((100 * c) % 400 == 0 <==> c % 4 == 0);
}

/// Day numbers count days: the first of January 1970 is day 0, and each day has
/// the number after that of the day before, over the ends of months and years.
pub proof fn law_days_follow_each_other(y: int, m: int, d: int)
    requires
        is_date(y, m, d),
    ensures
        day_number(1970, 1, 1) == 0,
        d < days_in_month(y, m) ==> day_number(y, m, d + 1) == day_number(y, m, d) + 1,
        d == days_in_month(y, m) && m < 12 ==> day_number(y, m + 1, 1) == day_number(y, m, d) + 1,
        d == days_in_month(y, m) && m == 12 ==> day_number(y + 1, 1, 1) == day_number(y, m, d) + 1,
{
    lemma_months(1970);
    lemma_months(y);
    lemma_months(y + 1);
    law_years_follow_each_other(y);
}

/// A date of the years 0 to 9999 is written with its four, two and two digits,
/// year, month and day, with hyphens between them.
pub proof fn law_date_text_reads_back(y: int, m: int, d: int)
    requires
        0 <= y <= 9999,
        is_date(y, m, d),
    ensures
        ({
            let t = date_text(y, m, d);
            &&& t.len() == 10
            &&& t[4] == '-' && t[7] == '-'
            &&& 1000 * digit_value(t[0]) + 100 * digit_value(t[1]) + 10 * digit_value(t[2]) + digit_value(t[3]) == y
            &&& 10 * digit_value(t[5]) + digit_value(t[6]) == m
            &&& 10 * digit_value(t[8]) + digit_value(t[9]) == d
            &&& forall|i: int| 0 <= i < 10 && i != 4 && i != 7 ==> '0' <= #[trigger] t[i] <= '9'
        }),
{
    lemma_four_digits(y);
    lemma_two_digits(y / 100);
    lemma_two_digits(y % 100);
    lemma_two_digits(m);
    lemma_two_digits(d);
    let t = date_text(y, m, d);
    assert(t =~= seq![
        digit(y / 100 / 10),
        digit(y / 100 % 10),
        digit(y % 100 / 10),
        digit(y % 100 % 10),
        '-',
        digit(m / 10),
        digit(m % 10),
        '-',
        digit(d / 10),
        digit(d % 10),
    ]);
}

/// The text of a day writes the date with that number, and the days of the years
/// 0 to 9999 are all written differently.
pub proof fn law_day_has_its_own_text(
    text: Seq<char>,
    other: Seq<char>,
    y1: int,
    m1: int,
    d1: int,
    y2: int,
    m2: int,
    d2: int,
)
    requires
        is_date(y1, m1, d1),
        is_date(y2, m2, d2),
        0 <= y1 <= 9999,
        0 <= y2 <= 9999,
        is_text_of_day(text, day_number(y1, m1, d1)),
        is_text_of_day(other, day_number(y2, m2, d2)),
    ensures
        text == date_text(y1, m1, d1),
        text == other <==> y1 == y2 && m1 == m2 && d1 == d2,
{
    law_date_text_reads_back(y1, m1, d1);
    law_date_text_reads_back(y2, m2, d2);
    assert(other == date_text(y2, m2, d2));
}

/// The text of a day, in whatever year, is that of the date with that number: the
/// year, filled to four digits and never cut, and then month and day.
pub proof fn law_text_of_a_day_is_its_date(text: Seq<char>, y: int, m: int, d: int)
    requires
        is_date(y, m, d),
        is_text_of_day(text, day_number(y, m, d)),
    ensures
        text == date_text(y, m, d),
        text == zero_filled(y, 4) + date_text(4, m, d).skip(4),
{
    lemma_four_digits_standing(4, 4);
    assert(date_text(4, m, d).skip(4) =~= seq!['-'] + zero_filled(m, 2) + seq!['-'] + zero_filled(d, 2));
    assert(date_text(y, m, d) =~= zero_filled(y, 4) + date_text(4, m, d).skip(4));
}

} // verus!
