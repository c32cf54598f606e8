//! Dates and times of day as ISO 8601 text.
use vstd::prelude::*;

use crate::number::{all_digits, decimal, decimal_reads_back, digits_value, show};
use crate::text::{cat2, cat4, cat5, is_digit, push_text, strip_trailing, without_trailing};

verus! {

/// The unit in which a time is counted.
#[derive(Debug, Clone, Copy, PartialEq, Eq, Structural)]
pub enum TimeUnit {
    Second,
    Millisecond,
    Microsecond,
    Nanosecond,
}

// ─── the calendar ───────────────────────────────────────────────────────────
/// The year has a 29th of February.
pub open spec fn is_leap(y: int) -> bool {
    y % 4 == 0 && (y % 100 != 0 || y % 400 == 0)
}

/// The number of days of a month.
pub open spec fn month_length(y: int, m: int) -> int {
    if m == 2 {
        if is_leap(y) {
            29
        } else {
            28
        }
    } else if m == 4 || m == 6 || m == 9 || m == 11 {
        30
    } else {
        31
    }
}

/// The days of the year before the first of a month.
pub open spec fn days_before_month(y: int, m: int) -> int
    decreases m,
{
    if m <= 1 {
        0
    } else {
        days_before_month(y, m - 1) + month_length(y, m - 1)
    }
}

/// The days from the first of January of year 0 to the first of January of `y`:
/// 365 a year, and one more for each leap year between.
pub open spec fn days_before_year(y: int) -> int {
    365 * y + (y + 3) / 4 - (y + 99) / 100 + (y + 399) / 400
}

/// The days from 1970-01-01 to the given date of the Gregorian calendar.
pub open spec fn day_number(y: int, m: int, d: int) -> int {
    days_before_year(y) - days_before_year(1970) + days_before_month(y, m) + d - 1
}

/// There is such a date.
pub open spec fn is_date(y: int, m: int, d: int) -> bool {
    1 <= m <= 12 && 1 <= d <= month_length(y, m)
}

/// The date, as year, month and day, that lies so many days after 1970-01-01.
pub open spec fn date_of(days: int) -> (int, int, int) {
    choose|date: (int, int, int)|
        is_date(date.0, date.1, date.2) && #[trigger] day_number(date.0, date.1, date.2) == days
}

/// A year has 365 days, a leap year 366.
pub proof fn year_length(y: int)
    ensures
        days_before_year(y + 1) - days_before_year(y) == if is_leap(y) {
            366int
        } else {
            365
        },
        days_before_month(y, 13) == days_before_year(y + 1) - days_before_year(y),
{
    assert((y + 4) / 4 - (y + 3) / 4 == if y % 4 == 0 {
        1int
    } else {
        0
    });
    assert((y + 100) / 100 - (y + 99) / 100 == if y % 100 == 0 {
        1int
    } else {
        0
    });
    assert((y + 400) / 400 - (y + 399) / 400 == if y % 400 == 0 {
        1int
    } else {
        0
    });
    lemma_year_of_months(y);
}

proof fn lemma_year_of_months(y: int)
    ensures
        days_before_month(y, 13) == if is_leap(y) {
            366int
        } else {
            365
        },
{
    reveal_with_fuel(days_before_month, 14);
}

proof fn lemma_years_apart(a: int, b: int)
    requires
        a < b,
    ensures
        days_before_year(a) + days_before_month(a, 13) <= days_before_year(b),
    decreases b - a,
{
    year_length(a);
    if a + 1 < b {
        lemma_years_apart(a + 1, b);
        year_length(a + 1);
    }
}

proof fn lemma_months_apart(y: int, a: int, b: int)
    requires
        1 <= a < b <= 13,
    ensures
        days_before_month(y, a) + month_length(y, a) <= days_before_month(y, b),
        0 <= days_before_month(y, a),
    decreases b - a,
{
    reveal_with_fuel(days_before_month, 14);
    if a + 1 < b {
        lemma_months_apart(y, a + 1, b);
    }
}

/// Two dates with the same day number are the same date.
pub proof fn each_day_has_one_date(y1: int, m1: int, d1: int, y2: int, m2: int, d2: int)
    requires
        is_date(y1, m1, d1),
        is_date(y2, m2, d2),
        day_number(y1, m1, d1) == day_number(y2, m2, d2),
    ensures
        y1 == y2,
        m1 == m2,
        d1 == d2,
{
    lemma_months_apart(y1, m1, 13);
    lemma_months_apart(y2, m2, 13);
    if y1 < y2 {
        lemma_years_apart(y1, y2);
    } else if y2 < y1 {
        lemma_years_apart(y2, y1);
    } else if m1 < m2 {
        lemma_months_apart(y1, m1, m2);
    } else if m2 < m1 {
        lemma_months_apart(y1, m2, m1);
    }
}

// ─── padded numbers ─────────────────────────────────────────────────────────
/// `n` zeros.
pub open spec fn zeros(n: int) -> Seq<char> {
    Seq::new(
        if n < 0 {
            0
        } else {
            n as nat
        },
        |i: int| '0',
    )
}

/// `n` in at least `width` digits.
pub open spec fn padded(n: nat, width: int) -> Seq<char> {
    zeros(width - decimal(n).len()) + decimal(n)
}

/// `n` in at least `width` characters, the minus sign of a negative number included.
pub open spec fn padded_signed(n: int, width: int) -> Seq<char> {
    if n < 0 {
        "-"@ + padded((-n) as nat, width - 1)
    } else {
        padded(n as nat, width)
    }
}

/// Writes `n` in at least `width` digits.
pub fn pad(n: u64, width: usize) -> (r: String)
    ensures
        r@ == padded(n as nat, width as int),
{
    let digits = show(n as u128);
    let len: usize = crate::text::chars_of(digits.as_str()).len();
    let mut out = String::new();
    let mut i: usize = len;
    assert(out@ =~= zeros(0));
    while i < width
        invariant
            len <= i,
            i == len || i <= width,
            out@ == zeros(i - len),
        decreases width - i,
    {
        out.push('0');
        assert(out@ =~= zeros(i + 1 - len));
        i += 1;
    }
    assert(zeros(width - len) =~= out@);
    push_text(&mut out, digits.as_str());
    out
}

/// Writes `n` in at least `width` characters.
pub fn pad_signed(n: i64, width: usize) -> (r: String)
    requires
        width > 0,
    ensures
        r@ == padded_signed(n as int, width as int),
{
    if n < 0 {
        let magnitude: u64 = (-(n as i128)) as u64;
        cat2("-", pad(magnitude, width - 1).as_str())
    } else {
        pad(n as u64, width)
    }
}

// ─── division ───────────────────────────────────────────────────────────────
/// The quotient rounded down.
pub fn floor_div(a: i64, b: u64) -> (r: i64)
    requires
        0 < b <= 0x7fff_ffff_ffff_ffff,
    ensures
        r == a as int / b as int,
{
    if a >= 0 {
        let q: u64 = (a as u64) / b;
        assert(q <= a as u64) by (nonlinear_arith)
            requires
                q == (a as u64) as int / b as int,
                b > 0,
                a >= 0,
        ;
        q as i64
    } else {
        let p: u64 = (-(a as i128) - 1) as u64;
        let q: u64 = p / b;
        proof {
            let (x, y, z) = (a as int, b as int, q as int);
            assert(z * y <= -x - 1 < z * y + y) by (nonlinear_arith)
                requires
                    z == (-x - 1) / y,
                    y > 0,
            ;
            assert(x / y == -z - 1) by (nonlinear_arith)
                requires
                    z * y <= -x - 1 < z * y + y,
                    y > 0,
            ;
            assert(z <= -x - 1) by (nonlinear_arith)
                requires
                    z * y <= -x - 1,
                    y > 0,
                    z >= 0,
            ;
        }
        ((-(q as i128)) - 1) as i64
    }
}

/// The remainder of the quotient rounded down.
pub fn floor_mod(a: i64, b: u64) -> (r: i64)
    requires
        0 < b <= 0x7fff_ffff_ffff_ffff,
    ensures
        r == a as int % b as int,
        0 <= r < b,
{
    let q = floor_div(a, b);
    proof {
        let (x, y) = (a as int, b as int);
        assert(x == y * (x / y) + x % y && 0 <= x % y < y) by (nonlinear_arith)
            requires
                y > 0,
        ;
        assert(q * y == y * (x / y)) by (nonlinear_arith)
            requires
                q == x / y,
        ;
    }
    ((a as i128) - (q as i128) * (b as i128)) as i64
}

// ─── dates ──────────────────────────────────────────────────────────────────
/// A date as `YYYY-MM-DD`.
pub open spec fn iso_date(date: (int, int, int)) -> Seq<char> {
    padded_signed(date.0, 4) + "-"@ + padded_signed(date.1, 2) + "-"@ + padded_signed(date.2, 2)
}

/// The days from the first of March of year 0 to the first of March of `y`.
spec fn days_before_march(y: int) -> int {
    365 * y + y / 4 - y / 100 + y / 400
}

proof fn lemma_march(y: int)
    ensures
        days_before_year(y) + days_before_month(y, 3) == days_before_march(y) + 60,
        days_before_year(1970) == 719528,
{
    reveal_with_fuel(days_before_month, 4);
}

proof fn lemma_month_table(y: int, mp: int)
    requires
        0 <= mp <= 9,
    ensures
        days_before_month(y, mp + 3) == days_before_month(y, 3) + (153 * mp + 2) / 5,
        month_length(y, mp + 3) == (153 * (mp + 1) + 2) / 5 - (153 * mp + 2) / 5,
{
    reveal_with_fuel(days_before_month, 11);
    if mp == 0 {
    } else if mp == 1 {
    } else if mp == 2 {
    } else if mp == 3 {
    } else if mp == 4 {
    } else if mp == 5 {
    } else if mp == 6 {
    } else if mp == 7 {
    } else if mp == 8 {
    } else {
    }
}

/// The day `doy` of the year that starts in March of `y` is a date.
proof fn lemma_day_of_march_year(y: int, doy: int)
    requires
        0 <= doy <= 365,
        doy == 365 ==> is_leap(y + 1),
    ensures
        ({
            let mp = (5 * doy + 2) / 153;
            let d = doy - (153 * mp + 2) / 5 + 1;
            &&& 0 <= mp <= 11
            &&& if mp < 10 {
                is_date(y, mp + 3, d) && day_number(y, mp + 3, d) == days_before_march(y) + doy
                    - 719468
            } else {
                is_date(y + 1, mp - 9, d) && day_number(y + 1, mp - 9, d) == days_before_march(y)
                    + doy - 719468
            }
        }),
{
    let mp = (5 * doy + 2) / 153;
    lemma_march(y);
    year_length(y);
    reveal_with_fuel(days_before_month, 4);
    if mp < 10 {
        lemma_month_table(y, mp);
    } else if mp == 10 {
        assert(days_before_month(y + 1, 1) == 0);
    } else {
        assert(mp == 11);
        assert(days_before_month(y + 1, 2) == 31);
    }
}

/// The date that lies so many days after 1970-01-01.
pub fn civil_from_days(days: i32) -> (r: (i64, i64, i64))
    ensures
        is_date(r.0 as int, r.1 as int, r.2 as int),
        day_number(r.0 as int, r.1 as int, r.2 as int) == days,
        date_of(days as int) == (r.0 as int, r.1 as int, r.2 as int),
        -6_000_000 <= r.0 <= 6_000_000,
{
    // The days since the first of March of year 0, by cycles of 400, 100, 4 and 1 years.
    let z: i64 = days as i64 + 719_468;
    let era: i64 = floor_div(z, 146_097);
    let doe: u64 = floor_mod(z, 146_097) as u64;
    let century: u64 = if doe / 36_524 > 3 {
        3
    } else {
        doe / 36_524
    };
    let doc: u64 = doe - century * 36_524;
    let quad: u64 = doc / 1_461;
    let doq: u64 = doc % 1_461;
    let yoq: u64 = if doq / 365 > 3 {
        3
    } else {
        doq / 365
    };
    let doy: u64 = doq - yoq * 365;
    let yoe: u64 = century * 100 + quad * 4 + yoq;
    let y: i64 = era * 400 + yoe as i64;
    proof {
        assert(y / 4 == era * 100 + century * 25 + quad);
        assert(y / 100 == era * 4 + century);
        assert(y / 400 == era);
        assert(z == days_before_march(y as int) + doy);
        assert(doy <= 365);
        if doy == 365 {
            assert(yoq == 3);
            assert((y + 1) % 4 == 0);
            if quad == 24 {
                assert(century == 3);
            } else {
                assert((y + 1) % 100 != 0);
            }
        }
        lemma_day_of_march_year(y as int, doy as int);
    }
    let mp: u64 = (5 * doy + 2) / 153;
    let d: i64 = (doy - (153 * mp + 2) / 5 + 1) as i64;
    let (y, m): (i64, i64) = if mp < 10 {
        (y, mp as i64 + 3)
    } else {
        (y + 1, mp as i64 - 9)
    };
    proof {
        let date = date_of(days as int);
        assert(is_date(y as int, m as int, d as int) && day_number(y as int, m as int, d as int)
            == days);
        let found = (y as int, m as int, d as int);
        assert(is_date(found.0, found.1, found.2) && day_number(found.0, found.1, found.2)
            == days);
        each_day_has_one_date(date.0, date.1, date.2, y as int, m as int, d as int);
    }
    (y, m, d)
}

/// Writes the date that lies so many days after 1970-01-01.
pub fn date32_to_iso(days: i32) -> (r: String)
    ensures
        r@ == iso_date(date_of(days as int)),
{
    let (y, m, d) = civil_from_days(days);
    cat5(
        pad_signed(y, 4).as_str(),
        "-",
        pad_signed(m, 2).as_str(),
        "-",
        pad_signed(d, 2).as_str(),
    )
}

// ─── times ──────────────────────────────────────────────────────────────────
/// How many of a unit make a second.
pub open spec fn per_second(unit: TimeUnit) -> int {
    match unit {
        TimeUnit::Second => 1,
        TimeUnit::Millisecond => 1_000,
        TimeUnit::Microsecond => 1_000_000,
        TimeUnit::Nanosecond => 1_000_000_000,
    }
}

/// How many nanoseconds a unit has.
pub open spec fn nanos_each(unit: TimeUnit) -> int {
    match unit {
        TimeUnit::Second => 1_000_000_000,
        TimeUnit::Millisecond => 1_000_000,
        TimeUnit::Microsecond => 1_000,
        TimeUnit::Nanosecond => 1,
    }
}

/// The whole seconds of a time, rounded down, and the nanoseconds beyond them.
pub open spec fn seconds_and_nanos(unit: TimeUnit, value: int) -> (int, int) {
    (value / per_second(unit), (value % per_second(unit)) * nanos_each(unit))
}

/// Splits a time into whole seconds and nanoseconds.
pub fn split_unit(unit: TimeUnit, value: i64) -> (r: (i64, i64))
    ensures
        (r.0 as int, r.1 as int) == seconds_and_nanos(unit, value as int),
        0 <= r.1 < 1_000_000_000,
{
    match unit {
        TimeUnit::Second => (value, 0),
        TimeUnit::Millisecond => (floor_div(value, 1_000), floor_mod(value, 1_000) * 1_000_000),
        TimeUnit::Microsecond => (
            floor_div(value, 1_000_000),
            floor_mod(value, 1_000_000) * 1_000,
        ),
        TimeUnit::Nanosecond => (
            floor_div(value, 1_000_000_000),
            floor_mod(value, 1_000_000_000),
        ),
    }
}

/// The seconds and nanoseconds add up to the time.
pub proof fn split_loses_nothing(unit: TimeUnit, value: int)
    ensures
        ({
            let (secs, nanos) = seconds_and_nanos(unit, value);
            &&& 0 <= nanos < 1_000_000_000
            &&& secs * 1_000_000_000 + nanos == value * nanos_each(unit)
        }),
{
    let k = per_second(unit);
    let e = nanos_each(unit);
    assert(k * e == 1_000_000_000 && k > 0 && e > 0) by {
        match unit {
            TimeUnit::Second => {},
            TimeUnit::Millisecond => {},
            TimeUnit::Microsecond => {},
            TimeUnit::Nanosecond => {},
        }
    }
    let q = value / k;
    let r = value % k;
    assert(value == k * q + r && 0 <= r < k) by (nonlinear_arith)
        requires
            k > 0,
            q == value / k,
            r == value % k,
    ;
    assert(q * (k * e) + r * e == value * e) by (nonlinear_arith)
        requires
            value == k * q + r,
    ;
    assert(0 <= r * e < k * e) by (nonlinear_arith)
        requires
            0 <= r < k,
            e > 0,
    ;
    assert(q * (k * e) == q * 1_000_000_000);
}

/// The sub-second part: nothing, or a dot and the digits up to the last that is
/// not zero.
pub open spec fn fraction(nanos: int) -> Seq<char> {
    if nanos == 0 {
        Seq::empty()
    } else {
        "."@ + without_trailing(padded_signed(nanos, 9), '0')
    }
}

/// Writes the sub-second part of a time.
pub fn format_fractional(nanos: i64) -> (r: String)
    ensures
        r@ == fraction(nanos as int),
{
    if nanos == 0 {
        let r = String::new();
        assert(r@ =~= Seq::empty());
        r
    } else {
        cat2(".", strip_trailing(pad_signed(nanos, 9).as_str(), '0').as_str())
    }
}

/// `n` as a 32-bit integer, wrapping round at the ends of its range.
pub open spec fn wrapped_i32(n: int) -> int {
    (n + 0x8000_0000) % 0x1_0000_0000 - 0x8000_0000
}

/// Hours, minutes and seconds as `HH:MM:SS`.
pub open spec fn clock(h: int, m: int, s: int) -> Seq<char> {
    padded_signed(h, 2) + ":"@ + padded_signed(m, 2) + ":"@ + padded_signed(s, 2)
}

fn write_clock(h: i64, m: i64, s: i64) -> (r: String)
    ensures
        r@ == clock(h as int, m as int, s as int),
{
    cat5(
        pad_signed(h, 2).as_str(),
        ":",
        pad_signed(m, 2).as_str(),
        ":",
        pad_signed(s, 2).as_str(),
    )
}

/// A time since 1970-01-01 as `YYYY-MM-DDTHH:MM:SS`, with its sub-second part.
pub open spec fn iso_timestamp(unit: TimeUnit, value: int) -> Seq<char> {
    let (secs, nanos) = seconds_and_nanos(unit, value);
    let of_day = secs % 86_400;
    iso_date(date_of(wrapped_i32(secs / 86_400))) + "T"@ + clock(
        of_day / 3_600,
        of_day % 3_600 / 60,
        of_day % 60,
    ) + fraction(nanos)
}

/// Writes a time since 1970-01-01.
pub fn timestamp_to_iso(unit: TimeUnit, value: i64) -> (r: String)
    ensures
        r@ == iso_timestamp(unit, value as int),
{
    let (secs, nanos) = split_unit(unit, value);
    let day: i64 = floor_div(secs, 86_400);
    let days: i32 = (floor_mod(day + 0x8000_0000, 0x1_0000_0000) - 0x8000_0000) as i32;
    let of_day: u64 = floor_mod(secs, 86_400) as u64;
    let clock_text = write_clock(
        (of_day / 3_600) as i64,
        (of_day % 3_600 / 60) as i64,
        (of_day % 60) as i64,
    );
    cat4(
        date32_to_iso(days).as_str(),
        "T",
        clock_text.as_str(),
        format_fractional(nanos).as_str(),
    )
}

/// The quotient rounded towards zero.
pub open spec fn quotient(a: int, b: int) -> int {
    if a >= 0 {
        a / b
    } else {
        -((-a) / b)
    }
}

/// The remainder that goes with `quotient`, with the sign of `a`.
pub open spec fn remainder(a: int, b: int) -> int {
    if a >= 0 {
        a % b
    } else {
        -((-a) % b)
    }
}

/// A time of day as `HH:MM:SS`, with its sub-second part.
pub open spec fn iso_time(unit: TimeUnit, value: int) -> Seq<char> {
    let (secs, nanos) = seconds_and_nanos(unit, value);
    clock(
        quotient(secs, 3_600),
        quotient(remainder(secs, 3_600), 60),
        remainder(secs, 60),
    ) + fraction(nanos)
}

/// Writes a time of day.
pub fn time_to_iso(unit: TimeUnit, value: i64) -> (r: String)
    ensures
        r@ == iso_time(unit, value as int),
{
    let (secs, nanos) = split_unit(unit, value);
    let (h, m, s): (i64, i64, i64) = if secs >= 0 {
        let t: u64 = secs as u64;
        ((t / 3_600) as i64, (t % 3_600 / 60) as i64, (t % 60) as i64)
    } else {
        let t: u64 = (-(secs as i128)) as u64;
        (
            (-((t / 3_600) as i128)) as i64,
            (-((t % 3_600 / 60) as i128)) as i64,
            (-((t % 60) as i128)) as i64,
        )
    };
    cat2(write_clock(h, m, s).as_str(), format_fractional(nanos).as_str())
}

// ─── laws ───────────────────────────────────────────────────────────────────
/// Ten to the power of `n`.
pub open spec fn pow10(n: nat) -> nat
    decreases n,
{
    if n == 0 {
        1
    } else {
        10 * pow10((n - 1) as nat)
    }
}

proof fn lemma_zeros_add_nothing(k: nat, s: Seq<char>)
    requires
        all_digits(s),
    ensures
        all_digits(zeros(k as int) + s),
        digits_value(zeros(k as int) + s) == digits_value(s),
    decreases s.len(), k,
{
    let t = zeros(k as int) + s;
    assert forall|i: int| 0 <= i < t.len() implies is_digit(#[trigger] t[i]) by {
        if i >= k {
            assert(t[i] == s[i - k]);
        }
    }
    if s.len() > 0 {
        let front = s.drop_last();
        assert forall|i: int| 0 <= i < front.len() implies is_digit(#[trigger] front[i]) by {
            assert(front[i] == s[i]);
        }
        lemma_zeros_add_nothing(k, front);
        assert(t.drop_last() =~= zeros(k as int) + front);
        assert(t.last() == s.last());
    } else if k > 0 {
        lemma_zeros_add_nothing((k - 1) as nat, s);
        assert(t.drop_last() =~= zeros(k - 1) + s);
        assert(t.last() == '0');
    } else {
        assert(t =~= s);
    }
}

proof fn lemma_trailing_zeros(s: Seq<char>)
    requires
        all_digits(s),
    ensures
        without_trailing(s, '0').len() <= s.len(),
        digits_value(s) == digits_value(without_trailing(s, '0')) * pow10(
            (s.len() - without_trailing(s, '0').len()) as nat,
        ),
    decreases s.len(),
{
    if s.len() > 0 && s.last() == '0' {
        let front = s.drop_last();
        assert forall|i: int| 0 <= i < front.len() implies is_digit(#[trigger] front[i]) by {
            assert(front[i] == s[i]);
        }
        lemma_trailing_zeros(front);
        let t = without_trailing(s, '0');
        let n = (front.len() - t.len()) as nat;
        assert(pow10(n + 1) == 10 * pow10(n));
        assert(digits_value(t) * pow10(n) * 10 == digits_value(t) * pow10(n + 1))
            by (nonlinear_arith)
            requires
                pow10(n + 1) == 10 * pow10(n),
        ;
        assert(without_trailing(front, '0') == t);
        assert(digits_value(s) == digits_value(front) * 10);
        assert(digits_value(s) == digits_value(t) * pow10(n + 1));
        assert((s.len() - t.len()) as nat == n + 1);
    } else {
        let n = (s.len() - without_trailing(s, '0').len()) as nat;
        assert(n == 0 && pow10(n) == 1);
        assert(digits_value(s) * pow10(n) == digits_value(s)) by (nonlinear_arith)
            requires
                pow10(n) == 1,
        ;
    }
}

/// The digits behind the dot give the nanoseconds back: nothing is lost with
/// the zeros at the end.
pub proof fn fraction_keeps_the_nanos(nanos: nat)
    requires
        0 < nanos < 1_000_000_000,
    ensures
        ({
            let digits = without_trailing(padded(nanos, 9), '0');
            &&& fraction(nanos as int) == "."@ + digits
            &&& digits.len() <= padded(nanos, 9).len()
            &&& digits_value(digits) * pow10((padded(nanos, 9).len() - digits.len()) as nat)
                == nanos
        }),
{
    decimal_reads_back(nanos);
    let k = 9 - decimal(nanos).len();
    if k >= 0 {
        lemma_zeros_add_nothing(k as nat, decimal(nanos));
    } else {
        assert(zeros(k) =~= zeros(0));
        lemma_zeros_add_nothing(0, decimal(nanos));
    }
    lemma_trailing_zeros(padded(nanos, 9));
}

/// The Gregorian calendar: every fourth year is a leap year, but for the full
/// hundreds that are no full four hundreds; April, June, September and November
/// have 30 days, February 28 or, in a leap year, 29, and the other months 31.
pub proof fn months_have_their_lengths(y: int, m: int)
    requires
        1 <= m <= 12,
    ensures
        y % 400 == 0 ==> month_length(y, 2) == 29,
        y % 100 == 0 && y % 400 != 0 ==> month_length(y, 2) == 28,
        y % 4 == 0 && y % 100 != 0 ==> month_length(y, 2) == 29,
        y % 4 != 0 ==> month_length(y, 2) == 28,
        m == 4 || m == 6 || m == 9 || m == 11 ==> month_length(y, m) == 30,
        m == 1 || m == 3 || m == 5 || m == 7 || m == 8 || m == 10 || m == 12 ==> month_length(
            y,
            m,
        ) == 31,
{
}

/// Days are counted from the first of January 1970, one by one, over the ends of
/// months and years.
pub proof fn days_are_counted_one_by_one(y: int, m: int, d: int)
    requires
        is_date(y, m, d),
    ensures
        day_number(1970, 1, 1) == 0,
        d < month_length(y, m) ==> day_number(y, m, d + 1) == day_number(y, m, d) + 1,
        d == month_length(y, m) && m < 12 ==> day_number(y, m + 1, 1) == day_number(y, m, d) + 1,
        d == 31 && m == 12 ==> day_number(y + 1, 1, 1) == day_number(y, m, d) + 1,
        date_of(day_number(y, m, d)) == (y, m, d),
{
    year_length(y);
    reveal_with_fuel(days_before_month, 14);
    let n = day_number(y, m, d);
    let witness = (y, m, d);
    assert(is_date(witness.0, witness.1, witness.2) && day_number(witness.0, witness.1, witness.2)
        == n);
    let date = date_of(n);
    each_day_has_one_date(y, m, d, date.0, date.1, date.2);
}

/// A padded number is the number, with zeros before it up to the width.
pub proof fn padding_adds_zeros_only(n: nat, width: int)
    ensures
        all_digits(padded(n, width)),
        digits_value(padded(n, width)) == n,
        padded(n, width).len() == if decimal(n).len() < width {
            width
        } else {
            decimal(n).len() as int
        },
        padded_signed(n as int, width) == padded(n, width),
        n > 0 ==> padded_signed(-(n as int), width) == "-"@ + padded(n, width - 1),
{
    decimal_reads_back(n);
    let k = width - decimal(n).len();
    if k >= 0 {
        lemma_zeros_add_nothing(k as nat, decimal(n));
    } else {
        assert(zeros(k) =~= zeros(0));
        lemma_zeros_add_nothing(0, decimal(n));
    }
}

/// A date is written as year, month and day, in four, two and two digits.
pub proof fn dates_are_written_in_order(y: int, m: int, d: int)
    ensures
        iso_date((y, m, d)) == padded_signed(y, 4) + "-"@ + padded_signed(m, 2) + "-"@
            + padded_signed(d, 2),
{
}

/// The second of the day is written as hours, minutes and seconds behind the date.
#[verifier::rlimit(50)]
pub proof fn timestamps_give_date_and_clock(day: int, h: int, m: int, s: int)
    requires
        -0x8000_0000 <= day < 0x8000_0000,
        0 <= h < 24,
        0 <= m < 60,
        0 <= s < 60,
    ensures
        iso_timestamp(TimeUnit::Second, day * 86_400 + h * 3_600 + m * 60 + s) == iso_date(
            date_of(day),
        ) + "T"@ + padded_signed(h, 2) + ":"@ + padded_signed(m, 2) + ":"@ + padded_signed(s, 2),
        iso_time(TimeUnit::Second, h * 3_600 + m * 60 + s) == padded_signed(h, 2) + ":"@
            + padded_signed(m, 2) + ":"@ + padded_signed(s, 2),
{
    let t = h * 3_600 + m * 60 + s;
    let value = day * 86_400 + t;
    assert(0 <= t < 86_400);
    assert(value / 86_400 == day && value % 86_400 == t);
    assert(t / 3_600 == h && t % 3_600 == m * 60 + s && t % 3_600 / 60 == m && t % 60 == s);
    assert(wrapped_i32(day) == day);
    assert(value / 1 == value && value % 1 == 0);
    assert(t / 1 == t && t % 1 == 0);
    let date = iso_date(date_of(day));
    let (hh, mm, ss) = (padded_signed(h, 2), padded_signed(m, 2), padded_signed(s, 2));
    assert(date + "T"@ + (hh + ":"@ + mm + ":"@ + ss) + Seq::<char>::empty() =~= date + "T"@ + hh
        + ":"@ + mm + ":"@ + ss);
    assert((hh + ":"@ + mm + ":"@ + ss) + Seq::<char>::empty() =~= hh + ":"@ + mm + ":"@ + ss);
}

/// The same time has the same text in every unit: a second is a thousand
/// milliseconds, and so on.
#[verifier::rlimit(50)]
pub proof fn units_count_thousands(value: int)
    ensures
        iso_timestamp(TimeUnit::Millisecond, value * 1_000) == iso_timestamp(
            TimeUnit::Second,
            value,
        ),
        iso_timestamp(TimeUnit::Microsecond, value * 1_000) == iso_timestamp(
            TimeUnit::Millisecond,
            value,
        ),
        iso_timestamp(TimeUnit::Nanosecond, value * 1_000) == iso_timestamp(
            TimeUnit::Microsecond,
            value,
        ),
        iso_time(TimeUnit::Millisecond, value * 1_000) == iso_time(TimeUnit::Second, value),
        iso_time(TimeUnit::Microsecond, value * 1_000) == iso_time(TimeUnit::Millisecond, value),
        iso_time(TimeUnit::Nanosecond, value * 1_000) == iso_time(TimeUnit::Microsecond, value),
{
    assert(value / 1 == value && value % 1 == 0);
    assert((value * 1_000) / 1_000 == value && (value * 1_000) % 1_000 == 0);
    assert((value * 1_000) / 1_000_000 == value / 1_000);
    assert((value * 1_000) % 1_000_000 == (value % 1_000) * 1_000);
    assert((value * 1_000) / 1_000_000_000 == value / 1_000_000);
    assert((value * 1_000) % 1_000_000_000 == (value % 1_000_000) * 1_000);
}

/// What is beyond the full second stands behind the clock, as digits behind a dot;
/// full seconds have no dot.
#[verifier::rlimit(50)]
pub proof fn fractions_follow_the_clock(secs: int, nanos: int)
    requires
        0 <= nanos < 1_000_000_000,
    ensures
        iso_timestamp(TimeUnit::Nanosecond, secs * 1_000_000_000 + nanos) == iso_timestamp(
            TimeUnit::Second,
            secs,
        ) + fraction(nanos),
        iso_time(TimeUnit::Nanosecond, secs * 1_000_000_000 + nanos) == iso_time(
            TimeUnit::Second,
            secs,
        ) + fraction(nanos),
        fraction(0) == ""@,
{
    reveal_strlit("");
    assert(""@ =~= Seq::<char>::empty());
    let value = secs * 1_000_000_000 + nanos;
    assert(value / 1_000_000_000 == secs && value % 1_000_000_000 == nanos);
    assert(secs / 1 == secs && secs % 1 == 0);
    assert(fraction(0) =~= Seq::<char>::empty());
    let a = iso_timestamp(TimeUnit::Second, secs);
    let of_day = secs % 86_400;
    let base = iso_date(date_of(wrapped_i32(secs / 86_400))) + "T"@ + clock(
        of_day / 3_600,
        of_day % 3_600 / 60,
        of_day % 60,
    );
    assert(a =~= base);
    let b = iso_time(TimeUnit::Second, secs);
    let time = clock(
        quotient(secs, 3_600),
        quotient(remainder(secs, 3_600), 60),
        remainder(secs, 60),
    );
    assert(b =~= time);
}

} // verus!
