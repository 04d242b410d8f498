//! Decimal text of numbers, and RFC 3339 timestamps of Unix times.
use vstd::prelude::*;
use crate::text::{push_chars, string_of};

verus! {

/// The decimal digit `d` (`0 <= d < 10`).
pub open spec fn digit_char(d: int) -> char {
    seq!['0', '1', '2', '3', '4', '5', '6', '7', '8', '9'][d]
}

/// The decimal digits of `n`, without leading zeros.
pub open spec fn dec_text(n: nat) -> Seq<char>
    decreases n,
{
    if n < 10 {
        seq![digit_char(n as int)]
    } else {
        dec_text(n / 10).push(digit_char((n % 10) as int))
    }
}

/// How `Display` writes an integer: a minus sign for a negative value, then
/// the digits of its magnitude.
pub open spec fn int_text(n: int) -> Seq<char> {
    if n < 0 {
        seq!['-'] + dec_text((-n) as nat)
    } else {
        dec_text(n as nat)
    }
}

/// How `{:0w}` writes an integer: the sign, then zeros up to the width `w`,
/// then the digits.
pub open spec fn padded_text(n: int, w: nat) -> Seq<char> {
    let sign = if n < 0 {
        seq!['-']
    } else {
        Seq::<char>::empty()
    };
    let digits = if n < 0 {
        dec_text((-n) as nat)
    } else {
        dec_text(n as nat)
    };
    let pad: int = w - sign.len() - digits.len();
    sign + Seq::new(
        if pad > 0 {
            pad as nat
        } else {
            0
        },
        |i: int| '0',
    ) + digits
}

fn digit_exec(d: u64) -> (c: char)
    requires
        d < 10,
    ensures
        c == digit_char(d as int),
{
    let digits = ['0', '1', '2', '3', '4', '5', '6', '7', '8', '9'];
    assert(digits@ =~= seq!['0', '1', '2', '3', '4', '5', '6', '7', '8', '9']);
    digits[d as usize]
}

/// Appends the decimal digits of `n`.
pub fn push_dec(out: &mut Vec<char>, n: u64)
    ensures
        final(out)@ == old(out)@ + dec_text(n as nat),
    decreases n,
{
    if n >= 10 {
        push_dec(out, n / 10);
    }
    out.push(digit_exec(n % 10));
    assert(out@ =~= old(out)@ + dec_text(n as nat));
}

/// The magnitude of `n`.
fn magnitude(n: i64) -> (m: u64)
    ensures
        m as int == (if n < 0 {
            -n
        } else {
            n as int
        }),
{
    if n < 0 {
        if n == i64::MIN {
            9223372036854775808
        } else {
            (-n) as u64
        }
    } else {
        n as u64
    }
}

/// Appends `n` as `Display` writes it.
pub fn push_int(out: &mut Vec<char>, n: i64)
    ensures
        final(out)@ == old(out)@ + int_text(n as int),
{
    if n < 0 {
        out.push('-');
    }
    push_dec(out, magnitude(n));
    assert(out@ =~= old(out)@ + int_text(n as int));
}

/// Appends `k` zeros.
fn push_zeros(out: &mut Vec<char>, k: usize)
    ensures
        final(out)@ == old(out)@ + Seq::new(k as nat, |i: int| '0'),
{
    let ghost start = out@;
    let mut i: usize = 0;
    while i < k
        invariant
            i <= k,
            out@ == start + Seq::new(i as nat, |j: int| '0'),
        decreases k - i,
    {
        out.push('0');
        i += 1;
        assert(out@ =~= start + Seq::new(i as nat, |j: int| '0'));
    }
}

/// Appends `n` as `{:0w}` writes it.
pub fn push_padded(out: &mut Vec<char>, n: i64, w: usize)
    ensures
        final(out)@ == old(out)@ + padded_text(n as int, w as nat),
{
    let ghost start = out@;
    let mut digits: Vec<char> = Vec::new();
    let mag = magnitude(n);
    push_dec(&mut digits, mag);
    assert(digits@ =~= dec_text(mag as nat));
    let sign: usize = if n < 0 {
        1
    } else {
        0
    };
    let ghost sign_text = if n < 0 {
        seq!['-']
    } else {
        Seq::<char>::empty()
    };
    if n < 0 {
        out.push('-');
    }
    assert(out@ =~= start + sign_text);
    let pad: usize = if digits.len() < w && sign < w - digits.len() {
        w - digits.len() - sign
    } else {
        0
    };
    push_zeros(out, pad);
    push_chars(out, digits.as_slice());
    assert(out@ =~= start + padded_text(n as int, w as nat));
}

/// The civil date (proleptic Gregorian year, month, day) of a day count
/// since 1970-01-01, by the era arithmetic of the days-from-civil method.
#[verifier::opaque]
pub open spec fn civil_of_days(days: int) -> (int, int, int) {
    let z = days + 719468;
    let era = z / 146097;
    let doe = z - era * 146097;
    let yoe = (doe - doe / 1460 + doe / 36524 - doe / 146096) / 365;
    let y = yoe + era * 400;
    let doy = doe - (365 * yoe + yoe / 4 - yoe / 100);
    let mp = (5 * doy + 2) / 153;
    let d = doy - (153 * mp + 2) / 5 + 1;
    let m = mp + if mp < 10 {
        3int
    } else {
        -9int
    };
    (
        y + if m <= 2 {
            1int
        } else {
            0int
        },
        m,
        d,
    )
}

/// The day count since 1970-01-01 of a civil date: the inverse of
/// `civil_of_days`.
pub open spec fn days_of_civil(y: int, m: int, d: int) -> int {
    let y2 = if m <= 2 {
        y - 1
    } else {
        y
    };
    let era = y2 / 400;
    let yoe = y2 - era * 400;
    let mp = if m > 2 {
        m - 3
    } else {
        m + 9
    };
    let doy = (153 * mp + 2) / 5 + d - 1;
    let doe = yoe * 365 + yoe / 4 - yoe / 100 + doy;
    era * 146097 + doe - 719468
}

proof fn lemma_doy_bounds(doe: int, a: int, b: int, c: int, yoe: int, q: int, h: int)
    requires
        0 <= doe < 146097,
        1460 * a <= doe < 1460 * a + 1460,
        36524 * b <= doe < 36524 * b + 36524,
        146096 * c <= doe < 146096 * c + 146096,
        365 * yoe <= doe - a + b - c < 365 * yoe + 365,
        4 * q <= yoe < 4 * q + 4,
        100 * h <= yoe < 100 * h + 100,
    ensures
        0 <= doe - (365 * yoe + q - h) <= 365,
{
}

proof fn lemma_year_len_bound(doe: int, a: int, b: int, c: int, yoe: int, q: int, h: int, q1: int, h1: int)
    requires
        0 <= doe < 146097,
        1460 * a <= doe < 1460 * a + 1460,
        36524 * b <= doe < 36524 * b + 36524,
        146096 * c <= doe < 146096 * c + 146096,
        365 * yoe <= doe - a + b - c < 365 * yoe + 365,
        4 * q <= yoe < 4 * q + 4,
        100 * h <= yoe < 100 * h + 100,
        4 * q1 <= yoe + 1 < 4 * q1 + 4,
        100 * h1 <= yoe + 1 < 100 * h1 + 100,
    ensures
        doe - (365 * yoe + q - h) <= 364 + (q1 - q) - (h1 - h) + if yoe == 399 { 1int } else { 0int },
{
}

proof fn lemma_year_of_day(doe: int, a: int, b: int, c: int, yoe: int, q: int, h: int, q1: int, h1: int)
    requires
        0 <= yoe < 400,
        4 * q <= yoe < 4 * q + 4,
        100 * h <= yoe < 100 * h + 100,
        4 * q1 <= yoe + 1 < 4 * q1 + 4,
        100 * h1 <= yoe + 1 < 100 * h1 + 100,
        0 <= doe - (365 * yoe + q - h) <= 364 + (q1 - q) - (h1 - h) + if yoe == 399 { 1int } else { 0int },
        1460 * a <= doe < 1460 * a + 1460,
        36524 * b <= doe < 36524 * b + 36524,
        146096 * c <= doe < 146096 * c + 146096,
    ensures
        0 <= doe < 146097,
        365 * yoe <= doe - a + b - c < 365 * yoe + 365,
{
}

/// The floor quotient `x / k` lies between the bounds that define it.
proof fn lemma_div_bounds(x: int, k: int)
    requires
        k > 0,
    ensures
        k * (x / k) <= x < k * (x / k) + k,
        x % k == x - k * (x / k),
{
    vstd::arithmetic::div_mod::lemma_fundamental_div_mod(x, k);
    vstd::arithmetic::div_mod::lemma_mod_bound(x, k);
}

/// The first day of the March-based month `mp` (0 for March) in its year.
pub open spec fn month_start(mp: int) -> int {
    if mp == 0 { 0 } else if mp == 1 { 31 } else if mp == 2 { 61 } else if mp == 3 { 92 }
    else if mp == 4 { 122 } else if mp == 5 { 153 } else if mp == 6 { 184 } else if mp == 7 { 214 }
    else if mp == 8 { 245 } else if mp == 9 { 275 } else if mp == 10 { 306 } else { 337 }
}

/// The length of the March-based month `mp` in a year of `yl` days.
pub open spec fn month_len(mp: int, yl: int) -> int {
    if mp == 11 {
        yl - 337
    } else {
        month_start(mp + 1) - month_start(mp)
    }
}

/// The civil month of the March-based month `mp`.
pub open spec fn civil_month(mp: int) -> int {
    if mp < 10 { mp + 3 } else { mp - 9 }
}

proof fn lemma_month_of_day(doy: int, yl: int, mp: int, k: int)
    requires
        0 <= doy < yl,
        yl == 365 || yl == 366,
        153 * mp <= 5 * doy + 2 < 153 * mp + 153,
        5 * k <= 153 * mp + 2 < 5 * k + 5,
    ensures
        0 <= mp <= 11,
        k == month_start(mp),
        1 <= doy - k + 1 <= month_len(mp, yl),
{
}

/// The parts of `civil_of_days`: the era, the day of the era, the year of
/// the era with the quotients its leap days are counted by, the day of the
/// year, and the month and day.
proof fn lemma_civil_parts(days: int) -> (r: (int, int, int, int, int, int, int, int, int, int))
    ensures
        ({
            let (era, doe, yoe, q, h, q1, h1, doy, mp, d) = r;
            let yl = 365 + (q1 - q) - (h1 - h) + if yoe == 399 { 1int } else { 0int };
            &&& days + 719468 == 146097 * era + doe
            &&& 0 <= doe < 146097
            &&& 0 <= yoe < 400
            &&& 4 * q <= yoe < 4 * q + 4
            &&& 100 * h <= yoe < 100 * h + 100
            &&& 4 * q1 <= yoe + 1 < 4 * q1 + 4
            &&& 100 * h1 <= yoe + 1 < 100 * h1 + 100
            &&& doy == doe - (365 * yoe + q - h)
            &&& 0 <= doy < yl
            &&& 0 <= mp <= 11
            &&& doy == month_start(mp) + d - 1
            &&& 1 <= d <= month_len(mp, yl)
            &&& civil_of_days(days) == (yoe + era * 400 + if mp >= 10 { 1int } else { 0int }, civil_month(mp), d)
        }),
{
    reveal(civil_of_days);
    let z = days + 719468;
    let era = z / 146097;
    let doe = z - era * 146097;
    lemma_div_bounds(z, 146097);
    let a = doe / 1460;
    let b = doe / 36524;
    let c = doe / 146096;
    lemma_div_bounds(doe, 1460);
    lemma_div_bounds(doe, 36524);
    lemma_div_bounds(doe, 146096);
    let yoe = (doe - a + b - c) / 365;
    lemma_div_bounds(doe - a + b - c, 365);
    let q = yoe / 4;
    let h = yoe / 100;
    let q1 = (yoe + 1) / 4;
    let h1 = (yoe + 1) / 100;
    lemma_div_bounds(yoe, 4);
    lemma_div_bounds(yoe, 100);
    lemma_div_bounds(yoe + 1, 4);
    lemma_div_bounds(yoe + 1, 100);
    lemma_doy_bounds(doe, a, b, c, yoe, q, h);
    lemma_year_len_bound(doe, a, b, c, yoe, q, h, q1, h1);
    let doy = doe - (365 * yoe + q - h);
    let yl = 365 + (q1 - q) - (h1 - h) + if yoe == 399 { 1int } else { 0int };
    let mp = (5 * doy + 2) / 153;
    lemma_div_bounds(5 * doy + 2, 153);
    let k = (153 * mp + 2) / 5;
    lemma_div_bounds(153 * mp + 2, 5);
    lemma_month_of_day(doy, yl, mp, k);
    let d = doy - k + 1;
    (era, doe, yoe, q, h, q1, h1, doy, mp, d)
}

/// Whether `y` is a leap year of the proleptic Gregorian calendar.
pub open spec fn is_leap(y: int) -> bool {
    y % 4 == 0 && (y % 100 != 0 || y % 400 == 0)
}

/// The number of days of month `m` of year `y`.
pub open spec fn days_in_month(y: int, m: int) -> int {
    if m == 2 {
        if is_leap(y) { 29 } else { 28 }
    } else if m == 4 || m == 6 || m == 9 || m == 11 {
        30
    } else {
        31
    }
}

/// The calendar day after the date `c`.
pub open spec fn next_day(c: (int, int, int)) -> (int, int, int) {
    let (y, m, d) = c;
    if d < days_in_month(y, m) {
        (y, m, d + 1)
    } else if m < 12 {
        (y, m + 1, 1)
    } else {
        (y + 1, 1, 1)
    }
}

/// The year of the era `yoe` has 366 days exactly when the civil year that
/// holds its February is a leap year.
proof fn lemma_leap_year_len(yoe: int, era: int, q: int, h: int, q1: int, h1: int)
    requires
        0 <= yoe < 400,
        4 * q <= yoe < 4 * q + 4,
        100 * h <= yoe < 100 * h + 100,
        4 * q1 <= yoe + 1 < 4 * q1 + 4,
        100 * h1 <= yoe + 1 < 100 * h1 + 100,
    ensures
        is_leap(yoe + era * 400 + 1) == (365 + (q1 - q) - (h1 - h) + (if yoe == 399 { 1int } else { 0int }) == 366),
{
    let fy = yoe + era * 400 + 1;
    vstd::arithmetic::div_mod::lemma_fundamental_div_mod_converse(fy, 4, q1 + 100 * era, yoe + 1 - 4 * q1);
    vstd::arithmetic::div_mod::lemma_fundamental_div_mod_converse(fy, 100, h1 + 4 * era, yoe + 1 - 100 * h1);
    if yoe == 399 {
        vstd::arithmetic::div_mod::lemma_fundamental_div_mod_converse(fy, 400, era + 1, 0);
    } else {
        vstd::arithmetic::div_mod::lemma_fundamental_div_mod_converse(fy, 400, era, yoe + 1);
    }
    assert(fy % 4 == yoe + 1 - 4 * q1);
    assert(fy % 100 == yoe + 1 - 100 * h1);
    assert((fy % 400 == 0) == (yoe == 399));
}

/// The March-based month lengths are the calendar's month lengths.
proof fn lemma_month_len_matches(mp: int, yl: int, y: int)
    requires
        0 <= mp <= 11,
        yl == 365 || yl == 366,
        mp == 11 ==> (is_leap(y) == (yl == 366)),
    ensures
        month_len(mp, yl) == days_in_month(y, civil_month(mp)),
{
}

/// The dates `civil_of_days` gives follow the calendar: each is a real date
/// of the proleptic Gregorian calendar, and the next day count gives the
/// next calendar day.
#[verifier::rlimit(40)]
pub proof fn lemma_civil_calendar(days: int)
    ensures
        1 <= civil_of_days(days).1 <= 12,
        1 <= civil_of_days(days).2 <= days_in_month(civil_of_days(days).0, civil_of_days(days).1),
        civil_of_days(days + 1) == next_day(civil_of_days(days)),
{
    let (era, doe, yoe, q, h, q1, h1, doy, mp, d) = lemma_civil_parts(days);
    let (era2, doe2, yoe2, q2, h2, q12, h12, doy2, mp2, d2) = lemma_civil_parts(days + 1);
    let yl = 365 + (q1 - q) - (h1 - h) + if yoe == 399 { 1int } else { 0int };
    lemma_leap_year_len(yoe, era, q, h, q1, h1);
    lemma_month_len_matches(mp, yl, yoe + era * 400 + if mp >= 10 { 1int } else { 0int });
    // the next day count, within the era or at its start
    if doe < 146096 {
        assert(era2 == era && doe2 == doe + 1);
        if doy + 1 < yl {
            // same year of the era
            let a2 = doe2 / 1460;
            let b2 = doe2 / 36524;
            let c2 = doe2 / 146096;
            lemma_div_bounds(doe2, 1460);
            lemma_div_bounds(doe2, 36524);
            lemma_div_bounds(doe2, 146096);
            lemma_year_of_day(doe2, a2, b2, c2, yoe, q, h, q1, h1);
            lemma_year_of_day(doe2, a2, b2, c2, yoe2, q2, h2, q12, h12);
            assert(yoe2 == yoe);
            assert(doy2 == doy + 1);
            if d < month_len(mp, yl) {
                assert(mp2 == mp && d2 == d + 1);
            } else {
                assert(mp2 == mp + 1 && d2 == 1);
            }
        } else {
            // the first day of the next year of the era
            let q3 = (yoe + 2) / 4;
            let h3 = (yoe + 2) / 100;
            lemma_div_bounds(yoe + 2, 4);
            lemma_div_bounds(yoe + 2, 100);
            let a2 = doe2 / 1460;
            let b2 = doe2 / 36524;
            let c2 = doe2 / 146096;
            lemma_div_bounds(doe2, 1460);
            lemma_div_bounds(doe2, 36524);
            lemma_div_bounds(doe2, 146096);
            assert(yoe < 399);
            lemma_year_of_day(doe2, a2, b2, c2, yoe + 1, q1, h1, q3, h3);
            lemma_year_of_day(doe2, a2, b2, c2, yoe2, q2, h2, q12, h12);
            assert(yoe2 == yoe + 1);
            assert(doy2 == 0);
            assert(mp == 11 && mp2 == 0 && d2 == 1);
        }
    } else {
        assert(era2 == era + 1 && doe2 == 0);
        assert(yoe2 == 0 && doy2 == 0);
        assert(yoe == 399 && mp == 11);
        assert(mp2 == 0 && d2 == 1);
    }
}

/// A civil date read from a day count is a real date, and `days_of_civil`
/// gives the day count back.
pub proof fn lemma_civil_round_trip(days: int)
    ensures
        1 <= civil_of_days(days).1 <= 12,
        1 <= civil_of_days(days).2 <= 31,
        days_of_civil(civil_of_days(days).0, civil_of_days(days).1, civil_of_days(days).2) == days,
{
    reveal(civil_of_days);
    let z = days + 719468;
    let era = z / 146097;
    let doe = z - era * 146097;
    lemma_div_bounds(z, 146097);
    let a = doe / 1460;
    let b = doe / 36524;
    let c = doe / 146096;
    lemma_div_bounds(doe, 1460);
    lemma_div_bounds(doe, 36524);
    lemma_div_bounds(doe, 146096);
    let yoe = (doe - a + b - c) / 365;
    lemma_div_bounds(doe - a + b - c, 365);
    let q = yoe / 4;
    let h = yoe / 100;
    lemma_div_bounds(yoe, 4);
    lemma_div_bounds(yoe, 100);
    lemma_doy_bounds(doe, a, b, c, yoe, q, h);
    let doy = doe - (365 * yoe + q - h);
    let mp = (5 * doy + 2) / 153;
    lemma_div_bounds(5 * doy + 2, 153);
    let k = (153 * mp + 2) / 5;
    lemma_div_bounds(153 * mp + 2, 5);
    let d = doy - k + 1;
    let m = mp + if mp < 10 {
        3int
    } else {
        -9int
    };
    assert(0 <= yoe < 400);
    assert(0 <= mp <= 11);
    assert(1 <= d <= 31);
    let y = yoe + era * 400 + if m <= 2 {
        1int
    } else {
        0int
    };
    assert(civil_of_days(days) == (y, m, d));
    let y2 = yoe + era * 400;
    assert(y2 / 400 == era && y2 - era * 400 == yoe) by {
        vstd::arithmetic::div_mod::lemma_fundamental_div_mod_converse(y2, 400, era, yoe);
    }
    assert(yoe / 4 == q && yoe / 100 == h);
}

/// The year of the era, day of the year, month index, day and month of a
/// day of a 400-year era.
fn civil_in_era(doe: i64) -> (r: (i64, i64, i64, i64, i64))
    requires
        0 <= doe < 146097,
    ensures
        ({
            let yoe = (doe - doe / 1460 + doe / 36524 - doe / 146096) / 365;
            let doy = doe - (365 * yoe + yoe / 4 - yoe / 100);
            let mp = (5 * doy + 2) / 153;
            let d = doy - (153 * mp + 2) / 5 + 1;
            let m = mp + if mp < 10 {
                3int
            } else {
                -9int
            };
            r.0 == yoe && r.1 == doy && r.2 == mp && r.3 == d && r.4 == m
        }),
        0 <= r.0 < 400,
{
    let a = doe / 1460;
    let b = doe / 36524;
    let c = doe / 146096;
    assert(0 <= a <= 100 && 0 <= b <= 4 && 0 <= c <= 1);
    let yoe = (doe - a + b - c) / 365;
    assert(0 <= yoe < 400);
    let doy = doe - (365 * yoe + yoe / 4 - yoe / 100);
    assert(-1000000 < doy < 1000000) by (nonlinear_arith)
        requires
            doy == doe - (365 * yoe + yoe / 4 - yoe / 100),
            0 <= yoe < 400,
            0 <= doe < 146097,
    {
    }
    let mp = (5 * doy + 2) / 153;
    let d = doy - (153 * mp + 2) / 5 + 1;
    let m = mp + if mp < 10 {
        3
    } else {
        -9
    };
    (yoe, doy, mp, d, m)
}

/// The civil date of a day count since 1970-01-01.
pub fn civil_from_days(days: i64) -> (r: (i64, i64, i64))
    requires
        days <= i64::MAX - 719468,
        days + 719468 >= i64::MIN + 146096,
    ensures
        (r.0 as int, r.1 as int, r.2 as int) == civil_of_days(days as int),
{
    reveal(civil_of_days);
    let z = days + 719468;
    let era = if z >= 0 {
        z / 146097
    } else {
        -((-(z + 1)) / 146097) - 1
    };
    assert(era == z / 146097);
    let doe = z - era * 146097;
    assert(0 <= doe < 146097);
    let (yoe, doy, mp, d, m) = civil_in_era(doe);
    let y = yoe + era * 400;
    (y + if m <= 2 {
        1
    } else {
        0
    }, m, d)
}

/// The RFC 3339 timestamp (UTC, whole seconds) of a Unix time.
pub open spec fn rfc3339_text(secs: int) -> Seq<char> {
    let days = secs / 86400;
    let rem = secs % 86400;
    let ymd = civil_of_days(days);
    padded_text(ymd.0, 4) + seq!['-'] + padded_text(ymd.1, 2) + seq!['-'] + padded_text(ymd.2, 2)
        + seq!['T'] + padded_text(rem / 3600, 2) + seq![':'] + padded_text((rem % 3600) / 60, 2)
        + seq![':'] + padded_text(rem % 60, 2) + seq!['Z']
}

/// The RFC 3339 timestamp of a Unix time, as `YYYY-MM-DDTHH:MM:SSZ`.
pub fn unix_to_rfc3339(secs: i64) -> (r: String)
    ensures
        r@ == rfc3339_text(secs as int),
{
    let days: i64 = if secs >= 0 {
        secs / 86400
    } else {
        -((-(secs + 1)) / 86400) - 1
    };
    assert(days == secs / 86400) by (nonlinear_arith)
        requires
            days == (if secs >= 0 {
                secs / 86400
            } else {
                -((-(secs + 1)) / 86400) - 1
            }),
    {
    }
    let rem: i64 = ((secs as i128) - (days as i128) * 86400) as i64;
    assert(rem == secs % 86400) by (nonlinear_arith)
        requires
            days == secs / 86400,
            rem == secs - days * 86400,
    {
    }
    let ymd = civil_from_days(days);
    let mut out: Vec<char> = Vec::new();
    push_padded(&mut out, ymd.0, 4);
    out.push('-');
    push_padded(&mut out, ymd.1, 2);
    out.push('-');
    push_padded(&mut out, ymd.2, 2);
    out.push('T');
    push_padded(&mut out, rem / 3600, 2);
    out.push(':');
    push_padded(&mut out, (rem % 3600) / 60, 2);
    out.push(':');
    push_padded(&mut out, rem % 60, 2);
    out.push('Z');
    assert(out@ =~= rfc3339_text(secs as int));
    string_of(&out)
}

/// The timestamp `months` months of 31 days before `now`.
pub open spec fn months_before_text(now: int, months: int) -> Seq<char> {
    rfc3339_text(now - months * 31 * 24 * 60 * 60)
}

/// The timestamp `months` months of 31 days before the Unix time `now`.
pub fn months_before_rfc3339(now: i64, months: i64) -> (r: String)
    requires
        i64::MIN <= now - months * 31 * 24 * 60 * 60 <= i64::MAX,
        i64::MIN <= months * 31 * 24 * 60 * 60 <= i64::MAX,
    ensures
        r@ == months_before_text(now as int, months as int),
{
    unix_to_rfc3339(now - months * 31 * 24 * 60 * 60)
}

} // verus!
