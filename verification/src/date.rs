//! Calendar arithmetic on day numbers.
//!
//! A date is modelled as its day number: calendar days since 1970-01-01 (UTC),
//! so 0 is 1970-01-01. The module converts day numbers to and from civil
//! dates (year, month, day) in the supported range 1970-01-01 ..= 9999-12-31,
//! computes weekdays, and formats dates as the ten ASCII bytes `YYYY-MM-DD`.

use vstd::prelude::*;

verus! {

pub open spec fn is_leap_year(y: int) -> bool {
    (y % 4 == 0 && y % 100 != 0) || y % 400 == 0
}

pub open spec fn days_in_year(y: int) -> int {
    if is_leap_year(y) {
        366
    } else {
        365
    }
}

pub open spec fn days_in_month(y: int, m: int) -> int {
    if m == 2 {
        if is_leap_year(y) {
            29
        } else {
            28
        }
    } else if m == 4 || m == 6 || m == 9 || m == 11 {
        30
    } else {
        31
    }
}

/// Days from 1970-01-01 to the first day of year `y`.
pub open spec fn days_before_year(y: int) -> int
    decreases y - 1970,
{
    if y <= 1970 {
        0
    } else {
        days_before_year(y - 1) + days_in_year(y - 1)
    }
}

/// Days from the first day of year `y` to the first day of its month `m`.
pub open spec fn days_before_month(y: int, m: int) -> int
    decreases m,
{
    if m <= 1 {
        0
    } else {
        days_before_month(y, m - 1) + days_in_month(y, m - 1)
    }
}

pub open spec fn valid_ymd(y: int, m: int, d: int) -> bool {
    &&& 1970 <= y <= 9999
    &&& 1 <= m <= 12
    &&& 1 <= d <= days_in_month(y, m)
}

/// Day number of a civil date.
pub open spec fn day_of_ymd(y: int, m: int, d: int) -> int {
    days_before_year(y) + days_before_month(y, m) + (d - 1)
}

/// First day number past the supported range.
pub open spec fn day_limit() -> int {
    days_before_year(10000)
}

/// A civil date; well-formed values satisfy [`valid_ymd`].
#[derive(Clone, Copy, PartialEq, Eq, Structural, Debug)]
pub struct CivilDate {
    pub year: u64,
    pub month: u64,
    pub day: u64,
}

impl CivilDate {
    pub open spec fn valid(&self) -> bool {
        valid_ymd(self.year as int, self.month as int, self.day as int)
    }

    pub open spec fn day_number(&self) -> int {
        day_of_ymd(self.year as int, self.month as int, self.day as int)
    }
}

pub fn days_in_year_x(y: u64) -> (r: u64)
    ensures
        r as int == days_in_year(y as int),
        365 <= r <= 366,
{
    if (y % 4 == 0 && y % 100 != 0) || y % 400 == 0 {
        366
    } else {
        365
    }
}

pub fn days_in_month_x(y: u64, m: u64) -> (r: u64)
    ensures
        r as int == days_in_month(y as int, m as int),
        28 <= r <= 31,
{
    if m == 2 {
        if (y % 4 == 0 && y % 100 != 0) || y % 400 == 0 {
            29
        } else {
            28
        }
    } else if m == 4 || m == 6 || m == 9 || m == 11 {
        30
    } else {
        31
    }
}

/// `days_before_year` grows with the year.
pub proof fn lemma_days_before_year_mono(a: int, b: int)
    requires
        a <= b,
    ensures
        days_before_year(a) <= days_before_year(b),
    decreases b - a,
{
    if a < b {
        lemma_days_before_year_mono(a, b - 1);
    }
}

/// Every year has at least 365 days, so the supported range is large.
pub proof fn lemma_days_before_year_lower(y: int)
    requires
        y >= 1970,
    ensures
        days_before_year(y) >= 365 * (y - 1970),
    decreases y - 1970,
{
    if y > 1970 {
        lemma_days_before_year_lower(y - 1);
    }
}

/// Every year fits below 366 days, so the whole range fits in a `u64`.
pub proof fn lemma_days_before_year_upper(y: int)
    requires
        y <= 10000,
    ensures
        days_before_year(y) <= 366 * (if y <= 1970 {
            0int
        } else {
            y - 1970
        }),
    decreases y - 1970,
{
    if y > 1970 {
        lemma_days_before_year_upper(y - 1);
    }
}

/// The months of a year sum to its length.
pub proof fn lemma_months_sum(y: int)
    ensures
        days_before_month(y, 13) == days_in_year(y),
{
    reveal_with_fuel(days_before_month, 14);
}

/// `days_before_month` grows with the month.
pub proof fn lemma_days_before_month_mono(y: int, a: int, b: int)
    requires
        a <= b,
    ensures
        days_before_month(y, a) <= days_before_month(y, b),
    decreases b - a,
{
    if a < b {
        lemma_days_before_month_mono(y, a, b - 1);
    }
}

/// A valid date's offset within its year is below the year's length.
pub proof fn lemma_ymd_in_year(y: int, m: int, d: int)
    requires
        valid_ymd(y, m, d),
    ensures
        0 <= days_before_month(y, m) + (d - 1) < days_in_year(y),
{
    lemma_days_before_month_mono(y, 1, m);
    lemma_days_before_month_mono(y, m + 1, 13);
    lemma_months_sum(y);
}

/// Distinct valid civil dates have distinct day numbers.
pub proof fn lemma_day_of_ymd_injective(
    y1: int,
    m1: int,
    d1: int,
    y2: int,
    m2: int,
    d2: int,
)
    requires
        valid_ymd(y1, m1, d1),
        valid_ymd(y2, m2, d2),
        day_of_ymd(y1, m1, d1) == day_of_ymd(y2, m2, d2),
    ensures
        y1 == y2 && m1 == m2 && d1 == d2,
{
    lemma_ymd_in_year(y1, m1, d1);
    lemma_ymd_in_year(y2, m2, d2);
    if y1 < y2 {
        lemma_days_before_year_mono(y1 + 1, y2);
        assert(false);
    }
    if y2 < y1 {
        lemma_days_before_year_mono(y2 + 1, y1);
        assert(false);
    }
    if m1 < m2 {
        lemma_days_before_month_mono(y1, m1 + 1, m2);
        assert(false);
    }
    if m2 < m1 {
        lemma_days_before_month_mono(y1, m2 + 1, m1);
        assert(false);
    }
}

/// Convert a day number to its civil date; `None` exactly when the day lies
/// past 9999-12-31.
pub fn civil_from_days(day: u64) -> (r: Option<CivilDate>)
    ensures
        match r {
            Some(c) => c.valid() && c.day_number() == day as int && (day as int) < day_limit(),
            None => day as int >= day_limit(),
        },
{
    let mut y: u64 = 1970;
    let mut rem: u64 = day;
    loop
        invariant
            1970 <= y <= 9999,
            day as int == days_before_year(y as int) + rem,
        ensures
            1970 <= y <= 9999,
            day as int == days_before_year(y as int) + rem,
            rem < days_in_year(y as int) || y == 9999,
        decreases rem,
    {
        let n = days_in_year_x(y);
        if y < 9999 && rem >= n {
            rem = rem - n;
            y = y + 1;
        } else {
            break;
        }
    }
    if rem >= days_in_year_x(y) {
        proof {
            assert(y == 9999);
            assert(days_before_year(10000) == days_before_year(9999) + days_in_year(9999));
        }
        return None;
    }
    let mut m: u64 = 1;
    while m < 12 && rem >= days_in_month_x(y, m)
        invariant
            1970 <= y <= 9999,
            1 <= m <= 12,
            day as int == days_before_year(y as int) + days_before_month(y as int, m as int)
                + rem,
            days_before_month(y as int, m as int) + rem < days_in_year(y as int),
        decreases 12 - m,
    {
        rem = rem - days_in_month_x(y, m);
        m = m + 1;
    }
    proof {
        if m == 12 {
            lemma_months_sum(y as int);
        }
        lemma_days_before_year_mono(y as int + 1, 10000);
        assert(days_before_year(y as int + 1) == days_before_year(y as int) + days_in_year(
            y as int,
        ));
    }
    Some(CivilDate { year: y, month: m, day: rem + 1 })
}

/// Convert a valid civil date to its day number.
pub fn days_from_civil(c: CivilDate) -> (day: u64)
    requires
        c.valid(),
    ensures
        day as int == c.day_number(),
{
    let mut acc: u64 = 0;
    let mut y: u64 = 1970;
    while y < c.year
        invariant
            1970 <= y <= c.year,
            c.year <= 9999,
            acc as int == days_before_year(y as int),
            acc <= 366 * (y - 1970),
        decreases c.year - y,
    {
        proof {
            lemma_days_before_year_upper(y as int + 1);
        }
        acc = acc + days_in_year_x(y);
        y = y + 1;
    }
    let mut m: u64 = 1;
    while m < c.month
        invariant
            1 <= m <= c.month,
            c.month <= 12,
            c.year <= 9999,
            acc as int == days_before_year(c.year as int) + days_before_month(
                c.year as int,
                m as int,
            ),
            acc <= 366 * (c.year - 1970) + 31 * m,
        decreases c.month - m,
    {
        acc = acc + days_in_month_x(c.year, m);
        m = m + 1;
    }
    acc + (c.day - 1)
}

/// Weekday of a day number, counted from Sunday (0 = Sunday .. 6 = Saturday);
/// day 0, 1970-01-01, was a Thursday.
pub open spec fn week_day(day: int) -> int {
    (day + 4) % 7
}

pub fn weekday_from_sunday(day: u64) -> (w: u64)
    ensures
        w as int == week_day(day as int),
        w < 7,
{
    (day % 7 + 4) % 7
}

/// The civil date of an in-range day number; unique by
/// [`lemma_day_of_ymd_injective`].
pub open spec fn civil_of(day: int) -> CivilDate {
    choose|c: CivilDate| c.valid() && c.day_number() == day
}

/// Any valid civil date with day number `day` is `civil_of(day)`.
pub proof fn lemma_civil_of_unique(c: CivilDate, day: int)
    requires
        c.valid(),
        c.day_number() == day,
    ensures
        civil_of(day) == c,
{
    let w = civil_of(day);
    assert(w.valid() && w.day_number() == day);
    lemma_day_of_ymd_injective(
        w.year as int,
        w.month as int,
        w.day as int,
        c.year as int,
        c.month as int,
        c.day as int,
    );
}

pub open spec fn digit_byte(n: int) -> u8 {
    (48 + n) as u8
}

pub open spec fn is_digit_byte(b: u8) -> bool {
    48 <= b <= 57
}

/// The ten ASCII bytes `YYYY-MM-DD` of a civil date.
pub open spec fn ymd_bytes(y: int, m: int, d: int) -> Seq<u8> {
    seq![
        digit_byte(y / 1000 % 10),
        digit_byte(y / 100 % 10),
        digit_byte(y / 10 % 10),
        digit_byte(y % 10),
        45u8,
        digit_byte(m / 10 % 10),
        digit_byte(m % 10),
        45u8,
        digit_byte(d / 10 % 10),
        digit_byte(d % 10),
    ]
}

/// The ISO date string (as bytes) of an in-range day number.
pub open spec fn date_bytes_of(day: int) -> Seq<u8> {
    ymd_bytes(
        civil_of(day).year as int,
        civil_of(day).month as int,
        civil_of(day).day as int,
    )
}

/// The ISO date string (as characters) of an in-range day number.
pub open spec fn date_chars_of(day: int) -> Seq<char> {
    date_bytes_of(day).map_values(|b: u8| b as char)
}

/// Format a valid civil date as the ten bytes `YYYY-MM-DD`.
pub fn date_bytes_civil(c: CivilDate) -> (b: Vec<u8>)
    requires
        c.valid(),
    ensures
        b@ == ymd_bytes(c.year as int, c.month as int, c.day as int),
        b@.len() == 10,
        forall|i: int| 0 <= i < b@.len() ==> b@[i] < 128,
{
    let mut b: Vec<u8> = Vec::new();
    b.push(48 + (c.year / 1000 % 10) as u8);
    b.push(48 + (c.year / 100 % 10) as u8);
    b.push(48 + (c.year / 10 % 10) as u8);
    b.push(48 + (c.year % 10) as u8);
    b.push(45);
    b.push(48 + (c.month / 10 % 10) as u8);
    b.push(48 + (c.month % 10) as u8);
    b.push(45);
    b.push(48 + (c.day / 10 % 10) as u8);
    b.push(48 + (c.day % 10) as u8);
    proof {
        assert(b@ =~= ymd_bytes(c.year as int, c.month as int, c.day as int));
    }
    b
}

/// Format an in-range day number as the ten bytes `YYYY-MM-DD`.
pub fn date_bytes(day: u64) -> (b: Vec<u8>)
    requires
        (day as int) < day_limit(),
    ensures
        b@ == date_bytes_of(day as int),
        b@.len() == 10,
        forall|i: int| 0 <= i < b@.len() ==> b@[i] < 128,
{
    let c = match civil_from_days(day) {
        Some(c) => c,
        None => {
            proof {
                assert(false);
            }
            CivilDate { year: 1970, month: 1, day: 1 }
        },
    };
    proof {
        lemma_civil_of_unique(c, day as int);
    }
    date_bytes_civil(c)
}

/// Digits of a number up to 9999 reassemble to the number.
proof fn lemma_year_digits(y: int)
    requires
        0 <= y <= 9999,
    ensures
        1000 * (y / 1000 % 10) + 100 * (y / 100 % 10) + 10 * (y / 10 % 10) + y % 10 == y,
{
    assert(1000 * (y / 1000 % 10) + 100 * (y / 100 % 10) + 10 * (y / 10 % 10) + y % 10 == y)
        by (nonlinear_arith)
        requires
            0 <= y <= 9999,
    ;
}

/// Digits of a number up to 99 reassemble to the number.
proof fn lemma_two_digits(x: int)
    requires
        0 <= x <= 99,
    ensures
        10 * (x / 10 % 10) + x % 10 == x,
{
    assert(10 * (x / 10 % 10) + x % 10 == x) by (nonlinear_arith)
        requires
            0 <= x <= 99,
    ;
}

/// Decomposing a four-digit assembly recovers the digits.
proof fn lemma_year_digits_inv(a: int, b: int, c: int, d: int)
    requires
        0 <= a <= 9,
        0 <= b <= 9,
        0 <= c <= 9,
        0 <= d <= 9,
    ensures
        ({
            let y = 1000 * a + 100 * b + 10 * c + d;
            y / 1000 % 10 == a && y / 100 % 10 == b && y / 10 % 10 == c && y % 10 == d
        }),
{
    let y = 1000 * a + 100 * b + 10 * c + d;
    assert(y / 1000 % 10 == a && y / 100 % 10 == b && y / 10 % 10 == c && y % 10 == d)
        by (nonlinear_arith)
        requires
            0 <= a <= 9,
            0 <= b <= 9,
            0 <= c <= 9,
            0 <= d <= 9,
            y == 1000 * a + 100 * b + 10 * c + d,
    ;
}

/// Decomposing a two-digit assembly recovers the digits.
proof fn lemma_two_digits_inv(a: int, b: int)
    requires
        0 <= a <= 9,
        0 <= b <= 9,
    ensures
        (10 * a + b) / 10 % 10 == a && (10 * a + b) % 10 == b,
{
    let x = 10 * a + b;
    assert(x / 10 % 10 == a && x % 10 == b) by (nonlinear_arith)
        requires
            0 <= a <= 9,
            0 <= b <= 9,
            x == 10 * a + b,
    ;
}

/// Read ten bytes at `pos` as a date `YYYY-MM-DD`; succeeds exactly on the
/// canonical date string of an in-range day number.
pub fn parse_date_at(v: &Vec<u8>, pos: usize) -> (r: Option<u64>)
    requires
        pos + 10 <= v@.len(),
    ensures
        match r {
            Some(n) => (n as int) < day_limit() && v@.subrange(pos as int, pos + 10)
                == date_bytes_of(n as int),
            None => forall|n: int|
                0 <= n < day_limit() ==> v@.subrange(pos as int, pos + 10) != date_bytes_of(n),
        },
{
    let ghost w = v@.subrange(pos as int, pos + 10);
    let len = v.len();
    proof {
        assert(pos + 10 <= len);
    }
    let b0 = v[pos];
    let b1 = v[pos + 1];
    let b2 = v[pos + 2];
    let b3 = v[pos + 3];
    let b4 = v[pos + 4];
    let b5 = v[pos + 5];
    let b6 = v[pos + 6];
    let b7 = v[pos + 7];
    let b8 = v[pos + 8];
    let b9 = v[pos + 9];
    proof {
        assert(w[0] == b0 && w[1] == b1 && w[2] == b2 && w[3] == b3 && w[4] == b4 && w[5] == b5
            && w[6] == b6 && w[7] == b7 && w[8] == b8 && w[9] == b9);
    }
    let ok = b0 >= 48 && b0 <= 57 && b1 >= 48 && b1 <= 57 && b2 >= 48 && b2 <= 57 && b3 >= 48
        && b3 <= 57 && b4 == 45 && b5 >= 48 && b5 <= 57 && b6 >= 48 && b6 <= 57 && b7 == 45
        && b8 >= 48 && b8 <= 57 && b9 >= 48 && b9 <= 57;
    if !ok {
        proof {
            assert forall|n: int| 0 <= n < day_limit() implies w != date_bytes_of(n) by {
                lemma_date_bytes_shape(n);
            }
        }
        return None;
    }
    let y: u64 = 1000 * ((b0 - 48) as u64) + 100 * ((b1 - 48) as u64) + 10 * ((b2 - 48) as u64)
        + ((b3 - 48) as u64);
    let m: u64 = 10 * ((b5 - 48) as u64) + ((b6 - 48) as u64);
    let d: u64 = 10 * ((b8 - 48) as u64) + ((b9 - 48) as u64);
    let valid = y >= 1970 && m >= 1 && m <= 12 && d >= 1 && d <= days_in_month_x(y, m);
    if !valid {
        proof {
            assert forall|n: int| 0 <= n < day_limit() implies w != date_bytes_of(n) by {
                lemma_date_bytes_shape(n);
                let c = civil_of(n);
                if w == date_bytes_of(n) {
                    lemma_year_digits(c.year as int);
                    lemma_two_digits(c.month as int);
                    lemma_two_digits(c.day as int);
                    assert(y as int == c.year as int);
                    assert(m as int == c.month as int);
                    assert(d as int == c.day as int);
                    assert(false);
                }
            }
        }
        return None;
    }
    let c = CivilDate { year: y, month: m, day: d };
    let n = days_from_civil(c);
    proof {
        lemma_civil_of_unique(c, n as int);
        lemma_ymd_in_year(y as int, m as int, d as int);
        lemma_days_before_year_mono(y as int + 1, 10000);
        assert(days_before_year(y as int + 1) == days_before_year(y as int) + days_in_year(
            y as int,
        ));
        lemma_year_digits_inv((b0 - 48) as int, (b1 - 48) as int, (b2 - 48) as int, (b3
            - 48) as int);
        lemma_two_digits_inv((b5 - 48) as int, (b6 - 48) as int);
        lemma_two_digits_inv((b8 - 48) as int, (b9 - 48) as int);
        assert(w =~= date_bytes_of(n as int));
    }
    Some(n)
}

/// The canonical date bytes of an in-range day number are digits and dashes
/// in their fixed positions, for a valid civil date.
proof fn lemma_date_bytes_shape(n: int)
    requires
        0 <= n < day_limit(),
    ensures
        ({
            let c = civil_of(n);
            let b = date_bytes_of(n);
            &&& c.valid()
            &&& c.day_number() == n
            &&& b.len() == 10
            &&& is_digit_byte(b[0]) && is_digit_byte(b[1]) && is_digit_byte(b[2])
                && is_digit_byte(b[3])
            &&& b[4] == 45u8
            &&& is_digit_byte(b[5]) && is_digit_byte(b[6])
            &&& b[7] == 45u8
            &&& is_digit_byte(b[8]) && is_digit_byte(b[9])
            &&& b[0] == digit_byte(c.year as int / 1000 % 10)
        }),
{
    let w = civil_from_days_witness(n);
    lemma_civil_of_unique(w, n);
}

/// There is a civil date for every in-range day number.
proof fn civil_from_days_witness(n: int) -> (c: CivilDate)
    requires
        0 <= n < day_limit(),
    ensures
        c.valid(),
        c.day_number() == n,
    decreases n,
{
    if n == 0 {
        CivilDate { year: 1970, month: 1, day: 1 }
    } else {
        let p = civil_from_days_witness(n - 1);
        if (p.day as int) < days_in_month(p.year as int, p.month as int) {
            CivilDate { year: p.year, month: p.month, day: (p.day + 1) as u64 }
        } else if p.month < 12 {
            assert(days_before_month(p.year as int, p.month as int + 1) == days_before_month(
                p.year as int,
                p.month as int,
            ) + days_in_month(p.year as int, p.month as int));
            CivilDate { year: p.year, month: (p.month + 1) as u64, day: 1 }
        } else {
            lemma_months_sum(p.year as int);
            assert(days_before_month(p.year as int, 13) == days_before_month(p.year as int, 12)
                + days_in_month(p.year as int, 12));
            assert(days_before_year(p.year as int + 1) == days_before_year(p.year as int)
                + days_in_year(p.year as int));
            if p.year == 9999 {
                assert(n == day_limit());
                assert(false);
            }
            CivilDate { year: (p.year + 1) as u64, month: 1, day: 1 }
        }
    }
}

/// `b` is the canonical date string of some in-range day number.
pub open spec fn is_date_bytes(b: Seq<u8>) -> bool {
    exists|n: int| 0 <= n < day_limit() && b == date_bytes_of(n)
}

/// The day number a canonical date string denotes (unique by
/// [`lemma_date_bytes_of_injective`]).
pub open spec fn day_of_date_bytes(b: Seq<u8>) -> int {
    choose|n: int| 0 <= n < day_limit() && b == date_bytes_of(n)
}

/// Distinct in-range day numbers have distinct date strings.
pub proof fn lemma_date_bytes_of_injective(n1: int, n2: int)
    requires
        0 <= n1 < day_limit(),
        0 <= n2 < day_limit(),
        date_bytes_of(n1) == date_bytes_of(n2),
    ensures
        n1 == n2,
{
    lemma_date_bytes_shape(n1);
    lemma_date_bytes_shape(n2);
    let c1 = civil_of(n1);
    let c2 = civil_of(n2);
    let b1 = date_bytes_of(n1);
    let b2 = date_bytes_of(n2);
    assert(b1[0] == b2[0] && b1[1] == b2[1] && b1[2] == b2[2] && b1[3] == b2[3] && b1[5]
        == b2[5] && b1[6] == b2[6] && b1[8] == b2[8] && b1[9] == b2[9]);
    lemma_year_digits(c1.year as int);
    lemma_year_digits(c2.year as int);
    lemma_two_digits(c1.month as int);
    lemma_two_digits(c2.month as int);
    lemma_two_digits(c1.day as int);
    lemma_two_digits(c2.day as int);
    assert(c1.year == c2.year && c1.month == c2.month && c1.day == c2.day);
}

/// The canonical date string of day `n` denotes `n`.
pub proof fn lemma_day_of_date_bytes(n: int)
    requires
        0 <= n < day_limit(),
    ensures
        is_date_bytes(date_bytes_of(n)),
        day_of_date_bytes(date_bytes_of(n)) == n,
{
    assert(0 <= n < day_limit() && date_bytes_of(n) == date_bytes_of(n));
    let m = day_of_date_bytes(date_bytes_of(n));
    assert(0 <= m < day_limit() && date_bytes_of(n) == date_bytes_of(m));
    lemma_date_bytes_of_injective(n, m);
}

/// Day number of the first day of the month three years (36 months) before
/// the month of `day`, with the day-of-month clamped to the shorter month,
/// or 0 when that falls before 1970.
pub fn months_back_36(day: u64) -> (r: u64)
    requires
        (day as int) < day_limit(),
    ensures
        r <= day,
        (r as int) < day_limit(),
        ({
            let c = civil_of(day as int);
            let y2 = c.year - 3;
            if c.year >= 1973 {
                r as int == day_of_ymd(
                    y2 as int,
                    c.month as int,
                    if c.day as int <= days_in_month(y2 as int, c.month as int) {
                        c.day as int
                    } else {
                        days_in_month(y2 as int, c.month as int)
                    },
                )
            } else {
                r == 0
            }
        }),
{
    let c = match civil_from_days(day) {
        Some(c) => c,
        None => {
            proof {
                assert(false);
            }
            return 0;
        },
    };
    proof {
        lemma_civil_of_unique(c, day as int);
    }
    if c.year < 1973 {
        return 0;
    }
    let y2 = c.year - 3;
    let dim = days_in_month_x(y2, c.month);
    let d2 = if c.day <= dim {
        c.day
    } else {
        dim
    };
    let c2 = CivilDate { year: y2, month: c.month, day: d2 };
    let r = days_from_civil(c2);
    proof {
        lemma_back_le(c, c2);
    }
    r
}

proof fn lemma_back_le(c: CivilDate, c2: CivilDate)
    requires
        c.valid(),
        c2.valid(),
        c2.year < c.year,
    ensures
        c2.day_number() <= c.day_number(),
{
    lemma_ymd_in_year(c2.year as int, c2.month as int, c2.day as int);
    lemma_days_before_year_mono(c2.year as int + 1, c.year as int);
    lemma_days_before_month_mono(c.year as int, 1, c.month as int);
}

/// Convert a unix timestamp (seconds) to its UTC calendar day number by
/// truncation; `None` before 1970 or past the supported range.
pub fn day_from_timestamp(ts: i64) -> (r: Option<u64>)
    ensures
        match r {
            Some(n) => ts >= 0 && n as int == ts as int / 86400 && (n as int) < day_limit(),
            None => ts < 0 || ts as int / 86400 >= day_limit(),
        },
{
    if ts < 0 {
        return None;
    }
    let day = (ts as u64) / 86400;
    match civil_from_days(day) {
        Some(_) => Some(day),
        None => None,
    }
}

} // verus!
