use vstd::prelude::*;

verus! {

use crate::err::Error;

/// Milliseconds in one minute.
pub const MS_PER_MINUTE: i64 = 60000;

/// Milliseconds in one hour.
pub const MS_PER_HOUR: i64 = 3600000;

/// Milliseconds in one calendar day.
pub const MS_PER_DAY: i64 = 86400000;

/// The largest UTC offset magnitude, in minutes, that forms a valid
/// fixed timezone (strictly less than one day, whole minutes).
pub const UTC_OFFSET_MAX: i64 = 1439;

/// The first year of the supported calendar.
pub const YEAR_MIN: i32 = 1;

/// The last year of the supported calendar: day keys carry four-digit
/// years.
pub const YEAR_MAX: i32 = 9999;

/// A leap year of the proleptic Gregorian calendar.
pub open spec fn is_leap_year(y: int) -> bool {
    (y % 4 == 0 && y % 100 != 0) || y % 400 == 0
}

/// Days in a month of a given year.
pub open spec fn days_in_month(y: int, m: int) -> int {
    if m == 2 {
        if is_leap_year(y) {
            29
        } else {
            28
        }
    } else if m == 4 || m == 6 || m == 9 || m == 11 {
        30
    } else {
        31
    }
}

/// Days in a year.
pub open spec fn days_in_year(y: int) -> int {
    if is_leap_year(y) {
        366
    } else {
        365
    }
}

/// Days of all years from year 1 up to, excluding, year `y`.
pub open spec fn days_before_year(y: int) -> int
    decreases y,
{
    if y <= 1 {
        0
    } else {
        days_before_year(y - 1) + days_in_year(y - 1)
    }
}

/// Days of all months of year `y` before month `m`.
pub open spec fn days_before_month(y: int, m: int) -> int
    decreases m,
{
    if m <= 1 {
        0
    } else {
        days_before_month(y, m - 1) + days_in_month(y, m - 1)
    }
}

/// A date of the supported calendar.
pub open spec fn valid_ymd(y: int, m: int, d: int) -> bool {
    &&& YEAR_MIN <= y <= YEAR_MAX
    &&& 1 <= m <= 12
    &&& 1 <= d <= days_in_month(y, m)
}

/// The day number of a date, with 1970-01-01 as day zero.
pub open spec fn days_from_civil(y: int, m: int, d: int) -> int {
    days_before_year(y) + days_before_month(y, m) + (d - 1) - days_before_year(1970)
}

/// The months of a year sum to its length.
pub proof fn lemma_months_sum(y: int)
    ensures
        days_before_month(y, 13) == days_in_year(y),
{
    reveal_with_fuel(days_before_month, 14);
}

/// Month starts grow strictly within a year.
pub proof fn lemma_dbm_mono(y: int, m1: int, m2: int)
    requires
        1 <= m1 <= m2 <= 13,
    ensures
        days_before_month(y, m1) <= days_before_month(y, m2),
        m1 < m2 ==> days_before_month(y, m1) + days_in_month(y, m1) <= days_before_month(y, m2),
    decreases m2,
{
    if m1 < m2 {
        lemma_dbm_mono(y, m1, m2 - 1);
    }
}

/// Year starts grow strictly.
pub proof fn lemma_dby_mono(y1: int, y2: int)
    requires
        y1 <= y2,
    ensures
        days_before_year(y1) <= days_before_year(y2),
        y1 < y2 && y1 >= 1 ==> days_before_year(y1) + days_in_year(y1) <= days_before_year(y2),
    decreases y2 - y1,
{
    if y1 < y2 {
        lemma_dby_mono(y1, y2 - 1);
        if y2 >= 2 {
            assert(days_before_year(y2) == days_before_year(y2 - 1) + days_in_year(y2 - 1));
        }
    }
}

/// A date's offset within its year stays below the year's length.
pub proof fn lemma_in_year_offset(y: int, m: int, d: int)
    requires
        1 <= m <= 12,
        1 <= d <= days_in_month(y, m),
    ensures
        0 <= days_before_month(y, m) + (d - 1) < days_in_year(y),
{
    lemma_dbm_mono(y, 1, m);
    lemma_dbm_mono(y, m, 13);
    lemma_months_sum(y);
}

/// One day number names one date.
pub proof fn lemma_civil_unique(y1: int, m1: int, d1: int, y2: int, m2: int, d2: int)
    requires
        valid_ymd(y1, m1, d1),
        valid_ymd(y2, m2, d2),
        days_from_civil(y1, m1, d1) == days_from_civil(y2, m2, d2),
    ensures
        y1 == y2 && m1 == m2 && d1 == d2,
{
    lemma_in_year_offset(y1, m1, d1);
    lemma_in_year_offset(y2, m2, d2);
    if y1 < y2 {
        lemma_dby_mono(y1, y2);
        assert(false);
    } else if y2 < y1 {
        lemma_dby_mono(y2, y1);
        assert(false);
    }
    if m1 < m2 {
        lemma_dbm_mono(y1, m1, m2);
        assert(false);
    } else if m2 < m1 {
        lemma_dbm_mono(y1, m2, m1);
        assert(false);
    }
}

/// Earlier dates carry smaller day numbers.
pub proof fn lemma_civil_mono(y1: int, m1: int, d1: int, y2: int, m2: int, d2: int)
    requires
        valid_ymd(y1, m1, d1),
        valid_ymd(y2, m2, d2),
        y1 < y2 || (y1 == y2 && m1 < m2) || (y1 == y2 && m1 == m2 && d1 < d2),
    ensures
        days_from_civil(y1, m1, d1) < days_from_civil(y2, m2, d2),
{
    lemma_in_year_offset(y1, m1, d1);
    lemma_in_year_offset(y2, m2, d2);
    if y1 < y2 {
        lemma_dby_mono(y1, y2);
    } else if m1 < m2 {
        lemma_dbm_mono(y1, m1, m2);
    }
}

/// The calendar day after a date.
pub open spec fn next_civil(y: int, m: int, d: int) -> (int, int, int) {
    if d < days_in_month(y, m) {
        (y, m, d + 1)
    } else if m < 12 {
        (y, m + 1, 1)
    } else {
        (y + 1, 1, 1)
    }
}

/// Stepping to the next calendar day steps the day number by one.
pub proof fn lemma_next_civil(y: int, m: int, d: int)
    requires
        valid_ymd(y, m, d),
    ensures
        ({
            let (y2, m2, d2) = next_civil(y, m, d);
            days_from_civil(y2, m2, d2) == days_from_civil(y, m, d) + 1
        }),
{
    if d < days_in_month(y, m) {
    } else if m < 12 {
        assert(days_before_month(y, m + 1) == days_before_month(y, m) + days_in_month(y, m));
    } else {
        lemma_months_sum(y);
        assert(days_before_month(y, 13) == days_before_month(y, 12) + days_in_month(y, 12));
        assert(days_before_year(y + 1) == days_before_year(y) + days_in_year(y));
    }
}

/// The next day is valid as long as the year stays in range.
pub proof fn lemma_next_civil_valid(y: int, m: int, d: int)
    requires
        valid_ymd(y, m, d),
        !(y == YEAR_MAX && m == 12 && d == 31),
    ensures
        ({
            let (y2, m2, d2) = next_civil(y, m, d);
            valid_ymd(y2, m2, d2)
        }),
{
}

/// The character of one decimal digit.
pub open spec fn digit_char(v: int) -> char {
    if v == 0 {
        '0'
    } else if v == 1 {
        '1'
    } else if v == 2 {
        '2'
    } else if v == 3 {
        '3'
    } else if v == 4 {
        '4'
    } else if v == 5 {
        '5'
    } else if v == 6 {
        '6'
    } else if v == 7 {
        '7'
    } else if v == 8 {
        '8'
    } else {
        '9'
    }
}

/// `n` written as exactly `w` digits, leading zeros kept.
pub open spec fn pad_digits(n: int, w: nat) -> Seq<char>
    decreases w,
{
    if w == 0 {
        Seq::<char>::empty()
    } else {
        seq![digit_char((n / crate::dec::pow10((w - 1) as nat)) % 10)] + pad_digits(
            n % crate::dec::pow10((w - 1) as nat),
            (w - 1) as nat,
        )
    }
}

pub proof fn lemma_pad_len(n: int, w: nat)
    ensures
        pad_digits(n, w).len() == w,
    decreases w,
{
    if w > 0 {
        lemma_pad_len(n % crate::dec::pow10((w - 1) as nat), (w - 1) as nat);
    }
}

/// Strict lexicographic order on character sequences.
pub open spec fn lex_lt(a: Seq<char>, b: Seq<char>) -> bool
    decreases a.len(),
{
    if b.len() == 0 {
        false
    } else if a.len() == 0 {
        true
    } else if a[0] != b[0] {
        (a[0] as int) < (b[0] as int)
    } else {
        lex_lt(a.skip(1), b.skip(1))
    }
}

/// Equal-width digit strings order as their numbers do.
pub proof fn lemma_pad_lex(n1: int, n2: int, w: nat)
    requires
        0 <= n1 < n2 < crate::dec::pow10(w),
    ensures
        lex_lt(pad_digits(n1, w), pad_digits(n2, w)),
    decreases w,
{
    crate::dec::lemma_pow10_pos(w);
    if w == 0 {
        assert(false);
    } else {
        let p = crate::dec::pow10((w - 1) as nat);
        crate::dec::lemma_pow10_pos((w - 1) as nat);
        vstd::arithmetic::div_mod::lemma_fundamental_div_mod(n1, p);
        vstd::arithmetic::div_mod::lemma_fundamental_div_mod(n2, p);
        vstd::arithmetic::div_mod::lemma_div_pos_is_pos(n1, p);
        vstd::arithmetic::div_mod::lemma_div_pos_is_pos(n2, p);
        vstd::arithmetic::div_mod::lemma_mod_bound(n1, p);
        vstd::arithmetic::div_mod::lemma_mod_bound(n2, p);
        let q1 = n1 / p;
        let q2 = n2 / p;
        let r1 = n1 % p;
        let r2 = n2 % p;
        assert(crate::dec::pow10(w) == 10 * p);
        assert(q1 < 10) by (nonlinear_arith)
            requires
                n1 == p * q1 + r1,
                0 <= r1 < p,
                n1 < 10 * p,
                q1 >= 0,
        ;
        assert(q2 < 10) by (nonlinear_arith)
            requires
                n2 == p * q2 + r2,
                0 <= r2 < p,
                n2 < 10 * p,
                q2 >= 0,
        ;
        let a = pad_digits(n1, w);
        let b = pad_digits(n2, w);
        lemma_pad_len(n1, w);
        lemma_pad_len(n2, w);
        assert(a[0] == digit_char(q1 % 10));
        assert(b[0] == digit_char(q2 % 10));
        assert(q1 % 10 == q1 && q2 % 10 == q2);
        if q1 < q2 {
            assert((digit_char(q1) as int) < (digit_char(q2) as int));
            assert(digit_char(q1) != digit_char(q2));
        } else {
            assert(q1 == q2) by (nonlinear_arith)
                requires
                    n1 == p * q1 + r1,
                    n2 == p * q2 + r2,
                    0 <= r1 < p,
                    0 <= r2 < p,
                    n1 < n2,
                    q2 <= q1,
            ;
            assert(r1 < r2) by (nonlinear_arith)
                requires
                    n1 == p * q1 + r1,
                    n2 == p * q2 + r2,
                    q1 == q2,
                    n1 < n2,
            ;
            lemma_pad_lex(r1, r2, (w - 1) as nat);
            assert(a.skip(1) =~= pad_digits(r1, (w - 1) as nat));
            assert(b.skip(1) =~= pad_digits(r2, (w - 1) as nat));
        }
    }
}

/// Concatenations of equal-width heads order lexicographically by
/// head first, then by tail.
pub proof fn lemma_lex_concat(a1: Seq<char>, b1: Seq<char>, a2: Seq<char>, b2: Seq<char>)
    requires
        a1.len() == a2.len(),
    ensures
        lex_lt(a1, a2) ==> lex_lt(a1 + b1, a2 + b2),
        a1 == a2 && lex_lt(b1, b2) ==> lex_lt(a1 + b1, a2 + b2),
    decreases a1.len(),
{
    if a1.len() == 0 {
        assert(a1 + b1 =~= b1);
        assert(a2 + b2 =~= b2);
    } else {
        assert((a1 + b1)[0] == a1[0]);
        assert((a2 + b2)[0] == a2[0]);
        assert((a1 + b1).len() > 0);
        assert((a2 + b2).len() > 0);
        lemma_lex_concat(a1.skip(1), b1, a2.skip(1), b2);
        assert((a1 + b1).skip(1) =~= a1.skip(1) + b1);
        assert((a2 + b2).skip(1) =~= a2.skip(1) + b2);
        if a1 == a2 {
            assert(a1[0] == a2[0]);
            assert(a1.skip(1) =~= a2.skip(1));
        }
        if lex_lt(a1, a2) {
            if a1[0] != a2[0] {
            } else {
                assert(lex_lt(a1.skip(1), a2.skip(1)));
            }
        }
    }
}

/// The eight characters of a day key: `YYYYMMDD`.
pub open spec fn key_chars(y: int, m: int, d: int) -> Seq<char> {
    pad_digits(y, 4) + pad_digits(m, 2) + pad_digits(d, 2)
}

/// Earlier dates carry lexicographically smaller keys.
pub proof fn lemma_key_lex(y1: int, m1: int, d1: int, y2: int, m2: int, d2: int)
    requires
        valid_ymd(y1, m1, d1),
        valid_ymd(y2, m2, d2),
        days_from_civil(y1, m1, d1) < days_from_civil(y2, m2, d2),
    ensures
        lex_lt(key_chars(y1, m1, d1), key_chars(y2, m2, d2)),
{
    crate::dec::lemma_pow10_pos(4);
    // order the triples; the reverse order would reverse the day numbers
    if y1 > y2 || (y1 == y2 && m1 > m2) || (y1 == y2 && m1 == m2 && d1 >= d2) {
        if y1 == y2 && m1 == m2 && d1 == d2 {
            assert(false);
        } else {
            lemma_civil_mono(y2, m2, d2, y1, m1, d1);
            assert(false);
        }
    }
    let ka = pad_digits(y1, 4) + pad_digits(m1, 2);
    let kb = pad_digits(y2, 4) + pad_digits(m2, 2);
    lemma_pad_len(y1, 4);
    lemma_pad_len(y2, 4);
    lemma_pad_len(m1, 2);
    lemma_pad_len(m2, 2);
    assert(crate::dec::pow10(4) == 10000) by {
        reveal_with_fuel(crate::dec::pow10, 5);
    }
    assert(crate::dec::pow10(2) == 100) by {
        reveal_with_fuel(crate::dec::pow10, 3);
    }
    if y1 < y2 {
        lemma_pad_lex(y1, y2, 4);
        lemma_lex_concat(pad_digits(y1, 4), pad_digits(m1, 2), pad_digits(y2, 4), pad_digits(m2, 2));
        lemma_lex_concat(ka, pad_digits(d1, 2), kb, pad_digits(d2, 2));
    } else if m1 < m2 {
        lemma_pad_lex(m1, m2, 2);
        lemma_lex_concat(pad_digits(y1, 4), pad_digits(m1, 2), pad_digits(y2, 4), pad_digits(m2, 2));
        lemma_lex_concat(ka, pad_digits(d1, 2), kb, pad_digits(d2, 2));
    } else {
        lemma_pad_lex(d1, d2, 2);
        assert(ka == kb);
        lemma_lex_concat(ka, pad_digits(d1, 2), kb, pad_digits(d2, 2));
    }
}

/// The date a day number names.
pub open spec fn civil_of(day: int) -> (int, int, int) {
    choose|t: (int, int, int)|
        valid_ymd(t.0, t.1, t.2) && days_from_civil(t.0, t.1, t.2) == day
}

/// Day numbers the supported calendar covers.
pub open spec fn day_in_range(day: int) -> bool {
    0 <= day + days_before_year(1970) < days_before_year(10000)
}

/// The day key of a day number in range.
pub open spec fn key_of_day(day: int) -> Seq<char> {
    key_chars(civil_of(day).0, civil_of(day).1, civil_of(day).2)
}

/// Every day number in range names some date.
pub proof fn lemma_day_has_civil(day: int)
    requires
        day_in_range(day),
    ensures
        exists|t: (int, int, int)|
            valid_ymd(t.0, t.1, t.2) && days_from_civil(t.0, t.1, t.2) == day,
    decreases day + days_before_year(1970),
{
    let e = days_before_year(1970);
    lemma_dby_mono(1, 1970);
    if day + e == 0 {
        let t = (1int, 1int, 1int);
        assert(valid_ymd(t.0, t.1, t.2) && days_from_civil(t.0, t.1, t.2) == day);
    } else {
        lemma_dby_mono(1970, 10000);
        lemma_day_has_civil(day - 1);
        let w = choose|t: (int, int, int)|
            valid_ymd(t.0, t.1, t.2) && days_from_civil(t.0, t.1, t.2) == day - 1;
        if w.0 == YEAR_MAX && w.1 == 12 && w.2 == 31 {
            // the last supported day: its successor cannot be in range
            lemma_months_sum(YEAR_MAX as int);
            lemma_dbm_mono(YEAR_MAX as int, 12, 13);
            assert(days_before_month(YEAR_MAX as int, 13) == days_before_month(YEAR_MAX as int, 12)
                + days_in_month(YEAR_MAX as int, 12));
            assert(days_before_year(10000) == days_before_year(YEAR_MAX as int) + days_in_year(
                YEAR_MAX as int,
            ));
            assert(days_from_civil(w.0, w.1, w.2) == days_before_year(10000) - 1 - e);
            assert(false);
        }
        lemma_next_civil_valid(w.0, w.1, w.2);
        lemma_next_civil(w.0, w.1, w.2);
        let t2 = next_civil(w.0, w.1, w.2);
        assert(valid_ymd(t2.0, t2.1, t2.2) && days_from_civil(t2.0, t2.1, t2.2) == day);
    }
}

/// Later in-range days carry lexicographically larger keys.
pub proof fn lemma_key_of_day_lex(d1: int, d2: int)
    requires
        day_in_range(d1),
        day_in_range(d2),
        d1 < d2,
    ensures
        lex_lt(key_of_day(d1), key_of_day(d2)),
{
    lemma_day_has_civil(d1);
    lemma_day_has_civil(d2);
    let c1 = civil_of(d1);
    let c2 = civil_of(d2);
    assert(valid_ymd(c1.0, c1.1, c1.2) && days_from_civil(c1.0, c1.1, c1.2) == d1);
    assert(valid_ymd(c2.0, c2.1, c2.2) && days_from_civil(c2.0, c2.1, c2.2) == d2);
    lemma_key_lex(c1.0, c1.1, c1.2, c2.0, c2.1, c2.2);
}

/// Bounds on the growth of year starts.
pub proof fn lemma_dby_bounds(y: int)
    requires
        y >= 1,
    ensures
        365 * (y - 1) <= days_before_year(y) <= 366 * (y - 1),
    decreases y,
{
    if y > 1 {
        lemma_dby_bounds(y - 1);
    }
}

/// Decides leap years.
fn is_leap_exec(y: i32) -> (r: bool)
    requires
        y >= 0,
    ensures
        r == is_leap_year(y as int),
{
    (y % 4 == 0 && y % 100 != 0) || y % 400 == 0
}

/// Days in a year, executable.
fn diy_exec(y: i32) -> (r: u32)
    requires
        y >= 0,
    ensures
        r == days_in_year(y as int),
{
    if is_leap_exec(y) {
        366
    } else {
        365
    }
}

/// Days in a month, executable.
fn dim_exec(y: i32, m: u32) -> (r: u32)
    requires
        y >= 0,
        1 <= m <= 12,
    ensures
        r == days_in_month(y as int, m as int),
{
    if m == 2 {
        if is_leap_exec(y) {
            29
        } else {
            28
        }
    } else if m == 4 || m == 6 || m == 9 || m == 11 {
        30
    } else {
        31
    }
}

/// The date a day number names, or `None` outside the supported
/// calendar.
pub fn civil_from_days(day: i64) -> (r: Option<(i32, u32, u32)>)
    ensures
        match r {
            Some(t) => valid_ymd(t.0 as int, t.1 as int, t.2 as int) && days_from_civil(
                t.0 as int,
                t.1 as int,
                t.2 as int,
            ) == day as int && day_in_range(day as int),
            None => !day_in_range(day as int),
        },
{
    // the shift between day numbers and year-one day counts
    let mut y: i32 = 1;
    let mut acc: i64 = 0;
    while y < 1970
        invariant
            1 <= y <= 1970,
            acc == days_before_year(y as int),
            0 <= acc <= 366 * (y - 1),
        decreases 1970 - y,
    {
        acc = acc + (diy_exec(y) as i64);
        y = y + 1;
    }
    let e_off: i64 = acc;
    proof {
        lemma_dby_bounds(1970);
        lemma_dby_bounds(10000);
    }
    if day > 4000000 {
        proof {
            lemma_dby_mono(1, 1970);
        }
        return None;
    }
    if day < -800000 {
        return None;
    }
    let target: i64 = day + e_off;
    if target < 0 {
        return None;
    }
    let mut y2: i32 = 1;
    let mut acc2: i64 = 0;
    while y2 < 10000 && acc2 + (diy_exec(y2) as i64) <= target
        invariant
            1 <= y2 <= 10000,
            acc2 == days_before_year(y2 as int),
            0 <= acc2 <= 366 * (y2 - 1),
            acc2 <= target,
            target == day + days_before_year(1970),
            0 <= target,
        decreases 10000 - y2,
    {
        acc2 = acc2 + (diy_exec(y2) as i64);
        y2 = y2 + 1;
    }
    if y2 == 10000 {
        return None;
    }
    let off: i64 = target - acc2;
    proof {
        assert(off < days_in_year(y2 as int));
    }
    let mut mm: u32 = 1;
    let mut macc: i64 = 0;
    while mm < 12 && macc + (dim_exec(y2, mm) as i64) <= off
        invariant
            1 <= mm <= 12,
            1 <= y2 <= 9999,
            macc == days_before_month(y2 as int, mm as int),
            0 <= macc <= off,
            off == target - acc2,
            off < days_in_year(y2 as int),
        decreases 12 - mm,
    {
        macc = macc + (dim_exec(y2, mm) as i64);
        mm = mm + 1;
    }
    proof {
        if mm == 12 {
            lemma_months_sum(y2 as int);
            assert(days_before_month(y2 as int, 13) == days_before_month(y2 as int, 12)
                + days_in_month(y2 as int, 12));
        }
        assert(off < macc + days_in_month(y2 as int, mm as int));
    }
    let dd: u32 = (off - macc + 1) as u32;
    proof {
        let dby10000 = days_before_year(10000);
        lemma_dby_mono(y2 as int + 1, 10000);
        assert(days_before_year(y2 as int + 1) == days_before_year(y2 as int) + days_in_year(
            y2 as int,
        ));
    }
    Some((y2, mm, dd))
}

/// 10^k as a 32-bit integer.
fn pow10_u32(k: u32) -> (r: u32)
    requires
        k <= 8,
    ensures
        r == crate::dec::pow10(k as nat),
        r >= 1,
{
    proof {
        assert(crate::dec::pow10(8) == 100000000) by {
            reveal_with_fuel(crate::dec::pow10, 9);
        }
    }
    let mut r: u32 = 1;
    let mut x: u32 = 0;
    while x < k
        invariant
            x <= k <= 8,
            r == crate::dec::pow10(x as nat),
            1 <= r,
        decreases k - x,
    {
        proof {
            crate::dec::lemma_pow10_add(x as nat, 1);
            crate::dec::lemma_pow10_mono((x + 1) as nat, 8);
            assert(crate::dec::pow10(8) == 100000000) by {
                reveal_with_fuel(crate::dec::pow10, 9);
            }
        }
        r = r * 10;
        x = x + 1;
    }
    r
}

/// The one-character string of a digit.
pub(crate) fn digit_str(v: u32) -> (r: &'static str)
    requires
        v < 10,
    ensures
        r@ =~= seq![digit_char(v as int)],
{
    proof {
        reveal_strlit("0");
        reveal_strlit("1");
        reveal_strlit("2");
        reveal_strlit("3");
        reveal_strlit("4");
        reveal_strlit("5");
        reveal_strlit("6");
        reveal_strlit("7");
        reveal_strlit("8");
        reveal_strlit("9");
    }
    match v {
        0 => "0",
        1 => "1",
        2 => "2",
        3 => "3",
        4 => "4",
        5 => "5",
        6 => "6",
        7 => "7",
        8 => "8",
        _ => "9",
    }
}

/// Appends `n` as exactly `w` digits, leading zeros kept.
pub(crate) fn push_pad(s: &mut String, n: u32, w: u32) -> (u: ())
    requires
        w <= 8,
        (n as int) < crate::dec::pow10(w as nat),
    ensures
        final(s)@ == old(s)@ + pad_digits(n as int, w as nat),
    decreases w,
{
    if w == 0 {
        proof {
            assert(s@ =~= s@ + pad_digits(n as int, 0));
        }
    } else {
        let p = pow10_u32(w - 1);
        let q = n / p;
        let r = n % p;
        proof {
            crate::dec::lemma_pow10_pos((w - 1) as nat);
            vstd::arithmetic::div_mod::lemma_fundamental_div_mod(n as int, p as int);
            vstd::arithmetic::div_mod::lemma_div_pos_is_pos(n as int, p as int);
            vstd::arithmetic::div_mod::lemma_mod_bound(n as int, p as int);
            assert(crate::dec::pow10(w as nat) == 10 * crate::dec::pow10((w - 1) as nat));
            assert((n as int) / (p as int) < 10) by (nonlinear_arith)
                requires
                    n as int == (p as int) * ((n as int) / (p as int)) + (n as int) % (p as int),
                    0 <= (n as int) % (p as int) < p as int,
                    (n as int) < 10 * (p as int),
                    (n as int) / (p as int) >= 0,
            ;
            assert((q as int) % 10 == q as int);
        }
        let ghost pre = s@;
        s.append(digit_str(q));
        push_pad(s, r, w - 1);
        proof {
            assert(s@ =~= pre + pad_digits(n as int, w as nat));
        }
    }
}

/// The day key of a day number: its date as `YYYYMMDD`.
pub fn day_key_of_day(day: i64) -> (r: Option<String>)
    ensures
        match r {
            Some(s) => day_in_range(day as int) && s@ == key_of_day(day as int),
            None => !day_in_range(day as int),
        },
{
    match civil_from_days(day) {
        None => None,
        Some((y, m, d)) => {
            let mut s = String::new();
            proof {
                assert(crate::dec::pow10(4) == 10000) by {
                    reveal_with_fuel(crate::dec::pow10, 5);
                }
                assert(crate::dec::pow10(2) == 100) by {
                    reveal_with_fuel(crate::dec::pow10, 3);
                }
            }
            push_pad(&mut s, y as u32, 4);
            push_pad(&mut s, m, 2);
            push_pad(&mut s, d, 2);
            proof {
                let t = (y as int, m as int, d as int);
                assert(valid_ymd(t.0, t.1, t.2) && days_from_civil(t.0, t.1, t.2) == day);
                let c = civil_of(day as int);
                assert(valid_ymd(c.0, c.1, c.2) && days_from_civil(c.0, c.1, c.2) == day);
                lemma_civil_unique(c.0, c.1, c.2, t.0, t.1, t.2);
                assert(s@ =~= key_chars(t.0, t.1, t.2));
            }
            Some(s)
        },
    }
}

/// Floor division for a positive divisor.
fn floor_div_i128(a: i128, b: i128) -> (q: i128)
    requires
        b > 0,
        a > i128::MIN,
    ensures
        q == (a as int) / (b as int),
{
    if a >= 0 {
        a / b
    } else {
        let q0 = (-a) / b;
        let r0 = (-a) % b;
        proof {
            vstd::arithmetic::div_mod::lemma_fundamental_div_mod(-a as int, b as int);
            vstd::arithmetic::div_mod::lemma_div_pos_is_pos(-a as int, b as int);
            vstd::arithmetic::div_mod::lemma_mod_bound(-a as int, b as int);
            assert((b as int) * (-(q0 as int)) == -((b as int) * (q0 as int))) by (nonlinear_arith);
            assert((b as int) * (-(q0 as int) - 1) == -((b as int) * (q0 as int)) - b)
                by (nonlinear_arith);
            if r0 == 0 {
                vstd::arithmetic::div_mod::lemma_fundamental_div_mod_converse(
                    a as int,
                    b as int,
                    -(q0 as int),
                    0,
                );
            } else {
                vstd::arithmetic::div_mod::lemma_fundamental_div_mod_converse(
                    a as int,
                    b as int,
                    -(q0 as int) - 1,
                    (b - r0) as int,
                );
            }
        }
        if r0 == 0 {
            -q0
        } else {
            -q0 - 1
        }
    }
}

/// The index of the local calendar unit (day, hour) a UTC instant
/// falls in, under a fixed offset: local time is the instant minus the
/// offset, and the index is its floor against the unit's length.
pub open spec fn local_unit_of(ts: int, offset_min: int, unit: int) -> int {
    (ts - offset_min * 60000) / unit
}

/// Computes `local_unit_of` without overflow.
pub fn local_unit_floor(ts: i64, offset_min: i64, unit: i64) -> (r: i64)
    requires
        -UTC_OFFSET_MAX <= offset_min <= UTC_OFFSET_MAX,
        unit == MS_PER_DAY || unit == MS_PER_HOUR,
    ensures
        r == local_unit_of(ts as int, offset_min as int, unit as int),
        -3000000000000 <= r <= 3000000000000,
{
    let offset_ms: i64 = offset_min * 60000;
    let local: i128 = (ts as i128) - (offset_ms as i128);
    let q = floor_div_i128(local, unit as i128);
    proof {
        let lo: int = i64::MIN - 86400000;
        let hi: int = i64::MAX + 86400000;
        assert(lo <= local as int <= hi);
        if unit == MS_PER_DAY {
            vstd::arithmetic::div_mod::lemma_div_is_ordered(local as int, hi, 86400000);
            vstd::arithmetic::div_mod::lemma_div_is_ordered(lo, local as int, 86400000);
        } else {
            vstd::arithmetic::div_mod::lemma_div_is_ordered(local as int, hi, 3600000);
            vstd::arithmetic::div_mod::lemma_div_is_ordered(lo, local as int, 3600000);
        }
    }
    q as i64
}

} // verus!
