//! Offline ISO 8601 date/time parsing to UTC epoch milliseconds.
//!
//! Accepted shapes (`/` may replace `-` as the date separator):
//!
//! - `2026-07-01`
//! - `2026-07-01T14:30`, `2026-07-01 14:30:05`, `2026-07-01T14:30:05.250`
//! - any of the above with a `Z`, `+09:00`, `-0530` or `+07` offset
//!
//! Times without an offset are UTC. Fractional seconds beyond milliseconds
//! are truncated.

use vstd::prelude::*;
use vstd::arithmetic::power::pow;

use crate::text;

verus! {

// ---------------------------------------------------------------------------
// The calendar

/// Whether `y` is a leap year of the Gregorian calendar.
pub open spec fn leap(y: int) -> bool {
    (y % 4 == 0 && y % 100 != 0) || y % 400 == 0
}

/// How many days year `y` has.
pub open spec fn year_length(y: int) -> int {
    if leap(y) {
        366
    } else {
        365
    }
}

/// How many days month `m` of year `y` has.
pub open spec fn month_length(y: int, m: int) -> int {
    if m == 2 {
        if leap(y) {
            29
        } else {
            28
        }
    } else if m == 4 || m == 6 || m == 9 || m == 11 {
        30
    } else {
        31
    }
}

/// Whether there is such a day.
pub open spec fn valid_date(y: int, m: int, d: int) -> bool {
    1 <= m <= 12 && 1 <= d <= month_length(y, m)
}

/// The days of the years from 0 up to, not with, `y`.
pub open spec fn days_to_year(y: int) -> int
    decreases y,
{
    if y <= 0 {
        0
    } else {
        days_to_year(y - 1) + year_length(y - 1)
    }
}

/// The days of the months of year `y` before month `m`.
pub open spec fn days_to_month(y: int, m: int) -> int
    decreases m,
{
    if m <= 1 {
        0
    } else {
        days_to_month(y, m - 1) + month_length(y, m - 1)
    }
}

/// The days from the first day of year 0 to the given day.
pub open spec fn day_number(y: int, m: int, d: int) -> int {
    days_to_year(y) + days_to_month(y, m) + d - 1
}

/// The days from 1970-01-01 to the given day.
pub open spec fn epoch_day(y: int, m: int, d: int) -> int {
    day_number(y, m, d) - day_number(1970, 1, 1)
}

proof fn lemma_days_to_year(y: int)
    requires
        y >= 0,
    ensures
        days_to_year(y) == 365 * y + (y + 3) / 4 - (y + 99) / 100 + (y + 399) / 400,
    decreases y,
{
    if y > 0 {
        lemma_days_to_year(y - 1);
    }
}

proof fn lemma_days_to_month(y: int, m: int)
    requires
        1 <= m <= 12,
    ensures
        days_to_month(y, m) == (if m <= 2 {
            31 * (m - 1)
        } else {
            (153 * (m - 3) + 2) / 5 + 59 + (if leap(y) {
                1int
            } else {
                0
            })
        }),
{
    reveal_with_fuel(days_to_month, 13);
}

proof fn lemma_leaps(y: int)
    requires
        y >= 0,
    ensures
        (y + 3) / 4 - (y + 99) / 100 + (y + 399) / 400 == y / 4 - y / 100 + y / 400 + (if leap(y) {
            0int
        } else {
            1
        }),
{
    assert((y + 3) / 4 == y / 4 + (if y % 4 == 0 {
        0int
    } else {
        1
    }));
    assert((y + 99) / 100 == y / 100 + (if y % 100 == 0 {
        0int
    } else {
        1
    }));
    assert((y + 399) / 400 == y / 400 + (if y % 400 == 0 {
        0int
    } else {
        1
    }));
    assert(y % 400 == 0 ==> y % 100 == 0);
    assert(y % 100 == 0 ==> y % 4 == 0);
}

/// The days of `s` years, counted by cycles of 400.
proof fn lemma_cycles(s: int)
    requires
        s >= 0,
    ensures
        (s / 400) * 146_097 + (s % 400) * 365 + (s % 400) / 4 - (s % 400) / 100 == 365 * s + s / 4
            - s / 100 + s / 400,
{
    let era = s / 400;
    let yoe = s % 400;
    assert(s == 400 * era + yoe);
    assert(s / 4 == 100 * era + yoe / 4);
    assert(s / 100 == 4 * era + yoe / 100);
}

/// Whether `y` is a leap year.
fn is_leap_year(y: i64) -> (r: bool)
    requires
        y >= 0,
    ensures
        r == leap(y as int),
{
    (y % 4 == 0 && y % 100 != 0) || y % 400 == 0
}

/// How many days month `m` of year `y` has.
fn days_in_month(y: i64, m: u32) -> (r: i64)
    requires
        y >= 0,
        1 <= m <= 12,
    ensures
        r == month_length(y as int, m as int),
{
    if m == 2 {
        if is_leap_year(y) {
            29
        } else {
            28
        }
    } else if m == 4 || m == 6 || m == 9 || m == 11 {
        30
    } else {
        31
    }
}

/// Days since 1970-01-01 for a Gregorian date, counted in years that start
/// in March.
pub fn days_from_civil(y: i64, m: u32, d: u32) -> (r: i64)
    requires
        0 <= y <= 9999,
        valid_date(y as int, m as int, d as int),
    ensures
        r == epoch_day(y as int, m as int, d as int),
        ({
            let (y2, m2, d2) = next_day(y as int, m as int, d as int);
            epoch_day(y2, m2, d2) == r + 1
        }),
        -800_000 <= r <= 4_000_000,
{
    // One full cycle of 400 years ahead, so that the year is not negative.
    let shifted: u64 = if m <= 2 {
        (y + 399) as u64
    } else {
        (y + 400) as u64
    };
    let era: u64 = shifted / 400;
    let yoe: u64 = shifted % 400;
    let mp: u64 = ((m + 9) % 12) as u64;
    let doy: u64 = (153 * mp + 2) / 5 + d as u64 - 1;
    let doe: u64 = yoe * 365 + yoe / 4 - yoe / 100 + doy;
    proof {
        lemma_cycles(shifted as int);
        lemma_leaps(y as int);
        if m <= 2 {
            assert((y + 399) / 4 == (y + 3) / 4 + 99);
            assert((y + 399) / 100 == (y + 99) / 100 + 3);
        } else {
            assert((y + 400) / 4 == y as int / 4 + 100);
            assert((y + 400) / 100 == y as int / 100 + 4);
            assert((y + 400) / 400 == y as int / 400 + 1);
            assert(mp == m - 3);
        }
        lemma_days_to_year(y as int);
        lemma_days_to_month(y as int, m as int);
        lemma_days_to_year(1970);
        lemma_days_to_month(1970, 1);
        law_next_day_has_the_next_number(y as int, m as int, d as int);
    }
    era as i64 * 146_097 + doe as i64 - 719_468 - 146_097
}

// ---------------------------------------------------------------------------
// The notation

/// The number written by the `n` digits at `i`.
pub open spec fn number_at(s: Seq<char>, i: int, n: int) -> Option<int> {
    if 0 <= i && i + n <= s.len() && text::all_digits(s.subrange(i, i + n)) {
        Some(text::decimal(s.subrange(i, i + n)) as int)
    } else {
        None
    }
}

/// The year, month and day at the start of `s`: four, two and two digits,
/// with two dashes or two slashes between.
pub open spec fn date_part(s: Seq<char>) -> Option<(int, int, int)> {
    match (number_at(s, 0, 4), number_at(s, 5, 2), number_at(s, 8, 2)) {
        (Some(y), Some(m), Some(d)) => if (text::stands(s, 4, '-') && text::stands(s, 7, '-')) || (text::stands(
            s,
            4,
            '/',
        ) && text::stands(s, 7, '/')) {
            Some((y, m, d))
        } else {
            None
        },
        _ => None,
    }
}

/// The hour, minute and second at `i`, and where they end: `14:30` or
/// `14:30:05`.
pub open spec fn clock(s: Seq<char>, i: int) -> Option<(int, int, int, int)> {
    match (number_at(s, i, 2), number_at(s, i + 3, 2)) {
        (Some(h), Some(m)) => if !text::stands(s, i + 2, ':') {
            None
        } else if text::stands(s, i + 5, ':') {
            match number_at(s, i + 6, 2) {
                Some(sec) => Some((h, m, sec, i + 8)),
                None => None,
            }
        } else {
            Some((h, m, 0, i + 5))
        },
        _ => None,
    }
}

/// The milliseconds that the digits after a point write: the first three
/// count, those that are not there are zeros.
pub open spec fn millis_of(f: Seq<char>) -> int {
    if f.len() >= 3 {
        text::decimal(f.take(3)) as int
    } else {
        text::decimal(f) as int * pow(10, (3 - f.len()) as nat)
    }
}

/// The milliseconds at `i`, and where they end: none, or a point and one to
/// nine digits.
pub open spec fn fraction(s: Seq<char>, i: int) -> Option<(int, int)> {
    if text::stands(s, i, '.') {
        let j = text::digits_end(s, i + 1);
        if 1 <= j - (i + 1) <= 9 {
            Some((millis_of(s.subrange(i + 1, j)), j))
        } else {
            None
        }
    } else {
        Some((0, i))
    }
}

/// The minutes east of UTC that `o` writes: nothing or `Z` for none, else a
/// sign with `HH`, `HHMM` or `HH:MM`.
pub open spec fn offset(o: Seq<char>) -> Option<int> {
    if o.len() == 0 {
        Some(0)
    } else if o[0] == 'Z' || o[0] == 'z' {
        if o.len() == 1 {
            Some(0)
        } else {
            None
        }
    } else if o[0] == '+' || o[0] == '-' {
        let hours = number_at(o, 1, 2);
        let minutes = if o.len() == 3 {
            Some(0)
        } else if text::stands(o, 3, ':') && o.len() == 6 {
            number_at(o, 4, 2)
        } else if o.len() == 5 {
            number_at(o, 3, 2)
        } else {
            None
        };
        match (hours, minutes) {
            (Some(h), Some(m)) => if h > 23 || m > 59 {
                None
            } else if o[0] == '-' {
                Some(-(h * 60 + m))
            } else {
                Some(h * 60 + m)
            },
            _ => None,
        }
    } else {
        None
    }
}

/// What is wrong with a text that is no date.
pub open spec fn no_date(s: Seq<char>) -> Seq<char> {
    "cannot parse "@ + text::shown_text(s) + " as a date"@
}

/// The milliseconds of the local time that `s` begins with, from
/// 1970-01-01T00:00, and where it ends.
pub open spec fn local_time(s: Seq<char>) -> Result<(int, int), Seq<char>> {
    match date_part(s) {
        None => Err(no_date(s)),
        Some((y, m, d)) => if !valid_date(y, m, d) {
            Err(text::shown_text(s) + " is not a valid calendar date"@)
        } else if text::stands(s, 10, 'T') || text::stands(s, 10, ' ') {
            match clock(s, 11) {
                None => Err(no_date(s)),
                Some((h, min, sec, i)) => if h > 23 || min > 59 || sec > 59 {
                    Err(text::shown_text(s) + " has an out-of-range time"@)
                } else {
                    match fraction(s, i) {
                        None => Err(no_date(s)),
                        Some((ms, j)) => Ok(
                            (
                                epoch_day(y, m, d) * 86_400_000 + (h * 3600 + min * 60 + sec) * 1000
                                    + ms,
                                j,
                            ),
                        ),
                    }
                },
            }
        } else {
            Ok((epoch_day(y, m, d) * 86_400_000, 10))
        },
    }
}

/// The UTC epoch milliseconds that `s` writes.
pub open spec fn instant(s: Seq<char>) -> Result<int, Seq<char>> {
    match local_time(s) {
        Err(e) => Err(e),
        Ok((local, i)) => match offset(s.skip(i)) {
            None => Err(no_date(s)),
            Some(minutes) => Ok(local - minutes * 60_000),
        },
    }
}

// ---------------------------------------------------------------------------
// Reading it

/// The number written by the `n` digits at `i`.
fn digits(cs: &[char], i: usize, n: usize) -> (r: Option<i64>)
    requires
        n <= 4,
    ensures
        match (r, number_at(cs@, i as int, n as int)) {
            (Some(a), Some(b)) => a == b && 0 <= a <= 9999 && (n == 2 ==> a <= 99) && i + n
                <= cs@.len(),
            (None, None) => true,
            _ => false,
        },
{
    let len: usize = cs.len();
    if n > len || i > len - n {
        return None;
    }
    let ghost part = cs@.subrange(i as int, i + n);
    let mut v: i64 = 0;
    let mut k: usize = 0;
    assert(part.take(0) =~= Seq::<char>::empty());
    while k < n
        invariant
            k <= n <= 4,
            i + n <= len,
            len == cs@.len(),
            part == cs@.subrange(i as int, i + n),
            v == text::decimal(part.take(k as int)),
            0 <= v,
            k == 0 ==> v == 0,
            k == 1 ==> v <= 9,
            k == 2 ==> v <= 99,
            k == 3 ==> v <= 999,
            k == 4 ==> v <= 9999,
            forall|j: int| 0 <= j < k ==> text::is_digit(#[trigger] part[j]),
        decreases n - k,
    {
        assert(part[k as int] == cs@[i + k]);
        if !text::digit(cs[i + k]) {
            return None;
        }
        assert(part.take(k + 1).drop_last() =~= part.take(k as int));
        v = v * 10 + text::digit_of(cs[i + k]) as i64;
        k += 1;
    }
    assert(part.take(n as int) =~= part);
    Some(v)
}

/// Whether `c` stands at `i`.
fn at(cs: &[char], i: usize, c: char) -> (r: bool)
    ensures
        r == text::stands(cs@, i as int, c),
{
    i < cs.len() && cs[i] == c
}

/// The milliseconds at `i` and where they end.
fn frac_millis(cs: &[char], i: usize) -> (r: Option<(i64, usize)>)
    requires
        i <= cs@.len(),
    ensures
        match (r, fraction(cs@, i as int)) {
            (Some((a, j)), Some((b, k))) => a == b && j == k && j <= cs@.len() && 0 <= a <= 999,
            (None, None) => true,
            _ => false,
        },
{
    if !at(cs, i, '.') {
        return Some((0, i));
    }
    let len: usize = cs.len();
    assert(i < len);
    let mut ms: i64 = 0;
    let mut j: usize = i + 1;
    let ghost s = cs@;
    assert(s.subrange(i + 1, i + 1) =~= Seq::<char>::empty());
    while j < cs.len() && text::digit(cs[j])
        invariant
            s == cs@,
            i + 1 <= j <= s.len(),
            text::digits_end(s, i + 1) == text::digits_end(s, j as int),
            j - (i + 1) <= 3 ==> ms == text::decimal(s.subrange(i + 1, j as int)),
            j - (i + 1) >= 3 ==> ms == text::decimal(s.subrange(i + 1, i + 4)),
            0 <= ms,
            j == i + 1 ==> ms == 0,
            j == i + 2 ==> ms <= 9,
            j == i + 3 ==> ms <= 99,
            ms <= 999,
        decreases s.len() - j,
    {
        if j - (i + 1) < 3 {
            proof {
                let part = s.subrange(i + 1, j + 1);
                assert(part.drop_last() =~= s.subrange(i + 1, j as int));
            }
            ms = ms * 10 + text::digit_of(cs[j]) as i64;
        }
        j += 1;
    }
    let count: usize = j - (i + 1);
    if count == 0 || count > 9 {
        return None;
    }
    let ghost f = s.subrange(i + 1, j as int);
    proof {
        vstd::arithmetic::power::lemma_pow1(10);
        vstd::arithmetic::power::lemma_pow_adds(10, 1, 1);
        if count >= 3 {
            assert(f.take(3) =~= s.subrange(i + 1, i + 4));
        }
    }
    if count == 1 {
        ms = ms * 100;
    } else if count == 2 {
        ms = ms * 10;
    }
    Some((ms, j))
}

/// The minutes east of UTC that the text from `i` on writes.
fn offset_minutes(cs: &[char], i: usize) -> (r: Option<i64>)
    requires
        i <= cs@.len(),
    ensures
        match (r, offset(cs@.skip(i as int))) {
            (Some(a), Some(b)) => a == b && -1440 < a < 1440,
            (None, None) => true,
            _ => false,
        },
{
    let o = vstd::slice::slice_subrange(cs, i, cs.len());
    assert(o@ =~= cs@.skip(i as int));
    if o.len() == 0 {
        return Some(0);
    }
    let sign = o[0];
    if sign == 'Z' || sign == 'z' {
        return if o.len() == 1 {
            Some(0)
        } else {
            None
        };
    }
    if sign != '+' && sign != '-' {
        return None;
    }
    let hours = digits(o, 1, 2);
    let minutes = if o.len() == 3 {
        Some(0)
    } else if at(o, 3, ':') && o.len() == 6 {
        digits(o, 4, 2)
    } else if o.len() == 5 {
        digits(o, 3, 2)
    } else {
        None
    };
    match (hours, minutes) {
        (Some(h), Some(m)) => if h > 23 || m > 59 {
            None
        } else if sign == '-' {
            Some(-(h * 60 + m))
        } else {
            Some(h * 60 + m)
        },
        _ => None,
    }
}

/// What is wrong with a text that is no date.
fn cannot_parse(text: &str) -> (r: String)
    ensures
        r@ == no_date(text@),
{
    text::join3("cannot parse ", text::shown(text).as_str(), " as a date")
}

/// Parse a date or date-time string to UTC epoch milliseconds.
pub fn parse_datetime(text: &str) -> (r: Result<i64, String>)
    ensures
        match (r, instant(text@)) {
            (Ok(a), Ok(b)) => a == b,
            (Err(a), Err(b)) => a@ == b,
            _ => false,
        },
{
    let cs = text::chars_of(text);
    let (y, m, d) = match (digits(&cs, 0, 4), digits(&cs, 5, 2), digits(&cs, 8, 2)) {
        (Some(y), Some(m), Some(d)) => (y, m, d),
        _ => {
            return Err(cannot_parse(text));
        },
    };
    let dashes = at(&cs, 4, '-') && at(&cs, 7, '-');
    let slashes = at(&cs, 4, '/') && at(&cs, 7, '/');
    if !dashes && !slashes {
        return Err(cannot_parse(text));
    }
    if m < 1 || m > 12 || d < 1 || d > days_in_month(y, m as u32) {
        return Err(text::join2(text::shown(text).as_str(), " is not a valid calendar date"));
    }
    let mut millis: i64 = days_from_civil(y, m as u32, d as u32) * 86_400_000;
    let mut i: usize = 10;
    if at(&cs, 10, 'T') || at(&cs, 10, ' ') {
        let (hour, minute) = match (digits(&cs, 11, 2), digits(&cs, 14, 2)) {
            (Some(h), Some(min)) => (h, min),
            _ => {
                return Err(cannot_parse(text));
            },
        };
        if !at(&cs, 13, ':') {
            return Err(cannot_parse(text));
        }
        let mut second: i64 = 0;
        i = 16;
        if at(&cs, 16, ':') {
            second = match digits(&cs, 17, 2) {
                Some(sec) => sec,
                None => {
                    return Err(cannot_parse(text));
                },
            };
            i = 19;
        }
        if hour > 23 || minute > 59 || second > 59 {
            return Err(text::join2(text::shown(text).as_str(), " has an out-of-range time"));
        }
        millis += (hour * 3600 + minute * 60 + second) * 1000;
        match frac_millis(&cs, i) {
            Some((ms, j)) => {
                millis += ms;
                i = j;
            },
            None => {
                return Err(cannot_parse(text));
            },
        }
    }
    match offset_minutes(&cs, i) {
        Some(minutes) => Ok(millis - minutes * 60_000),
        None => Err(cannot_parse(text)),
    }
}

// ---------------------------------------------------------------------------
// Laws

proof fn lemma_number_at(a: Seq<char>, b: Seq<char>, i: int, n: int)
    requires
        0 <= i,
        0 <= n,
        i + n <= a.len(),
        i + n <= b.len(),
        forall|k: int| i <= k < i + n ==> a[k] == b[k],
    ensures
        number_at(a, i, n) == number_at(b, i, n),
{
    assert(a.subrange(i, i + n) =~= b.subrange(i, i + n));
}

proof fn lemma_digits_end_shared(a: Seq<char>, b: Seq<char>, i: int, n: int)
    requires
        0 <= i <= n,
        n < a.len(),
        n < b.len(),
        forall|k: int| 0 <= k < n ==> a[k] == b[k],
        !text::is_digit(b[n]),
        text::digits_end(a, i) == n,
    ensures
        text::digits_end(b, i) == n,
    decreases n - i,
{
    if i < n {
        text::lemma_digits_end(a, i);
        assert(text::is_digit(a[i]));
        lemma_digits_end_shared(a, b, i + 1, n);
    }
}

proof fn lemma_local_time_shared(a: Seq<char>, b: Seq<char>, n: int)
    requires
        n < a.len(),
        n < b.len(),
        forall|k: int| 0 <= k < n ==> a[k] == b[k],
        b[n] == 'Z' || b[n] == 'z' || b[n] == '+' || b[n] == '-',
        local_time(a) is Ok,
        local_time(a)->Ok_0.1 == n,
    ensures
        local_time(b) == local_time(a),
{
    if text::stands(a, 10, 'T') || text::stands(a, 10, ' ') {
        let (h, min, sec, i) = clock(a, 11)->Some_0;
        if text::stands(a, i, '.') {
            text::lemma_digits_end(a, i + 1);
            lemma_digits_end_shared(a, b, i + 1, n);
            assert(a.subrange(i + 1, n) =~= b.subrange(i + 1, n));
        }
        assert(i <= n);
        lemma_number_at(a, b, 11, 2);
        lemma_number_at(a, b, 14, 2);
        if i == 19 {
            lemma_number_at(a, b, 17, 2);
        }
    }
    lemma_number_at(a, b, 0, 4);
    lemma_number_at(a, b, 5, 2);
    lemma_number_at(a, b, 8, 2);
}

/// An offset that ends in `Z` is nothing but that letter.
proof fn lemma_zulu(time: Seq<char>)
    requires
        instant(time.push('Z')) is Ok,
    ensures
        local_time(time.push('Z')) is Ok,
        local_time(time.push('Z'))->Ok_0.1 == time.len(),
        time.len() >= 10,
{
    let a = time.push('Z');
    let i = local_time(a)->Ok_0.1;
    lemma_local_end(a);
    let o = a.skip(i);
    if i == a.len() {
        lemma_local_end_digit(a);
    } else {
        assert(o.last() == 'Z');
        if o[0] == '+' || o[0] == '-' {
            if o.len() == 3 {
                assert(o.subrange(1, 3)[1] == 'Z');
            } else if o.len() == 6 {
                assert(o.subrange(4, 6)[1] == 'Z');
            } else if o.len() == 5 {
                assert(o.subrange(3, 5)[1] == 'Z');
            }
        }
    }
}

/// Offsets normalize to the same instant: a time with an offset is that many
/// minutes before the same time in UTC.
pub proof fn law_offsets_normalize(time: Seq<char>, zone: Seq<char>)
    requires
        instant(time.push('Z')) is Ok,
        zone.len() > 0,
        offset(zone) is Some,
    ensures
        instant(time + zone) == Ok::<int, Seq<char>>(
            instant(time.push('Z'))->Ok_0 - offset(zone)->Some_0 * 60_000,
        ),
{
    let a = time.push('Z');
    let b = time + zone;
    let n = time.len() as int;
    lemma_zulu(time);
    lemma_local_time_shared(a, b, n);
    assert(a.skip(n) =~= seq!['Z']);
    assert(b.skip(n) =~= zone);
}

proof fn lemma_local_end(s: Seq<char>)
    requires
        local_time(s) is Ok,
    ensures
        10 <= local_time(s)->Ok_0.1 <= s.len(),
{
    if text::stands(s, 10, 'T') || text::stands(s, 10, ' ') {
        let (h, min, sec, i) = clock(s, 11)->Some_0;
        if text::stands(s, i, '.') {
            text::lemma_digits_end(s, i + 1);
        }
    }
}

proof fn lemma_local_end_digit(s: Seq<char>)
    requires
        local_time(s) is Ok,
    ensures
        text::is_digit(s[local_time(s)->Ok_0.1 - 1]),
{
    if text::stands(s, 10, 'T') || text::stands(s, 10, ' ') {
        let (h, min, sec, i) = clock(s, 11)->Some_0;
        if text::stands(s, i, '.') {
            text::lemma_digits_end(s, i + 1);
        } else if i == 16 {
            assert(s.subrange(14, 16)[1] == s[15]);
        } else {
            assert(s.subrange(17, 19)[1] == s[18]);
        }
    } else {
        assert(s.subrange(8, 10)[1] == s[9]);
    }
}

/// A date written with slashes is the same instant as with dashes.
pub proof fn law_slashes_are_dashes(s: Seq<char>)
    requires
        instant(s) is Ok,
    ensures
        instant(s.update(4, '/').update(7, '/')) == instant(s),
        instant(s.update(4, '-').update(7, '-')) == instant(s),
{
    lemma_local_end(s);
    let a = s.update(4, '/').update(7, '/');
    let b = s.update(4, '-').update(7, '-');
    lemma_separators(s, a);
    lemma_separators(s, b);
}

proof fn lemma_separators(s: Seq<char>, a: Seq<char>)
    requires
        instant(s) is Ok,
        s.len() >= 10,
        a.len() == s.len(),
        forall|k: int| 0 <= k < s.len() && k != 4 && k != 7 ==> s[k] == a[k],
        (a[4] == '-' && a[7] == '-') || (a[4] == '/' && a[7] == '/'),
    ensures
        instant(a) == instant(s),
{
    lemma_number_at(s, a, 0, 4);
    lemma_number_at(s, a, 5, 2);
    lemma_number_at(s, a, 8, 2);
    if s.len() >= 13 {
        lemma_number_at(s, a, 11, 2);
    }
    if s.len() >= 16 {
        lemma_number_at(s, a, 14, 2);
    }
    if s.len() >= 19 {
        lemma_number_at(s, a, 17, 2);
    }
    if text::stands(s, 10, 'T') || text::stands(s, 10, ' ') {
        let (h, min, sec, i) = clock(s, 11)->Some_0;
        if text::stands(s, i, '.') {
            lemma_digits_end_beyond(s, a, i + 1);
            let j = text::digits_end(s, i + 1);
            text::lemma_digits_end(s, i + 1);
            assert(s.subrange(i + 1, j) =~= a.subrange(i + 1, j));
        }
    }
    lemma_local_end(s);
    let i = local_time(s)->Ok_0.1;
    assert(local_time(a) == local_time(s));
    assert(a.skip(i) =~= s.skip(i));
}

proof fn lemma_digits_end_beyond(s: Seq<char>, a: Seq<char>, i: int)
    requires
        10 <= i <= s.len(),
        a.len() == s.len(),
        forall|k: int| 10 <= k < s.len() ==> s[k] == a[k],
    ensures
        text::digits_end(s, i) == text::digits_end(a, i),
    decreases s.len() - i,
{
    if i < s.len() && text::is_digit(s[i]) {
        lemma_digits_end_beyond(s, a, i + 1);
    }
}

/// A time without an offset is in UTC, as with `Z`.
pub proof fn law_no_offset_is_utc(time: Seq<char>)
    requires
        instant(time.push('Z')) is Ok,
    ensures
        instant(time) == instant(time.push('Z')),
{
    let a = time.push('Z');
    let n = time.len() as int;
    lemma_zulu(time);
    lemma_number_at(a, time, 0, 4);
    lemma_number_at(a, time, 5, 2);
    lemma_number_at(a, time, 8, 2);
    if text::stands(a, 10, 'T') || text::stands(a, 10, ' ') {
        let (h, min, sec, k) = clock(a, 11)->Some_0;
        if text::stands(a, k, '.') {
            text::lemma_digits_end(a, k + 1);
            lemma_digits_end_short(a, time, k + 1);
            assert(a.subrange(k + 1, n) =~= time.subrange(k + 1, n));
        }
        lemma_number_at(a, time, 11, 2);
        lemma_number_at(a, time, 14, 2);
        if k == 19 {
            lemma_number_at(a, time, 17, 2);
        }
    }
    assert(local_time(time) == local_time(a));
    assert(time.skip(n) =~= Seq::<char>::empty());
    assert(a.skip(n) =~= seq!['Z']);
}

proof fn lemma_digits_end_short(a: Seq<char>, s: Seq<char>, i: int)
    requires
        0 <= i <= s.len(),
        a == s.push('Z'),
    ensures
        text::digits_end(s, i) == text::digits_end(a, i),
    decreases s.len() - i,
{
    if i < s.len() && text::is_digit(s[i]) {
        lemma_digits_end_short(a, s, i + 1);
    }
}

proof fn lemma_years_grow(y: int, z: int)
    requires
        0 <= y <= z,
    ensures
        days_to_year(y) + 365 * (z - y) <= days_to_year(z),
        y < z ==> days_to_year(y) + year_length(y) <= days_to_year(z),
    decreases z - y,
{
    if y < z {
        lemma_years_grow(y, z - 1);
    }
}

/// Days order chronologically: an earlier day has a smaller number.
pub proof fn law_days_are_chronological(y: int, m: int, d: int, y2: int, m2: int, d2: int)
    requires
        0 <= y,
        0 <= y2,
        valid_date(y, m, d),
        valid_date(y2, m2, d2),
        y < y2 || (y == y2 && (m < m2 || (m == m2 && d < d2))),
    ensures
        epoch_day(y, m, d) < epoch_day(y2, m2, d2),
{
    lemma_days_to_month(y, m);
    lemma_days_to_month(y2, m2);
    if y < y2 {
        lemma_years_grow(y, y2);
    }
}

/// The calendar day after the given one.
pub open spec fn next_day(y: int, m: int, d: int) -> (int, int, int) {
    if d < month_length(y, m) {
        (y, m, d + 1)
    } else if m < 12 {
        (y, m + 1, 1)
    } else {
        (y + 1, 1, 1)
    }
}

/// Days are counted one by one from 1970-01-01, which is day 0: the calendar
/// day after a date has the next number.
pub proof fn law_next_day_has_the_next_number(y: int, m: int, d: int)
    requires
        0 <= y,
        valid_date(y, m, d),
    ensures
        ({
            let (y2, m2, d2) = next_day(y, m, d);
            valid_date(y2, m2, d2) && epoch_day(y2, m2, d2) == epoch_day(y, m, d) + 1
        }),
        epoch_day(1970, 1, 1) == 0,
{
    if m == 12 {
        lemma_days_to_month(y, 12);
    }
}

} // verus!
