//! What the small notations mean: digits, white space, letter case, dates and
//! numbers, each told by how it is written down.

use vstd::prelude::*;

use crate::datetime;
use crate::text;

verus! {

// ---------------------------------------------------------------------------
// Digits

/// The digit for `n`, where `n` is below ten.
pub open spec fn figure(n: nat) -> char {
    seq!['0', '1', '2', '3', '4', '5', '6', '7', '8', '9'][n as int]
}

/// The `w` last decimal digits of `n`.
pub open spec fn figures(n: nat, w: nat) -> Seq<char>
    decreases w,
{
    if w == 0 {
        Seq::empty()
    } else {
        figures(n / 10, (w - 1) as nat).push(figure(n % 10))
    }
}

/// `10^w`.
pub open spec fn tens(w: nat) -> nat
    decreases w,
{
    if w == 0 {
        1
    } else {
        10 * tens((w - 1) as nat)
    }
}

/// A number below `10^w`, written with `w` digits, is read as that number.
pub proof fn law_digits_mean_their_number(n: nat, w: nat)
    requires
        n < tens(w),
    ensures
        figures(n, w).len() == w,
        text::all_digits(figures(n, w)),
        text::decimal(figures(n, w)) == n,
    decreases w,
{
    if w > 0 {
        law_digits_mean_their_number(n / 10, (w - 1) as nat);
        let s = figures(n, w);
        assert(s.drop_last() =~= figures(n / 10, (w - 1) as nat));
        assert(s.last() == figure(n % 10));
        assert forall|i: int| 0 <= i < s.len() implies text::is_digit(#[trigger] s[i]) by {
            if i < w - 1 {
                assert(s[i] == figures(n / 10, (w - 1) as nat)[i]);
            }
        }
    }
}

/// Only the ten digits are digits: a text of digits is the digits of the
/// number it is read as.
pub proof fn law_digits_are_figures(s: Seq<char>)
    requires
        text::all_digits(s),
    ensures
        figures(text::decimal(s), s.len()) == s,
        text::decimal(s) < tens(s.len()),
    decreases s.len(),
{
    if s.len() > 0 {
        let init = s.drop_last();
        assert forall|i: int| 0 <= i < init.len() implies text::is_digit(#[trigger] init[i]) by {
            assert(s[i] == init[i]);
        }
        law_digits_are_figures(init);
        let c = s.last();
        assert(text::is_digit(s[s.len() - 1]));
        let d = text::digit_value(c);
        lemma_figure(c);
        let n = text::decimal(s);
        assert(n / 10 == text::decimal(init) && n % 10 == d);
        assert(figures(n, s.len()) =~= s);
    }
}

proof fn lemma_figure(c: char)
    requires
        text::is_digit(c),
    ensures
        text::digit_value(c) < 10,
        figure(text::digit_value(c)) == c,
{
    let n = c as u32;
    assert(48 <= n <= 57);
    if n == 48 {
    } else if n == 49 {
    } else if n == 50 {
    } else if n == 51 {
    } else if n == 52 {
    } else if n == 53 {
    } else if n == 54 {
    } else if n == 55 {
    } else if n == 56 {
    } else {
        assert(n == 57);
    }
}

/// The notation of a number is the digits it is read from: no more than it
/// needs, and none of them another sign.
pub proof fn law_numbers_are_written_plainly(n: nat)
    ensures
        text::decimal_text(n).len() > 0,
        text::decimal_text(n) == figures(n, text::decimal_text(n).len()),
        n < tens(text::decimal_text(n).len()),
        text::decimal_text(n).len() > 1 ==> n >= tens((text::decimal_text(n).len() - 1) as nat),
    decreases n,
{
    let s = text::decimal_text(n);
    lemma_digit_char(n % 10);
    if n < 10 {
        reveal_with_fuel(figures, 2);
        reveal_with_fuel(tens, 3);
        assert(s =~= figures(n, 1));
    } else {
        law_numbers_are_written_plainly(n / 10);
        let w = text::decimal_text(n / 10).len();
        assert(s.drop_last() =~= text::decimal_text(n / 10));
        assert(s =~= figures(n, w + 1));
        assert(tens(w + 1) == 10 * tens(w));
        reveal_with_fuel(tens, 2);
    }
}

proof fn lemma_digit_char(n: nat)
    requires
        n < 10,
    ensures
        text::digit_char(n) == figure(n),
{
    if n == 0 {
    } else if n == 1 {
    } else if n == 2 {
    } else if n == 3 {
    } else if n == 4 {
    } else if n == 5 {
    } else if n == 6 {
    } else if n == 7 {
    } else if n == 8 {
    } else {
        assert(n == 9);
    }
}

/// What is written for a number reads back as it, with or without a plus
/// sign in front where one may stand, and only up to the limit.
pub proof fn law_written_numbers_read_back(n: nat, max: nat)
    ensures
        text::digits_only(text::decimal_text(n), max) == (if n <= max {
            Some(n)
        } else {
            None
        }),
        text::unsigned(text::decimal_text(n), max) == (if n <= max {
            Some(n)
        } else {
            None
        }),
        text::unsigned(seq!['+'] + text::decimal_text(n), max) == (if n <= max {
            Some(n)
        } else {
            None
        }),
        text::digits_only(seq!['+'] + text::decimal_text(n), max) is None,
{
    let s = text::decimal_text(n);
    law_numbers_are_written_plainly(n);
    law_digits_mean_their_number(n, s.len());
    let p = seq!['+'] + s;
    assert(p.skip(1) =~= s);
    assert(text::is_digit(s[0]));
    assert(!text::is_digit(p[0]));
}

/// Whether `s` is one digit or more and nothing else.
pub open spec fn is_figures(s: Seq<char>) -> bool {
    s.len() > 0 && forall|i: int|
        0 <= i < s.len() ==> seq!['0', '1', '2', '3', '4', '5', '6', '7', '8', '9'].contains(
            #[trigger] s[i],
        )
}

/// Nothing else is a number: a text that is read as one is digits, after a
/// plus sign perhaps.
pub proof fn law_numbers_are_digits(s: Seq<char>, max: nat)
    ensures
        text::digits_only(s, max) is Some ==> is_figures(s),
        text::unsigned(s, max) is Some ==> is_figures(s) || (s[0] == '+' && is_figures(s.skip(1))),
{
    if text::digits_only(s, max) is Some {
        lemma_is_figures(s);
    }
    if text::unsigned(s, max) is Some {
        if s[0] == '+' {
            lemma_is_figures(s.skip(1));
        } else {
            lemma_is_figures(s);
        }
    }
}

proof fn lemma_is_figures(s: Seq<char>)
    requires
        s.len() > 0,
        text::all_digits(s),
    ensures
        is_figures(s),
{
    let ten = seq!['0', '1', '2', '3', '4', '5', '6', '7', '8', '9'];
    assert forall|i: int| 0 <= i < s.len() implies ten.contains(#[trigger] s[i]) by {
        assert(text::is_digit(s[i]));
        lemma_figure(s[i]);
        assert(ten[text::digit_value(s[i]) as int] == s[i]);
    }
}

// ---------------------------------------------------------------------------
// White space and case

/// White space at either end does not count, and nothing else is taken away.
pub proof fn law_trimming_takes_white_space_only(s: Seq<char>)
    ensures
        ({
            let t = text::trimmed(s);
            exists|a: int, b: int|
                {
                    &&& 0 <= a <= b <= s.len()
                    &&& t == #[trigger] s.subrange(a, b)
                    &&& forall|i: int| 0 <= i < a ==> text::is_space(#[trigger] s[i])
                    &&& forall|i: int| b <= i < s.len() ==> text::is_space(#[trigger] s[i])
                    &&& a < b ==> !text::is_space(s[a]) && !text::is_space(s[b - 1])
                }
        }),
{
    let a = lemma_trimmed_start(s);
    let u = text::trimmed_start(s);
    let n = lemma_trimmed_end(u);
    let b = a + n;
    assert(u =~= s.subrange(a, s.len() as int));
    assert(text::trimmed(s) =~= s.subrange(a, b));
    assert forall|i: int| b <= i < s.len() implies text::is_space(#[trigger] s[i]) by {
        assert(u[i - a] == s[i]);
    }
    if a < b {
        assert(u[n - 1] == s[b - 1]);
        assert(u[0] == s[a]);
    }
}

proof fn lemma_trimmed_start(s: Seq<char>) -> (a: int)
    ensures
        0 <= a <= s.len(),
        text::trimmed_start(s) == s.skip(a),
        forall|i: int| 0 <= i < a ==> text::is_space(#[trigger] s[i]),
        a < s.len() ==> !text::is_space(s[a]),
    decreases s.len(),
{
    if s.len() > 0 && text::is_space(s[0]) {
        let a = lemma_trimmed_start(s.drop_first());
        assert(s.drop_first().skip(a) =~= s.skip(a + 1));
        assert forall|i: int| 0 <= i < a + 1 implies text::is_space(#[trigger] s[i]) by {
            if i > 0 {
                assert(s.drop_first()[i - 1] == s[i]);
            }
        }
        assert(a < s.drop_first().len() ==> s.drop_first()[a] == s[a + 1]);
        a + 1
    } else {
        assert(s.skip(0) =~= s);
        0
    }
}

proof fn lemma_trimmed_end(s: Seq<char>) -> (b: int)
    ensures
        0 <= b <= s.len(),
        text::trimmed_end(s) == s.take(b),
        forall|i: int| b <= i < s.len() ==> text::is_space(#[trigger] s[i]),
        b > 0 ==> !text::is_space(s[b - 1]),
    decreases s.len(),
{
    if s.len() > 0 && text::is_space(s.last()) {
        let b = lemma_trimmed_end(s.drop_last());
        assert(s.drop_last().take(b) =~= s.take(b));
        assert forall|i: int| b <= i < s.len() implies text::is_space(#[trigger] s[i]) by {
            if i < s.len() - 1 {
                assert(s.drop_last()[i] == s[i]);
            }
        }
        b
    } else {
        assert(s.take(s.len() as int) =~= s);
        s.len() as int
    }
}

/// The white space that counts: tabs, line ends and blanks, and of the rest
/// of Unicode the characters with the property `White_Space`.
pub proof fn law_white_space(c: char)
    ensures
        text::is_space(c) <==> c == '\t' || c == '\n' || c == '\x0b' || c == '\x0c' || c == '\r'
            || c == ' ' || c == '\u{85}' || c == '\u{a0}' || c == '\u{1680}' || ('\u{2000}' <= c && c
            <= '\u{200a}') || c == '\u{2028}' || c == '\u{2029}' || c == '\u{202f}' || c
            == '\u{205f}' || c == '\u{3000}',
{
}

/// The capital letters of ASCII.
pub open spec fn capitals() -> Seq<char> {
    "ABCDEFGHIJKLMNOPQRSTUVWXYZ"@
}

/// The small letters of ASCII.
pub open spec fn smalls() -> Seq<char> {
    "abcdefghijklmnopqrstuvwxyz"@
}

/// Folding turns each capital letter of ASCII into its small one and leaves
/// every other character as it is.
pub proof fn law_folding_lowers_ascii_letters(s: Seq<char>, i: int)
    requires
        0 <= i < s.len(),
    ensures
        text::lower_text(s).len() == s.len(),
        forall|k: int|
            0 <= k < 26 && s[i] == #[trigger] capitals()[k] ==> text::lower_text(s)[i]
                == smalls()[k],
        !capitals().contains(s[i]) ==> text::lower_text(s)[i] == s[i],
{
    reveal_strlit("ABCDEFGHIJKLMNOPQRSTUVWXYZ");
    reveal_strlit("abcdefghijklmnopqrstuvwxyz");
    let c = s[i];
    lemma_lower(c);
    if !capitals().contains(c) && 'A' <= c && c <= 'Z' {
        let k = c as int - 65;
        assert(capitals()[k] as int == 65 + k);
        assert(capitals()[k] == c);
    }
    assert forall|k: int| 0 <= k < 26 && s[i] == #[trigger] capitals()[k] implies text::lower_text(
        s,
    )[i] == smalls()[k] by {
        assert(capitals()[k] as int == 65 + k);
        assert(smalls()[k] as int == 97 + k);
    }
}

proof fn lemma_lower(c: char)
    ensures
        'A' <= c && c <= 'Z' ==> text::lower_char(c) as int == c as int + 32,
        !('A' <= c && c <= 'Z') ==> text::lower_char(c) == c,
{
}

// ---------------------------------------------------------------------------
// The calendar

/// How many days a month has: thirty days hath September.
pub open spec fn month_days(y: int, m: int) -> int {
    if m == 4 || m == 6 || m == 9 || m == 11 {
        30
    } else if m == 2 {
        if y % 400 == 0 || (y % 4 == 0 && y % 100 != 0) {
            29
        } else {
            28
        }
    } else {
        31
    }
}

/// Which days there are, and how they are counted from 1970-01-01 on: the
/// days of a month one by one, a month after the days of the one before it,
/// a year after 365 days or 366.
pub proof fn law_calendar(y: int, m: int, d: int)
    requires
        0 <= y,
    ensures
        datetime::valid_date(y, m, d) <==> 1 <= m <= 12 && 1 <= d <= month_days(y, m),
        datetime::epoch_day(1970, 1, 1) == 0,
        datetime::epoch_day(y, m, d) == datetime::epoch_day(y, m, 1) + d - 1,
        1 <= m < 12 ==> datetime::epoch_day(y, m + 1, 1) == datetime::epoch_day(y, m, 1)
            + month_days(y, m),
        datetime::epoch_day(y + 1, 1, 1) == datetime::epoch_day(y, 12, 1) + 31,
        datetime::epoch_day(y + 1, 1, 1) == datetime::epoch_day(y, 1, 1) + (if y % 400 == 0 || (y
            % 4 == 0 && y % 100 != 0) {
            366int
        } else {
            365
        }),
{
    reveal_with_fuel(datetime::days_to_month, 13);
}

// ---------------------------------------------------------------------------
// Dates and times

/// A time of day as it is written: after a `T` or a blank, with or without
/// seconds and a fraction of them.
pub struct Clock {
    pub gap: char,
    pub h: nat,
    pub min: nat,
    pub sec: Option<nat>,
    pub frac: Option<Seq<char>>,
}

/// How far from UTC a time is, as it is written.
pub enum Zone {
    Bare,
    Letter(char),
    Hours { sign: char, h: nat },
    Minutes { sign: char, h: nat, min: nat, colon: bool },
}

/// A date, perhaps with a time of day, as it is written.
pub struct Moment {
    pub y: nat,
    pub m: nat,
    pub d: nat,
    pub sep: char,
    pub clock: Option<Clock>,
    pub zone: Zone,
}

/// Whether numbers have the digits they are written with, and the signs
/// between them are the ones there are.
pub open spec fn is_written(x: Moment) -> bool {
    &&& x.y < 10000 && x.m < 100 && x.d < 100
    &&& x.sep == '-' || x.sep == '/'
    &&& x.clock matches Some(c) ==> {
        &&& c.gap == 'T' || c.gap == ' '
        &&& c.h < 100 && c.min < 100
        &&& c.sec matches Some(n) ==> n < 100
        &&& c.frac matches Some(f) ==> text::all_digits(f) && 1 <= f.len() <= 9
    }
    &&& match x.zone {
        Zone::Bare => true,
        Zone::Letter(c) => c == 'Z' || c == 'z',
        Zone::Hours { sign, h } => (sign == '+' || sign == '-') && h < 100,
        Zone::Minutes { sign, h, min, .. } => (sign == '+' || sign == '-') && h < 100 && min < 100,
    }
}

/// Whether there is such a day, such a time of day and such an offset.
pub open spec fn exists_in_time(x: Moment) -> bool {
    &&& 1 <= x.m <= 12 && 1 <= x.d <= month_days(x.y as int, x.m as int)
    &&& x.clock matches Some(c) ==> {
        &&& c.h <= 23 && c.min <= 59
        &&& c.sec matches Some(n) ==> n <= 59
    }
    &&& match x.zone {
        Zone::Hours { h, .. } => h <= 23,
        Zone::Minutes { h, min, .. } => h <= 23 && min <= 59,
        _ => true,
    }
}

/// The text of a date: `2026-07-01`.
pub open spec fn date_text(x: Moment) -> Seq<char> {
    figures(x.y, 4) + seq![x.sep] + figures(x.m, 2) + seq![x.sep] + figures(x.d, 2)
}

/// The text of a time of day: `T14:30`, ` 14:30:05`, `T14:30:05.25`.
pub open spec fn clock_text(clock: Option<Clock>) -> Seq<char> {
    match clock {
        None => Seq::empty(),
        Some(c) => seq![c.gap] + figures(c.h, 2) + seq![':'] + figures(c.min, 2) + (match c.sec {
            None => Seq::empty(),
            Some(n) => seq![':'] + figures(n, 2),
        }) + (match c.frac {
            None => Seq::empty(),
            Some(f) => seq!['.'] + f,
        }),
    }
}

/// The text of an offset: nothing, `Z`, `+07`, `-0530`, `+09:00`.
pub open spec fn zone_text(zone: Zone) -> Seq<char> {
    match zone {
        Zone::Bare => Seq::empty(),
        Zone::Letter(c) => seq![c],
        Zone::Hours { sign, h } => seq![sign] + figures(h, 2),
        Zone::Minutes { sign, h, min, colon } => seq![sign] + figures(h, 2) + (if colon {
            seq![':']
        } else {
            Seq::empty()
        }) + figures(min, 2),
    }
}

/// The whole text.
pub open spec fn moment_text(x: Moment) -> Seq<char> {
    date_text(x) + clock_text(x.clock) + zone_text(x.zone)
}

/// The milliseconds of a fraction of a second: its first three digits, with
/// zeros for those that are not there.
pub open spec fn frac_millis(f: Seq<char>) -> int {
    text::decimal((f + seq!['0', '0']).take(3)) as int
}

/// The milliseconds of a day that have gone by.
pub open spec fn clock_millis(clock: Option<Clock>) -> int {
    match clock {
        None => 0,
        Some(c) => 3_600_000 * c.h + 60_000 * c.min + (match c.sec {
            None => 0,
            Some(n) => 1000 * n,
        }) + (match c.frac {
            None => 0,
            Some(f) => frac_millis(f),
        }),
    }
}

/// The minutes that a time is ahead of UTC: east is `+`.
pub open spec fn minutes_ahead(zone: Zone) -> int {
    match zone {
        Zone::Hours { sign, h } => if sign == '+' {
            60 * h as int
        } else {
            -60 * h
        },
        Zone::Minutes { sign, h, min, .. } => if sign == '+' {
            60 * h as int + min
        } else {
            -(60 * h + min)
        },
        _ => 0,
    }
}

proof fn lemma_two(n: nat)
    requires
        n < 100,
    ensures
        figures(n, 2).len() == 2,
        text::all_digits(figures(n, 2)),
        text::decimal(figures(n, 2)) == n,
{
    reveal_with_fuel(tens, 3);
    law_digits_mean_their_number(n, 2);
}

proof fn lemma_number_here(s: Seq<char>, i: int, n: nat, w: nat)
    requires
        n < tens(w),
        0 <= i && i + w <= s.len(),
        s.subrange(i, i + w) == figures(n, w),
    ensures
        datetime::number_at(s, i, w as int) == Some(n as int),
{
    law_digits_mean_their_number(n, w);
}

/// An offset means its minutes, with its sign, in each notation; and it is
/// one exactly where there are such hours and minutes.
pub proof fn law_offsets_have_their_sign(zone: Zone)
    requires
        match zone {
            Zone::Bare => true,
            Zone::Letter(c) => c == 'Z' || c == 'z',
            Zone::Hours { sign, h } => (sign == '+' || sign == '-') && h < 100,
            Zone::Minutes { sign, h, min, .. } => (sign == '+' || sign == '-') && h < 100 && min
                < 100,
        },
    ensures
        match zone {
            Zone::Hours { sign, h } => datetime::offset(zone_text(zone)) == (if h <= 23 {
                Some(minutes_ahead(zone))
            } else {
                None
            }),
            Zone::Minutes { sign, h, min, .. } => datetime::offset(zone_text(zone)) == (if h <= 23
                && min <= 59 {
                Some(minutes_ahead(zone))
            } else {
                None
            }),
            _ => datetime::offset(zone_text(zone)) == Some(0int),
        },
{
    let o = zone_text(zone);
    reveal_with_fuel(tens, 3);
    match zone {
        Zone::Bare => {},
        Zone::Letter(c) => {},
        Zone::Hours { sign, h } => {
            lemma_two(h);
            assert(o.subrange(1, 3) =~= figures(h, 2));
            lemma_number_here(o, 1, h, 2);
        },
        Zone::Minutes { sign, h, min, colon } => {
            lemma_two(h);
            lemma_two(min);
            assert(o.subrange(1, 3) =~= figures(h, 2));
            lemma_number_here(o, 1, h, 2);
            if colon {
                assert(o[3] == ':');
                assert(o.subrange(4, 6) =~= figures(min, 2));
                lemma_number_here(o, 4, min, 2);
            } else {
                assert(o.subrange(3, 5) =~= figures(min, 2));
                lemma_number_here(o, 3, min, 2);
            }
        },
    }
}

/// A zone behind a plus sign and the same one behind a minus sign are as far
/// from UTC, on either side of it.
pub proof fn law_signs_are_opposite(z: Seq<char>)
    ensures
        datetime::offset(seq!['-'] + z) == (match datetime::offset(seq!['+'] + z) {
            Some(n) => Some(-n),
            None => None,
        }),
        datetime::offset(seq!['+'] + z) matches Some(n) ==> 0 <= n < 1440,
{
    let a = seq!['-'] + z;
    let b = seq!['+'] + z;
    assert(forall|i: int, j: int|
        1 <= i <= j <= a.len() ==> #[trigger] a.subrange(i, j) =~= b.subrange(i, j));
    assert(a.subrange(1, 3) =~= b.subrange(1, 3) || a.len() < 3);
}

proof fn lemma_frac(f: Seq<char>)
    requires
        1 <= f.len() <= 9,
    ensures
        datetime::millis_of(f) == frac_millis(f),
{
    let p = (f + seq!['0', '0']).take(3);
    vstd::arithmetic::power::lemma_pow1(10);
    vstd::arithmetic::power::lemma_pow_adds(10, 1, 1);
    if f.len() >= 3 {
        assert(p =~= f.take(3));
    } else if f.len() == 2 {
        assert(p.drop_last() =~= f);
        assert(p.last() == '0');
        assert((3 - f.len()) as nat == 1);
    } else {
        let q = p.drop_last();
        assert(q.drop_last() =~= f);
        assert(p.last() == '0' && q.last() == '0');
        assert(text::decimal(q) == text::decimal(f) * 10);
        assert(text::decimal(p) == text::decimal(q) * 10);
        assert((3 - f.len()) as nat == 2);
        assert(vstd::arithmetic::power::pow(10, 2) == 100);
    }
}

proof fn lemma_digits_run(s: Seq<char>, i: int, j: int)
    requires
        0 <= i <= j <= s.len(),
        forall|k: int| i <= k < j ==> text::is_digit(#[trigger] s[k]),
        j < s.len() ==> !text::is_digit(s[j]),
    ensures
        text::digits_end(s, i) == j,
    decreases j - i,
{
    if i < j {
        assert(text::is_digit(s[i]));
        lemma_digits_run(s, i + 1, j);
    }
}

proof fn lemma_zone_start(zone: Zone)
    requires
        match zone {
            Zone::Letter(c) => c == 'Z' || c == 'z',
            Zone::Hours { sign, h } => sign == '+' || sign == '-',
            Zone::Minutes { sign, h, min, .. } => sign == '+' || sign == '-',
            _ => true,
        },
    ensures
        zone_text(zone).len() > 0 ==> {
            let c = zone_text(zone)[0];
            c == 'Z' || c == 'z' || c == '+' || c == '-'
        },
{
}

proof fn lemma_date_here(x: Moment)
    requires
        is_written(x),
    ensures
        date_text(x).len() == 10,
        datetime::date_part(moment_text(x)) == Some((x.y as int, x.m as int, x.d as int)),
{
    let s = moment_text(x);
    reveal_with_fuel(tens, 5);
    lemma_two(x.m);
    lemma_two(x.d);
    law_digits_mean_their_number(x.y, 4);
    assert(s.subrange(0, 4) =~= figures(x.y, 4));
    assert(s.subrange(5, 7) =~= figures(x.m, 2));
    assert(s.subrange(8, 10) =~= figures(x.d, 2));
    lemma_number_here(s, 0, x.y, 4);
    lemma_number_here(s, 5, x.m, 2);
    lemma_number_here(s, 8, x.d, 2);
    assert(s[4] == x.sep && s[7] == x.sep);
}

proof fn lemma_clock_here(x: Moment, c: Clock)
    requires
        is_written(x),
        x.clock == Some(c),
    ensures
        ({
            let s = moment_text(x);
            let sec = match c.sec {
                Some(n) => n as int,
                None => 0,
            };
            let end = if c.sec is Some {
                19int
            } else {
                16
            };
            &&& s.len() > 10 && s[10] == c.gap
            &&& datetime::clock(s, 11) == Some((c.h as int, c.min as int, sec, end))
            &&& datetime::fraction(s, end) == Some(
                (
                    match c.frac {
                        Some(f) => frac_millis(f),
                        None => 0,
                    },
                    10 + clock_text(x.clock).len() as int,
                ),
            )
        }),
{
    let s = moment_text(x);
    reveal_with_fuel(tens, 3);
    lemma_date_here(x);
    lemma_two(c.h);
    lemma_two(c.min);
    lemma_zone_start(x.zone);
    let ct = clock_text(x.clock);
    let z = zone_text(x.zone);
    let n = 10 + ct.len() as int;
    assert(forall|k: int| 0 <= k < ct.len() ==> #[trigger] ct[k] == s[10 + k]);
    assert(s.skip(n) =~= z);
    assert(z.len() > 0 ==> s[n] == z[0]);
    assert(s.subrange(11, 13) =~= figures(c.h, 2));
    assert(s.subrange(14, 16) =~= figures(c.min, 2));
    lemma_number_here(s, 11, c.h, 2);
    lemma_number_here(s, 14, c.min, 2);
    assert(ct[3] == ':');
    let end = if c.sec is Some {
        19int
    } else {
        16
    };
    if let Some(sec) = c.sec {
        lemma_two(sec);
        assert(ct[6] == ':');
        assert(s.subrange(17, 19) =~= figures(sec, 2));
        lemma_number_here(s, 17, sec, 2);
    } else {
        if let Some(f) = c.frac {
            assert(ct[6] == '.');
        }
    }
    if let Some(f) = c.frac {
        assert(ct[end - 10] == '.');
        assert(s.subrange(end + 1, n) =~= f);
        assert forall|k: int| end + 1 <= k < n implies text::is_digit(#[trigger] s[k]) by {
            assert(s.subrange(end + 1, n)[k - end - 1] == s[k]);
            assert(text::is_digit(f[k - end - 1]));
        }
        lemma_digits_run(s, end + 1, n);
        lemma_frac(f);
    } else {
        assert(ct.len() == end - 10);
    }
}

/// A date, with a time of day and an offset if there are any, is the instant
/// that its numbers say: the days since 1970-01-01, the time of that day, and
/// that less what the time is ahead of UTC. It is refused exactly where there
/// is no such day, time or offset.
pub proof fn law_dates_mean_their_numbers(x: Moment)
    requires
        is_written(x),
    ensures
        datetime::instant(moment_text(x)) is Ok <==> exists_in_time(x),
        exists_in_time(x) ==> datetime::instant(moment_text(x)) == Ok::<int, Seq<char>>(
            86_400_000 * datetime::epoch_day(x.y as int, x.m as int, x.d as int) + clock_millis(
                x.clock,
            ) - 60_000 * minutes_ahead(x.zone),
        ),
{
    let s = moment_text(x);
    lemma_date_here(x);
    lemma_zone_start(x.zone);
    law_offsets_have_their_sign(x.zone);
    law_calendar(x.y as int, x.m as int, x.d as int);
    let z = zone_text(x.zone);
    match x.clock {
        Some(c) => {
            lemma_clock_here(x, c);
            let n = 10 + clock_text(x.clock).len() as int;
            assert(s.skip(n) =~= z);
        },
        None => {
            assert(s =~= date_text(x) + z);
            assert(z.len() > 0 ==> s[10] == z[0]);
            assert(s.skip(10) =~= z);
        },
    }
}

proof fn lemma_number_back(s: Seq<char>, i: int, w: nat)
    requires
        datetime::number_at(s, i, w as int) is Some,
    ensures
        0 <= i && i + w <= s.len(),
        datetime::number_at(s, i, w as int)->Some_0 >= 0,
        figures(datetime::number_at(s, i, w as int)->Some_0 as nat, w) == s.subrange(i, i + w),
        datetime::number_at(s, i, w as int)->Some_0 < tens(w),
{
    law_digits_are_figures(s.subrange(i, i + w));
}

proof fn lemma_zone_back(o: Seq<char>) -> (zone: Zone)
    requires
        datetime::offset(o) is Some,
    ensures
        zone_text(zone) == o,
        match zone {
            Zone::Bare => true,
            Zone::Letter(c) => c == 'Z' || c == 'z',
            Zone::Hours { sign, h } => (sign == '+' || sign == '-') && h < 100,
            Zone::Minutes { sign, h, min, .. } => (sign == '+' || sign == '-') && h < 100 && min
                < 100,
        },
{
    reveal_with_fuel(tens, 3);
    if o.len() == 0 {
        assert(o =~= Seq::<char>::empty());
        Zone::Bare
    } else if o[0] == 'Z' || o[0] == 'z' {
        assert(o =~= seq![o[0]]);
        Zone::Letter(o[0])
    } else {
        lemma_number_back(o, 1, 2);
        let h = datetime::number_at(o, 1, 2)->Some_0 as nat;
        if o.len() == 3 {
            let zone = Zone::Hours { sign: o[0], h };
            assert(zone_text(zone) =~= o);
            zone
        } else if o.len() == 6 {
            lemma_number_back(o, 4, 2);
            let min = datetime::number_at(o, 4, 2)->Some_0 as nat;
            let zone = Zone::Minutes { sign: o[0], h, min, colon: true };
            assert(zone_text(zone) =~= o);
            zone
        } else {
            lemma_number_back(o, 3, 2);
            let min = datetime::number_at(o, 3, 2)->Some_0 as nat;
            let zone = Zone::Minutes { sign: o[0], h, min, colon: false };
            assert(zone_text(zone) =~= o);
            zone
        }
    }
}

proof fn lemma_clock_back(s: Seq<char>) -> (c: Clock)
    requires
        s.len() > 10,
        s[10] == 'T' || s[10] == ' ',
        datetime::clock(s, 11) is Some,
        datetime::fraction(s, datetime::clock(s, 11)->Some_0.3) is Some,
    ensures
        ({
            let j = datetime::fraction(s, datetime::clock(s, 11)->Some_0.3)->Some_0.1;
            &&& 10 <= j <= s.len()
            &&& clock_text(Some(c)) == s.subrange(10, j)
        }),
        c.gap == 'T' || c.gap == ' ',
        c.h < 100 && c.min < 100,
        c.sec matches Some(n) ==> n < 100,
        c.frac matches Some(f) ==> text::all_digits(f) && 1 <= f.len() <= 9,
{
    reveal_with_fuel(tens, 3);
    let (h, min, sec, i) = datetime::clock(s, 11)->Some_0;
    let j = datetime::fraction(s, i)->Some_0.1;
    lemma_number_back(s, 11, 2);
    lemma_number_back(s, 14, 2);
    if i == 19 {
        lemma_number_back(s, 17, 2);
    }
    let frac = if text::stands(s, i, '.') {
        text::lemma_digits_end(s, i + 1);
        let f = s.subrange(i + 1, j);
        assert(text::all_digits(f));
        Some(f)
    } else {
        None
    };
    let c = Clock {
        gap: s[10],
        h: h as nat,
        min: min as nat,
        sec: if i == 19 {
            Some(sec as nat)
        } else {
            None
        },
        frac,
    };
    assert(clock_text(Some(c)) =~= s.subrange(10, j));
    c
}

/// Nothing else is a date: every text that is accepted is written in one of
/// these ways.
pub proof fn law_only_dates_are_accepted(s: Seq<char>)
    requires
        datetime::instant(s) is Ok,
    ensures
        exists|x: Moment| is_written(x) && exists_in_time(x) && s == #[trigger] moment_text(x),
{
    reveal_with_fuel(tens, 5);
    let (y, m, d) = datetime::date_part(s)->Some_0;
    lemma_number_back(s, 0, 4);
    lemma_number_back(s, 5, 2);
    lemma_number_back(s, 8, 2);
    let (local, i) = datetime::local_time(s)->Ok_0;
    let zone = lemma_zone_back(s.skip(i));
    let clock = if text::stands(s, 10, 'T') || text::stands(s, 10, ' ') {
        Some(lemma_clock_back(s))
    } else {
        None
    };
    let x = Moment { y: y as nat, m: m as nat, d: d as nat, sep: s[4], clock, zone };
    assert(date_text(x) =~= s.take(10));
    assert(clock_text(clock) =~= s.subrange(10, i));
    assert(moment_text(x) =~= s);
    law_dates_mean_their_numbers(x);
}

} // verus!
