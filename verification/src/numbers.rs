//! What number texts mean: the decimal numbers they write, and the doubles
//! that are nearest to these.

use vstd::prelude::*;
use vstd::arithmetic::power2::pow2;

use crate::double;
use crate::double::Double;
use crate::reading;
use crate::render;
use crate::text;

verus! {

/// A power of ten as it is written: `e` or `E`, a sign perhaps, digits.
pub struct Power {
    pub letter: char,
    pub sign: Option<char>,
    pub digits: Seq<char>,
}

/// A decimal number as it is written: a sign perhaps, digits with a point
/// among them perhaps, and a power of ten perhaps.
pub struct Decimal {
    pub sign: Option<char>,
    pub whole: Seq<char>,
    pub frac: Option<Seq<char>>,
    pub exp: Option<Power>,
}

/// The digits behind the point.
pub open spec fn frac_digits(x: Decimal) -> Seq<char> {
    match x.frac {
        Some(f) => f,
        None => Seq::empty(),
    }
}

/// Whether a power of ten is written as it has to be.
pub open spec fn is_power(p: Power) -> bool {
    &&& p.letter == 'e' || p.letter == 'E'
    &&& p.sign matches Some(c) ==> c == '+' || c == '-'
    &&& p.digits.len() > 0 && text::all_digits(p.digits)
}

/// Whether a decimal number is written as it has to be: with a digit before
/// or behind the point.
pub open spec fn is_decimal(x: Decimal) -> bool {
    &&& x.sign matches Some(c) ==> c == '+' || c == '-'
    &&& text::all_digits(x.whole) && text::all_digits(frac_digits(x))
    &&& x.whole.len() + frac_digits(x).len() > 0
    &&& x.exp matches Some(p) ==> is_power(p)
}

/// The text of a power of ten.
pub open spec fn power_text(p: Power) -> Seq<char> {
    seq![p.letter] + (match p.sign {
        Some(c) => seq![c],
        None => Seq::empty(),
    }) + p.digits
}

/// A power of ten that need not be there.
pub open spec fn exp_text(exp: Option<Power>) -> Seq<char> {
    match exp {
        Some(p) => power_text(p),
        None => Seq::empty(),
    }
}

/// A point and digits that need not be there.
pub open spec fn frac_text(frac: Option<Seq<char>>) -> Seq<char> {
    match frac {
        Some(f) => seq!['.'] + f,
        None => Seq::empty(),
    }
}

/// A sign that need not be there.
pub open spec fn sign_text(sign: Option<char>) -> Seq<char> {
    match sign {
        Some(c) => seq![c],
        None => Seq::empty(),
    }
}

/// The text of a decimal number.
pub open spec fn decimal_text(x: Decimal) -> Seq<char> {
    sign_text(x.sign) + (x.whole + frac_text(x.frac) + exp_text(x.exp))
}

/// The power of ten that is written; its sign counts.
pub open spec fn exponent(exp: Option<Power>) -> int {
    match exp {
        None => 0,
        Some(p) => if p.sign == Some('-') {
            -(text::decimal(p.digits) as int)
        } else {
            text::decimal(p.digits) as int
        },
    }
}

/// The bits of the double nearest to the number without its sign: its digits
/// as a whole number, times ten to the power that is left when the digits
/// behind the point are counted.
pub open spec fn nearest_to(x: Decimal) -> u64 {
    double::decimal_bits(
        text::decimal(x.whole + frac_digits(x)),
        exponent(x.exp) - frac_digits(x).len(),
    )
}

pub(crate) proof fn lemma_run(s: Seq<char>, i: int, j: int)
    requires
        0 <= i <= j <= s.len(),
        forall|k: int| i <= k < j ==> text::is_digit(#[trigger] s[k]),
        j < s.len() ==> !text::is_digit(s[j]),
    ensures
        text::digits_end(s, i) == j,
    decreases j - i,
{
    if i < j {
        assert(text::is_digit(s[i]));
        lemma_run(s, i + 1, j);
    }
}

proof fn lemma_power(exp: Option<Power>)
    requires
        exp matches Some(p) ==> is_power(p),
    ensures
        double::power_of_ten(exp_text(exp)) == Some(exponent(exp)),
{
    let s = exp_text(exp);
    if let Some(p) = exp {
        let t = s.skip(1);
        if let Some(c) = p.sign {
            assert(t.skip(1) =~= p.digits);
            assert(t[0] == c);
        } else {
            assert(t =~= p.digits);
            assert(text::is_digit(p.digits[0]));
        }
    }
}

proof fn lemma_unsigned(x: Decimal)
    requires
        is_decimal(x),
    ensures
        double::decimal_number(x.whole + frac_text(x.frac) + exp_text(x.exp)) == Some(
            (
                text::decimal(x.whole + frac_digits(x)),
                exponent(x.exp) - frac_digits(x).len(),
            ),
        ),
{
    let e = exp_text(x.exp);
    let s = x.whole + frac_text(x.frac) + e;
    let i = x.whole.len() as int;
    lemma_power(x.exp);
    assert(forall|k: int| 0 <= k < i ==> #[trigger] s[k] == x.whole[k]);
    if let Some(f) = x.frac {
        assert(s[i] == '.');
        lemma_run(s, 0, i);
        let j = i + 1 + f.len() as int;
        assert(s.subrange(i + 1, j) =~= f);
        assert forall|k: int| i + 1 <= k < j implies text::is_digit(#[trigger] s[k]) by {
            assert(s.subrange(i + 1, j)[k - i - 1] == s[k]);
            assert(text::is_digit(f[k - i - 1]));
        }
        assert(s.skip(j) =~= e);
        assert(e.len() > 0 ==> s[j] == e[0]);
        lemma_run(s, i + 1, j);
        assert(s.take(i) =~= x.whole);
    } else {
        assert(s.skip(i) =~= e);
        assert(e.len() > 0 ==> s[i] == e[0]);
        lemma_run(s, 0, i);
        assert(s.take(i) =~= x.whole);
        assert(s.take(i) + Seq::<char>::empty() =~= x.whole + frac_digits(x));
    }
}

/// A decimal number is read as the double nearest to it, with its sign.
pub proof fn law_decimals_are_read(x: Decimal)
    requires
        is_decimal(x),
    ensures
        ({
            let r = double::reading(decimal_text(x));
            &&& r is Some
            &&& r->Some_0.magnitude() == nearest_to(x)
            &&& r->Some_0.negative() <==> x.sign == Some('-')
            &&& nearest_to(x) <= double::INFINITE
        }),
{
    let body = x.whole + frac_text(x.frac) + exp_text(x.exp);
    let s = decimal_text(x);
    lemma_unsigned(x);
    double::lemma_decimal_is_number(
        text::decimal(x.whole + frac_digits(x)),
        exponent(x.exp) - frac_digits(x).len(),
    );
    match x.sign {
        Some(c) => {
            assert(s.skip(1) =~= body);
            assert(s[0] == c);
        },
        None => {
            assert(s =~= body);
            if x.whole.len() > 0 {
                assert(text::is_digit(x.whole[0]));
                assert(s[0] == x.whole[0]);
            } else {
                assert(x.frac is Some);
                assert(s[0] == '.');
            }
        },
    }
}

/// The words for infinity and for what is no number, in any case.
pub proof fn law_words_are_read(s: Seq<char>, sign: Option<char>)
    requires
        sign matches Some(c) ==> c == '+' || c == '-',
        ({
            let w = text::lower_text(s);
            w == "inf"@ || w == "infinity"@ || w == "nan"@
        }),
    ensures
        ({
            let r = double::reading(sign_text(sign) + s);
            &&& r is Some
            &&& text::lower_text(s) == "nan"@ <==> r->Some_0.is_nan()
            &&& text::lower_text(s) != "nan"@ ==> r->Some_0.magnitude() == double::INFINITE
            &&& r->Some_0.negative() <==> sign == Some('-')
        }),
{
    reveal_strlit("inf");
    reveal_strlit("infinity");
    reveal_strlit("nan");
    let w = text::lower_text(s);
    assert("inf"@.len() == 3 && "infinity"@.len() == 8 && "nan"@.len() == 3);
    assert("inf"@[0] == 'i' && "infinity"@[0] == 'i' && "nan"@[0] == 'n');
    assert(w.len() == s.len() && w[0] == text::lower_char(s[0]));
    lemma_letter(s[0]);
    assert(text::digits_end(s, 0) == 0);
    assert(s.take(0) + Seq::<char>::empty() =~= Seq::<char>::empty());
    assert(double::decimal_number(s) is None);
    let all = sign_text(sign) + s;
    if sign is Some {
        assert(all.skip(1) =~= s);
    } else {
        assert(all =~= s);
    }
}

proof fn lemma_letter(c: char)
    requires
        text::lower_char(c) == 'i' || text::lower_char(c) == 'n',
    ensures
        !text::is_digit(c) && c != '.' && c != '+' && c != '-',
{
}

/// Nothing else is a number.
pub proof fn law_only_numbers_are_read(s: Seq<char>)
    requires
        double::reading(s) is Some,
    ensures
        ({
            ||| exists|x: Decimal| is_decimal(x) && s == #[trigger] decimal_text(x)
            ||| exists|sign: Option<char>, w: Seq<char>|
                {
                    &&& s == #[trigger] (sign_text(sign) + w)
                    &&& sign matches Some(c) ==> c == '+' || c == '-'
                    &&& text::lower_text(w) == "inf"@ || text::lower_text(w) == "infinity"@
                        || text::lower_text(w) == "nan"@
                }
        }),
{
    let signed = s.len() > 0 && (s[0] == '-' || s[0] == '+');
    let rest = if signed {
        s.skip(1)
    } else {
        s
    };
    let sign = if signed {
        Some(s[0])
    } else {
        None
    };
    assert(s =~= sign_text(sign) + rest);
    if double::decimal_number(rest) is Some {
        let x = lemma_decimal_back(rest, sign);
        assert(s == decimal_text(x));
    }
}

proof fn lemma_power_back(s: Seq<char>) -> (exp: Option<Power>)
    requires
        double::power_of_ten(s) is Some,
    ensures
        exp matches Some(p) ==> is_power(p),
        exp_text(exp) == s,
{
    if s.len() == 0 {
        assert(s =~= Seq::<char>::empty());
        None
    } else {
        let t = s.skip(1);
        let signed = t.len() > 0 && (t[0] == '-' || t[0] == '+');
        let p = if signed {
            Power { letter: s[0], sign: Some(t[0]), digits: t.skip(1) }
        } else {
            Power { letter: s[0], sign: None, digits: t }
        };
        assert(power_text(p) =~= s);
        Some(p)
    }
}

proof fn lemma_decimal_back(s: Seq<char>, sign: Option<char>) -> (x: Decimal)
    requires
        double::decimal_number(s) is Some,
        sign matches Some(c) ==> c == '+' || c == '-',
    ensures
        is_decimal(x),
        decimal_text(x) == sign_text(sign) + s,
{
    let i = text::digits_end(s, 0);
    text::lemma_digits_end(s, 0);
    let point = i < s.len() && s[i] == '.';
    let j = if point {
        text::lemma_digits_end(s, i + 1);
        text::digits_end(s, i + 1)
    } else {
        i
    };
    let frac = if point {
        Some(s.subrange(i + 1, j))
    } else {
        None
    };
    let exp = lemma_power_back(s.skip(j));
    let x = Decimal { sign, whole: s.take(i), frac, exp };
    assert(x.whole + frac_text(frac) + exp_text(exp) =~= s);
    x
}

// ---------------------------------------------------------------------------
// Nearest doubles

/// How far two numbers are from each other.
pub open spec fn apart(a: int, b: int) -> int {
    if a < b {
        b - a
    } else {
        a - b
    }
}

/// No double is nearer to `num / den` than the one it is rounded to, in units
/// of 2^-1074 and of `1 / den`; and of two that are as near the even one is
/// taken.
pub proof fn law_rounding_is_to_the_nearest(num: nat, den: nat, c: nat)
    requires
        den > 0,
        double::nearest_bits(num, den) < double::INFINITE,
        c < double::INFINITE,
    ensures
        ({
            let b = double::nearest_bits(num, den) as nat;
            let exact = num * pow2(1074);
            let far = apart((double::size(b) * den) as int, exact as int);
            let other = apart((double::size(c) * den) as int, exact as int);
            &&& far <= other
            &&& far == other && b != c ==> b % 2 == 0
        }),
{
    let b = double::nearest_bits(num, den) as nat;
    double::lemma_nearest_bits(num, den);
    let t = (num * pow2(1074)) as int;
    let sb = (double::size(b) * den) as int;
    let sc = (double::size(c) * den) as int;
    if c < b {
        let p = double::size((b - 1) as nat);
        double::lemma_size_order(c, (b - 1) as nat);
        double::lemma_size_order((b - 1) as nat, c);
        double::lemma_size_order((b - 1) as nat, b);
        let cc = double::size(c);
        let bb = double::size(b);
        assert(cc * den <= p * den && p * den < bb * den) by (nonlinear_arith)
            requires
                cc <= p < bb,
                den > 0,
        ;
        assert((p + bb) * den == p * den + bb * den) by (nonlinear_arith);
    } else if b < c {
        let q = double::size(b + 1);
        double::lemma_size_order(b + 1, c);
        double::lemma_size_order(c, b + 1);
        double::lemma_size_order(b, b + 1);
        let cc = double::size(c);
        let bb = double::size(b);
        assert(q * den <= cc * den && bb * den < q * den) by (nonlinear_arith)
            requires
                bb < q <= cc,
                den > 0,
        ;
        assert((bb + q) * den == bb * den + q * den) by (nonlinear_arith);
    }
}

/// The doubles: up to 2^53 units each number of units is one, and from there
/// on each power of two has 2^52 of them, evenly spaced.
pub proof fn law_doubles_are_spaced(e: nat, q: nat)
    requires
        q < 0x20_0000_0000_0000,
        e == 0 || q >= 0x10_0000_0000_0000,
    ensures
        double::size(e * 0x10_0000_0000_0000 + q) == q * pow2(e),
{
    double::lemma_size_at(e, q);
}

/// Numbers stand in the order of the units they lie at, negative ones below
/// zero; both zeros lie at zero.
pub proof fn law_places(n: Double)
    ensures
        n.bits < 0x8000_0000_0000_0000 ==> n.place() == double::size(n.bits as nat),
        n.bits >= 0x8000_0000_0000_0000 ==> n.place() == -(double::size(
            (n.bits - 0x8000_0000_0000_0000) as nat,
        ) as int),
{
}

/// A decimal number is a fraction of whole numbers: `d * 10^x`.
pub proof fn law_decimals_are_fractions(d: nat, x: int)
    ensures
        x >= 0 ==> double::decimal_bits(d, x) == double::nearest_bits(
            d * vstd::arithmetic::power::pow(10, x as nat) as nat,
            1,
        ),
        x < 0 ==> double::decimal_bits(d, x) == double::nearest_bits(
            d,
            vstd::arithmetic::power::pow(10, (-x) as nat) as nat,
        ),
{
}

/// Whole numbers below 2^53 are read exactly: they lie where they are.
pub proof fn law_whole_numbers_are_exact(n: nat)
    requires
        0 < n < 0x20_0000_0000_0000,
    ensures
        double::size(double::decimal_bits(n, 0) as nat) == n * pow2(1074),
{
    vstd::arithmetic::power::lemma_pow0(10);
    assert(n * 1 == n);
    let b = double::nearest_bits(n, 1) as nat;
    double::lemma_nearest_bits(n, 1);
    vstd::arithmetic::power2::lemma2_to64();
    let c = lemma_shifted(n, 1074, 0);
    let t = n * pow2(1074);
    assert(double::is_nearest(n, 1, c)) by {
        double::lemma_size_next(c);
        if c > 0 {
            double::lemma_size_next((c - 1) as nat);
        }
    }
    double::lemma_nearest_unique(n, 1, b, c);
}

/// The double that is `n` times two to the power `e - k`, where `n` is at
/// least two to the power `k`.
proof fn lemma_shifted(n: nat, e: nat, k: nat) -> (c: nat)
    requires
        0 < n < 0x20_0000_0000_0000,
        k <= 52 && k <= e,
        e <= 1074,
        n >= pow2(k),
        52 <= e,
    ensures
        double::size(c) == n * pow2((e - k) as nat),
        c < double::INFINITE,
    decreases 52 - k,
{
    vstd::arithmetic::power2::lemma2_to64();
    if n >= 0x10_0000_0000_0000 {
        double::lemma_size_at((e - k) as nat, n);
        ((e - k) * 0x10_0000_0000_0000 + n) as nat
    } else {
        if k == 52 {
            assert(pow2(52) == 0x10_0000_0000_0000) by {
                vstd::arithmetic::power2::lemma2_to64_rest();
            }
        }
        vstd::arithmetic::power2::lemma_pow2_unfold(k + 1);
        vstd::arithmetic::power2::lemma_pow2_unfold((e - k) as nat);
        let c = lemma_shifted(2 * n, e, k + 1);
        let p = pow2((e - k - 1) as nat);
        assert((2 * n) * p == n * (2 * p)) by (nonlinear_arith);
        c
    }
}

// ---------------------------------------------------------------------------
// Writing

proof fn lemma_scaled(num: nat, den: nat, k: nat, b: nat)
    requires
        k > 0,
        double::is_nearest(num, den, b),
    ensures
        double::is_nearest(num * k, den * k, b),
{
    let p = pow2(1074);
    let t = 2 * (num * p);
    assert(2 * ((num * k) * p) == t * k) by (nonlinear_arith)
        requires
            t == 2 * (num * p),
    ;
    if b > 0 {
        lemma_scaled_middle(double::size((b - 1) as nat) + double::size(b), den, k, t);
    }
    if b < double::INFINITE {
        lemma_scaled_middle(double::size(b) + double::size(b + 1), den, k, t);
    }
}

proof fn lemma_scaled_middle(m: nat, den: nat, k: nat, t: nat)
    requires
        k > 0,
    ensures
        m * den < t ==> m * (den * k) < t * k,
        m * den == t ==> m * (den * k) == t * k,
        m * den > t ==> m * (den * k) > t * k,
{
    let a = m * den;
    assert(m * (den * k) == a * k) by (nonlinear_arith)
        requires
            a == m * den,
    ;
    assert(a < t ==> a * k < t * k) by (nonlinear_arith)
        requires
            k > 0,
    ;
    assert(a > t ==> a * k > t * k) by (nonlinear_arith)
        requires
            k > 0,
    ;
}

/// A zero at the end of the digits of a number makes it ten times as large.
pub proof fn law_trailing_zeros_count(d: nat, x: int)
    ensures
        double::decimal_bits(10 * d, x) == double::decimal_bits(d, x + 1),
{
    let b = double::decimal_bits(d, x + 1);
    let n = double::decimal_num(d, x + 1);
    let m = double::decimal_den(x + 1);
    vstd::arithmetic::power::lemma_pow1(10);
    vstd::arithmetic::power::lemma_pow0(10);
    if x + 1 >= 0 {
        double::lemma_nearest_bits(n, 1);
    } else {
        vstd::arithmetic::power::lemma_pow_positive(10, (-(x + 1)) as nat);
        double::lemma_nearest_bits(n, m);
    }
    assert(double::is_nearest(n, m, b as nat));
    if x >= 0 {
        let h = vstd::arithmetic::power::pow(10, x as nat);
        vstd::arithmetic::power::lemma_pow_adds(10, x as nat, 1);
        vstd::arithmetic::power::lemma_pow_positive(10, x as nat);
        let hn = h as nat;
        assert((10 * d) * hn == d * (hn * 10)) by (nonlinear_arith);
        assert((h * 10) as nat == hn * 10);
        assert(double::decimal_num(10 * d, x) == n);
        double::lemma_decimal_bits(10 * d, x, b);
    } else {
        lemma_scaled(n, m, 10, b as nat);
        if x == -1 {
            assert(d * 1 == d);
            assert(n * 10 == 10 * d);
            assert(m * 10 == 10);
        } else {
            let y = (-(x + 1)) as nat;
            vstd::arithmetic::power::lemma_pow_adds(10, y, 1);
            assert((-x) as nat == y + 1);
            assert(m * 10 == double::decimal_den(x));
            assert(n * 10 == 10 * d);
        }
        assert(n * 10 == double::decimal_num(10 * d, x));
        assert(m * 10 == double::decimal_den(x));
        double::lemma_decimal_bits(10 * d, x, b);
    }
}

proof fn lemma_significant(d: nat, x: int)
    ensures
        ({
            let (e, y) = render::significant(d, x);
            double::decimal_bits(e, y) == double::decimal_bits(d, x)
        }),
    decreases d,
{
    if d > 0 && d % 10 == 0 {
        law_trailing_zeros_count(d / 10, x);
        lemma_significant(d / 10, x + 1);
    }
}

proof fn lemma_zeros_behind(s: Seq<char>, n: nat)
    ensures
        text::decimal(s + render::zeros(n)) == text::decimal(s) * vstd::arithmetic::power::pow(10, n),
    decreases n,
{
    if n == 0 {
        assert(s + render::zeros(0) =~= s);
        vstd::arithmetic::power::lemma_pow0(10);
    } else {
        let m = (n - 1) as nat;
        lemma_zeros_behind(s, m);
        let t = s + render::zeros(n);
        assert(t.drop_last() =~= s + render::zeros(m));
        assert(t.last() == '0');
        vstd::arithmetic::power::lemma_pow_adds(10, m, 1);
        vstd::arithmetic::power::lemma_pow1(10);
        let h = vstd::arithmetic::power::pow(10, m);
        let v = text::decimal(s) as int;
        assert((v * h) * 10 == v * (h * 10)) by (nonlinear_arith);
    }
}

proof fn lemma_zeros_before(n: nat, s: Seq<char>)
    ensures
        text::decimal(render::zeros(n) + s) == text::decimal(s),
    decreases s.len(),
{
    let t = render::zeros(n) + s;
    if s.len() == 0 {
        assert(t =~= render::zeros(n));
        assert(Seq::<char>::empty() + render::zeros(n) =~= render::zeros(n));
        lemma_zeros_behind(Seq::empty(), n);
        assert(0 * vstd::arithmetic::power::pow(10, n) == 0) by (nonlinear_arith);
    } else {
        assert(t.drop_last() =~= render::zeros(n) + s.drop_last());
        lemma_zeros_before(n, s.drop_last());
    }
}

/// What is written for `d * 10^x` is a decimal number that is read as that.
proof fn lemma_plain_text(d: nat, x: int, sign: Option<char>) -> (w: Decimal)
    requires
        sign matches Some(c) ==> c == '+' || c == '-',
    ensures
        is_decimal(w),
        w.sign == sign,
        decimal_text(w) == sign_text(sign) + render::plain_text(d, x),
        nearest_to(w) == double::decimal_bits(d, x),
{
    let (e, y) = render::significant(d, x);
    lemma_significant(d, x);
    let s = text::decimal_text(e);
    let n = s.len() as int;
    reading::law_numbers_are_written_plainly(e);
    reading::law_digits_mean_their_number(e, s.len());
    let none = Seq::<char>::empty();
    vstd::arithmetic::power::lemma_pow0(10);
    if y >= 0 {
        let lead = s + render::zeros(y as nat);
        let w = Decimal { sign, whole: lead, frac: None, exp: None };
        lemma_zeros_behind(s, y as nat);
        assert forall|i: int| 0 <= i < lead.len() implies text::is_digit(#[trigger] lead[i]) by {
            if i < s.len() {
                assert(lead[i] == s[i]);
            }
        }
        assert(lead + none =~= lead);
        assert(lead + none + none =~= lead);
        assert(decimal_text(w) =~= sign_text(sign) + render::plain_text(d, x));
        let h = vstd::arithmetic::power::pow(10, y as nat);
        vstd::arithmetic::power::lemma_pow_positive(10, y as nat);
        let v = text::decimal(lead);
        assert(v == e * h);
        assert(e * h == e * (h as nat));
        assert(v * 1 == v);
        assert(double::decimal_num(v, 0) == double::decimal_num(e, y));
        assert(double::decimal_den(0) == double::decimal_den(y));
        w
    } else if n > -y {
        let lead = s.take(n + y);
        let f = s.skip(n + y);
        let w = Decimal { sign, whole: lead, frac: Some(f), exp: None };
        assert(lead + f =~= s);
        assert(text::all_digits(lead) && text::all_digits(f));
        assert(lead + (seq!['.'] + f) + none =~= render::plain_text(d, x));
        w
    } else {
        let z = render::zeros((-y - n) as nat);
        let f = z + s;
        let w = Decimal { sign, whole: seq!['0'], frac: Some(f), exp: None };
        assert forall|i: int| 0 <= i < f.len() implies text::is_digit(#[trigger] f[i]) by {
            if i >= z.len() {
                assert(f[i] == s[i - z.len()]);
            }
        }
        let zz = render::zeros((-y - n + 1) as nat);
        assert(seq!['0'] + f =~= zz + s);
        lemma_zeros_before((-y - n + 1) as nat, s);
        assert(seq!['0'] + (seq!['.'] + f) + none =~= render::plain_text(d, x));
        w
    }
}

/// What is written for a number reads back as the same number, sign and all.
pub proof fn law_written_doubles_read_back(n: Double)
    requires
        !n.is_nan(),
    ensures
        double::reading(render::double_text(n)) == Some(n),
{
    let b = n.magnitude();
    let sign = if n.negative() {
        Some('-')
    } else {
        None
    };
    let none = Seq::<char>::empty();
    if b == double::INFINITE {
        reveal_strlit("inf");
        lemma_small_word();
        law_words_are_read("inf"@, sign);
        reveal_strlit("nan");
        assert("inf"@[0] == 'i' && "nan"@[0] == 'n');
    } else if b == 0 {
        reveal_strlit("0");
        let w = Decimal { sign, whole: "0"@, frac: None, exp: None };
        assert("0"@[0] == '0' && "0"@.len() == 1);
        assert("0"@ + none + none =~= "0"@);
        assert("0"@ + none =~= "0"@);
        law_decimals_are_read(w);
        reveal_with_fuel(text::decimal, 2);
        assert("0"@.drop_last() =~= none);
        lemma_zero_is_zero();
    } else {
        let (d, x) = render::shortest(b, 1);
        render::law_digits_read_back(b);
        let w = lemma_plain_text(d, x, sign);
        law_decimals_are_read(w);
    }
}

proof fn lemma_small_word()
    ensures
        text::lower_text("inf"@) == "inf"@,
{
    reveal_strlit("inf");
    assert(text::lower_text("inf"@) =~= "inf"@);
}

proof fn lemma_zero_is_zero()
    ensures
        double::decimal_bits(0, 0) == 0,
{
    vstd::arithmetic::power::lemma_pow0(10);
    let p = pow2(1074);
    assert(0 * p == 0) by (nonlinear_arith);
    assert(0nat * 1nat == 0);
    double::lemma_size_next(0);
    let m = double::size(0) + double::size(1);
    assert(m * 1 == m);
    assert(double::is_nearest(0, 1, 0));
    double::lemma_decimal_bits(0, 0, 0);
}

/// A whole number below 1e15 is written as JSON writes it: its digits, and a
/// minus sign if it is below zero. Every other number is written so that it
/// reads back.
pub proof fn law_json_numbers_are_written(n: Double, k: nat)
    requires
        !n.is_nan(),
    ensures
        double::size(n.magnitude()) == k * pow2(1074) && k < 1_000_000_000_000_000
            ==> render::json_number_text(n) == (if n.negative() && k > 0 {
            seq!['-'] + text::decimal_text(k)
        } else {
            text::decimal_text(k)
        }),
        (forall|j: nat|
            j < 1_000_000_000_000_000 ==> double::size(n.magnitude()) != #[trigger] (j * pow2(
                1074,
            ))) ==> double::reading(render::json_number_text(n)) == Some(n),
{
    let b = n.magnitude();
    let p = pow2(1074);
    vstd::arithmetic::power2::lemma_pow2_pos(1074);
    let z = double::size(b);
    if z == k * p && k < 1_000_000_000_000_000 {
        assert(z / p == k && z % p == 0) by (nonlinear_arith)
            requires
                z == k * p,
                p > 0,
        ;
    }
    if forall|j: nat| j < 1_000_000_000_000_000 ==> z != #[trigger] (j * p) {
        let j = z / p;
        if z % p == 0 && j < 1_000_000_000_000_000 {
            assert(z == j * p) by (nonlinear_arith)
                requires
                    z % p == 0,
                    j == z / p,
                    p > 0,
            ;
        }
        law_written_doubles_read_back(n);
    }
}

/// Seconds become milliseconds: the double nearest to a thousand times the
/// number, without its fraction and with its sign; none where that is 9e15
/// or more, or where the number is infinite.
pub proof fn law_seconds_become_milliseconds(n: Double)
    ensures
        n.magnitude() >= double::INFINITE ==> double::milliseconds(n) is None,
        n.magnitude() < double::INFINITE ==> {
            let p = pow2(1074);
            let c = double::size(double::nearest_bits(double::size(n.magnitude()) * 1000, p) as nat);
            let r = double::milliseconds(n);
            &&& r is Some <==> c < 9_000_000_000_000_000 * p
            &&& r matches Some(m) ==> {
                let a = if n.negative() {
                    -m
                } else {
                    m
                };
                a * p <= c < (a + 1) * p
            }
        },
{
    let p = pow2(1074) as int;
    vstd::arithmetic::power2::lemma_pow2_pos(1074);
    if n.magnitude() < double::INFINITE {
        let c = double::size(
            double::nearest_bits(double::size(n.magnitude()) * 1000, pow2(1074)) as nat,
        ) as int;
        let a = c / p;
        assert(a * p <= c < (a + 1) * p) by (nonlinear_arith)
            requires
                a == c / p,
                p > 0,
        ;
    }
}

} // verus!
