//! Decimal notation of doubles: whole numbers plainly, others with the
//! fewest digits that read back as the same double.

use vstd::prelude::*;
use vstd::arithmetic::power::pow;
use vstd::arithmetic::power2::pow2;
use vstd::string::StringExecFns;

use crate::double;
use crate::double::Double;
use crate::natural::Natural;
use crate::text;

verus! {

/// `10^k`, or one where `k` is negative.
pub open spec fn ten(k: int) -> nat {
    if k >= 0 {
        pow(10, k as nat) as nat
    } else {
        1
    }
}

/// The numerator of the number with bits `b` divided by `10^e`.
pub open spec fn lead_num(b: nat, e: int) -> nat {
    double::size(b) * ten(-e)
}

/// The denominator of a number divided by `10^e`.
pub open spec fn lead_den(e: int) -> nat {
    pow2(1074) * ten(e)
}

/// Whether the number with bits `b` is at least `10^e`.
pub open spec fn reaches(b: nat, e: int) -> bool {
    lead_den(e) <= lead_num(b, e)
}

/// The power of ten of the first digit of the number with bits `b`.
pub open spec fn decade(b: nat) -> int {
    choose|e: int| #[trigger] reaches(b, e) && !reaches(b, e + 1)
}

/// The first `p` digits of the number with bits `b`.
pub open spec fn prefix(b: nat, p: nat) -> nat {
    lead_num(b, decade(b)) * ten(p - 1) / lead_den(decade(b))
}

/// Whether what follows the first `p` digits is half a unit or more.
pub open spec fn upper_half(b: nat, p: nat) -> bool {
    2 * (lead_num(b, decade(b)) * ten(p - 1) % lead_den(decade(b))) >= lead_den(decade(b))
}

/// Of the two numbers of `p` digits around the number with bits `b`, the
/// nearer one that reads back as it.
pub open spec fn rounded_digits(b: nat, p: nat) -> Option<nat> {
    let x = decade(b) - p + 1;
    let low = prefix(b, p);
    let low_reads = double::decimal_bits(low, x) == b;
    let high_reads = double::decimal_bits(low + 1, x) == b;
    if low_reads && !(high_reads && upper_half(b, p)) {
        Some(low)
    } else if high_reads {
        Some(low + 1)
    } else {
        None
    }
}

/// The fewest digits, `p` of them or more, that read back as the number with
/// bits `b`, and the power of ten of the last one.
pub open spec fn shortest(b: nat, p: nat) -> (nat, int)
    decreases 17 - p,
{
    match rounded_digits(b, p) {
        Some(d) => (d, decade(b) - p + 1),
        None => if p < 17 {
            shortest(b, p + 1)
        } else {
            (prefix(b, p), decade(b) - p + 1)
        },
    }
}

/// `n` zeros.
pub open spec fn zeros(n: nat) -> Seq<char> {
    Seq::new(n, |i: int| '0')
}

/// `d * 10^x` without the trailing zeros of `d`.
pub open spec fn significant(d: nat, x: int) -> (nat, int)
    decreases d,
{
    if d > 0 && d % 10 == 0 {
        significant(d / 10, x + 1)
    } else {
        (d, x)
    }
}

/// `d * 10^x` in decimal notation without a power of ten.
pub open spec fn plain_text(d: nat, x: int) -> Seq<char> {
    let (d, x) = significant(d, x);
    let s = text::decimal_text(d);
    let n = s.len() as int;
    if x >= 0 {
        s + zeros(x as nat)
    } else if n > -x {
        s.take(n + x) + seq!['.'] + s.skip(n + x)
    } else {
        seq!['0', '.'] + zeros((-x - n) as nat) + s
    }
}

/// The notation of a double: its sign if it is negative, and the fewest
/// digits that read back as it; `inf` for infinity, `NaN` for no number.
pub open spec fn double_text(n: Double) -> Seq<char> {
    let b = n.magnitude();
    let sign = if n.negative() {
        seq!['-']
    } else {
        Seq::empty()
    };
    if n.is_nan() {
        "NaN"@
    } else if b == double::INFINITE {
        sign + "inf"@
    } else if b == 0 {
        sign + "0"@
    } else {
        let (d, x) = shortest(b, 1);
        sign + plain_text(d, x)
    }
}

/// The notation of a number as JSON writes it: whole numbers below 1e15 as
/// such, everything else as `double_text` has it.
pub open spec fn json_number_text(n: Double) -> Seq<char> {
    let b = n.magnitude();
    if double::is_whole(b) && double::whole(b) < 1_000_000_000_000_000 && !n.is_nan() {
        if n.negative() {
            text::signed_text(-(double::whole(b) as int))
        } else {
            text::signed_text(double::whole(b) as int)
        }
    } else {
        double_text(n)
    }
}

// ---------------------------------------------------------------------------
// The first digit

proof fn lemma_ten_positive(k: int)
    ensures
        ten(k) > 0,
{
    if k >= 0 {
        vstd::arithmetic::power::lemma_pow_positive(10, k as nat);
    } else {
    }
}

proof fn lemma_ten_next(k: int)
    requires
        k >= 0,
    ensures
        ten(k + 1) == 10 * ten(k),
{
    vstd::arithmetic::power::lemma_pow_adds(10, k as nat, 1);
    vstd::arithmetic::power::lemma_pow1(10);
    vstd::arithmetic::power::lemma_pow_positive(10, k as nat);
}

proof fn lemma_reaches_next(b: nat, e: int)
    ensures
        reaches(b, e + 1) <==> lead_num(b, e) >= 10 * lead_den(e),
        reaches(b, e + 1) ==> reaches(b, e),
        lead_den(e) > 0,
{
    let n = double::size(b);
    let p = pow2(1074);
    vstd::arithmetic::power2::lemma_pow2_pos(1074);
    lemma_ten_positive(e);
    lemma_ten_positive(-e);
    let t = ten(e);
    assert(p * t > 0) by (nonlinear_arith)
        requires
            p > 0,
            t > 0,
    ;
    if e >= 0 {
        lemma_ten_next(e);
        assert(p * (10 * t) == 10 * (p * t)) by (nonlinear_arith);
        if e == 0 {
            vstd::arithmetic::power::lemma_pow0(10);
        }
        assert(ten(-(e + 1)) == 1 && ten(-e) == 1);
    } else {
        lemma_ten_next(-(e + 1));
        let u = ten(-(e + 1));
        assert(ten(-e) == 10 * u);
        assert(n * (10 * u) == 10 * (n * u)) by (nonlinear_arith);
        if e + 1 == 0 {
            vstd::arithmetic::power::lemma_pow0(10);
        }
        assert(ten(e + 1) == 1 && ten(e) == 1);
    }
}

proof fn lemma_reaches_below(b: nat, e: int, f: int)
    requires
        reaches(b, f),
        e <= f,
    ensures
        reaches(b, e),
    decreases f - e,
{
    if e < f {
        lemma_reaches_next(b, f - 1);
        lemma_reaches_below(b, e, f - 1);
    }
}

proof fn lemma_decade(b: nat, e: int)
    requires
        reaches(b, e),
        !reaches(b, e + 1),
    ensures
        decade(b) == e,
{
    let f = decade(b);
    assert(reaches(b, f) && !reaches(b, f + 1));
    if f < e {
        lemma_reaches_below(b, f + 1, e);
    } else if e < f {
        lemma_reaches_below(b, e + 1, f);
    }
}

/// Finite doubles lie below 2^1024.
proof fn lemma_size_bound(b: nat)
    requires
        b < double::INFINITE,
    ensures
        double::size(b) < pow2(2098),
{
    double::lemma_size_order(b, double::INFINITE as nat);
    double::lemma_size_at(2046, 0x10_0000_0000_0000);
    vstd::arithmetic::power2::lemma_pow2_adds(52, 2046);
    vstd::arithmetic::power2::lemma2_to64();
    vstd::arithmetic::power2::lemma2_to64_rest();
}

proof fn lemma_exponent_up(b: nat, e: int)
    requires
        b < double::INFINITE,
        e >= 0,
        reaches(b, e),
    ensures
        e < 342,
{
    lemma_size_bound(b);
    if e >= 342 {
        double::lemma_pow10_pow2(e as nat);
        double::lemma_pow2_bound(1026, (3 * e) as nat);
        vstd::arithmetic::power2::lemma_pow2_adds(1074, 1026);
        double::lemma_pow2_bound(2098, 2100);
        let t = ten(e);
        let p = pow2(1074);
        let w = pow2(1026);
        assert(p * t >= p * w) by (nonlinear_arith)
            requires
                t >= w,
        ;
        let n = double::size(b);
        if e == 0 {
            vstd::arithmetic::power::lemma_pow0(10);
        }
        assert(n * 1 == n);
    }
}

proof fn lemma_exponent_down(b: nat, e: int)
    requires
        b > 0,
        e <= 0,
        !reaches(b, e),
    ensures
        e > -358,
{
    double::lemma_size_order(0, b);
    if e <= -358 {
        double::lemma_pow10_pow2((-e) as nat);
        double::lemma_pow2_bound(1074, (3 * -e) as nat);
        let n = double::size(b);
        let t = ten(-e);
        let p = pow2(1074);
        assert(n * t >= p) by (nonlinear_arith)
            requires
                n >= 1,
                t >= p,
        ;
        assert(p * 1 == p);
    }
}

/// A finite number divided by the power of ten of its first digit.
fn leading(b: u64) -> (r: (Natural, Natural, i64))
    requires
        0 < b < double::INFINITE,
    ensures
        r.2 == decade(b as nat),
        r.0@ == lead_num(b as nat, r.2 as int),
        r.1@ == lead_den(r.2 as int),
        reaches(b as nat, r.2 as int),
        !reaches(b as nat, r.2 + 1),
        -400 <= r.2 <= 400,
{
    let mut num = double::size_of(b);
    let mut den = Natural::new(1);
    den.scale_pow2(1074);
    let mut e: i64 = 0;
    proof {
        vstd::arithmetic::power::lemma_pow0(10);
        let p = pow2(1074);
        let n = double::size(b as nat);
        assert(1 * p == p && p * 1 == p && n * 1 == n);
    }
    if num.less(&den) {
        while num.less(&den)
            invariant
                0 < b < double::INFINITE,
                -358 <= e <= 0,
                num@ == lead_num(b as nat, e as int),
                den@ == lead_den(e as int),
                !reaches(b as nat, e + 1) || e == 0,
                e == 0 ==> !reaches(b as nat, 0),
            decreases e + 358,
        {
            proof {
                lemma_exponent_down(b as nat, e as int);
                lemma_ten_next(-(e as int));
                let n = double::size(b as nat);
                let t = ten(-(e as int));
                assert(n * t * 10 == n * (10 * t)) by (nonlinear_arith);
                if e == 0 {
                    vstd::arithmetic::power::lemma_pow0(10);
                }
                double::lemma_size_order(0, b as nat);
                lemma_ten_positive(-(e as int));
                assert(n * t > 0) by (nonlinear_arith)
                    requires
                        n > 0,
                        t > 0,
                ;
            }
            num.scale(10, 0);
            e -= 1;
        }
    } else {
        let mut next = den.copy();
        next.scale(10, 0);
        while !num.less(&next)
            invariant
                0 < b < double::INFINITE,
                0 <= e <= 342,
                num@ == lead_num(b as nat, e as int),
                den@ == lead_den(e as int),
                next@ == 10 * den@,
                reaches(b as nat, e as int),
            decreases 342 - e,
        {
            proof {
                lemma_exponent_up(b as nat, e as int);
                lemma_ten_next(e as int);
                let p = pow2(1074);
                let t = ten(e as int);
                assert(p * (10 * t) == 10 * (p * t)) by (nonlinear_arith);
                lemma_reaches_next(b as nat, e as int);
                if e == 0 {
                    vstd::arithmetic::power::lemma_pow0(10);
                }
            }
            den = next.copy();
            next.scale(10, 0);
            e += 1;
        }
        proof {
            lemma_reaches_next(b as nat, e as int);
        }
    }
    proof {
        lemma_decade(b as nat, e as int);
    }
    (num, den, e)
}

// ---------------------------------------------------------------------------
// The fewest digits

/// Whether `d * 10^x` reads as the double with bits `b`.
fn reads_as(d: u64, x: i64, b: u64) -> (r: bool)
    requires
        d <= 100_000_000_000_000_000,
    ensures
        r == (double::decimal_bits(d as nat, x as int) == b),
{
    proof {
        lemma_ten_18();
    }
    double::nearest_decimal(double::natural(d), 18, x as i128) == b
}

proof fn lemma_ten_18()
    ensures
        ten(16) == 10_000_000_000_000_000,
        ten(17) == 100_000_000_000_000_000,
        pow(10, 18) == 1_000_000_000_000_000_000,
{
    vstd::arithmetic::power::lemma_pow0(10);
    vstd::arithmetic::power::lemma_pow_positive(10, 18);
    lemma_ten_next(0);
    lemma_ten_next(1);
    lemma_ten_next(2);
    lemma_ten_next(3);
    lemma_ten_next(4);
    lemma_ten_next(5);
    lemma_ten_next(6);
    lemma_ten_next(7);
    lemma_ten_next(8);
    lemma_ten_next(9);
    lemma_ten_next(10);
    lemma_ten_next(11);
    lemma_ten_next(12);
    lemma_ten_next(13);
    lemma_ten_next(14);
    lemma_ten_next(15);
    lemma_ten_next(16);
    lemma_ten_next(17);
}

proof fn lemma_prefix_bound(low: int, r: int, num: int, den: int, t: int)
    requires
        low * den + r == num * t,
        0 <= r,
        num < 10 * den,
        den > 0,
        t > 0,
    ensures
        low < 10 * t,
{
    assert(low * den < (10 * t) * den) by (nonlinear_arith)
        requires
            low * den + r == num * t,
            0 <= r,
            num < 10 * den,
            t > 0,
    ;
    assert(low < 10 * t) by (nonlinear_arith)
        requires
            low * den < (10 * t) * den,
            den > 0,
    ;
}

/// The fewest digits that read back as the finite number with bits `b`.
fn shortest_digits(b: u64) -> (r: (u64, i64))
    requires
        0 < b < double::INFINITE,
    ensures
        (r.0 as nat, r.1 as int) == shortest(b as nat, 1),
        0 < r.0 <= 100_000_000_000_000_000,
        -420 <= r.1 <= 420,
{
    let (num, den, e) = leading(b);
    let ghost n = num@;
    let ghost d = den@;
    proof {
        lemma_reaches_next(b as nat, e as int);
        vstd::arithmetic::power::lemma_pow0(10);
        assert(n * 1 == n);
        assert(0 * d == 0);
    }
    let mut r = num;
    let mut low: u64 = 0;
    let mut p: i64 = 1;
    loop
        invariant
            1 <= p <= 17,
            0 < b < double::INFINITE,
            -400 <= e <= 400,
            e == decade(b as nat),
            n == lead_num(b as nat, e as int),
            d == lead_den(e as int),
            d == den@,
            0 < d <= n < 10 * d,
            r@ < 10 * d,
            p == 1 ==> low == 0,
            (10 * low) * d + r@ == n * ten(p - 1),
            low < ten(p - 1),
            shortest(b as nat, 1) == shortest(b as nat, p as nat),
        decreases 17 - p,
    {
        proof {
            lemma_ten_positive(p - 1);
            lemma_ten_next(p - 1);
            lemma_ten_18();
            if p < 17 {
                lemma_pow10(p as nat, 17);
            }
            if p > 1 {
                lemma_ten_next(p - 2);
            }
        }
        low = low * 10;
        while !r.less(&den)
            invariant
                1 <= p <= 17,
                d == den@,
                0 < d <= n < 10 * d,
                low * d + r@ == n * ten(p - 1),
                low < ten(p as int),
                ten(p as int) == 10 * ten(p - 1),
                ten(p - 1) > 0,
                ten(p as int) <= 100_000_000_000_000_000,
            decreases r@,
        {
            let ghost r0 = r@;
            proof {
                let l = low as int;
                assert((l + 1) * d + (r0 - d) == l * d + r0) by (nonlinear_arith);
                lemma_prefix_bound(l + 1, r0 - d, n as int, d as int, ten(p - 1) as int);
            }
            r.subtract(&den);
            low += 1;
        }
        proof {
            vstd::arithmetic::div_mod::lemma_fundamental_div_mod_converse(
                (n * ten(p - 1)) as int,
                d as int,
                low as int,
                r@ as int,
            );
            assert(low == prefix(b as nat, p as nat));
            assert(low >= 1) by {
                let t = ten(p - 1);
                assert(n * t >= d) by (nonlinear_arith)
                    requires
                        n >= d,
                        t >= 1,
                ;
                if low == 0 {
                    assert(0 * d == 0);
                }
            }
        }
        let mut twice = r.copy();
        twice.scale(2, 0);
        let up = !twice.less(&den);
        let x: i64 = e - p + 1;
        let low_reads = reads_as(low, x, b);
        let high_reads = reads_as(low + 1, x, b);
        if low_reads && !(high_reads && up) {
            return (low, x);
        }
        if high_reads {
            return (low + 1, x);
        }
        if p == 17 {
            return (low, x);
        }
        proof {
            let t = ten(p - 1);
            let l = low as int;
            assert((10 * l) * d + r@ * 10 == n * (10 * t)) by (nonlinear_arith)
                requires
                    l * d + r@ == n * t,
            ;
        }
        r.scale(10, 0);
        p += 1;
    }
}

proof fn lemma_pow10(a: nat, b: nat)
    requires
        a <= b,
    ensures
        ten(a as int) <= ten(b as int),
{
    double::lemma_pow10_grows(a, b);
}

// ---------------------------------------------------------------------------
// Writing

/// Append `n` zeros.
fn push_zeros(out: &mut String, n: u64)
    ensures
        final(out)@ == old(out)@ + zeros(n as nat),
{
    let mut i: u64 = 0;
    assert(out@ =~= old(out)@ + zeros(0));
    while i < n
        invariant
            i <= n,
            out@ == old(out)@ + zeros(i as nat),
        decreases n - i,
    {
        out.push('0');
        i += 1;
        assert(out@ =~= old(out)@ + zeros(i as nat));
    }
}

/// Write `d * 10^x` without a power of ten.
fn write_plain(d: u64, x: i64) -> (r: String)
    requires
        0 < d <= 100_000_000_000_000_000,
        -1000 <= x <= 1000,
    ensures
        r@ == plain_text(d as nat, x as int),
{
    let mut m: u64 = d;
    let mut k: i64 = x;
    while m % 10 == 0
        invariant
            0 < m,
            significant(d as nat, x as int) == significant(m as nat, k as int),
            k + m <= 1000 + d,
            d <= 100_000_000_000_000_000,
            -1000 <= k,
        decreases m,
    {
        m = m / 10;
        k += 1;
    }
    let digits = text::number_text(m);
    let cs = text::chars_of(digits.as_str());
    let n: usize = cs.len();
    let mut out = String::new();
    if k >= 0 {
        out.append(digits.as_str());
        push_zeros(&mut out, k as u64);
        assert(out@ =~= plain_text(d as nat, x as int));
    } else if n as u64 > (-k) as u64 {
        let split: usize = n - (-k) as usize;
        out.append(text::substring_of(&cs, 0, split).as_str());
        out.push('.');
        out.append(text::substring_of(&cs, split, n).as_str());
        assert(out@ =~= plain_text(d as nat, x as int));
    } else {
        out.push('0');
        out.push('.');
        push_zeros(&mut out, (-k) as u64 - n as u64);
        out.append(digits.as_str());
        assert(out@ =~= plain_text(d as nat, x as int));
    }
    out
}

impl Double {
    /// Write the number with the fewest digits that read back as it.
    pub fn to_text(self) -> (r: String)
        ensures
            r@ == double_text(self),
    {
        let b = self.magnitude_bits();
        if b > double::INFINITE {
            return text::owned("NaN");
        }
        let mut out = String::new();
        if self.bits >= double::SIGN {
            out.push('-');
        }
        assert(self.negative() ==> out@ =~= seq!['-']);
        assert(!self.negative() ==> out@ =~= Seq::<char>::empty());
        if b == double::INFINITE {
            out.append("inf");
        } else if b == 0 {
            out.append("0");
        } else {
            let (d, x) = shortest_digits(b);
            out.append(write_plain(d, x).as_str());
        }
        out
    }

    /// Write the number as JSON does: whole numbers below 1e15 plainly, and
    /// everything else with the fewest digits that read back as it.
    pub fn to_json_text(self) -> (r: String)
        ensures
            r@ == json_number_text(self),
    {
        let b = self.magnitude_bits();
        proof {
            double::lemma_below_1e15(b as nat);
            lemma_whole_below(b as nat, 1_000_000_000_000_000);
        }
        if b < 0x430C_6BF5_2634_0000 {
            let (w, exact) = double::whole_part(b);
            if exact {
                return if self.bits >= double::SIGN {
                    text::signed_number_text(-(w as i64))
                } else {
                    text::signed_number_text(w as i64)
                };
            }
        }
        self.to_text()
    }
}

proof fn lemma_whole_below(b: nat, limit: nat)
    ensures
        double::whole(b) < limit <==> double::size(b) < limit * pow2(1074),
{
    let n = double::size(b);
    let p = pow2(1074);
    vstd::arithmetic::power2::lemma_pow2_pos(1074);
    vstd::arithmetic::div_mod::lemma_fundamental_div_mod(n as int, p as int);
    let q = n / p;
    let r = n % p;
    assert(q < limit <==> n < limit * p) by (nonlinear_arith)
        requires
            n == p * q + r,
            0 <= r < p,
    ;
}

// ---------------------------------------------------------------------------
// Seventeen digits are enough

proof fn lemma_gaps(b: nat)
    requires
        b > 0,
    ensures
        0x20_0000_0000_0000 * (double::size(b + 1) - double::size(b)) >= double::size(b),
        0x20_0000_0000_0000 * (double::size(b) - double::size((b - 1) as nat)) >= double::size(b),
{
    let u = 0x10_0000_0000_0000nat;
    let s = double::size(b);
    if b <= u {
        double::lemma_size_order(b, b + 1);
        vstd::arithmetic::power2::lemma2_to64();
        if b == u {
            double::lemma_size_at(0, u);
            assert(u * 1 == u);
        }
    } else {
        let e = (b / u - 1) as nat;
        let q = u + b % u;
        assert(b == e * u + q) by (nonlinear_arith)
            requires
                e == b / u - 1,
                q == u + b % u,
                u == 0x10_0000_0000_0000,
        ;
        let p = pow2(e);
        double::lemma_size_at(e, q);
        double::lemma_size_at(e, q + 1);
        assert((q + 1) * p == q * p + p) by (nonlinear_arith);
        assert(0x20_0000_0000_0000 * p >= q * p) by (nonlinear_arith)
            requires
                q <= 0x20_0000_0000_0000,
                p >= 0,
        ;
        if q > u {
            double::lemma_size_at(e, (q - 1) as nat);
            assert((q - 1) * p == q * p - p) by (nonlinear_arith);
        } else {
            assert(e >= 1);
            let h = pow2((e - 1) as nat);
            vstd::arithmetic::power2::lemma_pow2_unfold(e);
            double::lemma_size_at((e - 1) as nat, (2 * u - 1) as nat);
            assert((e - 1) * u + (2 * u - 1) == b - 1) by (nonlinear_arith)
                requires
                    b == e * u + u,
            ;
            assert((2 * u - 1) * h == 2 * (u * h) - h) by (nonlinear_arith);
            assert(u * (2 * h) == 2 * (u * h)) by (nonlinear_arith);
        }
    }
}

/// Where `a / c` is within one part in 2^54 of a double, it rounds to it.
proof fn lemma_close(a: nat, c: nat, b: nat)
    requires
        0 < b < double::INFINITE,
        c > 0,
        0x40_0000_0000_0000 * (a * pow2(1074) - double::size(b) * c) < double::size(b) * c,
        0x40_0000_0000_0000 * (double::size(b) * c - a * pow2(1074)) < double::size(b) * c,
    ensures
        double::is_nearest(a, c, b),
{
    lemma_gaps(b);
    let s = double::size(b);
    let up = double::size(b + 1);
    let down = double::size((b - 1) as nat);
    let t = a * pow2(1074);
    assert(0x20_0000_0000_0000 * (up * c - s * c) >= s * c) by (nonlinear_arith)
        requires
            0x20_0000_0000_0000 * (up - s) >= s,
            c > 0,
    ;
    assert(0x20_0000_0000_0000 * (s * c - down * c) >= s * c) by (nonlinear_arith)
        requires
            0x20_0000_0000_0000 * (s - down) >= s,
            c > 0,
    ;
    assert((down + s) * c == down * c + s * c) by (nonlinear_arith);
    assert((s + up) * c == s * c + up * c) by (nonlinear_arith);
}

proof fn lemma_tens(e: int)
    ensures
        ten(e - 16) * ten(-e) * ten(16) == ten(16 - e) * ten(e),
{
    vstd::arithmetic::power::lemma_pow0(10);
    let a = ten(e - 16);
    let b = ten(-e);
    let c = ten(16);
    let f = ten(16 - e);
    let g = ten(e);
    if e >= 16 {
        lemma_ten_sum(e - 16, 16);
        assert(b == 1 && f == 1);
    } else if e >= 0 {
        lemma_ten_sum(16 - e, e);
        assert(a == 1 && b == 1);
    } else {
        lemma_ten_sum(-e, 16);
        assert(a == 1 && g == 1);
    }
    assert(a * b * c == f * g) by (nonlinear_arith)
        requires
            (b == 1 && f == 1 && g == a * c) || (a == 1 && b == 1 && c == f * g) || (a == 1 && g
                == 1 && f == b * c),
    ;
}

proof fn lemma_ten_sum(j: int, k: int)
    requires
        j >= 0,
        k >= 0,
    ensures
        ten(j + k) == ten(j) * ten(k),
{
    vstd::arithmetic::power::lemma_pow_adds(10, j as nat, k as nat);
    vstd::arithmetic::power::lemma_pow_positive(10, j as nat);
    vstd::arithmetic::power::lemma_pow_positive(10, k as nat);
    vstd::arithmetic::power::lemma_pow_positive(10, (j + k) as nat);
}

proof fn lemma_regroup(d: int, tx: int, p: int, n: int, me: int, t: int)
    by (nonlinear_arith)
    ensures
        (d * tx * p) * (n * me * t) == (d * p * n) * (tx * me * t),
{
}

proof fn lemma_regroup_again(d: int, p: int, n: int, mx: int, te: int)
    by (nonlinear_arith)
    ensures
        (n * mx) * (d * (p * te)) == (d * p * n) * (mx * te),
{
}

proof fn lemma_nearest_17(b: nat, e: int, d: nat)
    requires
        0 < b < double::INFINITE,
        reaches(b, e),
        2 * (d * lead_den(e) - lead_num(b, e) * ten(16)) <= lead_den(e),
        2 * (lead_num(b, e) * ten(16) - d * lead_den(e)) <= lead_den(e),
    ensures
        double::decimal_bits(d, e - 16) == b,
{
    let x = e - 16;
    let a = double::decimal_num(d, x);
    let c = double::decimal_den(x);
    let n = double::size(b);
    let p = pow2(1074);
    let num = lead_num(b, e);
    let den = lead_den(e);
    let t = ten(16);
    vstd::arithmetic::power::lemma_pow0(10);
    lemma_ten_18();
    lemma_ten_positive(x);
    lemma_ten_positive(-x);
    lemma_reaches_next(b, e);
    double::lemma_size_order(0, b);
    if x < 0 {
        assert(d * 1 == d);
    }
    assert(a == d * ten(x) && c == ten(-x));
    lemma_tens(e);
    let tx = ten(x);
    let te = ten(e);
    let me = ten(-e);
    let mx = ten(-x);
    assert(16 - e == -x);
    let ap = a * p;
    let nc = n * c;
    lemma_regroup(d as int, tx as int, p as int, n as int, me as int, t as int);
    lemma_regroup_again(d as int, p as int, n as int, mx as int, te as int);
    assert(ap * (num * t) == nc * (d * den));
    let y = num * t;
    let w = d * den;
    // (ap - nc) * y == nc * (w - y), and |2 (w - y)| <= den <= num.
    assert((ap - nc) * y == nc * (w - y)) by (nonlinear_arith)
        requires
            ap * y == nc * w,
    ;
    assert(nc > 0) by (nonlinear_arith)
        requires
            nc == n * c,
            n > 0,
            c > 0,
    ;
    let g = ap - nc;
    let h = w - y;
    assert(2 * g * t <= nc && -2 * g * t <= nc) by (nonlinear_arith)
        requires
            g * (num * t) == nc * h,
            2 * h <= num,
            -2 * h <= num,
            nc > 0,
            num > 0,
    {
        assert(2 * (nc * h) <= nc * num);
        assert(-2 * (nc * h) <= nc * num);
        assert(2 * g * t * num == 2 * (nc * h));
        assert(-2 * g * t * num == -2 * (nc * h));
    }
    assert(2 * g * 10_000_000_000_000_000 <= nc);
    assert(-2 * g * 10_000_000_000_000_000 <= nc);
    lemma_close(a, c, b);
    double::lemma_decimal_bits(d, x, b as u64);
}

proof fn lemma_first_digit(b: nat, e: int)
    requires
        b < double::INFINITE,
        reaches(b, e),
        e <= 342,
    ensures
        reaches(b, decade(b)) && !reaches(b, decade(b) + 1),
    decreases 342 - e,
{
    if e == 342 {
        lemma_exponent_up(b, e);
    } else if reaches(b, e + 1) {
        lemma_first_digit(b, e + 1);
    }
}

proof fn lemma_digits_read_back(b: nat, p: nat)
    requires
        0 < b < double::INFINITE,
        1 <= p <= 17,
        reaches(b, decade(b)) && !reaches(b, decade(b) + 1),
    ensures
        double::decimal_bits(shortest(b, p).0, shortest(b, p).1) == b,
    decreases 17 - p,
{
    if rounded_digits(b, p) is None {
        if p < 17 {
            lemma_digits_read_back(b, p + 1);
        } else {
            let e = decade(b);
            let num = lead_num(b, e) * ten(16);
            let den = lead_den(e);
            lemma_reaches_next(b, e);
            vstd::arithmetic::div_mod::lemma_fundamental_div_mod(num as int, den as int);
            let q = num / den;
            let r = num % den;
            assert(q * den == den * q) by (nonlinear_arith);
            assert((q + 1) * den == q * den + den) by (nonlinear_arith);
            if 2 * r >= den {
                lemma_nearest_17(b, e, q + 1);
            } else {
                lemma_nearest_17(b, e, q);
            }
        }
    }
}

/// The digits that `to_text` writes for a finite number other than zero read
/// back as the same number: seventeen are always enough.
pub proof fn law_digits_read_back(b: nat)
    requires
        0 < b < double::INFINITE,
    ensures
        double::decimal_bits(shortest(b, 1).0, shortest(b, 1).1) == b,
{
    if !reaches(b, -358) {
        lemma_exponent_down(b, -358);
    }
    lemma_first_digit(b, -358);
    lemma_digits_read_back(b, 1);
}

} // verus!
