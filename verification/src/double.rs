//! Double-precision numbers held as their IEEE 754 bit patterns, and their
//! exact reading from decimal text.
//!
//! Everything here is integer arithmetic. A finite double is a whole number
//! of units of 2^-1074, and that number is what specifications speak of.

use vstd::prelude::*;
use vstd::arithmetic::power::pow;
use vstd::arithmetic::power2::pow2;

use crate::natural::Natural;
use crate::text;

verus! {

/// A double-precision number, by its IEEE 754 bits.
#[derive(Debug, Clone, Copy)]
pub struct Double {
    pub bits: u64,
}

/// The sign bit.
pub const SIGN: u64 = 0x8000_0000_0000_0000;

/// The bits of positive infinity.
pub const INFINITE: u64 = 0x7FF0_0000_0000_0000;

/// The bits of a quiet NaN.
pub const NOT_A_NUMBER: u64 = 0x7FF8_0000_0000_0000;

/// How many units of 2^-1074 the non-negative double with bits `b` is. The
/// bits of infinity count as the power of two that follows the largest
/// finite double.
pub open spec fn size(b: nat) -> nat {
    if b < 0x10_0000_0000_0000 {
        b
    } else {
        (0x10_0000_0000_0000 + b % 0x10_0000_0000_0000) * pow2((b / 0x10_0000_0000_0000 - 1) as nat)
    }
}

/// The double with bits `b` is the one nearest to `num / den`; between two
/// equally near ones it is the even one.
pub open spec fn is_nearest(num: nat, den: nat, b: nat) -> bool {
    let twice = 2 * (num * pow2(1074));
    &&& b <= INFINITE
    &&& b > 0 ==> {
        let middle = (size((b - 1) as nat) + size(b)) * den;
        middle < twice || (middle == twice && b % 2 == 0)
    }
    &&& b < INFINITE ==> {
        let middle = (size(b) + size(b + 1)) * den;
        twice < middle || (middle == twice && b % 2 == 0)
    }
}

/// The bits of the double nearest to `num / den`.
pub open spec fn nearest_bits(num: nat, den: nat) -> u64 {
    choose|b: u64| is_nearest(num, den, b as nat)
}

/// The numerator of `digits * 10^exponent`.
pub open spec fn decimal_num(digits: nat, exponent: int) -> nat {
    if exponent >= 0 {
        digits * pow(10, exponent as nat) as nat
    } else {
        digits
    }
}

/// The denominator of `digits * 10^exponent`.
pub open spec fn decimal_den(exponent: int) -> nat {
    if exponent >= 0 {
        1
    } else {
        pow(10, (-exponent) as nat) as nat
    }
}

/// The bits of the double nearest to `digits * 10^exponent`.
pub open spec fn decimal_bits(digits: nat, exponent: int) -> u64 {
    nearest_bits(decimal_num(digits, exponent), decimal_den(exponent))
}

impl Double {
    /// Whether the sign bit is set.
    pub open spec fn negative(self) -> bool {
        self.bits >= SIGN
    }

    /// The bits without the sign.
    pub open spec fn magnitude(self) -> nat {
        if self.negative() {
            (self.bits - SIGN) as nat
        } else {
            self.bits as nat
        }
    }

    /// Whether this is no number.
    pub open spec fn is_nan(self) -> bool {
        self.magnitude() > INFINITE
    }

    /// Where the number lies, in units of 2^-1074; the infinities lie beyond
    /// every finite number.
    pub open spec fn place(self) -> int {
        if self.negative() {
            -(size(self.magnitude()) as int)
        } else {
            size(self.magnitude()) as int
        }
    }
}

/// Numbers are equal where they lie at the same place: the two zeros are, and
/// a NaN is equal to nothing.
impl PartialEq for Double {
    fn eq(&self, other: &Double) -> (r: bool) {
        proof {
            lemma_size_order(self.magnitude(), other.magnitude());
            lemma_size_order(other.magnitude(), self.magnitude());
            lemma_size_order(0, self.magnitude());
            lemma_size_order(0, other.magnitude());
        }
        let zeros = (self.bits == 0 || self.bits == SIGN) && (other.bits == 0 || other.bits == SIGN);
        zeros || (self.bits == other.bits && !self.not_a_number())
    }
}

impl vstd::std_specs::cmp::PartialEqSpecImpl for Double {
    open spec fn obeys_eq_spec() -> bool {
        true
    }

    open spec fn eq_spec(&self, other: &Double) -> bool {
        !self.is_nan() && !other.is_nan() && self.place() == other.place()
    }
}

// ---------------------------------------------------------------------------
// The doubles in order

pub proof fn lemma_size_at(e: nat, q: nat)
    requires
        q <= 0x20_0000_0000_0000,
        e == 0 || q >= 0x10_0000_0000_0000,
    ensures
        size(e * 0x10_0000_0000_0000 + q) == q * pow2(e),
{
    let u = 0x10_0000_0000_0000nat;
    let b = e * u + q;
    vstd::arithmetic::power2::lemma2_to64();
    if b < u {
        assert(e == 0);
        assert(q * pow2(0) == q) by (nonlinear_arith)
            requires
                pow2(0) == 1,
        ;
    } else if q < 2 * u {
        assert(b / u == e + 1 && b % u == q - u) by (nonlinear_arith)
            requires
                b == e * u + q,
                u <= q < 2 * u,
                u == 0x10_0000_0000_0000,
        ;
    } else {
        assert(b / u == e + 2 && b % u == 0) by (nonlinear_arith)
            requires
                b == e * u + q,
                q == 2 * u,
                u == 0x10_0000_0000_0000,
        ;
        vstd::arithmetic::power2::lemma_pow2_unfold((e + 1) as nat);
        assert(u * (2 * pow2(e)) == (2 * u) * pow2(e)) by (nonlinear_arith);
    }
}

/// A double with larger bits is larger.
pub proof fn lemma_size_next(b: nat)
    ensures
        size(b) < size(b + 1),
{
    let u = 0x10_0000_0000_0000nat;
    if b < u {
        vstd::arithmetic::power2::lemma2_to64();
        if b + 1 == u {
            assert(u * pow2(0) == u) by (nonlinear_arith)
                requires
                    pow2(0) == 1,
            ;
            assert((b + 1) / u == 1 && (b + 1) % u == 0);
        }
    } else {
        let e = (b / u - 1) as nat;
        let q = u + b % u;
        assert(b == e * u + q) by (nonlinear_arith)
            requires
                e == b / u - 1,
                q == u + b % u,
                u == 0x10_0000_0000_0000,
        ;
        lemma_size_at(e, q);
        lemma_size_at(e, q + 1);
        vstd::arithmetic::power2::lemma_pow2_pos(e);
        assert((q + 1) * pow2(e) == q * pow2(e) + pow2(e)) by (nonlinear_arith);
    }
}

/// Sizes keep the order of the bits.
pub proof fn lemma_size_order(a: nat, b: nat)
    ensures
        a < b <==> size(a) < size(b),
    decreases a + b,
{
    if a < b {
        if a + 1 < b {
            lemma_size_order(a, (b - 1) as nat);
        }
        lemma_size_next((b - 1) as nat);
    } else if b < a {
        if b + 1 < a {
            lemma_size_order(b, (a - 1) as nat);
        }
        lemma_size_next((a - 1) as nat);
    }
}

/// At most one double is the nearest one.
pub proof fn lemma_nearest_unique(num: nat, den: nat, a: nat, b: nat)
    requires
        den > 0,
        is_nearest(num, den, a),
        is_nearest(num, den, b),
    ensures
        a == b,
{
    if a != b {
        let (lo, hi) = if a < b {
            (a, b)
        } else {
            (b, a)
        };
        let twice = 2 * (num * pow2(1074));
        let m1 = (size(lo) + size(lo + 1)) * den;
        let m2 = (size((hi - 1) as nat) + size(hi)) * den;
        assert(twice <= m1);
        assert(m2 <= twice);
        lemma_size_order(lo + 1, hi);
        lemma_size_order(lo, (hi - 1) as nat);
        let s1 = size(lo) + size(lo + 1);
        let s2 = size((hi - 1) as nat) + size(hi);
        if lo + 1 < hi {
            assert(s1 < s2);
            assert(s1 * den < s2 * den) by (nonlinear_arith)
                requires
                    s1 < s2,
                    den > 0,
            ;
        } else {
            assert(hi == lo + 1);
            assert(lo % 2 == 0 && hi % 2 == 0);
        }
    }
}

proof fn lemma_search_nearest(num: nat, den: nat, b: nat)
    requires
        den > 0,
        b <= INFINITE,
        b > 0 ==> (size((b - 1) as nat) + size(b)) * den < 2 * (num * pow2(1074)),
    ensures
        exists|c: u64| is_nearest(num, den, c as nat),
    decreases INFINITE - b,
{
    let twice = 2 * (num * pow2(1074));
    let middle = (size(b) + size(b + 1)) * den;
    if b == INFINITE || twice < middle || (twice == middle && b % 2 == 0) {
        assert(is_nearest(num, den, (b as u64) as nat));
    } else if twice == middle {
        lemma_size_next(b);
        lemma_size_next(b + 1);
        let s = size(b) + size(b + 1);
        let t = size(b + 1) + size(b + 2);
        assert(s * den < t * den) by (nonlinear_arith)
            requires
                s < t,
                den > 0,
        ;
        assert(b + 1 + 1 == b + 2);
        assert(is_nearest(num, den, ((b + 1) as u64) as nat));
    } else {
        lemma_search_nearest(num, den, b + 1);
    }
}

/// There is a nearest double, and it is no NaN.
pub proof fn lemma_nearest_bits(num: nat, den: nat)
    requires
        den > 0,
    ensures
        is_nearest(num, den, nearest_bits(num, den) as nat),
        nearest_bits(num, den) <= INFINITE,
{
    lemma_search_nearest(num, den, 0);
}

proof fn lemma_decimal_den_positive(exponent: int)
    ensures
        decimal_den(exponent) > 0,
{
    if exponent < 0 {
        vstd::arithmetic::power::lemma_pow_positive(10, (-exponent) as nat);
    }
}

/// The nearest double is the one `decimal_bits` means.
pub proof fn lemma_decimal_bits(digits: nat, exponent: int, b: u64)
    requires
        is_nearest(decimal_num(digits, exponent), decimal_den(exponent), b as nat),
    ensures
        decimal_bits(digits, exponent) == b,
{
    lemma_decimal_den_positive(exponent);
    let c = decimal_bits(digits, exponent);
    lemma_nearest_unique(
        decimal_num(digits, exponent),
        decimal_den(exponent),
        b as nat,
        c as nat,
    );
}

// ---------------------------------------------------------------------------
// Rounding a fraction

proof fn lemma_halves(t: int, top: int, q: int, r: int, w: int)
    requires
        top > 0,
        w > 0,
        0 <= r < top,
        t * top == (q * top + r) * w,
    ensures
        2 * r < top ==> 2 * t < (2 * q + 1) * w,
        2 * r == top ==> 2 * t == (2 * q + 1) * w,
        2 * r > top ==> 2 * t > (2 * q + 1) * w,
        q * w <= t,
        t < (q + 1) * w,
{
    let d = 2 * t - (2 * q + 1) * w;
    assert(d * top == (2 * r - top) * w) by (nonlinear_arith)
        requires
            d == 2 * t - (2 * q + 1) * w,
            t * top == (q * top + r) * w,
    ;
    let f = 2 * r - top;
    assert(f < 0 ==> d < 0) by (nonlinear_arith)
        requires
            d * top == f * w,
            top > 0,
            w > 0,
    ;
    assert(f == 0 ==> d == 0) by (nonlinear_arith)
        requires
            d * top == f * w,
            top > 0,
    ;
    assert(f > 0 ==> d > 0) by (nonlinear_arith)
        requires
            d * top == f * w,
            top > 0,
            w > 0,
    ;
    let g = t - q * w;
    assert(g * top == r * w) by (nonlinear_arith)
        requires
            g == t - q * w,
            t * top == (q * top + r) * w,
    ;
    assert(g >= 0) by (nonlinear_arith)
        requires
            g * top == r * w,
            top > 0,
            w > 0,
            r >= 0,
    ;
    assert(g < w) by (nonlinear_arith)
        requires
            g * top == r * w,
            top > 0,
            w > 0,
            r < top,
    ;
    assert((q + 1) * w == q * w + w) by (nonlinear_arith);
}

proof fn lemma_infinite(num: nat, den: nat)
    requires
        num * pow2(1074) >= pow2(2098) * den,
        den > 0,
    ensures
        is_nearest(num, den, INFINITE as nat),
{
    let t = num * pow2(1074);
    lemma_size_at(2046, 0x10_0000_0000_0000);
    assert(2046 * 0x10_0000_0000_0000 + 0x10_0000_0000_0000 == INFINITE);
    vstd::arithmetic::power2::lemma_pow2_adds(52, 2046);
    vstd::arithmetic::power2::lemma2_to64();
    vstd::arithmetic::power2::lemma2_to64_rest();
    assert(size(INFINITE as nat) == pow2(2098));
    lemma_size_next((INFINITE - 1) as nat);
    let s = size((INFINITE - 1) as nat);
    let p = pow2(2098);
    assert((s + p) * den < 2 * t) by (nonlinear_arith)
        requires
            s < p,
            t >= p * den,
            den > 0,
    ;
}

proof fn lemma_rounded(num: nat, den: nat, top: nat, q: nat, r: nat, e: nat)
    requires
        den > 0,
        r < top,
        q < 0x20_0000_0000_0000,
        e == 0 || q >= 0x10_0000_0000_0000,
        e <= 2045,
        (num * pow2(1074)) * top == (q * top + r) * (den * pow2(e)),
    ensures
        (2 * r < top || (2 * r == top && q % 2 == 0)) ==> is_nearest(
            num,
            den,
            e * 0x10_0000_0000_0000 + q,
        ),
        (2 * r > top || (2 * r == top && q % 2 == 1)) ==> is_nearest(
            num,
            den,
            e * 0x10_0000_0000_0000 + q + 1,
        ),
{
    let t = num * pow2(1074);
    let p = pow2(e);
    let w = den * p;
    vstd::arithmetic::power2::lemma_pow2_pos(e);
    assert(w > 0) by (nonlinear_arith)
        requires
            w == den * p,
            den > 0,
            p > 0,
    ;
    lemma_halves(t as int, top as int, q as int, r as int, w as int);
    let b = e * 0x10_0000_0000_0000 + q;
    assert(b % 2 == q % 2);
    lemma_size_at(e, q);
    lemma_size_at(e, q + 1);
    assert(size(b) == q * p);
    assert(size(b + 1) == (q + 1) * p);
    assert((size(b) + size(b + 1)) * den == (2 * q + 1) * w) by (nonlinear_arith)
        requires
            size(b) == q * p,
            size(b + 1) == (q + 1) * p,
            w == den * p,
    ;
    assert(size(b) * den == q * w) by (nonlinear_arith)
        requires
            size(b) == q * p,
            w == den * p,
    ;
    assert(size(b + 1) * den == (q + 1) * w) by (nonlinear_arith)
        requires
            size(b + 1) == (q + 1) * p,
            w == den * p,
    ;
    if b > 0 {
        lemma_size_next((b - 1) as nat);
        let s = size((b - 1) as nat);
        let sb = size(b);
        assert((s + sb) * den < 2 * t) by (nonlinear_arith)
            requires
                s < sb,
                sb * den <= t,
                den > 0,
        ;
    }
    if b + 1 < INFINITE {
        lemma_size_next(b + 1);
        let s = size(b + 2);
        let sb = size(b + 1);
        assert(2 * t < (sb + s) * den) by (nonlinear_arith)
            requires
                sb < s,
                t < sb * den,
                den > 0,
        ;
        assert(b + 1 + 1 == b + 2);
    }
}

pub proof fn lemma_pow2_bound(a: nat, b: nat)
    requires
        a <= b,
    ensures
        pow2(a) <= pow2(b),
{
    if a < b {
        vstd::arithmetic::power2::lemma_pow2_strictly_increases(a, b);
    }
}

/// The quotient identity that ties the long division to the fraction.
proof fn lemma_scaled_division(
    num: nat,
    den: nat,
    up: nat,
    down: nat,
    e: nat,
    top: nat,
    q: nat,
    r: nat,
)
    requires
        e + up == 1074 + down,
        top == den * pow2(down) * pow2(53),
        num * pow2(up) * pow2(53) == q * top + r,
    ensures
        (num * pow2(1074)) * top == (q * top + r) * (den * pow2(e)),
{
    vstd::arithmetic::power2::lemma_pow2_adds(up, e);
    vstd::arithmetic::power2::lemma_pow2_adds(1074, down);
    let pu = pow2(up);
    let pe = pow2(e);
    let p1 = pow2(1074);
    let pd = pow2(down);
    let p53 = pow2(53);
    assert(pu * pe == p1 * pd);
    assert(num * pu * p53 * (den * pe) == num * den * p53 * (pu * pe)) by (nonlinear_arith);
    assert((num * p1) * (den * pd * p53) == num * den * p53 * (p1 * pd)) by (nonlinear_arith);
}

/// The bits of the double nearest to `num / den`.
fn nearest(num: Natural, den: Natural) -> (r: u64)
    requires
        den@ > 0,
    ensures
        is_nearest(num@, den@, r as nat),
{
    let ghost n = num@;
    let ghost m = den@;
    let nb: usize = num.rough_bits() % 0x1000_0000;
    let db: usize = den.rough_bits() % 0x1000_0000;
    // A first guess at the scaling that leaves a quotient of 53 bits.
    let mut up: usize = 0;
    let mut down: usize = 0;
    if nb <= db + 53 {
        up = 53 + db - nb;
        if up > 1074 {
            up = 1074;
        }
    } else {
        down = nb - db - 53;
        if down > 3000 {
            down = 3000;
        }
    }
    let mut a = num;
    a.scale_pow2(up);
    let mut top = den;
    top.scale_pow2(down);
    top.scale_pow2(53);
    proof {
        vstd::arithmetic::power2::lemma_pow2_pos(down as nat);
        vstd::arithmetic::power2::lemma_pow2_pos(53);
        assert(m * pow2(down as nat) * pow2(53) > 0) by (nonlinear_arith)
            requires
                m > 0,
                pow2(down as nat) > 0,
                pow2(53) > 0,
        ;
    }
    // Bring the quotient below 2^53.
    while !a.less(&top)
        invariant
            n == num@,
            m == den@,
            m > 0,
            up <= 1074,
            down <= 3000,
            a@ == n * pow2(up as nat),
            top@ == m * pow2(down as nat) * pow2(53),
            top@ > 0,
        decreases 2 * a@ - top@,
    {
        if down == 3000 {
            proof {
                let pu = pow2(up as nat);
                let p1 = pow2(1074);
                lemma_pow2_bound(up as nat, 1074);
                assert(n * pu <= n * p1) by (nonlinear_arith)
                    requires
                        pu <= p1,
                ;
                vstd::arithmetic::power2::lemma_pow2_adds(3000, 53);
                let pd = pow2(3000);
                let p53 = pow2(53);
                let pb = pow2(3053);
                let pi = pow2(2098);
                lemma_pow2_bound(2098, 3053);
                assert(m * pd * p53 == pb * m) by (nonlinear_arith)
                    requires
                        pb == pd * p53,
                ;
                assert(pi * m <= pb * m) by (nonlinear_arith)
                    requires
                        pi <= pb,
                ;
                lemma_infinite(n, m);
            }
            return INFINITE;
        }
        let ghost was = top@;
        top.scale(2, 0);
        proof {
            vstd::arithmetic::power2::lemma_pow2_unfold((down + 1) as nat);
            let pd = pow2(down as nat);
            let p53 = pow2(53);
            assert(m * pd * p53 * 2 == m * (2 * pd) * p53) by (nonlinear_arith);
        }
        down += 1;
    }
    // Bring it to 2^52 at least, unless the unit is already the smallest.
    while up < 1074 + down
        invariant
            m > 0,
            up <= 1074 + down,
            down <= 3000,
            a@ == n * pow2(up as nat),
            top@ == m * pow2(down as nat) * pow2(53),
            a@ < top@,
        ensures
            up == 1074 + down || 2 * a@ >= top@,
        decreases 1074 + down - up,
    {
        let mut twice = a.copy();
        twice.scale(2, 0);
        if !twice.less(&top) {
            break;
        }
        proof {
            vstd::arithmetic::power2::lemma_pow2_unfold((up + 1) as nat);
            let pu = pow2(up as nat);
            assert(n * pu * 2 == n * (2 * pu)) by (nonlinear_arith);
        }
        a = twice;
        up += 1;
    }
    let e: usize = 1074 + down - up;
    let ghost start = a@;
    if e >= 2046 {
        proof {
            let pu = pow2(up as nat);
            let pd = pow2(down as nat);
            let p53 = pow2(53);
            let pe = pow2(e as nat);
            let p1 = pow2(1074);
            let pi = pow2(2098);
            vstd::arithmetic::power2::lemma_pow2_adds(up as nat, e as nat);
            vstd::arithmetic::power2::lemma_pow2_adds(1074, down as nat);
            vstd::arithmetic::power2::lemma_pow2_adds(52, e as nat);
            vstd::arithmetic::power2::lemma_pow2_unfold(53);
            vstd::arithmetic::power2::lemma_pow2_pos(up as nat);
            vstd::arithmetic::power2::lemma_pow2_pos(52);
            vstd::arithmetic::power2::lemma_pow2_pos(down as nat);
            vstd::arithmetic::power2::lemma_pow2_pos(e as nat);
            let p52 = pow2(52);
            lemma_pow2_bound(2098, (52 + e) as nat);
            // n * pu >= m * pd * p52, hence n * p1 >= m * p52 * pe.
            assert(n * pu >= m * pd * p52) by (nonlinear_arith)
                requires
                    2 * (n * pu) >= m * pd * p53,
                    p53 == 2 * p52,
            ;
            assert(n * p1 >= m * p52 * pe) by (nonlinear_arith)
                requires
                    n * pu >= m * pd * p52,
                    pu * pe == p1 * pd,
                    pd > 0,
                    pe > 0,
            {
                assert(n * p1 * pd == n * (p1 * pd));
                assert(n * (pu * pe) == n * pu * pe);
                assert(n * pu * pe >= m * pd * p52 * pe);
                assert(m * pd * p52 * pe == m * p52 * pe * pd);
                assert(n * p1 * pd >= m * p52 * pe * pd);
            }
            assert(m * p52 * pe >= pi * m) by (nonlinear_arith)
                requires
                    pi <= p52 * pe,
            ;
            lemma_infinite(n, m);
        }
        return INFINITE;
    }
    let mut q: u64 = 0;
    let mut i: usize = 0;
    proof {
        vstd::arithmetic::power2::lemma2_to64();
        vstd::arithmetic::power2::lemma2_to64_rest();
        assert(start * pow2(0) == start) by (nonlinear_arith)
            requires
                pow2(0) == 1,
        ;
        assert(0 * top@ == 0);
    }
    while i < 53
        invariant
            i <= 53,
            a@ < top@,
            q < pow2(i as nat),
            start * pow2(i as nat) == q * top@ + a@,
        decreases 53 - i,
    {
        proof {
            vstd::arithmetic::power2::lemma_pow2_unfold((i + 1) as nat);
            vstd::arithmetic::power2::lemma2_to64();
            vstd::arithmetic::power2::lemma2_to64_rest();
            lemma_pow2_bound(i as nat, 52);
            let p = pow2(i as nat);
            let t = top@;
            assert(start * (2 * p) == (2 * q) * t + 2 * a@) by (nonlinear_arith)
                requires
                    start * p == q * t + a@,
            ;
            assert((2 * q + 1) * t == (2 * q) * t + t) by (nonlinear_arith);
        }
        a.scale(2, 0);
        q = 2 * q;
        if !a.less(&top) {
            a.subtract(&top);
            q = q + 1;
        }
        i += 1;
    }
    let mut twice = a.copy();
    twice.scale(2, 0);
    let over = top.less(&twice);
    let under = twice.less(&top);
    proof {
        vstd::arithmetic::power2::lemma2_to64();
        vstd::arithmetic::power2::lemma2_to64_rest();
        if e > 0 {
            // The quotient has its 53rd bit.
            let t = top@;
            assert(q >= 0x10_0000_0000_0000) by (nonlinear_arith)
                requires
                    start * 0x20_0000_0000_0000 == q * t + a@,
                    2 * start >= t,
                    a@ < t,
            ;
        }
        lemma_scaled_division(
            n,
            m,
            up as nat,
            down as nat,
            e as nat,
            top@,
            q as nat,
            a@,
        );
        lemma_rounded(n, m, top@, q as nat, a@, e as nat);
    }
    let b: u64 = e as u64 * 0x10_0000_0000_0000 + q;
    if over || (!under && q % 2 == 1) {
        b + 1
    } else {
        b
    }
}

// ---------------------------------------------------------------------------
// Decimal numbers

pub proof fn lemma_pow10_pow2(k: nat)
    ensures
        pow(10, k) >= pow2(3 * k),
    decreases k,
{
    vstd::arithmetic::power2::lemma2_to64();
    if k == 0 {
        vstd::arithmetic::power::lemma_pow0(10);
    } else {
        lemma_pow10_pow2((k - 1) as nat);
        vstd::arithmetic::power::lemma_pow_adds(10, (k - 1) as nat, 1);
        vstd::arithmetic::power::lemma_pow1(10);
        vstd::arithmetic::power2::lemma_pow2_adds((3 * (k - 1)) as nat, 3);
        let a = pow(10, (k - 1) as nat);
        let b = pow2((3 * (k - 1)) as nat);
        assert(a * 10 >= b * 8) by (nonlinear_arith)
            requires
                a >= b,
                b >= 0,
        ;
        assert((3 * (k - 1)) as nat + 3 == 3 * k);
    }
}

pub proof fn lemma_pow10_grows(a: nat, b: nat)
    requires
        a <= b,
    ensures
        pow(10, a) <= pow(10, b),
        pow(10, a) > 0,
{
    vstd::arithmetic::power::lemma_pow_increases(10, a, b);
    vstd::arithmetic::power::lemma_pow_positive(10, a);
}

/// A run of `n` digits stands for less than `10^n`.
proof fn lemma_decimal_bound(s: Seq<char>)
    requires
        text::all_digits(s),
    ensures
        text::decimal(s) < pow(10, s.len()),
    decreases s.len(),
{
    if s.len() == 0 {
        vstd::arithmetic::power::lemma_pow0(10);
    } else {
        lemma_decimal_bound(s.drop_last());
        assert(text::is_digit(s.last()));
        vstd::arithmetic::power::lemma_pow_adds(10, (s.len() - 1) as nat, 1);
        vstd::arithmetic::power::lemma_pow1(10);
        let a = text::decimal(s.drop_last());
        let p = pow(10, (s.len() - 1) as nat);
        assert(a * 10 + 9 < p * 10);
        assert((s.len() - 1) as nat + 1 == s.len());
    }
}

proof fn lemma_zero(den: nat)
    requires
        den > 0,
    ensures
        is_nearest(0, den, 0),
{
    assert(0 * pow2(1074) == 0);
    lemma_size_next(0);
    let s = size(0) + size(1);
    assert(s * den > 0) by (nonlinear_arith)
        requires
            s > 0,
            den > 0,
    ;
}

/// A decimal number below `10^-400` rounds to zero.
proof fn lemma_tiny(digits: nat, count: nat, exponent: int)
    requires
        digits < pow(10, count),
        exponent + count <= -400,
    ensures
        is_nearest(decimal_num(digits, exponent), decimal_den(exponent), 0),
{
    let den = decimal_den(exponent);
    lemma_pow10_pow2(400);
    lemma_pow2_bound(1075, 1200);
    vstd::arithmetic::power2::lemma_pow2_unfold(1075);
    lemma_pow10_grows(count + 400, (-exponent) as nat);
    vstd::arithmetic::power::lemma_pow_adds(10, count, 400);
    let c = pow(10, count);
    let h = pow(10, 400);
    let p = pow2(1074);
    vstd::arithmetic::power2::lemma_pow2_pos(1074);
    assert(2 * (digits * p) < c * h) by (nonlinear_arith)
        requires
            digits < c,
            h >= 2 * p,
            p > 0,
            digits >= 0,
    ;
    assert(size(0) == 0 && size(1) == 1);
    assert(1 * den == den);
}

/// A decimal number of `10^400` or more rounds to infinity.
proof fn lemma_huge(digits: nat, exponent: int)
    requires
        digits > 0,
        exponent >= 400,
    ensures
        is_nearest(decimal_num(digits, exponent), decimal_den(exponent), INFINITE as nat),
{
    lemma_pow10_pow2(400);
    lemma_pow10_grows(400, exponent as nat);
    let num = decimal_num(digits, exponent);
    let h = pow(10, exponent as nat);
    assert(digits * h >= h) by (nonlinear_arith)
        requires
            digits > 0,
            h > 0,
    ;
    vstd::arithmetic::power2::lemma_pow2_adds(1200, 1074);
    lemma_pow2_bound(2098, 2274);
    let p = pow2(1074);
    let w = pow2(1200);
    assert(num * p >= w * p) by (nonlinear_arith)
        requires
            num >= w,
            p >= 0,
    ;
    lemma_infinite(num, 1);
}

/// The double nearest to `digits * 10^exponent`, where `digits` stands for
/// less than `10^count`.
pub(crate) fn nearest_decimal(digits: Natural, count: usize, exponent: i128) -> (r: u64)
    requires
        digits@ < pow(10, count as nat),
        -0x1_0000_0000_0000_0000_0000_0000 <= exponent <= 0x1_0000_0000_0000_0000_0000_0000,
    ensures
        r == decimal_bits(digits@, exponent as int),
        r <= INFINITE,
{
    let ghost n = digits@;
    let zero = Natural::new(0);
    let num_bits = if !zero.less(&digits) {
        proof {
            lemma_decimal_den_positive(exponent as int);
            lemma_zero(decimal_den(exponent as int));
            lemma_zero_digits(exponent as int);
        }
        0
    } else if exponent >= 400 {
        proof {
            lemma_huge(n, exponent as int);
        }
        INFINITE
    } else if exponent + count as i128 <= -400 {
        proof {
            lemma_tiny(n, count as nat, exponent as int);
        }
        0
    } else if exponent >= 0 {
        let mut num = digits;
        num.scale_pow10(exponent as usize);
        proof {
            let h = pow(10, exponent as nat);
            lemma_pow10_grows(exponent as nat, exponent as nat);
        }
        nearest(num, Natural::new(1))
    } else {
        let k: i128 = -exponent;
        // Two steps, since the exponent may reach past the count by 400.
        let first: usize = if k <= 400 {
            k as usize
        } else {
            400
        };
        let second: usize = (k - first as i128) as usize;
        let mut den = Natural::new(1);
        den.scale_pow10(first);
        den.scale_pow10(second);
        proof {
            vstd::arithmetic::power::lemma_pow_adds(10, first as nat, second as nat);
            lemma_pow10_grows(k as nat, k as nat);
            let h = pow(10, first as nat);
            assert(1 * h == h);
        }
        nearest(digits, den)
    };
    proof {
        lemma_decimal_bits(n, exponent as int, num_bits);
    }
    num_bits
}

// ---------------------------------------------------------------------------
// Number text

/// The power of ten written after the digits of a number: nothing, or `e`
/// or `E`, a sign if any, and digits.
pub open spec fn power_of_ten(s: Seq<char>) -> Option<int> {
    if s.len() == 0 {
        Some(0)
    } else if s[0] == 'e' || s[0] == 'E' {
        let t = s.skip(1);
        let signed = t.len() > 0 && (t[0] == '-' || t[0] == '+');
        let digits = if signed {
            t.skip(1)
        } else {
            t
        };
        if digits.len() == 0 || !text::all_digits(digits) {
            None
        } else if signed && t[0] == '-' {
            Some(-(text::decimal(digits) as int))
        } else {
            Some(text::decimal(digits) as int)
        }
    } else {
        None
    }
}

/// What an unsigned decimal number writes, as digits and a power of ten:
/// digits with at most one point among them, at least one digit in all, and
/// a power of ten.
pub open spec fn decimal_number(s: Seq<char>) -> Option<(nat, int)> {
    let i = text::digits_end(s, 0);
    let point = i < s.len() && s[i] == '.';
    let j = if point {
        text::digits_end(s, i + 1)
    } else {
        i
    };
    let fraction = if point {
        s.subrange(i + 1, j)
    } else {
        Seq::empty()
    };
    let digits = s.take(i) + fraction;
    if digits.len() == 0 {
        None
    } else {
        match power_of_ten(s.skip(j)) {
            Some(x) => Some((text::decimal(digits), x - fraction.len())),
            None => None,
        }
    }
}

/// The double that an unsigned number text means.
pub open spec fn unsigned_reading(s: Seq<char>) -> Option<u64> {
    match decimal_number(s) {
        Some((digits, exponent)) => Some(decimal_bits(digits, exponent)),
        None => if text::lower_text(s) == "inf"@ || text::lower_text(s) == "infinity"@ {
            Some(INFINITE)
        } else if text::lower_text(s) == "nan"@ {
            Some(NOT_A_NUMBER)
        } else {
            None
        },
    }
}

/// The double that a number text means: the nearest one to the decimal
/// number written, an infinity or a NaN, with a sign if any in front.
pub open spec fn reading(s: Seq<char>) -> Option<Double> {
    let signed = s.len() > 0 && (s[0] == '-' || s[0] == '+');
    let rest = if signed {
        s.skip(1)
    } else {
        s
    };
    match unsigned_reading(rest) {
        Some(b) => Some(
            Double {
                bits: if signed && s[0] == '-' {
                    (b + SIGN) as u64
                } else {
                    b
                },
            },
        ),
        None => None,
    }
}

/// Append the run of digits at `from` to `out` and give its end.
fn take_digits(cs: &[char], from: usize, out: &mut Vec<char>) -> (r: usize)
    requires
        from <= cs@.len(),
    ensures
        r == text::digits_end(cs@, from as int),
        from <= r <= cs@.len(),
        final(out)@ == old(out)@ + cs@.subrange(from as int, r as int),
        text::all_digits(cs@.subrange(from as int, r as int)),
{
    let mut i: usize = from;
    assert(out@ =~= old(out)@ + cs@.subrange(from as int, from as int));
    while i < cs.len() && text::digit(cs[i])
        invariant
            from <= i <= cs@.len(),
            text::digits_end(cs@, from as int) == text::digits_end(cs@, i as int),
            out@ == old(out)@ + cs@.subrange(from as int, i as int),
            forall|k: int| from <= k < i ==> text::is_digit(#[trigger] cs@[k]),
        decreases cs@.len() - i,
    {
        out.push(cs[i]);
        i += 1;
        assert(out@ =~= old(out)@ + cs@.subrange(from as int, i as int));
    }
    i
}

/// The number that a run of digits stands for.
fn natural_of(digits: &[char]) -> (r: Natural)
    requires
        text::all_digits(digits@),
    ensures
        r@ == text::decimal(digits@),
{
    let mut n = Natural::new(0);
    let mut i: usize = 0;
    while i < digits.len()
        invariant
            i <= digits@.len(),
            text::all_digits(digits@),
            n@ == text::decimal(digits@.take(i as int)),
        decreases digits@.len() - i,
    {
        assert(digits@.take(i + 1).drop_last() =~= digits@.take(i as int));
        n.scale(10, text::digit_of(digits[i]) as u32);
        i += 1;
    }
    assert(digits@.take(digits@.len() as int) =~= digits@);
    n
}

/// The number that a run of digits stands for, or 2^80 where it is more.
fn capped_number(cs: &[char], from: usize) -> (r: i128)
    requires
        from <= cs@.len(),
        text::all_digits(cs@.skip(from as int)),
    ensures
        0 <= r <= 0x1_0000_0000_0000_0000_0000,
        r < 0x1_0000_0000_0000_0000_0000 ==> r == text::decimal(cs@.skip(from as int)),
        r == 0x1_0000_0000_0000_0000_0000 ==> r <= text::decimal(cs@.skip(from as int)),
{
    let ghost digits = cs@.skip(from as int);
    let mut n: i128 = 0;
    let mut i: usize = from;
    assert(digits.take(0) =~= Seq::<char>::empty());
    while i < cs.len()
        invariant
            from <= i <= cs@.len(),
            digits == cs@.skip(from as int),
            text::all_digits(digits),
            0 <= n <= 0x1_0000_0000_0000_0000_0000,
            n < 0x1_0000_0000_0000_0000_0000 ==> n == text::decimal(digits.take(i - from)),
            n == 0x1_0000_0000_0000_0000_0000 ==> n <= text::decimal(digits.take(i - from)),
        decreases cs@.len() - i,
    {
        assert(digits.take(i - from + 1).drop_last() =~= digits.take(i - from));
        assert(digits.take(i - from + 1).last() == cs@[i as int]);
        assert(text::is_digit(digits[i - from]));
        n = n * 10 + text::digit_of(cs[i]) as i128;
        if n > 0x1_0000_0000_0000_0000_0000 {
            n = 0x1_0000_0000_0000_0000_0000;
        }
        i += 1;
    }
    assert(digits.take(digits.len() as int) =~= digits);
    n
}

/// Whether every character from `from` on is a digit.
fn digits_only(cs: &[char], from: usize) -> (r: bool)
    requires
        from <= cs@.len(),
    ensures
        r == text::all_digits(cs@.skip(from as int)),
{
    let mut i: usize = from;
    while i < cs.len()
        invariant
            from <= i <= cs@.len(),
            forall|k: int| from <= k < i ==> text::is_digit(#[trigger] cs@[k]),
        decreases cs@.len() - i,
    {
        if !text::digit(cs[i]) {
            assert(cs@.skip(from as int)[i - from] == cs@[i as int]);
            return false;
        }
        i += 1;
    }
    true
}

/// The power of ten at `from`, held to 2^80 either way.
fn read_power(cs: &[char], from: usize) -> (r: Option<i128>)
    requires
        from <= cs@.len(),
    ensures
        match (r, power_of_ten(cs@.skip(from as int))) {
            (Some(x), Some(p)) => {
                let cap = 0x1_0000_0000_0000_0000_0000int;
                &&& -cap <= x <= cap
                &&& -cap < x < cap ==> x == p
                &&& x == cap ==> p >= cap
                &&& x == -cap ==> p <= -cap
            },
            (None, None) => true,
            _ => false,
        },
{
    let ghost s = cs@.skip(from as int);
    if from == cs.len() {
        return Some(0);
    }
    if cs[from] != 'e' && cs[from] != 'E' {
        return None;
    }
    let ghost t = s.skip(1);
    let mut at: usize = from + 1;
    let signed = at < cs.len() && (cs[at] == '-' || cs[at] == '+');
    let minus = at < cs.len() && cs[at] == '-';
    assert(at < cs@.len() ==> t[0] == cs@[at as int]);
    if signed {
        at += 1;
    }
    let ghost digits = if signed {
        t.skip(1)
    } else {
        t
    };
    assert(digits =~= cs@.skip(at as int));
    if at == cs.len() || !digits_only(cs, at) {
        return None;
    }
    let n = capped_number(cs, at);
    if minus {
        Some(-n)
    } else {
        Some(n)
    }
}

/// The bits of the double that an unsigned number text means.
fn read_unsigned(cs: &[char]) -> (r: Option<u64>)
    ensures
        r == unsigned_reading(cs@),
        r matches Some(b) ==> b < SIGN,
{
    let mut digits: Vec<char> = Vec::new();
    let i = take_digits(cs, 0, &mut digits);
    let ghost whole = digits@;
    assert(whole =~= cs@.take(i as int));
    let point = i < cs.len() && cs[i] == '.';
    let j = if point {
        take_digits(cs, i + 1, &mut digits)
    } else {
        i
    };
    let ghost fraction = if point {
        cs@.subrange(i + 1, j as int)
    } else {
        Seq::empty()
    };
    assert(digits@ =~= whole + fraction);
    assert(text::all_digits(digits@)) by {
        assert(text::all_digits(cs@.subrange(0, i as int)));
        assert(whole =~= cs@.subrange(0, i as int));
    }
    let power = if digits.len() > 0 {
        read_power(cs, j)
    } else {
        None
    };
    match power {
        Some(x) => {
            let count: usize = digits.len();
            let places: usize = if point {
                j - i - 1
            } else {
                0
            };
            let exponent: i128 = x - places as i128;
            let n = natural_of(&digits);
            proof {
                lemma_decimal_bound(digits@);
                let ghost p = power_of_ten(cs@.skip(j as int))->Some_0;
                let ghost true_exponent = p - fraction.len();
                if true_exponent != exponent {
                    if n@ == 0 {
                        lemma_decimal_den_positive(true_exponent);
                        lemma_decimal_den_positive(exponent as int);
                        lemma_zero(decimal_den(true_exponent));
                        lemma_zero(decimal_den(exponent as int));
                        lemma_zero_digits(true_exponent);
                        lemma_zero_digits(exponent as int);
                        lemma_decimal_bits(0, true_exponent, 0);
                        lemma_decimal_bits(0, exponent as int, 0);
                    } else if x > 0 {
                        lemma_huge(n@, true_exponent);
                        lemma_huge(n@, exponent as int);
                        lemma_decimal_bits(n@, true_exponent, INFINITE);
                        lemma_decimal_bits(n@, exponent as int, INFINITE);
                    } else {
                        lemma_tiny(n@, count as nat, true_exponent);
                        lemma_tiny(n@, count as nat, exponent as int);
                        lemma_decimal_bits(n@, true_exponent, 0);
                        lemma_decimal_bits(n@, exponent as int, 0);
                    }
                }
            }
            Some(nearest_decimal(n, count, exponent))
        },
        None => {
            let low = text::string_of(&text::lower(cs));
            if text::same_text(low.as_str(), "inf") || text::same_text(low.as_str(), "infinity") {
                Some(INFINITE)
            } else if text::same_text(low.as_str(), "nan") {
                Some(NOT_A_NUMBER)
            } else {
                None
            }
        },
    }
}

proof fn lemma_zero_digits(exponent: int)
    ensures
        decimal_num(0, exponent) == 0,
{
    if exponent >= 0 {
        let h = pow(10, exponent as nat) as nat;
        assert(0 * h == 0);
    }
}

/// A decimal number is never read as a NaN.
pub proof fn lemma_decimal_is_number(digits: nat, exponent: int)
    ensures
        decimal_bits(digits, exponent) <= INFINITE,
{
    lemma_decimal_den_positive(exponent);
    lemma_nearest_bits(decimal_num(digits, exponent), decimal_den(exponent));
}

impl Double {
    /// Read a number text: an optional sign, then decimal digits with at
    /// most one point and an optional power of ten, or one of the words
    /// `inf`, `infinity` and `nan` in any case.
    pub fn read(cs: &[char]) -> (r: Option<Double>)
        ensures
            r == reading(cs@),
    {
        let signed = cs.len() > 0 && (cs[0] == '-' || cs[0] == '+');
        let minus = cs.len() > 0 && cs[0] == '-';
        let rest = if signed {
            vstd::slice::slice_subrange(cs, 1, cs.len())
        } else {
            cs
        };
        assert(signed ==> rest@ =~= cs@.skip(1));
        match read_unsigned(rest) {
            Some(b) => if minus {
                Some(Double { bits: b + SIGN })
            } else {
                Some(Double { bits: b })
            },
            None => None,
        }
    }
}

// ---------------------------------------------------------------------------
// Whole numbers

/// The whole part of the number with bits `b`.
pub open spec fn whole(b: nat) -> nat {
    size(b) / pow2(1074)
}

/// Whether the number with bits `b` is a whole number.
pub open spec fn is_whole(b: nat) -> bool {
    size(b) % pow2(1074) == 0
}

proof fn lemma_whole(b: nat, e: nat, m: nat, s: nat, q: nat, r: nat)
    requires
        e + s == 1074,
        size(b) == m * pow2(e),
        m == q * pow2(s) + r,
        r < pow2(s),
    ensures
        whole(b) == q,
        is_whole(b) <==> r == 0,
{
    let pe = pow2(e);
    let ps = pow2(s);
    let p = pow2(1074);
    vstd::arithmetic::power2::lemma_pow2_adds(e, s);
    vstd::arithmetic::power2::lemma_pow2_pos(e);
    assert(size(b) == q * p + r * pe) by (nonlinear_arith)
        requires
            size(b) == m * pe,
            m == q * ps + r,
            p == pe * ps,
    ;
    assert(0 <= r * pe < p) by (nonlinear_arith)
        requires
            r < ps,
            p == pe * ps,
            pe > 0,
    ;
    assert(r * pe == 0 <==> r == 0) by (nonlinear_arith)
        requires
            pe > 0,
    ;
    vstd::arithmetic::div_mod::lemma_fundamental_div_mod_converse(
        size(b) as int,
        p as int,
        q as int,
        (r * pe) as int,
    );
}

/// The whole part of the number with bits `b`, below 2^53, and whether it is
/// the whole number.
pub(crate) fn whole_part(b: u64) -> (r: (u64, bool))
    requires
        b < 0x4340_0000_0000_0000,
    ensures
        r.0 == whole(b as nat),
        r.1 == is_whole(b as nat),
        r.0 <= 0x20_0000_0000_0000,
{
    let e: u64 = b / 0x10_0000_0000_0000;
    if e < 1023 {
        proof {
            lemma_size_order(b as nat, 1023 * 0x10_0000_0000_0000);
            lemma_size_at(1022, 0x10_0000_0000_0000);
            vstd::arithmetic::power2::lemma_pow2_adds(52, 1022);
            vstd::arithmetic::power2::lemma2_to64();
            vstd::arithmetic::power2::lemma2_to64_rest();
            assert(size(b as nat) < pow2(1074));
            lemma_size_order(0, b as nat);
            assert(size(0) == 0);
            let p = pow2(1074);
            assert(0 * p == 0);
            vstd::arithmetic::div_mod::lemma_fundamental_div_mod_converse(
                size(b as nat) as int,
                p as int,
                0,
                size(b as nat) as int,
            );
        }
        return (0, b == 0);
    }
    let m: u64 = 0x10_0000_0000_0000 + b % 0x10_0000_0000_0000;
    let s: u64 = 1075 - e;
    let mut d: u64 = 1;
    let mut i: u64 = 0;
    proof {
        vstd::arithmetic::power2::lemma2_to64();
    }
    while i < s
        invariant
            i <= s <= 52,
            d == pow2(i as nat),
        decreases s - i,
    {
        proof {
            vstd::arithmetic::power2::lemma_pow2_unfold((i + 1) as nat);
            lemma_pow2_bound(i as nat, 51);
            vstd::arithmetic::power2::lemma2_to64();
            vstd::arithmetic::power2::lemma2_to64_rest();
        }
        d = d * 2;
        i += 1;
    }
    proof {
        vstd::arithmetic::power2::lemma_pow2_pos(s as nat);
        vstd::arithmetic::div_mod::lemma_fundamental_div_mod(m as int, d as int);
        let q = (m / d) as nat;
        let r = (m % d) as nat;
        assert(m == q * d + r) by (nonlinear_arith)
            requires
                m == d * q + r,
        ;
        lemma_whole(b as nat, (e - 1) as nat, m as nat, s as nat, q, r);
        assert(q <= m) by (nonlinear_arith)
            requires
                m == q * d + r,
                d >= 1,
                q >= 0,
                r >= 0,
        ;
    }
    (m / d, m % d == 0)
}

/// The bits of the double nearest to a thousand times the finite number with
/// bits `b`.
pub open spec fn thousandfold(b: nat) -> u64 {
    nearest_bits(size(b) * 1000, pow2(1074))
}

/// Seconds as whole milliseconds: the product with one thousand, as a
/// double, without its fraction; only below 9e15 either way.
pub open spec fn milliseconds(n: Double) -> Option<int> {
    let c = thousandfold(n.magnitude()) as nat;
    if n.magnitude() < INFINITE && size(c) < 9_000_000_000_000_000 * pow2(1074) {
        if n.negative() {
            Some(-(whole(c) as int))
        } else {
            Some(whole(c) as int)
        }
    } else {
        None
    }
}

/// A machine number as a natural number.
pub(crate) fn natural(m: u64) -> (r: Natural)
    ensures
        r@ == m,
{
    let mut n = Natural::new((m / 0x1_0000_0000) as u32);
    n.scale(0x1_0000, 0);
    n.scale(0x1_0000, 0);
    n.scale(1, (m % 0x1_0000_0000) as u32);
    n
}

/// `size(b)` as a natural number.
pub(crate) fn size_of(b: u64) -> (r: Natural)
    requires
        b <= INFINITE,
    ensures
        r@ == size(b as nat),
{
    let e: u64 = b / 0x10_0000_0000_0000;
    let f: u64 = b % 0x10_0000_0000_0000;
    let m: u64 = if e == 0 {
        f
    } else {
        0x10_0000_0000_0000 + f
    };
    let mut n = natural(m);
    if e > 0 {
        n.scale_pow2((e - 1) as usize);
    }
    n
}

proof fn lemma_limit(c: nat, limit: nat, bits: nat, q: nat, e: nat, s: nat)
    requires
        bits == e * 0x10_0000_0000_0000 + q,
        0x10_0000_0000_0000 <= q <= 0x20_0000_0000_0000,
        e + s == 1074,
        q == limit * pow2(s),
    ensures
        size(c) < limit * pow2(1074) <==> c < bits,
{
    lemma_size_at(e, q);
    lemma_size_order(c, bits);
    vstd::arithmetic::power2::lemma_pow2_adds(s, e);
    let ps = pow2(s);
    let pe = pow2(e);
    let p = pow2(1074);
    assert(q * pe == limit * p) by (nonlinear_arith)
        requires
            q == limit * ps,
            p == ps * pe,
    ;
}

/// Whether the number with bits `b` is below 9e15.
proof fn lemma_below_9e15(b: nat)
    ensures
        size(b) < 9_000_000_000_000_000 * pow2(1074) <==> b < 0x433F_F973_CAFA_8000,
{
    vstd::arithmetic::power2::lemma2_to64();
    lemma_limit(b, 9_000_000_000_000_000, 0x433F_F973_CAFA_8000, 9_000_000_000_000_000, 1074, 0);
}

/// Whether the number with bits `b` is below 1e15.
pub proof fn lemma_below_1e15(b: nat)
    ensures
        size(b) < 1_000_000_000_000_000 * pow2(1074) <==> b < 0x430C_6BF5_2634_0000,
{
    vstd::arithmetic::power2::lemma2_to64();
    lemma_limit(b, 1_000_000_000_000_000, 0x430C_6BF5_2634_0000, 8_000_000_000_000_000, 1071, 3);
}

impl Double {
    /// The bits without the sign.
    pub(crate) fn magnitude_bits(self) -> (r: u64)
        ensures
            r == self.magnitude(),
    {
        if self.bits >= SIGN {
            self.bits - SIGN
        } else {
            self.bits
        }
    }

    /// Whether this is no number.
    pub fn not_a_number(self) -> (r: bool)
        ensures
            r == self.is_nan(),
    {
        self.magnitude_bits() > INFINITE
    }

    /// A number of seconds in whole milliseconds, where that is in range.
    pub fn to_milliseconds(self) -> (r: Option<i64>)
        ensures
            match (r, milliseconds(self)) {
                (Some(a), Some(b)) => a == b,
                (None, None) => true,
                _ => false,
            },
    {
        let b = self.magnitude_bits();
        if b >= INFINITE {
            return None;
        }
        let mut num = size_of(b);
        num.scale(1000, 0);
        let mut den = Natural::new(1);
        den.scale_pow2(1074);
        proof {
            vstd::arithmetic::power2::lemma_pow2_pos(1074);
            let p = pow2(1074);
            assert(1 * p == p);
        }
        let c = nearest(num, den);
        proof {
            lemma_nearest_unique(
                size(b as nat) * 1000,
                pow2(1074),
                c as nat,
                thousandfold(b as nat) as nat,
            );
            lemma_below_9e15(c as nat);
        }
        if c >= 0x433F_F973_CAFA_8000 {
            return None;
        }
        let (w, _exact) = whole_part(c);
        if self.bits >= SIGN {
            Some(-(w as i64))
        } else {
            Some(w as i64)
        }
    }
}

} // verus!
