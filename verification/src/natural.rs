//! Natural numbers of any size, as far as exact decimal arithmetic needs
//! them: scaling, comparison and subtraction.

use vstd::prelude::*;

verus! {

/// A natural number in base 2^32, least significant limb first.
pub struct Natural {
    limbs: Vec<u32>,
}

/// What a one in limb `i` is worth.
spec fn weight(i: nat) -> nat
    decreases i,
{
    if i == 0 {
        1
    } else {
        0x1_0000_0000 * weight((i - 1) as nat)
    }
}

/// Limb `i`, zero beyond the end.
spec fn limb_at(s: Seq<u32>, i: int) -> nat {
    if 0 <= i < s.len() {
        s[i] as nat
    } else {
        0
    }
}

/// What the lowest `n` limbs are worth together.
spec fn partial(s: Seq<u32>, n: nat) -> nat
    decreases n,
{
    if n == 0 {
        0
    } else {
        partial(s, (n - 1) as nat) + limb_at(s, n - 1) * weight((n - 1) as nat)
    }
}

proof fn lemma_beyond(s: Seq<u32>, n: nat)
    requires
        n >= s.len(),
    ensures
        partial(s, n) == partial(s, s.len()),
    decreases n,
{
    if n > s.len() {
        lemma_beyond(s, (n - 1) as nat);
        assert(limb_at(s, n - 1) * weight((n - 1) as nat) == 0) by (nonlinear_arith)
            requires
                limb_at(s, n - 1) == 0,
        ;
    }
}

proof fn lemma_same_low(s: Seq<u32>, t: Seq<u32>, n: nat)
    requires
        forall|i: int| 0 <= i < n ==> limb_at(s, i) == limb_at(t, i),
    ensures
        partial(s, n) == partial(t, n),
    decreases n,
{
    if n > 0 {
        lemma_same_low(s, t, (n - 1) as nat);
        assert(limb_at(s, n - 1) == limb_at(t, n - 1));
    }
}

proof fn lemma_partial_below(s: Seq<u32>, n: nat)
    ensures
        partial(s, n) < weight(n),
    decreases n,
{
    if n > 0 {
        let w = weight((n - 1) as nat);
        let x = limb_at(s, n - 1);
        lemma_partial_below(s, (n - 1) as nat);
        assert(x <= 0xFFFF_FFFF);
        assert(x * w <= 0xFFFF_FFFF * w) by (nonlinear_arith)
            requires
                x <= 0xFFFF_FFFF,
        ;
    }
}

proof fn lemma_pushed(s: Seq<u32>, x: u32)
    ensures
        partial(s.push(x), s.len()) == partial(s, s.len()),
        partial(s.push(x), s.len() + 1) == partial(s, s.len()) + x * weight(s.len()),
{
    lemma_same_low(s.push(x), s, s.len());
}

impl View for Natural {
    type V = nat;

    closed spec fn view(&self) -> nat {
        partial(self.limbs@, self.limbs@.len())
    }
}

impl Natural {
    /// The number `n`.
    pub fn new(n: u32) -> (r: Natural)
        ensures
            r@ == n,
    {
        let mut limbs: Vec<u32> = Vec::new();
        limbs.push(n);
        proof {
            reveal_with_fuel(partial, 2);
            reveal_with_fuel(weight, 2);
        }
        Natural { limbs }
    }

    fn limb(&self, i: usize) -> (r: u32)
        ensures
            r == limb_at(self.limbs@, i as int),
    {
        if i < self.limbs.len() {
            self.limbs[i]
        } else {
            0
        }
    }

    /// Multiply by `m` and add `a`.
    pub fn scale(&mut self, m: u32, a: u32)
        ensures
            final(self)@ == old(self)@ * m + a,
    {
        let ghost s = self.limbs@;
        let mut out: Vec<u32> = Vec::new();
        let mut carry: u32 = a;
        let mut i: usize = 0;
        proof {
            assert(partial(s, 0) * m == 0) by (nonlinear_arith)
                requires
                    partial(s, 0) == 0,
            ;
            assert(weight(0) == 1);
            assert(carry * weight(0) == carry) by (nonlinear_arith)
                requires
                    weight(0) == 1,
            ;
        }
        while i < self.limbs.len()
            invariant
                s == self.limbs@,
                i <= s.len(),
                out@.len() == i,
                partial(out@, i as nat) + carry * weight(i as nat) == partial(s, i as nat) * m + a,
            decreases s.len() - i,
        {
            let x: u32 = self.limbs[i];
            proof {
                assert(x * m <= 0xFFFF_FFFF * 0xFFFF_FFFF) by (nonlinear_arith)
                    requires
                        x <= 0xFFFF_FFFF,
                        m <= 0xFFFF_FFFF,
                ;
            }
            let p: u64 = x as u64 * m as u64 + carry as u64;
            let low: u32 = (p % 0x1_0000_0000) as u32;
            let high: u32 = (p / 0x1_0000_0000) as u32;
            proof {
                lemma_pushed(out@, low);
                let w = weight(i as nat) as int;
                let c = carry as int;
                let h = high as int;
                let l = low as int;
                let big = partial(s, i as nat) as int;
                assert(h * 0x1_0000_0000 + l == x * m + c);
                assert(l * w + h * (0x1_0000_0000 * w) == (x * w) * m + c * w) by (nonlinear_arith)
                    requires
                        h * 0x1_0000_0000 + l == x * m + c,
                ;
                assert((big + x * w) * m == big * m + (x * w) * m) by (nonlinear_arith);
                assert(weight((i + 1) as nat) == 0x1_0000_0000 * w);
                assert(partial(s, (i + 1) as nat) == big + x * w);
            }
            out.push(low);
            carry = high;
            i += 1;
        }
        if carry > 0 {
            proof {
                lemma_pushed(out@, carry);
            }
            out.push(carry);
        }
        self.limbs = out;
    }

    /// Multiply by `2^k`.
    pub fn scale_pow2(&mut self, k: usize)
        ensures
            final(self)@ == old(self)@ * vstd::arithmetic::power2::pow2(k as nat),
    {
        let ghost n = self@;
        let mut left: usize = k;
        proof {
            vstd::arithmetic::power2::lemma2_to64();
            let one = vstd::arithmetic::power2::pow2(0);
            assert(n * one == n) by (nonlinear_arith)
                requires
                    one == 1,
            ;
        }
        while left >= 16
            invariant
                left <= k,
                self@ == n * vstd::arithmetic::power2::pow2((k - left) as nat),
            decreases left,
        {
            self.scale(65536, 0);
            proof {
                vstd::arithmetic::power2::lemma2_to64();
                vstd::arithmetic::power2::lemma_pow2_adds((k - left) as nat, 16);
                let p = vstd::arithmetic::power2::pow2((k - left) as nat);
                assert(n * p * 65536 == n * (p * 65536)) by (nonlinear_arith);
            }
            left -= 16;
        }
        while left > 0
            invariant
                left <= k,
                self@ == n * vstd::arithmetic::power2::pow2((k - left) as nat),
            decreases left,
        {
            self.scale(2, 0);
            proof {
                vstd::arithmetic::power2::lemma_pow2_unfold((k - left + 1) as nat);
                let p = vstd::arithmetic::power2::pow2((k - left) as nat);
                assert(n * p * 2 == n * (2 * p)) by (nonlinear_arith);
            }
            left -= 1;
        }
    }

    /// Multiply by `10^k`.
    pub fn scale_pow10(&mut self, k: usize)
        ensures
            final(self)@ == old(self)@ * vstd::arithmetic::power::pow(10, k as nat),
    {
        let ghost n = self@;
        let mut done: usize = 0;
        proof {
            vstd::arithmetic::power::lemma_pow0(10);
        }
        while done < k
            invariant
                done <= k,
                self@ == n * vstd::arithmetic::power::pow(10, done as nat),
            decreases k - done,
        {
            self.scale(10, 0);
            proof {
                vstd::arithmetic::power::lemma_pow1(10);
                vstd::arithmetic::power::lemma_pow_adds(10, done as nat, 1);
                let p = vstd::arithmetic::power::pow(10, done as nat);
                assert(n * p * 10 == n * (p * 10)) by (nonlinear_arith);
            }
            done += 1;
        }
    }

    /// Whether this number is below `other`.
    pub fn less(&self, other: &Natural) -> (r: bool)
        ensures
            r == (self@ < other@),
    {
        let n: usize = if self.limbs.len() >= other.limbs.len() {
            self.limbs.len()
        } else {
            other.limbs.len()
        };
        let mut i: usize = n;
        let ghost s = self.limbs@;
        let ghost t = other.limbs@;
        proof {
            lemma_beyond(s, n as nat);
            lemma_beyond(t, n as nat);
        }
        while i > 0
            invariant
                s == self.limbs@,
                t == other.limbs@,
                i <= n,
                self@ - other@ == partial(s, i as nat) - partial(t, i as nat),
            decreases i,
        {
            let x: u32 = self.limb(i - 1);
            let y: u32 = other.limb(i - 1);
            proof {
                let w = weight((i - 1) as nat) as int;
                lemma_partial_below(s, (i - 1) as nat);
                lemma_partial_below(t, (i - 1) as nat);
                if x < y {
                    assert((x + 1) * w <= y * w) by (nonlinear_arith)
                        requires
                            x + 1 <= y,
                            w >= 0,
                    ;
                    assert((x + 1) * w == x * w + w) by (nonlinear_arith);
                }
                if y < x {
                    assert((y + 1) * w <= x * w) by (nonlinear_arith)
                        requires
                            y + 1 <= x,
                            w >= 0,
                    ;
                    assert((y + 1) * w == y * w + w) by (nonlinear_arith);
                }
            }
            if x < y {
                return true;
            }
            if y < x {
                return false;
            }
            i -= 1;
        }
        false
    }

    /// Take `other` away.
    pub fn subtract(&mut self, other: &Natural)
        requires
            other@ <= old(self)@,
        ensures
            final(self)@ == old(self)@ - other@,
    {
        let n: usize = if self.limbs.len() >= other.limbs.len() {
            self.limbs.len()
        } else {
            other.limbs.len()
        };
        let ghost s = self.limbs@;
        let ghost t = other.limbs@;
        let mut out: Vec<u32> = Vec::new();
        let mut borrow: u32 = 0;
        let mut i: usize = 0;
        proof {
            lemma_beyond(s, n as nat);
            lemma_beyond(t, n as nat);
            assert(borrow * weight(0) == 0);
        }
        while i < n
            invariant
                s == self.limbs@,
                t == other.limbs@,
                i <= n,
                out@.len() == i,
                borrow <= 1,
                partial(out@, i as nat) + partial(t, i as nat) == partial(s, i as nat) + borrow
                    * weight(i as nat),
            decreases n - i,
        {
            let x: u32 = self.limb(i);
            let y: u32 = other.limb(i);
            let need: u64 = y as u64 + borrow as u64;
            let ghost was = borrow;
            let d: u32 = if x as u64 >= need {
                borrow = 0;
                (x as u64 - need) as u32
            } else {
                borrow = 1;
                (x as u64 + 0x1_0000_0000 - need) as u32
            };
            proof {
                lemma_pushed(out@, d);
                let w = weight(i as nat) as int;
                assert(d + y + was == x + borrow * 0x1_0000_0000);
                assert(d * w + y * w + was * w == x * w + borrow * (0x1_0000_0000 * w))
                    by (nonlinear_arith)
                    requires
                        d + y + was == x + borrow * 0x1_0000_0000,
                ;
                assert(weight((i + 1) as nat) == 0x1_0000_0000 * w);
                assert(partial(s, (i + 1) as nat) == partial(s, i as nat) + x * w);
                assert(partial(t, (i + 1) as nat) == partial(t, i as nat) + y * w);
            }
            out.push(d);
            i += 1;
        }
        proof {
            lemma_partial_below(out@, n as nat);
            let w = weight(n as nat) as int;
            if borrow == 1 {
                assert(borrow * w == w) by (nonlinear_arith)
                    requires
                        borrow == 1,
                ;
            } else {
                assert(borrow * w == 0) by (nonlinear_arith)
                    requires
                        borrow == 0,
                ;
            }
        }
        self.limbs = out;
    }

    /// A rough size in bits; only a first guess for a search.
    pub(crate) fn rough_bits(&self) -> usize {
        let mut n: usize = self.limbs.len();
        while n > 0 && self.limbs[n - 1] == 0
            invariant
                n <= self.limbs@.len(),
            decreases n,
        {
            n -= 1;
        }
        if n == 0 || n > 0x100_0000 {
            0
        } else {
            n * 32 - self.limbs[n - 1].leading_zeros() as usize % 32
        }
    }

    /// A copy of the number.
    pub fn copy(&self) -> (r: Natural)
        ensures
            r@ == self@,
    {
        Natural { limbs: self.limbs.clone() }
    }
}

} // verus!
