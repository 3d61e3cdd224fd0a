//! Natural numbers of unbounded size, held as little-endian base-2^32 limbs.
use vstd::prelude::*;

verus! {

const RADIX: u64 = 0x1_0000_0000;

/// The radix of one limb, 2^32.
pub open spec fn radix() -> nat {
    0x1_0000_0000
}

/// The place value of limb `i`: `radix()` to the power `i`.
pub open spec fn weight(i: nat) -> nat
    decreases i,
{
    if i == 0 {
        1
    } else {
        radix() * weight((i - 1) as nat)
    }
}

/// Limb `i` of `s`, zero beyond its end.
pub open spec fn limb(s: Seq<u32>, i: nat) -> nat {
    if i < s.len() {
        s[i as int] as nat
    } else {
        0
    }
}

/// The number that the lowest `i` limbs of `s` stand for.
pub open spec fn low(s: Seq<u32>, i: nat) -> nat
    decreases i,
{
    if i == 0 {
        0
    } else {
        low(s, (i - 1) as nat) + limb(s, (i - 1) as nat) * weight((i - 1) as nat)
    }
}

/// The number that a little-endian sequence of limbs stands for.
pub open spec fn limbs_value(s: Seq<u32>) -> nat {
    low(s, s.len())
}

/// Limbs past the end add nothing.
proof fn lemma_low_past_end(s: Seq<u32>, i: nat)
    requires
        i >= s.len(),
    ensures
        low(s, i) == limbs_value(s),
    decreases i,
{
    if i > s.len() {
        let j = (i - 1) as nat;
        lemma_low_past_end(s, j);
        assert(limb(s, j) == 0);
        assert(low(s, i) == low(s, j) + limb(s, j) * weight(j));
        assert(0 * weight(j) == 0) by (nonlinear_arith);
    }
}

/// The lowest `i` limbs decide `low(_, i)`.
proof fn lemma_low_agrees(a: Seq<u32>, b: Seq<u32>, i: nat)
    requires
        forall|j: nat| j < i ==> limb(a, j) == limb(b, j),
    ensures
        low(a, i) == low(b, i),
    decreases i,
{
    if i > 0 {
        lemma_low_agrees(a, b, (i - 1) as nat);
    }
}

/// `i` limbs stand for a number below `weight(i)`.
proof fn lemma_low_bound(s: Seq<u32>, i: nat)
    ensures
        low(s, i) < weight(i),
    decreases i,
{
    if i > 0 {
        let j = (i - 1) as nat;
        lemma_low_bound(s, j);
        assert(low(s, j) + limb(s, j) * weight(j) < radix() * weight(j)) by (nonlinear_arith)
            requires
                low(s, j) < weight(j),
                limb(s, j) < radix(),
        ;
    }
}

/// Appending a limb adds it at the next place value.
proof fn lemma_value_push(s: Seq<u32>, x: u32)
    ensures
        limbs_value(s.push(x)) == limbs_value(s) + x * weight(s.len()),
{
    let t = s.push(x);
    assert forall|j: nat| j < s.len() implies limb(t, j) == limb(s, j) by {}
    lemma_low_agrees(t, s, s.len());
    assert(limb(t, s.len()) == x);
}

/// A zero limb in front multiplies the number by the radix.
proof fn lemma_low_shift(s: Seq<u32>, i: nat)
    ensures
        low(seq![0u32] + s, i + 1) == radix() * low(s, i),
    decreases i,
{
    let t = seq![0u32] + s;
    if i == 0 {
        assert(t[0] == 0u32);
        assert(limb(t, 0) == 0);
        assert(low(t, 1) == low(t, 0) + limb(t, 0) * weight(0));
        assert(low(t, 1) == 0) by (nonlinear_arith)
            requires
                low(t, 1) == low(t, 0) + limb(t, 0) * weight(0),
                low(t, 0) == 0,
                limb(t, 0) == 0,
        ;
        assert(radix() * low(s, 0) == 0) by (nonlinear_arith)
            requires
                low(s, 0) == 0,
        ;
    } else {
        let j = (i - 1) as nat;
        lemma_low_shift(s, j);
        assert(limb(t, i) == limb(s, j)) by {
            if j < s.len() {
                assert(t[i as int] == s[j as int]);
            }
        }
        let x = limb(s, j);
        let w = weight(j);
        let l = low(s, j);
        assert(weight(i) == radix() * w);
        assert(low(t, i + 1) == low(t, i) + x * weight(i));
        assert(low(s, i) == l + x * w);
        assert(radix() * l + x * (radix() * w) == radix() * (l + x * w)) by (nonlinear_arith);
    }
}

/// A natural number of any size.
#[derive(Debug)]
pub struct BigNat {
    limbs: Vec<u32>,
}

impl View for BigNat {
    type V = nat;

    closed spec fn view(&self) -> nat {
        limbs_value(self.limbs@)
    }
}

impl BigNat {
    /// Zero.
    pub fn zero() -> (r: BigNat)
        ensures
            r@ == 0,
    {
        BigNat { limbs: Vec::new() }
    }

    /// The number `x`.
    pub fn from_u64(x: u64) -> (r: BigNat)
        ensures
            r@ == x,
    {
        let lo: u32 = (x % RADIX) as u32;
        let hi: u32 = (x / RADIX) as u32;
        let mut limbs: Vec<u32> = Vec::new();
        limbs.push(lo);
        limbs.push(hi);
        proof {
            let e = Seq::<u32>::empty();
            lemma_value_push(e, lo);
            lemma_value_push(e.push(lo), hi);
            assert(e.push(lo).push(hi) =~= limbs@);
            assert(limbs_value(e) == 0);
            assert(weight(0) == 1);
            assert(weight(1) == radix() * weight(0));
            assert(lo * weight(0) == lo) by (nonlinear_arith)
                requires
                    weight(0) == 1,
            ;
            assert(hi * weight(1) == hi * 0x1_0000_0000) by (nonlinear_arith)
                requires
                    weight(1) == 0x1_0000_0000,
            ;
            assert(x == lo + hi * 0x1_0000_0000);
        }
        let mut r = BigNat { limbs };
        r.trim();
        r
    }

    /// The number that the little-endian limbs stand for.
    pub fn from_limbs(limbs: Vec<u32>) -> (r: BigNat)
        ensures
            r@ == limbs_value(limbs@),
    {
        BigNat { limbs }
    }

    /// Little-endian limbs that stand for this number.
    pub fn to_limbs(&self) -> (r: Vec<u32>)
        ensures
            limbs_value(r@) == self@,
    {
        let mut out: Vec<u32> = Vec::new();
        let mut i: usize = 0;
        while i < self.limbs.len()
            invariant
                i <= self.limbs.len(),
                out@ == self.limbs@.take(i as int),
            decreases self.limbs.len() - i,
        {
            out.push(self.limbs[i]);
            i += 1;
            assert(out@ =~= self.limbs@.take(i as int));
        }
        assert(out@ =~= self.limbs@);
        out
    }

    /// The sum of two numbers.
    pub fn add(&self, other: &BigNat) -> (r: BigNat)
        ensures
            r@ == self@ + other@,
    {
        let n: usize = if self.limbs.len() >= other.limbs.len() {
            self.limbs.len()
        } else {
            other.limbs.len()
        };
        let mut out: Vec<u32> = Vec::new();
        let mut carry: u64 = 0;
        let mut i: usize = 0;
        while i < n
            invariant
                i <= n,
                out@.len() == i,
                carry <= 1,
                limbs_value(out@) + carry * weight(i as nat) == low(self.limbs@, i as nat) + low(
                    other.limbs@,
                    i as nat,
                ),
            decreases n - i,
        {
            let x: u64 = if i < self.limbs.len() {
                self.limbs[i] as u64
            } else {
                0
            };
            let y: u64 = if i < other.limbs.len() {
                other.limbs[i] as u64
            } else {
                0
            };
            let sum: u64 = x + y + carry;
            let digit: u32 = (sum % RADIX) as u32;
            let next: u64 = sum / RADIX;
            proof {
                let w = weight(i as nat);
                lemma_value_push(out@, digit);
                assert(x == limb(self.limbs@, i as nat));
                assert(y == limb(other.limbs@, i as nat));
                assert(weight((i + 1) as nat) == radix() * w);
                assert(sum == digit + next * radix());
                assert(digit * w + next * (radix() * w) == (x + y + carry) * w)
                    by (nonlinear_arith)
                    requires
                        x + y + carry == digit + next * radix(),
                ;
                assert((x + y + carry) * w == x * w + y * w + carry * w) by (nonlinear_arith);
            }
            out.push(digit);
            carry = next;
            i += 1;
        }
        let top: u32 = carry as u32;
        proof {
            lemma_value_push(out@, top);
            lemma_low_past_end(self.limbs@, n as nat);
            lemma_low_past_end(other.limbs@, n as nat);
        }
        out.push(top);
        let mut r = BigNat { limbs: out };
        r.trim();
        r
    }

    /// The difference of two numbers, the first being no smaller than the second.
    pub fn sub(&self, other: &BigNat) -> (r: BigNat)
        requires
            self@ >= other@,
        ensures
            r@ == self@ - other@,
    {
        let n: usize = if self.limbs.len() >= other.limbs.len() {
            self.limbs.len()
        } else {
            other.limbs.len()
        };
        let mut out: Vec<u32> = Vec::new();
        let mut borrow: u64 = 0;
        let mut i: usize = 0;
        while i < n
            invariant
                i <= n,
                out@.len() == i,
                borrow <= 1,
                limbs_value(out@) + low(other.limbs@, i as nat) == low(self.limbs@, i as nat)
                    + borrow * weight(i as nat),
            decreases n - i,
        {
            let x: u64 = if i < self.limbs.len() {
                self.limbs[i] as u64
            } else {
                0
            };
            let y: u64 = if i < other.limbs.len() {
                other.limbs[i] as u64
            } else {
                0
            };
            let raised: u64 = x + RADIX - y - borrow;
            let digit: u32 = (raised % RADIX) as u32;
            let next: u64 = 1 - raised / RADIX;
            proof {
                let w = weight(i as nat);
                lemma_value_push(out@, digit);
                assert(x == limb(self.limbs@, i as nat));
                assert(y == limb(other.limbs@, i as nat));
                assert(weight((i + 1) as nat) == radix() * w);
                assert(digit + y + borrow == x + next * radix());
                assert(digit * w + y * w + borrow * w == x * w + next * (radix() * w))
                    by (nonlinear_arith)
                    requires
                        digit + y + borrow == x + next * radix(),
                ;
            }
            out.push(digit);
            borrow = next;
            i += 1;
        }
        proof {
            lemma_low_past_end(self.limbs@, n as nat);
            lemma_low_past_end(other.limbs@, n as nat);
            lemma_low_bound(out@, n as nat);
            assert(borrow * weight(n as nat) == if borrow == 0 {
                0
            } else {
                weight(n as nat)
            }) by (nonlinear_arith)
                requires
                    borrow <= 1,
            ;
        }
        let mut r = BigNat { limbs: out };
        r.trim();
        r
    }

    /// The product of a number and one limb.
    pub fn mul_limb(&self, m: u32) -> (r: BigNat)
        ensures
            r@ == self@ * m,
    {
        let n: usize = self.limbs.len();
        let mut out: Vec<u32> = Vec::new();
        let mut carry: u64 = 0;
        let mut i: usize = 0;
        proof {
            assert(low(self.limbs@, 0) * m == 0) by (nonlinear_arith)
                requires
                    low(self.limbs@, 0) == 0,
            ;
            assert(0 * weight(0) == 0) by (nonlinear_arith);
        }
        while i < n
            invariant
                i <= n,
                n == self.limbs.len(),
                out@.len() == i,
                carry < RADIX,
                limbs_value(out@) + carry * weight(i as nat) == low(self.limbs@, i as nat) * m,
            decreases n - i,
        {
            let x: u64 = self.limbs[i] as u64;
            assert(x * (m as u64) <= 0xffff_ffff * 0xffff_ffff) by (nonlinear_arith)
                requires
                    x <= 0xffff_ffff,
                    m <= 0xffff_ffff,
            ;
            let t: u64 = x * (m as u64) + carry;
            let digit: u32 = (t % RADIX) as u32;
            let next: u64 = t / RADIX;
            proof {
                let w = weight(i as nat);
                let l = low(self.limbs@, i as nat);
                lemma_value_push(out@, digit);
                assert(x == limb(self.limbs@, i as nat));
                assert(weight((i + 1) as nat) == radix() * w);
                assert(x * m + carry == digit + next * radix());
                assert(low(self.limbs@, (i + 1) as nat) == l + x * w);
                assert(digit * w + next * (radix() * w) == (l + x * w) * m - l * m + carry * w)
                    by (nonlinear_arith)
                    requires
                        x * m + carry == digit + next * radix(),
                ;
            }
            out.push(digit);
            carry = next;
            i += 1;
        }
        let top: u32 = carry as u32;
        proof {
            lemma_value_push(out@, top);
        }
        out.push(top);
        let mut r = BigNat { limbs: out };
        r.trim();
        r
    }

    /// The number times the radix.
    pub fn shift_limb(&self) -> (r: BigNat)
        ensures
            r@ == radix() * self@,
    {
        let mut out: Vec<u32> = Vec::new();
        out.push(0u32);
        let mut i: usize = 0;
        while i < self.limbs.len()
            invariant
                i <= self.limbs.len(),
                out@ == seq![0u32] + self.limbs@.take(i as int),
            decreases self.limbs.len() - i,
        {
            out.push(self.limbs[i]);
            i += 1;
            assert(out@ =~= seq![0u32] + self.limbs@.take(i as int));
        }
        proof {
            assert(self.limbs@.take(i as int) =~= self.limbs@);
            lemma_low_shift(self.limbs@, self.limbs@.len());
        }
        BigNat { limbs: out }
    }

    /// The product of two numbers.
    pub fn mul(&self, other: &BigNat) -> (r: BigNat)
        ensures
            r@ == self@ * other@,
    {
        let mut acc = BigNat::zero();
        let mut i: usize = other.limbs.len();
        proof {
            assert(0 * weight(i as nat) + self@ * other@ == self@ * other@) by (nonlinear_arith);
        }
        while i > 0
            invariant
                i <= other.limbs.len(),
                acc@ * weight(i as nat) + self@ * low(other.limbs@, i as nat) == self@ * other@,
            decreases i,
        {
            let ghost before = acc@;
            i -= 1;
            let part = self.mul_limb(other.limbs[i]);
            let shifted = acc.shift_limb();
            acc = shifted.add(&part);
            proof {
                let w = weight(i as nat);
                let x = limb(other.limbs@, i as nat);
                let l = low(other.limbs@, i as nat);
                let a = self@;
                assert(x == other.limbs@[i as int]);
                assert(weight((i + 1) as nat) == radix() * w);
                assert(low(other.limbs@, (i + 1) as nat) == l + x * w);
                assert((radix() * before + a * x) * w + a * l == before * (radix() * w) + a * (l
                    + x * w)) by (nonlinear_arith);
            }
        }
        proof {
            assert(acc@ * 1 + self@ * 0 == acc@) by (nonlinear_arith);
        }
        acc
    }

    /// Whether the first number is at most the second.
    pub fn le(&self, other: &BigNat) -> (r: bool)
        ensures
            r == (self@ <= other@),
    {
        let n: usize = if self.limbs.len() >= other.limbs.len() {
            self.limbs.len()
        } else {
            other.limbs.len()
        };
        proof {
            lemma_low_past_end(self.limbs@, n as nat);
            lemma_low_past_end(other.limbs@, n as nat);
        }
        let mut i: usize = n;
        while i > 0
            invariant
                i <= n,
                self@ - low(self.limbs@, i as nat) == other@ - low(other.limbs@, i as nat),
            decreases i,
        {
            i -= 1;
            let x: u32 = if i < self.limbs.len() {
                self.limbs[i]
            } else {
                0
            };
            let y: u32 = if i < other.limbs.len() {
                other.limbs[i]
            } else {
                0
            };
            proof {
                let w = weight(i as nat);
                assert(x == limb(self.limbs@, i as nat));
                assert(y == limb(other.limbs@, i as nat));
                lemma_low_bound(self.limbs@, i as nat);
                lemma_low_bound(other.limbs@, i as nat);
                assert(low(self.limbs@, (i + 1) as nat) == low(self.limbs@, i as nat) + x * w);
                assert(low(other.limbs@, (i + 1) as nat) == low(other.limbs@, i as nat) + y * w);
                if x < y {
                    assert((x + 1) * w <= y * w) by (nonlinear_arith)
                        requires
                            x < y,
                    ;
                    assert((x + 1) * w == x * w + w) by (nonlinear_arith);
                }
                if y < x {
                    assert((y + 1) * w <= x * w) by (nonlinear_arith)
                        requires
                            y < x,
                    ;
                    assert((y + 1) * w == y * w + w) by (nonlinear_arith);
                }
            }
            if x < y {
                return true;
            }
            if x > y {
                return false;
            }
        }
        true
    }

    /// Whether the two numbers are equal.
    pub fn equals(&self, other: &BigNat) -> (r: bool)
        ensures
            r == (self@ == other@),
    {
        self.le(other) && other.le(self)
    }

    /// Whether the number is zero.
    pub fn is_zero(&self) -> (r: bool)
        ensures
            r == (self@ == 0),
    {
        let zero = BigNat::zero();
        self.le(&zero)
    }

    /// Drops the zero limbs at the top, which leaves the number unchanged.
    fn trim(&mut self)
        ensures
            final(self).limbs@ == without_top_zeros(old(self).limbs@),
            final(self)@ == old(self)@,
    {
        while self.limbs.len() > 0 && self.limbs[self.limbs.len() - 1] == 0
            invariant
                without_top_zeros(self.limbs@) == without_top_zeros(old(self).limbs@),
                self@ == old(self)@,
            decreases self.limbs.len(),
        {
            proof {
                let s = self.limbs@;
                let k = (s.len() - 1) as nat;
                assert forall|j: nat| j < k implies limb(s.drop_last(), j) == limb(s, j) by {}
                lemma_low_agrees(s.drop_last(), s, k);
                assert(limb(s, k) == 0);
                assert(low(s, s.len()) == low(s, k) + limb(s, k) * weight(k));
                assert(0 * weight(k) == 0) by (nonlinear_arith);
            }
            self.limbs.pop();
        }
    }
}

impl Clone for BigNat {
    fn clone(&self) -> (r: BigNat)
        ensures
            r@ == self@,
    {
        BigNat { limbs: self.to_limbs() }
    }
}

/// The limbs up to the highest one that is not zero.
spec fn without_top_zeros(s: Seq<u32>) -> Seq<u32>
    decreases s.len(),
{
    if s.len() > 0 && s.last() == 0 {
        without_top_zeros(s.drop_last())
    } else {
        s
    }
}

} // verus!
