//! Natural numbers of any size.

use vstd::arithmetic::power2::pow2;
use vstd::prelude::*;

verus! {

pub open spec fn base() -> nat {
    0x1_0000_0000
}

/// The weight of limb `i`.
pub open spec fn weight(i: nat) -> nat {
    pow2(32 * i)
}

/// The number that limbs write, the least significant first.
pub open spec fn value(s: Seq<u32>) -> nat
    decreases s.len(),
{
    if s.len() == 0 {
        0
    } else {
        value(s.drop_last()) + s.last() as nat * weight((s.len() - 1) as nat)
    }
}

/// A natural number of any size, in limbs of 32 bits.
#[derive(Debug)]
pub struct Natural {
    limbs: Vec<u32>,
}

impl View for Natural {
    type V = nat;

    closed spec fn view(&self) -> nat {
        value(self.limbs@)
    }
}

pub proof fn lemma_weight(i: nat)
    ensures
        weight(i) > 0,
        weight(i + 1) == base() * weight(i),
        weight(0) == 1,
{
    vstd::arithmetic::power2::lemma_pow2_pos(32 * i);
    vstd::arithmetic::power2::lemma_pow2_adds(32, 32 * i);
    vstd::arithmetic::power2::lemma2_to64();
    assert(32 * (i + 1) == 32 + 32 * i);
}

proof fn lemma_value_push(s: Seq<u32>, d: u32)
    ensures
        value(s.push(d)) == value(s) + d as nat * weight(s.len()),
{
    assert(s.push(d).drop_last() == s);
}

proof fn lemma_value_take(s: Seq<u32>, i: int)
    requires
        0 <= i < s.len(),
    ensures
        value(s.take(i + 1)) == value(s.take(i)) + s[i] as nat * weight(i as nat),
{
    assert(s.take(i + 1).drop_last() == s.take(i));
}

proof fn lemma_value_bound(s: Seq<u32>)
    ensures
        value(s) < weight(s.len()),
    decreases s.len(),
{
    lemma_weight(0);
    if s.len() > 0 {
        lemma_value_bound(s.drop_last());
        let n = (s.len() - 1) as nat;
        lemma_weight(n);
        let w = weight(n);
        let d = s.last() as nat;
        assert(d * w + w <= base() * w) by (nonlinear_arith)
            requires
                d < base(),
        ;
    }
}

proof fn lemma_value_front(d: u32, s: Seq<u32>)
    ensures
        value(seq![d] + s) == d as nat + base() * value(s),
    decreases s.len(),
{
    lemma_weight(0);
    if s.len() == 0 {
        assert((seq![d] + s).drop_last() == Seq::<u32>::empty());
        assert(d as nat * weight(0) == d as nat) by (nonlinear_arith)
            requires
                weight(0) == 1,
        ;
        assert(value(Seq::<u32>::empty()) == 0);
        assert((seq![d] + s).last() == d);
        assert((seq![d] + s).len() == 1);
    } else {
        lemma_value_front(d, s.drop_last());
        let n = (s.len() - 1) as nat;
        lemma_weight(n);
        assert((seq![d] + s).drop_last() == seq![d] + s.drop_last());
        assert((seq![d] + s).last() == s.last());
        let w = weight(n);
        let t = s.last() as nat;
        let v = value(s.drop_last());
        assert(base() * (v + t * w) == base() * v + t * (base() * w)) by (nonlinear_arith);
    }
}

proof fn lemma_value_skip(s: Seq<u32>, k: int)
    requires
        0 <= k < s.len(),
    ensures
        value(s.skip(k)) == s[k] as nat + base() * value(s.skip(k + 1)),
{
    lemma_value_front(s[k], s.skip(k + 1));
    assert(seq![s[k]] + s.skip(k + 1) == s.skip(k));
}

/// The part of a number that its first `i` limbs write.
spec fn low(s: Seq<u32>, i: int) -> nat {
    value(s.take(if i < s.len() {
        i
    } else {
        s.len() as int
    }))
}

spec fn limb(s: Seq<u32>, i: int) -> u32 {
    if 0 <= i < s.len() {
        s[i]
    } else {
        0
    }
}

proof fn lemma_low(s: Seq<u32>, i: int)
    requires
        0 <= i,
    ensures
        low(s, i + 1) == low(s, i) + limb(s, i) as nat * weight(i as nat),
        low(s, i) < weight(i as nat),
        low(s, 0) == 0,
        i >= s.len() ==> low(s, i) == value(s),
{
    if i < s.len() {
        lemma_value_take(s, i);
        lemma_value_bound(s.take(i));
    } else {
        assert(s.take(s.len() as int) == s);
        lemma_value_bound(s);
        if s.len() < i {
            vstd::arithmetic::power2::lemma_pow2_strictly_increases(32 * s.len(), 32 * i as nat);
        }
        assert(0nat * weight(i as nat) == 0) by (nonlinear_arith);
    }
}

impl Natural {
    pub fn zero() -> (r: Natural)
        ensures
            r@ == 0,
    {
        Natural { limbs: Vec::new() }
    }

    pub fn from_u64(n: u64) -> (r: Natural)
        ensures
            r@ == n,
    {
        let mut limbs: Vec<u32> = Vec::new();
        let lo: u32 = (n % 0x1_0000_0000) as u32;
        let hi: u32 = (n / 0x1_0000_0000) as u32;
        limbs.push(lo);
        limbs.push(hi);
        proof {
            lemma_value_push(Seq::<u32>::empty(), lo);
            lemma_value_push(seq![lo], hi);
            lemma_weight(0);
            assert(limbs@ == seq![lo].push(hi));
            assert(seq![lo] == Seq::<u32>::empty().push(lo));
            assert(value(Seq::<u32>::empty()) == 0);
            assert(lo as nat * weight(0) == lo) by (nonlinear_arith)
                requires
                    weight(0) == 1,
            ;
            assert(hi as nat * weight(1) == hi as nat * 0x1_0000_0000) by (nonlinear_arith)
                requires
                    weight(1) == 0x1_0000_0000,
            ;
        }
        Natural { limbs }
    }

    pub fn from_u128(n: u128) -> (r: Natural)
        ensures
            r@ == n,
    {
        let lo = Natural::from_u64((n % 0x1_0000_0000_0000_0000) as u64);
        let hi = Natural::from_u64((n / 0x1_0000_0000_0000_0000) as u64);
        let r = hi.shifted(64);
        proof {
            vstd::arithmetic::power2::lemma2_to64();
        }
        r.plus(&lo)
    }

    pub fn copy(&self) -> (r: Natural)
        ensures
            r@ == self@,
    {
        let mut limbs: Vec<u32> = Vec::new();
        let n = self.limbs.len();
        for i in 0..n
            invariant
                n == self.limbs@.len(),
                limbs@ == self.limbs@.take(i as int),
        {
            limbs.push(self.limbs[i]);
        }
        assert(limbs@ == self.limbs@);
        Natural { limbs }
    }

    /// The number of limbs up to the last one that is not zero.
    fn significant(&self) -> (n: usize)
        ensures
            n <= self.limbs@.len(),
            value(self.limbs@.take(n as int)) == self@,
            n > 0 ==> self.limbs@[n - 1] != 0,
            n == 0 <==> self@ == 0,
    {
        let mut n: usize = self.limbs.len();
        assert(self.limbs@.take(n as int) == self.limbs@);
        while n > 0 && self.limbs[n - 1] == 0
            invariant
                n <= self.limbs@.len(),
                value(self.limbs@.take(n as int)) == self@,
            decreases n,
        {
            proof {
                lemma_value_take(self.limbs@, n - 1);
                let w = weight((n - 1) as nat);
                assert(0nat * w == 0) by (nonlinear_arith);
            }
            n = n - 1;
        }
        proof {
            if n > 0 {
                lemma_value_take(self.limbs@, n - 1);
                lemma_weight((n - 1) as nat);
                let w = weight((n - 1) as nat);
                let d = self.limbs@[n - 1] as nat;
                assert(d * w > 0) by (nonlinear_arith)
                    requires
                        d > 0,
                        w > 0,
                ;
            } else {
                assert(self.limbs@.take(0) == Seq::<u32>::empty());
            }
        }
        n
    }

    /// The same number without limbs of zero at its end.
    fn trimmed(self) -> (r: Natural)
        ensures
            r@ == self@,
    {
        let n = self.significant();
        let mut limbs = self.limbs;
        limbs.truncate(n);
        assert(limbs@ == self.limbs@.take(n as int));
        Natural { limbs }
    }

    pub fn is_zero(&self) -> (r: bool)
        ensures
            r == (self@ == 0),
    {
        self.significant() == 0
    }

    pub fn less(&self, other: &Natural) -> (r: bool)
        ensures
            r == (self@ < other@),
    {
        let na = self.significant();
        let nb = other.significant();
        if na != nb {
            proof {
                let (a, b, n, m) = if na < nb {
                    (self.limbs@, other.limbs@, na, nb)
                } else {
                    (other.limbs@, self.limbs@, nb, na)
                };
                lemma_value_bound(a.take(n as int));
                lemma_value_take(b, m - 1);
                lemma_weight((m - 1) as nat);
                let w = weight((m - 1) as nat);
                let d = b[m - 1] as nat;
                assert(d * w >= w) by (nonlinear_arith)
                    requires
                        d > 0,
                ;
                if n < m - 1 {
                    vstd::arithmetic::power2::lemma_pow2_strictly_increases(
                        (32 * n) as nat,
                        (32 * (m - 1)) as nat,
                    );
                }
            }
            return na < nb;
        }
        let mut i: usize = na;
        while i > 0
            invariant
                i <= na <= self.limbs@.len(),
                na <= other.limbs@.len(),
                self@ - value(self.limbs@.take(i as int)) == other@ - value(
                    other.limbs@.take(i as int),
                ),
            decreases i,
        {
            let x = self.limbs[i - 1];
            let y = other.limbs[i - 1];
            proof {
                lemma_value_take(self.limbs@, i - 1);
                lemma_value_take(other.limbs@, i - 1);
            }
            if x != y {
                proof {
                    lemma_value_bound(self.limbs@.take(i - 1));
                    lemma_value_bound(other.limbs@.take(i - 1));
                    let w = weight((i - 1) as nat) as int;
                    if x < y {
                        assert(x * w + w <= y * w) by (nonlinear_arith)
                            requires
                                x + 1 <= y,
                                w >= 0,
                        ;
                    } else {
                        assert(y * w + w <= x * w) by (nonlinear_arith)
                            requires
                                y + 1 <= x,
                                w >= 0,
                        ;
                    }
                }
                return x < y;
            }
            i = i - 1;
        }
        assert(self.limbs@.take(0) == other.limbs@.take(0));
        false
    }

    pub fn plus(&self, other: &Natural) -> (r: Natural)
        ensures
            r@ == self@ + other@,
    {
        let ghost a = self.limbs@;
        let ghost b = other.limbs@;
        let n: usize = if self.limbs.len() < other.limbs.len() {
            other.limbs.len()
        } else {
            self.limbs.len()
        };
        let mut out: Vec<u32> = Vec::new();
        let mut carry: u32 = 0;
        let mut i: usize = 0;
        proof {
            lemma_low(a, 0);
            lemma_low(b, 0);
            assert(0nat * weight(0) == 0) by (nonlinear_arith);
        }
        while i < n
            invariant
                a == self.limbs@,
                b == other.limbs@,
                i <= n,
                carry <= 1,
                out@.len() == i,
                value(out@) + carry as nat * weight(i as nat) == low(a, i as int) + low(
                    b,
                    i as int,
                ),
            decreases n - i,
        {
            let x: u64 = if i < self.limbs.len() {
                self.limbs[i] as u64
            } else {
                0
            };
            let y: u64 = if i < other.limbs.len() {
                other.limbs[i] as u64
            } else {
                0
            };
            let t: u64 = x + y + carry as u64;
            let d: u32 = (t % 0x1_0000_0000) as u32;
            let next: u32 = (t / 0x1_0000_0000) as u32;
            proof {
                lemma_low(a, i as int);
                lemma_low(b, i as int);
                lemma_weight(i as nat);
                lemma_value_push(out@, d);
                let w = weight(i as nat) as int;
                assert((d + next * 0x1_0000_0000) * w == d * w + next * (0x1_0000_0000 * w))
                    by (nonlinear_arith);
                assert((x + y + carry) * w == x * w + y * w + carry * w) by (nonlinear_arith);
            }
            out.push(d);
            carry = next;
            i = i + 1;
        }
        proof {
            lemma_low(a, i as int);
            lemma_low(b, i as int);
            lemma_value_push(out@, carry);
        }
        out.push(carry);
        Natural { limbs: out }.trimmed()
    }

    pub fn minus(&self, other: &Natural) -> (r: Natural)
        requires
            other@ <= self@,
        ensures
            r@ == self@ - other@,
    {
        let ghost a = self.limbs@;
        let ghost b = other.limbs@;
        let n: usize = if self.limbs.len() < other.limbs.len() {
            other.limbs.len()
        } else {
            self.limbs.len()
        };
        let mut out: Vec<u32> = Vec::new();
        let mut borrow: u32 = 0;
        let mut i: usize = 0;
        proof {
            lemma_low(a, 0);
            lemma_low(b, 0);
            assert(0nat * weight(0) == 0) by (nonlinear_arith);
        }
        while i < n
            invariant
                a == self.limbs@,
                b == other.limbs@,
                i <= n,
                borrow <= 1,
                out@.len() == i,
                value(out@) + low(b, i as int) == low(a, i as int) + borrow as nat * weight(
                    i as nat,
                ),
            decreases n - i,
        {
            let x: u64 = if i < self.limbs.len() {
                self.limbs[i] as u64
            } else {
                0
            };
            let y: u64 = if i < other.limbs.len() {
                other.limbs[i] as u64
            } else {
                0
            };
            let t: u64 = x + 0x1_0000_0000 - y - borrow as u64;
            let d: u32 = (t % 0x1_0000_0000) as u32;
            let next: u32 = if t < 0x1_0000_0000 {
                1
            } else {
                0
            };
            proof {
                lemma_low(a, i as int);
                lemma_low(b, i as int);
                lemma_weight(i as nat);
                lemma_value_push(out@, d);
                let w = weight(i as nat) as int;
                assert(d + y + borrow == x + next * 0x1_0000_0000);
                assert((d + y + borrow) * w == d * w + y * w + borrow * w) by (nonlinear_arith);
                assert((x + next * 0x1_0000_0000) * w == x * w + next * (0x1_0000_0000 * w))
                    by (nonlinear_arith);
            }
            out.push(d);
            borrow = next;
            i = i + 1;
        }
        proof {
            lemma_low(a, i as int);
            lemma_low(b, i as int);
            lemma_value_bound(out@);
            let w = weight(i as nat);
            assert(borrow == 1 ==> borrow as nat * w == w) by (nonlinear_arith);
            assert(0nat * w == 0) by (nonlinear_arith);
        }
        Natural { limbs: out }.trimmed()
    }

    /// `self * m + c`
    pub fn times_plus(&self, m: u32, c: u32) -> (r: Natural)
        ensures
            r@ == self@ * m + c,
    {
        let ghost a = self.limbs@;
        let mut out: Vec<u32> = Vec::new();
        let mut carry: u32 = c;
        let n = self.limbs.len();
        let mut i: usize = 0;
        proof {
            lemma_weight(0);
            assert(a.take(0) == Seq::<u32>::empty());
            assert(c as nat * 1 == c);
            assert(0nat * m as nat == 0) by (nonlinear_arith);
        }
        while i < n
            invariant
                a == self.limbs@,
                n == a.len(),
                i <= n,
                out@.len() == i,
                value(out@) + carry as nat * weight(i as nat) == value(a.take(i as int)) * m as nat
                    + c,
            decreases n - i,
        {
            let x = self.limbs[i];
            assert((x as u64) * (m as u64) + (carry as u64) <= 0xffff_ffff_ffff_ffff)
                by (nonlinear_arith)
                requires
                    x <= 0xffff_ffffu32,
                    m <= 0xffff_ffffu32,
                    carry <= 0xffff_ffffu32,
            ;
            assert((x as u64) * (m as u64) >= 0) by (nonlinear_arith);
            let t: u64 = (x as u64) * (m as u64) + (carry as u64);
            let d: u32 = (t % 0x1_0000_0000) as u32;
            let next: u32 = (t / 0x1_0000_0000) as u32;
            proof {
                lemma_value_take(a, i as int);
                lemma_weight(i as nat);
                lemma_value_push(out@, d);
                let w = weight(i as nat) as int;
                assert(d + next * 0x1_0000_0000 == x * m + carry);
                assert((d + next * 0x1_0000_0000) * w == d * w + next * (0x1_0000_0000 * w))
                    by (nonlinear_arith);
                assert((x * m + carry) * w == (x * w) * m + carry * w) by (nonlinear_arith);
                let v = value(a.take(i as int)) as int;
                assert((v + x * w) * m == v * m + (x * w) * m) by (nonlinear_arith);
            }
            out.push(d);
            carry = next;
            i = i + 1;
        }
        proof {
            assert(a.take(n as int) == a);
            lemma_value_push(out@, carry);
        }
        out.push(carry);
        Natural { limbs: out }.trimmed()
    }

    /// `self * 2^32 + d`
    fn fed(self, d: u32) -> (r: Natural)
        ensures
            r@ == self@ * base() + d,
    {
        let mut limbs = self.limbs;
        let ghost before = limbs@;
        limbs.insert(0, d);
        proof {
            lemma_value_front(d, before);
            assert(limbs@ == seq![d] + before);
            assert(base() * value(before) == value(before) * base()) by (nonlinear_arith);
        }
        Natural { limbs }
    }

    pub fn times(&self, other: &Natural) -> (r: Natural)
        ensures
            r@ == self@ * other@,
    {
        let mut acc = Natural::zero();
        let ghost a = self.limbs@;
        let n = self.limbs.len();
        let mut k: usize = n;
        proof {
            assert(a.skip(n as int) == Seq::<u32>::empty());
            assert(0nat * other@ == 0) by (nonlinear_arith);
        }
        while k > 0
            invariant
                a == self.limbs@,
                n == a.len(),
                k <= n,
                acc@ == value(a.skip(k as int)) * other@,
            decreases k,
        {
            let d = self.limbs[k - 1];
            let part = other.times_plus(d, 0);
            let ghost before = acc@;
            acc = acc.fed(0).plus(&part);
            proof {
                lemma_value_skip(a, k - 1);
                let v = value(a.skip(k as int)) as int;
                let o = other@ as int;
                assert((d + base() * v) * o == (v * o) * base() + o * d) by (nonlinear_arith);
            }
            k = k - 1;
        }
        assert(a.skip(0) == a);
        acc.trimmed()
    }

    /// `self * 2^n`
    pub fn shifted(&self, n: usize) -> (r: Natural)
        ensures
            r@ == self@ * pow2(n as nat),
    {
        let rest: u32 = (n % 32) as u32;
        let whole: usize = n / 32;
        let m = power_of_two(rest);
        let mut acc = self.times_plus(m, 0);
        let mut i: usize = 0;
        let ghost start = acc@;
        proof {
            lemma_weight(0);
            assert(start * 1 == start);
        }
        while i < whole
            invariant
                i <= whole,
                acc@ == start * weight(i as nat),
            decreases whole - i,
        {
            proof {
                lemma_weight(i as nat);
                let w = weight(i as nat);
                assert((start * w) * base() == start * (base() * w)) by (nonlinear_arith);
            }
            acc = acc.fed(0);
            i = i + 1;
        }
        proof {
            vstd::arithmetic::power2::lemma_pow2_adds(rest as nat, (32 * whole) as nat);
            let p = pow2(rest as nat);
            let w = weight(whole as nat);
            assert((self@ * p) * w == self@ * (p * w)) by (nonlinear_arith);
            assert(rest + 32 * whole == n);
        }
        acc.trimmed()
    }

    /// How many bits the number has.
    pub fn bits(&self) -> (n: u128)
        ensures
            self@ < pow2(n as nat),
            n > 0 ==> pow2((n - 1) as nat) <= self@,
    {
        let k = self.significant();
        if k == 0 {
            proof {
                vstd::arithmetic::power2::lemma2_to64();
            }
            return 0;
        }
        let top = self.limbs[k - 1];
        let ghost w = weight((k - 1) as nat);
        proof {
            lemma_value_take(self.limbs@, k - 1);
            lemma_value_bound(self.limbs@.take(k - 1));
            lemma_weight((k - 1) as nat);
            assert(top as nat * w >= w) by (nonlinear_arith)
                requires
                    top > 0,
            ;
        }
        let mut t: u32 = 1;
        let mut p: u64 = 2;
        proof {
            vstd::arithmetic::power2::lemma2_to64();
        }
        while p <= top as u64
            invariant
                1 <= t <= 32,
                p == pow2(t as nat),
                pow2((t - 1) as nat) <= top,
            decreases 33 - t,
        {
            proof {
                vstd::arithmetic::power2::lemma2_to64();
                vstd::arithmetic::power2::lemma_pow2_unfold((t + 1) as nat);
                if t == 32 {
                    assert(false);
                }
            }
            p = p * 2;
            t = t + 1;
        }
        proof {
            vstd::arithmetic::power2::lemma_pow2_adds(t as nat, (32 * (k - 1)) as nat);
            vstd::arithmetic::power2::lemma_pow2_adds((t - 1) as nat, (32 * (k - 1)) as nat);
            let lo = value(self.limbs@.take(k - 1)) as int;
            let hi = pow2(t as nat) as int;
            let below = pow2((t - 1) as nat) as int;
            assert(lo + top * w < hi * w) by (nonlinear_arith)
                requires
                    lo < w,
                    top + 1 <= hi,
            ;
            assert(below * w <= top * w) by (nonlinear_arith)
                requires
                    below <= top,
                    w >= 0,
            ;
        }
        32 * ((k - 1) as u128) + t as u128
    }

    /// Quotient and remainder.
    pub fn divided(&self, den: &Natural) -> (r: (Natural, Natural))
        requires
            den@ > 0,
        ensures
            r.0@ == self@ / den@,
            r.1@ == self@ % den@,
    {
        let ghost a = self.limbs@;
        let ghost d = den@;
        let n = self.limbs.len();
        // den * 2^j, for each bit j of a limb
        let mut table: Vec<Natural> = Vec::new();
        table.push(den.copy());
        proof {
            vstd::arithmetic::power2::lemma2_to64();
            assert(d * 1 == d);
        }
        for j in 1..32usize
            invariant
                table@.len() == j,
                d == den@,
                forall|i: int| 0 <= i < j ==> (#[trigger] table@[i])@ == d * pow2(i as nat),
        {
            let next = table[j - 1].times_plus(2, 0);
            proof {
                vstd::arithmetic::power2::lemma_pow2_unfold(j as nat);
                let p = pow2((j - 1) as nat);
                assert((d * p) * 2 == d * (2 * p)) by (nonlinear_arith);
            }
            table.push(next);
        }
        let mut q = Natural::zero();
        let mut r = Natural::zero();
        let mut k: usize = n;
        proof {
            assert(a.skip(n as int) == Seq::<u32>::empty());
            assert(0nat * d == 0) by (nonlinear_arith);
        }
        while k > 0
            invariant
                a == self.limbs@,
                d == den@,
                d > 0,
                n == a.len(),
                k <= n,
                table@.len() == 32,
                forall|i: int| 0 <= i < 32 ==> (#[trigger] table@[i])@ == d * pow2(i as nat),
                value(a.skip(k as int)) == q@ * d + r@,
                r@ < d,
            decreases k,
        {
            let ghost before = r@;
            let ghost total = (before * base() + a[k - 1]) as int;
            r = r.fed(self.limbs[k - 1]);
            let mut digit: u32 = 0;
            let mut j: usize = 32;
            proof {
                vstd::arithmetic::power2::lemma2_to64();
                assert(total < d * base()) by (nonlinear_arith)
                    requires
                        total == before * base() + a[k - 1],
                        before + 1 <= d,
                        a[k - 1] < base(),
                ;
                assert(0int * d == 0) by (nonlinear_arith);
            }
            while j > 0
                invariant
                    j <= 32,
                    d > 0,
                    table@.len() == 32,
                    forall|i: int| 0 <= i < 32 ==> (#[trigger] table@[i])@ == d * pow2(i as nat),
                    r@ < d * pow2(j as nat),
                    total == digit * d + r@,
                    digit + pow2(j as nat) <= base(),
                decreases j,
            {
                proof {
                    vstd::arithmetic::power2::lemma_pow2_unfold(j as nat);
                    vstd::arithmetic::power2::lemma_pow2_pos((j - 1) as nat);
                }
                let ghost p = pow2((j - 1) as nat);
                let ghost was = digit;
                assert(d * (2 * p) == 2 * (d * p)) by (nonlinear_arith);
                let bit = power_of_two((j - 1) as u32);
                if !r.less(&table[j - 1]) {
                    r = r.minus(&table[j - 1]);
                    digit = digit + bit;
                    assert((was + p) * d == was * d + d * p) by (nonlinear_arith);
                }
                j = j - 1;
            }
            proof {
                vstd::arithmetic::power2::lemma2_to64();
                assert(d * 1 == d);
                lemma_value_skip(a, k - 1);
                let qv = q@ as int;
                let bv = before as int;
                assert(base() * (qv * d + bv) + a[k - 1] == (qv * base()) * d + (bv * base() + a[k
                    - 1])) by (nonlinear_arith);
                assert((qv * base() + digit) * d == (qv * base()) * d + digit * d)
                    by (nonlinear_arith);
            }
            q = q.fed(digit);
            r = r.trimmed();
            k = k - 1;
        }
        proof {
            assert(a.skip(0) == a);
            vstd::arithmetic::div_mod::lemma_fundamental_div_mod_converse(
                self@ as int,
                d as int,
                q@ as int,
                r@ as int,
            );
        }
        (q.trimmed(), r)
    }

    pub fn to_u64(&self) -> (r: u64)
        requires
            self@ < 0x1_0000_0000_0000_0000,
        ensures
            r == self@,
    {
        let n = self.significant();
        proof {
            vstd::arithmetic::power2::lemma2_to64();
            if n >= 3 {
                lemma_value_take(self.limbs@, n - 1);
                let w = weight((n - 1) as nat);
                let t = self.limbs@[n - 1] as nat;
                assert(t * w >= w) by (nonlinear_arith)
                    requires
                        t > 0,
                ;
                if n > 3 {
                    vstd::arithmetic::power2::lemma_pow2_strictly_increases(
                        64,
                        (32 * (n - 1)) as nat,
                    );
                }
            }
            lemma_weight(0);
            assert(self.limbs@.take(0) == Seq::<u32>::empty());
        }
        if n == 0 {
            0
        } else if n == 1 {
            proof {
                lemma_value_take(self.limbs@, 0);
            }
            self.limbs[0] as u64
        } else {
            proof {
                lemma_value_take(self.limbs@, 0);
                lemma_value_take(self.limbs@, 1);
            }
            self.limbs[0] as u64 + (self.limbs[1] as u64) * 0x1_0000_0000
        }
    }
}

/// `2^n`
pub fn power_of_two(n: u32) -> (r: u32)
    requires
        n < 32,
    ensures
        r == pow2(n as nat),
{
    let mut r: u32 = 1;
    let mut i: u32 = 0;
    proof {
        vstd::arithmetic::power2::lemma2_to64();
    }
    while i < n
        invariant
            i <= n < 32,
            r == pow2(i as nat),
            pow2(31) == 0x8000_0000,
        decreases n - i,
    {
        proof {
            vstd::arithmetic::power2::lemma_pow2_unfold((i + 1) as nat);
            if i + 1 < 31 {
                vstd::arithmetic::power2::lemma_pow2_strictly_increases((i + 1) as nat, 31);
            }
        }
        r = r * 2;
        i = i + 1;
    }
    r
}

} // verus!
