//! Natural numbers without a bound, for exact decimal conversion.

use vstd::arithmetic::power2::{lemma2_to64, lemma_pow2_adds, lemma_pow2_pos, pow2};
use vstd::prelude::*;

verus! {

/// The value of a row of base `2^32` digits, least significant first.
pub open spec fn limbs_value(limbs: Seq<u32>) -> nat
    decreases limbs.len(),
{
    if limbs.len() == 0 {
        0
    } else {
        limbs_value(limbs.drop_last()) + limbs.last() as nat * pow2(
            32 * (limbs.len() - 1) as nat,
        )
    }
}

/// A natural number.
pub struct Natural {
    pub limbs: Vec<u32>,
}

impl View for Natural {
    type V = nat;

    open spec fn view(&self) -> nat {
        limbs_value(self.limbs@)
    }
}

/// Digits below a place stay below its weight.
pub proof fn lemma_limbs_bound(limbs: Seq<u32>)
    ensures
        limbs_value(limbs) < pow2(32 * limbs.len()),
    decreases limbs.len(),
{
    lemma2_to64();
    if limbs.len() > 0 {
        let n = (limbs.len() - 1) as nat;
        lemma_limbs_bound(limbs.drop_last());
        lemma_pow2_adds(32, 32 * n);
        let w = pow2(32 * n);
        assert(32 * limbs.len() == 32 + 32 * n);
        assert(limbs.last() as nat * w + w <= 0x1_0000_0000 * w) by (nonlinear_arith)
            requires
                limbs.last() <= 0xffff_ffff,
                w >= 0,
        ;
    }
}

/// The value of a prefix, one digit further.
proof fn lemma_take_push(limbs: Seq<u32>, i: int)
    requires
        0 <= i < limbs.len(),
    ensures
        limbs_value(limbs.take(i + 1)) == limbs_value(limbs.take(i)) + limbs[i] as nat * pow2(
            32 * i as nat,
        ),
{
    assert(limbs.take(i + 1).drop_last() =~= limbs.take(i));
}

/// The weight of the next place.
proof fn lemma_weight(i: nat)
    ensures
        pow2(32 * (i + 1)) == 0x1_0000_0000 * pow2(32 * i),
        pow2(32 * i) > 0,
{
    lemma2_to64();
    lemma_pow2_adds(32, 32 * i);
    lemma_pow2_pos(32 * i);
    assert(32 * (i + 1) == 32 + 32 * i);
}

impl Natural {
    pub fn from_u32(n: u32) -> (r: Natural)
        ensures
            r@ == n,
    {
        let mut limbs: Vec<u32> = Vec::new();
        limbs.push(n);
        proof {
            lemma2_to64();
            assert(limbs@.drop_last() =~= Seq::<u32>::empty());
            assert(limbs_value(limbs@.drop_last()) == 0);
            assert(limbs@.last() == n);
            assert(32 * (limbs@.len() - 1) as nat == 0);
            assert(n as nat * pow2(0) == n) by (nonlinear_arith)
                requires
                    pow2(0) == 1,
            ;
        }
        Natural { limbs }
    }

    pub fn duplicate(&self) -> (r: Natural)
        ensures
            r@ == self@,
    {
        let mut limbs: Vec<u32> = Vec::new();
        let mut i: usize = 0;
        while i < self.limbs.len()
            invariant
                i <= self.limbs@.len(),
                limbs@ == self.limbs@.take(i as int),
            decreases self.limbs@.len() - i,
        {
            limbs.push(self.limbs[i]);
            assert(limbs@ =~= self.limbs@.take(i + 1));
            i = i + 1;
        }
        assert(limbs@ =~= self.limbs@);
        Natural { limbs }
    }

    /// `self * factor + addend`.
    pub fn times_plus(&self, factor: u32, addend: u32) -> (r: Natural)
        ensures
            r@ == self@ * factor + addend,
    {
        let mut limbs: Vec<u32> = Vec::new();
        let mut carry: u64 = addend as u64;
        let mut i: usize = 0;
        proof {
            lemma2_to64();
            assert(self.limbs@.take(0) =~= Seq::<u32>::empty());
            assert(0 * factor == 0) by (nonlinear_arith);
            assert(32 * 0nat == 0);
        }
        while i < self.limbs.len()
            invariant
                i <= self.limbs@.len(),
                limbs@.len() == i,
                carry <= 0xffff_ffff,
                limbs_value(limbs@) + carry * pow2(32 * i as nat) == limbs_value(
                    self.limbs@.take(i as int),
                ) * factor + addend,
            decreases self.limbs@.len() - i,
        {
            let d: u32 = self.limbs[i];
            proof {
                assert(d * factor <= 0xffff_ffff * 0xffff_ffff) by (nonlinear_arith)
                    requires
                        0 <= d <= 0xffff_ffff,
                        0 <= factor <= 0xffff_ffff,
                ;
            }
            let wide: u64 = d as u64 * factor as u64 + carry;
            let low: u64 = wide % 0x1_0000_0000;
            let high: u64 = wide / 0x1_0000_0000;
            let ghost before = limbs@;
            limbs.push(low as u32);
            proof {
                let w = pow2(32 * i as nat);
                lemma_weight(i as nat);
                lemma_take_push(self.limbs@, i as int);
                assert(limbs@.drop_last() =~= before);
                let p = limbs_value(self.limbs@.take(i as int));
                assert(limbs_value(before) + low as nat * w + high * pow2(32 * (i + 1) as nat) == (p
                    + d as nat * w) * factor + addend) by (nonlinear_arith)
                    requires
                        limbs_value(before) + carry * w == p * factor + addend,
                        wide == d * factor + carry,
                        wide == high * 0x1_0000_0000 + low,
                        pow2(32 * (i + 1) as nat) == 0x1_0000_0000 * w,
                ;
            }
            carry = high;
            i = i + 1;
        }
        let ghost before = limbs@;
        assert(self.limbs@.take(i as int) =~= self.limbs@);
        if carry > 0 {
            limbs.push(carry as u32);
            assert(limbs@.drop_last() =~= before);
        }
        Natural { limbs }
    }

    /// The digit at a place, zero beyond the last one.
    fn limb(&self, i: usize) -> (r: u32)
        ensures
            r == (if i < self.limbs@.len() {
                self.limbs@[i as int]
            } else {
                0
            }),
    {
        if i < self.limbs.len() {
            self.limbs[i]
        } else {
            0
        }
    }

    /// Whether `self < other`.
    pub fn less(&self, other: &Natural) -> (r: bool)
        ensures
            r == (self@ < other@),
    {
        let n: usize = if self.limbs.len() > other.limbs.len() {
            self.limbs.len()
        } else {
            other.limbs.len()
        };
        let ghost a = padded(self.limbs@, n as nat);
        let ghost b = padded(other.limbs@, n as nat);
        proof {
            lemma_padded(self.limbs@, n as nat);
            lemma_padded(other.limbs@, n as nat);
            assert(a.take(n as int) =~= a);
            assert(b.take(n as int) =~= b);
        }
        let mut i: usize = n;
        while i > 0
            invariant
                i <= n,
                a == padded(self.limbs@, n as nat),
                b == padded(other.limbs@, n as nat),
                a.len() == n,
                b.len() == n,
                n >= self.limbs@.len(),
                n >= other.limbs@.len(),
                (self@ < other@) == (limbs_value(a.take(i as int)) < limbs_value(
                    b.take(i as int),
                )),
            decreases i,
        {
            let x: u32 = self.limb(i - 1);
            let y: u32 = other.limb(i - 1);
            proof {
                assert(x == a[i - 1]);
                assert(y == b[i - 1]);
                lemma_take_push(a, i - 1);
                lemma_take_push(b, i - 1);
                lemma_limbs_bound(a.take(i - 1));
                lemma_limbs_bound(b.take(i - 1));
            }
            if x != y {
                proof {
                    let w = pow2(32 * (i - 1) as nat);
                    assert(a.take(i - 1).len() == i - 1);
                    if x < y {
                        assert(x as nat * w + w <= y as nat * w) by (nonlinear_arith)
                            requires
                                x + 1 <= y,
                                w >= 0,
                        ;
                    } else {
                        assert(y as nat * w + w <= x as nat * w) by (nonlinear_arith)
                            requires
                                y + 1 <= x,
                                w >= 0,
                        ;
                    }
                }
                return x < y;
            }
            i = i - 1;
        }
        false
    }

    /// The quotient and remainder by a small number.
    pub fn divided(&self, divisor: u32) -> (r: (Natural, u32))
        requires
            divisor > 0,
        ensures
            r.0@ == self@ / divisor as nat,
            r.1 == self@ % divisor as nat,
    {
        let n: usize = self.limbs.len();
        // Digits of the quotient, most significant first.
        let mut high_first: Vec<u32> = Vec::new();
        let mut rest: u64 = 0;
        let mut i: usize = n;
        let ghost mut upper: nat = 0;
        let ghost mut quotient: nat = 0;
        proof {
            assert(self.limbs@.take(n as int) =~= self.limbs@);
            assert(0 * pow2(32 * n as nat) == 0) by (nonlinear_arith);
            assert(0 * divisor == 0) by (nonlinear_arith);
        }
        while i > 0
            invariant
                i <= n,
                n == self.limbs@.len(),
                divisor > 0,
                high_first@.len() == n - i,
                rest < divisor,
                upper == quotient * divisor + rest,
                self@ == upper * pow2(32 * i as nat) + limbs_value(self.limbs@.take(i as int)),
                quotient == limbs_value(high_first@.reverse()),
            decreases i,
        {
            let d: u32 = self.limbs[i - 1];
            proof {
                assert(rest * 0x1_0000_0000 <= 0xffff_fffe * 0x1_0000_0000);
            }
            let wide: u64 = rest * 0x1_0000_0000 + d as u64;
            let q: u64 = wide / divisor as u64;
            let ghost old_rest = rest;
            proof {
                vstd::arithmetic::div_mod::lemma_fundamental_div_mod(wide as int, divisor as int);
                assert(q < 0x1_0000_0000) by (nonlinear_arith)
                    requires
                        wide == divisor * q + wide % divisor as u64,
                        wide % divisor as u64 >= 0,
                        wide < divisor * 0x1_0000_0000,
                        divisor > 0,
                ;
            }
            rest = wide % divisor as u64;
            let ghost before = high_first@;
            high_first.push(q as u32);
            proof {
                let w = pow2(32 * (i - 1) as nat);
                lemma_weight((i - 1) as nat);
                lemma_take_push(self.limbs@, i - 1);
                let low = limbs_value(self.limbs@.take(i - 1));
                let next = upper * 0x1_0000_0000 + d as nat;
                assert(self@ == next * w + low) by (nonlinear_arith)
                    requires
                        self@ == upper * (0x1_0000_0000 * w) + (low + d as nat * w),
                        next == upper * 0x1_0000_0000 + d as nat,
                ;
                let next_q = quotient * 0x1_0000_0000 + q as nat;
                assert(next == next_q * divisor + rest) by (nonlinear_arith)
                    requires
                        upper == quotient * divisor + old_rest,
                        wide == old_rest * 0x1_0000_0000 + d,
                        wide == divisor * q + rest,
                        next == upper * 0x1_0000_0000 + d as nat,
                        next_q == quotient * 0x1_0000_0000 + q as nat,
                ;
                lemma_reverse_push(before, q as u32);
                upper = next;
                quotient = next_q;
            }
            i = i - 1;
        }
        let mut limbs: Vec<u32> = Vec::new();
        let mut j: usize = n;
        while j > 0
            invariant
                j <= n,
                high_first@.len() == n,
                limbs@ == high_first@.reverse().take(n - j),
            decreases j,
        {
            limbs.push(high_first[j - 1]);
            assert(limbs@ =~= high_first@.reverse().take(n - j + 1));
            j = j - 1;
        }
        proof {
            assert(limbs@ =~= high_first@.reverse());
            lemma2_to64();
            assert(self.limbs@.take(0) =~= Seq::<u32>::empty());
            assert(upper * pow2(0) == upper) by (nonlinear_arith)
                requires
                    pow2(0) == 1,
            ;
            assert(32 * 0nat == 0);
            vstd::arithmetic::div_mod::lemma_fundamental_div_mod_converse(
                self@ as int,
                divisor as int,
                quotient as int,
                rest as int,
            );
        }
        (Natural { limbs }, rest as u32)
    }

    /// `self - other`.
    pub fn minus(&self, other: &Natural) -> (r: Natural)
        requires
            other@ <= self@,
        ensures
            r@ == self@ - other@,
    {
        let n: usize = if self.limbs.len() > other.limbs.len() {
            self.limbs.len()
        } else {
            other.limbs.len()
        };
        let ghost a = padded(self.limbs@, n as nat);
        let ghost b = padded(other.limbs@, n as nat);
        proof {
            lemma_padded(self.limbs@, n as nat);
            lemma_padded(other.limbs@, n as nat);
            assert(a.take(0) =~= Seq::<u32>::empty());
            assert(b.take(0) =~= Seq::<u32>::empty());
        }
        let mut limbs: Vec<u32> = Vec::new();
        let mut borrow: u64 = 0;
        let mut i: usize = 0;
        while i < n
            invariant
                i <= n,
                a == padded(self.limbs@, n as nat),
                b == padded(other.limbs@, n as nat),
                a.len() == n,
                b.len() == n,
                n >= self.limbs@.len(),
                n >= other.limbs@.len(),
                limbs@.len() == i,
                borrow <= 1,
                limbs_value(limbs@) + limbs_value(b.take(i as int)) == limbs_value(
                    a.take(i as int),
                ) + borrow * pow2(32 * i as nat),
            decreases n - i,
        {
            let x: u64 = self.limb(i) as u64;
            let y: u64 = other.limb(i) as u64 + borrow;
            let ghost before = limbs@;
            let ghost old_borrow = borrow;
            let d: u64;
            if x >= y {
                d = x - y;
                borrow = 0;
            } else {
                d = x + 0x1_0000_0000 - y;
                borrow = 1;
            }
            limbs.push(d as u32);
            proof {
                let w = pow2(32 * i as nat);
                lemma_weight(i as nat);
                lemma_take_push(a, i as int);
                lemma_take_push(b, i as int);
                assert(limbs@.drop_last() =~= before);
                assert(limbs_value(before) + d as nat * w + (limbs_value(b.take(i as int))
                    + b[i as int] as nat * w) == limbs_value(a.take(i as int)) + a[i as int] as nat
                    * w + borrow * pow2(32 * (i + 1) as nat)) by (nonlinear_arith)
                    requires
                        limbs_value(before) + limbs_value(b.take(i as int)) == limbs_value(
                            a.take(i as int),
                        ) + old_borrow * w,
                        d + b[i as int] + old_borrow == a[i as int] + borrow * 0x1_0000_0000,
                        pow2(32 * (i + 1) as nat) == 0x1_0000_0000 * w,
                ;
            }
            i = i + 1;
        }
        proof {
            assert(a.take(n as int) =~= a);
            assert(b.take(n as int) =~= b);
            lemma_limbs_bound(limbs@);
            lemma_pow2_pos(32 * n as nat);
            if borrow == 1 {
                assert(1 * pow2(32 * n as nat) == pow2(32 * n as nat));
            }
            assert(0 * pow2(32 * n as nat) == 0);
        }
        Natural { limbs }
    }
}

/// One more digit at the lower end.
proof fn lemma_reverse_push(high_first: Seq<u32>, d: u32)
    ensures
        limbs_value(high_first.push(d).reverse()) == limbs_value(high_first.reverse())
            * 0x1_0000_0000 + d,
{
    let s = high_first.reverse();
    assert(high_first.push(d).reverse() =~= seq![d] + s);
    lemma_prepend(d, s);
}

proof fn lemma_prepend(d: u32, s: Seq<u32>)
    ensures
        limbs_value(seq![d] + s) == limbs_value(s) * 0x1_0000_0000 + d,
    decreases s.len(),
{
    lemma2_to64();
    if s.len() == 0 {
        assert(seq![d] + s =~= seq![d]);
        assert(seq![d].drop_last() =~= Seq::<u32>::empty());
        assert(limbs_value(Seq::<u32>::empty()) == 0);
        assert(32 * 0nat == 0);
        assert(d as nat * pow2(0) == d) by (nonlinear_arith)
            requires
                pow2(0) == 1,
        ;
        assert(limbs_value(seq![d]) == d);
    } else {
        let t = seq![d] + s;
        lemma_prepend(d, s.drop_last());
        assert(t.drop_last() =~= seq![d] + s.drop_last());
        assert(t.last() == s.last());
        let n = (s.len() - 1) as nat;
        lemma_weight(n);
        let w = pow2(32 * n);
        assert(32 * (t.len() - 1) as nat == 32 * (n + 1));
        assert(s.last() as nat * (0x1_0000_0000 * w) == (s.last() as nat * w) * 0x1_0000_0000)
            by (nonlinear_arith);
    }
}

/// The digits with zeros put behind the last one.
pub open spec fn padded(limbs: Seq<u32>, n: nat) -> Seq<u32> {
    Seq::new(
        n,
        |i: int|
            if i < limbs.len() {
                limbs[i]
            } else {
                0
            },
    )
}

/// Zeros behind the last digit change nothing.
proof fn lemma_padded(limbs: Seq<u32>, n: nat)
    requires
        n >= limbs.len(),
    ensures
        limbs_value(padded(limbs, n)) == limbs_value(limbs),
    decreases n,
{
    let p = padded(limbs, n);
    if n == limbs.len() {
        assert(p =~= limbs);
    } else {
        lemma_padded(limbs, (n - 1) as nat);
        assert(p.drop_last() =~= padded(limbs, (n - 1) as nat));
        assert(0 * pow2(32 * (n - 1) as nat) == 0) by (nonlinear_arith);
    }
}

} // verus!
