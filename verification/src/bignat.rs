//! Arbitrary-precision natural numbers.
//!
//! A `BigNat` is a little-endian sequence of 32-bit limbs without a leading
//! zero limb. Its view is the natural number it denotes.

use vstd::arithmetic::div_mod::lemma_fundamental_div_mod_converse;
use vstd::prelude::*;

verus! {

/// The weight of the limb at position `n`: two to the power `32 * n`.
pub open spec fn weight(n: nat) -> nat
    decreases n,
{
    if n == 0 {
        1
    } else {
        0x1_0000_0000nat * weight((n - 1) as nat)
    }
}

/// The number denoted by a little-endian limb sequence.
pub open spec fn limbs_value(s: Seq<u32>) -> nat
    decreases s.len(),
{
    if s.len() == 0 {
        0
    } else {
        limbs_value(s.drop_last()) + (s.last() as nat) * weight((s.len() - 1) as nat)
    }
}

/// The limb at position `i`, reading zero past the end.
pub open spec fn limb_at(s: Seq<u32>, i: int) -> nat {
    if 0 <= i < s.len() {
        s[i] as nat
    } else {
        0
    }
}

/// The number denoted by the lowest `i` limbs.
pub open spec fn prefix_value(s: Seq<u32>, i: nat) -> nat {
    if i >= s.len() {
        limbs_value(s)
    } else {
        limbs_value(s.take(i as int))
    }
}

/// Every weight is positive.
pub proof fn lemma_weight_positive(n: nat)
    ensures
        weight(n) > 0,
    decreases n,
{
    if n > 0 {
        lemma_weight_positive((n - 1) as nat);
    }
}

/// The weight of a sum of positions is the product of their weights.
pub proof fn lemma_weight_add(a: nat, b: nat)
    ensures
        weight(a + b) == weight(a) * weight(b),
    decreases a,
{
    if a > 0 {
        lemma_weight_add((a - 1) as nat, b);
        let wa = weight((a - 1) as nat);
        let wb = weight(b);
        let rest = weight((a - 1 + b) as nat);
        let whole = weight(a + b);
        let wa1 = weight(a);
        assert(whole == 0x1_0000_0000nat * rest);
        assert(whole == wa1 * wb) by (nonlinear_arith)
            requires
                whole == 0x1_0000_0000nat * rest,
                rest == wa * wb,
                wa1 == 0x1_0000_0000nat * wa,
        ;
    } else {
        let wa = weight(a);
        let wb = weight(b);
        assert(wa * wb == wb) by (nonlinear_arith)
            requires
                wa == 1,
        ;
    }
}

/// The weights rise with the position.
pub proof fn lemma_weight_monotonic(a: nat, b: nat)
    requires
        a <= b,
    ensures
        weight(a) <= weight(b),
    decreases b,
{
    if a < b {
        lemma_weight_monotonic(a, (b - 1) as nat);
        lemma_weight_positive((b - 1) as nat);
    }
}

/// A limb pushed on top adds itself times the weight of its position.
pub proof fn lemma_value_push(s: Seq<u32>, x: u32)
    ensures
        limbs_value(s.push(x)) == limbs_value(s) + (x as nat) * weight(s.len()),
{
    assert(s.push(x).drop_last() =~= s);
}

/// The value of a sequence of at most two limbs.
pub proof fn lemma_value_short(s: Seq<u32>)
    requires
        s.len() <= 2,
    ensures
        s.len() == 0 ==> limbs_value(s) == 0,
        s.len() == 1 ==> limbs_value(s) == s[0] as nat,
        s.len() == 2 ==> limbs_value(s) == s[0] as nat + (s[1] as nat) * 0x1_0000_0000nat,
    decreases s.len(),
{
    if s.len() > 0 {
        lemma_value_short(s.drop_last());
        let w = weight((s.len() - 1) as nat);
        let top = s.last() as nat;
        assert(weight(0) == 1);
        assert(weight(1) == 0x1_0000_0000nat * weight(0));
        if s.len() == 1 {
            assert(top * w == top) by (nonlinear_arith)
                requires
                    w == 1,
            ;
        } else {
            assert(top * w == top * 0x1_0000_0000nat) by (nonlinear_arith)
                requires
                    w == 0x1_0000_0000nat,
            ;
        }
    }
}

/// The value of `n` limbs is below the weight of position `n`.
pub proof fn lemma_value_bound(s: Seq<u32>)
    ensures
        limbs_value(s) < weight(s.len()),
    decreases s.len(),
{
    if s.len() > 0 {
        lemma_value_bound(s.drop_last());
        let w = weight((s.len() - 1) as nat);
        let top = s.last() as nat;
        assert(top * w <= (0xFFFF_FFFF) * w) by (nonlinear_arith)
            requires
                top <= 0xFFFF_FFFF,
                w >= 0,
        ;
    }
}

/// With a nonzero top limb the value reaches the weight of the top position.
pub proof fn lemma_value_lower(s: Seq<u32>)
    requires
        s.len() > 0,
        s.last() != 0,
    ensures
        limbs_value(s) >= weight((s.len() - 1) as nat),
{
    let w = weight((s.len() - 1) as nat);
    let top = s.last() as nat;
    assert(top * w >= w) by (nonlinear_arith)
        requires
            top >= 1,
            w >= 0,
    ;
}

/// One more limb adds itself times the weight of its position to a prefix.
pub proof fn lemma_prefix_step(s: Seq<u32>, i: nat)
    ensures
        prefix_value(s, i + 1) == prefix_value(s, i) + limb_at(s, i as int) * weight(i),
{
    if i < s.len() {
        let t = s.take(i as int + 1);
        assert(t.drop_last() =~= s.take(i as int));
        assert(t.last() == s[i as int]);
        if i + 1 == s.len() {
            assert(t =~= s);
        }
    } else {
        let x = limb_at(s, i as int);
        let w = weight(i);
        assert(x * w == 0) by (nonlinear_arith)
            requires
                x == 0,
        ;
    }
}

/// The empty prefix has the value zero.
pub proof fn lemma_prefix_zero(s: Seq<u32>)
    ensures
        prefix_value(s, 0) == 0,
{
    if s.len() > 0 {
        assert(s.take(0).len() == 0);
    }
}

/// Two limb sequences of one length are ordered by the highest limb in which
/// they differ.
pub proof fn lemma_top_difference(a: Seq<u32>, b: Seq<u32>, k: int)
    requires
        a.len() == b.len(),
        0 <= k < a.len(),
        a[k] < b[k],
        forall|j: int| k < j < a.len() ==> a[j] == b[j],
    ensures
        limbs_value(a) < limbs_value(b),
    decreases a.len(),
{
    let n = (a.len() - 1) as nat;
    let w = weight(n);
    if k == n {
        lemma_value_bound(a.drop_last());
        let x = a[k] as nat;
        let y = b[k] as nat;
        assert(x * w + w <= y * w) by (nonlinear_arith)
            requires
                x + 1 <= y,
                w >= 0,
        ;
    } else {
        assert(a.last() == b.last());
        lemma_top_difference(a.drop_last(), b.drop_last(), k);
    }
}

/// Greatest common divisor by Euclid's recursion.
pub open spec fn gcd(a: nat, b: nat) -> nat
    decreases b,
{
    if b == 0 {
        a
    } else {
        gcd(b, a % b)
    }
}

/// The greatest common divisor of two numbers, not both zero, is positive.
pub proof fn lemma_gcd_positive(a: nat, b: nat)
    requires
        a > 0 || b > 0,
    ensures
        gcd(a, b) > 0,
    decreases b,
{
    if b > 0 {
        lemma_gcd_positive(b, a % b);
    }
}

/// The greatest common divisor divides both arguments.
pub proof fn lemma_gcd_divides(a: nat, b: nat)
    requires
        a > 0 || b > 0,
    ensures
        gcd(a, b) > 0,
        a % gcd(a, b) == 0,
        b % gcd(a, b) == 0,
    decreases b,
{
    lemma_gcd_positive(a, b);
    let g = gcd(a, b);
    if b == 0 {
        vstd::arithmetic::div_mod::lemma_mod_self_0(a as int);
        assert(0nat % g == 0) by (nonlinear_arith)
            requires
                g > 0,
        ;
    } else {
        lemma_gcd_divides(b, a % b);
        let r = a % b;
        let q = a / b;
        // a == b * q + r, and g divides b and r
        vstd::arithmetic::div_mod::lemma_fundamental_div_mod(a as int, b as int);
        let bq = b / g;
        let rq = r / g;
        vstd::arithmetic::div_mod::lemma_fundamental_div_mod(b as int, g as int);
        vstd::arithmetic::div_mod::lemma_fundamental_div_mod(r as int, g as int);
        assert(a == g * (bq * q + rq)) by (nonlinear_arith)
            requires
                a == b * q + r,
                b == g * bq,
                r == g * rq,
        ;
        vstd::arithmetic::div_mod::lemma_mod_multiples_basic((bq * q + rq) as int, g as int);
        assert(g * (bq * q + rq) == (bq * q + rq) * g) by (nonlinear_arith);
    }
}

/// Scaling both arguments scales the greatest common divisor.
pub proof fn lemma_gcd_scale(k: nat, a: nat, b: nat)
    requires
        k > 0,
    ensures
        gcd(k * a, k * b) == k * gcd(a, b),
    decreases b,
{
    if b == 0 {
        assert(k * b == 0) by (nonlinear_arith)
            requires
                b == 0,
        ;
    } else {
        assert(k * b > 0) by (nonlinear_arith)
            requires
                k > 0,
                b > 0,
        ;
        vstd::arithmetic::div_mod::lemma_truncate_middle(a as int, k as int, b as int);
        assert((k * a) % (k * b) == k * (a % b));
        lemma_gcd_scale(k, b, a % b);
    }
}

/// One has no common divisor with any number but itself.
pub proof fn lemma_gcd_of_one(x: nat)
    ensures
        gcd(1, x) == 1,
{
    if x == 0 {
    } else if x == 1 {
        assert(1nat % 1nat == 0);
        assert(gcd(1, 1) == gcd(1, 0));
    } else {
        vstd::arithmetic::div_mod::lemma_small_mod(1, x);
        assert(x % 1 == 0);
        assert(gcd(1, x) == gcd(x, 1));
        assert(gcd(x, 1) == gcd(1, 0));
    }
}

/// Divisibility passes down a chain of divisors.
pub proof fn lemma_divides_transitive(a: nat, b: nat, c: nat)
    requires
        b > 0,
        c > 0,
        a % b == 0,
        b % c == 0,
    ensures
        a % c == 0,
{
    let x = a / b;
    let y = b / c;
    vstd::arithmetic::div_mod::lemma_fundamental_div_mod(a as int, b as int);
    vstd::arithmetic::div_mod::lemma_fundamental_div_mod(b as int, c as int);
    assert(a == (y * x) * c) by (nonlinear_arith)
        requires
            a == b * x,
            b == c * y,
    ;
    vstd::arithmetic::div_mod::lemma_mod_multiples_basic((y * x) as int, c as int);
}

/// An arbitrary-precision natural number.
#[derive(Debug)]
pub struct BigNat {
    limbs: Vec<u32>,
}

impl View for BigNat {
    type V = nat;

    closed spec fn view(&self) -> nat {
        limbs_value(self.limbs@)
    }
}

impl Clone for BigNat {
    fn clone(&self) -> (r: Self)
        ensures
            r@ == self@,
            r.wf() == self.wf(),
    {
        let mut limbs: Vec<u32> = Vec::new();
        let mut i: usize = 0;
        while i < self.limbs.len()
            invariant
                i <= self.limbs.len(),
                limbs@ =~= self.limbs@.take(i as int),
            decreases self.limbs.len() - i,
        {
            limbs.push(self.limbs[i]);
            i += 1;
        }
        assert(limbs@ =~= self.limbs@);
        BigNat { limbs }
    }
}

impl BigNat {
    /// The representation has no leading zero limb.
    pub closed spec fn wf(&self) -> bool {
        self.limbs@.len() > 0 ==> self.limbs@.last() != 0
    }

    /// The number with the given limbs, leading zero limbs dropped.
    fn from_limbs(limbs: Vec<u32>) -> (r: BigNat)
        ensures
            r.wf(),
            r@ == limbs_value(limbs@),
    {
        let mut limbs = limbs;
        let ghost start = limbs@;
        while limbs.len() > 0 && limbs[limbs.len() - 1] == 0
            invariant
                limbs_value(limbs@) == limbs_value(start),
            decreases limbs.len(),
        {
            limbs.pop();
        }
        BigNat { limbs }
    }

    /// The number zero.
    pub fn zero() -> (r: BigNat)
        ensures
            r.wf(),
            r@ == 0,
    {
        BigNat { limbs: Vec::new() }
    }

    /// The number `x`.
    pub fn from_u64(x: u64) -> (r: BigNat)
        ensures
            r.wf(),
            r@ == x,
    {
        let low: u32 = (x % 0x1_0000_0000) as u32;
        let high: u32 = (x / 0x1_0000_0000) as u32;
        let mut limbs: Vec<u32> = Vec::new();
        limbs.push(low);
        limbs.push(high);
        proof {
            lemma_value_short(limbs@);
        }
        BigNat::from_limbs(limbs)
    }

    /// The value as a `u64`, where it fits.
    pub fn to_u64(&self) -> (r: Option<u64>)
        requires
            self.wf(),
        ensures
            r is Some <==> self@ <= u64::MAX,
            r is Some ==> r->0 == self@,
    {
        proof {
            lemma_value_bound(self.limbs@);
        }
        let n = self.limbs.len();
        if n == 0 {
            Some(0)
        } else if n == 1 {
            proof {
                lemma_value_short(self.limbs@);
            }
            Some(self.limbs[0] as u64)
        } else if n == 2 {
            proof {
                lemma_value_short(self.limbs@);
            }
            Some(self.limbs[0] as u64 + (self.limbs[1] as u64) * 0x1_0000_0000)
        } else {
            proof {
                lemma_value_lower(self.limbs@);
                lemma_weight_monotonic(2, (n - 1) as nat);
                assert(weight(2) == 0x1_0000_0000nat * weight(1));
                assert(weight(1) == 0x1_0000_0000nat * weight(0));
            }
            None
        }
    }

    /// Whether the number is zero.
    pub fn is_zero(&self) -> (r: bool)
        requires
            self.wf(),
        ensures
            r == (self@ == 0),
    {
        proof {
            if self.limbs@.len() > 0 {
                lemma_value_lower(self.limbs@);
                lemma_weight_positive((self.limbs@.len() - 1) as nat);
            }
        }
        self.limbs.len() == 0
    }

    /// Whether `self` is strictly below `other`.
    pub fn lt(&self, other: &BigNat) -> (r: bool)
        requires
            self.wf(),
            other.wf(),
        ensures
            r == (self@ < other@),
    {
        let n = self.limbs.len();
        let m = other.limbs.len();
        proof {
            lemma_value_bound(self.limbs@);
            lemma_value_bound(other.limbs@);
        }
        if n < m {
            proof {
                lemma_value_lower(other.limbs@);
                lemma_weight_monotonic(n as nat, (m - 1) as nat);
            }
            return true;
        }
        if m < n {
            proof {
                lemma_value_lower(self.limbs@);
                lemma_weight_monotonic(m as nat, (n - 1) as nat);
            }
            return false;
        }
        let mut i: usize = n;
        while i > 0
            invariant
                n == self.limbs@.len(),
                n == other.limbs@.len(),
                i <= n,
                forall|j: int| i <= j < n ==> self.limbs@[j] == other.limbs@[j],
            decreases i,
        {
            i -= 1;
            if self.limbs[i] != other.limbs[i] {
                if self.limbs[i] < other.limbs[i] {
                    proof {
                        lemma_top_difference(self.limbs@, other.limbs@, i as int);
                    }
                    return true;
                } else {
                    proof {
                        lemma_top_difference(other.limbs@, self.limbs@, i as int);
                    }
                    return false;
                }
            }
        }
        assert(self.limbs@ =~= other.limbs@);
        false
    }

    /// Whether the two numbers are equal.
    pub fn equals(&self, other: &BigNat) -> (r: bool)
        requires
            self.wf(),
            other.wf(),
        ensures
            r == (self@ == other@),
    {
        !self.lt(other) && !other.lt(self)
    }

    /// The sum of the two numbers.
    pub fn add(&self, other: &BigNat) -> (r: BigNat)
        requires
            self.wf(),
            other.wf(),
        ensures
            r.wf(),
            r@ == self@ + other@,
    {
        let la = self.limbs.len();
        let lb = other.limbs.len();
        let n = if la >= lb {
            la
        } else {
            lb
        };
        let mut out: Vec<u32> = Vec::new();
        let mut carry: u64 = 0;
        let mut i: usize = 0;
        proof {
            lemma_prefix_zero(self.limbs@);
            lemma_prefix_zero(other.limbs@);
        }
        while i < n
            invariant
                la == self.limbs@.len(),
                lb == other.limbs@.len(),
                n >= la,
                n >= lb,
                i <= n,
                carry <= 1,
                out@.len() == i,
                limbs_value(out@) + carry * weight(i as nat) == prefix_value(
                    self.limbs@,
                    i as nat,
                ) + prefix_value(other.limbs@, i as nat),
            decreases n - i,
        {
            let x: u64 = if i < la {
                self.limbs[i] as u64
            } else {
                0
            };
            let y: u64 = if i < lb {
                other.limbs[i] as u64
            } else {
                0
            };
            let t: u64 = x + y + carry;
            let low: u32 = (t % 0x1_0000_0000) as u32;
            let next: u64 = t / 0x1_0000_0000;
            proof {
                lemma_prefix_step(self.limbs@, i as nat);
                lemma_prefix_step(other.limbs@, i as nat);
                lemma_value_push(out@, low);
                let w = weight(i as nat);
                assert(weight((i + 1) as nat) == 0x1_0000_0000nat * w);
                assert(low * w + next * (0x1_0000_0000nat * w) == x * w + y * w + carry * w)
                    by (nonlinear_arith)
                    requires
                        low + next * 0x1_0000_0000nat == x + y + carry,
                ;
            }
            out.push(low);
            carry = next;
            i += 1;
        }
        if carry > 0 {
            proof {
                lemma_value_push(out@, carry as u32);
            }
            out.push(carry as u32);
        }
        BigNat::from_limbs(out)
    }

    /// The difference of the two numbers.
    pub fn sub(&self, other: &BigNat) -> (r: BigNat)
        requires
            self.wf(),
            other.wf(),
            self@ >= other@,
        ensures
            r.wf(),
            r@ == self@ - other@,
    {
        let la = self.limbs.len();
        let lb = other.limbs.len();
        let n = if la >= lb {
            la
        } else {
            lb
        };
        let mut out: Vec<u32> = Vec::new();
        let mut borrow: u64 = 0;
        let mut i: usize = 0;
        proof {
            lemma_prefix_zero(self.limbs@);
            lemma_prefix_zero(other.limbs@);
        }
        while i < n
            invariant
                la == self.limbs@.len(),
                lb == other.limbs@.len(),
                n >= la,
                n >= lb,
                i <= n,
                borrow <= 1,
                out@.len() == i,
                limbs_value(out@) + prefix_value(other.limbs@, i as nat) == prefix_value(
                    self.limbs@,
                    i as nat,
                ) + borrow * weight(i as nat),
            decreases n - i,
        {
            let x: u64 = if i < la {
                self.limbs[i] as u64
            } else {
                0
            };
            let y: u64 = if i < lb {
                other.limbs[i] as u64
            } else {
                0
            };
            let low: u32;
            let next: u64;
            if x >= y + borrow {
                low = (x - y - borrow) as u32;
                next = 0;
            } else {
                low = (x + 0x1_0000_0000 - y - borrow) as u32;
                next = 1;
            }
            proof {
                lemma_prefix_step(self.limbs@, i as nat);
                lemma_prefix_step(other.limbs@, i as nat);
                lemma_value_push(out@, low);
                let w = weight(i as nat);
                assert(weight((i + 1) as nat) == 0x1_0000_0000nat * w);
                assert(low * w + y * w + borrow * w == x * w + next * (0x1_0000_0000nat * w))
                    by (nonlinear_arith)
                    requires
                        low + y + borrow == x + next * 0x1_0000_0000nat,
                ;
            }
            out.push(low);
            borrow = next;
            i += 1;
        }
        proof {
            lemma_value_bound(out@);
            let w = weight(n as nat);
            let b = borrow as int;
            assert(b == 0) by {
                if b == 1 {
                    assert(b * w == w) by (nonlinear_arith)
                        requires
                            b == 1,
                    ;
                }
            }
            assert(b * w == 0) by (nonlinear_arith)
                requires
                    b == 0,
            ;
        }
        BigNat::from_limbs(out)
    }

    /// `self * limb * radix^shift`.
    fn mul_limb_shifted(&self, limb: u32, shift: usize) -> (r: BigNat)
        requires
            self.wf(),
        ensures
            r.wf(),
            r@ == self@ * limb * weight(shift as nat),
    {
        let mut out: Vec<u32> = Vec::new();
        let mut k: usize = 0;
        while k < shift
            invariant
                k <= shift,
                out@.len() == k,
                limbs_value(out@) == 0,
            decreases shift - k,
        {
            proof {
                lemma_value_push(out@, 0);
            }
            out.push(0);
            k += 1;
        }
        let n = self.limbs.len();
        let mut carry: u64 = 0;
        let mut j: usize = 0;
        let ghost ws = weight(shift as nat);
        proof {
            lemma_prefix_zero(self.limbs@);
            assert(0 * (limb as nat) * ws == 0) by (nonlinear_arith);
        }
        while j < n
            invariant
                n == self.limbs@.len(),
                j <= n,
                carry < 0x1_0000_0000,
                out@.len() == shift + j,
                ws == weight(shift as nat),
                limbs_value(out@) + carry * weight((shift + j) as nat) == prefix_value(
                    self.limbs@,
                    j as nat,
                ) * limb * ws,
            decreases n - j,
        {
            let a: u64 = self.limbs[j] as u64;
            assert(a * (limb as u64) <= 0xFFFF_FFFF * 0xFFFF_FFFF) by (nonlinear_arith)
                requires
                    a <= 0xFFFF_FFFF,
                    limb <= 0xFFFF_FFFF,
            ;
            let t: u64 = a * (limb as u64) + carry;
            let low: u32 = (t % 0x1_0000_0000) as u32;
            let next: u64 = t / 0x1_0000_0000;
            proof {
                lemma_prefix_step(self.limbs@, j as nat);
                lemma_value_push(out@, low);
                lemma_weight_add(shift as nat, j as nat);
                let w = weight((shift + j) as nat);
                let wj = weight(j as nat);
                let p = prefix_value(self.limbs@, j as nat);
                assert(weight((shift + j + 1) as nat) == 0x1_0000_0000nat * w);
                assert(low * w + next * (0x1_0000_0000nat * w) == a * limb * w + carry * w)
                    by (nonlinear_arith)
                    requires
                        low + next * 0x1_0000_0000nat == a * limb + carry,
                ;
                assert((p + a * wj) * limb * ws == p * limb * ws + a * limb * w)
                    by (nonlinear_arith)
                    requires
                        w == ws * wj,
                ;
            }
            out.push(low);
            carry = next;
            j += 1;
        }
        proof {
            lemma_value_push(out@, carry as u32);
        }
        out.push(carry as u32);
        BigNat::from_limbs(out)
    }

    /// The product of the two numbers.
    pub fn mul(&self, other: &BigNat) -> (r: BigNat)
        requires
            self.wf(),
            other.wf(),
        ensures
            r.wf(),
            r@ == self@ * other@,
    {
        let n = other.limbs.len();
        let mut acc = BigNat::zero();
        let mut i: usize = 0;
        proof {
            lemma_prefix_zero(other.limbs@);
            assert(self@ * 0 == 0) by (nonlinear_arith);
        }
        while i < n
            invariant
                n == other.limbs@.len(),
                i <= n,
                self.wf(),
                acc.wf(),
                acc@ == self@ * prefix_value(other.limbs@, i as nat),
            decreases n - i,
        {
            let part = self.mul_limb_shifted(other.limbs[i], i);
            proof {
                lemma_prefix_step(other.limbs@, i as nat);
                let a = self@;
                let p = prefix_value(other.limbs@, i as nat);
                let x = other.limbs@[i as int] as nat;
                let w = weight(i as nat);
                assert(a * (p + x * w) == a * p + a * x * w) by (nonlinear_arith);
            }
            acc = acc.add(&part);
            i += 1;
        }
        acc
    }

    /// Quotient and remainder of the division by a nonzero `divisor`.
    pub fn div_rem(&self, divisor: &BigNat) -> (r: (BigNat, BigNat))
        requires
            self.wf(),
            divisor.wf(),
            divisor@ > 0,
        ensures
            r.0.wf(),
            r.1.wf(),
            r.0@ == self@ / divisor@,
            r.1@ == self@ % divisor@,
    {
        // ladder[k] is divisor * 2^k; it is grown until it passes `self`.
        let mut ladder: Vec<BigNat> = Vec::new();
        ladder.push(divisor.clone());
        while !self.lt(&ladder[ladder.len() - 1])
            invariant
                self.wf(),
                ladder@.len() >= 1,
                ladder@[0]@ == divisor@,
                forall|k: int| 0 <= k < ladder@.len() ==> (#[trigger] ladder@[k]).wf(),
                forall|k: int| 0 <= k < ladder@.len() ==> (#[trigger] ladder@[k])@ > 0,
                forall|k: int|
                    0 <= k < ladder@.len() - 1 ==> (#[trigger] ladder@[k + 1])@ == 2 * ladder@[k]@,
            decreases
                    (if self@ >= ladder@.last()@ {
                        self@ - ladder@.last()@ + 1
                    } else {
                        0
                    }),
        {
            let top = ladder.len() - 1;
            let next = ladder[top].add(&ladder[top]);
            ladder.push(next);
        }
        let mut quotient = BigNat::zero();
        let mut rest = self.clone();
        let mut i: usize = ladder.len() - 1;
        let one = BigNat::from_u64(1);
        proof {
            assert(0 * ladder@[i as int]@ == 0) by (nonlinear_arith);
        }
        while i > 0
            invariant
                i < ladder@.len(),
                one.wf(),
                one@ == 1,
                quotient.wf(),
                rest.wf(),
                forall|k: int| 0 <= k < ladder@.len() ==> (#[trigger] ladder@[k]).wf(),
                forall|k: int|
                    0 <= k < ladder@.len() - 1 ==> (#[trigger] ladder@[k + 1])@ == 2 * ladder@[k]@,
                self@ == quotient@ * ladder@[i as int]@ + rest@,
                rest@ < ladder@[i as int]@,
            decreases i,
        {
            let ghost q0 = quotient@;
            let ghost step = ladder@[i - 1]@;
            assert(ladder@[(i - 1) + 1]@ == 2 * ladder@[i - 1]@);
            i -= 1;
            quotient = quotient.add(&quotient);
            if !rest.lt(&ladder[i]) {
                rest = rest.sub(&ladder[i]);
                quotient = quotient.add(&one);
                proof {
                    assert(q0 * (2 * step) == (q0 + q0 + 1) * step - step) by (nonlinear_arith);
                }
            } else {
                proof {
                    assert(q0 * (2 * step) == (q0 + q0) * step) by (nonlinear_arith);
                }
            }
        }
        proof {
            let d = divisor@ as int;
            assert(quotient@ * d == d * quotient@) by (nonlinear_arith);
            lemma_fundamental_div_mod_converse(self@ as int, d, quotient@ as int, rest@ as int);
        }
        (quotient, rest)
    }

    /// The greatest common divisor of the two numbers.
    pub fn gcd(&self, other: &BigNat) -> (r: BigNat)
        requires
            self.wf(),
            other.wf(),
        ensures
            r.wf(),
            r@ == gcd(self@, other@),
    {
        let mut a = self.clone();
        let mut b = other.clone();
        while !b.is_zero()
            invariant
                a.wf(),
                b.wf(),
                gcd(a@, b@) == gcd(self@, other@),
            decreases b@,
        {
            let (_, r) = a.div_rem(&b);
            a = b;
            b = r;
        }
        a
    }
}

} // verus!
