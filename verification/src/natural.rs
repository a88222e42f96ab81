//! Natural numbers of any size.

use vstd::prelude::*;

verus! {

/// One limb holds the digits below this base.
pub open spec fn base() -> nat {
    4294967296
}

/// The weight of the limb at position `i`.
pub open spec fn weight(i: nat) -> nat
    decreases i,
{
    if i == 0 {
        1
    } else {
        base() * weight((i - 1) as nat)
    }
}

/// The limb at position `i`; there are zeros behind the last one.
pub open spec fn limb(limbs: Seq<u32>, i: nat) -> nat {
    if i < limbs.len() {
        limbs[i as int] as nat
    } else {
        0
    }
}

/// The number that the lowest `n` limbs denote.
pub open spec fn low_value(limbs: Seq<u32>, n: nat) -> nat
    decreases n,
{
    if n == 0 {
        0
    } else {
        low_value(limbs, (n - 1) as nat) + limb(limbs, (n - 1) as nat) * weight((n - 1) as nat)
    }
}

/// A natural number, lowest limb first.
pub struct Natural {
    limbs: Vec<u32>,
}

impl View for Natural {
    type V = nat;

    closed spec fn view(&self) -> nat {
        low_value(self.limbs@, self.limbs@.len())
    }
}

proof fn lemma_low_value_same(a: Seq<u32>, b: Seq<u32>, n: nat)
    requires
        forall|i: nat| i < n ==> limb(a, i) == limb(b, i),
    ensures
        low_value(a, n) == low_value(b, n),
    decreases n,
{
    if n > 0 {
        lemma_low_value_same(a, b, (n - 1) as nat);
        assert(limb(a, (n - 1) as nat) == limb(b, (n - 1) as nat));
    }
}

proof fn lemma_low_value_padding(a: Seq<u32>, n: nat)
    requires
        a.len() <= n,
    ensures
        low_value(a, n) == low_value(a, a.len()),
    decreases n,
{
    if a.len() < n {
        lemma_low_value_padding(a, (n - 1) as nat);
        assert(limb(a, (n - 1) as nat) * weight((n - 1) as nat) == 0) by (nonlinear_arith)
            requires
                limb(a, (n - 1) as nat) == 0,
        ;
    }
}

proof fn lemma_low_value_bound(a: Seq<u32>, n: nat)
    ensures
        low_value(a, n) < weight(n),
    decreases n,
{
    if n > 0 {
        let m = (n - 1) as nat;
        lemma_low_value_bound(a, m);
        let top = limb(a, m);
        let w = weight(m);
        assert(top * w <= (base() - 1) * w) by (nonlinear_arith)
            requires
                top <= base() - 1,
        ;
        assert((base() - 1) * w + w == base() * w) by (nonlinear_arith);
    }
}

impl Natural {
    /// A small number.
    pub fn small(value: u32) -> (number: Natural)
        ensures
            number@ == value,
    {
        let mut limbs: Vec<u32> = Vec::new();
        limbs.push(value);
        proof {
            assert(low_value(limbs@, 1) == low_value(limbs@, 0) + limb(limbs@, 0) * weight(0));
            assert(low_value(limbs@, 0) == 0);
            assert(limb(limbs@, 0) * weight(0) == value) by (nonlinear_arith)
                requires
                    weight(0) == 1,
                    limb(limbs@, 0) == value,
            ;
        }
        Natural { limbs }
    }

    /// A number of up to 128 binary digits.
    pub fn wide(value: u128) -> (number: Natural)
        ensures
            number@ == value,
    {
        let mut limbs: Vec<u32> = Vec::new();
        let a: u128 = value % 4294967296;
        let rest: u128 = value / 4294967296;
        let b: u128 = rest % 4294967296;
        let rest: u128 = rest / 4294967296;
        let c: u128 = rest % 4294967296;
        let d: u128 = rest / 4294967296;
        limbs.push(a as u32);
        limbs.push(b as u32);
        limbs.push(c as u32);
        limbs.push(d as u32);
        proof {
            let l = limbs@;
            assert(low_value(l, 0) == 0);
            assert(low_value(l, 1) == low_value(l, 0) + limb(l, 0) * weight(0));
            assert(low_value(l, 2) == low_value(l, 1) + limb(l, 1) * weight(1));
            assert(low_value(l, 3) == low_value(l, 2) + limb(l, 2) * weight(2));
            assert(low_value(l, 4) == low_value(l, 3) + limb(l, 3) * weight(3));
            assert(weight(0) == 1);
            assert(weight(1) == 4294967296);
            assert(weight(2) == 4294967296 * 4294967296);
            assert(weight(3) == 4294967296 * (4294967296 * 4294967296));
            assert(limb(l, 0) * weight(0) == a) by (nonlinear_arith)
                requires
                    weight(0) == 1,
                    limb(l, 0) == a,
            ;
            assert(limb(l, 1) * weight(1) == b * 4294967296);
            assert(limb(l, 2) * weight(2) == c * 18446744073709551616);
            assert(limb(l, 3) * weight(3) == d * 79228162514264337593543950336);
        }
        Natural { limbs }
    }

    /// Multiplies by `factor` and adds `more`.
    pub fn multiply_add(&self, factor: u32, more: u32) -> (number: Natural)
        ensures
            number@ == self@ * factor + more,
    {
        let mut limbs: Vec<u32> = Vec::new();
        let mut carry: u64 = more as u64;
        let mut i: usize = 0;
        let ghost old_limbs = self.limbs@;
        proof {
            assert(low_value(old_limbs, 0) == 0);
            assert(low_value(limbs@, 0) == 0);
            assert(0 * factor == 0);
            assert(carry * weight(0) == carry) by (nonlinear_arith)
                requires
                    weight(0) == 1,
            ;
        }
        while i < self.limbs.len()
            invariant
                i <= self.limbs.len(),
                old_limbs == self.limbs@,
                limbs.len() == i,
                carry < base(),
                low_value(limbs@, i as nat) + carry * weight(i as nat) == low_value(
                    old_limbs,
                    i as nat,
                ) * factor + more,
            decreases self.limbs.len() - i,
        {
            let digit: u64 = self.limbs[i] as u64;
            assert(digit * factor <= (base() - 1) * (base() - 1)) by (nonlinear_arith)
                requires
                    digit <= base() - 1,
                    factor <= base() - 1,
            ;
            let total: u64 = digit * (factor as u64) + carry;
            let low: u32 = (total % 4294967296) as u32;
            let ghost previous = limbs@;
            limbs.push(low);
            let next: u64 = total / 4294967296;
            proof {
                let n = i as nat;
                let w = weight(n);
                lemma_low_value_same(limbs@, previous, n);
                assert(limb(limbs@, n) == low);
                assert(limb(old_limbs, n) == digit);
                assert(low_value(limbs@, n + 1) == low_value(limbs@, n) + low * w);
                assert(low_value(old_limbs, n + 1) == low_value(old_limbs, n) + digit * w);
                assert(weight(n + 1) == base() * w);
                assert(total == next * base() + low);
                assert(low * w + next * (base() * w) == digit * w * factor + carry * w)
                    by (nonlinear_arith)
                    requires
                        digit * factor + carry == next * base() + low,
                ;
                assert((low_value(old_limbs, n) + digit * w) * factor == low_value(old_limbs, n)
                    * factor + digit * w * factor) by (nonlinear_arith);
            }
            carry = next;
            i += 1;
        }
        let ghost previous = limbs@;
        limbs.push(carry as u32);
        proof {
            let n = i as nat;
            lemma_low_value_same(limbs@, previous, n);
            assert(limb(limbs@, n) == carry);
            assert(low_value(limbs@, n + 1) == low_value(limbs@, n) + carry * weight(n));
        }
        Natural { limbs }
    }

    fn limb_at(&self, i: usize) -> (value: u32)
        ensures
            value == limb(self.limbs@, i as nat),
    {
        if i < self.limbs.len() {
            self.limbs[i]
        } else {
            0
        }
    }

    fn longer(&self, other: &Natural) -> (len: usize)
        ensures
            self.limbs@.len() <= len,
            other.limbs@.len() <= len,
    {
        if self.limbs.len() < other.limbs.len() {
            other.limbs.len()
        } else {
            self.limbs.len()
        }
    }

    /// Whether this number is at least `other`.
    pub fn at_least(&self, other: &Natural) -> (found: bool)
        ensures
            found == (self@ >= other@),
    {
        let len = self.longer(other);
        let mut i: usize = len;
        let ghost a = self.limbs@;
        let ghost b = other.limbs@;
        proof {
            lemma_low_value_padding(a, len as nat);
            lemma_low_value_padding(b, len as nat);
        }
        while i > 0
            invariant
                i <= len,
                a == self.limbs@,
                b == other.limbs@,
                (self@ >= other@) == (low_value(a, i as nat) >= low_value(b, i as nat)),
            decreases i,
        {
            let left = self.limb_at(i - 1);
            let right = other.limb_at(i - 1);
            let ghost n = (i - 1) as nat;
            proof {
                lemma_low_value_bound(a, n);
                lemma_low_value_bound(b, n);
                let w = weight(n);
                if left > right {
                    assert(left * w >= right * w + w) by (nonlinear_arith)
                        requires
                            left >= right + 1,
                    ;
                } else if left < right {
                    assert(right * w >= left * w + w) by (nonlinear_arith)
                        requires
                            right >= left + 1,
                    ;
                }
            }
            if left != right {
                return left > right;
            }
            i -= 1;
        }
        true
    }

    /// This number without `other`, which is not larger.
    pub fn minus(&self, other: &Natural) -> (number: Natural)
        requires
            self@ >= other@,
        ensures
            number@ == self@ - other@,
    {
        let len = self.longer(other);
        let mut limbs: Vec<u32> = Vec::new();
        let mut borrow: u64 = 0;
        let mut i: usize = 0;
        let ghost a = self.limbs@;
        let ghost b = other.limbs@;
        proof {
            assert(0 * weight(0) == 0);
        }
        while i < len
            invariant
                i <= len,
                a == self.limbs@,
                b == other.limbs@,
                limbs.len() == i,
                borrow <= 1,
                low_value(limbs@, i as nat) + low_value(b, i as nat) == low_value(a, i as nat)
                    + borrow * weight(i as nat),
            decreases len - i,
        {
            let left: u64 = self.limb_at(i) as u64;
            let right: u64 = other.limb_at(i) as u64 + borrow;
            let next: u64 = if left < right {
                1
            } else {
                0
            };
            let low: u32 = (left + next * 4294967296 - right) as u32;
            let ghost previous = limbs@;
            limbs.push(low);
            proof {
                let n = i as nat;
                let w = weight(n);
                lemma_low_value_same(limbs@, previous, n);
                assert(limb(limbs@, n) == low);
                assert(low_value(limbs@, n + 1) == low_value(limbs@, n) + low * w);
                assert(low_value(a, n + 1) == low_value(a, n) + left * w);
                assert(low_value(b, n + 1) == low_value(b, n) + (right - borrow) * w);
                assert(weight(n + 1) == base() * w);
                assert(low * w + (right - borrow) * w == left * w + next * (base() * w) - borrow * w)
                    by (nonlinear_arith)
                    requires
                        low + right == left + next * base(),
                ;
            }
            borrow = next;
            i += 1;
        }
        proof {
            let n = len as nat;
            lemma_low_value_padding(a, n);
            lemma_low_value_padding(b, n);
            lemma_low_value_bound(limbs@, n);
            let w = weight(n);
            assert(borrow == 0) by {
                if borrow == 1 {
                    assert(borrow * w == w);
                }
            }
            assert(borrow * w == 0);
        }
        Natural { limbs }
    }
}

} // verus!
