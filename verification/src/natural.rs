//! Natural numbers of any size, as far as the planner needs them: sums,
//! products with a machine integer, and comparison.

use vstd::prelude::*;

verus! {

/// A natural number without an upper bound, held as limbs of 64 bits with the
/// least significant first.
pub struct Natural {
    limbs: Vec<u64>,
}

/// Two to the power of 64: what one limb counts up to.
spec fn limb_base() -> nat {
    0x1_0000_0000_0000_0000
}

/// What a one in limb `k` is worth.
spec fn weight(k: nat) -> nat
    decreases k,
{
    if k == 0 {
        1
    } else {
        limb_base() * weight((k - 1) as nat)
    }
}

/// Limb `k`, read as zero beyond the last limb.
spec fn limb_at(limbs: Seq<u64>, k: int) -> nat {
    if 0 <= k < limbs.len() {
        limbs[k] as nat
    } else {
        0
    }
}

/// The number that the first `n` limbs stand for.
spec fn value_upto(limbs: Seq<u64>, n: nat) -> nat
    decreases n,
{
    if n == 0 {
        0
    } else {
        value_upto(limbs, (n - 1) as nat) + limb_at(limbs, n - 1) * weight((n - 1) as nat)
    }
}

impl View for Natural {
    type V = nat;

    closed spec fn view(&self) -> nat {
        value_upto(self.limbs@, self.limbs@.len())
    }
}

proof fn lemma_value_prefix(a: Seq<u64>, b: Seq<u64>, n: nat)
    requires
        forall|k: int| 0 <= k < n ==> limb_at(a, k) == limb_at(b, k),
    ensures
        value_upto(a, n) == value_upto(b, n),
    decreases n,
{
    if n > 0 {
        lemma_value_prefix(a, b, (n - 1) as nat);
    }
}

proof fn lemma_value_beyond(limbs: Seq<u64>, n: nat)
    requires
        limbs.len() <= n,
    ensures
        value_upto(limbs, n) == value_upto(limbs, limbs.len()),
    decreases n,
{
    if n > limbs.len() {
        lemma_value_beyond(limbs, (n - 1) as nat);
        assert(0 * weight((n - 1) as nat) == 0);
    }
}

proof fn lemma_value_bound(limbs: Seq<u64>, n: nat)
    ensures
        value_upto(limbs, n) < weight(n),
    decreases n,
{
    if n > 0 {
        lemma_value_bound(limbs, (n - 1) as nat);
        let w = weight((n - 1) as nat);
        let d = limb_at(limbs, n - 1);
        let b = limb_base();
        assert(d * w + w <= b * w) by (nonlinear_arith)
            requires
                d + 1 <= b,
        ;
    }
}

proof fn lemma_value_above(a: Seq<u64>, b: Seq<u64>, from: nat, n: nat)
    requires
        from <= n,
        forall|k: int| from <= k < n ==> limb_at(a, k) == limb_at(b, k),
    ensures
        value_upto(a, n) - value_upto(a, from) == value_upto(b, n) - value_upto(b, from),
    decreases n,
{
    if n > from {
        lemma_value_above(a, b, from, (n - 1) as nat);
    }
}

impl Natural {
    /// The number zero.
    pub fn zero() -> (number: Natural)
        ensures
            number@ == 0,
    {
        Natural { limbs: Vec::new() }
    }

    /// The number that a machine integer holds.
    pub fn from_usize(value: usize) -> (number: Natural)
        ensures
            number@ == value,
    {
        let mut limbs: Vec<u64> = Vec::new();
        limbs.push(value as u64);
        proof {
            assert(value_upto(limbs@, 0) == 0);
            assert(limb_at(limbs@, 0) * weight(0) == value) by (nonlinear_arith)
                requires
                    limb_at(limbs@, 0) == value,
                    weight(0) == 1,
            ;
        }
        Natural { limbs }
    }

    /// A second copy of the number.
    pub fn duplicate(&self) -> (number: Natural)
        ensures
            number@ == self@,
    {
        let mut limbs: Vec<u64> = Vec::new();
        let mut k: usize = 0;
        while k < self.limbs.len()
            invariant
                k <= self.limbs.len(),
                limbs@ == self.limbs@.take(k as int),
            decreases self.limbs.len() - k,
        {
            limbs.push(self.limbs[k]);
            assert(self.limbs@.take(k + 1) =~= self.limbs@.take(k as int).push(
                self.limbs[k as int],
            ));
            k = k + 1;
        }
        assert(self.limbs@.take(self.limbs@.len() as int) =~= self.limbs@);
        Natural { limbs }
    }

    /// The sum of two numbers.
    pub fn plus(&self, other: &Natural) -> (sum: Natural)
        ensures
            sum@ == self@ + other@,
    {
        let n: usize = if self.limbs.len() < other.limbs.len() {
            other.limbs.len()
        } else {
            self.limbs.len()
        };
        let mut limbs: Vec<u64> = Vec::new();
        let mut carry: u64 = 0;
        let mut k: usize = 0;
        while k < n
            invariant
                k <= n,
                limbs@.len() == k,
                carry <= 1,
                value_upto(limbs@, k as nat) + carry * weight(k as nat) == value_upto(
                    self.limbs@,
                    k as nat,
                ) + value_upto(other.limbs@, k as nat),
            decreases n - k,
        {
            let x: u64 = if k < self.limbs.len() {
                self.limbs[k]
            } else {
                0
            };
            let y: u64 = if k < other.limbs.len() {
                other.limbs[k]
            } else {
                0
            };
            let total: u128 = x as u128 + y as u128 + carry as u128;
            let low: u64 = (total % 0x1_0000_0000_0000_0000u128) as u64;
            let high: u64 = (total / 0x1_0000_0000_0000_0000u128) as u64;
            let ghost before = limbs@;
            limbs.push(low);
            proof {
                lemma_value_prefix(before, limbs@, k as nat);
                let w = weight(k as nat);
                assert(x == limb_at(self.limbs@, k as int));
                assert(y == limb_at(other.limbs@, k as int));
                assert(low == limb_at(limbs@, k as int));
                assert(weight((k + 1) as nat) == limb_base() * w);
                assert(low * w + high * (limb_base() * w) == x * w + y * w + carry * w)
                    by (nonlinear_arith)
                    requires
                        low + high * limb_base() == x + y + carry,
                ;
            }
            carry = high;
            k = k + 1;
        }
        proof {
            lemma_value_beyond(self.limbs@, n as nat);
            lemma_value_beyond(other.limbs@, n as nat);
        }
        if carry > 0 {
            let ghost before = limbs@;
            limbs.push(carry);
            proof {
                lemma_value_prefix(before, limbs@, n as nat);
                assert(carry == limb_at(limbs@, n as int));
            }
        } else {
            assert(0 * weight(n as nat) == 0);
        }
        Natural { limbs }
    }

    /// The product of the number and a machine integer.
    pub fn times(&self, factor: usize) -> (product: Natural)
        ensures
            product@ == self@ * factor,
    {
        let n: usize = self.limbs.len();
        let mut limbs: Vec<u64> = Vec::new();
        let mut carry: u64 = 0;
        let mut k: usize = 0;
        assert(0 * factor == 0);
        while k < n
            invariant
                k <= n,
                n == self.limbs@.len(),
                limbs@.len() == k,
                value_upto(limbs@, k as nat) + carry * weight(k as nat) == value_upto(
                    self.limbs@,
                    k as nat,
                ) * factor,
            decreases n - k,
        {
            let x: u64 = self.limbs[k];
            assert(x as u128 * factor as u128 + carry as u128 <= u128::MAX) by (nonlinear_arith)
                requires
                    x <= 0xffff_ffff_ffff_ffffu64,
                    factor <= 0xffff_ffff_ffff_ffffu64,
                    carry <= 0xffff_ffff_ffff_ffffu64,
            ;
            let total: u128 = x as u128 * factor as u128 + carry as u128;
            let low: u64 = (total % 0x1_0000_0000_0000_0000u128) as u64;
            let high: u64 = (total / 0x1_0000_0000_0000_0000u128) as u64;
            let ghost before = limbs@;
            limbs.push(low);
            proof {
                lemma_value_prefix(before, limbs@, k as nat);
                let w = weight(k as nat);
                let v = value_upto(self.limbs@, k as nat);
                assert(x == limb_at(self.limbs@, k as int));
                assert(low == limb_at(limbs@, k as int));
                assert(weight((k + 1) as nat) == limb_base() * w);
                assert(low * w + high * (limb_base() * w) + v * factor == carry * w + (v + x * w)
                    * factor) by (nonlinear_arith)
                    requires
                        low + high * limb_base() == x * factor + carry,
                ;
            }
            carry = high;
            k = k + 1;
        }
        if carry > 0 {
            let ghost before = limbs@;
            limbs.push(carry);
            proof {
                lemma_value_prefix(before, limbs@, n as nat);
                assert(carry == limb_at(limbs@, n as int));
            }
        } else {
            assert(0 * weight(n as nat) == 0);
        }
        Natural { limbs }
    }

    /// Whether the number is larger than another.
    pub fn exceeds(&self, other: &Natural) -> (larger: bool)
        ensures
            larger == (self@ > other@),
    {
        let n: usize = if self.limbs.len() < other.limbs.len() {
            other.limbs.len()
        } else {
            self.limbs.len()
        };
        proof {
            lemma_value_beyond(self.limbs@, n as nat);
            lemma_value_beyond(other.limbs@, n as nat);
        }
        let mut k: usize = n;
        while k > 0
            invariant
                k <= n,
                forall|m: int| k <= m < n ==> limb_at(self.limbs@, m) == limb_at(other.limbs@, m),
                self@ == value_upto(self.limbs@, n as nat),
                other@ == value_upto(other.limbs@, n as nat),
            decreases k,
        {
            k = k - 1;
            let x: u64 = if k < self.limbs.len() {
                self.limbs[k]
            } else {
                0
            };
            let y: u64 = if k < other.limbs.len() {
                other.limbs[k]
            } else {
                0
            };
            if x != y {
                proof {
                    lemma_value_above(self.limbs@, other.limbs@, (k + 1) as nat, n as nat);
                    lemma_value_bound(self.limbs@, k as nat);
                    lemma_value_bound(other.limbs@, k as nat);
                    let w = weight(k as nat);
                    assert(x == limb_at(self.limbs@, k as int));
                    assert(y == limb_at(other.limbs@, k as int));
                    if x > y {
                        assert(x * w >= y * w + w) by (nonlinear_arith)
                            requires
                                x >= y + 1,
                        ;
                    } else {
                        assert(y * w >= x * w + w) by (nonlinear_arith)
                            requires
                                y >= x + 1,
                        ;
                    }
                }
                return x > y;
            }
        }
        proof {
            lemma_value_above(self.limbs@, other.limbs@, 0, n as nat);
        }
        false
    }

    /// Whether two numbers are the same.
    pub fn equals(&self, other: &Natural) -> (same: bool)
        ensures
            same == (self@ == other@),
    {
        !self.exceeds(other) && !other.exceeds(self)
    }
}

} // verus!
