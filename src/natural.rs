//! Arbitrary-precision natural numbers, stored as little-endian base-2^32 limbs.

use vstd::prelude::*;

verus! {

/// The radix of one limb.
pub const LIMB_BASE: u64 = 0x1_0000_0000;

/// `LIMB_BASE` raised to the power `k`.
pub open spec fn base_pow(k: nat) -> nat
    decreases k,
{
    if k == 0 {
        1
    } else {
        (LIMB_BASE * base_pow((k - 1) as nat)) as nat
    }
}

/// The limb at position `k`, reading missing limbs as zero.
pub open spec fn limb_at(s: Seq<u32>, k: int) -> nat {
    if 0 <= k < s.len() {
        s[k] as nat
    } else {
        0
    }
}

/// The value of the lowest `n` limbs of `s`.
pub open spec fn prefix_value(s: Seq<u32>, n: nat) -> nat
    decreases n,
{
    if n == 0 {
        0
    } else {
        (prefix_value(s, (n - 1) as nat) + limb_at(s, n - 1) * base_pow((n - 1) as nat)) as nat
    }
}

/// The number that a little-endian limb sequence denotes.
pub open spec fn digits_value(s: Seq<u32>) -> nat {
    prefix_value(s, s.len())
}

proof fn lemma_base_pow_adds(i: nat, k: nat)
    ensures
        base_pow(i + k) == base_pow(i) * base_pow(k),
    decreases i,
{
    if i > 0 {
        lemma_base_pow_adds((i - 1) as nat, k);
        let a = base_pow((i - 1) as nat);
        let b = base_pow(k);
        assert(base_pow(i + k) == LIMB_BASE * base_pow((i - 1 + k) as nat));
        assert(base_pow(i) == LIMB_BASE * a);
        assert(LIMB_BASE * (a * b) == (LIMB_BASE * a) * b) by (nonlinear_arith);
        assert(base_pow(i + k) == base_pow(i) * base_pow(k));
    } else {
        assert(base_pow(i) == 1);
        assert(i + k == k);
    }
}

proof fn lemma_prefix_bound(s: Seq<u32>, n: nat)
    ensures
        prefix_value(s, n) < base_pow(n),
    decreases n,
{
    if n > 0 {
        lemma_prefix_bound(s, (n - 1) as nat);
        let p = base_pow((n - 1) as nat);
        let v = prefix_value(s, (n - 1) as nat);
        let d = limb_at(s, n - 1);
        assert(v + d * p < LIMB_BASE * p) by (nonlinear_arith)
            requires
                v < p,
                d < LIMB_BASE,
        ;
    }
}

proof fn lemma_prefix_beyond(s: Seq<u32>, n: nat)
    requires
        n >= s.len(),
    ensures
        prefix_value(s, n) == digits_value(s),
    decreases n,
{
    if n > s.len() {
        lemma_prefix_beyond(s, (n - 1) as nat);
        assert(limb_at(s, n - 1) == 0);
        assert(prefix_value(s, n) == prefix_value(s, (n - 1) as nat) + 0 * base_pow((n - 1) as nat));
    }
}

proof fn lemma_prefix_congruent(s: Seq<u32>, t: Seq<u32>, n: nat)
    requires
        forall|k: int| 0 <= k < n ==> limb_at(s, k) == limb_at(t, k),
    ensures
        prefix_value(s, n) == prefix_value(t, n),
    decreases n,
{
    if n > 0 {
        lemma_prefix_congruent(s, t, (n - 1) as nat);
    }
}

proof fn lemma_push(s: Seq<u32>, x: u32)
    ensures
        digits_value(s.push(x)) == digits_value(s) + x * base_pow(s.len()),
{
    let t = s.push(x);
    lemma_prefix_congruent(s, t, s.len());
    assert(limb_at(t, s.len() as int) == x);
}

/// `t * p` splits into its low limb at weight `p` and its carry at weight `LIMB_BASE * p`.
proof fn lemma_carry_split(t: nat, p: nat)
    ensures
        (t % LIMB_BASE as nat) * p + (t / LIMB_BASE as nat) * (LIMB_BASE * p) == t * p,
{
    let q = t / LIMB_BASE as nat;
    let m = t % LIMB_BASE as nat;
    assert(t == LIMB_BASE * q + m);
    assert(m * p + q * (LIMB_BASE * p) == (LIMB_BASE * q + m) * p) by (nonlinear_arith);
}

/// A natural number of any size.
pub struct Natural {
    limbs: Vec<u32>,
}

impl View for Natural {
    type V = nat;

    closed spec fn view(&self) -> nat {
        digits_value(self.limbs@)
    }
}

impl Natural {
    /// Drops high zero limbs; the value stays.
    fn trimmed(mut limbs: Vec<u32>) -> (r: Natural)
        ensures
            r@ == digits_value(limbs@),
    {
        let ghost v = digits_value(limbs@);
        while limbs.len() > 0 && limbs[limbs.len() - 1] == 0
            invariant
                digits_value(limbs@) == v,
            decreases limbs.len(),
        {
            let ghost before = limbs@;
            limbs.pop();
            proof {
                assert(before =~= limbs@.push(0u32));
                lemma_push(limbs@, 0u32);
                assert(digits_value(before) == digits_value(limbs@) + 0 * base_pow(limbs@.len()));
            }
        }
        Natural { limbs }
    }

    /// The number zero.
    pub fn zero() -> (r: Natural)
        ensures
            r@ == 0,
    {
        Natural { limbs: Vec::new() }
    }

    /// The number `v`.
    pub fn from_u64(v: u64) -> (r: Natural)
        ensures
            r@ == v,
    {
        let lo = (v % LIMB_BASE) as u32;
        let hi = (v / LIMB_BASE) as u32;
        let mut limbs: Vec<u32> = Vec::new();
        limbs.push(lo);
        limbs.push(hi);
        proof {
            let e = Seq::<u32>::empty();
            lemma_push(e, lo);
            assert(e.len() == 0);
            assert(e.push(lo).len() == 1);
            assert(digits_value(e) == 0);
            assert(base_pow(0) == 1);
            assert(digits_value(e.push(lo)) == digits_value(e) + lo * base_pow(e.len()));
            assert(lo * base_pow(0) == lo * 1);
            assert(digits_value(e.push(lo)) == lo);
            lemma_push(e.push(lo), hi);
            assert(base_pow(1) == LIMB_BASE * base_pow(0));
            assert(limbs@ =~= e.push(lo).push(hi));
            assert(v == lo + hi * LIMB_BASE);
        }
        Natural::trimmed(limbs)
    }

    /// The limbs of the number, lowest first.
    pub fn to_limbs(&self) -> (r: Vec<u32>)
        ensures
            digits_value(r@) == self@,
    {
        self.limbs.clone()
    }

    /// The sum `self + other`.
    pub fn add(&self, other: &Natural) -> (r: Natural)
        ensures
            r@ == self@ + other@,
    {
        let a = &self.limbs;
        let b = &other.limbs;
        let n: usize = if a.len() > b.len() { a.len() } else { b.len() };
        let mut r: Vec<u32> = Vec::new();
        let mut carry: u64 = 0;
        let mut i: usize = 0;
        while i < n
            invariant
                i <= n,
                n == a.len() || n == b.len(),
                a.len() <= n,
                b.len() <= n,
                r.len() == i,
                carry <= 1,
                digits_value(r@) + carry * base_pow(i as nat) == prefix_value(a@, i as nat)
                    + prefix_value(b@, i as nat),
            decreases n - i,
        {
            let x: u64 = if i < a.len() { a[i] as u64 } else { 0 };
            let y: u64 = if i < b.len() { b[i] as u64 } else { 0 };
            let t: u64 = x + y + carry;
            let low = (t % LIMB_BASE) as u32;
            proof {
                let p = base_pow(i as nat);
                lemma_push(r@, low);
                lemma_carry_split(t as nat, p);
                assert(x == limb_at(a@, i as int));
                assert(y == limb_at(b@, i as int));
                assert(t * p == x * p + y * p + carry * p) by (nonlinear_arith)
                    requires
                        t == x + y + carry,
                ;
            }
            r.push(low);
            carry = t / LIMB_BASE;
            i = i + 1;
        }
        proof {
            lemma_prefix_beyond(a@, n as nat);
            lemma_prefix_beyond(b@, n as nat);
            lemma_push(r@, carry as u32);
        }
        r.push(carry as u32);
        Natural::trimmed(r)
    }

    /// Limb-wise difference `a - b` and the final borrow, over the longer length.
    fn sub_with_borrow(a: &Vec<u32>, b: &Vec<u32>) -> (res: (Vec<u32>, bool))
        ensures
            digits_value(res.0@) + digits_value(b@) == digits_value(a@) + (if res.1 {
                base_pow(res.0@.len())
            } else {
                0
            }),
            digits_value(res.0@) < base_pow(res.0@.len()),
    {
        let n: usize = if a.len() > b.len() { a.len() } else { b.len() };
        let mut r: Vec<u32> = Vec::new();
        let mut borrow: u64 = 0;
        let mut i: usize = 0;
        while i < n
            invariant
                i <= n,
                a.len() <= n,
                b.len() <= n,
                r.len() == i,
                borrow <= 1,
                digits_value(r@) + prefix_value(b@, i as nat) == prefix_value(a@, i as nat)
                    + borrow * base_pow(i as nat),
            decreases n - i,
        {
            let x: u64 = if i < a.len() { a[i] as u64 } else { 0 };
            let y: u64 = if i < b.len() { b[i] as u64 } else { 0 };
            let ghost p = base_pow(i as nat);
            let ghost old_borrow = borrow;
            let d: u64;
            if x >= y + borrow {
                d = x - y - borrow;
                borrow = 0;
            } else {
                d = x + LIMB_BASE - y - borrow;
                borrow = 1;
            }
            proof {
                lemma_push(r@, d as u32);
                assert(x == limb_at(a@, i as int));
                assert(y == limb_at(b@, i as int));
                assert(base_pow((i + 1) as nat) == LIMB_BASE * p);
                assert(d * p + y * p == x * p + borrow * (LIMB_BASE * p) - old_borrow * p)
                    by (nonlinear_arith)
                    requires
                        d + y == x + borrow * LIMB_BASE - old_borrow,
                ;
            }
            r.push(d as u32);
            i = i + 1;
        }
        proof {
            lemma_prefix_beyond(a@, n as nat);
            lemma_prefix_beyond(b@, n as nat);
            lemma_prefix_bound(r@, n as nat);
        }
        (r, borrow == 1)
    }

    /// Whether `self < other`.
    pub fn lt(&self, other: &Natural) -> (r: bool)
        ensures
            r == (self@ < other@),
    {
        let (_, borrow) = Natural::sub_with_borrow(&self.limbs, &other.limbs);
        borrow
    }

    /// The difference `self - other`, which must not be negative.
    pub fn sub(&self, other: &Natural) -> (r: Natural)
        requires
            other@ <= self@,
        ensures
            r@ == self@ - other@,
    {
        let (limbs, _) = Natural::sub_with_borrow(&self.limbs, &other.limbs);
        Natural::trimmed(limbs)
    }

    /// The product of `a` and one limb `d`.
    fn mul_limb(a: &Vec<u32>, d: u32) -> (r: Vec<u32>)
        ensures
            digits_value(r@) == digits_value(a@) * d,
    {
        let mut r: Vec<u32> = Vec::new();
        let mut carry: u64 = 0;
        let mut i: usize = 0;
        assert(prefix_value(a@, 0) == 0);
        assert(0 * d == 0);
        while i < a.len()
            invariant
                i <= a.len(),
                r.len() == i,
                carry < LIMB_BASE,
                digits_value(r@) + carry * base_pow(i as nat) == prefix_value(a@, i as nat) * d,
            decreases a.len() - i,
        {
            let x: u64 = a[i] as u64;
            assert(x * d <= (LIMB_BASE - 1) * (LIMB_BASE - 1)) by (nonlinear_arith)
                requires
                    x < LIMB_BASE,
                    d < LIMB_BASE,
            ;
            let t: u64 = x * (d as u64) + carry;
            let low = (t % LIMB_BASE) as u32;
            proof {
                let p = base_pow(i as nat);
                lemma_push(r@, low);
                lemma_carry_split(t as nat, p);
                assert(x == limb_at(a@, i as int));
                assert(base_pow((i + 1) as nat) == LIMB_BASE * p);
                let pv = prefix_value(a@, i as nat);
                assert(t * p == pv * d + x * p * d - pv * d + carry * p) by (nonlinear_arith)
                    requires
                        t == x * d + carry,
                ;
                assert((pv + x * p) * d == pv * d + x * p * d) by (nonlinear_arith);
            }
            r.push(low);
            carry = t / LIMB_BASE;
            i = i + 1;
        }
        proof {
            lemma_push(r@, carry as u32);
        }
        r.push(carry as u32);
        r
    }

    /// `a` moved up by `k` limbs: its value times `base_pow(k)`.
    fn shifted(a: &Vec<u32>, k: usize) -> (r: Vec<u32>)
        ensures
            digits_value(r@) == digits_value(a@) * base_pow(k as nat),
    {
        let mut r: Vec<u32> = Vec::new();
        let mut j: usize = 0;
        while j < k
            invariant
                j <= k,
                r.len() == j,
                digits_value(r@) == 0,
            decreases k - j,
        {
            proof {
                lemma_push(r@, 0u32);
                assert(0 * base_pow(j as nat) == 0);
            }
            r.push(0u32);
            j = j + 1;
        }
        let mut i: usize = 0;
        assert(prefix_value(a@, 0) == 0);
        assert(0 * base_pow(k as nat) == 0);
        while i < a.len()
            invariant
                i <= a.len(),
                r.len() == k + i,
                digits_value(r@) == prefix_value(a@, i as nat) * base_pow(k as nat),
            decreases a.len() - i,
        {
            proof {
                lemma_push(r@, a[i as int]);
                lemma_base_pow_adds(k as nat, i as nat);
                assert(a[i as int] == limb_at(a@, i as int));
                let pv = prefix_value(a@, i as nat);
                let pi = base_pow(i as nat);
                let pk = base_pow(k as nat);
                let x = a[i as int] as int;
                assert(pv * pk + x * (pk * pi) == (pv + x * pi) * pk) by (nonlinear_arith);
            }
            r.push(a[i]);
            i = i + 1;
        }
        r
    }

    /// The product `self * other`.
    pub fn mul(&self, other: &Natural) -> (r: Natural)
        ensures
            r@ == self@ * other@,
    {
        let b = &other.limbs;
        let mut acc = Natural::zero();
        let mut j: usize = 0;
        while j < b.len()
            invariant
                j <= b.len(),
                acc@ == self@ * prefix_value(b@, j as nat),
            decreases b.len() - j,
        {
            let part = Natural::mul_limb(&self.limbs, b[j]);
            let moved = Natural::shifted(&part, j);
            let term = Natural::trimmed(moved);
            proof {
                let v = self@;
                let pv = prefix_value(b@, j as nat);
                let x = b[j as int] as int;
                let p = base_pow(j as nat);
                assert(b[j as int] == limb_at(b@, j as int));
                assert(v * pv + v * x * p == v * (pv + x * p)) by (nonlinear_arith);
            }
            acc = acc.add(&term);
            j = j + 1;
        }
        acc
    }
}

} // verus!
