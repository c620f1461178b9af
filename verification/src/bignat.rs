//! Natural numbers of any size, kept as base-2^32 limbs, least significant first.

use vstd::prelude::*;

verus! {

/// The base of one limb.
pub open spec fn limb_base() -> nat {
    4294967296
}

/// The weight of limb `i`: `limb_base()` to the power `i`.
pub open spec fn place(i: nat) -> nat
    decreases i,
{
    if i == 0 {
        1
    } else {
        limb_base() * place((i - 1) as nat)
    }
}

/// Limb `i` of `s`, zero beyond its end.
pub open spec fn limb(s: Seq<u32>, i: int) -> nat {
    if 0 <= i < s.len() {
        s[i] as nat
    } else {
        0
    }
}

/// The number that the first `n` limbs of `s` stand for.
pub open spec fn val(s: Seq<u32>, n: nat) -> nat
    decreases n,
{
    if n == 0 {
        0
    } else {
        val(s, (n - 1) as nat) + limb(s, n - 1) * place((n - 1) as nat)
    }
}

/// The number that all limbs of `s` stand for.
pub open spec fn value(s: Seq<u32>) -> nat {
    val(s, s.len())
}

proof fn lemma_place_positive(i: nat)
    ensures
        place(i) >= 1,
    decreases i,
{
    if i > 0 {
        lemma_place_positive((i - 1) as nat);
    }
}

proof fn lemma_place_add(i: nat, j: nat)
    ensures
        place(i + j) == place(i) * place(j),
    decreases j,
{
    if j == 0 {
        assert(place(0) == 1);
        assert(i + j == i);
    } else {
        lemma_place_add(i, (j - 1) as nat);
        assert(place(j) == limb_base() * place((j - 1) as nat));
        assert((i + j - 1) as nat == i + (j - 1) as nat);
        assert(place(i + j) == limb_base() * place((i + j - 1) as nat));
        assert(limb_base() * (place(i) * place((j - 1) as nat)) == place(i) * (limb_base() * place((j - 1) as nat)))
            by (nonlinear_arith);
    }
}

/// Limbs beyond the end add nothing.
proof fn lemma_val_ext(s: Seq<u32>, n: nat)
    requires
        n >= s.len(),
    ensures
        val(s, n) == value(s),
    decreases n,
{
    if n > s.len() {
        lemma_val_ext(s, (n - 1) as nat);
        assert(limb(s, n - 1) == 0);
        assert(limb(s, n - 1) * place((n - 1) as nat) == 0);
    }
}

/// Sequences with the same first `n` limbs give the same value to them.
proof fn lemma_val_agree(s: Seq<u32>, t: Seq<u32>, n: nat)
    requires
        forall|i: int| 0 <= i < n ==> limb(s, i) == limb(t, i),
    ensures
        val(s, n) == val(t, n),
    decreases n,
{
    if n > 0 {
        lemma_val_agree(s, t, (n - 1) as nat);
    }
}

/// The first `n` limbs stand for less than `place(n)`.
proof fn lemma_val_bound(s: Seq<u32>, n: nat)
    ensures
        val(s, n) < place(n),
    decreases n,
{
    if n > 0 {
        let m = (n - 1) as nat;
        lemma_val_bound(s, m);
        let l = limb(s, m as int);
        let p = place(m);
        assert(l <= limb_base() - 1);
        assert(val(s, m) + l * p < limb_base() * p) by (nonlinear_arith)
            requires
                val(s, m) < p,
                l <= limb_base() - 1,
                limb_base() == 4294967296;
    }
}

/// Pushing a limb adds it at the next place.
proof fn lemma_val_push(s: Seq<u32>, x: u32)
    ensures
        val(s.push(x), s.len()) == value(s),
        value(s.push(x)) == value(s) + x * place(s.len()),
{
    lemma_val_agree(s.push(x), s, s.len());
}

/// A value split over two places: the low part plus the carry at the next place.
proof fn lemma_carry(lo: int, carry: int, p: nat)
    ensures
        (lo + carry * limb_base()) * p == lo * p + carry * (limb_base() * p),
{
    assert((lo + carry * limb_base()) * p == lo * p + carry * (limb_base() * p)) by (nonlinear_arith);
}

/// A natural number of any size.
#[derive(Debug)]
pub struct BigNat {
    limbs: Vec<u32>,
}

impl View for BigNat {
    type V = nat;

    closed spec fn view(&self) -> nat {
        value(self.limbs@)
    }
}

impl BigNat {
    /// Zero.
    pub fn zero() -> (r: Self)
        ensures
            r@ == 0,
    {
        BigNat { limbs: Vec::new() }
    }

    /// The number `x`.
    pub fn from_u64(x: u64) -> (r: Self)
        ensures
            r@ == x,
    {
        let lo: u32 = (x % 4294967296) as u32;
        let hi: u32 = (x / 4294967296) as u32;
        let mut limbs: Vec<u32> = Vec::new();
        limbs.push(lo);
        limbs.push(hi);
        proof {
            let e: Seq<u32> = Seq::empty();
            lemma_val_push(e, lo);
            assert(e.push(lo) =~= seq![lo]);
            lemma_val_push(seq![lo], hi);
            assert(seq![lo].push(hi) =~= limbs@);
            assert(place(0) == 1);
            assert(place(1) == limb_base() * place(0));
            assert(value(e) == 0);
            assert(e.len() == 0);
            assert(value(e.push(lo)) == lo * place(0));
            let p0 = place(0);
            assert(p0 == 1);
            assert(lo * p0 == lo) by (nonlinear_arith) requires p0 == 1;
            assert(value(seq![lo]) == lo);
            assert(value(limbs@) == lo + hi * limb_base());
            assert(x == lo + hi * limb_base());
        }
        BigNat { limbs }
    }

    /// The number that `limbs` stand for, least significant limb first.
    pub fn from_limbs(limbs: Vec<u32>) -> (r: Self)
        ensures
            r@ == value(limbs@),
    {
        BigNat { limbs }
    }

    /// Limbs that stand for this number, least significant first.
    pub fn to_limbs(&self) -> (r: Vec<u32>)
        ensures
            value(r@) == self@,
    {
        let mut r: Vec<u32> = Vec::new();
        let mut i: usize = 0;
        while i < self.limbs.len()
            invariant
                0 <= i <= self.limbs@.len(),
                r@ == self.limbs@.take(i as int),
            decreases self.limbs@.len() - i,
        {
            r.push(self.limbs[i]);
            assert(r@ =~= self.limbs@.take(i + 1));
            i = i + 1;
        }
        assert(r@ =~= self.limbs@);
        r
    }

    /// The same number.
    pub fn copy(&self) -> (r: Self)
        ensures
            r@ == self@,
    {
        BigNat { limbs: self.to_limbs() }
    }

    /// `self + other`.
    pub fn add(&self, other: &BigNat) -> (r: Self)
        ensures
            r@ == self@ + other@,
    {
        let a = &self.limbs;
        let b = &other.limbs;
        let n: usize = if a.len() >= b.len() { a.len() } else { b.len() };
        let mut r: Vec<u32> = Vec::new();
        let mut carry: u64 = 0;
        let mut i: usize = 0;
        while i < n
            invariant
                0 <= i <= n,
                n >= a@.len(),
                n >= b@.len(),
                r@.len() == i,
                carry <= 1,
                value(r@) + carry * place(i as nat) == val(a@, i as nat) + val(b@, i as nat),
            decreases n - i,
        {
            let x: u64 = if i < a.len() { a[i] as u64 } else { 0 };
            let y: u64 = if i < b.len() { b[i] as u64 } else { 0 };
            assert(x == limb(a@, i as int) && y == limb(b@, i as int));
            let s: u64 = x + y + carry;
            let lo: u32 = (s % 4294967296) as u32;
            let c2: u64 = s / 4294967296;
            proof {
                lemma_val_push(r@, lo);
                lemma_carry(lo as int, c2 as int, place(i as nat));
                assert(lo + c2 * limb_base() == s);
                assert(place((i + 1) as nat) == limb_base() * place(i as nat));
                assert((x + y + carry) * place(i as nat) == x * place(i as nat) + y * place(i as nat) + carry * place(i as nat))
                    by (nonlinear_arith);
            }
            r.push(lo);
            carry = c2;
            i = i + 1;
        }
        proof {
            lemma_val_push(r@, carry as u32);
            lemma_val_ext(a@, n as nat);
            lemma_val_ext(b@, n as nat);
        }
        r.push(carry as u32);
        BigNat { limbs: r }
    }

    /// `self - other` and whether it is negative; where it is not, the difference.
    fn sub_with_borrow(&self, other: &BigNat) -> (r: (Self, bool))
        ensures
            r.1 <==> self@ < other@,
            !r.1 ==> r.0@ == self@ - other@,
    {
        let a = &self.limbs;
        let b = &other.limbs;
        let n: usize = if a.len() >= b.len() { a.len() } else { b.len() };
        let mut r: Vec<u32> = Vec::new();
        let mut borrow: u64 = 0;
        let mut i: usize = 0;
        while i < n
            invariant
                0 <= i <= n,
                n >= a@.len(),
                n >= b@.len(),
                r@.len() == i,
                borrow <= 1,
                value(r@) == val(a@, i as nat) - val(b@, i as nat) + borrow * place(i as nat),
            decreases n - i,
        {
            let x: u64 = if i < a.len() { a[i] as u64 } else { 0 };
            let y: u64 = if i < b.len() { b[i] as u64 } else { 0 };
            assert(x == limb(a@, i as int) && y == limb(b@, i as int));
            let lo: u32;
            let b2: u64;
            if x >= y + borrow {
                lo = (x - y - borrow) as u32;
                b2 = 0;
            } else {
                lo = (x + 4294967296 - y - borrow) as u32;
                b2 = 1;
            }
            proof {
                assert(lo == x - y - borrow + b2 * limb_base());
                lemma_val_push(r@, lo);
                lemma_carry(x - y - borrow, b2 as int, place(i as nat));
                assert(place((i + 1) as nat) == limb_base() * place(i as nat));
                assert((x - y - borrow) * place(i as nat) == x * place(i as nat) - y * place(i as nat) - borrow * place(i as nat))
                    by (nonlinear_arith);
            }
            r.push(lo);
            borrow = b2;
            i = i + 1;
        }
        proof {
            lemma_val_ext(a@, n as nat);
            lemma_val_ext(b@, n as nat);
            lemma_val_bound(r@, n as nat);
        }
        (BigNat { limbs: r }, borrow == 1)
    }

    /// `self - other`, where `other` is not larger.
    pub fn sub(&self, other: &BigNat) -> (r: Self)
        requires
            other@ <= self@,
        ensures
            r@ == self@ - other@,
    {
        self.sub_with_borrow(other).0
    }

    /// Whether `self <= other`.
    pub fn le(&self, other: &BigNat) -> (r: bool)
        ensures
            r == (self@ <= other@),
    {
        !other.sub_with_borrow(self).1
    }

    /// Whether `self < other`.
    pub fn lt(&self, other: &BigNat) -> (r: bool)
        ensures
            r == (self@ < other@),
    {
        !other.le(self)
    }

    /// Whether the two numbers are equal.
    pub fn eq_value(&self, other: &BigNat) -> (r: bool)
        ensures
            r == (self@ == other@),
    {
        self.le(other) && other.le(self)
    }

    /// Whether this number is zero.
    pub fn is_zero(&self) -> (r: bool)
        ensures
            r == (self@ == 0),
    {
        self.le(&BigNat::zero())
    }

    /// `self * d` for one limb `d`.
    fn mul_limb(&self, d: u32) -> (r: Self)
        ensures
            r@ == self@ * d,
    {
        let a = &self.limbs;
        let mut r: Vec<u32> = Vec::new();
        let mut carry: u64 = 0;
        let mut i: usize = 0;
        proof {
            let v0 = val(a@, 0);
            assert(v0 == 0);
            assert(v0 * d == 0) by (nonlinear_arith) requires v0 == 0;
            assert(value(r@) == 0);
            assert(carry * place(0) == 0);
        }
        while i < a.len()
            invariant
                0 <= i <= a@.len(),
                r@.len() == i,
                carry < limb_base(),
                value(r@) + carry * place(i as nat) == val(a@, i as nat) * d,
            decreases a@.len() - i,
        {
            let x: u64 = a[i] as u64;
            assert(x * (d as u64) <= 4294967295u64 * 4294967295u64) by (nonlinear_arith)
                requires x <= 4294967295u64, d <= 4294967295u32;
            let t: u64 = x * (d as u64) + carry;
            let lo: u32 = (t % 4294967296) as u32;
            let c2: u64 = t / 4294967296;
            proof {
                assert(x == limb(a@, i as int));
                lemma_val_push(r@, lo);
                lemma_carry(lo as int, c2 as int, place(i as nat));
                assert(lo + c2 * limb_base() == t);
                assert(place((i + 1) as nat) == limb_base() * place(i as nat));
                assert((x * d + carry) * place(i as nat) == x * place(i as nat) * d + carry * place(i as nat))
                    by (nonlinear_arith);
                assert((val(a@, i as nat) + x * place(i as nat)) * d == val(a@, i as nat) * d + x * place(i as nat) * d)
                    by (nonlinear_arith);
            }
            r.push(lo);
            carry = c2;
            i = i + 1;
        }
        proof {
            lemma_val_push(r@, carry as u32);
        }
        r.push(carry as u32);
        BigNat { limbs: r }
    }

    /// `self * place(j)`: the limbs moved up by `j` places.
    fn shift(&self, j: usize) -> (r: Self)
        ensures
            r@ == self@ * place(j as nat),
    {
        let mut r: Vec<u32> = Vec::new();
        let mut k: usize = 0;
        while k < j
            invariant
                0 <= k <= j,
                r@.len() == k,
                value(r@) == 0,
            decreases j - k,
        {
            proof {
                lemma_val_push(r@, 0u32);
            }
            r.push(0);
            k = k + 1;
        }
        let a = &self.limbs;
        let mut i: usize = 0;
        proof {
            let v0 = val(a@, 0);
            let pj = place(j as nat);
            assert(v0 == 0);
            assert(v0 * pj == 0) by (nonlinear_arith) requires v0 == 0;
        }
        while i < a.len()
            invariant
                0 <= i <= a@.len(),
                r@.len() == j + i,
                value(r@) == val(a@, i as nat) * place(j as nat),
            decreases a@.len() - i,
        {
            let x: u32 = a[i];
            proof {
                assert(x == limb(a@, i as int));
                lemma_val_push(r@, x);
                lemma_place_add(j as nat, i as nat);
                assert((val(a@, i as nat) + x * place(i as nat)) * place(j as nat)
                    == val(a@, i as nat) * place(j as nat) + x * (place(j as nat) * place(i as nat))) by (nonlinear_arith);
            }
            r.push(x);
            i = i + 1;
        }
        BigNat { limbs: r }
    }

    /// `self * other`.
    pub fn mul(&self, other: &BigNat) -> (r: Self)
        ensures
            r@ == self@ * other@,
    {
        let b = &other.limbs;
        let mut acc = BigNat::zero();
        let mut j: usize = 0;
        proof {
            let v0 = val(b@, 0);
            let x = self@;
            assert(v0 == 0);
            assert(x * v0 == 0) by (nonlinear_arith) requires v0 == 0;
        }
        while j < b.len()
            invariant
                0 <= j <= b@.len(),
                acc@ == self@ * val(b@, j as nat),
            decreases b@.len() - j,
        {
            let d: u32 = b[j];
            let p = self.mul_limb(d).shift(j);
            proof {
                assert(d == limb(b@, j as int));
                assert(self@ * (val(b@, j as nat) + d * place(j as nat))
                    == self@ * val(b@, j as nat) + self@ * d * place(j as nat)) by (nonlinear_arith);
            }
            acc = acc.add(&p);
            j = j + 1;
        }
        acc
    }
}

} // verus!
