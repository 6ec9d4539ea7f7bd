//! Natural numbers of any size, as little-endian base-2³² limbs, with the
//! multiply-add that continued fractions need.
use vstd::prelude::*;
use vstd::arithmetic::power2::{pow2, lemma_pow2_adds, lemma2_to64};

verus! {

/// The base of one limb, `2³²`.
pub open spec fn limb_base() -> nat {
    0x1_0000_0000
}

/// `2³²ᵉ`, the weight of limb `e`.
pub open spec fn limb_weight(e: nat) -> nat
    decreases e,
{
    if e == 0 {
        1
    } else {
        limb_base() * limb_weight((e - 1) as nat)
    }
}

/// The number that little-endian limbs stand for.
pub open spec fn limbs_value(s: Seq<u32>) -> nat
    decreases s.len(),
{
    if s.len() == 0 {
        0
    } else {
        s[0] as nat + limb_base() * limbs_value(s.drop_first())
    }
}

/// A natural number; trailing zero limbs are allowed and change nothing.
pub struct Natural {
    pub limbs: Vec<u32>,
}

/// No zero limb stands at the top of `n`.
pub open spec fn is_trimmed(n: Natural) -> bool {
    n.limbs.len() == 0 || n.limbs@.last() != 0
}

impl View for Natural {
    type V = nat;

    open spec fn view(&self) -> nat {
        limbs_value(self.limbs@)
    }
}

proof fn lemma_weight_positive(e: nat)
    ensures
        limb_weight(e) >= 1,
    decreases e,
{
    if e > 0 {
        lemma_weight_positive((e - 1) as nat);
    }
}

/// Appending a limb adds it at the next weight.
pub proof fn lemma_value_push(s: Seq<u32>, d: u32)
    ensures
        limbs_value(s.push(d)) == limbs_value(s) + d as nat * limb_weight(s.len()),
    decreases s.len(),
{
    if s.len() == 0 {
        assert(s.push(d).drop_first() =~= Seq::<u32>::empty());
        assert(limbs_value(s.push(d).drop_first()) == 0);
        assert(limbs_value(s.push(d)) == d as nat);
        assert(limbs_value(s) == 0);
        assert(limb_weight(0) == 1);
        assert(d as nat * 1 == d as nat);
    } else {
        let t = s.drop_first();
        assert(s.push(d).drop_first() =~= t.push(d));
        assert(s.push(d)[0] == s[0]);
        lemma_value_push(t, d);
        let w = limb_weight(t.len());
        assert(limb_weight(s.len()) == limb_base() * w);
        assert(limb_base() * (limbs_value(t) + d as nat * w) == limb_base() * limbs_value(t) + d as nat * (
        limb_base() * w)) by (nonlinear_arith);
        assert(limbs_value(s.push(d)) == s[0] as nat + limb_base() * limbs_value(t.push(d)));
        assert(limbs_value(s) == s[0] as nat + limb_base() * limbs_value(t));
    }
}

/// Prepending `k` zero limbs multiplies by `2³²ᵏ`.
proof fn lemma_value_shift(s: Seq<u32>, k: nat)
    ensures
        limbs_value(Seq::new(k, |i: int| 0u32) + s) == limb_weight(k) * limbs_value(s),
    decreases k,
{
    let z = Seq::new(k, |i: int| 0u32);
    if k == 0 {
        assert(z + s =~= s);
        assert(limb_weight(k) * limbs_value(s) == limbs_value(s)) by (nonlinear_arith)
            requires
                limb_weight(k) == 1,
        ;
    } else {
        let z1 = Seq::new((k - 1) as nat, |i: int| 0u32);
        lemma_value_shift(s, (k - 1) as nat);
        assert((z + s).drop_first() =~= z1 + s);
        assert((z + s)[0] == 0u32);
        let v = limbs_value(s);
        let w = limb_weight((k - 1) as nat);
        assert(limb_base() * (w * v) == (limb_base() * w) * v) by (nonlinear_arith);
    }
}

/// `s` up to limb `i` (all of `s` once `i` passes its end).
pub open spec fn limbs_prefix(s: Seq<u32>, i: int) -> Seq<u32> {
    if i <= s.len() {
        s.take(i)
    } else {
        s
    }
}

proof fn lemma_prefix_step(s: Seq<u32>, i: int)
    requires
        0 <= i,
    ensures
        limbs_value(limbs_prefix(s, i + 1)) == limbs_value(limbs_prefix(s, i)) + (if i < s.len() {
            s[i] as nat
        } else {
            0
        }) * limb_weight(i as nat),
{
    if i < s.len() {
        assert(s.take(i + 1) =~= s.take(i).push(s[i]));
        lemma_value_push(s.take(i), s[i]);
    } else {
        if i == s.len() {
            assert(s.take(i) =~= s);
        }
        assert(limbs_prefix(s, i + 1) == limbs_prefix(s, i));
    }
}

proof fn lemma_carry_step(p: int, lo: int, hi: int, total: int)
    by (nonlinear_arith)
    requires
        lo + 0x1_0000_0000 * hi == total,
    ensures
        lo * p + hi * (0x1_0000_0000 * p) == total * p,
{
}

impl Natural {
    /// The number `x`.
    pub fn from_u64(x: u64) -> (r: Natural)
        ensures
            r@ == x,
    {
        let mut limbs: Vec<u32> = Vec::new();
        let lo = (x % 0x1_0000_0000) as u32;
        let hi = (x / 0x1_0000_0000) as u32;
        limbs.push(lo);
        limbs.push(hi);
        proof {
            let s = limbs@;
            assert(s.drop_first().drop_first() =~= Seq::<u32>::empty());
            assert(limbs_value(s.drop_first().drop_first()) == 0);
            assert(limbs_value(s.drop_first()) == hi as nat);
        }
        Natural { limbs }
    }

    /// A copy of this number.
    pub fn duplicate(&self) -> (r: Natural)
        ensures
            r.limbs@ == self.limbs@,
            r@ == self@,
    {
        let mut limbs: Vec<u32> = Vec::new();
        for i in 0..self.limbs.len()
            invariant
                limbs@ == self.limbs@.take(i as int),
        {
            limbs.push(self.limbs[i]);
            proof {
                assert(self.limbs@.take(i + 1) =~= self.limbs@.take(i as int).push(self.limbs@[i as int]));
            }
        }
        proof {
            assert(self.limbs@.take(self.limbs.len() as int) =~= self.limbs@);
        }
        Natural { limbs }
    }

    /// Whether this number is zero.
    pub fn is_zero(&self) -> (r: bool)
        ensures
            r == (self@ == 0),
    {
        let n = self.limbs.len();
        for i in 0..n
            invariant
                n == self.limbs.len(),
                limbs_value(self.limbs@.take(i as int)) == 0,
        {
            if self.limbs[i] != 0 {
                proof {
                    lemma_value_split(self.limbs@, i as int);
                }
                return false;
            }
            proof {
                assert(self.limbs@.take(i + 1) =~= self.limbs@.take(i as int).push(0u32));
                lemma_value_push(self.limbs@.take(i as int), 0u32);
            }
        }
        proof {
            assert(self.limbs@.take(n as int) =~= self.limbs@);
        }
        true
    }

    /// `self + other`.
    pub fn add(&self, other: &Natural) -> (r: Natural)
        ensures
            r@ == self@ + other@,
    {
        let x = &self.limbs;
        let y = &other.limbs;
        let n = if x.len() >= y.len() {
            x.len()
        } else {
            y.len()
        };
        let mut out: Vec<u32> = Vec::new();
        let mut carry: u64 = 0;
        for i in 0..n
            invariant
                n >= x.len(),
                n >= y.len(),
                out.len() == i,
                carry <= 1,
                limbs_value(out@) + carry * limb_weight(i as nat) == limbs_value(limbs_prefix(x@, i as int))
                    + limbs_value(limbs_prefix(y@, i as int)),
        {
            let dx: u64 = if i < x.len() {
                x[i] as u64
            } else {
                0
            };
            let dy: u64 = if i < y.len() {
                y[i] as u64
            } else {
                0
            };
            let total = dx + dy + carry;
            let lo = total % 0x1_0000_0000;
            let hi = total / 0x1_0000_0000;
            proof {
                lemma_prefix_step(x@, i as int);
                lemma_prefix_step(y@, i as int);
                lemma_value_push(out@, lo as u32);
                let p = limb_weight(i as nat);
                assert(limb_weight((i + 1) as nat) == limb_base() * p);
                lemma_carry_step(p as int, lo as int, hi as int, total as int);
                assert(total * p == dx * p + dy * p + carry * p) by (nonlinear_arith)
                    requires
                        total == dx + dy + carry,
                ;
            }
            out.push(lo as u32);
            carry = hi;
        }
        proof {
            assert(limbs_prefix(x@, n as int) == x@);
            assert(limbs_prefix(y@, n as int) == y@);
            lemma_value_push(out@, carry as u32);
        }
        out.push(carry as u32);
        Natural { limbs: out }
    }

    /// `self · x` for one limb `x`.
    pub fn mul_limb(&self, x: u32) -> (r: Natural)
        ensures
            r@ == self@ * x,
    {
        let b = &self.limbs;
        let n = b.len();
        let mut out: Vec<u32> = Vec::new();
        let mut carry: u64 = 0;
        proof {
            assert(b@.take(0) =~= Seq::<u32>::empty());
            assert(limbs_value(b@.take(0)) == 0);
            assert(0 * x == 0) by (nonlinear_arith);
        }
        for i in 0..n
            invariant
                n == b.len(),
                out.len() == i,
                carry < 0x1_0000_0000,
                limbs_value(out@) + carry * limb_weight(i as nat) == limbs_value(b@.take(i as int)) * x,
        {
            let d = b[i];
            assert((d as u64) * (x as u64) <= 0xffff_fffe_0000_0001u64) by (nonlinear_arith)
                requires
                    d <= 0xffff_ffffu32,
                    x <= 0xffff_ffffu32,
            ;
            let total = (d as u64) * (x as u64) + carry;
            let lo = total % 0x1_0000_0000;
            let hi = total / 0x1_0000_0000;
            proof {
                assert(b@.take(i + 1) =~= b@.take(i as int).push(d));
                lemma_value_push(b@.take(i as int), d);
                lemma_value_push(out@, lo as u32);
                let p = limb_weight(i as nat);
                assert(limb_weight((i + 1) as nat) == limb_base() * p);
                lemma_carry_step(p as int, lo as int, hi as int, total as int);
                let v = limbs_value(b@.take(i as int));
                assert(total * p == carry * p + (v + d * p) * x - v * x) by (nonlinear_arith)
                    requires
                        total == d * x + carry,
                ;
            }
            out.push(lo as u32);
            carry = hi;
        }
        proof {
            assert(b@.take(n as int) =~= b@);
            lemma_value_push(out@, carry as u32);
        }
        out.push(carry as u32);
        Natural { limbs: out }
    }

    /// `self · 2³²ᵏ`.
    pub fn shifted(&self, k: usize) -> (r: Natural)
        ensures
            r@ == limb_weight(k as nat) * self@,
    {
        let mut out: Vec<u32> = Vec::new();
        for i in 0..k
            invariant
                out@ == Seq::new(i as nat, |j: int| 0u32),
        {
            out.push(0);
            proof {
                assert(out@ =~= Seq::new((i + 1) as nat, |j: int| 0u32));
            }
        }
        let ghost zeros = out@;
        let n = self.limbs.len();
        for i in 0..n
            invariant
                n == self.limbs.len(),
                zeros == Seq::new(k as nat, |j: int| 0u32),
                out@ == zeros + self.limbs@.take(i as int),
        {
            out.push(self.limbs[i]);
            proof {
                assert(zeros + self.limbs@.take(i + 1) =~= (zeros + self.limbs@.take(i as int)).push(
                    self.limbs@[i as int],
                ));
            }
        }
        proof {
            assert(self.limbs@.take(n as int) =~= self.limbs@);
            lemma_value_shift(self.limbs@, k as nat);
        }
        Natural { limbs: out }
    }

    /// The same number without zero limbs at the top.
    pub fn trimmed(self) -> (r: Natural)
        ensures
            r@ == self@,
            is_trimmed(r),
    {
        let mut limbs = self.limbs;
        while limbs.len() > 0 && limbs[limbs.len() - 1] == 0
            invariant
                limbs_value(limbs@) == self@,
            decreases limbs.len(),
        {
            proof {
                let s = limbs@;
                assert(s =~= s.drop_last().push(0u32));
                lemma_value_push(s.drop_last(), 0u32);
            }
            limbs.pop();
        }
        Natural { limbs }
    }

    /// `a · b + c`, without zero limbs at the top.
    pub fn mul_add(a: &Natural, b: &Natural, c: &Natural) -> (r: Natural)
        ensures
            r@ == a@ * b@ + c@,
            is_trimmed(r),
    {
        let n = a.limbs.len();
        let mut acc = c.duplicate();
        proof {
            assert(a.limbs@.take(0) =~= Seq::<u32>::empty());
            assert(limbs_value(a.limbs@.take(0)) == 0);
            assert(b@ * 0 == 0) by (nonlinear_arith);
        }
        for i in 0..n
            invariant
                n == a.limbs.len(),
                acc@ == c@ + b@ * limbs_value(a.limbs@.take(i as int)),
        {
            let term = b.mul_limb(a.limbs[i]).shifted(i);
            proof {
                let d = a.limbs@[i as int];
                assert(a.limbs@.take(i + 1) =~= a.limbs@.take(i as int).push(d));
                lemma_value_push(a.limbs@.take(i as int), d);
                let w = limb_weight(i as nat);
                let v = limbs_value(a.limbs@.take(i as int));
                let bv = b@;
                assert(w * (bv * d) == bv * (v + d * w) - bv * v) by (nonlinear_arith);
            }
            acc = acc.add(&term);
        }
        proof {
            assert(a.limbs@.take(n as int) =~= a.limbs@);
            assert(b@ * a@ == a@ * b@) by (nonlinear_arith);
        }
        acc.trimmed()
    }
}

/// The value of `s` is at least the value of any limb times its weight, so a
/// nonzero limb makes it nonzero.
proof fn lemma_value_split(s: Seq<u32>, i: int)
    requires
        0 <= i < s.len(),
        s[i] != 0,
    ensures
        limbs_value(s) > 0,
    decreases i,
{
    if i > 0 {
        lemma_value_split(s.drop_first(), i - 1);
    }
}


/// Limb `e` weighs `2^(32·e)`.
pub proof fn lemma_limb_weight(e: nat)
    ensures
        limb_weight(e) == pow2(32 * e),
    decreases e,
{
    lemma2_to64();
    if e > 0 {
        lemma_limb_weight((e - 1) as nat);
        lemma_pow2_adds(32 * (e - 1) as nat, 32);
        assert(32 * e == 32 * (e - 1) as nat + 32);
    }
}

/// The limbs are read little-endian in base `2³²`: no limbs stand for `0`,
/// and one more limb `d` on top adds `d·2^(32·len)`.
pub proof fn lemma_limbs_positional(s: Seq<u32>, d: u32)
    ensures
        limbs_value(Seq::<u32>::empty()) == 0,
        limbs_value(s.push(d)) == limbs_value(s) + d as nat * pow2(32 * s.len()),
{
    lemma_value_push(s, d);
    lemma_limb_weight(s.len());
}

} // verus!
