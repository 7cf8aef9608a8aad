//! The Goldilocks prime field, p = 2^64 - 2^32 + 1, with elements held in
//! canonical form (a `u64` below p).
use vstd::prelude::*;
use vstd::arithmetic::div_mod::{lemma_add_mod_noop, lemma_mul_mod_noop_general};
use vstd::arithmetic::mul::lemma_mul_is_associative;

verus! {

/// The field's modulus.
pub const MODULUS: u64 = 18446744069414584321;

pub open spec fn p() -> int {
    MODULUS as int
}

/// Field addition on canonical representatives.
pub open spec fn fadd(a: int, b: int) -> int {
    (a + b) % p()
}

/// Field subtraction on canonical representatives.
pub open spec fn fsub(a: int, b: int) -> int {
    (a - b) % p()
}

/// Field multiplication on canonical representatives.
pub open spec fn fmul(a: int, b: int) -> int {
    (a * b) % p()
}

/// `a` raised to `e`, by repeated squaring of the base.
pub open spec fn fpow(a: int, e: nat) -> int
    decreases e,
{
    if e == 0 {
        1
    } else if e % 2 == 0 {
        fpow(fmul(a, a), e / 2)
    } else {
        fmul(a, fpow(fmul(a, a), e / 2))
    }
}

/// The multiplicative inverse by Fermat's little theorem: a^(p-2).
pub open spec fn finv(a: int) -> int {
    fpow(a, (p() - 2) as nat)
}

/// An element of the field, in canonical form.
#[derive(Clone, Copy, Debug, PartialEq, Eq)]
pub struct Fe {
    pub v: u64,
}

impl Fe {
    /// The canonical representative held.
    pub open spec fn val(self) -> int {
        self.v as int
    }

    pub open spec fn wf(self) -> bool {
        self.v < MODULUS
    }

    pub fn zero() -> (r: Fe)
        ensures
            r.wf(),
            r.val() == 0,
    {
        Fe { v: 0 }
    }

    pub fn one() -> (r: Fe)
        ensures
            r.wf(),
            r.val() == 1,
    {
        Fe { v: 1 }
    }

    /// The element `x mod p`.
    pub fn from_u64(x: u64) -> (r: Fe)
        ensures
            r.wf(),
            r.val() == x as int % p(),
            x < MODULUS ==> r.val() == x,
    {
        proof {
            if x < MODULUS {
                vstd::arithmetic::div_mod::lemma_small_mod(x as nat, p() as nat);
            }
        }
        Fe { v: x % MODULUS }
    }

    /// The element `x mod p` for a small index (a probe point of a round).
    pub fn from_usize(x: usize) -> (r: Fe)
        ensures
            r.wf(),
            r.val() == x as int % p(),
            x < MODULUS ==> r.val() == x,
    {
        Fe::from_u64(x as u64)
    }

    pub fn add(self, o: Fe) -> (r: Fe)
        requires
            self.wf(),
            o.wf(),
        ensures
            r.wf(),
            r.val() == fadd(self.val(), o.val()),
    {
        let s: u128 = (self.v as u128 + o.v as u128) % (MODULUS as u128);
        Fe { v: s as u64 }
    }

    pub fn sub(self, o: Fe) -> (r: Fe)
        requires
            self.wf(),
            o.wf(),
        ensures
            r.wf(),
            r.val() == fsub(self.val(), o.val()),
    {
        let s: u128 = (self.v as u128 + MODULUS as u128 - o.v as u128) % (MODULUS as u128);
        proof {
            let a = self.val();
            let b = o.val();
            assert((a + p() - b) % p() == (a - b) % p()) by {
                vstd::arithmetic::div_mod::lemma_mod_add_multiples_vanish(a - b, p());
            }
        }
        Fe { v: s as u64 }
    }

    pub fn mul(self, o: Fe) -> (r: Fe)
        requires
            self.wf(),
            o.wf(),
        ensures
            r.wf(),
            r.val() == fmul(self.val(), o.val()),
    {
        let a: u128 = self.v as u128;
        let b: u128 = o.v as u128;
        assert(a * b <= 0xffff_ffff_ffff_ffffu128 * 0xffff_ffff_ffff_ffffu128) by (nonlinear_arith)
            requires
                a <= 0xffff_ffff_ffff_ffffu128,
                b <= 0xffff_ffff_ffff_ffffu128,
        ;
        let s: u128 = (a * b) % (MODULUS as u128);
        Fe { v: s as u64 }
    }

    /// `self` raised to `e`.
    pub fn pow(self, e: u64) -> (r: Fe)
        requires
            self.wf(),
        ensures
            r.wf(),
            r.val() == fpow(self.val(), e as nat),
    {
        let mut acc = Fe::one();
        let mut base = self;
        proof {
            lemma_fpow_range(self.val(), e as nat);
        }
        let mut k: u64 = e;
        while k > 0
            invariant
                acc.wf(),
                base.wf(),
                fmul(acc.val(), fpow(base.val(), k as nat)) == fpow(self.val(), e as nat),
            decreases k,
        {
            let ghost old_acc = acc.val();
            let ghost b = base.val();
            let ghost rest = fpow(fmul(b, b), (k / 2) as nat);
            if k % 2 == 1 {
                acc = acc.mul(base);
                proof {
                    lemma_fmul_assoc(old_acc, b, rest);
                }
            }
            base = base.mul(base);
            k = k / 2;
        }
        proof {
            lemma_fmul_one(acc.val());
        }
        acc
    }

    /// The multiplicative inverse (zero goes to zero).
    pub fn inv(self) -> (r: Fe)
        requires
            self.wf(),
        ensures
            r.wf(),
            r.val() == finv(self.val()),
    {
        self.pow(MODULUS - 2)
    }

    /// The eight-byte little-endian encoding of the canonical value.
    pub fn to_bytes_le(self) -> (r: Vec<u8>)
        ensures
            r@ == fe_bytes(self.val()),
    {
        let mut out: Vec<u8> = Vec::new();
        let mut x: u64 = self.v;
        let mut i: usize = 0;
        while i < 8
            invariant
                i <= 8,
                out@.len() == i,
                pow256(i as nat) > 0,
                x as int == self.v as int / pow256(i as nat),
                forall|j: int| 0 <= j < i ==> #[trigger] out@[j] == fe_bytes(self.val())[j],
            decreases 8 - i,
        {
            let b: u8 = (x % 256) as u8;
            proof {
                vstd::arithmetic::div_mod::lemma_div_denominator(self.v as int, pow256(i as nat), 256);
                assert(pow256(i as nat) * 256 == pow256((i + 1) as nat));
            }
            out.push(b);
            x = x / 256;
            i = i + 1;
        }
        assert(out@ =~= fe_bytes(self.val()));
        out
    }

    /// Decodes bytes as a little-endian integer reduced modulo p (a wide
    /// reduction: with sixteen bytes the bias is below 2^-63).
    pub fn from_bytes_le_wide(b: &Vec<u8>) -> (r: Fe)
        ensures
            r.wf(),
            r.val() == le_value(b@) % p(),
    {
        let mut acc = Fe::zero();
        let mut i: usize = b.len();
        let radix = Fe::from_u64(256);
        proof {
            vstd::arithmetic::div_mod::lemma_small_mod(256, p() as nat);
        }
        while i > 0
            invariant
                i <= b@.len(),
                acc.wf(),
                radix.val() == 256,
                acc.val() == le_value(b@.subrange(i as int, b@.len() as int)) % p(),
            decreases i,
        {
            let ghost tail = b@.subrange(i as int, b@.len() as int);
            let d = Fe::from_u64(b[i - 1] as u64);
            acc = acc.mul(radix).add(d);
            proof {
                let s = b@.subrange(i - 1, b@.len() as int);
                assert(s.drop_first() =~= tail);
                let t = le_value(tail);
                lemma_mul_mod_noop_general(t, 256, p());
                lemma_add_mod_noop(256 * t, b[i - 1] as int, p());
                assert((b[i - 1] as int) % p() == b[i - 1] as int);
                assert(((t % p()) * 256) % p() == (256 * t) % p());
                assert((((t % p()) * 256) % p()) % p() == ((t % p()) * 256) % p()) by {
                    vstd::arithmetic::div_mod::lemma_mod_twice((t % p()) * 256, p());
                }
            }
            i = i - 1;
        }
        assert(b@.subrange(0, b@.len() as int) =~= b@);
        acc
    }
}

/// 256^i.
pub open spec fn pow256(i: nat) -> int
    decreases i,
{
    if i == 0 {
        1
    } else {
        256 * pow256((i - 1) as nat)
    }
}

/// The eight little-endian bytes of `v`.
pub open spec fn fe_bytes(v: int) -> Seq<u8> {
    Seq::new(8, |i: int| ((v / pow256(i as nat)) % 256) as u8)
}

/// The integer that bytes spell in little-endian order.
pub open spec fn le_value(s: Seq<u8>) -> int
    decreases s.len(),
{
    if s.len() == 0 {
        0
    } else {
        s[0] as int + 256 * le_value(s.drop_first())
    }
}

pub proof fn lemma_fpow_range(a: int, e: nat)
    ensures
        0 <= fpow(a, e) < p(),
    decreases e,
{
    if e != 0 {
        lemma_fpow_range(fmul(a, a), e / 2);
    }
}

pub proof fn lemma_fmul_one(a: int)
    ensures
        0 <= a < p() ==> fmul(a, 1) == a,
        0 <= a < p() ==> fmul(1, a) == a,
{
}

pub proof fn lemma_fmul_assoc(a: int, b: int, c: int)
    ensures
        fmul(a, fmul(b, c)) == fmul(fmul(a, b), c),
{
    lemma_mul_mod_noop_general(a, b * c, p());
    lemma_mul_mod_noop_general(a * b, c, p());
    lemma_mul_is_associative(a, b, c);
}

} // verus!
