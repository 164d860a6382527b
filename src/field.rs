//! Elements of the scalar field of the BN254 curve, held as four 64-bit limbs.
use ark_bn254::Fr;
use ark_ff::{BigInt, Field, PrimeField};
use vstd::prelude::*;

verus! {

/// The size of one limb: 2^64.
pub open spec fn limb_base() -> int {
    18446744073709551616
}

/// The field's modulus, the prime order of the BN254 scalar field.
pub open spec fn modulus() -> int {
    0x43e1f593f0000001int + limb_base() * (0x2833e84879b97091int + limb_base() * (
    0xb85045b68181585dint + limb_base() * 0x30644e72e131a029int))
}

/// A field element: the integer `w0 + w1 * 2^64 + w2 * 2^128 + w3 * 2^192`,
/// which is below the modulus when the element is well formed.
#[derive(Clone, Copy, Debug, PartialEq, Eq, Structural, Hash)]
pub struct Fe {
    pub w0: u64,
    pub w1: u64,
    pub w2: u64,
    pub w3: u64,
}

impl Fe {
    pub open spec fn val(self) -> int {
        self.w0 + limb_base() * (self.w1 + limb_base() * (self.w2 + limb_base() * self.w3))
    }

    pub open spec fn wf(self) -> bool {
        self.val() < modulus()
    }

    /// The additive identity.
    pub fn zero() -> (r: Fe)
        ensures
            r.wf(),
            r.val() == 0,
    {
        Fe { w0: 0, w1: 0, w2: 0, w3: 0 }
    }

    /// The multiplicative identity.
    pub fn one() -> (r: Fe)
        ensures
            r.wf(),
            r.val() == 1,
    {
        Fe { w0: 1, w1: 0, w2: 0, w3: 0 }
    }

    /// The element that a machine integer stands for.
    pub fn from_u64(v: u64) -> (r: Fe)
        ensures
            r.wf(),
            r.val() == v,
    {
        Fe { w0: v, w1: 0, w2: 0, w3: 0 }
    }

    /// The element that a signed machine integer stands for, taken modulo the field's order.
    pub fn from_i64(v: i64) -> (r: Fe)
        ensures
            r.wf(),
            r.val() == (v as int) % modulus(),
    {
        assert(modulus() > limb_base());
        if v >= 0 {
            proof { vstd::arithmetic::div_mod::lemma_small_mod(v as nat, modulus() as nat); }
            Fe::from_u64(v as u64)
        } else {
            let m: u64 = if v == i64::MIN { 0x8000_0000_0000_0000u64 } else { (-v) as u64 };
            let a = Fe::from_u64(m);
            let z = Fe::zero();
            assert(0 - m == v);
            fe_sub(&z, &a)
        }
    }

    /// Whether this is the additive identity.
    pub fn is_zero(&self) -> (r: bool)
        requires
            self.wf(),
        ensures
            r == (self.val() == 0),
    {
        proof { lemma_val_zero(*self); }
        self.w0 == 0 && self.w1 == 0 && self.w2 == 0 && self.w3 == 0
    }
}

/// The value of an element is not negative.
pub proof fn lemma_val_nonneg(a: Fe)
    ensures
        0 <= a.val(),
{
    let x = limb_base();
    let (w0, w1, w2, w3) = (a.w0 as int, a.w1 as int, a.w2 as int, a.w3 as int);
    assert(0 <= w0 + x * (w1 + x * (w2 + x * w3))) by (nonlinear_arith)
        requires x > 0, w0 >= 0, w1 >= 0, w2 >= 0, w3 >= 0;
}

/// Two elements with the same value have the same limbs.
pub proof fn lemma_val_injective(a: Fe, b: Fe)
    ensures
        (a.val() == b.val()) == (a == b),
{
    let x = limb_base();
    assert(x == 18446744073709551616);
    if a.val() == b.val() {
        let ha = a.w1 + x * (a.w2 + x * a.w3);
        let hb = b.w1 + x * (b.w2 + x * b.w3);
        lemma_limb_split(a.w0 as int, ha, b.w0 as int, hb);
        let ga = a.w2 + x * a.w3;
        let gb = b.w2 + x * b.w3;
        lemma_limb_split(a.w1 as int, ga, b.w1 as int, gb);
        lemma_limb_split(a.w2 as int, a.w3 as int, b.w2 as int, b.w3 as int);
    }
}

proof fn lemma_limb_split(l0: int, h0: int, l1: int, h1: int)
    requires
        0 <= l0 < limb_base(),
        0 <= l1 < limb_base(),
        h0 >= 0,
        h1 >= 0,
        l0 + limb_base() * h0 == l1 + limb_base() * h1,
    ensures
        l0 == l1,
        h0 == h1,
{
    let x = limb_base();
    assert(x > 0);
    if h0 < h1 {
        assert(x * h1 >= x * h0 + x) by (nonlinear_arith)
            requires h0 < h1, x > 0;
    } else if h1 < h0 {
        assert(x * h0 >= x * h1 + x) by (nonlinear_arith)
            requires h1 < h0, x > 0;
    }
}

proof fn lemma_val_zero(a: Fe)
    ensures
        (a.val() == 0) == (a.w0 == 0 && a.w1 == 0 && a.w2 == 0 && a.w3 == 0),
{
    lemma_val_injective(a, Fe { w0: 0, w1: 0, w2: 0, w3: 0 });
}

/// Relies on `Add` of ark_ff's `Fp`: addition modulo the field's order.
#[verifier::external_body]
pub(crate) fn fe_add(a: &Fe, b: &Fe) -> (r: Fe)
    requires
        a.wf(),
        b.wf(),
    ensures
        r.wf(),
        r.val() == (a.val() + b.val()) % modulus(),
{
    let x = Fr::new(BigInt::new([a.w0, a.w1, a.w2, a.w3]));
    let y = Fr::new(BigInt::new([b.w0, b.w1, b.w2, b.w3]));
    let z = (x + y).into_bigint().0;
    Fe { w0: z[0], w1: z[1], w2: z[2], w3: z[3] }
}

/// Relies on `Sub` of ark_ff's `Fp`: subtraction modulo the field's order.
#[verifier::external_body]
pub(crate) fn fe_sub(a: &Fe, b: &Fe) -> (r: Fe)
    requires
        a.wf(),
        b.wf(),
    ensures
        r.wf(),
        r.val() == (a.val() - b.val()) % modulus(),
{
    let x = Fr::new(BigInt::new([a.w0, a.w1, a.w2, a.w3]));
    let y = Fr::new(BigInt::new([b.w0, b.w1, b.w2, b.w3]));
    let z = (x - y).into_bigint().0;
    Fe { w0: z[0], w1: z[1], w2: z[2], w3: z[3] }
}

/// Relies on `Mul` of ark_ff's `Fp`: multiplication modulo the field's order.
#[verifier::external_body]
pub(crate) fn fe_mul(a: &Fe, b: &Fe) -> (r: Fe)
    requires
        a.wf(),
        b.wf(),
    ensures
        r.wf(),
        r.val() == (a.val() * b.val()) % modulus(),
{
    let x = Fr::new(BigInt::new([a.w0, a.w1, a.w2, a.w3]));
    let y = Fr::new(BigInt::new([b.w0, b.w1, b.w2, b.w3]));
    let z = (x * y).into_bigint().0;
    Fe { w0: z[0], w1: z[1], w2: z[2], w3: z[3] }
}

/// Relies on `Field::inverse` of ark_ff's `Fp`: no inverse of zero, and otherwise the
/// element whose product with the argument is one.
#[verifier::external_body]
pub(crate) fn fe_inverse(a: &Fe) -> (r: Option<Fe>)
    requires
        a.wf(),
    ensures
        r is None <==> a.val() == 0,
        r matches Some(v) ==> v.wf() && (a.val() * v.val()) % modulus() == 1,
{
    let x = Fr::new(BigInt::new([a.w0, a.w1, a.w2, a.w3]));
    match x.inverse() {
        Some(y) => {
            let z = y.into_bigint().0;
            Some(Fe { w0: z[0], w1: z[1], w2: z[2], w3: z[3] })
        },
        None => None,
    }
}

/// Relies on `Field::characteristic` of ark_ff's `Fp`: the field's characteristic, which
/// is its modulus, as 64-bit words, least significant first.
#[verifier::external_body]
pub(crate) fn characteristic() -> (r: Vec<u64>)
    ensures
        r@ == seq![0x43e1f593f0000001u64, 0x2833e84879b97091u64, 0xb85045b68181585du64, 0x30644e72e131a029u64],
{
    Fr::characteristic().to_vec()
}

} // verus!
