//! Dense polynomials over the field: construction, remainders, modular powers and
//! coprimality.
use crate::field::{fe_sub, modulus, Fe};
use crate::num::{all_bits, reversed_bits, strip_leading_zeros};
use ark_bn254::Fr;
use ark_ff::{BigInt, PrimeField};
use ark_poly::polynomial::univariate::{DenseOrSparsePolynomial, DensePolynomial};
use ark_poly::DenseUVPolynomial;
use vstd::prelude::*;

verus! {

/// A polynomial, by its coefficients from the constant term up, with no zero leading
/// coefficient; the zero polynomial has no coefficients.
#[derive(Clone, Debug)]
pub struct Poly {
    pub coeffs: Vec<Fe>,
}

/// The values of the elements of `v`.
pub open spec fn vals(v: Seq<Fe>) -> Seq<int> {
    Seq::new(v.len(), |i: int| v[i].val())
}

/// `s` has no zero leading coefficient.
pub open spec fn trimmed(s: Seq<int>) -> bool {
    s.len() == 0 || s.last() != 0
}

/// `s` without its zero leading coefficients.
pub open spec fn trim(s: Seq<int>) -> Seq<int>
    decreases s.len(),
{
    if s.len() == 0 || s.last() != 0 {
        s
    } else {
        trim(s.drop_last())
    }
}

/// Coefficient `k` of `s`, zero beyond its end.
pub open spec fn coeff(s: Seq<int>, k: int) -> int {
    if 0 <= k < s.len() {
        s[k]
    } else {
        0
    }
}

/// The sum of `a[i] * b[k - i]` over `i < j`.
pub open spec fn convolution(a: Seq<int>, b: Seq<int>, k: int, j: int) -> int
    decreases j,
{
    if j <= 0 {
        0
    } else {
        convolution(a, b, k, j - 1) + coeff(a, j - 1) * coeff(b, k - (j - 1))
    }
}

/// The product of two polynomials over the field.
pub open spec fn product(a: Seq<int>, b: Seq<int>) -> Seq<int> {
    if a.len() == 0 || b.len() == 0 {
        Seq::empty()
    } else {
        trim(
            Seq::new(
                (a.len() + b.len() - 1) as nat,
                |k: int| convolution(a, b, k, a.len() as int) % modulus(),
            ),
        )
    }
}

/// The sum of two polynomials over the field.
pub open spec fn sum(a: Seq<int>, b: Seq<int>) -> Seq<int> {
    trim(
        Seq::new(
            if a.len() >= b.len() { a.len() } else { b.len() },
            |k: int| (coeff(a, k) + coeff(b, k)) % modulus(),
        ),
    )
}

/// The difference of two polynomials over the field.
pub open spec fn difference(a: Seq<int>, b: Seq<int>) -> Seq<int> {
    trim(
        Seq::new(
            if a.len() >= b.len() { a.len() } else { b.len() },
            |k: int| (coeff(a, k) - coeff(b, k)) % modulus(),
        ),
    )
}

/// The remainder of `a` divided by the nonzero polynomial `m`, as the division of
/// ark_poly computes it.
pub uninterp spec fn remainder_of(a: Seq<int>, m: Seq<int>) -> Seq<int>;

/// The degree of a polynomial, zero for the zero polynomial.
pub open spec fn degree(s: Seq<int>) -> int {
    if s.len() == 0 {
        0
    } else {
        s.len() - 1
    }
}

impl Poly {
    pub open spec fn view(&self) -> Seq<int> {
        vals(self.coeffs@)
    }

    pub open spec fn wf(&self) -> bool {
        &&& forall|i: int| 0 <= i < self.coeffs@.len() ==> #[trigger] self.coeffs@[i].wf()
        &&& trimmed(self@)
    }

    /// Whether this is the zero polynomial.
    pub fn is_zero(&self) -> (r: bool)
        ensures
            r == (self@.len() == 0),
    {
        self.coeffs.len() == 0
    }

    /// The degree, zero for the zero polynomial.
    pub fn degree(&self) -> (r: usize)
        ensures
            r == degree(self@),
    {
        if self.coeffs.len() == 0 {
            0
        } else {
            self.coeffs.len() - 1
        }
    }
}

impl PartialEq for Poly {
    fn eq(&self, o: &Poly) -> (r: bool) {
        if self.coeffs.len() != o.coeffs.len() {
            return false;
        }
        let mut i: usize = 0;
        while i < self.coeffs.len()
            invariant
                i <= self.coeffs@.len() == o.coeffs@.len(),
                forall|j: int| 0 <= j < i ==> self.coeffs@[j] == o.coeffs@[j],
            decreases self.coeffs@.len() - i,
        {
            if self.coeffs[i] != o.coeffs[i] {
                return false;
            }
            i = i + 1;
        }
        proof {
            assert(self.coeffs@ =~= o.coeffs@);
        }
        true
    }
}

impl vstd::std_specs::cmp::PartialEqSpecImpl for Poly {
    open spec fn obeys_eq_spec() -> bool {
        true
    }

    open spec fn eq_spec(&self, o: &Poly) -> bool {
        self.coeffs@ == o.coeffs@
    }
}

/// Two well-formed polynomials with the same view have the same coefficients.
pub proof fn lemma_view_injective(p: Poly, q: Poly)
    requires
        p.wf(),
        q.wf(),
        p@ == q@,
    ensures
        p.coeffs@ == q.coeffs@,
{
    assert(p@ == vals(p.coeffs@));
    assert(q@ == vals(q.coeffs@));
    assert(p.coeffs@.len() == p@.len());
    assert(q.coeffs@.len() == q@.len());
    assert forall|i: int| 0 <= i < p.coeffs@.len() implies p.coeffs@[i] == q.coeffs@[i] by {
        assert(p@[i] == q@[i]);
        assert(vals(p.coeffs@)[i] == p.coeffs@[i].val());
        assert(vals(q.coeffs@)[i] == q.coeffs@[i].val());
        crate::field::lemma_val_injective(p.coeffs@[i], q.coeffs@[i]);
    }
    assert(p.coeffs@ =~= q.coeffs@);
}

/// Relies on the multiplication of ark_poly's `DensePolynomial`: the product of the
/// arguments, with no zero leading coefficient. It multiplies by FFT over a domain of at
/// least as many points as the two arguments have coefficients, which the field's 2-adicity
/// of 28 bounds.
#[verifier::external_body]
pub(crate) fn times(a: &Poly, b: &Poly) -> (r: Poly)
    requires
        a.wf(),
        b.wf(),
        a@.len() + b@.len() <= 0x1000_0000,
    ensures
        r.wf(),
        r@ == product(a@, b@),
{
    let f = |e: &Fe| Fr::new(BigInt::new([e.w0, e.w1, e.w2, e.w3]));
    let x = DensePolynomial::from_coefficients_vec(a.coeffs.iter().map(f).collect());
    let y = DensePolynomial::from_coefficients_vec(b.coeffs.iter().map(f).collect());
    let z = (&x * &y).coeffs.iter().map(|e| e.into_bigint().0).collect::<Vec<_>>();
    Poly { coeffs: z.iter().map(|z| Fe { w0: z[0], w1: z[1], w2: z[2], w3: z[3] }).collect() }
}

/// Relies on `DenseOrSparsePolynomial::divide_with_q_and_r` of ark_poly: for a nonzero
/// divisor, the remainder, whose degree is below the divisor's, and which is the dividend
/// itself when the dividend's degree is below the divisor's.
#[verifier::external_body]
fn remainder(a: &Poly, m: &Poly) -> (r: Poly)
    requires
        a.wf(),
        m.wf(),
        m@.len() > 0,
    ensures
        r.wf(),
        r@ == remainder_of(a@, m@),
        r@.len() < m@.len(),
        a@.len() < m@.len() ==> r@ == a@,
        exists|q: Seq<int>| sum(product(q, m@), r@) == a@,
{
    let f = |e: &Fe| Fr::new(BigInt::new([e.w0, e.w1, e.w2, e.w3]));
    let x = DensePolynomial::from_coefficients_vec(a.coeffs.iter().map(f).collect());
    let y = DensePolynomial::from_coefficients_vec(m.coeffs.iter().map(f).collect());
    let z = DenseOrSparsePolynomial::from(x).divide_with_q_and_r(&y.into()).unwrap().1;
    let z = z.coeffs.iter().map(|e| e.into_bigint().0).collect::<Vec<_>>();
    Poly { coeffs: z.iter().map(|z| Fe { w0: z[0], w1: z[1], w2: z[2], w3: z[3] }).collect() }
}

/// Computes `p` modulo `m`; there is no result when `m` is the zero polynomial.
pub fn reduced_modulo(p: &Poly, m: &Poly) -> (r: Option<Poly>)
    requires
        p.wf(),
        m.wf(),
    ensures
        r is None <==> m@.len() == 0,
        r matches Some(v) ==> v.wf() && v@ == remainder_of(p@, m@) && v@.len() < m@.len(),
        r matches Some(v) ==> (p@.len() < m@.len() ==> v@ == p@),
        r matches Some(v) ==> exists|q: Seq<int>| sum(product(q, m@), v@) == p@,
{
    if m.is_zero() {
        return None;
    }
    Some(remainder(p, m))
}

/// Drops the zero leading coefficients of `c`.
pub(crate) fn trimmed_poly(c: Vec<Fe>) -> (r: Poly)
    requires
        forall|i: int| 0 <= i < c@.len() ==> #[trigger] c@[i].wf(),
    ensures
        r.wf(),
        r@ == trim(vals(c@)),
{
    let mut c = c;
    let ghost c0 = vals(c@);
    while c.len() > 0 && c[c.len() - 1].is_zero()
        invariant
            forall|i: int| 0 <= i < c@.len() ==> #[trigger] c@[i].wf(),
            trim(vals(c@)) == trim(c0),
        decreases c@.len(),
    {
        proof {
            assert(vals(c@).drop_last() =~= vals(c@.drop_last()));
        }
        c.pop();
    }
    proof {
        if c@.len() > 0 {
            assert(vals(c@).last() == c@.last().val());
        }
    }
    Poly { coeffs: c }
}

/// Creates a polynomial from its coefficients, the one of the highest degree first.
pub fn new(c: &[i64]) -> (r: Poly)
    ensures
        r.wf(),
        r@ == trim(Seq::new(c@.len(), |i: int| (c@[c@.len() - 1 - i] as int) % modulus())),
{
    let mut v: Vec<Fe> = Vec::new();
    let mut i: usize = c.len();
    while i > 0
        invariant
            i <= c@.len(),
            v@.len() == c@.len() - i,
            forall|j: int| 0 <= j < v@.len() ==> #[trigger] v@[j].wf(),
            forall|j: int|
                0 <= j < v@.len() ==> #[trigger] v@[j].val() == (c@[c@.len() - 1 - j] as int)
                    % modulus(),
        decreases i,
    {
        i = i - 1;
        v.push(Fe::from_i64(c[i]));
    }
    proof {
        assert(vals(v@) =~= Seq::new(
            c@.len(),
            |i: int| (c@[c@.len() - 1 - i] as int) % modulus(),
        ));
    }
    trimmed_poly(v)
}

/// The difference `a - b`.
pub(crate) fn minus(a: &Poly, b: &Poly) -> (r: Poly)
    requires
        a.wf(),
        b.wf(),
    ensures
        r.wf(),
        r@ == difference(a@, b@),
{
    let n = if a.coeffs.len() >= b.coeffs.len() { a.coeffs.len() } else { b.coeffs.len() };
    let mut v: Vec<Fe> = Vec::new();
    let mut i: usize = 0;
    while i < n
        invariant
            i <= n,
            n == (if a@.len() >= b@.len() { a@.len() } else { b@.len() }),
            a.wf(),
            b.wf(),
            v@.len() == i,
            forall|j: int| 0 <= j < v@.len() ==> #[trigger] v@[j].wf(),
            forall|j: int|
                0 <= j < v@.len() ==> #[trigger] v@[j].val() == (coeff(a@, j) - coeff(b@, j))
                    % modulus(),
        decreases n - i,
    {
        let x = if i < a.coeffs.len() { a.coeffs[i] } else { Fe::zero() };
        let y = if i < b.coeffs.len() { b.coeffs[i] } else { Fe::zero() };
        v.push(fe_sub(&x, &y));
        i = i + 1;
    }
    proof {
        assert(vals(v@) =~= Seq::new(n as nat, |k: int| (coeff(a@, k) - coeff(b@, k)) % modulus()));
    }
    trimmed_poly(v)
}

proof fn lemma_product_one(q: Seq<int>)
    requires
        trimmed(q),
        forall|k: int| 0 <= k < q.len() ==> 0 <= #[trigger] q[k] < modulus(),
    ensures
        product(seq![1int], q) == q,
{
    if q.len() > 0 {
        let s = Seq::new(
            (1 + q.len() - 1) as nat,
            |k: int| convolution(seq![1int], q, k, 1) % modulus(),
        );
        assert forall|k: int| 0 <= k < q.len() implies s[k] == q[k] by {
            assert(convolution(seq![1int], q, k, 0) == 0);
            assert(coeff(seq![1int], 0) == 1);
            vstd::arithmetic::div_mod::lemma_small_mod(q[k] as nat, modulus() as nat);
        }
        assert(s =~= q);
    }
}

/// The square-and-multiply power of `base` modulo `m`, for the exponent whose bits are
/// `bits`, most significant first, starting from the constant one reduced modulo `m`.
pub open spec fn modular_power(base: Seq<int>, bits: Seq<bool>, m: Seq<int>) -> Seq<int>
    decreases bits.len(),
{
    if bits.len() == 0 {
        if m.len() > 1 {
            seq![1int]
        } else {
            Seq::empty()
        }
    } else {
        let h = modular_power(base, bits.drop_last(), m);
        let s = remainder_of(product(h, h), m);
        if bits.last() {
            remainder_of(product(s, base), m)
        } else {
            s
        }
    }
}

/// Computes `p` raised to the power `e` modulo `m` by left-to-right binary
/// exponentiation. The exponent is an unsigned integer given by its 64-bit words, least
/// significant first. There is no result when `m` is the zero polynomial. The modulus has at
/// most 2^27 coefficients, the size up to which the field multiplies polynomials by FFT.
pub fn power_modulo(p: &Poly, e: &[u64], m: &Poly) -> (r: Option<Poly>)
    requires
        p.wf(),
        m.wf(),
        m@.len() <= 0x0800_0000,
    ensures
        r is None <==> m@.len() == 0,
        r matches Some(v) ==> v@.len() < m@.len(),
        r matches Some(v) ==> v.wf() && v@ == modular_power(
            remainder_of(p@, m@),
            strip_leading_zeros(all_bits(e@)),
            m@,
        ),
        r matches Some(v) ==> (strip_leading_zeros(all_bits(e@)) == seq![true] ==> v@
            == remainder_of(p@, m@)),
        r matches Some(v) ==> (strip_leading_zeros(all_bits(e@)) == seq![true, false] ==> v@
            == remainder_of(product(remainder_of(p@, m@), remainder_of(p@, m@)), m@)),
        r matches Some(v) ==> (strip_leading_zeros(all_bits(e@)) == seq![true, true] ==> v@
            == remainder_of(
            product(
                remainder_of(product(remainder_of(p@, m@), remainder_of(p@, m@)), m@),
                remainder_of(p@, m@),
            ),
            m@,
        )),
{
    let p = match reduced_modulo(p, m) {
        Some(v) => v,
        None => return None,
    };
    let mut c: Vec<Fe> = Vec::new();
    if m.degree() > 0 {
        c.push(Fe::one());
    }
    let mut r = Poly { coeffs: c };
    let bits = reversed_bits(e);
    let mut i: usize = 0;
    proof {
        assert(bits@.subrange(0, 0) =~= Seq::<bool>::empty());
        assert(vals(r.coeffs@) =~= modular_power(p@, bits@.subrange(0, 0), m@));
    }
    while i < bits.len()
        invariant
            i <= bits@.len(),
            p.wf(),
            m.wf(),
            m@.len() > 0,
            m@.len() <= 0x0800_0000,
            p@.len() < m@.len(),
            r@.len() < m@.len(),
            r.wf(),
            r@ == modular_power(p@, bits@.subrange(0, i as int), m@),
            i == 0 ==> r@ == modular_power(p@, Seq::<bool>::empty(), m@),
            i >= 1 && bits@[0] ==> modular_power(p@, seq![true], m@) == p@,
        decreases bits@.len() - i,
    {
        let ghost r0 = r@;
        let sq = times(&r, &r);
        r = remainder(&sq, m);
        let ghost r1 = r@;
        if bits[i] {
            let t = times(&r, &p);
            r = remainder(&t, m);
            proof {
                if i == 0 {
                    assert forall|k: int| 0 <= k < p@.len() implies 0 <= #[trigger] p@[k] < modulus() by {
                        assert(p.coeffs@[k].wf());
                        crate::field::lemma_val_nonneg(p.coeffs@[k]);
                    }
                    assert(seq![true].drop_last() =~= Seq::<bool>::empty());
                    assert(seq![true].last() == true);
                    assert(modular_power(p@, seq![true], m@) == remainder_of(
                        product(remainder_of(product(r0, r0), m@), p@),
                        m@,
                    ));
                    if m@.len() > 1 {
                        assert(r0 =~= seq![1int]);
                        lemma_product_one(seq![1int]);
                        assert(sq@ == seq![1int]);
                        assert(r1 == seq![1int]);
                        lemma_product_one(p@);
                        assert(t@ == p@);
                    } else {
                        assert(r0.len() == 0);
                        assert(p@.len() == 0);
                        assert(sq@.len() == 0);
                        assert(r1.len() == 0);
                        assert(t@.len() == 0);
                    }
                    assert(r@ == p@);
                }
            }
        }
        proof {
            assert(bits@.subrange(0, i + 1).drop_last() =~= bits@.subrange(0, i as int));
        }
        i = i + 1;
    }
    proof {
        assert(bits@.subrange(0, bits@.len() as int) =~= bits@);
        let pr = remainder_of(p@, m@);
        if bits@ == seq![true] {
            assert(modular_power(p@, seq![true], m@) == p@);
        }
        if bits@ == seq![true, false] || bits@ == seq![true, true] {
            assert(bits@.drop_last() =~= seq![true]);
            assert(modular_power(p@, seq![true], m@) == p@);
        }
    }
    Some(r)
}

/// The last nonzero polynomial of the remainder sequence that starts from `a` and `b`, when
/// `fuel` steps suffice to reach the zero polynomial.
pub open spec fn euclid_last(a: Seq<int>, b: Seq<int>, fuel: nat) -> Seq<int>
    decreases fuel,
{
    if fuel == 0 || b.len() == 0 {
        a
    } else {
        euclid_last(b, remainder_of(a, b), (fuel - 1) as nat)
    }
}

/// `a` and `b` share no factor of positive degree, as the Euclidean algorithm decides it:
/// when `b` is zero, `a` must be a nonzero constant; otherwise the last nonzero remainder
/// must be a constant.
pub open spec fn coprime(a: Seq<int>, b: Seq<int>) -> bool {
    if b.len() == 0 {
        a.len() == 1
    } else {
        let a1 = remainder_of(a, b);
        if a1.len() == 0 {
            b.len() == 1
        } else {
            euclid_last(a1, remainder_of(b, a1), a1.len() as nat).len() == 1
        }
    }
}

/// Checks whether `a` and `b` are coprime polynomials by the Euclidean algorithm.
pub fn coprimality(a: &Poly, b: &Poly) -> (r: bool)
    requires
        a.wf(),
        b.wf(),
    ensures
        r == coprime(a@, b@),
        a@.len() == 1 && b@.len() > 0 ==> r,
{
    let mut a1 = match reduced_modulo(a, b) {
        Some(v) => v,
        None => return !a.is_zero() && a.degree() == 0,
    };
    let mut b1 = match reduced_modulo(b, &a1) {
        Some(v) => v,
        None => return b.degree() == 0,
    };
    let ghost target = euclid_last(a1@, b1@, a1@.len() as nat);
    let ghost mut fuel: nat = a1@.len() as nat;
    while !b1.is_zero()
        invariant
            a1.wf(),
            b1.wf(),
            a1@.len() > 0,
            fuel >= b1@.len(),
            euclid_last(a1@, b1@, fuel) == target,
            a@.len() == 1 && b@.len() > 0 ==> b1@.len() == 0 && a1@.len() == 1,
        decreases b1@.len(),
    {
        let r = remainder(&a1, &b1);
        proof {
            fuel = (fuel - 1) as nat;
        }
        a1 = b1;
        b1 = r;
    }
    a1.degree() == 0
}

/// A copy of `p`.
pub(crate) fn copy_of(p: &Poly) -> (r: Poly)
    ensures
        r.coeffs@ == p.coeffs@,
{
    let mut c: Vec<Fe> = Vec::new();
    let mut i: usize = 0;
    while i < p.coeffs.len()
        invariant
            i <= p.coeffs@.len(),
            c@ == p.coeffs@.subrange(0, i as int),
        decreases p.coeffs@.len() - i,
    {
        c.push(p.coeffs[i]);
        proof {
            assert(c@ =~= p.coeffs@.subrange(0, i + 1));
        }
        i = i + 1;
    }
    proof {
        assert(c@ =~= p.coeffs@);
    }
    Poly { coeffs: c }
}

} // verus!
