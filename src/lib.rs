//! Analysis of the algebraic weakness of MDS diffusion matrices in P-SPN
//! constructions, over the scalar field of the BN254 curve.
//!
//! The field is fixed: elements are `field::Fe`, the canonical integers below the BN254
//! scalar modulus, and arkworks does the arithmetic. Random matrices are drawn from a
//! `ChaCha8Rng`. Neither is a generic parameter, because the contracts speak of the
//! field's arithmetic and of the generator's type directly.
use ark_bn254::Fr;
use ark_ff::{PrimeField, UniformRand};
use indexmap::IndexSet;
use rand_chacha::ChaCha8Rng;
use vstd::prelude::*;

pub mod field;
pub mod mat;
pub mod num;
pub mod poly;

use crate::field::{
    characteristic, fe_inverse, fe_sub, lemma_val_injective, lemma_val_nonneg, modulus, Fe,
};
use crate::mat::{
    dot_vals, is_zero_vector, kills, matrix_wf, nonsingular, product_vector, rows_of,
    system_solution,
};
use crate::num::{all_bits, lists_prime_divisors, prime_divisors, strip_leading_zeros};
use crate::poly::{
    coprime, coprimality, copy_of, difference, minus, modular_power, new, power_modulo, product,
    reduced_modulo, remainder_of, times, trimmed_poly, trim, vals, Poly,
};

verus! {

#[verifier::external_type_specification]
#[verifier::external_body]
pub struct ExChaCha8Rng(ChaCha8Rng);

#[verifier::external_type_specification]
#[verifier::external_body]
#[verifier::reject_recursive_types(T)]
#[verifier::reject_recursive_types(S)]
pub struct ExIndexSet<T, S>(IndexSet<T, S>);

/// What a set of keys holds, in the order of insertion.
pub uninterp spec fn key_set_items(s: IndexSet<(u64, u64, u64, u64)>) -> Seq<(u64, u64, u64, u64)>;

/// Relies on `IndexSet::with_capacity` of indexmap: a new set is empty.
#[verifier::external_body]
fn key_set_new(n: usize) -> (s: IndexSet<(u64, u64, u64, u64)>)
    ensures
        key_set_items(s) == Seq::<(u64, u64, u64, u64)>::empty(),
{
    IndexSet::with_capacity(n)
}

/// Relies on `IndexSet::insert` of indexmap: a key that is not there yet is appended, and
/// the result tells whether it was.
#[verifier::external_body]
fn key_set_insert(s: &mut IndexSet<(u64, u64, u64, u64)>, k: (u64, u64, u64, u64)) -> (r: bool)
    ensures
        r == !key_set_items(*old(s)).contains(k),
        r ==> key_set_items(*final(s)) == key_set_items(*old(s)).push(k),
        !r ==> key_set_items(*final(s)) == key_set_items(*old(s)),
{
    s.insert(k)
}

/// Relies on `IndexSet::get_index` of indexmap: the key at a position in the order of
/// insertion.
#[verifier::external_body]
fn key_set_get(s: &IndexSet<(u64, u64, u64, u64)>, i: usize) -> (k: (u64, u64, u64, u64))
    requires
        i < key_set_items(*s).len(),
    ensures
        k == key_set_items(*s)[i as int],
{
    *s.get_index(i).unwrap()
}

/// What a set of divisors holds.
pub uninterp spec fn divisor_set_items(s: IndexSet<usize>) -> Set<usize>;

/// Relies on `IndexSet::with_capacity` of indexmap: a new set is empty.
#[verifier::external_body]
fn divisor_set_new(n: usize) -> (s: IndexSet<usize>)
    ensures
        divisor_set_items(s) == Set::<usize>::empty(),
{
    IndexSet::with_capacity(n)
}

/// Relies on `IndexSet::insert` of indexmap: afterwards the set holds the value.
#[verifier::external_body]
fn divisor_set_insert(s: &mut IndexSet<usize>, v: usize)
    ensures
        divisor_set_items(*final(s)) == divisor_set_items(*old(s)).insert(v),
{
    s.insert(v);
}

/// Relies on `IndexSet::contains` of indexmap: whether the set holds the value.
#[verifier::external_body]
fn divisor_set_contains(s: &IndexSet<usize>, v: usize) -> (r: bool)
    ensures
        r == divisor_set_items(*s).contains(v),
{
    s.contains(&v)
}

/// Relies on `UniformRand::rand` of ark_ff's `Fp`: a uniformly drawn element of the field.
#[verifier::external_body]
fn draw(r: &mut ChaCha8Rng) -> (x: Fe)
    ensures
        x.wf(),
{
    let z = Fr::rand(r).into_bigint().0;
    Fe { w0: z[0], w1: z[1], w2: z[2], w3: z[3] }
}

/// The limbs of `x`.
pub open spec fn key_of(x: Fe) -> (u64, u64, u64, u64) {
    (x.w0, x.w1, x.w2, x.w3)
}

/// The entries of `k` are pairwise distinct.
pub open spec fn distinct(k: Seq<Fe>) -> bool {
    forall|i: int, j: int| 0 <= i < j < k.len() ==> k[i] != k[j]
}

/// `m` is the Cauchy matrix of the column keys `c` and the row keys `r`: its entry in row
/// `y` and column `x` is the inverse of `c[x] - r[y]`.
pub open spec fn is_cauchy(m: Seq<Vec<Fe>>, c: Seq<Fe>, r: Seq<Fe>) -> bool {
    &&& m.len() == r.len()
    &&& forall|y: int| 0 <= y < r.len() ==> (#[trigger] m[y]@).len() == c.len()
    &&& forall|y: int, x: int|
        0 <= y < r.len() && 0 <= x < c.len() ==> (#[trigger] m[y]@[x]).wf() && (m[y]@[x].val()
            * ((c[x].val() - r[y].val()) % modulus())) % modulus() == 1
}

/// Builds the Cauchy matrix whose entry in row `y` and column `x` is the inverse of
/// `columns[x] - rows[y]`. The keys must all be distinct, so that every difference can be
/// inverted.
pub fn cauchy(columns: &[Fe], rows: &[Fe]) -> (m: Vec<Vec<Fe>>)
    requires
        forall|i: int| 0 <= i < columns@.len() ==> #[trigger] columns@[i].wf(),
        forall|i: int| 0 <= i < rows@.len() ==> #[trigger] rows@[i].wf(),
        forall|i: int, j: int|
            0 <= i < columns@.len() && 0 <= j < rows@.len() ==> columns@[i] != rows@[j],
    ensures
        is_cauchy(m@, columns@, rows@),
{
    let mut m: Vec<Vec<Fe>> = Vec::new();
    let mut y: usize = 0;
    while y < rows.len()
        invariant
            y <= rows@.len(),
            forall|i: int| 0 <= i < columns@.len() ==> #[trigger] columns@[i].wf(),
            forall|i: int| 0 <= i < rows@.len() ==> #[trigger] rows@[i].wf(),
            forall|i: int, j: int|
                0 <= i < columns@.len() && 0 <= j < rows@.len() ==> columns@[i] != rows@[j],
            is_cauchy(m@, columns@, rows@.subrange(0, y as int)),
        decreases rows@.len() - y,
    {
        let mut v: Vec<Fe> = Vec::new();
        let mut x: usize = 0;
        while x < columns.len()
            invariant
                x <= columns@.len(),
                y < rows@.len(),
                forall|i: int| 0 <= i < columns@.len() ==> #[trigger] columns@[i].wf(),
                forall|i: int| 0 <= i < rows@.len() ==> #[trigger] rows@[i].wf(),
                forall|i: int, j: int|
                    0 <= i < columns@.len() && 0 <= j < rows@.len() ==> columns@[i] != rows@[j],
                v@.len() == x,
                forall|i: int|
                    0 <= i < x ==> (#[trigger] v@[i]).wf() && (v@[i].val() * ((columns@[i].val()
                        - rows@[y as int].val()) % modulus())) % modulus() == 1,
            decreases columns@.len() - x,
        {
            let d = fe_sub(&columns[x], &rows[y]);
            proof {
                let a = columns@[x as int];
                let b = rows@[y as int];
                lemma_val_injective(a, b);
                lemma_val_nonneg(a);
                lemma_val_nonneg(b);
                assert(a.wf());
                assert(b.wf());
                if d.val() == 0 {
                    vstd::arithmetic::div_mod::lemma_fundamental_div_mod(
                        a.val() - b.val(),
                        modulus(),
                    );
                    let q = (a.val() - b.val()) / modulus();
                    assert(a.val() - b.val() == modulus() * q);
                    assert(q == 0) by (nonlinear_arith)
                        requires
                            a.val() - b.val() == modulus() * q,
                            0 <= a.val() < modulus(),
                            0 <= b.val() < modulus(),
                    ;
                }
            }
            let e = match fe_inverse(&d) {
                Some(e) => e,
                None => {
                    proof {
                        assert(false);
                    }
                    Fe::zero()
                },
            };
            proof {
                assert(e.val() * d.val() == d.val() * e.val()) by (nonlinear_arith);
            }
            v.push(e);
            x = x + 1;
        }
        m.push(v);
        proof {
            let rs = rows@.subrange(0, y + 1);
            assert forall|j: int, i: int|
                0 <= j < rs.len() && 0 <= i < columns@.len() implies (#[trigger] m@[j]@[i]).wf()
                && (m@[j]@[i].val() * ((columns@[i].val() - rs[j].val()) % modulus()))
                % modulus() == 1 by {
                if j < y {
                    assert(rs[j] == rows@.subrange(0, y as int)[j]);
                }
            }
        }
        y = y + 1;
    }
    proof {
        assert(rows@.subrange(0, rows@.len() as int) =~= rows@);
    }
    m
}

/// `m` is the Cauchy matrix of `n` column keys `c` and `n` row keys `k`, all well formed
/// and pairwise distinct.
pub open spec fn is_random_cauchy(m: Seq<Vec<Fe>>, n: int, c: Seq<Fe>, k: Seq<Fe>) -> bool {
    &&& c.len() == n
    &&& k.len() == n
    &&& distinct(c + k)
    &&& forall|i: int| 0 <= i < 2 * n ==> #[trigger] (c + k)[i].wf()
    &&& is_cauchy(m, c, k)
}

/// Creates a random square Cauchy matrix of order `n`, which is MDS. Its `2n` keys are
/// drawn from `r`, and a drawn key that repeats an earlier one is drawn again; the first `n`
/// keys are those of the columns and the others those of the rows. There is no result
/// when `n` is zero or the field has fewer than `2n` elements, when `2n` does not fit in
/// 32 bits (no such matrix fits in memory), nor when a key fails to differ from the earlier
/// ones in 2^64 draws.
pub fn random_cauchy(n: u32, r: &mut ChaCha8Rng) -> (m: Option<Vec<Vec<Fe>>>)
    ensures
        (n == 0 || 2 * n > modulus() || n > 0x7fff_ffff) ==> m is None,
        (n == 0 || n > 0x7fff_ffff) ==> *final(r) == *old(r),
        m is Some ==> exists|c: Seq<Fe>, k: Seq<Fe>| is_random_cauchy(m->0@, n as int, c, k),
{
    proof {
        assert(modulus() > 0x1_0000_0000);
    }
    if n == 0 || n > 0x7fff_ffff {
        return None;
    }
    let len = n as usize;
    let mut d = key_set_new(2 * len);
    let ghost mut drawn: Seq<Fe> = Seq::empty();
    let mut i: usize = 0;
    while i < 2 * len
        invariant
            len <= 0x7fff_ffff,
            1 <= n,
            len == n,
            i <= 2 * len,
            drawn.len() == i,
            key_set_items(d) == drawn.map_values(|x: Fe| key_of(x)),
            distinct(drawn),
            forall|j: int| 0 <= j < drawn.len() ==> #[trigger] drawn[j].wf(),
        decreases 2 * len - i,
    {
        let mut tries: u64 = 0;
        loop
            invariant_except_break
                drawn.len() == i,
            invariant
                len <= 0x7fff_ffff,
                1 <= n,
                len == n,
                i < 2 * len,
                i <= drawn.len() <= i + 1,
                key_set_items(d) == drawn.map_values(|x: Fe| key_of(x)),
                distinct(drawn),
                forall|j: int| 0 <= j < drawn.len() ==> #[trigger] drawn[j].wf(),
            ensures
                drawn.len() == i + 1,
            decreases u64::MAX - tries,
        {
            let x = draw(r);
            let ghost before = key_set_items(d);
            if key_set_insert(&mut d, (x.w0, x.w1, x.w2, x.w3)) {
                proof {
                    assert forall|j: int| 0 <= j < drawn.len() implies drawn[j] != x by {
                        if drawn[j] == x {
                            assert(before[j] == key_of(x));
                        }
                    }
                    drawn = drawn.push(x);
                    assert(key_set_items(d) =~= drawn.map_values(|x: Fe| key_of(x)));
                }
                break;
            }
            if tries == u64::MAX {
                return None;
            }
            tries = tries + 1;
        }
        i = i + 1;
    }
    let mut columns: Vec<Fe> = Vec::new();
    let mut rows: Vec<Fe> = Vec::new();
    let mut j: usize = 0;
    while j < 2 * len
        invariant
            len <= 0x7fff_ffff,
            j <= 2 * len,
            drawn.len() == 2 * len,
            key_set_items(d) == drawn.map_values(|x: Fe| key_of(x)),
            j <= len ==> columns@ == drawn.subrange(0, j as int) && rows@.len() == 0,
            j > len ==> columns@ == drawn.subrange(0, len as int) && rows@ == drawn.subrange(
                len as int,
                j as int,
            ),
        decreases 2 * len - j,
    {
        let k = key_set_get(&d, j);
        let x = Fe { w0: k.0, w1: k.1, w2: k.2, w3: k.3 };
        proof {
            assert(x == drawn[j as int]);
        }
        if j < len {
            columns.push(x);
            proof {
                assert(columns@ =~= drawn.subrange(0, j + 1));
            }
        } else {
            rows.push(x);
            proof {
                assert(rows@ =~= drawn.subrange(len as int, j + 1));
            }
        }
        j = j + 1;
    }
    proof {
        assert(drawn =~= columns@ + rows@);
        assert forall|a: int, b: int|
            0 <= a < columns@.len() && 0 <= b < rows@.len() implies columns@[a] != rows@[b] by {
            assert(drawn[a] == columns@[a]);
            assert(drawn[len + b] == rows@[b]);
        }
    }
    let mat = cauchy(columns.as_slice(), rows.as_slice());
    proof {
        assert(columns@.len() == len);
        assert(rows@.len() == len);
        assert(is_cauchy(mat@, columns@, rows@));
        assert(distinct(columns@ + rows@));
        assert(forall|i: int| 0 <= i < 2 * len ==> #[trigger] (columns@ + rows@)[i].wf());
        assert(is_random_cauchy(mat@, len as int, columns@, rows@));
    }
    let res = Some(mat);
    assert(res->0@ == mat@);
    res
}

/// The bits of the field's characteristic `q`, most significant first.
pub open spec fn characteristic_bits() -> Seq<bool> {
    strip_leading_zeros(
        all_bits(
            seq![0x43e1f593f0000001u64, 0x2833e84879b97091u64, 0xb85045b68181585du64, 0x30644e72e131a029u64],
        ),
    )
}

/// The polynomial `x`.
pub open spec fn x_poly() -> Seq<int> {
    seq![0int, 1int]
}

/// `x` raised to the power `q^d` modulo `c`, by `d` successive powers to `q`.
pub open spec fn frobenius(c: Seq<int>, d: nat) -> Seq<int>
    decreases d,
{
    if d == 0 {
        x_poly()
    } else {
        modular_power(remainder_of(frobenius(c, (d - 1) as nat), c), characteristic_bits(), c)
    }
}

/// `c` is a monic polynomial of degree `n` for which no `x^(q^d) - x` with `1 <= d <= n/2`
/// shares a factor of positive degree with `c`, so that `c` is irreducible.
pub open spec fn passes_irreducibility_test(c: Seq<int>, n: int) -> bool {
    &&& c.len() == n + 1
    &&& c.last() == 1
    &&& forall|d: int|
        1 <= d <= n / 2 ==> #[trigger] coprime(difference(frobenius(c, d as nat), x_poly()), c)
}

/// The Krylov vector `a^i * 1` of the all-ones vector, by the values of its entries.
pub open spec fn krylov(a: Seq<Vec<Fe>>, i: nat) -> Seq<int>
    decreases i,
{
    if i == 0 {
        Seq::new(a.len(), |y: int| 1int)
    } else {
        Seq::new(
            a.len(),
            |y: int| dot_vals(a[y]@, krylov(a, (i - 1) as nat), a.len() as int) % modulus(),
        )
    }
}

/// Entry `y` of the combination of the first `k` Krylov vectors with the weights `s`.
pub open spec fn krylov_combination(a: Seq<Vec<Fe>>, s: Seq<int>, y: int, k: int) -> int
    decreases k,
{
    if k <= 0 {
        0
    } else {
        krylov_combination(a, s, y, k - 1) + krylov(a, (k - 1) as nat)[y] * s[k - 1]
    }
}

/// `c` is the monic polynomial of degree `n` that the Krylov sequence of `a` gives: its
/// coefficients below the leading one are the negated weights `s` with which the first `n`
/// Krylov vectors combine to the next one.
pub open spec fn is_krylov_polynomial(a: Seq<Vec<Fe>>, c: Seq<int>) -> bool {
    let n = a.len() as int;
    &&& c.len() == n + 1
    &&& c[n] == 1
    &&& exists|s: Seq<int>|
        {
            &&& s.len() == n
            &&& forall|i: int| 0 <= i < n ==> #[trigger] c[i] == (0 - s[i]) % modulus()
            &&& forall|y: int|
                0 <= y < n ==> #[trigger] krylov_combination(a, s, y, n) % modulus() == krylov(
                    a,
                    n as nat,
                )[y]
        }
}

/// Entry `y` of the combination of the first `n` Krylov vectors with `z` is zero for every `y`.
pub open spec fn krylov_kills(a: Seq<Vec<Fe>>, z: Seq<int>) -> bool {
    forall|y: int|
        0 <= y < a.len() ==> #[trigger] krylov_combination(a, z, y, a.len() as int) % modulus() == 0
}

/// The first `n` Krylov vectors of `a` are linearly independent: only the zero weights
/// combine them to zero.
pub open spec fn krylov_nonsingular(a: Seq<Vec<Fe>>) -> bool {
    forall|z: Seq<int>| z.len() == a.len() && #[trigger] krylov_kills(a, z) ==> is_zero_vector(z)
}

proof fn lemma_krylov_combination_vals(a: Seq<Vec<Fe>>, t: Seq<Fe>, z: Seq<int>, y: int, k: int)
    requires
        0 <= k <= t.len(),
        forall|x: int| 0 <= x < k ==> #[trigger] t[x].val() == krylov(a, x as nat)[y],
    ensures
        dot_vals(t, z, k) == krylov_combination(a, z, y, k),
    decreases k,
{
    if k > 0 {
        lemma_krylov_combination_vals(a, t, z, y, k - 1);
        assert(t[k - 1].val() == krylov(a, (k - 1) as nat)[y]);
    }
}

proof fn lemma_krylov_combination_diff(a: Seq<Vec<Fe>>, s1: Seq<int>, s2: Seq<int>, y: int, k: int)
    requires
        0 <= k <= s1.len() == s2.len(),
    ensures
        krylov_combination(a, Seq::new(s1.len(), |i: int| s1[i] - s2[i]), y, k)
            == krylov_combination(a, s1, y, k) - krylov_combination(a, s2, y, k),
    decreases k,
{
    if k > 0 {
        lemma_krylov_combination_diff(a, s1, s2, y, k - 1);
        let q = krylov(a, (k - 1) as nat)[y];
        let u = s1[k - 1];
        let v = s2[k - 1];
        assert(q * (u - v) == q * u - q * v) by (nonlinear_arith);
    }
}

/// With independent Krylov vectors the Krylov polynomial is unique.
proof fn lemma_krylov_unique(a: Seq<Vec<Fe>>, c1: Seq<int>, c2: Seq<int>)
    requires
        krylov_nonsingular(a),
        is_krylov_polynomial(a, c1),
        is_krylov_polynomial(a, c2),
    ensures
        c1 == c2,
{
    let n = a.len() as int;
    let p = modulus();
    let s1 = choose|s: Seq<int>|
        {
            &&& s.len() == n
            &&& forall|i: int| 0 <= i < n ==> #[trigger] c1[i] == (0 - s[i]) % modulus()
            &&& forall|y: int|
                0 <= y < n ==> #[trigger] krylov_combination(a, s, y, n) % modulus() == krylov(
                    a,
                    n as nat,
                )[y]
        };
    let s2 = choose|s: Seq<int>|
        {
            &&& s.len() == n
            &&& forall|i: int| 0 <= i < n ==> #[trigger] c2[i] == (0 - s[i]) % modulus()
            &&& forall|y: int|
                0 <= y < n ==> #[trigger] krylov_combination(a, s, y, n) % modulus() == krylov(
                    a,
                    n as nat,
                )[y]
        };
    let z = Seq::new(s1.len(), |i: int| s1[i] - s2[i]);
    assert forall|y: int| 0 <= y < n implies #[trigger] krylov_combination(a, z, y, n) % modulus()
        == 0 by {
        lemma_krylov_combination_diff(a, s1, s2, y, n);
        let k1 = krylov_combination(a, s1, y, n);
        let k2 = krylov_combination(a, s2, y, n);
        crate::mat::lemma_sub_cong(k1, k2, k2, k2, p);
        vstd::arithmetic::div_mod::lemma_small_mod(0, p as nat);
    }
    assert(krylov_kills(a, z));
    assert(is_zero_vector(z));
    assert forall|i: int| 0 <= i < n implies c1[i] == c2[i] by {
        assert(z[i] % p == 0);
        vstd::arithmetic::div_mod::lemma_small_mod(0, p as nat);
        crate::mat::lemma_add_cong(s1[i] - s2[i], 0, s2[i], s2[i], p);
        crate::mat::lemma_sub_cong(0, 0, s1[i], s2[i], p);
    }
    assert(c1 =~= c2);
}

proof fn lemma_dot_vals(u: Seq<Fe>, w: Seq<Fe>, v: Seq<int>, k: int)
    requires
        0 <= k <= w.len(),
        v.len() == w.len(),
        forall|j: int| 0 <= j < k ==> #[trigger] v[j] == w[j].val(),
    ensures
        crate::mat::dot(u, w, k) == dot_vals(u, v, k),
    decreases k,
{
    if k > 0 {
        lemma_dot_vals(u, w, v, k - 1);
    }
}

proof fn lemma_krylov_combination(a: Seq<Vec<Fe>>, t: Seq<Fe>, s: Seq<Fe>, y: int, k: int)
    requires
        0 <= k <= t.len(),
        k <= s.len(),
        forall|x: int| 0 <= x < k ==> #[trigger] t[x].val() == krylov(a, x as nat)[y],
    ensures
        crate::mat::dot(t, s, k) == krylov_combination(a, crate::poly::vals(s), y, k),
    decreases k,
{
    if k > 0 {
        lemma_krylov_combination(a, t, s, y, k - 1);
        assert(t[k - 1].val() == krylov(a, (k - 1) as nat)[y]);
        assert(crate::poly::vals(s)[k - 1] == s[k - 1].val());
    }
}

/// `d` is `n` divided by one of the entries of `r`.
pub open spec fn is_retained(n: int, r: Seq<u32>, d: int) -> bool {
    exists|k: int| 0 <= k < r.len() && n / (r[k] as int) == d
}

/// The powers `x^(q^d)` modulo `c` for the `d` up to `top`, in ascending order, that are
/// `n` divided by an entry of `r`.
pub open spec fn retained(c: Seq<int>, n: int, r: Seq<u32>, top: nat) -> Seq<Seq<int>>
    decreases top,
{
    if top == 0 {
        Seq::empty()
    } else if is_retained(n, r, top as int) {
        retained(c, n, r, (top - 1) as nat).push(frobenius(c, top))
    } else {
        retained(c, n, r, (top - 1) as nat)
    }
}

/// `d` is `n` divided by one of its prime divisors.
pub open spec fn is_subfield_degree(n: int, d: int) -> bool {
    exists|q: int| crate::num::is_prime(q) && crate::num::divides(q, n) && n / q == d
}

/// The powers `x^(q^d)` modulo `c` for the `d` up to `top`, in ascending order, that are `n`
/// divided by one of its prime divisors: the degrees of the maximal proper subfields.
pub open spec fn subfield_powers(c: Seq<int>, n: int, top: nat) -> Seq<Seq<int>>
    decreases top,
{
    if top == 0 {
        Seq::empty()
    } else if is_subfield_degree(n, top as int) {
        subfield_powers(c, n, (top - 1) as nat).push(frobenius(c, top))
    } else {
        subfield_powers(c, n, (top - 1) as nat)
    }
}

proof fn lemma_retained_primes(c: Seq<int>, n: int, r: Seq<u32>, top: nat)
    requires
        n >= 1,
        forall|i: int|
            0 <= i < r.len() ==> crate::num::is_prime(r[i] as int) && crate::num::divides(
                #[trigger] r[i] as int,
                n,
            ),
        forall|q: int|
            crate::num::is_prime(q) && #[trigger] crate::num::divides(q, n) ==> exists|i: int|
                0 <= i < r.len() && r[i] as int == q,
    ensures
        retained(c, n, r, top) == subfield_powers(c, n, top),
    decreases top,
{
    if top > 0 {
        lemma_retained_primes(c, n, r, (top - 1) as nat);
        let d = top as int;
        if is_retained(n, r, d) {
            let k = choose|k: int| 0 <= k < r.len() && n / (r[k] as int) == d;
            assert(crate::num::is_prime(r[k] as int) && crate::num::divides(r[k] as int, n));
            assert(is_subfield_degree(n, d));
        }
        if is_subfield_degree(n, d) {
            let q = choose|q: int| crate::num::is_prime(q) && crate::num::divides(q, n) && n / q == d;
            let i = choose|i: int| 0 <= i < r.len() && r[i] as int == q;
            assert(is_retained(n, r, d));
        }
    }
}

/// `base` raised to the power `i` modulo `c`, multiplying by `base` one step at a time.
pub open spec fn round_power(c: Seq<int>, base: Seq<int>, i: nat) -> Seq<int>
    decreases i,
{
    if i <= 1 {
        base
    } else {
        remainder_of(product(round_power(c, base, (i - 1) as nat), base), c)
    }
}

/// At round `i` no retained power raised to `i` meets `x` raised to `i`.
pub open spec fn round_clear(c: Seq<int>, ys: Seq<Seq<int>>, i: nat) -> bool {
    forall|j: int|
        0 <= j < ys.len() ==> #[trigger] round_power(c, ys[j], i) != round_power(c, x_poly(), i)
}

/// The round count `k` is what the round scan over `ys` gives with the bound `l`: every
/// round from 2 to `k` is clear, and unless `k` is `l`, round `k + 1` is not.
pub open spec fn scan_result(c: Seq<int>, ys: Seq<Seq<int>>, l: int, k: int) -> bool {
    &&& 1 <= k <= l
    &&& forall|i: int| 2 <= i <= k ==> #[trigger] round_clear(c, ys, i as nat)
    &&& k < l ==> !round_clear(c, ys, (k + 1) as nat)
}

/// The views of the polynomials of `v`.
pub open spec fn poly_views(v: Seq<Poly>) -> Seq<Seq<int>> {
    Seq::new(v.len(), |j: int| v[j]@)
}

/// Computes the largest positive number of rounds, at most `l`, for which the square
/// MDS matrix `a` shows no algebraic weakness of the P-SPN kind. The minimal polynomial of
/// `a` is found from the Krylov sequence of the all-ones vector, tested for irreducibility,
/// and then the powers of a root of it are tested for falling into a proper subfield.
/// There is no result when `a` has fewer than two rows, when `l` is zero, or when the
/// matrix is weak already at one round; nor when `a` has 2^27 rows or more, beyond the
/// size up to which the field multiplies polynomials by FFT.
pub fn security_level(a: &[Vec<Fe>], l: u32) -> (r: Option<u32>)
    requires
        matrix_wf(a@),
    ensures
        (a@.len() < 2 || l == 0 || !crate::mat::rows_have_len(a@, a@.len() as int)) ==> r is None,
        r matches Some(k) ==> 1 <= k <= l,
        (2 <= a@.len() <= 0x07ff_ffff && l >= 1 && crate::mat::rows_have_len(a@, a@.len() as int))
            ==> (r is Some <==> (krylov_nonsingular(a@) && exists|c: Seq<int>|
            is_krylov_polynomial(a@, c) && passes_irreducibility_test(c, a@.len() as int))),
        r matches Some(k) ==> exists|c: Seq<int>|
            {
                &&& is_krylov_polynomial(a@, c)
                &&& passes_irreducibility_test(c, a@.len() as int)
                &&& scan_result(
                    c,
                    subfield_powers(c, a@.len() as int, (a@.len() / 2) as nat),
                    l as int,
                    k as int,
                )
            },
{
    let n = a.len();
    if n < 2 || l == 0 || n > 0x07ff_ffff {
        return None;
    }
    let mut m: Vec<Vec<Fe>> = Vec::new();
    let mut ones: Vec<Fe> = Vec::new();
    let mut i: usize = 0;
    while i < n
        invariant
            i <= n,
            ones@.len() == i,
            forall|j: int| 0 <= j < i ==> (#[trigger] ones@[j]).wf(),
            forall|j: int| 0 <= j < i ==> (#[trigger] ones@[j]).val() == 1,
        decreases n - i,
    {
        ones.push(Fe::one());
        i = i + 1;
    }
    m.push(ones);
    proof {
        assert forall|j: int, y: int|
            0 <= j < m@.len() && 0 <= y < n implies (#[trigger] m@[j]@[y]).val() == krylov(
                a@,
                j as nat,
            )[y] by {
            assert(m@[j]@ == ones@);
        }
    }
    let mut i: usize = 0;
    while i < n - 1
        invariant
            2 <= n == a@.len(),
            i > 0 ==> crate::mat::rows_have_len(a@, a@.len() as int),
            i < n,
            matrix_wf(a@),
            m@.len() == i + 1,
            matrix_wf(m@),
            forall|j: int| 0 <= j < m@.len() ==> (#[trigger] m@[j]@).len() == n,
            forall|j: int, y: int|
                0 <= j < m@.len() && 0 <= y < n ==> (#[trigger] m@[j]@[y]).val() == krylov(
                    a@,
                    j as nat,
                )[y],
        decreases n - i,
    {
        let v = match product_vector(a, m[i].as_slice()) {
            Some(v) => v,
            None => return None,
        };
        proof {
            assert forall|y: int| 0 <= y < n implies (#[trigger] v@[y]).val() == krylov(
                a@,
                (i + 1) as nat,
            )[y] by {
                lemma_dot_vals(a@[y]@, m@[i as int]@, krylov(a@, i as nat), n as int);
            }
        }
        m.push(v);
        i = i + 1;
    }
    let b = match product_vector(a, m[n - 1].as_slice()) {
        Some(v) => v,
        None => return None,
    };
    proof {
        assert forall|y: int| 0 <= y < n implies (#[trigger] b@[y]).val() == krylov(a@, n as nat)[y] by {
            lemma_dot_vals(a@[y]@, m@[n - 1]@, krylov(a@, (n - 1) as nat), n as int);
        }
    }
    let mut t: Vec<Vec<Fe>> = Vec::new();
    let mut y: usize = 0;
    while y < n
        invariant
        crate::mat::rows_have_len(a@, a@.len() as int),
            y <= n == m@.len(),
            matrix_wf(m@),
            forall|j: int| 0 <= j < m@.len() ==> (#[trigger] m@[j]@).len() == n,
            t@.len() == y,
            matrix_wf(t@),
            forall|j: int| 0 <= j < t@.len() ==> (#[trigger] t@[j]@).len() == n,
            forall|yy: int, x: int|
                0 <= yy < y && 0 <= x < n ==> (#[trigger] t@[yy]@[x]) == m@[x]@[yy],
        decreases n - y,
    {
        let mut row: Vec<Fe> = Vec::new();
        let mut x: usize = 0;
        while x < n
            invariant
            crate::mat::rows_have_len(a@, a@.len() as int),
                x <= n == m@.len(),
                y < n,
                matrix_wf(m@),
                forall|j: int| 0 <= j < m@.len() ==> (#[trigger] m@[j]@).len() == n,
                row@.len() == x,
                forall|j: int| 0 <= j < x ==> (#[trigger] row@[j]).wf(),
                forall|j: int| 0 <= j < x ==> (#[trigger] row@[j]) == m@[j]@[y as int],
            decreases n - x,
        {
            assert(crate::mat::vec_wf(m@[x as int]@));
            row.push(m[x][y]);
            x = x + 1;
        }
        t.push(row);
        y = y + 1;
    }
    proof {
        assert forall|z: Seq<int>| z.len() == n implies #[trigger] kills(rows_of(t@), z, n as int)
            == krylov_kills(a@, z) by {
            assert forall|y: int| 0 <= y < n implies #[trigger] dot_vals(rows_of(t@)[y], z, n as int)
                == krylov_combination(a@, z, y, n as int) by {
                assert forall|x: int| 0 <= x < n implies #[trigger] rows_of(t@)[y][x].val() == krylov(
                    a@,
                    x as nat,
                )[y] by {
                    assert(t@[y]@[x] == m@[x]@[y]);
                }
                lemma_krylov_combination_vals(a@, rows_of(t@)[y], z, y, n as int);
            }
            if kills(rows_of(t@), z, n as int) {
                assert forall|y: int| 0 <= y < a@.len() implies #[trigger] krylov_combination(
                    a@,
                    z,
                    y,
                    a@.len() as int,
                ) % modulus() == 0 by {
                    assert(dot_vals(rows_of(t@)[y], z, n as int) % modulus() == 0);
                }
            }
            if krylov_kills(a@, z) {
                assert forall|y: int| 0 <= y < rows_of(t@).len() implies #[trigger] dot_vals(
                    rows_of(t@)[y],
                    z,
                    n as int,
                ) % modulus() == 0 by {
                    assert(krylov_combination(a@, z, y, a@.len() as int) % modulus() == 0);
                }
            }
        }
        assert(nonsingular(t@) == krylov_nonsingular(a@)) by {
            if nonsingular(t@) {
                assert forall|z: Seq<int>| z.len() == a@.len() && #[trigger] krylov_kills(a@, z)
                    implies is_zero_vector(z) by {
                    assert(kills(rows_of(t@), z, n as int));
                }
            }
            if krylov_nonsingular(a@) {
                assert forall|z: Seq<int>| z.len() == t@.len() && #[trigger] kills(rows_of(t@), z, t@.len() as int)
                    implies is_zero_vector(z) by {
                    assert(krylov_kills(a@, z));
                }
            }
        }
    }
    let s = match system_solution(t.as_slice(), b.as_slice()) {
        Some(s) => s,
        None => return None,
    };
    let ghost weights = vals(s@);
    proof {
        assert forall|y: int| 0 <= y < n implies #[trigger] krylov_combination(
            a@,
            weights,
            y,
            n as int,
        ) % modulus() == krylov(a@, n as nat)[y] by {
            assert forall|x: int| 0 <= x < n implies #[trigger] t@[y]@[x].val() == krylov(
                a@,
                x as nat,
            )[y] by {
                assert(t@[y]@[x] == m@[x]@[y]);
            }
            lemma_krylov_combination(a@, t@[y]@, s@, y, n as int);
        }
    }
    let zero = Fe::zero();
    let mut coefficients: Vec<Fe> = Vec::new();
    let mut i: usize = 0;
    while i < s.len()
        invariant
        crate::mat::rows_have_len(a@, a@.len() as int),
        krylov_nonsingular(a@),
            i <= s@.len(),
            zero.wf(),
            zero.val() == 0,
            crate::mat::vec_wf(s@),
            coefficients@.len() == i,
            forall|j: int| 0 <= j < i ==> (#[trigger] coefficients@[j]).wf(),
            forall|j: int|
                0 <= j < i ==> (#[trigger] coefficients@[j]).val() == (0 - s@[j].val()) % modulus(),
        decreases s@.len() - i,
    {
        coefficients.push(fe_sub(&zero, &s[i]));
        i = i + 1;
    }
    coefficients.push(Fe::one());
    proof {
        assert(vals(coefficients@).last() == 1);
        assert(trim(vals(coefficients@)) == vals(coefficients@));
    }
    let c = trimmed_poly(coefficients);
    proof {
        assert forall|i: int| 0 <= i < n implies #[trigger] c@[i] == (0 - weights[i]) % modulus() by {
            assert(c@[i] == coefficients@[i].val());
        }
        assert(c@[n as int] == 1);
        assert(weights.len() == n);
        assert(is_krylov_polynomial(a@, c@));
    }
    let divisors = prime_divisors(n as u32);
    proof {
        assert forall|j: int| 0 <= j < divisors@.len() implies #[trigger] divisors@[j] >= 2 by {
            assert(crate::num::is_prime(divisors@[j] as int));
        }
    }
    let mut f = divisor_set_new(divisors.len());
    let mut i: usize = 0;
    proof {
        assert(divisor_set_items(f) =~= Set::new(
            |e: usize| is_retained(n as int, divisors@.subrange(0, 0), e as int),
        ));
    }
    while i < divisors.len()
        invariant
        crate::mat::rows_have_len(a@, a@.len() as int),
        krylov_nonsingular(a@),
            i <= divisors@.len(),
            forall|j: int| 0 <= j < divisors@.len() ==> #[trigger] divisors@[j] >= 2,
            divisor_set_items(f) == Set::new(
                |e: usize| is_retained(n as int, divisors@.subrange(0, i as int), e as int),
            ),
        decreases divisors@.len() - i,
    {
        let v = n / (divisors[i] as usize);
        divisor_set_insert(&mut f, v);
        proof {
            let old_r = divisors@.subrange(0, i as int);
            let new_r = divisors@.subrange(0, i + 1);
            assert forall|e: usize| #[trigger] is_retained(n as int, new_r, e as int) == (is_retained(
                n as int,
                old_r,
                e as int,
            ) || e == v) by {
                if is_retained(n as int, new_r, e as int) {
                    let k = choose|k: int| 0 <= k < new_r.len() && (n as int) / (new_r[k] as int) == e;
                    if k < i {
                        assert(old_r[k] == new_r[k]);
                    }
                }
                if is_retained(n as int, old_r, e as int) {
                    let k = choose|k: int| 0 <= k < old_r.len() && (n as int) / (old_r[k] as int) == e;
                    assert(old_r[k] == new_r[k]);
                }
                if e == v {
                    assert(new_r[i as int] == divisors@[i as int]);
                }
            }
            assert(divisor_set_items(f) =~= Set::new(
                |e: usize| is_retained(n as int, new_r, e as int),
            ));
        }
        i = i + 1;
    }
    proof {
        assert(divisors@.subrange(0, divisors@.len() as int) =~= divisors@);
    }
    let mut y: Vec<Poly> = Vec::new();
    let x = new(&[1, 0]);
    proof {
        assert(x@ =~= x_poly()) by {
            vstd::arithmetic::div_mod::lemma_small_mod(0, modulus() as nat);
            vstd::arithmetic::div_mod::lemma_small_mod(1, modulus() as nat);
            let s = Seq::new(2, |i: int| (seq![1i64, 0i64][1 - i] as int) % modulus());
            assert(s =~= x_poly());
        }
    }
    let mut r = copy_of(&x);
    let q = characteristic();
    let mut d: usize = 1;
    while d <= n / 2
        invariant
        crate::mat::rows_have_len(a@, a@.len() as int),
        krylov_nonsingular(a@),
            1 <= d <= n / 2 + 1,
            n == a@.len(),
            n <= 0x07ff_ffff,
            forall|j: int| 0 <= j < y@.len() ==> (#[trigger] y@[j])@.len() < c@.len(),
            c.wf(),
            c@.len() == n + 1,
            c@.last() == 1,
            is_krylov_polynomial(a@, c@),
            x.wf(),
            x@ == x_poly(),
            q@ == seq![0x43e1f593f0000001u64, 0x2833e84879b97091u64, 0xb85045b68181585du64, 0x30644e72e131a029u64],
            r.wf(),
            r@ == frobenius(c@, (d - 1) as nat),
            forall|e: int|
                1 <= e < d ==> #[trigger] coprime(difference(frobenius(c@, e as nat), x_poly()), c@),
            divisor_set_items(f) == Set::new(|e: usize| is_retained(n as int, divisors@, e as int)),
            poly_views(y@) == retained(c@, n as int, divisors@, (d - 1) as nat),
            forall|j: int| 0 <= j < y@.len() ==> (#[trigger] y@[j]).wf(),
        decreases n / 2 + 1 - d,
    {
        r = match power_modulo(&r, q.as_slice(), &c) {
            Some(v) => v,
            None => return None,
        };
        if !coprimality(&minus(&r, &x), &c) {
            proof {
                assert(!coprime(difference(frobenius(c@, d as nat), x_poly()), c@));
                assert forall|c2: Seq<int>|
                    is_krylov_polynomial(a@, c2) implies !passes_irreducibility_test(c2, n as int) by {
                    assert(krylov_nonsingular(a@));
                    assert(is_krylov_polynomial(a@, c@));
                    lemma_krylov_unique(a@, c@, c2);
                    let di = d as int;
                    assert(1 <= di <= (n as int) / 2);
                    assert(!coprime(difference(frobenius(c2, di as nat), x_poly()), c2));
                }
            }
            return None;
        }
        let ghost before = y@;
        if divisor_set_contains(&f, d) {
            y.push(copy_of(&r));
            proof {
                assert(is_retained(n as int, divisors@, d as int));
                assert(poly_views(y@) =~= poly_views(before).push(r@));
            }
        } else {
            proof {
                assert(!is_retained(n as int, divisors@, d as int));
            }
        }
        d = d + 1;
    }
    let ghost ys = poly_views(y@);
    proof {
        lemma_retained_primes(c@, n as int, divisors@, (n / 2) as nat);
    }
    assert(passes_irreducibility_test(c@, n as int));
    let mut g = copy_of(&x);
    let mut h: Vec<Poly> = Vec::new();
    let mut j: usize = 0;
    while j < y.len()
        invariant
        crate::mat::rows_have_len(a@, a@.len() as int),
        krylov_nonsingular(a@),
            j <= y@.len(),
            h@.len() == j,
            forall|k: int| 0 <= k < y@.len() ==> (#[trigger] y@[k]).wf(),
            forall|k: int| 0 <= k < j ==> (#[trigger] h@[k]).wf(),
            forall|k: int| 0 <= k < y@.len() ==> (#[trigger] y@[k])@.len() < c@.len(),
            forall|k: int| 0 <= k < j ==> (#[trigger] h@[k])@.len() < c@.len(),
            forall|k: int| 0 <= k < j ==> (#[trigger] h@[k])@ == y@[k]@,
        decreases y@.len() - j,
    {
        h.push(copy_of(&y[j]));
        j = j + 1;
    }
    let mut i: u32 = 1;
    while i < l
        invariant
        crate::mat::rows_have_len(a@, a@.len() as int),
        krylov_nonsingular(a@),
            1 <= i <= l,
            2 <= a@.len(),
            n == a@.len(),
            passes_irreducibility_test(c@, a@.len() as int),
            is_krylov_polynomial(a@, c@),
            lists_prime_divisors(n as int, divisors@),
            ys == subfield_powers(c@, n as int, (n / 2) as nat),
            ys == poly_views(y@),
            ys == retained(c@, n as int, divisors@, (n / 2) as nat),
            a@.len() <= 0x07ff_ffff,
            x@ == x_poly(),
            g@ == round_power(c@, x_poly(), i as nat),
            forall|k: int| 0 <= k < h@.len() ==> (#[trigger] h@[k])@ == round_power(c@, ys[k], i as nat),
            forall|t: int| 2 <= t <= i ==> #[trigger] round_clear(c@, ys, t as nat),
            g@.len() < c@.len(),
            forall|k: int| 0 <= k < y@.len() ==> (#[trigger] y@[k])@.len() < c@.len(),
            forall|k: int| 0 <= k < h@.len() ==> (#[trigger] h@[k])@.len() < c@.len(),
            c.wf(),
            x.wf(),
            g.wf(),
            h@.len() == y@.len(),
            forall|k: int| 0 <= k < y@.len() ==> (#[trigger] y@[k]).wf(),
            forall|k: int| 0 <= k < h@.len() ==> (#[trigger] h@[k]).wf(),
        decreases l - i,
    {
        i = i + 1;
        g = match reduced_modulo(&times(&g, &x), &c) {
            Some(v) => v,
            None => return None,
        };
        let mut j: usize = 0;
        while j < h.len()
            invariant
            crate::mat::rows_have_len(a@, a@.len() as int),
            krylov_nonsingular(a@),
                j <= h@.len() == y@.len(),
                2 <= i <= l,
                2 <= a@.len(),
                n == a@.len(),
                passes_irreducibility_test(c@, a@.len() as int),
            is_krylov_polynomial(a@, c@),
                lists_prime_divisors(n as int, divisors@),
                ys == subfield_powers(c@, n as int, (n / 2) as nat),
            ys == subfield_powers(c@, n as int, (n / 2) as nat),
                ys == poly_views(y@),
                ys == retained(c@, n as int, divisors@, (n / 2) as nat),
                a@.len() <= 0x07ff_ffff,
                g@ == round_power(c@, x_poly(), i as nat),
                forall|k: int|
                    0 <= k < j ==> (#[trigger] h@[k])@ == round_power(c@, ys[k], i as nat) && h@[k]@
                        != g@,
                forall|k: int|
                    j <= k < h@.len() ==> (#[trigger] h@[k])@ == round_power(c@, ys[k], (i - 1) as nat),
                forall|t: int| 2 <= t < i ==> #[trigger] round_clear(c@, ys, t as nat),
                g@.len() < c@.len(),
                forall|k: int| 0 <= k < y@.len() ==> (#[trigger] y@[k])@.len() < c@.len(),
                forall|k: int| 0 <= k < h@.len() ==> (#[trigger] h@[k])@.len() < c@.len(),
                c.wf(),
                g.wf(),
                forall|k: int| 0 <= k < y@.len() ==> (#[trigger] y@[k]).wf(),
                forall|k: int| 0 <= k < h@.len() ==> (#[trigger] h@[k]).wf(),
            decreases h@.len() - j,
        {
            assert(y@[j as int]@ == ys[j as int]);
            let v = match reduced_modulo(&times(&h[j], &y[j]), &c) {
                Some(v) => v,
                None => return None,
            };
            assert(v@ == round_power(c@, ys[j as int], i as nat));
            if v == g {
                proof {
                    assert(v.coeffs@ == g.coeffs@);
                    assert(v@ == g@);
                    assert(round_power(c@, ys[j as int], i as nat) == round_power(c@, x_poly(), i as nat));
                    assert(!round_clear(c@, ys, i as nat));
                    assert(scan_result(c@, ys, l as int, (i - 1) as int));
                }
                return Some(i - 1);
            }
            proof {
                if v@ == g@ {
                    crate::poly::lemma_view_injective(v, g);
                }
            }
            h.set(j, v);
            j = j + 1;
        }
        assert forall|k: int| 0 <= k < ys.len() implies #[trigger] round_power(c@, ys[k], i as nat)
            != round_power(c@, x_poly(), i as nat) by {
            assert(h@[k]@ == round_power(c@, ys[k], i as nat));
        }
        assert(round_clear(c@, ys, i as nat));
    }
    proof {
        assert(scan_result(c@, ys, l as int, l as int));
    }
    Some(l)
}

} // verus!
