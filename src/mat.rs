//! Matrix and vector products, and the solution of linear systems, over the field.
use crate::field::{fe_add, fe_inverse, fe_mul, fe_sub, lemma_val_nonneg, modulus, Fe};
use vstd::prelude::*;

verus! {

/// Every entry of `v` is a well-formed element.
pub open spec fn vec_wf(v: Seq<Fe>) -> bool {
    forall|i: int| 0 <= i < v.len() ==> #[trigger] v[i].wf()
}

/// Every entry of every row of `a` is a well-formed element.
pub open spec fn matrix_wf(a: Seq<Vec<Fe>>) -> bool {
    forall|i: int| 0 <= i < a.len() ==> vec_wf(#[trigger] a[i]@)
}

/// The sum of `u[i] * v[i]` over `i < k`, as an integer.
pub open spec fn dot(u: Seq<Fe>, v: Seq<Fe>, k: int) -> int
    decreases k,
{
    if k <= 0 {
        0
    } else {
        dot(u, v, k - 1) + u[k - 1].val() * v[k - 1].val()
    }
}

/// Column `x` of the matrix `b`.
pub open spec fn column(b: Seq<Vec<Fe>>, x: int) -> Seq<Fe> {
    Seq::new(b.len(), |i: int| b[i]@[x])
}

/// Every row of `a` has length `k`.
pub open spec fn rows_have_len(a: Seq<Vec<Fe>>, k: int) -> bool {
    forall|i: int| 0 <= i < a.len() ==> (#[trigger] a[i]@).len() == k
}

/// The element that the dot product of `u` and `v` stands for in the field.
fn dot_product(u: &[Fe], v: &[Fe]) -> (r: Fe)
    requires
        u@.len() == v@.len(),
        vec_wf(u@),
        vec_wf(v@),
    ensures
        r.wf(),
        r.val() == dot(u@, v@, u@.len() as int) % modulus(),
{
    let mut acc = Fe::zero();
    let mut i: usize = 0;
    proof {
        assert(dot(u@, v@, 0) == 0);
        vstd::arithmetic::div_mod::lemma_small_mod(0, modulus() as nat);
    }
    while i < u.len()
        invariant
            i <= u@.len() == v@.len(),
            vec_wf(u@),
            vec_wf(v@),
            acc.wf(),
            acc.val() == dot(u@, v@, i as int) % modulus(),
        decreases u@.len() - i,
    {
        let t = fe_mul(&u[i], &v[i]);
        proof {
            vstd::arithmetic::div_mod::lemma_add_mod_noop(
                dot(u@, v@, i as int),
                u@[i as int].val() * v@[i as int].val(),
                modulus(),
            );
            vstd::arithmetic::div_mod::lemma_mod_twice(
                u@[i as int].val() * v@[i as int].val(),
                modulus(),
            );
            vstd::arithmetic::div_mod::lemma_mod_twice(dot(u@, v@, i as int), modulus());
        }
        acc = fe_add(&acc, &t);
        i = i + 1;
    }
    acc
}

/// The element that the dot product of `s` and column `x` of `b` stands for in the field.
fn column_product(s: &[Fe], b: &[Vec<Fe>], x: usize) -> (r: Fe)
    requires
        s@.len() == b@.len(),
        vec_wf(s@),
        matrix_wf(b@),
        forall|i: int| 0 <= i < b@.len() ==> x < (#[trigger] b@[i]@).len(),
    ensures
        r.wf(),
        r.val() == dot(s@, column(b@, x as int), s@.len() as int) % modulus(),
{
    let ghost col = column(b@, x as int);
    let mut acc = Fe::zero();
    let mut i: usize = 0;
    proof {
        assert(dot(s@, col, 0) == 0);
        vstd::arithmetic::div_mod::lemma_small_mod(0, modulus() as nat);
    }
    while i < s.len()
        invariant
            i <= s@.len() == b@.len(),
            col == column(b@, x as int),
            vec_wf(s@),
            matrix_wf(b@),
            forall|j: int| 0 <= j < b@.len() ==> x < (#[trigger] b@[j]@).len(),
            acc.wf(),
            acc.val() == dot(s@, col, i as int) % modulus(),
        decreases s@.len() - i,
    {
        assert(vec_wf(b@[i as int]@));
        let t = fe_mul(&s[i], &b[i][x]);
        proof {
            assert(col[i as int] == b@[i as int]@[x as int]);
            vstd::arithmetic::div_mod::lemma_add_mod_noop(
                dot(s@, col, i as int),
                s@[i as int].val() * col[i as int].val(),
                modulus(),
            );
            vstd::arithmetic::div_mod::lemma_mod_twice(
                s@[i as int].val() * col[i as int].val(),
                modulus(),
            );
            vstd::arithmetic::div_mod::lemma_mod_twice(dot(s@, col, i as int), modulus());
        }
        acc = fe_add(&acc, &t);
        i = i + 1;
    }
    acc
}

/// Computes the matrix product of `a` and `b`. There is no result when either is empty or
/// the rows of `b` are empty,
/// when a row of `a` is not as long as `b` is high, or when the rows of `b` differ in length.
pub fn product_matrix(a: &[Vec<Fe>], b: &[Vec<Fe>]) -> (r: Option<Vec<Vec<Fe>>>)
    requires
        matrix_wf(a@),
        matrix_wf(b@),
    ensures
        r is None <==> (b@.len() == 0 || a@.len() == 0 || b@[0]@.len() == 0 || !rows_have_len(
            a@,
            b@.len() as int,
        ) || !rows_have_len(b@, b@[0]@.len() as int)),
        r matches Some(m) ==> {
            &&& m@.len() == a@.len()
            &&& matrix_wf(m@)
            &&& rows_have_len(m@, b@[0]@.len() as int)
            &&& forall|y: int, x: int|
                0 <= y < a@.len() && 0 <= x < b@[0]@.len() ==> (#[trigger] m@[y]@[x]).val()
                    == dot(a@[y]@, column(b@, x), b@.len() as int) % modulus()
        },
{
    let k = b.len();
    if k == 0 || a.len() == 0 {
        return None;
    }
    let c = b[0].len();
    if c == 0 {
        return None;
    }
    let mut i: usize = 0;
    while i < a.len()
        invariant
            i <= a@.len(),
            k == b@.len(),
            forall|j: int| 0 <= j < i ==> (#[trigger] a@[j]@).len() == k,
        decreases a@.len() - i,
    {
        if a[i].len() != k {
            assert((a@[i as int]@).len() != k);
            return None;
        }
        i = i + 1;
    }
    let mut i: usize = 0;
    while i < k
        invariant
            i <= k == b@.len(),
            c == b@[0]@.len(),
            forall|j: int| 0 <= j < i ==> (#[trigger] b@[j]@).len() == c,
        decreases k - i,
    {
        if b[i].len() != c {
            assert((b@[i as int]@).len() != c);
            return None;
        }
        i = i + 1;
    }
    let mut m: Vec<Vec<Fe>> = Vec::new();
    let mut y: usize = 0;
    while y < a.len()
        invariant
            y <= a@.len(),
            k == b@.len(),
            c == b@[0]@.len(),
            matrix_wf(a@),
            matrix_wf(b@),
            rows_have_len(a@, k as int),
            rows_have_len(b@, c as int),
            m@.len() == y,
            matrix_wf(m@),
            rows_have_len(m@, c as int),
            forall|j: int, x: int|
                0 <= j < y && 0 <= x < c ==> (#[trigger] m@[j]@[x]).val() == dot(
                    a@[j]@,
                    column(b@, x),
                    k as int,
                ) % modulus(),
        decreases a@.len() - y,
    {
        let mut l: Vec<Fe> = Vec::new();
        let mut x: usize = 0;
        while x < c
            invariant
                x <= c,
                y < a@.len(),
                k == b@.len(),
                c == b@[0]@.len(),
                matrix_wf(a@),
                matrix_wf(b@),
                rows_have_len(a@, k as int),
                rows_have_len(b@, c as int),
                l@.len() == x,
                vec_wf(l@),
                forall|j: int|
                    0 <= j < x ==> (#[trigger] l@[j]).val() == dot(a@[y as int]@, column(b@, j), k as int)
                        % modulus(),
            decreases c - x,
        {
            let e = column_product(a[y].as_slice(), b, x);
            l.push(e);
            x = x + 1;
        }
        m.push(l);
        proof {
            assert forall|j: int, x: int|
                0 <= j < y + 1 && 0 <= x < c implies (#[trigger] m@[j]@[x]).val() == dot(
                    a@[j]@,
                    column(b@, x),
                    k as int,
                ) % modulus() by {
                if j == y {
                    assert(m@[j]@ == l@);
                }
            }
        }
        y = y + 1;
    }
    Some(m)
}

/// Computes the product of the matrix `a` and the column vector `b`. There is no result
/// when either is empty or when a row of `a` is not as long as `b`.
pub fn product_vector(a: &[Vec<Fe>], b: &[Fe]) -> (r: Option<Vec<Fe>>)
    requires
        matrix_wf(a@),
        vec_wf(b@),
    ensures
        r is None <==> (b@.len() == 0 || a@.len() == 0 || !rows_have_len(a@, b@.len() as int)),
        r matches Some(v) ==> v@.len() == a@.len() && vec_wf(v@) && forall|i: int|
            0 <= i < a@.len() ==> (#[trigger] v@[i]).val() == dot(a@[i]@, b@, b@.len() as int)
                % modulus(),
{
    let k = b.len();
    if k == 0 || a.len() == 0 {
        return None;
    }
    let mut i: usize = 0;
    while i < a.len()
        invariant
            i <= a@.len(),
            k == b@.len(),
            forall|j: int| 0 <= j < i ==> (#[trigger] a@[j]@).len() == k,
        decreases a@.len() - i,
    {
        if a[i].len() != k {
            assert((a@[i as int]@).len() != k);
            return None;
        }
        i = i + 1;
    }
    let mut v: Vec<Fe> = Vec::new();
    let mut i: usize = 0;
    while i < a.len()
        invariant
            i <= a@.len(),
            matrix_wf(a@),
            vec_wf(b@),
            rows_have_len(a@, k as int),
            k == b@.len(),
            v@.len() == i,
            vec_wf(v@),
            forall|j: int|
                0 <= j < i ==> (#[trigger] v@[j]).val() == dot(a@[j]@, b@, k as int) % modulus(),
        decreases a@.len() - i,
    {
        let e = dot_product(a[i].as_slice(), b);
        v.push(e);
        i = i + 1;
    }
    Some(v)
}

pub(crate) proof fn lemma_add_cong(a: int, a2: int, b: int, b2: int, p: int)
    requires
        p > 0,
        a % p == a2 % p,
        b % p == b2 % p,
    ensures
        (a + b) % p == (a2 + b2) % p,
{
    vstd::arithmetic::div_mod::lemma_add_mod_noop(a, b, p);
    vstd::arithmetic::div_mod::lemma_add_mod_noop(a2, b2, p);
}

pub(crate) proof fn lemma_sub_cong(a: int, a2: int, b: int, b2: int, p: int)
    requires
        p > 0,
        a % p == a2 % p,
        b % p == b2 % p,
    ensures
        (a - b) % p == (a2 - b2) % p,
{
    vstd::arithmetic::div_mod::lemma_sub_mod_noop(a, b, p);
    vstd::arithmetic::div_mod::lemma_sub_mod_noop(a2, b2, p);
}

proof fn lemma_mul_cong(c: int, a: int, a2: int, p: int)
    requires
        p > 0,
        a % p == a2 % p,
    ensures
        (c * a) % p == (c * a2) % p,
{
    vstd::arithmetic::div_mod::lemma_mul_mod_noop_right(c, a, p);
    vstd::arithmetic::div_mod::lemma_mul_mod_noop_right(c, a2, p);
}

/// Scaling every entry of a row scales its dot product.
proof fn lemma_dot_scaled(u: Seq<Fe>, w: Seq<Fe>, x: Seq<Fe>, k: int, s: int)
    requires
        0 <= k <= u.len(),
        k <= w.len(),
        forall|j: int| 0 <= j < k ==> (#[trigger] w[j]).val() == (u[j].val() * s) % modulus(),
    ensures
        dot(w, x, k) % modulus() == (s * dot(u, x, k)) % modulus(),
    decreases k,
{
    let p = modulus();
    if k > 0 {
        lemma_dot_scaled(u, w, x, k - 1, s);
        let a = dot(w, x, k - 1);
        let b = dot(u, x, k - 1);
        let uk = u[k - 1].val();
        let xk = x[k - 1].val();
        vstd::arithmetic::div_mod::lemma_mul_mod_noop_left(uk * s, xk, p);
        assert((uk * s * xk) == s * uk * xk) by (nonlinear_arith);
        lemma_add_cong(a, s * b, w[k - 1].val() * xk, s * uk * xk, p);
        assert(s * b + s * uk * xk == s * (b + uk * xk)) by (nonlinear_arith);
    }
}

/// Subtracting a multiple of one row from another does the same to the dot products.
proof fn lemma_dot_combined(u: Seq<Fe>, v: Seq<Fe>, w: Seq<Fe>, x: Seq<Fe>, k: int, c: int)
    requires
        0 <= k <= u.len(),
        k <= v.len(),
        k <= w.len(),
        forall|j: int|
            0 <= j < k ==> (#[trigger] w[j]).val() == (u[j].val() - c * v[j].val()) % modulus(),
    ensures
        dot(w, x, k) % modulus() == (dot(u, x, k) - c * dot(v, x, k)) % modulus(),
    decreases k,
{
    let p = modulus();
    if k > 0 {
        lemma_dot_combined(u, v, w, x, k - 1, c);
        let a = dot(w, x, k - 1);
        let du = dot(u, x, k - 1);
        let dv = dot(v, x, k - 1);
        let uk = u[k - 1].val();
        let vk = v[k - 1].val();
        let xk = x[k - 1].val();
        vstd::arithmetic::div_mod::lemma_mul_mod_noop_left(uk - c * vk, xk, p);
        lemma_add_cong(a, du - c * dv, w[k - 1].val() * xk, (uk - c * vk) * xk, p);
        assert((du - c * dv) + (uk - c * vk) * xk == (du + uk * xk) - c * (dv + vk * xk))
            by (nonlinear_arith);
    }
}

/// A dot product only reads the first `k` entries.
proof fn lemma_dot_prefix(u: Seq<Fe>, v: Seq<Fe>, x: Seq<Fe>, k: int)
    requires
        0 <= k <= u.len(),
        k <= v.len(),
        forall|j: int| 0 <= j < k ==> u[j] == v[j],
    ensures
        dot(u, x, k) == dot(v, x, k),
    decreases k,
{
    if k > 0 {
        lemma_dot_prefix(u, v, x, k - 1);
    }
}

/// The sum of `u[j] * x[j]` over `lo <= j < hi`.
pub open spec fn tail(u: Seq<Fe>, x: Seq<Fe>, lo: int, hi: int) -> int
    decreases hi - lo,
{
    if hi <= lo {
        0
    } else {
        u[lo].val() * x[lo].val() + tail(u, x, lo + 1, hi)
    }
}

/// A dot product splits at any point into a head and a tail.
proof fn lemma_dot_split(u: Seq<Fe>, x: Seq<Fe>, lo: int, hi: int)
    requires
        0 <= lo <= hi,
    ensures
        dot(u, x, hi) == dot(u, x, lo) + tail(u, x, lo, hi),
    decreases hi - lo,
{
    if lo < hi {
        lemma_dot_split(u, x, lo, hi - 1);
        lemma_tail_last(u, x, lo, hi);
    }
}

proof fn lemma_tail_last(u: Seq<Fe>, x: Seq<Fe>, lo: int, hi: int)
    requires
        lo < hi,
    ensures
        tail(u, x, lo, hi) == tail(u, x, lo, hi - 1) + u[hi - 1].val() * x[hi - 1].val(),
    decreases hi - lo,
{
    if lo < hi - 1 {
        lemma_tail_last(u, x, lo + 1, hi);
    } else {
        assert(tail(u, x, lo + 1, hi) == 0);
        assert(tail(u, x, lo, hi - 1) == 0);
    }
}

/// A dot product over entries that are all zero is zero.
proof fn lemma_dot_zero(u: Seq<Fe>, x: Seq<Fe>, k: int)
    requires
        0 <= k <= u.len(),
        forall|j: int| 0 <= j < k ==> (#[trigger] u[j]).val() == 0,
    ensures
        dot(u, x, k) == 0,
    decreases k,
{
    if k > 0 {
        lemma_dot_zero(u, x, k - 1);
    }
}

/// Every row of the augmented system `m` (coefficients, then the right-hand side in
/// column `n`) holds for `x`.
pub open spec fn solves(m: Seq<Seq<Fe>>, x: Seq<Fe>, n: int) -> bool {
    forall|y: int| 0 <= y < m.len() ==> dot(#[trigger] m[y], x, n) % modulus() == m[y][n].val()
}

/// The views of the rows of `m`.
pub open spec fn rows_of(m: Seq<Vec<Fe>>) -> Seq<Seq<Fe>> {
    Seq::new(m.len(), |i: int| m[i]@)
}

/// The sum of `u[j] * v[j]` over `j < k`, for a vector `v` of integers.
pub open spec fn dot_vals(u: Seq<Fe>, v: Seq<int>, k: int) -> int
    decreases k,
{
    if k <= 0 {
        0
    } else {
        dot_vals(u, v, k - 1) + u[k - 1].val() * v[k - 1]
    }
}

/// The sum of `u[j] * v[j]` over `lo <= j < hi`, for a vector `v` of integers.
pub open spec fn tail_vals(u: Seq<Fe>, v: Seq<int>, lo: int, hi: int) -> int
    decreases hi - lo,
{
    if hi <= lo {
        0
    } else {
        tail_vals(u, v, lo, hi - 1) + u[hi - 1].val() * v[hi - 1]
    }
}

/// Every row of `m` has a zero dot product with `z` over its first `n` entries.
pub open spec fn kills(m: Seq<Seq<Fe>>, z: Seq<int>, n: int) -> bool {
    forall|y: int| 0 <= y < m.len() ==> #[trigger] dot_vals(m[y], z, n) % modulus() == 0
}

/// Every entry of `z` is zero in the field.
pub open spec fn is_zero_vector(z: Seq<int>) -> bool {
    forall|j: int| 0 <= j < z.len() ==> #[trigger] z[j] % modulus() == 0
}

/// The square matrix `a` is nonsingular: only the zero vector has a zero product with it.
pub open spec fn nonsingular(a: Seq<Vec<Fe>>) -> bool {
    forall|z: Seq<int>|
        z.len() == a.len() && #[trigger] kills(rows_of(a), z, a.len() as int) ==> is_zero_vector(z)
}

proof fn lemma_vals_scaled(u: Seq<Fe>, w: Seq<Fe>, x: Seq<int>, k: int, s: int)
    requires
        0 <= k <= u.len(),
        k <= w.len(),
        forall|j: int| 0 <= j < k ==> (#[trigger] w[j]).val() == (u[j].val() * s) % modulus(),
    ensures
        dot_vals(w, x, k) % modulus() == (s * dot_vals(u, x, k)) % modulus(),
    decreases k,
{
    let p = modulus();
    if k > 0 {
        lemma_vals_scaled(u, w, x, k - 1, s);
        let a = dot_vals(w, x, k - 1);
        let b = dot_vals(u, x, k - 1);
        let uk = u[k - 1].val();
        let xk = x[k - 1];
        vstd::arithmetic::div_mod::lemma_mul_mod_noop_left(uk * s, xk, p);
        assert((uk * s * xk) == s * uk * xk) by (nonlinear_arith);
        lemma_add_cong(a, s * b, w[k - 1].val() * xk, s * uk * xk, p);
        assert(s * b + s * uk * xk == s * (b + uk * xk)) by (nonlinear_arith);
    }
}

proof fn lemma_vals_combined(u: Seq<Fe>, v: Seq<Fe>, w: Seq<Fe>, x: Seq<int>, k: int, c: int)
    requires
        0 <= k <= u.len(),
        k <= v.len(),
        k <= w.len(),
        forall|j: int|
            0 <= j < k ==> (#[trigger] w[j]).val() == (u[j].val() - c * v[j].val()) % modulus(),
    ensures
        dot_vals(w, x, k) % modulus() == (dot_vals(u, x, k) - c * dot_vals(v, x, k)) % modulus(),
    decreases k,
{
    let p = modulus();
    if k > 0 {
        lemma_vals_combined(u, v, w, x, k - 1, c);
        let a = dot_vals(w, x, k - 1);
        let du = dot_vals(u, x, k - 1);
        let dv = dot_vals(v, x, k - 1);
        let uk = u[k - 1].val();
        let vk = v[k - 1].val();
        let xk = x[k - 1];
        vstd::arithmetic::div_mod::lemma_mul_mod_noop_left(uk - c * vk, xk, p);
        lemma_add_cong(a, du - c * dv, w[k - 1].val() * xk, (uk - c * vk) * xk, p);
        assert((du - c * dv) + (uk - c * vk) * xk == (du + uk * xk) - c * (dv + vk * xk))
            by (nonlinear_arith);
    }
}

proof fn lemma_vals_prefix(u: Seq<Fe>, v: Seq<Fe>, x: Seq<int>, k: int)
    requires
        0 <= k <= u.len(),
        k <= v.len(),
        forall|j: int| 0 <= j < k ==> u[j] == v[j],
    ensures
        dot_vals(u, x, k) == dot_vals(v, x, k),
    decreases k,
{
    if k > 0 {
        lemma_vals_prefix(u, v, x, k - 1);
    }
}

proof fn lemma_vals_split(u: Seq<Fe>, x: Seq<int>, lo: int, hi: int)
    requires
        0 <= lo <= hi,
    ensures
        dot_vals(u, x, hi) == dot_vals(u, x, lo) + tail_vals(u, x, lo, hi),
    decreases hi - lo,
{
    if lo < hi {
        lemma_vals_split(u, x, lo, hi - 1);
    }
}

/// Terms whose entries of `x` are zero, or whose entries of `u` are zero, add up to zero.
proof fn lemma_tail_vals_zero(u: Seq<Fe>, x: Seq<int>, lo: int, hi: int)
    requires
        forall|j: int| lo <= j < hi ==> #[trigger] x[j] % modulus() == 0 || u[j].val() == 0,
    ensures
        tail_vals(u, x, lo, hi) % modulus() == 0,
    decreases hi - lo,
{
    let p = modulus();
    if lo < hi {
        lemma_tail_vals_zero(u, x, lo, hi - 1);
        let t = tail_vals(u, x, lo, hi - 1);
        let a = u[hi - 1].val();
        let b = x[hi - 1];
        vstd::arithmetic::div_mod::lemma_mul_mod_noop_right(a, b, p);
        if b % p == 0 {
            assert(a * (b % p) == 0);
        } else {
            assert(a * b == 0);
        }
        vstd::arithmetic::div_mod::lemma_small_mod(0, p as nat);
        lemma_add_cong(t, 0, a * b, 0, p);
    } else {
        vstd::arithmetic::div_mod::lemma_small_mod(0, modulus() as nat);
    }
}

proof fn lemma_tail_vals_frame(u: Seq<Fe>, x: Seq<int>, x2: Seq<int>, lo: int, hi: int)
    requires
        forall|j: int| lo <= j < hi ==> x[j] == x2[j],
    ensures
        tail_vals(u, x, lo, hi) == tail_vals(u, x2, lo, hi),
    decreases hi - lo,
{
    if lo < hi {
        lemma_tail_vals_frame(u, x, x2, lo, hi - 1);
    }
}

/// The rows of an upper triangular matrix with unit diagonal have a zero product only with
/// the zero vector, from row `y` on.
proof fn lemma_triangular_kernel(e: Seq<Seq<Fe>>, z: Seq<int>, n: int, y: int)
    requires
        0 <= y <= n,
        e.len() == n,
        z.len() == n,
        forall|i: int| 0 <= i < n ==> (#[trigger] e[i]).len() > n,
        forall|i: int, j: int| 0 <= i < n && 0 <= j < i ==> (#[trigger] e[i][j]).val() == 0,
        forall|i: int| 0 <= i < n ==> (#[trigger] e[i][i]).val() == 1,
        kills(e, z, n),
    ensures
        forall|j: int| y <= j < n ==> #[trigger] z[j] % modulus() == 0,
    decreases n - y,
{
    let p = modulus();
    if y < n {
        lemma_triangular_kernel(e, z, n, y + 1);
        let u = e[y];
        lemma_vals_split(u, z, y + 1, n);
        lemma_vals_split(u, z, y, y + 1);
        assert(tail_vals(u, z, y, y + 1) == u[y].val() * z[y]);
        assert(u[y].val() * z[y] == z[y]);
        assert forall|j: int| 0 <= j < y implies (#[trigger] u[j]).val() == 0 by {}
        lemma_vals_head_zero(u, z, y);
        lemma_tail_vals_zero(u, z, y + 1, n);
        assert(dot_vals(e[y], z, n) % p == 0);
        vstd::arithmetic::div_mod::lemma_small_mod(0, p as nat);
        lemma_add_cong(z[y], z[y], tail_vals(u, z, y + 1, n), 0, p);
    }
}

proof fn lemma_vals_head_zero(u: Seq<Fe>, x: Seq<int>, k: int)
    requires
        0 <= k <= u.len(),
        forall|j: int| 0 <= j < k ==> (#[trigger] u[j]).val() == 0,
    ensures
        dot_vals(u, x, k) == 0,
    decreases k,
{
    if k > 0 {
        lemma_vals_head_zero(u, x, k - 1);
    }
}

/// An upper triangular matrix with unit diagonal in its first `r` columns and rows, whose
/// rows from `r` on vanish up to column `r`, has a nonzero vector in its kernel: one with
/// a one at `r` and zeros after it. This builds its entries from `j` on.
proof fn lemma_kernel_vector(e: Seq<Seq<Fe>>, n: int, r: int, j: int) -> (z: Seq<int>)
    requires
        0 <= j <= r < n,
        e.len() == n,
        forall|i: int| 0 <= i < n ==> (#[trigger] e[i]).len() > n,
        forall|i: int, k: int| 0 <= i < n && 0 <= k < i && k <= r ==> (#[trigger] e[i][k]).val() == 0,
        forall|i: int| 0 <= i < r ==> (#[trigger] e[i][i]).val() == 1,
        forall|i: int| r <= i < n ==> (#[trigger] e[i][r]).val() == 0,
    ensures
        z.len() == n,
        z[r] == 1,
        forall|k: int| r < k < n ==> #[trigger] z[k] == 0,
        forall|y: int| j <= y < r ==> #[trigger] dot_vals(e[y], z, n) % modulus() == 0,
    decreases r - j,
{
    let p = modulus();
    if j == r {
        Seq::new(n as nat, |k: int| if k == r { 1int } else { 0int })
    } else {
        let z0 = lemma_kernel_vector(e, n, r, j + 1);
        let u = e[j];
        let t = tail_vals(u, z0, j + 1, n);
        let v = (0 - t) % p;
        let z = z0.update(j, v);
        assert forall|y: int| j <= y < r implies #[trigger] dot_vals(e[y], z, n) % modulus() == 0 by {
            let w = e[y];
            lemma_vals_split(w, z, y + 1, n);
            lemma_vals_split(w, z, y, y + 1);
            lemma_vals_head_zero(w, z, y);
            assert(tail_vals(w, z, y, y + 1) == w[y].val() * z[y]);
            if y == j {
                lemma_tail_vals_frame(w, z, z0, y + 1, n);
                assert(w[y].val() * z[y] == v);
                vstd::arithmetic::div_mod::lemma_mod_twice(0 - t, p);
                lemma_add_cong(v, 0 - t, t, t, p);
                vstd::arithmetic::div_mod::lemma_small_mod(0, p as nat);
            } else {
                lemma_vals_split(w, z0, y + 1, n);
                lemma_vals_split(w, z0, y, y + 1);
                lemma_vals_head_zero(w, z0, y);
                lemma_tail_vals_frame(w, z, z0, y + 1, n);
                assert(z[y] == z0[y]);
            }
        }
        z
    }
}

/// Rows that vanish up to column `r` have a zero product with a vector that vanishes after
/// `r`.
proof fn lemma_lower_rows_vanish(u: Seq<Fe>, z: Seq<int>, n: int, r: int)
    requires
        0 <= r < n,
        u.len() > n,
        z.len() == n,
        forall|k: int| 0 <= k <= r ==> (#[trigger] u[k]).val() == 0,
        forall|k: int| r < k < n ==> #[trigger] z[k] == 0,
    ensures
        dot_vals(u, z, n) % modulus() == 0,
{
    lemma_vals_split(u, z, 0, n);
    assert(dot_vals(u, z, 0) == 0);
    assert forall|j: int| 0 <= j < n implies #[trigger] z[j] % modulus() == 0 || u[j].val() == 0 by {
        if j > r {
            assert(z[j] == 0);
            vstd::arithmetic::div_mod::lemma_small_mod(0, modulus() as nat);
        }
    }
    lemma_tail_vals_zero(u, z, 0, n);
}

/// The systems `m` and `i` have the same vectors with a zero product.
pub open spec fn same_kernel(m: Seq<Seq<Fe>>, i: Seq<Seq<Fe>>, n: int) -> bool {
    forall|z: Seq<int>| z.len() == n ==> #[trigger] kills(m, z, n) == kills(i, z, n)
}

proof fn lemma_scale_kills(u: Seq<Fe>, w: Seq<Fe>, z: Seq<int>, n: int, c: int, inv: int)
    requires
        0 <= n <= u.len(),
        n <= w.len(),
        forall|j: int| 0 <= j < n ==> (#[trigger] w[j]).val() == (u[j].val() * inv) % modulus(),
        (c * inv) % modulus() == 1,
    ensures
        (dot_vals(w, z, n) % modulus() == 0) == (dot_vals(u, z, n) % modulus() == 0),
{
    let p = modulus();
    let d = dot_vals(u, z, n);
    lemma_vals_scaled(u, w, z, n, inv);
    vstd::arithmetic::div_mod::lemma_small_mod(0, p as nat);
    assert(inv * 0 == 0);
    if dot_vals(w, z, n) % p == 0 {
        lemma_cancel(c, inv, d, 0);
    }
    if d % p == 0 {
        lemma_mul_cong(inv, d, 0, p);
    }
}

proof fn lemma_elim_kills(u: Seq<Fe>, v: Seq<Fe>, w: Seq<Fe>, z: Seq<int>, n: int, c: int)
    requires
        0 <= n <= u.len(),
        n <= v.len(),
        n <= w.len(),
        forall|j: int|
            0 <= j < n ==> (#[trigger] w[j]).val() == (u[j].val() - c * v[j].val()) % modulus(),
        dot_vals(v, z, n) % modulus() == 0,
    ensures
        (dot_vals(w, z, n) % modulus() == 0) == (dot_vals(u, z, n) % modulus() == 0),
{
    let p = modulus();
    let du = dot_vals(u, z, n);
    let dv = dot_vals(v, z, n);
    lemma_vals_combined(u, v, w, z, n, c);
    vstd::arithmetic::div_mod::lemma_small_mod(0, p as nat);
    lemma_mul_cong(c, dv, 0, p);
    assert(c * 0 == 0);
    lemma_add_cong(du - c * dv, du - c * dv, c * dv, 0, p);
    lemma_sub_cong(du, du, c * dv, 0, p);
}

proof fn lemma_kills_prefix(init: Seq<Seq<Fe>>, a: Seq<Vec<Fe>>, z: Seq<int>, n: int)
    requires
        init.len() == a.len() == n,
        forall|y: int| 0 <= y < n ==> (#[trigger] a[y]@).len() == n,
        forall|y: int| 0 <= y < n ==> (#[trigger] init[y]).len() == n + 1,
        forall|y: int, j: int| 0 <= y < n && 0 <= j < n ==> #[trigger] init[y][j] == a[y]@[j],
    ensures
        kills(init, z, n) == kills(rows_of(a), z, n),
{
    assert forall|y: int| 0 <= y < n implies #[trigger] dot_vals(init[y], z, n) == dot_vals(
        rows_of(a)[y],
        z,
        n,
    ) by {
        lemma_vals_prefix(init[y], rows_of(a)[y], z, n);
    }
    if kills(init, z, n) {
        assert forall|y: int| 0 <= y < n implies #[trigger] dot_vals(rows_of(a)[y], z, n) % modulus()
            == 0 by {
            assert(dot_vals(init[y], z, n) == dot_vals(rows_of(a)[y], z, n));
        }
    }
    if kills(rows_of(a), z, n) {
        assert forall|y: int| 0 <= y < n implies #[trigger] dot_vals(init[y], z, n) % modulus() == 0 by {
            assert(dot_vals(init[y], z, n) == dot_vals(rows_of(a)[y], z, n));
        }
    }
}

proof fn lemma_row_change_kills(u: Seq<Seq<Fe>>, w: Seq<Seq<Fe>>, y: int, z: Seq<int>, n: int)
    requires
        u.len() == w.len(),
        0 <= y < u.len(),
        forall|i: int| 0 <= i < u.len() && i != y ==> u[i] == w[i],
        (dot_vals(w[y], z, n) % modulus() == 0) == (dot_vals(u[y], z, n) % modulus() == 0),
    ensures
        kills(w, z, n) == kills(u, z, n),
{
    if kills(w, z, n) {
        assert forall|i: int| 0 <= i < u.len() implies #[trigger] dot_vals(u[i], z, n) % modulus()
            == 0 by {
            assert(dot_vals(w[i], z, n) % modulus() == 0);
        }
    }
    if kills(u, z, n) {
        assert forall|i: int| 0 <= i < w.len() implies #[trigger] dot_vals(w[i], z, n) % modulus()
            == 0 by {
            assert(dot_vals(u[i], z, n) % modulus() == 0);
        }
    }
}

proof fn lemma_swap_kills(u: Seq<Seq<Fe>>, w: Seq<Seq<Fe>>, a: int, b: int, z: Seq<int>, n: int)
    requires
        u.len() == w.len(),
        0 <= a < u.len(),
        0 <= b < u.len(),
        forall|i: int| 0 <= i < u.len() && i != a && i != b ==> u[i] == w[i],
        w[a] == u[b],
        w[b] == u[a],
    ensures
        kills(w, z, n) == kills(u, z, n),
{
    if kills(w, z, n) {
        assert forall|i: int| 0 <= i < u.len() implies #[trigger] dot_vals(u[i], z, n) % modulus()
            == 0 by {
            if i == a {
                assert(dot_vals(w[b], z, n) % modulus() == 0);
            } else if i == b {
                assert(dot_vals(w[a], z, n) % modulus() == 0);
            } else {
                assert(dot_vals(w[i], z, n) % modulus() == 0);
            }
        }
    }
    if kills(u, z, n) {
        assert forall|i: int| 0 <= i < w.len() implies #[trigger] dot_vals(w[i], z, n) % modulus()
            == 0 by {
            if i == a {
                assert(dot_vals(u[b], z, n) % modulus() == 0);
            } else if i == b {
                assert(dot_vals(u[a], z, n) % modulus() == 0);
            } else {
                assert(dot_vals(u[i], z, n) % modulus() == 0);
            }
        }
    }
}

/// Replaces entry `x` of row `y` of `m` by `v`.
fn set_entry(m: &mut Vec<Vec<Fe>>, y: usize, x: usize, v: Fe)
    requires
        y < old(m)@.len(),
        x < old(m)@[y as int]@.len(),
    ensures
        final(m)@.len() == old(m)@.len(),
        forall|i: int| 0 <= i < old(m)@.len() && i != y ==> final(m)@[i] == old(m)@[i],
        final(m)@[y as int]@ == old(m)@[y as int]@.update(x as int, v),
{
    let mut row = m[y].clone();
    assert(row@ =~= old(m)@[y as int]@);
    row.set(x, v);
    m.set(y, row);
}

/// Exchanges rows `i` and `j` of `m`.
fn swap_rows(m: &mut Vec<Vec<Fe>>, i: usize, j: usize)
    requires
        i < old(m)@.len(),
        j < old(m)@.len(),
    ensures
        final(m)@.len() == old(m)@.len(),
        forall|k: int|
            0 <= k < old(m)@.len() && k != i && k != j ==> final(m)@[k] == old(m)@[k],
        final(m)@[i as int]@ == old(m)@[j as int]@,
        final(m)@[j as int]@ == old(m)@[i as int]@,
{
    let a = m[i].clone();
    let b = m[j].clone();
    assert(a@ =~= old(m)@[i as int]@);
    assert(b@ =~= old(m)@[j as int]@);
    m.set(i, b);
    m.set(j, a);
}

proof fn lemma_cancel(c: int, inv: int, d: int, v: int)
    requires
        (c * inv) % modulus() == 1,
        (inv * d) % modulus() == (inv * v) % modulus(),
    ensures
        d % modulus() == v % modulus(),
{
    let p = modulus();
    lemma_mul_cong(c, inv * d, inv * v, p);
    assert(c * (inv * d) == (c * inv) * d) by (nonlinear_arith);
    assert(c * (inv * v) == (c * inv) * v) by (nonlinear_arith);
    vstd::arithmetic::div_mod::lemma_mul_mod_noop_left(c * inv, d, p);
    vstd::arithmetic::div_mod::lemma_mul_mod_noop_left(c * inv, v, p);
}

proof fn lemma_small(v: int)
    requires
        0 <= v < modulus(),
    ensures
        v % modulus() == v,
{
    vstd::arithmetic::div_mod::lemma_small_mod(v as nat, modulus() as nat);
}

/// `row` multiplied by `inv`, whose product with the entry `r` of `row` is one; the
/// entries before `r` are zero and stay so.
fn scaled_row(row: &Vec<Fe>, r: usize, inv: &Fe) -> (w: Vec<Fe>)
    requires
        r < row@.len(),
        vec_wf(row@),
        inv.wf(),
        forall|j: int| 0 <= j < r ==> (#[trigger] row@[j]).val() == 0,
        (row@[r as int].val() * inv.val()) % modulus() == 1,
    ensures
        w@.len() == row@.len(),
        vec_wf(w@),
        w@[r as int].val() == 1,
        forall|j: int| 0 <= j < r ==> (#[trigger] w@[j]).val() == 0,
        forall|j: int|
            0 <= j < w@.len() ==> (#[trigger] w@[j]).val() == (row@[j].val() * inv.val())
                % modulus(),
{
    let mut w: Vec<Fe> = Vec::new();
    let mut j: usize = 0;
    while j < row.len()
        invariant
            j <= row@.len(),
            r < row@.len(),
            vec_wf(row@),
            inv.wf(),
            forall|k: int| 0 <= k < r ==> (#[trigger] row@[k]).val() == 0,
            (row@[r as int].val() * inv.val()) % modulus() == 1,
            w@.len() == j,
            vec_wf(w@),
            j > r ==> w@[r as int].val() == 1,
            forall|k: int| 0 <= k < j && k < r ==> (#[trigger] w@[k]).val() == 0,
            forall|k: int|
                0 <= k < j ==> (#[trigger] w@[k]).val() == (row@[k].val() * inv.val())
                    % modulus(),
        decreases row@.len() - j,
    {
        if j < r {
            proof {
                assert(row@[j as int].val() * inv.val() == 0);
                lemma_small(0);
            }
            w.push(row[j]);
        } else if j == r {
            w.push(Fe::one());
        } else {
            w.push(fe_mul(&row[j], inv));
        }
        j = j + 1;
    }
    w
}

/// `row` minus its entry `r` times `pivot`, whose entry `r` is one; the entries before
/// `r` are zero in both and stay so, and the entry `r` becomes zero.
fn eliminated_row(row: &Vec<Fe>, pivot: &Vec<Fe>, r: usize) -> (w: Vec<Fe>)
    requires
        row@.len() == pivot@.len(),
        r < row@.len(),
        vec_wf(row@),
        vec_wf(pivot@),
        forall|j: int| 0 <= j < r ==> (#[trigger] row@[j]).val() == 0,
        forall|j: int| 0 <= j < r ==> (#[trigger] pivot@[j]).val() == 0,
        pivot@[r as int].val() == 1,
    ensures
        w@.len() == row@.len(),
        vec_wf(w@),
        forall|j: int| 0 <= j <= r ==> (#[trigger] w@[j]).val() == 0,
        forall|j: int|
            0 <= j < w@.len() ==> (#[trigger] w@[j]).val() == (row@[j].val() - row@[r as int].val()
                * pivot@[j].val()) % modulus(),
{
    let c = row[r];
    let mut w: Vec<Fe> = Vec::new();
    let mut j: usize = 0;
    while j < row.len()
        invariant
            j <= row@.len() == pivot@.len(),
            r < row@.len(),
            c == row@[r as int],
            vec_wf(row@),
            vec_wf(pivot@),
            forall|k: int| 0 <= k < r ==> (#[trigger] row@[k]).val() == 0,
            forall|k: int| 0 <= k < r ==> (#[trigger] pivot@[k]).val() == 0,
            pivot@[r as int].val() == 1,
            w@.len() == j,
            vec_wf(w@),
            forall|k: int| 0 <= k < j && k <= r ==> (#[trigger] w@[k]).val() == 0,
            forall|k: int|
                0 <= k < j ==> (#[trigger] w@[k]).val() == (row@[k].val() - c.val()
                    * pivot@[k].val()) % modulus(),
        decreases row@.len() - j,
    {
        if j < r {
            proof {
                assert(row@[j as int].val() - c.val() * pivot@[j as int].val() == 0);
                lemma_small(0);
            }
            w.push(row[j]);
        } else if j == r {
            proof {
                assert(row@[j as int].val() - c.val() * pivot@[j as int].val() == 0);
                lemma_small(0);
            }
            w.push(Fe::zero());
        } else {
            let t = fe_mul(&c, &pivot[j]);
            proof {
                let a = row@[j as int].val();
                let b = c.val() * pivot@[j as int].val();
                assert(row@[j as int].wf());
                lemma_val_nonneg(row@[j as int]);
                lemma_small(a);
                vstd::arithmetic::div_mod::lemma_sub_mod_noop(a, b, modulus());
            }
            w.push(fe_sub(&row[j], &t));
        }
        j = j + 1;
    }
    w
}

proof fn lemma_tail_frame(u: Seq<Fe>, x: Seq<Fe>, x2: Seq<Fe>, lo: int, hi: int)
    requires
        forall|j: int| lo <= j < hi ==> x[j] == x2[j],
    ensures
        tail(u, x, lo, hi) == tail(u, x2, lo, hi),
    decreases hi - lo,
{
    if lo < hi {
        lemma_tail_frame(u, x, x2, lo + 1, hi);
    }
}

proof fn lemma_dot_difference(u: Seq<Fe>, s: Seq<Fe>, x: Seq<Fe>, k: int)
    requires
        0 <= k <= s.len() == x.len(),
    ensures
        dot_vals(u, Seq::new(s.len(), |i: int| s[i].val() - x[i].val()), k) == dot(u, s, k) - dot(
            u,
            x,
            k,
        ),
    decreases k,
{
    if k > 0 {
        lemma_dot_difference(u, s, x, k - 1);
        let a = u[k - 1].val();
        assert(a * (s[k - 1].val() - x[k - 1].val()) == a * s[k - 1].val() - a * x[k - 1].val())
            by (nonlinear_arith);
    }
}

/// Solving a nonsingular system whose right-hand side is the product of `a` and `x` gives
/// back `x`: what `system_solution` returns on the result of `product_vector` is `x`.
pub proof fn lemma_round_trip(a: Seq<Vec<Fe>>, x: Seq<Fe>, b: Seq<Fe>, s: Seq<Fe>)
    requires
        nonsingular(a),
        rows_have_len(a, a.len() as int),
        x.len() == a.len(),
        s.len() == a.len(),
        vec_wf(x),
        vec_wf(s),
        b.len() == a.len(),
        forall|y: int|
            0 <= y < a.len() ==> (#[trigger] b[y]).val() == dot(a[y]@, x, x.len() as int) % modulus(),
        forall|y: int|
            0 <= y < a.len() ==> dot(#[trigger] a[y]@, s, a.len() as int) % modulus() == b[y].val(),
    ensures
        s == x,
{
    let n = a.len() as int;
    let p = modulus();
    let z = Seq::new(s.len(), |i: int| s[i].val() - x[i].val());
    assert forall|y: int| 0 <= y < rows_of(a).len() implies #[trigger] dot_vals(rows_of(a)[y], z, n)
        % p == 0 by {
        lemma_dot_difference(a[y]@, s, x, n);
        let ds = dot(a[y]@, s, n);
        let dx = dot(a[y]@, x, n);
        assert(ds % p == dx % p);
        lemma_sub_cong(ds, dx, dx, dx, p);
        vstd::arithmetic::div_mod::lemma_small_mod(0, p as nat);
    }
    assert(kills(rows_of(a), z, n));
    assert(is_zero_vector(z));
    assert forall|i: int| 0 <= i < n implies s[i] == x[i] by {
        assert(s[i].wf() && x[i].wf());
        lemma_val_nonneg(s[i]);
        lemma_val_nonneg(x[i]);
        assert(z[i] % p == 0);
        vstd::arithmetic::div_mod::lemma_small_mod(0, p as nat);
        lemma_add_cong(s[i].val() - x[i].val(), 0, x[i].val(), x[i].val(), p);
        vstd::arithmetic::div_mod::lemma_small_mod(s[i].val() as nat, p as nat);
        vstd::arithmetic::div_mod::lemma_small_mod(x[i].val() as nat, p as nat);
        crate::field::lemma_val_injective(s[i], x[i]);
    }
    assert(s =~= x);
}

/// Column `n` of the rows of `m`.
pub open spec fn last_column(m: Seq<Vec<Fe>>, n: int) -> Seq<Fe> {
    Seq::new(m.len(), |y: int| m[y]@[n])
}

/// Solves the linear system `a * x = b` for `x` by Gaussian elimination with row exchanges.
/// There is no result when `a` is empty or not square, when `b` is not as high as `a`, or
/// when `a` is singular. A result is a solution of the system.
pub fn system_solution(a: &[Vec<Fe>], b: &[Fe]) -> (r: Option<Vec<Fe>>)
    requires
        matrix_wf(a@),
        vec_wf(b@),
    ensures
        (a@.len() == 0 || b@.len() != a@.len() || !rows_have_len(a@, a@.len() as int))
            ==> r is None,
        (a@.len() > 0 && b@.len() == a@.len() && rows_have_len(a@, a@.len() as int)) ==> (r is Some
            <==> nonsingular(a@)),
        r matches Some(x) ==> {
            &&& x@.len() == a@.len()
            &&& vec_wf(x@)
            &&& forall|y: int|
                0 <= y < a@.len() ==> dot(#[trigger] a@[y]@, x@, a@.len() as int) % modulus()
                    == b@[y].val()
        },
{
    let n = a.len();
    if n == 0 {
        return None;
    }
    if b.len() != n {
        return None;
    }
    let mut m: Vec<Vec<Fe>> = Vec::new();
    let mut i: usize = 0;
    while i < n
        invariant
            i <= n == a@.len() == b@.len(),
            matrix_wf(a@),
            vec_wf(b@),
            forall|j: int| 0 <= j < i ==> (#[trigger] a@[j]@).len() == n,
            m@.len() == i,
            matrix_wf(m@),
            rows_have_len(m@, n + 1),
            forall|y: int| 0 <= y < i ==> (#[trigger] m@[y]@) == a@[y]@.push(b@[y]),
        decreases n - i,
    {
        if a[i].len() != n {
            assert((a@[i as int]@).len() != n);
            return None;
        }
        let mut row: Vec<Fe> = Vec::new();
        let mut x: usize = 0;
        while x < n
            invariant
                x <= n == a@.len(),
                i < n,
                (a@[i as int]@).len() == n,
                matrix_wf(a@),
                row@ == a@[i as int]@.subrange(0, x as int),
            decreases n - x,
        {
            row.push(a[i][x]);
            proof {
                assert(row@ =~= a@[i as int]@.subrange(0, x + 1));
            }
            x = x + 1;
        }
        row.push(b[i]);
        proof {
            assert(row@ =~= a@[i as int]@.push(b@[i as int]));
            assert(vec_wf(a@[i as int]@));
            assert(vec_wf(row@));
        }
        m.push(row);
        i = i + 1;
    }
    let ghost init = rows_of(m@);
    assert(forall|y: int| 0 <= y < n ==> init[y] == a@[y]@.push(b@[y]));
    let w = m[0].len();
    let mut r: usize = 0;
    while r < n
        invariant
            r <= n,
            w == n + 1,
            m@.len() == n,
            matrix_wf(m@),
            rows_have_len(m@, n + 1),
            init.len() == n,
            forall|y: int, j: int|
                0 <= y < r && 0 <= j < y ==> (#[trigger] m@[y]@[j]).val() == 0,
            forall|y: int| 0 <= y < r ==> (#[trigger] m@[y]@[y]).val() == 1,
            forall|y: int, j: int|
                r <= y < n && 0 <= j < r ==> (#[trigger] m@[y]@[j]).val() == 0,
            forall|x: Seq<Fe>| #[trigger] solves(rows_of(m@), x, n as int) ==> solves(init, x, n as int),
            same_kernel(rows_of(m@), init, n as int),
            n == a@.len(),
            forall|y: int| 0 <= y < n ==> (#[trigger] a@[y]@).len() == n,
            forall|y: int| 0 <= y < n ==> (#[trigger] init[y]).len() == n + 1,
            forall|y: int, j: int| 0 <= y < n && 0 <= j < n ==> #[trigger] init[y][j] == a@[y]@[j],
        decreases n - r,
    {
        if m[r][r].is_zero() {
            let mut p: usize = r + 1;
            while p < n && m[p][r].is_zero()
                invariant
                    r < p <= n,
                    m@.len() == n,
                    matrix_wf(m@),
                    rows_have_len(m@, n + 1),
                    forall|y: int| r <= y < p ==> (#[trigger] m@[y]@[r as int]).val() == 0,
                decreases n - p,
            {
                p = p + 1;
            }
            if p == n {
                proof {
                    let e = rows_of(m@);
                    let z = lemma_kernel_vector(e, n as int, r as int, 0);
                    assert forall|y: int| 0 <= y < n implies #[trigger] dot_vals(e[y], z, n as int)
                        % modulus() == 0 by {
                        if y >= r {
                            assert forall|k: int| 0 <= k <= r implies (#[trigger] e[y][k]).val() == 0 by {
                                if k < r {
                                    assert(m@[y]@[k] == e[y][k]);
                                }
                            }
                            lemma_lower_rows_vanish(e[y], z, n as int, r as int);
                        }
                    }
                    assert(kills(e, z, n as int));
                    lemma_kills_prefix(init, a@, z, n as int);
                    vstd::arithmetic::div_mod::lemma_small_mod(1, modulus() as nat);
                    assert(z[r as int] % modulus() == 1);
                    assert(kills(init, z, n as int));
                    assert(kills(rows_of(a@), z, n as int));
                    assert(!is_zero_vector(z));
                    assert(!nonsingular(a@));
                }
                return None;
            }
            let ghost before = m@;
            swap_rows(&mut m, r, p);
            proof {
                assert forall|x: Seq<Fe>| #[trigger] solves(rows_of(m@), x, n as int) implies solves(
                    init,
                    x,
                    n as int,
                ) by {
                    assert forall|y: int| 0 <= y < n implies dot(
                        #[trigger] rows_of(before)[y],
                        x,
                        n as int,
                    ) % modulus() == rows_of(before)[y][n as int].val() by {
                        if y == r {
                            assert(rows_of(before)[y] == rows_of(m@)[p as int]);
                        } else if y == p {
                            assert(rows_of(before)[y] == rows_of(m@)[r as int]);
                        } else {
                            assert(rows_of(before)[y] == rows_of(m@)[y]);
                        }
                    }
                    assert(solves(rows_of(before), x, n as int));
                }
                assert forall|z: Seq<int>| z.len() == n implies #[trigger] kills(rows_of(m@), z, n as int)
                    == kills(init, z, n as int) by {
                    lemma_swap_kills(rows_of(before), rows_of(m@), r as int, p as int, z, n as int);
                    assert(kills(rows_of(before), z, n as int) == kills(init, z, n as int));
                }
            }
        }
        let ghost before = m@;
        assert(vec_wf(m@[r as int]@));
        let inv = match fe_inverse(&m[r][r]) {
            Some(v) => v,
            None => return None,
        };
        let row = scaled_row(&m[r], r, &inv);
        m.set(r, row);
        proof {
            assert forall|z: Seq<int>| z.len() == n implies #[trigger] kills(rows_of(m@), z, n as int)
                == kills(init, z, n as int) by {
                assert(rows_of(m@)[r as int] == m@[r as int]@);
                assert(rows_of(before)[r as int] == before[r as int]@);
                assert((before[r as int]@[r as int].val() * inv.val()) % modulus() == 1);
                lemma_scale_kills(
                    before[r as int]@,
                    m@[r as int]@,
                    z,
                    n as int,
                    before[r as int]@[r as int].val(),
                    inv.val(),
                );
                assert forall|k: int| 0 <= k < n && k != r implies rows_of(before)[k] == rows_of(m@)[k] by {}
                lemma_row_change_kills(rows_of(before), rows_of(m@), r as int, z, n as int);
                assert(kills(rows_of(before), z, n as int) == kills(init, z, n as int));
            }
        }
        proof {
            assert forall|x: Seq<Fe>| #[trigger] solves(rows_of(m@), x, n as int) implies solves(
                init,
                x,
                n as int,
            ) by {
                assert forall|y: int| 0 <= y < n implies dot(
                    #[trigger] rows_of(before)[y],
                    x,
                    n as int,
                ) % modulus() == rows_of(before)[y][n as int].val() by {
                    if y == r {
                        let old_row = before[y]@;
                        let new_row = m@[y]@;
                        assert(rows_of(m@)[y] == new_row);
                        lemma_dot_scaled(old_row, new_row, x, n as int, inv.val());
                        let d = dot(old_row, x, n as int);
                        let v = old_row[n as int].val();
                        assert(old_row[n as int].wf());
                        lemma_val_nonneg(old_row[n as int]);
                        assert((inv.val() * d) % modulus() == (inv.val() * v) % modulus()) by {
                            assert(v * inv.val() == inv.val() * v) by (nonlinear_arith);
                        }
                        assert(old_row[r as int].val() * inv.val() == inv.val() * old_row[r as int].val()) by (nonlinear_arith);
                        lemma_cancel(old_row[r as int].val(), inv.val(), d, v);
                        lemma_small(v);
                    } else {
                        assert(rows_of(before)[y] == rows_of(m@)[y]);
                    }
                }
                assert(solves(rows_of(before), x, n as int));
            }
        }
        let mut y: usize = r + 1;
        while y < n
            invariant
                r < y <= n,
                w == n + 1,
                m@.len() == n,
                matrix_wf(m@),
                rows_have_len(m@, n + 1),
                init.len() == n,
                forall|yy: int, j: int|
                    0 <= yy < r && 0 <= j < yy ==> (#[trigger] m@[yy]@[j]).val() == 0,
                forall|yy: int| 0 <= yy < r ==> (#[trigger] m@[yy]@[yy]).val() == 1,
                m@[r as int]@[r as int].val() == 1,
                forall|j: int| 0 <= j < r ==> (#[trigger] m@[r as int]@[j]).val() == 0,
                forall|yy: int, j: int|
                    r < yy < y && 0 <= j <= r ==> (#[trigger] m@[yy]@[j]).val() == 0,
                forall|yy: int, j: int|
                    y <= yy < n && 0 <= j < r ==> (#[trigger] m@[yy]@[j]).val() == 0,
                forall|x: Seq<Fe>| #[trigger] solves(rows_of(m@), x, n as int) ==> solves(init, x, n as int),
                same_kernel(rows_of(m@), init, n as int),
            decreases n - y,
        {
            let ghost before = m@;
            assert(vec_wf(m@[y as int]@));
            assert(vec_wf(m@[r as int]@));
            let row = eliminated_row(&m[y], &m[r], r);
            m.set(y, row);
            proof {
                assert forall|z: Seq<int>| z.len() == n implies #[trigger] kills(rows_of(m@), z, n as int)
                    == kills(init, z, n as int) by {
                    let u = rows_of(before);
                    let w = rows_of(m@);
                    assert(u[r as int] == w[r as int]);
                    assert(w[y as int] == m@[y as int]@);
                    assert(u[y as int] == before[y as int]@);
                    assert forall|k: int| 0 <= k < n && k != y implies u[k] == w[k] by {}
                    if kills(w, z, n as int) || kills(u, z, n as int) {
                        if kills(w, z, n as int) {
                            assert(dot_vals(w[r as int], z, n as int) % modulus() == 0);
                        } else {
                            assert(dot_vals(u[r as int], z, n as int) % modulus() == 0);
                        }
                        lemma_elim_kills(
                            u[y as int],
                            u[r as int],
                            w[y as int],
                            z,
                            n as int,
                            before[y as int]@[r as int].val(),
                        );
                        lemma_row_change_kills(u, w, y as int, z, n as int);
                    }
                    assert(kills(u, z, n as int) == kills(init, z, n as int));
                }
            }
            proof {
                assert forall|x: Seq<Fe>| #[trigger] solves(rows_of(m@), x, n as int) implies solves(
                    init,
                    x,
                    n as int,
                ) by {
                    assert forall|yy: int| 0 <= yy < n implies dot(
                        #[trigger] rows_of(before)[yy],
                        x,
                        n as int,
                    ) % modulus() == rows_of(before)[yy][n as int].val() by {
                        if yy == y {
                            let old_row = before[yy]@;
                            let piv = before[r as int]@;
                            let new_row = m@[yy]@;
                            let c = old_row[r as int].val();
                            assert(rows_of(m@)[yy] == new_row);
                            assert(rows_of(m@)[r as int] == piv);
                            lemma_dot_combined(old_row, piv, new_row, x, n as int, c);
                            let dy = dot(old_row, x, n as int);
                            let dp = dot(piv, x, n as int);
                            let vy = old_row[n as int].val();
                            let vp = piv[n as int].val();
                            assert(dp % modulus() == vp);
                            assert(old_row[n as int].wf());
                            assert(piv[n as int].wf());
                            lemma_val_nonneg(old_row[n as int]);
                            lemma_val_nonneg(piv[n as int]);
                            lemma_small(vp);
                            lemma_small(vy);
                            lemma_mul_cong(c, dp, vp, modulus());
                            lemma_add_cong(dy - c * dp, vy - c * vp, c * dp, c * vp, modulus());
                        } else {
                            assert(rows_of(before)[yy] == rows_of(m@)[yy]);
                        }
                    }
                    assert(solves(rows_of(before), x, n as int));
                }
            }
            y = y + 1;
        }
        r = r + 1;
    }
    let ghost echelon = rows_of(m@);
    proof {
        assert forall|z: Seq<int>|
            z.len() == a@.len() && #[trigger] kills(rows_of(a@), z, a@.len() as int) implies is_zero_vector(
            z,
        ) by {
            lemma_kills_prefix(init, a@, z, n as int);
            assert(kills(echelon, z, n as int));
            assert forall|i: int| 0 <= i < n implies (#[trigger] echelon[i]).len() > n by {
                assert(echelon[i] == m@[i]@);
            }
            assert forall|i: int, j: int| 0 <= i < n && 0 <= j < i implies (#[trigger] echelon[i][j]).val()
                == 0 by {
                assert(echelon[i][j] == m@[i]@[j]);
            }
            assert forall|i: int| 0 <= i < n implies (#[trigger] echelon[i][i]).val() == 1 by {
                assert(echelon[i][i] == m@[i]@[i]);
            }
            lemma_triangular_kernel(echelon, z, n as int, 0);
        }
        assert(nonsingular(a@));
    }
    proof {
        assert forall|y: int|
            0 <= y < n implies (#[trigger] m@[y]@[n as int]).val() == (echelon[y][n as int].val()
                - tail(echelon[y], last_column(m@, n as int), (if y > n - 1 { y } else { n - 1 }) + 1, n as int))
                % modulus() by {
            assert(vec_wf(m@[y]@));
            assert(m@[y]@[n as int].wf());
            lemma_val_nonneg(m@[y]@[n as int]);
            lemma_small(m@[y]@[n as int].val());
        }
    }
    let mut r: usize = n - 1;
    while r > 0
        invariant
            r < n,
            m@.len() == n,
            matrix_wf(m@),
            rows_have_len(m@, n + 1),
            echelon.len() == n,
            forall|y: int| 0 <= y < n ==> (#[trigger] echelon[y][y]).val() == 1,
            forall|y: int, j: int| 0 <= y < n && 0 <= j < y ==> (#[trigger] echelon[y][j]).val() == 0,
            forall|y: int| 0 <= y < n ==> (#[trigger] echelon[y]).len() == n + 1,
            forall|y: int, j: int|
                0 <= y < n && 0 <= j < n ==> (#[trigger] m@[y]@[j]) == echelon[y][j],
            forall|y: int|
                0 <= y < n ==> (#[trigger] m@[y]@[n as int]).val() == (echelon[y][n as int].val()
                    - tail(echelon[y], last_column(m@, n as int), (if y > r { y } else { r as int }) + 1, n as int))
                    % modulus(),
        decreases r,
    {
        let mut y: usize = 0;
        while y < r
            invariant
                y <= r < n,
                m@.len() == n,
                matrix_wf(m@),
                rows_have_len(m@, n + 1),
                echelon.len() == n,
                forall|yy: int| 0 <= yy < n ==> (#[trigger] echelon[yy][yy]).val() == 1,
                forall|yy: int, j: int|
                    0 <= yy < n && 0 <= j < yy ==> (#[trigger] echelon[yy][j]).val() == 0,
                forall|yy: int| 0 <= yy < n ==> (#[trigger] echelon[yy]).len() == n + 1,
                forall|yy: int, j: int|
                    0 <= yy < n && 0 <= j < n ==> (#[trigger] m@[yy]@[j]) == echelon[yy][j],
                forall|yy: int|
                    0 <= yy < n ==> (#[trigger] m@[yy]@[n as int]).val() == (echelon[yy][n as int].val()
                        - tail(echelon[yy], last_column(m@, n as int), (if yy > r { yy } else if yy < y { r - 1 } else { r as int }) + 1, n as int))
                        % modulus(),
            decreases r - y,
        {
            let ghost before = m@;
            assert(vec_wf(m@[y as int]@));
            assert(vec_wf(m@[r as int]@));
            let t = fe_mul(&m[y][r], &m[r][n]);
            let v = fe_sub(&m[y][n], &t);
            set_entry(&mut m, y, n, v);
            proof {
                let col0 = last_column(before, n as int);
                let col1 = last_column(m@, n as int);
                assert forall|yy: int|
                    0 <= yy < n implies (#[trigger] m@[yy]@[n as int]).val() == (echelon[yy][n as int].val()
                        - tail(echelon[yy], col1, (if yy > r { yy } else if yy < y + 1 { r - 1 } else { r as int }) + 1, n as int))
                        % modulus() by {
                    let lo = (if yy > r { yy } else if yy < y + 1 { r - 1 } else { r as int }) + 1;
                    let lo0 = (if yy > r { yy } else if yy < y { r - 1 } else { r as int }) + 1;
                    assert forall|j: int| lo <= j < n implies col0[j] == col1[j] by {}
                    lemma_tail_frame(echelon[yy], col0, col1, lo, n as int);
                    if yy == y {
                        let e = echelon[yy][n as int].val();
                        let tl = tail(echelon[yy], col0, r + 1, n as int);
                        let prod = echelon[yy][r as int].val() * col0[r as int].val();
                        assert(tail(echelon[yy], col0, r as int, n as int) == prod + tl);
                        assert(before[yy]@[n as int].val() == (e - tl) % modulus());
                        vstd::arithmetic::div_mod::lemma_mod_twice(prod, modulus());
                        vstd::arithmetic::div_mod::lemma_mod_twice(e - tl, modulus());
                        lemma_sub_cong((e - tl) % modulus(), e - tl, prod % modulus(), prod, modulus());
                        assert((e - tl) - prod == e - (prod + tl));
                    } else {
                        assert(m@[yy] == before[yy]);
                    }
                }
            }
            y = y + 1;
        }
        proof {
            assert forall|yy: int|
                0 <= yy < n implies (#[trigger] m@[yy]@[n as int]).val() == (echelon[yy][n as int].val()
                    - tail(echelon[yy], last_column(m@, n as int), (if yy > r - 1 { yy } else { r - 1 }) + 1, n as int))
                    % modulus() by {
                if yy == r {
                    assert((if yy > r { yy } else if yy < r { r - 1 } else { r as int }) == yy);
                }
            }
        }
        r = r - 1;
    }
    let ghost col = last_column(m@, n as int);
    proof {
        assert forall|y: int| 0 <= y < n implies dot(#[trigger] echelon[y], col, n as int) % modulus()
            == echelon[y][n as int].val() by {
            let e = echelon[y];
            lemma_dot_split(e, col, y + 1, n as int);
            lemma_dot_split(e, col, y, y + 1);
            assert forall|j: int| 0 <= j < y implies (#[trigger] e[j]).val() == 0 by {
                assert(m@[y]@[j] == e[j]);
            }
            lemma_dot_zero(e, col, y);
            assert(m@[y]@[y] == e[y]);
            assert(tail(e, col, y + 1, y + 1) == 0);
            assert(tail(e, col, y, y + 1) == e[y].val() * col[y].val());
            assert(e[y].val() == 1);
            assert(e[y].val() * col[y].val() == col[y].val());
            let tl = tail(e, col, y + 1, n as int);
            let v = e[n as int].val();
            assert(col[y].val() == (v - tl) % modulus());
            vstd::arithmetic::div_mod::lemma_mod_twice(v - tl, modulus());
            lemma_add_cong((v - tl) % modulus(), v - tl, tl, tl, modulus());
            assert(m@[y]@[n as int].wf());
            assert(e[n as int].wf());
            lemma_val_nonneg(e[n as int]);
            lemma_small(v);
        }
        assert(solves(echelon, col, n as int));
        assert(solves(init, col, n as int));
        assert forall|y: int| 0 <= y < n implies dot(#[trigger] a@[y]@, col, n as int) % modulus()
            == b@[y].val() by {
            assert(init[y] == a@[y]@.push(b@[y]));
            lemma_dot_prefix(init[y], a@[y]@, col, n as int);
        }
    }
    let mut s: Vec<Fe> = Vec::new();
    let mut y: usize = 0;
    while y < n
        invariant
            y <= n,
            m@.len() == n,
            matrix_wf(m@),
            rows_have_len(m@, n + 1),
            s@ == last_column(m@, n as int).subrange(0, y as int),
        decreases n - y,
    {
        s.push(m[y][n]);
        proof {
            assert(s@ =~= last_column(m@, n as int).subrange(0, y + 1));
        }
        y = y + 1;
    }
    proof {
        assert(s@ =~= col);
    }
    Some(s)
}

} // verus!
