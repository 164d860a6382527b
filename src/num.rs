//! Number utilities: prime factorisation and the bits of a multi-word integer.
use vstd::prelude::*;

verus! {

/// `x` divides `n`.
pub open spec fn divides(x: int, n: int) -> bool {
    x != 0 && n % x == 0
}

/// `x` is a prime number.
pub open spec fn is_prime(x: int) -> bool {
    x >= 2 && forall|k: int| 2 <= k < x ==> !#[trigger] divides(k, x)
}

/// `b` raised to the power `e`.
pub open spec fn power(b: int, e: nat) -> int
    decreases e,
{
    if e == 0 {
        1
    } else {
        b * power(b, (e - 1) as nat)
    }
}

/// The product of `f[i]` raised to `e[i]` over all indices.
pub open spec fn factor_product(f: Seq<u32>, e: Seq<nat>) -> int
    decreases f.len(),
{
    if f.len() == 0 || e.len() == 0 {
        1
    } else {
        factor_product(f.drop_last(), e.drop_last()) * power(f.last() as int, e.last())
    }
}

/// `f` is strictly ascending.
pub open spec fn strictly_ascending(f: Seq<u32>) -> bool {
    forall|i: int, j: int| 0 <= i < j < f.len() ==> f[i] < f[j]
}

/// `f` lists the distinct prime divisors of `n` in ascending order: every entry is a prime
/// dividing `n`, and `n` is a product of powers of the entries.
pub open spec fn lists_prime_divisors(n: int, f: Seq<u32>) -> bool {
    &&& strictly_ascending(f)
    &&& forall|i: int| 0 <= i < f.len() ==> is_prime(f[i] as int) && divides(f[i] as int, n)
    &&& exists|e: Seq<nat>| e.len() == f.len() && n == factor_product(f, e)
}

proof fn lemma_divides_trans(x: int, y: int, z: int)
    requires
        x > 0,
        y > 0,
        divides(x, y),
        divides(y, z),
    ensures
        divides(x, z),
{
    let a = y / x;
    let b = z / y;
    assert(y == x * a) by {
        vstd::arithmetic::div_mod::lemma_fundamental_div_mod(y, x);
    }
    assert(z == y * b) by {
        vstd::arithmetic::div_mod::lemma_fundamental_div_mod(z, y);
    }
    assert(z == (a * b) * x) by (nonlinear_arith)
        requires y == x * a, z == y * b;
    vstd::arithmetic::div_mod::lemma_mod_multiples_basic(a * b, x);
}

proof fn lemma_factor_product_push(f: Seq<u32>, e: Seq<nat>, p: u32, c: nat)
    requires
        f.len() == e.len(),
    ensures
        factor_product(f.push(p), e.push(c)) == factor_product(f, e) * power(p as int, c),
{
    assert(f.push(p).drop_last() =~= f);
    assert(e.push(c).drop_last() =~= e);
}

proof fn lemma_not_divides_down(x: int, a: int, b: int)
    requires
        x > 0,
        a > 0,
        divides(a, b),
        !divides(x, b),
    ensures
        !divides(x, a),
{
    if divides(x, a) {
        lemma_divides_trans(x, a, b);
    }
}

proof fn lemma_divides_product(a: int, b: int)
    requires
        b > 0,
    ensures
        divides(b, a * b),
{
    vstd::arithmetic::div_mod::lemma_mod_multiples_basic(a, b);
}

/// A prime that divides a product of two positive numbers below it and of any number
/// divides the latter.
proof fn lemma_euclid_small(q: int, a: int, b: int)
    requires
        is_prime(q),
        0 < a < q,
        b >= 0,
        (a * b) % q == 0,
    ensures
        b % q == 0,
    decreases a,
{
    if a > 1 {
        let k = q / a;
        let r = q % a;
        vstd::arithmetic::div_mod::lemma_fundamental_div_mod(q, a);
        assert(q == a * k + r);
        if r == 0 {
            assert(divides(a, q));
        }
        assert(0 < r < a);
        let m = (a * b) / q;
        vstd::arithmetic::div_mod::lemma_fundamental_div_mod(a * b, q);
        assert(a * b == q * m);
        assert(r * b == q * (b - k * m)) by (nonlinear_arith)
            requires q == a * k + r, a * b == q * m;
        vstd::arithmetic::div_mod::lemma_mod_multiples_basic(b - k * m, q);
        assert((b - k * m) * q == q * (b - k * m)) by (nonlinear_arith);
        lemma_euclid_small(q, r, b);
    } else {
        assert(a * b == b) by (nonlinear_arith)
            requires a == 1;
    }
}

/// Euclid's lemma: a prime dividing a product of two natural numbers divides one of them.
pub proof fn lemma_euclid(q: int, a: int, b: int)
    requires
        is_prime(q),
        a >= 0,
        b >= 0,
        (a * b) % q == 0,
    ensures
        a % q == 0 || b % q == 0,
{
    if a % q != 0 {
        vstd::arithmetic::div_mod::lemma_mul_mod_noop_left(a, b, q);
        vstd::arithmetic::div_mod::lemma_mod_pos_bound(a, q);
        assert(((a % q) * b) % q == 0);
        assert((a % q) * b >= 0) by (nonlinear_arith)
            requires a % q >= 0, b >= 0;
        lemma_euclid_small(q, a % q, b);
    }
}

proof fn lemma_prime_divides_power(q: int, f: int, e: nat)
    requires
        is_prime(q),
        is_prime(f),
        power(f, e) % q == 0,
    ensures
        q == f,
    decreases e,
{
    if e == 0 {
        vstd::arithmetic::div_mod::lemma_small_mod(1, q as nat);
    } else {
        assert(power(f, e) == f * power(f, (e - 1) as nat));
        lemma_power_nonneg(f, (e - 1) as nat);
        lemma_euclid(q, f, power(f, (e - 1) as nat));
        if f % q == 0 {
            if q < f {
                assert(divides(q, f));
            } else if q > f {
                vstd::arithmetic::div_mod::lemma_small_mod(f as nat, q as nat);
            }
        } else {
            lemma_prime_divides_power(q, f, (e - 1) as nat);
        }
    }
}

proof fn lemma_power_nonneg(f: int, e: nat)
    requires
        f >= 0,
    ensures
        power(f, e) >= 0,
    decreases e,
{
    if e > 0 {
        lemma_power_nonneg(f, (e - 1) as nat);
        assert(f * power(f, (e - 1) as nat) >= 0) by (nonlinear_arith)
            requires f >= 0, power(f, (e - 1) as nat) >= 0;
    }
}

proof fn lemma_factor_product_nonneg(f: Seq<u32>, e: Seq<nat>)
    ensures
        factor_product(f, e) >= 0,
    decreases f.len(),
{
    if f.len() > 0 && e.len() > 0 {
        lemma_factor_product_nonneg(f.drop_last(), e.drop_last());
        lemma_power_nonneg(f.last() as int, e.last());
        let a = factor_product(f.drop_last(), e.drop_last());
        let b = power(f.last() as int, e.last());
        assert(a * b >= 0) by (nonlinear_arith)
            requires a >= 0, b >= 0;
    }
}

proof fn lemma_prime_in_factors(q: int, f: Seq<u32>, e: Seq<nat>)
    requires
        is_prime(q),
        f.len() == e.len(),
        forall|i: int| 0 <= i < f.len() ==> is_prime(#[trigger] f[i] as int),
        factor_product(f, e) % q == 0,
    ensures
        exists|i: int| 0 <= i < f.len() && f[i] as int == q,
    decreases f.len(),
{
    if f.len() == 0 {
        vstd::arithmetic::div_mod::lemma_small_mod(1, q as nat);
    } else {
        let a = factor_product(f.drop_last(), e.drop_last());
        let b = power(f.last() as int, e.last());
        lemma_factor_product_nonneg(f.drop_last(), e.drop_last());
        lemma_power_nonneg(f.last() as int, e.last());
        lemma_euclid(q, a, b);
        if b % q == 0 {
            assert(is_prime(f[f.len() - 1] as int));
            lemma_prime_divides_power(q, f.last() as int, e.last());
            assert(f[f.len() - 1] as int == q);
        } else {
            lemma_prime_in_factors(q, f.drop_last(), e.drop_last());
            let i = choose|i: int| 0 <= i < f.drop_last().len() && f.drop_last()[i] as int == q;
            assert(f[i] as int == q);
        }
    }
}

/// A list of prime divisors of `n` as `prime_divisors` gives it holds every prime that
/// divides `n`.
pub proof fn lemma_lists_every_prime_divisor(n: int, f: Seq<u32>, q: int)
    requires
        lists_prime_divisors(n, f),
        is_prime(q),
        divides(q, n),
    ensures
        exists|i: int| 0 <= i < f.len() && f[i] as int == q,
{
    let e = choose|e: Seq<nat>| e.len() == f.len() && n == factor_product(f, e);
    lemma_prime_in_factors(q, f, e);
}

/// Removes every factor `f` from `*m`, and records `f` in `l`.
fn extract(f: u32, m: &mut u32, l: &mut Vec<u32>) -> (c: Ghost<nat>)
    requires
        f >= 2,
        *old(m) >= 1,
        divides(f as int, *old(m) as int),
    ensures
        final(l)@ == old(l)@.push(f),
        *final(m) >= 1,
        *old(m) as int == *final(m) as int * power(f as int, c@),
        !divides(f as int, *final(m) as int),
        divides(*final(m) as int, *old(m) as int),
{
    l.push(f);
    let ghost mut c: nat = 0;
    proof {
        vstd::arithmetic::div_mod::lemma_fundamental_div_mod(*m as int, f as int);
    }
    let ghost m0 = *m as int;
    proof { vstd::arithmetic::div_mod::lemma_mod_self_0(m0); }
    assert(m0 == (*m as int) * power(f as int, c));
    while *m % f == 0
        invariant
            f >= 2,
            *m >= 1,
            m0 == (*m as int) * power(f as int, c),
            divides(*m as int, m0),
        decreases *m,
    {
        let ghost before = *m as int;
        let q = *m / f;
        proof {
            vstd::arithmetic::div_mod::lemma_fundamental_div_mod(before, f as int);
            assert(before == f * q);
            assert(q >= 1) by (nonlinear_arith)
                requires before == f * q, before >= 1, f >= 2, q >= 0;
            assert(q < before) by (nonlinear_arith)
                requires before == f * q, f >= 2, q >= 1;
            assert(m0 == (q as int) * power(f as int, (c + 1) as nat)) by (nonlinear_arith)
                requires
                    m0 == before * power(f as int, c),
                    before == f * q,
                    power(f as int, (c + 1) as nat) == f * power(f as int, c);
            assert(divides(q as int, before)) by {
                vstd::arithmetic::div_mod::lemma_mod_multiples_basic(f as int, q as int);
                assert(f * q == (f as int) * (q as int));
            }
            lemma_divides_trans(q as int, before, m0);
            c = c + 1;
        }
        *m = q;
    }
    Ghost(c)
}

/// Computes the ascending list of the distinct prime numbers that divide `n`, by trial
/// division with the candidates 2, 3 and then those of the form 6k + 1 and 6k + 5.
pub fn prime_divisors(n: u32) -> (r: Vec<u32>)
    ensures
        n < 2 ==> r@.len() == 0,
        n >= 2 ==> lists_prime_divisors(n as int, r@),
        n >= 1 ==> forall|q: int|
            is_prime(q) && #[trigger] divides(q, n as int) ==> exists|i: int|
                0 <= i < r@.len() && r@[i] as int == q,
{
    if n < 2 {
        proof {
            if n == 1 {
                assert forall|q: int| is_prime(q) && #[trigger] divides(q, n as int) implies false by {
                    vstd::arithmetic::div_mod::lemma_small_mod(1, q as nat);
                }
            }
        }
        return Vec::new();
    }
    let ghost n0 = n as int;
    let mut n = n;
    let mut p: Vec<u32> = Vec::new();
    let ghost mut e: Seq<nat> = Seq::empty();
    proof {
        vstd::arithmetic::div_mod::lemma_mod_self_0(n0);
        assert(factor_product(p@, e) == 1);
    }
    if n % 2 == 0 {
        let c = extract(2, &mut n, &mut p);
        proof {
            assert(p@ =~= Seq::<u32>::empty().push(2));
            lemma_factor_product_push(Seq::empty(), e, 2, c@);
            e = e.push(c@);
            assert(is_prime(2));
            assert(divides(2, n0));
            assert(n0 == factor_product(p@, e) * n) by (nonlinear_arith)
                requires
                    n0 == n * power(2, c@),
                    factor_product(p@, e) == 1 * power(2, c@);
        }
    }
    proof {
        lemma_divides_product(factor_product(p@, e), n as int);
        assert(divides(n as int, n0));
        assert(!divides(2, n as int));
    }
    if n % 3 == 0 {
        let ghost before = n as int;
        let ghost pb = p@;
        let ghost eb = e;
        proof {
            lemma_divides_trans(3, n as int, n0);
        }
        let c = extract(3, &mut n, &mut p);
        proof {
            lemma_factor_product_push(pb, e, 3, c@);
            e = e.push(c@);
            assert(n0 == factor_product(p@, e) * n) by (nonlinear_arith)
                requires
                    n0 == factor_product(pb, eb) * before,
                    before == n * power(3, c@),
                    factor_product(p@, e) == factor_product(pb, eb) * power(3, c@);
            lemma_not_divides_down(2, n as int, before);
            assert(is_prime(3)) by {
                assert(!divides(2, 3));
            }
        }
    }
    proof {
        lemma_divides_product(factor_product(p@, e), n as int);
        assert(divides(n as int, n0));
        assert(!divides(3, n as int));
        assert forall|x: int| 2 <= x < 5 implies !divides(x, n as int) by {
            if x == 4 && divides(4, n as int) {
                lemma_divides_trans(2, 4, n as int);
            }
        }
    }
    let mut d: u32 = 5;
    let mut s: u32 = 2;
    while d <= n / d
        invariant
            5 <= d <= 65540,
            d % 6 == 1 || d % 6 == 5,
            s == (if d % 6 == 5 { 2u32 } else { 4u32 }),
            n >= 1,
            e.len() == p@.len(),
            n0 == factor_product(p@, e) * n,
            divides(n as int, n0),
            forall|x: int| 2 <= x < d ==> !#[trigger] divides(x, n as int),
            strictly_ascending(p@),
            forall|i: int| 0 <= i < p@.len() ==> p@[i] < d,
            forall|i: int|
                0 <= i < p@.len() ==> is_prime(p@[i] as int) && divides(p@[i] as int, n0),
        decreases 65540 - d,
    {
        proof {
            vstd::arithmetic::div_mod::lemma_fundamental_div_mod(n as int, d as int);
            assert(d * d <= n) by (nonlinear_arith)
                requires d <= n / d, n == d * (n / d) + n % d, n % d >= 0, d > 0;
            assert(d <= 65535) by (nonlinear_arith)
                requires d * d <= n, n <= 0xffff_ffff, d >= 0;
        }
        if n % d == 0 {
            let ghost before = n as int;
            let ghost pb = p@;
            let ghost eb = e;
            proof {
                assert(is_prime(d as int)) by {
                    assert forall|k: int| 2 <= k < d implies !#[trigger] divides(k, d as int) by {
                        if divides(k, d as int) {
                            lemma_divides_trans(k, d as int, before);
                        }
                    }
                }
                lemma_divides_trans(d as int, before, n0);
            }
            let c = extract(d, &mut n, &mut p);
            proof {
                lemma_factor_product_push(pb, eb, d, c@);
                e = e.push(c@);
                assert(n0 == factor_product(p@, e) * n) by (nonlinear_arith)
                    requires
                        n0 == factor_product(pb, eb) * before,
                        before == n * power(d as int, c@),
                        factor_product(p@, e) == factor_product(pb, eb) * power(d as int, c@);
                lemma_divides_product(factor_product(p@, e), n as int);
                assert forall|x: int| 2 <= x < d implies !#[trigger] divides(x, n as int) by {
                    lemma_not_divides_down(x, n as int, before);
                }
            }
        }
        proof {
            assert forall|x: int| 2 <= x < d + s implies !#[trigger] divides(x, n as int) by {
                if x > d && divides(x, n as int) {
                    if x % 2 == 0 {
                        assert(divides(2, x));
                        lemma_divides_trans(2, x, n as int);
                    } else {
                        assert(x % 3 == 0);
                        assert(divides(3, x));
                        lemma_divides_trans(3, x, n as int);
                    }
                }
            }
        }
        assert(2u32 ^ 6u32 == 4u32) by (bit_vector);
        assert(4u32 ^ 6u32 == 2u32) by (bit_vector);
        d = d + s;
        s = s ^ 6;
    }
    proof {
        vstd::arithmetic::div_mod::lemma_fundamental_div_mod(n as int, d as int);
        assert(n < d * d) by (nonlinear_arith)
            requires d > n / d, n == d * (n / d) + n % d, n % d < d, d > 0;
    }
    if n > 1 {
        let ghost pb = p@;
        let ghost eb = e;
        proof {
            assert(!divides(n as int, n as int) ==> false) by {
                vstd::arithmetic::div_mod::lemma_mod_self_0(n as int);
            }
            assert(n >= d);
            assert(is_prime(n as int)) by {
                assert forall|k: int| 2 <= k < n implies !#[trigger] divides(k, n as int) by {
                    if divides(k, n as int) {
                        let q = (n as int) / k;
                        vstd::arithmetic::div_mod::lemma_fundamental_div_mod(n as int, k);
                        assert(n == k * q);
                        assert(q >= 2) by (nonlinear_arith)
                            requires n == k * q, k < n, k >= 2, q >= 0;
                        assert(divides(q, n as int)) by {
                            vstd::arithmetic::div_mod::lemma_mod_multiples_basic(k, q);
                            assert(k * q == q * k) by (nonlinear_arith);
                        }
                        assert(n >= d * d) by (nonlinear_arith)
                            requires n == k * q, k >= d, q >= d, d >= 0;
                    }
                }
            }
        }
        p.push(n);
        proof {
            lemma_factor_product_push(pb, eb, n, 1);
            e = e.push(1);
            assert(power(n as int, 0) == 1);
            assert(power(n as int, 1) == (n as int) * power(n as int, 0));
            assert(power(n as int, 1) == n);
            assert(p@ == pb.push(n));
            assert(factor_product(p@, e) == factor_product(pb, eb) * n);
        }
    } else {
        proof {
            assert(n == 1);
            assert(n0 == factor_product(p@, e)) by (nonlinear_arith)
                requires n0 == factor_product(p@, e) * n, n == 1;
        }
    }
    proof {
        assert forall|q: int| is_prime(q) && #[trigger] divides(q, n0) implies exists|i: int|
            0 <= i < p@.len() && p@[i] as int == q by {
            lemma_lists_every_prime_divisor(n0, p@, q);
        }
    }
    p
}

/// Bit `j` of `w`, counted from the most significant one.
pub open spec fn word_bit(w: u64, j: int) -> bool {
    (w >> ((63 - j) as u64)) & 1u64 == 1u64
}

/// The 64 bits of `w`, most significant first.
pub open spec fn word_bits(w: u64) -> Seq<bool> {
    Seq::new(64, |j: int| word_bit(w, j))
}

/// The bits of the integer whose 64-bit words are `n`, least significant word first,
/// written most significant bit first and with all leading zeros kept.
pub open spec fn all_bits(n: Seq<u64>) -> Seq<bool>
    decreases n.len(),
{
    if n.len() == 0 {
        Seq::empty()
    } else {
        all_bits(n.drop_first()) + word_bits(n[0])
    }
}

/// `b` without its leading `false` entries.
pub open spec fn strip_leading_zeros(b: Seq<bool>) -> Seq<bool>
    decreases b.len(),
{
    if b.len() == 0 {
        b
    } else if b[0] {
        b
    } else {
        strip_leading_zeros(b.drop_first())
    }
}

proof fn lemma_strip_push(b: Seq<bool>, x: bool)
    ensures
        strip_leading_zeros(b.push(x)) == (if strip_leading_zeros(b).len() == 0 && !x {
            Seq::<bool>::empty()
        } else {
            strip_leading_zeros(b).push(x)
        }),
    decreases b.len(),
{
    if b.len() == 0 {
        assert(b.push(x).drop_first() =~= Seq::<bool>::empty());
        assert(b =~= Seq::<bool>::empty());
        if !x {
            assert(strip_leading_zeros(b.push(x)) == strip_leading_zeros(Seq::<bool>::empty()));
        }
    } else {
        assert(b.push(x)[0] == b[0]);
        assert(b.push(x).drop_first() =~= b.drop_first().push(x));
        lemma_strip_push(b.drop_first(), x);
    }
}

proof fn lemma_all_bits_push(n: Seq<u64>, w: u64)
    ensures
        all_bits(n.push(w)) == word_bits(w) + all_bits(n),
    decreases n.len(),
{
    if n.len() == 0 {
        assert(n.push(w).drop_first() =~= n);
        assert(all_bits(n) =~= Seq::<bool>::empty());
        assert(word_bits(w) + all_bits(n) =~= word_bits(w));
        assert(all_bits(n.push(w)) =~= all_bits(n) + word_bits(w));
    } else {
        assert(n.push(w).drop_first() =~= n.drop_first().push(w));
        lemma_all_bits_push(n.drop_first(), w);
        assert(n.push(w)[0] == n[0]);
        assert(all_bits(n.push(w)) =~= word_bits(w) + all_bits(n));
    }
}

proof fn lemma_zero_word_bits()
    ensures
        forall|j: int| 0 <= j < 64 ==> !#[trigger] word_bit(0, j),
{
    assert forall|j: int| 0 <= j < 64 implies !#[trigger] word_bit(0, j) by {
        let k = (63 - j) as u64;
        assert((0u64 >> k) & 1u64 == 0u64) by (bit_vector);
    }
}

proof fn lemma_strip_zeros_prefix(z: Seq<bool>, b: Seq<bool>)
    requires
        forall|j: int| 0 <= j < z.len() ==> !z[j],
    ensures
        strip_leading_zeros(z + b) == strip_leading_zeros(b),
    decreases z.len(),
{
    if z.len() > 0 {
        assert((z + b)[0] == z[0]);
        assert((z + b).drop_first() =~= z.drop_first() + b);
        lemma_strip_zeros_prefix(z.drop_first(), b);
    } else {
        assert(z + b =~= b);
    }
}

/// Zero words of highest significance do not change the bits: appending a zero word to the
/// words of an integer leaves its bit sequence as it was.
pub proof fn lemma_high_zero_word(n: Seq<u64>)
    ensures
        strip_leading_zeros(all_bits(n.push(0))) == strip_leading_zeros(all_bits(n)),
{
    lemma_all_bits_push(n, 0);
    lemma_zero_word_bits();
    lemma_strip_zeros_prefix(word_bits(0), all_bits(n));
}

/// An integer whose words are all zero, however many, has no bits.
pub proof fn lemma_zero_words(n: Seq<u64>)
    requires
        forall|i: int| 0 <= i < n.len() ==> n[i] == 0,
    ensures
        strip_leading_zeros(all_bits(n)).len() == 0,
    decreases n.len(),
{
    if n.len() > 0 {
        assert(n.drop_last().push(0) =~= n);
        lemma_zero_words(n.drop_last());
        lemma_high_zero_word(n.drop_last());
    } else {
        assert(all_bits(n) =~= Seq::<bool>::empty());
    }
}

/// The bits of the exponents one, two and three are `1`, `10` and `11`.
pub proof fn lemma_small_exponent_bits()
    ensures
        strip_leading_zeros(all_bits(seq![1u64])) == seq![true],
        strip_leading_zeros(all_bits(seq![2u64])) == seq![true, false],
        strip_leading_zeros(all_bits(seq![3u64])) == seq![true, true],
{
    lemma_word_bits_small(1);
    lemma_word_bits_small(2);
    lemma_word_bits_small(3);
}

proof fn lemma_word_bits_small(w: u64)
    requires
        1 <= w <= 3,
    ensures
        strip_leading_zeros(all_bits(seq![w])) == (if w == 1 {
            seq![true]
        } else if w == 2 {
            seq![true, false]
        } else {
            seq![true, true]
        }),
{
    let n = seq![w];
    assert(n.drop_first() =~= Seq::<u64>::empty());
    assert(all_bits(n.drop_first()) =~= Seq::<bool>::empty());
    assert(all_bits(n) =~= word_bits(w));
    let z = word_bits(w).subrange(0, 62);
    let t = word_bits(w).subrange(62, 64);
    assert forall|j: int| 0 <= j < z.len() implies !z[j] by {
        let k = (63 - j) as u64;
        assert(k >= 2);
        assert(1 <= w <= 3 && k >= 2 && k < 64 ==> (w >> k) & 1u64 == 0u64) by (bit_vector);
    }
    assert(word_bits(w) =~= z + t);
    lemma_strip_zeros_prefix(z, t);
    assert((w >> 1u64) & 1u64 == (if w == 1 { 0u64 } else { 1u64 })) by (bit_vector)
        requires 1 <= w <= 3;
    assert((w >> 0u64) & 1u64 == (if w == 2 { 0u64 } else { 1u64 })) by (bit_vector)
        requires 1 <= w <= 3;
    assert(t[0] == word_bit(w, 62));
    assert(t[1] == word_bit(w, 63));
    if w == 1 {
        assert(!t[0] && t[1]);
        assert(t.drop_first() =~= seq![true]);
        assert(strip_leading_zeros(t.drop_first()) == seq![true]);
    } else if w == 2 {
        assert(t =~= seq![true, false]);
    } else {
        assert(t =~= seq![true, true]);
    }
}

/// The bits of the big-endian binary representation of the unsigned integer whose
/// 64-bit words are `n`, least significant word first, with leading zeros removed.
/// The result is empty when the integer is zero.
pub fn reversed_bits(n: &[u64]) -> (r: Vec<bool>)
    ensures
        r@ == strip_leading_zeros(all_bits(n@)),
{
    let mut r: Vec<bool> = Vec::new();
    let mut k: usize = n.len();
    proof {
        assert(n@.subrange(k as int, n@.len() as int) =~= Seq::<u64>::empty());
    }
    while k > 0
        invariant
            k <= n@.len(),
            r@ == strip_leading_zeros(all_bits(n@.subrange(k as int, n@.len() as int))),
        decreases k,
    {
        k = k - 1;
        let w = n[k];
        let ghost done = all_bits(n@.subrange(k + 1, n@.len() as int));
        proof {
            let t = n@.subrange(k as int, n@.len() as int);
            assert(t.drop_first() =~= n@.subrange(k + 1, n@.len() as int));
            assert(all_bits(t) == done + word_bits(w));
        }
        let mut j: u64 = 0;
        while j < 64
            invariant
                j <= 64,
                r@ == strip_leading_zeros(done + word_bits(w).subrange(0, j as int)),
            decreases 64 - j,
        {
            let b = (w >> (63 - j)) & 1 == 1;
            proof {
                let pre = done + word_bits(w).subrange(0, j as int);
                assert(done + word_bits(w).subrange(0, j + 1) =~= pre.push(b));
                lemma_strip_push(pre, b);
            }
            if b || r.len() > 0 {
                r.push(b);
            }
            j = j + 1;
        }
        proof {
            assert(word_bits(w).subrange(0, 64) =~= word_bits(w));
        }
    }
    proof {
        assert(n@.subrange(0, n@.len() as int) =~= n@);
    }
    r
}

} // verus!
