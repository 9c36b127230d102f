//! The evaluation domain `H = {ω^0, …, ω^{N-1}}` of a table and its
//! sub-domain `H_I = {ω^i : i ∈ I}`.
use vstd::prelude::*;
use vstd::arithmetic::div_mod::{lemma_mul_mod_noop_left, lemma_mul_mod_noop_right, lemma_small_mod};
use crate::error::BalooError;
use crate::poly::lemma_modulus_positive;
use crate::scalar::{Scalar, TWO_ADICITY, lemma_fmul_comm, modulus, fmul, fpow, two_adic_root, two_pow};

verus! {

/// `n` is a power of two.
pub open spec fn is_pow2(n: nat) -> bool
    decreases n,
{
    if n == 1 {
        true
    } else if n == 0 || n % 2 == 1 {
        false
    } else {
        is_pow2(n / 2)
    }
}

/// The base-two logarithm of a power of two.
pub open spec fn log2(n: nat) -> nat
    decreases n,
{
    if n <= 1 {
        0
    } else {
        1 + log2(n / 2)
    }
}

/// The field has a subgroup of order `n`: `n` is a power of two, at most `2^28`.
pub open spec fn domain_size_ok(n: nat) -> bool {
    is_pow2(n) && log2(n) <= TWO_ADICITY
}

/// The generator `ω` of the subgroup of order `n`: the root of order `2^28`
/// raised to `2^(28 - log2 n)`.
pub open spec fn domain_generator(n: nat) -> int {
    fpow(two_adic_root(), two_pow((TWO_ADICITY - log2(n)) as nat))
}

/// Powers are canonical representatives.
proof fn lemma_fpow_range(x: int, e: nat)
    ensures
        0 <= fpow(x, e) < modulus(),
    decreases e,
{
    lemma_modulus_positive();
    if e > 0 {
        lemma_fpow_range(x, (e - 1) as nat);
    }
}

/// `x^(a+b) = x^a · x^b`.
proof fn lemma_fpow_add(x: int, a: nat, b: nat)
    ensures
        fpow(x, a + b) == fmul(fpow(x, a), fpow(x, b)),
    decreases a,
{
    let m = modulus();
    lemma_modulus_positive();
    lemma_fpow_range(x, b);
    if a == 0 {
        assert(a + b == b);
        lemma_small_mod(fpow(x, b) as nat, m as nat);
    } else {
        let a1 = (a - 1) as nat;
        lemma_fpow_add(x, a1, b);
        let pa = fpow(x, a1);
        let pb = fpow(x, b);
        assert((a1 + b) as nat == (a + b - 1) as nat);
        // x·((pa·pb) mod m) ≡ (x·pa)·pb ≡ ((x·pa) mod m)·pb
        lemma_mul_mod_noop_right(x, pa * pb, m);
        lemma_mul_mod_noop_left(x * pa, pb, m);
        assert(x * (pa * pb) == (x * pa) * pb) by (nonlinear_arith);
    }
}

/// `w` has order exactly `n`: `w^n = 1` and no smaller positive power is one.
pub open spec fn has_order(w: int, n: nat) -> bool {
    &&& fpow(w, n) == 1
    &&& forall|j: nat| 0 < j < n ==> #[trigger] fpow(w, j) != 1
}

proof fn lemma_two_pow_add(a: nat, b: nat)
    ensures
        two_pow(a + b) == two_pow(a) * two_pow(b),
    decreases a,
{
    if a == 0 {
        assert(a + b == b);
        assert(two_pow(a) == 1);
        assert(1 * two_pow(b) == two_pow(b));
    } else {
        assert(two_pow(a) == 2 * two_pow((a - 1) as nat));
        lemma_two_pow_add((a - 1) as nat, b);
        assert((a - 1 + b) as nat == (a + b - 1) as nat);
        assert(two_pow(a + b) == 2 * two_pow((a + b - 1) as nat));
        assert(2 * (two_pow((a - 1) as nat) * two_pow(b)) == (2 * two_pow((a - 1) as nat)) * two_pow(b))
            by (nonlinear_arith);
    }
}

/// `x^(a·b) = (x^a)^b`.
proof fn lemma_fpow_mul(x: int, a: nat, b: nat)
    ensures
        fpow(x, a * b) == fpow(fpow(x, a), b),
    decreases b,
{
    lemma_modulus_positive();
    if b == 0 {
        assert(a * b == 0) by (nonlinear_arith)
            requires
                b == 0,
        ;
    } else {
        let b1 = (b - 1) as nat;
        lemma_fpow_mul(x, a, b1);
        assert(a * b == a * b1 + a) by (nonlinear_arith)
            requires
                b1 == b - 1,
        ;
        lemma_fpow_add(x, a * b1, a);
        lemma_fmul_comm(fpow(x, a * b1), fpow(x, a));
    }
}

/// `1^b = 1`.
proof fn lemma_fpow_one(b: nat)
    ensures
        fpow(1, b) == 1,
    decreases b,
{
    lemma_modulus_positive();
    if b > 0 {
        lemma_fpow_one((b - 1) as nat);
        lemma_small_mod(1, modulus() as nat);
    }
}

/// `(-1)^b` is `1` for even `b` and `-1` for odd `b`.
proof fn lemma_fpow_minus_one(b: nat)
    ensures
        fpow(modulus() - 1, b) == if b % 2 == 0 { 1 } else { modulus() - 1 },
    decreases b,
{
    let m = modulus();
    lemma_modulus_positive();
    if b > 0 {
        lemma_fpow_minus_one((b - 1) as nat);
        if b % 2 == 0 {
            assert((m - 1) * (m - 1) == m * (m - 2) + 1) by (nonlinear_arith);
            vstd::arithmetic::div_mod::lemma_mod_multiples_vanish(m - 2, 1, m);
            lemma_small_mod(1, m as nat);
        } else {
            assert((m - 1) * 1 == m - 1);
            lemma_small_mod((m - 1) as nat, m as nat);
        }
    }
}

/// A `w` whose `2^(t-1)`-th power is `-1` has no positive power below `2^t` equal to one.
proof fn lemma_no_small_order(w: int, t: nat, j: nat)
    requires
        t >= 1,
        fpow(w, two_pow((t - 1) as nat)) == modulus() - 1,
        0 < j < two_pow(t),
    ensures
        fpow(w, j) != 1,
    decreases t,
{
    let m = modulus();
    lemma_modulus_positive();
    let h = two_pow((t - 1) as nat);
    if j % 2 == 0 {
        let j2 = j / 2;
        assert(t >= 2) by {
            if t == 1 {
                assert(two_pow(1) == 2);
            }
        }
        let w2 = fpow(w, 2);
        assert(two_pow((t - 1) as nat) == 2 * two_pow((t - 2) as nat));
        lemma_fpow_mul(w, 2, two_pow((t - 2) as nat));
        lemma_no_small_order(w2, (t - 1) as nat, j2);
        lemma_fpow_mul(w, 2, j2);
        assert(2 * j2 == j);
    } else {
        if fpow(w, j) == 1 {
            lemma_fpow_mul(w, j, h);
            lemma_fpow_one(h);
            lemma_fpow_mul(w, h, j);
            assert(j * h == h * j) by (nonlinear_arith);
            lemma_fpow_minus_one(j);
            assert(m - 1 != 1);
        }
    }
}

/// Equal powers below the order are equal exponents.
pub proof fn lemma_distinct_powers(w: int, n: nat, a: nat, b: nat)
    requires
        has_order(w, n),
        a < b < n,
    ensures
        fpow(w, a) != fpow(w, b),
{
    let c = (n - b) as nat;
    lemma_fpow_add(w, a, c);
    lemma_fpow_add(w, b, c);
    assert(b + c == n);
    assert(0 < a + c < n);
    if fpow(w, a) == fpow(w, b) {
        assert(fpow(w, (a + c) as nat) == 1);
    }
}

/// The generator of the subgroup of order `n`, the table's domain size.
/// Fails with `Setup` exactly when `n` is not a power of two or exceeds `2^28`.
pub fn domain_root(n: usize) -> (r: Result<Scalar, BalooError>)
    ensures
        r is Err <==> !domain_size_ok(n as nat),
        r matches Err(e) ==> e == BalooError::Setup,
        r matches Ok(w) ==> w.wf() && w.value() == domain_generator(n as nat) && has_order(
            w.value(),
            n as nat,
        ),
{
    if n == 0 {
        return Err(BalooError::Setup);
    }
    let mut m: usize = n;
    let mut t: usize = 0;
    while m > 1 && m % 2 == 0
        invariant
            m >= 1,
            t as int + m as int <= n as int,
            is_pow2(n as nat) <==> is_pow2(m as nat),
            is_pow2(m as nat) ==> log2(n as nat) == t + log2(m as nat),
        decreases m,
    {
        m = m / 2;
        t = t + 1;
    }
    if m != 1 || t > TWO_ADICITY as usize {
        return Err(BalooError::Setup);
    }
    let mut w = Scalar::root_of_unity();
    let ghost g = w.value();
    let mut i: usize = 0;
    proof {
        lemma_modulus_positive();
        lemma_fpow_range(two_adic_root(), 1);
        assert(fpow(two_adic_root(), 0) == 1);
        lemma_small_mod(two_adic_root() as nat, modulus() as nat);
        assert(two_adic_root() < modulus());
        assert(fpow(two_adic_root(), 1) == fmul(two_adic_root(), fpow(two_adic_root(), 0)));
        assert(two_adic_root() * 1 == two_adic_root());
        assert(fpow(two_adic_root(), 1) == two_adic_root());
    }
    while i < TWO_ADICITY as usize - t
        invariant
            t <= TWO_ADICITY,
            i <= TWO_ADICITY - t,
            log2(n as nat) == t,
            w.wf(),
            w.value() == fpow(two_adic_root(), two_pow(i as nat)),
        decreases TWO_ADICITY as usize - t - i,
    {
        let ghost e = two_pow(i as nat);
        w = w.mul(&w);
        proof {
            lemma_fpow_add(two_adic_root(), e, e);
            assert(two_pow((i + 1) as nat) == e + e);
        }
        i = i + 1;
    }
    proof {
        let m = modulus();
        let tt = t as nat;
        lemma_pow2_bound(n as nat);
        assert(n as nat == two_pow(tt));
        let e = two_pow((28 - tt) as nat);
        if tt >= 1 {
            lemma_two_pow_add((28 - tt) as nat, (tt - 1) as nat);
            assert((28 - tt) as nat + (tt - 1) as nat == 27);
            lemma_fpow_mul(g, e, two_pow((tt - 1) as nat));
            assert(fpow(w.value(), two_pow((tt - 1) as nat)) == m - 1);
            assert forall|j: nat| 0 < j < n implies #[trigger] fpow(w.value(), j) != 1 by {
                lemma_no_small_order(w.value(), tt, j);
            }
            assert(two_pow(tt) == two_pow((tt - 1) as nat) * 2);
            lemma_fpow_mul(w.value(), two_pow((tt - 1) as nat), 2);
            lemma_fpow_minus_one(2);
        } else {
            assert(e == two_pow(27) * 2);
            lemma_fpow_mul(g, two_pow(27), 2);
            lemma_fpow_minus_one(2);
            assert(fpow(w.value(), 0) == 1);
            lemma_small_mod(1, m as nat);
            assert(fpow(w.value(), 1) == fmul(w.value(), 1));
        }
    }
    Ok(w)
}

/// A domain size that the field allows is at least one and at most `2^28`.
pub proof fn lemma_size_ok_bounds(n: nat)
    requires
        domain_size_ok(n),
    ensures
        1 <= n <= 0x1000_0000,
{
    lemma_pow2_bound(n);
    lemma_two_pow_mono(log2(n), TWO_ADICITY as nat);
    reveal_with_fuel(two_pow, 30);
    assert(two_pow(28) == 0x1000_0000);
}

proof fn lemma_pow2_bound(n: nat)
    requires
        is_pow2(n),
    ensures
        n >= 1,
        n == two_pow(log2(n)),
    decreases n,
{
    if n != 1 {
        lemma_pow2_bound(n / 2);
    }
}

proof fn lemma_two_pow_mono(a: nat, b: nat)
    requires
        a <= b,
    ensures
        two_pow(a) <= two_pow(b),
    decreases b,
{
    if a < b {
        lemma_two_pow_mono(a, (b - 1) as nat);
    }
}

/// The points `ν^0, …, ν^{m-1}`.
pub fn domain_points(nu: Scalar, m: usize) -> (r: Vec<Scalar>)
    ensures
        r.len() == m,
        forall|i: int| 0 <= i < m ==> (#[trigger] r@[i]).wf() && r@[i].value() == fpow(nu.value(), i as nat),
{
    let mut r: Vec<Scalar> = Vec::new();
    let mut p = Scalar::from_u64(1);
    for i in 0..m
        invariant
            r.len() == i,
            p.wf(),
            p.value() == fpow(nu.value(), i as nat),
            forall|j: int| 0 <= j < i ==> (#[trigger] r@[j]).wf() && r@[j].value() == fpow(nu.value(), j as nat),
    {
        r.push(p);
        let ghost prev = p.value();
        p = p.mul(&nu);
        proof {
            assert(prev * nu.value() == nu.value() * prev) by (nonlinear_arith);
        }
    }
    r
}

/// `w` raised to the power `e`.
pub fn power(w: Scalar, e: usize) -> (r: Scalar)
    ensures
        r.wf(),
        r.value() == fpow(w.value(), e as nat),
{
    let mut r = Scalar::from_u64(1);
    proof {
        lemma_modulus_positive();
    }
    for i in 0..e
        invariant
            r.wf(),
            r.value() == fpow(w.value(), i as nat),
    {
        let ghost prev = r.value();
        r = r.mul(&w);
        proof {
            assert(prev * w.value() == w.value() * prev) by (nonlinear_arith);
        }
    }
    r
}

/// The sub-domain `H_I`: `ω^{idx[a]}` for each position `idx[a]`.
pub fn sub_domain(w: Scalar, idx: &Vec<usize>) -> (h: Vec<Scalar>)
    ensures
        h.len() == idx.len(),
        forall|a: int| 0 <= a < idx.len() ==> (#[trigger] h@[a]).wf() && h@[a].value() == fpow(
            w.value(),
            idx@[a] as nat,
        ),
{
    let mut h: Vec<Scalar> = Vec::new();
    for a in 0..idx.len()
        invariant
            h.len() == a,
            forall|b: int| 0 <= b < a ==> (#[trigger] h@[b]).wf() && h@[b].value() == fpow(
                w.value(),
                idx@[b] as nat,
            ),
    {
        h.push(power(w, idx[a]));
    }
    h
}

} // verus!
