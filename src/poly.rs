//! Univariate polynomials over the scalar field, as coefficient vectors
//! (lowest degree first), and the vanishing polynomial of a set of points.
use vstd::prelude::*;
use vstd::arithmetic::div_mod::{
    lemma_add_mod_noop_right, lemma_mul_mod_noop_left, lemma_mul_mod_noop_right,
    lemma_sub_mod_noop_right, lemma_small_mod,
};
use crate::scalar::{Scalar, modulus, fadd, fmul};

verus! {

/// The canonical integers of a coefficient vector.
pub open spec fn vals(p: Seq<Scalar>) -> Seq<int> {
    p.map_values(|s: Scalar| s.value())
}

/// Every coefficient is a canonical representative.
pub open spec fn all_wf(p: Seq<Scalar>) -> bool {
    forall|j: int| 0 <= j < p.len() ==> (#[trigger] p[j]).wf()
}

/// `c[i] + c[i+1]·x + c[i+2]·x² + ...` over the integers.
pub open spec fn horner(c: Seq<int>, x: int, i: int) -> int
    decreases c.len() - i,
{
    if i < 0 || i >= c.len() {
        0
    } else {
        c[i] + x * horner(c, x, i + 1)
    }
}

/// The value in the field of the polynomial with coefficients `c` at `x`.
pub open spec fn peval(c: Seq<int>, x: int) -> int {
    horner(c, x, 0) % modulus()
}

/// Coefficient `k` of `c`, zero outside its range.
pub open spec fn coeff(c: Seq<int>, k: int) -> int {
    if 0 <= k < c.len() {
        c[k]
    } else {
        0
    }
}

pub(crate) proof fn lemma_modulus_positive()
    ensures
        modulus() > 1,
{
}

/// One Horner step taken on reduced values gives the reduced exact step.
proof fn lemma_horner_step(c: int, x: int, h: int)
    ensures
        fadd(fmul(h % modulus(), x), c) == (c + x * h) % modulus(),
{
    let m = modulus();
    lemma_modulus_positive();
    lemma_mul_mod_noop_left(h, x, m);
    lemma_add_mod_noop_right(c, h * x, m);
    assert(h * x == x * h) by (nonlinear_arith);
    assert((h * x) % m + c == c + (h * x) % m);
}

/// Coefficients that agree modulo `r` give values that agree modulo `r`.
pub(crate) proof fn lemma_horner_congruent(c: Seq<int>, d: Seq<int>, x: int, i: int)
    requires
        c.len() == d.len(),
        forall|j: int| 0 <= j < c.len() ==> #[trigger] c[j] % modulus() == d[j] % modulus(),
    ensures
        horner(c, x, i) % modulus() == horner(d, x, i) % modulus(),
    decreases c.len() - i,
{
    let m = modulus();
    lemma_modulus_positive();
    if 0 <= i < c.len() {
        lemma_horner_congruent(c, d, x, i + 1);
        let hc = horner(c, x, i + 1);
        let hd = horner(d, x, i + 1);
        lemma_mul_mod_noop_right(x, hc, m);
        lemma_mul_mod_noop_right(x, hd, m);
        lemma_add_mod_noop_right(c[i], x * hc, m);
        lemma_add_mod_noop_right(d[i], x * hd, m);
        lemma_add_mod_noop_right((x * hc) % m, c[i], m);
        lemma_add_mod_noop_right((x * hd) % m, d[i], m);
        assert((x * hc) % m == (x * hd) % m);
        assert((c[i] + (x * hc) % m) == ((x * hc) % m + c[i]));
        assert((d[i] + (x * hd) % m) == ((x * hd) % m + d[i]));
    }
}

/// Exact form of multiplying by `X - h`: the tail from `i` of the product
/// is the tail of `p` times `x - h`, plus the coefficient just below.
proof fn lemma_times_linear(p: Seq<int>, e: Seq<int>, h: int, x: int, i: int)
    requires
        e.len() == p.len() + 1,
        forall|j: int| 0 <= j < e.len() ==> #[trigger] e[j] == coeff(p, j - 1) - h * coeff(p, j),
        0 <= i <= e.len(),
    ensures
        horner(e, x, i) == coeff(p, i - 1) + (x - h) * horner(p, x, i),
    decreases e.len() - i,
{
    if i < e.len() {
        lemma_times_linear(p, e, h, x, i + 1);
        let he = horner(e, x, i + 1);
        let hp = horner(p, x, i + 1);
        let ci = coeff(p, i);
        let cm = coeff(p, i - 1);
        assert(horner(p, x, i) == ci + x * hp);
        assert(horner(e, x, i) == cm - h * ci + x * he);
        assert(he == ci + (x - h) * hp);
        assert(cm - h * ci + x * (ci + (x - h) * hp) == cm + (x - h) * (ci + x * hp))
            by (nonlinear_arith);
    }
}

/// `(x - s[0])·(x - s[1])···(x - s[n-1])` over the integers.
pub open spec fn vanish_at(s: Seq<int>, x: int) -> int
    decreases s.len(),
{
    if s.len() == 0 {
        1
    } else {
        vanish_at(s.drop_last(), x) * (x - s.last())
    }
}

/// A product that has a factor `x - x` is zero.
proof fn lemma_vanish_at_root(s: Seq<int>, b: int)
    requires
        0 <= b < s.len(),
    ensures
        vanish_at(s, s[b]) == 0,
    decreases s.len(),
{
    let v = vanish_at(s.drop_last(), s[b]);
    assert(vanish_at(s, s[b]) == v * (s[b] - s.last()));
    if b < s.len() - 1 {
        lemma_vanish_at_root(s.drop_last(), b);
        assert(s.drop_last()[b] == s[b]);
        assert(v == 0);
        assert(v * (s[b] - s.last()) == 0);
    } else {
        assert(s[b] - s.last() == 0);
        assert(v * (s[b] - s.last()) == 0);
    }
}

/// Exact form of `t + s·q`: its tail from `i` is the tail of `t` plus `s`
/// times the tail of `q`.
proof fn lemma_horner_add_scaled(t: Seq<int>, q: Seq<int>, e: Seq<int>, s: int, x: int, i: int)
    requires
        t.len() == q.len(),
        e.len() == q.len(),
        forall|j: int| 0 <= j < e.len() ==> #[trigger] e[j] == t[j] + s * q[j],
    ensures
        horner(e, x, i) == horner(t, x, i) + s * horner(q, x, i),
    decreases e.len() - i,
{
    if 0 <= i < e.len() {
        lemma_horner_add_scaled(t, q, e, s, x, i + 1);
        let ht = horner(t, x, i + 1);
        let hq = horner(q, x, i + 1);
        assert(t[i] + s * q[i] + x * (ht + s * hq) == (t[i] + x * ht) + s * (q[i] + x * hq))
            by (nonlinear_arith);
    }
}

/// A polynomial whose coefficients are all zero is zero everywhere.
pub(crate) proof fn lemma_horner_zero(c: Seq<int>, x: int, i: int)
    requires
        forall|j: int| 0 <= j < c.len() ==> #[trigger] c[j] == 0,
    ensures
        horner(c, x, i) == 0,
    decreases c.len() - i,
{
    if 0 <= i < c.len() {
        lemma_horner_zero(c, x, i + 1);
    }
}

/// The zero element.
pub fn zero() -> (r: Scalar)
    ensures
        r.wf(),
        r.value() == 0,
{
    Scalar::from_u64(0)
}

/// Evaluates `p` at `x` by Horner's rule.
pub fn evaluate(p: &Vec<Scalar>, x: Scalar) -> (r: Scalar)
    ensures
        r.wf(),
        r.value() == peval(vals(p@), x.value()),
{
    let ghost c = vals(p@);
    let mut acc = zero();
    let mut i: usize = p.len();
    proof {
        lemma_modulus_positive();
        lemma_small_mod(0, modulus() as nat);
    }
    while i > 0
        invariant
            i <= p.len(),
            c == vals(p@),
            acc.wf(),
            acc.value() == horner(c, x.value(), i as int) % modulus(),
        decreases i,
    {
        let t = acc.mul(&x);
        acc = t.add(&p[i - 1]);
        proof {
            lemma_horner_step(c[i - 1], x.value(), horner(c, x.value(), i as int));
        }
        i = i - 1;
    }
    acc
}

/// The product of `p` and `X - h`.
pub fn mul_linear(p: &Vec<Scalar>, h: Scalar) -> (q: Vec<Scalar>)
    requires
        all_wf(p@),
        p.len() < usize::MAX,
    ensures
        q.len() == p.len() + 1,
        all_wf(q@),
        p.len() > 0 ==> q@[p.len() as int].value() == p@[p.len() - 1].value(),
        forall|x: int|
            #[trigger] peval(vals(q@), x) == ((x - h.value()) * horner(vals(p@), x, 0))
                % modulus(),
{
    let n = p.len();
    let ghost c = vals(p@);
    let ghost e = Seq::new((n + 1) as nat, |j: int| coeff(c, j - 1) - h.value() * coeff(c, j));
    let z = zero();
    let mut q: Vec<Scalar> = Vec::new();
    proof {
        lemma_modulus_positive();
    }
    for j in 0..n + 1
        invariant
            n == p.len(),
            c == vals(p@),
            e == Seq::new((n + 1) as nat, |j: int| coeff(c, j - 1) - h.value() * coeff(c, j)),
            all_wf(p@),
            z.wf() && z.value() == 0,
            q.len() == j,
            all_wf(q@),
            forall|k: int| 0 <= k < j ==> #[trigger] q@[k].value() == e[k] % modulus(),
    {
        let lo = if j > 0 { p[j - 1] } else { z };
        let hi = if j < n { h.mul(&p[j]) } else { z };
        let d = lo.sub(&hi);
        proof {
            let m = modulus();
            lemma_sub_mod_noop_right(lo.value(), h.value() * coeff(c, j as int), m);
            lemma_small_mod(0, m as nat);
            assert(e[j as int] == coeff(c, j - 1) - h.value() * coeff(c, j as int));
            assert(lo.value() == coeff(c, j - 1));
            if j < n {
                assert(hi.value() == (h.value() * coeff(c, j as int)) % m);
            } else {
                assert(h.value() * coeff(c, j as int) == 0);
                assert(hi.value() == (h.value() * coeff(c, j as int)) % m);
            }
        }
        q.push(d);
    }
    proof {
        let m = modulus();
        let qv = vals(q@);
        assert forall|k: int| 0 <= k < qv.len() implies #[trigger] qv[k] % m == e[k] % m by {
            lemma_small_mod(qv[k] as nat, m as nat);
        }
        assert forall|x: int|
            #[trigger] peval(vals(q@), x) == ((x - h.value()) * horner(c, x, 0)) % m by {
            lemma_horner_congruent(qv, e, x, 0);
            lemma_times_linear(c, e, h.value(), x, 0);
        }
        if n > 0 {
            let l = c[n - 1];
            lemma_small_mod(l as nat, m as nat);
            assert(e[n as int] == l);
        }
    }
    q
}

/// The polynomial `t + s·q`, for two coefficient vectors of one length.
pub fn add_scaled(t: &Vec<Scalar>, s: Scalar, q: &Vec<Scalar>) -> (r: Vec<Scalar>)
    requires
        t.len() == q.len(),
    ensures
        r.len() == t.len(),
        all_wf(r@),
        forall|j: int|
            0 <= j < r.len() ==> (#[trigger] r@[j]).value() == fadd(
                t@[j].value(),
                fmul(s.value(), q@[j].value()),
            ),
        forall|x: int|
            #[trigger] peval(vals(r@), x) == fadd(
                peval(vals(t@), x),
                fmul(s.value(), peval(vals(q@), x)),
            ),
{
    let ghost tv = vals(t@);
    let ghost qv = vals(q@);
    let ghost e = Seq::new(t.len() as nat, |j: int| tv[j] + s.value() * qv[j]);
    let mut r: Vec<Scalar> = Vec::new();
    for j in 0..t.len()
        invariant
            t.len() == q.len(),
            tv == vals(t@),
            qv == vals(q@),
            e == Seq::new(t.len() as nat, |j: int| tv[j] + s.value() * qv[j]),
            r.len() == j,
            all_wf(r@),
            forall|k: int| 0 <= k < j ==> #[trigger] r@[k].value() == e[k] % modulus(),
            forall|k: int|
                0 <= k < j ==> (#[trigger] r@[k]).value() == fadd(
                    t@[k].value(),
                    fmul(s.value(), q@[k].value()),
                ),
    {
        let c = t[j].add(&s.mul(&q[j]));
        proof {
            let m = modulus();
            lemma_modulus_positive();
            lemma_add_mod_noop_right(tv[j as int], s.value() * qv[j as int], m);
            assert(e[j as int] == tv[j as int] + s.value() * qv[j as int]);
        }
        r.push(c);
    }
    proof {
        let m = modulus();
        lemma_modulus_positive();
        let rv = vals(r@);
        assert forall|k: int| 0 <= k < rv.len() implies #[trigger] rv[k] % m == e[k] % m by {
            lemma_small_mod(rv[k] as nat, m as nat);
        }
        assert forall|x: int|
            #[trigger] peval(vals(r@), x) == fadd(peval(tv, x), fmul(s.value(), peval(qv, x))) by {
            let ht = horner(tv, x, 0);
            let hq = horner(qv, x, 0);
            lemma_horner_congruent(rv, e, x, 0);
            lemma_horner_add_scaled(tv, qv, e, s.value(), x, 0);
            lemma_mul_mod_noop_right(s.value(), hq, m);
            vstd::arithmetic::div_mod::lemma_add_mod_noop(ht, s.value() * hq, m);
            lemma_add_mod_noop_right(ht % m, s.value() * hq, m);
        }
    }
    r
}

/// Zero coefficients appended at the top change no value.
proof fn lemma_horner_pad(b: Seq<int>, z: Seq<int>, x: int, i: int)
    requires
        0 <= i,
        forall|j: int| 0 <= j < z.len() ==> #[trigger] z[j] == 0,
    ensures
        horner(b + z, x, i) == horner(b, x, i),
    decreases (b + z).len() - i,
{
    let p = b + z;
    if i < p.len() {
        lemma_horner_pad(b, z, x, i + 1);
        if i >= b.len() {
            assert(p[i] == z[i - b.len()]);
        } else {
            assert(p[i] == b[i]);
        }
    }
}

/// `n` zero coefficients.
pub fn zeros(n: usize) -> (r: Vec<Scalar>)
    ensures
        r.len() == n,
        all_wf(r@),
        forall|j: int| 0 <= j < n ==> (#[trigger] r@[j]).value() == 0,
{
    let mut r: Vec<Scalar> = Vec::new();
    for j in 0..n
        invariant
            r.len() == j,
            all_wf(r@),
            forall|i: int| 0 <= i < j ==> (#[trigger] r@[i]).value() == 0,
    {
        r.push(zero());
    }
    r
}

/// A vector of zero coefficients is the zero polynomial.
pub(crate) proof fn lemma_zeros_peval(r: Seq<Scalar>, x: int)
    requires
        forall|j: int| 0 <= j < r.len() ==> (#[trigger] r[j]).value() == 0,
    ensures
        peval(vals(r), x) == 0,
        horner(vals(r), x, 0) == 0,
{
    assert forall|j: int| 0 <= j < vals(r).len() implies #[trigger] vals(r)[j] == 0 by {
        assert(r[j].value() == 0);
    }
    lemma_horner_zero(vals(r), x, 0);
    lemma_modulus_positive();
    lemma_small_mod(0, modulus() as nat);
}

/// The product `a·b`, of length `a.len() + b.len() - 1`.
pub fn multiply(a: &Vec<Scalar>, b: &Vec<Scalar>) -> (r: Vec<Scalar>)
    requires
        b.len() >= 1,
        a.len() + b.len() < usize::MAX,
    ensures
        r.len() == a.len() + b.len() - 1,
        all_wf(r@),
        forall|x: int| #[trigger] peval(vals(r@), x) == fmul(peval(vals(a@), x), peval(vals(b@), x)),
{
    let n = a.len();
    let ghost av = vals(a@);
    let ghost bv = vals(b@);
    let mut r = zeros(b.len() - 1);
    let mut i: usize = n;
    proof {
        lemma_modulus_positive();
        assert forall|x: int| #[trigger] peval(vals(r@), x) == (horner(av, x, n as int) * horner(bv, x, 0)) % modulus() by {
            lemma_zeros_peval(r@, x);
            assert(horner(av, x, n as int) == 0);
            lemma_small_mod(0, modulus() as nat);
        }
    }
    while i > 0
        invariant
            n == a.len(),
            av == vals(a@),
            bv == vals(b@),
            b.len() >= 1,
            a.len() + b.len() < usize::MAX,
            i <= n,
            r.len() == b.len() - 1 + (n - i),
            all_wf(r@),
            forall|x: int| #[trigger] peval(vals(r@), x) == (horner(av, x, i as int) * horner(bv, x, 0)) % modulus(),
        decreases i,
    {
        let mut shifted: Vec<Scalar> = Vec::new();
        shifted.push(zero());
        let mut padded: Vec<Scalar> = Vec::new();
        for j in 0..r.len()
            invariant
                shifted.len() == j + 1,
                shifted@[0].value() == 0,
                forall|l: int| 1 <= l <= j ==> #[trigger] shifted@[l] == r@[l - 1],
        {
            shifted.push(r[j]);
        }
        for j in 0..b.len()
            invariant
                padded@ == b@.take(j as int),
        {
            padded.push(b[j]);
            proof {
                assert(b@.take(j + 1) == b@.take(j as int).push(b@[j as int]));
            }
        }
        assert(padded@ == b@.take(b.len() as int));
        assert(b@.take(b.len() as int) == b@);
        while padded.len() < shifted.len()
            invariant
                b.len() <= padded.len() <= shifted.len(),
                padded@.take(b.len() as int) == b@,
                forall|l: int| b.len() <= l < padded.len() ==> (#[trigger] padded@[l]).value() == 0,
            decreases shifted.len() - padded.len(),
        {
            let ghost prev = padded@;
            padded.push(zero());
            assert(padded@.take(b.len() as int) == prev.take(b.len() as int));
        }
        let ghost extra = padded@.skip(b.len() as int);
        let c = a[i - 1];
        let ghost old_r = vals(r@);
        r = add_scaled(&shifted, c, &padded);
        proof {
            let m = modulus();
            assert(b@.take(b.len() as int) == b@);
            assert forall|x: int| #[trigger] peval(vals(r@), x) == (horner(av, x, i - 1) * horner(bv, x, 0)) % m by {
                let hr = horner(old_r, x, 0);
                let ha = horner(av, x, i as int);
                let hb = horner(bv, x, 0);
                let sv = vals(shifted@);
                assert(sv == seq![0int] + old_r);
                lemma_horner_prepend(0, old_r, x, 0);
                assert(horner(sv, x, 0) == 0 + x * horner(sv, x, 1));
                assert(padded@ == b@ + extra);
                assert(vals(padded@) == bv + vals(extra));
                assert forall|j: int| 0 <= j < vals(extra).len() implies #[trigger] vals(extra)[j] == 0 by {
                    assert(extra[j] == padded@[b.len() + j]);
                }
                lemma_horner_pad(bv, vals(extra), x, 0);
                assert(peval(old_r, x) == (ha * hb) % m);
                assert(horner(av, x, i - 1) == c.value() + x * ha);
                // x·hr + c·hb ≡ x·ha·hb + c·hb = (c + x·ha)·hb
                lemma_mul_mod_noop_right(x, hr, m);
                lemma_mul_mod_noop_right(x, ha * hb, m);
                lemma_mul_mod_noop_right(c.value(), hb, m);
                vstd::arithmetic::div_mod::lemma_add_mod_noop(x * hr, c.value() * hb, m);
                vstd::arithmetic::div_mod::lemma_add_mod_noop(x * (ha * hb), c.value() * hb, m);
                assert(x * (ha * hb) + c.value() * hb == (c.value() + x * ha) * hb) by (nonlinear_arith);
            }
        }
        i = i - 1;
    }
    proof {
        assert forall|x: int| #[trigger] peval(vals(r@), x) == fmul(peval(av, x), peval(bv, x)) by {
            vstd::arithmetic::div_mod::lemma_mul_mod_noop(horner(av, x, 0), horner(bv, x, 0), modulus());
        }
    }
    r
}

/// Prepending `a` gives `a + x·(old value)`: the tail from `i + 1` of
/// `[a] + r` is the tail of `r` from `i`.
proof fn lemma_horner_prepend(a: int, r: Seq<int>, x: int, i: int)
    requires
        0 <= i,
    ensures
        horner(seq![a] + r, x, i + 1) == horner(r, x, i),
    decreases r.len() - i,
{
    let p = seq![a] + r;
    if i < r.len() {
        lemma_horner_prepend(a, r, x, i + 1);
        assert(p[i + 1] == r[i]);
    }
}

/// The tail of `p` from `s` is the polynomial `p[s..]`.
proof fn lemma_horner_suffix(p: Seq<int>, s: int, x: int, j: int)
    requires
        0 <= s <= p.len(),
        0 <= j,
    ensures
        horner(p.subrange(s, p.len() as int), x, j) == horner(p, x, s + j),
    decreases p.len() - s - j,
{
    let t = p.subrange(s, p.len() as int);
    if j < t.len() {
        lemma_horner_suffix(p, s, x, j + 1);
        assert(t[j] == p[s + j]);
    }
}

/// Division by a monic `d`: `p = q·d + rem` with `rem` of degree below
/// `deg d` and `q` of length `p.len() - deg d`.
pub fn divide(p: &Vec<Scalar>, d: &Vec<Scalar>) -> (r: (Vec<Scalar>, Vec<Scalar>))
    requires
        d.len() >= 2,
        d@[d.len() - 1].value() == 1,
        p.len() >= d.len() - 1,
        all_wf(p@),
    ensures
        r.0.len() == p.len() - (d.len() - 1),
        r.1.len() == d.len() - 1,
        all_wf(r.0@),
        all_wf(r.1@),
        forall|x: int|
            #[trigger] peval(vals(p@), x) == fadd(
                fmul(peval(vals(r.0@), x), peval(vals(d@), x)),
                peval(vals(r.1@), x),
            ),
{
    let k = d.len() - 1;
    let n = p.len();
    let ghost pv = vals(p@);
    let ghost dv = vals(d@);
    let mut q: Vec<Scalar> = Vec::new();
    let mut rem: Vec<Scalar> = Vec::new();
    for j in n - k..n
        invariant
            n == p.len(),
            k == d.len() - 1,
            n >= k,
            rem@ == p@.subrange(n - k, j as int),
    {
        rem.push(p[j]);
        proof {
            assert(p@.subrange(n - k, j + 1) == p@.subrange(n - k, j as int).push(p@[j as int]));
        }
    }
    let mut i: usize = n - k;
    proof {
        let m = modulus();
        lemma_modulus_positive();
        assert forall|x: int| #[trigger] horner(pv, x, i as int) % m == (horner(vals(q@), x, 0)
            * horner(dv, x, 0) + horner(vals(rem@), x, 0)) % m by {
            assert(vals(rem@) == pv.subrange(n - k, n as int));
            lemma_horner_suffix(pv, n - k, x, 0);
            assert(horner(vals(q@), x, 0) == 0);
        }
    }
    while i > 0
        invariant
            n == p.len(),
            k == d.len() - 1,
            k >= 1,
            d@[k as int].value() == 1,
            pv == vals(p@),
            dv == vals(d@),
            all_wf(p@),
            i <= n - k,
            q.len() == n - k - i,
            rem.len() == k,
            all_wf(q@),
            all_wf(rem@),
            forall|x: int| #[trigger] horner(pv, x, i as int) % modulus() == (horner(vals(q@), x, 0)
                * horner(dv, x, 0) + horner(vals(rem@), x, 0)) % modulus(),
        decreases i,
    {
        let c = rem[k - 1];
        let minus_c = zero().sub(&c);
        let mut t: Vec<Scalar> = Vec::new();
        t.push(p[i - 1]);
        let mut nq: Vec<Scalar> = Vec::new();
        nq.push(c);
        for j in 0..k
            invariant
                k == rem.len(),
                0 < i <= p.len(),
                t@ == seq![p@[i - 1]] + rem@.take(j as int),
        {
            t.push(rem[j]);
            proof {
                assert(rem@.take(j + 1) == rem@.take(j as int).push(rem@[j as int]));
            }
        }
        for j in 0..q.len()
            invariant
                nq@ == seq![c] + q@.take(j as int),
        {
            nq.push(q[j]);
            proof {
                assert(q@.take(j + 1) == q@.take(j as int).push(q@[j as int]));
            }
        }
        let e = add_scaled(&t, minus_c, d);
        let mut nrem: Vec<Scalar> = Vec::new();
        for j in 0..k
            invariant
                k + 1 == e.len(),
                nrem@ == e@.take(j as int),
        {
            nrem.push(e[j]);
            proof {
                assert(e@.take(j + 1) == e@.take(j as int).push(e@[j as int]));
            }
        }
        proof {
            let m = modulus();
            assert(rem@.take(k as int) == rem@);
            assert(q@.take(q.len() as int) == q@);
            assert(vals(t@) == seq![pv[i - 1]] + vals(rem@));
            assert(vals(nq@) == seq![c.value()] + vals(q@));
            // the top coefficient of `e` is c - c·1 = 0
            let ev = vals(e@);
            let top = seq![ev[k as int]];
            assert(ev == vals(nrem@) + top);
            assert(t@[k as int] == c);
            lemma_small_mod(c.value() as nat, m as nat);
            lemma_mul_mod_noop_right(minus_c.value(), 1, m);
            lemma_add_mod_noop_right(c.value(), 0 - c.value(), m);
            assert(e@[k as int].value() == fadd(t@[k as int].value(), fmul(minus_c.value(), d@[k as int].value())));
            assert(ev[k as int] == fadd(c.value(), fmul(minus_c.value(), 1)));
            assert(minus_c.value() * 1 == minus_c.value());
            lemma_small_mod(minus_c.value() as nat, m as nat);
            assert(fmul(minus_c.value(), 1) == minus_c.value());
            assert(minus_c.value() == (0 - c.value()) % m);
            assert(c.value() + (0 - c.value()) == 0);
            lemma_small_mod(0, m as nat);
            assert(ev[k as int] == 0);
            assert forall|x: int| #[trigger] horner(pv, x, i - 1) % m == (horner(vals(nq@), x, 0)
                * horner(dv, x, 0) + horner(vals(nrem@), x, 0)) % m by {
                let hq = horner(vals(q@), x, 0);
                let hr = horner(vals(rem@), x, 0);
                let hd = horner(dv, x, 0);
                let hp = horner(pv, x, i as int);
                let pi = pv[i - 1];
                let cv = c.value();
                lemma_horner_pad(vals(nrem@), top, x, 0);
                lemma_horner_prepend(pi, vals(rem@), x, 0);
                lemma_horner_prepend(cv, vals(q@), x, 0);
                assert(horner(vals(t@), x, 0) == pi + x * hr);
                assert(horner(vals(nq@), x, 0) == cv + x * hq);
                assert(horner(pv, x, i - 1) == pi + x * hp);
                let he = horner(ev, x, 0);
                // he ≡ pi + x·hr - c·hd
                assert(peval(ev, x) == fadd(peval(vals(t@), x), fmul(minus_c.value(), peval(dv, x))));
                lemma_mul_mod_noop_right(minus_c.value(), hd, m);
                lemma_mul_mod_noop_left(0 - cv, hd, m);
                vstd::arithmetic::div_mod::lemma_add_mod_noop(pi + x * hr, minus_c.value() * hd, m);
                vstd::arithmetic::div_mod::lemma_add_mod_noop(pi + x * hr, (0 - cv) * hd, m);
                assert(he % m == (pi + x * hr + (0 - cv) * hd) % m);
                // (cv + x·hq)·hd + he ≡ x·(hq·hd + hr) + pi ≡ x·hp + pi
                assert((cv + x * hq) * hd + (pi + x * hr + (0 - cv) * hd) == x * (hq * hd + hr) + pi)
                    by (nonlinear_arith);
                vstd::arithmetic::div_mod::lemma_add_mod_noop((cv + x * hq) * hd, he, m);
                vstd::arithmetic::div_mod::lemma_add_mod_noop((cv + x * hq) * hd, pi + x * hr + (0 - cv) * hd, m);
                lemma_mul_mod_noop_right(x, hq * hd + hr, m);
                lemma_mul_mod_noop_right(x, hp, m);
                vstd::arithmetic::div_mod::lemma_add_mod_noop(x * (hq * hd + hr), pi, m);
                vstd::arithmetic::div_mod::lemma_add_mod_noop(x * hp, pi, m);
            }
        }
        q = nq;
        rem = nrem;
        i = i - 1;
    }
    proof {
        let m = modulus();
        assert forall|x: int|
            #[trigger] peval(vals(p@), x) == fadd(
                fmul(peval(vals(q@), x), peval(vals(d@), x)),
                peval(vals(rem@), x),
            ) by {
            let hq = horner(vals(q@), x, 0);
            let hd = horner(dv, x, 0);
            let hr = horner(vals(rem@), x, 0);
            vstd::arithmetic::div_mod::lemma_mul_mod_noop(hq, hd, m);
            vstd::arithmetic::div_mod::lemma_add_mod_noop(hq * hd, hr, m);
        }
    }
    (q, rem)
}

/// `p` with zero coefficients appended up to length `n`: the same polynomial.
pub fn pad_to(p: &Vec<Scalar>, n: usize) -> (r: Vec<Scalar>)
    requires
        p.len() <= n,
    ensures
        r.len() == n,
        all_wf(p@) ==> all_wf(r@),
        forall|x: int| #[trigger] peval(vals(r@), x) == peval(vals(p@), x),
{
    let mut r: Vec<Scalar> = Vec::new();
    for j in 0..p.len()
        invariant
            r@ == p@.take(j as int),
    {
        r.push(p[j]);
        proof {
            assert(p@.take(j + 1) == p@.take(j as int).push(p@[j as int]));
        }
    }
    assert(p@.take(p.len() as int) == p@);
    while r.len() < n
        invariant
            p.len() <= r.len() <= n,
            r@.take(p.len() as int) == p@,
            forall|l: int| p.len() <= l < r.len() ==> (#[trigger] r@[l]).value() == 0 && r@[l].wf(),
        decreases n - r.len(),
    {
        let ghost prev = r@;
        r.push(zero());
        assert(r@.take(p.len() as int) == prev.take(p.len() as int));
    }
    proof {
        let extra = r@.skip(p.len() as int);
        assert(r@ == p@ + extra);
        assert(vals(r@) == vals(p@) + vals(extra));
        assert forall|x: int| #[trigger] peval(vals(r@), x) == peval(vals(p@), x) by {
            assert forall|j: int| 0 <= j < vals(extra).len() implies #[trigger] vals(extra)[j] == 0 by {
                assert(extra[j] == r@[p.len() + j]);
            }
            lemma_horner_pad(vals(p@), vals(extra), x, 0);
        }
        if all_wf(p@) {
            assert forall|j: int| 0 <= j < r.len() implies (#[trigger] r@[j]).wf() by {
                if j < p.len() {
                    assert(r@[j] == p@.take(p.len() as int)[j]);
                }
            }
        }
    }
    r
}

/// The constant polynomial `a`, as `n >= 1` coefficients.
pub fn constant(a: Scalar, n: usize) -> (r: Vec<Scalar>)
    requires
        n >= 1,
        a.wf(),
    ensures
        r.len() == n,
        all_wf(r@),
        forall|x: int| #[trigger] peval(vals(r@), x) == a.value(),
{
    let mut one: Vec<Scalar> = Vec::new();
    one.push(a);
    let r = pad_to(&one, n);
    proof {
        lemma_modulus_positive();
        assert forall|x: int| #[trigger] peval(vals(r@), x) == a.value() by {
            assert(vals(one@)[0] == a.value());
            assert(horner(vals(one@), x, 1) == 0);
            lemma_small_mod(a.value() as nat, modulus() as nat);
        }
    }
    r
}

/// The polynomial `s·p`.
pub fn scale(p: &Vec<Scalar>, s: Scalar) -> (r: Vec<Scalar>)
    ensures
        r.len() == p.len(),
        all_wf(r@),
        forall|x: int| #[trigger] peval(vals(r@), x) == fmul(s.value(), peval(vals(p@), x)),
{
    let z = zeros(p.len());
    let r = add_scaled(&z, s, p);
    proof {
        lemma_modulus_positive();
        assert forall|x: int| #[trigger] peval(vals(r@), x) == fmul(s.value(), peval(vals(p@), x)) by {
            lemma_zeros_peval(z@, x);
            let y = fmul(s.value(), peval(vals(p@), x));
            lemma_small_mod(y as nat, modulus() as nat);
        }
    }
    r
}

/// The vanishing polynomial `(X - h_0)···(X - h_{k-1})` of the points:
/// monic of degree `k`, and its value at `x` is the product of the `x - h_b`.
pub fn vanishing(points: &Vec<Scalar>) -> (z: Vec<Scalar>)
    requires
        points.len() < usize::MAX,
    ensures
        z.len() == points.len() + 1,
        all_wf(z@),
        z@[points.len() as int].value() == 1,
        forall|x: int| #[trigger] peval(vals(z@), x) == vanish_at(vals(points@), x) % modulus(),
        forall|b: int| 0 <= b < points.len() ==> peval(vals(z@), #[trigger] points@[b].value()) == 0,
{
    let mut z: Vec<Scalar> = Vec::new();
    z.push(Scalar::from_u64(1));
    let ghost pv = vals(points@);
    proof {
        lemma_modulus_positive();
        lemma_small_mod(1, modulus() as nat);
        assert forall|x: int| #[trigger] peval(vals(z@), x) == vanish_at(pv.take(0), x) % modulus() by {
            assert(pv.take(0).len() == 0);
            assert(vals(z@)[0] == 1);
            assert(horner(vals(z@), x, 1) == 0);
            assert(horner(vals(z@), x, 0) == 1);
        }
    }
    for a in 0..points.len()
        invariant
            pv == vals(points@),
            points.len() < usize::MAX,
            z.len() == a + 1,
            all_wf(z@),
            z@[a as int].value() == 1,
            forall|x: int| #[trigger] peval(vals(z@), x) == vanish_at(pv.take(a as int), x) % modulus(),
    {
        let h = points[a];
        let ghost old_z = z@;
        z = mul_linear(&z, h);
        proof {
            let m = modulus();
            assert forall|x: int| #[trigger] peval(vals(z@), x) == vanish_at(pv.take(a + 1), x) % m by {
                let hz = horner(vals(old_z), x, 0);
                let pr = vanish_at(pv.take(a as int), x);
                assert(pv.take(a + 1).drop_last() == pv.take(a as int));
                assert(pv.take(a + 1).last() == h.value());
                assert(peval(vals(old_z), x) == pr % m);
                assert(vanish_at(pv.take(a + 1), x) == pr * (x - h.value()));
                lemma_mul_mod_noop_right(x - h.value(), hz, m);
                lemma_mul_mod_noop_right(x - h.value(), pr, m);
                assert(pr * (x - h.value()) == (x - h.value()) * pr) by (nonlinear_arith);
            }
        }
    }
    proof {
        assert(pv.take(points.len() as int) == pv);
        assert forall|b: int| 0 <= b < points.len() implies peval(vals(z@), #[trigger] points@[b].value()) == 0 by {
            lemma_vanish_at_root(pv, b);
            assert(pv[b] == points@[b].value());
        }
    }
    z
}

} // verus!
