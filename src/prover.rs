//! The quotient steps of the prover's second round: `Q_D` from
//! `D·t_I − φ(α)` over `z_I`, and `Q_E` from `E·(β − v) + v·z_I(β)/z_I(0)`
//! over `z_V = X^m − 1`. A remainder that is not zero is a fatal error:
//! no quotient is handed out for it.
use vstd::prelude::*;
use vstd::arithmetic::div_mod::{lemma_add_mod_noop, lemma_add_mod_noop_right, lemma_small_mod};
use crate::error::BalooError;
use crate::poly::{
    add_scaled, all_wf, constant, divide, pad_to, horner, lemma_horner_zero, lemma_modulus_positive, multiply, peval,
    vals, zero,
};
use crate::scalar::{Scalar, modulus, fadd, fmul, fsub};

verus! {

/// `x^e` over the integers.
pub open spec fn ipow(x: int, e: nat) -> int
    decreases e,
{
    if e == 0 {
        1
    } else {
        x * ipow(x, (e - 1) as nat)
    }
}

/// The tail from `i >= 1` of `[-1, 0, …, 0, 1]` (length `m + 1`) is `x^(m-i)`.
proof fn lemma_horner_monomial(c: Seq<int>, m: nat, x: int, i: int)
    requires
        c.len() == m + 1,
        c[m as int] == 1,
        forall|j: int| 1 <= j < m ==> #[trigger] c[j] == 0,
        1 <= i <= m + 1,
    ensures
        i <= m ==> horner(c, x, i) == ipow(x, (m - i) as nat),
        i == m + 1 ==> horner(c, x, i) == 0,
    decreases m + 1 - i,
{
    if i <= m {
        lemma_horner_monomial(c, m, x, i + 1);
        if i < m {
            assert((m - i) as nat == ((m - (i + 1)) as nat + 1) as nat);
        }
    }
}

/// The vanishing polynomial `X^m − 1` of the subgroup of order `m`.
pub fn subgroup_vanishing(m: usize) -> (z: Vec<Scalar>)
    requires
        1 <= m < usize::MAX,
    ensures
        z.len() == m + 1,
        all_wf(z@),
        z@[m as int].value() == 1,
        forall|x: int| #[trigger] peval(vals(z@), x) == (ipow(x, m as nat) - 1) % modulus(),
{
    let mut z: Vec<Scalar> = Vec::new();
    z.push(zero().sub(&Scalar::from_u64(1)));
    for j in 1..m
        invariant
            z.len() == j,
            1 <= j <= m,
            all_wf(z@),
            z@[0].value() == (0 - 1) % modulus(),
            forall|l: int| 1 <= l < j ==> (#[trigger] z@[l]).value() == 0,
    {
        z.push(zero());
    }
    z.push(Scalar::from_u64(1));
    proof {
        let md = modulus();
        lemma_modulus_positive();
        let c = vals(z@);
        assert forall|x: int| #[trigger] peval(vals(z@), x) == (ipow(x, m as nat) - 1) % md by {
            lemma_horner_monomial(c, m as nat, x, 1);
            assert(c[0] == (0 - 1) % md);
            assert(horner(c, x, 0) == c[0] + x * ipow(x, (m - 1) as nat));
            assert(ipow(x, m as nat) == x * ipow(x, (m - 1) as nat));
            vstd::arithmetic::div_mod::lemma_add_mod_noop_right(x * ipow(x, (m - 1) as nat), 0 - 1, md);
        }
    }
    z
}

/// Exact division by a monic polynomial: the quotient `q` with `q·z = num`,
/// or `ProofGeneration` when the remainder is not zero.
pub fn exact_quotient(num: &Vec<Scalar>, z: &Vec<Scalar>) -> (r: Result<Vec<Scalar>, BalooError>)
    requires
        z.len() >= 2,
        z@[z.len() - 1].value() == 1,
        num.len() >= z.len() - 1,
        all_wf(num@),
    ensures
        r matches Err(e) ==> e == BalooError::ProofGeneration,
        r matches Ok(q) ==> {
            &&& q.len() == num.len() - (z.len() - 1)
            &&& all_wf(q@)
            &&& forall|x: int|
                #[trigger] fmul(peval(vals(q@), x), peval(vals(z@), x)) == peval(vals(num@), x)
        },
{
    let (q, rem) = divide(num, z);
    let zz = zero();
    let mut j: usize = 0;
    while j < rem.len()
        invariant
            j <= rem.len(),
            zz.value() == 0,
            forall|l: int| 0 <= l < j ==> (#[trigger] rem@[l]).value() == 0,
        decreases rem.len() - j,
    {
        if rem[j] != zz {
            return Err(BalooError::ProofGeneration);
        }
        j = j + 1;
    }
    proof {
        let md = modulus();
        lemma_modulus_positive();
        assert forall|x: int|
            #[trigger] fmul(peval(vals(q@), x), peval(vals(z@), x)) == peval(vals(num@), x) by {
            assert forall|l: int| 0 <= l < vals(rem@).len() implies #[trigger] vals(rem@)[l] == 0 by {
                assert(rem@[l].value() == 0);
            }
            lemma_horner_zero(vals(rem@), x, 0);
            lemma_small_mod(0, md as nat);
            let pq = fmul(peval(vals(q@), x), peval(vals(z@), x));
            lemma_small_mod(pq as nat, md as nat);
        }
    }
    Ok(q)
}

/// Divides `D·t_I − φ(α)` by `z_I` (monic of degree `k`), where `D` and
/// `t_I` have degree below `k`: the quotient `Q_D` and remainder `R`, with
/// `Q_D·z_I + R + φ(α) = D·t_I` as polynomials and both of degree below `k`.
/// For a valid witness `R(0) = 0`; any other value fails with `ProofGeneration`.
pub fn quotient_d(d: &Vec<Scalar>, t_i: &Vec<Scalar>, phi_alpha: Scalar, z_i: &Vec<Scalar>) -> (r:
    Result<(Vec<Scalar>, Vec<Scalar>), BalooError>)
    requires
        z_i.len() >= 2,
        z_i@[z_i.len() - 1].value() == 1,
        d.len() == z_i.len() - 1,
        t_i.len() == z_i.len() - 1,
        z_i.len() < usize::MAX / 2,
        phi_alpha.wf(),
    ensures
        r matches Err(e) ==> e == BalooError::ProofGeneration,
        r matches Ok((q, rem)) ==> {
            &&& q.len() < d.len()
            &&& rem.len() == d.len()
            &&& all_wf(q@)
            &&& all_wf(rem@)
            &&& rem@[0].value() == 0
            &&& forall|x: int|
                #[trigger] fadd(
                    fadd(fmul(peval(vals(q@), x), peval(vals(z_i@), x)), peval(vals(rem@), x)),
                    phi_alpha.value(),
                ) == fmul(peval(vals(d@), x), peval(vals(t_i@), x))
        },
{
    let prod = multiply(d, t_i);
    let c = constant(phi_alpha, prod.len());
    let minus_one = zero().sub(&Scalar::from_u64(1));
    let num = add_scaled(&prod, minus_one, &c);
    let (q, rem) = divide(&num, z_i);
    if rem[0] != zero() {
        return Err(BalooError::ProofGeneration);
    }
    proof {
        let md = modulus();
        lemma_modulus_positive();
        assert forall|x: int|
            #[trigger] fadd(
                fadd(fmul(peval(vals(q@), x), peval(vals(z_i@), x)), peval(vals(rem@), x)),
                phi_alpha.value(),
            ) == fmul(peval(vals(d@), x), peval(vals(t_i@), x)) by {
            let pp = peval(vals(prod@), x);
            let nn = peval(vals(num@), x);
            let a = phi_alpha.value();
            assert(nn == fadd(pp, fmul(minus_one.value(), a)));
            assert(minus_one.value() == (0 - 1) % md);
            vstd::arithmetic::div_mod::lemma_mul_mod_noop_left(0 - 1, a, md);
            lemma_add_mod_noop_right(pp, (0 - 1) * a, md);
            lemma_small_mod(pp as nat, md as nat);
            lemma_small_mod(a as nat, md as nat);
            lemma_add_mod_noop_right(pp - a, a, md);
            lemma_small_mod(nn as nat, md as nat);
            lemma_add_mod_noop(nn, a, md);
            lemma_add_mod_noop(pp - a, a, md);
        }
    }
    Ok((q, rem))
}

/// The quotient `Q_E` of `E·(β − v) + ratio·v` by `z_V = X^m − 1`, where `E`
/// and `v` have degree below `m` and `ratio` is `z_I(β)/z_I(0)`. On success
/// `Q_E·z_V = E·(β − v) + ratio·v` as polynomials, and `Q_E` has degree below `m`.
pub fn quotient_e(e: &Vec<Scalar>, v: &Vec<Scalar>, beta: Scalar, ratio: Scalar) -> (r: Result<
    Vec<Scalar>,
    BalooError,
>)
    requires
        e.len() >= 1,
        v.len() == e.len(),
        e.len() < usize::MAX / 2,
        all_wf(v@),
        beta.wf(),
    ensures
        r matches Err(err) ==> err == BalooError::ProofGeneration,
        r matches Ok(q) ==> {
            &&& q.len() < e.len()
            &&& all_wf(q@)
            &&& forall|x: int|
                #[trigger] fmul(peval(vals(q@), x), (ipow(x, e.len() as nat) - 1) % modulus())
                    == fadd(
                    fmul(peval(vals(e@), x), fsub(beta.value(), peval(vals(v@), x))),
                    fmul(ratio.value(), peval(vals(v@), x)),
                )
        },
{
    let m = e.len();
    let cb = constant(beta, m);
    let minus_one = zero().sub(&Scalar::from_u64(1));
    let w = add_scaled(&cb, minus_one, v);
    let prod = multiply(e, &w);
    let vp = pad_to(v, prod.len());
    let num = add_scaled(&prod, ratio, &vp);
    let z_v = subgroup_vanishing(m);
    match exact_quotient(&num, &z_v) {
        Err(err) => Err(err),
        Ok(q) => {
            proof {
                let md = modulus();
                lemma_modulus_positive();
                assert forall|x: int|
                    #[trigger] fmul(peval(vals(q@), x), (ipow(x, m as nat) - 1) % md) == fadd(
                        fmul(peval(vals(e@), x), fsub(beta.value(), peval(vals(v@), x))),
                        fmul(ratio.value(), peval(vals(v@), x)),
                    ) by {
                    let vv = peval(vals(v@), x);
                    let bb = beta.value();
                    assert(peval(vals(z_v@), x) == (ipow(x, m as nat) - 1) % md);
                    assert(peval(vals(w@), x) == fadd(bb, fmul(minus_one.value(), vv)));
                    assert(minus_one.value() == (0 - 1) % md);
                    vstd::arithmetic::div_mod::lemma_mul_mod_noop_left(0 - 1, vv, md);
                    lemma_add_mod_noop_right(bb, (0 - 1) * vv, md);
                    assert(peval(vals(w@), x) == fsub(bb, vv));
                }
            }
            Ok(q)
        },
    }
}

} // verus!
