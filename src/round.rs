//! The polynomials of the prover's second round. With `μ_i` the Lagrange
//! basis of `V` (`μ_i(X) = z_V(X)/(X − ν^i)·ν^i/m`) and `τ_j` the basis of
//! `H_I` normalised to one at zero (`τ_j(X) = z_I(X)/(X − h_j)·(−h_j)/z_I(0)`):
//! `D(X) = Σ_i μ_i(α)·τ_{col(i)}(X)` and `E(X) = Σ_i μ_i(X)·τ_{col(i)}(β)`.
use vstd::prelude::*;
use vstd::arithmetic::div_mod::{lemma_mul_mod_noop_left, lemma_mul_mod_noop_right, lemma_small_mod};
use crate::error::BalooError;
use crate::lagrange::{all_but, denominator};
use crate::poly::{
    add_scaled, all_wf, evaluate, lemma_modulus_positive, peval, scale, vals, vanish_at, vanishing,
    zero, zeros,
};
use crate::scalar::{Scalar, lemma_fmul_comm, modulus, fadd, fmul, fsub};

verus! {

/// The inverse of `a` in the field, where it has one.
pub open spec fn finv(a: int) -> int {
    choose|w: int| 0 <= w < modulus() && fmul(a, w) == 1
}

/// Lagrange basis polynomial `i` of the points `pts`, at `x`.
pub open spec fn lagrange_basis(pts: Seq<int>, i: int, x: int) -> int {
    fmul(vanish_at(pts.remove(i), x) % modulus(), finv(denominator(pts, i)))
}

/// `τ_j(x) = Π_{l≠j}(x − h_l)·(−h_j)/z_I(0)`, the basis of `H_I` that is one at zero.
pub open spec fn tau(h: Seq<int>, j: int, x: int) -> int {
    fmul(fmul(vanish_at(h.remove(j), x) % modulus(), fsub(0, h[j])), finv(vanish_at(h, 0) % modulus()))
}

/// `Σ_{i<n} μ_i(α)·τ_{col(i)}(x)`.
pub open spec fn d_at(v: Seq<int>, h: Seq<int>, col: Seq<usize>, alpha: int, n: int, x: int) -> int
    decreases n,
{
    if n <= 0 {
        0
    } else {
        fadd(
            d_at(v, h, col, alpha, n - 1, x),
            fmul(lagrange_basis(v, n - 1, alpha), tau(h, col[n - 1] as int, x)),
        )
    }
}

/// `Σ_{i<n} μ_i(x)·τ_{col(i)}(β)`.
pub open spec fn e_at(v: Seq<int>, h: Seq<int>, col: Seq<usize>, beta: int, n: int, x: int) -> int
    decreases n,
{
    if n <= 0 {
        0
    } else {
        fadd(
            e_at(v, h, col, beta, n - 1, x),
            fmul(lagrange_basis(v, n - 1, x), tau(h, col[n - 1] as int, beta)),
        )
    }
}

/// An inverse is the inverse.
proof fn lemma_inverse_unique(a: int, w: int)
    requires
        0 <= w < modulus(),
        fmul(a, w) == 1,
    ensures
        finv(a) == w,
{
    let m = modulus();
    lemma_modulus_positive();
    let w2 = finv(a);
    assert(0 <= w2 < m && fmul(a, w2) == 1);
    // w = w·(a·w2) = (w·a)·w2 = w2
    lemma_mul_mod_noop_right(w, a * w2, m);
    assert((w * (a * w2)) % m == (w * 1) % m);
    assert(w * 1 == w);
    lemma_small_mod(w as nat, m as nat);
    assert(w * (a * w2) == (w * a) * w2) by (nonlinear_arith);
    assert(w * a == a * w) by (nonlinear_arith);
    lemma_mul_mod_noop_left(w * a, w2, m);
    assert(((w * a) * w2) % m == (1 * w2) % m);
    assert(1 * w2 == w2);
    lemma_small_mod(w2 as nat, m as nat);
}

/// `z_I(0)^{-1}`; fails with `ProofGeneration` when `z_I(0)` is zero.
pub fn vanishing_at_zero_inverse(z_i: &Vec<Scalar>) -> (r: Result<Scalar, BalooError>)
    ensures
        r is Err <==> peval(vals(z_i@), 0) == 0,
        r matches Err(e) ==> e == BalooError::ProofGeneration,
        r matches Ok(w) ==> w.wf() && w.value() == finv(peval(vals(z_i@), 0)),
{
    let z0 = evaluate(z_i, zero());
    proof {
        lemma_modulus_positive();
        lemma_small_mod(z0.value() as nat, modulus() as nat);
    }
    match z0.invert() {
        None => Err(BalooError::ProofGeneration),
        Some(w) => {
            proof {
                lemma_inverse_unique(z0.value(), w.value());
            }
            Ok(w)
        },
    }
}

/// `τ_j` of the points `h`, as a polynomial of degree below `k`, given
/// `z_inv = z_I(0)^{-1}`.
pub fn tau_poly(h: &Vec<Scalar>, j: usize, z_inv: Scalar) -> (r: Vec<Scalar>)
    requires
        j < h.len(),
        z_inv.value() == finv(vanish_at(vals(h@), 0) % modulus()),
    ensures
        r.len() == h.len(),
        all_wf(r@),
        forall|x: int| #[trigger] peval(vals(r@), x) == tau(vals(h@), j as int, x),
{
    let others = all_but(h, j);
    let base = vanishing(&others);
    let s = zero().sub(&h[j]).mul(&z_inv);
    let r = scale(&base, s);
    proof {
        let m = modulus();
        lemma_modulus_positive();
        assert(vals(others@) == vals(h@).remove(j as int));
        assert forall|x: int| #[trigger] peval(vals(r@), x) == tau(vals(h@), j as int, x) by {
            let b = vanish_at(vals(h@).remove(j as int), x) % m;
            let nh = fsub(0, h@[j as int].value());
            let zi = z_inv.value();
            // s·b = (nh·zi)·b = (b·nh)·zi
            lemma_mul_mod_noop_left(nh * zi, b, m);
            lemma_mul_mod_noop_left(b * nh, zi, m);
            assert((nh * zi) * b == (b * nh) * zi) by (nonlinear_arith);
        }
    }
    r
}

/// `μ_i(x)`, Lagrange basis polynomial `i` of the points `pts`, at `x`;
/// fails with `ProofGeneration` when its denominator is zero.
pub fn lagrange_at(pts: &Vec<Scalar>, i: usize, x: Scalar) -> (r: Result<Scalar, BalooError>)
    requires
        i < pts.len(),
    ensures
        r is Err <==> denominator(vals(pts@), i as int) == 0,
        r matches Err(e) ==> e == BalooError::ProofGeneration,
        r matches Ok(s) ==> s.wf() && s.value() == lagrange_basis(vals(pts@), i as int, x.value()),
{
    let others = all_but(pts, i);
    let q = vanishing(&others);
    let num = evaluate(&q, x);
    let den = evaluate(&q, pts[i]);
    proof {
        lemma_modulus_positive();
        assert(vals(others@) == vals(pts@).remove(i as int));
        lemma_small_mod(den.value() as nat, modulus() as nat);
    }
    match den.invert() {
        None => Err(BalooError::ProofGeneration),
        Some(w) => {
            proof {
                lemma_inverse_unique(den.value(), w.value());
            }
            Ok(num.mul(&w))
        },
    }
}

/// The Lagrange basis polynomial `i` of the points `pts`.
pub fn lagrange_poly(pts: &Vec<Scalar>, i: usize) -> (r: Result<Vec<Scalar>, BalooError>)
    requires
        i < pts.len(),
    ensures
        r is Err <==> denominator(vals(pts@), i as int) == 0,
        r matches Err(e) ==> e == BalooError::ProofGeneration,
        r matches Ok(p) ==> p.len() == pts.len() && all_wf(p@) && forall|x: int| #[trigger]
            peval(vals(p@), x) == lagrange_basis(vals(pts@), i as int, x),
{
    let others = all_but(pts, i);
    let q = vanishing(&others);
    let den = evaluate(&q, pts[i]);
    proof {
        lemma_modulus_positive();
        assert(vals(others@) == vals(pts@).remove(i as int));
        lemma_small_mod(den.value() as nat, modulus() as nat);
    }
    match den.invert() {
        None => Err(BalooError::ProofGeneration),
        Some(w) => {
            let p = scale(&q, w);
            proof {
                lemma_inverse_unique(den.value(), w.value());
                assert forall|x: int| #[trigger] peval(vals(p@), x) == lagrange_basis(vals(pts@), i as int, x) by {
                    lemma_fmul_comm(w.value(), peval(vals(q@), x));
                }
            }
            Ok(p)
        },
    }
}

/// `D(X) = Σ_i μ_i(α)·τ_{col(i)}(X)`, of degree below `k = h.len()`.
pub fn build_d(v_pts: &Vec<Scalar>, h: &Vec<Scalar>, col: &Vec<usize>, alpha: Scalar, z_inv: Scalar) -> (r:
    Result<Vec<Scalar>, BalooError>)
    requires
        col.len() == v_pts.len(),
        forall|i: int| 0 <= i < col.len() ==> #[trigger] col@[i] < h.len(),
        z_inv.value() == finv(vanish_at(vals(h@), 0) % modulus()),
    ensures
        r is Err <==> exists|i: int| 0 <= i < v_pts.len() && #[trigger] denominator(vals(v_pts@), i) == 0,
        r matches Err(e) ==> e == BalooError::ProofGeneration,
        r matches Ok(d) ==> d.len() == h.len() && all_wf(d@) && forall|x: int| #[trigger]
            peval(vals(d@), x) == d_at(vals(v_pts@), vals(h@), col@, alpha.value(), v_pts.len() as int, x),
{
    let mut d = zeros(h.len());
    proof {
        assert forall|x: int| #[trigger] peval(vals(d@), x) == d_at(vals(v_pts@), vals(h@), col@, alpha.value(), 0, x) by {
            crate::poly::lemma_zeros_peval(d@, x);
        }
    }
    for i in 0..v_pts.len()
        invariant
            col.len() == v_pts.len(),
            forall|i: int| 0 <= i < col.len() ==> #[trigger] col@[i] < h.len(),
            z_inv.value() == finv(vanish_at(vals(h@), 0) % modulus()),
            d.len() == h.len(),
            all_wf(d@),
            forall|j: int| 0 <= j < i ==> #[trigger] denominator(vals(v_pts@), j) != 0,
            forall|x: int| #[trigger] peval(vals(d@), x) == d_at(vals(v_pts@), vals(h@), col@, alpha.value(), i as int, x),
    {
        let mu = match lagrange_at(v_pts, i, alpha) {
            Err(e) => {
                return Err(e);
            },
            Ok(s) => s,
        };
        let t = tau_poly(h, col[i], z_inv);
        d = add_scaled(&d, mu, &t);
    }
    Ok(d)
}

/// `E(X) = Σ_i μ_i(X)·τ_{col(i)}(β)`, of degree below `m = v_pts.len()`.
pub fn build_e(v_pts: &Vec<Scalar>, h: &Vec<Scalar>, col: &Vec<usize>, beta: Scalar, z_inv: Scalar) -> (r:
    Result<Vec<Scalar>, BalooError>)
    requires
        col.len() == v_pts.len(),
        forall|i: int| 0 <= i < col.len() ==> #[trigger] col@[i] < h.len(),
        z_inv.value() == finv(vanish_at(vals(h@), 0) % modulus()),
    ensures
        r is Err <==> exists|i: int| 0 <= i < v_pts.len() && #[trigger] denominator(vals(v_pts@), i) == 0,
        r matches Err(e) ==> e == BalooError::ProofGeneration,
        r matches Ok(e) ==> e.len() == v_pts.len() && all_wf(e@) && forall|x: int| #[trigger]
            peval(vals(e@), x) == e_at(vals(v_pts@), vals(h@), col@, beta.value(), v_pts.len() as int, x),
{
    let mut e = zeros(v_pts.len());
    proof {
        assert forall|x: int| #[trigger] peval(vals(e@), x) == e_at(vals(v_pts@), vals(h@), col@, beta.value(), 0, x) by {
            crate::poly::lemma_zeros_peval(e@, x);
        }
    }
    for i in 0..v_pts.len()
        invariant
            col.len() == v_pts.len(),
            forall|i: int| 0 <= i < col.len() ==> #[trigger] col@[i] < h.len(),
            z_inv.value() == finv(vanish_at(vals(h@), 0) % modulus()),
            e.len() == v_pts.len(),
            all_wf(e@),
            forall|j: int| 0 <= j < i ==> #[trigger] denominator(vals(v_pts@), j) != 0,
            forall|x: int| #[trigger] peval(vals(e@), x) == e_at(vals(v_pts@), vals(h@), col@, beta.value(), i as int, x),
    {
        let basis = match lagrange_poly(v_pts, i) {
            Err(err) => {
                return Err(err);
            },
            Ok(p) => p,
        };
        let t = tau_poly(h, col[i], z_inv);
        let tb = evaluate(&t, beta);
        let ghost prev = e@;
        e = add_scaled(&e, tb, &basis);
        proof {
            assert forall|x: int| #[trigger] peval(vals(e@), x) == e_at(vals(v_pts@), vals(h@), col@, beta.value(), i + 1, x) by {
                lemma_fmul_comm(tb.value(), peval(vals(basis@), x));
            }
        }
    }
    Ok(e)
}

} // verus!
