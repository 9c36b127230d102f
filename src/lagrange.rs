//! Interpolation over an arbitrary set of points (the sub-domain `H_I`,
//! which is in general no subgroup), in the barycentric form:
//! `t(X) = Σ_j w_j·y_j·Π_{l≠j}(X - h_l)` with `w_j = 1 / Π_{l≠j}(h_j - h_l)`.
use vstd::prelude::*;
use vstd::arithmetic::div_mod::{lemma_mul_mod_noop_left, lemma_mul_mod_noop_right, lemma_small_mod};
use crate::error::BalooError;
use crate::poly::{
    add_scaled, all_wf, evaluate, lemma_horner_zero, lemma_modulus_positive, peval, vals,
    vanish_at, vanishing, zero,
};
use crate::scalar::{Scalar, modulus, fmul, fsub};

verus! {

/// The barycentric denominator of point `j`: `Π_{l≠j}(h_j - h_l)` reduced modulo `r`.
pub open spec fn denominator(h: Seq<int>, j: int) -> int {
    vanish_at(h.remove(j), h[j]) % modulus()
}

/// Two of the points are the same field element.
pub open spec fn has_repeated_point(h: Seq<int>) -> bool {
    exists|a: int, b: int|
        0 <= a < h.len() && 0 <= b < h.len() && a != b && #[trigger] coincide(h, a, b)
}

/// Points `a` and `b` are the same field element.
pub open spec fn coincide(h: Seq<int>, a: int, b: int) -> bool {
    (h[a] - h[b]) % modulus() == 0
}

/// Two different canonical representatives are different field elements.
pub proof fn lemma_distinct_canonical(x: int, y: int)
    requires
        0 <= x < modulus(),
        0 <= y < modulus(),
        x != y,
    ensures
        (x - y) % modulus() != 0,
{
    let m = modulus();
    lemma_modulus_positive();
    if x > y {
        lemma_small_mod((x - y) as nat, m as nat);
    } else {
        vstd::arithmetic::div_mod::lemma_mod_add_multiples_vanish(x - y, m);
        lemma_small_mod((m + x - y) as nat, m as nat);
    }
}

/// One step of a running product and its inverse: if `w` inverts `v` and
/// `i` inverts `f`, then `w·i` inverts `v·f`.
proof fn lemma_inverse_step(v: int, f: int, w: int, i: int)
    requires
        fmul(v % modulus(), w) == 1,
        fmul(f % modulus(), i) == 1,
    ensures
        fmul(fmul(v, f), fmul(w, i)) == 1,
{
    let m = modulus();
    lemma_modulus_positive();
    lemma_mul_mod_noop_left(v, w, m);
    lemma_mul_mod_noop_left(f, i, m);
    vstd::arithmetic::div_mod::lemma_mul_mod_noop(v * f, w * i, m);
    assert((v * f) * (w * i) == (v * w) * (f * i)) by (nonlinear_arith);
    vstd::arithmetic::div_mod::lemma_mul_mod_noop(v * w, f * i, m);
    lemma_small_mod(1, m as nat);
}

/// `y·w·d = y` in the field when `w` is the inverse of `d` and `y` is canonical.
proof fn lemma_cancel(y: int, w: int, d: int)
    requires
        0 <= y < modulus(),
        fmul(d, w) == 1,
    ensures
        fmul(fmul(y, w), d) == y,
{
    let m = modulus();
    lemma_modulus_positive();
    lemma_mul_mod_noop_left(y * w, d, m);
    assert((y * w) * d == y * (d * w)) by (nonlinear_arith);
    lemma_mul_mod_noop_right(y, d * w, m);
    lemma_small_mod(y as nat, m as nat);
}

/// The points without the one at `j`.
pub(crate) fn all_but(points: &Vec<Scalar>, j: usize) -> (r: Vec<Scalar>)
    requires
        j < points.len(),
    ensures
        r@ == points@.remove(j as int),
{
    let mut r: Vec<Scalar> = Vec::new();
    for l in 0..points.len()
        invariant
            j < points.len(),
            l <= j ==> r@ == points@.take(l as int),
            l > j ==> r@ == points@.take(l as int).remove(j as int),
    {
        if l != j {
            r.push(points[l]);
        }
        proof {
            if l < j {
                assert(points@.take(l + 1) == points@.take(l as int).push(points@[l as int]));
            } else if l == j {
                assert(points@.take(l + 1).remove(j as int) == points@.take(l as int));
            } else {
                assert(points@.take(l + 1).remove(j as int) == points@.take(l as int).remove(
                    j as int,
                ).push(points@[l as int]));
            }
        }
    }
    assert(points@.take(points.len() as int) == points@);
    r
}

/// The polynomial of degree below `k` that takes `values[l]` at `points[l]`.
/// Fails with `ProofGeneration` exactly when two points coincide.
pub fn interpolate(points: &Vec<Scalar>, values: &Vec<Scalar>) -> (r: Result<Vec<Scalar>, BalooError>)
    requires
        points.len() == values.len(),
        points.len() < usize::MAX,
        all_wf(values@),
    ensures
        r is Err <==> has_repeated_point(vals(points@)),
        r matches Err(e) ==> e == BalooError::ProofGeneration,
        r matches Ok(t) ==> {
            &&& t.len() == points.len()
            &&& all_wf(t@)
            &&& forall|l: int|
                0 <= l < points.len() ==> peval(vals(t@), #[trigger] points@[l].value())
                    == values@[l].value()
        },
{
    let k = points.len();
    let ghost pv = vals(points@);
    let mut t: Vec<Scalar> = Vec::new();
    for j in 0..k
        invariant
            t.len() == j,
            all_wf(t@),
            forall|i: int| 0 <= i < j ==> (#[trigger] t@[i]).value() == 0,
    {
        t.push(zero());
    }
    proof {
        assert forall|x: int| #[trigger] peval(vals(t@), x) == 0 by {
            lemma_modulus_positive();
            assert forall|i: int| 0 <= i < vals(t@).len() implies #[trigger] vals(t@)[i] == 0 by {
                assert(t@[i].value() == 0);
            }
            lemma_horner_zero(vals(t@), x, 0);
            lemma_small_mod(0, modulus() as nat);
        }
    }
    for j in 0..k
        invariant
            k == points.len(),
            k == values.len(),
            k < usize::MAX,
            pv == vals(points@),
            all_wf(values@),
            t.len() == k,
            all_wf(t@),
            forall|l: int|
                0 <= l < k ==> peval(vals(t@), #[trigger] points@[l].value()) == if l < j {
                    values@[l].value()
                } else {
                    0
                },
            forall|a: int, b: int|
                0 <= a < j && 0 <= b < k && a != b ==> !#[trigger] coincide(pv, a, b),
    {
        let others = all_but(points, j);
        proof {
            assert(vals(others@) == pv.remove(j as int));
        }
        let q = vanishing(&others);
        let d = evaluate(&q, points[j]);
        let ghost ov = vals(others@);
        let hj = points[j];
        let mut w = Scalar::from_u64(1);
        proof {
            lemma_modulus_positive();
            lemma_small_mod(1, modulus() as nat);
            assert(ov.take(0).len() == 0);
            assert(vanish_at(ov.take(0), hj.value()) == 1);
        }
        let mut l: usize = 0;
        while l < others.len()
            invariant
                others@ == points@.remove(j as int),
                ov == vals(others@),
                hj == points@[j as int],
                j < k,
                k == points.len(),
                pv == vals(points@),
                l <= others.len(),
                w.wf(),
                fmul(vanish_at(ov.take(l as int), hj.value()) % modulus(), w.value()) == 1,
                forall|b: int| 0 <= b < k && b != j && (b < j ==> b < l) && (b > j ==> b - 1 < l)
                    ==> !#[trigger] coincide(pv, j as int, b),
            decreases others.len() - l,
        {
            let diff = hj.sub(&others[l]);
            let ghost bi: int = if l < j { l as int } else { l + 1 };
            proof {
                assert(others@[l as int] == points@[bi]);
                lemma_modulus_positive();
                lemma_small_mod(diff.value() as nat, modulus() as nat);
            }
            match diff.invert() {
                None => {
                    proof {
                        assert(coincide(pv, j as int, bi));
                    }
                    return Err(BalooError::ProofGeneration);
                },
                Some(i) => {
                    let ghost old_w = w.value();
                    w = w.mul(&i);
                    proof {
                        let vv = vanish_at(ov.take(l as int), hj.value());
                        let f = hj.value() - ov[l as int];
                        assert(ov.take(l + 1).drop_last() == ov.take(l as int));
                        assert(vanish_at(ov.take(l + 1), hj.value()) == vv * f);
                        lemma_inverse_step(vv, f, old_w, i.value());
                        lemma_mul_mod_noop_left(vv * f, w.value(), modulus());
                        vstd::arithmetic::div_mod::lemma_mul_mod_noop(vv, f, modulus());
                        assert(!coincide(pv, j as int, bi));
                    }
                },
            }
            l = l + 1;
        }
        proof {
            assert(ov.take(others.len() as int) == ov);
            assert(fmul(d.value(), w.value()) == 1);
            assert forall|a: int, b: int|
                0 <= a < j + 1 && 0 <= b < k && a != b implies !#[trigger] coincide(pv, a, b) by {
                if a == j {
                    assert(b < j ==> b < others.len());
                }
            }
        }
        let s = values[j].mul(&w);
        let ghost old_t = t@;
        t = add_scaled(&t, s, &q);
        proof {
            assert forall|l: int| 0 <= l < k implies peval(
                vals(t@),
                #[trigger] points@[l].value(),
            ) == if l < j + 1 {
                values@[l].value()
            } else {
                0
            } by {
                let x = points@[l].value();
                let before = peval(vals(old_t), x);
                assert(before == if l < j { values@[l].value() } else { 0 });
                if l == j {
                    lemma_cancel(values@[l].value(), w.value(), d.value());
                    assert(values@[l].wf());
                    lemma_small_mod(values@[l].value() as nat, modulus() as nat);
                } else {
                    let lo = if l < j { l } else { l - 1 };
                    assert(others@[lo] == points@[l]);
                    assert(peval(vals(q@), others@[lo].value()) == 0);
                    lemma_small_mod(before as nat, modulus() as nat);
                    lemma_small_mod(0, modulus() as nat);
                }
            }
        }
    }
    Ok(t)
}

} // verus!
