//! The prover's polynomial work for one lookup: the pre-flight checks and
//! the first-round polynomials, then the second-round polynomials for the
//! challenges `α` and `β` that the transcript yields.
use vstd::prelude::*;
use crate::domain::{
    domain_generator, domain_root, domain_size_ok, has_order, lemma_distinct_powers, sub_domain,
};
use crate::error::BalooError;
use crate::index::{extract_index, in_table, index_map};
use crate::pcs::PolynomialCommitmentScheme;
use crate::lagrange::{coincide, has_repeated_point, interpolate, lemma_distinct_canonical};
use crate::poly::{all_wf, evaluate, peval, vals, vanish_at, vanishing};
use crate::prover::{ipow, quotient_d, quotient_e};
use crate::round::{build_d, build_e, d_at, e_at, finv};
use crate::scalar::{Scalar, modulus, fadd, fmul, fpow, fsub};

verus! {

/// Parameters of the prover that depend on the table size alone.
#[derive(Clone, Debug)]
pub struct BalooProverParam {
    pub(crate) num_vars: usize,
}

/// What the verifier keeps per table: the commitments to `z_H` and `t`.
pub struct BalooVerifierParam<F, Pcs: PolynomialCommitmentScheme<F>> {
    pub(crate) preprocess_comms: Vec<Pcs::Commitment>,
}

/// The table's polynomials, made once per table and reused by every proof:
/// `z_H = X^N − 1` and `t`, which takes `table[i]` at `ω^i`.
pub struct Preprocessed {
    pub z_h: Vec<Scalar>,
    pub t: Vec<Scalar>,
}

/// The table-only setup. Fails with `Setup` exactly when the table length is
/// not a power of two within the field's domains.
pub fn preprocess(table: &Vec<Scalar>) -> (r: Result<Preprocessed, BalooError>)
    requires
        all_wf(table@),
    ensures
        r is Ok <==> domain_size_ok(table.len() as nat),
        r matches Err(e) ==> e == BalooError::Setup,
        r matches Ok(pre) ==> {
            &&& pre.z_h.len() == table.len() + 1
            &&& forall|x: int| #[trigger] peval(vals(pre.z_h@), x) == (ipow(x, table.len() as nat) - 1)
                % modulus()
            &&& pre.t.len() == table.len()
            &&& forall|i: int| 0 <= i < table.len() ==> #[trigger] peval(
                vals(pre.t@),
                fpow(domain_generator(table.len() as nat), i as nat),
            ) == table@[i].value()
        },
{
    let n = table.len();
    let w = match domain_root(n) {
        Err(e) => {
            return Err(e);
        },
        Ok(w) => w,
    };
    proof {
        crate::domain::lemma_size_ok_bounds(n as nat);
    }
    let z_h = crate::prover::subgroup_vanishing(n);
    let pts = crate::domain::domain_points(w, n);
    proof {
        lemma_powers_distinct(w.value(), n as nat, pts@);
    }
    let t = match interpolate(&pts, table) {
        Err(e) => {
            return Err(e);
        },
        Ok(t) => t,
    };
    let pre = Preprocessed { z_h, t };
    proof {
        assert forall|i: int| 0 <= i < n implies #[trigger] peval(
            vals(pre.t@),
            fpow(domain_generator(n as nat), i as nat),
        ) == table@[i].value() by {
            assert(pts@[i].value() == fpow(w.value(), i as nat));
        }
    }
    Ok(pre)
}

/// Points that are distinct powers of an element of order `n` never coincide.
proof fn lemma_powers_distinct(w: int, n: nat, pts: Seq<Scalar>)
    requires
        has_order(w, n),
        pts.len() == n,
        forall|i: int| 0 <= i < n ==> (#[trigger] pts[i]).wf() && pts[i].value() == fpow(w, i as nat),
    ensures
        !has_repeated_point(vals(pts)),
{
    assert forall|a: int, b: int|
        0 <= a < n && 0 <= b < n && a != b implies !#[trigger] coincide(vals(pts), a, b) by {
        if a < b {
            lemma_distinct_powers(w, n, a as nat, b as nat);
        } else {
            lemma_distinct_powers(w, n, b as nat, a as nat);
        }
        lemma_distinct_canonical(pts[a].value(), pts[b].value());
    }
}

/// What the first round derives from `(table, lookup)`.
pub struct RoundOne {
    /// The index set `I`: first table position of each distinct lookup value.
    pub idx: Vec<usize>,
    /// The column map: `table[idx[col[i]]] == lookup[i]`.
    pub col: Vec<usize>,
    /// The sub-domain `H_I`: `h[a] = ω^{idx[a]}`.
    pub h: Vec<Scalar>,
    /// `z_I`, the vanishing polynomial of `H_I`.
    pub z_i: Vec<Scalar>,
    /// `t_I`, which takes `table[idx[a]]` at `h[a]`.
    pub t_i: Vec<Scalar>,
    /// The domain `V`: `v_pts[i] = ν^i`.
    pub v_pts: Vec<Scalar>,
    /// `φ`, which takes `lookup[i]` at `ν^i`.
    pub phi: Vec<Scalar>,
    /// `v`, which takes `h[col[i]]` at `ν^i`.
    pub v: Vec<Scalar>,
}

/// The second-round polynomials.
pub struct RoundTwo {
    pub d: Vec<Scalar>,
    pub q_d: Vec<Scalar>,
    pub r: Vec<Scalar>,
    pub e: Vec<Scalar>,
    pub q_e: Vec<Scalar>,
}

impl RoundOne {
    /// The shapes and relations that the second round relies on.
    pub open spec fn wf(&self) -> bool {
        let k = self.h.len();
        let m = self.v_pts.len();
        &&& 1 <= k <= m
        &&& m < usize::MAX / 4
        &&& self.col.len() == m
        &&& forall|i: int| 0 <= i < m ==> #[trigger] self.col@[i] < k
        &&& self.z_i.len() == k + 1
        &&& self.z_i@[k as int].value() == 1
        &&& forall|x: int| #[trigger] peval(vals(self.z_i@), x) == vanish_at(vals(self.h@), x) % modulus()
        &&& self.t_i.len() == k
        &&& self.phi.len() == m
        &&& self.v.len() == m
        &&& all_wf(self.z_i@)
        &&& all_wf(self.t_i@)
        &&& all_wf(self.phi@)
        &&& all_wf(self.v@)
    }
}

/// The first round. Fails with `Setup` exactly when the table or the lookup
/// length is not a power of two within the field's domains, or the lookup is
/// longer than the table; otherwise with `Witness` exactly when a lookup
/// value is not in the table. These checks come before any polynomial work.
pub fn round_one(table: &Vec<Scalar>, lookup: &Vec<Scalar>) -> (r: Result<RoundOne, BalooError>)
    requires
        all_wf(table@),
        all_wf(lookup@),
    ensures
        (r matches Err(e) && e == BalooError::Setup) <==> (!domain_size_ok(table.len() as nat)
            || !domain_size_ok(lookup.len() as nat) || lookup.len() > table.len()),
        (r matches Err(e) && e == BalooError::Witness) <==> (domain_size_ok(table.len() as nat)
            && domain_size_ok(lookup.len() as nat) && lookup.len() <= table.len() && exists|i: int|
            0 <= i < lookup.len() && !in_table(table@, #[trigger] lookup@[i])),
        (domain_size_ok(table.len() as nat) && domain_size_ok(lookup.len() as nat) && lookup.len()
            <= table.len() && (forall|i: int| 0 <= i < lookup.len() ==> in_table(table@, #[trigger] lookup@[i])))
            ==> r is Ok,
        r matches Ok(one) ==> {
            &&& one.wf()
            &&& index_map(table@, lookup@, one.idx@, one.col@)
            &&& one.h.len() == one.idx.len()
            &&& forall|a: int| 0 <= a < one.idx.len() ==> (#[trigger] one.h@[a]).value() == fpow(
                domain_generator(table.len() as nat),
                one.idx@[a] as nat,
            )
            &&& forall|i: int| 0 <= i < lookup.len() ==> peval(vals(one.t_i@), #[trigger] one.h@[one.col@[i] as int].value())
                == lookup@[i].value()
            &&& one.v_pts.len() == lookup.len()
            &&& forall|i: int| 0 <= i < lookup.len() ==> (#[trigger] one.v_pts@[i]).value() == fpow(
                domain_generator(lookup.len() as nat),
                i as nat,
            )
            &&& forall|i: int| 0 <= i < lookup.len() ==> peval(vals(one.phi@), #[trigger] one.v_pts@[i].value())
                == lookup@[i].value()
            &&& forall|i: int| 0 <= i < lookup.len() ==> peval(vals(one.v@), #[trigger] one.v_pts@[i].value())
                == one.h@[one.col@[i] as int].value()
        },
{
    let n = table.len();
    let m = lookup.len();
    let w = match domain_root(n) {
        Err(e) => {
            return Err(e);
        },
        Ok(w) => w,
    };
    let nu = match domain_root(m) {
        Err(e) => {
            return Err(e);
        },
        Ok(nu) => nu,
    };
    if m > n {
        return Err(BalooError::Setup);
    }
    proof {
        crate::domain::lemma_size_ok_bounds(n as nat);
        crate::domain::lemma_size_ok_bounds(m as nat);
    }
    let (idx, col) = match extract_index(table, lookup) {
        Err(e) => {
            return Err(e);
        },
        Ok(p) => p,
    };
    let h = sub_domain(w, &idx);
    proof {
        let hv = vals(h@);
        assert forall|a: int, b: int|
            0 <= a < h.len() && 0 <= b < h.len() && a != b implies !#[trigger] coincide(hv, a, b) by {
            assert(crate::index::first_occurrence(table@, idx@[a] as int));
            assert(crate::index::first_occurrence(table@, idx@[b] as int));
            let (lo, hi) = if a < b { (a, b) } else { (b, a) };
            assert(table@[idx@[lo] as int] != table@[idx@[hi] as int]);
            if idx@[a] < idx@[b] {
                lemma_distinct_powers(w.value(), n as nat, idx@[a] as nat, idx@[b] as nat);
            } else {
                lemma_distinct_powers(w.value(), n as nat, idx@[b] as nat, idx@[a] as nat);
            }
            lemma_distinct_canonical(h@[a].value(), h@[b].value());
        }
    }
    let z_i = vanishing(&h);
    let mut values: Vec<Scalar> = Vec::new();
    for a in 0..idx.len()
        invariant
            index_map(table@, lookup@, idx@, col@),
            all_wf(table@),
            values.len() == a,
            forall|b: int| 0 <= b < a ==> #[trigger] values@[b] == table@[idx@[b] as int],
    {
        values.push(table[idx[a]]);
    }
    proof {
        assert forall|b: int| 0 <= b < values.len() implies (#[trigger] values@[b]).wf() by {
            assert(crate::index::first_occurrence(table@, idx@[b] as int));
        }
    }
    let t_i = match interpolate(&h, &values) {
        Err(e) => {
            return Err(e);
        },
        Ok(t) => t,
    };
    let v_pts = crate::domain::domain_points(nu, m);
    proof {
        lemma_powers_distinct(nu.value(), m as nat, v_pts@);
    }
    let phi = match interpolate(&v_pts, lookup) {
        Err(e) => {
            return Err(e);
        },
        Ok(t) => t,
    };
    let mut hv: Vec<Scalar> = Vec::new();
    for i in 0..m
        invariant
            m == lookup.len(),
            index_map(table@, lookup@, idx@, col@),
            h.len() == idx.len(),
            forall|a: int| 0 <= a < idx.len() ==> (#[trigger] h@[a]).wf(),
            hv.len() == i,
            forall|b: int| 0 <= b < i ==> #[trigger] hv@[b] == h@[col@[b] as int],
    {
        hv.push(h[col[i]]);
    }
    proof {
        assert forall|b: int| 0 <= b < hv.len() implies (#[trigger] hv@[b]).wf() by {
            assert(col@[b] < idx.len());
        }
    }
    let v = match interpolate(&v_pts, &hv) {
        Err(e) => {
            return Err(e);
        },
        Ok(t) => t,
    };
    let one = RoundOne { idx, col, h, z_i, t_i, v_pts, phi, v };
    proof {
        assert(one.col@[0] < one.idx.len());
        assert(1 <= one.h.len() <= one.v_pts.len());
        assert(one.v_pts.len() < usize::MAX / 4);
        assert(forall|i: int| 0 <= i < m ==> #[trigger] one.col@[i] < one.h.len());
        assert(one.z_i.len() == one.h.len() + 1);
        assert(one.z_i@[one.h.len() as int].value() == 1);
        assert(one.t_i.len() == one.h.len());
        assert(one.phi.len() == m);
        assert(one.v.len() == m);
        assert(one.wf());
        assert forall|i: int| 0 <= i < lookup.len() implies peval(vals(one.t_i@), #[trigger] one.h@[one.col@[i] as int].value())
            == lookup@[i].value() by {
            let a = one.col@[i] as int;
            assert(values@[a] == table@[one.idx@[a] as int]);
        }
    }
    Ok(one)
}

/// The second round for challenges `α` and `β`: `D`, then `(Q_D, R)` from
/// `D·t_I − φ(α)` over `z_I`, then `E` and `Q_E` from
/// `E·(β − v) + v·z_I(β)/z_I(0)` over `z_V = X^m − 1`. Any failed identity
/// is `ProofGeneration`: no malformed polynomials are handed out.
pub fn round_two(one: &RoundOne, alpha: Scalar, beta: Scalar) -> (r: Result<RoundTwo, BalooError>)
    requires
        one.wf(),
        alpha.wf(),
        beta.wf(),
    ensures
        r matches Err(e) ==> e == BalooError::ProofGeneration,
        r matches Ok(two) ==> {
            let k = one.h.len();
            let m = one.v_pts.len();
            let vp = vals(one.v_pts@);
            let hp = vals(one.h@);
            let z0 = peval(vals(one.z_i@), 0);
            &&& z0 != 0
            &&& two.d.len() == k
            &&& forall|x: int| #[trigger] peval(vals(two.d@), x) == d_at(vp, hp, one.col@, alpha.value(), m as int, x)
            &&& two.q_d.len() < k
            &&& two.r.len() == k
            &&& two.r@[0].value() == 0
            &&& forall|x: int|
                #[trigger] fadd(
                    fadd(fmul(peval(vals(two.q_d@), x), peval(vals(one.z_i@), x)), peval(vals(two.r@), x)),
                    peval(vals(one.phi@), alpha.value()),
                ) == fmul(peval(vals(two.d@), x), peval(vals(one.t_i@), x))
            &&& two.e.len() == m
            &&& forall|x: int| #[trigger] peval(vals(two.e@), x) == e_at(vp, hp, one.col@, beta.value(), m as int, x)
            &&& two.q_e.len() < m
            &&& forall|x: int|
                #[trigger] fmul(peval(vals(two.q_e@), x), (ipow(x, m as nat) - 1) % modulus()) == fadd(
                    fmul(peval(vals(two.e@), x), fsub(beta.value(), peval(vals(one.v@), x))),
                    fmul(fmul(peval(vals(one.z_i@), beta.value()), finv(z0)), peval(vals(one.v@), x)),
                )
        },
{
    let z_inv = match crate::round::vanishing_at_zero_inverse(&one.z_i) {
        Err(e) => {
            return Err(e);
        },
        Ok(w) => w,
    };
    proof {
        assert(peval(vals(one.z_i@), 0) == vanish_at(vals(one.h@), 0) % modulus());
    }
    let d = match build_d(&one.v_pts, &one.h, &one.col, alpha, z_inv) {
        Err(e) => {
            return Err(e);
        },
        Ok(d) => d,
    };
    let phi_alpha = evaluate(&one.phi, alpha);
    let (q_d, r) = match quotient_d(&d, &one.t_i, phi_alpha, &one.z_i) {
        Err(e) => {
            return Err(e);
        },
        Ok(p) => p,
    };
    let e = match build_e(&one.v_pts, &one.h, &one.col, beta, z_inv) {
        Err(err) => {
            return Err(err);
        },
        Ok(e) => e,
    };
    let ratio = evaluate(&one.z_i, beta).mul(&z_inv);
    let q_e = match quotient_e(&e, &one.v, beta, ratio) {
        Err(err) => {
            return Err(err);
        },
        Ok(q) => q,
    };
    Ok(RoundTwo { d, q_d, r, e, q_e })
}

} // verus!
