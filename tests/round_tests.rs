use baloo_lookup::baloo::{preprocess, round_one, round_two};
use baloo_lookup::domain::{domain_points, domain_root, power};
use baloo_lookup::error::BalooError;
use baloo_lookup::poly::{constant, divide, evaluate, multiply, pad_to, scale};
use baloo_lookup::prover::{exact_quotient, quotient_d, quotient_e, subgroup_vanishing};
use baloo_lookup::round::{lagrange_at, lagrange_poly, tau_poly, vanishing_at_zero_inverse};
use baloo_lookup::scalar::Scalar;

fn s(v: u64) -> Scalar {
    Scalar::from_u64(v)
}

fn neg(v: u64) -> Scalar {
    s(0).sub(&s(v))
}

fn sv(vs: &[u64]) -> Vec<Scalar> {
    vs.iter().map(|v| s(*v)).collect()
}

#[test]
fn prover_rounds_on_sample_lookup() {
    let lookup = sv(&[3, 2, 3, 4]);
    let table = sv(&[1, 2, 3, 4]);
    let pre = preprocess(&table).unwrap();
    assert_eq!(pre.z_h, vec![neg(1), s(0), s(0), s(0), s(1)]);
    let one = round_one(&table, &lookup).unwrap();
    let two = round_two(&one, s(12345), s(67890)).unwrap();
    let k = one.h.len();
    let m = lookup.len();
    assert_eq!(k, 3);
    assert_eq!(two.d.len(), k);
    assert_eq!(two.r.len(), k);
    assert_eq!(two.r[0], s(0));
    assert!(two.q_d.len() < k);
    assert_eq!(two.e.len(), m);
    assert!(two.q_e.len() < m);
}

#[test]
fn second_round_identities_hold_as_polynomials() {
    let lookup = sv(&[3, 2, 3, 4]);
    let table = sv(&[1, 2, 3, 4]);
    let one = round_one(&table, &lookup).unwrap();
    let (alpha, beta) = (s(12345), s(67890));
    let two = round_two(&one, alpha, beta).unwrap();
    let phi_alpha = evaluate(&one.phi, alpha);
    let ratio = evaluate(&one.z_i, beta).mul(&evaluate(&one.z_i, s(0)).invert().unwrap());
    let x_m = |x: Scalar| power(x, 4).sub(&s(1));
    for x in [s(0), s(5), s(777), s(123456789)] {
        let lhs = evaluate(&two.q_d, x).mul(&evaluate(&one.z_i, x)).add(&evaluate(&two.r, x)).add(&phi_alpha);
        assert_eq!(lhs, evaluate(&two.d, x).mul(&evaluate(&one.t_i, x)));
        let v = evaluate(&one.v, x);
        let rhs = evaluate(&two.e, x).mul(&beta.sub(&v)).add(&ratio.mul(&v));
        assert_eq!(evaluate(&two.q_e, x).mul(&x_m(x)), rhs);
    }
}

#[test]
fn corrupted_sub_table_is_refused() {
    let lookup = sv(&[3, 2, 3, 4]);
    let table = sv(&[1, 2, 3, 4]);
    let mut one = round_one(&table, &lookup).unwrap();
    one.t_i[0] = one.t_i[0].add(&s(1));
    assert_eq!(round_two(&one, s(12345), s(67890)).err(), Some(BalooError::ProofGeneration));
}

#[test]
fn first_round_polynomials() {
    let lookup = sv(&[3, 2, 3, 4]);
    let table = sv(&[1, 2, 3, 4]);
    let one = round_one(&table, &lookup).unwrap();
    assert_eq!(one.idx, vec![2, 1, 3]);
    assert_eq!(one.col, vec![0, 1, 0, 2]);
    let w = domain_root(4).unwrap();
    assert_eq!(one.h, vec![power(w, 2), power(w, 1), power(w, 3)]);
    for i in 0..lookup.len() {
        assert_eq!(evaluate(&one.t_i, one.h[one.col[i]]), lookup[i]);
        assert_eq!(evaluate(&one.phi, one.v_pts[i]), lookup[i]);
        assert_eq!(evaluate(&one.v, one.v_pts[i]), one.h[one.col[i]]);
    }
    for h in one.h.iter() {
        assert_eq!(evaluate(&one.z_i, *h), s(0));
    }
}

#[test]
fn first_round_errors() {
    let table = sv(&[1, 2, 3, 4]);
    assert_eq!(round_one(&sv(&[1, 2, 3]), &sv(&[1, 2])).err(), Some(BalooError::Setup));
    assert_eq!(round_one(&table, &sv(&[1, 2, 3])).err(), Some(BalooError::Setup));
    assert_eq!(round_one(&sv(&[1, 2]), &table).err(), Some(BalooError::Setup));
    assert_eq!(round_one(&table, &sv(&[1, 9])).err(), Some(BalooError::Witness));
}

#[test]
fn preprocessing_interpolates_the_table() {
    let table = sv(&[7, 1, 8, 2]);
    let pre = preprocess(&table).unwrap();
    let pts = domain_points(domain_root(4).unwrap(), 4);
    for i in 0..4 {
        assert_eq!(evaluate(&pre.t, pts[i]), table[i]);
    }
    assert_eq!(preprocess(&sv(&[1, 2, 3])).err(), Some(BalooError::Setup));
}

#[test]
fn order_two_generator_is_minus_one() {
    assert_eq!(domain_root(2).unwrap(), neg(1));
    assert_eq!(domain_points(s(3), 4), sv(&[1, 3, 9, 27]));
}

#[test]
fn subgroup_vanishing_coefficients() {
    assert_eq!(subgroup_vanishing(2), vec![neg(1), s(0), s(1)]);
}

#[test]
fn polynomial_product_and_division() {
    // (1 + x)(2 + x) = 2 + 3x + x^2
    let p = multiply(&sv(&[1, 1]), &sv(&[2, 1]));
    assert_eq!(p, sv(&[2, 3, 1]));
    // (x^2 + 3x + 5) = (x + 1)(x + 2) + 3
    let (q, r) = divide(&sv(&[5, 3, 1]), &sv(&[2, 1]));
    assert_eq!(q, sv(&[1, 1]));
    assert_eq!(r, sv(&[3]));
    assert_eq!(exact_quotient(&sv(&[2, 3, 1]), &sv(&[1, 1])), Ok(sv(&[2, 1])));
    assert_eq!(exact_quotient(&sv(&[5, 3, 1]), &sv(&[1, 1])), Err(BalooError::ProofGeneration));
}

#[test]
fn padding_constants_and_scaling() {
    assert_eq!(pad_to(&sv(&[1, 2]), 4), sv(&[1, 2, 0, 0]));
    assert_eq!(constant(s(9), 3), sv(&[9, 0, 0]));
    assert_eq!(scale(&sv(&[1, 2, 3]), s(4)), sv(&[4, 8, 12]));
}

#[test]
fn quotient_of_d_leaves_zero_constant_remainder() {
    // z = (x - 1)(x - 2) = 2 - 3x + x^2; D·t - φ = (1 + x)(1 + x) - 1 = 2x + x^2 = z + (5x - 2)
    let z = vec![s(2), neg(3), s(1)];
    assert_eq!(quotient_d(&sv(&[1, 1]), &sv(&[1, 1]), s(1), &z).err(), Some(BalooError::ProofGeneration));
    // D·t - φ = x·(x + 1) - 0 = z + (4x - 2): R(0) = -2, refused; with φ = -2, R = 4x
    let (q, r) = quotient_d(&sv(&[0, 1]), &sv(&[1, 1]), neg(2), &z).unwrap();
    assert_eq!(q, sv(&[1]));
    assert_eq!(r, sv(&[0, 4]));
}

#[test]
fn quotient_of_e_over_subgroup() {
    // m = 2, z_V = x^2 - 1.
    // E = x, v = 1 + x, β = 0, ratio = 1: x·(-1 - x) + (1 + x) = 1 - x^2 = -1·z_V
    assert_eq!(quotient_e(&sv(&[0, 1]), &sv(&[1, 1]), s(0), s(1)), Ok(vec![neg(1)]));
    // E = 1, v = x, β = 0, ratio = 0: -x, not a multiple of z_V
    assert_eq!(quotient_e(&sv(&[1, 0]), &sv(&[0, 1]), s(0), s(0)).err(), Some(BalooError::ProofGeneration));
    // E = x, v = x, β = 0, ratio = 0: -x^2 = -z_V - 1, refused
    assert_eq!(quotient_e(&sv(&[0, 1]), &sv(&[0, 1]), s(0), s(0)).err(), Some(BalooError::ProofGeneration));
    // E = 1, v = 0, β = 0, ratio = 0: 0 = 0·z_V
    assert_eq!(quotient_e(&sv(&[1, 0]), &sv(&[0, 0]), s(0), s(0)), Ok(sv(&[0])));
}

#[test]
fn normalized_bases() {
    let pts = sv(&[2, 3, 5]);
    let z = baloo_lookup::poly::vanishing(&pts);
    let z_inv = vanishing_at_zero_inverse(&z).unwrap();
    for j in 0..3 {
        let t = tau_poly(&pts, j, z_inv);
        assert_eq!(evaluate(&t, s(0)), s(1));
        for l in 0..3 {
            if l != j {
                assert_eq!(evaluate(&t, pts[l]), s(0));
            }
        }
        let basis = lagrange_poly(&pts, j).unwrap();
        for l in 0..3 {
            let expected = if l == j { s(1) } else { s(0) };
            assert_eq!(evaluate(&basis, pts[l]), expected);
            assert_eq!(lagrange_at(&pts, j, pts[l]).unwrap(), expected);
        }
    }
    assert_eq!(lagrange_at(&sv(&[2, 2]), 0, s(1)).err(), Some(BalooError::ProofGeneration));
    assert_eq!(vanishing_at_zero_inverse(&sv(&[0, 1])).err(), Some(BalooError::ProofGeneration));
}

#[test]
fn remainder_of_d_vanishes_at_zero_only() {
    let lookup = sv(&[3, 2, 3, 4]);
    let table = sv(&[1, 2, 3, 4]);
    let one = round_one(&table, &lookup).unwrap();
    let two = round_two(&one, s(12345), s(67890)).unwrap();
    assert_eq!(evaluate(&two.r, s(0)), s(0));
    assert!(two.r.iter().any(|c| *c != s(0)));
}

#[test]
fn sub_domain_vanishing_divides_domain_vanishing() {
    let lookup = sv(&[3, 2, 3, 4]);
    let table = sv(&[1, 2, 3, 4]);
    let pre = preprocess(&table).unwrap();
    let one = round_one(&table, &lookup).unwrap();
    let q = exact_quotient(&pre.z_h, &one.z_i).unwrap();
    assert_eq!(q.len(), 2);
}

#[test]
fn domain_generator_has_exact_order() {
    let w = domain_root(8).unwrap();
    assert_eq!(power(w, 8), s(1));
    for j in 1..8 {
        assert_ne!(power(w, j), s(1));
    }
    assert_eq!(power(w, 4), neg(1));
}

#[test]
fn preprocessing_and_first_round_succeed_on_valid_input() {
    let table = sv(&[10, 20, 30, 40, 50, 60, 70, 80]);
    assert!(preprocess(&table).is_ok());
    let lookup = sv(&[80, 10, 80, 40]);
    let one = round_one(&table, &lookup).unwrap();
    assert_eq!(one.idx, vec![7, 0, 3]);
}
