use baloo_lookup::domain::{domain_root, power, sub_domain};
use baloo_lookup::error::BalooError;
use baloo_lookup::index::extract_index;
use baloo_lookup::lagrange::interpolate;
use baloo_lookup::pcs::Evaluation;
use baloo_lookup::poly::{add_scaled, evaluate, mul_linear, vanishing, zero};
use baloo_lookup::scalar::Scalar;

fn s(v: u64) -> Scalar {
    Scalar::from_u64(v)
}

fn sv(vs: &[u64]) -> Vec<Scalar> {
    vs.iter().map(|v| s(*v)).collect()
}

#[test]
fn scalar_arithmetic() {
    assert_eq!(s(2).add(&s(3)), s(5));
    assert_eq!(s(7).mul(&s(6)), s(42));
    assert_eq!(s(9).sub(&s(4)), s(5));
    let minus_one = s(0).sub(&s(1));
    assert_ne!(minus_one, s(1));
    assert_eq!(minus_one.add(&s(1)), s(0));
    assert_eq!(minus_one.mul(&minus_one), s(1));
}

#[test]
fn scalar_inverse() {
    assert_eq!(s(0).invert(), None);
    let inv = s(2).invert().unwrap();
    assert_ne!(inv, s(2));
    assert_eq!(inv.mul(&s(2)), s(1));
}

#[test]
fn barycentric_round_trip_of_square() {
    let t = interpolate(&sv(&[2, 3, 4]), &sv(&[4, 9, 16])).unwrap();
    assert_eq!(t, sv(&[0, 0, 1]));
    assert_eq!(evaluate(&t, s(5)), s(25));
}

#[test]
fn interpolation_of_a_line() {
    // 3 + 2x through x = 1, 5
    let t = interpolate(&sv(&[1, 5]), &sv(&[5, 13])).unwrap();
    assert_eq!(t, sv(&[3, 2]));
}

#[test]
fn interpolation_rejects_repeated_points() {
    assert_eq!(interpolate(&sv(&[2, 3, 2]), &sv(&[1, 1, 1])), Err(BalooError::ProofGeneration));
}

#[test]
fn vanishing_polynomial_roots_and_leading_coefficient() {
    let pts = sv(&[2, 3, 7]);
    let z = vanishing(&pts);
    assert_eq!(z.len(), 4);
    assert_eq!(z[3], s(1));
    for p in pts.iter() {
        assert_eq!(evaluate(&z, *p), s(0));
    }
    // (5-2)(5-3)(5-7) = -12
    assert_eq!(evaluate(&z, s(5)), s(0).sub(&s(12)));
    let empty = vanishing(&Vec::new());
    assert_eq!(empty, sv(&[1]));
}

#[test]
fn multiply_by_linear_factor() {
    // (1 + x)(x - 2) = -2 - x + x^2
    let q = mul_linear(&sv(&[1, 1]), s(2));
    assert_eq!(q, vec![s(0).sub(&s(2)), s(0).sub(&s(1)), s(1)]);
}

#[test]
fn add_scaled_combines_coefficients() {
    let r = add_scaled(&sv(&[1, 2, 3]), s(10), &sv(&[4, 5, 6]));
    assert_eq!(r, sv(&[41, 52, 63]));
    assert_eq!(zero(), s(0));
}

#[test]
fn horner_evaluation() {
    // 1 + 2x + 3x^2 at 10
    assert_eq!(evaluate(&sv(&[1, 2, 3]), s(10)), s(321));
    assert_eq!(evaluate(&Vec::new(), s(10)), s(0));
}

#[test]
fn index_set_and_column_map() {
    let table = sv(&[1, 2, 3, 4]);
    let lookup = sv(&[3, 2, 3, 4]);
    let (idx, col) = extract_index(&table, &lookup).unwrap();
    assert_eq!(idx, vec![2, 1, 3]);
    assert_eq!(col, vec![0, 1, 0, 2]);
    for i in 0..lookup.len() {
        assert_eq!(table[idx[col[i]]], lookup[i]);
    }
}

#[test]
fn index_set_takes_first_occurrence() {
    let table = sv(&[5, 6, 5, 6]);
    let (idx, col) = extract_index(&table, &sv(&[6, 6, 5, 6])).unwrap();
    assert_eq!(idx, vec![1, 0]);
    assert_eq!(col, vec![0, 0, 1, 0]);
}

#[test]
fn missing_lookup_value_is_a_witness_error() {
    let table = sv(&[1, 2, 3, 4]);
    assert_eq!(extract_index(&table, &sv(&[3, 5, 3, 4])), Err(BalooError::Witness));
}

#[test]
fn domain_generator_has_the_table_order() {
    let w = domain_root(4).unwrap();
    assert_eq!(power(w, 4), s(1));
    assert_ne!(power(w, 2), s(1));
    assert_eq!(domain_root(1).unwrap(), s(1));
    let big = domain_root(1 << 28).unwrap();
    assert_eq!(big, Scalar::root_of_unity());
}

#[test]
fn domain_sizes_that_are_refused() {
    assert_eq!(domain_root(0), Err(BalooError::Setup));
    assert_eq!(domain_root(6), Err(BalooError::Setup));
    assert_eq!(domain_root(1 << 29), Err(BalooError::Setup));
}

#[test]
fn sub_table_interpolates_the_lookup() {
    let table = sv(&[1, 2, 3, 4]);
    let lookup = sv(&[3, 2, 3, 4]);
    let (idx, col) = extract_index(&table, &lookup).unwrap();
    let w = domain_root(table.len()).unwrap();
    let h = sub_domain(w, &idx);
    let values: Vec<Scalar> = idx.iter().map(|i| table[*i]).collect();
    let t_i = interpolate(&h, &values).unwrap();
    assert_eq!(t_i.len(), idx.len());
    for i in 0..lookup.len() {
        assert_eq!(evaluate(&t_i, h[col[i]]), lookup[i]);
    }
}

#[test]
fn evaluation_record() {
    let e = Evaluation::new(3, 1, s(9));
    assert_eq!(e.poly(), 3);
    assert_eq!(e.point(), 1);
    assert_eq!(*e.value(), s(9));
}
