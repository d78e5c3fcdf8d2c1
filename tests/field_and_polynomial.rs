use shamir_share::field::{gf_add, gf_inv, gf_mul};
use shamir_share::reed_solomon;
use shamir_share::shamir_secret::{evaluate_coefficients, Polynomial};

const SAMPLES: [u64; 8] = [
    0,
    1,
    2,
    0x1B,
    0x8000_0000_0000_0000,
    0xDEAD_BEEF_0123_4567,
    0xFFFF_FFFF_FFFF_FFFF,
    0x0123_4567_89AB_CDEF,
];

#[test]
fn mul_reduces_by_the_field_polynomial() {
    assert_eq!(gf_mul(2, 0x8000_0000_0000_0000), 0x1B);
    assert_eq!(gf_mul(0x8000_0000_0000_0000, 2), 0x1B);
    assert_eq!(gf_mul(4, 0x8000_0000_0000_0000), 0x36);
    assert_eq!(gf_mul(3, 3), 5);
    assert_eq!(gf_mul(0x10, 0x10), 0x100);
}

#[test]
fn add_is_xor() {
    assert_eq!(gf_add(0b1100, 0b1010), 0b0110);
    for &a in SAMPLES.iter() {
        assert_eq!(gf_add(a, a), 0);
    }
}

#[test]
fn field_laws_on_samples() {
    for &a in SAMPLES.iter() {
        assert_eq!(gf_mul(a, 1), a);
        assert_eq!(gf_mul(a, 0), 0);
        for &b in SAMPLES.iter() {
            assert_eq!(gf_add(a, b), gf_add(b, a));
            assert_eq!(gf_mul(a, b), gf_mul(b, a));
            for &c in SAMPLES.iter() {
                assert_eq!(gf_add(gf_add(a, b), c), gf_add(a, gf_add(b, c)));
                assert_eq!(gf_mul(gf_mul(a, b), c), gf_mul(a, gf_mul(b, c)));
                assert_eq!(gf_mul(a, gf_add(b, c)), gf_add(gf_mul(a, b), gf_mul(a, c)));
            }
        }
    }
}

#[test]
fn inverse_of_nonzero_elements() {
    assert_eq!(gf_inv(0), None);
    assert_eq!(gf_inv(1), Some(1));
    for &a in SAMPLES.iter() {
        if a != 0 {
            let i = gf_inv(a).unwrap();
            assert_eq!(gf_mul(a, i), 1);
        }
    }
}

#[test]
fn evaluation_at_zero_is_the_constant_term() {
    let p = Polynomial { coefficients: vec![0x41, 7, 9] };
    assert_eq!(p.evaluate(0), 0x41);
    assert_eq!(p.evaluate(1), 0x41 ^ 7 ^ 9);
    assert_eq!(evaluate_coefficients(&[5, 3], 2), 5 ^ gf_mul(3, 2));
    assert_eq!(p.evaluate_at(&[0, 1]), vec![0x41, 0x41 ^ 7 ^ 9]);
    assert_eq!(p.evaluate_at_points(&[1]), vec![(1, 0x41 ^ 7 ^ 9)]);
}

#[test]
fn random_polynomial_keeps_constant_term() {
    let p = Polynomial::random(4, 99);
    assert_eq!(p.coefficients.len(), 4);
    assert_eq!(p.coefficients[0], 99);
    let q = Polynomial::random(0, 5);
    assert_eq!(q.coefficients, vec![5]);
    let r = reed_solomon::Polynomial::random(3, 11);
    assert_eq!(r.coefficients.len(), 3);
    assert_eq!(r.coefficients[0], 11);
}

#[test]
fn interpolation_recovers_constant_term() {
    let point_sets: Vec<Vec<u64>> = vec![
        vec![7],
        vec![1, 2],
        vec![1, 2, 3, 4, 5],
        vec![0xFFFF_FFFF_FFFF_FFFF, 3, 0x8000_0000_0000_0000, 12345],
    ];
    for points in point_sets {
        for &c in SAMPLES.iter() {
            let p = Polynomial::random(points.len(), c);
            let pairs = p.evaluate_at_points(&points);
            assert_eq!(Polynomial::interpolate_constant_term(&pairs), Some(c));
            let ys = p.evaluate_at(&points);
            let basis = Polynomial::compute_lagrange_basis_for_constant_term(&points).unwrap();
            assert_eq!(Polynomial::interpolate_from_langrange_basis(&ys, &basis), c);
        }
    }
}

#[test]
fn reed_solomon_interpolation_recovers_constant_term() {
    let points = [3u64, 9, 27];
    let p = reed_solomon::Polynomial::random(3, 0xABCD);
    let pairs = p.evaluate_at_points(&points);
    assert_eq!(reed_solomon::Polynomial::interpolate_constant_term(&pairs), Some(0xABCD));
}

#[test]
fn repeated_points_have_no_basis() {
    assert_eq!(Polynomial::compute_lagrange_basis_for_constant_term(&[1, 2, 1]), None);
    assert_eq!(Polynomial::interpolate_constant_term(&[(4, 1), (4, 2)]), None);
}

#[test]
fn basis_for_two_points() {
    // L_0 = x_1 / (x_0 + x_1), L_1 = x_0 / (x_0 + x_1).
    let basis = Polynomial::compute_lagrange_basis_for_constant_term(&[1, 2]).unwrap();
    let inv3 = gf_inv(3).unwrap();
    assert_eq!(basis, vec![gf_mul(2, inv3), gf_mul(1, inv3)]);
    assert_eq!(Polynomial::interpolate_from_langrange_basis(&[5, 6], &[1, 1]), 5 ^ 6);
}
