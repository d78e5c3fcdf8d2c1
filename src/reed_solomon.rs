//! Polynomials over GF(2^64) whose random coefficients come from the
//! `urandom` generator.
use vstd::prelude::*;
use crate::shamir_secret::{evaluate_coefficients, poly_eval, basis_defined, xs_of, direct_upto};

verus! {

/// Relies on urandom::csprng and Random::next: one uniform word from a
/// generator seeded by the operating system. Nothing is known of the value.
#[verifier::external_body]
fn secure_word() -> (r: u64) {
    urandom::csprng().next::<u64>()
}

/// A polynomial `c_0 + c_1 x + ... + c_{d-1} x^{d-1}` over GF(2^64).
pub struct Polynomial {
    pub coefficients: Vec<u64>,
}

impl Polynomial {
    /// A polynomial with `degree` coefficients (at least one), the first being
    /// `constant_term` and the others drawn at random.
    pub fn random(degree: usize, constant_term: u64) -> (r: Self)
        ensures
            r.coefficients@.len() == if degree == 0 { 1 } else { degree as int },
            r.coefficients@[0] == constant_term,
    {
        let mut coefficients: Vec<u64> = Vec::new();
        coefficients.push(constant_term);
        let mut i: usize = 1;
        while i < degree
            invariant
                if degree == 0 { i == 1 } else { 1 <= i <= degree },
                coefficients@.len() == i,
                coefficients@[0] == constant_term,
            decreases degree - i,
        {
            coefficients.push(secure_word());
            i = i + 1;
        }
        Polynomial { coefficients }
    }

    /// Each of `points` paired with the value of the polynomial there.
    pub fn evaluate_at_points(&self, points: &[u64]) -> (r: Vec<(u64, u64)>)
        ensures
            r@.len() == points@.len(),
            forall|i: int| 0 <= i < points@.len() ==> r@[i] == (points@[i], poly_eval(self.coefficients@, points@[i])),
    {
        let mut out: Vec<(u64, u64)> = Vec::new();
        let mut i: usize = 0;
        while i < points.len()
            invariant
                i <= points@.len(),
                out@.len() == i,
                forall|j: int| 0 <= j < i ==> out@[j] == (points@[j], poly_eval(self.coefficients@, points@[j])),
            decreases points@.len() - i,
        {
            let y = evaluate_coefficients(self.coefficients.as_slice(), points[i]);
            out.push((points[i], y));
            i = i + 1;
        }
        out
    }

    /// The constant term of the polynomial through the pairs `(x_i, y_i)`, by
    /// the Lagrange formula at zero. `None` when some denominator is zero.
    pub fn interpolate_constant_term(values: &[(u64, u64)]) -> (r: Option<u64>)
        ensures
            r is Some <==> basis_defined(xs_of(values@)),
            r matches Some(v) ==> v == direct_upto(values@, values@.len()),
    {
        crate::shamir_secret::Polynomial::interpolate_constant_term(values)
    }
}

} // verus!
