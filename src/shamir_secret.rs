//! Polynomials over GF(2^64): random construction, evaluation and
//! interpolation of the constant term.
use rand::RngCore;
use vstd::prelude::*;
use crate::field::{gf_add, gf_inv, gf_mul, inv_spec, mul_spec, pow_spec};
use crate::field_laws::lemma_mul_zero_one;

verus! {

/// Relies on rand::thread_rng and RngCore::next_u64: one word drawn from the
/// thread-local generator, which the operating system seeds. Nothing is known
/// of the value.
#[verifier::external_body]
fn random_word() -> (r: u64) {
    rand::thread_rng().next_u64()
}

/// The sum of the terms c_j * x^j for j below `n`.
pub open spec fn eval_upto(c: Seq<u64>, x: u64, n: nat) -> u64
    decreases n,
{
    if n == 0 {
        0
    } else {
        eval_upto(c, x, (n - 1) as nat) ^ mul_spec(pow_spec(x, (n - 1) as nat), c[n - 1])
    }
}

/// The value at `x` of the polynomial with coefficients `c`.
pub open spec fn poly_eval(c: Seq<u64>, x: u64) -> u64 {
    eval_upto(c, x, c.len())
}

/// The product of `pts[j]` for `j` below `n`, `j != i`, taken left to right.
pub open spec fn numerator_upto(pts: Seq<u64>, i: int, n: nat) -> u64
    decreases n,
{
    if n == 0 {
        1
    } else {
        let p = numerator_upto(pts, i, (n - 1) as nat);
        if n - 1 == i {
            p
        } else {
            mul_spec(p, pts[n - 1])
        }
    }
}

/// The product of `pts[i] + pts[j]` for `j` below `n`, `j != i`, taken left to right.
pub open spec fn denominator_upto(pts: Seq<u64>, i: int, n: nat) -> u64
    decreases n,
{
    if n == 0 {
        1
    } else {
        let p = denominator_upto(pts, i, (n - 1) as nat);
        if n - 1 == i {
            p
        } else {
            mul_spec(p, pts[i] ^ pts[n - 1])
        }
    }
}

pub open spec fn numerator(pts: Seq<u64>, i: int) -> u64 {
    numerator_upto(pts, i, pts.len())
}

pub open spec fn denominator(pts: Seq<u64>, i: int) -> u64 {
    denominator_upto(pts, i, pts.len())
}

/// Every Lagrange denominator of the points is invertible.
pub open spec fn basis_defined(pts: Seq<u64>) -> bool {
    forall|i: int| 0 <= i < pts.len() ==> denominator(pts, i) != 0
}

/// The Lagrange basis element at zero for point `i`.
pub open spec fn basis_spec(pts: Seq<u64>, i: int) -> u64 {
    mul_spec(numerator(pts, i), inv_spec(denominator(pts, i)))
}

/// The sum of `ys[j] * bs[j]` for `j` below `n`.
pub open spec fn combine_upto(ys: Seq<u64>, bs: Seq<u64>, n: nat) -> u64
    decreases n,
{
    if n == 0 {
        0
    } else {
        combine_upto(ys, bs, (n - 1) as nat) ^ mul_spec(ys[n - 1], bs[n - 1])
    }
}

/// The first components of a sequence of pairs.
pub open spec fn xs_of(values: Seq<(u64, u64)>) -> Seq<u64> {
    Seq::new(values.len(), |j: int| values[j].0)
}

/// The term of the direct interpolation formula for pair `i`.
pub open spec fn direct_term(values: Seq<(u64, u64)>, i: int) -> u64 {
    let xs = xs_of(values);
    mul_spec(mul_spec(numerator(xs, i), values[i].1), inv_spec(denominator(xs, i)))
}

/// The sum of the direct interpolation terms for pairs below `n`.
pub open spec fn direct_upto(values: Seq<(u64, u64)>, n: nat) -> u64
    decreases n,
{
    if n == 0 {
        0
    } else {
        direct_upto(values, (n - 1) as nat) ^ direct_term(values, n - 1)
    }
}

/// The value at `x` of the polynomial with coefficients `c`, summing
/// `c_i * x^i` with a running power of `x`.
pub fn evaluate_coefficients(c: &[u64], x: u64) -> (r: u64)
    ensures
        r == poly_eval(c@, x),
{
    let mut v: u64 = 1;
    let mut sum: u64 = 0;
    let mut i: usize = 0;
    while i < c.len()
        invariant
            i <= c@.len(),
            v == pow_spec(x, i as nat),
            sum == eval_upto(c@, x, i as nat),
        decreases c@.len() - i,
    {
        sum = gf_add(sum, gf_mul(v, c[i]));
        v = gf_mul(v, x);
        i = i + 1;
    }
    sum
}

/// A polynomial's value at zero is its constant term.
pub proof fn lemma_eval_at_zero(c: Seq<u64>)
    requires
        c.len() >= 1,
    ensures
        poly_eval(c, 0) == c[0],
{
    lemma_eval_upto_at_zero(c, c.len());
}

proof fn lemma_eval_upto_at_zero(c: Seq<u64>, n: nat)
    requires
        1 <= n <= c.len(),
    ensures
        eval_upto(c, 0, n) == c[0],
    decreases n,
{
    if n == 1 {
        lemma_mul_zero_one(c[0]);
        assert(pow_spec(0, 0) == 1);
        assert(eval_upto(c, 0, 0) == 0);
        let v = c[0];
        assert(0u64 ^ v == v) by (bit_vector);
    } else {
        lemma_eval_upto_at_zero(c, (n - 1) as nat);
        let k = (n - 1) as nat;
        lemma_mul_zero_one(pow_spec(0, (k - 1) as nat));
        lemma_mul_zero_one(c[k as int]);
        let v = c[0];
        assert(v ^ 0u64 == v) by (bit_vector);
    }
}

/// A polynomial `c_0 + c_1 x + ... + c_{d-1} x^{d-1}` over GF(2^64).
pub struct Polynomial {
    pub coefficients: Vec<u64>,
}

impl Polynomial {
    /// A polynomial with `degree` coefficients (at least one), the first being
    /// `constant_term` and the others drawn at random.
    pub fn random(degree: usize, constant_term: u64) -> (r: Self)
        ensures
            r.coefficients@.len() == if degree == 0 { 1 } else { degree as int },
            r.coefficients@[0] == constant_term,
    {
        let mut coefficients: Vec<u64> = Vec::new();
        coefficients.push(constant_term);
        let mut i: usize = 1;
        while i < degree
            invariant
                1 <= i,
                if degree == 0 { i == 1 } else { i <= degree },
                coefficients@.len() == i,
                coefficients@[0] == constant_term,
            decreases degree - i,
        {
            let c = random_word();
            coefficients.push(c);
            i = i + 1;
        }
        Polynomial { coefficients }
    }

    /// The value of the polynomial at `x`.
    pub fn evaluate(&self, x: u64) -> (r: u64)
        ensures
            r == poly_eval(self.coefficients@, x),
    {
        evaluate_coefficients(self.coefficients.as_slice(), x)
    }

    /// The values of the polynomial at each of `points`, in order.
    pub fn evaluate_at(&self, points: &[u64]) -> (r: Vec<u64>)
        ensures
            r@.len() == points@.len(),
            forall|i: int| 0 <= i < points@.len() ==> r@[i] == poly_eval(self.coefficients@, points@[i]),
    {
        let mut out: Vec<u64> = Vec::new();
        let mut i: usize = 0;
        while i < points.len()
            invariant
                i <= points@.len(),
                out@.len() == i,
                forall|j: int| 0 <= j < i ==> out@[j] == poly_eval(self.coefficients@, points@[j]),
            decreases points@.len() - i,
        {
            let y = self.evaluate(points[i]);
            out.push(y);
            i = i + 1;
        }
        out
    }

    /// Each of `points` paired with the value of the polynomial there.
    pub fn evaluate_at_points(&self, points: &[u64]) -> (r: Vec<(u64, u64)>)
        ensures
            r@.len() == points@.len(),
            forall|i: int| 0 <= i < points@.len() ==> r@[i] == (points@[i], poly_eval(self.coefficients@, points@[i])),
    {
        let mut out: Vec<(u64, u64)> = Vec::new();
        let mut i: usize = 0;
        while i < points.len()
            invariant
                i <= points@.len(),
                out@.len() == i,
                forall|j: int| 0 <= j < i ==> out@[j] == (points@[j], poly_eval(self.coefficients@, points@[j])),
            decreases points@.len() - i,
        {
            let y = self.evaluate(points[i]);
            out.push((points[i], y));
            i = i + 1;
        }
        out
    }
    /// The product of the other points and the product of their sums with
    /// point `i`.
    fn basis_parts(pts: &[u64], i: usize) -> (r: (u64, u64))
        requires
            i < pts@.len(),
        ensures
            r.0 == numerator(pts@, i as int),
            r.1 == denominator(pts@, i as int),
    {
        let mut num: u64 = 1;
        let mut den: u64 = 1;
        let mut j: usize = 0;
        while j < pts.len()
            invariant
                i < pts@.len(),
                j <= pts@.len(),
                num == numerator_upto(pts@, i as int, j as nat),
                den == denominator_upto(pts@, i as int, j as nat),
            decreases pts@.len() - j,
        {
            if j != i {
                num = gf_mul(num, pts[j]);
                den = gf_mul(den, gf_add(pts[i], pts[j]));
            }
            j = j + 1;
        }
        (num, den)
    }

    /// The Lagrange basis at zero for the points: `L_i` is the product of the
    /// other points over the product of their sums with point `i`. `None` when
    /// some such sum is zero (a repeated point).
    pub fn compute_lagrange_basis_for_constant_term(eval_points: &[u64]) -> (r: Option<Vec<u64>>)
        ensures
            r is Some <==> basis_defined(eval_points@),
            r matches Some(b) ==> b@.len() == eval_points@.len() && forall|i: int|
                0 <= i < eval_points@.len() ==> b@[i] == basis_spec(eval_points@, i),
    {
        let mut out: Vec<u64> = Vec::new();
        let mut i: usize = 0;
        while i < eval_points.len()
            invariant
                i <= eval_points@.len(),
                out@.len() == i,
                forall|j: int| 0 <= j < i ==> denominator(eval_points@, j) != 0,
                forall|j: int| 0 <= j < i ==> out@[j] == basis_spec(eval_points@, j),
            decreases eval_points@.len() - i,
        {
            let (num, den) = Self::basis_parts(eval_points, i);
            match gf_inv(den) {
                None => {
                    return None;
                },
                Some(d) => {
                    out.push(gf_mul(num, d));
                },
            }
            i = i + 1;
        }
        Some(out)
    }

    /// The constant term recovered from evaluations and the basis of the same
    /// points: the sum of `y_i * L_i`, over the pairs that both slices hold.
    pub fn interpolate_from_langrange_basis(eval_points: &[u64], basis_points: &[u64]) -> (r: u64)
        ensures
            r == combine_upto(
                eval_points@,
                basis_points@,
                if eval_points@.len() <= basis_points@.len() { eval_points@.len() } else { basis_points@.len() },
            ),
    {
        let n: usize = if eval_points.len() <= basis_points.len() { eval_points.len() } else { basis_points.len() };
        let mut acc: u64 = 0;
        let mut i: usize = 0;
        while i < n
            invariant
                i <= n,
                n <= eval_points@.len(),
                n <= basis_points@.len(),
                acc == combine_upto(eval_points@, basis_points@, i as nat),
            decreases n - i,
        {
            acc = gf_add(acc, gf_mul(eval_points[i], basis_points[i]));
            i = i + 1;
        }
        acc
    }

    /// The constant term of the polynomial through the pairs `(x_i, y_i)`, by
    /// the Lagrange formula at zero. `None` when some denominator is zero.
    pub fn interpolate_constant_term(values: &[(u64, u64)]) -> (r: Option<u64>)
        ensures
            r is Some <==> basis_defined(xs_of(values@)),
            r matches Some(v) ==> v == direct_upto(values@, values@.len()),
    {
        let mut xs: Vec<u64> = Vec::new();
        let mut k: usize = 0;
        while k < values.len()
            invariant
                k <= values@.len(),
                xs@ == xs_of(values@).take(k as int),
            decreases values@.len() - k,
        {
            xs.push(values[k].0);
            k = k + 1;
            assert(xs@ =~= xs_of(values@).take(k as int));
        }
        assert(xs@ =~= xs_of(values@));
        let mut acc: u64 = 0;
        let mut i: usize = 0;
        while i < values.len()
            invariant
                i <= values@.len(),
                xs@ == xs_of(values@),
                forall|j: int| 0 <= j < i ==> denominator(xs@, j) != 0,
                acc == direct_upto(values@, i as nat),
            decreases values@.len() - i,
        {
            let (num, den) = Self::basis_parts(xs.as_slice(), i);
            match gf_inv(den) {
                None => {
                    return None;
                },
                Some(d) => {
                    acc = gf_add(acc, gf_mul(gf_mul(num, values[i].1), d));
                },
            }
            i = i + 1;
        }
        Some(acc)
    }
}

} // verus!
