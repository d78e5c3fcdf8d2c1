//! Arithmetic in GF(2^64), reduced by x^64 + x^4 + x^3 + x + 1.
use vstd::prelude::*;

verus! {

/// The low word of the reduction polynomial; the x^64 term is implicit.
pub const REDUCTION: u64 = 0x1B;

/// Field addition is bitwise exclusive or.
pub open spec fn add_spec(a: u64, b: u64) -> u64 {
    a ^ b
}

/// Multiplication by x, reduced.
pub open spec fn xtime(a: u64) -> u64 {
    if a & 0x8000_0000_0000_0000u64 != 0 {
        (a << 1u64) ^ 0x1Bu64
    } else {
        a << 1u64
    }
}

/// `a` multiplied by x^n.
pub open spec fn xtime_pow(a: u64, n: nat) -> u64
    decreases n,
{
    if n == 0 {
        a
    } else {
        xtime(xtime_pow(a, (n - 1) as nat))
    }
}

/// Whether bit `i` of `b` is set.
pub open spec fn bit(b: u64, i: nat) -> bool {
    i < 64 && (b >> (i as u64)) & 1u64 == 1u64
}

/// The product of `a` with the part of `b` made of its bits below `i`.
pub open spec fn mul_upto(a: u64, b: u64, i: nat) -> u64
    decreases i,
{
    if i == 0 {
        0
    } else {
        let prev = mul_upto(a, b, (i - 1) as nat);
        if bit(b, (i - 1) as nat) {
            prev ^ xtime_pow(a, (i - 1) as nat)
        } else {
            prev
        }
    }
}

/// The field product: the carry-less product of `a` and `b`, reduced.
pub open spec fn mul_spec(a: u64, b: u64) -> u64 {
    mul_upto(a, b, 64)
}

/// `a` raised to the `n`-th power.
pub open spec fn pow_spec(a: u64, n: nat) -> u64
    decreases n,
{
    if n == 0 {
        1
    } else {
        mul_spec(pow_spec(a, (n - 1) as nat), a)
    }
}

/// `a` raised to 2^i.
pub open spec fn square_pow(a: u64, i: nat) -> u64
    decreases i,
{
    if i == 0 {
        a
    } else {
        let s = square_pow(a, (i - 1) as nat);
        mul_spec(s, s)
    }
}

/// The product of a^(2^1), ..., a^(2^i), which is a^(2^(i+1) - 2).
pub open spec fn inv_upto(a: u64, i: nat) -> u64
    decreases i,
{
    if i == 0 {
        1
    } else {
        mul_spec(inv_upto(a, (i - 1) as nat), square_pow(a, i))
    }
}

/// `a` raised to 2^64 - 2, which in a field of 2^64 elements is the inverse
/// of a non-zero `a`.
pub open spec fn inv_spec(a: u64) -> u64 {
    inv_upto(a, 63)
}

/// Adds two field elements.
pub fn gf_add(a: u64, b: u64) -> (r: u64)
    ensures
        r == add_spec(a, b),
{
    a ^ b
}

fn times_x(a: u64) -> (r: u64)
    ensures
        r == xtime(a),
{
    if a & 0x8000_0000_0000_0000u64 != 0 {
        (a << 1u64) ^ REDUCTION
    } else {
        a << 1u64
    }
}

/// Multiplies two field elements by shifting and adding.
pub fn gf_mul(a: u64, b: u64) -> (r: u64)
    ensures
        r == mul_spec(a, b),
{
    let mut acc: u64 = 0;
    let mut p: u64 = a;
    let mut i: u64 = 0;
    while i < 64
        invariant
            i <= 64,
            acc == mul_upto(a, b, i as nat),
            p == xtime_pow(a, i as nat),
        decreases 64 - i,
    {
        if (b >> i) & 1u64 == 1u64 {
            acc = acc ^ p;
        }
        p = times_x(p);
        i = i + 1;
    }
    acc
}

/// Inverts a field element; zero has no inverse.
pub fn gf_inv(a: u64) -> (r: Option<u64>)
    ensures
        a == 0 <==> r is None,
        r matches Some(v) ==> v == inv_spec(a),
{
    if a == 0 {
        return None;
    }
    let mut acc: u64 = 1;
    let mut s: u64 = a;
    let mut i: u64 = 0;
    while i < 63
        invariant
            i <= 63,
            acc == inv_upto(a, i as nat),
            s == square_pow(a, i as nat),
        decreases 63 - i,
    {
        s = gf_mul(s, s);
        acc = gf_mul(acc, s);
        i = i + 1;
    }
    Some(acc)
}

} // verus!
