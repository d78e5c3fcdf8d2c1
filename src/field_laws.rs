//! The algebraic laws of GF(2^64) addition and multiplication.
use vstd::prelude::*;
use crate::field::{add_spec, bit, mul_spec, mul_upto, xtime, xtime_pow};

verus! {

/// The element whose only set bit is bit `j`.
pub open spec fn unit(j: nat) -> u64 {
    if j < 64 {
        1u64 << (j as u64)
    } else {
        0
    }
}

/// The bits of `b` below `n`, put back together one unit at a time.
pub open spec fn part(b: u64, n: nat) -> u64
    decreases n,
{
    if n == 0 {
        0
    } else {
        let p = part(b, (n - 1) as nat);
        if bit(b, (n - 1) as nat) {
            p ^ unit((n - 1) as nat)
        } else {
            p
        }
    }
}

/// Addition is commutative and associative, zero is its identity, and every
/// element is its own negative.
pub proof fn lemma_add_laws(a: u64, b: u64, c: u64)
    ensures
        add_spec(a, b) == add_spec(b, a),
        add_spec(add_spec(a, b), c) == add_spec(a, add_spec(b, c)),
        add_spec(a, 0) == a,
        add_spec(a, a) == 0,
{
    assert(a ^ b == b ^ a) by (bit_vector);
    assert((a ^ b) ^ c == a ^ (b ^ c)) by (bit_vector);
    assert(a ^ 0 == a) by (bit_vector);
    assert(a ^ a == 0) by (bit_vector);
}

proof fn lemma_xor_swap(p: u64, q: u64, x: u64, y: u64)
    ensures
        (p ^ q) ^ (x ^ y) == (p ^ x) ^ (q ^ y),
        (p ^ x) ^ x == p,
        p ^ 0 == p,
        0 ^ p == p,
{
    assert((p ^ q) ^ (x ^ y) == (p ^ x) ^ (q ^ y)) by (bit_vector);
    assert((p ^ x) ^ x == p) by (bit_vector);
    assert(p ^ 0 == p) by (bit_vector);
    assert(0 ^ p == p) by (bit_vector);
}

proof fn lemma_xtime_linear(a: u64, b: u64)
    ensures
        xtime(a ^ b) == xtime(a) ^ xtime(b),
        xtime(0) == 0,
{
    assert(a & 0x8000_0000_0000_0000u64 != 0 && b & 0x8000_0000_0000_0000u64 != 0 ==> (a ^ b) & 0x8000_0000_0000_0000u64 == 0 && (a ^ b) << 1u64 == ((a << 1u64) ^ 0x1Bu64) ^ ((
    b << 1u64) ^ 0x1Bu64)) by (bit_vector);
    assert(a & 0x8000_0000_0000_0000u64 != 0 && b & 0x8000_0000_0000_0000u64 == 0 ==> (a ^ b) & 0x8000_0000_0000_0000u64 != 0 && ((a ^ b) << 1u64) ^ 0x1Bu64 == ((a << 1u64)
        ^ 0x1Bu64) ^ (b << 1u64)) by (bit_vector);
    assert(a & 0x8000_0000_0000_0000u64 == 0 && b & 0x8000_0000_0000_0000u64 != 0 ==> (a ^ b) & 0x8000_0000_0000_0000u64 != 0 && ((a ^ b) << 1u64) ^ 0x1Bu64 == (a << 1u64) ^ ((
    b << 1u64) ^ 0x1Bu64)) by (bit_vector);
    assert(a & 0x8000_0000_0000_0000u64 == 0 && b & 0x8000_0000_0000_0000u64 == 0 ==> (a ^ b) & 0x8000_0000_0000_0000u64 == 0 && (a ^ b) << 1u64 == (a << 1u64) ^ (b << 1u64))
        by (bit_vector);
    assert(0u64 & 0x8000_0000_0000_0000u64 == 0 && 0u64 << 1u64 == 0) by (bit_vector);
}

proof fn lemma_xtime_pow_linear(a: u64, b: u64, n: nat)
    ensures
        xtime_pow(a ^ b, n) == xtime_pow(a, n) ^ xtime_pow(b, n),
        xtime_pow(0, n) == 0,
    decreases n,
{
    lemma_xtime_linear(0, 0);
    if n > 0 {
        lemma_xtime_pow_linear(a, b, (n - 1) as nat);
        lemma_xtime_linear(xtime_pow(a, (n - 1) as nat), xtime_pow(b, (n - 1) as nat));
    }
}

proof fn lemma_xtime_pow_compose(a: u64, m: nat, n: nat)
    ensures
        xtime_pow(xtime_pow(a, m), n) == xtime_pow(a, m + n),
    decreases n,
{
    if n > 0 {
        lemma_xtime_pow_compose(a, m, (n - 1) as nat);
    }
}

proof fn lemma_unit_is_power(i: nat)
    requires
        i < 64,
    ensures
        unit(i) == xtime_pow(1, i),
    decreases i,
{
    if i > 0 {
        lemma_unit_is_power((i - 1) as nat);
        let s = (i - 1) as u64;
        assert(s < 63 ==> (1u64 << s) & 0x8000_0000_0000_0000u64 == 0 && (1u64 << s) << 1u64 == 1u64 << (s + 1)) by (bit_vector);
    } else {
        assert(1u64 << 0u64 == 1) by (bit_vector);
    }
}

proof fn lemma_unit_swap(i: nat, j: nat)
    requires
        i < 64,
        j < 64,
    ensures
        xtime_pow(unit(i), j) == xtime_pow(unit(j), i),
{
    lemma_unit_is_power(i);
    lemma_unit_is_power(j);
    lemma_xtime_pow_compose(1, i, j);
    lemma_xtime_pow_compose(1, j, i);
}

proof fn lemma_part_full(b: u64, n: nat)
    requires
        n <= 64,
    ensures
        n < 64 ==> part(b, n) == b & (((1u64 << (n as u64)) - 1) as u64),
        n == 64 ==> part(b, n) == b,
    decreases n,
{
    if n == 0 {
        assert(b & (((1u64 << 0u64) - 1) as u64) == 0) by (bit_vector);
    } else {
        lemma_part_full(b, (n - 1) as nat);
        let s = (n - 1) as u64;
        assert(s < 63 ==> (b & (((1u64 << s) - 1) as u64)) ^ (if (b >> s) & 1u64 == 1u64 { 1u64 << s } else { 0u64 })
            == b & (((1u64 << (s + 1)) - 1) as u64)) by (bit_vector);
        assert(s == 63 ==> (b & (((1u64 << s) - 1) as u64)) ^ (if (b >> s) & 1u64 == 1u64 { 1u64 << s } else { 0u64 })
            == b) by (bit_vector);
        lemma_xor_swap(part(b, s as nat), 0, 0, 0);
    }
}

proof fn lemma_bit_xor(b: u64, c: u64, i: nat)
    ensures
        bit(b ^ c, i) == (bit(b, i) != bit(c, i)),
        !bit(0, i),
{
    if i < 64 {
        let s = i as u64;
        assert(s < 64 ==> ((((b ^ c) >> s) & 1u64 == 1u64) == (((b >> s) & 1u64 == 1u64) != ((c >> s) & 1u64
            == 1u64)))) by (bit_vector);
        assert((0u64 >> s) & 1u64 == 0) by (bit_vector);
    }
}

proof fn lemma_mul_upto_linear_left(a: u64, c: u64, b: u64, n: nat)
    ensures
        mul_upto(a ^ c, b, n) == mul_upto(a, b, n) ^ mul_upto(c, b, n),
        mul_upto(0, b, n) == 0,
    decreases n,
{
    lemma_xor_swap(0, 0, 0, 0);
    if n > 0 {
        let k = (n - 1) as nat;
        lemma_mul_upto_linear_left(a, c, b, k);
        lemma_xtime_pow_linear(a, c, k);
        lemma_xor_swap(mul_upto(a, b, k), mul_upto(c, b, k), xtime_pow(a, k), xtime_pow(c, k));
    }
}

proof fn lemma_mul_upto_linear_right(a: u64, b: u64, c: u64, n: nat)
    ensures
        mul_upto(a, b ^ c, n) == mul_upto(a, b, n) ^ mul_upto(a, c, n),
        mul_upto(a, 0, n) == 0,
    decreases n,
{
    lemma_xor_swap(0, 0, 0, 0);
    if n > 0 {
        let k = (n - 1) as nat;
        lemma_mul_upto_linear_right(a, b, c, k);
        lemma_bit_xor(b, c, k);
        let p = mul_upto(a, b, k);
        let q = mul_upto(a, c, k);
        let x = xtime_pow(a, k);
        lemma_xor_swap(p, q, x, 0);
        lemma_xor_swap(p, q, 0, x);
        lemma_xor_swap(p, q, x, x);
        assert(x ^ x == 0) by (bit_vector);
        assert((p ^ q) ^ x == (p ^ x) ^ q) by (bit_vector);
        assert((p ^ q) ^ x == p ^ (q ^ x)) by (bit_vector);
        assert((p ^ q) ^ 0 == p ^ q) by (bit_vector);
        assert((p ^ x) ^ (q ^ x) == p ^ q) by (bit_vector);
    }
}

/// Multiplication distributes over addition on both sides.
pub proof fn lemma_mul_distributive(a: u64, b: u64, c: u64)
    ensures
        mul_spec(a, add_spec(b, c)) == add_spec(mul_spec(a, b), mul_spec(a, c)),
        mul_spec(add_spec(a, b), c) == add_spec(mul_spec(a, c), mul_spec(b, c)),
{
    lemma_mul_upto_linear_right(a, b, c, 64);
    lemma_mul_upto_linear_left(a, b, c, 64);
}

/// Zero annihilates and one is the identity of multiplication.
pub proof fn lemma_mul_zero_one(a: u64)
    ensures
        mul_spec(a, 0) == 0,
        mul_spec(0, a) == 0,
        mul_spec(a, 1) == a,
        mul_spec(1, a) == a,
{
    lemma_mul_upto_linear_right(a, 0, 0, 64);
    lemma_mul_upto_linear_left(0, 0, a, 64);
    lemma_mul_one_upto(a, 64);
    lemma_mul_commutative(1, a);
}

proof fn lemma_mul_one_upto(a: u64, n: nat)
    requires
        n <= 64,
    ensures
        n >= 1 ==> mul_upto(a, 1, n) == a,
    decreases n,
{
    if n > 0 {
        let k = (n - 1) as nat;
        lemma_mul_one_upto(a, k);
        let s = k as u64;
        assert(s < 64 ==> (((1u64 >> s) & 1u64 == 1u64) == (s == 0))) by (bit_vector);
        assert(bit(1, k) == (k == 0));
        lemma_xor_swap(a, 0, 0, 0);
        if k == 0 {
            assert(mul_upto(a, 1, 0) == 0);
            assert(xtime_pow(a, 0) == a);
            assert(mul_upto(a, 1, 1) == 0 ^ a);
        }
    }
}

/// Multiplying a unit by `b` shifts `b` up that many places, reduced.
proof fn lemma_unit_times(j: nat, b: u64, n: nat)
    requires
        j < 64,
        n <= 64,
    ensures
        mul_upto(unit(j), b, n) == xtime_pow(part(b, n), j),
    decreases n,
{
    if n == 0 {
        lemma_xtime_pow_linear(0, 0, j);
    } else {
        let k = (n - 1) as nat;
        lemma_unit_times(j, b, k);
        lemma_unit_swap(j, k);
        lemma_xtime_pow_linear(part(b, k), unit(k), j);
    }
}

/// `part(a, n)` times `b` is `b` times the bits of `a` below `n`.
proof fn lemma_part_times(a: u64, b: u64, n: nat)
    requires
        n <= 64,
    ensures
        mul_spec(part(a, n), b) == mul_upto(b, a, n),
    decreases n,
{
    if n == 0 {
        lemma_mul_upto_linear_left(0, 0, b, 64);
    } else {
        let k = (n - 1) as nat;
        lemma_part_times(a, b, k);
        lemma_mul_upto_linear_left(part(a, k), unit(k), b, 64);
        lemma_unit_times(k, b, 64);
        lemma_part_full(b, 64);
    }
}

/// Multiplication is commutative.
pub proof fn lemma_mul_commutative(a: u64, b: u64)
    ensures
        mul_spec(a, b) == mul_spec(b, a),
{
    lemma_part_full(a, 64);
    lemma_part_times(a, b, 64);
}

proof fn lemma_xtime_of_mul_upto(b: u64, a: u64, n: nat)
    ensures
        xtime(mul_upto(b, a, n)) == mul_upto(xtime(b), a, n),
    decreases n,
{
    lemma_xtime_linear(0, 0);
    if n > 0 {
        let k = (n - 1) as nat;
        lemma_xtime_of_mul_upto(b, a, k);
        lemma_xtime_linear(mul_upto(b, a, k), xtime_pow(b, k));
        lemma_xtime_pow_compose(b, 1, k);
        assert(xtime_pow(b, 0) == b);
        assert(xtime_pow(b, 1) == xtime(b));
    }
}

/// Shifting a product shifts either factor.
proof fn lemma_xtime_pow_of_mul(a: u64, b: u64, j: nat)
    ensures
        xtime_pow(mul_spec(a, b), j) == mul_spec(a, xtime_pow(b, j)),
    decreases j,
{
    if j > 0 {
        let k = (j - 1) as nat;
        lemma_xtime_pow_of_mul(a, b, k);
        let bk = xtime_pow(b, k);
        lemma_mul_commutative(a, bk);
        lemma_xtime_of_mul_upto(bk, a, 64);
        lemma_mul_commutative(xtime(bk), a);
    }
}

proof fn lemma_assoc_upto(a: u64, b: u64, c: u64, n: nat)
    ensures
        mul_upto(mul_spec(a, b), c, n) == mul_spec(a, mul_upto(b, c, n)),
    decreases n,
{
    if n == 0 {
        lemma_mul_upto_linear_right(a, 0, 0, 64);
    } else {
        let k = (n - 1) as nat;
        lemma_assoc_upto(a, b, c, k);
        lemma_xtime_pow_of_mul(a, b, k);
        lemma_mul_upto_linear_right(a, mul_upto(b, c, k), xtime_pow(b, k), 64);
    }
}

/// Multiplication is associative.
pub proof fn lemma_mul_associative(a: u64, b: u64, c: u64)
    ensures
        mul_spec(mul_spec(a, b), c) == mul_spec(a, mul_spec(b, c)),
{
    lemma_assoc_upto(a, b, c, 64);
}

} // verus!
