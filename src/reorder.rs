//! Reordering the shares handed to the decoder does not change what it
//! recovers.
use vstd::prelude::*;
use crate::field::mul_spec;
use crate::field_laws::{lemma_add_laws, lemma_mul_associative, lemma_mul_commutative, lemma_mul_zero_one};
use crate::shamir_secret::{
    basis_defined, basis_spec, combine_upto, denominator, denominator_upto, numerator, numerator_upto,
};
use crate::io::{
    bodies_complete, column, decode_check, decoded_bytes, decoded_word, basis_of, header_of, headers_agree,
    headers_of, headers_present, points_distinct, points_of,
};

verus! {

/// `s` folded from the left with `f`, starting from `e`.
pub open spec fn fold_op(s: Seq<u64>, f: spec_fn(u64, u64) -> u64, e: u64) -> u64
    decreases s.len(),
{
    if s.len() == 0 {
        e
    } else {
        f(fold_op(s.drop_last(), f, e), s.last())
    }
}

pub open spec fn mul_op() -> spec_fn(u64, u64) -> u64 {
    |a: u64, b: u64| mul_spec(a, b)
}

pub open spec fn xor_op() -> spec_fn(u64, u64) -> u64 {
    |a: u64, b: u64| a ^ b
}

pub open spec fn commutative_associative(f: spec_fn(u64, u64) -> u64) -> bool {
    &&& forall|a: u64, b: u64| #[trigger] f(a, b) == f(b, a)
    &&& forall|a: u64, b: u64, c: u64| #[trigger] f(f(a, b), c) == f(a, f(b, c))
}

/// Some entry of `p` is `v`.
pub open spec fn hits(p: Seq<int>, v: int) -> bool {
    exists|i: int| 0 <= i < p.len() && p[i] == v
}

/// `p` is a permutation of `0..n`.
pub open spec fn is_permutation(p: Seq<int>, n: int) -> bool {
    &&& p.len() == n
    &&& forall|i: int| 0 <= i < n ==> 0 <= #[trigger] p[i] < n
    &&& forall|i: int, j: int| 0 <= i < j < n ==> #[trigger] p[i] != #[trigger] p[j]
    &&& forall|v: int| 0 <= v < n ==> #[trigger] hits(p, v)
}

proof fn lemma_ops_commutative_associative()
    ensures
        commutative_associative(mul_op()),
        commutative_associative(xor_op()),
{
    assert forall|a: u64, b: u64| #[trigger] mul_op()(a, b) == mul_op()(b, a) by {
        lemma_mul_commutative(a, b);
    }
    assert forall|a: u64, b: u64, c: u64| #[trigger] mul_op()(mul_op()(a, b), c) == mul_op()(a, mul_op()(b, c)) by {
        lemma_mul_associative(a, b, c);
    }
    assert forall|a: u64, b: u64| #[trigger] xor_op()(a, b) == xor_op()(b, a) by {
        lemma_add_laws(a, b, 0);
    }
    assert forall|a: u64, b: u64, c: u64| #[trigger] xor_op()(xor_op()(a, b), c) == xor_op()(a, xor_op()(b, c)) by {
        lemma_add_laws(a, b, c);
    }
}

proof fn lemma_fold_remove(t: Seq<u64>, m: int, f: spec_fn(u64, u64) -> u64, e: u64)
    requires
        commutative_associative(f),
        0 <= m < t.len(),
    ensures
        fold_op(t, f, e) == f(fold_op(t.remove(m), f, e), t[m]),
    decreases t.len(),
{
    if m == t.len() - 1 {
        assert(t.remove(m) =~= t.drop_last());
    } else {
        let d = t.drop_last();
        lemma_fold_remove(d, m, f, e);
        assert(t.remove(m).drop_last() =~= d.remove(m));
        assert(t.remove(m).last() == t.last());
        let x = fold_op(d.remove(m), f, e);
        assert(f(f(x, t[m]), t.last()) == f(x, f(t[m], t.last())));
        assert(f(t[m], t.last()) == f(t.last(), t[m]));
        assert(f(f(x, t.last()), t[m]) == f(x, f(t.last(), t[m])));
    }
}

/// Folding a commutative, associative operation ignores order.
proof fn lemma_fold_permutation(s: Seq<u64>, p: Seq<int>, f: spec_fn(u64, u64) -> u64, e: u64)
    requires
        commutative_associative(f),
        is_permutation(p, s.len() as int),
    ensures
        fold_op(Seq::new(s.len(), |i: int| s[p[i]]), f, e) == fold_op(s, f, e),
    decreases s.len(),
{
    let n = s.len() as int;
    let t = Seq::new(s.len(), |i: int| s[p[i]]);
    if n > 0 {
        assert(hits(p, n - 1));
        let m = choose|i: int| 0 <= i < p.len() && p[i] == n - 1;
        lemma_fold_remove(t, m, f, e);
        let p_rest = Seq::new((n - 1) as nat, |i: int| if i < m { p[i] } else { p[i + 1] });
        assert forall|i: int| 0 <= i < n - 1 implies 0 <= #[trigger] p_rest[i] < n - 1 by {
            if i < m {
                assert(p[i] != p[m]);
            } else {
                assert(p[m] != p[i + 1]);
            }
        }
        assert forall|i: int, j: int| 0 <= i < j < n - 1 implies #[trigger] p_rest[i] != #[trigger] p_rest[j] by {
            if i < m && j < m {
            } else if i < m {
                assert(p[i] != p[j + 1]);
            } else {
                assert(p[i + 1] != p[j + 1]);
            }
        }
        assert forall|v: int| 0 <= v < n - 1 implies #[trigger] hits(p_rest, v) by {
            assert(hits(p, v));
            let i = choose|i: int| 0 <= i < p.len() && p[i] == v;
            if i < m {
                assert(p_rest[i] == v);
            } else {
                assert(i != m);
                assert(p_rest[i - 1] == v);
            }
        }
        let s_rest = s.drop_last();
        lemma_fold_permutation(s_rest, p_rest, f, e);
        assert(t.remove(m) =~= Seq::new(s_rest.len(), |i: int| s_rest[p_rest[i]]));
    } else {
        assert(t =~= s);
    }
}

/// The numerator as a fold over the points with the skipped one read as 1.
proof fn lemma_numerator_fold(pts: Seq<u64>, i: int, n: nat)
    requires
        n <= pts.len(),
    ensures
        numerator_upto(pts, i, n) == fold_op(
            Seq::new(n, |j: int| if j == i { 1u64 } else { pts[j] }),
            mul_op(),
            1,
        ),
    decreases n,
{
    let g = Seq::new(n, |j: int| if j == i { 1u64 } else { pts[j] });
    if n > 0 {
        lemma_numerator_fold(pts, i, (n - 1) as nat);
        assert(g.drop_last() =~= Seq::new((n - 1) as nat, |j: int| if j == i { 1u64 } else { pts[j] }));
        lemma_mul_zero_one(numerator_upto(pts, i, (n - 1) as nat));
    }
}

/// The denominator as a fold over the points with the skipped one read as 1.
proof fn lemma_denominator_fold(pts: Seq<u64>, i: int, n: nat)
    requires
        n <= pts.len(),
        0 <= i < pts.len(),
    ensures
        denominator_upto(pts, i, n) == fold_op(
            Seq::new(n, |j: int| if j == i { 1u64 } else { pts[i] ^ pts[j] }),
            mul_op(),
            1,
        ),
    decreases n,
{
    let g = Seq::new(n, |j: int| if j == i { 1u64 } else { pts[i] ^ pts[j] });
    if n > 0 {
        lemma_denominator_fold(pts, i, (n - 1) as nat);
        assert(g.drop_last() =~= Seq::new((n - 1) as nat, |j: int| if j == i { 1u64 } else { pts[i] ^ pts[j] }));
        lemma_mul_zero_one(denominator_upto(pts, i, (n - 1) as nat));
    }
}

proof fn lemma_combine_fold(ys: Seq<u64>, bs: Seq<u64>, n: nat)
    requires
        n <= ys.len(),
        n <= bs.len(),
    ensures
        combine_upto(ys, bs, n) == fold_op(Seq::new(n, |j: int| mul_spec(ys[j], bs[j])), xor_op(), 0),
    decreases n,
{
    let g = Seq::new(n, |j: int| mul_spec(ys[j], bs[j]));
    if n > 0 {
        lemma_combine_fold(ys, bs, (n - 1) as nat);
        assert(g.drop_last() =~= Seq::new((n - 1) as nat, |j: int| mul_spec(ys[j], bs[j])));
    }
}

/// Permuting the points permutes their Lagrange numerators and denominators.
proof fn lemma_basis_permuted(ps: Seq<u64>, pt: Seq<u64>, p: Seq<int>, i: int)
    requires
        is_permutation(p, ps.len() as int),
        pt.len() == ps.len(),
        forall|j: int| 0 <= j < pt.len() ==> pt[j] == ps[#[trigger] p[j]],
        0 <= i < ps.len(),
    ensures
        numerator(pt, i) == numerator(ps, p[i]),
        denominator(pt, i) == denominator(ps, p[i]),
        basis_spec(pt, i) == basis_spec(ps, p[i]),
{
    lemma_ops_commutative_associative();
    let n = ps.len();
    let q = p[i];
    let gn = Seq::new(n, |j: int| if j == q { 1u64 } else { ps[j] });
    let gd = Seq::new(n, |j: int| if j == q { 1u64 } else { ps[q] ^ ps[j] });
    lemma_numerator_fold(pt, i, n);
    lemma_numerator_fold(ps, q, n);
    lemma_denominator_fold(pt, i, n);
    lemma_denominator_fold(ps, q, n);
    lemma_fold_permutation(gn, p, mul_op(), 1);
    lemma_fold_permutation(gd, p, mul_op(), 1);
    assert forall|j: int| 0 <= j < n implies (j == i) == (p[j] == q) by {
        if j < i {
            assert(p[j] != p[i]);
        } else if j > i {
            assert(p[i] != p[j]);
        }
    }
    assert(Seq::new(n, |j: int| if j == i { 1u64 } else { pt[j] }) =~= Seq::new(n, |j: int| gn[p[j]]));
    assert(Seq::new(n, |j: int| if j == i { 1u64 } else { pt[i] ^ pt[j] }) =~= Seq::new(n, |j: int| gd[p[j]]));
}

/// Handing the decoder the same shares in another order gives the same
/// plaintext, and succeeds whenever the first order does.
pub proof fn lemma_decode_order_independent(s: Seq<Vec<u8>>, t: Seq<Vec<u8>>, p: Seq<int>)
    requires
        decode_check(s) is None,
        is_permutation(p, header_of(s[0]@).min_shares as int),
        t.len() >= header_of(s[0]@).min_shares,
        forall|i: int| 0 <= i < header_of(s[0]@).min_shares ==> t[i] == s[#[trigger] p[i]],
    ensures
        decode_check(t) is None,
        header_of(t[0]@).min_shares == header_of(s[0]@).min_shares,
        header_of(t[0]@).length == header_of(s[0]@).length,
        decoded_bytes(t, header_of(t[0]@).min_shares as int, header_of(t[0]@).length as int) == decoded_bytes(
            s,
            header_of(s[0]@).min_shares as int,
            header_of(s[0]@).length as int,
        ),
{
    lemma_ops_commutative_associative();
    let first = header_of(s[0]@);
    let k = first.min_shares as int;
    let hs = headers_of(s, k);
    let ht = headers_of(t, k);
    assert(k >= 1);
    assert(0 <= p[0] < k);
    assert(hs[p[0]] == header_of(s[p[0]]@));
    let tfirst = header_of(t[0]@);
    assert(t[0] == s[p[0]]);
    assert(tfirst.min_shares == first.min_shares && tfirst.length == first.length);
    assert forall|i: int| 0 <= i < k implies #[trigger] ht[i] == hs[p[i]] by {
        assert(t[i] == s[p[i]]);
    }
    assert(headers_present(t, k)) by {
        assert forall|i: int| 0 <= i < k implies (#[trigger] t[i]@).len() >= 32 by {
            assert(t[i] == s[p[i]]);
            assert(0 <= p[i] < k);
        }
    }
    assert(headers_agree(ht, tfirst)) by {
        assert forall|i: int| 0 <= i < ht.len() implies (#[trigger] ht[i]).min_shares == tfirst.min_shares
            && ht[i].length == tfirst.length by {
            assert(ht[i] == hs[p[i]]);
            assert(0 <= p[i] < k);
        }
    }
    assert(points_distinct(ht)) by {
        assert forall|a: int, b: int| 0 <= a < b < ht.len() implies (#[trigger] ht[a]).evaluation_point
            != (#[trigger] ht[b]).evaluation_point by {
            assert(ht[a] == hs[p[a]]);
            assert(ht[b] == hs[p[b]]);
            assert(p[a] != p[b]);
            assert(0 <= p[a] < k && 0 <= p[b] < k);
            if p[a] < p[b] {
                assert(hs[p[a]].evaluation_point != hs[p[b]].evaluation_point);
            } else {
                assert(hs[p[b]].evaluation_point != hs[p[a]].evaluation_point);
            }
        }
    }
    assert(bodies_complete(t, k, tfirst.length)) by {
        assert forall|i: int| 0 <= i < k implies (#[trigger] t[i]@).len() >= 32 + 8 * crate::io::word_count(
            tfirst.length as int,
        ) by {
            assert(t[i] == s[p[i]]);
            assert(0 <= p[i] < k);
        }
    }
    let ps = points_of(s, k);
    let pt = points_of(t, k);
    assert forall|j: int| 0 <= j < pt.len() implies pt[j] == ps[#[trigger] p[j]] by {
        assert(t[j] == s[p[j]]);
    }
    assert forall|i: int| 0 <= i < k implies #[trigger] basis_spec(pt, i) == basis_spec(ps, p[i]) && denominator(
        pt,
        i,
    ) == denominator(ps, p[i]) by {
        lemma_basis_permuted(ps, pt, p, i);
    }
    assert(basis_defined(pt)) by {
        assert forall|i: int| 0 <= i < pt.len() implies denominator(pt, i) != 0 by {
            assert(basis_spec(pt, i) == basis_spec(ps, p[i]));
            assert(0 <= p[i] < k);
        }
    }
    assert(decode_check(t) is None);
    let bs = basis_of(s, k);
    let bt = basis_of(t, k);
    let len = first.length as int;
    let n = crate::io::word_count(len);
    assert forall|j: int| 0 <= j < n implies decoded_word(t, k, j) == decoded_word(s, k, j) by {
        let cs = column(s, k, j);
        let ct = column(t, k, j);
        let h = Seq::new(k as nat, |i: int| mul_spec(cs[i], bs[i]));
        lemma_combine_fold(cs, bs, k as nat);
        lemma_combine_fold(ct, bt, k as nat);
        lemma_fold_permutation(h, p, xor_op(), 0);
        assert forall|i: int| 0 <= i < k implies ct[i] == cs[p[i]] && bt[i] == bs[p[i]] by {
            assert(t[i] == s[p[i]]);
            assert(basis_spec(pt, i) == basis_spec(ps, p[i]));
        }
        assert(Seq::new(k as nat, |i: int| mul_spec(ct[i], bt[i])) =~= Seq::new(k as nat, |i: int| h[p[i]]));
    }
    assert(Seq::new(n as nat, |j: int| decoded_word(t, k, j)) =~= Seq::new(n as nat, |j: int| decoded_word(s, k, j)));
}

} // verus!
