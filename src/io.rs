//! The share format: a 32-byte header followed by one little-endian word per
//! eight bytes of plaintext, and the encoder and decoder over it.
use vstd::prelude::*;
use crate::shamir_secret::{Polynomial, poly_eval, basis_spec, basis_defined, combine_upto};

verus! {

/// Bytes taken by a serialised header.
pub const HEADER_LEN: usize = 32;

/// The metadata at the start of every share.
#[derive(Clone, Copy, Debug, PartialEq, Eq, Structural)]
pub struct Header {
    pub length: u64,
    pub num_shares: u64,
    pub min_shares: u64,
    pub evaluation_point: u64,
}

/// Byte `i` (0 = least significant) of `v`.
pub open spec fn byte_of(v: u64, i: nat) -> u8 {
    ((v >> (8 * i) as u64) & 0xffu64) as u8
}

/// The eight little-endian bytes of `v`.
pub open spec fn le_bytes(v: u64) -> Seq<u8> {
    Seq::new(8, |i: int| byte_of(v, i as nat))
}

/// The little-endian bytes of each word, one after another.
pub open spec fn words_bytes(ws: Seq<u64>) -> Seq<u8>
    decreases ws.len(),
{
    if ws.len() == 0 {
        Seq::empty()
    } else {
        words_bytes(ws.drop_last()) + le_bytes(ws.last())
    }
}

/// Byte `i` of `s`, or zero past its end.
pub open spec fn byte_or_zero(s: Seq<u8>, i: int) -> u8 {
    if 0 <= i < s.len() {
        s[i]
    } else {
        0
    }
}

/// The word made of the `n` bytes of `s` from `off` on, little-endian, with
/// bytes past the end read as zero.
pub open spec fn word_upto(s: Seq<u8>, off: int, n: nat) -> u64
    decreases n,
{
    if n == 0 {
        0
    } else {
        word_upto(s, off, (n - 1) as nat) | ((byte_or_zero(s, off + n - 1) as u64) << (8 * (n - 1)) as u64)
    }
}

/// The little-endian word at byte `off` of `s`, zero-padded past its end.
pub open spec fn word_at(s: Seq<u8>, off: int) -> u64 {
    word_upto(s, off, 8)
}

/// The number of words that `length` bytes fill, the last one possibly partly.
pub open spec fn word_count(length: int) -> int {
    if length % 8 == 0 {
        length / 8
    } else {
        length / 8 + 1
    }
}

/// The `j`-th word of the plaintext `s`.
pub open spec fn plain_word(s: Seq<u8>, j: int) -> u64 {
    word_at(s, 8 * j)
}

/// The serialised header: its four fields in order, each little-endian.
pub open spec fn header_bytes(h: Header) -> Seq<u8> {
    le_bytes(h.length) + le_bytes(h.num_shares) + le_bytes(h.min_shares) + le_bytes(h.evaluation_point)
}

/// The header fields as read from the first 32 bytes of `s`.
pub open spec fn header_of(s: Seq<u8>) -> Header {
    Header {
        length: word_at(s, 0),
        num_shares: word_at(s, 8),
        min_shares: word_at(s, 16),
        evaluation_point: word_at(s, 24),
    }
}

/// The header at the start of `s`, when `s` holds one.
pub open spec fn parse_header_spec(s: Seq<u8>) -> Option<Header> {
    if s.len() < 32 {
        None
    } else {
        Some(header_of(s))
    }
}

/// Appends the little-endian bytes of `v`.
pub fn push_le_bytes(out: &mut Vec<u8>, v: u64)
    ensures
        final(out)@ == old(out)@ + le_bytes(v),
{
    push_le_prefix(out, v, 8);
}

/// Appends the first `count` little-endian bytes of `v`.
pub fn push_le_prefix(out: &mut Vec<u8>, v: u64, count: usize)
    requires
        count <= 8,
    ensures
        final(out)@ == old(out)@ + le_bytes(v).take(count as int),
{
    let ghost start = out@;
    let mut i: usize = 0;
    while i < count
        invariant
            i <= count <= 8,
            out@ == start + le_bytes(v).take(i as int),
        decreases count - i,
    {
        let b = ((v >> (8 * i) as u64) & 0xffu64) as u8;
        out.push(b);
        i = i + 1;
        assert(out@ =~= start + le_bytes(v).take(i as int));
    }
    assert(le_bytes(v).take(8) =~= le_bytes(v));
}

/// The little-endian word at byte `off` of `s`, zero-padded past its end.
pub fn read_word(s: &[u8], off: usize) -> (r: u64)
    ensures
        r == word_at(s@, off as int),
{
    let mut v: u64 = 0;
    let mut i: usize = 0;
    while i < 8
        invariant
            i <= 8,
            v == word_upto(s@, off as int, i as nat),
        decreases 8 - i,
    {
        let b: u8 = if off < s.len() && i < s.len() - off { s[off + i] } else { 0 };
        v = v | ((b as u64) << (8 * i) as u64);
        i = i + 1;
    }
    v
}

impl Header {
    /// The header in its 32-byte form.
    pub fn to_bytes(&self) -> (r: Vec<u8>)
        ensures
            r@ == header_bytes(*self),
            r@.len() == 32,
    {
        let mut out: Vec<u8> = Vec::new();
        push_le_bytes(&mut out, self.length);
        push_le_bytes(&mut out, self.num_shares);
        push_le_bytes(&mut out, self.min_shares);
        push_le_bytes(&mut out, self.evaluation_point);
        out
    }

    /// The header at the start of `s`; `None` when `s` is shorter than a header.
    pub fn parse(s: &[u8]) -> (r: Option<Header>)
        ensures
            r == parse_header_spec(s@),
    {
        if s.len() < HEADER_LEN {
            return None;
        }
        Some(
            Header {
                length: read_word(s, 0),
                num_shares: read_word(s, 8),
                min_shares: read_word(s, 16),
                evaluation_point: read_word(s, 24),
            },
        )
    }
}

/// Reads a byte string as consecutive little-endian words, the last one
/// zero-padded on its high-order bytes.
pub struct U64Iterator {
    bytes: Vec<u8>,
    pos: usize,
    length: usize,
}

impl U64Iterator {
    /// The bytes being read.
    pub closed spec fn source(&self) -> Seq<u8> {
        self.bytes@
    }

    /// The number of words read so far.
    pub closed spec fn count(&self) -> nat {
        self.length as nat
    }

    pub closed spec fn wf(&self) -> bool {
        &&& self.length <= word_count(self.bytes@.len() as int)
        &&& self.pos == if 8 * self.length <= self.bytes@.len() { 8 * self.length } else { self.bytes@.len() as int }
    }

    /// An iterator at the start of `internal`.
    pub fn new(internal: Vec<u8>) -> (r: Self)
        ensures
            r.wf(),
            r.source() == internal@,
            r.count() == 0,
    {
        U64Iterator { bytes: internal, pos: 0, length: 0 }
    }

    /// The next word, or `None` once every byte has been read.
    pub fn next(&mut self) -> (r: Option<u64>)
        requires
            old(self).wf(),
        ensures
            final(self).wf(),
            final(self).source() == old(self).source(),
            old(self).count() < word_count(old(self).source().len() as int) ==> r == Some(
                plain_word(old(self).source(), old(self).count() as int),
            ) && final(self).count() == old(self).count() + 1,
            old(self).count() >= word_count(old(self).source().len() as int) ==> r is None
                && final(self).count() == old(self).count(),
    {
        proof {
            let len = self.bytes@.len() as int;
            let l = self.length as int;
            assert(l < word_count(len) <==> 8 * l < len) by (nonlinear_arith)
                requires
                    word_count(len) == if len % 8 == 0 { len / 8 } else { len / 8 + 1 },
                    len >= 0,
                    l >= 0,
            ;
        }
        if self.pos >= self.bytes.len() {
            return None;
        }
        let w = read_word(self.bytes.as_slice(), self.pos);
        let rest = self.bytes.len() - self.pos;
        self.pos = if rest >= 8 { self.pos + 8 } else { self.bytes.len() };
        self.length = self.length + 1;
        proof {
            let len = self.bytes@.len() as int;
            let l = self.length as int;
            assert(l <= word_count(len)) by (nonlinear_arith)
                requires
                    word_count(len) == if len % 8 == 0 { len / 8 } else { len / 8 + 1 },
                    8 * (l - 1) < len,
                    len >= 0,
            ;
        }
        Some(w)
    }
}

/// Why shares could not be made or read back.
#[derive(Clone, Copy, Debug, PartialEq, Eq, Structural)]
pub enum ShareError {
    /// The threshold is zero or exceeds the number of shares.
    InvalidParameters,
    /// Fewer shares were supplied than the first header's threshold.
    TooFewShares,
    /// A share is shorter than a header, or its header gives a zero threshold.
    MalformedHeader,
    /// A share's threshold or length differs from the first share's.
    MismatchedHeader,
    /// Two shares carry the same evaluation point.
    DuplicatePoint,
    /// A share's body holds fewer words than its header's length needs.
    TruncatedShare,
    /// Some Lagrange denominator of the points is zero.
    DegenerateBasis,
}

/// The header of the share at evaluation point `x`.
pub open spec fn share_header(length: u64, num_shares: usize, min_shares: usize, x: u64) -> Header {
    Header { length, num_shares: num_shares as u64, min_shares: min_shares as u64, evaluation_point: x }
}

/// The body of the share at `x`: each polynomial's value there.
pub open spec fn share_body(polys: Seq<Seq<u64>>, x: u64) -> Seq<u64> {
    Seq::new(polys.len(), |j: int| poly_eval(polys[j], x))
}

/// The bytes of the share at `x`.
pub open spec fn share_spec(length: u64, num_shares: usize, min_shares: usize, polys: Seq<Seq<u64>>, x: u64) -> Seq<u8> {
    header_bytes(share_header(length, num_shares, min_shares, x)) + words_bytes(share_body(polys, x))
}

/// The coefficient sequences of the polynomials.
pub open spec fn coefficients_of(polys: Seq<Polynomial>) -> Seq<Seq<u64>> {
    Seq::new(polys.len(), |j: int| polys[j].coefficients@)
}

/// Polynomials fit to share `data` with threshold `k`: one per word, each with
/// `k` coefficients and that word as its constant term.
pub open spec fn sharing_polynomials(data: Seq<u8>, k: int, polys: Seq<Seq<u64>>) -> bool {
    &&& polys.len() == word_count(data.len() as int)
    &&& forall|j: int| 0 <= j < polys.len() ==> polys[j].len() == k && polys[j][0] == plain_word(data, j)
}

/// The words of `ws` below `j` give the bytes of the first `j` words.
proof fn lemma_words_bytes_step(ws: Seq<u64>, j: int)
    requires
        0 <= j < ws.len(),
    ensures
        words_bytes(ws.take(j + 1)) == words_bytes(ws.take(j)) + le_bytes(ws[j]),
{
    assert(ws.take(j + 1).drop_last() =~= ws.take(j));
}

/// The `n` shares, at the points `1..=n`, of a plaintext of `length` bytes
/// whose words the polynomials share.
pub fn shares_from_polynomials(length: u64, num_shares: usize, min_shares: usize, polys: &[Polynomial]) -> (r: Vec<Vec<u8>>)
    ensures
        r@.len() == num_shares,
        forall|i: int|
            0 <= i < num_shares ==> r@[i]@ == share_spec(length, num_shares, min_shares, coefficients_of(polys@), (i + 1) as u64),
{
    let ghost cs = coefficients_of(polys@);
    let mut out: Vec<Vec<u8>> = Vec::new();
    let mut i: usize = 0;
    while i < num_shares
        invariant
            i <= num_shares,
            cs == coefficients_of(polys@),
            out@.len() == i,
            forall|t: int| 0 <= t < i ==> out@[t]@ == share_spec(length, num_shares, min_shares, cs, (t + 1) as u64),
        decreases num_shares - i,
    {
        let x: u64 = (i + 1) as u64;
        let header = Header { length, num_shares: num_shares as u64, min_shares: min_shares as u64, evaluation_point: x };
        let mut share = header.to_bytes();
        let ghost body = share_body(cs, x);
        let mut j: usize = 0;
        while j < polys.len()
            invariant
                j <= polys@.len(),
                cs == coefficients_of(polys@),
                body == share_body(cs, x),
                share@ == header_bytes(header) + words_bytes(body.take(j as int)),
            decreases polys@.len() - j,
        {
            let y = polys[j].evaluate(x);
            push_le_bytes(&mut share, y);
            proof {
                lemma_words_bytes_step(body, j as int);
            }
            j = j + 1;
        }
        assert(body.take(polys@.len() as int) =~= body);
        out.push(share);
        i = i + 1;
    }
    out
}

/// Splits `data` into `num_shares` shares, any `min_shares` of which recover
/// it: each word gets a fresh random polynomial with that word as its constant
/// term, and share `i` holds the values at point `i`.
pub fn encode_shares(data: Vec<u8>, num_shares: usize, min_shares: usize) -> (r: Result<Vec<Vec<u8>>, ShareError>)
    ensures
        r is Err <==> !(1 <= min_shares <= num_shares),
        r matches Err(e) ==> e == ShareError::InvalidParameters,
        r matches Ok(shares) ==> shares@.len() == num_shares && exists|polys: Seq<Seq<u64>>|
            sharing_polynomials(data@, min_shares as int, polys) && forall|i: int|
                0 <= i < num_shares ==> (#[trigger] shares@[i])@ == share_spec(
                    data@.len() as u64,
                    num_shares,
                    min_shares,
                    polys,
                    (i + 1) as u64,
                ),
{
    if min_shares == 0 || min_shares > num_shares {
        return Err(ShareError::InvalidParameters);
    }
    let length = data.len();
    let words: usize = length / 8 + if length % 8 != 0 { 1 } else { 0 };
    let ghost plain = data@;
    let mut it = U64Iterator::new(data);
    let mut polys: Vec<Polynomial> = Vec::new();
    let mut j: usize = 0;
    while j < words
        invariant
            words == word_count(plain.len() as int),
            j <= words,
            it.wf(),
            it.source() == plain,
            it.count() == j,
            polys@.len() == j,
            1 <= min_shares,
            forall|t: int| 0 <= t < j ==> (#[trigger] polys@[t]).coefficients@.len() == min_shares,
            forall|t: int| 0 <= t < j ==> (#[trigger] polys@[t]).coefficients@[0] == plain_word(plain, t),
        decreases words - j,
    {
        let w = match it.next() {
            Some(w) => w,
            None => 0,
        };
        let p = Polynomial::random(min_shares, w);
        polys.push(p);
        j = j + 1;
    }
    let shares = shares_from_polynomials(length as u64, num_shares, min_shares, polys.as_slice());
    let ghost cs = coefficients_of(polys@);
    assert forall|t: int| 0 <= t < cs.len() implies cs[t].len() == min_shares && cs[t][0] == plain_word(plain, t) by {
        assert(cs[t] == polys@[t].coefficients@);
    }
    assert(sharing_polynomials(plain, min_shares as int, cs));
    Ok(shares)
}

/// The evaluation points of the first `k` shares.
pub open spec fn points_of(shares: Seq<Vec<u8>>, k: int) -> Seq<u64> {
    Seq::new(k as nat, |i: int| header_of(shares[i]@).evaluation_point)
}

/// Word `j` of the body of each of the first `k` shares.
pub open spec fn column(shares: Seq<Vec<u8>>, k: int, j: int) -> Seq<u64> {
    Seq::new(k as nat, |i: int| word_at(shares[i]@, 32 + 8 * j))
}

/// The Lagrange basis of the first `k` shares' points.
pub open spec fn basis_of(shares: Seq<Vec<u8>>, k: int) -> Seq<u64> {
    Seq::new(k as nat, |i: int| basis_spec(points_of(shares, k), i))
}

/// Word `j` of the plaintext, interpolated from the first `k` shares.
pub open spec fn decoded_word(shares: Seq<Vec<u8>>, k: int, j: int) -> u64 {
    combine_upto(column(shares, k, j), basis_of(shares, k), k as nat)
}

/// The plaintext recovered from the first `k` shares, `length` bytes long.
pub open spec fn decoded_bytes(shares: Seq<Vec<u8>>, k: int, length: int) -> Seq<u8> {
    words_bytes(Seq::new(word_count(length) as nat, |j: int| decoded_word(shares, k, j))).take(length)
}

/// Every one of the first `k` shares is long enough to hold a header.
pub open spec fn headers_present(shares: Seq<Vec<u8>>, k: int) -> bool {
    forall|i: int| 0 <= i < k ==> (#[trigger] shares[i]@).len() >= 32
}

/// The headers of the first `k` shares.
pub open spec fn headers_of(shares: Seq<Vec<u8>>, k: int) -> Seq<Header> {
    Seq::new(k as nat, |i: int| header_of(shares[i]@))
}

/// Every header gives the same threshold and length as `first`.
pub open spec fn headers_agree(hs: Seq<Header>, first: Header) -> bool {
    forall|i: int|
        0 <= i < hs.len() ==> (#[trigger] hs[i]).min_shares == first.min_shares && hs[i].length == first.length
}

/// No two headers carry the same evaluation point.
pub open spec fn points_distinct(hs: Seq<Header>) -> bool {
    forall|a: int, b: int|
        0 <= a < b < hs.len() ==> (#[trigger] hs[a]).evaluation_point != (#[trigger] hs[b]).evaluation_point
}

/// Every one of the first `k` shares holds the words of `length` bytes.
pub open spec fn bodies_complete(shares: Seq<Vec<u8>>, k: int, length: u64) -> bool {
    forall|i: int| 0 <= i < k ==> (#[trigger] shares[i]@).len() >= 32 + 8 * word_count(length as int)
}

/// The error, if any, that decoding `shares` meets; checks go in this order.
pub open spec fn decode_check(shares: Seq<Vec<u8>>) -> Option<ShareError> {
    if shares.len() == 0 {
        Some(ShareError::TooFewShares)
    } else if shares[0]@.len() < 32 {
        Some(ShareError::MalformedHeader)
    } else {
        let first = header_of(shares[0]@);
        let k = first.min_shares as int;
        if k == 0 {
            Some(ShareError::MalformedHeader)
        } else if shares.len() < k {
            Some(ShareError::TooFewShares)
        } else if !headers_present(shares, k) {
            Some(ShareError::MalformedHeader)
        } else if !headers_agree(headers_of(shares, k), first) {
            Some(ShareError::MismatchedHeader)
        } else if !points_distinct(headers_of(shares, k)) {
            Some(ShareError::DuplicatePoint)
        } else if !bodies_complete(shares, k, first.length) {
            Some(ShareError::TruncatedShare)
        } else if !basis_defined(points_of(shares, k)) {
            Some(ShareError::DegenerateBasis)
        } else {
            None
        }
    }
}

/// The bytes of `ws` number eight per word.
proof fn lemma_words_bytes_len(ws: Seq<u64>)
    ensures
        words_bytes(ws).len() == 8 * ws.len(),
    decreases ws.len(),
{
    if ws.len() > 0 {
        lemma_words_bytes_len(ws.drop_last());
    }
}

/// The headers of the first `k` shares, if each is long enough to hold one.
fn read_headers(shares: &[Vec<u8>], k: usize) -> (r: Option<Vec<Header>>)
    requires
        k <= shares@.len(),
    ensures
        r is Some <==> headers_present(shares@, k as int),
        r matches Some(hs) ==> hs@ == headers_of(shares@, k as int),
{
    let mut hs: Vec<Header> = Vec::new();
    let mut i: usize = 0;
    while i < k
        invariant
            k <= shares@.len(),
            i <= k,
            headers_present(shares@, i as int),
            hs@ == headers_of(shares@, i as int),
        decreases k - i,
    {
        match Header::parse(shares[i].as_slice()) {
            Some(h) => {
                hs.push(h);
            },
            None => {
                assert(shares@[i as int]@.len() < 32);
                return None;
            },
        }
        i = i + 1;
        assert(hs@ =~= headers_of(shares@, i as int));
    }
    Some(hs)
}

/// Whether every header gives the threshold and length of `first`.
fn check_agree(hs: &[Header], first: Header) -> (r: bool)
    ensures
        r == headers_agree(hs@, first),
{
    let mut i: usize = 0;
    while i < hs.len()
        invariant
            i <= hs@.len(),
            headers_agree(hs@.take(i as int), first),
        decreases hs@.len() - i,
    {
        if hs[i].min_shares != first.min_shares || hs[i].length != first.length {
            assert(!headers_agree(hs@, first)) by {
                assert(hs@[i as int] == hs@[i as int]);
            }
            return false;
        }
        i = i + 1;
        assert forall|t: int| 0 <= t < i implies (#[trigger] hs@.take(i as int)[t]).min_shares == first.min_shares
            && hs@.take(i as int)[t].length == first.length by {
            assert(hs@.take(i as int)[t] == hs@[t]);
            if t < i - 1 {
                assert(hs@.take((i - 1) as int)[t] == hs@[t]);
            }
        }
    }
    assert(hs@.take(hs@.len() as int) =~= hs@);
    true
}

/// Whether the headers carry pairwise distinct evaluation points.
fn check_distinct(hs: &[Header]) -> (r: bool)
    ensures
        r == points_distinct(hs@),
{
    let mut i: usize = 0;
    while i < hs.len()
        invariant
            i <= hs@.len(),
            forall|a: int, b: int|
                0 <= a < b < i ==> (#[trigger] hs@[a]).evaluation_point != (#[trigger] hs@[b]).evaluation_point,
        decreases hs@.len() - i,
    {
        let mut t: usize = 0;
        while t < i
            invariant
                i < hs@.len(),
                t <= i,
                forall|a: int| 0 <= a < t ==> (#[trigger] hs@[a]).evaluation_point != hs@[i as int].evaluation_point,
            decreases i - t,
        {
            if hs[t].evaluation_point == hs[i].evaluation_point {
                assert(!points_distinct(hs@)) by {
                    assert(hs@[t as int].evaluation_point == hs@[i as int].evaluation_point);
                }
                return false;
            }
            t = t + 1;
        }
        i = i + 1;
    }
    true
}

/// Whether each of the first `k` shares holds `words` words after its header.
fn check_bodies(shares: &[Vec<u8>], k: usize, length: u64, words: u64) -> (r: bool)
    requires
        k <= shares@.len(),
        headers_present(shares@, k as int),
        words == word_count(length as int),
    ensures
        r == bodies_complete(shares@, k as int, length),
{
    let mut i: usize = 0;
    while i < k
        invariant
            k <= shares@.len(),
            i <= k,
            headers_present(shares@, k as int),
            words == word_count(length as int),
            bodies_complete(shares@, i as int, length),
        decreases k - i,
    {
        assert(shares@[i as int]@.len() >= 32);
        let avail: usize = (shares[i].len() - HEADER_LEN) / 8;
        proof {
            let n = shares@[i as int]@.len() as int;
            assert((avail as int) < words <==> n < 32 + 8 * words) by (nonlinear_arith)
                requires
                    avail as int == (n - 32) / 8,
                    n >= 32,
            ;
        }
        if (avail as u64) < words {
            return false;
        }
        i = i + 1;
    }
    true
}

/// The points of the headers, in order.
fn header_points(hs: &[Header]) -> (r: Vec<u64>)
    ensures
        r@ == Seq::new(hs@.len(), |i: int| hs@[i].evaluation_point),
{
    let mut out: Vec<u64> = Vec::new();
    let mut i: usize = 0;
    while i < hs.len()
        invariant
            i <= hs@.len(),
            out@ == Seq::new(i as nat, |q: int| hs@[q].evaluation_point),
        decreases hs@.len() - i,
    {
        out.push(hs[i].evaluation_point);
        i = i + 1;
        assert(out@ =~= Seq::new(i as nat, |q: int| hs@[q].evaluation_point));
    }
    out
}

/// Interpolates each word of the plaintext from the first `k` shares and
/// keeps `length` bytes.
fn interpolate_body(shares: &[Vec<u8>], k: usize, length: u64, basis: &[u64]) -> (r: Vec<u8>)
    requires
        1 <= k <= shares@.len(),
        bodies_complete(shares@, k as int, length),
        basis@ == basis_of(shares@, k as int),
    ensures
        r@ == decoded_bytes(shares@, k as int, length as int),
{
    let words: u64 = length / 8 + if length % 8 != 0 { 1 } else { 0 };
    let full: u64 = length / 8;
    let tail: usize = (length % 8) as usize;
    let n0: usize = shares[0].len();
    assert(n0 >= 32 + 8 * words);
    let ghost dw = Seq::new(words as nat, |j: int| decoded_word(shares@, k as int, j));
    let mut out: Vec<u8> = Vec::new();
    let mut j: usize = 0;
    while (j as u64) < words
        invariant
            1 <= k <= shares@.len(),
            words == word_count(length as int),
            full == length / 8,
            tail == length % 8,
            j <= words,
            32 + 8 * words <= n0,
            basis@ == basis_of(shares@, k as int),
            dw == Seq::new(words as nat, |q: int| decoded_word(shares@, k as int, q)),
            j <= full ==> out@ == words_bytes(dw.take(j as int)),
            j > full ==> out@ == words_bytes(dw.take(full as int)) + le_bytes(dw[full as int]).take(tail as int),
        decreases words - j,
    {
        assert(8 * j < 8 * words) by (nonlinear_arith)
            requires
                j < words,
        ;
        let off: usize = HEADER_LEN + 8 * j;
        let mut ys: Vec<u64> = Vec::new();
        let mut t: usize = 0;
        while t < k
            invariant
                k <= shares@.len(),
                t <= k,
                off == 32 + 8 * j,
                ys@ == column(shares@, k as int, j as int).take(t as int),
            decreases k - t,
        {
            ys.push(read_word(shares[t].as_slice(), off));
            t = t + 1;
            assert(ys@ =~= column(shares@, k as int, j as int).take(t as int));
        }
        assert(ys@ =~= column(shares@, k as int, j as int));
        let v = Polynomial::interpolate_from_langrange_basis(ys.as_slice(), basis);
        assert(v == dw[j as int]);
        if (j as u64) < full {
            push_le_bytes(&mut out, v);
            proof {
                lemma_words_bytes_step(dw, j as int);
            }
        } else {
            push_le_prefix(&mut out, v, tail);
        }
        j = j + 1;
    }
    proof {
        lemma_words_bytes_len(dw);
        lemma_words_bytes_len(dw.take(full as int));
        if tail == 0 {
            assert(dw.take(full as int) =~= dw);
            assert(words_bytes(dw).take(length as int) =~= words_bytes(dw));
        } else {
            assert(dw.drop_last() =~= dw.take(full as int));
            assert(out@ =~= words_bytes(dw).take(length as int));
        }
    }
    out
}

/// Recovers the plaintext from the first `k` of `shares`, where `k` is the
/// threshold in the first share's header. Further shares are ignored.
pub fn decode_shares(shares: &[Vec<u8>]) -> (r: Result<Vec<u8>, ShareError>)
    ensures
        decode_check(shares@) matches Some(e) ==> r == Err::<Vec<u8>, ShareError>(e),
        decode_check(shares@) is None ==> (r matches Ok(out) && out@ == decoded_bytes(
            shares@,
            header_of(shares@[0]@).min_shares as int,
            header_of(shares@[0]@).length as int,
        )),
{
    if shares.len() == 0 {
        return Err(ShareError::TooFewShares);
    }
    let first = match Header::parse(shares[0].as_slice()) {
        Some(h) => h,
        None => {
            return Err(ShareError::MalformedHeader);
        },
    };
    if first.min_shares == 0 {
        return Err(ShareError::MalformedHeader);
    }
    if (shares.len() as u64) < first.min_shares {
        return Err(ShareError::TooFewShares);
    }
    let k: usize = first.min_shares as usize;
    let headers = match read_headers(shares, k) {
        Some(hs) => hs,
        None => {
            return Err(ShareError::MalformedHeader);
        },
    };
    if !check_agree(headers.as_slice(), first) {
        return Err(ShareError::MismatchedHeader);
    }
    if !check_distinct(headers.as_slice()) {
        return Err(ShareError::DuplicatePoint);
    }
    let length: u64 = first.length;
    let words: u64 = length / 8 + if length % 8 != 0 { 1 } else { 0 };
    if !check_bodies(shares, k, length, words) {
        return Err(ShareError::TruncatedShare);
    }
    let points = header_points(headers.as_slice());
    assert(points@ =~= points_of(shares@, k as int));
    let basis = match Polynomial::compute_lagrange_basis_for_constant_term(points.as_slice()) {
        Some(b) => b,
        None => {
            return Err(ShareError::DegenerateBasis);
        },
    };
    assert(basis@ =~= basis_of(shares@, k as int));
    Ok(interpolate_body(shares, k, length, basis.as_slice()))
}

/// The recovered plaintext has exactly the length that the headers give.
pub proof fn lemma_decoded_length(shares: Seq<Vec<u8>>, k: int, length: int)
    requires
        length >= 0,
    ensures
        decoded_bytes(shares, k, length).len() == length,
{
    let dw = Seq::new(word_count(length) as nat, |j: int| decoded_word(shares, k, j));
    lemma_words_bytes_len(dw);
    assert(8 * word_count(length) >= length) by (nonlinear_arith)
        requires
            word_count(length) == if length % 8 == 0 { length / 8 } else { length / 8 + 1 },
            length >= 0,
    ;
}

proof fn lemma_word_round_trip(v: u64, s: Seq<u8>, off: int)
    requires
        0 <= off,
        off + 8 <= s.len(),
        s.subrange(off, off + 8) == le_bytes(v),
    ensures
        word_at(s, off) == v,
{
    assert forall|i: int| 0 <= i < 8 implies #[trigger] byte_or_zero(s, off + i) == byte_of(v, i as nat) by {
        assert(s[off + i] == s.subrange(off, off + 8)[i]);
    }
    reveal_with_fuel(word_upto, 9);
    let b0 = byte_or_zero(s, off + 0);
    let b1 = byte_or_zero(s, off + 1);
    let b2 = byte_or_zero(s, off + 2);
    let b3 = byte_or_zero(s, off + 3);
    let b4 = byte_or_zero(s, off + 4);
    let b5 = byte_or_zero(s, off + 5);
    let b6 = byte_or_zero(s, off + 6);
    let b7 = byte_or_zero(s, off + 7);
    assert(word_at(s, off) == 0u64 | ((b0 as u64) << 0u64) | ((b1 as u64) << 8u64) | ((b2 as u64) << 16u64) | ((
    b3 as u64) << 24u64) | ((b4 as u64) << 32u64) | ((b5 as u64) << 40u64) | ((b6 as u64) << 48u64) | ((b7
        as u64) << 56u64));
    assert(v == 0u64 | ((((v >> 0u64) & 0xffu64) as u8 as u64) << 0u64) | ((((v >> 8u64) & 0xffu64) as u8 as u64)
        << 8u64) | ((((v >> 16u64) & 0xffu64) as u8 as u64) << 16u64) | ((((v >> 24u64) & 0xffu64) as u8
        as u64) << 24u64) | ((((v >> 32u64) & 0xffu64) as u8 as u64) << 32u64) | ((((v >> 40u64)
        & 0xffu64) as u8 as u64) << 40u64) | ((((v >> 48u64) & 0xffu64) as u8 as u64) << 48u64) | ((((v
        >> 56u64) & 0xffu64) as u8 as u64) << 56u64)) by (bit_vector);
}

/// A serialised header parses back to the same header, whatever follows it.
pub proof fn lemma_header_round_trip(h: Header, rest: Seq<u8>)
    ensures
        parse_header_spec(header_bytes(h) + rest) == Some(h),
{
    let s = header_bytes(h) + rest;
    assert(s.subrange(0, 8) =~= le_bytes(h.length));
    assert(s.subrange(8, 16) =~= le_bytes(h.num_shares));
    assert(s.subrange(16, 24) =~= le_bytes(h.min_shares));
    assert(s.subrange(24, 32) =~= le_bytes(h.evaluation_point));
    lemma_word_round_trip(h.length, s, 0);
    lemma_word_round_trip(h.num_shares, s, 8);
    lemma_word_round_trip(h.min_shares, s, 16);
    lemma_word_round_trip(h.evaluation_point, s, 24);
}

/// The eight bytes of word `j` sit at `8 * j` in the bytes of `ws`.
proof fn lemma_words_bytes_index(ws: Seq<u64>, j: int)
    requires
        0 <= j < ws.len(),
    ensures
        8 * j + 8 <= words_bytes(ws).len(),
        words_bytes(ws).subrange(8 * j, 8 * j + 8) == le_bytes(ws[j]),
    decreases ws.len(),
{
    let d = ws.drop_last();
    lemma_words_bytes_len(ws);
    lemma_words_bytes_len(d);
    if j == ws.len() - 1 {
        assert(words_bytes(ws).subrange(8 * j, 8 * j + 8) =~= le_bytes(ws[j]));
    } else {
        lemma_words_bytes_index(d, j);
        assert(words_bytes(ws).subrange(8 * j, 8 * j + 8) =~= words_bytes(d).subrange(8 * j, 8 * j + 8));
    }
}

/// Decoding the first `k` of some shares that the encoder wrote, at distinct
/// points, fails at most for want of an invertible Lagrange denominator; it
/// recovers as many bytes as the plaintext had, and interpolates, word by
/// word, exactly the values that the sharing polynomials take at those points.
pub proof fn lemma_decode_reads_encoded_values(
    data: Seq<u8>,
    num_shares: usize,
    min_shares: usize,
    polys: Seq<Seq<u64>>,
    shares: Seq<Vec<u8>>,
    xs: Seq<u64>,
)
    requires
        1 <= min_shares,
        data.len() <= u64::MAX,
        sharing_polynomials(data, min_shares as int, polys),
        shares.len() == xs.len(),
        shares.len() >= min_shares,
        forall|t: int|
            0 <= t < shares.len() ==> (#[trigger] shares[t])@ == share_spec(
                data.len() as u64,
                num_shares,
                min_shares,
                polys,
                xs[t],
            ),
        forall|a: int, b: int| 0 <= a < b < min_shares ==> #[trigger] xs[a] != #[trigger] xs[b],
    ensures
        decode_check(shares) is None || decode_check(shares) == Some(ShareError::DegenerateBasis),
        header_of(shares[0]@).min_shares == min_shares,
        header_of(shares[0]@).length == data.len(),
        points_of(shares, min_shares as int) == xs.take(min_shares as int),
        decoded_bytes(shares, min_shares as int, data.len() as int).len() == data.len(),
        forall|j: int|
            0 <= j < polys.len() ==> #[trigger] decoded_word(shares, min_shares as int, j) == combine_upto(
                Seq::new(min_shares as nat, |i: int| poly_eval(polys[j], xs[i])),
                basis_of(shares, min_shares as int),
                min_shares as nat,
            ),
{
    let k = min_shares as int;
    let len = data.len() as u64;
    assert forall|t: int| 0 <= t < shares.len() implies header_of(#[trigger] shares[t]@) == share_header(
        len,
        num_shares,
        min_shares,
        xs[t],
    ) && shares[t]@.len() == 32 + 8 * polys.len() by {
        let body = words_bytes(share_body(polys, xs[t]));
        lemma_header_round_trip(share_header(len, num_shares, min_shares, xs[t]), body);
        lemma_words_bytes_len(share_body(polys, xs[t]));
    }
    let first = header_of(shares[0]@);
    assert(first == share_header(len, num_shares, min_shares, xs[0]));
    let hs = headers_of(shares, k);
    assert(headers_present(shares, k));
    assert(headers_agree(hs, first));
    assert(points_distinct(hs)) by {
        assert forall|a: int, b: int| 0 <= a < b < hs.len() implies (#[trigger] hs[a]).evaluation_point
            != (#[trigger] hs[b]).evaluation_point by {
            assert(xs[a] != xs[b]);
        }
    }
    assert(bodies_complete(shares, k, first.length));
    assert(points_of(shares, k) =~= xs.take(k));
    lemma_decoded_length(shares, k, data.len() as int);
    assert forall|j: int| 0 <= j < polys.len() implies #[trigger] decoded_word(shares, k, j) == combine_upto(
        Seq::new(k as nat, |i: int| poly_eval(polys[j], xs[i])),
        basis_of(shares, k),
        k as nat,
    ) by {
        assert forall|i: int| 0 <= i < k implies #[trigger] column(shares, k, j)[i] == poly_eval(polys[j], xs[i]) by {
            let ws = share_body(polys, xs[i]);
            let sb = shares[i]@;
            lemma_words_bytes_index(ws, j);
            let hb = header_bytes(share_header(len, num_shares, min_shares, xs[i]));
            assert(sb.subrange(32 + 8 * j, 32 + 8 * j + 8) =~= words_bytes(ws).subrange(8 * j, 8 * j + 8));
            lemma_word_round_trip(ws[j], sb, 32 + 8 * j);
        }
        assert(column(shares, k, j) =~= Seq::new(k as nat, |i: int| poly_eval(polys[j], xs[i])));
    }
}

} // verus!
