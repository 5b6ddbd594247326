//! Share payload encodings of ring elements.
//!
//! A polynomial is the word sequence `moduli_count, degree, coefficients`
//! (row by row), each word in 8 little-endian bytes. A pair is the byte
//! length of the first polynomial's encoding, then both encodings. A
//! sequence of polynomial pairs is the pair count, one shared
//! `moduli_count, degree` header (taken from the first pair; zeros without
//! pairs), then the coefficients of each pair's two polynomials, pair after
//! pair.

use vstd::prelude::*;

use crate::codec::{lemma_words_le_round_trip, payload_words, push_u64_le, u64_le, words_le};
use crate::ring::encoding::{
    lemma_index_bound, lemma_index_split, poly_bytes, poly_words, words_poly, encode_poly,
};
use crate::multiparty::common::shares::decode_u64_payload;
use crate::multiparty::error::MultipartyError;
use crate::ring::poly::{poly_in_ring, rectangular, Poly, Ring, RingView, Rows};

verus! {

/// `payload` encodes an element of the ring `r`.
pub open spec fn poly_payload_ok(r: RingView, payload: Seq<u8>) -> bool {
    let w = payload_words(payload);
    let m = r.moduli.len() as int;
    let n = r.degree as int;
    &&& payload.len() % 8 == 0
    &&& w.len() == 2 + m * n
    &&& w[0] == m
    &&& w[1] == n
    &&& poly_in_ring(r.degree, r.moduli, words_poly(w, m, n))
}

/// The element of `r` that a well-formed payload encodes.
pub open spec fn payload_poly(r: RingView, payload: Seq<u8>) -> Rows {
    words_poly(payload_words(payload), r.moduli.len() as int, r.degree as int)
}

/// Decoding the encoding of a rectangular polynomial gives it back, and the
/// encoding of a ring element is well formed.
#[verifier::spinoff_prover]
#[verifier::rlimit(40)]
pub proof fn lemma_poly_bytes_round_trip(r: RingView, p: Rows)
    requires
        rectangular(p),
        poly_in_ring(r.degree, r.moduli, p),
        p.len() <= u64::MAX,
        p[0].len() <= u64::MAX,
    ensures
        poly_payload_ok(r, poly_bytes(p)),
        payload_poly(r, poly_bytes(p)) == p,
{
    let w = poly_words(p);
    crate::ring::encoding::lemma_poly_words(p);
    lemma_words_le_round_trip(w);
    let m = p.len() as int;
    let n = p[0].len() as int;
    let q = words_poly(w, m, n);
    assert forall|j: int, i: int| 0 <= j < m && 0 <= i < n implies #[trigger] q[j][i] == p[j][i] by {
        lemma_index_split(j, i, n);
        lemma_index_bound(j, i, m, n);
    }
    assert forall|j: int| 0 <= j < m implies #[trigger] q[j] == p[j] by {
        assert(q[j] =~= p[j]);
    }
    assert(q =~= p);
    assert(r.moduli.len() == m);
    assert(r.degree == n);
    assert(w.len() == 2 + m * n);
}

/// Decodes an element of `ring`; `MalformedMessage` unless the payload is
/// the encoding of one.
pub fn decode_poly(payload: &[u8], ring: &Ring) -> (r: Result<Poly, MultipartyError>)
    ensures
        r is Ok <==> poly_payload_ok(ring@, payload@),
        r matches Ok(p) ==> p@ == payload_poly(ring@, payload@),
        r is Err ==> r == Err::<Poly, _>(MultipartyError::MalformedMessage),
{
    ring.check_valid();
    let words = decode_u64_payload(payload)?;
    let m = ring.moduli().len();
    let n = ring.degree();
    let ghost rv = ring@;
    if words.len() < 2 || words[0] != m as u64 || words[1] != n as u64 {
        return Err(MultipartyError::MalformedMessage);
    }
    let total = words.len() - 2;
    if total % n != 0 || total / n != m {
        proof {
            vstd::arithmetic::div_mod::lemma_fundamental_div_mod(total as int, n as int);
            if total == m * n {
                vstd::arithmetic::div_mod::lemma_fundamental_div_mod_converse(total as int, n as int, m as int, 0);
            }
        }
        return Err(MultipartyError::MalformedMessage);
    }
    proof {
        vstd::arithmetic::div_mod::lemma_fundamental_div_mod(total as int, n as int);
        vstd::arithmetic::mul::lemma_mul_is_commutative(m as int, n as int);
        assert(total == m * n);
    }
    let ghost want = words_poly(words@, m as int, n as int);
    let wl: usize = words.len();
    assert(wl == words@.len());
    let mut rows: Vec<Vec<u64>> = Vec::with_capacity(m);
    let mut j: usize = 0;
    while j < m
        invariant
            words@ == payload_words(payload@),
            words@.len() == 2 + m * n,
            words@.len() <= usize::MAX,
            n > 0,
            want == words_poly(words@, m as int, n as int),
            j <= m,
            rows@.len() == j,
            forall|t: int| 0 <= t < j ==> (#[trigger] rows@[t])@ == want[t],
        decreases m - j,
    {
        proof {
            lemma_index_bound(j as int, 0, m as int, n as int);
            vstd::arithmetic::mul::lemma_mul_is_distributive_add_other_way(n as int, j as int, 1);
            vstd::arithmetic::mul::lemma_mul_inequality(j + 1, m as int, n as int);
        }
        assert(j * n < m * n);
        let base = 2 + j * n;
        let mut row: Vec<u64> = Vec::with_capacity(n);
        let mut i: usize = 0;
        while i < n
            invariant
                words@.len() == 2 + m * n,
                words@.len() <= usize::MAX,
                base == 2 + j * n,
                base + n <= words@.len(),
                j < m,
                want == words_poly(words@, m as int, n as int),
                i <= n,
                row@.len() == i,
                forall|u: int| 0 <= u < i ==> #[trigger] row@[u] == want[j as int][u],
            decreases n - i,
        {
            row.push(words[base + i]);
            i = i + 1;
        }
        assert(row@ =~= want[j as int]);
        rows.push(row);
        j = j + 1;
    }
    let ghost rv2 = rows@.map_values(|r: Vec<u64>| r@);
    assert(rv2 =~= want);
    proof {
        assert forall|t: int| 0 <= t < rv2.len() implies (#[trigger] rv2[t]).len() == rv2[0].len() by {}
    }
    let poly = Poly::from_rows(rows);
    match ring.check_poly(&poly) {
        Ok(()) => Ok(poly),
        Err(_) => Err(MultipartyError::MalformedMessage),
    }
}

/// The bytes of a pair's encoding.
pub open spec fn pair_bytes(a: Rows, b: Rows) -> Seq<u8> {
    u64_le(poly_bytes(a).len() as u64) + poly_bytes(a) + poly_bytes(b)
}

/// The declared length of the first encoding in a pair payload.
pub open spec fn pair_split(payload: Seq<u8>) -> int {
    crate::codec::le_u64(payload.subrange(0, 8)) as int
}

/// `payload` encodes a pair of elements of `r`.
pub open spec fn pair_payload_ok(r: RingView, payload: Seq<u8>) -> bool {
    &&& payload.len() >= 8
    &&& 8 + pair_split(payload) <= payload.len()
    &&& poly_payload_ok(r, payload.subrange(8, 8 + pair_split(payload)))
    &&& poly_payload_ok(r, payload.subrange(8 + pair_split(payload), payload.len() as int))
}

/// Encodes a pair of polynomials.
pub fn encode_poly_pair(first: &Poly, second: &Poly) -> (r: Vec<u8>)
    ensures
        r@ == pair_bytes(first@, second@),
{
    let first_bytes = encode_poly(first);
    let second_bytes = encode_poly(second);
    let mut out: Vec<u8> = Vec::new();
    push_u64_le(&mut out, first_bytes.len() as u64);
    crate::codec::push_bytes(&mut out, first_bytes.as_slice());
    crate::codec::push_bytes(&mut out, second_bytes.as_slice());
    assert(out@ =~= pair_bytes(first@, second@));
    out
}

/// Decoding the encoding of a pair of ring elements gives the pair back.
pub proof fn lemma_pair_bytes_round_trip(r: RingView, a: Rows, b: Rows)
    requires
        rectangular(a),
        rectangular(b),
        poly_in_ring(r.degree, r.moduli, a),
        poly_in_ring(r.degree, r.moduli, b),
        a.len() <= u64::MAX,
        a[0].len() <= u64::MAX,
        b.len() <= u64::MAX,
        b[0].len() <= u64::MAX,
        poly_bytes(a).len() <= u64::MAX,
    ensures
        pair_payload_ok(r, pair_bytes(a, b)),
        payload_poly(r, pair_bytes(a, b).subrange(8, 8 + pair_split(pair_bytes(a, b)))) == a,
        payload_poly(r, pair_bytes(a, b).subrange(8 + pair_split(pair_bytes(a, b)), pair_bytes(a, b).len() as int)) == b,
{
    let p = pair_bytes(a, b);
    let l = poly_bytes(a).len();
    crate::codec::lemma_u64_le_round_trip(l as u64);
    assert(p.subrange(0, 8) =~= u64_le(l as u64));
    assert(pair_split(p) == l);
    assert(p.subrange(8, 8 + l as int) =~= poly_bytes(a));
    assert(p.subrange(8 + l as int, p.len() as int) =~= poly_bytes(b));
    lemma_poly_bytes_round_trip(r, a);
    lemma_poly_bytes_round_trip(r, b);
}

/// Decodes a pair of elements of `ring`; `MalformedMessage` unless the
/// payload is the encoding of one.
pub fn decode_poly_pair(payload: &[u8], ring: &Ring) -> (r: Result<(Poly, Poly), MultipartyError>)
    ensures
        r is Ok <==> pair_payload_ok(ring@, payload@),
        r matches Ok((a, b)) ==> a@ == payload_poly(ring@, payload@.subrange(8, 8 + pair_split(payload@)))
            && b@ == payload_poly(ring@, payload@.subrange(8 + pair_split(payload@), payload@.len() as int)),
        r is Err ==> r == Err::<(Poly, Poly), _>(MultipartyError::MalformedMessage),
{
    if payload.len() < 8 {
        return Err(MultipartyError::MalformedMessage);
    }
    let first_len = crate::codec::read_u64_le(payload, 0);
    if first_len > (payload.len() - 8) as u64 {
        return Err(MultipartyError::MalformedMessage);
    }
    let end = 8 + first_len as usize;
    let first = decode_poly(&payload[8..end], ring)?;
    let second = decode_poly(&payload[end..payload.len()], ring)?;
    Ok((first, second))
}

/// The coefficient words of `p`, row by row.
pub open spec fn coefficient_words(p: Rows) -> Seq<u64> {
    let n = p[0].len() as int;
    Seq::new((p.len() * p[0].len()) as nat, |x: int| p[x / n][x % n])
}

/// The coefficient words of each pair's two polynomials, pair after pair.
pub open spec fn rows_body(rows: Seq<(Rows, Rows)>) -> Seq<u64>
    decreases rows.len(),
{
    if rows.len() == 0 {
        Seq::empty()
    } else {
        rows_body(rows.drop_last()) + coefficient_words(rows.last().0) + coefficient_words(rows.last().1)
    }
}

/// The header of a pair sequence's encoding: the pair count and the shape
/// of the first pair's first polynomial, or zeros without pairs.
pub open spec fn rows_header(rows: Seq<(Rows, Rows)>) -> Seq<u64> {
    if rows.len() == 0 {
        seq![0u64, 0u64, 0u64]
    } else {
        seq![rows.len() as u64, rows[0].0.len() as u64, rows[0].0[0].len() as u64]
    }
}

/// The bytes of a pair sequence's encoding.
pub open spec fn rows_bytes(rows: Seq<(Rows, Rows)>) -> Seq<u8> {
    words_le(rows_header(rows) + rows_body(rows))
}

/// The views of a sequence of polynomial pairs.
pub open spec fn pairs_view(rows: Seq<(Poly, Poly)>) -> Seq<(Rows, Rows)> {
    rows.map_values(|x: (Poly, Poly)| (x.0@, x.1@))
}

/// The `m` rows of `n` words that start at word `off`.
pub open spec fn block_poly(w: Seq<u64>, off: int, m: int, n: int) -> Rows {
    Seq::new(m as nat, |j: int| Seq::new(n as nat, |i: int| w[off + j * n + i]))
}

/// `payload` encodes a sequence of pairs of elements of `r`: whole words, a
/// three-word header whose shape is that of `r` where there are pairs, a
/// polynomial size that fits in memory, exactly the announced number of
/// polynomials, each an element of `r`.
pub open spec fn rows_payload_ok(r: RingView, payload: Seq<u8>) -> bool {
    let w = payload_words(payload);
    &&& payload.len() % 8 == 0
    &&& w.len() >= 3
    &&& (w[0] > 0 ==> w[1] == r.moduli.len() && w[2] == r.degree)
    &&& w[1] * w[2] * 8 <= usize::MAX
    &&& w.len() == 3 + 2 * w[0] * (w[1] * w[2])
    &&& forall|k: int|
        0 <= k < 2 * w[0] ==> poly_in_ring(
            r.degree,
            r.moduli,
            #[trigger] block_poly(w, 3 + k * (w[1] * w[2]), w[1] as int, w[2] as int),
        )
}

/// The pairs that a well-formed payload encodes.
pub open spec fn payload_rows(payload: Seq<u8>) -> Seq<(Rows, Rows)> {
    let w = payload_words(payload);
    let s = w[1] * w[2];
    Seq::new(
        w[0] as nat,
        |t: int|
            (
                block_poly(w, 3 + (2 * t) * s, w[1] as int, w[2] as int),
                block_poly(w, 3 + (2 * t + 1) * s, w[1] as int, w[2] as int),
            ),
    )
}

/// The bytes of two word sequences one after the other.
pub proof fn lemma_words_le_concat(a: Seq<u64>, b: Seq<u64>)
    ensures
        words_le(a + b) == words_le(a) + words_le(b),
    decreases b.len(),
{
    if b.len() == 0 {
        assert(a + b =~= a);
        crate::codec::lemma_words_le_len(b);
        assert(words_le(a) + words_le(b) =~= words_le(a));
    } else {
        let c = b.drop_last();
        let v = b.last();
        lemma_words_le_concat(a, c);
        crate::codec::lemma_words_le_push(a + c, v);
        crate::codec::lemma_words_le_push(c, v);
        assert((a + c).push(v) =~= a + b);
        assert(c.push(v) =~= b);
    }
}

/// Word `j*n + i` of a polynomial's coefficient words is coefficient `(j, i)`.
proof fn lemma_coefficient_words(p: Rows)
    requires
        rectangular(p),
    ensures
        coefficient_words(p).len() == p.len() * p[0].len(),
        forall|j: int, i: int|
            0 <= j < p.len() && 0 <= i < p[0].len() ==> #[trigger] coefficient_words(p)[j * p[0].len() + i]
                == p[j][i],
{
    let m = p.len() as int;
    let n = p[0].len() as int;
    vstd::arithmetic::mul::lemma_mul_nonnegative(m, n);
    assert forall|j: int, i: int| 0 <= j < m && 0 <= i < n implies #[trigger] coefficient_words(p)[j * n + i]
        == p[j][i] by {
        lemma_index_split(j, i, n);
        lemma_index_bound(j, i, m, n);
    }
}

/// Every polynomial of the pairs has `m` rows of `n` coefficients.
pub open spec fn pairs_shaped(rows: Seq<(Rows, Rows)>, m: int, n: int) -> bool {
    forall|t: int|
        0 <= t < rows.len() ==> {
            &&& rectangular(#[trigger] rows[t].0)
            &&& rectangular(rows[t].1)
            &&& rows[t].0.len() == m
            &&& rows[t].0[0].len() == n
            &&& rows[t].1.len() == m
            &&& rows[t].1[0].len() == n
        }
}

/// Where each pair's coefficient words sit in the body.
proof fn lemma_rows_body(rows: Seq<(Rows, Rows)>, m: int, n: int)
    requires
        m > 0,
        n > 0,
        pairs_shaped(rows, m, n),
    ensures
        rows_body(rows).len() == 2 * rows.len() * (m * n),
        forall|t: int, x: int|
            0 <= t < rows.len() && 0 <= x < m * n ==> #[trigger] rows_body(rows)[(2 * t) * (m * n) + x]
                == coefficient_words(rows[t].0)[x],
        forall|t: int, x: int|
            0 <= t < rows.len() && 0 <= x < m * n ==> #[trigger] rows_body(rows)[(2 * t + 1) * (m * n) + x]
                == coefficient_words(rows[t].1)[x],
    decreases rows.len(),
{
    let s = m * n;
    vstd::arithmetic::mul::lemma_mul_nonnegative(m, n);
    if rows.len() > 0 {
        let prev = rows.drop_last();
        assert(pairs_shaped(prev, m, n)) by {
            assert forall|t: int| 0 <= t < prev.len() implies rectangular(#[trigger] prev[t].0) by {
                assert(prev[t] == rows[t]);
            }
        }
        lemma_rows_body(prev, m, n);
        let last = rows.last();
        assert(rectangular(rows[rows.len() - 1].0));
        lemma_coefficient_words(last.0);
        lemma_coefficient_words(last.1);
        let l = rows.len() - 1;
        assert(rows_body(rows) == rows_body(prev) + coefficient_words(last.0) + coefficient_words(last.1));
        assert(rows_body(prev).len() == 2 * l * s);
        assert(2 * rows.len() * s == 2 * l * s + s + s) by (nonlinear_arith)
            requires
                l == rows.len() - 1,
        ;
        assert(coefficient_words(last.0).len() == s);
        assert(coefficient_words(last.1).len() == s);
        assert forall|t: int, x: int| 0 <= t < rows.len() && 0 <= x < s implies #[trigger] rows_body(
            rows,
        )[(2 * t) * s + x] == coefficient_words(rows[t].0)[x] by {
            if t < l {
                assert(prev[t] == rows[t]);
                assert((2 * t) * s + x < 2 * l * s) by (nonlinear_arith)
                    requires
                        t < l,
                        x < s,
                        0 <= x,
                ;
                assert(0 <= (2 * t) * s) by (nonlinear_arith)
                    requires
                        0 <= t,
                        0 <= s,
                ;
            } else {
                assert((2 * t) * s == 2 * l * s) by (nonlinear_arith)
                    requires
                        t == l,
                ;
            }
        }
        assert forall|t: int, x: int| 0 <= t < rows.len() && 0 <= x < s implies #[trigger] rows_body(
            rows,
        )[(2 * t + 1) * s + x] == coefficient_words(rows[t].1)[x] by {
            if t < l {
                assert(prev[t] == rows[t]);
                assert((2 * t + 1) * s + x < 2 * l * s) by (nonlinear_arith)
                    requires
                        t < l,
                        x < s,
                        0 <= x,
                ;
                assert(0 <= (2 * t + 1) * s) by (nonlinear_arith)
                    requires
                        0 <= t,
                        0 <= s,
                ;
            } else {
                assert((2 * t + 1) * s == 2 * l * s + s) by (nonlinear_arith)
                    requires
                        t == l,
                ;
            }
        }
    } else {
        assert(2 * rows.len() * s == 0) by (nonlinear_arith)
            requires
                rows.len() == 0,
        ;
    }
}

/// Decoding the encoding of a sequence of pairs of ring elements gives the
/// pairs back.
#[verifier::spinoff_prover]
#[verifier::rlimit(60)]
pub proof fn lemma_rows_bytes_round_trip(r: RingView, rows: Seq<(Rows, Rows)>)
    requires
        r.moduli.len() > 0,
        r.degree > 0,
        r.moduli.len() * r.degree * 8 <= usize::MAX,
        rows.len() <= u64::MAX,
        2 * rows.len() * (r.moduli.len() * r.degree) + 3 <= usize::MAX,
        forall|t: int|
            0 <= t < rows.len() ==> poly_in_ring(r.degree, r.moduli, #[trigger] rows[t].0) && poly_in_ring(
                r.degree,
                r.moduli,
                rows[t].1,
            ),
    ensures
        rows_payload_ok(r, rows_bytes(rows)),
        payload_rows(rows_bytes(rows)) == rows,
{
    let m = r.moduli.len() as int;
    let n = r.degree as int;
    let s = m * n;
    vstd::arithmetic::mul::lemma_mul_strictly_positive(m, n);
    assert(pairs_shaped(rows, m, n)) by {
        assert forall|t: int| 0 <= t < rows.len() implies rectangular(#[trigger] rows[t].0) by {
            assert(poly_in_ring(r.degree, r.moduli, rows[t].0));
            assert(rows[t].0[0].len() == n);
            assert(poly_in_ring(r.degree, r.moduli, rows[t].1));
            assert(rows[t].1[0].len() == n);
        }
    }
    lemma_rows_body(rows, m, n);
    let h = rows_header(rows);
    let w = h + rows_body(rows);
    lemma_words_le_round_trip(w);
    let p = rows_bytes(rows);
    assert(payload_words(p) == w);
    assert(w[0] == rows.len() as u64);
    if rows.len() > 0 {
        assert(m <= m * n * 8) by (nonlinear_arith)
            requires
                n >= 1,
                m >= 0,
        ;
        assert(n <= m * n * 8) by (nonlinear_arith)
            requires
                m >= 1,
                n >= 0,
        ;
        assert(rows[0].0.len() == m);
        assert(w[1] == m && w[2] == n);
    } else {
        assert(w[1] == 0 && w[2] == 0);
    }
    assert(p.len() % 8 == 0) by {
        vstd::arithmetic::div_mod::lemma_mod_multiples_basic(w.len() as int, 8);
    }
    let ws = w[1] * w[2];
    if rows.len() > 0 {
        assert(ws == s);
        assert forall|k: int| 0 <= k < 2 * w[0] implies poly_in_ring(
            r.degree,
            r.moduli,
            #[trigger] block_poly(w, 3 + k * ws, w[1] as int, w[2] as int),
        ) by {
            let t = k / 2;
            let b = k % 2;
            vstd::arithmetic::div_mod::lemma_fundamental_div_mod(k, 2);
            assert(k == 2 * t + b);
            assert(0 <= t < rows.len());
            assert(rectangular(rows[t].0));
            assert(rectangular(rows[t].1));
            let blk = block_poly(w, 3 + k * s, m, n);
            let src = if b == 0 { rows[t].0 } else { rows[t].1 };
            lemma_coefficient_words(src);
            assert(k * s == 2 * t * s + b * s) by (nonlinear_arith)
                requires
                    k == 2 * t + b,
            ;
            assert forall|j: int, i: int| 0 <= j < m && 0 <= i < n implies #[trigger] blk[j][i] == src[j][i] by {
                lemma_index_bound(j, i, m, n);
                let x = j * n + i;
                if b == 0 {
                    assert(rows_body(rows)[(2 * t) * (m * n) + x] == coefficient_words(rows[t].0)[x]);
                    assert(k * s == (2 * t) * (m * n));
                } else {
                    assert(rows_body(rows)[(2 * t + 1) * (m * n) + x] == coefficient_words(rows[t].1)[x]);
                    assert(k * s == (2 * t + 1) * (m * n)) by (nonlinear_arith)
                        requires
                            k == 2 * t + 1,
                            s == m * n,
                    ;
                }
                assert(0 <= k * s) by (nonlinear_arith)
                    requires
                        k >= 0,
                        s >= 0,
                ;
                assert(k * s + x < 2 * rows.len() * s) by (nonlinear_arith)
                    requires
                        k < 2 * rows.len(),
                        x < s,
                        0 <= x,
                ;
                assert(w[3 + k * s + x] == rows_body(rows)[k * s + x]);
                assert(blk[j][i] == w[3 + k * s + j * n + i]);
            }
            assert forall|j: int| 0 <= j < m implies #[trigger] blk[j] == src[j] by {
                assert(blk[j] =~= src[j]);
            }
            assert(blk =~= src);
        }
        let got = payload_rows(p);
        assert forall|t: int| 0 <= t < rows.len() implies #[trigger] got[t] == rows[t] by {
            let b0 = block_poly(w, 3 + (2 * t) * s, m, n);
            let b1 = block_poly(w, 3 + (2 * t + 1) * s, m, n);
            lemma_coefficient_words(rows[t].0);
            lemma_coefficient_words(rows[t].1);
            assert(rectangular(rows[t].0));
            assert forall|j: int, i: int| 0 <= j < m && 0 <= i < n implies #[trigger] b0[j][i] == rows[t].0[j][i] by {
                lemma_index_bound(j, i, m, n);
                let x = j * n + i;
                assert(rows_body(rows)[(2 * t) * (m * n) + x] == coefficient_words(rows[t].0)[x]);
                assert(0 <= (2 * t) * s) by (nonlinear_arith)
                    requires
                        t >= 0,
                        s >= 0,
                ;
                assert((2 * t) * s + x < 2 * rows.len() * s) by (nonlinear_arith)
                    requires
                        t < rows.len(),
                        x < s,
                        0 <= x,
                ;
                assert(w[3 + (2 * t) * s + x] == rows_body(rows)[(2 * t) * s + x]);
            }
            assert forall|j: int, i: int| 0 <= j < m && 0 <= i < n implies #[trigger] b1[j][i] == rows[t].1[j][i] by {
                lemma_index_bound(j, i, m, n);
                let x = j * n + i;
                assert(rows_body(rows)[(2 * t + 1) * (m * n) + x] == coefficient_words(rows[t].1)[x]);
                assert(0 <= (2 * t + 1) * s) by (nonlinear_arith)
                    requires
                        t >= 0,
                        s >= 0,
                ;
                assert((2 * t + 1) * s + x < 2 * rows.len() * s) by (nonlinear_arith)
                    requires
                        t < rows.len(),
                        x < s,
                        0 <= x,
                ;
                assert(w[3 + (2 * t + 1) * s + x] == rows_body(rows)[(2 * t + 1) * s + x]);
            }
            assert forall|j: int| 0 <= j < m implies #[trigger] b0[j] == rows[t].0[j] by {
                assert(b0[j] =~= rows[t].0[j]);
            }
            assert forall|j: int| 0 <= j < m implies #[trigger] b1[j] == rows[t].1[j] by {
                assert(b1[j] =~= rows[t].1[j]);
            }
            assert(b0 =~= rows[t].0);
            assert(b1 =~= rows[t].1);
        }
        assert(got =~= rows);
    } else {
        assert(payload_rows(p) =~= rows);
    }
}

/// Appends the coefficient words of `p`.
fn push_coefficient_words(out: &mut Vec<u8>, p: &Poly)
    ensures
        final(out)@ == old(out)@ + words_le(coefficient_words(p@)),
{
    p.check_rectangular();
    let rows = p.coeffs();
    let m = p.moduli_count();
    let n = p.degree();
    let ghost cw = coefficient_words(p@);
    let ghost start = out@;
    proof {
        lemma_coefficient_words(p@);
        crate::codec::lemma_words_le_len(Seq::<u64>::empty());
        assert(cw.take(0) =~= Seq::<u64>::empty());
        assert(out@ =~= start + words_le(cw.take(0)));
    }
    let mut j: usize = 0;
    while j < m
        invariant
            rows@.map_values(|r: Vec<u64>| r@) == p@,
            rectangular(p@),
            m == p@.len(),
            n == p@[0].len(),
            n > 0,
            cw == coefficient_words(p@),
            cw.len() == m * n,
            j <= m,
            0 <= j * n <= m * n,
            out@ == start + words_le(cw.take(j * n)),
        decreases m - j,
    {
        let row = &rows[j];
        assert(row@ == p@[j as int]);
        let mut i: usize = 0;
        while i < row.len()
            invariant
                rectangular(p@),
                row@ == p@[j as int],
                row@.len() == n,
                m == p@.len(),
                n == p@[0].len(),
                n > 0,
                j < m,
                cw == coefficient_words(p@),
                cw.len() == m * n,
                i <= n,
                out@ == start + words_le(cw.take(j * n + i)),
            decreases n - i,
        {
            proof {
                lemma_coefficient_words(p@);
                lemma_index_bound(j as int, i as int, m as int, n as int);
                let k = j * n + i;
                assert(cw[k] == row@[i as int]);
                crate::codec::lemma_words_le_push(cw.take(k), row@[i as int]);
                assert(cw.take(k).push(row@[i as int]) =~= cw.take(k + 1));
            }
            push_u64_le(out, row[i]);
            i = i + 1;
        }
        proof {
            vstd::arithmetic::mul::lemma_mul_is_distributive_add_other_way(n as int, j as int, 1);
            vstd::arithmetic::mul::lemma_mul_inequality(j + 1, m as int, n as int);
        }
        j = j + 1;
    }
    assert(cw.take(m * n) =~= cw);
}

/// Encodes a sequence of polynomial pairs.
pub fn encode_poly_rows(rows: &[(Poly, Poly)]) -> (r: Vec<u8>)
    ensures
        r@ == rows_bytes(pairs_view(rows@)),
        r@.len() >= 24,
{
    let ghost v = pairs_view(rows@);
    let mut out: Vec<u8> = Vec::new();
    let count = rows.len();
    let (m, n) = if count == 0 {
        (0usize, 0usize)
    } else {
        (rows[0].0.moduli_count(), rows[0].0.degree())
    };
    push_u64_le(&mut out, count as u64);
    push_u64_le(&mut out, m as u64);
    push_u64_le(&mut out, n as u64);
    let ghost h = rows_header(v);
    proof {
        let e = Seq::<u64>::empty();
        crate::codec::lemma_words_le_len(e);
        crate::codec::lemma_words_le_push(e, count as u64);
        crate::codec::lemma_words_le_push(e.push(count as u64), m as u64);
        crate::codec::lemma_words_le_push(e.push(count as u64).push(m as u64), n as u64);
        assert(e.push(count as u64).push(m as u64).push(n as u64) =~= h);
        assert(out@ =~= words_le(h));
        assert(v.take(0) =~= Seq::<(Rows, Rows)>::empty());
        assert(h + rows_body(v.take(0)) =~= h);
    }
    let mut t: usize = 0;
    while t < count
        invariant
            count == rows@.len(),
            v == pairs_view(rows@),
            h == rows_header(v),
            t <= count,
            out@ == words_le(h + rows_body(v.take(t as int))),
        decreases count - t,
    {
        let ghost before = out@;
        push_coefficient_words(&mut out, &rows[t].0);
        push_coefficient_words(&mut out, &rows[t].1);
        proof {
            let pre = v.take(t as int);
            let next = v.take(t + 1);
            assert(next.drop_last() =~= pre);
            assert(next.last() == v[t as int]);
            assert(v[t as int] == (rows@[t as int].0@, rows@[t as int].1@));
            let c0 = coefficient_words(v[t as int].0);
            let c1 = coefficient_words(v[t as int].1);
            assert(rows_body(next) == rows_body(pre) + c0 + c1);
            lemma_words_le_concat(h + rows_body(pre), c0);
            lemma_words_le_concat(h + rows_body(pre) + c0, c1);
            assert(h + rows_body(pre) + c0 + c1 =~= h + rows_body(next));
        }
        t = t + 1;
    }
    assert(v.take(count as int) =~= v);
    proof {
        crate::codec::lemma_words_le_len(h + rows_body(v));
    }
    out
}

/// Reads the polynomial of `m` rows of `n` words starting at word `off`; it
/// must be an element of `ring`.
fn decode_block(words: &[u64], off: usize, m: usize, n: usize, ring: &Ring) -> (r: Result<Poly, MultipartyError>)
    requires
        m > 0,
        n > 0,
        off + m * n <= words@.len(),
    ensures
        r is Ok <==> poly_in_ring(ring@.degree, ring@.moduli, block_poly(words@, off as int, m as int, n as int)),
        r matches Ok(p) ==> p@ == block_poly(words@, off as int, m as int, n as int),
        r is Err ==> r == Err::<Poly, _>(MultipartyError::MalformedMessage),
{
    let ghost want = block_poly(words@, off as int, m as int, n as int);
    let wl = words.len();
    let mut rows: Vec<Vec<u64>> = Vec::with_capacity(m);
    let mut j: usize = 0;
    while j < m
        invariant
            wl == words@.len(),
            m > 0,
            n > 0,
            off + m * n <= words@.len(),
            want == block_poly(words@, off as int, m as int, n as int),
            j <= m,
            rows@.len() == j,
            forall|t: int| 0 <= t < j ==> (#[trigger] rows@[t])@ == want[t],
        decreases m - j,
    {
        proof {
            lemma_index_bound(j as int, 0, m as int, n as int);
            vstd::arithmetic::mul::lemma_mul_is_distributive_add_other_way(n as int, j as int, 1);
            vstd::arithmetic::mul::lemma_mul_inequality(j + 1, m as int, n as int);
        }
        let base = off + j * n;
        let mut row: Vec<u64> = Vec::with_capacity(n);
        let mut i: usize = 0;
        while i < n
            invariant
                wl == words@.len(),
                base == off + j * n,
                base + n <= words@.len(),
                j < m,
                want == block_poly(words@, off as int, m as int, n as int),
                i <= n,
                row@.len() == i,
                forall|u: int| 0 <= u < i ==> #[trigger] row@[u] == want[j as int][u],
            decreases n - i,
        {
            row.push(words[base + i]);
            i = i + 1;
        }
        assert(row@ =~= want[j as int]);
        rows.push(row);
        j = j + 1;
    }
    let ghost rv = rows@.map_values(|r: Vec<u64>| r@);
    assert(rv =~= want);
    proof {
        assert forall|t: int| 0 <= t < rv.len() implies (#[trigger] rv[t]).len() == rv[0].len() by {}
    }
    let poly = Poly::from_rows(rows);
    match ring.check_poly(&poly) {
        Ok(()) => Ok(poly),
        Err(_) => Err(MultipartyError::MalformedMessage),
    }
}

/// Decodes a sequence of pairs of elements of `ring`; `MalformedMessage`
/// unless the payload is the encoding of one.
pub fn decode_poly_rows(payload: &[u8], ring: &Ring) -> (r: Result<Vec<(Poly, Poly)>, MultipartyError>)
    ensures
        r is Ok <==> rows_payload_ok(ring@, payload@),
        r matches Ok(v) ==> pairs_view(v@) == payload_rows(payload@),
        r is Err ==> r == Err::<Vec<(Poly, Poly)>, _>(MultipartyError::MalformedMessage),
{
    let words = decode_u64_payload(payload)?;
    let ghost w = words@;
    if words.len() < 3 {
        return Err(MultipartyError::MalformedMessage);
    }
    let count = words[0];
    let m64 = words[1];
    let n64 = words[2];
    let ring_m = ring.moduli().len();
    let ring_n = ring.degree();
    if count > 0 && (m64 != ring_m as u64 || n64 != ring_n as u64) {
        return Err(MultipartyError::MalformedMessage);
    }
    let wide_m: u128 = m64 as u128;
    let wide_n: u128 = n64 as u128;
    proof {
        vstd::arithmetic::mul::lemma_mul_upper_bound(
            wide_m as int,
            0xffff_ffff_ffff_ffff,
            wide_n as int,
            0xffff_ffff_ffff_ffff,
        );
        assert(0xffff_ffff_ffff_ffffint * 0xffff_ffff_ffff_ffffint
            <= 0xffff_ffff_ffff_ffff_ffff_ffff_ffff_ffffint);
    }
    let size = wide_m * wide_n;
    if size > (usize::MAX / 8) as u128 {
        return Err(MultipartyError::MalformedMessage);
    }
    let s = size as usize;
    let rest = words.len() - 3;
    let wl = words.len();
    let ghost ws = w[1] * w[2];
    assert(s == ws);
    if count == 0 {
        assert(2 * w[0] * ws == 0) by (nonlinear_arith)
            requires
                w[0] == 0,
        ;
        if rest != 0 {
            return Err(MultipartyError::MalformedMessage);
        }
        let empty: Vec<(Poly, Poly)> = Vec::new();
        assert(pairs_view(empty@) =~= payload_rows(payload@));
        return Ok(empty);
    }
    let m = ring_m;
    let n = ring_n;
    assert(m > 0 && n > 0);
    assert(s == m * n);
    proof {
        vstd::arithmetic::mul::lemma_mul_strictly_positive(m as int, n as int);
    }
    let block2 = 2 * s;
    if rest % block2 != 0 || (rest / block2) as u64 != count {
        proof {
            vstd::arithmetic::div_mod::lemma_fundamental_div_mod(rest as int, block2 as int);
            if rest == 2 * count * ws {
                assert(rest == block2 * count) by (nonlinear_arith)
                    requires
                        rest == 2 * count * ws,
                        block2 == 2 * ws,
                ;
                vstd::arithmetic::div_mod::lemma_fundamental_div_mod_converse(rest as int, block2 as int, count as int, 0);
            }
        }
        return Err(MultipartyError::MalformedMessage);
    }
    proof {
        vstd::arithmetic::div_mod::lemma_fundamental_div_mod(rest as int, block2 as int);
        assert(rest == block2 * count);
        assert(rest == 2 * count * ws) by (nonlinear_arith)
            requires
                rest == block2 * count,
                block2 == 2 * ws,
        ;
    }
    let total = count as usize;
    let mut out: Vec<(Poly, Poly)> = Vec::with_capacity(total);
    let ghost want = payload_rows(payload@);
    let mut t: usize = 0;
    while t < total
        invariant
            w == words@,
            w == payload_words(payload@),
            payload@.len() % 8 == 0,
            w.len() == 3 + rest,
            rest == 2 * count * ws,
            total == count,
            total > 0,
            m == w[1],
            n == w[2],
            m > 0,
            n > 0,
            m == ring@.moduli.len(),
            n == ring@.degree,
            s == m * n,
            s >= 1,
            ws == s,
            s * 8 <= usize::MAX,
            want == payload_rows(payload@),
            want.len() == total,
            wl == words@.len(),
            t <= total,
            out@.len() == t,
            forall|u: int| 0 <= u < t ==> (#[trigger] pairs_view(out@)[u]) == want[u],
            forall|k: int|
                0 <= k < 2 * t ==> poly_in_ring(
                    ring@.degree,
                    ring@.moduli,
                    #[trigger] block_poly(w, 3 + k * ws, w[1] as int, w[2] as int),
                ),
        decreases total - t,
    {
        proof {
            assert((2 * t) * s + 2 * s <= rest) by (nonlinear_arith)
                requires
                    t < total,
                    total == count,
                    rest == 2 * count * s,
                    s >= 0,
            ;
            assert(0 <= (2 * t) * s) by (nonlinear_arith)
                requires
                    t >= 0,
                    s >= 0,
            ;
        }
        assert((2 * t) * s <= rest);
        assert(2 * t <= (2 * t) * s) by (nonlinear_arith)
            requires
                s >= 1,
                t >= 0,
        ;
        let off0 = 3 + (2 * t) * s;
        let off1 = off0 + s;
        assert(off0 == 3 + (2 * t) * s);
        assert(off1 == 3 + (2 * t + 1) * s) by (nonlinear_arith)
            requires
                off1 == off0 + s,
                off0 == 3 + (2 * t) * s,
        ;
        let first = match decode_block(words.as_slice(), off0, m, n, ring) {
            Ok(p) => p,
            Err(e) => {
                proof {
                    assert(!rows_payload_ok(ring@, payload@)) by {
                        let k = 2 * t;
                        assert(k * ws == (2 * t) * s);
                        assert(!poly_in_ring(ring@.degree, ring@.moduli, block_poly(w, 3 + k * ws, w[1] as int, w[2] as int)));
                    }
                }
                return Err(e);
            },
        };
        let second = match decode_block(words.as_slice(), off1, m, n, ring) {
            Ok(p) => p,
            Err(e) => {
                proof {
                    assert(!rows_payload_ok(ring@, payload@)) by {
                        let k = 2 * t + 1;
                        assert(k * ws == (2 * t + 1) * s);
                        assert(!poly_in_ring(ring@.degree, ring@.moduli, block_poly(w, 3 + k * ws, w[1] as int, w[2] as int)));
                    }
                }
                return Err(e);
            },
        };
        let ghost old_out = out@;
        out.push((first, second));
        proof {
            assert forall|u: int| 0 <= u < t + 1 implies (#[trigger] pairs_view(out@)[u]) == want[u] by {
                assert(pairs_view(out@)[u] == (out@[u].0@, out@[u].1@));
                if u == t {
                    assert(out@[u] == (first, second));
                } else {
                    assert(out@[u] == old_out[u]);
                    assert(pairs_view(old_out)[u] == want[u]);
                }
            }
            assert forall|k: int| 0 <= k < 2 * (t + 1) implies poly_in_ring(
                ring@.degree,
                ring@.moduli,
                #[trigger] block_poly(w, 3 + k * ws, w[1] as int, w[2] as int),
            ) by {
                if k == 2 * t {
                    assert(k * ws == (2 * t) * s);
                } else if k == 2 * t + 1 {
                    assert(k * ws == (2 * t + 1) * s);
                }
            }
        }
        t = t + 1;
    }
    assert(pairs_view(out@) =~= want);
    Ok(out)
}

/// The pairs of a well-formed payload are ring elements, as many as its
/// header announces.
pub proof fn lemma_payload_rows_in_ring(r: RingView, payload: Seq<u8>)
    requires
        rows_payload_ok(r, payload),
    ensures
        payload_rows(payload).len() == payload_words(payload)[0],
        forall|t: int|
            0 <= t < payload_rows(payload).len() ==> poly_in_ring(r.degree, r.moduli, #[trigger] payload_rows(payload)[t].0)
                && poly_in_ring(r.degree, r.moduli, payload_rows(payload)[t].1),
{
    let w = payload_words(payload);
    let s = w[1] * w[2];
    assert forall|t: int| 0 <= t < payload_rows(payload).len() implies poly_in_ring(
        r.degree,
        r.moduli,
        #[trigger] payload_rows(payload)[t].0,
    ) && poly_in_ring(r.degree, r.moduli, payload_rows(payload)[t].1) by {
        let k0 = 2 * t;
        let k1 = 2 * t + 1;
        assert(poly_in_ring(r.degree, r.moduli, block_poly(w, 3 + k0 * s, w[1] as int, w[2] as int)));
        assert(poly_in_ring(r.degree, r.moduli, block_poly(w, 3 + k1 * s, w[1] as int, w[2] as int)));
    }
}

} // verus!
