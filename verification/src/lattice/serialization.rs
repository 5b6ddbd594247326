//! Canonical binary encodings of public lattice objects.
//!
//! Every encoding starts with an 8-byte domain tag and the format version as
//! a little-endian `u16`. A polynomial is its row count, its row length and
//! its coefficients row by row, each a little-endian `u64`. A public key is
//! its two polynomials; evaluation-key markers are a relinearization flag
//! byte, the Galois key count, and each Galois element.

use vstd::prelude::*;

use crate::codec::{le_u16, le_u64, lemma_u64_le_round_trip, push_bytes, push_u16_le, push_u64_le, u16_le, u64_le, words_le};
use crate::lattice::error::{LatticeError, UtilsError};
use crate::lattice::rlwe::evaluation_key::{galois_view, EvaluationKey, GaloisKey, KeySwitchView, RelinearizationKey};
use crate::lattice::rlwe::keys::PublicKey;
use crate::ring::encoding::{encode_poly, lemma_index_bound, lemma_index_split, poly_bytes, poly_words};
use crate::ring::poly::{rectangular, Poly, Rows};

verus! {

/// The format version.
pub const VERSION: u16 = 1;

/// The domain tag of public keys, `RLWEPK01`.
pub open spec fn public_key_tag() -> Seq<u8> {
    seq![82u8, 76u8, 87u8, 69u8, 80u8, 75u8, 48u8, 49u8]
}

/// The domain tag of evaluation-key markers, `RLWEEK01`.
pub open spec fn evaluation_key_tag() -> Seq<u8> {
    seq![82u8, 76u8, 87u8, 69u8, 69u8, 75u8, 48u8, 49u8]
}

/// The header of an encoding with domain `tag`.
pub open spec fn header(tag: Seq<u8>) -> Seq<u8> {
    tag + u16_le(VERSION)
}

/// What reading the header of `b` against `tag` reports.
pub open spec fn header_result(b: Seq<u8>, tag: Seq<u8>) -> Result<(), UtilsError> {
    if b.len() < 8 {
        Err(UtilsError::UnexpectedEnd)
    } else if b.subrange(0, 8) != tag {
        Err(UtilsError::InvalidDomain)
    } else if b.len() < 10 {
        Err(UtilsError::UnexpectedEnd)
    } else if le_u16(b.subrange(8, 10)) != VERSION {
        Err(UtilsError::UnsupportedVersion { found: le_u16(b.subrange(8, 10)) })
    } else {
        Ok(())
    }
}

/// The little-endian word at byte offset `o`.
#[verifier::opaque]
pub open spec fn word_at(b: Seq<u8>, o: int) -> u64 {
    le_u64(b.subrange(o, o + 8))
}

/// The `m` rows of `n` words each that start at byte offset `o`.
pub open spec fn rows_at(b: Seq<u8>, o: int, m: int, n: int) -> Rows {
    Seq::new(m as nat, |j: int| Seq::new(n as nat, |i: int| word_at(b, o + 8 * (j * n + i))))
}

/// Reading a polynomial at byte offset `o`: the polynomial and the offset
/// after it.
pub open spec fn poly_parse(b: Seq<u8>, o: int) -> Result<(Rows, int), LatticeError> {
    if b.len() < o + 8 {
        Err(LatticeError::Utils(UtilsError::UnexpectedEnd))
    } else if word_at(b, o) > usize::MAX {
        Err(LatticeError::InvalidParameters("length overflow"))
    } else if b.len() < o + 16 {
        Err(LatticeError::Utils(UtilsError::UnexpectedEnd))
    } else if word_at(b, o + 8) > usize::MAX {
        Err(LatticeError::InvalidParameters("length overflow"))
    } else if word_at(b, o) == 0 || word_at(b, o + 8) == 0 {
        Err(LatticeError::InvalidParameters("invalid polynomial shape"))
    } else if b.len() < o + 16 + 8 * (word_at(b, o) * word_at(b, o + 8)) {
        Err(LatticeError::Utils(UtilsError::UnexpectedEnd))
    } else {
        Ok(
            (
                rows_at(b, o + 16, word_at(b, o) as int, word_at(b, o + 8) as int),
                o + 16 + 8 * (word_at(b, o) * word_at(b, o + 8)),
            ),
        )
    }
}

/// Decoding a public key: its two polynomials.
pub open spec fn spec_decode_public_key(b: Seq<u8>) -> Result<(Rows, Rows), LatticeError> {
    match header_result(b, public_key_tag()) {
        Err(e) => Err(LatticeError::Utils(e)),
        Ok(_) => match poly_parse(b, 10) {
            Err(e) => Err(e),
            Ok((p0, o)) => match poly_parse(b, o) {
                Err(e) => Err(e),
                Ok((p1, _)) => Ok((p0, p1)),
            },
        },
    }
}

/// The encoding of the public key `(b, a)`.
pub open spec fn public_key_bytes(b: Rows, a: Rows) -> Seq<u8> {
    header(public_key_tag()) + poly_bytes(b) + poly_bytes(a)
}

/// Reading the Galois elements `i..n` that follow the count.
pub open spec fn elements_from(b: Seq<u8>, n: int, i: int) -> Result<Seq<usize>, LatticeError>
    decreases n - i,
{
    if i >= n {
        Ok(Seq::empty())
    } else if b.len() < 19 + 8 * (i + 1) {
        Err(LatticeError::Utils(UtilsError::UnexpectedEnd))
    } else if word_at(b, 19 + 8 * i) > usize::MAX {
        Err(LatticeError::InvalidParameters("length overflow"))
    } else {
        match elements_from(b, n, i + 1) {
            Ok(s) => Ok(seq![word_at(b, 19 + 8 * i) as usize] + s),
            Err(e) => Err(e),
        }
    }
}

/// Decoding evaluation-key markers: whether a relinearization key was
/// present, and the Galois elements.
pub open spec fn spec_decode_evaluation_key(b: Seq<u8>) -> Result<(bool, Seq<usize>), LatticeError> {
    match header_result(b, evaluation_key_tag()) {
        Err(e) => Err(LatticeError::Utils(e)),
        Ok(_) => if b.len() < 11 {
            Err(LatticeError::Utils(UtilsError::UnexpectedEnd))
        } else if b[10] > 1 {
            Err(LatticeError::InvalidParameters("invalid relinearization marker"))
        } else if b.len() < 19 {
            Err(LatticeError::Utils(UtilsError::UnexpectedEnd))
        } else if word_at(b, 11) > usize::MAX {
            Err(LatticeError::InvalidParameters("length overflow"))
        } else {
            match elements_from(b, word_at(b, 11) as int, 0) {
                Err(e) => Err(e),
                Ok(s) => Ok((b[10] == 1, s)),
            }
        },
    }
}

/// The views of placeholder Galois keys for `elements`.
pub open spec fn placeholder_galois(elements: Seq<usize>) -> Seq<(usize, Option<KeySwitchView>)> {
    elements.map_values(|e: usize| (e, None::<KeySwitchView>))
}

/// The encoding of evaluation-key markers.
pub open spec fn evaluation_key_bytes(relin: bool, elements: Seq<usize>) -> Seq<u8> {
    header(evaluation_key_tag()) + seq![if relin { 1u8 } else { 0u8 }] + words_le(
        seq![elements.len() as u64] + elements.map_values(|e: usize| e as u64),
    )
}

/// The words of `w` can be read back at their offsets behind any prefix.
proof fn lemma_word_at_words(h: Seq<u8>, w: Seq<u64>, rest: Seq<u8>, k: int)
    requires
        0 <= k < w.len(),
    ensures
        word_at(h + words_le(w) + rest, h.len() + 8 * k) == w[k],
{
    reveal(word_at);
    reveal(words_le);
    let b = h + words_le(w) + rest;
    let o = h.len() + 8 * k;
    let chunk = b.subrange(o, o + 8);
    assert forall|t: int| 0 <= t < 8 implies chunk[t] == u64_le(w[k])[t] by {
        assert(chunk[t] == b[o + t]);
        assert(b[o + t] == words_le(w)[8 * k + t]);
        assert((8 * k + t) / 8 == k);
        assert((8 * k + t) % 8 == t);
    }
    assert(chunk =~= u64_le(w[k]));
    lemma_u64_le_round_trip(w[k]);
}

proof fn lemma_rows_at_words(h: Seq<u8>, p: Rows, rest: Seq<u8>)
    requires
        rectangular(p),
        p.len() <= usize::MAX,
        p[0].len() <= usize::MAX,
    ensures
        rows_at(h + poly_bytes(p) + rest, h.len() as int + 16, p.len() as int, p[0].len() as int) == p,
{
    let w = poly_words(p);
    let b = h + poly_bytes(p) + rest;
    let o = h.len() as int;
    let m = p.len() as int;
    let n = p[0].len() as int;
    let q = rows_at(b, o + 16, m, n);
    crate::ring::encoding::lemma_poly_words(p);
    assert forall|j: int, i: int| 0 <= j < m && 0 <= i < n implies #[trigger] q[j][i] == p[j][i] by {
        lemma_index_split(j, i, n);
        lemma_index_bound(j, i, m, n);
        lemma_word_at_words(h, w, rest, 2 + j * n + i);
        assert(o + 16 + 8 * (j * n + i) == h.len() + 8 * (2 + j * n + i));
    }
    assert forall|j: int| 0 <= j < m implies #[trigger] q[j] == p[j] by {
        assert(q[j] =~= p[j]);
    }
    assert(q =~= p);
}

/// Reading a polynomial back from its encoding behind any prefix gives it
/// back, with the offset just past it.
#[verifier::spinoff_prover]
proof fn lemma_poly_parse_round_trip(h: Seq<u8>, p: Rows, rest: Seq<u8>)
    requires
        rectangular(p),
        p.len() <= usize::MAX,
        p[0].len() <= usize::MAX,
    ensures
        poly_parse(h + poly_bytes(p) + rest, h.len() as int) == Ok::<(Rows, int), LatticeError>(
            (p, (h.len() + poly_bytes(p).len()) as int),
        ),
{
    let w = poly_words(p);
    let b = h + poly_bytes(p) + rest;
    let o = h.len() as int;
    let m = p.len() as int;
    let n = p[0].len() as int;
    crate::ring::encoding::lemma_poly_words(p);
    crate::codec::lemma_words_le_round_trip(w);
    vstd::arithmetic::mul::lemma_mul_nonnegative(m, n);
    assert(w.len() == 2 + m * n);
    assert(poly_bytes(p).len() == 8 * (2 + m * n));
    lemma_word_at_words(h, w, rest, 0);
    lemma_word_at_words(h, w, rest, 1);
    assert(word_at(b, o) == m);
    assert(word_at(b, o + 8) == n);
    assert(b.len() == o + 8 * (2 + m * n) + rest.len());
    assert(!(b.len() < o + 16 + 8 * (word_at(b, o) * word_at(b, o + 8))));
    lemma_rows_at_words(h, p, rest);
}

/// A public key's encoding decodes back to it.
pub proof fn lemma_public_key_round_trip(b: Rows, a: Rows)
    requires
        rectangular(b),
        rectangular(a),
        b.len() <= usize::MAX,
        b[0].len() <= usize::MAX,
        a.len() <= usize::MAX,
        a[0].len() <= usize::MAX,
    ensures
        spec_decode_public_key(public_key_bytes(b, a)) == Ok::<(Rows, Rows), LatticeError>((b, a)),
{
    let h = header(public_key_tag());
    let bytes = public_key_bytes(b, a);
    assert(bytes.subrange(0, 8) =~= public_key_tag());
    assert(bytes.subrange(8, 10) =~= u16_le(VERSION));
    assert(le_u16(u16_le(VERSION)) == VERSION) by {
        crate::codec::lemma_u16_le_round_trip(VERSION);
    }
    assert(bytes =~= h + poly_bytes(b) + poly_bytes(a));
    lemma_poly_parse_round_trip(h, b, poly_bytes(a));
    assert(h + poly_bytes(b) + poly_bytes(a) =~= (h + poly_bytes(b)) + poly_bytes(a) + Seq::<u8>::empty());
    lemma_poly_parse_round_trip(h + poly_bytes(b), a, Seq::<u8>::empty());
}

/// Evaluation-key markers decode back to themselves.
#[verifier::spinoff_prover]
pub proof fn lemma_evaluation_key_round_trip(relin: bool, elements: Seq<usize>)
    requires
        elements.len() <= usize::MAX,
    ensures
        spec_decode_evaluation_key(evaluation_key_bytes(relin, elements)) == Ok::<(bool, Seq<usize>), LatticeError>(
            (relin, elements),
        ),
{
    let h = header(evaluation_key_tag()) + seq![if relin { 1u8 } else { 0u8 }];
    let w = seq![elements.len() as u64] + elements.map_values(|e: usize| e as u64);
    let bytes = evaluation_key_bytes(relin, elements);
    assert(bytes =~= h + words_le(w) + Seq::<u8>::empty());
    crate::codec::lemma_words_le_round_trip(w);
    let n = elements.len() as int;
    assert(bytes.len() == 19 + 8 * n);
    lemma_word_at_words(h, w, Seq::<u8>::empty(), 0);
    assert(word_at(bytes, 11) == elements.len());
    assert forall|k: int| 0 <= k < n implies word_at(bytes, 19 + 8 * k) == elements[k] as u64 by {
        lemma_word_at_words(h, w, Seq::<u8>::empty(), k + 1);
        assert(w[k + 1] == elements[k] as u64);
    }
    lemma_elements_suffix(bytes, elements, n, 0);
    assert(elements.subrange(0, n) =~= elements);
    assert(bytes.subrange(0, 8) =~= evaluation_key_tag());
    assert(bytes.subrange(8, 10) =~= u16_le(VERSION));
    crate::codec::lemma_u16_le_round_trip(VERSION);
    assert(bytes[10] == (if relin { 1u8 } else { 0u8 }));
    assert(header_result(bytes, evaluation_key_tag()) == Ok::<(), UtilsError>(()));
    assert(word_at(bytes, 11) as int == n);
    assert(elements_from(bytes, n, 0) == Ok::<Seq<usize>, LatticeError>(elements));
}

/// Public-key bytes never decode as evaluation-key markers, nor the other
/// way round: the domain tags differ.
pub proof fn lemma_domains_are_separated(b: Rows, a: Rows, relin: bool, elements: Seq<usize>)
    ensures
        spec_decode_evaluation_key(public_key_bytes(b, a)) == Err::<(bool, Seq<usize>), LatticeError>(
            LatticeError::Utils(UtilsError::InvalidDomain),
        ),
        spec_decode_public_key(evaluation_key_bytes(relin, elements)) == Err::<(Rows, Rows), LatticeError>(
            LatticeError::Utils(UtilsError::InvalidDomain),
        ),
{
    let pk = public_key_bytes(b, a);
    let ek = evaluation_key_bytes(relin, elements);
    assert(pk.subrange(0, 8) =~= public_key_tag());
    assert(ek.subrange(0, 8) =~= evaluation_key_tag());
    assert(public_key_tag()[4] != evaluation_key_tag()[4]);
}

proof fn lemma_elements_suffix(bytes: Seq<u8>, elements: Seq<usize>, n: int, i: int)
    requires
        n == elements.len(),
        0 <= i <= n,
        bytes.len() >= 19 + 8 * n,
        forall|k: int| 0 <= k < n ==> word_at(bytes, 19 + 8 * k) == elements[k] as u64,
    ensures
        elements_from(bytes, n, i) == Ok::<Seq<usize>, LatticeError>(elements.subrange(i, n)),
    decreases n - i,
{
    if i < n {
        lemma_elements_suffix(bytes, elements, n, i + 1);
        assert(seq![elements[i]] + elements.subrange(i + 1, n) =~= elements.subrange(i, n));
    } else {
        assert(elements.subrange(i, n) =~= Seq::<usize>::empty());
    }
}

/// The domain tag of public keys.
fn public_key_tag_bytes() -> (r: [u8; 8])
    ensures
        r@ == public_key_tag(),
{
    let r: [u8; 8] = [82, 76, 87, 69, 80, 75, 48, 49];
    assert(r@ =~= public_key_tag());
    r
}

/// The domain tag of evaluation-key markers.
fn evaluation_key_tag_bytes() -> (r: [u8; 8])
    ensures
        r@ == evaluation_key_tag(),
{
    let r: [u8; 8] = [82, 76, 87, 69, 69, 75, 48, 49];
    assert(r@ =~= evaluation_key_tag());
    r
}

/// A writer holding the header for `tag`.
fn writer(tag: &[u8; 8]) -> (r: Vec<u8>)
    ensures
        r@ == header(tag@),
{
    let mut out: Vec<u8> = Vec::new();
    push_bytes(&mut out, tag);
    push_u16_le(&mut out, VERSION);
    assert(out@ =~= header(tag@));
    out
}

/// Reads and checks the header against `tag`.
fn read_header(input: &[u8], tag: &[u8; 8]) -> (r: Result<(), UtilsError>)
    ensures
        r == header_result(input@, tag@),
{
    if input.len() < 8 {
        return Err(UtilsError::UnexpectedEnd);
    }
    let mut i: usize = 0;
    while i < 8
        invariant
            input@.len() >= 8,
            tag@.len() == 8,
            i <= 8,
            forall|t: int| 0 <= t < i ==> input@[t] == tag@[t],
        decreases 8 - i,
    {
        if input[i] != tag[i] {
            assert(input@.subrange(0, 8)[i as int] != tag@[i as int]);
            return Err(UtilsError::InvalidDomain);
        }
        i = i + 1;
    }
    assert(input@.subrange(0, 8) =~= tag@);
    if input.len() < 10 {
        return Err(UtilsError::UnexpectedEnd);
    }
    let version = crate::codec::read_u16_le(input, 8);
    if version != VERSION {
        return Err(UtilsError::UnsupportedVersion { found: version });
    }
    Ok(())
}

/// `m` rows of `n` words fit in `l` bytes exactly when `m` is at most
/// `(l / 8) / n`.
proof fn lemma_rows_fit(l: int, m: int, n: int)
    requires
        l >= 0,
        m > 0,
        n > 0,
    ensures
        (m > (l / 8) / n) <==> (l < 8 * (m * n)),
{
    let a = l / 8;
    vstd::arithmetic::div_mod::lemma_fundamental_div_mod(l, 8);
    vstd::arithmetic::div_mod::lemma_fundamental_div_mod(a, n);
    vstd::arithmetic::div_mod::lemma_mod_bound(a, n);
    vstd::arithmetic::div_mod::lemma_mod_bound(l, 8);
    let q = a / n;
    let r = a % n;
    assert(a == n * q + r);
    if m > q {
        assert(m * n >= (q + 1) * n) by (nonlinear_arith)
            requires
                m >= q + 1,
                n > 0,
        ;
        assert((q + 1) * n == n * q + n) by (nonlinear_arith);
        assert(l < 8 * (m * n));
    } else {
        assert(m * n <= q * n) by (nonlinear_arith)
            requires
                m <= q,
                n > 0,
        ;
        assert(q * n == n * q) by (nonlinear_arith);
        assert(l >= 8 * (m * n));
    }
}

/// Reads a polynomial at `at`: the polynomial and the offset after it.
fn read_poly(input: &[u8], at: usize) -> (r: Result<(Poly, usize), LatticeError>)
    requires
        at <= input@.len(),
    ensures
        match poly_parse(input@, at as int) {
            Ok((p, o)) => r matches Ok((q, o2)) && q@ == p && o2 == o,
            Err(e) => r == Err::<(Poly, usize), _>(e),
        },
{
    reveal(word_at);
    if input.len() - at < 8 {
        return Err(LatticeError::Utils(UtilsError::UnexpectedEnd));
    }
    let m64 = crate::codec::read_u64_le(input, at);
    if m64 > usize::MAX as u64 {
        return Err(LatticeError::InvalidParameters("length overflow"));
    }
    if input.len() - at < 16 {
        return Err(LatticeError::Utils(UtilsError::UnexpectedEnd));
    }
    let n64 = crate::codec::read_u64_le(input, at + 8);
    if n64 > usize::MAX as u64 {
        return Err(LatticeError::InvalidParameters("length overflow"));
    }
    if m64 == 0 || n64 == 0 {
        return Err(LatticeError::InvalidParameters("invalid polynomial shape"));
    }
    let m = m64 as usize;
    let n = n64 as usize;
    let avail = (input.len() - at - 16) / 8;
    proof {
        lemma_rows_fit((input@.len() - at - 16) as int, m as int, n as int);
    }
    if m > avail / n {
        return Err(LatticeError::Utils(UtilsError::UnexpectedEnd));
    }
    let ghost want = rows_at(input@, at + 16, m as int, n as int);
    let len = input.len();
    let mut off: usize = at + 16;
    let mut rows: Vec<Vec<u64>> = Vec::with_capacity(m);
    let mut j: usize = 0;
    while j < m
        invariant
            len == input@.len(),
            at + 16 + 8 * (m * n) <= len,
            n > 0,
            want == rows_at(input@, at + 16, m as int, n as int),
            j <= m,
            off == at + 16 + 8 * (j * n),
            rows@.len() == j,
            forall|t: int| 0 <= t < j ==> (#[trigger] rows@[t])@ == want[t],
        decreases m - j,
    {
        let mut row: Vec<u64> = Vec::with_capacity(n);
        let mut i: usize = 0;
        while i < n
            invariant
                len == input@.len(),
                at + 16 + 8 * (m * n) <= len,
                n > 0,
                j < m,
                want == rows_at(input@, at + 16, m as int, n as int),
                i <= n,
                off == at + 16 + 8 * (j * n + i),
                row@.len() == i,
                forall|u: int| 0 <= u < i ==> #[trigger] row@[u] == want[j as int][u],
            decreases n - i,
        {
            proof {
                reveal(word_at);
                lemma_index_bound(j as int, i as int, m as int, n as int);
            }
            let v = crate::codec::read_u64_le(input, off);
            row.push(v);
            off = off + 8;
            i = i + 1;
        }
        assert(row@ =~= want[j as int]);
        rows.push(row);
        proof {
            vstd::arithmetic::mul::lemma_mul_is_distributive_add_other_way(n as int, j as int, 1);
        }
        j = j + 1;
    }
    let ghost rv = rows@.map_values(|r: Vec<u64>| r@);
    assert(rv =~= want);
    proof {
        assert forall|t: int| 0 <= t < rv.len() implies (#[trigger] rv[t]).len() == rv[0].len() by {}
    }
    Ok((Poly::from_rows(rows), off))
}

/// Encodes an RLWE public key.
pub fn encode_public_key(public_key: &PublicKey) -> (r: Result<Vec<u8>, LatticeError>)
    ensures
        r matches Ok(bytes) && bytes@ == public_key_bytes(public_key@.0, public_key@.1),
{
    let tag = public_key_tag_bytes();
    let mut out = writer(&tag);
    let value = public_key.value();
    let b = encode_poly(&value[0]);
    let a = encode_poly(&value[1]);
    push_bytes(&mut out, b.as_slice());
    push_bytes(&mut out, a.as_slice());
    Ok(out)
}

/// Decodes an RLWE public key.
pub fn decode_public_key(bytes: &[u8]) -> (r: Result<PublicKey, LatticeError>)
    ensures
        match spec_decode_public_key(bytes@) {
            Ok((b, a)) => r matches Ok(pk) && pk@ == (b, a),
            Err(e) => r == Err::<PublicKey, _>(e),
        },
{
    let tag = public_key_tag_bytes();
    if let Err(e) = read_header(bytes, &tag) {
        return Err(LatticeError::Utils(e));
    }
    let (b, o) = read_poly(bytes, 10)?;
    let (a, _) = read_poly(bytes, o)?;
    Ok(PublicKey::new(b, a))
}

/// Encodes evaluation-key markers: whether a relinearization key is
/// present (not its content), then each Galois element.
pub fn encode_evaluation_key(evaluation_key: &EvaluationKey) -> (r: Result<Vec<u8>, LatticeError>)
    ensures
        r matches Ok(bytes) && bytes@ == evaluation_key_bytes(
            evaluation_key@.0 is Some,
            evaluation_key@.1.map_values(|g: (usize, Option<KeySwitchView>)| g.0),
        ),
{
    let tag = evaluation_key_tag_bytes();
    let mut out = writer(&tag);
    let ghost prefix = out@;
    let marker: u8 = if evaluation_key.relinearization_key().is_some() { 1 } else { 0 };
    out.push(marker);
    let keys = evaluation_key.galois_keys();
    let ghost elements = evaluation_key@.1.map_values(|g: (usize, Option<KeySwitchView>)| g.0);
    let ghost w = seq![elements.len() as u64] + elements.map_values(|e: usize| e as u64);
    let ghost head = prefix.push(marker);
    push_u64_le(&mut out, keys.len() as u64);
    proof {
        assert(galois_view(keys@).len() == keys@.len());
        crate::codec::lemma_words_le_push(Seq::<u64>::empty(), keys.len() as u64);
        crate::codec::lemma_words_le_len(Seq::<u64>::empty());
        assert(Seq::<u64>::empty().push(keys.len() as u64) =~= w.take(1));
        assert(out@ =~= head + words_le(w.take(1)));
    }
    let mut i: usize = 0;
    while i < keys.len()
        invariant
            galois_view(keys@) == evaluation_key@.1,
            elements == evaluation_key@.1.map_values(|g: (usize, Option<KeySwitchView>)| g.0),
            w == seq![elements.len() as u64] + elements.map_values(|e: usize| e as u64),
            elements.len() == keys@.len(),
            i <= keys@.len(),
            out@ == head + words_le(w.take(1 + i)),
        decreases keys@.len() - i,
    {
        let e = keys[i].element();
        proof {
            assert(keys@[i as int]@ == galois_view(keys@)[i as int]);
            assert(w[1 + i] == e as u64);
            crate::codec::lemma_words_le_push(w.take(1 + i), e as u64);
            assert(w.take(1 + i).push(e as u64) =~= w.take(2 + i));
        }
        push_u64_le(&mut out, e as u64);
        i = i + 1;
    }
    assert(w.take(1 + keys@.len() as int) =~= w);
    assert(out@ =~= evaluation_key_bytes(evaluation_key@.0 is Some, elements));
    Ok(out)
}

/// Decodes evaluation-key markers. A present relinearization key comes back
/// as the placeholder: the encoding never carries key content.
pub fn decode_evaluation_key(bytes: &[u8]) -> (r: Result<EvaluationKey, LatticeError>)
    ensures
        match spec_decode_evaluation_key(bytes@) {
            Ok((relin, elements)) => r matches Ok(ek) && ek@.0 == (if relin {
                Some(None::<KeySwitchView>)
            } else {
                None
            }) && ek@.1 == placeholder_galois(elements),
            Err(e) => r == Err::<EvaluationKey, _>(e),
        },
{
    reveal(word_at);
    let tag = evaluation_key_tag_bytes();
    if let Err(e) = read_header(bytes, &tag) {
        return Err(LatticeError::Utils(e));
    }
    if bytes.len() < 11 {
        return Err(LatticeError::Utils(UtilsError::UnexpectedEnd));
    }
    let relin = if bytes[10] == 0 {
        None
    } else if bytes[10] == 1 {
        Some(RelinearizationKey::placeholder())
    } else {
        return Err(LatticeError::InvalidParameters("invalid relinearization marker"));
    };
    if bytes.len() < 19 {
        return Err(LatticeError::Utils(UtilsError::UnexpectedEnd));
    }
    let count = crate::codec::read_u64_le(bytes, 11);
    if count > usize::MAX as u64 {
        return Err(LatticeError::InvalidParameters("length overflow"));
    }
    let n = count as usize;
    let ghost total = elements_from(bytes@, n as int, 0);
    assert(spec_decode_evaluation_key(bytes@) == (match total {
        Ok(s) => Ok((bytes@[10] == 1, s)),
        Err(e) => Err(e),
    }));
    let mut galois: Vec<GaloisKey> = Vec::new();
    let ghost mut got: Seq<usize> = Seq::empty();
    let mut i: usize = 0;
    while i < n
        invariant
            bytes@.len() >= 19,
            total == elements_from(bytes@, n as int, 0),
            spec_decode_evaluation_key(bytes@) == (match total {
                Ok(s) => Ok((bytes@[10] == 1, s)),
                Err(e) => Err(e),
            }),
            match relin {
                Some(k) => k@ is None && bytes@[10] == 1,
                None => bytes@[10] == 0,
            },
            total == (match elements_from(bytes@, n as int, i as int) {
                Ok(s) => Ok(got + s),
                Err(e) => Err(e),
            }),
            i <= n,
            got.len() == i,
            galois_view(galois@) == placeholder_galois(got),
        decreases n - i,
    {
        proof {
            reveal(word_at);
            vstd::arithmetic::div_mod::lemma_fundamental_div_mod((bytes@.len() - 19) as int, 8);
        }
        if (bytes.len() - 19) / 8 < i + 1 {
            assert(bytes@.len() < 19 + 8 * (i + 1));
            assert(elements_from(bytes@, n as int, i as int) == Err::<Seq<usize>, LatticeError>(
                LatticeError::Utils(UtilsError::UnexpectedEnd),
            ));
            return Err(LatticeError::Utils(UtilsError::UnexpectedEnd));
        }
        let v = crate::codec::read_u64_le(bytes, 19 + 8 * i);
        if v > usize::MAX as u64 {
            assert(word_at(bytes@, 19 + 8 * i) == v);
            assert(elements_from(bytes@, n as int, i as int) == Err::<Seq<usize>, LatticeError>(
                LatticeError::InvalidParameters("length overflow"),
            ));
            return Err(LatticeError::InvalidParameters("length overflow"));
        }
        let e = v as usize;
        proof {
            assert(seq![e] + elements_from(bytes@, n as int, i + 1)->Ok_0 =~= elements_from(bytes@, n as int, i as int)->Ok_0
                || elements_from(bytes@, n as int, i + 1) is Err);
        }
        let key = GaloisKey::new(e);
        let ghost before = galois@;
        let ghost kv = key@;
        galois.push(key);
        proof {
            let old_got = got;
            got = got.push(e);
            assert(galois_view(galois@) =~= galois_view(before).push(kv));
            assert(placeholder_galois(got) =~= placeholder_galois(old_got).push((e, None::<KeySwitchView>)));
            match elements_from(bytes@, n as int, i + 1) {
                Ok(s) => {
                    assert(old_got + (seq![e] + s) =~= got + s);
                },
                Err(_) => {},
            }
        }
        i = i + 1;
    }
    Ok(EvaluationKey::new(relin, galois))
}

} // verus!
