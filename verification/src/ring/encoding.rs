//! The word encoding of RNS polynomials: the row count, the row length,
//! then the coefficients row by row, each word in 8 little-endian bytes.

use vstd::prelude::*;

use crate::codec::{lemma_words_le_push, push_u64_le, words_le};
use crate::ring::poly::{rectangular, Poly, Rows};

verus! {

/// The words of a polynomial's encoding.
#[verifier::opaque]
pub open spec fn poly_words(p: Rows) -> Seq<u64> {
    let m = p.len();
    let n = p[0].len();
    seq![m as u64, n as u64] + Seq::new(m * n, |x: int| p[x / (n as int)][x % (n as int)])
}

/// The header words and the coefficient words of a polynomial's encoding.
pub proof fn lemma_poly_words(p: Rows)
    requires
        rectangular(p),
    ensures
        poly_words(p).len() == 2 + p.len() * p[0].len(),
        poly_words(p)[0] == p.len() as u64,
        poly_words(p)[1] == p[0].len() as u64,
        forall|j: int, i: int|
            0 <= j < p.len() && 0 <= i < p[0].len() ==> #[trigger] poly_words(p)[2 + j * p[0].len() + i]
                == p[j][i],
{
    reveal(poly_words);
    let m = p.len() as int;
    let n = p[0].len() as int;
    vstd::arithmetic::mul::lemma_mul_nonnegative(m, n);
    assert forall|j: int, i: int| 0 <= j < m && 0 <= i < n implies #[trigger] poly_words(p)[2 + j * n + i]
        == p[j][i] by {
        lemma_index_split(j, i, n);
        lemma_index_bound(j, i, m, n);
    }
}

/// The bytes of a polynomial's encoding.
pub open spec fn poly_bytes(p: Rows) -> Seq<u8> {
    words_le(poly_words(p))
}

/// The `m` rows of `n` coefficients that follow a two-word header.
pub open spec fn words_poly(w: Seq<u64>, m: int, n: int) -> Rows {
    Seq::new(m as nat, |j: int| Seq::new(n as nat, |i: int| w[2 + j * n + i]))
}

/// Coefficient `(j, i)` of a row length `n` sits at flat index `j*n + i`.
pub proof fn lemma_index_split(j: int, i: int, n: int)
    requires
        n > 0,
        0 <= i < n,
        0 <= j,
    ensures
        (j * n + i) / n == j,
        (j * n + i) % n == i,
        0 <= j * n,
{
    vstd::arithmetic::div_mod::lemma_fundamental_div_mod_converse(j * n + i, n, j, i);
    vstd::arithmetic::mul::lemma_mul_nonnegative(j, n);
}

/// The flat index of coefficient `(j, i)` is below `m*n`.
pub proof fn lemma_index_bound(j: int, i: int, m: int, n: int)
    requires
        0 <= j < m,
        0 <= i < n,
    ensures
        j * n + i < m * n,
        0 <= j * n + i,
{
    vstd::arithmetic::mul::lemma_mul_inequality(j + 1, m, n);
    vstd::arithmetic::mul::lemma_mul_is_distributive_add_other_way(n, j, 1);
    vstd::arithmetic::mul::lemma_mul_nonnegative(j, n);
}

/// Encodes a polynomial.
pub fn encode_poly(poly: &Poly) -> (r: Vec<u8>)
    ensures
        r@ == poly_bytes(poly@),
        r@.len() > 0,
{
    poly.check_rectangular();
    let rows = poly.coeffs();
    let m = poly.moduli_count();
    let n = poly.degree();
    let ghost w = poly_words(poly@);
    proof {
        lemma_poly_words(poly@);
    }
    let mut out: Vec<u8> = Vec::new();
    push_u64_le(&mut out, m as u64);
    push_u64_le(&mut out, n as u64);
    proof {
        lemma_words_le_push(Seq::<u64>::empty(), m as u64);
        assert(Seq::<u64>::empty().push(m as u64) =~= w.take(1));
        lemma_words_le_push(w.take(1), n as u64);
        assert(w.take(1).push(n as u64) =~= w.take(2));
        crate::codec::lemma_words_le_len(Seq::<u64>::empty());
        assert(out@ =~= words_le(w.take(2)));
    }
    let mut j: usize = 0;
    while j < m
        invariant
            rows@.map_values(|r: Vec<u64>| r@) == poly@,
            rectangular(poly@),
            m == poly@.len(),
            n == poly@[0].len(),
            n > 0,
            w == poly_words(poly@),
            j <= m,
            out@ == words_le(w.take(2 + j * n)),
            0 <= j * n <= m * n,
        decreases m - j,
    {
        let row = &rows[j];
        assert(row@ == poly@[j as int]);
        let mut i: usize = 0;
        while i < row.len()
            invariant
                rectangular(poly@),
                row@ == poly@[j as int],
                row@.len() == n,
                m == poly@.len(),
                n == poly@[0].len(),
                n > 0,
                j < m,
                w == poly_words(poly@),
                i <= n,
                out@ == words_le(w.take(2 + j * n + i)),
            decreases n - i,
        {
            proof {
                lemma_poly_words(poly@);
                lemma_index_split(j as int, i as int, n as int);
                lemma_index_bound(j as int, i as int, m as int, n as int);
                let k = 2 + j * n + i;
                assert(w[k] == row@[i as int]);
                lemma_words_le_push(w.take(k), row@[i as int]);
                assert(w.take(k).push(row@[i as int]) =~= w.take(k + 1));
            }
            push_u64_le(&mut out, row[i]);
            i = i + 1;
        }
        proof {
            vstd::arithmetic::mul::lemma_mul_is_distributive_add_other_way(n as int, j as int, 1);
            vstd::arithmetic::mul::lemma_mul_inequality(j + 1, m as int, n as int);
        }
        j = j + 1;
    }
    assert(w.take(2 + m * n) =~= w);
    proof {
        crate::codec::lemma_words_le_len(w);
    }
    out
}

} // verus!
