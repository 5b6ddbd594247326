//! What decryption sees of the evaluator's operations: the phase of a sum of
//! ciphertexts is the sum of their phases, and the phase of a tensor
//! product is the product of the phases.

use vstd::prelude::*;

use crate::lattice::rlwe::ciphertext::{ciphertext_add, ciphertext_neg, ciphertext_sub, components_in_ring};
use crate::lattice::rlwe::decryptor::{phase, poly_pow};
use vstd::arithmetic::div_mod::{lemma_mod_add_multiples_vanish, lemma_mod_sub_multiples_vanish, lemma_small_mod};
use crate::lattice::rlwe::evaluator::{ciphertext_mul, tensor_sum, tensor_term};
use crate::ring::algebra::{
    lemma_add_associative, lemma_add_interchange, lemma_mul_associative, lemma_mul_commutative,
    lemma_mul_distributes_over_add, lemma_mul_distributes_over_add_left,
};
use crate::ring::poly::{
    lemma_mul_stays_in_ring, lemma_ring_ops_stay_in_ring, poly_add, poly_in_ring, poly_mul, poly_zero, ring_valid,
    RingView, Rows,
};

verus! {

/// Powers of a ring element are ring elements.
pub proof fn lemma_pow_in_ring(r: RingView, s: Rows, i: nat)
    requires
        ring_valid(r),
        poly_in_ring(r.degree, r.moduli, s),
    ensures
        poly_in_ring(r.degree, r.moduli, poly_pow(s, i, r.moduli)),
    decreases i,
{
    if i > 1 {
        lemma_pow_in_ring(r, s, (i - 1) as nat);
        lemma_mul_stays_in_ring(r, poly_pow(s, (i - 1) as nat, r.moduli), s);
    }
}

/// The phase of ring elements is a ring element.
pub proof fn lemma_phase_in_ring(r: RingView, c: Seq<Rows>, s: Rows, m: nat)
    requires
        ring_valid(r),
        1 <= m <= c.len(),
        components_in_ring(r, c),
        poly_in_ring(r.degree, r.moduli, s),
    ensures
        poly_in_ring(r.degree, r.moduli, phase(c, s, r.moduli, m)),
    decreases m,
{
    if m > 1 {
        lemma_phase_in_ring(r, c, s, (m - 1) as nat);
        lemma_pow_in_ring(r, s, (m - 1) as nat);
        lemma_mul_stays_in_ring(r, c[m - 1], poly_pow(s, (m - 1) as nat, r.moduli));
        lemma_ring_ops_stay_in_ring(
            r,
            phase(c, s, r.moduli, (m - 1) as nat),
            poly_mul(c[m - 1], poly_pow(s, (m - 1) as nat, r.moduli), r.moduli),
        );
    }
}

/// Decryption is additive: the phase of the componentwise sum of two
/// ciphertexts of the same size is the sum of their phases.
pub proof fn lemma_phase_of_sum(r: RingView, c: Seq<Rows>, d: Seq<Rows>, s: Rows, m: nat)
    requires
        ring_valid(r),
        c.len() == d.len(),
        1 <= m <= c.len(),
        components_in_ring(r, c),
        components_in_ring(r, d),
        poly_in_ring(r.degree, r.moduli, s),
    ensures
        phase(ciphertext_add(c, d, r.moduli), s, r.moduli, m) == poly_add(
            phase(c, s, r.moduli, m),
            phase(d, s, r.moduli, m),
            r.moduli,
        ),
    decreases m,
{
    let mv = r.moduli;
    let sum = ciphertext_add(c, d, mv);
    if m > 1 {
        let k = (m - 1) as nat;
        lemma_phase_of_sum(r, c, d, s, k);
        let pw = poly_pow(s, k, mv);
        lemma_pow_in_ring(r, s, k);
        lemma_mul_distributes_over_add_left(r, c[m - 1], d[m - 1], pw);
        lemma_phase_in_ring(r, c, s, k);
        lemma_phase_in_ring(r, d, s, k);
        lemma_mul_stays_in_ring(r, c[m - 1], pw);
        lemma_mul_stays_in_ring(r, d[m - 1], pw);
        lemma_add_interchange(
            r,
            phase(c, s, mv, k),
            phase(d, s, mv, k),
            poly_mul(c[m - 1], pw, mv),
            poly_mul(d[m - 1], pw, mv),
        );
        assert(sum[m - 1] == poly_add(c[m - 1], d[m - 1], mv));
    } else {
        assert(sum[0] == poly_add(c[0], d[0], mv));
    }
}

/// The tensor product of two ciphertexts of two components:
/// `(a0*b0, a0*b1 + a1*b0, a1*b1)`.
pub proof fn lemma_tensor_of_pairs(r: RingView, a: Seq<Rows>, b: Seq<Rows>)
    requires
        ring_valid(r),
        a.len() == 2,
        b.len() == 2,
        components_in_ring(r, a),
        components_in_ring(r, b),
    ensures
        ciphertext_mul(a, b, r) == seq![
            poly_mul(a[0], b[0], r.moduli),
            poly_add(poly_mul(a[0], b[1], r.moduli), poly_mul(a[1], b[0], r.moduli), r.moduli),
            poly_mul(a[1], b[1], r.moduli),
        ],
{
    let mv = r.moduli;
    let got = ciphertext_mul(a, b, r);
    let want = seq![
        poly_mul(a[0], b[0], mv),
        poly_add(poly_mul(a[0], b[1], mv), poly_mul(a[1], b[0], mv), mv),
        poly_mul(a[1], b[1], mv),
    ];
    lemma_mul_stays_in_ring(r, a[0], b[0]);
    lemma_mul_stays_in_ring(r, a[0], b[1]);
    lemma_mul_stays_in_ring(r, a[1], b[0]);
    lemma_mul_stays_in_ring(r, a[1], b[1]);
    lemma_ring_ops_stay_in_ring(r, poly_mul(a[0], b[1], mv), poly_mul(a[1], b[0], mv));
    assert forall|k: int| 0 <= k < 3 implies #[trigger] got[k] =~= want[k] by {
        assert forall|t: int| 0 <= t < mv.len() implies #[trigger] got[k][t] =~= want[k][t] by {
            let q = mv[t] as int;
            assert forall|c: int| 0 <= c < r.degree implies #[trigger] got[k][t][c] == want[k][t][c] by {
                assert(tensor_sum(a, b, mv, k, t, c, 0) == 0);
                assert(tensor_sum(a, b, mv, k, t, c, 1) == tensor_term(a, b, mv, k, t, c, 0));
                assert(tensor_sum(a, b, mv, k, t, c, 2) == tensor_term(a, b, mv, k, t, c, 0) + tensor_term(
                    a,
                    b,
                    mv,
                    k,
                    t,
                    c,
                    1,
                ));
                if k == 0 {
                    vstd::arithmetic::div_mod::lemma_small_mod(poly_mul(a[0], b[0], mv)[t][c] as nat, q as nat);
                } else if k == 2 {
                    vstd::arithmetic::div_mod::lemma_small_mod(poly_mul(a[1], b[1], mv)[t][c] as nat, q as nat);
                }
            }
        }
    }
    assert(got =~= want);
}

/// Decryption is multiplicative: the phase of the tensor product of two
/// ciphertexts of two components, under `(1, s, s^2)`, is the product of
/// their phases.
pub proof fn lemma_phase_of_product(r: RingView, a: Seq<Rows>, b: Seq<Rows>, s: Rows)
    requires
        ring_valid(r),
        a.len() == 2,
        b.len() == 2,
        components_in_ring(r, a),
        components_in_ring(r, b),
        poly_in_ring(r.degree, r.moduli, s),
    ensures
        phase(ciphertext_mul(a, b, r), s, r.moduli, 3) == poly_mul(
            phase(a, s, r.moduli, 2),
            phase(b, s, r.moduli, 2),
            r.moduli,
        ),
{
    let m = r.moduli;
    lemma_tensor_of_pairs(r, a, b);
    let (a0, a1, b0, b1) = (a[0], a[1], b[0], b[1]);
    let a1s = poly_mul(a1, s, m);
    let b1s = poly_mul(b1, s, m);
    let pa = poly_add(a0, a1s, m);
    let pb = poly_add(b0, b1s, m);
    assert(poly_pow(s, 1, m) == s);
    assert(poly_pow(s, 2, m) == poly_mul(s, s, m));
    assert(phase(a, s, m, 1) == a0);
    assert(phase(b, s, m, 1) == b0);
    assert(phase(a, s, m, 2) == pa);
    assert(phase(b, s, m, 2) == pb);
    lemma_mul_stays_in_ring(r, a1, s);
    lemma_mul_stays_in_ring(r, b1, s);
    lemma_mul_stays_in_ring(r, s, s);
    lemma_mul_stays_in_ring(r, b0, s);
    lemma_mul_stays_in_ring(r, a0, b1);
    lemma_mul_stays_in_ring(r, a1, b0);
    lemma_mul_stays_in_ring(r, a1, b1);
    lemma_mul_stays_in_ring(r, b1, s);
    // pa * pb = (a0*b0 + a0*(b1 s)) + ((a1 s)*b0 + (a1 s)*(b1 s)).
    let x = poly_mul(a0, b0, m);
    let y = poly_mul(a0, b1s, m);
    let z = poly_mul(a1s, b0, m);
    let w = poly_mul(a1s, b1s, m);
    lemma_mul_distributes_over_add_left(r, a0, a1s, pb);
    lemma_mul_distributes_over_add(r, a0, b0, b1s);
    lemma_mul_distributes_over_add(r, a1s, b0, b1s);
    lemma_mul_stays_in_ring(r, a0, b0);
    lemma_mul_stays_in_ring(r, a0, b1s);
    lemma_mul_stays_in_ring(r, a1s, b0);
    lemma_mul_stays_in_ring(r, a1s, b1s);
    assert(poly_mul(pa, pb, m) == poly_add(poly_add(x, y, m), poly_add(z, w, m), m));
    // The middle component times s: (a0 b1) s + (a1 b0) s == y + z.
    let ab1 = poly_mul(a0, b1, m);
    let ab0 = poly_mul(a1, b0, m);
    lemma_mul_distributes_over_add_left(r, ab1, ab0, s);
    lemma_mul_associative(r, a0, b1, s);
    lemma_mul_associative(r, a1, b0, s);
    lemma_mul_commutative(r, b0, s);
    lemma_mul_associative(r, a1, s, b0);
    assert(poly_mul(ab0, s, m) == z);
    // The last component times s^2: (a1 b1)(s s) == w.
    lemma_mul_associative(r, a1, b1, poly_mul(s, s, m));
    lemma_mul_associative(r, b1, s, s);
    lemma_mul_commutative(r, b1s, s);
    lemma_mul_associative(r, s, b1, s);
    lemma_mul_associative(r, a1, s, b1s);
    assert(poly_mul(b1, poly_mul(s, s, m), m) == poly_mul(s, b1s, m));
    assert(poly_mul(poly_mul(a1, b1, m), poly_mul(s, s, m), m) == w);
    // Regroup the four terms.
    lemma_ring_ops_stay_in_ring(r, x, y);
    lemma_ring_ops_stay_in_ring(r, y, z);
    lemma_add_associative(r, poly_add(x, y, m), z, w);
    lemma_add_associative(r, x, y, z);
    let d = ciphertext_mul(a, b, r);
    assert(phase(d, s, m, 1) == x);
    assert(phase(d, s, m, 2) == poly_add(x, poly_mul(d[1], s, m), m));
    assert(poly_mul(d[1], s, m) == poly_add(y, z, m));
}

/// Residue facts behind negation and subtraction modulo `q`.
proof fn lemma_neg_residues(x: int, y: int, q: int)
    requires
        0 <= x < q,
        0 <= y < q,
    ensures
        (0 - (0 - x) % q) % q == x,
        (x + (0 - x) % q) % q == 0,
        ((x + y) % q - y) % q == x,
{
    lemma_small_mod(x as nat, q as nat);
    lemma_small_mod(0, q as nat);
    if x == 0 {
        assert((0 - x) % q == 0);
    } else {
        lemma_mod_sub_multiples_vanish(q - x, q);
        lemma_small_mod((q - x) as nat, q as nat);
        assert((0 - x) % q == q - x);
        lemma_mod_sub_multiples_vanish(x, q);
        lemma_mod_add_multiples_vanish(0, q);
        assert((0 - (0 - x) % q) == -q + x);
        assert((x + (0 - x) % q) == q + 0);
    }
    if x + y < q {
        lemma_small_mod((x + y) as nat, q as nat);
    } else {
        lemma_mod_sub_multiples_vanish(x + y, q);
        lemma_small_mod((x + y - q) as nat, q as nat);
        assert((x + y) % q == x + y - q);
        lemma_mod_sub_multiples_vanish(x, q);
        assert((x + y) % q - y == -q + x);
    }
}

/// Negating a ciphertext twice gives it back.
pub proof fn lemma_neg_involution(r: RingView, c: Seq<Rows>)
    requires
        components_in_ring(r, c),
    ensures
        ciphertext_neg(ciphertext_neg(c, r.moduli), r.moduli) == c,
{
    let m = r.moduli;
    let twice = ciphertext_neg(ciphertext_neg(c, m), m);
    assert forall|k: int| 0 <= k < c.len() implies #[trigger] twice[k] =~= c[k] by {
        assert(poly_in_ring(r.degree, m, c[k]));
        assert forall|j: int| 0 <= j < c[k].len() implies #[trigger] twice[k][j] =~= c[k][j] by {
            assert forall|i: int| 0 <= i < c[k][j].len() implies #[trigger] twice[k][j][i] == c[k][j][i] by {
                lemma_neg_residues(c[k][j][i] as int, 0, m[j] as int);
            }
        }
    }
    assert(twice =~= c);
}

/// A ciphertext plus its negation is zero in every component.
pub proof fn lemma_add_neg_is_zero(r: RingView, c: Seq<Rows>)
    requires
        components_in_ring(r, c),
    ensures
        ciphertext_add(c, ciphertext_neg(c, r.moduli), r.moduli) == Seq::new(
            c.len(),
            |k: int| poly_zero(r.degree, r.moduli.len()),
        ),
{
    let m = r.moduli;
    let z = poly_zero(r.degree, m.len());
    let sum = ciphertext_add(c, ciphertext_neg(c, m), m);
    assert forall|k: int| 0 <= k < c.len() implies #[trigger] sum[k] =~= z by {
        assert(poly_in_ring(r.degree, m, c[k]));
        assert forall|j: int| 0 <= j < c[k].len() implies #[trigger] sum[k][j] =~= z[j] by {
            assert forall|i: int| 0 <= i < c[k][j].len() implies #[trigger] sum[k][j][i] == z[j][i] by {
                lemma_neg_residues(c[k][j][i] as int, 0, m[j] as int);
            }
        }
    }
    assert(sum =~= Seq::new(c.len(), |k: int| poly_zero(r.degree, r.moduli.len())));
}

/// Subtracting what was added gives the ciphertext back.
pub proof fn lemma_sub_undoes_add(r: RingView, a: Seq<Rows>, b: Seq<Rows>)
    requires
        a.len() == b.len(),
        components_in_ring(r, a),
        components_in_ring(r, b),
    ensures
        ciphertext_sub(ciphertext_add(a, b, r.moduli), b, r.moduli) == a,
{
    let m = r.moduli;
    let back = ciphertext_sub(ciphertext_add(a, b, m), b, m);
    assert forall|k: int| 0 <= k < a.len() implies #[trigger] back[k] =~= a[k] by {
        assert(poly_in_ring(r.degree, m, a[k]));
        assert(poly_in_ring(r.degree, m, b[k]));
        assert forall|j: int| 0 <= j < a[k].len() implies #[trigger] back[k][j] =~= a[k][j] by {
            assert forall|i: int| 0 <= i < a[k][j].len() implies #[trigger] back[k][j][i] == a[k][j][i] by {
                lemma_neg_residues(a[k][j][i] as int, b[k][j][i] as int, m[j] as int);
            }
        }
    }
    assert(back =~= a);
}

/// Adding a plaintext into the first component adds it to the phase, with
/// no new noise.
pub proof fn lemma_phase_of_add_plain(r: RingView, c: Seq<Rows>, pt: Rows, s: Rows, k: nat)
    requires
        ring_valid(r),
        1 <= k <= c.len(),
        components_in_ring(r, c),
        poly_in_ring(r.degree, r.moduli, pt),
        poly_in_ring(r.degree, r.moduli, s),
    ensures
        phase(c.update(0, poly_add(c[0], pt, r.moduli)), s, r.moduli, k) == poly_add(
            phase(c, s, r.moduli, k),
            pt,
            r.moduli,
        ),
    decreases k,
{
    let m = r.moduli;
    let d = c.update(0, poly_add(c[0], pt, m));
    if k > 1 {
        let kk = (k - 1) as nat;
        lemma_phase_of_add_plain(r, c, pt, s, kk);
        let pw = poly_pow(s, kk, m);
        lemma_pow_in_ring(r, s, kk);
        lemma_phase_in_ring(r, c, s, kk);
        lemma_mul_stays_in_ring(r, c[k - 1], pw);
        let x = phase(c, s, m, kk);
        let y = poly_mul(c[k - 1], pw, m);
        assert(d[k - 1] == c[k - 1]);
        // (x + pt) + y == (x + y) + pt
        lemma_add_associative(r, x, pt, y);
        lemma_add_associative(r, x, y, pt);
        assert forall|j: int| 0 <= j < m.len() implies #[trigger] poly_add(pt, y, m)[j] =~= poly_add(y, pt, m)[j] by {
            assert(pt[j].len() == y[j].len());
        }
        assert(poly_add(pt, y, m) =~= poly_add(y, pt, m));
    }
}

} // verus!
