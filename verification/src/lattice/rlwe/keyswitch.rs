//! RNS hybrid key-switching material.
//!
//! A key-switching key from `s_old` to `s_new` holds one row per working
//! modulus `q_j` of `Q`: an RLWE encryption of zero under `s_new`, over the
//! extended ring `QP = Q * P`, with `P * (Q / q_j) * s_old` added into its
//! first component.

use vstd::prelude::*;

use crate::lattice::error::{ring_result, LatticeError};
use crate::lattice::rlwe::ciphertext::{polys_view, Ciphertext};
use crate::lattice::rlwe::keys::SecretKey;
use crate::lattice::rlwe::params::RlweParams;
use crate::ring::arith::mul_mod;
use crate::lattice::rlwe::ciphertext::{first_failure, Plaintext};
use crate::lattice::rlwe::encryptor::{sk_encryption, Encryptor};
use crate::ring::conversion::{
    concat_moduli, extend_basis, fast_convert, hat_inverse, mod_down, mod_down_rows, tail_moduli,
};
use crate::ring::poly::{
    modulus_values, pair_check, poly_add, poly_check, poly_in_ring, poly_mul, poly_scale_rows,
    poly_zero, row_scale, Modulus, Poly, Ring, RingError, RingView, Rows,
};
use crate::ring::poly::Degree;
use crate::ring::rns::{crt_basis_constant, inv_mod, prod_except, prod_except_mod};

verus! {

/// Keeps a ciphertext as it is: the identity key switch, for callers without
/// key-switching material.
pub fn key_switch_identity(ct: &Ciphertext) -> (r: Result<Ciphertext, LatticeError>)
    ensures
        r matches Ok(out) && out@ == ct@,
{
    Ok(ct.clone())
}

/// The component views of each row.
pub open spec fn rows_view(rows: Seq<Ciphertext>) -> Seq<Seq<Rows>> {
    rows.map_values(|c: Ciphertext| c@)
}

/// An RNS hybrid key-switching key: the extended `QP` ring and one row per
/// `Q`-modulus, each a ciphertext over that ring.
#[derive(Debug)]
pub struct KeySwitchKey {
    qp_params: RlweParams,
    rows: Vec<Ciphertext>,
}

impl View for KeySwitchKey {
    type V = (RingView, Seq<Seq<Rows>>);

    closed spec fn view(&self) -> (RingView, Seq<Seq<Rows>>) {
        (self.qp_params@, rows_view(self.rows@))
    }
}

/// Copies a slice of ciphertexts.
pub fn clone_ciphertexts(cts: &[Ciphertext]) -> (r: Vec<Ciphertext>)
    ensures
        rows_view(r@) == rows_view(cts@),
{
    let mut out: Vec<Ciphertext> = Vec::with_capacity(cts.len());
    let mut i: usize = 0;
    while i < cts.len()
        invariant
            i <= cts@.len(),
            out@.len() == i,
            forall|t: int| 0 <= t < i ==> (#[trigger] out@[t])@ == cts@[t]@,
        decreases cts@.len() - i,
    {
        out.push(cts[i].clone());
        i = i + 1;
    }
    assert(rows_view(out@) =~= rows_view(cts@));
    out
}

impl Clone for KeySwitchKey {
    fn clone(&self) -> (r: Self)
        ensures
            r@ == self@,
    {
        KeySwitchKey { qp_params: self.qp_params.clone(), rows: clone_ciphertexts(self.rows.as_slice()) }
    }
}

impl KeySwitchKey {
    /// Returns the extended `QP` parameters that the rows live in.
    pub fn qp_params(&self) -> (r: &RlweParams)
        ensures
            r@ == self@.0,
    {
        &self.qp_params
    }

    /// Returns the rows.
    pub fn rows(&self) -> (r: &[Ciphertext])
        ensures
            rows_view(r@) == self@.1,
    {
        self.rows.as_slice()
    }

    /// Builds a key from rows computed elsewhere, such as the combined
    /// output of a multiparty protocol. The row count is not checked here:
    /// it is checked where the key is used.
    pub fn from_rows(qp_params: RlweParams, rows: Vec<Ciphertext>) -> (r: Self)
        ensures
            r@ == (qp_params@, rows_view(rows@)),
    {
        KeySwitchKey { qp_params, rows }
    }
}

/// A ternary coefficient read modulo `q0`, written modulo `q`: `0` and `1`
/// stay, `q0 - 1` (that is, `-1`) becomes `q - 1`; anything else is not
/// ternary.
pub open spec fn rebase_coefficient(v: u64, q0: u64, q: u64) -> Option<u64> {
    if v == 0 {
        Some(0u64)
    } else if v == 1 {
        Some(1u64)
    } else if v == q0 - 1 {
        Some((q - 1) as u64)
    } else {
        None
    }
}

/// Every coefficient of `row` is ternary modulo `q0`.
pub open spec fn row_is_ternary(row: Seq<u64>, q0: u64) -> bool {
    forall|i: int| 0 <= i < row.len() ==> (#[trigger] rebase_coefficient(row[i], q0, q0)) is Some
}

/// The ternary row `row` (read modulo `q0`) written in every modulus.
pub open spec fn rebased(row: Seq<u64>, q0: u64, moduli: Seq<u64>) -> Rows {
    Seq::new(
        moduli.len(),
        |j: int| Seq::new(row.len(), |i: int| rebase_coefficient(row[i], q0, moduli[j])->0),
    )
}

/// Re-expresses a ternary secret, read from its first component modulo
/// `source_modulus`, in every modulus of `target_ring`. A coefficient other
/// than `0`, `1` or `source_modulus - 1` is refused: the key is not ternary.
pub fn rebase_ternary_secret(sk: &SecretKey, source_modulus: Modulus, target_ring: &Ring) -> (r: Result<
    Poly,
    LatticeError,
>)
    ensures
        r is Ok <==> row_is_ternary(sk@[0], source_modulus@),
        r matches Ok(p) ==> p@ == rebased(sk@[0], source_modulus@, target_ring@.moduli),
        r is Err ==> r == Err::<Poly, _>(
            LatticeError::InvalidParameters("s_new must be ternary to rebase into the extended QP ring"),
        ),
{
    let q0 = source_modulus.value();
    sk.value().check_rectangular();
    let source = match sk.value().component(0) {
        Some(row) => row,
        None => {
            return Err(LatticeError::DimensionMismatch);
        },
    };
    let moduli = target_ring.moduli();
    let ghost target = target_ring@.moduli;
    let ghost want = rebased(source@, q0, target);
    let mut coeffs: Vec<Vec<u64>> = Vec::with_capacity(moduli.len());
    let mut j: usize = 0;
    while j < moduli.len()
        invariant
            crate::ring::poly::modulus_values(moduli@) == target,
            target.len() > 0,
            source@ == sk@[0],
            source@.len() > 0,
            q0 == source_modulus@,
            q0 > 1,
            want == rebased(source@, q0, target),
            j <= moduli@.len(),
            j > 0 ==> row_is_ternary(source@, q0),
            coeffs@.len() == j,
            forall|t: int| 0 <= t < j ==> (#[trigger] coeffs@[t])@ == want[t],
        decreases moduli@.len() - j,
    {
        let q = moduli[j].value();
        assert(q == target[j as int]);
        let mut row: Vec<u64> = Vec::with_capacity(source.len());
        let mut i: usize = 0;
        while i < source.len()
            invariant
                q0 > 1,
                q > 1,
                source@ == sk@[0],
                q0 == source_modulus@,
                i <= source@.len(),
                row@.len() == i,
                forall|t: int| 0 <= t < i ==> (#[trigger] rebase_coefficient(source@[t], q0, q0)) is Some,
                forall|t: int| 0 <= t < i ==> #[trigger] row@[t] == rebase_coefficient(source@[t], q0, q)->0,
            decreases source@.len() - i,
        {
            let v = source[i];
            let out = if v == 0 {
                0
            } else if v == 1 {
                1
            } else if v == q0 - 1 {
                q - 1
            } else {
                assert(rebase_coefficient(source@[i as int], q0, q0) is None);
                return Err(
                    LatticeError::InvalidParameters(
                        "s_new must be ternary to rebase into the extended QP ring",
                    ),
                );
            };
            row.push(out);
            i = i + 1;
        }
        assert(row@ =~= want[j as int]);
        coeffs.push(row);
        j = j + 1;
    }
    let ghost cv = coeffs@.map_values(|r: Vec<u64>| r@);
    assert(cv =~= want);
    ring_result(Poly::from_coeffs(coeffs))
}

/// Scales row `j` of `poly` by `scale_constants[j]` modulo the ring's `j`-th
/// modulus.
pub fn scale_poly_per_component(ring: &Ring, poly: &Poly, scale_constants: &[u64]) -> (r: Result<
    Poly,
    RingError,
>)
    requires
        scale_constants@.len() == ring@.moduli.len(),
    ensures
        r is Ok <==> poly_in_ring(ring@.degree, ring@.moduli, poly@),
        r matches Err(e) ==> crate::ring::poly::poly_check(ring@, poly@) == Err::<(), RingError>(e),
        r matches Ok(p) ==> p@ == poly_scale_rows(poly@, scale_constants@, ring@.moduli)
            && poly_in_ring(ring@.degree, ring@.moduli, p@),
{
    ring.check_poly(poly)?;
    ring.check_valid();
    let moduli = ring.moduli();
    let rows = poly.coeffs();
    let ghost want = poly_scale_rows(poly@, scale_constants@, ring@.moduli);
    let mut coeffs: Vec<Vec<u64>> = Vec::with_capacity(moduli.len());
    let mut j: usize = 0;
    while j < moduli.len()
        invariant
            crate::ring::poly::modulus_values(moduli@) == ring@.moduli,
            crate::ring::poly::ring_valid(ring@),
            rows@.map_values(|r: Vec<u64>| r@) == poly@,
            poly_in_ring(ring@.degree, ring@.moduli, poly@),
            scale_constants@.len() == ring@.moduli.len(),
            want == poly_scale_rows(poly@, scale_constants@, ring@.moduli),
            j <= moduli@.len(),
            coeffs@.len() == j,
            forall|t: int| 0 <= t < j ==> (#[trigger] coeffs@[t])@ == want[t],
        decreases moduli@.len() - j,
    {
        let q = moduli[j].value();
        let scale = scale_constants[j];
        let src = &rows[j];
        assert(src@ == poly@[j as int]);
        assert(crate::ring::arith::modulus_in_range(ring@.moduli[j as int] as int));
        let mut row: Vec<u64> = Vec::with_capacity(src.len());
        let mut i: usize = 0;
        while i < src.len()
            invariant
                q > 1,
                i <= src@.len(),
                row@.len() == i,
                forall|t: int| 0 <= t < i ==> #[trigger] row@[t] == ((src@[t] * scale) % (q as int)) as u64,
            decreases src@.len() - i,
        {
            row.push(mul_mod(src[i], scale, q));
            i = i + 1;
        }
        assert(row@ =~= want[j as int]);
        coeffs.push(row);
        j = j + 1;
    }
    let ghost cv = coeffs@.map_values(|r: Vec<u64>| r@);
    assert(cv =~= want);
    proof {
        crate::ring::poly::lemma_scale_rows_stay_in_ring(ring@, poly@, scale_constants@);
    }
    Poly::from_coeffs(coeffs)
}

/// Digit `j` of `c1` in the hybrid decomposition: `[c1_j * (Q / q_j)^-1]_{q_j}`.
pub open spec fn switch_digit(c1: Rows, q: Seq<u64>, j: int) -> Seq<u64> {
    row_scale(c1[j], hat_inverse(q, j) as u64, q[j])
}

/// Digit `j`, read over the single modulus `q_j` and converted to the
/// moduli `qp`.
pub open spec fn lifted_digit(c1: Rows, q: Seq<u64>, qp: Seq<u64>, j: int) -> Rows {
    fast_convert(seq![switch_digit(c1, q, j)], seq![q[j]], qp)
}

/// `sum_{j < n} lifted_j * rows[j][c]` over the ring `qp`.
pub open spec fn switch_sum(c1: Rows, rows: Seq<Seq<Rows>>, q: Seq<u64>, qp: RingView, c: int, n: int) -> Rows
    decreases n,
{
    if n <= 0 {
        poly_zero(qp.degree, qp.moduli.len())
    } else {
        poly_add(
            switch_sum(c1, rows, q, qp, c, n - 1),
            poly_mul(lifted_digit(c1, q, qp.moduli, n - 1), rows[n - 1][c], qp.moduli),
            qp.moduli,
        )
    }
}

/// The ring checks of the first `n` products, in the order they are made:
/// digit `j` against the first, then the second component of row `j`.
pub open spec fn switch_check(c1: Rows, rows: Seq<Seq<Rows>>, q: Seq<u64>, qp: RingView, n: int) -> Result<
    (),
    RingError,
>
    decreases n,
{
    if n <= 0 {
        Ok(())
    } else {
        match switch_check(c1, rows, q, qp, n - 1) {
            Err(e) => Err(e),
            Ok(_) => match pair_check(qp, lifted_digit(c1, q, qp.moduli, n - 1), rows[n - 1][0]) {
                Err(e) => Err(e),
                Ok(_) => pair_check(qp, lifted_digit(c1, q, qp.moduli, n - 1), rows[n - 1][1]),
            },
        }
    }
}

proof fn lemma_switch_check_sticks(c1: Rows, rows: Seq<Seq<Rows>>, q: Seq<u64>, qp: RingView, n: int, m: int)
    requires
        0 <= n <= m,
        switch_check(c1, rows, q, qp, n) is Err,
    ensures
        switch_check(c1, rows, q, qp, m) == switch_check(c1, rows, q, qp, n),
    decreases m - n,
{
    if n < m {
        lemma_switch_check_sticks(c1, rows, q, qp, n, m - 1);
    }
}

/// The key switch of `ct` over the ring `q_ring` with a key over `qp`:
/// `(c0 + ModDown(sum_j d_j * b_j), ModDown(sum_j d_j * a_j))`, where `P`
/// is made of the moduli of `qp` after the first `q_ring.moduli.len()`.
pub open spec fn key_switched(ct: Seq<Rows>, qp: RingView, rows: Seq<Seq<Rows>>, q_ring: RingView) -> Seq<Rows> {
    let q = q_ring.moduli;
    let p = qp.moduli.subrange(q.len() as int, qp.moduli.len() as int);
    let acc_b = switch_sum(ct[1], rows, q, qp, 0, q.len() as int);
    let acc_a = switch_sum(ct[1], rows, q, qp, 1, q.len() as int);
    seq![poly_add(ct[0], mod_down_rows(acc_b, q, p), q), mod_down_rows(acc_a, q, p)]
}

/// What `key_switch` gives: the ring error of `c0`, then of `c1`;
/// `DimensionMismatch` unless the key has one row per modulus of `Q` and at
/// least one auxiliary modulus; the first ring error of a product; else the
/// switched ciphertext.
pub open spec fn key_switch_result(ct: Seq<Rows>, key: (RingView, Seq<Seq<Rows>>), q_ring: RingView) -> Result<
    Seq<Rows>,
    LatticeError,
> {
    let q = q_ring.moduli;
    match poly_check(q_ring, ct[0]) {
        Err(e) => Err(LatticeError::Ring(e)),
        Ok(_) => match poly_check(q_ring, ct[1]) {
            Err(e) => Err(LatticeError::Ring(e)),
            Ok(_) => if key.1.len() != q.len() || key.0.moduli.len() == q.len() {
                Err(LatticeError::DimensionMismatch)
            } else {
                match switch_check(ct[1], key.1, q, key.0, q.len() as int) {
                    Err(e) => Err(LatticeError::Ring(e)),
                    Ok(_) => Ok(key_switched(ct, key.0, key.1, q_ring)),
                }
            },
        },
    }
}

/// A key that `key_switch` can read over a ring with `q_len` moduli: where
/// it has one row per modulus, its ring has at least as many moduli; and
/// where its ring also has auxiliary moduli, so that the rows are read,
/// every row has two components.
pub open spec fn key_switch_key_readable(key: (RingView, Seq<Seq<Rows>>), q_len: nat) -> bool {
    key.1.len() == q_len ==> key.0.moduli.len() >= q_len && (key.0.moduli.len() > q_len ==> forall|j: int|
        0 <= j < key.1.len() ==> (#[trigger] key.1[j]).len() >= 2)
}

/// Digit `j` of `c1`, scaled by `(Q / q_j)^-1` modulo `q_j`.
fn switch_digit_row(c1: &Poly, q_moduli: &[Modulus], j: usize) -> (r: Vec<u64>)
    requires
        j < q_moduli@.len(),
        j < c1@.len(),
    ensures
        r@ == switch_digit(c1@, modulus_values(q_moduli@), j as int),
{
    let qj = q_moduli[j].value();
    let y = inv_mod(prod_except_mod(q_moduli, j, qj), qj);
    let rows = c1.coeffs();
    let src = &rows[j];
    assert(src@ == c1@[j as int]);
    let mut out: Vec<u64> = Vec::with_capacity(src.len());
    let mut i: usize = 0;
    while i < src.len()
        invariant
            qj > 1,
            i <= src@.len(),
            out@.len() == i,
            forall|t: int| 0 <= t < i ==> #[trigger] out@[t] == ((src@[t] * y) % (qj as int)) as u64,
        decreases src@.len() - i,
    {
        out.push(mul_mod(src[i], y, qj));
        i = i + 1;
    }
    assert(y == hat_inverse(modulus_values(q_moduli@), j as int) as u64);
    assert(out@ =~= switch_digit(c1@, modulus_values(q_moduli@), j as int));
    out
}

/// Switches `ct`, which encrypts some `mu` under the key's `s_old`, to a
/// ciphertext of the same `mu` under the key's `s_new`, over `q_params`'s
/// ring: each hybrid digit of `c1` is lifted to `QP`, multiplied into the
/// key's rows, summed, and divided by `P`.
pub fn key_switch(ct: &Ciphertext, ksk: &KeySwitchKey, q_params: &RlweParams) -> (r: Result<
    Ciphertext,
    LatticeError,
>)
    requires
        ct@.len() >= 2,
        key_switch_key_readable(ksk@, q_params@.moduli.len()),
    ensures
        match key_switch_result(ct@, ksk@, q_params@) {
            Ok(v) => r matches Ok(out) && out@ == v,
            Err(e) => r == Err::<Ciphertext, _>(e),
        },
        r matches Ok(out) ==> crate::lattice::rlwe::ciphertext::components_in_ring(q_params@, out@),
{
    let ghost cv = ct@;
    let ghost qv = q_params@;
    let ghost kv = ksk@;
    let comps = ct.value();
    assert(comps@[0]@ == cv[0] && comps@[1]@ == cv[1]);
    let q_ring = q_params.ring();
    ring_result(q_ring.check_poly(&comps[0]))?;
    ring_result(q_ring.check_poly(&comps[1]))?;
    let c1 = &comps[1];
    let q_moduli = q_ring.moduli();
    let q_len = q_moduli.len();
    let _ = q_ring.degree();
    q_ring.check_valid();
    let qp_ring = ksk.qp_params.ring();
    if ksk.rows.len() != q_len {
        return Err(LatticeError::DimensionMismatch);
    }
    let qp_moduli = qp_ring.moduli();
    if qp_moduli.len() == q_len {
        return Err(LatticeError::DimensionMismatch);
    }
    let p_moduli = tail_moduli(qp_moduli, q_len);
    let ghost qpv = qp_ring@;
    let ghost rows_v = kv.1;
    let ghost q = qv.moduli;
    let ghost c1v = cv[1];
    let mut acc_b = qp_ring.zero();
    let mut acc_a = qp_ring.zero();
    let mut j: usize = 0;
    while j < q_len
        invariant
            qpv == qp_ring@,
            qpv == kv.0,
            rows_v == kv.1,
            rows_v == rows_view(ksk.rows@),
            ksk@ == kv,
            q == qv.moduli,
            modulus_values(q_moduli@) == q,
            q_len == q.len(),
            rows_v.len() == q_len,
            forall|u: int| 0 <= u < rows_v.len() ==> (#[trigger] rows_v[u]).len() >= 2,
            c1@ == c1v,
            poly_in_ring(qv.degree, q, c1v),
            cv == ct@,
            qv == q_params@,
            c1v == cv[1],
            poly_check(qv, cv[0]) is Ok,
            poly_check(qv, cv[1]) is Ok,
            qv.degree > 0,
            crate::ring::poly::ring_valid(qv),
            modulus_values(qp_moduli@) == qpv.moduli,
            qpv.moduli.len() > q_len,
            j > 0 ==> qpv.degree == qv.degree,
            j <= q_len,
            switch_check(c1v, rows_v, q, qpv, j as int) is Ok,
            acc_b@ == switch_sum(c1v, rows_v, q, qpv, 0, j as int),
            acc_a@ == switch_sum(c1v, rows_v, q, qpv, 1, j as int),
            poly_in_ring(qpv.degree, qpv.moduli, acc_b@),
            poly_in_ring(qpv.degree, qpv.moduli, acc_a@),
        decreases q_len - j,
    {
        let digit = switch_digit_row(c1, q_moduli, j);
        let mut single_rows: Vec<Vec<u64>> = Vec::with_capacity(1);
        single_rows.push(digit);
        let ghost dv = switch_digit(c1v, q, j as int);
        assert(dv.len() == c1v[j as int].len());
        assert(single_rows@.map_values(|v: Vec<u64>| v@) =~= seq![dv]);
        let source = match Poly::from_coeffs(single_rows) {
            Ok(p) => p,
            Err(e) => {
                assert(false);
                return Err(LatticeError::Ring(e));
            },
        };
        let mut single: Vec<Modulus> = Vec::with_capacity(1);
        single.push(q_moduli[j]);
        assert(modulus_values(single@) =~= seq![q[j as int]]);
        let lifted = match extend_basis(&source, single.as_slice(), qp_moduli) {
            Ok(p) => p,
            Err(e) => {
                assert(false);
                return Err(LatticeError::Ring(e));
            },
        };
        assert(source@ == seq![dv]);
        assert(lifted@ == lifted_digit(c1v, q, qpv.moduli, j as int));
        assert(lifted@[0].len() == qv.degree);
        let row = &ksk.rows[j];
        let parts = row.value();
        assert(parts@[0]@ == rows_v[j as int][0] && parts@[1]@ == rows_v[j as int][1]);
        let prod_b = match qp_ring.mul(&lifted, &parts[0]) {
            Ok(p) => p,
            Err(e) => {
                proof {
                    assert(pair_check(qpv, lifted@, rows_v[j as int][0]) == Err::<(), RingError>(e));
                    assert(switch_check(c1v, rows_v, q, qpv, j + 1) == Err::<(), RingError>(e));
                    lemma_switch_check_sticks(c1v, rows_v, q, qpv, j + 1, q_len as int);
                }
                return Err(LatticeError::Ring(e));
            },
        };
        let prod_a = match qp_ring.mul(&lifted, &parts[1]) {
            Ok(p) => p,
            Err(e) => {
                proof {
                    assert(pair_check(qpv, lifted@, rows_v[j as int][0]) is Ok);
                    assert(pair_check(qpv, lifted@, rows_v[j as int][1]) == Err::<(), RingError>(e));
                    assert(switch_check(c1v, rows_v, q, qpv, j + 1) == Err::<(), RingError>(e));
                    lemma_switch_check_sticks(c1v, rows_v, q, qpv, j + 1, q_len as int);
                }
                return Err(LatticeError::Ring(e));
            },
        };
        acc_b = match qp_ring.add(&acc_b, &prod_b) {
            Ok(p) => p,
            Err(e) => {
                assert(false);
                return Err(LatticeError::Ring(e));
            },
        };
        acc_a = match qp_ring.add(&acc_a, &prod_a) {
            Ok(p) => p,
            Err(e) => {
                assert(false);
                return Err(LatticeError::Ring(e));
            },
        };
        j = j + 1;
    }
    proof {
        let pv = qpv.moduli.subrange(q_len as int, qpv.moduli.len() as int);
        let bd = mod_down_rows(acc_b@, q, pv);
        assert(qpv.degree == qv.degree);
        assert forall|i: int| 0 <= i < bd.len() implies (#[trigger] bd[i]).len() == qv.degree by {
            assert(acc_b@[i].len() == qpv.degree);
        }
        assert forall|i: int, k: int| 0 <= i < bd.len() && 0 <= k < bd[i].len() implies #[trigger] bd[i][k] < q[i] by {
            assert(crate::ring::arith::modulus_in_range(q[i] as int));
        }
        assert(poly_in_ring(qv.degree, q, bd));
        let ad = mod_down_rows(acc_a@, q, pv);
        assert forall|i: int| 0 <= i < ad.len() implies (#[trigger] ad[i]).len() == qv.degree by {
            assert(acc_a@[i].len() == qpv.degree);
        }
        assert forall|i: int, k: int| 0 <= i < ad.len() && 0 <= k < ad[i].len() implies #[trigger] ad[i][k] < q[i] by {
            assert(crate::ring::arith::modulus_in_range(q[i] as int));
        }
        assert(poly_in_ring(qv.degree, q, ad));
    }
    let b_down = match mod_down(&acc_b, q_moduli, p_moduli.as_slice()) {
        Ok(p) => p,
        Err(e) => {
            assert(false);
            return Err(LatticeError::Ring(e));
        },
    };
    let a_down = match mod_down(&acc_a, q_moduli, p_moduli.as_slice()) {
        Ok(p) => p,
        Err(e) => {
            assert(false);
            return Err(LatticeError::Ring(e));
        },
    };
    let c0_final = match q_ring.add(&comps[0], &b_down) {
        Ok(p) => p,
        Err(e) => {
            assert(false);
            return Err(LatticeError::Ring(e));
        },
    };
    let mut out: Vec<Poly> = Vec::with_capacity(2);
    out.push(c0_final);
    out.push(a_down);
    let result = Ciphertext::new(out);
    assert(result@ =~= key_switched(cv, kv.0, kv.1, qv));
    assert(crate::lattice::rlwe::ciphertext::components_in_ring(qv, result@));
    Ok(result)
}

/// `(P * Q / q_j) mod m` for each modulus `m` of `QP`: the CRT basis
/// constant of position `j` within the extended basis.
pub open spec fn qp_scale(qp: Seq<u64>, j: int) -> Seq<u64> {
    Seq::new(qp.len(), |m: int| (prod_except(qp, j, qp.len() as int) % (qp[m] as int)) as u64)
}

/// Row `j` of a key-switching key: the secret-key encryption of zero under
/// `s_new` with mask `a` and error `e`, with `P * (Q / q_j) * s_old` added
/// into its first component.
pub open spec fn key_switch_row(qp: RingView, s_old: Rows, s_new: Rows, a: Rows, e: Rows, j: int) -> Seq<
    Rows,
> {
    let z = sk_encryption(poly_zero(qp.degree, qp.moduli.len()), s_new, a, e, qp.moduli);
    seq![poly_add(z[0], poly_scale_rows(s_old, qp_scale(qp.moduli, j), qp.moduli), qp.moduli), z[1]]
}

/// The ring checks of the first `n` encryptions of zero under `s`, in the
/// order of use: mask `j`, then `s`, then error `j`.
pub open spec fn samples_check(qp: RingView, s: Rows, masks: Seq<Rows>, errors: Seq<Rows>, n: int) -> Result<
    (),
    RingError,
>
    decreases n,
{
    if n <= 0 {
        Ok(())
    } else {
        match samples_check(qp, s, masks, errors, n - 1) {
            Err(e) => Err(e),
            Ok(_) => match poly_check(qp, masks[n - 1]) {
                Err(e) => Err(e),
                Ok(_) => match poly_check(qp, s) {
                    Err(e) => Err(e),
                    Ok(_) => poly_check(qp, errors[n - 1]),
                },
            },
        }
    }
}

proof fn lemma_samples_check_sticks(qp: RingView, s: Rows, masks: Seq<Rows>, errors: Seq<Rows>, n: int, m: int)
    requires
        0 <= n <= m,
        samples_check(qp, s, masks, errors, n) is Err,
    ensures
        samples_check(qp, s, masks, errors, m) == samples_check(qp, s, masks, errors, n),
    decreases m - n,
{
    if n < m {
        lemma_samples_check_sticks(qp, s, masks, errors, n, m - 1);
    }
}

/// The extended ring `QP`: the degree of `q_ring`, its moduli, then `p`.
pub open spec fn extended_ring(q_ring: RingView, p: Seq<u64>) -> RingView {
    RingView { degree: q_ring.degree, moduli: q_ring.moduli + p }
}

/// What `generate_key_switch_key` gives: `InvalidParameters` without
/// auxiliary moduli; the ring error of `s_old` over `QP`; `InvalidParameters`
/// unless `s_new` is ternary; the first ring error of a sample; else the key
/// over `QP` with one row per modulus of `Q`.
pub open spec fn generated_key_switch_key(
    q_ring: RingView,
    p: Seq<u64>,
    s_old: Rows,
    s_new: Rows,
    masks: Seq<Rows>,
    errors: Seq<Rows>,
) -> Result<(RingView, Seq<Seq<Rows>>), LatticeError> {
    let q = q_ring.moduli;
    let qp = extended_ring(q_ring, p);
    if p.len() == 0 {
        Err(LatticeError::InvalidParameters("p_moduli must be non-empty"))
    } else {
        match poly_check(qp, s_old) {
            Err(e) => Err(LatticeError::Ring(e)),
            Ok(_) => if !row_is_ternary(s_new[0], q[0]) {
                Err(
                    LatticeError::InvalidParameters(
                        "s_new must be ternary to rebase into the extended QP ring",
                    ),
                )
            } else {
                match samples_check(qp, rebased(s_new[0], q[0], qp.moduli), masks, errors, q.len() as int) {
                    Err(e) => Err(LatticeError::Ring(e)),
                    Ok(_) => Ok(
                        (
                            qp,
                            Seq::new(
                                q.len(),
                                |j: int|
                                    key_switch_row(
                                        qp,
                                        s_old,
                                        rebased(s_new[0], q[0], qp.moduli),
                                        masks[j],
                                        errors[j],
                                        j,
                                    ),
                            ),
                        ),
                    ),
                }
            },
        }
    }
}

/// Generates a key-switching key from `s_old` to `s_new` with sampled
/// randomness: `masks[j]` and `errors[j]` are the uniform mask and the error
/// of row `j`'s encryption of zero.
///
/// `s_old` must already be a polynomial over `QP` (the moduli of `q_params`
/// followed by `p_moduli`, same degree). `s_new` must be ternary: it is
/// re-expressed in `QP` coefficient by coefficient.
pub fn generate_key_switch_key(
    q_params: &RlweParams,
    p_moduli: &[Modulus],
    s_old: &Poly,
    s_new: &SecretKey,
    masks: &[Poly],
    errors: &[Poly],
) -> (r: Result<KeySwitchKey, LatticeError>)
    requires
        masks@.len() == q_params@.moduli.len(),
        errors@.len() == q_params@.moduli.len(),
    ensures
        match generated_key_switch_key(
            q_params@,
            modulus_values(p_moduli@),
            s_old@,
            s_new@,
            crate::lattice::rlwe::ciphertext::polys_view(masks@),
            crate::lattice::rlwe::ciphertext::polys_view(errors@),
        ) {
            Ok(v) => r matches Ok(k) && k@ == v,
            Err(e) => r matches Err(x) && x == e,
        },
{
    if p_moduli.len() == 0 {
        return Err(LatticeError::InvalidParameters("p_moduli must be non-empty"));
    }
    let q_ring = q_params.ring();
    q_ring.check_valid();
    let q_moduli = q_ring.moduli();
    let q_len = q_moduli.len();
    let ghost qv = q_params@;
    let ghost pv = modulus_values(p_moduli@);
    let ghost qpv = extended_ring(qv, pv);
    let ghost mv = crate::lattice::rlwe::ciphertext::polys_view(masks@);
    let ghost ev = crate::lattice::rlwe::ciphertext::polys_view(errors@);
    let qp_list = concat_moduli(q_moduli, p_moduli);
    let degree = match Degree::new(q_ring.degree()) {
        Ok(d) => d,
        Err(e) => {
            assert(false);
            return Err(LatticeError::Ring(e));
        },
    };
    let qp_ring = match Ring::new(degree, qp_list) {
        Ok(ring) => ring,
        Err(e) => {
            assert(false);
            return Err(LatticeError::Ring(e));
        },
    };
    assert(qp_ring@ == qpv);
    qp_ring.check_valid();
    let qp_params = RlweParams::new(qp_ring);
    ring_result(qp_params.ring().check_poly(s_old))?;
    let s_new_qp = rebase_ternary_secret(s_new, q_moduli[0], qp_params.ring())?;
    let ghost sq = s_new_qp@;
    let encryptor = Encryptor::with_secret_key(qp_params.clone(), SecretKey::new(s_new_qp));
    let qp = qp_params.ring();
    let qp_moduli = qp.moduli();
    let mut rows: Vec<Ciphertext> = Vec::with_capacity(q_len);
    let mut j: usize = 0;
    while j < q_len
        invariant
            q_len == qv.moduli.len(),
            qv == q_params@,
            pv == modulus_values(p_moduli@),
            pv.len() > 0,
            qpv == extended_ring(qv, pv),
            row_is_ternary(s_new@[0], qv.moduli[0]),
            qp@ == qpv,
            crate::ring::poly::ring_valid(qpv),
            modulus_values(qp_moduli@) == qpv.moduli,
            poly_in_ring(qpv.degree, qpv.moduli, s_old@),
            sq == rebased(s_new@[0], qv.moduli[0], qpv.moduli),
            encryptor@ == (crate::lattice::rlwe::encryptor::EncryptorView::SecretKey { ring: qpv, s: sq }),
            mv == crate::lattice::rlwe::ciphertext::polys_view(masks@),
            ev == crate::lattice::rlwe::ciphertext::polys_view(errors@),
            mv.len() == q_len,
            ev.len() == q_len,
            j <= q_len,
            samples_check(qpv, sq, mv, ev, j as int) is Ok,
            rows@.len() == j,
            forall|u: int|
                0 <= u < j ==> (#[trigger] rows@[u])@ == key_switch_row(qpv, s_old@, sq, mv[u], ev[u], u),
        decreases q_len - j,
    {
        let scale = crt_basis_constant(qp_moduli, j, qp_moduli);
        assert(scale@ =~= qp_scale(qpv.moduli, j as int));
        let scaled = match scale_poly_per_component(qp, s_old, scale.as_slice()) {
            Ok(p) => p,
            Err(e) => {
                assert(false);
                return Err(LatticeError::Ring(e));
            },
        };
        let zero = Plaintext::new(qp.zero());
        let ghost used = seq![zero@, mv[j as int], sq, ev[j as int]];
        assert(masks@[j as int]@ == mv[j as int]);
        assert(errors@[j as int]@ == ev[j as int]);
        let z = match encryptor.encrypt(&zero, &masks[j], &errors[j], &errors[j]) {
            Ok(c) => c,
            Err(x) => {
                proof {
                    let e = choose|e: RingError| x == LatticeError::Ring(e) && first_failure(qpv, used, e);
                    assert(x == LatticeError::Ring(e) && first_failure(qpv, used, e));
                    let i = choose|i: int|
                        0 <= i < used.len() && (forall|t: int|
                            0 <= t < i ==> poly_in_ring(qpv.degree, qpv.moduli, #[trigger] used[t]))
                            && #[trigger] poly_check(qpv, used[i]) == Err::<(), RingError>(e);
                    assert(poly_in_ring(qpv.degree, qpv.moduli, used[0]));
                    assert(i != 0);
                    if i == 1 {
                        assert(samples_check(qpv, sq, mv, ev, j + 1) == Err::<(), RingError>(e));
                    } else if i == 2 {
                        assert(poly_in_ring(qpv.degree, qpv.moduli, used[1]));
                        assert(samples_check(qpv, sq, mv, ev, j + 1) == Err::<(), RingError>(e));
                    } else {
                        assert(poly_in_ring(qpv.degree, qpv.moduli, used[1]));
                        assert(poly_in_ring(qpv.degree, qpv.moduli, used[2]));
                        assert(samples_check(qpv, sq, mv, ev, j + 1) == Err::<(), RingError>(e));
                    }
                    lemma_samples_check_sticks(qpv, sq, mv, ev, j + 1, q_len as int);
                }
                return Err(x);
            },
        };
        assert(z@ == sk_encryption(zero@, sq, mv[j as int], ev[j as int], qpv.moduli));
        let parts = z.into_value();
        assert(crate::lattice::rlwe::ciphertext::polys_view(parts@).len() == 2);
        assert(parts@[0]@ == z@[0] && parts@[1]@ == z@[1]);
        let mut parts = parts;
        let a_part = parts.pop().unwrap();
        let z0 = parts.pop().unwrap();
        let b_j = match qp.add(&z0, &scaled) {
            Ok(p) => p,
            Err(e) => {
                assert(false);
                return Err(LatticeError::Ring(e));
            },
        };
        let mut comps: Vec<Poly> = Vec::with_capacity(2);
        comps.push(b_j);
        comps.push(a_part);
        let row = Ciphertext::new(comps);
        assert(row@ =~= key_switch_row(qpv, s_old@, sq, mv[j as int], ev[j as int], j as int));
        rows.push(row);
        j = j + 1;
    }
    let key = KeySwitchKey { qp_params, rows };
    proof {
        let want = Seq::new(
            qv.moduli.len(),
            |u: int| key_switch_row(qpv, s_old@, rebased(s_new@[0], qv.moduli[0], qpv.moduli), mv[u], ev[u], u),
        );
        assert(rows_view(key.rows@) =~= want);
    }
    Ok(key)
}

/// A ternary row of the ring degree, re-expressed in the moduli of a ring,
/// is an element of that ring.
pub proof fn lemma_rebased_in_ring(row: Seq<u64>, q0: u64, r: RingView)
    requires
        crate::ring::poly::ring_valid(r),
        row.len() == r.degree,
        row_is_ternary(row, q0),
    ensures
        poly_in_ring(r.degree, r.moduli, rebased(row, q0, r.moduli)),
{
    let v = rebased(row, q0, r.moduli);
    assert forall|j: int, i: int| 0 <= j < v.len() && 0 <= i < v[j].len() implies #[trigger] v[j][i]
        < r.moduli[j] by {
        assert(crate::ring::arith::modulus_in_range(r.moduli[j] as int));
        assert(rebase_coefficient(row[i], q0, q0) is Some);
    }
}

} // verus!
