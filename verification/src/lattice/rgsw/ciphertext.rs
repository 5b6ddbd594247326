//! RGSW ciphertexts.
//!
//! An RGSW encryption of `m` under `s` is two blocks of RLWE ciphertexts,
//! one row per gadget digit `(q_j, level)`: the first block encrypts the
//! gadget multiples of `m`, the second those of `s*m`.

use vstd::prelude::*;

use crate::lattice::error::LatticeError;
use crate::lattice::rgsw::decomposition::{digit_scale, level_weight, GadgetDecompositionParams};
use crate::lattice::rgsw::key::RgswKey;
use crate::lattice::rlwe::ciphertext::{polys_view, Ciphertext};
use crate::lattice::rlwe::keyswitch::{rows_view, scale_poly_per_component};
use crate::lattice::rlwe::params::RlweParams;
use crate::ring::arith::mul_mod;
use crate::ring::poly::{modulus_values, poly_add, poly_in_ring, poly_mul, poly_scale_rows, Modulus, Poly, Rows};
use crate::ring::rns::{crt_lift, crt_lift_constant};

verus! {

/// The gadget scales of digit `(m, l)`, one per modulus.
pub open spec fn scale_vector(moduli: Seq<u64>, m: int, l: int, base_log: u32) -> Seq<u64> {
    Seq::new(moduli.len(), |j: int| digit_scale(moduli, m, l, base_log, j) as u64)
}

/// The row for digit `(m, l)`: the encryption of zero `mask` with the gadget
/// multiple of `p` added to its first component.
pub open spec fn gadget_row(mask: Seq<Rows>, p: Rows, moduli: Seq<u64>, m: int, l: int, base_log: u32) -> Seq<Rows> {
    seq![poly_add(mask[0], poly_scale_rows(p, scale_vector(moduli, m, l, base_log), moduli), moduli), mask[1]]
}

/// An RGSW ciphertext: two blocks of RLWE ciphertexts.
#[derive(Debug)]
pub struct RgswCiphertext {
    rows: [Vec<Ciphertext>; 2],
}

impl View for RgswCiphertext {
    type V = (Seq<Seq<Rows>>, Seq<Seq<Rows>>);

    closed spec fn view(&self) -> (Seq<Seq<Rows>>, Seq<Seq<Rows>>) {
        (rows_view(self.rows@[0]@), rows_view(self.rows@[1]@))
    }
}

/// The gadget scales of digit `(m, l)` given the CRT lift constants of `q_m`.
fn gadget_scales(moduli: &[Modulus], m: usize, l: usize, lift: &Vec<u64>, base_log: u32) -> (r: Vec<u64>)
    requires
        m < moduli@.len(),
        lift@.len() == moduli@.len(),
        forall|j: int| 0 <= j < moduli@.len() ==> #[trigger] lift@[j] == crt_lift(modulus_values(moduli@), m as int, moduli@[j]@),
        l * base_log < 128,
    ensures
        r@ == scale_vector(modulus_values(moduli@), m as int, l as int, base_log),
{
    let ghost mv = modulus_values(moduli@);
    proof {
        vstd::arithmetic::mul::lemma_mul_nonnegative(l as int, base_log as int);
        if base_log > 0 {
            vstd::arithmetic::mul::lemma_mul_inequality(1, base_log as int, l as int);
        }
    }
    let shift: u32 = if base_log == 0 { 0 } else { (l as u32) * base_log };
    assert(shift == l * base_log);
    let mut out: Vec<u64> = Vec::with_capacity(moduli.len());
    let mut j: usize = 0;
    while j < moduli.len()
        invariant
            mv == modulus_values(moduli@),
            lift@.len() == moduli@.len(),
            forall|jj: int| 0 <= jj < moduli@.len() ==> #[trigger] lift@[jj] == crt_lift(mv, m as int, moduli@[jj]@),
            shift == l * base_log,
            shift < 128,
            j <= moduli@.len(),
            out@.len() == j,
            forall|jj: int| 0 <= jj < j ==> #[trigger] out@[jj] == digit_scale(mv, m as int, l as int, base_log, jj) as u64,
        decreases moduli@.len() - j,
    {
        let q = moduli[j].value();
        assert(q == mv[j as int]);
        let weight = ((1u128 << shift) % (q as u128)) as u64;
        assert(weight == level_weight(l as int, base_log, q));
        out.push(mul_mod(weight, lift[j], q));
        j = j + 1;
    }
    assert(out@ =~= scale_vector(mv, m as int, l as int, base_log));
    out
}

/// The first `m` digit rows of every modulus, and the first `l` of
/// modulus `m`, are the gadget rows of `p` over `masks`.
pub open spec fn block_prefix(
    block: Seq<Seq<Rows>>,
    masks: Seq<Seq<Rows>>,
    p: Rows,
    mv: Seq<u64>,
    levels: int,
    b: u32,
    m: int,
    l: int,
) -> bool {
    &&& forall|mi: int, ll: int|
        0 <= mi < m && 0 <= ll < levels ==> #[trigger] block[mi * levels + ll] == gadget_row(
            masks[mi * levels + ll],
            p,
            mv,
            mi,
            ll,
            b,
        )
    &&& forall|ll: int|
        0 <= ll < l ==> #[trigger] block[m * levels + ll] == gadget_row(masks[m * levels + ll], p, mv, m, ll, b)
}

proof fn lemma_block_push(
    block: Seq<Seq<Rows>>,
    masks: Seq<Seq<Rows>>,
    p: Rows,
    mv: Seq<u64>,
    levels: int,
    b: u32,
    m: int,
    l: int,
    row: Seq<Rows>,
)
    requires
        0 <= m,
        0 <= l < levels,
        block.len() == m * levels + l,
        block_prefix(block, masks, p, mv, levels, b, m, l),
        row == gadget_row(masks[m * levels + l], p, mv, m, l, b),
    ensures
        block_prefix(block.push(row), masks, p, mv, levels, b, m, l + 1),
{
    let nb = block.push(row);
    assert forall|mi: int, ll: int| 0 <= mi < m && 0 <= ll < levels implies #[trigger] nb[mi * levels + ll]
        == gadget_row(masks[mi * levels + ll], p, mv, mi, ll, b) by {
        crate::lattice::rgsw::decomposition::lemma_digit_index(mi, ll, m, levels);
    }
    assert forall|ll: int| 0 <= ll < l + 1 implies #[trigger] nb[m * levels + ll] == gadget_row(
        masks[m * levels + ll],
        p,
        mv,
        m,
        ll,
        b,
    ) by {
        vstd::arithmetic::mul::lemma_mul_nonnegative(m, levels);
    }
}

proof fn lemma_block_next(
    block: Seq<Seq<Rows>>,
    masks: Seq<Seq<Rows>>,
    p: Rows,
    mv: Seq<u64>,
    levels: int,
    b: u32,
    m: int,
)
    requires
        block_prefix(block, masks, p, mv, levels, b, m, levels),
    ensures
        block_prefix(block, masks, p, mv, levels, b, m + 1, 0),
{
    assert forall|mi: int, ll: int| 0 <= mi < m + 1 && 0 <= ll < levels implies #[trigger] block[mi * levels + ll]
        == gadget_row(masks[mi * levels + ll], p, mv, mi, ll, b) by {
        if mi == m {
        }
    }
}

impl RgswCiphertext {
    /// Returns the two blocks of rows.
    pub fn rows(&self) -> (r: &[Vec<Ciphertext>; 2])
        ensures
            rows_view(r@[0]@) == self@.0,
            rows_view(r@[1]@) == self@.1,
    {
        &self.rows
    }

    /// Encrypts `message` under `key` from sampled encryptions of zero:
    /// `m_masks[k]` and `sm_masks[k]` for digit `k = m*levels + l`, each an
    /// RLWE ciphertext of two components. Row `k` of the first block is
    /// `m_masks[k]` with the gadget multiple of `message` added to its first
    /// component; row `k` of the second block likewise with `s*message`.
    pub fn encrypt(
        params: &RlweParams,
        message: &Poly,
        key: &RgswKey,
        decomposition_params: GadgetDecompositionParams,
        m_masks: &[Ciphertext],
        sm_masks: &[Ciphertext],
    ) -> (r: Result<Self, LatticeError>)
        requires
            (decomposition_params@.1 - 1) * decomposition_params@.0 < 128,
        ensures
            ({
                let ring = params@;
                let mv = ring.moduli;
                let levels = decomposition_params@.1 as int;
                let b = decomposition_params@.0;
                let total = mv.len() * levels;
                let mm = rows_view(m_masks@);
                let sm = rows_view(sm_masks@);
                let shaped = mm.len() == total && sm.len() == total && (forall|k: int|
                    0 <= k < total ==> (#[trigger] mm[k]).len() == 2) && (forall|k: int|
                    0 <= k < total ==> (#[trigger] sm[k]).len() == 2);
                let ok = |p: Rows| poly_in_ring(ring.degree, mv, p);
                let inputs_ok = ok(message@) && ok(key@) && (forall|k: int|
                    0 <= k < total ==> ok(#[trigger] mm[k][0])) && (forall|k: int|
                    0 <= k < total ==> ok(#[trigger] sm[k][0]));
                &&& !shaped ==> (r matches Err(LatticeError::DimensionMismatch))
                &&& shaped && !inputs_ok ==> (r matches Err(LatticeError::Ring(_)))
                &&& shaped && inputs_ok ==> (r matches Ok(ct) && ct@.0.len() == total && ct@.1.len() == total
                    && forall|m: int, l: int|
                    0 <= m < mv.len() && 0 <= l < levels ==> #[trigger] ct@.0[m * levels + l] == gadget_row(
                        mm[m * levels + l],
                        message@,
                        mv,
                        m,
                        l,
                        b,
                    ) && ct@.1[m * levels + l] == gadget_row(
                        sm[m * levels + l],
                        poly_mul(key@, message@, mv),
                        mv,
                        m,
                        l,
                        b,
                    ))
            }),
    {
        let ring = params.ring();
        ring.check_valid();
        let moduli = ring.moduli();
        let ghost mv = modulus_values(moduli@);
        let count = moduli.len();
        let levels = decomposition_params.levels();
        let base_log = decomposition_params.base_log();
        let ghost mm = rows_view(m_masks@);
        let ghost sm = rows_view(sm_masks@);
        proof {
            vstd::arithmetic::mul::lemma_mul_inequality(1, count as int, levels as int);
        }
        if m_masks.len() / levels != count || m_masks.len() % levels != 0 || sm_masks.len() != m_masks.len() {
            proof {
                vstd::arithmetic::div_mod::lemma_fundamental_div_mod(m_masks@.len() as int, levels as int);
                if m_masks@.len() == count * levels {
                    vstd::arithmetic::div_mod::lemma_fundamental_div_mod_converse(
                        m_masks@.len() as int,
                        levels as int,
                        count as int,
                        0,
                    );
                }
            }
            return Err(LatticeError::DimensionMismatch);
        }
        proof {
            vstd::arithmetic::div_mod::lemma_fundamental_div_mod(m_masks@.len() as int, levels as int);
            vstd::arithmetic::mul::lemma_mul_is_commutative(count as int, levels as int);
        }
        let total = m_masks.len();
        assert(total == count * levels);
        let mut k: usize = 0;
        while k < total
            invariant
                mm == rows_view(m_masks@),
                sm == rows_view(sm_masks@),
                total == m_masks@.len(),
                total == sm_masks@.len(),
                k <= total,
                forall|t: int| 0 <= t < k ==> (#[trigger] mm[t]).len() == 2,
                forall|t: int| 0 <= t < k ==> (#[trigger] sm[t]).len() == 2,
            decreases total - k,
        {
            assert(mm[k as int] == m_masks@[k as int]@);
            assert(sm[k as int] == sm_masks@[k as int]@);
            let zk = m_masks[k].value();
            let zsk = sm_masks[k].value();
            assert(crate::lattice::rlwe::ciphertext::polys_view(zk@).len() == zk@.len());
            assert(crate::lattice::rlwe::ciphertext::polys_view(zsk@).len() == zsk@.len());
            if zk.len() != 2 || zsk.len() != 2 {
                return Err(LatticeError::DimensionMismatch);
            }
            assert(polys_view(zk@) == m_masks@[k as int]@);
            assert(mm[k as int].len() == 2);
            assert(sm[k as int].len() == 2);
            k = k + 1;
        }
        if let Err(e) = ring.check_poly(message) {
            return Err(LatticeError::Ring(e));
        }
        let s_times_m = match ring.mul(key.secret().value(), message) {
            Ok(p) => p,
            Err(e) => {
                return Err(LatticeError::Ring(e));
            },
        };
        let mut m_block: Vec<Ciphertext> = Vec::with_capacity(total);
        let mut sm_block: Vec<Ciphertext> = Vec::with_capacity(total);
        let ghost sm_msg = poly_mul(key@, message@, mv);
        let mut m: usize = 0;
        while m < count
            invariant
                ring@ == params@,
                crate::ring::poly::ring_valid(ring@),
                mv == modulus_values(moduli@),
                mv == ring@.moduli,
                count == moduli@.len(),
                levels == decomposition_params@.1,
                base_log == decomposition_params@.0,
                levels > 0,
                (levels - 1) * base_log < 128,
                total == count * levels,
                mm == rows_view(m_masks@),
                sm == rows_view(sm_masks@),
                total == m_masks@.len(),
                total == sm_masks@.len(),
                forall|t: int| 0 <= t < total ==> (#[trigger] mm[t]).len() == 2,
                forall|t: int| 0 <= t < total ==> (#[trigger] sm[t]).len() == 2,
                poly_in_ring(ring@.degree, mv, message@),
                sm_msg == poly_mul(key@, message@, mv),
                s_times_m@ == sm_msg,
                poly_in_ring(ring@.degree, mv, s_times_m@),
                m <= count,
                m_block@.len() == m * levels,
                sm_block@.len() == m * levels,
                forall|t: int| 0 <= t < m * levels ==> poly_in_ring(ring@.degree, mv, #[trigger] mm[t][0]),
                forall|t: int| 0 <= t < m * levels ==> poly_in_ring(ring@.degree, mv, #[trigger] sm[t][0]),
                block_prefix(rows_view(m_block@), mm, message@, mv, levels as int, base_log, m as int, 0),
                block_prefix(rows_view(sm_block@), sm, sm_msg, mv, levels as int, base_log, m as int, 0),
            decreases count - m,
        {
            let lift = crt_lift_constant(moduli, m, moduli);
            let mut l: usize = 0;
            while l < levels
                invariant
                    ring@ == params@,
                    crate::ring::poly::ring_valid(ring@),
                    mv == modulus_values(moduli@),
                    mv == ring@.moduli,
                    count == moduli@.len(),
                    levels == decomposition_params@.1,
                    base_log == decomposition_params@.0,
                    levels > 0,
                    (levels - 1) * base_log < 128,
                    total == count * levels,
                    mm == rows_view(m_masks@),
                    sm == rows_view(sm_masks@),
                    total == m_masks@.len(),
                    total == sm_masks@.len(),
                    forall|t: int| 0 <= t < total ==> (#[trigger] mm[t]).len() == 2,
                    forall|t: int| 0 <= t < total ==> (#[trigger] sm[t]).len() == 2,
                    poly_in_ring(ring@.degree, mv, message@),
                    sm_msg == poly_mul(key@, message@, mv),
                    s_times_m@ == sm_msg,
                    poly_in_ring(ring@.degree, mv, s_times_m@),
                    lift@.len() == count,
                    forall|j: int| 0 <= j < count ==> #[trigger] lift@[j] == crt_lift(mv, m as int, moduli@[j]@),
                    m < count,
                    l <= levels,
                    m_block@.len() == m * levels + l,
                    sm_block@.len() == m * levels + l,
                    forall|t: int| 0 <= t < m * levels + l ==> poly_in_ring(ring@.degree, mv, #[trigger] mm[t][0]),
                    forall|t: int| 0 <= t < m * levels + l ==> poly_in_ring(ring@.degree, mv, #[trigger] sm[t][0]),
                    block_prefix(rows_view(m_block@), mm, message@, mv, levels as int, base_log, m as int, l as int),
                    block_prefix(rows_view(sm_block@), sm, sm_msg, mv, levels as int, base_log, m as int, l as int),
                decreases levels - l,
            {
                proof {
                    vstd::arithmetic::mul::lemma_mul_inequality(l as int, (levels - 1) as int, base_log as int);
                    crate::lattice::rgsw::decomposition::lemma_digit_index(m as int, l as int, count as int, levels as int);
                }
                let idx = m * levels + l;
                let scales = gadget_scales(moduli, m, l, &lift, base_log);
                let scaled_m = match scale_poly_per_component(ring, message, scales.as_slice()) {
                    Ok(p) => p,
                    Err(e) => {
                        return Err(LatticeError::Ring(e));
                    },
                };
                let scaled_sm = match scale_poly_per_component(ring, &s_times_m, scales.as_slice()) {
                    Ok(p) => p,
                    Err(e) => {
                        return Err(LatticeError::Ring(e));
                    },
                };
                let z = m_masks[idx].value();
                assert(polys_view(z@) == mm[idx as int]);
                assert(z@[0]@ == mm[idx as int][0]);
                assert(z@[1]@ == mm[idx as int][1]);
                let c0_m = match ring.add(&z[0], &scaled_m) {
                    Ok(p) => p,
                    Err(e) => {
                        return Err(LatticeError::Ring(e));
                    },
                };
                let zp = sm_masks[idx].value();
                assert(polys_view(zp@) == sm[idx as int]);
                assert(zp@[0]@ == sm[idx as int][0]);
                assert(zp@[1]@ == sm[idx as int][1]);
                let c0_sm = match ring.add(&zp[0], &scaled_sm) {
                    Ok(p) => p,
                    Err(e) => {
                        return Err(LatticeError::Ring(e));
                    },
                };
                let mut row_m: Vec<Poly> = Vec::with_capacity(2);
                row_m.push(c0_m);
                row_m.push(z[1].clone());
                let mut row_sm: Vec<Poly> = Vec::with_capacity(2);
                row_sm.push(c0_sm);
                row_sm.push(zp[1].clone());
                let ct_m = Ciphertext::new(row_m);
                let ct_sm = Ciphertext::new(row_sm);
                assert(ct_m@ =~= gadget_row(mm[idx as int], message@, mv, m as int, l as int, base_log));
                assert(ct_sm@ =~= gadget_row(sm[idx as int], sm_msg, mv, m as int, l as int, base_log));
                proof {
                    lemma_block_push(
                        rows_view(m_block@),
                        mm,
                        message@,
                        mv,
                        levels as int,
                        base_log,
                        m as int,
                        l as int,
                        ct_m@,
                    );
                    lemma_block_push(
                        rows_view(sm_block@),
                        sm,
                        sm_msg,
                        mv,
                        levels as int,
                        base_log,
                        m as int,
                        l as int,
                        ct_sm@,
                    );
                }
                let ghost before_m = m_block@;
                let ghost before_sm = sm_block@;
                m_block.push(ct_m);
                sm_block.push(ct_sm);
                proof {
                    assert(rows_view(m_block@) =~= rows_view(before_m).push(ct_m@));
                    assert(rows_view(sm_block@) =~= rows_view(before_sm).push(ct_sm@));
                    assert(poly_in_ring(ring@.degree, mv, mm[idx as int][0]));
                    assert(poly_in_ring(ring@.degree, mv, sm[idx as int][0]));
                }
                l = l + 1;
            }
            proof {
                vstd::arithmetic::mul::lemma_mul_is_distributive_add_other_way(levels as int, m as int, 1);
                lemma_block_next(rows_view(m_block@), mm, message@, mv, levels as int, base_log, m as int);
                lemma_block_next(rows_view(sm_block@), sm, sm_msg, mv, levels as int, base_log, m as int);
            }
            m = m + 1;
        }
        let out = RgswCiphertext { rows: [m_block, sm_block] };
        proof {
            assert(out@.0 == rows_view(m_block@));
            assert(out@.1 == rows_view(sm_block@));
            assert forall|mi: int, l: int| 0 <= mi < count && 0 <= l < levels implies #[trigger] out@.0[mi * levels + l]
                == gadget_row(mm[mi * levels + l], message@, mv, mi, l, base_log) && out@.1[mi * levels + l]
                == gadget_row(sm[mi * levels + l], sm_msg, mv, mi, l, base_log) by {
                assert(rows_view(sm_block@)[mi * levels + l] == gadget_row(sm[mi * levels + l], sm_msg, mv, mi, l, base_log));
            }
        }
        Ok(out)
    }
}

} // verus!
