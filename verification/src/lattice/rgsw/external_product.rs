//! The RGSW external product `RLWE x RGSW -> RLWE`.

use vstd::prelude::*;

use crate::lattice::error::LatticeError;
use crate::lattice::rgsw::ciphertext::RgswCiphertext;
use crate::lattice::rgsw::decomposition::{
    decomposition_of, digit_poly, GadgetDecomposition, GadgetDecompositionParams,
};
use crate::lattice::rlwe::ciphertext::{first_failure, lemma_first_failure_at, polys_view, Ciphertext};
use crate::lattice::rlwe::keyswitch::rows_view;
use crate::lattice::rlwe::params::RlweParams;
use crate::ring::poly::{
    poly_add, poly_check, poly_in_ring, poly_mul, poly_zero, Poly, Ring, RingError,
    RingView, Rows,
};

verus! {

/// `init + polys[0] + ... + polys[len - 1]`, added left to right.
pub open spec fn poly_fold(init: Rows, polys: Seq<Rows>, moduli: Seq<u64>) -> Rows
    decreases polys.len(),
{
    if polys.len() == 0 {
        init
    } else {
        poly_add(poly_fold(init, polys.drop_last(), moduli), polys.last(), moduli)
    }
}

/// The digits of `p`, digit `(m, l)` at index `m*levels + l`.
pub open spec fn gadget_digits(p: Rows, base_log: u32, levels: int, moduli: Seq<u64>) -> Seq<Rows> {
    Seq::new((p.len() * levels) as nat, |k: int| digit_poly(p[k / levels], k % levels, base_log, moduli))
}

/// The number of digit rows that a block of `rows` pairs with `digits`.
pub open spec fn paired(digits: Seq<Rows>, rows: Seq<Seq<Rows>>) -> int {
    if digits.len() <= rows.len() {
        digits.len() as int
    } else {
        rows.len() as int
    }
}

/// The products `digits[k] * rows[k][c]` over the paired rows.
pub open spec fn block_products(digits: Seq<Rows>, rows: Seq<Seq<Rows>>, c: int, moduli: Seq<u64>) -> Seq<Rows> {
    Seq::new(paired(digits, rows) as nat, |k: int| poly_mul(digits[k], rows[k][c], moduli))
}

/// The row components a block uses, in order: `rows[0][0], rows[0][1],
/// rows[1][0], ...` over the paired rows.
pub open spec fn block_used(digits: Seq<Rows>, rows: Seq<Seq<Rows>>) -> Seq<Rows> {
    Seq::new((2 * paired(digits, rows)) as nat, |x: int| rows[x / 2][x % 2])
}

/// The external product of `ct` with the RGSW ciphertext `(b0, b1)`: each
/// component is the sum of the products of the digits of `ct[0]` with the
/// first block, then of the digits of `ct[1]` with the second.
pub open spec fn external_product_of(
    ct: Seq<Rows>,
    b0: Seq<Seq<Rows>>,
    b1: Seq<Seq<Rows>>,
    r: RingView,
    base_log: u32,
    levels: int,
) -> Seq<Rows> {
    let d0 = gadget_digits(ct[0], base_log, levels, r.moduli);
    let d1 = gadget_digits(ct[1], base_log, levels, r.moduli);
    let z = poly_zero(r.degree, r.moduli.len());
    seq![
        poly_fold(poly_fold(z, block_products(d0, b0, 0, r.moduli), r.moduli), block_products(d1, b1, 0, r.moduli), r.moduli),
        poly_fold(poly_fold(z, block_products(d0, b0, 1, r.moduli), r.moduli), block_products(d1, b1, 1, r.moduli), r.moduli),
    ]
}

/// The decomposition of `p` is its gadget digits.
proof fn lemma_decomposition_is_digits(p: Rows, base_log: u32, levels: int, moduli: Seq<u64>, d: Seq<Rows>)
    requires
        levels > 0,
        decomposition_of(p, base_log, levels, moduli, d),
    ensures
        d == gadget_digits(p, base_log, levels, moduli),
{
    let g = gadget_digits(p, base_log, levels, moduli);
    assert forall|k: int| 0 <= k < d.len() implies d[k] == g[k] by {
        vstd::arithmetic::div_mod::lemma_fundamental_div_mod(k, levels);
        let m = k / levels;
        let l = k % levels;
        vstd::arithmetic::mul::lemma_mul_is_commutative(m, levels);
        assert(k == m * levels + l);
        vstd::arithmetic::div_mod::lemma_div_pos_is_pos(k, levels);
        if m >= p.len() {
            vstd::arithmetic::mul::lemma_mul_inequality(p.len() as int, m, levels);
        }
        assert(d[m * levels + l] == digit_poly(p[m], l, base_log, moduli));
    }
    assert(d =~= g);
}

/// Every digit of a ring element is a ring element.
pub proof fn lemma_digits_in_ring(p: Rows, base_log: u32, levels: int, r: RingView, d: Seq<Rows>)
    requires
        levels > 0,
        crate::ring::poly::ring_valid(r),
        poly_in_ring(r.degree, r.moduli, p),
        d == gadget_digits(p, base_log, levels, r.moduli),
    ensures
        forall|k: int| 0 <= k < d.len() ==> poly_in_ring(r.degree, r.moduli, #[trigger] d[k]),
{
    assert forall|k: int| 0 <= k < d.len() implies poly_in_ring(r.degree, r.moduli, #[trigger] d[k]) by {
        vstd::arithmetic::div_mod::lemma_div_pos_is_pos(k, levels);
        vstd::arithmetic::div_mod::lemma_div_is_ordered_by_denominator(k, 1, levels);
        vstd::arithmetic::div_mod::lemma_fundamental_div_mod(k, levels);
        let m = k / levels;
        if m >= p.len() {
            vstd::arithmetic::mul::lemma_mul_inequality(p.len() as int, m, levels);
            vstd::arithmetic::mul::lemma_mul_is_commutative(m, levels);
        }
        let x = d[k];
        assert forall|j: int, i: int| 0 <= j < x.len() && 0 <= i < x[j].len() implies #[trigger] x[j][i]
            < r.moduli[j] by {
            assert(crate::ring::arith::modulus_in_range(r.moduli[j] as int));
        }
    }
}

/// Adds the products of `digits` with one block of rows onto `acc0` and
/// `acc1`.
fn accumulate_block(
    ring: &Ring,
    digits: &[Poly],
    rows: &[Ciphertext],
    acc0: Poly,
    acc1: Poly,
) -> (r: Result<(Poly, Poly), LatticeError>)
    requires
        forall|k: int| 0 <= k < digits@.len() ==> poly_in_ring(ring@.degree, ring@.moduli, #[trigger] digits@[k]@),
        forall|k: int| 0 <= k < rows@.len() ==> (#[trigger] rows@[k]@).len() >= 2,
        poly_in_ring(ring@.degree, ring@.moduli, acc0@),
        poly_in_ring(ring@.degree, ring@.moduli, acc1@),
    ensures
        ({
            let d = polys_view(digits@);
            let b = rows_view(rows@);
            let used = block_used(d, b);
            &&& r is Ok <==> forall|x: int|
                0 <= x < used.len() ==> poly_in_ring(ring@.degree, ring@.moduli, #[trigger] used[x])
            &&& r matches Err(err) ==> (err matches LatticeError::Ring(e) && first_failure(ring@, used, e))
            &&& r matches Ok((a0, a1)) ==> a0@ == poly_fold(acc0@, block_products(d, b, 0, ring@.moduli), ring@.moduli)
                && a1@ == poly_fold(acc1@, block_products(d, b, 1, ring@.moduli), ring@.moduli) && poly_in_ring(
                ring@.degree,
                ring@.moduli,
                a0@,
            ) && poly_in_ring(ring@.degree, ring@.moduli, a1@)
        }),
{
    let ghost d = polys_view(digits@);
    let ghost b = rows_view(rows@);
    let ghost used = block_used(d, b);
    let ghost p0 = block_products(d, b, 0, ring@.moduli);
    let ghost p1 = block_products(d, b, 1, ring@.moduli);
    let ghost init0 = acc0@;
    let ghost init1 = acc1@;
    let n = if digits.len() <= rows.len() {
        digits.len()
    } else {
        rows.len()
    };
    let mut a0 = acc0;
    let mut a1 = acc1;
    let mut k: usize = 0;
    while k < n
        invariant
            d == polys_view(digits@),
            b == rows_view(rows@),
            used == block_used(d, b),
            p0 == block_products(d, b, 0, ring@.moduli),
            p1 == block_products(d, b, 1, ring@.moduli),
            n == paired(d, b),
            forall|t: int| 0 <= t < digits@.len() ==> poly_in_ring(ring@.degree, ring@.moduli, #[trigger] digits@[t]@),
            forall|t: int| 0 <= t < rows@.len() ==> (#[trigger] rows@[t]@).len() >= 2,
            k <= n,
            forall|x: int| 0 <= x < 2 * k ==> poly_in_ring(ring@.degree, ring@.moduli, #[trigger] used[x]),
            a0@ == poly_fold(init0, p0.take(k as int), ring@.moduli),
            a1@ == poly_fold(init1, p1.take(k as int), ring@.moduli),
            poly_in_ring(ring@.degree, ring@.moduli, a0@),
            poly_in_ring(ring@.degree, ring@.moduli, a1@),
        decreases n - k,
    {
        let row = rows[k].value();
        assert(polys_view(row@) == b[k as int]);
        assert(row@[0]@ == b[k as int][0]);
        assert(row@[1]@ == b[k as int][1]);
        assert(digits@[k as int]@ == d[k as int]);
        assert(used[2 * k] == b[k as int][0]);
        assert(used[2 * k + 1] == b[k as int][1]);
        let t0 = match ring.mul(&digits[k], &row[0]) {
            Ok(p) => p,
            Err(e) => {
                proof {
                    lemma_first_failure_at(ring@, used, 2 * k, e);
                }
                return Err(LatticeError::Ring(e));
            },
        };
        let t1 = match ring.mul(&digits[k], &row[1]) {
            Ok(p) => p,
            Err(e) => {
                proof {
                    lemma_first_failure_at(ring@, used, 2 * k + 1, e);
                }
                return Err(LatticeError::Ring(e));
            },
        };
        proof {
            assert(p0.take(k + 1).drop_last() =~= p0.take(k as int));
            assert(p1.take(k + 1).drop_last() =~= p1.take(k as int));
        }
        a0 = match ring.add(&a0, &t0) {
            Ok(p) => p,
            Err(e) => {
                return Err(LatticeError::Ring(e));
            },
        };
        a1 = match ring.add(&a1, &t1) {
            Ok(p) => p,
            Err(e) => {
                return Err(LatticeError::Ring(e));
            },
        };
        k = k + 1;
    }
    assert(p0.take(n as int) =~= p0);
    assert(p1.take(n as int) =~= p1);
    Ok((a0, a1))
}

/// The external product of the RLWE ciphertext `ct` with `rgsw`: the digits
/// of `ct[0]` against the first block and of `ct[1]` against the second,
/// summed per component. Both components of `ct` and every row component
/// used must be ring elements; the error names the first that is not, in
/// the order `ct[0], ct[1]`, then the rows of the first block, then those of
/// the second.
pub fn external_product(
    params: &RlweParams,
    decomposition_params: GadgetDecompositionParams,
    ct: &Ciphertext,
    rgsw: &RgswCiphertext,
) -> (r: Result<Ciphertext, LatticeError>)
    requires
        ct@.len() >= 2,
        (decomposition_params@.1 - 1) * decomposition_params@.0 < 64,
        forall|k: int| 0 <= k < rgsw@.0.len() ==> (#[trigger] rgsw@.0[k]).len() >= 2,
        forall|k: int| 0 <= k < rgsw@.1.len() ==> (#[trigger] rgsw@.1[k]).len() >= 2,
    ensures
        ({
            let ring = params@;
            let levels = decomposition_params@.1 as int;
            let b = decomposition_params@.0;
            let d0 = gadget_digits(ct@[0], b, levels, ring.moduli);
            let d1 = gadget_digits(ct@[1], b, levels, ring.moduli);
            let used = seq![ct@[0], ct@[1]] + block_used(d0, rgsw@.0) + block_used(d1, rgsw@.1);
            &&& r is Ok <==> forall|x: int|
                0 <= x < used.len() ==> poly_in_ring(ring.degree, ring.moduli, #[trigger] used[x])
            &&& r matches Err(err) ==> (err matches LatticeError::Ring(e) && first_failure(ring, used, e))
            &&& r matches Ok(out) ==> out@ == external_product_of(ct@, rgsw@.0, rgsw@.1, ring, b, levels)
        }),
{
    let ring = params.ring();
    ring.check_valid();
    let ghost rv = ring@;
    let comps = ct.value();
    assert(comps@[0]@ == ct@[0]);
    assert(comps@[1]@ == ct@[1]);
    let levels = decomposition_params.levels();
    let ghost bl = decomposition_params@.0;
    let ghost d0 = gadget_digits(ct@[0], bl, levels as int, rv.moduli);
    let ghost d1 = gadget_digits(ct@[1], bl, levels as int, rv.moduli);
    let ghost u0 = block_used(d0, rgsw@.0);
    let ghost u1 = block_used(d1, rgsw@.1);
    let ghost used = seq![ct@[0], ct@[1]] + u0 + u1;
    if let Err(e) = ring.check_poly(&comps[0]) {
        proof {
            lemma_first_failure_at(rv, used, 0, e);
        }
        return Err(LatticeError::Ring(e));
    }
    if let Err(e) = ring.check_poly(&comps[1]) {
        proof {
            lemma_first_failure_at(rv, used, 1, e);
        }
        return Err(LatticeError::Ring(e));
    }
    let moduli = ring.moduli();
    let dec0 = match GadgetDecomposition::decompose(&comps[0], decomposition_params, moduli) {
        Ok(d) => d,
        Err(e) => {
            return Err(e);
        },
    };
    let dec1 = match GadgetDecomposition::decompose(&comps[1], decomposition_params, moduli) {
        Ok(d) => d,
        Err(e) => {
            return Err(e);
        },
    };
    proof {
        lemma_decomposition_is_digits(ct@[0], bl, levels as int, rv.moduli, dec0@.2);
        lemma_decomposition_is_digits(ct@[1], bl, levels as int, rv.moduli, dec1@.2);
        lemma_digits_in_ring(ct@[0], bl, levels as int, rv, d0);
        lemma_digits_in_ring(ct@[1], bl, levels as int, rv, d1);
    }
    let digits0 = dec0.digits();
    let digits1 = dec1.digits();
    assert forall|k: int| 0 <= k < digits0@.len() implies poly_in_ring(rv.degree, rv.moduli, #[trigger] digits0@[k]@) by {
        assert(digits0@[k]@ == d0[k]);
    }
    assert forall|k: int| 0 <= k < digits1@.len() implies poly_in_ring(rv.degree, rv.moduli, #[trigger] digits1@[k]@) by {
        assert(digits1@[k]@ == d1[k]);
    }
    let blocks = rgsw.rows();
    assert forall|k: int| 0 <= k < blocks@[0]@.len() implies (#[trigger] blocks@[0]@[k]@).len() >= 2 by {
        assert(blocks@[0]@[k]@ == rgsw@.0[k]);
    }
    assert forall|k: int| 0 <= k < blocks@[1]@.len() implies (#[trigger] blocks@[1]@[k]@).len() >= 2 by {
        assert(blocks@[1]@[k]@ == rgsw@.1[k]);
    }
    let z0 = ring.zero();
    let z1 = ring.zero();
    let (a0, a1) = match accumulate_block(ring, digits0, blocks[0].as_slice(), z0, z1) {
        Ok(p) => p,
        Err(err) => {
            proof {
                if let LatticeError::Ring(e) = err {
                    let x = choose|x: int|
                        0 <= x < u0.len() && (forall|t: int|
                            0 <= t < x ==> poly_in_ring(rv.degree, rv.moduli, #[trigger] u0[t])) && #[trigger] poly_check(
                            rv,
                            u0[x],
                        ) == Err::<(), RingError>(e);
                    assert(used[2 + x] == u0[x]);
                    assert forall|t: int| 0 <= t < 2 + x implies poly_in_ring(rv.degree, rv.moduli, #[trigger] used[t]) by {
                        if t >= 2 {
                            assert(used[t] == u0[t - 2]);
                        }
                    }
                    lemma_first_failure_at(rv, used, 2 + x, e);
                }
            }
            return Err(err);
        },
    };
    let (b0, b1) = match accumulate_block(ring, digits1, blocks[1].as_slice(), a0, a1) {
        Ok(p) => p,
        Err(err) => {
            proof {
                if let LatticeError::Ring(e) = err {
                    let x = choose|x: int|
                        0 <= x < u1.len() && (forall|t: int|
                            0 <= t < x ==> poly_in_ring(rv.degree, rv.moduli, #[trigger] u1[t])) && #[trigger] poly_check(
                            rv,
                            u1[x],
                        ) == Err::<(), RingError>(e);
                    let off = 2 + u0.len();
                    assert(used[off + x] == u1[x]);
                    assert forall|t: int| 0 <= t < off + x implies poly_in_ring(rv.degree, rv.moduli, #[trigger] used[t]) by {
                        if 2 <= t < off {
                            assert(used[t] == u0[t - 2]);
                        } else if t >= off {
                            assert(used[t] == u1[t - off]);
                        }
                    }
                    lemma_first_failure_at(rv, used, off + x, e);
                }
            }
            return Err(err);
        },
    };
    let mut v: Vec<Poly> = Vec::with_capacity(2);
    v.push(b0);
    v.push(b1);
    let out = Ciphertext::new(v);
    proof {
        assert(polys_view(digits0@) == d0);
        assert(polys_view(digits1@) == d1);
        assert(rows_view(blocks@[0]@) == rgsw@.0);
        assert(rows_view(blocks@[1]@) == rgsw@.1);
        assert(out@ =~= external_product_of(ct@, rgsw@.0, rgsw@.1, rv, bl, levels as int));
        assert forall|x: int| 0 <= x < used.len() implies poly_in_ring(rv.degree, rv.moduli, #[trigger] used[x]) by {
            if x >= 2 && x < 2 + u0.len() {
                assert(used[x] == u0[x - 2]);
            } else if x >= 2 + u0.len() {
                assert(used[x] == u1[x - 2 - u0.len()]);
            }
        }
    }
    Ok(out)
}

} // verus!
