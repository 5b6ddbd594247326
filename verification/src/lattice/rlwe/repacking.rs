//! Packing several ciphertexts into one by monomial shifts.

use vstd::prelude::*;

use crate::lattice::error::{ring_result, LatticeError};
use crate::lattice::rlwe::ciphertext::{
    check_components, components_in_ring, first_failure, polys_view, Ciphertext,
};
use crate::ring::poly::{poly_add, poly_in_ring, poly_mul, poly_zero, Poly, Ring, RingView, Rows};

verus! {

/// The monomial `X^e` in every modulus.
pub open spec fn monomial_rows(degree: nat, count: nat, e: int) -> Rows {
    Seq::new(count, |j: int| Seq::new(degree, |i: int| if i == e { 1u64 } else { 0u64 }))
}

/// The views of a sequence of ciphertexts.
pub open spec fn ciphertexts_view(cts: Seq<Ciphertext>) -> Seq<Seq<Rows>> {
    cts.map_values(|c: Ciphertext| c@)
}

/// `sum_{i < m} (c_i[j] * X^i)[t][k]`, before the final reduction.
pub open spec fn packed_sum(cts: Seq<Seq<Rows>>, r: RingView, j: int, t: int, k: int, m: int) -> int
    decreases m,
{
    if m <= 0 {
        0
    } else {
        packed_sum(cts, r, j, t, k, m - 1) + poly_mul(
            cts[m - 1][j],
            monomial_rows(r.degree, r.moduli.len(), m - 1),
            r.moduli,
        )[t][k] as int
    }
}

/// The packing of `cts`: component `j` is `sum_i c_i[j] * X^i`.
pub open spec fn packed(cts: Seq<Seq<Rows>>, r: RingView, shape: nat) -> Seq<Rows> {
    Seq::new(
        shape,
        |j: int|
            Seq::new(
                r.moduli.len(),
                |t: int|
                    Seq::new(
                        r.degree,
                        |k: int| (packed_sum(cts, r, j, t, k, cts.len() as int) % (r.moduli[t] as int)) as u64,
                    ),
            ),
    )
}

/// A ciphertext that packing accepts: `shape` components, each a ring
/// element.
pub open spec fn packable(r: RingView, c: Seq<Rows>, shape: nat) -> bool {
    c.len() == shape && components_in_ring(r, c)
}

/// `err` is what packing reports when `c` is the first ciphertext it
/// refuses: `DimensionMismatch` on a wrong component count, else the ring
/// error of its first bad component.
pub open spec fn packing_error(r: RingView, c: Seq<Rows>, shape: nat, err: LatticeError) -> bool {
    if c.len() != shape {
        err == LatticeError::DimensionMismatch
    } else {
        err matches LatticeError::Ring(e) && first_failure(r, c, e)
    }
}

/// The accumulator holds the first `m` ciphertexts packed.
spec fn pack_progress(acc: Seq<Rows>, cts: Seq<Seq<Rows>>, r: RingView, m: int, j_done: int) -> bool {
    forall|j: int, t: int, k: int|
        0 <= j < acc.len() && 0 <= t < r.moduli.len() && 0 <= k < r.degree ==> #[trigger] acc[j][t][k]
            == (packed_sum(cts, r, j, t, k, if j < j_done {
            m + 1
        } else {
            m
        }) % (r.moduli[t] as int)) as u64
}

proof fn lemma_pack_step(acc: Seq<Rows>, next: Seq<Rows>, cts: Seq<Seq<Rows>>, r: RingView, m: int, j: int)
    requires
        0 <= m < cts.len(),
        0 <= j < acc.len(),
        forall|t: int| 0 <= t < r.moduli.len() ==> (#[trigger] r.moduli[t]) > 1,
        pack_progress(acc, cts, r, m, j),
        next == acc.update(
            j,
            poly_add(
                acc[j],
                poly_mul(cts[m][j], monomial_rows(r.degree, r.moduli.len(), m), r.moduli),
                r.moduli,
            ),
        ),
        components_in_ring(r, acc),
        poly_in_ring(r.degree, r.moduli, cts[m][j]),
    ensures
        pack_progress(next, cts, r, m, j + 1),
{
    assert forall|jj: int, t: int, k: int|
        0 <= jj < next.len() && 0 <= t < r.moduli.len() && 0 <= k < r.degree implies #[trigger] next[jj][t][k]
            == (packed_sum(cts, r, jj, t, k, if jj < j + 1 {
            m + 1
        } else {
            m
        }) % (r.moduli[t] as int)) as u64 by {
        let q = r.moduli[t] as int;
        assert(q > 1);
        if jj == j {
            let x = packed_sum(cts, r, jj, t, k, m);
            let p = poly_mul(cts[m][j], monomial_rows(r.degree, r.moduli.len(), m), r.moduli)[t][k] as int;
            assert(packed_sum(cts, r, jj, t, k, m + 1) == x + p);
            assert(0 <= x % q < q);
            assert(acc[jj][t][k] as int == x % q);
            assert(((x % q) + p) % q == (x + p) % q) by {
                vstd::arithmetic::div_mod::lemma_add_mod_noop_right(x % q, p, q);
                vstd::arithmetic::div_mod::lemma_add_mod_noop(x, p, q);
                vstd::arithmetic::div_mod::lemma_mod_twice(x, q);
            }
        } else {
            assert(next[jj] == acc[jj]);
        }
    }
}

/// `count` zero polynomials.
fn zeros(ring: &Ring, count: usize) -> (r: Vec<Poly>)
    ensures
        polys_view(r@) == Seq::new(count as nat, |i: int| poly_zero(ring@.degree, ring@.moduli.len())),
        components_in_ring(ring@, polys_view(r@)),
{
    let mut out: Vec<Poly> = Vec::with_capacity(count);
    let mut i: usize = 0;
    while i < count
        invariant
            i <= count,
            out@.len() == i,
            forall|t: int|
                0 <= t < i ==> (#[trigger] out@[t])@ == poly_zero(ring@.degree, ring@.moduli.len())
                    && poly_in_ring(ring@.degree, ring@.moduli, out@[t]@),
        decreases count - i,
    {
        out.push(ring.zero());
        i = i + 1;
    }
    assert(polys_view(out@) =~= Seq::new(count as nat, |i: int| poly_zero(ring@.degree, ring@.moduli.len())));
    out
}

/// `X^exponent` in every modulus of `ring`.
fn monomial(ring: &Ring, exponent: usize) -> (r: Poly)
    requires
        exponent < ring@.degree,
    ensures
        r@ == monomial_rows(ring@.degree, ring@.moduli.len(), exponent as int),
        poly_in_ring(ring@.degree, ring@.moduli, r@),
{
    ring.check_valid();
    let n = ring.degree();
    let count = ring.moduli().len();
    let ghost want = monomial_rows(ring@.degree, ring@.moduli.len(), exponent as int);
    let mut rows: Vec<Vec<u64>> = Vec::with_capacity(count);
    let mut j: usize = 0;
    while j < count
        invariant
            n == ring@.degree,
            count == ring@.moduli.len(),
            exponent < n,
            want == monomial_rows(ring@.degree, ring@.moduli.len(), exponent as int),
            j <= count,
            rows@.len() == j,
            forall|t: int| 0 <= t < j ==> (#[trigger] rows@[t])@ == want[t],
        decreases count - j,
    {
        let mut row: Vec<u64> = Vec::with_capacity(n);
        let mut i: usize = 0;
        while i < n
            invariant
                i <= n,
                row@.len() == i,
                forall|u: int| 0 <= u < i ==> #[trigger] row@[u] == (if u == exponent { 1u64 } else { 0u64 }),
            decreases n - i,
        {
            if i == exponent {
                row.push(1);
            } else {
                row.push(0);
            }
            i = i + 1;
        }
        assert(row@ =~= want[j as int]);
        rows.push(row);
        j = j + 1;
    }
    let ghost rv = rows@.map_values(|r: Vec<u64>| r@);
    assert(rv =~= want);
    proof {
        assert forall|t: int| 0 <= t < rv.len() implies (#[trigger] rv[t]).len() == rv[0].len() by {}
        assert forall|t: int, i: int| 0 <= t < rv.len() && 0 <= i < rv[t].len() implies #[trigger] rv[t][i]
            < ring@.moduli[t] by {
            assert(crate::ring::arith::modulus_in_range(ring@.moduli[t] as int));
        }
    }
    Poly::from_rows(rows)
}

/// Packs `cts` into one ciphertext whose component `j` is
/// `sum_i c_i[j] * X^i`. Refuses an empty list, more ciphertexts than the
/// ring degree, and (the first) ciphertext whose component count differs
/// from the first one's or whose components are not all ring elements.
pub fn repack(cts: &[Ciphertext], ring: &Ring) -> (r: Result<Ciphertext, LatticeError>)
    ensures
        cts@.len() == 0 ==> r matches Err(LatticeError::DimensionMismatch),
        cts@.len() > ring@.degree ==> r == Err::<Ciphertext, _>(
            LatticeError::InvalidParameters("repack cannot pack more ciphertexts than the ring's degree"),
        ),
        0 < cts@.len() <= ring@.degree ==> {
            let c = ciphertexts_view(cts@);
            let shape = c[0].len();
            &&& (r is Ok <==> forall|i: int| 0 <= i < c.len() ==> packable(ring@, #[trigger] c[i], shape))
            &&& (r matches Ok(out) ==> out@ == packed(c, ring@, shape))
            &&& (r matches Err(err) ==> exists|i: int|
                0 <= i < c.len() && (forall|t: int| 0 <= t < i ==> packable(ring@, #[trigger] c[t], shape))
                    && #[trigger] packing_error(ring@, c[i], shape, err))
        },
{
    if cts.len() == 0 {
        return Err(LatticeError::DimensionMismatch);
    }
    ring.check_valid();
    if cts.len() > ring.degree() {
        return Err(
            LatticeError::InvalidParameters("repack cannot pack more ciphertexts than the ring's degree"),
        );
    }
    let ghost c = ciphertexts_view(cts@);
    let ghost rv = ring@;
    let shape = cts[0].value().len();
    assert(shape == c[0].len());
    let mut acc = zeros(ring, shape);
    proof {
        let a = polys_view(acc@);
        assert forall|j: int, t: int, k: int|
            0 <= j < a.len() && 0 <= t < rv.moduli.len() && 0 <= k < rv.degree implies #[trigger] a[j][t][k]
                == (packed_sum(c, rv, j, t, k, if j < 0 {
                1int
            } else {
                0int
            }) % (rv.moduli[t] as int)) as u64 by {
            assert(a[j] == poly_zero(rv.degree, rv.moduli.len()));
            assert(0int % (rv.moduli[t] as int) == 0);
        }
    }
    let mut i: usize = 0;
    while i < cts.len()
        invariant
            c == ciphertexts_view(cts@),
            rv == ring@,
            crate::ring::poly::ring_valid(rv),
            cts@.len() <= rv.degree,
            shape == c[0].len(),
            i <= cts@.len(),
            polys_view(acc@).len() == shape,
            components_in_ring(rv, polys_view(acc@)),
            pack_progress(polys_view(acc@), c, rv, i as int, 0),
            forall|t: int| 0 <= t < i ==> packable(rv, #[trigger] c[t], shape as nat),
        decreases cts@.len() - i,
    {
        let ct = cts[i].value();
        assert(polys_view(ct@) == c[i as int]);
        if ct.len() != shape {
            assert(packing_error(rv, c[i as int], shape as nat, LatticeError::DimensionMismatch));
            return Err(LatticeError::DimensionMismatch);
        }
        match check_components(ring, ct) {
            Ok(()) => {},
            Err(err) => {
                assert(packing_error(rv, c[i as int], shape as nat, err));
                return Err(err);
            },
        }
        let mono = monomial(ring, i);
        let mut j: usize = 0;
        while j < shape
            invariant
                c == ciphertexts_view(cts@),
                rv == ring@,
                crate::ring::poly::ring_valid(rv),
                i < cts@.len(),
                polys_view(ct@) == c[i as int],
                packable(rv, c[i as int], shape as nat),
                mono@ == monomial_rows(rv.degree, rv.moduli.len(), i as int),
                poly_in_ring(rv.degree, rv.moduli, mono@),
                j <= shape,
                polys_view(acc@).len() == shape,
                components_in_ring(rv, polys_view(acc@)),
                pack_progress(polys_view(acc@), c, rv, i as int, j as int),
            decreases shape - j,
        {
            assert(ct@[j as int]@ == c[i as int][j as int]);
            assert(poly_in_ring(rv.degree, rv.moduli, c[i as int][j as int]));
            let shifted = ring_result(ring.mul(&ct[j], &mono))?;
            assert(acc@[j as int]@ == polys_view(acc@)[j as int]);
            let sum = ring_result(ring.add(&acc[j], &shifted))?;
            let ghost before = polys_view(acc@);
            acc[j] = sum;
            proof {
                assert(polys_view(acc@) =~= before.update(
                    j as int,
                    poly_add(
                        before[j as int],
                        poly_mul(c[i as int][j as int], monomial_rows(rv.degree, rv.moduli.len(), i as int), rv.moduli),
                        rv.moduli,
                    ),
                ));
                assert forall|t: int| 0 <= t < rv.moduli.len() implies (#[trigger] rv.moduli[t]) > 1 by {
                    assert(crate::ring::arith::modulus_in_range(rv.moduli[t] as int));
                }
                lemma_pack_step(before, polys_view(acc@), c, rv, i as int, j as int);
            }
            j = j + 1;
        }
        proof {
            let a = polys_view(acc@);
            assert forall|jj: int, t: int, k: int|
                0 <= jj < a.len() && 0 <= t < rv.moduli.len() && 0 <= k < rv.degree implies #[trigger] a[jj][t][k]
                    == (packed_sum(c, rv, jj, t, k, if jj < 0 {
                (i + 1) as int + 1
            } else {
                (i + 1) as int
            }) % (rv.moduli[t] as int)) as u64 by {}
        }
        i = i + 1;
    }
    let out = Ciphertext::new(acc);
    proof {
        let want = packed(c, rv, shape as nat);
        let got = out@;
        assert forall|j: int| 0 <= j < got.len() implies #[trigger] got[j] == want[j] by {
            assert(poly_in_ring(rv.degree, rv.moduli, got[j]));
            assert forall|t: int| 0 <= t < got[j].len() implies #[trigger] got[j][t] == want[j][t] by {
                assert(got[j][t] =~= want[j][t]);
            }
            assert(got[j] =~= want[j]);
        }
        assert(got =~= want);
    }
    Ok(out)
}

} // verus!
