//! Moving a polynomial to a smaller RNS basis by dropping its last moduli.

use vstd::prelude::*;

use crate::ring::poly::{
    poly_add, poly_in_ring, poly_mul, poly_sub, poly_sum, poly_zero, ring_valid, Poly, RingError, RingView, Rows,
};

verus! {

/// The residue rows of the first `count` moduli, or all of them where there
/// are no more than `count`.
pub open spec fn keep_moduli(p: Rows, count: nat) -> Rows {
    if p.len() > count {
        p.subrange(0, count as int)
    } else {
        p
    }
}

/// Drops the residue row of the last modulus; `EmptyModuli` where it is the
/// only one.
pub fn drop_last_modulus(p: &Poly) -> (r: Result<Poly, RingError>)
    ensures
        p@.len() > 1 <==> r is Ok,
        r matches Ok(q) ==> q@ == p@.drop_last(),
        p@.len() <= 1 ==> r == Err::<Poly, _>(RingError::EmptyModuli),
{
    p.check_rectangular();
    let rows = p.coeffs();
    let count = rows.len();
    if count <= 1 {
        return Err(RingError::EmptyModuli);
    }
    let ghost v = p@;
    let mut kept: Vec<Vec<u64>> = Vec::with_capacity(count - 1);
    let mut j: usize = 0;
    while j < count - 1
        invariant
            count == rows@.len(),
            count > 1,
            j <= count - 1,
            rows@.map_values(|r: Vec<u64>| r@) == v,
            kept@.len() == j,
            forall|t: int| 0 <= t < j ==> (#[trigger] kept@[t])@ == v[t],
        decreases count - 1 - j,
    {
        let row = rows[j].clone();
        assert(row@ =~= v[j as int]);
        kept.push(row);
        j = j + 1;
    }
    assert(kept@.map_values(|r: Vec<u64>| r@) =~= v.drop_last());
    Ok(Poly::from_rows(kept))
}

/// Drops trailing moduli until at most `count` remain.
pub fn keep_first_moduli(p: &Poly, count: usize) -> (r: Poly)
    requires
        count >= 1,
    ensures
        r@ == keep_moduli(p@, count as nat),
{
    p.check_rectangular();
    let mut cur = p.clone();
    while cur.moduli_count() > count
        invariant
            count >= 1,
            cur@.len() >= 1,
            cur@.len() <= p@.len(),
            p@.len() > cur@.len() ==> cur@.len() >= count,
            cur@ == p@.subrange(0, cur@.len() as int),
        decreases cur@.len(),
    {
        match drop_last_modulus(&cur) {
            Ok(next) => {
                assert(next@ =~= p@.subrange(0, next@.len() as int));
                cur = next;
            },
            Err(_) => {
                return cur;
            },
        }
    }
    assert(p@.subrange(0, p@.len() as int) =~= p@);
    cur
}

/// The ring over the first `count` moduli of `r`.
pub open spec fn first_moduli_ring(r: RingView, count: nat) -> RingView {
    RingView { degree: r.degree, moduli: r.moduli.subrange(0, count as int) }
}

/// Ring arithmetic is rowwise, so it commutes with dropping moduli: the
/// sum, difference and product of the dropped polynomials are the dropped
/// sum, difference and product.
pub proof fn lemma_keep_moduli_ops(r: RingView, a: Rows, b: Rows, count: nat)
    requires
        1 <= count <= r.moduli.len(),
        a.len() == r.moduli.len(),
        b.len() == r.moduli.len(),
    ensures
        ({
            let (m, k) = (r.moduli, r.moduli.subrange(0, count as int));
            &&& keep_moduli(poly_add(a, b, m), count) == poly_add(keep_moduli(a, count), keep_moduli(b, count), k)
            &&& keep_moduli(poly_sub(a, b, m), count) == poly_sub(keep_moduli(a, count), keep_moduli(b, count), k)
            &&& keep_moduli(poly_mul(a, b, m), count) == poly_mul(keep_moduli(a, count), keep_moduli(b, count), k)
        }),
{
    let (m, k) = (r.moduli, r.moduli.subrange(0, count as int));
    if a.len() > count {
        assert(keep_moduli(poly_add(a, b, m), count) =~= poly_add(keep_moduli(a, count), keep_moduli(b, count), k));
        assert(keep_moduli(poly_sub(a, b, m), count) =~= poly_sub(keep_moduli(a, count), keep_moduli(b, count), k));
        assert(keep_moduli(poly_mul(a, b, m), count) =~= poly_mul(keep_moduli(a, count), keep_moduli(b, count), k));
    } else {
        assert(k =~= m);
    }
}

/// Dropping moduli commutes with summing: the sum of the dropped
/// polynomials over the smaller ring is the dropped sum. So participants
/// who drop their secret shares to a level hold shares of the dropped
/// collective secret.
pub proof fn lemma_keep_moduli_sum(r: RingView, xs: Seq<Rows>, count: nat)
    requires
        ring_valid(r),
        1 <= count <= r.moduli.len(),
        forall|i: int| 0 <= i < xs.len() ==> poly_in_ring(r.degree, r.moduli, #[trigger] xs[i]),
    ensures
        poly_sum(Seq::new(xs.len(), |i: int| keep_moduli(xs[i], count)), first_moduli_ring(r, count))
            == keep_moduli(poly_sum(xs, r), count),
    decreases xs.len(),
{
    let lr = first_moduli_ring(r, count);
    let kept = Seq::new(xs.len(), |i: int| keep_moduli(xs[i], count));
    if xs.len() == 0 {
        if r.moduli.len() > count {
            assert(keep_moduli(poly_zero(r.degree, r.moduli.len()), count) =~= poly_zero(r.degree, count));
        }
    } else {
        let init = xs.drop_last();
        lemma_keep_moduli_sum(r, init, count);
        assert(kept.drop_last() =~= Seq::new(init.len(), |i: int| keep_moduli(init[i], count)));
        crate::ring::algebra::lemma_sum_in_ring(r, init);
        lemma_keep_moduli_ops(r, poly_sum(init, r), xs.last(), count);
    }
}

} // verus!
