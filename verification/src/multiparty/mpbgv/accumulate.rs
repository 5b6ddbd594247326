//! Sums of the ring elements carried by collected shares.

use vstd::prelude::*;

use crate::multiparty::common::shares::{Share, ShareView};
use crate::multiparty::error::MultipartyError;
use crate::multiparty::mpbgv::wire::{
    decode_poly, decode_poly_pair, decode_poly_rows, pair_payload_ok, pair_split, pairs_view,
    payload_poly, payload_rows, poly_payload_ok, rows_payload_ok,
};
use crate::ring::poly::{poly_add, poly_in_ring, poly_sum, Poly, Ring, RingView, Rows};

verus! {

/// The ring elements the shares carry.
pub open spec fn share_polys(r: RingView, shares: Seq<ShareView>) -> Seq<Rows> {
    shares.map_values(|s: ShareView| payload_poly(r, s.payload))
}

/// The first elements of the pairs the shares carry.
pub open spec fn share_firsts(r: RingView, shares: Seq<ShareView>) -> Seq<Rows> {
    shares.map_values(|s: ShareView| payload_poly(r, s.payload.subrange(8, 8 + pair_split(s.payload))))
}

/// The second elements of the pairs the shares carry.
pub open spec fn share_seconds(r: RingView, shares: Seq<ShareView>) -> Seq<Rows> {
    shares.map_values(
        |s: ShareView| payload_poly(r, s.payload.subrange(8 + pair_split(s.payload), s.payload.len() as int)),
    )
}

/// Every share carries an element of `r`.
pub open spec fn polys_carried(r: RingView, shares: Seq<ShareView>) -> bool {
    forall|i: int| 0 <= i < shares.len() ==> poly_payload_ok(r, #[trigger] shares[i].payload)
}

/// Every share carries a pair of elements of `r`.
pub open spec fn pairs_carried(r: RingView, shares: Seq<ShareView>) -> bool {
    forall|i: int| 0 <= i < shares.len() ==> pair_payload_ok(r, #[trigger] shares[i].payload)
}

/// The views of a sequence of shares.
pub open spec fn shares_view(shares: Seq<Share>) -> Seq<ShareView> {
    shares.map_values(|s: Share| s@)
}

/// Sums the ring elements that the shares carry; `MalformedMessage` unless
/// every share carries one.
pub fn sum_share_polys(ring: &Ring, shares: &[Share]) -> (r: Result<Poly, MultipartyError>)
    ensures
        r is Ok <==> polys_carried(ring@, shares_view(shares@)),
        r is Err ==> r == Err::<Poly, _>(MultipartyError::MalformedMessage),
        r matches Ok(p) ==> p@ == poly_sum(share_polys(ring@, shares_view(shares@)), ring@)
            && poly_in_ring(ring@.degree, ring@.moduli, p@),
{
    ring.check_valid();
    let ghost sv = shares_view(shares@);
    let ghost polys = share_polys(ring@, sv);
    let mut acc = ring.zero();
    let mut i: usize = 0;
    while i < shares.len()
        invariant
            sv == shares_view(shares@),
            polys == share_polys(ring@, sv),
            crate::ring::poly::ring_valid(ring@),
            i <= shares@.len(),
            forall|t: int| 0 <= t < i ==> poly_payload_ok(ring@, #[trigger] sv[t].payload),
            acc@ == poly_sum(polys.take(i as int), ring@),
            poly_in_ring(ring@.degree, ring@.moduli, acc@),
        decreases shares@.len() - i,
    {
        assert(sv[i as int] == shares@[i as int]@);
        let d = decode_poly(shares[i].payload(), ring)?;
        proof {
            assert(polys.take(i + 1).drop_last() =~= polys.take(i as int));
            assert(polys[i as int] == d@);
        }
        acc = match ring.add(&acc, &d) {
            Ok(p) => p,
            Err(_) => {
                return Err(MultipartyError::MalformedMessage);
            },
        };
        i = i + 1;
    }
    assert(polys.take(shares@.len() as int) =~= polys);
    Ok(acc)
}

/// Sums the pairs of ring elements that the shares carry, componentwise;
/// `MalformedMessage` unless every share carries a pair.
pub fn sum_share_pairs(ring: &Ring, shares: &[Share]) -> (r: Result<(Poly, Poly), MultipartyError>)
    ensures
        r is Ok <==> pairs_carried(ring@, shares_view(shares@)),
        r is Err ==> r == Err::<(Poly, Poly), _>(MultipartyError::MalformedMessage),
        r matches Ok((a, b)) ==> a@ == poly_sum(share_firsts(ring@, shares_view(shares@)), ring@)
            && b@ == poly_sum(share_seconds(ring@, shares_view(shares@)), ring@) && poly_in_ring(
            ring@.degree,
            ring@.moduli,
            a@,
        ) && poly_in_ring(ring@.degree, ring@.moduli, b@),
{
    ring.check_valid();
    let ghost sv = shares_view(shares@);
    let ghost firsts = share_firsts(ring@, sv);
    let ghost seconds = share_seconds(ring@, sv);
    let mut acc0 = ring.zero();
    let mut acc1 = ring.zero();
    let mut i: usize = 0;
    while i < shares.len()
        invariant
            sv == shares_view(shares@),
            firsts == share_firsts(ring@, sv),
            seconds == share_seconds(ring@, sv),
            crate::ring::poly::ring_valid(ring@),
            i <= shares@.len(),
            forall|t: int| 0 <= t < i ==> pair_payload_ok(ring@, #[trigger] sv[t].payload),
            acc0@ == poly_sum(firsts.take(i as int), ring@),
            acc1@ == poly_sum(seconds.take(i as int), ring@),
            poly_in_ring(ring@.degree, ring@.moduli, acc0@),
            poly_in_ring(ring@.degree, ring@.moduli, acc1@),
        decreases shares@.len() - i,
    {
        assert(sv[i as int] == shares@[i as int]@);
        let (d0, d1) = decode_poly_pair(shares[i].payload(), ring)?;
        proof {
            assert(firsts.take(i + 1).drop_last() =~= firsts.take(i as int));
            assert(seconds.take(i + 1).drop_last() =~= seconds.take(i as int));
        }
        acc0 = match ring.add(&acc0, &d0) {
            Ok(p) => p,
            Err(_) => {
                return Err(MultipartyError::MalformedMessage);
            },
        };
        acc1 = match ring.add(&acc1, &d1) {
            Ok(p) => p,
            Err(_) => {
                return Err(MultipartyError::MalformedMessage);
            },
        };
        i = i + 1;
    }
    assert(firsts.take(shares@.len() as int) =~= firsts);
    assert(seconds.take(shares@.len() as int) =~= seconds);
    Ok((acc0, acc1))
}

/// `polys[0] + polys[1] + ...`, added left to right onto the first.
pub open spec fn sum_from_first(polys: Seq<Rows>, moduli: Seq<u64>) -> Rows
    decreases polys.len(),
{
    if polys.len() <= 1 {
        polys[0]
    } else {
        poly_add(sum_from_first(polys.drop_last(), moduli), polys.last(), moduli)
    }
}

/// The pair sequences the shares carry.
pub open spec fn share_rows(shares: Seq<ShareView>) -> Seq<Seq<(Rows, Rows)>> {
    shares.map_values(|s: ShareView| payload_rows(s.payload))
}

/// Component `c` of pair `k` of each share's pairs.
pub open spec fn row_column(rows: Seq<Seq<(Rows, Rows)>>, k: int, c: int) -> Seq<Rows> {
    rows.map_values(|rs: Seq<(Rows, Rows)>| if c == 0 { rs[k].0 } else { rs[k].1 })
}

/// Every share carries a sequence of pairs of elements of `r`, all as many
/// as the first share's; with `common_second`, every share's second
/// components are also the first share's.
pub open spec fn rows_agree(r: RingView, shares: Seq<ShareView>, common_second: bool) -> bool {
    let rows = share_rows(shares);
    &&& forall|i: int| 0 <= i < shares.len() ==> rows_payload_ok(r, #[trigger] shares[i].payload)
    &&& forall|i: int| 0 <= i < shares.len() ==> (#[trigger] rows[i]).len() == rows[0].len()
    &&& common_second ==> forall|i: int, k: int|
        0 <= i < shares.len() && 0 <= k < rows[0].len() ==> (#[trigger] rows[i][k]).1 == rows[0][k].1
}

/// The pairs summed across the shares, position by position, onto the first
/// share's: both components, or with `common_second` only the first, the
/// second being the first share's.
pub open spec fn summed_rows(r: RingView, shares: Seq<ShareView>, common_second: bool) -> Seq<(Rows, Rows)> {
    let rows = share_rows(shares);
    Seq::new(
        rows[0].len(),
        |k: int|
            (
                sum_from_first(row_column(rows, k, 0), r.moduli),
                if common_second {
                    rows[0][k].1
                } else {
                    sum_from_first(row_column(rows, k, 1), r.moduli)
                },
            ),
    )
}

/// Sums the pair sequences that the shares carry, position by position:
/// `MalformedMessage` unless [`rows_agree`]; `MissingShare` without shares.
pub fn sum_share_rows(ring: &Ring, shares: &[Share], common_second: bool) -> (r: Result<
    Vec<(Poly, Poly)>,
    MultipartyError,
>)
    ensures
        !rows_agree(ring@, shares_view(shares@), common_second) ==> r == Err::<Vec<(Poly, Poly)>, _>(
            MultipartyError::MalformedMessage,
        ),
        rows_agree(ring@, shares_view(shares@), common_second) && shares@.len() == 0 ==> r == Err::<
            Vec<(Poly, Poly)>,
            _,
        >(MultipartyError::MissingShare),
        rows_agree(ring@, shares_view(shares@), common_second) && shares@.len() > 0 ==> (r matches Ok(v)
            && pairs_view(v@) == summed_rows(ring@, shares_view(shares@), common_second)),
{
    let ghost sv = shares_view(shares@);
    let ghost rows = share_rows(sv);
    if shares.len() == 0 {
        return Err(MultipartyError::MissingShare);
    }
    assert(sv[0] == shares@[0]@);
    let mut acc = decode_poly_rows(shares[0].payload(), ring)?;
    let ghost first = rows[0];
    assert(pairs_view(acc@) == first);
    proof {
        crate::multiparty::mpbgv::wire::lemma_payload_rows_in_ring(ring@, sv[0].payload);
    }
    proof {
        assert forall|k: int| 0 <= k < first.len() implies #[trigger] pairs_view(acc@)[k] == (
            sum_from_first(row_column(rows.take(1), k, 0), ring@.moduli),
            if common_second {
                first[k].1
            } else {
                sum_from_first(row_column(rows.take(1), k, 1), ring@.moduli)
            },
        ) by {
            assert(row_column(rows.take(1), k, 0).len() == 1);
            assert(row_column(rows.take(1), k, 0)[0] == first[k].0);
            assert(row_column(rows.take(1), k, 1)[0] == first[k].1);
        }
    }
    let mut i: usize = 1;
    while i < shares.len()
        invariant
            sv == shares_view(shares@),
            rows == share_rows(sv),
            first == rows[0],
            sv.len() == shares@.len(),
            1 <= i <= shares@.len(),
            forall|u: int| 0 <= u < i ==> rows_payload_ok(ring@, #[trigger] sv[u].payload),
            forall|u: int| 0 <= u < i ==> (#[trigger] rows[u]).len() == first.len(),
            common_second ==> forall|u: int, k: int|
                0 <= u < i && 0 <= k < first.len() ==> (#[trigger] rows[u][k]).1 == first[k].1,
            pairs_view(acc@).len() == first.len(),
            forall|k: int|
                0 <= k < first.len() ==> #[trigger] pairs_view(acc@)[k] == (
                    sum_from_first(row_column(rows.take(i as int), k, 0), ring@.moduli),
                    if common_second {
                        first[k].1
                    } else {
                        sum_from_first(row_column(rows.take(i as int), k, 1), ring@.moduli)
                    },
                ),
            forall|k: int|
                0 <= k < first.len() ==> poly_in_ring(ring@.degree, ring@.moduli, #[trigger] pairs_view(acc@)[k].0)
                    && poly_in_ring(ring@.degree, ring@.moduli, pairs_view(acc@)[k].1),
        decreases shares@.len() - i,
    {
        assert(sv[i as int] == shares@[i as int]@);
        let next_rows = decode_poly_rows(shares[i].payload(), ring)?;
        assert(pairs_view(next_rows@) == rows[i as int]);
        proof {
            crate::multiparty::mpbgv::wire::lemma_payload_rows_in_ring(ring@, sv[i as int].payload);
        }
        if next_rows.len() != acc.len() {
            return Err(MultipartyError::MalformedMessage);
        }
        let mut next: Vec<(Poly, Poly)> = Vec::with_capacity(acc.len());
        let mut k: usize = 0;
        while k < acc.len()
            invariant
                sv == shares_view(shares@),
                rows == share_rows(sv),
                first == rows[0],
                1 <= i < shares@.len(),
                sv.len() == shares@.len(),
                pairs_view(next_rows@) == rows[i as int],
                pairs_view(acc@).len() == first.len(),
                common_second ==> forall|x: int| 0 <= x < first.len() ==> (#[trigger] pairs_view(acc@)[x]).1 == first[x].1,
                k <= acc@.len(),
                next_rows@.len() == acc@.len(),
                next@.len() == k,
                forall|x: int| 0 <= x < k ==> (#[trigger] pairs_view(next@)[x]) == (
                    poly_add(pairs_view(acc@)[x].0, pairs_view(next_rows@)[x].0, ring@.moduli),
                    if common_second {
                        pairs_view(acc@)[x].1
                    } else {
                        poly_add(pairs_view(acc@)[x].1, pairs_view(next_rows@)[x].1, ring@.moduli)
                    },
                ),
                common_second ==> forall|x: int| 0 <= x < k ==> pairs_view(next_rows@)[x].1 == #[trigger] pairs_view(acc@)[x].1,
                forall|x: int|
                    0 <= x < k ==> poly_in_ring(ring@.degree, ring@.moduli, #[trigger] pairs_view(next@)[x].0)
                        && poly_in_ring(ring@.degree, ring@.moduli, pairs_view(next@)[x].1),
                forall|x: int|
                    0 <= x < acc@.len() ==> poly_in_ring(ring@.degree, ring@.moduli, #[trigger] pairs_view(acc@)[x].0)
                        && poly_in_ring(ring@.degree, ring@.moduli, pairs_view(acc@)[x].1),
                forall|x: int|
                    0 <= x < acc@.len() ==> poly_in_ring(ring@.degree, ring@.moduli, #[trigger] pairs_view(next_rows@)[x].0)
                        && poly_in_ring(ring@.degree, ring@.moduli, pairs_view(next_rows@)[x].1),
            decreases acc@.len() - k,
        {
            let pair = &acc[k];
            let other = &next_rows[k];
            assert(pairs_view(acc@)[k as int] == (pair.0@, pair.1@));
            assert(pairs_view(next_rows@)[k as int] == (other.0@, other.1@));
            assert(poly_in_ring(ring@.degree, ring@.moduli, pairs_view(acc@)[k as int].0));
            assert(poly_in_ring(ring@.degree, ring@.moduli, pairs_view(next_rows@)[k as int].0));
            let sum0 = match ring.add(&pair.0, &other.0) {
                Ok(p) => p,
                Err(_) => {
                    assert(false);
                    return Err(MultipartyError::MalformedMessage);
                },
            };
            let second = if common_second {
                if !other.1.same_as(&pair.1) {
                    proof {
                        assert(rows[i as int][k as int].1 != first[k as int].1);
                        assert(!rows_agree(ring@, sv, common_second));
                    }
                    return Err(MultipartyError::MalformedMessage);
                }
                pair.1.clone()
            } else {
                match ring.add(&pair.1, &other.1) {
                    Ok(p) => p,
                    Err(_) => {
                        assert(false);
                        return Err(MultipartyError::MalformedMessage);
                    },
                }
            };
            let ghost old_next = next@;
            next.push((sum0, second));
            proof {
                assert forall|x: int| 0 <= x < k + 1 implies (#[trigger] pairs_view(next@)[x]) == (
                    poly_add(pairs_view(acc@)[x].0, pairs_view(next_rows@)[x].0, ring@.moduli),
                    if common_second {
                        pairs_view(acc@)[x].1
                    } else {
                        poly_add(pairs_view(acc@)[x].1, pairs_view(next_rows@)[x].1, ring@.moduli)
                    },
                ) && poly_in_ring(ring@.degree, ring@.moduli, pairs_view(next@)[x].0)
                    && poly_in_ring(ring@.degree, ring@.moduli, pairs_view(next@)[x].1) by {
                    assert(pairs_view(next@)[x] == (next@[x].0@, next@[x].1@));
                    if x < k {
                        assert(next@[x] == old_next[x]);
                        assert(pairs_view(old_next)[x] == (old_next[x].0@, old_next[x].1@));
                    }
                }
            }
            k = k + 1;
        }
        proof {
            let nt = rows.take(i + 1);
            let pt = rows.take(i as int);
            assert forall|x: int| 0 <= x < first.len() implies #[trigger] pairs_view(next@)[x] == (
                sum_from_first(row_column(nt, x, 0), ring@.moduli),
                if common_second {
                    first[x].1
                } else {
                    sum_from_first(row_column(nt, x, 1), ring@.moduli)
                },
            ) by {
                assert(row_column(nt, x, 0).drop_last() =~= row_column(pt, x, 0));
                assert(row_column(nt, x, 1).drop_last() =~= row_column(pt, x, 1));
                assert(row_column(nt, x, 0).last() == rows[i as int][x].0);
                assert(row_column(nt, x, 1).last() == rows[i as int][x].1);
            }
            if common_second {
                assert forall|u: int, x: int| 0 <= u < i + 1 && 0 <= x < first.len() implies (#[trigger] rows[u][x]).1
                    == first[x].1 by {
                    if u == i {
                        assert(pairs_view(next_rows@)[x].1 == pairs_view(acc@)[x].1);
                    }
                }
            }
        }
        acc = next;
        i = i + 1;
    }
    proof {
        assert(rows.take(shares@.len() as int) =~= rows);
    }
    assert(pairs_view(acc@) =~= summed_rows(ring@, sv, common_second));
    Ok(acc)
}

} // verus!
