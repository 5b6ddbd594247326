//! Fast RNS base conversion, and division by an auxiliary modulus `P`.
//!
//! Fast base conversion takes the residues `x_j = x mod q_j` over a source
//! basis `Q = q_0 * ... * q_{L-1}` to
//! `sum_j [x_j * (Q / q_j)^-1]_{q_j} * (Q / q_j) mod t` for each target
//! modulus `t`: a value congruent to `x` modulo `Q`, off by a small multiple
//! of `Q`, and exactly `x_i` where `t` is one of the source moduli.

use vstd::arithmetic::power::pow;
use vstd::prelude::*;

use crate::ring::arith::{add_mod, modulus_in_range, mul_mod, reduce, sub_mod};
use crate::ring::poly::{modulus_values, rectangular, Modulus, Poly, RingError, Rows};
use crate::ring::rns::{crt_basis_constant, inv_mod, prod_except, prod_except_mod};

verus! {

/// `(Q / q_j)^-1 mod q_j`, computed as `(Q / q_j mod q_j)^(q_j - 2) mod q_j`.
pub open spec fn hat_inverse(src: Seq<u64>, j: int) -> int {
    pow(prod_except(src, j, src.len() as int) % (src[j] as int), (src[j] - 2) as nat) % (
    src[j] as int)
}

/// The term of source row `j` in coefficient `k` converted to modulus `t`:
/// `[x_j * (Q / q_j)^-1]_{q_j} * ((Q / q_j) mod t)`.
pub open spec fn convert_term(x: Rows, src: Seq<u64>, j: int, k: int, t: u64) -> int {
    ((x[j][k] * hat_inverse(src, j)) % (src[j] as int)) * (prod_except(src, j, src.len() as int) % (
    t as int))
}

/// The sum of the first `n` terms of coefficient `k`.
pub open spec fn convert_sum(x: Rows, src: Seq<u64>, k: int, t: u64, n: int) -> int
    decreases n,
{
    if n <= 0 {
        0
    } else {
        convert_sum(x, src, k, t, n - 1) + convert_term(x, src, n - 1, k, t)
    }
}

/// Fast base conversion of `x` (one row per source modulus) to the target
/// moduli: one row per target, each coefficient the full sum of terms
/// reduced modulo that target.
pub open spec fn fast_convert(x: Rows, src: Seq<u64>, targets: Seq<u64>) -> Rows {
    Seq::new(
        targets.len(),
        |m: int|
            Seq::new(
                x[0].len(),
                |k: int| (convert_sum(x, src, k, targets[m], src.len() as int) % (targets[m] as int)) as u64,
            ),
    )
}

/// `P^-1 mod t` for `P` the product of `p`, computed by Fermat.
pub open spec fn product_inverse(p: Seq<u64>, t: u64) -> int {
    pow(prod_except(p, p.len() as int, p.len() as int) % (t as int), (t - 2) as nat) % (t as int)
}

/// Division of `x` (rows over `Q` then over `P`) by `P`: for each row `i`
/// of `Q`, `(x_i - conv_i) * P^-1 mod q_i`, where `conv` is the fast base
/// conversion of the `P` rows into `Q`.
pub open spec fn mod_down_rows(x: Rows, q: Seq<u64>, p: Seq<u64>) -> Rows {
    let conv = fast_convert(x.subrange(q.len() as int, (q.len() + p.len()) as int), p, q);
    Seq::new(
        q.len(),
        |i: int|
            Seq::new(
                x[i].len(),
                |k: int|
                    ((((x[i][k] - conv[i][k]) % (q[i] as int)) * product_inverse(p, q[i])) % (
                    q[i] as int)) as u64,
            ),
    )
}

/// The source-side constants of a conversion: `hat_inverse` for each source
/// modulus, and `(Q / q_j) mod t` for each source modulus and target `t`.
fn conversion_constants(source: &[Modulus], target: &[Modulus]) -> (r: (Vec<u64>, Vec<Vec<u64>>))
    ensures
        r.0@.len() == source@.len(),
        r.1@.len() == source@.len(),
        forall|j: int|
            0 <= j < source@.len() ==> #[trigger] r.0@[j] == hat_inverse(modulus_values(source@), j),
        forall|j: int| 0 <= j < source@.len() ==> (#[trigger] r.1@[j])@.len() == target@.len(),
        forall|j: int, m: int|
            0 <= j < source@.len() && 0 <= m < target@.len() ==> #[trigger] r.1@[j]@[m]
                == prod_except(modulus_values(source@), j, source@.len() as int) % (target@[m]@ as int),
{
    let ghost src = modulus_values(source@);
    let mut ys: Vec<u64> = Vec::with_capacity(source.len());
    let mut hats: Vec<Vec<u64>> = Vec::with_capacity(source.len());
    let mut j: usize = 0;
    while j < source.len()
        invariant
            src == modulus_values(source@),
            j <= source@.len(),
            ys@.len() == j,
            hats@.len() == j,
            forall|u: int| 0 <= u < j ==> #[trigger] ys@[u] == hat_inverse(src, u),
            forall|u: int| 0 <= u < j ==> (#[trigger] hats@[u])@.len() == target@.len(),
            forall|u: int, m: int|
                0 <= u < j && 0 <= m < target@.len() ==> #[trigger] hats@[u]@[m] == prod_except(
                    src,
                    u,
                    source@.len() as int,
                ) % (target@[m]@ as int),
        decreases source@.len() - j,
    {
        let qj = source[j].value();
        let hat = prod_except_mod(source, j, qj);
        ys.push(inv_mod(hat, qj));
        hats.push(crt_basis_constant(source, j, target));
        j = j + 1;
    }
    (ys, hats)
}

/// One converted coefficient: the sum of the terms of coefficient `k` of the
/// source rows `offset..offset + source.len()`, reduced modulo `t`.
fn convert_coefficient(
    rows: &[Vec<u64>],
    offset: usize,
    source: &[Modulus],
    ys: &[u64],
    hats: &[Vec<u64>],
    k: usize,
    m: usize,
    t: u64,
) -> (r: u64)
    requires
        offset + source@.len() <= rows@.len(),
        forall|j: int| 0 <= j < source@.len() ==> k < (#[trigger] rows@[offset + j])@.len(),
        ys@.len() == source@.len(),
        hats@.len() == source@.len(),
        modulus_in_range(t as int),
        forall|j: int|
            0 <= j < source@.len() ==> #[trigger] ys@[j] == hat_inverse(modulus_values(source@), j),
        forall|j: int|
            0 <= j < source@.len() ==> m < (#[trigger] hats@[j])@.len() && hats@[j]@[m as int]
                == prod_except(modulus_values(source@), j, source@.len() as int) % (t as int),
    ensures
        r == convert_sum(
            rows@.map_values(|v: Vec<u64>| v@).subrange(offset as int, offset + source@.len()),
            modulus_values(source@),
            k as int,
            t,
            source@.len() as int,
        ) % (t as int),
        r < t,
{
    let ghost x = rows@.map_values(|v: Vec<u64>| v@).subrange(offset as int, offset + source@.len());
    let ghost src = modulus_values(source@);
    let nrows = rows.len();
    let mut acc: u64 = 0;
    let mut j: usize = 0;
    proof {
        vstd::arithmetic::div_mod::lemma_small_mod(0, t as nat);
    }
    while j < source.len()
        invariant
            x == rows@.map_values(|v: Vec<u64>| v@).subrange(offset as int, offset + source@.len()),
            src == modulus_values(source@),
            offset + source@.len() <= rows@.len(),
            nrows == rows@.len(),
            forall|u: int| 0 <= u < source@.len() ==> k < (#[trigger] rows@[offset + u])@.len(),
            ys@.len() == source@.len(),
            hats@.len() == source@.len(),
            modulus_in_range(t as int),
            forall|u: int| 0 <= u < source@.len() ==> #[trigger] ys@[u] == hat_inverse(src, u),
            forall|u: int|
                0 <= u < source@.len() ==> m < (#[trigger] hats@[u])@.len() && hats@[u]@[m as int]
                    == prod_except(src, u, source@.len() as int) % (t as int),
            j <= source@.len(),
            acc < t,
            acc == convert_sum(x, src, k as int, t, j as int) % (t as int),
        decreases source@.len() - j,
    {
        let qj = source[j].value();
        let row = &rows[offset + j];
        assert(k < row@.len());
        let xv = row[k];
        assert(xv == x[j as int][k as int]);
        let u = mul_mod(xv, ys[j], qj);
        let h = hats[j][m];
        let term = mul_mod(u, h, t);
        proof {
            let ct = convert_term(x, src, j as int, k as int, t);
            assert(ct == (u as int) * (h as int));
            vstd::arithmetic::div_mod::lemma_add_mod_noop(
                convert_sum(x, src, k as int, t, j as int),
                ct,
                t as int,
            );
            vstd::arithmetic::div_mod::lemma_mod_twice(ct, t as int);
        }
        acc = add_mod(acc, term, t);
        j = j + 1;
    }
    acc
}

/// The rows `offset..offset + source.len()` of `rows`, fast-converted to the
/// target moduli.
fn convert_rows(rows: &[Vec<u64>], offset: usize, source: &[Modulus], target: &[Modulus]) -> (r: Vec<
    Vec<u64>,
>)
    requires
        source@.len() > 0,
        offset + source@.len() <= rows@.len(),
        forall|j: int|
            0 <= j < source@.len() ==> (#[trigger] rows@[offset + j])@.len() == rows@[offset as int]@.len(),
    ensures
        r@.map_values(|v: Vec<u64>| v@) == fast_convert(
            rows@.map_values(|v: Vec<u64>| v@).subrange(offset as int, offset + source@.len()),
            modulus_values(source@),
            modulus_values(target@),
        ),
{
    let ghost x = rows@.map_values(|v: Vec<u64>| v@).subrange(offset as int, offset + source@.len());
    let ghost src = modulus_values(source@);
    let ghost tgt = modulus_values(target@);
    let ghost want = fast_convert(x, src, tgt);
    let (ys, hats) = conversion_constants(source, target);
    let n = rows[offset].len();
    assert(n == x[0].len());
    let mut out: Vec<Vec<u64>> = Vec::with_capacity(target.len());
    let mut m: usize = 0;
    while m < target.len()
        invariant
            x == rows@.map_values(|v: Vec<u64>| v@).subrange(offset as int, offset + source@.len()),
            src == modulus_values(source@),
            tgt == modulus_values(target@),
            want == fast_convert(x, src, tgt),
            n == x[0].len(),
            offset + source@.len() <= rows@.len(),
            forall|j: int| 0 <= j < source@.len() ==> (#[trigger] rows@[offset + j])@.len() == n,
            ys@.len() == source@.len(),
            hats@.len() == source@.len(),
            forall|j: int| 0 <= j < source@.len() ==> #[trigger] ys@[j] == hat_inverse(src, j),
            forall|j: int| 0 <= j < source@.len() ==> (#[trigger] hats@[j])@.len() == target@.len(),
            forall|j: int, u: int|
                0 <= j < source@.len() && 0 <= u < target@.len() ==> #[trigger] hats@[j]@[u]
                    == prod_except(src, j, source@.len() as int) % (target@[u]@ as int),
            m <= target@.len(),
            out@.len() == m,
            forall|u: int| 0 <= u < m ==> (#[trigger] out@[u])@ == want[u],
        decreases target@.len() - m,
    {
        let t = target[m].value();
        let mut row: Vec<u64> = Vec::with_capacity(n);
        let mut k: usize = 0;
        while k < n
            invariant
                x == rows@.map_values(|v: Vec<u64>| v@).subrange(offset as int, offset + source@.len()),
                src == modulus_values(source@),
                offset + source@.len() <= rows@.len(),
                forall|j: int| 0 <= j < source@.len() ==> (#[trigger] rows@[offset + j])@.len() == n,
                ys@.len() == source@.len(),
                hats@.len() == source@.len(),
                forall|j: int| 0 <= j < source@.len() ==> #[trigger] ys@[j] == hat_inverse(src, j),
                forall|j: int| 0 <= j < source@.len() ==> (#[trigger] hats@[j])@.len() == target@.len(),
                forall|j: int, u: int|
                    0 <= j < source@.len() && 0 <= u < target@.len() ==> #[trigger] hats@[j]@[u]
                        == prod_except(src, j, source@.len() as int) % (target@[u]@ as int),
                m < target@.len(),
                t == target@[m as int]@,
                modulus_in_range(t as int),
                k <= n,
                row@.len() == k,
                forall|i: int|
                    0 <= i < k ==> #[trigger] row@[i] == (convert_sum(
                        x,
                        src,
                        i,
                        t,
                        source@.len() as int,
                    ) % (t as int)) as u64,
            decreases n - k,
        {
            proof {
                assert forall|j: int| 0 <= j < source@.len() implies m < (#[trigger] hats@[j])@.len()
                    && hats@[j]@[m as int] == prod_except(src, j, source@.len() as int) % (t as int) by {
                    assert(hats@[j]@[m as int] == prod_except(src, j, source@.len() as int) % (
                    target@[m as int]@ as int));
                }
            }
            let c = convert_coefficient(rows, offset, source, ys.as_slice(), hats.as_slice(), k, m, t);
            row.push(c);
            k = k + 1;
        }
        assert(tgt[m as int] == t);
        assert(row@ =~= want[m as int]);
        out.push(row);
        m = m + 1;
    }
    assert(out@.map_values(|v: Vec<u64>| v@) =~= want);
    out
}

/// Fast base conversion of `poly`, whose rows are residues modulo `source`,
/// into the moduli `target`. `ShapeMismatch` unless `poly` has one row per
/// source modulus; `EmptyModuli` without target moduli.
pub fn extend_basis(poly: &Poly, source: &[Modulus], target: &[Modulus]) -> (r: Result<
    Poly,
    RingError,
>)
    ensures
        poly@.len() != source@.len() ==> r == Err::<Poly, _>(RingError::ShapeMismatch),
        poly@.len() == source@.len() && target@.len() == 0 ==> r == Err::<Poly, _>(
            RingError::EmptyModuli,
        ),
        r is Ok <==> poly@.len() == source@.len() && target@.len() > 0,
        r matches Ok(p) ==> p@ == fast_convert(poly@, modulus_values(source@), modulus_values(target@)),
{
    poly.check_rectangular();
    if poly.moduli_count() != source.len() {
        return Err(RingError::ShapeMismatch);
    }
    if target.len() == 0 {
        return Err(RingError::EmptyModuli);
    }
    let rows = poly.coeffs();
    assert(rows@.map_values(|v: Vec<u64>| v@).subrange(0, source@.len() as int) =~= poly@);
    assert forall|j: int| 0 <= j < source@.len() implies (#[trigger] rows@[0 + j])@.len()
        == rows@[0int]@.len() by {
        assert(rows@[j]@ == poly@[j]);
        assert(rows@[0int]@ == poly@[0]);
    }
    let out = convert_rows(rows, 0, source, target);
    proof {
        let v = out@.map_values(|w: Vec<u64>| w@);
        let f = fast_convert(poly@, modulus_values(source@), modulus_values(target@));
        assert(v == f);
        assert(f.len() > 0);
        assert(f[0].len() == poly@[0].len());
        assert forall|u: int| 0 <= u < f.len() implies (#[trigger] f[u]).len() == f[0].len() by {}
        assert(rectangular(v));
    }
    Poly::from_coeffs(out)
}

/// `P^-1 mod t` for `P` the product of the moduli `p`.
fn product_inverse_mod(p: &[Modulus], t: u64) -> (r: u64)
    requires
        modulus_in_range(t as int),
    ensures
        r == product_inverse(modulus_values(p@), t),
        r < t,
{
    let prod = prod_except_mod(p, p.len(), t);
    inv_mod(prod, t)
}

/// Divides `x`, whose rows are residues modulo `q` followed by residues
/// modulo `p`, by `P`: the rows over `q` of `(x - conv_P(x)) * P^-1`.
/// `ShapeMismatch` unless `x` has one row per modulus of `q` and `p`;
/// `EmptyModuli` when `q` or `p` is empty.
pub fn mod_down(x: &Poly, q: &[Modulus], p: &[Modulus]) -> (r: Result<Poly, RingError>)
    ensures
        x@.len() != q@.len() + p@.len() ==> r == Err::<Poly, _>(RingError::ShapeMismatch),
        x@.len() == q@.len() + p@.len() && (q@.len() == 0 || p@.len() == 0) ==> r == Err::<
            Poly,
            _,
        >(RingError::EmptyModuli),
        r is Ok <==> x@.len() == q@.len() + p@.len() && q@.len() > 0 && p@.len() > 0,
        r matches Ok(out) ==> out@ == mod_down_rows(x@, modulus_values(q@), modulus_values(p@)),
{
    x.check_rectangular();
    if x.moduli_count() < q.len() || x.moduli_count() - q.len() != p.len() {
        return Err(RingError::ShapeMismatch);
    }
    if q.len() == 0 || p.len() == 0 {
        return Err(RingError::EmptyModuli);
    }
    let rows = x.coeffs();
    let ghost xv = x@;
    let ghost qv = modulus_values(q@);
    let ghost pv = modulus_values(p@);
    let ql = q.len();
    assert forall|j: int| 0 <= j < p@.len() implies (#[trigger] rows@[ql + j])@.len()
        == rows@[ql as int]@.len() by {
        assert(rows@[ql + j]@ == xv[ql + j]);
        assert(rows@[ql as int]@ == xv[ql as int]);
    }
    let conv = convert_rows(rows, ql, p, q);
    assert(rows@.map_values(|v: Vec<u64>| v@) == xv);
    let ghost cv = fast_convert(xv.subrange(ql as int, ql + p@.len()), pv, qv);
    assert(conv@.map_values(|v: Vec<u64>| v@) == cv);
    let ghost want = mod_down_rows(xv, qv, pv);
    assert(conv@.len() == ql);
    let n = rows[0].len();
    let mut out: Vec<Vec<u64>> = Vec::with_capacity(ql);
    let mut i: usize = 0;
    while i < ql
        invariant
            ql == q@.len(),
            xv == x@,
            rows@.map_values(|v: Vec<u64>| v@) == xv,
            rectangular(xv),
            xv.len() == q@.len() + p@.len(),
            n == xv[0].len(),
            qv == modulus_values(q@),
            pv == modulus_values(p@),
            qv.len() == ql,
            p@.len() > 0,
            cv == fast_convert(xv.subrange(ql as int, ql + p@.len()), pv, qv),
            conv@.map_values(|v: Vec<u64>| v@) == cv,
            conv@.len() == ql,
            want == mod_down_rows(xv, qv, pv),
            i <= ql,
            out@.len() == i,
            forall|u: int| 0 <= u < i ==> (#[trigger] out@[u])@ == want[u],
        decreases ql - i,
    {
        let qi = q[i].value();
        let pinv = product_inverse_mod(p, qi);
        let src = &rows[i];
        let crow = &conv[i];
        assert(src@ == xv[i as int]);
        assert(crow@ == cv[i as int]);
        assert(src@.len() == n);
        assert(xv.subrange(ql as int, ql + p@.len())[0] == xv[ql as int]);
        assert(crow@.len() == cv[i as int].len());
        assert(crow@.len() == n);
        proof {
            assert forall|t: int| 0 <= t < n implies #[trigger] crow@[t] < qi by {
                assert(crow@[t] == cv[i as int][t]);
            }
        }
        let mut row: Vec<u64> = Vec::with_capacity(n);
        let mut k: usize = 0;
        while k < n
            invariant
                modulus_in_range(qi as int),
                qi == qv[i as int],
                pinv == product_inverse(pv, qi),
                pinv < qi,
                src@.len() == n,
                crow@.len() == n,
                forall|t: int| 0 <= t < n ==> #[trigger] crow@[t] < qi,
                k <= n,
                row@.len() == k,
                forall|t: int|
                    0 <= t < k ==> #[trigger] row@[t] == ((((src@[t] - crow@[t]) % (qi as int)) * pinv)
                        % (qi as int)) as u64,
            decreases n - k,
        {
            let xr = reduce(src[k], qi);
            let d = sub_mod(xr, crow[k], qi);
            proof {
                vstd::arithmetic::div_mod::lemma_sub_mod_noop(src@[k as int] as int, crow@[k as int] as int, qi as int);
                vstd::arithmetic::div_mod::lemma_small_mod(crow@[k as int] as nat, qi as nat);
            }
            row.push(mul_mod(d, pinv, qi));
            k = k + 1;
        }
        assert(row@ =~= want[i as int]);
        out.push(row);
        i = i + 1;
    }
    proof {
        let v = out@.map_values(|w: Vec<u64>| w@);
        assert(v =~= want);
        assert forall|u: int| 0 <= u < v.len() implies (#[trigger] v[u]).len() == v[0].len() by {
            assert(xv[u].len() == n);
        }
    }
    Poly::from_coeffs(out)
}

/// The moduli of `a` followed by those of `b`.
pub fn concat_moduli(a: &[Modulus], b: &[Modulus]) -> (r: Vec<Modulus>)
    ensures
        r@ == a@ + b@,
        modulus_values(r@) == modulus_values(a@) + modulus_values(b@),
{
    let mut out: Vec<Modulus> = Vec::with_capacity(a.len());
    let mut i: usize = 0;
    while i < a.len()
        invariant
            i <= a@.len(),
            out@ == a@.subrange(0, i as int),
        decreases a@.len() - i,
    {
        out.push(a[i]);
        i = i + 1;
        assert(out@ =~= a@.subrange(0, i as int));
    }
    let mut k: usize = 0;
    while k < b.len()
        invariant
            k <= b@.len(),
            out@ == a@ + b@.subrange(0, k as int),
        decreases b@.len() - k,
    {
        out.push(b[k]);
        k = k + 1;
        assert(out@ =~= a@ + b@.subrange(0, k as int));
    }
    assert(out@ =~= a@ + b@);
    assert(modulus_values(out@) =~= modulus_values(a@) + modulus_values(b@));
    out
}

/// The moduli of `m` from position `from` on.
pub fn tail_moduli(m: &[Modulus], from: usize) -> (r: Vec<Modulus>)
    requires
        from <= m@.len(),
    ensures
        r@ == m@.subrange(from as int, m@.len() as int),
        modulus_values(r@) == modulus_values(m@).subrange(from as int, m@.len() as int),
{
    let mut out: Vec<Modulus> = Vec::with_capacity(m.len() - from);
    let mut i: usize = from;
    while i < m.len()
        invariant
            from <= i <= m@.len(),
            out@ == m@.subrange(from as int, i as int),
        decreases m@.len() - i,
    {
        out.push(m[i]);
        i = i + 1;
        assert(out@ =~= m@.subrange(from as int, i as int));
    }
    assert(modulus_values(out@) =~= modulus_values(m@).subrange(from as int, m@.len() as int));
    out
}

} // verus!
