//! Galois automorphisms `a(X) -> a(X^k)` of the negacyclic ring
//! `Z_Q[X]/(X^n + 1)`.
//!
//! Substituting `X^k` sends the monomial `X^i` to `X^(i*k mod 2n)`, and
//! `X^(n + t) = -X^t`: coefficient `i` moves to position `i*k mod 2n`
//! reduced modulo `n`, negated where the exponent wraps past `n`. The map is
//! a ring automorphism exactly when `k` is invertible modulo `2n`.

use vstd::prelude::*;

use crate::ring::arith::sub_mod;
use crate::ring::poly::{poly_check, poly_in_ring, Poly, Ring, RingError, Rows};

verus! {

/// The exponent of `X^i` after substituting `X^k`: `i*k mod 2n`.
pub open spec fn galois_exponent(i: int, k: int, n: int) -> int {
    (i * k) % (2 * n)
}

/// `k` has an inverse modulo `2n`.
pub open spec fn galois_invertible(k: int, n: int) -> bool {
    exists|c: int| 0 <= c < 2 * n && #[trigger] ((k * c) % (2 * n)) == 1
}

/// `out` is the image of `a` under `X -> X^k` in degree `n`: for each row
/// `j` and coefficient `i`, `a[j][i]` sits at position `i*k mod 2n` modulo
/// `n`, negated modulo `moduli[j]` where that exponent is `n` or more.
pub open spec fn galois_image(a: Rows, out: Rows, k: int, n: int, moduli: Seq<u64>) -> bool {
    &&& out.len() == a.len()
    &&& forall|j: int| 0 <= j < out.len() ==> (#[trigger] out[j]).len() == n
    &&& forall|j: int, i: int|
        0 <= j < a.len() && 0 <= i < n ==> #[trigger] out[j][galois_exponent(i, k, n) % n] == (if galois_exponent(
            i,
            k,
            n,
        ) < n {
            a[j][i]
        } else {
            ((0 - a[j][i]) % (moduli[j] as int)) as u64
        })
}

/// The inverse of `k` modulo `2n`, where there is one.
pub open spec fn galois_inverse(k: int, n: int) -> int {
    choose|c: int| 0 <= c < 2 * n && #[trigger] ((k * c) % (2 * n)) == 1
}

/// The image of `a` under `X -> X^k` in degree `n`, read position by
/// position: position `t` takes coefficient `s = t * k^-1 mod 2n`, negated
/// and taken at `s - n` where `s` is `n` or more.
pub open spec fn galois_apply(a: Rows, k: int, n: int, moduli: Seq<u64>) -> Rows {
    let c = galois_inverse(k, n);
    Seq::new(
        a.len(),
        |j: int|
            Seq::new(
                n as nat,
                |t: int|
                    if (t * c) % (2 * n) < n {
                        a[j][(t * c) % (2 * n)]
                    } else {
                        ((0 - a[j][(t * c) % (2 * n) - n]) % (moduli[j] as int)) as u64
                    },
            ),
    )
}

/// An inverse modulo `2n` is unique.
proof fn lemma_galois_inverse_unique(k: int, c1: int, c2: int, n: int)
    requires
        n > 0,
        0 <= c1 < 2 * n,
        0 <= c2 < 2 * n,
        (k * c1) % (2 * n) == 1,
        (k * c2) % (2 * n) == 1,
    ensures
        c1 == c2,
{
    let big = 2 * n;
    vstd::arithmetic::div_mod::lemma_mul_mod_noop_right(c1, k * c2, big);
    vstd::arithmetic::div_mod::lemma_mul_mod_noop_right(c2, k * c1, big);
    assert(c1 * (k * c2) == c2 * (k * c1)) by (nonlinear_arith);
    vstd::arithmetic::div_mod::lemma_small_mod(c1 as nat, big as nat);
    vstd::arithmetic::div_mod::lemma_small_mod(c2 as nat, big as nat);
}

/// An inverse of `k` modulo `2n` is odd.
proof fn lemma_inverse_is_odd(k: int, c: int, n: int)
    requires
        n > 0,
        k >= 0,
        c >= 0,
        (k * c) % (2 * n) == 1,
    ensures
        c % 2 == 1,
{
    let big = 2 * n;
    vstd::arithmetic::div_mod::lemma_fundamental_div_mod(k * c, big);
    let qt = (k * c) / big;
    if c % 2 == 0 {
        let m = c / 2;
        assert(c == 2 * m);
        assert(k * c == 2 * (k * m)) by (nonlinear_arith)
            requires
                c == 2 * m,
        ;
        assert(big * qt == 2 * (n * qt)) by (nonlinear_arith)
            requires
                big == 2 * n,
        ;
        assert(2 * (k * m) == 2 * (n * qt) + 1);
    }
}

/// Where coefficient `i` lands under `X -> X^k`, reading back with the
/// inverse `c` of `k` modulo `2n` recovers `i` (or `i + n` past the wrap).
proof fn lemma_galois_inverse(i: int, k: int, c: int, n: int)
    requires
        n > 0,
        0 <= i < n,
        k >= 0,
        0 <= c < 2 * n,
        (k * c) % (2 * n) == 1,
    ensures
        galois_exponent(i, k, n) < n ==> (galois_exponent(i, k, n) * c) % (2 * n) == i,
        galois_exponent(i, k, n) >= n ==> ((galois_exponent(i, k, n) - n) * c) % (2 * n) == i + n,
{
    let big = 2 * n;
    let u = galois_exponent(i, k, n);
    vstd::arithmetic::div_mod::lemma_mul_mod_noop_left(i * k, c, big);
    assert((i * k) * c == i * (k * c)) by (nonlinear_arith);
    vstd::arithmetic::div_mod::lemma_mul_mod_noop_right(i, k * c, big);
    vstd::arithmetic::div_mod::lemma_small_mod(i as nat, big as nat);
    assert((u * c) % big == i);
    if u >= n {
        lemma_inverse_is_odd(k, c, n);
        let m = c / 2;
        assert(c == 2 * m + 1);
        assert(n * c == big * m + n) by (nonlinear_arith)
            requires
                c == 2 * m + 1,
                big == 2 * n,
        ;
        vstd::arithmetic::div_mod::lemma_mod_multiples_vanish(m, n, big);
        vstd::arithmetic::div_mod::lemma_small_mod(n as nat, big as nat);
        assert((n * c) % big == n);
        assert((u - n) * c == u * c - n * c) by (nonlinear_arith);
        vstd::arithmetic::div_mod::lemma_sub_mod_noop(u * c, n * c, big);
        assert(((u - n) * c) % big == (i - n) % big);
        vstd::arithmetic::div_mod::lemma_mod_add_multiples_vanish(i - n, big);
        vstd::arithmetic::div_mod::lemma_small_mod((i + n) as nat, big as nat);
    }
}

impl Ring {
    /// Applies the Galois automorphism `a(X) -> a(X^element)` to `poly`:
    /// the ring error of `poly` first, then `InvalidGaloisElement` unless
    /// `element` is invertible modulo twice the degree.
    pub fn apply_automorphism(&self, poly: &Poly, element: usize) -> (r: Result<Poly, RingError>)
        ensures
            poly_check(self@, poly@) matches Err(e) ==> r == Err::<Poly, _>(e),
            poly_check(self@, poly@) is Ok && !galois_invertible(element as int, self@.degree as int)
                ==> r == Err::<Poly, _>(RingError::InvalidGaloisElement),
            r is Ok <==> poly_in_ring(self@.degree, self@.moduli, poly@) && galois_invertible(
                element as int,
                self@.degree as int,
            ),
            r matches Ok(p) ==> p@ == galois_apply(poly@, element as int, self@.degree as int, self@.moduli)
                && galois_image(poly@, p@, element as int, self@.degree as int, self@.moduli)
                && poly_in_ring(self@.degree, self@.moduli, p@),
    {
        self.check_poly(poly)?;
        self.check_valid();
        let n = self.degree();
        let big: u128 = 2 * (n as u128);
        assert(big <= 0x2_0000_0000_0000_0000);
        let k = (element as u128) % big;
        let ghost ni = n as int;
        proof {
            vstd::arithmetic::div_mod::lemma_mod_bound(element as int, big as int);
        }
        // The inverse of `k` modulo `2n`, searched for directly; `prod`
        // follows `k * c mod 2n`.
        let mut c: u128 = 0;
        let mut prod: u128 = 0;
        let mut found = false;
        proof {
            vstd::arithmetic::div_mod::lemma_small_mod(0, big as nat);
        }
        while !found && c < big
            invariant
                big == 2 * ni,
                ni > 0,
                big <= 0x2_0000_0000_0000_0000,
                k < big,
                k == (element as int) % (big as int),
                c <= big,
                prod < big,
                prod == (k * c) % (big as int),
                found ==> prod == 1 && c < big,
                !found ==> forall|d: int| 0 <= d < c ==> #[trigger] ((k * d) % (big as int)) != 1,
            decreases big - c + (if found { 0int } else { 1int }),
        {
            if prod == 1 {
                found = true;
            } else {
                proof {
                    vstd::arithmetic::div_mod::lemma_add_mod_noop(k * c, k as int, big as int);
                    vstd::arithmetic::div_mod::lemma_small_mod(k as nat, big as nat);
                    assert(k * c + k == k * (c + 1)) by (nonlinear_arith);
                }
                prod = (prod + k) % big;
                c = c + 1;
            }
        }
        if !found {
            proof {
                assert forall|d: int| 0 <= d < 2 * ni implies #[trigger] (((element as int) * d) % (2 * ni))
                    != 1 by {
                    vstd::arithmetic::div_mod::lemma_mul_mod_noop_left(element as int, d, big as int);
                    assert((k * d) % (big as int) != 1);
                }
            }
            return Err(RingError::InvalidGaloisElement);
        }
        let kinv = c;
        proof {
            assert(((element as int) * kinv) % (2 * ni) == 1) by {
                vstd::arithmetic::div_mod::lemma_mul_mod_noop_left(element as int, kinv as int, big as int);
            }
        }
        let rows = poly.coeffs();
        let moduli = self.moduli();
        let ghost a = poly@;
        let mut out: Vec<Vec<u64>> = Vec::with_capacity(rows.len());
        let mut j: usize = 0;
        while j < rows.len()
            invariant
                rows@.map_values(|v: Vec<u64>| v@) == a,
                poly_in_ring(self@.degree, self@.moduli, a),
                crate::ring::poly::modulus_values(moduli@) == self@.moduli,
                crate::ring::poly::ring_valid(self@),
                n == self@.degree,
                ni == n,
                n > 0,
                big == 2 * ni,
                kinv < big,
                big <= 0x2_0000_0000_0000_0000,
                j <= a.len(),
                out@.len() == j,
                forall|u: int| 0 <= u < j ==> (#[trigger] out@[u])@.len() == n,
                forall|u: int, t: int|
                    0 <= u < j && 0 <= t < n ==> #[trigger] out@[u]@[t] == (if ((t * kinv) % (big as int))
                        < ni {
                        a[u][(t * kinv) % (big as int)]
                    } else {
                        ((0 - a[u][(t * kinv) % (big as int) - ni]) % (self@.moduli[u] as int)) as u64
                    }),
            decreases a.len() - j,
        {
            let q = moduli[j].value();
            let src = &rows[j];
            assert(src@ == a[j as int]);
            assert(src@.len() == n);
            assert forall|i: int| 0 <= i < n implies #[trigger] src@[i] < q by {
                assert(a[j as int][i] < self@.moduli[j as int]);
            }
            let mut row: Vec<u64> = Vec::with_capacity(n);
            let mut t: usize = 0;
            let mut u: u128 = 0;
            proof {
                vstd::arithmetic::div_mod::lemma_small_mod(0, big as nat);
            }
            while t < n
                invariant
                    src@ == a[j as int],
                    src@.len() == n,
                    forall|i: int| 0 <= i < n ==> #[trigger] src@[i] < q,
                    crate::ring::arith::modulus_in_range(q as int),
                    q == self@.moduli[j as int],
                    ni == n,
                    big == 2 * ni,
                    kinv < big,
                    big <= 0x2_0000_0000_0000_0000,
                    u < big,
                    u == (t * kinv) % (big as int),
                    t <= n,
                    row@.len() == t,
                    forall|s: int|
                        0 <= s < t ==> #[trigger] row@[s] == (if ((s * kinv) % (big as int)) < ni {
                            a[j as int][(s * kinv) % (big as int)]
                        } else {
                            ((0 - a[j as int][(s * kinv) % (big as int) - ni]) % (q as int)) as u64
                        }),
                decreases n - t,
            {
                let value = if u < (n as u128) {
                    src[u as usize]
                } else {
                    let w = (u - (n as u128)) as usize;
                    sub_mod(0, src[w], q)
                };
                row.push(value);
                proof {
                    vstd::arithmetic::div_mod::lemma_add_mod_noop(t * kinv, kinv as int, big as int);
                    vstd::arithmetic::div_mod::lemma_small_mod(kinv as nat, big as nat);
                    assert(t * kinv + kinv == (t + 1) * kinv) by (nonlinear_arith);
                }
                u = (u + kinv) % big;
                t = t + 1;
            }
            out.push(row);
            j = j + 1;
        }
        let ghost ov = out@.map_values(|v: Vec<u64>| v@);
        proof {
            assert(ov.len() == a.len());
            assert forall|u: int, i: int| 0 <= u < a.len() && 0 <= i < n implies #[trigger] ov[u][galois_exponent(
                i,
                element as int,
                ni,
            ) % ni] == (if galois_exponent(i, element as int, ni) < ni {
                a[u][i]
            } else {
                ((0 - a[u][i]) % (self@.moduli[u] as int)) as u64
            }) by {
                let e = galois_exponent(i, element as int, ni);
                lemma_galois_inverse(i, element as int, kinv as int, ni);
                vstd::arithmetic::div_mod::lemma_mod_bound((i * (element as int)), 2 * ni);
                if e < ni {
                    vstd::arithmetic::div_mod::lemma_small_mod(e as nat, ni as nat);
                    assert(out@[u]@[e] == a[u][i]);
                } else {
                    vstd::arithmetic::div_mod::lemma_mod_sub_multiples_vanish(e, ni);
                    vstd::arithmetic::div_mod::lemma_small_mod((e - ni) as nat, ni as nat);
                    assert(e % ni == e - ni);
                    assert(((e - ni) * kinv) % (big as int) == i + ni);
                }
            }
            assert forall|u: int, t: int| 0 <= u < ov.len() && 0 <= t < ov[u].len() implies #[trigger] ov[u][t]
                < self@.moduli[u] by {
                assert(crate::ring::arith::modulus_in_range(self@.moduli[u] as int));
                let s = (t * kinv) % (big as int);
                if s < ni {
                    assert(a[u][s] < self@.moduli[u]);
                }
            }
            assert forall|u: int| 0 <= u < ov.len() implies (#[trigger] ov[u]).len() == ov[0].len() by {}
            let ci = galois_inverse(element as int, ni);
            assert(0 <= kinv < 2 * ni && (((element as int) * kinv) % (2 * ni)) == 1);
            lemma_galois_inverse_unique(element as int, kinv as int, ci, ni);
            let g = galois_apply(a, element as int, ni, self@.moduli);
            assert forall|u: int| 0 <= u < ov.len() implies #[trigger] ov[u] == g[u] by {
                assert(ov[u] =~= g[u]);
            }
            assert(ov =~= g);
        }
        Poly::from_coeffs(out)
    }
}

} // verus!
