//! Residue-number-system constants: modular powers and inverses, and the
//! CRT basis constants of a set of moduli.

use vstd::arithmetic::power::pow;
use vstd::prelude::*;

use crate::ring::arith::mul_mod;
use crate::ring::poly::{modulus_values, Modulus};

verus! {

proof fn lemma_pow_step(a: int, e: nat, q: int, result: int, base: int, exp: nat)
    requires
        q > 0,
        (result * pow(base, exp)) % q == pow(a, e) % q,
    ensures
        ((if exp % 2 == 1 {
            (result * base) % q
        } else {
            result
        }) * pow((base * base) % q, exp / 2)) % q == pow(a, e) % q,
{
    let o: nat = exp % 2;
    let h: nat = exp / 2;
    assert(exp == 2 * h + o);
    vstd::arithmetic::power::lemma_pow_adds(base, 2 * h, o);
    vstd::arithmetic::power::lemma_pow_multiplies(base, 2, h);
    vstd::arithmetic::power::lemma_square_is_pow2(base);
    assert(pow(base, 2) == base * base);
    assert(pow(base, exp) == pow(base * base, h) * pow(base, o));
    vstd::arithmetic::power::lemma_pow_mod_noop(base * base, h, q);
    let p = pow(base * base, h);
    let pq = pow((base * base) % q, h);
    assert(pq % q == p % q);
    if o == 1 {
        vstd::arithmetic::power::lemma_pow1(base);
        assert(pow(base, o) == base);
        let r2 = (result * base) % q;
        // (r2 * pq) % q == (result * base * p) % q
        vstd::arithmetic::div_mod::lemma_mul_mod_noop(result * base, pq, q);
        vstd::arithmetic::div_mod::lemma_mul_mod_noop(result * base, p, q);
        vstd::arithmetic::div_mod::lemma_mod_twice(result * base, q);
        assert((r2 * pq) % q == ((result * base) * p) % q) by {
            assert(r2 % q == (result * base) % q);
            vstd::arithmetic::div_mod::lemma_mul_mod_noop(r2, pq, q);
        }
        assert((result * base) * p == result * (p * base)) by (nonlinear_arith);
        assert(pow(base, exp) == p * base);
    } else {
        vstd::arithmetic::power::lemma_pow0(base);
        assert(pow(base, o) == 1);
        assert(pow(base, exp) == p);
        vstd::arithmetic::div_mod::lemma_mul_mod_noop(result, pq, q);
        vstd::arithmetic::div_mod::lemma_mul_mod_noop(result, p, q);
    }
}

/// `a^e mod q`, by square and multiply.
pub fn pow_mod(a: u64, e: u64, q: u64) -> (r: u64)
    requires
        q > 0,
    ensures
        r == pow(a as int, e as nat) % (q as int),
        r < q,
{
    let mut result: u64 = 1 % q;
    let mut base: u64 = a % q;
    let mut exp: u64 = e;
    proof {
        let y = pow(base as int, e as nat);
        vstd::arithmetic::power::lemma_pow_mod_noop(a as int, e as nat, q as int);
        assert(base as int == (a as int) % (q as int));
        assert(y % (q as int) == pow(a as int, e as nat) % (q as int));
        vstd::arithmetic::div_mod::lemma_mul_mod_noop_left(1int, y, q as int);
        assert(result as int == 1int % (q as int));
        assert(1int * y == y);
        assert((result * y) % (q as int) == y % (q as int));
    }
    while exp > 0
        invariant
            q > 0,
            result < q,
            base < q,
            (result * pow(base as int, exp as nat)) % (q as int) == pow(a as int, e as nat) % (q as int),
        decreases exp,
    {
        proof {
            lemma_pow_step(a as int, e as nat, q as int, result as int, base as int, exp as nat);
        }
        if exp % 2 == 1 {
            result = mul_mod(result, base, q);
        }
        base = mul_mod(base, base, q);
        exp = exp / 2;
    }
    proof {
        vstd::arithmetic::power::lemma_pow0(base as int);
        vstd::arithmetic::div_mod::lemma_small_mod(result as nat, q as nat);
    }
    result
}

/// `a^(q-2) mod q`: the inverse of `a` modulo a prime `q` that does not
/// divide it.
pub fn inv_mod(a: u64, q: u64) -> (r: u64)
    requires
        q > 1,
    ensures
        r == pow(a as int, (q - 2) as nat) % (q as int),
        r < q,
{
    pow_mod(a, q - 2, q)
}

/// The product of the first `m` moduli, leaving out the `j`-th.
pub open spec fn prod_except(moduli: Seq<u64>, j: int, m: int) -> int
    decreases m,
{
    if m <= 0 {
        1
    } else if m - 1 == j {
        prod_except(moduli, j, m - 1)
    } else {
        prod_except(moduli, j, m - 1) * moduli[m - 1]
    }
}

/// `(prod_{i != j} moduli[i]) mod t`.
pub fn prod_except_mod(moduli: &[Modulus], j: usize, t: u64) -> (r: u64)
    requires
        t > 0,
    ensures
        r == prod_except(modulus_values(moduli@), j as int, moduli@.len() as int) % (t as int),
        r < t,
{
    let ghost mv = modulus_values(moduli@);
    let mut acc: u64 = 1 % t;
    let mut i: usize = 0;
    while i < moduli.len()
        invariant
            t > 0,
            mv == modulus_values(moduli@),
            i <= moduli@.len(),
            acc < t,
            acc == prod_except(mv, j as int, i as int) % (t as int),
        decreases moduli@.len() - i,
    {
        if i != j {
            let m = moduli[i].value();
            proof {
                assert(m == mv[i as int]);
                let pe = prod_except(mv, j as int, i as int);
                vstd::arithmetic::div_mod::lemma_mul_mod_noop_left(pe, m as int, t as int);
            }
            acc = mul_mod(acc, m, t);
        }
        i = i + 1;
    }
    acc
}

/// The CRT basis constants of modulus `j`: `(Q / q_j) mod t` for each
/// target modulus `t`, where `Q` is the product of `moduli`.
pub fn crt_basis_constant(moduli: &[Modulus], j: usize, targets: &[Modulus]) -> (r: Vec<u64>)
    ensures
        r@.len() == targets@.len(),
        forall|k: int|
            0 <= k < targets@.len() ==> #[trigger] r@[k] == prod_except(
                modulus_values(moduli@),
                j as int,
                moduli@.len() as int,
            ) % (targets@[k]@ as int),
{
    let mut out: Vec<u64> = Vec::with_capacity(targets.len());
    let mut k: usize = 0;
    while k < targets.len()
        invariant
            k <= targets@.len(),
            out@.len() == k,
            forall|u: int|
                0 <= u < k ==> #[trigger] out@[u] == prod_except(
                    modulus_values(moduli@),
                    j as int,
                    moduli@.len() as int,
                ) % (targets@[u]@ as int),
        decreases targets@.len() - k,
    {
        let t = targets[k].value();
        out.push(prod_except_mod(moduli, j, t));
        k = k + 1;
    }
    out
}

/// The CRT lift constant of modulus `q_j` reduced modulo `t`:
/// `((Q / q_j) mod t) * ((Q / q_j)^(q_j - 2) mod q_j) mod t`, that is
/// `(Q / q_j) * ((Q / q_j)^-1 mod q_j)` for prime, pairwise coprime moduli.
pub open spec fn crt_lift(moduli: Seq<u64>, j: int, t: u64) -> u64 {
    let hat = prod_except(moduli, j, moduli.len() as int);
    let qj = moduli[j];
    (((hat % (t as int)) * (pow(hat % (qj as int), (qj - 2) as nat) % (qj as int))) % (t as int)) as u64
}

/// The CRT lift constants of modulus `j` for each target modulus.
pub fn crt_lift_constant(moduli: &[Modulus], j: usize, targets: &[Modulus]) -> (r: Vec<u64>)
    requires
        j < moduli@.len(),
    ensures
        r@.len() == targets@.len(),
        forall|k: int|
            0 <= k < targets@.len() ==> #[trigger] r@[k] == crt_lift(
                modulus_values(moduli@),
                j as int,
                targets@[k]@,
            ),
{
    let qj = moduli[j].value();
    let hat_qj = prod_except_mod(moduli, j, qj);
    let inv = inv_mod(hat_qj, qj);
    let mut out: Vec<u64> = Vec::with_capacity(targets.len());
    let mut k: usize = 0;
    while k < targets.len()
        invariant
            j < moduli@.len(),
            qj == modulus_values(moduli@)[j as int],
            qj > 1,
            inv == pow(
                prod_except(modulus_values(moduli@), j as int, moduli@.len() as int) % (qj as int),
                (qj - 2) as nat,
            ) % (qj as int),
            k <= targets@.len(),
            out@.len() == k,
            forall|u: int|
                0 <= u < k ==> #[trigger] out@[u] == crt_lift(
                    modulus_values(moduli@),
                    j as int,
                    targets@[u]@,
                ),
        decreases targets@.len() - k,
    {
        let t = targets[k].value();
        let hat_t = prod_except_mod(moduli, j, t);
        out.push(mul_mod(hat_t, inv, t));
        k = k + 1;
    }
    out
}

} // verus!
