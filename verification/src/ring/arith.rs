//! Word-sized modular arithmetic.

use vstd::prelude::*;

verus! {

/// The largest modulus the ring arithmetic accepts is below `2^63`, so that
/// the sum of two residues never overflows a `u64`.
pub open spec fn modulus_in_range(q: int) -> bool {
    1 < q < 0x8000_0000_0000_0000
}

/// `(a + b) mod q` for residues `a, b < q`.
pub fn add_mod(a: u64, b: u64, q: u64) -> (r: u64)
    requires
        modulus_in_range(q as int),
        a < q,
        b < q,
    ensures
        r == (a + b) % (q as int),
        r < q,
{
    let s = a + b;
    if s >= q {
        proof {
            vstd::arithmetic::div_mod::lemma_mod_add_multiples_vanish(s - q, q as int);
            vstd::arithmetic::div_mod::lemma_small_mod((s - q) as nat, q as nat);
        }
        s - q
    } else {
        proof {
            vstd::arithmetic::div_mod::lemma_small_mod(s as nat, q as nat);
        }
        s
    }
}

/// `(a - b) mod q` for residues `a, b < q`, in `[0, q)`.
pub fn sub_mod(a: u64, b: u64, q: u64) -> (r: u64)
    requires
        modulus_in_range(q as int),
        a < q,
        b < q,
    ensures
        r == (a - b) % (q as int),
        r < q,
{
    if a >= b {
        proof {
            vstd::arithmetic::div_mod::lemma_small_mod((a - b) as nat, q as nat);
        }
        a - b
    } else {
        proof {
            vstd::arithmetic::div_mod::lemma_small_mod((a + q - b) as nat, q as nat);
            vstd::arithmetic::div_mod::lemma_mod_add_multiples_vanish(a - b, q as int);
        }
        a + (q - b)
    }
}

/// `(a * b) mod q`.
pub fn mul_mod(a: u64, b: u64, q: u64) -> (r: u64)
    requires
        q > 0,
    ensures
        r == (a * b) % (q as int),
        r < q,
{
    proof {
        assert(a * b <= 0xffff_ffff_ffff_ffffu64 * 0xffff_ffff_ffff_ffffu64) by (nonlinear_arith)
            requires
                a <= 0xffff_ffff_ffff_ffffu64,
                b <= 0xffff_ffff_ffff_ffffu64,
        ;
    }
    let p = (a as u128) * (b as u128);
    let r = p % (q as u128);
    proof {
        vstd::arithmetic::div_mod::lemma_mod_bound(p as int, q as int);
    }
    r as u64
}

/// `a mod q`.
pub fn reduce(a: u64, q: u64) -> (r: u64)
    requires
        q > 0,
    ensures
        r == a % q,
        r < q,
{
    a % q
}

} // verus!
