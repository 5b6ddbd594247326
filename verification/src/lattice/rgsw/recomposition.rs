//! Recomposing a gadget decomposition gives the polynomial back: the digits
//! of a residue weighted by the powers of the base sum to the residue, and
//! the CRT lift constants select, modulo each `q_j`, the residue of row `j`.

use vstd::arithmetic::power2::pow2;
use vstd::prelude::*;

use crate::lattice::rgsw::decomposition::{
    decomposition_of, digit_poly, digit_scale, gadget_digit, level_sum, level_weight, modulus_sum, recompose_term,
    recomposition,
};
use crate::ring::poly::poly_in_ring;
use crate::ring::rns::{crt_lift, prod_except};

verus! {

/// `sum_{l < levels} digit_l(c) * 2^(l*b)`.
pub open spec fn digit_sum(c: u64, b: u32, levels: int) -> int
    decreases levels,
{
    if levels <= 0 {
        0
    } else {
        digit_sum(c, b, levels - 1) + gadget_digit(c, levels - 1, b) * pow2(((levels - 1) * b) as nat)
    }
}

/// Digit `level` of `c` is `floor(c / 2^(level*b)) mod 2^b`.
pub proof fn lemma_digit_value(c: u64, level: int, b: u32)
    requires
        1 <= b < 63,
        0 <= level,
        level * b < 64,
    ensures
        gadget_digit(c, level, b) == (c as nat / pow2((level * b) as nat)) % pow2(b as nat),
{
    let s = (level * b) as u64;
    vstd::bits::lemma_u64_shr_is_div(c, s);
    vstd::bits::lemma_u64_pow2_no_overflow(b as nat);
    vstd::bits::lemma_u64_shl_is_mul(1, b as u64);
    let mask = ((1u64 << (b as u64)) - 1) as u64;
    assert(mask == vstd::bits::low_bits_mask(b as nat) as u64);
    vstd::bits::lemma_u64_low_bits_mask_is_mod(c >> s, b as nat);
}

/// The weighted digits of `c` sum to `c mod 2^(levels*b)`.
pub proof fn lemma_digit_sum(c: u64, b: u32, levels: int)
    requires
        1 <= b < 63,
        levels >= 0,
        (levels - 1) * b < 64,
    ensures
        digit_sum(c, b, levels) == c as nat % pow2((levels * b) as nat),
    decreases levels,
{
    if levels == 0 {
        vstd::arithmetic::power2::lemma2_to64();
    } else {
        let l = levels - 1;
        assert(l * b <= (levels - 1) * b);
        assert((l - 1) * b < 64) by (nonlinear_arith)
            requires
                (levels - 1) * b < 64,
                l == levels - 1,
                b >= 1,
        ;
        lemma_digit_sum(c, b, l);
        assert(0 <= l * b) by (nonlinear_arith)
            requires
                l >= 0,
                b >= 1,
        ;
        lemma_digit_value(c, l, b);
        let y = pow2((l * b) as nat);
        let z = pow2(b as nat);
        vstd::arithmetic::power2::lemma_pow2_pos((l * b) as nat);
        vstd::arithmetic::power2::lemma_pow2_pos(b as nat);
        vstd::arithmetic::div_mod::lemma_breakdown(c as int, y as int, z as int);
        vstd::arithmetic::power2::lemma_pow2_adds((l * b) as nat, b as nat);
        assert((l * b) as nat + b as nat == (levels * b) as nat) by (nonlinear_arith)
            requires
                l == levels - 1,
                l >= 0,
                b >= 1,
        ;
        let dg = (c as nat / y) % z;
        assert(y * dg == dg * y) by (nonlinear_arith);
    }
}

/// The weight of level `l` is `2^(l*b)` reduced modulo `q`.
proof fn lemma_level_weight(l: int, b: u32, q: u64)
    requires
        q > 0,
        0 <= l * b < 64,
    ensures
        level_weight(l, b, q) == pow2((l * b) as nat) % (q as nat),
{
    let s = (l * b) as u32;
    assert((1u128 << s) == ((1u64 << (s as u64)) as u128)) by (bit_vector)
        requires
            s < 64,
    ;
    vstd::bits::lemma_u64_pow2_no_overflow(s as nat);
    vstd::bits::lemma_u64_shl_is_mul(1, s as u64);
}

/// The product of the moduli other than `q_m` is a multiple of every other
/// modulus `q_j`.
proof fn lemma_prod_except_multiple(moduli: Seq<u64>, m: int, j: int, len: int)
    requires
        0 <= j < len <= moduli.len(),
        j != m,
        moduli[j] > 0,
    ensures
        prod_except(moduli, m, len) % (moduli[j] as int) == 0,
    decreases len,
{
    let q = moduli[j] as int;
    let rest = prod_except(moduli, m, len - 1);
    if len - 1 == j {
        vstd::arithmetic::div_mod::lemma_mod_multiples_basic(rest, q);
        assert(rest * q == prod_except(moduli, m, len));
    } else {
        lemma_prod_except_multiple(moduli, m, j, len - 1);
        if len - 1 != m {
            vstd::arithmetic::div_mod::lemma_mul_mod_noop_left(rest, moduli[len - 1] as int, q);
            vstd::arithmetic::div_mod::lemma_small_mod(0, q as nat);
            assert(0 * moduli[len - 1] == 0);
        }
    }
}

/// The lift constant of `q_m` vanishes modulo every other modulus.
proof fn lemma_crt_lift_elsewhere(moduli: Seq<u64>, m: int, j: int)
    requires
        0 <= m < moduli.len(),
        0 <= j < moduli.len(),
        j != m,
        moduli[j] > 0,
    ensures
        crt_lift(moduli, m, moduli[j]) == 0,
{
    lemma_prod_except_multiple(moduli, m, j, moduli.len() as int);
    let q = moduli[j] as int;
    let qm = moduli[m];
    let inv = vstd::arithmetic::power::pow(
        prod_except(moduli, m, moduli.len() as int) % (qm as int),
        (qm - 2) as nat,
    ) % (qm as int);
    assert(0 * inv == 0);
    vstd::arithmetic::div_mod::lemma_small_mod(0, q as nat);
}

/// `((x mod q) * (((w mod q) * z) mod q)) mod q == (x * w * z) mod q`.
proof fn lemma_triple_product_mod(x: int, w: int, z: int, q: int)
    requires
        q > 0,
    ensures
        ((x % q) * (((w % q) * z) % q)) % q == (x * w * z) % q,
{
    let y = ((w % q) * z) % q;
    vstd::arithmetic::div_mod::lemma_mul_mod_noop_left(x, y, q);
    vstd::arithmetic::div_mod::lemma_mul_mod_noop_left(w, z, q);
    vstd::arithmetic::div_mod::lemma_mul_mod_noop_right(x, (w % q) * z, q);
    vstd::arithmetic::div_mod::lemma_mul_mod_noop_right(x, w * z, q);
    assert(x * (w * z) == x * w * z) by (nonlinear_arith);
}

/// The levels of source row `m` recompose, modulo `q_j`, to the weighted
/// digit sum of its residue times the lift constant of `q_m`.
proof fn lemma_level_sum(
    p: Seq<Seq<u64>>,
    d: Seq<Seq<Seq<u64>>>,
    b: u32,
    levels: int,
    moduli: Seq<u64>,
    m: int,
    j: int,
    i: int,
    upto: int,
)
    requires
        1 <= b < 63,
        levels > 0,
        (levels - 1) * b < 64,
        0 <= upto <= levels,
        decomposition_of(p, b, levels, moduli, d),
        0 <= m < p.len(),
        0 <= j < moduli.len(),
        0 <= i < p[m].len(),
        moduli[j] > 0,
    ensures
        level_sum(d, levels, moduli, b, m, j, i, upto) % (moduli[j] as int) == (digit_sum(p[m][i], b, upto)
            * crt_lift(moduli, m, moduli[j])) % (moduli[j] as int),
    decreases upto,
{
    let q = moduli[j] as int;
    let lift = crt_lift(moduli, m, moduli[j]) as int;
    if upto == 0 {
        vstd::arithmetic::div_mod::lemma_small_mod(0, q as nat);
    } else {
        let l = upto - 1;
        lemma_level_sum(p, d, b, levels, moduli, m, j, i, l);
        assert(0 <= l * b < 64) by (nonlinear_arith)
            requires
                0 <= l < levels,
                (levels - 1) * b < 64,
                b >= 1,
        ;
        lemma_level_weight(l, b, moduli[j]);
        let c = p[m][i];
        let dg = gadget_digit(c, l, b) as int;
        let w = pow2((l * b) as nat) as int;
        assert(d[m * levels + l] == digit_poly(p[m], l, b, moduli));
        assert(d[m * levels + l][j][i] == (dg % q) as u64);
        let t = recompose_term(d, levels, moduli, b, m, l, j, i);
        assert(t == ((dg % q) * (((w % q) * lift) % q)) % q);
        lemma_triple_product_mod(dg, w, lift, q);
        let prev = level_sum(d, levels, moduli, b, m, j, i, l);
        let ds = digit_sum(c, b, l);
        vstd::arithmetic::div_mod::lemma_add_mod_noop(prev, t, q);
        vstd::arithmetic::div_mod::lemma_mod_twice(dg * w * lift, q);
        vstd::arithmetic::div_mod::lemma_add_mod_noop(ds * lift, dg * w * lift, q);
        assert((ds + dg * w) * lift == ds * lift + dg * w * lift) by (nonlinear_arith);
    }
}

/// Every row of the decomposition recomposes, modulo `q_j`, to the residue
/// of row `j`, when the digits cover every residue and the lift constants
/// reduce to one modulo their own modulus.
proof fn lemma_modulus_sum(
    p: Seq<Seq<u64>>,
    d: Seq<Seq<Seq<u64>>>,
    b: u32,
    levels: int,
    moduli: Seq<u64>,
    j: int,
    i: int,
    n: nat,
    upto: int,
)
    requires
        1 <= b < 63,
        levels > 0,
        (levels - 1) * b < 64,
        0 <= upto <= p.len(),
        p.len() == moduli.len(),
        decomposition_of(p, b, levels, moduli, d),
        0 <= j < moduli.len(),
        0 <= i < n,
        forall|k: int| 0 <= k < p.len() ==> (#[trigger] p[k]).len() == n,
        forall|k: int| 0 <= k < moduli.len() ==> #[trigger] moduli[k] > 0,
        forall|k: int| 0 <= k < p.len() ==> (#[trigger] p[k][i]) < pow2((levels * b) as nat),
        crt_lift(moduli, j, moduli[j]) == 1,
    ensures
        modulus_sum(d, levels, moduli, b, j, i, upto) % (moduli[j] as int) == (if j < upto {
            p[j][i] as int
        } else {
            0
        }) % (moduli[j] as int),
    decreases upto,
{
    let q = moduli[j] as int;
    if upto == 0 {
        vstd::arithmetic::div_mod::lemma_small_mod(0, q as nat);
    } else {
        let m = upto - 1;
        lemma_modulus_sum(p, d, b, levels, moduli, j, i, n, m);
        assert(p[m].len() == n);
        lemma_level_sum(p, d, b, levels, moduli, m, j, i, levels);
        lemma_digit_sum(p[m][i], b, levels);
        vstd::arithmetic::power2::lemma_pow2_pos((levels * b) as nat);
        vstd::arithmetic::div_mod::lemma_small_mod(p[m][i] as nat, pow2((levels * b) as nat));
        let prev = modulus_sum(d, levels, moduli, b, j, i, m);
        let ls = level_sum(d, levels, moduli, b, m, j, i, levels);
        vstd::arithmetic::div_mod::lemma_add_mod_noop(prev, ls, q);
        if m != j {
            lemma_crt_lift_elsewhere(moduli, m, j);
            vstd::arithmetic::div_mod::lemma_small_mod(0, q as nat);
            let before = if j < m {
                p[j][i] as int
            } else {
                0
            };
            vstd::arithmetic::div_mod::lemma_mod_twice(before, q);
        } else {
            vstd::arithmetic::div_mod::lemma_small_mod(0, q as nat);
            vstd::arithmetic::div_mod::lemma_mod_twice(p[j][i] as int, q);
        }
    }
}

/// Recomposing a gadget decomposition gives the polynomial back, when the
/// digits cover every residue (`q_m <= 2^(levels*b)` for every modulus) and
/// each CRT lift constant reduces to one modulo its own modulus, as it does
/// for distinct primes.
pub proof fn lemma_recompose_decompose(p: Seq<Seq<u64>>, b: u32, levels: int, moduli: Seq<u64>, d: Seq<Seq<Seq<u64>>>)
    requires
        1 <= b < 63,
        levels > 0,
        (levels - 1) * b < 64,
        p.len() > 0,
        poly_in_ring(p[0].len(), moduli, p),
        forall|k: int| 0 <= k < moduli.len() ==> #[trigger] moduli[k] > 0,
        forall|k: int| 0 <= k < moduli.len() ==> #[trigger] moduli[k] <= pow2((levels * b) as nat),
        forall|k: int| 0 <= k < moduli.len() ==> #[trigger] crt_lift(moduli, k, moduli[k]) == 1,
        decomposition_of(p, b, levels, moduli, d),
    ensures
        recomposition(d, levels, moduli, b, p[0].len()) == p,
{
    let n = p[0].len();
    let r = recomposition(d, levels, moduli, b, n);
    assert forall|j: int| 0 <= j < moduli.len() implies #[trigger] r[j] =~= p[j] by {
        let q = moduli[j] as int;
        assert forall|i: int| 0 <= i < n implies #[trigger] r[j][i] == p[j][i] by {
            assert forall|k: int| 0 <= k < p.len() implies (#[trigger] p[k][i]) < pow2((levels * b) as nat) by {
                assert(p[k][i] < moduli[k]);
            }
            lemma_modulus_sum(p, d, b, levels, moduli, j, i, n, p.len() as int);
            vstd::arithmetic::div_mod::lemma_small_mod(p[j][i] as nat, q as nat);
        }
    }
    assert(r =~= p);
}

} // verus!
