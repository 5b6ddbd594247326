//! Seeded randomness: uniform sampling from a ChaCha20 stream, and the
//! common ring elements that every participant of a session derives alike.

use rand_chacha::rand_core::{RngCore, SeedableRng};
use rand_chacha::ChaCha20Rng;
use vstd::prelude::*;

use crate::codec::{push_u64_le, u64_le};
use crate::multiparty::common::masking::sample_uniform_mod_t;
use crate::multiparty::common::session::SessionState;
use crate::multiparty::common::transcript::{sha256, sha256_digest};
use crate::ring::poly::{poly_in_ring, Poly, Ring, RingView, Rows};

verus! {

#[verifier::external_type_specification]
#[verifier::external_body]
pub struct ExChaCha20Rng(ChaCha20Rng);

/// Word `index` (counting from zero) of the stream that `next_u64` yields
/// from `ChaCha20Rng::from_seed(seed)`.
pub uninterp spec fn chacha20_word(seed: Seq<u8>, index: nat) -> u64;

/// A ChaCha20 generator, with its seed and the number of words drawn from
/// it so far kept as ghost state.
pub struct WordStream {
    rng: ChaCha20Rng,
    seed: Ghost<Seq<u8>>,
    drawn: Ghost<nat>,
}

impl View for WordStream {
    type V = (Seq<u8>, nat);

    closed spec fn view(&self) -> (Seq<u8>, nat) {
        (self.seed@, self.drawn@)
    }
}

/// `ChaCha20Rng::from_seed`: the generator keyed by the 32-byte seed, no
/// word drawn yet.
#[verifier::external_body]
fn chacha_from_seed(seed: [u8; 32]) -> (r: WordStream)
    ensures
        r@ == (seed@, 0nat),
{
    WordStream { rng: ChaCha20Rng::from_seed(seed), seed: Ghost(seed@), drawn: Ghost(0nat) }
}

/// `RngCore::next_u64` of `ChaCha20Rng`: the next word of the stream, and
/// one more word drawn.
#[verifier::external_body]
fn chacha_next_u64(stream: &mut WordStream) -> (r: u64)
    ensures
        r == chacha20_word(old(stream)@.0, old(stream)@.1),
        final(stream)@ == (old(stream)@.0, old(stream)@.1 + 1),
{
    let r = stream.rng.next_u64();
    stream.drawn = Ghost(stream.drawn@ + 1);
    r
}

impl WordStream {
    /// The stream keyed by `seed`, from its first word.
    pub fn from_seed(seed: [u8; 32]) -> (r: Self)
        ensures
            r@ == (seed@, 0nat),
    {
        chacha_from_seed(seed)
    }
}

/// The largest multiple of `q` that fits in a `u64`: words at or above it
/// are rejected.
pub open spec fn acceptance_zone(q: u64) -> int {
    u64::MAX - (u64::MAX % q)
}

/// Rejection sampling below `q` from word `index` on, after `attempts`
/// rejections: the value and the index of the next unused word. After
/// `u64::MAX` rejections the word is reduced as it is.
pub open spec fn draw_below(q: u64, seed: Seq<u8>, index: nat, attempts: u64) -> (u64, nat)
    decreases u64::MAX - attempts,
{
    let v = chacha20_word(seed, index);
    if v < acceptance_zone(q) || attempts == u64::MAX {
        ((v % q) as u64, index + 1)
    } else {
        draw_below(q, seed, index + 1, (attempts + 1) as u64)
    }
}

/// `count` values drawn one after the other below `q` from word `index` on:
/// the values and the index of the next unused word.
pub open spec fn draw_row(q: u64, seed: Seq<u8>, index: nat, count: nat) -> (Seq<u64>, nat)
    decreases count,
{
    if count == 0 {
        (Seq::empty(), index)
    } else {
        let (prev, next) = draw_row(q, seed, index, (count - 1) as nat);
        let (v, after) = draw_below(q, seed, next, 0);
        (prev.push(v), after)
    }
}

/// The first `count` rows of a polynomial drawn row after row, `n` values
/// below each modulus, from word `index` on.
pub open spec fn draw_rows(moduli: Seq<u64>, n: nat, seed: Seq<u8>, index: nat, count: nat) -> (Seq<Seq<u64>>, nat)
    decreases count,
{
    if count == 0 {
        (Seq::empty(), index)
    } else {
        let (prev, next) = draw_rows(moduli, n, seed, index, (count - 1) as nat);
        let (row, after) = draw_row(moduli[count - 1], seed, next, n);
        (prev.push(row), after)
    }
}

/// A uniform value below `q`: words are drawn until one falls below the
/// largest multiple of `q` that fits in a `u64`, and reduced modulo `q`.
/// After `u64::MAX` rejections the last word is reduced as it is.
pub fn sample_below(q: u64, stream: &mut WordStream) -> (r: u64)
    requires
        q > 0,
    ensures
        (r, final(stream)@.1) == draw_below(q, old(stream)@.0, old(stream)@.1, 0),
        final(stream)@.0 == old(stream)@.0,
        r < q,
{
    let ghost seed = stream@.0;
    let ghost start = stream@.1;
    let zone = u64::MAX - (u64::MAX % q);
    let mut attempts: u64 = 0;
    loop
        invariant
            q > 0,
            zone == acceptance_zone(q),
            stream@.0 == seed,
            seed == old(stream)@.0,
            start == old(stream)@.1,
            draw_below(q, seed, start, 0) == draw_below(q, seed, stream@.1, attempts),
        decreases u64::MAX - attempts,
    {
        let ghost index = stream@.1;
        let v = chacha_next_u64(stream);
        if v < zone || attempts == u64::MAX {
            return v % q;
        }
        assert(draw_below(q, seed, index, attempts) == draw_below(q, seed, index + 1, (attempts + 1) as u64));
        attempts = attempts + 1;
    }
}


/// A uniform element of `ring`, coefficient by coefficient, row by row.
pub fn sample_uniform(ring: &Ring, stream: &mut WordStream) -> (r: Poly)
    ensures
        (r@, final(stream)@.1) == draw_rows(
            ring@.moduli,
            ring@.degree,
            old(stream)@.0,
            old(stream)@.1,
            ring@.moduli.len(),
        ),
        final(stream)@.0 == old(stream)@.0,
        poly_in_ring(ring@.degree, ring@.moduli, r@),
{
    ring.check_valid();
    let ghost seed = stream@.0;
    let ghost start = stream@.1;
    let moduli = ring.moduli();
    let n = ring.degree();
    let mut rows: Vec<Vec<u64>> = Vec::with_capacity(moduli.len());
    let mut j: usize = 0;
    while j < moduli.len()
        invariant
            crate::ring::poly::modulus_values(moduli@) == ring@.moduli,
            crate::ring::poly::ring_valid(ring@),
            n == ring@.degree,
            j <= moduli@.len(),
            stream@.0 == seed,
            (rows@.map_values(|r: Vec<u64>| r@), stream@.1) == draw_rows(ring@.moduli, n as nat, seed, start, j as nat),
            rows@.len() == j,
            forall|t: int| 0 <= t < j ==> (#[trigger] rows@[t])@.len() == n,
            forall|t: int, i: int|
                0 <= t < j && 0 <= i < n ==> #[trigger] rows@[t]@[i] < ring@.moduli[t],
        decreases moduli@.len() - j,
    {
        let q = moduli[j].value();
        assert(q == ring@.moduli[j as int]);
        let row = sample_uniform_mod_t(q, n, stream);
        let ghost before = rows@.map_values(|r: Vec<u64>| r@);
        rows.push(row);
        assert(rows@.map_values(|r: Vec<u64>| r@) =~= before.push(row@));
        j = j + 1;
    }
    let ghost rv = rows@.map_values(|r: Vec<u64>| r@);
    proof {
        assert forall|t: int| 0 <= t < rv.len() implies (#[trigger] rv[t]).len() == rv[0].len() by {}
        assert forall|t: int, i: int| 0 <= t < rv.len() && 0 <= i < rv[t].len() implies #[trigger] rv[t][i]
            < ring@.moduli[t] by {
            assert(rv[t] == rows@[t]@);
        }
    }
    Poly::from_rows(rows)
}

/// The seed of the common elements of session `id` for `purpose`:
/// SHA-256(`purpose` || `id` in 8 little-endian bytes).
pub open spec fn common_seed(id: u64, purpose: Seq<u8>) -> Seq<u8> {
    sha256_digest(purpose + u64_le(id))
}

/// The ring element that every participant of session `id` derives for
/// `purpose`: drawn uniformly from the ChaCha20 stream keyed by
/// [`common_seed`].
pub open spec fn common_element(r: RingView, id: u64, purpose: Seq<u8>) -> Rows {
    draw_rows(r.moduli, r.degree, common_seed(id, purpose), 0, r.moduli.len()).0
}

/// A rejection draw below `q` is below `q`.
proof fn lemma_draw_below_bound(q: u64, seed: Seq<u8>, index: nat, attempts: u64)
    requires
        q > 0,
    ensures
        draw_below(q, seed, index, attempts).0 < q,
    decreases u64::MAX - attempts,
{
    let v = chacha20_word(seed, index);
    if !(v < acceptance_zone(q) || attempts == u64::MAX) {
        lemma_draw_below_bound(q, seed, index + 1, (attempts + 1) as u64);
    }
}

/// The rows drawn for a ring are `n` values below each modulus.
proof fn lemma_draw_rows_shape(moduli: Seq<u64>, n: nat, seed: Seq<u8>, index: nat, count: nat)
    requires
        count <= moduli.len(),
        forall|j: int| 0 <= j < moduli.len() ==> #[trigger] moduli[j] > 0,
    ensures
        draw_rows(moduli, n, seed, index, count).0.len() == count,
        forall|j: int| 0 <= j < count ==> (#[trigger] draw_rows(moduli, n, seed, index, count).0[j]).len() == n,
        forall|j: int, i: int|
            0 <= j < count && 0 <= i < n ==> #[trigger] draw_rows(moduli, n, seed, index, count).0[j][i]
                < moduli[j],
    decreases count,
{
    if count > 0 {
        let c = (count - 1) as nat;
        lemma_draw_rows_shape(moduli, n, seed, index, c);
        let next = draw_rows(moduli, n, seed, index, c).1;
        lemma_draw_row_shape(moduli[c as int], seed, next, n);
    }
}

/// A row of `count` draws below `q`.
pub proof fn lemma_draw_row_shape(q: u64, seed: Seq<u8>, index: nat, count: nat)
    requires
        q > 0,
    ensures
        draw_row(q, seed, index, count).0.len() == count,
        forall|i: int| 0 <= i < count ==> #[trigger] draw_row(q, seed, index, count).0[i] < q,
    decreases count,
{
    if count > 0 {
        let c = (count - 1) as nat;
        lemma_draw_row_shape(q, seed, index, c);
        lemma_draw_below_bound(q, seed, draw_row(q, seed, index, c).1, 0);
    }
}

/// Common elements are elements of the ring.
pub proof fn lemma_common_element_in_ring(r: RingView, id: u64, purpose: Seq<u8>)
    requires
        crate::ring::poly::ring_valid(r),
    ensures
        poly_in_ring(r.degree, r.moduli, common_element(r, id, purpose)),
{
    lemma_draw_rows_shape(r.moduli, r.degree, common_seed(id, purpose), 0, r.moduli.len());
}

/// The ring element that every participant of `session` derives for
/// `purpose`: sampled uniformly from ChaCha20 keyed by
/// SHA-256(`purpose` || session id in 8 little-endian bytes).
pub fn derive_common_ring_element(ring: &Ring, session: &SessionState, purpose: &[u8]) -> (r: Poly)
    ensures
        r@ == common_element(ring@, session@.id, purpose@),
        poly_in_ring(ring@.degree, ring@.moduli, r@),
{
    let mut data: Vec<u8> = Vec::new();
    crate::codec::push_bytes(&mut data, purpose);
    push_u64_le(&mut data, session.id().get());
    let seed = sha256(data.as_slice());
    let mut stream = chacha_from_seed(seed);
    sample_uniform(ring, &mut stream)
}

} // verus!
