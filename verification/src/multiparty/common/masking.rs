//! Uniform masks modulo a plaintext modulus.

use vstd::prelude::*;

use crate::multiparty::common::randomness::{draw_row, lemma_draw_row_shape, sample_below, WordStream};

verus! {

/// `count` values drawn uniformly below `t`, one after the other, by
/// rejection of the words at or above the largest multiple of `t` that fits
/// in a `u64`.
pub fn sample_uniform_mod_t(t: u64, count: usize, stream: &mut WordStream) -> (r: Vec<u64>)
    requires
        t > 0,
    ensures
        (r@, final(stream)@.1) == draw_row(t, old(stream)@.0, old(stream)@.1, count as nat),
        final(stream)@.0 == old(stream)@.0,
        r@.len() == count,
        forall|i: int| 0 <= i < r@.len() ==> #[trigger] r@[i] < t,
{
    let ghost seed = stream@.0;
    let ghost start = stream@.1;
    let mut out: Vec<u64> = Vec::with_capacity(count);
    let mut i: usize = 0;
    while i < count
        invariant
            t > 0,
            i <= count,
            stream@.0 == seed,
            seed == old(stream)@.0,
            start == old(stream)@.1,
            (out@, stream@.1) == draw_row(t, seed, start, i as nat),
            forall|u: int| 0 <= u < out@.len() ==> #[trigger] out@[u] < t,
        decreases count - i,
    {
        let v = sample_below(t, stream);
        out.push(v);
        i = i + 1;
    }
    proof {
        lemma_draw_row_shape(t, seed, start, count as nat);
    }
    out
}

} // verus!
