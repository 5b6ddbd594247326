//! Little-endian integer encodings shared by every wire format of the crate.

use vstd::prelude::*;

verus! {

/// The 8 little-endian bytes of `v`.
pub open spec fn u64_le(v: u64) -> Seq<u8> {
    seq![
        v as u8,
        (v >> 8u64) as u8,
        (v >> 16u64) as u8,
        (v >> 24u64) as u8,
        (v >> 32u64) as u8,
        (v >> 40u64) as u8,
        (v >> 48u64) as u8,
        (v >> 56u64) as u8,
    ]
}

/// The 4 little-endian bytes of `v`.
pub open spec fn u32_le(v: u32) -> Seq<u8> {
    seq![v as u8, (v >> 8u32) as u8, (v >> 16u32) as u8, (v >> 24u32) as u8]
}

/// The 2 little-endian bytes of `v`.
pub open spec fn u16_le(v: u16) -> Seq<u8> {
    seq![v as u8, (v >> 8u16) as u8]
}

/// The `u64` whose little-endian bytes are `b[0..8]`.
pub open spec fn le_u64(b: Seq<u8>) -> u64 {
    (b[0] as u64) | ((b[1] as u64) << 8u64) | ((b[2] as u64) << 16u64) | ((b[3] as u64) << 24u64)
        | ((b[4] as u64) << 32u64) | ((b[5] as u64) << 40u64) | ((b[6] as u64) << 48u64) | ((
    b[7] as u64) << 56u64)
}

/// The `u32` whose little-endian bytes are `b[0..4]`.
pub open spec fn le_u32(b: Seq<u8>) -> u32 {
    (b[0] as u32) | ((b[1] as u32) << 8u32) | ((b[2] as u32) << 16u32) | ((b[3] as u32) << 24u32)
}

/// The `u16` whose little-endian bytes are `b[0..2]`.
pub open spec fn le_u16(b: Seq<u8>) -> u16 {
    (b[0] as u16) | ((b[1] as u16) << 8u16)
}

/// The little-endian bytes of each word, in order.
#[verifier::opaque]
pub open spec fn words_le(w: Seq<u64>) -> Seq<u8> {
    Seq::new(8 * w.len(), |b: int| u64_le(w[b / 8])[b % 8])
}

/// The words whose little-endian bytes make up `p`, eight bytes each; a
/// trailing partial word is ignored.
pub open spec fn payload_words(p: Seq<u8>) -> Seq<u64> {
    Seq::new((p.len() / 8) as nat, |i: int| le_u64(p.subrange(8 * i, 8 * i + 8)))
}

/// The bytes of no words are empty, and there are eight bytes a word.
pub proof fn lemma_words_le_len(w: Seq<u64>)
    ensures
        words_le(w).len() == 8 * w.len(),
        words_le(Seq::<u64>::empty()) == Seq::<u8>::empty(),
{
    reveal(words_le);
    assert(words_le(Seq::<u64>::empty()) =~= Seq::<u8>::empty());
}

/// Appending a word appends its eight bytes.
pub proof fn lemma_words_le_push(w: Seq<u64>, v: u64)
    ensures
        words_le(w.push(v)) == words_le(w) + u64_le(v),
{
    reveal(words_le);
    let a = words_le(w.push(v));
    let b = words_le(w) + u64_le(v);
    assert(a.len() == b.len());
    assert forall|k: int| 0 <= k < a.len() implies a[k] == b[k] by {
        if k < 8 * w.len() {
            assert(k / 8 < w.len());
        } else {
            assert(k / 8 == w.len());
            assert(k % 8 == k - 8 * w.len());
        }
    }
    assert(a =~= b);
}

/// The words of the bytes of `w` are `w`.
pub proof fn lemma_words_le_round_trip(w: Seq<u64>)
    ensures
        payload_words(words_le(w)) == w,
        words_le(w).len() == 8 * w.len(),
{
    reveal(words_le);
    let p = words_le(w);
    assert forall|i: int| 0 <= i < w.len() implies #[trigger] payload_words(p)[i] == w[i] by {
        let chunk = p.subrange(8 * i, 8 * i + 8);
        assert forall|k: int| 0 <= k < 8 implies chunk[k] == u64_le(w[i])[k] by {
            assert((8 * i + k) / 8 == i);
            assert((8 * i + k) % 8 == k);
        }
        assert(chunk =~= u64_le(w[i]));
        lemma_u64_le_round_trip(w[i]);
    }
    assert(payload_words(p) =~= w);
}

/// Reading back the little-endian bytes of a `u64` gives the `u64`.
pub proof fn lemma_u64_le_round_trip(v: u64)
    ensures
        le_u64(u64_le(v)) == v,
        u64_le(v).len() == 8,
{
    let b = u64_le(v);
    assert(v == ((v as u8) as u64) | ((((v >> 8u64) as u8) as u64) << 8u64) | ((((v >> 16u64) as u8)
        as u64) << 16u64) | ((((v >> 24u64) as u8) as u64) << 24u64) | ((((v >> 32u64) as u8)
        as u64) << 32u64) | ((((v >> 40u64) as u8) as u64) << 40u64) | ((((v >> 48u64) as u8)
        as u64) << 48u64) | ((((v >> 56u64) as u8) as u64) << 56u64)) by (bit_vector);
}

/// Reading back the little-endian bytes of a `u32` gives the `u32`.
pub proof fn lemma_u32_le_round_trip(v: u32)
    ensures
        le_u32(u32_le(v)) == v,
        u32_le(v).len() == 4,
{
    assert(v == ((v as u8) as u32) | ((((v >> 8u32) as u8) as u32) << 8u32) | ((((v >> 16u32) as u8)
        as u32) << 16u32) | ((((v >> 24u32) as u8) as u32) << 24u32)) by (bit_vector);
}

/// Reading back the little-endian bytes of a `u16` gives the `u16`.
pub proof fn lemma_u16_le_round_trip(v: u16)
    ensures
        le_u16(u16_le(v)) == v,
        u16_le(v).len() == 2,
{
    assert(v == ((v as u8) as u16) | ((((v >> 8u16) as u8) as u16) << 8u16)) by (bit_vector);
}

/// Appends the little-endian bytes of `v`.
pub fn push_u64_le(out: &mut Vec<u8>, v: u64)
    ensures
        final(out)@ == old(out)@ + u64_le(v),
{
    out.push(v as u8);
    out.push((v >> 8) as u8);
    out.push((v >> 16) as u8);
    out.push((v >> 24) as u8);
    out.push((v >> 32) as u8);
    out.push((v >> 40) as u8);
    out.push((v >> 48) as u8);
    out.push((v >> 56) as u8);
    assert(out@ =~= old(out)@ + u64_le(v));
}

/// Appends the little-endian bytes of `v`.
pub fn push_u32_le(out: &mut Vec<u8>, v: u32)
    ensures
        final(out)@ == old(out)@ + u32_le(v),
{
    out.push(v as u8);
    out.push((v >> 8) as u8);
    out.push((v >> 16) as u8);
    out.push((v >> 24) as u8);
    assert(out@ =~= old(out)@ + u32_le(v));
}

/// Appends the little-endian bytes of `v`.
pub fn push_u16_le(out: &mut Vec<u8>, v: u16)
    ensures
        final(out)@ == old(out)@ + u16_le(v),
{
    out.push(v as u8);
    out.push((v >> 8) as u8);
    assert(out@ =~= old(out)@ + u16_le(v));
}

/// Appends every byte of `bytes`.
pub fn push_bytes(out: &mut Vec<u8>, bytes: &[u8])
    ensures
        final(out)@ == old(out)@ + bytes@,
{
    let ghost start = out@;
    let mut i: usize = 0;
    while i < bytes.len()
        invariant
            i <= bytes@.len(),
            out@ == start + bytes@.subrange(0, i as int),
        decreases bytes@.len() - i,
    {
        out.push(bytes[i]);
        i = i + 1;
        assert(out@ =~= start + bytes@.subrange(0, i as int));
    }
    assert(bytes@.subrange(0, bytes@.len() as int) =~= bytes@);
}

/// Reads the little-endian `u64` at `at`.
pub fn read_u64_le(input: &[u8], at: usize) -> (r: u64)
    requires
        at + 8 <= input@.len(),
    ensures
        r == le_u64(input@.subrange(at as int, at + 8)),
{
    (input[at] as u64) | ((input[at + 1] as u64) << 8) | ((input[at + 2] as u64) << 16) | ((input[at
        + 3] as u64) << 24) | ((input[at + 4] as u64) << 32) | ((input[at + 5] as u64) << 40) | ((
    input[at + 6] as u64) << 48) | ((input[at + 7] as u64) << 56)
}

/// Reads the little-endian `u32` at `at`.
pub fn read_u32_le(input: &[u8], at: usize) -> (r: u32)
    requires
        at + 4 <= input@.len(),
    ensures
        r == le_u32(input@.subrange(at as int, at + 4)),
{
    (input[at] as u32) | ((input[at + 1] as u32) << 8) | ((input[at + 2] as u32) << 16) | ((input[at
        + 3] as u32) << 24)
}

/// Reads the little-endian `u16` at `at`.
pub fn read_u16_le(input: &[u8], at: usize) -> (r: u16)
    requires
        at + 2 <= input@.len(),
    ensures
        r == le_u16(input@.subrange(at as int, at + 2)),
{
    (input[at] as u16) | ((input[at + 1] as u16) << 8)
}

/// Copies `input[at..at + len]` into a fresh vector.
pub fn copy_range(input: &[u8], at: usize, len: usize) -> (r: Vec<u8>)
    requires
        at + len <= input@.len(),
    ensures
        r@ == input@.subrange(at as int, at + len),
{
    let mut out: Vec<u8> = Vec::with_capacity(len);
    let mut i: usize = 0;
    while i < len
        invariant
            i <= len,
            at + len <= input.len(),
            out@ == input@.subrange(at as int, at + i),
        decreases len - i,
    {
        out.push(input[at + i]);
        i = i + 1;
        assert(out@ =~= input@.subrange(at as int, at + i));
    }
    out
}

/// The decimal digits of `v` in ASCII, most significant first.
pub open spec fn decimal_bytes(v: nat) -> Seq<u8>
    decreases v,
{
    if v < 10 {
        seq![(48 + v) as u8]
    } else {
        decimal_bytes(v / 10).push((48 + v % 10) as u8)
    }
}

/// Appends the decimal digits of `v`.
pub fn push_decimal(out: &mut Vec<u8>, v: u64)
    ensures
        final(out)@ == old(out)@ + decimal_bytes(v as nat),
    decreases v,
{
    if v >= 10 {
        push_decimal(out, v / 10);
    }
    out.push((48 + v % 10) as u8);
    proof {
        if v < 10 {
            assert(v % 10 == v);
        }
    }
}

/// `/n` for each number `n` of `numbers`, in order.
pub open spec fn slash_numbers(numbers: Seq<u64>) -> Seq<u8>
    decreases numbers.len(),
{
    if numbers.len() == 0 {
        Seq::empty()
    } else {
        slash_numbers(numbers.drop_last()) + seq![47u8] + decimal_bytes(numbers.last() as nat)
    }
}

/// `prefix` followed by `/n` for each number `n` of `numbers`: a labelled
/// purpose such as `prefix/3/0/1`.
pub fn labelled_purpose(prefix: &[u8], numbers: &[u64]) -> (r: Vec<u8>)
    ensures
        r@ == prefix@ + slash_numbers(numbers@),
{
    let mut out: Vec<u8> = Vec::new();
    push_bytes(&mut out, prefix);
    assert(numbers@.take(0) =~= Seq::<u64>::empty());
    assert(out@ =~= prefix@ + slash_numbers(numbers@.take(0)));
    let mut i: usize = 0;
    while i < numbers.len()
        invariant
            i <= numbers@.len(),
            out@ == prefix@ + slash_numbers(numbers@.take(i as int)),
        decreases numbers@.len() - i,
    {
        out.push(47u8);
        push_decimal(&mut out, numbers[i]);
        proof {
            let next = numbers@.take(i + 1);
            assert(next.drop_last() =~= numbers@.take(i as int));
            assert(next.last() == numbers@[i as int]);
            assert(out@ =~= prefix@ + slash_numbers(next));
        }
        i = i + 1;
    }
    assert(numbers@.take(numbers@.len() as int) =~= numbers@);
    out
}

} // verus!
