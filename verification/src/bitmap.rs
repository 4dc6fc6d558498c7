//! Packing input bytes into 32-bit words, and decoding bitmaps of set bits.

use vstd::prelude::*;

verus! {

/// Zero bytes that make a length of `n` bytes a multiple of four.
pub open spec fn padding_len(n: int) -> int {
    (4 - n % 4) % 4
}

/// Pads `bytes` with zero bytes up to a multiple of four, so they can be
/// read as little-endian 32-bit words; the padding leaves any sum of the
/// bytes unchanged.
pub fn pad_to_words(bytes: &[u8]) -> (r: Vec<u8>)
    requires
        bytes@.len() + 3 <= usize::MAX,
    ensures
        r@ == bytes@ + Seq::new(padding_len(bytes@.len() as int) as nat, |i: int| 0u8),
{
    let mut out = vstd::slice::slice_to_vec(bytes);
    let ghost n = bytes@.len() as int;
    while out.len() % 4 != 0
        invariant
            n <= out@.len() <= n + 3,
            out@.len() - n <= padding_len(n),
            (out@.len() as int) % 4 == 0 ==> out@.len() - n == padding_len(n),
            out@ == bytes@ + Seq::new((out@.len() - n) as nat, |i: int| 0u8),
        decreases n + 3 - out@.len(),
    {
        out.push(0);
        proof {
            assert(out@ =~= bytes@ + Seq::new((out@.len() - n) as nat, |i: int| 0u8));
        }
    }
    out
}

/// Whether bit `b` (0 is the least significant) of `w` is set.
pub open spec fn bit_is_set(w: u32, b: u32) -> bool {
    (w >> b) & 1u32 == 1u32
}

/// The positions below `k` whose bit is set, in increasing order; position
/// `p` is bit `p % 32` of word `p / 32`.
pub open spec fn set_bit_positions(words: Seq<u32>, k: nat) -> Seq<u32>
    decreases k,
{
    if k == 0 {
        Seq::empty()
    } else {
        let p = (k - 1) as nat;
        let before = set_bit_positions(words, p);
        if bit_is_set(words[p as int / 32], (p % 32) as u32) {
            before.push(p as u32)
        } else {
            before
        }
    }
}

/// Lists the positions of the set bits of a bitmap, in increasing order:
/// bit `b` of word `i` is position `32 * i + b`.
pub fn bitmap_set_bits(words: &[u32]) -> (r: Vec<u32>)
    requires
        words@.len() <= 0x800_0000,
    ensures
        r@ == set_bit_positions(words@, 32 * words@.len()),
{
    let mut out: Vec<u32> = Vec::new();
    let mut word_idx: usize = 0;
    while word_idx < words.len()
        invariant
            word_idx <= words@.len(),
            words@.len() <= 0x800_0000,
            out@ == set_bit_positions(words@, 32 * word_idx as nat),
        decreases words@.len() - word_idx,
    {
        let word = words[word_idx];
        let mut bit: u32 = 0;
        while bit < 32
            invariant
                bit <= 32,
                word_idx < words@.len(),
                words@.len() <= 0x800_0000,
                word == words@[word_idx as int],
                out@ == set_bit_positions(words@, (32 * word_idx + bit) as nat),
            decreases 32 - bit,
        {
            let p = (word_idx as u32) * 32 + bit;
            proof {
                assert((32 * word_idx + bit) / 32 == word_idx);
                assert((32 * word_idx + bit) % 32 == bit);
            }
            if (word >> bit) & 1 == 1 {
                out.push(p);
            }
            bit = bit + 1;
        }
        word_idx = word_idx + 1;
    }
    out
}

} // verus!
