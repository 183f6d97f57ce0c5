//! Short arrays of words as blocks of bits.
//!
//! An array `[B; N]` holds `N * B::BITS` bits. For a generic length `N` nothing bounds that
//! product by `usize::MAX`, so `BITS` could not be shown to count the bits of every value;
//! the lengths below are written out one by one, where the product is a small number.
use crate::block::{blocks_bits, lemma_blocks_bits_index, Block};
use crate::ops::Bits;
use crate::spec::zeros;
use crate::word::Word;
use vstd::prelude::*;

verus! {

/// The bits of a sequence of words with no bit set are all clear.
proof fn lemma_empty_words<B: Word>(s: Seq<B>)
    requires
        forall|k: int| 0 <= k < s.len() ==> #[trigger] s[k].bit_seq() == zeros(B::BITS as nat),
    ensures
        blocks_bits(s) == zeros((s.len() * B::BITS) as nat),
{
    let z = zeros((s.len() * B::BITS) as nat);
    assert forall|i: int| 0 <= i < s.len() * B::BITS implies blocks_bits(s)[i] == z[i] by {
        lemma_blocks_bits_index(s, i);
    }
    assert(blocks_bits(s) =~= z);
}

/// An array of `N` words holds `N * BITS` bits, and `BITS` is at most 64.
proof fn lemma_array_len<B: Word, const N: usize>(b: &[B; N])
    ensures
        b.bit_seq().len() == N * B::BITS,
        0 < B::BITS <= 64,
{
    B::lemma_word();
    vstd::array::array_len_matches_n(b);
}

/// An array of `N` empty words.
fn empty_words<B: Word + Copy, const N: usize>() -> (r: [B; N])
    ensures
        forall|k: int| 0 <= k < N ==> #[trigger] r[k].bit_seq() == zeros(B::BITS as nat),
        r.bit_seq() == zeros((N * B::BITS) as nat),
{
    let r = [B::empty(); N];
    proof {
        broadcast use vstd::array::axiom_spec_array_fill_for_copy_type;

        vstd::array::array_len_matches_n(&r);
        lemma_empty_words(r@);
    }
    r
}

impl<B: Word + Copy> Block for [B; 1] {
    const BITS: usize = B::BITS;

    proof fn lemma_block_len(b: &Self) {
        lemma_array_len(b);
    }

    fn empty() -> (r: Self)
        ensures
            forall|k: int| 0 <= k < 1 ==> #[trigger] r[k].bit_seq() == zeros(B::BITS as nat),
    {
        let r = empty_words();
        proof {
            lemma_array_len(&r);
        }
        r
    }
}

impl<B: Word + Copy> Block for [B; 2] {
    const BITS: usize = B::BITS * 2;

    proof fn lemma_block_len(b: &Self) {
        lemma_array_len(b);
    }

    fn empty() -> (r: Self)
        ensures
            forall|k: int| 0 <= k < 2 ==> #[trigger] r[k].bit_seq() == zeros(B::BITS as nat),
    {
        let r = empty_words();
        proof {
            lemma_array_len(&r);
        }
        r
    }
}

impl<B: Word + Copy> Block for [B; 3] {
    const BITS: usize = B::BITS * 3;

    proof fn lemma_block_len(b: &Self) {
        lemma_array_len(b);
    }

    fn empty() -> (r: Self)
        ensures
            forall|k: int| 0 <= k < 3 ==> #[trigger] r[k].bit_seq() == zeros(B::BITS as nat),
    {
        let r = empty_words();
        proof {
            lemma_array_len(&r);
        }
        r
    }
}

impl<B: Word + Copy> Block for [B; 4] {
    const BITS: usize = B::BITS * 4;

    proof fn lemma_block_len(b: &Self) {
        lemma_array_len(b);
    }

    fn empty() -> (r: Self)
        ensures
            forall|k: int| 0 <= k < 4 ==> #[trigger] r[k].bit_seq() == zeros(B::BITS as nat),
    {
        let r = empty_words();
        proof {
            lemma_array_len(&r);
        }
        r
    }
}

impl<B: Word + Copy> Block for [B; 8] {
    const BITS: usize = B::BITS * 8;

    proof fn lemma_block_len(b: &Self) {
        lemma_array_len(b);
    }

    fn empty() -> (r: Self)
        ensures
            forall|k: int| 0 <= k < 8 ==> #[trigger] r[k].bit_seq() == zeros(B::BITS as nat),
    {
        let r = empty_words();
        proof {
            lemma_array_len(&r);
        }
        r
    }
}

impl<B: Word + Copy> Block for [B; 16] {
    const BITS: usize = B::BITS * 16;

    proof fn lemma_block_len(b: &Self) {
        lemma_array_len(b);
    }

    fn empty() -> (r: Self)
        ensures
            forall|k: int| 0 <= k < 16 ==> #[trigger] r[k].bit_seq() == zeros(B::BITS as nat),
    {
        let r = empty_words();
        proof {
            lemma_array_len(&r);
        }
        r
    }
}

impl<B: Word + Copy> Block for [B; 32] {
    const BITS: usize = B::BITS * 32;

    proof fn lemma_block_len(b: &Self) {
        lemma_array_len(b);
    }

    fn empty() -> (r: Self)
        ensures
            forall|k: int| 0 <= k < 32 ==> #[trigger] r[k].bit_seq() == zeros(B::BITS as nat),
    {
        let r = empty_words();
        proof {
            lemma_array_len(&r);
        }
        r
    }
}

} // verus!
