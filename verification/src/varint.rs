//! Reading and writing runs of bits as integers.
use crate::block::{
    lemma_blocks_bits_index, lemma_blocks_bits_pos, lemma_blocks_bits_update, Block,
};
use crate::ops::{Bits, BitsMut};
use crate::spec::{lemma_flat_pos, written, zeros};
use crate::word::{
    lemma_u16_field, lemma_u32_field, lemma_u64_field, lemma_u8_field, u16_seq, u32_seq, u64_seq,
    u8_seq, Word,
};
use std::borrow::Cow;
use vstd::prelude::*;

verus! {

/// The integer whose low `n` bits are the bits `[i, i + n)` of `s`, the rest clear.
pub open spec fn field_bits(s: Seq<bool>, i: int, n: int, width: nat) -> Seq<bool> {
    s.subrange(i, i + n) + zeros((width - n) as nat)
}

/// Reading a run of bits as an integer.
pub trait Varint: Bits {
    /// Reads `n` bits from `i`, and returns it as the lowest `n` bits of `T`.
    fn varint<T: Word>(&self, i: usize, n: usize) -> (r: T)
        requires
            self.bit_seq().len() <= usize::MAX,
            i < self.bit_seq().len(),
            i + n <= self.bit_seq().len(),
            n <= T::BITS,
        ensures
            r.bit_seq() == field_bits(self.bit_seq(), i as int, n as int, T::BITS as nat),
    {
        proof {
            T::lemma_word();
            T::lemma_block_len(&T::ZERO);
        }
        let mut out = T::ZERO;
        let mut b = i;
        while b < i + n
            invariant
                self.bit_seq().len() <= usize::MAX,
                i <= b <= i + n <= self.bit_seq().len(),
                n <= T::BITS,
                out.bit_seq().len() == T::BITS,
                forall|k: int|
                    0 <= k < T::BITS ==> #[trigger] out.bit_seq()[k] == (k < b - i
                        && self.bit_seq()[i + k]),
            decreases i + n - b,
        {
            if self.bit(b).unwrap() {
                out.set_bit(b - i);
            }
            b = b + 1;
        }
        assert(out.bit_seq() =~= field_bits(self.bit_seq(), i as int, n as int, T::BITS as nat));
        out
    }
}

/// Writing the bits of an integer into a run of bits.
pub trait PutVarint: BitsMut + Varint {
    /// Writes the low `n` bits of `word` in `[i, i + n)`: bit `i + k` becomes bit `k` of
    /// `word`, every other bit is left as it was.
    fn put_varint<T: Word>(&mut self, i: usize, n: usize, word: T)
        requires
            old(self).bit_seq().len() <= usize::MAX,
            i + n <= old(self).bit_seq().len(),
            n <= T::BITS,
        ensures
            final(self).bit_seq() == written(old(self).bit_seq(), i as int, n as int, word.bit_seq()),
    {
        proof {
            T::lemma_word();
            T::lemma_block_len(&word);
        }
        let ghost s0 = self.bit_seq();
        let mut b = i;
        while b < i + n
            invariant
                s0 == old(self).bit_seq(),
                s0.len() <= usize::MAX,
                i <= b <= i + n <= s0.len(),
                n <= T::BITS,
                word.bit_seq().len() == T::BITS,
                self.bit_seq().len() == s0.len(),
                forall|k: int|
                    0 <= k < s0.len() ==> #[trigger] self.bit_seq()[k] == if i <= k < b {
                        word.bit_seq()[k - i]
                    } else {
                        s0[k]
                    },
            decreases i + n - b,
        {
            if word.bit(b - i).unwrap() {
                self.set_bit(b);
            } else {
                self.unset_bit(b);
            }
            b = b + 1;
        }
        assert(self.bit_seq() =~= written(s0, i as int, n as int, word.bit_seq()));
    }
}

impl Varint for u32 {
    fn varint<T: Word>(&self, i: usize, n: usize) -> (r: T) {
        let x = *self;
        proof {
            T::lemma_word();
            lemma_u32_field(x, i as u32, n as u32, 0);
        }
        let mask: u32 = if n == 32 {
            u32::MAX
        } else {
            (1u32 << (n as u32)) - 1
        };
        let v = (x >> (i as u32)) & mask;
        proof {
            assert forall|k: int| 0 <= k < 64 implies #[trigger] u64_seq(v as u64)[k] == (k < n
                && u32_seq(x)[i + k]) by {
                lemma_u32_field(x, i as u32, n as u32, k as u64);
            }
        }
        let r = T::cast_from_u64(v as u64).unwrap();
        proof {
            T::lemma_block_len(&r);
            assert(r.bit_seq() =~= field_bits(x.bit_seq(), i as int, n as int, T::BITS as nat));
        }
        r
    }
}

impl PutVarint for u32 {

}

impl Varint for u8 {
    fn varint<T: Word>(&self, i: usize, n: usize) -> (r: T) {
        let x = *self;
        proof {
            T::lemma_word();
            lemma_u8_field(x, i as u8, n as u8, 0);
        }
        let mask: u8 = if n == 8 {
            u8::MAX
        } else {
            (1u8 << (n as u8)) - 1
        };
        let v = (x >> (i as u8)) & mask;
        proof {
            assert forall|k: int| 0 <= k < 64 implies #[trigger] u64_seq(v as u64)[k] == (k < n
                && u8_seq(x)[i + k]) by {
                lemma_u8_field(x, i as u8, n as u8, k as u64);
            }
        }
        let r = T::cast_from_u64(v as u64).unwrap();
        proof {
            T::lemma_block_len(&r);
            assert(r.bit_seq() =~= field_bits(x.bit_seq(), i as int, n as int, T::BITS as nat));
        }
        r
    }
}

impl PutVarint for u8 {

}

impl Varint for u16 {
    fn varint<T: Word>(&self, i: usize, n: usize) -> (r: T) {
        let x = *self;
        proof {
            T::lemma_word();
            lemma_u16_field(x, i as u16, n as u16, 0);
        }
        let mask: u16 = if n == 16 {
            u16::MAX
        } else {
            (1u16 << (n as u16)) - 1
        };
        let v = (x >> (i as u16)) & mask;
        proof {
            assert forall|k: int| 0 <= k < 64 implies #[trigger] u64_seq(v as u64)[k] == (k < n
                && u16_seq(x)[i + k]) by {
                lemma_u16_field(x, i as u16, n as u16, k as u64);
            }
        }
        let r = T::cast_from_u64(v as u64).unwrap();
        proof {
            T::lemma_block_len(&r);
            assert(r.bit_seq() =~= field_bits(x.bit_seq(), i as int, n as int, T::BITS as nat));
        }
        r
    }
}

impl PutVarint for u16 {

}

impl Varint for u64 {
    fn varint<T: Word>(&self, i: usize, n: usize) -> (r: T) {
        let x = *self;
        proof {
            T::lemma_word();
            lemma_u64_field(x, i as u64, n as u64, 0);
        }
        let mask: u64 = if n == 64 {
            u64::MAX
        } else {
            (1u64 << (n as u64)) - 1
        };
        let v = (x >> (i as u64)) & mask;
        proof {
            assert forall|k: int| 0 <= k < 64 implies #[trigger] u64_seq(v as u64)[k] == (k < n
                && u64_seq(x)[i + k]) by {
                lemma_u64_field(x, i as u64, n as u64, k as u64);
            }
        }
        let r = T::cast_from_u64(v as u64).unwrap();
        proof {
            T::lemma_block_len(&r);
            assert(r.bit_seq() =~= field_bits(x.bit_seq(), i as int, n as int, T::BITS as nat));
        }
        r
    }
}

impl PutVarint for u64 {

}

impl<B: Block + Varint> Varint for [B] {
    fn varint<T: Word>(&self, i: usize, n: usize) -> (r: T) {
        let w = B::BITS;
        let end = i + n;
        proof {
            T::lemma_word();
            T::lemma_block_len(&T::ZERO);
            lemma_blocks_bits_index(self@, i as int);
            assert(T::ZERO.bit_seq() =~= field_bits(self.bit_seq(), i as int, 0, T::BITS as nat));
        }
        let mut cur: usize = 0;
        let mut out = T::ZERO;
        let mut pos = i;
        while pos < end
            invariant
                w == B::BITS,
                w > 0,
                self.bit_seq().len() == self@.len() * w,
                self.bit_seq().len() <= usize::MAX,
                i <= pos <= end,
                end == i + n,
                end <= self@.len() * w,
                n <= T::BITS,
                cur == pos - i,
                out.bit_seq() == field_bits(self.bit_seq(), i as int, cur as int, T::BITS as nat),
            decreases end - pos,
        {
            proof {
                lemma_blocks_bits_index(self@, pos as int);
            }
            let k = pos / w;
            let start = pos % w;
            let base = k * w;
            let stop = if end - base < w {
                end - base
            } else {
                w
            };
            let len = stop - start;
            if k < self.len() && cur < T::BITS {
                proof {
                    B::lemma_block_len(&self@[k as int]);
                }
                let piece: T = self[k].varint::<T>(start, len);
                let shifted = piece.shl(cur);
                let ghost prev = out.bit_seq();
                out = out.bitor(shifted);
                proof {
                    T::lemma_block_len(&piece);
                    let sb = self.bit_seq();
                    let blk = self@[k as int].bit_seq();
                    assert forall|m: int| 0 <= m < T::BITS implies #[trigger] out.bit_seq()[m]
                        == field_bits(sb, i as int, cur + len, T::BITS as nat)[m] by {
                        if cur <= m < cur + len {
                            lemma_blocks_bits_pos(self@, k as int, start + m - cur);
                            assert(blk[start + m - cur] == sb[i + m]);
                        }
                    }
                    assert(out.bit_seq() =~= field_bits(
                        sb,
                        i as int,
                        cur + len,
                        T::BITS as nat,
                    ));
                }
                cur = cur + len;
            }
            pos = pos + len;
        }
        out
    }
}

impl<B: Block + PutVarint> PutVarint for [B] {
    fn put_varint<T: Word>(&mut self, i: usize, n: usize, word: T)
        ensures
            final(self)@.len() == old(self)@.len(),
    {
        let w = B::BITS;
        let end = i + n;
        let ghost s0 = self.bit_seq();
        proof {
            T::lemma_word();
            T::lemma_block_len(&word);
            if n > 0 {
                lemma_blocks_bits_index(self@, i as int);
            }
        }
        let mut cur: usize = 0;
        let mut pos = i;
        while pos < end
            invariant
                w == B::BITS,
                s0 == old(self).bit_seq(),
                self@.len() == old(self)@.len(),
                self.bit_seq().len() == self@.len() * w,
                s0.len() == self@.len() * w,
                s0.len() <= usize::MAX,
                i <= pos <= end,
                end == i + n,
                end <= self@.len() * w,
                n <= T::BITS,
                word.bit_seq().len() == T::BITS,
                cur == pos - i,
                self.bit_seq() == written(s0, i as int, cur as int, word.bit_seq()),
            decreases end - pos,
        {
            proof {
                lemma_blocks_bits_index(self@, pos as int);
            }
            let k = pos / w;
            let start = pos % w;
            let base = k * w;
            let stop = if end - base < w {
                end - base
            } else {
                w
            };
            let len = stop - start;
            if k < self.len() {
                let chunk: T = word.field(cur, len);
                let ghost before = self@;
                proof {
                    B::lemma_block_len(&self@[k as int]);
                }
                self[k].put_varint::<T>(start, len, chunk);
                proof {
                    T::lemma_block_len(&chunk);
                    let nb = self@[k as int];
                    lemma_blocks_bits_update(before, k as int, nb);
                    assert(self@ == before.update(k as int, nb));
                    let target = written(s0, i as int, cur + len, word.bit_seq());
                    assert forall|m: int| 0 <= m < s0.len() implies #[trigger] self.bit_seq()[m]
                        == target[m] by {
                        lemma_blocks_bits_index(before, m);
                        if pos <= m < pos + len {
                            lemma_flat_pos(before.len(), w as nat, k as int, m - base);
                        }
                        if m / (w as int) == k {
                            let j = m % (w as int);
                            B::lemma_block_len(&before[k as int]);
                            if start <= j < start + len {
                                assert(m == base + j);
                                assert(chunk.bit_seq()[j - start] == word.bit_seq()[m - i]);
                            } else {
                                assert(!(pos <= m < pos + len));
                            }
                        }
                    }
                    assert(self.bit_seq() =~= target);
                }
                cur = cur + len;
            }
            pos = pos + len;
        }
        assert(self.bit_seq() =~= written(s0, i as int, n as int, word.bit_seq()));
    }
}

impl Varint for [bool] {

}

impl PutVarint for [bool] {

}

impl<B: Block + Varint> Varint for Vec<B> {
    fn varint<T: Word>(&self, i: usize, n: usize) -> (r: T) {
        self.as_slice().varint::<T>(i, n)
    }
}

impl<B: Block + PutVarint> PutVarint for Vec<B> {
    fn put_varint<T: Word>(&mut self, i: usize, n: usize, word: T)
        ensures
            final(self)@.len() == old(self)@.len(),
    {
        self.as_mut_slice().put_varint::<T>(i, n, word);
    }
}

impl<X: ?Sized + Varint> Varint for Box<X> {
    fn varint<T: Word>(&self, i: usize, n: usize) -> (r: T) {
        (**self).varint::<T>(i, n)
    }
}

impl<X: ?Sized + PutVarint> PutVarint for Box<X> {
    fn put_varint<T: Word>(&mut self, i: usize, n: usize, word: T) {
        (**self).put_varint::<T>(i, n, word);
    }
}

impl<B: Block + Varint, const N: usize> Varint for [B; N] {
    fn varint<T: Word>(&self, i: usize, n: usize) -> (r: T) {
        self.as_slice().varint::<T>(i, n)
    }
}

impl<B: Block + PutVarint, const N: usize> PutVarint for [B; N] {
    fn put_varint<T: Word>(&mut self, i: usize, n: usize, word: T) {
        let s: &mut [B] = self;
        s.put_varint::<T>(i, n, word);
    }
}

impl<'a, X: Varint + Copy> Varint for Cow<'a, X> {
    fn varint<T: Word>(&self, i: usize, n: usize) -> (r: T) {
        match self {
            Cow::Borrowed(b) => b.varint::<T>(i, n),
            Cow::Owned(o) => o.varint::<T>(i, n),
        }
    }
}

impl<'a, X: PutVarint + Copy> PutVarint for Cow<'a, X> {
    fn put_varint<T: Word>(&mut self, i: usize, n: usize, word: T)
        ensures
            *final(self) is Owned,
    {
        let mut v: X = match self {
            Cow::Borrowed(b) => **b,
            Cow::Owned(o) => *o,
        };
        v.put_varint::<T>(i, n, word);
        *self = Cow::Owned(v);
    }
}

} // verus!
