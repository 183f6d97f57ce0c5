//! The 128-bit and the pointer-sized unsigned integers as blocks of bits.
use crate::block::Block;
use crate::not::{NotAssign, SameWidth};
use crate::ops::{Bits, BitsMut};
use crate::spec::{and_not, zeros};
use crate::varint::{field_bits, PutVarint, Varint};
use crate::word::{u64_seq, Word};
use vstd::prelude::*;

verus! {

/// Bit `i` of a `u128`.
pub open spec fn u128_bit(x: u128, i: u128) -> bool {
    (x >> i) & 1u128 == 1u128
}

/// The 128 bits of a `u128`, least significant first.
pub open spec fn u128_seq(x: u128) -> Seq<bool> {
    Seq::new(128, |i: int| u128_bit(x, i as u128))
}

/// Bit-level facts about `u128` operations.
pub(crate) proof fn lemma_u128_ops(x: u128, y: u128, k: u128, n: u128)
    by (bit_vector)
    requires
        k < 128,
    ensures
        !((0u128 >> k) & 1u128 == 1u128),
        ((1u128 >> k) & 1u128 == 1u128) == (k == 0),
        (((x | y) >> k) & 1u128 == 1u128) == ((x >> k) & 1u128 == 1u128 || (y >> k) & 1u128 == 1u128),
        (((x & y) >> k) & 1u128 == 1u128) == ((x >> k) & 1u128 == 1u128 && (y >> k) & 1u128 == 1u128),
        (((x & !y) >> k) & 1u128 == 1u128) == ((x >> k) & 1u128 == 1u128 && !((y >> k) & 1u128
            == 1u128)),
        n < 128 ==> ((((1u128 << n) >> k) & 1u128 == 1u128) == (k == n)),
        n < 128 ==> ((((x << n) >> k) & 1u128 == 1u128) == (n <= k && ((x >> ((k - n) as u128)) & 1u128
            == 1u128))),
        ((x >> k) & 1u128 == 0u128) == !((x >> k) & 1u128 == 1u128),
        ((x >> k) & 1u128 != 0u128) == ((x >> k) & 1u128 == 1u128),
{
}

impl Bits for u128 {
    open spec fn bit_seq(&self) -> Seq<bool> {
        u128_seq(*self)
    }

    fn bits(&self) -> (r: usize) {
        128
    }

    fn bit(&self, i: usize) -> (r: Option<bool>) {
        if i < 128 {
            Some((*self >> (i as u128)) & 1 == 1)
        } else {
            None
        }
    }
}

impl BitsMut for u128 {
    fn set_bit(&mut self, i: usize) {
        let x = *self;
        *self = x | (1u128 << (i as u128));
        proof {
            assert forall|k: int| 0 <= k < 128 implies #[trigger] self.bit_seq()[k] == old(
                self,
            ).bit_seq().update(i as int, true)[k] by {
                lemma_u128_ops(x, 1u128 << (i as u128), k as u128, i as u128);
            }
            assert(self.bit_seq() =~= old(self).bit_seq().update(i as int, true));
        }
    }

    fn unset_bit(&mut self, i: usize) {
        let x = *self;
        *self = x & !(1u128 << (i as u128));
        proof {
            assert forall|k: int| 0 <= k < 128 implies #[trigger] self.bit_seq()[k] == old(
                self,
            ).bit_seq().update(i as int, false)[k] by {
                lemma_u128_ops(x, 1u128 << (i as u128), k as u128, i as u128);
            }
            assert(self.bit_seq() =~= old(self).bit_seq().update(i as int, false));
        }
    }
}

impl Block for u128 {
    const BITS: usize = 128;

    proof fn lemma_block_len(b: &Self) {
    }

    fn empty() -> (r: Self) {
        proof {
            assert forall|k: int| 0 <= k < 128 implies !#[trigger] u128_seq(0)[k] by {
                lemma_u128_ops(0, 0, k as u128, 0);
            }
            assert(u128_seq(0) =~= zeros(128));
        }
        0
    }
}


/// Reading a field of at most 64 bits of a `u128` and narrowing it to `u64`.
proof fn lemma_u128_field(x: u128, i: u128, n: u128, k: u64)
    by (bit_vector)
    requires
        i < 128,
        i + n <= 128,
        n <= 64,
        k < 64,
    ensures
        1u128 <= (1u128 << n),
        ((((x >> i) & (((1u128 << n) - 1u128) as u128)) as u64 >> k) & 1u64 == 1u64) == (k < n
            as u64 && ((x >> ((i + k) as u128)) & 1u128 == 1u128)),
{
}

impl NotAssign<u128> for u128 {
    open spec fn fits(a: &u128, b: &u128) -> bool {
        true
    }

    open spec fn not_assigned(a: &u128, b: &u128, r: &u128) -> bool {
        *r == *a & !*b
    }

    fn not_assign(a: &mut Self, b: &u128) {
        let x = *a;
        *a &= !*b;
        proof {
            assert forall|k: int| 0 <= k < 128 implies #[trigger] a.bit_seq()[k] == and_not(
                x.bit_seq(),
                b.bit_seq(),
            )[k] by {
                lemma_u128_ops(x, *b, k as u128, 0);
            }
            assert(a.bit_seq() =~= and_not(x.bit_seq(), b.bit_seq()));
        }
    }
}

impl SameWidth<u128> for u128 {
    proof fn lemma_same_width() {
    }

    proof fn lemma_not_assigned(a: &u128, b: &u128) {
        let w = *a & !*b;
        assert(Self::not_assigned(a, b, &w));
        assert forall|r: u128| #[trigger] Self::not_assigned(a, b, &r) implies r.bit_seq()
            == and_not(a.bit_seq(), b.bit_seq()) by {
            assert forall|k: int| 0 <= k < 128 implies #[trigger] r.bit_seq()[k] == and_not(
                a.bit_seq(),
                b.bit_seq(),
            )[k] by {
                lemma_u128_ops(*a, *b, k as u128, 0);
            }
            assert(r.bit_seq() =~= and_not(a.bit_seq(), b.bit_seq()));
        }
    }
}

impl Varint for u128 {
    fn varint<T: Word>(&self, i: usize, n: usize) -> (r: T) {
        let x = *self;
        proof {
            T::lemma_word();
            lemma_u128_field(x, i as u128, n as u128, 0);
        }
        let mask: u128 = (1u128 << (n as u128)) - 1;
        let v = (x >> (i as u128)) & mask;
        proof {
            assert forall|k: int| 0 <= k < 64 implies #[trigger] u64_seq(v as u64)[k] == (k < n
                && u128_seq(x)[i + k]) by {
                lemma_u128_field(x, i as u128, n as u128, k as u64);
            }
        }
        let r = T::cast_from_u64(v as u64).unwrap();
        proof {
            T::lemma_block_len(&r);
            assert(r.bit_seq() =~= field_bits(x.bit_seq(), i as int, n as int, T::BITS as nat));
        }
        r
    }
}

impl PutVarint for u128 {

}

/// Bit `i` of a `usize`.
pub open spec fn usize_bit(x: usize, i: usize) -> bool {
    (x >> i) & 1usize == 1usize
}

/// The `usize::BITS` bits of a `usize`, least significant first.
pub open spec fn usize_seq(x: usize) -> Seq<bool> {
    Seq::new(usize::BITS as nat, |i: int| usize_bit(x, i as usize))
}

/// Bit-level facts about `usize` operations.
pub(crate) proof fn lemma_usize_ops(x: usize, y: usize, k: usize, n: usize)
    by (bit_vector)
    requires
        k < usize::BITS,
    ensures
        !((0usize >> k) & 1usize == 1usize),
        ((1usize >> k) & 1usize == 1usize) == (k == 0),
        (((x | y) >> k) & 1usize == 1usize) == ((x >> k) & 1usize == 1usize || (y >> k) & 1usize == 1usize),
        (((x & y) >> k) & 1usize == 1usize) == ((x >> k) & 1usize == 1usize && (y >> k) & 1usize == 1usize),
        (((x & !y) >> k) & 1usize == 1usize) == ((x >> k) & 1usize == 1usize && !((y >> k) & 1usize
            == 1usize)),
        n < usize::BITS ==> ((((1usize << n) >> k) & 1usize == 1usize) == (k == n)),
        n < usize::BITS ==> ((((x << n) >> k) & 1usize == 1usize) == (n <= k && ((x >> ((k - n) as usize)) & 1usize
            == 1usize))),
        ((x >> k) & 1usize == 0usize) == !((x >> k) & 1usize == 1usize),
        ((x >> k) & 1usize != 0usize) == ((x >> k) & 1usize == 1usize),
{
}

impl Bits for usize {
    open spec fn bit_seq(&self) -> Seq<bool> {
        usize_seq(*self)
    }

    fn bits(&self) -> (r: usize) {
        usize::BITS as usize
    }

    fn bit(&self, i: usize) -> (r: Option<bool>) {
        if i < usize::BITS as usize {
            Some((*self >> (i as usize)) & 1 == 1)
        } else {
            None
        }
    }
}

impl BitsMut for usize {
    fn set_bit(&mut self, i: usize) {
        let x = *self;
        *self = x | (1usize << (i as usize));
        proof {
            assert forall|k: int| 0 <= k < usize::BITS implies #[trigger] self.bit_seq()[k] == old(
                self,
            ).bit_seq().update(i as int, true)[k] by {
                lemma_usize_ops(x, 1usize << (i as usize), k as usize, i as usize);
            }
            assert(self.bit_seq() =~= old(self).bit_seq().update(i as int, true));
        }
    }

    fn unset_bit(&mut self, i: usize) {
        let x = *self;
        *self = x & !(1usize << (i as usize));
        proof {
            assert forall|k: int| 0 <= k < usize::BITS implies #[trigger] self.bit_seq()[k] == old(
                self,
            ).bit_seq().update(i as int, false)[k] by {
                lemma_usize_ops(x, 1usize << (i as usize), k as usize, i as usize);
            }
            assert(self.bit_seq() =~= old(self).bit_seq().update(i as int, false));
        }
    }
}

impl Block for usize {
    const BITS: usize = usize::BITS as usize;

    proof fn lemma_block_len(b: &Self) {
    }

    fn empty() -> (r: Self) {
        proof {
            assert forall|k: int| 0 <= k < usize::BITS implies !#[trigger] usize_seq(0)[k] by {
                lemma_usize_ops(0, 0, k as usize, 0);
            }
            assert(usize_seq(0) =~= zeros(usize::BITS as nat));
        }
        0
    }
}


/// Reading a field of at most 64 bits of a `usize` and widening or narrowing it to `u64`.
proof fn lemma_usize_field(x: usize, i: usize, n: usize, k: u64)
    by (bit_vector)
    requires
        i < usize::BITS,
        i + n <= usize::BITS,
        n <= 64,
        k < 64,
    ensures
        n < usize::BITS ==> 1usize <= (1usize << n),
        ((((x >> i) & (if n == usize::BITS { !0usize } else { (((1usize << n) - 1usize) as usize) })) as u64
            >> k) & 1u64 == 1u64) == (k < n as u64 && ((x >> ((i + k) as usize)) & 1usize == 1usize)),
{
}

impl Varint for usize {
    fn varint<T: Word>(&self, i: usize, n: usize) -> (r: T) {
        let x = *self;
        proof {
            T::lemma_word();
            lemma_usize_field(x, i, n, 0);
        }
        let mask: usize = if n == usize::BITS as usize {
            !0usize
        } else {
            (1usize << n) - 1
        };
        let v = (x >> i) & mask;
        proof {
            assert forall|k: int| 0 <= k < 64 implies #[trigger] u64_seq(v as u64)[k] == (k < n
                && usize_seq(x)[i + k]) by {
                lemma_usize_field(x, i, n, k as u64);
            }
        }
        let r = T::cast_from_u64(v as u64).unwrap();
        proof {
            T::lemma_block_len(&r);
            assert(r.bit_seq() =~= field_bits(x.bit_seq(), i as int, n as int, T::BITS as nat));
        }
        r
    }
}

impl PutVarint for usize {

}

} // verus!
