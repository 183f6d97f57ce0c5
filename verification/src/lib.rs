//! Bit-level operations over machine words and containers of words: reading, counting,
//! ranking and selecting bits, reading and writing runs of bits as integers, and the
//! bitwise difference of containers, in place or as a stream of non-empty blocks.
use vstd::prelude::*;

pub mod spec;
pub mod ops;
pub mod block;
pub mod word;
pub mod varint;
pub mod not;
pub mod wide;
pub mod signed;
pub mod arrays;
pub mod laws;

pub use crate::block::{Block, BlockIter, Blocks, IntoBlocks};
pub use crate::not::{BitwiseNot, Difference, Not, NotAssign, SameWidth};
pub use crate::ops::{BitAny, BitCount, BitExcess, BitRank, BitSelect, Bits, BitsMut};
pub use crate::varint::{PutVarint, Varint};
pub use crate::word::Word;
use crate::spec::{count_ones, count_zeros, has_one, is_select_one};
use core::ops::Range;

verus! {

/// Number of bits of `b`.
pub fn len<T: ?Sized + Bits>(b: &T) -> (r: usize)
    requires
        b.bit_seq().len() <= usize::MAX,
    ensures
        r == b.bit_seq().len(),
{
    b.bits()
}

/// `true` when `b` holds no bit.
pub fn is_empty<T: ?Sized + Bits>(b: &T) -> (r: bool)
    requires
        b.bit_seq().len() <= usize::MAX,
    ensures
        r == (b.bit_seq().len() == 0),
{
    b.bits() == 0
}

/// `true` when some bit of `b` is set.
pub fn any<T: ?Sized + Bits>(b: &T) -> (r: bool)
    requires
        b.bit_seq().len() <= usize::MAX,
    ensures
        r == has_one(b.bit_seq()),
{
    b.any()
}

/// Number of bits set in `b`.
pub fn count_1<T: ?Sized + Bits>(b: &T) -> (r: usize)
    requires
        b.bit_seq().len() <= usize::MAX,
    ensures
        r == count_ones(b.bit_seq()),
{
    b.count_1()
}

/// Number of bits set in `[r.start, r.end)` of `b`.
pub fn rank_1<T: ?Sized + Bits>(b: &T, r: Range<usize>) -> (c: usize)
    requires
        b.bit_seq().len() <= usize::MAX,
        r.start <= r.end <= b.bit_seq().len(),
    ensures
        c == count_ones(b.bit_seq().subrange(r.start as int, r.end as int)),
{
    b.rank_1(r)
}

/// Number of bits cleared in `[r.start, r.end)` of `b`.
pub fn rank_0<T: ?Sized + Bits>(b: &T, r: Range<usize>) -> (c: usize)
    requires
        b.bit_seq().len() <= usize::MAX,
        r.start <= r.end <= b.bit_seq().len(),
    ensures
        c == count_zeros(b.bit_seq().subrange(r.start as int, r.end as int)),
{
    b.rank_0(r)
}

/// The position of the set bit of rank `c` in `b` (the first set bit has rank 0), or
/// `None` when fewer than `c + 1` bits are set.
pub fn select_1<T: ?Sized + Bits>(b: &T, c: usize) -> (r: Option<usize>)
    requires
        b.bit_seq().len() <= usize::MAX,
    ensures
        match r {
            Some(p) => is_select_one(b.bit_seq(), c as int, p as int),
            None => count_ones(b.bit_seq()) <= c,
        },
{
    b.select_1(c)
}

} // verus!
