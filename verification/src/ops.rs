//! Traits that read, count, rank and write bits of a container.
use crate::spec::{
    count_ones, count_zeros, has_one, is_select_one, lemma_count_ones_le_len, lemma_count_ones_pos,
    lemma_count_ones_subrange, lemma_count_ones_take,
};
use core::ops::Range;
use vstd::prelude::*;

verus! {

/// A container of bits, indexed from 0.
pub trait Bits {
    /// The bits held by the container, lowest index first.
    spec fn bit_seq(&self) -> Seq<bool>;

    /// Number of bits in the container.
    fn bits(&self) -> (r: usize)
        requires
            self.bit_seq().len() <= usize::MAX,
        ensures
            r == self.bit_seq().len(),
    ;

    /// The bit at `i`, or `None` when `i` is out of range.
    fn bit(&self, i: usize) -> (r: Option<bool>)
        requires
            self.bit_seq().len() <= usize::MAX,
        ensures
            r == (if i < self.bit_seq().len() {
                Some(self.bit_seq()[i as int])
            } else {
                None
            }),
    ;
}

/// A container of bits whose bits can be set.
pub trait BitsMut: Bits {
    /// Sets the bit at `i`; every other bit is left as it was.
    fn set_bit(&mut self, i: usize)
        requires
            i < old(self).bit_seq().len(),
            old(self).bit_seq().len() <= usize::MAX,
        ensures
            final(self).bit_seq() == old(self).bit_seq().update(i as int, true),
    ;

    /// Clears the bit at `i`; every other bit is left as it was.
    fn unset_bit(&mut self, i: usize)
        requires
            i < old(self).bit_seq().len(),
            old(self).bit_seq().len() <= usize::MAX,
        ensures
            final(self).bit_seq() == old(self).bit_seq().update(i as int, false),
    ;
}

/// Counting the ones and the zeros of a container.
pub trait BitCount: Bits {
    /// Number of bits set.
    fn count_1(&self) -> (r: usize)
        requires
            self.bit_seq().len() <= usize::MAX,
        ensures
            r == count_ones(self.bit_seq()),
    {
        let n = self.bits();
        let mut c: usize = 0;
        let mut i: usize = 0;
        while i < n
            invariant
                n == self.bit_seq().len(),
                i <= n,
                c == count_ones(self.bit_seq().take(i as int)),
                c <= i,
            decreases n - i,
        {
            proof {
                lemma_count_ones_take(self.bit_seq(), i as int);
            }
            if self.bit(i) == Some(true) {
                c = c + 1;
            }
            i = i + 1;
        }
        assert(self.bit_seq().take(n as int) =~= self.bit_seq());
        c
    }

    /// Number of bits cleared.
    fn count_0(&self) -> (r: usize)
        requires
            self.bit_seq().len() <= usize::MAX,
        ensures
            r == count_zeros(self.bit_seq()),
    {
        proof {
            lemma_count_ones_le_len(self.bit_seq());
        }
        self.bits() - self.count_1()
    }
}

impl<T: Bits + ?Sized> BitCount for T {

}

/// Counting the ones and the zeros in a window `[start, end)` of a container.
pub trait BitRank: Bits {
    /// Number of bits set in `[r.start, r.end)`.
    fn rank_1(&self, r: Range<usize>) -> (c: usize)
        requires
            self.bit_seq().len() <= usize::MAX,
            r.start <= r.end <= self.bit_seq().len(),
        ensures
            c == count_ones(self.bit_seq().subrange(r.start as int, r.end as int)),
    {
        let mut c: usize = 0;
        let mut i: usize = r.start;
        while i < r.end
            invariant
                self.bit_seq().len() <= usize::MAX,
                r.start <= i <= r.end <= self.bit_seq().len(),
                c == count_ones(self.bit_seq().subrange(r.start as int, i as int)),
                c <= i - r.start,
            decreases r.end - i,
        {
            proof {
                lemma_count_ones_subrange(self.bit_seq(), r.start as int, i as int);
            }
            if self.bit(i) == Some(true) {
                c = c + 1;
            }
            i = i + 1;
        }
        c
    }

    /// Number of bits cleared in `[r.start, r.end)`.
    fn rank_0(&self, r: Range<usize>) -> (c: usize)
        requires
            self.bit_seq().len() <= usize::MAX,
            r.start <= r.end <= self.bit_seq().len(),
        ensures
            c == count_zeros(self.bit_seq().subrange(r.start as int, r.end as int)),
    {
        let start = r.start;
        let end = r.end;
        let ones = self.rank_1(r);
        proof {
            lemma_count_ones_le_len(self.bit_seq().subrange(start as int, end as int));
        }
        (end - start) - ones
    }
}

impl<T: Bits + ?Sized> BitRank for T {

}

/// Finding the position of a one by its rank.
pub trait BitSelect: Bits {
    /// The position of the set bit of rank `c` (the first set bit has rank 0), or `None`
    /// when fewer than `c + 1` bits are set.
    fn select_1(&self, c: usize) -> (r: Option<usize>)
        requires
            self.bit_seq().len() <= usize::MAX,
        ensures
            match r {
                Some(p) => is_select_one(self.bit_seq(), c as int, p as int),
                None => count_ones(self.bit_seq()) <= c,
            },
    {
        let n = self.bits();
        let mut seen: usize = 0;
        let mut i: usize = 0;
        while i < n
            invariant
                n == self.bit_seq().len(),
                i <= n,
                seen == count_ones(self.bit_seq().take(i as int)),
                seen <= c,
            decreases n - i,
        {
            proof {
                lemma_count_ones_take(self.bit_seq(), i as int);
            }
            if self.bit(i) == Some(true) {
                if seen == c {
                    return Some(i);
                }
                seen = seen + 1;
            }
            i = i + 1;
        }
        assert(self.bit_seq().take(n as int) =~= self.bit_seq());
        None
    }
}

impl<T: Bits + ?Sized> BitSelect for T {

}

/// Whether any bit is set.
pub trait BitAny: BitCount {
    /// `true` when at least one bit is set.
    fn any(&self) -> (r: bool)
        requires
            self.bit_seq().len() <= usize::MAX,
        ensures
            r == has_one(self.bit_seq()),
    {
        proof {
            lemma_count_ones_pos(self.bit_seq());
        }
        !(self.bits() == 0) && self.count_1() > 0
    }
}

impl<T: Bits + ?Sized> BitAny for T {

}

/// The difference between the ones and the zeros in a window of a container.
pub trait BitExcess: BitRank {
    /// Ones minus zeros in `[r.start, r.end)`; the window must hold no more zeros than ones.
    fn excess_1(&self, r: Range<usize>) -> (e: usize)
        requires
            self.bit_seq().len() <= usize::MAX,
            r.start <= r.end <= self.bit_seq().len(),
            count_ones(self.bit_seq().subrange(r.start as int, r.end as int)) >= count_zeros(
                self.bit_seq().subrange(r.start as int, r.end as int),
            ),
        ensures
            e == count_ones(self.bit_seq().subrange(r.start as int, r.end as int)) - count_zeros(
                self.bit_seq().subrange(r.start as int, r.end as int),
            ),
    {
        let i = r.start;
        let j = r.end;
        let rank1 = self.rank_1(i..j);
        let rank0 = self.rank_0(i..j);
        rank1 - rank0
    }

    /// Zeros minus ones in `[r.start, r.end)`; the window must hold no more ones than zeros.
    fn excess_0(&self, r: Range<usize>) -> (e: usize)
        requires
            self.bit_seq().len() <= usize::MAX,
            r.start <= r.end <= self.bit_seq().len(),
            count_zeros(self.bit_seq().subrange(r.start as int, r.end as int)) >= count_ones(
                self.bit_seq().subrange(r.start as int, r.end as int),
            ),
        ensures
            e == count_zeros(self.bit_seq().subrange(r.start as int, r.end as int)) - count_ones(
                self.bit_seq().subrange(r.start as int, r.end as int),
            ),
    {
        let i = r.start;
        let j = r.end;
        let rank1 = self.rank_1(i..j);
        let rank0 = self.rank_0(i..j);
        rank0 - rank1
    }
}

impl<T: Bits + ?Sized> BitExcess for T {

}

} // verus!
