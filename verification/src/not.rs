//! Bitwise difference `a & !b`, in place and over streams of blocks.
use crate::block::{
    bit_pairs, blocks_bits, cow_value, lemma_blocks_bits_index, sorted_indices, Block, BlockIter,
    IntoBlocks,
};
use crate::ops::Bits;
use crate::word::{lemma_u16_ops, lemma_u32_ops, lemma_u64_ops, lemma_u8_ops};
use crate::spec::and_not;
use core::cmp::Ordering;
use std::borrow::Cow;
use vstd::prelude::*;

verus! {

/// Lazy difference of two block streams.
pub trait Not: Sized + IntoBlocks {
    /// The blocks of `self` with the bits of `that` cleared.
    fn not<That: IntoBlocks>(self, that: That) -> (r: BitwiseNot<Self, That>)
        ensures
            r.left() == self,
            r.right() == that,
    ;
}

/// In-place difference: clears in `a` the bits set in `b`.
pub trait NotAssign<That: ?Sized + Bits>: Bits {
    /// `a` and `b` have the same shape (for containers: the same number of blocks).
    spec fn fits(a: &Self, b: &That) -> bool;

    /// `r` is what `not_assign` leaves of `a` with `b` (value and shape, as each impl says).
    spec fn not_assigned(a: &Self, b: &That, r: &Self) -> bool;

    /// `a &= !b`, bit by bit; both have the same shape and hold the same number of bits.
    fn not_assign(a: &mut Self, b: &That)
        requires
            Self::fits(old(a), b),
            old(a).bit_seq().len() == b.bit_seq().len(),
            old(a).bit_seq().len() <= usize::MAX,
        ensures
            final(a).bit_seq() == and_not(old(a).bit_seq(), b.bit_seq()),
            Self::not_assigned(old(a), b, final(a)),
    ;
}

/// Two block types of the same width, where `not_assign` leaves one determined block.
pub trait SameWidth<That: Block>: Block + NotAssign<That> {
    /// Both types hold the same number of bits.
    proof fn lemma_same_width()
        ensures
            Self::BITS == That::BITS,
    ;

    /// `not_assign` of `a` by `b` leaves exactly one block, holding the bits of `a & !b`.
    proof fn lemma_not_assigned(a: &Self, b: &That)
        ensures
            Self::fits(a, b),
            exists|r: Self| #[trigger] Self::not_assigned(a, b, &r),
            forall|r: Self, t: Self|
                #[trigger] Self::not_assigned(a, b, &r) && #[trigger] Self::not_assigned(a, b, &t)
                    ==> r == t,
            forall|r: Self|
                #[trigger] Self::not_assigned(a, b, &r) ==> r.bit_seq() == and_not(
                    a.bit_seq(),
                    b.bit_seq(),
                ),
    ;
}

/// The block `not_assign` leaves of `a` with `b`.
pub open spec fn diff_item<S: SameWidth<S2>, S2: Block>(a: S, b: S2) -> S {
    choose|r: S| #[trigger] S::not_assigned(&a, &b, &r)
}

/// The pair of operands of a lazy difference.
pub struct BitwiseNot<A, B> {
    pub(crate) a: A,
    pub(crate) b: B,
}

impl<A, B> BitwiseNot<A, B> {
    /// The operand whose bits are kept.
    pub closed spec fn left(&self) -> A {
        self.a
    }

    /// The operand whose bits are cleared.
    pub closed spec fn right(&self) -> B {
        self.b
    }
}

impl<T: IntoBlocks> Not for T {
    fn not<That: IntoBlocks>(self, that: That) -> (r: BitwiseNot<Self, That>) {
        BitwiseNot { a: self, b: that }
    }
}

/// The block paired with index `i` in a stream, if any.
pub open spec fn lookup<T>(b: Seq<(usize, T)>, i: usize) -> Option<T> {
    if exists|j: int| 0 <= j < b.len() && #[trigger] b[j].0 == i {
        Some(b[choose|j: int| 0 <= j < b.len() && #[trigger] b[j].0 == i].1)
    } else {
        None
    }
}

/// Every pair of `a`, with the bits of the pair of `b` of the same index (if any) cleared.
pub open spec fn sparse_and_not(a: Seq<(usize, Seq<bool>)>, b: Seq<(usize, Seq<bool>)>) -> Seq<
    (usize, Seq<bool>),
> {
    Seq::new(
        a.len(),
        |k: int|
            (
                a[k].0,
                match lookup(b, a[k].0) {
                    Some(y) => and_not(a[k].1, y),
                    None => a[k].1,
                },
            ),
    )
}

/// In a stream with increasing indices, the pair found for an index is the one at its
/// position.
pub(crate) proof fn lemma_lookup_at<T>(b: Seq<(usize, T)>, j: int)
    requires
        sorted_indices(b),
        0 <= j < b.len(),
    ensures
        lookup(b, b[j].0) == Some(b[j].1),
{
    let x = b[j].0;
    assert(b[j].0 == x);
    let c = choose|c: int| 0 <= c < b.len() && #[trigger] b[c].0 == x;
    if c < j {
        assert(b[c].0 < b[j].0);
    } else if c > j {
        assert(b[j].0 < b[c].0);
    }
}

/// An index below every index of a stream is not found in it.
proof fn lemma_lookup_below<T>(b: Seq<(usize, T)>, x: usize)
    requires
        sorted_indices(b),
        b.len() > 0 ==> x < b[0].0,
    ensures
        lookup(b, x) is None,
{
    assert forall|j: int| 0 <= j < b.len() implies #[trigger] b[j].0 != x by {
        if j > 0 {
            assert(b[0].0 < b[j].0);
        }
    }
}

/// Dropping the first pair of a stream changes no lookup of another index.
proof fn lemma_lookup_drop_first<T>(b: Seq<(usize, T)>, x: usize)
    requires
        sorted_indices(b),
        b.len() > 0,
        x != b[0].0,
    ensures
        lookup(b.drop_first(), x) == lookup(b, x),
        sorted_indices(b.drop_first()),
{
    let t = b.drop_first();
    assert forall|a: int, c: int| 0 <= a < c < t.len() implies #[trigger] t[a].0 < #[trigger] t[c].0 by {
        assert(t[a] == b[a + 1] && t[c] == b[c + 1]);
    }
    if exists|j: int| 0 <= j < b.len() && #[trigger] b[j].0 == x {
        let j = choose|j: int| 0 <= j < b.len() && #[trigger] b[j].0 == x;
        assert(j > 0);
        assert(t[j - 1] == b[j]);
        lemma_lookup_at(b, j);
        lemma_lookup_at(t, j - 1);
    } else {
        assert forall|j: int| 0 <= j < t.len() implies #[trigger] t[j].0 != x by {
            assert(t[j] == b[j + 1]);
        }
    }
}

/// Every pair of `a`, with its block replaced by what `not_assign` leaves of it when `b`
/// has a block of the same index; a pair without such a block comes through unchanged.
pub open spec fn sparse_not_items<S: SameWidth<S2>, S2: Block>(
    a: Seq<(usize, S)>,
    b: Seq<(usize, S2)>,
) -> Seq<(usize, S)> {
    Seq::new(
        a.len(),
        |k: int|
            match lookup(b, a[k].0) {
                Some(y) => (a[k].0, diff_item(a[k].1, y)),
                None => a[k],
            },
    )
}

/// Looking up an index among the bits of a stream finds the bits of the block found among
/// its blocks.
proof fn lemma_lookup_bit_pairs<T: Bits>(b: Seq<(usize, T)>, x: usize)
    requires
        sorted_indices(b),
    ensures
        lookup(bit_pairs(b), x) == (match lookup(b, x) {
            Some(y) => Some(y.bit_seq()),
            None => None,
        }),
{
    let bb = bit_pairs(b);
    assert(sorted_indices(bb));
    if exists|j: int| 0 <= j < b.len() && #[trigger] b[j].0 == x {
        let j = choose|j: int| 0 <= j < b.len() && #[trigger] b[j].0 == x;
        lemma_lookup_at(b, j);
        lemma_lookup_at(bb, j);
    } else {
        assert forall|j: int| 0 <= j < bb.len() implies #[trigger] bb[j].0 != x by {
            assert(bb[j].0 == b[j].0);
        }
    }
}

/// The bits of the difference stream are the bitwise difference of the bits of its
/// operand streams.
pub proof fn lemma_sparse_not_items_bits<S: SameWidth<S2>, S2: Block>(
    a: Seq<(usize, S)>,
    b: Seq<(usize, S2)>,
)
    requires
        sorted_indices(b),
    ensures
        bit_pairs(sparse_not_items(a, b)) == sparse_and_not(bit_pairs(a), bit_pairs(b)),
{
    let l = bit_pairs(sparse_not_items(a, b));
    let r = sparse_and_not(bit_pairs(a), bit_pairs(b));
    assert forall|k: int| 0 <= k < a.len() implies #[trigger] l[k] == r[k] by {
        lemma_lookup_bit_pairs(b, a[k].0);
        if let Some(y) = lookup(b, a[k].0) {
            S::lemma_not_assigned(&a[k].1, &y);
            let c = choose|c: S| #[trigger] S::not_assigned(&a[k].1, &y, &c);
            assert(S::not_assigned(&a[k].1, &y, &diff_item(a[k].1, y)));
        }
    }
    assert(l =~= r);
}

/// A block stream with one pair of lookahead.
struct Lookahead<I: BlockIter> {
    iter: I,
    peeked: Option<Option<(usize, I::Item)>>,
}

impl<I: BlockIter> Lookahead<I> {
    spec fn rest(&self) -> Seq<(usize, I::Item)> {
        match self.peeked {
            None => self.iter.rest(),
            Some(None) => Seq::empty(),
            Some(Some(p)) => seq![p] + self.iter.rest(),
        }
    }

    spec fn wf(&self) -> bool {
        &&& self.iter.wf()
        &&& (self.peeked matches Some(None) ==> self.iter.rest().len() == 0)
        &&& sorted_indices(self.rest())
    }

    fn new(iter: I) -> (r: Self)
        requires
            iter.wf(),
        ensures
            r.wf(),
            r.rest() == iter.rest(),
    {
        proof {
            iter.lemma_sorted();
        }
        Lookahead { iter, peeked: None }
    }

    /// The index of the next pair, which stays in the stream.
    fn peek_index(&mut self) -> (r: Option<usize>)
        requires
            old(self).wf(),
        ensures
            final(self).wf(),
            final(self).rest() == old(self).rest(),
            r == (if old(self).rest().len() > 0 {
                Some(old(self).rest()[0].0)
            } else {
                None
            }),
    {
        if self.peeked.is_none() {
            let ghost before = self.iter.rest();
            let n = self.iter.next();
            self.peeked = Some(n);
            proof {
                if n is Some {
                    assert(self.rest() =~= before);
                }
            }
        }
        match &self.peeked {
            Some(Some(p)) => Some(p.0),
            _ => None,
        }
    }

    /// The next pair.
    fn next(&mut self) -> (r: Option<(usize, I::Item)>)
        requires
            old(self).wf(),
        ensures
            final(self).wf(),
            match r {
                None => old(self).rest().len() == 0 && final(self).rest() == old(self).rest(),
                Some(p) => {
                    &&& old(self).rest().len() > 0
                    &&& old(self).rest()[0] == p
                    &&& final(self).rest() == old(self).rest().drop_first()
                },
            },
    {
        let ghost before = self.rest();
        let peeked = self.peeked.take();
        match peeked {
            Some(v) => {
                proof {
                    if v is Some {
                        assert(self.rest() =~= before.drop_first());
                    }
                }
                v
            },
            None => {
                let r = self.iter.next();
                proof {
                    assert(sorted_indices(self.rest())) by {
                        let t = self.rest();
                        assert forall|a: int, c: int| 0 <= a < c < t.len() implies #[trigger] t[a].0
                            < #[trigger] t[c].0 by {
                            assert(t[a] == before[a + 1] && t[c] == before[c + 1]);
                        }
                    }
                }
                r
            },
        }
    }
}

/// The blocks of one stream with the bits of another stream cleared.
pub struct Difference<A: BlockIter, B: BlockIter> {
    a: Lookahead<A>,
    b: Lookahead<B>,
}

/// Orders two optional indices; `None` orders as the given orderings say.
fn compare_index(
    x: Option<usize>,
    y: Option<usize>,
    when_x_is_none: Ordering,
    when_y_is_none: Ordering,
) -> (r: Ordering)
    ensures
        r == (match (x, y) {
            (None, _) => when_x_is_none,
            (_, None) => when_y_is_none,
            (Some(i), Some(j)) => if i < j {
                Ordering::Less
            } else if i == j {
                Ordering::Equal
            } else {
                Ordering::Greater
            },
        }),
{
    match (x, y) {
        (None, _) => when_x_is_none,
        (_, None) => when_y_is_none,
        (Some(i), Some(j)) => if i < j {
            Ordering::Less
        } else if i == j {
            Ordering::Equal
        } else {
            Ordering::Greater
        },
    }
}

impl<A, B, S, S2> BlockIter for Difference<A, B> where
    A: BlockIter<Item = S>,
    B: BlockIter<Item = S2>,
    S: SameWidth<S2> + NotAssign<S2>,
    S2: Block,
 {
    type Item = S;

    closed spec fn wf(&self) -> bool {
        self.a.wf() && self.b.wf()
    }

    closed spec fn rest(&self) -> Seq<(usize, S)> {
        sparse_not_items(self.a.rest(), self.b.rest())
    }

    proof fn lemma_sorted(&self) {
    }

    fn next(&mut self) -> (r: Option<(usize, S)>) {
        let ghost goal = self.rest();
        loop
            invariant
                self.wf(),
                self.rest() == goal,
                goal == old(self).rest(),
            decreases self.b.rest().len(),
        {
            let ghost ar = self.a.rest();
            let ghost br = self.b.rest();
            let ai = self.a.peek_index();
            let bi = self.b.peek_index();
            match compare_index(ai, bi, Ordering::Less, Ordering::Less) {
                Ordering::Less => {
                    let r = self.a.next();
                    proof {
                        if ar.len() > 0 {
                            lemma_lookup_below(br, ar[0].0);
                            assert(sparse_not_items(self.a.rest(), br) =~= goal.drop_first());
                        }
                    }
                    return r;
                },
                Ordering::Equal => {
                    let (i, mut s1) = self.a.next().unwrap();
                    let (j, s2) = self.b.next().unwrap();
                    let ghost s1_old = s1;
                    proof {
                        S::lemma_block_len(&s1);
                        S2::lemma_block_len(&s2);
                        S::lemma_same_width();
                        S::lemma_not_assigned(&s1, &s2);
                        lemma_lookup_at(br, 0);
                        assert forall|k: int| 0 < k < ar.len() implies lookup(
                            br.drop_first(),
                            #[trigger] ar[k].0,
                        ) == lookup(br, ar[k].0) by {
                            assert(ar[0].0 < ar[k].0);
                            lemma_lookup_drop_first(br, ar[k].0);
                        }
                    }
                    NotAssign::not_assign(&mut s1, &s2);
                    proof {
                        S::lemma_not_assigned(&s1_old, &s2);
                        assert(S::not_assigned(&s1_old, &s2, &diff_item(s1_old, s2)));
                        assert(s1 == diff_item(s1_old, s2));
                        assert(sparse_not_items(self.a.rest(), self.b.rest()) =~= goal.drop_first());
                    }
                    return Some((i, s1));
                },
                Ordering::Greater => {
                    self.b.next();
                    proof {
                        assert forall|k: int| 0 <= k < ar.len() implies lookup(
                            br.drop_first(),
                            #[trigger] ar[k].0,
                        ) == lookup(br, ar[k].0) by {
                            if k > 0 {
                                assert(ar[0].0 < ar[k].0);
                            }
                            lemma_lookup_drop_first(br, ar[k].0);
                        }
                        assert(sparse_not_items(self.a.rest(), self.b.rest()) =~= goal);
                    }
                },
            }
        }
    }
}

impl<A, B, S, S2> IntoBlocks for BitwiseNot<A, B> where
    A: IntoBlocks<Block = S>,
    B: IntoBlocks<Block = S2>,
    S: SameWidth<S2> + NotAssign<S2>,
    S2: Block,
 {
    type Block = S;

    type Blocks = Difference<A::Blocks, B::Blocks>;

    open spec fn spec_items(&self) -> Seq<(usize, S)> {
        sparse_not_items(self.left().spec_items(), self.right().spec_items())
    }

    fn into_blocks(self) -> (r: Difference<A::Blocks, B::Blocks>) {
        Difference { a: Lookahead::new(self.a.into_blocks()), b: Lookahead::new(self.b.into_blocks()) }
    }
}

impl<A, B, S, S2> BitwiseNot<A, B> where
    A: IntoBlocks<Block = S>,
    B: IntoBlocks<Block = S2>,
    S: SameWidth<S2> + NotAssign<S2>,
    S2: Block,
 {
    /// The difference as a stream of blocks.
    pub fn into_iter(self) -> (r: Difference<A::Blocks, B::Blocks>)
        ensures
            r.wf(),
            r.rest() == self.spec_items(),
    {
        self.into_blocks()
    }
}

impl NotAssign<u8> for u8 {
    open spec fn fits(a: &u8, b: &u8) -> bool {
        true
    }

    open spec fn not_assigned(a: &u8, b: &u8, r: &u8) -> bool {
        *r == *a & !*b
    }

    fn not_assign(a: &mut Self, b: &u8) {
        let x = *a;
        *a &= !*b;
        proof {
            assert forall|k: int| 0 <= k < 8 implies #[trigger] a.bit_seq()[k] == and_not(
                x.bit_seq(),
                b.bit_seq(),
            )[k] by {
                lemma_u8_ops(x, *b, k as u8, 0);
            }
            assert(a.bit_seq() =~= and_not(x.bit_seq(), b.bit_seq()));
        }
    }
}

impl NotAssign<u16> for u16 {
    open spec fn fits(a: &u16, b: &u16) -> bool {
        true
    }

    open spec fn not_assigned(a: &u16, b: &u16, r: &u16) -> bool {
        *r == *a & !*b
    }

    fn not_assign(a: &mut Self, b: &u16) {
        let x = *a;
        *a &= !*b;
        proof {
            assert forall|k: int| 0 <= k < 16 implies #[trigger] a.bit_seq()[k] == and_not(
                x.bit_seq(),
                b.bit_seq(),
            )[k] by {
                lemma_u16_ops(x, *b, k as u16, 0);
            }
            assert(a.bit_seq() =~= and_not(x.bit_seq(), b.bit_seq()));
        }
    }
}

impl NotAssign<u32> for u32 {
    open spec fn fits(a: &u32, b: &u32) -> bool {
        true
    }

    open spec fn not_assigned(a: &u32, b: &u32, r: &u32) -> bool {
        *r == *a & !*b
    }

    fn not_assign(a: &mut Self, b: &u32) {
        let x = *a;
        *a &= !*b;
        proof {
            assert forall|k: int| 0 <= k < 32 implies #[trigger] a.bit_seq()[k] == and_not(
                x.bit_seq(),
                b.bit_seq(),
            )[k] by {
                lemma_u32_ops(x, *b, k as u32, 0);
            }
            assert(a.bit_seq() =~= and_not(x.bit_seq(), b.bit_seq()));
        }
    }
}

impl NotAssign<u64> for u64 {
    open spec fn fits(a: &u64, b: &u64) -> bool {
        true
    }

    open spec fn not_assigned(a: &u64, b: &u64, r: &u64) -> bool {
        *r == *a & !*b
    }

    fn not_assign(a: &mut Self, b: &u64) {
        let x = *a;
        *a &= !*b;
        proof {
            assert forall|k: int| 0 <= k < 64 implies #[trigger] a.bit_seq()[k] == and_not(
                x.bit_seq(),
                b.bit_seq(),
            )[k] by {
                lemma_u64_ops(x, *b, k as u64, 0);
            }
            assert(a.bit_seq() =~= and_not(x.bit_seq(), b.bit_seq()));
        }
    }
}

impl<T: Block + NotAssign<T>> NotAssign<[T]> for [T] {
    open spec fn fits(a: &[T], b: &[T]) -> bool {
        &&& a@.len() == b@.len()
        &&& forall|k: int| 0 <= k < a@.len() ==> #[trigger] T::fits(&a@[k], &b@[k])
    }

    open spec fn not_assigned(a: &[T], b: &[T], r: &[T]) -> bool {
        &&& r@.len() == a@.len()
        &&& forall|k: int| 0 <= k < a@.len() ==> #[trigger] T::not_assigned(&a@[k], &b@[k], &r@[k])
    }

    fn not_assign(this: &mut Self, that: &[T])
        ensures
            final(this)@.len() == old(this)@.len(),
    {
        let ghost s0 = this@;
        let n = this.len();
        let mut k: usize = 0;
        while k < n
            invariant
                n == this@.len(),
                n == that@.len(),
                n == s0.len(),
                k <= n,
                forall|j: int|
                    0 <= j < k ==> #[trigger] this@[j].bit_seq() == and_not(
                        s0[j].bit_seq(),
                        that@[j].bit_seq(),
                    ),
                forall|j: int| k <= j < n ==> #[trigger] this@[j] == s0[j],
                forall|j: int| 0 <= j < n ==> #[trigger] T::fits(&s0[j], &that@[j]),
                forall|j: int|
                    0 <= j < k ==> #[trigger] T::not_assigned(&s0[j], &that@[j], &this@[j]),
            decreases n - k,
        {
            proof {
                T::lemma_block_len(&this@[k as int]);
                T::lemma_block_len(&that@[k as int]);
            }
            NotAssign::not_assign(&mut this[k], &that[k]);
            k = k + 1;
        }
        proof {
            assert forall|m: int| 0 <= m < n * T::BITS implies #[trigger] blocks_bits(this@)[m]
                == and_not(blocks_bits(s0), blocks_bits(that@))[m] by {
                lemma_blocks_bits_index(this@, m);
                lemma_blocks_bits_index(s0, m);
                lemma_blocks_bits_index(that@, m);
            }
            assert(blocks_bits(this@) =~= and_not(blocks_bits(s0), blocks_bits(that@)));
        }
    }
}

impl<T: Block + NotAssign<T>> NotAssign<[T]> for Vec<T> {
    open spec fn fits(a: &Vec<T>, b: &[T]) -> bool {
        &&& a@.len() == b@.len()
        &&& forall|k: int| 0 <= k < a@.len() ==> #[trigger] T::fits(&a@[k], &b@[k])
    }

    open spec fn not_assigned(a: &Vec<T>, b: &[T], r: &Vec<T>) -> bool {
        &&& r@.len() == a@.len()
        &&& forall|k: int| 0 <= k < a@.len() ==> #[trigger] T::not_assigned(&a@[k], &b@[k], &r@[k])
    }

    fn not_assign(this: &mut Self, that: &[T])
        ensures
            final(this)@.len() == old(this)@.len(),
    {
        <[T] as NotAssign<[T]>>::not_assign(this.as_mut_slice(), that);
    }
}

impl<T: ?Sized + NotAssign<U>, U: ?Sized + Bits> NotAssign<U> for Box<T> {
    open spec fn fits(a: &Box<T>, b: &U) -> bool {
        T::fits(&**a, b)
    }

    open spec fn not_assigned(a: &Box<T>, b: &U, r: &Box<T>) -> bool {
        T::not_assigned(&**a, b, &**r)
    }

    fn not_assign(this: &mut Self, that: &U) {
        <T as NotAssign<U>>::not_assign(&mut **this, that);
    }
}

impl<T: Block + NotAssign<T>, const N: usize> NotAssign<[T]> for [T; N] {
    open spec fn fits(a: &[T; N], b: &[T]) -> bool {
        &&& a@.len() == b@.len()
        &&& forall|k: int| 0 <= k < a@.len() ==> #[trigger] T::fits(&a@[k], &b@[k])
    }

    open spec fn not_assigned(a: &[T; N], b: &[T], r: &[T; N]) -> bool {
        &&& r@.len() == a@.len()
        &&& forall|k: int| 0 <= k < a@.len() ==> #[trigger] T::not_assigned(&a@[k], &b@[k], &r@[k])
    }

    fn not_assign(this: &mut Self, that: &[T]) {
        let s: &mut [T] = this;
        <[T] as NotAssign<[T]>>::not_assign(s, that);
    }
}

impl<'a, 'b, T: Block + Copy + NotAssign<T>> NotAssign<Cow<'b, T>> for Cow<'a, T> {
    open spec fn fits(a: &Cow<'a, T>, b: &Cow<'b, T>) -> bool {
        T::fits(&cow_value(*a), &cow_value(*b))
    }

    open spec fn not_assigned(a: &Cow<'a, T>, b: &Cow<'b, T>, r: &Cow<'a, T>) -> bool {
        &&& *r is Owned
        &&& T::not_assigned(&cow_value(*a), &cow_value(*b), &cow_value(*r))
    }

    fn not_assign(this: &mut Self, that: &Cow<'b, T>)
        ensures
            *final(this) is Owned,
    {
        let mut v: T = match this {
            Cow::Borrowed(x) => **x,
            Cow::Owned(x) => *x,
        };
        let w: &T = match that {
            Cow::Borrowed(y) => *y,
            Cow::Owned(y) => y,
        };
        NotAssign::not_assign(&mut v, w);
        *this = Cow::Owned(v);
    }
}

impl SameWidth<u8> for u8 {
    proof fn lemma_same_width() {
    }

    proof fn lemma_not_assigned(a: &u8, b: &u8) {
        let w = *a & !*b;
        assert(Self::not_assigned(a, b, &w));
        assert forall|r: u8| #[trigger] Self::not_assigned(a, b, &r) implies r.bit_seq() == and_not(
            a.bit_seq(),
            b.bit_seq(),
        ) by {
            assert forall|k: int| 0 <= k < 8 implies #[trigger] r.bit_seq()[k] == and_not(
                a.bit_seq(),
                b.bit_seq(),
            )[k] by {
                lemma_u8_ops(*a, *b, k as u8, 0);
            }
            assert(r.bit_seq() =~= and_not(a.bit_seq(), b.bit_seq()));
        }
    }
}

impl SameWidth<u16> for u16 {
    proof fn lemma_same_width() {
    }

    proof fn lemma_not_assigned(a: &u16, b: &u16) {
        let w = *a & !*b;
        assert(Self::not_assigned(a, b, &w));
        assert forall|r: u16| #[trigger] Self::not_assigned(a, b, &r) implies r.bit_seq() == and_not(
            a.bit_seq(),
            b.bit_seq(),
        ) by {
            assert forall|k: int| 0 <= k < 16 implies #[trigger] r.bit_seq()[k] == and_not(
                a.bit_seq(),
                b.bit_seq(),
            )[k] by {
                lemma_u16_ops(*a, *b, k as u16, 0);
            }
            assert(r.bit_seq() =~= and_not(a.bit_seq(), b.bit_seq()));
        }
    }
}

impl SameWidth<u32> for u32 {
    proof fn lemma_same_width() {
    }

    proof fn lemma_not_assigned(a: &u32, b: &u32) {
        let w = *a & !*b;
        assert(Self::not_assigned(a, b, &w));
        assert forall|r: u32| #[trigger] Self::not_assigned(a, b, &r) implies r.bit_seq() == and_not(
            a.bit_seq(),
            b.bit_seq(),
        ) by {
            assert forall|k: int| 0 <= k < 32 implies #[trigger] r.bit_seq()[k] == and_not(
                a.bit_seq(),
                b.bit_seq(),
            )[k] by {
                lemma_u32_ops(*a, *b, k as u32, 0);
            }
            assert(r.bit_seq() =~= and_not(a.bit_seq(), b.bit_seq()));
        }
    }
}

impl SameWidth<u64> for u64 {
    proof fn lemma_same_width() {
    }

    proof fn lemma_not_assigned(a: &u64, b: &u64) {
        let w = *a & !*b;
        assert(Self::not_assigned(a, b, &w));
        assert forall|r: u64| #[trigger] Self::not_assigned(a, b, &r) implies r.bit_seq() == and_not(
            a.bit_seq(),
            b.bit_seq(),
        ) by {
            assert forall|k: int| 0 <= k < 64 implies #[trigger] r.bit_seq()[k] == and_not(
                a.bit_seq(),
                b.bit_seq(),
            )[k] by {
                lemma_u64_ops(*a, *b, k as u64, 0);
            }
            assert(r.bit_seq() =~= and_not(a.bit_seq(), b.bit_seq()));
        }
    }
}

impl<'a, 'b, T: SameWidth<T> + Copy> SameWidth<Cow<'b, T>> for Cow<'a, T> {
    proof fn lemma_same_width() {
    }

    proof fn lemma_not_assigned(a: &Cow<'a, T>, b: &Cow<'b, T>) {
        let av = cow_value(*a);
        let bv = cow_value(*b);
        T::lemma_not_assigned(&av, &bv);
        let v = choose|v: T| #[trigger] T::not_assigned(&av, &bv, &v);
        let w: Cow<'a, T> = Cow::Owned(v);
        assert(Self::not_assigned(a, b, &w));
        assert forall|r: Cow<'a, T>, t: Cow<'a, T>|
            #[trigger] Self::not_assigned(a, b, &r) && #[trigger] Self::not_assigned(a, b, &t)
                implies r == t by {
            assert(T::not_assigned(&av, &bv, &cow_value(r)));
            assert(T::not_assigned(&av, &bv, &cow_value(t)));
        }
        assert forall|r: Cow<'a, T>| #[trigger] Self::not_assigned(a, b, &r) implies r.bit_seq()
            == and_not(a.bit_seq(), b.bit_seq()) by {
            assert(T::not_assigned(&av, &bv, &cow_value(r)));
        }
    }
}

} // verus!
