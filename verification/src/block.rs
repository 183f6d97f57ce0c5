//! Fixed-width blocks of bits, and containers made of blocks.
use crate::ops::{BitAny, Bits, BitsMut};
use crate::spec::{flatten, has_one, lemma_flat_index, lemma_flat_pos, zeros};
use std::borrow::Cow;
use vstd::prelude::*;

verus! {

/// A fixed-width block of bits: every value holds exactly `BITS` bits.
pub trait Block: BitsMut + Sized {
    /// Number of bits of every value of the type.
    const BITS: usize;

    /// Number of bytes of every value of the type.
    const SIZE: usize = Self::BITS / 8;

    /// Every value holds `BITS` bits.
    proof fn lemma_block_len(b: &Self)
        ensures
            b.bit_seq().len() == Self::BITS,
    ;

    /// A block with no bit set.
    fn empty() -> (r: Self)
        ensures
            r.bit_seq() == zeros(Self::BITS as nat),
    ;
}

/// The bits of a sequence of blocks, block 0 first.
pub open spec fn blocks_bits<B: Block>(s: Seq<B>) -> Seq<bool> {
    flatten(s.map_values(|b: B| b.bit_seq()), B::BITS as nat)
}

/// The value a `Cow` holds, borrowed or owned.
pub open spec fn cow_value<'a, T: Clone>(c: Cow<'a, T>) -> T {
    match c {
        Cow::Borrowed(x) => *x,
        Cow::Owned(x) => x,
    }
}

impl<'a, T: Bits + Clone> Bits for Cow<'a, T> {
    open spec fn bit_seq(&self) -> Seq<bool> {
        match self {
            Cow::Borrowed(b) => b.bit_seq(),
            Cow::Owned(o) => o.bit_seq(),
        }
    }

    fn bits(&self) -> (r: usize) {
        match self {
            Cow::Borrowed(b) => b.bits(),
            Cow::Owned(o) => o.bits(),
        }
    }

    fn bit(&self, i: usize) -> (r: Option<bool>) {
        match self {
            Cow::Borrowed(b) => b.bit(i),
            Cow::Owned(o) => o.bit(i),
        }
    }
}

impl<'a, T: BitsMut + Copy> BitsMut for Cow<'a, T> {
    fn set_bit(&mut self, i: usize)
        ensures
            *final(self) is Owned,
    {
        let mut v: T = match self {
            Cow::Borrowed(b) => **b,
            Cow::Owned(o) => *o,
        };
        v.set_bit(i);
        *self = Cow::Owned(v);
    }

    fn unset_bit(&mut self, i: usize)
        ensures
            *final(self) is Owned,
    {
        let mut v: T = match self {
            Cow::Borrowed(b) => **b,
            Cow::Owned(o) => *o,
        };
        v.unset_bit(i);
        *self = Cow::Owned(v);
    }
}

impl<'a, T: Block + Copy> Block for Cow<'a, T> {
    const BITS: usize = T::BITS;

    proof fn lemma_block_len(b: &Self) {
        match b {
            Cow::Borrowed(x) => T::lemma_block_len(x),
            Cow::Owned(x) => T::lemma_block_len(x),
        }
    }

    fn empty() -> (r: Self)
        ensures
            r is Owned,
    {
        Cow::Owned(T::empty())
    }
}

/// Where bit `i` of a sequence of blocks lies: bit `i % BITS` of block `i / BITS`.
pub proof fn lemma_blocks_bits_index<B: Block>(s: Seq<B>, i: int)
    requires
        0 <= i < s.len() * B::BITS,
    ensures
        B::BITS > 0,
        0 <= i / (B::BITS as int) < s.len(),
        0 <= i % (B::BITS as int) < B::BITS,
        i == (i / (B::BITS as int)) * (B::BITS as int) + i % (B::BITS as int),
        blocks_bits(s).len() == s.len() * B::BITS,
        blocks_bits(s)[i] == s[i / (B::BITS as int)].bit_seq()[i % (B::BITS as int)],
        s[i / (B::BITS as int)].bit_seq().len() == B::BITS,
{
    lemma_flat_index(s.len(), B::BITS as nat, i);
    B::lemma_block_len(&s[i / (B::BITS as int)]);
}

/// Bit `j` of block `k` of a sequence of blocks is its bit `k * BITS + j`.
pub proof fn lemma_blocks_bits_pos<B: Block>(s: Seq<B>, k: int, j: int)
    requires
        0 <= k < s.len(),
        0 <= j < B::BITS,
    ensures
        0 <= k * B::BITS + j < s.len() * B::BITS,
        blocks_bits(s)[k * B::BITS + j] == s[k].bit_seq()[j],
{
    lemma_flat_pos(s.len(), B::BITS as nat, k, j);
}

/// Changing one block changes only the bits of that block.
pub proof fn lemma_blocks_bits_update<B: Block>(s: Seq<B>, k: int, b: B)
    requires
        0 <= k < s.len(),
    ensures
        forall|i: int|
            0 <= i < s.len() * B::BITS ==> #[trigger] blocks_bits(s.update(k, b))[i] == if i
                / (B::BITS as int) == k {
                b.bit_seq()[i % (B::BITS as int)]
            } else {
                blocks_bits(s)[i]
            },
        blocks_bits(s.update(k, b)).len() == blocks_bits(s).len(),
{
    assert forall|i: int| 0 <= i < s.len() * B::BITS implies #[trigger] blocks_bits(
        s.update(k, b),
    )[i] == if i / (B::BITS as int) == k {
        b.bit_seq()[i % (B::BITS as int)]
    } else {
        blocks_bits(s)[i]
    } by {
        lemma_blocks_bits_index(s, i);
        lemma_blocks_bits_index(s.update(k, b), i);
    }
}

impl<B: Block> Bits for [B] {
    open spec fn bit_seq(&self) -> Seq<bool> {
        blocks_bits(self@)
    }

    fn bits(&self) -> (r: usize) {
        self.len() * B::BITS
    }

    fn bit(&self, i: usize) -> (r: Option<bool>) {
        if i < self.len() * B::BITS {
            proof {
                lemma_blocks_bits_index(self@, i as int);
            }
            let w = B::BITS;
            self[i / w].bit(i % w)
        } else {
            None
        }
    }
}

impl<B: Block> BitsMut for [B] {
    fn set_bit(&mut self, i: usize)
        ensures
            final(self)@.len() == old(self)@.len(),
    {
        let w = B::BITS;
        proof {
            lemma_blocks_bits_index(old(self)@, i as int);
        }
        let k = i / w;
        let j = i % w;
        self[k].set_bit(j);
        proof {
            let s = old(self)@;
            lemma_blocks_bits_update(s, k as int, self@[k as int]);
            assert(self@ == s.update(k as int, self@[k as int]));
            assert forall|m: int| 0 <= m < s.len() * B::BITS implies #[trigger] blocks_bits(
                self@,
            )[m] == blocks_bits(s).update(i as int, true)[m] by {
                lemma_blocks_bits_index(s, m);
                lemma_blocks_bits_index(s, i as int);
                if m / (w as int) == k {
                    if m % (w as int) == j as int {
                        assert(m == i);
                    }
                }
            }
            assert(blocks_bits(self@) =~= blocks_bits(s).update(i as int, true));
        }
    }

    fn unset_bit(&mut self, i: usize)
        ensures
            final(self)@.len() == old(self)@.len(),
    {
        let w = B::BITS;
        proof {
            lemma_blocks_bits_index(old(self)@, i as int);
        }
        let k = i / w;
        let j = i % w;
        self[k].unset_bit(j);
        proof {
            let s = old(self)@;
            lemma_blocks_bits_update(s, k as int, self@[k as int]);
            assert(self@ == s.update(k as int, self@[k as int]));
            assert forall|m: int| 0 <= m < s.len() * B::BITS implies #[trigger] blocks_bits(
                self@,
            )[m] == blocks_bits(s).update(i as int, false)[m] by {
                lemma_blocks_bits_index(s, m);
                lemma_blocks_bits_index(s, i as int);
                if m / (w as int) == k {
                    if m % (w as int) == j as int {
                        assert(m == i);
                    }
                }
            }
            assert(blocks_bits(self@) =~= blocks_bits(s).update(i as int, false));
        }
    }
}

impl Bits for [bool] {
    open spec fn bit_seq(&self) -> Seq<bool> {
        self@
    }

    fn bits(&self) -> (r: usize) {
        self.len()
    }

    fn bit(&self, i: usize) -> (r: Option<bool>) {
        if i < self.len() {
            Some(self[i])
        } else {
            None
        }
    }
}

impl BitsMut for [bool] {
    fn set_bit(&mut self, i: usize) {
        self[i] = true;
    }

    fn unset_bit(&mut self, i: usize) {
        self[i] = false;
    }
}

impl<B: Block> Bits for Vec<B> {
    open spec fn bit_seq(&self) -> Seq<bool> {
        blocks_bits(self@)
    }

    fn bits(&self) -> (r: usize) {
        self.as_slice().bits()
    }

    fn bit(&self, i: usize) -> (r: Option<bool>) {
        self.as_slice().bit(i)
    }
}

impl<B: Block> BitsMut for Vec<B> {
    fn set_bit(&mut self, i: usize)
        ensures
            final(self)@.len() == old(self)@.len(),
    {
        self.as_mut_slice().set_bit(i);
    }

    fn unset_bit(&mut self, i: usize)
        ensures
            final(self)@.len() == old(self)@.len(),
    {
        self.as_mut_slice().unset_bit(i);
    }
}

impl<B: Block, const N: usize> Bits for [B; N] {
    open spec fn bit_seq(&self) -> Seq<bool> {
        blocks_bits(self@)
    }

    fn bits(&self) -> (r: usize) {
        self.as_slice().bits()
    }

    fn bit(&self, i: usize) -> (r: Option<bool>) {
        self.as_slice().bit(i)
    }
}

impl<B: Block, const N: usize> BitsMut for [B; N] {
    fn set_bit(&mut self, i: usize) {
        let s: &mut [B] = self;
        s.set_bit(i);
    }

    fn unset_bit(&mut self, i: usize) {
        let s: &mut [B] = self;
        s.unset_bit(i);
    }
}

impl<T: Bits + ?Sized> Bits for Box<T> {
    open spec fn bit_seq(&self) -> Seq<bool> {
        (**self).bit_seq()
    }

    fn bits(&self) -> (r: usize) {
        (**self).bits()
    }

    fn bit(&self, i: usize) -> (r: Option<bool>) {
        (**self).bit(i)
    }
}

impl<T: BitsMut + ?Sized> BitsMut for Box<T> {
    fn set_bit(&mut self, i: usize) {
        (**self).set_bit(i);
    }

    fn unset_bit(&mut self, i: usize) {
        (**self).unset_bit(i);
    }
}

impl<'a, T: Bits + ?Sized> Bits for &'a T {
    open spec fn bit_seq(&self) -> Seq<bool> {
        (**self).bit_seq()
    }

    fn bits(&self) -> (r: usize) {
        (**self).bits()
    }

    fn bit(&self, i: usize) -> (r: Option<bool>) {
        (**self).bit(i)
    }
}

impl<T: Block> Block for Box<T> {
    const BITS: usize = T::BITS;

    proof fn lemma_block_len(b: &Self) {
        T::lemma_block_len(&**b);
    }

    fn empty() -> (r: Self) {
        Box::new(T::empty())
    }
}

/// The indices of a stream of `(index, _)` pairs strictly increase.
pub open spec fn sorted_indices<T>(s: Seq<(usize, T)>) -> bool {
    forall|a: int, b: int| 0 <= a < b < s.len() ==> #[trigger] s[a].0 < #[trigger] s[b].0
}

/// A stream of `(index, block)` pairs with each block given by its bits.
pub open spec fn bit_pairs<T: Bits>(s: Seq<(usize, T)>) -> Seq<(usize, Seq<bool>)> {
    Seq::new(s.len(), |k: int| (s[k].0, s[k].1.bit_seq()))
}

/// A stream of `(index, block)` pairs, in increasing index order.
pub trait BlockIter {
    /// The blocks of the stream.
    type Item: Block;

    /// The internal invariant of the stream.
    spec fn wf(&self) -> bool;

    /// The pairs still to come.
    spec fn rest(&self) -> Seq<(usize, Self::Item)>;

    /// The pairs still to come are in increasing index order.
    proof fn lemma_sorted(&self)
        requires
            self.wf(),
        ensures
            sorted_indices(self.rest()),
    ;

    /// The next pair, or `None` once the stream is exhausted (and from then on).
    fn next(&mut self) -> (r: Option<(usize, Self::Item)>)
        requires
            old(self).wf(),
        ensures
            final(self).wf(),
            match r {
                None => old(self).rest().len() == 0 && final(self).rest() == old(self).rest(),
                Some(p) => {
                    &&& old(self).rest().len() > 0
                    &&& old(self).rest()[0] == p
                    &&& final(self).rest() == old(self).rest().drop_first()
                },
            },
    ;
}

/// The blocks of `s` from `pos` on that have a bit set, each with its index.
pub open spec fn nonempty_from<B: Bits>(s: Seq<B>, pos: int) -> Seq<(usize, Seq<bool>)>
    decreases s.len() - pos,
{
    if pos < 0 || pos >= s.len() {
        Seq::empty()
    } else if has_one(s[pos].bit_seq()) {
        seq![(pos as usize, s[pos].bit_seq())] + nonempty_from(s, pos + 1)
    } else {
        nonempty_from(s, pos + 1)
    }
}

/// The pairs of `nonempty_from(s, pos)` have increasing indices, all at least `pos`.
pub proof fn lemma_nonempty_from_sorted<B: Bits>(s: Seq<B>, pos: int)
    requires
        0 <= pos,
        s.len() <= usize::MAX,
    ensures
        sorted_indices(nonempty_from(s, pos)),
        forall|a: int|
            0 <= a < nonempty_from(s, pos).len() ==> pos <= #[trigger] nonempty_from(s, pos)[a].0
                < s.len(),
    decreases s.len() - pos,
{
    if pos < s.len() {
        lemma_nonempty_from_sorted(s, pos + 1);
        let t = nonempty_from(s, pos + 1);
        if has_one(s[pos].bit_seq()) {
            let r = nonempty_from(s, pos);
            assert(r == seq![(pos as usize, s[pos].bit_seq())] + t);
            assert forall|a: int| 0 < a < r.len() implies r[a] == t[a - 1] by {
            }
            assert forall|a: int, b: int| 0 <= a < b < r.len() implies #[trigger] r[a].0
                < #[trigger] r[b].0 by {
                assert(r[b] == t[b - 1]);
                if a > 0 {
                    assert(r[a] == t[a - 1]);
                }
            }
            assert forall|a: int| 0 <= a < r.len() implies pos <= #[trigger] r[a].0 < s.len() by {
                if a > 0 {
                    assert(r[a] == t[a - 1]);
                }
            }
        }
    }
}

/// Each pair of `nonempty_from(s, pos)` is a block of `s` from `pos` on, with its bits, and
/// that block has a bit set.
pub proof fn lemma_nonempty_from_items<B: Bits>(s: Seq<B>, pos: int)
    requires
        0 <= pos,
        s.len() <= usize::MAX,
    ensures
        forall|j: int|
            0 <= j < nonempty_from(s, pos).len() ==> {
                let q = #[trigger] nonempty_from(s, pos)[j];
                &&& pos <= q.0 < s.len()
                &&& q.1 == s[q.0 as int].bit_seq()
                &&& has_one(s[q.0 as int].bit_seq())
            },
    decreases s.len() - pos,
{
    if pos < s.len() {
        lemma_nonempty_from_items(s, pos + 1);
        let t = nonempty_from(s, pos + 1);
        if has_one(s[pos].bit_seq()) {
            let r = nonempty_from(s, pos);
            assert forall|j: int| 0 < j < r.len() implies r[j] == t[j - 1] by {
            }
        }
    }
}

/// Every block of `s` from `pos` on that has a bit set appears in `nonempty_from(s, pos)`.
pub proof fn lemma_nonempty_from_complete<B: Bits>(s: Seq<B>, pos: int, k: int)
    requires
        0 <= pos <= k < s.len(),
        s.len() <= usize::MAX,
        has_one(s[k].bit_seq()),
    ensures
        exists|j: int|
            0 <= j < nonempty_from(s, pos).len() && #[trigger] nonempty_from(s, pos)[j].0 == k,
    decreases k - pos,
{
    let r = nonempty_from(s, pos);
    if k == pos {
        assert(r[0].0 == k);
    } else {
        lemma_nonempty_from_complete(s, pos + 1, k);
        let t = nonempty_from(s, pos + 1);
        let j = choose|j: int| 0 <= j < t.len() && #[trigger] t[j].0 == k;
        if has_one(s[pos].bit_seq()) {
            assert(r[j + 1] == t[j]);
        } else {
            assert(r[j] == t[j]);
        }
    }
}

/// The blocks of `s` from `pos` on that have a bit set, each with its index, borrowed from
/// `s`.
pub open spec fn borrowed_from<'a, B: Bits + Clone>(s: &'a [B], pos: int) -> Seq<(usize, Cow<'a, B>)> {
    nonempty_from(s@, pos).map_values(|p: (usize, Seq<bool>)| (p.0, Cow::Borrowed(&s@[p.0 as int])))
}

/// The blocks borrowed from `s` have the bits `nonempty_from` gives them.
pub proof fn lemma_borrowed_from_bits<'a, B: Bits + Copy>(s: &'a [B], pos: int)
    requires
        0 <= pos,
        s@.len() <= usize::MAX,
    ensures
        bit_pairs(borrowed_from(s, pos)) == nonempty_from(s@, pos),
        sorted_indices(borrowed_from(s, pos)),
{
    lemma_nonempty_from_items(s@, pos);
    lemma_nonempty_from_sorted(s@, pos);
    assert(bit_pairs(borrowed_from(s, pos)) =~= nonempty_from(s@, pos));
}

/// The blocks of a slice that have a bit set, with their indices, in increasing order.
pub struct Blocks<'a, B> {
    blocks: &'a [B],
    pos: usize,
}

impl<'a, B> Blocks<'a, B> {
    /// The slice whose blocks the stream yields.
    pub closed spec fn slice(&self) -> &'a [B] {
        self.blocks
    }
}

impl<'a, B: Block + Copy> BlockIter for Blocks<'a, B> {
    type Item = Cow<'a, B>;

    closed spec fn wf(&self) -> bool {
        self.pos <= self.blocks@.len() <= usize::MAX
    }

    closed spec fn rest(&self) -> Seq<(usize, Cow<'a, B>)> {
        borrowed_from(self.blocks, self.pos as int)
    }

    proof fn lemma_sorted(&self) {
        lemma_borrowed_from_bits(self.blocks, self.pos as int);
    }

    fn next(&mut self) -> (r: Option<(usize, Cow<'a, B>)>)
        ensures
            final(self).slice() == old(self).slice(),
            r matches Some(p) ==> (p.1 matches Cow::Borrowed(b) && *b == old(self).slice()@[p.0 as int]),
    {
        let n = self.blocks.len();
        proof {
            assert forall|j: int| 0 <= j < n implies #[trigger] self.blocks@[j].bit_seq().len()
                == B::BITS by {
                B::lemma_block_len(&self.blocks@[j]);
            }
        }
        while self.pos < n && !self.blocks[self.pos].any()
            invariant
                n == self.blocks@.len(),
                forall|j: int| 0 <= j < n ==> #[trigger] self.blocks@[j].bit_seq().len() == B::BITS,
                self.blocks == old(self).blocks,
                old(self).pos <= self.pos <= n,
                nonempty_from(self.blocks@, self.pos as int) == nonempty_from(
                    old(self).blocks@,
                    old(self).pos as int,
                ),
            decreases n - self.pos,
        {
            self.pos = self.pos + 1;
        }
        if self.pos < n {
            let i = self.pos;
            self.pos = self.pos + 1;
            let blocks: &'a [B] = self.blocks;
            proof {
                assert(borrowed_from(self.blocks, self.pos as int) =~= borrowed_from(
                    self.blocks,
                    i as int,
                ).drop_first());
            }
            Some((i, Cow::Borrowed(&blocks[i])))
        } else {
            None
        }
    }
}

/// Conversion into a stream of the blocks that have a bit set.
pub trait IntoBlocks {
    /// The blocks of the stream.
    type Block: Block;

    /// The stream.
    type Blocks: BlockIter<Item = Self::Block>;

    /// The `(index, block)` pairs of the stream, in increasing index order.
    spec fn spec_items(&self) -> Seq<(usize, Self::Block)>;

    /// The stream of the blocks that have a bit set.
    fn into_blocks(self) -> (r: Self::Blocks)
        ensures
            r.wf(),
            r.rest() == self.spec_items(),
    ;
}

impl<'a, B: Block + Copy> IntoBlocks for &'a [B] {
    type Block = Cow<'a, B>;

    type Blocks = Blocks<'a, B>;

    open spec fn spec_items(&self) -> Seq<(usize, Cow<'a, B>)> {
        borrowed_from(*self, 0)
    }

    fn into_blocks(self) -> (r: Blocks<'a, B>)
        ensures
            r.slice() == self,
    {
        proof {
            assert(self@.len() == self.len());
        }
        Blocks { blocks: self, pos: 0 }
    }
}

impl<'a, B: Block + Copy, const N: usize> IntoBlocks for &'a [B; N] {
    type Block = Cow<'a, B>;

    type Blocks = Blocks<'a, B>;

    open spec fn spec_items(&self) -> Seq<(usize, Cow<'a, B>)> {
        borrowed_from(vstd::array::spec_array_as_slice(*self), 0)
    }

    fn into_blocks(self) -> (r: Blocks<'a, B>)
        ensures
            r.slice()@ == self@,
    {
        let r = self.as_slice().into_blocks();
        proof {
            vstd::array::axiom_spec_array_as_slice(self);
            assert(r.rest() =~= borrowed_from(vstd::array::spec_array_as_slice(self), 0));
        }
        r
    }
}

impl<'inner, 'outer, T: ?Sized> IntoBlocks for &'outer &'inner T where &'inner T: IntoBlocks {
    type Block = <&'inner T as IntoBlocks>::Block;

    type Blocks = <&'inner T as IntoBlocks>::Blocks;

    open spec fn spec_items(&self) -> Seq<(usize, Self::Block)> {
        (**self).spec_items()
    }

    fn into_blocks(self) -> (r: Self::Blocks) {
        IntoBlocks::into_blocks(*self)
    }
}

} // verus!
