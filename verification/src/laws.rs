//! Properties that relate the operations of the library to one another.
use crate::spec::{
    and_not, count_ones, count_zeros, has_one, is_select_one, is_trailing_zeros,
    lemma_count_ones_le_len, lemma_count_ones_pos, lemma_count_ones_take, lowest_one_only,
    written, zeros,
};
use crate::block::{
    lemma_nonempty_from_complete, lemma_nonempty_from_items, lemma_nonempty_from_sorted,
    nonempty_from, Block,
};
use crate::not::{diff_item, lemma_lookup_at, sparse_and_not, NotAssign, SameWidth};
use std::borrow::Cow;
use crate::ops::Bits;
use crate::varint::field_bits;
use vstd::prelude::*;

verus! {

/// In any window, the clear bits (`rank_0`) and the set bits (`rank_1`) add up to the
/// length of the window.
pub proof fn rank_0_plus_rank_1(s: Seq<bool>, i: int, j: int)
    requires
        0 <= i <= j <= s.len(),
    ensures
        count_zeros(s.subrange(i, j)) + count_ones(s.subrange(i, j)) == j - i,
{
    lemma_count_ones_le_len(s.subrange(i, j));
}

/// An empty window holds no set bit and no clear bit.
pub proof fn rank_of_empty_range(s: Seq<bool>, i: int)
    requires
        0 <= i <= s.len(),
    ensures
        count_ones(s.subrange(i, i)) == 0,
        count_zeros(s.subrange(i, i)) == 0,
{
    assert(s.subrange(i, i).len() == 0);
}

/// Some bit is set (`any`) exactly when the number of set bits (`count_1`) is not zero.
pub proof fn any_iff_count_1_positive(s: Seq<bool>)
    ensures
        has_one(s) <==> count_ones(s) > 0,
{
    lemma_count_ones_pos(s);
}

/// A block with every bit clear, such as the one `Block::empty` builds, has no set bit
/// (`any` is false), no set bit to count (`count_1` is 0), and all of its bits counted as
/// clear (`count_0` is its width).
pub proof fn empty_block_is_clear<B: Block>(b: B)
    requires
        b.bit_seq() == zeros(B::BITS as nat),
    ensures
        !has_one(b.bit_seq()),
        count_ones(b.bit_seq()) == 0,
        count_zeros(b.bit_seq()) == B::BITS,
{
    lemma_count_ones_pos(b.bit_seq());
}

/// The number of trailing clear bits (`count_t0`) is the position of the first set bit
/// (`select_1` of rank 0), and equals the length exactly when no bit is set.
pub proof fn count_t0_is_select_first(s: Seq<bool>, r: int)
    requires
        is_trailing_zeros(s, r),
    ensures
        r < s.len() ==> is_select_one(s, 0, r),
        r == s.len() <==> count_ones(s) == 0,
{
    if r < s.len() {
        assert forall|j: int| 0 <= j < r implies !#[trigger] s.take(r)[j] by {
        }
        lemma_count_ones_pos(s.take(r));
        assert(s[r]);
        lemma_count_ones_pos(s);
        assert(has_one(s));
    } else {
        lemma_count_ones_pos(s);
        if has_one(s) {
            let j = choose|j: int| 0 <= j < s.len() && #[trigger] s[j];
            assert(!s[j]);
        }
    }
}

/// Counting ones before `p` once the first set bit `f` is cleared.
proof fn lemma_count_without_first(s: Seq<bool>, f: int, p: int)
    requires
        0 <= f < s.len(),
        s[f],
        forall|j: int| 0 <= j < f ==> !#[trigger] s[j],
        0 <= p <= s.len(),
    ensures
        count_ones(and_not(s, lowest_one_only(s)).take(p)) + (if f < p {
            1nat
        } else {
            0nat
        }) == count_ones(s.take(p)),
    decreases p,
{
    let t = and_not(s, lowest_one_only(s));
    if p > 0 {
        lemma_count_without_first(s, f, p - 1);
        lemma_count_ones_take(s, p - 1);
        lemma_count_ones_take(t, p - 1);
        let k = p - 1;
        if k == f {
            assert(lowest_one_only(s)[k]);
        } else if k > f {
            assert(!lowest_one_only(s)[k]);
        }
    }
}

/// Clearing the lowest set bit (`x & !x.lsb()`) removes one set bit and shifts the rank
/// of every other set bit down by one: `select_1(c)` of the result is `select_1(c + 1)`
/// of the original. Repeating it and taking `count_t0` enumerates the set bits in order.
pub proof fn clear_lowest_shifts_select(s: Seq<bool>, c: nat, p: int)
    ensures
        is_select_one(and_not(s, lowest_one_only(s)), c as int, p) <==> is_select_one(
            s,
            c + 1int,
            p,
        ),
        has_one(s) ==> count_ones(and_not(s, lowest_one_only(s))) + 1 == count_ones(s),
{
    let t = and_not(s, lowest_one_only(s));
    lemma_count_ones_pos(s);
    if has_one(s) {
        let g = choose|j: int| 0 <= j < s.len() && #[trigger] s[j];
        let f = first_one(s, g);
        lemma_count_without_first(s, f, s.len() as int);
        assert(t.take(s.len() as int) =~= t);
        assert(s.take(s.len() as int) =~= s);
        if 0 <= p < s.len() {
            lemma_count_without_first(s, f, p);
            if p == f {
                assert(lowest_one_only(s)[p]);
                assert(s.take(p).len() == p);
                assert forall|j: int| 0 <= j < p implies !#[trigger] s.take(p)[j] by {
                }
                lemma_count_ones_pos(s.take(p));
            } else if p > f {
                assert(!lowest_one_only(s)[p]);
            }
        }
    } else {
        assert forall|j: int| 0 <= j < s.len() implies !#[trigger] s[j] by {
        }
        assert(t =~= s);
        if 0 <= p < s.len() {
            assert(!s[p]);
        }
    }
}

/// A set bit at or above `g` bounds the first set bit, which exists.
proof fn first_one(s: Seq<bool>, g: int) -> (f: int)
    requires
        0 <= g < s.len(),
        s[g],
    ensures
        0 <= f <= g,
        s[f],
        forall|j: int| 0 <= j < f ==> !#[trigger] s[j],
    decreases g,
{
    if exists|j: int| 0 <= j < g && #[trigger] s[j] {
        let h = choose|j: int| 0 <= j < g && #[trigger] s[j];
        first_one(s, h)
    } else {
        g
    }
}

/// Writing a value into a run of bits (`put_varint`) and reading the run back (`varint`)
/// gives the low bits of the value; the bits outside the run are unchanged.
pub proof fn put_varint_then_varint(s: Seq<bool>, i: int, n: int, w: Seq<bool>, width: nat)
    requires
        0 <= i,
        0 <= n,
        i + n <= s.len(),
        n <= width,
        w.len() == width,
    ensures
        field_bits(written(s, i, n, w), i, n, width) == field_bits(w, 0, n, width),
        forall|k: int|
            0 <= k < s.len() && !(i <= k < i + n) ==> #[trigger] written(s, i, n, w)[k] == s[k],
{
    assert(field_bits(written(s, i, n, w), i, n, width) =~= field_bits(w, 0, n, width));
}

/// Reading all the bits of a value from bit 0 into a value of the same width gives the
/// same bits back.
pub proof fn varint_of_whole_word(s: Seq<bool>)
    ensures
        field_bits(s, 0, s.len() as int, s.len()) == s,
{
    assert(field_bits(s, 0, s.len() as int, s.len()) =~= s);
}

/// The stream difference of two runs of blocks (`a.not(b)`) holds, for each block of `a`
/// that has a bit set and in index order, that block with the bits of the block of `b` at
/// the same index cleared (a block of `b` past its end counts as clear): what the in-place
/// `not_assign` leaves in that block. A block cleared to zero is still in the stream.
pub proof fn not_stream_matches_not_assign<B: Block>(a: Seq<B>, b: Seq<B>)
    requires
        a.len() <= usize::MAX,
        b.len() <= usize::MAX,
    ensures
        sparse_and_not(nonempty_from(a, 0), nonempty_from(b, 0)) == nonempty_from(a, 0).map_values(
            |p: (usize, Seq<bool>)|
                (
                    p.0,
                    if p.0 < b.len() {
                        and_not(p.1, b[p.0 as int].bit_seq())
                    } else {
                        p.1
                    },
                ),
        ),
{
    let na = nonempty_from(a, 0);
    let nb = nonempty_from(b, 0);
    lemma_nonempty_from_items(a, 0);
    lemma_nonempty_from_items(b, 0);
    lemma_nonempty_from_sorted(b, 0);
    let lhs = sparse_and_not(na, nb);
    let rhs = na.map_values(
        |p: (usize, Seq<bool>)|
            (
                p.0,
                if p.0 < b.len() {
                    and_not(p.1, b[p.0 as int].bit_seq())
                } else {
                    p.1
                },
            ),
    );
    assert forall|j: int| 0 <= j < na.len() implies #[trigger] lhs[j] == rhs[j] by {
        let q = na[j];
        let k = q.0 as int;
        B::lemma_block_len(&a[k]);
        if k < b.len() {
            B::lemma_block_len(&b[k]);
        }
        if k < b.len() && has_one(b[k].bit_seq()) {
            lemma_nonempty_from_complete(b, 0, k);
            let i = choose|i: int| 0 <= i < nb.len() && #[trigger] nb[i].0 == k;
            lemma_lookup_at(nb, i);
        } else {
            assert forall|i: int| 0 <= i < nb.len() implies #[trigger] nb[i].0 != q.0 by {
            }
            if k < b.len() {
                assert(and_not(q.1, b[k].bit_seq()) =~= q.1) by {
                    assert forall|m: int| 0 <= m < q.1.len() implies !#[trigger] b[k].bit_seq()[m] by {
                    }
                }
            }
        }
    }
    assert(lhs =~= rhs);
}

/// Subtracting a stream with no blocks leaves every block of the other stream as it is.
pub proof fn not_of_empty_stream(a: Seq<(usize, Seq<bool>)>)
    ensures
        sparse_and_not(a, Seq::empty()) == a,
{
    assert(sparse_and_not(a, Seq::empty()) =~= a);
}

/// A stream with no blocks stays without blocks, whatever is subtracted from it.
pub proof fn empty_stream_not(b: Seq<(usize, Seq<bool>)>)
    ensures
        sparse_and_not(Seq::empty(), b) == Seq::<(usize, Seq<bool>)>::empty(),
{
    assert(sparse_and_not(Seq::empty(), b) =~= Seq::<(usize, Seq<bool>)>::empty());
}

/// In a difference stream of `Cow` blocks, a block changed by a block of the same index of
/// the other stream comes back owned, with the bits of `a & !b`; a block with no such
/// partner comes back as it was (for a slice stream, borrowed from the slice).
pub proof fn changed_cow_block_is_owned<'a, 'b, T: SameWidth<T> + Copy>(a: Cow<'a, T>, b: Cow<'b, T>)
    ensures
        diff_item(a, b) is Owned,
        diff_item(a, b).bit_seq() == and_not(a.bit_seq(), b.bit_seq()),
{
    <Cow<'a, T> as SameWidth<Cow<'b, T>>>::lemma_not_assigned(&a, &b);
    assert(<Cow<'a, T> as NotAssign<Cow<'b, T>>>::not_assigned(&a, &b, &diff_item(a, b)));
}

} // verus!
