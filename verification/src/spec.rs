//! Mathematical models shared by the whole library.
//!
//! Every bit container is modelled as a `Seq<bool>`, lowest index first.
use vstd::prelude::*;

verus! {

/// Number of `true` entries of a bit sequence.
pub open spec fn count_ones(s: Seq<bool>) -> nat
    decreases s.len(),
{
    if s.len() == 0 {
        0
    } else {
        count_ones(s.drop_last()) + if s.last() {
            1nat
        } else {
            0nat
        }
    }
}

/// Number of `false` entries of a bit sequence.
pub open spec fn count_zeros(s: Seq<bool>) -> nat {
    (s.len() - count_ones(s)) as nat
}

/// `true` when some entry of `s` is `true`.
pub open spec fn has_one(s: Seq<bool>) -> bool {
    exists|i: int| 0 <= i < s.len() && #[trigger] s[i]
}

/// Pointwise `a & !b`; the result has the length of `a`.
pub open spec fn and_not(a: Seq<bool>, b: Seq<bool>) -> Seq<bool> {
    Seq::new(a.len(), |i: int| a[i] && !b[i])
}

/// Pointwise `a | b`.
pub open spec fn or_seq(a: Seq<bool>, b: Seq<bool>) -> Seq<bool> {
    Seq::new(a.len(), |i: int| a[i] || b[i])
}

/// `n` bits, all `false`.
pub open spec fn zeros(n: nat) -> Seq<bool> {
    Seq::new(n, |i: int| false)
}

/// `s` with the bits `[i, i + n)` replaced by the low `n` bits of `src`: bit `k` of the
/// run becomes bit `k - i` of `src`, every other bit stays as in `s`.
pub open spec fn written(s: Seq<bool>, i: int, n: int, src: Seq<bool>) -> Seq<bool> {
    Seq::new(s.len(), |k: int| if i <= k < i + n { src[k - i] } else { s[k] })
}

/// `s` with every `true` entry cleared except the one of lowest index.
pub open spec fn lowest_one_only(s: Seq<bool>) -> Seq<bool> {
    Seq::new(s.len(), |i: int| s[i] && forall|j: int| 0 <= j < i ==> !#[trigger] s[j])
}

/// `s` with every `true` entry cleared except the one of highest index.
pub open spec fn highest_one_only(s: Seq<bool>) -> Seq<bool> {
    Seq::new(s.len(), |i: int| s[i] && forall|j: int| i < j < s.len() ==> !#[trigger] s[j])
}

/// `r` is the number of `false` entries before the first `true` one (the length when
/// there is none).
pub open spec fn is_trailing_zeros(s: Seq<bool>, r: int) -> bool {
    &&& 0 <= r <= s.len()
    &&& forall|j: int| 0 <= j < r ==> !#[trigger] s[j]
    &&& r < s.len() ==> s[r]
}

/// `p` is the position of the one of rank `c` (counting from 0).
pub open spec fn is_select_one(s: Seq<bool>, c: int, p: int) -> bool {
    &&& 0 <= p < s.len()
    &&& s[p]
    &&& count_ones(s.take(p)) == c
}

/// Blocks of `w` bits each, laid one after another: bit `i` is bit `i % w` of block `i / w`.
pub open spec fn flatten(blocks: Seq<Seq<bool>>, w: nat) -> Seq<bool> {
    Seq::new(blocks.len() * w, |i: int| blocks[i / (w as int)][i % (w as int)])
}

/// Extending a prefix by one entry adds that entry to the count.
pub proof fn lemma_count_ones_take(s: Seq<bool>, i: int)
    requires
        0 <= i < s.len(),
    ensures
        count_ones(s.take(i + 1)) == count_ones(s.take(i)) + if s[i] {
            1nat
        } else {
            0nat
        },
{
    assert(s.take(i + 1).drop_last() =~= s.take(i));
}

/// Extending a window by one entry adds that entry to the count.
pub proof fn lemma_count_ones_subrange(s: Seq<bool>, a: int, b: int)
    requires
        0 <= a <= b < s.len(),
    ensures
        count_ones(s.subrange(a, b + 1)) == count_ones(s.subrange(a, b)) + if s[b] {
            1nat
        } else {
            0nat
        },
{
    assert(s.subrange(a, b + 1).drop_last() =~= s.subrange(a, b));
}

/// A sequence holds at most as many ones as it has entries.
pub proof fn lemma_count_ones_le_len(s: Seq<bool>)
    ensures
        count_ones(s) <= s.len(),
    decreases s.len(),
{
    if s.len() > 0 {
        lemma_count_ones_le_len(s.drop_last());
    }
}

/// The count of ones is zero exactly when no entry is `true`.
pub proof fn lemma_count_ones_pos(s: Seq<bool>)
    ensures
        count_ones(s) > 0 <==> has_one(s),
    decreases s.len(),
{
    if s.len() > 0 {
        lemma_count_ones_pos(s.drop_last());
        if has_one(s.drop_last()) {
            let i = choose|i: int| 0 <= i < s.drop_last().len() && #[trigger] s.drop_last()[i];
            assert(s[i]);
        }
        if has_one(s) && !s.last() {
            let i = choose|i: int| 0 <= i < s.len() && #[trigger] s[i];
            assert(s.drop_last()[i]);
        }
    }
}

/// Index arithmetic of `flatten`: where bit `i` lies.
pub proof fn lemma_flat_index(n: nat, w: nat, i: int)
    requires
        0 <= i < n * w,
    ensures
        w > 0,
        0 <= i / (w as int) < n,
        0 <= i % (w as int) < w,
        i == (i / (w as int)) * (w as int) + i % (w as int),
{
    assert(w > 0) by (nonlinear_arith)
        requires
            0 <= i < n * w,
    ;
    let q = i / (w as int);
    let r = i % (w as int);
    assert(0 <= q < n && 0 <= r < w && i == q * w + r) by (nonlinear_arith)
        requires
            0 <= i < n * w,
            w > 0,
            q == i / (w as int),
            r == i % (w as int),
    ;
}

/// Index arithmetic of `flatten`: bit `j` of block `k`.
pub proof fn lemma_flat_pos(n: nat, w: nat, k: int, j: int)
    requires
        0 <= k < n,
        0 <= j < w,
    ensures
        0 <= k * w + j < n * w,
        (k * w + j) / (w as int) == k,
        (k * w + j) % (w as int) == j,
{
    assert(0 <= k * w + j < n * w) by (nonlinear_arith)
        requires
            0 <= k < n,
            0 <= j < w,
    ;
    vstd::arithmetic::div_mod::lemma_fundamental_div_mod_converse(k * w + j, w as int, k, j);
}

} // verus!
