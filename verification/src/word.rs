//! Unsigned machine integers as blocks of bits.
use crate::block::Block;
use crate::ops::{Bits, BitsMut};
use crate::varint::field_bits;
use crate::spec::{highest_one_only, is_trailing_zeros, lowest_one_only, or_seq, zeros};
use vstd::prelude::*;
use vstd::std_specs::bits::{
    axiom_u16_leading_zeros, axiom_u16_trailing_zeros, axiom_u32_leading_zeros,
    axiom_u32_trailing_zeros, axiom_u64_leading_zeros, axiom_u64_trailing_zeros,
    axiom_u8_leading_zeros, axiom_u8_trailing_zeros, u16_trailing_zeros, u32_trailing_zeros,
    u64_leading_zeros, u64_trailing_zeros, u8_trailing_zeros,
};

verus! {

/// An integer of a fixed number of bits.
pub trait Word: Block + Copy {
    /// The integer with no bit set.
    const ZERO: Self;

    /// The integer with only bit 0 set.
    const ONE: Self;

    /// The width of a word is between 1 and 64 bits, and the constants hold the bits
    /// their names say.
    proof fn lemma_word()
        ensures
            0 < Self::BITS <= 64,
            Self::ZERO.bit_seq() == zeros(Self::BITS as nat),
            Self::ONE.bit_seq() == zeros(Self::BITS as nat).update(0, true),
    ;

    /// Least significant set bit (right most set bit).
    fn lsb(self) -> (r: Self)
        ensures
            r.bit_seq() == lowest_one_only(self.bit_seq()),
    ;

    /// Most significant set bit (left most set bit).
    fn msb(self) -> (r: Self)
        ensures
            r.bit_seq() == highest_one_only(self.bit_seq()),
    ;

    /// Number of clear bits below the lowest set bit (`BITS` when no bit is set).
    fn count_t0(self) -> (r: usize)
        ensures
            is_trailing_zeros(self.bit_seq(), r as int),
    ;

    /// The word holding the low bits of `x`, when `x` has no set bit at or above `BITS`.
    fn cast_from_u64(x: u64) -> (r: Option<Self>)
        ensures
            r is Some <==> (forall|k: int| Self::BITS <= k < 64 ==> !#[trigger] u64_seq(x)[k]),
            r matches Some(y) ==> y.bit_seq() == u64_seq(x).take(Self::BITS as int),
    ;

    /// The `n` bits from `i`, moved down to the lowest `n` bits; the rest clear.
    fn field(self, i: usize, n: usize) -> (r: Self)
        requires
            i < Self::BITS,
            i + n <= Self::BITS,
        ensures
            r.bit_seq() == field_bits(self.bit_seq(), i as int, n as int, Self::BITS as nat),
    ;

    /// Bitwise or.
    fn bitor(self, other: Self) -> (r: Self)
        ensures
            r.bit_seq() == or_seq(self.bit_seq(), other.bit_seq()),
    ;

    /// Shift towards the most significant bit by `n < BITS` places.
    fn shl(self, n: usize) -> (r: Self)
        requires
            n < Self::BITS,
        ensures
            r.bit_seq() == zeros(n as nat) + self.bit_seq().take(Self::BITS - n),
    ;
}

/// The widths of the machine words, for callers outside this module.
pub proof fn lemma_word_bits()
    ensures
        <u8 as Block>::BITS == 8,
        <u16 as Block>::BITS == 16,
        <u32 as Block>::BITS == 32,
        <u64 as Block>::BITS == 64,
{
}

/// Bit `i` of a `u64`.
pub open spec fn u64_bit(x: u64, i: u64) -> bool {
    (x >> i) & 1u64 == 1u64
}

/// The 64 bits of a `u64`, least significant first.
pub open spec fn u64_seq(x: u64) -> Seq<bool> {
    Seq::new(64, |i: int| u64_bit(x, i as u64))
}

/// Bit `i` of a `u32`.
pub open spec fn u32_bit(x: u32, i: u32) -> bool {
    (x >> i) & 1u32 == 1u32
}

/// The 32 bits of a `u32`, least significant first.
pub open spec fn u32_seq(x: u32) -> Seq<bool> {
    Seq::new(32, |i: int| u32_bit(x, i as u32))
}

/// Bit-level facts about `u32` operations.
pub(crate) proof fn lemma_u32_ops(x: u32, y: u32, k: u32, n: u32)
    by (bit_vector)
    requires
        k < 32,
    ensures
        !((0u32 >> k) & 1u32 == 1u32),
        ((1u32 >> k) & 1u32 == 1u32) == (k == 0),
        (((x | y) >> k) & 1u32 == 1u32) == ((x >> k) & 1u32 == 1u32 || (y >> k) & 1u32 == 1u32),
        (((x & y) >> k) & 1u32 == 1u32) == ((x >> k) & 1u32 == 1u32 && (y >> k) & 1u32 == 1u32),
        (((x & !y) >> k) & 1u32 == 1u32) == ((x >> k) & 1u32 == 1u32 && !((y >> k) & 1u32
            == 1u32)),
        n < 32 ==> ((((1u32 << n) >> k) & 1u32 == 1u32) == (k == n)),
        n < 32 ==> ((((x << n) >> k) & 1u32 == 1u32) == (n <= k && ((x >> ((k - n) as u32)) & 1u32
            == 1u32))),
        ((x >> k) & 1u32 == 0u32) == !((x >> k) & 1u32 == 1u32),
        ((x >> k) & 1u32 != 0u32) == ((x >> k) & 1u32 == 1u32),
{
}

/// The lowest set bit of a non-zero `u32`, as computed by `x & x.wrapping_neg()`.
proof fn lemma_u32_lowest(x: u32, y: u32, t: u32)
    by (bit_vector)
    requires
        x != 0,
        x + y == 0x1_0000_0000,
        t < 32,
        (x >> t) & 1u32 == 1u32,
        x << ((32 - t) as u32) == 0,
    ensures
        x & y == 1u32 << t,
{
}

/// Reading a field of a `u32` and widening it to `u64`.
pub(crate) proof fn lemma_u32_field(x: u32, i: u32, n: u32, k: u64)
    by (bit_vector)
    requires
        i < 32,
        i + n <= 32,
        k < 64,
    ensures
        ((((x >> i) & (if n == 32 { 0xffff_ffffu32 } else { (((1u32 << n) - 1u32) as u32) })) as u64
            >> k) & 1u64 == 1u64) == (k < n as u64 && ((x >> ((i + k) as u32)) & 1u32 == 1u32)),
        n < 32 ==> 1u32 <= (1u32 << n),
        k < 32 ==> (((((x >> i) & (if n == 32 { 0xffff_ffffu32 } else { (((1u32 << n) - 1u32) as u32) })) >> (k as u32))
            & 1u32 == 1u32) == (k < n as u64 && ((x >> ((i + k) as u32)) & 1u32 == 1u32))),
{
}

/// Narrowing a `u64` to a `u32`.
proof fn lemma_u64_to_u32(x: u64, k: u64, lz: u64)
    by (bit_vector)
    requires
        k < 64,
        lz <= 64,
        x >> ((64 - lz) as u64) == 0,
    ensures
        k < 32 && x <= 0xffff_ffff ==> ((((x as u32) >> (k as u32)) & 1u32 == 1u32) == ((x >> k) & 1u64
            == 1u64)),
        32 <= k && x <= 0xffff_ffff ==> (x >> k) & 1u64 == 0u64,
        x > 0xffff_ffff ==> lz < 32,
{
}

/// `num::cast` from `u64` to `u32`: `Some` of the same value when it fits in a `u32`,
/// `None` when it does not.
#[verifier::external_body]
fn cast_u64_to_u32(x: u64) -> (r: Option<u32>)
    ensures
        r == (if x <= u32::MAX {
            Some(x as u32)
        } else {
            None
        }),
{
    num::cast::<u64, u32>(x)
}

impl Bits for u32 {
    open spec fn bit_seq(&self) -> Seq<bool> {
        u32_seq(*self)
    }

    fn bits(&self) -> (r: usize) {
        32
    }

    fn bit(&self, i: usize) -> (r: Option<bool>) {
        if i < 32 {
            Some((*self >> (i as u32)) & 1 == 1)
        } else {
            None
        }
    }
}

impl BitsMut for u32 {
    fn set_bit(&mut self, i: usize) {
        let x = *self;
        *self = x | (1u32 << (i as u32));
        proof {
            assert forall|k: int| 0 <= k < 32 implies #[trigger] self.bit_seq()[k] == old(
                self,
            ).bit_seq().update(i as int, true)[k] by {
                lemma_u32_ops(x, 1u32 << (i as u32), k as u32, i as u32);
            }
            assert(self.bit_seq() =~= old(self).bit_seq().update(i as int, true));
        }
    }

    fn unset_bit(&mut self, i: usize) {
        let x = *self;
        *self = x & !(1u32 << (i as u32));
        proof {
            assert forall|k: int| 0 <= k < 32 implies #[trigger] self.bit_seq()[k] == old(
                self,
            ).bit_seq().update(i as int, false)[k] by {
                lemma_u32_ops(x, 1u32 << (i as u32), k as u32, i as u32);
            }
            assert(self.bit_seq() =~= old(self).bit_seq().update(i as int, false));
        }
    }
}

impl Block for u32 {
    const BITS: usize = 32;

    proof fn lemma_block_len(b: &Self) {
    }

    fn empty() -> (r: Self) {
        proof {
            assert forall|k: int| 0 <= k < 32 implies !#[trigger] u32_seq(0)[k] by {
                lemma_u32_ops(0, 0, k as u32, 0);
            }
            assert(u32_seq(0) =~= zeros(32));
        }
        0
    }
}

impl Word for u32 {
    const ZERO: Self = 0;

    const ONE: Self = 1;

    proof fn lemma_word() {
        assert forall|k: int| 0 <= k < 32 implies #[trigger] u32_seq(0)[k] == zeros(32)[k] by {
            lemma_u32_ops(0, 0, k as u32, 0);
        }
        assert forall|k: int| 0 <= k < 32 implies #[trigger] u32_seq(1)[k] == zeros(32).update(
            0,
            true,
        )[k] by {
            lemma_u32_ops(1, 0, k as u32, 0);
        }
        assert(u32_seq(0) =~= zeros(32));
        assert(u32_seq(1) =~= zeros(32).update(0, true));
    }

    fn lsb(self) -> (r: Self) {
        let x = self;
        let r = x & 0u32.wrapping_sub(x);
        proof {
            let s = x.bit_seq();
            if x == 0 {
                assert forall|k: int| 0 <= k < 32 implies #[trigger] r.bit_seq()[k]
                    == lowest_one_only(s)[k] by {
                    lemma_u32_ops(x, 0u32.wrapping_sub(x), k as u32, 0);
                }
            } else {
                axiom_u32_trailing_zeros(x);
                let t = u32_trailing_zeros(x);
                let y = 0u32.wrapping_sub(x);
                lemma_u32_lowest(x, y, t);
                assert forall|k: int| 0 <= k < 32 implies #[trigger] r.bit_seq()[k]
                    == lowest_one_only(s)[k] by {
                    lemma_u32_ops(x, y, k as u32, t);
                    if k < t {
                        assert((x >> (k as u32)) & 1u32 == 0u32);
                    } else if k > t {
                        lemma_u32_ops(x, y, t, t);
                        assert(s[t as int]);
                    } else {
                        assert forall|j: int| 0 <= j < k implies !#[trigger] s[j] by {
                            lemma_u32_ops(x, y, j as u32, t);
                            assert((x >> (j as u32)) & 1u32 == 0u32);
                        }
                    }
                }
            }
            assert(r.bit_seq() =~= lowest_one_only(s));
        }
        r
    }

    fn msb(self) -> (r: Self) {
        let x = self;
        if x == 0 {
            proof {
                assert forall|k: int| 0 <= k < 32 implies #[trigger] x.bit_seq()[k]
                    == highest_one_only(x.bit_seq())[k] by {
                    lemma_u32_ops(0, 0, k as u32, 0);
                }
                assert(x.bit_seq() =~= highest_one_only(x.bit_seq()));
            }
            0
        } else {
            let max = u32::BITS - 1;
            let lz = x.leading_zeros();
            proof {
                axiom_u32_leading_zeros(x);
            }
            let p = max - lz;
            let r = 1u32 << p;
            proof {
                let s = x.bit_seq();
                lemma_u32_ops(x, 0, p, p);
                assert forall|k: int| 0 <= k < 32 implies #[trigger] r.bit_seq()[k]
                    == highest_one_only(s)[k] by {
                    lemma_u32_ops(x, 0, k as u32, p);
                    if k > p {
                        assert((x >> (k as u32)) & 1u32 == 0u32);
                    } else if k < p {
                        assert(s[p as int]);
                    } else {
                        assert forall|j: int| k < j < 32 implies !#[trigger] s[j] by {
                            lemma_u32_ops(x, 0, j as u32, p);
                            assert((x >> (j as u32)) & 1u32 == 0u32);
                        }
                    }
                }
                assert(r.bit_seq() =~= highest_one_only(s));
            }
            r
        }
    }

    fn count_t0(self) -> (r: usize) {
        let t = self.trailing_zeros();
        proof {
            axiom_u32_trailing_zeros(self);
            let s = self.bit_seq();
            assert forall|j: int| 0 <= j < t implies !#[trigger] s[j] by {
                lemma_u32_ops(self, 0, j as u32, 0);
                assert((self >> (j as u32)) & 1u32 == 0u32);
            }
        }
        t as usize
    }

    fn cast_from_u64(x: u64) -> (r: Option<Self>) {
        let r = cast_u64_to_u32(x);
        proof {
            axiom_u64_leading_zeros(x);
            let lz = u64_leading_zeros(x) as u64;
            if x <= u32::MAX {
                assert forall|k: int| 32 <= k < 64 implies !#[trigger] u64_seq(x)[k] by {
                    lemma_u64_to_u32(x, k as u64, lz);
                }
                assert forall|k: int| 0 <= k < 32 implies #[trigger] u32_seq(x as u32)[k]
                    == u64_seq(x).take(32)[k] by {
                    lemma_u64_to_u32(x, k as u64, lz);
                }
                assert(u32_seq(x as u32) =~= u64_seq(x).take(32));
            } else {
                lemma_u64_to_u32(x, 0, lz);
                let p = (63 - lz) as u64;
                assert((x >> p) & 1u64 == 1u64) by (bit_vector)
                    requires
                        (x >> ((63 - lz) as u64)) & 1u64 != 0u64,
                        p == (63 - lz) as u64,
                ;
                assert(u64_seq(x)[p as int]);
            }
        }
        r
    }

    fn field(self, i: usize, n: usize) -> (r: Self) {
        let x = self;
        proof {
            lemma_u32_field(x, i as u32, n as u32, 0);
        }
        let mask: u32 = if n == 32 {
            u32::MAX
        } else {
            (1u32 << (n as u32)) - 1
        };
        let r = (x >> (i as u32)) & mask;
        proof {
            assert forall|k: int| 0 <= k < 32 implies #[trigger] u32_seq(r)[k] == field_bits(
                u32_seq(x),
                i as int,
                n as int,
                32,
            )[k] by {
                lemma_u32_field(x, i as u32, n as u32, k as u64);
            }
            assert(u32_seq(r) =~= field_bits(u32_seq(x), i as int, n as int, 32));
        }
        r
    }

    fn bitor(self, other: Self) -> (r: Self) {
        let r = self | other;
        proof {
            assert forall|k: int| 0 <= k < 32 implies #[trigger] r.bit_seq()[k] == or_seq(
                self.bit_seq(),
                other.bit_seq(),
            )[k] by {
                lemma_u32_ops(self, other, k as u32, 0);
            }
            assert(r.bit_seq() =~= or_seq(self.bit_seq(), other.bit_seq()));
        }
        r
    }

    fn shl(self, n: usize) -> (r: Self) {
        let r = self << (n as u32);
        proof {
            assert forall|k: int| 0 <= k < 32 implies #[trigger] r.bit_seq()[k] == (zeros(
                n as nat,
            ) + self.bit_seq().take(32 - n))[k] by {
                lemma_u32_ops(self, 0, k as u32, n as u32);
            }
            assert(r.bit_seq() =~= zeros(n as nat) + self.bit_seq().take(32 - n));
        }
        r
    }
}

/// Bit `i` of a `u8`.
pub open spec fn u8_bit(x: u8, i: u8) -> bool {
    (x >> i) & 1u8 == 1u8
}

/// The 8 bits of a `u8`, least significant first.
pub open spec fn u8_seq(x: u8) -> Seq<bool> {
    Seq::new(8, |i: int| u8_bit(x, i as u8))
}

/// Bit-level facts about `u8` operations.
pub(crate) proof fn lemma_u8_ops(x: u8, y: u8, k: u8, n: u8)
    by (bit_vector)
    requires
        k < 8,
    ensures
        !((0u8 >> k) & 1u8 == 1u8),
        ((1u8 >> k) & 1u8 == 1u8) == (k == 0),
        (((x | y) >> k) & 1u8 == 1u8) == ((x >> k) & 1u8 == 1u8 || (y >> k) & 1u8 == 1u8),
        (((x & y) >> k) & 1u8 == 1u8) == ((x >> k) & 1u8 == 1u8 && (y >> k) & 1u8 == 1u8),
        (((x & !y) >> k) & 1u8 == 1u8) == ((x >> k) & 1u8 == 1u8 && !((y >> k) & 1u8
            == 1u8)),
        n < 8 ==> ((((1u8 << n) >> k) & 1u8 == 1u8) == (k == n)),
        n < 8 ==> ((((x << n) >> k) & 1u8 == 1u8) == (n <= k && ((x >> ((k - n) as u8)) & 1u8
            == 1u8))),
        ((x >> k) & 1u8 == 0u8) == !((x >> k) & 1u8 == 1u8),
        ((x >> k) & 1u8 != 0u8) == ((x >> k) & 1u8 == 1u8),
{
}

/// The lowest set bit of a non-zero `u8`, as computed by `x & x.wrapping_neg()`.
proof fn lemma_u8_lowest(x: u8, y: u8, t: u8)
    by (bit_vector)
    requires
        x != 0,
        x + y == 0x100,
        t < 8,
        (x >> t) & 1u8 == 1u8,
        x << ((8 - t) as u8) == 0,
    ensures
        x & y == 1u8 << t,
{
}

/// Reading a field of a `u8` and widening it to `u64`.
pub(crate) proof fn lemma_u8_field(x: u8, i: u8, n: u8, k: u64)
    by (bit_vector)
    requires
        i < 8,
        i + n <= 8,
        k < 64,
    ensures
        ((((x >> i) & (if n == 8 { 0xffu8 } else { (((1u8 << n) - 1u8) as u8) })) as u64
            >> k) & 1u64 == 1u64) == (k < n as u64 && ((x >> ((i + k) as u8)) & 1u8 == 1u8)),
        n < 8 ==> 1u8 <= (1u8 << n),
        k < 8 ==> (((((x >> i) & (if n == 8 { 0xffu8 } else { (((1u8 << n) - 1u8) as u8) })) >> (k as u8))
            & 1u8 == 1u8) == (k < n as u64 && ((x >> ((i + k) as u8)) & 1u8 == 1u8))),
{
}

/// Narrowing a `u64` to a `u8`.
proof fn lemma_u64_to_u8(x: u64, k: u64, lz: u64)
    by (bit_vector)
    requires
        k < 64,
        lz <= 64,
        x >> ((64 - lz) as u64) == 0,
    ensures
        k < 8 && x <= 0xff ==> ((((x as u8) >> (k as u8)) & 1u8 == 1u8) == ((x >> k) & 1u64
            == 1u64)),
        8 <= k && x <= 0xff ==> (x >> k) & 1u64 == 0u64,
        x > 0xff ==> lz < 56,
{
}

/// `num::cast` from `u64` to `u8`: `Some` of the same value when it fits in a `u8`,
/// `None` when it does not.
#[verifier::external_body]
fn cast_u64_to_u8(x: u64) -> (r: Option<u8>)
    ensures
        r == (if x <= u8::MAX {
            Some(x as u8)
        } else {
            None
        }),
{
    num::cast::<u64, u8>(x)
}

impl Bits for u8 {
    open spec fn bit_seq(&self) -> Seq<bool> {
        u8_seq(*self)
    }

    fn bits(&self) -> (r: usize) {
        8
    }

    fn bit(&self, i: usize) -> (r: Option<bool>) {
        if i < 8 {
            Some((*self >> (i as u8)) & 1 == 1)
        } else {
            None
        }
    }
}

impl BitsMut for u8 {
    fn set_bit(&mut self, i: usize) {
        let x = *self;
        *self = x | (1u8 << (i as u8));
        proof {
            assert forall|k: int| 0 <= k < 8 implies #[trigger] self.bit_seq()[k] == old(
                self,
            ).bit_seq().update(i as int, true)[k] by {
                lemma_u8_ops(x, 1u8 << (i as u8), k as u8, i as u8);
            }
            assert(self.bit_seq() =~= old(self).bit_seq().update(i as int, true));
        }
    }

    fn unset_bit(&mut self, i: usize) {
        let x = *self;
        *self = x & !(1u8 << (i as u8));
        proof {
            assert forall|k: int| 0 <= k < 8 implies #[trigger] self.bit_seq()[k] == old(
                self,
            ).bit_seq().update(i as int, false)[k] by {
                lemma_u8_ops(x, 1u8 << (i as u8), k as u8, i as u8);
            }
            assert(self.bit_seq() =~= old(self).bit_seq().update(i as int, false));
        }
    }
}

impl Block for u8 {
    const BITS: usize = 8;

    proof fn lemma_block_len(b: &Self) {
    }

    fn empty() -> (r: Self) {
        proof {
            assert forall|k: int| 0 <= k < 8 implies !#[trigger] u8_seq(0)[k] by {
                lemma_u8_ops(0, 0, k as u8, 0);
            }
            assert(u8_seq(0) =~= zeros(8));
        }
        0
    }
}

impl Word for u8 {
    const ZERO: Self = 0;

    const ONE: Self = 1;

    proof fn lemma_word() {
        assert forall|k: int| 0 <= k < 8 implies #[trigger] u8_seq(0)[k] == zeros(8)[k] by {
            lemma_u8_ops(0, 0, k as u8, 0);
        }
        assert forall|k: int| 0 <= k < 8 implies #[trigger] u8_seq(1)[k] == zeros(8).update(
            0,
            true,
        )[k] by {
            lemma_u8_ops(1, 0, k as u8, 0);
        }
        assert(u8_seq(0) =~= zeros(8));
        assert(u8_seq(1) =~= zeros(8).update(0, true));
    }

    fn lsb(self) -> (r: Self) {
        let x = self;
        let r = x & 0u8.wrapping_sub(x);
        proof {
            let s = x.bit_seq();
            if x == 0 {
                assert forall|k: int| 0 <= k < 8 implies #[trigger] r.bit_seq()[k]
                    == lowest_one_only(s)[k] by {
                    lemma_u8_ops(x, 0u8.wrapping_sub(x), k as u8, 0);
                }
            } else {
                axiom_u8_trailing_zeros(x);
                let t = u8_trailing_zeros(x) as u8;
                let y = 0u8.wrapping_sub(x);
                lemma_u8_lowest(x, y, t);
                assert forall|k: int| 0 <= k < 8 implies #[trigger] r.bit_seq()[k]
                    == lowest_one_only(s)[k] by {
                    lemma_u8_ops(x, y, k as u8, t);
                    if k < t {
                        assert((x >> (k as u8)) & 1u8 == 0u8);
                    } else if k > t {
                        lemma_u8_ops(x, y, t, t);
                        assert(s[t as int]);
                    } else {
                        assert forall|j: int| 0 <= j < k implies !#[trigger] s[j] by {
                            lemma_u8_ops(x, y, j as u8, t);
                            assert((x >> (j as u8)) & 1u8 == 0u8);
                        }
                    }
                }
            }
            assert(r.bit_seq() =~= lowest_one_only(s));
        }
        r
    }

    fn msb(self) -> (r: Self) {
        let x = self;
        if x == 0 {
            proof {
                assert forall|k: int| 0 <= k < 8 implies #[trigger] x.bit_seq()[k]
                    == highest_one_only(x.bit_seq())[k] by {
                    lemma_u8_ops(0, 0, k as u8, 0);
                }
                assert(x.bit_seq() =~= highest_one_only(x.bit_seq()));
            }
            0
        } else {
            let max = u8::BITS - 1;
            let lz = x.leading_zeros();
            proof {
                axiom_u8_leading_zeros(x);
            }
            let p = (max - lz) as u8;
            let r = 1u8 << p;
            proof {
                let s = x.bit_seq();
                lemma_u8_ops(x, 0, p, p);
                assert forall|k: int| 0 <= k < 8 implies #[trigger] r.bit_seq()[k]
                    == highest_one_only(s)[k] by {
                    lemma_u8_ops(x, 0, k as u8, p);
                    if k > p {
                        assert((x >> (k as u8)) & 1u8 == 0u8);
                    } else if k < p {
                        assert(s[p as int]);
                    } else {
                        assert forall|j: int| k < j < 8 implies !#[trigger] s[j] by {
                            lemma_u8_ops(x, 0, j as u8, p);
                            assert((x >> (j as u8)) & 1u8 == 0u8);
                        }
                    }
                }
                assert(r.bit_seq() =~= highest_one_only(s));
            }
            r
        }
    }

    fn count_t0(self) -> (r: usize) {
        let t = self.trailing_zeros();
        proof {
            axiom_u8_trailing_zeros(self);
            let s = self.bit_seq();
            assert forall|j: int| 0 <= j < t implies !#[trigger] s[j] by {
                lemma_u8_ops(self, 0, j as u8, 0);
                assert((self >> (j as u8)) & 1u8 == 0u8);
            }
        }
        t as usize
    }

    fn cast_from_u64(x: u64) -> (r: Option<Self>) {
        let r = cast_u64_to_u8(x);
        proof {
            axiom_u64_leading_zeros(x);
            let lz = u64_leading_zeros(x) as u64;
            if x <= u8::MAX {
                assert forall|k: int| 8 <= k < 64 implies !#[trigger] u64_seq(x)[k] by {
                    lemma_u64_to_u8(x, k as u64, lz);
                }
                assert forall|k: int| 0 <= k < 8 implies #[trigger] u8_seq(x as u8)[k]
                    == u64_seq(x).take(8)[k] by {
                    lemma_u64_to_u8(x, k as u64, lz);
                }
                assert(u8_seq(x as u8) =~= u64_seq(x).take(8));
            } else {
                lemma_u64_to_u8(x, 0, lz);
                let p = (63 - lz) as u64;
                assert((x >> p) & 1u64 == 1u64) by (bit_vector)
                    requires
                        (x >> ((63 - lz) as u64)) & 1u64 != 0u64,
                        p == (63 - lz) as u64,
                ;
                assert(u64_seq(x)[p as int]);
            }
        }
        r
    }

    fn field(self, i: usize, n: usize) -> (r: Self) {
        let x = self;
        proof {
            lemma_u8_field(x, i as u8, n as u8, 0);
        }
        let mask: u8 = if n == 8 {
            u8::MAX
        } else {
            (1u8 << (n as u8)) - 1
        };
        let r = (x >> (i as u8)) & mask;
        proof {
            assert forall|k: int| 0 <= k < 8 implies #[trigger] u8_seq(r)[k] == field_bits(
                u8_seq(x),
                i as int,
                n as int,
                8,
            )[k] by {
                lemma_u8_field(x, i as u8, n as u8, k as u64);
            }
            assert(u8_seq(r) =~= field_bits(u8_seq(x), i as int, n as int, 8));
        }
        r
    }

    fn bitor(self, other: Self) -> (r: Self) {
        let r = self | other;
        proof {
            assert forall|k: int| 0 <= k < 8 implies #[trigger] r.bit_seq()[k] == or_seq(
                self.bit_seq(),
                other.bit_seq(),
            )[k] by {
                lemma_u8_ops(self, other, k as u8, 0);
            }
            assert(r.bit_seq() =~= or_seq(self.bit_seq(), other.bit_seq()));
        }
        r
    }

    fn shl(self, n: usize) -> (r: Self) {
        let r = self << (n as u8);
        proof {
            assert forall|k: int| 0 <= k < 8 implies #[trigger] r.bit_seq()[k] == (zeros(
                n as nat,
            ) + self.bit_seq().take(8 - n))[k] by {
                lemma_u8_ops(self, 0, k as u8, n as u8);
            }
            assert(r.bit_seq() =~= zeros(n as nat) + self.bit_seq().take(8 - n));
        }
        r
    }
}


/// Bit `i` of a `u16`.
pub open spec fn u16_bit(x: u16, i: u16) -> bool {
    (x >> i) & 1u16 == 1u16
}

/// The 16 bits of a `u16`, least significant first.
pub open spec fn u16_seq(x: u16) -> Seq<bool> {
    Seq::new(16, |i: int| u16_bit(x, i as u16))
}

/// Bit-level facts about `u16` operations.
pub(crate) proof fn lemma_u16_ops(x: u16, y: u16, k: u16, n: u16)
    by (bit_vector)
    requires
        k < 16,
    ensures
        !((0u16 >> k) & 1u16 == 1u16),
        ((1u16 >> k) & 1u16 == 1u16) == (k == 0),
        (((x | y) >> k) & 1u16 == 1u16) == ((x >> k) & 1u16 == 1u16 || (y >> k) & 1u16 == 1u16),
        (((x & y) >> k) & 1u16 == 1u16) == ((x >> k) & 1u16 == 1u16 && (y >> k) & 1u16 == 1u16),
        (((x & !y) >> k) & 1u16 == 1u16) == ((x >> k) & 1u16 == 1u16 && !((y >> k) & 1u16
            == 1u16)),
        n < 16 ==> ((((1u16 << n) >> k) & 1u16 == 1u16) == (k == n)),
        n < 16 ==> ((((x << n) >> k) & 1u16 == 1u16) == (n <= k && ((x >> ((k - n) as u16)) & 1u16
            == 1u16))),
        ((x >> k) & 1u16 == 0u16) == !((x >> k) & 1u16 == 1u16),
        ((x >> k) & 1u16 != 0u16) == ((x >> k) & 1u16 == 1u16),
{
}

/// The lowest set bit of a non-zero `u16`, as computed by `x & x.wrapping_neg()`.
proof fn lemma_u16_lowest(x: u16, y: u16, t: u16)
    by (bit_vector)
    requires
        x != 0,
        x + y == 0x1_0000,
        t < 16,
        (x >> t) & 1u16 == 1u16,
        x << ((16 - t) as u16) == 0,
    ensures
        x & y == 1u16 << t,
{
}

/// Reading a field of a `u16` and widening it to `u64`.
pub(crate) proof fn lemma_u16_field(x: u16, i: u16, n: u16, k: u64)
    by (bit_vector)
    requires
        i < 16,
        i + n <= 16,
        k < 64,
    ensures
        ((((x >> i) & (if n == 16 { 0xffffu16 } else { (((1u16 << n) - 1u16) as u16) })) as u64
            >> k) & 1u64 == 1u64) == (k < n as u64 && ((x >> ((i + k) as u16)) & 1u16 == 1u16)),
        n < 16 ==> 1u16 <= (1u16 << n),
        k < 16 ==> (((((x >> i) & (if n == 16 { 0xffffu16 } else { (((1u16 << n) - 1u16) as u16) })) >> (k as u16))
            & 1u16 == 1u16) == (k < n as u64 && ((x >> ((i + k) as u16)) & 1u16 == 1u16))),
{
}

/// Narrowing a `u64` to a `u16`.
proof fn lemma_u64_to_u16(x: u64, k: u64, lz: u64)
    by (bit_vector)
    requires
        k < 64,
        lz <= 64,
        x >> ((64 - lz) as u64) == 0,
    ensures
        k < 16 && x <= 0xffff ==> ((((x as u16) >> (k as u16)) & 1u16 == 1u16) == ((x >> k) & 1u64
            == 1u64)),
        16 <= k && x <= 0xffff ==> (x >> k) & 1u64 == 0u64,
        x > 0xffff ==> lz < 48,
{
}

/// `num::cast` from `u64` to `u16`: `Some` of the same value when it fits in a `u16`,
/// `None` when it does not.
#[verifier::external_body]
fn cast_u64_to_u16(x: u64) -> (r: Option<u16>)
    ensures
        r == (if x <= u16::MAX {
            Some(x as u16)
        } else {
            None
        }),
{
    num::cast::<u64, u16>(x)
}

impl Bits for u16 {
    open spec fn bit_seq(&self) -> Seq<bool> {
        u16_seq(*self)
    }

    fn bits(&self) -> (r: usize) {
        16
    }

    fn bit(&self, i: usize) -> (r: Option<bool>) {
        if i < 16 {
            Some((*self >> (i as u16)) & 1 == 1)
        } else {
            None
        }
    }
}

impl BitsMut for u16 {
    fn set_bit(&mut self, i: usize) {
        let x = *self;
        *self = x | (1u16 << (i as u16));
        proof {
            assert forall|k: int| 0 <= k < 16 implies #[trigger] self.bit_seq()[k] == old(
                self,
            ).bit_seq().update(i as int, true)[k] by {
                lemma_u16_ops(x, 1u16 << (i as u16), k as u16, i as u16);
            }
            assert(self.bit_seq() =~= old(self).bit_seq().update(i as int, true));
        }
    }

    fn unset_bit(&mut self, i: usize) {
        let x = *self;
        *self = x & !(1u16 << (i as u16));
        proof {
            assert forall|k: int| 0 <= k < 16 implies #[trigger] self.bit_seq()[k] == old(
                self,
            ).bit_seq().update(i as int, false)[k] by {
                lemma_u16_ops(x, 1u16 << (i as u16), k as u16, i as u16);
            }
            assert(self.bit_seq() =~= old(self).bit_seq().update(i as int, false));
        }
    }
}

impl Block for u16 {
    const BITS: usize = 16;

    proof fn lemma_block_len(b: &Self) {
    }

    fn empty() -> (r: Self) {
        proof {
            assert forall|k: int| 0 <= k < 16 implies !#[trigger] u16_seq(0)[k] by {
                lemma_u16_ops(0, 0, k as u16, 0);
            }
            assert(u16_seq(0) =~= zeros(16));
        }
        0
    }
}

impl Word for u16 {
    const ZERO: Self = 0;

    const ONE: Self = 1;

    proof fn lemma_word() {
        assert forall|k: int| 0 <= k < 16 implies #[trigger] u16_seq(0)[k] == zeros(16)[k] by {
            lemma_u16_ops(0, 0, k as u16, 0);
        }
        assert forall|k: int| 0 <= k < 16 implies #[trigger] u16_seq(1)[k] == zeros(16).update(
            0,
            true,
        )[k] by {
            lemma_u16_ops(1, 0, k as u16, 0);
        }
        assert(u16_seq(0) =~= zeros(16));
        assert(u16_seq(1) =~= zeros(16).update(0, true));
    }

    fn lsb(self) -> (r: Self) {
        let x = self;
        let r = x & 0u16.wrapping_sub(x);
        proof {
            let s = x.bit_seq();
            if x == 0 {
                assert forall|k: int| 0 <= k < 16 implies #[trigger] r.bit_seq()[k]
                    == lowest_one_only(s)[k] by {
                    lemma_u16_ops(x, 0u16.wrapping_sub(x), k as u16, 0);
                }
            } else {
                axiom_u16_trailing_zeros(x);
                let t = u16_trailing_zeros(x) as u16;
                let y = 0u16.wrapping_sub(x);
                lemma_u16_lowest(x, y, t);
                assert forall|k: int| 0 <= k < 16 implies #[trigger] r.bit_seq()[k]
                    == lowest_one_only(s)[k] by {
                    lemma_u16_ops(x, y, k as u16, t);
                    if k < t {
                        assert((x >> (k as u16)) & 1u16 == 0u16);
                    } else if k > t {
                        lemma_u16_ops(x, y, t, t);
                        assert(s[t as int]);
                    } else {
                        assert forall|j: int| 0 <= j < k implies !#[trigger] s[j] by {
                            lemma_u16_ops(x, y, j as u16, t);
                            assert((x >> (j as u16)) & 1u16 == 0u16);
                        }
                    }
                }
            }
            assert(r.bit_seq() =~= lowest_one_only(s));
        }
        r
    }

    fn msb(self) -> (r: Self) {
        let x = self;
        if x == 0 {
            proof {
                assert forall|k: int| 0 <= k < 16 implies #[trigger] x.bit_seq()[k]
                    == highest_one_only(x.bit_seq())[k] by {
                    lemma_u16_ops(0, 0, k as u16, 0);
                }
                assert(x.bit_seq() =~= highest_one_only(x.bit_seq()));
            }
            0
        } else {
            let max = u16::BITS - 1;
            let lz = x.leading_zeros();
            proof {
                axiom_u16_leading_zeros(x);
            }
            let p = (max - lz) as u16;
            let r = 1u16 << p;
            proof {
                let s = x.bit_seq();
                lemma_u16_ops(x, 0, p, p);
                assert forall|k: int| 0 <= k < 16 implies #[trigger] r.bit_seq()[k]
                    == highest_one_only(s)[k] by {
                    lemma_u16_ops(x, 0, k as u16, p);
                    if k > p {
                        assert((x >> (k as u16)) & 1u16 == 0u16);
                    } else if k < p {
                        assert(s[p as int]);
                    } else {
                        assert forall|j: int| k < j < 16 implies !#[trigger] s[j] by {
                            lemma_u16_ops(x, 0, j as u16, p);
                            assert((x >> (j as u16)) & 1u16 == 0u16);
                        }
                    }
                }
                assert(r.bit_seq() =~= highest_one_only(s));
            }
            r
        }
    }

    fn count_t0(self) -> (r: usize) {
        let t = self.trailing_zeros();
        proof {
            axiom_u16_trailing_zeros(self);
            let s = self.bit_seq();
            assert forall|j: int| 0 <= j < t implies !#[trigger] s[j] by {
                lemma_u16_ops(self, 0, j as u16, 0);
                assert((self >> (j as u16)) & 1u16 == 0u16);
            }
        }
        t as usize
    }

    fn cast_from_u64(x: u64) -> (r: Option<Self>) {
        let r = cast_u64_to_u16(x);
        proof {
            axiom_u64_leading_zeros(x);
            let lz = u64_leading_zeros(x) as u64;
            if x <= u16::MAX {
                assert forall|k: int| 16 <= k < 64 implies !#[trigger] u64_seq(x)[k] by {
                    lemma_u64_to_u16(x, k as u64, lz);
                }
                assert forall|k: int| 0 <= k < 16 implies #[trigger] u16_seq(x as u16)[k]
                    == u64_seq(x).take(16)[k] by {
                    lemma_u64_to_u16(x, k as u64, lz);
                }
                assert(u16_seq(x as u16) =~= u64_seq(x).take(16));
            } else {
                lemma_u64_to_u16(x, 0, lz);
                let p = (63 - lz) as u64;
                assert((x >> p) & 1u64 == 1u64) by (bit_vector)
                    requires
                        (x >> ((63 - lz) as u64)) & 1u64 != 0u64,
                        p == (63 - lz) as u64,
                ;
                assert(u64_seq(x)[p as int]);
            }
        }
        r
    }

    fn field(self, i: usize, n: usize) -> (r: Self) {
        let x = self;
        proof {
            lemma_u16_field(x, i as u16, n as u16, 0);
        }
        let mask: u16 = if n == 16 {
            u16::MAX
        } else {
            (1u16 << (n as u16)) - 1
        };
        let r = (x >> (i as u16)) & mask;
        proof {
            assert forall|k: int| 0 <= k < 16 implies #[trigger] u16_seq(r)[k] == field_bits(
                u16_seq(x),
                i as int,
                n as int,
                16,
            )[k] by {
                lemma_u16_field(x, i as u16, n as u16, k as u64);
            }
            assert(u16_seq(r) =~= field_bits(u16_seq(x), i as int, n as int, 16));
        }
        r
    }

    fn bitor(self, other: Self) -> (r: Self) {
        let r = self | other;
        proof {
            assert forall|k: int| 0 <= k < 16 implies #[trigger] r.bit_seq()[k] == or_seq(
                self.bit_seq(),
                other.bit_seq(),
            )[k] by {
                lemma_u16_ops(self, other, k as u16, 0);
            }
            assert(r.bit_seq() =~= or_seq(self.bit_seq(), other.bit_seq()));
        }
        r
    }

    fn shl(self, n: usize) -> (r: Self) {
        let r = self << (n as u16);
        proof {
            assert forall|k: int| 0 <= k < 16 implies #[trigger] r.bit_seq()[k] == (zeros(
                n as nat,
            ) + self.bit_seq().take(16 - n))[k] by {
                lemma_u16_ops(self, 0, k as u16, n as u16);
            }
            assert(r.bit_seq() =~= zeros(n as nat) + self.bit_seq().take(16 - n));
        }
        r
    }
}


/// Bit-level facts about `u64` operations.
pub(crate) proof fn lemma_u64_ops(x: u64, y: u64, k: u64, n: u64)
    by (bit_vector)
    requires
        k < 64,
    ensures
        !((0u64 >> k) & 1u64 == 1u64),
        ((1u64 >> k) & 1u64 == 1u64) == (k == 0),
        (((x | y) >> k) & 1u64 == 1u64) == ((x >> k) & 1u64 == 1u64 || (y >> k) & 1u64 == 1u64),
        (((x & y) >> k) & 1u64 == 1u64) == ((x >> k) & 1u64 == 1u64 && (y >> k) & 1u64 == 1u64),
        (((x & !y) >> k) & 1u64 == 1u64) == ((x >> k) & 1u64 == 1u64 && !((y >> k) & 1u64
            == 1u64)),
        n < 64 ==> ((((1u64 << n) >> k) & 1u64 == 1u64) == (k == n)),
        n < 64 ==> ((((x << n) >> k) & 1u64 == 1u64) == (n <= k && ((x >> ((k - n) as u64)) & 1u64
            == 1u64))),
        ((x >> k) & 1u64 == 0u64) == !((x >> k) & 1u64 == 1u64),
        ((x >> k) & 1u64 != 0u64) == ((x >> k) & 1u64 == 1u64),
{
}

/// The lowest set bit of a non-zero `u64`, as computed by `x & x.wrapping_neg()`.
proof fn lemma_u64_lowest(x: u64, y: u64, t: u64)
    by (bit_vector)
    requires
        x != 0,
        x + y == 0x1_0000_0000_0000_0000,
        t < 64,
        (x >> t) & 1u64 == 1u64,
        x << ((64 - t) as u64) == 0,
    ensures
        x & y == 1u64 << t,
{
}

/// Reading a field of a `u64` and widening it to `u64`.
pub(crate) proof fn lemma_u64_field(x: u64, i: u64, n: u64, k: u64)
    by (bit_vector)
    requires
        i < 64,
        i + n <= 64,
        k < 64,
    ensures
        ((((x >> i) & (if n == 64 { 0xffff_ffff_ffff_ffffu64 } else { (((1u64 << n) - 1u64) as u64) })) as u64
            >> k) & 1u64 == 1u64) == (k < n as u64 && ((x >> ((i + k) as u64)) & 1u64 == 1u64)),
        n < 64 ==> 1u64 <= (1u64 << n),
        k < 64 ==> (((((x >> i) & (if n == 64 { 0xffff_ffff_ffff_ffffu64 } else { (((1u64 << n) - 1u64) as u64) })) >> (k as u64))
            & 1u64 == 1u64) == (k < n as u64 && ((x >> ((i + k) as u64)) & 1u64 == 1u64))),
{
}

/// `num::cast` from `u64` to `u64`: always `Some` of the same value.
#[verifier::external_body]
fn cast_u64_to_u64(x: u64) -> (r: Option<u64>)
    ensures
        r == Some(x),
{
    num::cast::<u64, u64>(x)
}

impl Bits for u64 {
    open spec fn bit_seq(&self) -> Seq<bool> {
        u64_seq(*self)
    }

    fn bits(&self) -> (r: usize) {
        64
    }

    fn bit(&self, i: usize) -> (r: Option<bool>) {
        if i < 64 {
            Some((*self >> (i as u64)) & 1 == 1)
        } else {
            None
        }
    }
}

impl BitsMut for u64 {
    fn set_bit(&mut self, i: usize) {
        let x = *self;
        *self = x | (1u64 << (i as u64));
        proof {
            assert forall|k: int| 0 <= k < 64 implies #[trigger] self.bit_seq()[k] == old(
                self,
            ).bit_seq().update(i as int, true)[k] by {
                lemma_u64_ops(x, 1u64 << (i as u64), k as u64, i as u64);
            }
            assert(self.bit_seq() =~= old(self).bit_seq().update(i as int, true));
        }
    }

    fn unset_bit(&mut self, i: usize) {
        let x = *self;
        *self = x & !(1u64 << (i as u64));
        proof {
            assert forall|k: int| 0 <= k < 64 implies #[trigger] self.bit_seq()[k] == old(
                self,
            ).bit_seq().update(i as int, false)[k] by {
                lemma_u64_ops(x, 1u64 << (i as u64), k as u64, i as u64);
            }
            assert(self.bit_seq() =~= old(self).bit_seq().update(i as int, false));
        }
    }
}

impl Block for u64 {
    const BITS: usize = 64;

    proof fn lemma_block_len(b: &Self) {
    }

    fn empty() -> (r: Self) {
        proof {
            assert forall|k: int| 0 <= k < 64 implies !#[trigger] u64_seq(0)[k] by {
                lemma_u64_ops(0, 0, k as u64, 0);
            }
            assert(u64_seq(0) =~= zeros(64));
        }
        0
    }
}

impl Word for u64 {
    const ZERO: Self = 0;

    const ONE: Self = 1;

    proof fn lemma_word() {
        assert forall|k: int| 0 <= k < 64 implies #[trigger] u64_seq(0)[k] == zeros(64)[k] by {
            lemma_u64_ops(0, 0, k as u64, 0);
        }
        assert forall|k: int| 0 <= k < 64 implies #[trigger] u64_seq(1)[k] == zeros(64).update(
            0,
            true,
        )[k] by {
            lemma_u64_ops(1, 0, k as u64, 0);
        }
        assert(u64_seq(0) =~= zeros(64));
        assert(u64_seq(1) =~= zeros(64).update(0, true));
    }

    fn lsb(self) -> (r: Self) {
        let x = self;
        let r = x & 0u64.wrapping_sub(x);
        proof {
            let s = x.bit_seq();
            if x == 0 {
                assert forall|k: int| 0 <= k < 64 implies #[trigger] r.bit_seq()[k]
                    == lowest_one_only(s)[k] by {
                    lemma_u64_ops(x, 0u64.wrapping_sub(x), k as u64, 0);
                }
            } else {
                axiom_u64_trailing_zeros(x);
                let t = u64_trailing_zeros(x) as u64;
                let y = 0u64.wrapping_sub(x);
                lemma_u64_lowest(x, y, t);
                assert forall|k: int| 0 <= k < 64 implies #[trigger] r.bit_seq()[k]
                    == lowest_one_only(s)[k] by {
                    lemma_u64_ops(x, y, k as u64, t);
                    if k < t {
                        assert((x >> (k as u64)) & 1u64 == 0u64);
                    } else if k > t {
                        lemma_u64_ops(x, y, t, t);
                        assert(s[t as int]);
                    } else {
                        assert forall|j: int| 0 <= j < k implies !#[trigger] s[j] by {
                            lemma_u64_ops(x, y, j as u64, t);
                            assert((x >> (j as u64)) & 1u64 == 0u64);
                        }
                    }
                }
            }
            assert(r.bit_seq() =~= lowest_one_only(s));
        }
        r
    }

    fn msb(self) -> (r: Self) {
        let x = self;
        if x == 0 {
            proof {
                assert forall|k: int| 0 <= k < 64 implies #[trigger] x.bit_seq()[k]
                    == highest_one_only(x.bit_seq())[k] by {
                    lemma_u64_ops(0, 0, k as u64, 0);
                }
                assert(x.bit_seq() =~= highest_one_only(x.bit_seq()));
            }
            0
        } else {
            let max = u64::BITS - 1;
            let lz = x.leading_zeros();
            proof {
                axiom_u64_leading_zeros(x);
            }
            let p = (max - lz) as u64;
            let r = 1u64 << p;
            proof {
                let s = x.bit_seq();
                lemma_u64_ops(x, 0, p, p);
                assert forall|k: int| 0 <= k < 64 implies #[trigger] r.bit_seq()[k]
                    == highest_one_only(s)[k] by {
                    lemma_u64_ops(x, 0, k as u64, p);
                    if k > p {
                        assert((x >> (k as u64)) & 1u64 == 0u64);
                    } else if k < p {
                        assert(s[p as int]);
                    } else {
                        assert forall|j: int| k < j < 64 implies !#[trigger] s[j] by {
                            lemma_u64_ops(x, 0, j as u64, p);
                            assert((x >> (j as u64)) & 1u64 == 0u64);
                        }
                    }
                }
                assert(r.bit_seq() =~= highest_one_only(s));
            }
            r
        }
    }

    fn count_t0(self) -> (r: usize) {
        let t = self.trailing_zeros();
        proof {
            axiom_u64_trailing_zeros(self);
            let s = self.bit_seq();
            assert forall|j: int| 0 <= j < t implies !#[trigger] s[j] by {
                lemma_u64_ops(self, 0, j as u64, 0);
                assert((self >> (j as u64)) & 1u64 == 0u64);
            }
        }
        t as usize
    }

    fn cast_from_u64(x: u64) -> (r: Option<Self>) {
        let r = cast_u64_to_u64(x);
        assert(u64_seq(x) =~= u64_seq(x).take(64));
        r
    }

    fn field(self, i: usize, n: usize) -> (r: Self) {
        let x = self;
        proof {
            lemma_u64_field(x, i as u64, n as u64, 0);
        }
        let mask: u64 = if n == 64 {
            u64::MAX
        } else {
            (1u64 << (n as u64)) - 1
        };
        let r = (x >> (i as u64)) & mask;
        proof {
            assert forall|k: int| 0 <= k < 64 implies #[trigger] u64_seq(r)[k] == field_bits(
                u64_seq(x),
                i as int,
                n as int,
                64,
            )[k] by {
                lemma_u64_field(x, i as u64, n as u64, k as u64);
            }
            assert(u64_seq(r) =~= field_bits(u64_seq(x), i as int, n as int, 64));
        }
        r
    }

    fn bitor(self, other: Self) -> (r: Self) {
        let r = self | other;
        proof {
            assert forall|k: int| 0 <= k < 64 implies #[trigger] r.bit_seq()[k] == or_seq(
                self.bit_seq(),
                other.bit_seq(),
            )[k] by {
                lemma_u64_ops(self, other, k as u64, 0);
            }
            assert(r.bit_seq() =~= or_seq(self.bit_seq(), other.bit_seq()));
        }
        r
    }

    fn shl(self, n: usize) -> (r: Self) {
        let r = self << (n as u64);
        proof {
            assert forall|k: int| 0 <= k < 64 implies #[trigger] r.bit_seq()[k] == (zeros(
                n as nat,
            ) + self.bit_seq().take(64 - n))[k] by {
                lemma_u64_ops(self, 0, k as u64, n as u64);
            }
            assert(r.bit_seq() =~= zeros(n as nat) + self.bit_seq().take(64 - n));
        }
        r
    }
}


} // verus!
