//! Signed machine integers as blocks of bits, read through their two's complement bits.
use crate::block::Block;
use crate::ops::{Bits, BitsMut};
use crate::spec::zeros;
use crate::varint::{PutVarint, Varint};
use crate::wide::{lemma_u128_ops, lemma_usize_ops, u128_seq, usize_seq};
use crate::word::{
    lemma_u16_ops, lemma_u32_ops, lemma_u64_ops, lemma_u8_ops, u16_seq, u32_seq, u64_seq, u8_seq,
    Word,
};
use vstd::prelude::*;

verus! {

/// Converting a `u8` to `i8` and back gives the same bits.
proof fn lemma_i8_round_trip(x: u8)
    by (bit_vector)
    ensures
        ((x as i8) as u8) == x,
{
}

impl Bits for i8 {
    open spec fn bit_seq(&self) -> Seq<bool> {
        u8_seq(*self as u8)
    }

    fn bits(&self) -> (r: usize) {
        8
    }

    fn bit(&self, i: usize) -> (r: Option<bool>) {
        (*self as u8).bit(i)
    }
}

impl BitsMut for i8 {
    fn set_bit(&mut self, i: usize) {
        let mut x = *self as u8;
        x.set_bit(i);
        proof {
            lemma_i8_round_trip(x);
        }
        *self = x as i8;
    }

    fn unset_bit(&mut self, i: usize) {
        let mut x = *self as u8;
        x.unset_bit(i);
        proof {
            lemma_i8_round_trip(x);
        }
        *self = x as i8;
    }
}

impl Block for i8 {
    const BITS: usize = 8;

    proof fn lemma_block_len(b: &Self) {
    }

    fn empty() -> (r: Self) {
        let r: i8 = 0;
        proof {
            let z: u8 = 0;
            assert forall|k: int| 0 <= k < 8 implies !#[trigger] u8_seq(z)[k] by {
                lemma_u8_ops(z, z, k as u8, 0);
            }
            assert(u8_seq(r as u8) =~= zeros(8));
        }
        r
    }
}

impl Varint for i8 {
    fn varint<T: Word>(&self, i: usize, n: usize) -> (r: T) {
        (*self as u8).varint::<T>(i, n)
    }
}

impl PutVarint for i8 {

}

/// Converting a `u16` to `i16` and back gives the same bits.
proof fn lemma_i16_round_trip(x: u16)
    by (bit_vector)
    ensures
        ((x as i16) as u16) == x,
{
}

impl Bits for i16 {
    open spec fn bit_seq(&self) -> Seq<bool> {
        u16_seq(*self as u16)
    }

    fn bits(&self) -> (r: usize) {
        16
    }

    fn bit(&self, i: usize) -> (r: Option<bool>) {
        (*self as u16).bit(i)
    }
}

impl BitsMut for i16 {
    fn set_bit(&mut self, i: usize) {
        let mut x = *self as u16;
        x.set_bit(i);
        proof {
            lemma_i16_round_trip(x);
        }
        *self = x as i16;
    }

    fn unset_bit(&mut self, i: usize) {
        let mut x = *self as u16;
        x.unset_bit(i);
        proof {
            lemma_i16_round_trip(x);
        }
        *self = x as i16;
    }
}

impl Block for i16 {
    const BITS: usize = 16;

    proof fn lemma_block_len(b: &Self) {
    }

    fn empty() -> (r: Self) {
        let r: i16 = 0;
        proof {
            let z: u16 = 0;
            assert forall|k: int| 0 <= k < 16 implies !#[trigger] u16_seq(z)[k] by {
                lemma_u16_ops(z, z, k as u16, 0);
            }
            assert(u16_seq(r as u16) =~= zeros(16));
        }
        r
    }
}

impl Varint for i16 {
    fn varint<T: Word>(&self, i: usize, n: usize) -> (r: T) {
        (*self as u16).varint::<T>(i, n)
    }
}

impl PutVarint for i16 {

}

/// Converting a `u32` to `i32` and back gives the same bits.
proof fn lemma_i32_round_trip(x: u32)
    by (bit_vector)
    ensures
        ((x as i32) as u32) == x,
{
}

impl Bits for i32 {
    open spec fn bit_seq(&self) -> Seq<bool> {
        u32_seq(*self as u32)
    }

    fn bits(&self) -> (r: usize) {
        32
    }

    fn bit(&self, i: usize) -> (r: Option<bool>) {
        (*self as u32).bit(i)
    }
}

impl BitsMut for i32 {
    fn set_bit(&mut self, i: usize) {
        let mut x = *self as u32;
        x.set_bit(i);
        proof {
            lemma_i32_round_trip(x);
        }
        *self = x as i32;
    }

    fn unset_bit(&mut self, i: usize) {
        let mut x = *self as u32;
        x.unset_bit(i);
        proof {
            lemma_i32_round_trip(x);
        }
        *self = x as i32;
    }
}

impl Block for i32 {
    const BITS: usize = 32;

    proof fn lemma_block_len(b: &Self) {
    }

    fn empty() -> (r: Self) {
        let r: i32 = 0;
        proof {
            let z: u32 = 0;
            assert forall|k: int| 0 <= k < 32 implies !#[trigger] u32_seq(z)[k] by {
                lemma_u32_ops(z, z, k as u32, 0);
            }
            assert(u32_seq(r as u32) =~= zeros(32));
        }
        r
    }
}

impl Varint for i32 {
    fn varint<T: Word>(&self, i: usize, n: usize) -> (r: T) {
        (*self as u32).varint::<T>(i, n)
    }
}

impl PutVarint for i32 {

}

/// Converting a `u64` to `i64` and back gives the same bits.
proof fn lemma_i64_round_trip(x: u64)
    by (bit_vector)
    ensures
        ((x as i64) as u64) == x,
{
}

impl Bits for i64 {
    open spec fn bit_seq(&self) -> Seq<bool> {
        u64_seq(*self as u64)
    }

    fn bits(&self) -> (r: usize) {
        64
    }

    fn bit(&self, i: usize) -> (r: Option<bool>) {
        (*self as u64).bit(i)
    }
}

impl BitsMut for i64 {
    fn set_bit(&mut self, i: usize) {
        let mut x = *self as u64;
        x.set_bit(i);
        proof {
            lemma_i64_round_trip(x);
        }
        *self = x as i64;
    }

    fn unset_bit(&mut self, i: usize) {
        let mut x = *self as u64;
        x.unset_bit(i);
        proof {
            lemma_i64_round_trip(x);
        }
        *self = x as i64;
    }
}

impl Block for i64 {
    const BITS: usize = 64;

    proof fn lemma_block_len(b: &Self) {
    }

    fn empty() -> (r: Self) {
        let r: i64 = 0;
        proof {
            let z: u64 = 0;
            assert forall|k: int| 0 <= k < 64 implies !#[trigger] u64_seq(z)[k] by {
                lemma_u64_ops(z, z, k as u64, 0);
            }
            assert(u64_seq(r as u64) =~= zeros(64));
        }
        r
    }
}

impl Varint for i64 {
    fn varint<T: Word>(&self, i: usize, n: usize) -> (r: T) {
        (*self as u64).varint::<T>(i, n)
    }
}

impl PutVarint for i64 {

}

/// Converting a `u128` to `i128` and back gives the same bits.
proof fn lemma_i128_round_trip(x: u128)
    by (bit_vector)
    ensures
        ((x as i128) as u128) == x,
{
}

impl Bits for i128 {
    open spec fn bit_seq(&self) -> Seq<bool> {
        u128_seq(*self as u128)
    }

    fn bits(&self) -> (r: usize) {
        128
    }

    fn bit(&self, i: usize) -> (r: Option<bool>) {
        (*self as u128).bit(i)
    }
}

impl BitsMut for i128 {
    fn set_bit(&mut self, i: usize) {
        let mut x = *self as u128;
        x.set_bit(i);
        proof {
            lemma_i128_round_trip(x);
        }
        *self = x as i128;
    }

    fn unset_bit(&mut self, i: usize) {
        let mut x = *self as u128;
        x.unset_bit(i);
        proof {
            lemma_i128_round_trip(x);
        }
        *self = x as i128;
    }
}

impl Block for i128 {
    const BITS: usize = 128;

    proof fn lemma_block_len(b: &Self) {
    }

    fn empty() -> (r: Self) {
        let r: i128 = 0;
        proof {
            let z: u128 = 0;
            assert forall|k: int| 0 <= k < 128 implies !#[trigger] u128_seq(z)[k] by {
                lemma_u128_ops(z, z, k as u128, 0);
            }
            assert(u128_seq(r as u128) =~= zeros(128));
        }
        r
    }
}

impl Varint for i128 {
    fn varint<T: Word>(&self, i: usize, n: usize) -> (r: T) {
        (*self as u128).varint::<T>(i, n)
    }
}

impl PutVarint for i128 {

}

/// Converting a `usize` to `isize` and back gives the same bits.
proof fn lemma_isize_round_trip(x: usize)
    by (bit_vector)
    ensures
        ((x as isize) as usize) == x,
{
}

impl Bits for isize {
    open spec fn bit_seq(&self) -> Seq<bool> {
        usize_seq(*self as usize)
    }

    fn bits(&self) -> (r: usize) {
        usize::BITS as usize
    }

    fn bit(&self, i: usize) -> (r: Option<bool>) {
        (*self as usize).bit(i)
    }
}

impl BitsMut for isize {
    fn set_bit(&mut self, i: usize) {
        let mut x = *self as usize;
        x.set_bit(i);
        proof {
            lemma_isize_round_trip(x);
        }
        *self = x as isize;
    }

    fn unset_bit(&mut self, i: usize) {
        let mut x = *self as usize;
        x.unset_bit(i);
        proof {
            lemma_isize_round_trip(x);
        }
        *self = x as isize;
    }
}

impl Block for isize {
    const BITS: usize = usize::BITS as usize;

    proof fn lemma_block_len(b: &Self) {
    }

    fn empty() -> (r: Self) {
        let r: isize = 0;
        proof {
            let z: usize = 0;
            assert forall|k: int| 0 <= k < usize::BITS implies !#[trigger] usize_seq(z)[k] by {
                lemma_usize_ops(z, z, k as usize, 0);
            }
            assert(usize_seq(r as usize) =~= zeros(usize::BITS as nat));
        }
        r
    }
}

impl Varint for isize {
    fn varint<T: Word>(&self, i: usize, n: usize) -> (r: T) {
        (*self as usize).varint::<T>(i, n)
    }
}

impl PutVarint for isize {

}

} // verus!
