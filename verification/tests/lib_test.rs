use std::borrow::Cow;
use bits::{
    BitAny, BitCount, BitExcess, BitRank, BitSelect, BitsMut, Block, BlockIter, Bits, IntoBlocks,
    Not, NotAssign, PutVarint, Varint, Word,
};

#[test]
fn word_lsb() {
    assert_eq!(0b_0110_1000u8.lsb(), 0b_0000_1000);
    assert_eq!(0u8.lsb(), 0);
    assert_eq!(0x8000u16.lsb(), 0x8000);
    assert_eq!(0xFFFF_0000u32.lsb(), 0x0001_0000);
    assert_eq!(u64::MAX.lsb(), 1);
    assert_eq!(0u64.lsb(), 0);
}

#[test]
fn word_msb() {
    assert_eq!(0b_0110_1000u8.msb(), 0b_0100_0000);
    assert_eq!(0u8.msb(), 0);
    assert_eq!(1u16.msb(), 1);
    assert_eq!(0x00FF_FFFFu32.msb(), 0x0080_0000);
    assert_eq!(u64::MAX.msb(), 1 << 63);
    assert_eq!(0u64.msb(), 0);
}

#[test]
fn word_count_t0() {
    assert_eq!(0u8.count_t0(), 8);
    assert_eq!(0b100u16.count_t0(), 2);
    assert_eq!(0u32.count_t0(), 32);
    assert_eq!((1u64 << 63).count_t0(), 63);
    assert_eq!(1u64.count_t0(), 0);
}

#[test]
fn word_consts_and_ops() {
    assert_eq!(<u8 as Word>::ZERO, 0);
    assert_eq!(<u32 as Word>::ONE, 1);
    assert_eq!(0b1010u8.bitor(0b0101), 0b1111);
    assert_eq!(Word::shl(0b1u16, 15), 0x8000);
    assert_eq!(0xABCDu16.field(4, 8), 0xBC);
    assert_eq!(0xFFu8.field(3, 5), 0b1_1111);
    assert_eq!(u64::MAX.field(0, 64), u64::MAX);
}

#[test]
fn word_cast_from_u64() {
    assert_eq!(<u8 as Word>::cast_from_u64(0xFF), Some(0xFF));
    assert_eq!(<u8 as Word>::cast_from_u64(0x100), None);
    assert_eq!(<u16 as Word>::cast_from_u64(0x1_0000), None);
    assert_eq!(<u32 as Word>::cast_from_u64(0xFFFF_FFFF), Some(0xFFFF_FFFF));
    assert_eq!(<u32 as Word>::cast_from_u64(1 << 40), None);
    assert_eq!(<u64 as Word>::cast_from_u64(u64::MAX), Some(u64::MAX));
}

#[test]
fn block_constants_and_empty() {
    assert_eq!(<u8 as Block>::BITS, 8);
    assert_eq!(<u16 as Block>::SIZE, 2);
    assert_eq!(<u64 as Block>::SIZE, 8);
    assert_eq!(<u32 as Block>::empty(), 0);
    assert_eq!(*<Box<u16> as Block>::empty(), 0);
    assert_eq!(<Box<u64> as Block>::BITS, 64);
}

#[test]
fn bit_get_and_set() {
    let mut x: u8 = 0;
    x.set_bit(3);
    assert_eq!(x, 0b1000);
    assert_eq!(x.bit(3), Some(true));
    assert_eq!(x.bit(2), Some(false));
    assert_eq!(x.bit(8), None);
    assert_eq!(x.bits(), 8);

    let mut s = [0u8, 0, 0];
    s.set_bit(9);
    assert_eq!(s, [0, 0b10, 0]);
    assert_eq!(s[..].bit(9), Some(true));
    assert_eq!(s[..].bit(24), None);
    assert_eq!(s.bits(), 24);

    let mut v: Vec<u16> = vec![0, 0];
    v.set_bit(31);
    assert_eq!(v, vec![0, 0x8000]);
    assert_eq!(v.bits(), 32);

    let mut b: Box<u32> = Box::new(0);
    b.set_bit(31);
    assert_eq!(*b, 0x8000_0000);

    let mut flags = [false, false, false];
    flags[..].set_bit(1);
    assert_eq!(flags, [false, true, false]);
    assert_eq!(flags[..].bits(), 3);
}

#[test]
fn free_functions() {
    let s: &[u8] = &[0b1000_0001, 0, 0b0000_0110];
    assert_eq!(bits::len(s), 24);
    assert!(!bits::is_empty(s));
    assert!(bits::is_empty(&[0u8; 0][..]));
    assert!(bits::any(s));
    assert!(!bits::any(&[0u32, 0][..]));
    assert_eq!(bits::count_1(s), 4);
    assert_eq!(s.count_0(), 20);
    assert_eq!(bits::rank_1(s, 0..8), 2);
    assert_eq!(bits::rank_0(s, 0..8), 6);
    assert_eq!(bits::rank_1(s, 7..18), 2);
    assert_eq!(bits::select_1(s, 0), Some(0));
    assert_eq!(bits::select_1(s, 1), Some(7));
    assert_eq!(bits::select_1(s, 2), Some(17));
    assert_eq!(bits::select_1(s, 3), Some(18));
    assert_eq!(bits::select_1(s, 4), None);
    assert_eq!(0u8.select_1(0), None);
}

#[test]
fn excess() {
    let x: u8 = 0b1111_0111;
    assert_eq!(x.excess_1(0..8), 6);
    assert_eq!(x.excess_1(0..0), 0);
    let y: u16 = 0b0000_0001;
    assert_eq!(y.excess_0(0..8), 6);
    assert_eq!(y.excess_0(1..5), 4);
}

#[test]
fn varint_from_words() {
    assert_eq!(0xABCDu16.varint::<u8>(4, 8), 0xBC);
    assert_eq!(0xABCDu16.varint::<u32>(0, 16), 0xABCD);
    assert_eq!(0xABCDu16.varint::<u8>(12, 4), 0xA);
    assert_eq!(0x1234_5678_9ABC_DEF0u64.varint::<u16>(48, 16), 0x1234);
    assert_eq!(0x1234_5678_9ABC_DEF0u64.varint::<u8>(60, 4), 0x1);
    assert_eq!(0xFFu8.varint::<u64>(1, 0), 0);
    assert_eq!(0x8000_0001u32.varint::<u64>(0, 32), 0x8000_0001);
}

#[test]
fn varint_from_blocks() {
    let s: &[u8] = &[0xF0, 0x0F, 0xAB];
    assert_eq!(s.varint::<u16>(4, 8), 0xFF);
    assert_eq!(s.varint::<u8>(0, 8), 0xF0);
    assert_eq!(s.varint::<u32>(0, 24), 0x00AB_0FF0);
    assert_eq!(s.varint::<u8>(16, 8), 0xAB);
    assert_eq!(s.varint::<u8>(12, 8), 0xB0);
    let v: Vec<u16> = vec![0x1234, 0x5678];
    assert_eq!(v.varint::<u32>(8, 16), 0x7812);
    let a: [u32; 2] = [0xFFFF_FFFF, 0x1];
    assert_eq!(a.varint::<u64>(0, 64), 0x1_FFFF_FFFF);
    let flags: &[bool] = &[true, false, true, true];
    assert_eq!(flags.varint::<u8>(0, 4), 0b1101);
    assert_eq!(Box::new(0xABu8).varint::<u8>(4, 4), 0xA);
}

#[test]
fn put_varint_into_words() {
    let mut x: u16 = 0;
    x.put_varint::<u8>(4, 8, 0xBC);
    assert_eq!(x, 0x0BC0);
    let mut y: u8 = 0b1000_0001;
    y.put_varint::<u32>(1, 3, 0b111);
    assert_eq!(y, 0b1000_1111);
    let mut z: u32 = 0;
    z.put_varint::<u64>(0, 8, 0xFFFF);
    assert_eq!(z, 0xFF);
}

#[test]
fn put_varint_into_blocks() {
    let mut s = [0u8; 3];
    s[..].put_varint::<u16>(4, 12, 0xABC);
    assert_eq!(s, [0xC0, 0xAB, 0x00]);
    assert_eq!(s[..].varint::<u16>(4, 12), 0xABC);
    let mut v: Vec<u8> = vec![0x01, 0x80];
    v.put_varint::<u8>(6, 4, 0b1111);
    assert_eq!(v, vec![0xC1, 0x83]);
    let mut a = [0u16; 2];
    a.put_varint::<u32>(8, 16, 0xBEEF);
    assert_eq!(a, [0xEF00, 0x00BE]);
    let mut flags = [false; 4];
    flags[..].put_varint::<u8>(1, 2, 0b11);
    assert_eq!(flags, [false, true, true, false]);
}

#[test]
fn not_assign_words_and_slices() {
    let mut x: u8 = 0b1111;
    NotAssign::not_assign(&mut x, &0b0101u8);
    assert_eq!(x, 0b1010);
    let mut y: u64 = u64::MAX;
    NotAssign::not_assign(&mut y, &(1u64 << 63));
    assert_eq!(y, u64::MAX >> 1);

    let mut s = [0xFFu16, 0x00FF];
    <[u16] as NotAssign<[u16]>>::not_assign(&mut s[..], &[0x0F0F, 0xFFFF][..]);
    assert_eq!(s, [0x00F0, 0x0000]);

    let mut v: Vec<u32> = vec![7, 8];
    NotAssign::not_assign(&mut v, &[1u32, 8][..]);
    assert_eq!(v, vec![6, 0]);

    let mut a = [0b11u8, 0b11];
    NotAssign::not_assign(&mut a, &[0b01u8, 0b10][..]);
    assert_eq!(a, [0b10, 0b01]);

    let mut b: Box<u16> = Box::new(0xFFFF);
    NotAssign::not_assign(&mut b, &0x00FFu16);
    assert_eq!(*b, 0xFF00);
}

#[test]
fn blocks_skip_empty() {
    let s: &[u8] = &[0, 5, 0, 7, 0];
    let mut it = s.into_blocks();
    assert_eq!(it.next().map(|(i, b)| (i, *b)), Some((1, 5)));
    assert_eq!(it.next().map(|(i, b)| (i, *b)), Some((3, 7)));
    assert!(it.next().is_none());
    assert!(it.next().is_none());

    let a: [u16; 3] = [0, 0, 9];
    let mut it = (&a).into_blocks();
    assert_eq!(it.next().map(|(i, b)| (i, *b)), Some((2, 9)));
    assert!(it.next().is_none());

    let r: &[u8] = &[1];
    let mut it = (&r).into_blocks();
    assert_eq!(it.next().map(|(i, b)| (i, *b)), Some((0, 1)));
    assert!(it.next().is_none());
}

#[test]
fn difference_of_blocks() {
    let a: &[u8] = &[0xFF, 0x0F, 0x00, 0xF0];
    let b: &[u8] = &[0x0F, 0x00, 0xFF, 0xF0];
    let mut d = a.not(b).into_blocks();
    assert_eq!(d.next().map(|(i, b)| (i, *b)), Some((0, 0xF0)));
    assert_eq!(d.next().map(|(i, b)| (i, *b)), Some((1, 0x0F)));
    assert_eq!(d.next().map(|(i, b)| (i, *b)), Some((3, 0x00)));
    assert!(d.next().is_none());
    assert!(d.next().is_none());

    let c: &[u32] = &[0, 6, 0];
    let e: &[u32] = &[];
    let mut d = c.not(e).into_iter();
    assert_eq!(d.next().map(|(i, b)| (i, *b)), Some((1, 6)));
    assert!(d.next().is_none());

    let mut d = e.not(c).into_blocks();
    assert!(d.next().is_none());
}

#[test]
fn difference_of_differences() {
    let a: &[u8] = &[0xFF, 0xFF];
    let b: &[u8] = &[0x01, 0x00];
    let c: &[u8] = &[0x02, 0x80];
    let mut d = a.not(b).not(c).into_blocks();
    assert_eq!(d.next().map(|(i, b)| (i, *b)), Some((0, 0xFC)));
    assert_eq!(d.next().map(|(i, b)| (i, *b)), Some((1, 0x7F)));
    assert!(d.next().is_none());
}

#[test]
fn cow_blocks() {
    let x: u8 = 0b1100;
    let mut c: Cow<u8> = Cow::Borrowed(&x);
    assert_eq!(c.bit(2), Some(true));
    c.set_bit(0);
    assert_eq!(*c, 0b1101);
    assert_eq!(x, 0b1100);
    assert_eq!(*<Cow<u16> as Block>::empty(), 0);
    let mut d: Cow<u8> = Cow::Borrowed(&x);
    NotAssign::not_assign(&mut d, &Cow::Owned(0b0100u8));
    assert_eq!(*d, 0b1000);
    assert_eq!(c.varint::<u8>(2, 2), 0b11);
    c.put_varint::<u8>(4, 4, 0xF);
    assert_eq!(*c, 0xFD);
}

#[test]
fn any_on_containers() {
    assert!(0x10u16.any());
    assert!(!0u64.any());
    assert!([0u8, 0, 1].any());
    assert!(![false, false].as_slice().any());
    assert_eq!(0xF0u8.count_1(), 4);
    assert_eq!([0xFFu8, 0x0F].rank_1(4..12), 8);
}

#[test]
fn not_stream_agrees_with_not_assign() {
    let a: &[u16] = &[0x00FF, 0x0000, 0xF00F, 0x1234];
    let b: &[u16] = &[0x000F, 0xFFFF, 0x0000, 0x1230];
    let mut in_place = a.to_vec();
    NotAssign::not_assign(&mut in_place, b);
    let mut d = a.not(b).into_blocks();
    let mut seen = Vec::new();
    while let Some((i, blk)) = d.next() {
        assert_eq!(*blk, in_place[i]);
        seen.push(i);
    }
    assert_eq!(seen, vec![0, 2, 3]);
}

#[test]
fn clearing_lowest_bit_shifts_ranks() {
    let x: u64 = 0b1011_0100;
    let y = x & !x.lsb();
    assert_eq!(y, 0b1011_0000);
    for c in 0..bits::count_1(&y) {
        assert_eq!(bits::select_1(&y, c), bits::select_1(&x, c + 1));
    }
    assert_eq!(bits::count_1(&y) + 1, bits::count_1(&x));
    assert_eq!(bits::select_1(&x, 0), Some(x.count_t0()));
}

#[test]
fn put_varint_overwrites_run() {
    let mut x: u8 = 0xFF;
    x.put_varint::<u8>(0, 4, 0u8);
    assert_eq!(x, 0xF0);
    assert_eq!(x.varint::<u8>(0, 4), 0);
    let mut y: u64 = u64::MAX;
    y.put_varint::<u16>(60, 4, 0b0101);
    assert_eq!(y, 0x5FFF_FFFF_FFFF_FFFF);
    let mut s = [0xFFu8, 0xFF, 0xFF];
    s[..].put_varint::<u16>(4, 12, 0xA5C);
    assert_eq!(s, [0xCF, 0xA5, 0xFF]);
    assert_eq!(s[..].varint::<u16>(4, 12), 0xA5C);
    let mut v: Vec<u16> = vec![0xFFFF, 0xFFFF];
    v.put_varint::<u32>(8, 16, 0);
    assert_eq!(v, vec![0x00FF, 0xFF00]);
    let mut flags = [true; 4];
    flags[..].put_varint::<u8>(1, 2, 0b01);
    assert_eq!(flags, [true, true, false, true]);
}

#[test]
fn unset_bit_clears_one_bit() {
    let mut x: u16 = 0xFFFF;
    x.unset_bit(15);
    assert_eq!(x, 0x7FFF);
    let mut s = [0xFFu8, 0xFF];
    s.unset_bit(8);
    assert_eq!(s, [0xFF, 0xFE]);
    let x0: u32 = 7;
    let mut c: Cow<u32> = Cow::Borrowed(&x0);
    c.unset_bit(1);
    assert_eq!(*c, 5);
    assert!(matches!(c, Cow::Owned(_)));
}

#[test]
fn blocks_are_borrowed_and_cleared_blocks_kept() {
    let s: &[u8] = &[0, 3, 0, 5];
    let mut it = s.into_blocks();
    let (i, b) = it.next().unwrap();
    assert_eq!(i, 1);
    assert!(matches!(b, Cow::Borrowed(r) if std::ptr::eq(r, &s[1])));
    let a: &[u8] = &[5];
    let mut d = a.not(a).into_blocks();
    assert_eq!(d.next().map(|(i, b)| (i, *b)), Some((0, 0)));
    assert!(d.next().is_none());
    let x: &[u8] = &[0b1100, 0, 0b1010, 0, 0, 0b1111];
    let y: &[u8] = &[0, 0xFF, 0b0110, 0xFF];
    let mut d = x.not(y).into_blocks();
    assert_eq!(d.next().map(|(i, b)| (i, *b)), Some((0, 0b1100)));
    assert_eq!(d.next().map(|(i, b)| (i, *b)), Some((2, 0b1000)));
    assert_eq!(d.next().map(|(i, b)| (i, *b)), Some((5, 0b1111)));
    assert!(d.next().is_none());
}
