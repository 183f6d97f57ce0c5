use bits::{BitCount, BitRank, Bits, BitsMut, Block, BlockIter, IntoBlocks, Not, NotAssign, PutVarint, Varint};
use std::borrow::Cow;

#[test]
fn u128_blocks() {
    let mut x: u128 = u128::MAX;
    NotAssign::not_assign(&mut x, &((1u128 << 127) | 1));
    assert_eq!(x, (u128::MAX >> 1) & !1);
    let y: u128 = 0xFEDC_BA98_7654_3210_0123_4567_89AB_CDEF;
    assert_eq!(y.varint::<u64>(64, 64), 0xFEDC_BA98_7654_3210);
    assert_eq!(y.varint::<u8>(120, 8), 0xFE);
    assert_eq!(y.varint::<u16>(0, 12), 0xDEF);
    let mut z: u128 = 0;
    z.put_varint::<u64>(100, 28, 0xFFF_FFFF);
    assert_eq!(z, 0xFFF_FFFFu128 << 100);
    assert_eq!(y.bits(), 128);
    assert_eq!(y.bit(127), Some(true));
    assert_eq!(y.bit(128), None);
    assert_eq!(<u128 as Block>::BITS, 128);
    assert_eq!(<u128 as Block>::empty(), 0);
    assert_eq!(u128::MAX.count_1(), 128);
}

#[test]
fn usize_blocks() {
    let w = usize::BITS as usize;
    assert_eq!(<usize as Block>::BITS, w);
    assert_eq!(<usize as Block>::empty(), 0);
    let mut x: usize = 0;
    x.set_bit(w - 1);
    assert_eq!(x, 1usize << (w - 1));
    assert_eq!(x.count_1(), 1);
    assert_eq!(x.varint::<u8>(w - 4, 4), 0b1000);
    x.put_varint::<u8>(0, 4, 0b1010);
    assert_eq!(x, (1usize << (w - 1)) | 0b1010);
    let s: &[usize] = &[0, 3];
    assert_eq!(s.rank_1(0..2 * w), 2);
    assert_eq!(s.bit(w), Some(true));
}

#[test]
fn signed_blocks() {
    assert_eq!((-1i8).count_1(), 8);
    assert_eq!(i16::MIN.bit(15), Some(true));
    assert_eq!(i16::MIN.bit(14), Some(false));
    let mut x: i32 = 0;
    x.set_bit(31);
    assert_eq!(x, i32::MIN);
    x.unset_bit(31);
    assert_eq!(x, 0);
    assert_eq!((-2i64).varint::<u8>(0, 8), 0xFE);
    let mut y: i8 = 0;
    y.put_varint::<u8>(4, 4, 0xF);
    assert_eq!(y, -16);
    assert_eq!(<i128 as Block>::BITS, 128);
    assert_eq!(<isize as Block>::empty(), 0);
    assert_eq!((-1i128).varint::<u64>(64, 64), u64::MAX);
    assert_eq!(<i8 as Block>::BITS, 8);
    let s: &[i16] = &[-1, 0];
    assert_eq!(s.rank_1(0..32), 16);
}

#[test]
fn put_varint_empty_run_at_end() {
    let mut s = [0xAAu8, 0x55];
    s[..].put_varint::<u8>(16, 0, 0xFF);
    assert_eq!(s, [0xAA, 0x55]);
    let mut x: u8 = 0x5A;
    x.put_varint::<u8>(8, 0, 0xFF);
    assert_eq!(x, 0x5A);
    let mut v: Vec<u16> = vec![1];
    v.put_varint::<u32>(16, 0, 7);
    assert_eq!(v, vec![1]);
}

#[test]
fn difference_keeps_untouched_blocks_borrowed() {
    let a: &[u8] = &[0x0F, 0xF0, 0x33, 0x00];
    let b: &[u8] = &[0x01, 0x00, 0x00, 0xFF];
    let mut d = a.not(b).into_blocks();
    let (i, x) = d.next().unwrap();
    assert_eq!(i, 0);
    assert!(matches!(x, Cow::Owned(0x0E)));
    let (i, x) = d.next().unwrap();
    assert_eq!(i, 1);
    assert!(matches!(x, Cow::Borrowed(r) if std::ptr::eq(r, &a[1])));
    let (i, x) = d.next().unwrap();
    assert_eq!(i, 2);
    assert!(matches!(x, Cow::Borrowed(r) if std::ptr::eq(r, &a[2])));
    assert!(d.next().is_none());
}

#[test]
fn references_are_bit_containers() {
    let x: u8 = 0b1010;
    let r: &u8 = &x;
    assert_eq!(r.bits(), 8);
    assert_eq!(r.bit(1), Some(true));
    assert_eq!(r.count_1(), 2);
    let s: &[u8] = &[0xFF, 0x01];
    let rs: &&[u8] = &s;
    assert_eq!(rs.bits(), 16);
    assert_eq!(bits::count_1(&s), 9);
}

#[test]
fn arrays_of_words_are_blocks() {
    assert_eq!(<[u8; 3] as Block>::BITS, 24);
    assert_eq!(<[u64; 32] as Block>::BITS, 2048);
    assert_eq!(<[u16; 2] as Block>::empty(), [0, 0]);
    assert_eq!(<[u32; 16] as Block>::empty(), [0; 16]);
    assert!(!bits::any(&<[u8; 4] as Block>::empty()));
    let v: Vec<[u8; 2]> = vec![[0, 1], [0x80, 0], [0, 0]];
    assert_eq!(v.bits(), 48);
    assert_eq!(v.bit(8), Some(true));
    assert_eq!(v.bit(16 + 7), Some(true));
    assert_eq!(v.bit(48), None);
    assert_eq!(v.count_1(), 2);
    let s: &[[u8; 2]] = &v;
    let mut it = s.into_blocks();
    assert_eq!(it.next().map(|(i, b)| (i, *b)), Some((0, [0, 1])));
    assert_eq!(it.next().map(|(i, b)| (i, *b)), Some((1, [0x80, 0])));
    assert!(it.next().is_none());
    let mut w: Vec<[u8; 2]> = vec![[0, 0]; 2];
    w.set_bit(17);
    assert_eq!(w, vec![[0, 0], [0b10, 0]]);
    assert_eq!(w.varint::<u8>(16, 8), 0b10);
}

#[test]
fn empty_blocks_are_clear() {
    let a = <u8 as Block>::empty();
    assert_eq!((bits::any(&a), a.count_1(), a.count_0()), (false, 0, 8));
    let b = <[u16; 3] as Block>::empty();
    assert_eq!((bits::any(&b), b.count_1(), b.count_0()), (false, 0, 48));
    let c = <Cow<u32> as Block>::empty();
    assert!(matches!(c, Cow::Owned(0)));
    assert_eq!((bits::any(&c), c.count_1(), c.count_0()), (false, 0, 32));
    let d = <i64 as Block>::empty();
    assert_eq!((bits::any(&d), d.count_1(), d.count_0()), (false, 0, 64));
    let e = <Box<u128> as Block>::empty();
    assert_eq!((bits::any(&e), e.count_1(), e.count_0()), (false, 0, 128));
}

#[test]
fn cow_of_box_reads_bits() {
    let b: Box<[u8; 2]> = Box::new([0x01, 0x80]);
    let c: Cow<Box<[u8; 2]>> = Cow::Borrowed(&b);
    assert_eq!(c.bits(), 16);
    assert_eq!(c.bit(15), Some(true));
    assert_eq!(c.count_1(), 2);
    assert_eq!(c.rank_1(1..15), 0);
}
