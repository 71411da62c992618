use reikura::util::bitset::BitSet;
use reikura::util::encoding::{InvalidSJIS, sjis_to_utf8, utf8_to_sjis};
use reikura::util::image::{copy_previous_pixels, mul_alpha};
use reikura::util::index_vec::{IndexVec, WriteError};
use reikura::util::io::{ReadEndian, ReadError, ReadExt, SliceReader, WriteEndian, WriteExt};
use reikura::util::lzss::decompress;
use reikura::util::rect::Rect;
use reikura::util::register::Register;
use reikura::util::stack::{Stack, StackError};
use reikura::util::text::{chars_of, decimal_chars, signed_decimal_chars, trim_chars, zero_padded_chars};
use reikura::util::variable::Variables;

#[test]
fn lzss_literals_and_back_reference() {
    assert_eq!(decompress(&[0x03, 97, 98], 2), vec![97, 98]);
    assert_eq!(decompress(&[0x03, 97, 98], 4), vec![97, 98, 0, 0]);
    assert_eq!(decompress(&[0x03, 97, 98, 0xEE, 0xF0], 5), vec![97, 98, 97, 98, 97]);
    assert_eq!(decompress(&[0x03, 97, 98, 0xEE, 0xF0], 3), vec![97, 98, 97]);
    assert_eq!(decompress(&[], 3), vec![0, 0, 0]);
}

#[test]
fn lzss_output_is_a_prefix_of_a_longer_one() {
    let input = [0x03, 1, 2, 0xEE, 0xF1, 0xFF, 5, 6, 7];
    let long = decompress(&input, 12);
    let short = decompress(&input, 6);
    assert_eq!(&long[..6], &short[..]);
}

#[test]
fn copy_previous_pixels_repeats() {
    let mut px = vec![1, 2, 3, 4, 5, 6, 7, 8];
    copy_previous_pixels(&mut px, 2, 3);
    assert_eq!(px, vec![1, 2, 3, 4, 5, 6, 7, 8, 1, 2, 3, 4, 5, 6, 7, 8, 1, 2, 3, 4]);
    assert_eq!(mul_alpha(0x80_11_22_33, 128), 0x40_11_22_33);
}

#[test]
fn rect_operations() {
    let a = Rect::from_xywh(1, 2, 3, 4);
    assert_eq!((a.x(), a.y(), a.width(), a.height()), (1, 2, 3, 4));
    assert_eq!(Rect::from_ltrb(3, 0, 1, 0), None);
    let b = Rect::from_ltrb(0, 0, 2, 2).unwrap();
    let u = a.union(&b);
    assert_eq!(u, Rect { left: 0, top: 0, right: 4, bottom: 6 });
    assert!(u.contains(a) && u.contains(b));
    assert!(!b.contains(a));
    assert_eq!(a.same_size(Rect::from_xywh(9, 9, 3, 4)), Some((3, 4)));
    assert_eq!(a.same_size(b), None);
}

#[test]
fn bitset_flags() {
    let mut f = BitSet::new(10);
    assert_eq!(f.len(), 10);
    assert_eq!(f.get(3), Some(false));
    assert_eq!(f.set(3, true), Some(true));
    assert_eq!(f.get(3), Some(true));
    assert_eq!(f.get(2), Some(false));
    assert_eq!(f.toggle(3), Some(false));
    assert_eq!(f.toggle(3), Some(true));
    assert_eq!(f.set(10, true), None);
    assert_eq!(f.get(10), None);
    f.resize(20);
    assert_eq!(f.len(), 20);
    assert_eq!(f.get(3), Some(true));
    assert_eq!(f.get(19), Some(false));
    f.resize(5);
    assert_eq!(f.len(), 20);
    let g = BitSet::from_raw(vec![0b0000_0101], 3);
    assert_eq!((g.get(0), g.get(1), g.get(2), g.get(3)), (Some(true), Some(false), Some(true), None));
}

#[test]
fn registers_and_variables() {
    let mut r = Register::new(3);
    assert!(r.set(1, 41));
    assert!(r.inc(1));
    assert_eq!(r.get(1), Some(42));
    assert!(r.dec(1));
    assert!(r.dec(1));
    assert_eq!(r.get(1), Some(40));
    assert!(!r.set(3, 1));
    assert_eq!(r.get(3), None);
    r.resize(5);
    assert_eq!(r.len(), 5);
    assert_eq!(r.get(4), Some(0));
    let mut v = Variables::new(2);
    assert!(v.set(0, -7));
    assert!(v.inc(0));
    assert_eq!(v.get(0), Some(-6));
    assert_eq!(v.inner(), &vec![-6, 0]);
    assert!(!v.inc(2));
}

#[test]
fn stack_push_pop() {
    let mut s: Stack<u8, 2> = Stack::new();
    assert_eq!(s.cap(), 2);
    assert!(s.is_empty());
    assert_eq!(s.pop(), Err(StackError::Underflow));
    assert_eq!(s.push(1), Ok(()));
    assert_eq!(s.push(2), Ok(()));
    assert_eq!(s.push(3), Err(StackError::Overflow));
    assert_eq!(s.len(), 2);
    assert_eq!(s.pop(), Ok(2));
    assert_eq!(s.pop(), Ok(1));
    assert_eq!(s.push(5), Ok(()));
    s.clear();
    assert_eq!(s.len(), 0);
    assert_eq!(StackError::Overflow.to_string(), "Stack overflow");
    assert_eq!(StackError::Underflow.to_string(), "Stack underflow");
}

#[test]
fn endian_writes() {
    let mut out: Vec<u8> = Vec::new();
    out.put_le(0x0102u16);
    out.put_be(0x0102u16);
    out.put_le(-2i32);
    out.put_be(0x01020304u32);
    out.put_bytes(&[9, 9]);
    0x11u8.write_le(&mut out);
    (-1i64).write_be(&mut out);
    assert_eq!(
        out,
        vec![2, 1, 1, 2, 0xFE, 0xFF, 0xFF, 0xFF, 1, 2, 3, 4, 9, 9, 0x11, 255, 255, 255, 255, 255, 255, 255, 255]
    );
}

#[test]
fn endian_reads() {
    let data = [0xFE, 0xFF, 0xFF, 0xFF, 1, 2, 3, 4, 5];
    let mut r = SliceReader::new(&data);
    assert_eq!(r.get_le::<i32>(), Ok(-2));
    assert_eq!(r.get_be::<u16>(), Ok(0x0102));
    assert_eq!(r.get_bytes::<2>(), Ok([3, 4]));
    assert_eq!(r.len(), 1);
    assert_eq!(u16::get_le(&mut r), Err(ReadError::UnexpectedEof));
    assert_eq!(r.len(), 1);
    assert_eq!(u8::read_be(&mut r), Ok(5));
    assert!(r.is_empty());
}

#[test]
fn endian_round_trip() {
    for v in [0u32, 1, 0xDEAD_BEEF, u32::MAX] {
        let mut out = Vec::new();
        out.put_le(v);
        let mut r = SliceReader::new(&out);
        assert_eq!(r.get_le::<u32>(), Ok(v));
        let mut out = Vec::new();
        out.put_be(v);
        let mut r = SliceReader::new(&out);
        assert_eq!(r.get_be::<u32>(), Ok(v));
    }
}

#[test]
fn index_vec_read_write() {
    let mut out = Vec::new();
    assert_eq!(IndexVec::<u16, u8>::from_vec(vec![1, 2, 3]).write_le(&mut out), Ok(()));
    assert_eq!(out, vec![3, 0, 1, 2, 3]);
    let mut out = Vec::new();
    assert_eq!(IndexVec::<u16, u16>::from_vec(vec![0x0102]).write_be(&mut out), Ok(()));
    assert_eq!(out, vec![0, 1, 2, 1]);
    let data = [2, 0, 9, 8, 7];
    let mut r = SliceReader::new(&data);
    let v = IndexVec::<u16, u8>::read_le(&mut r).unwrap();
    assert_eq!(v.into_vec(), vec![9, 8]);
    assert_eq!(r.len(), 1);
    let data = [0, 2, 0, 9, 0, 8];
    let mut r = SliceReader::new(&data);
    let v = IndexVec::<u16, u16>::read_be(&mut r).unwrap();
    assert_eq!(v.as_vec(), &vec![9, 8]);
    let data = [5, 0, 1];
    let mut r = SliceReader::new(&data);
    assert!(IndexVec::<u16, u8>::read_le(&mut r).is_err());
    let mut out = vec![7];
    assert_eq!(IndexVec::<u8, u8>::from_vec(vec![0; 300]).write_le(&mut out), Err(WriteError::LengthTooLarge));
    assert_eq!(out, vec![7]);
}

#[test]
fn text_helpers() {
    assert_eq!(trim_chars(&chars_of("  a b \t\n")), chars_of("a b"));
    assert_eq!(trim_chars(&chars_of("\u{3000}x\u{A0}")), chars_of("x"));
    assert_eq!(decimal_chars(0), chars_of("0"));
    assert_eq!(decimal_chars(1234567), chars_of("1234567"));
    assert_eq!(signed_decimal_chars(i32::MIN), chars_of("-2147483648"));
    assert_eq!(zero_padded_chars(7, 4), chars_of("0007"));
    assert_eq!(zero_padded_chars(12345, 4), chars_of("12345"));
}

#[test]
fn shift_jis_conversions() {
    assert_eq!(sjis_to_utf8(&[0x82, 0xA0]).unwrap(), "あ");
    assert_eq!(sjis_to_utf8(b"abc").unwrap(), "abc");
    assert_eq!(utf8_to_sjis("あa").unwrap(), vec![0x82, 0xA0, b'a']);
    let err = sjis_to_utf8(&[0x82]).unwrap_err();
    assert!(matches!(err, InvalidSJIS::DecodeError(ref b) if b == &vec![0x82]));
    assert_eq!(err.to_string(), "failed to decode to sjis with buffer: [130]");
    let err = utf8_to_sjis("😀").unwrap_err();
    assert!(matches!(err, InvalidSJIS::EncodeError(ref s) if s == "😀"));
    assert_eq!(err.to_string(), "failed to endode to sjis with string: \"😀\"");
    let err = InvalidSJIS::DecodeError(vec![1, 2]);
    assert_eq!(err.to_string(), "failed to decode to sjis with buffer: [1, 2]");
}

#[test]
fn register_from_values_keeps_them() {
    let mut regs = Register::from(vec![3, -4, 5]);
    assert_eq!(regs.len(), 3);
    assert_eq!(regs.get(1), Some(-4));
    assert!(regs.inc(1));
    assert_eq!(regs.as_slice(), &[3, -3, 5]);
}

#[test]
fn bitset_bytes_hold_the_flags() {
    let mut flags = BitSet::new(12);
    flags.set(0, true);
    flags.set(9, true);
    assert_eq!(flags.as_bytes(), &[0b0000_0001, 0b0000_0010]);
    let back = BitSet::from_raw(flags.as_bytes().to_vec(), 12);
    assert_eq!(back.get(9), Some(true));
    assert_eq!(back.get(8), Some(false));
}

#[test]
fn default_stack_is_empty() {
    let mut s: Stack<u8, 2> = Stack::default();
    assert!(s.is_empty());
    assert_eq!(s.pop(), Err(StackError::Underflow));
}
