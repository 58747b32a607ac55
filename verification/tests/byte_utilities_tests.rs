use mosaic::datatypes::S32;
use mosaic::byte_utilities::{decode_be, encode_be, FromByteArray, ToByteArray};

#[test]
fn unsigned_values_are_written_big_endian() {
    assert_eq!(0xabu8.to_byte_array(), vec![0xab]);
    assert_eq!(0x1234u16.to_byte_array(), vec![0x12, 0x34]);
    assert_eq!(0x0102_0304u32.to_byte_array(), vec![1, 2, 3, 4]);
    assert_eq!(0x0102_0304_0506_0708u64.to_byte_array(), vec![1, 2, 3, 4, 5, 6, 7, 8]);
    assert_eq!(258usize.to_byte_array(), vec![0, 0, 0, 0, 0, 0, 1, 2]);
}

#[test]
fn signed_values_are_written_in_twos_complement() {
    assert_eq!((-1i8).to_byte_array(), vec![0xff]);
    assert_eq!((-2i16).to_byte_array(), vec![0xff, 0xfe]);
    assert_eq!((-3i32).to_byte_array(), vec![0xff, 0xff, 0xff, 0xfd]);
    assert_eq!((-4i64).to_byte_array(), vec![0xff, 0xff, 0xff, 0xff, 0xff, 0xff, 0xff, 0xfc]);
}

#[test]
fn values_are_read_back_from_big_endian_bytes() {
    assert_eq!(u8::from_byte_array(&[0xab]), 0xab);
    assert_eq!(u16::from_byte_array(&[0x12, 0x34]), 0x1234);
    assert_eq!(u32::from_byte_array(&[1, 2, 3, 4]), 0x0102_0304);
    assert_eq!(u64::from_byte_array(&[1, 2, 3, 4, 5, 6, 7, 8]), 0x0102_0304_0506_0708);
    assert_eq!(usize::from_byte_array(&[0, 0, 0, 0, 0, 0, 1, 2]), 258);
    assert_eq!(i8::from_byte_array(&[0xff]), -1);
    assert_eq!(i16::from_byte_array(&[0xff, 0xfe]), -2);
    assert_eq!(i32::from_byte_array(&[0xff, 0xff, 0xff, 0xfd]), -3);
    assert_eq!(i64::from_byte_array(&[0xff, 0xff, 0xff, 0xff, 0xff, 0xff, 0xff, 0xfc]), -4);
}

#[test]
fn booleans_take_one_byte() {
    assert_eq!(true.to_byte_array(), vec![1]);
    assert_eq!(false.to_byte_array(), vec![0]);
    assert!(bool::from_byte_array(&[1]));
    assert!(!bool::from_byte_array(&[0]));
    assert!(!bool::from_byte_array(&[2]));
}

#[test]
fn values_survive_a_round_trip() {
    for x in [0u16, 1, 255, 256, 65535] {
        assert_eq!(u16::from_byte_array(&x.to_byte_array()), x);
    }
    for x in [i64::MIN, -1, 0, 1, i64::MAX] {
        assert_eq!(i64::from_byte_array(&x.to_byte_array()), x);
    }
    for x in [u64::MAX, 0, 0x8000_0000_0000_0000] {
        assert_eq!(u64::from_byte_array(&x.to_byte_array()), x);
    }
}

#[test]
fn raw_codec_helpers() {
    assert_eq!(encode_be(0x010203, 2), vec![0x02, 0x03]);
    assert_eq!(encode_be(7, 0), Vec::<u8>::new());
    assert_eq!(decode_be(&[]), 0);
    assert_eq!(decode_be(&[1, 0]), 256);
}

#[test]
fn slices_become_arrays_of_their_length() {
    let a: [u8; 3] = mosaic::byte_utilities::slice_into_array(&[1, 2, 3]);
    assert_eq!(a, [1, 2, 3]);
    let e: [u8; 0] = mosaic::byte_utilities::slice_into_array(&[]);
    assert_eq!(e, []);
}

#[test]
fn strings_carry_their_length() {
    let bytes = String::from("hello").to_byte_array();
    assert_eq!(bytes, vec![0, 0, 0, 0, 0, 0, 0, 5, b'h', b'e', b'l', b'l', b'o']);
    assert_eq!(String::from_byte_array(&bytes), "hello");
    let mut longer = bytes.clone();
    longer.extend([b'!', b'?']);
    assert_eq!(String::from_byte_array(&longer), "hello");
    assert_eq!(String::from_byte_array(&String::new().to_byte_array()), "");
    let wide = String::from("héllo wörld");
    assert_eq!(String::from_byte_array(&wide.to_byte_array()), wide);
}

#[test]
fn names_travel_as_their_fixed_text() {
    let name = S32::from_text("Position");
    let bytes = name.to_byte_array();
    assert_eq!(bytes.len(), 32);
    assert_eq!(&bytes[..8], b"Position");
    assert!(bytes[8..].iter().all(|b| *b == 0));
    assert_eq!(S32::from_byte_array(&bytes), name);
    assert_eq!(S32::from_byte_array(b"Tag"), S32::from_text("Tag"));
}
