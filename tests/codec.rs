use paxy::buffers::{Bools, BoolsMut, Strings, StringsMut, VarInts, VarIntsMut};
use paxy::indexed_vec::IndexedVec;
use paxy::varint::get_var_i32_size;

fn filled(bytes: &[u8]) -> IndexedVec {
    let mut b = IndexedVec::from_vec(bytes.to_vec());
    b.set_writer_index(bytes.len());
    b
}

fn encode_i32(n: i32) -> Vec<u8> {
    let mut b = IndexedVec::new();
    b.put_var_i32(n);
    b.as_slice().to_vec()
}

#[test]
fn var_i32_known_encodings() {
    assert_eq!(encode_i32(0), vec![0x00]);
    assert_eq!(encode_i32(1), vec![0x01]);
    assert_eq!(encode_i32(127), vec![0x7f]);
    assert_eq!(encode_i32(128), vec![0x80, 0x01]);
    assert_eq!(encode_i32(255), vec![0xff, 0x01]);
    assert_eq!(encode_i32(25565), vec![0xdd, 0xc7, 0x01]);
    assert_eq!(encode_i32(2097151), vec![0xff, 0xff, 0x7f]);
    assert_eq!(encode_i32(i32::MAX), vec![0xff, 0xff, 0xff, 0xff, 0x07]);
    assert_eq!(encode_i32(-1), vec![0xff, 0xff, 0xff, 0xff, 0x0f]);
    assert_eq!(encode_i32(i32::MIN), vec![0x80, 0x80, 0x80, 0x80, 0x08]);
}

#[test]
fn var_i32_round_trip_and_size() {
    for n in [0, 1, 127, 128, 16383, 16384, 2097151, 2097152, 268435455, 268435456, i32::MAX, -1, i32::MIN, -300] {
        let bytes = encode_i32(n);
        assert_eq!(bytes.len() as i32, get_var_i32_size(n));
        let mut b = filled(&bytes);
        assert_eq!(b.get_var_i32(), (n, bytes.len() as i32));
        assert_eq!(b.readable_bytes(), 0);
    }
}

#[test]
fn var_i32_size_table() {
    assert_eq!(get_var_i32_size(0), 1);
    assert_eq!(get_var_i32_size(127), 1);
    assert_eq!(get_var_i32_size(128), 2);
    assert_eq!(get_var_i32_size(16383), 2);
    assert_eq!(get_var_i32_size(16384), 3);
    assert_eq!(get_var_i32_size(2097151), 3);
    assert_eq!(get_var_i32_size(2097152), 4);
    assert_eq!(get_var_i32_size(268435455), 4);
    assert_eq!(get_var_i32_size(268435456), 5);
    assert_eq!(get_var_i32_size(-1), 5);
}

#[test]
fn var_i32_limit_failures_take_nothing() {
    // over-length: six continuation bytes
    let mut b = filled(&[0x80, 0x80, 0x80, 0x80, 0x80, 0x01]);
    assert_eq!(b.get_var_i32_limit(10), None);
    assert_eq!(b.readable_bytes(), 6);
    // truncated
    let mut b = filled(&[0x80, 0x80]);
    assert_eq!(b.get_var_i32_limit(5), None);
    assert_eq!(b.readable_bytes(), 2);
    // limited to three bytes
    let mut b = filled(&[0x80, 0x80, 0x80, 0x01]);
    assert_eq!(b.get_var_i32_limit(3), None);
    let mut b = filled(&[0x80, 0x80, 0x01, 0x05]);
    assert_eq!(b.get_var_i32_limit(3), Some((16384, 3)));
    assert_eq!(b.readable_bytes(), 1);
}

#[test]
fn var_i64_round_trip() {
    for n in [0i64, 1, 300, i64::MAX, -1, i64::MIN] {
        let mut b = IndexedVec::new();
        b.put_var_i64(n);
        let len = b.readable_bytes() as i64;
        assert!(len <= 10);
        assert_eq!(b.get_var_i64(), (n, len));
    }
    let mut b = IndexedVec::new();
    b.put_var_i64(-1);
    assert_eq!(b.readable_bytes(), 10);
}

#[test]
fn fixed_width_big_endian() {
    let mut b = IndexedVec::new();
    b.put_u16(25565);
    b.put_i16(-3);
    b.put_i32(-2);
    b.put_i64(0x0102030405060708);
    b.put_u128(1);
    let bytes = b.as_slice().to_vec();
    assert_eq!(&bytes[0..2], &[0x63, 0xdd]);
    assert_eq!(&bytes[2..4], &[0xff, 0xfd]);
    assert_eq!(&bytes[4..8], &[0xff, 0xff, 0xff, 0xfe]);
    assert_eq!(&bytes[8..16], &[1, 2, 3, 4, 5, 6, 7, 8]);
    assert_eq!(bytes[16..32].iter().filter(|x| **x == 0).count(), 15);
    assert_eq!(bytes[31], 1);
    assert_eq!(b.get_u16(), 25565);
    assert_eq!(b.get_i16(), -3);
    assert_eq!(b.get_i32(), -2);
    assert_eq!(b.get_i64(), 0x0102030405060708);
    assert_eq!(b.get_u128(), 1);
}

#[test]
fn bools_and_strings() {
    let mut b = IndexedVec::new();
    b.put_bool(true);
    b.put_bool(false);
    b.put_string("localhost");
    assert_eq!(b.as_slice()[..3].to_vec(), vec![1, 0, 9]);
    assert_eq!(&b.as_slice()[3..], b"localhost");
    assert!(b.get_bool());
    assert!(!b.get_bool());
    assert_eq!(b.get_string(), Some("localhost".to_string()));
    assert_eq!(b.get_string(), None);
}

#[test]
fn strings_decode_lossily_and_reject_truncation() {
    let mut b = filled(&[2, 0xff, b'a']);
    assert_eq!(b.get_string(), Some("\u{fffd}a".to_string()));
    let mut b = filled(&[5, b'a', b'b']);
    assert_eq!(b.get_string(), None);
    assert_eq!(b.readable_bytes(), 3);
    let mut b = IndexedVec::new();
    b.put_string("h\u{e9}");
    assert_eq!(b.as_slice(), &[3, b'h', 0xc3, 0xa9]);
    assert_eq!(b.get_string(), Some("h\u{e9}".to_string()));
}

#[test]
fn byte_arrays_and_rest() {
    let mut b = IndexedVec::new();
    b.put_byte_array(&[9, 8, 7]);
    b.put_slice(&[1, 2]);
    assert_eq!(b.as_slice(), &[3, 9, 8, 7, 1, 2]);
    assert_eq!(b.get_byte_array(), Some(vec![9, 8, 7]));
    assert_eq!(b.get_rest(), vec![1, 2]);
}

#[test]
fn indexed_vec_cursors_and_growth() {
    let mut b = IndexedVec::new();
    assert_eq!(b.len(), 256);
    assert_eq!(b.get_writer_index(), 0);
    b.advance_writer_index(250);
    b.ensure_writable(10);
    assert!(b.len() >= 260);
    assert_eq!(b.len(), 512);
    b.advance_reader_index(200);
    assert_eq!(b.readable_bytes(), 50);
    b.reset_reader();
    assert_eq!(b.get_reader_index(), 0);
    b.reset_writer();
    assert_eq!(b.get_writer_index(), 0);
    b.set_writer_index(5);
    b.set_reader_index(2);
    assert_eq!(b.readable_bytes(), 3);
    b.reset();
    assert_eq!(b.readable_bytes(), 0);
    let mut e = IndexedVec::with_len(0);
    e.reallocate(3);
    assert_eq!(e.len(), 3);
    let mut d = IndexedVec::with_len(4);
    d.reallocate(5);
    assert_eq!(d.len(), 12);
}

#[test]
fn put_grows_past_allocation() {
    let mut b = IndexedVec::with_len(2);
    b.put_slice(&[1, 2, 3, 4, 5]);
    assert_eq!(b.as_slice(), &[1, 2, 3, 4, 5]);
    assert_eq!(b.get_u8(), 1);
    assert_eq!(b.as_slice(), &[2, 3, 4, 5]);
}
