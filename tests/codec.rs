use grimstone::codec::{Buffer, Error, Readable, Writable};

fn var_int_bytes(v: i32) -> Vec<u8> {
    let mut b = Buffer::new();
    b.write_var_int(v);
    b.bytes
}

#[test]
fn var_int_canonical_encodings() {
    assert_eq!(var_int_bytes(0), vec![0x00]);
    assert_eq!(var_int_bytes(127), vec![0x7f]);
    assert_eq!(var_int_bytes(128), vec![0x80, 0x01]);
    assert_eq!(var_int_bytes(-1), vec![0xff, 0xff, 0xff, 0xff, 0x0f]);
    assert_eq!(var_int_bytes(25565), vec![0xdd, 0xc7, 0x01]);
}

#[test]
fn var_int_round_trip_and_length() {
    let cases: Vec<(i32, usize)> = vec![
        (0, 1),
        (1, 1),
        (127, 1),
        (128, 2),
        (16383, 2),
        (16384, 3),
        (2097151, 3),
        (2097152, 4),
        (268435455, 4),
        (268435456, 5),
        (i32::MAX, 5),
        (i32::MIN, 5),
        (-1, 5),
        (-128, 5),
    ];
    for (v, len) in cases {
        let mut b = Buffer::new();
        assert_eq!(b.write_var_int(v), len);
        assert_eq!(b.len(), len);
        b.bytes.push(0x42);
        assert_eq!(b.read_var_int().unwrap(), v);
        assert_eq!(b.bytes, vec![0x42]);
    }
}

#[test]
fn var_long_round_trip_and_length() {
    let cases: Vec<(i64, usize)> = vec![
        (0, 1),
        (300, 2),
        (i64::MAX, 9),
        (-1, 10),
        (i64::MIN, 10),
    ];
    for (v, len) in cases {
        let mut b = Buffer::new();
        assert_eq!(b.write_var_long(v), len);
        assert_eq!(b.read_var_long().unwrap(), v);
        assert_eq!(b.len(), 0);
    }
    let mut b = Buffer::new();
    b.write_var_long(300);
    assert_eq!(b.bytes, vec![0xac, 0x02]);
}

#[test]
fn var_int_bounded_to_five_bytes() {
    let mut b = Buffer::from_slice(&[0x80, 0x80, 0x80, 0x80, 0x80, 0x01]);
    assert!(matches!(b.read_var_int(), Err(Error::VarIntTooLong)));
    assert_eq!(b.len(), 6);
    let mut c = Buffer::from_slice(&[0x80, 0x80]);
    assert!(matches!(c.read_var_int(), Err(Error::Disconnected)));
    let mut d = Buffer::from_slice(&[0xff; 10]);
    assert!(matches!(d.read_var_long(), Err(Error::VarIntTooLong)));
}

#[test]
fn big_endian_round_trip() {
    let mut b = Buffer::new();
    b.write_u8(0xab);
    b.write_u16(0x1234);
    b.write_u32(0xdead_beef);
    b.write_u64(0x0102_0304_0506_0708);
    b.write_u128(u128::MAX - 5);
    b.write_i8(-3);
    b.write_i16(-2);
    b.write_i32(-2);
    b.write_i64(i64::MIN);
    b.write_i128(-7);
    assert_eq!(&b.bytes[0..7], &[0xab, 0x12, 0x34, 0xde, 0xad, 0xbe, 0xef]);
    assert_eq!(&b.bytes[7..15], &[1, 2, 3, 4, 5, 6, 7, 8]);
    assert_eq!(b.read_u8().unwrap(), 0xab);
    assert_eq!(b.read_u16().unwrap(), 0x1234);
    assert_eq!(b.read_u32().unwrap(), 0xdead_beef);
    assert_eq!(b.read_u64().unwrap(), 0x0102_0304_0506_0708);
    assert_eq!(b.read_u128().unwrap(), u128::MAX - 5);
    assert_eq!(b.read_i8().unwrap(), -3);
    assert_eq!(b.read_i16().unwrap(), -2);
    assert_eq!(b.read_i32().unwrap(), -2);
    assert_eq!(b.read_i64().unwrap(), i64::MIN);
    assert_eq!(b.read_i128().unwrap(), -7);
    assert_eq!(b.len(), 0);
}

#[test]
fn signed_big_endian_bytes() {
    let mut b = Buffer::new();
    b.write_i32(-2);
    assert_eq!(b.bytes, vec![0xff, 0xff, 0xff, 0xfe]);
}

#[test]
fn short_read_is_disconnected() {
    let mut b = Buffer::from_slice(&[1, 2, 3]);
    assert!(matches!(b.read_u32(), Err(Error::Disconnected)));
    assert_eq!(b.len(), 3);
    assert!(matches!(b.take_bytes(4), Err(Error::Disconnected)));
    assert_eq!(b.take_bytes(2).unwrap(), vec![1, 2]);
    assert_eq!(b.bytes, vec![3]);
}

#[test]
fn string_round_trip() {
    let s = "héllo, wörld";
    let n = s.len();
    let mut b = Buffer::new();
    assert_eq!(b.write_string(s), 1 + n);
    assert_eq!(b.bytes[0] as usize, n);
    let mut c = Buffer::from_slice(&b.bytes);
    assert_eq!(c.read_string(n + 1).unwrap(), s);
    assert_eq!(c.len(), 0);
    let mut d = Buffer::from_slice(&b.bytes);
    match d.read_string(n) {
        Err(Error::StringTooLong(len, max, _)) => {
            assert_eq!(len, n);
            assert_eq!(max, n);
        }
        other => panic!("unexpected {:?}", other),
    }
}

#[test]
fn string_rejects_bad_utf8() {
    let mut b = Buffer::from_slice(&[0x02, 0xc3, 0x28]);
    assert!(matches!(b.read_string(10), Err(Error::InvalidUtf8)));
    let mut c = Buffer::from_slice(&[0x05, b'a', b'b']);
    assert!(matches!(c.read_string(10), Err(Error::Disconnected)));
}

#[test]
fn buffer_as_sink_and_source() {
    let mut b = Buffer::new();
    assert_eq!(Writable::write(&mut b, &[1, 2, 3]).unwrap(), 3);
    assert_eq!(Readable::read(&mut b, 2).unwrap(), vec![1, 2]);
    assert!(matches!(Readable::read(&mut b, 2), Err(Error::Disconnected)));
    assert_eq!(b.bytes, vec![3]);
}
