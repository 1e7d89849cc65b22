use rustyzip::ioutil::{
    pack_str, pack_u16_be, pack_u32_be, pack_u64_be, pack_u8, to_strz, trunc_bytes, unpack_u16_be,
    unpack_u32_be, unpack_u64_be, unpack_u8,
};

#[test]
fn test() {
    let mut buf = vec![0u8; 16];

    let mut offset = pack_u8(&mut buf, 0, 1);
    offset = pack_u8(&mut buf, offset, 2);
    assert_eq!(offset, 2);
    assert_eq!(buf[0], 1);
    assert_eq!(buf[1], 2);

    let offset = pack_u16_be(&mut buf, 0, 0x0102);
    assert_eq!(offset, 2);
    assert_eq!(buf[0], 1);
    assert_eq!(buf[1], 2);

    let offset = pack_str(&mut buf, 0, &b"ABCD".to_vec());
    assert_eq!(offset, 4);
    assert_eq!(buf[0], b'A');
    assert_eq!(buf[1], b'B');
    assert_eq!(buf[2], b'C');
    assert_eq!(buf[3], b'D');

    pack_u16_be(&mut buf, 0, 12345);
    assert_eq!(unpack_u16_be(&buf, 0), 12345);

    pack_u32_be(&mut buf, 0, 12345678);
    assert_eq!(unpack_u32_be(&buf, 0), 12345678);

    pack_u64_be(&mut buf, 0, 12345678901234);
    assert_eq!(unpack_u64_be(&buf, 0), 12345678901234);
}

#[test]
fn le_roundtrips() {
    let mut buf = vec![0u8; 16];
    rustyzip::ioutil::pack_u16_le(&mut buf, 3, 0xBEEF);
    assert_eq!(rustyzip::ioutil::unpack_u16_le(&buf, 3), 0xBEEF);
    assert_eq!(buf[3], 0xEF);
    assert_eq!(buf[4], 0xBE);
    rustyzip::ioutil::pack_u32_le(&mut buf, 5, 0xDEADBEEF);
    assert_eq!(rustyzip::ioutil::unpack_u32_le(&buf, 5), 0xDEADBEEF);
    assert_eq!(buf[5], 0xEF);
    assert_eq!(buf[8], 0xDE);
    rustyzip::ioutil::pack_u64_le(&mut buf, 0, 0x0102030405060708);
    assert_eq!(rustyzip::ioutil::unpack_u64_le(&buf, 0), 0x0102030405060708);
    assert_eq!(unpack_u8(&buf, 0), 8);

    let z = to_strz(&b"name".to_vec());
    assert_eq!(z, vec![b'n', b'a', b'm', b'e', 0]);

    let four = vec![0x01u8, 0x02, 0x03, 0x04, 0x05];
    assert_eq!(trunc_bytes(&four), 0x01020304);
}
