use tinikeyval::rdb::{crc64, write_le8, write_size, write_string, write_string_int};

#[test]
fn size() {
    let mut buf = Vec::new();
    assert!(write_size(&mut buf, 63));
    assert_eq!(buf, &[63], "len <= 63");

    let mut buf = Vec::new();
    assert!(write_size(&mut buf, 64));
    assert_eq!(buf, &[0b01000000, 64], "len == 64");

    let mut buf = Vec::new();
    assert!(write_size(&mut buf, 16383));
    assert_eq!(buf, &[0b01111111, 0xFF], "len <= 16383");

    let mut buf = Vec::new();
    assert!(write_size(&mut buf, 16384));
    assert_eq!(buf, &[0x80, 0, 0, 0x40, 0x00], "len > 16383");
}

#[test]
fn writer_string() {
    let mut buf = Vec::new();
    assert!(write_string(&mut buf, &b"foo".to_vec()));
    assert!(write_string(&mut buf, &b"bar".to_vec()));
    assert_eq!(buf, &[0x03, 0x66, 0x6F, 0x6F, 0x03, 0x62, 0x61, 0x72]);
}

#[test]
fn string_int() {
    let mut buf = Vec::new();
    write_string_int(&mut buf, 12345);
    assert_eq!(buf, &[0xC1, 0x39, 0x30]);

    let mut buf = Vec::new();
    write_string_int(&mut buf, 1234567);
    assert_eq!(buf, &[0xC2, 0x87, 0xD6, 0x12, 0x00]);

    let mut buf = Vec::new();
    write_string_int(&mut buf, -12345);
    assert_eq!(buf, &[0xC1, 0xC7, 0xCF]);

    let mut buf = Vec::new();
    write_string_int(&mut buf, 7);
    assert_eq!(buf, &[0xC0, 7]);
}

#[test]
fn crc64_matches_the_crate() {
    // the trusted digest must agree with a direct call
    let payload = b"REDIS0011test-payload";
    let direct = crc_fast::checksum(crc_fast::CrcAlgorithm::Crc64Redis, payload);
    assert_eq!(crc64(payload), direct);
    // and the known check value of the Redis CRC64 variant
    assert_eq!(crc64(b"123456789"), 0xe9c6d914c4b8d9ca);
}

#[test]
fn le8_bytes() {
    let mut buf = Vec::new();
    write_le8(&mut buf, 0x0102030405060708);
    assert_eq!(buf, &[8, 7, 6, 5, 4, 3, 2, 1]);
}

#[test]
fn rdb_string() {
    let bytes = [
        0x0Du8, 0x48, 0x65, 0x6C, 0x6C, 0x6F, 0x2C, 0x20, 0x57, 0x6F, 0x72, 0x6C, 0x64, 0x21,
    ];
    let (v, n) = tinikeyval::rdb::read_length_encoded_string(&bytes, 0).unwrap();
    assert_eq!(n, 14);
    assert_eq!(v, b"Hello, World!".to_vec());

    let bytes = [0x06u8, 0x66, 0x6F, 0x6F, 0x62, 0x61, 0x72];
    let (v, _) = tinikeyval::rdb::read_length_encoded_string(&bytes, 0).unwrap();
    assert_eq!(v, b"foobar".to_vec());
}

#[test]
fn string_int8() {
    let bytes = [0xC0u8, 0x7B];
    let (v, n) = tinikeyval::rdb::read_length_encoded_string(&bytes, 0).unwrap();
    assert_eq!(n, 2);
    assert_eq!(v, b"123".to_vec());
}

#[test]
fn string_int16() {
    let bytes = [0xC1u8, 0x39, 0x30];
    let (v, _) = tinikeyval::rdb::read_length_encoded_string(&bytes, 0).unwrap();
    assert_eq!(v, b"12345".to_vec());
}

#[test]
fn string_int32() {
    let bytes = [0xC2u8, 0x87, 0xD6, 0x12, 0x00];
    let (v, _) = tinikeyval::rdb::read_length_encoded_string(&bytes, 0).unwrap();
    assert_eq!(v, b"1234567".to_vec());
}

#[test]
fn read_key_expiry_prefixes() {
    // one key with a millisecond expiry (0xFC) and one with a second expiry
    // (0xFD), parsed through a whole file
    let mut body: Vec<u8> = b"REDIS0011".to_vec();
    body.extend_from_slice(&[0xFE, 0x00, 0xFB, 0x02, 0x02]);
    body.push(0xFC);
    body.extend_from_slice(&1713824559637u64.to_le_bytes());
    body.extend_from_slice(&[0x00, 0x03, b'f', b'o', b'o', 0x03, b'b', b'a', b'r']);
    body.push(0xFD);
    body.extend_from_slice(&1713824559u32.to_le_bytes());
    body.extend_from_slice(&[0x00, 0x03, b'b', b'a', b'z', 0x03, b'q', b'u', b'x']);
    body.push(0xFF);
    let sum = tinikeyval::rdb::crc64(&body);
    tinikeyval::rdb::write_le8(&mut body, sum);
    let f = tinikeyval::rdb::parse_rdb(&body).unwrap();
    assert_eq!(f.entries.len(), 2);
    assert_eq!(f.entries[0].0, b"foo".to_vec());
    assert_eq!(f.entries[0].2, Some(1713824559637));
    assert_eq!(f.entries[1].0, b"baz".to_vec());
    assert_eq!(f.entries[1].2, Some(1713824559000));
}

#[test]
fn parse_rdb_literal_file() {
    let raw: Vec<u8> = vec![
        82, 69, 68, 73, 83, 48, 48, 49, 49, 250, 10, 118, 97, 108, 107, 101, 121, 45, 118, 101,
        114, 5, 56, 46, 49, 46, 51, 250, 10, 114, 101, 100, 105, 115, 45, 98, 105, 116, 115, 192,
        64, 250, 5, 99, 116, 105, 109, 101, 194, 235, 144, 225, 104, 250, 8, 117, 115, 101, 100,
        45, 109, 101, 109, 194, 64, 0, 18, 0, 250, 8, 97, 111, 102, 45, 98, 97, 115, 101, 192, 0,
        254, 0, 251, 3, 1, 0, 3, 102, 111, 111, 3, 98, 97, 114, 0, 5, 99, 111, 117, 110, 116, 193,
        140, 60, 252, 192, 128, 30, 177, 153, 1, 0, 0, 0, 3, 98, 97, 114, 3, 98, 97, 120, 255, 15,
        57, 201, 59, 63, 77, 52, 99,
    ];
    let f = tinikeyval::rdb::parse_rdb(&raw).unwrap();
    assert_eq!(f.version, b"0011".to_vec());
    assert_eq!(f.metadata.len(), 5);
    assert_eq!(f.metadata[0].0, b"valkey-ver".to_vec());
    assert_eq!(f.metadata[0].1, b"8.1.3".to_vec());
    assert_eq!(f.entries.len(), 3);
    assert_eq!(f.entries[0].0, b"foo".to_vec());
    assert!(matches!(&f.entries[0].1, tinikeyval::rdb::RdbValue::Str(v) if v == &b"bar".to_vec()));
    assert_eq!(f.entries[0].2, None);
    assert_eq!(f.entries[1].0, b"count".to_vec());
    assert!(matches!(&f.entries[1].1, tinikeyval::rdb::RdbValue::Str(v) if v == &b"15500".to_vec()));
    assert_eq!(f.entries[2].0, b"bar".to_vec());
    assert!(matches!(&f.entries[2].1, tinikeyval::rdb::RdbValue::Str(v) if v == &b"bax".to_vec()));
    assert_eq!(f.entries[2].2, Some(1759613190336));
}
