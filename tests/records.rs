use wisckey::error::Error;
use wisckey::value::{Entry, EntryHeader, Value, ValueHeader, ValuePointer};

#[test]
fn structs_test_header_encode() {
    let h = ValueHeader {
        klen: 255 + 256,
        vlen: 255 + 256 + 256 * 256,
    };
    let mut buf = Vec::new();
    let len = h.encode(&mut buf);
    assert_eq!(8, len);
    assert_eq!(vec![0u8, 0, 1, 255, 0, 1, 1, 255], buf);
}

#[test]
fn structs_test_entry_encode() {
    let entry = Value {
        key: vec![1, 2, 3, 4],
        value: vec![5, 6, 7, 8, 9, 10],
    };
    let mut buf = Vec::new();
    let len = entry.encode(&mut buf).unwrap();
    assert_eq!(8 + entry.key.len() + entry.value.len() + 4, len as usize);
    assert_eq!(
        vec![1u8, 2, 3, 4, 5, 6, 7, 8, 9, 10],
        &buf[8..(buf.len() - 4)]
    );
}

#[test]
fn write_test_header_encode() {
    let h = EntryHeader {
        klen: 255 + 256,
        vlen: 255 + 256 + 256 * 256,
    };
    let mut buf = Vec::new();
    let len = h.encode(&mut buf);
    assert_eq!(8, len);
    assert_eq!(vec![0u8, 0, 1, 255, 0, 1, 1, 255], buf);
}

#[test]
fn write_test_entry_encode() {
    let entry = Entry::new(&[1, 2, 3, 4], &[5, 6, 7, 8, 9, 10]);
    let mut buf = Vec::new();
    let len = entry.encode(&mut buf).unwrap();
    assert_eq!(8 + entry.key().len() + entry.value().len() + 4, len as usize);
    assert_eq!(vec![1u8, 2, 3, 4, 5, 6, 7, 8, 9, 10], &buf[8..(buf.len() - 4)]);
}

#[test]
fn record_checksum_is_crc32c_of_header_key_and_value() {
    let v = Value::new(b"123", b"456789");
    let mut buf = Vec::new();
    v.encode(&mut buf).unwrap();
    let body = &buf[..buf.len() - 4];
    let crc = crc::crc32::checksum_castagnoli(body);
    assert_eq!(crc.to_be_bytes().to_vec(), buf[buf.len() - 4..].to_vec());
    // the checksum of "123456789" alone is the well-known 0xE3069283;
    // the stored one also covers the header, so it differs from it
    assert_ne!(0xE306_9283u32.to_be_bytes().to_vec(), buf[buf.len() - 4..].to_vec());
}

#[test]
fn record_round_trip() {
    let v = Value::new(b"some key", b"some value");
    let mut buf = Vec::new();
    let n = v.encode(&mut buf).unwrap();
    assert_eq!(n as usize, buf.len());
    assert_eq!(Value::decode(&buf), Ok(v));
}

#[test]
fn record_round_trip_empty_key_and_value() {
    let v = Value::new(b"", b"");
    let mut buf = Vec::new();
    assert_eq!(v.encode(&mut buf), Ok(12));
    assert_eq!(Value::decode(&buf), Ok(v));
}

#[test]
fn record_decode_ignores_trailing_bytes() {
    let v = Value::new(b"k", b"v");
    let mut buf = Vec::new();
    v.encode(&mut buf).unwrap();
    buf.extend_from_slice(&[9, 9, 9]);
    assert_eq!(Value::decode(&buf), Ok(v));
}

#[test]
fn record_bit_flip_is_corrupt() {
    let v = Value::new(b"key", b"value");
    let mut buf = Vec::new();
    v.encode(&mut buf).unwrap();
    buf[9] ^= 0x01;
    assert_eq!(Value::decode(&buf), Err(Error::CorruptRecord));
}

#[test]
fn record_truncated_is_unexpected_eof() {
    let v = Value::new(b"key", b"value");
    let mut buf = Vec::new();
    v.encode(&mut buf).unwrap();
    assert_eq!(Value::decode(&buf[..buf.len() - 1]), Err(Error::UnexpectedEof));
    assert_eq!(Value::decode(&buf[..5]), Err(Error::UnexpectedEof));
    assert_eq!(Value::decode(&[]), Err(Error::UnexpectedEof));
}

#[test]
fn header_decode_reads_both_lengths() {
    let h = ValueHeader::decode(&[0, 0, 1, 255, 0, 1, 1, 255]).unwrap();
    assert_eq!(h, ValueHeader { klen: 511, vlen: 66047 });
    assert_eq!(ValueHeader::decode(&[0, 0, 1]), Err(Error::UnexpectedEof));
}

#[test]
fn pointer_layout_is_fid_len_offset() {
    let p = ValuePointer::new(1, 0x0203_0405, 0x0a0b);
    assert_eq!(p.fid(), 1);
    assert_eq!(p.offset(), 0x0203_0405);
    assert_eq!(p.len(), 0x0a0b);
    let mut buf = Vec::new();
    assert_eq!(p.encode(&mut buf), 12);
    assert_eq!(buf, vec![0, 0, 0, 1, 0, 0, 0x0a, 0x0b, 2, 3, 4, 5]);
    assert_eq!(ValuePointer::decode(&buf), Ok(p));
    assert_eq!(ValuePointer::decode(&buf[..11]), Err(Error::UnexpectedEof));
}
