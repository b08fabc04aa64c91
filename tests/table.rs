use wisckey::block::{Block, SeekFrom};
use wisckey::error::Error;
use wisckey::table::Table;

fn record(out: &mut Vec<u8>, plen: u16, diff: &[u8], value: &[u8], prev: u32) {
    out.extend_from_slice(&plen.to_be_bytes());
    out.extend_from_slice(&(diff.len() as u16).to_be_bytes());
    out.extend_from_slice(&(value.len() as u16).to_be_bytes());
    out.extend_from_slice(&prev.to_be_bytes());
    out.extend_from_slice(&[0u8; 6]);
    out.extend_from_slice(diff);
    out.extend_from_slice(value);
}

fn block_one() -> Vec<u8> {
    let mut b = Vec::new();
    record(&mut b, 0, b"apple", b"1", 0);
    record(&mut b, 2, b"ricot", b"2", 0);
    b
}

fn block_two() -> Vec<u8> {
    let mut b = Vec::new();
    record(&mut b, 0, b"banana", b"3", 0);
    record(&mut b, 3, b"d", b"4", 22);
    // padding: a header with plen = klen = 0 ends the block
    b.extend_from_slice(&[0u8; 16]);
    b
}

fn table_bytes(blocks: &[Vec<u8>], bloom: &[u8]) -> Vec<u8> {
    let mut out = Vec::new();
    let mut restarts = Vec::new();
    for b in blocks {
        restarts.push(out.len() as u32);
        out.extend_from_slice(b);
    }
    for r in &restarts {
        out.extend_from_slice(&r.to_be_bytes());
    }
    out.extend_from_slice(&(restarts.len() as u32).to_be_bytes());
    out.extend_from_slice(bloom);
    out.extend_from_slice(&(bloom.len() as u32).to_be_bytes());
    out
}

fn map(bytes: &[u8]) -> memmap::Mmap {
    let mut m = memmap::MmapMut::map_anon(bytes.len()).unwrap();
    m.copy_from_slice(bytes);
    m.make_read_only().unwrap()
}

#[test]
fn table_iterates_every_record_in_order() {
    let bytes = table_bytes(&[block_one(), block_two()], &[0xaa, 0xbb, 0xcc]);
    let t = Table::open(7, map(&bytes)).unwrap();
    assert_eq!(t.id(), 7);
    assert_eq!(t.size(), bytes.len() as u64);
    assert_eq!(t.block_count(), 2);
    assert_eq!(t.block_prefix(0), b"apple");
    assert_eq!(t.block_prefix(1), b"banana");
    let mut it = t.iter();
    let mut keys = Vec::new();
    while let Some((k, v)) = it.next() {
        keys.push((k, v));
    }
    assert_eq!(
        keys,
        vec![
            (b"apple".to_vec(), b"1".to_vec()),
            (b"apricot".to_vec(), b"2".to_vec()),
            (b"banana".to_vec(), b"3".to_vec()),
            (b"band".to_vec(), b"4".to_vec()),
        ]
    );
    assert!(it.err().is_none());
    assert!(it.next().is_none());
    it.reset();
    assert_eq!(it.next(), Some((b"apple".to_vec(), b"1".to_vec())));
}

#[test]
fn table_block_borrows_its_bytes() {
    let bytes = table_bytes(&[block_one(), block_two()], &[]);
    let t = Table::open(1, map(&bytes)).unwrap();
    let b = t.block(1);
    assert_eq!(b.len(), block_two().len());
    assert_eq!(b.bytes(), &block_two()[..]);
}

#[test]
fn table_with_no_blocks() {
    let bytes = table_bytes(&[], &[1, 2]);
    let t = Table::open(1, map(&bytes)).unwrap();
    assert_eq!(t.block_count(), 0);
    assert!(t.iter().next().is_none());
}

#[test]
fn corrupt_trailers_are_refused() {
    // too short for the two trailer integers
    assert!(Table::open(1, map(&[0, 0, 0, 0])).is_err());
    // a bloom filter longer than the file
    let mut bytes = table_bytes(&[block_one()], &[]);
    let n = bytes.len();
    bytes[n - 4..].copy_from_slice(&1000u32.to_be_bytes());
    assert_eq!(Table::open(1, map(&bytes)).err(), Some(Error::CorruptTable));
    // restarts out of order
    let mut bytes = table_bytes(&[block_one(), block_two()], &[]);
    let n = bytes.len();
    let first = n - 16;
    bytes[first..first + 4].copy_from_slice(&200u32.to_be_bytes());
    assert_eq!(Table::open(1, map(&bytes)).err(), Some(Error::CorruptTable));
}

#[test]
fn block_whose_first_record_shares_a_prefix_is_refused() {
    let mut b = Vec::new();
    record(&mut b, 1, b"pple", b"1", 0);
    let bytes = table_bytes(&[b], &[]);
    assert_eq!(Table::open(1, map(&bytes)).err(), Some(Error::CorruptTable));
}

#[test]
fn block_iterator_reconstructs_keys_from_base() {
    let data = block_one();
    let mut it = Block::new(&data).into_iter();
    assert_eq!(it.next(), Some((b"apple".to_vec(), b"1".to_vec())));
    assert_eq!(it.next(), Some((b"apricot".to_vec(), b"2".to_vec())));
    assert_eq!(it.next(), None);
    assert_eq!(it.err(), None);
}

#[test]
fn block_iterator_stops_at_padding() {
    let data = block_two();
    let mut it = Block::new(&data).into_iter();
    assert!(it.next().is_some());
    assert_eq!(it.next(), Some((b"band".to_vec(), b"4".to_vec())));
    assert_eq!(it.next(), None);
    assert_eq!(it.err(), None);
}

#[test]
fn block_iterator_latches_key_overrun() {
    let mut data = Vec::new();
    record(&mut data, 0, b"apple", b"1", 0);
    data.extend_from_slice(&[0, 0, 0, 50, 0, 1, 0, 0, 0, 0, 0, 0, 0, 0, 0, 0, b'x']);
    let mut it = Block::new(&data).into_iter();
    assert!(it.next().is_some());
    assert_eq!(it.next(), None);
    assert_eq!(
        it.err(),
        Some(Error::KeyExceedSizeOfBlock { pos: 38, block_len: 39 })
    );
    assert_eq!(it.next(), None);
    it.reset();
    assert_eq!(it.err(), None);
    assert!(it.next().is_some());
}

#[test]
fn block_iterator_latches_value_overrun() {
    let mut data = Vec::new();
    record(&mut data, 0, b"apple", b"1", 0);
    data.extend_from_slice(&[0, 1, 0, 1, 0, 9, 0, 0, 0, 0, 0, 0, 0, 0, 0, 0, b'x']);
    let mut it = Block::new(&data).into_iter();
    assert!(it.next().is_some());
    assert_eq!(it.next(), None);
    assert_eq!(
        it.err(),
        Some(Error::ValueExceedSizeOfBlock { pos: 39, block_len: 39 })
    );
}

#[test]
fn block_iterator_seek() {
    let data = block_one();
    let mut it = Block::new(&data).into_iter();
    assert_eq!(it.seek(b"apr", SeekFrom::Start), Some((b"apricot".to_vec(), b"2".to_vec())));
    assert_eq!(it.next(), None);
    assert_eq!(it.seek(b"a", SeekFrom::Start), Some((b"apple".to_vec(), b"1".to_vec())));
    assert_eq!(it.seek(b"a", SeekFrom::Current), Some((b"apricot".to_vec(), b"2".to_vec())));
    assert_eq!(it.seek(b"b", SeekFrom::Start), None);
}

#[test]
fn table_iterator_latches_block_error() {
    let mut bad = Vec::new();
    record(&mut bad, 0, b"cat", b"5", 0);
    bad.extend_from_slice(&[0, 9, 0, 1, 0, 0, 0, 0, 0, 0, 0, 0, 0, 0, 0, 0, b'x']);
    let bytes = table_bytes(&[block_one(), bad, block_two()], &[]);
    let t = Table::open(1, map(&bytes)).unwrap();
    let mut it = t.iter();
    assert!(it.next().is_some());
    assert!(it.next().is_some());
    assert_eq!(it.next(), Some((b"cat".to_vec(), b"5".to_vec())));
    assert_eq!(it.next(), None);
    assert_eq!(it.err(), Some(Error::CorruptTable));
    assert_eq!(it.next(), None);
}
