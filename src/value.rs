//! Value-log records and the pointers that locate them.
//!
//! A record is laid out as `klen:u32 ‖ vlen:u32 ‖ key ‖ value ‖ crc:u32`,
//! integers big-endian, where `crc` is the CRC-32C of everything before it.
//! A pointer is the 12 bytes `fid ‖ len ‖ offset`, big-endian.
use vstd::prelude::*;
use crate::bytes::{
    be32, be32_bytes, extend_bytes, lemma_be32_bytes_of, lemma_be32_round_trip, read_u32_be,
    write_u32_be,
};
use crate::checksum::{crc32c, crc32c_of};
use crate::error::Error;

verus! {

/// Length of a record's header.
pub const HEADER_SIZE: u32 = 8;

/// Length of an encoded value pointer.
pub const POINTER_SIZE: u32 = 12;

/// Header, key and value of a record: the bytes that its checksum covers.
pub open spec fn record_body(k: Seq<u8>, v: Seq<u8>) -> Seq<u8> {
    be32_bytes(k.len() as u32) + be32_bytes(v.len() as u32) + k + v
}

/// The encoded record of key `k` and value `v`.
pub open spec fn record_bytes(k: Seq<u8>, v: Seq<u8>) -> Seq<u8> {
    record_body(k, v) + be32_bytes(crc32c(record_body(k, v)))
}

/// Whether the record of `k` and `v` has a length that a `u32` can hold.
pub open spec fn record_fits(k: Seq<u8>, v: Seq<u8>) -> bool {
    12 + k.len() + v.len() <= u32::MAX
}

/// What decoding the record at the start of `b` gives: its key and value,
/// or why there is none. Bytes after the record are ignored.
pub open spec fn decode_record(b: Seq<u8>) -> Result<(Seq<u8>, Seq<u8>), Error> {
    if b.len() < 8 {
        Err(Error::UnexpectedEof)
    } else {
        let klen = be32(b.subrange(0, 4)) as int;
        let vlen = be32(b.subrange(4, 8)) as int;
        let end = 8 + klen + vlen;
        if b.len() < end + 4 {
            Err(Error::UnexpectedEof)
        } else if be32(b.subrange(end, end + 4)) != crc32c(b.subrange(0, end)) as nat {
            Err(Error::CorruptRecord)
        } else {
            Ok((b.subrange(8, 8 + klen), b.subrange(8 + klen, end)))
        }
    }
}

/// A key and its value, as the value log stores them.
#[derive(Clone, Debug, PartialEq, Eq)]
pub struct Value {
    pub key: Vec<u8>,
    pub value: Vec<u8>,
}

impl View for Value {
    type V = (Seq<u8>, Seq<u8>);

    open spec fn view(&self) -> (Seq<u8>, Seq<u8>) {
        (self.key@, self.value@)
    }
}

/// The key and value of a decoded record, or the same error.
pub open spec fn value_result_view(r: Result<Value, Error>) -> Result<(Seq<u8>, Seq<u8>), Error> {
    match r {
        Ok(v) => Ok(v@),
        Err(e) => Err(e),
    }
}

/// A record queued for writing: the same as a stored one.
pub type Entry = Value;

/// The preamble of a record queued for writing.
pub type EntryHeader = ValueHeader;

/// The fixed preamble of a record: the lengths of its key and value.
#[derive(Clone, Copy, Debug, PartialEq, Eq, Structural)]
pub struct ValueHeader {
    pub klen: u32,
    pub vlen: u32,
}

impl ValueHeader {
    /// Appends the eight header bytes and returns their number.
    pub fn encode(&self, buf: &mut Vec<u8>) -> (r: u32)
        ensures
            r == HEADER_SIZE,
            final(buf)@ == old(buf)@ + be32_bytes(self.klen) + be32_bytes(self.vlen),
    {
        write_u32_be(buf, self.klen);
        write_u32_be(buf, self.vlen);
        assert(final(buf)@ =~= old(buf)@ + be32_bytes(self.klen) + be32_bytes(self.vlen));
        HEADER_SIZE
    }

    /// Reads the header at the start of `buf`.
    pub fn decode(buf: &[u8]) -> (r: Result<ValueHeader, Error>)
        ensures
            buf@.len() < 8 ==> r == Err::<ValueHeader, Error>(Error::UnexpectedEof),
            buf@.len() >= 8 ==> (r matches Ok(h) && h.klen as nat == be32(buf@.subrange(0, 4))
                && h.vlen as nat == be32(buf@.subrange(4, 8))),
    {
        if buf.len() < 8 {
            return Err(Error::UnexpectedEof);
        }
        let klen = read_u32_be(buf, 0);
        let vlen = read_u32_be(buf, 4);
        Ok(ValueHeader { klen, vlen })
    }
}

impl Value {
    /// A record holding copies of `key` and `value`.
    pub fn new(key: &[u8], value: &[u8]) -> (r: Value)
        ensures
            r@ == (key@, value@),
    {
        Value { key: vstd::slice::slice_to_vec(key), value: vstd::slice::slice_to_vec(value) }
    }

    /// The key.
    pub fn key(&self) -> (r: &[u8])
        ensures
            r@ == self.key@,
    {
        self.key.as_slice()
    }

    /// The value.
    pub fn value(&self) -> (r: &[u8])
        ensures
            r@ == self.value@,
    {
        self.value.as_slice()
    }

    /// The header that this record is written with.
    fn get_header(&self) -> (r: ValueHeader)
        requires
            record_fits(self.key@, self.value@),
        ensures
            r.klen == self.key@.len(),
            r.vlen == self.value@.len(),
    {
        ValueHeader { klen: self.key.len() as u32, vlen: self.value.len() as u32 }
    }

    /// Appends the encoded record to `buf` and returns its length, which is
    /// `12 + |key| + |value|`. A record whose length a `u32` cannot hold is
    /// refused with `RecordTooLarge` and nothing is appended.
    pub fn encode(&self, buf: &mut Vec<u8>) -> (r: Result<u32, Error>)
        ensures
            record_fits(self.key@, self.value@) ==> r == Ok::<u32, Error>(
                (12 + self.key@.len() + self.value@.len()) as u32,
            ) && final(buf)@ == old(buf)@ + record_bytes(self.key@, self.value@),
            !record_fits(self.key@, self.value@) ==> r == Err::<u32, Error>(Error::RecordTooLarge)
                && final(buf)@ == old(buf)@,
    {
        if self.key.len() > 0xffff_fff3 || self.value.len() > 0xffff_fff3 - self.key.len() {
            return Err(Error::RecordTooLarge);
        }
        let header = self.get_header();
        let mut body: Vec<u8> = Vec::new();
        let header_size = header.encode(&mut body);
        extend_bytes(&mut body, self.key.as_slice());
        extend_bytes(&mut body, self.value.as_slice());
        assert(body@ =~= record_body(self.key@, self.value@));
        let crc = crc32c_of(body.as_slice());
        extend_bytes(buf, body.as_slice());
        write_u32_be(buf, crc);
        assert(final(buf)@ =~= old(buf)@ + record_bytes(self.key@, self.value@));
        Ok(header_size + header.klen + header.vlen + 4)
    }

    /// Decodes the record at the start of `buf`, checking its checksum.
    /// Fails with `UnexpectedEof` where `buf` ends before the record does,
    /// and with `CorruptRecord` where the checksum does not match.
    pub fn decode(buf: &[u8]) -> (r: Result<Value, Error>)
        ensures
            value_result_view(r) == decode_record(buf@),
    {
        let header = match ValueHeader::decode(buf) {
            Ok(h) => h,
            Err(e) => return Err(e),
        };
        let end: u64 = 8 + header.klen as u64 + header.vlen as u64;
        if (buf.len() as u64) < end + 4 {
            return Err(Error::UnexpectedEof);
        }
        let k_end = 8 + header.klen as usize;
        let end = end as usize;
        let stored = read_u32_be(buf, end);
        let computed = crc32c_of(vstd::slice::slice_subrange(buf, 0, end));
        if stored != computed {
            return Err(Error::CorruptRecord);
        }
        let key = vstd::slice::slice_to_vec(vstd::slice::slice_subrange(buf, 8, k_end));
        let value = vstd::slice::slice_to_vec(vstd::slice::slice_subrange(buf, k_end, end));
        Ok(Value { key, value })
    }
}

/// Decoding an encoded record gives back its key and value, for every key
/// and value whose lengths fit in 32 bits.
pub proof fn lemma_record_round_trip(k: Seq<u8>, v: Seq<u8>)
    requires
        k.len() <= u32::MAX,
        v.len() <= u32::MAX,
    ensures
        decode_record(record_bytes(k, v)) == Ok::<(Seq<u8>, Seq<u8>), Error>((k, v)),
{
    let body = record_body(k, v);
    let b = record_bytes(k, v);
    lemma_be32_round_trip(k.len() as u32);
    lemma_be32_round_trip(v.len() as u32);
    lemma_be32_round_trip(crc32c(body));
    let kl = k.len() as int;
    let end = 8 + kl + v.len();
    assert(b.subrange(0, 4) =~= be32_bytes(k.len() as u32));
    assert(b.subrange(4, 8) =~= be32_bytes(v.len() as u32));
    assert(b.subrange(0, end) =~= body);
    assert(b.subrange(end, end + 4) =~= be32_bytes(crc32c(body)));
    assert(b.subrange(8, 8 + kl) =~= k);
    assert(b.subrange(8 + kl, end) =~= v);
}

/// Location of one record in the value log: segment, start and length.
#[derive(Clone, Copy, Debug, Default, PartialEq, Eq, Structural, PartialOrd, Ord, Hash)]
pub struct ValuePointer {
    pub fid: u32,
    pub offset: u32,
    pub len: u32,
}

/// The twelve bytes of a pointer: fid, then length, then offset.
pub open spec fn pointer_bytes(p: ValuePointer) -> Seq<u8> {
    be32_bytes(p.fid) + be32_bytes(p.len) + be32_bytes(p.offset)
}

/// Decoding the twelve bytes of a pointer gives back its fields.
pub proof fn lemma_pointer_round_trip(p: ValuePointer)
    ensures
        pointer_bytes(p).len() == 12,
        be32(pointer_bytes(p).subrange(0, 4)) == p.fid,
        be32(pointer_bytes(p).subrange(4, 8)) == p.len,
        be32(pointer_bytes(p).subrange(8, 12)) == p.offset,
{
    let b = pointer_bytes(p);
    lemma_be32_round_trip(p.fid);
    lemma_be32_round_trip(p.len);
    lemma_be32_round_trip(p.offset);
    assert(b.subrange(0, 4) =~= be32_bytes(p.fid));
    assert(b.subrange(4, 8) =~= be32_bytes(p.len));
    assert(b.subrange(8, 12) =~= be32_bytes(p.offset));
}

impl ValuePointer {
    /// The pointer to `len` bytes at `offset` of segment `fid`.
    pub fn new(fid: u32, offset: u32, len: u32) -> (r: ValuePointer)
        ensures
            r == (ValuePointer { fid, offset, len }),
    {
        ValuePointer { fid, offset, len }
    }

    /// The segment's fid.
    #[inline]
    pub fn fid(&self) -> (r: u32)
        ensures
            r == self.fid,
    {
        self.fid
    }

    /// Where the record starts in its segment.
    #[inline]
    pub fn offset(&self) -> (r: u32)
        ensures
            r == self.offset,
    {
        self.offset
    }

    /// The record's length.
    #[inline]
    pub fn len(&self) -> (r: u32)
        ensures
            r == self.len,
    {
        self.len
    }

    /// Appends the twelve bytes `fid ‖ len ‖ offset` and returns their number.
    pub fn encode(&self, buf: &mut Vec<u8>) -> (r: u32)
        ensures
            r == POINTER_SIZE,
            final(buf)@ == old(buf)@ + pointer_bytes(*self),
    {
        write_u32_be(buf, self.fid);
        write_u32_be(buf, self.len);
        write_u32_be(buf, self.offset);
        assert(final(buf)@ =~= old(buf)@ + pointer_bytes(*self));
        POINTER_SIZE
    }

    /// Reads the pointer at the start of `buf`, which must hold twelve bytes.
    pub fn decode(buf: &[u8]) -> (r: Result<ValuePointer, Error>)
        ensures
            buf@.len() < 12 ==> r == Err::<ValuePointer, Error>(Error::UnexpectedEof),
            buf@.len() >= 12 ==> (r matches Ok(p) && p.fid as nat == be32(buf@.subrange(0, 4))
                && p.len as nat == be32(buf@.subrange(4, 8)) && p.offset as nat == be32(
                buf@.subrange(8, 12),
            ) && pointer_bytes(p) == buf@.subrange(0, 12)),
    {
        if buf.len() < 12 {
            return Err(Error::UnexpectedEof);
        }
        let fid = read_u32_be(buf, 0);
        let len = read_u32_be(buf, 4);
        let offset = read_u32_be(buf, 8);
        let p = ValuePointer { fid, offset, len };
        proof {
            lemma_be32_bytes_of(buf@.subrange(0, 4), fid);
            lemma_be32_bytes_of(buf@.subrange(4, 8), len);
            lemma_be32_bytes_of(buf@.subrange(8, 12), offset);
            assert(pointer_bytes(p) =~= buf@.subrange(0, 12));
        }
        Ok(p)
    }
}

} // verus!
