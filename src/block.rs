//! Blocks of a sorted table and the forward iterator over their records.
//!
//! A block is a run of records `Header ‖ diff_key ‖ value`. The first
//! record's key is the block's base key; every later key is the first
//! `plen` bytes of the base key followed by the record's `diff_key`. A
//! header with `plen == 0` and `klen == 0` ends the block early.
use vstd::prelude::*;
use crate::bytes::{
    be16, be16_bytes, be32, be32_bytes, lemma_be16_round_trip, lemma_be32_round_trip, lex_less,
    lex_lt, read_u16_be, read_u32_be,
};
use crate::error::Error;

verus! {

/// Length of a record header in a block: `plen:u16 ‖ klen:u16 ‖ vlen:u16 ‖
/// prev:u32`, big-endian, then six reserved bytes.
pub const BLOCK_HEADER_SIZE: usize = 16;

/// The preamble of a record in a block.
#[derive(Clone, Copy, Debug, Default, PartialEq, Eq, Structural)]
pub struct Header {
    /// How many leading bytes of the base key the key shares.
    pub plen: u16,
    /// Length of the rest of the key, stored after the header.
    pub klen: u16,
    /// Length of the value, stored after the key.
    pub vlen: u16,
    /// Block-relative offset of the previous record's header.
    pub prev: u32,
}

/// The header stored at `pos` of `b`.
pub open spec fn header_at(b: Seq<u8>, pos: int) -> Header {
    Header {
        plen: be16(b.subrange(pos, pos + 2)) as u16,
        klen: be16(b.subrange(pos + 2, pos + 4)) as u16,
        vlen: be16(b.subrange(pos + 4, pos + 6)) as u16,
        prev: be32(b.subrange(pos + 6, pos + 10)) as u32,
    }
}

impl Header {
    /// Reads the header at `pos`; fails with `UnexpectedEof` where fewer
    /// than sixteen bytes are left.
    pub fn decode(buf: &[u8], pos: usize) -> (r: Result<Header, Error>)
        ensures
            pos + BLOCK_HEADER_SIZE > buf@.len() ==> r == Err::<Header, Error>(Error::UnexpectedEof),
            pos + BLOCK_HEADER_SIZE <= buf@.len() ==> r == Ok::<Header, Error>(
                header_at(buf@, pos as int),
            ),
    {
        if pos > buf.len() || buf.len() - pos < BLOCK_HEADER_SIZE {
            return Err(Error::UnexpectedEof);
        }
        Ok(
            Header {
                plen: read_u16_be(buf, pos),
                klen: read_u16_be(buf, pos + 2),
                vlen: read_u16_be(buf, pos + 4),
                prev: read_u32_be(buf, pos + 6),
            },
        )
    }

    /// Whether this header ends the block.
    pub open spec fn is_end(self) -> bool {
        self.plen == 0 && self.klen == 0
    }
}

/// What decoding the record at `pos` of a block gives.
pub enum Step {
    /// No record is left.
    End,
    /// The block is corrupt here.
    Fail(Error),
    /// A record, the base key from then on, and where the next record starts.
    Item { key: Seq<u8>, value: Seq<u8>, base: Seq<u8>, next: int },
}

/// Decodes the record at `pos` of block `data`, where `base` is the base
/// key so far. The record at 0 is the first, whose key becomes the base key.
pub open spec fn step(data: Seq<u8>, pos: int, base: Seq<u8>) -> Step {
    let len = data.len() as int;
    if pos >= len {
        Step::End
    } else if pos + 16 > len {
        Step::Fail(Error::UnexpectedEof)
    } else {
        let h = header_at(data, pos);
        let p = pos + 16;
        let q = p + h.klen;
        if h.is_end() {
            Step::End
        } else if pos == 0 && h.plen != 0 {
            Step::Fail(Error::CorruptTable)
        } else if q > len {
            Step::Fail(Error::KeyExceedSizeOfBlock { pos: p as u32, block_len: len as u32 })
        } else {
            let b = if pos == 0 {
                data.subrange(p, q)
            } else {
                base
            };
            if h.plen > b.len() {
                Step::Fail(Error::CorruptTable)
            } else if q + h.vlen > len {
                Step::Fail(Error::ValueExceedSizeOfBlock { pos: q as u32, block_len: len as u32 })
            } else {
                Step::Item {
                    key: b.subrange(0, h.plen as int) + data.subrange(p, q),
                    value: data.subrange(q, q + h.vlen),
                    base: b,
                    next: q + h.vlen,
                }
            }
        }
    }
}

/// The records that iterating block `data` from `pos` yields, with `base`
/// as the base key so far: up to its end or its first corrupt record.
pub open spec fn items_from(data: Seq<u8>, pos: int, base: Seq<u8>) -> Seq<(Seq<u8>, Seq<u8>)>
    decreases data.len() - pos,
{
    match step(data, pos, base) {
        Step::Item { key, value, base: b, next } => if pos < next <= data.len() {
            seq![(key, value)] + items_from(data, next, b)
        } else {
            Seq::empty()
        },
        _ => Seq::empty(),
    }
}

/// The error, if any, that stops iterating block `data` from `pos`.
pub open spec fn error_from(data: Seq<u8>, pos: int, base: Seq<u8>) -> Option<Error>
    decreases data.len() - pos,
{
    match step(data, pos, base) {
        Step::Item { key, value, base: b, next } => if pos < next <= data.len() {
            error_from(data, next, b)
        } else {
            None
        },
        Step::Fail(e) => Some(e),
        Step::End => None,
    }
}

/// A record leaves its header behind it, and does not reach past the block.
pub proof fn lemma_step_advances(data: Seq<u8>, pos: int, base: Seq<u8>)
    requires
        0 <= pos,
    ensures
        step(data, pos, base) matches Step::Item { next, .. } ==> pos + 16 <= next <= data.len(),
{
}

/// The record at a position, then the records after it.
pub proof fn lemma_items_step(data: Seq<u8>, pos: int, base: Seq<u8>)
    requires
        0 <= pos,
    ensures
        match step(data, pos, base) {
            Step::Item { key, value, base: b, next } => items_from(data, pos, base) == seq![
                (key, value),
            ] + items_from(data, next, b) && error_from(data, pos, base) == error_from(
                data,
                next,
                b,
            ),
            Step::Fail(e) => items_from(data, pos, base) == Seq::<(Seq<u8>, Seq<u8>)>::empty()
                && error_from(data, pos, base) == Some(e),
            Step::End => items_from(data, pos, base) == Seq::<(Seq<u8>, Seq<u8>)>::empty()
                && error_from(data, pos, base) is None,
        },
{
    lemma_step_advances(data, pos, base);
}

/// A block: a slice of a table's bytes.
#[derive(Clone, Copy)]
pub struct Block<'a> {
    data: &'a [u8],
}

impl<'a> Block<'a> {
    /// The block over `data`, which offsets of 32 bits can address.
    pub fn new(data: &'a [u8]) -> (r: Block<'a>)
        requires
            data@.len() <= u32::MAX,
        ensures
            r.data() == data@,
            r.wf(),
    {
        Block { data }
    }

    pub closed spec fn data(&self) -> Seq<u8> {
        self.data@
    }

    pub closed spec fn wf(&self) -> bool {
        self.data@.len() <= u32::MAX
    }

    /// The block's length in bytes.
    pub fn len(&self) -> (r: usize)
        ensures
            r == self.data().len(),
    {
        self.data.len()
    }

    /// The block's bytes.
    pub fn bytes(&self) -> (r: &'a [u8])
        ensures
            r@ == self.data(),
    {
        self.data
    }

    /// An iterator over the block's records from its start.
    pub fn into_iter(self) -> (r: BlockIterator<'a>)
        requires
            self.wf(),
        ensures
            r.wf(),
            r.data() == self.data(),
            r.pos() == 0,
            r.base() == Seq::<u8>::empty(),
            r.error() is None,
    {
        BlockIterator { block: self, pos: 0, base_key: Vec::new(), last: None }
    }
}

/// Where a seek starts from.
#[derive(Clone, Copy, Debug, PartialEq, Eq, Structural)]
pub enum SeekFrom {
    /// The start of the block.
    Start,
    /// Where the iterator stands.
    Current,
}

/// Forward iterator over a block's records. A decoding error stops it for
/// good, and stays retrievable through `err`. Iterating backwards along the
/// headers' `prev` offsets is not offered.
pub struct BlockIterator<'a> {
    block: Block<'a>,
    pos: usize,
    base_key: Vec<u8>,
    last: Option<Error>,
}

impl<'a> BlockIterator<'a> {
    pub closed spec fn data(&self) -> Seq<u8> {
        self.block.data@
    }

    pub closed spec fn pos(&self) -> int {
        self.pos as int
    }

    pub closed spec fn base(&self) -> Seq<u8> {
        self.base_key@
    }

    pub closed spec fn error(&self) -> Option<Error> {
        self.last
    }

    pub closed spec fn wf(&self) -> bool {
        &&& self.block.data@.len() <= u32::MAX
        &&& self.pos <= self.block.data@.len()
    }

    /// The error that stopped the iterator, if any.
    pub fn err(&self) -> (r: Option<Error>)
        ensures
            r == self.error(),
    {
        self.last
    }

    /// Goes back to the start of the block.
    pub fn reset(&mut self)
        requires
            old(self).wf(),
        ensures
            final(self).wf(),
            final(self).data() == old(self).data(),
            final(self).pos() == 0,
            final(self).base() == Seq::<u8>::empty(),
            final(self).error() is None,
    {
        self.pos = 0;
        self.base_key = Vec::new();
        self.last = None;
    }

    /// The next record, as its full key and its value. Returns `None` at
    /// the end of the block, and where the record is corrupt, in which case
    /// the error is kept and every later call returns `None` too.
    pub fn next(&mut self) -> (r: Option<(Vec<u8>, Vec<u8>)>)
        requires
            old(self).wf(),
        ensures
            final(self).wf(),
            final(self).data() == old(self).data(),
            old(self).error() is Some ==> r is None && final(self).pos() == old(self).pos()
                && final(self).base() == old(self).base() && final(self).error() == old(
                self,
            ).error(),
            old(self).error() is None ==> match step(
                old(self).data(),
                old(self).pos(),
                old(self).base(),
            ) {
                Step::End => r is None && final(self).pos() == old(self).pos() && final(self).base()
                    == old(self).base() && final(self).error() is None,
                Step::Fail(e) => r is None && final(self).pos() == old(self).pos()
                    && final(self).base() == old(self).base() && final(self).error() == Some(e),
                Step::Item { key, value, base, next } => r matches Some(kv) && kv.0@ == key
                    && kv.1@ == value && final(self).pos() == next && final(self).base() == base
                    && final(self).error() is None,
            },
    {
        if self.last.is_some() {
            return None;
        }
        let data = self.block.data;
        let len = data.len();
        let pos = self.pos;
        if pos >= len {
            return None;
        }
        let h = match Header::decode(data, pos) {
            Ok(h) => h,
            Err(e) => {
                self.last = Some(e);
                return None;
            },
        };
        if h.plen == 0 && h.klen == 0 {
            return None;
        }
        if pos == 0 && h.plen != 0 {
            self.last = Some(Error::CorruptTable);
            return None;
        }
        let p = pos + BLOCK_HEADER_SIZE;
        if h.klen as usize > len - p {
            self.last = Some(Error::KeyExceedSizeOfBlock { pos: p as u32, block_len: len as u32 });
            return None;
        }
        let q = p + h.klen as usize;
        let diff = vstd::slice::slice_subrange(data, p, q);
        // the first record's plen is 0, within any base key
        if pos != 0 && h.plen as usize > self.base_key.len() {
            self.last = Some(Error::CorruptTable);
            return None;
        }
        if h.vlen as usize > len - q {
            self.last = Some(Error::ValueExceedSizeOfBlock { pos: q as u32, block_len: len as u32 });
            return None;
        }
        if pos == 0 {
            self.base_key = vstd::slice::slice_to_vec(diff);
        }
        let mut key: Vec<u8> = vstd::slice::slice_to_vec(
            vstd::slice::slice_subrange(self.base_key.as_slice(), 0, h.plen as usize),
        );
        crate::bytes::extend_bytes(&mut key, diff);
        let end = q + h.vlen as usize;
        let value = vstd::slice::slice_to_vec(vstd::slice::slice_subrange(data, q, end));
        self.pos = end;
        Some((key, value))
    }
}


/// `r` is the first of `items` whose key is not below `prefix`, or `None`
/// where there is no such record.
pub open spec fn seek_found(
    items: Seq<(Seq<u8>, Seq<u8>)>,
    prefix: Seq<u8>,
    r: Option<(Vec<u8>, Vec<u8>)>,
) -> bool {
    match r {
        Some(kv) => exists|j: int|
            0 <= j < items.len() && items[j] == (kv.0@, kv.1@) && !lex_lt(kv.0@, prefix) && forall|
                i: int,
            | 0 <= i < j ==> lex_lt(#[trigger] items[i].0, prefix),
        None => forall|i: int| 0 <= i < items.len() ==> lex_lt(#[trigger] items[i].0, prefix),
    }
}

impl<'a> BlockIterator<'a> {
    /// Clears any error, goes back to the start of the block where `from`
    /// is `Start`, and advances to the first record whose key is not below
    /// `prefix` in byte order, which it returns; the iterator then stands
    /// after it. Returns `None` where no record left is at or above
    /// `prefix`.
    pub fn seek(&mut self, prefix: &[u8], from: SeekFrom) -> (r: Option<(Vec<u8>, Vec<u8>)>)
        requires
            old(self).wf(),
        ensures
            final(self).wf(),
            final(self).data() == old(self).data(),
            seek_found(
                if from == SeekFrom::Start {
                    items_from(old(self).data(), 0, Seq::empty())
                } else {
                    items_from(old(self).data(), old(self).pos(), old(self).base())
                },
                prefix@,
                r,
            ),
    {
        self.last = None;
        if from == SeekFrom::Start {
            self.reset();
        }
        let ghost data = self.data();
        let ghost (pos0, base0) = if from == SeekFrom::Start {
            (0int, Seq::<u8>::empty())
        } else {
            (old(self).pos(), old(self).base())
        };
        assert(self.pos() == pos0 && self.base() == base0);
        let ghost items = items_from(data, self.pos(), self.base());
        let ghost mut done: Seq<(Seq<u8>, Seq<u8>)> = Seq::empty();
        assert(items =~= done + items_from(data, self.pos(), self.base()));
        loop
            invariant
                self.wf(),
                self.data() == data,
                data == old(self).data(),
                items == items_from(data, pos0, base0),
                pos0 == (if from == SeekFrom::Start {
                    0int
                } else {
                    old(self).pos()
                }),
                base0 == (if from == SeekFrom::Start {
                    Seq::<u8>::empty()
                } else {
                    old(self).base()
                }),
                self.error() is None,
                items == done + items_from(data, self.pos(), self.base()),
                forall|i: int| 0 <= i < done.len() ==> lex_lt(#[trigger] done[i].0, prefix@),
            decreases data.len() - self.pos(),
        {
            let ghost pos = self.pos();
            let ghost base = self.base();
            proof {
                lemma_items_step(data, pos, base);
            }
            match self.next() {
                Some(kv) => {
                    proof {
                        lemma_step_advances(data, pos, base);
                    }
                    if !lex_less(kv.0.as_slice(), prefix) {
                        assert(items[done.len() as int] == (kv.0@, kv.1@));
                        assert forall|i: int| 0 <= i < done.len() implies lex_lt(
                            #[trigger] items[i].0,
                            prefix@,
                        ) by {
                            assert(items[i] == done[i]);
                        }
                        let r = Some(kv);
                        assert(seek_found(items, prefix@, r));
                        return r;
                    }
                    proof {
                        done = done.push((kv.0@, kv.1@));
                        assert(items =~= done + items_from(data, self.pos(), self.base()));
                    }
                },
                None => {
                    assert(items =~= done);
                    self.last = None;
                    return None;
                },
            }
        }
    }
}


/// The sixteen bytes of a header.
pub open spec fn header_bytes(h: Header) -> Seq<u8> {
    be16_bytes(h.plen) + be16_bytes(h.klen) + be16_bytes(h.vlen) + be32_bytes(h.prev) + Seq::new(
        6,
        |i: int| 0u8,
    )
}

/// The header written at `pos` is the header read there.
pub proof fn lemma_header_at(b: Seq<u8>, pos: int, h: Header)
    requires
        0 <= pos,
        pos + 16 <= b.len(),
        b.subrange(pos, pos + 16) == header_bytes(h),
    ensures
        header_at(b, pos) == h,
{
    let hb = header_bytes(h);
    lemma_be16_round_trip(h.plen);
    lemma_be16_round_trip(h.klen);
    lemma_be16_round_trip(h.vlen);
    lemma_be32_round_trip(h.prev);
    assert(hb.subrange(0, 2) =~= be16_bytes(h.plen));
    assert(hb.subrange(2, 4) =~= be16_bytes(h.klen));
    assert(hb.subrange(4, 6) =~= be16_bytes(h.vlen));
    assert(hb.subrange(6, 10) =~= be32_bytes(h.prev));
    assert(b.subrange(pos, pos + 2) =~= hb.subrange(0, 2));
    assert(b.subrange(pos + 2, pos + 4) =~= hb.subrange(2, 4));
    assert(b.subrange(pos + 4, pos + 6) =~= hb.subrange(4, 6));
    assert(b.subrange(pos + 6, pos + 10) =~= hb.subrange(6, 10));
}

/// How many leading bytes `a` and `b` share.
pub open spec fn common_len(a: Seq<u8>, b: Seq<u8>) -> nat
    decreases a.len(),
{
    if a.len() == 0 || b.len() == 0 || a[0] != b[0] {
        0
    } else {
        1 + common_len(a.drop_first(), b.drop_first())
    }
}

proof fn lemma_common_len(a: Seq<u8>, b: Seq<u8>)
    ensures
        common_len(a, b) <= a.len(),
        common_len(a, b) <= b.len(),
        a.subrange(0, common_len(a, b) as int) == b.subrange(0, common_len(a, b) as int),
    decreases a.len(),
{
    if !(a.len() == 0 || b.len() == 0 || a[0] != b[0]) {
        lemma_common_len(a.drop_first(), b.drop_first());
        let n = common_len(a, b) as int;
        assert(a.subrange(0, n) =~= seq![a[0]] + a.drop_first().subrange(0, n - 1));
        assert(b.subrange(0, n) =~= seq![b[0]] + b.drop_first().subrange(0, n - 1));
    } else {
        assert(a.subrange(0, 0) =~= b.subrange(0, 0));
    }
}

/// How many bytes record `i` of a block of `kvs` shares with the base key,
/// the first record's key.
pub open spec fn shared_len(kvs: Seq<(Seq<u8>, Seq<u8>)>, i: int) -> nat {
    if i == 0 {
        0
    } else {
        common_len(kvs[i].0, kvs[0].0)
    }
}

/// Record `i` of a block of `kvs`, with `prev` pointing at the record before.
pub open spec fn block_record(kvs: Seq<(Seq<u8>, Seq<u8>)>, i: int, prev: u32) -> Seq<u8> {
    let (k, v) = kvs[i];
    let plen = shared_len(kvs, i);
    header_bytes(
        Header { plen: plen as u16, klen: (k.len() - plen) as u16, vlen: v.len() as u16, prev },
    ) + k.subrange(plen as int, k.len() as int) + v
}

/// The block that holds `kvs`, in order: each key compressed against the
/// first one, each header pointing at the one before.
#[verifier::opaque]
pub open spec fn block_bytes(kvs: Seq<(Seq<u8>, Seq<u8>)>) -> Seq<u8>
    decreases kvs.len(),
{
    if kvs.len() == 0 {
        Seq::empty()
    } else {
        let n = kvs.len() - 1;
        let prev = if n >= 1 {
            block_bytes(kvs.take(n - 1)).len() as u32
        } else {
            0
        };
        block_bytes(kvs.take(n)) + block_record(kvs, n, prev)
    }
}

/// Records that a block can hold: non-empty keys, since an empty one would
/// read as the end of the block, and keys and values that the 16-bit
/// lengths of a header can state.
pub open spec fn block_holds(kvs: Seq<(Seq<u8>, Seq<u8>)>) -> bool {
    forall|i: int|
        0 <= i < kvs.len() ==> 0 < (#[trigger] kvs[i]).0.len() <= u16::MAX && kvs[i].1.len()
            <= u16::MAX
}

proof fn lemma_block_prefix(kvs: Seq<(Seq<u8>, Seq<u8>)>, j: int)
    requires
        0 <= j <= kvs.len(),
    ensures
        block_bytes(kvs.take(j)).len() <= block_bytes(kvs).len(),
        block_bytes(kvs).subrange(0, block_bytes(kvs.take(j)).len() as int) == block_bytes(
            kvs.take(j),
        ),
    decreases kvs.len(),
{
    reveal(block_bytes);
    if j == kvs.len() {
        assert(kvs.take(j) =~= kvs);
        assert(block_bytes(kvs).subrange(0, block_bytes(kvs).len() as int) =~= block_bytes(kvs));
    } else {
        let n = kvs.len() - 1;
        let d = kvs.take(n);
        lemma_block_prefix(d, j);
        assert(d.take(j) =~= kvs.take(j));
        let p = block_bytes(kvs.take(j));
        assert(block_bytes(kvs).subrange(0, p.len() as int) =~= block_bytes(d).subrange(
            0,
            p.len() as int,
        ));
    }
}

proof fn lemma_block_record_at(kvs: Seq<(Seq<u8>, Seq<u8>)>, i: int)
    requires
        0 <= i < kvs.len(),
    ensures
        ({
            let a = block_bytes(kvs.take(i)).len() as int;
            let prev = if i >= 1 {
                block_bytes(kvs.take(i - 1)).len() as u32
            } else {
                0
            };
            let r = block_record(kvs, i, prev);
            &&& a + r.len() == block_bytes(kvs.take(i + 1)).len()
            &&& a + r.len() <= block_bytes(kvs).len()
            &&& block_bytes(kvs).subrange(a, a + r.len()) == r
        }),
{
    reveal(block_bytes);
    let t = kvs.take(i + 1);
    assert(t.take(i) =~= kvs.take(i));
    if i >= 1 {
        assert(t.take(i - 1) =~= kvs.take(i - 1));
    }
    assert(t[0] == kvs[0] && t[i] == kvs[i]);
    let prev = if i >= 1 {
        block_bytes(kvs.take(i - 1)).len() as u32
    } else {
        0
    };
    assert(block_record(t, i, prev) == block_record(kvs, i, prev));
    lemma_block_prefix(kvs, i + 1);
    let a = block_bytes(kvs.take(i)).len() as int;
    let r = block_record(kvs, i, prev);
    assert(block_bytes(kvs).subrange(a, a + r.len()) =~= block_bytes(t).subrange(a, a + r.len()));
}

proof fn lemma_block_empty(kvs: Seq<(Seq<u8>, Seq<u8>)>)
    ensures
        block_bytes(kvs.take(0)).len() == 0,
{
    reveal(block_bytes);
    assert(kvs.take(0) =~= Seq::<(Seq<u8>, Seq<u8>)>::empty());
}

proof fn lemma_block_step(kvs: Seq<(Seq<u8>, Seq<u8>)>, i: int, base: Seq<u8>)
    requires
        block_holds(kvs),
        0 <= i < kvs.len(),
        i > 0 ==> base == kvs[0].0,
    ensures
        step(block_bytes(kvs), block_bytes(kvs.take(i)).len() as int, base) == (Step::Item {
            key: kvs[i].0,
            value: kvs[i].1,
            base: kvs[0].0,
            next: block_bytes(kvs.take(i + 1)).len() as int,
        }),
{
    let data = block_bytes(kvs);
    let pos = block_bytes(kvs.take(i)).len() as int;
    let prev = if i >= 1 {
        block_bytes(kvs.take(i - 1)).len() as u32
    } else {
        0
    };
    lemma_block_record_at(kvs, i);
    let (k, v) = kvs[i];
    assert(0 < k.len() <= u16::MAX && v.len() <= u16::MAX);
    let plen = shared_len(kvs, i);
    lemma_common_len(k, kvs[0].0);
    let h = Header { plen: plen as u16, klen: (k.len() - plen) as u16, vlen: v.len() as u16, prev };
    let r = block_record(kvs, i, prev);
    let diff = k.subrange(plen as int, k.len() as int);
    assert(r == header_bytes(h) + diff + v);
    assert(data.subrange(pos, pos + r.len()) == r);
    assert(data.subrange(pos, pos + 16) =~= header_bytes(h)) by {
        assert(data.subrange(pos, pos + 16) =~= r.subrange(0, 16));
        assert(r.subrange(0, 16) =~= header_bytes(h));
    }
    lemma_header_at(data, pos, h);
    let p = pos + 16;
    let q = p + h.klen;
    assert(data.subrange(p, q) =~= diff) by {
        assert(data.subrange(p, q) =~= r.subrange(16, 16 + h.klen));
    }
    assert(data.subrange(q, q + h.vlen) =~= v) by {
        assert(data.subrange(q, q + h.vlen) =~= r.subrange(16 + h.klen, r.len() as int));
    }
    if i == 0 {
        lemma_block_empty(kvs);
        assert(k.subrange(0, k.len() as int) =~= k);
    } else {
        lemma_block_record_at(kvs, i - 1);
        assert(pos > 0);
    }
    let b = if pos == 0 {
        data.subrange(p, q)
    } else {
        base
    };
    assert(b == kvs[0].0);
    assert(b.subrange(0, h.plen as int) + data.subrange(p, q) =~= k);
}

proof fn lemma_block_items_from(kvs: Seq<(Seq<u8>, Seq<u8>)>, i: int, base: Seq<u8>)
    requires
        block_holds(kvs),
        0 <= i <= kvs.len(),
        i > 0 ==> base == kvs[0].0,
    ensures
        items_from(block_bytes(kvs), block_bytes(kvs.take(i)).len() as int, base) == kvs.subrange(
            i,
            kvs.len() as int,
        ),
        error_from(block_bytes(kvs), block_bytes(kvs.take(i)).len() as int, base) is None,
    decreases kvs.len() - i,
{
    let data = block_bytes(kvs);
    let pos = block_bytes(kvs.take(i)).len() as int;
    lemma_items_step(data, pos, base);
    if i == kvs.len() {
        assert(kvs.take(i) =~= kvs);
        assert(kvs.subrange(i, kvs.len() as int) =~= Seq::<(Seq<u8>, Seq<u8>)>::empty());
    } else {
        lemma_block_step(kvs, i, base);
        lemma_block_items_from(kvs, i + 1, kvs[0].0);
        assert(kvs.subrange(i, kvs.len() as int) =~= seq![kvs[i]] + kvs.subrange(
            i + 1,
            kvs.len() as int,
        ));
    }
}

/// Iterating the block built from records gives back exactly those records
/// in order, and no error: keys come back whole from the base key and the
/// stored differences.
pub proof fn lemma_block_iteration_faithful(kvs: Seq<(Seq<u8>, Seq<u8>)>)
    requires
        block_holds(kvs),
    ensures
        items_from(block_bytes(kvs), 0, Seq::empty()) == kvs,
        error_from(block_bytes(kvs), 0, Seq::empty()) is None,
{
    lemma_block_empty(kvs);
    lemma_block_items_from(kvs, 0, Seq::empty());
    assert(kvs.subrange(0, kvs.len() as int) =~= kvs);
}

} // verus!
