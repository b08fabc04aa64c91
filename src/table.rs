//! The sorted-table reader: an immutable file of blocks, then the start
//! offset of each block, their number, a bloom filter and its length, all
//! integers big-endian:
//!
//! `block* ‖ restart:u32* ‖ restart_count:u32 ‖ bloom ‖ bloom_len:u32`
use vstd::prelude::*;
use crate::block::{
    block_bytes, block_holds, header_at, items_from, lemma_block_iteration_faithful, lemma_items_step,
    lemma_step_advances, step, Block, BlockIterator, Step, BLOCK_HEADER_SIZE,
};
use crate::bytes::{be32, be32_bytes, lemma_be32_round_trip, lex_lt, read_u32_be};
use crate::error::Error;

verus! {

#[verifier::external_type_specification]
#[verifier::external_body]
pub struct ExMmap(memmap::Mmap);

/// The bytes of a read-only memory map.
pub uninterp spec fn mapped_bytes(m: memmap::Mmap) -> Seq<u8>;

/// Relies on memmap::Mmap's `Deref<Target = [u8]>`: the bytes of the map,
/// which stay the same while the read-only map lives.
#[verifier::external_body]
fn mmap_bytes(m: &memmap::Mmap) -> (r: &[u8])
    ensures
        r@ == mapped_bytes(*m),
{
    &m[..]
}

/// How a table file is brought into memory.
#[derive(Clone, Copy, Debug, PartialEq, Eq, Structural)]
pub enum TableLoadMode {
    /// Copy the file into an anonymous read-only map.
    LoadToRAM,
    /// Map the file itself.
    MemoryMap,
}

pub open spec fn bloom_len(b: Seq<u8>) -> int {
    be32(b.subrange(b.len() - 4, b.len() as int)) as int
}

pub open spec fn bloom_start(b: Seq<u8>) -> int {
    b.len() - 4 - bloom_len(b)
}

pub open spec fn restart_count(b: Seq<u8>) -> int {
    be32(b.subrange(bloom_start(b) - 4, bloom_start(b))) as int
}

/// Where the blocks end and the trailer starts.
pub open spec fn trailer_start(b: Seq<u8>) -> int {
    bloom_start(b) - 4 - 4 * restart_count(b)
}

/// The trailer's lengths fit in the file, and the blocks in 32-bit offsets.
pub open spec fn trailer_ok(b: Seq<u8>) -> bool {
    &&& b.len() >= 8
    &&& b.len() - 8 >= bloom_len(b)
    &&& bloom_start(b) - 4 >= 4 * restart_count(b)
    &&& trailer_start(b) <= u32::MAX
}

/// Start offset of block `i`.
pub open spec fn restart(b: Seq<u8>, i: int) -> int {
    be32(b.subrange(trailer_start(b) + 4 * i, trailer_start(b) + 4 * i + 4)) as int
}

/// End offset of block `i`: the next block's start, or the trailer's.
pub open spec fn block_end(b: Seq<u8>, i: int) -> int {
    if i + 1 < restart_count(b) {
        restart(b, i + 1)
    } else {
        trailer_start(b)
    }
}

/// Block `i` lies before the trailer and before the next block, and starts
/// with a whole first record header with `plen == 0` and its key.
pub open spec fn block_ok(b: Seq<u8>, i: int) -> bool {
    let off = restart(b, i);
    let end = block_end(b, i);
    let h = header_at(b, off);
    &&& off + 16 <= end <= trailer_start(b)
    &&& h.plen == 0
    &&& off + 16 + h.klen <= end
}

/// Whether the table's trailer and block index are consistent.
pub open spec fn index_ok(b: Seq<u8>) -> bool {
    &&& trailer_ok(b)
    &&& forall|i: int| 0 <= i < restart_count(b) ==> #[trigger] block_ok(b, i)
}

/// What the index says of one block.
pub struct KeyOffsetView {
    /// The block's first key.
    pub prefix: Seq<u8>,
    pub offset: int,
    pub len: int,
}

/// The block index of table bytes `b`.
pub open spec fn index_spec(b: Seq<u8>) -> Seq<KeyOffsetView> {
    Seq::new(
        restart_count(b) as nat,
        |i: int|
            {
                let off = restart(b, i);
                KeyOffsetView {
                    prefix: b.subrange(off + 16, off + 16 + header_at(b, off).klen),
                    offset: off,
                    len: block_end(b, i) - off,
                }
            },
    )
}

/// The bytes of block `i`.
pub open spec fn table_block(b: Seq<u8>, i: int) -> Seq<u8> {
    b.subrange(restart(b, i), block_end(b, i))
}

/// One entry of the block index.
struct KeyOffset {
    prefix: Vec<u8>,
    offset: u32,
    len: u32,
}

impl View for KeyOffset {
    type V = KeyOffsetView;

    closed spec fn view(&self) -> KeyOffsetView {
        KeyOffsetView { prefix: self.prefix@, offset: self.offset as int, len: self.len as int }
    }
}

/// Reads the block index from the trailer of table bytes `b`. Every
/// inconsistency fails with `CorruptTable`.
fn read_index(b: &[u8]) -> (r: Result<Vec<KeyOffset>, Error>)
    ensures
        r is Ok <==> index_ok(b@),
        r matches Err(e) ==> e == Error::CorruptTable,
        r matches Ok(v) ==> v@.map_values(|k: KeyOffset| k@) == index_spec(b@),
{
    let n: u64 = b.len() as u64;
    if n < 8 {
        return Err(Error::CorruptTable);
    }
    let bloom_len = read_u32_be(b, (n - 4) as usize) as u64;
    if n - 8 < bloom_len {
        return Err(Error::CorruptTable);
    }
    let bloom_start = n - 4 - bloom_len;
    let count = read_u32_be(b, (bloom_start - 4) as usize) as u64;
    if bloom_start - 4 < 4 * count {
        return Err(Error::CorruptTable);
    }
    let ts = bloom_start - 4 - 4 * count;
    if ts > 0xffff_ffff {
        return Err(Error::CorruptTable);
    }
    let ghost bs = b@;
    assert(n <= usize::MAX);
    assert(trailer_start(bs) == ts && restart_count(bs) == count);
    let mut index: Vec<KeyOffset> = Vec::new();
    let mut i: u64 = 0;
    while i < count
        invariant
            bs == b@,
            n == bs.len(),
            n <= usize::MAX,
            trailer_ok(bs),
            trailer_start(bs) == ts,
            restart_count(bs) == count,
            i <= count,
            index@.len() == i,
            forall|j: int| 0 <= j < i ==> #[trigger] block_ok(bs, j),
            forall|j: int| 0 <= j < i ==> (#[trigger] index@[j])@ == index_spec(bs)[j],
        decreases count - i,
    {
        assert(ts + 4 * i + 4 <= n);
        let at = (ts + 4 * i) as usize;
        assert(at == ts + 4 * i);
        let off = read_u32_be(b, at) as u64;
        let end: u64 = if i + 1 < count {
            assert(ts + 4 * (i + 1) + 4 <= n);
            let next_at = (ts + 4 * (i + 1)) as usize;
            read_u32_be(b, next_at) as u64
        } else {
            ts
        };
        assert(off == restart(bs, i as int) && end == block_end(bs, i as int));
        if off + 16 > end || end > ts {
            assert(!block_ok(bs, i as int));
            return Err(Error::CorruptTable);
        }
        let h = match crate::block::Header::decode(b, off as usize) {
            Ok(h) => h,
            Err(_) => return Err(Error::CorruptTable),
        };
        if h.plen != 0 || off + 16 + h.klen as u64 > end {
            assert(!block_ok(bs, i as int));
            return Err(Error::CorruptTable);
        }
        let start = (off + 16) as usize;
        let prefix = vstd::slice::slice_to_vec(
            vstd::slice::slice_subrange(b, start, start + h.klen as usize),
        );
        let ko = KeyOffset { prefix, offset: off as u32, len: (end - off) as u32 };
        assert(ko@ == index_spec(bs)[i as int]);
        index.push(ko);
        i = i + 1;
    }
    assert(index@.map_values(|k: KeyOffset| k@) =~= index_spec(bs));
    Ok(index)
}

/// An open sorted table.
pub struct Table {
    id: u64,
    table_size: u64,
    mmap: memmap::Mmap,
    block_index: Vec<KeyOffset>,
}

impl Table {
    /// The table's bytes.
    pub closed spec fn bytes(&self) -> Seq<u8> {
        mapped_bytes(self.mmap)
    }

    pub closed spec fn spec_id(&self) -> u64 {
        self.id
    }

    /// What the table's block index holds.
    pub closed spec fn index(&self) -> Seq<KeyOffsetView> {
        self.block_index@.map_values(|k: KeyOffset| k@)
    }

    pub closed spec fn wf(&self) -> bool {
        &&& index_ok(self.bytes())
        &&& self.index() == index_spec(self.bytes())
        &&& self.table_size == self.bytes().len()
    }

    /// The table with id `file_id` whose file is mapped by `mmap`. Fails
    /// with `CorruptTable` where its trailer or block index is inconsistent.
    pub fn open(file_id: u64, mmap: memmap::Mmap) -> (r: Result<Table, Error>)
        ensures
            r is Ok <==> index_ok(mapped_bytes(mmap)),
            r matches Err(e) ==> e == Error::CorruptTable,
            r matches Ok(t) ==> t.wf() && t.spec_id() == file_id && t.bytes() == mapped_bytes(mmap),
    {
        let bytes = mmap_bytes(&mmap);
        let table_size = bytes.len() as u64;
        let block_index = match read_index(bytes) {
            Ok(v) => v,
            Err(e) => return Err(e),
        };
        Ok(Table { id: file_id, table_size, mmap, block_index })
    }

    /// The table's size in bytes.
    pub fn size(&self) -> (r: u64)
        requires
            self.wf(),
        ensures
            r == self.bytes().len(),
    {
        self.table_size
    }

    /// The table's id.
    pub fn id(&self) -> (r: u64)
        ensures
            r == self.spec_id(),
    {
        self.id
    }

    /// The number of blocks.
    pub fn block_count(&self) -> (r: usize)
        requires
            self.wf(),
        ensures
            r == restart_count(self.bytes()),
    {
        assert(self.index().len() == self.block_index@.len());
        self.block_index.len()
    }

    /// The first key of block `index`.
    pub fn block_prefix(&self, index: usize) -> (r: &[u8])
        requires
            self.wf(),
            index < restart_count(self.bytes()),
        ensures
            r@ == index_spec(self.bytes())[index as int].prefix,
    {
        proof {
            assert(self.index().len() == self.block_index@.len());
            assert(self.index()[index as int] == self.block_index@[index as int]@);
        }
        self.block_index[index].prefix.as_slice()
    }

    /// Block `index`, borrowed from the table's bytes.
    pub fn block<'a>(&'a self, index: usize) -> (r: Block<'a>)
        requires
            self.wf(),
            index < restart_count(self.bytes()),
        ensures
            r.wf(),
            r.data() == table_block(self.bytes(), index as int),
    {
        proof {
            assert(self.index().len() == self.block_index@.len());
        }
        let ko = &self.block_index[index];
        proof {
            assert(self.index()[index as int] == ko@);
            assert(block_ok(self.bytes(), index as int));
        }
        let bytes = mmap_bytes(&self.mmap);
        let start = ko.offset as usize;
        let end = start + ko.len as usize;
        Block::new(vstd::slice::slice_subrange(bytes, start, end))
    }
}


/// What the next step of iterating a table gives.
pub enum TableStep {
    /// No record is left.
    End,
    /// A block is corrupt.
    Fail(Error),
    /// A record, and where iteration then stands: the block, the position
    /// in it and its base key.
    Item { key: Seq<u8>, value: Seq<u8>, block: int, pos: int, base: Seq<u8> },
}

/// Next step of iterating the blocks of table bytes `b`, standing at `pos`
/// of block `block` with base key `base`: an exhausted block hands over to
/// the start of the next one.
pub open spec fn table_step(b: Seq<u8>, block: int, pos: int, base: Seq<u8>) -> TableStep
    decreases restart_count(b) - block,
{
    if block < 0 || block >= restart_count(b) {
        TableStep::End
    } else {
        match step(table_block(b, block), pos, base) {
            Step::Item { key, value, base: nb, next } => TableStep::Item {
                key,
                value,
                block,
                pos: next,
                base: nb,
            },
            Step::Fail(e) => TableStep::Fail(e),
            Step::End => table_step(b, block + 1, 0, Seq::empty()),
        }
    }
}

/// Forward iterator over every record of a table, block after block. An
/// error in a block stops it for good, and stays retrievable through `err`.
pub struct TableIterator<'a> {
    t: &'a Table,
    block_pos: usize,
    block_iter: Option<BlockIterator<'a>>,
    err: Option<Error>,
}

impl Table {
    /// An iterator over the table's records from the first block on.
    pub fn iter<'a>(&'a self) -> (r: TableIterator<'a>)
        requires
            self.wf(),
        ensures
            r.wf(),
            r.bytes() == self.bytes(),
            r.block() == 0,
            r.pos() == 0,
            r.base() == Seq::<u8>::empty(),
            r.error() is None,
    {
        TableIterator::new(self)
    }
}

impl<'a> TableIterator<'a> {
    pub closed spec fn bytes(&self) -> Seq<u8> {
        self.t.bytes()
    }

    /// The block that iteration stands in.
    pub closed spec fn block(&self) -> int {
        self.block_pos as int
    }

    /// The position within that block.
    pub closed spec fn pos(&self) -> int {
        match self.block_iter {
            Some(it) => it.pos(),
            None => 0,
        }
    }

    /// The base key of that block so far.
    pub closed spec fn base(&self) -> Seq<u8> {
        match self.block_iter {
            Some(it) => it.base(),
            None => Seq::empty(),
        }
    }

    pub closed spec fn error(&self) -> Option<Error> {
        self.err
    }

    pub closed spec fn wf(&self) -> bool {
        &&& self.t.wf()
        &&& self.block_pos <= restart_count(self.t.bytes())
        &&& self.block_iter matches Some(it) ==> {
            &&& self.block_pos < restart_count(self.t.bytes())
            &&& it.wf()
            &&& it.data() == table_block(self.t.bytes(), self.block_pos as int)
            &&& it.error() is None
        }
    }

    /// An iterator over the records of `t` from its first block on.
    pub fn new(t: &'a Table) -> (r: TableIterator<'a>)
        requires
            t.wf(),
        ensures
            r.wf(),
            r.bytes() == t.bytes(),
            r.block() == 0,
            r.pos() == 0,
            r.base() == Seq::<u8>::empty(),
            r.error() is None,
    {
        TableIterator { t, block_pos: 0, block_iter: None, err: None }
    }

    /// Goes back to the first block.
    pub fn reset(&mut self)
        requires
            old(self).wf(),
        ensures
            final(self).wf(),
            final(self).bytes() == old(self).bytes(),
            final(self).block() == 0,
            final(self).pos() == 0,
            final(self).base() == Seq::<u8>::empty(),
            final(self).error() is None,
    {
        self.block_pos = 0;
        self.block_iter = None;
        self.err = None;
    }

    /// The error that stopped the iterator, if any.
    pub fn err(&self) -> (r: Option<Error>)
        ensures
            r == self.error(),
    {
        self.err
    }

    /// The next record of the table, as its full key and its value.
    /// Returns `None` after the last block, and where a block is corrupt,
    /// in which case the error is kept and every later call returns `None`.
    pub fn next(&mut self) -> (r: Option<(Vec<u8>, Vec<u8>)>)
        requires
            old(self).wf(),
        ensures
            final(self).wf(),
            final(self).bytes() == old(self).bytes(),
            old(self).error() is Some ==> r is None && final(self).error() == old(self).error(),
            old(self).error() is None ==> match table_step(
                old(self).bytes(),
                old(self).block(),
                old(self).pos(),
                old(self).base(),
            ) {
                TableStep::End => r is None && final(self).error() is None && final(self).block()
                    == restart_count(old(self).bytes()),
                TableStep::Fail(e) => r is None && final(self).error() == Some(e),
                TableStep::Item { key, value, block, pos, base } => r matches Some(kv) && kv.0@
                    == key && kv.1@ == value && final(self).block() == block && final(self).pos()
                    == pos && final(self).base() == base && final(self).error() is None,
            },
    {
        if self.err.is_some() {
            return None;
        }
        let ghost bytes = self.bytes();
        let ghost goal = table_step(bytes, self.block(), self.pos(), self.base());
        let count = self.t.block_count();
        loop
            invariant
                self.wf(),
                self.bytes() == bytes,
                bytes == old(self).bytes(),
                self.error() is None,
                old(self).error() is None,
                count == restart_count(bytes),
                goal == table_step(bytes, self.block(), self.pos(), self.base()),
                goal == table_step(
                    old(self).bytes(),
                    old(self).block(),
                    old(self).pos(),
                    old(self).base(),
                ),
            decreases count - self.block(),
        {
            if self.block_pos >= count {
                return None;
            }
            let mut it = match self.block_iter.take() {
                Some(it) => it,
                None => self.t.block(self.block_pos).into_iter(),
            };
            match it.next() {
                Some(kv) => {
                    self.block_iter = Some(it);
                    return Some(kv);
                },
                None => {
                    match it.err() {
                        Some(e) => {
                            self.err = Some(e);
                            return None;
                        },
                        None => {},
                    }
                },
            }
            self.block_pos = self.block_pos + 1;
        }
    }
}


/// The blocks' bytes, one block after another.
#[verifier::opaque]
pub open spec fn blocks_body(blocks: Seq<Seq<(Seq<u8>, Seq<u8>)>>) -> Seq<u8>
    decreases blocks.len(),
{
    if blocks.len() == 0 {
        Seq::empty()
    } else {
        blocks_body(blocks.drop_last()) + block_bytes(blocks.last())
    }
}

/// The start offset of each block, as the trailer stores them.
#[verifier::opaque]
pub open spec fn restarts_bytes(blocks: Seq<Seq<(Seq<u8>, Seq<u8>)>>) -> Seq<u8>
    decreases blocks.len(),
{
    if blocks.len() == 0 {
        Seq::empty()
    } else {
        restarts_bytes(blocks.drop_last()) + be32_bytes(
            blocks_body(blocks.drop_last()).len() as u32,
        )
    }
}

/// The table file that holds `blocks`, in order, and bloom filter `bloom`.
pub open spec fn table_image(blocks: Seq<Seq<(Seq<u8>, Seq<u8>)>>, bloom: Seq<u8>) -> Seq<u8> {
    blocks_body(blocks) + restarts_bytes(blocks) + be32_bytes(blocks.len() as u32) + bloom
        + be32_bytes(bloom.len() as u32)
}

/// Blocks that a table file can hold: each has a record, each holds its
/// records, and the file stays within 32-bit offsets.
pub open spec fn table_holds(blocks: Seq<Seq<(Seq<u8>, Seq<u8>)>>, bloom: Seq<u8>) -> bool {
    &&& forall|i: int|
        0 <= i < blocks.len() ==> (#[trigger] blocks[i]).len() > 0 && block_holds(blocks[i])
    &&& table_image(blocks, bloom).len() <= u32::MAX
}

/// The records of blocks, one block after another.
pub open spec fn flatten(blocks: Seq<Seq<(Seq<u8>, Seq<u8>)>>) -> Seq<(Seq<u8>, Seq<u8>)>
    decreases blocks.len(),
{
    if blocks.len() == 0 {
        Seq::empty()
    } else {
        blocks[0] + flatten(blocks.drop_first())
    }
}

/// The records that iterating table bytes `b` yields from the given
/// place on, up to the end or the first error.
pub open spec fn table_items(b: Seq<u8>, block: int, pos: int, base: Seq<u8>) -> Seq<
    (Seq<u8>, Seq<u8>),
>
    decreases restart_count(b) - block, b.len() - pos,
{
    match table_step(b, block, pos, base) {
        TableStep::Item { key, value, block: nb, pos: np, base: nbase } => if block <= nb
            <= restart_count(b) && (nb > block || (pos < np <= b.len())) {
            seq![(key, value)] + table_items(b, nb, np, nbase)
        } else {
            Seq::empty()
        },
        _ => Seq::empty(),
    }
}

/// Whether keys come in strictly ascending byte order.
pub open spec fn keys_ascending(items: Seq<(Seq<u8>, Seq<u8>)>) -> bool {
    forall|i: int, j: int| 0 <= i < j < items.len() ==> lex_lt(items[i].0, items[j].0)
}


proof fn lemma_body_prefix(blocks: Seq<Seq<(Seq<u8>, Seq<u8>)>>, j: int)
    requires
        0 <= j <= blocks.len(),
    ensures
        blocks_body(blocks.take(j)).len() <= blocks_body(blocks).len(),
        blocks_body(blocks).subrange(0, blocks_body(blocks.take(j)).len() as int) == blocks_body(
            blocks.take(j),
        ),
    decreases blocks.len(),
{
    reveal(blocks_body);
    if j == blocks.len() {
        assert(blocks.take(j) =~= blocks);
        assert(blocks_body(blocks).subrange(0, blocks_body(blocks).len() as int) =~= blocks_body(
            blocks,
        ));
    } else {
        let d = blocks.drop_last();
        lemma_body_prefix(d, j);
        assert(d.take(j) =~= blocks.take(j));
        let p = blocks_body(blocks.take(j));
        assert(blocks_body(blocks).subrange(0, p.len() as int) =~= blocks_body(d).subrange(
            0,
            p.len() as int,
        ));
    }
}

proof fn lemma_body_block(blocks: Seq<Seq<(Seq<u8>, Seq<u8>)>>, i: int)
    requires
        0 <= i < blocks.len(),
    ensures
        blocks_body(blocks.take(i + 1)).len() == blocks_body(blocks.take(i)).len()
            + block_bytes(blocks[i]).len(),
        blocks_body(blocks.take(i + 1)).len() <= blocks_body(blocks).len(),
        blocks_body(blocks).subrange(
            blocks_body(blocks.take(i)).len() as int,
            blocks_body(blocks.take(i + 1)).len() as int,
        ) == block_bytes(blocks[i]),
{
    reveal(blocks_body);
    let t = blocks.take(i + 1);
    assert(t.drop_last() =~= blocks.take(i));
    lemma_body_prefix(blocks, i + 1);
    let a = blocks_body(blocks.take(i)).len() as int;
    let e = blocks_body(t).len() as int;
    assert(blocks_body(blocks).subrange(a, e) =~= blocks_body(t).subrange(a, e));
}

proof fn lemma_body_empty(blocks: Seq<Seq<(Seq<u8>, Seq<u8>)>>)
    ensures
        blocks_body(blocks.take(0)).len() == 0,
{
    reveal(blocks_body);
    assert(blocks.take(0) =~= Seq::<Seq<(Seq<u8>, Seq<u8>)>>::empty());
}

proof fn lemma_restarts(blocks: Seq<Seq<(Seq<u8>, Seq<u8>)>>)
    ensures
        restarts_bytes(blocks).len() == 4 * blocks.len(),
        forall|i: int|
            0 <= i < blocks.len() ==> restarts_bytes(blocks).subrange(4 * i, 4 * i + 4)
                == be32_bytes(#[trigger] blocks_body(blocks.take(i)).len() as u32),
    decreases blocks.len(),
{
    reveal(restarts_bytes);
    if blocks.len() > 0 {
        let d = blocks.drop_last();
        lemma_restarts(d);
        let r = restarts_bytes(blocks);
        let n = blocks.len() - 1;
        assert(be32_bytes(blocks_body(d).len() as u32).len() == 4);
        assert forall|i: int|
            0 <= i < blocks.len() implies r.subrange(4 * i, 4 * i + 4) == be32_bytes(
            #[trigger] blocks_body(blocks.take(i)).len() as u32,
        ) by {
            if i < n {
                assert(d.take(i) =~= blocks.take(i));
                assert(r.subrange(4 * i, 4 * i + 4) =~= restarts_bytes(d).subrange(4 * i, 4 * i + 4));
            } else {
                assert(d =~= blocks.take(i));
                assert(r.subrange(4 * i, 4 * i + 4) =~= be32_bytes(blocks_body(d).len() as u32));
            }
        }
    }
}

proof fn lemma_image_trailer(blocks: Seq<Seq<(Seq<u8>, Seq<u8>)>>, bloom: Seq<u8>)
    requires
        table_holds(blocks, bloom),
    ensures
        ({
            let b = table_image(blocks, bloom);
            &&& trailer_ok(b)
            &&& restart_count(b) == blocks.len()
            &&& trailer_start(b) == blocks_body(blocks).len()
            &&& forall|i: int|
                0 <= i < blocks.len() ==> #[trigger] restart(b, i) == blocks_body(
                    blocks.take(i),
                ).len()
            &&& b.subrange(0, blocks_body(blocks).len() as int) == blocks_body(blocks)
        }),
{
    let b = table_image(blocks, bloom);
    let body = blocks_body(blocks);
    let rs = restarts_bytes(blocks);
    let n = blocks.len();
    lemma_restarts(blocks);
    lemma_be32_round_trip(n as u32);
    lemma_be32_round_trip(bloom.len() as u32);
    let ts = body.len() as int;
    let cs = ts + 4 * n;
    let bs = cs + 4;
    let end = bs + bloom.len();
    assert(b.len() == end + 4);
    assert(b.subrange(end, end + 4) =~= be32_bytes(bloom.len() as u32));
    assert(bloom_len(b) == bloom.len());
    assert(bloom_start(b) == bs);
    assert(b.subrange(cs, bs) =~= be32_bytes(n as u32));
    assert(restart_count(b) == n);
    assert(trailer_start(b) == ts);
    assert forall|i: int| 0 <= i < n implies #[trigger] restart(b, i) == blocks_body(
        blocks.take(i),
    ).len() by {
        lemma_body_prefix(blocks, i);
        lemma_be32_round_trip(blocks_body(blocks.take(i)).len() as u32);
        assert(b.subrange(ts + 4 * i, ts + 4 * i + 4) =~= rs.subrange(4 * i, 4 * i + 4));
    }
    assert(b.subrange(0, ts) =~= body);
}


proof fn lemma_image_block(blocks: Seq<Seq<(Seq<u8>, Seq<u8>)>>, bloom: Seq<u8>, i: int)
    requires
        table_holds(blocks, bloom),
        0 <= i < blocks.len(),
    ensures
        table_block(table_image(blocks, bloom), i) == block_bytes(blocks[i]),
        block_ok(table_image(blocks, bloom), i),
{
    let b = table_image(blocks, bloom);
    let n = blocks.len() as int;
    lemma_image_trailer(blocks, bloom);
    lemma_body_block(blocks, i);
    lemma_body_prefix(blocks, i + 1);
    let off = blocks_body(blocks.take(i)).len() as int;
    let end = blocks_body(blocks.take(i + 1)).len() as int;
    assert(restart(b, i) == off);
    if i + 1 < n {
        assert(restart(b, i + 1) == end);
    } else {
        assert(blocks.take(i + 1) =~= blocks);
    }
    assert(block_end(b, i) == end);
    let body = blocks_body(blocks);
    let blk = block_bytes(blocks[i]);
    assert(b.subrange(off, end) =~= blk) by {
        assert(b.subrange(0, body.len() as int) == body);
        assert(b.subrange(off, end) =~= b.subrange(0, body.len() as int).subrange(off, end));
    }
    assert(table_block(b, i) == blk);
    assert(blocks[i].len() > 0 && block_holds(blocks[i]));
    // the block's first record decodes, so its header is whole, has
    // plen == 0, and its key lies within the block
    lemma_block_iteration_faithful(blocks[i]);
    lemma_items_step(blk, 0, Seq::empty());
    assert(step(blk, 0, Seq::empty()) is Item);
    assert(header_at(b, off) == header_at(blk, 0)) by {
        assert(b.subrange(off, off + 2) =~= blk.subrange(0, 2));
        assert(b.subrange(off + 2, off + 4) =~= blk.subrange(2, 4));
        assert(b.subrange(off + 4, off + 6) =~= blk.subrange(4, 6));
        assert(b.subrange(off + 6, off + 10) =~= blk.subrange(6, 10));
    }
}

proof fn lemma_image_blocks(blocks: Seq<Seq<(Seq<u8>, Seq<u8>)>>, bloom: Seq<u8>)
    requires
        table_holds(blocks, bloom),
    ensures
        index_ok(table_image(blocks, bloom)),
        forall|i: int|
            0 <= i < blocks.len() ==> #[trigger] table_block(table_image(blocks, bloom), i)
                == block_bytes(blocks[i]),
{
    let b = table_image(blocks, bloom);
    lemma_image_trailer(blocks, bloom);
    assert forall|i: int| 0 <= i < blocks.len() implies #[trigger] table_block(b, i) == block_bytes(
        blocks[i],
    ) by {
        lemma_image_block(blocks, bloom, i);
    }
    assert forall|i: int| 0 <= i < restart_count(b) implies #[trigger] block_ok(b, i) by {
        lemma_image_block(blocks, bloom, i);
    }
}

proof fn lemma_table_step_bounds(b: Seq<u8>, block: int, pos: int, base: Seq<u8>)
    requires
        0 <= pos,
        trailer_ok(b),
        forall|i: int| 0 <= i < restart_count(b) ==> #[trigger] block_ok(b, i),
    ensures
        table_step(b, block, pos, base) matches TableStep::Item { block: nb, pos: np, .. } ==> block
            <= nb < restart_count(b) && 0 < np <= b.len(),
    decreases restart_count(b) - block,
{
    if 0 <= block < restart_count(b) {
        let blk = table_block(b, block);
        lemma_step_advances(blk, pos, base);
        assert(block_ok(b, block));
        if step(blk, pos, base) is End {
            lemma_table_step_bounds(b, block + 1, 0, Seq::empty());
        }
    }
}

proof fn lemma_table_items_block(b: Seq<u8>, block: int, pos: int, base: Seq<u8>)
    requires
        0 <= pos,
        0 <= block < restart_count(b),
        index_ok(b),
        crate::block::error_from(table_block(b, block), pos, base) is None,
    ensures
        table_items(b, block, pos, base) == items_from(table_block(b, block), pos, base)
            + table_items(b, block + 1, 0, Seq::empty()),
    decreases table_block(b, block).len() - pos,
{
    let blk = table_block(b, block);
    assert(block_ok(b, block));
    lemma_items_step(blk, pos, base);
    lemma_step_advances(blk, pos, base);
    lemma_table_step_bounds(b, block, pos, base);
    lemma_table_step_bounds(b, block + 1, 0, Seq::empty());
    match step(blk, pos, base) {
        Step::Item { key, value, base: nb, next } => {
            lemma_table_items_block(b, block, next, nb);
            assert(items_from(blk, pos, base) + table_items(b, block + 1, 0, Seq::empty())
                =~= seq![(key, value)] + (items_from(blk, next, nb) + table_items(
                b,
                block + 1,
                0,
                Seq::empty(),
            )));
        },
        Step::End => {
            assert(items_from(blk, pos, base) + table_items(b, block + 1, 0, Seq::empty())
                =~= table_items(b, block + 1, 0, Seq::empty()));
        },
        Step::Fail(e) => {},
    }
}

proof fn lemma_image_items_from(blocks: Seq<Seq<(Seq<u8>, Seq<u8>)>>, bloom: Seq<u8>, i: int)
    requires
        table_holds(blocks, bloom),
        0 <= i <= blocks.len(),
    ensures
        table_items(table_image(blocks, bloom), i, 0, Seq::empty()) == flatten(
            blocks.subrange(i, blocks.len() as int),
        ),
    decreases blocks.len() - i,
{
    let b = table_image(blocks, bloom);
    lemma_image_trailer(blocks, bloom);
    lemma_image_blocks(blocks, bloom);
    if i == blocks.len() {
        assert(blocks.subrange(i, blocks.len() as int) =~= Seq::<Seq<(Seq<u8>, Seq<u8>)>>::empty());
    } else {
        assert(table_block(b, i) == block_bytes(blocks[i]));
        lemma_block_iteration_faithful(blocks[i]);
        lemma_table_items_block(b, i, 0, Seq::empty());
        lemma_image_items_from(blocks, bloom, i + 1);
        let rest = blocks.subrange(i, blocks.len() as int);
        assert(rest.drop_first() =~= blocks.subrange(i + 1, blocks.len() as int));
        assert(rest[0] == blocks[i]);
    }
}

/// A table file made of blocks is read back whole and in order: its index
/// checks out, and iterating it yields every record of every block, block
/// after block. So where the records were written in strictly ascending
/// key order, the iterator emits keys in strictly ascending order.
pub proof fn lemma_table_iteration_ordered(blocks: Seq<Seq<(Seq<u8>, Seq<u8>)>>, bloom: Seq<u8>)
    requires
        table_holds(blocks, bloom),
    ensures
        index_ok(table_image(blocks, bloom)),
        table_items(table_image(blocks, bloom), 0, 0, Seq::empty()) == flatten(blocks),
        keys_ascending(flatten(blocks)) ==> keys_ascending(
            table_items(table_image(blocks, bloom), 0, 0, Seq::empty()),
        ),
{
    lemma_image_blocks(blocks, bloom);
    lemma_image_items_from(blocks, bloom, 0);
    assert(blocks.subrange(0, blocks.len() as int) =~= blocks);
}

/// Each record that the iterator hands out is the next of the records
/// still to come, which then go on from where it stands.
pub proof fn lemma_table_items_step(b: Seq<u8>, block: int, pos: int, base: Seq<u8>)
    requires
        0 <= pos,
        index_ok(b),
    ensures
        table_step(b, block, pos, base) matches TableStep::Item { key, value, block: nb, pos: np, base: nbase }
            ==> table_items(b, block, pos, base) == seq![(key, value)] + table_items(
            b,
            nb,
            np,
            nbase,
        ),
{
    if 0 <= block < restart_count(b) {
        let blk = table_block(b, block);
        lemma_step_advances(blk, pos, base);
        assert(block_ok(b, block));
        if step(blk, pos, base) is End {
            lemma_table_step_bounds(b, block + 1, 0, Seq::empty());
        }
    }
}

} // verus!
