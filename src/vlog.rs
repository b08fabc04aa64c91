//! The value log: a directory of segments of which exactly one, the one
//! with the largest fid, is written to. Batches of records are appended to
//! it whole; once it has reached its size limit, the next batch rolls the
//! log over to a fresh segment.
//!
//! File work is left to the caller, and this type decides: which files make
//! up the log, when to roll over, where each record of a batch goes, and
//! whether a pointer may be read.
use vstd::prelude::*;
use vstd::utf8::encode_utf8;
use crate::error::Error;
use crate::names::{has_log_suffix, is_log_file_name, parse_fid, parse_name, segment_path, segment_path_spec};
use crate::segment::{LogFile, SegmentView};
use crate::value::{decode_record, lemma_record_round_trip, record_bytes, record_fits, Value, ValuePointer};

verus! {

/// Where the value log lives and how it writes.
pub struct ValueOption {
    pub dir: String,
    pub segment_max_size: u32,
    pub sync: bool,
}

impl ValueOption {
    /// Options for a log in `dir` whose segments roll over once they hold
    /// `segment_max_size` bytes, and whose writes are synced to disk if `sync`.
    pub fn new(dir: &str, segment_max_size: u32, sync: bool) -> (r: ValueOption)
        ensures
            r.dir@ == dir@,
            r.segment_max_size == segment_max_size,
            r.sync == sync,
    {
        ValueOption { dir: String::from_str(dir), segment_max_size, sync }
    }
}

/// The bytes of a file name.
pub open spec fn name_bytes(s: String) -> Seq<u8> {
    encode_utf8(s@)
}

/// Among the first `n` names, one is a segment file's name that stands for `f`.
pub open spec fn names_give_fid(names: Seq<String>, n: int, f: u32) -> bool {
    exists|i: int|
        0 <= i < n && has_log_suffix(name_bytes(#[trigger] names[i])) && parse_name(
            name_bytes(names[i]),
        ) == Ok::<u32, Error>(f)
}

/// Each of the first `n` names that has the segment suffix stands for a fid.
pub open spec fn names_parse(names: Seq<String>, n: int) -> bool {
    forall|i: int|
        0 <= i < n && has_log_suffix(name_bytes(#[trigger] names[i])) ==> parse_name(
            name_bytes(names[i]),
        ) is Ok
}

pub open spec fn strictly_ascending(s: Seq<u32>) -> bool {
    forall|i: int, j: int| 0 <= i < j < s.len() ==> s[i] < s[j]
}

/// Key and value of each record.
pub open spec fn views(es: Seq<Value>) -> Seq<(Seq<u8>, Seq<u8>)> {
    es.map_values(|v: Value| v@)
}

/// The encoded records of a batch, one after the other.
#[verifier::opaque]
pub open spec fn batch_bytes(es: Seq<(Seq<u8>, Seq<u8>)>) -> Seq<u8>
    decreases es.len(),
{
    if es.len() == 0 {
        Seq::empty()
    } else {
        batch_bytes(es.drop_last()) + record_bytes(es.last().0, es.last().1)
    }
}

/// Whether every record of a batch can be encoded, and the batch can be
/// written at `offset` with every record's offset a `u32`.
pub open spec fn batch_fits(es: Seq<(Seq<u8>, Seq<u8>)>, offset: u32) -> bool {
    &&& forall|i: int| 0 <= i < es.len() ==> record_fits(#[trigger] es[i].0, es[i].1)
    &&& offset + batch_bytes(es).len() <= u32::MAX
}

/// The pointers to the records of a batch written at `offset` of segment `fid`.
pub open spec fn batch_pointers(fid: u32, offset: u32, es: Seq<(Seq<u8>, Seq<u8>)>) -> Seq<
    ValuePointer,
> {
    Seq::new(
        es.len(),
        |i: int|
            ValuePointer {
                fid,
                offset: (offset + batch_bytes(es.take(i)).len()) as u32,
                len: record_bytes(es[i].0, es[i].1).len() as u32,
            },
    )
}

/// The value log as its rules see it.
pub struct ValueLogView {
    pub dir: Seq<char>,
    pub segment_max_size: u32,
    pub sync: bool,
    /// In ascending order of fid; the last one is the active segment.
    pub segments: Seq<SegmentView>,
    pub cur_fid: u32,
    /// The encoded batch that waits to be appended to the active segment.
    pub pending: Seq<u8>,
}

impl ValueLogView {
    pub open spec fn active(self) -> SegmentView {
        self.segments.last()
    }

    pub open spec fn has_segment(self, fid: u32) -> bool {
        exists|i: int| 0 <= i < self.segments.len() && (#[trigger] self.segments[i]).fid == fid
    }

    pub open spec fn fids(self) -> Seq<u32> {
        self.segments.map_values(|s: SegmentView| s.fid)
    }

    /// Exactly one segment, the last, is written to; its fid is the largest
    /// and the current one; every segment sits at its canonical path; the
    /// pending batch fits in the active segment.
    pub open spec fn wf(self) -> bool {
        &&& self.segments.len() >= 1
        &&& forall|i: int, j: int|
            0 <= i < j < self.segments.len() ==> self.segments[i].fid < self.segments[j].fid
        &&& self.active().fid == self.cur_fid
        &&& !self.active().readonly
        &&& forall|i: int| 0 <= i < self.segments.len() - 1 ==> (#[trigger] self.segments[i]).readonly
        &&& forall|i: int|
            0 <= i < self.segments.len() ==> (#[trigger] self.segments[i]).path == segment_path_spec(
                self.dir,
                self.segments[i].fid,
            )
        &&& self.active().write_offset + self.pending.len() <= u32::MAX
    }

    /// Whether the active segment has reached the size at which the log rolls over.
    pub open spec fn over_limit(self) -> bool {
        self.active().write_offset >= self.segment_max_size
    }
}

/// From `a` the log can reach `b`: the current fid has not gone down, and
/// every segment that was no longer written to is still there, unchanged.
pub open spec fn evolves(a: ValueLogView, b: ValueLogView) -> bool {
    &&& a.cur_fid <= b.cur_fid
    &&& a.dir == b.dir
    &&& forall|i: int|
        0 <= i < a.segments.len() && (#[trigger] a.segments[i]).readonly ==> b.segments.contains(
            a.segments[i],
        )
}

/// A log only ever moves forward: what one step after another reaches is
/// reached from the start too.
pub proof fn lemma_evolves_transitive(a: ValueLogView, b: ValueLogView, c: ValueLogView)
    requires
        evolves(a, b),
        evolves(b, c),
    ensures
        evolves(a, c),
{
    assert forall|i: int|
        0 <= i < a.segments.len() && (#[trigger] a.segments[i]).readonly implies c.segments.contains(
        a.segments[i],
    ) by {
        let j = choose|j: int| 0 <= j < b.segments.len() && b.segments[j] == a.segments[i];
        assert(b.segments[j].readonly);
    }
}

/// The fid of the segment to write to, given the fids found: the largest,
/// or 0 where there are none.
pub open spec fn active_fid_spec(fids: Seq<u32>) -> u32 {
    if fids.len() == 0 {
        0
    } else {
        fids.last()
    }
}

/// The directory-level log.
#[derive(Debug)]
pub struct ValueLog {
    dir_path: String,
    segment_max_size: u32,
    sync: bool,
    log_files: Vec<LogFile>,
    cur_fid: u32,
    write_buffer: Vec<u8>,
}

impl View for ValueLog {
    type V = ValueLogView;

    closed spec fn view(&self) -> ValueLogView {
        ValueLogView {
            dir: self.dir_path@,
            segment_max_size: self.segment_max_size,
            sync: self.sync,
            segments: self.log_files@.map_values(|f: LogFile| f@),
            cur_fid: self.cur_fid,
            pending: self.write_buffer@,
        }
    }
}

/// Adds `x` to an ascending list of distinct fids, unless it is there.
fn insert_sorted(v: &mut Vec<u32>, x: u32)
    requires
        strictly_ascending(old(v)@),
    ensures
        strictly_ascending(final(v)@),
        forall|f: u32| final(v)@.contains(f) <==> (old(v)@.contains(f) || f == x),
{
    let mut j: usize = 0;
    while j < v.len() && v[j] < x
        invariant
            j <= v@.len(),
            v@ == old(v)@,
            forall|k: int| 0 <= k < j ==> v@[k] < x,
        decreases v@.len() - j,
    {
        j = j + 1;
    }
    if j < v.len() && v[j] == x {
        assert(v@[j as int] == x);
        return;
    }
    let ghost before = v@;
    assert(before == old(v)@);
    v.insert(j, x);
    assert(v@ =~= before.subrange(0, j as int).push(x) + before.subrange(j as int, before.len() as int));
    assert forall|f: u32| v@.contains(f) <==> (before.contains(f) || f == x) by {
        if before.contains(f) {
            let k = choose|k: int| 0 <= k < before.len() && before[k] == f;
            if k < j {
                assert(v@[k] == f);
            } else {
                assert(v@[k + 1] == f);
            }
        }
        if v@.contains(f) {
            let k = choose|k: int| 0 <= k < v@.len() && v@[k] == f;
            if k < j {
                assert(before[k] == f);
            } else if k > j {
                assert(before[k - 1] == f);
            }
        }
        if f == x {
            assert(v@[j as int] == x);
        }
    }
    assert(forall|f: u32| v@.contains(f) <==> (old(v)@.contains(f) || f == x));
}

impl ValueLog {
    /// The fids of the segment files among the names of a directory's
    /// regular files, ascending and each once. A name with the segment
    /// suffix whose stem is no fid fails with `InvalidFilename`; names
    /// without the suffix are ignored.
    pub fn segment_fids(names: &[String]) -> (r: Result<Vec<u32>, Error>)
        ensures
            r is Ok <==> names_parse(names@, names@.len() as int),
            r matches Err(e) ==> e == Error::InvalidFilename,
            r matches Ok(v) ==> strictly_ascending(v@) && forall|f: u32|
                v@.contains(f) <==> names_give_fid(names@, names@.len() as int, f),
    {
        let mut fids: Vec<u32> = Vec::new();
        let mut i: usize = 0;
        while i < names.len()
            invariant
                i <= names@.len(),
                strictly_ascending(fids@),
                forall|f: u32| fids@.contains(f) <==> names_give_fid(names@, i as int, f),
                names_parse(names@, i as int),
            decreases names@.len() - i,
        {
            let name = names[i].as_str();
            if is_log_file_name(name) {
                match parse_fid(name) {
                    Ok(f) => {
                        insert_sorted(&mut fids, f);
                        assert forall|g: u32|
                            fids@.contains(g) <==> names_give_fid(names@, i + 1, g) by {
                            if names_give_fid(names@, i + 1, g) {
                                let k = choose|k: int|
                                    0 <= k < i + 1 && has_log_suffix(name_bytes(#[trigger] names@[k]))
                                        && parse_name(name_bytes(names@[k])) == Ok::<u32, Error>(g);
                                if k < i {
                                    assert(names_give_fid(names@, i as int, g));
                                }
                            }
                            if names_give_fid(names@, i as int, g) {
                                let k = choose|k: int|
                                    0 <= k < i && has_log_suffix(name_bytes(#[trigger] names@[k]))
                                        && parse_name(name_bytes(names@[k])) == Ok::<u32, Error>(g);
                                assert(names_give_fid(names@, i + 1, g));
                            }
                            if g == f {
                                assert(names_give_fid(names@, i + 1, g));
                            }
                        }
                    },
                    Err(e) => {
                        assert(!names_parse(names@, names@.len() as int));
                        return Err(e);
                    },
                }
            } else {
                assert forall|g: u32|
                    fids@.contains(g) <==> names_give_fid(names@, i + 1, g) by {
                    if names_give_fid(names@, i + 1, g) {
                        let k = choose|k: int|
                            0 <= k < i + 1 && has_log_suffix(name_bytes(#[trigger] names@[k]))
                                && parse_name(name_bytes(names@[k])) == Ok::<u32, Error>(g);
                        assert(names_give_fid(names@, i as int, g));
                    }
                    if names_give_fid(names@, i as int, g) {
                        let k = choose|k: int|
                            0 <= k < i && has_log_suffix(name_bytes(#[trigger] names@[k]))
                                && parse_name(name_bytes(names@[k])) == Ok::<u32, Error>(g);
                        assert(names_give_fid(names@, i + 1, g));
                    }
                }
            }
            i = i + 1;
        }
        Ok(fids)
    }

    /// The fid of the segment to write to: the largest of `fids`, or 0.
    pub fn active_fid(fids: &[u32]) -> (r: u32)
        ensures
            r == active_fid_spec(fids@),
    {
        if fids.len() == 0 {
            0
        } else {
            fids[fids.len() - 1]
        }
    }
}

/// Each record's length is its header, key, value and checksum.
pub proof fn lemma_record_len(k: Seq<u8>, v: Seq<u8>)
    ensures
        record_bytes(k, v).len() == 12 + k.len() + v.len(),
{
}

proof fn lemma_batch_take_step(es: Seq<(Seq<u8>, Seq<u8>)>, i: int)
    requires
        0 <= i < es.len(),
    ensures
        batch_bytes(es.take(i + 1)) == batch_bytes(es.take(i)) + record_bytes(es[i].0, es[i].1),
{
    reveal(batch_bytes);
    assert(es.take(i + 1).drop_last() =~= es.take(i));
}

proof fn lemma_batch_empty(es: Seq<(Seq<u8>, Seq<u8>)>)
    ensures
        batch_bytes(es.take(0)) == Seq::<u8>::empty(),
{
    reveal(batch_bytes);
    assert(es.take(0) =~= Seq::<(Seq<u8>, Seq<u8>)>::empty());
}

proof fn lemma_batch_prefix(es: Seq<(Seq<u8>, Seq<u8>)>, i: int)
    requires
        0 <= i <= es.len(),
    ensures
        batch_bytes(es.take(i)).len() <= batch_bytes(es).len(),
        batch_bytes(es).subrange(0, batch_bytes(es.take(i)).len() as int) == batch_bytes(es.take(i)),
    decreases es.len(),
{
    reveal(batch_bytes);
    if i == es.len() {
        assert(es.take(i) =~= es);
        assert(batch_bytes(es).subrange(0, batch_bytes(es).len() as int) =~= batch_bytes(es));
    } else {
        let d = es.drop_last();
        lemma_batch_prefix(d, i);
        assert(d.take(i) =~= es.take(i));
        let p = batch_bytes(es.take(i));
        assert(batch_bytes(es).subrange(0, p.len() as int) =~= batch_bytes(d).subrange(
            0,
            p.len() as int,
        ));
    }
}

/// Each pointer of a batch frames the record of its entry within the
/// batch's bytes, and that record decodes to the entry: so a batch that is
/// written, then read back through its pointers, gives back its entries.
pub proof fn lemma_pointer_identity(fid: u32, offset: u32, es: Seq<(Seq<u8>, Seq<u8>)>)
    requires
        batch_fits(es, offset),
    ensures
        forall|i: int|
            0 <= i < es.len() ==> {
                let p = #[trigger] batch_pointers(fid, offset, es)[i];
                &&& p.fid == fid
                &&& offset <= p.offset
                &&& p.offset + p.len <= offset + batch_bytes(es).len()
                &&& decode_record(
                    batch_bytes(es).subrange(p.offset - offset, p.offset - offset + p.len),
                ) == Ok::<(Seq<u8>, Seq<u8>), Error>(es[i])
            },
{
    assert forall|i: int| 0 <= i < es.len() implies {
        let p = #[trigger] batch_pointers(fid, offset, es)[i];
        &&& p.fid == fid
        &&& offset <= p.offset
        &&& p.offset + p.len <= offset + batch_bytes(es).len()
        &&& decode_record(batch_bytes(es).subrange(p.offset - offset, p.offset - offset + p.len))
            == Ok::<(Seq<u8>, Seq<u8>), Error>(es[i])
    } by {
        let p = batch_pointers(fid, offset, es)[i];
        let (k, v) = es[i];
        lemma_batch_take_step(es, i);
        lemma_batch_prefix(es, i + 1);
        let a = batch_bytes(es.take(i));
        let b = batch_bytes(es.take(i + 1));
        lemma_record_len(k, v);
        assert(record_fits(es[i].0, es[i].1));
        assert(p.offset == offset + a.len());
        assert(p.len == record_bytes(k, v).len());
        assert(batch_bytes(es).subrange(a.len() as int, b.len() as int) =~= record_bytes(k, v)) by {
            assert(batch_bytes(es).subrange(a.len() as int, b.len() as int) =~= b.subrange(
                a.len() as int,
                b.len() as int,
            ));
        }
        lemma_record_round_trip(k, v);
    }
}

impl ValueLog {
    /// The log of `opt.dir` whose segments have the ascending `fids` found
    /// there: the last one, or 0 where there are none, is written to, from
    /// `active_end` on, where its file ends; the others are read only.
    /// Fails with `SegmentTooLarge` where `active_end` is past 4 GiB.
    pub fn open(opt: &ValueOption, fids: &[u32], active_end: u64) -> (r: Result<ValueLog, Error>)
        requires
            strictly_ascending(fids@),
        ensures
            r is Err <==> active_end > u32::MAX,
            r matches Err(e) ==> e == Error::SegmentTooLarge,
            r matches Ok(vl) ==> {
                &&& vl@.wf()
                &&& vl@.dir == opt.dir@
                &&& vl@.segment_max_size == opt.segment_max_size
                &&& vl@.sync == opt.sync
                &&& vl@.cur_fid == active_fid_spec(fids@)
                &&& vl@.fids() == if fids@.len() == 0 {
                    seq![0u32]
                } else {
                    fids@
                }
                &&& vl@.active().write_offset == active_end
                &&& vl@.pending.len() == 0
            },
    {
        let cur_fid = Self::active_fid(fids);
        let mut log_files: Vec<LogFile> = Vec::new();
        let n: usize = if fids.len() == 0 {
            0
        } else {
            fids.len() - 1
        };
        let mut i: usize = 0;
        while i < n
            invariant
                i <= n,
                n == if fids@.len() == 0 {
                    0
                } else {
                    fids@.len() - 1
                },
                log_files@.len() == i,
                forall|j: int|
                    0 <= j < i ==> (#[trigger] log_files@[j])@ == (SegmentView {
                        fid: fids@[j],
                        path: segment_path_spec(opt.dir@, fids@[j]),
                        readonly: true,
                        write_offset: 0,
                    }),
            decreases n - i,
        {
            let fid = fids[i];
            let path = segment_path(opt.dir.as_str(), fid);
            match LogFile::new(fid, path, true, 0) {
                Ok(f) => log_files.push(f),
                Err(e) => return Err(e),
            }
            i = i + 1;
        }
        let path = segment_path(opt.dir.as_str(), cur_fid);
        let active = match LogFile::new(cur_fid, path, false, active_end) {
            Ok(f) => f,
            Err(e) => return Err(e),
        };
        log_files.push(active);
        let vl = ValueLog {
            dir_path: opt.dir.clone(),
            segment_max_size: opt.segment_max_size,
            sync: opt.sync,
            log_files,
            cur_fid,
            write_buffer: Vec::new(),
        };
        proof {
            let v = vl@;
            assert(v.segments.len() == n + 1);
            if fids@.len() == 0 {
                assert(v.fids() =~= seq![0u32]);
            } else {
                assert(v.fids() =~= fids@);
            }
        }
        Ok(vl)
    }
}


/// Encodes a batch to be written at `start` of segment `fid`: its bytes,
/// and a pointer to each record.
fn encode_batch(entries: &[Value], fid: u32, start: u32) -> (r: Result<
    (Vec<u8>, Vec<ValuePointer>),
    Error,
>)
    ensures
        r is Ok <==> batch_fits(views(entries@), start),
        r matches Err(e) ==> e == Error::RecordTooLarge,
        r matches Ok((buf, ps)) ==> buf@ == batch_bytes(views(entries@)) && ps@ == batch_pointers(
            fid,
            start,
            views(entries@),
        ),
{
    let ghost es = views(entries@);
    let ghost pointers = batch_pointers(fid, start, es);
    proof {
        lemma_batch_empty(es);
    }
    let mut buf: Vec<u8> = Vec::new();
    let mut value_pointers: Vec<ValuePointer> = Vec::new();
    let mut cur_offset: u64 = start as u64;
    let mut i: usize = 0;
    while i < entries.len()
        invariant
            i <= entries@.len(),
            es == views(entries@),
            pointers == batch_pointers(fid, start, es),
            buf@ == batch_bytes(es.take(i as int)),
            cur_offset == start + buf@.len(),
            cur_offset <= u32::MAX,
            value_pointers@.len() == i,
            forall|k: int| 0 <= k < i ==> value_pointers@[k] == pointers[k],
            forall|k: int| 0 <= k < i ==> record_fits(#[trigger] es[k].0, es[k].1),
        decreases entries@.len() - i,
    {
        let entry = &entries[i];
        proof {
            lemma_batch_take_step(es, i as int);
            assert(es[i as int] == entry@);
        }
        match entry.encode(&mut buf) {
            Ok(len) => {
                if cur_offset + len as u64 > 0xffff_ffff {
                    proof {
                        lemma_batch_prefix(es, i + 1);
                    }
                    return Err(Error::RecordTooLarge);
                }
                let p = ValuePointer::new(fid, cur_offset as u32, len);
                proof {
                    lemma_record_len(entry@.0, entry@.1);
                    assert(p == pointers[i as int]);
                }
                value_pointers.push(p);
                cur_offset = cur_offset + len as u64;
            },
            Err(e) => {
                assert(!record_fits(es[i as int].0, es[i as int].1));
                return Err(e);
            },
        }
        i = i + 1;
    }
    proof {
        assert(es.take(i as int) =~= es);
        assert(value_pointers@ =~= pointers);
    }
    Ok((buf, value_pointers))
}

impl ValueLog {
    /// Whether the active segment has reached the segment size limit, so
    /// that the log rolls over before the next batch.
    pub fn should_rollover(&self) -> (r: bool)
        requires
            self@.wf(),
        ensures
            r == self@.over_limit(),
    {
        let n = self.log_files.len();
        let active = &self.log_files[n - 1];
        proof {
            assert(self@.active() == active@);
        }
        match active.write_offset() {
            Some(off) => off >= self.segment_max_size,
            None => false,
        }
    }

    /// Encodes a batch, in order, as the pending bytes to append to the
    /// active segment at its write offset, and returns a pointer to each
    /// record. A batch goes to the active segment only while that segment
    /// is under its size limit, or empty. Fails with `RecordTooLarge`, and
    /// leaves nothing pending, where a record is too long to encode or the
    /// batch would carry the segment past 4 GiB.
    pub fn write(&mut self, entries: &[Value]) -> (r: Result<Vec<ValuePointer>, Error>)
        requires
            old(self)@.wf(),
            !old(self)@.over_limit() || old(self)@.active().write_offset == 0,
        ensures
            final(self)@.wf(),
            final(self)@ == (ValueLogView { pending: final(self)@.pending, ..old(self)@ }),
            evolves(old(self)@, final(self)@),
            r is Ok <==> batch_fits(views(entries@), old(self)@.active().write_offset),
            r matches Err(e) ==> e == Error::RecordTooLarge && final(self)@.pending.len() == 0,
            r matches Ok(ps) ==> {
                &&& final(self)@.pending == batch_bytes(views(entries@))
                &&& ps@ == batch_pointers(
                    old(self)@.cur_fid,
                    old(self)@.active().write_offset,
                    views(entries@),
                )
            },
    {
        let n = self.log_files.len();
        let start: u32 = match self.log_files[n - 1].write_offset() {
            Some(off) => off,
            None => 0,
        };
        proof {
            assert(self@.active() == self.log_files@[n - 1]@);
        }
        match encode_batch(entries, self.cur_fid, start) {
            Ok((buf, value_pointers)) => {
                self.write_buffer = buf;
                proof {
                    assert(self@.segments == old(self)@.segments);
                }
                Ok(value_pointers)
            },
            Err(e) => {
                self.write_buffer = Vec::new();
                proof {
                    assert(self@.segments == old(self)@.segments);
                }
                Err(e)
            },
        }
    }

    /// The pending bytes of the last batch, to append to the active segment.
    pub fn write_buffer(&self) -> (r: &[u8])
        ensures
            r@ == self@.pending,
    {
        self.write_buffer.as_slice()
    }

    /// Records that the pending bytes were appended to the active segment:
    /// its write offset moves past them, and nothing is pending any more.
    pub fn commit_write(&mut self)
        requires
            old(self)@.wf(),
        ensures
            final(self)@.wf(),
            evolves(old(self)@, final(self)@),
            final(self)@ == (ValueLogView {
                segments: old(self)@.segments.update(
                    old(self)@.segments.len() - 1,
                    SegmentView {
                        write_offset: (old(self)@.active().write_offset
                            + old(self)@.pending.len()) as u32,
                        ..old(self)@.active()
                    },
                ),
                pending: Seq::empty(),
                ..old(self)@
            }),
    {
        let len = self.write_buffer.len() as u32;
        let ghost segs = old(self)@.segments;
        match self.log_files.pop() {
            Some(mut active) => {
                active.advance(len);
                self.log_files.push(active);
            },
            None => {},
        }
        self.write_buffer.clear();
        proof {
            let new_segs = self@.segments;
            assert(new_segs =~= segs.update(
                segs.len() - 1,
                SegmentView {
                    write_offset: (old(self)@.active().write_offset + old(self)@.pending.len()) as u32,
                    ..old(self)@.active()
                },
            ));
            assert forall|i: int|
                0 <= i < segs.len() && (#[trigger] segs[i]).readonly implies new_segs.contains(
                segs[i],
            ) by {
                assert(new_segs[i] == segs[i]);
            }
        }
    }

    /// Rolls the log over to a fresh segment: the active segment becomes
    /// read only, and a new, empty one with the next fid is written to. The
    /// log rolls over only once the active segment has reached its size
    /// limit. Fails with `FidExhausted`, changing nothing, where the active
    /// fid is the largest there is.
    pub fn rollover(&mut self) -> (r: Result<(), Error>)
        requires
            old(self)@.wf(),
            old(self)@.over_limit(),
        ensures
            r is Err <==> old(self)@.cur_fid == u32::MAX,
            r matches Err(e) ==> e == Error::FidExhausted && final(self)@ == old(self)@,
            final(self)@.wf(),
            evolves(old(self)@, final(self)@),
            r is Ok ==> final(self)@ == (ValueLogView {
                segments: old(self)@.segments.update(
                    old(self)@.segments.len() - 1,
                    SegmentView { readonly: true, write_offset: 0, ..old(self)@.active() },
                ).push(
                    SegmentView {
                        fid: (old(self)@.cur_fid + 1) as u32,
                        path: segment_path_spec(old(self)@.dir, (old(self)@.cur_fid + 1) as u32),
                        readonly: false,
                        write_offset: 0,
                    },
                ),
                cur_fid: (old(self)@.cur_fid + 1) as u32,
                ..old(self)@
            }),
    {
        if self.cur_fid == 0xffff_ffff {
            return Err(Error::FidExhausted);
        }
        let ghost segs = old(self)@.segments;
        let next = self.cur_fid + 1;
        let path = segment_path(self.dir_path.as_str(), next);
        let fresh = match LogFile::new(next, path, false, 0) {
            Ok(f) => f,
            Err(e) => return Err(e),
        };
        match self.log_files.pop() {
            Some(active) => {
                self.log_files.push(active.into_readonly());
            },
            None => {},
        }
        self.log_files.push(fresh);
        self.cur_fid = next;
        proof {
            let new_segs = self@.segments;
            let sealed = segs.update(
                segs.len() - 1,
                SegmentView { readonly: true, write_offset: 0, ..old(self)@.active() },
            );
            assert(new_segs =~= sealed.push(
                SegmentView {
                    fid: next,
                    path: segment_path_spec(old(self)@.dir, next),
                    readonly: false,
                    write_offset: 0,
                },
            ));
            assert forall|i: int|
                0 <= i < segs.len() && (#[trigger] segs[i]).readonly implies new_segs.contains(
                segs[i],
            ) by {
                assert(new_segs[i] == segs[i]);
            }
        }
        Ok(())
    }

    /// The segment to read a pointer from. A pointer into the active
    /// segment at or past its write offset, where nothing has been written
    /// yet, and a pointer into a segment that the log does not have, fail
    /// with `UnexpectedEof`.
    pub fn locate(&self, pointer: &ValuePointer) -> (r: Result<&LogFile, Error>)
        requires
            self@.wf(),
        ensures
            r is Err <==> (pointer.fid == self@.cur_fid && pointer.offset
                >= self@.active().write_offset) || !self@.has_segment(pointer.fid),
            r matches Err(e) ==> e == Error::UnexpectedEof,
            r matches Ok(f) ==> f@.fid == pointer.fid && self@.segments.contains(f@),
    {
        let n = self.log_files.len();
        proof {
            assert(self@.active() == self.log_files@[n - 1]@);
        }
        if pointer.fid == self.cur_fid {
            let off = match self.log_files[n - 1].write_offset() {
                Some(o) => o,
                None => 0,
            };
            if pointer.offset >= off {
                return Err(Error::UnexpectedEof);
            }
        }
        let mut i: usize = 0;
        while i < n
            invariant
                i <= n,
                n == self.log_files@.len(),
                n == self@.segments.len(),
                pointer.fid == self@.cur_fid ==> pointer.offset < self@.active().write_offset,
                forall|j: int| 0 <= j < i ==> (#[trigger] self@.segments[j]).fid != pointer.fid,
            decreases n - i,
        {
            let f = &self.log_files[i];
            proof {
                assert(self@.segments[i as int] == f@);
            }
            if f.fid() == pointer.fid {
                assert(self@.segments[i as int].fid == pointer.fid);
                return Ok(f);
            }
            i = i + 1;
        }
        Err(Error::UnexpectedEof)
    }

    /// The size at which a segment is rolled over.
    pub fn segment_max_size(&self) -> (r: u32)
        ensures
            r == self@.segment_max_size,
    {
        self.segment_max_size
    }

    /// The write offset of the active segment.
    pub fn write_offset(&self) -> (r: Option<u32>)
        requires
            self@.wf(),
        ensures
            r == Some(self@.active().write_offset),
    {
        let n = self.log_files.len();
        proof {
            assert(self@.active() == self.log_files@[n - 1]@);
        }
        self.log_files[n - 1].write_offset()
    }

    /// The segment that is written to.
    pub fn active_segment(&self) -> (r: Option<&LogFile>)
        requires
            self@.wf(),
        ensures
            r matches Some(f) && f@ == self@.active(),
    {
        let n = self.log_files.len();
        proof {
            assert(self@.active() == self.log_files@[n - 1]@);
        }
        Some(&self.log_files[n - 1])
    }

    /// The fid of the segment that is written to.
    pub fn cur_fid(&self) -> (r: u32)
        ensures
            r == self@.cur_fid,
    {
        self.cur_fid
    }

    /// The log's directory.
    pub fn dir_path(&self) -> (r: &str)
        ensures
            r@ == self@.dir,
    {
        self.dir_path.as_str()
    }

    /// Whether writes are synced to disk.
    pub fn sync(&self) -> (r: bool)
        ensures
            r == self@.sync,
    {
        self.sync
    }

    /// Every segment, in ascending order of fid.
    pub fn log_files(&self) -> (r: &[LogFile])
        ensures
            r@.map_values(|f: LogFile| f@) == self@.segments,
    {
        self.log_files.as_slice()
    }
}

} // verus!
