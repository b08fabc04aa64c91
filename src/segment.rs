//! One segment of the value log: its fid, its path, whether it is still
//! written to, and how far.
use vstd::prelude::*;
use crate::error::Error;

verus! {

/// What a segment is, as far as the log's rules are concerned.
pub struct SegmentView {
    pub fid: u32,
    pub path: Seq<char>,
    pub readonly: bool,
    /// End of the bytes written so far; zero and meaningless once readonly.
    pub write_offset: u32,
}

/// One segment file of the value log. The open file itself belongs to the
/// caller; this records what the log knows of it.
#[derive(Debug)]
pub struct LogFile {
    fid: u32,
    file_path: String,
    readonly: bool,
    write_offset: u32,
}

impl View for LogFile {
    type V = SegmentView;

    closed spec fn view(&self) -> SegmentView {
        SegmentView {
            fid: self.fid,
            path: self.file_path@,
            readonly: self.readonly,
            write_offset: self.write_offset,
        }
    }
}

impl LogFile {
    /// The segment `fid` stored at `file_path`. A writable segment starts
    /// writing at `end_of_file`, where its file ends now; offsets are 32-bit,
    /// so one that ends past 4 GiB is refused with `SegmentTooLarge`.
    pub fn new(fid: u32, file_path: String, readonly: bool, end_of_file: u64) -> (r: Result<
        LogFile,
        Error,
    >)
        ensures
            !readonly && end_of_file > u32::MAX ==> r == Err::<LogFile, Error>(
                Error::SegmentTooLarge,
            ),
            readonly || end_of_file <= u32::MAX ==> (r matches Ok(f) && f@ == (SegmentView {
                fid,
                path: file_path@,
                readonly,
                write_offset: if readonly {
                    0
                } else {
                    end_of_file as u32
                },
            })),
    {
        if readonly {
            Ok(LogFile { fid, file_path, readonly, write_offset: 0 })
        } else if end_of_file > 0xffff_ffff {
            Err(Error::SegmentTooLarge)
        } else {
            Ok(LogFile { fid, file_path, readonly, write_offset: end_of_file as u32 })
        }
    }

    /// The segment's fid.
    #[inline]
    pub fn fid(&self) -> (r: u32)
        ensures
            r == self@.fid,
    {
        self.fid
    }

    /// The path of the segment's file.
    #[inline]
    pub fn file_path(&self) -> (r: &str)
        ensures
            r@ == self@.path,
    {
        self.file_path.as_str()
    }

    /// Whether the segment is no longer written to.
    #[inline]
    pub fn is_readonly(&self) -> (r: bool)
        ensures
            r == self@.readonly,
    {
        self.readonly
    }

    /// Where the next write goes, for a writable segment.
    #[inline]
    pub fn write_offset(&self) -> (r: Option<u32>)
        ensures
            self@.readonly ==> r is None,
            !self@.readonly ==> r == Some(self@.write_offset),
    {
        if self.readonly {
            None
        } else {
            Some(self.write_offset)
        }
    }

    /// Records that `len` more bytes were appended to a writable segment.
    pub fn advance(&mut self, len: u32)
        requires
            !old(self)@.readonly,
            old(self)@.write_offset + len <= u32::MAX,
        ensures
            final(self)@ == (SegmentView {
                write_offset: (old(self)@.write_offset + len) as u32,
                ..old(self)@
            }),
    {
        self.write_offset = self.write_offset + len;
    }

    /// The same segment, no longer written to.
    pub fn into_readonly(self) -> (r: LogFile)
        ensures
            r@ == (SegmentView { readonly: true, write_offset: 0, ..self@ }),
    {
        LogFile { fid: self.fid, file_path: self.file_path, readonly: true, write_offset: 0 }
    }
}

} // verus!
