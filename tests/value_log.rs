use std::collections::HashMap;
use wisckey::error::Error;
use wisckey::value::{Value, ValuePointer};
use wisckey::vlog::{ValueLog, ValueOption};

/// Segment contents, as a directory of files would hold them.
type Disk = HashMap<u32, Vec<u8>>;

fn names(list: &[&str]) -> Vec<String> {
    list.iter().map(|s| s.to_string()).collect()
}

fn open(max: u32, files: &[&str], disk: &Disk) -> Result<ValueLog, Error> {
    let fids = ValueLog::segment_fids(&names(files))?;
    let active = ValueLog::active_fid(&fids);
    let end = disk.get(&active).map(|b| b.len() as u64).unwrap_or(0);
    ValueLog::open(&ValueOption::new("/tmp/a", max, false), &fids, end)
}

fn write(vl: &mut ValueLog, disk: &mut Disk, ents: &[Value]) -> Result<Vec<ValuePointer>, Error> {
    if vl.should_rollover() {
        vl.rollover()?;
    }
    let pointers = vl.write(ents)?;
    disk.entry(vl.cur_fid()).or_default().extend_from_slice(vl.write_buffer());
    vl.commit_write();
    Ok(pointers)
}

fn read(vl: &ValueLog, disk: &Disk, p: &ValuePointer) -> Result<Value, Error> {
    let segment = vl.locate(p)?;
    let bytes = disk.get(&segment.fid()).ok_or(Error::UnexpectedEof)?;
    let start = p.offset() as usize;
    let end = start + p.len() as usize;
    if end > bytes.len() {
        return Err(Error::UnexpectedEof);
    }
    Value::decode(&bytes[start..end])
}

#[test]
fn values_test_open() {
    let vl = open(1024 * 1024 * 128, &["000001.vlog", "000002.vlog"], &Disk::new());
    assert!(vl.is_ok(), "{:?}", vl.err());
    let vlog = vl.unwrap();
    assert_eq!(vlog.log_files().len(), 2);
    assert_eq!(vlog.cur_fid(), 2);
    assert!(vlog.log_files()[0].is_readonly());
    assert_eq!(vlog.log_files()[0].file_path(), "/tmp/a/000001.vlog");
}

#[test]
fn values_test_open_with_invalid_log_file() {
    let vl = open(1024 * 1024 * 128, &["000001.vlog", "v1.vlog"], &Disk::new());
    assert!(vl.is_err());
    assert_eq!(vl.err(), Some(Error::InvalidFilename));
}

#[test]
fn open_empty_dir() {
    let vl = open(1 << 27, &[], &Disk::new()).unwrap();
    assert_eq!(vl.log_files().len(), 1);
    assert_eq!(vl.cur_fid(), 0);
    assert_eq!(vl.write_offset(), Some(0));
    assert_eq!(vl.active_segment().unwrap().file_path(), "/tmp/a/000000.vlog");
}

#[test]
fn open_ignores_other_files_and_duplicate_fids() {
    let fids = ValueLog::segment_fids(&names(&["3.vlog", "notes.txt", "0003.vlog", "000001.vlog"]));
    assert_eq!(fids, Ok(vec![1, 3]));
}

#[test]
fn open_starts_writing_at_end_of_active_file() {
    let fids = vec![4u32, 9];
    let vl = ValueLog::open(&ValueOption::new("d", 100, true), &fids, 77).unwrap();
    assert_eq!(vl.cur_fid(), 9);
    assert_eq!(vl.write_offset(), Some(77));
    assert!(vl.sync());
    assert_eq!(vl.segment_max_size(), 100);
    let big = ValueLog::open(&ValueOption::new("d", 100, true), &fids, 1u64 << 32);
    assert_eq!(big.err(), Some(Error::SegmentTooLarge));
}

#[test]
fn test_write_entries() {
    let mut disk = Disk::new();
    let mut vl = open(1024 * 1024 * 128, &[], &disk).unwrap();
    let ents = vec![Value::new(b"key1", b"value1")];
    let len = write(&mut vl, &mut disk, &ents);
    assert!(len.is_ok());
}

#[test]
fn test_write_rollover() {
    // max segment size set to 32, insert kv, with size 8, 8 + 4 + 4 + 4 = 20.
    let mut disk = Disk::new();
    let mut vl = open(32, &[], &disk).unwrap();

    let ents = vec![Value::new(b"11", b"222222"); 2];
    write(&mut vl, &mut disk, &ents).unwrap();
    assert!(vl.should_rollover());
    assert_eq!(0, vl.active_segment().unwrap().fid());

    write(&mut vl, &mut disk, &ents[0..1]).unwrap();
    assert_eq!(1, vl.active_segment().unwrap().fid());
    assert!(!vl.should_rollover());

    write(&mut vl, &mut disk, &ents).unwrap();
    assert_eq!(1, vl.active_segment().unwrap().fid());
    assert!(vl.should_rollover());

    write(&mut vl, &mut disk, &ents[0..1]).unwrap();
    assert_eq!(2, vl.active_segment().unwrap().fid());
    assert!(!vl.should_rollover());
}

#[test]
fn rollover_sequence_offsets() {
    let mut disk = Disk::new();
    let mut vl = open(32, &[], &disk).unwrap();
    let ents = vec![Value::new(b"11", b"222222"); 2];
    write(&mut vl, &mut disk, &ents).unwrap();
    assert_eq!(vl.write_offset(), Some(40));
    write(&mut vl, &mut disk, &ents[0..1]).unwrap();
    assert_eq!(vl.write_offset(), Some(20));
    assert!(vl.log_files()[0].is_readonly());
    assert_eq!(vl.log_files()[0].write_offset(), None);
    write(&mut vl, &mut disk, &ents).unwrap();
    assert_eq!(vl.write_offset(), Some(60));
    assert!(vl.should_rollover());
    let ps = write(&mut vl, &mut disk, &ents[0..1]).unwrap();
    assert_eq!(ps, vec![ValuePointer::new(2, 0, 20)]);
    assert_eq!(vl.cur_fid(), 2);
    assert_eq!(vl.log_files().len(), 3);
}

#[test]
fn test_read_and_write() {
    let mut disk = Disk::new();
    let mut vl = open(32, &[], &disk).unwrap();
    let ents = vec![Value::new(b"1", b"1"), Value::new(b"2", b"2")];
    let pointers = write(&mut vl, &mut disk, &ents).unwrap();

    // read
    let value = read(&vl, &disk, &pointers[0]);
    assert!(value.is_ok());
    assert_eq!(value.unwrap(), ents[0]);

    // write anothers
    let ents2 = vec![Value::new(b"3", b"3"), Value::new(b"4", b"4")];
    let pointers2 = write(&mut vl, &mut disk, &ents2).unwrap();
    // then read
    let value = read(&vl, &disk, &pointers[1]);
    assert!(value.is_ok());
    assert_eq!(value.unwrap(), ents[1]);

    // read anothers
    for i in 0..pointers2.len() {
        let value = read(&vl, &disk, &pointers2[i]);
        assert_eq!(ents2[i], value.unwrap());
    }
}

#[test]
fn test_read_value() {
    let mut disk = Disk::new();
    let mut vl = open(32, &[], &disk).unwrap();
    let ents = vec![Value::new(b"11", b"222222"), Value::new(b"22", b"333333")];
    let pointers = write(&mut vl, &mut disk, &ents).unwrap();
    for i in 0..pointers.len() {
        let value = read(&vl, &disk, &pointers[i]);
        assert!(value.is_ok());
        assert_eq!(value.unwrap(), ents[i]);
    }
}

#[test]
fn write_read_round_trip_pointers() {
    let mut disk = Disk::new();
    let mut vl = open(32, &[], &disk).unwrap();
    let ents = vec![Value::new(b"1", b"1"), Value::new(b"2", b"2")];
    let ps = write(&mut vl, &mut disk, &ents).unwrap();
    assert_eq!(ps, vec![ValuePointer::new(0, 0, 14), ValuePointer::new(0, 14, 14)]);
    assert_eq!(read(&vl, &disk, &ps[0]), Ok(Value::new(b"1", b"1")));
    assert_eq!(read(&vl, &disk, &ps[1]), Ok(Value::new(b"2", b"2")));
}

#[test]
fn reading_past_the_write_offset_is_unexpected_eof() {
    let mut disk = Disk::new();
    let mut vl = open(1024, &[], &disk).unwrap();
    write(&mut vl, &mut disk, &[Value::new(b"a", b"b")]).unwrap();
    let past = ValuePointer::new(0, 14, 14);
    assert_eq!(vl.locate(&past).err(), Some(Error::UnexpectedEof));
    let missing = ValuePointer::new(5, 0, 14);
    assert_eq!(vl.locate(&missing).err(), Some(Error::UnexpectedEof));
    assert!(vl.locate(&ValuePointer::new(0, 0, 14)).is_ok());
}

#[test]
fn pointers_survive_rollover() {
    let mut disk = Disk::new();
    let mut vl = open(20, &[], &disk).unwrap();
    let first = write(&mut vl, &mut disk, &[Value::new(b"11", b"222222")]).unwrap();
    write(&mut vl, &mut disk, &[Value::new(b"33", b"444444")]).unwrap();
    assert_eq!(vl.cur_fid(), 1);
    assert_eq!(read(&vl, &disk, &first[0]), Ok(Value::new(b"11", b"222222")));
}

#[test]
fn empty_segment_takes_a_batch_at_zero_limit() {
    let mut disk = Disk::new();
    let mut vl = open(0, &[], &disk).unwrap();
    assert!(vl.should_rollover());
    let ps = write(&mut vl, &mut disk, &[Value::new(b"k", b"v")]).unwrap();
    assert_eq!(ps[0].fid(), 1);
    assert_eq!(vl.write_buffer().len(), 0);
}

#[test]
fn batch_past_four_gib_is_refused() {
    let fids = vec![0u32];
    let start = (u32::MAX - 20) as u64;
    let mut vl = ValueLog::open(&ValueOption::new("d", u32::MAX, false), &fids, start).unwrap();
    assert!(!vl.should_rollover());
    let ents = vec![Value::new(b"k", b"v"), Value::new(b"k", b"v")];
    assert_eq!(vl.write(&ents), Err(Error::RecordTooLarge));
    assert_eq!(vl.write_buffer().len(), 0);
    assert_eq!(vl.write(&ents[..1]), Ok(vec![ValuePointer::new(0, u32::MAX - 20, 14)]));
}

#[test]
fn rollover_past_the_last_fid_is_refused() {
    let fids = vec![u32::MAX];
    let mut vl = ValueLog::open(&ValueOption::new("d", 10, false), &fids, 10).unwrap();
    assert!(vl.should_rollover());
    assert_eq!(vl.rollover(), Err(Error::FidExhausted));
    assert_eq!(vl.cur_fid(), u32::MAX);
    assert_eq!(vl.log_files().len(), 1);
}
