use wisckey::error::Error;
use wisckey::names::{fid_to_pathbuf, is_log_file_name, parse_fid, segment_path};

#[test]
fn values_test_fid_to_pathbuf() {
    assert_eq!(format!("{:06}.{}", 12, "vlog"), fid_to_pathbuf(12));
}

#[test]
fn values_test_pathbuf_to_fid() {
    for path in &["6.vlog", "06.vlog", "0006.vlog", "000006.vlog"] {
        let fid = parse_fid(path);
        assert!(fid.is_ok());
        assert_eq!(fid.ok().unwrap(), 6);
    }
}

#[test]
fn canonical_names_of_small_and_large_fids() {
    assert_eq!(fid_to_pathbuf(0), "000000.vlog");
    assert_eq!(fid_to_pathbuf(999_999), "999999.vlog");
    assert_eq!(fid_to_pathbuf(1_000_000), "1000000.vlog");
    assert_eq!(fid_to_pathbuf(u32::MAX), "4294967295.vlog");
}

#[test]
fn canonical_name_parses_back() {
    for fid in [0u32, 1, 12, 123_456, 1_000_000, u32::MAX] {
        let name = fid_to_pathbuf(fid);
        assert_eq!(parse_fid(&name), Ok(fid));
        assert_eq!(fid_to_pathbuf(parse_fid(&name).unwrap()), name);
    }
}

#[test]
fn invalid_stems_are_invalid_filenames() {
    assert_eq!(parse_fid("v1.vlog"), Err(Error::InvalidFilename));
    assert_eq!(parse_fid(".vlog"), Err(Error::InvalidFilename));
    assert_eq!(parse_fid("-1.vlog"), Err(Error::InvalidFilename));
    assert_eq!(parse_fid("4294967296.vlog"), Err(Error::InvalidFilename));
    assert_eq!(parse_fid("99999999999999999999.vlog"), Err(Error::InvalidFilename));
    assert_eq!(parse_fid("+7.vlog"), Ok(7));
    assert_eq!(parse_fid("4294967295.vlog"), Ok(u32::MAX));
}

#[test]
fn log_suffix_is_recognised() {
    assert!(is_log_file_name("000001.vlog"));
    assert!(is_log_file_name("v1.vlog"));
    assert!(!is_log_file_name(".vlog"));
    assert!(!is_log_file_name("000001.vlo"));
    assert!(!is_log_file_name("000001.vlogs"));
    assert!(!is_log_file_name("000001"));
}

#[test]
fn segment_paths_join_directory_and_name() {
    assert_eq!(segment_path("/tmp/a", 3), "/tmp/a/000003.vlog");
    assert_eq!(segment_path("/tmp/a/", 3), "/tmp/a/000003.vlog");
    assert_eq!(segment_path("", 3), "000003.vlog");
}
