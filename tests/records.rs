use sprint_dir::getdent::{parse_record, DirentBuf, DirentErr, Entries, More};
use sprint_dir::path::{join_path, last_component_of};
use sprint_dir::walker::{Configuration, FileType};
use sprint_dir::{UnixFileType, WalkDir};

/// One `linux_dirent64` record of `len` bytes (at least the header, the name and its NUL).
fn record_of_len(name: &[u8], tag: u8, len: usize) -> Vec<u8> {
    let mut r = Vec::new();
    r.extend_from_slice(&42u64.to_ne_bytes());
    r.extend_from_slice(&1u64.to_ne_bytes());
    r.extend_from_slice(&(len as u16).to_ne_bytes());
    r.push(tag);
    r.extend_from_slice(name);
    while r.len() < len {
        r.push(0);
    }
    r
}

fn record(name: &[u8], tag: u8) -> Vec<u8> {
    record_of_len(name, tag, (19 + name.len() + 1 + 7) / 8 * 8)
}

fn filled(bytes: &[u8]) -> DirentBuf {
    let mut buf = DirentBuf::with_size(256);
    let r = buf.fill_buf(bytes.len() as i64, 0, bytes);
    assert_eq!(r, Ok(More::More));
    buf
}

#[test]
fn parses_records_in_order() {
    let mut bytes = record(b"alpha", 8);
    bytes.extend(record(b"b", 4));
    bytes.extend(record(b"link", 10));
    let mut it = Entries { remaining: &bytes };
    let a = it.next().unwrap().ok().unwrap();
    assert_eq!(a.path(), b"alpha");
    assert_eq!(a.file_type(), Some(UnixFileType::File));
    let b = it.next().unwrap().ok().unwrap();
    assert_eq!(b.path(), b"b");
    assert_eq!(b.file_type(), Some(UnixFileType::Directory));
    let c = it.next().unwrap().ok().unwrap();
    assert_eq!(c.path(), b"link");
    assert_eq!(c.file_type(), Some(UnixFileType::SymbolicLink));
    assert!(it.next().is_none());
    assert!(it.next().is_none());
}

#[test]
fn record_length_steers_the_parse() {
    // A record longer than its name needs: the next one starts after the whole record.
    let mut bytes = record_of_len(b"x", 8, 40);
    bytes.extend(record(b"y", 8));
    let mut it = Entries { remaining: &bytes };
    assert_eq!(it.next().unwrap().ok().unwrap().path(), b"x");
    assert_eq!(it.remaining.len(), 24);
    assert_eq!(it.next().unwrap().ok().unwrap().path(), b"y");
    assert!(it.next().is_none());
}

#[test]
fn short_tail_is_too_short() {
    let bytes = vec![0u8; 10];
    let mut it = Entries { remaining: &bytes };
    assert_eq!(it.next().unwrap().err(), Some(DirentErr::TooShort));
    assert!(it.next().is_none());
}

#[test]
fn record_length_beyond_bytes_is_invalid() {
    let mut bytes = record(b"name", 8);
    bytes.truncate(20);
    let mut it = Entries { remaining: &bytes };
    assert_eq!(it.next().unwrap().err(), Some(DirentErr::InvalidLength));
    assert!(it.next().is_none());
}

#[test]
fn record_length_below_header_is_invalid() {
    let bytes = record_of_len(b"", 8, 24);
    let mut patched = bytes.clone();
    patched[16..18].copy_from_slice(&(4u16).to_ne_bytes());
    let mut it = Entries { remaining: &patched };
    assert_eq!(it.next().unwrap().err(), Some(DirentErr::InvalidLength));
}

#[test]
fn name_without_nul_is_invalid() {
    let mut bytes = record_of_len(b"abcde", 8, 24);
    bytes[23] = b'f';
    let mut it = Entries { remaining: &bytes };
    assert_eq!(it.next().unwrap().err(), Some(DirentErr::InvalidLength));
}

#[test]
fn drain_consumes_and_iter_does_not() {
    let mut bytes = record(b"one", 8);
    bytes.extend(record(b"two", 8));
    let mut buf = filled(&bytes);
    {
        let mut peek = buf.iter();
        assert_eq!(peek.next().unwrap().ok().unwrap().path(), b"one");
    }
    {
        let mut d = buf.drain();
        assert_eq!(d.next().unwrap().ok().unwrap().path(), b"one");
    }
    let mut peek = buf.iter();
    assert_eq!(peek.next().unwrap().ok().unwrap().path(), b"two");
    let mut d = buf.drain();
    assert_eq!(d.next().unwrap().ok().unwrap().path(), b"two");
    assert!(d.next().is_none());
}

#[test]
fn malformed_record_drops_the_rest() {
    let mut bytes = record(b"ok", 8);
    bytes.extend(vec![1u8; 5]);
    let mut buf = filled(&bytes);
    assert!(buf.pop_entry().unwrap().is_ok());
    assert_eq!(buf.pop_entry().unwrap().err(), Some(DirentErr::TooShort));
    assert!(buf.pop_entry().is_none());
}

#[test]
fn refill_outcomes() {
    let mut buf = DirentBuf::with_size(64);
    assert_eq!(buf.spare_len(), 64);
    assert_eq!(buf.fill_buf(0, 0, &[]), Ok(More::Done));
    assert_eq!(buf.fill_buf(-1, 22, &[]), Ok(More::Blocked));
    assert_eq!(buf.fill_buf(-1, 13, &[]), Err(13));
    let rec = record(b"abc", 8);
    assert_eq!(buf.fill_buf(rec.len() as i64, 0, &rec), Ok(More::More));
    assert_eq!(buf.spare_len(), 64 - rec.len());
    assert_eq!(buf.fill_buf(rec.len() as i64, 0, &rec), Ok(More::More));
    assert_eq!(buf.spare_len(), 64 - 2 * rec.len());
    assert!(buf.pop_entry().unwrap().is_ok());
    assert!(buf.pop_entry().unwrap().is_ok());
    assert!(buf.pop_entry().is_none());
    // Once all is read, the next refill writes from the start again.
    assert_eq!(buf.spare_len(), 64);
}

#[test]
fn type_tags() {
    assert_eq!(UnixFileType::new(1), Some(UnixFileType::NamedPipe));
    assert_eq!(UnixFileType::new(2), Some(UnixFileType::CharDevice));
    assert_eq!(UnixFileType::new(4), Some(UnixFileType::Directory));
    assert_eq!(UnixFileType::new(6), Some(UnixFileType::BlockDevice));
    assert_eq!(UnixFileType::new(8), Some(UnixFileType::File));
    assert_eq!(UnixFileType::new(10), Some(UnixFileType::SymbolicLink));
    assert_eq!(UnixFileType::new(12), Some(UnixFileType::UnixSocket));
    assert_eq!(UnixFileType::new(0), None);
    assert_eq!(UnixFileType::new(14), None);
    assert_eq!(UnixFileType::new(-4), None);
}

#[test]
fn file_type_queries() {
    let mut t = FileType { inner: None };
    assert!(!t.is_dir() && !t.is_file() && !t.is_symlink());
    t.set(UnixFileType::Directory);
    assert!(t.is_dir());
    t.set(UnixFileType::File);
    assert!(t.is_file());
    t.set(UnixFileType::SymbolicLink);
    assert!(t.is_symlink());
}

#[test]
fn paths_join_and_split() {
    assert_eq!(join_path(&b"/t".to_vec(), b"a"), b"/t/a".to_vec());
    assert_eq!(join_path(&b"/t/".to_vec(), b"a"), b"/t/a".to_vec());
    assert_eq!(join_path(&b"/".to_vec(), b"a"), b"/a".to_vec());
    assert_eq!(join_path(&Vec::new(), b"a"), b"a".to_vec());
    assert_eq!(last_component_of(b"/t/abc"), b"abc");
    assert_eq!(last_component_of(b"/t/abc//"), b"abc");
    assert_eq!(last_component_of(b"rel"), b"rel");
    assert_eq!(last_component_of(b"/"), b"");
}

#[test]
fn builder_settings() {
    let w = WalkDir::new(b"/x");
    let d = Configuration::default();
    assert_eq!(d.max_open, 10);
    assert_eq!(d.min_depth, 0);
    assert_eq!(d.max_depth, usize::MAX);
    assert!(d.assert_consistent());
    let bad = Configuration { min_depth: 3, max_depth: 2, ..d };
    assert!(!bad.assert_consistent());
    assert!(!Configuration { max_open: 0, ..d }.assert_consistent());
    assert!(!Configuration { follow_links: true, ..d }.assert_consistent());
    assert!(!Configuration { same_file_system: true, ..d }.assert_consistent());
    let w = w
        .min_depth(1)
        .max_depth(5)
        .max_open(3)
        .follow_links(false)
        .contents_first(true)
        .same_file_system(false);
    let it = w.into_iter();
    assert_eq!(it.stats().nr_open, 0);
}

#[test]
fn parse_record_with_given_length() {
    let bytes = record_of_len(b"name", 8, 32);
    let (e, n) = parse_record(&bytes, 32).ok().unwrap();
    assert_eq!(e.path(), b"name");
    assert_eq!(e.d_type, 8);
    assert_eq!(n, 32);
    // A shorter length that still holds the name and its NUL.
    let (e, n) = parse_record(&bytes, 24).ok().unwrap();
    assert_eq!(e.path(), b"name");
    assert_eq!(n, 24);
    // Too short to hold the NUL, shorter than a header, longer than the bytes.
    assert_eq!(parse_record(&bytes, 23).err(), Some(DirentErr::InvalidLength));
    assert_eq!(parse_record(&bytes, 10).err(), Some(DirentErr::InvalidLength));
    assert_eq!(parse_record(&bytes, 33).err(), Some(DirentErr::InvalidLength));
    assert_eq!(parse_record(&bytes[..12], 12).err(), Some(DirentErr::TooShort));
}
