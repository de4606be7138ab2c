use sprint_dir::walker::{IntoIter, Stats, Step, Wait};
use sprint_dir::{UnixFileType, WalkDir};

use std::collections::BTreeMap;

const ENOENT: i32 = 2;
const ENOTDIR: i32 = 20;
const EINVAL: i32 = 22;

#[derive(Clone, Copy, PartialEq, Debug)]
enum Kind {
    Dir,
    File,
    Link,
}

/// An in-memory file system that answers the walk's requests the way the kernel does.
struct FakeFs {
    /// Every file by full path, with its kind, and its position of creation.
    files: Vec<(Vec<u8>, Kind)>,
    /// Names whose record carries the "unknown" type tag.
    untyped: Vec<Vec<u8>>,
    /// Open descriptors: the directory path and how many records were handed out.
    fds: BTreeMap<i32, (Vec<u8>, usize)>,
    next_fd: i32,
    opens: usize,
    closes: usize,
    most_held: usize,
}

fn tag_of(kind: Kind) -> u8 {
    match kind {
        Kind::Dir => 4,
        Kind::File => 8,
        Kind::Link => 10,
    }
}

/// One `linux_dirent64` record, padded to eight bytes as the kernel does.
fn record(name: &[u8], tag: u8) -> Vec<u8> {
    let len = (19 + name.len() + 1 + 7) / 8 * 8;
    let mut r = Vec::new();
    r.extend_from_slice(&7u64.to_ne_bytes());
    r.extend_from_slice(&0u64.to_ne_bytes());
    r.extend_from_slice(&(len as u16).to_ne_bytes());
    r.push(tag);
    r.extend_from_slice(name);
    while r.len() < len {
        r.push(0);
    }
    r
}

fn join(base: &[u8], name: &[u8]) -> Vec<u8> {
    let mut p = base.to_vec();
    if !p.is_empty() && *p.last().unwrap() != b'/' {
        p.push(b'/');
    }
    p.extend_from_slice(name);
    p
}

impl FakeFs {
    fn new(paths: &[(&str, Kind)]) -> Self {
        FakeFs {
            files: paths.iter().map(|(p, k)| (p.as_bytes().to_vec(), *k)).collect(),
            untyped: Vec::new(),
            fds: BTreeMap::new(),
            next_fd: 3,
            opens: 0,
            closes: 0,
            most_held: 0,
        }
    }

    fn kind(&self, path: &[u8]) -> Option<Kind> {
        self.files.iter().find(|(p, _)| p == path).map(|(_, k)| *k)
    }

    /// The records of a directory: `.` and `..`, then its children in creation order.
    fn listing(&self, dir: &[u8]) -> Vec<Vec<u8>> {
        let mut out = vec![record(b".", 4), record(b"..", 4)];
        for (p, k) in &self.files {
            if let Some(pos) = p.iter().rposition(|&b| b == b'/') {
                let parent: &[u8] = if pos == 0 { b"/" } else { &p[..pos] };
                if parent == dir {
                    let name = &p[pos + 1..];
                    let tag = if self.untyped.iter().any(|u| u == p) { 0 } else { tag_of(*k) };
                    out.push(record(name, tag));
                }
            }
        }
        out
    }

    fn open(&mut self, path: &[u8]) -> Result<i32, i32> {
        match self.kind(path) {
            None => Err(ENOENT),
            Some(Kind::Dir) => {
                let fd = self.next_fd;
                self.next_fd += 1;
                self.fds.insert(fd, (path.to_vec(), 0));
                self.opens += 1;
                self.most_held = self.most_held.max(self.fds.len());
                Ok(fd)
            }
            Some(_) => Err(ENOTDIR),
        }
    }

    fn openat(&mut self, dir: i32, name: &[u8]) -> Result<i32, i32> {
        let base = self.fds[&dir].0.clone();
        self.open(&join(&base, name))
    }

    fn close(&mut self, fd: i32) -> Result<(), i32> {
        self.fds.remove(&fd).map(|_| ()).ok_or(9)
    }

    fn getdents(&mut self, fd: i32, len: usize) -> (i64, i32, Vec<u8>) {
        let (path, done) = self.fds[&fd].clone();
        let recs = self.listing(&path);
        let mut out = Vec::new();
        let mut taken = done;
        while taken < recs.len() && out.len() + recs[taken].len() <= len {
            out.extend_from_slice(&recs[taken]);
            taken += 1;
        }
        if taken == done && done < recs.len() {
            return (-1, EINVAL, Vec::new());
        }
        self.fds.get_mut(&fd).unwrap().1 = taken;
        (out.len() as i64, 0, out)
    }

    fn stat(&self, path: &[u8]) -> Result<Option<UnixFileType>, i32> {
        match self.kind(path) {
            None => Err(ENOENT),
            Some(Kind::Dir) => Ok(Some(UnixFileType::Directory)),
            Some(Kind::File) => Ok(Some(UnixFileType::File)),
            Some(Kind::Link) => Ok(Some(UnixFileType::SymbolicLink)),
        }
    }
}

/// What one advancement of the walk produced.
#[derive(Debug, PartialEq)]
enum Got {
    Entry(Vec<u8>, Option<UnixFileType>, usize),
    Failed(Option<i32>),
}

/// Drive the walk against the fake file system until it ends, then close what it
/// still holds.
fn run(mut it: IntoIter, fs: &mut FakeFs) -> (Vec<Got>, Stats) {
    let mut out = Vec::new();
    loop {
        assert_eq!(it.waiting(), Wait::Nothing);
        let mut step = it.advance();
        loop {
            step = match step {
                Step::Fill { fd, len } => {
                    let (ret, errno, data) = fs.getdents(fd, len);
                    it.filled(ret, errno, &data)
                }
                Step::OpenAt { dir, name } => {
                    let r = fs.openat(dir, &name);
                    it.opened(r)
                }
                Step::Open { path } => {
                    let r = fs.open(&path);
                    it.opened(r)
                }
                Step::Close { fd } => {
                    let r = fs.close(fd);
                    fs.closes += 1;
                    it.closed(r)
                }
                Step::Stat { path } => {
                    let r = fs.stat(&path);
                    it.stat_done(r)
                }
                Step::Yield(e) => {
                    let path = e.path();
                    let kind = e.file_type().inner;
                    let depth = e.depth();
                    assert!(path.ends_with(e.file_name()));
                    assert_eq!(path, e.into_path());
                    out.push(Got::Entry(path, kind, depth));
                    break;
                }
                Step::Fail(e) => {
                    out.push(Got::Failed(e.io_error()));
                    break;
                }
                Step::Continue => break,
                Step::Done => {
                    for fd in it.descriptors() {
                        fs.close(fd).unwrap();
                        fs.closes += 1;
                    }
                    return (out, it.stats());
                }
            };
        }
    }
}

fn walk(root: &str, fs: &mut FakeFs, budget: usize) -> (Vec<Got>, Stats) {
    run(WalkDir::new(root.as_bytes()).max_open(budget).build(), fs)
}

fn entry(path: &str, kind: UnixFileType, depth: usize) -> Got {
    Got::Entry(path.as_bytes().to_vec(), Some(kind), depth)
}

fn paths(got: &[Got]) -> Vec<Vec<u8>> {
    let mut v: Vec<Vec<u8>> = got
        .iter()
        .filter_map(|g| match g {
            Got::Entry(p, _, _) => Some(p.clone()),
            Got::Failed(_) => None,
        })
        .collect();
    v.sort();
    v
}

/// A tree of nested directories `/d/1/2/.../n`, with a file in each.
fn chain(n: usize) -> FakeFs {
    let mut files = vec![("/d".to_string(), Kind::Dir)];
    let mut p = "/d".to_string();
    for i in 1..=n {
        files.push((format!("{}/f", p), Kind::File));
        p = format!("{}/{}", p, i);
        files.push((p.clone(), Kind::Dir));
    }
    let refs: Vec<(&str, Kind)> = files.iter().map(|(p, k)| (p.as_str(), *k)).collect();
    FakeFs::new(&refs)
}

#[test]
fn root_missing_fails() {
    let mut fs = FakeFs::new(&[("/t", Kind::Dir)]);
    let (got, stats) = walk("/nope", &mut fs, 10);
    assert_eq!(got, vec![Got::Failed(Some(ENOENT))]);
    assert_eq!(stats.nr_stat, 1);
}

#[test]
fn root_regular_file() {
    let mut fs = FakeFs::new(&[("/f", Kind::File)]);
    let (got, stats) = walk("/f", &mut fs, 10);
    assert_eq!(got, vec![entry("/f", UnixFileType::File, 0)]);
    assert_eq!(stats.nr_open + stats.nr_openat, 0);
    assert_eq!(fs.opens, 0);
}

#[test]
fn empty_directory() {
    let mut fs = FakeFs::new(&[("/t", Kind::Dir)]);
    let (got, stats) = walk("/t", &mut fs, 10);
    assert_eq!(got, vec![entry("/t", UnixFileType::Directory, 0)]);
    assert_eq!(stats.nr_open, 1);
    assert_eq!(fs.closes, fs.opens);
}

#[test]
fn only_dot_entries() {
    let mut fs = FakeFs::new(&[("/t", Kind::Dir)]);
    assert_eq!(fs.listing(b"/t").len(), 2);
    let (got, _) = walk("/t", &mut fs, 1);
    assert_eq!(got.len(), 1);
}

#[test]
fn two_files_in_order() {
    let mut fs = FakeFs::new(&[("/t", Kind::Dir), ("/t/a", Kind::File), ("/t/b", Kind::File)]);
    let (got, _) = walk("/t", &mut fs, 10);
    assert_eq!(
        got,
        vec![
            entry("/t", UnixFileType::Directory, 0),
            entry("/t/a", UnixFileType::File, 1),
            entry("/t/b", UnixFileType::File, 1),
        ]
    );
}

#[test]
fn subtree_within_budget_two() {
    let mut fs = FakeFs::new(&[("/t", Kind::Dir), ("/t/sub", Kind::Dir), ("/t/sub/c", Kind::File)]);
    let (got, stats) = walk("/t", &mut fs, 2);
    assert_eq!(
        got,
        vec![
            entry("/t", UnixFileType::Directory, 0),
            entry("/t/sub", UnixFileType::Directory, 1),
            entry("/t/sub/c", UnixFileType::File, 2),
        ]
    );
    assert!(fs.most_held <= 2);
    assert_eq!(stats.nr_openat, 1);
    assert_eq!(fs.closes, fs.opens);
}

#[test]
fn hundred_siblings_budget_one() {
    let mut files = vec![("/r".to_string(), Kind::Dir)];
    for i in 0..100 {
        files.push((format!("/r/d{}", i), Kind::Dir));
        files.push((format!("/r/d{}/x", i), Kind::File));
    }
    let refs: Vec<(&str, Kind)> = files.iter().map(|(p, k)| (p.as_str(), *k)).collect();
    let mut fs = FakeFs::new(&refs);
    let (got, stats) = walk("/r", &mut fs, 1);
    assert_eq!(got.len(), 201);
    assert_eq!(paths(&got).len(), 201);
    assert!(got.iter().all(|g| matches!(g, Got::Entry(..))));
    assert!(stats.nr_close >= 100);
    assert!(stats.nr_open + stats.nr_openat >= 101);
    assert_eq!(fs.most_held, 1);
    assert_eq!(fs.closes, fs.opens);
}

#[test]
fn symlink_root_is_not_followed() {
    let mut fs = FakeFs::new(&[("/link", Kind::Link), ("/elsewhere", Kind::Dir)]);
    let (got, stats) = walk("/link", &mut fs, 10);
    assert_eq!(got, vec![entry("/link", UnixFileType::SymbolicLink, 0)]);
    assert_eq!(stats.nr_open + stats.nr_openat, 0);
}

#[test]
fn untyped_entry_is_stated() {
    let mut fs = FakeFs::new(&[("/t", Kind::Dir), ("/t/u", Kind::File), ("/t/v", Kind::File)]);
    let (_, before) = walk("/t", &mut fs, 10);
    fs.untyped.push(b"/t/u".to_vec());
    let (got, after) = walk("/t", &mut fs, 10);
    assert_eq!(after.nr_stat, before.nr_stat + 1);
    assert!(got.contains(&entry("/t/u", UnixFileType::File, 1)));
    assert_eq!(got.len(), 3);
}

#[test]
fn depth_beyond_budget_completes() {
    let mut fs = chain(6);
    let (got, stats) = walk("/d", &mut fs, 2);
    assert_eq!(got.len(), 13);
    assert!(got.iter().all(|g| matches!(g, Got::Entry(..))));
    assert!(fs.most_held <= 2);
    // Forced closes show as directories reopened by their full path.
    assert!(stats.nr_open > 1);
    assert!(stats.nr_close >= stats.nr_open);
    assert_eq!(fs.closes, fs.opens);
}

#[test]
fn budget_one_matches_larger_budgets() {
    let mut fs = chain(8);
    let (low, _) = walk("/d", &mut fs, 1);
    let (mid, _) = walk("/d", &mut fs, 3);
    let (high, _) = walk("/d", &mut fs, 100);
    assert_eq!(paths(&low), paths(&high));
    assert_eq!(paths(&mid), paths(&high));
    assert_eq!(paths(&high).len(), 17);
}

#[test]
fn parents_come_before_children() {
    let mut fs = FakeFs::new(&[
        ("/t", Kind::Dir),
        ("/t/a", Kind::Dir),
        ("/t/a/b", Kind::Dir),
        ("/t/a/b/c", Kind::File),
        ("/t/z", Kind::File),
    ]);
    for budget in [1, 2, 10] {
        let (got, _) = walk("/t", &mut fs, budget);
        let mut seen: Vec<Vec<u8>> = Vec::new();
        for g in &got {
            if let Got::Entry(p, _, _) = g {
                if p.as_slice() != b"/t" {
                    let cut = p.iter().rposition(|&b| b == b'/').unwrap();
                    assert!(seen.contains(&p[..cut].to_vec()));
                }
                seen.push(p.clone());
            }
        }
        assert_eq!(seen.len(), 5);
    }
}

#[test]
fn records_and_dots_add_up() {
    let mut fs = FakeFs::new(&[("/t", Kind::Dir), ("/t/a", Kind::File), ("/t/b", Kind::Dir)]);
    let total = fs.listing(b"/t").len() + fs.listing(b"/t/b").len();
    let (got, _) = walk("/t", &mut fs, 10);
    // The root itself is not a record of any directory; two dot records per directory.
    assert_eq!(got.len() - 1 + 4, total);
}

#[test]
fn min_and_max_depth() {
    let mut fs = chain(3);
    let it = WalkDir::new(b"/d").min_depth(1).max_depth(2).build();
    let (got, _) = run(it, &mut fs);
    assert_eq!(
        paths(&got),
        vec![b"/d/1".to_vec(), b"/d/1/2".to_vec(), b"/d/1/f".to_vec(), b"/d/f".to_vec()]
    );
}

#[test]
fn open_failure_is_reported_and_walk_goes_on() {
    let mut it = WalkDir::new(b"/t").build();
    let mut step = it.advance();
    assert!(matches!(step, Step::Stat { .. }));
    step = it.stat_done(Ok(Some(UnixFileType::Directory)));
    assert!(matches!(step, Step::Open { .. }));
    step = it.opened(Err(13));
    match step {
        Step::Fail(e) => {
            assert_eq!(e.io_error(), Some(13));
            assert_eq!(e.into_io_error(), Some(13));
            assert_eq!(e.depth(), 0);
            assert_eq!(e.path(), Some(&b"/t"[..]));
            assert_eq!(e.loop_ancestor(), None);
        }
        _ => panic!("expected a failure"),
    }
    assert!(matches!(it.advance(), Step::Continue));
    assert!(matches!(it.advance(), Step::Done));
    assert_eq!(it.descriptors().len(), 0);
}

#[test]
fn stats_count_each_call() {
    let mut fs = FakeFs::new(&[("/t", Kind::Dir), ("/t/s", Kind::Dir), ("/t/s/f", Kind::File)]);
    let (_, stats) = walk("/t", &mut fs, 10);
    assert_eq!(stats.nr_stat, 1);
    assert_eq!(stats.nr_open, 1);
    assert_eq!(stats.nr_openat, 1);
    assert_eq!(stats.nr_close, 2);
    assert_eq!(stats.nr_getdent, 4);
}

#[test]
fn dropped_walk_lists_its_descriptors() {
    let mut fs = chain(4);
    let mut it = WalkDir::new(b"/d").max_open(3).build();
    let mut yielded = 0;
    while yielded < 4 {
        let step = it.advance();
        let mut step = step;
        loop {
            step = match step {
                Step::Fill { fd, len } => {
                    let (ret, errno, data) = fs.getdents(fd, len);
                    it.filled(ret, errno, &data)
                }
                Step::OpenAt { dir, name } => {
                    let r = fs.openat(dir, &name);
                    it.opened(r)
                }
                Step::Open { path } => {
                    let r = fs.open(&path);
                    it.opened(r)
                }
                Step::Close { fd } => {
                    let r = fs.close(fd);
                    it.closed(r)
                }
                Step::Stat { path } => {
                    let r = fs.stat(&path);
                    it.stat_done(r)
                }
                Step::Yield(_) => {
                    yielded += 1;
                    break;
                }
                _ => break,
            };
        }
    }
    let held = it.descriptors();
    assert_eq!(held.len(), fs.fds.len());
    assert!(held.len() > 0);
    for fd in held {
        fs.close(fd).unwrap();
    }
    assert!(fs.fds.is_empty());
}

/// Start a walk of `/t` and bring it to the point where the root is open as `fd` 5.
fn opened_root() -> IntoIter {
    let mut it = WalkDir::new(b"/t").build();
    assert!(matches!(it.advance(), Step::Stat { .. }));
    assert!(matches!(it.stat_done(Ok(Some(UnixFileType::Directory))), Step::Open { .. }));
    match it.opened(Ok(5)) {
        Step::Yield(e) => assert_eq!(e.path(), b"/t".to_vec()),
        _ => panic!("expected the root entry"),
    }
    it
}

#[test]
fn malformed_records_are_reported() {
    let mut it = opened_root();
    let len = match it.advance() {
        Step::Fill { fd, len } => {
            assert_eq!(fd, 5);
            len
        }
        _ => panic!("expected a refill"),
    };
    assert_eq!(len, 16384);
    assert!(matches!(it.filled(7, 0, &[1u8; 7]), Step::Continue));
    assert!(matches!(it.advance(), Step::Close { fd: 5 }));
    assert_eq!(it.waiting(), Wait::Close);
    match it.closed(Ok(())) {
        Step::Fail(e) => {
            assert_eq!(e.io_error(), None);
            assert_eq!(e.path(), Some(&b"/t"[..]));
        }
        _ => panic!("expected a failure"),
    }
    assert!(matches!(it.advance(), Step::Continue));
    assert!(matches!(it.advance(), Step::Done));
    assert_eq!(it.stats().nr_close, 1);
}

#[test]
fn refill_error_is_reported_after_close() {
    let mut it = opened_root();
    assert!(matches!(it.advance(), Step::Fill { .. }));
    assert!(matches!(it.filled(-1, 5, &[]), Step::Close { fd: 5 }));
    assert_eq!(it.descriptors(), vec![5]);
    match it.closed(Ok(())) {
        Step::Fail(e) => assert_eq!(e.io_error(), Some(5)),
        _ => panic!("expected a failure"),
    }
    assert_eq!(it.descriptors().len(), 0);
}

#[test]
fn close_failure_is_reported() {
    let mut it = opened_root();
    assert!(matches!(it.advance(), Step::Fill { .. }));
    assert!(matches!(it.filled(0, 0, &[]), Step::Close { fd: 5 }));
    match it.closed(Err(9)) {
        Step::Fail(e) => assert_eq!(e.io_error(), Some(9)),
        _ => panic!("expected a failure"),
    }
}

#[test]
fn blocked_refill_on_empty_buffer_is_reported() {
    let mut it = opened_root();
    assert!(matches!(it.advance(), Step::Fill { .. }));
    assert!(matches!(it.filled(-1, EINVAL, &[]), Step::Close { fd: 5 }));
    match it.closed(Ok(())) {
        Step::Fail(e) => assert_eq!(e.io_error(), None),
        _ => panic!("expected a failure"),
    }
}

/// A `linux_dirent64` record as the walk's tests write it, padded to eight bytes.
fn raw_record(name: &[u8], tag: u8) -> Vec<u8> {
    record(name, tag)
}

#[test]
fn unjoinable_name_is_a_malformed_record() {
    let mut it = opened_root();
    assert!(matches!(it.advance(), Step::Fill { .. }));
    let mut data = raw_record(b"..", 4);
    data.extend(raw_record(b".hidden", 8));
    data.extend(raw_record(b"...", 8));
    data.extend(raw_record(b"a/b", 8));
    data.extend(raw_record(b"never", 8));
    assert!(matches!(it.filled(data.len() as i64, 0, &data), Step::Continue));
    match it.advance() {
        Step::Yield(e) => assert_eq!(e.path(), b"/t/.hidden".to_vec()),
        _ => panic!("expected .hidden"),
    }
    match it.advance() {
        Step::Yield(e) => assert_eq!(e.path(), b"/t/...".to_vec()),
        _ => panic!("expected ..."),
    }
    assert!(matches!(it.advance(), Step::Close { fd: 5 }));
    match it.closed(Ok(())) {
        Step::Fail(e) => {
            assert_eq!(e.io_error(), None);
            assert_eq!(e.path(), Some(&b"/t"[..]));
        }
        _ => panic!("expected a failure"),
    }
}

#[test]
fn empty_name_is_a_malformed_record() {
    let mut it = opened_root();
    assert!(matches!(it.advance(), Step::Fill { .. }));
    let data = raw_record(b"", 8);
    assert!(matches!(it.filled(data.len() as i64, 0, &data), Step::Continue));
    assert!(matches!(it.advance(), Step::Close { fd: 5 }));
    assert!(matches!(it.closed(Ok(())), Step::Fail(_)));
}

#[test]
fn constants_match_libc() {
    assert_eq!(sprint_dir::DT_FIFO, libc::DT_FIFO);
    assert_eq!(sprint_dir::DT_CHR, libc::DT_CHR);
    assert_eq!(sprint_dir::DT_DIR, libc::DT_DIR);
    assert_eq!(sprint_dir::DT_BLK, libc::DT_BLK);
    assert_eq!(sprint_dir::DT_REG, libc::DT_REG);
    assert_eq!(sprint_dir::DT_LNK, libc::DT_LNK);
    assert_eq!(sprint_dir::DT_SOCK, libc::DT_SOCK);
    assert_eq!(sprint_dir::getdent::EINVAL, libc::EINVAL);
    assert_eq!(sprint_dir::getdent::EFAULT, libc::EFAULT);
    assert_eq!(sprint_dir::walker::BUFFER_SIZE, 1 << 14);
}
