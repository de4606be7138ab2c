//! The walk engine: work items, the parent chain, and the step function that drives
//! the traversal.
use vstd::prelude::*;
use std::sync::Arc;

use crate::path::{join, join_path, last_component, last_component_of, SEP};
use crate::UnixFileType as FileTypeInner;
use crate::getdent::{
    after_head, parse_head, parse_records, result_view, DirentBuf, DirentErr, Entry, More, Record,
    EFAULT,
};

verus! {

/// The type of a file entry.
///
/// Reading it makes no system call. The type may not be known, in which case the
/// metadata of the file has to be asked for.
#[derive(Clone, Copy, Debug, PartialEq, Eq, Structural)]
pub struct FileType {
    pub inner: Option<FileTypeInner>,
}

impl FileType {
    pub fn is_dir(&self) -> (r: bool)
        ensures
            r == (self.inner == Some(FileTypeInner::Directory)),
    {
        self.inner == Some(FileTypeInner::Directory)
    }

    pub fn is_file(&self) -> (r: bool)
        ensures
            r == (self.inner == Some(FileTypeInner::File)),
    {
        self.inner == Some(FileTypeInner::File)
    }

    pub fn is_symlink(&self) -> (r: bool)
        ensures
            r == (self.inner == Some(FileTypeInner::SymbolicLink)),
    {
        self.inner == Some(FileTypeInner::SymbolicLink)
    }

    pub fn set(&mut self, inner: FileTypeInner)
        ensures
            final(self).inner == Some(inner),
    {
        self.inner = Some(inner);
    }
}

/// How the path of an entry is held.
#[derive(Debug)]
pub enum EntryPath {
    /// The whole path, in a buffer of its own.
    Full(Vec<u8>),
    /// The file name alone, below a parent directory.
    Name {
        name: Vec<u8>,
        /// The parent directory of the entry.
        parent: Arc<Node>,
    },
}

/// A directory that was descended into, shared by the entries below it.
#[derive(Debug)]
pub struct Node {
    /// The depth at which this node occurs.
    pub depth: usize,
    /// The path of this node.
    pub path: EntryPath,
}

/// The full path that an entry path stands for: the walk up the parent chain.
pub open spec fn path_of(e: EntryPath) -> Seq<u8>
    decreases e,
{
    match e {
        EntryPath::Full(p) => p@,
        EntryPath::Name { name, parent } => join(path_of(parent.path), name@),
    }
}

/// The leaf name of an entry path.
pub open spec fn name_of(e: EntryPath) -> Seq<u8> {
    match e {
        EntryPath::Full(p) => last_component(p@),
        EntryPath::Name { name, .. } => name@,
    }
}

impl EntryPath {
    /// Allocate a buffer holding the full path.
    pub fn make_path(&self) -> (r: Vec<u8>)
        ensures
            r@ == path_of(*self),
        decreases *self,
    {
        match self {
            EntryPath::Full(buf) => buf.clone(),
            EntryPath::Name { name, parent } => {
                let base = parent.path.make_path();
                join_path(&base, name.as_slice())
            },
        }
    }

    /// A second handle on the same path, sharing the parent chain.
    pub fn share(&self) -> (r: EntryPath)
        ensures
            path_of(r) == path_of(*self),
            name_of(r) == name_of(*self),
    {
        match self {
            EntryPath::Full(buf) => EntryPath::Full(buf.clone()),
            EntryPath::Name { name, parent } => EntryPath::Name {
                name: name.clone(),
                parent: parent.clone(),
            },
        }
    }
}

impl Node {
    /// Allocate a path buffer for the path described.
    pub fn make_path(&self) -> (r: Vec<u8>)
        ensures
            r@ == path_of(self.path),
    {
        self.path.make_path()
    }
}

/// Describes a file that was found.
///
/// All parents of this entry were reached before it.
#[derive(Debug)]
pub struct DirEntry {
    /// The file type reported by `getdents`, or found out later.
    file_type: FileType,
    /// The depth at which this entry was found.
    depth: usize,
    /// The file name of this entry, and where it lies.
    file_name: EntryPath,
}

impl DirEntry {
    /// The full path of the entry.
    pub closed spec fn full_path(&self) -> Seq<u8> {
        path_of(self.file_name)
    }

    /// The leaf name of the entry.
    pub closed spec fn leaf(&self) -> Seq<u8> {
        name_of(self.file_name)
    }

    /// The full path of the parent directory, where the entry holds only its name
    /// below it.
    pub closed spec fn parent_path(&self) -> Option<Seq<u8>> {
        match self.file_name {
            EntryPath::Name { parent, .. } => Some(path_of(parent.path)),
            EntryPath::Full(_) => None,
        }
    }

    pub closed spec fn kind(&self) -> FileType {
        self.file_type
    }

    pub closed spec fn level(&self) -> usize {
        self.depth
    }

    /// The full path of this entry, built by walking up its parent chain.
    pub fn path(&self) -> (r: Vec<u8>)
        ensures
            r@ == self.full_path(),
    {
        self.file_name.make_path()
    }

    pub fn path_is_symlink(&self) -> (r: bool)
        ensures
            r == (self.kind().inner == Some(FileTypeInner::SymbolicLink)),
    {
        self.file_type.is_symlink()
    }

    /// Turn the entry into its full path.
    pub fn into_path(self) -> (r: Vec<u8>)
        ensures
            r@ == self.full_path(),
    {
        match self.file_name {
            EntryPath::Full(buf) => buf,
            EntryPath::Name { name, parent } => {
                let base = parent.make_path();
                join_path(&base, name.as_slice())
            },
        }
    }

    pub fn file_type(&self) -> (r: FileType)
        ensures
            r == self.kind(),
    {
        self.file_type
    }

    /// The file name of this entry.
    pub fn file_name(&self) -> (r: &[u8])
        ensures
            r@ == self.leaf(),
    {
        match &self.file_name {
            EntryPath::Full(buf) => last_component_of(buf.as_slice()),
            EntryPath::Name { name, .. } => name.as_slice(),
        }
    }

    /// The depth at which this entry is in the directory tree; the root is at depth 0.
    pub fn depth(&self) -> (r: usize)
        ensures
            r == self.level(),
    {
        self.depth
    }
}

/// An error met during the walk.
#[derive(Debug)]
pub struct Error {
    /// The depth of the entry or directory that failed.
    depth: usize,
    /// Its path, where one is known.
    path: Option<Vec<u8>>,
    /// The operating system's error number; `None` for records the kernel left
    /// inconsistent.
    errno: Option<i32>,
}

impl Error {
    pub closed spec fn at_depth(&self) -> usize {
        self.depth
    }

    pub closed spec fn at_path(&self) -> Option<Seq<u8>> {
        match self.path {
            Some(p) => Some(p@),
            None => None,
        }
    }

    pub closed spec fn os_error(&self) -> Option<i32> {
        self.errno
    }

    fn new(depth: usize, path: Option<Vec<u8>>, errno: Option<i32>) -> (r: Self)
        ensures
            r.at_depth() == depth,
            r.at_path() == (match path {
                Some(p) => Some(p@),
                None => None::<Seq<u8>>,
            }),
            r.os_error() == errno,
    {
        Error { depth, path, errno }
    }

    fn from_io(errno: i32, depth: usize, path: Option<Vec<u8>>) -> (r: Self)
        ensures
            r.at_depth() == depth,
            r.at_path() == (match path {
                Some(p) => Some(p@),
                None => None::<Seq<u8>>,
            }),
            r.os_error() == Some(errno),
    {
        Error::new(depth, path, Some(errno))
    }

    /// The path of the entry or directory that failed, where one is known.
    pub fn path(&self) -> (r: Option<&[u8]>)
        ensures
            match (r, self.at_path()) {
                (Some(a), Some(b)) => a@ == b,
                (None, None) => true,
                _ => false,
            },
    {
        match &self.path {
            Some(p) => Some(p.as_slice()),
            None => None,
        }
    }

    /// The ancestor that a symbolic link loops back to. Links are never followed here,
    /// so there is none.
    pub fn loop_ancestor(&self) -> (r: Option<&[u8]>)
        ensures
            r is None,
    {
        None
    }

    pub fn depth(&self) -> (r: usize)
        ensures
            r == self.at_depth(),
    {
        self.depth
    }

    /// The operating system's error number, if the error came from a system call.
    pub fn io_error(&self) -> (r: Option<i32>)
        ensures
            r == self.os_error(),
    {
        self.errno
    }

    /// The operating system's error number, if the error came from a system call.
    pub fn into_io_error(&self) -> (r: Option<i32>)
        ensures
            r == self.os_error(),
    {
        self.errno
    }
}

/// The settings of a walk.
#[derive(Clone, Copy, Debug, PartialEq, Eq, Structural)]
pub struct Configuration {
    pub min_depth: usize,
    pub max_depth: usize,
    pub max_open: usize,
    pub follow_links: bool,
    pub contents_first: bool,
    pub same_file_system: bool,
}

impl Configuration {
    /// The settings can be run: a depth range that is not empty, room for one descriptor,
    /// and none of the options that are not carried out.
    pub open spec fn consistent(&self) -> bool {
        &&& self.min_depth <= self.max_depth
        &&& self.max_open > 0
        &&& !self.follow_links
        &&& !self.same_file_system
    }

    /// Whether the settings can be run.
    pub fn assert_consistent(&self) -> (r: bool)
        ensures
            r == self.consistent(),
    {
        self.min_depth <= self.max_depth && self.max_open > 0 && !self.follow_links
            && !self.same_file_system
    }
}

impl Default for Configuration {
    fn default() -> (r: Self)
        ensures
            r == (Configuration {
                min_depth: 0,
                max_depth: usize::MAX,
                max_open: 10,
                follow_links: false,
                contents_first: false,
                same_file_system: false,
            }),
    {
        Configuration {
            min_depth: 0,
            max_depth: usize::MAX,
            max_open: 10,
            follow_links: false,
            contents_first: false,
            same_file_system: false,
        }
    }
}

/// Configure walking over all files in a directory tree.
pub struct WalkDir {
    /// The user supplied configuration.
    config: Configuration,
    path: Vec<u8>,
}

impl WalkDir {
    pub closed spec fn settings(&self) -> Configuration {
        self.config
    }

    pub closed spec fn root(&self) -> Seq<u8> {
        self.path@
    }

    /// A walk from `path`, with the default settings.
    pub fn new(path: &[u8]) -> (r: Self)
        ensures
            r.root() == path@,
            r.settings() == (Configuration {
                min_depth: 0,
                max_depth: usize::MAX,
                max_open: 10,
                follow_links: false,
                contents_first: false,
                same_file_system: false,
            }),
    {
        let mut p: Vec<u8> = Vec::new();
        p.extend_from_slice(path);
        WalkDir { config: Configuration::default(), path: p }
    }

    /// The settings of this walk.
    pub fn configuration(&self) -> (r: Configuration)
        ensures
            r == self.settings(),
    {
        self.config
    }

    /// Report no entry above depth `n`.
    pub fn min_depth(self, n: usize) -> (r: Self)
        ensures
            r.root() == self.root(),
            r.settings() == (Configuration { min_depth: n, ..self.settings() }),
    {
        let mut w = self;
        w.config.min_depth = n;
        w
    }

    /// Descend no further than depth `n`.
    pub fn max_depth(self, n: usize) -> (r: Self)
        ensures
            r.root() == self.root(),
            r.settings() == (Configuration { max_depth: n, ..self.settings() }),
    {
        let mut w = self;
        w.config.max_depth = n;
        w
    }

    /// Hold at most `n` directory descriptors at once.
    pub fn max_open(self, n: usize) -> (r: Self)
        ensures
            r.root() == self.root(),
            r.settings() == (Configuration { max_open: n, ..self.settings() }),
    {
        let mut w = self;
        w.config.max_open = n;
        w
    }

    pub fn follow_links(self, yes: bool) -> (r: Self)
        ensures
            r.root() == self.root(),
            r.settings() == (Configuration { follow_links: yes, ..self.settings() }),
    {
        let mut w = self;
        w.config.follow_links = yes;
        w
    }

    pub fn contents_first(self, yes: bool) -> (r: Self)
        ensures
            r.root() == self.root(),
            r.settings() == (Configuration { contents_first: yes, ..self.settings() }),
    {
        let mut w = self;
        w.config.contents_first = yes;
        w
    }

    pub fn same_file_system(self, yes: bool) -> (r: Self)
        ensures
            r.root() == self.root(),
            r.settings() == (Configuration { same_file_system: yes, ..self.settings() }),
    {
        let mut w = self;
        w.config.same_file_system = yes;
        w
    }
}

/// Counters of the system calls that a walk asked for.
#[derive(Clone, Copy, Debug, PartialEq, Eq, Structural)]
pub struct Stats {
    pub nr_close: u64,
    pub nr_getdent: u64,
    pub nr_open: u64,
    pub nr_openat: u64,
    pub nr_stat: u64,
}

/// One more, staying at the largest value once there.
pub open spec fn bump(n: u64) -> u64 {
    if n == u64::MAX {
        n
    } else {
        (n + 1) as u64
    }
}

/// `n` is `.` or `..`, which are never yielded nor descended into.
pub open spec fn is_dot_name(n: Seq<u8>) -> bool {
    n == seq![0x2eu8] || n == seq![0x2eu8, 0x2eu8]
}

/// `n` can name an entry inside a directory: it is not empty and holds no separator.
pub open spec fn joinable(n: Seq<u8>) -> bool {
    n.len() > 0 && !n.contains(SEP)
}

/// `n` names an entry of a directory: it is joinable and neither `.` nor `..`.
pub open spec fn entry_name(n: Seq<u8>) -> bool {
    !is_dot_name(n) && joinable(n)
}

/// The records that stand for entries of the directory: all but `.` and `..`. A
/// name that cannot be joined to the directory (empty, or holding a separator) makes
/// the record malformed, and ends the sequence as an error does.
pub open spec fn live(recs: Seq<Result<Record, DirentErr>>) -> Seq<Result<Record, DirentErr>>
    decreases recs.len(),
{
    if recs.len() == 0 {
        recs
    } else if recs[0] is Ok && is_dot_name(recs[0]->Ok_0.1) {
        live(recs.drop_first())
    } else if recs[0] is Ok && !joinable(recs[0]->Ok_0.1) {
        seq![Err(DirentErr::InvalidLength)]
    } else {
        seq![recs[0]] + live(recs.drop_first())
    }
}

/// The number of `.` and `..` records.
pub open spec fn dots(recs: Seq<Result<Record, DirentErr>>) -> nat
    decreases recs.len(),
{
    if recs.len() == 0 {
        0
    } else if recs[0] is Ok && is_dot_name(recs[0]->Ok_0.1) {
        dots(recs.drop_first()) + 1
    } else {
        dots(recs.drop_first())
    }
}

/// Of well-formed records, each is either handed on as an entry or skipped as `.` or
/// `..`: the two counts add up to the number of records the kernel wrote.
pub proof fn lemma_records_accounted(recs: Seq<Result<Record, DirentErr>>)
    requires
        forall|j: int|
            0 <= j < recs.len() ==> (#[trigger] recs[j]) is Ok && (is_dot_name(recs[j]->Ok_0.1)
                || joinable(recs[j]->Ok_0.1)),
    ensures
        live(recs).len() + dots(recs) == recs.len(),
    decreases recs.len(),
{
    if recs.len() > 0 {
        assert(recs[0] is Ok);
        assert forall|j: int| 0 <= j < recs.drop_first().len() implies (#[trigger] recs.drop_first()[j]) is Ok
            && (is_dot_name(recs.drop_first()[j]->Ok_0.1) || joinable(recs.drop_first()[j]->Ok_0.1)) by {
            assert(recs.drop_first()[j] == recs[j + 1]);
        }
        lemma_records_accounted(recs.drop_first());
    }
}

/// Unfolding the record sequence of a non-empty byte string by one record.
proof fn lemma_records_step(b: Seq<u8>)
    requires
        b.len() > 0,
    ensures
        after_head(b).len() < b.len(),
        parse_records(b).len() > 0,
        parse_records(b)[0] is Err ==> after_head(b).len() == 0 && parse_records(b).len() == 1,
        parse_records(b)[0] is Ok ==> parse_records(after_head(b)) == parse_records(b).drop_first(),
        parse_head(b) is Ok <==> parse_records(b)[0] is Ok,
{
    match parse_head(b) {
        Ok((rec, n)) => {
            assert(parse_records(b) == seq![Ok::<Record, DirentErr>(rec)] + parse_records(
                b.subrange(n, b.len() as int),
            ));
            assert(parse_records(b).drop_first() =~= parse_records(b.subrange(n, b.len() as int)));
        },
        Err(e) => {},
    }
}

proof fn lemma_live_of_error(recs: Seq<Result<Record, DirentErr>>)
    requires
        recs.len() == 1,
        recs[0] is Err,
    ensures
        live(recs) == recs,
        live(recs).drop_first() == Seq::<Result<Record, DirentErr>>::empty(),
{
    assert(recs.drop_first() =~= Seq::<Result<Record, DirentErr>>::empty());
    assert(live(recs.drop_first()) == recs.drop_first());
    assert(live(recs) == seq![recs[0]] + live(recs.drop_first()));
    assert(live(recs) =~= recs);
}

/// Every record handed on names an entry of its directory.
proof fn lemma_live_names(recs: Seq<Result<Record, DirentErr>>)
    ensures
        forall|j: int|
            0 <= j < live(recs).len() && (#[trigger] live(recs)[j]) is Ok ==> entry_name(
                live(recs)[j]->Ok_0.1,
            ),
    decreases recs.len(),
{
    if recs.len() > 0 {
        lemma_live_names(recs.drop_first());
        if !(recs[0] is Ok && is_dot_name(recs[0]->Ok_0.1)) && !(recs[0] is Ok && !joinable(
            recs[0]->Ok_0.1,
        )) {
            let l = live(recs);
            assert(l == seq![recs[0]] + live(recs.drop_first()));
            assert forall|j: int| 0 <= j < l.len() && (#[trigger] l[j]) is Ok implies entry_name(
                l[j]->Ok_0.1,
            ) by {
                if j > 0 {
                    assert(l[j] == live(recs.drop_first())[j - 1]);
                }
            }
        }
    }
}

/// Whether a name can be joined to a directory.
fn is_joinable(name: &Vec<u8>) -> (r: bool)
    ensures
        r == joinable(name@),
{
    let mut i: usize = 0;
    while i < name.len()
        invariant
            i <= name@.len(),
            forall|j: int| 0 <= j < i ==> name@[j] != SEP,
        decreases name@.len() - i,
    {
        if name[i] == SEP {
            assert(name@.contains(SEP));
            return false;
        }
        i = i + 1;
    }
    assert(!name@.contains(SEP));
    name.len() > 0
}

/// Whether a name is `.` or `..`.
fn is_dot(name: &Vec<u8>) -> (r: bool)
    ensures
        r == is_dot_name(name@),
{
    let n = name.len();
    let r = (n == 1 && name[0] == 0x2e) || (n == 2 && name[0] == 0x2e && name[1] == 0x2e);
    proof {
        if n == 1 && name@[0] == 0x2e {
            assert(name@ =~= seq![0x2eu8]);
        }
        if n == 2 && name@[0] == 0x2e && name@[1] == 0x2e {
            assert(name@ =~= seq![0x2eu8, 0x2eu8]);
        }
    }
    r
}

/// A directory descriptor that the driver opened for the walk.
struct DirFd(i32);

/// An entry of a closed directory.
///
/// Its directory's descriptor is gone, so the entry carries its complete path: a
/// subdirectory is opened by that path and not relative to its parent.
struct Backlog {
    /// The complete path up to here.
    file_path: Vec<u8>,
    file_type: Option<FileTypeInner>,
}

/// A directory with a file descriptor.
struct Open {
    /// The open file descriptor.
    fd: DirFd,
    /// The buffer for reading entries of this directory.
    buffer: DirentBuf,
    /// The depth of the entries of this directory.
    depth: usize,
    /// This directory, as the parent of its entries.
    as_parent: Arc<Node>,
}

/// A directory that had to be closed, with its remaining entries read to memory.
struct Closed {
    /// The depth of the entries of this directory.
    depth: usize,
    /// The remaining entries, the next one last.
    children: Vec<Backlog>,
}

/// The state of one directory in progress.
enum WorkItem {
    /// A directory which is still open.
    Open(Open),
    /// A directory that was closed.
    Closed(Closed),
}

/// Relation of a yielded entry to the record it came from.
pub open spec fn entry_of_record(
    e: Result<DirEntry, DirentErr>,
    rec: Result<Record, DirentErr>,
    parent: Seq<u8>,
    depth: usize,
) -> bool {
    match (e, rec) {
        (Ok(e), Ok(rec)) => {
            &&& e.parent_path() == Some(parent)
            &&& e.leaf() == rec.1
            &&& e.full_path() == join(parent, rec.1)
            &&& e.kind().inner == crate::kind_of_tag(rec.0 as u8)
            &&& e.level() == depth
        },
        (Err(x), Err(y)) => x == y,
        _ => false,
    }
}

impl Open {
    /// The next record of the buffer that is not `.` or `..`.
    fn next_live(&mut self) -> (r: Option<Result<Entry, DirentErr>>)
        requires
            old(self).buffer.wf(),
        ensures
            final(self).buffer.wf(),
            final(self).buffer.capacity() == old(self).buffer.capacity(),
            final(self).fd == old(self).fd,
            final(self).depth == old(self).depth,
            final(self).as_parent == old(self).as_parent,
            final(self).buffer.unread().len() <= old(self).buffer.unread().len(),
            r is Some ==> final(self).buffer.unread().len() < old(self).buffer.unread().len(),
            live(parse_records(old(self).buffer.unread())).len() == 0 ==> r is None,
            r is None ==> final(self).buffer.unread().len() == 0,
            live(parse_records(old(self).buffer.unread())).len() > 0 ==> {
                &&& r is Some
                &&& result_view(r->0) == live(parse_records(old(self).buffer.unread()))[0]
                &&& live(parse_records(final(self).buffer.unread())) == live(
                    parse_records(old(self).buffer.unread()),
                ).drop_first()
            },
            r matches Some(Ok(e)) ==> entry_name(e.name@),
    {
        let ghost orig = live(parse_records(self.buffer.unread()));
        loop
            invariant
                self.buffer.wf(),
                self.buffer.capacity() == old(self).buffer.capacity(),
                self.fd == old(self).fd,
                self.depth == old(self).depth,
                self.as_parent == old(self).as_parent,
                self.buffer.unread().len() <= old(self).buffer.unread().len(),
                live(parse_records(self.buffer.unread())) == orig,
                orig == live(parse_records(old(self).buffer.unread())),
            decreases self.buffer.unread().len(),
        {
            let ghost u = self.buffer.unread();
            proof {
                if u.len() > 0 {
                    lemma_records_step(u);
                }
            }
            match self.buffer.pop_entry() {
                None => {
                    return None;
                },
                Some(Err(e)) => {
                    proof { lemma_live_of_error(parse_records(u)); }
                    return Some(Err(e));
                },
                Some(Ok(entry)) => {
                    let ghost recs = parse_records(u);
                    assert(recs[0] is Ok);
                    if !is_dot(&entry.name) {
                        if !is_joinable(&entry.name) {
                            self.buffer.discard();
                            assert(live(recs) == seq![Err::<Record, DirentErr>(DirentErr::InvalidLength)]);
                            assert(live(recs).drop_first() =~= Seq::<Result<Record, DirentErr>>::empty());
                            return Some(Err(DirentErr::InvalidLength));
                        }
                        proof {
                            lemma_live_names(recs);
                        }
                        assert(live(recs) =~= seq![recs[0]] + live(recs.drop_first()));
                        return Some(Ok(entry));
                    }
                },
            }
        }
    }

    /// The next entry of this directory that is ready without a system call.
    fn ready_entry(&mut self) -> (r: Option<Result<DirEntry, DirentErr>>)
        requires
            old(self).buffer.wf(),
        ensures
            final(self).buffer.wf(),
            final(self).buffer.capacity() == old(self).buffer.capacity(),
            final(self).fd == old(self).fd,
            final(self).depth == old(self).depth,
            final(self).as_parent == old(self).as_parent,
            final(self).buffer.unread().len() <= old(self).buffer.unread().len(),
            r is Some ==> final(self).buffer.unread().len() < old(self).buffer.unread().len(),
            live(parse_records(old(self).buffer.unread())).len() == 0 ==> r is None,
            r is None ==> final(self).buffer.unread().len() == 0,
            live(parse_records(old(self).buffer.unread())).len() > 0 ==> {
                &&& r is Some
                &&& entry_of_record(
                    r->0,
                    live(parse_records(old(self).buffer.unread()))[0],
                    path_of(old(self).as_parent.path),
                    old(self).depth,
                )
                &&& live(parse_records(final(self).buffer.unread())) == live(
                    parse_records(old(self).buffer.unread()),
                ).drop_first()
            },
            r matches Some(Ok(e)) ==> entry_name(e.leaf()),
    {
        match self.next_live() {
            None => None,
            Some(Err(e)) => Some(Err(e)),
            Some(Ok(entry)) => {
                let kind = entry.file_type();
                Some(
                    Ok(
                        DirEntry {
                            file_name: EntryPath::Name {
                                name: entry.name,
                                parent: self.as_parent.clone(),
                            },
                            depth: self.depth,
                            file_type: FileType { inner: kind },
                        },
                    ),
                )
            },
        }
    }
}

impl Closed {
    /// The next backlog entry, as a yielded entry.
    fn ready_entry(&mut self) -> (r: Option<DirEntry>)
        ensures
            final(self).depth == old(self).depth,
            old(self).children@.len() == 0 ==> r is None && final(self).children@ == old(
                self).children@,
            old(self).children@.len() > 0 ==> {
                &&& r is Some
                &&& final(self).children@ == old(self).children@.drop_last()
                &&& r->0.full_path() == old(self).children@.last().file_path@
                &&& r->0.kind().inner == old(self).children@.last().file_type
                &&& r->0.level() == old(self).depth
                &&& r->0.parent_path() is None
            },
    {
        match self.children.pop() {
            None => None,
            Some(backlog) => Some(
                DirEntry {
                    file_name: EntryPath::Full(backlog.file_path),
                    file_type: FileType { inner: backlog.file_type },
                    depth: self.depth,
                },
            ),
        }
    }
}

/// The size of the buffer that each open directory reads its records into.
pub const BUFFER_SIZE: usize = 16384;

/// What the driver of a walk has to do next.
pub enum Step {
    /// Read records of the directory `fd` with `getdents64`, into at most `len` bytes;
    /// hand the result to `filled`.
    Fill { fd: i32, len: usize },
    /// Open `name` below the directory `dir` (read-only, directories only); hand the
    /// result to `opened`.
    OpenAt { dir: i32, name: Vec<u8> },
    /// Open the directory `path` (read-only, directories only); hand the result to
    /// `opened`.
    Open { path: Vec<u8> },
    /// Close the descriptor `fd`; hand the result to `closed`.
    Close { fd: i32 },
    /// Find out the kind of the file at `path`, without following a final symbolic
    /// link; hand the result to `stat_done`.
    Stat { path: Vec<u8> },
    /// The next entry of the walk.
    Yield(DirEntry),
    /// A failure, reported in place of an entry; the walk goes on.
    Fail(Error),
    /// Nothing to report yet: call `advance` again.
    Continue,
    /// The walk is over.
    Done,
}

/// The report that the walk waits for before it can go on.
#[derive(Clone, Copy, Debug, PartialEq, Eq, Structural)]
pub enum Wait {
    /// None: call `advance`.
    Nothing,
    /// The result of `getdents64`, for `filled`.
    Fill,
    /// The result of opening a directory, for `opened`.
    Open,
    /// The result of closing a descriptor, for `closed`.
    Close,
    /// The kind of a file, for `stat_done`.
    Stat,
}

/// The report that a step asks for.
pub open spec fn awaited(s: Step) -> Wait {
    match s {
        Step::Fill { .. } => Wait::Fill,
        Step::OpenAt { .. } => Wait::Open,
        Step::Open { .. } => Wait::Open,
        Step::Close { .. } => Wait::Close,
        Step::Stat { .. } => Wait::Stat,
        _ => Wait::Nothing,
    }
}

/// The counters after a step: the system call it asks for is counted.
pub open spec fn tally(s: Stats, step: Step) -> Stats {
    match step {
        Step::Fill { .. } => Stats { nr_getdent: bump(s.nr_getdent), ..s },
        Step::OpenAt { .. } => Stats { nr_openat: bump(s.nr_openat), ..s },
        Step::Open { .. } => Stats { nr_open: bump(s.nr_open), ..s },
        Step::Close { .. } => Stats { nr_close: bump(s.nr_close), ..s },
        Step::Stat { .. } => Stats { nr_stat: bump(s.nr_stat), ..s },
        _ => s,
    }
}

fn bump_count(n: u64) -> (r: u64)
    ensures
        r == bump(n),
{
    if n == u64::MAX {
        n
    } else {
        n + 1
    }
}

/// A forced close in progress: the rest of `item` is read into `backlog`, then its
/// descriptor is closed, and then `entry` is opened by its full path.
struct Eviction {
    /// Where `item` stood on the stack.
    at: usize,
    item: Open,
    /// The path of the directory of `item`.
    base: Vec<u8>,
    backlog: Vec<Backlog>,
    entry: DirEntry,
    error: Option<Error>,
    /// Whether the descriptor is being closed (else: being read).
    closing: bool,
}

/// What the walk waits for.
enum Pending {
    Idle,
    /// The records of the top directory.
    Fill,
    /// The kind of this entry.
    Stat(DirEntry),
    /// The descriptor of the directory of `entry`, which will be known as `node`.
    Descend { entry: DirEntry, node: EntryPath },
    /// A step of a forced close.
    Evict(Eviction),
    /// The close of `fd`, which was popped from the stack; then `error` is reported.
    Release { fd: i32, depth: usize, error: Option<Error> },
}

/// The walk in progress.
pub struct IntoIter {
    /// The user supplied configuration.
    config: Configuration,
    /// The current 'finger' within the tree of directories.
    stack: Vec<WorkItem>,
    /// The number of descriptors that may still be opened.
    open_budget: usize,
    /// Statistics about the system calls.
    stats: Stats,
    pending: Pending,
    /// Descriptors opened so far.
    opened: Ghost<nat>,
    /// Descriptors closed so far.
    closed: Ghost<nat>,
    /// The directories the walk has entered.
    reached: Ghost<Set<Seq<u8>>>,
    /// The path the walk started from.
    root: Ghost<Seq<u8>>,
}

/// `p` names an entry directly inside one of the directories of `reached`: the
/// directory's path joined to one name that holds no separator.
pub open spec fn below(reached: Set<Seq<u8>>, p: Seq<u8>) -> bool {
    exists|d: Seq<u8>, n: Seq<u8>|
        #![trigger join(d, n)]
        reached.contains(d) && entry_name(n) && p == join(d, n)
}

/// `p` is the root of the walk, or names an entry inside a directory of `reached`.
pub open spec fn anchored(reached: Set<Seq<u8>>, root: Seq<u8>, p: Seq<u8>) -> bool {
    p == root || below(reached, p)
}

proof fn lemma_below_intro(reached: Set<Seq<u8>>, root: Seq<u8>, d: Seq<u8>, n: Seq<u8>)
    requires
        reached.contains(d),
        entry_name(n),
    ensures
        below(reached, join(d, n)),
        anchored(reached, root, join(d, n)),
{
}

proof fn lemma_anchored_grows(reached: Set<Seq<u8>>, root: Seq<u8>, p: Seq<u8>, x: Seq<u8>)
    requires
        anchored(reached, root, p),
    ensures
        anchored(reached.insert(x), root, p),
{
    if p != root {
        let (d, n) = choose|d: Seq<u8>, n: Seq<u8>|
            #![trigger join(d, n)]
            reached.contains(d) && entry_name(n) && p == join(d, n);
        assert(reached.insert(x).contains(d));
        assert(p == join(d, n));
    }
}

/// Every entry that a work item will hand out is anchored, and an open directory
/// has been entered.
spec fn item_anchored(w: WorkItem, reached: Set<Seq<u8>>, root: Seq<u8>) -> bool {
    match w {
        WorkItem::Open(o) => reached.contains(path_of(o.as_parent.path)),
        WorkItem::Closed(c) => forall|i: int|
            0 <= i < c.children@.len() ==> anchored(reached, root, #[trigger] c.children@[i].file_path@),
    }
}

proof fn lemma_item_anchored_grows(w: WorkItem, reached: Set<Seq<u8>>, root: Seq<u8>, x: Seq<u8>)
    requires
        item_anchored(w, reached, root),
    ensures
        item_anchored(w, reached.insert(x), root),
{
    match w {
        WorkItem::Open(o) => {},
        WorkItem::Closed(c) => {
            assert forall|i: int| 0 <= i < c.children@.len() implies anchored(
                reached.insert(x),
                root,
                #[trigger] c.children@[i].file_path@,
            ) by {
                lemma_anchored_grows(reached, root, c.children@[i].file_path@, x);
            }
        },
    }
}

/// The number of open directories on a stack.
spec fn count_open(s: Seq<WorkItem>) -> nat
    decreases s.len(),
{
    if s.len() == 0 {
        0
    } else {
        count_open(s.drop_last()) + if s.last() is Open {
            1nat
        } else {
            0nat
        }
    }
}

/// The descriptors of the open directories of a stack, in stack order.
spec fn open_fds(s: Seq<WorkItem>) -> Seq<i32>
    decreases s.len(),
{
    if s.len() == 0 {
        Seq::empty()
    } else {
        match s.last() {
            WorkItem::Open(o) => open_fds(s.drop_last()).push(o.fd.0),
            WorkItem::Closed(_) => open_fds(s.drop_last()),
        }
    }
}

proof fn lemma_open_fds_len(s: Seq<WorkItem>)
    ensures
        open_fds(s).len() == count_open(s),
    decreases s.len(),
{
    if s.len() > 0 {
        lemma_open_fds_len(s.drop_last());
    }
}

spec fn open_as_nat(w: WorkItem) -> nat {
    if w is Open {
        1
    } else {
        0
    }
}

proof fn lemma_count_push(s: Seq<WorkItem>, w: WorkItem)
    ensures
        count_open(s.push(w)) == count_open(s) + open_as_nat(w),
{
    assert(s.push(w).drop_last() =~= s);
}

proof fn lemma_count_update(s: Seq<WorkItem>, i: int, w: WorkItem)
    requires
        0 <= i < s.len(),
    ensures
        count_open(s.update(i, w)) + open_as_nat(s[i]) == count_open(s) + open_as_nat(w),
    decreases s.len(),
{
    if i == s.len() - 1 {
        assert(s.update(i, w).drop_last() =~= s.drop_last());
    } else {
        assert(s.update(i, w).drop_last() =~= s.drop_last().update(i, w));
        lemma_count_update(s.drop_last(), i, w);
    }
}

proof fn lemma_count_none(s: Seq<WorkItem>)
    requires
        forall|j: int| 0 <= j < s.len() ==> !(#[trigger] s[j] is Open),
    ensures
        count_open(s) == 0,
    decreases s.len(),
{
    if s.len() > 0 {
        lemma_count_none(s.drop_last());
    }
}

/// Replacing one item of a stack by a well-formed one keeps every item well-formed,
/// and changes the count of open directories by what was replaced.
proof fn lemma_stack_update(s: Seq<WorkItem>, i: int, w: WorkItem)
    requires
        0 <= i < s.len(),
        forall|j: int| 0 <= j < s.len() ==> item_wf(#[trigger] s[j]),
        item_wf(w),
    ensures
        forall|j: int| 0 <= j < s.update(i, w).len() ==> item_wf(#[trigger] s.update(i, w)[j]),
        count_open(s.update(i, w)) + open_as_nat(s[i]) == count_open(s) + open_as_nat(w),
{
    lemma_count_update(s, i, w);
    assert forall|j: int| 0 <= j < s.update(i, w).len() implies item_wf(#[trigger] s.update(i, w)[j]) by {
        if j != i {
            assert(s.update(i, w)[j] == s[j]);
        }
    }
}

/// Pushing a well-formed item keeps every item well-formed.
proof fn lemma_stack_push(s: Seq<WorkItem>, w: WorkItem)
    requires
        forall|j: int| 0 <= j < s.len() ==> item_wf(#[trigger] s[j]),
        item_wf(w),
    ensures
        forall|j: int| 0 <= j < s.push(w).len() ==> item_wf(#[trigger] s.push(w)[j]),
        count_open(s.push(w)) == count_open(s) + open_as_nat(w),
{
    lemma_count_push(s, w);
    assert forall|j: int| 0 <= j < s.push(w).len() implies item_wf(#[trigger] s.push(w)[j]) by {
        if j < s.len() {
            assert(s.push(w)[j] == s[j]);
        }
    }
}

spec fn pending_fds(p: Pending) -> nat {
    match p {
        Pending::Evict(_) => 1,
        Pending::Release { .. } => 1,
        _ => 0,
    }
}

spec fn item_wf(w: WorkItem) -> bool {
    match w {
        WorkItem::Open(o) => o.buffer.wf() && o.buffer.capacity() == BUFFER_SIZE,
        WorkItem::Closed(_) => true,
    }
}

fn item_is_open(w: &WorkItem) -> (r: bool)
    ensures
        r == (*w is Open),
{
    match w {
        WorkItem::Open(_) => true,
        WorkItem::Closed(_) => false,
    }
}

/// The counters of a walk that has made no system call.
pub open spec fn no_calls() -> Stats {
    Stats { nr_close: 0, nr_getdent: 0, nr_open: 0, nr_openat: 0, nr_stat: 0 }
}

impl IntoIter {
    /// Descriptors the walk holds: those of its open directories, and one that a
    /// forced close or a release is about to close.
    pub closed spec fn held(&self) -> nat {
        count_open(self.stack@) + pending_fds(self.pending)
    }

    /// One more descriptor is being opened.
    pub closed spec fn in_flight(&self) -> nat {
        if self.pending is Descend {
            1
        } else {
            0
        }
    }

    pub closed spec fn settings(&self) -> Configuration {
        self.config
    }

    /// The directories that the walk has entered so far.
    pub closed spec fn entered(&self) -> Set<Seq<u8>> {
        self.reached@
    }

    /// The path the walk started from.
    pub closed spec fn root_path(&self) -> Seq<u8> {
        self.root@
    }

    /// The next entry that the top directory has ready without a system call: its
    /// path, its kind as far as known, and its depth.
    pub closed spec fn next_ready(&self) -> Option<(Seq<u8>, Option<FileTypeInner>, usize)> {
        if self.stack@.len() == 0 {
            None
        } else {
            match self.stack@.last() {
                WorkItem::Open(o) => {
                    let l = live(parse_records(o.buffer.unread()));
                    if l.len() > 0 && l[0] is Ok {
                        Some(
                            (
                                join(path_of(o.as_parent.path), l[0]->Ok_0.1),
                                crate::kind_of_tag(l[0]->Ok_0.0 as u8),
                                o.depth,
                            ),
                        )
                    } else {
                        None
                    }
                },
                WorkItem::Closed(c) => if c.children@.len() > 0 {
                    Some((c.children@.last().file_path@, c.children@.last().file_type, c.depth))
                } else {
                    None
                },
            }
        }
    }

    /// A forced close is in progress.
    pub closed spec fn evicting(&self) -> bool {
        self.pending is Evict
    }

    /// Whether the `i`th directory of the stack (counted from the root) is open.
    pub closed spec fn is_open_at(&self, i: int) -> bool {
        self.stack@[i] is Open
    }

    /// The descriptor of the `i`th directory, where it is open.
    pub closed spec fn fd_at(&self, i: int) -> i32 {
        match self.stack@[i] {
            WorkItem::Open(o) => o.fd.0,
            WorkItem::Closed(_) => -1i32,
        }
    }

    /// The depth of the entries of the `i`th directory.
    pub closed spec fn depth_at(&self, i: int) -> usize {
        match self.stack@[i] {
            WorkItem::Open(o) => o.depth,
            WorkItem::Closed(c) => c.depth,
        }
    }

    /// The path of the `i`th directory, where it is open.
    pub closed spec fn dir_at(&self, i: int) -> Seq<u8> {
        match self.stack@[i] {
            WorkItem::Open(o) => path_of(o.as_parent.path),
            WorkItem::Closed(_) => Seq::empty(),
        }
    }

    /// The size of the record buffer of the `i`th directory, where it is open.
    pub closed spec fn capacity_at(&self, i: int) -> nat {
        match self.stack@[i] {
            WorkItem::Open(o) => o.buffer.capacity(),
            WorkItem::Closed(_) => 0,
        }
    }

    /// The bytes the kernel wrote for the `i`th directory, where it is open, that
    /// were not read yet.
    pub closed spec fn unread_at(&self, i: int) -> Seq<u8> {
        match self.stack@[i] {
            WorkItem::Open(o) => o.buffer.unread(),
            WorkItem::Closed(_) => Seq::empty(),
        }
    }

    /// The records of the `i`th directory that are still to be handed out.
    pub open spec fn live_at(&self, i: int) -> Seq<Result<Record, DirentErr>> {
        live(parse_records(self.unread_at(i)))
    }

    /// The entries kept in memory for the `i`th directory, where it is closed: full
    /// path and kind, the next one last.
    pub closed spec fn backlog_at(&self, i: int) -> Seq<(Seq<u8>, Option<FileTypeInner>)> {
        match self.stack@[i] {
            WorkItem::Open(_) => Seq::empty(),
            WorkItem::Closed(c) => c.children@.map_values(|b: Backlog| backlog_view(b)),
        }
    }

    /// The `i`th directory is the same in both walks.
    pub closed spec fn same_at(&self, other: &IntoIter, i: int) -> bool {
        self.stack@[i] == other.stack@[i]
    }

    /// The first `n` directories are the same in both walks.
    pub open spec fn same_below(&self, other: &IntoIter, n: int) -> bool {
        forall|i: int| 0 <= i < n ==> #[trigger] self.same_at(other, i)
    }

    /// The number of descriptors that may still be opened.
    pub closed spec fn budget_left(&self) -> nat {
        self.open_budget as nat
    }

    /// The entry the walk is busy with (asking its kind, opening it, or closing a
    /// directory to make room for it): its path, kind and depth.
    pub closed spec fn pending_entry(&self) -> Option<(Seq<u8>, Option<FileTypeInner>, usize)> {
        match self.pending {
            Pending::Stat(e) => Some((e.full_path(), e.kind().inner, e.level())),
            Pending::Descend { entry, .. } => Some(
                (entry.full_path(), entry.kind().inner, entry.level()),
            ),
            Pending::Evict(ev) => Some(
                (ev.entry.full_path(), ev.entry.kind().inner, ev.entry.level()),
            ),
            _ => None,
        }
    }

    /// An error waits to be reported once the descriptor being closed is closed.
    pub closed spec fn error_recorded(&self) -> bool {
        match self.pending {
            Pending::Release { error, .. } => error is Some,
            Pending::Evict(ev) => ev.error is Some,
            _ => false,
        }
    }

    /// During a forced close: where the directory stood on the stack.
    pub closed spec fn evicted_at(&self) -> int {
        match self.pending {
            Pending::Evict(ev) => ev.at as int,
            _ => 0,
        }
    }

    /// During a forced close: the path of the directory.
    pub closed spec fn evicted_dir(&self) -> Seq<u8> {
        match self.pending {
            Pending::Evict(ev) => ev.base@,
            _ => Seq::empty(),
        }
    }

    /// During a forced close: the directory's descriptor.
    pub closed spec fn evicted_fd(&self) -> i32 {
        match self.pending {
            Pending::Evict(ev) => ev.item.fd.0,
            _ => -1i32,
        }
    }

    /// During a forced close: the depth of the directory's entries.
    pub closed spec fn evicted_depth(&self) -> usize {
        match self.pending {
            Pending::Evict(ev) => ev.item.depth,
            _ => 0,
        }
    }

    /// During a forced close: the bytes read and not yet moved to the backlog.
    pub closed spec fn evicted_unread(&self) -> Seq<u8> {
        match self.pending {
            Pending::Evict(ev) => ev.item.buffer.unread(),
            _ => Seq::empty(),
        }
    }

    /// During a forced close: the entries moved to memory so far, in the order read.
    pub closed spec fn evicted_backlog(&self) -> Seq<(Seq<u8>, Option<FileTypeInner>)> {
        match self.pending {
            Pending::Evict(ev) => ev.backlog@.map_values(|b: Backlog| backlog_view(b)),
            _ => Seq::empty(),
        }
    }

    /// The descriptors the walk holds: those of its open directories, from the root
    /// on, then the one being closed, if any.
    pub closed spec fn held_fds(&self) -> Seq<i32> {
        open_fds(self.stack@) + match self.pending {
            Pending::Evict(ev) => seq![ev.item.fd.0],
            Pending::Release { fd, .. } => seq![fd],
            _ => Seq::empty(),
        }
    }

    /// The path of the directory being opened, while the walk waits for it.
    pub closed spec fn opening(&self) -> Seq<u8> {
        match self.pending {
            Pending::Descend { entry, .. } => entry.full_path(),
            _ => Seq::empty(),
        }
    }

    pub closed spec fn statistics(&self) -> Stats {
        self.stats
    }

    pub closed spec fn opened_count(&self) -> nat {
        self.opened@
    }

    pub closed spec fn closed_count(&self) -> nat {
        self.closed@
    }

    /// The number of directories in progress.
    pub closed spec fn stack_len(&self) -> nat {
        self.stack@.len()
    }

    pub closed spec fn awaits(&self) -> Wait {
        match self.pending {
            Pending::Idle => Wait::Nothing,
            Pending::Fill => Wait::Fill,
            Pending::Stat(_) => Wait::Stat,
            Pending::Descend { .. } => Wait::Open,
            Pending::Evict(ev) => if ev.closing {
                Wait::Close
            } else {
                Wait::Fill
            },
            Pending::Release { .. } => Wait::Close,
        }
    }

    /// The number of bytes that the awaited `getdents64` call may write.
    pub closed spec fn fill_room(&self) -> int {
        match self.pending {
            Pending::Fill => match self.stack@.last() {
                WorkItem::Open(o) => o.buffer.capacity() - o.buffer.fill_at(),
                WorkItem::Closed(_) => 0,
            },
            Pending::Evict(ev) => ev.item.buffer.capacity() - ev.item.buffer.fill_at(),
            _ => 0,
        }
    }

    /// Bookkeeping with `extra` descriptors held outside the stack.
    closed spec fn core_ok(&self, extra: nat) -> bool {
        &&& self.config.max_open >= 1
        &&& forall|i: int| 0 <= i < self.stack@.len() ==> item_wf(#[trigger] self.stack@[i])
        &&& count_open(self.stack@) + extra + self.open_budget == self.config.max_open
        &&& self.opened@ == self.closed@ + count_open(self.stack@) + extra
        &&& forall|i: int|
            0 <= i < self.stack@.len() ==> item_anchored(
                #[trigger] self.stack@[i],
                self.reached@,
                self.root@,
            )
        &&& forall|d: Seq<u8>| #[trigger]
            self.reached@.contains(d) ==> anchored(self.reached@, self.root@, d)
    }

    closed spec fn eviction_ok(&self, ev: Eviction) -> bool {
        &&& ev.at < self.stack@.len()
        &&& !(self.stack@[ev.at as int] is Open)
        &&& ev.item.buffer.wf()
        &&& ev.item.buffer.capacity() == BUFFER_SIZE
        &&& ev.entry.depth < self.config.max_depth
        &&& self.reached@.contains(ev.base@)
        &&& path_of(ev.item.as_parent.path) == ev.base@
        &&& forall|i: int|
            0 <= i < ev.backlog@.len() ==> anchored(
                self.reached@,
                self.root@,
                #[trigger] ev.backlog@[i].file_path@,
            )
        &&& anchored(self.reached@, self.root@, ev.entry.full_path())
        &&& (!ev.closing ==> ev.error is None)
        &&& ev.entry.kind().inner == Some(FileTypeInner::Directory)
    }

    closed spec fn pending_ok(&self) -> bool {
        match self.pending {
            Pending::Fill => self.stack@.len() > 0 && self.stack@.last() is Open,
            Pending::Descend { entry, node } => {
                &&& self.open_budget > 0
                &&& entry.depth < self.config.max_depth
                &&& anchored(self.reached@, self.root@, entry.full_path())
                &&& path_of(node) == entry.full_path()
                &&& entry.kind().inner == Some(FileTypeInner::Directory)
            },
            Pending::Stat(entry) => anchored(self.reached@, self.root@, entry.full_path()),
            Pending::Evict(ev) => self.eviction_ok(ev),
            _ => true,
        }
    }

    /// The walk's invariant.
    pub closed spec fn wf(&self) -> bool {
        &&& self.core_ok(pending_fds(self.pending))
        &&& self.pending_ok()
    }

    /// What the walk waits for.
    pub fn waiting(&self) -> (r: Wait)
        ensures
            r == self.awaits(),
    {
        match &self.pending {
            Pending::Idle => Wait::Nothing,
            Pending::Fill => Wait::Fill,
            Pending::Stat(_) => Wait::Stat,
            Pending::Descend { .. } => Wait::Open,
            Pending::Evict(ev) => if ev.closing {
                Wait::Close
            } else {
                Wait::Fill
            },
            Pending::Release { .. } => Wait::Close,
        }
    }

    /// The system call counters.
    pub fn stats(&self) -> (r: Stats)
        ensures
            r == self.statistics(),
    {
        self.stats
    }
}

impl IntoIter {
    /// Hand the entry on: yield it, unless it lies above the minimum depth.
    fn deliver(&self, entry: DirEntry) -> (r: Step)
        ensures
            entry.level() >= self.config.min_depth ==> r == Step::Yield(entry),
            entry.level() < self.config.min_depth ==> r is Continue,
    {
        if entry.depth >= self.config.min_depth {
            Step::Yield(entry)
        } else {
            Step::Continue
        }
    }

    /// Ask for the directory of `entry` to be opened by its full path.
    fn open_by_path(&mut self, entry: DirEntry) -> (r: Step)
        requires
            old(self).core_ok(0),
            old(self).pending is Idle,
            old(self).open_budget > 0,
            entry.depth < old(self).config.max_depth,
            anchored(old(self).reached@, old(self).root@, entry.full_path()),
            entry.kind().inner == Some(FileTypeInner::Directory),
        ensures
            final(self).wf(),
            final(self).awaits() == awaited(r),
            final(self).statistics() == tally(old(self).statistics(), r),
            final(self).config == old(self).config,
            final(self).closed == old(self).closed,
            !(r is Done),
            r matches Step::Open { path } && path@ == entry.full_path(),
            final(self).reached == old(self).reached,
            final(self).root == old(self).root,
            r matches Step::Yield(e) ==> anchored(final(self).reached@, final(self).root@, e.full_path()),
            final(self).stack == old(self).stack,
            final(self).pending is Descend,
            final(self).pending_entry() == Some((entry.full_path(), entry.kind().inner, entry.level())),
    {
        let path = entry.path();
        let node = EntryPath::Full(path.clone());
        self.stats.nr_open = bump_count(self.stats.nr_open);
        self.pending = Pending::Descend { entry, node };
        Step::Open { path }
    }

    /// Read the rest of the directory being evicted, or close it once all is read.
    fn evict_continue(&mut self, ev: Eviction) -> (r: Step)
        requires
            old(self).core_ok(1),
            old(self).pending is Idle,
            old(self).eviction_ok(ev),
            ev.error is None,
        ensures
            final(self).wf(),
            final(self).awaits() == awaited(r),
            final(self).statistics() == tally(old(self).statistics(), r),
            final(self).config == old(self).config,
            !(r is Done),
            final(self).reached == old(self).reached,
            final(self).root == old(self).root,
            r matches Step::Yield(e) ==> anchored(final(self).reached@, final(self).root@, e.full_path()),
            r is Fill || r is Close,
            r matches Step::Fill { len, .. } ==> final(self).fill_room() == len,
            final(self).evicting(),
            final(self).pending_entry() == Some((ev.entry.full_path(), ev.entry.kind().inner, ev.entry.level())),
            final(self).stack == old(self).stack,
            final(self).evicted_at() == ev.at,
            final(self).evicted_dir() == ev.base@,
            final(self).evicted_fd() == ev.item.fd.0,
            final(self).evicted_depth() == ev.item.depth,
            ({
                let l = live(parse_records(ev.item.buffer.unread()));
                &&& (forall|j: int| 0 <= j < l.len() ==> (#[trigger] l[j]) is Ok) ==> {
                    &&& r matches Step::Fill { fd, .. } && fd == ev.item.fd.0
                    &&& final(self).evicted_backlog() == ev.backlog@.map_values(
                        |b: Backlog| backlog_view(b),
                    ) + l.map_values(|x: Result<Record, DirentErr>| backlog_of(ev.base@, x))
                    &&& final(self).evicted_unread().len() == 0
                }
                &&& !(forall|j: int| 0 <= j < l.len() ==> (#[trigger] l[j]) is Ok) ==> (r is Close
                    && final(self).error_recorded())
            }),
    {
        let mut ev = ev;
        ev.closing = false;
        let ok = drain_into(
            &mut ev.item,
            &ev.base,
            &mut ev.backlog,
            Ghost(self.reached@),
            Ghost(self.root@),
        );
        if !ok {
            let err = Error::new(ev.entry.depth, Some(ev.base.clone()), None);
            ev.closing = true;
            ev.error = Some(err);
            return self.evict_close(ev);
        }
        let fd = ev.item.fd.0;
        let len = ev.item.buffer.spare_len();
        self.stats.nr_getdent = bump_count(self.stats.nr_getdent);
        self.pending = Pending::Evict(ev);
        Step::Fill { fd, len }
    }

    /// Ask for the descriptor of the directory being evicted to be closed.
    fn evict_close(&mut self, ev: Eviction) -> (r: Step)
        requires
            old(self).core_ok(1),
            old(self).pending is Idle,
            old(self).eviction_ok(ev),
        ensures
            final(self).wf(),
            final(self).awaits() == awaited(r),
            final(self).statistics() == tally(old(self).statistics(), r),
            final(self).config == old(self).config,
            !(r is Done),
            r is Close,
            final(self).reached == old(self).reached,
            final(self).root == old(self).root,
            r matches Step::Yield(e) ==> anchored(final(self).reached@, final(self).root@, e.full_path()),
            final(self).evicting(),
            final(self).pending_entry() == Some((ev.entry.full_path(), ev.entry.kind().inner, ev.entry.level())),
            final(self).stack == old(self).stack,
            final(self).evicted_at() == ev.at,
            final(self).evicted_dir() == ev.base@,
            final(self).evicted_fd() == ev.item.fd.0,
            final(self).evicted_depth() == ev.item.depth,
            final(self).error_recorded() == ev.error is Some,
            r matches Step::Close { fd } && fd == ev.item.fd.0,
            final(self).evicted_backlog() == ev.backlog@.map_values(|b: Backlog| backlog_view(b)),
    {
        let mut ev = ev;
        ev.closing = true;
        let fd = ev.item.fd.0;
        self.stats.nr_close = bump_count(self.stats.nr_close);
        self.pending = Pending::Evict(ev);
        Step::Close { fd }
    }

    /// No descriptor is left: close the topmost open directory, keeping its remaining
    /// entries in memory, before `entry` is opened.
    fn begin_evict(&mut self, entry: DirEntry) -> (r: Step)
        requires
            old(self).wf(),
            old(self).pending is Idle,
            old(self).open_budget == 0,
            entry.depth < old(self).config.max_depth,
            anchored(old(self).reached@, old(self).root@, entry.full_path()),
            entry.kind().inner == Some(FileTypeInner::Directory),
        ensures
            final(self).wf(),
            final(self).awaits() == awaited(r),
            final(self).statistics() == tally(old(self).statistics(), r),
            final(self).config == old(self).config,
            !(r is Done),
            final(self).reached == old(self).reached,
            final(self).root == old(self).root,
            r matches Step::Yield(e) ==> anchored(final(self).reached@, final(self).root@, e.full_path()),
            r is Fill || r is Close,
            r matches Step::Fill { len, .. } ==> final(self).fill_room() == len,
            final(self).evicting(),
            final(self).pending_entry() == Some((entry.full_path(), entry.kind().inner, entry.level())),
    {
        let mut i: usize = self.stack.len();
        while i > 0 && !item_is_open(&self.stack[i - 1])
            invariant
                i <= self.stack@.len(),
                forall|j: int| i <= j < self.stack@.len() ==> !(#[trigger] self.stack@[j] is Open),
            decreases i,
        {
            i = i - 1;
        }
        if i == 0 {
            proof {
                lemma_count_none(self.stack@);
            }
            return Step::Continue;
        }
        let at = i - 1;
        let mut taken = WorkItem::Closed(Closed { depth: 0, children: Vec::new() });
        proof {
            lemma_stack_update(self.stack@, at as int, taken);
        }
        assert(item_wf(self.stack@[at as int]));
        std::mem::swap(&mut self.stack[at], &mut taken);
        assert(self.stack@ =~= old(self).stack@.update(at as int, self.stack@[at as int]));
        match taken {
            WorkItem::Open(item) => {
                let base = item.as_parent.make_path();
                let ev = Eviction {
                    at,
                    item,
                    base,
                    backlog: Vec::new(),
                    entry,
                    error: None,
                    closing: false,
                };
                self.evict_continue(ev)
            },
            WorkItem::Closed(_) => Step::Continue,
        }
    }

    /// Descend into the directory `entry`.
    fn descend(&mut self, entry: DirEntry) -> (r: Step)
        requires
            old(self).wf(),
            old(self).pending is Idle,
            entry.depth < old(self).config.max_depth,
            anchored(old(self).reached@, old(self).root@, entry.full_path()),
            entry.kind().inner == Some(FileTypeInner::Directory),
        ensures
            final(self).wf(),
            final(self).awaits() == awaited(r),
            final(self).statistics() == tally(old(self).statistics(), r),
            final(self).config == old(self).config,
            !(r is Done),
            final(self).reached == old(self).reached,
            final(self).root == old(self).root,
            r matches Step::Yield(e) ==> anchored(final(self).reached@, final(self).root@, e.full_path()),
            r matches Step::Yield(e) ==> e.full_path() == entry.full_path(),
            r matches Step::Open { path } ==> path@ == entry.full_path(),
            r matches Step::Stat { path } ==> path@ == entry.full_path(),
            r matches Step::OpenAt { name, .. } ==> name@ == entry.leaf(),
            r is OpenAt || r is Open || r is Fill || r is Close,
            r matches Step::Fill { len, .. } ==> final(self).fill_room() == len,
            !(r is Fill || r is Close) ==> final(self).stack == old(self).stack && !final(self).evicting()
                && final(self).held() == old(self).held(),
            (r is Fill || r is Close) ==> final(self).evicting(),
            (r is Stat || r is OpenAt || r is Open || r is Fill || r is Close) ==> final(self).pending_entry()
                == Some((entry.full_path(), entry.kind().inner, entry.level())),
            r matches Step::OpenAt { dir, name } ==> old(self).stack@.len() > 0 && old(self).is_open_at(
                old(self).stack@.len() - 1,
            ) && dir == old(self).fd_at(old(self).stack@.len() - 1) && name@ == entry.leaf(),
            (old(self).open_budget > 0 ==> (r is OpenAt || r is Open)),
            (old(self).open_budget == 0 ==> (r is Fill || r is Close)),
            entry.parent_path() is None && old(self).open_budget > 0 ==> r is Open,
            entry.parent_path() is Some && old(self).open_budget > 0 && old(self).stack@.len() > 0
                && old(self).is_open_at(old(self).stack@.len() - 1) ==> r is OpenAt,
    {
        if self.open_budget == 0 {
            return self.begin_evict(entry);
        }
        let n = self.stack.len();
        let mut at_dir: Option<(i32, Vec<u8>)> = None;
        if n > 0 {
            match &self.stack[n - 1] {
                WorkItem::Open(open) => match &entry.file_name {
                    EntryPath::Name { name, .. } => {
                        at_dir = Some((open.fd.0, name.clone()));
                    },
                    EntryPath::Full(_) => {},
                },
                WorkItem::Closed(_) => {},
            }
        }
        match at_dir {
            Some((dir, name)) => {
                let node = entry.file_name.share();
                self.stats.nr_openat = bump_count(self.stats.nr_openat);
                self.pending = Pending::Descend { entry, node };
                Step::OpenAt { dir, name }
            },
            None => self.open_by_path(entry),
        }
    }

    /// Descend into `entry` if it is a directory within the depth bound, else hand it
    /// on.
    fn consider(&mut self, entry: DirEntry) -> (r: Step)
        requires
            old(self).wf(),
            old(self).pending is Idle,
            anchored(old(self).reached@, old(self).root@, entry.full_path()),
        ensures
            final(self).wf(),
            final(self).awaits() == awaited(r),
            final(self).statistics() == tally(old(self).statistics(), r),
            final(self).config == old(self).config,
            !(r is Done),
            final(self).reached == old(self).reached,
            final(self).root == old(self).root,
            r matches Step::Yield(e) ==> anchored(final(self).reached@, final(self).root@, e.full_path()),
            entry.kind().inner != Some(FileTypeInner::Directory) ==> (r is Yield || r is Continue),
            r matches Step::Yield(e) ==> e.full_path() == entry.full_path(),
            r matches Step::Open { path } ==> path@ == entry.full_path(),
            r matches Step::Stat { path } ==> path@ == entry.full_path(),
            r matches Step::OpenAt { name, .. } ==> name@ == entry.leaf(),
            entry.kind().inner == Some(FileTypeInner::Directory) && entry.level() < old(self).config.max_depth ==> (r is OpenAt || r is Open || r is Fill || r is Close),
            (entry.kind().inner != Some(FileTypeInner::Directory)
                || entry.level() >= old(self).config.max_depth) ==> if entry.level() >= old(self).config.min_depth {
                r == Step::Yield(entry)
            } else {
                r is Continue
            },
            r matches Step::Fill { len, .. } ==> final(self).fill_room() == len,
            !(r is Fill || r is Close) ==> final(self).stack == old(self).stack && !final(self).evicting()
                && final(self).held() == old(self).held(),
            (r is Fill || r is Close) ==> final(self).evicting(),
            (r is Stat || r is OpenAt || r is Open || r is Fill || r is Close) ==> final(self).pending_entry()
                == Some((entry.full_path(), entry.kind().inner, entry.level())),
            r matches Step::OpenAt { dir, name } ==> old(self).stack@.len() > 0 && old(self).is_open_at(
                old(self).stack@.len() - 1,
            ) && dir == old(self).fd_at(old(self).stack@.len() - 1) && name@ == entry.leaf(),
            entry.kind().inner == Some(FileTypeInner::Directory) && entry.level() < old(self).config.max_depth
                && old(self).open_budget > 0 ==> (r is OpenAt || r is Open),
            entry.kind().inner == Some(FileTypeInner::Directory) && entry.level() < old(self).config.max_depth
                && old(self).open_budget == 0 ==> (r is Fill || r is Close),
            entry.kind().inner == Some(FileTypeInner::Directory) && entry.level() < old(self).config.max_depth
                && entry.parent_path() is None && old(self).open_budget > 0 ==> r is Open,
            entry.kind().inner == Some(FileTypeInner::Directory) && entry.level() < old(self).config.max_depth
                && entry.parent_path() is Some && old(self).open_budget > 0 && old(self).stack@.len() > 0
                && old(self).is_open_at(old(self).stack@.len() - 1) ==> r is OpenAt,
            r matches Step::Yield(e) ==> e.kind() == entry.kind(),
    {
        if entry.file_type.is_dir() && entry.depth < self.config.max_depth {
            self.descend(entry)
        } else {
            self.deliver(entry)
        }
    }

    /// Handle an entry that a directory produced.
    fn process(&mut self, entry: DirEntry) -> (r: Step)
        requires
            old(self).wf(),
            old(self).pending is Idle,
            anchored(old(self).reached@, old(self).root@, entry.full_path()),
        ensures
            final(self).wf(),
            final(self).awaits() == awaited(r),
            final(self).statistics() == tally(old(self).statistics(), r),
            final(self).config == old(self).config,
            !(r is Done),
            final(self).reached == old(self).reached,
            final(self).root == old(self).root,
            r matches Step::Yield(e) ==> anchored(final(self).reached@, final(self).root@, e.full_path()),
            r matches Step::Yield(e) ==> e.full_path() == entry.full_path(),
            r matches Step::Open { path } ==> path@ == entry.full_path(),
            r matches Step::Stat { path } ==> path@ == entry.full_path(),
            r matches Step::OpenAt { name, .. } ==> name@ == entry.leaf(),
            entry.kind().inner is None ==> r is Stat,
            entry.kind().inner == Some(FileTypeInner::Directory) && entry.level() < old(self).config.max_depth ==> (r is OpenAt || r is Open || r is Fill || r is Close),
            entry.kind().inner is Some && (entry.kind().inner != Some(FileTypeInner::Directory)
                || entry.level() >= old(self).config.max_depth) ==> if entry.level() >= old(self).config.min_depth {
                r == Step::Yield(entry)
            } else {
                r is Continue
            },
            r matches Step::Fill { len, .. } ==> final(self).fill_room() == len,
            !(r is Fill || r is Close) ==> final(self).stack == old(self).stack && !final(self).evicting()
                && final(self).held() == old(self).held(),
            (r is Fill || r is Close) ==> final(self).evicting(),
            (r is Stat || r is OpenAt || r is Open || r is Fill || r is Close) ==> final(self).pending_entry()
                == Some((entry.full_path(), entry.kind().inner, entry.level())),
            r matches Step::OpenAt { dir, name } ==> old(self).stack@.len() > 0 && old(self).is_open_at(
                old(self).stack@.len() - 1,
            ) && dir == old(self).fd_at(old(self).stack@.len() - 1) && name@ == entry.leaf(),
            entry.kind().inner == Some(FileTypeInner::Directory) && entry.level() < old(self).config.max_depth
                && old(self).open_budget > 0 ==> (r is OpenAt || r is Open),
            entry.kind().inner == Some(FileTypeInner::Directory) && entry.level() < old(self).config.max_depth
                && old(self).open_budget == 0 ==> (r is Fill || r is Close),
            entry.kind().inner == Some(FileTypeInner::Directory) && entry.level() < old(self).config.max_depth
                && entry.parent_path() is None && old(self).open_budget > 0 ==> r is Open,
            entry.kind().inner == Some(FileTypeInner::Directory) && entry.level() < old(self).config.max_depth
                && entry.parent_path() is Some && old(self).open_budget > 0 && old(self).stack@.len() > 0
                && old(self).is_open_at(old(self).stack@.len() - 1) ==> r is OpenAt,
            r matches Step::Yield(e) ==> e.kind() == entry.kind() && e.kind().inner is Some,
    {
        if entry.file_type.inner.is_none() {
            let path = entry.path();
            self.stats.nr_stat = bump_count(self.stats.nr_stat);
            self.pending = Pending::Stat(entry);
            Step::Stat { path }
        } else {
            self.consider(entry)
        }
    }

    /// Pop the top directory, which is open, and ask for its descriptor to be closed;
    /// with `failed`, an error about it is reported after that.
    fn release_top(&mut self, failed: bool, errno: Option<i32>) -> (r: Step)
        requires
            old(self).core_ok(0),
            old(self).pending is Idle,
            old(self).stack@.len() > 0,
            old(self).stack@.last() is Open,
        ensures
            final(self).wf(),
            final(self).awaits() == awaited(r),
            final(self).statistics() == tally(old(self).statistics(), r),
            final(self).config == old(self).config,
            !(r is Done),
            r is Close,
            final(self).reached == old(self).reached,
            final(self).root == old(self).root,
            r matches Step::Yield(e) ==> anchored(final(self).reached@, final(self).root@, e.full_path()),
            r matches Step::Close { fd } && fd == old(self).fd_at(old(self).stack@.len() - 1),
            final(self).stack@ == old(self).stack@.drop_last(),
            final(self).error_recorded() == failed,
    {
        let item = self.stack.pop();
        proof {
            assert(old(self).stack@ == self.stack@.push(old(self).stack@.last()));
            lemma_count_push(self.stack@, old(self).stack@.last());
        }
        match item {
            Some(WorkItem::Open(open)) => {
                let error = if failed {
                    Some(Error::new(open.depth, Some(open.as_parent.make_path()), errno))
                } else {
                    None
                };
                let fd = open.fd.0;
                self.stats.nr_close = bump_count(self.stats.nr_close);
                self.pending = Pending::Release { fd, depth: open.depth, error };
                Step::Close { fd }
            },
            _ => Step::Close { fd: 0 },
        }
    }
}

/// The backlog entry that a record of the directory `base` becomes.
pub open spec fn backlog_of(base: Seq<u8>, rec: Result<Record, DirentErr>) -> (Seq<u8>, Option<
    FileTypeInner,
>) {
    (join(base, rec->Ok_0.1), crate::kind_of_tag(rec->Ok_0.0 as u8))
}

spec fn backlog_view(b: Backlog) -> (Seq<u8>, Option<FileTypeInner>) {
    (b.file_path@, b.file_type)
}

/// Move the remaining entries of `item` into `backlog`, as full paths below `base`.
/// Returns false if the kernel's records were malformed.
fn drain_into(
    item: &mut Open,
    base: &Vec<u8>,
    backlog: &mut Vec<Backlog>,
    Ghost(reached): Ghost<Set<Seq<u8>>>,
    Ghost(root): Ghost<Seq<u8>>,
) -> (ok: bool)
    requires
        old(item).buffer.wf(),
        reached.contains(base@),
        forall|i: int|
            0 <= i < old(backlog)@.len() ==> anchored(reached, root, #[trigger] old(backlog)@[i].file_path@),
    ensures
        final(item).buffer.wf(),
        final(item).fd == old(item).fd,
        final(item).depth == old(item).depth,
        final(item).as_parent == old(item).as_parent,
        final(item).buffer.capacity() == old(item).buffer.capacity(),
        forall|i: int|
            0 <= i < final(backlog)@.len() ==> anchored(reached, root, #[trigger] final(backlog)@[i].file_path@),
        ok <==> forall|j: int|
            0 <= j < live(parse_records(old(item).buffer.unread())).len() ==> (#[trigger] live(
                parse_records(old(item).buffer.unread()),
            )[j]) is Ok,
        ok ==> final(item).buffer.unread().len() == 0,
        ok ==> final(backlog)@.map_values(|b: Backlog| backlog_view(b)) == old(backlog)@.map_values(
            |b: Backlog| backlog_view(b),
        ) + live(parse_records(old(item).buffer.unread())).map_values(
            |r: Result<Record, DirentErr>| backlog_of(base@, r),
        ),
{
    let ghost l = live(parse_records(item.buffer.unread()));
    let ghost start = backlog@.map_values(|b: Backlog| backlog_view(b));
    let ghost mut k: int = 0;
    loop
        invariant
            0 <= k <= l.len(),
            l == live(parse_records(old(item).buffer.unread())),
            live(parse_records(item.buffer.unread())) == l.skip(k),
            start == old(backlog)@.map_values(|b: Backlog| backlog_view(b)),
            backlog@.map_values(|b: Backlog| backlog_view(b)) == start + l.take(k).map_values(
                |r: Result<Record, DirentErr>| backlog_of(base@, r),
            ),
            forall|j: int| 0 <= j < k ==> (#[trigger] l[j]) is Ok,
            item.buffer.wf(),
            item.fd == old(item).fd,
            item.depth == old(item).depth,
            item.as_parent == old(item).as_parent,
            item.buffer.capacity() == old(item).buffer.capacity(),
            reached.contains(base@),
            forall|i: int|
                0 <= i < backlog@.len() ==> anchored(reached, root, #[trigger] backlog@[i].file_path@),
        decreases item.buffer.unread().len(),
    {
        match item.next_live() {
            None => {
                assert(l.skip(k).len() == 0);
                assert(l.take(k) =~= l);
                return true;
            },
            Some(Err(_)) => {
                assert(l.skip(k)[0] == l[k]);
                return false;
            },
            Some(Ok(entry)) => {
                let kind = entry.file_type();
                let file_path = join_path(base, entry.name.as_slice());
                proof {
                    lemma_below_intro(reached, root, base@, entry.name@);
                    assert(l.skip(k)[0] == l[k]);
                    assert(l.skip(k).drop_first() =~= l.skip(k + 1));
                }
                let ghost prev = backlog@;
                let nb = Backlog { file_path, file_type: kind };
                assert(backlog_view(nb) == backlog_of(base@, l[k]));
                backlog.push(nb);
                proof {
                    assert(backlog@ == prev.push(nb));
                    assert(backlog@.map_values(|b: Backlog| backlog_view(b)) =~= prev.map_values(
                        |b: Backlog| backlog_view(b),
                    ).push(backlog_view(nb)));
                    assert(l.take(k + 1).map_values(|r: Result<Record, DirentErr>| backlog_of(base@, r))
                        =~= l.take(k).map_values(|r: Result<Record, DirentErr>| backlog_of(base@, r)).push(
                        backlog_of(base@, l[k]),
                    ));
                    assert(backlog@.map_values(|b: Backlog| backlog_view(b)) =~= old(backlog)@.map_values(
                        |b: Backlog| backlog_view(b),
                    ) + l.take(k + 1).map_values(|r: Result<Record, DirentErr>| backlog_of(base@, r)));
                    k = k + 1;
                }
            },
        }
    }
}

impl IntoIter {
    /// Go on with the walk when it waits for nothing.
    pub fn advance(&mut self) -> (r: Step)
        requires
            old(self).wf(),
            old(self).awaits() == Wait::Nothing,
        ensures
            final(self).wf(),
            final(self).awaits() == awaited(r),
            final(self).statistics() == tally(old(self).statistics(), r),
            final(self).settings() == old(self).settings(),
            r is Done <==> old(self).stack_len() == 0,
            r is Done ==> final(self).stack_len() == 0,
            final(self).root_path() == old(self).root_path(),
            r matches Step::Yield(e) ==> anchored(final(self).entered(), final(self).root_path(), e.full_path()),
            final(self).entered() == old(self).entered(),
            old(self).next_ready() matches Some((p, k, d)) ==> (k is None ==> (r matches Step::Stat {
                path,
            } && path@ == p)),
            old(self).next_ready() matches Some((p, k, d)) ==> (k is Some && (k != Some(
                FileTypeInner::Directory,
            ) || d >= old(self).settings().max_depth) ==> if d >= old(self).settings().min_depth {
                r matches Step::Yield(e) && e.full_path() == p && e.kind().inner == k && e.level()
                    == d
            } else {
                r is Continue
            }),
            old(self).next_ready() matches Some((p, k, d)) ==> (k == Some(FileTypeInner::Directory)
                && d < old(self).settings().max_depth ==> (r is OpenAt || r is Open || r is Fill
                || r is Close)),
            r matches Step::Open { path } ==> old(self).next_ready() matches Some((p, k, d)) && p
                == path@,
            old(self).next_ready() is None ==> (r is Fill || r is Close || r is Continue
                || r is Done),
            r matches Step::Fill { len, .. } ==> final(self).fill_room() == len,
            r is Done ==> final(self).held() == 0,
            ({
                let n = old(self).stack_len() as int;
                let t = n - 1;
                &&& n > 0 && !old(self).is_open_at(t) && old(self).backlog_at(t).len() == 0 ==> {
                    &&& r is Continue
                    &&& final(self).stack_len() == t
                    &&& final(self).same_below(old(self), t)
                }
                &&& n > 0 && old(self).is_open_at(t) && old(self).live_at(t).len() == 0 ==> {
                    &&& r matches Step::Fill { fd, len } && fd == old(self).fd_at(t) && len == BUFFER_SIZE
                    &&& old(self).capacity_at(t) == BUFFER_SIZE
                    &&& final(self).stack_len() == n
                    &&& final(self).same_below(old(self), t)
                    &&& final(self).is_open_at(t)
                    &&& final(self).fd_at(t) == old(self).fd_at(t)
                    &&& final(self).depth_at(t) == old(self).depth_at(t)
                    &&& final(self).dir_at(t) == old(self).dir_at(t)
                    &&& final(self).unread_at(t).len() == 0
                }
                &&& n > 0 && old(self).is_open_at(t) && old(self).live_at(t).len() > 0 && old(self).live_at(t)[0] is Err ==> {
                    &&& r matches Step::Close { fd } && fd == old(self).fd_at(t)
                    &&& final(self).stack_len() == t
                    &&& final(self).same_below(old(self), t)
                    &&& final(self).error_recorded()
                }
                &&& old(self).next_ready() is Some && !(r is Fill || r is Close) ==> {
                    &&& final(self).stack_len() == n
                    &&& final(self).same_below(old(self), t)
                    &&& old(self).is_open_at(t) ==> {
                        &&& final(self).is_open_at(t)
                        &&& final(self).fd_at(t) == old(self).fd_at(t)
                        &&& final(self).depth_at(t) == old(self).depth_at(t)
                        &&& final(self).dir_at(t) == old(self).dir_at(t)
                        &&& final(self).live_at(t) == old(self).live_at(t).drop_first()
                    }
                    &&& !old(self).is_open_at(t) ==> {
                        &&& !final(self).is_open_at(t)
                        &&& final(self).depth_at(t) == old(self).depth_at(t)
                        &&& final(self).backlog_at(t) == old(self).backlog_at(t).drop_last()
                    }
                }
            }),
            ({
                let t = old(self).stack_len() - 1;
                let (p, k, d) = old(self).next_ready()->Some_0;
                &&& old(self).next_ready() is Some && k == Some(FileTypeInner::Directory) && d < old(self).settings().max_depth ==> {
                    &&& old(self).budget_left() > 0 && old(self).is_open_at(t) ==> (r matches Step::OpenAt {
                        dir,
                        name,
                    } && dir == old(self).fd_at(t) && join(old(self).dir_at(t), name@) == p)
                    &&& old(self).budget_left() > 0 && !old(self).is_open_at(t) ==> (r matches Step::Open {
                        path,
                    } && path@ == p)
                    &&& old(self).budget_left() == 0 ==> ((r is Fill || r is Close) && final(self).evicting())
                    &&& final(self).pending_entry() == Some((p, k, d))
                }
                &&& old(self).next_ready() is Some && k is None ==> final(self).pending_entry() == Some(
                    (p, k, d),
                )
            }),
            r matches Step::Yield(e) ==> e.kind().inner is Some,
    {
        let n = self.stack.len();
        if n == 0 {
            return Step::Done;
        }
        if item_is_open(&self.stack[n - 1]) {
            let got = match &mut self.stack[n - 1] {
                WorkItem::Open(open) => open.ready_entry(),
                WorkItem::Closed(_) => None,
            };
            proof {
                assert(self.stack@ =~= old(self).stack@.update(n - 1, self.stack@[n - 1]));
                lemma_stack_update(old(self).stack@, n - 1, self.stack@[n - 1]);
            }
            match got {
                Some(Ok(entry)) => {
                    proof {
                        lemma_below_intro(self.reached@, self.root@, self.dir_at(n - 1), entry.leaf());
                    }
                    self.process(entry)
                },
                Some(Err(_)) => self.release_top(true, None),
                None => {
                    let (fd, len) = match &self.stack[n - 1] {
                        WorkItem::Open(open) => (open.fd.0, open.buffer.spare_len()),
                        WorkItem::Closed(_) => (0, 0),
                    };
                    self.stats.nr_getdent = bump_count(self.stats.nr_getdent);
                    self.pending = Pending::Fill;
                    Step::Fill { fd, len }
                },
            }
        } else {
            let got = match &mut self.stack[n - 1] {
                WorkItem::Closed(closed) => closed.ready_entry(),
                WorkItem::Open(_) => None,
            };
            proof {
                assert(self.stack@ =~= old(self).stack@.update(n - 1, self.stack@[n - 1]));
                lemma_stack_update(old(self).stack@, n - 1, self.stack@[n - 1]);
            }
            match got {
                Some(entry) => self.process(entry),
                None => {
                    self.stack.pop();
                    Step::Continue
                },
            }
        }
    }

    /// Take in the result of the `getdents64` call that the walk asked for: `ret` is
    /// what the call returned, `errno` the error number it left, `data` the bytes it
    /// wrote.
    pub fn filled(&mut self, ret: i64, errno: i32, data: &[u8]) -> (r: Step)
        requires
            old(self).wf(),
            old(self).awaits() == Wait::Fill,
            ret >= -1,
            ret == -1 ==> errno != EFAULT,
            ret > 0 ==> ret <= old(self).fill_room() && ret <= data@.len(),
        ensures
            final(self).wf(),
            final(self).awaits() == awaited(r),
            final(self).statistics() == tally(old(self).statistics(), r),
            final(self).settings() == old(self).settings(),
            final(self).root_path() == old(self).root_path(),
            r matches Step::Yield(e) ==> anchored(final(self).entered(), final(self).root_path(), e.full_path()),
            final(self).entered() == old(self).entered(),
            !old(self).evicting() && ret > 0 ==> r is Continue,
            !old(self).evicting() && ret <= 0 ==> r is Close,
            old(self).evicting() && ret <= 0 ==> r is Close,
            old(self).evicting() && ret > 0 ==> (r is Fill || r is Close),
            r matches Step::Fill { len, .. } ==> final(self).fill_room() == len,
            !old(self).evicting() && ret > 0 ==> {
                let t = old(self).stack_len() - 1;
                &&& final(self).stack_len() == old(self).stack_len()
                &&& final(self).same_below(old(self), t)
                &&& final(self).is_open_at(t)
                &&& final(self).fd_at(t) == old(self).fd_at(t)
                &&& final(self).depth_at(t) == old(self).depth_at(t)
                &&& final(self).dir_at(t) == old(self).dir_at(t)
                &&& final(self).unread_at(t) == old(self).unread_at(t) + data@.subrange(0, ret as int)
            },
            !old(self).evicting() && ret <= 0 ==> {
                let t = old(self).stack_len() - 1;
                &&& r matches Step::Close { fd } && fd == old(self).fd_at(t)
                &&& final(self).stack_len() == t
                &&& final(self).same_below(old(self), t)
                &&& final(self).error_recorded() == (ret == -1)
                &&& final(self).held() == old(self).held()
            },
            old(self).evicting() ==> {
                &&& final(self).stack_len() == old(self).stack_len()
                &&& final(self).same_below(old(self), old(self).stack_len() as int)
                &&& final(self).evicted_at() == old(self).evicted_at()
                &&& final(self).evicted_dir() == old(self).evicted_dir()
                &&& final(self).evicted_fd() == old(self).evicted_fd()
                &&& final(self).evicted_depth() == old(self).evicted_depth()
                &&& final(self).pending_entry() == old(self).pending_entry()
                &&& final(self).held() == old(self).held()
            },
            old(self).evicting() && ret <= 0 ==> (r matches Step::Close { fd } && fd == old(self).evicted_fd()) && final(self).error_recorded() == (ret == -1)
                && final(self).evicted_backlog() == old(self).evicted_backlog(),
            old(self).evicting() && ret > 0 ==> ({
                let l = live(parse_records(old(self).evicted_unread() + data@.subrange(0, ret as int)));
                &&& (forall|j: int| 0 <= j < l.len() ==> (#[trigger] l[j]) is Ok) ==> {
                    &&& r matches Step::Fill { fd, .. } && fd == old(self).evicted_fd()
                    &&& final(self).evicted_backlog() == old(self).evicted_backlog() + l.map_values(
                        |x: Result<Record, DirentErr>| backlog_of(old(self).evicted_dir(), x),
                    )
                    &&& final(self).evicted_unread().len() == 0
                }
                &&& !(forall|j: int| 0 <= j < l.len() ==> (#[trigger] l[j]) is Ok) ==> (r is Close
                    && final(self).error_recorded())
            }),
    {
        let mut p = Pending::Idle;
        std::mem::swap(&mut self.pending, &mut p);
        match p {
            Pending::Fill => {
                let n = self.stack.len();
                let res = match &mut self.stack[n - 1] {
                    WorkItem::Open(open) => open.buffer.fill_buf(ret, errno, data),
                    WorkItem::Closed(_) => Ok(More::Done),
                };
                proof {
                    assert(self.stack@ =~= old(self).stack@.update(n - 1, self.stack@[n - 1]));
                    lemma_stack_update(old(self).stack@, n - 1, self.stack@[n - 1]);
                }
                match res {
                    Ok(More::More) => Step::Continue,
                    Ok(More::Done) => self.release_top(false, None),
                    Ok(More::Blocked) => self.release_top(true, None),
                    Err(e) => self.release_top(true, Some(e)),
                }
            },
            Pending::Evict(ev) => {
                let mut ev = ev;
                let res = ev.item.buffer.fill_buf(ret, errno, data);
                match res {
                    Ok(More::More) => self.evict_continue(ev),
                    Ok(More::Done) => self.evict_close(ev),
                    Ok(More::Blocked) => {
                        ev.closing = true;
                        ev.error = Some(Error::new(ev.item.depth, Some(ev.base.clone()), None));
                        self.evict_close(ev)
                    },
                    Err(e) => {
                        ev.closing = true;
                        ev.error = Some(Error::from_io(e, ev.item.depth, Some(ev.base.clone())));
                        self.evict_close(ev)
                    },
                }
            },
            _ => Step::Continue,
        }
    }

    /// Take in the result of opening the directory that the walk asked for: its
    /// descriptor, or the error number.
    pub fn opened(&mut self, res: Result<i32, i32>) -> (r: Step)
        requires
            old(self).wf(),
            old(self).awaits() == Wait::Open,
        ensures
            final(self).wf(),
            final(self).awaits() == awaited(r),
            final(self).statistics() == tally(old(self).statistics(), r),
            final(self).settings() == old(self).settings(),
            res is Ok ==> final(self).stack_len() == old(self).stack_len() + 1,
            res is Ok ==> r is Yield || r is Continue,
            res is Err ==> (r matches Step::Fail(e) && e.os_error() == Some(res->Err_0)),
            final(self).root_path() == old(self).root_path(),
            r matches Step::Yield(e) ==> anchored(final(self).entered(), final(self).root_path(), e.full_path()),
            res is Ok ==> final(self).entered() == old(self).entered().insert(old(self).opening()),
            res is Err ==> final(self).entered() == old(self).entered(),
            r matches Step::Yield(e) ==> e.full_path() == old(self).opening(),
            r matches Step::Fill { len, .. } ==> final(self).fill_room() == len,
            old(self).pending_entry() is Some,
            res is Err ==> final(self).stack_len() == old(self).stack_len() && final(self).same_below(
                old(self),
                old(self).stack_len() as int,
            ) && final(self).held() == old(self).held() && final(self).opened_count() == old(self).opened_count(),
            old(self).pending_entry() matches Some((p, k, d)) && res matches Ok(fd) ==> {
                let n = old(self).stack_len() as int;
                &&& final(self).stack_len() == n + 1
                &&& final(self).same_below(old(self), n)
                &&& final(self).is_open_at(n)
                &&& final(self).fd_at(n) == fd
                &&& final(self).depth_at(n) == d + 1
                &&& final(self).dir_at(n) == p
                &&& final(self).unread_at(n).len() == 0
                &&& final(self).capacity_at(n) == BUFFER_SIZE
                &&& final(self).opened_count() == old(self).opened_count() + 1
                &&& final(self).held() == old(self).held() + 1
                &&& (d >= old(self).settings().min_depth ==> (r matches Step::Yield(e)
                    && e.full_path() == p && e.kind().inner == k && e.level() == d))
                &&& (d < old(self).settings().min_depth ==> r is Continue)
            },
            r matches Step::Yield(e) ==> e.kind().inner == Some(FileTypeInner::Directory),
    {
        let mut p = Pending::Idle;
        std::mem::swap(&mut self.pending, &mut p);
        match p {
            Pending::Descend { entry, node } => match res {
                Ok(fd) => {
                    let depth = entry.depth + 1;
                    let open = Open {
                        fd: DirFd(fd),
                        buffer: DirentBuf::with_size(BUFFER_SIZE),
                        depth,
                        as_parent: Arc::new(Node { depth, path: node }),
                    };
                    let ghost x = entry.full_path();
                    let ghost reached = self.reached@;
                    let ghost root = self.root@;
                    proof {
                        lemma_stack_push(self.stack@, WorkItem::Open(open));
                        assert forall|i: int| 0 <= i < self.stack@.len() implies item_anchored(
                            #[trigger] self.stack@[i],
                            reached.insert(x),
                            root,
                        ) by {
                            lemma_item_anchored_grows(self.stack@[i], reached, root, x);
                        }
                        assert forall|d: Seq<u8>| #[trigger]
                            reached.insert(x).contains(d) implies anchored(
                            reached.insert(x),
                            root,
                            d,
                        ) by {
                            lemma_anchored_grows(reached, root, d, x);
                        }
                    }
                    self.reached = Ghost(reached.insert(x));
                    self.stack.push(WorkItem::Open(open));
                    self.open_budget = self.open_budget - 1;
                    self.opened = Ghost(self.opened@ + 1);
                    assert forall|j: int| 0 <= j < self.stack@.len() implies item_anchored(
                        #[trigger] self.stack@[j],
                        self.reached@,
                        self.root@,
                    ) by {
                        if j < old(self).stack@.len() {
                            assert(self.stack@[j] == old(self).stack@[j]);
                        }
                    }
                    self.deliver(entry)
                },
                Err(e) => {
                    let depth = entry.depth;
                    let path = entry.path();
                    Step::Fail(Error::from_io(e, depth, Some(path)))
                },
            },
            _ => Step::Continue,
        }
    }

    /// Take in the result of closing the descriptor that the walk asked to close.
    pub fn closed(&mut self, res: Result<(), i32>) -> (r: Step)
        requires
            old(self).wf(),
            old(self).awaits() == Wait::Close,
        ensures
            final(self).wf(),
            final(self).awaits() == awaited(r),
            final(self).statistics() == tally(old(self).statistics(), r),
            final(self).settings() == old(self).settings(),
            final(self).closed_count() == old(self).closed_count() + 1,
            final(self).root_path() == old(self).root_path(),
            r matches Step::Yield(e) ==> anchored(final(self).entered(), final(self).root_path(), e.full_path()),
            final(self).entered() == old(self).entered(),
            !old(self).evicting() ==> (r is Continue || r is Fail),
            res is Err ==> r is Fail,
            old(self).evicting() && res is Ok ==> (r is Open || r is Fail),
            r matches Step::Fill { len, .. } ==> final(self).fill_room() == len,
            final(self).stack_len() == old(self).stack_len(),
            final(self).held() + 1 == old(self).held(),
            !old(self).evicting() ==> final(self).same_below(old(self), old(self).stack_len() as int),
            !old(self).evicting() ==> ((r is Fail) <==> (old(self).error_recorded() || res is Err)),
            old(self).evicting() ==> {
                let at = old(self).evicted_at();
                &&& 0 <= at < old(self).stack_len()
                &&& forall|i: int|
                    0 <= i < old(self).stack_len() && i != at ==> #[trigger] final(self).same_at(
                        old(self),
                        i,
                    )
                &&& !final(self).is_open_at(at)
                &&& final(self).backlog_at(at) == old(self).evicted_backlog()
                &&& final(self).depth_at(at) == old(self).evicted_depth()
            },
            old(self).evicting() && (old(self).error_recorded() || res is Err) ==> r is Fail,
            old(self).evicting() && !old(self).error_recorded() && res is Ok ==> (r matches Step::Open {
                path,
            } && old(self).pending_entry() matches Some((p, k, d)) && path@ == p),
            old(self).evicting() && !old(self).error_recorded() && res is Ok ==> final(self).pending_entry() == old(self).pending_entry(),
    {
        let mut p = Pending::Idle;
        std::mem::swap(&mut self.pending, &mut p);
        match p {
            Pending::Release { fd, depth, error } => {
                self.open_budget = self.open_budget + 1;
                self.closed = Ghost(self.closed@ + 1);
                match error {
                    Some(err) => Step::Fail(err),
                    None => match res {
                        Ok(()) => Step::Continue,
                        Err(e) => Step::Fail(Error::from_io(e, depth, None)),
                    },
                }
            },
            Pending::Evict(ev) => {
                let Eviction { at, item, base, backlog, entry, error, closing } = ev;
                let depth = item.depth;
                let closed = WorkItem::Closed(Closed { depth, children: backlog });
                proof {
                    lemma_stack_update(self.stack@, at as int, closed);
                }
                self.stack.set(at, closed);
                self.open_budget = self.open_budget + 1;
                self.closed = Ghost(self.closed@ + 1);
                match error {
                    Some(err) => Step::Fail(err),
                    None => match res {
                        Ok(()) => self.open_by_path(entry),
                        Err(e) => Step::Fail(Error::from_io(e, depth, Some(base))),
                    },
                }
            },
            _ => {
                proof {
                    assert(false);
                }
                Step::Continue
            },
        }
    }

    /// Take in the kind of the entry that the walk asked about, or the error number.
    pub fn stat_done(&mut self, res: Result<Option<FileTypeInner>, i32>) -> (r: Step)
        requires
            old(self).wf(),
            old(self).awaits() == Wait::Stat,
        ensures
            final(self).wf(),
            final(self).awaits() == awaited(r),
            final(self).statistics() == tally(old(self).statistics(), r),
            final(self).settings() == old(self).settings(),
            res is Err ==> (r matches Step::Fail(e) && e.os_error() == Some(res->Err_0)),
            final(self).root_path() == old(self).root_path(),
            r matches Step::Yield(e) ==> anchored(final(self).entered(), final(self).root_path(), e.full_path()),
            final(self).entered() == old(self).entered(),
            res matches Ok(k) && k != Some(FileTypeInner::Directory) ==> (r is Yield || r is Continue),
            r matches Step::Fill { len, .. } ==> final(self).fill_room() == len,
            old(self).pending_entry() is Some,
            res is Err ==> final(self).stack_len() == old(self).stack_len() && final(self).same_below(
                old(self),
                old(self).stack_len() as int,
            ) && final(self).held() == old(self).held(),
            ({
                let (p, k0, d) = old(self).pending_entry()->Some_0;
                let k = res->Ok_0;
                res is Ok && (k != Some(FileTypeInner::Directory) || d >= old(self).settings().max_depth)
                    ==> {
                &&& final(self).stack_len() == old(self).stack_len()
                &&& final(self).same_below(old(self), old(self).stack_len() as int)
                &&& final(self).held() == old(self).held()
                &&& (d >= old(self).settings().min_depth ==> (r matches Step::Yield(e)
                    && e.full_path() == p && e.kind().inner == k && e.level() == d))
                &&& (d < old(self).settings().min_depth ==> r is Continue)
                }
            }),
            ({
                let (p, k0, d) = old(self).pending_entry()->Some_0;
                let k = res->Ok_0;
                res is Ok && k == Some(FileTypeInner::Directory) && d < old(self).settings().max_depth ==> {
                &&& final(self).pending_entry() == Some((p, k, d))
                &&& (old(self).budget_left() > 0 ==> (r is OpenAt || r is Open))
                &&& (old(self).budget_left() == 0 ==> ((r is Fill || r is Close) && final(self).evicting()))
                &&& (r matches Step::Open { path } ==> path@ == p)
                &&& (r matches Step::OpenAt { dir, .. } ==> old(self).stack_len() > 0 && old(self).is_open_at(
                    old(self).stack_len() - 1,
                ) && dir == old(self).fd_at(old(self).stack_len() - 1))
                }
            }),
            res is Ok && r is Yield ==> r->Yield_0.kind().inner == res->Ok_0,
    {
        let mut p = Pending::Idle;
        std::mem::swap(&mut self.pending, &mut p);
        match p {
            Pending::Stat(entry) => match res {
                Ok(kind) => {
                    let mut entry = entry;
                    entry.file_type.inner = kind;
                    self.consider(entry)
                },
                Err(e) => {
                    let depth = entry.depth;
                    let path = entry.path();
                    Step::Fail(Error::from_io(e, depth, Some(path)))
                },
            },
            _ => Step::Continue,
        }
    }

    /// The descriptors that the walk holds; they are to be closed when it is dropped.
    pub fn descriptors(&self) -> (r: Vec<i32>)
        requires
            self.wf(),
        ensures
            r@ == self.held_fds(),
            r@.len() == self.held(),
    {
        let mut r: Vec<i32> = Vec::new();
        let mut i: usize = 0;
        while i < self.stack.len()
            invariant
                i <= self.stack@.len(),
                r@ == open_fds(self.stack@.subrange(0, i as int)),
            decreases self.stack@.len() - i,
        {
            proof {
                assert(self.stack@.subrange(0, i + 1).drop_last() =~= self.stack@.subrange(0, i as int));
            }
            match &self.stack[i] {
                WorkItem::Open(open) => r.push(open.fd.0),
                WorkItem::Closed(_) => {},
            }
            i = i + 1;
        }
        assert(self.stack@.subrange(0, self.stack@.len() as int) =~= self.stack@);
        proof {
            lemma_open_fds_len(self.stack@);
        }
        match &self.pending {
            Pending::Evict(ev) => r.push(ev.item.fd.0),
            Pending::Release { fd, .. } => r.push(*fd),
            _ => {},
        }
        assert(r@ =~= self.held_fds());
        r
    }
}

/// The path of an entry, built on request (`path`) or when it is turned into its path
/// (`into_path`), is the walk up its parent chain: its name joined to the path of its
/// parent directory.
pub proof fn lemma_path_chain(e: &DirEntry)
    ensures
        e.parent_path() matches Some(pp) ==> e.full_path() == join(pp, e.leaf()),
{
}

/// A walk that has ended (its stack is empty and it waits for nothing) holds no
/// descriptor, and has closed every descriptor it opened.
pub proof fn lemma_finished_walk(it: &IntoIter)
    requires
        it.wf(),
        it.stack_len() == 0,
        it.awaits() == Wait::Nothing,
    ensures
        it.held() == 0,
        it.held_fds().len() == 0,
        it.opened_count() == it.closed_count(),
{
}

/// Every open directory reads its records into a buffer of `BUFFER_SIZE` bytes.
pub proof fn lemma_buffers_sized(it: &IntoIter)
    requires
        it.wf(),
    ensures
        forall|i: int|
            0 <= i < it.stack_len() && #[trigger] it.is_open_at(i) ==> it.capacity_at(i) == BUFFER_SIZE,
{
    assert forall|i: int| 0 <= i < it.stack_len() && #[trigger] it.is_open_at(i) implies it.capacity_at(i)
        == BUFFER_SIZE by {
        assert(item_wf(it.stack@[i]));
    }
}

/// The walk never holds more descriptors than its budget, the one being opened
/// included.
pub proof fn lemma_descriptor_budget(it: &IntoIter)
    requires
        it.wf(),
    ensures
        it.held() + it.in_flight() <= it.settings().max_open,
{
}

/// Every directory the walk has entered is its root or lies directly inside another
/// entered directory. A directory is entered only in `opened`, which in the same step
/// yields its entry, or skips it when it lies above the minimum depth; so every
/// ancestor of an entry is yielded (or skipped) before the entry itself.
pub proof fn lemma_entered_chain(it: &IntoIter)
    requires
        it.wf(),
    ensures
        forall|d: Seq<u8>| #[trigger]
            it.entered().contains(d) ==> anchored(it.entered(), it.root_path(), d),
{
}

/// Every descriptor that was opened has been closed or is still held; closing those
/// that `descriptors` lists leaves none open.
pub proof fn lemma_no_leak(it: &IntoIter)
    requires
        it.wf(),
    ensures
        it.opened_count() == it.closed_count() + it.held(),
{
}

impl WalkDir {
    /// The first work item: a closed directory whose single entry is the root, of a
    /// kind not known yet.
    fn initial_closed(&mut self) -> (r: Closed)
        ensures
            r.depth == 0,
            r.children@.len() == 1,
            r.children@[0].file_path@ == old(self).path@,
            r.children@[0].file_type is None,
            final(self).config == old(self).config,
    {
        let mut path: Vec<u8> = Vec::new();
        std::mem::swap(&mut self.path, &mut path);
        let backlog = Backlog { file_path: path, file_type: None };
        Closed { depth: 0, children: vec![backlog] }
    }

    /// Start the walk.
    pub fn build(self) -> (r: IntoIter)
        requires
            self.settings().consistent(),
        ensures
            r.wf(),
            r.awaits() == Wait::Nothing,
            r.statistics() == no_calls(),
            r.settings() == self.settings(),
            r.held() == 0,
            r.opened_count() == 0,
            r.closed_count() == 0,
            r.stack_len() == 1,
            r.root_path() == self.root(),
            r.next_ready() == Some((self.root(), None::<FileTypeInner>, 0usize)),
            r.entered() == Set::<Seq<u8>>::empty(),
            r.budget_left() == self.settings().max_open,
            !r.is_open_at(0),
            r.depth_at(0) == 0,
            r.backlog_at(0) == seq![(self.root(), None::<FileTypeInner>)],
    {
        let mut w = self;
        let first_item = w.initial_closed();
        let r = IntoIter {
            config: w.config,
            stack: vec![WorkItem::Closed(first_item)],
            open_budget: w.config.max_open,
            stats: Stats { nr_close: 0, nr_getdent: 0, nr_open: 0, nr_openat: 0, nr_stat: 0 },
            pending: Pending::Idle,
            opened: Ghost(0),
            closed: Ghost(0),
            reached: Ghost(Set::empty()),
            root: Ghost(first_item.children@[0].file_path@),
        };
        proof {
            assert(r.stack@ =~= Seq::<WorkItem>::empty().push(r.stack@[0]));
            lemma_count_push(Seq::<WorkItem>::empty(), r.stack@[0]);
        }
        r
    }

    /// Start the walk.
    pub fn into_iter(self) -> (r: IntoIter)
        requires
            self.settings().consistent(),
        ensures
            r.wf(),
            r.awaits() == Wait::Nothing,
            r.statistics() == no_calls(),
            r.settings() == self.settings(),
            r.held() == 0,
            r.stack_len() == 1,
            r.root_path() == self.root(),
            r.next_ready() == Some((self.root(), None::<FileTypeInner>, 0usize)),
            r.entered() == Set::<Seq<u8>>::empty(),
            r.budget_left() == self.settings().max_open,
            !r.is_open_at(0),
            r.depth_at(0) == 0,
            r.backlog_at(0) == seq![(self.root(), None::<FileTypeInner>)],
    {
        self.build()
    }
}

} // verus!
