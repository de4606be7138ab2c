//! The buffer that `getdents64` fills, and the parser of the records in it.
use vstd::prelude::*;
use vstd::slice::slice_subrange;

verus! {

/// Bytes before the name in a record: inode (8), seek offset (8), record length (2)
/// and type tag (1).
pub const HEADER_LEN: usize = 19;

/// Offset of the two bytes of the record length.
pub const RECLEN_AT: usize = 16;

/// Offset of the type tag.
pub const TYPE_AT: usize = 18;

/// The error number with which the kernel says that the buffer cannot hold one record.
pub const EINVAL: i32 = 22;

/// The error number with which the kernel says that the buffer lies outside the process.
pub const EFAULT: i32 = 14;

/// The `u16` stored in the two bytes `b`, in the byte order of the target.
pub uninterp spec fn host_u16(b: Seq<u8>) -> u16;

/// Relies on bytemuck::pod_read_unaligned: it reads a `u16` out of two bytes at any
/// alignment, in the byte order of the target.
#[verifier::external_body]
fn read_u16(bytes: [u8; 2]) -> (r: u16)
    ensures
        r == host_u16(bytes@),
{
    bytemuck::pod_read_unaligned::<u16>(&bytes)
}

/// A consistency error of the result buffer.
#[derive(Clone, Copy, Debug, PartialEq, Eq, Structural)]
pub enum DirentErr {
    /// Fewer bytes are left than a record header takes.
    TooShort,
    /// The record length or the name of a record does not fit the bytes; the walk
    /// also reports a name that cannot name an entry (empty, or holding `/`) so.
    InvalidLength,
}

/// What a refill reported.
#[derive(Clone, Copy, Debug, PartialEq, Eq, Structural)]
pub enum More {
    /// New records were appended.
    More,
    /// The free space is too small for the next record: drain first.
    Blocked,
    /// The directory has no more records.
    Done,
}

/// One record of the buffer: its type tag and its name (without the terminating zero).
#[derive(Debug)]
pub struct Entry {
    pub d_type: i8,
    pub name: Vec<u8>,
}

/// The abstract value of a record: type tag and name bytes.
pub type Record = (i8, Seq<u8>);

impl Entry {
    pub open spec fn view(&self) -> Record {
        (self.d_type, self.name@)
    }

    /// The name of the entry, as the kernel wrote it.
    pub fn path(&self) -> (r: &[u8])
        ensures
            r@ == self.name@,
    {
        self.name.as_slice()
    }

    /// The kind that the record's type tag gives, if the tag is a known one.
    pub fn file_type(&self) -> (r: Option<crate::UnixFileType>)
        ensures
            r == crate::kind_of_tag(self.d_type as u8),
    {
        crate::UnixFileType::new(self.d_type)
    }
}

/// The record length stored in the header that starts `b`.
pub open spec fn reclen_of(b: Seq<u8>) -> int {
    host_u16(b.subrange(RECLEN_AT as int, RECLEN_AT + 2)) as int
}

/// `k` is the position of the first zero byte of `s`.
pub open spec fn is_first_nul(s: Seq<u8>, k: int) -> bool {
    &&& 0 <= k < s.len()
    &&& s[k] == 0
    &&& forall|j: int| 0 <= j < k ==> s[j] != 0
}

/// The position of the first zero byte of `s`, if it holds one.
pub open spec fn first_nul(s: Seq<u8>) -> Option<int> {
    if exists|k: int| is_first_nul(s, k) {
        Some(choose|k: int| is_first_nul(s, k))
    } else {
        None
    }
}

/// The record at the start of `b`, with its length, or why there is none.
pub open spec fn parse_head(b: Seq<u8>) -> Result<(Record, int), DirentErr> {
    if b.len() < HEADER_LEN {
        Err(DirentErr::TooShort)
    } else {
        parse_with_len(b, reclen_of(b))
    }
}

/// The record at the start of `b`, taking its record length to be `n`, with that
/// length, or why there is none.
pub open spec fn parse_with_len(b: Seq<u8>, n: int) -> Result<(Record, int), DirentErr> {
    if b.len() < HEADER_LEN {
        Err(DirentErr::TooShort)
    } else {
        if n > b.len() || n < HEADER_LEN {
            Err(DirentErr::InvalidLength)
        } else {
            match first_nul(b.subrange(HEADER_LEN as int, n)) {
                None => Err(DirentErr::InvalidLength),
                Some(k) => Ok(
                    ((b[TYPE_AT as int] as i8, b.subrange(HEADER_LEN as int, HEADER_LEN + k)), n),
                ),
            }
        }
    }
}

/// What is left of `b` after its first record is taken: nothing where that record is
/// malformed.
pub open spec fn after_head(b: Seq<u8>) -> Seq<u8> {
    match parse_head(b) {
        Ok((_, n)) => b.subrange(n, b.len() as int),
        Err(_) => Seq::empty(),
    }
}

/// The records that `b` holds, in order; a malformed record ends the sequence with its
/// error.
pub open spec fn parse_records(b: Seq<u8>) -> Seq<Result<Record, DirentErr>>
    decreases b.len(),
{
    if b.len() == 0 {
        Seq::empty()
    } else {
        match parse_head(b) {
            Ok((rec, n)) => seq![Ok(rec)] + parse_records(b.subrange(n, b.len() as int)),
            Err(e) => seq![Err(e)],
        }
    }
}

/// The abstract value of a parse result.
pub open spec fn result_view(r: Result<Entry, DirentErr>) -> Result<Record, DirentErr> {
    match r {
        Ok(e) => Ok(e@),
        Err(e) => Err(e),
    }
}

/// Copy `s[lo..hi]` into a new vector.
fn copy_range(s: &[u8], lo: usize, hi: usize) -> (r: Vec<u8>)
    requires
        lo <= hi <= s@.len(),
    ensures
        r@ == s@.subrange(lo as int, hi as int),
{
    let mut r: Vec<u8> = Vec::with_capacity(hi - lo);
    let mut i: usize = lo;
    while i < hi
        invariant
            lo <= i <= hi <= s@.len(),
            r@ == s@.subrange(lo as int, i as int),
        decreases hi - i,
    {
        r.push(s[i]);
        i = i + 1;
        assert(r@ =~= s@.subrange(lo as int, i as int));
    }
    r
}

/// Parse the record that starts `b`; on success also give its length.
fn parse_first(b: &[u8]) -> (r: Result<(Entry, usize), DirentErr>)
    ensures
        match (r, parse_head(b@)) {
            (Ok((e, n)), Ok((rec, m))) => e@ == rec && n == m,
            (Err(x), Err(y)) => x == y,
            _ => false,
        },
{
    if b.len() < HEADER_LEN {
        return Err(DirentErr::TooShort);
    }
    let raw = read_u16([b[RECLEN_AT], b[RECLEN_AT + 1]]);
    assert([b@[RECLEN_AT as int], b@[RECLEN_AT + 1]]@ =~= b@.subrange(RECLEN_AT as int, RECLEN_AT + 2));
    parse_record(b, raw)
}

/// Parse the record that starts `b`, whose header gives `reclen` as its length; on
/// success also give that length.
pub fn parse_record(b: &[u8], reclen: u16) -> (r: Result<(Entry, usize), DirentErr>)
    ensures
        match (r, parse_with_len(b@, reclen as int)) {
            (Ok((e, n)), Ok((rec, m))) => e@ == rec && n == m,
            (Err(x), Err(y)) => x == y,
            _ => false,
        },
{
    let len = b.len();
    if len < HEADER_LEN {
        return Err(DirentErr::TooShort);
    }
    let n = reclen as usize;
    if n > len || n < HEADER_LEN {
        return Err(DirentErr::InvalidLength);
    }
    let ghost tail = b@.subrange(HEADER_LEN as int, n as int);
    let mut k: usize = HEADER_LEN;
    while k < n && b[k] != 0
        invariant
            HEADER_LEN <= k <= n <= b@.len(),
            tail == b@.subrange(HEADER_LEN as int, n as int),
            forall|j: int| 0 <= j < k - HEADER_LEN ==> tail[j] != 0,
        decreases n - k,
    {
        k = k + 1;
    }
    if k == n {
        assert(!exists|q: int| is_first_nul(tail, q));
        return Err(DirentErr::InvalidLength);
    }
    let c = k - HEADER_LEN;
    assert(is_first_nul(tail, c as int));
    assert forall|q: int| is_first_nul(tail, q) implies q == c by {
        if q < c {
            assert(tail[q] != 0);
        } else if q > c {
            assert(tail[c as int] != 0);
        }
    }
    let name = copy_range(b, HEADER_LEN, k);
    assert(name@ =~= b@.subrange(HEADER_LEN as int, HEADER_LEN + c));
    Ok((Entry { d_type: b[TYPE_AT] as i8, name }, n))
}

/// Iterates over the records of a byte slice without consuming them from a buffer.
pub struct Entries<'a> {
    pub remaining: &'a [u8],
}

impl<'a> Entries<'a> {
    /// The next record; a malformed one is reported once, and ends the iteration.
    pub fn next(&mut self) -> (r: Option<Result<Entry, DirentErr>>)
        ensures
            old(self).remaining@.len() == 0 ==> r is None && final(self).remaining@ == old(self).remaining@,
            old(self).remaining@.len() > 0 ==> r is Some && result_view(r->0) == parse_records(
                old(self).remaining@,
            )[0] && final(self).remaining@ == after_head(old(self).remaining@),
    {
        let b = self.remaining;
        if b.len() == 0 {
            return None;
        }
        match parse_first(b) {
            Ok((entry, n)) => {
                self.remaining = slice_subrange(b, n, b.len());
                Some(Ok(entry))
            },
            Err(err) => {
                self.remaining = slice_subrange(b, 0, 0);
                assert(self.remaining@ =~= Seq::<u8>::empty());
                Some(Err(err))
            },
        }
    }
}

/// A buffer for collecting results of `getdents`.
pub struct DirentBuf {
    inner: Vec<u8>,
    /// The index of the first unread byte.
    start: usize,
    /// The index of the first free byte.
    last: usize,
}

impl DirentBuf {
    /// The cursors lie within the buffer, whose size the kernel call can take.
    pub closed spec fn wf(&self) -> bool {
        &&& self.start <= self.last <= self.inner@.len()
        &&& self.inner@.len() <= u32::MAX
    }

    /// The bytes written by the kernel and not consumed yet.
    pub closed spec fn unread(&self) -> Seq<u8> {
        self.inner@.subrange(self.start as int, self.last as int)
    }

    /// The fixed size of the buffer.
    pub closed spec fn capacity(&self) -> nat {
        self.inner@.len()
    }

    /// Where the next refill writes: the start of the buffer once everything was read.
    pub closed spec fn fill_at(&self) -> nat {
        if self.start == self.last {
            0
        } else {
            self.last as nat
        }
    }

    /// A buffer of `length` bytes, empty of records.
    pub fn with_size(length: usize) -> (r: Self)
        requires
            length <= u32::MAX,
        ensures
            r.wf(),
            r.capacity() == length,
            r.unread() == Seq::<u8>::empty(),
    {
        let r = DirentBuf { inner: vec![0u8; length], start: 0, last: 0 };
        assert(r.unread() =~= Seq::<u8>::empty());
        r
    }

    /// Iterate over the unread records without consuming them.
    pub fn iter(&self) -> (r: Entries<'_>)
        requires
            self.wf(),
        ensures
            r.remaining@ == self.unread(),
    {
        Entries { remaining: slice_subrange(self.inner.as_slice(), self.start, self.last) }
    }

    /// Iterate over the unread records, consuming each one that is handed out.
    pub fn drain(&mut self) -> (r: Drain<'_>)
        ensures
            *r.buf == *old(self),
            *final(self) == *final(r.buf),
    {
        Drain { buf: self }
    }

    /// Take the first unread record out of the buffer. A malformed record consumes all
    /// that is left.
    pub fn pop_entry(&mut self) -> (r: Option<Result<Entry, DirentErr>>)
        requires
            old(self).wf(),
        ensures
            final(self).wf(),
            final(self).capacity() == old(self).capacity(),
            old(self).unread().len() == 0 ==> r is None && final(self).unread() == old(self).unread(),
            old(self).unread().len() > 0 ==> r is Some && result_view(r->0) == parse_records(
                old(self).unread(),
            )[0] && final(self).unread() == after_head(old(self).unread()),
    {
        let mut entries = self.iter();
        let r = entries.next();
        let rest_len = entries.remaining.len();
        let ghost rest = entries.remaining@;
        match &r {
            Some(Ok(_)) => {
                let ghost u = self.unread();
                proof {
                    let (rec, m) = parse_head(u)->Ok_0;
                    assert(rest == u.subrange(m, u.len() as int));
                }
                self.start = self.last - rest_len;
                assert(self.unread() =~= rest);
            },
            Some(Err(_)) => {
                self.start = self.last;
                assert(self.unread() =~= Seq::<u8>::empty());
            },
            None => {},
        }
        r
    }

    /// Drop every unread record.
    pub fn discard(&mut self)
        requires
            old(self).wf(),
        ensures
            final(self).wf(),
            final(self).capacity() == old(self).capacity(),
            final(self).unread().len() == 0,
    {
        self.start = self.last;
    }

    /// How many bytes the next refill may write.
    pub fn spare_len(&self) -> (r: usize)
        requires
            self.wf(),
        ensures
            r == self.capacity() - self.fill_at(),
            self.unread().len() == 0 ==> r == self.capacity(),
    {
        if self.start == self.last {
            self.inner.len()
        } else {
            self.inner.len() - self.last
        }
    }

    /// Take in the result of a `getdents64` call made on the free space: `ret` is what
    /// the call returned, `errno` the error number it left, and `data` holds the bytes
    /// it wrote there.
    pub fn fill_buf(&mut self, ret: i64, errno: i32, data: &[u8]) -> (r: Result<More, i32>)
        requires
            old(self).wf(),
            ret >= -1,
            ret == -1 ==> errno != EFAULT,
            ret > 0 ==> ret <= old(self).capacity() - old(self).fill_at() && ret <= data@.len(),
        ensures
            final(self).wf(),
            final(self).capacity() == old(self).capacity(),
            ret <= 0 ==> final(self).unread() == old(self).unread(),
            ret == 0 ==> r == Ok::<More, i32>(More::Done),
            ret == -1 && errno == EINVAL ==> r == Ok::<More, i32>(More::Blocked),
            ret == -1 && errno != EINVAL ==> r == Err::<More, i32>(errno),
            ret > 0 ==> r == Ok::<More, i32>(More::More),
            ret > 0 ==> final(self).unread() == old(self).unread() + data@.subrange(0, ret as int),
    {
        if self.start == self.last {
            self.start = 0;
            self.last = 0;
            assert(self.unread() =~= old(self).unread());
        }
        if ret == 0 {
            Ok(More::Done)
        } else if ret == -1 {
            if errno == EINVAL {
                Ok(More::Blocked)
            } else {
                Err(errno)
            }
        } else {
            let n = ret as usize;
            let ghost before = self.inner@;
            let ghost s0 = self.start;
            let ghost l0 = self.last;
            assert(before.subrange(s0 as int, l0 as int) == old(self).unread());
            let mut i: usize = 0;
            while i < n
                invariant
                    self.start == s0,
                    self.last == l0,
                    self.start <= self.last,
                    self.last + n <= self.inner@.len(),
                    n <= data@.len(),
                    i <= n,
                    self.inner@.len() == before.len(),
                    before.len() <= u32::MAX,
                    forall|j: int|
                        0 <= j < self.last + i ==> #[trigger] self.inner@[j] == if j < self.last {
                            before[j]
                        } else {
                            data@[j - self.last]
                        },
                decreases n - i,
            {
                self.inner.set(self.last + i, data[i]);
                i = i + 1;
            }
            self.last = self.last + n;
            assert(self.unread() =~= old(self).unread() + data@.subrange(0, ret as int));
            Ok(More::More)
        }
    }
}

/// Iterates like `Entries` but consumes from the buffer each record it hands out.
pub struct Drain<'a> {
    pub buf: &'a mut DirentBuf,
}

impl<'a> Drain<'a> {
    /// The next record, taken out of the buffer.
    pub fn next(&mut self) -> (r: Option<Result<Entry, DirentErr>>)
        requires
            old(self).buf.wf(),
        ensures
            final(self).buf.wf(),
            old(self).buf.unread().len() == 0 ==> r is None,
            old(self).buf.unread().len() > 0 ==> r is Some && result_view(r->0)
                == parse_records(old(self).buf.unread())[0],
            final(self).buf.unread() == if old(self).buf.unread().len() == 0 {
                old(self).buf.unread()
            } else {
                after_head(old(self).buf.unread())
            },
    {
        self.buf.pop_entry()
    }
}

} // verus!
