//! Paged byte storage for one data file: a two-level (direct plus
//! single-indirect) page map with on-demand allocation, a logical size, and
//! wall-clock timestamps.
use vstd::prelude::*;

use crate::error::FsError;

verus! {

/// A page is exactly this many bytes; the unit of allocation.
pub const PAGE_SIZE: usize = 4096;

/// Number of direct slots, of indirect slots, and of pages per indirect block.
pub const LIST_SIZE: usize = 256;

/// Highest addressable page count: direct slots plus indirect capacity.
pub const MAX_PAGES: usize = LIST_SIZE + LIST_SIZE * LIST_SIZE;

/// Maximum byte size of a single file.
pub const MAX_FILE_SIZE: usize = MAX_PAGES * PAGE_SIZE;

/// A wall-clock instant with second and nanosecond resolution.
#[derive(Clone, Copy, Debug, PartialEq, Eq, Structural)]
pub struct Timespec {
    pub sec: i64,
    pub nsec: i32,
}

/// `a` is no later than `b`.
pub open spec fn ts_le(a: Timespec, b: Timespec) -> bool {
    a.sec < b.sec || (a.sec == b.sec && a.nsec <= b.nsec)
}

/// The nanosecond part names a fraction of one second.
pub open spec fn ts_wf(t: Timespec) -> bool {
    0 <= t.nsec < 1_000_000_000
}

/// Relies on time::OffsetDateTime::now_utc, unix_timestamp and nanosecond:
/// the current wall clock as seconds since the epoch plus a nanosecond part
/// that its documentation bounds below one billion. Nothing more is promised:
/// the wall clock may move arbitrarily between calls.
#[verifier::external_body]
fn clock_now() -> (r: Timespec)
    ensures
        ts_wf(r),
{
    let t = time::OffsetDateTime::now_utc();
    Timespec { sec: t.unix_timestamp(), nsec: t.nanosecond() as i32 }
}

/// The later of two instants.
fn later(a: Timespec, b: Timespec) -> (r: Timespec)
    ensures
        r == (if ts_le(a, b) { b } else { a }),
        ts_le(a, r),
        ts_le(b, r),
{
    if a.sec < b.sec {
        b
    } else if a.sec == b.sec && a.nsec <= b.nsec {
        b
    } else {
        a
    }
}

/// A fixed-capacity table of optional entries; both levels of the page map
/// use one.
pub type TList<T> = Vec<Option<T>>;

/// A freshly allocated table of `LIST_SIZE` absent entries.
pub fn create_tlist<T>() -> (r: TList<T>)
    ensures
        r@.len() == LIST_SIZE,
        forall|i: int| 0 <= i < LIST_SIZE ==> r@[i] is None,
{
    let mut list: Vec<Option<T>> = Vec::new();
    #[verifier::loop_isolation(false)]
    while list.len() < LIST_SIZE
        invariant
            list@.len() <= LIST_SIZE,
            forall|i: int| 0 <= i < list@.len() ==> list@[i] is None,
        decreases LIST_SIZE - list@.len(),
    {
        list.push(None);
    }
    list
}

/// A zero-initialized page.
fn zero_page() -> (r: Vec<u8>)
    ensures
        r@.len() == PAGE_SIZE,
        forall|i: int| 0 <= i < PAGE_SIZE ==> r@[i] == 0u8,
{
    let mut page: Vec<u8> = Vec::new();
    #[verifier::loop_isolation(false)]
    while page.len() < PAGE_SIZE
        invariant
            page@.len() <= PAGE_SIZE,
            forall|i: int| 0 <= i < page@.len() ==> page@[i] == 0u8,
        decreases PAGE_SIZE - page@.len(),
    {
        page.push(0u8);
    }
    page
}

/// The byte storage and metadata of one data file.
pub struct Inode {
    single: TList<Vec<u8>>,
    double: TList<TList<Vec<u8>>>,
    size: usize,
    mod_time: Timespec,
    access_time: Timespec,
    create_time: Timespec,
}

impl Inode {
    /// The page stored at page number `n`, if any.
    pub closed spec fn page_at(self, n: int) -> Option<Seq<u8>> {
        if 0 <= n < LIST_SIZE {
            match self.single@[n] {
                Some(p) => Some(p@),
                None => None,
            }
        } else if LIST_SIZE <= n < MAX_PAGES {
            match self.double@[(n - LIST_SIZE) / (LIST_SIZE as int)] {
                Some(list) => match list@[(n - LIST_SIZE) % (LIST_SIZE as int)] {
                    Some(p) => Some(p@),
                    None => None,
                },
                None => None,
            }
        } else {
            None
        }
    }

    /// The byte stored at byte address `addr`, if its page is allocated.
    pub open spec fn byte_at(self, addr: int) -> Option<u8> {
        match self.page_at(addr / (PAGE_SIZE as int)) {
            Some(p) => Some(p[addr % (PAGE_SIZE as int)]),
            None => None,
        }
    }

    /// The logical byte length of the file.
    pub closed spec fn spec_size(&self) -> usize {
        self.size
    }

    /// Creation instant; never changes after construction.
    pub closed spec fn ctime(self) -> Timespec {
        self.create_time
    }

    /// Last modification instant.
    pub closed spec fn mtime(self) -> Timespec {
        self.mod_time
    }

    /// Last access instant; this core updates it on writes only.
    pub closed spec fn atime(self) -> Timespec {
        self.access_time
    }

    /// Well-formedness: both tables have their fixed capacity, every present
    /// page holds exactly one page of bytes, the size never exceeds the
    /// maximum, and the timestamps are ordered after the creation instant.
    pub closed spec fn wf(self) -> bool {
        &&& self.single@.len() == LIST_SIZE
        &&& self.double@.len() == LIST_SIZE
        &&& forall|i: int|
            0 <= i < LIST_SIZE ==> (#[trigger] self.single@[i] matches Some(p) ==> p@.len()
                == PAGE_SIZE)
        &&& forall|i: int|
            0 <= i < LIST_SIZE ==> (#[trigger] self.double@[i] matches Some(list) ==> {
                &&& list@.len() == LIST_SIZE
                &&& forall|j: int|
                    0 <= j < LIST_SIZE ==> (#[trigger] list@[j] matches Some(p) ==> p@.len()
                        == PAGE_SIZE)
            })
        &&& self.size <= MAX_FILE_SIZE
        &&& ts_wf(self.create_time)
        &&& ts_wf(self.mod_time)
        &&& ts_wf(self.access_time)
        &&& self.mod_time == self.access_time
        &&& ts_le(self.create_time, self.mod_time)
    }

    /// A zero-length inode with no page allocated; all three timestamps are
    /// set to the same current wall-clock instant.
    pub fn new() -> (r: Inode)
        ensures
            r.wf(),
            r.spec_size() == 0,
            forall|n: int| r.page_at(n) is None,
            r.mtime() == r.ctime(),
            r.atime() == r.ctime(),
    {
        let time_now = clock_now();
        Inode {
            single: create_tlist(),
            double: create_tlist(),
            size: 0,
            mod_time: time_now,
            access_time: time_now,
            create_time: time_now,
        }
    }

    /// The logical byte length of the file.
    #[verifier::when_used_as_spec(spec_size)]
    pub fn size(&self) -> (r: usize)
        ensures
            r == self.spec_size(),
    {
        self.size
    }

    /// The stored timestamps, as the triple (create, access, modify).
    pub fn stat(&self) -> (r: (Timespec, Timespec, Timespec))
        ensures
            r == (self.ctime(), self.atime(), self.mtime()),
    {
        (self.create_time, self.access_time, self.mod_time)
    }

    /// Whether the page numbered `n` is allocated.
    pub fn page_allocated(&self, n: usize) -> (r: bool)
        requires
            self.wf(),
        ensures
            r == (self.page_at(n as int) is Some),
    {
        if n < LIST_SIZE {
            self.single[n].is_some()
        } else if n < MAX_PAGES {
            let k = n - LIST_SIZE;
            match &self.double[k / LIST_SIZE] {
                Some(list) => list[k % LIST_SIZE].is_some(),
                None => false,
            }
        } else {
            false
        }
    }
}

/// Metadata (size and timestamps) is the same in both states.
spec fn meta_unchanged(pre: Inode, post: Inode) -> bool {
    &&& post.spec_size() == pre.spec_size()
    &&& post.ctime() == pre.ctime()
    &&& post.mtime() == pre.mtime()
    &&& post.atime() == pre.atime()
}

/// The quotient and remainder of `n * m + k` by `m`, for `k` below `m`.
proof fn lemma_div_mod_small(n: int, k: int, m: int)
    requires
        0 <= n,
        0 <= k < m,
    ensures
        (n * m + k) / m == n,
        (n * m + k) % m == k,
{
    assert((n * m + k) / m == n && (n * m + k) % m == k) by (nonlinear_arith)
        requires
            0 <= n,
            0 <= k < m,
    ;
}

impl Inode {
    /// The slot for page `n` can be filled directly: for an indirect page
    /// number, its indirect block is allocated.
    spec fn slot_ready(self, n: int) -> bool {
        if 0 <= n < LIST_SIZE {
            true
        } else if n < MAX_PAGES {
            self.double@[(n - LIST_SIZE) / (LIST_SIZE as int)] is Some
        } else {
            false
        }
    }

    /// Allocates the slot path for page `n`: the indirect block if absent,
    /// then a zero page if the slot is empty. Idempotent for present pages.
    fn alloc_page_at(&mut self, n: usize)
        requires
            old(self).wf(),
            n < MAX_PAGES,
        ensures
            final(self).wf(),
            final(self).page_at(n as int) is Some,
            old(self).page_at(n as int) is Some ==> final(self).page_at(n as int) == old(
                self,
            ).page_at(n as int),
            old(self).page_at(n as int) is None ==> final(self).page_at(n as int) == Some(
                Seq::new(PAGE_SIZE as nat, |i: int| 0u8),
            ),
            forall|m: int| m != n ==> final(self).page_at(m) == old(self).page_at(m),
            final(self).slot_ready(n as int),
            meta_unchanged(*old(self), *final(self)),
    {
        if n < LIST_SIZE {
            if self.single[n].is_none() {
                let page = zero_page();
                proof {
                    assert(page@ =~= Seq::new(PAGE_SIZE as nat, |i: int| 0u8));
                }
                self.single[n] = Some(page);
            }
        } else {
            let k = n - LIST_SIZE;
            let slot = k / LIST_SIZE;
            let off = k % LIST_SIZE;
            proof {
                lemma_div_mod_small(slot as int, off as int, LIST_SIZE as int);
            }
            if self.double[slot].is_none() {
                let list = create_tlist();
                self.double[slot] = Some(list);
            }
            match &mut self.double[slot] {
                Some(list) => {
                    if list[off].is_none() {
                        let page = zero_page();
                        proof {
                            assert(page@ =~= Seq::new(PAGE_SIZE as nat, |i: int| 0u8));
                        }
                        list[off] = Some(page);
                    }
                },
                None => {
                    proof {
                        assert(false);
                    }
                },
            }
        }
    }

    /// Removes and returns the page stored at page number `n`.
    fn take_page(&mut self, n: usize) -> (r: Vec<u8>)
        requires
            old(self).wf(),
            n < MAX_PAGES,
            old(self).page_at(n as int) is Some,
        ensures
            final(self).wf(),
            old(self).page_at(n as int) == Some(r@),
            r@.len() == PAGE_SIZE,
            final(self).page_at(n as int) is None,
            forall|m: int| m != n ==> final(self).page_at(m) == old(self).page_at(m),
            final(self).slot_ready(n as int),
            meta_unchanged(*old(self), *final(self)),
    {
        if n < LIST_SIZE {
            let taken = self.single[n].take();
            match taken {
                Some(p) => p,
                None => vstd::pervasive::unreached(),
            }
        } else {
            let k = n - LIST_SIZE;
            let slot = k / LIST_SIZE;
            let off = k % LIST_SIZE;
            proof {
                lemma_div_mod_small(slot as int, off as int, LIST_SIZE as int);
            }
            match &mut self.double[slot] {
                Some(list) => {
                    let taken = list[off].take();
                    match taken {
                        Some(p) => p,
                        None => vstd::pervasive::unreached(),
                    }
                },
                None => vstd::pervasive::unreached(),
            }
        }
    }

    /// A shared reference to the page stored at page number `n`.
    fn page_ref(&self, n: usize) -> (r: &Vec<u8>)
        requires
            self.wf(),
            n < MAX_PAGES,
            self.page_at(n as int) is Some,
        ensures
            Some(r@) == self.page_at(n as int),
            r@.len() == PAGE_SIZE,
    {
        if n < LIST_SIZE {
            match &self.single[n] {
                Some(p) => p,
                None => vstd::pervasive::unreached(),
            }
        } else {
            let k = n - LIST_SIZE;
            let slot = k / LIST_SIZE;
            let off = k % LIST_SIZE;
            proof {
                lemma_div_mod_small(slot as int, off as int, LIST_SIZE as int);
            }
            match &self.double[slot] {
                Some(list) => match &list[off] {
                    Some(p) => p,
                    None => vstd::pervasive::unreached(),
                },
                None => vstd::pervasive::unreached(),
            }
        }
    }

    /// Copies `cnt` bytes out of the present page `n`, starting at page
    /// offset `po`, into `buf` at position `dst`.
    fn read_from_page(&self, n: usize, po: usize, buf: &mut Vec<u8>, dst: usize, cnt: usize)
        requires
            self.wf(),
            n < MAX_PAGES,
            self.page_at(n as int) is Some,
            po + cnt <= PAGE_SIZE,
            dst + cnt <= old(buf)@.len(),
        ensures
            final(buf)@.len() == old(buf)@.len(),
            forall|t: int|
                0 <= t < cnt ==> Some(#[trigger] final(buf)@[dst + t]) == self.byte_at(
                    n * PAGE_SIZE + po + t,
                ),
            forall|k: int|
                0 <= k < old(buf)@.len() && !(dst <= k < dst + cnt) ==> final(buf)@[k] == old(
                    buf,
                )@[k],
    {
        let buf_len = buf.len();
        let page = self.page_ref(n);
        let mut j: usize = 0;
        #[verifier::loop_isolation(false)]
        while j < cnt
            invariant
                j <= cnt,
                dst + cnt <= buf_len,
                buf@.len() == buf_len,
                forall|t: int| 0 <= t < j ==> #[trigger] buf@[dst + t] == page@[po + t],
                forall|k: int|
                    0 <= k < buf_len && !(dst <= k < dst + j) ==> buf@[k] == old(buf)@[k],
            decreases cnt - j,
        {
            let b = page[po + j];
            buf[dst + j] = b;
            j += 1;
        }
        proof {
            assert forall|t: int| 0 <= t < cnt implies Some(#[trigger] buf@[dst + t])
                == self.byte_at(n * PAGE_SIZE + po + t) by {
                lemma_div_mod_small(n as int, po + t, PAGE_SIZE as int);
            }
        }
    }

    /// Copies `cnt` bytes of `data`, starting at `src`, into the present page
    /// `n` at page offset `po`.
    fn copy_into_page(&mut self, n: usize, po: usize, data: &Vec<u8>, src: usize, cnt: usize)
        requires
            old(self).wf(),
            n < MAX_PAGES,
            old(self).page_at(n as int) is Some,
            po + cnt <= PAGE_SIZE,
            src + cnt <= data@.len(),
        ensures
            final(self).wf(),
            forall|m: int|
                (#[trigger] final(self).page_at(m) is Some) == (old(self).page_at(m) is Some),
            forall|m: int| m != n ==> final(self).page_at(m) == old(self).page_at(m),
            forall|a: int|
                n * PAGE_SIZE + po <= a < n * PAGE_SIZE + po + cnt ==> final(self).byte_at(a)
                    == Some(data@[src + a - (n * PAGE_SIZE + po)]),
            forall|a: int|
                0 <= a < MAX_FILE_SIZE && !(n * PAGE_SIZE + po <= a < n * PAGE_SIZE + po + cnt)
                    ==> final(self).byte_at(a) == old(self).byte_at(a),
            meta_unchanged(*old(self), *final(self)),
    {
        let data_len = data.len();
        let mut page = self.take_page(n);
        let ghost smid = *self;
        let ghost orig = page@;
        let mut j: usize = 0;
        #[verifier::loop_isolation(false)]
        while j < cnt
            invariant
                j <= cnt,
                src + cnt <= data_len,
                page@.len() == PAGE_SIZE,
                forall|t: int| 0 <= t < j ==> #[trigger] page@[po + t] == data@[src + t],
                forall|t: int|
                    0 <= t < PAGE_SIZE && !(po <= t < po + j) ==> page@[t] == orig[t],
            decreases cnt - j,
        {
            let b = data[src + j];
            page[po + j] = b;
            j += 1;
        }
        let ghost pfin = page@;
        self.put_page(n, page);
        proof {
            let lo = n * PAGE_SIZE + po;
            assert(self.page_at(n as int) == Some(pfin));
            assert forall|a: int| lo <= a < lo + cnt implies self.byte_at(a) == Some(
                data@[src + a - lo],
            ) by {
                lemma_div_mod_small(n as int, a - n * PAGE_SIZE, PAGE_SIZE as int);
                assert(pfin[po + (a - lo)] == data@[src + (a - lo)]);
            }
            assert forall|a: int|
                0 <= a < MAX_FILE_SIZE && !(lo <= a < lo + cnt) implies self.byte_at(a) == old(
                self,
            ).byte_at(a) by {
                let q = a / (PAGE_SIZE as int);
                let t = a % (PAGE_SIZE as int);
                vstd::arithmetic::div_mod::lemma_fundamental_div_mod(a, PAGE_SIZE as int);
                if q == n {
                    lemma_div_mod_small(n as int, a - n * PAGE_SIZE, PAGE_SIZE as int);
                    assert(pfin[t] == orig[t]);
                } else {
                    assert(self.page_at(q) == smid.page_at(q));
                    assert(smid.page_at(q) == old(self).page_at(q));
                }
            }
        }
    }

    /// Stores `page` at page number `n`, whose slot path must be allocated.
    fn put_page(&mut self, n: usize, page: Vec<u8>)
        requires
            old(self).wf(),
            n < MAX_PAGES,
            old(self).slot_ready(n as int),
            page@.len() == PAGE_SIZE,
        ensures
            final(self).wf(),
            final(self).page_at(n as int) == Some(page@),
            forall|m: int| m != n ==> final(self).page_at(m) == old(self).page_at(m),
            final(self).slot_ready(n as int),
            meta_unchanged(*old(self), *final(self)),
    {
        if n < LIST_SIZE {
            self.single[n] = Some(page);
        } else {
            let k = n - LIST_SIZE;
            let slot = k / LIST_SIZE;
            let off = k % LIST_SIZE;
            proof {
                lemma_div_mod_small(slot as int, off as int, LIST_SIZE as int);
            }
            match &mut self.double[slot] {
                Some(list) => {
                    list[off] = Some(page);
                },
                None => {
                    proof {
                        assert(false);
                    }
                },
            }
        }
    }
}

/// The effect of a successful write of the non-empty `data` at byte address
/// `offset`: the written range holds `data` byte for byte; on freshly touched
/// pages the bytes outside the written range read as zero where no page
/// existed; every other byte and page is unchanged; the size becomes the
/// maximum of the old size and the end of the write; and the modification and
/// access timestamps move together to one instant no earlier than creation,
/// which itself never changes.
pub open spec fn write_effect(pre: Inode, post: Inode, offset: int, data: Seq<u8>) -> bool {
    let lo = offset;
    let hi = offset + data.len();
    let first = lo / (PAGE_SIZE as int);
    let last = (hi - 1) / (PAGE_SIZE as int);
    &&& post.spec_size() == (if pre.spec_size() >= hi {
        pre.spec_size() as int
    } else {
        hi
    })
    &&& forall|a: int| lo <= a < hi ==> #[trigger] post.byte_at(a) == Some(data[a - lo])
    &&& forall|a: int|
        0 <= a < MAX_FILE_SIZE && !(lo <= a < hi) ==> #[trigger] post.byte_at(a) == (if first
            <= a / (PAGE_SIZE as int) <= last && pre.byte_at(a) is None {
            Some(0u8)
        } else {
            pre.byte_at(a)
        })
    &&& forall|n: int|
        0 <= n < MAX_PAGES ==> ((#[trigger] post.page_at(n)) is Some <==> (pre.page_at(n) is Some
            || first <= n <= last))
    &&& post.ctime() == pre.ctime()
    &&& post.mtime() == post.atime()
    &&& ts_le(pre.ctime(), post.mtime())
}

/// What `Inode::write` returns and does to the inode, for every input: a
/// zero-byte write is a complete no-op returning zero; a write ending past
/// the maximum file size fails with `FileTooLarge` and changes nothing; any
/// other write succeeds, returns the full length, and has `write_effect`.
pub open spec fn write_outcome(
    pre: Inode,
    post: Inode,
    offset: int,
    data: Seq<u8>,
    r: Result<usize, FsError>,
) -> bool {
    &&& data.len() == 0 ==> r == Ok::<usize, FsError>(0usize) && post == pre
    &&& data.len() > 0 && offset + data.len() > MAX_FILE_SIZE ==> r == Err::<usize, FsError>(
        FsError::FileTooLarge,
    ) && post == pre
    &&& data.len() > 0 && offset + data.len() <= MAX_FILE_SIZE ==> r == Ok::<usize, FsError>(
        data.len() as usize,
    ) && write_effect(pre, post, offset, data)
}

impl Inode {
    /// Writes `data` at byte address `offset`, allocating pages on demand.
    /// A write of zero bytes is a complete no-op. A write whose end would
    /// exceed the maximum file size fails without changing anything. Any
    /// other write copies every byte, extends the size to cover the write,
    /// and touches the modification and access timestamps.
    pub fn write(&mut self, offset: usize, data: &Vec<u8>) -> (r: Result<usize, FsError>)
        requires
            old(self).wf(),
        ensures
            final(self).wf(),
            write_outcome(*old(self), *final(self), offset as int, data@, r),
    {
        let len = data.len();
        if len == 0 {
            return Ok(0);
        }
        if offset > MAX_FILE_SIZE || len > MAX_FILE_SIZE - offset {
            return Err(FsError::FileTooLarge);
        }
        let ghost pgsz = PAGE_SIZE as int;
        let ghost first = offset as int / pgsz;
        let mut written: usize = 0;
        #[verifier::loop_isolation(false)]
        while written < len
            invariant
                written <= len,
                self.wf(),
                written == 0 || written == len || (offset + written) % pgsz == 0,
                forall|a: int|
                    offset <= a < offset + written ==> #[trigger] self.byte_at(a) == Some(
                        data@[a - offset],
                    ),
                forall|a: int|
                    0 <= a < MAX_FILE_SIZE && !(offset <= a < offset + written)
                        ==> #[trigger] self.byte_at(a) == (if written > 0 && first <= a / pgsz <= (
                    offset + written - 1) / pgsz && old(self).byte_at(a) is None {
                        Some(0u8)
                    } else {
                        old(self).byte_at(a)
                    }),
                forall|m: int|
                    0 <= m < MAX_PAGES ==> ((#[trigger] self.page_at(m)) is Some <==> (old(
                        self,
                    ).page_at(m) is Some || (written > 0 && first <= m <= (offset + written - 1)
                        / pgsz))),
                meta_unchanged(*old(self), *self),
            decreases len - written,
        {
            let ghost w0 = written as int;
            let ghost sw = *self;
            let cur = offset + written;
            let n = cur / PAGE_SIZE;
            let po = cur % PAGE_SIZE;
            let rem = len - written;
            let room = PAGE_SIZE - po;
            let cnt = if rem < room {
                rem
            } else {
                room
            };
            proof {
                vstd::arithmetic::div_mod::lemma_fundamental_div_mod(cur as int, pgsz);
                // The last byte written stays below the page limit.
                vstd::arithmetic::div_mod::lemma_div_is_ordered(
                    cur as int,
                    MAX_FILE_SIZE - 1,
                    pgsz,
                );
                lemma_div_mod_small(MAX_PAGES - 1, PAGE_SIZE - 1, pgsz);
                assert(n < MAX_PAGES);
            }
            self.alloc_page_at(n);
            let ghost s1 = *self;
            self.copy_into_page(n, po, data, written, cnt);
            written = written + cnt;
            proof {
                let cur_i = cur as int;
                let n_i = n as int;
                let po_i = po as int;
                let wr = written as int;
                let lastp = (offset + wr - 1) / pgsz;
                // The chunk ends on page n.
                lemma_div_mod_small(n_i, po_i + cnt - 1, pgsz);
                assert(lastp == n_i);
                // Where the previous iterations stopped.
                if w0 > 0 {
                    assert(po_i == 0);
                    lemma_div_mod_small(n_i - 1, pgsz - 1, pgsz);
                    assert((offset + w0 - 1) / pgsz == n_i - 1);
                } else {
                    assert(first == n_i);
                }
                // Alignment for the next iteration.
                if wr < len {
                    assert(cnt == room);
                    assert(offset + wr == (n_i + 1) * pgsz);
                    lemma_div_mod_small(n_i + 1, 0, pgsz);
                    assert((offset + wr) % pgsz == 0);
                }
                // Bytes written so far.
                assert forall|a: int| offset <= a < offset + wr implies #[trigger] self.byte_at(a)
                    == Some(data@[a - offset]) by {
                    if a < cur_i {
                        vstd::arithmetic::div_mod::lemma_div_is_ordered(a, cur_i - 1, pgsz);
                        assert(a / pgsz != n_i);
                        assert(s1.byte_at(a) == sw.byte_at(a));
                    }
                }
                // Bytes outside the written range.
                assert forall|a: int|
                    0 <= a < MAX_FILE_SIZE && !(offset <= a < offset + wr)
                        implies #[trigger] self.byte_at(a) == (if first <= a / pgsz <= lastp && old(
                    self,
                ).byte_at(a) is None {
                    Some(0u8)
                } else {
                    old(self).byte_at(a)
                }) by {
                    vstd::arithmetic::div_mod::lemma_fundamental_div_mod(a, pgsz);
                    if a / pgsz == n_i {
                        // On the freshly touched page, outside the chunk.
                        assert(!(cur_i <= a < cur_i + cnt));
                        assert(sw.byte_at(a) == old(self).byte_at(a));
                        if old(self).byte_at(a) is None {
                            assert(sw.page_at(n_i) is None);
                            assert(s1.byte_at(a) == Some(0u8));
                        } else {
                            assert(sw.page_at(n_i) is Some);
                            assert(s1.byte_at(a) == sw.byte_at(a));
                        }
                        assert(self.byte_at(a) == s1.byte_at(a));
                    } else {
                        assert(!(cur_i <= a < cur_i + cnt));
                        assert(s1.byte_at(a) == sw.byte_at(a));
                        assert(self.byte_at(a) == s1.byte_at(a));
                    }
                }
                // Allocated pages.
                assert forall|m: int|
                    0 <= m < MAX_PAGES implies ((#[trigger] self.page_at(m)) is Some <==> (old(
                    self,
                ).page_at(m) is Some || first <= m <= lastp)) by {
                    if m != n_i {
                        assert(self.page_at(m) == sw.page_at(m));
                    }
                }
            }
        }
        let ghost s2 = *self;
        let end = offset + len;
        if self.size < end {
            self.size = end;
        }
        let time_now = clock_now();
        let t = later(time_now, self.create_time);
        self.mod_time = t;
        self.access_time = t;
        proof {
            let pre = *old(self);
            let post = *self;
            let lo = offset as int;
            let hi = offset + len as int;
            let lastp = (hi - 1) / pgsz;
            assert forall|a: int| lo <= a < hi implies #[trigger] post.byte_at(a) == Some(
                data@[a - lo],
            ) by {
                assert(post.page_at(a / pgsz) == s2.page_at(a / pgsz));
                assert(s2.byte_at(a) == Some(data@[a - offset]));
            }
            assert forall|a: int|
                0 <= a < MAX_FILE_SIZE && !(lo <= a < hi) implies #[trigger] post.byte_at(a) == (
            if first <= a / pgsz <= lastp && pre.byte_at(a) is None {
                Some(0u8)
            } else {
                pre.byte_at(a)
            }) by {
                assert(post.page_at(a / pgsz) == s2.page_at(a / pgsz));
                assert(s2.byte_at(a) == (if first <= a / pgsz <= lastp && pre.byte_at(a) is None {
                    Some(0u8)
                } else {
                    pre.byte_at(a)
                }));
            }
            assert forall|n: int|
                0 <= n < MAX_PAGES implies ((#[trigger] post.page_at(n)) is Some <==> (pre.page_at(
                n,
            ) is Some || first <= n <= lastp)) by {
                assert(post.page_at(n) == s2.page_at(n));
            }
        }
        Ok(len)
    }
}

/// What `Inode::read` returns and does to the buffer, for every input: the
/// buffer keeps its length; a zero-byte read succeeds without effect; a read
/// ending past the maximum file size fails with `PageOutOfRange`; one past
/// the file size or over an unallocated page fails with `UnallocatedRead`;
/// each failure leaves the buffer unchanged; otherwise the read succeeds,
/// returns the full length, and fills the buffer with the stored bytes.
pub open spec fn read_outcome(
    ino: Inode,
    offset: int,
    pre_buf: Seq<u8>,
    post_buf: Seq<u8>,
    r: Result<usize, FsError>,
) -> bool {
    let len = pre_buf.len() as int;
    &&& post_buf.len() == pre_buf.len()
    &&& len == 0 ==> r == Ok::<usize, FsError>(0usize) && post_buf == pre_buf
    &&& len > 0 && offset + len > MAX_FILE_SIZE ==> r == Err::<usize, FsError>(
        FsError::PageOutOfRange,
    ) && post_buf == pre_buf
    &&& len > 0 && offset + len <= MAX_FILE_SIZE && !ino.readable(offset, len) ==> r == Err::<
        usize,
        FsError,
    >(FsError::UnallocatedRead) && post_buf == pre_buf
    &&& len > 0 && offset + len <= MAX_FILE_SIZE && ino.readable(offset, len) ==> r == Ok::<
        usize,
        FsError,
    >(pre_buf.len() as usize) && post_buf == ino.bytes_at(offset, pre_buf.len())
}

impl Inode {
    /// Every byte of the range lies below the file size and on an allocated
    /// page, so a read of the range succeeds.
    pub open spec fn readable(self, offset: int, len: int) -> bool {
        &&& offset + len <= self.spec_size()
        &&& forall|a: int| offset <= a < offset + len ==> #[trigger] self.byte_at(a) is Some
    }

    /// The bytes stored in the range; meaningful where the range is readable.
    pub open spec fn bytes_at(self, offset: int, len: nat) -> Seq<u8> {
        Seq::new(
            len,
            |i: int|
                match self.byte_at(offset + i) {
                    Some(b) => b,
                    None => 0u8,
                },
        )
    }

    /// Reads `buf.len()` bytes at byte address `offset` into `buf`, as
    /// `read_outcome` states case by case. Reads change no inode state and
    /// update no timestamp.
    pub fn read(&self, offset: usize, buf: &mut Vec<u8>) -> (r: Result<usize, FsError>)
        requires
            self.wf(),
        ensures
            read_outcome(*self, offset as int, old(buf)@, final(buf)@, r),
    {
        let len = buf.len();
        if len == 0 {
            return Ok(0);
        }
        if offset > MAX_FILE_SIZE || len > MAX_FILE_SIZE - offset {
            return Err(FsError::PageOutOfRange);
        }
        if offset + len > self.size {
            return Err(FsError::UnallocatedRead);
        }
        let ghost pgsz = PAGE_SIZE as int;
        let first = offset / PAGE_SIZE;
        let last = (offset + len - 1) / PAGE_SIZE;
        proof {
            vstd::arithmetic::div_mod::lemma_div_is_ordered(offset as int, offset + len - 1, pgsz);
            vstd::arithmetic::div_mod::lemma_div_is_ordered(offset + len - 1, MAX_FILE_SIZE - 1, pgsz);
            lemma_div_mod_small(MAX_PAGES - 1, PAGE_SIZE - 1, pgsz);
            vstd::arithmetic::div_mod::lemma_fundamental_div_mod(offset as int, pgsz);
            vstd::arithmetic::div_mod::lemma_fundamental_div_mod(offset + len - 1, pgsz);
        }
        let mut p = first;
        #[verifier::loop_isolation(false)]
        while p <= last
            invariant
                first <= p <= last + 1,
                forall|m: int| first <= m < p ==> #[trigger] self.page_at(m) is Some,
            decreases last + 1 - p,
        {
            if !self.page_allocated(p) {
                proof {
                    let a = if offset as int >= p * pgsz {
                        offset as int
                    } else {
                        p * pgsz
                    };
                    vstd::arithmetic::div_mod::lemma_fundamental_div_mod(offset + len - 1, pgsz);
                    assert((last as int) * pgsz <= offset + len - 1);
                    assert(p * pgsz <= offset + len - 1) by (nonlinear_arith)
                        requires
                            p <= last,
                            0 < pgsz,
                            (last as int) * pgsz <= offset + len - 1,
                    ;
                    assert(offset <= a < offset + len);
                    if offset as int >= p * pgsz {
                        vstd::arithmetic::div_mod::lemma_fundamental_div_mod(offset as int, pgsz);
                        assert(first >= p);
                        assert(p == first);
                        assert(a / pgsz == p as int);
                    } else {
                        lemma_div_mod_small(p as int, 0, pgsz);
                        assert(a / pgsz == p as int);
                    }
                    assert(self.byte_at(a) is None);
                    assert(!self.readable(offset as int, len as int));
                }
                return Err(FsError::UnallocatedRead);
            }
            p += 1;
        }
        proof {
            assert forall|a: int| offset <= a < offset + len implies #[trigger] self.byte_at(a)
                is Some by {
                vstd::arithmetic::div_mod::lemma_div_is_ordered(offset as int, a, pgsz);
                vstd::arithmetic::div_mod::lemma_div_is_ordered(a, offset + len - 1, pgsz);
            }
            assert(self.readable(offset as int, len as int));
        }
        let mut done: usize = 0;
        #[verifier::loop_isolation(false)]
        while done < len
            invariant
                done <= len,
                done == 0 || done == len || (offset + done) % pgsz == 0,
                buf@.len() == len,
                forall|i: int|
                    0 <= i < done ==> Some(#[trigger] buf@[i]) == self.byte_at(offset + i),
            decreases len - done,
        {
            let cur = offset + done;
            let n = cur / PAGE_SIZE;
            let po = cur % PAGE_SIZE;
            let rem = len - done;
            let room = PAGE_SIZE - po;
            let cnt = if rem < room {
                rem
            } else {
                room
            };
            proof {
                vstd::arithmetic::div_mod::lemma_fundamental_div_mod(cur as int, pgsz);
                vstd::arithmetic::div_mod::lemma_div_is_ordered(offset as int, cur as int, pgsz);
                vstd::arithmetic::div_mod::lemma_div_is_ordered(cur as int, offset + len - 1, pgsz);
                assert(first <= n <= last);
                assert(self.page_at(n as int) is Some);
            }
            let ghost bpre = buf@;
            self.read_from_page(n, po, buf, done, cnt);
            proof {
                let n_i = n as int;
                let d0 = done as int;
                let wr = done + cnt;
                if wr < len {
                    assert(cnt == room);
                    lemma_div_mod_small(n_i + 1, 0, pgsz);
                    assert((offset + wr) % pgsz == 0);
                }
                assert forall|i: int| 0 <= i < d0 + cnt implies Some(#[trigger] buf@[i])
                    == self.byte_at(offset + i) by {
                    if i >= d0 {
                        assert(Some(buf@[d0 + (i - d0)]) == self.byte_at(
                            n_i * PAGE_SIZE + po + (i - d0),
                        ));
                    } else {
                        assert(buf@[i] == bpre[i]);
                        assert(Some(bpre[i]) == self.byte_at(offset + i));
                    }
                }
            }
            done = done + cnt;
        }
        proof {
            assert(buf@ =~= self.bytes_at(offset as int, len as nat));
        }
        Ok(len)
    }
}

/// Round trip: a successful write makes its byte range readable, and the
/// bytes then read back from that range are exactly the bytes written.
pub proof fn lemma_write_read_round_trip(pre: Inode, post: Inode, offset: int, data: Seq<u8>)
    requires
        0 <= offset,
        0 < data.len(),
        offset + data.len() <= MAX_FILE_SIZE,
        write_effect(pre, post, offset, data),
    ensures
        post.readable(offset, data.len() as int),
        post.bytes_at(offset, data.len()) == data,
{
    assert(post.spec_size() >= offset + data.len());
    assert forall|a: int| offset <= a < offset + data.len() implies #[trigger] post.byte_at(a)
        is Some by {
        assert(post.byte_at(a) == Some(data[a - offset]));
    }
    assert(post.bytes_at(offset, data.len()) =~= data);
}

/// Size monotonicity: a successful write leaves the size at the maximum of
/// the previous size and the end of the write, so the size never shrinks.
pub proof fn lemma_size_monotonic(pre: Inode, post: Inode, offset: int, data: Seq<u8>)
    requires
        0 < data.len(),
        write_effect(pre, post, offset, data),
    ensures
        post.spec_size() == (if pre.spec_size() >= offset + data.len() {
            pre.spec_size() as int
        } else {
            offset + data.len()
        }),
        post.spec_size() >= pre.spec_size(),
{
}

/// Timestamp discipline after a write: modification and access time move
/// together, never to an instant before creation, and the creation time is
/// untouched. At construction all three are equal; see `Inode::new`.
pub proof fn lemma_timestamp_discipline(pre: Inode, post: Inode, offset: int, data: Seq<u8>)
    requires
        0 < data.len(),
        write_effect(pre, post, offset, data),
    ensures
        post.ctime() == pre.ctime(),
        post.mtime() == post.atime(),
        ts_le(post.ctime(), post.mtime()),
        ts_le(post.ctime(), post.atime()),
{
}

/// Writes to disjoint page ranges commute: in either order they produce the
/// same bytes everywhere, allocate the same pages, and leave the same size.
pub proof fn lemma_disjoint_writes_commute(
    pre: Inode,
    ab1: Inode,
    ab2: Inode,
    ba1: Inode,
    ba2: Inode,
    off_a: int,
    data_a: Seq<u8>,
    off_b: int,
    data_b: Seq<u8>,
)
    requires
        0 <= off_a,
        0 < data_a.len(),
        off_a + data_a.len() <= MAX_FILE_SIZE,
        0 <= off_b,
        0 < data_b.len(),
        off_b + data_b.len() <= MAX_FILE_SIZE,
        (off_a + data_a.len() - 1) / (PAGE_SIZE as int) < off_b / (PAGE_SIZE as int) || (off_b
            + data_b.len() - 1) / (PAGE_SIZE as int) < off_a / (PAGE_SIZE as int),
        write_effect(pre, ab1, off_a, data_a),
        write_effect(ab1, ab2, off_b, data_b),
        write_effect(pre, ba1, off_b, data_b),
        write_effect(ba1, ba2, off_a, data_a),
    ensures
        forall|a: int| 0 <= a < MAX_FILE_SIZE ==> #[trigger] ab2.byte_at(a) == ba2.byte_at(a),
        forall|n: int|
            0 <= n < MAX_PAGES ==> ((#[trigger] ab2.page_at(n)) is Some <==> ba2.page_at(n)
                is Some),
        ab2.spec_size() == ba2.spec_size(),
{
    let pgsz = PAGE_SIZE as int;
    let fa = off_a / pgsz;
    let la = (off_a + data_a.len() - 1) / pgsz;
    let fb = off_b / pgsz;
    let lb = (off_b + data_b.len() - 1) / pgsz;
    assert forall|a: int| 0 <= a < MAX_FILE_SIZE implies #[trigger] ab2.byte_at(a)
        == ba2.byte_at(a) by {
        let q = a / pgsz;
        if off_a <= a < off_a + data_a.len() {
            vstd::arithmetic::div_mod::lemma_div_is_ordered(off_a, a, pgsz);
            vstd::arithmetic::div_mod::lemma_div_is_ordered(a, off_a + data_a.len() - 1, pgsz);
            assert(fa <= q <= la);
            assert(!(off_b <= a < off_b + data_b.len())) by {
                if off_b <= a < off_b + data_b.len() {
                    vstd::arithmetic::div_mod::lemma_div_is_ordered(off_b, a, pgsz);
                    vstd::arithmetic::div_mod::lemma_div_is_ordered(
                        a,
                        off_b + data_b.len() - 1,
                        pgsz,
                    );
                }
            }
            assert(ab1.byte_at(a) == Some(data_a[a - off_a]));
            assert(ab2.byte_at(a) == ab1.byte_at(a));
            assert(ba2.byte_at(a) == Some(data_a[a - off_a]));
        } else if off_b <= a < off_b + data_b.len() {
            vstd::arithmetic::div_mod::lemma_div_is_ordered(off_b, a, pgsz);
            vstd::arithmetic::div_mod::lemma_div_is_ordered(a, off_b + data_b.len() - 1, pgsz);
            assert(fb <= q <= lb);
            assert(ba1.byte_at(a) == Some(data_b[a - off_b]));
            assert(ba2.byte_at(a) == ba1.byte_at(a));
            assert(ab2.byte_at(a) == Some(data_b[a - off_b]));
        } else {
            assert(ab1.byte_at(a) == (if fa <= q <= la && pre.byte_at(a) is None {
                Some(0u8)
            } else {
                pre.byte_at(a)
            }));
            assert(ab2.byte_at(a) == (if fb <= q <= lb && ab1.byte_at(a) is None {
                Some(0u8)
            } else {
                ab1.byte_at(a)
            }));
            assert(ba1.byte_at(a) == (if fb <= q <= lb && pre.byte_at(a) is None {
                Some(0u8)
            } else {
                pre.byte_at(a)
            }));
            assert(ba2.byte_at(a) == (if fa <= q <= la && ba1.byte_at(a) is None {
                Some(0u8)
            } else {
                ba1.byte_at(a)
            }));
        }
    }
}

/// Integer division rounding up; counts the pages a byte range covers.
pub fn ceil_div(x: usize, y: usize) -> (r: usize)
    requires
        y > 0,
        x + y <= usize::MAX,
    ensures
        r == (x + y - 1) / y as int,
{
    (x + y - 1) / y
}

} // verus!
