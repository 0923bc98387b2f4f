//! Byte access to a large file: chunk-wise reads with a small least-recently
//! used cache.
//!
//! Only chunks that were read in full are cached. The short chunk at the end
//! of the file never is, so that a file that grows shows its new bytes on the
//! next read.
use vstd::prelude::*;

verus! {

pub const DEFAULT_CHUNK_SIZE: usize = 65536;

pub const CACHE_SLOTS: usize = 8;

/// What the source asks of the disk.
pub enum DiskRequest {
    /// The current length of the file.
    Len,
    /// Up to `want` bytes from `start` on.
    Read { start: u64, want: usize },
}

/// What the disk answers.
pub enum DiskReply {
    /// The length of the file.
    Len(u64),
    /// The bytes that were read; fewer than wanted only at the end of the file.
    Bytes(Vec<u8>),
    /// The bytes that were read before an error, and the error's text.
    Failed(Vec<u8>, String),
}

/// The bytes of `content` from `start` on, at most `want` of them.
pub open spec fn bytes_at(content: Seq<u8>, start: int, want: int) -> Seq<u8> {
    if start >= content.len() {
        Seq::empty()
    } else if start + want >= content.len() {
        content.subrange(start, content.len() as int)
    } else {
        content.subrange(start, start + want)
    }
}

/// Chunk `idx` of `content` cut into chunks of `size` bytes.
pub open spec fn chunk_of(content: Seq<u8>, size: int, idx: int) -> Seq<u8> {
    bytes_at(content, idx * size, size)
}

/// Whether `reply` is what a disk that holds `content` answers to `request`.
pub open spec fn faithful(content: Seq<u8>, request: DiskRequest, reply: DiskReply) -> bool {
    match request {
        DiskRequest::Len => reply matches DiskReply::Len(n) && n == content.len(),
        DiskRequest::Read { start, want } => {
            reply matches DiskReply::Bytes(b) && b@ == bytes_at(content, start as int, want as int)
        },
    }
}

/// Whether the disk `disk` can be asked anything.
pub open spec fn askable<D: Fn(DiskRequest) -> DiskReply>(disk: D) -> bool {
    forall|q: DiskRequest| #[trigger] call_requires(disk, (q,))
}

/// Whether every answer of `disk` is that of a file with this content.
pub open spec fn disk_holds<D: Fn(DiskRequest) -> DiskReply>(disk: D, content: Seq<u8>) -> bool {
    &&& content.len() <= u64::MAX
    &&& forall|q: DiskRequest, r: DiskReply| #[trigger]
        call_ensures(disk, (q,), r) ==> faithful(content, q, r)
}

/// One cached chunk.
pub struct Slot {
    pub idx: u64,
    /// The clock when the chunk was last used.
    pub seq: u64,
    pub data: Vec<u8>,
}

/// What a cached chunk is: its number, when it was last used, its bytes.
#[verifier::ext_equal]
pub struct SlotView {
    pub idx: u64,
    pub seq: u64,
    pub data: Seq<u8>,
}

impl View for Slot {
    type V = SlotView;

    open spec fn view(&self) -> SlotView {
        SlotView { idx: self.idx, seq: self.seq, data: self.data@ }
    }
}

/// The slot among the first `n` that holds chunk `idx`, if there is one.
pub open spec fn slot_with(cache: Seq<SlotView>, idx: u64, n: nat) -> Option<int>
    decreases n,
{
    if n == 0 {
        None
    } else {
        match slot_with(cache, idx, (n - 1) as nat) {
            Some(i) => Some(i),
            None => if cache[n - 1].idx == idx {
                Some(n - 1)
            } else {
                None
            },
        }
    }
}

/// The slot that holds chunk `idx`.
pub open spec fn cached_at(cache: Seq<SlotView>, idx: u64) -> Option<int> {
    slot_with(cache, idx, cache.len())
}

/// The least recently used of the first `n + 1` slots.
pub open spec fn oldest(cache: Seq<SlotView>, n: nat) -> int
    decreases n,
{
    if n == 0 {
        0
    } else {
        let best = oldest(cache, (n - 1) as nat);
        if cache[n as int].seq < cache[best].seq {
            n as int
        } else {
            best
        }
    }
}

/// The cache after slot `i` was used at time `clock`.
pub open spec fn touched(cache: Seq<SlotView>, i: int, clock: u64) -> Seq<SlotView> {
    cache.update(i, SlotView { seq: clock, ..cache[i] })
}

/// The cache after chunk `idx` was stored at time `clock`: in its own slot,
/// else in a free one, else in place of the least recently used chunk.
pub open spec fn stored(cache: Seq<SlotView>, clock: u64, idx: u64, data: Seq<u8>) -> Seq<SlotView> {
    let slot = SlotView { idx, seq: clock, data };
    match cached_at(cache, idx) {
        Some(i) => cache.update(i, slot),
        None => if cache.len() < CACHE_SLOTS {
            cache.push(slot)
        } else {
            cache.update(oldest(cache, (cache.len() - 1) as nat), slot)
        },
    }
}

/// The clock's next reading.
pub open spec fn tick(clock: u64) -> u64 {
    if clock == u64::MAX {
        0
    } else {
        (clock + 1) as u64
    }
}

proof fn lemma_slot_with(cache: Seq<SlotView>, idx: u64, n: nat)
    requires
        n <= cache.len(),
    ensures
        match slot_with(cache, idx, n) {
            Some(i) => 0 <= i < n && cache[i].idx == idx && (forall|j: int|
                0 <= j < i ==> (#[trigger] cache[j]).idx != idx),
            None => forall|j: int| 0 <= j < n ==> (#[trigger] cache[j]).idx != idx,
        },
    decreases n,
{
    if n > 0 {
        lemma_slot_with(cache, idx, (n - 1) as nat);
    }
}

proof fn lemma_slot_with_is(cache: Seq<SlotView>, idx: u64, n: nat, i: int)
    requires
        0 <= i < n <= cache.len(),
        cache[i].idx == idx,
        forall|j: int| 0 <= j < i ==> (#[trigger] cache[j]).idx != idx,
    ensures
        slot_with(cache, idx, n) == Some(i),
{
    lemma_slot_with(cache, idx, n);
}

/// The slot that is given up is one that was used no later than any other.
pub proof fn law_oldest_is_least_recent(cache: Seq<SlotView>, n: nat)
    requires
        n < cache.len(),
    ensures
        0 <= oldest(cache, n) <= n,
        forall|j: int| 0 <= j <= n ==> cache[oldest(cache, n)].seq <= (#[trigger] cache[j]).seq,
    decreases n,
{
    if n > 0 {
        law_oldest_is_least_recent(cache, (n - 1) as nat);
    }
}

/// Storing a chunk keeps the cache within its slots, makes the chunk
/// available, and changes at most one slot.
pub proof fn law_stored_keeps_the_rest(cache: Seq<SlotView>, clock: u64, idx: u64, data: Seq<u8>)
    requires
        cache.len() <= CACHE_SLOTS,
    ensures
        stored(cache, clock, idx, data).len() <= CACHE_SLOTS,
        cache.len() <= stored(cache, clock, idx, data).len(),
        exists|k: int|
            0 <= k < stored(cache, clock, idx, data).len() && (#[trigger] stored(
                cache,
                clock,
                idx,
                data,
            )[k]) == (SlotView { idx, seq: clock, data }) && forall|j: int|
                0 <= j < cache.len() && j != k ==> (#[trigger] stored(cache, clock, idx, data)[j])
                    == cache[j],
        cached_at(stored(cache, clock, idx, data), idx) matches Some(i) && stored(
            cache,
            clock,
            idx,
            data,
        )[i].data == data,
{
    lemma_slot_with(cache, idx, cache.len());
    let after = stored(cache, clock, idx, data);
    let k = match cached_at(cache, idx) {
        Some(i) => i,
        None => if cache.len() < CACHE_SLOTS {
            cache.len() as int
        } else {
            law_oldest_is_least_recent(cache, (cache.len() - 1) as nat);
            oldest(cache, (cache.len() - 1) as nat)
        },
    };
    assert(after[k] == (SlotView { idx, seq: clock, data }));
    assert forall|j: int| 0 <= j < k implies (#[trigger] after[j]).idx != idx by {
        assert(after[j] == cache[j]);
    }
    lemma_slot_with_is(after, idx, after.len(), k);
}

/// A source of bytes: the disk behind it, the file's last known length and
/// the cached chunks.
pub struct FileSource<D> {
    disk: D,
    len: u64,
    chunk_size: usize,
    cache: Vec<Slot>,
    seq: u64,
    io_err: Option<String>,
}

/// The cached chunks as plain values.
pub open spec fn slots(cache: Seq<Slot>) -> Seq<SlotView> {
    cache.map_values(|s: Slot| s@)
}

impl<D: Fn(DiskRequest) -> DiskReply> FileSource<D> {
    /// The disk behind the source.
    pub closed spec fn disk(&self) -> D {
        self.disk
    }

    /// The file's last known length.
    pub closed spec fn known_len(&self) -> u64 {
        self.len
    }

    /// The bytes in a chunk.
    pub closed spec fn size(&self) -> usize {
        self.chunk_size
    }

    /// The cached chunks.
    pub closed spec fn cached(&self) -> Seq<SlotView> {
        slots(self.cache@)
    }

    /// The clock that orders the uses of the cached chunks.
    pub closed spec fn clock(&self) -> u64 {
        self.seq
    }

    /// The text of the last error that has not been taken.
    pub closed spec fn pending_err(&self) -> Option<Seq<char>> {
        match self.io_err {
            Some(e) => Some(e@),
            None => None,
        }
    }

    pub open spec fn wf(&self) -> bool {
        &&& self.size() > 0
        &&& askable(self.disk())
        &&& self.cached().len() <= CACHE_SLOTS
        &&& forall|i: int|
            0 <= i < self.cached().len() ==> (#[trigger] self.cached()[i]).data.len() == self.size()
    }

    /// Whether the source shows a file with this content: the disk answers
    /// for it and each cached chunk is the file's.
    pub open spec fn holds(&self, content: Seq<u8>) -> bool {
        &&& disk_holds(self.disk(), content)
        &&& self.cache_agrees(content)
    }

    pub open spec fn cache_agrees(&self, content: Seq<u8>) -> bool {
        forall|i: int|
            0 <= i < self.cached().len() ==> (#[trigger] self.cached()[i]).data == chunk_of(
                content,
                self.size() as int,
                self.cached()[i].idx as int,
            )
    }

    fn ask(&self, q: DiskRequest) -> (r: DiskReply)
        requires
            self.wf(),
        ensures
            call_ensures(self.disk(), (q,), r),
    {
        (self.disk)(q)
    }

    /// Goes on with the disk as it is now. What was kept of the file stays, and
    /// stays right as long as the file has only grown.
    pub fn renew_disk(&mut self, disk: D)
        requires
            old(self).wf(),
            askable(disk),
        ensures
            final(self).wf(),
            final(self).disk() == disk,
            final(self).known_len() == old(self).known_len(),
            final(self).size() == old(self).size(),
            final(self).cached() == old(self).cached(),
            final(self).clock() == old(self).clock(),
            final(self).pending_err() == old(self).pending_err(),
    {
        self.disk = disk;
    }

    /// Opens a source with the default chunk size, or gives the disk's error.
    pub fn open(disk: D) -> (r: Result<Self, String>)
        requires
            askable(disk),
        ensures
            opened(disk, DEFAULT_CHUNK_SIZE, r),
    {
        Self::open_with_chunk(disk, DEFAULT_CHUNK_SIZE)
    }

    /// Opens a source with chunks of `chunk_size` bytes.
    pub fn open_with_chunk(disk: D, chunk_size: usize) -> (r: Result<Self, String>)
        requires
            chunk_size > 0,
            askable(disk),
        ensures
            opened(disk, chunk_size, r),
    {
        match disk(DiskRequest::Len) {
            DiskReply::Len(len) => {
                let s = FileSource {
                    disk,
                    len,
                    chunk_size,
                    cache: Vec::new(),
                    seq: 0,
                    io_err: None,
                };
                assert(s.cached() =~= Seq::<SlotView>::empty());
                Ok(s)
            },
            DiskReply::Bytes(_) => Err(String::new()),
            DiskReply::Failed(_, e) => Err(e),
        }
    }

    pub fn chunk_size(&self) -> (r: usize)
        ensures
            r == self.size(),
    {
        self.chunk_size
    }

    pub fn len(&self) -> (r: u64)
        ensures
            r == self.known_len(),
    {
        self.len
    }

    pub fn is_empty(&self) -> (r: bool)
        ensures
            r <==> self.known_len() == 0,
    {
        self.len == 0
    }

    /// Forgets every cached chunk.
    pub fn clear_cache(&mut self)
        requires
            old(self).wf(),
        ensures
            final(self).wf(),
            final(self).cached() == Seq::<SlotView>::empty(),
            final(self).disk() == old(self).disk(),
            final(self).size() == old(self).size(),
            final(self).known_len() == old(self).known_len(),
            final(self).clock() == old(self).clock(),
            final(self).pending_err() == old(self).pending_err(),
    {
        self.cache.clear();
        assert(self.cached() =~= Seq::<SlotView>::empty());
    }

    /// Asks for the file's length again and returns the latest one known: an
    /// error leaves it as it was and is kept for `take_io_err`.
    pub fn refresh_len(&mut self) -> (r: u64)
        requires
            old(self).wf(),
        ensures
            final(self).wf(),
            r == final(self).known_len(),
            final(self).disk() == old(self).disk(),
            final(self).size() == old(self).size(),
            final(self).cached() == old(self).cached(),
            final(self).clock() == old(self).clock(),
            exists|reply: DiskReply|
                {
                    &&& #[trigger] call_ensures(old(self).disk(), (DiskRequest::Len,), reply)
                    &&& final(self).known_len() == len_after(old(self).known_len(), reply)
                    &&& final(self).pending_err() == err_after(old(self).pending_err(), reply)
                },
            forall|c: Seq<u8>| #[trigger]
                disk_holds(old(self).disk(), c) ==> r == c.len(),
    {
        let reply = self.ask(DiskRequest::Len);
        let ghost told = reply;
        match reply {
            DiskReply::Len(n) => {
                self.len = n;
            },
            DiskReply::Bytes(_) => {},
            DiskReply::Failed(_, e) => {
                self.io_err = Some(e);
            },
        }
        assert(call_ensures(old(self).disk(), (DiskRequest::Len,), told));
        self.len
    }

    /// Hands out the last error, once.
    pub fn take_io_err(&mut self) -> (r: Option<String>)
        requires
            old(self).wf(),
        ensures
            final(self).wf(),
            r is Some <==> old(self).pending_err() is Some,
            r matches Some(e) ==> old(self).pending_err() == Some(e@),
            final(self).pending_err() is None,
            final(self).disk() == old(self).disk(),
            final(self).size() == old(self).size(),
            final(self).cached() == old(self).cached(),
            final(self).clock() == old(self).clock(),
            final(self).known_len() == old(self).known_len(),
    {
        self.io_err.take()
    }

    /// The slot that holds chunk `idx`.
    fn find_slot(&self, idx: u64) -> (r: Option<usize>)
        ensures
            match r {
                Some(i) => cached_at(self.cached(), idx) == Some(i as int) && i < self.cached().len(),
                None => cached_at(self.cached(), idx) is None,
            },
    {
        let n: usize = self.cache.len();
        let mut i: usize = 0;
        while i < n
            invariant
                i <= n,
                n == self.cache.len(),
                forall|j: int| 0 <= j < i ==> (#[trigger] self.cached()[j]).idx != idx,
            decreases n - i,
        {
            if self.cache[i].idx == idx {
                proof {
                    assert(self.cached()[i as int].idx == idx);
                    lemma_slot_with_is(self.cached(), idx, self.cached().len(), i as int);
                }
                return Some(i);
            }
            assert(self.cached()[i as int].idx != idx);
            i += 1;
        }
        proof {
            lemma_slot_with(self.cached(), idx, self.cached().len());
        }
        None
    }

    /// The bytes of chunk `idx`: fewer than a chunk's at the end of the file,
    /// none past it.
    pub fn chunk(&mut self, idx: u64) -> (r: Vec<u8>)
        requires
            old(self).wf(),
        ensures
            final(self).wf(),
            final(self).disk() == old(self).disk(),
            final(self).size() == old(self).size(),
            r.len() <= old(self).size(),
            final(self).known_len() <= idx * old(self).size() ==> r.len() == 0,
            r.len() > 0 ==> idx * old(self).size() < u64::MAX,
            forall|c: Seq<u8>| #[trigger]
                old(self).holds(c) ==> r@ == chunk_of(c, old(self).size() as int, idx as int)
                    && same_file(*old(self), *final(self), c),
            final(self).known_len() > idx * old(self).size() ==> match cached_at(
                old(self).cached(),
                idx,
            ) {
                Some(i) => {
                    &&& r@ == old(self).cached()[i].data
                    &&& final(self).cached() == touched(old(self).cached(), i, old(self).clock())
                    &&& final(self).clock() == tick(old(self).clock())
                },
                None => if r.len() == old(self).size() {
                    &&& final(self).cached() == stored(old(self).cached(), old(self).clock(), idx, r@)
                    &&& final(self).clock() == tick(old(self).clock())
                } else {
                    &&& final(self).cached() == old(self).cached()
                    &&& final(self).clock() == old(self).clock()
                },
            },
            final(self).known_len() <= idx * old(self).size() ==> final(self).cached() == old(
                self,
            ).cached() && final(self).clock() == old(self).clock(),
            chunk_asked(*old(self), *final(self), idx, r@),
    {
        let cs: u64 = self.chunk_size as u64;
        let start: u64 = match idx.checked_mul(cs) {
            Some(v) => v,
            None => u64::MAX,
        };
        proof {
            assert(idx * cs >= 0) by (nonlinear_arith);
        }
        if start >= self.len {
            self.refresh_len();
        }
        let ghost asked = *self;
        let ghost err = asked.pending_err();
        let ghost place = idx * old(self).size();
        assert(len_checked(*old(self), place, asked.known_len(), err));
        if start >= self.len {
            return Vec::new();
        }
        if let Some(i) = self.find_slot(idx) {
            proof {
                lemma_slot_with(self.cached(), idx, self.cached().len());
            }
            let data = self.cache[i].data.clone();
            self.cache[i].seq = self.seq;
            self.seq = self.seq.wrapping_add(1);
            assert(self.cached() =~= touched(old(self).cached(), i as int, old(self).seq));
            assert(len_checked(*old(self), place, self.known_len(), err));
            return data;
        }
        let want: usize = self.chunk_size;
        let reply = self.ask(DiskRequest::Read { start, want });
        let ghost told = reply;
        let mut buf: Vec<u8> = match reply {
            DiskReply::Len(_) => Vec::new(),
            DiskReply::Bytes(b) => b,
            DiskReply::Failed(b, e) => {
                self.io_err = Some(e);
                b
            },
        };
        buf.truncate(want);
        assert(buf@ =~= bytes_told(told, want as int));
        assert(call_ensures(old(self).disk(), (DiskRequest::Read { start, want },), told));
        assert forall|c: Seq<u8>| #[trigger] old(self).holds(c) implies buf@ == chunk_of(
            c,
            want as int,
            idx as int,
        ) by {
            assert(faithful(c, DiskRequest::Read { start, want }, told));
            assert(buf@ =~= bytes_at(c, start as int, want as int));
        }
        if buf.len() == self.chunk_size {
            let copy = buf.clone();
            assert(copy@ =~= buf@);
            let ghost before = *self;
            self.insert_cache(idx, copy);
            assert forall|c: Seq<u8>| #[trigger] old(self).holds(c) implies self.holds(c) by {
                assert(before.holds(c));
            }
        }
        assert(len_checked(*old(self), place, self.known_len(), err));
        assert(self.pending_err() == err_after(err, told));
        buf
    }

    /// Keeps a full chunk, in place of the least recently used one when every
    /// slot is taken.
    fn insert_cache(&mut self, idx: u64, data: Vec<u8>)
        requires
            old(self).wf(),
            data.len() == old(self).size(),
        ensures
            final(self).wf(),
            final(self).disk() == old(self).disk(),
            final(self).size() == old(self).size(),
            final(self).known_len() == old(self).known_len(),
            final(self).pending_err() == old(self).pending_err(),
            final(self).cached() == stored(old(self).cached(), old(self).clock(), idx, data@),
            final(self).clock() == tick(old(self).clock()),
            forall|c: Seq<u8>| #[trigger]
                old(self).holds(c) && data@ == chunk_of(c, old(self).size() as int, idx as int)
                    ==> final(self).holds(c),
    {
        let ghost bytes = data@;
        let seq: u64 = self.seq;
        proof {
            lemma_slot_with(self.cached(), idx, self.cached().len());
        }
        if let Some(i) = self.find_slot(idx) {
            self.cache[i] = Slot { idx, seq, data };
        } else if self.cache.len() < CACHE_SLOTS {
            self.cache.push(Slot { idx, seq, data });
        } else {
            let n: usize = self.cache.len();
            let mut victim: usize = 0;
            let mut i: usize = 1;
            while i < n
                invariant
                    1 <= i <= n,
                    n == self.cache.len(),
                    self.cache@ == old(self).cache@,
                    victim < i,
                    victim == oldest(self.cached(), (i - 1) as nat),
                decreases n - i,
            {
                assert(self.cached()[i as int] == self.cache[i as int]@);
                assert(self.cached()[victim as int] == self.cache[victim as int]@);
                if self.cache[i].seq < self.cache[victim].seq {
                    victim = i;
                }
                i += 1;
            }
            self.cache[victim] = Slot { idx, seq, data };
        }
        self.seq = self.seq.wrapping_add(1);
        assert(self.cached() =~= stored(old(self).cached(), old(self).clock(), idx, bytes));
    }
}

/// The known length after the disk answered a question for it.
pub open spec fn len_after(len: u64, reply: DiskReply) -> u64 {
    match reply {
        DiskReply::Len(n) => n,
        _ => len,
    }
}

/// The pending error after the disk answered.
pub open spec fn err_after(err: Option<Seq<char>>, reply: DiskReply) -> Option<Seq<char>> {
    match reply {
        DiskReply::Failed(_, e) => Some(e@),
        _ => err,
    }
}

/// The bytes that the disk answered with, at most `want` of them.
pub open spec fn bytes_told(reply: DiskReply, want: int) -> Seq<u8> {
    let bytes = match reply {
        DiskReply::Len(_) => Seq::empty(),
        DiskReply::Bytes(b) => b@,
        DiskReply::Failed(b, _) => b@,
    };
    if bytes.len() <= want {
        bytes
    } else {
        bytes.take(want)
    }
}

/// The known length and the pending error before bytes from `start` on are
/// read: the disk is asked for the length if that place is not known to be in
/// the file, and for nothing otherwise.
pub open spec fn len_checked<D: Fn(DiskRequest) -> DiskReply>(
    before: FileSource<D>,
    start: int,
    len: u64,
    err: Option<Seq<char>>,
) -> bool {
    if start >= before.known_len() {
        exists|reply: DiskReply|
            {
                &&& #[trigger] call_ensures(before.disk(), (DiskRequest::Len,), reply)
                &&& len == len_after(before.known_len(), reply)
                &&& err == err_after(before.pending_err(), reply)
            }
    } else {
        len == before.known_len() && err == before.pending_err()
    }
}

/// What the disk was asked for chunk `idx`, and what its answers left: after
/// the length, the bytes of a chunk that lies in the file and is not cached.
/// They are what was read, also before an error, and the error is kept.
pub open spec fn chunk_asked<D: Fn(DiskRequest) -> DiskReply>(
    before: FileSource<D>,
    after: FileSource<D>,
    idx: u64,
    r: Seq<u8>,
) -> bool {
    let start = idx * before.size();
    exists|err: Option<Seq<char>>|
        {
            &&& #[trigger] len_checked(before, start, after.known_len(), err)
            &&& if start < after.known_len() && cached_at(before.cached(), idx) is None {
                exists|reply: DiskReply|
                    {
                        &&& #[trigger] call_ensures(
                            before.disk(),
                            (DiskRequest::Read { start: start as u64, want: before.size() },),
                            reply,
                        )
                        &&& r == bytes_told(reply, before.size() as int)
                        &&& after.pending_err() == err_after(err, reply)
                    }
            } else {
                after.pending_err() == err
            }
        }
}

/// What opening a source gives: a fresh source with the disk's length, or the
/// disk's error.
pub open spec fn opened<D: Fn(DiskRequest) -> DiskReply>(
    disk: D,
    chunk_size: usize,
    r: Result<FileSource<D>, String>,
) -> bool {
    &&& exists|reply: DiskReply|
        {
            &&& #[trigger] call_ensures(disk, (DiskRequest::Len,), reply)
            &&& match reply {
                DiskReply::Len(n) => r matches Ok(s) && s.known_len() == n,
                DiskReply::Bytes(_) => r matches Err(m) && m@.len() == 0,
                DiskReply::Failed(_, e) => r matches Err(m) && m@ == e@,
            }
        }
    &&& r matches Ok(s) ==> {
        &&& s.wf()
        &&& s.disk() == disk
        &&& s.size() == chunk_size
        &&& s.cached() == Seq::<SlotView>::empty()
        &&& s.clock() == 0
        &&& s.pending_err() is None
    }
}

/// Whether a source still shows the same content after an operation: a length
/// that was up to date still is.
pub open spec fn same_file<D: Fn(DiskRequest) -> DiskReply>(
    before: FileSource<D>,
    after: FileSource<D>,
    content: Seq<u8>,
) -> bool {
    &&& after.holds(content)
    &&& before.known_len() == content.len() ==> after.known_len() == content.len()
}

/// A cached chunk stays right when the file grows: only full chunks are kept.
pub proof fn law_cache_survives_growth<D: Fn(DiskRequest) -> DiskReply>(
    src: FileSource<D>,
    before: Seq<u8>,
    after: Seq<u8>,
)
    requires
        src.wf(),
        src.cache_agrees(before),
        before.is_prefix_of(after),
    ensures
        src.cache_agrees(after),
{
    let size = src.size() as int;
    assert forall|i: int| 0 <= i < src.cached().len() implies (#[trigger] src.cached()[i]).data
        == chunk_of(after, size, src.cached()[i].idx as int) by {
        let idx = src.cached()[i].idx as int;
        let d = src.cached()[i].data;
        assert(d == chunk_of(before, size, idx));
        assert(idx * size >= 0) by (nonlinear_arith)
            requires
                idx >= 0,
                size >= 0,
        ;
        assert(d =~= chunk_of(after, size, idx));
    }
}

} // verus!
