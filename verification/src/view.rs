//! The scrolling view of a file: a cursor row inside a window of rows.
//!
//! Moving comes in two kinds. `move_cursor` moves the cursor and lets the
//! window follow at its edges; `scroll_window` moves the window and keeps the
//! cursor at its place on the screen. `fill_to` reads the rows that the window
//! shows.
use vstd::prelude::*;
use crate::encoding::{detect_encoding, encoding_of, text_of, Encoding, DECODE_LIMIT, HEAD_BYTES};
use crate::file::{
    askable, bytes_at, disk_holds, law_cache_survives_growth, same_file, DiskReply, DiskRequest,
    FileSource, DEFAULT_CHUNK_SIZE,
};
use crate::index::{
    lemma_marks_survive_growth, lemma_rows_of_done, LineIndex, DEFAULT_INTERVAL,
};
use crate::lines::{
    law_row_start_of_each_row, law_rows_follow_each_other, lemma_find_nl, row_at, row_read,
    row_start, row_total, LineReader,
};

verus! {

pub const DEFAULT_MAX_ROW: usize = 4096;

/// The rows that a window shows before it is first filled.
pub const DEFAULT_HEIGHT: usize = 24;

/// The fewest bytes of a row that a view keeps.
pub const MIN_ROW_BYTES: usize = 16;

/// The highest row number.
pub const LAST_ROW: u64 = 0xFFFF_FFFF_FFFF_FFFE;

/// A row as a view shows it.
#[derive(Debug, Clone)]
pub struct ViewRow {
    /// Where the row starts in the file.
    pub offset: u64,
    /// The row's text, without its newline.
    pub text: String,
    /// Whether the row was too long to be kept whole.
    pub truncated: bool,
}

#[verifier::ext_equal]
pub struct ShownRow {
    pub offset: u64,
    pub text: Seq<char>,
    pub truncated: bool,
}

impl View for ViewRow {
    type V = ShownRow;

    open spec fn view(&self) -> ShownRow {
        ShownRow { offset: self.offset, text: self.text@, truncated: self.truncated }
    }
}

/// At most `n` rows of `c` from `from` on, cut to `max` bytes and decoded.
pub open spec fn rows_at(c: Seq<u8>, from: int, n: nat, max: int, enc: Encoding) -> Seq<ShownRow>
    decreases n,
{
    if n == 0 {
        Seq::empty()
    } else {
        match row_at(c, from, max) {
            None => Seq::empty(),
            Some(row) => {
                let first = ShownRow {
                    offset: from as u64,
                    text: text_of(enc, row.bytes),
                    truncated: row.truncated,
                };
                seq![first] + if row.ended {
                    rows_at(c, row.next, (n - 1) as nat, max, enc)
                } else {
                    Seq::empty()
                }
            },
        }
    }
}

/// Where reading at most `n` rows from `from` on ends.
pub open spec fn rows_end(c: Seq<u8>, from: int, n: nat, max: int) -> int
    decreases n,
{
    if n == 0 {
        from
    } else {
        match row_at(c, from, max) {
            None => from,
            Some(row) => if row.ended {
                rows_end(c, row.next, (n - 1) as nat, max)
            } else {
                row.next
            },
        }
    }
}

/// `row` moved by `delta`, kept among the row numbers.
pub open spec fn shifted(row: u64, delta: i64) -> u64 {
    if row + delta < 0 {
        0
    } else if row + delta > LAST_ROW {
        LAST_ROW
    } else {
        (row + delta) as u64
    }
}

/// The top row after the window followed the cursor.
pub open spec fn followed(top: u64, cursor: u64, height: u64) -> u64 {
    if cursor < top {
        cursor
    } else if cursor - top >= height {
        (cursor + 1 - height) as u64
    } else {
        top
    }
}

/// `row` kept inside a window of `height` rows from `top` on.
pub open spec fn inside(row: u64, top: u64, height: u64) -> u64 {
    if row < top {
        top
    } else if row - top >= height {
        (top + height - 1) as u64
    } else {
        row
    }
}

/// The top row that shows the last of `total` rows at the bottom.
pub open spec fn bottom_top(total: int, height: int) -> int {
    if total > height {
        total - height
    } else {
        0
    }
}

fn shift_row(row: u64, delta: i64) -> (r: u64)
    requires
        row <= LAST_ROW,
    ensures
        r == shifted(row, delta),
        r <= LAST_ROW,
{
    let moved: i128 = row as i128 + delta as i128;
    if moved < 0 {
        0
    } else if moved > LAST_ROW as i128 {
        LAST_ROW
    } else {
        moved as u64
    }
}

fn follow_cursor(top: u64, cursor: u64, height: u64) -> (r: u64)
    requires
        height >= 1,
        top <= LAST_ROW,
        cursor <= LAST_ROW,
    ensures
        r == followed(top, cursor, height),
        r <= cursor < r + height,
{
    if cursor < top {
        cursor
    } else if cursor - top >= height {
        cursor - height + 1
    } else {
        top
    }
}

pub struct FileView<D> {
    src: FileSource<D>,
    path: String,
    index: LineIndex,
    encoding: Encoding,
    top_row0: u64,
    cursor_row0: u64,
    vh: usize,
    rows: Vec<ViewRow>,
    max_row_bytes: usize,
    at_end: bool,
    last_len: u64,
}

impl<D: Fn(DiskRequest) -> DiskReply> FileView<D> {
    /// The source of the file's bytes.
    pub closed spec fn source(&self) -> FileSource<D> {
        self.src
    }

    /// The line index.
    pub closed spec fn idx(&self) -> LineIndex {
        self.index
    }

    pub closed spec fn name(&self) -> Seq<char> {
        self.path@
    }

    pub closed spec fn enc(&self) -> Encoding {
        self.encoding
    }

    /// The first row of the window, from 0.
    pub closed spec fn top(&self) -> u64 {
        self.top_row0
    }

    /// The cursor's row, from 0.
    pub closed spec fn cursor(&self) -> u64 {
        self.cursor_row0
    }

    /// The rows of the window.
    pub closed spec fn height(&self) -> usize {
        self.vh
    }

    /// The rows that were read for the window.
    pub closed spec fn shown(&self) -> Seq<ShownRow> {
        self.rows@.map_values(|r: ViewRow| r@)
    }

    pub closed spec fn row_limit(&self) -> usize {
        self.max_row_bytes
    }

    pub closed spec fn bottom(&self) -> bool {
        self.at_end
    }

    /// The file's length when it was last looked at.
    pub closed spec fn seen_len(&self) -> u64 {
        self.last_len
    }

    pub open spec fn wf(&self) -> bool {
        &&& self.source().wf()
        &&& self.idx().wf()
        &&& self.idx().step() == DEFAULT_INTERVAL
        &&& self.height() >= 1
        &&& MIN_ROW_BYTES <= self.row_limit() <= DECODE_LIMIT
        &&& self.top() <= LAST_ROW
        &&& self.cursor() <= LAST_ROW
    }

    /// Whether the cursor is inside the window.
    pub open spec fn cursor_in_window(&self) -> bool {
        self.top() <= self.cursor() < self.top() + self.height()
    }

    /// Whether the index answers for the first `n` bytes of the content: all of
    /// them, or what there was when the index reached the end of the file.
    pub open spec fn covers(&self, c: Seq<u8>, n: int) -> bool {
        &&& self.seen_len() <= n <= c.len()
        &&& self.idx().valid(c.take(n))
        &&& self.idx().done() || n == c.len()
    }

    /// Whether what the view has kept of the file agrees with this content.
    pub open spec fn agrees(&self, c: Seq<u8>) -> bool {
        &&& self.source().cache_agrees(c)
        &&& exists|n: int| self.covers(c, n)
    }

    /// Whether this is a view of a file with this content.
    pub open spec fn shows(&self, c: Seq<u8>) -> bool {
        &&& disk_holds(self.source().disk(), c)
        &&& self.agrees(c)
    }

    /// Whether this is a view of a file with this content that has looked at
    /// the file's current length.
    pub open spec fn in_step(&self, c: Seq<u8>) -> bool {
        &&& self.source().holds(c)
        &&& self.idx().valid(c)
        &&& self.seen_len() == c.len()
        &&& self.source().known_len() == c.len()
        &&& self.covers(c, c.len() as int)
        &&& self.shows(c)
    }

    /// What no movement changes.
    pub open spec fn same_frame(&self, before: Self) -> bool {
        &&& self.wf()
        &&& self.source().disk() == before.source().disk()
        &&& self.source().size() == before.source().size()
        &&& self.name() == before.name()
        &&& self.enc() == before.enc()
        &&& self.row_limit() == before.row_limit()
    }

    /// Whether the view knows of the file what it did before.
    pub open spec fn same_file_seen(&self, before: Self) -> bool {
        &&& self.source() == before.source()
        &&& self.idx() == before.idx()
        &&& self.seen_len() == before.seen_len()
    }

    /// Whether the view knows of the file what it did before, and is a view of
    /// the same content.
    pub open spec fn still_seen(&self, before: Self) -> bool {
        &&& self.same_file_seen(before)
        &&& forall|c: Seq<u8>| #[trigger] before.shows(c) ==> self.shows(c)
        &&& forall|c: Seq<u8>| #[trigger] before.in_step(c) ==> self.in_step(c)
    }

    /// Whether window, cursor and rows are as they were.
    pub open spec fn same_place(&self, before: Self) -> bool {
        &&& self.top() == before.top()
        &&& self.cursor() == before.cursor()
        &&& self.height() == before.height()
        &&& self.shown() == before.shown()
        &&& self.bottom() == before.bottom()
    }

    /// Whether the window stands at these rows and has to be filled anew.
    pub open spec fn placed(&self, before: Self, top: int, cursor: int) -> bool {
        &&& self.top() == top
        &&& self.cursor() == cursor
        &&& self.height() == before.height()
        &&& self.shown() == Seq::<ShownRow>::empty()
        &&& self.bottom() == before.bottom()
    }

    pub fn open(disk: D, path: String) -> (r: Result<Self, String>)
        requires
            askable(disk),
        ensures
            view_opened(disk, path@, DEFAULT_MAX_ROW, r),
    {
        Self::open_with(disk, path, DEFAULT_MAX_ROW)
    }

    /// Opens a view that keeps at most `max_row_bytes` bytes of a row.
    pub fn open_with(disk: D, path: String, max_row_bytes: usize) -> (r: Result<Self, String>)
        requires
            askable(disk),
            max_row_bytes <= DECODE_LIMIT,
        ensures
            view_opened(disk, path@, max_row_bytes, r),
    {
        let request = DiskRequest::Read { start: 0, want: HEAD_BYTES };
        let reply = disk(request);
        let ghost told = reply;
        let mut head: Vec<u8> = match reply {
            DiskReply::Bytes(b) => b,
            DiskReply::Len(_) => Vec::new(),
            DiskReply::Failed(_, _) => Vec::new(),
        };
        head.truncate(HEAD_BYTES);
        assert(call_ensures(disk, (request,), told));
        assert(head@ =~= head_of(told));
        let encoding = detect_encoding(head.as_slice());
        match FileSource::open(disk) {
            Ok(src) => {
                let last_len: u64 = src.len();
                let v = FileView {
                    src,
                    path,
                    index: LineIndex::new(),
                    encoding,
                    top_row0: 0,
                    cursor_row0: 0,
                    vh: DEFAULT_HEIGHT,
                    rows: Vec::new(),
                    max_row_bytes: if max_row_bytes < MIN_ROW_BYTES {
                        MIN_ROW_BYTES
                    } else {
                        max_row_bytes
                    },
                    at_end: false,
                    last_len,
                };
                assert(v.shown() =~= Seq::<ShownRow>::empty());
                Ok(v)
            },
            Err(e) => Err(e),
        }
    }

    /// Goes on with the disk as it is now. What the view has kept of the file
    /// stays, and stays right as long as the file has only grown.
    pub fn renew_disk(&mut self, disk: D)
        requires
            old(self).wf(),
            askable(disk),
        ensures
            disk_renewed(*old(self), *final(self), disk),
    {
        self.src.renew_disk(disk);
    }

    pub fn file_path(&self) -> (r: &str)
        ensures
            r@ == self.name(),
    {
        self.path.as_str()
    }

    pub fn encoding_label(&self) -> (r: String)
        ensures
            r@ == self.enc().name(),
    {
        self.encoding.label().to_owned()
    }

    pub fn encoding(&self) -> (r: Encoding)
        ensures
            r == self.enc(),
    {
        self.encoding
    }

    pub fn file_len(&self) -> (r: u64)
        ensures
            r == self.source().known_len(),
    {
        self.src.len()
    }

    /// Looks at the file again and returns its latest length.
    pub fn poll_len(&mut self) -> (r: u64)
        requires
            old(self).wf(),
        ensures
            polled(*old(self), *final(self), r),
    {
        self.refresh_tail();
        self.src.len()
    }

    pub fn max_row_bytes(&self) -> (r: usize)
        ensures
            r == self.row_limit(),
    {
        self.max_row_bytes
    }

    /// The window's first row, counted from 1.
    pub fn top_line1(&self) -> (r: u64)
        requires
            self.wf(),
        ensures
            r == self.top() + 1,
    {
        self.top_row0 + 1
    }

    /// The cursor's row, counted from 1.
    pub fn cursor_line1(&self) -> (r: u64)
        requires
            self.wf(),
        ensures
            r == self.cursor() + 1,
    {
        self.cursor_row0 + 1
    }

    pub fn rows(&self) -> (r: &[ViewRow])
        ensures
            r@.map_values(|x: ViewRow| x@) == self.shown(),
    {
        self.rows.as_slice()
    }

    pub fn row_count(&self) -> (r: usize)
        ensures
            r == self.shown().len(),
    {
        self.rows.len()
    }

    /// Whether the last row that was read is the last of the file.
    pub fn at_bottom(&self) -> (r: bool)
        ensures
            r == self.bottom(),
    {
        self.at_end
    }

    /// Decodes a piece of the file.
    pub fn decode_bytes(&self, bytes: &[u8]) -> (r: String)
        requires
            bytes@.len() <= DECODE_LIMIT,
        ensures
            r@ == text_of(self.enc(), bytes@),
    {
        self.encoding.decode(bytes)
    }

    /// The window's first row and the cursor's, counted from 0.
    pub fn snapshot_pos(&self) -> (r: (u64, u64))
        ensures
            r.0 == self.top(),
            r.1 == self.cursor(),
    {
        (self.top_row0, self.cursor_row0)
    }

    /// Puts window and cursor where a snapshot found them.
    pub fn restore_pos(&mut self, top: u64, cursor: u64)
        requires
            old(self).wf(),
            top <= LAST_ROW,
            cursor <= LAST_ROW,
        ensures
            put_at(*old(self), *final(self), top, cursor),
    {
        self.top_row0 = top;
        self.cursor_row0 = cursor;
        self.rows.clear();
        assert(self.shown() =~= Seq::<ShownRow>::empty());
        proof {
            lemma_still_seen(*old(self), *self);
        }
    }

    /// Makes row `top` the window's first row. The cursor stays: where the
    /// window does not hold it, the next `fill_to` moves the window back.
    pub fn set_top(&mut self, top: u64)
        requires
            old(self).wf(),
            top <= LAST_ROW,
        ensures
            final(self).same_frame(*old(self)),
            final(self).still_seen(*old(self)),
            final(self).placed(*old(self), top as int, old(self).cursor() as int),
    {
        self.top_row0 = top;
        self.rows.clear();
        assert(self.shown() =~= Seq::<ShownRow>::empty());
        proof {
            lemma_still_seen(*old(self), *self);
        }
    }

    /// Whether row `row0` exists.
    fn row_exists(&mut self, row0: u64) -> (r: bool)
        requires
            old(self).wf(),
        ensures
            final(self).same_frame(*old(self)),
            final(self).same_place(*old(self)),
            final(self).seen_len() == old(self).seen_len(),
            r ==> row0 <= LAST_ROW,
            forall|c: Seq<u8>, n: int|
                #![trigger old(self).covers(c, n)]
                old(self).source().holds(c) && old(self).covers(c, n) ==> {
                    &&& final(self).source().holds(c)
                    &&& final(self).covers(c, n)
                    &&& r == (row0 < row_total(c.take(n)))
                },
            forall|c: Seq<u8>| #[trigger]
                old(self).in_step(c) ==> final(self).in_step(c) && r == (row0 < row_total(c)),
    {
        let r = self.index.row_offset(&mut self.src, row0);
        proof {
            assert forall|c: Seq<u8>, n: int|
                #![trigger old(self).covers(c, n)]
                old(self).source().holds(c) && old(self).covers(c, n) implies self.source().holds(c)
                && self.covers(c, n) && (r is Some) == (row0 < row_total(c.take(n))) by {
                let seen = c.take(n);
                assert(n == c.len() ==> seen =~= c);
                assert(old(self).src.holds(c) && old(self).index.valid(seen));
                law_row_start_of_each_row(seen, row0 as nat);
            }
            assert forall|c: Seq<u8>| #[trigger] old(self).in_step(c) implies self.in_step(c)
                && (r is Some) == (row0 < row_total(c)) by {
                assert(old(self).src.holds(c) && old(self).index.valid(c));
                assert(c.is_prefix_of(c));
                law_row_start_of_each_row(c, row0 as nat);
            }
        }
        r.is_some()
    }

    /// Moves the cursor by `delta` rows and lets the window follow.
    pub fn move_cursor(&mut self, delta: i64)
        requires
            old(self).wf(),
        ensures
            moved(*old(self), *final(self), delta),
    {
        self.refresh_tail();
        if delta == 0 {
            return ;
        }
        let new: u64 = shift_row(self.cursor_row0, delta);
        let mut target: u64 = new;
        if !self.row_exists(new) {
            match self.count_rows() {
                None => {
                    return ;
                },
                Some(last) => {
                    target = last;
                },
            }
        }
        let ghost mid = *self;
        self.cursor_row0 = target;
        self.top_row0 = follow_cursor(self.top_row0, self.cursor_row0, self.vh as u64);
        self.rows.clear();
        assert(self.shown() =~= Seq::<ShownRow>::empty());
        proof {
            lemma_still_seen(mid, *self);
        }
    }

    /// Goes through the file to its end and returns its last row.
    fn count_rows(&mut self) -> (r: Option<u64>)
        requires
            old(self).wf(),
        ensures
            final(self).same_frame(*old(self)),
            final(self).same_place(*old(self)),
            final(self).seen_len() == old(self).seen_len(),
            final(self).idx().done(),
            r matches Some(last) ==> last <= LAST_ROW && last + 1 == final(self).idx().rows(),
            r is None ==> final(self).idx().rows() == 0,
            forall|c: Seq<u8>| #[trigger]
                old(self).in_step(c) ==> final(self).in_step(c) && final(self).idx().rows()
                    == row_total(c),
    {
        self.index.extend_to_eof(&mut self.src);
        proof {
            assert forall|c: Seq<u8>| #[trigger] old(self).in_step(c) implies self.in_step(c)
                && self.idx().rows() == row_total(c) by {
                assert(old(self).src.holds(c));
                assert(c.take(c.len() as int) =~= c);
            }
        }
        let total: u64 = self.index.parsed_rows();
        if total == 0 {
            None
        } else {
            Some(total - 1)
        }
    }

    /// Moves the window by `delta` rows; the cursor keeps its place on the
    /// screen, as far as the file has that row. With the cursor on a last row that is known to be the last,
    /// the window does not move down.
    pub fn scroll_window(&mut self, delta: i64)
        requires
            old(self).wf(),
        ensures
            window_scrolled(*old(self), *final(self), delta),
    {
        self.refresh_tail();
        if delta == 0 {
            return ;
        }
        if delta > 0 && self.index.at_eof() && self.cursor_row0 + 1 >= self.index.parsed_rows() {
            proof {
                assert forall|c: Seq<u8>| #[trigger] old(self).shows(c) implies scrolled(
                    c,
                    *old(self),
                    *self,
                    delta,
                ) by {
                    lemma_rows_of_done(self.idx(), c);
                }
            }
            return ;
        }
        let ghost mid = *self;
        let top: u64 = shift_row(self.top_row0, delta);
        let vh: u64 = self.vh as u64;
        proof {
            assert forall|c: Seq<u8>| #[trigger] old(self).shows(c) implies mid.in_step(c) && (
            mid.idx().done() ==> mid.idx().rows() == row_total(c)) by {
                if mid.idx().done() {
                    lemma_rows_of_done(mid.idx(), c);
                }
            }
        }
        if !self.row_exists(top) {
            let ghost mid2 = *self;
            match self.count_rows() {
                None => {},
                Some(last) => {
                    self.top_row0 = if last >= vh {
                        last - vh + 1
                    } else {
                        0
                    };
                    self.cursor_row0 = last;
                    self.rows.clear();
                    assert(self.shown() =~= Seq::<ShownRow>::empty());
                },
            }
            proof {
                assert forall|c: Seq<u8>| #[trigger] old(self).shows(c) implies self.in_step(c)
                    && scrolled(c, *old(self), *self, delta) by {
                    assert(mid.in_step(c));
                    assert(mid2.in_step(c));
                    assert(self.covers(c, c.len() as int));
                }
            }
            return ;
        }
        let moved: u64 = shift_row(self.cursor_row0, delta);
        let mut target: u64 = if moved < top {
            top
        } else if moved - top >= vh {
            top + (vh - 1)
        } else {
            moved
        };
        let ghost found = *self;
        if !self.row_exists(target) {
            let ghost counted = *self;
            match self.count_rows() {
                None => {},
                Some(last) => {
                    if last < top {
                        target = top;
                    } else if last < target {
                        target = last;
                    }
                },
            }
            assert forall|c: Seq<u8>| #[trigger] old(self).shows(c) implies self.idx().rows()
                == row_total(c) by {
                assert(mid.in_step(c));
                assert(found.in_step(c));
                assert(counted.in_step(c));
            }
        }
        let ghost last = *self;
        self.top_row0 = top;
        self.cursor_row0 = target;
        self.rows.clear();
        assert(self.shown() =~= Seq::<ShownRow>::empty());
        proof {
            assert forall|c: Seq<u8>| #[trigger] old(self).shows(c) implies self.in_step(c)
                && scrolled(c, *old(self), *self, delta) by {
                assert(mid.in_step(c));
                assert(found.in_step(c));
                assert(last.in_step(c));
                assert(self.covers(c, c.len() as int));
            }
        }
    }

    /// Puts the cursor on row `line1`, counted from 1, with the window's top a
    /// third of its height above; `false`, and nothing done, if there is no
    /// such row.
    pub fn goto_line1(&mut self, line1: u64) -> (r: bool)
        requires
            old(self).wf(),
        ensures
            went_to(*old(self), *final(self), line1, r),
    {
        if line1 < 1 {
            return false;
        }
        let row0: u64 = line1 - 1;
        let found: bool = self.row_exists(row0);
        proof {
            assert forall|c: Seq<u8>| #[trigger] old(self).shows(c) implies self.shows(c) by {
                let n = choose|n: int| old(self).covers(c, n);
                assert(self.covers(c, n));
            }
        }
        if !found {
            return false;
        }
        let third: u64 = (self.vh / 3) as u64;
        self.top_row0 = if row0 >= third {
            row0 - third
        } else {
            0
        };
        self.cursor_row0 = row0;
        self.rows.clear();
        assert(self.shown() =~= Seq::<ShownRow>::empty());
        proof {
            assert forall|c: Seq<u8>| #[trigger] old(self).shows(c) implies self.shows(c) by {
                let n = choose|n: int| old(self).covers(c, n);
                assert(self.covers(c, n));
            }
        }
        true
    }

    pub fn scroll_to_top(&mut self)
        requires
            old(self).wf(),
        ensures
            went_to_top(*old(self), *final(self)),
    {
        self.top_row0 = 0;
        self.cursor_row0 = 0;
        self.rows.clear();
        assert(self.shown() =~= Seq::<ShownRow>::empty());
        proof {
            lemma_still_seen(*old(self), *self);
        }
    }

    /// Puts the cursor on the last row of the file.
    pub fn scroll_to_bottom(&mut self)
        requires
            old(self).wf(),
        ensures
            went_to_bottom(*old(self), *final(self)),
    {
        self.refresh_tail();
        let ghost mid = *self;
        match self.count_rows() {
            None => {
                self.top_row0 = 0;
                self.cursor_row0 = 0;
            },
            Some(last) => {
                let vh: u64 = self.vh as u64;
                self.cursor_row0 = last;
                self.top_row0 = if last >= vh {
                    last - vh + 1
                } else {
                    0
                };
            },
        }
        self.rows.clear();
        assert(self.shown() =~= Seq::<ShownRow>::empty());
        proof {
            assert forall|c: Seq<u8>| #[trigger] old(self).shows(c) implies self.in_step(c)
                && self.idx().rows() == row_total(c) by {
                assert(mid.in_step(c));
            }
        }
    }

    /// The number of rows; the file is read to its end for it.
    pub fn total_rows(&mut self) -> (r: Option<u64>)
        requires
            old(self).wf(),
        ensures
            final(self).same_frame(*old(self)),
            final(self).same_place(*old(self)),
            r is Some,
            forall|c: Seq<u8>| #[trigger]
                old(self).shows(c) ==> final(self).in_step(c) && r == Some(row_total(c) as u64)
                    && row_total(c) <= u64::MAX,
    {
        self.refresh_tail();
        let ghost mid = *self;
        let _last = self.count_rows();
        proof {
            assert forall|c: Seq<u8>| #[trigger] old(self).shows(c) implies self.in_step(c)
                && self.idx().rows() == row_total(c) by {
                assert(mid.in_step(c));
            }
        }
        Some(self.index.parsed_rows())
    }

    /// The number of rows if the end of the file was reached, as of then.
    pub fn known_total(&self) -> (r: Option<u64>)
        requires
            self.wf(),
        ensures
            r is Some <==> self.idx().done(),
            r matches Some(n) ==> n == self.idx().rows(),
            forall|c: Seq<u8>, n: int| #[trigger]
                self.covers(c, n) ==> (r matches Some(rows) ==> rows == row_total(c.take(n))),
    {
        if self.index.at_eof() {
            proof {
                assert forall|c: Seq<u8>, n: int| #[trigger]
                    self.covers(c, n) implies self.idx().rows() == row_total(c.take(n)) by {
                    lemma_rows_of_done(self.idx(), c.take(n));
                }
            }
            Some(self.index.parsed_rows())
        } else {
            None
        }
    }

    /// Goes on indexing toward row `line1`, counted from 1, or toward the end
    /// of the file, by at most `blocks` blocks of rows. Returns whether it got
    /// there.
    pub fn extend_toward(&mut self, line1: Option<u64>, blocks: u64) -> (r: bool)
        requires
            old(self).wf(),
        ensures
            went_toward(*old(self), *final(self), line1, blocks, r),
    {
        self.refresh_tail();
        let ghost mid = *self;
        let row0: Option<u64> = match line1 {
            None => None,
            Some(l) => if l == 0 {
                Some(0)
            } else {
                Some(l - 1)
            },
        };
        let r = self.index.extend_toward(&mut self.src, row0, blocks);
        proof {
            assert forall|c: Seq<u8>| #[trigger] old(self).shows(c) implies self.in_step(c) && (
            self.idx().done() ==> self.idx().rows() == row_total(c)) && (!r ==> self.idx().rows()
                >= old(self).idx().rows() + blocks) && self.idx().rows() <= old(self).idx().rows()
                + blocks * old(self).idx().step() by {
                assert(mid.in_step(c));
                assert(mid.src.holds(c) && mid.index.valid(c));
                assert(c.take(c.len() as int) =~= c);
                assert(self.covers(c, c.len() as int));
                if self.idx().done() {
                    lemma_rows_of_done(self.idx(), c);
                }
            }
        }
        r
    }

    /// The text of row `line1`, counted from 1, if the file has that row.
    pub fn read_line_text(&mut self, line1: u64) -> (r: Option<String>)
        requires
            old(self).wf(),
        ensures
            final(self).same_frame(*old(self)),
            final(self).same_place(*old(self)),
            line1 == 0 ==> r is None,
            forall|c: Seq<u8>| #[trigger]
                old(self).shows(c) ==> {
                    &&& final(self).in_step(c)
                    &&& r is Some <==> 1 <= line1 <= row_total(c)
                    &&& r matches Some(t) ==> t@ == line_text(
                        c,
                        line1 as int,
                        old(self).row_limit() as int,
                        old(self).enc(),
                    )
                },
    {
        self.refresh_tail();
        if line1 == 0 {
            return None;
        }
        let ghost mid = *self;
        let off: u64 = match self.index.row_offset(&mut self.src, line1 - 1) {
            Some(o) => o,
            None => {
                proof {
                    assert forall|c: Seq<u8>| #[trigger] old(self).shows(c) implies self.in_step(c)
                        && line1 > row_total(c) by {
                        assert(mid.in_step(c));
                        assert(mid.src.holds(c) && mid.index.valid(c));
                        assert(c.is_prefix_of(c));
                        law_row_start_of_each_row(c, (line1 - 1) as nat);
                    }
                }
                return None;
            },
        };
        let ghost at = *self;
        let mut lr = LineReader::new(off, self.max_row_bytes);
        let ghost lr0 = lr;
        let row = lr.next_row(&mut self.src);
        proof {
            assert forall|c: Seq<u8>| #[trigger] old(self).shows(c) implies self.in_step(c) && row
                is Some && line1 <= row_total(c) && row_start(c, (line1 - 1) as nat) == Some(
                off as int,
            ) && row_read(c, lr0, lr, row) by {
                assert(mid.in_step(c));
                assert(mid.src.holds(c) && mid.index.valid(c));
                assert(c.is_prefix_of(c));
                assert(at.src.holds(c));
                law_row_start_of_each_row(c, (line1 - 1) as nat);
                law_rows_follow_each_other(c, (line1 - 1) as nat, self.max_row_bytes as int);
            }
        }
        match row {
            Some((_, bytes, _)) => Some(self.decode_bytes(bytes.as_slice())),
            None => None,
        }
    }

    /// Looks at the file's length; if it has changed, the index can go on.
    fn refresh_tail(&mut self)
        requires
            old(self).wf(),
        ensures
            final(self).same_frame(*old(self)),
            final(self).same_place(*old(self)),
            final(self).seen_len() == final(self).source().known_len(),
            final(self).idx().rows() == old(self).idx().rows(),
            final(self).idx().step() == old(self).idx().step(),
            final(self).source().known_len() == old(self).seen_len() ==> final(self).idx()
                == old(self).idx(),
            final(self).source().known_len() != old(self).seen_len() ==> !final(self).idx().done(),
            forall|c: Seq<u8>| #[trigger] old(self).shows(c) ==> final(self).in_step(c),
    {
        let len: u64 = self.src.refresh_len();
        proof {
            assert forall|c: Seq<u8>| #[trigger] old(self).shows(c) implies self.src.holds(c)
                && len == c.len() by {
                assert(disk_holds(old(self).src.disk(), c));
            }
        }
        if len != self.last_len {
            self.last_len = len;
            if self.index.at_eof() {
                self.index.invalidate_eof();
            }
        }
        proof {
            assert forall|c: Seq<u8>| #[trigger] old(self).shows(c) implies self.in_step(c) by {
                let n = choose|n: int| old(self).covers(c, n);
                let seen = c.take(n);
                assert(old(self).index.valid(seen));
                assert(n == c.len() ==> seen =~= c);
                assert(seen.is_prefix_of(c));
                assert(self.index.valid(c));
                assert(c.take(c.len() as int) =~= c);
                assert(self.covers(c, c.len() as int));
            }
        }
    }

    /// Moves the window so that it holds the cursor.
    fn ensure_cursor_visible(&mut self)
        requires
            old(self).wf(),
        ensures
            final(self).same_frame(*old(self)),
            final(self).cursor_in_window(),
            final(self).cursor() == old(self).cursor(),
            final(self).height() == old(self).height(),
            final(self).bottom() == old(self).bottom(),
            final(self).top() == followed(old(self).top(), old(self).cursor(), old(self).height() as u64),
            final(self).shown() == if old(self).cursor_in_window() {
                old(self).shown()
            } else {
                Seq::<ShownRow>::empty()
            },
            final(self).same_file_seen(*old(self)),
    {
        let top: u64 = follow_cursor(self.top_row0, self.cursor_row0, self.vh as u64);
        if top != self.top_row0 {
            self.top_row0 = top;
            self.rows.clear();
            assert(self.shown() =~= Seq::<ShownRow>::empty());
        }
    }

    /// Reads the rows of a window of `need` rows. Rows that were read for
    /// this place and suffice are kept.
    #[verifier::rlimit(50)]
    pub fn fill_to(&mut self, need: usize)
        requires
            old(self).wf(),
        ensures
            window_filled(*old(self), *final(self), need),
    {
        self.refresh_tail();
        let ghost refreshed = *self;
        self.vh = if need == 0 {
            1
        } else {
            need
        };
        self.ensure_cursor_visible();
        let ghost mid = *self;
        proof {
            assert forall|c: Seq<u8>| #[trigger] old(self).shows(c) implies mid.in_step(c) by {
                assert(refreshed.in_step(c));
                assert(mid.covers(c, c.len() as int));
            }
        }
        if self.rows.len() >= need && self.rows.len() > 0 {
            proof {
                assert(self.shown().len() > 0);
                assert forall|c: Seq<u8>| #[trigger] old(self).shows(c) implies self.in_step(c)
                    && filled(c, *old(self), *self, need as nat) by {
                    assert(mid.in_step(c));
                }
            }
            return ;
        }
        self.rows.clear();
        assert(self.shown() =~= Seq::<ShownRow>::empty());
        let top: u64 = self.top_row0;
        let off: u64 = match self.index.row_offset(&mut self.src, top) {
            Some(o) => o,
            None => {
                self.at_end = true;
                proof {
                    assert forall|c: Seq<u8>| #[trigger] old(self).shows(c) implies self.in_step(c)
                        && filled(c, *old(self), *self, need as nat) by {
                        assert(mid.in_step(c));
                        assert(mid.src.holds(c) && mid.index.valid(c));
                        assert(c.is_prefix_of(c));
                        assert(self.covers(c, c.len() as int));
                    }
                }
                return ;
            },
        };
        let ghost at = *self;
        proof {
            assert forall|c: Seq<u8>| #[trigger] old(self).shows(c) implies at.in_step(c)
                && row_start(c, top as nat) == Some(off as int) by {
                assert(mid.in_step(c));
                assert(mid.src.holds(c) && mid.index.valid(c));
                assert(c.is_prefix_of(c));
                assert(c.take(c.len() as int) =~= c);
                assert(at.covers(c, c.len() as int));
            }
        }
        let maxb: usize = self.max_row_bytes;
        let enc = self.encoding;
        let mut lr = LineReader::new(off, maxb);
        let mut got: Vec<ViewRow> = Vec::new();
        let mut src_end: bool = false;
        while got.len() < need && !src_end
            invariant
                self.wf(),
                self.src.wf(),
                self.index == at.index,
                self.path == at.path,
                self.encoding == at.encoding,
                self.top_row0 == at.top_row0,
                self.cursor_row0 == at.cursor_row0,
                self.vh == at.vh,
                self.rows == at.rows,
                self.max_row_bytes == at.max_row_bytes,
                self.at_end == at.at_end,
                self.last_len == at.last_len,
                self.src.disk() == at.src.disk(),
                self.src.size() == at.src.size(),
                maxb == at.max_row_bytes,
                enc == at.encoding,
                lr.limit() == maxb,
                maxb > 0,
                got.len() <= need,
                src_end ==> lr.ended(),
                forall|c: Seq<u8>| #[trigger]
                    old(self).shows(c) ==> {
                        &&& at.in_step(c)
                        &&& same_file(at.src, self.src, c)
                        &&& rows_at(c, off as int, need as nat, maxb as int, enc) == shown_of(got@)
                            + if lr.ended() {
                            Seq::empty()
                        } else {
                            rows_at(
                                c,
                                lr.at() as int,
                                (need - got.len()) as nat,
                                maxb as int,
                                enc,
                            )
                        }
                        &&& rows_end(c, off as int, need as nat, maxb as int) == if lr.ended() {
                            lr.at() as int
                        } else {
                            rows_end(c, lr.at() as int, (need - got.len()) as nat, maxb as int)
                        }
                    },
            decreases
                need - got.len(),
                (if src_end {
                    0int
                } else {
                    1int
                }),
        {
            let ghost lr0 = lr;
            let ghost src0 = self.src;
            let ghost got0 = got@;
            match lr.next_row(&mut self.src) {
                Some((off2, bytes, trunc)) => {
                    let text = enc.decode(bytes.as_slice());
                    got.push(ViewRow { offset: off2, text, truncated: trunc });
                    assert(shown_of(got@) =~= shown_of(got0).push(got@.last()@));
                    proof {
                        assert forall|c: Seq<u8>| #[trigger] old(self).shows(c) implies {
                            &&& same_file(at.src, self.src, c)
                            &&& rows_at(c, off as int, need as nat, maxb as int, enc) == shown_of(
                                got@,
                            ) + if lr.ended() {
                                Seq::empty()
                            } else {
                                rows_at(
                                    c,
                                    lr.at() as int,
                                    (need - got.len()) as nat,
                                    maxb as int,
                                    enc,
                                )
                            }
                            &&& rows_end(c, off as int, need as nat, maxb as int) == if lr.ended() {
                                lr.at() as int
                            } else {
                                rows_end(c, lr.at() as int, (need - got.len()) as nat, maxb as int)
                            }
                        } by {
                            assert(src0.holds(c));
                            let rest = rows_at(
                                c,
                                lr0.at() as int,
                                (need - got0.len()) as nat,
                                maxb as int,
                                enc,
                            );
                            let tail = if lr.ended() {
                                Seq::empty()
                            } else {
                                rows_at(
                                    c,
                                    lr.at() as int,
                                    (need - got.len()) as nat,
                                    maxb as int,
                                    enc,
                                )
                            };
                            assert(rest == seq![got@.last()@] + tail);
                            assert(shown_of(got0) + rest =~= shown_of(got@) + tail);
                        }
                    }
                },
                None => {
                    src_end = true;
                    proof {
                        assert forall|c: Seq<u8>| #[trigger] old(self).shows(c) implies same_file(
                            at.src,
                            self.src,
                            c,
                        ) && (lr0.ended() || row_read(c, lr0, lr, None)) by {
                            assert(src0.holds(c));
                        }
                    }
                },
            }
        }
        self.at_end = got.len() < need || lr.pos() >= self.src.len();
        self.rows = got;
        proof {
            assert forall|c: Seq<u8>| #[trigger] old(self).shows(c) implies self.in_step(c)
                && filled(c, *old(self), *self, need as nat) by {
                assert(at.in_step(c));
                assert(self.covers(c, c.len() as int));
                assert(self.shown() =~= shown_of(got@));
            }
        }
    }
}

/// Whether the cursor was moved by `delta` rows, at most to the ends of the
/// file, and the window followed.
pub open spec fn moved<D: Fn(DiskRequest) -> DiskReply>(
    before: FileView<D>,
    after: FileView<D>,
    delta: i64,
) -> bool {
    &&& after.same_frame(before)
    &&& before.cursor_in_window() ==> after.cursor_in_window()
    &&& forall|c: Seq<u8>| #[trigger]
        before.shows(c) ==> {
            &&& after.in_step(c)
            &&& if delta == 0 || row_total(c) == 0 {
                after.same_place(before)
            } else {
                let to = cursor_target(row_total(c) as int, before.cursor(), delta);
                after.placed(
                    before,
                    followed(before.top(), to, before.height() as u64) as int,
                    to as int,
                )
            }
        }
}

/// Whether the window was scrolled by `delta` rows.
pub open spec fn window_scrolled<D: Fn(DiskRequest) -> DiskReply>(
    before: FileView<D>,
    after: FileView<D>,
    delta: i64,
) -> bool {
    &&& after.same_frame(before)
    &&& before.cursor_in_window() ==> after.cursor_in_window()
    &&& forall|c: Seq<u8>| #[trigger]
        before.shows(c) ==> after.in_step(c) && scrolled(
            c,
            before,
            after,
            delta,
        )
}

/// Whether the cursor was put on row `line1`, if there is one.
pub open spec fn went_to<D: Fn(DiskRequest) -> DiskReply>(
    before: FileView<D>,
    after: FileView<D>,
    line1: u64,
    r: bool,
) -> bool {
    &&& after.same_frame(before)
    &&& before.cursor_in_window() ==> after.cursor_in_window()
    &&& !r ==> after.same_place(before)
    &&& r ==> line1 >= 1 && after.placed(
        before,
        bottom_top(line1 - 1, (before.height() / 3) as int),
        line1 - 1,
    )
    &&& forall|c: Seq<u8>| #[trigger] before.shows(c) ==> after.shows(c)
    &&& forall|c: Seq<u8>, n: int|
        #![trigger before.covers(c, n)]
        before.shows(c) && before.covers(c, n) ==> (r <==> 1 <= line1 <= row_total(
            c.take(n),
        ))
    &&& forall|c: Seq<u8>| #[trigger]
        before.in_step(c) ==> after.in_step(c) && (r <==> 1 <= line1 <= row_total(
            c,
        ))
}

/// Whether the cursor was put on the first row.
pub open spec fn went_to_top<D: Fn(DiskRequest) -> DiskReply>(
    before: FileView<D>,
    after: FileView<D>,
) -> bool {
    &&& after.same_frame(before)
    &&& after.cursor_in_window()
    &&& after.placed(before, 0, 0)
    &&& after.still_seen(before)
}

/// Whether the cursor was put on the last row.
pub open spec fn went_to_bottom<D: Fn(DiskRequest) -> DiskReply>(
    before: FileView<D>,
    after: FileView<D>,
) -> bool {
    &&& after.same_frame(before)
    &&& after.cursor_in_window()
    &&& forall|c: Seq<u8>| #[trigger]
        before.shows(c) ==> {
            &&& after.in_step(c)
            &&& after.idx().done()
            &&& after.placed(
                before,
                bottom_top(row_total(c) as int, before.height() as int),
                if row_total(c) == 0 {
                    0
                } else {
                    row_total(c) - 1
                },
            )
        }
}

/// Whether the rows of a window of `need` rows were read.
pub open spec fn window_filled<D: Fn(DiskRequest) -> DiskReply>(
    before: FileView<D>,
    after: FileView<D>,
    need: usize,
) -> bool {
    &&& after.same_frame(before)
    &&& after.cursor_in_window()
    &&& after.cursor() == before.cursor()
    &&& after.height() == if need == 0 {
        1
    } else {
        need
    }
    &&& after.top() == followed(
        before.top(),
        before.cursor(),
        after.height() as u64,
    )
    &&& forall|c: Seq<u8>| #[trigger]
        before.shows(c) ==> after.in_step(c) && filled(
            c,
            before,
            after,
            need as nat,
        )
}

/// Whether window and cursor were put at these rows.
pub open spec fn put_at<D: Fn(DiskRequest) -> DiskReply>(
    before: FileView<D>,
    after: FileView<D>,
    top: u64,
    cursor: u64,
) -> bool {
    &&& after.same_frame(before)
    &&& after.still_seen(before)
    &&& after.placed(before, top as int, cursor as int)
}

/// Whether the index went on toward row `line1`, or toward the end of the
/// file, by at most `blocks` blocks of rows; `r` says whether it got there.
pub open spec fn went_toward<D: Fn(DiskRequest) -> DiskReply>(
    before: FileView<D>,
    after: FileView<D>,
    line1: Option<u64>,
    blocks: u64,
    r: bool,
) -> bool {
    &&& after.same_frame(before)
    &&& after.same_place(before)
    &&& r == (after.idx().done() || (line1 matches Some(l) && l <= after.idx().rows()
        && after.idx().rows() > 0))
    &&& forall|c: Seq<u8>| #[trigger]
        before.shows(c) ==> {
            &&& after.in_step(c)
            &&& r ==> if line1 is None {
                after.idx().rows() == row_total(c)
            } else {
                after.idx().done() || line1->0 <= after.idx().rows()
            }
            &&& !r ==> after.idx().rows() >= before.idx().rows() + blocks
            &&& after.idx().rows() <= before.idx().rows() + blocks * before.idx().step()
        }
}

/// Whether the file was looked at again; `r` is its latest length.
pub open spec fn polled<D: Fn(DiskRequest) -> DiskReply>(
    before: FileView<D>,
    after: FileView<D>,
    r: u64,
) -> bool {
    &&& after.same_frame(before)
    &&& after.same_place(before)
    &&& r == after.source().known_len()
    &&& forall|c: Seq<u8>| #[trigger] before.shows(c) ==> r == c.len() && after.in_step(c)
}

/// Whether only the disk was exchanged.
pub open spec fn disk_renewed<D: Fn(DiskRequest) -> DiskReply>(
    before: FileView<D>,
    after: FileView<D>,
    disk: D,
) -> bool {
    &&& after.wf()
    &&& after.source().disk() == disk
    &&& after.source().cached() == before.source().cached()
    &&& after.source().size() == before.source().size()
    &&& after.source().known_len() == before.source().known_len()
    &&& after.idx() == before.idx()
    &&& after.seen_len() == before.seen_len()
    &&& after.name() == before.name()
    &&& after.enc() == before.enc()
    &&& after.row_limit() == before.row_limit()
    &&& after.same_place(before)
}

/// The text rows as plain values.
pub open spec fn shown_of(rows: Seq<ViewRow>) -> Seq<ShownRow> {
    rows.map_values(|r: ViewRow| r@)
}

/// The start of the file that a reply to a question for it holds.
pub open spec fn head_of(reply: DiskReply) -> Seq<u8> {
    match reply {
        DiskReply::Bytes(b) => if b@.len() <= HEAD_BYTES {
            b@
        } else {
            b@.take(HEAD_BYTES as int)
        },
        _ => Seq::empty(),
    }
}

/// A view that knows the same of a file is a view of the same content.
proof fn lemma_still_seen<D: Fn(DiskRequest) -> DiskReply>(before: FileView<D>, after: FileView<D>)
    requires
        after.same_file_seen(before),
    ensures
        after.still_seen(before),
{
    assert forall|c: Seq<u8>| #[trigger] before.shows(c) implies after.shows(c) by {
        let n = choose|n: int| before.covers(c, n);
        assert(after.covers(c, n));
    }
    assert forall|c: Seq<u8>| #[trigger] before.in_step(c) implies after.in_step(c) by {
        assert(before.shows(c));
    }
}

/// What opening a view gives: a view of the first rows with the encoding that
/// the start of the file shows, or the disk's error.
pub open spec fn view_opened<D: Fn(DiskRequest) -> DiskReply>(
    disk: D,
    path: Seq<char>,
    max_row: usize,
    r: Result<FileView<D>, String>,
) -> bool {
    &&& exists|reply: DiskReply|
        {
            &&& #[trigger] call_ensures(disk, (DiskRequest::Len,), reply)
            &&& match reply {
                DiskReply::Len(n) => r matches Ok(v) && v.seen_len() == n
                    && v.source().known_len() == n,
                DiskReply::Bytes(_) => r matches Err(m) && m@.len() == 0,
                DiskReply::Failed(_, e) => r matches Err(m) && m@ == e@,
            }
        }
    &&& exists|reply: DiskReply|
        {
            &&& #[trigger] call_ensures(
                disk,
                (DiskRequest::Read { start: 0, want: HEAD_BYTES },),
                reply,
            )
            &&& r matches Ok(v) ==> v.enc() == encoding_of(head_of(reply))
        }
    &&& r matches Ok(v) ==> {
        &&& v.wf()
        &&& v.source().disk() == disk
        &&& v.source().size() == DEFAULT_CHUNK_SIZE
        &&& v.name() == path
        &&& v.top() == 0
        &&& v.cursor() == 0
        &&& v.height() == DEFAULT_HEIGHT
        &&& v.shown() == Seq::<ShownRow>::empty()
        &&& v.row_limit() == if max_row < MIN_ROW_BYTES {
            MIN_ROW_BYTES
        } else {
            max_row
        }
        &&& !v.bottom()
        &&& v.idx().fresh(DEFAULT_INTERVAL)
    }
    &&& forall|c: Seq<u8>| #[trigger]
        disk_holds(disk, c) ==> (r matches Ok(v) && v.in_step(c) && v.enc() == encoding_of(
            bytes_at(c, 0, HEAD_BYTES as int),
        ))
}

/// Where the cursor goes: `delta` rows on, at most to the last row.
pub open spec fn cursor_target(total: int, cursor: u64, delta: i64) -> u64 {
    if shifted(cursor, delta) < total {
        shifted(cursor, delta)
    } else {
        (total - 1) as u64
    }
}

/// What scrolling the window by `delta` rows leaves.
pub open spec fn scrolled<D: Fn(DiskRequest) -> DiskReply>(
    c: Seq<u8>,
    before: FileView<D>,
    after: FileView<D>,
    delta: i64,
) -> bool {
    let total = row_total(c) as int;
    let height = before.height() as u64;
    let top = shifted(before.top(), delta);
    let end_known = before.idx().done() && before.seen_len() == c.len();
    if delta == 0 || total == 0 || (delta > 0 && end_known && before.cursor() + 1 >= total) {
        after.same_place(before)
    } else if top < total {
        let kept = inside(shifted(before.cursor(), delta), top, height) as int;
        after.placed(
            before,
            top as int,
            if kept < total {
                kept
            } else {
                total - 1
            },
        )
    } else {
        after.placed(before, bottom_top(total, height as int), total - 1)
    }
}

/// Whether a view shows the rows from its top on, at most `need` of them, as
/// many as there are.
pub open spec fn window_read<D: Fn(DiskRequest) -> DiskReply>(
    c: Seq<u8>,
    v: FileView<D>,
    need: nat,
) -> bool {
    match row_start(c, v.top() as nat) {
        None => {
            &&& v.shown() == Seq::<ShownRow>::empty()
            &&& v.bottom()
        },
        Some(p) => {
            let max = v.row_limit() as int;
            &&& v.shown() == rows_at(c, p, need, max, v.enc())
            &&& v.bottom() == (v.shown().len() < need || rows_end(c, p, need, max) >= c.len())
        },
    }
}

/// What filling a window of `need` rows leaves: the rows that were read for
/// this place if they suffice, else the rows from the top on.
pub open spec fn filled<D: Fn(DiskRequest) -> DiskReply>(
    c: Seq<u8>,
    before: FileView<D>,
    after: FileView<D>,
    need: nat,
) -> bool {
    if after.top() == before.top() && before.shown().len() >= need && before.shown().len() > 0 {
        &&& after.shown() == before.shown()
        &&& after.bottom() == before.bottom()
    } else {
        window_read(c, after, need)
    }
}

/// The text of row `line1`, counted from 1.
pub open spec fn line_text(c: Seq<u8>, line1: int, max: int, enc: Encoding) -> Seq<char> {
    text_of(enc, row_at(c, row_start(c, (line1 - 1) as nat)->0, max)->0.bytes)
}

/// A view of a file agrees with the file's content also when the file has
/// grown since.
pub proof fn law_view_survives_growth<D: Fn(DiskRequest) -> DiskReply>(
    v: FileView<D>,
    before: Seq<u8>,
    after: Seq<u8>,
)
    requires
        v.wf(),
        v.agrees(before),
        before.is_prefix_of(after),
    ensures
        v.agrees(after),
{
    law_cache_survives_growth(v.source(), before, after);
    let n = choose|n: int| v.covers(before, n);
    assert(after.take(n) =~= before.take(n));
    if v.idx().done() {
        assert(v.covers(after, n));
    } else {
        assert(before.take(n) =~= before);
        assert(after.take(after.len() as int) =~= after);
        lemma_marks_survive_growth(v.idx(), v.idx(), before, after);
        assert(v.covers(after, after.len() as int));
    }
}

/// A file that has grown is seen as it is: a view that goes on with the disk
/// that holds the longer content is a view of that content, and what it reads
/// from then on is of that content.
pub proof fn law_growth_is_seen<D: Fn(DiskRequest) -> DiskReply>(
    earlier: FileView<D>,
    v: FileView<D>,
    disk: D,
    before: Seq<u8>,
    after: Seq<u8>,
)
    requires
        earlier.wf(),
        earlier.shows(before),
        before.is_prefix_of(after),
        disk_renewed(earlier, v, disk),
        disk_holds(disk, after),
    ensures
        v.shows(after),
{
    law_view_survives_growth(earlier, before, after);
    let n = choose|n: int| earlier.covers(after, n);
    assert(v.covers(after, n));
}

/// A window that starts at row `top` shows the file's rows from there on: as
/// many as fit, each one from the start of its row. What is read ends where
/// the next row starts, or at the end of the file.
pub proof fn law_window_shows_the_rows(c: Seq<u8>, top: nat, n: nat, max: int, enc: Encoding)
    requires
        top < row_total(c),
        c.len() <= u64::MAX,
        max > 0,
    ensures
        rows_at(c, row_start(c, top)->0, n, max, enc).len() == if top + n <= row_total(c) {
            n as int
        } else {
            row_total(c) - top
        },
        forall|k: int|
            0 <= k < rows_at(c, row_start(c, top)->0, n, max, enc).len() ==> {
                let row = #[trigger] rows_at(c, row_start(c, top)->0, n, max, enc)[k];
                &&& row_start(c, (top + k) as nat) == Some(row.offset as int)
                &&& row.text == line_text(c, top + k + 1, max, enc)
            },
        rows_end(c, row_start(c, top)->0, n, max) == match row_start(c, top + n) {
            Some(p) => p,
            None => c.len() as int,
        },
    decreases n,
{
    law_row_start_of_each_row(c, top);
    if n > 0 {
        let p = row_start(c, top)->0;
        let all = rows_at(c, p, n, max, enc);
        law_rows_follow_each_other(c, top, max);
        law_row_start_of_each_row(c, top + 1);
        lemma_find_nl(c, p);
        let row = row_at(c, p, max)->0;
        assert(row_start(c, (top + 0) as nat) == Some(p));
        if top + 1 < row_total(c) {
            law_window_shows_the_rows(c, top + 1, (n - 1) as nat, max, enc);
            let rest = rows_at(c, row.next, (n - 1) as nat, max, enc);
            assert(row.ended);
            assert(all[0].offset == p);
            assert(forall|k: int| 1 <= k < all.len() ==> all[k] == #[trigger] rest[k - 1]);
            assert forall|k: int| 0 <= k < all.len() implies ({
                let r = #[trigger] all[k];
                &&& row_start(c, (top + k) as nat) == Some(r.offset as int)
                &&& r.text == line_text(c, top + k + 1, max, enc)
            }) by {
                if k > 0 {
                    assert(all[k] == rest[k - 1]);
                    assert((top + 1 + (k - 1)) as nat == (top + k) as nat);
                }
            }
            assert(top + 1 + (n - 1) as nat == top + n);
        } else {
            law_row_start_of_each_row(c, top + n);
            assert(row.next == c.len());
            if row.ended {
                lemma_find_nl(c, row.next);
                assert(rows_at(c, row.next, (n - 1) as nat, max, enc) =~= Seq::empty());
                assert(rows_end(c, row.next, (n - 1) as nat, max) == row.next);
            }
            assert(all =~= seq![all[0]]);
        }
    }
}

/// At the bottom of the file the window ends with the last row.
pub proof fn law_bottom_window_ends_with_the_last_row(
    c: Seq<u8>,
    height: nat,
    max: int,
    enc: Encoding,
)
    requires
        row_total(c) > 0,
        height > 0,
        c.len() <= u64::MAX,
        max > 0,
    ensures
        ({
            let top = bottom_top(row_total(c) as int, height as int) as nat;
            let rows = rows_at(c, row_start(c, top)->0, height, max, enc);
            &&& rows.len() > 0
            &&& top + rows.len() == row_total(c)
            &&& row_start(c, (row_total(c) - 1) as nat) == Some(rows.last().offset as int)
            &&& rows_end(c, row_start(c, top)->0, height, max) == c.len()
        }),
{
    let top = bottom_top(row_total(c) as int, height as int) as nat;
    law_window_shows_the_rows(c, top, height, max, enc);
    law_row_start_of_each_row(c, top + height);
    let rows = rows_at(c, row_start(c, top)->0, height, max, enc);
    assert(rows[rows.len() - 1] == rows.last());
}

/// Moving the cursor by some rows and back by as many puts it where it was,
/// unless an end of the file stopped it.
pub proof fn law_moving_back_returns(total: int, cursor: u64, delta: i64)
    requires
        0 <= cursor < total <= u64::MAX,
        0 <= cursor + delta < total,
        delta > i64::MIN,
    ensures
        cursor_target(total, cursor_target(total, cursor, delta), (-delta) as i64) == cursor,
{
}

/// The cursor stays in the file: a cursor on a row of the file is on a row of
/// the file also after moving it, and after scrolling the window.
pub proof fn law_cursor_stays_in_the_file<D: Fn(DiskRequest) -> DiskReply>(
    before: FileView<D>,
    after: FileView<D>,
    delta: i64,
    c: Seq<u8>,
)
    requires
        before.wf(),
        before.shows(c),
        before.cursor() < row_total(c),
        moved(before, after, delta) || window_scrolled(before, after, delta),
    ensures
        after.cursor() < row_total(c),
{
}

} // verus!
