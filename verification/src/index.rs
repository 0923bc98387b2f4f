//! Sparse line index: the line starts that a jump to a line number needs.
//!
//! Every `interval` rows the index keeps the start of a row. It is a lazy
//! prefix: it covers the rows up to the highest one that was asked for, so
//! that a file of many gigabytes is never indexed as a whole.
use vstd::prelude::*;
use crate::file::{same_file, DiskReply, DiskRequest, FileSource};
use crate::lines::{
    advance_nl, find_nl, law_skip_composes, law_skip_survives_growth, lemma_rows_after_skip,
    lemma_skip_bounds, row_at, row_read, row_start, row_total, skip_lines, LineReader,
};

verus! {

pub const DEFAULT_INTERVAL: u64 = 1024;

/// The bytes of a row that counting it needs to keep.
const PROBE_BYTES: usize = 64;

pub struct LineIndex {
    interval: u64,
    /// `checkpoints[k]` is the start of row `k * interval`.
    checkpoints: Vec<u64>,
    /// The rows whose starts are known.
    parsed_rows: u64,
    /// The start of the next row to parse; the start of the last row while
    /// `open_row` holds.
    scan_off: u64,
    at_eof: bool,
    /// The last row counted had no newline when it was counted.
    open_row: bool,
}

impl LineIndex {
    /// The rows between two kept line starts.
    pub closed spec fn step(&self) -> u64 {
        self.interval
    }

    /// The kept line starts.
    pub closed spec fn marks(&self) -> Seq<u64> {
        self.checkpoints@
    }

    /// The rows counted so far.
    pub closed spec fn rows(&self) -> u64 {
        self.parsed_rows
    }

    /// Whether the end of the file was reached.
    pub closed spec fn done(&self) -> bool {
        self.at_eof
    }

    /// Whether the last row counted had no newline when it was counted.
    pub closed spec fn open_last(&self) -> bool {
        self.open_row
    }

    /// Where the rows that are known to end in a newline end.
    pub closed spec fn reach(&self) -> u64 {
        self.scan_off
    }

    /// The rows counted that are known to end in a newline.
    pub open spec fn full(&self) -> int {
        if self.open_last() {
            self.rows() - 1
        } else {
            self.rows() as int
        }
    }

    pub open spec fn wf(&self) -> bool {
        &&& self.step() >= 1
        &&& self.open_last() ==> self.rows() > 0
        &&& self.reach() >= self.full()
        &&& self.marks().len() == self.full() / (self.step() as int) + 1
    }

    /// Whether the index is right for a file with this content.
    pub open spec fn valid(&self, c: Seq<u8>) -> bool {
        &&& forall|k: int|
            0 <= k < self.marks().len() ==> skip_lines(c, 0, (k * self.step()) as nat) == Some(
                (#[trigger] self.marks()[k]) as int,
            )
        &&& skip_lines(c, 0, self.full() as nat) == Some(self.reach() as int)
        &&& self.open_last() ==> self.reach() < c.len()
        &&& self.done() ==> if self.open_last() {
            find_nl(c, self.reach() as int) is None
        } else {
            self.reach() == c.len()
        }
    }

    pub fn new() -> (r: Self)
        ensures
            r.wf(),
            r.fresh(DEFAULT_INTERVAL),
            forall|c: Seq<u8>| #[trigger] r.valid(c),
    {
        Self::with_interval(DEFAULT_INTERVAL)
    }

    /// An index that has seen nothing yet.
    pub open spec fn fresh(&self, interval: u64) -> bool {
        &&& self.step() == interval
        &&& self.marks() == seq![0u64]
        &&& self.rows() == 0
        &&& self.reach() == 0
        &&& !self.done()
        &&& !self.open_last()
    }

    pub fn with_interval(interval: u64) -> (r: Self)
        ensures
            r.wf(),
            r.fresh(
                if interval == 0 {
                    1
                } else {
                    interval
                },
            ),
            forall|c: Seq<u8>| #[trigger] r.valid(c),
    {
        let mut checkpoints: Vec<u64> = Vec::new();
        checkpoints.push(0);
        let r = LineIndex {
            interval: if interval == 0 {
                1
            } else {
                interval
            },
            checkpoints,
            parsed_rows: 0,
            scan_off: 0,
            at_eof: false,
            open_row: false,
        };
        assert(r.marks() =~= seq![0u64]);
        assert(0 * r.step() == 0) by (nonlinear_arith);
        assert(0int / (r.step() as int) == 0) by (nonlinear_arith)
            requires
                r.step() >= 1,
        ;
        assert forall|c: Seq<u8>| #[trigger] r.valid(c) by {
            assert forall|k: int| 0 <= k < r.marks().len() implies skip_lines(
                c,
                0,
                (k * r.step()) as nat,
            ) == Some((#[trigger] r.marks()[k]) as int) by {
                assert(k == 0);
            }
        }
        r
    }

    pub fn parsed_rows(&self) -> (r: u64)
        ensures
            r == self.rows(),
    {
        self.parsed_rows
    }

    pub fn at_eof(&self) -> (r: bool)
        ensures
            r == self.done(),
    {
        self.at_eof
    }

    /// To be called when the file has grown: the index can go on from where it
    /// stopped, and keeps the rows that it has counted. A last row without a
    /// newline may go on in what was added; it is still one row.
    pub fn invalidate_eof(&mut self)
        requires
            old(self).wf(),
        ensures
            final(self).wf(),
            !final(self).done(),
            final(self).rows() == old(self).rows(),
            final(self).open_last() == old(self).open_last(),
            final(self).step() == old(self).step(),
            final(self).marks() == old(self).marks(),
            final(self).reach() == old(self).reach(),
            forall|c: Seq<u8>, d: Seq<u8>|
                #![trigger old(self).valid(c), final(self).valid(d)]
                old(self).valid(c) && c.is_prefix_of(d) ==> final(self).valid(d),
    {
        self.at_eof = false;
        proof {
            assert forall|c: Seq<u8>, d: Seq<u8>|
                #![trigger old(self).valid(c), self.valid(d)]
                old(self).valid(c) && c.is_prefix_of(d) implies self.valid(d) by {
                lemma_marks_survive_growth(*old(self), *self, c, d);
            }
        }
    }

    /// The start of row `row0`, counted from 0; `None` past the end of the
    /// file. An index that has reached the end of the file answers for the
    /// content that it saw, also when the file has grown since.
    pub fn row_offset<D: Fn(DiskRequest) -> DiskReply>(
        &mut self,
        src: &mut FileSource<D>,
        row0: u64,
    ) -> (r: Option<u64>)
        requires
            old(self).wf(),
            old(src).wf(),
        ensures
            final(self).wf(),
            final(src).wf(),
            final(src).disk() == old(src).disk(),
            final(src).size() == old(src).size(),
            final(self).step() == old(self).step(),
            old(self).done() ==> *final(self) == *old(self),
            r is Some ==> row0 < final(self).rows(),
            forall|c: Seq<u8>, seen: Seq<u8>|
                #![trigger old(src).holds(c), old(self).valid(seen)]
                old(src).holds(c) && old(self).valid(seen) && seen.is_prefix_of(c) && (old(self).done() || seen == c) ==> {
                    &&& same_file(*old(src), *final(src), c)
                    &&& final(self).valid(seen)
                    &&& match r {
                        Some(p) => row_start(seen, row0 as nat) == Some(p as int),
                        None => row_start(seen, row0 as nat) is None,
                    }
                    &&& extended(seen, *old(self), *final(self), Some(row0))
                },
    {
        if row0 >= self.parsed_rows {
            self.extend(src, Some(row0));
        }
        proof {
            assert forall|c: Seq<u8>, seen: Seq<u8>|
                #![trigger old(src).holds(c), old(self).valid(seen)]
                old(src).holds(c) && old(self).valid(seen) && seen.is_prefix_of(c) && (old(self).done() || seen == c) implies same_file(*old(src), *src, c) && self.valid(seen)
                && extended(seen, *old(self), *self, Some(row0)) && (row0 < self.parsed_rows
                <==> row0 < row_total(seen)) by {
                lemma_rows_after_skip(seen, 0, self.full() as nat);
                lemma_skip_bounds(seen, 0, self.full() as nat);
                lemma_rows_after_skip(seen, 0, old(self).full() as nat);
                lemma_skip_bounds(seen, 0, old(self).full() as nat);
            }
        }
        if row0 >= self.parsed_rows {
            return None;
        }
        let ck: u64 = row0 / self.interval;
        let step: u64 = row0 % self.interval;
        proof {
            assert(ck <= self.full() / (self.interval as int)) by (nonlinear_arith)
                requires
                    ck == row0 / self.interval,
                    row0 <= self.full(),
                    self.interval > 0,
            ;
            assert(ck * self.interval + step == row0) by (nonlinear_arith)
                requires
                    ck == row0 / self.interval,
                    step == row0 % self.interval,
                    self.interval > 0,
            ;
        }
        let marks: usize = self.checkpoints.len();
        assert(ck < marks);
        let base: u64 = self.checkpoints[ck as usize];
        let ghost src1 = *src;
        let r = advance_nl(src, base, step);
        proof {
            assert forall|c: Seq<u8>, seen: Seq<u8>|
                #![trigger old(src).holds(c), old(self).valid(seen)]
                old(src).holds(c) && old(self).valid(seen) && seen.is_prefix_of(c) && (old(self).done() || seen == c) implies (match r {
                Some(p) => skip_lines(seen, 0, row0 as nat) == Some(p as int),
                None => skip_lines(seen, 0, row0 as nat) is None,
            }) && same_file(*old(src), *src, c) by {
                assert(src1.holds(c));
                assert(self.valid(seen));
                let mark = (ck * self.interval) as nat;
                assert(self.marks()[ck as int] == base);
                assert(skip_lines(seen, 0, mark) == Some(base as int));
                law_skip_composes(seen, 0, mark, step as nat);
                assert(mark + step as nat == row0 as nat);
                lemma_skip_bounds(seen, 0, mark);
                lemma_rows_after_skip(seen, 0, row0 as nat);
                assert(skip_lines(seen, base as int, step as nat) is Some);
                law_skip_survives_growth(seen, c, base as int, step as nat);
            }
        }
        r
    }

    /// Goes on toward row `row0`, or toward the end of the file, by at most
    /// `blocks` blocks of rows. Returns whether it got there.
    pub fn extend_toward<D: Fn(DiskRequest) -> DiskReply>(
        &mut self,
        src: &mut FileSource<D>,
        row0: Option<u64>,
        blocks: u64,
    ) -> (r: bool)
        requires
            old(self).wf(),
            old(src).wf(),
        ensures
            final(self).wf(),
            final(src).wf(),
            final(src).disk() == old(src).disk(),
            final(src).size() == old(src).size(),
            final(self).step() == old(self).step(),
            old(self).done() ==> *final(self) == *old(self) && *final(src) == *old(src),
            r == (final(self).done() || (row0 matches Some(u) && u < final(self).rows())),
            forall|c: Seq<u8>|
                #![trigger old(src).holds(c)]
                old(src).holds(c) && old(self).valid(c) ==> {
                    &&& same_file(*old(src), *final(src), c)
                    &&& final(self).valid(c)
                    &&& on_the_way(c, *old(self), *final(self), row0)
                    &&& !r ==> final(self).rows() >= old(self).rows() + blocks
                    &&& final(self).rows() <= old(self).rows() + blocks * old(self).step()
                },
    {
        let mut left: u64 = blocks;
        while left > 0
            invariant
                self.wf(),
                src.wf(),
                src.disk() == old(src).disk(),
                src.size() == old(src).size(),
                self.step() == old(self).step(),
                left <= blocks,
                old(self).done() ==> *self == *old(self) && *src == *old(src),
                forall|c: Seq<u8>|
                    #![trigger old(src).holds(c)]
                    old(src).holds(c) && old(self).valid(c) ==> {
                        &&& same_file(*old(src), *src, c)
                        &&& self.valid(c)
                        &&& on_the_way(c, *old(self), *self, row0)
                        &&& self.done() || self.rows() >= old(self).rows() + (blocks - left)
                        &&& self.rows() <= old(self).rows() + (blocks - left) * old(self).step()
                    },
            decreases left,
        {
            proof {
                lemma_blocks(left as int, blocks as int, self.interval as int);
            }
            if self.at_eof {
                return true;
            }
            let cur: u64 = self.parsed_rows;
            if let Some(u) = row0 {
                if cur > u {
                    return true;
                }
            }
            let gap: u64 = self.interval - 1 - cur % self.interval;
            let mut stop: u64 = if cur <= u64::MAX - gap {
                cur + gap
            } else {
                u64::MAX
            };
            if let Some(u) = row0 {
                if u < stop {
                    stop = u;
                }
            }
            let ghost src0 = *src;
            let ghost me = *self;
            self.extend(src, Some(stop));
            proof {
                assert forall|c: Seq<u8>| #[trigger]
                    old(src).holds(c) && old(self).valid(c) implies same_file(*old(src), *src, c)
                    && self.valid(c) && on_the_way(c, *old(self), *self, row0) && (self.done()
                    || self.rows() >= me.rows() + 1) && self.rows() <= me.rows() + me.step() by {
                    assert(src0.holds(c));
                    assert(me.valid(c));
                    lemma_toward(c, me, *self, stop, row0);
                }
            }
            left -= 1;
        }
        let done: bool = self.at_eof;
        done || match row0 {
            Some(u) => u < self.parsed_rows,
            None => false,
        }
    }

    /// The kept line starts.
    pub fn checkpoints(&self) -> (r: &[u64])
        ensures
            r@ == self.marks(),
    {
        self.checkpoints.as_slice()
    }

    /// Goes on to the end of the file, so that the number of rows is known.
    pub fn extend_to_eof<D: Fn(DiskRequest) -> DiskReply>(&mut self, src: &mut FileSource<D>)
        requires
            old(self).wf(),
            old(src).wf(),
        ensures
            final(self).wf(),
            final(src).wf(),
            final(src).disk() == old(src).disk(),
            final(src).size() == old(src).size(),
            final(self).step() == old(self).step(),
            final(self).done(),
            forall|c: Seq<u8>|
                #![trigger old(src).holds(c)]
                old(src).holds(c) && old(self).valid(c) ==> {
                    &&& same_file(*old(src), *final(src), c)
                    &&& final(self).valid(c)
                    &&& final(self).rows() == row_total(c)
                },
    {
        self.extend(src, None);
    }

    /// Extends the index until it covers row `up_to`, or to the end of the
    /// file. A last row that had no newline is counted anew with the rows
    /// after it.
    fn extend<D: Fn(DiskRequest) -> DiskReply>(
        &mut self,
        src: &mut FileSource<D>,
        up_to: Option<u64>,
    )
        requires
            old(self).wf(),
            old(src).wf(),
        ensures
            final(self).wf(),
            final(src).wf(),
            final(src).disk() == old(src).disk(),
            final(src).size() == old(src).size(),
            final(self).step() == old(self).step(),
            up_to is None ==> final(self).done(),
            old(self).done() ==> *final(self) == *old(self) && *final(src) == *old(src),
            forall|c: Seq<u8>|
                #![trigger old(src).holds(c)]
                old(src).holds(c) && old(self).valid(c) ==> {
                    &&& same_file(*old(src), *final(src), c)
                    &&& final(self).valid(c)
                    &&& extended(c, *old(self), *final(self), up_to)
                },
    {
        if self.at_eof {
            proof {
                assert forall|c: Seq<u8>| #[trigger]
                    old(src).holds(c) && old(self).valid(c) implies extended(
                    c,
                    *old(self),
                    *self,
                    up_to,
                ) by {
                    lemma_rows_of_done(*self, c);
                }
            }
            return ;
        }
        if let Some(u) = up_to {
            if u < self.parsed_rows {
                return ;
            }
        }
        if self.open_row {
            self.parsed_rows -= 1;
            self.open_row = false;
        }
        let ghost start = *self;
        assert forall|c: Seq<u8>| #[trigger] old(self).valid(c) implies start.valid(c) by {
            assert(start.marks() == old(self).marks());
        }
        self.count_on(src, up_to);
        proof {
            assert forall|c: Seq<u8>| #[trigger]
                old(src).holds(c) && old(self).valid(c) implies same_file(*old(src), *src, c)
                && self.valid(c) && extended(c, *old(self), *self, up_to) by {
                assert(start.valid(c));
            }
        }
    }

    /// Counts the rows that follow those that end in a newline, until row
    /// `up_to` is counted, or to the end of the file.
    #[verifier::rlimit(60)]
    fn count_on<D: Fn(DiskRequest) -> DiskReply>(
        &mut self,
        src: &mut FileSource<D>,
        up_to: Option<u64>,
    )
        requires
            old(self).wf(),
            !old(self).done(),
            !old(self).open_last(),
            old(src).wf(),
        ensures
            final(self).wf(),
            final(src).wf(),
            final(src).disk() == old(src).disk(),
            final(src).size() == old(src).size(),
            final(self).step() == old(self).step(),
            up_to is None ==> final(self).done(),
            forall|c: Seq<u8>|
                #![trigger old(src).holds(c)]
                old(src).holds(c) && old(self).valid(c) ==> {
                    &&& same_file(*old(src), *final(src), c)
                    &&& final(self).valid(c)
                    &&& extended(c, *old(self), *final(self), up_to)
                },
    {
        while !self.at_eof
            invariant
                self.wf(),
                self.open_row ==> self.at_eof,
                src.wf(),
                src.disk() == old(src).disk(),
                src.size() == old(src).size(),
                self.step() == old(self).step(),
                forall|c: Seq<u8>|
                    #![trigger old(src).holds(c)]
                    old(src).holds(c) && old(self).valid(c) ==> {
                        &&& same_file(*old(src), *src, c)
                        &&& self.valid(c)
                        &&& on_the_way(c, *old(self), *self, up_to)
                    },
            decreases
                (if self.at_eof {
                    0int
                } else {
                    1int
                }),
                u64::MAX - self.parsed_rows,
        {
            let cur: u64 = self.parsed_rows;
            if let Some(u) = up_to {
                if cur > u {
                    proof {
                        assert forall|c: Seq<u8>| #[trigger]
                            old(src).holds(c) && old(self).valid(c) implies extended(
                            c,
                            *old(self),
                            *self,
                            up_to,
                        ) by {
                            lemma_rows_after_skip(c, 0, self.full() as nat);
                            lemma_skip_bounds(c, 0, self.full() as nat);
                            if cur as int != u + 1 {
                            }
                        }
                    }
                    return ;
                }
            }
            let gap: u64 = self.interval - 1 - cur % self.interval;
            let mut stop: u64 = if cur <= u64::MAX - gap {
                cur + gap
            } else {
                u64::MAX
            };
            if let Some(u) = up_to {
                if u < stop {
                    stop = u;
                }
            }
            let need: u64 = stop - cur + 1;
            let ghost src0 = *src;
            let ghost me = *self;
            match advance_nl(src, self.scan_off, need) {
                Some(new_off) => {
                    self.parsed_rows = stop + 1;
                    self.scan_off = new_off;
                    if self.parsed_rows % self.interval == 0 {
                        self.checkpoints.push(new_off);
                    }
                    proof {
                        lemma_marks_len(me.full(), self.full(), self.interval as int);
                        assert forall|c: Seq<u8>| #[trigger]
                            old(src).holds(c) && old(self).valid(c) implies self.valid(c)
                            && same_file(*old(src), *src, c) by {
                            assert(src0.holds(c));
                            assert(me.valid(c));
                            law_skip_composes(c, 0, me.full() as nat, need as nat);
                            lemma_skip_bounds(c, 0, me.full() as nat);
                            lemma_marks_step(me, *self, c);
                        }
                    }
                },
                None => {
                    let ghost src1 = *src;
                    self.finish_rows(src);
                    proof {
                        assert forall|c: Seq<u8>| #[trigger]
                            old(src).holds(c) && old(self).valid(c) implies self.valid(c)
                            && same_file(*old(src), *src, c) && on_the_way(c, *old(self), *self, up_to) by {
                            assert(src0.holds(c));
                            assert(src1.holds(c));
                            assert(me.valid(c));
                            law_skip_composes(c, 0, me.full() as nat, need as nat);
                            lemma_skip_bounds(c, 0, me.full() as nat);
                            lemma_finished(c, me, *self, stop, up_to);
                        }
                    }
                },
            }
        }
        proof {
            assert forall|c: Seq<u8>| #[trigger]
                old(src).holds(c) && old(self).valid(c) implies extended(
                c,
                *old(self),
                *self,
                up_to,
            ) by {
                lemma_skip_bounds(c, 0, self.full() as nat);
                lemma_rows_after_skip(c, 0, self.full() as nat);
                let n = old(self).full() as nat;
                if let Some(u) = up_to {
                    if u < n {
                        law_skip_composes(c, 0, (u + 1) as nat, (n - u - 1) as nat);
                        assert((u + 1) as nat + (n - u - 1) as nat == n);
                    }
                }
            }
        }
    }

    /// Counts the rows that are left, one by one, to the end of the file.
    fn finish_rows<D: Fn(DiskRequest) -> DiskReply>(&mut self, src: &mut FileSource<D>)
        requires
            old(self).wf(),
            !old(self).done(),
            !old(self).open_last(),
            old(src).wf(),
        ensures
            final(self).wf(),
            final(src).wf(),
            final(src).disk() == old(src).disk(),
            final(src).size() == old(src).size(),
            final(self).step() == old(self).step(),
            final(self).done(),
            forall|c: Seq<u8>|
                #![trigger old(src).holds(c)]
                old(src).holds(c) && old(self).valid(c) ==> {
                    &&& same_file(*old(src), *final(src), c)
                    &&& final(self).valid(c)
                },
    {
        let mut lr = LineReader::new(self.scan_off, PROBE_BYTES);
        loop
            invariant
                self.wf(),
                !self.open_row,
                !self.at_eof,
                src.wf(),
                src.disk() == old(src).disk(),
                src.size() == old(src).size(),
                self.step() == old(self).step(),
                lr.at() == self.scan_off,
                !lr.ended(),
                lr.limit() == PROBE_BYTES,
                forall|c: Seq<u8>|
                    #![trigger old(src).holds(c)]
                    old(src).holds(c) && old(self).valid(c) ==> same_file(*old(src), *src, c) && self.valid(c),
            decreases u64::MAX - self.scan_off,
        {
            let ghost src0 = *src;
            let ghost lr0 = lr;
            let ghost me = *self;
            let row = lr.next_row(src);
            proof {
                assert forall|c: Seq<u8>| #[trigger]
                    old(src).holds(c) && old(self).valid(c) implies same_file(*old(src), *src, c) && row_read(
                    c,
                    lr0,
                    lr,
                    row,
                ) && me.valid(c) by {
                    assert(src0.holds(c));
                }
            }
            if row.is_none() {
                self.at_eof = true;
                proof {
                    assert forall|c: Seq<u8>| #[trigger]
                        old(src).holds(c) && old(self).valid(c) implies self.valid(c) by {
                        assert(me.valid(c));
                        lemma_skip_bounds(c, 0, me.full() as nat);
                    }
                }
                return ;
            }
            self.parsed_rows += 1;
            if lr.at_eof() {
                self.open_row = true;
                self.at_eof = true;
                proof {
                    assert forall|c: Seq<u8>| #[trigger]
                        old(src).holds(c) && old(self).valid(c) implies self.valid(c) by {
                        assert(me.valid(c));
                    }
                }
                return ;
            }
            self.scan_off = lr.pos();
            if self.parsed_rows % self.interval == 0 {
                self.checkpoints.push(self.scan_off);
            }
            proof {
                lemma_marks_len(me.full(), self.full(), self.interval as int);
                assert forall|c: Seq<u8>| #[trigger]
                    old(src).holds(c) && old(self).valid(c) implies self.valid(c) by {
                    assert(me.valid(c));
                    lemma_skip_bounds(c, 0, me.full() as nat);
                    assert(row_at(c, me.scan_off as int, PROBE_BYTES as int) is Some);
                    law_skip_composes(c, 0, me.full() as nat, 1);
                    assert(skip_lines(c, self.scan_off as int, 0) == Some(self.scan_off as int));
                    assert(skip_lines(c, me.scan_off as int, 1) == Some(self.scan_off as int));
                    lemma_marks_step(me, *self, c);
                }
            }
        }
    }
}

/// Where the index stands on its way to row `up_to`: no further than that row.
pub open spec fn on_the_way(
    c: Seq<u8>,
    before: LineIndex,
    after: LineIndex,
    up_to: Option<u64>,
) -> bool {
    &&& before.rows() <= after.rows()
    &&& up_to matches Some(u) ==> after.rows() <= before.rows() || after.rows() <= u + 1
    &&& after.done() && !before.done() ==> (up_to matches Some(u) ==> skip_lines(
        c,
        0,
        (u + 1) as nat,
    ) is None)
    &&& before.done() ==> after.done()
}

/// What extending the index to row `up_to` leaves: just the rows up to that
/// one, or all rows if there are fewer.
pub open spec fn extended(
    c: Seq<u8>,
    before: LineIndex,
    after: LineIndex,
    up_to: Option<u64>,
) -> bool {
    match up_to {
        None => after.done() && after.rows() == row_total(c),
        Some(u) => if u < before.rows() {
            after.rows() == before.rows() && after.done() == before.done()
        } else {
            &&& after.rows() == if u < row_total(c) {
                u + 1
            } else {
                row_total(c) as int
            }
            &&& after.done() == (before.done() || skip_lines(c, 0, (u + 1) as nat) is None)
        },
    }
}

/// An index that has reached the end of the file has counted all rows.
pub proof fn lemma_rows_of_done(idx: LineIndex, c: Seq<u8>)
    requires
        idx.wf(),
        idx.valid(c),
        idx.done(),
    ensures
        idx.rows() == row_total(c),
{
    lemma_skip_bounds(c, 0, idx.full() as nat);
    lemma_rows_after_skip(c, 0, idx.full() as nat);
}

/// No more rows are counted than the file has.
pub proof fn lemma_rows_counted(idx: LineIndex, c: Seq<u8>)
    requires
        idx.wf(),
        idx.valid(c),
    ensures
        idx.rows() <= row_total(c),
{
    lemma_skip_bounds(c, 0, idx.full() as nat);
    lemma_rows_after_skip(c, 0, idx.full() as nat);
}

/// A block more, and no more than all.
proof fn lemma_blocks(left: int, blocks: int, step: int)
    requires
        0 < left <= blocks,
        step >= 0,
    ensures
        (blocks - (left - 1)) * step == (blocks - left) * step + step,
        (blocks - left) * step <= blocks * step,
{
    assert((blocks - (left - 1)) * step == (blocks - left) * step + step) by (nonlinear_arith);
    assert((blocks - left) * step <= blocks * step) by (nonlinear_arith)
        requires
            0 < left,
            step >= 0,
    ;
}

/// How many kept line starts a step to row `b` within a block adds.
proof fn lemma_marks_len(a: int, b: int, step: int)
    requires
        0 <= a < b,
        step >= 1,
        b <= a - a % step + step,
    ensures
        b / step == if b % step == 0 {
            a / step + 1
        } else {
            a / step
        },
        b % step == 0 ==> (a / step + 1) * step == b,
{
    let q = a / step;
    let r = b - step * q;
    vstd::arithmetic::div_mod::lemma_fundamental_div_mod(a, step);
    assert(q * step == step * q) by (nonlinear_arith);
    if r < step {
        vstd::arithmetic::div_mod::lemma_fundamental_div_mod_converse(b, step, q, r);
        assert(r > 0);
    } else {
        assert(b == (q + 1) * step + 0) by (nonlinear_arith)
            requires
                b == step * q + step,
        ;
        vstd::arithmetic::div_mod::lemma_fundamental_div_mod_converse(b, step, q + 1, 0);
    }
}

/// One more block of rows keeps the kept line starts right.
proof fn lemma_marks_step(a: LineIndex, b: LineIndex, c: Seq<u8>)
    requires
        a.wf(),
        a.valid(c),
        !a.done(),
        !b.done(),
        !b.open_last(),
        b.step() == a.step(),
        b.full() > a.full(),
        b.full() / (a.step() as int) == if b.full() % (a.step() as int) == 0 {
            a.full() / (a.step() as int) + 1
        } else {
            a.full() / (a.step() as int)
        },
        b.full() % (a.step() as int) == 0 ==> (a.full() / (a.step() as int) + 1) * a.step()
            == b.full(),
        b.marks() == if b.full() % (a.step() as int) == 0 {
            a.marks().push(b.reach())
        } else {
            a.marks()
        },
        skip_lines(c, 0, b.full() as nat) == Some(b.reach() as int),
    ensures
        b.valid(c),
{
    assert forall|k: int| 0 <= k < b.marks().len() implies skip_lines(c, 0, (k * b.step()) as nat)
        == Some((#[trigger] b.marks()[k]) as int) by {
        if k < a.marks().len() {
            assert(b.marks()[k] == a.marks()[k]);
        }
    }
}

/// An index that met the end of the file before row `stop` has not gone past
/// the row that it was to cover.
proof fn lemma_finished(c: Seq<u8>, a: LineIndex, b: LineIndex, stop: u64, up_to: Option<u64>)
    requires
        a.wf(),
        a.valid(c),
        !a.done(),
        b.wf(),
        b.valid(c),
        b.done(),
        a.rows() <= stop,
        up_to matches Some(u) ==> stop <= u,
        skip_lines(c, 0, (stop + 1) as nat) is None,
    ensures
        a.rows() <= b.rows() <= stop + 1,
        up_to matches Some(u) ==> skip_lines(c, 0, (u + 1) as nat) is None,
{
    lemma_skip_bounds(c, 0, a.full() as nat);
    lemma_skip_bounds(c, 0, b.full() as nat);
    lemma_rows_after_skip(c, 0, a.full() as nat);
    lemma_rows_after_skip(c, 0, b.full() as nat);
    lemma_rows_after_skip(c, 0, (stop + 1) as nat);
    if let Some(u) = up_to {
        law_skip_composes(c, 0, (stop + 1) as nat, (u - stop) as nat);
        assert((stop + 1) as nat + (u - stop) as nat == (u + 1) as nat);
    }
}

proof fn lemma_toward(c: Seq<u8>, a: LineIndex, b: LineIndex, stop: u64, row0: Option<u64>)
    requires
        a.wf(),
        a.valid(c),
        !a.done(),
        b.wf(),
        b.valid(c),
        a.rows() <= stop,
        row0 matches Some(u) ==> stop <= u,
        extended(c, a, b, Some(stop)),
    ensures
        a.rows() <= b.rows() <= stop + 1,
        b.done() || b.rows() == stop + 1,
        b.done() ==> (row0 matches Some(u) ==> skip_lines(c, 0, (u + 1) as nat) is None),
{
    lemma_skip_bounds(c, 0, a.full() as nat);
    lemma_rows_after_skip(c, 0, a.full() as nat);
    lemma_rows_after_skip(c, 0, (stop + 1) as nat);
    if let Some(u) = row0 {
        law_skip_composes(c, 0, (stop + 1) as nat, (u - stop) as nat);
        assert((stop + 1) as nat + (u - stop) as nat == (u + 1) as nat);
    }
}

pub proof fn lemma_marks_survive_growth(a: LineIndex, b: LineIndex, c: Seq<u8>, d: Seq<u8>)
    requires
        a.wf(),
        a.valid(c),
        c.is_prefix_of(d),
        b.marks() == a.marks(),
        b.step() == a.step(),
        b.rows() == a.rows(),
        b.open_last() == a.open_last(),
        b.reach() == a.reach(),
        !b.done(),
    ensures
        b.valid(d),
{
    assert forall|k: int| 0 <= k < b.marks().len() implies skip_lines(d, 0, (k * b.step()) as nat)
        == Some((#[trigger] b.marks()[k]) as int) by {
        assert(skip_lines(c, 0, (k * a.step()) as nat) == Some(a.marks()[k] as int));
        law_skip_survives_growth(c, d, 0, (k * a.step()) as nat);
    }
    law_skip_survives_growth(c, d, 0, a.full() as nat);
}

} // verus!
