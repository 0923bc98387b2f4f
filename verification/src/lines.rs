//! Line scanning over a `FileSource`: finding line starts and reading rows.
//!
//! A row is a run of bytes that ends in `\n`, or what follows the last `\n` at
//! the end of the file. The `\r` of a `\r\n` is dropped from a row's bytes.
//! The end of the file is where the bytes that can be read now end, so that a
//! call after the file has grown sees the new bytes.
use vstd::prelude::*;
use crate::file::{bytes_at, same_file, DiskReply, DiskRequest, FileSource};

verus! {

pub const NEWLINE: u8 = 10;

pub const RETURN: u8 = 13;

/// The position of the first newline at or after `from`.
pub open spec fn find_nl(c: Seq<u8>, from: int) -> Option<int>
    decreases c.len() - from,
{
    if from < 0 || from >= c.len() {
        None
    } else if c[from] == NEWLINE {
        Some(from)
    } else {
        find_nl(c, from + 1)
    }
}

/// How many newlines stand in `c[a..b)`.
pub open spec fn nl_count(c: Seq<u8>, a: int, b: int) -> nat
    decreases b - a,
{
    if b <= a {
        0
    } else {
        nl_count(c, a, b - 1) + if c[b - 1] == NEWLINE {
            1nat
        } else {
            0nat
        }
    }
}

/// Where the line starts that is `count` lines after `from`.
pub open spec fn skip_lines(c: Seq<u8>, from: int, count: nat) -> Option<int>
    decreases count,
{
    if count == 0 {
        Some(from)
    } else {
        match find_nl(c, from) {
            None => None,
            Some(i) => skip_lines(c, i + 1, (count - 1) as nat),
        }
    }
}

/// How many rows there are from `from` on.
pub open spec fn rows_from(c: Seq<u8>, from: int) -> nat
    decreases c.len() - from,
    via rows_from_decreases
{
    if from < 0 || from >= c.len() {
        0
    } else {
        match find_nl(c, from) {
            None => 1,
            Some(i) => 1 + rows_from(c, i + 1),
        }
    }
}

#[via_fn]
proof fn rows_from_decreases(c: Seq<u8>, from: int) {
    if 0 <= from < c.len() {
        lemma_find_nl(c, from);
    }
}

/// How many rows a file has.
pub open spec fn row_total(c: Seq<u8>) -> nat {
    rows_from(c, 0)
}

/// Where row `row` starts, if the file has that many rows.
pub open spec fn row_start(c: Seq<u8>, row: nat) -> Option<int> {
    if row < row_total(c) {
        skip_lines(c, 0, row)
    } else {
        None
    }
}

/// The first `max` bytes of `s`.
pub open spec fn clip(s: Seq<u8>, max: int) -> Seq<u8> {
    if s.len() <= max {
        s
    } else {
        s.take(max)
    }
}

/// `s` without a final `\r`.
pub open spec fn strip_return(s: Seq<u8>) -> Seq<u8> {
    if s.len() > 0 && s.last() == RETURN {
        s.drop_last()
    } else {
        s
    }
}

/// A row as it is read: its bytes, whether bytes were left out, where the
/// next row starts, and whether a newline ends it.
#[verifier::ext_equal]
pub struct RowView {
    pub bytes: Seq<u8>,
    pub truncated: bool,
    pub next: int,
    pub ended: bool,
}

/// The row that starts at `from`, cut to `max` bytes; a `\r` before the newline
/// belongs to the end of the row and does not count.
pub open spec fn row_at(c: Seq<u8>, from: int, max: int) -> Option<RowView> {
    match find_nl(c, from) {
        Some(i) => {
            let line = strip_return(c.subrange(from, i));
            Some(
                RowView {
                    bytes: clip(line, max),
                    truncated: line.len() > max,
                    next: i + 1,
                    ended: true,
                },
            )
        },
        None => if 0 <= from < c.len() && max > 0 {
            Some(
                RowView {
                    bytes: clip(c.subrange(from, c.len() as int), max),
                    truncated: c.len() - from > max,
                    next: c.len() as int,
                    ended: false,
                },
            )
        } else {
            None
        },
    }
}

/// The start of the line that holds position `at`.
pub open spec fn line_start_of(c: Seq<u8>, at: int) -> int
    decreases at,
{
    if at <= 0 {
        0
    } else if c[at - 1] == NEWLINE {
        at
    } else {
        line_start_of(c, at - 1)
    }
}

pub proof fn lemma_find_nl(c: Seq<u8>, from: int)
    ensures
        match find_nl(c, from) {
            Some(i) => {
                &&& 0 <= from <= i < c.len()
                &&& c[i] == NEWLINE
                &&& forall|j: int| from <= j < i ==> c[j] != NEWLINE
            },
            None => from >= 0 ==> forall|j: int| from <= j < c.len() ==> c[j] != NEWLINE,
        },
    decreases c.len() - from,
{
    if 0 <= from < c.len() && c[from] != NEWLINE {
        lemma_find_nl(c, from + 1);
    }
}

pub proof fn lemma_find_nl_is(c: Seq<u8>, from: int, i: int)
    requires
        0 <= from <= i < c.len(),
        c[i] == NEWLINE,
        forall|j: int| from <= j < i ==> c[j] != NEWLINE,
    ensures
        find_nl(c, from) == Some(i),
{
    lemma_find_nl(c, from);
}

pub proof fn lemma_find_nl_none(c: Seq<u8>, from: int)
    requires
        forall|j: int| from <= j < c.len() ==> c[j] != NEWLINE,
    ensures
        find_nl(c, from) is None,
{
    lemma_find_nl(c, from);
}

pub proof fn lemma_nl_count_split(c: Seq<u8>, a: int, m: int, b: int)
    requires
        a <= m <= b,
    ensures
        nl_count(c, a, b) == nl_count(c, a, m) + nl_count(c, m, b),
    decreases b - m,
{
    if m < b {
        lemma_nl_count_split(c, a, m, b - 1);
    }
}

pub(crate) proof fn lemma_nl_count_none(c: Seq<u8>, a: int, b: int)
    requires
        forall|j: int| a <= j < b ==> c[j] != NEWLINE,
    ensures
        nl_count(c, a, b) == 0,
    decreases b - a,
{
    if a < b {
        lemma_nl_count_none(c, a, b - 1);
    }
}

/// Newlines counted in a part of `c` are those of that stretch of `c`.
proof fn lemma_nl_count_sub(c: Seq<u8>, s: Seq<u8>, base: int, a: int, b: int)
    requires
        0 <= a <= b <= s.len(),
        0 <= base,
        base + s.len() <= c.len(),
        s == c.subrange(base, base + s.len()),
    ensures
        nl_count(s, a, b) == nl_count(c, base + a, base + b),
    decreases b - a,
{
    if a < b {
        lemma_nl_count_sub(c, s, base, a, b - 1);
        assert(s[b - 1] == c[base + b - 1]);
    }
}

/// The `count`-th newline from `from` on ends the `count`-th line.
proof fn lemma_skip_is(c: Seq<u8>, from: int, count: nat, e: int)
    requires
        0 <= from <= e < c.len(),
        c[e] == NEWLINE,
        nl_count(c, from, e + 1) == count,
    ensures
        count > 0,
        skip_lines(c, from, count) == Some(e + 1),
    decreases count,
{
    lemma_find_nl(c, from);
    let i = find_nl(c, from)->0;
    assert(find_nl(c, from) is Some);
    assert(i <= e);
    lemma_nl_count_none(c, from, i);
    lemma_nl_count_split(c, from, i + 1, e + 1);
    assert(nl_count(c, from, i + 1) == 1);
    if i < e {
        lemma_nl_count_split(c, i + 1, e, e + 1);
        assert(nl_count(c, e, e + 1) == 1) by {
            assert(nl_count(c, e, e) == 0);
        }
        lemma_skip_is(c, i + 1, (count - 1) as nat, e);
    } else {
        assert(nl_count(c, i + 1, e + 1) == 0);
    }
}

proof fn lemma_skip_none(c: Seq<u8>, from: int, count: nat)
    requires
        0 <= from,
        nl_count(c, from, c.len() as int) < count,
    ensures
        skip_lines(c, from, count) is None,
    decreases count,
{
    lemma_find_nl(c, from);
    if let Some(i) = find_nl(c, from) {
        lemma_nl_count_none(c, from, i);
        lemma_nl_count_split(c, from, i + 1, c.len() as int);
        assert(nl_count(c, from, i + 1) == 1);
        lemma_skip_none(c, i + 1, (count - 1) as nat);
    }
}

/// Skipping lines moves forward, at least a byte per line, and stays in `c`.
pub proof fn lemma_skip_bounds(c: Seq<u8>, from: int, count: nat)
    requires
        0 <= from,
    ensures
        skip_lines(c, from, count) matches Some(p) ==> from + count <= p && (count > 0 ==> p
            <= c.len()) && (count > 0 ==> c[p - 1] == NEWLINE),
    decreases count,
{
    if count > 0 {
        lemma_find_nl(c, from);
        if let Some(i) = find_nl(c, from) {
            lemma_skip_bounds(c, i + 1, (count - 1) as nat);
        }
    }
}

/// Skipping `a + b` lines is skipping `a` lines and then `b`.
pub proof fn law_skip_composes(c: Seq<u8>, from: int, a: nat, b: nat)
    requires
        0 <= from,
    ensures
        skip_lines(c, from, a + b) == match skip_lines(c, from, a) {
            Some(p) => skip_lines(c, p, b),
            None => None,
        },
    decreases a,
{
    if a > 0 {
        lemma_find_nl(c, from);
        if let Some(i) = find_nl(c, from) {
            law_skip_composes(c, i + 1, (a - 1) as nat, b);
            assert((a + b - 1) as nat == (a - 1) as nat + b);
        }
    }
}

/// A line start that was found stays where it is when the file grows.
pub proof fn law_skip_survives_growth(c: Seq<u8>, d: Seq<u8>, from: int, count: nat)
    requires
        0 <= from,
        c.is_prefix_of(d),
        skip_lines(c, from, count) is Some,
    ensures
        skip_lines(d, from, count) == skip_lines(c, from, count),
    decreases count,
{
    if count > 0 {
        lemma_find_nl(c, from);
        let i = find_nl(c, from)->0;
        assert(d[i] == c[i]);
        assert forall|j: int| from <= j < i implies d[j] != NEWLINE by {
            assert(d[j] == c[j]);
        }
        lemma_find_nl_is(d, from, i);
        law_skip_survives_growth(c, d, i + 1, (count - 1) as nat);
    }
}

/// Rows are counted as lines are skipped.
pub proof fn lemma_rows_after_skip(c: Seq<u8>, from: int, count: nat)
    requires
        0 <= from <= c.len(),
    ensures
        skip_lines(c, from, count) matches Some(p) ==> rows_from(c, from) == count + rows_from(c, p),
        skip_lines(c, from, count) is None ==> rows_from(c, from) <= count,
    decreases count,
{
    if count > 0 {
        lemma_find_nl(c, from);
        if let Some(i) = find_nl(c, from) {
            lemma_rows_after_skip(c, i + 1, (count - 1) as nat);
        }
    }
}

/// A file has a row start for each of its rows and for no other number.
pub proof fn law_row_start_of_each_row(c: Seq<u8>, row: nat)
    ensures
        row_start(c, row) is Some <==> row < row_total(c),
        row_start(c, row) matches Some(p) ==> row <= p < c.len() && (row > 0 ==> c[p - 1]
            == NEWLINE),
{
    lemma_rows_after_skip(c, 0, row);
    lemma_skip_bounds(c, 0, row);
    if row < row_total(c) && skip_lines(c, 0, row) is None {
        assert(rows_from(c, 0) == row);
    }
}

/// Reading row by row visits the row starts in order: the row that follows
/// row `row` is row `row + 1`.
pub proof fn law_rows_follow_each_other(c: Seq<u8>, row: nat, max: int)
    requires
        row < row_total(c),
        max > 0,
    ensures
        row_at(c, row_start(c, row)->0, max) matches Some(v) && match row_start(c, row + 1) {
            Some(p) => v.next == p,
            None => v.next == c.len(),
        },
{
    law_row_start_of_each_row(c, row);
    let p = row_start(c, row)->0;
    lemma_find_nl(c, p);
    law_skip_composes(c, 0, row, 1);
    lemma_rows_after_skip(c, 0, row);
    lemma_rows_after_skip(c, 0, row + 1);
    if let Some(i) = find_nl(c, p) {
        assert(skip_lines(c, i + 1, 0) == Some(i + 1));
        assert(skip_lines(c, p, 1) == Some(i + 1));
        assert(rows_from(c, p) == 1 + rows_from(c, i + 1));
        if row_start(c, row + 1) is None {
            assert(rows_from(c, i + 1) == 0);
            lemma_find_nl(c, i + 1);
        }
    } else {
        assert(skip_lines(c, p, 1) is None);
        assert(rows_from(c, p) == 1);
    }
}

/// What a look through one chunk for the `need`-th newline finds.
pub enum NlStep {
    /// The newline, at this place in the chunk.
    Found(usize),
    /// That many newlines are still to come.
    More(u64),
}

/// Looks through a chunk, from `rel` on, for the `need`-th newline.
pub fn nl_step(data: &[u8], rel: usize, need: u64) -> (r: NlStep)
    requires
        need > 0,
    ensures
        match r {
            NlStep::Found(i) => rel <= i < data@.len() && data@[i as int] == NEWLINE && nl_count(
                data@,
                rel as int,
                i + 1,
            ) == need,
            NlStep::More(left) => left > 0 && left + nl_count(data@, rel as int, data@.len() as int)
                == need,
        },
{
    let n: usize = data.len();
    let mut left: u64 = need;
    let mut i: usize = rel;
    if rel >= n {
        return NlStep::More(need);
    }
    while i < n
        invariant
            rel <= i <= n,
            n == data@.len(),
            left > 0,
            left + nl_count(data@, rel as int, i as int) == need,
        decreases n - i,
    {
        if data[i] == NEWLINE {
            left -= 1;
            if left == 0 {
                return NlStep::Found(i);
            }
        }
        i += 1;
    }
    NlStep::More(left)
}

/// The first newline of a chunk from `rel` on.
pub fn first_nl(data: &[u8], rel: usize) -> (r: Option<usize>)
    ensures
        match r {
            Some(i) => rel <= i < data@.len() && find_nl(data@, rel as int) == Some(i as int),
            None => find_nl(data@, rel as int) is None,
        },
{
    let n: usize = data.len();
    let mut i: usize = rel;
    while i < n
        invariant
            rel <= i,
            n == data@.len(),
            forall|j: int| rel <= j < i ==> data@[j] != NEWLINE,
        decreases n - i,
    {
        if data[i] == NEWLINE {
            proof {
                lemma_find_nl_is(data@, rel as int, i as int);
            }
            return Some(i);
        }
        i += 1;
    }
    proof {
        lemma_find_nl_none(data@, rel as int);
    }
    None
}

proof fn lemma_chunk_bounds(pos: u64, cs: u64)
    requires
        cs > 0,
    ensures
        (pos / cs) * cs <= pos,
        pos < (pos / cs) * cs + cs,
        (pos / cs) * cs == pos - pos % cs,
{
    assert((pos / cs) * cs + pos % cs == pos) by (nonlinear_arith)
        requires
            cs > 0,
    ;
    assert(pos % cs < cs);
}

/// Moves from the line start `from` over `count` newlines and returns the line
/// start behind them; `None` if the file ends before that.
pub fn advance_nl<D: Fn(DiskRequest) -> DiskReply>(
    src: &mut FileSource<D>,
    from: u64,
    count: u64,
) -> (r: Option<u64>)
    requires
        old(src).wf(),
    ensures
        final(src).wf(),
        final(src).disk() == old(src).disk(),
        final(src).size() == old(src).size(),
        r matches Some(p) ==> from + count <= p,
        forall|c: Seq<u8>| #[trigger]
            old(src).holds(c) ==> same_file(*old(src), *final(src), c) && match r {
                Some(p) => skip_lines(c, from as int, count as nat) == Some(p as int),
                None => skip_lines(c, from as int, count as nat) is None,
            },
{
    if count == 0 {
        return Some(from);
    }
    let cs: u64 = src.chunk_size() as u64;
    let mut need: u64 = count;
    let mut off: u64 = from;
    loop
        invariant
            src.wf(),
            src.disk() == old(src).disk(),
            src.size() == old(src).size(),
            cs == src.size(),
            cs > 0,
            0 < need <= count,
            from <= off,
            count - need <= off - from,
            forall|c: Seq<u8>| #[trigger]
                old(src).holds(c) ==> same_file(*old(src), *src, c) && need + nl_count(
                    c,
                    from as int,
                    up_to(c, off as int),
                ) == count,
        decreases u64::MAX - off,
    {
        proof {
            lemma_chunk_bounds(off, cs);
        }
        let k: u64 = off / cs;
        let chunk_start: u64 = k * cs;
        let ghost before = *src;
        let data = src.chunk(k);
        proof {
            assert(k as int * cs as int == chunk_start);
            assert forall|c: Seq<u8>| #[trigger] old(src).holds(c) implies before.holds(c) && data@
                == bytes_at(c, chunk_start as int, cs as int) && same_file(*old(src), *src, c) by {
                assert(before.holds(c));
            }
        }
        if data.len() == 0 {
            proof {
                assert forall|c: Seq<u8>| #[trigger] old(src).holds(c) implies skip_lines(
                    c,
                    from as int,
                    count as nat,
                ) is None by {
                    assert(c.len() <= chunk_start);
                    lemma_skip_none(c, from as int, count as nat);
                }
            }
            return None;
        }
        let rel: usize = (off - chunk_start) as usize;
        match nl_step(data.as_slice(), rel, need) {
            NlStep::Found(i) => {
                proof {
                    lemma_found_here(data@, rel as int, i + 1, need as nat);
                    assert forall|c: Seq<u8>| #[trigger] old(src).holds(c) implies skip_lines(
                        c,
                        from as int,
                        count as nat,
                    ) == Some(chunk_start + i + 1) by {
                        assert(data@ == bytes_at(c, chunk_start as int, cs as int));
                        assert(data@ == c.subrange(chunk_start as int, chunk_start + data@.len()));
                        lemma_nl_count_sub(c, data@, chunk_start as int, rel as int, i + 1);
                        lemma_nl_count_split(c, from as int, off as int, chunk_start + i + 1);
                        assert(c[chunk_start + i] == data@[i as int]);
                        lemma_skip_is(c, from as int, count as nat, chunk_start + i);
                    }
                }
                if chunk_start > u64::MAX - (i as u64 + 1) {
                    return None;
                }
                return Some(chunk_start + i as u64 + 1);
            },
            NlStep::More(left) => {
                proof {
                    lemma_found_here(data@, rel as int, data@.len() as int, (need - left) as nat);
                    assert forall|c: Seq<u8>| #[trigger] old(src).holds(c) implies left + nl_count(
                        c,
                        from as int,
                        up_to(c, chunk_start + cs),
                    ) == count by {
                        assert(data@ == bytes_at(c, chunk_start as int, cs as int));
                        assert(data@ == c.subrange(chunk_start as int, chunk_start + data@.len()));
                        if off <= c.len() {
                            lemma_nl_count_sub(
                                c,
                                data@,
                                chunk_start as int,
                                rel as int,
                                data@.len() as int,
                            );
                            lemma_nl_count_split(
                                c,
                                from as int,
                                off as int,
                                chunk_start + data@.len(),
                            );
                        }
                    }
                }
                need = left;
            },
        }
        if chunk_start > u64::MAX - cs {
            proof {
                assert forall|c: Seq<u8>| #[trigger] old(src).holds(c) implies skip_lines(
                    c,
                    from as int,
                    count as nat,
                ) is None by {
                    lemma_skip_none(c, from as int, count as nat);
                }
            }
            return None;
        }
        off = chunk_start + cs;
    }
}

/// `p`, or the end of `c` if that comes first.
pub open spec fn up_to(c: Seq<u8>, p: int) -> int {
    if p <= c.len() {
        p
    } else {
        c.len() as int
    }
}

proof fn lemma_found_here(s: Seq<u8>, a: int, b: int, n: nat)
    requires
        nl_count(s, a, b) == n,
    ensures
        n <= if b <= a {
            0
        } else {
            b - a
        },
    decreases b - a,
{
    if b > a {
        lemma_found_here(s, a, b - 1, nl_count(s, a, b - 1));
    }
}


proof fn lemma_line_start_of(c: Seq<u8>, at: int, p: int)
    requires
        0 <= p <= at <= c.len(),
        p > 0 ==> c[p - 1] == NEWLINE,
        forall|j: int| p <= j < at ==> c[j] != NEWLINE,
    ensures
        line_start_of(c, at) == p,
    decreases at,
{
    if at > p {
        lemma_line_start_of(c, at - 1, p);
    }
}

/// Going back a line from the start of row `row + 1` leads to the start of row
/// `row`.
pub proof fn law_back_undoes_forward(c: Seq<u8>, row: nat)
    requires
        row_start(c, row + 1) is Some,
    ensures
        row_start(c, row) == Some(line_start_of(c, row_start(c, row + 1)->0 - 1)),
{
    law_row_start_of_each_row(c, row);
    law_row_start_of_each_row(c, row + 1);
    let p = row_start(c, row)->0;
    law_skip_composes(c, 0, row, 1);
    lemma_find_nl(c, p);
    let i = find_nl(c, p)->0;
    assert(skip_lines(c, i + 1, 0) == Some(i + 1));
    lemma_line_start_of(c, i, p);
}

/// The start of the line before the line start `off`: `None` at the start of
/// the file and past its end.
pub fn prev_line_start<D: Fn(DiskRequest) -> DiskReply>(src: &mut FileSource<D>, off: u64) -> (r:
    Option<u64>)
    requires
        old(src).wf(),
    ensures
        final(src).wf(),
        final(src).disk() == old(src).disk(),
        final(src).size() == old(src).size(),
        off == 0 ==> r is None,
        forall|c: Seq<u8>| #[trigger]
            old(src).holds(c) ==> same_file(*old(src), *final(src), c) && (if 0 < off <= c.len() {
                r matches Some(p) && p == line_start_of(c, off - 1)
            } else {
                r is None
            }),
{
    if off == 0 {
        return None;
    }
    let cs: u64 = src.chunk_size() as u64;
    let mut cur: u64 = off - 1;
    loop
        invariant
            src.wf(),
            src.disk() == old(src).disk(),
            src.size() == old(src).size(),
            cs == src.size(),
            cs > 0,
            cur < off,
            forall|c: Seq<u8>| #[trigger]
                old(src).holds(c) ==> same_file(*old(src), *src, c) && (cur + 1 < off ==> off <= c.len())
                    && forall|j: int| cur < j < off - 1 && j < c.len() ==> c[j] != NEWLINE,
        decreases cur,
    {
        proof {
            lemma_chunk_bounds(cur, cs);
        }
        let k: u64 = cur / cs;
        let chunk_start: u64 = k * cs;
        let ghost before = *src;
        let data = src.chunk(k);
        proof {
            assert(k as int * cs as int == chunk_start);
            assert forall|c: Seq<u8>| #[trigger] old(src).holds(c) implies before.holds(c) && data@
                == bytes_at(c, chunk_start as int, cs as int) && same_file(*old(src), *src, c) by {
                assert(before.holds(c));
            }
        }
        let rel: usize = (cur - chunk_start) as usize;
        if rel >= data.len() {
            return None;
        }
        let mut j: usize = rel + 1;
        while j > 0
            invariant
                0 <= j <= rel + 1,
                rel < data.len(),
                chunk_start + rel == cur,
                cur < off,
                src.wf(),
                src.disk() == old(src).disk(),
                src.size() == old(src).size(),
                forall|c: Seq<u8>| #[trigger]
                    old(src).holds(c) ==> {
                        &&& same_file(*old(src), *src, c)
                        &&& data@ == bytes_at(c, chunk_start as int, cs as int)
                        &&& off <= c.len()
                        &&& forall|m: int| chunk_start + j <= m < off - 1 ==> c[m] != NEWLINE
                    },
            decreases j,
        {
            j -= 1;
            assert forall|c: Seq<u8>| #[trigger] old(src).holds(c) implies c[chunk_start + j]
                == data@[j as int] by {
                assert(data@ == bytes_at(c, chunk_start as int, cs as int));
            }
            if data[j] == NEWLINE && chunk_start + j as u64 + 1 != off {
                proof {
                    assert forall|c: Seq<u8>| #[trigger] old(src).holds(c) implies line_start_of(
                        c,
                        off - 1,
                    ) == chunk_start + j + 1 by {
                        lemma_line_start_of(c, off - 1, chunk_start + j + 1);
                    }
                }
                return Some(chunk_start + j as u64 + 1);
            }
        }
        if chunk_start == 0 {
            proof {
                assert forall|c: Seq<u8>| #[trigger] old(src).holds(c) implies line_start_of(
                    c,
                    off - 1,
                ) == 0 by {
                    lemma_line_start_of(c, off - 1, 0);
                }
            }
            return Some(0);
        }
        cur = chunk_start - 1;
    }
}

/// Appends `seg` to a row of at most `max` bytes; once bytes had to be left
/// out, nothing more is appended.
fn append_limited(out: &mut Vec<u8>, seg: &[u8], max: usize, truncated: &mut bool)
    ensures
        *old(truncated) ==> *final(truncated) && final(out)@ == old(out)@,
        !*old(truncated) && old(out)@.len() <= max ==> final(out)@ == clip(
            old(out)@ + seg@,
            max as int,
        ) && (*final(truncated) <==> old(out)@.len() + seg@.len() > max),
        !*old(truncated) && old(out)@.len() > max ==> final(out)@ == old(out)@,
        !*old(truncated) && old(out)@.len() > max ==> (*final(truncated) <==> seg@.len() > 0),
{
    if *truncated {
        return;
    }
    let room: usize = if out.len() < max {
        max - out.len()
    } else {
        0
    };
    if seg.len() <= room {
        out.extend_from_slice(seg);
    } else {
        out.extend_from_slice(vstd::slice::slice_subrange(seg, 0, room));
        *truncated = true;
    }
    assert(!*old(truncated) && old(out)@.len() <= max ==> out@ =~= clip(
        old(out)@ + seg@,
        max as int,
    ));
    assert(!*old(truncated) && old(out)@.len() > max ==> out@ =~= old(out)@);
}

/// Reads rows one after another from a byte position on.
pub struct LineReader {
    pos: u64,
    eof: bool,
    max_row: usize,
}

impl LineReader {
    /// The position of the next byte to read.
    pub closed spec fn at(&self) -> u64 {
        self.pos
    }

    /// Whether the end of the file was met.
    pub closed spec fn ended(&self) -> bool {
        self.eof
    }

    /// The most bytes that a row keeps.
    pub closed spec fn limit(&self) -> usize {
        self.max_row
    }

    pub fn new(from: u64, max_row: usize) -> (r: Self)
        ensures
            r.at() == from,
            !r.ended(),
            r.limit() == max_row,
    {
        LineReader { pos: from, eof: false, max_row }
    }

    pub fn pos(&self) -> (r: u64)
        ensures
            r == self.at(),
    {
        self.pos
    }

    pub fn at_eof(&self) -> (r: bool)
        ensures
            r == self.ended(),
    {
        self.eof
    }

    /// Reads the next row: its start, its bytes without the newline and a `\r`
    /// before it, and whether bytes past `max_row` were left out. The whole
    /// row is consumed either way. `None` at the end of the file.
    #[verifier::rlimit(100)]
    pub fn next_row<D: Fn(DiskRequest) -> DiskReply>(&mut self, src: &mut FileSource<D>) -> (r:
        Option<(u64, Vec<u8>, bool)>)
        requires
            old(src).wf(),
        ensures
            final(src).wf(),
            final(src).disk() == old(src).disk(),
            final(src).size() == old(src).size(),
            final(self).limit() == old(self).limit(),
            old(self).ended() ==> r is None && *final(self) == *old(self) && *final(src) == *old(src),
            r matches Some(v) ==> v.0 == old(self).at() && final(self).at() > old(self).at()
                && v.1.len() <= old(self).limit(),
            r is None ==> final(self).ended(),
            final(self).at() >= old(self).at(),
            forall|c: Seq<u8>| #[trigger]
                old(src).holds(c) ==> same_file(*old(src), *final(src), c) && (!old(self).ended() ==> row_read(
                    c,
                    *old(self),
                    *final(self),
                    r,
                )),
    {
        if self.eof {
            return None;
        }
        let start: u64 = self.pos;
        let max: usize = self.max_row;
        let cs: u64 = src.chunk_size() as u64;
        let mut content: Vec<u8> = Vec::new();
        let mut truncated: bool = false;
        let mut last: u8 = 0;
        loop
            invariant
                src.wf(),
                src.disk() == old(src).disk(),
                src.size() == old(src).size(),
                cs == src.size(),
                cs > 0,
                self.max_row == max,
                old(self).max_row == max,
                !self.eof,
                !old(self).eof,
                start == old(self).pos,
                start <= self.pos,
                content.len() <= max,
                self.pos == start ==> content.len() == 0 && !truncated,
                self.pos == start || max == 0 || content.len() > 0,
                self.pos > start ==> self.pos % cs == 0,
                forall|c: Seq<u8>| #[trigger]
                    old(src).holds(c) ==> {
                        &&& same_file(*old(src), *src, c)
                        &&& self.pos > start ==> {
                            &&& self.pos <= c.len()
                            &&& forall|j: int| start <= j < self.pos ==> c[j] != NEWLINE
                            &&& content@ == clip(
                                c.subrange(start as int, self.pos as int),
                                max as int,
                            )
                            &&& truncated == (self.pos - start > max)
                            &&& last == c[self.pos - 1]
                        }
                    },
            decreases u64::MAX - self.pos,
        {
            proof {
                lemma_chunk_bounds(self.pos, cs);
            }
            let k: u64 = self.pos / cs;
            let chunk_start: u64 = k * cs;
            let ghost before = *src;
            let ghost was = content@;
            let ghost pos0 = self.pos;
            let data = src.chunk(k);
            proof {
                assert(k as int * cs as int == chunk_start);
                assert forall|c: Seq<u8>| #[trigger] old(src).holds(c) implies before.holds(c)
                    && data@ == bytes_at(c, chunk_start as int, cs as int) && same_file(*old(src), *src, c) by {
                    assert(before.holds(c));
                }
            }
            if data.len() == 0 {
                self.eof = true;
                if content.len() == 0 {
                    proof {
                        assert forall|c: Seq<u8>| #[trigger] old(src).holds(c) implies row_at(
                            c,
                            start as int,
                            max as int,
                        ) is None by {
                            lemma_find_nl_none(c, start as int);
                        }
                    }
                    return None;
                }
                proof {
                    assert forall|c: Seq<u8>| #[trigger] old(src).holds(c) implies self.pos
                        == c.len() && find_nl(c, start as int) is None by {
                        lemma_find_nl_none(c, start as int);
                    }
                }
                return Some((start, content, truncated));
            }
            let rel0: usize = (self.pos - chunk_start) as usize;
            let rel: usize = if rel0 <= data.len() {
                rel0
            } else {
                data.len()
            };
            match first_nl(data.as_slice(), rel) {
                Some(i) => {
                    append_limited(
                        &mut content,
                        vstd::slice::slice_subrange(data.as_slice(), rel, i),
                        max,
                        &mut truncated,
                    );
                    proof {
                        lemma_find_nl(data@, rel as int);
                        assert forall|c: Seq<u8>| #[trigger] old(src).holds(c) implies find_nl(
                            c,
                            start as int,
                        ) == Some(chunk_start + i) && content@ == clip(
                            c.subrange(start as int, chunk_start + i),
                            max as int,
                        ) && truncated == (chunk_start + i - start > max) by {
                            assert(data@ == bytes_at(c, chunk_start as int, cs as int));
                            assert(c[chunk_start + i] == data@[i as int]);
                            assert forall|j: int| start <= j < chunk_start + i implies c[j]
                                != NEWLINE by {
                                if j >= pos0 {
                                    assert(c[j] == data@[j - chunk_start]);
                                }
                            }
                            lemma_find_nl_is(c, start as int, chunk_start + i);
                            lemma_clip_append(
                                c,
                                start as int,
                                pos0 as int,
                                chunk_start + i,
                                max as int,
                            );
                            assert(data@.subrange(rel as int, i as int) =~= c.subrange(
                                pos0 as int,
                                chunk_start + i,
                            ));
                        }
                    }
                    if chunk_start > u64::MAX - (i as u64 + 1) {
                        self.eof = true;
                        return None;
                    }
                    self.pos = chunk_start + i as u64 + 1;
                    let whole: u64 = chunk_start + i as u64 - start;
                    if i > rel {
                        last = data[i - 1];
                    }
                    if whole > 0 && last == RETURN {
                        if whole <= max as u64 {
                            content.pop();
                        }
                        truncated = whole - 1 > max as u64;
                    }
                    proof {
                        assert forall|c: Seq<u8>| #[trigger] old(src).holds(c) implies row_read(
                            c,
                            *old(self),
                            *self,
                            Some((start, content, truncated)),
                        ) by {
                            assert(data@ == bytes_at(c, chunk_start as int, cs as int));
                            let line = c.subrange(start as int, chunk_start + i);
                            if whole > 0 {
                                assert(line.last() == last);
                            }
                            assert(content@ =~= clip(strip_return(line), max as int));
                        }
                    }
                    return Some((start, content, truncated));
                },
                None => {
                    append_limited(
                        &mut content,
                        vstd::slice::slice_subrange(data.as_slice(), rel, data.len()),
                        max,
                        &mut truncated,
                    );
                    let ghost upto = chunk_start + data@.len();
                    proof {
                        lemma_find_nl(data@, rel as int);
                        assert forall|c: Seq<u8>| #[trigger]
                            old(src).holds(c) && pos0 <= upto implies (forall|j: int|
                            start <= j < upto ==> c[j] != NEWLINE) && content@ == clip(
                            c.subrange(start as int, upto),
                            max as int,
                        ) && truncated == (upto - start > max) && upto <= c.len() by {
                            assert(data@ == bytes_at(c, chunk_start as int, cs as int));
                            assert forall|j: int| start <= j < upto implies c[j] != NEWLINE by {
                                if j >= pos0 {
                                    assert(c[j] == data@[j - chunk_start]);
                                }
                            }
                            lemma_clip_append(c, start as int, pos0 as int, upto, max as int);
                            assert(data@.subrange(rel as int, data@.len() as int) =~= c.subrange(
                                pos0 as int,
                                upto,
                            ));
                        }
                    }
                    if data.len() < src.chunk_size() || chunk_start > u64::MAX - cs {
                        self.eof = true;
                        proof {
                            assert forall|c: Seq<u8>| #[trigger] old(src).holds(c) implies find_nl(
                                c,
                                start as int,
                            ) is None by {
                                assert(data@ == bytes_at(c, chunk_start as int, cs as int));
                                lemma_find_nl_none(c, start as int);
                            }
                        }
                        if content.len() == 0 || chunk_start > u64::MAX - data.len() as u64 {
                            return None;
                        }
                        self.pos = chunk_start + data.len() as u64;
                        return Some((start, content, truncated));
                    }
                    self.pos = chunk_start + cs;
                    last = data[data.len() - 1];
                    proof {
                        assert(self.pos == (k + 1) * cs) by (nonlinear_arith)
                            requires
                                self.pos == k * cs + cs,
                        ;
                        vstd::arithmetic::div_mod::lemma_mod_multiples_basic(k + 1, cs as int);
                    }
                },
            }
        }
    }
}

proof fn lemma_clip_append(c: Seq<u8>, a: int, m: int, b: int, max: int)
    requires
        0 <= a <= m <= b <= c.len(),
        0 <= max,
    ensures
        m - a <= max ==> clip(clip(c.subrange(a, m), max) + c.subrange(m, b), max) == clip(
            c.subrange(a, b),
            max,
        ),
        m - a > max ==> clip(c.subrange(a, m), max) == clip(c.subrange(a, b), max),
{
    assert(c.subrange(a, m) + c.subrange(m, b) =~= c.subrange(a, b));
    if m - a > max {
        assert(clip(c.subrange(a, m), max) =~= clip(c.subrange(a, b), max));
    }
}

/// What a read of a row leaves: the row that starts at the reader's position,
/// and the reader behind it.
pub open spec fn row_read(
    c: Seq<u8>,
    before: LineReader,
    after: LineReader,
    r: Option<(u64, Vec<u8>, bool)>,
) -> bool {
    match row_at(c, before.at() as int, before.limit() as int) {
        Some(row) => {
            &&& r matches Some(v) && v.0 == before.at() && v.1@ == row.bytes && v.2 == row.truncated
            &&& after.at() == row.next
            &&& after.ended() == !row.ended
        },
        None => {
            &&& r is None
            &&& after.ended()
            &&& before.limit() > 0 ==> after.at() == before.at()
        },
    }
}

} // verus!
