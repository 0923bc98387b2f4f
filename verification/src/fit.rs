//! Wrapped rows take several lines of the screen: these functions scroll a pane
//! so that the cursor's row is still seen, and so that the end of the file or of
//! a list stands at the bottom of the pane.
use vstd::prelude::*;
use crate::encoding::Encoding;
use crate::file::{DiskReply, DiskRequest};
use crate::modes::{greater, lesser};
use crate::panes::{
    read_text, text_or_empty, FileContent, MatchesContent, MAX_EXTENT,
};
use crate::search::Match;
use crate::text::{decimal, number_text, segments, wrap_row};
use crate::view::{put_at, window_filled, FileView, ShownRow, ViewRow, LAST_ROW};

verus! {

/// How often the cursor's row is looked at anew.
pub const CURSOR_ROUNDS: u64 = 6;

/// How often the end of a file or a list is looked at anew.
pub const BOTTOM_ROUNDS: u64 = 12;

/// The most lines of a list whose end is put at the bottom of its pane.
pub const BOTTOM_LIST_LIMIT: usize = 1500;

/// The least height that rows are fitted to.
pub const LEAST_HEIGHT: usize = 4;

/// The least width of a row number, and of the text behind it.
pub const LEAST_WIDTH: usize = 4;

/// `a / b`, rounded up.
pub open spec fn ceil_div(a: int, b: int) -> int {
    (a + b - 1) / b
}

/// The columns for the text of a row in a pane of `cols` columns whose row
/// numbers are `no_width` wide: what the cursor's mark, the number and the bar
/// leave.
pub open spec fn text_cols(cols: int, no_width: int) -> int {
    greater(cols - (no_width + 2), LEAST_WIDTH as int)
}

/// The width of row numbers up to `last`.
pub open spec fn number_width(last: int) -> int {
    greater(decimal(last as nat).len() as int, LEAST_WIDTH as int)
}

/// The lines that a wrapped text takes.
pub open spec fn line_count(text: Seq<char>, budget: int) -> int {
    segments(text, budget as nat).len() as int
}

/// The lines that texts take together, as far as a counter goes.
pub open spec fn lines_taken(counts: Seq<int>) -> int
    decreases counts.len(),
{
    if counts.len() == 0 {
        0
    } else {
        lesser(lines_taken(counts.drop_last()) + counts.last(), u64::MAX as int)
    }
}

/// How many rows have to leave the top of a pane so that the cursor's row is
/// seen: `above` lines of `rows` rows are above it, it takes `here` lines
/// itself, and the pane has `height` lines. The cursor's row is to stand no
/// deeper than two thirds down.
pub open spec fn rows_to_drop(above: int, here: int, rows: int, height: int) -> int {
    let want = if here <= height {
        lesser(height - here, height * 2 / 3)
    } else {
        0
    };
    if above <= want {
        0
    } else {
        ceil_div(above - want, greater(above / rows, 1))
    }
}

/// How many of `rows` rows that take `taken` lines make up `lines` lines.
pub open spec fn rows_for(lines: int, rows: int, taken: int) -> int {
    ceil_div(lines * rows, greater(taken, rows))
}

/// Where nothing has to leave the top, the cursor's row is seen: whole, or from
/// its first line on where it is higher than the pane.
pub proof fn law_nothing_to_drop_means_seen(above: int, here: int, rows: int, height: int)
    requires
        above >= 0,
        here >= 1,
        rows >= 1,
        height >= 1,
        rows_to_drop(above, here, rows, height) == 0,
    ensures
        here <= height ==> above + here <= height,
        here > height ==> above == 0,
{
    let want = if here <= height {
        lesser(height - here, height * 2 / 3)
    } else {
        0
    };
    if above > want {
        let per = greater(above / rows, 1);
        let less = above - want;
        assert((less + per - 1) / per >= 1) by (nonlinear_arith)
            requires
                less >= 1,
                per >= 1,
        ;
    }
}

fn round_up(a: u128, b: u128) -> (r: u128)
    requires
        b >= 1,
        a + b - 1 <= u128::MAX,
    ensures
        r == ceil_div(a as int, b as int),
{
    (a + (b - 1)) / b
}

fn drop_count(above: u64, here: u64, rows: u64, height: u64) -> (r: u64)
    requires
        rows >= 1,
        height <= MAX_EXTENT,
    ensures
        r == rows_to_drop(above as int, here as int, rows as int, height as int),
{
    let want: u64 = if here <= height {
        let below: u64 = height - here;
        let deep: u64 = height * 2 / 3;
        if below > deep {
            deep
        } else {
            below
        }
    } else {
        0
    };
    if above <= want {
        return 0;
    }
    let share: u64 = above / rows;
    let per: u64 = if share < 1 {
        1
    } else {
        share
    };
    let r: u128 = round_up((above - want) as u128, per as u128);
    proof {
        let less = above - want;
        assert((less + per - 1) / (per as int) <= less) by (nonlinear_arith)
            requires
                less >= 1,
                per >= 1,
        ;
    }
    r as u64
}

fn rows_making(lines: u64, rows: u64, taken: u64) -> (r: u128)
    requires
        rows >= 1,
    ensures
        r == rows_for(lines as int, rows as int, taken as int),
{
    assert(lines * rows <= 0xFFFF_FFFF_FFFF_FFFF * 0xFFFF_FFFF_FFFF_FFFF) by (nonlinear_arith)
        requires
            lines <= 0xFFFF_FFFF_FFFF_FFFF,
            rows <= 0xFFFF_FFFF_FFFF_FFFF,
    ;
    let all: u128 = lines as u128 * rows as u128;
    let per: u64 = if taken < rows {
        rows
    } else {
        taken
    };
    round_up(all, per as u128)
}

/// The width of row numbers up to `last`.
pub fn width_of_numbers(last: u64) -> (r: usize)
    ensures
        r == number_width(last as int),
        r <= MAX_EXTENT,
{
    let text = number_text(last);
    let n: usize = text.as_str().unicode_len();
    proof {
        lemma_number_width(last as nat);
    }
    if n < LEAST_WIDTH {
        LEAST_WIDTH
    } else {
        n
    }
}

proof fn lemma_digits(n: nat, d: nat, limit: nat)
    requires
        n < limit,
        d >= 1,
        limit == vstd::arithmetic::power::pow(10, d),
    ensures
        decimal(n).len() <= d,
    decreases d,
{
    if n >= 10 {
        if d == 1 {
            vstd::arithmetic::power::lemma_pow1(10);
        } else {
            vstd::arithmetic::power::lemma_pow_positive(10, (d - 1) as nat);
            let less = vstd::arithmetic::power::pow(10, (d - 1) as nat);
            assert(limit == 10 * less) by {
                reveal(vstd::arithmetic::power::pow);
            }
            lemma_digits(n / 10, (d - 1) as nat, less as nat);
        }
    }
}

pub(crate) proof fn lemma_number_width(n: nat)
    requires
        n <= u64::MAX,
    ensures
        decimal(n).len() <= 20,
{
    assert(vstd::arithmetic::power::pow(10, 20) == 100_000_000_000_000_000_000) by {
        reveal(vstd::arithmetic::power::pow);
        reveal_with_fuel(vstd::arithmetic::power::pow, 21);
    }
    lemma_digits(n, 20, 100_000_000_000_000_000_000);
}

/// The columns for the text of a row.
pub fn cols_for_text(cols: usize, no_width: usize) -> (r: usize)
    requires
        no_width <= MAX_EXTENT,
    ensures
        r == text_cols(cols as int, no_width as int),
{
    let head: usize = no_width + 2;
    if cols < head + LEAST_WIDTH {
        LEAST_WIDTH
    } else {
        cols - head
    }
}

fn lines_of(text: &str, budget: usize) -> (r: u64)
    ensures
        r == line_count(text@, budget as int),
        r >= 1,
{
    let parts = wrap_row(text, budget);
    let n: usize = parts.len();
    assert(crate::text::texts(parts@).len() == n);
    n as u64
}

fn add_lines(a: u64, b: u64) -> (r: u64)
    ensures
        r == lesser(a + b, u64::MAX as int),
{
    if a > u64::MAX - b {
        u64::MAX
    } else {
        a + b
    }
}

/// The lines that each row of a window takes.
pub open spec fn row_counts(rows: Seq<ShownRow>, budget: int) -> Seq<int> {
    Seq::new(rows.len(), |i: int| line_count(rows[i].text, budget))
}

/// The columns for the text of a window's rows.
pub open spec fn window_cols<D: Fn(DiskRequest) -> DiskReply>(v: FileView<D>, cols: int) -> int {
    text_cols(cols, number_width(lesser(v.top() + v.shown().len(), u64::MAX as int)))
}

fn rows_taken(rows: &[ViewRow], n: usize, budget: usize) -> (r: u64)
    requires
        n <= rows@.len(),
    ensures
        r == lines_taken(row_counts(rows@.map_values(|x: ViewRow| x@), budget as int).take(n as int)),
{
    let ghost all = row_counts(rows@.map_values(|x: ViewRow| x@), budget as int);
    let mut sum: u64 = 0;
    let mut i: usize = 0;
    while i < n
        invariant
            i <= n <= rows@.len(),
            all == row_counts(rows@.map_values(|x: ViewRow| x@), budget as int),
            sum == lines_taken(all.take(i as int)),
        decreases n - i,
    {
        let more: u64 = lines_of(rows[i].text.as_str(), budget);
        assert(all.take(i + 1).drop_last() =~= all.take(i as int));
        assert(all.take(i + 1).last() == more);
        sum = add_lines(sum, more);
        i += 1;
    }
    sum
}

/// The top row that a window whose rows are wrapped gets so that the cursor's
/// row is seen, if another one than it has.
pub open spec fn cursor_top<D: Fn(DiskRequest) -> DiskReply>(
    v: FileView<D>,
    height: usize,
    cols: usize,
) -> Option<u64> {
    let at = v.cursor() - v.top();
    let counts = row_counts(v.shown(), window_cols(v, cols as int));
    if at <= 0 || at >= v.shown().len() {
        None
    } else {
        let drop = rows_to_drop(
            lines_taken(counts.take(at)),
            counts[at],
            at,
            greater(height as int, LEAST_HEIGHT as int),
        );
        if drop == 0 {
            None
        } else {
            Some(lesser(v.top() + drop, v.cursor() as int) as u64)
        }
    }
}

/// Whether a window was fitted to its cursor in at most `n` rounds: each reads
/// the window and moves its top.
pub open spec fn cursor_fitted<D: Fn(DiskRequest) -> DiskReply>(
    before: FileView<D>,
    after: FileView<D>,
    height: usize,
    cols: usize,
    n: nat,
) -> bool
    decreases n,
{
    if n == 0 {
        after == before
    } else {
        exists|v: FileView<D>| #[trigger]
            window_filled(before, v, height) && match cursor_top(v, height, cols) {
                None => after == v,
                Some(t) => exists|w: FileView<D>| #[trigger]
                    put_at(v, w, t, v.cursor()) && cursor_fitted(
                        w,
                        after,
                        height,
                        cols,
                        (n - 1) as nat,
                    ),
            }
    }
}

fn next_cursor_top<D: Fn(DiskRequest) -> DiskReply>(
    v: &FileView<D>,
    height: usize,
    cols: usize,
) -> (r: Option<u64>)
    requires
        v.wf(),
        v.cursor_in_window(),
        height <= MAX_EXTENT,
    ensures
        r == cursor_top(*v, height, cols),
        r matches Some(t) ==> t <= LAST_ROW,
{
    let (top, cursor) = v.snapshot_pos();
    let rows = v.rows();
    let n: usize = rows.len();
    let at: u64 = cursor - top;
    if at == 0 || at >= n as u64 {
        return None;
    }
    let last: u64 = add_lines(top, n as u64);
    let width: usize = width_of_numbers(last);
    let budget: usize = cols_for_text(cols, width);
    let above: u64 = rows_taken(rows, at as usize, budget);
    let here: u64 = lines_of(rows[at as usize].text.as_str(), budget);
    let tall: usize = if height < LEAST_HEIGHT {
        LEAST_HEIGHT
    } else {
        height
    };
    let drop: u64 = drop_count(above, here, at, tall as u64);
    if drop == 0 {
        None
    } else if drop > cursor - top {
        Some(cursor)
    } else {
        Some(top + drop)
    }
}

fn fit_cursor<D: Fn(DiskRequest) -> DiskReply>(
    view: &mut FileView<D>,
    height: usize,
    cols: usize,
    n: u64,
)
    requires
        old(view).wf(),
        height <= MAX_EXTENT,
    ensures
        final(view).same_frame(*old(view)),
        final(view).cursor() == old(view).cursor(),
        forall|c: Seq<u8>| #[trigger] old(view).shows(c) ==> final(view).shows(c),
        cursor_fitted(*old(view), *final(view), height, cols, n as nat),
    decreases n,
{
    if n == 0 {
        return ;
    }
    view.fill_to(height);
    let ghost v = *view;
    assert(window_filled(*old(view), v, height));
    match next_cursor_top(view, height, cols) {
        None => {
            proof {
                assert forall|c: Seq<u8>| #[trigger] old(view).shows(c) implies v.shows(c) by {
                    assert(v.in_step(c));
                }
            }
        },
        Some(t) => {
            view.set_top(t);
            let ghost w = *view;
            assert(put_at(v, w, t, v.cursor()));
            proof {
                assert forall|c: Seq<u8>| #[trigger] old(view).shows(c) implies w.shows(c) by {
                    assert(v.in_step(c));
                }
            }
            fit_cursor(view, height, cols, n - 1);
        },
    }
}

/// Whether the file's pane was fitted to its cursor.
pub open spec fn file_cursor_fitted<D: Fn(DiskRequest) -> DiskReply>(
    before: FileContent<D>,
    after: FileContent<D>,
    cols: usize,
) -> bool {
    if before.wrap {
        &&& after.same_but_view(before)
        &&& after.view.cursor() == before.view.cursor()
        &&& forall|c: Seq<u8>| #[trigger] before.view.shows(c) ==> after.view.shows(c)
        &&& cursor_fitted(before.view, after.view, before.inner_h, cols, CURSOR_ROUNDS as nat)
    } else {
        after == before
    }
}

/// Scrolls the file's pane, where its rows are wrapped, so that the cursor's
/// row is seen, near two thirds down the pane.
pub fn wrap_cursor_fit<D: Fn(DiskRequest) -> DiskReply>(fc: &mut FileContent<D>, cols: usize)
    requires
        old(fc).wf(),
    ensures
        final(fc).wf(),
        file_cursor_fitted(*old(fc), *final(fc), cols),
{
    if !fc.wrap {
        return ;
    }
    fit_cursor(&mut fc.view, fc.inner_h, cols, CURSOR_ROUNDS);
}

/// The top row that a window whose rows are wrapped gets so that its last row
/// stands at the bottom of the pane, if another one than it has.
pub open spec fn tail_top<D: Fn(DiskRequest) -> DiskReply>(
    v: FileView<D>,
    height: usize,
    cols: usize,
) -> Option<u64> {
    let rows = v.shown().len() as int;
    let taken = lines_taken(row_counts(v.shown(), window_cols(v, cols as int)));
    let need = greater(height as int, LEAST_HEIGHT as int);
    if rows == 0 || -1 <= taken - need <= 1 {
        None
    } else if taken > need {
        Some(lesser(v.top() + rows_for(taken - need, rows, taken), v.cursor() as int) as u64)
    } else if v.top() > 0 {
        Some(greater(v.top() - rows_for(need - taken, rows, taken), 0) as u64)
    } else {
        None
    }
}

/// Whether a window was fitted to the end of its file in at most `n` rounds:
/// each reads the window and moves its top.
pub open spec fn tail_fitted<D: Fn(DiskRequest) -> DiskReply>(
    before: FileView<D>,
    after: FileView<D>,
    height: usize,
    cols: usize,
    n: nat,
) -> bool
    decreases n,
{
    if n == 0 {
        window_filled(before, after, height)
    } else {
        exists|v: FileView<D>| #[trigger]
            window_filled(before, v, height) && match tail_top(v, height, cols) {
                None => after == v,
                Some(t) => exists|w: FileView<D>| #[trigger]
                    put_at(v, w, t, v.cursor()) && tail_fitted(
                        w,
                        after,
                        height,
                        cols,
                        (n - 1) as nat,
                    ),
            }
    }
}

fn next_tail_top<D: Fn(DiskRequest) -> DiskReply>(
    v: &FileView<D>,
    height: usize,
    cols: usize,
) -> (r: Option<u64>)
    requires
        v.wf(),
        v.cursor_in_window(),
        height <= MAX_EXTENT,
    ensures
        r == tail_top(*v, height, cols),
        r matches Some(t) ==> t <= LAST_ROW,
{
    let (top, cursor) = v.snapshot_pos();
    let rows = v.rows();
    let n: usize = rows.len();
    if n == 0 {
        return None;
    }
    let last: u64 = add_lines(top, n as u64);
    let width: usize = width_of_numbers(last);
    let budget: usize = cols_for_text(cols, width);
    let taken: u64 = rows_taken(rows, n, budget);
    proof {
        let counts = row_counts(v.shown(), window_cols(*v, cols as int));
        assert(counts.take(n as int) =~= counts);
    }
    let need: u64 = if height < LEAST_HEIGHT {
        LEAST_HEIGHT as u64
    } else {
        height as u64
    };
    if taken > need {
        if taken - need <= 1 {
            return None;
        }
        let drop: u128 = rows_making(taken - need, n as u64, taken);
        if drop > (cursor - top) as u128 {
            Some(cursor)
        } else {
            Some(top + drop as u64)
        }
    } else if need - taken <= 1 {
        None
    } else if top > 0 {
        let back: u128 = rows_making(need - taken, n as u64, taken);
        if back > top as u128 {
            Some(0)
        } else {
            Some(top - back as u64)
        }
    } else {
        None
    }
}

fn fit_tail<D: Fn(DiskRequest) -> DiskReply>(
    view: &mut FileView<D>,
    height: usize,
    cols: usize,
    n: u64,
)
    requires
        old(view).wf(),
        height <= MAX_EXTENT,
    ensures
        final(view).same_frame(*old(view)),
        final(view).cursor() == old(view).cursor(),
        forall|c: Seq<u8>| #[trigger] old(view).shows(c) ==> final(view).shows(c),
        tail_fitted(*old(view), *final(view), height, cols, n as nat),
    decreases n,
{
    view.fill_to(height);
    let ghost v = *view;
    assert(window_filled(*old(view), v, height));
    proof {
        assert forall|c: Seq<u8>| #[trigger] old(view).shows(c) implies v.shows(c) by {
            assert(v.in_step(c));
        }
    }
    if n == 0 {
        return ;
    }
    match next_tail_top(view, height, cols) {
        None => {},
        Some(t) => {
            view.set_top(t);
            let ghost w = *view;
            assert(put_at(v, w, t, v.cursor()));
            proof {
                assert forall|c: Seq<u8>| #[trigger] old(view).shows(c) implies w.shows(c) by {
                    assert(v.shows(c));
                }
            }
            fit_tail(view, height, cols, n - 1);
        },
    }
}

/// Whether the cursor stands on the last row of a file whose rows are counted,
/// or behind it.
pub open spec fn at_tail<D: Fn(DiskRequest) -> DiskReply>(v: FileView<D>) -> bool {
    v.idx().done() && v.cursor() + 1 >= v.idx().rows()
}

/// Whether the file's pane was fitted to the end of the file.
pub open spec fn file_tail_fitted<D: Fn(DiskRequest) -> DiskReply>(
    before: FileContent<D>,
    after: FileContent<D>,
    cols: usize,
) -> bool {
    if before.wrap && at_tail(before.view) {
        &&& after.same_but_view(before)
        &&& after.view.cursor() == before.view.cursor()
        &&& forall|c: Seq<u8>| #[trigger] before.view.shows(c) ==> after.view.shows(c)
        &&& tail_fitted(before.view, after.view, before.inner_h, cols, BOTTOM_ROUNDS as nat)
    } else {
        after == before
    }
}

/// Scrolls the file's pane, where its rows are wrapped and the cursor stands at
/// the end of the file, so that the file's last row stands at the bottom.
pub fn wrap_tail_fit<D: Fn(DiskRequest) -> DiskReply>(fc: &mut FileContent<D>, cols: usize)
    requires
        old(fc).wf(),
    ensures
        final(fc).wf(),
        file_tail_fitted(*old(fc), *final(fc), cols),
{
    if !fc.wrap || !stands_at_tail(&fc.view) {
        return ;
    }
    fit_tail(&mut fc.view, fc.inner_h, cols, BOTTOM_ROUNDS);
}

/// Whether the cursor stands on the last row of a file whose rows are counted.
pub fn stands_at_tail<D: Fn(DiskRequest) -> DiskReply>(view: &FileView<D>) -> (r: bool)
    requires
        view.wf(),
    ensures
        r == at_tail(*view),
{
    match view.known_total() {
        None => false,
        Some(total) => view.cursor_line1() >= total,
    }
}

/// The lines that each line of a list takes.
pub open spec fn list_counts(
    c: Seq<u8>,
    rows: Seq<Match>,
    max: int,
    enc: Encoding,
    budget: int,
) -> Seq<int> {
    Seq::new(rows.len(), |i: int| line_count(text_or_empty(c, rows[i].line_no, max, enc), budget))
}

/// The columns for the text of a list's lines.
pub open spec fn list_cols(rows: Seq<Match>, cols: int) -> int {
    text_cols(cols, number_width(rows.last().line_no as int))
}

/// The top of a list that was fitted to its selected line in at most `n`
/// rounds.
pub open spec fn list_cursor_top(counts: Seq<int>, top: int, sel: int, need: int, n: nat) -> int
    decreases n,
{
    if n == 0 || sel <= top {
        top
    } else {
        let drop = rows_to_drop(
            lines_taken(counts.subrange(top, sel)),
            counts[sel],
            sel - top,
            need,
        );
        if drop == 0 {
            top
        } else {
            list_cursor_top(counts, lesser(top + drop, sel), sel, need, (n - 1) as nat)
        }
    }
}

fn list_taken<D: Fn(DiskRequest) -> DiskReply>(
    view: &mut FileView<D>,
    rows: &Vec<Match>,
    from: usize,
    to: usize,
    budget: usize,
) -> (r: u64)
    requires
        old(view).wf(),
        from <= to <= rows@.len(),
    ensures
        final(view).same_frame(*old(view)),
        final(view).same_place(*old(view)),
        forall|c: Seq<u8>| #[trigger]
            old(view).shows(c) ==> final(view).shows(c) && r == lines_taken(
                list_counts(
                    c,
                    rows@,
                    old(view).row_limit() as int,
                    old(view).enc(),
                    budget as int,
                ).subrange(from as int, to as int),
            ),
{
    let mut sum: u64 = 0;
    let mut i: usize = from;
    let ghost max = view.row_limit() as int;
    let ghost enc = view.enc();
    proof {
        assert forall|c: Seq<u8>| #[trigger] view.shows(c) implies lines_taken(
            list_counts(c, rows@, max, enc, budget as int).subrange(from as int, from as int),
        ) == 0 by {}
    }
    while i < to
        invariant
            from <= i <= to <= rows@.len(),
            view.wf(),
            view.same_frame(*old(view)),
            view.same_place(*old(view)),
            max == old(view).row_limit(),
            enc == old(view).enc(),
            forall|c: Seq<u8>| #[trigger]
                old(view).shows(c) ==> view.shows(c) && sum == lines_taken(
                    list_counts(c, rows@, max, enc, budget as int).subrange(from as int, i as int),
                ),
        decreases to - i,
    {
        let ghost mid = *view;
        let text = read_text(view, rows[i].line_no);
        let more: u64 = lines_of(text.as_str(), budget);
        let ghost sofar = sum;
        sum = add_lines(sum, more);
        proof {
            assert forall|c: Seq<u8>| #[trigger] old(view).shows(c) implies view.shows(c) && sum
                == lines_taken(
                list_counts(c, rows@, max, enc, budget as int).subrange(from as int, i + 1),
            ) by {
                assert(mid.shows(c));
                assert(view.in_step(c));
                let all = list_counts(c, rows@, max, enc, budget as int);
                assert(all.subrange(from as int, i + 1).drop_last() =~= all.subrange(
                    from as int,
                    i as int,
                ));
            }
        }
        i += 1;
    }
    sum
}

/// Whether a list was fitted to its selected line, its lines read from the
/// file.
pub open spec fn list_cursor_fitted<D: Fn(DiskRequest) -> DiskReply>(
    before: MatchesContent,
    after: MatchesContent,
    view: FileView<D>,
    view_after: FileView<D>,
    cols: usize,
) -> bool {
    let last = before.rows@.len() - 1;
    &&& view_after.same_frame(view)
    &&& view_after.same_place(view)
    &&& forall|c: Seq<u8>| #[trigger] view.shows(c) ==> view_after.shows(c)
    &&& if !before.wrap || last < 0 || before.sel == last || before.sel <= before.top {
        after == before
    } else {
        &&& after == (MatchesContent { top: after.top, ..before })
        &&& before.top <= after.top <= before.sel
        &&& forall|c: Seq<u8>| #[trigger]
            view.shows(c) ==> after.top == list_cursor_top(
                list_counts(
                    c,
                    before.rows@,
                    view.row_limit() as int,
                    view.enc(),
                    list_cols(before.rows@, cols as int),
                ),
                before.top as int,
                before.sel as int,
                greater(before.inner_h as int, LEAST_HEIGHT as int),
                CURSOR_ROUNDS as nat,
            )
    }
}

fn fit_list_cursor<D: Fn(DiskRequest) -> DiskReply>(
    view: &mut FileView<D>,
    rows: &Vec<Match>,
    top: usize,
    sel: usize,
    need: usize,
    budget: usize,
    n: u64,
) -> (r: usize)
    requires
        old(view).wf(),
        sel < rows@.len(),
        top <= sel,
        need <= MAX_EXTENT,
    ensures
        top <= r <= sel,
        final(view).same_frame(*old(view)),
        final(view).same_place(*old(view)),
        forall|c: Seq<u8>| #[trigger]
            old(view).shows(c) ==> final(view).shows(c) && r == list_cursor_top(
                list_counts(
                    c,
                    rows@,
                    old(view).row_limit() as int,
                    old(view).enc(),
                    budget as int,
                ),
                top as int,
                sel as int,
                need as int,
                n as nat,
            ),
    decreases n,
{
    if n == 0 || sel <= top {
        return top;
    }
    let above: u64 = list_taken(view, rows, top, sel, budget);
    let ghost mid = *view;
    let text = read_text(view, rows[sel].line_no);
    let here: u64 = lines_of(text.as_str(), budget);
    let ghost after = *view;
    let drop: u64 = drop_count(above, here, (sel - top) as u64, need as u64);
    proof {
        assert forall|c: Seq<u8>| #[trigger] old(view).shows(c) implies after.shows(c) by {
            assert(mid.shows(c));
            assert(after.in_step(c));
        }
        assert forall|c: Seq<u8>| #[trigger] old(view).shows(c) implies ({
            let counts = list_counts(
                c,
                rows@,
                old(view).row_limit() as int,
                old(view).enc(),
                budget as int,
            );
            above == lines_taken(counts.subrange(top as int, sel as int)) && here
                == counts[sel as int]
        }) by {
            assert(mid.shows(c));
        }
    }
    if drop == 0 {
        return top;
    }
    let next: usize = if drop > (sel - top) as u64 {
        sel
    } else {
        top + drop as usize
    };
    let r: usize = fit_list_cursor(view, rows, next, sel, need, budget, n - 1);
    proof {
        assert forall|c: Seq<u8>| #[trigger] old(view).shows(c) implies view.shows(c) && r
            == list_cursor_top(
            list_counts(c, rows@, old(view).row_limit() as int, old(view).enc(), budget as int),
            top as int,
            sel as int,
            need as int,
            n as nat,
        ) by {
            assert(after.shows(c));
        }
    }
    r
}

/// Scrolls a list, where its lines are wrapped, so that the selected line is
/// seen.
pub fn wrap_list_cursor_fit<D: Fn(DiskRequest) -> DiskReply>(
    mc: &mut MatchesContent,
    view: &mut FileView<D>,
    cols: usize,
)
    requires
        old(mc).wf(),
        old(view).wf(),
    ensures
        final(mc).wf(),
        list_cursor_fitted(*old(mc), *final(mc), *old(view), *final(view), cols),
{
    let len: usize = mc.rows.len();
    if !mc.wrap || len == 0 || mc.sel == len - 1 || mc.sel <= mc.top {
        return ;
    }
    let width: usize = width_of_numbers(mc.rows[len - 1].line_no);
    let budget: usize = cols_for_text(cols, width);
    let need: usize = if mc.inner_h < LEAST_HEIGHT {
        LEAST_HEIGHT
    } else {
        mc.inner_h
    };
    mc.top = fit_list_cursor(view, &mc.rows, mc.top, mc.sel, need, budget, CURSOR_ROUNDS);
}

/// The top of a list whose last line is selected that was fitted to the bottom
/// of its pane in at most `n` rounds.
pub open spec fn list_bottom_top(counts: Seq<int>, top: int, need: int, n: nat) -> int
    decreases n,
{
    let last = counts.len() - 1;
    let rows = counts.len() - top;
    let taken = lines_taken(counts.skip(top));
    if n == 0 || -1 <= taken - need <= 1 {
        top
    } else if taken > need {
        let next = top + rows_for(taken - need, rows, taken);
        if next >= last {
            last
        } else {
            list_bottom_top(counts, next, need, (n - 1) as nat)
        }
    } else if top > 0 {
        list_bottom_top(
            counts,
            greater(top - rows_for(need - taken, rows, taken), 0),
            need,
            (n - 1) as nat,
        )
    } else {
        top
    }
}

/// Whether a list was fitted to the bottom of its pane, its lines read from the
/// file.
pub open spec fn list_bottom_fitted<D: Fn(DiskRequest) -> DiskReply>(
    before: MatchesContent,
    after: MatchesContent,
    view: FileView<D>,
    view_after: FileView<D>,
    cols: usize,
) -> bool {
    let len = before.rows@.len();
    &&& view_after.same_frame(view)
    &&& view_after.same_place(view)
    &&& forall|c: Seq<u8>| #[trigger] view.shows(c) ==> view_after.shows(c)
    &&& if !before.wrap || len == 0 || before.sel != len - 1 || len > BOTTOM_LIST_LIMIT {
        after == before
    } else {
        &&& after == (MatchesContent { top: after.top, ..before })
        &&& after.top <= before.sel
        &&& forall|c: Seq<u8>| #[trigger]
            view.shows(c) ==> after.top == list_bottom_top(
                list_counts(
                    c,
                    before.rows@,
                    view.row_limit() as int,
                    view.enc(),
                    list_cols(before.rows@, cols as int),
                ),
                before.top as int,
                greater(before.inner_h as int, LEAST_HEIGHT as int),
                BOTTOM_ROUNDS as nat,
            )
    }
}

/// Numbers of lines as integers.
pub open spec fn as_ints(v: Seq<u64>) -> Seq<int> {
    v.map_values(|x: u64| x as int)
}

fn counts_taken(counts: &Vec<u64>, from: usize) -> (r: u64)
    requires
        from <= counts@.len(),
    ensures
        r == lines_taken(as_ints(counts@).skip(from as int)),
{
    let n: usize = counts.len();
    let ghost all = as_ints(counts@).skip(from as int);
    let mut sum: u64 = 0;
    let mut i: usize = from;
    while i < n
        invariant
            from <= i <= n,
            n == counts@.len(),
            all == as_ints(counts@).skip(from as int),
            sum == lines_taken(all.take(i - from)),
        decreases n - i,
    {
        assert(all.take(i + 1 - from).drop_last() =~= all.take(i - from));
        sum = add_lines(sum, counts[i]);
        i += 1;
    }
    assert(all.take(n - from) =~= all);
    sum
}

fn fit_list_bottom(counts: &Vec<u64>, top: usize, need: u64, n: u64) -> (r: usize)
    requires
        top < counts@.len(),
    ensures
        r == list_bottom_top(as_ints(counts@), top as int, need as int, n as nat),
        r < counts@.len(),
    decreases n,
{
    let len: usize = counts.len();
    if n == 0 {
        return top;
    }
    let rows: u64 = (len - top) as u64;
    let taken: u64 = counts_taken(counts, top);
    if taken > need {
        if taken - need <= 1 {
            return top;
        }
        let more: u128 = rows_making(taken - need, rows, taken);
        if more >= (len - 1 - top) as u128 {
            len - 1
        } else {
            let next: usize = top + more as usize;
            fit_list_bottom(counts, next, need, n - 1)
        }
    } else if need - taken <= 1 {
        top
    } else if top > 0 {
        let back: u128 = rows_making(need - taken, rows, taken);
        let next: usize = if back > top as u128 {
            0
        } else {
            top - back as usize
        };
        proof {
            lemma_rows_for((need - taken) as int, rows as int, taken as int);
        }
        fit_list_bottom(counts, next, need, n - 1)
    } else {
        top
    }
}

proof fn lemma_rows_for(lines: int, rows: int, taken: int)
    requires
        lines >= 0,
        rows >= 1,
    ensures
        rows_for(lines, rows, taken) >= 0,
{
    let all = lines * rows;
    let per = greater(taken, rows);
    assert(all >= 0) by (nonlinear_arith)
        requires
            all == lines * rows,
            lines >= 0,
            rows >= 1,
    ;
    assert((all + per - 1) / per >= 0) by (nonlinear_arith)
        requires
            all >= 0,
            per >= 1,
    ;
}

/// Scrolls a list whose lines are wrapped and whose last line is selected so
/// that this line stands at the bottom.
pub fn wrap_list_bottom_fit<D: Fn(DiskRequest) -> DiskReply>(
    mc: &mut MatchesContent,
    view: &mut FileView<D>,
    cols: usize,
)
    requires
        old(mc).wf(),
        old(view).wf(),
    ensures
        final(mc).wf(),
        list_bottom_fitted(*old(mc), *final(mc), *old(view), *final(view), cols),
{
    let len: usize = mc.rows.len();
    if !mc.wrap || len == 0 || mc.sel != len - 1 || len > BOTTOM_LIST_LIMIT {
        return ;
    }
    let width: usize = width_of_numbers(mc.rows[len - 1].line_no);
    let budget: usize = cols_for_text(cols, width);
    let need: usize = if mc.inner_h < LEAST_HEIGHT {
        LEAST_HEIGHT
    } else {
        mc.inner_h
    };
    let ghost max = view.row_limit() as int;
    let ghost enc = view.enc();
    let ghost before = *mc;
    let mut counts: Vec<u64> = Vec::new();
    let mut i: usize = 0;
    while i < len
        invariant
            i <= len,
            *mc == before,
            len == mc.rows@.len(),
            view.wf(),
            view.same_frame(*old(view)),
            view.same_place(*old(view)),
            max == old(view).row_limit(),
            enc == old(view).enc(),
            counts@.len() == i,
            forall|c: Seq<u8>| #[trigger]
                old(view).shows(c) ==> view.shows(c) && as_ints(counts@) == list_counts(
                    c,
                    mc.rows@,
                    max,
                    enc,
                    budget as int,
                ).take(i as int),
        decreases len - i,
    {
        let ghost mid = *view;
        let ghost sofar = counts@;
        let text = read_text(view, mc.rows[i].line_no);
        counts.push(lines_of(text.as_str(), budget));
        proof {
            assert forall|c: Seq<u8>| #[trigger] old(view).shows(c) implies view.shows(c)
                && as_ints(counts@) == list_counts(c, mc.rows@, max, enc, budget as int).take(
                i + 1,
            ) by {
                assert(mid.shows(c));
                assert(view.in_step(c));
                let all = list_counts(c, mc.rows@, max, enc, budget as int);
                assert(as_ints(sofar) == all.take(i as int));
                assert(as_ints(counts@) =~= all.take(i + 1)) by {
                    assert forall|k: int| 0 <= k < i implies as_ints(counts@)[k] == all[k] by {
                        assert(as_ints(sofar)[k] == all.take(i as int)[k]);
                    }
                }
            }
        }
        i += 1;
    }
    mc.top = fit_list_bottom(&counts, mc.top, need as u64, BOTTOM_ROUNDS);
    proof {
        assert forall|c: Seq<u8>| #[trigger] old(view).shows(c) implies as_ints(counts@)
            == list_counts(c, before.rows@, max, enc, budget as int) by {
            let all = list_counts(c, before.rows@, max, enc, budget as int);
            assert(all.take(len as int) =~= all);
        }
    }
}

/// The mark, the number, the bar and the text of a row take the columns of the pane,
/// where there is room for the least of each; the numbers are wide enough for the
/// digits of the last one.
pub proof fn law_rows_take_the_columns(cols: int, last: nat)
    requires
        cols >= number_width(last as int) + 2 + LEAST_WIDTH,
    ensures
        1 + number_width(last as int) + 1 + text_cols(cols, number_width(last as int)) == cols,
        number_width(last as int) >= decimal(last).len(),
{
}

/// Rows leave the top of a pane exactly where the cursor's row is not seen, or
/// stands deeper than two thirds down; where a row is higher than the pane, where
/// anything stands above it. As many leave as the lines to be won take, by the
/// lines that the rows above take each, and none more.
pub proof fn law_rows_leave_for_the_cursor(above: int, here: int, rows: int, height: int)
    requires
        above >= 0,
        here >= 1,
        rows >= 1,
        height >= 1,
    ensures
        rows_to_drop(above, here, rows, height) == 0 <==> if here <= height {
            above + here <= height && 3 * above <= 2 * height
        } else {
            above == 0
        },
        ({
            let drop = rows_to_drop(above, here, rows, height);
            let each = if above / rows >= 1 {
                above / rows
            } else {
                1
            };
            let rest = above - (drop - 1) * each;
            drop > 0 ==> {
                &&& if here <= height {
                    rest + here > height || 3 * rest > 2 * height
                } else {
                    rest > 0
                }
                &&& if here <= height {
                    rest - each + here <= height && 3 * (rest - each) <= 2 * height
                } else {
                    rest - each <= 0
                }
            }
        }),
{
    let want = if here <= height {
        lesser(height - here, height * 2 / 3)
    } else {
        0
    };
    if above > want {
        let each = greater(above / rows, 1);
        let less = above - want;
        let drop = (less + each - 1) / each;
        assert(drop >= 1 && (drop - 1) * each < less && less <= drop * each) by (nonlinear_arith)
            requires
                less >= 1,
                each >= 1,
                drop == (less + each - 1) / each,
        ;
        assert((drop - 1) * each == drop * each - each) by (nonlinear_arith);
    }
}

/// The rows that make up some lines are the fewest that do, by the lines that the
/// rows take together.
pub proof fn law_fewest_rows_for_the_lines(lines: int, rows: int, taken: int)
    requires
        lines >= 1,
        rows >= 1,
        taken >= rows,
    ensures
        rows_for(lines, rows, taken) * taken >= lines * rows,
        (rows_for(lines, rows, taken) - 1) * taken < lines * rows,
{
    let x = lines * rows;
    let r = (x + taken - 1) / taken;
    assert(r * taken >= x && (r - 1) * taken < x) by (nonlinear_arith)
        requires
            r == (x + taken - 1) / taken,
            taken >= 1,
    ;
}

/// At the end of the file a window whose rows are wrapped goes down where its rows
/// take more lines than the pane has, and up where they leave lines free and there
/// are rows above; where they fill the pane, up to a line, it stays.
pub proof fn law_the_end_fills_the_pane<D: Fn(DiskRequest) -> DiskReply>(
    v: FileView<D>,
    height: usize,
    cols: usize,
)
    requires
        v.wf(),
        v.cursor_in_window(),
        v.shown().len() > 0,
        height >= 4,
    ensures
        ({
            let taken = lines_taken(row_counts(v.shown(), window_cols(v, cols as int)));
            match tail_top(v, height, cols) {
                None => taken <= height + 1 && (taken >= height - 1 || v.top() == 0),
                Some(t) => {
                    &&& taken > height + 1 || taken < height - 1
                    &&& taken > height + 1 ==> (v.top() < t <= v.cursor() || t == v.cursor()) && (t
                        - v.top() == rows_for(
                        taken - height,
                        v.shown().len() as int,
                        taken,
                    ) || t == v.cursor())
                    &&& taken < height - 1 ==> t < v.top() && (v.top() - t == rows_for(
                        height - taken,
                        v.shown().len() as int,
                        taken,
                    ) || t == 0)
                },
            }
        }),
{
    let rows = v.shown().len() as int;
    let taken = lines_taken(row_counts(v.shown(), window_cols(v, cols as int)));
    let need = height as int;
    if taken > need + 1 || taken < need - 1 {
        let lines = if taken > need {
            taken - need
        } else {
            need - taken
        };
        let per = greater(taken, rows);
        let x = lines * rows;
        assert((x + per - 1) / per >= 1) by (nonlinear_arith)
            requires
                x == lines * rows,
                lines >= 1,
                rows >= 1,
                per >= 1,
        ;
    }
}

/// A window whose rows are wrapped moves for the cursor's row where rows have to
/// leave its top, by just these rows, and not past the cursor.
pub proof fn law_wrapped_windows_follow_the_cursor<D: Fn(DiskRequest) -> DiskReply>(
    v: FileView<D>,
    height: usize,
    cols: usize,
)
    requires
        v.wf(),
        v.top() < v.cursor() < v.top() + v.shown().len(),
        height >= 4,
    ensures
        ({
            let at = v.cursor() - v.top();
            let counts = row_counts(v.shown(), window_cols(v, cols as int));
            let drop = rows_to_drop(
                lines_taken(counts.take(at)),
                counts[at],
                at,
                height as int,
            );
            match cursor_top(v, height, cols) {
                None => drop == 0,
                Some(t) => drop != 0 && (t - v.top() == drop || (t == v.cursor() && at < drop)),
            }
        }),
{
}

/// A list whose lines are wrapped moves for its selected line where lines have to
/// leave its top, by just these, and not past the selected line; it is looked at
/// again from there, as often as asked for.
pub proof fn law_wrapped_lists_follow_the_selection(
    counts: Seq<int>,
    top: int,
    sel: int,
    need: int,
    n: nat,
)
    requires
        0 <= top < sel < counts.len(),
    ensures
        ({
            let drop = rows_to_drop(
                lines_taken(counts.subrange(top, sel)),
                counts[sel],
                sel - top,
                need,
            );
            let once = list_cursor_top(counts, top, sel, need, 1);
            &&& drop == 0 ==> list_cursor_top(counts, top, sel, need, n) == top
            &&& drop != 0 && top + drop <= sel ==> once == top + drop
            &&& drop != 0 && top + drop > sel ==> once == sel
            &&& drop != 0 ==> list_cursor_top(counts, top, sel, need, n + 1) == list_cursor_top(
                counts,
                once,
                sel,
                need,
                n,
            )
        }),
{
    reveal_with_fuel(list_cursor_top, 2);
}

/// A list whose last line is selected goes down where its lines take more than the
/// pane has, and up where they leave lines free and there are lines above; where they
/// fill the pane, up to a line, it stays. It is looked at again from there, as often
/// as asked for.
pub proof fn law_the_end_of_a_list_fills_the_pane(counts: Seq<int>, top: int, need: int, n: nat)
    requires
        0 <= top < counts.len(),
        need >= 4,
    ensures
        ({
            let taken = lines_taken(counts.skip(top));
            let rows = counts.len() - top;
            let last = counts.len() - 1;
            let once = list_bottom_top(counts, top, need, 1);
            &&& need - 1 <= taken <= need + 1 ==> list_bottom_top(counts, top, need, n) == top
            &&& taken > need + 1 ==> once == if top + rows_for(taken - need, rows, taken) >= last {
                last
            } else {
                top + rows_for(taken - need, rows, taken)
            }
            &&& taken < need - 1 && top == 0 ==> list_bottom_top(counts, top, need, n) == 0
            &&& taken < need - 1 && top > 0 ==> once == if top < rows_for(
                need - taken,
                rows,
                taken,
            ) {
                0
            } else {
                top - rows_for(need - taken, rows, taken)
            }
            &&& (taken < need - 1 && top > 0) || (taken > need + 1 && once < last)
                ==> list_bottom_top(counts, top, need, n + 1) == list_bottom_top(
                counts,
                once,
                need,
                n,
            )
        }),
{
    reveal_with_fuel(list_bottom_top, 2);
}

} // verus!
