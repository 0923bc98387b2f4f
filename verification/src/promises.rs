//! What the keys come to: for each action, where rows, panes and texts end up.
use vstd::prelude::*;
use crate::app::{pane_ids, App, Effect, JumpKind, FILE_PANE, LAST_ID};
use crate::arrange::{lemma_place, seen_panes};
use crate::commands::{
    cmd_key_done, goto_key_done, history_key_done, pick_key_done, search_committed,
    selected_parts, visual_key_done,
};
use crate::encoding::Encoding;
use crate::file::{DiskReply, DiskRequest};
use crate::jumps::{first_jumped, followed_end, news_taken, search_begun, SearchNews};
use crate::keymap::{Action, KeyCode, KeyPress};
use crate::keys::{dispatched, key_done, normal_key_done};
use crate::layout::{
    axis_split, has_axis, law_a_step_is_a_twentieth, law_close_takes_the_pane_out, law_growing_enlarges, law_leaves_hold_the_panes,
    law_resizing_keeps_the_panes, law_split_divides_the_rectangle, leaves, rect_of, staying,
    RectLike, NO_PANE,
};
use crate::lines::row_total;
use crate::modes::{passing, Mode, VisualKind, VisualState};
use crate::moves::{export_rows, export_text};
use crate::panes::{
    centered, first_hit, law_steps_go_to_the_nearest, line_numbers, list_searched, place_in,
    places, rising, searched, step_hit, text_or_empty, FileContent, MatchesContent, SearchPrefs,
};
use crate::search::{regex_compiled, source_of, Case, Match};
use crate::text::{
    all_digits, decimal, decimal_value, fuzzy, joined, law_number_reads_back, split, str_cols,
    texts, trimmed,
};
use crate::view::{FileView, LAST_ROW};

verus! {

/// The smaller of two numbers.
pub open spec fn least(a: int, b: int) -> int {
    if a <= b {
        a
    } else {
        b
    }
}

/// The larger of two numbers.
pub open spec fn most(a: int, b: int) -> int {
    if a <= b {
        b
    } else {
        a
    }
}

/// Whether an action goes down, or up, by half of a pane or by a whole one.
pub open spec fn turns_pages(act: Action) -> bool {
    act == Action::HalfDown || act == Action::HalfUp || act == Action::PageDown || act
        == Action::PageUp
}

/// Half a page down or up moves the window by half of the pane's rows, a page by
/// all of its rows but two, each by at least one row; the cursor keeps its place on the screen. At the
/// ends of the file the window stops: at the first row, or where the last row is
/// seen at the bottom.
pub proof fn law_page_keys_move_the_window<D: Fn(DiskRequest) -> DiskReply>(
    before: App<D>,
    after: App<D>,
    act: Action,
    c: Seq<u8>,
)
    requires
        before.wf(),
        before.focus == 0,
        turns_pages(act),
        before.file().view.shows(c),
        before.file().view.cursor_in_window(),
        before.file().view.cursor() + 1 < row_total(c),
        row_total(c) <= LAST_ROW,
        dispatched(before, after, act),
    ensures
        ({
            let height = before.file().inner_h as int;
            let v0 = before.file().view;
            let v1 = after.file().view;
            let total = row_total(c) as int;
            let rows = if act == Action::HalfDown || act == Action::HalfUp {
                most(height / 2, 1)
            } else {
                most(height - 2, 1)
            };
            if act == Action::HalfDown || act == Action::PageDown {
                if v0.top() + rows < total {
                    &&& v1.top() == v0.top() + rows
                    &&& v1.cursor() == least(v0.cursor() + rows, total - 1)
                } else {
                    &&& v1.top() == most(total - v0.height(), 0)
                    &&& v1.cursor() == total - 1
                }
            } else {
                &&& v1.top() == most(v0.top() - rows, 0)
                &&& v1.cursor() <= v0.cursor()
                &&& v0.top() >= rows ==> v1.cursor() == v0.cursor() - rows
            }
        }),
        after.follow == (before.follow && (act == Action::HalfDown || act == Action::PageDown)),
{
}

/// In a list, half a page moves the selection by half of the pane's rows, a page
/// by all of its rows but two, each by at least one, as far as the list goes; the
/// selected line is seen.
pub proof fn law_page_keys_move_the_selection<D: Fn(DiskRequest) -> DiskReply>(
    before: App<D>,
    after: App<D>,
    act: Action,
)
    requires
        before.wf(),
        before.focus > 0,
        turns_pages(act),
        before.list(before.focus as int).inner_h >= 1,
        before.list(before.focus as int).rows@.len() > 0,
        dispatched(before, after, act),
    ensures
        ({
            let mc = before.list(before.focus as int);
            let height = mc.inner_h as int;
            let rows = if act == Action::HalfDown || act == Action::HalfUp {
                most(height / 2, 1)
            } else {
                most(height - 2, 1)
            };
            let now = after.list(before.focus as int);
            &&& now.rows@ == mc.rows@
            &&& now.top <= now.sel < now.top + height
            &&& now.top > mc.top ==> now.sel == now.top + height - 1
            &&& now.top < mc.top ==> now.sel == now.top
            &&& now.sel == if act == Action::HalfDown || act
                == Action::PageDown {
                least(mc.sel + rows, mc.rows@.len() - 1)
            } else {
                most(mc.sel - rows, 0)
            }
        }),
{
    let mc = before.list(before.focus as int);
    assert(before.panes.len() == before.panes@.len());
    assert(mc.rows.len() == mc.rows@.len());
    assert(before.panes@[before.focus as int].content is Matches);
}

/// A page goes at least as far as half a page, and two half pages go no further
/// than the pane is high.
pub proof fn law_pages_are_longer_than_half_pages<D: Fn(DiskRequest) -> DiskReply>(
    before: App<D>,
    half: App<D>,
    page: App<D>,
    down: bool,
    c: Seq<u8>,
)
    requires
        before.wf(),
        before.focus == 0,
        before.file().inner_h >= 4,
        before.file().view.shows(c),
        before.file().view.cursor_in_window(),
        before.file().view.cursor() + 1 < row_total(c),
        before.file().view.top() + before.file().inner_h < row_total(c),
        row_total(c) <= LAST_ROW,
        dispatched(
            before,
            half,
            if down {
                Action::HalfDown
            } else {
                Action::HalfUp
            },
        ),
        dispatched(
            before,
            page,
            if down {
                Action::PageDown
            } else {
                Action::PageUp
            },
        ),
    ensures
        ({
            let from = before.file().view.top();
            let h = half.file().view.top();
            let p = page.file().view.top();
            if down {
                &&& from < h <= p
                &&& 2 * (h - from) <= before.file().inner_h
                &&& p - from < before.file().inner_h
            } else {
                &&& p <= h <= from
                &&& 2 * (from - h) <= before.file().inner_h
                &&& from > 0 ==> h < from
            }
        }),
{
    let (a, b) = if down {
        (Action::HalfDown, Action::PageDown)
    } else {
        (Action::HalfUp, Action::PageUp)
    };
    law_page_keys_move_the_window(before, half, a, c);
    law_page_keys_move_the_window(before, page, b, c);
}

/// A key that puts a list beside a pane puts it there: `j` below the pane, `l` to
/// its right, `k` above it and `h` to its left; beside the file it never comes
/// before. The two share the place that the pane had, and no other pane moves.
pub proof fn law_lists_are_put_where_the_key_says<D: Fn(DiskRequest) -> DiskReply>(
    before: App<D>,
    after: App<D>,
    key: KeyPress,
    side: char,
    area: RectLike,
)
    requires
        before.wf(),
        before.next_id < LAST_ID,
        before.mode is PickTarget,
        side == 'h' || side == 'j' || side == 'k' || side == 'l',
        key.code == KeyCode::Char(side),
        pick_key_done(before, after, key),
        ({
            let r = rect_of(before.layout.root, area, before.panes@[before.focus as int].id);
            &&& r.x + r.w <= u16::MAX
            &&& r.y + r.h <= u16::MAX
            &&& r.w >= 1
            &&& r.h >= 1
        }),
    ensures
        ({
            let id = before.panes@[before.focus as int].id;
            let place = rect_of(before.layout.root, area, id);
            let kept = rect_of(after.layout.root, area, id);
            let made = rect_of(after.layout.root, area, before.next_id);
            let earlier = id != FILE_PANE && (side == 'h' || side == 'k');
            &&& after.panes@[after.focus as int].id == before.next_id
            &&& if side == 'h' || side == 'l' {
                &&& kept.y == place.y && made.y == place.y
                &&& kept.h == place.h && made.h == place.h
                &&& kept.w + made.w == place.w
                &&& -1 <= kept.w - made.w <= 1
                &&& if earlier {
                    made.x == place.x && kept.x == made.x + made.w
                } else {
                    kept.x == place.x && made.x == kept.x + kept.w
                }
            } else {
                &&& kept.x == place.x && made.x == place.x
                &&& kept.w == place.w && made.w == place.w
                &&& kept.h + made.h == place.h
                &&& -1 <= kept.h - made.h <= 1
                &&& if earlier {
                    made.y == place.y && kept.y == made.y + made.h
                } else {
                    kept.y == place.y && made.y == kept.y + kept.h
                }
            }
        }),
        forall|i: int|
            0 <= i < before.panes@.len() && i != before.focus ==> rect_of(
                after.layout.root,
                area,
                (#[trigger] before.panes@[i]).id,
            ) == rect_of(before.layout.root, area, before.panes@[i].id),
        after.mode is Normal,
{
    let f = before.focus as int;
    let id = before.panes@[f].id;
    lemma_place(before, f);
    assert(before.panes.len() == before.panes@.len());
    let dir = if side == 'h' || side == 'l' {
        crate::layout::Dir::H
    } else {
        crate::layout::Dir::V
    };
    let first = id != FILE_PANE && (side == 'h' || side == 'k');
    law_split_divides_the_rectangle(before.layout.root, area, id, dir, before.next_id, first);
    assert forall|i: int| 0 <= i < before.panes@.len() && i != before.focus implies rect_of(
        after.layout.root,
        area,
        (#[trigger] before.panes@[i]).id,
    ) == rect_of(before.layout.root, area, before.panes@[i].id) by {
        lemma_place(before, i);
        let ids = crate::app::pane_ids(before.panes@);
        assert(ids[i] != ids[f]);
    }
}

/// A row with its line end.
pub open spec fn ended_row(text: Seq<char>) -> Seq<char> {
    text + seq!['\n']
}

/// The texts of `n` rows of the file from row `first` on.
pub open spec fn row_texts(c: Seq<u8>, max: int, enc: Encoding, first: int, n: nat) -> Seq<
    Seq<char>,
> {
    Seq::new(n, |i: int| text_or_empty(c, (first + i) as u64, max, enc))
}

/// The parts that are selected of `n` rows from row `first` on: of a block the
/// same columns of each row; else all from one end of the selection to the
/// other, both ends with their characters.
pub open spec fn parts_between(
    rows: Seq<Seq<char>>,
    block: bool,
    start: int,
    end: int,
) -> Seq<Seq<char>> {
    Seq::new(
        rows.len(),
        |i: int|
            {
                let len = rows[i].len() as int;
                let lo = if block || i == 0 {
                    least(start, len)
                } else {
                    0
                };
                let hi = if block || i == rows.len() - 1 {
                    least(end + 1, len)
                } else {
                    len
                };
                if lo < hi {
                    rows[i].subrange(lo, hi)
                } else {
                    Seq::empty()
                }
            },
    )
}

/// The parts that a selection takes of its rows.
pub open spec fn parts_selected(v: VisualState, cursor: int, rows: Seq<Seq<char>>) -> Seq<
    Seq<char>,
> {
    let anchor = v.anchor_row as int;
    let level = v.kind == VisualKind::Block || anchor == cursor;
    let (start, end) = if level {
        (
            least(v.anchor_col as int, v.cur_col as int),
            most(v.anchor_col as int, v.cur_col as int),
        )
    } else if anchor < cursor {
        (v.anchor_col as int, v.cur_col as int)
    } else {
        (v.cur_col as int, v.anchor_col as int)
    };
    parts_between(rows, v.kind == VisualKind::Block, start, end)
}

/// Whole rows that are copied come one behind the other, each with a line end:
/// taken apart at the line ends the text is the rows again, and nothing behind
/// the last one.
pub proof fn law_copied_rows_keep_their_line_ends<D: Fn(DiskRequest) -> DiskReply>(
    before: App<D>,
    after: App<D>,
    key: KeyPress,
    v: VisualState,
    c: Seq<u8>,
)
    requires
        before.wf(),
        before.mode == Mode::Visual(v),
        v.kind == VisualKind::Line,
        key.code == KeyCode::Char('y'),
        visual_key_done(before, after, key),
        before.file().view.shows(c),
    ensures
        ({
            let view = before.file().view;
            let cursor = view.cursor() + 1;
            let first = least(v.anchor_row as int, cursor);
            let n = (most(v.anchor_row as int, cursor) - first + 1) as nat;
            let rows = row_texts(c, view.row_limit() as int, view.enc(), first, n);
            &&& after.effects@.len() == before.effects@.len() + 1
            &&& after.effects@.last() matches Effect::Copy { text, rows: count } && {
                &&& count == n
                &&& text@ == rows.map_values(|t: Seq<char>| ended_row(t)).flatten()
                &&& (forall|i: int| 0 <= i < n ==> !(#[trigger] rows[i]).contains('\n'))
                    ==> split(text@, '\n') == rows.push(Seq::empty())
            }
        }),
        after.mode is Normal,
{
    let view = before.file().view;
    let max = view.row_limit() as int;
    let enc = view.enc();
    let cursor = view.cursor() + 1;
    let first = least(v.anchor_row as int, cursor);
    let n = (most(v.anchor_row as int, cursor) - first + 1) as nat;
    let rows = row_texts(c, max, enc, first, n);
    let parts = selected_parts(v, cursor as u64, c, max, enc, first as u64, n);
    assert forall|i: int| 0 <= i < n implies parts[i] == #[trigger] rows[i] by {
        let t = text_or_empty(c, (first + i) as u64, max, enc);
        assert(t.subrange(0, t.len() as int) =~= t);
        if t.len() == 0 {
            assert(t =~= Seq::empty());
        }
    }
    assert(parts =~= rows);
    reveal_strlit("\n");
    assert("\n"@ =~= seq!['\n']);
    lemma_joined_ends(rows);
    if forall|i: int| 0 <= i < n ==> !(#[trigger] rows[i]).contains('\n') {
        let more = rows.push(Seq::empty());
        assert(more.drop_last() =~= rows);
        assert(joined(more, seq!['\n']) =~= joined(rows, seq!['\n']) + seq!['\n']);
        assert forall|i: int| 0 <= i < more.len() implies !(#[trigger] more[i]).contains('\n') by {
            if i < n {
                assert(more[i] == rows[i]);
            }
        }
        lemma_split_joined(more, '\n');
    }
}

/// A part of the text that is copied is what was selected: of a block the same
/// columns of each row, else everything from one end to the other, row by row
/// with a line end between them and none behind.
pub proof fn law_copied_text_is_the_selection<D: Fn(DiskRequest) -> DiskReply>(
    before: App<D>,
    after: App<D>,
    key: KeyPress,
    v: VisualState,
    c: Seq<u8>,
)
    requires
        before.wf(),
        before.mode == Mode::Visual(v),
        v.kind != VisualKind::Line,
        key.code == KeyCode::Char('y'),
        visual_key_done(before, after, key),
        before.file().view.shows(c),
    ensures
        ({
            let view = before.file().view;
            let cursor = view.cursor() + 1;
            let first = least(v.anchor_row as int, cursor);
            let n = (most(v.anchor_row as int, cursor) - first + 1) as nat;
            let rows = row_texts(c, view.row_limit() as int, view.enc(), first, n);
            let parts = parts_selected(v, cursor, rows);
            &&& after.effects@.len() == before.effects@.len() + 1
            &&& after.effects@.last() matches Effect::Copy { text, rows: count } && {
                &&& count == n
                &&& text@ + seq!['\n'] == parts.map_values(|t: Seq<char>| ended_row(t)).flatten()
                &&& (forall|i: int| 0 <= i < n ==> !(#[trigger] parts[i]).contains('\n'))
                    ==> split(text@, '\n') == parts
            }
        }),
        after.mode is Normal,
{
    let view = before.file().view;
    let max = view.row_limit() as int;
    let enc = view.enc();
    let cursor = view.cursor() + 1;
    let anchor = v.anchor_row as int;
    let first = least(anchor, cursor);
    let n = (most(anchor, cursor) - first + 1) as nat;
    let rows = row_texts(c, max, enc, first, n);
    let parts = parts_selected(v, cursor, rows);
    let told = selected_parts(v, cursor as u64, c, max, enc, first as u64, n);
    assert forall|i: int| 0 <= i < n implies told[i] == #[trigger] parts[i] by {
        let t = rows[i];
        assert(t == text_or_empty(c, (first + i) as u64, max, enc));
        let row = (first + i) as u64;
        let sel = v.selected(cursor as u64, row, t.len());
        assert(sel is Some);
    }
    assert(told =~= parts);
    reveal_strlit("\n");
    assert("\n"@ =~= seq!['\n']);
    lemma_joined_ends(parts);
    if forall|i: int| 0 <= i < n ==> !(#[trigger] parts[i]).contains('\n') {
        lemma_split_joined(parts, '\n');
    }
}

/// Rows with line ends between them, and one more behind, are rows that each
/// have a line end.
proof fn lemma_joined_ends(rows: Seq<Seq<char>>)
    requires
        rows.len() > 0,
    ensures
        joined(rows, seq!['\n']) + seq!['\n'] == rows.map_values(
            |t: Seq<char>| ended_row(t),
        ).flatten(),
    decreases rows.len(),
{
    let f = |t: Seq<char>| ended_row(t);
    let all = rows.map_values(f);
    all.lemma_flatten_and_flatten_alt_are_equivalent();
    if rows.len() == 1 {
        assert(all =~= seq![ended_row(rows[0])]);
        all.lemma_flatten_one_element();
    } else {
        let front = rows.drop_last();
        lemma_joined_ends(front);
        assert(all.drop_last() =~= front.map_values(f));
        all.drop_last().lemma_flatten_and_flatten_alt_are_equivalent();
        assert(all.flatten_alt() == all.drop_last().flatten_alt() + ended_row(rows.last()));
        assert(joined(rows, seq!['\n']) + seq!['\n'] =~= (joined(front, seq!['\n']) + seq!['\n'])
            + ended_row(rows.last()));
    }
}

/// Texts without a separator, put together with separators between them, come
/// apart at the separators.
pub proof fn lemma_split_joined(parts: Seq<Seq<char>>, sep: char)
    requires
        parts.len() > 0,
        forall|i: int| 0 <= i < parts.len() ==> !(#[trigger] parts[i]).contains(sep),
    ensures
        split(joined(parts, seq![sep]), sep) == parts,
    decreases parts.len(),
{
    let last = parts.last();
    assert(parts[parts.len() - 1] == last);
    if parts.len() == 1 {
        assert(parts =~= seq![last]);
        assert(split(Seq::<char>::empty(), sep) =~= Seq::<Seq<char>>::empty().push(Seq::empty()));
        assert(Seq::<char>::empty() + last =~= last);
        assert(Seq::<char>::empty() + Seq::<char>::empty() =~= Seq::<char>::empty());
        lemma_split_more(Seq::empty(), Seq::empty(), last, sep);
        assert(parts =~= Seq::<Seq<char>>::empty().push(last));
    } else {
        let front = parts.drop_last();
        assert forall|i: int| 0 <= i < front.len() implies !(#[trigger] front[i]).contains(sep) by {
            assert(front[i] == parts[i]);
        }
        lemma_split_joined(front, sep);
        let head = joined(front, seq![sep]) + seq![sep];
        assert(head.drop_last() =~= joined(front, seq![sep]));
        assert(split(head, sep) == front.push(Seq::empty()));
        lemma_split_more(head, front, last, sep);
        assert(parts =~= front.push(last));
    }
}

/// A text without a separator goes into the last part.
proof fn lemma_split_more(head: Seq<char>, front: Seq<Seq<char>>, last: Seq<char>, sep: char)
    requires
        split(head, sep) == front.push(Seq::empty()),
        !last.contains(sep),
    ensures
        split(head + last, sep) == front.push(last),
    decreases last.len(),
{
    if last.len() == 0 {
        assert(head + last =~= head);
        assert(last =~= Seq::empty());
    } else {
        let less = last.drop_last();
        assert(!less.contains(sep)) by {
            if less.contains(sep) {
                let i = less.index_of(sep);
                assert(last[i] == sep);
            }
        }
        lemma_split_more(head, front, less, sep);
        let s = head + last;
        assert(s.drop_last() =~= head + less);
        assert(s.last() == last.last());
        assert(last[last.len() - 1] == last.last());
        assert(last.last() != sep);
        assert(front.push(less).drop_last() =~= front);
        assert(less.push(last.last()) =~= last);
    }
}

/// Whether a line of an export is that of a row of the file: the number of the
/// row in the file, in digits that read back as it, a colon and a blank, the text
/// of that very row, and a line end.
pub open spec fn exports_row(
    line: Seq<char>,
    c: Seq<u8>,
    row: u64,
    max: int,
    enc: Encoding,
) -> bool {
    exists|digits: Seq<char>|
        {
            &&& digits.len() > 0
            &&& #[trigger] all_digits(digits)
            &&& decimal_value(digits) == row
            &&& line == digits + seq![':', ' '] + text_or_empty(c, row, max, enc) + seq!['\n']
        }
}

/// An export has a line for each match or each line of the list, in their order:
/// each starts with the number of its row in the file, and the text behind the
/// number is that of this row.
pub proof fn law_exported_lines_carry_their_numbers<D: Fn(DiskRequest) -> DiskReply>(
    before: App<D>,
    after: App<D>,
    c: Seq<u8>,
)
    requires
        before.wf(),
        dispatched(before, after, Action::Export),
        before.file().view.shows(c),
    ensures
        ({
            let view = before.file().view;
            let rows = if before.focus == 0 {
                match before.file().search {
                    Some(s) => s.matches@,
                    None => Seq::empty(),
                }
            } else {
                before.list(before.focus as int).rows@
            };
            if rows.len() == 0 {
                after.effects@ == before.effects@
            } else {
                &&& after.effects@.len() == before.effects@.len() + 1
                &&& after.effects@.last() matches Effect::Export { text, count } && count
                    == rows.len() && exists|lines: Seq<Seq<char>>|
                    {
                        &&& text@ == #[trigger] lines.flatten()
                        &&& lines.len() == rows.len()
                        &&& forall|k: int|
                            0 <= k < rows.len() ==> exports_row(
                                #[trigger] lines[k],
                                c,
                                rows[k].line_no,
                                view.row_limit() as int,
                                view.enc(),
                            )
                    }
            }
        }),
{
    let view = before.file().view;
    let rows = export_rows(before);
    let max = view.row_limit() as int;
    let enc = view.enc();
    lemma_export_lines(c, rows, max, enc, rows.len());
    let lines = export_lines(c, rows, max, enc, rows.len());
    assert forall|k: int| 0 <= k < rows.len() implies exports_row(
        #[trigger] lines[k],
        c,
        rows[k].line_no,
        max,
        enc,
    ) by {
        lemma_export_line(c, rows[k].line_no, max, enc);
    }
}

/// The line of an export for a row.
spec fn export_line(c: Seq<u8>, row: u64, max: int, enc: Encoding) -> Seq<char> {
    decimal(row as nat) + seq![':', ' '] + text_or_empty(c, row, max, enc) + seq!['\n']
}

/// The lines of an export for the first `n` rows.
spec fn export_lines(c: Seq<u8>, rows: Seq<Match>, max: int, enc: Encoding, n: nat) -> Seq<
    Seq<char>,
> {
    Seq::new(n, |k: int| export_line(c, rows[k].line_no, max, enc))
}

proof fn lemma_export_line(c: Seq<u8>, row: u64, max: int, enc: Encoding)
    ensures
        exports_row(export_line(c, row, max, enc), c, row, max, enc),
{
    law_number_reads_back(row as nat);
    assert(all_digits(decimal(row as nat)));
}

proof fn lemma_export_lines(c: Seq<u8>, rows: Seq<Match>, max: int, enc: Encoding, n: nat)
    requires
        n <= rows.len(),
    ensures
        export_text(c, rows, max, enc, n) == export_lines(c, rows, max, enc, n).flatten(),
    decreases n,
{
    let lines = export_lines(c, rows, max, enc, n);
    if n == 0 {
        assert(lines.flatten() =~= export_text(c, rows, max, enc, 0));
    } else {
        let less = (n - 1) as nat;
        lemma_export_lines(c, rows, max, enc, less);
        let front = export_lines(c, rows, max, enc, less);
        let row = rows[n - 1].line_no;
        let line = export_line(c, row, max, enc);
        assert(lines =~= front.push(line));
        front.lemma_flatten_push(line);
        reveal_strlit(": ");
        reveal_strlit("\n");
        assert(": "@ =~= seq![':', ' ']);
        assert("\n"@ =~= seq!['\n']);
        let text = text_or_empty(c, row, max, enc);
        let sofar = export_text(c, rows, max, enc, less);
        assert(sofar + decimal(row as nat) + seq![':', ' '] + text + seq!['\n'] =~= sofar + line);
    }
}

/// A row down or up moves the cursor by just that row, as far as the file goes;
/// the window moves only where the cursor would leave it, and by a row then.
pub proof fn law_line_keys_move_by_a_row<D: Fn(DiskRequest) -> DiskReply>(
    before: App<D>,
    after: App<D>,
    act: Action,
    c: Seq<u8>,
)
    requires
        before.wf(),
        before.focus == 0,
        act == Action::ScrollLineDown || act == Action::ScrollLineUp,
        before.file().view.shows(c),
        before.file().view.cursor_in_window(),
        before.file().view.cursor() < row_total(c) <= LAST_ROW,
        dispatched(before, after, act),
    ensures
        ({
            let v0 = before.file().view;
            let v1 = after.file().view;
            let end = v0.top() + v0.height();
            &&& v1.cursor() == if act == Action::ScrollLineDown {
                least(v0.cursor() + 1, row_total(c) - 1)
            } else {
                most(v0.cursor() - 1, 0)
            }
            &&& v1.top() == if v1.cursor() >= end {
                v0.top() + 1
            } else if v1.cursor() < v0.top() {
                v0.top() - 1
            } else {
                v0.top() as int
            }
        }),
        after.follow == (before.follow && act == Action::ScrollLineDown),
{
}

/// In a list, a row down or up selects the line below or above, as far as the
/// list goes.
pub proof fn law_line_keys_select_the_next_line<D: Fn(DiskRequest) -> DiskReply>(
    before: App<D>,
    after: App<D>,
    act: Action,
)
    requires
        before.wf(),
        before.focus > 0,
        before.list(before.focus as int).rows@.len() > 0,
        act == Action::ScrollLineDown || act == Action::ScrollLineUp,
        dispatched(before, after, act),
    ensures
        ({
            let mc = before.list(before.focus as int);
            let now = after.list(before.focus as int);
            &&& now.sel == if act == Action::ScrollLineDown {
                least(mc.sel + 1, mc.rows@.len() - 1)
            } else {
                most(mc.sel - 1, 0)
            }
            &&& now.top <= now.sel
            &&& now.sel < now.top + most(mc.inner_h as int, 1)
            &&& mc.top <= now.sel < mc.top + mc.inner_h ==> now.top == mc.top
            &&& mc.sel < mc.top + mc.inner_h && now.sel >= mc.top + mc.inner_h ==> now.top
                == mc.top + 1
            &&& now.sel < mc.top ==> now.top == now.sel
        }),
{
    let mc = before.list(before.focus as int);
    assert(before.panes.len() == before.panes@.len());
    assert(mc.rows.len() == mc.rows@.len());
    assert(before.panes@[before.focus as int].content is Matches);
}

/// To the top is to the first row, in the file and in a list; to the bottom of a
/// list is to its last line, and to the bottom of the file is begun as a jump.
pub proof fn law_end_keys_go_to_the_ends<D: Fn(DiskRequest) -> DiskReply>(
    before: App<D>,
    top: App<D>,
    bottom: App<D>,
)
    requires
        before.wf(),
        dispatched(before, top, Action::ToTop),
        dispatched(before, bottom, Action::ToBottom),
    ensures
        before.focus == 0 ==> {
            &&& top.file().view.top() == 0
            &&& top.file().view.cursor() == 0
            &&& bottom.pending_jump is Some
            &&& before.pending_jump is None ==> bottom.pending_jump->0.kind == JumpKind::Bottom
                && bottom.pending_jump->0.back == (
                before.file().view.top(),
                before.file().view.cursor(),
            )
        },
        before.focus > 0 ==> {
            let at = before.focus as int;
            &&& top.list(at).sel == 0 && top.list(at).top == 0
            &&& top.list(at).rows == before.list(at).rows
            &&& before.list(at).rows@.len() > 0 ==> bottom.list(at).sel == before.list(
                at,
            ).rows@.len() - 1
        },
{
    if before.focus > 0 {
        let mc = before.list(before.focus as int);
        assert(before.panes.len() == before.panes@.len());
        assert(mc.rows.len() == mc.rows@.len());
        assert(before.panes@[before.focus as int].content is Matches);
    }
}

/// Whether `y` is the nearest of the numbers behind `x`, or before it; `x` itself
/// if there is none.
pub open spec fn nearest(s: Seq<int>, x: int, y: int, down: bool) -> bool {
    if down {
        if exists|i: int| 0 <= i < s.len() && #[trigger] s[i] > x {
            &&& y > x
            &&& s.contains(y)
            &&& forall|i: int| 0 <= i < s.len() && #[trigger] s[i] > x ==> y <= s[i]
        } else {
            y == x
        }
    } else {
        if exists|i: int| 0 <= i < s.len() && #[trigger] s[i] < x {
            &&& y < x
            &&& s.contains(y)
            &&& forall|i: int| 0 <= i < s.len() && #[trigger] s[i] < x ==> s[i] <= y
        } else {
            y == x
        }
    }
}

proof fn lemma_step_is_nearest(s: Seq<int>, x: int, onward: bool)
    requires
        rising(s),
    ensures
        match step_hit(s, x, onward) {
            Some(k) => 0 <= k < s.len() && s[k] != x && nearest(s, x, s[k], onward),
            None => nearest(s, x, x, onward),
        },
{
    law_steps_go_to_the_nearest(s, x);
    if let Some(k) = step_hit(s, x, onward) {
        assert(s.contains(s[k]));
    }
}

/// The keys for the next match and the one before put the cursor on the nearest
/// row with a match, counted from the row of the cursor: the next one is further
/// down after a search down the file and further up after one up the file. Where
/// there is none the cursor stays.
pub proof fn law_match_keys_go_to_the_nearest_row<D: Fn(DiskRequest) -> DiskReply>(
    before: App<D>,
    after: App<D>,
    act: Action,
    c: Seq<u8>,
)
    requires
        before.wf(),
        before.focus == 0,
        act == Action::MatchNext || act == Action::MatchPrev,
        before.file().search is Some,
        rising(before.file().search->0.lines()),
        before.file().view.in_step(c),
        forall|i: int|
            0 <= i < before.file().search->0.matches@.len() ==> 1 <= (
            #[trigger] before.file().search->0.matches@[i]).line_no <= row_total(c),
        dispatched(before, after, act),
    ensures
        ({
            let s = before.file().search->0;
            let down = if act == Action::MatchNext {
                s.forward
            } else {
                !s.forward
            };
            nearest(
                s.lines(),
                before.file().view.cursor() + 1,
                after.file().view.cursor() + 1,
                down,
            )
        }),
{
    let s = before.file().search->0;
    let x = before.file().view.cursor() + 1;
    let reverse = act == Action::MatchPrev;
    lemma_step_is_nearest(s.lines(), x, s.forward != reverse);
    if let Some(k) = step_hit(s.lines(), x, s.forward != reverse) {
        assert(s.lines()[k] == s.matches@[k].line_no);
    }
}

/// In a list, the keys for the next match and the one before select the nearest
/// line that matches, in the direction of the search.
pub proof fn law_match_keys_select_the_nearest_line<D: Fn(DiskRequest) -> DiskReply>(
    before: App<D>,
    after: App<D>,
    act: Action,
)
    requires
        before.wf(),
        before.focus > 0,
        act == Action::MatchNext || act == Action::MatchPrev,
        before.list(before.focus as int).search is Some,
        dispatched(before, after, act),
    ensures
        ({
            let mc = before.list(before.focus as int);
            let s = mc.search->0;
            let down = if act == Action::MatchNext {
                s.forward
            } else {
                !s.forward
            };
            nearest(
                places(s.match_idx@),
                mc.sel as int,
                after.list(before.focus as int).sel as int,
                down,
            )
        }),
{
    let mc = before.list(before.focus as int);
    assert(before.panes.len() == before.panes@.len());
    assert(before.panes@[before.focus as int].content is Matches);
    assert(mc.wf());
    let s = mc.search->0;
    let reverse = act == Action::MatchPrev;
    lemma_step_is_nearest(places(s.match_idx@), mc.sel as int, s.forward != reverse);
    if let Some(k) = step_hit(places(s.match_idx@), mc.sel as int, s.forward != reverse) {
        assert(places(s.match_idx@)[k] == s.match_idx@[k]);
    }
}

/// When a search has ended, the cursor goes to its first match: on the cursor's
/// row or the nearest further on, in the direction of the search. Where there is
/// none in that direction, it stays.
pub proof fn law_search_lands_on_the_first_match<D: Fn(DiskRequest) -> DiskReply>(
    before: App<D>,
    after: App<D>,
    c: Seq<u8>,
)
    requires
        before.wf(),
        before.file().search is Some,
        rising(before.file().search->0.lines()),
        before.file().view.in_step(c),
        forall|i: int|
            0 <= i < before.file().search->0.matches@.len() ==> 1 <= (
            #[trigger] before.file().search->0.matches@[i]).line_no <= row_total(c),
        first_jumped(before, after),
    ensures
        ({
            let s = before.file().search->0;
            let x = before.file().view.cursor() + 1;
            let y = after.file().view.cursor() + 1;
            if s.lines().contains(x) {
                y == x
            } else {
                nearest(s.lines(), x, y, s.forward)
            }
        }),
{
    let s = before.file().search->0;
    let lines = s.lines();
    let x = before.file().view.cursor() + 1;
    law_steps_go_to_the_nearest(lines, x);
    let hit = first_hit(lines, x, s.forward);
    if let Some(k) = hit {
        assert(lines[k] == s.matches@[k].line_no);
        assert(lines.contains(lines[k]));
    }
    if lines.contains(x) {
        let i = lines.index_of(x);
        assert(lines[i] == x);
    } else if hit is Some {
        assert(lines[hit->0] != x);
    }
}

/// What is typed behind `/` is searched for down the file, what is typed behind
/// `?` up the file: the pattern is what was typed, without the blanks around it,
/// and the case and whole words count as they are set.
pub proof fn law_search_is_for_what_was_typed<D: Fn(DiskRequest) -> DiskReply>(
    before: App<D>,
    asked: App<D>,
    typed: App<D>,
    after: App<D>,
    act: Action,
)
    requires
        act == Action::SearchFwd || act == Action::SearchBack,
        before.focus == 0,
        dispatched(before, asked, act),
        typed.mode is Cmd,
        asked.mode is Cmd ==> typed == (App { mode: typed.mode, ..asked })
            && typed.mode->Cmd_0.forward == asked.mode->Cmd_0.forward,
        search_committed(typed, after),
        trimmed(typed.mode->Cmd_0.buf@).len() > 0,
        regex_compiled(
            source_of(trimmed(typed.mode->Cmd_0.buf@), before.opts.case, before.opts.word),
        ) is Ok,
    ensures
        asked.mode matches Mode::Cmd(cs) && cs.buf@.len() == 0,
        ({
            let pattern = trimmed(typed.mode->Cmd_0.buf@);
            &&& after.file().search matches Some(s) && s.pattern@ == pattern && s.forward == (act
                == Action::SearchFwd) && s.matches@.len() == 0 && !s.done
            &&& after.effects@.last() matches Effect::StartSearch {
                path,
                pattern: p,
                encoding,
                case,
                word,
            } && p@ == pattern && path@ == before.file().view.name() && encoding
                == before.file().view.enc() && case == before.opts.case && word == before.opts.word
            &&& regex_compiled(source_of(pattern, before.opts.case, before.opts.word)) == Ok::<
                regex::Regex,
                Seq<char>,
            >(after.file().hl->0) && after.file().hl is Some
        }),
        after.mode is Normal,
{
}

/// A pane that is zoomed is the only one that is seen and takes the whole area;
/// the key that zoomed it brings all panes back.
pub proof fn law_zoom_shows_one_pane<D: Fn(DiskRequest) -> DiskReply>(
    before: App<D>,
    mid: App<D>,
    after: App<D>,
    area: RectLike,
)
    requires
        before.wf(),
        before.zoom is None,
        area.w >= 1,
        area.h >= 1,
        dispatched(before, mid, Action::Zoom),
        dispatched(mid, after, Action::Zoom),
    ensures
        seen_panes(mid, area) == seq![(before.focus as int, area)],
        mid.panes == before.panes,
        mid.layout == before.layout,
        seen_panes(after, area).len() == before.panes@.len(),
        after == before,
{
    let ids = pane_ids(before.panes@);
    let f = before.focus as int;
    let id = before.panes@[f].id;
    assert(before.panes.len() == before.panes@.len());
    assert(ids[f] == id);
    assert(ids.contains(id));
    assert(ids.index_of(id) == f);
    assert(seen_panes(mid, area) =~= seq![(f, area)]);
}

/// The next pane is the one with the next number, and behind the last comes the
/// first; the one before goes the other way round. All panes are seen then.
pub proof fn law_focus_goes_by_the_numbers<D: Fn(DiskRequest) -> DiskReply>(
    before: App<D>,
    after: App<D>,
    act: Action,
)
    requires
        before.wf(),
        act == Action::FocusNext || act == Action::FocusPrev,
        dispatched(before, after, act),
    ensures
        ({
            let n = before.panes@.len() as int;
            let f = before.focus as int;
            &&& after.panes == before.panes
            &&& n > 1 ==> after.zoom is None
            &&& after.focus == if act == Action::FocusNext {
                if f + 1 < n {
                    f + 1
                } else {
                    0
                }
            } else {
                if f > 0 {
                    f - 1
                } else {
                    n - 1
                }
            }
        }),
{
    let n = before.panes@.len() as int;
    let f = before.focus as int;
    assert(before.panes.len() == before.panes@.len());
    if n > 1 {
        if f + 1 < n {
            vstd::arithmetic::div_mod::lemma_small_mod((f + 1) as nat, n as nat);
        } else {
            vstd::arithmetic::div_mod::lemma_mod_self_0(n);
        }
        if f > 0 {
            assert((f + n - 1) % n == f - 1) by (nonlinear_arith)
                requires
                    0 < f < n,
            ;
        } else {
            vstd::arithmetic::div_mod::lemma_small_mod((n - 1) as nat, n as nat);
        }
    }
}

/// A digit gives the focus to the pane with that number, counted from 1, if there
/// is one.
pub proof fn law_digits_choose_the_pane<D: Fn(DiskRequest) -> DiskReply>(
    before: App<D>,
    after: App<D>,
    key: KeyPress,
    digit: char,
)
    requires
        before.wf(),
        '1' <= digit <= '9',
        key.code == KeyCode::Char(digit),
        normal_key_done(before, after, key),
    ensures
        ({
            let number = digit as int - '0' as int;
            &&& after.panes == before.panes
            &&& number <= before.panes@.len() ==> after.zoom is None
            &&& after.focus == if number <= before.panes@.len() {
                number - 1
            } else {
                before.focus as int
            }
        }),
{
    assert(before.panes.len() == before.panes@.len());
}

/// The columns that a pane is scrolled to the right, and whether it wraps.
pub open spec fn side_of_pane<D: Fn(DiskRequest) -> DiskReply>(a: App<D>) -> (int, bool) {
    if a.focus == 0 {
        (a.file().hscroll as int, a.file().wrap)
    } else {
        (a.list(a.focus as int).hscroll as int, a.list(a.focus as int).wrap)
    }
}

/// To the right and to the left scroll by eight columns, and no further left than
/// the start of the rows; a wrapped pane is not scrolled. Home leads to the start
/// of the rows.
pub proof fn law_side_keys_scroll_by_eight<D: Fn(DiskRequest) -> DiskReply>(
    before: App<D>,
    after: App<D>,
    act: Action,
)
    requires
        before.wf(),
        act == Action::HLeft || act == Action::HRight || act == Action::HHome,
        side_of_pane(before).0 + 8 <= usize::MAX,
        dispatched(before, after, act),
    ensures
        ({
            let (cols, wrap) = side_of_pane(before);
            &&& side_of_pane(after).0 == if wrap {
                cols
            } else if act == Action::HLeft {
                most(cols - 8, 0)
            } else if act == Action::HRight {
                cols + 8
            } else {
                0
            }
            &&& side_of_pane(after).1 == wrap
        }),
{
}

/// The end key scrolls so that the end of the row is seen: the last column of the
/// row is within the columns of the pane, and no more is scrolled than that takes
/// and a few columns.
pub proof fn law_end_key_shows_the_end_of_the_row<D: Fn(DiskRequest) -> DiskReply>(
    before: App<D>,
    after: App<D>,
)
    requires
        before.wf(),
        before.focus == 0,
        !before.file().wrap,
        before.last_cols >= 10,
        before.file().view.top() <= before.file().view.cursor() < before.file().view.top()
            + before.file().view.shown().len(),
        dispatched(before, after, Action::HEnd),
    ensures
        ({
            let v = before.file().view;
            let width = str_cols(v.shown()[v.cursor() - v.top()].text) as int;
            let cols = after.file().hscroll as int;
            &&& cols <= width
            &&& width - cols <= before.last_cols - 8
            &&& width <= before.last_cols - 8 ==> cols == 0
            &&& width > before.last_cols - 8 ==> width - cols == before.last_cols - 8
        }),
{
}

/// The wrap key turns wrapping on and off; a pane that wraps is not scrolled to
/// the side.
pub proof fn law_wrap_key_turns_wrapping<D: Fn(DiskRequest) -> DiskReply>(
    before: App<D>,
    mid: App<D>,
    after: App<D>,
)
    requires
        before.wf(),
        dispatched(before, mid, Action::Wrap),
        dispatched(mid, after, Action::Wrap),
    ensures
        side_of_pane(mid).1 == !side_of_pane(before).1,
        side_of_pane(mid).1 ==> side_of_pane(mid).0 == 0,
        side_of_pane(after).1 == side_of_pane(before).1,
{
}

/// Closing takes away the pane with the focus, and only that: the other panes
/// stay in their order, and there is no more of it in the layout. The file's pane
/// is not closed.
pub proof fn law_close_takes_the_focused_pane<D: Fn(DiskRequest) -> DiskReply>(
    before: App<D>,
    after: App<D>,
)
    requires
        before.wf(),
        dispatched(before, after, Action::ClosePane),
    ensures
        before.focus == 0 ==> after.panes == before.panes && after.layout == before.layout,
        before.focus > 0 ==> {
            let id = before.panes@[before.focus as int].id;
            &&& after.panes@ == before.panes@.remove(before.focus as int)
            &&& !leaves(after.layout.root).contains(id)
            &&& after.focus < after.panes@.len()
            &&& after.zoom != Some(id)
            &&& after.focus == least(before.focus as int, after.panes@.len() - 1)
        },
        !after.quit || before.quit,
{
    if before.focus > 0 {
        let f = before.focus as int;
        let id = before.panes@[f].id;
        lemma_place(before, f);
        assert(before.panes.len() == before.panes@.len());
        law_leaves_hold_the_panes(before.layout.root, NO_PANE);
        law_close_takes_the_pane_out(before.layout.root, id);
        let left = leaves(after.layout.root);
        if left.contains(id) {
            let keep = staying(id);
            broadcast use vstd::seq_lib::group_filter_ensures;

            let k = left.index_of(id);
            assert(left[k] == id);
            assert(keep(left[k]));
        }
    }
}

/// Enter in a list puts the file's cursor on the row of the selected line, and
/// the row is seen.
pub proof fn law_enter_goes_to_the_line<D: Fn(DiskRequest) -> DiskReply>(
    before: App<D>,
    after: App<D>,
    c: Seq<u8>,
)
    requires
        before.wf(),
        before.focus > 0,
        before.list(before.focus as int).rows@.len() > 0,
        before.file().view.in_step(c),
        dispatched(before, after, Action::EnterJump),
    ensures
        ({
            let mc = before.list(before.focus as int);
            let line = mc.rows@[mc.sel as int].line_no;
            if 1 <= line <= row_total(c) {
                &&& after.file().view.cursor() + 1 == line
                &&& after.file().view.cursor_in_window()
            } else {
                after.file().view.cursor() == before.file().view.cursor()
            }
        }),
        after.focus == before.focus,
{
}

/// Right and up enlarge the pane with the focus, left and down make it smaller:
/// right and left its width, up and down its height. The other extent stays.
pub proof fn law_nudges_resize_the_focused_pane<D: Fn(DiskRequest) -> DiskReply>(
    before: App<D>,
    after: App<D>,
    act: Action,
    area: RectLike,
)
    requires
        before.wf(),
        act == Action::NudgeLeft || act == Action::NudgeRight || act == Action::NudgeUp || act
            == Action::NudgeDown,
        dispatched(before, after, act),
    ensures
        ({
            let id = before.panes@[before.focus as int].id;
            let r0 = rect_of(before.layout.root, area, id);
            let r1 = rect_of(after.layout.root, area, id);
            match act {
                Action::NudgeRight => r1.w >= r0.w && r1.h == r0.h,
                Action::NudgeLeft => r1.w <= r0.w && r1.h == r0.h,
                Action::NudgeUp => r1.h >= r0.h && r1.w == r0.w,
                _ => r1.h <= r0.h && r1.w == r0.w,
            }
        }),
        leaves(after.layout.root) == leaves(before.layout.root),
{
    let id = before.panes@[before.focus as int].id;
    lemma_place(before, before.focus as int);
    let horizontal = act == Action::NudgeLeft || act == Action::NudgeRight;
    let grow = act == Action::NudgeRight || act == Action::NudgeUp;
    law_growing_enlarges(before.layout.root, area, id, horizontal, grow);
    law_resizing_keeps_the_panes(before.layout.root, id, 0, horizontal, grow);
}

/// Quitting first gives up a jump that is under way, else it stops a search that
/// runs, and only else does the program end; what it stops is gone.
pub proof fn law_quit_stops_work_first<D: Fn(DiskRequest) -> DiskReply>(
    before: App<D>,
    after: App<D>,
)
    requires
        before.wf(),
        !before.quit,
        dispatched(before, after, Action::Quit),
    ensures
        ({
            let runs = before.file().search matches Some(s) && !s.done;
            &&& after.quit == (before.pending_jump is None && !runs)
            &&& before.pending_jump is Some ==> after.pending_jump is None
                && after.file().view.cursor() == before.pending_jump->0.back.1
            &&& before.pending_jump is None && runs ==> after.file().search is None
                && after.effects@ == before.effects@.push(Effect::CancelSearch)
        }),
{
}

/// A line number that is typed leads to that line: in the file by a jump to it,
/// in a list to the line with that number, if the list has it.
pub proof fn law_goto_leads_to_the_number<D: Fn(DiskRequest) -> DiskReply>(
    before: App<D>,
    after: App<D>,
    key: KeyPress,
    number: nat,
)
    requires
        before.wf(),
        before.mode is Goto,
        key.code == KeyCode::Enter,
        1 <= number <= u64::MAX,
        before.mode->Goto_0.buf@ == decimal(number),
        before.pending_jump is None,
        goto_key_done(before, after, key),
    ensures
        after.mode is Normal,
        before.focus == 0 ==> after.pending_jump is Some && after.pending_jump->0.kind
            == JumpKind::Goto(number as u64),
        before.focus > 0 && rising(line_numbers(before.list(before.focus as int).rows@)) ==> {
            let rows = before.list(before.focus as int).rows@;
            let sel = after.list(before.focus as int).sel;
            if exists|i: int| 0 <= i < rows.len() && (#[trigger] rows[i]).line_no == number {
                rows[sel as int].line_no == number
            } else {
                sel == before.list(before.focus as int).sel
            }
        },
{
    law_number_reads_back(number);
    if before.focus > 0 {
        let rows = before.list(before.focus as int).rows@;
        let lines = line_numbers(rows);
        if rising(lines) {
            law_steps_go_to_the_nearest(lines, number as int);
            assert(before.list(before.focus as int).rows.len() == rows.len());
            if exists|i: int| 0 <= i < rows.len() && (#[trigger] rows[i]).line_no == number {
                let i = choose|i: int| 0 <= i < rows.len() && (#[trigger] rows[i]).line_no == number;
                assert(lines[i] == number);
            }
            if let Some(k) = place_in(lines, number as int) {
                assert(lines[k] == rows[k].line_no);
            }
        }
    }
}

/// A digit that is typed goes to the end of the number, and taking back the last
/// one leaves the number as it was; other characters are not taken.
pub proof fn law_typed_digits_make_the_number<D: Fn(DiskRequest) -> DiskReply>(
    before: App<D>,
    mid: App<D>,
    after: App<D>,
    key: KeyPress,
    back: KeyPress,
    c: char,
)
    requires
        before.mode is Goto,
        key.code == KeyCode::Char(c),
        back.code == KeyCode::Backspace,
        goto_key_done(before, mid, key),
        goto_key_done(mid, after, back),
    ensures
        mid.mode is Goto,
        '0' <= c <= '9' ==> {
            &&& mid.mode->Goto_0.buf@ == before.mode->Goto_0.buf@ + seq![c]
            &&& after.mode is Goto && after.mode->Goto_0.buf@ == before.mode->Goto_0.buf@
        },
        !('0' <= c <= '9') ==> mid == before,
{
    if '0' <= c <= '9' {
        let buf = before.mode->Goto_0.buf@;
        assert(buf.push(c) =~= buf + seq![c]);
        assert(buf.push(c).drop_last() =~= buf);
    }
}

/// A character that is typed stands before what was behind the cursor and behind
/// what was before it; the cursor is behind it then. Backspace takes it away again.
pub proof fn law_typing_puts_characters_in<D: Fn(DiskRequest) -> DiskReply>(
    before: App<D>,
    mid: App<D>,
    after: App<D>,
    key: KeyPress,
    back: KeyPress,
    c: char,
)
    requires
        before.wf(),
        before.mode is Cmd,
        before.mode->Cmd_0.buf@.len() < usize::MAX,
        key.code == KeyCode::Char(c),
        !key.ctrl,
        back.code == KeyCode::Backspace,
        cmd_key_done(before, mid, key),
        cmd_key_done(mid, after, back),
    ensures
        ({
            let cs = before.mode->Cmd_0;
            let at = cs.cursor as int;
            &&& mid.mode matches Mode::Cmd(m) && m.buf@ == cs.buf@.take(at) + seq![c] + cs.buf@.skip(
                at,
            ) && m.cursor == at + 1 && m.forward == cs.forward
            &&& after.mode matches Mode::Cmd(a) && a.buf@ == cs.buf@ && a.cursor == at && a.forward
                == cs.forward
        }),
{
    let cs = before.mode->Cmd_0;
    let at = cs.cursor as int;
    assert(cs.buf@.insert(at, c) =~= cs.buf@.take(at) + seq![c] + cs.buf@.skip(at));
    assert(cs.buf@.insert(at, c).remove(at) =~= cs.buf@);
}

/// What the other keys do to what is typed: Delete takes away the character at
/// the cursor, Left and Right move the cursor by one, Home and End to the ends;
/// Ctrl-U takes everything away, and Esc or Ctrl-C gives the search up.
pub proof fn law_editing_keys_edit<D: Fn(DiskRequest) -> DiskReply>(
    before: App<D>,
    after: App<D>,
    key: KeyPress,
)
    requires
        before.wf(),
        before.mode is Cmd,
        cmd_key_done(before, after, key),
    ensures
        ({
            let cs = before.mode->Cmd_0;
            let at = cs.cursor as int;
            let n = cs.buf@.len() as int;
            &&& key.code == KeyCode::Delete ==> (after.mode matches Mode::Cmd(a) && a.cursor == at
                && a.buf@ == cs.buf@.take(at) + cs.buf@.skip(least(at + 1, n)))
            &&& key.code == KeyCode::Left ==> (after.mode matches Mode::Cmd(a) && a.buf == cs.buf
                && a.cursor == most(at - 1, 0))
            &&& key.code == KeyCode::Right ==> (after.mode matches Mode::Cmd(a) && a.buf == cs.buf
                && a.cursor == least(at + 1, n))
            &&& key.code == KeyCode::Home ==> (after.mode matches Mode::Cmd(a) && a.buf == cs.buf
                && a.cursor == 0)
            &&& key.code == KeyCode::End ==> (after.mode matches Mode::Cmd(a) && a.buf == cs.buf
                && a.cursor == n)
            &&& key.code == KeyCode::Char('u') && key.ctrl ==> (after.mode matches Mode::Cmd(a)
                && a.buf@.len() == 0 && a.cursor == 0)
            &&& key.code == KeyCode::Esc || (key.code == KeyCode::Char('c') && key.ctrl) ==> after
                == (App { mode: Mode::Normal, ..before })
        }),
{
    let cs = before.mode->Cmd_0;
    let at = cs.cursor as int;
    let n = cs.buf@.len() as int;
    if at < n {
        assert(cs.buf@.remove(at) =~= cs.buf@.take(at) + cs.buf@.skip(at + 1));
    } else {
        assert(cs.buf@ =~= cs.buf@.take(at) + cs.buf@.skip(n));
    }
}

/// Up goes through the keywords of the history from the latest to the oldest, and
/// down the same way back; below the latest stands what was typed before.
pub proof fn law_browsing_shows_the_keywords<D: Fn(DiskRequest) -> DiskReply>(
    before: App<D>,
    after: App<D>,
    key: KeyPress,
)
    requires
        before.wf(),
        before.mode is Cmd,
        key.code == KeyCode::Up || key.code == KeyCode::Down,
        before.mode->Cmd_0.hist@.len() > 0,
        cmd_key_done(before, after, key),
    ensures
        ({
            let cs = before.mode->Cmd_0;
            let n = cs.hist@.len() as int;
            &&& after.mode matches Mode::Cmd(a) && {
                &&& a.hist == cs.hist
                &&& a.forward == cs.forward
                &&& a.cursor == a.buf@.len()
                &&& if key.code == KeyCode::Up {
                    match cs.hist_pos {
                        None => a.hist_pos == Some(0usize) && a.buf@ == cs.hist@[0]@ && a.initial@
                            == cs.buf@,
                        Some(p) => if p + 1 < n {
                            a.hist_pos == Some((p + 1) as usize) && a.buf@ == cs.hist@[p + 1]@
                        } else {
                            a.hist_pos == Some(p) && a.buf@ == cs.buf@
                        },
                    }
                } else {
                    match cs.hist_pos {
                        None => a.hist_pos is None && a.buf@ == cs.buf@,
                        Some(p) => if p > 0 {
                            a.hist_pos == Some((p - 1) as usize) && a.buf@ == cs.hist@[p - 1]@
                        } else {
                            a.hist_pos is None && a.buf@ == cs.initial@
                        },
                    }
                }
            }
        }),
{
    let cs = before.mode->Cmd_0;
    assert(cs.hist.len() == cs.hist@.len());
    assert(texts(cs.hist@).len() == cs.hist@.len());
}

/// The keywords to choose from are those of the history in which the characters
/// of the filter stand one behind the other, the latest first; each is listed
/// once.
pub proof fn law_filter_lists_what_passes(items: Seq<Seq<char>>, filter: Seq<char>, n: nat)
    requires
        n <= items.len(),
    ensures
        rising(passing(items, filter, n)),
        forall|i: int| #[trigger]
            passing(items, filter, n).contains(i) <==> 0 <= i < n && (trimmed(filter).len() == 0
                || fuzzy(trimmed(filter), items[i])),
    decreases n,
{
    let all = passing(items, filter, n);
    if n > 0 {
        law_filter_lists_what_passes(items, filter, (n - 1) as nat);
        let front = passing(items, filter, (n - 1) as nat);
        let last = n - 1;
        assert forall|i: int, j: int| 0 <= i < j < all.len() implies #[trigger] all[i]
            < #[trigger] all[j] by {
            assert(front.contains(front[i]));
            if j < front.len() {
                assert(front[i] < front[j]);
            }
        }
        assert forall|i: int| #[trigger] all.contains(i) <==> 0 <= i < n && (
        trimmed(filter).len() == 0 || fuzzy(trimmed(filter), items[i])) by {
            if front.contains(i) {
                let k = front.index_of(i);
                assert(all[k] == i);
            }
            if all.contains(i) && i != last {
                let k = all.index_of(i);
                assert(front[k] == i);
            }
            if all.len() > front.len() {
                assert(all[all.len() - 1] == last);
            }
        }
    }
}

/// Enter takes the selected keyword into the input, to be searched for down the
/// file.
pub proof fn law_chosen_keyword_is_typed<D: Fn(DiskRequest) -> DiskReply>(
    before: App<D>,
    after: App<D>,
    key: KeyPress,
)
    requires
        before.wf(),
        before.mode is History,
        before.mode->History_0.list@.len() > 0,
        key.code == KeyCode::Enter,
        history_key_done(before, after, key),
    ensures
        ({
            let st = before.mode->History_0;
            &&& after.mode matches Mode::Cmd(cs) && cs.forward && cs.buf@
                == before.history.keywords()[st.list@[st.sel as int] as int] && cs.cursor
                == cs.buf@.len()
            &&& after.history == before.history
            &&& after.effects == before.effects
        }),
{
}

/// Where the end of the file is followed and the file has grown, its last row is
/// on the screen with the cursor on it; else the cursor stays.
pub proof fn law_following_shows_the_last_row<D: Fn(DiskRequest) -> DiskReply>(
    before: App<D>,
    after: App<D>,
    c: Seq<u8>,
)
    requires
        before.wf(),
        before.file().view.shows(c),
        row_total(c) > 0,
        followed_end(before, after),
    ensures
        before.follow && before.file().view.source().known_len() != c.len() ==> {
            &&& after.file().view.cursor() == row_total(c) - 1
            &&& after.file().view.cursor_in_window()
        },
        !before.follow || before.file().view.source().known_len() == c.len()
            ==> after.file().view.cursor() == before.file().view.cursor(),
        after.follow == before.follow,
{
}

/// Following is switched on and off by the same key. Switched on, it shows the end
/// of the file at once.
pub proof fn law_follow_key_shows_the_end<D: Fn(DiskRequest) -> DiskReply>(
    before: App<D>,
    after: App<D>,
    c: Seq<u8>,
)
    requires
        before.wf(),
        before.file().view.shows(c),
        row_total(c) > 0,
        dispatched(before, after, Action::Follow),
    ensures
        after.follow == !before.follow,
        !before.follow ==> after.file().view.cursor() == row_total(c) - 1
            && after.file().view.cursor_in_window(),
        before.follow ==> after.panes == before.panes,
{
}

/// A selection begins at the cursor: `v` selects characters, with the control key
/// a block, `V` whole rows.
pub proof fn law_selection_begins_at_the_cursor<D: Fn(DiskRequest) -> DiskReply>(
    before: App<D>,
    after: App<D>,
    key: KeyPress,
)
    requires
        before.wf(),
        before.focus == 0,
        key.code == KeyCode::Char('v') || key.code == KeyCode::Char('V'),
        normal_key_done(before, after, key),
    ensures
        after.mode matches Mode::Visual(v) && v.anchor_row == before.file().view.cursor() + 1
            && v.anchor_col == 0 && v.cur_col == 0 && v.kind == (if key.code == KeyCode::Char('V') {
            VisualKind::Line
        } else if key.ctrl {
            VisualKind::Block
        } else {
            VisualKind::Char
        }),
        after.file().view == before.file().view,
{
}

/// The keys of a selection move its cursor: `j` and `k` by a row, `l` and `h` by a
/// character within the row; where it was begun stays.
pub proof fn law_selection_follows_the_cursor<D: Fn(DiskRequest) -> DiskReply>(
    before: App<D>,
    after: App<D>,
    key: KeyPress,
    v: VisualState,
    c: Seq<u8>,
)
    requires
        before.wf(),
        before.mode == Mode::Visual(v),
        before.file().view.shows(c),
        before.file().view.cursor() < row_total(c) <= LAST_ROW,
        v.cur_col < usize::MAX,
        visual_key_done(before, after, key),
    ensures
        ({
            let v0 = before.file().view;
            let row = v0.cursor() as int;
            let len = text_or_empty(
                c,
                (row + 1) as u64,
                v0.row_limit() as int,
                v0.enc(),
            ).len() as int;
            &&& key.code == KeyCode::Char('j') || key.code == KeyCode::Down
                ==> after.file().view.cursor() == least(row + 1, row_total(c) - 1)
            &&& key.code == KeyCode::Char('k') || key.code == KeyCode::Up
                ==> after.file().view.cursor() == most(row - 1, 0)
            &&& key.code == KeyCode::Char('l') || key.code == KeyCode::Right ==> (
            after.mode matches Mode::Visual(a) && a.cur_col == least(v.cur_col + 1, len)
                && after.file().view.cursor() == row)
            &&& key.code == KeyCode::Char('h') || key.code == KeyCode::Left ==> (
            after.mode matches Mode::Visual(a) && a.cur_col == least(most(v.cur_col - 1, 0), len)
                && after.file().view.cursor() == row)
            &&& after.mode matches Mode::Visual(a) ==> a.kind == v.kind && a.anchor_row
                == v.anchor_row && a.anchor_col == v.anchor_col
            &&& key.code == KeyCode::Esc ==> after.mode is Normal && after.effects
                == before.effects
        }),
{
}

/// The case key goes from smart to ignored to minded and to smart again; the word
/// key turns whole words on and off. Neither changes anything else that a search
/// goes by.
pub proof fn law_search_keys_set_the_options<D: Fn(DiskRequest) -> DiskReply>(
    before: App<D>,
    case: App<D>,
    word: App<D>,
)
    requires
        dispatched(before, case, Action::ToggleCase),
        dispatched(before, word, Action::ToggleWord),
    ensures
        case.opts.word == before.opts.word,
        case.opts.case == match before.opts.case {
            Case::Smart => Case::Insensitive,
            Case::Insensitive => Case::Sensitive,
            Case::Sensitive => Case::Smart,
        },
        word.opts.case == before.opts.case,
        word.opts.word == !before.opts.word,
        case.panes == before.panes && word.panes == before.panes,
{
}

/// The key for result panes offers all that was found: the matches of the file's
/// search, or the lines of the list that its search found, or all of them. A side
/// makes a pane with just these lines; a number puts them into the pane with that
/// number in place of its list, but never into the file's pane.
pub proof fn law_result_panes_hold_what_was_found<D: Fn(DiskRequest) -> DiskReply>(
    before: App<D>,
    asked: App<D>,
    after: App<D>,
    key: KeyPress,
    c: char,
)
    requires
        before.wf(),
        before.next_id < LAST_ID,
        before.focus == 0,
        before.mode is Normal,
        before.file().search is Some,
        before.file().search->0.matches@.len() > 0,
        dispatched(before, asked, Action::OpenMatchPane),
        key.code == KeyCode::Char(c),
        c == 'h' || c == 'j' || c == 'k' || c == 'l' || '1' <= c <= '9',
        pick_key_done(asked, after, key),
    ensures
        ({
            let found = before.file().search->0.matches@;
            let number = c as int - '0' as int;
            &&& asked.mode matches Mode::PickTarget(ps) && ps.rows@ == found && ps.tag@ == seq![
                if before.file().search->0.forward {
                    '/'
                } else {
                    '?'
                },
            ] + before.file().search->0.pattern@
            &&& after.mode is Normal
            &&& if '1' <= c <= '9' {
                &&& after.panes@.len() == before.panes@.len()
                &&& after.panes@[0] == before.panes@[0]
                &&& 2 <= number <= before.panes@.len() ==> after.focus == number - 1 && after.list(
                    number - 1,
                ).rows@ == found
                &&& !(2 <= number <= before.panes@.len()) ==> after.panes == before.panes
                    && after.focus == before.focus
            } else {
                &&& after.panes@.len() == before.panes@.len() + 1
                &&& after.list(after.focus as int).rows@ == found
                &&& after.list(after.focus as int).sel == 0
            }
        }),
{
    assert(before.panes.len() == before.panes@.len());
    reveal_strlit("/");
    reveal_strlit("?");
    assert("/"@ =~= seq!['/']);
    assert("?"@ =~= seq!['?']);
}

/// A search in a list leaves the list as it is, marks the lines that match and
/// selects the first of them: the selected one or the nearest further on, in the
/// direction of the search.
pub proof fn law_list_search_selects_the_first_match(
    before: MatchesContent,
    after: MatchesContent,
    query: Seq<char>,
    forward: bool,
    hits: Seq<int>,
)
    requires
        before.wf(),
        rising(hits),
        forall|i: int| 0 <= i < hits.len() ==> 0 <= #[trigger] hits[i] < before.rows@.len(),
        searched(before, after, query, forward, hits),
    ensures
        after.rows == before.rows,
        hits.len() == 0 ==> after.search is None && after.sel == before.sel,
        hits.len() > 0 ==> {
            &&& after.search matches Some(s) && places(s.match_idx@) == hits && s.query@ == query
                && s.forward == forward
            &&& if hits.contains(before.sel as int) {
                after.sel == before.sel
            } else {
                nearest(hits, before.sel as int, after.sel as int, forward)
            }
        },
{
    let x = before.sel as int;
    law_steps_go_to_the_nearest(hits, x);
    assert(before.rows.len() == before.rows@.len());
    if let Some(k) = first_hit(hits, x, forward) {
        assert(hits.contains(hits[k]));
    }
    if hits.contains(x) {
        let i = hits.index_of(x);
        assert(hits[i] == x);
    } else if first_hit(hits, x, forward) is Some {
        assert(hits[first_hit(hits, x, forward)->0] != x);
    }
}

/// A pane that is nudged changes by a twentieth of what its split divides, up to a
/// cell: right makes it wider, left narrower, up higher and down lower, as long as
/// there is room.
pub proof fn law_nudges_are_a_twentieth<D: Fn(DiskRequest) -> DiskReply>(
    before: App<D>,
    after: App<D>,
    act: Action,
    area: RectLike,
)
    requires
        before.wf(),
        act == Action::NudgeLeft || act == Action::NudgeRight || act == Action::NudgeUp || act
            == Action::NudgeDown,
        before.panes@.len() > 1,
        ({
            let id = before.panes@[before.focus as int].id;
            let wide = act == Action::NudgeLeft || act == Action::NudgeRight;
            let (cells, part) = axis_split(before.layout.root, area, id, wide);
            &&& has_axis(before.layout.root, id, wide)
            &&& cells >= 20
            &&& 100_000_000 <= part <= 900_000_000
        }),
        dispatched(before, after, act),
    ensures
        ({
            let id = before.panes@[before.focus as int].id;
            let wide = act == Action::NudgeLeft || act == Action::NudgeRight;
            let step = axis_split(before.layout.root, area, id, wide).0 / 20;
            let r0 = rect_of(before.layout.root, area, id);
            let r1 = rect_of(after.layout.root, area, id);
            &&& step >= 1
            &&& match act {
                Action::NudgeRight => step <= r1.w - r0.w <= step + 1,
                Action::NudgeLeft => step <= r0.w - r1.w <= step + 1,
                Action::NudgeUp => step <= r1.h - r0.h <= step + 1,
                _ => step <= r0.h - r1.h <= step + 1,
            }
        }),
{
    let id = before.panes@[before.focus as int].id;
    lemma_place(before, before.focus as int);
    law_a_step_is_a_twentieth(
        before.layout.root,
        area,
        id,
        act == Action::NudgeLeft || act == Action::NudgeRight,
        act == Action::NudgeRight || act == Action::NudgeUp,
    );
}

/// A key goes to what takes keys at the time: what is typed, chosen, selected or
/// read, or else the actions; whatever it does, the note on the status line is gone
/// before.
pub proof fn law_keys_go_by_the_mode<D: Fn(DiskRequest) -> DiskReply>(
    before: App<D>,
    after: App<D>,
    key: KeyPress,
)
    requires
        key_done(before, after, key),
    ensures
        ({
            let plain = App { trans: None, ..before };
            match before.mode {
                Mode::Normal => normal_key_done(plain, after, key),
                Mode::Cmd(_) => cmd_key_done(plain, after, key),
                Mode::Goto(_) => goto_key_done(plain, after, key),
                Mode::PickTarget(_) => pick_key_done(plain, after, key),
                Mode::History(_) => history_key_done(plain, after, key),
                Mode::Visual(_) => visual_key_done(plain, after, key),
                Mode::Help => if key.code == KeyCode::Esc || key.code == KeyCode::Enter || key.code
                    == KeyCode::Char(' ') || key.code == KeyCode::Char('q') || key.code
                    == KeyCode::F(1) {
                    after == (App { mode: Mode::Normal, ..plain })
                } else {
                    after == plain
                },
            }
        }),
{
}

/// A jump to a line puts the line a third down the window, or as far up as the file
/// begins; it is seen in any case.
pub proof fn law_jumps_put_the_line_a_third_down<D: Fn(DiskRequest) -> DiskReply>(
    before: FileContent<D>,
    after: FileContent<D>,
    line: u64,
)
    requires
        before.wf(),
        centered(before, after, line, true),
        before.view.height() == before.inner_h,
        before.inner_h >= 10,
        line <= LAST_ROW,
    ensures
        after.view.cursor() + 1 == line,
        after.view.top() <= after.view.cursor() < after.view.top() + after.inner_h,
        after.view.cursor() - after.view.top() == least(line - 1, before.inner_h as int / 3),
{
}

/// Esc gives up a jump that is under way: the cursor is where it was when the jump
/// began. Without one it does nothing.
pub proof fn law_escape_gives_up_a_jump<D: Fn(DiskRequest) -> DiskReply>(
    before: App<D>,
    after: App<D>,
    key: KeyPress,
)
    requires
        before.wf(),
        key.code == KeyCode::Esc,
        normal_key_done(before, after, key),
    ensures
        after.pending_jump is None,
        before.pending_jump is None ==> after == before,
        before.pending_jump matches Some(j) ==> after.file().view.cursor() == j.back.1,
        after.quit == before.quit,
        after.effects == before.effects,
{
}

/// A new search takes the place of one before: that one is told to stop before the
/// new one is begun, and its matches are gone.
pub proof fn law_a_new_search_replaces_the_old<D: Fn(DiskRequest) -> DiskReply>(
    before: App<D>,
    after: App<D>,
    pattern: Seq<char>,
    forward: bool,
)
    requires
        search_begun(before, after, pattern, forward),
        regex_compiled(source_of(pattern, before.opts.case, before.opts.word)) is Ok,
    ensures
        ({
            let n = before.effects@.len() as int;
            let old_one = before.file().search is Some;
            &&& after.effects@.take(n) == before.effects@
            &&& after.effects@.len() == n + if old_one {
                2int
            } else {
                1
            }
            &&& old_one ==> after.effects@[n] is CancelSearch
            &&& after.effects@.last() is StartSearch
            &&& after.file().search matches Some(s) && s.matches@.len() == 0 && s.pattern@
                == pattern
        }),
{
    let n = before.effects@.len() as int;
    let first = after.effects@.drop_last();
    assert(after.effects@.take(n) =~= first.take(n));
    if before.file().search is Some {
        assert(first.take(n) =~= before.effects@);
        assert(first[n] == after.effects@[n]);
    } else {
        assert(first.take(n) =~= before.effects@);
    }
}

/// Clearing takes away the search and what it marks, in the file and in a list; a
/// search of the file is told to stop.
pub proof fn law_clearing_takes_the_search_away<D: Fn(DiskRequest) -> DiskReply>(
    before: App<D>,
    after: App<D>,
)
    requires
        before.wf(),
        dispatched(before, after, Action::ClearSearch),
    ensures
        before.focus == 0 ==> {
            &&& after.file().search is None
            &&& after.file().hl is None
            &&& before.file().search is Some ==> after.effects@ == before.effects@.push(
                Effect::CancelSearch,
            )
        },
        before.focus > 0 ==> {
            &&& after.list(before.focus as int).search is None
            &&& after.list(before.focus as int).rows == before.list(before.focus as int).rows
            &&& after.list(before.focus as int).sel == before.list(before.focus as int).sel
        },
        after.file().view.cursor() == before.file().view.cursor(),
{
}

/// While a keyword is chosen, up and down go through the list, and the filter takes
/// what is typed: what is listed is what passes it.
pub proof fn law_choosing_keys_choose<D: Fn(DiskRequest) -> DiskReply>(
    before: App<D>,
    after: App<D>,
    key: KeyPress,
)
    requires
        before.wf(),
        before.mode is History,
        history_key_done(before, after, key),
    ensures
        ({
            let st = before.mode->History_0;
            let n = st.list@.len() as int;
            let words = before.history.keywords();
            &&& key.code == KeyCode::Up ==> (after.mode matches Mode::History(a) && a.list == st.list
                && a.filter == st.filter && a.sel == most(st.sel - 1, 0))
            &&& key.code == KeyCode::Down ==> (after.mode matches Mode::History(a) && a.list
                == st.list && a.filter == st.filter && a.sel == if n == 0 {
                0
            } else {
                least(st.sel + 1, n - 1)
            })
            &&& key.code matches KeyCode::Char(c) ==> (after.mode matches Mode::History(a)
                && a.filter@ == st.filter@ + seq![c] && a.listed() == passing(
                words,
                st.filter@ + seq![c],
                words.len(),
            ))
            &&& key.code == KeyCode::Backspace && st.filter@.len() > 0 ==> (
            after.mode matches Mode::History(a) && a.filter@ == st.filter@.take(
                st.filter@.len() - 1,
            ) && a.listed() == passing(
                words,
                st.filter@.take(st.filter@.len() - 1),
                words.len(),
            ))
            &&& key.code == KeyCode::Esc ==> after == (App { mode: Mode::Normal, ..before })
        }),
{
    let st = before.mode->History_0;
    assert(st.list.len() == st.list@.len());
    if let KeyCode::Char(c) = key.code {
        assert(st.filter@.push(c) =~= st.filter@ + seq![c]);
    }
    if st.filter@.len() > 0 {
        assert(st.filter@.drop_last() =~= st.filter@.take(st.filter@.len() - 1));
    }
}

/// The history, the help and a line number are opened by their keys: all keywords
/// are listed, the latest selected; nothing is typed yet.
pub proof fn law_opening_keys_open<D: Fn(DiskRequest) -> DiskReply>(
    before: App<D>,
    history: App<D>,
    help: App<D>,
    goto: App<D>,
)
    requires
        before.wf(),
        dispatched(before, history, Action::History),
        dispatched(before, help, Action::Help),
        dispatched(before, goto, Action::GotoLine),
    ensures
        help.mode is Help,
        goto.mode matches Mode::Goto(gs) && gs.buf@.len() == 0,
        ({
            let n = before.history.keywords().len();
            &&& n == 0 ==> history.mode == before.mode
            &&& n > 0 ==> (history.mode matches Mode::History(st) && st.filter@.len() == 0 && st.sel
                == 0 && st.list@.len() == n && forall|i: int|
                0 <= i < n ==> #[trigger] st.list@[i] == i)
        }),
{
    let words = before.history.keywords();
    if words.len() > 0 {
        lemma_all_pass(words, words.len());
        let st = history.mode->History_0;
        assert forall|i: int| 0 <= i < words.len() implies #[trigger] st.list@[i] == i by {
            assert(st.listed()[i] == st.list@[i]);
        }
        assert(st.listed().len() == st.list@.len());
    }
}

proof fn lemma_all_pass(items: Seq<Seq<char>>, n: nat)
    ensures
        passing(items, Seq::empty(), n).len() == n,
        forall|i: int| 0 <= i < n ==> #[trigger] passing(items, Seq::empty(), n)[i] == i,
    decreases n,
{
    if n > 0 {
        lemma_all_pass(items, (n - 1) as nat);
        assert(trimmed(Seq::<char>::empty()).len() == 0);
    }
}

/// The first jump of a search is made once: when the search has ended, if it found
/// anything.
pub proof fn law_first_jump_waits_for_the_end<D: Fn(DiskRequest) -> DiskReply>(
    before: App<D>,
    after: App<D>,
    news: SearchNews,
    due: bool,
)
    requires
        before.file().search is Some,
        news_taken(before, after, news, due),
    ensures
        ({
            let a = before.file().search->0;
            &&& after.file().search matches Some(b) && {
                &&& due == (a.pending_first && b.done && b.matches@.len() > 0)
                &&& b.pending_first == (a.pending_first && !due)
            }
            &&& after.file().view == before.file().view
        }),
{
}

/// A line number that is none, nought or too large leads nowhere.
pub proof fn law_no_number_leads_nowhere<D: Fn(DiskRequest) -> DiskReply>(
    before: App<D>,
    after: App<D>,
    key: KeyPress,
)
    requires
        before.wf(),
        before.mode is Goto,
        key.code == KeyCode::Enter,
        before.mode->Goto_0.buf@.len() == 0 || decimal_value(before.mode->Goto_0.buf@) == 0
            || decimal_value(before.mode->Goto_0.buf@) > u64::MAX,
        goto_key_done(before, after, key),
    ensures
        after.mode is Normal,
        after.panes == before.panes,
        after.pending_jump == before.pending_jump,
        after.focus == before.focus,
{
}

/// From a list the key for result panes offers the lines that its search found, in
/// their order, or all lines where nothing was searched for.
pub proof fn law_lists_offer_what_was_found<D: Fn(DiskRequest) -> DiskReply>(
    before: App<D>,
    asked: App<D>,
)
    requires
        before.wf(),
        before.focus > 0,
        before.mode is Normal,
        before.list(before.focus as int).rows@.len() > 0,
        dispatched(before, asked, Action::OpenMatchPane),
    ensures
        ({
            let mc = before.list(before.focus as int);
            &&& asked.mode matches Mode::PickTarget(ps) && match mc.search {
                None => ps.rows@ == mc.rows@,
                Some(s) => {
                    &&& ps.rows@.len() == s.match_idx@.len()
                    &&& forall|k: int|
                        0 <= k < ps.rows@.len() ==> #[trigger] ps.rows@[k]
                            == mc.rows@[s.match_idx@[k] as int]
                },
            }
            &&& asked.panes == before.panes
        }),
{
}

/// Where the cursor stands on the last row, and that is known to be the last, going
/// further down moves nothing.
pub proof fn law_nothing_is_below_the_last_row<D: Fn(DiskRequest) -> DiskReply>(
    before: App<D>,
    after: App<D>,
    act: Action,
    c: Seq<u8>,
)
    requires
        before.wf(),
        before.focus == 0,
        act == Action::HalfDown || act == Action::PageDown,
        before.file().view.in_step(c),
        before.file().view.idx().done(),
        before.file().view.cursor() + 1 == row_total(c),
        dispatched(before, after, act),
    ensures
        after.file().view.top() == before.file().view.top(),
        after.file().view.cursor() == before.file().view.cursor(),
{
}

/// A list of up to twenty thousand lines is searched, a longer one is not and stays
/// as it is.
pub proof fn law_long_lists_are_not_searched<D: Fn(DiskRequest) -> DiskReply>(
    before: MatchesContent,
    after: MatchesContent,
    view: FileView<D>,
    view_after: FileView<D>,
    pattern: Seq<char>,
    forward: bool,
    opts: SearchPrefs,
    r: Result<nat, Seq<char>>,
)
    requires
        list_searched(before, after, view, view_after, pattern, forward, opts, r),
    ensures
        before.rows@.len() > 20_000 ==> r is Err && after == before,
        before.rows@.len() <= 20_000 && regex_compiled(
            source_of(pattern, opts.case, opts.word),
        ) is Ok ==> r is Ok,
        regex_compiled(source_of(pattern, opts.case, opts.word)) is Err ==> r is Err && after
            == before,
        view_after.cursor() == view.cursor(),
{
}

} // verus!
