//! Moving inside the pane with the focus, and what its lines are used for.
use vstd::prelude::*;
use crate::app::{pane_ids, App, Effect};
use crate::encoding::Encoding;
use crate::file::{DiskReply, DiskRequest};
use crate::jumps::{lemma_file_changed, line_jumped};
use crate::panes::{
    kept_top, list_searched, no_further, places, plain_count, read_text,
    step_hit, text_or_empty, Content, FileContent, MatchesContent,
};
use crate::search::Match;
use crate::text::{decimal, number_text, str_cols, text_width};
use crate::view::{moved, went_to_bottom, went_to_top, window_scrolled, ViewRow};

verus! {

/// The rows that a page key moves by: half of the rows, or all but two; at
/// least one.
pub open spec fn page_rows(height: int, half: bool) -> int {
    let n = if half {
        height / 2
    } else {
        height - 2
    };
    if n < 1 {
        1
    } else {
        n
    }
}

fn rows_by_page(height: usize, half: bool) -> (r: usize)
    ensures
        r == page_rows(height as int, half),
        1 <= r <= height || r == 1,
{
    let n: usize = if half {
        height / 2
    } else {
        height.saturating_sub(2)
    };
    if n < 1 {
        1
    } else {
        n
    }
}

/// A list with another line selected.
pub open spec fn with_selection(mc: MatchesContent, sel: int) -> MatchesContent {
    MatchesContent {
        sel: sel as usize,
        top: kept_top(sel, mc.top as int, mc.inner_h as int) as usize,
        ..mc
    }
}

/// The selection after a move down or up by some lines, as far as the list
/// goes.
pub open spec fn moved_selection(mc: MatchesContent, down: bool, count: int) -> int {
    if down {
        if mc.sel + count < mc.rows@.len() {
            mc.sel + count
        } else {
            mc.rows@.len() - 1
        }
    } else if mc.sel > count {
        mc.sel - count
    } else {
        0
    }
}

/// Whether the list with the focus had its selection moved; an empty list
/// stays.
pub open spec fn list_moved<D: Fn(DiskRequest) -> DiskReply>(
    before: App<D>,
    after: App<D>,
    down: bool,
    count: int,
) -> bool {
    let at = before.focus as int;
    if before.list(at).rows@.len() == 0 {
        after == before
    } else {
        &&& after == (App { panes: after.panes, ..before })
        &&& after.only_list(before, at)
        &&& after.list(at) == with_selection(
            before.list(at),
            moved_selection(before.list(at), down, count),
        )
    }
}

/// Whether, of the program, only the file's view may have changed, and
/// following its end was stopped if the move was up.
pub open spec fn file_moved<D: Fn(DiskRequest) -> DiskReply>(
    before: App<D>,
    after: App<D>,
    down: bool,
) -> bool {
    &&& after == (App { panes: after.panes, follow: before.follow && down, ..before })
    &&& after.only_file(before)
    &&& after.file().same_but_view(before.file())
}

/// A row down, or a row up.
pub open spec fn row_delta(down: bool) -> i64 {
    if down {
        1i64
    } else {
        -1i64
    }
}

/// Whether the pane with the focus was moved by a row.
pub open spec fn pane_moved<D: Fn(DiskRequest) -> DiskReply>(
    before: App<D>,
    after: App<D>,
    down: bool,
) -> bool {
    if before.focus == 0 {
        &&& file_moved(before, after, down)
        &&& moved(before.file().view, after.file().view, row_delta(down))
    } else {
        list_moved(before, after, down, 1)
    }
}

/// Whether the pane with the focus was moved by a page or by half of one.
pub open spec fn pane_paged<D: Fn(DiskRequest) -> DiskReply>(
    before: App<D>,
    after: App<D>,
    down: bool,
    half: bool,
) -> bool {
    if before.focus == 0 {
        let n = page_rows(before.file().inner_h as int, half);
        &&& file_moved(before, after, down)
        &&& window_scrolled(
            before.file().view,
            after.file().view,
            (if down {
                n
            } else {
                -n
            }) as i64,
        )
    } else {
        list_moved(
            before,
            after,
            down,
            page_rows(before.list(before.focus as int).inner_h as int, half),
        )
    }
}

/// Whether the pane with the focus went to its first row.
pub open spec fn pane_at_home<D: Fn(DiskRequest) -> DiskReply>(
    before: App<D>,
    after: App<D>,
) -> bool {
    &&& after == (App { panes: after.panes, ..before })
    &&& if before.focus == 0 {
        &&& after.only_file(before)
        &&& after.file().same_but_view(before.file())
        &&& went_to_top(before.file().view, after.file().view)
    } else {
        let at = before.focus as int;
        &&& after.only_list(before, at)
        &&& after.list(at) == (MatchesContent { sel: 0, top: 0, ..before.list(at) })
    }
}

/// Whether the pane with the focus went to its last row; an empty list stays.
pub open spec fn pane_at_end<D: Fn(DiskRequest) -> DiskReply>(
    before: App<D>,
    after: App<D>,
) -> bool {
    let at = before.focus as int;
    if before.focus == 0 {
        &&& after == (App { panes: after.panes, ..before })
        &&& after.only_file(before)
        &&& after.file().same_but_view(before.file())
        &&& went_to_bottom(before.file().view, after.file().view)
    } else if before.list(at).rows@.len() == 0 {
        after == before
    } else {
        &&& after == (App { panes: after.panes, ..before })
        &&& after.only_list(before, at)
        &&& after.list(at) == with_selection(
            before.list(at),
            before.list(at).rows@.len() - 1,
        )
    }
}

/// The columns scrolled after a move to the side; `0` leads back to the start,
/// and a wrapped pane is not scrolled.
pub open spec fn scrolled_cols(cols: usize, wrap: bool, delta: i64) -> usize {
    if wrap {
        cols
    } else if delta == 0 || cols + delta < 0 {
        0
    } else if cols + delta > usize::MAX {
        usize::MAX
    } else {
        (cols + delta) as usize
    }
}

fn scroll_cols(cols: usize, wrap: bool, delta: i64) -> (r: usize)
    ensures
        r == scrolled_cols(cols, wrap, delta),
{
    if wrap {
        return cols;
    }
    if delta == 0 {
        return 0;
    }
    let moved: i128 = cols as i128 + delta as i128;
    if moved < 0 {
        0
    } else if moved > usize::MAX as i128 {
        usize::MAX
    } else {
        moved as usize
    }
}

/// Whether the pane with the focus was scrolled to the side.
pub open spec fn pane_side_scrolled<D: Fn(DiskRequest) -> DiskReply>(
    before: App<D>,
    after: App<D>,
    delta: i64,
) -> bool {
    &&& after == (App { panes: after.panes, ..before })
    &&& if before.focus == 0 {
        let fc = before.file();
        &&& after.only_file(before)
        &&& after.file() == (FileContent {
            hscroll: scrolled_cols(fc.hscroll, fc.wrap, delta),
            ..fc
        })
    } else {
        let at = before.focus as int;
        let mc = before.list(at);
        &&& after.only_list(before, at)
        &&& after.list(at) == (MatchesContent {
            hscroll: scrolled_cols(mc.hscroll, mc.wrap, delta),
            ..mc
        })
    }
}

/// The columns to scroll so that the end of a row of that many columns is seen.
pub open spec fn end_scroll(width: usize, cols: usize) -> usize {
    let room = if cols < 10 {
        2
    } else {
        cols - 8
    };
    if width > room {
        (width - room) as usize
    } else {
        0
    }
}

fn scroll_to_end(width: usize, cols: usize) -> (r: usize)
    ensures
        r == end_scroll(width, cols),
{
    let room: usize = if cols < 10 {
        2
    } else {
        cols - 8
    };
    width.saturating_sub(room)
}

/// Whether the pane with the focus was scrolled to the end of its row. A
/// wrapped pane is not scrolled, nor one whose row is not there.
pub open spec fn end_of_row_shown<D: Fn(DiskRequest) -> DiskReply>(
    before: App<D>,
    after: App<D>,
) -> bool {
    let at = before.focus as int;
    if before.focus == 0 {
        let fc = before.file();
        let k = fc.view.cursor() - fc.view.top();
        if fc.wrap || k < 0 || k >= fc.view.shown().len() {
            after == before
        } else {
            &&& after == (App { panes: after.panes, ..before })
            &&& after.only_file(before)
            &&& after.file() == (FileContent {
                hscroll: end_scroll(str_cols(fc.view.shown()[k].text), before.last_cols),
                ..fc
            })
        }
    } else {
        let mc = before.list(at);
        if mc.wrap || mc.rows@.len() == 0 {
            after == before
        } else {
            &&& after == (App { panes: after.panes, ..before })
            &&& after.panes@.len() == before.panes@.len()
            &&& forall|i: int|
                1 <= i < before.panes@.len() && i != at ==> #[trigger] after.panes@[i]
                    == before.panes@[i]
            &&& after.panes@[0].content is File
            &&& after.file().same_but_view(before.file())
            &&& after.file().view.same_place(before.file().view)
            &&& after.panes@[at].content is Matches
            &&& after.list(at) == (MatchesContent { hscroll: after.list(at).hscroll, ..mc })
            &&& forall|c: Seq<u8>| #[trigger]
                before.file().view.shows(c) ==> after.file().view.shows(c) && after.list(
                    at,
                ).hscroll == end_scroll(
                    str_cols(
                        text_or_empty(
                            c,
                            mc.rows@[mc.sel as int].line_no,
                            before.file().view.row_limit() as int,
                            before.file().view.enc(),
                        ),
                    ),
                    before.last_cols,
                )
        }
    }
}

/// What the user is told of wrapping.
pub open spec fn wrap_told(on: bool) -> Seq<char> {
    if on {
        "自动换行：开（超出部分显示在下方，续行带 ↪）"@
    } else {
        "自动换行：关（长行用 ←/→ 或 h/l 水平滚动）"@
    }
}

/// Whether wrapping was switched in the pane with the focus; a wrapped pane is
/// not scrolled to the side.
pub open spec fn wrap_toggled<D: Fn(DiskRequest) -> DiskReply>(
    before: App<D>,
    after: App<D>,
) -> bool {
    &&& after == (App { panes: after.panes, msg: after.msg, ..before })
    &&& if before.focus == 0 {
        let fc = before.file();
        &&& after.only_file(before)
        &&& after.file() == (FileContent {
            wrap: !fc.wrap,
            hscroll: if fc.wrap {
                fc.hscroll
            } else {
                0
            },
            ..fc
        })
        &&& after.msg@ == wrap_told(!fc.wrap)
    } else {
        let at = before.focus as int;
        let mc = before.list(at);
        &&& after.only_list(before, at)
        &&& after.list(at) == (MatchesContent {
            wrap: !mc.wrap,
            hscroll: if mc.wrap {
                mc.hscroll
            } else {
                0
            },
            ..mc
        })
        &&& after.msg@ == wrap_told(!mc.wrap)
    }
}

/// Whether the selected line of the list with the focus was gone to in the
/// file.
pub open spec fn list_line_opened<D: Fn(DiskRequest) -> DiskReply>(
    before: App<D>,
    after: App<D>,
) -> bool {
    let mc = before.list(before.focus as int);
    if before.focus == 0 || mc.rows@.len() == 0 {
        after == before
    } else {
        let line = mc.rows@[mc.sel as int].line_no;
        line_jumped(before, after, line, "跳转到 "@ + decimal(line as nat) + " 行"@)
    }
}

/// What the user is told of a search inside a list.
pub open spec fn list_search_told(pattern: Seq<char>, r: Result<nat, Seq<char>>) -> Seq<char> {
    match r {
        Ok(n) => if n == 0 {
            "窗内无匹配: "@ + pattern
        } else {
            "窗内搜索: "@ + pattern + "  → "@ + decimal(n) + " 处匹配"@
        },
        Err(e) => "无效正则: "@ + e,
    }
}

/// Whether the list with the focus was searched.
pub open spec fn focused_list_searched<D: Fn(DiskRequest) -> DiskReply>(
    before: App<D>,
    after: App<D>,
    pattern: Seq<char>,
    forward: bool,
) -> bool {
    let at = before.focus as int;
    if before.focus == 0 {
        after == before
    } else {
        &&& after == (App { panes: after.panes, msg: after.msg, ..before })
        &&& after.panes@.len() == before.panes@.len()
        &&& forall|i: int|
            1 <= i < before.panes@.len() && i != at ==> #[trigger] after.panes@[i]
                == before.panes@[i]
        &&& after.panes@[0].content is File
        &&& after.file().same_but_view(before.file())
        &&& after.panes@[at].content is Matches
        &&& exists|r: Result<nat, Seq<char>>|
            {
                &&& #[trigger] list_searched(
                    before.list(at),
                    after.list(at),
                    before.file().view,
                    after.file().view,
                    pattern,
                    forward,
                    before.opts,
                    r,
                )
                &&& after.msg@ == list_search_told(pattern, r)
            }
    }
}

/// Whether a step was made from match to match of the list with the focus.
pub open spec fn list_stepped<D: Fn(DiskRequest) -> DiskReply>(
    before: App<D>,
    after: App<D>,
    reverse: bool,
) -> bool {
    let at = before.focus as int;
    let mc = before.list(at);
    match mc.search {
        None => after.told(before, "该窗格还没有搜索（按 / 或 ? 开始）"@),
        Some(s) => match step_hit(places(s.match_idx@), mc.sel as int, s.forward != reverse) {
            Some(k) => {
                &&& after == (App { panes: after.panes, ..before })
                &&& after.only_list(before, at)
                &&& after.list(at) == with_selection(mc, s.match_idx@[k] as int)
            },
            None => {
                &&& after == (App { panes: after.panes, msg: after.msg, ..before })
                &&& after.only_list(before, at)
                &&& after.list(at) == mc
                &&& after.msg@ == no_further(s.forward != reverse)
            },
        },
    }
}

/// Whether the search of the list with the focus was cleared.
pub open spec fn list_cleared<D: Fn(DiskRequest) -> DiskReply>(
    before: App<D>,
    after: App<D>,
) -> bool {
    let at = before.focus as int;
    &&& after == (App { panes: after.panes, ..before })
    &&& after.only_list(before, at)
    &&& after.list(at) == (MatchesContent { search: None, ..before.list(at) })
}

/// The lines that the pane with the focus exports: those of the file's search,
/// or those of the list.
pub open spec fn export_rows<D: Fn(DiskRequest) -> DiskReply>(a: App<D>) -> Seq<Match> {
    if a.focus == 0 {
        match a.file().search {
            Some(s) => s.matches@,
            None => Seq::empty(),
        }
    } else {
        a.list(a.focus as int).rows@
    }
}

/// The text of an export: each of the first `n` lines with its number.
pub open spec fn export_text(
    c: Seq<u8>,
    rows: Seq<Match>,
    max: int,
    enc: Encoding,
    n: nat,
) -> Seq<char>
    decreases n,
{
    if n == 0 {
        Seq::empty()
    } else {
        let line = rows[n - 1].line_no;
        export_text(c, rows, max, enc, (n - 1) as nat) + decimal(line as nat) + ": "@
            + text_or_empty(c, line, max, enc) + "\n"@
    }
}

/// Whether the lines of the pane with the focus were handed out for export.
pub open spec fn export_asked<D: Fn(DiskRequest) -> DiskReply>(
    before: App<D>,
    after: App<D>,
) -> bool {
    let rows = export_rows(before);
    if rows.len() == 0 {
        after.told(before, "没有可导出的内容（先搜索）"@)
    } else {
        &&& after == (App { panes: after.panes, effects: after.effects, ..before })
        &&& after.only_file(before)
        &&& after.file().same_but_view(before.file())
        &&& after.file().view.same_place(before.file().view)
        &&& forall|c: Seq<u8>| #[trigger]
            before.file().view.shows(c) ==> after.file().view.shows(c)
        &&& after.effects@.len() == before.effects@.len() + 1
        &&& after.effects@.drop_last() == before.effects@
        &&& after.effects@.last() matches Effect::Export { text, count } && count == rows.len() && (
        forall|c: Seq<u8>| #[trigger]
            before.file().view.shows(c) ==> text@ == export_text(
                c,
                rows,
                before.file().view.row_limit() as int,
                before.file().view.enc(),
                rows.len(),
            ))
    }
}

/// What the user is told of an export.
pub open spec fn export_told(count: usize, outcome: Result<Seq<char>, Seq<char>>) -> Seq<char> {
    match outcome {
        Ok(name) => "已导出 "@ + decimal(count as nat) + " 行到 "@ + name + "（当前目录）"@,
        Err(e) => "导出失败: "@ + e,
    }
}

/// A change of one list alone keeps the panes in order.
pub(crate) proof fn lemma_list_changed<D: Fn(DiskRequest) -> DiskReply>(
    before: App<D>,
    after: App<D>,
    at: int,
)
    requires
        before.panes_wf(),
        1 <= at < before.panes@.len(),
        after.only_list(before, at),
        after.layout == before.layout,
        after.next_id == before.next_id,
        after.list(at).wf(),
    ensures
        after.panes_wf(),
        pane_ids(after.panes@) == pane_ids(before.panes@),
{
    assert forall|i: int| 0 <= i < before.panes@.len() implies (#[trigger] after.panes@[i]).id
        == before.panes@[i].id by {}
    assert(pane_ids(after.panes@) =~= pane_ids(before.panes@));
    assert(after.panes@[0] == before.panes@[0]);
    assert forall|i: int| 1 <= i < after.panes@.len() implies (
    #[trigger] after.panes@[i]).content is Matches && after.list(i).wf() by {
        if i != at {
            assert(after.panes@[i] == before.panes@[i]);
        }
    }
}

impl<D: Fn(DiskRequest) -> DiskReply> App<D> {
    /// What the list at a place holds, to change it.
    pub(crate) fn list_mut(&mut self, at: usize) -> (r: &mut MatchesContent)
        requires
            old(self).panes_wf(),
            1 <= at < old(self).panes@.len(),
        ensures
            *r == old(self).list(at as int),
            *final(self) == (App { panes: final(self).panes, ..*old(self) }),
            final(self).only_list(*old(self), at as int),
            final(self).list(at as int) == *final(r),
    {
        assert(self.panes@[at as int].content is Matches);
        match &mut self.panes[at].content {
            Content::File(_) => vstd::pervasive::unreached(),
            Content::Matches(mc) => mc,
        }
    }

    /// What the list at a place holds.
    pub(crate) fn list_ref(&self, at: usize) -> (r: &MatchesContent)
        requires
            self.panes_wf(),
            1 <= at < self.panes@.len(),
        ensures
            *r == self.list(at as int),
    {
        assert(self.panes@[at as int].content is Matches);
        match &self.panes[at].content {
            Content::File(_) => vstd::pervasive::unreached(),
            Content::Matches(mc) => mc,
        }
    }

    /// Moves the selection of the list with the focus.
    fn move_selection(&mut self, down: bool, count: usize)
        requires
            old(self).wf(),
            old(self).focus > 0,
        ensures
            final(self).wf(),
            list_moved(*old(self), *final(self), down, count as int),
    {
        let at: usize = self.focus;
        let mc = self.list_ref(at);
        assert(self.list(at as int).wf());
        let n: usize = mc.rows.len();
        if n == 0 {
            return ;
        }
        let sel: usize = mc.sel;
        let to: usize = if down {
            if count < n - sel {
                sel + count
            } else {
                n - 1
            }
        } else {
            sel.saturating_sub(count)
        };
        self.list_mut(at).select(to);
        proof {
            lemma_list_changed(*old(self), *self, at as int);
        }
    }

    /// Moves the file's cursor or the list's selection by a row. Moving up in
    /// the file stops following its end.
    pub fn pane_move(&mut self, down: bool)
        requires
            old(self).wf(),
        ensures
            final(self).wf(),
            pane_moved(*old(self), *final(self), down),
    {
        if self.focus == 0 {
            let fc = self.file_mut();
            fc.view.move_cursor(
                if down {
                    1
                } else {
                    -1
                },
            );
            proof {
                lemma_file_changed(*old(self), *self);
            }
            if !down {
                self.follow = false;
            }
        } else {
            self.move_selection(down, 1);
        }
    }

    /// Moves by a page, or by half of one.
    pub fn pane_page(&mut self, down: bool, half: bool)
        requires
            old(self).wf(),
        ensures
            final(self).wf(),
            pane_paged(*old(self), *final(self), down, half),
    {
        if self.focus == 0 {
            let fc = self.file_mut();
            let n: i64 = rows_by_page(fc.inner_h, half) as i64;
            fc.view.scroll_window(
                if down {
                    n
                } else {
                    -n
                },
            );
            proof {
                lemma_file_changed(*old(self), *self);
            }
            if !down {
                self.follow = false;
            }
        } else {
            let n: usize = rows_by_page(self.list_ref(self.focus).inner_h, half);
            self.move_selection(down, n);
        }
    }

    /// Goes to the first row.
    pub fn pane_home(&mut self)
        requires
            old(self).wf(),
        ensures
            final(self).wf(),
            pane_at_home(*old(self), *final(self)),
    {
        if self.focus == 0 {
            self.file_mut().view.scroll_to_top();
            proof {
                lemma_file_changed(*old(self), *self);
            }
        } else {
            let at: usize = self.focus;
            assert(self.list(at as int).wf());
            let mc = self.list_mut(at);
            mc.sel = 0;
            mc.top = 0;
            proof {
                lemma_list_changed(*old(self), *self, at as int);
            }
        }
    }

    /// Goes to the last row.
    pub fn pane_end(&mut self)
        requires
            old(self).wf(),
        ensures
            final(self).wf(),
            pane_at_end(*old(self), *final(self)),
    {
        if self.focus == 0 {
            self.file_mut().view.scroll_to_bottom();
            proof {
                lemma_file_changed(*old(self), *self);
            }
        } else {
            let at: usize = self.focus;
            assert(self.list(at as int).wf());
            let n: usize = self.list_ref(at).rows.len();
            if n > 0 {
                self.list_mut(at).select(n - 1);
                proof {
                    lemma_list_changed(*old(self), *self, at as int);
                }
            }
        }
    }

    /// Scrolls to the side; `0` leads back to the start of the row.
    pub fn pane_hscroll(&mut self, delta: i64)
        requires
            old(self).wf(),
        ensures
            final(self).wf(),
            pane_side_scrolled(*old(self), *final(self), delta),
    {
        if self.focus == 0 {
            let fc = self.file_mut();
            fc.hscroll = scroll_cols(fc.hscroll, fc.wrap, delta);
            proof {
                lemma_file_changed(*old(self), *self);
            }
        } else {
            let at: usize = self.focus;
            assert(self.list(at as int).wf());
            let mc = self.list_mut(at);
            mc.hscroll = scroll_cols(mc.hscroll, mc.wrap, delta);
            proof {
                lemma_list_changed(*old(self), *self, at as int);
            }
        }
    }

    /// Scrolls so that the end of the cursor's or the selected row is seen.
    pub fn pane_goto_eol(&mut self)
        requires
            old(self).wf(),
        ensures
            final(self).wf(),
            end_of_row_shown(*old(self), *final(self)),
    {
        let cols: usize = self.last_cols;
        if self.focus == 0 {
            let fc = self.file_ref();
            if fc.wrap {
                return ;
            }
            let rows = fc.view.rows();
            let (top, cursor) = fc.view.snapshot_pos();
            proof {
                assert(rows@.map_values(|x: ViewRow| x@).len() == rows@.len());
            }
            if cursor < top || cursor - top >= rows.len() as u64 {
                return ;
            }
            let k: usize = (cursor - top) as usize;
            proof {
                assert(rows@.map_values(|x: ViewRow| x@)[k as int] == rows@[k as int]@);
            }
            let width: usize = text_width(rows[k].text.as_str());
            self.file_mut().hscroll = scroll_to_end(width, cols);
            proof {
                lemma_file_changed(*old(self), *self);
            }
            return ;
        }
        let at: usize = self.focus;
        assert(self.list(at as int).wf());
        let mc = self.list_ref(at);
        if mc.wrap || mc.rows.len() == 0 {
            return ;
        }
        let line: u64 = mc.rows[mc.sel].line_no;
        let fc = self.file_mut();
        let text = read_text(&mut fc.view, line);
        proof {
            lemma_file_changed(*old(self), *self);
        }
        let ghost mid = *self;
        assert(mid.panes@[at as int] == old(self).panes@[at as int]);
        let width: usize = text_width(text.as_str());
        self.list_mut(at).hscroll = scroll_to_end(width, cols);
        proof {
            lemma_list_changed(mid, *self, at as int);
            assert(self.panes@[0] == mid.panes@[0]);
            assert forall|i: int| 1 <= i < old(self).panes@.len() && i != at implies #[trigger] self.panes@[i]
                == old(self).panes@[i] by {
                assert(mid.panes@[i] == old(self).panes@[i]);
            }
        }
    }

    /// Switches wrapping.
    pub fn pane_toggle_wrap(&mut self)
        requires
            old(self).wf(),
        ensures
            final(self).wf(),
            wrap_toggled(*old(self), *final(self)),
    {
        let on: bool;
        if self.focus == 0 {
            let fc = self.file_mut();
            fc.wrap = !fc.wrap;
            if fc.wrap {
                fc.hscroll = 0;
            }
            on = fc.wrap;
            proof {
                lemma_file_changed(*old(self), *self);
            }
        } else {
            let at: usize = self.focus;
            assert(self.list(at as int).wf());
            let mc = self.list_mut(at);
            mc.wrap = !mc.wrap;
            if mc.wrap {
                mc.hscroll = 0;
            }
            on = mc.wrap;
            proof {
                lemma_list_changed(*old(self), *self, at as int);
            }
        }
        self.set_msg(
            if on {
                "自动换行：开（超出部分显示在下方，续行带 ↪）".to_owned()
            } else {
                "自动换行：关（长行用 ←/→ 或 h/l 水平滚动）".to_owned()
            },
        );
    }

    /// Goes to the selected line of the list in the file.
    pub fn matches_jump_to_file(&mut self)
        requires
            old(self).wf(),
        ensures
            final(self).wf(),
            list_line_opened(*old(self), *final(self)),
    {
        if self.focus == 0 {
            return ;
        }
        assert(self.list(self.focus as int).wf());
        match self.list_ref(self.focus).jump_to_file() {
            None => {},
            Some(line) => {
                self.jump_and_tell(line, "跳转到 ", " 行");
            },
        }
    }

    /// Searches the list with the focus.
    pub fn matches_do_search(&mut self, pattern: &str, forward: bool)
        requires
            old(self).wf(),
        ensures
            final(self).wf(),
            focused_list_searched(*old(self), *final(self), pattern@, forward),
    {
        if self.focus == 0 {
            return ;
        }
        let at: usize = self.focus;
        let opts = self.opts;
        let ghost before = *self;
        assert(self.list(at as int).wf());
        let mut mc = MatchesContent::new(Vec::new(), String::new());
        std::mem::swap(&mut mc, self.list_mut(at));
        proof {
            lemma_list_changed(before, *self, at as int);
            assert(self.panes@[0] == before.panes@[0]);
        }
        let ghost out = *self;
        let fc = self.file_mut();
        let r = mc.do_search(&mut fc.view, pattern, forward, &opts);
        proof {
            lemma_file_changed(out, *self);
        }
        let ghost read = *self;
        std::mem::swap(&mut mc, self.list_mut(at));
        proof {
            lemma_list_changed(read, *self, at as int);
            assert(self.panes@[0] == read.panes@[0]);
            assert forall|i: int| 1 <= i < before.panes@.len() && i != at implies #[trigger] self.panes@[i]
                == before.panes@[i] by {
                assert(read.panes@[i] == out.panes@[i]);
                assert(out.panes@[i] == before.panes@[i]);
            }
            assert(pane_ids(self.panes@) == pane_ids(before.panes@));
        }
        let ghost told = plain_count(r);
        assert(list_searched(
            before.list(at as int),
            self.list(at as int),
            before.file().view,
            self.file().view,
            pattern@,
            forward,
            before.opts,
            told,
        ));
        match r {
            Ok(n) => {
                if n == 0 {
                    let mut m = "窗内无匹配: ".to_owned();
                    m.append(pattern);
                    self.set_msg(m);
                } else {
                    let mut m = "窗内搜索: ".to_owned();
                    m.append(pattern);
                    m.append("  → ");
                    m.append(number_text(n as u64).as_str());
                    m.append(" 处匹配");
                    self.set_msg(m);
                }
            },
            Err(e) => {
                let mut m = "无效正则: ".to_owned();
                m.append(e.as_str());
                self.set_msg(m);
            },
        }
    }

    /// Clears the search of the list with the focus.
    pub fn matches_clear_search(&mut self)
        requires
            old(self).wf(),
            old(self).focus > 0,
        ensures
            final(self).wf(),
            list_cleared(*old(self), *final(self)),
    {
        let at: usize = self.focus;
        assert(self.list(at as int).wf());
        self.list_mut(at).clear_search();
        proof {
            lemma_list_changed(*old(self), *self, at as int);
        }
    }

    /// Goes from match to match of the list with the focus.
    pub fn matches_step(&mut self, reverse: bool)
        requires
            old(self).wf(),
            old(self).focus > 0,
        ensures
            final(self).wf(),
            list_stepped(*old(self), *final(self), reverse),
    {
        let at: usize = self.focus;
        assert(self.list(at as int).wf());
        if self.list_ref(at).search.is_none() {
            self.set_msg("该窗格还没有搜索（按 / 或 ? 开始）".to_owned());
            return ;
        }
        let note = self.list_mut(at).step_match(reverse);
        proof {
            lemma_list_changed(*old(self), *self, at as int);
        }
        if let Some(n) = note {
            self.set_msg(n);
        }
    }

    /// The text of a line of the file, if it has that line.
    pub fn main_read_line(&mut self, line1: u64) -> (r: Option<String>)
        requires
            old(self).wf(),
        ensures
            final(self).wf(),
            *final(self) == (App { panes: final(self).panes, ..*old(self) }),
            final(self).only_file(*old(self)),
            final(self).file().same_but_view(old(self).file()),
            final(self).file().view.same_place(old(self).file().view),
            forall|c: Seq<u8>| #[trigger]
                old(self).file().view.shows(c) ==> {
                    &&& final(self).file().view.in_step(c)
                    &&& r is Some <==> 1 <= line1 <= crate::lines::row_total(c)
                    &&& r matches Some(t) ==> t@ == crate::view::line_text(
                        c,
                        line1 as int,
                        old(self).file().view.row_limit() as int,
                        old(self).file().view.enc(),
                    )
                },
    {
        let r = self.file_mut().view.read_line_text(line1);
        proof {
            lemma_file_changed(*old(self), *self);
        }
        r
    }

    /// Hands out the lines of the pane with the focus for export: the matches
    /// of the file's search, or the list.
    pub fn export_focus(&mut self)
        requires
            old(self).wf(),
        ensures
            final(self).wf(),
            export_asked(*old(self), *final(self)),
    {
        let ghost rows = export_rows(*self);
        let lines: Vec<u64> = if self.focus == 0 {
            match &self.file_ref().search {
                Some(a) => lines_of(&a.matches),
                None => Vec::new(),
            }
        } else {
            lines_of(&self.list_ref(self.focus).rows)
        };
        let n: usize = lines.len();
        if n == 0 {
            self.set_msg("没有可导出的内容（先搜索）".to_owned());
            return ;
        }
        let ghost v0 = self.file().view;
        let ghost max = v0.row_limit() as int;
        let ghost enc = v0.enc();
        let fc = self.file_mut();
        let ghost fc0 = *fc;
        let mut out = String::new();
        let mut i: usize = 0;
        while i < n
            invariant
                i <= n,
                n == lines@.len(),
                n == rows.len(),
                forall|k: int| 0 <= k < n ==> #[trigger] lines@[k] == rows[k].line_no,
                fc.same_but_view(fc0),
                fc.view.wf(),
                fc.view.same_place(v0),
                v0 == fc0.view,
                max == v0.row_limit(),
                enc == v0.enc(),
                forall|c: Seq<u8>| #[trigger]
                    v0.shows(c) ==> fc.view.shows(c) && out@ == export_text(
                        c,
                        rows,
                        max,
                        enc,
                        i as nat,
                    ),
            decreases n - i,
        {
            let ghost before = fc.view;
            let ghost sofar = out@;
            let text = read_text(&mut fc.view, lines[i]);
            out.append(number_text(lines[i]).as_str());
            out.append(": ");
            out.append(text.as_str());
            out.append("\n");
            proof {
                assert(lines@[i as int] == rows[i as int].line_no);
                assert forall|c: Seq<u8>| #[trigger] v0.shows(c) implies fc.view.shows(c) && out@
                    == export_text(c, rows, max, enc, (i + 1) as nat) by {
                    assert(before.shows(c));
                    assert(fc.view.in_step(c));
                }
            }
            i += 1;
        }
        proof {
            lemma_file_changed(*old(self), *self);
        }
        let ghost first = self.effects@;
        self.effects.push(Effect::Export { text: out, count: n });
        assert(self.effects@.drop_last() =~= first);
    }

    /// Says how an export went: the name of the file, or the error.
    pub fn export_done(&mut self, count: usize, outcome: Result<&str, &str>)
        requires
            old(self).wf(),
        ensures
            final(self).wf(),
            final(self).told(
                *old(self),
                export_told(
                    count,
                    match outcome {
                        Ok(n) => Ok(n@),
                        Err(e) => Err(e@),
                    },
                ),
            ),
    {
        match outcome {
            Ok(name) => {
                let mut m = "已导出 ".to_owned();
                m.append(number_text(count as u64).as_str());
                m.append(" 行到 ");
                m.append(name);
                m.append("（当前目录）");
                self.set_msg(m);
            },
            Err(e) => {
                let mut m = "导出失败: ".to_owned();
                m.append(e);
                self.set_msg(m);
            },
        }
    }
}

fn lines_of(rows: &Vec<Match>) -> (r: Vec<u64>)
    ensures
        r@.len() == rows@.len(),
        forall|k: int| 0 <= k < r@.len() ==> #[trigger] r@[k] == rows@[k].line_no,
{
    let mut out: Vec<u64> = Vec::new();
    let n: usize = rows.len();
    let mut i: usize = 0;
    while i < n
        invariant
            i <= n,
            n == rows@.len(),
            out@.len() == i,
            forall|k: int| 0 <= k < i ==> #[trigger] out@[k] == rows@[k].line_no,
        decreases n - i,
    {
        out.push(rows[i].line_no);
        i += 1;
    }
    out
}

} // verus!
