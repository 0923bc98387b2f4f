//! The screen: what is read for it, and what is drawn on it.
//!
//! A frame has two steps. `prepare` fits the panes to their places and reads
//! what they show; what a search has reported since can then be taken in; `draw`
//! says what stands where.
use vstd::prelude::*;
use ratatui::layout::{Constraint, Layout as Division, Rect};
use crate::app::{pane_ids, App};
use crate::arrange::{seen_panes, title_of};
use crate::body::{build_matches_lines, file_rows, list_shown};
use crate::file::{DiskReply, DiskRequest};
use crate::fit::{
    at_tail, file_cursor_fitted, file_tail_fitted, list_bottom_fitted, list_cursor_fitted,
    stands_at_tail, wrap_cursor_fit, wrap_list_bottom_fit, wrap_list_cursor_fit, wrap_tail_fit,
};
use crate::jumps::lemma_file_changed;
use crate::keymap::Action;
use crate::layout::RectLike;
use crate::modes::{greater, Mode};
use crate::moves::lemma_list_changed;
use crate::panels::{
    cmd_spans, goto_spans, help_lines, help_listed, history_lines, match_here, pick_spans,
    render_cmdline, render_goto, render_help, render_history, render_pick, status_style,
    status_text,
};
use crate::panes::{kept_top, FileContent, MatchesContent, MAX_EXTENT};
use crate::styled::{
    bold_style, plain_lines, plain_style, span_of, Line, SpanView, Style,
};
use crate::view::{window_filled, FileView};

verus! {

/// The least height of a screen that something is drawn on.
pub const LEAST_SCREEN: u16 = 3;

/// What stands around a widget.
#[derive(Debug)]
pub struct Border {
    pub title: String,
    pub style: Style,
}

/// Lines in a place on the screen.
#[derive(Debug)]
pub struct Widget {
    pub area: RectLike,
    pub border: Option<Border>,
    pub lines: Vec<Line>,
}

#[verifier::ext_equal]
pub struct BorderView {
    pub title: Seq<char>,
    pub style: Style,
}

#[verifier::ext_equal]
pub struct WidgetView {
    pub area: RectLike,
    pub border: Option<BorderView>,
    pub lines: Seq<Seq<SpanView>>,
}

impl View for Widget {
    type V = WidgetView;

    open spec fn view(&self) -> WidgetView {
        WidgetView {
            area: self.area,
            border: match self.border {
                Some(b) => Some(BorderView { title: b.title@, style: b.style }),
                None => None,
            },
            lines: plain_lines(self.lines@),
        }
    }
}

/// The heights of the lines below the panes: the status line, and one more
/// where something is typed or chosen.
pub open spec fn bottom_height(mode: Mode) -> u16 {
    if mode is Cmd || mode is PickTarget || mode is Goto {
        1
    } else {
        0
    }
}

/// Whether an area ends before the last row and column that can be numbered.
pub open spec fn in_range(area: RectLike) -> bool {
    area.x + area.w <= u16::MAX && area.y + area.h <= u16::MAX
}

/// The rows that the panes are left at least.
const LEAST_CONTENT: u16 = 1;

/// The rows of the status line.
pub const STATUS_ROWS: u16 = 1;

/// An area in three, from the top down: what is left, `middle` rows, and
/// `bottom` rows.
pub open spec fn in_three(area: RectLike, middle: u16, bottom: u16) -> (
    RectLike,
    RectLike,
    RectLike,
) {
    let rest = (area.h - middle - bottom) as u16;
    (
        RectLike { h: rest, ..area },
        RectLike { y: (area.y + rest) as u16, h: middle, ..area },
        RectLike { y: (area.y + rest + middle) as u16, h: bottom, ..area },
    )
}

/// Divides an area by `ratatui::layout::Layout::split`, from the top down, into
/// a part of at least `least` rows, one of `middle` rows and one of `bottom`
/// rows. Where the area has room for them, the two lengths are kept and the
/// first part takes what is left; the parts lie one below the other and are as
/// wide as the area.
#[verifier::external_body]
fn split_screen(area: RectLike, least: u16, middle: u16, bottom: u16) -> (r: (
    RectLike,
    RectLike,
    RectLike,
))
    requires
        in_range(area),
        area.h >= least + middle + bottom,
    ensures
        r == in_three(area, middle, bottom),
{
    let parts = Division::vertical(
        [Constraint::Min(least), Constraint::Length(middle), Constraint::Length(bottom)],
    ).split(Rect::new(area.x, area.y, area.w, area.h));
    let plain = |p: Rect| RectLike { x: p.x, y: p.y, w: p.width, h: p.height };
    (plain(parts[0]), plain(parts[1]), plain(parts[2]))
}

/// The rows or columns inside the border of a widget.
pub open spec fn inner(extent: u16) -> usize {
    greater(extent - 2, 1) as usize
}

fn inner_extent(extent: u16) -> (r: usize)
    ensures
        r == inner(extent),
        1 <= r <= MAX_EXTENT,
{
    if extent < 3 {
        1
    } else {
        extent as usize - 2
    }
}

/// Whether the file's pane was fitted to a place: its window read and, where
/// rows are wrapped, fitted to the cursor or to the end of the file.
pub open spec fn file_prepared<D: Fn(DiskRequest) -> DiskReply>(
    before: FileContent<D>,
    after: FileContent<D>,
    rect: RectLike,
) -> bool {
    exists|v: FileView<D>| #[trigger]
        window_filled(before.view, v, inner(rect.h)) && {
            let mid = FileContent { view: v, inner_h: inner(rect.h), ..before };
            if !before.wrap {
                after == mid
            } else if at_tail(v) {
                file_tail_fitted(mid, after, inner(rect.w))
            } else {
                file_cursor_fitted(mid, after, inner(rect.w))
            }
        }
}

/// A list in a pane of `height` rows, its selected line in sight.
pub open spec fn sized_list(mc: MatchesContent, height: usize) -> MatchesContent {
    if mc.rows@.len() == 0 {
        MatchesContent { inner_h: height, sel: 0, top: 0, ..mc }
    } else {
        MatchesContent {
            inner_h: height,
            top: kept_top(mc.sel as int, mc.top as int, height as int) as usize,
            ..mc
        }
    }
}

/// Whether a list was fitted to a place: its selected line brought in sight,
/// also where lines are wrapped.
pub open spec fn list_prepared<D: Fn(DiskRequest) -> DiskReply>(
    before: MatchesContent,
    after: MatchesContent,
    view: FileView<D>,
    view_after: FileView<D>,
    rect: RectLike,
) -> bool {
    let mid = sized_list(before, inner(rect.h));
    if !before.wrap {
        after == mid
    } else if before.rows@.len() == 0 || before.sel == before.rows@.len() - 1 {
        list_bottom_fitted(mid, after, view, view_after, inner(rect.w))
    } else {
        list_cursor_fitted(mid, after, view, view_after, inner(rect.w))
    }
}

/// Whether reading lines left a view where it was.
pub open spec fn only_read<D: Fn(DiskRequest) -> DiskReply>(
    before: FileView<D>,
    after: FileView<D>,
) -> bool {
    &&& after.same_frame(before)
    &&& after.same_place(before)
    &&& forall|c: Seq<u8>| #[trigger] before.shows(c) ==> after.shows(c)
}

/// The place of the file's pane, if it is seen.
pub open spec fn file_place(seen: Seq<(int, RectLike)>) -> Option<RectLike> {
    if seen[0].0 == 0 {
        Some(seen[0].1)
    } else {
        None
    }
}

/// Whether the file's pane was fitted to its place, if it is seen.
pub open spec fn file_ready<D: Fn(DiskRequest) -> DiskReply>(
    before: FileContent<D>,
    after: FileContent<D>,
    place: Option<RectLike>,
) -> bool {
    match place {
        Some(rect) => file_prepared(before, after, rect),
        None => after == before,
    }
}

/// Whether the first `n` of the panes that are seen were fitted to their
/// places, lists with the lines of `view`, and the others left.
pub open spec fn lists_ready<D: Fn(DiskRequest) -> DiskReply>(
    before: App<D>,
    after: App<D>,
    view: FileView<D>,
    seen: Seq<(int, RectLike)>,
    n: int,
) -> bool {
    &&& forall|k: int|
        0 <= k < n && (#[trigger] seen[k]).0 != 0 ==> exists|v: FileView<D>| #[trigger]
            list_prepared(before.list(seen[k].0), after.list(seen[k].0), view, v, seen[k].1)
    &&& forall|i: int|
        1 <= i < before.panes@.len() && (forall|k: int|
            0 <= k < n ==> (#[trigger] seen[k]).0 != i) ==> #[trigger] after.panes@[i]
            == before.panes@[i]
}

/// Whether the panes were fitted to their places and what they show was read.
pub open spec fn prepared<D: Fn(DiskRequest) -> DiskReply>(
    before: App<D>,
    after: App<D>,
    area: RectLike,
) -> bool {
    let seen = seen_panes(before, area);
    &&& after == (App { panes: after.panes, ..before })
    &&& pane_ids(after.panes@) == pane_ids(before.panes@)
    &&& exists|fc: FileContent<D>|
        {
            &&& #[trigger] file_ready(before.file(), fc, file_place(seen))
            &&& after.file() == (FileContent { view: after.file().view, ..fc })
            &&& only_read(fc.view, after.file().view)
            &&& lists_ready(before, after, fc.view, seen, seen.len() as int)
        }
}

impl<D: Fn(DiskRequest) -> DiskReply> App<D> {
    /// Whether the panes are seen on a screen of this height.
    pub open spec fn panes_seen(&self, height: u16) -> bool {
        height >= LEAST_SCREEN && !(self.mode is History) && !(self.mode is Help)
    }

    fn prepare_file(&mut self, rect: RectLike)
        requires
            old(self).wf(),
        ensures
            final(self).wf(),
            *final(self) == (App { panes: final(self).panes, ..*old(self) }),
            final(self).only_file(*old(self)),
            pane_ids(final(self).panes@) == pane_ids(old(self).panes@),
            file_prepared(old(self).file(), final(self).file(), rect),
    {
        let ghost before = *self;
        let height: usize = inner_extent(rect.h);
        let cols: usize = inner_extent(rect.w);
        let fc = self.file_mut();
        fc.inner_h = height;
        fc.view.fill_to(height);
        let ghost mid = *fc;
        assert(window_filled(before.file().view, mid.view, height));
        if fc.wrap {
            if stands_at_tail(&fc.view) {
                wrap_tail_fit(fc, cols);
            } else {
                wrap_cursor_fit(fc, cols);
            }
        }
        proof {
            lemma_file_changed(before, *self);
        }
    }

    fn prepare_list(&mut self, at: usize, rect: RectLike)
        requires
            old(self).wf(),
            1 <= at < old(self).panes@.len(),
        ensures
            final(self).wf(),
            *final(self) == (App { panes: final(self).panes, ..*old(self) }),
            pane_ids(final(self).panes@) == pane_ids(old(self).panes@),
            forall|i: int|
                1 <= i < old(self).panes@.len() && i != at ==> #[trigger] final(self).panes@[i]
                    == old(self).panes@[i],
            final(self).file() == (FileContent {
                view: final(self).file().view,
                ..old(self).file()
            }),
            only_read(old(self).file().view, final(self).file().view),
            list_prepared(
                old(self).list(at as int),
                final(self).list(at as int),
                old(self).file().view,
                final(self).file().view,
                rect,
            ),
    {
        let ghost before = *self;
        let height: usize = inner_extent(rect.h);
        let cols: usize = inner_extent(rect.w);
        assert(self.list(at as int).wf());
        let mut mc = MatchesContent::new(Vec::new(), String::new());
        std::mem::swap(&mut mc, self.list_mut(at));
        proof {
            lemma_list_changed(before, *self, at as int);
            assert(self.panes@[0] == before.panes@[0]);
        }
        let ghost out = *self;
        mc.inner_h = height;
        mc.keep_visible();
        let ghost sized = mc;
        assert(sized == sized_list(before.list(at as int), height));
        let len: usize = mc.rows.len();
        let fc = self.file_mut();
        if mc.wrap {
            if len == 0 || mc.sel == len - 1 {
                wrap_list_bottom_fit(&mut mc, &mut fc.view, cols);
            } else {
                wrap_list_cursor_fit(&mut mc, &mut fc.view, cols);
            }
        }
        proof {
            lemma_file_changed(out, *self);
        }
        let ghost read = *self;
        std::mem::swap(&mut mc, self.list_mut(at));
        proof {
            lemma_list_changed(read, *self, at as int);
            assert(self.panes@[0] == read.panes@[0]);
            assert forall|i: int| 1 <= i < before.panes@.len() && i != at implies #[trigger] self.panes@[i]
                == before.panes@[i] by {
                assert(read.panes@[i] == out.panes@[i]);
                assert(out.panes@[i] == before.panes@[i]);
            }
            assert(pane_ids(self.panes@) == pane_ids(before.panes@));
        }
    }

    /// Fits the panes to their places on a screen and reads what they show.
    /// Returns whether they are seen: what a search has reported is then to be
    /// taken in before the screen is drawn.
    pub fn prepare(&mut self, area: RectLike) -> (r: bool)
        requires
            old(self).wf(),
            in_range(area),
        ensures
            final(self).wf(),
            r == old(self).panes_seen(area.h),
            !r ==> *final(self) == *old(self),
            r ==> prepared(
                *old(self),
                *final(self),
                in_three(area, STATUS_ROWS, bottom_height(old(self).mode)).0,
            ),
    {
        if area.h < LEAST_SCREEN || self.mode.is_history() || self.mode.is_help() {
            return false;
        }
        let bottom: u16 = self.bottom_rows();
        let (content, _, _) = split_screen(area, LEAST_CONTENT, STATUS_ROWS, bottom);
        let places = self.visible_panes(content);
        let ghost before = *self;
        let ghost seen = seen_panes(before, content);
        proof {
            lemma_seen_apart(before, content);
        }
        if places[0].0 == 0 {
            self.prepare_file(places[0].1);
        }
        let ghost fc = self.file();
        assert(file_ready(before.file(), fc, file_place(seen)));
        assert forall|j: int| 0 <= j < seen.len() implies 0 <= (#[trigger] seen[j]).0
            < before.panes@.len() by {
            assert(places@[j].0 == seen[j].0);
        }
        let n: usize = places.len();
        let mut k: usize = 0;
        while k < n
            invariant
                self.wf(),
                before.wf(),
                k <= n,
                n == places@.len(),
                n == seen.len(),
                *self == (App { panes: self.panes, ..before }),
                self.panes@.len() == before.panes@.len(),
                pane_ids(self.panes@) == pane_ids(before.panes@),
                forall|j: int|
                    0 <= j < n ==> (#[trigger] places@[j]).0 == seen[j].0 && places@[j].1 == seen[j].1
                        && places@[j].0 < before.panes@.len(),
                forall|j: int| 0 <= j < n ==> 0 <= (#[trigger] seen[j]).0 < before.panes@.len(),
                forall|i: int, j: int| 0 <= i < j < seen.len() ==> (#[trigger] seen[i]).0 != (
                #[trigger] seen[j]).0,
                self.file() == (FileContent { view: self.file().view, ..fc }),
                only_read(fc.view, self.file().view),
                lists_ready(before, *self, fc.view, seen, k as int),
            decreases n - k,
        {
            let ghost sofar = *self;
            let at: usize = places[k].0;
            assert(places@[k as int].0 == seen[k as int].0);
            if at != 0 {
                self.prepare_list(at, places[k].1);
                proof {
                    assert(pane_ids(self.panes@).len() == self.panes@.len());
                    assert(pane_ids(sofar.panes@).len() == sofar.panes@.len());
                    lemma_list_ready(before, sofar, *self, fc.view, seen, k as int);
                }
            }
            k += 1;
        }
        true
    }

    fn border_of(&self, i: usize) -> (r: Border)
        requires
            self.wf(),
            i < self.panes@.len(),
        ensures
            (BorderView { title: r.title@, style: r.style }) == pane_border(*self, i as int),
    {
        let title = self.pane_title(i);
        let zoomed: bool = match self.zoom {
            Some(z) => z == self.panes[i].id,
            None => false,
        };
        Border {
            title: if zoomed {
                let mut out = "[ZOOM] ".to_owned();
                out.append(title.as_str());
                out
            } else {
                title
            },
            style: if i == self.focus {
                Style::strong(self.theme.focus_border)
            } else {
                Style::plain(self.theme.inactive_border)
            },
        }
    }

    /// The widget of the pane at a place. The lines of a list are read from the
    /// file.
    pub fn render_pane(&mut self, i: usize, rect: RectLike) -> (r: Widget)
        requires
            old(self).wf(),
            i < old(self).panes@.len(),
        ensures
            final(self).wf(),
            *final(self) == (App {
                panes: final(self).panes,
                last_cols: if i == old(self).focus {
                    inner(rect.w)
                } else {
                    old(self).last_cols
                },
                ..*old(self)
            }),
            final(self).only_file(*old(self)),
            final(self).file() == (FileContent {
                view: final(self).file().view,
                ..old(self).file()
            }),
            only_read(old(self).file().view, final(self).file().view),
            pane_drawn(*final(self), old(self).file().view, (i as int, rect), r@),
    {
        let ghost before = *self;
        let cols: usize = inner_extent(rect.w);
        if i == self.focus {
            self.last_cols = cols;
        }
        let border = self.border_of(i);
        let theme = self.theme;
        let opts = self.opts;
        let lines: Vec<Line> = if i == 0 {
            self.file_lines(cols)
        } else {
            assert(self.list(i as int).wf());
            let mut mc = MatchesContent::new(Vec::new(), String::new());
            let ghost start = *self;
            std::mem::swap(&mut mc, self.list_mut(i));
            proof {
                lemma_list_changed(start, *self, i as int);
                assert(self.panes@[0] == start.panes@[0]);
            }
            let ghost out = *self;
            let fc = self.file_mut();
            let found = build_matches_lines(&mut fc.view, &mc, cols, &theme, opts);
            proof {
                lemma_file_changed(out, *self);
            }
            let ghost read = *self;
            std::mem::swap(&mut mc, self.list_mut(i));
            proof {
                lemma_list_changed(read, *self, i as int);
                assert(self.panes@[0] == read.panes@[0]);
                assert forall|j: int| 1 <= j < start.panes@.len() implies #[trigger] self.panes@[j]
                    == start.panes@[j] by {
                    if j != i {
                        assert(read.panes@[j] == out.panes@[j]);
                        assert(out.panes@[j] == start.panes@[j]);
                    }
                }
            }
            found
        };
        proof {
            lemma_file_changed(before, *self);
        }
        Widget { area: rect, border: Some(border), lines }
    }

    fn render_panes(&mut self, content: RectLike) -> (r: Vec<Widget>)
        requires
            old(self).wf(),
        ensures
            final(self).wf(),
            panes_drawn(*old(self), *final(self), content, plain_widgets(r@)),
    {
        let ghost before = *self;
        let places = self.visible_panes(content);
        let ghost seen = seen_panes(before, content);
        proof {
            lemma_seen_apart(before, content);
        }
        if places[0].0 == 0 {
            let fc = self.file_mut();
            let height: usize = fc.inner_h;
            fc.view.fill_to(height);
            proof {
                lemma_file_changed(before, *self);
            }
        }
        let ghost filled = *self;
        let ghost v = self.file().view;
        assert(file_refilled(before.file(), v, file_place(seen) is Some));
        proof {
            assert forall|c: Seq<u8>| #[trigger] before.file().view.shows(c) implies v.shows(c) by {
                if places@[0].0 == 0 {
                    assert(v.in_step(c));
                }
            }
        }
        let n: usize = places.len();
        let mut out: Vec<Widget> = Vec::new();
        let mut k: usize = 0;
        while k < n
            invariant
                self.wf(),
                k <= n,
                n == places@.len(),
                n == seen.len(),
                out@.len() == k,
                *self == (App { panes: self.panes, last_cols: self.last_cols, ..before }),
                self.last_cols == focus_cols(
                    seen,
                    before.focus as int,
                    before.last_cols,
                    k as int,
                ),
                self.only_file(before),
                forall|j: int|
                    0 <= j < n ==> (#[trigger] places@[j]).0 == seen[j].0 && places@[j].1 == seen[j].1
                        && places@[j].0 < before.panes@.len(),
                self.file() == (FileContent { view: self.file().view, ..before.file() }),
                only_read(v, self.file().view),
                v.same_frame(before.file().view),
                forall|c: Seq<u8>| #[trigger] before.file().view.shows(c) ==> v.shows(c),
                forall|j: int|
                    0 <= j < k ==> pane_drawn(*self, before.file().view, seen[j], (
                    #[trigger] out@[j])@),
            decreases n - k,
        {
            let ghost sofar = *self;
            let ghost drawn_sofar = out@;
            assert(places@[k as int].0 == seen[k as int].0);
            let w = self.render_pane(places[k].0, places[k].1);
            out.push(w);
            proof {
                assert(pane_drawn(*self, before.file().view, seen[k as int], w@)) by {
                    assert forall|c: Seq<u8>| #[trigger] before.file().view.shows(c) implies
                        sofar.file().view.shows(c) by {
                        assert(v.shows(c));
                    }
                }
                assert forall|j: int| 0 <= j < k + 1 implies pane_drawn(
                    *self,
                    before.file().view,
                    seen[j],
                    (#[trigger] out@[j])@,
                ) by {
                    if j < k {
                        assert(out@[j] == drawn_sofar[j]);
                        assert(places@[j].0 == seen[j].0);
                        lemma_still_drawn(
                            sofar,
                            *self,
                            before.file().view,
                            seen[j],
                            out@[j]@,
                        );
                    }
                }
            }
            k += 1;
        }
        assert forall|j: int| 0 <= j < plain_widgets(out@).len() implies pane_drawn(
            *self,
            before.file().view,
            seen[j],
            #[trigger] plain_widgets(out@)[j],
        ) by {
            assert(plain_widgets(out@)[j] == out@[j]@);
        }
        out
    }

    fn status_widget(&self, area: RectLike) -> (r: Widget)
        requires
            self.wf(),
        ensures
            status_drawn(*self, area, r@),
    {
        let line = self.render_status(area.w);
        let ghost plain = line@;
        let mut lines: Vec<Line> = Vec::new();
        lines.push(line);
        assert(plain_lines(lines@) =~= seq![plain]);
        Widget { area, border: None, lines }
    }

    fn bottom_widget(&self, area: RectLike) -> (r: Widget)
        requires
            self.wf(),
            bottom_height(self.mode) == 1,
        ensures
            r@ == (WidgetView {
                area,
                border: None,
                lines: seq![bottom_line(*self, area.w)],
            }),
    {
        let line = match &self.mode {
            Mode::Cmd(cs) => render_cmdline(cs, area.w, &self.theme),
            Mode::Goto(gs) => render_goto(gs, &self.theme),
            _ => render_pick(self.panes.len(), &self.theme),
        };
        let ghost plain = line@;
        let mut lines: Vec<Line> = Vec::new();
        lines.push(line);
        assert(plain_lines(lines@) =~= seq![plain]);
        Widget { area, border: None, lines }
    }

    fn panel_widget(&self, area: RectLike) -> (r: Widget)
        requires
            self.wf(),
            self.mode is History || self.mode is Help,
        ensures
            panel_drawn(*self, area, r@),
    {
        match &self.mode {
            Mode::History(st) => Widget {
                area,
                border: Some(
                    Border {
                        title: " 历史关键字（模糊匹配） ".to_owned(),
                        style: Style::plain(self.theme.panel_border),
                    },
                ),
                lines: render_history(st, self.history.items(), area.h, &self.theme),
            },
            _ => Widget {
                area,
                border: Some(
                    Border {
                        title: " 键位帮助 ".to_owned(),
                        style: Style::plain(self.theme.panel_border),
                    },
                ),
                lines: render_help(&self.keys, area.h, &self.theme),
            },
        }
    }

    /// What stands on a screen. The file's window is read anew, as taking in
    /// the reports of a search may have moved it.
    pub fn draw(&mut self, area: RectLike) -> (r: Vec<Widget>)
        requires
            old(self).wf(),
            in_range(area),
        ensures
            final(self).wf(),
            drawn(*old(self), *final(self), area, plain_widgets(r@)),
    {
        let ghost before = *self;
        if area.h < LEAST_SCREEN {
            return Vec::new();
        }
        let bottom: u16 = self.bottom_rows();
        let (content, status, typed) = split_screen(area, LEAST_CONTENT, STATUS_ROWS, bottom);
        if self.mode.is_history() || self.mode.is_help() {
            let mut out: Vec<Widget> = Vec::new();
            out.push(self.panel_widget(content));
            out.push(self.status_widget(status));
            return out;
        }
        let mut out = self.render_panes(content);
        let ghost panes = plain_widgets(out@);
        let ghost n = panes.len() as int;
        out.push(self.status_widget(status));
        if bottom == 1 {
            out.push(self.bottom_widget(typed));
        }
        assert(plain_widgets(out@).take(n) =~= panes);
        out
    }

    /// The rows of the line in which is typed.
    fn bottom_rows(&self) -> (r: u16)
        ensures
            r == bottom_height(self.mode),
    {
        if self.mode.is_cmd() || self.mode.is_pick() || self.mode.is_goto() {
            1
        } else {
            0
        }
    }
}

/// What stands around the pane at a place.
pub open spec fn pane_border<D: Fn(DiskRequest) -> DiskReply>(a: App<D>, i: int) -> BorderView {
    BorderView {
        title: if a.zoom is Some && a.zoom->0 == a.panes@[i].id {
            "[ZOOM] "@ + title_of(a, i)
        } else {
            title_of(a, i)
        },
        style: if i == a.focus {
            bold_style(a.theme.focus_border)
        } else {
            plain_style(a.theme.inactive_border)
        },
    }
}

/// Whether a widget shows the pane at a place.
pub open spec fn pane_drawn<D: Fn(DiskRequest) -> DiskReply>(
    a: App<D>,
    view: FileView<D>,
    place: (int, RectLike),
    w: WidgetView,
) -> bool {
    &&& w.area == place.1
    &&& w.border == Some(pane_border(a, place.0))
    &&& if place.0 == 0 {
        w.lines == file_rows(a, inner(place.1.w) as int, a.file().view.shown().len())
    } else {
        forall|c: Seq<u8>| #[trigger]
            view.shows(c) ==> w.lines == list_shown(
                c,
                view.row_limit() as int,
                view.enc(),
                a.list(place.0),
                inner(place.1.w) as int,
                a.theme,
                a.opts,
            )
    }
}

/// Whether a widget is the status line.
pub open spec fn status_drawn<D: Fn(DiskRequest) -> DiskReply>(
    a: App<D>,
    area: RectLike,
    w: WidgetView,
) -> bool {
    &&& w.area == area
    &&& w.border is None
    &&& exists|at: Option<usize>| #[trigger]
        match_here(a.file(), at) && w.lines == seq![
            seq![span_of(status_text(a, area.w as int, at), status_style(a.theme))],
        ]
}

/// The line in which is typed or chosen.
pub open spec fn bottom_line<D: Fn(DiskRequest) -> DiskReply>(a: App<D>, width: u16) -> Seq<SpanView> {
    match a.mode {
        Mode::Cmd(cs) => cmd_spans(cs, width as int, a.theme),
        Mode::PickTarget(_) => pick_spans(a.panes@.len(), a.theme),
        Mode::Goto(gs) => goto_spans(gs, a.theme),
        _ => Seq::empty(),
    }
}

/// Whether a widget is a panel in place of the panes: the history or the help.
pub open spec fn panel_drawn<D: Fn(DiskRequest) -> DiskReply>(
    a: App<D>,
    area: RectLike,
    w: WidgetView,
) -> bool {
    &&& w.area == area
    &&& match a.mode {
        Mode::History(st) => {
            &&& w.border == Some(
                BorderView {
                    title: " 历史关键字（模糊匹配） "@,
                    style: plain_style(a.theme.panel_border),
                },
            )
            &&& w.lines == history_lines(st, a.history.keywords(), area.h as int, a.theme)
        },
        _ => {
            &&& w.border == Some(
                BorderView { title: " 键位帮助 "@, style: plain_style(a.theme.panel_border) },
            )
            &&& exists|entries: Seq<(Action, String)>| #[trigger]
                help_listed(a.keys, entries) && w.lines == help_lines(
                    entries,
                    area.h as int,
                    a.theme,
                )
        },
    }
}

/// The columns of the pane with the focus, if it is among the first `n` panes
/// that are seen.
pub open spec fn focus_cols(
    seen: Seq<(int, RectLike)>,
    focus: int,
    otherwise: usize,
    n: int,
) -> usize
    decreases n,
{
    if n <= 0 {
        otherwise
    } else if seen[n - 1].0 == focus {
        inner(seen[n - 1].1.w)
    } else {
        focus_cols(seen, focus, otherwise, n - 1)
    }
}

/// Whether the panes were drawn: the file's window read anew if it is seen, and
/// each pane with its border and its lines, one widget each.
pub open spec fn panes_drawn<D: Fn(DiskRequest) -> DiskReply>(
    before: App<D>,
    after: App<D>,
    area: RectLike,
    w: Seq<WidgetView>,
) -> bool {
    let seen = seen_panes(before, area);
    &&& after == (App { panes: after.panes, last_cols: after.last_cols, ..before })
    &&& after.last_cols == focus_cols(
        seen,
        before.focus as int,
        before.last_cols,
        seen.len() as int,
    )
    &&& after.only_file(before)
    &&& exists|v: FileView<D>|
        {
            &&& #[trigger] file_refilled(before.file(), v, file_place(seen) is Some)
            &&& after.file() == (FileContent { view: after.file().view, ..before.file() })
            &&& only_read(v, after.file().view)
        }
    &&& w.len() == seen.len()
    &&& forall|k: int|
        0 <= k < w.len() ==> pane_drawn(after, before.file().view, seen[k], #[trigger] w[k])
}

/// Whether the file's window was read anew, if it is seen.
pub open spec fn file_refilled<D: Fn(DiskRequest) -> DiskReply>(
    fc: FileContent<D>,
    v: FileView<D>,
    seen: bool,
) -> bool {
    if seen {
        window_filled(fc.view, v, fc.inner_h)
    } else {
        v == fc.view
    }
}

/// Widgets as plain values.
pub open spec fn plain_widgets(v: Seq<Widget>) -> Seq<WidgetView> {
    v.map_values(|w: Widget| w@)
}

/// Whether a screen was drawn: nothing on one that is too low; the history or
/// the help, if one of them is open, else the panes; the status line; and the
/// line in which is typed.
pub open spec fn drawn<D: Fn(DiskRequest) -> DiskReply>(
    before: App<D>,
    after: App<D>,
    area: RectLike,
    w: Seq<WidgetView>,
) -> bool {
    let parts = in_three(area, STATUS_ROWS, bottom_height(before.mode));
    if area.h < LEAST_SCREEN {
        after == before && w.len() == 0
    } else if !before.panes_seen(area.h) {
        &&& after == before
        &&& w.len() == 2
        &&& panel_drawn(before, parts.0, w[0])
        &&& status_drawn(before, parts.1, w[1])
    } else {
        let n = seen_panes(before, parts.0).len();
        &&& w.len() == n + 1 + bottom_height(before.mode)
        &&& panes_drawn(before, after, parts.0, w.take(n as int))
        &&& status_drawn(after, parts.1, w[n as int])
        &&& bottom_height(before.mode) == 1 ==> w[n as int + 1] == (WidgetView {
            area: parts.2,
            border: None,
            lines: seq![bottom_line(after, parts.2.w)],
        })
    }
}

/// The lines of the file's pane depend on its window alone, not on what else of
/// the file was read.
proof fn lemma_same_rows<D: Fn(DiskRequest) -> DiskReply>(a: App<D>, b: App<D>, cols: int, n: nat)
    requires
        b.file() == (FileContent { view: b.file().view, ..a.file() }),
        b.file().view.same_place(a.file().view),
        b.mode == a.mode,
        b.theme == a.theme,
        n <= a.file().view.shown().len(),
    ensures
        file_rows(b, cols, n) == file_rows(a, cols, n),
    decreases n,
{
    if n > 0 {
        lemma_same_rows(a, b, cols, (n - 1) as nat);
        assert(crate::body::file_row(b, cols, n - 1) == crate::body::file_row(a, cols, n - 1));
    }
}

/// A pane that was drawn is still drawn when further panes have been.
proof fn lemma_still_drawn<D: Fn(DiskRequest) -> DiskReply>(
    a: App<D>,
    b: App<D>,
    view: FileView<D>,
    place: (int, RectLike),
    w: WidgetView,
)
    requires
        pane_drawn(a, view, place, w),
        b == (App { panes: b.panes, last_cols: b.last_cols, ..a }),
        a.panes@.len() >= 1,
        b.only_file(a),
        0 <= place.0 < a.panes@.len(),
        b.file() == (FileContent { view: b.file().view, ..a.file() }),
        only_read(a.file().view, b.file().view),
    ensures
        pane_drawn(b, view, place, w),
{
    if place.0 == 0 {
        lemma_same_rows(a, b, inner(place.1.w) as int, a.file().view.shown().len());
    } else {
        assert(b.panes@[place.0] == a.panes@[place.0]);
    }
    assert(b.panes@[place.0].id == a.panes@[place.0].id);
}

/// A frame moves no cursor: fitting the panes and drawing them leave the file's
/// cursor on its row, each list its selected line, and the file the same.
pub proof fn law_frames_move_no_cursor<D: Fn(DiskRequest) -> DiskReply>(
    before: App<D>,
    after: App<D>,
    area: RectLike,
    w: Seq<WidgetView>,
    i: int,
    c: Seq<u8>,
)
    requires
        before.wf(),
        prepared(before, after, area) || drawn(before, after, area, w),
        before.file().view.shows(c),
    ensures
        after.file().view.cursor() == before.file().view.cursor(),
        after.file().view.shows(c),
        1 <= i < before.panes@.len() ==> after.list(i).rows == before.list(i).rows && after.list(
            i,
        ).sel == before.list(i).sel,
{
    if prepared(before, after, area) {
        lemma_seen_apart(before, area);
        let seen = seen_panes(before, area);
        let fc = choose|fc: FileContent<D>|
            {
                &&& #[trigger] file_ready(before.file(), fc, file_place(seen))
                &&& after.file() == (FileContent { view: after.file().view, ..fc })
                &&& only_read(fc.view, after.file().view)
                &&& lists_ready(before, after, fc.view, seen, seen.len() as int)
            };
        assert(fc.view.shows(c));
        if 1 <= i < before.panes@.len() {
            assert(before.list(i).wf()) by {
                assert(before.panes@[i].content is Matches);
            }
            if exists|k: int| 0 <= k < seen.len() && (#[trigger] seen[k]).0 == i {
                let k = choose|k: int| 0 <= k < seen.len() && (#[trigger] seen[k]).0 == i;
                assert(seen[k].0 == i);
                let v = choose|v: FileView<D>| #[trigger]
                    list_prepared(
                        before.list(seen[k].0),
                        after.list(seen[k].0),
                        fc.view,
                        v,
                        seen[k].1,
                    );
                assert(list_prepared(before.list(i), after.list(i), fc.view, v, seen[k].1));
            } else {
                assert(after.panes@[i] == before.panes@[i]);
            }
        }
    } else {
        let parts = in_three(area, STATUS_ROWS, bottom_height(before.mode));
        if area.h >= LEAST_SCREEN && before.panes_seen(area.h) {
            let seen = seen_panes(before, parts.0);
            let v = choose|v: FileView<D>|
                {
                    &&& #[trigger] file_refilled(before.file(), v, file_place(seen) is Some)
                    &&& after.file() == (FileContent { view: after.file().view, ..before.file() })
                    &&& only_read(v, after.file().view)
                };
            assert(v.shows(c));
            if 1 <= i < before.panes@.len() {
                assert(after.panes@[i] == before.panes@[i]);
            }
        }
    }
}

/// The panes that are seen have places of their own.
proof fn lemma_seen_apart<D: Fn(DiskRequest) -> DiskReply>(a: App<D>, area: RectLike)
    requires
        a.wf(),
    ensures
        seen_panes(a, area).len() >= 1,
        forall|i: int, j: int|
            0 <= i < j < seen_panes(a, area).len() ==> (#[trigger] seen_panes(a, area)[i]).0 != (
            #[trigger] seen_panes(a, area)[j]).0,
        forall|k: int|
            0 < k < seen_panes(a, area).len() ==> (#[trigger] seen_panes(a, area)[k]).0 != 0,
{
}

proof fn lemma_list_ready<D: Fn(DiskRequest) -> DiskReply>(
    before: App<D>,
    sofar: App<D>,
    after: App<D>,
    view: FileView<D>,
    seen: Seq<(int, RectLike)>,
    k: int,
)
    requires
        before.panes_wf(),
        0 <= k < seen.len(),
        1 <= seen[k].0 < before.panes@.len(),
        sofar.panes@.len() == before.panes@.len(),
        after.panes@.len() == before.panes@.len(),
        forall|i: int, j: int| 0 <= i < j < seen.len() ==> (#[trigger] seen[i]).0 != (
        #[trigger] seen[j]).0,
        forall|j: int| 0 <= j < k ==> 0 <= (#[trigger] seen[j]).0 < before.panes@.len(),
        lists_ready(before, sofar, view, seen, k),
        only_read(view, sofar.file().view),
        only_read(sofar.file().view, after.file().view),
        forall|i: int|
            1 <= i < before.panes@.len() && i != seen[k].0 ==> #[trigger] after.panes@[i]
                == sofar.panes@[i],
        list_prepared(
            sofar.list(seen[k].0),
            after.list(seen[k].0),
            sofar.file().view,
            after.file().view,
            seen[k].1,
        ),
    ensures
        only_read(view, after.file().view),
        lists_ready(before, after, view, seen, k + 1),
{
    let at = seen[k].0;
    let v0 = sofar.file().view;
    let v1 = after.file().view;
    assert forall|c: Seq<u8>| #[trigger] view.shows(c) implies v1.shows(c) by {
        assert(v0.shows(c));
    }
    assert(sofar.panes@[at] == before.panes@[at]);
    assert(list_prepared(before.list(at), after.list(at), view, v1, seen[k].1)) by {
        assert forall|c: Seq<u8>| #[trigger] view.shows(c) implies v0.shows(c) by {}
    }
    assert forall|j: int| 0 <= j < k + 1 && (#[trigger] seen[j]).0 != 0 implies exists|
        v: FileView<D>,
    | #[trigger]
        list_prepared(before.list(seen[j].0), after.list(seen[j].0), view, v, seen[j].1) by {
        if j < k {
            assert(seen[j].0 != at);
            assert(after.panes@[seen[j].0] == sofar.panes@[seen[j].0]);
            assert(exists|v: FileView<D>| #[trigger]
                list_prepared(before.list(seen[j].0), sofar.list(seen[j].0), view, v, seen[j].1));
        }
    }
    assert forall|i: int|
        1 <= i < before.panes@.len() && (forall|j: int|
            0 <= j < k + 1 ==> (#[trigger] seen[j]).0 != i) implies #[trigger] after.panes@[i]
        == before.panes@[i] by {
        assert(seen[k].0 != i);
        assert(forall|j: int| 0 <= j < k ==> (#[trigger] seen[j]).0 != i);
        assert(sofar.panes@[i] == before.panes@[i]);
    }
}

} // verus!
