//! The status line, the line in which is typed, and the panels for the history
//! and for help.
use vstd::prelude::*;
use crate::app::App;
use crate::file::{DiskReply, DiskRequest};
use crate::keymap::{action_named, default_table, label_of, lists_keys, Action, Keymap};
use crate::modes::{greater, lesser, CmdState, GotoState, HistoryState};
use crate::panes::{
    place_in, places, rising, ActiveSearch, Content, FileContent, MatchesContent, SearchPrefs,
};
use crate::styled::{
    bold_style, colored, dim_style, plain_lines, plain_spans, plain_style, push_line, push_span,
    push_str, span_of, Line, Span, SpanView, Style,
};
use crate::text::{
    chars_after_cols, chars_of, clip_str, clipped, decimal, fitting, number_text, pad_left, padded,
    str_cols, text_width, texts,
};
use crate::theme::{Color, Theme};

verus! {

/// The columns that a keyword may take in a status line of this width.
pub open spec fn keyword_cols(width: int) -> int {
    lesser(greater(width * 18 / 100, 14), 90)
}

/// The rows that are seen, in words.
pub open spec fn rows_told(top: int, rows: int) -> Seq<char> {
    let last = if rows == 0 {
        top
    } else {
        lesser(top + rows - 1, u64::MAX as int)
    };
    "行 "@ + decimal(top as nat) + "-"@ + decimal(last as nat)
}

/// How far the cursor's row is down a file of `total` rows, in percent.
pub open spec fn percent(row0: int, total: int) -> int {
    if total > 0 {
        lesser(row0 * 100 / total, 100)
    } else {
        100
    }
}

/// The number of rows and how far down the cursor is, in words.
pub open spec fn total_told(row0: int, total: Option<u64>) -> Seq<char> {
    match total {
        Some(n) => "/"@ + decimal(n as nat) + "  ("@ + decimal(percent(row0, n as int) as nat)
            + "%)"@,
        None => "/?"@,
    }
}

/// The file's search in words; `at` is the number of the match that the cursor
/// stands on.
pub open spec fn search_told(a: ActiveSearch, at: Option<usize>, limit: int) -> Seq<char> {
    let count = if a.done {
        decimal(a.matches@.len())
    } else {
        "≥"@ + decimal(a.matches@.len())
    };
    "  "@ + (if a.forward {
        "/"@
    } else {
        "?"@
    }) + clipped(a.pattern@, limit as nat) + "  匹配 "@ + match at {
        Some(k) => decimal(k as nat) + "/"@ + count,
        None => count,
    }
}

/// The file's pane in words.
pub open spec fn file_told<D: Fn(DiskRequest) -> DiskReply>(
    fc: FileContent<D>,
    at: Option<usize>,
    limit: int,
) -> Seq<char> {
    let total = if fc.view.idx().done() {
        Some(fc.view.idx().rows())
    } else {
        None
    };
    rows_told(fc.view.top() + 1, fc.view.shown().len() as int) + total_told(
        fc.view.cursor() as int,
        total,
    ) + match fc.search {
        None => Seq::empty(),
        Some(a) => search_told(a, at, limit),
    }
}

/// The search of a list in words, if the selected line is a match.
pub open spec fn list_search_told(mc: MatchesContent, limit: int) -> Seq<char> {
    match mc.search {
        None => Seq::empty(),
        Some(s) => match place_in(places(s.match_idx@), mc.sel as int) {
            None => Seq::empty(),
            Some(k) => "  匹配 "@ + decimal((k + 1) as nat) + "/"@ + decimal(s.match_idx@.len())
                + "  "@ + clipped(s.query@, limit as nat),
        },
    }
}

/// A list in words.
pub open spec fn list_told(mc: MatchesContent, limit: int) -> Seq<char> {
    let line = if mc.sel < mc.rows@.len() {
        mc.rows@[mc.sel as int].line_no
    } else {
        0
    };
    clipped(mc.tag@, limit as nat) + " 共 "@ + decimal(mc.rows@.len()) + " 行  选中原始行 "@
        + decimal(line as nat) + list_search_told(mc, limit)
}

/// How a search takes its pattern, in words.
pub open spec fn prefs_told(opts: SearchPrefs) -> Seq<char> {
    "   [大小写: "@ + opts.case.name() + "] [整词: "@ + (if opts.word {
        "开"@
    } else {
        "关"@
    }) + "]"@
}

/// The note, else the message.
pub open spec fn note_told(trans: Option<String>, msg: Seq<char>) -> Seq<char> {
    match trans {
        Some(t) => "   [ "@ + t@ + " ]"@,
        None => if msg.len() > 0 {
            "   "@ + msg
        } else {
            Seq::empty()
        },
    }
}

/// The text of a status line of this width; `at` is the number of the match
/// that the file's cursor stands on.
pub open spec fn status_text<D: Fn(DiskRequest) -> DiskReply>(
    a: App<D>,
    width: int,
    at: Option<usize>,
) -> Seq<char> {
    (if a.pending_jump is Some {
        "[processing...]  "@
    } else {
        Seq::empty()
    }) + (if a.focus == 0 {
        file_told(a.file(), at, keyword_cols(width))
    } else {
        list_told(a.list(a.focus as int), keyword_cols(width))
    }) + prefs_told(a.opts) + note_told(a.trans, a.msg@)
}

/// The colours of the status line: the theme's, or the terminal's own
/// exchanged.
pub open spec fn status_style(theme: Theme) -> Style {
    Style {
        fg: theme.status_fg,
        bg: theme.status_bg,
        bold: false,
        dim: false,
        reversed: theme.status_fg is None && theme.status_bg is None,
    }
}

/// The number of the match that the cursor stands on, if the matches are in
/// order.
pub open spec fn match_here<D: Fn(DiskRequest) -> DiskReply>(
    fc: FileContent<D>,
    at: Option<usize>,
) -> bool {
    match fc.search {
        None => at is None,
        Some(a) => rising(a.lines()) ==> at == match place_in(a.lines(), fc.view.cursor() + 1) {
            Some(k) => Some((k + 1) as usize),
            None => None,
        },
    }
}

fn keyword_limit(width: u16) -> (r: usize)
    ensures
        r == keyword_cols(width as int),
{
    let part: u32 = width as u32 * 18 / 100;
    if part < 14 {
        14
    } else if part > 90 {
        90
    } else {
        part as usize
    }
}

fn rows_words(top: u64, rows: usize) -> (r: String)
    ensures
        r@ == rows_told(top as int, rows as int),
{
    let last: u64 = if rows == 0 {
        top
    } else if (rows - 1) as u64 > u64::MAX - top {
        u64::MAX
    } else {
        top + (rows - 1) as u64
    };
    let mut out = "行 ".to_owned();
    out.append(number_text(top).as_str());
    out.append("-");
    out.append(number_text(last).as_str());
    out
}

fn total_words(row0: u64, total: Option<u64>) -> (r: String)
    ensures
        r@ == total_told(row0 as int, total),
{
    match total {
        Some(n) => {
            let part: u64 = if n > 0 {
                let p: u128 = row0 as u128 * 100 / n as u128;
                if p > 100 {
                    100
                } else {
                    p as u64
                }
            } else {
                100
            };
            let mut out = "/".to_owned();
            out.append(number_text(n).as_str());
            out.append("  (");
            out.append(number_text(part).as_str());
            out.append("%)");
            out
        },
        None => "/?".to_owned(),
    }
}

fn count_words(count: usize, done: bool) -> (r: String)
    ensures
        r@ == if done {
            decimal(count as nat)
        } else {
            "≥"@ + decimal(count as nat)
        },
{
    if done {
        number_text(count as u64)
    } else {
        let mut out = "≥".to_owned();
        out.append(number_text(count as u64).as_str());
        out
    }
}

fn search_words(a: &ActiveSearch, at: Option<usize>, limit: usize) -> (r: String)
    ensures
        r@ == search_told(*a, at, limit as int),
{
    let count = count_words(a.matches.len(), a.done);
    let place = match at {
        Some(k) => {
            let mut out = number_text(k as u64);
            out.append("/");
            out.append(count.as_str());
            out
        },
        None => count,
    };
    let mut out = "  ".to_owned();
    out.append(
        if a.forward {
            "/"
        } else {
            "?"
        },
    );
    out.append(clip_str(a.pattern.as_str(), limit).as_str());
    out.append("  匹配 ");
    out.append(place.as_str());
    out
}

fn file_words<D: Fn(DiskRequest) -> DiskReply>(
    fc: &FileContent<D>,
    at: Option<usize>,
    limit: usize,
) -> (r: String)
    requires
        fc.wf(),
    ensures
        r@ == file_told(*fc, at, limit as int),
{
    let mut out = rows_words(fc.view.top_line1(), fc.view.row_count());
    out.append(total_words(fc.view.cursor_line1() - 1, fc.known_total()).as_str());
    let ghost front = out@;
    match &fc.search {
        None => {
            assert(out@ =~= front + Seq::empty());
        },
        Some(a) => {
            out.append(search_words(a, at, limit).as_str());
        },
    }
    out
}

fn list_search_words(mc: &MatchesContent, limit: usize) -> (r: String)
    requires
        mc.wf(),
    ensures
        r@ == list_search_told(*mc, limit as int),
{
    match &mc.search {
        None => {
            let out = String::new();
            assert(out@ =~= Seq::empty());
            out
        },
        Some(s) => match mc.search_pos() {
            None => {
                let out = String::new();
                assert(out@ =~= Seq::empty());
                out
            },
            Some((k, _)) => {
                let total: usize = s.match_idx.len();
                let mut out = "  匹配 ".to_owned();
                out.append(number_text(k as u64).as_str());
                out.append("/");
                out.append(number_text(total as u64).as_str());
                out.append("  ");
                out.append(clip_str(s.query.as_str(), limit).as_str());
                proof {
                    crate::panes::lemma_below(places(s.match_idx@), mc.sel as int);
                    let hit = place_in(places(s.match_idx@), mc.sel as int);
                    assert(hit is Some && 0 <= hit->0 < s.match_idx@.len());
                    assert(hit->0 + 1 <= total);
                }
                out
            },
        },
    }
}

fn list_words(mc: &MatchesContent, limit: usize) -> (r: String)
    requires
        mc.wf(),
    ensures
        r@ == list_told(*mc, limit as int),
{
    let len: usize = mc.rows.len();
    let line: u64 = if mc.sel < len {
        mc.rows[mc.sel].line_no
    } else {
        0
    };
    let mut out = clip_str(mc.tag.as_str(), limit);
    out.append(" 共 ");
    out.append(number_text(len as u64).as_str());
    out.append(" 行  选中原始行 ");
    out.append(number_text(line).as_str());
    out.append(list_search_words(mc, limit).as_str());
    out
}

/// A line of one span.
pub fn single_line(text: String, style: Style) -> (r: Line)
    ensures
        r@ == seq![span_of(text@, style)],
{
    let mut spans: Vec<Span> = Vec::new();
    push_span(&mut spans, text, style);
    let line = Line { spans };
    assert(line@ =~= seq![span_of(text@, style)]);
    line
}

fn push_single(lines: &mut Vec<Line>, text: String, style: Style)
    ensures
        plain_lines(final(lines)@) == plain_lines(old(lines)@).push(seq![span_of(text@, style)]),
{
    lines.push(single_line(text, style));
    assert(plain_lines(lines@) =~= plain_lines(old(lines)@).push(seq![span_of(text@, style)]));
}

fn push_blank(lines: &mut Vec<Line>)
    ensures
        plain_lines(final(lines)@) == plain_lines(old(lines)@).push(Seq::empty()),
{
    let spans: Vec<Span> = Vec::new();
    assert(plain_spans(spans@) =~= Seq::empty());
    push_line(lines, spans);
}

impl<D: Fn(DiskRequest) -> DiskReply> App<D> {
    /// The status line.
    pub fn render_status(&self, width: u16) -> (r: Line)
        requires
            self.wf(),
        ensures
            exists|at: Option<usize>| #[trigger]
                match_here(self.file(), at) && r@ == seq![
                    span_of(status_text(*self, width as int, at), status_style(self.theme)),
                ],
    {
        let limit: usize = keyword_limit(width);
        let mut text = if self.pending_jump.is_some() {
            "[processing...]  ".to_owned()
        } else {
            String::new()
        };
        let ghost head = if self.pending_jump is Some {
            "[processing...]  "@
        } else {
            Seq::empty()
        };
        assert(text@ =~= head);
        let at: Option<usize> = self.file_ref().match_at_cursor();
        assert(match_here(self.file(), at));
        match &self.panes[self.focus].content {
            Content::File(fc) => {
                assert(self.focus == 0);
                text.append(file_words(fc, at, limit).as_str());
            },
            Content::Matches(mc) => {
                assert(self.focus != 0);
                assert(self.list(self.focus as int).wf());
                text.append(list_words(mc, limit).as_str());
            },
        }
        let ghost front = text@;
        text.append("   [大小写: ");
        text.append(self.opts.case.label());
        text.append("] [整词: ");
        text.append(
            if self.opts.word {
                "开"
            } else {
                "关"
            },
        );
        text.append("]");
        assert(text@ =~= front + prefs_told(self.opts));
        let ghost body = text@;
        match &self.trans {
            Some(t) => {
                text.append("   [ ");
                text.append(t.as_str());
                text.append(" ]");
            },
            None => {
                if self.msg.as_str().unicode_len() > 0 {
                    text.append("   ");
                    text.append(self.msg.as_str());
                }
            },
        }
        assert(text@ =~= body + note_told(self.trans, self.msg@));
        assert(text@ =~= status_text(*self, width as int, at));
        let style = Style {
            fg: self.theme.status_fg,
            bg: self.theme.status_bg,
            bold: false,
            dim: false,
            reversed: self.theme.status_fg.is_none() && self.theme.status_bg.is_none(),
        };
        single_line(text, style)
    }
}

/// The columns for what is typed, beside the dots that stand for what is not
/// seen of it.
pub open spec fn typed_cols(width: int, left: bool, right: bool) -> int {
    greater(
        width - (if left {
            3int
        } else {
            0
        }) - (if right {
            3int
        } else {
            0
        }),
        1,
    )
}

/// The columns that are scrolled so that the cursor is seen.
pub open spec fn typed_scroll(before: int, cols: int) -> int {
    if before < cols {
        0
    } else {
        before - cols + 1
    }
}

/// A character that the cursor stands on.
pub open spec fn cursor_cell(col: Color) -> Style {
    Style { reversed: true, ..plain_style(col) }
}

/// What stands for text that is not seen.
pub open spec fn dots(there: bool) -> Seq<SpanView> {
    if there {
        seq![span_of("..."@, dim_style(Color::DarkGray))]
    } else {
        Seq::empty()
    }
}

/// A text with the cursor on its character `at`, or behind its end.
pub open spec fn text_with_cursor(shown: Seq<char>, at: int, col: Color) -> Seq<SpanView> {
    if at < shown.len() {
        seq![
            span_of(shown.take(at), plain_style(col)),
            span_of(seq![shown[at]], cursor_cell(col)),
            span_of(shown.skip(at + 1), plain_style(col)),
        ]
    } else {
        seq![span_of(shown.take(at), plain_style(col)), span_of(" "@, cursor_cell(col))]
    }
}

/// What is seen of a text that is typed, in `width` columns: the part around
/// the cursor, and dots for what is left out.
pub open spec fn typed_part(
    buf: Seq<char>,
    cursor: int,
    width: int,
    col: Color,
) -> Seq<SpanView> {
    let before = str_cols(buf.take(cursor)) as int;
    let right = before < str_cols(buf);
    let first = typed_scroll(before, typed_cols(width, false, right)) > 0;
    let cols = typed_cols(width, first, right);
    let scroll = typed_scroll(before, cols);
    let rest = buf.skip(fitting(buf, scroll as nat) as int);
    let shown = rest.take(fitting(rest, cols as nat) as int);
    dots(scroll > 0) + text_with_cursor(
        shown,
        fitting(shown, (before - scroll) as nat) as int,
        col,
    ) + dots(right)
}

/// The line in which a search is typed.
pub open spec fn cmd_spans(cs: CmdState, width: int, theme: Theme) -> Seq<SpanView> {
    let col = if cs.forward {
        theme.prompt_fwd
    } else {
        theme.prompt_back
    };
    seq![
        span_of(
            if cs.forward {
                "/"@
            } else {
                "?"@
            },
            plain_style(col),
        ),
    ] + (if width > 1 {
        typed_part(cs.buf@, cs.cursor as int, width - 1, col)
    } else {
        seq![span_of(" "@, cursor_cell(col))]
    })
}

fn cols_for_typed(width: usize, left: bool, right: bool) -> (r: usize)
    ensures
        r == typed_cols(width as int, left, right),
{
    let gone: usize = (if left {
        3usize
    } else {
        0
    }) + (if right {
        3usize
    } else {
        0
    });
    if width < gone + 1 {
        1
    } else {
        width - gone
    }
}

fn scroll_for_typed(before: usize, cols: usize) -> (r: usize)
    requires
        cols >= 1,
    ensures
        r == typed_scroll(before as int, cols as int),
{
    if before < cols {
        0
    } else {
        before - cols + 1
    }
}

fn push_dots(spans: &mut Vec<Span>, there: bool)
    ensures
        plain_spans(final(spans)@) == plain_spans(old(spans)@) + dots(there),
{
    let ghost before = plain_spans(spans@);
    if there {
        push_str(spans, "...", Style::faint(Color::DarkGray));
    }
    assert(plain_spans(spans@) =~= before + dots(there));
}

fn push_text_with_cursor(spans: &mut Vec<Span>, shown: &str, at: usize, col: Color)
    requires
        at <= shown@.len(),
    ensures
        plain_spans(final(spans)@) == plain_spans(old(spans)@) + text_with_cursor(
            shown@,
            at as int,
            col,
        ),
{
    let ghost before = plain_spans(spans@);
    let n: usize = shown.unicode_len();
    let cell = Style { fg: Some(col), bg: None, bold: false, dim: false, reversed: true };
    push_span(spans, shown.substring_char(0, at).to_owned(), Style::plain(col));
    assert(shown@.subrange(0, at as int) =~= shown@.take(at as int));
    if at < n {
        push_span(spans, shown.substring_char(at, at + 1).to_owned(), cell);
        push_span(spans, shown.substring_char(at + 1, n).to_owned(), Style::plain(col));
        assert(shown@.subrange(at as int, at + 1) =~= seq![shown@[at as int]]);
        assert(shown@.subrange(at + 1, n as int) =~= shown@.skip(at + 1));
    } else {
        push_str(spans, " ", cell);
    }
    assert(plain_spans(spans@) =~= before + text_with_cursor(shown@, at as int, col));
}

fn push_typed(spans: &mut Vec<Span>, buf: &str, cursor: usize, width: usize, col: Color)
    requires
        cursor <= buf@.len(),
        width >= 1,
    ensures
        plain_spans(final(spans)@) == plain_spans(old(spans)@) + typed_part(
            buf@,
            cursor as int,
            width as int,
            col,
        ),
{
    let ghost start = plain_spans(spans@);
    let n: usize = buf.unicode_len();
    assert(buf@.subrange(0, cursor as int) =~= buf@.take(cursor as int));
    let before: usize = text_width(buf.substring_char(0, cursor));
    let right: bool = before < text_width(buf);
    let first: bool = scroll_for_typed(before, cols_for_typed(width, false, right)) > 0;
    let cols: usize = cols_for_typed(width, first, right);
    let scroll: usize = scroll_for_typed(before, cols);
    let chars = chars_of(buf);
    assert(chars@.skip(0) =~= buf@);
    let from: usize = chars_after_cols(chars.as_slice(), 0, scroll);
    let ghost rest = buf@.skip(from as int);
    let count: usize = chars_after_cols(chars.as_slice(), from, cols);
    let shown = buf.substring_char(from, from + count);
    assert(shown@ =~= rest.take(count as int));
    let shown_chars = chars_of(shown);
    assert(shown_chars@.skip(0) =~= shown@);
    let at: usize = chars_after_cols(shown_chars.as_slice(), 0, before - scroll);
    push_dots(spans, scroll > 0);
    push_text_with_cursor(spans, shown, at, col);
    push_dots(spans, right);
    assert(plain_spans(spans@) =~= start + typed_part(
        buf@,
        cursor as int,
        width as int,
        col,
    ));
}

/// The line in which a search is typed.
pub fn render_cmdline(cs: &CmdState, width: u16, theme: &Theme) -> (r: Line)
    requires
        cs.wf(),
    ensures
        r@ == cmd_spans(*cs, width as int, *theme),
{
    let col = if cs.forward {
        theme.prompt_fwd
    } else {
        theme.prompt_back
    };
    let mut spans: Vec<Span> = Vec::new();
    push_str(
        &mut spans,
        if cs.forward {
            "/"
        } else {
            "?"
        },
        Style::plain(col),
    );
    if width > 1 {
        push_typed(&mut spans, cs.buf.as_str(), cs.cursor, width as usize - 1, col);
    } else {
        push_str(
            &mut spans,
            " ",
            Style { fg: Some(col), bg: None, bold: false, dim: false, reversed: true },
        );
    }
    let line = Line { spans };
    assert(line@ =~= cmd_spans(*cs, width as int, *theme));
    line
}

/// The line in which a line number is typed.
pub open spec fn goto_spans(gs: GotoState, theme: Theme) -> Seq<SpanView> {
    seq![
        span_of(":"@, plain_style(theme.cursor_marker)),
        span_of(gs.buf@, plain_style(Color::White)),
    ] + (if gs.cursor >= gs.buf@.len() {
        seq![
            span_of(
                " "@,
                Style { fg: None, bg: None, bold: false, dim: false, reversed: true },
            ),
        ]
    } else {
        Seq::empty()
    }) + seq![span_of("  (输入行号 Enter 跳转，Esc 取消)"@, plain_style(Color::DarkGray))]
}

/// The line in which a line number is typed.
pub fn render_goto(gs: &GotoState, theme: &Theme) -> (r: Line)
    ensures
        r@ == goto_spans(*gs, *theme),
{
    let mut spans: Vec<Span> = Vec::new();
    push_str(&mut spans, ":", Style::plain(theme.cursor_marker));
    push_str(&mut spans, gs.buf.as_str(), Style::plain(Color::White));
    if gs.cursor >= gs.buf.as_str().unicode_len() {
        push_str(
            &mut spans,
            " ",
            Style { fg: None, bg: None, bold: false, dim: false, reversed: true },
        );
    }
    push_str(&mut spans, "  (输入行号 Enter 跳转，Esc 取消)", Style::plain(Color::DarkGray));
    let line = Line { spans };
    assert(line@ =~= goto_spans(*gs, *theme));
    line
}

/// The line in which a place for a list is chosen among `n` panes.
pub open spec fn pick_spans(n: nat, theme: Theme) -> Seq<SpanView> {
    seq![
        span_of(
            "结果放入 →  h/j/k/l = 新窗在焦点窗左/下/上/右（Enter 默认右侧） | 1-"@ + decimal(n)
                + " 覆盖（1 为文件窗） | Esc 取消"@,
            bold_style(theme.panel_border),
        ),
    ]
}

/// The line in which a place for a list is chosen.
pub fn render_pick(panes: usize, theme: &Theme) -> (r: Line)
    ensures
        r@ == pick_spans(panes as nat, *theme),
{
    let mut text =
        "结果放入 →  h/j/k/l = 新窗在焦点窗左/下/上/右（Enter 默认右侧） | 1-".to_owned();
    text.append(number_text(panes as u64).as_str());
    text.append(" 覆盖（1 为文件窗） | Esc 取消");
    single_line(text, Style::strong(theme.panel_border))
}

/// The first line of the history: the filter and what can be done.
pub open spec fn history_head(filter: Seq<char>, theme: Theme) -> Seq<SpanView> {
    seq![
        span_of("历史搜索  "@, bold_style(theme.panel_border)),
        span_of(filter, plain_style(Color::White)),
        span_of(
            if filter.len() == 0 {
                "  (输入过滤  ↑↓选择  Enter=填入可编辑  再次 Enter 执行  Esc取消)"@
            } else {
                "  (↑↓选择  Enter=填入  再次 Enter 执行  Esc取消)"@
            },
            plain_style(Color::DarkGray),
        ),
    ]
}

/// The line of a keyword of the history.
pub open spec fn keyword_line(
    place: int,
    keyword: Seq<char>,
    selected: bool,
    theme: Theme,
) -> Seq<SpanView> {
    seq![
        span_of(
            if selected {
                "▶ "@
            } else {
                "  "@
            },
            plain_style(theme.cursor_marker),
        ),
        span_of(padded(decimal(place as nat), 3) + "  "@, plain_style(Color::DarkGray)),
        span_of(
            keyword,
            if selected {
                colored(Color::White, Some(theme.cursor_line_bg), false)
            } else {
                plain_style(Color::Gray)
            },
        ),
    ]
}

/// The keywords that are seen in a panel of this height.
pub open spec fn keywords_seen(height: int, count: int) -> int {
    lesser(greater(height - 4, 0), count)
}

/// The lines of the first `n` keywords that are listed.
pub open spec fn keyword_lines(
    st: HistoryState,
    items: Seq<Seq<char>>,
    n: nat,
    theme: Theme,
) -> Seq<Seq<SpanView>> {
    Seq::new(
        n,
        |k: int|
            keyword_line(
                st.list@[k] as int,
                items[st.list@[k] as int],
                k == st.sel,
                theme,
            ),
    )
}

/// The lines of the history panel.
pub open spec fn history_lines(
    st: HistoryState,
    items: Seq<Seq<char>>,
    height: int,
    theme: Theme,
) -> Seq<Seq<SpanView>> {
    let seen = keywords_seen(height, st.list@.len() as int);
    seq![history_head(st.filter@, theme), Seq::empty()] + (if st.list@.len() == 0 {
        seq![seq![span_of("无匹配历史："@ + st.filter@, plain_style(Color::Red))]]
    } else {
        keyword_lines(st, items, seen as nat, theme) + (if st.list@.len() > seen {
            seq![
                seq![
                    span_of(
                        "… 共 "@ + decimal(st.list@.len()) + " 条"@,
                        plain_style(Color::DarkGray),
                    ),
                ],
            ]
        } else {
            Seq::empty()
        })
    })
}

fn history_head_line(filter: &str, theme: &Theme) -> (r: Vec<Span>)
    ensures
        plain_spans(r@) == history_head(filter@, *theme),
{
    let mut spans: Vec<Span> = Vec::new();
    push_str(&mut spans, "历史搜索  ", Style::strong(theme.panel_border));
    push_str(&mut spans, filter, Style::plain(Color::White));
    push_str(
        &mut spans,
        if filter.unicode_len() == 0 {
            "  (输入过滤  ↑↓选择  Enter=填入可编辑  再次 Enter 执行  Esc取消)"
        } else {
            "  (↑↓选择  Enter=填入  再次 Enter 执行  Esc取消)"
        },
        Style::plain(Color::DarkGray),
    );
    assert(plain_spans(spans@) =~= history_head(filter@, *theme));
    spans
}

fn keyword_spans(place: usize, keyword: &str, selected: bool, theme: &Theme) -> (r: Vec<Span>)
    ensures
        plain_spans(r@) == keyword_line(place as int, keyword@, selected, *theme),
{
    let mut spans: Vec<Span> = Vec::new();
    push_str(
        &mut spans,
        if selected {
            "▶ "
        } else {
            "  "
        },
        Style::plain(theme.cursor_marker),
    );
    let mut no = pad_left(number_text(place as u64).as_str(), 3);
    no.append("  ");
    push_span(&mut spans, no, Style::plain(Color::DarkGray));
    push_str(
        &mut spans,
        keyword,
        if selected {
            Style {
                fg: Some(Color::White),
                bg: Some(theme.cursor_line_bg),
                bold: false,
                dim: false,
                reversed: false,
            }
        } else {
            Style::plain(Color::Gray)
        },
    );
    assert(plain_spans(spans@) =~= keyword_line(place as int, keyword@, selected, *theme));
    spans
}

/// The lines of the history panel: the filter, and the keywords that pass it.
pub fn render_history(st: &HistoryState, items: &[String], height: u16, theme: &Theme) -> (r: Vec<
    Line,
>)
    requires
        st.wf(items@.len()),
    ensures
        plain_lines(r@) == history_lines(*st, texts(items@), height as int, *theme),
{
    let mut lines: Vec<Line> = Vec::new();
    push_line(&mut lines, history_head_line(st.filter.as_str(), theme));
    push_blank(&mut lines);
    let ghost head = seq![history_head(st.filter@, *theme), Seq::<SpanView>::empty()];
    assert(plain_lines(lines@) =~= head);
    let n: usize = st.list.len();
    if n == 0 {
        let mut text = "无匹配历史：".to_owned();
        text.append(st.filter.as_str());
        push_single(&mut lines, text, Style::plain(Color::Red));
        assert(plain_lines(lines@) =~= history_lines(*st, texts(items@), height as int, *theme));
        return lines;
    }
    let room: usize = if height < 4 {
        0
    } else {
        height as usize - 4
    };
    let seen: usize = if room < n {
        room
    } else {
        n
    };
    let ghost all = keyword_lines(*st, texts(items@), seen as nat, *theme);
    let mut k: usize = 0;
    assert(head + all.take(0) =~= head);
    while k < seen
        invariant
            k <= seen <= n,
            n == st.list@.len(),
            st.wf(items@.len()),
            all.len() == seen,
            all == keyword_lines(*st, texts(items@), seen as nat, *theme),
            plain_lines(lines@) == head + all.take(k as int),
        decreases seen - k,
    {
        let place: usize = st.list[k];
        assert(texts(items@)[place as int] == items@[place as int]@);
        push_line(&mut lines, keyword_spans(place, items[place].as_str(), k == st.sel, theme));
        k += 1;
        assert(plain_lines(lines@) =~= head + all.take(k as int));
    }
    assert(all.take(seen as int) =~= all);
    if n > seen {
        let mut text = "… 共 ".to_owned();
        text.append(number_text(n as u64).as_str());
        text.append(" 条");
        push_single(&mut lines, text, Style::plain(Color::DarkGray));
    }
    assert(plain_lines(lines@) =~= history_lines(*st, texts(items@), height as int, *theme));
    lines
}

/// The line of an action and its keys.
pub open spec fn help_line(label: Seq<char>, keys: Seq<char>, theme: Theme) -> Seq<SpanView> {
    seq![
        span_of(label, plain_style(Color::White)),
        span_of("    "@, plain_style(Color::DarkGray)),
        span_of(keys, plain_style(theme.keyword)),
    ]
}

/// The first line of the help.
pub open spec fn help_head(theme: Theme) -> Seq<SpanView> {
    seq![
        span_of(
            "logviewer 帮助（键位来自当前配置 config.toml，改动后重启生效）"@,
            bold_style(theme.focus_border),
        ),
        span_of("   Esc/q/空格/F1 关闭"@, plain_style(Color::DarkGray)),
    ]
}

/// The last line of the help.
pub open spec fn help_hint() -> Seq<SpanView> {
    seq![
        span_of(
            "提示：结果窗与主窗行为一致（/ 搜索、n/N 跳转、Enter 回主窗）；h/j/k/l 为结果窗放置方位；配置键位字符串格式见 config.toml 注释。"@,
            plain_style(Color::DarkGray),
        ),
    ]
}

/// The actions that are seen in a panel of this height.
pub open spec fn actions_seen(height: int, count: int) -> int {
    lesser(greater(height - 4, 0), count)
}

/// Whether `entries` are the actions with their keys.
pub open spec fn help_listed(keys: Keymap, entries: Seq<(Action, String)>) -> bool {
    &&& entries.len() == default_table().len()
    &&& forall|i: int|
        0 <= i < entries.len() ==> {
            &&& Some((#[trigger] entries[i]).0) == action_named(default_table()[i].0)
            &&& lists_keys(keys@, entries[i].0, entries[i].1@)
        }
}

/// The lines of the first `n` actions.
pub open spec fn action_lines(entries: Seq<(Action, String)>, n: nat, theme: Theme) -> Seq<
    Seq<SpanView>,
> {
    Seq::new(n, |k: int| help_line(label_of(entries[k].0), entries[k].1@, theme))
}

/// The lines of the help panel.
pub open spec fn help_lines(
    entries: Seq<(Action, String)>,
    height: int,
    theme: Theme,
) -> Seq<Seq<SpanView>> {
    let seen = actions_seen(height, entries.len() as int);
    seq![help_head(theme), Seq::empty()] + action_lines(entries, seen as nat, theme) + (if 2 + seen < height - 2 {
        seq![Seq::empty(), help_hint()]
    } else {
        Seq::empty()
    })
}

fn help_spans(action: Action, keys: &str, theme: &Theme) -> (r: Vec<Span>)
    ensures
        plain_spans(r@) == help_line(label_of(action), keys@, *theme),
{
    let mut spans: Vec<Span> = Vec::new();
    push_str(&mut spans, Keymap::action_label(action), Style::plain(Color::White));
    push_str(&mut spans, "    ", Style::plain(Color::DarkGray));
    push_str(&mut spans, keys, Style::plain(theme.keyword));
    assert(plain_spans(spans@) =~= help_line(label_of(action), keys@, *theme));
    spans
}

/// The lines of the help panel: the actions and the keys that the
/// configuration gives them.
pub fn render_help(keys: &Keymap, height: u16, theme: &Theme) -> (r: Vec<Line>)
    requires
        keys.wf(),
    ensures
        exists|entries: Seq<(Action, String)>| #[trigger]
            help_listed(*keys, entries) && plain_lines(r@) == help_lines(
                entries,
                height as int,
                *theme,
            ),
{
    let entries = keys.help_entries();
    assert(help_listed(*keys, entries@));
    let n: usize = entries.len();
    let mut lines: Vec<Line> = Vec::new();
    let mut title: Vec<Span> = Vec::new();
    push_str(
        &mut title,
        "logviewer 帮助（键位来自当前配置 config.toml，改动后重启生效）",
        Style::strong(theme.focus_border),
    );
    push_str(&mut title, "   Esc/q/空格/F1 关闭", Style::plain(Color::DarkGray));
    assert(plain_spans(title@) =~= help_head(*theme));
    push_line(&mut lines, title);
    push_blank(&mut lines);
    let ghost head = seq![help_head(*theme), Seq::<SpanView>::empty()];
    assert(plain_lines(lines@) =~= head);
    let room: usize = if height < 4 {
        0
    } else {
        height as usize - 4
    };
    let seen: usize = if room < n {
        room
    } else {
        n
    };
    let ghost all = action_lines(entries@, seen as nat, *theme);
    let mut k: usize = 0;
    assert(head + all.take(0) =~= head);
    while k < seen
        invariant
            k <= seen <= n,
            n == entries@.len(),
            all.len() == seen,
            all == action_lines(entries@, seen as nat, *theme),
            plain_lines(lines@) == head + all.take(k as int),
        decreases seen - k,
    {
        push_line(&mut lines, help_spans(entries[k].0, entries[k].1.as_str(), theme));
        k += 1;
        assert(plain_lines(lines@) =~= head + all.take(k as int));
    }
    assert(all.take(seen as int) =~= all);
    if height > 4 && seen < height as usize - 4 {
        push_blank(&mut lines);
        push_single(
            &mut lines,
            "提示：结果窗与主窗行为一致（/ 搜索、n/N 跳转、Enter 回主窗）；h/j/k/l 为结果窗放置方位；配置键位字符串格式见 config.toml 注释。".to_owned(),
            Style::plain(Color::DarkGray),
        );
    }
    assert(plain_lines(lines@) =~= help_lines(entries@, height as int, *theme));
    lines
}

} // verus!
