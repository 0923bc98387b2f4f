//! The lines that the panes show.
use vstd::prelude::*;
use crate::app::App;
use crate::commands::selected_part;
use crate::encoding::Encoding;
use crate::file::{DiskReply, DiskRequest};
use crate::fit::{cols_for_text, list_cols, number_width, text_cols, width_of_numbers};
use crate::modes::{lesser, Mode, VisualState};
use crate::panes::{read_text, text_or_empty, MatchesContent, SearchPrefs};
use crate::search::{compile_regex, regex_compiled, source_of};
use crate::styled::{
    bold_style, colored, dim_style, plain_lines, plain_spans, plain_style, push_line,
    push_row_lines, push_span, push_str, row_lines, span_of, spans_text, Line, RowLook, Span,
    SpanView, Style,
};
use crate::text::{
    blank_text, blanks, chars_between, chars_of, decimal, law_wrapping_loses_nothing, number_text, pad_left,
    padded, segments, texts, wrap_row,
};
use crate::theme::{Color, Theme};
use crate::view::{FileView, ViewRow};

verus! {

/// The number of the row at place `i` of a window, counted from 1.
pub open spec fn row_number<D: Fn(DiskRequest) -> DiskReply>(v: FileView<D>, i: int) -> u64 {
    lesser(v.top() + 1 + i, u64::MAX as int) as u64
}

/// The width of the row numbers of a window.
pub open spec fn file_width<D: Fn(DiskRequest) -> DiskReply>(v: FileView<D>) -> int {
    number_width(row_number(v, v.shown().len() as int) as int)
}

/// Where characters of a row are selected and where its cursor is.
pub struct Marks {
    /// The first character that is selected, and the first behind them.
    pub selected: (usize, usize),
    /// The character of the cursor, if it stands in the row.
    pub cursor: Option<usize>,
}

pub open spec fn cursor_style(theme: Theme) -> Style {
    colored(theme.cursor_line_text, Some(theme.cursor_line_bg), false)
}

/// The style of the character at place `i` of a row.
pub open spec fn char_style(marks: Marks, i: int, theme: Theme) -> Style {
    if marks.cursor is Some && marks.cursor->0 == i {
        cursor_style(theme)
    } else if marks.selected.0 <= i < marks.selected.1 {
        colored(Color::White, Some(Color::DarkGray), false)
    } else {
        plain_style(theme.text)
    }
}

/// The characters of a piece of a row that begins at its character `from`, each
/// in its style.
pub open spec fn char_spans(
    piece: Seq<char>,
    from: int,
    marks: Marks,
    theme: Theme,
) -> Seq<SpanView> {
    Seq::new(piece.len(), |i: int| span_of(seq![piece[i]], char_style(marks, from + i, theme)))
}

/// The characters of the first `k` pieces.
pub open spec fn chars_before(pieces: Seq<Seq<char>>, k: int) -> int
    decreases k,
{
    if k <= 0 {
        0
    } else {
        chars_before(pieces, k - 1) + pieces[k - 1].len()
    }
}

/// What stands before line `k` of a row while text is selected.
pub open spec fn selection_head(
    number: Seq<char>,
    width: nat,
    k: int,
    cursor: bool,
    theme: Theme,
) -> Seq<SpanView> {
    if k == 0 {
        seq![
            span_of(
                if cursor {
                    "▶"@
                } else {
                    " "@
                },
                bold_style(theme.cursor_marker),
            ),
            span_of(padded(number, width), dim_style(theme.line_number)),
            span_of("│"@, dim_style(theme.line_number)),
        ]
    } else {
        seq![
            span_of("↪"@, dim_style(theme.line_number)),
            span_of(blanks(width), plain_style(theme.line_number)),
            span_of("│"@, dim_style(theme.line_number)),
        ]
    }
}

/// What stands behind the last line of a row: the cursor, where it is behind
/// the row's end.
pub open spec fn selection_tail(
    text: Seq<char>,
    last: bool,
    marks: Marks,
    theme: Theme,
) -> Seq<SpanView> {
    if last && marks.cursor is Some && marks.cursor->0 >= text.len() {
        seq![span_of(" "@, cursor_style(theme))]
    } else {
        Seq::empty()
    }
}

/// The pieces of a row while text is selected, one for each line: all of it,
/// wrapped or not.
pub open spec fn selection_pieces(text: Seq<char>, wrap: bool, budget: nat) -> Seq<Seq<char>> {
    if wrap {
        segments(text, budget)
    } else {
        seq![text]
    }
}

/// The lines of a row while text is selected.
pub open spec fn selection_lines(
    number: Seq<char>,
    text: Seq<char>,
    width: nat,
    wrap: bool,
    budget: nat,
    marks: Marks,
    theme: Theme,
) -> Seq<Seq<SpanView>> {
    let pieces = selection_pieces(text, wrap, budget);
    Seq::new(
        pieces.len(),
        |k: int|
            selection_head(number, width, k, marks.cursor is Some, theme) + char_spans(
                pieces[k],
                chars_before(pieces, k),
                marks,
                theme,
            ) + selection_tail(text, k == pieces.len() - 1, marks, theme),
    )
}

/// The texts of the lines of a row while text is selected, without what stands
/// before and behind them.
pub open spec fn selection_body(pieces: Seq<Seq<char>>, marks: Marks, theme: Theme) -> Seq<char>
    decreases pieces.len(),
{
    if pieces.len() == 0 {
        Seq::empty()
    } else {
        let front = pieces.drop_last();
        selection_body(front, marks, theme) + spans_text(
            char_spans(pieces.last(), chars_before(front, front.len() as int), marks, theme),
        )
    }
}

/// The characters of a row in their styles are the row's characters.
pub proof fn law_selection_keeps_the_text(
    text: Seq<char>,
    wrap: bool,
    budget: nat,
    marks: Marks,
    theme: Theme,
)
    ensures
        selection_body(selection_pieces(text, wrap, budget), marks, theme) == text,
{
    let pieces = selection_pieces(text, wrap, budget);
    lemma_selection_body(pieces, marks, theme);
    if wrap {
        law_wrapping_loses_nothing(text, budget);
        if crate::text::wrapped(text, budget).len() == 0 {
            assert(pieces.drop_last() =~= Seq::empty());
            assert(pieces.flatten() =~= text) by {
                pieces.lemma_flatten_and_flatten_alt_are_equivalent();
                assert(pieces.drop_last().flatten_alt() =~= Seq::empty());
                assert(pieces.flatten_alt() =~= text);
            }
        }
    } else {
        pieces.lemma_flatten_and_flatten_alt_are_equivalent();
        assert(pieces.drop_last() =~= Seq::empty());
        assert(pieces.drop_last().flatten_alt() =~= Seq::empty());
        assert(pieces.flatten_alt() =~= text);
    }
}

proof fn lemma_selection_body(pieces: Seq<Seq<char>>, marks: Marks, theme: Theme)
    ensures
        selection_body(pieces, marks, theme) == pieces.flatten(),
    decreases pieces.len(),
{
    pieces.lemma_flatten_and_flatten_alt_are_equivalent();
    if pieces.len() > 0 {
        let front = pieces.drop_last();
        lemma_selection_body(front, marks, theme);
        front.lemma_flatten_and_flatten_alt_are_equivalent();
        lemma_char_spans(
            pieces.last(),
            chars_before(front, front.len() as int),
            marks,
            theme,
            pieces.last().len(),
        );
        let spans = char_spans(pieces.last(), chars_before(front, front.len() as int), marks, theme);
        assert(spans.take(pieces.last().len() as int) =~= spans);
        assert(pieces.last().take(pieces.last().len() as int) =~= pieces.last());
    }
}

proof fn lemma_char_spans(piece: Seq<char>, from: int, marks: Marks, theme: Theme, n: nat)
    requires
        n <= piece.len(),
    ensures
        spans_text(char_spans(piece, from, marks, theme).take(n as int)) == piece.take(n as int),
    decreases n,
{
    let spans = char_spans(piece, from, marks, theme);
    if n > 0 {
        lemma_char_spans(piece, from, marks, theme, (n - 1) as nat);
        assert(spans.take(n as int).drop_last() =~= spans.take(n - 1));
        assert(piece.take(n as int) =~= piece.take(n - 1) + seq![piece[n - 1]]);
    } else {
        assert(piece.take(0) =~= Seq::empty());
    }
}

fn push_chars(
    spans: &mut Vec<Span>,
    piece: &str,
    from: usize,
    marks: &Marks,
    theme: &Theme,
) -> (r: usize)
    requires
        from + piece@.len() <= usize::MAX,
    ensures
        plain_spans(final(spans)@) == plain_spans(old(spans)@) + char_spans(
            piece@,
            from as int,
            *marks,
            *theme,
        ),
        r == from + piece@.len(),
{
    let chars = chars_of(piece);
    let n: usize = chars.len();
    let ghost before = plain_spans(spans@);
    let ghost all = char_spans(piece@, from as int, *marks, *theme);
    let mut i: usize = 0;
    assert(before + all.take(0) =~= before);
    while i < n
        invariant
            i <= n,
            n == chars@.len(),
            chars@ == piece@,
            from + n <= usize::MAX,
            all == char_spans(piece@, from as int, *marks, *theme),
            plain_spans(spans@) == before + all.take(i as int),
        decreases n - i,
    {
        let at: usize = from + i;
        let here: bool = match marks.cursor {
            Some(c) => c == at,
            None => false,
        };
        let style = if here {
            Style {
                fg: Some(theme.cursor_line_text),
                bg: Some(theme.cursor_line_bg),
                bold: false,
                dim: false,
                reversed: false,
            }
        } else if marks.selected.0 <= at && at < marks.selected.1 {
            Style {
                fg: Some(Color::White),
                bg: Some(Color::DarkGray),
                bold: false,
                dim: false,
                reversed: false,
            }
        } else {
            Style::plain(theme.text)
        };
        let mut one = String::new();
        one.push(chars[i]);
        assert(one@ =~= seq![piece@[i as int]]);
        push_span(spans, one, style);
        i += 1;
        assert(plain_spans(spans@) =~= before + all.take(i as int));
    }
    assert(all.take(n as int) =~= all);
    from + n
}

proof fn lemma_chars_before(pieces: Seq<Seq<char>>, k: int)
    requires
        0 <= k <= pieces.len(),
    ensures
        0 <= chars_before(pieces, k) <= pieces.flatten().len(),
        k < pieces.len() ==> chars_before(pieces, k) + pieces[k].len() <= pieces.flatten().len(),
    decreases pieces.len(),
{
    pieces.lemma_flatten_and_flatten_alt_are_equivalent();
    if pieces.len() > 0 {
        let front = pieces.drop_last();
        front.lemma_flatten_and_flatten_alt_are_equivalent();
        if k < pieces.len() {
            lemma_chars_before(front, k);
            lemma_chars_before_front(pieces, k);
            if k == pieces.len() - 1 {
                assert(pieces.last() == pieces[k]);
            }
        } else {
            lemma_chars_before(front, k - 1);
            lemma_chars_before_front(pieces, k - 1);
        }
    }
}

proof fn lemma_chars_before_front(pieces: Seq<Seq<char>>, k: int)
    requires
        0 <= k < pieces.len(),
    ensures
        chars_before(pieces.drop_last(), k) == chars_before(pieces, k),
    decreases k,
{
    if k > 0 {
        lemma_chars_before_front(pieces, k - 1);
    }
}

/// Appends the lines of a row while text is selected.
pub fn push_selection_lines(
    out: &mut Vec<Line>,
    number: &str,
    text: &str,
    width: usize,
    wrap: bool,
    budget: usize,
    marks: &Marks,
    theme: &Theme,
)
    ensures
        plain_lines(final(out)@) == plain_lines(old(out)@) + selection_lines(
            number@,
            text@,
            width as nat,
            wrap,
            budget as nat,
            *marks,
            *theme,
        ),
{
    let pieces: Vec<String> = if wrap {
        wrap_row(text, budget)
    } else {
        let mut one: Vec<String> = Vec::new();
        one.push(text.to_owned());
        assert(texts(one@) =~= seq![text@]);
        one
    };
    let ghost parts = selection_pieces(text@, wrap, budget as nat);
    let len: usize = text.unicode_len();
    proof {
        assert(texts(pieces@) == parts);
        law_selection_keeps_the_text(text@, wrap, budget as nat, *marks, *theme);
        lemma_selection_body(parts, *marks, *theme);
        assert(parts.flatten() == text@);
    }
    let past: bool = match marks.cursor {
        Some(c) => c >= len,
        None => false,
    };
    let ghost all = selection_lines(
        number@,
        text@,
        width as nat,
        wrap,
        budget as nat,
        *marks,
        *theme,
    );
    let ghost before = plain_lines(out@);
    let n: usize = pieces.len();
    let mut from: usize = 0;
    let mut k: usize = 0;
    assert(before + all.take(0) =~= before);
    while k < n
        invariant
            k <= n,
            n == pieces@.len(),
            len == text@.len(),
            past == (marks.cursor is Some && marks.cursor->0 >= text@.len()),
            parts == selection_pieces(text@, wrap, budget as nat),
            texts(pieces@) == parts,
            parts.flatten() == text@,
            from == chars_before(parts, k as int),
            all == selection_lines(
                number@,
                text@,
                width as nat,
                wrap,
                budget as nat,
                *marks,
                *theme,
            ),
            all.len() == n,
            plain_lines(out@) == before + all.take(k as int),
        decreases n - k,
    {
        let mut spans: Vec<Span> = Vec::new();
        assert(plain_spans(spans@) =~= Seq::empty());
        if k == 0 {
            push_str(
                &mut spans,
                if marks.cursor.is_some() {
                    "▶"
                } else {
                    " "
                },
                Style::strong(theme.cursor_marker),
            );
            push_span(&mut spans, pad_left(number, width), Style::faint(theme.line_number));
        } else {
            push_str(&mut spans, "↪", Style::faint(theme.line_number));
            push_span(&mut spans, blank_text(width), Style::plain(theme.line_number));
        }
        push_str(&mut spans, "│", Style::faint(theme.line_number));
        let ghost head = selection_head(
            number@,
            width as nat,
            k as int,
            marks.cursor is Some,
            *theme,
        );
        assert(plain_spans(spans@) =~= head);
        proof {
            lemma_chars_before(parts, k as int);
            assert(texts(pieces@)[k as int] == pieces@[k as int]@);
        }
        let ghost start = from;
        from = push_chars(&mut spans, pieces[k].as_str(), from, marks, theme);
        let ghost body = head + char_spans(parts[k as int], start as int, *marks, *theme);
        assert(plain_spans(spans@) == body);
        if past && k + 1 == n {
            push_str(
                &mut spans,
                " ",
                Style {
                    fg: Some(theme.cursor_line_text),
                    bg: Some(theme.cursor_line_bg),
                    bold: false,
                    dim: false,
                    reversed: false,
                },
            );
        }
        assert(plain_spans(spans@) =~= body + selection_tail(
            text@,
            k == n - 1,
            *marks,
            *theme,
        ));
        assert(plain_spans(spans@) == all[k as int]);
        push_line(out, spans);
        k += 1;
        assert(plain_lines(out@) =~= before + all.take(k as int));
    }
    assert(all.take(n as int) =~= all);
}

/// Where characters of a row of the file are selected, and its cursor.
pub open spec fn row_marks(v: VisualState, cursor: u64, row: u64, len: nat) -> Marks {
    Marks {
        selected: match v.selected(cursor, row, len) {
            Some(s) => (s.0 as usize, s.1 as usize),
            None => (0, 0),
        },
        cursor: if row == cursor {
            Some(v.cur_col)
        } else {
            None
        },
    }
}

/// What is copied of a row is what is highlighted in it: its characters on the
/// selection's ground, and the cursor's where it is selected too.
pub proof fn law_the_highlighted_is_copied(
    v: VisualState,
    cursor: u64,
    row: u64,
    text: Seq<char>,
    theme: Theme,
)
    requires
        text.len() <= usize::MAX,
    ensures
        ({
            let marks = row_marks(v, cursor, row, text.len());
            &&& selected_part(v, cursor, row, text) == chars_between(
                text,
                marks.selected.0 as int,
                marks.selected.1 as int,
            )
            &&& forall|i: int|
                0 <= i < text.len() && marks.cursor != Some(i as usize) ==> ((#[trigger] char_style(
                    marks,
                    i,
                    theme,
                )).bg is Some <==> marks.selected.0 <= i < marks.selected.1)
        }),
{
}

/// The lines of the row at place `i` of the file's window.
pub open spec fn file_row<D: Fn(DiskRequest) -> DiskReply>(
    a: App<D>,
    cols: int,
    i: int,
) -> Seq<Seq<SpanView>> {
    let fc = a.file();
    let number = row_number(fc.view, i);
    let cursor = (fc.view.cursor() + 1) as u64;
    let text = fc.view.shown()[i].text;
    let width = file_width(fc.view);
    let budget = text_cols(cols, width);
    match a.mode {
        Mode::Visual(v) => selection_lines(
            decimal(number as nat),
            text,
            width as nat,
            fc.wrap,
            budget as nat,
            row_marks(v, cursor, number, text.len()),
            a.theme,
        ),
        _ => row_lines(
            decimal(number as nat),
            text,
            fc.hl,
            RowLook {
                no_width: width as usize,
                cur: number == cursor,
                hscroll: fc.hscroll,
                wrap: fc.wrap,
                budget: budget as usize,
                sel_row: false,
                cursor_marker: number == cursor,
            },
            a.theme,
            a.theme.keyword,
        ),
    }
}

/// The lines of the first `n` rows of the file's window.
pub open spec fn file_rows<D: Fn(DiskRequest) -> DiskReply>(
    a: App<D>,
    cols: int,
    n: nat,
) -> Seq<Seq<SpanView>>
    decreases n,
{
    if n == 0 {
        Seq::empty()
    } else {
        file_rows(a, cols, (n - 1) as nat) + file_row(a, cols, n - 1)
    }
}

/// What is highlighted in a list: its search.
pub open spec fn list_highlight(mc: MatchesContent, opts: SearchPrefs) -> Option<regex::Regex> {
    match mc.search {
        None => None,
        Some(s) => match regex_compiled(source_of(s.query@, opts.case, opts.word)) {
            Ok(re) => Some(re),
            Err(_) => None,
        },
    }
}

/// The lines of line `i` of a list with this text.
pub open spec fn list_row(
    mc: MatchesContent,
    text: Seq<char>,
    cols: int,
    theme: Theme,
    opts: SearchPrefs,
    i: int,
) -> Seq<Seq<SpanView>> {
    row_lines(
        decimal(mc.rows@[i].line_no as nat),
        text,
        list_highlight(mc, opts),
        RowLook {
            no_width: number_width(mc.rows@.last().line_no as int) as usize,
            cur: i == mc.sel,
            hscroll: mc.hscroll,
            wrap: mc.wrap,
            budget: list_cols(mc.rows@, cols) as usize,
            sel_row: false,
            cursor_marker: i == mc.sel,
        },
        theme,
        theme.keyword,
    )
}

/// The lines of a list from its top up to line `end`, with the text of the file.
pub open spec fn list_rows(
    c: Seq<u8>,
    max: int,
    enc: Encoding,
    mc: MatchesContent,
    cols: int,
    theme: Theme,
    opts: SearchPrefs,
    end: int,
) -> Seq<Seq<SpanView>>
    decreases end,
{
    if end <= mc.top {
        Seq::empty()
    } else {
        list_rows(c, max, enc, mc, cols, theme, opts, end - 1) + list_row(
            mc,
            text_or_empty(c, mc.rows@[end - 1].line_no, max, enc),
            cols,
            theme,
            opts,
            end - 1,
        )
    }
}

/// What an empty list shows.
pub open spec fn empty_list() -> Seq<Seq<SpanView>> {
    seq![seq![span_of("(空)"@, plain_style(Color::DarkGray))]]
}

/// The lines that a list shows: as many of its lines as the pane is high, with
/// the text of the file.
pub open spec fn list_shown(
    c: Seq<u8>,
    max: int,
    enc: Encoding,
    mc: MatchesContent,
    cols: int,
    theme: Theme,
    opts: SearchPrefs,
) -> Seq<Seq<SpanView>> {
    if mc.rows@.len() == 0 {
        empty_list()
    } else {
        list_rows(
            c,
            max,
            enc,
            mc,
            cols,
            theme,
            opts,
            lesser(mc.top + mc.inner_h, mc.rows@.len() as int),
        )
    }
}

/// The lines that a list shows. The texts are read from the file.
pub fn build_matches_lines<D: Fn(DiskRequest) -> DiskReply>(
    view: &mut FileView<D>,
    mc: &MatchesContent,
    cols: usize,
    theme: &Theme,
    opts: SearchPrefs,
) -> (r: Vec<Line>)
    requires
        old(view).wf(),
        mc.wf(),
    ensures
        final(view).same_frame(*old(view)),
        final(view).same_place(*old(view)),
        mc.rows@.len() == 0 ==> plain_lines(r@) == empty_list(),
        forall|c: Seq<u8>| #[trigger]
            old(view).shows(c) ==> final(view).shows(c) && plain_lines(r@) == list_shown(
                c,
                old(view).row_limit() as int,
                old(view).enc(),
                *mc,
                cols as int,
                *theme,
                opts,
            ),
{
    let len: usize = mc.rows.len();
    let mut lines: Vec<Line> = Vec::new();
    if len == 0 {
        let mut spans: Vec<Span> = Vec::new();
        push_str(&mut spans, "(空)", Style::plain(Color::DarkGray));
        assert(plain_spans(spans@) =~= empty_list()[0]);
        push_line(&mut lines, spans);
        assert(plain_lines(lines@) =~= empty_list());
        return lines;
    }
    let no_width: usize = width_of_numbers(mc.rows[len - 1].line_no);
    let budget: usize = cols_for_text(cols, no_width);
    let hl: Option<regex::Regex> = match &mc.search {
        None => None,
        Some(s) => match compile_regex(s.query.as_str(), opts.case, opts.word) {
            Ok(re) => Some(re),
            Err(_) => None,
        },
    };
    let end: usize = if mc.inner_h < len - mc.top {
        mc.top + mc.inner_h
    } else {
        len
    };
    let ghost max = view.row_limit() as int;
    let ghost enc = view.enc();
    let mut i: usize = mc.top;
    proof {
        assert forall|c: Seq<u8>| #[trigger] view.shows(c) implies plain_lines(lines@) == list_rows(
            c,
            max,
            enc,
            *mc,
            cols as int,
            *theme,
            opts,
            i as int,
        ) by {
            assert(plain_lines(lines@) =~= Seq::empty());
        }
    }
    while i < end
        invariant
            mc.wf(),
            mc.top <= i <= end <= len,
            len == mc.rows@.len(),
            len > 0,
            view.wf(),
            view.same_frame(*old(view)),
            view.same_place(*old(view)),
            max == old(view).row_limit(),
            enc == old(view).enc(),
            hl == list_highlight(*mc, opts),
            no_width == number_width(mc.rows@.last().line_no as int),
            budget == list_cols(mc.rows@, cols as int),
            forall|c: Seq<u8>| #[trigger]
                old(view).shows(c) ==> view.shows(c) && plain_lines(lines@) == list_rows(
                    c,
                    max,
                    enc,
                    *mc,
                    cols as int,
                    *theme,
                    opts,
                    i as int,
                ),
        decreases end - i,
    {
        let ghost mid = *view;
        let line: u64 = mc.rows[i].line_no;
        let text = read_text(view, line);
        let here: bool = i == mc.sel;
        let look = RowLook {
            no_width,
            cur: here,
            hscroll: mc.hscroll,
            wrap: mc.wrap,
            budget,
            sel_row: false,
            cursor_marker: here,
        };
        push_row_lines(
            &mut lines,
            number_text(line).as_str(),
            text.as_str(),
            hl.as_ref(),
            &look,
            theme,
            theme.keyword,
        );
        proof {
            assert forall|c: Seq<u8>| #[trigger] old(view).shows(c) implies view.shows(c)
                && plain_lines(lines@) == list_rows(
                c,
                max,
                enc,
                *mc,
                cols as int,
                *theme,
                opts,
                i + 1,
            ) by {
                assert(mid.shows(c));
                assert(view.in_step(c));
            }
        }
        i += 1;
    }
    lines
}

impl<D: Fn(DiskRequest) -> DiskReply> App<D> {
    /// The lines of the file's pane: its rows with their numbers, what is
    /// highlighted and, while text is selected, the selection.
    pub fn file_lines(&self, cols: usize) -> (r: Vec<Line>)
        requires
            self.wf(),
        ensures
            plain_lines(r@) == file_rows(*self, cols as int, self.file().view.shown().len()),
    {
        let fc = self.file_ref();
        let top: u64 = fc.view.top_line1();
        let cursor: u64 = fc.view.cursor_line1();
        let rows = fc.view.rows();
        let n: usize = rows.len();
        let ghost shown = rows@.map_values(|x: ViewRow| x@);
        let last: u64 = if n as u64 > u64::MAX - top {
            u64::MAX
        } else {
            top + n as u64
        };
        let width: usize = width_of_numbers(last);
        let budget: usize = cols_for_text(cols, width);
        let mut lines: Vec<Line> = Vec::new();
        assert(plain_lines(lines@) =~= file_rows(*self, cols as int, 0));
        let mut i: usize = 0;
        while i < n
            invariant
                self.wf(),
                *fc == self.file(),
                i <= n,
                n == rows@.len(),
                shown == rows@.map_values(|x: ViewRow| x@),
                shown == fc.view.shown(),
                top == fc.view.top() + 1,
                cursor == fc.view.cursor() + 1,
                width == file_width(fc.view),
                budget == text_cols(cols as int, width as int),
                plain_lines(lines@) == file_rows(*self, cols as int, i as nat),
            decreases n - i,
        {
            let number: u64 = if i as u64 > u64::MAX - top {
                u64::MAX
            } else {
                top + i as u64
            };
            let here: bool = number == cursor;
            let text = rows[i].text.as_str();
            assert(shown[i as int].text == text@);
            let no = number_text(number);
            match &self.mode {
                Mode::Visual(v) => {
                    let len: usize = text.unicode_len();
                    let selected: (usize, usize) = match v.selected_cols(cursor, number, len) {
                        Some(s) => s,
                        None => (0, 0),
                    };
                    let marks = Marks {
                        selected,
                        cursor: if here {
                            Some(v.cur_col)
                        } else {
                            None
                        },
                    };
                    push_selection_lines(
                        &mut lines,
                        no.as_str(),
                        text,
                        width,
                        fc.wrap,
                        budget,
                        &marks,
                        &self.theme,
                    );
                },
                _ => {
                    let look = RowLook {
                        no_width: width,
                        cur: here,
                        hscroll: fc.hscroll,
                        wrap: fc.wrap,
                        budget,
                        sel_row: false,
                        cursor_marker: here,
                    };
                    push_row_lines(
                        &mut lines,
                        no.as_str(),
                        text,
                        fc.hl.as_ref(),
                        &look,
                        &self.theme,
                        self.theme.keyword,
                    );
                },
            }
            i += 1;
        }
        lines
    }
}

} // verus!
