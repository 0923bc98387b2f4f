//! What is seen: the rows with their numbers, what is marked in them, and what the
//! status line says.
use vstd::prelude::*;
use crate::app::App;
use crate::arrange::{lemma_place, overwritten, pane_added, seen_panes, title_of};
use crate::body::{
    char_style, file_row, list_highlight, list_row, list_rows, list_shown, row_marks, row_number,
};
use crate::commands::copy_told;
use crate::encoding::Encoding;
use crate::file::{DiskReply, DiskRequest};
use crate::fit::{list_cols, number_width, text_cols};
use crate::jumps::match_told;
use crate::keymap::{label_of, Action};
use crate::keys::word_told;
use crate::layout::{rect_of, Dir, RectLike};
use crate::modes::{CmdState, HistoryState, Mode, VisualState};
use crate::moves::{export_told, wrap_told};
use crate::panels::{
    cmd_spans, dots, file_told, help_lines, history_lines, keyword_cols, list_told, match_here, percent,
    prefs_told, rows_told, search_told, status_text, text_with_cursor, typed_cols, typed_scroll,
};
use crate::panes::{
    law_steps_go_to_the_nearest, list_searched, place_in, rising, text_or_empty, ActiveSearch,
    FileContent, MatchesContent, SearchPrefs,
};
use crate::screen::{
    bottom_height, file_prepared, in_range, in_three, list_prepared, pane_drawn, WidgetView,
    STATUS_ROWS,
};
use crate::search::{regex_compiled, regex_spans, source_of, Case, Match};
use crate::styled::{
    chars_in_bytes, highlighted, in_order, law_marking_keeps_the_text, lemma_chars_in_bytes,
    lemma_marked_upto, lemma_spans_text_push, marked, marked_upto, row_head, row_line, row_lines,
    row_pieces, span_of, spans_text, utf8_len, RowLook, SpanView, Style,
};
use crate::text::{
    all_digits, blanks, clipped, cols, decimal, decimal_value, fitting, law_fitting_fits,
    law_number_reads_back, law_wrapping_loses_nothing, padded, segments, str_cols, sum_cols,
    window, wrapped,
};
use crate::theme::{Color, Theme};
use crate::view::FileView;
use vstd::utf8::encode_utf8;

verus! {

/// The style of character `i` of the texts of spans put together.
pub open spec fn style_at(spans: Seq<SpanView>, i: int) -> Style
    decreases spans.len(),
{
    if spans.len() <= 1 || i >= spans_text(spans.drop_last()).len() {
        spans.last().style
    } else {
        style_at(spans.drop_last(), i)
    }
}

/// Whether a character lies in one of the places, which are given in bytes.
pub open spec fn in_places(text: Seq<char>, found: Seq<(usize, usize)>, i: int) -> bool {
    exists|k: int|
        0 <= k < found.len() && chars_in_bytes(text, (#[trigger] found[k]).0 as int) <= i
            < chars_in_bytes(text, found[k].1 as int)
}

proof fn lemma_style_push(spans: Seq<SpanView>, s: SpanView, i: int)
    requires
        0 <= i < spans_text(spans).len() + s.text.len(),
    ensures
        style_at(spans.push(s), i) == if i < spans_text(spans).len() {
            style_at(spans, i)
        } else {
            s.style
        },
{
    assert(spans.push(s).drop_last() =~= spans);
    if spans.len() == 0 {
        assert(spans_text(spans).len() == 0);
    }
}

proof fn lemma_marked_styles(
    text: Seq<char>,
    found: Seq<(usize, usize)>,
    base: Style,
    hit: Style,
    n: nat,
    i: int,
)
    requires
        in_order(found),
        n <= found.len(),
        0 <= i < marked_upto(text, found, base, hit, n).1,
    ensures
        style_at(marked_upto(text, found, base, hit, n).0, i) == if in_places(
            text,
            found.take(n as int),
            i,
        ) {
            hit
        } else {
            base
        },
    decreases n,
{
    lemma_marked_upto(text, found, base, hit, n);
    if n > 0 {
        let last = n - 1;
        lemma_marked_upto(text, found, base, hit, last as nat);
        let (front, pos) = marked_upto(text, found, base, hit, last as nat);
        let s = chars_in_bytes(text, found[last].0 as int);
        let e = chars_in_bytes(text, found[last].1 as int);
        lemma_chars_in_bytes(text, found[last].0 as int, found[last].1 as int);
        if last > 0 {
            assert(found[last - 1].1 <= found[last].0);
            lemma_chars_in_bytes(text, found[last - 1].1 as int, found[last].0 as int);
        }
        assert(pos <= s);
        let before = span_of(text.subrange(pos, s), base);
        let gap = if s > pos {
            front.push(before)
        } else {
            front
        };
        if s > pos {
            lemma_spans_text_push(front, before);
        }
        assert(spans_text(gap) == text.take(s)) by {
            assert(text.take(pos) + text.subrange(pos, s) =~= text.take(s));
        }
        lemma_style_push(gap, span_of(text.subrange(s, e), hit), i);
        let all = found.take(n as int);
        let fewer = found.take(last as int);
        assert(all[last] == found[last]);
        if i < pos {
            lemma_marked_styles(text, found, base, hit, last as nat, i);
            if s > pos {
                lemma_style_push(front, before, i);
            }
        } else if i < s {
            lemma_style_push(front, before, i);
        }
        // The earlier places end at `pos` or before.
        assert forall|k: int| 0 <= k < last implies chars_in_bytes(
            text,
            (#[trigger] found[k]).1 as int,
        ) <= pos by {
            if k < last - 1 {
                assert(found[k].1 <= found[last - 1].0);
                assert(found[last - 1].0 <= found[last - 1].1);
            }
            lemma_chars_in_bytes(text, found[k].1 as int, found[last - 1].1 as int);
        }
        if in_places(text, fewer, i) {
            let k = choose|k: int|
                0 <= k < fewer.len() && chars_in_bytes(text, (#[trigger] fewer[k]).0 as int) <= i
                    < chars_in_bytes(text, fewer[k].1 as int);
            assert(all[k] == fewer[k]);
            assert(found[k] == fewer[k]);
            assert(in_places(text, all, i));
        }
        if in_places(text, all, i) {
            let k = choose|k: int|
                0 <= k < all.len() && chars_in_bytes(text, (#[trigger] all[k]).0 as int) <= i
                    < chars_in_bytes(text, all[k].1 as int);
            if k < last {
                assert(fewer[k] == all[k]);
                assert(found[k] == all[k]);
            }
        }
        if s <= i < e {
            assert(in_places(text, all, i));
        }
    }
}

/// What matches is marked, and nothing else: a character has the style of a match
/// exactly where it lies in one of the matches.
pub proof fn law_just_the_matches_are_marked(
    text: Seq<char>,
    found: Seq<(usize, usize)>,
    base: Style,
    hit: Style,
    i: int,
)
    requires
        in_order(found),
        0 <= i < text.len(),
    ensures
        style_at(marked(text, found, base, hit), i) == if in_places(text, found, i) {
            hit
        } else {
            base
        },
{
    let n = found.len();
    let (front, pos) = marked_upto(text, found, base, hit, n);
    lemma_marked_upto(text, found, base, hit, n);
    assert(found.take(n as int) =~= found);
    if i < pos {
        lemma_marked_styles(text, found, base, hit, n, i);
    } else {
        assert forall|k: int| 0 <= k < n implies chars_in_bytes(
            text,
            (#[trigger] found[k]).1 as int,
        ) <= pos by {
            if k < n - 1 {
                assert(found[k].1 <= found[n - 1].0);
                assert(found[n - 1].0 <= found[n - 1].1);
            }
            lemma_chars_in_bytes(text, found[k].1 as int, found[n - 1].1 as int);
        }
    }
    if pos < text.len() {
        lemma_style_push(front, span_of(text.subrange(pos, text.len() as int), base), i);
    }
}

proof fn lemma_utf8_len(c: char)
    ensures
        vstd::utf8::encode_scalar(c as u32).len() == utf8_len(c),
{
}

/// Places in bytes are those of the text in UTF-8: before the bytes of a character
/// stand the characters before it.
pub proof fn law_bytes_count_the_characters(s: Seq<char>, i: int)
    requires
        0 <= i <= s.len(),
    ensures
        chars_in_bytes(s, encode_utf8(s.take(i)).len() as int) == i,
    decreases i,
{
    let head = s.take(i);
    if i == 0 {
        assert(encode_utf8(head).len() == 0);
        if s.len() > 0 {
            assert(utf8_len(s[0]) >= 1);
        }
    } else {
        assert(head.drop_first() =~= s.skip(1).take(i - 1));
        law_bytes_count_the_characters(s.skip(1), i - 1);
        let w = vstd::utf8::encode_scalar(s[0] as u32).len() as int;
        assert(head[0] == s[0]);
        lemma_utf8_len(s[0]);
        assert(encode_utf8(head).len() == w + encode_utf8(head.drop_first()).len());
    }
}

/// In a row what the search matches is shown in the colour for keywords and bold;
/// the row of the cursor has a ground of its own, the others have none.
pub proof fn law_keywords_stand_out(
    text: Seq<char>,
    re: regex::Regex,
    cur: bool,
    theme: Theme,
    kw: Color,
    i: int,
)
    requires
        in_order(regex_spans(re, text)),
        0 <= i < text.len(),
    ensures
        ({
            let style = style_at(highlighted(text, Some(re), cur, false, theme, kw), i);
            let inside = in_places(text, regex_spans(re, text), i);
            &&& style.bold == inside
            &&& inside ==> style.fg == Some(kw)
            &&& !inside ==> style.fg == Some(
                if cur {
                    theme.cursor_line_text
                } else {
                    theme.text
                },
            )
            &&& style.bg == if cur {
                Some(theme.cursor_line_bg)
            } else {
                None
            }
        }),
        spans_text(highlighted(text, Some(re), cur, false, theme, kw)) == text,
{
    let base = crate::styled::row_style(cur, false, theme);
    let hit = crate::styled::hit_style(cur, false, theme, kw);
    law_just_the_matches_are_marked(text, regex_spans(re, text), base, hit, i);
    law_marking_keeps_the_text(text, regex_spans(re, text), base, hit);
}

/// Whether a text is a number of this width: digits that read back as it, with
/// blanks before them.
pub open spec fn shows_number(s: Seq<char>, number: nat, width: nat) -> bool {
    exists|digits: Seq<char>|
        {
            &&& #[trigger] all_digits(digits)
            &&& digits.len() > 0
            &&& decimal_value(digits) == number
            &&& s.len() >= width
            &&& digits.len() <= s.len()
            &&& s.skip(s.len() - digits.len()) == digits
            &&& forall|i: int| 0 <= i < s.len() - digits.len() ==> #[trigger] s[i] == ' '
            &&& digits.len() >= width ==> s == digits
        }
}

proof fn lemma_padded_number(number: nat, width: nat)
    ensures
        shows_number(padded(decimal(number), width), number, width),
{
    law_number_reads_back(number);
    let digits = decimal(number);
    let s = padded(digits, width);
    assert(s.skip(s.len() - digits.len()) =~= digits);
    assert(all_digits(digits));
}

/// The text of a line on the screen of a row: the cursor's mark or a blank, the
/// number of the row, a bar, and the text.
pub open spec fn shows_row(
    line: Seq<char>,
    here: bool,
    number: nat,
    width: nat,
    piece: Seq<char>,
) -> bool {
    exists|no: Seq<char>|
        {
            &&& #[trigger] shows_number(no, number, width)
            &&& line == seq![
                if here {
                    '▶'
                } else {
                    ' '
                },
            ] + no + seq!['│'] + piece
        }
}

proof fn lemma_row_line_text(
    number: nat,
    piece: Seq<char>,
    hl: Option<regex::Regex>,
    look: RowLook,
    theme: Theme,
    kw: Color,
)
    requires
        hl matches Some(re) ==> in_order(regex_spans(re, piece)),
    ensures
        shows_row(
            spans_text(row_line(decimal(number), piece, 0, hl, look, theme, kw)),
            look.cursor_marker,
            number,
            look.no_width as nat,
            piece,
        ),
{
    let width = look.no_width as nat;
    let head = row_head(decimal(number), width, look.cursor_marker, theme);
    let body = highlighted(piece, hl, look.cur, look.sel_row, theme, kw);
    reveal_strlit("▶");
    reveal_strlit(" ");
    reveal_strlit("│");
    lemma_padded_number(number, width);
    let no = padded(decimal(number), width);
    lemma_spans_text_add(head, body);
    if let Some(re) = hl {
        law_marking_keeps_the_text(
            piece,
            regex_spans(re, piece),
            crate::styled::row_style(look.cur, look.sel_row, theme),
            crate::styled::hit_style(look.cur, look.sel_row, theme, kw),
        );
    } else {
        assert(body.drop_last() =~= Seq::empty());
        assert(spans_text(body.drop_last()) =~= Seq::empty());
        assert(body.last().text == piece);
        assert(spans_text(body) =~= piece);
    }
    assert(spans_text(body) == piece);
    let mark = seq![
        if look.cursor_marker {
            '▶'
        } else {
            ' '
        },
    ];
    assert(head.drop_last().drop_last() =~= Seq::empty());
    assert(spans_text(head.drop_last().drop_last()) =~= Seq::empty());
    assert(spans_text(head.drop_last()) =~= head[0].text);
    assert(spans_text(head) =~= head[0].text + head[1].text);
    assert(spans_text(head) =~= mark + no + seq!['│']);
}

proof fn lemma_spans_text_add(a: Seq<SpanView>, b: Seq<SpanView>)
    ensures
        spans_text(a + b) == spans_text(a) + spans_text(b),
    decreases b.len(),
{
    if b.len() == 0 {
        assert(a + b =~= a);
        assert(spans_text(a) + spans_text(b) =~= spans_text(a));
    } else {
        lemma_spans_text_add(a, b.drop_last());
        assert((a + b).drop_last() =~= a + b.drop_last());
        assert(spans_text(a + b) =~= spans_text(a) + spans_text(b));
    }
}

/// Whether what is seen of a text is a part of it that goes into the columns:
/// behind `skip` columns, or as much as goes into them, and as long as can be.
pub open spec fn shows_part(piece: Seq<char>, text: Seq<char>, skip: nat, max: nat) -> bool {
    exists|from: int|
        {
            &&& 0 <= from <= text.len()
            &&& #[trigger] sum_cols(text.take(from)) <= skip
            &&& from < text.len() ==> sum_cols(text.take(from + 1)) > skip || sum_cols(
                text.take(from),
            ) == skip
            &&& piece.len() <= text.len() - from
            &&& piece == text.subrange(from, from + piece.len())
            &&& sum_cols(piece) <= max
            &&& from + piece.len() < text.len() ==> sum_cols(piece) == max || sum_cols(
                text.subrange(from, from + piece.len() + 1),
            ) > max
        }
}

/// A row that is scrolled to the side shows the part behind the columns that it is
/// scrolled by, as much as goes into the pane.
pub proof fn law_scrolled_rows_show_a_part(text: Seq<char>, skip: nat, max: nat)
    ensures
        shows_part(window(text, skip, max), text, skip, max),
        skip == 0 && sum_cols(text) < max ==> window(text, skip, max) == text,
{
    let from = fitting(text, skip) as int;
    let rest = text.skip(from);
    let n = fitting(rest, max) as int;
    law_fitting_fits(text, skip);
    law_fitting_fits(rest, max);
    let piece = window(text, skip, max);
    assert(piece =~= text.subrange(from, from + n));
    if n < rest.len() {
        assert(rest.take(n + 1) =~= text.subrange(from, from + n + 1));
    }
    assert(sum_cols(text.take(from)) <= skip);
    if skip == 0 {
        assert(from == 0);
        assert(rest =~= text);
        if n < text.len() {
            lemma_cols_of_more(text, n + 1);
        } else {
            assert(piece =~= text);
        }
    }
}

proof fn lemma_cols_of_more(s: Seq<char>, n: int)
    requires
        0 <= n <= s.len(),
    ensures
        sum_cols(s.take(n)) <= sum_cols(s),
        n > 0 ==> sum_cols(s.take(n - 1)) <= sum_cols(s.take(n)),
    decreases s.len(),
{
    if n > 0 {
        lemma_cols_of_more(s.skip(1), n - 1);
        assert(s.take(n).skip(1) =~= s.skip(1).take(n - 1));
        assert(s.take(n)[0] == s[0]);
        if n > 1 {
            assert(s.take(n - 1).skip(1) =~= s.skip(1).take(n - 2));
            assert(s.take(n - 1)[0] == s[0]);
        } else {
            assert(s.take(0).len() == 0);
        }
    } else {
        assert(s.take(0).len() == 0);
    }
}

/// A row of the file is shown with its number in the file: the mark stands at the
/// cursor's row alone, and behind the bar stands the text of the row, the part that
/// is scrolled to, or from its start and wrapped.
pub proof fn law_file_rows_are_shown_with_their_numbers<D: Fn(DiskRequest) -> DiskReply>(
    a: App<D>,
    cols: int,
    i: int,
)
    requires
        a.wf(),
        !(a.mode is Visual),
        0 <= i < a.file().view.shown().len(),
        a.file().view.top() + a.file().view.shown().len() < u64::MAX,
        0 <= cols <= 65535,
        forall|piece: Seq<char>|
            a.file().hl is Some ==> in_order(#[trigger] regex_spans(a.file().hl->0, piece)),
    ensures
        ({
            let fc = a.file();
            let lines = file_row(a, cols, i);
            let number = (fc.view.top() + i + 1) as nat;
            let text = fc.view.shown()[i].text;
            let here = fc.view.top() + i == fc.view.cursor();
            let width = crate::body::file_width(fc.view) as nat;
            let room = text_cols(cols, width as int) as nat;
            &&& lines.len() >= 1
            &&& !fc.wrap ==> lines.len() == 1 && exists|piece: Seq<char>|
                {
                    &&& #[trigger] shows_part(piece, text, fc.hscroll as nat, room)
                    &&& shows_row(spans_text(lines[0]), here, number, width, piece)
                    &&& lines[0].skip(2) == highlighted(
                        piece,
                        fc.hl,
                        here,
                        false,
                        a.theme,
                        a.theme.keyword,
                    )
                }
            &&& fc.wrap ==> exists|pieces: Seq<Seq<char>>|
                {
                    &&& #[trigger] pieces.flatten() == text
                    &&& pieces.len() == lines.len()
                    &&& shows_row(spans_text(lines[0]), here, number, width, pieces[0])
                    &&& forall|k: int|
                        1 <= k < lines.len() ==> goes_on(
                            spans_text(#[trigger] lines[k]),
                            width,
                            pieces[k],
                        )
                }
        }),
{
    let fc = a.file();
    let number = row_number(fc.view, i);
    let text = fc.view.shown()[i].text;
    let width = crate::body::file_width(fc.view);
    crate::fit::lemma_number_width(row_number(fc.view, fc.view.shown().len() as int) as nat);
    let room = text_cols(cols, width);
    let look = RowLook {
        no_width: width as usize,
        cur: number == (fc.view.cursor() + 1) as u64,
        hscroll: fc.hscroll,
        wrap: fc.wrap,
        budget: room as usize,
        sel_row: false,
        cursor_marker: number == (fc.view.cursor() + 1) as u64,
    };
    let pieces = row_pieces(text, look);
    if fc.wrap {
        lemma_segments(text, room as nat);
    } else {
        law_scrolled_rows_show_a_part(text, fc.hscroll as nat, room as nat);
        assert(shows_part(pieces[0], text, fc.hscroll as nat, room as nat));
    }
    lemma_row_line_text(number as nat, pieces[0], fc.hl, look, a.theme, a.theme.keyword);
    let lines = file_row(a, cols, i);
    assert(number == fc.view.top() + i + 1);
    assert(lines == row_lines(
        decimal(number as nat),
        text,
        fc.hl,
        look,
        a.theme,
        a.theme.keyword,
    ));
    assert(lines.len() == pieces.len());
    assert(pieces.len() >= 1);
    assert(lines[0] == row_line(
        decimal(number as nat),
        pieces[0],
        0,
        fc.hl,
        look,
        a.theme,
        a.theme.keyword,
    ));
    assert(shows_row(
        spans_text(lines[0]),
        fc.view.top() + i == fc.view.cursor(),
        number as nat,
        width as nat,
        pieces[0],
    ));
    assert(lines[0].skip(2) =~= highlighted(
        pieces[0],
        fc.hl,
        look.cur,
        false,
        a.theme,
        a.theme.keyword,
    ));
    assert forall|k: int| 1 <= k < lines.len() implies goes_on(
        spans_text(#[trigger] lines[k]),
        width as nat,
        pieces[k],
    ) by {
        lemma_further_line_text(pieces[k], k, fc.hl, look, a.theme, a.theme.keyword, number as nat);
        assert(lines[k] == row_line(
            decimal(number as nat),
            pieces[k],
            k,
            fc.hl,
            look,
            a.theme,
            a.theme.keyword,
        ));
    }
}

/// The text of a further line of a row that is wrapped: an arrow, blanks where the
/// number stood, the bar, and the text.
pub open spec fn goes_on(line: Seq<char>, width: nat, piece: Seq<char>) -> bool {
    line == seq!['↪'] + Seq::new(width, |i: int| ' ') + seq!['│'] + piece
}

proof fn lemma_further_line_text(
    piece: Seq<char>,
    k: int,
    hl: Option<regex::Regex>,
    look: RowLook,
    theme: Theme,
    kw: Color,
    number: nat,
)
    requires
        k >= 1,
        hl matches Some(re) ==> in_order(regex_spans(re, piece)),
    ensures
        goes_on(
            spans_text(row_line(decimal(number), piece, k, hl, look, theme, kw)),
            look.no_width as nat,
            piece,
        ),
{
    let width = look.no_width as nat;
    let head = crate::styled::row_tail_head(width, theme);
    let body = highlighted(piece, hl, look.cur, look.sel_row, theme, kw);
    reveal_strlit("↪");
    reveal_strlit("│");
    lemma_spans_text_add(head, body);
    if let Some(re) = hl {
        law_marking_keeps_the_text(
            piece,
            regex_spans(re, piece),
            crate::styled::row_style(look.cur, look.sel_row, theme),
            crate::styled::hit_style(look.cur, look.sel_row, theme, kw),
        );
    } else {
        assert(body.drop_last() =~= Seq::empty());
        assert(spans_text(body.drop_last()) =~= Seq::empty());
        assert(body.last().text == piece);
        assert(spans_text(body) =~= piece);
    }
    assert(head.drop_last().drop_last().drop_last() =~= Seq::empty());
    assert(spans_text(head.drop_last().drop_last().drop_last()) =~= Seq::empty());
    assert(spans_text(head.drop_last().drop_last()) =~= head[0].text);
    assert(spans_text(head.drop_last()) =~= head[0].text + head[1].text);
    assert(spans_text(head) =~= head[0].text + head[1].text + head[2].text);
    assert(spans_text(head) =~= seq!['↪'] + Seq::new(width, |i: int| ' ') + seq!['│']);
}

proof fn lemma_segments(text: Seq<char>, max: nat)
    ensures
        segments(text, max).len() >= 1,
        segments(text, max).flatten() == text,
{
    law_wrapping_loses_nothing(text, max);
    let s = segments(text, max);
    if wrapped(text, max).len() == 0 {
        assert(s =~= seq![text]);
        s.lemma_flatten_one_element();
    }
}

/// A line of a list is shown with the number of its row in the file and the text of
/// that row; the mark stands at the selected line alone.
pub proof fn law_list_lines_are_shown_with_their_numbers(
    c: Seq<u8>,
    max: int,
    enc: Encoding,
    mc: MatchesContent,
    cols: int,
    theme: Theme,
    opts: SearchPrefs,
    end: int,
    i: int,
)
    requires
        mc.wf(),
        !mc.wrap,
        mc.search is None,
        mc.top <= i < end <= mc.rows@.len(),
        0 <= cols <= 65535,
    ensures
        ({
            let lines = list_rows(c, max, enc, mc, cols, theme, opts, end);
            let row = mc.rows@[i].line_no;
            let width = number_width(mc.rows@.last().line_no as int) as nat;
            &&& lines.len() == end - mc.top
            &&& exists|piece: Seq<char>|
                {
                    &&& #[trigger] shows_part(
                        piece,
                        text_or_empty(c, row, max, enc),
                        mc.hscroll as nat,
                        list_cols(mc.rows@, cols) as nat,
                    )
                    &&& shows_row(
                        spans_text(lines[i - mc.top]),
                        i == mc.sel,
                        row as nat,
                        width,
                        piece,
                    )
                }
        }),
    decreases end,
{
    let lines = list_rows(c, max, enc, mc, cols, theme, opts, end);
    let row = mc.rows@[end - 1].line_no;
    let text = text_or_empty(c, row, max, enc);
    let last = list_row(mc, text, cols, theme, opts, end - 1);
    if end - 1 > mc.top {
        law_list_lines_are_shown_with_their_numbers(
            c,
            max,
            enc,
            mc,
            cols,
            theme,
            opts,
            end - 1,
            if i < end - 1 {
                i
            } else {
                end - 2
            },
        );
    } else {
        assert(list_rows(c, max, enc, mc, cols, theme, opts, end - 1).len() == 0);
    }
    assert(last.len() == 1);
    if i == end - 1 {
        crate::fit::lemma_number_width(mc.rows@.last().line_no as nat);
        let room = list_cols(mc.rows@, cols);
        let look = RowLook {
            no_width: number_width(mc.rows@.last().line_no as int) as usize,
            cur: i == mc.sel,
            hscroll: mc.hscroll,
            wrap: mc.wrap,
            budget: room as usize,
            sel_row: false,
            cursor_marker: i == mc.sel,
        };
        let piece = window(text, mc.hscroll as nat, room as nat);
        law_scrolled_rows_show_a_part(text, mc.hscroll as nat, room as nat);
        lemma_row_line_text(row as nat, piece, None, look, theme, theme.keyword);
        assert(lines[i - mc.top] == last[0]);
        assert(shows_part(piece, text, mc.hscroll as nat, room as nat));
    } else {
        let fewer = list_rows(c, max, enc, mc, cols, theme, opts, end - 1);
        assert(lines[i - mc.top] == fewer[i - mc.top]);
    }
}

/// A text that is cut keeps its start and ends in dots, and one that goes into the
/// columns stays as it is.
pub proof fn law_cut_texts_keep_their_start(s: Seq<char>, max: nat)
    requires
        max > 3,
    ensures
        str_cols(s) <= max ==> clipped(s, max) == s,
        str_cols(s) > max ==> {
            let n = clipped(s, max).len() - 3;
            &&& 0 <= n <= s.len()
            &&& clipped(s, max).take(n) == s.take(n)
            &&& clipped(s, max).skip(n) == seq!['.', '.', '.']
            &&& sum_cols(s.take(n)) <= max - 3
            &&& n < s.len() ==> sum_cols(s.take(n + 1)) > max - 3 || sum_cols(s.take(n)) == max - 3
        },
{
    reveal_strlit("...");
    if str_cols(s) > max {
        law_fitting_fits(s, (max - 3) as nat);
        let n = fitting(s, (max - 3) as nat) as int;
        assert(clipped(s, max).take(n) =~= s.take(n));
        assert(clipped(s, max).skip(n) =~= seq!['.', '.', '.']);
    }
}

/// The status line says which rows are seen, from the first to the last one.
pub proof fn law_status_tells_the_rows(top: int, rows: int)
    requires
        0 <= top,
        1 <= rows,
        top + rows <= u64::MAX,
    ensures
        exists|a: Seq<char>, b: Seq<char>|
            {
                &&& #[trigger] all_digits(a) && #[trigger] all_digits(b)
                &&& decimal_value(a) == top
                &&& decimal_value(b) == top + rows - 1
                &&& rows_told(top, rows) == "行 "@ + a + "-"@ + b
            },
{
    law_number_reads_back(top as nat);
    law_number_reads_back((top + rows - 1) as nat);
    assert(all_digits(decimal(top as nat)) && all_digits(decimal((top + rows - 1) as nat)));
}

/// How far down the cursor is, in percent: the rows above it are that many
/// hundredths of the file, rounded down.
pub proof fn law_percent_counts_the_rows_above(row0: int, total: int)
    requires
        0 <= row0 < total,
    ensures
        0 <= percent(row0, total) < 100,
        percent(row0, total) * total <= row0 * 100,
        row0 * 100 < (percent(row0, total) + 1) * total,
{
    let p = row0 * 100 / total;
    assert(0 <= p < 100 && p * total <= row0 * 100 && row0 * 100 < (p + 1) * total)
        by (nonlinear_arith)
        requires
            p == row0 * 100 / total,
            0 <= row0 < total,
    ;
}

/// The status line shows the direction of a search, and of a search that goes on
/// that there may be more matches than were found.
pub proof fn law_status_tells_the_search(a: ActiveSearch, at: Option<usize>, limit: int)
    requires
        limit > 3,
        str_cols(a.pattern@) <= limit,
    ensures
        search_told(a, at, limit) == "  "@ + (if a.forward {
            "/"@
        } else {
            "?"@
        }) + a.pattern@ + "  匹配 "@ + (match at {
            Some(k) => decimal(k as nat) + "/"@,
            None => Seq::empty(),
        }) + (if a.done {
            Seq::empty()
        } else {
            "≥"@
        }) + decimal(a.matches@.len()),
{
    let count = if a.done {
        decimal(a.matches@.len())
    } else {
        "≥"@ + decimal(a.matches@.len())
    };
    let front = "  "@ + (if a.forward {
        "/"@
    } else {
        "?"@
    }) + a.pattern@ + "  匹配 "@;
    let place = match at {
        Some(k) => decimal(k as nat) + "/"@,
        None => Seq::empty(),
    };
    let sign = if a.done {
        Seq::empty()
    } else {
        "≥"@
    };
    assert(search_told(a, at, limit) =~= front + place + sign + decimal(a.matches@.len()));
}

/// The screen is divided from the top down: the panes, the status line in a row of
/// its own, and a row for what is typed or chosen while something is.
pub proof fn law_screen_is_divided(area: RectLike, mode: Mode)
    requires
        in_range(area),
        area.h >= 3,
    ensures
        ({
            let typed = if mode is Cmd || mode is Goto || mode is PickTarget {
                1int
            } else {
                0
            };
            let (panes, status, line) = in_three(area, STATUS_ROWS, bottom_height(mode));
            &&& panes.y == area.y
            &&& panes.h == area.h - 1 - typed
            &&& status.y == area.y + panes.h
            &&& status.h == 1
            &&& line.y == status.y + 1
            &&& line.h == typed
            &&& panes.x == area.x && status.x == area.x && line.x == area.x
            &&& panes.w == area.w && status.w == area.w && line.w == area.w
        }),
{
}

/// A pane is drawn where it stands, with its number, counted from 1, in its title;
/// the one with the focus has a border of its own, and one that fills the screen
/// says so.
pub proof fn law_panes_show_their_numbers<D: Fn(DiskRequest) -> DiskReply>(
    a: App<D>,
    view: FileView<D>,
    i: int,
    rect: RectLike,
    w: WidgetView,
)
    requires
        a.wf(),
        0 <= i < a.panes@.len(),
        pane_drawn(a, view, (i, rect), w),
    ensures
        w.area == rect,
        w.border matches Some(b) && {
            let zoomed = a.zoom == Some(a.panes@[i].id);
            let title = if zoomed {
                b.title.skip("[ZOOM] "@.len() as int)
            } else {
                b.title
            };
            &&& zoomed ==> "[ZOOM] "@.is_prefix_of(b.title)
            &&& b.style.bold == (i == a.focus)
            &&& b.style.fg == Some(
                if i == a.focus {
                    a.theme.focus_border
                } else {
                    a.theme.inactive_border
                },
            )
            &&& exists|digits: Seq<char>|
                {
                    &&& #[trigger] all_digits(digits)
                    &&& digits.len() > 0
                    &&& decimal_value(digits) == i + 1
                    &&& (seq!['['] + digits + seq![']']).is_prefix_of(title)
                }
        },
{
    let b = w.border->0;
    let digits = decimal((i + 1) as nat);
    law_number_reads_back((i + 1) as nat);
    reveal_strlit("[ZOOM] ");
    reveal_strlit("[");
    reveal_strlit("]");
    reveal_strlit("] match: ");
    reveal_strlit("] file: ");
    let t = title_of(a, i);
    let zoomed = a.zoom == Some(a.panes@[i].id);
    if zoomed {
        assert(b.title.take("[ZOOM] "@.len() as int) =~= "[ZOOM] "@);
        assert(b.title.skip("[ZOOM] "@.len() as int) =~= t);
    }
    let head = seq!['['] + digits + seq![']'];
    assert(t.take(head.len() as int) =~= head);
    assert(all_digits(digits));
}

/// The number of the match that the status line shows is the place of the cursor's
/// row among the rows with matches, counted from 1; none is shown elsewhere.
pub proof fn law_status_counts_the_match<D: Fn(DiskRequest) -> DiskReply>(
    fc: FileContent<D>,
    at: Option<usize>,
)
    requires
        fc.search is Some,
        rising(fc.search->0.lines()),
        match_here(fc, at),
    ensures
        match at {
            Some(k) => 1 <= k <= fc.search->0.matches@.len() && fc.search->0.matches@[k - 1].line_no
                == fc.view.cursor() + 1,
            None => forall|i: int|
                0 <= i < fc.search->0.matches@.len() ==> (#[trigger] fc.search->0.matches@[i]).line_no
                    != fc.view.cursor() + 1,
        },
{
    let s = fc.search->0;
    law_steps_go_to_the_nearest(s.lines(), fc.view.cursor() + 1);
    assert(s.matches.len() == s.matches@.len());
    if let Some(k) = place_in(s.lines(), fc.view.cursor() + 1) {
        assert(s.lines()[k] == s.matches@[k].line_no);
    }
    assert forall|i: int| at is None && 0 <= i < s.matches@.len() implies (
    #[trigger] s.matches@[i]).line_no != fc.view.cursor() + 1 by {
        assert(s.lines()[i] == s.matches@[i].line_no);
    }
}

/// In the list of keywords each line shows the place of its keyword in the history
/// and the keyword; the selected one has the mark and a ground of its own.
pub proof fn law_keywords_are_listed(
    st: HistoryState,
    items: Seq<Seq<char>>,
    height: int,
    theme: Theme,
    k: int,
)
    requires
        st.wf(items.len()),
        0 <= k < st.list@.len(),
        k < height - 4,
    ensures
        ({
            let lines = history_lines(st, items, height, theme);
            let line = lines[k + 2];
            &&& lines.len() >= k + 3
            &&& line.len() == 3
            &&& line[0].text == if k == st.sel {
                "▶ "@
            } else {
                "  "@
            }
            &&& line[2].text == items[st.list@[k] as int]
            &&& line[2].style.bg == if k == st.sel {
                Some(theme.cursor_line_bg)
            } else {
                None
            }
        }),
{
}

/// Whether the columns of the starts of a text are the sums of the columns of their
/// characters, and each character takes a column or more.
pub open spec fn plain_columns(buf: Seq<char>) -> bool {
    &&& forall|k: int|
        0 <= k <= buf.len() ==> str_cols(#[trigger] buf.take(k)) == sum_cols(buf.take(k))
    &&& forall|k: int| 0 <= k < buf.len() ==> cols(#[trigger] buf[k]) >= 1
}

/// What is typed is seen whole where there is room for it, behind the sign for the
/// direction, with the cursor on its character or behind the end.
pub proof fn law_typed_text_is_seen(cs: CmdState, width: int, theme: Theme)
    requires
        cs.wf(),
        plain_columns(cs.buf@),
        sum_cols(cs.buf@) + 5 <= width <= 65535,
    ensures
        ({
            let spans = cmd_spans(cs, width, theme);
            let at = cs.cursor as int;
            let n = cs.buf@.len() as int;
            let text = cs.buf@ + if at == n {
                seq![' ']
            } else {
                Seq::empty()
            };
            let shown = seq![
                if cs.forward {
                    '/'
                } else {
                    '?'
                },
            ] + text;
            &&& spans_text(spans).take(n + 1) == shown.take(n + 1)
            &&& at == n ==> spans_text(spans) == shown
            &&& spans.len() >= 3
            &&& spans[1].text == cs.buf@.take(at)
            &&& spans[2].style.reversed
            &&& spans[2].text == if at < n {
                seq![cs.buf@[at]]
            } else {
                seq![' ']
            }
        }),
{
    let buf = cs.buf@;
    let at = cs.cursor as int;
    let n = buf.len() as int;
    reveal_strlit("/");
    reveal_strlit("?");
    reveal_strlit(" ");
    assert(buf.take(n) =~= buf);
    lemma_cols_of_more(buf, at);
    let w = width - 1;
    let before = str_cols(buf.take(at)) as int;
    assert(before <= sum_cols(buf));
    let right = before < str_cols(buf);
    if at < n {
        lemma_cols_grow(buf, at, n);
    }
    let cells = typed_cols(w, false, right);
    assert(cells >= sum_cols(buf) + 1);
    assert(typed_scroll(before, cells) == 0);
    lemma_fitting_exact(buf, 0, 0);
    let rest = buf.skip(0);
    assert(rest =~= buf);
    lemma_fitting_all(buf, cells as nat);
    let shown = rest.take(n);
    assert(shown =~= buf);
    lemma_fitting_exact(buf, at, before as nat);
    let col = if cs.forward {
        theme.prompt_fwd
    } else {
        theme.prompt_back
    };
    let tail = text_with_cursor(buf, at, col);
    let spans = cmd_spans(cs, width, theme);
    assert(spans =~= seq![spans[0]] + (dots(false) + tail + dots(right)));
    assert(spans[1] == tail[0]);
    assert(spans[2] == tail[1]);
    let head = seq![spans[0]] + tail;
    assert(spans =~= head + dots(right));
    lemma_spans_text_add(head, dots(right));
    lemma_spans_text_add(seq![spans[0]], tail);
    assert(spans_text(seq![spans[0]]) =~= spans[0].text) by {
        assert(seq![spans[0]].drop_last() =~= Seq::empty());
        assert(spans_text(Seq::<SpanView>::empty()) =~= Seq::empty());
        assert(seq![spans[0]].last() == spans[0]);
    }
    assert(spans_text(tail) =~= buf + if at == n {
        seq![' ']
    } else {
        Seq::empty()
    }) by {
        assert(spans_text(Seq::<SpanView>::empty()) =~= Seq::empty());
        reveal_with_fuel(spans_text, 4);
        if at < n {
            assert(tail.drop_last().drop_last().drop_last() =~= Seq::empty());
            assert(tail.drop_last().drop_last().last() == tail[0]);
            assert(tail.drop_last().last() == tail[1]);
            assert(buf.take(at) + seq![buf[at]] + buf.skip(at + 1) =~= buf);
        } else {
            assert(tail.drop_last().drop_last() =~= Seq::empty());
            assert(tail.drop_last().last() == tail[0]);
        }
    }
    if at == n {
        assert(dots(right) =~= Seq::empty());
        assert(spans_text(dots(right)) =~= Seq::empty());
    }
}

proof fn lemma_cols_grow(s: Seq<char>, a: int, b: int)
    requires
        0 <= a < b <= s.len(),
        forall|k: int| 0 <= k < s.len() ==> cols(#[trigger] s[k]) >= 1,
    ensures
        sum_cols(s.take(a)) < sum_cols(s.take(b)),
    decreases s.len(),
{
    assert(s.take(b).skip(1) =~= s.skip(1).take(b - 1));
    assert(s.take(b)[0] == s[0]);
    assert(cols(s[0]) >= 1);
    if a > 0 {
        assert(s.take(a).skip(1) =~= s.skip(1).take(a - 1));
        assert(s.take(a)[0] == s[0]);
        assert forall|k: int| 0 <= k < s.skip(1).len() implies cols(#[trigger] s.skip(1)[k]) >= 1 by {
            assert(cols(s[k + 1]) >= 1);
        }
        lemma_cols_grow(s.skip(1), a - 1, b - 1);
    } else {
        assert(s.take(0).len() == 0);
    }
}

/// Exactly the columns of a start hold exactly that start.
proof fn lemma_fitting_exact(s: Seq<char>, k: int, n: nat)
    requires
        0 <= k <= s.len(),
        n == sum_cols(s.take(k)),
        forall|i: int| 0 <= i < s.len() ==> cols(#[trigger] s[i]) >= 1,
    ensures
        fitting(s, n) == k,
    decreases s.len(),
{
    if k == 0 {
        assert(s.take(0).len() == 0);
    } else {
        assert(s.take(k).skip(1) =~= s.skip(1).take(k - 1));
        assert(s.take(k)[0] == s[0]);
        assert(cols(s[0]) >= 1);
        assert forall|i: int| 0 <= i < s.skip(1).len() implies cols(#[trigger] s.skip(1)[i]) >= 1 by {
            assert(cols(s[i + 1]) >= 1);
        }
        lemma_fitting_exact(s.skip(1), k - 1, (n - cols(s[0])) as nat);
    }
}

/// More columns than a text takes hold all of it.
proof fn lemma_fitting_all(s: Seq<char>, n: nat)
    requires
        sum_cols(s) < n,
    ensures
        fitting(s, n) == s.len(),
    decreases s.len(),
{
    if s.len() > 0 {
        lemma_fitting_all(s.skip(1), (n - cols(s[0])) as nat);
    }
}

/// The status line says of a file whose end is known how many rows it has and how
/// far down the cursor is: the rows above the cursor's are that many hundredths of
/// them, rounded down. Of another file it says that it does not know.
pub proof fn law_status_tells_the_file<D: Fn(DiskRequest) -> DiskReply>(
    fc: FileContent<D>,
    at: Option<usize>,
    limit: int,
)
    requires
        fc.wf(),
        fc.search is None,
        fc.view.cursor() < fc.view.idx().rows() || !fc.view.idx().done(),
    ensures
        ({
            let rows = rows_told(fc.view.top() + 1, fc.view.shown().len() as int);
            let total = fc.view.idx().rows() as int;
            if fc.view.idx().done() {
                exists|p: nat|
                    {
                        &&& #[trigger] decimal(p).len() > 0
                        &&& p * total <= fc.view.cursor() * 100 < (p + 1) * total
                        &&& file_told(fc, at, limit) == rows + "/"@ + decimal(total as nat) + "  ("@
                            + decimal(p) + "%)"@
                    }
            } else {
                file_told(fc, at, limit) == rows + "/?"@
            }
        }),
{
    let rows = rows_told(fc.view.top() + 1, fc.view.shown().len() as int);
    let total = fc.view.idx().rows() as int;
    if fc.view.idx().done() {
        let p = percent(fc.view.cursor() as int, total) as nat;
        law_percent_counts_the_rows_above(fc.view.cursor() as int, total);
        law_number_reads_back(p);
        assert(file_told(fc, at, limit) =~= rows + "/"@ + decimal(total as nat) + "  ("@ + decimal(p)
            + "%)"@);
    } else {
        assert(file_told(fc, at, limit) =~= rows + "/?"@);
    }
}

/// A list says how many lines it has and the number of the selected one in the
/// file.
pub proof fn law_status_tells_the_list(mc: MatchesContent, limit: int)
    requires
        mc.wf(),
        mc.search is None,
        mc.rows@.len() > 0,
        limit > 3,
        str_cols(mc.tag@) <= limit,
    ensures
        list_told(mc, limit) == mc.tag@ + " 共 "@ + decimal(mc.rows@.len()) + " 行  选中原始行 "@
            + decimal(mc.rows@[mc.sel as int].line_no as nat),
{
    assert(list_told(mc, limit) =~= mc.tag@ + " 共 "@ + decimal(mc.rows@.len())
        + " 行  选中原始行 "@ + decimal(mc.rows@[mc.sel as int].line_no as nat));
}

/// A pane that is fitted to its place shows its cursor: the file's cursor is in the
/// window, which is as high as the pane without its border, and the selected line
/// of a list is among those that are seen.
pub proof fn law_frames_show_the_cursor<D: Fn(DiskRequest) -> DiskReply>(
    file: FileContent<D>,
    file_after: FileContent<D>,
    list: MatchesContent,
    list_after: MatchesContent,
    view: FileView<D>,
    rect: RectLike,
)
    requires
        rect.h >= 3,
        !file.wrap,
        !list.wrap,
        list.wf(),
        list.rows@.len() > 0,
        file_prepared(file, file_after, rect),
        list_prepared(list, list_after, view, view, rect),
    ensures
        file_after.inner_h == rect.h - 2,
        file_after.view.height() == rect.h - 2,
        file_after.view.top() <= file_after.view.cursor() < file_after.view.top() + (rect.h - 2),
        file_after.view.cursor() == file.view.cursor(),
        list_after.inner_h == rect.h - 2,
        list_after.sel == list.sel,
        list_after.top <= list.sel < list_after.top + (rect.h - 2),
        list_after.top > list.top ==> list.sel == list_after.top + (rect.h - 2) - 1,
        list_after.top < list.top ==> list.sel == list_after.top,
        list.top <= list.sel < list.top + (rect.h - 2) ==> list_after.top == list.top,
{
}

/// While text is selected, the cursor is shown in its row at its column, and
/// nowhere else; where it stands has the ground of the cursor.
pub proof fn law_selection_shows_its_cursor(
    v: VisualState,
    cursor: u64,
    row: u64,
    len: nat,
    theme: Theme,
    i: int,
)
    requires
        0 <= i < len,
    ensures
        ({
            let style = char_style(row_marks(v, cursor, row, len), i, theme);
            &&& row == cursor && i == v.cur_col ==> style.bg == Some(theme.cursor_line_bg)
                && style.fg == Some(theme.cursor_line_text)
            &&& !(row == cursor && i == v.cur_col) ==> style.bg == None::<Color> || style.bg
                == Some(Color::DarkGray)
        }),
{
}

/// The help says of an action what it does: down and up, left and right, the first
/// and the last row, halves and wholes are told apart.
pub proof fn law_help_tells_the_directions()
    ensures
        label_of(Action::ScrollLineDown).contains('下') && label_of(Action::ScrollLineUp).contains(
            '上',
        ),
        label_of(Action::HalfDown).contains('下') && label_of(Action::HalfDown).contains('半'),
        label_of(Action::HalfUp).contains('上') && label_of(Action::HalfUp).contains('半'),
        label_of(Action::PageDown).contains('下') && !label_of(Action::PageDown).contains('半'),
        label_of(Action::PageUp).contains('上') && !label_of(Action::PageUp).contains('半'),
        label_of(Action::ToTop).contains('首') && label_of(Action::ToBottom).contains('尾'),
        label_of(Action::MatchNext).contains('下') && label_of(Action::MatchPrev).contains('上'),
        label_of(Action::FocusNext).contains('下') && label_of(Action::FocusPrev).contains('上'),
        label_of(Action::SearchFwd).contains('下') && label_of(Action::SearchBack).contains('上'),
        label_of(Action::HLeft).contains('左') && label_of(Action::HRight).contains('右'),
        label_of(Action::NudgeRight).contains('增') && label_of(Action::NudgeLeft).contains('缩'),
        label_of(Action::NudgeUp).contains('增') && label_of(Action::NudgeDown).contains('缩'),
{
    reveal_strlit("下移一行");
    reveal_strlit("上移一行");
    reveal_strlit("下半屏");
    reveal_strlit("上半屏");
    reveal_strlit("下翻一屏");
    reveal_strlit("上翻一屏");
    reveal_strlit("到文件首");
    reveal_strlit("到文件尾");
    reveal_strlit("下一个匹配");
    reveal_strlit("上一个匹配");
    reveal_strlit("下一窗格 (Tab)");
    reveal_strlit("上一窗格");
    reveal_strlit("向下搜索 / 窗内搜索");
    reveal_strlit("向上搜索");
    reveal_strlit("水平左移");
    reveal_strlit("水平右移");
    reveal_strlit("增大宽度");
    reveal_strlit("缩小宽度");
    reveal_strlit("增大高度");
    reveal_strlit("缩小高度");
    assert(label_of(Action::ScrollLineDown)[0] == '下');
    assert(label_of(Action::ScrollLineUp)[0] == '上');
    assert(label_of(Action::HalfDown)[0] == '下' && label_of(Action::HalfDown)[1] == '半');
    assert(label_of(Action::HalfUp)[0] == '上' && label_of(Action::HalfUp)[1] == '半');
    assert(label_of(Action::PageDown)[0] == '下');
    assert(label_of(Action::PageUp)[0] == '上');
    assert(label_of(Action::ToTop)[3] == '首');
    assert(label_of(Action::ToBottom)[3] == '尾');
    assert(label_of(Action::MatchNext)[0] == '下');
    assert(label_of(Action::MatchPrev)[0] == '上');
    assert(label_of(Action::FocusNext)[0] == '下');
    assert(label_of(Action::FocusPrev)[0] == '上');
    assert(label_of(Action::SearchFwd)[1] == '下');
    assert(label_of(Action::SearchBack)[1] == '上');
    assert(label_of(Action::HLeft)[2] == '左');
    assert(label_of(Action::HRight)[2] == '右');
    assert(label_of(Action::NudgeRight)[0] == '增');
    assert(label_of(Action::NudgeLeft)[0] == '缩');
    assert(label_of(Action::NudgeUp)[0] == '增');
    assert(label_of(Action::NudgeDown)[0] == '缩');
}

/// Panes are seen where the layout puts them, in their order.
pub proof fn law_panes_are_seen_where_they_stand<D: Fn(DiskRequest) -> DiskReply>(
    a: App<D>,
    area: RectLike,
    i: int,
)
    requires
        a.wf(),
        a.zoom is None,
        0 <= i < a.panes@.len(),
    ensures
        ({
            let seen = seen_panes(a, area);
            let r = rect_of(a.layout.root, area, a.panes@[i].id);
            &&& seen.len() == a.panes@.len()
            &&& seen[i].0 == i
            &&& seen[i].1.x == r.x && seen[i].1.y == r.y
            &&& r.w >= 1 ==> seen[i].1.w == r.w
            &&& r.h >= 1 ==> seen[i].1.h == r.h
        }),
{
    lemma_place(a, i);
}

/// What is said of a switch is how it stands now: on or off, in the message and on
/// the status line; and the name of the case mode is part of what is said of it.
pub proof fn law_switches_are_told_as_they_stand(opts: SearchPrefs)
    ensures
        word_told(true).contains('开') && !word_told(true).contains('关'),
        word_told(false).contains('关') && !word_told(false).contains('开'),
        wrap_told(true).contains('开') && !wrap_told(true).contains('关'),
        wrap_told(false).contains('关') && !wrap_told(false).contains('开'),
        prefs_told(opts) == "   [大小写: "@ + opts.case.name() + "] [整词: "@ + (if opts.word {
            seq!['开']
        } else {
            seq!['关']
        }) + "]"@,
        Case::Smart.name() == seq!['智', '能'],
        Case::Insensitive.name() == seq!['忽', '略'],
        Case::Sensitive.name() == seq!['区', '分'],
{
    reveal_strlit("整词匹配：开");
    reveal_strlit("整词匹配：关（子串/正则匹配）");
    reveal_strlit("自动换行：开（超出部分显示在下方，续行带 ↪）");
    reveal_strlit("自动换行：关（长行用 ←/→ 或 h/l 水平滚动）");
    reveal_strlit("开");
    reveal_strlit("关");
    reveal_strlit("智能");
    reveal_strlit("忽略");
    reveal_strlit("区分");
    assert(word_told(true)[5] == '开');
    assert(word_told(false)[5] == '关');
    assert(wrap_told(true)[5] == '开');
    assert(wrap_told(false)[5] == '关');
    assert("开"@ =~= seq!['开']);
    assert("关"@ =~= seq!['关']);
    assert("智能"@ =~= seq!['智', '能']);
    assert("忽略"@ =~= seq!['忽', '略']);
    assert("区分"@ =~= seq!['区', '分']);
}

/// A keyword takes at most eighteen hundredths of the status line, but room for
/// fourteen columns in any case and for ninety at most.
pub proof fn law_keywords_leave_room(width: int)
    requires
        0 <= width,
    ensures
        14 <= keyword_cols(width) <= 90,
        14 < keyword_cols(width) < 90 ==> 100 * keyword_cols(width) <= 18 * width < 100 * (
        keyword_cols(width) + 1),
        keyword_cols(width) == 14 ==> 18 * width < 1500,
        keyword_cols(width) == 90 ==> 18 * width >= 9000,
{
}

/// Of a text that is typed and too long, the part with the cursor is seen: the
/// cursor stands in the last column where something is scrolled away, and in its own
/// where nothing is; the dots for what is not seen and the text take the columns.
pub proof fn law_typed_cursor_is_in_sight(before: int, width: int, left: bool, right: bool)
    requires
        before >= 0,
        width >= 7,
    ensures
        ({
            let room = typed_cols(width, left, right);
            let gone = typed_scroll(before, room);
            &&& room + (if left {
                3int
            } else {
                0
            }) + (if right {
                3int
            } else {
                0
            }) == width
            &&& 0 <= gone <= before
            &&& before - gone < room
            &&& gone > 0 ==> before - gone == room - 1
        }),
{
}

/// The help has a line for each action as far as the panel is high: what the action
/// does and, behind it, its keys.
pub proof fn law_help_lists_the_actions(
    entries: Seq<(Action, String)>,
    height: int,
    theme: Theme,
    k: int,
)
    requires
        0 <= k < entries.len(),
        k < height - 4,
    ensures
        ({
            let lines = help_lines(entries, height, theme);
            &&& lines.len() >= k + 3
            &&& lines[k + 2].len() == 3
            &&& lines[k + 2][0].text == label_of(entries[k].0)
            &&& lines[k + 2][2].text == entries[k].1@
        }),
{
}

/// A list shows as many of its lines as its pane is high, from its top on.
pub proof fn law_lists_fill_their_panes(
    c: Seq<u8>,
    max: int,
    enc: Encoding,
    mc: MatchesContent,
    cols: int,
    theme: Theme,
    opts: SearchPrefs,
)
    requires
        mc.wf(),
        !mc.wrap,
        mc.search is None,
        mc.rows@.len() > 0,
        mc.inner_h >= 1,
        0 <= cols <= 65535,
    ensures
        ({
            let lines = list_shown(c, max, enc, mc, cols, theme, opts);
            let left = mc.rows@.len() - mc.top;
            &&& lines.len() == if left < mc.inner_h {
                left
            } else {
                mc.inner_h as int
            }
            &&& lines == list_rows(c, max, enc, mc, cols, theme, opts, mc.top + lines.len())
        }),
{
    let end = if mc.top + mc.inner_h <= mc.rows@.len() {
        mc.top + mc.inner_h
    } else {
        mc.rows@.len() as int
    };
    law_list_lines_are_shown_with_their_numbers(
        c,
        max,
        enc,
        mc,
        cols,
        theme,
        opts,
        end,
        mc.top as int,
    );
}

/// What is marked in a list is what was searched for in it.
pub proof fn law_lists_mark_what_was_searched<D: Fn(DiskRequest) -> DiskReply>(
    before: MatchesContent,
    after: MatchesContent,
    view: FileView<D>,
    view_after: FileView<D>,
    pattern: Seq<char>,
    forward: bool,
    opts: SearchPrefs,
    r: Result<nat, Seq<char>>,
    c: Seq<u8>,
)
    requires
        list_searched(before, after, view, view_after, pattern, forward, opts, r),
        view.shows(c),
        r matches Ok(n) && n > 0,
    ensures
        list_highlight(after, opts) is Some,
        regex_compiled(source_of(pattern, opts.case, opts.word)) == Ok::<regex::Regex, Seq<char>>(
            list_highlight(after, opts)->0,
        ),
{
}

/// The selected line of a list is shown on the ground of the cursor's row, and what
/// its search marks in the colour for keywords.
pub proof fn law_list_lines_are_marked(
    mc: MatchesContent,
    text: Seq<char>,
    cols: int,
    theme: Theme,
    opts: SearchPrefs,
    i: int,
)
    requires
        mc.wf(),
        !mc.wrap,
        0 <= i < mc.rows@.len(),
        0 <= cols <= 65535,
    ensures
        ({
            let lines = list_row(mc, text, cols, theme, opts, i);
            let room = list_cols(mc.rows@, cols) as nat;
            &&& lines.len() == 1
            &&& lines[0].skip(2) == highlighted(
                window(text, mc.hscroll as nat, room),
                list_highlight(mc, opts),
                i == mc.sel,
                false,
                theme,
                theme.keyword,
            )
        }),
{
    crate::fit::lemma_number_width(mc.rows@.last().line_no as nat);
    let room = list_cols(mc.rows@, cols) as nat;
    let lines = list_row(mc, text, cols, theme, opts, i);
    assert(lines[0].skip(2) =~= highlighted(
        window(text, mc.hscroll as nat, room),
        list_highlight(mc, opts),
        i == mc.sel,
        false,
        theme,
        theme.keyword,
    ));
}

/// The status line says in order: that work is under way, what the pane with the
/// focus shows, how a search takes its pattern, and at the end the note, or else the
/// message.
pub proof fn law_status_ends_with_the_note<D: Fn(DiskRequest) -> DiskReply>(
    a: App<D>,
    width: int,
    at: Option<usize>,
)
    ensures
        ({
            let limit = keyword_cols(width);
            let head = if a.pending_jump is Some {
                "[processing...]  "@
            } else {
                Seq::empty()
            };
            let pane = if a.focus == 0 {
                file_told(a.file(), at, limit)
            } else {
                list_told(a.list(a.focus as int), limit)
            };
            let end = match a.trans {
                Some(t) => "   [ "@ + t@ + " ]"@,
                None => if a.msg@.len() == 0 {
                    Seq::empty()
                } else {
                    "   "@ + a.msg@
                },
            };
            status_text(a, width, at) == head + pane + prefs_told(a.opts) + end
        }),
{
}

/// Whether a text is a number: digits that read back as it.
pub open spec fn reads_as(digits: Seq<char>, number: nat) -> bool {
    digits.len() > 0 && all_digits(digits) && decimal_value(digits) == number
}

/// What is said of a copy has the rows and then the characters, what is said of an
/// export its lines, and what is said of matches the line or how many there are.
pub proof fn law_messages_tell_the_numbers(rows: u64, count: nat, line: u64, name: Seq<char>)
    requires
        count <= usize::MAX,
    ensures
        exists|r: Seq<char>, n: Seq<char>| #[trigger]
            reads_as(r, rows as nat) && #[trigger] reads_as(n, count) && copy_told(rows, count, true)
                == "已复制 "@ + r + " 行 / "@ + n + " 字符到系统剪贴板"@,
        exists|n: Seq<char>| #[trigger]
            reads_as(n, count) && export_told(count as usize, Ok(name)) == "已导出 "@ + n
                + " 行到 "@ + name + "（当前目录）"@,
        exists|n: Seq<char>| #[trigger]
            reads_as(n, line as nat) && match_told(line) == "匹配 "@ + n,
        count > 0 ==> exists|n: Seq<char>| #[trigger]
            reads_as(n, count) && crate::moves::list_search_told(name, Ok(count)) == "窗内搜索: "@
                + name + "  → "@ + n + " 处匹配"@,
{
    law_number_reads_back(rows as nat);
    law_number_reads_back(count);
    law_number_reads_back(line as nat);
    assert(reads_as(decimal(rows as nat), rows as nat) && reads_as(decimal(count), count));
    assert(reads_as(decimal(line as nat), line as nat));
}

/// What is said of a new pane has the number of its lines, and a pane that was
/// overwritten is told by its number.
pub proof fn law_new_panes_are_told<D: Fn(DiskRequest) -> DiskReply>(
    before: App<D>,
    made: App<D>,
    put: App<D>,
    rows: Seq<Match>,
    tag: Seq<char>,
    dir: Dir,
    new_first: bool,
    number: u64,
)
    requires
        pane_added(before, made, rows, tag, dir, new_first),
        overwritten(before, put, rows, tag, number),
        2 <= number <= before.panes@.len(),
    ensures
        exists|n: Seq<char>| #[trigger]
            reads_as(n, rows.len()) && made.msg@ == "结果窗已创建："@ + n + " 条匹配"@,
        exists|n: Seq<char>| #[trigger]
            reads_as(n, number as nat) && put.msg@ == "已覆盖到 "@ + n + " 号窗格"@,
{
    law_number_reads_back(rows.len());
    law_number_reads_back(number as nat);
    assert(reads_as(decimal(rows.len()), rows.len()));
    assert(reads_as(decimal(number as nat), number as nat));
}

} // verus!
