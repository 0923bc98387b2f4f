//! Styled text: spans, lines, and the rows of a pane made of them.
use vstd::prelude::*;
use crate::search::{find_spans, regex_spans};
use crate::text::{
    blank_text, blanks, chars_of, pad_left, padded, segments, slice_cols, texts, window, wrap_row,
};
use crate::theme::{Color, Theme};

verus! {

#[derive(Debug, Clone, Copy, PartialEq, Eq, Structural)]
pub struct Style {
    pub fg: Option<Color>,
    pub bg: Option<Color>,
    pub bold: bool,
    pub dim: bool,
    pub reversed: bool,
}

/// A piece of text in one style.
#[derive(Debug)]
pub struct Span {
    pub text: String,
    pub style: Style,
}

#[verifier::ext_equal]
pub struct SpanView {
    pub text: Seq<char>,
    pub style: Style,
}

impl View for Span {
    type V = SpanView;

    open spec fn view(&self) -> SpanView {
        SpanView { text: self.text@, style: self.style }
    }
}

/// A line on the screen.
#[derive(Debug)]
pub struct Line {
    pub spans: Vec<Span>,
}

impl View for Line {
    type V = Seq<SpanView>;

    open spec fn view(&self) -> Seq<SpanView> {
        plain_spans(self.spans@)
    }
}

/// Spans as plain values.
pub open spec fn plain_spans(v: Seq<Span>) -> Seq<SpanView> {
    v.map_values(|s: Span| s@)
}

/// Lines as plain values.
pub open spec fn plain_lines(v: Seq<Line>) -> Seq<Seq<SpanView>> {
    v.map_values(|l: Line| l@)
}

/// A style with a colour for the text and nothing else.
pub open spec fn plain_style(fg: Color) -> Style {
    Style { fg: Some(fg), bg: None, bold: false, dim: false, reversed: false }
}

pub open spec fn bold_style(fg: Color) -> Style {
    Style { bold: true, ..plain_style(fg) }
}

pub open spec fn dim_style(fg: Color) -> Style {
    Style { dim: true, ..plain_style(fg) }
}

pub open spec fn colored(fg: Color, bg: Option<Color>, bold: bool) -> Style {
    Style { fg: Some(fg), bg, bold, dim: false, reversed: false }
}

pub open spec fn span_of(text: Seq<char>, style: Style) -> SpanView {
    SpanView { text, style }
}

impl Style {
    pub fn plain(fg: Color) -> (r: Self)
        ensures
            r == plain_style(fg),
    {
        Style { fg: Some(fg), bg: None, bold: false, dim: false, reversed: false }
    }

    pub fn strong(fg: Color) -> (r: Self)
        ensures
            r == bold_style(fg),
    {
        Style { fg: Some(fg), bg: None, bold: true, dim: false, reversed: false }
    }

    pub fn faint(fg: Color) -> (r: Self)
        ensures
            r == dim_style(fg),
    {
        Style { fg: Some(fg), bg: None, bold: false, dim: true, reversed: false }
    }
}

/// Appends a span.
pub(crate) fn push_span(spans: &mut Vec<Span>, text: String, style: Style)
    ensures
        plain_spans(final(spans)@) == plain_spans(old(spans)@).push(span_of(text@, style)),
{
    spans.push(Span { text, style });
    assert(plain_spans(spans@) =~= plain_spans(old(spans)@).push(span_of(text@, style)));
}

/// Appends a span of a fixed text.
pub(crate) fn push_str(spans: &mut Vec<Span>, text: &str, style: Style)
    ensures
        plain_spans(final(spans)@) == plain_spans(old(spans)@).push(span_of(text@, style)),
{
    push_span(spans, text.to_owned(), style);
}

/// Appends a line.
pub(crate) fn push_line(lines: &mut Vec<Line>, spans: Vec<Span>)
    ensures
        plain_lines(final(lines)@) == plain_lines(old(lines)@).push(plain_spans(spans@)),
{
    lines.push(Line { spans });
    assert(plain_lines(lines@) =~= plain_lines(old(lines)@).push(plain_spans(spans@)));
}

/// The bytes of a character in UTF-8.
pub open spec fn utf8_len(c: char) -> int {
    if c as int <= 0x7F {
        1
    } else if c as int <= 0x7FF {
        2
    } else if c as int <= 0xFFFF {
        3
    } else {
        4
    }
}

/// How many characters of `s` lie within its first `b` bytes.
pub open spec fn chars_in_bytes(s: Seq<char>, b: int) -> int
    decreases s.len(),
{
    if s.len() == 0 || b < utf8_len(s[0]) {
        0
    } else {
        1 + chars_in_bytes(s.skip(1), b - utf8_len(s[0]))
    }
}

pub(crate) proof fn lemma_chars_in_bytes(s: Seq<char>, a: int, b: int)
    requires
        a <= b,
    ensures
        0 <= chars_in_bytes(s, a) <= chars_in_bytes(s, b) <= s.len(),
    decreases s.len(),
{
    if s.len() > 0 && b >= utf8_len(s[0]) {
        if a >= utf8_len(s[0]) {
            lemma_chars_in_bytes(s.skip(1), a - utf8_len(s[0]), b - utf8_len(s[0]));
        } else {
            lemma_chars_in_bytes(s.skip(1), b - utf8_len(s[0]), b - utf8_len(s[0]));
        }
    }
}

fn char_index(chars: &Vec<char>, byte: usize) -> (r: usize)
    ensures
        r == chars_in_bytes(chars@, byte as int),
        r <= chars@.len(),
{
    let n: usize = chars.len();
    let mut left: usize = byte;
    let mut i: usize = 0;
    assert(chars@.skip(0) =~= chars@);
    while i < n
        invariant
            i <= n,
            n == chars@.len(),
            chars_in_bytes(chars@, byte as int) == i + chars_in_bytes(
                chars@.skip(i as int),
                left as int,
            ),
        decreases n - i,
    {
        let c: char = chars[i];
        let w: usize = if c <= '\u{7F}' {
            1
        } else if c <= '\u{7FF}' {
            2
        } else if c <= '\u{FFFF}' {
            3
        } else {
            4
        };
        assert(chars@.skip(i as int).skip(1) =~= chars@.skip(i + 1));
        if left < w {
            return i;
        }
        left -= w;
        i += 1;
    }
    i
}

/// The spans of the first `n` matches and the text before them, and where the
/// last of them ends.
pub open spec fn marked_upto(
    text: Seq<char>,
    found: Seq<(usize, usize)>,
    base: Style,
    hit: Style,
    n: nat,
) -> (Seq<SpanView>, int)
    decreases n,
{
    if n == 0 {
        (Seq::empty(), 0)
    } else {
        let (front, pos) = marked_upto(text, found, base, hit, (n - 1) as nat);
        let s = chars_in_bytes(text, found[n - 1].0 as int);
        let e = chars_in_bytes(text, found[n - 1].1 as int);
        let gap = if s > pos {
            front.push(span_of(text.subrange(pos, s), base))
        } else {
            front
        };
        (gap.push(span_of(text.subrange(s, e), hit)), e)
    }
}

/// A text with its matches in a style of their own.
pub open spec fn marked(
    text: Seq<char>,
    found: Seq<(usize, usize)>,
    base: Style,
    hit: Style,
) -> Seq<SpanView> {
    let (front, pos) = marked_upto(text, found, base, hit, found.len());
    if pos < text.len() {
        front.push(span_of(text.subrange(pos, text.len() as int), base))
    } else {
        front
    }
}

/// Whether places of matches come one behind the other.
pub open spec fn in_order(found: Seq<(usize, usize)>) -> bool {
    &&& forall|i: int| 0 <= i < found.len() ==> (#[trigger] found[i]).0 <= found[i].1
    &&& forall|i: int, j: int|
        0 <= i < j < found.len() ==> (#[trigger] found[i]).1 <= (#[trigger] found[j]).0
}

/// Appends a text with its matches in a style of their own. The places of the
/// matches are given in bytes.
pub fn append_marked(
    spans: &mut Vec<Span>,
    text: &str,
    found: &Vec<(usize, usize)>,
    base: Style,
    hit: Style,
)
    requires
        in_order(found@),
    ensures
        plain_spans(final(spans)@) == plain_spans(old(spans)@) + marked(
            text@,
            found@,
            base,
            hit,
        ),
{
    let chars = chars_of(text);
    let len: usize = chars.len();
    let n: usize = found.len();
    let ghost before = plain_spans(spans@);
    let mut pos: usize = 0;
    let mut k: usize = 0;
    assert(before + Seq::<SpanView>::empty() =~= before);
    while k < n
        invariant
            k <= n,
            n == found@.len(),
            len == chars@.len(),
            chars@ == text@,
            in_order(found@),
            pos <= len,
            pos == marked_upto(text@, found@, base, hit, k as nat).1,
            k > 0 ==> pos == chars_in_bytes(text@, found@[k - 1].1 as int),
            k == 0 ==> pos == 0,
            plain_spans(spans@) == before + marked_upto(text@, found@, base, hit, k as nat).0,
        decreases n - k,
    {
        let s: usize = char_index(&chars, found[k].0);
        let e: usize = char_index(&chars, found[k].1);
        proof {
            lemma_chars_in_bytes(text@, found@[k as int].0 as int, found@[k as int].1 as int);
            if k > 0 {
                assert(found@[k - 1].1 <= found@[k as int].0);
                lemma_chars_in_bytes(text@, found@[k - 1].1 as int, found@[k as int].0 as int);
            }
        }
        let ghost front = marked_upto(text@, found@, base, hit, k as nat).0;
        let ghost sofar = plain_spans(spans@);
        if s > pos {
            push_span(spans, text.substring_char(pos, s).to_owned(), base);
        }
        let ghost gap = if s > pos {
            front.push(span_of(text@.subrange(pos as int, s as int), base))
        } else {
            front
        };
        assert(plain_spans(spans@) =~= before + gap);
        push_span(spans, text.substring_char(s, e).to_owned(), hit);
        assert(plain_spans(spans@) =~= before + gap.push(
            span_of(text@.subrange(s as int, e as int), hit),
        ));
        pos = e;
        k += 1;
    }
    let ghost front = marked_upto(text@, found@, base, hit, n as nat).0;
    if pos < len {
        push_span(spans, text.substring_char(pos, len).to_owned(), base);
        assert(plain_spans(spans@) =~= before + front.push(
            span_of(text@.subrange(pos as int, len as int), base),
        ));
    }
}

/// The texts of spans put together.
pub open spec fn spans_text(spans: Seq<SpanView>) -> Seq<char>
    decreases spans.len(),
{
    if spans.len() == 0 {
        Seq::empty()
    } else {
        spans_text(spans.drop_last()) + spans.last().text
    }
}

pub(crate) proof fn lemma_spans_text_push(spans: Seq<SpanView>, s: SpanView)
    ensures
        spans_text(spans.push(s)) == spans_text(spans) + s.text,
{
    assert(spans.push(s).drop_last() =~= spans);
}

/// Marking the matches of a text changes no character of it.
pub proof fn law_marking_keeps_the_text(
    text: Seq<char>,
    found: Seq<(usize, usize)>,
    base: Style,
    hit: Style,
)
    requires
        in_order(found),
    ensures
        spans_text(marked(text, found, base, hit)) == text,
{
    lemma_marked_upto(text, found, base, hit, found.len());
    let (front, pos) = marked_upto(text, found, base, hit, found.len());
    if pos < text.len() {
        lemma_spans_text_push(front, span_of(text.subrange(pos, text.len() as int), base));
        assert(text.take(pos) + text.subrange(pos, text.len() as int) =~= text);
    } else {
        assert(text.take(pos) =~= text);
    }
}

pub(crate) proof fn lemma_marked_upto(
    text: Seq<char>,
    found: Seq<(usize, usize)>,
    base: Style,
    hit: Style,
    n: nat,
)
    requires
        in_order(found),
        n <= found.len(),
    ensures
        ({
            let (front, pos) = marked_upto(text, found, base, hit, n);
            &&& 0 <= pos <= text.len()
            &&& spans_text(front) == text.take(pos)
            &&& n > 0 ==> pos == chars_in_bytes(text, found[n - 1].1 as int)
        }),
    decreases n,
{
    if n == 0 {
        assert(text.take(0) =~= Seq::empty());
    } else {
        lemma_marked_upto(text, found, base, hit, (n - 1) as nat);
        let (front, pos) = marked_upto(text, found, base, hit, (n - 1) as nat);
        let s = chars_in_bytes(text, found[n - 1].0 as int);
        let e = chars_in_bytes(text, found[n - 1].1 as int);
        lemma_chars_in_bytes(text, found[n - 1].0 as int, found[n - 1].1 as int);
        if n > 1 {
            assert(found[n - 2].1 <= found[n - 1].0);
            lemma_chars_in_bytes(text, found[n - 2].1 as int, found[n - 1].0 as int);
        }
        if s > pos {
            lemma_spans_text_push(front, span_of(text.subrange(pos, s), base));
            assert(text.take(pos) + text.subrange(pos, s) =~= text.take(s));
        }
        let gap = if s > pos {
            front.push(span_of(text.subrange(pos, s), base))
        } else {
            front
        };
        lemma_spans_text_push(gap, span_of(text.subrange(s, e), hit));
        assert(text.take(s) + text.subrange(s, e) =~= text.take(e));
    }
}

/// The style of a row's text.
pub open spec fn row_style(cur: bool, sel_row: bool, theme: Theme) -> Style {
    if cur {
        colored(theme.cursor_line_text, Some(theme.cursor_line_bg), false)
    } else if sel_row {
        colored(Color::White, Some(Color::DarkGray), false)
    } else {
        colored(theme.text, None, false)
    }
}

/// The style of a match in a row.
pub open spec fn hit_style(cur: bool, sel_row: bool, theme: Theme, kw: Color) -> Style {
    Style { fg: Some(kw), bold: true, ..row_style(cur, sel_row, theme) }
}

/// A row's text with its matches highlighted, or as one span where nothing is.
pub open spec fn highlighted(
    text: Seq<char>,
    hl: Option<regex::Regex>,
    cur: bool,
    sel_row: bool,
    theme: Theme,
    kw: Color,
) -> Seq<SpanView> {
    match hl {
        Some(re) => marked(
            text,
            regex_spans(re, text),
            row_style(cur, sel_row, theme),
            hit_style(cur, sel_row, theme, kw),
        ),
        None => seq![span_of(text, row_style(cur, sel_row, theme))],
    }
}

/// A regular expression as a plain value.
pub open spec fn plain_regex(hl: Option<&regex::Regex>) -> Option<regex::Regex> {
    match hl {
        Some(re) => Some(*re),
        None => None,
    }
}

/// Appends a row's text with its matches highlighted.
pub fn append_highlighted(
    spans: &mut Vec<Span>,
    text: &str,
    hl: Option<&regex::Regex>,
    cur: bool,
    sel_row: bool,
    theme: &Theme,
    kw: Color,
)
    ensures
        plain_spans(final(spans)@) == plain_spans(old(spans)@) + highlighted(
            text@,
            plain_regex(hl),
            cur,
            sel_row,
            *theme,
            kw,
        ),
{
    let fg: Color = if cur {
        theme.cursor_line_text
    } else if sel_row {
        Color::White
    } else {
        theme.text
    };
    let bg: Option<Color> = if cur {
        Some(theme.cursor_line_bg)
    } else if sel_row {
        Some(Color::DarkGray)
    } else {
        None
    };
    let base = Style { fg: Some(fg), bg, bold: false, dim: false, reversed: false };
    let hit = Style { fg: Some(kw), bg, bold: true, dim: false, reversed: false };
    match hl {
        Some(re) => {
            let found = find_spans(re, text);
            append_marked(spans, text, &found, base, hit);
        },
        None => {
            let ghost before = plain_spans(spans@);
            push_str(spans, text, base);
            assert(plain_spans(spans@) =~= before + seq![span_of(text@, base)]);
        },
    }
}

/// What stands before the first line of a row: the mark of the cursor, and the
/// row's number.
pub open spec fn row_head(
    number: Seq<char>,
    width: nat,
    cursor_marker: bool,
    theme: Theme,
) -> Seq<SpanView> {
    seq![
        span_of(
            if cursor_marker {
                "▶"@
            } else {
                " "@
            },
            bold_style(theme.cursor_marker),
        ),
        span_of(padded(number, width) + "│"@, dim_style(theme.line_number)),
    ]
}

/// What stands before the further lines of a row that is wrapped.
pub open spec fn row_tail_head(width: nat, theme: Theme) -> Seq<SpanView> {
    seq![
        span_of("↪"@, dim_style(theme.line_number)),
        span_of(blanks(width), plain_style(theme.line_number)),
        span_of("│"@, dim_style(theme.line_number)),
    ]
}

/// How a row is to be shown.
pub struct RowLook {
    pub no_width: usize,
    pub cur: bool,
    pub hscroll: usize,
    pub wrap: bool,
    /// The columns for the row's text.
    pub budget: usize,
    pub sel_row: bool,
    pub cursor_marker: bool,
}

/// The line of a row that shows piece `k` of its text.
pub open spec fn row_line(
    number: Seq<char>,
    piece: Seq<char>,
    k: int,
    hl: Option<regex::Regex>,
    look: RowLook,
    theme: Theme,
    kw: Color,
) -> Seq<SpanView> {
    (if k == 0 {
        row_head(number, look.no_width as nat, look.cursor_marker, theme)
    } else {
        row_tail_head(look.no_width as nat, theme)
    }) + highlighted(piece, hl, look.cur, look.sel_row, theme, kw)
}

/// The pieces of a row's text, one for each line: the part that is scrolled to,
/// or all of it wrapped.
pub open spec fn row_pieces(text: Seq<char>, look: RowLook) -> Seq<Seq<char>> {
    if look.wrap {
        segments(text, look.budget as nat)
    } else {
        seq![window(text, look.hscroll as nat, look.budget as nat)]
    }
}

/// The lines of a row.
pub open spec fn row_lines(
    number: Seq<char>,
    text: Seq<char>,
    hl: Option<regex::Regex>,
    look: RowLook,
    theme: Theme,
    kw: Color,
) -> Seq<Seq<SpanView>> {
    let pieces = row_pieces(text, look);
    Seq::new(pieces.len(), |k: int| row_line(number, pieces[k], k, hl, look, theme, kw))
}

/// Appends the lines of a row: its number, and its text scrolled to the side or
/// wrapped.
pub fn push_row_lines(
    out: &mut Vec<Line>,
    number: &str,
    text: &str,
    hl: Option<&regex::Regex>,
    look: &RowLook,
    theme: &Theme,
    kw: Color,
)
    ensures
        plain_lines(final(out)@) == plain_lines(old(out)@) + row_lines(
            number@,
            text@,
            plain_regex(hl),
            *look,
            *theme,
            kw,
        ),
{
    let pieces: Vec<String> = if look.wrap {
        wrap_row(text, look.budget)
    } else {
        let piece = slice_cols(text, look.hscroll, look.budget).to_owned();
        let mut one: Vec<String> = Vec::new();
        one.push(piece);
        assert(texts(one@) =~= seq![window(text@, look.hscroll as nat, look.budget as nat)]);
        one
    };
    let ghost all = row_lines(number@, text@, plain_regex(hl), *look, *theme, kw);
    let ghost before = plain_lines(out@);
    let n: usize = pieces.len();
    proof {
        assert(texts(pieces@) == row_pieces(text@, *look));
        assert(texts(pieces@).len() == pieces@.len());
        assert(before + all.take(0) =~= before);
    }
    let mut k: usize = 0;
    while k < n
        invariant
            k <= n,
            n == pieces@.len(),
            texts(pieces@) == row_pieces(text@, *look),
            all == row_lines(number@, text@, plain_regex(hl), *look, *theme, kw),
            all.len() == n,
            plain_lines(out@) == before + all.take(k as int),
        decreases n - k,
    {
        let mut spans: Vec<Span> = Vec::new();
        assert(plain_spans(spans@) =~= Seq::empty());
        if k == 0 {
            push_str(
                &mut spans,
                if look.cursor_marker {
                    "▶"
                } else {
                    " "
                },
                Style::strong(theme.cursor_marker),
            );
            let mut no = pad_left(number, look.no_width);
            no.append("│");
            push_span(&mut spans, no, Style::faint(theme.line_number));
            assert(plain_spans(spans@) =~= row_head(
                number@,
                look.no_width as nat,
                look.cursor_marker,
                *theme,
            ));
        } else {
            push_str(&mut spans, "↪", Style::faint(theme.line_number));
            push_span(&mut spans, blank_text(look.no_width), Style::plain(theme.line_number));
            push_str(&mut spans, "│", Style::faint(theme.line_number));
            assert(plain_spans(spans@) =~= row_tail_head(look.no_width as nat, *theme));
        }
        append_highlighted(
            &mut spans,
            pieces[k].as_str(),
            hl,
            look.cur,
            look.sel_row,
            theme,
            kw,
        );
        assert(texts(pieces@)[k as int] == pieces@[k as int]@);
        assert(plain_spans(spans@) == all[k as int]);
        push_line(out, spans);
        k += 1;
        assert(plain_lines(out@) =~= before + all.take(k as int));
    }
    assert(all.take(n as int) =~= all);
}

} // verus!
