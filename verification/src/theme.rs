//! The theme: colours and cursor shapes, by the section `[theme]` of the
//! configuration.
use vstd::prelude::*;
use crate::config::{entry, section, section_of, Section, SettingView};
use crate::history::stored_text;
use crate::text::{chars_of, same_text, trim_text, trimmed};

verus! {

/// The shape of the terminal's own cursor.
#[derive(Debug, Clone, Copy, PartialEq, Eq, Structural)]
pub enum CursorShape {
    Hidden,
    Block,
    Underline,
    Bar,
}

#[derive(Debug, Clone, Copy, PartialEq, Eq, Structural)]
pub enum Color {
    /// The terminal's own colour.
    Reset,
    Black,
    Red,
    Green,
    Yellow,
    Blue,
    Magenta,
    Cyan,
    Gray,
    DarkGray,
    LightRed,
    LightGreen,
    LightYellow,
    LightBlue,
    LightMagenta,
    LightCyan,
    White,
    Rgb(u8, u8, u8),
}

/// What a configuration can choose.
#[derive(Debug, Clone, Copy, PartialEq, Eq, Structural)]
pub struct Theme {
    /// Behind the row of the cursor or of the selection.
    pub cursor_line_bg: Color,
    /// The mark before that row.
    pub cursor_marker: Color,
    pub focus_border: Color,
    pub inactive_border: Color,
    /// Around the panels for help, history and choices.
    pub panel_border: Color,
    /// The line numbers and the rule beside them.
    pub line_number: Color,
    /// What a search matched.
    pub keyword: Color,
    pub cursor_normal: CursorShape,
    /// While a command is typed.
    pub cursor_input: CursorShape,
    pub text: Color,
    /// The text of the row of the cursor.
    pub cursor_line_text: Color,
    pub status_fg: Option<Color>,
    pub status_bg: Option<Color>,
    /// The prompt of a search down the file.
    pub prompt_fwd: Color,
    /// The prompt of a search up the file.
    pub prompt_back: Color,
}

/// The theme without a configuration.
pub open spec fn plain_theme() -> Theme {
    Theme {
        cursor_line_bg: Color::Blue,
        cursor_marker: Color::Cyan,
        focus_border: Color::Cyan,
        inactive_border: Color::DarkGray,
        panel_border: Color::Magenta,
        line_number: Color::DarkGray,
        keyword: Color::Yellow,
        cursor_normal: CursorShape::Hidden,
        cursor_input: CursorShape::Bar,
        text: Color::Reset,
        cursor_line_text: Color::White,
        status_fg: None,
        status_bg: None,
        prompt_fwd: Color::Cyan,
        prompt_back: Color::Magenta,
    }
}

/// A character in lower case, if it is an ASCII letter.
pub open spec fn lower(c: char) -> char {
    if 'A' <= c <= 'Z' {
        (c as u8 + 32) as char
    } else {
        c
    }
}

/// A text with its ASCII letters in lower case.
pub open spec fn lowered(s: Seq<char>) -> Seq<char> {
    s.map_values(|c: char| lower(c))
}

pub open spec fn named_color(s: Seq<char>) -> Option<Color> {
    if s == "black"@ {
        Some(Color::Black)
    } else if s == "red"@ {
        Some(Color::Red)
    } else if s == "green"@ {
        Some(Color::Green)
    } else if s == "yellow"@ {
        Some(Color::Yellow)
    } else if s == "blue"@ {
        Some(Color::Blue)
    } else if s == "magenta"@ {
        Some(Color::Magenta)
    } else if s == "cyan"@ {
        Some(Color::Cyan)
    } else if s == "gray"@ || s == "grey"@ {
        Some(Color::Gray)
    } else if s == "dark_gray"@ || s == "darkgrey"@ {
        Some(Color::DarkGray)
    } else if s == "light_red"@ {
        Some(Color::LightRed)
    } else if s == "light_green"@ {
        Some(Color::LightGreen)
    } else if s == "light_yellow"@ {
        Some(Color::LightYellow)
    } else if s == "light_blue"@ {
        Some(Color::LightBlue)
    } else if s == "light_magenta"@ {
        Some(Color::LightMagenta)
    } else if s == "light_cyan"@ {
        Some(Color::LightCyan)
    } else if s == "white"@ {
        Some(Color::White)
    } else if s == "reset"@ || s == "default"@ {
        Some(Color::Reset)
    } else {
        None
    }
}

/// A digit to base sixteen, in lower case.
pub open spec fn hex_digit(c: char) -> Option<u8> {
    if '0' <= c <= '9' {
        Some((c as u8 - '0' as u8) as u8)
    } else if 'a' <= c <= 'f' {
        Some((c as u8 - 'a' as u8 + 10) as u8)
    } else {
        None
    }
}

/// A number to base sixteen in two characters: two digits, or a plus sign and a
/// digit.
pub open spec fn hex_pair(a: char, b: char) -> Option<u8> {
    let high = if a == '+' {
        Some(0u8)
    } else {
        hex_digit(a)
    };
    match (high, hex_digit(b)) {
        (Some(x), Some(y)) => Some((x * 16 + y) as u8),
        _ => None,
    }
}

/// A colour given by its red, green and blue shares.
pub open spec fn rgb_color(s: Seq<char>) -> Option<Color> {
    let h = if s.len() > 0 && s[0] == '#' {
        s.skip(1)
    } else {
        s.skip(2)
    };
    let marked = (s.len() > 0 && s[0] == '#') || (s.len() >= 2 && s[0] == '0' && s[1] == 'x');
    if !marked || h.len() != 6 {
        None
    } else {
        match (hex_pair(h[0], h[1]), hex_pair(h[2], h[3]), hex_pair(h[4], h[5])) {
            (Some(r), Some(g), Some(b)) => Some(Color::Rgb(r, g, b)),
            _ => None,
        }
    }
}

/// The colour that a text names or gives.
pub open spec fn color_of(s: Seq<char>) -> Option<Color> {
    let t = lowered(trimmed(s));
    match named_color(t) {
        Some(c) => Some(c),
        None => rgb_color(t),
    }
}

/// The shape that a text names.
pub open spec fn shape_of(s: Seq<char>) -> Option<CursorShape> {
    let t = lowered(trimmed(s));
    if t == "hidden"@ {
        Some(CursorShape::Hidden)
    } else if t == "block"@ {
        Some(CursorShape::Block)
    } else if t == "underline"@ {
        Some(CursorShape::Underline)
    } else if t == "bar"@ {
        Some(CursorShape::Bar)
    } else {
        None
    }
}

/// The colour that a section gives to a name.
pub open spec fn color_at(s: Seq<(Seq<char>, SettingView)>, name: Seq<char>) -> Option<Color> {
    match entry(s, name) {
        Some(SettingView::Text(t)) => color_of(t),
        _ => None,
    }
}

/// The shape that a section gives to a name.
pub open spec fn shape_at(s: Seq<(Seq<char>, SettingView)>, name: Seq<char>) -> Option<
    CursorShape,
> {
    match entry(s, name) {
        Some(SettingView::Text(t)) => shape_of(t),
        _ => None,
    }
}

/// What was chosen, or else what stands without a choice.
pub open spec fn chosen<T>(choice: Option<T>, or: T) -> T {
    match choice {
        Some(c) => c,
        None => or,
    }
}

/// The theme that a section chooses: each setting that it does not give stays.
pub open spec fn theme_in(s: Seq<(Seq<char>, SettingView)>) -> Theme {
    let t = plain_theme();
    Theme {
        cursor_line_bg: chosen(color_at(s, "cursor_line_bg"@), t.cursor_line_bg),
        cursor_marker: chosen(color_at(s, "cursor_marker"@), t.cursor_marker),
        focus_border: chosen(color_at(s, "focus_border"@), t.focus_border),
        inactive_border: chosen(color_at(s, "inactive_border"@), t.inactive_border),
        panel_border: chosen(color_at(s, "panel_border"@), t.panel_border),
        line_number: chosen(color_at(s, "line_number"@), t.line_number),
        keyword: chosen(color_at(s, "keyword"@), t.keyword),
        cursor_normal: chosen(shape_at(s, "cursor_normal"@), t.cursor_normal),
        cursor_input: chosen(shape_at(s, "cursor_input"@), t.cursor_input),
        text: chosen(color_at(s, "text"@), t.text),
        cursor_line_text: chosen(color_at(s, "cursor_line_text"@), t.cursor_line_text),
        status_fg: color_at(s, "status_fg"@),
        status_bg: color_at(s, "status_bg"@),
        prompt_fwd: chosen(color_at(s, "prompt_fwd"@), t.prompt_fwd),
        prompt_back: chosen(color_at(s, "prompt_back"@), t.prompt_back),
    }
}

/// The theme of a configuration text.
pub open spec fn theme_of(text: Option<Seq<char>>) -> Theme {
    match text {
        None => plain_theme(),
        Some(t) => match section_of(t, "theme"@) {
            None => plain_theme(),
            Some(s) => theme_in(s),
        },
    }
}

pub fn lower_char(c: char) -> (r: char)
    ensures
        r == lower(c),
{
    if 'A' <= c && c <= 'Z' {
        (c as u8 + 32) as char
    } else {
        c
    }
}

/// A text with its ASCII letters in lower case.
pub fn lower_text(s: &str) -> (r: String)
    ensures
        r@ == lowered(s@),
{
    let chars = chars_of(s);
    let mut out = String::new();
    let n: usize = chars.len();
    let mut i: usize = 0;
    while i < n
        invariant
            i <= n,
            n == chars@.len(),
            chars@ == s@,
            out@ == lowered(s@.take(i as int)),
        decreases n - i,
    {
        out.push(lower_char(chars[i]));
        i += 1;
        assert(out@ =~= lowered(s@.take(i as int)));
    }
    assert(s@.take(n as int) =~= s@);
    out
}

fn color_by_name(s: &str) -> (r: Option<Color>)
    ensures
        r == named_color(s@),
{
    if same_text(s, "black") {
        Some(Color::Black)
    } else if same_text(s, "red") {
        Some(Color::Red)
    } else if same_text(s, "green") {
        Some(Color::Green)
    } else if same_text(s, "yellow") {
        Some(Color::Yellow)
    } else if same_text(s, "blue") {
        Some(Color::Blue)
    } else if same_text(s, "magenta") {
        Some(Color::Magenta)
    } else if same_text(s, "cyan") {
        Some(Color::Cyan)
    } else if same_text(s, "gray") || same_text(s, "grey") {
        Some(Color::Gray)
    } else if same_text(s, "dark_gray") || same_text(s, "darkgrey") {
        Some(Color::DarkGray)
    } else if same_text(s, "light_red") {
        Some(Color::LightRed)
    } else if same_text(s, "light_green") {
        Some(Color::LightGreen)
    } else if same_text(s, "light_yellow") {
        Some(Color::LightYellow)
    } else if same_text(s, "light_blue") {
        Some(Color::LightBlue)
    } else if same_text(s, "light_magenta") {
        Some(Color::LightMagenta)
    } else if same_text(s, "light_cyan") {
        Some(Color::LightCyan)
    } else if same_text(s, "white") {
        Some(Color::White)
    } else if same_text(s, "reset") || same_text(s, "default") {
        Some(Color::Reset)
    } else {
        None
    }
}

fn read_hex_digit(c: char) -> (r: Option<u8>)
    ensures
        r == hex_digit(c),
        r matches Some(d) ==> d < 16,
{
    if '0' <= c && c <= '9' {
        Some(c as u8 - '0' as u8)
    } else if 'a' <= c && c <= 'f' {
        Some(c as u8 - 'a' as u8 + 10)
    } else {
        None
    }
}

fn read_hex_pair(a: char, b: char) -> (r: Option<u8>)
    ensures
        r == hex_pair(a, b),
{
    let high: Option<u8> = if a == '+' {
        Some(0)
    } else {
        read_hex_digit(a)
    };
    match (high, read_hex_digit(b)) {
        (Some(x), Some(y)) => Some(x * 16 + y),
        _ => None,
    }
}

/// The colour that a text names, or gives as `#rrggbb`.
pub fn parse_color(s: &str) -> (r: Option<Color>)
    ensures
        r == color_of(s@),
{
    let t = lower_text(trim_text(s));
    if let Some(c) = color_by_name(t.as_str()) {
        return Some(c);
    }
    let h = chars_of(t.as_str());
    let n: usize = h.len();
    let skip: usize = if n > 0 && h[0] == '#' {
        1
    } else if n >= 2 && h[0] == '0' && h[1] == 'x' {
        2
    } else {
        return None;
    };
    if n - skip != 6 {
        return None;
    }
    let red = read_hex_pair(h[skip], h[skip + 1]);
    let green = read_hex_pair(h[skip + 2], h[skip + 3]);
    let blue = read_hex_pair(h[skip + 4], h[skip + 5]);
    match (red, green, blue) {
        (Some(x), Some(y), Some(z)) => Some(Color::Rgb(x, y, z)),
        _ => None,
    }
}

/// The shape that a text names.
pub fn parse_shape(s: &str) -> (r: Option<CursorShape>)
    ensures
        r == shape_of(s@),
{
    let t = lower_text(trim_text(s));
    if same_text(t.as_str(), "hidden") {
        Some(CursorShape::Hidden)
    } else if same_text(t.as_str(), "block") {
        Some(CursorShape::Block)
    } else if same_text(t.as_str(), "underline") {
        Some(CursorShape::Underline)
    } else if same_text(t.as_str(), "bar") {
        Some(CursorShape::Bar)
    } else {
        None
    }
}

fn section_color(s: &Section, name: &str) -> (r: Option<Color>)
    ensures
        r == color_at(s@, name@),
{
    match s.text(name) {
        None => None,
        Some(t) => parse_color(t),
    }
}

fn section_shape(s: &Section, name: &str) -> (r: Option<CursorShape>)
    ensures
        r == shape_at(s@, name@),
{
    match s.text(name) {
        None => None,
        Some(t) => parse_shape(t),
    }
}

fn color_or(choice: Option<Color>, or: Color) -> (r: Color)
    ensures
        r == chosen(choice, or),
{
    match choice {
        Some(c) => c,
        None => or,
    }
}

fn shape_or(choice: Option<CursorShape>, or: CursorShape) -> (r: CursorShape)
    ensures
        r == chosen(choice, or),
{
    match choice {
        Some(c) => c,
        None => or,
    }
}

impl Theme {
    pub fn default() -> (r: Self)
        ensures
            r == plain_theme(),
    {
        Theme {
            cursor_line_bg: Color::Blue,
            cursor_marker: Color::Cyan,
            focus_border: Color::Cyan,
            inactive_border: Color::DarkGray,
            panel_border: Color::Magenta,
            line_number: Color::DarkGray,
            keyword: Color::Yellow,
            cursor_normal: CursorShape::Hidden,
            cursor_input: CursorShape::Bar,
            text: Color::Reset,
            cursor_line_text: Color::White,
            status_fg: None,
            status_bg: None,
            prompt_fwd: Color::Cyan,
            prompt_back: Color::Magenta,
        }
    }

    /// The theme of a configuration text: its section `[theme]` over the
    /// defaults.
    pub fn from_toml(text: Option<&str>) -> (r: Self)
        ensures
            r == theme_of(stored_text(text)),
    {
        match text {
            None => Self::default(),
            Some(t) => match section(t, "theme") {
                None => Self::default(),
                Some(s) => Self::from_section(&s),
            },
        }
    }

    /// The theme that a section chooses.
    pub fn from_section(s: &Section) -> (r: Self)
        ensures
            r == theme_in(s@),
    {
        let t = Self::default();
        Theme {
            cursor_line_bg: color_or(section_color(s, "cursor_line_bg"), t.cursor_line_bg),
            cursor_marker: color_or(section_color(s, "cursor_marker"), t.cursor_marker),
            focus_border: color_or(section_color(s, "focus_border"), t.focus_border),
            inactive_border: color_or(section_color(s, "inactive_border"), t.inactive_border),
            panel_border: color_or(section_color(s, "panel_border"), t.panel_border),
            line_number: color_or(section_color(s, "line_number"), t.line_number),
            keyword: color_or(section_color(s, "keyword"), t.keyword),
            cursor_normal: shape_or(section_shape(s, "cursor_normal"), t.cursor_normal),
            cursor_input: shape_or(section_shape(s, "cursor_input"), t.cursor_input),
            text: color_or(section_color(s, "text"), t.text),
            cursor_line_text: color_or(section_color(s, "cursor_line_text"), t.cursor_line_text),
            status_fg: section_color(s, "status_fg"),
            status_bg: section_color(s, "status_bg"),
            prompt_fwd: color_or(section_color(s, "prompt_fwd"), t.prompt_fwd),
            prompt_back: color_or(section_color(s, "prompt_back"), t.prompt_back),
        }
    }

    /// The section `[theme]` of a first configuration.
    pub open spec fn template() -> Seq<char> {
        "[theme]\n# 光标/选中行背景：black red green yellow blue magenta cyan gray dark_gray light_red ... white\n# 或 \"#rrggbb\"\ncursor_line_bg = \"blue\"\ncursor_marker = \"cyan\"       # 行首 ▶ 光标标记\nfocus_border = \"cyan\"        # 焦点窗边框\ninactive_border = \"dark_gray\" # 非焦点窗边框\npanel_border = \"magenta\"     # 帮助/历史/目标选择面板边框\nline_number = \"dark_gray\"    # 行号与分隔线\nkeyword = \"yellow\"           # 匹配关键字\ncursor_normal = \"hidden\"     # 普通模式系统光标: hidden|block|underline|bar\ncursor_input = \"bar\"         # 命令输入(搜索/行号/历史)时系统光标\n"@
    }

    pub fn template_text() -> (r: &'static str)
        ensures
            r@ == Self::template(),
    {
        "[theme]\n# 光标/选中行背景：black red green yellow blue magenta cyan gray dark_gray light_red ... white\n# 或 \"#rrggbb\"\ncursor_line_bg = \"blue\"\ncursor_marker = \"cyan\"       # 行首 ▶ 光标标记\nfocus_border = \"cyan\"        # 焦点窗边框\ninactive_border = \"dark_gray\" # 非焦点窗边框\npanel_border = \"magenta\"     # 帮助/历史/目标选择面板边框\nline_number = \"dark_gray\"    # 行号与分隔线\nkeyword = \"yellow\"           # 匹配关键字\ncursor_normal = \"hidden\"     # 普通模式系统光标: hidden|block|underline|bar\ncursor_input = \"bar\"         # 命令输入(搜索/行号/历史)时系统光标\n"
    }
}

/// What a section does not give stays as it is without a configuration.
pub proof fn law_what_is_not_given_stays(s: Seq<(Seq<char>, SettingView)>)
    ensures
        entry(s, "cursor_line_bg"@) is None ==> theme_in(s).cursor_line_bg
            == plain_theme().cursor_line_bg,
        entry(s, "cursor_marker"@) is None ==> theme_in(s).cursor_marker
            == plain_theme().cursor_marker,
        entry(s, "focus_border"@) is None ==> theme_in(s).focus_border
            == plain_theme().focus_border,
        entry(s, "inactive_border"@) is None ==> theme_in(s).inactive_border
            == plain_theme().inactive_border,
        entry(s, "panel_border"@) is None ==> theme_in(s).panel_border
            == plain_theme().panel_border,
        entry(s, "line_number"@) is None ==> theme_in(s).line_number == plain_theme().line_number,
        entry(s, "keyword"@) is None ==> theme_in(s).keyword == plain_theme().keyword,
        entry(s, "cursor_normal"@) is None ==> theme_in(s).cursor_normal
            == plain_theme().cursor_normal,
        entry(s, "cursor_input"@) is None ==> theme_in(s).cursor_input
            == plain_theme().cursor_input,
{
}

/// The case of a colour's name, and white space around it, do not count.
pub proof fn law_color_names_ignore_case(s: Seq<char>, t: Seq<char>)
    requires
        lowered(trimmed(s)) == lowered(trimmed(t)),
    ensures
        color_of(s) == color_of(t),
        shape_of(s) == shape_of(t),
{
}

/// The digit to base sixteen for a number.
pub open spec fn hex_char(d: int) -> char {
    if d < 10 {
        (d + 48) as char
    } else {
        (d + 87) as char
    }
}

/// A colour that is written as `#rrggbb` is read as its three shares.
pub proof fn law_written_colors_are_read(r: u8, g: u8, b: u8, s: Seq<char>)
    requires
        trimmed(s) == s,
        s == seq!['#'] + seq![
            hex_char(r as int / 16),
            hex_char(r as int % 16),
            hex_char(g as int / 16),
            hex_char(g as int % 16),
            hex_char(b as int / 16),
            hex_char(b as int % 16),
        ],
    ensures
        color_of(s) == Some(Color::Rgb(r, g, b)),
{
    let t = lowered(s);
    assert(t =~= s);
    reveal_strlit("black");
    reveal_strlit("red");
    reveal_strlit("green");
    reveal_strlit("yellow");
    reveal_strlit("blue");
    reveal_strlit("magenta");
    reveal_strlit("cyan");
    reveal_strlit("gray");
    reveal_strlit("grey");
    reveal_strlit("dark_gray");
    reveal_strlit("darkgrey");
    reveal_strlit("light_red");
    reveal_strlit("light_green");
    reveal_strlit("light_yellow");
    reveal_strlit("light_blue");
    reveal_strlit("light_magenta");
    reveal_strlit("light_cyan");
    reveal_strlit("white");
    reveal_strlit("reset");
    reveal_strlit("default");
    assert(s[0] == '#');
    assert(named_color(s) is None);
    let h = s.skip(1);
    assert(h.len() == 6);
    lemma_hex(r);
    lemma_hex(g);
    lemma_hex(b);
    assert(h[0] == s[1] && h[1] == s[2] && h[2] == s[3] && h[3] == s[4] && h[4] == s[5] && h[5]
        == s[6]);
}

proof fn lemma_hex(x: u8)
    ensures
        hex_pair(hex_char(x as int / 16), hex_char(x as int % 16)) == Some(x),
{
    let hi = x as int / 16;
    let lo = x as int % 16;
    assert(0 <= hi < 16 && 0 <= lo < 16 && hi * 16 + lo == x);
}

/// What a section gives is taken: each colour under its own name, each shape of the
/// cursor under its own.
pub proof fn law_what_is_given_is_taken(s: Seq<(Seq<char>, SettingView)>, t: Seq<char>, c: Color)
    requires
        color_of(t) == Some(c),
    ensures
        entry(s, "cursor_line_bg"@) == Some(SettingView::Text(t)) ==> theme_in(s).cursor_line_bg
            == c,
        entry(s, "cursor_marker"@) == Some(SettingView::Text(t)) ==> theme_in(s).cursor_marker == c,
        entry(s, "focus_border"@) == Some(SettingView::Text(t)) ==> theme_in(s).focus_border == c,
        entry(s, "inactive_border"@) == Some(SettingView::Text(t)) ==> theme_in(s).inactive_border
            == c,
        entry(s, "panel_border"@) == Some(SettingView::Text(t)) ==> theme_in(s).panel_border == c,
        entry(s, "line_number"@) == Some(SettingView::Text(t)) ==> theme_in(s).line_number == c,
        entry(s, "keyword"@) == Some(SettingView::Text(t)) ==> theme_in(s).keyword == c,
        entry(s, "text"@) == Some(SettingView::Text(t)) ==> theme_in(s).text == c,
        entry(s, "cursor_line_text"@) == Some(SettingView::Text(t)) ==> theme_in(s).cursor_line_text
            == c,
        entry(s, "status_fg"@) == Some(SettingView::Text(t)) ==> theme_in(s).status_fg == Some(c),
        entry(s, "status_bg"@) == Some(SettingView::Text(t)) ==> theme_in(s).status_bg == Some(c),
        entry(s, "prompt_fwd"@) == Some(SettingView::Text(t)) ==> theme_in(s).prompt_fwd == c,
        entry(s, "prompt_back"@) == Some(SettingView::Text(t)) ==> theme_in(s).prompt_back == c,
{
}

/// A shape of the cursor that a section gives is taken: one for the modes in which
/// text is typed, one for the others.
pub proof fn law_given_shapes_are_taken(
    s: Seq<(Seq<char>, SettingView)>,
    t: Seq<char>,
    shape: CursorShape,
)
    requires
        shape_of(t) == Some(shape),
    ensures
        entry(s, "cursor_normal"@) == Some(SettingView::Text(t)) ==> theme_in(s).cursor_normal
            == shape,
        entry(s, "cursor_input"@) == Some(SettingView::Text(t)) ==> theme_in(s).cursor_input
            == shape,
{
}

/// Without settings the colours and shapes are those that a first configuration
/// names.
pub proof fn law_default_theme_is_the_one_named()
    ensures
        plain_theme().cursor_line_bg == Color::Blue,
        plain_theme().cursor_marker == Color::Cyan,
        plain_theme().focus_border == Color::Cyan,
        plain_theme().inactive_border == Color::DarkGray,
        plain_theme().panel_border == Color::Magenta,
        plain_theme().line_number == Color::DarkGray,
        plain_theme().keyword == Color::Yellow,
        plain_theme().cursor_normal == CursorShape::Hidden,
        plain_theme().cursor_input == CursorShape::Bar,
        theme_of(None) == plain_theme(),
{
}

} // verus!
