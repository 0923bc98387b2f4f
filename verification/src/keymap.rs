//! Key bindings: the default table and what a configuration puts over it.
//!
//! A key is written as itself (`j`, `/`, `0`), by the name of a function key
//! (`tab`, `up`, `pgdn`, `f1`; a blank is `space`), or with `C-` before it for
//! the control key (`C-d`, `C-left`). The section `[keys]` of the configuration
//! gives an action one key, several keys with commas between them, or a list of
//! keys; an action that it does not name keeps its default keys.
use vstd::prelude::*;
use crate::config::{section, section_of, Section, Setting, SettingView};
use crate::history::stored_text;
use crate::text::{
    chars_of, holds_char, join_texts, joined, same_text, sort_texts, sorted_texts, split,
    split_text, texts, to_upper, unpad_text, unpadded, uppered,
};
use crate::theme::{lower, lower_char, lower_text, lowered};

verus! {

/// What a terminal reports of a key.
#[derive(Debug, Clone, Copy, PartialEq, Eq, Structural)]
pub enum KeyCode {
    Char(char),
    Tab,
    BackTab,
    Up,
    Down,
    Left,
    Right,
    PageUp,
    PageDown,
    Enter,
    Esc,
    Home,
    End,
    Backspace,
    Delete,
    F(u8),
    Other,
}

/// A key that was pressed, and whether the control key was held.
#[derive(Debug, Clone, Copy, PartialEq, Eq, Structural)]
pub struct KeyPress {
    pub code: KeyCode,
    pub ctrl: bool,
}

/// A key as a binding names it: a character or a function key, and whether
/// the control key goes with it.
#[derive(Debug, Clone, Copy, PartialEq, Eq, Hash)]
pub enum KeySpec {
    Char(char, bool),
    Fun(&'static str, bool),
}

/// A key as plain values.
#[verifier::ext_equal]
pub enum KeyView {
    Char(char, bool),
    Fun(Seq<char>, bool),
}

impl View for KeySpec {
    type V = KeyView;

    open spec fn view(&self) -> KeyView {
        match self {
            KeySpec::Char(c, ctrl) => KeyView::Char(*c, *ctrl),
            KeySpec::Fun(f, ctrl) => KeyView::Fun(f@, *ctrl),
        }
    }
}

#[derive(Debug, Clone, Copy, PartialEq, Eq, Hash, Structural)]
pub enum Action {
    Quit,
    FocusNext,
    FocusPrev,
    ScrollLineDown,
    ScrollLineUp,
    HalfDown,
    HalfUp,
    PageDown,
    PageUp,
    ToTop,
    ToBottom,
    SearchFwd,
    SearchBack,
    MatchNext,
    MatchPrev,
    ClearSearch,
    OpenMatchPane,
    GotoLine,
    Zoom,
    Export,
    Follow,
    HLeft,
    HRight,
    HHome,
    HEnd,
    Wrap,
    ClosePane,
    EnterJump,
    Balance,
    NudgeLeft,
    NudgeRight,
    NudgeUp,
    NudgeDown,
    History,
    Help,
    ToggleCase,
    ToggleWord,
}

/// The names of the function keys.
pub open spec fn function_keys() -> Seq<Seq<char>> {
    seq![
        "tab"@,
        "backtab"@,
        "up"@,
        "down"@,
        "left"@,
        "right"@,
        "pgup"@,
        "pgdn"@,
        "enter"@,
        "esc"@,
        "home"@,
        "end"@,
        "space"@,
        "backspace"@,
        "delete"@,
        "f1"@,
        "f2"@,
        "f3"@,
        "f4"@,
        "f5"@,
        "f6"@,
        "f7"@,
        "f8"@,
        "f9"@,
        "f10"@,
        "f11"@,
        "f12"@,
    ]
}

/// The name of the function key with a number.
pub open spec fn f_key(n: u8) -> Seq<char> {
    function_keys()[n + 14]
}

/// The key of a character: a blank is the function key `space`; with the
/// control key a letter is taken in lower case.
pub open spec fn char_key(c: char, ctrl: bool) -> KeyView {
    if c == ' ' {
        KeyView::Fun("space"@, ctrl)
    } else if ctrl {
        KeyView::Char(lower(c), ctrl)
    } else {
        KeyView::Char(c, ctrl)
    }
}

/// The key that a terminal's report stands for.
pub open spec fn key_pressed(k: KeyPress) -> Option<KeyView> {
    match k.code {
        KeyCode::Char(c) => Some(char_key(c, k.ctrl)),
        KeyCode::Tab => Some(KeyView::Fun("tab"@, k.ctrl)),
        KeyCode::BackTab => Some(KeyView::Fun("backtab"@, k.ctrl)),
        KeyCode::Up => Some(KeyView::Fun("up"@, k.ctrl)),
        KeyCode::Down => Some(KeyView::Fun("down"@, k.ctrl)),
        KeyCode::Left => Some(KeyView::Fun("left"@, k.ctrl)),
        KeyCode::Right => Some(KeyView::Fun("right"@, k.ctrl)),
        KeyCode::PageUp => Some(KeyView::Fun("pgup"@, k.ctrl)),
        KeyCode::PageDown => Some(KeyView::Fun("pgdn"@, k.ctrl)),
        KeyCode::Enter => Some(KeyView::Fun("enter"@, k.ctrl)),
        KeyCode::Esc => Some(KeyView::Fun("esc"@, k.ctrl)),
        KeyCode::Home => Some(KeyView::Fun("home"@, k.ctrl)),
        KeyCode::End => Some(KeyView::Fun("end"@, k.ctrl)),
        KeyCode::Backspace => Some(KeyView::Fun("backspace"@, k.ctrl)),
        KeyCode::Delete => Some(KeyView::Fun("delete"@, k.ctrl)),
        KeyCode::F(n) => if 1 <= n <= 12 {
            Some(KeyView::Fun(f_key(n), k.ctrl))
        } else {
            None
        },
        KeyCode::Other => None,
    }
}

/// The key that a text names.
pub open spec fn key_named(s: Seq<char>) -> Option<KeyView> {
    let ctrl = s.len() >= 2 && s[0] == 'C' && s[1] == '-';
    let rest = if ctrl {
        s.skip(2)
    } else {
        s
    };
    if rest.len() == 0 {
        None
    } else if function_keys().contains(lowered(rest)) {
        Some(KeyView::Fun(lowered(rest), ctrl))
    } else if rest.len() == 1 {
        Some(char_key(rest[0], ctrl))
    } else {
        None
    }
}

/// The action with a name.
pub open spec fn action_named(s: Seq<char>) -> Option<Action> {
    if s == "quit"@ {
        Some(Action::Quit)
    } else if s == "focus_next"@ {
        Some(Action::FocusNext)
    } else if s == "focus_prev"@ {
        Some(Action::FocusPrev)
    } else if s == "scroll_line_down"@ {
        Some(Action::ScrollLineDown)
    } else if s == "scroll_line_up"@ {
        Some(Action::ScrollLineUp)
    } else if s == "half_down"@ {
        Some(Action::HalfDown)
    } else if s == "half_up"@ {
        Some(Action::HalfUp)
    } else if s == "page_down"@ {
        Some(Action::PageDown)
    } else if s == "page_up"@ {
        Some(Action::PageUp)
    } else if s == "to_top"@ {
        Some(Action::ToTop)
    } else if s == "to_bottom"@ {
        Some(Action::ToBottom)
    } else if s == "search_fwd"@ {
        Some(Action::SearchFwd)
    } else if s == "search_back"@ {
        Some(Action::SearchBack)
    } else if s == "match_next"@ {
        Some(Action::MatchNext)
    } else if s == "match_prev"@ {
        Some(Action::MatchPrev)
    } else if s == "clear_search"@ {
        Some(Action::ClearSearch)
    } else if s == "open_match_pane"@ {
        Some(Action::OpenMatchPane)
    } else if s == "goto_line"@ {
        Some(Action::GotoLine)
    } else if s == "zoom"@ {
        Some(Action::Zoom)
    } else if s == "export"@ {
        Some(Action::Export)
    } else if s == "follow"@ {
        Some(Action::Follow)
    } else if s == "h_left"@ {
        Some(Action::HLeft)
    } else if s == "h_right"@ {
        Some(Action::HRight)
    } else if s == "h_home"@ {
        Some(Action::HHome)
    } else if s == "h_end"@ {
        Some(Action::HEnd)
    } else if s == "wrap"@ {
        Some(Action::Wrap)
    } else if s == "close_pane"@ {
        Some(Action::ClosePane)
    } else if s == "enter_jump"@ {
        Some(Action::EnterJump)
    } else if s == "balance"@ {
        Some(Action::Balance)
    } else if s == "nudge_right"@ {
        Some(Action::NudgeRight)
    } else if s == "nudge_left"@ {
        Some(Action::NudgeLeft)
    } else if s == "nudge_up"@ {
        Some(Action::NudgeUp)
    } else if s == "nudge_down"@ {
        Some(Action::NudgeDown)
    } else if s == "history"@ {
        Some(Action::History)
    } else if s == "help"@ {
        Some(Action::Help)
    } else if s == "toggle_case"@ {
        Some(Action::ToggleCase)
    } else if s == "toggle_word"@ {
        Some(Action::ToggleWord)
    } else {
        None
    }
}

/// What the help says of an action.
pub open spec fn label_of(action: Action) -> Seq<char> {
    match action {
        Action::Quit => "退出程序"@,
        Action::FocusNext => "下一窗格 (Tab)"@,
        Action::FocusPrev => "上一窗格"@,
        Action::ScrollLineDown => "下移一行"@,
        Action::ScrollLineUp => "上移一行"@,
        Action::HalfDown => "下半屏"@,
        Action::HalfUp => "上半屏"@,
        Action::PageDown => "下翻一屏"@,
        Action::PageUp => "上翻一屏"@,
        Action::ToTop => "到文件首"@,
        Action::ToBottom => "到文件尾"@,
        Action::SearchFwd => "向下搜索 / 窗内搜索"@,
        Action::SearchBack => "向上搜索"@,
        Action::MatchNext => "下一个匹配"@,
        Action::MatchPrev => "上一个匹配"@,
        Action::ClearSearch => "清除搜索/高亮"@,
        Action::OpenMatchPane => "生成结果窗（目标选择）"@,
        Action::GotoLine => "跳转行号"@,
        Action::Zoom => "放大/还原当前窗"@,
        Action::Export => "导出当前内容到文件"@,
        Action::Follow => "tail 跟随"@,
        Action::HLeft => "水平左移"@,
        Action::HRight => "水平右移"@,
        Action::HHome => "到行首"@,
        Action::HEnd => "到行尾"@,
        Action::Wrap => "自动换行开关"@,
        Action::ClosePane => "关闭结果窗"@,
        Action::EnterJump => "结果窗跳到文件上下文"@,
        Action::Balance => "窗格均衡"@,
        Action::NudgeLeft => "缩小宽度"@,
        Action::NudgeRight => "增大宽度"@,
        Action::NudgeUp => "增大高度"@,
        Action::NudgeDown => "缩小高度"@,
        Action::History => "历史关键字模糊选择"@,
        Action::Help => "帮助"@,
        Action::ToggleCase => "大小写模式循环（智能/忽略/区分）"@,
        Action::ToggleWord => "整词匹配开关"@,
    }
}

/// The default keys of each action, by its name.
pub open spec fn default_table() -> Seq<(Seq<char>, Seq<Seq<char>>)> {
    seq![
        ("quit"@, seq!["q"@, "C-c"@]),
        ("focus_next"@, seq!["tab"@]),
        ("focus_prev"@, seq!["backtab"@]),
        ("scroll_line_down"@, seq!["j"@, "down"@, "C-n"@]),
        ("scroll_line_up"@, seq!["k"@, "up"@, "C-p"@]),
        ("half_down"@, seq!["d"@, "C-d"@]),
        ("half_up"@, seq!["u"@, "C-u"@]),
        ("page_down"@, seq!["f"@, "pgdn"@]),
        ("page_up"@, seq!["b"@, "pgup"@]),
        ("to_top"@, seq!["g"@]),
        ("to_bottom"@, seq!["G"@]),
        ("search_fwd"@, seq!["/"@]),
        ("search_back"@, seq!["?"@]),
        ("match_next"@, seq!["n"@]),
        ("match_prev"@, seq!["N"@]),
        ("clear_search"@, seq!["c"@, "R"@]),
        ("open_match_pane"@, seq![";"@]),
        ("goto_line"@, seq![":"@]),
        ("zoom"@, seq!["z"@]),
        ("export"@, seq!["e"@]),
        ("follow"@, seq!["F"@]),
        ("h_left"@, seq!["h"@, "left"@]),
        ("h_right"@, seq!["l"@, "right"@]),
        ("h_home"@, seq!["0"@, "home"@]),
        ("h_end"@, seq!["$"@]),
        ("wrap"@, seq!["w"@]),
        ("close_pane"@, seq!["x"@]),
        ("enter_jump"@, seq!["enter"@]),
        ("balance"@, seq!["="@]),
        ("nudge_right"@, seq!["C-right"@]),
        ("nudge_left"@, seq!["C-left"@]),
        ("nudge_up"@, seq!["C-up"@]),
        ("nudge_down"@, seq!["C-down"@]),
        ("history"@, seq!["H"@]),
        ("help"@, seq!["f1"@]),
        ("toggle_case"@, seq!["C"@]),
        ("toggle_word"@, seq!["W"@]),
    ]
}

/// The names of the function keys.
fn function_key_names() -> (r: Vec<&'static str>)
    ensures
        r@.len() == function_keys().len(),
        forall|i: int| 0 <= i < r@.len() ==> (#[trigger] r@[i])@ == function_keys()[i],
{
    let r: Vec<&'static str> = vec![
        "tab",
        "backtab",
        "up",
        "down",
        "left",
        "right",
        "pgup",
        "pgdn",
        "enter",
        "esc",
        "home",
        "end",
        "space",
        "backspace",
        "delete",
        "f1",
        "f2",
        "f3",
        "f4",
        "f5",
        "f6",
        "f7",
        "f8",
        "f9",
        "f10",
        "f11",
        "f12",
    ];
    r
}

/// The default keys of each action, by its name.
fn default_bindings() -> (r: Vec<(&'static str, Vec<&'static str>)>)
    ensures
        r@.map_values(|e: (&'static str, Vec<&'static str>)| (e.0@, names_of(e.1@)))
            == default_table(),
{
    let r: Vec<(&'static str, Vec<&'static str>)> = vec![
        ("quit", vec!["q", "C-c"]),
        ("focus_next", vec!["tab"]),
        ("focus_prev", vec!["backtab"]),
        ("scroll_line_down", vec!["j", "down", "C-n"]),
        ("scroll_line_up", vec!["k", "up", "C-p"]),
        ("half_down", vec!["d", "C-d"]),
        ("half_up", vec!["u", "C-u"]),
        ("page_down", vec!["f", "pgdn"]),
        ("page_up", vec!["b", "pgup"]),
        ("to_top", vec!["g"]),
        ("to_bottom", vec!["G"]),
        ("search_fwd", vec!["/"]),
        ("search_back", vec!["?"]),
        ("match_next", vec!["n"]),
        ("match_prev", vec!["N"]),
        ("clear_search", vec!["c", "R"]),
        ("open_match_pane", vec![";"]),
        ("goto_line", vec![":"]),
        ("zoom", vec!["z"]),
        ("export", vec!["e"]),
        ("follow", vec!["F"]),
        ("h_left", vec!["h", "left"]),
        ("h_right", vec!["l", "right"]),
        ("h_home", vec!["0", "home"]),
        ("h_end", vec!["$"]),
        ("wrap", vec!["w"]),
        ("close_pane", vec!["x"]),
        ("enter_jump", vec!["enter"]),
        ("balance", vec!["="]),
        ("nudge_right", vec!["C-right"]),
        ("nudge_left", vec!["C-left"]),
        ("nudge_up", vec!["C-up"]),
        ("nudge_down", vec!["C-down"]),
        ("history", vec!["H"]),
        ("help", vec!["f1"]),
        ("toggle_case", vec!["C"]),
        ("toggle_word", vec!["W"]),
    ];
    proof {
        let seen = r@.map_values(|e: (&'static str, Vec<&'static str>)| (e.0@, names_of(e.1@)));
        assert forall|i: int| 0 <= i < seen.len() implies #[trigger] seen[i]
            == default_table()[i] by {
            assert(seen[i].1 =~= default_table()[i].1);
        }
        assert(seen =~= default_table());
    }
    r
}

/// Names as plain values.
pub open spec fn names_of(v: Seq<&'static str>) -> Seq<Seq<char>> {
    v.map_values(|s: &'static str| s@)
}

pub fn action_by_name(name: &str) -> (r: Option<Action>)
    ensures
        r == action_named(name@),
{
    if same_text(name, "quit") {
        Some(Action::Quit)
    } else if same_text(name, "focus_next") {
        Some(Action::FocusNext)
    } else if same_text(name, "focus_prev") {
        Some(Action::FocusPrev)
    } else if same_text(name, "scroll_line_down") {
        Some(Action::ScrollLineDown)
    } else if same_text(name, "scroll_line_up") {
        Some(Action::ScrollLineUp)
    } else if same_text(name, "half_down") {
        Some(Action::HalfDown)
    } else if same_text(name, "half_up") {
        Some(Action::HalfUp)
    } else if same_text(name, "page_down") {
        Some(Action::PageDown)
    } else if same_text(name, "page_up") {
        Some(Action::PageUp)
    } else if same_text(name, "to_top") {
        Some(Action::ToTop)
    } else if same_text(name, "to_bottom") {
        Some(Action::ToBottom)
    } else if same_text(name, "search_fwd") {
        Some(Action::SearchFwd)
    } else if same_text(name, "search_back") {
        Some(Action::SearchBack)
    } else if same_text(name, "match_next") {
        Some(Action::MatchNext)
    } else if same_text(name, "match_prev") {
        Some(Action::MatchPrev)
    } else if same_text(name, "clear_search") {
        Some(Action::ClearSearch)
    } else if same_text(name, "open_match_pane") {
        Some(Action::OpenMatchPane)
    } else if same_text(name, "goto_line") {
        Some(Action::GotoLine)
    } else if same_text(name, "zoom") {
        Some(Action::Zoom)
    } else if same_text(name, "export") {
        Some(Action::Export)
    } else if same_text(name, "follow") {
        Some(Action::Follow)
    } else if same_text(name, "h_left") {
        Some(Action::HLeft)
    } else if same_text(name, "h_right") {
        Some(Action::HRight)
    } else if same_text(name, "h_home") {
        Some(Action::HHome)
    } else if same_text(name, "h_end") {
        Some(Action::HEnd)
    } else if same_text(name, "wrap") {
        Some(Action::Wrap)
    } else if same_text(name, "close_pane") {
        Some(Action::ClosePane)
    } else if same_text(name, "enter_jump") {
        Some(Action::EnterJump)
    } else if same_text(name, "balance") {
        Some(Action::Balance)
    } else if same_text(name, "nudge_right") {
        Some(Action::NudgeRight)
    } else if same_text(name, "nudge_left") {
        Some(Action::NudgeLeft)
    } else if same_text(name, "nudge_up") {
        Some(Action::NudgeUp)
    } else if same_text(name, "nudge_down") {
        Some(Action::NudgeDown)
    } else if same_text(name, "history") {
        Some(Action::History)
    } else if same_text(name, "help") {
        Some(Action::Help)
    } else if same_text(name, "toggle_case") {
        Some(Action::ToggleCase)
    } else if same_text(name, "toggle_word") {
        Some(Action::ToggleWord)
    } else {
        None
    }
}

fn f_key_name(n: u8) -> (r: &'static str)
    requires
        1 <= n <= 12,
    ensures
        r@ == f_key(n),
{
    match n {
        1 => "f1",
        2 => "f2",
        3 => "f3",
        4 => "f4",
        5 => "f5",
        6 => "f6",
        7 => "f7",
        8 => "f8",
        9 => "f9",
        10 => "f10",
        11 => "f11",
        _ => "f12",
    }
}

impl KeySpec {
    /// The key of a character.
    fn of_char(c: char, ctrl: bool) -> (r: KeySpec)
        ensures
            r@ == char_key(c, ctrl),
    {
        if c == ' ' {
            KeySpec::Fun("space", ctrl)
        } else if ctrl {
            KeySpec::Char(lower_char(c), ctrl)
        } else {
            KeySpec::Char(c, ctrl)
        }
    }

    /// The key that a text names; `None` if it names none.
    pub fn parse(s: &str) -> (r: Option<KeySpec>)
        ensures
            match r {
                Some(k) => key_named(s@) == Some(k@),
                None => key_named(s@) is None,
            },
    {
        let chars = chars_of(s);
        let n: usize = chars.len();
        let ctrl: bool = n >= 2 && chars[0] == 'C' && chars[1] == '-';
        let skip: usize = if ctrl {
            2
        } else {
            0
        };
        let rest = s.substring_char(skip, n);
        proof {
            assert(rest@ =~= if ctrl {
                s@.skip(2)
            } else {
                s@
            });
        }
        if skip == n {
            return None;
        }
        let lower_rest = lower_text(rest);
        let funs = function_key_names();
        let count: usize = funs.len();
        let mut i: usize = 0;
        while i < count
            invariant
                i <= count,
                count == funs@.len(),
                funs@.len() == function_keys().len(),
                forall|k: int|
                    0 <= k < funs@.len() ==> (#[trigger] funs@[k])@ == function_keys()[k],
                forall|k: int| 0 <= k < i ==> #[trigger] function_keys()[k] != lower_rest@,
                lower_rest@ == lowered(rest@),
                rest@.len() > 0,
                ctrl == (s@.len() >= 2 && s@[0] == 'C' && s@[1] == '-'),
                rest@ == if ctrl {
                    s@.skip(2)
                } else {
                    s@
                },
            decreases count - i,
        {
            if same_text(funs[i], lower_rest.as_str()) {
                assert(function_keys()[i as int] == lower_rest@);
                return Some(KeySpec::Fun(funs[i], ctrl));
            }
            assert(function_keys()[i as int] != lower_rest@);
            i += 1;
        }
        if n - skip == 1 {
            let c: char = chars[skip];
            assert(rest@[0] == c);
            return Some(KeySpec::of_char(c, ctrl));
        }
        None
    }

    /// The key that a terminal's report stands for.
    pub fn from_key(key: &KeyPress) -> (r: Option<KeySpec>)
        ensures
            match r {
                Some(k) => key_pressed(*key) == Some(k@),
                None => key_pressed(*key) is None,
            },
    {
        let ctrl: bool = key.ctrl;
        match key.code {
            KeyCode::Char(c) => Some(KeySpec::of_char(c, ctrl)),
            KeyCode::Tab => Some(KeySpec::Fun("tab", ctrl)),
            KeyCode::BackTab => Some(KeySpec::Fun("backtab", ctrl)),
            KeyCode::Up => Some(KeySpec::Fun("up", ctrl)),
            KeyCode::Down => Some(KeySpec::Fun("down", ctrl)),
            KeyCode::Left => Some(KeySpec::Fun("left", ctrl)),
            KeyCode::Right => Some(KeySpec::Fun("right", ctrl)),
            KeyCode::PageUp => Some(KeySpec::Fun("pgup", ctrl)),
            KeyCode::PageDown => Some(KeySpec::Fun("pgdn", ctrl)),
            KeyCode::Enter => Some(KeySpec::Fun("enter", ctrl)),
            KeyCode::Esc => Some(KeySpec::Fun("esc", ctrl)),
            KeyCode::Home => Some(KeySpec::Fun("home", ctrl)),
            KeyCode::End => Some(KeySpec::Fun("end", ctrl)),
            KeyCode::Backspace => Some(KeySpec::Fun("backspace", ctrl)),
            KeyCode::Delete => Some(KeySpec::Fun("delete", ctrl)),
            KeyCode::F(n) => if 1 <= n && n <= 12 {
                Some(KeySpec::Fun(f_key_name(n), ctrl))
            } else {
                None
            },
            KeyCode::Other => None,
        }
    }

    /// Whether two keys are the same.
    pub fn same(&self, other: &KeySpec) -> (r: bool)
        ensures
            r == (self@ == other@),
    {
        match (self, other) {
            (KeySpec::Char(c, x), KeySpec::Char(d, y)) => *c == *d && *x == *y,
            (KeySpec::Fun(f, x), KeySpec::Fun(g, y)) => same_text(f, g) && *x == *y,
            _ => false,
        }
    }
}

/// The bindings that pairs make: of two for one key the later holds.
pub open spec fn map_of(pairs: Seq<(KeyView, Action)>) -> Map<KeyView, Action>
    decreases pairs.len(),
{
    if pairs.len() == 0 {
        Map::empty()
    } else {
        map_of(pairs.drop_last()).insert(pairs.last().0, pairs.last().1)
    }
}

/// The bindings with the keys that texts name bound to an action.
pub open spec fn with_keys(
    m: Map<KeyView, Action>,
    action: Action,
    keys: Seq<Seq<char>>,
) -> Map<KeyView, Action>
    decreases keys.len(),
{
    if keys.len() == 0 {
        m
    } else {
        let front = with_keys(m, action, keys.drop_last());
        match key_named(keys.last()) {
            Some(k) => front.insert(k, action),
            None => front,
        }
    }
}

/// The bindings of a table; names of no action are passed over.
pub open spec fn table_bound(table: Seq<(Seq<char>, Seq<Seq<char>>)>) -> Map<KeyView, Action>
    decreases table.len(),
{
    if table.len() == 0 {
        Map::empty()
    } else {
        let front = table_bound(table.drop_last());
        match action_named(table.last().0) {
            Some(act) => with_keys(front, act, table.last().1),
            None => front,
        }
    }
}

/// The bindings without those to an action.
pub open spec fn without_action(m: Map<KeyView, Action>, action: Action) -> Map<KeyView, Action> {
    m.restrict(Set::new(|k: KeyView| m.dom().contains(k) && m[k] != action))
}

/// The keys that one text lists: a text that names a key is that key, another
/// one holds keys with commas, and perhaps blanks, between them.
pub open spec fn keys_in(s: Seq<char>) -> Seq<Seq<char>> {
    if key_named(s) is Some || !s.contains(',') {
        seq![s]
    } else {
        split(s, ',').map_values(|part: Seq<char>| unpadded(part))
    }
}

/// The keys that a setting lists.
pub open spec fn keys_listed(setting: SettingView) -> Option<Seq<Seq<char>>> {
    match setting {
        SettingView::Text(s) => Some(keys_in(s)),
        SettingView::Texts(v) => Some(v),
        _ => None,
    }
}

/// The bindings after one setting of a configuration.
pub open spec fn rebound(
    m: Map<KeyView, Action>,
    name: Seq<char>,
    setting: SettingView,
) -> Map<KeyView, Action> {
    match (action_named(name), keys_listed(setting)) {
        (Some(act), Some(keys)) => with_keys(without_action(m, act), act, keys),
        _ => m,
    }
}

/// The bindings after the settings of a section, one after the other.
pub open spec fn overridden(
    m: Map<KeyView, Action>,
    settings: Seq<(Seq<char>, SettingView)>,
) -> Map<KeyView, Action>
    decreases settings.len(),
{
    if settings.len() == 0 {
        m
    } else {
        rebound(overridden(m, settings.drop_last()), settings.last().0, settings.last().1)
    }
}

/// The bindings of a configuration text.
pub open spec fn bindings_of(text: Option<Seq<char>>) -> Map<KeyView, Action> {
    let m = table_bound(default_table());
    match text {
        None => m,
        Some(t) => match section_of(t, "keys"@) {
            None => m,
            Some(s) => overridden(m, s),
        },
    }
}

/// How the help shows a key.
pub open spec fn key_text(k: KeyView) -> Seq<char> {
    match k {
        KeyView::Char(c, false) => seq![c],
        KeyView::Char(c, true) => "C-"@ + seq![c],
        KeyView::Fun(f, false) => uppered(f),
        KeyView::Fun(f, true) => "C-"@ + uppered(f),
    }
}

/// How the help shows keys.
pub open spec fn key_texts(keys: Seq<KeyView>) -> Seq<Seq<char>> {
    keys.map_values(|k: KeyView| key_text(k))
}

/// Whether `keys` are the keys of an action, each once.
pub open spec fn keys_bound(m: Map<KeyView, Action>, action: Action, keys: Seq<KeyView>) -> bool {
    &&& keys.no_duplicates()
    &&& forall|k: KeyView| #[trigger]
        keys.contains(k) <==> m.dom().contains(k) && m[k] == action
}

/// Whether a text lists the keys of an action: how they are shown, in the
/// order of texts.
pub open spec fn lists_keys(m: Map<KeyView, Action>, action: Action, list: Seq<char>) -> bool {
    exists|keys: Seq<KeyView>, shown: Seq<Seq<char>>|
        {
            &&& #[trigger] keys_bound(m, action, keys)
            &&& #[trigger] sorted_texts(shown)
            &&& shown.to_multiset() == key_texts(keys).to_multiset()
            &&& list == joined(shown, "  /  "@)
        }
}

/// The keys that pairs bind to an action.
spec fn keys_of(pairs: Seq<(KeyView, Action)>, action: Action) -> Seq<KeyView>
    decreases pairs.len(),
{
    if pairs.len() == 0 {
        Seq::empty()
    } else {
        let front = keys_of(pairs.drop_last(), action);
        if pairs.last().1 == action {
            front.push(pairs.last().0)
        } else {
            front
        }
    }
}

/// A text in double quotes.
pub open spec fn quoted(s: Seq<char>) -> Seq<char> {
    "\""@ + s + "\""@
}

/// The line of a configuration for an action.
pub open spec fn template_line(name: Seq<char>, keys: Seq<Seq<char>>) -> Seq<char> {
    name + " = ["@ + joined(keys.map_values(|k: Seq<char>| quoted(k)), ", "@) + "]\n"@
}

/// The lines of a configuration for a table.
pub open spec fn template_lines(table: Seq<(Seq<char>, Seq<Seq<char>>)>) -> Seq<char>
    decreases table.len(),
{
    if table.len() == 0 {
        Seq::empty()
    } else {
        template_lines(table.drop_last()) + template_line(table.last().0, table.last().1)
    }
}

/// The section `[keys]` of a first configuration.
pub open spec fn keys_template() -> Seq<char> {
    "# logviewer 键位配置\n# 动作 = 键 或 键列表；未列出的动作保持默认。\n# 键格式见 src/keymap.rs 顶部注释。\n[keys]\n"@
        + template_lines(default_table())
}

pub struct Keymap {
    map: Vec<(KeySpec, Action)>,
}

/// Bindings as plain values.
pub open spec fn plain_pairs(v: Seq<(KeySpec, Action)>) -> Seq<(KeyView, Action)> {
    v.map_values(|e: (KeySpec, Action)| (e.0@, e.1))
}

impl View for Keymap {
    type V = Map<KeyView, Action>;

    closed spec fn view(&self) -> Map<KeyView, Action> {
        map_of(self.pairs())
    }
}

impl Keymap {
    /// The bindings, in the order in which they were made.
    pub closed spec fn pairs(&self) -> Seq<(KeyView, Action)> {
        plain_pairs(self.map@)
    }

    /// Whether no key is bound twice.
    pub open spec fn wf(&self) -> bool {
        forall|i: int, j: int|
            0 <= i < j < self.pairs().len() ==> (#[trigger] self.pairs()[i]).0 != (
            #[trigger] self.pairs()[j]).0
    }

    fn empty() -> (r: Self)
        ensures
            r.wf(),
            r@ == Map::<KeyView, Action>::empty(),
    {
        let r = Keymap { map: Vec::new() };
        assert(r.pairs() =~= Seq::empty());
        r
    }

    /// The place of a key's binding.
    fn find(&self, spec: &KeySpec) -> (r: Option<usize>)
        requires
            self.wf(),
        ensures
            match r {
                Some(i) => {
                    &&& i < self.map@.len()
                    &&& self.pairs()[i as int].0 == spec@
                    &&& self@.dom().contains(spec@)
                    &&& self@[spec@] == self.map@[i as int].1
                },
                None => {
                    &&& !self@.dom().contains(spec@)
                    &&& forall|i: int| 0 <= i < self.pairs().len() ==> (#[trigger] self.pairs()[i]).0 != spec@
                },
            },
    {
        let n: usize = self.map.len();
        let mut i: usize = 0;
        while i < n
            invariant
                i <= n,
                n == self.map@.len(),
                self.wf(),
                forall|k: int| 0 <= k < i ==> (#[trigger] self.pairs()[k]).0 != spec@,
            decreases n - i,
        {
            assert(self.pairs()[i as int] == (self.map@[i as int].0@, self.map@[i as int].1));
            if self.map[i].0.same(spec) {
                proof {
                    lemma_map_of(self.pairs(), spec@);
                    lemma_map_of_at(self.pairs(), i as int);
                }
                return Some(i);
            }
            i += 1;
        }
        proof {
            lemma_map_of(self.pairs(), spec@);
        }
        None
    }

    /// Binds a key, in place of what it was bound to.
    fn bind(&mut self, spec: KeySpec, action: Action)
        requires
            old(self).wf(),
        ensures
            final(self).wf(),
            final(self)@ == old(self)@.insert(spec@, action),
    {
        let ghost before = self.pairs();
        match self.find(&spec) {
            Some(i) => {
                self.map[i] = (spec, action);
                proof {
                    let after = self.pairs();
                    assert(after =~= before.update(i as int, (spec@, action)));
                    assert forall|a: int, b: int| 0 <= a < b < after.len() implies (
                    #[trigger] after[a]).0 != (#[trigger] after[b]).0 by {
                        assert(before[a].0 == after[a].0 && before[b].0 == after[b].0);
                    }
                    assert forall|k: KeyView|
                        #![trigger self@.dom().contains(k)]
                        self@.dom().contains(k) == old(self)@.insert(spec@, action).dom().contains(k) && (
                        self@.dom().contains(k) ==> self@[k] == old(self)@.insert(spec@, action)[k]) by {
                        lemma_map_of(after, k);
                        lemma_map_of(before, k);
                        if exists|j: int| 0 <= j < after.len() && (#[trigger] after[j]).0 == k {
                            let j = choose|j: int| 0 <= j < after.len() && (#[trigger] after[j]).0 == k;
                            assert(before[j].0 == k);
                            lemma_map_of_at(after, j);
                            lemma_map_of_at(before, j);
                        } else {
                            assert(after[i as int].0 == spec@);
                            if exists|j: int| 0 <= j < before.len() && (#[trigger] before[j]).0 == k {
                                let j = choose|j: int| 0 <= j < before.len() && (#[trigger] before[j]).0 == k;
                                assert(after[j].0 == k);
                            }
                        }
                    }
                    assert(self@ =~= old(self)@.insert(spec@, action));
                }
            },
            None => {
                self.map.push((spec, action));
                proof {
                    assert(self.pairs() =~= before.push((spec@, action)));
                    assert(self.pairs().drop_last() =~= before);
                }
            },
        }
    }

    /// Takes away the keys of an action.
    fn unbind(&mut self, action: Action)
        requires
            old(self).wf(),
        ensures
            final(self).wf(),
            final(self)@ == without_action(old(self)@, action),
    {
        let ghost before = self.pairs();
        let mut kept = Keymap::empty();
        let n: usize = self.map.len();
        let mut i: usize = 0;
        proof {
            assert(before.take(0) =~= Seq::empty());
            assert(kept@ =~= without_action(map_of(before.take(0)), action));
        }
        while i < n
            invariant
                i <= n,
                n == self.map@.len(),
                self.wf(),
                before == self.pairs(),
                kept.wf(),
                kept@ == without_action(map_of(before.take(i as int)), action),
            decreases n - i,
        {
            let (spec, act) = self.map[i];
            let ghost m = map_of(before.take(i as int));
            let ghost sofar = kept@;
            proof {
                assert(before[i as int] == (spec@, act));
                assert(before.take(i + 1).drop_last() =~= before.take(i as int));
                lemma_map_of(before.take(i as int), spec@);
                assert(!m.dom().contains(spec@)) by {
                    if exists|j: int|
                        0 <= j < i && (#[trigger] before.take(i as int)[j]).0 == spec@ {
                        let j = choose|j: int|
                            0 <= j < i && (#[trigger] before.take(i as int)[j]).0 == spec@;
                        assert(before[j].0 == before[i as int].0);
                    }
                }
            }
            if act != action {
                kept.bind(spec, act);
            }
            proof {
                assert(kept@ =~= without_action(m.insert(spec@, act), action));
            }
            i += 1;
        }
        assert(before.take(n as int) =~= before);
        *self = kept;
    }

    /// Binds the keys that texts name to an action; other texts are passed
    /// over.
    fn bind_named(&mut self, action: Action, keys: &Vec<String>)
        requires
            old(self).wf(),
        ensures
            final(self).wf(),
            final(self)@ == with_keys(old(self)@, action, texts(keys@)),
    {
        let n: usize = keys.len();
        let ghost all = texts(keys@);
        let mut i: usize = 0;
        assert(all.take(0) =~= Seq::empty());
        while i < n
            invariant
                i <= n,
                n == keys@.len(),
                all == texts(keys@),
                self.wf(),
                self@ == with_keys(old(self)@, action, all.take(i as int)),
            decreases n - i,
        {
            proof {
                assert(all.take(i + 1).drop_last() =~= all.take(i as int));
                assert(all.take(i + 1).last() == all[i as int]);
            }
            if let Some(spec) = KeySpec::parse(keys[i].as_str()) {
                self.bind(spec, action);
            }
            i += 1;
        }
        assert(all.take(n as int) =~= all);
    }

    /// The default bindings.
    pub fn default() -> (r: Self)
        ensures
            r.wf(),
            r@ == table_bound(default_table()),
    {
        let table = default_bindings();
        let ghost all = default_table();
        let n: usize = table.len();
        let mut r = Keymap::empty();
        let mut i: usize = 0;
        assert(all.take(0) =~= Seq::empty());
        while i < n
            invariant
                i <= n,
                n == table@.len(),
                all == table@.map_values(
                    |e: (&'static str, Vec<&'static str>)| (e.0@, names_of(e.1@)),
                ),
                r.wf(),
                r@ == table_bound(all.take(i as int)),
            decreases n - i,
        {
            proof {
                assert(all.take(i + 1).drop_last() =~= all.take(i as int));
                assert(all.take(i + 1).last() == all[i as int]);
            }
            if let Some(act) = action_by_name(table[i].0) {
                let keys = owned_names(&table[i].1);
                r.bind_named(act, &keys);
            }
            i += 1;
        }
        assert(all.take(n as int) =~= all);
        r
    }

    /// The bindings of a configuration text, if there is one: those that its
    /// section `[keys]` gives, and the default ones of the other actions.
    pub fn load_or_default(text: Option<&str>) -> (r: Self)
        ensures
            r.wf(),
            r@ == bindings_of(stored_text(text)),
    {
        let mut r = Self::default();
        if let Some(t) = text {
            if let Some(s) = section(t, "keys") {
                r.apply(&s);
            }
        }
        r
    }

    /// Puts the settings of a section over the bindings.
    pub fn apply(&mut self, s: &Section)
        requires
            old(self).wf(),
        ensures
            final(self).wf(),
            final(self)@ == overridden(old(self)@, s@),
    {
        let n: usize = s.entries.len();
        let ghost all = s@;
        let mut i: usize = 0;
        assert(all.take(0) =~= Seq::empty());
        while i < n
            invariant
                i <= n,
                n == s.entries@.len(),
                all == s@,
                self.wf(),
                self@ == overridden(old(self)@, all.take(i as int)),
            decreases n - i,
        {
            proof {
                assert(all.take(i + 1).drop_last() =~= all.take(i as int));
                assert(all.take(i + 1).last() == all[i as int]);
                assert(all[i as int] == (s.entries@[i as int].0@, s.entries@[i as int].1@));
            }
            if let Some(act) = action_by_name(s.entries[i].0.as_str()) {
                match &s.entries[i].1 {
                    Setting::Text(k) => {
                        let keys = keys_in_text(k.as_str());
                        self.unbind(act);
                        self.bind_named(act, &keys);
                    },
                    Setting::Texts(keys) => {
                        self.unbind(act);
                        self.bind_named(act, keys);
                    },
                    Setting::Number(_) => {},
                    Setting::Other => {},
                }
            }
            i += 1;
        }
        assert(all.take(n as int) =~= all);
    }

    /// The action of a key.
    pub fn action(&self, spec: &KeySpec) -> (r: Option<Action>)
        requires
            self.wf(),
        ensures
            r == if self@.dom().contains(spec@) {
                Some(self@[spec@])
            } else {
                None
            },
    {
        match self.find(spec) {
            Some(i) => Some(self.map[i].1),
            None => None,
        }
    }

    /// The actions in the order of the default table, each with its keys.
    pub fn help_entries(&self) -> (r: Vec<(Action, String)>)
        requires
            self.wf(),
        ensures
            r@.len() == default_table().len(),
            forall|i: int|
                0 <= i < r@.len() ==> {
                    &&& Some((#[trigger] r@[i]).0) == action_named(default_table()[i].0)
                    &&& lists_keys(self@, r@[i].0, r@[i].1@)
                },
    {
        let table = default_bindings();
        let ghost all = default_table();
        let n: usize = table.len();
        let mut out: Vec<(Action, String)> = Vec::new();
        let mut i: usize = 0;
        while i < n
            invariant
                i <= n,
                n == table@.len(),
                self.wf(),
                all == default_table(),
                all == table@.map_values(
                    |e: (&'static str, Vec<&'static str>)| (e.0@, names_of(e.1@)),
                ),
                out@.len() == i,
                forall|k: int|
                    0 <= k < i ==> {
                        &&& Some((#[trigger] out@[k]).0) == action_named(all[k].0)
                        &&& lists_keys(self@, out@[k].0, out@[k].1@)
                    },
            decreases n - i,
        {
            proof {
                lemma_table_names_actions(i as int);
                assert(all[i as int].0 == table@[i as int].0@);
            }
            if let Some(act) = action_by_name(table[i].0) {
                let keys = sort_texts(self.shown_keys(act));
                let list = join_texts(&keys, "  /  ");
                proof {
                    assert(sorted_texts(texts(keys@)));
                    lemma_keys_of(self.pairs(), act);
                    assert(keys_bound(self@, act, keys_of(self.pairs(), act)));
                }
                out.push((act, list));
            }
            i += 1;
        }
        out
    }

    /// How the help shows the keys of an action.
    fn shown_keys(&self, action: Action) -> (r: Vec<String>)
        ensures
            texts(r@) == key_texts(keys_of(self.pairs(), action)),
    {
        let n: usize = self.map.len();
        let ghost all = self.pairs();
        let mut out: Vec<String> = Vec::new();
        let mut i: usize = 0;
        proof {
            assert(all.take(0) =~= Seq::empty());
            assert(texts(out@) =~= Seq::empty());
        }
        while i < n
            invariant
                i <= n,
                n == self.map@.len(),
                all == self.pairs(),
                texts(out@) == key_texts(keys_of(all.take(i as int), action)),
            decreases n - i,
        {
            let ghost sofar = texts(out@);
            proof {
                assert(all.take(i + 1).drop_last() =~= all.take(i as int));
                assert(all.take(i + 1).last() == all[i as int]);
                assert(all[i as int] == (self.map@[i as int].0@, self.map@[i as int].1));
            }
            if self.map[i].1 == action {
                let t = Self::format_spec(&self.map[i].0);
                let ghost shown = t@;
                out.push(t);
                assert(texts(out@) =~= sofar.push(shown));
                assert(texts(out@) =~= key_texts(keys_of(all.take(i + 1), action)));
            }
            i += 1;
        }
        assert(all.take(n as int) =~= all);
        out
    }

    /// How the help shows a key.
    pub fn format_spec(spec: &KeySpec) -> (r: String)
        ensures
            r@ == key_text(spec@),
    {
        match spec {
            KeySpec::Char(c, ctrl) => {
                let mut out = if *ctrl {
                    "C-".to_owned()
                } else {
                    String::new()
                };
                let ghost before = out@;
                out.push(*c);
                proof {
                    assert(before.push(*c) =~= before + seq![*c]);
                    assert(Seq::<char>::empty() + seq![*c] =~= seq![*c]);
                }
                out
            },
            KeySpec::Fun(f, ctrl) => {
                if *ctrl {
                    let mut out = "C-".to_owned();
                    out.append(to_upper(f).as_str());
                    out
                } else {
                    to_upper(f)
                }
            },
        }
    }

    /// What the help says of an action.
    pub fn action_label(action: Action) -> (r: &'static str)
        ensures
            r@ == label_of(action),
    {
        match action {
            Action::Quit => "退出程序",
            Action::FocusNext => "下一窗格 (Tab)",
            Action::FocusPrev => "上一窗格",
            Action::ScrollLineDown => "下移一行",
            Action::ScrollLineUp => "上移一行",
            Action::HalfDown => "下半屏",
            Action::HalfUp => "上半屏",
            Action::PageDown => "下翻一屏",
            Action::PageUp => "上翻一屏",
            Action::ToTop => "到文件首",
            Action::ToBottom => "到文件尾",
            Action::SearchFwd => "向下搜索 / 窗内搜索",
            Action::SearchBack => "向上搜索",
            Action::MatchNext => "下一个匹配",
            Action::MatchPrev => "上一个匹配",
            Action::ClearSearch => "清除搜索/高亮",
            Action::OpenMatchPane => "生成结果窗（目标选择）",
            Action::GotoLine => "跳转行号",
            Action::Zoom => "放大/还原当前窗",
            Action::Export => "导出当前内容到文件",
            Action::Follow => "tail 跟随",
            Action::HLeft => "水平左移",
            Action::HRight => "水平右移",
            Action::HHome => "到行首",
            Action::HEnd => "到行尾",
            Action::Wrap => "自动换行开关",
            Action::ClosePane => "关闭结果窗",
            Action::EnterJump => "结果窗跳到文件上下文",
            Action::Balance => "窗格均衡",
            Action::NudgeLeft => "缩小宽度",
            Action::NudgeRight => "增大宽度",
            Action::NudgeUp => "增大高度",
            Action::NudgeDown => "缩小高度",
            Action::History => "历史关键字模糊选择",
            Action::Help => "帮助",
            Action::ToggleCase => "大小写模式循环（智能/忽略/区分）",
            Action::ToggleWord => "整词匹配开关",
        }
    }

    /// The section `[keys]` of a first configuration: the default table.
    pub fn default_template() -> (r: String)
        ensures
            r@ == keys_template(),
    {
        let mut s = "# logviewer 键位配置\n# 动作 = 键 或 键列表；未列出的动作保持默认。\n# 键格式见 src/keymap.rs 顶部注释。\n[keys]\n".to_owned();
        let ghost head = s@;
        let table = default_bindings();
        let ghost all = default_table();
        let n: usize = table.len();
        let mut i: usize = 0;
        proof {
            assert(all.take(0) =~= Seq::empty());
            assert(head + template_lines(all.take(0)) =~= head);
        }
        while i < n
            invariant
                i <= n,
                n == table@.len(),
                all == table@.map_values(
                    |e: (&'static str, Vec<&'static str>)| (e.0@, names_of(e.1@)),
                ),
                s@ == head + template_lines(all.take(i as int)),
            decreases n - i,
        {
            proof {
                assert(all.take(i + 1).drop_last() =~= all.take(i as int));
                assert(all.take(i + 1).last() == all[i as int]);
            }
            let ghost before = s@;
            let keys = quoted_names(&table[i].1);
            let list = join_texts(&keys, ", ");
            s.append(table[i].0);
            s.append(" = [");
            s.append(list.as_str());
            s.append("]\n");
            proof {
                let line = template_line(all[i as int].0, all[i as int].1);
                assert(s@ =~= before + line);
                assert(s@ =~= head + template_lines(all.take(i + 1)));
            }
            i += 1;
        }
        assert(all.take(n as int) =~= all);
        s
    }
}

/// The keys that one text lists.
fn keys_in_text(s: &str) -> (r: Vec<String>)
    ensures
        texts(r@) == keys_in(s@),
{
    if KeySpec::parse(s).is_some() || !holds_char(s, ',') {
        let mut out: Vec<String> = Vec::new();
        out.push(s.to_owned());
        assert(texts(out@) =~= seq![s@]);
        return out;
    }
    let parts = split_text(s, ',');
    let ghost all = split(s@, ',');
    let n: usize = parts.len();
    let mut out: Vec<String> = Vec::new();
    let mut i: usize = 0;
    while i < n
        invariant
            i <= n,
            n == parts@.len(),
            texts(parts@) == all,
            out@.len() == i,
            forall|k: int| 0 <= k < i ==> (#[trigger] out@[k])@ == unpadded(all[k]),
        decreases n - i,
    {
        assert(all[i as int] == parts@[i as int]@);
        out.push(unpad_text(parts[i].as_str()).to_owned());
        i += 1;
    }
    assert(texts(out@) =~= keys_in(s@));
    out
}

fn owned_names(names: &Vec<&'static str>) -> (r: Vec<String>)
    ensures
        texts(r@) == names_of(names@),
{
    let mut out: Vec<String> = Vec::new();
    let n: usize = names.len();
    let mut i: usize = 0;
    while i < n
        invariant
            i <= n,
            n == names@.len(),
            out@.len() == i,
            forall|k: int| 0 <= k < i ==> (#[trigger] out@[k])@ == names@[k]@,
        decreases n - i,
    {
        out.push(names[i].to_owned());
        i += 1;
    }
    assert(texts(out@) =~= names_of(names@));
    out
}

fn quoted_names(names: &Vec<&'static str>) -> (r: Vec<String>)
    ensures
        texts(r@) == names_of(names@).map_values(|k: Seq<char>| quoted(k)),
{
    let mut out: Vec<String> = Vec::new();
    let n: usize = names.len();
    let mut i: usize = 0;
    while i < n
        invariant
            i <= n,
            n == names@.len(),
            out@.len() == i,
            forall|k: int| 0 <= k < i ==> (#[trigger] out@[k])@ == quoted(names@[k]@),
        decreases n - i,
    {
        let mut q = "\"".to_owned();
        q.append(names[i]);
        q.append("\"");
        out.push(q);
        i += 1;
    }
    assert(texts(out@) =~= names_of(names@).map_values(|k: Seq<char>| quoted(k)));
    out
}

/// Each name of the default table is that of an action.
proof fn lemma_table_names_actions(i: int)
    requires
        0 <= i < default_table().len(),
    ensures
        action_named(default_table()[i].0) is Some,
{
}

/// A key is bound if and only if some pair binds it.
proof fn lemma_map_of(pairs: Seq<(KeyView, Action)>, k: KeyView)
    ensures
        map_of(pairs).dom().contains(k) <==> exists|i: int|
            0 <= i < pairs.len() && (#[trigger] pairs[i]).0 == k,
    decreases pairs.len(),
{
    if pairs.len() > 0 {
        let front = pairs.drop_last();
        lemma_map_of(front, k);
        if pairs.last().0 == k {
            assert(pairs[pairs.len() - 1].0 == k);
        }
        if exists|i: int| 0 <= i < front.len() && (#[trigger] front[i]).0 == k {
            let i = choose|i: int| 0 <= i < front.len() && (#[trigger] front[i]).0 == k;
            assert(pairs[i].0 == k);
        }
        if exists|i: int| 0 <= i < pairs.len() && (#[trigger] pairs[i]).0 == k {
            let i = choose|i: int| 0 <= i < pairs.len() && (#[trigger] pairs[i]).0 == k;
            if i < front.len() {
                assert(front[i].0 == k);
            }
        }
    }
}

/// Where no key is bound twice, a key has the action of its pair.
proof fn lemma_map_of_at(pairs: Seq<(KeyView, Action)>, i: int)
    requires
        0 <= i < pairs.len(),
        forall|a: int, b: int|
            0 <= a < b < pairs.len() ==> (#[trigger] pairs[a]).0 != (#[trigger] pairs[b]).0,
    ensures
        map_of(pairs).dom().contains(pairs[i].0),
        map_of(pairs)[pairs[i].0] == pairs[i].1,
    decreases pairs.len(),
{
    if i < pairs.len() - 1 {
        let front = pairs.drop_last();
        assert(front[i] == pairs[i]);
        assert(pairs[i].0 != pairs[pairs.len() - 1].0);
        assert forall|a: int, b: int| 0 <= a < b < front.len() implies (#[trigger] front[a]).0 != (
        #[trigger] front[b]).0 by {
            assert(pairs[a].0 != pairs[b].0);
        }
        lemma_map_of_at(front, i);
    }
}

/// Where no key is bound twice, the keys of an action are those of its pairs.
proof fn lemma_keys_of(pairs: Seq<(KeyView, Action)>, action: Action)
    requires
        forall|a: int, b: int|
            0 <= a < b < pairs.len() ==> (#[trigger] pairs[a]).0 != (#[trigger] pairs[b]).0,
    ensures
        keys_bound(map_of(pairs), action, keys_of(pairs, action)),
    decreases pairs.len(),
{
    let keys = keys_of(pairs, action);
    if pairs.len() > 0 {
        let front = pairs.drop_last();
        let k = pairs.last().0;
        assert forall|a: int, b: int| 0 <= a < b < front.len() implies (#[trigger] front[a]).0 != (
        #[trigger] front[b]).0 by {
            assert(pairs[a].0 != pairs[b].0);
        }
        lemma_keys_of(front, action);
        let fewer = keys_of(front, action);
        lemma_map_of(front, k);
        assert(!map_of(front).dom().contains(k)) by {
            if exists|j: int| 0 <= j < front.len() && (#[trigger] front[j]).0 == k {
                let j = choose|j: int| 0 <= j < front.len() && (#[trigger] front[j]).0 == k;
                assert(pairs[j].0 != pairs[pairs.len() - 1].0);
            }
        }
        assert(!fewer.contains(k));
        assert forall|x: KeyView| #[trigger] keys.contains(x) <==> map_of(pairs).dom().contains(x)
            && map_of(pairs)[x] == action by {
            assert(fewer.contains(x) <==> map_of(front).dom().contains(x) && map_of(front)[x]
                == action);
            if pairs.last().1 == action {
                assert(keys == fewer.push(k));
                assert(keys.last() == k);
                if fewer.contains(x) {
                    let j = fewer.index_of(x);
                    assert(keys[j] == x);
                }
            }
        }
    }
}

/// A setting of a configuration leaves its action with the keys that it lists
/// and no others.
pub proof fn law_setting_gives_the_keys(
    m: Map<KeyView, Action>,
    name: Seq<char>,
    setting: SettingView,
    k: KeyView,
)
    requires
        action_named(name) is Some,
        keys_listed(setting) is Some,
    ensures
        ({
            let act = action_named(name)->0;
            let after = rebound(m, name, setting);
            (after.dom().contains(k) && after[k] == act) <==> exists|i: int|
                0 <= i < keys_listed(setting)->0.len() && key_named(
                    #[trigger] keys_listed(setting)->0[i],
                ) == Some(k)
        }),
{
    let act = action_named(name)->0;
    lemma_with_keys(without_action(m, act), act, keys_listed(setting)->0, k);
}

/// Binding keys gives them the action and leaves the other keys alone.
pub proof fn lemma_with_keys(m: Map<KeyView, Action>, act: Action, keys: Seq<Seq<char>>, k: KeyView)
    ensures
        ({
            let named = exists|i: int|
                0 <= i < keys.len() && key_named(#[trigger] keys[i]) == Some(k);
            let after = with_keys(m, act, keys);
            &&& named ==> after.dom().contains(k) && after[k] == act
            &&& !named ==> after.dom().contains(k) == m.dom().contains(k) && after[k] == m[k]
        }),
    decreases keys.len(),
{
    if keys.len() > 0 {
        let front = keys.drop_last();
        lemma_with_keys(m, act, front, k);
        if exists|i: int| 0 <= i < front.len() && key_named(#[trigger] front[i]) == Some(k) {
            let i = choose|i: int|
                0 <= i < front.len() && key_named(#[trigger] front[i]) == Some(k);
            assert(keys[i] == front[i]);
        }
        if exists|i: int| 0 <= i < keys.len() && key_named(#[trigger] keys[i]) == Some(k) {
            let i = choose|i: int| 0 <= i < keys.len() && key_named(#[trigger] keys[i]) == Some(k);
            if i < front.len() {
                assert(keys[i] == front[i]);
            }
        }
        assert(keys[keys.len() - 1] == keys.last());
    }
}

/// A setting takes no key from another action but those that it lists, and
/// gives another action none.
pub proof fn law_setting_leaves_the_rest(
    m: Map<KeyView, Action>,
    name: Seq<char>,
    setting: SettingView,
    k: KeyView,
)
    requires
        action_named(name) is Some,
        keys_listed(setting) is Some,
        !(m.dom().contains(k) && m[k] == action_named(name)->0),
        forall|i: int|
            0 <= i < keys_listed(setting)->0.len() ==> key_named(
                #[trigger] keys_listed(setting)->0[i],
            ) != Some(k),
    ensures
        rebound(m, name, setting).dom().contains(k) == m.dom().contains(k),
        m.dom().contains(k) ==> rebound(m, name, setting)[k] == m[k],
{
    let act = action_named(name)->0;
    lemma_with_keys(without_action(m, act), act, keys_listed(setting)->0, k);
}

/// Several keys in one text are those between the commas: keys without commas and
/// without blanks around them, put together with commas, are listed as they are.
pub proof fn law_keys_between_commas(keys: Seq<Seq<char>>)
    requires
        keys.len() > 1,
        forall|i: int| 0 <= i < keys.len() ==> !(#[trigger] keys[i]).contains(','),
        forall|i: int| 0 <= i < keys.len() ==> unpadded(#[trigger] keys[i]) == keys[i],
        key_named(joined(keys, seq![','])) is None,
    ensures
        keys_listed(SettingView::Text(joined(keys, seq![',']))) == Some(keys),
        keys_listed(SettingView::Texts(keys)) == Some(keys),
{
    let s = joined(keys, seq![',']);
    crate::promises::lemma_split_joined(keys, ',');
    if !s.contains(',') {
        lemma_split_whole(s, ',');
    }
    assert(split(s, ',').map_values(|part: Seq<char>| unpadded(part)) =~= keys);
}

proof fn lemma_split_whole(s: Seq<char>, sep: char)
    requires
        !s.contains(sep),
    ensures
        split(s, sep).len() == 1,
    decreases s.len(),
{
    if s.len() > 0 {
        let less = s.drop_last();
        if less.contains(sep) {
            let i = less.index_of(sep);
            assert(s[i] == sep);
        }
        assert(s[s.len() - 1] == s.last());
        lemma_split_whole(less, sep);
    }
}

/// A text that names a key by itself lists that key alone, a comma among them.
pub proof fn law_a_single_key_is_itself(s: Seq<char>)
    requires
        key_named(s) is Some,
    ensures
        keys_listed(SettingView::Text(s)) == Some(seq![s]),
{
}

} // verus!
