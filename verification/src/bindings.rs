//! What the default bindings and the names of keys promise.
use vstd::prelude::*;
use crate::config::{section_of, SettingView};
use crate::keymap::{
    action_named, bindings_of, char_key, default_table, function_keys, key_named, key_pressed,
    key_text, key_texts, keys_bound, lemma_with_keys, lists_keys, overridden, table_bound, with_keys,
    without_action, Action, KeyPress, KeyView,
};
use crate::text::{
    ascii_text, ascii_upper, joined, lemma_text_order, sorted_texts, text_le, uppered,
};
use crate::theme::{lower, lowered};

verus! {

/// The names of the function keys are of small letters and digits, at least
/// two.
proof fn lemma_function_keys(i: int)
    requires
        0 <= i < function_keys().len(),
    ensures
        function_keys()[i].len() >= 2,
        forall|j: int|
            0 <= j < function_keys()[i].len() ==> 'a' <= #[trigger] function_keys()[i][j] <= 'z'
                || '0' <= function_keys()[i][j] <= '9',
{
    reveal_strlit("tab");
    reveal_strlit("backtab");
    reveal_strlit("up");
    reveal_strlit("down");
    reveal_strlit("left");
    reveal_strlit("right");
    reveal_strlit("pgup");
    reveal_strlit("pgdn");
    reveal_strlit("enter");
    reveal_strlit("esc");
    reveal_strlit("home");
    reveal_strlit("end");
    reveal_strlit("space");
    reveal_strlit("backspace");
    reveal_strlit("delete");
    reveal_strlit("f1");
    reveal_strlit("f2");
    reveal_strlit("f3");
    reveal_strlit("f4");
    reveal_strlit("f5");
    reveal_strlit("f6");
    reveal_strlit("f7");
    reveal_strlit("f8");
    reveal_strlit("f9");
    reveal_strlit("f10");
    reveal_strlit("f11");
    reveal_strlit("f12");
}

/// A single character is the name of no function key.
proof fn lemma_no_function_key(s: Seq<char>)
    requires
        s.len() == 1,
    ensures
        !function_keys().contains(lowered(s)),
{
    if function_keys().contains(lowered(s)) {
        let i = function_keys().index_of(lowered(s));
        lemma_function_keys(i);
    }
}

proof fn lemma_char_named(s: Seq<char>)
    requires
        s.len() == 1,
    ensures
        key_named(s) == Some(char_key(s[0], false)),
{
    lemma_no_function_key(s);
}

proof fn lemma_ctrl_char_named(s: Seq<char>)
    requires
        s.len() == 3,
        s[0] == 'C',
        s[1] == '-',
    ensures
        key_named(s) == Some(char_key(s[2], true)),
{
    lemma_no_function_key(s.skip(2));
}

/// The name of a function key in upper case names it.
proof fn lemma_function_key_named(i: int, s: Seq<char>)
    requires
        0 <= i < function_keys().len(),
        lowered(s) == function_keys()[i],
    ensures
        key_named(s) == Some(KeyView::Fun(function_keys()[i], false)),
        key_named("C-"@ + s) == Some(KeyView::Fun(function_keys()[i], true)),
{
    let f = function_keys()[i];
    lemma_function_keys(i);
    reveal_strlit("C-");
    assert(s.len() == f.len());
    assert(lowered(s)[1] == lower(s[1]));
    assert(s[1] != '-');
    assert(function_keys().contains(f));
    assert(("C-"@ + s).skip(2) =~= s);
}

proof fn lemma_lowered_again(i: int)
    requires
        0 <= i < function_keys().len(),
    ensures
        lowered(function_keys()[i]) == function_keys()[i],
        lowered(uppered(function_keys()[i])) == function_keys()[i],
{
    let f = function_keys()[i];
    lemma_function_keys(i);
    assert(ascii_text(f));
    assert forall|j: int| 0 <= j < f.len() implies lower(#[trigger] f[j]) == f[j] && lower(
        ascii_upper(f[j]),
    ) == f[j] by {
        assert('a' <= function_keys()[i][j] <= 'z' || '0' <= function_keys()[i][j] <= '9');
    }
    assert(lowered(f) =~= f);
    assert(lowered(uppered(f)) =~= f);
}

/// A key as the help shows it is a name of that key: what is read there can be
/// written in the configuration.
pub proof fn law_shown_key_names_itself(s: Seq<char>)
    requires
        key_named(s) is Some,
    ensures
        key_named(key_text(key_named(s)->0)) == key_named(s),
{
    lemma_key_shown(key_named(s)->0);
}

/// Each key that is pressed can be named: how the help shows it is a name.
pub proof fn law_pressed_key_can_be_named(k: KeyPress)
    requires
        key_pressed(k) is Some,
    ensures
        key_named(key_text(key_pressed(k)->0)) == key_pressed(k),
{
    let key = key_pressed(k)->0;
    let names = function_keys();
    assert(names[0] == "tab"@);
    assert(names[1] == "backtab"@);
    assert(names[2] == "up"@);
    assert(names[3] == "down"@);
    assert(names[4] == "left"@);
    assert(names[5] == "right"@);
    assert(names[6] == "pgup"@);
    assert(names[7] == "pgdn"@);
    assert(names[8] == "enter"@);
    assert(names[9] == "esc"@);
    assert(names[10] == "home"@);
    assert(names[11] == "end"@);
    assert(names[12] == "space"@);
    assert(names[13] == "backspace"@);
    assert(names[14] == "delete"@);
    assert(names[15] == "f1"@);
    assert(names[16] == "f2"@);
    assert(names[17] == "f3"@);
    assert(names[18] == "f4"@);
    assert(names[19] == "f5"@);
    assert(names[20] == "f6"@);
    assert(names[21] == "f7"@);
    assert(names[22] == "f8"@);
    assert(names[23] == "f9"@);
    assert(names[24] == "f10"@);
    assert(names[25] == "f11"@);
    assert(names[26] == "f12"@);
    if let KeyView::Fun(f, _) = key {
        assert(names.contains(f));
    }
    lemma_key_shown(key);
}

proof fn lemma_key_shown(k: KeyView)
    requires
        match k {
            KeyView::Char(c, ctrl) => char_key(c, ctrl) == k,
            KeyView::Fun(f, _) => function_keys().contains(f),
        },
    ensures
        key_named(key_text(k)) == Some(k),
{
    reveal_strlit("C-");
    match k {
        KeyView::Char(c, false) => {
            lemma_char_named(seq![c]);
        },
        KeyView::Char(c, true) => {
            lemma_ctrl_char_named("C-"@ + seq![c]);
        },
        KeyView::Fun(f, ctrl) => {
            let i = function_keys().index_of(f);
            lemma_lowered_again(i);
            lemma_function_key_named(i, uppered(f));
        },
    }
}

/// The action of each row of the default table.
spec fn row_action(i: int) -> Action {
    if i == 0 {
        Action::Quit
    } else if i == 1 {
        Action::FocusNext
    } else if i == 2 {
        Action::FocusPrev
    } else if i == 3 {
        Action::ScrollLineDown
    } else if i == 4 {
        Action::ScrollLineUp
    } else if i == 5 {
        Action::HalfDown
    } else if i == 6 {
        Action::HalfUp
    } else if i == 7 {
        Action::PageDown
    } else if i == 8 {
        Action::PageUp
    } else if i == 9 {
        Action::ToTop
    } else if i == 10 {
        Action::ToBottom
    } else if i == 11 {
        Action::SearchFwd
    } else if i == 12 {
        Action::SearchBack
    } else if i == 13 {
        Action::MatchNext
    } else if i == 14 {
        Action::MatchPrev
    } else if i == 15 {
        Action::ClearSearch
    } else if i == 16 {
        Action::OpenMatchPane
    } else if i == 17 {
        Action::GotoLine
    } else if i == 18 {
        Action::Zoom
    } else if i == 19 {
        Action::Export
    } else if i == 20 {
        Action::Follow
    } else if i == 21 {
        Action::HLeft
    } else if i == 22 {
        Action::HRight
    } else if i == 23 {
        Action::HHome
    } else if i == 24 {
        Action::HEnd
    } else if i == 25 {
        Action::Wrap
    } else if i == 26 {
        Action::ClosePane
    } else if i == 27 {
        Action::EnterJump
    } else if i == 28 {
        Action::Balance
    } else if i == 29 {
        Action::NudgeRight
    } else if i == 30 {
        Action::NudgeLeft
    } else if i == 31 {
        Action::NudgeUp
    } else if i == 32 {
        Action::NudgeDown
    } else if i == 33 {
        Action::History
    } else if i == 34 {
        Action::Help
    } else if i == 35 {
        Action::ToggleCase
    } else {
        Action::ToggleWord
    }
}

/// The row of the default table for an action.
spec fn action_row(a: Action) -> int {
    match a {
        Action::Quit => 0,
        Action::FocusNext => 1,
        Action::FocusPrev => 2,
        Action::ScrollLineDown => 3,
        Action::ScrollLineUp => 4,
        Action::HalfDown => 5,
        Action::HalfUp => 6,
        Action::PageDown => 7,
        Action::PageUp => 8,
        Action::ToTop => 9,
        Action::ToBottom => 10,
        Action::SearchFwd => 11,
        Action::SearchBack => 12,
        Action::MatchNext => 13,
        Action::MatchPrev => 14,
        Action::ClearSearch => 15,
        Action::OpenMatchPane => 16,
        Action::GotoLine => 17,
        Action::Zoom => 18,
        Action::Export => 19,
        Action::Follow => 20,
        Action::HLeft => 21,
        Action::HRight => 22,
        Action::HHome => 23,
        Action::HEnd => 24,
        Action::Wrap => 25,
        Action::ClosePane => 26,
        Action::EnterJump => 27,
        Action::Balance => 28,
        Action::NudgeRight => 29,
        Action::NudgeLeft => 30,
        Action::NudgeUp => 31,
        Action::NudgeDown => 32,
        Action::History => 33,
        Action::Help => 34,
        Action::ToggleCase => 35,
        Action::ToggleWord => 36,
    }
}

/// The row of the default table that lists a key; none for other keys.
spec fn key_row(k: KeyView) -> int {
    match k {
        KeyView::Char(c, false) => if c == 'q' {
            0
        } else if c == 'j' {
            3
        } else if c == 'k' {
            4
        } else if c == 'd' {
            5
        } else if c == 'u' {
            6
        } else if c == 'f' {
            7
        } else if c == 'b' {
            8
        } else if c == 'g' {
            9
        } else if c == 'G' {
            10
        } else if c == '/' {
            11
        } else if c == '?' {
            12
        } else if c == 'n' {
            13
        } else if c == 'N' {
            14
        } else if c == 'c' {
            15
        } else if c == 'R' {
            15
        } else if c == ';' {
            16
        } else if c == ':' {
            17
        } else if c == 'z' {
            18
        } else if c == 'e' {
            19
        } else if c == 'F' {
            20
        } else if c == 'h' {
            21
        } else if c == 'l' {
            22
        } else if c == '0' {
            23
        } else if c == '$' {
            24
        } else if c == 'w' {
            25
        } else if c == 'x' {
            26
        } else if c == '=' {
            28
        } else if c == 'H' {
            33
        } else if c == 'C' {
            35
        } else if c == 'W' {
            36
        } else {
            -1
        },
        KeyView::Char(c, true) => if c == 'c' {
            0
        } else if c == 'n' {
            3
        } else if c == 'p' {
            4
        } else if c == 'd' {
            5
        } else if c == 'u' {
            6
        } else {
            -1
        },
        KeyView::Fun(f, false) => if f == "tab"@ {
            1
        } else if f == "backtab"@ {
            2
        } else if f == "down"@ {
            3
        } else if f == "up"@ {
            4
        } else if f == "pgdn"@ {
            7
        } else if f == "pgup"@ {
            8
        } else if f == "left"@ {
            21
        } else if f == "right"@ {
            22
        } else if f == "home"@ {
            23
        } else if f == "enter"@ {
            27
        } else if f == "f1"@ {
            34
        } else {
            -1
        },
        KeyView::Fun(f, true) => if f == "right"@ {
            29
        } else if f == "left"@ {
            30
        } else if f == "up"@ {
            31
        } else if f == "down"@ {
            32
        } else {
            -1
        },
    }
}

/// By this the names of the actions, and those of the default function keys,
/// can be told apart.
spec fn outline(s: Seq<char>) -> (nat, char, char) {
    (s.len(), s[0], s.last())
}

proof fn lemma_row_action(i: int)
    requires
        0 <= i < default_table().len(),
    ensures
        action_named(default_table()[i].0) == Some(row_action(i)),
        action_row(row_action(i)) == i,
{
    reveal_strlit("quit");
    assert(outline("quit"@) == (4nat, 'q', 't'));
    reveal_strlit("focus_next");
    assert(outline("focus_next"@) == (10nat, 'f', 't'));
    reveal_strlit("focus_prev");
    assert(outline("focus_prev"@) == (10nat, 'f', 'v'));
    reveal_strlit("scroll_line_down");
    assert(outline("scroll_line_down"@) == (16nat, 's', 'n'));
    reveal_strlit("scroll_line_up");
    assert(outline("scroll_line_up"@) == (14nat, 's', 'p'));
    reveal_strlit("half_down");
    assert(outline("half_down"@) == (9nat, 'h', 'n'));
    reveal_strlit("half_up");
    assert(outline("half_up"@) == (7nat, 'h', 'p'));
    reveal_strlit("page_down");
    assert(outline("page_down"@) == (9nat, 'p', 'n'));
    reveal_strlit("page_up");
    assert(outline("page_up"@) == (7nat, 'p', 'p'));
    reveal_strlit("to_top");
    assert(outline("to_top"@) == (6nat, 't', 'p'));
    reveal_strlit("to_bottom");
    assert(outline("to_bottom"@) == (9nat, 't', 'm'));
    reveal_strlit("search_fwd");
    assert(outline("search_fwd"@) == (10nat, 's', 'd'));
    reveal_strlit("search_back");
    assert(outline("search_back"@) == (11nat, 's', 'k'));
    reveal_strlit("match_next");
    assert(outline("match_next"@) == (10nat, 'm', 't'));
    reveal_strlit("match_prev");
    assert(outline("match_prev"@) == (10nat, 'm', 'v'));
    reveal_strlit("clear_search");
    assert(outline("clear_search"@) == (12nat, 'c', 'h'));
    reveal_strlit("open_match_pane");
    assert(outline("open_match_pane"@) == (15nat, 'o', 'e'));
    reveal_strlit("goto_line");
    assert(outline("goto_line"@) == (9nat, 'g', 'e'));
    reveal_strlit("zoom");
    assert(outline("zoom"@) == (4nat, 'z', 'm'));
    reveal_strlit("export");
    assert(outline("export"@) == (6nat, 'e', 't'));
    reveal_strlit("follow");
    assert(outline("follow"@) == (6nat, 'f', 'w'));
    reveal_strlit("h_left");
    assert(outline("h_left"@) == (6nat, 'h', 't'));
    reveal_strlit("h_right");
    assert(outline("h_right"@) == (7nat, 'h', 't'));
    reveal_strlit("h_home");
    assert(outline("h_home"@) == (6nat, 'h', 'e'));
    reveal_strlit("h_end");
    assert(outline("h_end"@) == (5nat, 'h', 'd'));
    reveal_strlit("wrap");
    assert(outline("wrap"@) == (4nat, 'w', 'p'));
    reveal_strlit("close_pane");
    assert(outline("close_pane"@) == (10nat, 'c', 'e'));
    reveal_strlit("enter_jump");
    assert(outline("enter_jump"@) == (10nat, 'e', 'p'));
    reveal_strlit("balance");
    assert(outline("balance"@) == (7nat, 'b', 'e'));
    reveal_strlit("nudge_right");
    assert(outline("nudge_right"@) == (11nat, 'n', 't'));
    reveal_strlit("nudge_left");
    assert(outline("nudge_left"@) == (10nat, 'n', 't'));
    reveal_strlit("nudge_up");
    assert(outline("nudge_up"@) == (8nat, 'n', 'p'));
    reveal_strlit("nudge_down");
    assert(outline("nudge_down"@) == (10nat, 'n', 'n'));
    reveal_strlit("history");
    assert(outline("history"@) == (7nat, 'h', 'y'));
    reveal_strlit("help");
    assert(outline("help"@) == (4nat, 'h', 'p'));
    reveal_strlit("toggle_case");
    assert(outline("toggle_case"@) == (11nat, 't', 'e'));
    reveal_strlit("toggle_word");
    assert(outline("toggle_word"@) == (11nat, 't', 'd'));
}

/// Each action stands in one row of the default table, and in no other: the
/// help lists each action once.
pub proof fn law_table_names_each_action_once(a: Action)
    ensures
        exists|i: int|
            #![trigger default_table()[i]]
            0 <= i < default_table().len() && action_named(default_table()[i].0) == Some(a),
        forall|i: int, j: int|
            #![trigger default_table()[i], default_table()[j]]
            0 <= i < default_table().len() && 0 <= j < default_table().len() && action_named(
                default_table()[i].0,
            ) == Some(a) && action_named(default_table()[j].0) == Some(a) ==> i == j,
{
    let i = action_row(a);
    assert(row_action(i) == a);
    lemma_row_action(i);
    assert(action_named(default_table()[i].0) == Some(a));
    assert forall|i: int, j: int|
        #![trigger default_table()[i], default_table()[j]]
        0 <= i < default_table().len() && 0 <= j < default_table().len() && action_named(
            default_table()[i].0,
        ) == Some(a) && action_named(default_table()[j].0) == Some(a) implies i == j by {
        lemma_row_action(i);
        lemma_row_action(j);
    }
}

/// Whether a row of the default table lists a key.
spec fn row_lists(i: int, k: KeyView) -> bool {
    exists|j: int|
        0 <= j < default_table()[i].1.len() && key_named(#[trigger] default_table()[i].1[j])
            == Some(k)
}

/// The keys of a row of the default table are in no other.
proof fn lemma_key_row(i: int, j: int)
    requires
        0 <= i < default_table().len(),
        0 <= j < default_table()[i].1.len(),
    ensures
        key_named(default_table()[i].1[j]) matches Some(k) && key_row(k) == i,
{
    reveal_strlit("tab");
    assert(outline("tab"@) == (3nat, 't', 'b'));
    reveal_strlit("backtab");
    assert(outline("backtab"@) == (7nat, 'b', 'b'));
    reveal_strlit("up");
    assert(outline("up"@) == (2nat, 'u', 'p'));
    reveal_strlit("down");
    assert(outline("down"@) == (4nat, 'd', 'n'));
    reveal_strlit("left");
    assert(outline("left"@) == (4nat, 'l', 't'));
    reveal_strlit("right");
    assert(outline("right"@) == (5nat, 'r', 't'));
    reveal_strlit("pgup");
    assert(outline("pgup"@) == (4nat, 'p', 'p'));
    reveal_strlit("pgdn");
    assert(outline("pgdn"@) == (4nat, 'p', 'n'));
    reveal_strlit("enter");
    assert(outline("enter"@) == (5nat, 'e', 'r'));
    reveal_strlit("home");
    assert(outline("home"@) == (4nat, 'h', 'e'));
    reveal_strlit("f1");
    assert(outline("f1"@) == (2nat, 'f', '1'));
    reveal_strlit("C-");
    if i == 0 {
        reveal_strlit("q");
        lemma_char_named("q"@);
        reveal_strlit("C-c");
        lemma_ctrl_char_named("C-c"@);
    } else if i == 1 {
        lemma_lowered_again(0);
        lemma_function_key_named(0, "tab"@);
    } else if i == 2 {
        lemma_lowered_again(1);
        lemma_function_key_named(1, "backtab"@);
    } else if i == 3 {
        reveal_strlit("j");
        lemma_char_named("j"@);
        lemma_lowered_again(3);
        lemma_function_key_named(3, "down"@);
        reveal_strlit("C-n");
        lemma_ctrl_char_named("C-n"@);
    } else if i == 4 {
        reveal_strlit("k");
        lemma_char_named("k"@);
        lemma_lowered_again(2);
        lemma_function_key_named(2, "up"@);
        reveal_strlit("C-p");
        lemma_ctrl_char_named("C-p"@);
    } else if i == 5 {
        reveal_strlit("d");
        lemma_char_named("d"@);
        reveal_strlit("C-d");
        lemma_ctrl_char_named("C-d"@);
    } else if i == 6 {
        reveal_strlit("u");
        lemma_char_named("u"@);
        reveal_strlit("C-u");
        lemma_ctrl_char_named("C-u"@);
    } else if i == 7 {
        reveal_strlit("f");
        lemma_char_named("f"@);
        lemma_lowered_again(7);
        lemma_function_key_named(7, "pgdn"@);
    } else if i == 8 {
        reveal_strlit("b");
        lemma_char_named("b"@);
        lemma_lowered_again(6);
        lemma_function_key_named(6, "pgup"@);
    } else if i == 9 {
        reveal_strlit("g");
        lemma_char_named("g"@);
    } else if i == 10 {
        reveal_strlit("G");
        lemma_char_named("G"@);
    } else if i == 11 {
        reveal_strlit("/");
        lemma_char_named("/"@);
    } else if i == 12 {
        reveal_strlit("?");
        lemma_char_named("?"@);
    } else if i == 13 {
        reveal_strlit("n");
        lemma_char_named("n"@);
    } else if i == 14 {
        reveal_strlit("N");
        lemma_char_named("N"@);
    } else if i == 15 {
        reveal_strlit("c");
        lemma_char_named("c"@);
        reveal_strlit("R");
        lemma_char_named("R"@);
    } else if i == 16 {
        reveal_strlit(";");
        lemma_char_named(";"@);
    } else if i == 17 {
        reveal_strlit(":");
        lemma_char_named(":"@);
    } else if i == 18 {
        reveal_strlit("z");
        lemma_char_named("z"@);
    } else if i == 19 {
        reveal_strlit("e");
        lemma_char_named("e"@);
    } else if i == 20 {
        reveal_strlit("F");
        lemma_char_named("F"@);
    } else if i == 21 {
        reveal_strlit("h");
        lemma_char_named("h"@);
        lemma_lowered_again(4);
        lemma_function_key_named(4, "left"@);
    } else if i == 22 {
        reveal_strlit("l");
        lemma_char_named("l"@);
        lemma_lowered_again(5);
        lemma_function_key_named(5, "right"@);
    } else if i == 23 {
        reveal_strlit("0");
        lemma_char_named("0"@);
        lemma_lowered_again(10);
        lemma_function_key_named(10, "home"@);
    } else if i == 24 {
        reveal_strlit("$");
        lemma_char_named("$"@);
    } else if i == 25 {
        reveal_strlit("w");
        lemma_char_named("w"@);
    } else if i == 26 {
        reveal_strlit("x");
        lemma_char_named("x"@);
    } else if i == 27 {
        lemma_lowered_again(8);
        lemma_function_key_named(8, "enter"@);
    } else if i == 28 {
        reveal_strlit("=");
        lemma_char_named("="@);
    } else if i == 29 {
        reveal_strlit("C-right");
        lemma_lowered_again(5);
        lemma_function_key_named(5, "right"@);
        assert("C-right"@ =~= "C-"@ + "right"@);
    } else if i == 30 {
        reveal_strlit("C-left");
        lemma_lowered_again(4);
        lemma_function_key_named(4, "left"@);
        assert("C-left"@ =~= "C-"@ + "left"@);
    } else if i == 31 {
        reveal_strlit("C-up");
        lemma_lowered_again(2);
        lemma_function_key_named(2, "up"@);
        assert("C-up"@ =~= "C-"@ + "up"@);
    } else if i == 32 {
        reveal_strlit("C-down");
        lemma_lowered_again(3);
        lemma_function_key_named(3, "down"@);
        assert("C-down"@ =~= "C-"@ + "down"@);
    } else if i == 33 {
        reveal_strlit("H");
        lemma_char_named("H"@);
    } else if i == 34 {
        lemma_lowered_again(15);
        lemma_function_key_named(15, "f1"@);
    } else if i == 35 {
        reveal_strlit("C");
        lemma_char_named("C"@);
    } else {
        reveal_strlit("W");
        lemma_char_named("W"@);
    }
}

/// What the first `n` rows of the default table bind.
proof fn lemma_rows_bound(n: int, k: KeyView)
    requires
        0 <= n <= default_table().len(),
    ensures
        ({
            let m = table_bound(default_table().take(n));
            let i = key_row(k);
            &&& m.dom().contains(k) <==> 0 <= i < n && row_lists(i, k)
            &&& m.dom().contains(k) ==> m[k] == row_action(i)
        }),
    decreases n,
{
    let all = default_table();
    if n > 0 {
        let i = n - 1;
        lemma_rows_bound(i, k);
        assert(all.take(n).drop_last() =~= all.take(i));
        assert(all.take(n).last() == all[i]);
        lemma_row_action(i);
        lemma_with_keys(table_bound(all.take(i)), row_action(i), all[i].1, k);
        if row_lists(i, k) {
            let j = choose|j: int|
                0 <= j < all[i].1.len() && key_named(#[trigger] all[i].1[j]) == Some(k);
            lemma_key_row(i, j);
        }
    }
}

proof fn lemma_default_bound(k: KeyView)
    ensures
        ({
            let m = table_bound(default_table());
            let i = key_row(k);
            &&& m.dom().contains(k) <==> 0 <= i < default_table().len() && row_lists(i, k)
            &&& m.dom().contains(k) ==> m[k] == row_action(i)
        }),
{
    lemma_rows_bound(default_table().len() as int, k);
    assert(default_table().take(default_table().len() as int) =~= default_table());
}

/// Whether the default table lists a key for an action.
pub open spec fn listed_by_default(k: KeyView, a: Action) -> bool {
    exists|i: int, j: int|
        0 <= i < default_table().len() && 0 <= j < default_table()[i].1.len() && action_named(
            default_table()[i].0,
        ) == Some(a) && key_named(#[trigger] default_table()[i].1[j]) == Some(k)
}

/// The default bindings are those of the default table: a key stands for the
/// action that lists it, for no other, and no row takes a key from another.
pub proof fn law_default_bindings_are_the_table(k: KeyView, a: Action)
    ensures
        listed_by_default(k, a) <==> table_bound(default_table()).dom().contains(k) && table_bound(
            default_table(),
        )[k] == a,
{
    lemma_default_bound(k);
    let m = table_bound(default_table());
    if listed_by_default(k, a) {
        let (i, j) = choose|i: int, j: int|
            0 <= i < default_table().len() && 0 <= j < default_table()[i].1.len() && action_named(
                default_table()[i].0,
            ) == Some(a) && key_named(#[trigger] default_table()[i].1[j]) == Some(k);
        lemma_key_row(i, j);
        lemma_row_action(i);
        assert(row_lists(i, k));
    }
    if m.dom().contains(k) && m[k] == a {
        let i = key_row(k);
        lemma_row_action(i);
        let j = choose|j: int|
            0 <= j < default_table()[i].1.len() && key_named(#[trigger] default_table()[i].1[j])
                == Some(k);
        assert(key_named(default_table()[i].1[j]) == Some(k));
    }
}

/// Each action has a default key.
pub proof fn law_every_action_has_a_default_key(a: Action)
    ensures
        exists|k: KeyView| #[trigger]
            table_bound(default_table()).dom().contains(k) && table_bound(default_table())[k] == a,
{
    let i = action_row(a);
    assert(row_action(i) == a);
    assert(default_table()[i].1.len() > 0);
    lemma_row_action(i);
    lemma_key_row(i, 0);
    let k = key_named(default_table()[i].1[0])->0;
    assert(listed_by_default(k, a));
    law_default_bindings_are_the_table(k, a);
}

/// Whether a setting is a row of the default table.
pub open spec fn default_setting(setting: (Seq<char>, SettingView)) -> bool {
    exists|i: int|
        0 <= i < default_table().len() && setting == (
            (#[trigger] default_table()[i]).0,
            SettingView::Texts(default_table()[i].1),
        )
}

/// A configuration that lists default keys changes nothing: with all rows of
/// the default table, or some, in any order, the bindings are the default ones.
pub proof fn law_default_settings_change_nothing(settings: Seq<(Seq<char>, SettingView)>)
    requires
        forall|i: int| 0 <= i < settings.len() ==> default_setting(#[trigger] settings[i]),
    ensures
        overridden(table_bound(default_table()), settings) == table_bound(default_table()),
    decreases settings.len(),
{
    if settings.len() > 0 {
        let front = settings.drop_last();
        assert forall|i: int| 0 <= i < front.len() implies default_setting(
            #[trigger] front[i],
        ) by {
            assert(front[i] == settings[i]);
        }
        law_default_settings_change_nothing(front);
        assert(default_setting(settings[settings.len() - 1]));
        let i = choose|i: int|
            0 <= i < default_table().len() && settings.last() == (
                (#[trigger] default_table()[i]).0,
                SettingView::Texts(default_table()[i].1),
            );
        let m = table_bound(default_table());
        let act = row_action(i);
        let keys = default_table()[i].1;
        lemma_row_action(i);
        let after = with_keys(without_action(m, act), act, keys);
        assert forall|k: KeyView|
            #![trigger after.dom().contains(k)]
            after.dom().contains(k) == m.dom().contains(k) && (m.dom().contains(k) ==> after[k]
                == m[k]) by {
            lemma_with_keys(without_action(m, act), act, keys, k);
            lemma_default_bound(k);
            if exists|j: int| 0 <= j < keys.len() && key_named(#[trigger] keys[j]) == Some(k) {
                let j = choose|j: int| 0 <= j < keys.len() && key_named(#[trigger] keys[j]) == Some(k);
                lemma_key_row(i, j);
                assert(row_lists(i, k));
            } else if m.dom().contains(k) && m[k] == act {
                lemma_row_action(key_row(k));
                assert(row_lists(i, k));
            }
        }
        assert(after =~= m);
    }
}

/// A configuration text that cannot be read, that has no section for keys, or
/// whose section lists default keys, gives the default bindings; so does none.
pub proof fn law_default_configuration_changes_nothing(text: Option<Seq<char>>)
    requires
        text matches Some(t) ==> (section_of(t, "keys"@) matches Some(settings) ==> forall|i: int|
            0 <= i < settings.len() ==> default_setting(#[trigger] settings[i])),
    ensures
        bindings_of(text) == table_bound(default_table()),
{
    if let Some(t) = text {
        if let Some(settings) = section_of(t, "keys"@) {
            law_default_settings_change_nothing(settings);
        }
    }
}

/// Texts in their order are known from which texts they are.
proof fn lemma_order_is_unique(a: Seq<Seq<char>>, b: Seq<Seq<char>>)
    requires
        sorted_texts(a),
        sorted_texts(b),
        a.to_multiset() == b.to_multiset(),
    ensures
        a == b,
    decreases a.len(),
{
    a.to_multiset_ensures();
    b.to_multiset_ensures();
    if a.len() == 0 {
        assert(a =~= b);
    } else {
        let x = a.last();
        let y = b.last();
        assert(a.to_multiset().count(x) > 0) by {
            assert(a[a.len() - 1] == x);
            assert(a.contains(x));
        }
        assert(b.to_multiset().count(y) > 0) by {
            assert(b[b.len() - 1] == y);
            assert(b.contains(y));
        }
        assert(b.contains(x));
        assert(a.contains(y));
        let i = b.index_of(x);
        let j = a.index_of(y);
        assert(text_le(b[i], b[b.len() - 1]));
        assert(text_le(a[j], a[a.len() - 1]));
        lemma_text_order(x, y, x);
        assert(a.drop_last() =~= a.remove(a.len() - 1));
        assert(b.drop_last() =~= b.remove(b.len() - 1));
        assert forall|p: int, q: int| 0 <= p <= q < a.drop_last().len() implies text_le(
            #[trigger] a.drop_last()[p],
            #[trigger] a.drop_last()[q],
        ) by {
            assert(text_le(a[p], a[q]));
        }
        assert forall|p: int, q: int| 0 <= p <= q < b.drop_last().len() implies text_le(
            #[trigger] b.drop_last()[p],
            #[trigger] b.drop_last()[q],
        ) by {
            assert(text_le(b[p], b[q]));
        }
        lemma_order_is_unique(a.drop_last(), b.drop_last());
        assert(a =~= a.drop_last().push(x));
        assert(b =~= b.drop_last().push(y));
    }
}

/// The same keys in another order are shown by the same texts.
proof fn lemma_same_keys(a: Seq<KeyView>, b: Seq<KeyView>)
    requires
        a.no_duplicates(),
        b.no_duplicates(),
        forall|k: KeyView| #[trigger] a.contains(k) <==> b.contains(k),
    ensures
        key_texts(a).to_multiset() == key_texts(b).to_multiset(),
    decreases a.len(),
{
    if a.len() == 0 {
        if b.len() > 0 {
            assert(b.contains(b[0]));
            assert(a.contains(b[0]));
        }
        assert(a =~= b);
    } else {
        let k = a.last();
        let a1 = a.drop_last();
        assert(a.contains(k)) by {
            assert(a[a.len() - 1] == k);
        }
        let j = b.index_of(k);
        assert(b[j] == k);
        let b1 = b.remove(j);
        assert forall|x: KeyView| #[trigger] a1.contains(x) <==> b1.contains(x) by {
            if a1.contains(x) {
                let p = a1.index_of(x);
                assert(a[p] == x);
                assert(a[p] != a[a.len() - 1]);
                assert(a.contains(x));
                let q = b.index_of(x);
                if q < j {
                    assert(b1[q] == x);
                } else {
                    assert(b1[q - 1] == x);
                }
            }
            if b1.contains(x) {
                let q = b1.index_of(x);
                let at = if q < j {
                    q
                } else {
                    q + 1
                };
                assert(b[at] == x);
                assert(b[at] != b[j]);
                assert(b.contains(x));
                assert(a.contains(x));
                let p = a.index_of(x);
                assert(a[p] == x);
                assert(a1[p] == x);
            }
        }
        lemma_same_keys(a1, b1);
        let ta = key_texts(a);
        let tb = key_texts(b);
        ta.to_multiset_ensures();
        tb.to_multiset_ensures();
        assert(ta.remove(a.len() - 1) =~= key_texts(a1));
        assert(tb.remove(j) =~= key_texts(b1));
        assert(ta.contains(ta[a.len() - 1]));
        assert(tb.contains(tb[j]));
        assert(ta[a.len() - 1] == tb[j]);
        let x = tb[j];
        assert(ta.to_multiset() =~= ta.to_multiset().remove(x).insert(x));
        assert(tb.to_multiset() =~= tb.to_multiset().remove(x).insert(x));
    }
}

/// The help says of an action just one thing: its text is known from the keys
/// that stand for the action.
pub proof fn law_help_text_is_known_from_the_keys(
    m: Map<KeyView, Action>,
    a: Action,
    one: Seq<char>,
    other: Seq<char>,
)
    requires
        lists_keys(m, a, one),
        lists_keys(m, a, other),
    ensures
        one == other,
{
    let (k1, s1) = choose|keys: Seq<KeyView>, shown: Seq<Seq<char>>|
        {
            &&& #[trigger] keys_bound(m, a, keys)
            &&& #[trigger] sorted_texts(shown)
            &&& shown.to_multiset() == key_texts(keys).to_multiset()
            &&& one == joined(shown, "  /  "@)
        };
    let (k2, s2) = choose|keys: Seq<KeyView>, shown: Seq<Seq<char>>|
        {
            &&& #[trigger] keys_bound(m, a, keys)
            &&& #[trigger] sorted_texts(shown)
            &&& shown.to_multiset() == key_texts(keys).to_multiset()
            &&& other == joined(shown, "  /  "@)
        };
    assert forall|k: KeyView| #[trigger] k1.contains(k) <==> k2.contains(k) by {
        assert(k1.contains(k) <==> m.dom().contains(k) && m[k] == a);
        assert(k2.contains(k) <==> m.dom().contains(k) && m[k] == a);
    }
    lemma_same_keys(k1, k2);
    lemma_order_is_unique(s1, s2);
}

} // verus!
