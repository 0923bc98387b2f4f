use logviewer::modes::{CmdState, GotoState, HistoryState, VisualKind, VisualState};
use logviewer::text::{
    blank_text, clip_str, fuzzy_subseq, holds_char, insert_char, join_texts, number_text,
    pad_left, parse_number, remove_char, slice_chars, slice_cols, sort_texts, split_text,
    trim_text, unpad_text, wrap_cols, wrap_row,
};

#[test]
fn clipping() {
    assert_eq!(clip_str("short", 10), "short");
    assert_eq!(clip_str("a longer text", 8), "a lon...");
    assert_eq!(clip_str("日志日志日志", 8), "日志...");
    assert_eq!(clip_str("abc", 2), "..");
    assert_eq!(clip_str("", 2), "");
}

#[test]
fn columns_of_a_row() {
    assert_eq!(slice_cols("abcdef", 2, 3), "cde");
    assert_eq!(slice_cols("日志abc", 2, 3), "志a");
    assert_eq!(slice_cols("abc", 5, 3), "");
    assert_eq!(slice_cols("abc", 0, 0), "");
}

#[test]
fn wrapping() {
    let parts = wrap_cols("abcdefgh", 3);
    assert_eq!(parts, vec!["abc", "def", "gh"]);
    assert_eq!(parts.concat(), "abcdefgh");
    assert_eq!(wrap_cols("日志日志x", 5), vec!["日志", "日志x"]);
    assert_eq!(wrap_row("", 5), vec![""]);
    assert_eq!(wrap_row("abc", 5), vec!["abc"]);
}

#[test]
fn characters_of_a_row() {
    assert_eq!(slice_chars("日志abc", 1, 3), "志a");
    assert_eq!(slice_chars("abc", 2, 100), "c");
    assert_eq!(slice_chars("abc", 2, 1), "");
    assert_eq!(remove_char("日志", 0), "志");
    assert_eq!(insert_char("日志", 1, 'x'), "日x志");
}

#[test]
fn fuzzy_matching() {
    assert!(fuzzy_subseq("wgn", "walog|JIIGAN"));
    assert!(fuzzy_subseq("", "anything"));
    assert!(!fuzzy_subseq("ngw", "walog|JIIGAN"));
    assert!(!fuzzy_subseq("ww", "walog"));
}

#[test]
fn numbers() {
    assert_eq!(number_text(0), "0");
    assert_eq!(number_text(u64::MAX), "18446744073709551615");
    for n in [0u64, 7, 10, 4096, u64::MAX] {
        assert_eq!(parse_number(&number_text(n)), Some(n));
    }
    assert_eq!(parse_number("18446744073709551616"), None);
    assert_eq!(parse_number("12a"), None);
    assert_eq!(parse_number(""), None);
}

#[test]
fn small_texts() {
    assert_eq!(blank_text(3), "   ");
    assert_eq!(pad_left("7", 4), "   7");
    assert_eq!(pad_left("12345", 4), "12345");
    assert_eq!(trim_text(" \t日志\u{3000}\n"), "日志");
    assert_eq!(
        join_texts(&vec!["a".to_string(), "b".to_string()], " / "),
        "a / b"
    );
    assert_eq!(
        sort_texts(vec!["b".to_string(), "a".to_string(), "ab".to_string()]),
        vec!["a", "ab", "b"]
    );
}

#[test]
fn editing_a_command() {
    let mut cs = CmdState::new(true, "abc".to_string(), Vec::new());
    assert_eq!(cs.cursor, 3);
    cs.move_cursor(false);
    cs.insert('日');
    assert_eq!((cs.buf.as_str(), cs.cursor), ("ab日c", 3));
    cs.backspace();
    assert_eq!((cs.buf.as_str(), cs.cursor), ("abc", 2));
    cs.delete();
    assert_eq!(cs.buf, "ab");
    cs.home();
    cs.backspace();
    assert_eq!((cs.buf.as_str(), cs.cursor), ("ab", 0));
    cs.end();
    assert_eq!(cs.cursor, 2);
    cs.clear();
    assert_eq!((cs.buf.as_str(), cs.cursor), ("", 0));
}

#[test]
fn browsing_there_and_back() {
    let hist = vec!["new".to_string(), "old".to_string()];
    let mut cs = CmdState::new(true, "typed".to_string(), hist);
    cs.browse(true);
    assert_eq!(cs.buf, "new");
    cs.browse(true);
    assert_eq!(cs.buf, "old");
    cs.browse(true);
    assert_eq!(cs.buf, "old");
    cs.browse(false);
    assert_eq!(cs.buf, "new");
    cs.browse(false);
    assert_eq!(cs.buf, "typed");
}

#[test]
fn typing_a_line_number() {
    let mut gs = GotoState::new();
    gs.push('4');
    gs.push('2');
    assert_eq!((gs.buf.as_str(), gs.cursor), ("42", 2));
    gs.backspace();
    assert_eq!(gs.buf, "4");
}

#[test]
fn choosing_a_keyword() {
    let items = vec!["error".to_string(), "walog".to_string(), "warn".to_string()];
    let mut st = HistoryState::new(&items);
    assert_eq!(st.list, vec![0, 1, 2]);
    st.push('w', &items);
    assert_eq!(st.list, vec![1, 2]);
    st.down();
    assert_eq!(st.sel, 1);
    st.down();
    assert_eq!(st.sel, 1);
    st.push('l', &items);
    assert_eq!((st.list.clone(), st.sel), (vec![1], 0));
    st.up();
    assert_eq!(st.sel, 0);
    st.backspace(&items);
    assert_eq!(st.list, vec![1, 2]);
}

#[test]
fn what_is_selected() {
    let v = |kind| VisualState { kind, anchor_row: 5, anchor_col: 3, cur_col: 1 };
    let c = v(VisualKind::Char);
    // The cursor is further down: from the anchor on, whole rows, up to the cursor.
    assert_eq!(c.selected_cols(7, 4, 10), None);
    assert_eq!(c.selected_cols(7, 5, 10), Some((3, 10)));
    assert_eq!(c.selected_cols(7, 6, 10), Some((0, 10)));
    assert_eq!(c.selected_cols(7, 7, 10), Some((0, 2)));
    // The cursor is further up.
    assert_eq!(c.selected_cols(4, 4, 10), Some((1, 10)));
    assert_eq!(c.selected_cols(4, 5, 10), Some((0, 4)));
    assert_eq!(c.selected_cols(5, 5, 10), Some((1, 4)));
    assert_eq!(v(VisualKind::Line).selected_cols(7, 6, 4), Some((0, 4)));
    assert_eq!(v(VisualKind::Block).selected_cols(7, 6, 10), Some((1, 4)));
    assert_eq!(v(VisualKind::Block).selected_cols(7, 6, 2), Some((1, 2)));
}

#[test]
fn texts_in_parts() {
    assert_eq!(split_text("a,bc,,d", ','), ["a", "bc", "", "d"]);
    assert_eq!(split_text("", ','), [""]);
    assert_eq!(split_text(",", ','), ["", ""]);
    assert_eq!(split_text("日,志", ',').join(","), "日,志");
    assert!(holds_char("q,C-c", ','));
    assert!(!holds_char("q", ','));
    assert_eq!(unpad_text("  a b "), "a b");
    assert_eq!(unpad_text("\t a"), "\t a");
    assert_eq!(unpad_text("   "), "");
}
