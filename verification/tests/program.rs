use logviewer::app::{App, Effect};
use logviewer::file::{DiskReply, DiskRequest};
use logviewer::fit::{cols_for_text, width_of_numbers};
use logviewer::jumps::SearchNews;
use logviewer::keymap::{KeyCode, KeyPress};
use logviewer::layout::RectLike;
use logviewer::modes::Mode;
use logviewer::panes::Content;
use logviewer::screen::Widget;
use logviewer::search::{Match, RgMsg};
use logviewer::theme::{Color, CursorShape};
use std::cell::RefCell;
use std::rc::Rc;

type Bytes = Rc<RefCell<Vec<u8>>>;

fn disk(bytes: &Bytes) -> impl Fn(DiskRequest) -> DiskReply {
    let bytes = bytes.clone();
    move |request| {
        let bytes = bytes.borrow();
        match request {
            DiskRequest::Len => DiskReply::Len(bytes.len() as u64),
            DiskRequest::Read { start, want } => {
                let from = (start as usize).min(bytes.len());
                let to = (from + want).min(bytes.len());
                DiskReply::Bytes(bytes[from..to].to_vec())
            }
        }
    }
}

fn numbered(n: usize) -> Bytes {
    let mut v = Vec::new();
    for i in 1..=n {
        v.extend_from_slice(format!("row {i} of the log\n").as_bytes());
    }
    Rc::new(RefCell::new(v))
}

fn open(bytes: &Bytes) -> App<impl Fn(DiskRequest) -> DiskReply> {
    App::open(
        disk(bytes),
        "/var/x.log".to_string(),
        "x.log".to_string(),
        None,
        Some("history.json".to_string()),
        None,
    )
    .unwrap()
}

fn press<D: Fn(DiskRequest) -> DiskReply>(app: &mut App<D>, keys: &str) {
    for c in keys.chars() {
        let code = match c {
            '\n' => KeyCode::Enter,
            '\u{1b}' => KeyCode::Esc,
            '\t' => KeyCode::Tab,
            c => KeyCode::Char(c),
        };
        app.on_key(KeyPress { code, ctrl: false });
    }
}

fn news(msgs: Vec<RgMsg>, closed: bool) -> SearchNews {
    SearchNews { msgs, closed, elapsed: " (5 ms)".to_string() }
}

fn hit(line_no: u64) -> RgMsg {
    RgMsg::Match(Match { line_no, text: format!("row {line_no} of the log") })
}

fn cursor<D: Fn(DiskRequest) -> DiskReply>(app: &App<D>) -> u64 {
    match &app.panes[0].content {
        Content::File(fc) => fc.view.cursor_line1(),
        Content::Matches(_) => 0,
    }
}

const SCREEN: RectLike = RectLike { x: 0, y: 0, w: 60, h: 14 };

fn frame<D: Fn(DiskRequest) -> DiskReply>(app: &mut App<D>) -> Vec<Widget> {
    app.prepare(SCREEN);
    app.draw(SCREEN)
}

fn texts(w: &Widget) -> Vec<String> {
    w.lines
        .iter()
        .map(|l| l.spans.iter().map(|s| s.text.as_str()).collect())
        .collect()
}

fn search_for<D: Fn(DiskRequest) -> DiskReply>(app: &mut App<D>, pattern: &str, lines: &[u64]) {
    press(app, "/");
    press(app, pattern);
    press(app, "\n");
    let mut msgs: Vec<RgMsg> = lines.iter().map(|l| hit(*l)).collect();
    msgs.push(RgMsg::Done { count: lines.len() as u64, cancelled: false });
    app.harvest_file_search(news(msgs, true));
}

#[test]
fn the_first_screen() {
    let bytes = numbered(100);
    let mut app = open(&bytes);
    let widgets = frame(&mut app);
    assert_eq!(widgets.len(), 2);
    assert_eq!(widgets[0].area, RectLike { x: 0, y: 0, w: 60, h: 13 });
    assert_eq!(widgets[1].area, RectLike { x: 0, y: 13, w: 60, h: 1 });
    let border = widgets[0].border.as_ref().unwrap();
    assert_eq!(border.title, "[1] file: x.log");
    assert!(border.style.bold);
    let lines = texts(&widgets[0]);
    // The rows that were read when the file was opened suffice.
    assert_eq!(lines.len(), 24);
    assert_eq!(lines[0], "▶   1│row 1 of the log");
    assert_eq!(lines[10], "   11│row 11 of the log");
    assert_eq!(
        texts(&widgets[1])[0],
        "行 1-24/?   [大小写: 智能] [整词: 关]"
    );
    assert!(widgets[1].lines[0].spans[0].style.reversed);
}

#[test]
fn nothing_on_a_low_screen() {
    let bytes = numbered(5);
    let mut app = open(&bytes);
    let low = RectLike { x: 0, y: 0, w: 60, h: 2 };
    assert!(!app.prepare(low));
    assert!(app.draw(low).is_empty());
}

#[test]
fn moving_through_the_file() {
    let bytes = numbered(100);
    let mut app = open(&bytes);
    frame(&mut app);
    press(&mut app, "jjj");
    assert_eq!(cursor(&app), 4);
    press(&mut app, "k");
    assert_eq!(cursor(&app), 3);
    press(&mut app, "G");
    app.on_tick(news(vec![], false), "1 ms");
    assert_eq!(cursor(&app), 100);
    assert_eq!(app.trans.as_deref(), Some("goto end of file done (1 ms)"));
    press(&mut app, "g");
    assert_eq!(cursor(&app), 1);
    assert_eq!(app.trans, None);
}

#[test]
fn going_to_a_line() {
    let bytes = numbered(100);
    let mut app = open(&bytes);
    frame(&mut app);
    press(&mut app, ":42");
    let widgets = frame(&mut app);
    assert_eq!(texts(&widgets[2])[0], ":42   (输入行号 Enter 跳转，Esc 取消)");
    press(&mut app, "\n");
    app.on_tick(news(vec![], false), "2 ms");
    assert_eq!(cursor(&app), 42);
    press(&mut app, ":999\n");
    app.on_tick(news(vec![], false), "2 ms");
    assert_eq!(cursor(&app), 42);
    assert_eq!(
        app.trans.as_deref(),
        Some("goto line 999 failed: line out of range")
    );
}

#[test]
fn a_long_jump_goes_on_in_pieces() {
    let bytes: Bytes = Rc::new(RefCell::new(vec![b'\n'; 4_200_000]));
    let mut app = open(&bytes);
    frame(&mut app);
    press(&mut app, ":4150000\n");
    app.on_tick(news(vec![], false), "1 ms");
    assert!(app.pending_jump.is_some());
    assert_eq!(cursor(&app), 1);
    app.on_tick(news(vec![], false), "2 ms");
    assert!(app.pending_jump.is_none());
    assert_eq!(cursor(&app), 4_150_000);
    assert_eq!(app.trans.as_deref(), Some("goto line 4150000 done (2 ms)"));
}

#[test]
fn a_search_that_is_refused_is_not_kept() {
    let bytes = numbered(100);
    let mut app = open(&bytes);
    frame(&mut app);
    press(&mut app, "/row (\n");
    assert!(app.history.items().is_empty());
    assert!(app.effects.is_empty());
    assert!(app.msg.starts_with("无效正则: "), "{}", app.msg);
    assert!(matches!(app.mode, Mode::Normal));
    press(&mut app, "/row 2\n");
    assert_eq!(app.history.items(), &["row 2"]);
    app.harvest_file_search(news(
        vec![hit(2), hit(20), RgMsg::Done { count: 2, cancelled: false }],
        false,
    ));
    press(&mut app, ";l");
    assert_eq!(app.focus, 1);
    app.effects.clear();
    // Neither does a search in a list.
    press(&mut app, "/[a\n");
    assert_eq!(app.history.items(), &["row 2"]);
    assert!(app.effects.is_empty());
    press(&mut app, "/20\n");
    assert_eq!(app.history.items(), &["20", "row 2"]);
    assert!(app.effects.iter().any(|e| matches!(e, Effect::SaveHistory)));
}

#[test]
fn a_search_and_its_matches() {
    let bytes = numbered(100);
    let mut app = open(&bytes);
    frame(&mut app);
    press(&mut app, "jj");
    press(&mut app, "/row 2");
    let widgets = frame(&mut app);
    assert_eq!(widgets.len(), 3);
    assert_eq!(texts(&widgets[2])[0], "/row 2 ");
    press(&mut app, "\n");
    let started = app.effects.iter().any(|e| match e {
        Effect::StartSearch { path, pattern, word, .. } => {
            path == "/var/x.log" && pattern == "row 2" && !word
        }
        _ => false,
    });
    assert!(started);
    assert!(app.effects.iter().any(|e| matches!(e, Effect::SaveHistory)));
    assert_eq!(app.history.items(), &["row 2"]);
    // The first jump waits for the end of the search.
    app.harvest_file_search(news(vec![hit(2), hit(20)], false));
    assert_eq!(cursor(&app), 3);
    app.harvest_file_search(news(
        vec![hit(21), RgMsg::Done { count: 3, cancelled: false }],
        false,
    ));
    assert_eq!(cursor(&app), 20);
    assert_eq!(app.trans.as_deref(), Some("search done (5 ms)"));
    let widgets = frame(&mut app);
    let status = texts(&widgets.last().unwrap())[0].clone();
    assert!(status.contains("/row 2  匹配 2/3"), "{status}");
    // What matches is highlighted.
    let line = widgets[0]
        .lines
        .iter()
        .find(|l| l.spans[0].text == "▶")
        .unwrap();
    let shown: Vec<(&str, bool)> =
        line.spans.iter().map(|s| (s.text.as_str(), s.style.bold)).collect();
    assert_eq!(
        shown,
        vec![("▶", true), ("  20│", false), ("row 2", true), ("0 of the log", false)]
    );
    assert_eq!(line.spans[2].style.fg, Some(Color::Yellow));
    press(&mut app, "n");
    assert_eq!(cursor(&app), 21);
    press(&mut app, "N");
    assert_eq!(cursor(&app), 20);
    press(&mut app, "NN");
    assert_eq!(cursor(&app), 2);
    assert_eq!(app.msg, "已是第一个匹配");
    press(&mut app, "c");
    assert!(app.effects.iter().any(|e| matches!(e, Effect::CancelSearch)));
}

#[test]
fn matches_among_wide_characters() {
    let bytes = Rc::new(RefCell::new("日志 error 日志 Error\n".as_bytes().to_vec()));
    let mut app = open(&bytes);
    frame(&mut app);
    search_for(&mut app, "error", &[1]);
    let widgets = frame(&mut app);
    let shown: Vec<(&str, bool)> = widgets[0].lines[0].spans[2..]
        .iter()
        .map(|s| (s.text.as_str(), s.style.bold))
        .collect();
    assert_eq!(
        shown,
        vec![("日志 ", false), ("error", true), (" 日志 ", false), ("Error", true)]
    );
}

#[test]
fn the_focus_goes_round() {
    let bytes = numbered(100);
    let mut app = open(&bytes);
    frame(&mut app);
    search_for(&mut app, "row 1", &[1, 10]);
    press(&mut app, ";l");
    press(&mut app, "1");
    press(&mut app, ";j");
    assert_eq!(app.panes.len(), 3);
    // The panes are numbered as they stand on the screen.
    assert_eq!(app.layout.leaf_ids(), vec![1, 3, 2]);
    assert_eq!(app.panes.iter().map(|p| p.id).collect::<Vec<_>>(), vec![1, 3, 2]);
    assert_eq!(app.focus, 1);
    press(&mut app, "\t");
    assert_eq!(app.focus, 2);
    press(&mut app, "\t");
    assert_eq!(app.focus, 0);
    app.on_key(KeyPress { code: KeyCode::BackTab, ctrl: false });
    assert_eq!(app.focus, 2);
    press(&mut app, "9");
    assert_eq!(app.focus, 2);
}

#[test]
fn no_list_replaces_the_file() {
    let bytes = numbered(100);
    let mut app = open(&bytes);
    frame(&mut app);
    search_for(&mut app, "row 1", &[1, 10]);
    press(&mut app, ";1");
    assert_eq!(app.panes.len(), 1);
    assert!(matches!(app.panes[0].content, Content::File(_)));
    // The keys for the left and the upper side put a list behind the file too.
    press(&mut app, ";h");
    assert_eq!(app.layout.leaf_ids(), vec![1, 2]);
}

#[test]
fn a_search_that_fails() {
    let bytes = numbered(10);
    let mut app = open(&bytes);
    press(&mut app, "/x\n");
    app.harvest_file_search(news(vec![RgMsg::Error("no file".to_string())], false));
    assert_eq!(app.trans.as_deref(), Some("rg: no file"));
    app.harvest_file_search(news(vec![RgMsg::Done { count: 0, cancelled: false }], false));
    assert_eq!(app.trans.as_deref(), Some("search done: no matches (5 ms)"));
    press(&mut app, "n");
    assert_eq!(app.msg, "无匹配");
    press(&mut app, "/a(\n");
    assert!(app.msg.contains("无效正则"), "{}", app.msg);
}

#[test]
fn lists_of_matches() {
    let bytes = numbered(100);
    let mut app = open(&bytes);
    frame(&mut app);
    search_for(&mut app, "row 1", &[1, 10, 11, 12]);
    press(&mut app, ";");
    let widgets = frame(&mut app);
    assert!(texts(widgets.last().unwrap())[0].starts_with("结果放入 →"));
    press(&mut app, "j");
    assert_eq!(app.panes.len(), 2);
    assert_eq!(app.focus, 1);
    assert_eq!(app.layout.leaf_ids(), vec![1, 2]);
    let widgets = frame(&mut app);
    assert_eq!(widgets.len(), 3);
    let border = widgets[1].border.as_ref().unwrap();
    assert_eq!(border.title, "[2] match: /row 1 (4)");
    let lines = texts(&widgets[1]);
    assert_eq!(lines[0], "▶   1│row 1 of the log");
    assert_eq!(lines[1], "   10│row 10 of the log");
    // The selected line leads to the file.
    press(&mut app, "jj\n");
    assert_eq!(cursor(&app), 11);
    // A pane can fill the screen.
    press(&mut app, "\t");
    press(&mut app, "z");
    let widgets = frame(&mut app);
    assert_eq!(widgets.len(), 2);
    assert!(widgets[0].border.as_ref().unwrap().title.starts_with("[ZOOM] "));
    press(&mut app, "z");
    assert_eq!(frame(&mut app).len(), 3);
}

#[test]
fn closing_panes() {
    let bytes = numbered(100);
    let mut app = open(&bytes);
    frame(&mut app);
    press(&mut app, "x");
    assert_eq!(app.msg, "文件窗不可关闭（关闭即退出程序）");
    search_for(&mut app, "row 1", &[1, 10]);
    press(&mut app, ";l");
    assert_eq!(app.panes.len(), 2);
    press(&mut app, "x");
    assert_eq!(app.panes.len(), 1);
    assert_eq!(app.layout.leaf_ids(), vec![1]);
    assert!(!app.quit);
    press(&mut app, "q");
    assert!(app.quit);
}

#[test]
fn searching_a_list() {
    let bytes = numbered(100);
    let mut app = open(&bytes);
    frame(&mut app);
    search_for(&mut app, "row", &[1, 2, 12, 20, 22]);
    press(&mut app, ";j");
    frame(&mut app);
    press(&mut app, "/row 2\n");
    assert_eq!(app.msg, "窗内搜索: row 2  → 3 处匹配");
    match &app.panes[1].content {
        Content::Matches(mc) => {
            assert_eq!(mc.sel, 1);
            assert_eq!(mc.search_pos(), Some((1, 3)));
        }
        Content::File(_) => panic!("expected a list"),
    }
    press(&mut app, "N");
    assert_eq!(app.msg, "已是第一个匹配");
    press(&mut app, "/nothing\n");
    assert_eq!(app.msg, "窗内无匹配: nothing");
}

#[test]
fn selecting_and_copying() {
    let bytes = Rc::new(RefCell::new("abcdef\nghi\njklmno\n".as_bytes().to_vec()));
    let mut app = open(&bytes);
    frame(&mut app);
    press(&mut app, "v");
    assert!(matches!(app.mode, Mode::Visual(_)));
    press(&mut app, "lljj");
    let widgets = frame(&mut app);
    let first = &widgets[0].lines[0];
    let marked: String = first
        .spans
        .iter()
        .filter(|s| s.style.bg == Some(Color::DarkGray))
        .map(|s| s.text.as_str())
        .collect();
    assert_eq!(marked, "abcdef");
    press(&mut app, "y");
    let copied = app.effects.iter().find_map(|e| match e {
        Effect::Copy { text, rows } => Some((text.clone(), *rows)),
        _ => None,
    });
    assert_eq!(copied, Some(("abcdef\nghi\njkl".to_string(), 3)));
    assert!(matches!(app.mode, Mode::Normal));
}

#[test]
fn following_the_end() {
    let bytes = numbered(50);
    let mut app = open(&bytes);
    frame(&mut app);
    press(&mut app, "F");
    app.on_tick(news(vec![], false), "");
    bytes.borrow_mut().extend_from_slice(b"row 51\nrow 52\n");
    app.on_tick(news(vec![], false), "");
    assert_eq!(cursor(&app), 52);
}

#[test]
fn a_cancelled_jump_returns() {
    let bytes = numbered(100);
    let mut app = open(&bytes);
    frame(&mut app);
    press(&mut app, "jjjj");
    press(&mut app, "G");
    assert!(app.pending_jump.is_some());
    press(&mut app, "\u{1b}");
    assert!(app.pending_jump.is_none());
    assert_eq!(cursor(&app), 5);
}

#[test]
fn wrapped_rows() {
    let long = "0123456789".repeat(10);
    let bytes = Rc::new(RefCell::new(format!("{long}\nshort\n").into_bytes()));
    let mut app = open(&bytes);
    frame(&mut app);
    press(&mut app, "w");
    let widgets = frame(&mut app);
    let lines = texts(&widgets[0]);
    // Of 58 columns, the mark, the number and the bar take 6.
    assert_eq!(lines[0], format!("▶   1│{}", &long[..52]));
    assert_eq!(lines[1], format!("↪    │{}", &long[52..]));
    assert_eq!(lines[2], "    2│short");
    press(&mut app, "w");
    press(&mut app, "l");
    let widgets = frame(&mut app);
    assert_eq!(texts(&widgets[0])[0], format!("▶   1│{}", &long[8..60]));
}

#[test]
fn wrapped_rows_keep_the_cursor_in_sight() {
    let mut v = Vec::new();
    for i in 0..200 {
        v.extend_from_slice(format!("{i} {}\n", "x".repeat(150)).as_bytes());
    }
    let bytes = Rc::new(RefCell::new(v));
    let mut app = open(&bytes);
    frame(&mut app);
    press(&mut app, "w");
    for n in [9, 20, 60] {
        for _ in 0..n {
            press(&mut app, "j");
        }
        let widgets = frame(&mut app);
        let at = widgets[0].lines.iter().position(|l| l.spans[0].text == "▶").unwrap();
        assert!(at < 11, "{at}");
    }
    press(&mut app, "G");
    app.on_tick(news(vec![], false), "");
    let widgets = frame(&mut app);
    let lines = texts(&widgets[0]);
    assert!(lines.last().unwrap().ends_with('x'));
    assert!(lines.len() >= 10 && lines.len() <= 12, "{}", lines.len());
}

#[test]
fn the_history_panel() {
    let bytes = numbered(10);
    let mut app = App::open(
        disk(&bytes),
        "x.log".to_string(),
        "x.log".to_string(),
        None,
        Some("h".to_string()),
        Some(r#"["error", "walog"]"#),
    )
    .unwrap();
    press(&mut app, "H");
    assert!(!app.prepare(SCREEN));
    let widgets = app.draw(SCREEN);
    assert_eq!(widgets.len(), 2);
    let lines = texts(&widgets[0]);
    assert!(lines[0].starts_with("历史搜索  "));
    assert_eq!(lines[2], "▶   0  error");
    assert_eq!(lines[3], "    1  walog");
    press(&mut app, "zz");
    let widgets = app.draw(SCREEN);
    assert_eq!(texts(&widgets[0])[2], "无匹配历史：zz");
    press(&mut app, "\u{1b}");
    press(&mut app, "Hw\n");
    match &app.mode {
        Mode::Cmd(cs) => assert_eq!(cs.buf, "walog"),
        _ => panic!("expected a search"),
    }
    assert_eq!(app.cursor_shape(), app.theme.cursor_input);
    assert_eq!(app.theme.cursor_input, CursorShape::Bar);
}

#[test]
fn the_help_panel() {
    let bytes = numbered(10);
    let mut app = open(&bytes);
    app.on_key(KeyPress { code: KeyCode::F(1), ctrl: false });
    assert!(matches!(app.mode, Mode::Help));
    let widgets = app.draw(SCREEN);
    let lines = texts(&widgets[0]);
    assert!(lines[0].starts_with("logviewer 帮助"));
    assert_eq!(lines.len(), 11);
    let tall = RectLike { x: 0, y: 0, w: 60, h: 80 };
    let widgets = app.draw(tall);
    assert!(texts(&widgets[0]).last().unwrap().starts_with("提示："));
    press(&mut app, "q");
    assert!(matches!(app.mode, Mode::Normal));
    assert!(!app.quit);
}

#[test]
fn a_long_command_is_scrolled() {
    let bytes = numbered(10);
    let mut app = open(&bytes);
    press(&mut app, "/");
    press(&mut app, &"a".repeat(100));
    let widgets = frame(&mut app);
    let line = &texts(&widgets[2])[0];
    assert_eq!(line, &format!("/...{} ", "a".repeat(55)));
    for _ in 0..50 {
        app.on_key(KeyPress { code: KeyCode::Left, ctrl: false });
    }
    let widgets = frame(&mut app);
    let line = &texts(&widgets[2])[0];
    assert_eq!(line.chars().count(), 60);
    assert!(line.starts_with("/a") && line.ends_with("..."), "{line}");
}

#[test]
fn exporting() {
    let bytes = numbered(3);
    let mut app = open(&bytes);
    frame(&mut app);
    search_for(&mut app, "row", &[1, 3]);
    press(&mut app, "e");
    let exported = app.effects.iter().find_map(|e| match e {
        Effect::Export { text, count } => Some((text.clone(), *count)),
        _ => None,
    });
    let (text, count) = exported.unwrap();
    assert_eq!(count, 2);
    assert!(text.contains("row 1 of the log") && text.contains("row 3 of the log"));
}

#[test]
fn lines_of_the_file() {
    let bytes = numbered(3);
    let file = disk(&bytes);
    let again = disk(&bytes);
    let mut app = App::open(
        file,
        "x.log".to_string(),
        "x.log".to_string(),
        None,
        None,
        None,
    )
    .unwrap();
    assert_eq!(app.main_read_line(2), Some("row 2 of the log".to_string()));
    assert_eq!(app.main_read_line(4), None);
    bytes.borrow_mut().extend_from_slice(b"more\n");
    app.renew_disk(again);
    assert_eq!(app.main_read_line(4), Some("more".to_string()));
}

#[test]
fn resizing_panes() {
    let bytes = numbered(100);
    let mut app = open(&bytes);
    frame(&mut app);
    search_for(&mut app, "row 1", &[1, 10]);
    press(&mut app, ";l");
    let before = frame(&mut app)[1].area.w;
    app.on_key(KeyPress { code: KeyCode::Right, ctrl: true });
    assert!(frame(&mut app)[1].area.w > before);
    app.on_key(KeyPress { code: KeyCode::Left, ctrl: true });
    assert_eq!(frame(&mut app)[1].area.w, before);
}

#[test]
fn widths_of_numbers() {
    assert_eq!(width_of_numbers(7), 4);
    assert_eq!(width_of_numbers(123_456), 6);
    assert_eq!(width_of_numbers(u64::MAX), 20);
    assert_eq!(cols_for_text(80, 4), 74);
    assert_eq!(cols_for_text(5, 4), 4);
}

#[test]
fn screens_of_all_heights() {
    let bytes = numbered(3);
    let mut app = open(&bytes);
    press(&mut app, "/");
    for h in [3u16, 4, 5, 24, 50, 1000] {
        for y in [0u16, 3] {
            let area = RectLike { x: 2, y, w: 33, h };
            app.prepare(area);
            let widgets = app.draw(area);
            assert_eq!(widgets[0].area, RectLike { x: 2, y, w: 33, h: h - 2 });
            assert_eq!(widgets[1].area, RectLike { x: 2, y: y + h - 2, w: 33, h: 1 });
            assert_eq!(widgets[2].area, RectLike { x: 2, y: y + h - 1, w: 33, h: 1 });
        }
    }
}
