use logviewer::app::{first_config, utf16_limit};
use logviewer::config::section;
use logviewer::history::{clean_list, History, DEFAULT_HISTORY_CAP, HISTORY_CAP};
use logviewer::keymap::{action_by_name, Action, KeyCode, KeyPress, KeySpec, Keymap};
use logviewer::theme::{parse_color, parse_shape, Color, CursorShape, Theme};

#[test]
fn parse_specs() {
    assert_eq!(KeySpec::parse("j"), Some(KeySpec::Char('j', false)));
    assert_eq!(KeySpec::parse("C-d"), Some(KeySpec::Char('d', true)));
    assert_eq!(KeySpec::parse("pgdn"), Some(KeySpec::Fun("pgdn", false)));
    assert_eq!(KeySpec::parse("C-left"), Some(KeySpec::Fun("left", true)));
    assert_eq!(KeySpec::parse("/"), Some(KeySpec::Char('/', false)));
    assert_eq!(KeySpec::parse(""), None);
}

#[test]
fn keys_that_are_not_named() {
    assert_eq!(KeySpec::parse("nosuchkey"), None);
    assert_eq!(KeySpec::parse("f13"), None);
    assert_eq!(KeySpec::parse("f12"), Some(KeySpec::Fun("f12", false)));
}

#[test]
fn defaults_cover_actions() {
    let km = Keymap::default();
    for name in [
        "quit",
        "scroll_line_down",
        "scroll_line_up",
        "search_fwd",
        "open_match_pane",
        "wrap",
        "history",
    ] {
        let act = action_by_name(name).unwrap();
        assert!(
            km.help_entries().iter().any(|(a, keys)| *a == act && !keys.is_empty()),
            "{name} 应有默认键"
        );
    }
    assert_eq!(action_by_name("nothing"), None);
}

#[test]
fn template_is_valid_toml() {
    let t = Keymap::default_template();
    assert!(t.parse::<toml::Table>().is_ok());
}

#[test]
fn the_first_configuration_gives_the_defaults() {
    let text = first_config();
    assert!(text.parse::<toml::Table>().is_ok());
    let km = Keymap::load_or_default(Some(&text));
    let default = Keymap::default();
    for name in ["j", "k", "C-left", "f1", "q", ";", "$"] {
        let key = KeySpec::parse(name).unwrap();
        assert_eq!(km.action(&key), default.action(&key), "{name}");
    }
    assert_eq!(km.help_entries(), default.help_entries());
    assert_eq!(History::cap_from_toml(Some(&text)), DEFAULT_HISTORY_CAP);
    assert_eq!(utf16_limit(Some(&text)), 512 << 20);
    let theme = Theme::from_toml(Some(&text));
    assert_eq!(theme.cursor_line_bg, Color::Blue);
    assert_eq!(theme.cursor_input, CursorShape::Bar);
    assert_eq!(theme, Theme::default());
}

#[test]
fn limits_for_utf16() {
    assert_eq!(utf16_limit(None), 512 << 20);
    assert_eq!(utf16_limit(Some("[misc]\nutf16_buffer_mb = 3\n")), 16 << 20);
    assert_eq!(utf16_limit(Some("[misc]\nutf16_buffer_mb = 100\n")), 100 << 20);
    assert_eq!(utf16_limit(Some("[misc]\nutf16_buffer_mb = 99999\n")), 16384 << 20);
    assert_eq!(utf16_limit(Some("[misc]\nutf16_buffer_mb = \"x\"\n")), 512 << 20);
}

#[test]
fn settings_give_an_action_its_keys() {
    let km = Keymap::load_or_default(Some("[keys]\nquit = [\"C-q\", \"f2\"]\nnothing = \"x\"\n"));
    let quit = Some(Action::Quit);
    assert_eq!(km.action(&KeySpec::parse("C-q").unwrap()), quit);
    assert_eq!(km.action(&KeySpec::parse("f2").unwrap()), quit);
    // The default key of the action no longer stands for it.
    assert_eq!(km.action(&KeySpec::parse("q").unwrap()), None);
    // Other actions keep their keys.
    assert_eq!(
        km.action(&KeySpec::parse("j").unwrap()),
        Some(Action::ScrollLineDown)
    );
    let single = Keymap::load_or_default(Some("[keys]\nwrap = \"f9\"\n"));
    assert_eq!(
        single.action(&KeySpec::parse("f9").unwrap()),
        Some(Action::Wrap)
    );
    let broken = Keymap::load_or_default(Some("[keys\n"));
    assert_eq!(broken.action(&KeySpec::parse("q").unwrap()), quit);
}

#[test]
fn pressed_keys() {
    let key = |code, ctrl| KeySpec::from_key(&KeyPress { code, ctrl });
    assert_eq!(key(KeyCode::Char('d'), true), Some(KeySpec::Char('d', true)));
    assert_eq!(key(KeyCode::PageDown, false), Some(KeySpec::Fun("pgdn", false)));
    assert_eq!(key(KeyCode::F(1), false), Some(KeySpec::Fun("f1", false)));
    assert_eq!(key(KeyCode::Other, false), None);
    assert_eq!(key(KeyCode::Char('D'), true), KeySpec::parse("C-d"));
    assert_eq!(key(KeyCode::Char('D'), false), KeySpec::parse("D"));
}

#[test]
fn the_space_bar_is_the_key_space() {
    for ctrl in [false, true] {
        let key = KeySpec::from_key(&KeyPress { code: KeyCode::Char(' '), ctrl });
        assert_eq!(key, Some(KeySpec::Fun("space", ctrl)));
        assert_eq!(key, KeySpec::parse(if ctrl { "C-space" } else { "space" }));
        assert_eq!(key, KeySpec::parse(if ctrl { "C- " } else { " " }));
    }
    let km = Keymap::load_or_default(Some("[keys]\npage_down = \"space\"\n"));
    let bar = KeySpec::from_key(&KeyPress { code: KeyCode::Char(' '), ctrl: false }).unwrap();
    assert_eq!(km.action(&bar), Some(Action::PageDown));
}

#[test]
fn several_keys_in_one_text() {
    let action = |km: &Keymap, name| km.action(&KeySpec::parse(name).unwrap());
    let km = Keymap::load_or_default(Some("[keys]\nquit = \"q,C-c\"\n"));
    assert_eq!(action(&km, "q"), Some(Action::Quit));
    assert_eq!(action(&km, "C-c"), Some(Action::Quit));
    let km = Keymap::load_or_default(Some("[keys]\nquit = \"f2, C-q ,Q\"\n"));
    assert_eq!(action(&km, "f2"), Some(Action::Quit));
    assert_eq!(action(&km, "C-q"), Some(Action::Quit));
    assert_eq!(action(&km, "Q"), Some(Action::Quit));
    assert_eq!(action(&km, "q"), None);
    // A comma alone, or with the control key, is a key.
    let km = Keymap::load_or_default(Some("[keys]\nwrap = \",\"\nzoom = \"C-,\"\n"));
    assert_eq!(action(&km, ","), Some(Action::Wrap));
    assert_eq!(action(&km, "C-,"), Some(Action::Zoom));
    // In a list each text is one key.
    let km = Keymap::load_or_default(Some("[keys]\nwrap = [\"a,b\", \",\"]\n"));
    assert_eq!(action(&km, "a"), None);
    assert_eq!(action(&km, ","), Some(Action::Wrap));
}

#[test]
fn a_shown_key_names_itself() {
    for name in ["j", "G", "C-d", "C-D", "pgdn", "Tab", "C-left", "f12", "space", " ", ",", "é"] {
        let key = KeySpec::parse(name).unwrap();
        assert_eq!(KeySpec::parse(&Keymap::format_spec(&key)), Some(key), "{name}");
    }
    assert_eq!(Keymap::format_spec(&KeySpec::Fun("straße", true)), "C-STRASSE");
}

#[test]
fn help_of_the_default_keys() {
    let entries = Keymap::default().help_entries();
    assert_eq!(entries.len(), 37);
    assert_eq!(entries[0], (Action::Quit, "C-c  /  q".to_string()));
    assert_eq!(entries[3], (Action::ScrollLineDown, "C-n  /  DOWN  /  j".to_string()));
    assert_eq!(entries[36], (Action::ToggleWord, "W".to_string()));
    for (action, keys) in &entries {
        assert!(!keys.is_empty(), "{action:?}");
        assert_eq!(entries.iter().filter(|(a, _)| a == action).count(), 1);
    }
    let km = Keymap::load_or_default(Some("[keys]\nwrap = []\n"));
    let wrap = km.help_entries().into_iter().find(|(a, _)| *a == Action::Wrap).unwrap();
    assert_eq!(wrap.1, "");
}

#[test]
fn listing_default_keys_changes_nothing() {
    let text = Keymap::default_template();
    let km = Keymap::load_or_default(Some(&text));
    assert_eq!(km.help_entries(), Keymap::default().help_entries());
    for text in ["", "keys = 3\n", "[keys\n", "[theme]\n"] {
        let km = Keymap::load_or_default(Some(text));
        assert_eq!(km.help_entries(), Keymap::default().help_entries(), "{text}");
    }
}

#[test]
fn keys_are_shown() {
    let shown = |name| Keymap::format_spec(&KeySpec::parse(name).unwrap());
    assert_eq!(shown("j"), "j");
    assert_eq!(shown("C-d"), "C-d");
    assert_eq!(shown("pgdn"), "PGDN");
    assert_eq!(shown("C-left"), "C-LEFT");
}

#[test]
fn help_lists_the_keys_in_order() {
    let km = Keymap::load_or_default(Some("[keys]\nquit = [\"x\", \"q\"]\n"));
    let entries = km.help_entries();
    let quit = entries.iter().find(|(a, _)| *a == Action::Quit).unwrap();
    assert_eq!(quit.1, "q  /  x");
    assert_eq!(Keymap::action_label(Action::Quit), "退出程序");
}

#[test]
fn parse_colors() {
    assert_eq!(parse_color("red"), Some(Color::Red));
    assert_eq!(parse_color("dark_gray"), Some(Color::DarkGray));
    assert_eq!(parse_color("#FF0000"), Some(Color::Rgb(255, 0, 0)));
    assert_eq!(parse_color("nope"), None);
}

#[test]
fn colors_whatever_their_case() {
    assert_eq!(parse_color("  Light_Blue "), Some(Color::LightBlue));
    assert_eq!(parse_color("#00ff7f"), Some(Color::Rgb(0, 255, 127)));
    assert_eq!(parse_color("#12345"), None);
    assert_eq!(parse_color("#12345g"), None);
    assert_eq!(parse_color("#+1+2+3"), Some(Color::Rgb(1, 2, 3)));
    assert_eq!(parse_color("#1+2+3+"), None);
    assert_eq!(parse_color("#++0102"), None);
    assert_eq!(parse_color("0xfF0A+c"), Some(Color::Rgb(255, 10, 12)));
}

#[test]
fn shapes() {
    assert_eq!(parse_shape("bar"), Some(CursorShape::Bar));
    assert_eq!(parse_shape("hidden"), Some(CursorShape::Hidden));
    assert_eq!(parse_shape("x"), None);
}

#[test]
fn toml_override() {
    let text = "[theme]\ncursor_line_bg=\"red\"\nkeyword=\"#00FF00\"\ncursor_normal=\"bar\"\n";
    let t = Theme::from_toml(Some(text));
    assert_eq!(t.cursor_line_bg, Color::Red);
    assert_eq!(t.keyword, Color::Rgb(0, 255, 0));
    assert_eq!(t.cursor_normal, CursorShape::Bar);
    assert_eq!(t.cursor_input, CursorShape::Bar);
}

#[test]
fn sections_of_a_text() {
    let s = section("[a]\nx = 3\ny = \"z\"\n[b]\n", "a").unwrap();
    assert_eq!(s.number("x"), Some(3));
    assert_eq!(s.text("y"), Some("z"));
    assert_eq!(s.number("y"), None);
    assert_eq!(s.text("none"), None);
    assert!(section("[a]\n", "c").is_none());
    assert!(section("a = 1\n", "a").is_none());
    assert!(section("not toml at all", "a").is_none());
}

#[test]
fn push_dedupe_and_cap() {
    let mut h = History::load("hist".to_string(), None);
    assert!(h.push("walog|JIIGAN"));
    assert!(h.push("error"));
    assert!(h.push("walog|JIIGAN"));
    assert_eq!(h.items(), &["walog|JIIGAN", "error"]);
    assert!(!h.push("walog|JIIGAN"));
    let stored = h.save().unwrap();
    let h2 = History::load("hist".to_string(), Some(&stored));
    assert_eq!(h2.items(), &["walog|JIIGAN", "error"]);
    assert_eq!(h2.path(), "hist");
}

#[test]
fn load_cleans_empty_and_dupes() {
    let h = History::load(
        "histclean".to_string(),
        Some(r#"["error", "", "  ", "error", "walog|JIIGAN", "error"]"#),
    );
    assert_eq!(h.items(), &["error", "walog|JIIGAN"]);
}

#[test]
fn cap_truncates() {
    let mut h = History::load_cap("histcap".to_string(), None, HISTORY_CAP);
    for i in 0..(HISTORY_CAP + 20) {
        h.push(&format!("kw{i}"));
    }
    assert_eq!(h.items().len(), HISTORY_CAP);
    assert_eq!(h.items()[0], format!("kw{}", HISTORY_CAP + 19));
}

#[test]
fn custom_cap_from_toml() {
    assert_eq!(History::cap_from_toml(Some("[history]\ncap = 5\n")), 5);
    assert_eq!(
        History::cap_from_toml(Some("[history]\ncap = \"x\"\n")),
        DEFAULT_HISTORY_CAP
    );
    assert_eq!(History::cap_from_toml(Some("")), DEFAULT_HISTORY_CAP);
}

#[test]
fn caps_stay_in_their_limits() {
    assert_eq!(History::cap_from_toml(Some("[history]\ncap = -3\n")), 1);
    assert_eq!(History::cap_from_toml(Some("[history]\ncap = 9999999\n")), 100_000);
    assert_eq!(History::cap_from_toml(None), DEFAULT_HISTORY_CAP);
}

#[test]
fn stored_keywords_that_do_not_parse() {
    assert!(History::load("h".to_string(), Some("{")).items().is_empty());
    assert!(History::load("h".to_string(), Some("[1, 2]")).items().is_empty());
    assert!(History::in_memory().items().is_empty());
    assert_eq!(History::in_memory().path(), "");
}

#[test]
fn keywords_with_quotes_read_back() {
    let mut h = History::load("h".to_string(), None);
    h.push("a\"b\\c\n日志");
    h.push("  padded  ");
    assert!(!h.push("   "));
    let stored = h.save().unwrap();
    let again = History::load("h".to_string(), Some(&stored));
    assert_eq!(again.items(), &["padded", "a\"b\\c\n日志"]);
}

#[test]
fn a_clean_list_stays() {
    let listed = vec!["a".to_string(), "b".to_string()];
    assert_eq!(clean_list(&listed), listed);
}
