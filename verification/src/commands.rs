//! What keys do while something is typed, chosen or selected.
use vstd::prelude::*;
use crate::app::{App, Effect, JumpKind, LAST_ID};
use crate::arrange::{overwritten, pane_added};
use crate::encoding::Encoding;
use crate::file::{DiskReply, DiskRequest};
use crate::history::{push_changes, pushed, History};
use crate::jumps::{jump_started, lemma_file_changed, search_begun};
use crate::keymap::{KeyCode, KeyPress};
use crate::layout::Dir;
use crate::modes::{
    browsed, greater, lesser, passing, CmdState, GotoState, HistoryState, Mode, VisualKind,
    VisualState,
};
use crate::moves::{focused_list_searched, lemma_list_changed, row_delta, with_selection};
use crate::panes::{
    lemma_below, line_numbers, matches_below, place_in, read_text, rising,
    text_or_empty, FileContent, MatchesContent,
};
use crate::search::{compile_regex, regex_compiled, source_of};
use crate::text::{
    chars_between, chars_of, copy_texts, decimal, decimal_value, join_texts, joined, number_text,
    parse_number, slice_chars, texts, trim_text, trimmed,
};
use crate::view::{moved, FileView};

verus! {

/// Whether a search is being typed, from nothing.
pub open spec fn search_typed<D: Fn(DiskRequest) -> DiskReply>(
    before: App<D>,
    after: App<D>,
    forward: bool,
) -> bool {
    &&& after == (App { mode: after.mode, ..before })
    &&& after.mode matches Mode::Cmd(cs) && cs.forward == forward && cs.buf@.len() == 0
        && cs.initial@.len() == 0 && texts(cs.hist@) == before.history.keywords()
        && cs.hist_pos is None && cs.cursor == 0
}

/// Whether what was typed was searched for: its ends trimmed, and nothing done
/// for nothing. A new keyword that can be searched for comes into the history.
pub open spec fn search_committed<D: Fn(DiskRequest) -> DiskReply>(
    before: App<D>,
    after: App<D>,
) -> bool {
    match before.mode {
        Mode::Cmd(cs) => {
            let pattern = trimmed(cs.buf@);
            let plain = App { mode: Mode::Normal, ..before };
            if pattern.len() == 0 {
                after == plain
            } else {
                exists|mid: App<D>|
                    {
                        &&& #[trigger] keyword_kept(plain, mid, pattern)
                        &&& if before.focus == 0 {
                            search_begun(mid, after, pattern, cs.forward)
                        } else {
                            focused_list_searched(mid, after, pattern, cs.forward)
                        }
                    }
            }
        },
        _ => after == before,
    }
}

/// Whether a keyword was put into the history, and the history is to be stored
/// if that changed it. A keyword that is no regular expression is not kept.
pub open spec fn keyword_kept<D: Fn(DiskRequest) -> DiskReply>(
    before: App<D>,
    after: App<D>,
    pattern: Seq<char>,
) -> bool {
    if regex_compiled(source_of(pattern, before.opts.case, before.opts.word)) is Err {
        after == before
    } else {
        &&& after == (App { history: after.history, effects: after.effects, ..before })
        &&& after.history.limit() == before.history.limit()
        &&& after.history.place() == before.history.place()
        &&& after.history.keywords() == pushed(
            before.history.keywords(),
            pattern,
            before.history.limit() as int,
        )
        &&& after.effects@ == if push_changes(before.history.keywords(), pattern) {
            before.effects@.push(Effect::SaveHistory)
        } else {
            before.effects@
        }
    }
}

/// Whether what is typed was edited as a key says.
pub open spec fn cmd_edited(before: CmdState, after: CmdState, key: KeyPress) -> bool {
    match key.code {
        KeyCode::Backspace => if before.cursor > 0 {
            after.edited(before, before.buf@.remove(before.cursor - 1), before.cursor - 1)
        } else {
            after == before
        },
        KeyCode::Delete => if before.cursor < before.buf@.len() {
            after.edited(before, before.buf@.remove(before.cursor as int), before.cursor as int)
        } else {
            after == before
        },
        KeyCode::Left => after == (CmdState {
            cursor: greater(before.cursor - 1, 0) as usize,
            ..before
        }),
        KeyCode::Right => after == (CmdState {
            cursor: lesser(before.cursor + 1, before.buf@.len() as int) as usize,
            ..before
        }),
        KeyCode::Home => after == (CmdState { cursor: 0, ..before }),
        KeyCode::End => after == (CmdState { cursor: before.buf@.len() as usize, ..before }),
        KeyCode::Up => browsed(before, after, true),
        KeyCode::Down => browsed(before, after, false),
        KeyCode::Char(c) => if c == 'u' && key.ctrl {
            after.edited(before, Seq::empty(), 0)
        } else if before.buf@.len() < usize::MAX {
            after.edited(before, before.buf@.insert(before.cursor as int, c), before.cursor + 1)
        } else {
            after == before
        },
        _ => after == before,
    }
}

/// Whether a key did what it does while a search is typed.
pub open spec fn cmd_key_done<D: Fn(DiskRequest) -> DiskReply>(
    before: App<D>,
    after: App<D>,
    key: KeyPress,
) -> bool {
    if key.code == KeyCode::Esc || (key.code == KeyCode::Char('c') && key.ctrl) {
        after == (App { mode: Mode::Normal, ..before })
    } else if key.code == KeyCode::Enter {
        search_committed(before, after)
    } else {
        &&& after == (App { mode: after.mode, ..before })
        &&& before.mode matches Mode::Cmd(cs) ==> (after.mode matches Mode::Cmd(cs2) && cmd_edited(
            cs,
            cs2,
            key,
        ))
    }
}

/// What the user is told where a list holds no such line, or where it was
/// found.
pub open spec fn list_line_told(line: u64, found: bool) -> Seq<char> {
    if found {
        "列表内定位到 "@ + decimal(line as nat) + " 行，按 Enter 跳转主窗"@
    } else {
        decimal(line as nat) + " 行不在当前结果列表中"@
    }
}

/// Whether the line with the number that was typed was gone to: in the file by
/// a jump, in a list by selecting it if it is there.
pub open spec fn goto_done<D: Fn(DiskRequest) -> DiskReply>(
    before: App<D>,
    after: App<D>,
) -> bool {
    match before.mode {
        Mode::Goto(gs) => {
            let plain = App { mode: Mode::Normal, ..before };
            let v = decimal_value(gs.buf@);
            let at = before.focus as int;
            if gs.buf@.len() == 0 || v == 0 || v > u64::MAX {
                after.told(plain, "无效行号"@)
            } else if before.focus == 0 {
                jump_started(plain, after, JumpKind::Goto(v as u64))
            } else {
                let lines = line_numbers(before.list(at).rows@);
                &&& after == (App { panes: after.panes, msg: after.msg, ..plain })
                &&& after.only_list(before, at)
                &&& after.list(at) == (MatchesContent {
                    sel: after.list(at).sel,
                    top: after.list(at).top,
                    ..before.list(at)
                })
                &&& rising(lines) ==> match place_in(lines, v as int) {
                    Some(k) => {
                        &&& after.list(at) == with_selection(before.list(at), k)
                        &&& after.msg@ == list_line_told(v as u64, true)
                    },
                    None => {
                        &&& after.list(at) == before.list(at)
                        &&& after.msg@ == list_line_told(v as u64, false)
                    },
                }
            }
        },
        _ => after == before,
    }
}

/// Whether a key did what it does while a line number is typed: only digits
/// are taken.
pub open spec fn goto_key_done<D: Fn(DiskRequest) -> DiskReply>(
    before: App<D>,
    after: App<D>,
    key: KeyPress,
) -> bool {
    match key.code {
        KeyCode::Esc => after == (App { mode: Mode::Normal, ..before }),
        KeyCode::Enter => goto_done(before, after),
        KeyCode::Backspace => {
            &&& after == (App { mode: after.mode, ..before })
            &&& before.mode matches Mode::Goto(gs) ==> (after.mode matches Mode::Goto(g2) && g2.buf@
                == if gs.buf@.len() > 0 {
                gs.buf@.drop_last()
            } else {
                gs.buf@
            })
        },
        KeyCode::Char(c) => if '0' <= c <= '9' {
            &&& after == (App { mode: after.mode, ..before })
            &&& before.mode matches Mode::Goto(gs) ==> (after.mode matches Mode::Goto(g2) && g2.buf@
                == gs.buf@.push(c))
        } else {
            after == before
        },
        _ => after == before,
    }
}

/// Whether the choice of a keyword was opened, if there are any.
pub open spec fn history_opened<D: Fn(DiskRequest) -> DiskReply>(
    before: App<D>,
    after: App<D>,
) -> bool {
    let n = before.history.keywords().len();
    if n == 0 {
        after.told(before, "还没有搜索历史"@)
    } else {
        &&& after == (App { mode: after.mode, ..before })
        &&& after.mode matches Mode::History(st) && st.filter@.len() == 0 && st.sel == 0
            && st.listed() == passing(before.history.keywords(), Seq::empty(), n)
    }
}

/// Whether the selected keyword was put into the input, to be searched for or
/// changed.
pub open spec fn keyword_picked<D: Fn(DiskRequest) -> DiskReply>(
    before: App<D>,
    after: App<D>,
) -> bool {
    match before.mode {
        Mode::History(st) => if st.list@.len() == 0 {
            after == (App { mode: Mode::Normal, ..before })
        } else {
            let word = before.history.keywords()[st.list@[st.sel as int] as int];
            &&& after == (App { mode: after.mode, msg: after.msg, ..before })
            &&& after.mode matches Mode::Cmd(cs) && cs.forward && cs.buf@ == word && cs.cursor
                == word.len() && cs.initial@.len() == 0 && texts(cs.hist@)
                == before.history.keywords() && cs.hist_pos is None
            &&& after.msg@ == "按 Enter 执行该搜索，或先修改再 Enter"@
        },
        _ => after == before,
    }
}

/// The selection after the list was made anew.
pub open spec fn kept_sel(sel: usize, n: nat) -> int {
    if sel < n {
        sel as int
    } else if n == 0 {
        0
    } else {
        n - 1
    }
}

/// Whether the filter has become this, and the list fits it.
pub open spec fn filtered(
    before: HistoryState,
    after: HistoryState,
    words: Seq<Seq<char>>,
    filter: Seq<char>,
) -> bool {
    &&& after.filter@ == filter
    &&& after.listed() == passing(words, filter, words.len())
    &&& after.sel == kept_sel(before.sel, after.list@.len())
}

/// Whether a key did what it does while a keyword is chosen.
pub open spec fn history_key_done<D: Fn(DiskRequest) -> DiskReply>(
    before: App<D>,
    after: App<D>,
    key: KeyPress,
) -> bool {
    match key.code {
        KeyCode::Esc => after == (App { mode: Mode::Normal, ..before }),
        KeyCode::Enter => keyword_picked(before, after),
        _ => {
            &&& after == (App { mode: after.mode, ..before })
            &&& before.mode matches Mode::History(st) ==> (after.mode matches Mode::History(s2)
                && match key.code {
                KeyCode::Backspace => filtered(
                    st,
                    s2,
                    before.history.keywords(),
                    if st.filter@.len() > 0 {
                        st.filter@.drop_last()
                    } else {
                        st.filter@
                    },
                ),
                KeyCode::Char(c) => filtered(
                    st,
                    s2,
                    before.history.keywords(),
                    st.filter@.push(c),
                ),
                KeyCode::Up => s2 == (HistoryState { sel: greater(st.sel - 1, 0) as usize, ..st }),
                KeyCode::Down => s2 == (HistoryState {
                    sel: if st.sel + 1 < st.list@.len() {
                        (st.sel + 1) as usize
                    } else {
                        st.sel
                    },
                    ..st
                }),
                _ => s2 == st,
            })
        },
    }
}

/// Whether a key did what it does while the help is shown: some keys close it.
pub open spec fn help_key_done<D: Fn(DiskRequest) -> DiskReply>(
    before: App<D>,
    after: App<D>,
    key: KeyPress,
) -> bool {
    let closes = key.code == KeyCode::Esc || key.code == KeyCode::Enter || key.code
        == KeyCode::Char(' ') || key.code == KeyCode::Char('q') || key.code == KeyCode::F(1);
    if closes {
        after == (App { mode: Mode::Normal, ..before })
    } else {
        after == before
    }
}

/// The side of the pane with the focus that a key puts a list on.
pub open spec fn side_of_key(c: char) -> Option<(Dir, bool)> {
    if c == 'h' {
        Some((Dir::H, true))
    } else if c == 'k' {
        Some((Dir::V, true))
    } else if c == 'j' {
        Some((Dir::V, false))
    } else if c == 'l' || c == 'n' || c == 'N' {
        Some((Dir::H, false))
    } else {
        None
    }
}

/// Whether a key did what it does while a place for a list is chosen: a side
/// of the pane with the focus, or a pane by its number.
pub open spec fn pick_key_done<D: Fn(DiskRequest) -> DiskReply>(
    before: App<D>,
    after: App<D>,
    key: KeyPress,
) -> bool {
    match (before.mode, key.code) {
        (_, KeyCode::Esc) => {
            &&& after == (App { mode: Mode::Normal, msg: after.msg, ..before })
            &&& after.msg@ == ""@
        },
        (Mode::PickTarget(ps), KeyCode::Char(c)) => {
            let plain = App { mode: Mode::Normal, ..before };
            match side_of_key(c) {
                Some(side) => pane_added(plain, after, ps.rows@, ps.tag@, side.0, side.1),
                None => if '1' <= c <= '9' {
                    overwritten(plain, after, ps.rows@, ps.tag@, (c as u64 - '0' as u64) as u64)
                } else {
                    after == before
                },
            }
        },
        _ => after == before,
    }
}

/// Whether a selection was begun at the cursor of the file.
pub open spec fn visual_begun<D: Fn(DiskRequest) -> DiskReply>(
    before: App<D>,
    after: App<D>,
    kind: VisualKind,
) -> bool {
    if before.focus != 0 {
        after.told(before, "视觉选择仅支持主文件窗"@)
    } else {
        &&& after == (App { panes: after.panes, mode: after.mode, ..before })
        &&& after.only_file(before)
        &&& after.file() == (FileContent { hscroll: 0, ..before.file() })
        &&& after.mode matches Mode::Visual(v) && v == (VisualState {
            kind,
            anchor_row: (before.file().view.cursor() + 1) as u64,
            anchor_col: 0,
            cur_col: 0,
        })
    }
}

/// The characters of the cursor's row.
pub open spec fn cursor_row_len<D: Fn(DiskRequest) -> DiskReply>(
    v: FileView<D>,
    c: Seq<u8>,
) -> nat {
    text_or_empty(c, (v.cursor() + 1) as u64, v.row_limit() as int, v.enc()).len()
}

/// Whether of a selection at most the cursor's column has changed.
pub open spec fn same_selection(before: Mode, after: Mode) -> bool {
    match before {
        Mode::Visual(s) => after matches Mode::Visual(s2) && s2 == (VisualState {
            cur_col: s2.cur_col,
            ..s
        }),
        _ => after == before,
    }
}

/// Whether the cursor of a selection went to the next row or to the one
/// before; its column stays within the row.
pub open spec fn visual_row_moved<D: Fn(DiskRequest) -> DiskReply>(
    before: App<D>,
    after: App<D>,
    down: bool,
) -> bool {
    &&& after == (App { panes: after.panes, mode: after.mode, ..before })
    &&& same_selection(before.mode, after.mode)
    &&& after.only_file(before)
    &&& after.file().same_but_view(before.file())
    &&& forall|c: Seq<u8>| #[trigger]
        before.file().view.shows(c) ==> after.file().view.shows(c)
    &&& exists|v: FileView<D>|
        {
            &&& #[trigger] moved(before.file().view, v, row_delta(down))
            &&& after.file().view.same_place(v)
            &&& forall|c: Seq<u8>| #[trigger]
                before.file().view.shows(c) ==> (before.mode matches Mode::Visual(s) ==> (
                after.mode matches Mode::Visual(s2) && s2 == (VisualState {
                    cur_col: lesser(s.cur_col as int, cursor_row_len(v, c) as int) as usize,
                    ..s
                })))
        }
}

/// Whether the cursor of a selection went to the next character or to the one
/// before, within the row.
pub open spec fn visual_col_moved<D: Fn(DiskRequest) -> DiskReply>(
    before: App<D>,
    after: App<D>,
    right: bool,
) -> bool {
    &&& after == (App { panes: after.panes, mode: after.mode, ..before })
    &&& same_selection(before.mode, after.mode)
    &&& after.only_file(before)
    &&& after.file().same_but_view(before.file())
    &&& forall|c: Seq<u8>| #[trigger]
        before.file().view.shows(c) ==> after.file().view.shows(c)
    &&& after.file().view.same_place(before.file().view)
    &&& forall|c: Seq<u8>| #[trigger]
        before.file().view.shows(c) ==> (before.mode matches Mode::Visual(s) ==> (
        after.mode matches Mode::Visual(s2) && s2 == (VisualState {
            cur_col: lesser(
                if right {
                    s.cur_col + 1
                } else {
                    greater(s.cur_col - 1, 0)
                },
                cursor_row_len(before.file().view, c) as int,
            ) as usize,
            ..s
        })))
}

/// The part of a row that is selected.
pub open spec fn selected_part(v: VisualState, cursor: u64, row: u64, text: Seq<char>) -> Seq<char> {
    match v.selected(cursor, row, text.len()) {
        Some(s) => chars_between(text, s.0, s.1),
        None => Seq::empty(),
    }
}

/// The selected parts of `n` rows from row `first` on.
pub open spec fn selected_parts(
    v: VisualState,
    cursor: u64,
    c: Seq<u8>,
    max: int,
    enc: Encoding,
    first: u64,
    n: nat,
) -> Seq<Seq<char>> {
    Seq::new(
        n,
        |i: int|
            selected_part(
                v,
                cursor,
                (first + i) as u64,
                text_or_empty(c, (first + i) as u64, max, enc),
            ),
    )
}

/// The text of a selection: its rows one below the other; whole rows end in a
/// line end.
pub open spec fn selected_text(kind: VisualKind, parts: Seq<Seq<char>>) -> Seq<char> {
    if kind == VisualKind::Line {
        joined(parts, "\n"@) + "\n"@
    } else {
        joined(parts, "\n"@)
    }
}

/// Whether the selection was handed out for the clipboard and has ended.
pub open spec fn selection_yanked<D: Fn(DiskRequest) -> DiskReply>(
    before: App<D>,
    after: App<D>,
) -> bool {
    match before.mode {
        Mode::Visual(v) => {
            let cursor = (before.file().view.cursor() + 1) as u64;
            let first = lesser(v.anchor_row as int, cursor as int) as u64;
            let n = (greater(v.anchor_row as int, cursor as int) - first + 1) as nat;
            &&& after == (App {
                panes: after.panes,
                mode: Mode::Normal,
                effects: after.effects,
                ..before
            })
            &&& after.only_file(before)
            &&& after.file().same_but_view(before.file())
            &&& after.file().view.same_place(before.file().view)
            &&& forall|c: Seq<u8>| #[trigger]
                before.file().view.shows(c) ==> after.file().view.shows(c)
            &&& after.effects@.len() == before.effects@.len() + 1
            &&& after.effects@.drop_last() == before.effects@
            &&& after.effects@.last() matches Effect::Copy { text, rows } && rows == n && (
            forall|c: Seq<u8>| #[trigger]
                before.file().view.shows(c) ==> text@ == selected_text(
                    v.kind,
                    selected_parts(
                        v,
                        cursor,
                        c,
                        before.file().view.row_limit() as int,
                        before.file().view.enc(),
                        first,
                        n,
                    ),
                ))
        },
        _ => after == before,
    }
}

/// Whether a key did what it does while text is selected.
pub open spec fn visual_key_done<D: Fn(DiskRequest) -> DiskReply>(
    before: App<D>,
    after: App<D>,
    key: KeyPress,
) -> bool {
    match key.code {
        KeyCode::Esc => after == (App { mode: Mode::Normal, ..before }),
        KeyCode::Left => visual_col_moved(before, after, false),
        KeyCode::Right => visual_col_moved(before, after, true),
        KeyCode::Up => visual_row_moved(before, after, false),
        KeyCode::Down => visual_row_moved(before, after, true),
        KeyCode::Char(c) => if c == 'y' {
            selection_yanked(before, after)
        } else if c == 'h' {
            visual_col_moved(before, after, false)
        } else if c == 'l' {
            visual_col_moved(before, after, true)
        } else if c == 'k' {
            visual_row_moved(before, after, false)
        } else if c == 'j' {
            visual_row_moved(before, after, true)
        } else {
            after == before
        },
        _ => after == before,
    }
}

/// What the user is told of a copy into the clipboard.
pub open spec fn copy_told(rows: u64, chars: nat, ok: bool) -> Seq<char> {
    if ok {
        "已复制 "@ + decimal(rows as nat) + " 行 / "@ + decimal(chars) + " 字符到系统剪贴板"@
    } else {
        "复制到系统剪贴板失败"@
    }
}

impl<D: Fn(DiskRequest) -> DiskReply> App<D> {
    /// Begins to type a search.
    pub fn start_cmd(&mut self, forward: bool)
        requires
            old(self).wf(),
        ensures
            final(self).wf(),
            search_typed(*old(self), *final(self), forward),
    {
        let hist = copy_texts(self.history.items());
        self.mode = Mode::Cmd(CmdState::new(forward, String::new(), hist));
    }

    /// Searches for what was typed: through the file, or through the list with
    /// the focus.
    pub fn commit_cmd(&mut self)
        requires
            old(self).wf(),
        ensures
            final(self).wf(),
            search_committed(*old(self), *final(self)),
    {
        if !self.mode.is_cmd() {
            return ;
        }
        let mut mode = Mode::Normal;
        std::mem::swap(&mut mode, &mut self.mode);
        let (forward, buf): (bool, String) = match mode {
            Mode::Cmd(cs) => (cs.forward, cs.buf),
            _ => {
                return ;
            },
        };
        let pattern = trim_text(buf.as_str());
        if pattern.is_empty() {
            return ;
        }
        let ghost plain = *self;
        proof {
            crate::text::lemma_trimmed(buf@);
        }
        if compile_regex(pattern, self.opts.case, self.opts.word).is_ok() {
            let changed: bool = self.history.push(pattern);
            if changed {
                self.effects.push(Effect::SaveHistory);
            }
        }
        assert(keyword_kept(plain, *self, pattern@));
        if self.focus == 0 {
            self.file_start_search(pattern, forward);
        } else {
            self.matches_do_search(pattern, forward);
        }
    }

    pub fn on_cmd_key(&mut self, key: KeyPress)
        requires
            old(self).wf(),
        ensures
            final(self).wf(),
            cmd_key_done(*old(self), *final(self), key),
    {
        let ctrl: bool = key.ctrl;
        match key.code {
            KeyCode::Esc => {
                self.mode = Mode::Normal;
                return ;
            },
            KeyCode::Enter => {
                self.commit_cmd();
                return ;
            },
            KeyCode::Char(c) => {
                if c == 'c' && ctrl {
                    self.mode = Mode::Normal;
                    return ;
                }
            },
            _ => {},
        }
        match &mut self.mode {
            Mode::Cmd(cs) => {
                match key.code {
                    KeyCode::Backspace => cs.backspace(),
                    KeyCode::Delete => cs.delete(),
                    KeyCode::Left => cs.move_cursor(false),
                    KeyCode::Right => cs.move_cursor(true),
                    KeyCode::Home => cs.home(),
                    KeyCode::End => cs.end(),
                    KeyCode::Up => cs.browse(true),
                    KeyCode::Down => cs.browse(false),
                    KeyCode::Char(c) => {
                        if c == 'u' && ctrl {
                            cs.clear();
                        } else if cs.buf.as_str().unicode_len() < usize::MAX {
                            cs.insert(c);
                        }
                    },
                    _ => {},
                }
            },
            _ => {},
        }
    }

    /// Begins to type a line number.
    pub fn start_goto(&mut self)
        requires
            old(self).wf(),
        ensures
            final(self).wf(),
            *final(self) == (App { mode: final(self).mode, ..*old(self) }),
            final(self).mode matches Mode::Goto(gs) && gs.buf@.len() == 0,
    {
        self.mode = Mode::Goto(GotoState::new());
    }

    /// Goes to the line whose number was typed.
    pub fn goto_execute(&mut self)
        requires
            old(self).wf(),
        ensures
            final(self).wf(),
            goto_done(*old(self), *final(self)),
    {
        if !self.mode.is_goto() {
            return ;
        }
        let mut mode = Mode::Normal;
        std::mem::swap(&mut mode, &mut self.mode);
        let buf: String = match mode {
            Mode::Goto(gs) => gs.buf,
            _ => {
                return ;
            },
        };
        let line1: u64 = match parse_number(buf.as_str()) {
            Some(v) => v,
            None => 0,
        };
        if line1 == 0 {
            self.set_msg("无效行号".to_owned());
            return ;
        }
        if self.focus == 0 {
            self.start_jump(JumpKind::Goto(line1));
            return ;
        }
        let at: usize = self.focus;
        let ghost before = *self;
        assert(self.list(at as int).wf());
        let mc = self.list_mut(at);
        let n: usize = mc.rows.len();
        let b: usize = matches_below(&mc.rows, line1);
        let found: bool = b < n && mc.rows[b].line_no == line1;
        proof {
            let lines = line_numbers(mc.rows@);
            if rising(lines) {
                lemma_below(lines, line1 as int);
                if b < n {
                    assert(lines[b as int] == mc.rows@[b as int].line_no);
                }
            }
        }
        if found {
            mc.select(b);
        }
        proof {
            lemma_list_changed(before, *self, at as int);
        }
        if found {
            let mut m = "列表内定位到 ".to_owned();
            m.append(number_text(line1).as_str());
            m.append(" 行，按 Enter 跳转主窗");
            self.set_msg(m);
        } else {
            let mut m = number_text(line1);
            m.append(" 行不在当前结果列表中");
            self.set_msg(m);
        }
    }

    pub fn on_goto_key(&mut self, key: KeyPress)
        requires
            old(self).wf(),
        ensures
            final(self).wf(),
            goto_key_done(*old(self), *final(self), key),
    {
        match key.code {
            KeyCode::Esc => {
                self.mode = Mode::Normal;
            },
            KeyCode::Enter => {
                self.goto_execute();
            },
            KeyCode::Backspace => {
                if let Mode::Goto(gs) = &mut self.mode {
                    gs.backspace();
                }
            },
            KeyCode::Char(c) => {
                if '0' <= c && c <= '9' {
                    if let Mode::Goto(gs) = &mut self.mode {
                        gs.push(c);
                    }
                }
            },
            _ => {},
        }
    }

    /// Opens the choice of a keyword of the history.
    pub fn start_history(&mut self)
        requires
            old(self).wf(),
        ensures
            final(self).wf(),
            history_opened(*old(self), *final(self)),
    {
        let items = self.history.items();
        proof {
            assert(texts(items@).len() == items@.len());
        }
        if items.len() == 0 {
            self.set_msg("还没有搜索历史".to_owned());
            return ;
        }
        let st = HistoryState::new(items);
        assert(st.sel == 0);
        self.mode = Mode::History(st);
    }

    /// Puts the selected keyword into the input.
    fn pick_keyword(&mut self)
        requires
            old(self).wf(),
        ensures
            final(self).wf(),
            keyword_picked(*old(self), *final(self)),
    {
        let items = self.history.items();
        proof {
            assert(texts(items@).len() == items@.len());
        }
        let picked: Option<String> = match &self.mode {
            Mode::History(st) => {
                if st.list.len() == 0 {
                    None
                } else {
                    let place: usize = st.list[st.sel];
                    assert(texts(items@)[place as int] == items@[place as int]@);
                    Some(items[place].clone())
                }
            },
            _ => {
                return ;
            },
        };
        match picked {
            None => {
                self.mode = Mode::Normal;
            },
            Some(item) => {
                let hist = copy_texts(items);
                self.mode = Mode::Cmd(CmdState::new(true, item, hist));
                self.set_msg("按 Enter 执行该搜索，或先修改再 Enter".to_owned());
            },
        }
    }

    pub fn on_history_key(&mut self, key: KeyPress)
        requires
            old(self).wf(),
        ensures
            final(self).wf(),
            history_key_done(*old(self), *final(self), key),
    {
        match key.code {
            KeyCode::Esc => {
                self.mode = Mode::Normal;
                return ;
            },
            KeyCode::Enter => {
                self.pick_keyword();
                return ;
            },
            _ => {},
        }
        let items = copy_texts(self.history.items());
        proof {
            assert(texts(items@).len() == items@.len());
        }
        if let Mode::History(st) = &mut self.mode {
            match key.code {
                KeyCode::Backspace => st.backspace(items.as_slice()),
                KeyCode::Up => st.up(),
                KeyCode::Down => st.down(),
                KeyCode::Char(c) => st.push(c, items.as_slice()),
                _ => {},
            }
        }
    }

    pub fn on_help_key(&mut self, key: KeyPress)
        requires
            old(self).wf(),
        ensures
            final(self).wf(),
            help_key_done(*old(self), *final(self), key),
    {
        let closes: bool = match key.code {
            KeyCode::Esc => true,
            KeyCode::Enter => true,
            KeyCode::Char(c) => c == ' ' || c == 'q',
            KeyCode::F(n) => n == 1,
            _ => false,
        };
        if closes {
            self.mode = Mode::Normal;
        }
    }

    pub fn on_pick_key(&mut self, key: KeyPress)
        requires
            old(self).wf(),
            old(self).next_id < LAST_ID,
        ensures
            final(self).wf(),
            pick_key_done(*old(self), *final(self), key),
    {
        let c: char = match key.code {
            KeyCode::Esc => {
                self.mode = Mode::Normal;
                self.set_msg("".to_owned());
                return ;
            },
            KeyCode::Char(c) => c,
            _ => {
                return ;
            },
        };
        if !self.mode.is_pick() {
            return ;
        }
        let side: Option<(Dir, bool)> = if c == 'h' {
            Some((Dir::H, true))
        } else if c == 'k' {
            Some((Dir::V, true))
        } else if c == 'j' {
            Some((Dir::V, false))
        } else if c == 'l' || c == 'n' || c == 'N' {
            Some((Dir::H, false))
        } else {
            None
        };
        if side.is_none() && !('1' <= c && c <= '9') {
            return ;
        }
        let mut mode = Mode::Normal;
        std::mem::swap(&mut mode, &mut self.mode);
        if let Mode::PickTarget(ps) = mode {
            match side {
                Some((dir, new_first)) => {
                    self.new_matches_pane(ps.rows, ps.tag, dir, new_first);
                },
                None => {
                    self.pick_overwrite(ps, c as u64 - '0' as u64);
                },
            }
        }
    }

    /// Begins a selection at the cursor of the file.
    pub fn start_visual(&mut self, kind: VisualKind)
        requires
            old(self).wf(),
        ensures
            final(self).wf(),
            visual_begun(*old(self), *final(self), kind),
    {
        if self.focus != 0 {
            self.set_msg("视觉选择仅支持主文件窗".to_owned());
            return ;
        }
        let row: u64 = self.file_ref().view.cursor_line1();
        self.file_mut().hscroll = 0;
        proof {
            lemma_file_changed(*old(self), *self);
        }
        self.mode = Mode::Visual(
            VisualState { kind, anchor_row: row, anchor_col: 0, cur_col: 0 },
        );
    }

    /// The characters of the cursor's row.
    fn visual_cur_len(&mut self) -> (r: usize)
        requires
            old(self).wf(),
        ensures
            final(self).wf(),
            *final(self) == (App { panes: final(self).panes, ..*old(self) }),
            final(self).only_file(*old(self)),
            final(self).file().same_but_view(old(self).file()),
            final(self).file().view.same_place(old(self).file().view),
            forall|c: Seq<u8>| #[trigger]
                old(self).file().view.shows(c) ==> r == cursor_row_len(old(self).file().view, c)
                    && final(self).file().view.in_step(c),
    {
        let row: u64 = self.file_ref().view.cursor_line1();
        let fc = self.file_mut();
        let text = read_text(&mut fc.view, row);
        proof {
            lemma_file_changed(*old(self), *self);
        }
        text.as_str().unicode_len()
    }

    fn visual_move_row(&mut self, down: bool)
        requires
            old(self).wf(),
        ensures
            final(self).wf(),
            visual_row_moved(*old(self), *final(self), down),
    {
        let ghost v0 = self.file().view;
        let fc = self.file_mut();
        fc.view.move_cursor(
            if down {
                1
            } else {
                -1
            },
        );
        let ghost v1 = fc.view;
        assert(moved(v0, v1, row_delta(down)));
        proof {
            lemma_file_changed(*old(self), *self);
        }
        let ghost mid = *self;
        let len: usize = self.visual_cur_len();
        if let Mode::Visual(v) = &mut self.mode {
            if v.cur_col > len {
                v.cur_col = len;
            }
        }
        proof {
            assert forall|i: int| 1 <= i < old(self).panes@.len() implies #[trigger] self.panes@[i]
                == old(self).panes@[i] by {
                assert(mid.panes@[i] == old(self).panes@[i]);
            }
            assert forall|c: Seq<u8>| #[trigger] v0.shows(c) implies len == cursor_row_len(v1, c) by {
                assert(v1.shows(c));
            }
        }
    }

    fn visual_move_col(&mut self, right: bool)
        requires
            old(self).wf(),
        ensures
            final(self).wf(),
            visual_col_moved(*old(self), *final(self), right),
    {
        let len: usize = self.visual_cur_len();
        if let Mode::Visual(v) = &mut self.mode {
            let to: usize = if right {
                v.cur_col.saturating_add(1)
            } else {
                v.cur_col.saturating_sub(1)
            };
            v.cur_col = if to > len {
                len
            } else {
                to
            };
        }
    }

    /// The rows that a selection spans, counted from 1.
    pub fn visual_row_span(&self) -> (r: Option<(u64, u64)>)
        requires
            self.wf(),
        ensures
            r == match self.mode {
                Mode::Visual(v) => Some(
                    (
                        lesser(v.anchor_row as int, self.file().view.cursor() + 1) as u64,
                        greater(v.anchor_row as int, self.file().view.cursor() + 1) as u64,
                    ),
                ),
                _ => None,
            },
    {
        match &self.mode {
            Mode::Visual(v) => {
                let cursor: u64 = self.file_ref().view.cursor_line1();
                if v.anchor_row < cursor {
                    Some((v.anchor_row, cursor))
                } else {
                    Some((cursor, v.anchor_row))
                }
            },
            _ => None,
        }
    }

    /// Hands the selection out for the clipboard and ends it.
    pub fn visual_yank(&mut self)
        requires
            old(self).wf(),
        ensures
            final(self).wf(),
            selection_yanked(*old(self), *final(self)),
    {
        let (first, last): (u64, u64) = match self.visual_row_span() {
            None => {
                return ;
            },
            Some(span) => span,
        };
        let cursor: u64 = self.file_ref().view.cursor_line1();
        let mut mode = Mode::Normal;
        std::mem::swap(&mut mode, &mut self.mode);
        let v: VisualState = match mode {
            Mode::Visual(v) => v,
            _ => {
                return ;
            },
        };
        let ghost v0 = self.file().view;
        let ghost max = v0.row_limit() as int;
        let ghost enc = v0.enc();
        let fc = self.file_mut();
        let ghost fc0 = *fc;
        let mut parts: Vec<String> = Vec::new();
        let count: u64 = last - first + 1;
        let mut i: u64 = 0;
        while i < count
            invariant
                i <= count,
                count == last - first + 1,
                first >= 1,
                fc.same_but_view(fc0),
                fc.view.wf(),
                fc.view.same_place(v0),
                v0 == fc0.view,
                max == v0.row_limit(),
                enc == v0.enc(),
                parts@.len() == i,
                forall|c: Seq<u8>| #[trigger]
                    v0.shows(c) ==> fc.view.shows(c) && texts(parts@) == selected_parts(
                        v,
                        cursor,
                        c,
                        max,
                        enc,
                        first,
                        i as nat,
                    ),
            decreases count - i,
        {
            let ghost before = fc.view;
            let ghost sofar = texts(parts@);
            let row: u64 = first + i;
            let text = read_text(&mut fc.view, row);
            let len: usize = text.as_str().unicode_len();
            let part: String = match v.selected_cols(cursor, row, len) {
                Some((lo, hi)) => slice_chars(text.as_str(), lo, hi),
                None => String::new(),
            };
            let ghost piece = part@;
            parts.push(part);
            proof {
                assert(texts(parts@) =~= sofar.push(piece));
                assert forall|c: Seq<u8>| #[trigger] v0.shows(c) implies fc.view.shows(c) && texts(
                    parts@,
                ) == selected_parts(v, cursor, c, max, enc, first, (i + 1) as nat) by {
                    assert(before.shows(c));
                    assert(fc.view.in_step(c));
                    assert(piece == selected_part(v, cursor, row, text_or_empty(c, row, max, enc)));
                    assert(texts(parts@) =~= selected_parts(
                        v,
                        cursor,
                        c,
                        max,
                        enc,
                        first,
                        (i + 1) as nat,
                    ));
                }
            }
            i += 1;
        }
        proof {
            lemma_file_changed(*old(self), *self);
        }
        let mut text = join_texts(&parts, "\n");
        if v.kind == VisualKind::Line {
            text.append("\n");
        }
        let ghost sofar = self.effects@;
        self.effects.push(Effect::Copy { text, rows: count });
        assert(self.effects@.drop_last() =~= sofar);
    }

    /// Says how a copy into the clipboard went.
    pub fn copy_done(&mut self, rows: u64, text: &str, ok: bool)
        requires
            old(self).wf(),
        ensures
            final(self).wf(),
            final(self).told(*old(self), copy_told(rows, text@.len(), ok)),
    {
        if ok {
            let chars: usize = chars_of(text).len();
            let mut m = "已复制 ".to_owned();
            m.append(number_text(rows).as_str());
            m.append(" 行 / ");
            m.append(number_text(chars as u64).as_str());
            m.append(" 字符到系统剪贴板");
            self.set_msg(m);
        } else {
            self.set_msg("复制到系统剪贴板失败".to_owned());
        }
    }

    pub fn on_visual_key(&mut self, key: KeyPress)
        requires
            old(self).wf(),
        ensures
            final(self).wf(),
            visual_key_done(*old(self), *final(self), key),
    {
        match key.code {
            KeyCode::Esc => {
                self.mode = Mode::Normal;
            },
            KeyCode::Left => self.visual_move_col(false),
            KeyCode::Right => self.visual_move_col(true),
            KeyCode::Up => self.visual_move_row(false),
            KeyCode::Down => self.visual_move_row(true),
            KeyCode::Char(c) => {
                if c == 'y' {
                    self.visual_yank();
                } else if c == 'h' {
                    self.visual_move_col(false);
                } else if c == 'l' {
                    self.visual_move_col(true);
                } else if c == 'k' {
                    self.visual_move_row(false);
                } else if c == 'j' {
                    self.visual_move_row(true);
                }
            },
            _ => {},
        }
    }
}

/// The history keeps what was searched for, and nothing else: a keyword that is
/// no regular expression leaves it, and the effects, as they were.
pub proof fn law_history_keeps_what_was_searched_for<D: Fn(DiskRequest) -> DiskReply>(
    before: App<D>,
    after: App<D>,
)
    requires
        before.mode is Cmd,
        search_committed(before, after),
    ensures
        after.mode is Normal,
        ({
            let pattern = trimmed(before.mode->Cmd_0.buf@);
            let re = regex_compiled(source_of(pattern, before.opts.case, before.opts.word));
            if pattern.len() == 0 || re is Err {
                &&& after.history == before.history
                &&& after.effects == before.effects
            } else {
                after.history.keywords() == pushed(
                    before.history.keywords(),
                    pattern,
                    before.history.limit() as int,
                )
            }
        }),
{
}

} // verus!
