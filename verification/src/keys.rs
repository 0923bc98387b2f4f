//! What each key does, by the mode of the program.
use vstd::prelude::*;
use crate::app::{App, JumpKind, LAST_ID};
use crate::arrange::{
    focus_chosen, focus_moved, nudged, pane_closed, pick_entered, zoom_toggled, KeyDir,
};
use crate::commands::{
    cmd_key_done, goto_key_done, help_key_done, history_key_done, history_opened, pick_key_done,
    search_typed, visual_begun, visual_key_done,
};
use crate::file::{DiskReply, DiskRequest};
use crate::jumps::{
    file_stepped, follow_toggled, followed_end, harvested, jump_cancelled, jump_processed,
    jump_started, quit_tried, search_cleared, SearchNews,
};
use crate::keymap::{key_pressed, Action, KeyCode, KeyPress, KeySpec};
use crate::layout::balanced;
use crate::modes::{Mode, VisualKind};
use crate::moves::{
    end_of_row_shown, export_asked, list_cleared, list_line_opened, list_stepped, pane_at_end,
    pane_at_home, pane_moved, pane_paged, pane_side_scrolled, wrap_toggled,
};
use crate::panes::SearchPrefs;
use crate::search::Case;

verus! {

/// The columns that a key scrolls to the side.
pub const SIDE_STEP: i64 = 8;

/// What the user is told of a case mode.
pub open spec fn case_told(case: Case) -> Seq<char> {
    "大小写匹配："@ + case.name() + "（"@ + (match case {
        Case::Smart => "全小写关键字自动忽略大小写"@,
        Case::Insensitive => "忽略大小写"@,
        Case::Sensitive => "区分大小写"@,
    }) + "）"@
}

/// What the user is told of matching whole words.
pub open spec fn word_told(on: bool) -> Seq<char> {
    if on {
        "整词匹配：开"@
    } else {
        "整词匹配：关（子串/正则匹配）"@
    }
}

/// Whether an action was done.
pub open spec fn dispatched<D: Fn(DiskRequest) -> DiskReply>(
    before: App<D>,
    after: App<D>,
    act: Action,
) -> bool {
    match act {
        Action::Quit => quit_tried(before, after),
        Action::FocusNext => focus_moved(before, after, true),
        Action::FocusPrev => focus_moved(before, after, false),
        Action::ScrollLineDown => pane_moved(before, after, true),
        Action::ScrollLineUp => pane_moved(before, after, false),
        Action::HalfDown => pane_paged(before, after, true, true),
        Action::HalfUp => pane_paged(before, after, false, true),
        Action::PageDown => pane_paged(before, after, true, false),
        Action::PageUp => pane_paged(before, after, false, false),
        Action::ToTop => pane_at_home(before, after),
        Action::ToBottom => if before.focus == 0 {
            jump_started(before, after, JumpKind::Bottom)
        } else {
            pane_at_end(before, after)
        },
        Action::SearchFwd => search_typed(before, after, true),
        Action::SearchBack => search_typed(before, after, false),
        Action::MatchNext => if before.focus == 0 {
            file_stepped(before, after, false)
        } else {
            list_stepped(before, after, false)
        },
        Action::MatchPrev => if before.focus == 0 {
            file_stepped(before, after, true)
        } else {
            list_stepped(before, after, true)
        },
        Action::ClearSearch => if before.focus == 0 {
            search_cleared(before, after)
        } else {
            list_cleared(before, after)
        },
        Action::OpenMatchPane => pick_entered(before, after),
        Action::GotoLine => {
            &&& after == (App { mode: after.mode, ..before })
            &&& after.mode matches Mode::Goto(gs) && gs.buf@.len() == 0
        },
        Action::Zoom => zoom_toggled(before, after),
        Action::Export => export_asked(before, after),
        Action::Follow => follow_toggled(before, after),
        Action::HLeft => pane_side_scrolled(before, after, (-SIDE_STEP) as i64),
        Action::HRight => pane_side_scrolled(before, after, SIDE_STEP),
        Action::HHome => pane_side_scrolled(before, after, 0),
        Action::HEnd => end_of_row_shown(before, after),
        Action::Wrap => wrap_toggled(before, after),
        Action::ClosePane => pane_closed(before, after),
        Action::EnterJump => list_line_opened(before, after),
        Action::Balance => {
            &&& after == (App { layout: after.layout, ..before })
            &&& after.layout.root == balanced(before.layout.root)
        },
        Action::NudgeLeft => nudged(before, after, KeyDir::Left),
        Action::NudgeRight => nudged(before, after, KeyDir::Right),
        Action::NudgeUp => nudged(before, after, KeyDir::Up),
        Action::NudgeDown => nudged(before, after, KeyDir::Down),
        Action::History => history_opened(before, after),
        Action::Help => after == (App { mode: Mode::Help, ..before }),
        Action::ToggleCase => {
            let case = before.opts.case.following();
            &&& after == (App {
                opts: SearchPrefs { case, word: before.opts.word },
                msg: after.msg,
                ..before
            })
            &&& after.msg@ == case_told(case)
        },
        Action::ToggleWord => {
            &&& after == (App {
                opts: SearchPrefs { case: before.opts.case, word: !before.opts.word },
                msg: after.msg,
                ..before
            })
            &&& after.msg@ == word_told(!before.opts.word)
        },
    }
}

/// The kind of selection that a key begins in the file's pane.
pub open spec fn visual_key(key: KeyPress) -> Option<VisualKind> {
    match key.code {
        KeyCode::Char(c) => if c == 'v' {
            if key.ctrl {
                Some(VisualKind::Block)
            } else {
                Some(VisualKind::Char)
            }
        } else if c == 'V' {
            Some(VisualKind::Line)
        } else {
            None
        },
        _ => None,
    }
}

/// The pane that a digit key stands for.
pub open spec fn pane_number(key: KeyPress) -> Option<usize> {
    match key.code {
        KeyCode::Char(c) => if '1' <= c <= '9' {
            Some((c as usize - '0' as usize) as usize)
        } else {
            None
        },
        _ => None,
    }
}

/// Whether a key did what it does in the normal mode: `Esc` gives up a jump,
/// some keys begin a selection in the file, digits choose a pane, and the
/// others go by the key bindings.
pub open spec fn normal_key_done<D: Fn(DiskRequest) -> DiskReply>(
    before: App<D>,
    after: App<D>,
    key: KeyPress,
) -> bool {
    if key.code == KeyCode::Esc {
        jump_cancelled(before, after, "cancelled: jump"@)
    } else if before.focus == 0 && visual_key(key) is Some {
        visual_begun(before, after, visual_key(key)->0)
    } else if pane_number(key) is Some {
        focus_chosen(before, after, pane_number(key)->0)
    } else {
        match key_pressed(key) {
            None => after == before,
            Some(k) => if before.keys@.dom().contains(k) {
                dispatched(before, after, before.keys@[k])
            } else {
                after == before
            },
        }
    }
}

/// Whether a key did what it does: it takes away the note, and the rest goes
/// by the mode.
pub open spec fn key_done<D: Fn(DiskRequest) -> DiskReply>(
    before: App<D>,
    after: App<D>,
    key: KeyPress,
) -> bool {
    let plain = App { trans: None, ..before };
    match before.mode {
        Mode::Cmd(_) => cmd_key_done(plain, after, key),
        Mode::PickTarget(_) => pick_key_done(plain, after, key),
        Mode::Goto(_) => goto_key_done(plain, after, key),
        Mode::History(_) => history_key_done(plain, after, key),
        Mode::Help => help_key_done(plain, after, key),
        Mode::Visual(_) => visual_key_done(plain, after, key),
        Mode::Normal => normal_key_done(plain, after, key),
    }
}

impl<D: Fn(DiskRequest) -> DiskReply> App<D> {
    /// Takes a key.
    pub fn on_key(&mut self, key: KeyPress)
        requires
            old(self).wf(),
            old(self).next_id < LAST_ID,
        ensures
            final(self).wf(),
            key_done(*old(self), *final(self), key),
    {
        self.trans = None;
        if self.mode.is_cmd() {
            self.on_cmd_key(key);
        } else if self.mode.is_pick() {
            self.on_pick_key(key);
        } else if self.mode.is_goto() {
            self.on_goto_key(key);
        } else if self.mode.is_history() {
            self.on_history_key(key);
        } else if self.mode.is_help() {
            self.on_help_key(key);
        } else if self.mode.is_visual() {
            self.on_visual_key(key);
        } else {
            self.on_normal_key(key);
        }
    }

    pub fn on_normal_key(&mut self, key: KeyPress)
        requires
            old(self).wf(),
        ensures
            final(self).wf(),
            normal_key_done(*old(self), *final(self), key),
    {
        if let KeyCode::Esc = key.code {
            self.cancel_jump("cancelled: jump");
            return ;
        }
        if let KeyCode::Char(c) = key.code {
            if self.focus == 0 {
                if c == 'v' {
                    self.start_visual(
                        if key.ctrl {
                            VisualKind::Block
                        } else {
                            VisualKind::Char
                        },
                    );
                    return ;
                }
                if c == 'V' {
                    self.start_visual(VisualKind::Line);
                    return ;
                }
            }
            if '1' <= c && c <= '9' {
                self.focus_number(c as usize - '0' as usize);
                return ;
            }
        }
        if let Some(spec) = KeySpec::from_key(&key) {
            if let Some(act) = self.keys.action(&spec) {
                self.dispatch_normal(act);
            }
        }
    }

    /// Does an action.
    pub fn dispatch_normal(&mut self, act: Action)
        requires
            old(self).wf(),
        ensures
            final(self).wf(),
            dispatched(*old(self), *final(self), act),
    {
        match act {
            Action::Quit => self.try_quit(),
            Action::FocusNext => self.move_focus(true),
            Action::FocusPrev => self.move_focus(false),
            Action::ScrollLineDown => self.pane_move(true),
            Action::ScrollLineUp => self.pane_move(false),
            Action::HalfDown => self.pane_page(true, true),
            Action::HalfUp => self.pane_page(false, true),
            Action::PageDown => self.pane_page(true, false),
            Action::PageUp => self.pane_page(false, false),
            Action::ToTop => self.pane_home(),
            Action::ToBottom => {
                if self.focus == 0 {
                    self.start_jump(JumpKind::Bottom);
                } else {
                    self.pane_end();
                }
            },
            Action::SearchFwd => self.start_cmd(true),
            Action::SearchBack => self.start_cmd(false),
            Action::MatchNext => {
                if self.focus == 0 {
                    self.file_step_match(false);
                } else {
                    self.matches_step(false);
                }
            },
            Action::MatchPrev => {
                if self.focus == 0 {
                    self.file_step_match(true);
                } else {
                    self.matches_step(true);
                }
            },
            Action::ClearSearch => {
                if self.focus == 0 {
                    self.file_cancel_search();
                } else {
                    self.matches_clear_search();
                }
            },
            Action::OpenMatchPane => self.enter_pick(),
            Action::GotoLine => self.start_goto(),
            Action::Zoom => self.zoom_toggle(),
            Action::Export => self.export_focus(),
            Action::Follow => self.toggle_follow(),
            Action::HLeft => self.pane_hscroll(-SIDE_STEP),
            Action::HRight => self.pane_hscroll(SIDE_STEP),
            Action::HHome => self.pane_hscroll(0),
            Action::HEnd => self.pane_goto_eol(),
            Action::Wrap => self.pane_toggle_wrap(),
            Action::ClosePane => self.close_focus_pane(),
            Action::EnterJump => self.matches_jump_to_file(),
            Action::Balance => self.balance(),
            Action::NudgeLeft => self.nudge_resize(KeyDir::Left),
            Action::NudgeRight => self.nudge_resize(KeyDir::Right),
            Action::NudgeUp => self.nudge_resize(KeyDir::Up),
            Action::NudgeDown => self.nudge_resize(KeyDir::Down),
            Action::History => self.start_history(),
            Action::Help => {
                self.mode = Mode::Help;
            },
            Action::ToggleCase => {
                let case = self.opts.case.next();
                self.opts = SearchPrefs { case, word: self.opts.word };
                let mut m = "大小写匹配：".to_owned();
                m.append(case.label());
                m.append("（");
                m.append(
                    match case {
                        Case::Smart => "全小写关键字自动忽略大小写",
                        Case::Insensitive => "忽略大小写",
                        Case::Sensitive => "区分大小写",
                    },
                );
                m.append("）");
                self.set_msg(m);
            },
            Action::ToggleWord => {
                let word: bool = !self.opts.word;
                self.opts = SearchPrefs { case: self.opts.case, word };
                self.set_msg(
                    if word {
                        "整词匹配：开".to_owned()
                    } else {
                        "整词匹配：关（子串/正则匹配）".to_owned()
                    },
                );
            },
        }
    }

    /// What is done between two keys: what a search has reported is taken in, a
    /// jump goes on, and the end of the file is followed. `elapsed` says how long
    /// the jump has taken.
    pub fn on_tick(&mut self, news: SearchNews, elapsed: &str)
        requires
            old(self).wf(),
        ensures
            final(self).wf(),
            ticked(*old(self), *final(self), news, elapsed@),
    {
        self.harvest_file_search(news);
        let ghost heard = *self;
        assert(harvested(*old(self), heard, news));
        self.process_jump(elapsed);
        let ghost mid = *self;
        assert(jump_processed(heard, mid, elapsed@));
        self.follow_poll();
    }
}

/// Whether what is done between two keys was done.
pub open spec fn ticked<D: Fn(DiskRequest) -> DiskReply>(
    before: App<D>,
    after: App<D>,
    news: SearchNews,
    elapsed: Seq<char>,
) -> bool {
    exists|heard: App<D>, mid: App<D>|
        #![trigger harvested(before, heard, news), jump_processed(heard, mid, elapsed)]
        {
            &&& harvested(before, heard, news)
            &&& jump_processed(heard, mid, elapsed)
            &&& followed_end(mid, after)
        }
}

/// Whatever action is done, the file's pane shows the same file.
proof fn lemma_actions_keep_the_file<D: Fn(DiskRequest) -> DiskReply>(
    before: App<D>,
    after: App<D>,
    act: Action,
    c: Seq<u8>,
)
    requires
        before.wf(),
        dispatched(before, after, act),
        before.file().view.shows(c),
    ensures
        after.file().view.shows(c),
{
}

/// Whatever key is pressed, the file's pane stays the first one and shows the
/// same file.
pub proof fn law_keys_keep_the_file<D: Fn(DiskRequest) -> DiskReply>(
    before: App<D>,
    after: App<D>,
    key: KeyPress,
    c: Seq<u8>,
)
    requires
        before.wf(),
        after.wf(),
        key_done(before, after, key),
        before.file().view.shows(c),
    ensures
        after.panes@[0].id == before.panes@[0].id,
        after.panes@[0].content is File,
        after.file().view.shows(c),
{
    let plain = App { trans: None, ..before };
    if before.mode is Normal {
        if let Some(k) = key_pressed(key) {
            if before.keys@.dom().contains(k) && dispatched(plain, after, before.keys@[k]) {
                lemma_actions_keep_the_file(plain, after, before.keys@[k], c);
            }
        }
    }
}

/// What is done between two keys leaves the file's pane the first one, and the
/// file the same.
pub proof fn law_ticks_keep_the_file<D: Fn(DiskRequest) -> DiskReply>(
    before: App<D>,
    after: App<D>,
    news: SearchNews,
    elapsed: Seq<char>,
    c: Seq<u8>,
)
    requires
        before.wf(),
        after.wf(),
        ticked(before, after, news, elapsed),
        before.file().view.shows(c),
    ensures
        after.panes@[0].id == before.panes@[0].id,
        after.panes@[0].content is File,
        after.file().view.shows(c),
{
    let (heard, mid) = choose|heard: App<D>, mid: App<D>|
        #![trigger harvested(before, heard, news), jump_processed(heard, mid, elapsed)]
        {
            &&& harvested(before, heard, news)
            &&& jump_processed(heard, mid, elapsed)
            &&& followed_end(mid, after)
        };
    assert(heard.file().view.shows(c));
    assert(mid.file().view.shows(c));
}

} // verus!
