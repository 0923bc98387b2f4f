//! Moving through the file: searches and their matches, jumps to a line or to
//! the end, following the end of a file that grows.
use vstd::prelude::*;
use crate::app::{App, Effect, Jump, JumpKind};
use crate::file::{DiskReply, DiskRequest};
use crate::index::lemma_rows_counted;
use crate::lines::row_total;
use crate::panes::{
    centered, first_hit, no_further, no_further_text, rising, step_hit, ActiveSearch, Content,
    FileContent,
};
use crate::search::{compile_regex, regex_compiled, source_of, Match, RgMsg};
use crate::text::{decimal, number_text};
use crate::view::{polled, put_at, went_to, went_to_bottom, went_toward, window_filled, FileView};

verus! {

/// The blocks of rows that a jump goes through between two looks at the keys.
pub const JUMP_BLOCKS: u64 = 4000;

/// What a search has reported since it was last asked.
pub struct SearchNews {
    pub msgs: Vec<RgMsg>,
    /// Whether no more will come.
    pub closed: bool,
    /// How long the search has run, as it is shown behind its end.
    pub elapsed: String,
}

/// What is said of the end of a search.
pub open spec fn end_note(count: u64, cancelled: bool, elapsed: Seq<char>) -> Seq<char> {
    if cancelled {
        "search cancelled"@ + elapsed
    } else if count == 0 {
        "search done: no matches"@ + elapsed
    } else {
        "search done"@ + elapsed
    }
}

/// What reports leave: the matches, whether the search is done, and what is
/// said of it.
pub open spec fn heard(
    msgs: Seq<RgMsg>,
    matches: Seq<Match>,
    done: bool,
    elapsed: Seq<char>,
) -> (Seq<Match>, bool, Option<Seq<char>>)
    decreases msgs.len(),
{
    if msgs.len() == 0 {
        (matches, done, None)
    } else {
        let (m, d, note) = heard(msgs.drop_last(), matches, done, elapsed);
        match msgs.last() {
            RgMsg::Match(x) => (m.push(x), d, note),
            RgMsg::Error(e) => (m, d, Some("rg: "@ + e@)),
            RgMsg::Done { count, cancelled } => (
                m,
                true,
                Some(end_note(count, cancelled, elapsed)),
            ),
        }
    }
}

fn end_note_text(count: u64, cancelled: bool, elapsed: &str) -> (r: String)
    ensures
        r@ == end_note(count, cancelled, elapsed@),
{
    let mut out = if cancelled {
        "search cancelled".to_owned()
    } else if count == 0 {
        "search done: no matches".to_owned()
    } else {
        "search done".to_owned()
    };
    out.append(elapsed);
    out
}

/// Whether reports were taken in; `due` says whether the first jump to a match
/// is due.
pub open spec fn news_taken<D: Fn(DiskRequest) -> DiskReply>(
    before: App<D>,
    after: App<D>,
    news: SearchNews,
    due: bool,
) -> bool {
    match before.file().search {
        None => after == before && !due,
        Some(a) => {
            let (matches, done, note) = heard(news.msgs@, a.matches@, a.done, news.elapsed@);
            let ended = done || news.closed;
            &&& due == (a.pending_first && ended && matches.len() > 0)
            &&& after == (App { panes: after.panes, trans: after.trans, ..before })
            &&& after.only_file(before)
            &&& after.file() == (FileContent { search: after.file().search, ..before.file() })
            &&& after.file().search matches Some(b) && b.matches@ == matches && b == (ActiveSearch {
                matches: b.matches,
                done: ended,
                pending_first: a.pending_first && !due,
                ..a
            })
            &&& match note {
                None => after.trans == before.trans,
                Some(t) => after.trans matches Some(s) && s@ == t,
            }
        },
    }
}

/// Whether the file's cursor was put on a line, and the user told where it is.
pub open spec fn line_jumped<D: Fn(DiskRequest) -> DiskReply>(
    before: App<D>,
    after: App<D>,
    line: u64,
    told: Seq<char>,
) -> bool {
    exists|ok: bool|
        {
            &&& #[trigger] centered(before.file(), after.file(), line, ok)
            &&& after.only_file(before)
            &&& after == (App { panes: after.panes, msg: after.msg, ..before })
            &&& if ok {
                after.msg@ == told
            } else {
                after.msg == before.msg
            }
        }
}

/// What the user is told of a match.
pub open spec fn match_told(line: u64) -> Seq<char> {
    "匹配 "@ + decimal(line as nat)
}

/// Whether only the file's view and the message may have changed.
pub open spec fn only_view_and_msg<D: Fn(DiskRequest) -> DiskReply>(
    before: App<D>,
    after: App<D>,
) -> bool {
    &&& after == (App { panes: after.panes, msg: after.msg, ..before })
    &&& after.only_file(before)
    &&& after.file().same_but_view(before.file())
    &&& forall|c: Seq<u8>| #[trigger]
        before.file().view.shows(c) ==> after.file().view.shows(c)
}

/// Whether the first jump of a search was made: to the nearest match in its
/// direction, if there is one.
pub open spec fn first_jumped<D: Fn(DiskRequest) -> DiskReply>(
    before: App<D>,
    after: App<D>,
) -> bool {
    match before.file().search {
        None => after == before,
        Some(a) => {
            &&& only_view_and_msg(before, after)
            &&& rising(a.lines()) ==> match first_hit(
                a.lines(),
                before.file().view.cursor() + 1,
                a.forward,
            ) {
                Some(k) => line_jumped(
                    before,
                    after,
                    a.matches@[k].line_no,
                    match_told(a.matches@[k].line_no),
                ),
                None => after == before,
            }
        },
    }
}

/// Whether the reports of a search were taken in and its first jump was made
/// if it was due.
pub open spec fn harvested<D: Fn(DiskRequest) -> DiskReply>(
    before: App<D>,
    after: App<D>,
    news: SearchNews,
) -> bool {
    exists|mid: App<D>, due: bool|
        {
            &&& #[trigger] news_taken(before, mid, news, due)
            &&& if due {
                first_jumped(mid, after)
            } else {
                after == mid
            }
        }
}

/// Whether a step was made from match to match of the file's search.
pub open spec fn file_stepped<D: Fn(DiskRequest) -> DiskReply>(
    before: App<D>,
    after: App<D>,
    reverse: bool,
) -> bool {
    match before.file().search {
        None => after == before,
        Some(a) => if a.matches@.len() == 0 {
            after.told(
                before,
                if a.done {
                    "无匹配"@
                } else {
                    "搜索中…"@
                },
            )
        } else {
            &&& only_view_and_msg(before, after)
            &&& rising(a.lines()) ==> match step_hit(
                a.lines(),
                before.file().view.cursor() + 1,
                a.forward != reverse,
            ) {
                Some(k) => line_jumped(
                    before,
                    after,
                    a.matches@[k].line_no,
                    match_told(a.matches@[k].line_no),
                ),
                None => after.told(
                    before,
                    if !a.done {
                        "搜索尚未完成，稍候再按 n/N"@
                    } else {
                        no_further(a.forward != reverse)
                    },
                ),
            }
        },
    }
}

/// Whether a jump was begun; one that is under way goes on.
pub open spec fn jump_started<D: Fn(DiskRequest) -> DiskReply>(
    before: App<D>,
    after: App<D>,
    kind: JumpKind,
) -> bool {
    if before.pending_jump is Some {
        after == before
    } else {
        after == (App {
            pending_jump: Some(
                Jump { kind, back: (before.file().view.top(), before.file().view.cursor()) },
            ),
            ..before
        })
    }
}

/// How a jump is called.
pub open spec fn jump_name(kind: JumpKind) -> Seq<char> {
    match kind {
        JumpKind::Goto(l) => "goto line "@ + decimal(l as nat),
        JumpKind::Bottom => "goto end of file"@,
    }
}

/// What is said of a jump that has ended.
pub open spec fn jump_note(kind: JumpKind, ok: bool, elapsed: Seq<char>) -> Seq<char> {
    if ok {
        jump_name(kind) + " done ("@ + elapsed + ")"@
    } else {
        jump_name(kind) + " failed: line out of range"@
    }
}

/// The row that a jump needs indexed, or `None` for all.
pub open spec fn jump_target(kind: JumpKind) -> Option<u64> {
    match kind {
        JumpKind::Goto(l) => Some(l),
        JumpKind::Bottom => None,
    }
}

/// Whether a view was put where a jump leads.
pub open spec fn jump_landed<D: Fn(DiskRequest) -> DiskReply>(
    before: FileView<D>,
    after: FileView<D>,
    kind: JumpKind,
    height: usize,
    ok: bool,
) -> bool {
    match kind {
        JumpKind::Bottom => ok && exists|v: FileView<D>| #[trigger]
            went_to_bottom(before, v) && window_filled(v, after, height),
        JumpKind::Goto(l) => exists|v: FileView<D>| #[trigger]
            went_to(before, v, l, ok) && if ok {
                window_filled(v, after, height)
            } else {
                after == v
            },
    }
}

/// Whether a jump went on by a piece, and landed if it came to its row.
pub open spec fn jump_processed<D: Fn(DiskRequest) -> DiskReply>(
    before: App<D>,
    after: App<D>,
    elapsed: Seq<char>,
) -> bool {
    match before.pending_jump {
        None => after == before,
        Some(j) => {
            &&& after.only_file(before)
            &&& after.file().same_but_view(before.file())
            &&& exists|v: FileView<D>, done: bool|
                {
                    &&& #[trigger] went_toward(
                        before.file().view,
                        v,
                        jump_target(j.kind),
                        JUMP_BLOCKS,
                        done,
                    )
                    &&& if !done {
                        &&& after == (App { panes: after.panes, ..before })
                        &&& after.file().view == v
                    } else {
                        &&& after == (App {
                            panes: after.panes,
                            pending_jump: None,
                            trans: after.trans,
                            ..before
                        })
                        &&& exists|ok: bool|
                            {
                                &&& #[trigger] jump_landed(
                                    v,
                                    after.file().view,
                                    j.kind,
                                    before.file().inner_h,
                                    ok,
                                )
                                &&& after.trans matches Some(t) && t@ == jump_note(
                                    j.kind,
                                    ok,
                                    elapsed,
                                )
                            }
                    }
                }
        },
    }
}

/// Whether a jump that is under way was given up: window and cursor are back
/// where it began.
pub open spec fn jump_cancelled<D: Fn(DiskRequest) -> DiskReply>(
    before: App<D>,
    after: App<D>,
    why: Seq<char>,
) -> bool {
    match before.pending_jump {
        None => after == before,
        Some(j) => {
            &&& after == (App {
                panes: after.panes,
                pending_jump: None,
                trans: after.trans,
                ..before
            })
            &&& after.only_file(before)
            &&& after.file().same_but_view(before.file())
            &&& exists|v: FileView<D>| #[trigger]
                put_at(before.file().view, v, j.back.0, j.back.1) && window_filled(
                    v,
                    after.file().view,
                    before.file().inner_h,
                )
            &&& after.trans matches Some(t) && t@ == why
        },
    }
}

/// Whether a search of the file runs.
pub open spec fn searching<D: Fn(DiskRequest) -> DiskReply>(a: App<D>) -> bool {
    a.file().search matches Some(s) && !s.done
}

/// Whether, of the file's pane, the search and what it highlights were dropped,
/// and the search that there was told to stop.
pub open spec fn search_dropped<D: Fn(DiskRequest) -> DiskReply>(
    before: App<D>,
    after: App<D>,
) -> bool {
    &&& after.only_file(before)
    &&& after.file() == (FileContent { search: None, hl: None, ..before.file() })
    &&& after.effects@ == if before.file().search is Some {
        before.effects@.push(Effect::CancelSearch)
    } else {
        before.effects@
    }
}

/// Whether the work that is under way was stopped: a jump, or else a search;
/// with neither the program ends.
pub open spec fn quit_tried<D: Fn(DiskRequest) -> DiskReply>(
    before: App<D>,
    after: App<D>,
) -> bool {
    if before.pending_jump is Some {
        jump_cancelled(before, after, "cancelled: jump"@)
    } else if searching(before) {
        &&& after == (App {
            panes: after.panes,
            effects: after.effects,
            trans: after.trans,
            ..before
        })
        &&& search_dropped(before, after)
        &&& after.trans matches Some(t) && t@ == "cancelled: search"@
    } else {
        after == (App { quit: true, ..before })
    }
}

/// Whether the file's search was cleared.
pub open spec fn search_cleared<D: Fn(DiskRequest) -> DiskReply>(
    before: App<D>,
    after: App<D>,
) -> bool {
    &&& after == (App {
        panes: after.panes,
        effects: after.effects,
        msg: after.msg,
        ..before
    })
    &&& search_dropped(before, after)
    &&& after.msg@.len() == 0
}

/// Whether a search through the file was begun, in place of one before; a
/// pattern that is no regular expression is refused.
pub open spec fn search_begun<D: Fn(DiskRequest) -> DiskReply>(
    before: App<D>,
    after: App<D>,
    pattern: Seq<char>,
    forward: bool,
) -> bool {
    match regex_compiled(source_of(pattern, before.opts.case, before.opts.word)) {
        Err(e) => after.told(before, "无效正则: "@ + e),
        Ok(re) => {
            &&& after == (App {
                panes: after.panes,
                effects: after.effects,
                msg: after.msg,
                ..before
            })
            &&& after.only_file(before)
            &&& after.file() == (FileContent {
                search: after.file().search,
                hl: Some(re),
                ..before.file()
            })
            &&& after.file().search matches Some(s) && s.pattern@ == pattern && s.forward == forward
                && s.matches@.len() == 0 && !s.done && s.pending_first
            &&& {
                let first = if before.file().search is Some {
                    before.effects@.push(Effect::CancelSearch)
                } else {
                    before.effects@
                };
                &&& after.effects@.len() == first.len() + 1
                &&& after.effects@.drop_last() == first
                &&& after.effects@.last() matches Effect::StartSearch {
                    path,
                    pattern: p,
                    encoding,
                    case,
                    word,
                } && path@ == before.file().view.name() && p@ == pattern && encoding
                    == before.file().view.enc() && case == before.opts.case && word
                    == before.opts.word
            }
            &&& after.msg@ == "搜索: "@ + pattern + " …"@
        },
    }
}

/// Whether following the end of the file was switched on or off.
pub open spec fn follow_toggled<D: Fn(DiskRequest) -> DiskReply>(
    before: App<D>,
    after: App<D>,
) -> bool {
    if before.follow {
        &&& after == (App { follow: false, msg: after.msg, ..before })
        &&& after.msg@ == ""@
    } else {
        &&& after == (App { panes: after.panes, follow: true, msg: after.msg, ..before })
        &&& after.only_file(before)
        &&& after.file().same_but_view(before.file())
        &&& end_shown(before.file(), after.file())
        &&& after.msg@ == "tail 跟随中（F 退出，向上滚动也会退出）"@
    }
}

/// Whether the end of the file was brought into the window.
pub open spec fn end_shown<D: Fn(DiskRequest) -> DiskReply>(
    before: FileContent<D>,
    after: FileContent<D>,
) -> bool {
    exists|v: FileView<D>| #[trigger]
        went_to_bottom(before.view, v) && window_filled(v, after.view, before.inner_h)
}

/// Whether the file was looked at if its end is followed, and its end shown if
/// its length had changed.
pub open spec fn followed_end<D: Fn(DiskRequest) -> DiskReply>(
    before: App<D>,
    after: App<D>,
) -> bool {
    if !before.follow {
        after == before
    } else {
        &&& after == (App { panes: after.panes, ..before })
        &&& after.only_file(before)
        &&& after.file().same_but_view(before.file())
        &&& exists|v: FileView<D>, len: u64|
            {
                &&& #[trigger] polled(before.file().view, v, len)
                &&& if len != before.file().view.source().known_len() {
                    end_shown(FileContent { view: v, ..before.file() }, after.file())
                } else {
                    after.file().view == v
                }
            }
    }
}

impl<D: Fn(DiskRequest) -> DiskReply> App<D> {
    /// What the file's pane holds, to change it.
    pub(crate) fn file_mut(&mut self) -> (r: &mut FileContent<D>)
        requires
            old(self).panes_wf(),
        ensures
            *r == old(self).file(),
            *final(self) == (App { panes: final(self).panes, ..*old(self) }),
            final(self).only_file(*old(self)),
            final(self).file() == *final(r),
    {
        match &mut self.panes[0].content {
            Content::File(fc) => fc,
            Content::Matches(_) => vstd::pervasive::unreached(),
        }
    }

    /// What the file's pane holds.
    pub(crate) fn file_ref(&self) -> (r: &FileContent<D>)
        requires
            self.panes_wf(),
        ensures
            *r == self.file(),
    {
        match &self.panes[0].content {
            Content::File(fc) => fc,
            Content::Matches(_) => vstd::pervasive::unreached(),
        }
    }

    /// Takes in what the file's search has reported. Returns whether the first
    /// jump to a match is due: it waits for the end of the search.
    pub fn take_news(&mut self, news: SearchNews) -> (r: bool)
        requires
            old(self).wf(),
        ensures
            final(self).wf(),
            news_taken(*old(self), *final(self), news, r),
    {
        if self.file_ref().search.is_none() {
            return false;
        }
        let mut search = None;
        std::mem::swap(&mut search, &mut self.file_mut().search);
        proof {
            lemma_file_changed(*old(self), *self);
        }
        let mut a: ActiveSearch = match search {
            None => {
                return false;
            },
            Some(a) => a,
        };
        let ghost a0 = a;
        let ghost all = news.msgs@;
        let elapsed = news.elapsed;
        let closed: bool = news.closed;
        let mut note: Option<String> = None;
        assert(all.take(0) =~= Seq::empty());
        for m in it: news.msgs
            invariant
                it.seq() == all,
                a == (ActiveSearch { matches: a.matches, done: a.done, ..a0 }),
                ({
                    let h = heard(
                        all.take(it.index() as int),
                        a0.matches@,
                        a0.done,
                        elapsed@,
                    );
                    &&& a.matches@ == h.0
                    &&& a.done == h.1
                    &&& match h.2 {
                        None => note is None,
                        Some(t) => note matches Some(s) && s@ == t,
                    }
                }),
        {
            let ghost k = it.index() as int;
            proof {
                assert(all.take(k + 1).drop_last() =~= all.take(k));
                assert(all.take(k + 1).last() == all[k]);
            }
            match m {
                RgMsg::Match(x) => {
                    a.matches.push(x);
                },
                RgMsg::Error(e) => {
                    let mut t = "rg: ".to_owned();
                    t.append(e.as_str());
                    note = Some(t);
                },
                RgMsg::Done { count, cancelled } => {
                    a.done = true;
                    note = Some(end_note_text(count, cancelled, elapsed.as_str()));
                },
            }
        }
        assert(all.take(all.len() as int) =~= all);
        if closed {
            a.done = true;
        }
        let due: bool = a.pending_first && a.done && a.matches.len() > 0;
        if due {
            a.pending_first = false;
        }
        self.file_mut().search = Some(a);
        proof {
            lemma_file_changed(*old(self), *self);
        }
        if let Some(n) = note {
            self.trans = Some(n);
        }
        due
    }

    /// Makes the first jump of a search: to the nearest match in its
    /// direction, that of the cursor's own row included.
    pub fn init_first_jump(&mut self)
        requires
            old(self).wf(),
        ensures
            final(self).wf(),
            first_jumped(*old(self), *final(self)),
    {
        match self.file_ref().first_match() {
            None => {},
            Some((_, line)) => {
                proof {
                    reveal_strlit("");
                }
                self.jump_and_tell(line, "匹配 ", "");
            },
        }
    }

    /// Takes in what the file's search has reported, and makes its first jump
    /// when it is due.
    pub fn harvest_file_search(&mut self, news: SearchNews)
        requires
            old(self).wf(),
        ensures
            final(self).wf(),
            harvested(*old(self), *final(self), news),
    {
        let due: bool = self.take_news(news);
        assert(news_taken(*old(self), *self, news, due));
        if due {
            self.init_first_jump();
        }
    }

    /// Puts the file's cursor on a line, a third down its window.
    pub fn jump_file_to_line(&mut self, line1: u64) -> (r: bool)
        requires
            old(self).wf(),
        ensures
            final(self).wf(),
            *final(self) == (App { panes: final(self).panes, ..*old(self) }),
            final(self).only_file(*old(self)),
            centered(old(self).file(), final(self).file(), line1, r),
    {
        let r = self.file_mut().center_on(line1);
        proof {
            lemma_file_changed(*old(self), *self);
        }
        r
    }

    /// Puts the file's cursor on a line and says so, the line's number between
    /// two texts.
    pub(crate) fn jump_and_tell(&mut self, line: u64, front: &str, back: &str)
        requires
            old(self).wf(),
        ensures
            final(self).wf(),
            only_view_and_msg(*old(self), *final(self)),
            line_jumped(
                *old(self),
                *final(self),
                line,
                front@ + decimal(line as nat) + back@,
            ),
            back@.len() == 0 ==> line_jumped(
                *old(self),
                *final(self),
                line,
                front@ + decimal(line as nat),
            ),
    {
        let ok = self.jump_file_to_line(line);
        assert(centered(old(self).file(), self.file(), line, ok));
        if ok {
            let mut m = front.to_owned();
            m.append(number_text(line).as_str());
            m.append(back);
            proof {
                if back@.len() == 0 {
                    assert(m@ =~= front@ + decimal(line as nat));
                }
            }
            self.set_msg(m);
        }
    }

    /// Goes to the next match of the file's search, or with `reverse` to the
    /// one before, by where the cursor stands.
    pub fn file_step_match(&mut self, reverse: bool)
        requires
            old(self).wf(),
        ensures
            final(self).wf(),
            file_stepped(*old(self), *final(self), reverse),
    {
        let fc = self.file_ref();
        let (empty, done, onward): (bool, bool, bool) = match &fc.search {
            None => {
                return ;
            },
            Some(a) => (a.matches.len() == 0, a.done, a.forward != reverse),
        };
        if empty {
            self.set_msg(
                if done {
                    "无匹配".to_owned()
                } else {
                    "搜索中…".to_owned()
                },
            );
            return ;
        }
        match fc.locate_from_cursor(onward) {
            Some((_, line)) => {
                proof {
                    reveal_strlit("");
                }
                self.jump_and_tell(line, "匹配 ", "");
            },
            None => {
                self.set_msg(
                    if !done {
                        "搜索尚未完成，稍候再按 n/N".to_owned()
                    } else {
                        no_further_text(onward)
                    },
                );
            },
        }
    }

    /// Begins a jump, unless one is under way.
    pub fn start_jump(&mut self, kind: JumpKind)
        requires
            old(self).wf(),
        ensures
            final(self).wf(),
            jump_started(*old(self), *final(self), kind),
    {
        if self.pending_jump.is_some() {
            return ;
        }
        let back = self.file_ref().view.snapshot_pos();
        self.pending_jump = Some(Jump { kind, back });
    }

    /// Goes on with a jump by a piece; at its row it lands and says how long
    /// it took.
    pub fn process_jump(&mut self, elapsed: &str)
        requires
            old(self).wf(),
        ensures
            final(self).wf(),
            jump_processed(*old(self), *final(self), elapsed@),
    {
        let j = match self.pending_jump {
            None => {
                return ;
            },
            Some(j) => j,
        };
        let target: Option<u64> = match j.kind {
            JumpKind::Goto(l) => Some(l),
            JumpKind::Bottom => None,
        };
        let ghost v0 = self.file().view;
        let fc = self.file_mut();
        let done: bool = fc.view.extend_toward(target, JUMP_BLOCKS);
        let ghost v1 = fc.view;
        assert(went_toward(v0, v1, jump_target(j.kind), JUMP_BLOCKS, done));
        if !done {
            proof {
                lemma_file_changed(*old(self), *self);
            }
            return ;
        }
        let h: usize = fc.inner_h;
        let ok: bool = match j.kind {
            JumpKind::Bottom => {
                fc.view.scroll_to_bottom();
                let ghost v2 = fc.view;
                assert(went_to_bottom(v1, v2));
                fc.view.fill_to(h);
                true
            },
            JumpKind::Goto(l) => {
                let ok: bool = fc.view.goto_line1(l);
                let ghost v2 = fc.view;
                assert(went_to(v1, v2, l, ok));
                if ok {
                    fc.view.fill_to(h);
                }
                ok
            },
        };
        assert(jump_landed(v1, fc.view, j.kind, h, ok));
        proof {
            lemma_file_changed(*old(self), *self);
        }
        self.pending_jump = None;
        let mut note = jump_name_text(j.kind);
        if ok {
            note.append(" done (");
            note.append(elapsed);
            note.append(")");
        } else {
            note.append(" failed: line out of range");
        }
        self.set_trans(note);
        assert(jump_landed(v1, self.file().view, j.kind, old(self).file().inner_h, ok));
    }

    /// Gives up a jump and goes back to where it began.
    pub fn cancel_jump(&mut self, why: &str)
        requires
            old(self).wf(),
        ensures
            final(self).wf(),
            jump_cancelled(*old(self), *final(self), why@),
    {
        let j = match self.pending_jump {
            None => {
                return ;
            },
            Some(j) => j,
        };
        self.pending_jump = None;
        let ghost v0 = self.file().view;
        let fc = self.file_mut();
        let h: usize = fc.inner_h;
        fc.view.restore_pos(j.back.0, j.back.1);
        let ghost v1 = fc.view;
        assert(put_at(v0, v1, j.back.0, j.back.1));
        fc.view.fill_to(h);
        proof {
            lemma_file_changed(*old(self), *self);
        }
        self.set_trans(why.to_owned());
    }

    /// Drops the file's search and what it highlights, and tells the search to
    /// stop.
    fn drop_search(&mut self)
        requires
            old(self).wf(),
        ensures
            final(self).wf(),
            *final(self) == (App {
                panes: final(self).panes,
                effects: final(self).effects,
                ..*old(self)
            }),
            search_dropped(*old(self), *final(self)),
    {
        let had: bool = self.file_ref().search.is_some();
        let fc = self.file_mut();
        fc.search = None;
        fc.hl = None;
        proof {
            lemma_file_changed(*old(self), *self);
        }
        if had {
            self.effects.push(Effect::CancelSearch);
        }
    }

    /// Stops the work that is under way, or else ends the program.
    pub fn try_quit(&mut self)
        requires
            old(self).wf(),
        ensures
            final(self).wf(),
            quit_tried(*old(self), *final(self)),
    {
        if self.pending_jump.is_some() {
            self.cancel_jump("cancelled: jump");
            return ;
        }
        let running: bool = match &self.file_ref().search {
            Some(a) => !a.done,
            None => false,
        };
        if running {
            self.drop_search();
            self.set_trans("cancelled: search".to_owned());
            return ;
        }
        self.quit = true;
    }

    /// Clears the file's search.
    pub fn file_cancel_search(&mut self)
        requires
            old(self).wf(),
        ensures
            final(self).wf(),
            search_cleared(*old(self), *final(self)),
    {
        self.drop_search();
        self.msg = String::new();
    }

    /// Begins a search through the file.
    pub fn file_start_search(&mut self, pattern: &str, forward: bool)
        requires
            old(self).wf(),
        ensures
            final(self).wf(),
            search_begun(*old(self), *final(self), pattern@, forward),
    {
        let case = self.opts.case;
        let word: bool = self.opts.word;
        let re = match compile_regex(pattern, case, word) {
            Ok(re) => re,
            Err(e) => {
                let mut m = "无效正则: ".to_owned();
                m.append(e.as_str());
                self.set_msg(m);
                return ;
            },
        };
        let path = self.file_ref().view.file_path().to_owned();
        let encoding = self.file_ref().view.encoding();
        self.drop_search();
        let ghost dropped = *self;
        let fc = self.file_mut();
        fc.hl = Some(re);
        fc.search = Some(
            ActiveSearch {
                pattern: pattern.to_owned(),
                forward,
                matches: Vec::new(),
                done: false,
                pending_first: true,
            },
        );
        proof {
            lemma_file_changed(dropped, *self);
        }
        let ghost first = self.effects@;
        self.effects.push(
            Effect::StartSearch { path, pattern: pattern.to_owned(), encoding, case, word },
        );
        assert(self.effects@.drop_last() =~= first);
        let mut m = "搜索: ".to_owned();
        m.append(pattern);
        m.append(" …");
        self.set_msg(m);
    }

    /// Switches following the end of the file on or off.
    pub fn toggle_follow(&mut self)
        requires
            old(self).wf(),
        ensures
            final(self).wf(),
            follow_toggled(*old(self), *final(self)),
    {
        self.follow = !self.follow;
        if self.follow {
            self.show_end();
            self.set_msg("tail 跟随中（F 退出，向上滚动也会退出）".to_owned());
        } else {
            self.set_msg("".to_owned());
        }
    }

    /// Brings the end of the file into its window.
    fn show_end(&mut self)
        requires
            old(self).wf(),
        ensures
            final(self).wf(),
            *final(self) == (App { panes: final(self).panes, ..*old(self) }),
            final(self).only_file(*old(self)),
            final(self).file().same_but_view(old(self).file()),
            end_shown(old(self).file(), final(self).file()),
    {
        let fc = self.file_mut();
        let h: usize = fc.inner_h;
        fc.view.scroll_to_bottom();
        let ghost v1 = fc.view;
        assert(went_to_bottom(old(self).file().view, v1));
        fc.view.fill_to(h);
        proof {
            lemma_file_changed(*old(self), *self);
        }
    }

    /// Looks at the file if its end is followed, and shows its end if it has
    /// grown.
    pub fn follow_poll(&mut self)
        requires
            old(self).wf(),
        ensures
            final(self).wf(),
            followed_end(*old(self), *final(self)),
    {
        if !self.follow {
            return ;
        }
        let ghost v0 = self.file().view;
        let fc = self.file_mut();
        let before: u64 = fc.view.file_len();
        let len: u64 = fc.view.poll_len();
        let ghost v1 = fc.view;
        assert(polled(v0, v1, len));
        proof {
            lemma_file_changed(*old(self), *self);
        }
        let ghost mid = *self;
        if len != before {
            self.show_end();
            assert(end_shown(FileContent { view: v1, ..old(self).file() }, self.file()));
        }
    }
}

fn jump_name_text(kind: JumpKind) -> (r: String)
    ensures
        r@ == jump_name(kind),
{
    match kind {
        JumpKind::Goto(l) => {
            let mut out = "goto line ".to_owned();
            out.append(number_text(l).as_str());
            out
        },
        JumpKind::Bottom => "goto end of file".to_owned(),
    }
}

/// A change of the file's pane alone keeps the panes in order.
pub(crate) proof fn lemma_file_changed<D: Fn(DiskRequest) -> DiskReply>(
    before: App<D>,
    after: App<D>,
)
    requires
        before.panes_wf(),
        after.only_file(before),
        after.layout == before.layout,
        after.next_id == before.next_id,
        after.file().wf(),
    ensures
        after.panes_wf(),
        crate::app::pane_ids(after.panes@) == crate::app::pane_ids(before.panes@),
{
    assert forall|i: int| 0 <= i < before.panes@.len() implies (#[trigger] after.panes@[i]).id
        == before.panes@[i].id by {}
    assert(crate::app::pane_ids(after.panes@) =~= crate::app::pane_ids(before.panes@));
    assert forall|i: int| 1 <= i < after.panes@.len() implies (
    #[trigger] after.panes@[i]).content is Matches && after.list(i).wf() by {
        assert(after.panes@[i] == before.panes@[i]);
    }
}

/// A jump that is cancelled, however far it has gone, leaves the cursor where
/// it was when the jump began, and the window where it was if it is as high as
/// then and held the cursor.
pub proof fn law_cancelled_jump_returns<D: Fn(DiskRequest) -> DiskReply>(
    begun: App<D>,
    started: App<D>,
    under_way: App<D>,
    after: App<D>,
    kind: JumpKind,
    why: Seq<char>,
)
    requires
        begun.wf(),
        begun.pending_jump is None,
        jump_started(begun, started, kind),
        under_way.pending_jump == started.pending_jump,
        jump_cancelled(under_way, after, why),
    ensures
        after.pending_jump is None,
        after.file().view.cursor() == begun.file().view.cursor(),
        begun.file().view.cursor_in_window() && begun.file().view.height()
            == under_way.file().inner_h ==> after.file().view.top() == begun.file().view.top(),
{
}

/// A jump comes to its row: each piece of it either ends it or counts more rows,
/// and no more rows are counted than the file has. A piece is bounded: it counts
/// the rows of no more than its blocks, before keys are looked at again. Where it
/// ends, the cursor is on the row that was asked for if the file has it, and
/// otherwise where it was.
pub proof fn law_jump_comes_to_its_row<D: Fn(DiskRequest) -> DiskReply>(
    before: App<D>,
    after: App<D>,
    elapsed: Seq<char>,
    c: Seq<u8>,
)
    requires
        before.pending_jump is Some,
        before.file().view.wf(),
        before.file().view.shows(c),
        jump_processed(before, after, elapsed),
    ensures
        after.file().view.shows(c),
        ({
            let view = before.file().view;
            let total = row_total(c);
            let row = after.file().view.cursor();
            match after.pending_jump {
                Some(j) => {
                    &&& j == before.pending_jump->0
                    &&& row == view.cursor()
                    &&& view.idx().rows() + 4000 <= after.file().view.idx().rows() <= total
                    &&& after.file().view.idx().rows() <= view.idx().rows() + 4_096_000
                },
                None => match before.pending_jump->0.kind {
                    JumpKind::Goto(l) => row == if 1 <= l <= total {
                        l - 1
                    } else {
                        view.cursor() as int
                    },
                    JumpKind::Bottom => row == if total == 0 {
                        0
                    } else {
                        total - 1
                    },
                },
            }
        }),
{
    let j = before.pending_jump->0;
    let (v, done) = choose|v: FileView<D>, done: bool|
        {
            &&& #[trigger] went_toward(
                before.file().view,
                v,
                jump_target(j.kind),
                JUMP_BLOCKS,
                done,
            )
            &&& if !done {
                &&& after == (App { panes: after.panes, ..before })
                &&& after.file().view == v
            } else {
                &&& after == (App {
                    panes: after.panes,
                    pending_jump: None,
                    trans: after.trans,
                    ..before
                })
                &&& exists|ok: bool|
                    {
                        &&& #[trigger] jump_landed(
                            v,
                            after.file().view,
                            j.kind,
                            before.file().inner_h,
                            ok,
                        )
                        &&& after.trans matches Some(t) && t@ == jump_note(j.kind, ok, elapsed)
                    }
            }
        };
    assert(v.in_step(c));
    lemma_rows_counted(v.idx(), c);
}

} // verus!
