//! The panes on the screen: making, closing, resizing and choosing them.
use vstd::prelude::*;
use crate::app::{pane_ids, App, FILE_PANE, LAST_ID};
use crate::file::{DiskReply, DiskRequest};
use crate::layout::{
    axis_adjusted, balanced, has_axis, has_leaf, law_close_takes_the_pane_out,
    law_close_undoes_split, law_growing_enlarges, law_layout_follows_the_leaves,
    law_leaves_hold_the_panes, law_resizing_keeps_the_panes, law_shares_stay_kept,
    law_split_puts_the_new_pane_next, leaves, place_of, placed_in, split_at, staying, without, Dir,
    RectLike, NO_PANE,
};
use crate::modes::{Mode, PickState};
use crate::panes::{line_numbers, places, rising, Content, MatchesContent, Pane};
use crate::search::Match;
use crate::text::{decimal, number_text};

verus! {

/// The direction of a key that resizes a pane.
#[derive(Debug, Clone, Copy, PartialEq, Eq, Structural)]
pub enum KeyDir {
    Left,
    Right,
    Up,
    Down,
}

/// A copy of matches.
pub fn copy_matches(rows: &Vec<Match>) -> (r: Vec<Match>)
    ensures
        r@ == rows@,
{
    let mut out: Vec<Match> = Vec::new();
    let n: usize = rows.len();
    let mut i: usize = 0;
    while i < n
        invariant
            i <= n,
            n == rows@.len(),
            out@ == rows@.take(i as int),
        decreases n - i,
    {
        out.push(rows[i].clone());
        i += 1;
        assert(out@ =~= rows@.take(i as int));
    }
    assert(rows@.take(n as int) =~= rows@);
    out
}

/// The matches at places of a list.
pub open spec fn chosen_rows(rows: Seq<Match>, idx: Seq<usize>) -> Seq<Match> {
    idx.map_values(|i: usize| rows[i as int])
}

fn pick_rows(rows: &Vec<Match>, idx: &Vec<usize>) -> (r: Vec<Match>)
    requires
        forall|i: int| 0 <= i < idx@.len() ==> #[trigger] idx@[i] < rows@.len(),
    ensures
        r@ == chosen_rows(rows@, idx@),
{
    let mut out: Vec<Match> = Vec::new();
    let n: usize = idx.len();
    let mut i: usize = 0;
    while i < n
        invariant
            i <= n,
            n == idx@.len(),
            forall|i: int| 0 <= i < idx@.len() ==> #[trigger] idx@[i] < rows@.len(),
            out@ == chosen_rows(rows@, idx@.take(i as int)),
        decreases n - i,
    {
        out.push(rows[idx[i]].clone());
        i += 1;
        assert(out@ =~= chosen_rows(rows@, idx@.take(i as int)));
    }
    assert(idx@.take(n as int) =~= idx@);
    out
}

/// The matches that the pane with the focus offers for a list, and a text
/// that says where they came from.
pub open spec fn match_source<D: Fn(DiskRequest) -> DiskReply>(a: App<D>) -> Option<
    (Seq<Match>, Seq<char>),
> {
    if a.focus == 0 {
        match a.file().search {
            None => None,
            Some(s) => if s.matches@.len() == 0 {
                None
            } else {
                Some(
                    (
                        s.matches@,
                        (if s.forward {
                            "/"@
                        } else {
                            "?"@
                        }) + s.pattern@,
                    ),
                )
            },
        }
    } else {
        let mc = a.list(a.focus as int);
        if mc.rows@.len() == 0 {
            None
        } else {
            match mc.search {
                Some(s) => Some((chosen_rows(mc.rows@, s.match_idx@), "/"@ + s.query@)),
                None => Some((mc.rows@, mc.tag@)),
            }
        }
    }
}

/// The title of the pane at a place.
pub open spec fn title_of<D: Fn(DiskRequest) -> DiskReply>(a: App<D>, i: int) -> Seq<char> {
    let number = "["@ + decimal((i + 1) as nat);
    if i == 0 {
        number + "] file: "@ + a.file_name@
    } else {
        number + "] match: "@ + a.list(i).tag@ + " ("@ + decimal(a.list(i).rows@.len()) + ")"@
    }
}

/// What is asked where a list is to be put.
pub open spec fn pick_question(n: nat) -> Seq<char> {
    decimal(n) + " 条匹配 → 放置位置:"@
}

/// Whether a list was put into the pane with a number.
pub open spec fn overwritten<D: Fn(DiskRequest) -> DiskReply>(
    before: App<D>,
    after: App<D>,
    rows: Seq<Match>,
    tag: Seq<char>,
    number: u64,
) -> bool {
    if number > before.panes@.len() {
        after.told(before, "没有编号 "@ + decimal(number as nat) + " 的窗格"@)
    } else if number <= 1 {
        after.told(before, "原始文件窗不可覆盖"@)
    } else {
        let at = number - 1;
        &&& after == (App { panes: after.panes, focus: at as usize, msg: after.msg, ..before })
        &&& after.only_list(before, at)
        &&& after.list(at).is_new(rows, tag)
        &&& after.msg@ == "已覆盖到 "@ + decimal(number as nat) + " 号窗格"@
    }
}

/// Whether a pane for a list was made beside the one with the focus. Nothing
/// comes before the file.
pub open spec fn pane_added<D: Fn(DiskRequest) -> DiskReply>(
    before: App<D>,
    after: App<D>,
    rows: Seq<Match>,
    tag: Seq<char>,
    dir: Dir,
    new_first: bool,
) -> bool {
    let first = new_first && before.panes@[before.focus as int].id != FILE_PANE;
    let at = if first {
        before.focus as int
    } else {
        before.focus + 1
    };
    &&& after == (App {
        panes: after.panes,
        layout: after.layout,
        next_id: (before.next_id + 1) as u64,
        focus: at as usize,
        zoom: None,
        msg: after.msg,
        ..before
    })
    &&& after.panes@.len() == before.panes@.len() + 1
    &&& after.panes@ == before.panes@.insert(at, after.panes@[at])
    &&& after.panes@[at].id == before.next_id
    &&& after.panes@[at].content is Matches
    &&& after.list(at).is_new(rows, tag)
    &&& after.layout.root == split_at(
        before.layout.root,
        before.panes@[before.focus as int].id,
        dir,
        before.next_id,
        first,
    )
    &&& after.msg@ == "结果窗已创建："@ + decimal(rows.len()) + " 条匹配"@
}

/// Whether the pane with the focus was closed; the file's pane stays.
pub open spec fn pane_closed<D: Fn(DiskRequest) -> DiskReply>(
    before: App<D>,
    after: App<D>,
) -> bool {
    if before.focus == 0 {
        after.told(before, "文件窗不可关闭（关闭即退出程序）"@)
    } else {
        let id = before.panes@[before.focus as int].id;
        &&& after == (App {
            panes: after.panes,
            layout: after.layout,
            zoom: if before.zoom == Some(id) {
                None
            } else {
                before.zoom
            },
            focus: if before.focus == before.panes@.len() - 1 {
                (before.focus - 1) as usize
            } else {
                before.focus
            },
            msg: after.msg,
            ..before
        })
        &&& after.panes@ == before.panes@.remove(before.focus as int)
        &&& without(before.layout.root, id) == Some(after.layout.root)
        &&& after.msg@ == "已关闭结果窗"@
    }
}

/// Whether the pane with the focus was resized; a single pane stays as it is.
pub open spec fn nudged<D: Fn(DiskRequest) -> DiskReply>(
    before: App<D>,
    after: App<D>,
    dir: KeyDir,
) -> bool {
    let horizontal = dir == KeyDir::Left || dir == KeyDir::Right;
    let grow = dir == KeyDir::Right || dir == KeyDir::Up;
    let id = before.panes@[before.focus as int].id;
    if before.panes@.len() <= 1 {
        after == before
    } else {
        &&& after == (App { layout: after.layout, msg: after.msg, ..before })
        &&& after.layout.root == axis_adjusted(before.layout.root, id, horizontal, grow)
        &&& after.msg@ == if has_axis(before.layout.root, id, horizontal) {
            if horizontal {
                "已调整宽度（= 均衡）"@
            } else {
                "已调整高度（= 均衡）"@
            }
        } else if horizontal {
            "无左右相邻窗格可调整"@
        } else {
            "无上下相邻窗格可调整"@
        }
    }
}

/// Whether the focus went to the next pane, or to the one before.
pub open spec fn focus_moved<D: Fn(DiskRequest) -> DiskReply>(
    before: App<D>,
    after: App<D>,
    next: bool,
) -> bool {
    let n = before.panes@.len() as int;
    if n <= 1 {
        after == before
    } else {
        after == (App {
            focus: (if next {
                (before.focus + 1) % n
            } else {
                (before.focus + n - 1) % n
            }) as usize,
            zoom: None,
            ..before
        })
    }
}

/// Whether the focus went to the pane with a number, if there is one.
pub open spec fn focus_chosen<D: Fn(DiskRequest) -> DiskReply>(
    before: App<D>,
    after: App<D>,
    number: usize,
) -> bool {
    if 1 <= number <= before.panes@.len() {
        after == (App { focus: (number - 1) as usize, zoom: None, ..before })
    } else {
        after == before
    }
}

/// Whether the pane with the focus was made to fill the screen, or made not to.
pub open spec fn zoom_toggled<D: Fn(DiskRequest) -> DiskReply>(
    before: App<D>,
    after: App<D>,
) -> bool {
    let id = before.panes@[before.focus as int].id;
    after == (App {
        zoom: if before.zoom == Some(id) {
            None
        } else {
            Some(id)
        },
        ..before
    })
}

/// The panes that are seen in an area, each with its place and its rectangle:
/// the one that fills the screen, or all. Each has at least one cell.
pub open spec fn seen_panes<D: Fn(DiskRequest) -> DiskReply>(a: App<D>, area: RectLike) -> Seq<
    (int, RectLike),
> {
    match a.zoom {
        Some(z) => seq![(pane_ids(a.panes@).index_of(z), at_least_one(area))],
        None => Seq::new(
            a.panes@.len(),
            |i: int| (i, at_least_one(placed_in(a.layout.root, area)[i].1)),
        ),
    }
}

/// A rectangle of at least one cell.
pub open spec fn at_least_one(r: RectLike) -> RectLike {
    RectLike {
        w: if r.w == 0 {
            1
        } else {
            r.w
        },
        h: if r.h == 0 {
            1
        } else {
            r.h
        },
        ..r
    }
}

fn grown(r: RectLike) -> (out: RectLike)
    ensures
        out == at_least_one(r),
        out.w >= 1,
        out.h >= 1,
{
    RectLike {
        x: r.x,
        y: r.y,
        w: if r.w == 0 {
            1
        } else {
            r.w
        },
        h: if r.h == 0 {
            1
        } else {
            r.h
        },
    }
}

/// Among distinct ids the place of a pane in the tree is its place in the list.
pub(crate) proof fn lemma_place<D: Fn(DiskRequest) -> DiskReply>(a: App<D>, i: int)
    requires
        a.panes_wf(),
        0 <= i < a.panes@.len(),
    ensures
        has_leaf(a.layout.root, a.panes@[i].id),
        place_of(a.layout.root, a.panes@[i].id) == i,
        !has_leaf(a.layout.root, NO_PANE),
        !has_leaf(a.layout.root, a.next_id),
{
    let ids = pane_ids(a.panes@);
    let id = a.panes@[i].id;
    assert(ids[i] == id);
    law_leaves_hold_the_panes(a.layout.root, id);
    law_leaves_hold_the_panes(a.layout.root, NO_PANE);
    law_leaves_hold_the_panes(a.layout.root, a.next_id);
    let p = place_of(a.layout.root, id);
    assert(ids[p] == id);
    if ids.contains(NO_PANE) {
        let k = choose|k: int| 0 <= k < ids.len() && ids[k] == NO_PANE;
        assert(a.panes@[k].id < a.next_id);
    }
    if ids.contains(a.next_id) {
        let k = choose|k: int| 0 <= k < ids.len() && ids[k] == a.next_id;
        assert(a.panes@[k].id < a.next_id);
    }
}

/// Without one of distinct values the others keep their order.
proof fn lemma_filter_one(s: Seq<u64>, i: int)
    requires
        s.no_duplicates(),
        0 <= i < s.len(),
        !s.contains(NO_PANE),
    ensures
        s.filter(staying(s[i])) == s.remove(i),
{
    let x = s[i];
    assert(s.contains(x));
    lemma_filter_part(s, x, s.len() as int);
    assert(s.take(s.len() as int) =~= s);
    assert(s.index_of(x) == i);
}

/// The values among the first `n` but for one.
spec fn without_value(s: Seq<u64>, x: u64, n: int) -> Seq<u64> {
    if s.take(n).contains(x) {
        s.take(n).remove(s.index_of(x))
    } else {
        s.take(n)
    }
}

proof fn lemma_filter_part(s: Seq<u64>, x: u64, n: int)
    requires
        s.no_duplicates(),
        0 <= n <= s.len(),
        !s.contains(NO_PANE),
        s.contains(x),
    ensures
        s.take(n).filter(staying(x)) == without_value(s, x, n),
    decreases n,
{
    reveal(Seq::filter);
    let t = s.take(n);
    let u = s.take(n - 1);
    let at = s.index_of(x);
    if n > 0 {
        lemma_filter_part(s, x, n - 1);
        assert(t.drop_last() =~= s.take(n - 1));
        assert(t.last() == s[n - 1]);
        assert(s.contains(s[n - 1]));
        if s[n - 1] == x {
            assert(at == n - 1);
            if s.take(n - 1).contains(x) {
                let k = choose|k: int| 0 <= k < u.len() && u[k] == x;
                assert(s[k] == s[n - 1]);
            }
            assert(t[n - 1] == x);
            assert(t.remove(n - 1) =~= s.take(n - 1));
        } else {
            if s.take(n - 1).contains(x) {
                let k = choose|k: int| 0 <= k < u.len() && u[k] == x;
                assert(s[k] == x && t[k] == x);
                assert(k == at);
                assert(t.remove(at) =~= s.take(n - 1).remove(at).push(s[n - 1]));
            } else {
                if t.contains(x) {
                    let k = choose|k: int| 0 <= k < n && t[k] == x;
                    assert(u[k] == x);
                }
                assert(t =~= s.take(n - 1).push(s[n - 1]));
            }
        }
    } else {
        assert(t =~= Seq::empty());
    }
}

impl<D: Fn(DiskRequest) -> DiskReply> App<D> {
    pub fn pane_title(&self, i: usize) -> (r: String)
        requires
            self.wf(),
            i < self.panes@.len(),
        ensures
            r@ == title_of(*self, i as int),
    {
        let n: usize = self.panes.len();
        assert(i < n);
        let mut out = "[".to_owned();
        out.append(number_text(i as u64 + 1).as_str());
        match &self.panes[i].content {
            Content::File(_) => {
                out.append("] file: ");
                out.append(self.file_name.as_str());
            },
            Content::Matches(mc) => {
                assert(i != 0);
                out.append("] match: ");
                out.append(mc.tag.as_str());
                out.append(" (");
                out.append(number_text(mc.rows.len() as u64).as_str());
                out.append(")");
            },
        }
        out
    }

    /// The matches that the pane with the focus offers for a list: those of
    /// its search, else the whole list.
    pub fn focus_match_source(&self) -> (r: Option<(Vec<Match>, String)>)
        requires
            self.wf(),
        ensures
            match r {
                Some(v) => match_source(*self) == Some((v.0@, v.1@)),
                None => match_source(*self) is None,
            },
    {
        match &self.panes[self.focus].content {
            Content::File(fc) => {
                assert(self.focus == 0);
                match &fc.search {
                    None => None,
                    Some(s) => {
                        if s.matches.len() == 0 {
                            return None;
                        }
                        let mut tag = if s.forward {
                            "/".to_owned()
                        } else {
                            "?".to_owned()
                        };
                        tag.append(s.pattern.as_str());
                        Some((copy_matches(&s.matches), tag))
                    },
                }
            },
            Content::Matches(mc) => {
                assert(self.focus != 0);
                assert(self.list(self.focus as int).wf());
                if mc.rows.len() == 0 {
                    return None;
                }
                match &mc.search {
                    Some(s) => {
                        let mut tag = "/".to_owned();
                        tag.append(s.query.as_str());
                        Some((pick_rows(&mc.rows, &s.match_idx), tag))
                    },
                    None => Some((copy_matches(&mc.rows), mc.tag.clone())),
                }
            },
        }
    }

    /// Asks where the matches of the pane with the focus are to be listed.
    pub fn enter_pick(&mut self)
        requires
            old(self).wf(),
        ensures
            final(self).wf(),
            pick_entered(*old(self), *final(self)),
    {
        match self.focus_match_source() {
            None => {
                self.set_msg("当前窗格没有可列出的匹配（先搜索并等待完成）".to_owned());
            },
            Some((rows, tag)) => {
                if self.mode.is_pick() {
                    return ;
                }
                let mut m = number_text(rows.len() as u64);
                m.append(" 条匹配 → 放置位置:");
                self.set_msg(m);
                self.mode = Mode::PickTarget(PickState { rows, tag });
            },
        }
    }

    /// Puts a list into the pane with a number, in place of what it holds.
    pub fn pick_overwrite(&mut self, ps: PickState, number: u64)
        requires
            old(self).wf(),
        ensures
            final(self).wf(),
            overwritten(*old(self), *final(self), ps.rows@, ps.tag@, number),
    {
        let n: usize = self.panes.len();
        if number > n as u64 {
            let mut m = "没有编号 ".to_owned();
            m.append(number_text(number).as_str());
            m.append(" 的窗格");
            self.set_msg(m);
            return ;
        }
        if number <= 1 {
            self.set_msg("原始文件窗不可覆盖".to_owned());
            return ;
        }
        let at: usize = number as usize - 1;
        self.panes[at].content = Content::Matches(MatchesContent::new(ps.rows, ps.tag));
        self.focus = at;
        let mut m = "已覆盖到 ".to_owned();
        m.append(number_text(number).as_str());
        m.append(" 号窗格");
        self.set_msg(m);
        assert(pane_ids(self.panes@) =~= pane_ids(old(self).panes@));
    }

    /// Makes a pane for a list beside the one with the focus: before it if
    /// `new_first`, else behind it.
    #[verifier::rlimit(50)]
    pub fn new_matches_pane(&mut self, rows: Vec<Match>, tag: String, dir: Dir, new_first: bool)
        requires
            old(self).wf(),
            old(self).next_id < LAST_ID,
        ensures
            final(self).wf(),
            pane_added(*old(self), *final(self), rows@, tag@, dir, new_first),
    {
        let n: usize = rows.len();
        let count: usize = self.panes.len();
        assert(self.focus < count);
        let fid: u64 = self.panes[self.focus].id;
        let first: bool = new_first && fid != FILE_PANE;
        let id: u64 = self.next_id;
        self.next_id += 1;
        let insert_at: usize = if first {
            self.focus
        } else {
            self.focus + 1
        };
        let ghost before = *old(self);
        proof {
            lemma_place(before, before.focus as int);
            law_split_puts_the_new_pane_next(before.layout.root, fid, dir, id, first);
            law_shares_stay_kept(before.layout.root, fid, dir, id, first, 0);
            if before.focus == 0 {
                assert(before.panes@[0].id == FILE_PANE);
            }
        }
        let new_pane = Pane::matches(id, rows, tag);
        let ghost made = new_pane;
        self.panes.insert(insert_at, new_pane);
        self.layout.split_relative(fid, dir, id, first);
        self.focus = insert_at;
        self.zoom = None;
        let mut m = "结果窗已创建：".to_owned();
        m.append(number_text(n as u64).as_str());
        m.append(" 条匹配");
        self.set_msg(m);
        proof {
            let at = insert_at as int;
            assert(self.panes@ =~= before.panes@.insert(at, made));
            assert(pane_ids(self.panes@) =~= pane_ids(before.panes@).insert(at, id));
            assert(first ==> before.focus > 0) by {
                if before.focus == 0 {
                    assert(before.panes@[0].id == FILE_PANE);
                }
            }
            assert(self.panes@[0] == before.panes@[0]);
            assert forall|i: int| 1 <= i < self.panes@.len() implies (
            #[trigger] self.panes@[i]).content is Matches && self.list(i).wf() by {
                if i < at {
                    assert(self.panes@[i] == before.panes@[i]);
                } else if i > at {
                    assert(self.panes@[i] == before.panes@[i - 1]);
                }
            }
            assert forall|i: int| 0 <= i < self.panes@.len() implies (
            #[trigger] self.panes@[i]).id < self.next_id by {
                if i < at {
                    assert(self.panes@[i] == before.panes@[i]);
                } else if i > at {
                    assert(self.panes@[i] == before.panes@[i - 1]);
                }
            }
            let ids = pane_ids(self.panes@);
            let old_ids = pane_ids(before.panes@);
            assert forall|i: int, j: int|
                0 <= i < ids.len() && 0 <= j < ids.len() && i != j implies ids[i] != ids[j] by {
                let a = if i < at {
                    i
                } else {
                    i - 1
                };
                let b = if j < at {
                    j
                } else {
                    j - 1
                };
                if i != at {
                    assert(ids[i] == old_ids[a] && old_ids[a] == before.panes@[a].id);
                }
                if j != at {
                    assert(ids[j] == old_ids[b] && old_ids[b] == before.panes@[b].id);
                }
            }
        }
    }

    /// Closes the pane with the focus, unless it is the file's.
    #[verifier::rlimit(50)]
    pub fn close_focus_pane(&mut self)
        requires
            old(self).wf(),
        ensures
            final(self).wf(),
            pane_closed(*old(self), *final(self)),
    {
        if self.focus == 0 {
            self.set_msg("文件窗不可关闭（关闭即退出程序）".to_owned());
            return ;
        }
        let id: u64 = self.panes[self.focus].id;
        let ghost before = *old(self);
        let ghost at = self.focus as int;
        proof {
            let ids = pane_ids(before.panes@);
            lemma_place(before, at);
            assert(ids[at] == id);
            assert(!ids.contains(NO_PANE)) by {
                law_leaves_hold_the_panes(before.layout.root, NO_PANE);
            }
            law_close_takes_the_pane_out(before.layout.root, id);
            lemma_filter_one(ids, at);
            assert(ids.remove(at).len() > 0);
            law_shares_stay_kept(before.layout.root, id, Dir::H, 0, false, 0);
        }
        self.layout.close(id);
        self.panes.remove(self.focus);
        if self.zoom == Some(id) {
            self.zoom = None;
        }
        if self.focus >= self.panes.len() {
            self.focus = self.panes.len() - 1;
        }
        self.set_msg("已关闭结果窗".to_owned());
        proof {
            let ids = pane_ids(before.panes@);
            assert(pane_ids(self.panes@) =~= ids.remove(at));
            assert forall|i: int| 1 <= i < self.panes@.len() implies (
            #[trigger] self.panes@[i]).content is Matches && self.list(i).wf() by {
                if i < at {
                    assert(self.panes@[i] == before.panes@[i]);
                } else {
                    assert(self.panes@[i] == before.panes@[i + 1]);
                }
            }
            assert forall|i: int| 0 <= i < self.panes@.len() implies (
            #[trigger] self.panes@[i]).id < self.next_id by {
                if i < at {
                    assert(self.panes@[i] == before.panes@[i]);
                } else {
                    assert(self.panes@[i] == before.panes@[i + 1]);
                }
            }
            if let Some(z) = self.zoom {
                assert(ids.contains(z));
                let k = choose|k: int| 0 <= k < ids.len() && ids[k] == z;
                if k < at {
                    assert(pane_ids(self.panes@)[k] == z);
                } else {
                    assert(pane_ids(self.panes@)[k - 1] == z);
                }
            }
        }
    }

    /// Resizes the pane with the focus: right and up make it larger, left and
    /// down smaller.
    pub fn nudge_resize(&mut self, dir: KeyDir)
        requires
            old(self).wf(),
        ensures
            final(self).wf(),
            nudged(*old(self), *final(self), dir),
    {
        if self.panes.len() <= 1 {
            return ;
        }
        let fid: u64 = self.panes[self.focus].id;
        let horizontal: bool = match dir {
            KeyDir::Left => true,
            KeyDir::Right => true,
            _ => false,
        };
        let grow: bool = match dir {
            KeyDir::Right => true,
            KeyDir::Up => true,
            _ => false,
        };
        proof {
            lemma_place(*self, self.focus as int);
            law_resizing_keeps_the_panes(self.layout.root, fid, 0, horizontal, grow);
            law_growing_enlarges(
                self.layout.root,
                RectLike { x: 0, y: 0, w: 0, h: 0 },
                fid,
                horizontal,
                grow,
            );
        }
        if self.layout.adjust_axis(fid, horizontal, grow) {
            self.set_msg(
                if horizontal {
                    "已调整宽度（= 均衡）".to_owned()
                } else {
                    "已调整高度（= 均衡）".to_owned()
                },
            );
        } else {
            self.set_msg(
                if horizontal {
                    "无左右相邻窗格可调整".to_owned()
                } else {
                    "无上下相邻窗格可调整".to_owned()
                },
            );
        }
    }

    /// Gives every pane its even share.
    pub fn balance(&mut self)
        requires
            old(self).wf(),
        ensures
            final(self).wf(),
            *final(self) == (App { layout: final(self).layout, ..*old(self) }),
            final(self).layout.root == balanced(old(self).layout.root),
    {
        proof {
            law_resizing_keeps_the_panes(self.layout.root, 0, 0, false, false);
            law_shares_stay_kept(self.layout.root, 0, Dir::H, 0, false, 0);
        }
        self.layout.balance();
    }

    /// Makes the pane with the focus fill the screen, or not any more.
    pub fn zoom_toggle(&mut self)
        requires
            old(self).wf(),
        ensures
            final(self).wf(),
            zoom_toggled(*old(self), *final(self)),
    {
        let id: u64 = self.panes[self.focus].id;
        assert(pane_ids(self.panes@)[self.focus as int] == id);
        self.zoom = if self.zoom == Some(id) {
            None
        } else {
            Some(id)
        };
    }

    /// Gives the focus to the next pane, or to the one before.
    pub fn move_focus(&mut self, next: bool)
        requires
            old(self).wf(),
        ensures
            final(self).wf(),
            focus_moved(*old(self), *final(self), next),
    {
        let n: usize = self.panes.len();
        if n > 1 {
            self.focus = if next {
                if self.focus == n - 1 {
                    0
                } else {
                    self.focus + 1
                }
            } else if self.focus == 0 {
                n - 1
            } else {
                self.focus - 1
            };
            self.zoom = None;
            proof {
                let f = old(self).focus as int;
                let m = n as int;
                if next {
                    if f == m - 1 {
                        vstd::arithmetic::div_mod::lemma_mod_self_0(m);
                    } else {
                        vstd::arithmetic::div_mod::lemma_small_mod((f + 1) as nat, m as nat);
                    }
                } else if f == 0 {
                    vstd::arithmetic::div_mod::lemma_small_mod((m - 1) as nat, m as nat);
                } else {
                    vstd::arithmetic::div_mod::lemma_mod_add_multiples_vanish(f - 1, m);
                    vstd::arithmetic::div_mod::lemma_small_mod((f - 1) as nat, m as nat);
                }
            }
        }
    }

    /// Gives the focus to the pane with a number, if there is one.
    pub fn focus_number(&mut self, number: usize)
        requires
            old(self).wf(),
        ensures
            final(self).wf(),
            focus_chosen(*old(self), *final(self), number),
    {
        if 1 <= number && number <= self.panes.len() {
            self.focus = number - 1;
            self.zoom = None;
        }
    }

    /// The panes that are seen in an area, each with its place and its
    /// rectangle.
    pub fn visible_panes(&self, area: RectLike) -> (r: Vec<(usize, RectLike)>)
        requires
            self.wf(),
        ensures
            r@.len() == seen_panes(*self, area).len(),
            forall|k: int|
                0 <= k < r@.len() ==> {
                    &&& (#[trigger] r@[k]).0 == seen_panes(*self, area)[k].0
                    &&& r@[k].1 == seen_panes(*self, area)[k].1
                    &&& r@[k].0 < self.panes@.len()
                    &&& r@[k].1.w >= 1
                    &&& r@[k].1.h >= 1
                },
    {
        let mut out: Vec<(usize, RectLike)> = Vec::new();
        let ghost ids = pane_ids(self.panes@);
        if let Some(z) = self.zoom {
            let at: usize = self.pane_with_id(z);
            out.push((at, grown(area)));
            return out;
        }
        let placed = self.layout.layout(area);
        let n: usize = self.panes.len();
        proof {
            law_layout_follows_the_leaves(self.layout.root, area);
            let got = placed_in(self.layout.root, area);
            assert(got.map_values(|p: (u64, RectLike)| p.0).len() == ids.len());
            assert(placed@.len() == n);
        }
        let mut i: usize = 0;
        while i < n
            invariant
                i <= n,
                n == self.panes@.len(),
                placed@.len() == n,
                self.zoom is None,
                placed@ == placed_in(self.layout.root, area),
                out@.len() == i,
                forall|k: int|
                    0 <= k < i ==> {
                        &&& (#[trigger] out@[k]).0 == seen_panes(*self, area)[k].0
                        &&& out@[k].1 == seen_panes(*self, area)[k].1
                        &&& out@[k].0 < n
                        &&& out@[k].1.w >= 1
                        &&& out@[k].1.h >= 1
                    },
            decreases n - i,
        {
            out.push((i, grown(placed[i].1)));
            i += 1;
        }
        out
    }

    /// The place of the pane with an id.
    fn pane_with_id(&self, id: u64) -> (r: usize)
        requires
            self.panes_wf(),
            pane_ids(self.panes@).contains(id),
        ensures
            r < self.panes@.len(),
            r == pane_ids(self.panes@).index_of(id),
            self.panes@[r as int].id == id,
    {
        let n: usize = self.panes.len();
        let ghost ids = pane_ids(self.panes@);
        let mut i: usize = 0;
        while i < n
            invariant
                i <= n,
                n == self.panes@.len(),
                ids == pane_ids(self.panes@),
                ids.no_duplicates(),
                ids.contains(id),
                forall|k: int| 0 <= k < i ==> #[trigger] ids[k] != id,
            decreases n - i,
        {
            assert(ids[i as int] == self.panes@[i as int].id);
            if self.panes[i].id == id {
                return i;
            }
            i += 1;
        }
        proof {
            let k = choose|k: int| 0 <= k < ids.len() && ids[k] == id;
            assert(false);
        }
        0
    }
}

/// Whether it was asked where the matches of the pane with the focus are to be
/// listed.
pub open spec fn pick_entered<D: Fn(DiskRequest) -> DiskReply>(
    before: App<D>,
    after: App<D>,
) -> bool {
    match match_source(before) {
        None => after.told(before, "当前窗格没有可列出的匹配（先搜索并等待完成）"@),
        Some(source) => if before.mode is PickTarget {
            after == before
        } else {
            &&& after == (App { mode: after.mode, msg: after.msg, ..before })
            &&& after.mode matches Mode::PickTarget(ps) && ps.rows@ == source.0 && ps.tag@
                == source.1
            &&& after.msg@ == pick_question(source.0.len())
        },
    }
}

/// The file's pane stays the first one, and what it holds stays: no list is
/// put into it, no pane is made before it, and it is not closed.
pub proof fn law_file_pane_is_kept<D: Fn(DiskRequest) -> DiskReply>(
    before: App<D>,
    after: App<D>,
    rows: Seq<Match>,
    tag: Seq<char>,
    number: u64,
    dir: Dir,
    new_first: bool,
)
    requires
        before.wf(),
        overwritten(before, after, rows, tag, number) || pane_added(
            before,
            after,
            rows,
            tag,
            dir,
            new_first,
        ) || pane_closed(before, after),
    ensures
        after.panes@.len() >= 1,
        after.panes@[0] == before.panes@[0],
{
}

/// A list made from lines that rise has lines that rise: what the pane with the
/// focus hands on are its matches, all lines of its list, or those of them that
/// a search found, in their order.
pub proof fn law_lists_made_keep_the_lines_rising<D: Fn(DiskRequest) -> DiskReply>(a: App<D>)
    requires
        a.wf(),
        match_source(a) is Some,
        if a.focus == 0 {
            rising(a.file().search->0.lines())
        } else {
            rising(line_numbers(a.list(a.focus as int).rows@))
        },
    ensures
        match_source(a) matches Some(source) && rising(line_numbers(source.0)),
{
    if a.focus > 0 {
        let mc = a.list(a.focus as int);
        assert(a.panes.len() == a.panes@.len());
        assert(a.panes@[a.focus as int].content is Matches);
        assert(mc.wf());
        if let Some(s) = mc.search {
            let rows = chosen_rows(mc.rows@, s.match_idx@);
            assert forall|i: int, j: int| 0 <= i < j < rows.len() implies #[trigger] line_numbers(
                rows,
            )[i] < #[trigger] line_numbers(rows)[j] by {
                let all = line_numbers(mc.rows@);
                assert(places(s.match_idx@)[i] < places(s.match_idx@)[j]);
                assert(s.match_idx@[i] < mc.rows@.len() && s.match_idx@[j] < mc.rows@.len());
                assert(all[s.match_idx@[i] as int] < all[s.match_idx@[j] as int]);
            }
        }
    }
}

/// A new pane takes its place: the panes stay in the order of the layout, the
/// new one is next to the one that had the focus, holds the lines given and has
/// the focus. The file's pane stays the first, also where the new pane was to
/// come before it.
pub proof fn law_new_pane_takes_its_place<D: Fn(DiskRequest) -> DiskReply>(
    before: App<D>,
    after: App<D>,
    rows: Seq<Match>,
    tag: Seq<char>,
    dir: Dir,
    new_first: bool,
)
    requires
        before.wf(),
        before.next_id < LAST_ID,
        pane_added(before, after, rows, tag, dir, new_first),
    ensures
        leaves(after.layout.root) == pane_ids(after.panes@),
        after.panes@.len() == before.panes@.len() + 1,
        after.panes@[0] == before.panes@[0],
        after.panes@[0].id == FILE_PANE,
        0 < after.focus < after.panes@.len(),
        after.panes@.remove(after.focus as int) == before.panes@,
        after.panes@[after.focus as int].id == before.next_id,
        after.panes@[after.focus as int].content is Matches,
        after.list(after.focus as int).is_new(rows, tag),
        after.zoom is None,
{
    let f = before.focus as int;
    let fid = before.panes@[f].id;
    let id = before.next_id;
    let first = new_first && fid != FILE_PANE;
    lemma_place(before, f);
    law_split_puts_the_new_pane_next(before.layout.root, fid, dir, id, first);
    assert(before.panes@[0].id == FILE_PANE);
    let at = if first {
        f
    } else {
        f + 1
    };
    assert(after.panes.len() == after.panes@.len());
    assert(pane_ids(after.panes@) =~= pane_ids(before.panes@).insert(at, id));
    assert(after.panes@.remove(at) =~= before.panes@);
}

/// Closing a pane that was just made leaves the panes and the layout as they
/// were.
pub proof fn law_closing_a_new_pane_restores<D: Fn(DiskRequest) -> DiskReply>(
    before: App<D>,
    made: App<D>,
    after: App<D>,
    rows: Seq<Match>,
    tag: Seq<char>,
    dir: Dir,
    new_first: bool,
)
    requires
        before.wf(),
        before.next_id < LAST_ID,
        pane_added(before, made, rows, tag, dir, new_first),
        pane_closed(made, after),
    ensures
        after.panes@ == before.panes@,
        after.layout.root == before.layout.root,
{
    let f = before.focus as int;
    let fid = before.panes@[f].id;
    let id = before.next_id;
    let root = before.layout.root;
    lemma_place(before, f);
    law_leaves_hold_the_panes(root, fid);
    law_leaves_hold_the_panes(root, id);
    law_leaves_hold_the_panes(root, NO_PANE);
    assert(!pane_ids(before.panes@).contains(id)) by {
        if pane_ids(before.panes@).contains(id) {
            let k = choose|k: int|
                0 <= k < before.panes@.len() && pane_ids(before.panes@)[k] == id;
            assert(before.panes@[k].id == id);
        }
    }
    assert(!pane_ids(before.panes@).contains(NO_PANE)) by {
        if pane_ids(before.panes@).contains(NO_PANE) {
            let k = choose|k: int|
                0 <= k < before.panes@.len() && pane_ids(before.panes@)[k] == NO_PANE;
            assert(before.panes@[k].id == NO_PANE);
        }
    }
    let first = new_first && fid != FILE_PANE;
    law_close_undoes_split(root, fid, dir, id, first);
    assert(before.panes@[0].id == FILE_PANE);
    assert(made.panes.len() == made.panes@.len());
    assert(made.focus > 0);
    assert(after.panes@ =~= before.panes@);
}

/// Making a pane fill the screen and undoing it leaves everything as it was.
pub proof fn law_zoom_and_back<D: Fn(DiskRequest) -> DiskReply>(
    before: App<D>,
    mid: App<D>,
    after: App<D>,
)
    requires
        before.zoom matches Some(z) ==> z == before.panes@[before.focus as int].id,
        zoom_toggled(before, mid),
        zoom_toggled(mid, after),
    ensures
        after == before,
{
}

/// Going to the next pane and back gives the focus to the same pane again, and
/// so does going to the one before and on.
pub proof fn law_focus_comes_back<D: Fn(DiskRequest) -> DiskReply>(
    before: App<D>,
    mid: App<D>,
    after: App<D>,
    next: bool,
)
    requires
        before.wf(),
        focus_moved(before, mid, next),
        focus_moved(mid, after, !next),
    ensures
        after.focus == before.focus,
{
    let n = before.panes@.len() as int;
    let f = before.focus as int;
    assert(before.panes.len() == n);
    if n > 1 {
        if next {
            if f == n - 1 {
                vstd::arithmetic::div_mod::lemma_mod_self_0(n);
                vstd::arithmetic::div_mod::lemma_small_mod((n - 1) as nat, n as nat);
            } else {
                vstd::arithmetic::div_mod::lemma_small_mod((f + 1) as nat, n as nat);
                vstd::arithmetic::div_mod::lemma_mod_add_multiples_vanish(f, n);
                vstd::arithmetic::div_mod::lemma_small_mod(f as nat, n as nat);
            }
        } else {
            if f == 0 {
                vstd::arithmetic::div_mod::lemma_small_mod((n - 1) as nat, n as nat);
                vstd::arithmetic::div_mod::lemma_mod_self_0(n);
            } else {
                vstd::arithmetic::div_mod::lemma_mod_add_multiples_vanish(f - 1, n);
                vstd::arithmetic::div_mod::lemma_small_mod((f - 1) as nat, n as nat);
                vstd::arithmetic::div_mod::lemma_small_mod(f as nat, n as nat);
            }
        }
    }
}

} // verus!
