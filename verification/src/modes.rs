//! The modes of the program, and the editing of what is typed in them.
use vstd::prelude::*;
use crate::search::Match;
use crate::text::{
    all_digits, fuzzy, fuzzy_subseq, insert_char, remove_char, texts, trim_text, trimmed,
};

verus! {

pub enum Mode {
    Normal,
    /// A search is typed.
    Cmd(CmdState),
    /// A place for a list of matches is chosen.
    PickTarget(PickState),
    /// A line number is typed.
    Goto(GotoState),
    /// A keyword of the history is chosen.
    History(HistoryState),
    Help,
    /// Text of the file is selected.
    Visual(VisualState),
}

#[derive(Debug, Clone, Copy, PartialEq, Eq, Structural)]
pub enum VisualKind {
    Char,
    Line,
    Block,
}

/// A selection in the file: it runs from where it was begun to the cursor.
pub struct VisualState {
    pub kind: VisualKind,
    /// The row where it was begun, counted from 1.
    pub anchor_row: u64,
    /// The character where it was begun, counted from 0.
    pub anchor_col: usize,
    /// The character of the cursor, counted from 0.
    pub cur_col: usize,
}

/// A list of matches that waits for a place.
pub struct PickState {
    pub rows: Vec<Match>,
    pub tag: String,
}

/// A line number that is typed.
pub struct GotoState {
    pub buf: String,
    /// The place of the cursor among the characters.
    pub cursor: usize,
}

/// The choice of a keyword: those of the history that pass the filter.
pub struct HistoryState {
    pub filter: String,
    /// The places of the keywords in the history.
    pub list: Vec<usize>,
    pub sel: usize,
}

/// A search that is typed.
pub struct CmdState {
    pub forward: bool,
    pub buf: String,
    /// The place of the cursor among the characters.
    pub cursor: usize,
    /// What was typed before the history was browsed.
    pub initial: String,
    /// The keywords of the history, the latest first.
    pub hist: Vec<String>,
    pub hist_pos: Option<usize>,
}

impl Mode {
    pub fn is_cmd(&self) -> (r: bool)
        ensures
            r == (self is Cmd),
    {
        match self {
            Mode::Cmd(_) => true,
            _ => false,
        }
    }

    pub fn is_pick(&self) -> (r: bool)
        ensures
            r == (self is PickTarget),
    {
        match self {
            Mode::PickTarget(_) => true,
            _ => false,
        }
    }

    pub fn is_goto(&self) -> (r: bool)
        ensures
            r == (self is Goto),
    {
        match self {
            Mode::Goto(_) => true,
            _ => false,
        }
    }

    pub fn is_history(&self) -> (r: bool)
        ensures
            r == (self is History),
    {
        match self {
            Mode::History(_) => true,
            _ => false,
        }
    }

    pub fn is_help(&self) -> (r: bool)
        ensures
            r == (self is Help),
    {
        match self {
            Mode::Help => true,
            _ => false,
        }
    }

    pub fn is_visual(&self) -> (r: bool)
        ensures
            r == (self is Visual),
    {
        match self {
            Mode::Visual(_) => true,
            _ => false,
        }
    }

    /// Whether what is typed is text.
    pub open spec fn takes_text(&self) -> bool {
        self is Cmd || self is Goto || self is History
    }

    pub fn is_input(&self) -> (r: bool)
        ensures
            r == self.takes_text(),
    {
        self.is_cmd() || self.is_goto() || self.is_history()
    }

    /// Whether the mode fits a history of `n` keywords.
    pub open spec fn wf(&self, n: nat) -> bool {
        match self {
            Mode::Cmd(cs) => cs.wf(),
            Mode::Goto(gs) => gs.wf(),
            Mode::History(st) => st.wf(n),
            Mode::Visual(v) => v.anchor_row >= 1,
            _ => true,
        }
    }
}

/// How far the history is browsed after a step to an older keyword.
pub open spec fn older(pos: Option<usize>, n: int) -> Option<usize> {
    match pos {
        None => Some(0),
        Some(p) => if p + 1 < n {
            Some((p + 1) as usize)
        } else {
            Some(p)
        },
    }
}

/// How far the history is browsed after a step to a later keyword.
pub open spec fn newer(pos: Option<usize>) -> Option<usize> {
    match pos {
        None => None,
        Some(p) => if p == 0 {
            None
        } else {
            Some((p - 1) as usize)
        },
    }
}

/// What stands in the input after a step through the history: the keyword
/// that it leads to, or what was typed where it leads back out.
pub open spec fn browsed_text(
    buf: Seq<char>,
    initial: Seq<char>,
    hist: Seq<Seq<char>>,
    from: Option<usize>,
    to: Option<usize>,
) -> Seq<char> {
    if from == to {
        buf
    } else {
        match to {
            Some(p) => hist[p as int],
            None => initial,
        }
    }
}

/// Whether a step through the history was made: up to an older keyword, or
/// down to a later one and at last back to what was typed.
pub open spec fn browsed(before: CmdState, after: CmdState, up: bool) -> bool {
    if before.hist@.len() == 0 {
        after == before
    } else {
        let pos = before.hist_pos;
        let to = if up {
            older(pos, before.hist@.len() as int)
        } else {
            newer(pos)
        };
        let kept = if up && pos is None {
            before.buf@
        } else {
            before.initial@
        };
        &&& after.hist_pos == to
        &&& after.initial@ == kept
        &&& after.buf@ == browsed_text(before.buf@, kept, texts(before.hist@), pos, to)
        &&& after.cursor == after.buf@.len()
        &&& after.forward == before.forward
        &&& after.hist == before.hist
    }
}

impl CmdState {
    pub open spec fn wf(&self) -> bool {
        &&& self.cursor <= self.buf@.len()
        &&& self.buf@.len() <= usize::MAX
        &&& self.hist_pos matches Some(p) ==> p < self.hist@.len()
    }

    /// Whether only the input has changed.
    pub open spec fn edited(&self, before: Self, buf: Seq<char>, cursor: int) -> bool {
        &&& *self == (CmdState { buf: self.buf, cursor: self.cursor, ..before })
        &&& self.buf@ == buf
        &&& self.cursor == cursor
    }

    pub fn new(forward: bool, buf: String, hist: Vec<String>) -> (r: Self)
        ensures
            r.wf(),
            r.forward == forward,
            r.buf == buf,
            r.cursor == buf@.len(),
            r.initial@.len() == 0,
            r.hist == hist,
            r.hist_pos is None,
    {
        let cursor: usize = buf.as_str().unicode_len();
        CmdState { forward, buf, cursor, initial: String::new(), hist, hist_pos: None }
    }

    /// Takes away the character before the cursor.
    pub fn backspace(&mut self)
        requires
            old(self).wf(),
        ensures
            final(self).wf(),
            if old(self).cursor > 0 {
                final(self).edited(
                    *old(self),
                    old(self).buf@.remove(old(self).cursor - 1),
                    old(self).cursor - 1,
                )
            } else {
                *final(self) == *old(self)
            },
    {
        if self.cursor > 0 {
            self.buf = remove_char(self.buf.as_str(), self.cursor - 1);
            self.cursor -= 1;
        }
    }

    /// Takes away the character at the cursor.
    pub fn delete(&mut self)
        requires
            old(self).wf(),
        ensures
            final(self).wf(),
            if old(self).cursor < old(self).buf@.len() {
                final(self).edited(
                    *old(self),
                    old(self).buf@.remove(old(self).cursor as int),
                    old(self).cursor as int,
                )
            } else {
                *final(self) == *old(self)
            },
    {
        let n: usize = self.buf.as_str().unicode_len();
        if self.cursor < n {
            self.buf = remove_char(self.buf.as_str(), self.cursor);
        }
    }

    /// Moves the cursor by a character, as far as there is one.
    pub fn move_cursor(&mut self, right: bool)
        requires
            old(self).wf(),
        ensures
            final(self).wf(),
            *final(self) == (CmdState {
                cursor: if right && old(self).cursor < old(self).buf@.len() {
                    (old(self).cursor + 1) as usize
                } else if !right && old(self).cursor > 0 {
                    (old(self).cursor - 1) as usize
                } else {
                    old(self).cursor
                },
                ..*old(self)
            }),
    {
        let n: usize = self.buf.as_str().unicode_len();
        if right {
            if self.cursor < n {
                self.cursor += 1;
            }
        } else if self.cursor > 0 {
            self.cursor -= 1;
        }
    }

    pub fn home(&mut self)
        requires
            old(self).wf(),
        ensures
            final(self).wf(),
            *final(self) == (CmdState { cursor: 0, ..*old(self) }),
    {
        self.cursor = 0;
    }

    pub fn end(&mut self)
        requires
            old(self).wf(),
        ensures
            final(self).wf(),
            final(self).cursor == old(self).buf@.len(),
            *final(self) == (CmdState { cursor: final(self).cursor, ..*old(self) }),
    {
        self.cursor = self.buf.as_str().unicode_len();
    }

    /// Takes away all that was typed.
    pub fn clear(&mut self)
        requires
            old(self).wf(),
        ensures
            final(self).wf(),
            final(self).edited(*old(self), Seq::empty(), 0),
    {
        self.buf = String::new();
        self.cursor = 0;
    }

    /// Puts a character in at the cursor.
    pub fn insert(&mut self, c: char)
        requires
            old(self).wf(),
            old(self).buf@.len() < usize::MAX,
        ensures
            final(self).wf(),
            final(self).edited(
                *old(self),
                old(self).buf@.insert(old(self).cursor as int, c),
                old(self).cursor + 1,
            ),
    {
        self.buf = insert_char(self.buf.as_str(), self.cursor, c);
        self.cursor += 1;
    }

    /// Goes through the history: up to older keywords and as far as the
    /// oldest, down to later ones and at last back to what was typed.
    pub fn browse(&mut self, up: bool)
        requires
            old(self).wf(),
        ensures
            final(self).wf(),
            browsed(*old(self), *final(self), up),
    {
        let n: usize = self.hist.len();
        if n == 0 {
            return ;
        }
        if up {
            match self.hist_pos {
                None => {
                    self.initial = self.buf.clone();
                    self.hist_pos = Some(0);
                    self.buf = self.hist[0].clone();
                },
                Some(p) => {
                    if p < n - 1 {
                        self.hist_pos = Some(p + 1);
                        self.buf = self.hist[p + 1].clone();
                    }
                },
            }
        } else {
            match self.hist_pos {
                None => {},
                Some(p) => {
                    if p == 0 {
                        self.hist_pos = None;
                        self.buf = self.initial.clone();
                    } else {
                        self.hist_pos = Some(p - 1);
                        self.buf = self.hist[p - 1].clone();
                    }
                },
            }
        }
        self.cursor = self.buf.as_str().unicode_len();
    }
}

/// A step to an older keyword and one back lead to where the browsing stood;
/// where it had not begun, to what was typed.
pub proof fn law_browsing_back_returns(
    buf: Seq<char>,
    initial: Seq<char>,
    hist: Seq<Seq<char>>,
    pos: Option<usize>,
)
    requires
        hist.len() > 0,
        pos matches Some(p) ==> p + 1 < hist.len() && buf == hist[p as int],
        hist.len() <= usize::MAX,
    ensures
        ({
            let kept = if pos is None {
                buf
            } else {
                initial
            };
            let up = older(pos, hist.len() as int);
            let shown = browsed_text(buf, kept, hist, pos, up);
            &&& newer(up) == pos
            &&& browsed_text(shown, kept, hist, up, newer(up)) == buf
        }),
{
}

impl GotoState {
    pub open spec fn wf(&self) -> bool {
        &&& all_digits(self.buf@)
        &&& self.cursor == self.buf@.len()
    }

    pub fn new() -> (r: Self)
        ensures
            r.wf(),
            r.buf@.len() == 0,
    {
        GotoState { buf: String::new(), cursor: 0 }
    }

    /// Takes away the last digit.
    pub fn backspace(&mut self)
        requires
            old(self).wf(),
        ensures
            final(self).wf(),
            final(self).buf@ == if old(self).buf@.len() > 0 {
                old(self).buf@.drop_last()
            } else {
                old(self).buf@
            },
    {
        if self.cursor > 0 {
            let ghost before = self.buf@;
            self.buf = remove_char(self.buf.as_str(), self.cursor - 1);
            self.cursor -= 1;
            proof {
                assert(self.buf@ =~= before.drop_last());
                assert forall|i: int| 0 <= i < self.buf@.len() implies '0' <= #[trigger] self.buf@[i]
                    <= '9' by {
                    assert(self.buf@[i] == before[i]);
                }
            }
        }
    }

    /// Adds a digit.
    pub fn push(&mut self, c: char)
        requires
            old(self).wf(),
            '0' <= c <= '9',
        ensures
            final(self).wf(),
            final(self).buf@ == old(self).buf@.push(c),
    {
        self.buf.push(c);
        self.cursor = self.buf.as_str().unicode_len();
    }
}

/// The places of the keywords, among the first `n`, that pass a filter.
pub open spec fn passing(items: Seq<Seq<char>>, filter: Seq<char>, n: nat) -> Seq<int>
    decreases n,
{
    if n == 0 {
        Seq::empty()
    } else {
        let front = passing(items, filter, (n - 1) as nat);
        if trimmed(filter).len() == 0 || fuzzy(trimmed(filter), items[n - 1]) {
            front.push(n - 1)
        } else {
            front
        }
    }
}

impl HistoryState {
    /// Whether the list is one of places of `n` keywords.
    pub open spec fn wf(&self, n: nat) -> bool {
        &&& forall|i: int| 0 <= i < self.list@.len() ==> #[trigger] self.list@[i] < n
        &&& self.list@.len() > 0 ==> self.sel < self.list@.len()
        &&& self.list@.len() == 0 ==> self.sel == 0
    }

    /// The places as numbers.
    pub open spec fn listed(&self) -> Seq<int> {
        self.list@.map_values(|i: usize| i as int)
    }

    /// The choice among all keywords.
    pub fn new(items: &[String]) -> (r: Self)
        ensures
            r.wf(items@.len()),
            r.filter@.len() == 0,
            r.sel == 0,
            r.listed() == passing(texts(items@), Seq::empty(), items@.len()),
    {
        let mut st = HistoryState { filter: String::new(), list: Vec::new(), sel: 0 };
        st.rebuild(items);
        assert(st.filter@ =~= Seq::<char>::empty());
        st
    }

    /// Lists the keywords that pass the filter; the selection stays in the
    /// list.
    pub fn rebuild(&mut self, items: &[String])
        ensures
            final(self).wf(items@.len()),
            final(self).filter == old(self).filter,
            final(self).listed() == passing(texts(items@), old(self).filter@, items@.len()),
            final(self).sel == if old(self).sel < final(self).list@.len() {
                old(self).sel as int
            } else if final(self).list@.len() == 0 {
                0
            } else {
                final(self).list@.len() - 1
            },
    {
        let q = trim_text(self.filter.as_str());
        let all: bool = q.is_empty();
        let n: usize = items.len();
        let mut list: Vec<usize> = Vec::new();
        let mut i: usize = 0;
        let ghost words = texts(items@);
        let ghost f = self.filter@;
        proof {
            assert(list@.map_values(|i: usize| i as int) =~= Seq::empty());
        }
        while i < n
            invariant
                i <= n,
                n == items@.len(),
                words == texts(items@),
                q@ == trimmed(f),
                all == (q@.len() == 0),
                *self == *old(self),
                list@.len() <= i,
                forall|k: int| 0 <= k < list@.len() ==> #[trigger] list@[k] < i,
                list@.map_values(|i: usize| i as int) == passing(words, f, i as nat),
            decreases n - i,
        {
            let ghost sofar = list@;
            if all || fuzzy_subseq(q, items[i].as_str()) {
                list.push(i);
                assert(list@.map_values(|i: usize| i as int) =~= sofar.map_values(
                    |i: usize| i as int,
                ).push(i as int));
            }
            i += 1;
        }
        let len: usize = list.len();
        if self.sel >= len {
            self.sel = if len == 0 {
                0
            } else {
                len - 1
            };
        }
        self.list = list;
    }

    /// Takes away the last character of the filter.
    pub fn backspace(&mut self, items: &[String])
        ensures
            final(self).wf(items@.len()),
            final(self).filter@ == if old(self).filter@.len() > 0 {
                old(self).filter@.drop_last()
            } else {
                old(self).filter@
            },
            final(self).listed() == passing(texts(items@), final(self).filter@, items@.len()),
            final(self).sel == if old(self).sel < final(self).list@.len() {
                old(self).sel as int
            } else if final(self).list@.len() == 0 {
                0
            } else {
                final(self).list@.len() - 1
            },
    {
        let n: usize = self.filter.as_str().unicode_len();
        if n > 0 {
            let ghost before = self.filter@;
            self.filter = remove_char(self.filter.as_str(), n - 1);
            assert(self.filter@ =~= before.drop_last());
        }
        self.rebuild(items);
    }

    /// Adds a character to the filter.
    pub fn push(&mut self, c: char, items: &[String])
        ensures
            final(self).wf(items@.len()),
            final(self).filter@ == old(self).filter@.push(c),
            final(self).listed() == passing(texts(items@), final(self).filter@, items@.len()),
            final(self).sel == if old(self).sel < final(self).list@.len() {
                old(self).sel as int
            } else if final(self).list@.len() == 0 {
                0
            } else {
                final(self).list@.len() - 1
            },
    {
        self.filter.push(c);
        self.rebuild(items);
    }

    /// Selects the keyword above.
    pub fn up(&mut self)
        ensures
            *final(self) == (HistoryState {
                sel: if old(self).sel > 0 {
                    (old(self).sel - 1) as usize
                } else {
                    0
                },
                ..*old(self)
            }),
    {
        if self.sel > 0 {
            self.sel -= 1;
        }
    }

    /// Selects the keyword below.
    pub fn down(&mut self)
        ensures
            *final(self) == (HistoryState {
                sel: if old(self).sel + 1 < old(self).list@.len() {
                    (old(self).sel + 1) as usize
                } else {
                    old(self).sel
                },
                ..*old(self)
            }),
    {
        if self.sel < self.list.len() && self.sel + 1 < self.list.len() {
            self.sel += 1;
        }
    }
}

/// The lesser of two numbers.
pub open spec fn lesser(a: int, b: int) -> int {
    if a < b {
        a
    } else {
        b
    }
}

/// The greater of two numbers.
pub open spec fn greater(a: int, b: int) -> int {
    if a < b {
        b
    } else {
        a
    }
}

impl VisualState {
    /// The characters of a row that are selected while the cursor is on row
    /// `cursor`: from the first number up to, not including, the second. A
    /// selection by lines takes whole rows, one by blocks the same columns of
    /// each row; else it runs from one end to the other, and the rows between
    /// are whole. `None` for a row outside the selection.
    pub open spec fn selected(&self, cursor: u64, row: u64, len: nat) -> Option<(int, int)> {
        let r1 = lesser(self.anchor_row as int, cursor as int);
        let r2 = greater(self.anchor_row as int, cursor as int);
        let c1 = lesser(self.anchor_col as int, self.cur_col as int);
        let c2 = greater(self.anchor_col as int, self.cur_col as int);
        let n = len as int;
        if row < r1 || row > r2 {
            None
        } else if self.kind == VisualKind::Line {
            Some((0, n))
        } else if self.kind == VisualKind::Block || r1 == r2 {
            Some((lesser(c1, n), lesser(c2 + 1, n)))
        } else if row == r1 {
            Some(
                (
                    lesser(
                        (if self.anchor_row == r1 {
                            self.anchor_col
                        } else {
                            self.cur_col
                        }) as int,
                        n,
                    ),
                    n,
                ),
            )
        } else if row == r2 {
            Some(
                (
                    0,
                    lesser(
                        (if self.anchor_row == r2 {
                            self.anchor_col
                        } else {
                            self.cur_col
                        }) + 1,
                        n,
                    ),
                ),
            )
        } else {
            Some((0, n))
        }
    }

    /// The characters of a row of `len` characters that are selected.
    pub fn selected_cols(&self, cursor: u64, row: u64, len: usize) -> (r: Option<(usize, usize)>)
        ensures
            match r {
                Some(s) => self.selected(cursor, row, len as nat) == Some((s.0 as int, s.1 as int)),
                None => self.selected(cursor, row, len as nat) is None,
            },
            r matches Some(s) ==> s.0 <= len && s.1 <= len,
    {
        let (r1, r2): (u64, u64) = if self.anchor_row < cursor {
            (self.anchor_row, cursor)
        } else {
            (cursor, self.anchor_row)
        };
        if row < r1 || row > r2 {
            return None;
        }
        let (c1, c2): (usize, usize) = if self.anchor_col < self.cur_col {
            (self.anchor_col, self.cur_col)
        } else {
            (self.cur_col, self.anchor_col)
        };
        if self.kind == VisualKind::Line {
            Some((0, len))
        } else if self.kind == VisualKind::Block || r1 == r2 {
            Some((at_most(c1, len), up_to_and_with(c2, len)))
        } else if row == r1 {
            let edge: usize = if self.anchor_row == r1 {
                self.anchor_col
            } else {
                self.cur_col
            };
            Some((at_most(edge, len), len))
        } else if row == r2 {
            let edge: usize = if self.anchor_row == r2 {
                self.anchor_col
            } else {
                self.cur_col
            };
            Some((0, up_to_and_with(edge, len)))
        } else {
            Some((0, len))
        }
    }
}

fn at_most(a: usize, n: usize) -> (r: usize)
    ensures
        r == lesser(a as int, n as int),
{
    if a < n {
        a
    } else {
        n
    }
}

fn up_to_and_with(a: usize, n: usize) -> (r: usize)
    ensures
        r == lesser(a + 1, n as int),
{
    if a < n {
        a + 1
    } else {
        n
    }
}

} // verus!
