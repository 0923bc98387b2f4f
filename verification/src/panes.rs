//! What the panes hold: the file, and lists of matching lines.
use vstd::prelude::*;
use crate::encoding::Encoding;
use crate::file::{DiskReply, DiskRequest};
use crate::lines::row_total;
use crate::search::{compile_regex, regex_compiled, regex_matches, source_of, Case, Match};
use crate::view::{bottom_top, followed, line_text, window_read, FileView};

verus! {

/// The most lines of a list that a search inside it goes through.
pub const LIST_SEARCH_LIMIT: usize = 20_000;

/// The rows that a pane shows before it is first drawn.
pub const FIRST_HEIGHT: usize = 24;

/// The most rows and columns that a pane can have.
pub const MAX_EXTENT: usize = 65_535;

/// How a search takes its pattern.
#[derive(Debug, Clone, Copy, PartialEq, Eq, Structural)]
pub struct SearchPrefs {
    pub case: Case,
    pub word: bool,
}

/// A search inside a list: it leaves the list as it is and marks the lines that
/// match.
pub struct PaneSearch {
    pub query: String,
    /// Whether the next match is the one further down.
    pub forward: bool,
    /// The places of the matching lines in the list, rising.
    pub match_idx: Vec<usize>,
}

/// A list of matching lines.
pub struct MatchesContent {
    pub rows: Vec<Match>,
    pub search: Option<PaneSearch>,
    /// Where the list came from.
    pub tag: String,
    /// The place of the selected line.
    pub sel: usize,
    /// The place of the first line on the screen.
    pub top: usize,
    pub inner_h: usize,
    /// The columns scrolled to the right.
    pub hscroll: usize,
    /// Whether long lines are wrapped.
    pub wrap: bool,
}

/// A search through the file whose matches come in one by one.
pub struct ActiveSearch {
    pub pattern: String,
    pub forward: bool,
    pub matches: Vec<Match>,
    pub done: bool,
    /// Whether the first jump to a match is still to come.
    pub pending_first: bool,
}

pub struct FileContent<D> {
    pub view: FileView<D>,
    pub search: Option<ActiveSearch>,
    /// What is highlighted in a line.
    pub hl: Option<regex::Regex>,
    pub inner_h: usize,
    pub hscroll: usize,
    pub wrap: bool,
}

pub enum Content<D> {
    File(FileContent<D>),
    Matches(MatchesContent),
}

pub struct Pane<D> {
    /// The pane's id in the layout.
    pub id: u64,
    pub content: Content<D>,
}

/// Whether numbers rise.
pub open spec fn rising(s: Seq<int>) -> bool {
    forall|i: int, j: int| 0 <= i < j < s.len() ==> #[trigger] s[i] < #[trigger] s[j]
}

/// How many numbers are below `x`.
pub open spec fn below(s: Seq<int>, x: int) -> nat
    decreases s.len(),
{
    if s.len() == 0 {
        0
    } else {
        below(s.drop_last(), x) + if s.last() < x {
            1nat
        } else {
            0
        }
    }
}

/// The place of the first number above `x`.
pub open spec fn next_hit(s: Seq<int>, x: int) -> Option<int> {
    if below(s, x + 1) < s.len() {
        Some(below(s, x + 1) as int)
    } else {
        None
    }
}

/// The place of the last number below `x`.
pub open spec fn prev_hit(s: Seq<int>, x: int) -> Option<int> {
    if below(s, x) > 0 {
        Some(below(s, x) - 1)
    } else {
        None
    }
}

/// The place of the first number not below `x`.
pub open spec fn hit_from(s: Seq<int>, x: int) -> Option<int> {
    if below(s, x) < s.len() {
        Some(below(s, x) as int)
    } else {
        None
    }
}

/// The place of the last number not above `x`.
pub open spec fn hit_up_to(s: Seq<int>, x: int) -> Option<int> {
    if below(s, x + 1) > 0 {
        Some(below(s, x + 1) - 1)
    } else {
        None
    }
}

/// Where a search lands first: at `x` or behind it, going forward; at `x` or
/// before it, going back.
pub open spec fn first_hit(s: Seq<int>, x: int, forward: bool) -> Option<int> {
    if forward {
        hit_from(s, x)
    } else {
        hit_up_to(s, x)
    }
}

/// Where a step goes from `x`: to the next number, or to the one before.
pub open spec fn step_hit(s: Seq<int>, x: int, onward: bool) -> Option<int> {
    if onward {
        next_hit(s, x)
    } else {
        prev_hit(s, x)
    }
}

/// The place of `x` itself.
pub open spec fn place_in(s: Seq<int>, x: int) -> Option<int> {
    if below(s, x) < s.len() && s[below(s, x) as int] == x {
        Some(below(s, x) as int)
    } else {
        None
    }
}

/// Among rising numbers those below `x` come first.
pub proof fn lemma_below(s: Seq<int>, x: int)
    requires
        rising(s),
    ensures
        below(s, x) <= s.len(),
        forall|i: int| 0 <= i < below(s, x) ==> #[trigger] s[i] < x,
        forall|i: int| below(s, x) <= i < s.len() ==> #[trigger] s[i] >= x,
    decreases s.len(),
{
    if s.len() > 0 {
        let front = s.drop_last();
        assert forall|i: int, j: int| 0 <= i < j < front.len() implies #[trigger] front[i]
            < #[trigger] front[j] by {
            assert(s[i] < s[j]);
        }
        lemma_below(front, x);
        let last = s.len() - 1;
        assert(s[last] == s.last());
        assert forall|i: int| 0 <= i < below(s, x) implies #[trigger] s[i] < x by {
            if i < last {
                if s.last() < x {
                    assert(s[i] < s[last]);
                } else {
                    assert(front[i] == s[i]);
                }
            }
        }
        assert forall|i: int| below(s, x) <= i < s.len() implies #[trigger] s[i] >= x by {
            if i < last {
                assert(front[i] == s[i]);
                assert(s[i] < s[last]);
            }
        }
    }
}

proof fn lemma_below_is(s: Seq<int>, x: int, n: int)
    requires
        0 <= n <= s.len(),
        forall|i: int| 0 <= i < n ==> #[trigger] s[i] < x,
        forall|i: int| n <= i < s.len() ==> #[trigger] s[i] >= x,
    ensures
        below(s, x) == n,
    decreases s.len(),
{
    if s.len() > 0 {
        let front = s.drop_last();
        let m = if n < s.len() {
            n
        } else {
            n - 1
        };
        assert(s[s.len() - 1] == s.last());
        assert forall|i: int| 0 <= i < m implies #[trigger] front[i] < x by {
            assert(front[i] == s[i]);
        }
        assert forall|i: int| m <= i < front.len() implies #[trigger] front[i] >= x by {
            assert(front[i] == s[i]);
        }
        lemma_below_is(front, x, m);
    }
}

/// A step onward goes to the nearest match behind the cursor, a step back to
/// the nearest before it; a first jump can also stay where it is.
pub proof fn law_steps_go_to_the_nearest(s: Seq<int>, x: int)
    requires
        rising(s),
    ensures
        match next_hit(s, x) {
            Some(k) => {
                &&& 0 <= k < s.len()
                &&& s[k] > x
                &&& forall|i: int| 0 <= i < s.len() && #[trigger] s[i] > x ==> s[k] <= s[i]
            },
            None => forall|i: int| 0 <= i < s.len() ==> #[trigger] s[i] <= x,
        },
        match prev_hit(s, x) {
            Some(k) => {
                &&& 0 <= k < s.len()
                &&& s[k] < x
                &&& forall|i: int| 0 <= i < s.len() && #[trigger] s[i] < x ==> s[i] <= s[k]
            },
            None => forall|i: int| 0 <= i < s.len() ==> #[trigger] s[i] >= x,
        },
        match hit_from(s, x) {
            Some(k) => {
                &&& 0 <= k < s.len()
                &&& s[k] >= x
                &&& forall|i: int| 0 <= i < s.len() && #[trigger] s[i] >= x ==> s[k] <= s[i]
            },
            None => forall|i: int| 0 <= i < s.len() ==> #[trigger] s[i] < x,
        },
        match hit_up_to(s, x) {
            Some(k) => {
                &&& 0 <= k < s.len()
                &&& s[k] <= x
                &&& forall|i: int| 0 <= i < s.len() && #[trigger] s[i] <= x ==> s[i] <= s[k]
            },
            None => forall|i: int| 0 <= i < s.len() ==> #[trigger] s[i] > x,
        },
        match place_in(s, x) {
            Some(k) => 0 <= k < s.len() && s[k] == x,
            None => !s.contains(x),
        },
{
    lemma_below(s, x);
    lemma_below(s, x + 1);
    if let Some(k) = next_hit(s, x) {
        assert(s[k] > x);
        assert forall|i: int| 0 <= i < s.len() && #[trigger] s[i] > x implies s[k] <= s[i] by {
            if i < k {
                assert(s[i] < x + 1);
            }
        }
    }
    if let Some(k) = prev_hit(s, x) {
        assert(s[k] < x);
        assert forall|i: int| 0 <= i < s.len() && #[trigger] s[i] < x implies s[i] <= s[k] by {
            if i > k {
                assert(s[i] >= x);
            }
        }
    }
    if let Some(k) = hit_from(s, x) {
        assert(s[k] >= x);
    }
    if let Some(k) = hit_up_to(s, x) {
        assert(s[k] < x + 1);
        assert forall|i: int| 0 <= i < s.len() && #[trigger] s[i] <= x implies s[i] <= s[k] by {
            if i > k {
                assert(s[i] >= x + 1);
            }
        }
    }
    if place_in(s, x) is None && s.contains(x) {
        let i = choose|i: int| 0 <= i < s.len() && s[i] == x;
        let b = below(s, x) as int;
        if i < b {
            assert(s[i] < x);
        }
        assert(s[b] >= x);
        if i > b {
            assert(s[b] < s[i]);
        }
    }
}

/// A step onward from a match and a step back lead to it again, and so do a
/// step back and one onward.
pub proof fn law_stepping_back_returns(s: Seq<int>, i: int, onward: bool)
    requires
        rising(s),
        0 <= i < s.len(),
        step_hit(s, s[i], onward) is Some,
    ensures
        ({
            let k = step_hit(s, s[i], onward)->0;
            &&& k == if onward {
                i + 1
            } else {
                i - 1
            }
            &&& step_hit(s, s[k], !onward) == Some(i)
        }),
{
    law_steps_go_to_the_nearest(s, s[i]);
    let k = step_hit(s, s[i], onward)->0;
    law_steps_go_to_the_nearest(s, s[k]);
    let back = step_hit(s, s[k], !onward);
    if onward {
        if k > i + 1 {
            assert(s[i] < s[i + 1] && s[i + 1] < s[k]);
        }
        if k < i {
            assert(s[k] < s[i]);
        }
        assert(s[i] < s[k]);
        assert(back is Some && s[i] <= s[back->0] && s[back->0] < s[k]);
        let b = back->0;
        if b < i {
            assert(s[b] < s[i]);
        }
        if b > k {
            assert(s[k] < s[b]);
        }
    } else {
        if k < i - 1 {
            assert(s[k] < s[i - 1] && s[i - 1] < s[i]);
        }
        if k > i {
            assert(s[i] < s[k]);
        }
        assert(s[k] < s[i]);
        assert(back is Some && s[back->0] <= s[i] && s[back->0] > s[k]);
        let b = back->0;
        if b > i {
            assert(s[i] < s[b]);
        }
        if b < k {
            assert(s[b] < s[k]);
        }
    }
}

/// The lines of matches.
pub open spec fn line_numbers(rows: Seq<Match>) -> Seq<int> {
    rows.map_values(|m: Match| m.line_no as int)
}

/// Places as numbers.
pub open spec fn places(v: Seq<usize>) -> Seq<int> {
    v.map_values(|i: usize| i as int)
}

/// How many of rising matches lie on lines below `line`.
pub fn matches_below(rows: &Vec<Match>, line: u64) -> (r: usize)
    ensures
        r <= rows@.len(),
        rising(line_numbers(rows@)) ==> r == below(line_numbers(rows@), line as int),
{
    let ghost s = line_numbers(rows@);
    let mut lo: usize = 0;
    let mut hi: usize = rows.len();
    while lo < hi
        invariant
            lo <= hi <= rows@.len(),
            s == line_numbers(rows@),
            rising(s) ==> forall|i: int| 0 <= i < lo ==> #[trigger] s[i] < line,
            rising(s) ==> forall|i: int| hi <= i < s.len() ==> #[trigger] s[i] >= line,
        decreases hi - lo,
    {
        let mid: usize = lo + (hi - lo) / 2;
        assert(s[mid as int] == rows@[mid as int].line_no);
        if rows[mid].line_no < line {
            proof {
                if rising(s) {
                    assert forall|i: int| 0 <= i < mid + 1 implies #[trigger] s[i] < line by {
                        if i < mid {
                            assert(s[i] < s[mid as int]);
                        }
                    }
                }
            }
            lo = mid + 1;
        } else {
            proof {
                if rising(s) {
                    assert forall|i: int| mid <= i < s.len() implies #[trigger] s[i] >= line by {
                        if i > mid {
                            assert(s[mid as int] < s[i]);
                        }
                    }
                }
            }
            hi = mid;
        }
    }
    proof {
        if rising(s) {
            lemma_below_is(s, line as int, lo as int);
        }
    }
    lo
}

/// How many of rising places lie below `x`.
pub fn places_below(v: &Vec<usize>, x: usize) -> (r: usize)
    ensures
        r <= v@.len(),
        rising(places(v@)) ==> r == below(places(v@), x as int),
{
    let ghost s = places(v@);
    let mut lo: usize = 0;
    let mut hi: usize = v.len();
    while lo < hi
        invariant
            lo <= hi <= v@.len(),
            s == places(v@),
            rising(s) ==> forall|i: int| 0 <= i < lo ==> #[trigger] s[i] < x,
            rising(s) ==> forall|i: int| hi <= i < s.len() ==> #[trigger] s[i] >= x,
        decreases hi - lo,
    {
        let mid: usize = lo + (hi - lo) / 2;
        assert(s[mid as int] == v@[mid as int]);
        if v[mid] < x {
            proof {
                if rising(s) {
                    assert forall|i: int| 0 <= i < mid + 1 implies #[trigger] s[i] < x by {
                        if i < mid {
                            assert(s[i] < s[mid as int]);
                        }
                    }
                }
            }
            lo = mid + 1;
        } else {
            proof {
                if rising(s) {
                    assert forall|i: int| mid <= i < s.len() implies #[trigger] s[i] >= x by {
                        if i > mid {
                            assert(s[mid as int] < s[i]);
                        }
                    }
                }
            }
            hi = mid;
        }
    }
    proof {
        if rising(s) {
            lemma_below_is(s, x as int, lo as int);
        }
    }
    lo
}

/// Among rising numbers at most one is `x`.
proof fn lemma_below_next(s: Seq<int>, x: int)
    requires
        rising(s),
    ensures
        below(s, x + 1) == below(s, x) + if place_in(s, x) is Some {
            1nat
        } else {
            0
        },
{
    lemma_below(s, x);
    let b = below(s, x) as int;
    if place_in(s, x) is Some {
        assert forall|i: int| 0 <= i < b + 1 implies #[trigger] s[i] < x + 1 by {
            if i < b {
                assert(s[i] < x);
            }
        }
        assert forall|i: int| b + 1 <= i < s.len() implies #[trigger] s[i] >= x + 1 by {
            assert(s[b] < s[i]);
        }
        lemma_below_is(s, x + 1, b + 1);
    } else {
        assert forall|i: int| 0 <= i < b implies #[trigger] s[i] < x + 1 by {
            assert(s[i] < x);
        }
        assert forall|i: int| b <= i < s.len() implies #[trigger] s[i] >= x + 1 by {
            assert(s[i] >= x);
            if s[i] == x && i > b {
                assert(s[b] < s[i]);
            }
        }
        lemma_below_is(s, x + 1, b);
    }
}

/// The first row on the screen when row `sel` has to be seen.
pub open spec fn kept_top(sel: int, top: int, height: int) -> int {
    let h = if height < 1 {
        1
    } else {
        height
    };
    if sel < top {
        sel
    } else if sel >= top + h {
        sel + 1 - h
    } else {
        top
    }
}

/// What the user is told where there is no further match.
pub open spec fn no_further(onward: bool) -> Seq<char> {
    if onward {
        "已是最后一个匹配"@
    } else {
        "已是第一个匹配"@
    }
}

pub fn no_further_text(onward: bool) -> (r: String)
    ensures
        r@ == no_further(onward),
{
    if onward {
        "已是最后一个匹配".to_owned()
    } else {
        "已是第一个匹配".to_owned()
    }
}

impl PaneSearch {
    /// Whether the marked places rise and are places of a list of `n` lines.
    pub open spec fn wf(&self, n: nat) -> bool {
        &&& self.match_idx@.len() > 0
        &&& rising(places(self.match_idx@))
        &&& forall|i: int| 0 <= i < self.match_idx@.len() ==> #[trigger] self.match_idx@[i] < n
    }
}

/// The text of a line, empty if the file has no such line.
pub open spec fn text_or_empty(c: Seq<u8>, line: u64, max: int, enc: Encoding) -> Seq<char> {
    if 1 <= line <= row_total(c) {
        line_text(c, line as int, max, enc)
    } else {
        Seq::empty()
    }
}

/// Which of the first `n` lines of a list match.
pub open spec fn matching(
    c: Seq<u8>,
    rows: Seq<Match>,
    max: int,
    enc: Encoding,
    re: regex::Regex,
    n: nat,
) -> Seq<int>
    decreases n,
{
    if n == 0 {
        Seq::empty()
    } else {
        let front = matching(c, rows, max, enc, re, (n - 1) as nat);
        if regex_matches(re, text_or_empty(c, rows[n - 1].line_no, max, enc)) {
            front.push(n - 1)
        } else {
            front
        }
    }
}

/// The text of a line of the file, empty if it has no such line.
pub fn read_text<D: Fn(DiskRequest) -> DiskReply>(view: &mut FileView<D>, line: u64) -> (r: String)
    requires
        old(view).wf(),
    ensures
        final(view).same_frame(*old(view)),
        final(view).same_place(*old(view)),
        forall|c: Seq<u8>| #[trigger]
            old(view).shows(c) ==> final(view).in_step(c) && r@ == text_or_empty(
                c,
                line,
                old(view).row_limit() as int,
                old(view).enc(),
            ),
{
    match view.read_line_text(line) {
        Some(t) => t,
        None => String::new(),
    }
}

impl MatchesContent {
    pub open spec fn wf(&self) -> bool {
        &&& self.rows@.len() == 0 ==> self.sel == 0
        &&& self.rows@.len() > 0 ==> self.sel < self.rows@.len()
        &&& self.top <= self.sel
        &&& self.inner_h <= MAX_EXTENT
        &&& self.search matches Some(s) ==> s.wf(self.rows@.len())
    }

    /// Whether this is a new list of lines.
    pub open spec fn is_new(&self, rows: Seq<Match>, tag: Seq<char>) -> bool {
        &&& self.rows@ == rows
        &&& self.tag@ == tag
        &&& self.search is None
        &&& self.sel == 0
        &&& self.top == 0
        &&& self.inner_h == FIRST_HEIGHT
        &&& self.hscroll == 0
        &&& !self.wrap
    }

    pub fn new(rows: Vec<Match>, tag: String) -> (r: Self)
        ensures
            r.wf(),
            r.is_new(rows@, tag@),
    {
        MatchesContent {
            rows,
            search: None,
            tag,
            sel: 0,
            top: 0,
            inner_h: FIRST_HEIGHT,
            hscroll: 0,
            wrap: false,
        }
    }

    /// Scrolls the list so that the selected line is seen.
    pub fn keep_visible(&mut self)
        ensures
            old(self).rows@.len() == 0 ==> *final(self) == (MatchesContent {
                sel: 0,
                top: 0,
                ..*old(self)
            }),
            old(self).rows@.len() > 0 ==> *final(self) == (MatchesContent {
                top: kept_top(
                    old(self).sel as int,
                    old(self).top as int,
                    old(self).inner_h as int,
                ) as usize,
                ..*old(self)
            }),
            old(self).rows@.len() > 0 ==> final(self).top <= final(self).sel,
    {
        if self.rows.len() == 0 {
            self.sel = 0;
            self.top = 0;
            return ;
        }
        let h: usize = if self.inner_h < 1 {
            1
        } else {
            self.inner_h
        };
        if self.sel < self.top {
            self.top = self.sel;
        } else if self.sel - self.top >= h {
            self.top = self.sel - h + 1;
        }
    }

    /// Selects a line and scrolls so that it is seen.
    pub fn select(&mut self, place: usize)
        requires
            old(self).wf(),
            place < old(self).rows@.len(),
        ensures
            final(self).wf(),
            *final(self) == (MatchesContent {
                sel: place,
                top: kept_top(place as int, old(self).top as int, old(self).inner_h as int) as usize,
                ..*old(self)
            }),
    {
        self.sel = place;
        self.keep_visible();
    }

    /// The line of the selected match.
    pub fn jump_to_file(&self) -> (r: Option<u64>)
        ensures
            r == if self.sel < self.rows@.len() {
                Some(self.rows@[self.sel as int].line_no)
            } else {
                None
            },
    {
        if self.sel < self.rows.len() {
            Some(self.rows[self.sel].line_no)
        } else {
            None
        }
    }

    /// Takes the matches of a search inside the list, and selects the first
    /// one in its direction, if there is one. Returns how many there are.
    pub fn set_search(&mut self, query: &str, forward: bool, match_idx: Vec<usize>) -> (r: usize)
        requires
            old(self).wf(),
            rising(places(match_idx@)),
            forall|i: int|
                0 <= i < match_idx@.len() ==> #[trigger] match_idx@[i] < old(self).rows@.len(),
        ensures
            final(self).wf(),
            r == match_idx@.len(),
            searched(*old(self), *final(self), query@, forward, places(match_idx@)),
    {
        let len: usize = match_idx.len();
        let ghost s = places(match_idx@);
        if len == 0 {
            self.search = None;
            return 0;
        }
        let sel: usize = self.sel;
        let b: usize = places_below(&match_idx, sel);
        let on: bool = b < len && match_idx[b] == sel;
        proof {
            lemma_below(s, sel as int);
            lemma_below_next(s, sel as int);
        }
        let first: Option<usize> = if forward {
            if b < len {
                Some(b)
            } else {
                None
            }
        } else if on {
            Some(b)
        } else if b > 0 {
            Some(b - 1)
        } else {
            None
        };
        let target: Option<usize> = match first {
            Some(k) => Some(match_idx[k]),
            None => None,
        };
        let query = query.to_owned();
        self.search = Some(PaneSearch { query, forward, match_idx });
        if let Some(place) = target {
            self.select(place);
        }
        len
    }

    /// Searches the list: the lines are read from the file. `Err` with a text
    /// for the user if the list is too long or the pattern is no regular
    /// expression.
    pub fn do_search<D: Fn(DiskRequest) -> DiskReply>(
        &mut self,
        view: &mut FileView<D>,
        pattern: &str,
        forward: bool,
        opts: &SearchPrefs,
    ) -> (r: Result<usize, String>)
        requires
            old(self).wf(),
            old(view).wf(),
        ensures
            final(self).wf(),
            list_searched(
                *old(self),
                *final(self),
                *old(view),
                *final(view),
                pattern@,
                forward,
                *opts,
                plain_count(r),
            ),
    {
        if self.rows.len() > LIST_SEARCH_LIMIT {
            return Err(list_too_long_text());
        }
        let re = match compile_regex(pattern, opts.case, opts.word) {
            Ok(re) => re,
            Err(e) => {
                return Err(e);
            },
        };
        let n: usize = self.rows.len();
        let ghost max = view.row_limit() as int;
        let ghost enc = view.enc();
        let mut match_idx: Vec<usize> = Vec::new();
        let mut i: usize = 0;
        proof {
            assert(places(match_idx@) =~= Seq::empty());
        }
        while i < n
            invariant
                i <= n,
                n == self.rows@.len(),
                *self == *old(self),
                view.wf(),
                view.same_frame(*old(view)),
                view.same_place(*old(view)),
                max == old(view).row_limit(),
                enc == old(view).enc(),
                rising(places(match_idx@)),
                match_idx@.len() <= i,
                forall|k: int| 0 <= k < match_idx@.len() ==> #[trigger] match_idx@[k] < i,
                forall|c: Seq<u8>| #[trigger]
                    old(view).shows(c) ==> view.shows(c) && places(match_idx@) == matching(
                        c,
                        self.rows@,
                        max,
                        enc,
                        re,
                        i as nat,
                    ),
            decreases n - i,
        {
            let ghost before = *view;
            let ghost sofar = match_idx@;
            let text = read_text(view, self.rows[i].line_no);
            let hit: bool = re.is_match(text.as_str());
            if hit {
                match_idx.push(i);
            }
            proof {
                assert(places(match_idx@) =~= if hit {
                    places(sofar).push(i as int)
                } else {
                    places(sofar)
                });
                assert forall|c: Seq<u8>| #[trigger] old(view).shows(c) implies view.shows(c)
                    && places(match_idx@) == matching(c, self.rows@, max, enc, re, (i + 1) as nat) by {
                    assert(before.shows(c));
                    assert(view.in_step(c));
                }
                assert(rising(places(match_idx@))) by {
                    let p = places(match_idx@);
                    assert forall|a: int, b: int| 0 <= a < b < p.len() implies #[trigger] p[a]
                        < #[trigger] p[b] by {
                        if b < sofar.len() {
                            assert(p[a] == places(sofar)[a] && p[b] == places(sofar)[b]);
                        } else {
                            assert(p[a] == match_idx@[a]);
                            assert(sofar[a] < i);
                        }
                    }
                }
            }
            i += 1;
        }
        let count = self.set_search(pattern, forward, match_idx);
        proof {
            assert forall|c: Seq<u8>| #[trigger] old(view).shows(c) implies places(match_idx@)
                == matching(c, old(self).rows@, max, enc, re, old(self).rows@.len()) by {}
        }
        Ok(count)
    }

    /// Goes to the next match of the search, or with `reverse` to the one
    /// before, by where the selected line stands. `None` if it moved or there
    /// is no search; else what the user is told.
    pub fn step_match(&mut self, reverse: bool) -> (r: Option<String>)
        requires
            old(self).wf(),
        ensures
            final(self).wf(),
            match old(self).search {
                None => r is None && *final(self) == *old(self),
                Some(s) => match step_hit(
                    places(s.match_idx@),
                    old(self).sel as int,
                    s.forward != reverse,
                ) {
                    Some(k) => r is None && *final(self) == (MatchesContent {
                        sel: s.match_idx@[k],
                        top: kept_top(
                            s.match_idx@[k] as int,
                            old(self).top as int,
                            old(self).inner_h as int,
                        ) as usize,
                        ..*old(self)
                    }),
                    None => *final(self) == *old(self) && (r matches Some(t) && t@ == no_further(
                        s.forward != reverse,
                    )),
                },
            },
    {
        let sel: usize = self.sel;
        let (target, onward): (Option<usize>, bool) = match &self.search {
            None => {
                return None;
            },
            Some(s) => {
                let onward: bool = s.forward != reverse;
                let len: usize = s.match_idx.len();
                let b: usize = places_below(&s.match_idx, sel);
                let on: bool = b < len && s.match_idx[b] == sel;
                proof {
                    lemma_below(places(s.match_idx@), sel as int);
                    lemma_below_next(places(s.match_idx@), sel as int);
                }
                let k: Option<usize> = if onward {
                    let t: usize = if on {
                        b + 1
                    } else {
                        b
                    };
                    if t < len {
                        Some(t)
                    } else {
                        None
                    }
                } else if b > 0 {
                    Some(b - 1)
                } else {
                    None
                };
                match k {
                    Some(t) => (Some(s.match_idx[t]), onward),
                    None => (None, onward),
                }
            },
        };
        match target {
            Some(place) => {
                self.select(place);
                None
            },
            None => Some(no_further_text(onward)),
        }
    }

    pub fn clear_search(&mut self)
        requires
            old(self).wf(),
        ensures
            final(self).wf(),
            *final(self) == (MatchesContent { search: None, ..*old(self) }),
    {
        self.search = None;
    }

    /// If the selected line is a match: its number among the matches, from 1,
    /// and how many there are.
    pub fn search_pos(&self) -> (r: Option<(usize, usize)>)
        requires
            self.wf(),
        ensures
            r == match self.search {
                None => None,
                Some(s) => match place_in(places(s.match_idx@), self.sel as int) {
                    Some(k) => Some(((k + 1) as usize, s.match_idx@.len() as usize)),
                    None => None,
                },
            },
    {
        match &self.search {
            None => None,
            Some(s) => {
                let len: usize = s.match_idx.len();
                let b: usize = places_below(&s.match_idx, self.sel);
                proof {
                    lemma_below(places(s.match_idx@), self.sel as int);
                }
                if b < len && s.match_idx[b] == self.sel {
                    Some((b + 1, len))
                } else {
                    None
                }
            },
        }
    }
}

/// What the user is told of a list that is too long to search.
pub open spec fn list_too_long() -> Seq<char> {
    "列表过大（>2 万行），窗内过滤略过；请回主窗用同一关键字搜索"@
}

fn list_too_long_text() -> (r: String)
    ensures
        r@ == list_too_long(),
{
    "列表过大（>2 万行），窗内过滤略过；请回主窗用同一关键字搜索".to_owned()
}

/// A number of matches or a text for the user, as plain values.
pub open spec fn plain_count(r: Result<usize, String>) -> Result<nat, Seq<char>> {
    match r {
        Ok(n) => Ok(n as nat),
        Err(e) => Err(e@),
    }
}

/// Whether a list was searched, its lines read from the file; `r` is the
/// number of matches, or what the user is told where the list is too long or
/// the pattern is no regular expression.
pub open spec fn list_searched<D: Fn(DiskRequest) -> DiskReply>(
    before: MatchesContent,
    after: MatchesContent,
    view: FileView<D>,
    view_after: FileView<D>,
    pattern: Seq<char>,
    forward: bool,
    opts: SearchPrefs,
    r: Result<nat, Seq<char>>,
) -> bool {
    let re = regex_compiled(source_of(pattern, opts.case, opts.word));
    &&& view_after.same_frame(view)
    &&& view_after.same_place(view)
    &&& forall|c: Seq<u8>| #[trigger] view.shows(c) ==> view_after.shows(c)
    &&& if before.rows@.len() > LIST_SEARCH_LIMIT {
        &&& after == before
        &&& r == Err::<nat, Seq<char>>(list_too_long())
    } else if re is Err {
        &&& after == before
        &&& r == Err::<nat, Seq<char>>(re->Err_0)
    } else {
        &&& r is Ok
        &&& after.rows == before.rows
        &&& forall|c: Seq<u8>| #[trigger]
            view.shows(c) ==> {
                let hits = matching(
                    c,
                    before.rows@,
                    view.row_limit() as int,
                    view.enc(),
                    re->Ok_0,
                    before.rows@.len(),
                );
                &&& r == Ok::<nat, Seq<char>>(hits.len())
                &&& searched(before, after, pattern, forward, hits)
            }
    }
}

/// What a search inside a list leaves: nothing marked if nothing matches; else
/// the matches marked, and the first one in the direction selected, if the
/// selected line has one there.
pub open spec fn searched(
    before: MatchesContent,
    after: MatchesContent,
    query: Seq<char>,
    forward: bool,
    hits: Seq<int>,
) -> bool {
    if hits.len() == 0 {
        after == (MatchesContent { search: None, ..before })
    } else {
        &&& after.search matches Some(s) && s.query@ == query && s.forward == forward && places(
            s.match_idx@,
        ) == hits
        &&& after == match first_hit(hits, before.sel as int, forward) {
            Some(k) => MatchesContent {
                search: after.search,
                sel: hits[k] as usize,
                top: kept_top(hits[k], before.top as int, before.inner_h as int) as usize,
                ..before
            },
            None => MatchesContent { search: after.search, ..before },
        }
    }
}

/// The lines that a search inside a list marks are exactly those that match.
pub proof fn law_marked_lines_match(
    c: Seq<u8>,
    rows: Seq<Match>,
    max: int,
    enc: Encoding,
    re: regex::Regex,
    n: nat,
    i: int,
)
    requires
        n <= rows.len(),
    ensures
        rising(matching(c, rows, max, enc, re, n)),
        matching(c, rows, max, enc, re, n).contains(i) <==> 0 <= i < n && regex_matches(
            re,
            text_or_empty(c, rows[i].line_no, max, enc),
        ),
    decreases n,
{
    lemma_matching(c, rows, max, enc, re, n);
    let s = matching(c, rows, max, enc, re, n);
    if n > 0 {
        let front = matching(c, rows, max, enc, re, (n - 1) as nat);
        law_marked_lines_match(c, rows, max, enc, re, (n - 1) as nat, i);
        if s.contains(i) {
            let k = choose|k: int| 0 <= k < s.len() && s[k] == i;
            if k < front.len() {
                assert(front[k] == i);
            }
        }
        if front.contains(i) {
            let k = choose|k: int| 0 <= k < front.len() && front[k] == i;
            assert(s[k] == i);
        }
        if i == n - 1 && regex_matches(re, text_or_empty(c, rows[i].line_no, max, enc)) {
            assert(s[s.len() - 1] == i);
        }
    }
}

proof fn lemma_matching(
    c: Seq<u8>,
    rows: Seq<Match>,
    max: int,
    enc: Encoding,
    re: regex::Regex,
    n: nat,
)
    ensures
        rising(matching(c, rows, max, enc, re, n)),
        forall|k: int|
            0 <= k < matching(c, rows, max, enc, re, n).len() ==> 0 <= #[trigger] matching(
                c,
                rows,
                max,
                enc,
                re,
                n,
            )[k] < n,
    decreases n,
{
    if n > 0 {
        lemma_matching(c, rows, max, enc, re, (n - 1) as nat);
        let front = matching(c, rows, max, enc, re, (n - 1) as nat);
        let s = matching(c, rows, max, enc, re, n);
        assert forall|a: int, b: int| 0 <= a < b < s.len() implies #[trigger] s[a]
            < #[trigger] s[b] by {
            if b < front.len() {
                assert(front[a] < front[b]);
            } else {
                assert(front[a] < n - 1);
            }
        }
        assert forall|k: int| 0 <= k < s.len() implies 0 <= #[trigger] s[k] < n by {
            if k < front.len() {
                assert(s[k] == front[k]);
            }
        }
    }
}

/// The least rows that a jump fills.
pub const JUMP_HEIGHT: usize = 10;

impl ActiveSearch {
    /// The lines of the matches.
    pub open spec fn lines(&self) -> Seq<int> {
        line_numbers(self.matches@)
    }
}

/// Whether the cursor was put on row `line1` a third down the window and the
/// window was read, if there is such a row.
pub open spec fn centered<D: Fn(DiskRequest) -> DiskReply>(
    before: FileContent<D>,
    after: FileContent<D>,
    line1: u64,
    r: bool,
) -> bool {
    &&& after.wf()
    &&& after.same_but_view(before)
    &&& !r ==> after.view.same_place(before.view)
    &&& r ==> {
        &&& line1 >= 1
        &&& after.view.cursor() == line1 - 1
        &&& after.view.height() == before.jump_height()
        &&& after.view.top() == followed(
            bottom_top(line1 - 1, (before.view.height() / 3) as int) as u64,
            (line1 - 1) as u64,
            before.jump_height() as u64,
        )
        &&& after.view.cursor_in_window()
    }
    &&& forall|c: Seq<u8>| #[trigger]
        before.view.shows(c) ==> after.view.shows(c) && (r ==> after.view.in_step(c)
            && window_read(c, after.view, before.jump_height() as nat))
    &&& forall|c: Seq<u8>, n: int|
        #![trigger before.view.covers(c, n)]
        before.view.shows(c) && before.view.covers(c, n) ==> (r <==> 1 <= line1 <= row_total(
            c.take(n),
        ))
    &&& forall|c: Seq<u8>| #[trigger]
        before.view.in_step(c) ==> after.view.in_step(c) && (r <==> 1 <= line1 <= row_total(c))
}

impl<D: Fn(DiskRequest) -> DiskReply> FileContent<D> {
    pub open spec fn wf(&self) -> bool {
        &&& self.view.wf()
        &&& self.inner_h <= MAX_EXTENT
    }

    /// The rows that a jump fills.
    pub open spec fn jump_height(&self) -> usize {
        if self.inner_h < JUMP_HEIGHT {
            JUMP_HEIGHT
        } else {
            self.inner_h
        }
    }

    /// Whether only the view has changed.
    pub open spec fn same_but_view(&self, before: Self) -> bool {
        &&& *self == (FileContent { view: self.view, ..before })
        &&& self.view.same_frame(before.view)
    }

    /// Puts the cursor on row `line1`, counted from 1, a third down the
    /// window, and reads the window. `false`, and nothing done, if there is no
    /// such row.
    pub fn center_on(&mut self, line1: u64) -> (r: bool)
        requires
            old(self).wf(),
        ensures
            centered(*old(self), *final(self), line1, r),
    {
        let h: usize = if self.inner_h < JUMP_HEIGHT {
            JUMP_HEIGHT
        } else {
            self.inner_h
        };
        if !self.view.goto_line1(line1) {
            return false;
        }
        let ghost mid = self.view;
        self.view.fill_to(h);
        proof {
            assert forall|c: Seq<u8>| #[trigger] old(self).view.shows(c) implies self.view.shows(c)
                && self.view.in_step(c) && window_read(c, self.view, h as nat) by {
                assert(mid.shows(c));
                assert(self.view.in_step(c));
            }
        }
        true
    }

    /// The number of rows if the end of the file was reached, as of then.
    pub fn known_total(&self) -> (r: Option<u64>)
        requires
            self.wf(),
        ensures
            r == if self.view.idx().done() {
                Some(self.view.idx().rows())
            } else {
                None
            },
    {
        self.view.known_total()
    }

    /// The match that a step from the cursor goes to: onward the next one
    /// behind it, else the nearest before it. Its place and its line.
    pub fn locate_from_cursor(&self, onward: bool) -> (r: Option<(usize, u64)>)
        requires
            self.wf(),
        ensures
            self.search is None ==> r is None,
            self.search matches Some(a) ==> (rising(a.lines()) ==> r == match step_hit(
                a.lines(),
                self.view.cursor() + 1,
                onward,
            ) {
                Some(k) => Some((k as usize, a.matches@[k].line_no)),
                None => None,
            }),
    {
        let cursor: u64 = self.view.cursor_line1();
        match &self.search {
            None => None,
            Some(a) => {
                let len: usize = a.matches.len();
                let b: usize = matches_below(&a.matches, cursor);
                let on: bool = b < len && a.matches[b].line_no == cursor;
                proof {
                    if rising(a.lines()) {
                        lemma_below(a.lines(), cursor as int);
                        lemma_below_next(a.lines(), cursor as int);
                    }
                }
                if onward {
                    let i: usize = if on {
                        b + 1
                    } else {
                        b
                    };
                    if i < len {
                        Some((i, a.matches[i].line_no))
                    } else {
                        None
                    }
                } else if b > 0 {
                    Some((b - 1, a.matches[b - 1].line_no))
                } else {
                    None
                }
            },
        }
    }

    /// The match that a search jumps to first: by its direction the nearest
    /// one, that of the cursor's own row included.
    pub fn first_match(&self) -> (r: Option<(usize, u64)>)
        requires
            self.wf(),
        ensures
            self.search is None ==> r is None,
            self.search matches Some(a) ==> (rising(a.lines()) ==> r == match first_hit(
                a.lines(),
                self.view.cursor() + 1,
                a.forward,
            ) {
                Some(k) => Some((k as usize, a.matches@[k].line_no)),
                None => None,
            }),
    {
        let cursor: u64 = self.view.cursor_line1();
        match &self.search {
            None => None,
            Some(a) => {
                let len: usize = a.matches.len();
                let b: usize = matches_below(&a.matches, cursor);
                let on: bool = b < len && a.matches[b].line_no == cursor;
                proof {
                    if rising(a.lines()) {
                        lemma_below(a.lines(), cursor as int);
                        lemma_below_next(a.lines(), cursor as int);
                    }
                }
                if a.forward {
                    if b < len {
                        Some((b, a.matches[b].line_no))
                    } else {
                        None
                    }
                } else if on {
                    Some((b, a.matches[b].line_no))
                } else if b > 0 {
                    Some((b - 1, a.matches[b - 1].line_no))
                } else {
                    None
                }
            },
        }
    }

    /// The number of the match on the cursor's row, from 1.
    pub fn match_at_cursor(&self) -> (r: Option<usize>)
        requires
            self.wf(),
        ensures
            self.search is None ==> r is None,
            self.search matches Some(a) ==> (rising(a.lines()) ==> r == match place_in(
                a.lines(),
                self.view.cursor() + 1,
            ) {
                Some(k) => Some((k + 1) as usize),
                None => None,
            }),
    {
        let cursor: u64 = self.view.cursor_line1();
        match &self.search {
            None => None,
            Some(a) => {
                let len: usize = a.matches.len();
                let b: usize = matches_below(&a.matches, cursor);
                proof {
                    if rising(a.lines()) {
                        lemma_below(a.lines(), cursor as int);
                    }
                }
                if b < len && a.matches[b].line_no == cursor {
                    Some(b + 1)
                } else {
                    None
                }
            },
        }
    }
}

impl<D: Fn(DiskRequest) -> DiskReply> Pane<D> {
    /// A pane for a file.
    pub fn file(id: u64, view: FileView<D>) -> (r: Self)
        requires
            view.wf(),
        ensures
            r.id == id,
            r.content matches Content::File(fc) && fc.wf() && fc == (FileContent {
                view,
                search: None,
                hl: None,
                inner_h: FIRST_HEIGHT,
                hscroll: 0,
                wrap: false,
            }),
    {
        Pane {
            id,
            content: Content::File(
                FileContent {
                    view,
                    search: None,
                    hl: None,
                    inner_h: FIRST_HEIGHT,
                    hscroll: 0,
                    wrap: false,
                },
            ),
        }
    }

    /// A pane for a list of matches.
    pub fn matches(id: u64, rows: Vec<Match>, tag: String) -> (r: Self)
        ensures
            r.id == id,
            r.content matches Content::Matches(mc) && mc.wf() && mc.is_new(rows@, tag@),
    {
        Pane { id, content: Content::Matches(MatchesContent::new(rows, tag)) }
    }
}

} // verus!
