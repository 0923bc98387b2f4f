//! What a search reports, from its first match to its end.
//!
//! Each match is reported when it is found. At the end comes an error, if there
//! was one, and then the number of matches.
use vstd::prelude::*;
use crate::app::App;
use crate::encoding::utf8_lossy;
use crate::file::{
    askable, disk_holds, opened, DiskReply, DiskRequest, FileSource, DEFAULT_CHUNK_SIZE,
};
use crate::jumps::{heard, news_taken, SearchNews};
use crate::lines::row_total;
use crate::panes::{line_numbers, rising};
use crate::search::{
    closing_messages, compile_regex, decoded_row, line_end_cut, match_from, regex_compiled,
    regex_matches, source_of, Case, DecodedSearch, Match, MatchView, RgMsg, Step,
};

verus! {

/// The lines that messages report, in their order.
pub open spec fn told_lines(msgs: Seq<RgMsg>) -> Seq<int>
    decreases msgs.len(),
{
    if msgs.len() == 0 {
        Seq::empty()
    } else {
        match msgs.last() {
            RgMsg::Match(m) => told_lines(msgs.drop_last()).push(m.line_no as int),
            _ => told_lines(msgs.drop_last()),
        }
    }
}

/// Whether messages are those of a whole search: one end, which comes last and
/// counts the matches, and an error at most just before it.
pub open spec fn whole(msgs: Seq<RgMsg>) -> bool {
    &&& msgs.len() > 0
    &&& msgs.last() matches RgMsg::Done { count, .. } && count == told_lines(msgs).len()
    &&& forall|i: int| 0 <= i < msgs.len() - 1 ==> !((#[trigger] msgs[i]) is Done)
    &&& forall|i: int| 0 <= i < msgs.len() - 2 ==> (#[trigger] msgs[i]) is Match
}

/// The message for a match.
pub open spec fn match_message(m: Match) -> RgMsg {
    RgMsg::Match(m)
}

/// The messages for matches.
pub open spec fn match_messages(found: Seq<Match>) -> Seq<RgMsg> {
    found.map_values(|m: Match| match_message(m))
}

/// The messages at the end of a search.
pub open spec fn closing(error: Option<String>, count: u64, cancelled: bool) -> Seq<RgMsg> {
    match error {
        Some(e) => seq![RgMsg::Error(e), RgMsg::Done { count, cancelled }],
        None => seq![RgMsg::Done { count, cancelled }],
    }
}

/// All messages of a search that found these matches.
pub open spec fn search_messages(
    found: Seq<Match>,
    error: Option<String>,
    cancelled: bool,
) -> Seq<RgMsg> {
    match_messages(found) + closing(error, found.len() as u64, cancelled)
}

/// The reports of one search.
pub struct Reports {
    count: u64,
    found: Ghost<Seq<Match>>,
}

impl Reports {
    /// The matches reported so far.
    pub closed spec fn found(&self) -> Seq<Match> {
        self.found@
    }

    pub closed spec fn wf(&self) -> bool {
        self.count == self.found@.len()
    }

    /// Nothing is reported yet.
    pub fn new() -> (r: Self)
        ensures
            r.wf(),
            r.found() == Seq::<Match>::empty(),
    {
        Reports { count: 0, found: Ghost(Seq::empty()) }
    }

    /// The number of matches reported.
    pub fn count(&self) -> (r: u64)
        requires
            self.wf(),
        ensures
            r == self.found().len(),
    {
        self.count
    }

    /// Takes in a match and returns its message.
    pub fn report(&mut self, m: Match) -> (r: RgMsg)
        requires
            old(self).wf(),
            old(self).found().len() < u64::MAX,
        ensures
            final(self).wf(),
            final(self).found() == old(self).found().push(m),
            r == match_message(m),
    {
        proof {
            self.found@ = self.found@.push(m);
        }
        self.count += 1;
        RgMsg::Match(m)
    }

    /// Takes in a matching line of a UTF-8 file. Returns whether the search is
    /// to go on, and the message for the match: a cancelled search stops and
    /// reports no more, and a line without a number is passed over.
    pub fn matched(&mut self, line_no: Option<u64>, bytes: &[u8], cancelled: bool) -> (r: (
        bool,
        Option<RgMsg>,
    ))
        requires
            old(self).wf(),
            old(self).found().len() < u64::MAX,
        ensures
            final(self).wf(),
            r.0 == !cancelled,
            match line_no {
                Some(n) if !cancelled => {
                    &&& r.1 matches Some(RgMsg::Match(m)) && m@ == (MatchView {
                        line_no: n,
                        text: line_end_cut(utf8_lossy(bytes@)),
                    }) && final(self).found() == old(self).found().push(m)
                },
                _ => r.1 is None && final(self).found() == old(self).found(),
            },
    {
        if cancelled {
            return (false, None);
        }
        match line_no {
            None => (true, None),
            Some(n) => {
                let msg = self.report(match_from(n, bytes));
                (true, Some(msg))
            },
        }
    }

    /// Ends the search: the messages that are left.
    pub fn close(self, error: Option<String>, cancelled: bool) -> (r: Vec<RgMsg>)
        requires
            self.wf(),
        ensures
            r@ == closing(error, self.found().len() as u64, cancelled),
            match_messages(self.found()) + r@ == search_messages(self.found(), error, cancelled),
            whole(match_messages(self.found()) + r@),
            told_lines(match_messages(self.found()) + r@) == line_numbers(self.found()),
    {
        proof {
            law_search_ends_once(self.found@, error, cancelled);
        }
        closing_messages(error, self.count, cancelled)
    }
}

/// The rows among the first `n` that match, as they are reported.
pub open spec fn rows_hit(c: Seq<u8>, re: regex::Regex, n: nat) -> Seq<MatchView>
    decreases n,
{
    if n == 0 {
        Seq::empty()
    } else {
        let front = rows_hit(c, re, (n - 1) as nat);
        let text = decoded_row(c, (n - 1) as nat);
        if regex_matches(re, text) {
            front.push(MatchView { line_no: n as u64, text })
        } else {
            front
        }
    }
}

/// Matches as plain values.
pub open spec fn plain_matches(found: Seq<Match>) -> Seq<MatchView> {
    found.map_values(|m: Match| m@)
}

/// What one turn of a search gives.
pub enum Turn {
    /// A match, to be sent on.
    Tell(RgMsg),
    /// A row that does not match.
    Quiet,
    /// The search is at its end and is to be closed.
    Over,
}

/// A search that reads a file row by row, with its reports. One that could not
/// begin only ends.
pub struct RowSearch<D> {
    search: Option<DecodedSearch<D>>,
    failure: Option<String>,
    reports: Reports,
}

impl<D: Fn(DiskRequest) -> DiskReply> RowSearch<D> {
    /// Why the search could not begin.
    pub closed spec fn failing(&self) -> Option<Seq<char>> {
        match self.failure {
            Some(e) => Some(e@),
            None => None,
        }
    }

    /// The matches reported so far.
    pub closed spec fn found(&self) -> Seq<Match> {
        self.reports.found()
    }

    /// The rows looked at.
    pub closed spec fn seen(&self) -> u64 {
        match self.search {
            Some(s) => s.seen(),
            None => 0,
        }
    }

    pub closed spec fn search(&self) -> Option<DecodedSearch<D>> {
        self.search
    }

    /// The lines reported are rows that were looked at, in their order.
    pub open spec fn in_order(&self) -> bool {
        &&& rising(line_numbers(self.found()))
        &&& forall|i: int|
            0 <= i < self.found().len() ==> 1 <= (#[trigger] self.found()[i]).line_no
                <= self.seen()
    }

    pub closed spec fn wf(&self) -> bool {
        &&& self.reports.wf()
        &&& self.in_order()
        &&& match self.search {
            Some(s) => s.wf() && self.failure is None && self.found().len() == s.found(),
            None => self.failure is Some && self.found().len() == 0,
        }
    }

    /// Whether the search has reported just the rows that match, of those that
    /// it has looked at.
    pub open spec fn on_track(&self, c: Seq<u8>) -> bool {
        self.search() matches Some(s) && s.on_track(c) && plain_matches(self.found()) == rows_hit(
            c,
            s.pattern(),
            s.seen() as nat,
        )
    }

    /// Begins a search through a file that was opened, or was not: the pattern
    /// is looked at first.
    pub fn start(disk: Result<D, String>, pattern: &str, case: Case, word: bool) -> (r: Self)
        requires
            disk matches Ok(d) ==> askable(d),
        ensures
            r.wf(),
            r.found().len() == 0,
            r.seen() == 0,
            match regex_compiled(source_of(pattern@, case, word)) {
                Err(e) => r.failing() == Some(e),
                Ok(re) => match disk {
                    Err(e) => r.failing() == Some(e@),
                    Ok(d) => {
                        &&& exists|src: Result<FileSource<D>, String>|
                            {
                                &&& #[trigger] opened(d, DEFAULT_CHUNK_SIZE, src)
                                &&& match src {
                                    Err(e) => r.failing() == Some(e@),
                                    Ok(s) => r.failing() is None && r.search() is Some
                                        && r.search()->0.source() == s && r.search()->0.pattern()
                                        == re,
                                }
                            }
                        &&& forall|c: Seq<u8>| #[trigger]
                            disk_holds(d, c) ==> r.on_track(c) && r.search()->0.pattern() == re
                    },
                },
            },
    {
        let reports = Reports::new();
        assert(line_numbers(reports.found()) =~= Seq::empty());
        let re = match compile_regex(pattern, case, word) {
            Ok(re) => re,
            Err(e) => {
                return RowSearch { search: None, failure: Some(e), reports };
            },
        };
        let disk = match disk {
            Ok(d) => d,
            Err(e) => {
                return RowSearch { search: None, failure: Some(e), reports };
            },
        };
        let ghost d = disk;
        let src = FileSource::open(disk);
        let ghost tried = src;
        assert(opened(d, DEFAULT_CHUNK_SIZE, tried));
        match src {
            Ok(src) => {
                let r = RowSearch {
                    search: Some(DecodedSearch::new(src, re)),
                    failure: None,
                    reports,
                };
                proof {
                    assert forall|c: Seq<u8>| #[trigger] disk_holds(d, c) implies r.on_track(c) by {
                        assert(src.holds(c));
                        assert(plain_matches(r.found()) =~= rows_hit(c, re, 0));
                    }
                }
                r
            },
            Err(e) => {
                proof {
                    assert forall|c: Seq<u8>| !(#[trigger] disk_holds(d, c)) by {
                        if disk_holds(d, c) {
                            let reply = choose|reply: DiskReply|
                                {
                                    &&& #[trigger] call_ensures(d, (DiskRequest::Len,), reply)
                                    &&& match reply {
                                        DiskReply::Len(n) => tried matches Ok(s) && s.known_len()
                                            == n,
                                        DiskReply::Bytes(_) => tried matches Err(m) && m@.len()
                                            == 0,
                                        DiskReply::Failed(_, e) => tried matches Err(m) && m@
                                            == e@,
                                    }
                                };
                            assert(crate::file::faithful(c, DiskRequest::Len, reply));
                        }
                    }
                }
                RowSearch { search: None, failure: Some(e), reports }
            },
        }
    }

    /// Looks at the next row.
    pub fn turn(&mut self) -> (r: Turn)
        requires
            old(self).wf(),
        ensures
            final(self).wf(),
            final(self).failing() == old(self).failing(),
            old(self).failing() is Some ==> r is Over && *final(self) == *old(self),
            match r {
                Turn::Tell(msg) => {
                    &&& msg matches RgMsg::Match(m) && final(self).found() == old(
                        self,
                    ).found().push(m) && m.line_no == old(self).seen() + 1
                    &&& final(self).seen() == old(self).seen() + 1
                },
                Turn::Quiet => {
                    &&& final(self).found() == old(self).found()
                    &&& final(self).seen() == old(self).seen() + 1
                },
                Turn::Over => {
                    &&& final(self).found() == old(self).found()
                    &&& final(self).seen() == old(self).seen()
                },
            },
            forall|c: Seq<u8>| #[trigger]
                old(self).on_track(c) ==> {
                    &&& final(self).on_track(c)
                    &&& final(self).search()->0.pattern() == old(self).search()->0.pattern()
                    &&& r is Over <==> old(self).seen() >= row_total(c)
                },
    {
        let ghost before = *self;
        let ghost all = line_numbers(before.found());
        match &mut self.search {
            None => Turn::Over,
            Some(search) => {
                let ghost s0 = *search;
                let step = search.step();
                let ghost s1 = *search;
                match step {
                    Step::End => Turn::Over,
                    Step::Row(None) => {
                        proof {
                            assert forall|c: Seq<u8>| #[trigger] old(self).on_track(
                                c,
                            ) implies s1.on_track(c) && rows_hit(
                                c,
                                s1.pattern(),
                                s1.seen() as nat,
                            ) == rows_hit(c, s0.pattern(), s0.seen() as nat) && s0.seen()
                                < row_total(c) by {
                                assert(s0.on_track(c));
                            }
                        }
                        Turn::Quiet
                    },
                    Step::Row(Some(m)) => {
                        let ghost hit = m;
                        let msg = self.reports.report(m);
                        proof {
                            let now = self.found();
                            assert(now == before.found().push(hit));
                            assert(line_numbers(now) =~= all.push(hit.line_no as int));
                            assert forall|i: int| 0 <= i < now.len() implies 1 <= (
                            #[trigger] now[i]).line_no <= self.seen() by {
                                if i < before.found().len() {
                                    assert(now[i] == before.found()[i]);
                                }
                            }
                            assert forall|i: int, j: int|
                                0 <= i < j < now.len() implies #[trigger] line_numbers(now)[i]
                                < #[trigger] line_numbers(now)[j] by {
                                assert(now[i] == before.found()[i]);
                                if j < before.found().len() {
                                    assert(all[i] < all[j]);
                                }
                            }
                            assert forall|c: Seq<u8>| #[trigger] old(self).on_track(
                                c,
                            ) implies self.on_track(c) && s0.seen() < row_total(c) by {
                                assert(s0.on_track(c));
                                assert(plain_matches(now) =~= plain_matches(before.found()).push(
                                    hit@,
                                ));
                            }
                        }
                        Turn::Tell(msg)
                    },
                }
            },
        }
    }

    /// Ends the search: the messages that are left. With those that were sent
    /// they are the messages of a whole search, with rising lines.
    pub fn close(self, cancelled: bool) -> (r: Vec<RgMsg>)
        requires
            self.wf(),
        ensures
            match self.failing() {
                Some(e) => {
                    &&& r@.len() == 2
                    &&& r@[0] matches RgMsg::Error(t) && t@ == e
                    &&& r@[1] == (RgMsg::Done { count: 0, cancelled })
                },
                None => r@ == seq![RgMsg::Done { count: self.found().len() as u64, cancelled }],
            },
            whole(match_messages(self.found()) + r@),
            told_lines(match_messages(self.found()) + r@) == line_numbers(self.found()),
            rising(line_numbers(self.found())),
            forall|i: int| 0 <= i < self.found().len() ==> (#[trigger] self.found()[i]).line_no >= 1,
    {
        self.reports.close(self.failure, cancelled)
    }
}

/// The lines of messages one after the other.
proof fn lemma_told_lines(a: Seq<RgMsg>, b: Seq<RgMsg>)
    ensures
        told_lines(a + b) == told_lines(a) + told_lines(b),
    decreases b.len(),
{
    if b.len() == 0 {
        assert(a + b =~= a);
        assert(told_lines(a) + told_lines(b) =~= told_lines(a));
    } else {
        lemma_told_lines(a, b.drop_last());
        assert((a + b).drop_last() =~= a + b.drop_last());
        assert(told_lines(a + b) =~= told_lines(a) + told_lines(b));
    }
}

proof fn lemma_match_lines(found: Seq<Match>)
    ensures
        told_lines(match_messages(found)) == line_numbers(found),
    decreases found.len(),
{
    if found.len() > 0 {
        lemma_match_lines(found.drop_last());
        assert(match_messages(found).drop_last() =~= match_messages(found.drop_last()));
        assert(line_numbers(found) =~= line_numbers(found.drop_last()).push(
            found.last().line_no as int,
        ));
    } else {
        assert(line_numbers(found) =~= Seq::empty());
    }
}

/// The messages of a search have one end, and it is the last message. It counts
/// the matches. The lines are those of the matches, in their order. An error,
/// of the pattern or of the file, comes just before the end, and only where
/// there was one.
pub proof fn law_search_ends_once(found: Seq<Match>, error: Option<String>, cancelled: bool)
    requires
        found.len() <= u64::MAX,
    ensures
        ({
            let msgs = search_messages(found, error, cancelled);
            &&& whole(msgs)
            &&& told_lines(msgs) == line_numbers(found)
            &&& msgs.last() == (RgMsg::Done { count: found.len() as u64, cancelled })
            &&& match error {
                Some(e) => msgs.len() == found.len() + 2 && msgs[msgs.len() - 2] == RgMsg::Error(e),
                None => forall|i: int| 0 <= i < msgs.len() ==> !((#[trigger] msgs[i]) is Error),
            }
        }),
{
    let a = match_messages(found);
    let b = closing(error, found.len() as u64, cancelled);
    lemma_told_lines(a, b);
    lemma_match_lines(found);
    assert(b.drop_last() =~= match error {
        Some(e) => seq![RgMsg::Error(e)],
        None => Seq::empty(),
    });
    reveal_with_fuel(told_lines, 3);
    assert(told_lines(b) =~= Seq::empty());
    assert(line_numbers(found) + told_lines(b) =~= line_numbers(found));
}

/// Messages taken in leave the matches that were there with those that they
/// report behind them, and the search done if one of them is an end.
proof fn lemma_heard(msgs: Seq<RgMsg>, matches: Seq<Match>, done: bool, elapsed: Seq<char>)
    ensures
        line_numbers(heard(msgs, matches, done, elapsed).0) == line_numbers(matches) + told_lines(
            msgs,
        ),
        heard(msgs, matches, done, elapsed).1 <==> done || exists|i: int|
            0 <= i < msgs.len() && (#[trigger] msgs[i]) is Done,
    decreases msgs.len(),
{
    if msgs.len() == 0 {
        assert(line_numbers(matches) + told_lines(msgs) =~= line_numbers(matches));
    } else {
        let front = msgs.drop_last();
        lemma_heard(front, matches, done, elapsed);
        let (m, d, note) = heard(front, matches, done, elapsed);
        if let RgMsg::Match(x) = msgs.last() {
            assert(line_numbers(m.push(x)) =~= line_numbers(m).push(x.line_no as int));
        }
        assert(line_numbers(heard(msgs, matches, done, elapsed).0) =~= line_numbers(matches)
            + told_lines(msgs));
        if exists|i: int| 0 <= i < front.len() && (#[trigger] front[i]) is Done {
            let i = choose|i: int| 0 <= i < front.len() && (#[trigger] front[i]) is Done;
            assert(msgs[i] is Done);
        }
        assert(msgs[msgs.len() - 1] == msgs.last());
        if exists|i: int| 0 <= i < msgs.len() && (#[trigger] msgs[i]) is Done {
            let i = choose|i: int| 0 <= i < msgs.len() && (#[trigger] msgs[i]) is Done;
            if i < front.len() {
                assert(front[i] is Done);
            }
        }
    }
}

/// Reports in the order of their lines leave a list in the order of its lines:
/// where the lines of the list and those reported behind them rise, the lines of
/// the list rise after the reports were taken in. They are the old ones and then
/// the new ones, and the search is done if it was, or if an end was reported, or
/// if no more will come.
pub proof fn law_news_keep_the_lines_rising<D: Fn(DiskRequest) -> DiskReply>(
    before: App<D>,
    after: App<D>,
    news: SearchNews,
    due: bool,
)
    requires
        before.file().search is Some,
        news_taken(before, after, news, due),
        rising(before.file().search->0.lines() + told_lines(news.msgs@)),
    ensures
        after.file().search is Some,
        after.file().search->0.lines() == before.file().search->0.lines() + told_lines(
            news.msgs@,
        ),
        rising(after.file().search->0.lines()),
        after.file().search->0.done <==> before.file().search->0.done || news.closed || exists|
            i: int,
        |
            0 <= i < news.msgs@.len() && (#[trigger] news.msgs@[i]) is Done,
{
    let a = before.file().search->0;
    lemma_heard(news.msgs@, a.matches@, a.done, news.elapsed@);
}

/// A list that a search fills, from nothing, has rising lines all the time: the
/// lines of the first messages of a search whose lines rise, rise too. It is done
/// with the last message and not before, and then holds the matches of the whole
/// search.
pub proof fn law_search_fills_a_rising_list(
    found: Seq<Match>,
    error: Option<String>,
    cancelled: bool,
    n: int,
    elapsed: Seq<char>,
)
    requires
        found.len() <= u64::MAX,
        rising(line_numbers(found)),
        0 <= n <= search_messages(found, error, cancelled).len(),
    ensures
        ({
            let msgs = search_messages(found, error, cancelled);
            let taken = heard(msgs.take(n), Seq::empty(), false, elapsed);
            &&& rising(line_numbers(taken.0))
            &&& taken.1 <==> n == msgs.len()
            &&& taken.0 == found.take(
                if n <= found.len() {
                    n
                } else {
                    found.len() as int
                },
            )
        }),
    decreases n,
{
    let msgs = search_messages(found, error, cancelled);
    law_search_ends_once(found, error, cancelled);
    let kept = if n <= found.len() {
        n
    } else {
        found.len() as int
    };
    let taken = heard(msgs.take(n), Seq::empty(), false, elapsed);
    if n > 0 {
        law_search_fills_a_rising_list(found, error, cancelled, n - 1, elapsed);
        assert(msgs.take(n).drop_last() =~= msgs.take(n - 1));
        assert(msgs.take(n).last() == msgs[n - 1]);
        if n <= found.len() {
            assert(msgs[n - 1] == match_messages(found)[n - 1]);
            assert(found.take(n) =~= found.take(n - 1).push(found[n - 1]));
        } else {
            let b = closing(error, found.len() as u64, cancelled);
            assert(msgs[n - 1] == b[n - 1 - found.len()]);
            assert(found.take(kept) =~= found);
            assert(found.take(found.len() as int) =~= found);
        }
    } else {
        assert(found.take(0) =~= Seq::empty());
    }
    lemma_heard(msgs.take(n), Seq::empty(), false, elapsed);
    assert forall|i: int, j: int| 0 <= i < j < taken.0.len() implies #[trigger] line_numbers(
        taken.0,
    )[i] < #[trigger] line_numbers(taken.0)[j] by {
        assert(line_numbers(found)[i] < line_numbers(found)[j]);
    }
}

/// A search by rows finds the rows that match and no others: each that it reports
/// is a row of the file under its number, counted from 1, with its text, and each
/// row that matches is reported.
pub proof fn law_rows_found_are_those_that_match(c: Seq<u8>, re: regex::Regex, n: nat)
    requires
        n <= u64::MAX,
    ensures
        forall|i: int|
            0 <= i < rows_hit(c, re, n).len() ==> {
                let m = #[trigger] rows_hit(c, re, n)[i];
                &&& 1 <= m.line_no <= n
                &&& m.text == decoded_row(c, (m.line_no - 1) as nat)
                &&& regex_matches(re, m.text)
            },
        forall|row: nat|
            row < n && regex_matches(re, #[trigger] decoded_row(c, row)) ==> exists|i: int|
                0 <= i < rows_hit(c, re, n).len() && (#[trigger] rows_hit(c, re, n)[i]).line_no
                    == row + 1,
        forall|i: int, j: int|
            0 <= i < j < rows_hit(c, re, n).len() ==> (#[trigger] rows_hit(c, re, n)[i]).line_no < (
            #[trigger] rows_hit(c, re, n)[j]).line_no,
    decreases n,
{
    if n > 0 {
        law_rows_found_are_those_that_match(c, re, (n - 1) as nat);
        let front = rows_hit(c, re, (n - 1) as nat);
        let all = rows_hit(c, re, n);
        assert forall|row: nat|
            row < n && regex_matches(re, #[trigger] decoded_row(c, row)) implies exists|i: int|
            0 <= i < all.len() && (#[trigger] all[i]).line_no == row + 1 by {
            if row < n - 1 {
                let i = choose|i: int|
                    0 <= i < front.len() && (#[trigger] front[i]).line_no == row + 1;
                assert(all[i] == front[i]);
            } else {
                assert(all[all.len() - 1].line_no == n);
            }
        }
        assert forall|i: int, j: int| 0 <= i < j < all.len() implies (#[trigger] all[i]).line_no < (
        #[trigger] all[j]).line_no by {
            assert(all[i] == front[i]);
            if j < front.len() {
                assert(all[j] == front[j]);
            }
        }
    }
}

} // verus!
