//! Searching: the regular expression for a pattern, and the lines that match.
//!
//! A UTF-8 file is searched by `grep_searcher`, with a matcher that is built
//! here. A file in another encoding is read row by row, decoded, and matched
//! against a regular expression.
use vstd::prelude::*;
use crate::encoding::{decode_utf8_lossy, gbk_text, utf8_lossy, Encoding};
use crate::file::{same_file, DiskReply, DiskRequest, FileSource};
use crate::lines::{
    law_row_start_of_each_row, law_rows_follow_each_other, lemma_find_nl, row_at, row_start,
    row_total, LineReader,
};
use crate::text::chars_of;
use grep_regex::RegexMatcherBuilder;

verus! {

#[verifier::external_type_specification]
#[verifier::external_body]
pub struct ExRegex(regex::Regex);

#[verifier::external_type_specification]
#[verifier::external_body]
pub struct ExRegexMatcher(grep_regex::RegexMatcher);

/// A line that matches.
#[derive(Debug)]
pub struct Match {
    /// The line, counted from 1.
    pub line_no: u64,
    /// The line's text, decoded.
    pub text: String,
}

impl Clone for Match {
    fn clone(&self) -> (r: Self)
        ensures
            r == *self,
    {
        Match { line_no: self.line_no, text: self.text.clone() }
    }
}

/// A matching line as plain values.
#[verifier::ext_equal]
pub struct MatchView {
    pub line_no: u64,
    pub text: Seq<char>,
}

impl View for Match {
    type V = MatchView;

    open spec fn view(&self) -> MatchView {
        MatchView { line_no: self.line_no, text: self.text@ }
    }
}

/// What a search reports.
#[derive(Debug)]
pub enum RgMsg {
    Match(Match),
    /// The end of the search: the matches that were reported, and whether it
    /// was cancelled.
    Done { count: u64, cancelled: bool },
    Error(String),
}

/// How the case of letters counts.
#[derive(Debug, Clone, Copy, PartialEq, Eq, Structural)]
pub enum Case {
    /// It does not, unless the pattern has an upper-case letter.
    Smart,
    Insensitive,
    Sensitive,
}

impl Case {
    pub open spec fn name(self) -> Seq<char> {
        match self {
            Case::Smart => "智能"@,
            Case::Insensitive => "忽略"@,
            Case::Sensitive => "区分"@,
        }
    }

    /// The mode that follows this one.
    pub open spec fn following(self) -> Case {
        match self {
            Case::Smart => Case::Insensitive,
            Case::Insensitive => Case::Sensitive,
            Case::Sensitive => Case::Smart,
        }
    }

    pub fn label(&self) -> (r: &'static str)
        ensures
            r@ == self.name(),
    {
        match self {
            Case::Smart => "智能",
            Case::Insensitive => "忽略",
            Case::Sensitive => "区分",
        }
    }

    pub fn next(self) -> (r: Self)
        ensures
            r == self.following(),
    {
        match self {
            Case::Smart => Case::Insensitive,
            Case::Insensitive => Case::Sensitive,
            Case::Sensitive => Case::Smart,
        }
    }
}

/// Going through the case modes comes back to the first after all three.
pub proof fn law_case_cycles(case: Case)
    ensures
        case.following() != case,
        case.following().following() != case,
        case.following().following().following() == case,
{
}

/// Whether `char::is_uppercase` holds.
pub uninterp spec fn is_upper(c: char) -> bool;

/// What `regex::Regex::new` makes of a source: a regular expression, or the
/// text of its error.
pub uninterp spec fn regex_compiled(source: Seq<char>) -> Result<regex::Regex, Seq<char>>;

/// Whether `regex::Regex::is_match` holds.
pub uninterp spec fn regex_matches(re: regex::Regex, text: Seq<char>) -> bool;

/// The matches of `regex::Regex::find_iter`: the byte where each starts and
/// the byte where it ends.
pub uninterp spec fn regex_spans(re: regex::Regex, text: Seq<char>) -> Seq<(usize, usize)>;

/// What `grep_regex::RegexMatcherBuilder` builds for a pattern and its case
/// insensitive, smart case and word options: a matcher, or the text of its
/// error.
pub uninterp spec fn grep_compiled(
    pattern: Seq<char>,
    insensitive: bool,
    smart: bool,
    word: bool,
) -> Result<grep_regex::RegexMatcher, Seq<char>>;

/// `char::is_uppercase`: the characters with the Unicode property `Uppercase`.
/// Of ASCII these are the letters from `A` to `Z`.
pub assume_specification[ char::is_uppercase ](c: char) -> (r: bool)
    ensures
        r == is_upper(c),
        c <= '~' ==> r == ('A' <= c <= 'Z'),
;

/// Calls `regex::Regex::new`; its error comes as its text.
#[verifier::external_body]
fn new_regex(source: &str) -> (r: Result<regex::Regex, String>)
    ensures
        match r {
            Ok(re) => regex_compiled(source@) == Ok::<regex::Regex, Seq<char>>(re),
            Err(e) => regex_compiled(source@) == Err::<regex::Regex, Seq<char>>(e@),
        },
{
    regex::Regex::new(source).map_err(|e| e.to_string())
}

/// `regex::Regex::is_match`: whether the regular expression matches somewhere
/// in the text.
pub assume_specification[ regex::Regex::is_match ](re: &regex::Regex, haystack: &str) -> (r: bool)
    ensures
        r == regex_matches(*re, haystack@),
;

/// Calls `regex::Regex::find_iter`. The matches come one behind the other and
/// do not overlap, and there is one exactly if `is_match` holds.
#[verifier::external_body]
pub(crate) fn find_spans(re: &regex::Regex, text: &str) -> (r: Vec<(usize, usize)>)
    ensures
        r@ == regex_spans(*re, text@),
        forall|i: int| 0 <= i < r@.len() ==> (#[trigger] r@[i]).0 <= r@[i].1,
        forall|i: int, j: int| 0 <= i < j < r@.len() ==> (#[trigger] r@[i]).1 <= (#[trigger] r@[j]).0,
        (r@.len() > 0) == regex_matches(*re, text@),
{
    re.find_iter(text).map(|m| (m.start(), m.end())).collect()
}

/// Calls `grep_regex::RegexMatcherBuilder::build` on a builder with these
/// options; its error comes as its text.
#[verifier::external_body]
fn build_matcher(pattern: &str, insensitive: bool, smart: bool, word: bool) -> (r: Result<
    grep_regex::RegexMatcher,
    String,
>)
    ensures
        match r {
            Ok(m) => grep_compiled(pattern@, insensitive, smart, word) == Ok::<
                grep_regex::RegexMatcher,
                Seq<char>,
            >(m),
            Err(e) => grep_compiled(pattern@, insensitive, smart, word) == Err::<
                grep_regex::RegexMatcher,
                Seq<char>,
            >(e@),
        },
{
    RegexMatcherBuilder::new()
        .case_insensitive(insensitive)
        .case_smart(smart)
        .word(word)
        .build(pattern)
        .map_err(|e| e.to_string())
}

/// The mark at the start of a pattern that makes the case not count.
pub open spec fn ignore_mark() -> Seq<char> {
    "(?i)"@
}

pub open spec fn has_upper(s: Seq<char>) -> bool {
    exists|i: int| 0 <= i < s.len() && is_upper(#[trigger] s[i])
}

/// A pattern for which the case does not count.
pub open spec fn case_ignored(pattern: Seq<char>) -> Seq<char> {
    if ignore_mark().is_prefix_of(pattern) {
        pattern
    } else {
        ignore_mark() + pattern
    }
}

/// The source of the regular expression for a pattern.
pub open spec fn source_of(pattern: Seq<char>, case: Case, word: bool) -> Seq<char> {
    let base = match case {
        Case::Smart => smart_source(pattern),
        Case::Insensitive => case_ignored(pattern),
        Case::Sensitive => pattern,
    };
    if word {
        "\\b(?:"@ + base + ")\\b"@
    } else {
        base
    }
}

pub open spec fn smart_source(pattern: Seq<char>) -> Seq<char> {
    if has_upper(pattern) {
        pattern
    } else {
        case_ignored(pattern)
    }
}

fn any_upper(pattern: &str) -> (r: bool)
    ensures
        r == has_upper(pattern@),
{
    let chars = chars_of(pattern);
    let n: usize = chars.len();
    let mut i: usize = 0;
    while i < n
        invariant
            i <= n,
            n == chars@.len(),
            chars@ == pattern@,
            forall|k: int| 0 <= k < i ==> !is_upper(#[trigger] pattern@[k]),
        decreases n - i,
    {
        if chars[i].is_uppercase() {
            assert(is_upper(pattern@[i as int]));
            return true;
        }
        i += 1;
    }
    false
}

fn has_ignore_mark(pattern: &str) -> (r: bool)
    ensures
        r == ignore_mark().is_prefix_of(pattern@),
{
    proof {
        reveal_strlit("(?i)");
    }
    let chars = chars_of(pattern);
    let r: bool = chars.len() >= 4 && chars[0] == '(' && chars[1] == '?' && chars[2] == 'i'
        && chars[3] == ')';
    proof {
        if r {
            assert(pattern@.take(4) =~= ignore_mark());
        } else if ignore_mark().is_prefix_of(pattern@) {
            assert(pattern@.take(4) =~= ignore_mark());
            assert(pattern@[0] == ignore_mark()[0]);
            assert(pattern@[1] == ignore_mark()[1]);
            assert(pattern@[2] == ignore_mark()[2]);
            assert(pattern@[3] == ignore_mark()[3]);
        }
    }
    r
}

fn ignoring_case(pattern: &str) -> (r: String)
    ensures
        r@ == case_ignored(pattern@),
{
    if has_ignore_mark(pattern) {
        pattern.to_owned()
    } else {
        let mut out = "(?i)".to_owned();
        out.append(pattern);
        out
    }
}

/// The source for a pattern under smart case: the case does not count, unless
/// the pattern has an upper-case letter.
pub fn smart_case_regex(pattern: &str) -> (r: String)
    ensures
        r@ == smart_source(pattern@),
{
    if any_upper(pattern) {
        pattern.to_owned()
    } else {
        ignoring_case(pattern)
    }
}

/// The source of the regular expression for a pattern.
pub fn pattern_source(pattern: &str, case: Case, whole_word: bool) -> (r: String)
    ensures
        r@ == source_of(pattern@, case, whole_word),
{
    let base: String = match case {
        Case::Smart => smart_case_regex(pattern),
        Case::Insensitive => ignoring_case(pattern),
        Case::Sensitive => pattern.to_owned(),
    };
    if whole_word {
        let mut out = "\\b(?:".to_owned();
        out.append(base.as_str());
        out.append(")\\b");
        out
    } else {
        base
    }
}

/// The regular expression for a pattern, or the text of the error.
pub fn compile_regex(pattern: &str, case: Case, whole_word: bool) -> (r: Result<
    regex::Regex,
    String,
>)
    ensures
        match r {
            Ok(re) => regex_compiled(source_of(pattern@, case, whole_word)) == Ok::<
                regex::Regex,
                Seq<char>,
            >(re),
            Err(e) => regex_compiled(source_of(pattern@, case, whole_word)) == Err::<
                regex::Regex,
                Seq<char>,
            >(e@),
        },
{
    let source = pattern_source(pattern, case, whole_word);
    new_regex(source.as_str())
}

/// The case options of a matcher: insensitive, and smart.
pub open spec fn grep_options(case: Case) -> (bool, bool) {
    (case == Case::Insensitive, case == Case::Smart)
}

/// The matcher for a pattern, or the text of the error.
pub fn matcher_for(pattern: &str, case: Case, word: bool) -> (r: Result<
    grep_regex::RegexMatcher,
    String,
>)
    ensures
        ({
            let built = grep_compiled(pattern@, grep_options(case).0, grep_options(case).1, word);
            match r {
                Ok(m) => built == Ok::<grep_regex::RegexMatcher, Seq<char>>(m),
                Err(e) => built == Err::<grep_regex::RegexMatcher, Seq<char>>(e@),
            }
        }),
        matches_as_marked(
            pattern@,
            case,
            word,
            match r {
                Ok(m) => Ok(m),
                Err(e) => Err(e@),
            },
        ),
{
    proof {
        law_search_and_marks_agree_on_case(
            pattern@,
            case,
            word,
            grep_compiled(pattern@, grep_options(case).0, grep_options(case).1, word),
        );
    }
    let insensitive: bool = match case {
        Case::Insensitive => true,
        _ => false,
    };
    let smart: bool = match case {
        Case::Smart => true,
        _ => false,
    };
    build_matcher(pattern, insensitive, smart, word)
}

/// Smart case is one of the other two modes, by the pattern alone.
pub proof fn law_smart_case_chooses(pattern: Seq<char>, word: bool)
    ensures
        source_of(pattern, Case::Smart, word) == if has_upper(pattern) {
            source_of(pattern, Case::Sensitive, word)
        } else {
            source_of(pattern, Case::Insensitive, word)
        },
{
}

/// Whether a pattern stands for itself: it is not empty and has none of the
/// characters that mean something else in a regular expression.
pub open spec fn stands_for_itself(pattern: Seq<char>) -> bool {
    &&& pattern.len() > 0
    &&& forall|i: int|
        0 <= i < pattern.len() ==> !seq![
            '\\',
            '.',
            '+',
            '*',
            '?',
            '(',
            ')',
            '|',
            '[',
            ']',
            '{',
            '}',
            '^',
            '$',
        ].contains(#[trigger] pattern[i])
}

/// Whether a matcher minds the case of the letters of a pattern that stands for
/// itself, by the options that it was built with: it does not if it is to ignore
/// the case, nor, with smart case, if no letter is in upper case.
pub open spec fn case_minded(insensitive: bool, smart: bool, pattern: Seq<char>) -> bool {
    !insensitive && (!smart || has_upper(pattern))
}

/// Whether a matcher goes by the case as the regular expression does that marks
/// what was found, and by whole words as it is asked to.
pub open spec fn matches_as_marked(
    pattern: Seq<char>,
    case: Case,
    word: bool,
    built: Result<grep_regex::RegexMatcher, Seq<char>>,
) -> bool {
    exists|insensitive: bool, smart: bool|
        {
            &&& built == #[trigger] grep_compiled(pattern, insensitive, smart, word)
            &&& case == Case::Sensitive ==> !insensitive && !smart
            &&& case == Case::Insensitive ==> insensitive
            &&& stands_for_itself(pattern) ==> source_of(pattern, case, word) == source_of(
                pattern,
                if case_minded(insensitive, smart, pattern) {
                    Case::Sensitive
                } else {
                    Case::Insensitive
                },
                word,
            )
        }
}

/// The lines that are found are those that are marked: the matcher that searches
/// the file minds the case exactly where the regular expression that marks the
/// matches does. Under smart case a keyword without an upper-case letter is
/// searched for as if the case were ignored, another one as it is written.
pub proof fn law_search_and_marks_agree_on_case(
    pattern: Seq<char>,
    case: Case,
    word: bool,
    built: Result<grep_regex::RegexMatcher, Seq<char>>,
)
    requires
        built == grep_compiled(pattern, grep_options(case).0, grep_options(case).1, word),
    ensures
        matches_as_marked(pattern, case, word, built),
        source_of(pattern, Case::Sensitive, word) != source_of(pattern, Case::Insensitive, word)
            || !stands_for_itself(pattern),
        case == Case::Smart && stands_for_itself(pattern) ==> (has_upper(pattern) <==> source_of(
            pattern,
            case,
            word,
        ) == source_of(pattern, Case::Sensitive, word)),
{
    if stands_for_itself(pattern) {
        reveal_strlit("(?i)");
        let meta = seq!['\\', '.', '+', '*', '?', '(', ')', '|', '[', ']', '{', '}', '^', '$'];
        assert(meta[5] == '(');
        assert(meta.contains('('));
        if ignore_mark().is_prefix_of(pattern) {
            assert(pattern[0] == ignore_mark()[0]);
        }
        assert(case_ignored(pattern).len() == pattern.len() + 4);
        let a = source_of(pattern, Case::Sensitive, word);
        let b = source_of(pattern, Case::Insensitive, word);
        assert(b.len() == a.len() + 4);
    }
}

/// A whole word is what is searched for otherwise, with an end of a word on both
/// sides; a pattern comes as it is written, with the mark that the case does not
/// count before it if it does not.
pub proof fn law_sources_hold_the_pattern(pattern: Seq<char>, case: Case)
    ensures
        source_of(pattern, case, true) == "\\b(?:"@ + source_of(pattern, case, false) + ")\\b"@,
        source_of(pattern, Case::Sensitive, false) == pattern,
        source_of(pattern, Case::Insensitive, false) == pattern || source_of(
            pattern,
            Case::Insensitive,
            false,
        ) == "(?i)"@ + pattern,
        "(?i)"@.is_prefix_of(source_of(pattern, Case::Insensitive, false)),
        source_of(pattern, case, false) == source_of(pattern, Case::Sensitive, false) || source_of(
            pattern,
            case,
            false,
        ) == source_of(pattern, Case::Insensitive, false),
{
    assert(("(?i)"@ + pattern).take("(?i)"@.len() as int) =~= "(?i)"@);
}

/// A text without the line ends at its end.
pub open spec fn line_end_cut(s: Seq<char>) -> Seq<char>
    decreases s.len(),
{
    if s.len() > 0 && (s.last() == '\n' || s.last() == '\r') {
        line_end_cut(s.drop_last())
    } else {
        s
    }
}

/// The report of a matching line of a UTF-8 file.
pub fn match_from(line_no: u64, bytes: &[u8]) -> (r: Match)
    ensures
        r@ == (MatchView { line_no, text: line_end_cut(utf8_lossy(bytes@)) }),
{
    let text = decode_utf8_lossy(bytes);
    match_from_text(line_no, text.as_str())
}

/// The report of a matching line whose text was decoded with its line end.
pub fn match_from_text(line_no: u64, line: &str) -> (r: Match)
    ensures
        r@ == (MatchView { line_no, text: line_end_cut(line@) }),
{
    let chars = chars_of(line);
    let mut n: usize = chars.len();
    assert(line@.take(n as int) =~= line@);
    while n > 0 && (chars[n - 1] == '\n' || chars[n - 1] == '\r')
        invariant
            n <= chars@.len(),
            chars@ == line@,
            line_end_cut(line@) == line_end_cut(line@.take(n as int)),
        decreases n,
    {
        assert(line@.take(n as int).drop_last() =~= line@.take(n - 1));
        n -= 1;
    }
    Match { line_no, text: line.substring_char(0, n).to_owned() }
}

/// Which search a file in an encoding gets: by bytes if it is UTF-8.
pub fn searches_bytes(encoding: Encoding) -> (r: bool)
    ensures
        r == (encoding == Encoding::Utf8),
{
    match encoding {
        Encoding::Utf8 => true,
        Encoding::Gbk => false,
    }
}

/// What is reported at the end of a search: an error if there was one, then
/// the end.
pub fn closing_messages(error: Option<String>, count: u64, cancelled: bool) -> (r: Vec<RgMsg>)
    ensures
        r@.last() == (RgMsg::Done { count, cancelled }),
        match error {
            Some(e) => r@ == seq![RgMsg::Error(e), RgMsg::Done { count, cancelled }],
            None => r@ == seq![RgMsg::Done { count, cancelled }],
        },
{
    let mut out: Vec<RgMsg> = Vec::new();
    let ghost told = error;
    if let Some(e) = error {
        out.push(RgMsg::Error(e));
    }
    out.push(RgMsg::Done { count, cancelled });
    proof {
        match told {
            Some(e) => {
                assert(out@ =~= seq![RgMsg::Error(e), RgMsg::Done { count, cancelled }]);
            },
            None => {
                assert(out@ =~= seq![RgMsg::Done { count, cancelled }]);
            },
        }
    }
    out
}

/// The bytes of a row that a row-wise search looks at.
pub const SEARCH_ROW_BYTES: usize = 1_048_576;

/// A search that reads row by row and decodes each.
pub struct DecodedSearch<D> {
    src: FileSource<D>,
    reader: LineReader,
    re: regex::Regex,
    line_no: u64,
    count: u64,
}

/// What one step of a row-wise search gives.
pub enum Step {
    /// A row was looked at; it is reported if it matches.
    Row(Option<Match>),
    /// There are no more rows.
    End,
}

/// Row `row` as a row-wise search sees it.
pub open spec fn decoded_row(c: Seq<u8>, row: nat) -> Seq<char> {
    gbk_text(row_at(c, row_start(c, row)->0, SEARCH_ROW_BYTES as int)->0.bytes)
}

/// How many of the first `n` rows match.
pub open spec fn hits_among(c: Seq<u8>, re: regex::Regex, n: nat) -> nat
    decreases n,
{
    if n == 0 {
        0
    } else {
        hits_among(c, re, (n - 1) as nat) + if regex_matches(re, decoded_row(c, (n - 1) as nat)) {
            1nat
        } else {
            0
        }
    }
}

impl<D: Fn(DiskRequest) -> DiskReply> DecodedSearch<D> {
    pub closed spec fn source(&self) -> FileSource<D> {
        self.src
    }

    pub closed spec fn pattern(&self) -> regex::Regex {
        self.re
    }

    /// The rows looked at.
    pub closed spec fn seen(&self) -> u64 {
        self.line_no
    }

    /// The rows that matched.
    pub closed spec fn found(&self) -> u64 {
        self.count
    }

    pub closed spec fn reader(&self) -> LineReader {
        self.reader
    }

    pub open spec fn wf(&self) -> bool {
        &&& self.source().wf()
        &&& self.reader().limit() == SEARCH_ROW_BYTES
        &&& self.found() <= self.seen() <= self.reader().at()
    }

    /// Whether the search stands behind the rows that it has looked at, and has
    /// counted those that match.
    pub open spec fn on_track(&self, c: Seq<u8>) -> bool {
        &&& self.source().holds(c)
        &&& self.seen() <= row_total(c)
        &&& self.found() == hits_among(c, self.pattern(), self.seen() as nat)
        &&& match row_start(c, self.seen() as nat) {
            Some(p) => !self.reader().ended() && self.reader().at() == p,
            None => self.reader().ended() || self.reader().at() == c.len(),
        }
    }

    /// A search through a file.
    pub fn new(src: FileSource<D>, re: regex::Regex) -> (r: Self)
        requires
            src.wf(),
        ensures
            r.wf(),
            r.source() == src,
            r.pattern() == re,
            r.seen() == 0,
            r.found() == 0,
            forall|c: Seq<u8>| #[trigger] src.holds(c) ==> r.on_track(c),
    {
        let r = DecodedSearch {
            src,
            reader: LineReader::new(0, SEARCH_ROW_BYTES),
            re,
            line_no: 0,
            count: 0,
        };
        proof {
            assert forall|c: Seq<u8>| #[trigger] src.holds(c) implies r.on_track(c) by {
                law_row_start_of_each_row(c, 0);
                lemma_find_nl(c, 0);
            }
        }
        r
    }

    /// The matches reported so far.
    pub fn count(&self) -> (r: u64)
        ensures
            r == self.found(),
    {
        self.count
    }

    /// Looks at the next row.
    pub fn step(&mut self) -> (r: Step)
        requires
            old(self).wf(),
        ensures
            final(self).wf(),
            final(self).pattern() == old(self).pattern(),
            final(self).source().disk() == old(self).source().disk(),
            match r {
                Step::End => final(self).seen() == old(self).seen() && final(self).found() == old(
                    self).found(),
                Step::Row(None) => final(self).seen() == old(self).seen() + 1
                    && final(self).found() == old(self).found(),
                Step::Row(Some(m)) => {
                    &&& final(self).seen() == old(self).seen() + 1
                    &&& final(self).found() == old(self).found() + 1
                    &&& m.line_no == final(self).seen()
                    &&& regex_matches(old(self).pattern(), m.text@)
                },
            },
            forall|c: Seq<u8>| #[trigger]
                old(self).on_track(c) ==> {
                    let row = old(self).seen() as nat;
                    &&& final(self).on_track(c)
                    &&& if row < row_total(c) {
                        let text = decoded_row(c, row);
                        if regex_matches(old(self).pattern(), text) {
                            r matches Step::Row(Some(m)) && m@ == (MatchView {
                                line_no: (row + 1) as u64,
                                text,
                            })
                        } else {
                            r == Step::Row(None)
                        }
                    } else {
                        r == Step::End
                    }
                },
    {
        let ghost before = *self;
        let row = self.reader.next_row(&mut self.src);
        proof {
            assert forall|c: Seq<u8>| #[trigger] old(self).on_track(c) implies same_file(
                before.src,
                self.src,
                c,
            ) && (row is Some <==> before.line_no < row_total(c)) && (row matches Some(v)
                ==> v.1@ == row_at(
                c,
                row_start(c, before.line_no as nat)->0,
                SEARCH_ROW_BYTES as int,
            )->0.bytes) && (row is Some ==> match row_start(c, (before.line_no + 1) as nat) {
                Some(p) => !self.reader.ended() && self.reader.at() == p,
                None => self.reader.ended() || self.reader.at() == c.len(),
            }) && (row is None ==> self.reader.ended()) by {
                assert(before.src.holds(c));
                let n = before.line_no as nat;
                law_row_start_of_each_row(c, n);
                law_row_start_of_each_row(c, n + 1);
                if n < row_total(c) {
                    law_rows_follow_each_other(c, n, SEARCH_ROW_BYTES as int);
                    let p = row_start(c, n)->0;
                    lemma_find_nl(c, p);
                } else if !before.reader.ended() {
                    lemma_find_nl(c, before.reader.at() as int);
                }
            }
        }
        match row {
            None => Step::End,
            Some((_, bytes, _)) => {
                self.line_no += 1;
                let text = Encoding::Gbk.decode(bytes.as_slice());
                if self.re.is_match(text.as_str()) {
                    self.count += 1;
                    Step::Row(Some(Match { line_no: self.line_no, text }))
                } else {
                    Step::Row(None)
                }
            },
        }
    }
}

} // verus!
