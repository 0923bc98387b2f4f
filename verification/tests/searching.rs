use grep_searcher::sinks::Bytes;
use grep_searcher::SearcherBuilder;
use logviewer::encoding::Encoding;
use logviewer::file::{DiskReply, DiskRequest, FileSource};
use logviewer::reports::{Reports, RowSearch, Turn};
use logviewer::search::{
    closing_messages, compile_regex, match_from, match_from_text, matcher_for, pattern_source,
    searches_bytes, smart_case_regex, Case, DecodedSearch, RgMsg, Step,
};

#[test]
fn smart_case() {
    assert!(smart_case_regex("hello").starts_with("(?i)"));
    assert_eq!(smart_case_regex("Hello"), "Hello");
    assert_eq!(smart_case_regex("(?i)xyz"), "(?i)xyz");
}

#[test]
fn compile_respects_case_and_word() {
    assert!(compile_regex("hello", Case::Insensitive, false).unwrap().is_match("HELLO"));
    assert!(!compile_regex("hello", Case::Sensitive, false).unwrap().is_match("HELLO"));
    let re = compile_regex("log", Case::Insensitive, true).unwrap();
    assert!(re.is_match("a log here"));
    assert!(!re.is_match("logging"));
}

#[test]
fn case_cycle() {
    assert_eq!(Case::Smart.next(), Case::Insensitive);
    assert_eq!(Case::Insensitive.next(), Case::Sensitive);
    assert_eq!(Case::Sensitive.next(), Case::Smart);
    assert_eq!(Case::Sensitive.label(), "区分");
}

fn search(content: &str, pattern: &str, case: Case, word: bool) -> (Vec<(u64, String)>, bool, u64) {
    let matcher = matcher_for(pattern, case, word).unwrap();
    let mut found = Vec::new();
    SearcherBuilder::new()
        .line_number(true)
        .build()
        .search_slice(
            &matcher,
            content.as_bytes(),
            Bytes(|line_no, bytes| {
                found.push(match_from(line_no, bytes));
                Ok(true)
            }),
        )
        .unwrap();
    let mut msgs: Vec<RgMsg> = Vec::new();
    let n = found.len() as u64;
    for m in found {
        msgs.push(RgMsg::Match(m));
    }
    msgs.extend(closing_messages(None, n, false));
    let mut hits = Vec::new();
    let mut done = false;
    let mut count = 0;
    for msg in msgs {
        match msg {
            RgMsg::Match(m) => hits.push((m.line_no, m.text)),
            RgMsg::Done { count: c, cancelled } => {
                done = true;
                count = c;
                let _ = cancelled;
                break;
            }
            RgMsg::Error(_) => break,
        }
    }
    (hits, done, count)
}

#[test]
fn end_to_end_inline_search() {
    let text = "first line\nhello world\nanother hello here\nLOG it\n";
    let (hits, done, count) = search(text, "hello", Case::Sensitive, false);
    assert!(done);
    assert_eq!(count, 2, "hits={hits:?}");
    assert_eq!(hits.len(), 2, "hits={hits:?}");
    assert_eq!(hits[0].0, 2, "hits={hits:?}");
    assert_eq!(hits[0].1, "hello world", "hits={hits:?}");
    assert_eq!(hits[1].0, 3, "hits={hits:?}");

    let (hits, done, _) = search(text, "log", Case::Insensitive, false);
    assert!(done);
    assert!(hits.iter().any(|(n, t)| *n == 4 && t == "LOG it"));

    let (hits, done, _) = search(text, "log", Case::Insensitive, true);
    assert!(done);
    assert_eq!(hits.iter().map(|x| x.0).collect::<Vec<_>>(), vec![4]);
}

#[test]
fn patterns() {
    assert_eq!(pattern_source("abc", Case::Sensitive, false), "abc");
    assert!(pattern_source("abc", Case::Smart, false).starts_with("(?i)"));
    assert_eq!(pattern_source("Abc", Case::Smart, false), "Abc");
    assert_eq!(smart_case_regex("Émile"), "Émile");
    assert_eq!(smart_case_regex("émile"), "(?i)émile");
    assert_eq!(pattern_source("log", Case::Sensitive, true), "\\b(?:log)\\b");
    assert!(compile_regex("a(", Case::Smart, false).is_err());
    assert!(matcher_for("a(", Case::Smart, false).is_err());
}

#[test]
fn lines_of_matches() {
    let m = match_from(7, b"text\r\n");
    assert_eq!((m.line_no, m.text.as_str()), (7, "text"));
    let m = match_from(1, b"a\xFFb\n");
    assert_eq!(m.text, "a\u{FFFD}b");
    let m = match_from_text(2, "row");
    assert_eq!((m.line_no, m.text.as_str()), (2, "row"));
    assert!(searches_bytes(Encoding::Utf8));
    assert!(!searches_bytes(Encoding::Gbk));
}

#[test]
fn ends_of_searches() {
    let msgs = closing_messages(Some("bad".to_string()), 3, false);
    assert!(matches!(&msgs[0], RgMsg::Error(e) if e == "bad"));
    assert!(matches!(msgs.last(), Some(RgMsg::Done { count: 3, cancelled: false })));
    let msgs = closing_messages(None, 1, true);
    assert_eq!(msgs.len(), 1);
    assert!(matches!(msgs[0], RgMsg::Done { count: 1, cancelled: true }));
}

#[test]
fn rows_in_gbk_are_searched_decoded() {
    let bytes = b"\xC8\xD5\xD6\xBE one\nplain\nlast \xC8\xD5\xD6\xBE".to_vec();
    let src = FileSource::open(move |request| match request {
        DiskRequest::Len => DiskReply::Len(bytes.len() as u64),
        DiskRequest::Read { start, want } => {
            let from = (start as usize).min(bytes.len());
            let to = (from + want).min(bytes.len());
            DiskReply::Bytes(bytes[from..to].to_vec())
        }
    })
    .unwrap();
    let re = compile_regex("日志", Case::Smart, false).unwrap();
    let mut search = DecodedSearch::new(src, re);
    let mut hits = Vec::new();
    loop {
        match search.step() {
            Step::Row(Some(m)) => hits.push((m.line_no, m.text)),
            Step::Row(None) => {}
            Step::End => break,
        }
    }
    assert_eq!(
        hits,
        vec![(1, "日志 one".to_string()), (3, "last 日志".to_string())]
    );
    assert_eq!(search.count(), 2);
}

fn gbk_disk() -> impl Fn(DiskRequest) -> DiskReply {
    let bytes = b"\xC8\xD5\xD6\xBE one\nplain\nlast \xC8\xD5\xD6\xBE".to_vec();
    move |request| match request {
        DiskRequest::Len => DiskReply::Len(bytes.len() as u64),
        DiskRequest::Read { start, want } => {
            let from = (start as usize).min(bytes.len());
            let to = (from + want).min(bytes.len());
            DiskReply::Bytes(bytes[from..to].to_vec())
        }
    }
}

fn run<D: Fn(DiskRequest) -> DiskReply>(mut search: RowSearch<D>, turns: usize) -> Vec<RgMsg> {
    let mut msgs = Vec::new();
    let mut cancelled = true;
    for _ in 0..turns {
        match search.turn() {
            Turn::Tell(msg) => msgs.push(msg),
            Turn::Quiet => {}
            Turn::Over => {
                cancelled = false;
                break;
            }
        }
    }
    msgs.extend(search.close(cancelled));
    msgs
}

#[test]
fn messages_of_a_search_by_rows() {
    let start = |pattern| RowSearch::start(Ok(gbk_disk()), pattern, Case::Smart, false);
    let msgs = run(start("日志"), 100);
    assert_eq!(msgs.len(), 3);
    assert!(matches!(&msgs[0], RgMsg::Match(m) if m.line_no == 1 && m.text == "日志 one"));
    assert!(matches!(&msgs[1], RgMsg::Match(m) if m.line_no == 3 && m.text == "last 日志"));
    assert!(matches!(msgs[2], RgMsg::Done { count: 2, cancelled: false }));
    // Cancelled after two rows.
    let msgs = run(start("日志"), 2);
    assert_eq!(msgs.len(), 2);
    assert!(matches!(msgs[1], RgMsg::Done { count: 1, cancelled: true }));
    let msgs = run(start("nowhere"), 100);
    assert_eq!(msgs.len(), 1);
    assert!(matches!(msgs[0], RgMsg::Done { count: 0, cancelled: false }));
}

#[test]
fn searches_by_rows_that_cannot_begin() {
    let bad = run(RowSearch::start(Ok(gbk_disk()), "a(", Case::Smart, false), 100);
    assert_eq!(bad.len(), 2);
    assert!(matches!(&bad[0], RgMsg::Error(e) if e.contains("unclosed group")));
    assert!(matches!(bad[1], RgMsg::Done { count: 0, cancelled: false }));
    let lost = |_| DiskReply::Failed(Vec::new(), "gone".to_string());
    let msgs = run(RowSearch::start(Ok(lost), "a", Case::Smart, false), 100);
    assert!(matches!(&msgs[0], RgMsg::Error(e) if e == "gone"));
    assert!(matches!(msgs[1], RgMsg::Done { count: 0, .. }));
    let mut disk = Ok(gbk_disk());
    if disk.is_ok() {
        disk = Err("no such file".to_string());
    }
    let msgs = run(RowSearch::start(disk, "a", Case::Smart, false), 100);
    assert!(matches!(&msgs[0], RgMsg::Error(e) if e == "no such file"));
    assert_eq!(msgs.len(), 2);
}

#[test]
fn reports_of_matching_lines() {
    let mut reports = Reports::new();
    let (go_on, msg) = reports.matched(Some(4), b"four\r\n", false);
    assert!(go_on);
    assert!(matches!(msg, Some(RgMsg::Match(m)) if m.line_no == 4 && m.text == "four"));
    let (go_on, msg) = reports.matched(None, b"x\n", false);
    assert!(go_on && msg.is_none());
    let (go_on, msg) = reports.matched(Some(9), b"x\n", true);
    assert!(!go_on && msg.is_none());
    assert_eq!(reports.count(), 1);
    let end = reports.close(Some("broken".to_string()), true);
    assert!(matches!(&end[0], RgMsg::Error(e) if e == "broken"));
    assert!(matches!(end[1], RgMsg::Done { count: 1, cancelled: true }));
    assert_eq!(end.len(), 2);
}
