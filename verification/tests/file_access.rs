use logviewer::encoding::{detect_encoding, encoding_from_check, Encoding, Utf8Check};
use logviewer::file::{DiskReply, DiskRequest, FileSource, CACHE_SLOTS, DEFAULT_CHUNK_SIZE};
use logviewer::index::LineIndex;
use logviewer::lines::{advance_nl, first_nl, nl_step, prev_line_start, LineReader, NlStep};
use logviewer::view::FileView;
use std::cell::{Cell, RefCell};
use std::rc::Rc;

type Content = Rc<RefCell<Vec<u8>>>;

fn content(bytes: &[u8]) -> Content {
    Rc::new(RefCell::new(bytes.to_vec()))
}

fn answer(bytes: &[u8], request: DiskRequest) -> DiskReply {
    match request {
        DiskRequest::Len => DiskReply::Len(bytes.len() as u64),
        DiskRequest::Read { start, want } => {
            let from = (start as usize).min(bytes.len());
            let to = (from + want).min(bytes.len());
            DiskReply::Bytes(bytes[from..to].to_vec())
        }
    }
}

fn disk(c: &Content) -> impl Fn(DiskRequest) -> DiskReply {
    let c = c.clone();
    move |request| answer(&c.borrow(), request)
}

#[test]
fn chunk_reads_small_file() {
    let c = content(b"hello world");
    let mut src = FileSource::open_with_chunk(disk(&c), 4).unwrap();
    assert_eq!(src.len(), 11);
    assert_eq!(src.chunk(0), b"hell");
    assert_eq!(src.chunk(1), b"o wo");
    assert_eq!(src.chunk(2), b"rld");
    assert!(src.chunk(3).is_empty());
}

#[test]
fn tail_appends_visible() {
    let c = content(b"aaaa\nbbbb\n");
    let mut src = FileSource::open_with_chunk(disk(&c), 4).unwrap();
    assert_eq!(src.len(), 10);
    assert_eq!(src.chunk(0), b"aaaa");
    c.borrow_mut().extend_from_slice(b"cccc\n");
    assert_eq!(src.refresh_len(), 15);
    assert_eq!(src.chunk(2), b"b\ncc");
    assert_eq!(src.chunk(3), b"cc\n");
}

#[test]
fn full_chunk_is_cached() {
    let c = content(&vec![b'x'; DEFAULT_CHUNK_SIZE * 2 + 100]);
    let mut src = FileSource::open(disk(&c)).unwrap();
    let a = src.chunk(0);
    let b = src.chunk(0);
    assert_eq!(a.len(), DEFAULT_CHUNK_SIZE);
    assert!(std::ptr::eq(a.as_ptr(), b.as_ptr()) == false);
    assert_eq!(a, b);
}

#[test]
fn a_cached_chunk_is_read_once() {
    let reads = Rc::new(Cell::new(0));
    let seen = reads.clone();
    let bytes: Vec<u8> = (0..100u8).collect();
    let mut src = FileSource::open_with_chunk(
        move |request| {
            if let DiskRequest::Read { .. } = request {
                seen.set(seen.get() + 1);
            }
            answer(&bytes, request)
        },
        4,
    )
    .unwrap();
    for _ in 0..3 {
        assert_eq!(src.chunk(1), vec![4, 5, 6, 7]);
    }
    assert_eq!(reads.get(), 1);
    // More chunks than there are slots push the first one out.
    for idx in 2..(2 + CACHE_SLOTS as u64) {
        src.chunk(idx);
    }
    let before = reads.get();
    assert_eq!(src.chunk(1), vec![4, 5, 6, 7]);
    assert_eq!(reads.get(), before + 1);
}

#[test]
fn failed_reads_are_kept_for_the_caller() {
    let mut src = FileSource::open_with_chunk(
        |request| match request {
            DiskRequest::Len => DiskReply::Len(8),
            DiskRequest::Read { .. } => DiskReply::Failed(vec![1, 2], "broken".to_string()),
        },
        4,
    )
    .unwrap();
    assert_eq!(src.chunk(0), vec![1, 2]);
    assert_eq!(src.take_io_err(), Some("broken".to_string()));
    assert_eq!(src.take_io_err(), None);
    // Past the end only the length is asked for, and there is no error.
    assert_eq!(src.chunk(2), Vec::<u8>::new());
    assert_eq!(src.take_io_err(), None);
}

#[test]
fn a_file_without_a_length_is_not_opened() {
    let r = FileSource::open(|_request| DiskReply::Failed(Vec::new(), "gone".to_string()));
    assert_eq!(r.err(), Some("gone".to_string()));
    let v = FileView::open(
        |_request| DiskReply::Failed(Vec::new(), "gone".to_string()),
        "x.log".to_string(),
    );
    assert_eq!(v.err(), Some("gone".to_string()));
}

fn content_lines(n: usize) -> Vec<u8> {
    let mut v = Vec::new();
    for i in 0..n {
        v.extend_from_slice(format!("line-{i:05}\n").as_bytes());
    }
    v
}

#[test]
fn row_offset_across_checkpoints() {
    let c = content(&content_lines(3000));
    let mut src = FileSource::open(disk(&c)).unwrap();
    let mut idx = LineIndex::with_interval(64);
    for row in [0u64, 1, 63, 64, 127, 128, 255, 256, 1000, 2000, 2999] {
        let off = idx.row_offset(&mut src, row).unwrap();
        let expect = row * 11;
        assert_eq!(off, expect, "row {row}");
    }
    assert!(idx.row_offset(&mut src, 3000).is_none());
    assert!(idx.row_offset(&mut src, 99999).is_none());
}

#[test]
fn checkpoints_lazy_growth() {
    let c = content(&content_lines(300));
    let mut src = FileSource::open(disk(&c)).unwrap();
    let mut idx = LineIndex::with_interval(64);
    assert_eq!(idx.parsed_rows(), 0);
    idx.row_offset(&mut src, 100).unwrap();
    assert_eq!(idx.parsed_rows(), 101);
    assert_eq!(idx.checkpoints().len(), 2);
    idx.extend_to_eof(&mut src);
    assert_eq!(idx.parsed_rows(), 300);
    assert_eq!(idx.checkpoints().len(), 5);
}

#[test]
fn eof_without_trailing_newline() {
    let c = content(b"a\nb\nc");
    let mut src = FileSource::open(disk(&c)).unwrap();
    let mut idx = LineIndex::with_interval(4);
    idx.extend_to_eof(&mut src);
    assert_eq!(idx.parsed_rows(), 3);
    assert!(idx.at_eof());
    assert_eq!(idx.row_offset(&mut src, 2), Some(4));
    assert!(idx.row_offset(&mut src, 3).is_none());
}

#[test]
fn empty_file() {
    let c = content(b"");
    let mut src = FileSource::open(disk(&c)).unwrap();
    let mut idx = LineIndex::with_interval(4);
    assert!(idx.row_offset(&mut src, 0).is_none());
    idx.extend_to_eof(&mut src);
    assert_eq!(idx.parsed_rows(), 0);
    assert!(idx.at_eof());
}

#[test]
fn a_last_row_that_goes_on_is_not_counted_twice() {
    let c = content(b"one\ntw");
    let mut src = FileSource::open(disk(&c)).unwrap();
    let mut idx = LineIndex::with_interval(4);
    idx.extend_to_eof(&mut src);
    assert_eq!(idx.parsed_rows(), 2);
    c.borrow_mut().extend_from_slice(b"o\nthree\n");
    src.refresh_len();
    idx.invalidate_eof();
    // The rows counted stay counted, and the last one can be found.
    assert_eq!(idx.parsed_rows(), 2);
    assert!(!idx.at_eof());
    assert_eq!(idx.row_offset(&mut src, 1), Some(4));
    idx.extend_to_eof(&mut src);
    assert_eq!(idx.parsed_rows(), 3);
    assert_eq!(idx.row_offset(&mut src, 2), Some(8));
}

#[test]
fn a_return_at_the_end_of_a_row_does_not_count() {
    let c = content(b"abc\r\nabcd\r\nab\rd\nab\r");
    for size in [3, 4, 5, 64] {
        let mut src = FileSource::open_with_chunk(disk(&c), size).unwrap();
        let mut lr = LineReader::new(0, 3);
        assert_eq!(lr.next_row(&mut src), Some((0, b"abc".to_vec(), false)));
        assert_eq!(lr.next_row(&mut src), Some((5, b"abc".to_vec(), true)));
        assert_eq!(lr.next_row(&mut src), Some((11, b"ab\r".to_vec(), true)));
        assert_eq!(lr.next_row(&mut src), Some((16, b"ab\r".to_vec(), false)));
        assert_eq!(lr.next_row(&mut src), None);
    }
}

fn rows<D: Fn(DiskRequest) -> DiskReply>(
    src: &mut FileSource<D>,
    from: u64,
    max: usize,
) -> Vec<(u64, String)> {
    let mut lr = LineReader::new(from, max);
    let mut out = Vec::new();
    while let Some((off, bytes, _t)) = lr.next_row(src) {
        out.push((off, String::from_utf8_lossy(&bytes).into_owned()));
    }
    out
}

#[test]
fn simple_rows_and_offsets() {
    let c = content(b"alpha\nbeta\ngamma");
    let mut src = FileSource::open_with_chunk(disk(&c), 64).unwrap();
    let r = rows(&mut src, 0, 4096);
    assert_eq!(
        r,
        vec![
            (0, "alpha".into()),
            (6, "beta".into()),
            (11, "gamma".into())
        ]
    );
}

#[test]
fn crlf_stripped() {
    let c = content(b"a\r\nb\r\nc");
    let mut src = FileSource::open_with_chunk(disk(&c), 64).unwrap();
    let r = rows(&mut src, 0, 4096);
    assert_eq!(r, vec![(0, "a".into()), (3, "b".into()), (6, "c".into())]);
}

#[test]
fn rows_across_chunk_boundary() {
    let c = content(b"12345678\nabcdefghij\nok");
    let mut src = FileSource::open_with_chunk(disk(&c), 4).unwrap();
    let r = rows(&mut src, 0, 4096);
    assert_eq!(
        r,
        vec![(0, "12345678".into()), (9, "abcdefghij".into()), (20, "ok".into())]
    );
}

#[test]
fn empty_lines_and_empty_file() {
    let c = content(b"\n\nab\n");
    let mut src = FileSource::open_with_chunk(disk(&c), 4).unwrap();
    let r = rows(&mut src, 0, 4096);
    assert_eq!(
        r,
        vec![(0, "".into()), (1, "".into()), (2, "ab".into())]
    );

    let c2 = content(b"");
    let mut src2 = FileSource::open_with_chunk(disk(&c2), 4).unwrap();
    assert!(src2.chunk(0).is_empty());
    assert_eq!(rows(&mut src2, 0, 4096), Vec::<(u64, String)>::new());
}

#[test]
fn long_row_truncated() {
    let c = content(b"abcdef\nxyz");
    let mut src = FileSource::open_with_chunk(disk(&c), 64).unwrap();
    let mut lr = LineReader::new(0, 3);
    let (off, bytes, trunc) = lr.next_row(&mut src).unwrap();
    assert_eq!(off, 0);
    assert_eq!(bytes, b"abc");
    assert!(trunc);
    let (off2, bytes2, _) = lr.next_row(&mut src).unwrap();
    assert_eq!(off2, 7);
    assert_eq!(bytes2, b"xyz");
    assert!(lr.next_row(&mut src).is_none());
}

#[test]
fn a_reader_stands_behind_an_unended_row() {
    let c = content(b"ab\ncd");
    let mut src = FileSource::open_with_chunk(disk(&c), 4).unwrap();
    let mut lr = LineReader::new(0, 100);
    lr.next_row(&mut src).unwrap();
    assert_eq!(lr.pos(), 3);
    lr.next_row(&mut src).unwrap();
    assert_eq!(lr.pos(), 5);
    assert!(lr.at_eof());
}

#[test]
fn advance_and_prev() {
    let c = content(b"a\nbb\nccc\ndddd\n");
    let mut src = FileSource::open_with_chunk(disk(&c), 64).unwrap();
    assert_eq!(advance_nl(&mut src, 0, 0), Some(0));
    assert_eq!(advance_nl(&mut src, 0, 1), Some(2));
    assert_eq!(advance_nl(&mut src, 0, 3), Some(9));
    assert_eq!(advance_nl(&mut src, 0, 4), Some(14));
    assert_eq!(advance_nl(&mut src, 0, 5), None);

    assert_eq!(prev_line_start(&mut src, 14), Some(9));
    assert_eq!(prev_line_start(&mut src, 9), Some(5));
    assert_eq!(prev_line_start(&mut src, 5), Some(2));
    assert_eq!(prev_line_start(&mut src, 2), Some(0));
    assert_eq!(prev_line_start(&mut src, 0), None);
    let c2 = content(b"only");
    let mut src2 = FileSource::open_with_chunk(disk(&c2), 64).unwrap();
    assert_eq!(prev_line_start(&mut src2, 0), None);
}

#[test]
fn prev_skips_touching_newline() {
    let c = content(b"A\nB\nC\n");
    let mut src = FileSource::open_with_chunk(disk(&c), 64).unwrap();
    assert_eq!(prev_line_start(&mut src, 4), Some(2));
    assert_eq!(prev_line_start(&mut src, 2), Some(0));
}

#[test]
fn line_starts_across_chunks() {
    let c = content(b"a\nbb\nccc\ndddd\n");
    let mut src = FileSource::open_with_chunk(disk(&c), 4).unwrap();
    assert_eq!(advance_nl(&mut src, 0, 3), Some(9));
    assert_eq!(prev_line_start(&mut src, 14), Some(9));
    assert_eq!(prev_line_start(&mut src, 9), Some(5));
}

#[test]
fn newlines_in_a_chunk() {
    assert_eq!(first_nl(b"ab\nc\n", 0), Some(2));
    assert_eq!(first_nl(b"ab\nc\n", 3), Some(4));
    assert_eq!(first_nl(b"abc", 0), None);
    assert!(matches!(nl_step(b"a\nb\n", 0, 2), NlStep::Found(3)));
    assert!(matches!(nl_step(b"a\nb\n", 0, 3), NlStep::More(1)));
}

fn make_file(n: usize) -> Content {
    let mut v = Vec::new();
    for i in 0..n {
        v.extend_from_slice(format!("row-{i:05}\n").as_bytes());
    }
    content(&v)
}

#[test]
fn open_fill_and_rows() {
    let c = make_file(10);
    let mut v = FileView::open(disk(&c), "view".to_string()).unwrap();
    v.fill_to(5);
    assert_eq!(v.row_count(), 5);
    assert_eq!(v.top_line1(), 1);
    assert_eq!(v.cursor_line1(), 1);
    assert_eq!(v.rows()[0].text, "row-00000");
    assert_eq!(v.rows()[4].text, "row-00004");
}

#[test]
fn cursor_and_window_move() {
    let c = make_file(100);
    let mut v = FileView::open(disk(&c), "view".to_string()).unwrap();
    v.fill_to(10);
    v.move_cursor(5);
    assert_eq!(v.cursor_line1(), 6);
    assert_eq!(v.top_line1(), 1);
    v.move_cursor(4);
    assert_eq!(v.cursor_line1(), 10);
    v.move_cursor(1);
    assert_eq!(v.cursor_line1(), 11);
    assert_eq!(v.top_line1(), 2);
    v.fill_to(10);
    assert_eq!(v.rows()[0].text, "row-00001");
    v.move_cursor(-2);
    assert_eq!(v.cursor_line1(), 9);
    assert_eq!(v.top_line1(), 2);
    v.fill_to(10);
    assert_eq!(v.rows()[0].text, "row-00001");
    v.move_cursor(-8);
    assert_eq!(v.cursor_line1(), 1);
    assert_eq!(v.top_line1(), 1);
}

#[test]
fn window_page_move() {
    let c = make_file(100);
    let mut v = FileView::open(disk(&c), "view".to_string()).unwrap();
    v.fill_to(10);
    v.scroll_window(10);
    assert_eq!(v.top_line1(), 11);
    assert_eq!(v.cursor_line1(), 11);
    v.fill_to(10);
    assert_eq!(v.rows()[0].text, "row-00010");
    v.scroll_window(-5);
    assert_eq!(v.top_line1(), 6);
    assert_eq!(v.cursor_line1(), 6);
    v.scroll_window(-100);
    assert_eq!(v.top_line1(), 1);
    v.scroll_window(1000);
    v.fill_to(10);
    assert_eq!(v.cursor_line1(), 100);
    assert_eq!(v.rows().last().unwrap().text, "row-00099");
    assert!(v.at_bottom());
    let top_before = v.top_line1();
    v.scroll_window(10);
    assert_eq!(v.top_line1(), top_before);
    assert_eq!(v.cursor_line1(), 100);
    v.scroll_window(-10);
    assert_eq!(v.top_line1(), top_before - 10);
}

#[test]
fn bottom_then_up_then_down() {
    let c = make_file(5000);
    let mut v = FileView::open(disk(&c), "view".to_string()).unwrap();
    v.scroll_to_bottom();
    v.fill_to(10);
    assert!(v.at_bottom());
    assert_eq!(v.cursor_line1(), 5000);
    assert_eq!(v.rows().last().unwrap().text, "row-04999");
    v.scroll_window(-50);
    v.fill_to(10);
    assert!(v.cursor_line1() < 5000);
    v.scroll_window(100);
    v.fill_to(10);
    assert_eq!(v.rows().last().unwrap().text, "row-04999");
    assert_eq!(v.cursor_line1(), 5000);
    assert!(v.at_bottom());
}

#[test]
fn goto_across_checkpoints() {
    let c = make_file(5000);
    let mut v = FileView::open(disk(&c), "view".to_string()).unwrap();
    assert!(v.goto_line1(4096));
    assert_eq!(v.cursor_line1(), 4096);
    v.fill_to(20);
    assert!(v.rows().iter().any(|r| r.text == "row-04095"));
    assert!(v.goto_line1(5000));
    v.fill_to(20);
    assert_eq!(v.cursor_line1(), 5000);
    assert!(v.rows().iter().any(|r| r.text == "row-04999"));
    assert!(!v.goto_line1(5001));
    assert!(!v.goto_line1(0));
}

#[test]
fn scroll_to_bottom_and_total() {
    let c = make_file(5000);
    let mut v = FileView::open(disk(&c), "view".to_string()).unwrap();
    v.scroll_to_bottom();
    assert_eq!(v.cursor_line1(), 5000);
    assert_eq!(v.total_rows(), Some(5000));
}

#[test]
fn tail_visible_after_growth() {
    let c = content(b"one\n");
    let mut v = FileView::open(disk(&c), "viewtail".to_string()).unwrap();
    v.fill_to(10);
    assert_eq!(v.row_count(), 1);
    assert!(v.at_bottom());
    c.borrow_mut().extend_from_slice(b"two\nthree\n");
    v.scroll_to_bottom();
    v.fill_to(10);
    assert_eq!(v.cursor_line1(), 3);
    assert_eq!(v.rows().last().unwrap().text, "three");
    assert_eq!(v.total_rows(), Some(3));
}

type BoxedDisk = Box<dyn Fn(DiskRequest) -> DiskReply>;

fn fixed(bytes: &[u8]) -> BoxedDisk {
    let bytes = bytes.to_vec();
    Box::new(move |request| answer(&bytes, request))
}

#[test]
fn a_renewed_disk_is_read() {
    let mut v = FileView::open(fixed(b"one\ntwo\nthr"), "view".to_string()).unwrap();
    v.scroll_to_bottom();
    v.fill_to(10);
    assert_eq!(v.rows().last().unwrap().text, "thr");
    v.renew_disk(fixed(b"one\ntwo\nthree\nfour\n"));
    v.scroll_to_bottom();
    v.fill_to(10);
    let texts: Vec<&str> = v.rows().iter().map(|r| r.text.as_str()).collect();
    assert_eq!(texts, vec!["one", "two", "three", "four"]);
    assert_eq!(v.total_rows(), Some(4));
}

#[test]
fn empty_file_view() {
    let c = content(b"");
    let mut v = FileView::open(disk(&c), "viewempty".to_string()).unwrap();
    v.fill_to(10);
    assert_eq!(v.row_count(), 0);
    assert_eq!(v.total_rows(), Some(0));
    assert!(!v.goto_line1(1));
}

#[test]
fn moving_there_and_back() {
    let c = make_file(100);
    let mut v = FileView::open(disk(&c), "view".to_string()).unwrap();
    v.fill_to(10);
    assert!(v.goto_line1(40));
    v.move_cursor(25);
    assert_eq!(v.cursor_line1(), 65);
    v.move_cursor(-25);
    assert_eq!(v.cursor_line1(), 40);
}

#[test]
fn scrolling_keeps_the_cursor_in_the_file() {
    let c = make_file(100);
    let mut v = FileView::open(disk(&c), "view".to_string()).unwrap();
    v.fill_to(10);
    v.restore_pos(85, 94);
    v.fill_to(10);
    v.scroll_window(10);
    assert_eq!(v.top_line1(), 96);
    assert_eq!(v.cursor_line1(), 100);

    let mut v = FileView::open(disk(&c), "view".to_string()).unwrap();
    v.fill_to(10);
    v.move_cursor(9);
    v.scroll_window(95);
    assert_eq!(v.top_line1(), 96);
    assert_eq!(v.cursor_line1(), 100);
}

#[test]
fn snapshots_bring_the_window_back() {
    let c = make_file(100);
    let mut v = FileView::open(disk(&c), "view".to_string()).unwrap();
    v.fill_to(10);
    v.move_cursor(30);
    let (top, cursor) = v.snapshot_pos();
    v.scroll_to_bottom();
    v.restore_pos(top, cursor);
    v.fill_to(10);
    assert_eq!(v.top_line1(), top + 1);
    assert_eq!(v.cursor_line1(), 31);
    assert_eq!(v.rows()[0].text, format!("row-{top:05}"));
}

#[test]
fn rows_are_read_one_by_one() {
    let c = make_file(10);
    let mut v = FileView::open(disk(&c), "view".to_string()).unwrap();
    assert_eq!(v.read_line_text(0), None);
    assert_eq!(v.read_line_text(3), Some("row-00002".to_string()));
    assert_eq!(v.read_line_text(11), None);
    assert_eq!(v.file_path(), "view");
}

#[test]
fn indexing_goes_on_in_pieces() {
    let c = make_file(5000);
    let mut v = FileView::open(disk(&c), "view".to_string()).unwrap();
    assert!(!v.extend_toward(None, 1));
    assert_eq!(v.known_total(), None);
    // Each piece makes headway, by no more than its blocks.
    assert!(v.extend_toward(Some(1024), 0));
    assert!(!v.extend_toward(Some(1025), 0));
    for _ in 0..3 {
        assert!(!v.extend_toward(None, 1));
    }
    assert!(v.extend_toward(Some(4096), 0));
    assert!(!v.extend_toward(Some(4097), 0));
    assert!(v.extend_toward(None, 1_000_000));
    assert_eq!(v.known_total(), Some(5000));
    assert!(v.extend_toward(Some(7), 1));
}

#[test]
fn encodings() {
    assert_eq!(detect_encoding(b"plain"), Encoding::Utf8);
    assert_eq!(detect_encoding("日志".as_bytes()), Encoding::Utf8);
    // A character that the head cuts in two is no sign of another encoding.
    assert_eq!(detect_encoding(&"日志".as_bytes()[..5]), Encoding::Utf8);
    for n in 0..=10 {
        assert_eq!(detect_encoding(&"a日志😀".as_bytes()[..n]), Encoding::Utf8, "{n}");
    }
    // The bytes could start no character.
    assert_eq!(detect_encoding(b"a\xE0\x80"), Encoding::Gbk);
    assert_eq!(detect_encoding(b"a\xED\xA0"), Encoding::Gbk);
    assert_eq!(detect_encoding(b"a\xF4\x90"), Encoding::Gbk);
    assert_eq!(detect_encoding(b"\xC8\xD5\xD6\xBE"), Encoding::Gbk);
    assert_eq!(encoding_from_check(Utf8Check::Valid), Encoding::Utf8);
    assert_eq!(encoding_from_check(Utf8Check::CutShort), Encoding::Utf8);
    assert_eq!(encoding_from_check(Utf8Check::Invalid), Encoding::Gbk);
    assert_eq!(Encoding::Gbk.decode(b"\xC8\xD5\xD6\xBE"), "日志");
    assert_eq!(Encoding::Utf8.decode(b"a\xFFb"), "a\u{FFFD}b");
    assert_eq!(Encoding::Utf8.label(), "utf-8");
    assert_eq!(Encoding::Gbk.label(), "gbk");
}

#[test]
fn gbk_rows_are_decoded() {
    let c = content(b"\xC8\xD5\xD6\xBE\nok\n");
    let mut v = FileView::open(disk(&c), "gbk".to_string()).unwrap();
    v.fill_to(2);
    assert_eq!(v.encoding(), Encoding::Gbk);
    assert_eq!(v.rows()[0].text, "日志");
}
