//! What rows are: the parts of the file between its line ends.
use vstd::prelude::*;
use crate::lines::{
    find_nl, law_row_start_of_each_row, lemma_find_nl, lemma_nl_count_none, lemma_nl_count_split,
    nl_count, row_at, row_start, row_total, rows_from, skip_lines, strip_return, RETURN,
};

verus! {

/// The rows make up the file: a row that was not cut is what stands from its start
/// up to its line end, a newline or a return and a newline, or up to the end of the
/// file; behind it the next row starts. Of a row that was cut the start is kept, as
/// much as is asked for.
pub proof fn law_rows_make_up_the_file(c: Seq<u8>, from: int, max: int)
    requires
        0 <= from < c.len(),
        max > 0,
    ensures
        row_at(c, from, max) matches Some(row) && {
            let line = c.subrange(from, row.next);
            &&& from < row.next <= c.len()
            &&& row.ended <==> line.last() == 10
            &&& !row.ended ==> row.next == c.len()
            &&& forall|i: int| 0 <= i < line.len() - 1 ==> #[trigger] line[i] != 10
            &&& row.bytes.len() <= max
            &&& row.bytes == line.take(row.bytes.len() as int)
            &&& row.truncated ==> row.bytes.len() == max
            &&& !row.truncated ==> if !row.ended {
                line == row.bytes
            } else if row.bytes.len() + 1 == line.len() {
                line == row.bytes + seq![10u8] && (row.bytes.len() > 0 ==> row.bytes.last() != 13)
            } else {
                line == row.bytes + seq![13u8, 10u8]
            }
        },
{
    lemma_find_nl(c, from);
    let row = row_at(c, from, max)->0;
    let line = c.subrange(from, row.next);
    match find_nl(c, from) {
        Some(i) => {
            let text = c.subrange(from, i);
            let kept = strip_return(text);
            assert(line =~= text.push(10u8));
            assert(row.bytes =~= line.take(row.bytes.len() as int));
            if !row.truncated {
                assert(row.bytes == kept);
                if text.len() > 0 && text.last() == RETURN {
                    assert(text =~= kept.push(13u8));
                    assert(line =~= kept + seq![13u8, 10u8]);
                } else {
                    assert(line =~= kept + seq![10u8]);
                }
            }
        },
        None => {
            assert(row.bytes =~= line.take(row.bytes.len() as int));
            assert(line.last() == c[c.len() - 1]);
        },
    }
}

/// A row starts behind as many newlines as there are rows before it.
pub proof fn law_row_starts_count_newlines(c: Seq<u8>, row: nat)
    ensures
        row_start(c, row) matches Some(p) ==> 0 <= p < c.len() && nl_count(c, 0, p) == row && (p > 0
            ==> c[p - 1] == 10),
{
    law_row_start_of_each_row(c, row);
    lemma_skip_counts(c, 0, row);
}

proof fn lemma_skip_counts(c: Seq<u8>, from: int, count: nat)
    requires
        0 <= from,
    ensures
        skip_lines(c, from, count) matches Some(p) ==> from <= p && nl_count(c, from, p) == count,
    decreases count,
{
    if count > 0 {
        lemma_find_nl(c, from);
        if let Some(i) = find_nl(c, from) {
            lemma_skip_counts(c, i + 1, (count - 1) as nat);
            if let Some(p) = skip_lines(c, i + 1, (count - 1) as nat) {
                lemma_nl_count_none(c, from, i);
                lemma_nl_count_split(c, from, i + 1, p);
            }
        }
    }
}

/// A file has as many rows as newlines, and one more if something stands behind the
/// last newline.
pub proof fn law_rows_are_counted_by_newlines(c: Seq<u8>)
    ensures
        row_total(c) == nl_count(c, 0, c.len() as int) + if c.len() > 0 && c.last() != 10 {
            1nat
        } else {
            0
        },
{
    lemma_rows_counted_from(c, 0);
}

proof fn lemma_rows_counted_from(c: Seq<u8>, from: int)
    requires
        0 <= from <= c.len(),
    ensures
        rows_from(c, from) == nl_count(c, from, c.len() as int) + if from < c.len() && c.last()
            != 10 {
            1nat
        } else {
            0
        },
    decreases c.len() - from,
{
    if from < c.len() {
        lemma_find_nl(c, from);
        match find_nl(c, from) {
            None => {
                lemma_nl_count_none(c, from, c.len() as int);
                assert(c[c.len() - 1] == c.last());
            },
            Some(i) => {
                lemma_rows_counted_from(c, i + 1);
                lemma_nl_count_none(c, from, i);
                lemma_nl_count_split(c, from, i + 1, c.len() as int);
                assert(nl_count(c, from, i + 1) == 1);
                if i + 1 == c.len() {
                    assert(c[i] == c.last());
                }
            },
        }
    }
}

} // verus!
