//! Text on a terminal: cutting by columns, wrapping, trimming, numbers.
use vstd::prelude::*;
use unicode_width::{UnicodeWidthChar, UnicodeWidthStr};

verus! {

/// The columns of a character, as `unicode_width` has them: none for a control
/// character.
pub uninterp spec fn char_cols(c: char) -> Option<usize>;

/// The columns of a text, as `unicode_width` has them.
pub uninterp spec fn str_cols(s: Seq<char>) -> usize;

/// Whether `char::is_whitespace` holds.
pub uninterp spec fn is_space(c: char) -> bool;

/// Calls `unicode_width::UnicodeWidthChar::width`. Printable ASCII takes one
/// column, control characters give `None`, and no character takes more than
/// three columns.
#[verifier::external_body]
fn char_width(c: char) -> (r: Option<usize>)
    ensures
        r == char_cols(c),
        r matches Some(w) ==> w <= 3,
        ' ' <= c <= '~' ==> r == Some(1usize),
        c < ' ' ==> r is None,
{
    UnicodeWidthChar::width(c)
}

/// Calls `unicode_width::UnicodeWidthStr::width`. Characters can combine, so
/// that the columns of a text are not the sum of those of its characters; in
/// printable ASCII each takes one.
#[verifier::external_body]
pub(crate) fn text_width(s: &str) -> (r: usize)
    ensures
        r == str_cols(s@),
        (forall|i: int| 0 <= i < s@.len() ==> ' ' <= #[trigger] s@[i] <= '~') ==> r == s@.len(),
{
    UnicodeWidthStr::width(s)
}

/// `char::is_whitespace`: the characters with the Unicode property
/// `White_Space`. Of the printable ASCII characters only the blank has it.
pub assume_specification[ char::is_whitespace ](c: char) -> (r: bool)
    ensures
        r == is_space(c),
        '!' <= c <= '~' ==> !r,
        c == ' ' || c == '\t' || c == '\n' || c == '\r' ==> r,
;

/// `String::push`: appends a character.
pub assume_specification[ String::push ](s: &mut String, c: char)
    ensures
        final(s)@ == old(s)@.push(c),
;

/// The columns that a character is given.
pub open spec fn cols(c: char) -> nat {
    match char_cols(c) {
        Some(w) => w as nat,
        None => 1,
    }
}

/// The columns of the characters of `s`, one by one.
pub open spec fn sum_cols(s: Seq<char>) -> nat
    decreases s.len(),
{
    if s.len() == 0 {
        0
    } else {
        cols(s[0]) + sum_cols(s.skip(1))
    }
}

/// How many characters of `s` go into `n` columns. What follows the last
/// column is left out, also where it takes no column.
pub open spec fn fitting(s: Seq<char>, n: nat) -> nat
    decreases s.len(),
{
    if n == 0 || s.len() == 0 || cols(s[0]) > n {
        0
    } else {
        1 + fitting(s.skip(1), (n - cols(s[0])) as nat)
    }
}

/// `s` cut to `max` columns, with an ellipsis where something was cut.
pub open spec fn clipped(s: Seq<char>, max: nat) -> Seq<char> {
    if max <= 3 {
        if s.len() == 0 {
            Seq::empty()
        } else {
            Seq::new(max, |i: int| '.')
        }
    } else if str_cols(s) <= max {
        s
    } else {
        s.take(fitting(s, (max - 3) as nat) as int) + "..."@
    }
}

/// The part of `s` behind its first `skip` columns, at most `max` columns of it.
pub open spec fn window(s: Seq<char>, skip: nat, max: nat) -> Seq<char> {
    let rest = s.skip(fitting(s, skip) as int);
    rest.take(fitting(rest, max) as int)
}

/// Where a line of `max` columns is cut: at least one character is kept.
pub open spec fn cut_at(s: Seq<char>, max: nat) -> nat {
    if fitting(s, max) == 0 {
        1
    } else {
        fitting(s, max)
    }
}

/// `s` wrapped into lines of at most `max` columns.
pub open spec fn wrapped(s: Seq<char>, max: nat) -> Seq<Seq<char>>
    decreases s.len(),
{
    if str_cols(s) > max {
        if cut_at(s, max) >= s.len() {
            seq![s]
        } else {
            seq![s.take(cut_at(s, max) as int)] + wrapped(s.skip(cut_at(s, max) as int), max)
        }
    } else if s.len() == 0 {
        Seq::empty()
    } else {
        seq![s]
    }
}

/// The lines on the screen that a row of text takes: an empty row takes one.
pub open spec fn segments(s: Seq<char>, max: nat) -> Seq<Seq<char>> {
    if wrapped(s, max).len() == 0 {
        seq![s]
    } else {
        wrapped(s, max)
    }
}

/// The characters of `s` from number `from` up to, not including, `to`.
pub open spec fn chars_between(s: Seq<char>, from: int, to: int) -> Seq<char> {
    let end = if to < s.len() {
        to
    } else {
        s.len() as int
    };
    if from < end {
        s.subrange(from, end)
    } else {
        Seq::empty()
    }
}

/// A character without its case, if it is an ASCII letter.
pub open spec fn folded(c: char) -> int {
    if 'A' <= c <= 'Z' {
        c as int + 32
    } else {
        c as int
    }
}

/// Whether the characters of `q` occur in `t` in their order, whatever the
/// case of ASCII letters.
pub open spec fn fuzzy(q: Seq<char>, t: Seq<char>) -> bool
    decreases t.len(),
{
    if q.len() == 0 {
        true
    } else if t.len() == 0 {
        false
    } else if folded(q[0]) == folded(t[0]) {
        fuzzy(q.skip(1), t.skip(1))
    } else {
        fuzzy(q, t.skip(1))
    }
}

/// `s` without the white space at its start.
pub open spec fn trimmed_start(s: Seq<char>) -> Seq<char>
    decreases s.len(),
{
    if s.len() > 0 && is_space(s[0]) {
        trimmed_start(s.skip(1))
    } else {
        s
    }
}

/// `s` without the white space at its end.
pub open spec fn trimmed_end(s: Seq<char>) -> Seq<char>
    decreases s.len(),
{
    if s.len() > 0 && is_space(s.last()) {
        trimmed_end(s.drop_last())
    } else {
        s
    }
}

/// `s` without the white space at its ends.
pub open spec fn trimmed(s: Seq<char>) -> Seq<char> {
    trimmed_end(trimmed_start(s))
}

/// A decimal digit.
pub open spec fn digit(d: nat) -> char {
    (d + '0' as nat) as char
}

/// A number in decimal.
pub open spec fn decimal(n: nat) -> Seq<char>
    decreases n,
{
    if n < 10 {
        seq![digit(n)]
    } else {
        decimal(n / 10).push(digit(n % 10))
    }
}

/// The number that digits stand for.
pub open spec fn decimal_value(s: Seq<char>) -> nat
    decreases s.len(),
{
    if s.len() == 0 {
        0
    } else {
        (decimal_value(s.drop_last()) * 10 + (s.last() as int - '0' as int)) as nat
    }
}

pub open spec fn all_digits(s: Seq<char>) -> bool {
    forall|i: int| 0 <= i < s.len() ==> '0' <= #[trigger] s[i] <= '9'
}

/// `n` blanks.
pub open spec fn blanks(n: nat) -> Seq<char> {
    Seq::new(n, |i: int| ' ')
}

/// `s` brought to `width` characters by blanks in front.
pub open spec fn padded(s: Seq<char>, width: nat) -> Seq<char> {
    if s.len() >= width {
        s
    } else {
        blanks((width - s.len()) as nat) + s
    }
}

/// Texts put together with `sep` between them.
pub open spec fn joined(parts: Seq<Seq<char>>, sep: Seq<char>) -> Seq<char>
    decreases parts.len(),
{
    if parts.len() == 0 {
        Seq::empty()
    } else if parts.len() == 1 {
        parts[0]
    } else {
        joined(parts.drop_last(), sep) + sep + parts.last()
    }
}

/// Owned texts as plain values.
pub open spec fn texts(v: Seq<String>) -> Seq<Seq<char>> {
    v.map_values(|s: String| s@)
}

pub fn cols_of(c: char) -> (r: usize)
    ensures
        r == cols(c),
        r <= 3,
{
    match char_width(c) {
        Some(w) => w,
        None => 1,
    }
}

/// The characters of a text.
pub fn chars_of(s: &str) -> (r: Vec<char>)
    ensures
        r@ == s@,
{
    let mut out: Vec<char> = Vec::new();
    for c in it: s.chars()
        invariant
            out@ == s@.take(it.index() as int),
            it.seq() == s@,
    {
        proof {
            assert(s@.take(it.index() + 1) =~= s@.take(it.index() as int).push(c));
        }
        out.push(c);
    }
    assert(s@.take(s@.len() as int) =~= s@);
    out
}

/// Whether two texts are the same.
pub fn same_text(a: &str, b: &str) -> (r: bool)
    ensures
        r == (a@ == b@),
{
    let x = chars_of(a);
    let y = chars_of(b);
    if x.len() != y.len() {
        return false;
    }
    let n: usize = x.len();
    let mut i: usize = 0;
    while i < n
        invariant
            i <= n,
            n == x@.len(),
            n == y@.len(),
            x@ == a@,
            y@ == b@,
            forall|k: int| 0 <= k < i ==> x@[k] == y@[k],
        decreases n - i,
    {
        if x[i] != y[i] {
            assert(a@[i as int] != b@[i as int]);
            return false;
        }
        i += 1;
    }
    assert(a@ =~= b@);
    true
}

/// The text of some characters.
pub fn text_from(chars: &[char]) -> (r: String)
    ensures
        r@ == chars@,
{
    let mut out = String::new();
    let n: usize = chars.len();
    let mut i: usize = 0;
    while i < n
        invariant
            i <= n,
            n == chars@.len(),
            out@ == chars@.take(i as int),
        decreases n - i,
    {
        out.push(chars[i]);
        i += 1;
        assert(out@ =~= chars@.take(i as int));
    }
    assert(chars@.take(n as int) =~= chars@);
    out
}

/// How many characters from `from` on go into `n` columns.
pub fn chars_after_cols(chars: &[char], from: usize, n: usize) -> (r: usize)
    requires
        from <= chars@.len(),
    ensures
        r == fitting(chars@.skip(from as int), n as nat),
        from + r <= chars@.len(),
{
    let mut left: usize = n;
    let mut i: usize = from;
    let len: usize = chars.len();
    while left > 0 && i < len
        invariant
            from <= i <= len,
            len == chars@.len(),
            fitting(chars@.skip(from as int), n as nat) == (i - from) + fitting(
                chars@.skip(i as int),
                left as nat,
            ),
        decreases len - i,
    {
        let w: usize = cols_of(chars[i]);
        proof {
            assert(chars@.skip(i as int)[0] == chars@[i as int]);
            assert(chars@.skip(i as int).skip(1) =~= chars@.skip(i + 1));
        }
        if w > left {
            return i - from;
        }
        left -= w;
        i += 1;
    }
    i - from
}

/// Cuts a text that is too long to `max` columns and marks the cut.
pub fn clip_str(s: &str, max_cols: usize) -> (r: String)
    ensures
        r@ == clipped(s@, max_cols as nat),
{
    if max_cols <= 3 {
        let mut out = String::new();
        if s.is_empty() {
            return out;
        }
        let mut i: usize = 0;
        while i < max_cols
            invariant
                i <= max_cols,
                out@ == Seq::new(i as nat, |k: int| '.'),
            decreases max_cols - i,
        {
            out.push('.');
            i += 1;
            assert(out@ =~= Seq::new(i as nat, |k: int| '.'));
        }
        assert(out@ =~= clipped(s@, max_cols as nat));
        return out;
    }
    if text_width(s) <= max_cols {
        return s.to_owned();
    }
    let chars = chars_of(s);
    assert(chars@.skip(0) =~= s@);
    let cut: usize = chars_after_cols(chars.as_slice(), 0, max_cols - 3);
    let mut out = s.substring_char(0, cut).to_owned();
    out.append("...");
    out
}

/// The part of `s` behind its first `skip` columns, at most `max` columns of it.
pub fn slice_cols(s: &str, skip: usize, max: usize) -> (r: &str)
    ensures
        r@ == window(s@, skip as nat, max as nat),
{
    let chars = chars_of(s);
    assert(chars@.skip(0) =~= s@);
    let start: usize = chars_after_cols(chars.as_slice(), 0, skip);
    let n: usize = chars_after_cols(chars.as_slice(), start, max);
    let len: usize = chars.len();
    assert(start + n <= len);
    assert(s@.subrange(start as int, start + n) =~= s@.skip(start as int).take(n as int));
    s.substring_char(start, start + n)
}

/// Wraps a long text into lines of at most `max` columns.
pub fn wrap_cols(s: &str, max: usize) -> (r: Vec<String>)
    ensures
        texts(r@) == wrapped(s@, max as nat),
{
    let mut out: Vec<String> = Vec::new();
    let mut rest: String = s.to_owned();
    assert(texts(out@) + wrapped(rest@, max as nat) =~= wrapped(s@, max as nat));
    while text_width(rest.as_str()) > max
        invariant
            texts(out@) + wrapped(rest@, max as nat) == wrapped(s@, max as nat),
        decreases rest@.len(),
    {
        let ghost before = texts(out@);
        let chars = chars_of(rest.as_str());
        assert(chars@.skip(0) =~= rest@);
        let fit: usize = chars_after_cols(chars.as_slice(), 0, max);
        let cut: usize = if fit == 0 {
            1
        } else {
            fit
        };
        if cut >= chars.len() {
            out.push(rest);
            assert(texts(out@) =~= before.push(rest@));
            assert(texts(out@) =~= before + seq![rest@]);
            return out;
        }
        let line = rest.as_str().substring_char(0, cut).to_owned();
        let tail = rest.as_str().substring_char(cut, chars.len()).to_owned();
        proof {
            assert(line@ =~= rest@.take(cut as int));
            assert(tail@ =~= rest@.skip(cut as int));
        }
        let ghost piece = line@;
        out.push(line);
        proof {
            assert(texts(out@) =~= before.push(piece));
            assert(texts(out@) + wrapped(tail@, max as nat) =~= before + (seq![piece] + wrapped(
                tail@,
                max as nat,
            )));
        }
        rest = tail;
    }
    let ghost before = texts(out@);
    if !rest.as_str().is_empty() {
        out.push(rest);
        assert(texts(out@) =~= before + seq![rest@]);
    } else {
        assert(before + Seq::<Seq<char>>::empty() =~= before);
    }
    out
}

/// The lines on the screen that a row of text takes.
pub fn wrap_row(s: &str, max: usize) -> (r: Vec<String>)
    ensures
        texts(r@) == segments(s@, max as nat),
        r.len() > 0,
{
    let mut out = wrap_cols(s, max);
    assert(texts(out@).len() == out@.len());
    if out.len() == 0 {
        let t = s.to_owned();
        out.push(t);
        assert(texts(out@) =~= seq![s@]);
    }
    out
}

/// The characters of `s` from number `from` up to, not including, `to_excl`.
pub fn slice_chars(s: &str, from: usize, to_excl: usize) -> (r: String)
    ensures
        r@ == chars_between(s@, from as int, to_excl as int),
{
    let n: usize = s.unicode_len();
    let end: usize = if to_excl < n {
        to_excl
    } else {
        n
    };
    if from < end {
        s.substring_char(from, end).to_owned()
    } else {
        String::new()
    }
}

fn fold_case(c: char) -> (r: u32)
    ensures
        r == folded(c),
{
    if 'A' <= c && c <= 'Z' {
        c as u32 + 32
    } else {
        c as u32
    }
}

/// Whether the characters of `query` occur in `text` in their order, whatever
/// the case of ASCII letters.
pub fn fuzzy_subseq(query: &str, text: &str) -> (r: bool)
    ensures
        r == fuzzy(query@, text@),
{
    let q = chars_of(query);
    let t = chars_of(text);
    let mut i: usize = 0;
    let mut j: usize = 0;
    proof {
        assert(q@.skip(0) =~= q@);
        assert(t@.skip(0) =~= t@);
    }
    while i < q.len() && j < t.len()
        invariant
            i <= q@.len(),
            j <= t@.len(),
            q@ == query@,
            t@ == text@,
            fuzzy(query@, text@) == fuzzy(q@.skip(i as int), t@.skip(j as int)),
        decreases t@.len() - j,
    {
        proof {
            assert(q@.skip(i as int).skip(1) =~= q@.skip(i + 1));
            assert(t@.skip(j as int).skip(1) =~= t@.skip(j + 1));
        }
        if fold_case(q[i]) == fold_case(t[j]) {
            i += 1;
        }
        j += 1;
    }
    i == q.len()
}

/// A text without the white space at its ends.
pub fn trim_text(s: &str) -> (r: &str)
    ensures
        r@ == trimmed(s@),
{
    let chars = chars_of(s);
    let n: usize = chars.len();
    let mut from: usize = 0;
    assert(s@.skip(0) =~= s@);
    while from < n && chars[from].is_whitespace()
        invariant
            from <= n,
            n == chars@.len(),
            chars@ == s@,
            trimmed_start(s@) == trimmed_start(s@.skip(from as int)),
        decreases n - from,
    {
        assert(s@.skip(from as int).skip(1) =~= s@.skip(from + 1));
        from += 1;
    }
    let mut to: usize = n;
    proof {
        assert(trimmed_start(s@) == s@.skip(from as int));
        assert(s@.subrange(from as int, n as int) =~= s@.skip(from as int));
    }
    while to > from && chars[to - 1].is_whitespace()
        invariant
            from <= to <= n,
            n == chars@.len(),
            chars@ == s@,
            trimmed(s@) == trimmed_end(s@.subrange(from as int, to as int)),
        decreases to - from,
    {
        assert(s@.subrange(from as int, to as int).drop_last() =~= s@.subrange(
            from as int,
            to - 1,
        ));
        to -= 1;
    }
    s.substring_char(from, to)
}

fn digit_char(d: u64) -> (r: char)
    requires
        d < 10,
    ensures
        r == digit(d as nat),
{
    match d {
        0 => '0',
        1 => '1',
        2 => '2',
        3 => '3',
        4 => '4',
        5 => '5',
        6 => '6',
        7 => '7',
        8 => '8',
        _ => '9',
    }
}

/// A number in decimal.
pub fn number_text(n: u64) -> (r: String)
    ensures
        r@ == decimal(n as nat),
    decreases n,
{
    if n < 10 {
        let mut out = String::new();
        out.push(digit_char(n));
        assert(out@ =~= seq![digit(n as nat)]);
        out
    } else {
        let mut out = number_text(n / 10);
        out.push(digit_char(n % 10));
        out
    }
}

/// The number that a text of digits stands for; `None` if it is no such text
/// or the number is too large.
pub fn parse_number(s: &str) -> (r: Option<u64>)
    ensures
        r == if s@.len() > 0 && all_digits(s@) && decimal_value(s@) <= u64::MAX {
            Some(decimal_value(s@) as u64)
        } else {
            None
        },
{
    let chars = chars_of(s);
    let n: usize = chars.len();
    if n == 0 {
        return None;
    }
    let mut v: u64 = 0;
    let mut i: usize = 0;
    while i < n
        invariant
            i <= n,
            n == chars@.len(),
            n > 0,
            chars@ == s@,
            all_digits(s@.take(i as int)),
            v == decimal_value(s@.take(i as int)),
        decreases n - i,
    {
        let c: char = chars[i];
        if c < '0' || c > '9' {
            assert(!('0' <= s@[i as int] <= '9'));
            return None;
        }
        let d: u64 = c as u64 - '0' as u64;
        proof {
            assert(s@.take(i + 1).drop_last() =~= s@.take(i as int));
            assert(s@.take(i + 1).last() == c);
            assert(s@.take(s@.len() as int) =~= s@);
        }
        if v > (u64::MAX - d) / 10 {
            proof {
                lemma_value_grows(s@, i + 1);
            }
            return None;
        }
        v = v * 10 + d;
        i += 1;
        assert(all_digits(s@.take(i as int))) by {
            assert forall|k: int| 0 <= k < i implies '0' <= #[trigger] s@.take(i as int)[k]
                <= '9' by {
                if k < i - 1 {
                    assert(s@.take(i as int)[k] == s@.take(i - 1)[k]);
                }
            }
        }
    }
    assert(s@.take(n as int) =~= s@);
    Some(v)
}

/// More digits stand for no smaller a number.
proof fn lemma_value_grows(s: Seq<char>, i: int)
    requires
        0 <= i <= s.len(),
    ensures
        all_digits(s) ==> decimal_value(s.take(i)) <= decimal_value(s),
    decreases s.len(),
{
    if i == s.len() {
        assert(s.take(i) =~= s);
    } else if all_digits(s) {
        lemma_value_grows(s.drop_last(), i);
        assert(s.drop_last().take(i) =~= s.take(i));
        assert forall|k: int| 0 <= k < s.drop_last().len() implies '0'
            <= #[trigger] s.drop_last()[k] <= '9' by {
            assert(s.drop_last()[k] == s[k]);
        }
        assert('0' <= s[s.len() - 1] <= '9');
    }
}

/// `n` blanks.
pub fn blank_text(n: usize) -> (r: String)
    ensures
        r@ == blanks(n as nat),
{
    let mut out = String::new();
    let mut i: usize = 0;
    while i < n
        invariant
            i <= n,
            out@ == blanks(i as nat),
        decreases n - i,
    {
        out.push(' ');
        i += 1;
        assert(out@ =~= blanks(i as nat));
    }
    out
}

/// Brings a text to `width` characters by blanks in front.
pub fn pad_left(s: &str, width: usize) -> (r: String)
    ensures
        r@ == padded(s@, width as nat),
{
    let n: usize = s.unicode_len();
    if n >= width {
        s.to_owned()
    } else {
        let mut out = blank_text(width - n);
        out.append(s);
        out
    }
}

/// Puts texts together with `sep` between them.
pub fn join_texts(parts: &Vec<String>, sep: &str) -> (r: String)
    ensures
        r@ == joined(texts(parts@), sep@),
{
    let mut out = String::new();
    let n: usize = parts.len();
    let mut i: usize = 0;
    while i < n
        invariant
            i <= n,
            n == parts@.len(),
            out@ == joined(texts(parts@).take(i as int), sep@),
        decreases n - i,
    {
        let ghost before = out@;
        if i > 0 {
            out.append(sep);
        }
        out.append(parts[i].as_str());
        i += 1;
        proof {
            let t = texts(parts@).take(i as int);
            assert(t.drop_last() =~= texts(parts@).take(i - 1));
            assert(t.last() == parts@[i - 1]@);
            if i == 1 {
                assert(out@ =~= t[0]);
            }
        }
    }
    assert(texts(parts@).take(n as int) =~= texts(parts@));
    out
}

/// The columns of what goes into `n` columns are at most `n`.
pub proof fn law_fitting_fits(s: Seq<char>, n: nat)
    ensures
        fitting(s, n) <= s.len(),
        sum_cols(s.take(fitting(s, n) as int)) <= n,
        fitting(s, n) < s.len() ==> sum_cols(s.take(fitting(s, n) as int + 1)) > n || sum_cols(
            s.take(fitting(s, n) as int),
        ) == n,
    decreases s.len(),
{
    if n == 0 || s.len() == 0 || cols(s[0]) > n {
        assert(s.take(0).len() == 0);
        if s.len() > 0 {
            assert(s.take(1).skip(1) =~= Seq::empty());
            assert(sum_cols(s.take(1).skip(1)) == 0);
        }
    } else {
        let m = (n - cols(s[0])) as nat;
        let k = fitting(s.skip(1), m) as int;
        law_fitting_fits(s.skip(1), m);
        assert(s.take(k + 1).skip(1) =~= s.skip(1).take(k));
        assert(s.take(k + 1)[0] == s[0]);
        if k + 1 < s.len() {
            assert(s.take(k + 2).skip(1) =~= s.skip(1).take(k + 1));
            assert(s.take(k + 2)[0] == s[0]);
        }
    }
}

/// Wrapping loses nothing: the lines put together are the text.
pub proof fn law_wrapping_loses_nothing(s: Seq<char>, max: nat)
    ensures
        wrapped(s, max).flatten() == s,
    decreases s.len(),
{
    reveal(Seq::flatten);
    let w = wrapped(s, max);
    if str_cols(s) > max && cut_at(s, max) < s.len() {
        let cut = cut_at(s, max) as int;
        law_wrapping_loses_nothing(s.skip(cut), max);
        assert(w.first() == s.take(cut));
        assert(w.drop_first() =~= wrapped(s.skip(cut), max));
        assert(w.flatten() =~= s.take(cut) + s.skip(cut));
        assert(s.take(cut) + s.skip(cut) =~= s);
    } else if w.len() > 0 {
        assert(w =~= seq![s]);
        assert(w.drop_first() =~= Seq::<Seq<char>>::empty());
        assert(w.drop_first().flatten() =~= Seq::<char>::empty());
        assert(w.flatten() =~= s + Seq::<char>::empty());
        assert(w.flatten() =~= s);
    } else {
        assert(w.flatten() =~= s);
    }
}

/// No line of a wrapped text is empty, and each but the last goes into the
/// columns, where no character alone is too wide for them.
pub proof fn law_wrapped_lines_fit(s: Seq<char>, max: nat)
    requires
        max > 0,
        forall|i: int| 0 <= i < s.len() ==> cols(#[trigger] s[i]) <= max,
    ensures
        forall|k: int|
            0 <= k < wrapped(s, max).len() - 1 ==> (#[trigger] wrapped(s, max)[k]).len() > 0
                && sum_cols(wrapped(s, max)[k]) <= max,
    decreases s.len(),
{
    let w = wrapped(s, max);
    if str_cols(s) > max && cut_at(s, max) < s.len() {
        let cut = cut_at(s, max) as int;
        law_fitting_fits(s, max);
        assert(cols(s[0]) <= max);
        assert(fitting(s, max) > 0);
        assert forall|i: int| 0 <= i < s.skip(cut).len() implies cols(#[trigger] s.skip(cut)[i])
            <= max by {
            assert(s.skip(cut)[i] == s[cut + i]);
        }
        law_wrapped_lines_fit(s.skip(cut), max);
        let rest = wrapped(s.skip(cut), max);
        assert forall|k: int| 0 <= k < w.len() - 1 implies (#[trigger] w[k]).len() > 0 && sum_cols(
            w[k],
        ) <= max by {
            if k > 0 {
                assert(w[k] == rest[k - 1]);
            } else {
                assert(w[0] == s.take(cut));
            }
        }
    }
}

/// Whether the characters of `q` stand in `t` at the rising places `at`.
pub open spec fn found_at(q: Seq<char>, t: Seq<char>, at: Seq<int>) -> bool {
    &&& at.len() == q.len()
    &&& forall|i: int|
        0 <= i < q.len() ==> 0 <= #[trigger] at[i] < t.len() && folded(q[i]) == folded(t[at[i]])
    &&& forall|i: int, j: int| 0 <= i < j < q.len() ==> #[trigger] at[i] < #[trigger] at[j]
}

/// A text passes the filter exactly if the filter's characters stand in it,
/// one behind the other.
pub proof fn law_fuzzy_is_in_order(q: Seq<char>, t: Seq<char>)
    ensures
        fuzzy(q, t) <==> exists|at: Seq<int>| found_at(q, t, at),
{
    if fuzzy(q, t) {
        lemma_fuzzy_places(q, t);
    }
    if exists|at: Seq<int>| found_at(q, t, at) {
        lemma_places_fuzzy(q, t, choose|at: Seq<int>| found_at(q, t, at));
    }
}

proof fn lemma_fuzzy_places(q: Seq<char>, t: Seq<char>)
    requires
        fuzzy(q, t),
    ensures
        exists|at: Seq<int>| found_at(q, t, at),
    decreases t.len(),
{
    if q.len() == 0 {
        assert(found_at(q, t, Seq::empty()));
    } else {
        let hit = folded(q[0]) == folded(t[0]);
        let q2 = if hit {
            q.skip(1)
        } else {
            q
        };
        lemma_fuzzy_places(q2, t.skip(1));
        let rest = choose|at: Seq<int>| found_at(q2, t.skip(1), at);
        let d = if hit {
            1int
        } else {
            0
        };
        let at = Seq::new(
            q.len(),
            |i: int|
                if i < d {
                    0
                } else {
                    rest[i - d] + 1
                },
        );
        assert forall|i: int| 0 <= i < q.len() implies 0 <= #[trigger] at[i] < t.len() && folded(
            q[i],
        ) == folded(t[at[i]]) by {
            if i >= d {
                assert(q2[i - d] == q[i]);
                assert(0 <= rest[i - d] < t.skip(1).len());
                assert(t.skip(1)[rest[i - d]] == t[rest[i - d] + 1]);
            }
        }
        assert forall|i: int, j: int| 0 <= i < j < q.len() implies #[trigger] at[i]
            < #[trigger] at[j] by {
            assert(0 <= rest[j - d]);
            if i >= d {
                assert(rest[i - d] < rest[j - d]);
            }
        }
        assert(found_at(q, t, at));
    }
}

proof fn lemma_places_fuzzy(q: Seq<char>, t: Seq<char>, at: Seq<int>)
    requires
        found_at(q, t, at),
    ensures
        fuzzy(q, t),
    decreases t.len(),
{
    if q.len() > 0 {
        assert(0 <= at[0] < t.len());
        let hit = folded(q[0]) == folded(t[0]);
        let q2 = if hit {
            q.skip(1)
        } else {
            q
        };
        let d = if hit {
            1int
        } else {
            0
        };
        let rest = Seq::new((q.len() - d) as nat, |i: int| at[i + d] - 1);
        assert forall|i: int| 0 <= i < q2.len() implies 0 <= #[trigger] rest[i] < t.skip(1).len()
            && folded(q2[i]) == folded(t.skip(1)[rest[i]]) by {
            assert(q2[i] == q[i + d]);
            assert(0 <= at[i + d] < t.len());
            if hit {
                assert(at[0] < at[i + 1]);
            } else if i == 0 {
                assert(at[0] != 0);
            } else {
                assert(at[0] < at[i]);
            }
            assert(t.skip(1)[rest[i]] == t[at[i + d]]);
        }
        assert forall|i: int, j: int| 0 <= i < j < q2.len() implies #[trigger] rest[i]
            < #[trigger] rest[j] by {
            assert(at[i + d] < at[j + d]);
        }
        assert(found_at(q2, t.skip(1), rest));
        lemma_places_fuzzy(q2, t.skip(1), rest);
    }
}

/// Reading back a number that was written gives the number.
pub proof fn law_number_reads_back(n: nat)
    ensures
        decimal(n).len() > 0,
        all_digits(decimal(n)),
        decimal_value(decimal(n)) == n,
    decreases n,
{
    let s = decimal(n);
    if n < 10 {
        assert(s.drop_last() =~= Seq::empty());
        assert(decimal_value(s.drop_last()) == 0);
    } else {
        law_number_reads_back(n / 10);
        assert(s.drop_last() =~= decimal(n / 10));
        assert forall|i: int| 0 <= i < s.len() implies '0' <= #[trigger] s[i] <= '9' by {
            if i < s.len() - 1 {
                assert(s[i] == decimal(n / 10)[i]);
            }
        }
    }
}

proof fn lemma_trimmed_start(s: Seq<char>)
    ensures
        trimmed_start(s).len() > 0 ==> !is_space(trimmed_start(s)[0]),
    decreases s.len(),
{
    if s.len() > 0 && is_space(s[0]) {
        lemma_trimmed_start(s.skip(1));
    }
}

proof fn lemma_trimmed_end(s: Seq<char>)
    ensures
        trimmed_end(s).len() > 0 ==> !is_space(trimmed_end(s).last()),
        trimmed_end(s).is_prefix_of(s),
    decreases s.len(),
{
    if s.len() > 0 && is_space(s.last()) {
        lemma_trimmed_end(s.drop_last());
        assert(trimmed_end(s).is_prefix_of(s.drop_last()));
        assert(s.drop_last().take(trimmed_end(s).len() as int) =~= s.take(
            trimmed_end(s).len() as int,
        ));
    } else {
        assert(s.take(s.len() as int) =~= s);
    }
}

/// What is trimmed has no white space left at its ends: trimming it again
/// changes nothing.
pub proof fn lemma_trimmed(s: Seq<char>)
    ensures
        trimmed(trimmed(s)) == trimmed(s),
        trimmed(s).len() > 0 ==> !is_space(trimmed(s)[0]) && !is_space(trimmed(s).last()),
{
    lemma_trimmed_start(s);
    lemma_trimmed_end(trimmed_start(s));
    let t = trimmed(s);
    if t.len() > 0 {
        assert(t[0] == trimmed_start(s)[0]);
    }
}

/// What `str::to_uppercase` makes of a text that is not all ASCII.
pub uninterp spec fn upper_text(s: Seq<char>) -> Seq<char>;

/// An ASCII letter in upper case.
pub open spec fn ascii_upper(c: char) -> char {
    if 'a' <= c <= 'z' {
        (c as u8 - 32) as char
    } else {
        c
    }
}

/// Whether a text is all ASCII.
pub open spec fn ascii_text(s: Seq<char>) -> bool {
    forall|i: int| 0 <= i < s.len() ==> (#[trigger] s[i]) as u32 <= 127
}

/// A text in upper case.
pub open spec fn uppered(s: Seq<char>) -> Seq<char> {
    if ascii_text(s) {
        s.map_values(|c: char| ascii_upper(c))
    } else {
        upper_text(s)
    }
}

/// Calls `str::to_uppercase`: the upper case by the Unicode rules. In ASCII
/// text it changes the letters alone.
#[verifier::external_body]
pub(crate) fn to_upper(s: &str) -> (r: String)
    ensures
        ascii_text(s@) ==> r@ == s@.map_values(|c: char| ascii_upper(c)),
        !ascii_text(s@) ==> r@ == upper_text(s@),
{
    s.to_uppercase()
}

/// The parts of a text between separators.
pub open spec fn split(s: Seq<char>, sep: char) -> Seq<Seq<char>>
    decreases s.len(),
{
    if s.len() == 0 {
        seq![s]
    } else {
        let front = split(s.drop_last(), sep);
        if s.last() == sep {
            front.push(Seq::empty())
        } else {
            front.drop_last().push(front.last().push(s.last()))
        }
    }
}

/// The parts of a text hold no separator, and with separators between them
/// they are the text.
pub proof fn law_parts_make_the_text(s: Seq<char>, sep: char)
    ensures
        split(s, sep).len() > 0,
        joined(split(s, sep), seq![sep]) == s,
        forall|i: int| 0 <= i < split(s, sep).len() ==> !(#[trigger] split(s, sep)[i]).contains(sep),
    decreases s.len(),
{
    let parts = split(s, sep);
    if s.len() > 0 {
        let front = split(s.drop_last(), sep);
        law_parts_make_the_text(s.drop_last(), sep);
        if s.last() == sep {
            assert(parts.drop_last() =~= front);
            assert(joined(parts, seq![sep]) =~= s);
        } else {
            assert(parts.drop_last() =~= front.drop_last());
            assert(s =~= s.drop_last().push(s.last()));
            if front.len() == 1 {
                assert(joined(front, seq![sep]) == front.last());
                assert(joined(parts, seq![sep]) == parts.last());
            } else {
                let rest = joined(front.drop_last(), seq![sep]) + seq![sep];
                assert(joined(front, seq![sep]) == rest + front.last());
                assert(joined(parts, seq![sep]) == rest + parts.last());
                assert(rest + parts.last() =~= (rest + front.last()).push(s.last()));
            }
            assert forall|i: int| 0 <= i < parts.len() implies !(#[trigger] parts[i]).contains(
                sep,
            ) by {
                if i < front.len() - 1 {
                    assert(parts[i] == front[i]);
                } else {
                    assert(front[front.len() - 1] == front.last());
                    if parts[i].contains(sep) {
                        let j = parts[i].index_of(sep);
                        assert(front.last()[j] == sep);
                    }
                }
            }
        }
    } else {
        assert(joined(parts, seq![sep]) =~= s);
    }
}

/// A text without the blanks at its ends.
pub open spec fn unpadded(s: Seq<char>) -> Seq<char>
    decreases s.len(),
{
    if s.len() > 0 && s[0] == ' ' {
        unpadded(s.skip(1))
    } else if s.len() > 0 && s.last() == ' ' {
        unpadded(s.drop_last())
    } else {
        s
    }
}

/// A text without the blanks at its ends.
pub fn unpad_text(s: &str) -> (r: &str)
    ensures
        r@ == unpadded(s@),
{
    let chars = chars_of(s);
    let n: usize = chars.len();
    let mut from: usize = 0;
    let mut to: usize = n;
    assert(s@.subrange(0, n as int) =~= s@);
    while from < to && chars[from] == ' '
        invariant
            from <= to,
            to == n,
            n == chars@.len(),
            chars@ == s@,
            unpadded(s@) == unpadded(s@.subrange(from as int, to as int)),
        decreases to - from,
    {
        assert(s@.subrange(from as int, to as int).skip(1) =~= s@.subrange(from + 1, to as int));
        from += 1;
    }
    while from < to && chars[to - 1] == ' '
        invariant
            from <= to <= n,
            n == chars@.len(),
            chars@ == s@,
            from < to ==> s@[from as int] != ' ',
            unpadded(s@) == unpadded(s@.subrange(from as int, to as int)),
        decreases to - from,
    {
        assert(s@.subrange(from as int, to as int).drop_last() =~= s@.subrange(
            from as int,
            to - 1,
        ));
        to -= 1;
    }
    s.substring_char(from, to)
}

/// Whether a text holds a character.
pub fn holds_char(s: &str, c: char) -> (r: bool)
    ensures
        r == s@.contains(c),
{
    let chars = chars_of(s);
    let n: usize = chars.len();
    let mut i: usize = 0;
    while i < n
        invariant
            i <= n,
            n == chars@.len(),
            chars@ == s@,
            forall|k: int| 0 <= k < i ==> s@[k] != c,
        decreases n - i,
    {
        if chars[i] == c {
            assert(s@[i as int] == c);
            return true;
        }
        i += 1;
    }
    false
}

/// The parts of a text between separators.
pub fn split_text(s: &str, sep: char) -> (r: Vec<String>)
    ensures
        texts(r@) == split(s@, sep),
{
    let chars = chars_of(s);
    let n: usize = chars.len();
    let mut out: Vec<String> = Vec::new();
    let mut part = String::new();
    let mut i: usize = 0;
    assert(texts(out@).push(part@) =~= split(s@.take(0), sep)) by {
        assert(s@.take(0) =~= Seq::<char>::empty());
    }
    while i < n
        invariant
            i <= n,
            n == chars@.len(),
            chars@ == s@,
            texts(out@).push(part@) == split(s@.take(i as int), sep),
        decreases n - i,
    {
        let ghost before = texts(out@);
        let ghost last = part@;
        let c: char = chars[i];
        assert(s@.take(i + 1).drop_last() =~= s@.take(i as int));
        assert(before.push(last).drop_last() =~= before);
        if c == sep {
            out.push(part);
            part = String::new();
            assert(texts(out@) =~= before.push(last));
            assert(part@ =~= Seq::<char>::empty());
        } else {
            part.push(c);
        }
        i += 1;
    }
    let ghost before = texts(out@);
    let ghost last = part@;
    out.push(part);
    assert(texts(out@) =~= before.push(last));
    assert(s@.take(n as int) =~= s@);
    out
}

/// Whether `a` comes no later than `b` by the numbers of their characters.
pub open spec fn text_le(a: Seq<char>, b: Seq<char>) -> bool
    decreases a.len(),
{
    if a.len() == 0 {
        true
    } else if b.len() == 0 {
        false
    } else if a[0] == b[0] {
        text_le(a.skip(1), b.skip(1))
    } else {
        a[0] < b[0]
    }
}

/// Whether texts come in their order.
pub open spec fn sorted_texts(s: Seq<Seq<char>>) -> bool {
    forall|i: int, j: int| 0 <= i <= j < s.len() ==> text_le(#[trigger] s[i], #[trigger] s[j])
}

/// The order of texts is total, transitive and holds both ways only for equal
/// texts.
pub proof fn lemma_text_order(a: Seq<char>, b: Seq<char>, c: Seq<char>)
    ensures
        text_le(a, b) || text_le(b, a),
        text_le(a, b) && text_le(b, c) ==> text_le(a, c),
        text_le(a, b) && text_le(b, a) ==> a == b,
    decreases a.len() + b.len() + c.len(),
{
    if a.len() > 0 && b.len() > 0 && c.len() > 0 {
        lemma_text_order(a.skip(1), b.skip(1), c.skip(1));
    }
    if a.len() > 0 && b.len() > 0 && a[0] == b[0] {
        lemma_text_order(a.skip(1), b.skip(1), Seq::empty());
        if a.skip(1) == b.skip(1) {
            assert(a =~= seq![a[0]] + a.skip(1));
            assert(b =~= seq![b[0]] + b.skip(1));
        }
    } else if a.len() == 0 && b.len() == 0 {
        assert(a =~= b);
    }
}

fn text_before(a: &str, b: &str) -> (r: bool)
    ensures
        r == text_le(a@, b@),
{
    let x = chars_of(a);
    let y = chars_of(b);
    let mut i: usize = 0;
    proof {
        assert(a@.skip(0) =~= a@);
        assert(b@.skip(0) =~= b@);
    }
    while i < x.len() && i < y.len()
        invariant
            i <= x@.len(),
            i <= y@.len(),
            x@ == a@,
            y@ == b@,
            text_le(a@, b@) == text_le(a@.skip(i as int), b@.skip(i as int)),
        decreases x@.len() - i,
    {
        proof {
            assert(a@.skip(i as int).skip(1) =~= a@.skip(i + 1));
            assert(b@.skip(i as int).skip(1) =~= b@.skip(i + 1));
        }
        if x[i] != y[i] {
            return x[i] < y[i];
        }
        i += 1;
    }
    i == x.len()
}

/// Puts texts in their order.
pub fn sort_texts(items: Vec<String>) -> (r: Vec<String>)
    ensures
        sorted_texts(texts(r@)),
        texts(r@).to_multiset() == texts(items@).to_multiset(),
{
    let ghost all = texts(items@);
    let mut out: Vec<String> = Vec::new();
    proof {
        assert(texts(out@) =~= all.take(0));
    }
    for s in it: items
        invariant
            it.seq() == items@,
            all == texts(items@),
            sorted_texts(texts(out@)),
            texts(out@).to_multiset() == all.take(it.index() as int).to_multiset(),
    {
        let ghost done = it.index() as int;
        let ghost before = texts(out@);
        let ghost new = s@;
        let mut k: usize = 0;
        while k < out.len() && text_before(out[k].as_str(), s.as_str())
            invariant
                k <= out@.len(),
                before == texts(out@),
                new == s@,
                forall|j: int| 0 <= j < k ==> text_le(#[trigger] before[j], new),
            decreases out@.len() - k,
        {
            k += 1;
        }
        out.insert(k, s);
        proof {
            let after = texts(out@);
            assert(after =~= before.insert(k as int, new));
            assert forall|i: int, j: int| 0 <= i <= j < after.len() implies text_le(
                #[trigger] after[i],
                #[trigger] after[j],
            ) by {
                if i == j {
                    lemma_text_order(after[i], after[i], after[i]);
                } else if i == k {
                    lemma_text_order(before[k as int], new, before[j - 1]);
                    assert(text_le(before[k as int], before[j - 1]));
                    lemma_text_order(new, before[k as int], before[j - 1]);
                } else if i < k && j < k {
                    assert(after[i] == before[i] && after[j] == before[j]);
                } else if i < k && j > k {
                    assert(after[i] == before[i] && after[j] == before[j - 1]);
                } else if i < k {
                    assert(after[i] == before[i]);
                } else {
                    assert(after[i] == before[i - 1] && after[j] == before[j - 1]);
                }
            }
            after.to_multiset_ensures();
            assert(after.remove(k as int) =~= before);
            assert(after[k as int] == new);
            assert(after.to_multiset() =~= before.to_multiset().insert(new));
            assert(all.take(done + 1) =~= all.take(done).push(new));
            all.take(done).to_multiset_ensures();
        }
    }
    assert(all.take(all.len() as int) =~= all);
    out
}

/// A text without the character at a place.
pub fn remove_char(s: &str, at: usize) -> (r: String)
    requires
        at < s@.len(),
    ensures
        r@ == s@.remove(at as int),
{
    let n: usize = s.unicode_len();
    let mut out = s.substring_char(0, at).to_owned();
    out.append(s.substring_char(at + 1, n));
    assert(out@ =~= s@.remove(at as int));
    out
}

/// A text with a character put in at a place.
pub fn insert_char(s: &str, at: usize, c: char) -> (r: String)
    requires
        at <= s@.len(),
    ensures
        r@ == s@.insert(at as int, c),
{
    let n: usize = s.unicode_len();
    let mut out = s.substring_char(0, at).to_owned();
    out.push(c);
    out.append(s.substring_char(at, n));
    assert(out@ =~= s@.insert(at as int, c));
    out
}

/// A copy of texts.
pub fn copy_texts(items: &[String]) -> (r: Vec<String>)
    ensures
        r@ == items@,
{
    let mut out: Vec<String> = Vec::new();
    let n: usize = items.len();
    let mut i: usize = 0;
    while i < n
        invariant
            i <= n,
            n == items@.len(),
            out@ == items@.take(i as int),
        decreases n - i,
    {
        out.push(items[i].clone());
        i += 1;
        assert(out@ =~= items@.take(i as int));
    }
    assert(items@.take(n as int) =~= items@);
    out
}

/// Texts go by their first characters that differ; a text comes before those that
/// go on behind it.
pub proof fn law_texts_go_by_their_characters(a: Seq<char>, b: Seq<char>, k: int)
    requires
        0 <= k <= a.len(),
        k < b.len(),
        a.take(k) == b.take(k),
        k == a.len() || a[k] < b[k],
    ensures
        text_le(a, b),
        !text_le(b, a),
    decreases k,
{
    if k > 0 {
        assert(a[0] == a.take(k)[0] && b[0] == b.take(k)[0]);
        assert(a.skip(1).take(k - 1) =~= a.take(k).skip(1));
        assert(b.skip(1).take(k - 1) =~= b.take(k).skip(1));
        law_texts_go_by_their_characters(a.skip(1), b.skip(1), k - 1);
    }
}

/// The case of ASCII letters does not count for a filter.
pub proof fn law_filters_ignore_case(q: Seq<char>, p: Seq<char>, t: Seq<char>)
    requires
        q.len() == p.len(),
        forall|i: int|
            0 <= i < q.len() ==> #[trigger] q[i] == p[i] || ('a' <= q[i] <= 'z' && p[i] as int + 32
                == q[i] as int) || ('A' <= q[i] <= 'Z' && q[i] as int + 32 == p[i] as int),
    ensures
        fuzzy(q, t) == fuzzy(p, t),
    decreases t.len(),
{
    if q.len() > 0 && t.len() > 0 {
        assert(q[0] == p[0] || ('a' <= q[0] <= 'z' && p[0] as int + 32 == q[0] as int) || ('A'
            <= q[0] <= 'Z' && q[0] as int + 32 == p[0] as int));
        assert forall|i: int| 0 <= i < q.skip(1).len() implies #[trigger] q.skip(1)[i] == p.skip(
            1,
        )[i] || ('a' <= q.skip(1)[i] <= 'z' && p.skip(1)[i] as int + 32 == q.skip(1)[i] as int) || (
        'A' <= q.skip(1)[i] <= 'Z' && q.skip(1)[i] as int + 32 == p.skip(1)[i] as int) by {
            assert(q[i + 1] == q.skip(1)[i]);
        }
        law_filters_ignore_case(q.skip(1), p.skip(1), t.skip(1));
        law_filters_ignore_case(q, p, t.skip(1));
    }
}

} // verus!
