//! The search history: the keywords of earlier searches, the latest first, no
//! keyword twice.
use vstd::prelude::*;
use crate::config::{section, section_of};
use crate::text::{
    lemma_trimmed, same_text, texts, trim_text, trimmed,
};

verus! {

pub const HISTORY_CAP: usize = 300;

pub const DEFAULT_HISTORY_CAP: usize = 300;

/// The most keywords that a configuration can ask for.
pub const MAX_HISTORY_CAP: i64 = 100_000;

/// The list of texts that a JSON text holds, if it is one.
pub uninterp spec fn json_list(text: Seq<char>) -> Option<Seq<Seq<char>>>;

/// The JSON text for a list of texts.
pub uninterp spec fn json_text(items: Seq<Seq<char>>) -> Seq<char>;

/// Calls `serde_json::from_str` for a list of strings.
#[verifier::external_body]
fn parse_json(text: &str) -> (r: Option<Vec<String>>)
    ensures
        match r {
            Some(v) => json_list(text@) == Some(texts(v@)),
            None => json_list(text@) is None,
        },
{
    serde_json::from_str::<Vec<String>>(text).ok()
}

/// Calls `serde_json::to_string_pretty` on a list of strings; an error would
/// come as its text, but strings are always written. What is written reads back
/// as the same list.
#[verifier::external_body]
fn write_json(items: &Vec<String>) -> (r: Result<String, String>)
    ensures
        r is Ok,
        r matches Ok(t) ==> t@ == json_text(texts(items@)),
        r matches Ok(t) ==> json_list(t@) == Some(texts(items@)),
{
    serde_json::to_string_pretty(items).map_err(|e| e.to_string())
}

/// The keywords of a list: without white space at their ends, no empty one,
/// and each only where it comes first.
pub open spec fn cleaned(items: Seq<Seq<char>>) -> Seq<Seq<char>>
    decreases items.len(),
{
    if items.len() == 0 {
        Seq::empty()
    } else {
        let front = cleaned(items.drop_last());
        let t = trimmed(items.last());
        if t.len() == 0 || front.contains(t) {
            front
        } else {
            front.push(t)
        }
    }
}

/// At most `n` of the items.
pub open spec fn at_most(items: Seq<Seq<char>>, n: int) -> Seq<Seq<char>> {
    if items.len() > n {
        items.take(n)
    } else {
        items
    }
}

/// The items without one of them.
pub open spec fn items_without(items: Seq<Seq<char>>, t: Seq<char>) -> Seq<Seq<char>> {
    items.filter(|x: Seq<char>| x != t)
}

/// Whether adding a keyword changes the list.
pub open spec fn push_changes(items: Seq<Seq<char>>, s: Seq<char>) -> bool {
    trimmed(s).len() > 0 && !(items.len() > 0 && items[0] == trimmed(s))
}

/// The list after a keyword was added.
pub open spec fn pushed(items: Seq<Seq<char>>, s: Seq<char>, cap: int) -> Seq<Seq<char>> {
    if push_changes(items, s) {
        at_most(seq![trimmed(s)] + items_without(items, trimmed(s)), cap)
    } else {
        items
    }
}

/// Whether no item occurs twice and each is a keyword.
pub open spec fn clean(items: Seq<Seq<char>>) -> bool {
    &&& items.no_duplicates()
    &&& forall|i: int|
        0 <= i < items.len() ==> (#[trigger] items[i]).len() > 0 && trimmed(items[i]) == items[i]
}

/// How many keywords the section on the history asks to keep.
pub open spec fn cap_asked(text: Option<Seq<char>>) -> usize {
    match text {
        None => DEFAULT_HISTORY_CAP,
        Some(t) => match section_of(t, "history"@) {
            None => DEFAULT_HISTORY_CAP,
            Some(s) => match crate::config::entry(s, "cap"@) {
                Some(crate::config::SettingView::Number(n)) => if n < 1 {
                    1
                } else if n > MAX_HISTORY_CAP {
                    MAX_HISTORY_CAP as usize
                } else {
                    n as usize
                },
                _ => DEFAULT_HISTORY_CAP,
            },
        },
    }
}

pub struct History {
    path: String,
    items: Vec<String>,
    cap: usize,
}

impl History {
    /// The keywords, the latest first.
    pub closed spec fn keywords(&self) -> Seq<Seq<char>> {
        texts(self.items@)
    }

    /// The most keywords that are kept.
    pub closed spec fn limit(&self) -> usize {
        self.cap
    }

    /// Where the history is stored.
    pub closed spec fn place(&self) -> Seq<char> {
        self.path@
    }

    pub open spec fn wf(&self) -> bool {
        &&& self.limit() >= 1
        &&& self.keywords().len() <= self.limit()
        &&& clean(self.keywords())
    }

    /// The history for a stored text, with the default limit.
    pub fn load(path: String, stored: Option<&str>) -> (r: Self)
        ensures
            r.wf(),
            r.place() == path@,
            r.limit() == DEFAULT_HISTORY_CAP,
            r.keywords() == loaded(stored_text(stored), DEFAULT_HISTORY_CAP as int),
    {
        Self::load_cap(path, stored, DEFAULT_HISTORY_CAP)
    }

    /// The history for a stored text: empty if there is none or it is no JSON
    /// list of strings. At most `cap` keywords are kept.
    pub fn load_cap(path: String, stored: Option<&str>, cap: usize) -> (r: Self)
        ensures
            r.wf(),
            r.place() == path@,
            r.limit() == if cap == 0 {
                1
            } else {
                cap
            },
            r.keywords() == loaded(stored_text(stored), r.limit() as int),
    {
        let listed: Vec<String> = match stored {
            None => Vec::new(),
            Some(t) => match parse_json(t) {
                None => Vec::new(),
                Some(v) => v,
            },
        };
        proof {
            assert(texts(Seq::<String>::empty()) =~= Seq::empty());
            assert(stored_list(stored_text(stored)) == texts(listed@));
        }
        let cap: usize = if cap == 0 {
            1
        } else {
            cap
        };
        let mut items = clean_list(&listed);
        proof {
            lemma_cleaned(texts(listed@));
        }
        let ghost whole = texts(items@);
        items.truncate(cap);
        let r = History { path, items, cap };
        assert(r.keywords() =~= at_most(whole, cap as int));
        proof {
            assert forall|i: int| 0 <= i < r.keywords().len() implies (
            #[trigger] r.keywords()[i]).len() > 0 && trimmed(r.keywords()[i]) == r.keywords()[i] by {
                assert(r.keywords()[i] == whole[i]);
            }
        }
        r
    }

    /// How many keywords to keep, by the section on the history of a
    /// configuration text.
    pub fn cap_from_toml(text: Option<&str>) -> (r: usize)
        ensures
            r == cap_asked(stored_text(text)),
            1 <= r <= MAX_HISTORY_CAP,
    {
        let asked: Option<i64> = match text {
            None => None,
            Some(t) => match section(t, "history") {
                None => None,
                Some(s) => s.number("cap"),
            },
        };
        match asked {
            None => DEFAULT_HISTORY_CAP,
            Some(n) => if n < 1 {
                1
            } else if n > MAX_HISTORY_CAP {
                MAX_HISTORY_CAP as usize
            } else {
                n as usize
            },
        }
    }

    /// An empty history that is stored nowhere.
    pub fn in_memory() -> (r: Self)
        ensures
            r.wf(),
            r.place().len() == 0,
            r.keywords().len() == 0,
            r.limit() == DEFAULT_HISTORY_CAP,
    {
        History { path: String::new(), items: Vec::new(), cap: DEFAULT_HISTORY_CAP }
    }

    pub fn items(&self) -> (r: &[String])
        ensures
            texts(r@) == self.keywords(),
    {
        self.items.as_slice()
    }

    /// Where the history is stored; empty if nowhere.
    pub fn path(&self) -> (r: &str)
        ensures
            r@ == self.place(),
    {
        self.path.as_str()
    }

    /// Adds a keyword: it comes first, and nowhere else. Returns whether the
    /// list changed.
    pub fn push(&mut self, s: &str) -> (r: bool)
        requires
            old(self).wf(),
        ensures
            final(self).wf(),
            final(self).limit() == old(self).limit(),
            final(self).place() == old(self).place(),
            r == push_changes(old(self).keywords(), s@),
            final(self).keywords() == pushed(old(self).keywords(), s@, old(self).limit() as int),
    {
        let t = trim_text(s);
        if t.is_empty() {
            return false;
        }
        let ghost before = self.keywords();
        if self.items.len() > 0 && same_text(self.items[0].as_str(), t) {
            assert(before[0] == t@);
            return false;
        }
        assert(!(before.len() > 0 && before[0] == t@));
        let mut items: Vec<String> = Vec::new();
        items.push(t.to_owned());
        let ghost keep = |x: Seq<char>| x != t@;
        let n: usize = self.items.len();
        let mut i: usize = 0;
        proof {
            reveal(Seq::filter);
            assert(before.take(0).filter(keep) =~= Seq::empty());
            assert(texts(items@) =~= seq![t@] + before.take(0).filter(keep));
        }
        while i < n
            invariant
                i <= n,
                n == self.items@.len(),
                *self == *old(self),
                before == self.keywords(),
                keep == (|x: Seq<char>| x != t@),
                texts(items@) == seq![t@] + before.take(i as int).filter(keep),
            decreases n - i,
        {
            proof {
                reveal(Seq::filter);
                assert(before.take(i + 1).drop_last() =~= before.take(i as int));
                assert(before.take(i + 1).last() == before[i as int]);
            }
            let ghost sofar = texts(items@);
            if !same_text(self.items[i].as_str(), t) {
                items.push(self.items[i].clone());
                assert(texts(items@) =~= sofar.push(before[i as int]));
                assert(texts(items@) =~= seq![t@] + before.take(i + 1).filter(keep));
            }
            i += 1;
        }
        assert(before.take(n as int) =~= before);
        let ghost whole = texts(items@);
        if items.len() > self.cap {
            items.truncate(self.cap);
        }
        self.items = items;
        proof {
            assert(self.keywords() =~= at_most(whole, self.cap as int));
            law_push_keeps_the_list_clean(before, s@, self.cap as int);
        }
        true
    }

    /// The text to store.
    pub fn save(&self) -> (r: Result<String, String>)
        ensures
            r is Ok,
            r matches Ok(t) ==> t@ == json_text(self.keywords()) && json_list(t@) == Some(
                self.keywords(),
            ),
    {
        write_json(&self.items)
    }
}

/// A stored text as plain values.
pub open spec fn stored_text(stored: Option<&str>) -> Option<Seq<char>> {
    match stored {
        Some(t) => Some(t@),
        None => None,
    }
}

/// The list that a stored text holds.
pub open spec fn stored_list(stored: Option<Seq<char>>) -> Seq<Seq<char>> {
    match stored {
        None => Seq::empty(),
        Some(t) => match json_list(t) {
            None => Seq::empty(),
            Some(v) => v,
        },
    }
}

/// The keywords of a stored text.
pub open spec fn loaded(stored: Option<Seq<char>>, cap: int) -> Seq<Seq<char>> {
    at_most(cleaned(stored_list(stored)), cap)
}

/// The keywords of a list.
pub fn clean_list(listed: &Vec<String>) -> (r: Vec<String>)
    ensures
        texts(r@) == cleaned(texts(listed@)),
{
    let mut out: Vec<String> = Vec::new();
    let n: usize = listed.len();
    let ghost all = texts(listed@);
    let mut i: usize = 0;
    proof {
        assert(all.take(0) =~= Seq::empty());
        assert(texts(out@) =~= Seq::empty());
    }
    while i < n
        invariant
            i <= n,
            n == listed@.len(),
            all == texts(listed@),
            texts(out@) == cleaned(all.take(i as int)),
        decreases n - i,
    {
        proof {
            assert(all.take(i + 1).drop_last() =~= all.take(i as int));
            assert(all.take(i + 1).last() == all[i as int]);
        }
        let ghost before = texts(out@);
        let t = trim_text(listed[i].as_str());
        if !t.is_empty() && !holds_text(&out, t) {
            out.push(t.to_owned());
            assert(texts(out@) =~= before.push(t@));
        }
        i += 1;
    }
    assert(all.take(n as int) =~= all);
    out
}

fn holds_text(items: &Vec<String>, t: &str) -> (r: bool)
    ensures
        r == texts(items@).contains(t@),
{
    let n: usize = items.len();
    let mut i: usize = 0;
    while i < n
        invariant
            i <= n,
            n == items@.len(),
            forall|k: int| 0 <= k < i ==> texts(items@)[k] != t@,
        decreases n - i,
    {
        if same_text(items[i].as_str(), t) {
            assert(texts(items@)[i as int] == t@);
            return true;
        }
        i += 1;
    }
    false
}

proof fn lemma_cleaned(items: Seq<Seq<char>>)
    ensures
        clean(cleaned(items)),
    decreases items.len(),
{
    if items.len() > 0 {
        lemma_cleaned(items.drop_last());
        lemma_trimmed(items.last());
    }
}

/// A list of keywords stays as it is when it is cleaned.
pub proof fn law_cleaning_keeps_a_clean_list(items: Seq<Seq<char>>)
    ensures
        clean(cleaned(items)),
        clean(items) ==> cleaned(items) == items,
    decreases items.len(),
{
    lemma_cleaned(items);
    if items.len() > 0 && clean(items) {
        let front = items.drop_last();
        assert(clean(front)) by {
            assert forall|i: int| 0 <= i < front.len() implies (#[trigger] front[i]).len() > 0
                && trimmed(front[i]) == front[i] by {
                assert(front[i] == items[i]);
            }
        }
        law_cleaning_keeps_a_clean_list(front);
        let last = items.last();
        assert(items[items.len() - 1] == last);
        if front.contains(last) {
            let k = choose|k: int| 0 <= k < front.len() && front[k] == last;
            assert(items[k] == items[items.len() - 1]);
        }
        assert(front.push(last) =~= items);
    }
}

/// Adding a keyword keeps the list free of doubles and within its limit; the
/// keyword comes first, and the others keep their order.
pub proof fn law_push_keeps_the_list_clean(items: Seq<Seq<char>>, s: Seq<char>, cap: int)
    requires
        clean(items),
        items.len() <= cap,
        cap >= 1,
    ensures
        clean(pushed(items, s, cap)),
        pushed(items, s, cap).len() <= cap,
        trimmed(s).len() > 0 ==> pushed(items, s, cap).len() > 0 && pushed(items, s, cap)[0]
            == trimmed(s),
        push_changes(items, s) ==> pushed(items, s, cap).skip(1).is_prefix_of(
            items_without(items, trimmed(s)),
        ),
{
    let t = trimmed(s);
    lemma_trimmed(s);
    if push_changes(items, s) {
        let rest = items_without(items, t);
        let whole = seq![t] + rest;
        lemma_filter_clean(items, t);
        let after = pushed(items, s, cap);
        assert forall|i: int| 0 <= i < after.len() implies (#[trigger] after[i]).len() > 0
            && trimmed(after[i]) == after[i] by {
            assert(after[i] == whole[i]);
            if i > 0 {
                assert(whole[i] == rest[i - 1]);
            }
        }
        assert forall|i: int, j: int| 0 <= i < after.len() && 0 <= j < after.len() && i != j implies after[i]
            != after[j] by {
            assert(after[i] == whole[i] && after[j] == whole[j]);
            if i == 0 {
                assert(whole[j] == rest[j - 1]);
            } else if j == 0 {
                assert(whole[i] == rest[i - 1]);
            } else {
                assert(whole[i] == rest[i - 1] && whole[j] == rest[j - 1]);
            }
        }
        assert(after.skip(1) =~= rest.take(after.len() - 1));
    }
}

proof fn lemma_filter_clean(items: Seq<Seq<char>>, t: Seq<char>)
    requires
        clean(items),
    ensures
        clean(items_without(items, t)),
        forall|i: int|
            0 <= i < items_without(items, t).len() ==> items.contains(
                #[trigger] items_without(items, t)[i],
            ) && items_without(items, t)[i] != t,
    decreases items.len(),
{
    reveal(Seq::filter);
    if items.len() > 0 {
        let front = items.drop_last();
        assert(clean(front)) by {
            assert forall|i: int| 0 <= i < front.len() implies (#[trigger] front[i]).len() > 0
                && trimmed(front[i]) == front[i] by {
                assert(front[i] == items[i]);
            }
        }
        lemma_filter_clean(front, t);
        let kept = items_without(front, t);
        let last = items.last();
        assert(items[items.len() - 1] == last);
        assert forall|i: int| 0 <= i < kept.len() implies items.contains(#[trigger] kept[i])
            && kept[i] != last by {
            assert(front.contains(kept[i]));
            let k = choose|k: int| 0 <= k < front.len() && front[k] == kept[i];
            assert(items[k] == kept[i]);
        }
        if last != t {
            assert(items_without(items, t) =~= kept.push(last));
        }
    }
}

/// A history that was stored reads back as the same keywords.
pub proof fn law_stored_history_reads_back(h: History, stored: Seq<char>)
    requires
        h.wf(),
        json_list(stored) == Some(h.keywords()),
    ensures
        loaded(Some(stored), h.limit() as int) == h.keywords(),
{
    law_cleaning_keeps_a_clean_list(h.keywords());
}

/// As many keywords are kept as the settings ask for, but at least one and at most
/// a hundred thousand.
pub proof fn law_history_keeps_what_is_asked(text: Option<Seq<char>>)
    ensures
        1 <= cap_asked(text) <= 100_000,
        text matches Some(t) ==> (section_of(t, "history"@) matches Some(s) ==> (
        crate::config::entry(s, "cap"@) matches Some(crate::config::SettingView::Number(n)) ==> {
            &&& 1 <= n <= 100_000 ==> cap_asked(text) == n
            &&& n < 1 ==> cap_asked(text) == 1
            &&& n > 100_000 ==> cap_asked(text) == 100_000
        })),
        text is None ==> cap_asked(text) == 300,
{
}

/// A stored list that is read keeps each keyword of it, without the blanks around
/// it, and nothing else; what comes first in the list comes first among the
/// keywords, and at most as many as asked for are kept, from the first on.
pub proof fn law_stored_keywords_are_kept_in_order(items: Seq<Seq<char>>, cap: int)
    requires
        cap >= 1,
    ensures
        forall|t: Seq<char>| #[trigger]
            cleaned(items).contains(t) <==> t.len() > 0 && exists|i: int|
                0 <= i < items.len() && trimmed(#[trigger] items[i]) == t,
        items.len() > 0 && trimmed(items[0]).len() > 0 ==> cleaned(items).len() > 0 && cleaned(
            items,
        )[0] == trimmed(items[0]),
        forall|n: int|
            0 <= n <= items.len() ==> (#[trigger] cleaned(items.take(n))).is_prefix_of(
                cleaned(items),
            ),
        at_most(cleaned(items), cap).is_prefix_of(cleaned(items)),
        at_most(cleaned(items), cap).len() <= cap,
        cleaned(items).len() <= cap ==> at_most(cleaned(items), cap) == cleaned(items),
    decreases items.len(),
{
    let all = cleaned(items);
    if items.len() > 0 {
        let less = items.drop_last();
        law_stored_keywords_are_kept_in_order(less, cap);
        let front = cleaned(less);
        let last = trimmed(items.last());
        assert(items[items.len() - 1] == items.last());
        assert forall|t: Seq<char>| #[trigger] all.contains(t) <==> t.len() > 0 && exists|i: int|
            0 <= i < items.len() && trimmed(#[trigger] items[i]) == t by {
            if front.contains(t) {
                let i = choose|i: int| 0 <= i < less.len() && trimmed(#[trigger] less[i]) == t;
                assert(items[i] == less[i]);
                let k = front.index_of(t);
                assert(all[k] == t);
            }
            if all.contains(t) && !front.contains(t) {
                let k = all.index_of(t);
                if k < front.len() {
                    assert(front[k] == t);
                }
                assert(t == last);
            }
            if t.len() > 0 && exists|i: int|
                0 <= i < items.len() && trimmed(#[trigger] items[i]) == t {
                let i = choose|i: int| 0 <= i < items.len() && trimmed(#[trigger] items[i]) == t;
                if i < less.len() {
                    assert(less[i] == items[i]);
                    assert(front.contains(t));
                } else if !front.contains(t) {
                    assert(all == front.push(t));
                    assert(all[front.len() as int] == t);
                }
            }
        }
        assert forall|n: int| 0 <= n <= items.len() implies (#[trigger] cleaned(
            items.take(n),
        )).is_prefix_of(all) by {
            if n < items.len() {
                assert(items.take(n) =~= less.take(n));
                let part = cleaned(less.take(n));
                assert(part.is_prefix_of(front));
                assert(all.take(part.len() as int) =~= front.take(part.len() as int));
            } else {
                assert(items.take(n) =~= items);
                assert(all.take(all.len() as int) =~= all);
            }
        }
        if less.len() > 0 {
            assert(less[0] == items[0]);
        } else {
            assert(front =~= Seq::empty());
        }
    } else {
        assert(all =~= Seq::empty());
        assert forall|n: int| 0 <= n <= items.len() implies (#[trigger] cleaned(
            items.take(n),
        )).is_prefix_of(all) by {
            assert(items.take(n) =~= items);
            assert(all.take(0) =~= all);
        }
    }
    assert(all.take(all.len() as int) =~= all);
}

/// Adding a keyword loses no other one while there is room: each keyword but the
/// added one is still there, and the list is as long as the limit lets it be.
pub proof fn law_push_keeps_the_others(
    items: Seq<Seq<char>>,
    s: Seq<char>,
    cap: int,
    other: Seq<char>,
)
    requires
        clean(items),
        items.len() <= cap,
        cap >= 1,
        items.contains(other),
    ensures
        items.len() < cap || items.contains(trimmed(s)) ==> pushed(items, s, cap).contains(other),
        !items.contains(trimmed(s)) && trimmed(s).len() > 0 ==> pushed(items, s, cap).len()
            == if items.len() < cap {
            items.len() + 1int
        } else {
            cap
        },
        trimmed(s).len() == 0 ==> pushed(items, s, cap) == items,
{
    let t = trimmed(s);
    if push_changes(items, s) {
        let rest = items_without(items, t);
        let whole = seq![t] + rest;
        lemma_without_len(items, t);
        if other != t {
            assert(rest.contains(other)) by {
                let keep = |x: Seq<char>| x != t;
                let k = items.index_of(other);
                assert(items[k] == other);
                assert(keep(items[k]));
                broadcast use vstd::seq_lib::group_filter_ensures;

                assert(items.filter(keep).contains(items[k]));
            }
            let k = rest.index_of(other);
            assert(whole[k + 1] == other);
        } else {
            assert(whole[0] == other);
        }
        if whole.len() <= cap {
            assert(at_most(whole, cap) == whole);
            assert(whole.contains(other));
        }
    } else if t.len() > 0 {
        assert(items.contains(items[0]));
    }
}

/// How many items are left without one.
proof fn lemma_without_len(items: Seq<Seq<char>>, t: Seq<char>)
    requires
        items.no_duplicates(),
    ensures
        items_without(items, t).len() == items.len() - if items.contains(t) {
            1int
        } else {
            0
        },
    decreases items.len(),
{
    reveal(Seq::filter);
    if items.len() > 0 {
        let front = items.drop_last();
        let last = items.last();
        assert(items[items.len() - 1] == last);
        lemma_without_len(front, t);
        if front.contains(t) {
            let k = front.index_of(t);
            assert(items[k] == t);
            assert(items.contains(t));
        }
        if items.contains(t) && last != t {
            let k = items.index_of(t);
            assert(front[k] == t);
        }
        if last == t {
            assert(items.contains(t));
            if front.contains(t) {
                let k = front.index_of(t);
                assert(items[k] == items[items.len() - 1]);
            }
        }
    }
}

} // verus!
