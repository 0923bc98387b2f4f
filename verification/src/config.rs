//! Settings: the sections of the configuration file.
//!
//! The file is TOML. What the program reads of it are sections of settings,
//! each a text, a number or a list of texts.
use vstd::prelude::*;
use crate::text::{same_text, texts};

verus! {

#[verifier::external_type_specification]
#[verifier::external_body]
pub struct ExTomlValue(toml::Value);

#[verifier::external_type_specification]
#[verifier::external_body]
#[verifier::reject_recursive_types(K)]
#[verifier::reject_recursive_types(V)]
pub struct ExTomlMap<K, V>(toml::map::Map<K, V>);

/// One setting.
#[derive(Debug)]
pub enum Setting {
    Text(String),
    Number(i64),
    /// The texts of a list; what else stands in it is left out.
    Texts(Vec<String>),
    Other,
}

/// A setting as plain values.
#[verifier::ext_equal]
pub enum SettingView {
    Text(Seq<char>),
    Number(i64),
    Texts(Seq<Seq<char>>),
    Other,
}

impl View for Setting {
    type V = SettingView;

    open spec fn view(&self) -> SettingView {
        match self {
            Setting::Text(s) => SettingView::Text(s@),
            Setting::Number(n) => SettingView::Number(*n),
            Setting::Texts(v) => SettingView::Texts(texts(v@)),
            Setting::Other => SettingView::Other,
        }
    }
}

/// The settings of a section, by name.
pub struct Section {
    pub entries: Vec<(String, Setting)>,
}

impl View for Section {
    type V = Seq<(Seq<char>, SettingView)>;

    open spec fn view(&self) -> Seq<(Seq<char>, SettingView)> {
        self.entries@.map_values(|e: (String, Setting)| (e.0@, e.1@))
    }
}

/// A TOML value, one level of it.
enum Item {
    Text(String),
    Number(i64),
    List(Vec<toml::Value>),
    Table(toml::map::Map<String, toml::Value>),
    Other,
}

/// A TOML value, one level of it, as plain values.
pub enum ItemView {
    Text(Seq<char>),
    Number(i64),
    List(Seq<toml::Value>),
    Table(toml::map::Map<String, toml::Value>),
    Other,
}

impl Item {
    spec fn seen(&self) -> ItemView {
        match self {
            Item::Text(s) => ItemView::Text(s@),
            Item::Number(n) => ItemView::Number(*n),
            Item::List(v) => ItemView::List(v@),
            Item::Table(t) => ItemView::Table(*t),
            Item::Other => ItemView::Other,
        }
    }
}

/// The table that a TOML text holds, if it is TOML.
pub uninterp spec fn toml_parsed(text: Seq<char>) -> Option<
    toml::map::Map<String, toml::Value>,
>;

/// What a TOML table holds, in the order in which it is walked.
pub uninterp spec fn table_entries(table: toml::map::Map<String, toml::Value>) -> Seq<
    (Seq<char>, toml::Value),
>;

/// Which of the kinds of TOML values a value is, and what it holds.
pub uninterp spec fn value_item(value: toml::Value) -> ItemView;

/// Parses a text by the `FromStr` of `toml::Table`.
#[verifier::external_body]
fn parse_toml(text: &str) -> (r: Option<toml::map::Map<String, toml::Value>>)
    ensures
        r == toml_parsed(text@),
{
    text.parse::<toml::Table>().ok()
}

/// Walks a `toml::Table` with its `into_iter`. No key comes twice.
#[verifier::external_body]
fn take_entries(table: toml::map::Map<String, toml::Value>) -> (r: Vec<(String, toml::Value)>)
    ensures
        r@.map_values(|e: (String, toml::Value)| (e.0@, e.1)) == table_entries(table),
        forall|i: int, j: int|
            0 <= i < j < r@.len() ==> (#[trigger] r@[i]).0@ != (#[trigger] r@[j]).0@,
{
    table.into_iter().collect()
}

/// Tells the variants of `toml::Value` apart.
#[verifier::external_body]
fn open_value(value: toml::Value) -> (r: Item)
    ensures
        r.seen() == value_item(value),
{
    match value {
        toml::Value::String(s) => Item::Text(s),
        toml::Value::Integer(n) => Item::Number(n),
        toml::Value::Array(a) => Item::List(a),
        toml::Value::Table(t) => Item::Table(t),
        _ => Item::Other,
    }
}

/// The texts among TOML values.
pub open spec fn texts_among(values: Seq<toml::Value>) -> Seq<Seq<char>>
    decreases values.len(),
{
    if values.len() == 0 {
        Seq::empty()
    } else {
        let front = texts_among(values.drop_last());
        match value_item(values.last()) {
            ItemView::Text(s) => front.push(s),
            _ => front,
        }
    }
}

/// A TOML value as a setting.
pub open spec fn setting_of(value: toml::Value) -> SettingView {
    match value_item(value) {
        ItemView::Text(s) => SettingView::Text(s),
        ItemView::Number(n) => SettingView::Number(n),
        ItemView::List(v) => SettingView::Texts(texts_among(v)),
        _ => SettingView::Other,
    }
}

/// The place of the first entry with a name.
pub open spec fn entry_at<T>(entries: Seq<(Seq<char>, T)>, name: Seq<char>) -> Option<int>
    decreases entries.len(),
{
    if entries.len() == 0 {
        None
    } else {
        match entry_at(entries.drop_last(), name) {
            Some(i) => Some(i),
            None => if entries.last().0 == name {
                Some(entries.len() - 1)
            } else {
                None
            },
        }
    }
}

/// The entry with a name.
pub open spec fn entry<T>(entries: Seq<(Seq<char>, T)>, name: Seq<char>) -> Option<T> {
    match entry_at(entries, name) {
        Some(i) => Some(entries[i].1),
        None => None,
    }
}

/// The section with a name, if the text is TOML and holds it.
pub open spec fn section_of(text: Seq<char>, name: Seq<char>) -> Option<
    Seq<(Seq<char>, SettingView)>,
> {
    match toml_parsed(text) {
        None => None,
        Some(t) => match entry(table_entries(t), name) {
            None => None,
            Some(v) => match value_item(v) {
                ItemView::Table(sub) => Some(
                    table_entries(sub).map_values(
                        |e: (Seq<char>, toml::Value)| (e.0, setting_of(e.1)),
                    ),
                ),
                _ => None,
            },
        },
    }
}

fn texts_in(values: Vec<toml::Value>) -> (r: Vec<String>)
    ensures
        texts(r@) == texts_among(values@),
{
    let mut out: Vec<String> = Vec::new();
    let ghost all = values@;
    proof {
        assert(all.take(0) =~= Seq::empty());
        assert(texts(out@) =~= Seq::empty());
    }
    for value in it: values
        invariant
            it.seq() == all,
            texts(out@) == texts_among(all.take(it.index() as int)),
    {
        let ghost done = it.index() as int;
        let ghost before = texts(out@);
        proof {
            assert(all.take(done + 1).drop_last() =~= all.take(done));
            assert(all.take(done + 1).last() == all[done]);
        }
        if let Item::Text(s) = open_value(value) {
            out.push(s);
            assert(texts(out@) =~= before.push(s@));
        }
    }
    assert(all.take(all.len() as int) =~= all);
    out
}

fn read_setting(value: toml::Value) -> (r: Setting)
    ensures
        r@ == setting_of(value),
{
    match open_value(value) {
        Item::Text(s) => Setting::Text(s),
        Item::Number(n) => Setting::Number(n),
        Item::List(v) => Setting::Texts(texts_in(v)),
        Item::Table(_) => Setting::Other,
        Item::Other => Setting::Other,
    }
}

/// The section with a name; `None` if the text is no TOML or holds no such
/// section.
pub fn section(text: &str, name: &str) -> (r: Option<Section>)
    ensures
        r is Some <==> section_of(text@, name@) is Some,
        r matches Some(s) ==> Some(s@) == section_of(text@, name@),
{
    let table = match parse_toml(text) {
        None => {
            return None;
        },
        Some(t) => t,
    };
    let entries = take_entries(table);
    let ghost seen = entries@;
    let ghost plain = table_entries(table);
    let mut found: Option<toml::Value> = None;
    proof {
        assert(plain.take(0) =~= Seq::empty());
    }
    for e in it: entries
        invariant
            it.seq() == seen,
            plain == seen.map_values(|e: (String, toml::Value)| (e.0@, e.1)),
            match entry_at(plain.take(it.index() as int), name@) {
                Some(i) => 0 <= i < it.index() && found == Some(plain[i].1),
                None => found is None,
            },
    {
        let ghost done = it.index() as int;
        proof {
            assert(plain.take(done + 1).drop_last() =~= plain.take(done));
            assert(plain.take(done + 1).last() == plain[done]);
        }
        if found.is_none() && same_text(e.0.as_str(), name) {
            found = Some(e.1);
        }
    }
    assert(plain.take(plain.len() as int) =~= plain);
    let value = match found {
        None => {
            return None;
        },
        Some(v) => v,
    };
    match open_value(value) {
        Item::Table(t) => Some(read_section(t)),
        _ => None,
    }
}

fn read_section(table: toml::map::Map<String, toml::Value>) -> (r: Section)
    ensures
        r@ == table_entries(table).map_values(
            |e: (Seq<char>, toml::Value)| (e.0, setting_of(e.1)),
        ),
{
    let entries = take_entries(table);
    let ghost seen = entries@;
    let ghost plain = table_entries(table);
    let mut out: Vec<(String, Setting)> = Vec::new();
    for e in it: entries
        invariant
            it.seq() == seen,
            plain == seen.map_values(|e: (String, toml::Value)| (e.0@, e.1)),
            out@.len() == it.index(),
            forall|k: int|
                0 <= k < out@.len() ==> (#[trigger] out@[k]).0@ == plain[k].0 && out@[k].1@
                    == setting_of(plain[k].1),
    {
        let (name, value) = e;
        out.push((name, read_setting(value)));
    }
    let r = Section { entries: out };
    assert(r@ =~= plain.map_values(|e: (Seq<char>, toml::Value)| (e.0, setting_of(e.1))));
    r
}

impl Section {
    /// The text of a setting.
    pub open spec fn text_at(self, name: Seq<char>) -> Option<Seq<char>> {
        match entry(self@, name) {
            Some(SettingView::Text(s)) => Some(s),
            _ => None,
        }
    }

    /// The number of a setting.
    pub open spec fn number_at(self, name: Seq<char>) -> Option<i64> {
        match entry(self@, name) {
            Some(SettingView::Number(n)) => Some(n),
            _ => None,
        }
    }

    /// The place of the entry with a name.
    fn find(&self, name: &str) -> (r: Option<usize>)
        ensures
            match r {
                Some(i) => entry_at(self@, name@) == Some(i as int) && i < self.entries@.len(),
                None => entry_at(self@, name@) is None,
            },
    {
        let n: usize = self.entries.len();
        let mut i: usize = 0;
        proof {
            assert(self@.take(0) =~= Seq::empty());
        }
        while i < n
            invariant
                i <= n,
                n == self.entries@.len(),
                entry_at(self@.take(i as int), name@) is None,
            decreases n - i,
        {
            proof {
                assert(self@.take(i + 1).drop_last() =~= self@.take(i as int));
                assert(self@.take(i + 1).last() == self@[i as int]);
            }
            if same_text(self.entries[i].0.as_str(), name) {
                proof {
                    lemma_entry_at_prefix(self@, name@, i + 1);
                }
                return Some(i);
            }
            i += 1;
        }
        assert(self@.take(n as int) =~= self@);
        None
    }

    /// The text of the setting with a name, if it is one.
    pub fn text(&self, name: &str) -> (r: Option<&str>)
        ensures
            match r {
                Some(t) => self.text_at(name@) == Some(t@),
                None => self.text_at(name@) is None,
            },
    {
        match self.find(name) {
            None => None,
            Some(i) => match &self.entries[i].1 {
                Setting::Text(s) => Some(s.as_str()),
                _ => None,
            },
        }
    }

    /// The number of the setting with a name, if it is one.
    pub fn number(&self, name: &str) -> (r: Option<i64>)
        ensures
            r == self.number_at(name@),
    {
        match self.find(name) {
            None => None,
            Some(i) => match &self.entries[i].1 {
                Setting::Number(n) => Some(*n),
                _ => None,
            },
        }
    }
}

proof fn lemma_entry_at_prefix<T>(entries: Seq<(Seq<char>, T)>, name: Seq<char>, n: int)
    requires
        0 <= n <= entries.len(),
        entry_at(entries.take(n), name) is Some,
    ensures
        entry_at(entries, name) == entry_at(entries.take(n), name),
    decreases entries.len(),
{
    if n < entries.len() {
        assert(entries.drop_last().take(n) =~= entries.take(n));
        lemma_entry_at_prefix(entries.drop_last(), name, n);
    } else {
        assert(entries.take(n) =~= entries);
    }
}

} // verus!
