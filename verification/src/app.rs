//! The state of the program: its panes, its mode, and what each key does to
//! them.
//!
//! The file stands in the first pane, which is never closed; the other panes
//! hold lists of matching lines. The pane with the focus is the one that keys
//! act on. Work outside the program (a search through the file, the clipboard,
//! files to write) is asked for by effects, and its outcome is handed back.
use vstd::prelude::*;
use crate::config::{entry, section, section_of, SettingView};
use crate::encoding::Encoding;
use crate::file::{DiskReply, DiskRequest};
use crate::history::{stored_text, History, DEFAULT_HISTORY_CAP};
use crate::keymap::{keys_template, Keymap};
use crate::layout::{leaves, shares_kept, Layout};
use crate::modes::{greater, lesser, Mode};
use crate::panes::{FileContent, MatchesContent, Pane, SearchPrefs, FIRST_HEIGHT, MAX_EXTENT};
use crate::search::Case;
use crate::text::{decimal, number_text};
use crate::theme::{CursorShape, Theme};
use crate::view::{disk_renewed, view_opened, window_filled, FileView, DEFAULT_MAX_ROW, LAST_ROW};

verus! {

/// The id of the file's pane.
pub const FILE_PANE: u64 = 1;

/// The highest id that a pane can have.
pub const LAST_ID: u64 = 0xFFFF_FFFF_FFFF_FFFE;

/// Where a jump through the file leads.
#[derive(Debug, Clone, Copy, PartialEq, Eq, Structural)]
pub enum JumpKind {
    /// To a row, counted from 1.
    Goto(u64),
    Bottom,
}

/// A jump that is under way.
#[derive(Debug, Clone, Copy)]
pub struct Jump {
    pub kind: JumpKind,
    /// The window's first row and the cursor's row when it began.
    pub back: (u64, u64),
}

/// Work to be done outside the program.
pub enum Effect {
    /// Search through the file.
    StartSearch { path: String, pattern: String, encoding: Encoding, case: Case, word: bool },
    /// Stop the search that runs.
    CancelSearch,
    /// Store the history.
    SaveHistory,
    /// Write a file of that many lines.
    Export { text: String, count: usize },
    /// Put a text of that many rows into the clipboard.
    Copy { text: String, rows: u64 },
}

pub struct App<D> {
    /// The panes, in the order of their places on the screen.
    pub panes: Vec<Pane<D>>,
    pub layout: Layout,
    /// The id of the next pane.
    pub next_id: u64,
    /// The place of the pane with the focus.
    pub focus: usize,
    /// The pane that fills the screen.
    pub zoom: Option<u64>,
    /// Whether the file's end is followed.
    pub follow: bool,
    pub keys: Keymap,
    pub theme: Theme,
    pub opts: SearchPrefs,
    pub pending_jump: Option<Jump>,
    /// A note that the next key takes away.
    pub trans: Option<String>,
    /// The columns of the pane with the focus when it was last drawn.
    pub last_cols: usize,
    pub history: History,
    pub mode: Mode,
    pub msg: String,
    pub quit: bool,
    /// The file's name, for the title of its pane.
    pub file_name: String,
    /// The most bytes of a file in UTF-16 that the settings allow to be
    /// converted in memory.
    pub utf16_limit: u64,
    /// The work that is to be done outside, in order.
    pub effects: Vec<Effect>,
}

/// The limits of the setting for files in UTF-16, in megabytes, and what holds
/// without it.
pub const LEAST_UTF16_MB: i64 = 16;

pub const MOST_UTF16_MB: i64 = 16_384;

pub const DEFAULT_UTF16_MB: i64 = 512;

/// The bytes of a megabyte.
pub const MEGABYTE: u64 = 1_048_576;

/// The most bytes of a file in UTF-16, by a configuration text.
pub open spec fn utf16_asked(text: Option<Seq<char>>) -> u64 {
    let mb = match text {
        None => DEFAULT_UTF16_MB,
        Some(t) => match section_of(t, "misc"@) {
            None => DEFAULT_UTF16_MB,
            Some(s) => match entry(s, "utf16_buffer_mb"@) {
                Some(SettingView::Number(n)) => lesser(
                    greater(n as int, LEAST_UTF16_MB as int),
                    MOST_UTF16_MB as int,
                ) as i64,
                _ => DEFAULT_UTF16_MB,
            },
        },
    };
    (mb * MEGABYTE) as u64
}

/// The most bytes of a file in UTF-16, by the section `[misc]` of a
/// configuration text.
pub fn utf16_limit(text: Option<&str>) -> (r: u64)
    ensures
        r == utf16_asked(stored_text(text)),
{
    let asked: Option<i64> = match text {
        None => None,
        Some(t) => match section(t, "misc") {
            None => None,
            Some(s) => s.number("utf16_buffer_mb"),
        },
    };
    let mb: i64 = match asked {
        None => DEFAULT_UTF16_MB,
        Some(n) => if n < LEAST_UTF16_MB {
            LEAST_UTF16_MB
        } else if n > MOST_UTF16_MB {
            MOST_UTF16_MB
        } else {
            n
        },
    };
    mb as u64 * MEGABYTE
}

/// The configuration that is stored where there is none: the default keys and
/// colours and the other settings.
pub open spec fn first_config_text() -> Seq<char> {
    keys_template() + "\n"@ + Theme::template()
        + "\n# 搜索历史最多保留条数（1-100000）\n[history]\ncap = "@ + decimal(
        DEFAULT_HISTORY_CAP as nat,
    )
        + "\n\n# UTF-16 文件全量内存转码的源文件大小上限(MB，超出会拒绝打开并提示)\n[misc]\nutf16_buffer_mb = 512\n"@
}

/// The configuration that is stored where there is none.
pub fn first_config() -> (r: String)
    ensures
        r@ == first_config_text(),
{
    let mut out = Keymap::default_template();
    out.append("\n");
    out.append(Theme::template_text());
    out.append("\n# 搜索历史最多保留条数（1-100000）\n[history]\ncap = ");
    out.append(number_text(DEFAULT_HISTORY_CAP as u64).as_str());
    out.append(
        "\n\n# UTF-16 文件全量内存转码的源文件大小上限(MB，超出会拒绝打开并提示)\n[misc]\nutf16_buffer_mb = 512\n",
    );
    out
}

/// The ids of panes.
pub open spec fn pane_ids<D>(panes: Seq<Pane<D>>) -> Seq<u64> {
    panes.map_values(|p: Pane<D>| p.id)
}

impl<D: Fn(DiskRequest) -> DiskReply> App<D> {
    /// What the file's pane holds.
    pub open spec fn file(&self) -> FileContent<D> {
        self.panes@[0].content->File_0
    }

    /// What the pane at a place behind the first holds.
    pub open spec fn list(&self, i: int) -> MatchesContent {
        self.panes@[i].content->Matches_0
    }

    /// Whether the panes are those of the layout, in its order, the file's
    /// pane first.
    pub open spec fn panes_wf(&self) -> bool {
        &&& self.panes@.len() >= 1
        &&& self.panes@[0].id == FILE_PANE
        &&& self.panes@[0].content is File
        &&& self.file().wf()
        &&& forall|i: int|
            1 <= i < self.panes@.len() ==> (#[trigger] self.panes@[i]).content is Matches
                && self.list(i).wf()
        &&& pane_ids(self.panes@) == leaves(self.layout.root)
        &&& pane_ids(self.panes@).no_duplicates()
        &&& forall|i: int| 0 <= i < self.panes@.len() ==> (#[trigger] self.panes@[i]).id < self.next_id
        &&& FILE_PANE < self.next_id <= LAST_ID
        &&& shares_kept(self.layout.root)
    }

    pub open spec fn wf(&self) -> bool {
        &&& self.panes_wf()
        &&& self.focus < self.panes@.len()
        &&& self.zoom matches Some(z) ==> pane_ids(self.panes@).contains(z)
        &&& self.history.wf()
        &&& self.keys.wf()
        &&& self.mode.wf(self.history.keywords().len())
        &&& self.last_cols <= MAX_EXTENT
        &&& self.pending_jump matches Some(j) ==> j.back.0 <= LAST_ROW && j.back.1 <= LAST_ROW
    }

    /// Whether only the message has changed, to this.
    pub open spec fn told(&self, before: Self, text: Seq<char>) -> bool {
        &&& *self == (App { msg: self.msg, ..before })
        &&& self.msg@ == text
    }

    /// Whether, of the panes, only the file's has changed.
    pub open spec fn only_file(&self, before: Self) -> bool {
        &&& self.panes@.len() == before.panes@.len()
        &&& self.panes@[0].id == before.panes@[0].id
        &&& self.panes@[0].content is File
        &&& forall|i: int| 1 <= i < before.panes@.len() ==> #[trigger] self.panes@[i] == before.panes@[i]
    }

    /// Whether, of the panes, only the one at a place has changed.
    pub open spec fn only_list(&self, before: Self, at: int) -> bool {
        &&& self.panes@.len() == before.panes@.len()
        &&& self.panes@[at].id == before.panes@[at].id
        &&& self.panes@[at].content is Matches
        &&& forall|i: int|
            0 <= i < before.panes@.len() && i != at ==> #[trigger] self.panes@[i]
                == before.panes@[i]
    }

    pub fn set_msg(&mut self, s: String)
        ensures
            *final(self) == (App { msg: s, ..*old(self) }),
    {
        self.msg = s;
    }

    pub fn set_trans(&mut self, s: String)
        ensures
            *final(self) == (App { trans: Some(s), ..*old(self) }),
    {
        self.trans = Some(s);
    }

    /// Goes on with the disk as it is now: the file may have grown.
    pub fn renew_disk(&mut self, disk: D)
        requires
            old(self).wf(),
            crate::file::askable(disk),
        ensures
            final(self).wf(),
            *final(self) == (App { panes: final(self).panes, ..*old(self) }),
            final(self).only_file(*old(self)),
            final(self).file() == (FileContent {
                view: final(self).file().view,
                ..old(self).file()
            }),
            disk_renewed(old(self).file().view, final(self).file().view, disk),
    {
        self.file_mut().view.renew_disk(disk);
        proof {
            crate::jumps::lemma_file_changed(*old(self), *self);
        }
    }

    /// The shape of the terminal's own cursor: there is one for modes in which
    /// text is typed and one for the others.
    pub fn cursor_shape(&self) -> (r: CursorShape)
        ensures
            r == if self.mode.takes_text() {
                self.theme.cursor_input
            } else {
                self.theme.cursor_normal
            },
    {
        if self.mode.is_input() {
            self.theme.cursor_input
        } else {
            self.theme.cursor_normal
        }
    }

    /// Opens the program on a file: with the settings of a configuration text
    /// and the history of a stored text, if there are any. The first screen is
    /// read.
    pub fn open(
        disk: D,
        path: String,
        file_name: String,
        config: Option<&str>,
        history_path: Option<String>,
        stored: Option<&str>,
    ) -> (r: Result<Self, String>)
        requires
            crate::file::askable(disk),
        ensures
            r matches Ok(a) ==> a.wf() && app_opened(
                a,
                disk,
                path@,
                file_name@,
                stored_text(config),
                match history_path {
                    Some(p) => Some(p@),
                    None => None,
                },
                stored_text(stored),
            ),
            match r {
                Ok(_) => exists|v: Result<FileView<D>, String>| #[trigger]
                    view_opened(disk, path@, DEFAULT_MAX_ROW, v) && v is Ok,
                Err(e) => view_opened(disk, path@, DEFAULT_MAX_ROW, Err(e)),
            },
    {
        let history = match history_path {
            None => History::in_memory(),
            Some(p) => History::load_cap(p, stored, History::cap_from_toml(config)),
        };
        let keys = Keymap::load_or_default(config);
        let theme = Theme::from_toml(config);
        let ghost told = path@;
        let mut view = match FileView::open(disk, path) {
            Ok(v) => v,
            Err(e) => {
                return Err(e);
            },
        };
        let ghost opened = view;
        assert(view_opened(disk, told, DEFAULT_MAX_ROW, Ok(opened)));
        view.fill_to(FIRST_HEIGHT);
        let ghost filled = view;
        let mut panes: Vec<Pane<D>> = Vec::new();
        panes.push(Pane::file(FILE_PANE, view));
        let a = App {
            panes,
            layout: Layout::new(FILE_PANE),
            next_id: 2,
            focus: 0,
            zoom: None,
            follow: false,
            keys,
            theme,
            opts: SearchPrefs { case: Case::Smart, word: false },
            pending_jump: None,
            trans: None,
            last_cols: 100,
            history,
            mode: Mode::Normal,
            msg: String::new(),
            quit: false,
            file_name,
            utf16_limit: utf16_limit(config),
            effects: Vec::new(),
        };
        assert(pane_ids(a.panes@) =~= leaves(a.layout.root));
        Ok(a)
    }
}

/// What the program is when it has been opened.
pub open spec fn app_opened<D: Fn(DiskRequest) -> DiskReply>(
    a: App<D>,
    disk: D,
    path: Seq<char>,
    file_name: Seq<char>,
    config: Option<Seq<char>>,
    history_path: Option<Seq<char>>,
    stored: Option<Seq<char>>,
) -> bool {
    &&& a.panes@.len() == 1
    &&& exists|v: FileView<D>|
        #![trigger window_filled(v, a.file().view, FIRST_HEIGHT)]
        view_opened(disk, path, DEFAULT_MAX_ROW, Ok(v)) && window_filled(
            v,
            a.file().view,
            FIRST_HEIGHT,
        )
    &&& a.file() == (FileContent {
        view: a.file().view,
        search: None,
        hl: None,
        inner_h: FIRST_HEIGHT,
        hscroll: 0,
        wrap: false,
    })
    &&& a.next_id == 2
    &&& a.focus == 0
    &&& a.zoom is None
    &&& !a.follow
    &&& a.keys@ == crate::keymap::bindings_of(config)
    &&& a.theme == crate::theme::theme_of(config)
    &&& a.opts == (SearchPrefs { case: Case::Smart, word: false })
    &&& a.pending_jump is None
    &&& a.trans is None
    &&& a.last_cols == 100
    &&& match history_path {
        None => {
            &&& a.history.keywords().len() == 0
            &&& a.history.place().len() == 0
            &&& a.history.limit() == crate::history::DEFAULT_HISTORY_CAP
        },
        Some(p) => {
            &&& a.history.place() == p
            &&& a.history.limit() == crate::history::cap_asked(config)
            &&& a.history.keywords() == crate::history::loaded(
                stored,
                crate::history::cap_asked(config) as int,
            )
        },
    }
    &&& a.mode is Normal
    &&& a.msg@.len() == 0
    &&& !a.quit
    &&& a.file_name@ == file_name
    &&& a.utf16_limit == utf16_asked(config)
    &&& a.effects@.len() == 0
}

/// The limit for files in UTF-16 is the one that the settings ask for, in
/// megabytes, but at least sixteen and at most sixteen thousand three hundred and
/// eighty-four; five hundred and twelve without a setting.
pub proof fn law_utf16_limit_is_what_is_asked(text: Option<Seq<char>>)
    ensures
        16 * 1_048_576 <= utf16_asked(text) <= 16_384 * 1_048_576,
        text is None ==> utf16_asked(text) == 512 * 1_048_576,
        text matches Some(t) ==> (section_of(t, "misc"@) matches Some(s) ==> (entry(
            s,
            "utf16_buffer_mb"@,
        ) matches Some(SettingView::Number(n)) ==> (16 <= n <= 16_384 ==> utf16_asked(text) == n
            * 1_048_576))),
{
}

} // verus!
