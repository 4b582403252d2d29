//! The reader's state and the decisions it makes on user actions: search,
//! recent files, outline navigation, the command palette and reading aloud.

use vstd::prelude::*;
use vstd::utf8::is_ascii_chars;

use crate::cli::LaunchArg;
use crate::document::{join_path, Document};
use crate::outline::{ascii_lower, TocEntry};
use crate::paths::{paths_equal, same_path};
use crate::text::{
    byte_len, char_len_utf8, chars_of, lemma_byte_len_split3, lemma_byte_len_within,
    str_byte_len, word_ranges, words,
};
use crate::tts::SpeechOutcome;

verus! {

/// Most recently opened files kept.
pub const MAX_RECENT: usize = 10;

#[derive(Debug, Clone, Copy, PartialEq, Eq, Structural)]
pub enum SidebarTab {
    FileTree,
    Outline,
}

impl Default for SidebarTab {
    fn default() -> (t: Self)
        ensures
            t == SidebarTab::Outline,
    {
        SidebarTab::Outline
    }
}

/// State for the Ctrl+Shift+P command palette.
pub struct CommandPaletteState {
    pub open: bool,
    pub query: String,
}

impl Default for CommandPaletteState {
    fn default() -> (s: Self)
        ensures
            !s.open,
            s.query@ == Seq::<char>::empty(),
    {
        Self { open: false, query: String::new() }
    }
}

// ── Case folding (std) ───────────────────────────────────────────────────────

/// What `str::to_lowercase` returns for a string.
pub uninterp spec fn lowercase_of(s: Seq<char>) -> Seq<char>;

/// ASCII lower-casing: `A-Z` lowered one for one, every other character kept.
pub open spec fn ascii_lowercase(s: Seq<char>) -> Seq<char> {
    s.map_values(|c: char| ascii_lower(c))
}

/// `str::to_lowercase`: Unicode lower-casing of the whole string, named by
/// `lowercase_of`. For ASCII text std's source lowers `A-Z` one for one and
/// keeps every other character.
#[verifier::external_body]
fn str_to_lowercase(s: &str) -> (r: String)
    ensures
        r@ == lowercase_of(s@),
        is_ascii_chars(s@) ==> r@ == ascii_lowercase(s@),
{
    s.to_lowercase()
}

// ── Search ────────────────────────────────────────────────────────────────────

/// Character indices of the non-overlapping occurrences of `q` in `t` at or
/// after `i`, found left to right.
pub open spec fn occurrences_from(t: Seq<char>, q: Seq<char>, i: int) -> Seq<int>
    decreases t.len() - i,
{
    if q.len() == 0 || i < 0 || i + q.len() > t.len() {
        Seq::empty()
    } else if t.subrange(i, i + q.len() as int) == q {
        seq![i] + occurrences_from(t, q, i + q.len())
    } else {
        occurrences_from(t, q, i + 1)
    }
}

/// Byte offsets, in the lower-cased text, of the occurrences of the
/// lower-cased query.
pub open spec fn search_hits(content: Seq<char>, query: Seq<char>) -> Seq<usize> {
    let t = lowercase_of(content);
    occurrences_from(t, lowercase_of(query), 0).map_values(
        |j: int| byte_len(t.subrange(0, j)) as usize,
    )
}

/// Whether `q` occurs in `t` at `i`.
fn occurs_at(t: &Vec<char>, q: &Vec<char>, i: usize) -> (b: bool)
    requires
        i + q.len() <= t.len(),
    ensures
        b == (t@.subrange(i as int, i + q@.len()) == q@),
{
    let mut k: usize = 0;
    let n = t.len();
    while k < q.len()
        invariant
            n == t@.len(),
            i + q@.len() <= t@.len(),
            k <= q@.len(),
            forall|j: int| 0 <= j < k ==> t@[i + j] == q@[j],
        decreases q.len() - k,
    {
        if t[i + k] != q[k] {
            assert(t@.subrange(i as int, i + q@.len())[k as int] != q@[k as int]);
            return false;
        }
        k += 1;
    }
    assert(t@.subrange(i as int, i + q@.len()) =~= q@);
    true
}

/// Byte offsets of the non-overlapping occurrences of `q` in `t`.
fn find_all(t: &Vec<char>, q: &Vec<char>) -> (hits: Vec<usize>)
    requires
        byte_len(t@) <= usize::MAX,
    ensures
        hits@ == occurrences_from(t@, q@, 0).map_values(|j: int| byte_len(t@.subrange(0, j)) as usize),
{
    let ghost all = occurrences_from(t@, q@, 0).map_values(
        |j: int| byte_len(t@.subrange(0, j)) as usize,
    );
    let mut hits: Vec<usize> = Vec::new();
    if q.len() == 0 {
        assert(all =~= Seq::<usize>::empty());
        return hits;
    }
    let n = t.len();
    let m = q.len();
    let mut i: usize = 0;
    let mut pos: usize = 0;
    assert(t@.subrange(0, 0) =~= Seq::<char>::empty());
    assert(hits@ + all =~= all);
    while m <= n - i
        invariant
            n == t@.len(),
            m == q@.len() > 0,
            byte_len(t@) <= usize::MAX,
            i <= n,
            pos == byte_len(t@.subrange(0, i as int)),
            all == occurrences_from(t@, q@, 0).map_values(
                |j: int| byte_len(t@.subrange(0, j)) as usize,
            ),
            hits@ + occurrences_from(t@, q@, i as int).map_values(
                |j: int| byte_len(t@.subrange(0, j)) as usize,
            ) == all,
        decreases n - i,
    {
        let ghost before = hits@;
        let step = if occurs_at(t, q, i) {
            hits.push(pos);
            proof {
                let rest = occurrences_from(t@, q@, i + m);
                let f = |j: int| byte_len(t@.subrange(0, j)) as usize;
                assert((seq![i as int] + rest).map_values(f) =~= seq![f(i as int)] + rest.map_values(f));
                assert(hits@ + rest.map_values(f) =~= before + (seq![i as int] + rest).map_values(f));
            }
            m
        } else {
            1
        };
        proof {
            lemma_byte_len_split3(t@, 0, i as int, i + step);
            lemma_byte_len_within(t@, 0, i + step);
            lemma_byte_len_within(t@, i as int, i + step);
        }
        let mut w: usize = 0;
        let mut k: usize = i;
        while k < i + step
            invariant
                i + step <= n == t@.len(),
                i <= k <= i + step,
                byte_len(t@.subrange(i as int, i + step)) <= usize::MAX,
                w == byte_len(t@.subrange(i as int, k as int)),
            decreases i + step - k,
        {
            proof {
                assert(t@.subrange(i as int, k + 1).drop_last() =~= t@.subrange(i as int, k as int));
                lemma_byte_len_split3(t@, i as int, k + 1, i + step);
            }
            w = w + char_len_utf8(t[k]);
            k += 1;
        }
        pos = pos + w;
        i = i + step;
    }
    proof {
        assert(i + m > n);
        assert(occurrences_from(t@, q@, i as int) =~= Seq::<int>::empty());
        assert(hits@ =~= hits@ + Seq::<int>::empty().map_values(
            |j: int| byte_len(t@.subrange(0, j)) as usize,
        ));
    }
    hits
}

/// Character offsets of the occurrences of the lower-cased query in the
/// lower-cased text: what `search_hits` is on ASCII text, where characters
/// and bytes coincide.
pub open spec fn ascii_search_hits(content: Seq<char>, query: Seq<char>) -> Seq<usize> {
    occurrences_from(ascii_lowercase(content), ascii_lowercase(query), 0).map_values(
        |j: int| j as usize,
    )
}

/// ASCII lower-casing keeps the length and gives ASCII text.
pub proof fn lemma_ascii_lowercase(s: Seq<char>)
    requires
        is_ascii_chars(s),
    ensures
        ascii_lowercase(s).len() == s.len(),
        is_ascii_chars(ascii_lowercase(s)),
{
    assert forall|i: int| 0 <= i < ascii_lowercase(s).len() implies '\0' <= #[trigger] ascii_lowercase(
        s,
    )[i] <= '\u{7f}' by {
        assert(ascii_lowercase(s)[i] == ascii_lower(s[i]));
        assert('\0' <= s[i] <= '\u{7f}');
    }
}

/// ASCII text has one byte per character.
pub proof fn lemma_ascii_byte_len(s: Seq<char>)
    requires
        is_ascii_chars(s),
    ensures
        byte_len(s) == s.len(),
    decreases s.len(),
{
    if s.len() > 0 {
        let t = s.drop_last();
        assert forall|i: int| 0 <= i < t.len() implies '\0' <= #[trigger] t[i] <= '\u{7f}' by {
            assert(t[i] == s[i]);
        }
        lemma_ascii_byte_len(t);
        assert('\0' <= s[s.len() - 1] <= '\u{7f}');
    }
}

proof fn lemma_ascii_hits(t: Seq<char>, q: Seq<char>)
    requires
        is_ascii_chars(t),
    ensures
        occurrences_from(t, q, 0).map_values(|j: int| byte_len(t.subrange(0, j)) as usize)
            == occurrences_from(t, q, 0).map_values(|j: int| j as usize),
{
    let o = occurrences_from(t, q, 0);
    lemma_occurrences(t, q, 0);
    assert forall|k: int| 0 <= k < o.len() implies byte_len(t.subrange(0, #[trigger] o[k]))
        == o[k] by {
        let u = t.subrange(0, o[k]);
        assert forall|i: int| 0 <= i < u.len() implies '\0' <= #[trigger] u[i] <= '\u{7f}' by {
            assert(u[i] == t[i]);
        }
        lemma_ascii_byte_len(u);
    }
    assert(o.map_values(|j: int| byte_len(t.subrange(0, j)) as usize) =~= o.map_values(
        |j: int| j as usize,
    ));
}

// ── Recent files ─────────────────────────────────────────────────────────────

pub open spec fn string_views(v: Seq<String>) -> Seq<Seq<char>> {
    v.map_values(|s: String| s@)
}

/// `s` without the entries that name the same file as `p`, in order.
pub open spec fn without_entry(s: Seq<Seq<char>>, p: Seq<char>) -> Seq<Seq<char>>
    decreases s.len(),
{
    if s.len() == 0 {
        Seq::empty()
    } else if paths_equal(s.last(), p) {
        without_entry(s.drop_last(), p)
    } else {
        without_entry(s.drop_last(), p).push(s.last())
    }
}

/// The recent list after opening `p`: `p` first, then the others that name
/// another file, in their order, at most `MAX_RECENT` in all.
pub open spec fn recent_after(s: Seq<Seq<char>>, p: Seq<char>) -> Seq<Seq<char>> {
    let l = seq![p] + without_entry(s, p);
    if l.len() <= MAX_RECENT {
        l
    } else {
        l.subrange(0, MAX_RECENT as int)
    }
}

/// The match after `idx` among `n` matches, wrapping to the first.
pub open spec fn next_index(idx: usize, n: usize) -> usize {
    ((idx + 1) % (n as int)) as usize
}

/// The match before `idx` among `n` matches, wrapping to the last.
pub open spec fn prev_index(idx: usize, n: usize) -> usize {
    if idx == 0 {
        (n - 1) as usize
    } else {
        (idx - 1) as usize
    }
}

/// Index of the first entry whose anchor is `anchor`.
pub open spec fn anchor_index(toc: Seq<TocEntry>, anchor: Seq<char>, from: int) -> Option<int>
    decreases toc.len() - from,
{
    if from < 0 || from >= toc.len() {
        None
    } else if toc[from].anchor@ == anchor {
        Some(from)
    } else {
        anchor_index(toc, anchor, from + 1)
    }
}

/// Index of the first entry of `toc` whose anchor is `anchor`.
fn find_anchor(toc: &Vec<TocEntry>, anchor: &str) -> (r: Option<usize>)
    ensures
        match r {
            Some(i) => anchor_index(toc@, anchor@, 0) == Some(i as int) && i < toc@.len() && i
                < usize::MAX,
            None => anchor_index(toc@, anchor@, 0) is None,
        },
{
    let a = chars_of(anchor);
    let mut i: usize = 0;
    while i < toc.len()
        invariant
            i <= toc@.len(),
            a@ == anchor@,
            anchor_index(toc@, anchor@, 0) == anchor_index(toc@, anchor@, i as int),
        decreases toc.len() - i,
    {
        let e = chars_of(toc[i].anchor.as_str());
        if crate::text::chars_equal(&e, &a) {
            return Some(i);
        }
        i += 1;
    }
    None
}

/// The anchor an in-document link points to: a URL starting with `#` names
/// the heading whose anchor is the rest; any other URL is left to the
/// browser.
pub fn internal_anchor(url: &str) -> (r: Option<String>)
    ensures
        url@.len() > 0 && url@[0] == '#' ==> (r matches Some(a) && a@ == url@.subrange(
            1,
            url@.len() as int,
        )),
        !(url@.len() > 0 && url@[0] == '#') ==> r is None,
{
    let v = chars_of(url);
    if v.len() > 0 && v[0] == '#' {
        Some(crate::text::string_of(&v, 1, v.len()))
    } else {
        None
    }
}

// ── Commands ──────────────────────────────────────────────────────────────────

/// The commands of the palette.
#[derive(Debug, Clone, Copy, PartialEq, Eq, Structural)]
pub enum Command {
    OpenFile,
    OpenFolder,
    ToggleTheme,
    ToggleSearch,
    ZoomIn,
    ZoomOut,
    ResetZoom,
    ShowOutline,
    ShowFiles,
    ToggleSidebar,
}

/// How reading aloud can begin.
#[derive(Debug)]
pub enum ReadAloudStart {
    /// Speech is already under way: nothing to do.
    Busy,
    /// No document is open; show this message.
    NoDocument(String),
    /// Read this Markdown.
    Read(String),
}

pub const OPEN_FILE_FIRST: &'static str = "Open a file before using text to speech";

pub const FINISHED_READING: &'static str = "Finished reading aloud";

pub const STOPPED_READING: &'static str = "Stopped reading aloud";

pub const SPEECH_ERROR: &'static str = "Text to speech error: ";

/// The reader's state that does not concern drawing.
pub struct MdApp {
    pub dark_mode: bool,
    pub sidebar_open: bool,
    pub sidebar_tab: SidebarTab,
    pub last_file: Option<String>,
    pub last_folder: Option<String>,
    pub recent_files: Vec<String>,
    pub document: Option<Document>,
    pub folder_entries: Vec<String>,
    pub search_open: bool,
    pub search_query: String,
    pub search_results: Vec<usize>,
    pub search_idx: usize,
    pub active_toc_idx: Option<usize>,
    /// Section index to scroll to on the next frame (set by TOC/anchor click).
    /// Section 0 = preamble; section i+1 = TOC entry i.
    pub pending_scroll: Option<usize>,
    /// Whether the YAML frontmatter panel is expanded.
    pub frontmatter_expanded: bool,
    pub cmd_palette: CommandPaletteState,
    pub tts_busy: bool,
}

/// Whether `q` occurs anywhere in `t`.
pub open spec fn contains_seq(t: Seq<char>, q: Seq<char>) -> bool {
    exists|i: int| 0 <= i && i + q.len() <= t.len() && #[trigger] t.subrange(i, i + q.len()) == q
}

/// Whether `q` occurs in `t`.
fn contains_chars(t: &Vec<char>, q: &Vec<char>) -> (b: bool)
    ensures
        b == contains_seq(t@, q@),
{
    let n = t.len();
    let m = q.len();
    if m > n {
        return false;
    }
    if m == 0 {
        assert(t@.subrange(0, 0int + q@.len()) =~= q@);
        return true;
    }
    let mut i: usize = 0;
    while i <= n - m
        invariant
            n == t@.len(),
            m == q@.len() <= n,
            m > 0,
            forall|j: int| 0 <= j < i ==> #[trigger] t@.subrange(j, j + m) != q@,
        decreases n - m + 1 - i,
    {
        if occurs_at(t, q, i) {
            return true;
        }
        i += 1;
    }
    false
}

/// Whether a palette entry is shown for the typed query: every entry for an
/// empty query, else those whose lower-cased label contains it.
pub fn command_matches(label: &str, query: &str) -> (b: bool)
    ensures
        b == (lowercase_of(query@).len() == 0 || contains_seq(
            lowercase_of(label@),
            lowercase_of(query@),
        )),
        is_ascii_chars(label@) && is_ascii_chars(query@) ==> b == (query@.len() == 0
            || contains_seq(ascii_lowercase(label@), ascii_lowercase(query@))),
{
    let q = str_to_lowercase(query);
    let qv = chars_of(q.as_str());
    proof {
        if is_ascii_chars(query@) {
            lemma_ascii_lowercase(query@);
        }
    }
    if qv.len() == 0 {
        return true;
    }
    let l = str_to_lowercase(label);
    let lv = chars_of(l.as_str());
    contains_chars(&lv, &qv)
}

/// The label of a command in the palette.
pub open spec fn label_of(c: Command) -> Seq<char> {
    match c {
        Command::OpenFile => "Open File"@,
        Command::OpenFolder => "Open Folder"@,
        Command::ToggleTheme => "Toggle Theme"@,
        Command::ToggleSearch => "Toggle Search"@,
        Command::ZoomIn => "Zoom In"@,
        Command::ZoomOut => "Zoom Out"@,
        Command::ResetZoom => "Reset Zoom"@,
        Command::ShowOutline => "Show Outline"@,
        Command::ShowFiles => "Show Files"@,
        Command::ToggleSidebar => "Toggle Sidebar"@,
    }
}

/// The keyboard shortcut shown beside a command; empty if it has none.
pub open spec fn hint_of(c: Command) -> Seq<char> {
    match c {
        Command::OpenFile => "Ctrl+O"@,
        Command::ToggleSearch => "Ctrl+F"@,
        Command::ZoomIn => "Ctrl++"@,
        Command::ZoomOut => "Ctrl+-"@,
        Command::ResetZoom => "Ctrl+0"@,
        _ => ""@,
    }
}

/// The label of a command in the palette.
pub fn command_label(c: Command) -> (l: &'static str)
    ensures
        l@ == label_of(c),
{
    match c {
        Command::OpenFile => "Open File",
        Command::OpenFolder => "Open Folder",
        Command::ToggleTheme => "Toggle Theme",
        Command::ToggleSearch => "Toggle Search",
        Command::ZoomIn => "Zoom In",
        Command::ZoomOut => "Zoom Out",
        Command::ResetZoom => "Reset Zoom",
        Command::ShowOutline => "Show Outline",
        Command::ShowFiles => "Show Files",
        Command::ToggleSidebar => "Toggle Sidebar",
    }
}

/// The keyboard shortcut shown beside a command, if any.
pub fn command_hint(c: Command) -> (h: &'static str)
    ensures
        h@ == hint_of(c),
{
    match c {
        Command::OpenFile => "Ctrl+O",
        Command::ToggleSearch => "Ctrl+F",
        Command::ZoomIn => "Ctrl++",
        Command::ZoomOut => "Ctrl+-",
        Command::ResetZoom => "Ctrl+0",
        _ => "",
    }
}

/// The commands in the order the palette lists them.
pub fn all_commands() -> (v: Vec<Command>)
    ensures
        v@ == seq![
            Command::OpenFile,
            Command::OpenFolder,
            Command::ToggleTheme,
            Command::ToggleSearch,
            Command::ZoomIn,
            Command::ZoomOut,
            Command::ResetZoom,
            Command::ShowOutline,
            Command::ShowFiles,
            Command::ToggleSidebar,
        ],
{
    let v = vec![
        Command::OpenFile,
        Command::OpenFolder,
        Command::ToggleTheme,
        Command::ToggleSearch,
        Command::ZoomIn,
        Command::ZoomOut,
        Command::ResetZoom,
        Command::ShowOutline,
        Command::ShowFiles,
        Command::ToggleSidebar,
    ];
    assert(v@ =~= seq![
        Command::OpenFile,
        Command::OpenFolder,
        Command::ToggleTheme,
        Command::ToggleSearch,
        Command::ZoomIn,
        Command::ZoomOut,
        Command::ResetZoom,
        Command::ShowOutline,
        Command::ShowFiles,
        Command::ToggleSidebar,
    ]);
    v
}

/// Estimated reading time in minutes: 200 words a minute, at least one.
pub fn read_minutes(word_count: usize) -> (m: usize)
    ensures
        m == (if word_count / 200 > 1 {
            word_count / 200
        } else {
            1
        }),
{
    let m = word_count / 200;
    if m > 1 {
        m
    } else {
        1
    }
}

/// The status message for the end of reading aloud.
pub fn speech_result_message(result: &Result<SpeechOutcome, String>) -> (m: String)
    ensures
        result matches Ok(SpeechOutcome::Finished) ==> m@ == FINISHED_READING@,
        result matches Ok(SpeechOutcome::Stopped) ==> m@ == STOPPED_READING@,
        result matches Err(e) ==> m@ == SPEECH_ERROR@ + e@,
{
    match result {
        Ok(SpeechOutcome::Finished) => FINISHED_READING.to_owned(),
        Ok(SpeechOutcome::Stopped) => STOPPED_READING.to_owned(),
        Err(e) => {
            let mut m = SPEECH_ERROR.to_owned();
            let v = chars_of(e.as_str());
            crate::text::push_range(&mut m, &v, 0, v.len());
            assert(v@.subrange(0, v@.len() as int) =~= v@);
            m
        },
    }
}

impl MdApp {
    /// Files and document are the same in both.
    pub open spec fn same_files(&self, o: &MdApp) -> bool {
        &&& self.last_file == o.last_file
        &&& self.last_folder == o.last_folder
        &&& self.recent_files == o.recent_files
        &&& self.document == o.document
        &&& self.folder_entries == o.folder_entries
    }

    /// Theme and sidebar are the same in both.
    pub open spec fn same_layout(&self, o: &MdApp) -> bool {
        &&& self.dark_mode == o.dark_mode
        &&& self.sidebar_open == o.sidebar_open
        &&& self.sidebar_tab == o.sidebar_tab
    }

    /// Search state is the same in both.
    pub open spec fn same_search(&self, o: &MdApp) -> bool {
        &&& self.search_open == o.search_open
        &&& self.search_query == o.search_query
        &&& self.search_results == o.search_results
        &&& self.search_idx == o.search_idx
    }

    /// Outline navigation is the same in both.
    pub open spec fn same_nav(&self, o: &MdApp) -> bool {
        &&& self.active_toc_idx == o.active_toc_idx
        &&& self.pending_scroll == o.pending_scroll
        &&& self.frontmatter_expanded == o.frontmatter_expanded
    }

    /// Palette and speech state are the same in both.
    pub open spec fn same_misc(&self, o: &MdApp) -> bool {
        &&& self.cmd_palette.open == o.cmd_palette.open
        &&& self.cmd_palette.query == o.cmd_palette.query
        &&& self.tts_busy == o.tts_busy
    }

    /// A reader with the persisted settings and nothing open.
    pub fn new(dark_mode: bool, sidebar_open: bool, sidebar_tab: SidebarTab, recent_files: Vec<
        String,
    >) -> (app: MdApp)
        ensures
            app.dark_mode == dark_mode,
            app.sidebar_open == sidebar_open,
            app.sidebar_tab == sidebar_tab,
            app.recent_files == recent_files,
            app.last_file is None && app.last_folder is None && app.document is None,
            app.folder_entries@.len() == 0,
            !app.search_open && app.search_query@.len() == 0 && app.search_results@.len() == 0
                && app.search_idx == 0,
            app.active_toc_idx is None && app.pending_scroll is None && !app.frontmatter_expanded,
            !app.cmd_palette.open && app.cmd_palette.query@.len() == 0 && !app.tts_busy,
    {
        MdApp {
            dark_mode,
            sidebar_open,
            sidebar_tab,
            last_file: None,
            last_folder: None,
            recent_files,
            document: None,
            folder_entries: Vec::new(),
            search_open: false,
            search_query: String::new(),
            search_results: Vec::new(),
            search_idx: 0,
            active_toc_idx: None,
            pending_scroll: None,
            frontmatter_expanded: false,
            cmd_palette: CommandPaletteState::default(),
            tts_busy: false,
        }
    }

    /// Find the query in the open document, ignoring case: the byte offsets
    /// of its non-overlapping occurrences in the lower-cased text. The current
    /// match goes back to the first.
    pub fn run_search(&mut self)
        ensures
            final(self).search_idx == 0,
            final(self).search_results@ == match old(self).document {
                Some(d) => if lowercase_of(old(self).search_query@).len() == 0 {
                    Seq::empty()
                } else {
                    search_hits(d.content@, old(self).search_query@)
                },
                None => Seq::<usize>::empty(),
            },
            match old(self).document {
                Some(d) => is_ascii_chars(d.content@) && is_ascii_chars(old(self).search_query@)
                    ==> final(self).search_results@
                    == ascii_search_hits(d.content@, old(self).search_query@),
                None => true,
            },
            final(self).search_open == old(self).search_open,
            final(self).search_query == old(self).search_query,
            final(self).same_files(&*old(self)),
            final(self).same_layout(&*old(self)),
            final(self).same_nav(&*old(self)),
            final(self).same_misc(&*old(self)),
    {
        self.search_results.clear();
        self.search_idx = 0;
        let query = str_to_lowercase(self.search_query.as_str());
        let qv = chars_of(query.as_str());
        if qv.len() == 0 {
            return;
        }
        match &self.document {
            Some(doc) => {
                let lower = str_to_lowercase(doc.content.as_str());
                let tv = chars_of(lower.as_str());
                proof {
                    if is_ascii_chars(doc.content@) && is_ascii_chars(self.search_query@) {
                        lemma_ascii_lowercase(doc.content@);
                        lemma_ascii_lowercase(self.search_query@);
                        lemma_ascii_byte_len(tv@);
                        lemma_ascii_hits(tv@, qv@);
                    }
                }
                let _ = str_byte_len(lower.as_str());
                self.search_results = find_all(&tv, &qv);
            },
            None => {},
        }
    }

    /// Number of whitespace-separated words in the open document.
    pub fn word_count(&self) -> (n: usize)
        ensures
            n == match self.document {
                Some(d) => words(d.content@).len(),
                None => 0,
            },
    {
        match &self.document {
            Some(d) => {
                let v = chars_of(d.content.as_str());
                assert(v@.subrange(0, v@.len() as int) =~= v@);
                word_ranges(&v, 0, v.len()).len()
            },
            None => 0,
        }
    }

    /// Put `path` at the front of the recent files, without duplicates, and
    /// keep at most `MAX_RECENT`.
    pub fn push_recent(&mut self, path: String)
        ensures
            string_views(final(self).recent_files@) == recent_after(
                string_views(old(self).recent_files@),
                path@,
            ),
            final(self).last_file == old(self).last_file,
            final(self).last_folder == old(self).last_folder,
            final(self).document == old(self).document,
            final(self).folder_entries == old(self).folder_entries,
            final(self).same_layout(&*old(self)),
            final(self).same_search(&*old(self)),
            final(self).same_nav(&*old(self)),
            final(self).same_misc(&*old(self)),
    {
        let ghost old_views = string_views(self.recent_files@);
        let mut kept: Vec<String> = Vec::new();
        let mut i: usize = 0;
        while i < self.recent_files.len()
            invariant
                i <= self.recent_files@.len(),
                old_views == string_views(self.recent_files@),
                string_views(kept@) == without_entry(old_views.subrange(0, i as int), path@),
            decreases self.recent_files.len() - i,
        {
            assert(old_views.subrange(0, i + 1).drop_last() =~= old_views.subrange(0, i as int));
            assert(old_views[i as int] == self.recent_files@[i as int]@);
            let ghost before = string_views(kept@);
            if !same_path(self.recent_files[i].as_str(), path.as_str()) {
                let p = self.recent_files[i].clone();
                kept.push(p);
                assert(string_views(kept@) =~= before.push(p@));
            }
            i += 1;
        }
        assert(old_views.subrange(0, old_views.len() as int) =~= old_views);
        let ghost pv = path@;
        kept.insert(0, path);
        assert(string_views(kept@) =~= seq![pv] + without_entry(old_views, pv));
        kept.truncate(MAX_RECENT);
        self.recent_files = kept;
    }

    /// The part of opening a file that concerns the reader's state: `doc`,
    /// read from `path`, becomes the open document.
    pub fn open_document(&mut self, path: String, doc: Document)
        ensures
            final(self).last_file == Some(path),
            final(self).document == Some(doc),
            final(self).active_toc_idx is None,
            final(self).pending_scroll is None,
            final(self).search_results@.len() == 0,
            string_views(final(self).recent_files@) == recent_after(
                string_views(old(self).recent_files@),
                path@,
            ),
            final(self).last_folder == old(self).last_folder,
            final(self).folder_entries == old(self).folder_entries,
            final(self).same_layout(&*old(self)),
            final(self).search_open == old(self).search_open,
            final(self).search_query == old(self).search_query,
            final(self).search_idx == old(self).search_idx,
            final(self).frontmatter_expanded == old(self).frontmatter_expanded,
            final(self).same_misc(&*old(self)),
    {
        self.last_file = Some(path.clone());
        self.active_toc_idx = None;
        self.pending_scroll = None;
        self.search_results.clear();
        self.document = Some(doc);
        self.push_recent(path);
        if self.sidebar_tab != SidebarTab::FileTree {
            self.sidebar_tab = SidebarTab::Outline;
        }
    }

    /// The part of scanning a folder that concerns the reader's state.
    pub fn set_folder(&mut self, path: String, entries: Vec<String>)
        ensures
            final(self).folder_entries == entries,
            final(self).last_folder == Some(path),
            final(self).last_file == old(self).last_file,
            final(self).recent_files == old(self).recent_files,
            final(self).document == old(self).document,
            final(self).same_layout(&*old(self)),
            final(self).same_search(&*old(self)),
            final(self).same_nav(&*old(self)),
            final(self).same_misc(&*old(self)),
    {
        self.folder_entries = entries;
        self.last_folder = Some(path);
    }

    /// Open or close the search box; closing forgets the matches.
    pub fn toggle_search(&mut self)
        ensures
            final(self).search_open == !old(self).search_open,
            final(self).search_results@ == if final(self).search_open {
                old(self).search_results@
            } else {
                Seq::<usize>::empty()
            },
            final(self).search_query == old(self).search_query,
            final(self).search_idx == old(self).search_idx,
            final(self).same_files(&*old(self)),
            final(self).same_layout(&*old(self)),
            final(self).same_nav(&*old(self)),
            final(self).same_misc(&*old(self)),
    {
        self.search_open = !self.search_open;
        if !self.search_open {
            self.search_results.clear();
        }
    }

    /// Close the search box and forget the query and its matches.
    pub fn close_search(&mut self)
        ensures
            !final(self).search_open,
            final(self).search_results@.len() == 0,
            final(self).search_query@.len() == 0,
            final(self).search_idx == old(self).search_idx,
            final(self).same_files(&*old(self)),
            final(self).same_layout(&*old(self)),
            final(self).same_nav(&*old(self)),
            final(self).same_misc(&*old(self)),
    {
        self.search_open = false;
        self.search_results.clear();
        self.search_query = String::new();
    }

    /// Move to the next match, wrapping around.
    pub fn next_match(&mut self)
        ensures
            final(self).search_idx == if old(self).search_results@.len() > 0 {
                next_index(old(self).search_idx, old(self).search_results@.len() as usize)
            } else {
                old(self).search_idx
            },
            final(self).search_open == old(self).search_open,
            final(self).search_query == old(self).search_query,
            final(self).search_results == old(self).search_results,
            final(self).same_files(&*old(self)),
            final(self).same_layout(&*old(self)),
            final(self).same_nav(&*old(self)),
            final(self).same_misc(&*old(self)),
    {
        if self.search_results.len() > 0 {
            self.search_idx = ((self.search_idx as u128 + 1) % (self.search_results.len() as u128)) as usize;
        }
    }

    /// Move to the previous match, wrapping around.
    pub fn prev_match(&mut self)
        ensures
            final(self).search_idx == if old(self).search_results@.len() > 0 {
                prev_index(old(self).search_idx, old(self).search_results@.len() as usize)
            } else {
                old(self).search_idx
            },
            final(self).search_open == old(self).search_open,
            final(self).search_query == old(self).search_query,
            final(self).search_results == old(self).search_results,
            final(self).same_files(&*old(self)),
            final(self).same_layout(&*old(self)),
            final(self).same_nav(&*old(self)),
            final(self).same_misc(&*old(self)),
    {
        if self.search_results.len() > 0 {
            if self.search_idx == 0 {
                self.search_idx = self.search_results.len() - 1;
            } else {
                self.search_idx = self.search_idx - 1;
            }
        }
    }

    /// Open or close the command palette; opening clears the query.
    pub fn toggle_command_palette(&mut self)
        ensures
            final(self).cmd_palette.open == !old(self).cmd_palette.open,
            final(self).cmd_palette.query@ == if final(self).cmd_palette.open {
                Seq::<char>::empty()
            } else {
                old(self).cmd_palette.query@
            },
            final(self).tts_busy == old(self).tts_busy,
            final(self).same_files(&*old(self)),
            final(self).same_layout(&*old(self)),
            final(self).same_search(&*old(self)),
            final(self).same_nav(&*old(self)),
    {
        self.cmd_palette.open = !self.cmd_palette.open;
        if self.cmd_palette.open {
            self.cmd_palette.query = String::new();
        }
    }

    /// Jump to outline entry `i`: it becomes active and its section
    /// (`i + 1`; section 0 is the preamble) is scrolled to.
    pub fn select_toc_entry(&mut self, i: usize)
        requires
            i < usize::MAX,
        ensures
            final(self).active_toc_idx == Some(i),
            final(self).pending_scroll == Some((i + 1) as usize),
            final(self).frontmatter_expanded == old(self).frontmatter_expanded,
            final(self).same_files(&*old(self)),
            final(self).same_layout(&*old(self)),
            final(self).same_search(&*old(self)),
            final(self).same_misc(&*old(self)),
    {
        self.active_toc_idx = Some(i);
        self.pending_scroll = Some(i + 1);
    }

    /// Follow an internal `#anchor` link: the first outline entry with that
    /// anchor becomes active and is scrolled to, and an open sidebar shows
    /// the outline. Without such an entry nothing changes.
    pub fn activate_toc_for_anchor(&mut self, anchor: &str)
        ensures
            match old(self).document {
                Some(d) => match anchor_index(d.toc@, anchor@, 0) {
                    Some(i) => final(self).active_toc_idx == Some(i as usize)
                        && final(self).pending_scroll == Some((i + 1) as usize)
                        && final(self).sidebar_tab == (if old(self).sidebar_open {
                        SidebarTab::Outline
                    } else {
                        old(self).sidebar_tab
                    }),
                    None => final(self).active_toc_idx == old(self).active_toc_idx
                        && final(self).pending_scroll == old(self).pending_scroll
                        && final(self).sidebar_tab == old(self).sidebar_tab,
                },
                None => final(self).active_toc_idx == old(self).active_toc_idx
                    && final(self).pending_scroll == old(self).pending_scroll
                    && final(self).sidebar_tab == old(self).sidebar_tab,
            },
            final(self).frontmatter_expanded == old(self).frontmatter_expanded,
            final(self).dark_mode == old(self).dark_mode,
            final(self).sidebar_open == old(self).sidebar_open,
            final(self).same_files(&*old(self)),
            final(self).same_search(&*old(self)),
            final(self).same_misc(&*old(self)),
    {
        let found = match &self.document {
            Some(doc) => find_anchor(&doc.toc, anchor),
            None => None,
        };
        if let Some(i) = found {
            self.active_toc_idx = Some(i);
            // section_ranges[i+1] corresponds to TOC entry i
            self.pending_scroll = Some(i + 1);
            if self.sidebar_open {
                self.sidebar_tab = SidebarTab::Outline;
            }
        }
    }

    /// Carry out a palette command on the reader's state. Theme changes
    /// also need the new theme applied; opening files and zooming are left
    /// to the caller, for which `false` is returned and nothing changes.
    pub fn apply_command(&mut self, c: Command) -> (handled: bool)
        ensures
            handled == (c != Command::OpenFile && c != Command::OpenFolder && c != Command::ZoomIn
                && c != Command::ZoomOut && c != Command::ResetZoom),
            final(self).dark_mode == (if c == Command::ToggleTheme {
                !old(self).dark_mode
            } else {
                old(self).dark_mode
            }),
            final(self).search_open == (if c == Command::ToggleSearch {
                !old(self).search_open
            } else {
                old(self).search_open
            }),
            final(self).search_results@ == (if c == Command::ToggleSearch && old(self).search_open {
                Seq::<usize>::empty()
            } else {
                old(self).search_results@
            }),
            final(self).sidebar_tab == (if c == Command::ShowOutline {
                SidebarTab::Outline
            } else if c == Command::ShowFiles {
                SidebarTab::FileTree
            } else {
                old(self).sidebar_tab
            }),
            final(self).sidebar_open == (if c == Command::ShowOutline || c == Command::ShowFiles {
                true
            } else if c == Command::ToggleSidebar {
                !old(self).sidebar_open
            } else {
                old(self).sidebar_open
            }),
            final(self).search_query == old(self).search_query,
            final(self).search_idx == old(self).search_idx,
            final(self).same_files(&*old(self)),
            final(self).same_nav(&*old(self)),
            final(self).same_misc(&*old(self)),
    {
        match c {
            Command::ToggleTheme => {
                self.dark_mode = !self.dark_mode;
                true
            },
            Command::ToggleSearch => {
                self.toggle_search();
                true
            },
            Command::ShowOutline => {
                self.sidebar_tab = SidebarTab::Outline;
                self.sidebar_open = true;
                true
            },
            Command::ShowFiles => {
                self.sidebar_tab = SidebarTab::FileTree;
                self.sidebar_open = true;
                true
            },
            Command::ToggleSidebar => {
                self.sidebar_open = !self.sidebar_open;
                true
            },
            _ => false,
        }
    }

    /// Open or close the sidebar.
    pub fn toggle_sidebar(&mut self)
        ensures
            final(self).sidebar_open == !old(self).sidebar_open,
            final(self).sidebar_tab == old(self).sidebar_tab,
            final(self).dark_mode == old(self).dark_mode,
            final(self).same_files(&*old(self)),
            final(self).same_search(&*old(self)),
            final(self).same_nav(&*old(self)),
            final(self).same_misc(&*old(self)),
    {
        self.sidebar_open = !self.sidebar_open;
    }

    /// Switch between the dark and the light theme.
    pub fn toggle_theme(&mut self)
        ensures
            final(self).dark_mode == !old(self).dark_mode,
            final(self).sidebar_open == old(self).sidebar_open,
            final(self).sidebar_tab == old(self).sidebar_tab,
            final(self).same_files(&*old(self)),
            final(self).same_search(&*old(self)),
            final(self).same_nav(&*old(self)),
            final(self).same_misc(&*old(self)),
    {
        self.dark_mode = !self.dark_mode;
    }

    /// Show `tab` in the sidebar.
    pub fn select_sidebar_tab(&mut self, tab: SidebarTab)
        ensures
            final(self).sidebar_tab == tab,
            final(self).sidebar_open == old(self).sidebar_open,
            final(self).dark_mode == old(self).dark_mode,
            final(self).same_files(&*old(self)),
            final(self).same_search(&*old(self)),
            final(self).same_nav(&*old(self)),
            final(self).same_misc(&*old(self)),
    {
        self.sidebar_tab = tab;
    }

    /// Close the command palette, keeping what was typed.
    pub fn close_command_palette(&mut self)
        ensures
            !final(self).cmd_palette.open,
            final(self).cmd_palette.query == old(self).cmd_palette.query,
            final(self).tts_busy == old(self).tts_busy,
            final(self).same_files(&*old(self)),
            final(self).same_layout(&*old(self)),
            final(self).same_search(&*old(self)),
            final(self).same_nav(&*old(self)),
    {
        self.cmd_palette.open = false;
    }

    /// Expand or collapse the front-matter panel.
    pub fn toggle_frontmatter(&mut self)
        ensures
            final(self).frontmatter_expanded == !old(self).frontmatter_expanded,
            final(self).active_toc_idx == old(self).active_toc_idx,
            final(self).pending_scroll == old(self).pending_scroll,
            final(self).same_files(&*old(self)),
            final(self).same_layout(&*old(self)),
            final(self).same_search(&*old(self)),
            final(self).same_misc(&*old(self)),
    {
        self.frontmatter_expanded = !self.frontmatter_expanded;
    }

    /// Whether section `section` is to be scrolled to now; a scroll request
    /// is answered once.
    pub fn scroll_due(&mut self, section: usize) -> (due: bool)
        ensures
            due == (old(self).pending_scroll == Some(section)),
            final(self).pending_scroll == (if due {
                None
            } else {
                old(self).pending_scroll
            }),
            final(self).active_toc_idx == old(self).active_toc_idx,
            final(self).frontmatter_expanded == old(self).frontmatter_expanded,
            final(self).same_files(&*old(self)),
            final(self).same_layout(&*old(self)),
            final(self).same_search(&*old(self)),
            final(self).same_misc(&*old(self)),
    {
        let due = match self.pending_scroll {
            Some(p) => p == section,
            None => false,
        };
        if due {
            self.pending_scroll = None;
        }
        due
    }

    /// Show the file tree in an open sidebar.
    pub fn show_file_tree(&mut self)
        ensures
            final(self).sidebar_tab == SidebarTab::FileTree,
            final(self).sidebar_open,
            final(self).dark_mode == old(self).dark_mode,
            final(self).same_files(&*old(self)),
            final(self).same_search(&*old(self)),
            final(self).same_nav(&*old(self)),
            final(self).same_misc(&*old(self)),
    {
        self.sidebar_tab = SidebarTab::FileTree;
        self.sidebar_open = true;
    }

    /// The open file changed on disk and was read again as `doc`: it replaces
    /// the document; navigation, search and the rest stay as they were.
    pub fn reload_document(&mut self, doc: Document)
        ensures
            final(self).document == Some(doc),
            final(self).last_file == old(self).last_file,
            final(self).last_folder == old(self).last_folder,
            final(self).recent_files == old(self).recent_files,
            final(self).folder_entries == old(self).folder_entries,
            final(self).same_layout(&*old(self)),
            final(self).same_search(&*old(self)),
            final(self).same_nav(&*old(self)),
            final(self).same_misc(&*old(self)),
    {
        self.document = Some(doc);
    }

    /// Reading aloud has started.
    pub fn start_read_aloud(&mut self)
        ensures
            final(self).tts_busy,
            final(self).cmd_palette.open == old(self).cmd_palette.open,
            final(self).cmd_palette.query == old(self).cmd_palette.query,
            final(self).same_files(&*old(self)),
            final(self).same_layout(&*old(self)),
            final(self).same_search(&*old(self)),
            final(self).same_nav(&*old(self)),
    {
        self.tts_busy = true;
    }

    /// Reading aloud has ended with `result`: the reader is free again, and
    /// the status message for the result is returned.
    pub fn finish_read_aloud(&mut self, result: &Result<SpeechOutcome, String>) -> (m: String)
        ensures
            !final(self).tts_busy,
            result matches Ok(SpeechOutcome::Finished) ==> m@ == FINISHED_READING@,
            result matches Ok(SpeechOutcome::Stopped) ==> m@ == STOPPED_READING@,
            result matches Err(e) ==> m@ == SPEECH_ERROR@ + e@,
            final(self).cmd_palette.open == old(self).cmd_palette.open,
            final(self).cmd_palette.query == old(self).cmd_palette.query,
            final(self).same_files(&*old(self)),
            final(self).same_layout(&*old(self)),
            final(self).same_search(&*old(self)),
            final(self).same_nav(&*old(self)),
    {
        self.tts_busy = false;
        speech_result_message(result)
    }

    /// Whether and what to read aloud.
    pub fn begin_read_aloud(&self) -> (r: ReadAloudStart)
        ensures
            self.tts_busy ==> r is Busy,
            !self.tts_busy && self.document is None ==> (r matches ReadAloudStart::NoDocument(m)
                && m@ == OPEN_FILE_FIRST@),
            !self.tts_busy && self.document is Some ==> (r matches ReadAloudStart::Read(t) && t@
                == self.document->0.content@),
    {
        if self.tts_busy {
            return ReadAloudStart::Busy;
        }
        match &self.document {
            Some(d) => ReadAloudStart::Read(d.content.clone()),
            None => ReadAloudStart::NoDocument(OPEN_FILE_FIRST.to_owned()),
        }
    }
}

// ── Start-up ──────────────────────────────────────────────────────────────────

/// One thing to do when the reader starts.
#[derive(Debug)]
pub enum LaunchStep {
    /// Open this file.
    OpenFile(String),
    /// Open this file if it exists.
    OpenFileIfExists(String),
    /// Scan this folder into the file tree.
    ScanFolder(String),
    /// Scan this folder into the file tree if it is a directory.
    ScanFolderIfDir(String),
    /// Show the file tree in an open sidebar.
    ShowFileTree,
    /// Remember the first of these files that exists.
    ChooseFirstExisting(Vec<String>),
    /// Open the file remembered by `ChooseFirstExisting`, if any.
    OpenChosen,
    /// Show this message in the status bar.
    Status(String),
}

pub open spec fn readme_names() -> Seq<Seq<char>> {
    seq![
        seq!['R', 'E', 'A', 'D', 'M', 'E', '.', 'm', 'd'],
        seq!['r', 'e', 'a', 'd', 'm', 'e', '.', 'm', 'd'],
        seq!['R', 'e', 'a', 'd', 'm', 'e', '.', 'm', 'd'],
    ]
}

/// `dir` joined with `name`.
fn join_name(dir: &str, name: &str) -> (r: String)
    ensures
        r@ == join_path(dir@, name@),
{
    let d = chars_of(dir);
    let n = chars_of(name);
    let mut r = String::new();
    crate::text::push_range(&mut r, &d, 0, d.len());
    if d.len() > 0 && d[d.len() - 1] != '/' {
        crate::text::push_char(&mut r, '/');
    }
    crate::text::push_range(&mut r, &n, 0, n.len());
    assert(d@.subrange(0, d@.len() as int) =~= d@);
    assert(n@.subrange(0, n@.len() as int) =~= n@);
    r
}

/// What to do at start-up for the launch argument, given the folder and file
/// of the previous session. A file or folder given on the command line takes
/// priority over the previous session; a folder opens its README if it has one.
pub fn launch_steps(launch: LaunchArg, last_folder: Option<String>, last_file: Option<String>) -> (steps: Vec<LaunchStep>)
    ensures
        ({
            let restore_folder = match last_folder {
                Some(f) => seq![LaunchStep::ScanFolderIfDir(f)],
                None => Seq::empty(),
            };
            let restore_file = match last_file {
                Some(f) => seq![LaunchStep::OpenFileIfExists(f)],
                None => Seq::empty(),
            };
            match launch {
                LaunchArg::File(p) => steps@ == seq![LaunchStep::OpenFile(p)] + restore_folder,
                LaunchArg::Dir(p) => steps@.len() == 4 && steps@[0] == LaunchStep::ShowFileTree
                    && (steps@[1] matches LaunchStep::ChooseFirstExisting(c) && c@.len() == 3
                    && forall|i: int| 0 <= i < 3 ==> (#[trigger] c@[i])@ == join_path(
                    p@,
                    readme_names()[i],
                )) && steps@[2] == LaunchStep::ScanFolder(p) && steps@[3] == LaunchStep::OpenChosen,
                LaunchArg::Error(m) => steps@ == seq![LaunchStep::Status(m)] + restore_folder
                    + restore_file,
                LaunchArg::NoArg => steps@ == restore_folder + restore_file,
            }
        }),
{
    let mut steps: Vec<LaunchStep> = Vec::new();
    match launch {
        LaunchArg::File(p) => {
            steps.push(LaunchStep::OpenFile(p));
            // still restore the folder, if any
            if let Some(f) = last_folder {
                steps.push(LaunchStep::ScanFolderIfDir(f));
            }
        },
        LaunchArg::Dir(p) => {
            steps.push(LaunchStep::ShowFileTree);
            let mut candidates: Vec<String> = Vec::new();
            candidates.push(join_name(p.as_str(), "README.md"));
            candidates.push(join_name(p.as_str(), "readme.md"));
            candidates.push(join_name(p.as_str(), "Readme.md"));
            proof {
                reveal_strlit("README.md");
                reveal_strlit("readme.md");
                reveal_strlit("Readme.md");
                assert("README.md"@ =~= readme_names()[0]);
                assert("readme.md"@ =~= readme_names()[1]);
                assert("Readme.md"@ =~= readme_names()[2]);
            }
            steps.push(LaunchStep::ChooseFirstExisting(candidates));
            steps.push(LaunchStep::ScanFolder(p));
            steps.push(LaunchStep::OpenChosen);
        },
        LaunchArg::Error(m) => {
            steps.push(LaunchStep::Status(m));
            // still restore the session
            if let Some(f) = last_folder {
                steps.push(LaunchStep::ScanFolderIfDir(f));
            }
            if let Some(f) = last_file {
                steps.push(LaunchStep::OpenFileIfExists(f));
            }
        },
        LaunchArg::NoArg => {
            if let Some(f) = last_folder {
                steps.push(LaunchStep::ScanFolderIfDir(f));
            }
            if let Some(f) = last_file {
                steps.push(LaunchStep::OpenFileIfExists(f));
            }
        },
    }
    steps
}

// ── File watching ─────────────────────────────────────────────────────────────

/// The kinds of file-system events the watcher tells apart.
#[derive(Debug, Clone, Copy, PartialEq, Eq, Structural)]
pub enum WatchEventKind {
    Create,
    Modify,
    Other,
}

/// Whether an event on the watched file calls for a reload: it was created
/// or modified.
pub fn is_reload_event(kind: WatchEventKind) -> (b: bool)
    ensures
        b == (kind == WatchEventKind::Create || kind == WatchEventKind::Modify),
{
    match kind {
        WatchEventKind::Create | WatchEventKind::Modify => true,
        WatchEventKind::Other => false,
    }
}

// ── Timing ────────────────────────────────────────────────────────────────────

/// Milliseconds that must pass after a reload before a change is reloaded
/// again.
pub const RELOAD_DEBOUNCE_MS: u128 = 300;

/// Seconds a status message stays on screen.
pub const STATUS_SECONDS: u64 = 4;

/// Whether a change reported `elapsed_ms` milliseconds after the last reload
/// is reloaded: only once more than the debounce interval has passed.
pub fn reload_due(elapsed_ms: u128) -> (b: bool)
    ensures
        b == (elapsed_ms > RELOAD_DEBOUNCE_MS),
{
    elapsed_ms > RELOAD_DEBOUNCE_MS
}

/// Whether a status message shown `elapsed_secs` whole seconds ago is
/// taken down.
pub fn status_expired(elapsed_secs: u64) -> (b: bool)
    ensures
        b == (elapsed_secs > STATUS_SECONDS),
{
    elapsed_secs > STATUS_SECONDS
}

// ── Laws ──────────────────────────────────────────────────────────────────────

proof fn lemma_without_entry(s: Seq<Seq<char>>, p: Seq<char>)
    ensures
        without_entry(s, p).len() <= s.len(),
        forall|k: int|
            0 <= k < without_entry(s, p).len() ==> !paths_equal(#[trigger] without_entry(s, p)[k], p)
                && s.contains(without_entry(s, p)[k]),
        no_same_paths(s) ==> no_same_paths(without_entry(s, p)),
    decreases s.len(),
{
    if s.len() > 0 {
        let t = s.drop_last();
        lemma_without_entry(t, p);
        let w = without_entry(t, p);
        let we = without_entry(s, p);
        assert forall|k: int| 0 <= k < we.len() implies !paths_equal(#[trigger] we[k], p) && s.contains(
            we[k],
        ) by {
            if k < w.len() {
                assert(we[k] == w[k]);
                let j = choose|j: int| 0 <= j < t.len() && t[j] == w[k];
                assert(s[j] == w[k]);
            } else {
                assert(we[k] == s.last());
                assert(s[s.len() - 1] == s.last());
            }
        }
        if no_same_paths(s) {
            assert forall|i: int, j: int| 0 <= i < j < t.len() implies !paths_equal(
                #[trigger] t[i],
                #[trigger] t[j],
            ) by {
                assert(t[i] == s[i] && t[j] == s[j]);
            }
            if !paths_equal(s.last(), p) {
                assert forall|i: int, j: int| 0 <= i < j < we.len() implies !paths_equal(
                    #[trigger] we[i],
                    #[trigger] we[j],
                ) by {
                    if j < w.len() {
                        assert(we[i] == w[i] && we[j] == w[j]);
                    } else {
                        assert(we[i] == w[i] && we[j] == s.last());
                        let m = choose|m: int| 0 <= m < t.len() && t[m] == w[i];
                        assert(s[m] == w[i] && s[s.len() - 1] == s.last());
                        assert(!paths_equal(s[m], s[s.len() - 1]));
                    }
                }
            }
        }
    }
}

/// No two entries name the same file.
pub open spec fn no_same_paths(s: Seq<Seq<char>>) -> bool {
    forall|i: int, j: int| 0 <= i < j < s.len() ==> !paths_equal(#[trigger] s[i], #[trigger] s[j])
}

/// After opening a file the recent list starts with it, holds no other
/// entry naming the same file, holds only files that were in the list
/// before, and has at most `MAX_RECENT` entries; a list in which no two
/// entries name the same file stays so.
pub proof fn lemma_recent_after(s: Seq<Seq<char>>, p: Seq<char>)
    ensures
        ({
            let r = recent_after(s, p);
            &&& 1 <= r.len() <= MAX_RECENT
            &&& r[0] == p
            &&& forall|k: int| 1 <= k < r.len() ==> !paths_equal(#[trigger] r[k], p) && s.contains(r[k])
            &&& no_same_paths(s) ==> no_same_paths(r)
        }),
{
    lemma_without_entry(s, p);
    let w = without_entry(s, p);
    let l = seq![p] + w;
    let r = recent_after(s, p);
    assert forall|k: int| 1 <= k < r.len() implies !paths_equal(#[trigger] r[k], p) && s.contains(r[k]) by {
        assert(r[k] == l[k]);
        assert(l[k] == w[k - 1]);
    }
    if no_same_paths(s) {
        assert forall|i: int, j: int| 0 <= i < j < r.len() implies !paths_equal(
            #[trigger] r[i],
            #[trigger] r[j],
        ) by {
            assert(r[j] == w[j - 1]);
            if i == 0 {
                assert(r[i] == p);
            } else {
                assert(r[i] == w[i - 1]);
            }
        }
    }
}

/// A list with no entry naming the file `p` keeps all its entries.
proof fn lemma_without_entry_none(s: Seq<Seq<char>>, p: Seq<char>)
    requires
        forall|k: int| 0 <= k < s.len() ==> !paths_equal(#[trigger] s[k], p),
    ensures
        without_entry(s, p) == s,
    decreases s.len(),
{
    if s.len() > 0 {
        let t = s.drop_last();
        assert forall|k: int| 0 <= k < t.len() implies !paths_equal(#[trigger] t[k], p) by {
            assert(t[k] == s[k]);
        }
        lemma_without_entry_none(t, p);
        assert(!paths_equal(s[s.len() - 1], p));
        assert(t.push(s.last()) =~= s);
    }
}

/// Opening a file drops only the oldest entries: the new list is the opened
/// file followed by the other files in their order, cut to `MAX_RECENT`
/// from the old end. In particular, opening a file that is not in a full or
/// non-empty list moves every entry one place down, the newest old entry
/// coming second and only the oldest falling off.
pub proof fn lemma_recent_keeps_newest(s: Seq<Seq<char>>, p: Seq<char>)
    ensures
        ({
            let r = recent_after(s, p);
            let l = seq![p] + without_entry(s, p);
            &&& r.len() == (if l.len() <= MAX_RECENT {
                l.len() as int
            } else {
                MAX_RECENT as int
            })
            &&& forall|k: int| 0 <= k < r.len() ==> #[trigger] r[k] == l[k]
        }),
        (forall|k: int| 0 <= k < s.len() ==> !paths_equal(#[trigger] s[k], p)) ==> ({
            let r = recent_after(s, p);
            &&& r.len() == (if s.len() + 1 <= MAX_RECENT {
                s.len() + 1int
            } else {
                MAX_RECENT as int
            })
            &&& forall|k: int| 1 <= k < r.len() ==> #[trigger] r[k] == s[k - 1]
        }),
{
    let r = recent_after(s, p);
    let l = seq![p] + without_entry(s, p);
    assert forall|k: int| 0 <= k < r.len() implies #[trigger] r[k] == l[k] by {}
    if forall|k: int| 0 <= k < s.len() ==> !paths_equal(#[trigger] s[k], p) {
        lemma_without_entry_none(s, p);
        assert forall|k: int| 1 <= k < r.len() implies #[trigger] r[k] == s[k - 1] by {
            assert(r[k] == l[k]);
        }
    }
}

/// Stepping to the next match and back, or back and then forward, returns
/// to the same match.
pub proof fn lemma_match_navigation(idx: usize, n: usize)
    requires
        idx < n,
    ensures
        prev_index(next_index(idx, n), n) == idx,
        next_index(prev_index(idx, n), n) == idx,
        next_index(idx, n) < n,
        prev_index(idx, n) < n,
{
    if idx + 1 < n {
        assert((idx + 1) % (n as int) == idx + 1) by (nonlinear_arith)
            requires
                0 <= idx + 1 < n,
        ;
    } else {
        assert((idx + 1) % (n as int) == 0) by (nonlinear_arith)
            requires
                idx + 1 == n,
        ;
    }
    if idx == 0 {
        assert(((n - 1) + 1) % (n as int) == 0) by (nonlinear_arith)
            requires
                n > 0,
        ;
    } else {
        assert(((idx - 1) + 1) % (n as int) == idx) by (nonlinear_arith)
            requires
                0 < idx < n,
        ;
    }
}

proof fn lemma_occurrences(t: Seq<char>, q: Seq<char>, i: int)
    ensures
        ({
            let o = occurrences_from(t, q, i);
            &&& forall|k: int|
                0 <= k < o.len() ==> i <= #[trigger] o[k] && o[k] + q.len() <= t.len() && t.subrange(
                    o[k],
                    o[k] + q.len(),
                ) == q
            &&& forall|k: int| 0 <= k < o.len() - 1 ==> #[trigger] o[k] + q.len() <= o[k + 1]
        }),
    decreases t.len() - i,
{
    if !(q.len() == 0 || i < 0 || i + q.len() > t.len()) {
        if t.subrange(i, i + q.len() as int) == q {
            lemma_occurrences(t, q, i + q.len());
            let rest = occurrences_from(t, q, i + q.len());
            let o = occurrences_from(t, q, i);
            assert(o == seq![i] + rest);
            assert forall|k: int| 0 <= k < o.len() - 1 implies #[trigger] o[k] + q.len() <= o[k + 1] by {
                assert(o[k + 1] == rest[k]);
                if k > 0 {
                    assert(o[k] == rest[k - 1]);
                }
            }
            assert forall|k: int| 0 <= k < o.len() implies i <= #[trigger] o[k] && o[k] + q.len()
                <= t.len() && t.subrange(o[k], o[k] + q.len()) == q by {
                if k > 0 {
                    assert(o[k] == rest[k - 1]);
                }
            }
        } else {
            lemma_occurrences(t, q, i + 1);
            assert(occurrences_from(t, q, i) == occurrences_from(t, q, i + 1));
        }
    } else {
        assert(occurrences_from(t, q, i) =~= Seq::<int>::empty());
    }
}

/// `q` occurs in `t` at `j`.
pub open spec fn occurs(t: Seq<char>, q: Seq<char>, j: int) -> bool {
    0 <= j && j + q.len() <= t.len() && t.subrange(j, j + q.len()) == q
}

proof fn lemma_occurrences_complete(t: Seq<char>, q: Seq<char>, i: int)
    requires
        q.len() > 0,
        0 <= i,
    ensures
        ({
            let o = occurrences_from(t, q, i);
            &&& o.len() == 0 ==> forall|j: int| i <= j ==> !#[trigger] occurs(t, q, j)
            &&& o.len() > 0 ==> forall|j: int| i <= j < o[0] ==> !#[trigger] occurs(t, q, j)
            &&& forall|k: int, j: int|
                #![trigger o[k], occurs(t, q, j)]
                0 <= k < o.len() - 1 && o[k] + q.len() <= j < o[k + 1] ==> !occurs(t, q, j)
            &&& o.len() > 0 ==> forall|j: int| o[o.len() - 1] + q.len() <= j ==> !#[trigger] occurs(t, q, j)
        }),
    decreases t.len() - i,
{
    let o = occurrences_from(t, q, i);
    if i + q.len() > t.len() {
        assert forall|j: int| i <= j implies !#[trigger] occurs(t, q, j) by {}
    } else if t.subrange(i, i + q.len() as int) == q {
        lemma_occurrences_complete(t, q, i + q.len());
        let rest = occurrences_from(t, q, i + q.len());
        assert(o == seq![i] + rest);
        assert forall|k: int, j: int|
            #![trigger o[k], occurs(t, q, j)]
            0 <= k < o.len() - 1 && o[k] + q.len() <= j < o[k + 1] implies !occurs(t, q, j) by {
            if k == 0 {
                assert(o[0] == i);
                assert(o[1] == rest[0]);
            } else {
                assert(o[k] == rest[k - 1]);
                assert(o[k + 1] == rest[k]);
            }
        }
        if rest.len() > 0 {
            assert(o[o.len() - 1] == rest[rest.len() - 1]);
        }
    } else {
        lemma_occurrences_complete(t, q, i + 1);
        let rest = occurrences_from(t, q, i + 1);
        assert(o == rest);
        assert(!occurs(t, q, i));
    }
}

/// The search misses nothing: with `o` the matches (as character indices in
/// the lower-cased text), no occurrence of the lower-cased query starts
/// before the first match, between the end of one match and the start of the
/// next, or after the end of the last; without matches there is no
/// occurrence at all. So every occurrence that does not overlap an earlier
/// match is reported, a match right after another included.
pub proof fn lemma_search_complete(content: Seq<char>, query: Seq<char>)
    requires
        lowercase_of(query).len() > 0,
    ensures
        ({
            let t = lowercase_of(content);
            let q = lowercase_of(query);
            let o = occurrences_from(t, q, 0);
            &&& o.len() == 0 ==> forall|j: int| !#[trigger] occurs(t, q, j)
            &&& o.len() > 0 ==> forall|j: int| j < o[0] ==> !#[trigger] occurs(t, q, j)
            &&& forall|k: int, j: int|
                #![trigger o[k], occurs(t, q, j)]
                0 <= k < o.len() - 1 && o[k] + q.len() <= j < o[k + 1] ==> !occurs(t, q, j)
            &&& o.len() > 0 ==> forall|j: int| o[o.len() - 1] + q.len() <= j ==> !#[trigger] occurs(t, q, j)
            &&& forall|k: int| 0 <= k < o.len() ==> #[trigger] occurs(t, q, o[k])
            &&& forall|k: int| 0 <= k < o.len() - 1 ==> #[trigger] o[k] + q.len() <= o[k + 1]
        }),
{
    let t = lowercase_of(content);
    let q = lowercase_of(query);
    lemma_occurrences_complete(t, q, 0);
    lemma_occurrences(t, q, 0);
    let o = occurrences_from(t, q, 0);
    assert forall|k: int| 0 <= k < o.len() implies #[trigger] occurs(t, q, o[k]) by {}
}

/// Search results are occurrences of the lower-cased query in the
/// lower-cased text, left to right and not overlapping; their byte offsets
/// rise strictly.
pub proof fn lemma_search_hits(content: Seq<char>, query: Seq<char>)
    ensures
        ({
            let t = lowercase_of(content);
            let q = lowercase_of(query);
            let o = occurrences_from(t, q, 0);
            let h = search_hits(content, query);
            &&& h.len() == o.len()
            &&& forall|k: int|
                0 <= k < o.len() ==> 0 <= #[trigger] o[k] && o[k] + q.len() <= t.len() && t.subrange(
                    o[k],
                    o[k] + q.len(),
                ) == q
            &&& forall|k: int| 0 <= k < o.len() - 1 ==> #[trigger] o[k] + q.len() <= o[k + 1]
            &&& byte_len(t) <= usize::MAX ==> forall|k1: int, k2: int|
                0 <= k1 < k2 < h.len() ==> #[trigger] h[k1] < #[trigger] h[k2]
        }),
{
    let t = lowercase_of(content);
    let q = lowercase_of(query);
    let o = occurrences_from(t, q, 0);
    let h = search_hits(content, query);
    lemma_occurrences(t, q, 0);
    if byte_len(t) <= usize::MAX {
        assert forall|k1: int, k2: int| 0 <= k1 < k2 < h.len() implies #[trigger] h[k1] < #[trigger] h[k2] by {
            lemma_occurrences_sorted(o, q.len() as int, k1, k2);
            crate::text::lemma_byte_len_split3(t, 0, o[k1], o[k2]);
            crate::text::lemma_byte_len_bounds(t.subrange(o[k1], o[k2]));
            lemma_byte_len_within(t, 0, o[k2]);
        }
    }
}

proof fn lemma_occurrences_sorted(o: Seq<int>, m: int, k1: int, k2: int)
    requires
        forall|k: int| 0 <= k < o.len() - 1 ==> #[trigger] o[k] + m <= o[k + 1],
        0 <= k1 < k2 < o.len(),
        m > 0,
    ensures
        o[k1] < o[k2],
    decreases k2 - k1,
{
    assert(o[k2 - 1] + m <= o[k2]);
    if k1 < k2 - 1 {
        lemma_occurrences_sorted(o, m, k1, k2 - 1);
    }
}

} // verus!
