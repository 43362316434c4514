//! Application state and input handling (no rendering, no I/O).
//!
//! The state machine of the review screen: which file, conflict region and
//! column is in focus, how far the panes are scrolled, and which column each
//! region is resolved to. Keys come in as [`Key`] values; work that needs the
//! outside world (writing a file, reloading from `jj`, opening an editor) is
//! handed back as an [`Action`], and its outcome is fed in again through
//! [`App::after_write`], [`App::after_refresh`], [`App::after_edit`] and
//! [`App::reload`].

use vstd::prelude::*;
use crate::conflict::{
    choice_at, spec_columns, spec_fully_resolved, spec_regions, spec_render, spec_title, Accept,
    Column, ParsedFile, ParsedView, TermView,
};
use crate::jj::{ConflictEntry, EntryView};
use crate::parser::{parse, spec_parse};
use crate::text::decimal;

verus! {

broadcast use vstd::string::group_string_axioms;

// ---------------------------------------------------------------------------
// Keys and actions
// ---------------------------------------------------------------------------

/// The key that was pressed.
#[derive(Debug, Clone, Copy, PartialEq, Eq, Structural)]
pub enum KeyCode {
    Char(char),
    Up,
    Down,
    Left,
    Right,
    Tab,
    BackTab,
    Enter,
    Esc,
    /// Any key this screen has no use for.
    Other,
}

/// A key press: the key and whether Control was held.
#[derive(Debug, Clone, Copy, PartialEq, Eq, Structural)]
pub struct Key {
    pub code: KeyCode,
    pub ctrl: bool,
}

/// What the main loop should do after handling a key.
pub enum Action {
    /// Nothing to do but redraw.
    Continue,
    OpenEditor,
    Quit,
    /// Write `content` to the file at `path` (repo-relative), then report
    /// through [`App::after_write`]; `fully` tells whether every region of
    /// the file was resolved.
    Write { path: String, content: String, fully: bool },
    /// Reload the conflicts from `jj`, then report through
    /// [`App::after_refresh`].
    Refresh,
}

/// The text of an [`Action`].
pub enum ActionView {
    Continue,
    OpenEditor,
    Quit,
    Write { path: Seq<char>, content: Seq<char>, fully: bool },
    Refresh,
}

impl View for Action {
    type V = ActionView;

    open spec fn view(&self) -> ActionView {
        match self {
            Action::Continue => ActionView::Continue,
            Action::OpenEditor => ActionView::OpenEditor,
            Action::Quit => ActionView::Quit,
            Action::Write { path, content, fully } => ActionView::Write {
                path: path@,
                content: content@,
                fully: *fully,
            },
            Action::Refresh => ActionView::Refresh,
        }
    }
}

// ---------------------------------------------------------------------------
// Files
// ---------------------------------------------------------------------------

/// State for one conflicted file.
pub struct FileState {
    pub entry: ConflictEntry,
    pub parsed: ParsedFile,
    /// Per-region chosen column index (`None` = unresolved).
    pub resolutions: Vec<Option<usize>>,
}

/// The text of a [`FileState`].
pub struct FileView {
    pub entry: EntryView,
    pub parsed: ParsedView,
    pub resolutions: Seq<Option<usize>>,
}

impl View for FileState {
    type V = FileView;

    open spec fn view(&self) -> FileView {
        FileView { entry: self.entry@, parsed: self.parsed@, resolutions: self.resolutions@ }
    }
}

/// The number of conflict regions of a file.
pub open spec fn region_total(f: FileView) -> nat {
    spec_regions(f.parsed.segments).len()
}

/// A chosen column as a resolution of its region.
pub open spec fn as_accept(o: Option<usize>) -> Option<Accept> {
    match o {
        Some(i) => Some(Accept::Side(i)),
        None => None,
    }
}

/// The resolutions of a file as [`Accept`] choices.
pub open spec fn as_accepts(res: Seq<Option<usize>>) -> Seq<Option<Accept>> {
    Seq::new(res.len(), |i: int| as_accept(res[i]))
}

/// How many regions have a chosen column.
pub open spec fn count_chosen(res: Seq<Option<usize>>) -> nat
    decreases res.len(),
{
    if res.len() == 0 {
        0
    } else {
        count_chosen(res.drop_last()) + if res.last() is Some {
            1nat
        } else {
            0nat
        }
    }
}

impl FileState {
    /// The state of a freshly loaded file: its text parsed, nothing resolved.
    pub fn from_text(entry: ConflictEntry, text: &str) -> (res: FileState)
        ensures
            res@.entry == entry@,
            res@.parsed == spec_parse(text@),
            res@.resolutions.len() == region_total(res@),
            forall|i: int| 0 <= i < res@.resolutions.len() ==> #[trigger] res@.resolutions[i] is None,
    {
        let parsed = parse(text);
        let n = parsed.region_count();
        let mut resolutions: Vec<Option<usize>> = Vec::new();
        let mut i: usize = 0;
        while i < n
            invariant
                i <= n,
                resolutions@.len() == i,
                forall|k: int| 0 <= k < i ==> #[trigger] resolutions@[k] is None,
            decreases n - i,
        {
            resolutions.push(None);
            i += 1;
        }
        FileState { entry, parsed, resolutions }
    }

    /// The resolutions as [`Accept`] choices.
    pub fn accepts(&self) -> (res: Vec<Option<Accept>>)
        ensures
            res@ == as_accepts(self@.resolutions),
    {
        let mut out: Vec<Option<Accept>> = Vec::new();
        let mut i: usize = 0;
        while i < self.resolutions.len()
            invariant
                i <= self.resolutions@.len(),
                out@.len() == i,
                forall|k: int| 0 <= k < i ==> #[trigger] out@[k] == as_accept(self.resolutions@[k]),
            decreases self.resolutions@.len() - i,
        {
            let a = match self.resolutions[i] {
                Some(c) => Some(Accept::Side(c)),
                None => None,
            };
            out.push(a);
            i += 1;
        }
        assert(out@ =~= as_accepts(self@.resolutions));
        out
    }

    /// Whether every region has a chosen column.
    pub fn is_fully_resolved(&self) -> (res: bool)
        ensures
            res == spec_fully_resolved(self@.parsed, as_accepts(self@.resolutions)),
    {
        let accepts = self.accepts();
        self.parsed.fully_resolved(accepts.as_slice())
    }

    /// Whether some region has a chosen column.
    pub fn has_staged(&self) -> (res: bool)
        ensures
            res == exists|i: int| 0 <= i < self@.resolutions.len() && #[trigger] self@.resolutions[i] is Some,
    {
        let mut i: usize = 0;
        while i < self.resolutions.len()
            invariant
                i <= self.resolutions@.len(),
                forall|k: int| 0 <= k < i ==> #[trigger] self.resolutions@[k] is None,
            decreases self.resolutions@.len() - i,
        {
            if self.resolutions[i].is_some() {
                return true;
            }
            i += 1;
        }
        false
    }

    /// How many regions have a chosen column.
    pub fn resolved_count(&self) -> (res: usize)
        ensures
            res == count_chosen(self@.resolutions),
    {
        let mut n: usize = 0;
        let mut i: usize = 0;
        while i < self.resolutions.len()
            invariant
                i <= self.resolutions@.len(),
                n <= i,
                n == count_chosen(self.resolutions@.take(i as int)),
            decreases self.resolutions@.len() - i,
        {
            assert(self.resolutions@.take(i + 1).drop_last() =~= self.resolutions@.take(i as int));
            if self.resolutions[i].is_some() {
                n += 1;
            }
            i += 1;
        }
        assert(self.resolutions@.take(i as int) =~= self.resolutions@);
        n
    }

    /// The file text with the chosen columns in place of their regions.
    pub fn rendered(&self) -> (res: String)
        ensures
            res@ == spec_render(self@.parsed, as_accepts(self@.resolutions)),
    {
        let accepts = self.accepts();
        self.parsed.render(accepts.as_slice())
    }
}

// ---------------------------------------------------------------------------
// The application state
// ---------------------------------------------------------------------------

/// The review screen's state.
pub struct App {
    pub files: Vec<FileState>,
    pub selected_file: usize,
    /// Current conflict region within the selected file.
    pub region: usize,
    /// Focused comparison column within the current region.
    pub column: usize,
    /// Synced vertical scroll across columns.
    pub vscroll: u16,
    /// How many lines the panes show; half of it is one half-page scroll.
    pub page: u16,
    pub status: String,
    pub show_help: bool,
    pub show_preview: bool,
    /// True after a lone `g`, awaiting a second `g` (vim `gg`).
    pub pending_g: bool,
}

/// The abstract state of an [`App`].
pub struct AppView {
    pub files: Seq<FileView>,
    pub selected_file: usize,
    pub region: usize,
    pub column: usize,
    pub vscroll: u16,
    pub page: u16,
    pub status: Seq<char>,
    pub show_help: bool,
    pub show_preview: bool,
    pub pending_g: bool,
}

impl View for App {
    type V = AppView;

    open spec fn view(&self) -> AppView {
        AppView {
            files: self.files@.map_values(|f: FileState| f@),
            selected_file: self.selected_file,
            region: self.region,
            column: self.column,
            vscroll: self.vscroll,
            page: self.page,
            status: self.status@,
            show_help: self.show_help,
            show_preview: self.show_preview,
            pending_g: self.pending_g,
        }
    }
}

/// The selected file, if the selection names one.
pub open spec fn current_file(s: AppView) -> Option<FileView> {
    if s.selected_file < s.files.len() {
        Some(s.files[s.selected_file as int])
    } else {
        None
    }
}

/// The number of regions of the selected file (none without one).
pub open spec fn current_total(s: AppView) -> nat {
    match current_file(s) {
        Some(f) => region_total(f),
        None => 0,
    }
}

/// The columns of the current region (none if there is no such region).
pub open spec fn current_columns(s: AppView) -> Seq<TermView> {
    match current_file(s) {
        Some(f) => if s.region < region_total(f) {
            spec_columns(spec_regions(f.parsed.segments)[s.region as int].terms)
        } else {
            Seq::empty()
        },
        None => Seq::empty(),
    }
}

/// The greatest number of content lines among the columns.
pub open spec fn tallest(cols: Seq<TermView>) -> nat
    decreases cols.len(),
{
    if cols.len() == 0 {
        0
    } else {
        let prev = tallest(cols.drop_last());
        let h = cols.last().content.len();
        if h > prev {
            h
        } else {
            prev
        }
    }
}

/// How far the panes can scroll: to the last line of the tallest column.
pub open spec fn scroll_limit(s: AppView) -> u16 {
    let h = tallest(current_columns(s));
    if h == 0 {
        0
    } else {
        (h - 1) as u16
    }
}

/// The state with every index brought within bounds.
pub open spec fn clamped(s: AppView) -> AppView {
    if s.files.len() == 0 {
        AppView { selected_file: 0, region: 0, column: 0, vscroll: 0, ..s }
    } else {
        let sel = if s.selected_file >= s.files.len() {
            (s.files.len() - 1) as usize
        } else {
            s.selected_file
        };
        let s1 = AppView { selected_file: sel, ..s };
        let regions = current_total(s1);
        let region = if regions == 0 {
            0
        } else if s.region < regions - 1 {
            s.region
        } else {
            (regions - 1) as usize
        };
        let s2 = AppView { region: region, ..s1 };
        let cols = current_columns(s2).len();
        let column = if cols == 0 {
            0
        } else if s.column < cols - 1 {
            s.column
        } else {
            (cols - 1) as usize
        };
        let s3 = AppView { column: column, ..s2 };
        let limit = scroll_limit(s3);
        AppView {
            vscroll: if s.vscroll < limit {
                s.vscroll
            } else {
                limit
            },
            ..s3
        }
    }
}

/// Every index is within bounds: the selection names a file, the region one
/// of its regions, the column one of the region's columns, and the scroll
/// stays within the tallest column (all zero where there is nothing).
pub open spec fn in_bounds(s: AppView) -> bool {
    if s.files.len() == 0 {
        s.selected_file == 0 && s.region == 0 && s.column == 0 && s.vscroll == 0
    } else {
        &&& s.selected_file < s.files.len()
        &&& if current_total(s) == 0 {
            s.region == 0
        } else {
            s.region < current_total(s)
        }
        &&& if current_columns(s).len() == 0 {
            s.column == 0
        } else {
            s.column < current_columns(s).len()
        }
        &&& s.vscroll <= scroll_limit(s)
    }
}

/// Clamping brings every state within bounds.
pub proof fn lemma_clamped_in_bounds(s: AppView)
    ensures
        in_bounds(clamped(s)),
{
}

/// A state within bounds is left as it is by clamping.
pub proof fn lemma_clamped_keeps_in_bounds(s: AppView)
    requires
        in_bounds(s),
    ensures
        clamped(s) == s,
{
}

/// Clamping twice is clamping once.
pub proof fn lemma_clamped_idempotent(s: AppView)
    ensures
        clamped(clamped(s)) == clamped(s),
{
    lemma_clamped_in_bounds(s);
    lemma_clamped_keeps_in_bounds(clamped(s));
}

/// The chosen column of the current region, if it is resolved.
pub open spec fn current_choice_of(s: AppView) -> Option<usize> {
    match current_file(s) {
        Some(f) => if s.region < f.resolutions.len() {
            f.resolutions[s.region as int]
        } else {
            None
        },
        None => None,
    }
}

impl App {
    /// The selected file.
    pub fn file(&self) -> (res: Option<&FileState>)
        ensures
            match res {
                Some(f) => current_file(self@) == Some(f@),
                None => current_file(self@) is None,
            },
    {
        if self.selected_file < self.files.len() {
            Some(&self.files[self.selected_file])
        } else {
            None
        }
    }

    /// The path of the selected file.
    pub fn current_path(&self) -> (res: Option<String>)
        ensures
            match res {
                Some(p) => current_file(self@) matches Some(f) && p@ == f.entry.path,
                None => current_file(self@) is None,
            },
    {
        match self.file() {
            Some(f) => Some(f.entry.path.clone()),
            None => None,
        }
    }

    /// Columns for the current region.
    pub fn columns(&self) -> (res: Vec<Column>)
        ensures
            res@.map_values(|c: Column| c@) == current_columns(self@),
    {
        match self.file() {
            Some(f) => match f.parsed.region(self.region) {
                Some(r) => r.columns(),
                None => {
                    let v: Vec<Column> = Vec::new();
                    assert(v@.map_values(|c: Column| c@) =~= Seq::<TermView>::empty());
                    v
                },
            },
            None => {
                let v: Vec<Column> = Vec::new();
                assert(v@.map_values(|c: Column| c@) =~= Seq::<TermView>::empty());
                v
            },
        }
    }

    /// Chosen column index for the current region, if resolved.
    pub fn current_choice(&self) -> (res: Option<usize>)
        ensures
            res == current_choice_of(self@),
    {
        match self.file() {
            Some(f) => if self.region < f.resolutions.len() {
                f.resolutions[self.region]
            } else {
                None
            },
            None => None,
        }
    }

    /// The greatest number of content lines among the current columns.
    fn content_height(&self) -> (res: usize)
        ensures
            res == tallest(current_columns(self@)),
    {
        let cols = self.columns();
        let ghost cv = cols@.map_values(|c: Column| c@);
        let mut h: usize = 0;
        let mut i: usize = 0;
        while i < cols.len()
            invariant
                i <= cols@.len(),
                cv == cols@.map_values(|c: Column| c@),
                h == tallest(cv.take(i as int)),
            decreases cols@.len() - i,
        {
            assert(cv.take(i + 1).drop_last() =~= cv.take(i as int));
            assert(cols@[i as int].content.deep_view().len() == cols@[i as int].content@.len());
            let n = cols[i].content.len();
            if n > h {
                h = n;
            }
            i += 1;
        }
        assert(cv.take(i as int) =~= cv);
        h
    }

    /// How far the panes can scroll.
    fn max_scroll(&self) -> (res: u16)
        ensures
            res == scroll_limit(self@),
    {
        let h = self.content_height();
        if h == 0 {
            0
        } else {
            (h - 1) as u16
        }
    }

    /// Keep all indices within bounds after any state change: the result is
    /// [`clamped`], which is within bounds (`lemma_clamped_in_bounds`) and
    /// which a second clamp leaves as it is (`lemma_clamped_idempotent`).
    pub fn clamp(&mut self)
        ensures
            final(self)@ == clamped(old(self)@),
    {
        if self.files.len() == 0 {
            self.selected_file = 0;
            self.region = 0;
            self.column = 0;
            self.vscroll = 0;
            return;
        }
        if self.selected_file >= self.files.len() {
            self.selected_file = self.files.len() - 1;
        }
        let regions = match self.file() {
            Some(f) => f.parsed.region_count(),
            None => 0,
        };
        self.region = if regions == 0 {
            0
        } else if self.region < regions - 1 {
            self.region
        } else {
            regions - 1
        };
        let cols = self.columns().len();
        self.column = if cols == 0 {
            0
        } else if self.column < cols - 1 {
            self.column
        } else {
            cols - 1
        };
        let limit = self.max_scroll();
        if self.vscroll > limit {
            self.vscroll = limit;
        }
    }
}

// ---------------------------------------------------------------------------
// Transitions
// ---------------------------------------------------------------------------

/// Move to the next file (resetting region, column and scroll), if any.
pub open spec fn after_next_file(s: AppView) -> AppView {
    clamped(
        if s.selected_file + 1 < s.files.len() {
            AppView {
                selected_file: (s.selected_file + 1) as usize,
                region: 0,
                column: 0,
                vscroll: 0,
                ..s
            }
        } else {
            s
        },
    )
}

/// Move to the previous file (resetting region, column and scroll), if any.
pub open spec fn after_prev_file(s: AppView) -> AppView {
    clamped(
        if s.selected_file > 0 {
            AppView {
                selected_file: (s.selected_file - 1) as usize,
                region: 0,
                column: 0,
                vscroll: 0,
                ..s
            }
        } else {
            s
        },
    )
}

/// Move to the next region of the file (resetting the scroll), if any.
pub open spec fn after_next_region(s: AppView) -> AppView {
    clamped(
        if s.region + 1 < current_total(s) {
            AppView { region: (s.region + 1) as usize, vscroll: 0, ..s }
        } else {
            s
        },
    )
}

/// Move to the previous region of the file (resetting the scroll), if any.
pub open spec fn after_prev_region(s: AppView) -> AppView {
    clamped(
        if s.region > 0 {
            AppView { region: (s.region - 1) as usize, vscroll: 0, ..s }
        } else {
            s
        },
    )
}

/// Focus the next column, wrapping around.
pub open spec fn after_next_column(s: AppView) -> AppView {
    let n = current_columns(s).len();
    if n > 0 {
        AppView { column: ((s.column + 1) % (n as int)) as usize, ..s }
    } else {
        s
    }
}

/// Focus the previous column, wrapping around.
pub open spec fn after_prev_column(s: AppView) -> AppView {
    let n = current_columns(s).len();
    if n > 0 {
        AppView { column: ((s.column + n - 1) % (n as int)) as usize, ..s }
    } else {
        s
    }
}

/// Scroll down by `n` lines, no further than the scroll limit.
pub open spec fn after_scroll_down(s: AppView, n: u16) -> AppView {
    let down = if s.vscroll + n > u16::MAX {
        u16::MAX
    } else {
        (s.vscroll + n) as u16
    };
    let limit = scroll_limit(s);
    AppView {
        vscroll: if down < limit {
            down
        } else {
            limit
        },
        ..s
    }
}

/// Scroll up by `n` lines, no further than the top.
pub open spec fn after_scroll_up(s: AppView, n: u16) -> AppView {
    AppView {
        vscroll: if s.vscroll < n {
            0
        } else {
            (s.vscroll - n) as u16
        },
        ..s
    }
}

/// The first region after `region` (wrapping around, `region` itself last)
/// with no chosen column, searching from offset `off`.
pub open spec fn next_unresolved_from(res: Seq<Option<usize>>, region: nat, total: nat, off: nat) -> Option<
    nat,
>
    decreases total + 1 - off,
{
    if total == 0 || off > total {
        None
    } else {
        let idx: int = ((region + off) as int) % (total as int);
        if !(idx < res.len() && res[idx] is Some) {
            Some(idx as nat)
        } else {
            next_unresolved_from(res, region, total, off + 1)
        }
    }
}

/// Move to the next unresolved region of the file, if there is one.
pub open spec fn after_goto_next_unresolved(s: AppView) -> AppView {
    match current_file(s) {
        None => s,
        Some(f) => match next_unresolved_from(f.resolutions, s.region as nat, region_total(f), 1) {
            Some(idx) => clamped(AppView { region: idx as usize, vscroll: 0, ..s }),
            None => clamped(s),
        },
    }
}

/// The files with column `col` chosen for region `region` of file `sel`
/// (unchanged where those name nothing).
pub open spec fn with_choice(files: Seq<FileView>, sel: int, region: int, choice: Option<usize>) -> Seq<
    FileView,
> {
    if 0 <= sel < files.len() && 0 <= region < files[sel].resolutions.len() {
        files.update(
            sel,
            FileView { resolutions: files[sel].resolutions.update(region, choice), ..files[sel] },
        )
    } else {
        files
    }
}

/// Resolve the current region to the focused column, say so, and move to
/// the next unresolved region.
pub open spec fn after_pick(s: AppView) -> AppView {
    let cols = current_columns(s);
    let n = cols.len();
    if n == 0 {
        s
    } else {
        let col = if s.column < n - 1 {
            s.column
        } else {
            (n - 1) as usize
        };
        let s1 = AppView {
            files: with_choice(s.files, s.selected_file as int, s.region as int, Some(col)),
            status: "Region "@ + decimal((s.region + 1) as nat) + " \u{2192} "@ + spec_title(cols[col as int]),
            ..s
        };
        after_goto_next_unresolved(s1)
    }
}

/// Focus column `i` and resolve the current region to it, if it exists.
pub open spec fn after_pick_n(s: AppView, i: usize) -> AppView {
    if i < current_columns(s).len() {
        after_pick(AppView { column: i, ..s })
    } else {
        s
    }
}

/// Clear the current region's resolution and say so.
pub open spec fn after_unpick(s: AppView) -> AppView {
    AppView {
        files: with_choice(s.files, s.selected_file as int, s.region as int, None),
        status: "Region "@ + decimal((s.region + 1) as nat) + " unresolved"@,
        ..s
    }
}

/// Whether some region of the file has a chosen column.
pub open spec fn staged(f: FileView) -> bool {
    exists|i: int| 0 <= i < f.resolutions.len() && #[trigger] f.resolutions[i] is Some
}

/// Ask for the selected file to be written with its chosen columns, or say
/// that nothing is chosen yet.
pub open spec fn after_write_key(s: AppView) -> (AppView, ActionView) {
    match current_file(s) {
        None => (s, ActionView::Continue),
        Some(f) => if !staged(f) {
            (
                AppView { status: "Nothing staged \u{2014} pick a side first (\u{23ce} or 1-9)"@, ..s },
                ActionView::Continue,
            )
        } else {
            (
                s,
                ActionView::Write {
                    path: f.entry.path,
                    content: spec_render(f.parsed, as_accepts(f.resolutions)),
                    fully: spec_fully_resolved(f.parsed, as_accepts(f.resolutions)),
                },
            )
        },
    }
}

/// The first file at or after `from` whose path is `p`.
pub open spec fn path_index(files: Seq<FileView>, p: Seq<char>, from: int) -> Option<nat>
    decreases files.len() - from,
{
    if from < 0 || from >= files.len() {
        None
    } else if files[from].entry.path == p {
        Some(from as nat)
    } else {
        path_index(files, p, from + 1)
    }
}

/// Replace the files, keeping the selection on the same path where possible.
pub open spec fn after_load(s: AppView, files: Seq<FileView>) -> AppView {
    let s1 = AppView { files: files, ..s };
    let s2 = match current_file(s) {
        Some(f) => AppView {
            selected_file: match path_index(files, f.entry.path, 0) {
                Some(i) => i as usize,
                None => 0,
            },
            ..s1
        },
        None => s1,
    };
    clamped(s2)
}

/// The files of a reload, or its error.
pub open spec fn reload_view(r: Result<Vec<FileState>, String>) -> Result<Seq<FileView>, Seq<char>> {
    match r {
        Ok(v) => Ok(v@.map_values(|f: FileState| f@)),
        Err(e) => Err(e@),
    }
}

/// Take in the outcome of reloading: the new files, or an error that is
/// shown in the status line (the files are kept).
pub open spec fn after_reload(s: AppView, r: Result<Seq<FileView>, Seq<char>>) -> AppView {
    match r {
        Err(e) => AppView { status: "Reload error: "@ + e, ..s },
        Ok(files) => {
            let s1 = after_load(s, files);
            if files.len() == 0 {
                AppView { status: "All conflicts resolved \u{1f389}  (press q to quit)"@, ..s1 }
            } else {
                s1
            }
        },
    }
}

/// Take in the outcome of writing `path`: the write error, or the outcome
/// of the reload that follows a successful write.
pub open spec fn after_write_done(
    s: AppView,
    path: Seq<char>,
    fully: bool,
    outcome: Result<Result<Seq<FileView>, Seq<char>>, Seq<char>>,
) -> AppView {
    match outcome {
        Err(e) => AppView { status: "Write failed: "@ + e, ..s },
        Ok(r) => {
            let s1 = after_reload(s, r);
            if s1.files.len() > 0 {
                AppView {
                    status: if fully {
                        "Wrote "@ + path + " (fully resolved)"@
                    } else {
                        "Wrote "@ + path + " (partial \u{2014} markers remain)"@
                    },
                    ..s1
                }
            } else {
                s1
            }
        },
    }
}

/// Take in the outcome of a refresh.
pub open spec fn after_refresh_done(s: AppView, r: Result<Seq<FileView>, Seq<char>>) -> AppView {
    let s1 = after_reload(s, r);
    if s1.files.len() > 0 {
        AppView { status: "Refreshed"@, ..s1 }
    } else {
        s1
    }
}

/// How a hand-off to the editor ended: the editor ran and exited (how it
/// exited, as printed, and the reload that followed), or it could not be
/// started.
pub enum EditOutcome {
    Exited { success: bool, exit: String, loaded: Result<Vec<FileState>, String> },
    Failed { error: String },
}

/// The text of an [`EditOutcome`].
pub enum EditView {
    Exited { success: bool, exit: Seq<char>, loaded: Result<Seq<FileView>, Seq<char>> },
    Failed { error: Seq<char> },
}

impl View for EditOutcome {
    type V = EditView;

    open spec fn view(&self) -> EditView {
        match self {
            EditOutcome::Exited { success, exit, loaded } => EditView::Exited {
                success: *success,
                exit: exit@,
                loaded: reload_view(*loaded),
            },
            EditOutcome::Failed { error } => EditView::Failed { error: error@ },
        }
    }
}

/// Take in how editing `path` with `editor` ended: after the editor exits
/// the files are reloaded and the status says so; a failure to start the
/// editor is reported.
pub open spec fn after_edit_done(s: AppView, path: Seq<char>, editor: Seq<char>, outcome: EditView) -> AppView {
    match outcome {
        EditView::Exited { success, exit, loaded } => {
            let s1 = after_reload(s, loaded);
            if success {
                if s1.files.len() > 0 {
                    AppView { status: "Reloaded "@ + path + " after editing"@, ..s1 }
                } else {
                    s1
                }
            } else {
                AppView { status: "Editor exited with "@ + exit + "; reloaded "@ + path, ..s1 }
            }
        },
        EditView::Failed { error } => AppView {
            status: "Failed to launch editor `"@ + editor + "`: "@ + error,
            ..s
        },
    }
}

/// The state a new screen starts in.
pub open spec fn initial(files: Seq<FileView>) -> AppView {
    clamped(
        AppView {
            files: files,
            selected_file: 0,
            region: 0,
            column: 0,
            vscroll: 0,
            page: 0,
            status: Seq::empty(),
            show_help: false,
            show_preview: false,
            pending_g: false,
        },
    )
}

/// What a key does when no overlay is shown.
pub open spec fn after_command(s: AppView, key: Key) -> (AppView, ActionView) {
    match key.code {
        KeyCode::Char(c) => after_char(s, c, key.ctrl),
        KeyCode::Esc => (s, ActionView::Quit),
        KeyCode::Down => (after_scroll_down(s, 1), ActionView::Continue),
        KeyCode::Up => (after_scroll_up(s, 1), ActionView::Continue),
        KeyCode::Left => (after_prev_column(s), ActionView::Continue),
        KeyCode::BackTab => (after_prev_column(s), ActionView::Continue),
        KeyCode::Right => (after_next_column(s), ActionView::Continue),
        KeyCode::Tab => (after_next_column(s), ActionView::Continue),
        KeyCode::Enter => (after_pick(s), ActionView::Continue),
        KeyCode::Other => (s, ActionView::Continue),
    }
}

/// Half of the panes' height (at least one line): how far `Ctrl-d` and
/// `Ctrl-u` scroll.
pub open spec fn half_page(s: AppView) -> u16 {
    if s.page / 2 == 0 {
        1
    } else {
        s.page / 2
    }
}

/// What a character key does when no overlay is shown (see the key table
/// of the README).
pub open spec fn after_char(s: AppView, c: char, ctrl: bool) -> (AppView, ActionView) {
    if c == 'c' && ctrl {
        (s, ActionView::Quit)
    } else if c == 'q' {
        (s, ActionView::Quit)
    } else if c == 'd' && ctrl {
        (after_scroll_down(s, half_page(s)), ActionView::Continue)
    } else if c == 'u' && ctrl {
        (after_scroll_up(s, half_page(s)), ActionView::Continue)
    } else if c == 'j' {
        (after_scroll_down(s, 1), ActionView::Continue)
    } else if c == 'k' {
        (after_scroll_up(s, 1), ActionView::Continue)
    } else if c == 'g' {
        (AppView { pending_g: true, ..s }, ActionView::Continue)
    } else if c == 'G' {
        (AppView { vscroll: scroll_limit(s), ..s }, ActionView::Continue)
    } else if c == 'h' {
        (after_prev_column(s), ActionView::Continue)
    } else if c == 'l' {
        (after_next_column(s), ActionView::Continue)
    } else if c == 'n' {
        (after_next_region(s), ActionView::Continue)
    } else if c == 'N' {
        (after_prev_region(s), ActionView::Continue)
    } else if c == ']' || c == 'J' {
        (after_next_file(s), ActionView::Continue)
    } else if c == '[' || c == 'K' {
        (after_prev_file(s), ActionView::Continue)
    } else if '1' <= c && c <= '9' {
        (after_pick_n(s, (c as int - '1' as int) as usize), ActionView::Continue)
    } else if c == 'u' {
        (after_unpick(s), ActionView::Continue)
    } else if c == 'w' {
        after_write_key(s)
    } else if c == 'e' {
        (s, ActionView::OpenEditor)
    } else if c == 'p' {
        (AppView { show_preview: true, vscroll: 0, ..s }, ActionView::Continue)
    } else if c == 'r' {
        (s, ActionView::Refresh)
    } else if c == '?' {
        (AppView { show_help: true, ..s }, ActionView::Continue)
    } else {
        (s, ActionView::Continue)
    }
}

/// What a key does: the help overlay swallows any key; the preview overlay
/// scrolls with `j`/`k` and closes on anything else; `g` after `g` goes to
/// the top; otherwise the key is a command.
pub open spec fn after_key(s: AppView, key: Key) -> (AppView, ActionView) {
    if s.show_help {
        (AppView { show_help: false, ..s }, ActionView::Continue)
    } else if s.show_preview {
        (
            if key.code == KeyCode::Char('j') || key.code == KeyCode::Down {
                after_scroll_down(s, 1)
            } else if key.code == KeyCode::Char('k') || key.code == KeyCode::Up {
                after_scroll_up(s, 1)
            } else {
                AppView { show_preview: false, ..s }
            },
            ActionView::Continue,
        )
    } else if s.pending_g && key.code == KeyCode::Char('g') {
        (AppView { pending_g: false, vscroll: 0, ..s }, ActionView::Continue)
    } else {
        after_command(AppView { pending_g: false, ..s }, key)
    }
}

impl App {
    /// A screen over the loaded files, with the first region of the first
    /// file in focus.
    pub fn new(files: Vec<FileState>) -> (res: App)
        ensures
            res@ == initial(files@.map_values(|f: FileState| f@)),
    {
        let mut app = App {
            files,
            selected_file: 0,
            region: 0,
            column: 0,
            vscroll: 0,
            page: 0,
            status: String::new(),
            show_help: false,
            show_preview: false,
            pending_g: false,
        };
        app.clamp();
        app
    }

    /// Replace the files with freshly loaded ones, preserving the current
    /// selection by path where possible.
    pub fn load(&mut self, files: Vec<FileState>)
        ensures
            final(self)@ == after_load(old(self)@, files@.map_values(|f: FileState| f@)),
    {
        let prev_path = self.current_path();
        self.files = files;
        match prev_path {
            Some(p) => {
                let mut i: usize = 0;
                let mut found = false;
                while i < self.files.len() && !found
                    invariant
                        i <= self.files@.len(),
                        found ==> i < self.files@.len() && self@.files[i as int].entry.path == p@,
                        path_index(self@.files, p@, 0) == if found {
                            Some(i as nat)
                        } else {
                            path_index(self@.files, p@, i as int)
                        },
                    decreases self.files@.len() - i, if found { 0int } else { 1int },
                {
                    if self.files[i].entry.path == p {
                        found = true;
                    } else {
                        i += 1;
                    }
                }
                self.selected_file = if found {
                    i
                } else {
                    0
                };
            },
            None => {},
        }
        self.clamp();
    }

    /// Take in the outcome of reloading the conflicts: on success the new
    /// files, otherwise the error, shown in the status line.
    pub fn reload(&mut self, loaded: Result<Vec<FileState>, String>)
        ensures
            final(self)@ == after_reload(old(self)@, reload_view(loaded)),
    {
        match loaded {
            Err(e) => {
                let mut msg = String::from_str("Reload error: ");
                msg.append(e.as_str());
                self.status = msg;
            },
            Ok(files) => {
                let empty = files.len() == 0;
                self.load(files);
                if empty {
                    self.status = String::from_str("All conflicts resolved \u{1f389}  (press q to quit)");
                }
            },
        }
    }

    /// Take in the outcome of writing `path` (see [`Action::Write`]): the
    /// write error, or, when the write succeeded, the outcome of the reload
    /// that follows it.
    pub fn after_write(
        &mut self,
        path: &String,
        fully: bool,
        outcome: Result<Result<Vec<FileState>, String>, String>,
    )
        ensures
            final(self)@ == after_write_done(
                old(self)@,
                path@,
                fully,
                match outcome {
                    Ok(r) => Ok(reload_view(r)),
                    Err(e) => Err(e@),
                },
            ),
    {
        match outcome {
            Err(e) => {
                let mut msg = String::from_str("Write failed: ");
                msg.append(e.as_str());
                self.status = msg;
            },
            Ok(r) => {
                self.reload(r);
                if self.files.len() > 0 {
                    let mut msg = String::from_str("Wrote ");
                    msg.append(path.as_str());
                    if fully {
                        msg.append(" (fully resolved)");
                    } else {
                        msg.append(" (partial \u{2014} markers remain)");
                    }
                    self.status = msg;
                }
            },
        }
    }

    /// Take in how editing `path` with `editor` ended (see
    /// [`Action::OpenEditor`]).
    pub fn after_edit(&mut self, path: &String, editor: &String, outcome: EditOutcome)
        ensures
            final(self)@ == after_edit_done(old(self)@, path@, editor@, outcome@),
    {
        match outcome {
            EditOutcome::Exited { success, exit, loaded } => {
                self.reload(loaded);
                if success {
                    if self.files.len() > 0 {
                        let mut msg = String::from_str("Reloaded ");
                        msg.append(path.as_str());
                        msg.append(" after editing");
                        self.status = msg;
                    }
                } else {
                    let mut msg = String::from_str("Editor exited with ");
                    msg.append(exit.as_str());
                    msg.append("; reloaded ");
                    msg.append(path.as_str());
                    self.status = msg;
                }
            },
            EditOutcome::Failed { error } => {
                let mut msg = String::from_str("Failed to launch editor `");
                msg.append(editor.as_str());
                msg.append("`: ");
                msg.append(error.as_str());
                self.status = msg;
            },
        }
    }

    /// Take in the outcome of a refresh (see [`Action::Refresh`]).
    pub fn after_refresh(&mut self, loaded: Result<Vec<FileState>, String>)
        ensures
            final(self)@ == after_refresh_done(old(self)@, reload_view(loaded)),
    {
        self.reload(loaded);
        if self.files.len() > 0 {
            self.status = String::from_str("Refreshed");
        }
    }

    fn next_file(&mut self)
        ensures
            final(self)@ == after_next_file(old(self)@),
    {
        if self.files.len() > 0 && self.selected_file < self.files.len() - 1 {
            self.selected_file += 1;
            self.region = 0;
            self.column = 0;
            self.vscroll = 0;
        }
        self.clamp();
    }

    fn prev_file(&mut self)
        ensures
            final(self)@ == after_prev_file(old(self)@),
    {
        if self.selected_file > 0 {
            self.selected_file -= 1;
            self.region = 0;
            self.column = 0;
            self.vscroll = 0;
        }
        self.clamp();
    }

    fn next_region(&mut self)
        ensures
            final(self)@ == after_next_region(old(self)@),
    {
        let total = match self.file() {
            Some(f) => f.parsed.region_count(),
            None => 0,
        };
        if total > 0 && self.region < total - 1 {
            self.region += 1;
            self.vscroll = 0;
        }
        self.clamp();
    }

    fn prev_region(&mut self)
        ensures
            final(self)@ == after_prev_region(old(self)@),
    {
        if self.region > 0 {
            self.region -= 1;
            self.vscroll = 0;
        }
        self.clamp();
    }

    fn next_column(&mut self)
        requires
            current_columns(old(self)@).len() > 0 ==> old(self).column < current_columns(old(self)@).len(),
        ensures
            final(self)@ == after_next_column(old(self)@),
    {
        let n = self.columns().len();
        if n > 0 {
            self.column = (self.column + 1) % n;
        }
    }

    fn prev_column(&mut self)
        requires
            current_columns(old(self)@).len() > 0 ==> old(self).column < current_columns(old(self)@).len(),
        ensures
            final(self)@ == after_prev_column(old(self)@),
    {
        let n = self.columns().len();
        if n > 0 {
            let c = self.column;
            self.column = if c == 0 {
                n - 1
            } else {
                c - 1
            };
            proof {
                let ci = c as int;
                let ni = n as int;
                assert(((ci + ni - 1) % ni) == (if ci == 0 {
                    ni - 1
                } else {
                    ci - 1
                })) by (nonlinear_arith)
                    requires
                        0 <= ci < ni,
                ;
            }
        }
    }

    fn scroll_down(&mut self, n: u16)
        ensures
            final(self)@ == after_scroll_down(old(self)@, n),
    {
        let down = self.vscroll.saturating_add(n);
        let limit = self.max_scroll();
        self.vscroll = if down < limit {
            down
        } else {
            limit
        };
    }

    fn scroll_up(&mut self, n: u16)
        ensures
            final(self)@ == after_scroll_up(old(self)@, n),
    {
        self.vscroll = self.vscroll.saturating_sub(n);
    }

    fn top(&mut self)
        ensures
            final(self)@ == (AppView { vscroll: 0, ..old(self)@ }),
    {
        self.vscroll = 0;
    }

    fn bottom(&mut self)
        ensures
            final(self)@ == (AppView { vscroll: scroll_limit(old(self)@), ..old(self)@ }),
    {
        self.vscroll = self.max_scroll();
    }
}

impl App {
    fn goto_next_unresolved(&mut self)
        requires
            current_total(old(self)@) > 0 ==> old(self).region < current_total(old(self)@),
        ensures
            final(self)@ == after_goto_next_unresolved(old(self)@),
    {
        if self.selected_file >= self.files.len() {
            return;
        }
        let ghost s = self@;
        let f = &self.files[self.selected_file];
        let total = f.parsed.region_count();
        let region = self.region;
        let mut target: Option<usize> = None;
        if total > 0 {
            let mut off: usize = 1;
            loop
                invariant_except_break
                    1 <= off <= total,
                    target is None,
                    next_unresolved_from(f@.resolutions, region as nat, total as nat, 1)
                        == next_unresolved_from(f@.resolutions, region as nat, total as nat, off as nat),
                invariant
                    region < total,
                    total == region_total(f@),
                ensures
                    target == match next_unresolved_from(f@.resolutions, region as nat, total as nat, 1) {
                        Some(i) => Some(i as usize),
                        None => None,
                    },
                decreases total - off,
            {
                let idx = if off < total - region {
                    region + off
                } else {
                    off - (total - region)
                };
                proof {
                    let r = region as int;
                    let o = off as int;
                    let t = total as int;
                    assert((r + o) % t == idx as int) by (nonlinear_arith)
                        requires
                            0 <= r < t,
                            1 <= o <= t,
                            idx as int == if o < t - r {
                                r + o
                            } else {
                                o - (t - r)
                            },
                    ;
                }
                let taken = idx < f.resolutions.len() && f.resolutions[idx].is_some();
                if !taken {
                    assert(next_unresolved_from(f@.resolutions, region as nat, total as nat, off as nat)
                        == Some(idx as nat));
                    target = Some(idx);
                    break;
                }
                if off == total {
                    assert(next_unresolved_from(f@.resolutions, region as nat, total as nat, (off + 1) as nat)
                        is None);
                    assert(next_unresolved_from(f@.resolutions, region as nat, total as nat, off as nat)
                        is None);
                    break;
                }
                off += 1;
            }
        }
        match target {
            Some(idx) => {
                self.region = idx;
                self.vscroll = 0;
            },
            None => {},
        }
        self.clamp();
    }
}

impl App {
    /// Set the resolution of region `region` of file `sel`, where those exist.
    fn set_choice(&mut self, sel: usize, region: usize, choice: Option<usize>)
        ensures
            final(self)@ == (AppView {
                files: with_choice(old(self)@.files, sel as int, region as int, choice),
                ..old(self)@
            }),
    {
        if sel < self.files.len() && region < self.files[sel].resolutions.len() {
            let ghost before = self@.files;
            self.files[sel].resolutions[region] = choice;
            assert(self@.files =~= with_choice(before, sel as int, region as int, choice));
        }
    }

    fn pick(&mut self)
        requires
            in_bounds(old(self)@),
        ensures
            final(self)@ == after_pick(old(self)@),
    {
        let cols = self.columns();
        let n = cols.len();
        if n == 0 {
            return;
        }
        let col = if self.column < n - 1 {
            self.column
        } else {
            n - 1
        };
        let region = self.region;
        let _total = match self.file() {
            Some(f) => f.parsed.region_count(),
            None => 0,
        };
        let title = cols[col].title();
        self.set_choice(self.selected_file, region, Some(col));
        let mut msg = String::from_str("Region ");
        let num = crate::text::decimal_string(region + 1);
        msg.append(num.as_str());
        msg.append(" \u{2192} ");
        msg.append(title.as_str());
        self.status = msg;
        proof {
            assert(cols@[col as int]@ == current_columns(old(self)@)[col as int]);
            assert(current_total(self@) == current_total(old(self)@));
        }
        self.goto_next_unresolved();
    }

    fn pick_n(&mut self, i: usize)
        requires
            in_bounds(old(self)@),
        ensures
            final(self)@ == after_pick_n(old(self)@, i),
    {
        if i < self.columns().len() {
            self.column = i;
            self.pick();
        }
    }

    fn unpick(&mut self)
        requires
            in_bounds(old(self)@),
        ensures
            final(self)@ == after_unpick(old(self)@),
    {
        let region = self.region;
        let _total = match self.file() {
            Some(f) => f.parsed.region_count(),
            None => 0,
        };
        self.set_choice(self.selected_file, region, None);
        let mut msg = String::from_str("Region ");
        let num = crate::text::decimal_string(region + 1);
        msg.append(num.as_str());
        msg.append(" unresolved");
        self.status = msg;
    }

    fn write_key(&mut self) -> (res: Action)
        ensures
            (final(self)@, res@) == after_write_key(old(self)@),
    {
        if self.selected_file >= self.files.len() {
            return Action::Continue;
        }
        let f = &self.files[self.selected_file];
        if !f.has_staged() {
            self.status = String::from_str("Nothing staged \u{2014} pick a side first (\u{23ce} or 1-9)");
            return Action::Continue;
        }
        let path = f.entry.path.clone();
        let content = f.rendered();
        let fully = f.is_fully_resolved();
        Action::Write { path, content, fully }
    }
}

impl App {
    /// Whether every index is within bounds (see [`in_bounds`]): the screen
    /// keeps it so, and [`App::handle_key`] relies on it.
    pub fn within_bounds(&self) -> (res: bool)
        ensures
            res == in_bounds(self@),
    {
        if self.files.len() == 0 {
            return self.selected_file == 0 && self.region == 0 && self.column == 0 && self.vscroll
                == 0;
        }
        if self.selected_file >= self.files.len() {
            return false;
        }
        let total = match self.file() {
            Some(f) => f.parsed.region_count(),
            None => 0,
        };
        let region_ok = if total == 0 {
            self.region == 0
        } else {
            self.region < total
        };
        let ncols = self.columns().len();
        let column_ok = if ncols == 0 {
            self.column == 0
        } else {
            self.column < ncols
        };
        region_ok && column_ok && self.vscroll <= self.max_scroll()
    }
}

impl App {
    /// Handle one key press: update the state and say what the main loop
    /// should do next.
    pub fn handle_key(&mut self, key: Key) -> (res: Action)
        requires
            in_bounds(old(self)@),
        ensures
            (final(self)@, res@) == after_key(old(self)@, key),
            in_bounds(final(self)@),
    {
        proof {
            lemma_after_key_in_bounds(self@, key);
        }
        if self.show_help {
            self.show_help = false;
            return Action::Continue;
        }
        if self.show_preview {
            match key.code {
                KeyCode::Char('j') | KeyCode::Down => self.scroll_down(1),
                KeyCode::Char('k') | KeyCode::Up => self.scroll_up(1),
                _ => self.show_preview = false,
            }
            return Action::Continue;
        }
        if self.pending_g {
            self.pending_g = false;
            if let KeyCode::Char('g') = key.code {
                self.top();
                return Action::Continue;
            }
        }
        match key.code {
            KeyCode::Char(c) => self.char_key(c, key.ctrl),
            KeyCode::Esc => Action::Quit,
            KeyCode::Down => {
                self.scroll_down(1);
                Action::Continue
            },
            KeyCode::Up => {
                self.scroll_up(1);
                Action::Continue
            },
            KeyCode::Left | KeyCode::BackTab => {
                self.prev_column();
                Action::Continue
            },
            KeyCode::Right | KeyCode::Tab => {
                self.next_column();
                Action::Continue
            },
            KeyCode::Enter => {
                self.pick();
                Action::Continue
            },
            KeyCode::Other => Action::Continue,
        }
    }

    fn char_key(&mut self, c: char, ctrl: bool) -> (res: Action)
        requires
            in_bounds(old(self)@),
        ensures
            (final(self)@, res@) == after_char(old(self)@, c, ctrl),
    {
        if c == 'c' && ctrl {
            Action::Quit
        } else if c == 'q' {
            Action::Quit
        } else if c == 'd' && ctrl {
            let half = if self.page / 2 == 0 {
                1
            } else {
                self.page / 2
            };
            self.scroll_down(half);
            Action::Continue
        } else if c == 'u' && ctrl {
            let half = if self.page / 2 == 0 {
                1
            } else {
                self.page / 2
            };
            self.scroll_up(half);
            Action::Continue
        } else if c == 'j' {
            self.scroll_down(1);
            Action::Continue
        } else if c == 'k' {
            self.scroll_up(1);
            Action::Continue
        } else if c == 'g' {
            self.pending_g = true;
            Action::Continue
        } else if c == 'G' {
            self.bottom();
            Action::Continue
        } else if c == 'h' {
            self.prev_column();
            Action::Continue
        } else if c == 'l' {
            self.next_column();
            Action::Continue
        } else if c == 'n' {
            self.next_region();
            Action::Continue
        } else if c == 'N' {
            self.prev_region();
            Action::Continue
        } else if c == ']' || c == 'J' {
            self.next_file();
            Action::Continue
        } else if c == '[' || c == 'K' {
            self.prev_file();
            Action::Continue
        } else if '1' <= c && c <= '9' {
            let i = ((c as u32) - ('1' as u32)) as usize;
            self.pick_n(i);
            Action::Continue
        } else if c == 'u' {
            self.unpick();
            Action::Continue
        } else if c == 'w' {
            self.write_key()
        } else if c == 'e' {
            Action::OpenEditor
        } else if c == 'p' {
            self.show_preview = true;
            self.vscroll = 0;
            Action::Continue
        } else if c == 'r' {
            Action::Refresh
        } else if c == '?' {
            self.show_help = true;
            Action::Continue
        } else {
            Action::Continue
        }
    }
}

/// Choosing or clearing a resolution changes no file's text or regions.
proof fn lemma_with_choice_keeps_regions(s: AppView, choice: Option<usize>)
    ensures
        ({
            let t = AppView {
                files: with_choice(s.files, s.selected_file as int, s.region as int, choice),
                ..s
            };
            &&& t.files.len() == s.files.len()
            &&& current_total(t) == current_total(s)
            &&& current_columns(t) == current_columns(s)
            &&& scroll_limit(t) == scroll_limit(s)
        }),
{
}

/// Scrolling, focusing another column and toggling flags keep the state
/// within bounds.
proof fn lemma_simple_moves_in_bounds(s: AppView)
    requires
        in_bounds(s),
    ensures
        in_bounds(after_scroll_down(s, 1)),
        in_bounds(after_scroll_down(s, half_page(s))),
        in_bounds(after_scroll_up(s, 1)),
        in_bounds(after_scroll_up(s, half_page(s))),
        in_bounds(after_next_column(s)),
        in_bounds(after_prev_column(s)),
        in_bounds(AppView { vscroll: scroll_limit(s), ..s }),
        in_bounds(AppView { vscroll: 0, ..s }),
        in_bounds(AppView { pending_g: true, ..s }),
        in_bounds(AppView { pending_g: false, ..s }),
        in_bounds(AppView { show_help: true, ..s }),
        in_bounds(AppView { show_help: false, ..s }),
        in_bounds(AppView { show_preview: false, ..s }),
        in_bounds(AppView { show_preview: true, vscroll: 0, ..s }),
{
}

/// Picking, clearing and asking to write keep the state within bounds.
proof fn lemma_resolving_in_bounds(s: AppView, i: usize)
    requires
        in_bounds(s),
    ensures
        in_bounds(after_pick(s)),
        in_bounds(after_pick_n(s, i)),
        in_bounds(after_unpick(s)),
        in_bounds(after_write_key(s).0),
{
    lemma_with_choice_keeps_regions(s, None);
    let cols = current_columns(s);
    if cols.len() > 0 {
        let col = if s.column < cols.len() - 1 {
            s.column
        } else {
            (cols.len() - 1) as usize
        };
        let s1 = AppView {
            files: with_choice(s.files, s.selected_file as int, s.region as int, Some(col)),
            status: "Region "@ + decimal((s.region + 1) as nat) + " \u{2192} "@ + spec_title(cols[col as int]),
            ..s
        };
        lemma_with_choice_keeps_regions(s, Some(col));
        assert(current_file(s1) is Some);
    }
    if i < cols.len() {
        let t = AppView { column: i, ..s };
        let col = if i < cols.len() - 1 {
            i
        } else {
            (cols.len() - 1) as usize
        };
        lemma_with_choice_keeps_regions(t, Some(col));
        let t1 = AppView {
            files: with_choice(t.files, t.selected_file as int, t.region as int, Some(col)),
            status: "Region "@ + decimal((t.region + 1) as nat) + " \u{2192} "@ + spec_title(cols[col as int]),
            ..t
        };
        assert(current_columns(t) == cols);
        assert(current_file(t1) is Some);
    }
}

/// Moving between files and regions keeps the state within bounds.
proof fn lemma_clamped_moves_in_bounds(s: AppView)
    ensures
        in_bounds(after_next_file(s)),
        in_bounds(after_prev_file(s)),
        in_bounds(after_next_region(s)),
        in_bounds(after_prev_region(s)),
{
    lemma_clamped_in_bounds(
        if s.selected_file + 1 < s.files.len() {
            AppView {
                selected_file: (s.selected_file + 1) as usize,
                region: 0,
                column: 0,
                vscroll: 0,
                ..s
            }
        } else {
            s
        },
    );
    lemma_clamped_in_bounds(
        if s.selected_file > 0 {
            AppView {
                selected_file: (s.selected_file - 1) as usize,
                region: 0,
                column: 0,
                vscroll: 0,
                ..s
            }
        } else {
            s
        },
    );
    lemma_clamped_in_bounds(
        if s.region + 1 < current_total(s) {
            AppView { region: (s.region + 1) as usize, vscroll: 0, ..s }
        } else {
            s
        },
    );
    lemma_clamped_in_bounds(
        if s.region > 0 {
            AppView { region: (s.region - 1) as usize, vscroll: 0, ..s }
        } else {
            s
        },
    );
}

/// Every character key keeps the state within bounds.
#[verifier::rlimit(50)]
proof fn lemma_after_char_in_bounds(s: AppView, c: char, ctrl: bool)
    requires
        in_bounds(s),
    ensures
        in_bounds(after_char(s, c, ctrl).0),
{
    lemma_simple_moves_in_bounds(s);
    lemma_clamped_moves_in_bounds(s);
    if '1' <= c && c <= '9' {
        lemma_resolving_in_bounds(s, (c as int - '1' as int) as usize);
    } else {
        lemma_resolving_in_bounds(s, 0);
    }
}

/// Every key keeps the state within bounds: whatever is pressed, the
/// selection, region, column and scroll still name what exists.
pub proof fn lemma_after_key_in_bounds(s: AppView, key: Key)
    requires
        in_bounds(s),
    ensures
        in_bounds(after_key(s, key).0),
{
    lemma_simple_moves_in_bounds(s);
    let t = AppView { pending_g: false, ..s };
    lemma_simple_moves_in_bounds(t);
    lemma_resolving_in_bounds(t, 0);
    match key.code {
        KeyCode::Char(c) => {
            lemma_after_char_in_bounds(t, c, key.ctrl);
        },
        _ => {},
    }
}

/// Loading files always leaves the state within bounds, and reporting the
/// outcome of a reload, a write or a refresh keeps it so.
pub proof fn lemma_loading_in_bounds(
    s: AppView,
    files: Seq<FileView>,
    r: Result<Seq<FileView>, Seq<char>>,
    path: Seq<char>,
    fully: bool,
    e: Seq<char>,
)
    ensures
        in_bounds(initial(files)),
        in_bounds(after_load(s, files)),
        in_bounds(s) ==> in_bounds(after_reload(s, r)),
        in_bounds(s) ==> in_bounds(after_refresh_done(s, r)),
        in_bounds(s) ==> in_bounds(after_write_done(s, path, fully, Ok(r))),
        in_bounds(s) ==> in_bounds(after_write_done(s, path, fully, Err(e))),
{
    lemma_clamped_in_bounds(
        AppView {
            files: files,
            selected_file: 0,
            region: 0,
            column: 0,
            vscroll: 0,
            page: 0,
            status: Seq::empty(),
            show_help: false,
            show_preview: false,
            pending_g: false,
        },
    );
    let s1 = AppView { files: files, ..s };
    let s2 = match current_file(s) {
        Some(f) => AppView {
            selected_file: match path_index(files, f.entry.path, 0) {
                Some(i) => i as usize,
                None => 0,
            },
            ..s1
        },
        None => s1,
    };
    lemma_clamped_in_bounds(s2);
    match r {
        Ok(fs) => {
            let t1 = AppView { files: fs, ..s };
            let t2 = match current_file(s) {
                Some(f) => AppView {
                    selected_file: match path_index(fs, f.entry.path, 0) {
                        Some(i) => i as usize,
                        None => 0,
                    },
                    ..t1
                },
                None => t1,
            };
            lemma_clamped_in_bounds(t2);
        },
        Err(_) => {},
    }
}

/// Reporting how an editing session ended keeps the state within bounds.
pub proof fn lemma_edit_in_bounds(s: AppView, path: Seq<char>, editor: Seq<char>, edit: EditView)
    requires
        in_bounds(s),
    ensures
        in_bounds(after_edit_done(s, path, editor, edit)),
{
    match edit {
        EditView::Exited { loaded, .. } => {
            lemma_loading_in_bounds(s, Seq::empty(), loaded, path, false, Seq::empty());
        },
        EditView::Failed { .. } => {},
    }
}


/// Whether region `i` of a file has no chosen column.
pub open spec fn region_unresolved(f: FileView, i: int) -> bool {
    !(0 <= i < f.resolutions.len() && f.resolutions[i] is Some)
}

proof fn lemma_next_unresolved_from(res: Seq<Option<usize>>, f: FileView, region: nat, total: nat, off: nat)
    requires
        res == f.resolutions,
        total > 0,
        1 <= off <= total + 1,
    ensures
        match next_unresolved_from(res, region, total, off) {
            Some(idx) => exists|o: int|
                off <= o <= total && idx == #[trigger] ((region as int + o) % (total as int)) && region_unresolved(f, idx as int)
                    && forall|o2: int| off <= o2 < o ==> !region_unresolved(f, #[trigger] ((region as int + o2) % (total as int))),
            None => forall|o: int| off <= o <= total ==> !region_unresolved(f, #[trigger] ((region as int + o) % (total as int))),
        },
    decreases total + 1 - off,
{
    if off <= total {
        let idx: int = ((region + off) as int) % (total as int);
        if region_unresolved(f, idx) {
            assert(next_unresolved_from(res, region, total, off) == Some(idx as nat));
            assert(off <= off as int <= total && idx as nat as int == (region as int + off as int) % (total as int));
        } else {
            lemma_next_unresolved_from(res, f, region, total, off + 1);
            match next_unresolved_from(res, region, total, off + 1) {
                Some(j) => {
                    let o = choose|o: int|
                        off + 1 <= o <= total && j == #[trigger] ((region as int + o) % (total as int)) && region_unresolved(f, j as int)
                            && forall|o2: int| off + 1 <= o2 < o ==> !region_unresolved(f, #[trigger] ((region as int + o2) % (total as int)));
                    assert forall|o2: int| off <= o2 < o implies !region_unresolved(f, #[trigger] ((region as int + o2) % (total as int))) by {
                        if o2 > off {
                        }
                    }
                },
                None => {},
            }
        }
    }
}

/// Moving to the next unresolved region searches the regions after the
/// current one in cyclic order, wrapping past the last: where some region is
/// unresolved, the focus lands on the first unresolved region at an offset of
/// `1..=total` from the current one (the current one last), with every region
/// before it in that order resolved; where every region is resolved, the
/// focus stays. The file and its resolutions are left as they are.
pub proof fn lemma_goto_next_unresolved_cyclic(s: AppView)
    requires
        current_file(s) is Some,
        s.region < region_total(current_file(s)->0),
        region_total(current_file(s)->0) <= usize::MAX,
    ensures
        ({
            let f = current_file(s)->0;
            let total = region_total(f) as int;
            let t = after_goto_next_unresolved(s);
            &&& t.files == s.files
            &&& t.selected_file == s.selected_file
            &&& (exists|i: int| 0 <= i < total && region_unresolved(f, i)) ==> exists|o: int|
                1 <= o <= total && t.region == #[trigger] ((s.region + o) % total) && region_unresolved(f, t.region as int)
                    && forall|o2: int| 1 <= o2 < o ==> !region_unresolved(f, #[trigger] ((s.region + o2) % total))
            &&& (forall|i: int| 0 <= i < total ==> !region_unresolved(f, i)) ==> t.region == s.region
        }),
{
    let f = current_file(s)->0;
    let total = region_total(f) as int;
    let r = s.region as int;
    lemma_next_unresolved_from(f.resolutions, f, s.region as nat, total as nat, 1);
    match next_unresolved_from(f.resolutions, s.region as nat, total as nat, 1) {
        Some(idx) => {
            let o = choose|o: int|
                1 <= o <= total && idx == #[trigger] ((r + o) % total) && region_unresolved(f, idx as int)
                    && forall|o2: int| 1 <= o2 < o ==> !region_unresolved(f, #[trigger] ((r + o2) % total));
            assert(0 <= idx < total) by (nonlinear_arith)
                requires
                    idx == (r + o) % total,
                    total > 0,
                    r >= 0,
                    o >= 0,
            ;
            let t = after_goto_next_unresolved(s);
            assert(t.region == idx);
        },
        None => {
            assert forall|i: int| 0 <= i < total implies !region_unresolved(f, i) by {
                let o: int = if i > r {
                    i - r
                } else {
                    i + total - r
                };
                assert((r + o) % total == i) by (nonlinear_arith)
                    requires
                        0 <= i < total,
                        0 <= r < total,
                        o == if i > r {
                            i - r
                        } else {
                            i + total - r
                        },
                ;
                assert(1 <= o <= total);
                assert(!region_unresolved(f, (r + o) % total));
            }
        },
    }
}


/// The tallest column is as tall as every column and as tall as one of them
/// (zero where there are none).
pub proof fn lemma_tallest(cols: Seq<TermView>)
    ensures
        forall|i: int| 0 <= i < cols.len() ==> (#[trigger] cols[i]).content.len() <= tallest(cols),
        cols.len() == 0 ==> tallest(cols) == 0,
        cols.len() > 0 ==> exists|i: int| 0 <= i < cols.len() && tallest(cols) == (#[trigger] cols[i]).content.len(),
    decreases cols.len(),
{
    if cols.len() > 0 {
        let prev = cols.drop_last();
        lemma_tallest(prev);
        assert forall|i: int| 0 <= i < cols.len() implies (#[trigger] cols[i]).content.len() <= tallest(cols) by {
            if i < prev.len() {
                assert(cols[i] == prev[i]);
            }
        }
        if prev.len() > 0 && tallest(cols) == tallest(prev) {
            let i = choose|i: int| 0 <= i < prev.len() && tallest(prev) == (#[trigger] prev[i]).content.len();
            assert(cols[i] == prev[i]);
        } else {
            assert(tallest(cols) == cols[cols.len() - 1].content.len());
        }
    }
}

/// The panes scroll down to the last line of the tallest column of the
/// current region: every column's last line is within the scroll limit, and
/// the limit is the last line of one of them (zero where all are empty).
pub proof fn lemma_scroll_limit_tallest(s: AppView)
    requires
        tallest(current_columns(s)) <= 65536,
    ensures
        forall|i: int|
            0 <= i < current_columns(s).len() ==> (#[trigger] current_columns(s)[i]).content.len()
                <= scroll_limit(s) + 1,
        (forall|i: int| 0 <= i < current_columns(s).len() ==> (#[trigger] current_columns(s)[i]).content.len()
            == 0) ==> scroll_limit(s) == 0,
        (exists|i: int| 0 <= i < current_columns(s).len() && (#[trigger] current_columns(s)[i]).content.len()
            > 0) ==> exists|i: int|
            0 <= i < current_columns(s).len() && (#[trigger] current_columns(s)[i]).content.len()
                == scroll_limit(s) + 1,
{
    let cols = current_columns(s);
    lemma_tallest(cols);
    if cols.len() > 0 {
        let i = choose|i: int| 0 <= i < cols.len() && tallest(cols) == (#[trigger] cols[i]).content.len();
        if tallest(cols) == 0 {
            assert(cols[i].content.len() == 0);
        }
    }
}


/// Picking a column for the current region moves the focus, in the file with
/// that pick made, to the first unresolved region after the picked one in
/// cyclic order (wrapping past the last region); where the pick resolved the
/// last open region, the focus stays on it.
pub proof fn lemma_pick_moves_cyclic(s: AppView)
    requires
        in_bounds(s),
        current_columns(s).len() > 0,
        current_total(s) <= usize::MAX,
    ensures
        ({
            let t = after_pick(s);
            let f = current_file(t)->0;
            let total = region_total(f) as int;
            &&& current_file(t) is Some
            &&& total == current_total(s)
            &&& (exists|i: int| 0 <= i < total && region_unresolved(f, i)) ==> exists|o: int|
                1 <= o <= total && t.region == #[trigger] ((s.region + o) % total) && region_unresolved(
                    f,
                    t.region as int,
                ) && forall|o2: int| 1 <= o2 < o ==> !region_unresolved(f, #[trigger] ((s.region + o2) % total))
            &&& (forall|i: int| 0 <= i < total ==> !region_unresolved(f, i)) ==> t.region == s.region
        }),
{
    let cols = current_columns(s);
    let col = if s.column < cols.len() - 1 {
        s.column
    } else {
        (cols.len() - 1) as usize
    };
    let s1 = AppView {
        files: with_choice(s.files, s.selected_file as int, s.region as int, Some(col)),
        status: "Region "@ + decimal((s.region + 1) as nat) + " \u{2192} "@ + spec_title(cols[col as int]),
        ..s
    };
    lemma_with_choice_keeps_regions(s, Some(col));
    assert(current_file(s1) is Some);
    assert(current_total(s1) == current_total(s));
    lemma_goto_next_unresolved_cyclic(s1);
    assert(after_pick(s) == after_goto_next_unresolved(s1));
}

} // verus!
