//! The file tree sidebar: which directories are expanded, which row is selected, and what keys and
//! clicks do.
use crate::diagnostics::{
    counts_by_path, diagnostic_counts_by_path, is_countable, no_diagnostics, report_views,
    DiagnosticCounts, DiagnosticReport, ReportView,
};
use crate::entry::{entry_row, file_name, name_text, EntryKind, EntryView, FileTreeEntry};
use crate::geometry::{capped, minus, Rect};
use crate::key::{KeyCode, KeyEvent};
use crate::listing::{all_below, child_views, lists_below, Child, ChildView, Listing};
use crate::path::{lemma_below_is_strict_order, PathView, TreePath};
use crate::path_map::{PathMap, PathSet};
use crate::text::{decode_lossy, shown_text};
use crate::tree::{
    branch, child_rows, expanded_below, followed_by, lemma_expanded_below_shrinks,
    lemma_walk_step, tree_rows, walk, WalkView,
};
use vstd::prelude::*;
use vstd::string::StringExecFns;

verus! {

/// The width of a new sidebar.
pub const DEFAULT_SIDEBAR_WIDTH: u16 = 32;

/// The least width of a sidebar.
pub const MIN_SIDEBAR_WIDTH: u16 = 18;

/// The least width that is left to the editor beside the sidebar.
pub const MIN_EDITOR_WIDTH: u16 = 20;

/// The longest time between the clicks of a double click, in nanoseconds.
pub const DOUBLE_CLICK_THRESHOLD: u64 = 500_000_000;

/// Which entries of directories are shown.
#[derive(Clone, Copy, Debug, PartialEq, Eq, Structural)]
pub struct FileTreeOptions {
    pub hidden: bool,
    pub follow_symlinks: bool,
    pub parents: bool,
    pub ignore: bool,
    pub git_ignore: bool,
    pub git_global: bool,
    pub git_exclude: bool,
    pub dedup_symlinks: bool,
}

/// What the sidebar makes of a key or a click.
#[derive(Debug)]
pub enum FileTreeEvent {
    Consumed,
    Ignored,
    Close,
    Open(TreePath),
}

/// What the sidebar makes of a key or a click.
pub enum EventView {
    Consumed,
    Ignored,
    Close,
    Open(PathView),
}

impl View for FileTreeEvent {
    type V = EventView;

    open spec fn view(&self) -> EventView {
        match *self {
            FileTreeEvent::Consumed => EventView::Consumed,
            FileTreeEvent::Ignored => EventView::Ignored,
            FileTreeEvent::Close => EventView::Close,
            FileTreeEvent::Open(path) => EventView::Open(path@),
        }
    }
}

/// The result of an operation that needs to know the contents of directories. Where one that it
/// needs is not in the listing it was given, it has changed nothing and asks for that directory.
#[derive(Debug)]
pub enum Step<T> {
    Done(T),
    Read(TreePath),
}

/// Why there can be no sidebar for a path.
#[derive(Debug)]
pub enum RootError {
    NotFound(TreePath),
    NotADirectory(TreePath),
}

impl RootError {
    /// The message of the error.
    pub open spec fn text(self) -> Seq<char> {
        match self {
            RootError::NotFound(path) => shown_text(path@.text()) + " does not exist"@,
            RootError::NotADirectory(path) => shown_text(path@.text()) + " is not a directory"@,
        }
    }

    /// The message of the error.
    pub fn message(&self) -> (r: String)
        ensures
            r@ == self.text(),
    {
        match self {
            RootError::NotFound(path) => {
                let mut out = decode_lossy(&path.text());
                out.append(" does not exist");
                out
            },
            RootError::NotADirectory(path) => {
                let mut out = decode_lossy(&path.text());
                out.append(" is not a directory");
                out
            },
        }
    }
}

/// The state of the sidebar.
pub struct SidebarView {
    pub root: PathView,
    pub options: FileTreeOptions,
    pub expanded: Set<PathView>,
    pub entries: Seq<EntryView>,
    pub selected: int,
    pub scroll: int,
    pub width: u16,
    pub diagnostics: Map<PathView, DiagnosticCounts>,
    pub diagnostics_generation: u64,
    pub last_click: Option<(PathView, u64)>,
}

/// The result of an operation on the sidebar: the new state and what is reported, or the directory
/// that has to be read first.
pub enum OutcomeView {
    Done(SidebarView, EventView),
    Read(PathView),
}

/// The first row that shows `path`.
pub open spec fn position(entries: Seq<EntryView>, path: PathView) -> Option<int>
    decreases entries.len(),
{
    if entries.len() == 0 {
        None
    } else {
        match position(entries.drop_last(), path) {
            Some(i) => Some(i),
            None => if entries.last().path == path {
                Some(entries.len() - 1)
            } else {
                None
            },
        }
    }
}

/// The last row before `i` that is less deep than `depth`.
pub open spec fn shallower_before(entries: Seq<EntryView>, i: int, depth: nat) -> Option<int>
    decreases i,
{
    if i <= 0 {
        None
    } else if entries[i - 1].depth < depth {
        Some(i - 1)
    } else {
        shallower_before(entries, i - 1, depth)
    }
}

/// `expanded` with the ancestors of `path` that lie in the tree of `root`.
pub open spec fn with_ancestors(
    expanded: Set<PathView>,
    path: PathView,
    root: PathView,
) -> Set<PathView>
    decreases path.parts.len(),
{
    match path.parent() {
        Some(parent) => if parent.starts_with(root) {
            with_ancestors(expanded.insert(parent), parent, root)
        } else {
            expanded
        },
        None => expanded,
    }
}

/// The last of `n` rows if `selected` is behind it, else `selected`.
pub open spec fn clamped(selected: int, n: int) -> int {
    if selected >= n {
        minus(n, 1)
    } else {
        selected
    }
}

/// The width that a sidebar of the width `requested` gets in `area`: at least the least width of a
/// sidebar, and at most what leaves the editor its least width.
pub open spec fn clamped_width(area: Rect, requested: u16) -> Option<u16> {
    let max_width = area.width - MIN_EDITOR_WIDTH;
    if max_width < MIN_SIDEBAR_WIDTH {
        None
    } else if requested < MIN_SIDEBAR_WIDTH {
        Some(MIN_SIDEBAR_WIDTH)
    } else if requested > max_width {
        Some(max_width as u16)
    } else {
        Some(requested)
    }
}

impl SidebarView {
    pub open spec fn with_selected(self, selected: int) -> SidebarView {
        SidebarView { selected, ..self }
    }

    /// The state with the row of `path` selected, or as it is where there is no such row.
    pub open spec fn selecting(self, path: PathView) -> SidebarView {
        match position(self.entries, path) {
            Some(i) => self.with_selected(i),
            None => self,
        }
    }

    /// The state with the rows of the tree in which the directories `expanded` are expanded, or
    /// the directory that has to be read first.
    pub open spec fn rebuilt(
        self,
        expanded: Set<PathView>,
        disk: Map<PathView, Seq<ChildView>>,
    ) -> Result<SidebarView, PathView> {
        match tree_rows(disk, expanded, self.root) {
            WalkView::Listed(rows) => Ok(
                SidebarView {
                    expanded,
                    entries: rows,
                    selected: clamped(self.selected, rows.len() as int),
                    ..self
                },
            ),
            WalkView::Unread(dir) => Err(dir),
        }
    }

    /// The outcome of a change of the expanded directories that keeps the row of `path` selected.
    pub open spec fn rebuilt_at(
        self,
        expanded: Set<PathView>,
        path: PathView,
        disk: Map<PathView, Seq<ChildView>>,
    ) -> OutcomeView {
        match self.rebuilt(expanded, disk) {
            Ok(state) => OutcomeView::Done(state.selecting(path), EventView::Consumed),
            Err(dir) => OutcomeView::Read(dir),
        }
    }

    pub open spec fn moved(self, delta: int) -> SidebarView {
        if self.entries.len() == 0 {
            self.with_selected(0)
        } else if delta < 0 {
            self.with_selected(minus(self.selected, -delta))
        } else if self.selected + delta >= self.entries.len() {
            self.with_selected(self.entries.len() - 1)
        } else {
            self.with_selected(self.selected + delta)
        }
    }

    /// The row of the directory that holds the entry of row `i`.
    pub open spec fn parent_row(self, i: int) -> Option<int> {
        if i >= self.entries.len() || self.entries[i].depth == 0 {
            None
        } else {
            shallower_before(self.entries, i, self.entries[i].depth)
        }
    }

    /// The row below row `i`, if it belongs to an entry of the directory of row `i`.
    pub open spec fn first_child_row(self, i: int) -> Option<int> {
        if i + 1 < self.entries.len() && self.entries[i + 1].depth > self.entries[i].depth {
            Some(i + 1)
        } else {
            None
        }
    }

    /// What becomes of the sidebar when the selected row is collapsed or left for its parent.
    pub open spec fn collapsed(self, disk: Map<PathView, Seq<ChildView>>) -> OutcomeView {
        if self.selected >= self.entries.len() {
            OutcomeView::Done(self, EventView::Consumed)
        } else {
            let entry = self.entries[self.selected];
            if entry.kind == EntryKind::Directory && entry.expanded {
                self.rebuilt_at(self.expanded.remove(entry.path), entry.path, disk)
            } else {
                match self.parent_row(self.selected) {
                    Some(i) => OutcomeView::Done(self.with_selected(i), EventView::Consumed),
                    None => OutcomeView::Done(self, EventView::Consumed),
                }
            }
        }
    }

    /// What becomes of the sidebar when the selected row is expanded, entered or opened.
    pub open spec fn descended(self, disk: Map<PathView, Seq<ChildView>>) -> OutcomeView {
        if self.selected >= self.entries.len() {
            OutcomeView::Done(self, EventView::Consumed)
        } else {
            let entry = self.entries[self.selected];
            match entry.kind {
                EntryKind::File => OutcomeView::Done(self, EventView::Open(entry.path)),
                EntryKind::Directory => if !entry.expanded {
                    self.rebuilt_at(self.expanded.insert(entry.path), entry.path, disk)
                } else {
                    match self.first_child_row(self.selected) {
                        Some(i) => OutcomeView::Done(self.with_selected(i), EventView::Consumed),
                        None => OutcomeView::Done(self, EventView::Consumed),
                    }
                },
            }
        }
    }

    /// What becomes of the sidebar when the selected row is activated: a file is opened, a
    /// directory is expanded or collapsed.
    pub open spec fn activated(self, disk: Map<PathView, Seq<ChildView>>) -> OutcomeView {
        if self.selected >= self.entries.len() {
            OutcomeView::Done(self, EventView::Consumed)
        } else {
            let entry = self.entries[self.selected];
            match entry.kind {
                EntryKind::File => OutcomeView::Done(self, EventView::Open(entry.path)),
                EntryKind::Directory => if entry.expanded {
                    self.rebuilt_at(self.expanded.remove(entry.path), entry.path, disk)
                } else {
                    self.rebuilt_at(self.expanded.insert(entry.path), entry.path, disk)
                },
            }
        }
    }

    /// What becomes of the sidebar when a key is pressed.
    pub open spec fn keyed(self, code: KeyCode, disk: Map<PathView, Seq<ChildView>>) -> OutcomeView {
        match code {
            KeyCode::Esc => OutcomeView::Done(self, EventView::Close),
            KeyCode::Up => OutcomeView::Done(self.moved(-1), EventView::Consumed),
            KeyCode::Down => OutcomeView::Done(self.moved(1), EventView::Consumed),
            KeyCode::Home => OutcomeView::Done(self.with_selected(0), EventView::Consumed),
            KeyCode::End => OutcomeView::Done(
                self.with_selected(minus(self.entries.len() as int, 1)),
                EventView::Consumed,
            ),
            KeyCode::Left => self.collapsed(disk),
            KeyCode::Right => self.descended(disk),
            KeyCode::Enter => self.activated(disk),
            KeyCode::Char(c) => if c == 'k' {
                OutcomeView::Done(self.moved(-1), EventView::Consumed)
            } else if c == 'j' {
                OutcomeView::Done(self.moved(1), EventView::Consumed)
            } else if c == 'h' {
                self.collapsed(disk)
            } else if c == 'l' {
                self.descended(disk)
            } else {
                OutcomeView::Done(self, EventView::Ignored)
            },
            _ => OutcomeView::Done(self, EventView::Ignored),
        }
    }

    /// The entry whose row is drawn at row `row` of the screen; the first row of the area is the
    /// title.
    pub open spec fn entry_at_row(self, area: Rect, row: u16) -> Option<int> {
        if row > area.y && self.scroll + (row - area.y - 1) < self.entries.len() {
            Some(self.scroll + (row - area.y - 1))
        } else {
            None
        }
    }

    /// The entry of row `i` was clicked no longer than the double click threshold before `now`.
    pub open spec fn is_double_click(self, i: int, now: u64) -> bool {
        match self.last_click {
            Some((path, at)) => path == self.entries[i].path && minus(now as int, at as int)
                <= DOUBLE_CLICK_THRESHOLD,
            None => false,
        }
    }

    /// What becomes of the sidebar when row `row` of the screen is clicked at the time `now`.
    pub open spec fn clicked(
        self,
        area: Rect,
        row: u16,
        now: u64,
        disk: Map<PathView, Seq<ChildView>>,
    ) -> OutcomeView {
        match self.entry_at_row(area, row) {
            None => OutcomeView::Done(self, EventView::Consumed),
            Some(i) => {
                let state = SidebarView {
                    selected: i,
                    last_click: Some((self.entries[i].path, now)),
                    ..self
                };
                if self.is_double_click(i, now) {
                    state.activated(disk)
                } else {
                    OutcomeView::Done(state, EventView::Consumed)
                }
            },
        }
    }

    /// What becomes of the sidebar when `path` is revealed: its ancestors are expanded and its
    /// row is selected.
    pub open spec fn revealed(
        self,
        path: PathView,
        disk: Map<PathView, Seq<ChildView>>,
    ) -> OutcomeView {
        if !path.starts_with(self.root) {
            OutcomeView::Done(self, EventView::Consumed)
        } else {
            self.rebuilt_at(with_ancestors(self.expanded, path, self.root), path, disk)
        }
    }

    /// The state scrolled so that the selected row is among the `rows` that are visible.
    pub open spec fn scrolled(self, rows: int) -> SidebarView {
        let scroll = if rows == 0 || self.selected < self.scroll {
            self.selected
        } else if self.selected >= self.scroll + rows {
            self.selected + 1 - rows
        } else {
            self.scroll
        };
        SidebarView { scroll, ..self }
    }

    /// The state with `column` as the last column of the sidebar, as far as `area` has room for it.
    pub open spec fn resized(self, area: Rect, column: u16) -> SidebarView {
        match clamped_width(area, capped(minus(column as int, area.x as int) + 1) as u16) {
            Some(width) => SidebarView { width, ..self },
            None => self,
        }
    }

    /// The state with the diagnostics of the given generation counted.
    pub open spec fn diagnosed(self, generation: u64, reports: Seq<ReportView>) -> SidebarView {
        if self.diagnostics_generation == generation {
            self
        } else {
            SidebarView {
                diagnostics: counts_by_path(reports),
                diagnostics_generation: generation,
                ..self
            }
        }
    }

    /// The counts of the diagnostics of `path`.
    pub open spec fn counts_of(self, path: PathView) -> DiagnosticCounts {
        if self.diagnostics.contains_key(path) {
            self.diagnostics[path]
        } else {
            no_diagnostics()
        }
    }

    /// A row is selected, unless there is none.
    pub open spec fn selects_a_row(self) -> bool {
        0 <= self.selected && (self.selected < self.entries.len() || self.selected == 0)
    }

    /// The rows are those of a tree in which the expanded directories are expanded.
    pub open spec fn shows_a_tree(self) -> bool {
        exists|disk: Map<PathView, Seq<ChildView>>|
            lists_below(disk) && #[trigger] tree_rows(disk, self.expanded, self.root)
                == WalkView::Listed(self.entries)
    }

    pub open spec fn wf(self) -> bool {
        &&& self.expanded.finite()
        &&& self.selects_a_row()
        &&& self.shows_a_tree()
    }
}

/// A sidebar before its tree is shown.
pub open spec fn new_sidebar(root: PathView, options: FileTreeOptions) -> SidebarView {
    SidebarView {
        root,
        options,
        expanded: Set::empty(),
        entries: Seq::empty(),
        selected: 0,
        scroll: 0,
        width: DEFAULT_SIDEBAR_WIDTH,
        diagnostics: Map::empty(),
        diagnostics_generation: 0,
        last_click: None,
    }
}

pub open spec fn entry_views(entries: Seq<FileTreeEntry>) -> Seq<EntryView> {
    Seq::new(entries.len(), |i: int| entries[i]@)
}

/// The sidebar.
#[derive(Debug)]
pub struct FileTreeSidebar {
    root: TreePath,
    options: FileTreeOptions,
    expanded_dirs: PathSet,
    entries: Vec<FileTreeEntry>,
    selected: usize,
    scroll: usize,
    width: u16,
    cached_diagnostics: PathMap<DiagnosticCounts>,
    diagnostics_generation: u64,
    last_click: Option<(TreePath, u64)>,
}

impl View for FileTreeSidebar {
    type V = SidebarView;

    closed spec fn view(&self) -> SidebarView {
        SidebarView {
            root: self.root@,
            options: self.options,
            expanded: self.expanded_dirs@,
            entries: entry_views(self.entries@),
            selected: self.selected as int,
            scroll: self.scroll as int,
            width: self.width,
            diagnostics: self.cached_diagnostics@,
            diagnostics_generation: self.diagnostics_generation,
            last_click: match self.last_click {
                Some((path, at)) => Some((path@, at)),
                None => None,
            },
        }
    }
}

/// `r` and `after` report `outcome`, which is that of an operation on the state `before`.
pub open spec fn reports(
    outcome: OutcomeView,
    before: SidebarView,
    after: SidebarView,
    r: Step<FileTreeEvent>,
) -> bool {
    match outcome {
        OutcomeView::Done(state, event) => after == state && r is Done && r->Done_0@ == event,
        OutcomeView::Read(dir) => after == before && r is Read && r->Read_0@ == dir,
    }
}

impl FileTreeSidebar {
    pub closed spec fn wf(&self) -> bool {
        &&& self.expanded_dirs.wf()
        &&& self.cached_diagnostics.wf()
        &&& self@.wf()
    }

    /// A sidebar shows a tree, and one of its rows is selected.
    pub proof fn lemma_wf(&self)
        requires
            self.wf(),
        ensures
            self@.wf(),
            0 <= self@.scroll,
    {
    }

    /// A sidebar for the directory `root`, with nothing but `root` expanded. `exists` and `is_dir`
    /// say what is known of `root`.
    pub fn new(
        root: TreePath,
        options: FileTreeOptions,
        exists: bool,
        is_dir: bool,
        listing: &Listing,
    ) -> (r: Result<Step<FileTreeSidebar>, RootError>)
        requires
            listing.wf(),
        ensures
            !exists ==> r is Err && r->Err_0 is NotFound && r->Err_0->NotFound_0@ == root@,
            exists && !is_dir ==> r is Err && r->Err_0 is NotADirectory
                && r->Err_0->NotADirectory_0@ == root@,
            exists && is_dir ==> r is Ok,
            exists && is_dir ==> match new_sidebar(root@, options).rebuilt(
                set![root@],
                listing@,
            ) {
                Ok(state) => r->Ok_0 is Done && r->Ok_0->Done_0@ == state && r->Ok_0->Done_0.wf(),
                Err(dir) => r->Ok_0 is Read && r->Ok_0->Read_0@ == dir,
            },
    {
        if !exists {
            return Err(RootError::NotFound(root));
        }
        if !is_dir {
            return Err(RootError::NotADirectory(root));
        }
        let mut expanded_dirs = PathSet::new();
        expanded_dirs.insert(root.clone());
        assert(expanded_dirs@ =~= set![root@]);
        let mut sidebar = FileTreeSidebar {
            root,
            options,
            expanded_dirs: PathSet::new(),
            entries: Vec::new(),
            selected: 0,
            scroll: 0,
            width: DEFAULT_SIDEBAR_WIDTH,
            cached_diagnostics: PathMap::new(),
            diagnostics_generation: 0,
            last_click: None,
        };
        assert(entry_views(sidebar.entries@) == Seq::<EntryView>::empty());
        assert(sidebar@ == new_sidebar(root@, options));
        match sidebar.rebuild_with(expanded_dirs, listing) {
            Some(dir) => Ok(Step::Read(dir)),
            None => Ok(Step::Done(sidebar)),
        }
    }

    /// Shows the tree in which the directories `expanded` are expanded. Where a directory of it is
    /// not in the listing, changes nothing and gives that directory.
    fn rebuild_with(&mut self, expanded: PathSet, listing: &Listing) -> (r: Option<TreePath>)
        requires
            expanded.wf(),
            listing.wf(),
            old(self).cached_diagnostics.wf(),
            old(self).expanded_dirs.wf(),
        ensures
            match old(self)@.rebuilt(expanded@, listing@) {
                Ok(state) => r is None && final(self)@ == state && final(self).wf(),
                Err(dir) => r is Some && r->0@ == dir && *final(self) == *old(self),
            },
    {
        let children = match listing.get(&self.root) {
            Some(children) => children,
            None => return Some(self.root.clone()),
        };
        let mut entries: Vec<FileTreeEntry> = Vec::new();
        proof {
            listing.lemma_lists_below();
            expanded.lemma_finite();
            vstd::set_lib::lemma_len_subset(expanded_below(expanded@, self.root@), expanded@);
        }
        let missing = Self::collect_children(&expanded, listing, &self.root, children, 0, &mut entries);
        if missing.is_some() {
            return missing;
        }
        let ghost rows = entry_views(entries@);
        assert(tree_rows(listing@, expanded@, self.root@) == WalkView::Listed(rows)) by {
            match tree_rows(listing@, expanded@, self.root@) {
                WalkView::Listed(found) => {
                    assert(Seq::<EntryView>::empty() + found == found);
                    assert(entry_views(Seq::<FileTreeEntry>::empty()) == Seq::<EntryView>::empty());
                },
                WalkView::Unread(_) => {},
            }
        }
        self.expanded_dirs = expanded;
        self.entries = entries;
        if self.selected >= self.entries.len() {
            self.selected = self.entries.len().saturating_sub(1);
        }
        None
    }

    /// Shows the tree as it is in the listing. Where a directory of it is not in the listing,
    /// changes nothing and asks for that directory.
    pub fn rebuild(&mut self, listing: &Listing) -> (r: Step<()>)
        requires
            old(self).wf(),
            listing.wf(),
        ensures
            final(self).wf(),
            match old(self)@.rebuilt(old(self)@.expanded, listing@) {
                Ok(state) => r is Done && final(self)@ == state,
                Err(dir) => r is Read && r->Read_0@ == dir && final(self)@ == old(self)@,
            },
    {
        let expanded = self.expanded_dirs.duplicate();
        match self.rebuild_with(expanded, listing) {
            Some(dir) => Step::Read(dir),
            None => Step::Done(()),
        }
    }

    /// The first row that shows `path`.
    fn row_of(&self, path: &TreePath) -> (r: Option<usize>)
        ensures
            match position(self@.entries, path@) {
                Some(i) => r is Some && r->0 == i && 0 <= i < self@.entries.len(),
                None => r is None,
            },
    {
        let ghost all = self@.entries;
        let mut i: usize = 0;
        assert(all.take(0) == Seq::<EntryView>::empty());
        while i < self.entries.len()
            invariant
                i <= self.entries.len(),
                all == self@.entries,
                position(all.take(i as int), path@) is None,
            decreases self.entries.len() - i,
        {
            assert(all.take(i + 1).drop_last() == all.take(i as int));
            assert(all.take(i + 1).last() == self.entries@[i as int]@);
            if self.entries[i].path.equals(path) {
                proof {
                    lemma_position_take(all, i + 1, path@);
                }
                return Some(i);
            }
            i += 1;
        }
        assert(all.take(i as int) == all);
        None
    }

    /// Rebuilds the rows with the directories `expanded` expanded and keeps the row of `path`
    /// selected.
    fn rebuild_at(&mut self, expanded: PathSet, path: &TreePath, listing: &Listing) -> (r: Step<
        FileTreeEvent,
    >)
        requires
            old(self).wf(),
            expanded.wf(),
            listing.wf(),
        ensures
            final(self).wf(),
            reports(
                old(self)@.rebuilt_at(expanded@, path@, listing@),
                old(self)@,
                final(self)@,
                r,
            ),
    {
        if let Some(dir) = self.rebuild_with(expanded, listing) {
            return Step::Read(dir);
        }
        if let Some(index) = self.row_of(path) {
            self.selected = index;
        }
        Step::Done(FileTreeEvent::Consumed)
    }

    /// Expands the ancestors of `path` and selects its row. Does nothing for a path outside the
    /// tree.
    pub fn reveal_path(&mut self, path: &TreePath, listing: &Listing) -> (r: Step<()>)
        requires
            old(self).wf(),
            listing.wf(),
        ensures
            final(self).wf(),
            match old(self)@.revealed(path@, listing@) {
                OutcomeView::Done(state, _) => r is Done && final(self)@ == state,
                OutcomeView::Read(dir) => r is Read && r->Read_0@ == dir && final(self)@ == old(
                    self,
                )@,
            },
    {
        if !path.starts_with(&self.root) {
            return Step::Done(());
        }
        let mut expanded = self.expanded_dirs.duplicate();
        let mut current = path.clone();
        let ghost goal = with_ancestors(self@.expanded, path@, self@.root);
        let mut at_root = false;
        while !at_root
            invariant
                expanded.wf(),
                with_ancestors(expanded@, current@, self@.root) == goal,
                at_root ==> expanded@ == goal,
            ensures
                expanded@ == goal,
            decreases current@.parts.len() + if at_root { 0nat } else { 1nat },
        {
            match current.parent() {
                Some(parent) => {
                    if !parent.starts_with(&self.root) {
                        break;
                    }
                    expanded.insert(parent.clone());
                    if parent.equals(&self.root) {
                        proof {
                            lemma_no_ancestors_above(expanded@, self@.root);
                        }
                        at_root = true;
                    }
                    current = parent;
                },
                None => {
                    break;
                },
            }
        }
        match self.rebuild_at(expanded, path, listing) {
            Step::Done(_) => Step::Done(()),
            Step::Read(dir) => Step::Read(dir),
        }
    }

    /// The width that a sidebar of the width `requested` gets in `area`, or `None` where there is
    /// no room for one.
    pub fn clamp_width(area: Rect, requested: u16) -> (r: Option<u16>)
        ensures
            r == clamped_width(area, requested),
    {
        let max_width = area.width.saturating_sub(MIN_EDITOR_WIDTH);
        if max_width < MIN_SIDEBAR_WIDTH {
            return None;
        }
        if requested < MIN_SIDEBAR_WIDTH {
            Some(MIN_SIDEBAR_WIDTH)
        } else if requested > max_width {
            Some(max_width)
        } else {
            Some(requested)
        }
    }

    /// The width of the sidebar in `area`.
    pub fn width_for(&self, area: Rect) -> (r: Option<u16>)
        ensures
            r == clamped_width(area, self@.width),
    {
        Self::clamp_width(area, self.width)
    }

    /// Makes `column` the last column of the sidebar, as far as `area` has room for it.
    pub fn set_width_from_column(&mut self, area: Rect, column: u16)
        requires
            old(self).wf(),
        ensures
            final(self).wf(),
            final(self)@ == old(self)@.resized(area, column),
    {
        let desired = column.saturating_sub(area.x).saturating_add(1);
        if let Some(width) = Self::clamp_width(area, desired) {
            self.width = width;
        }
    }

    /// Handles a click on row `row` of the screen, with the sidebar in `area`, at the time `now`
    /// in nanoseconds.
    pub fn click_at_row(&mut self, area: Rect, row: u16, now: u64, listing: &Listing) -> (r: Step<
        FileTreeEvent,
    >)
        requires
            old(self).wf(),
            listing.wf(),
        ensures
            final(self).wf(),
            reports(
                old(self)@.clicked(area, row, now, listing@),
                old(self)@,
                final(self)@,
                r,
            ),
    {
        let index = match self.entry_index_at_row(area, row) {
            Some(index) => index,
            None => return Step::Done(FileTreeEvent::Consumed),
        };
        let path = self.entries[index].path.clone();
        assert(path@ == self@.entries[index as int].path);
        let is_double_click = match &self.last_click {
            Some((clicked, at)) => clicked.equals(&path) && now.saturating_sub(*at)
                <= DOUBLE_CLICK_THRESHOLD,
            None => false,
        };
        let selected = self.selected;
        self.selected = index;
        let mut last_click = Some((path, now));
        std::mem::swap(&mut self.last_click, &mut last_click);
        if !is_double_click {
            return Step::Done(FileTreeEvent::Consumed);
        }
        match self.activate_selected(listing) {
            Step::Done(event) => Step::Done(event),
            Step::Read(dir) => {
                self.selected = selected;
                self.last_click = last_click;
                Step::Read(dir)
            },
        }
    }

    /// Handles a key press.
    pub fn handle_key(&mut self, key: KeyEvent, listing: &Listing) -> (r: Step<FileTreeEvent>)
        requires
            old(self).wf(),
            listing.wf(),
        ensures
            final(self).wf(),
            reports(old(self)@.keyed(key.code, listing@), old(self)@, final(self)@, r),
    {
        match key.code {
            KeyCode::Esc => Step::Done(FileTreeEvent::Close),
            KeyCode::Up | KeyCode::Char('k') => {
                self.move_selection(-1);
                Step::Done(FileTreeEvent::Consumed)
            },
            KeyCode::Down | KeyCode::Char('j') => {
                self.move_selection(1);
                Step::Done(FileTreeEvent::Consumed)
            },
            KeyCode::Home => {
                self.selected = 0;
                Step::Done(FileTreeEvent::Consumed)
            },
            KeyCode::End => {
                self.selected = self.entries.len().saturating_sub(1);
                Step::Done(FileTreeEvent::Consumed)
            },
            KeyCode::Left | KeyCode::Char('h') => self.collapse_or_select_parent(listing),
            KeyCode::Right | KeyCode::Char('l') => self.expand_or_descend(listing),
            KeyCode::Enter => self.activate_selected(listing),
            _ => Step::Done(FileTreeEvent::Ignored),
        }
    }

    /// The entry whose row is drawn at row `row` of the screen.
    pub fn entry_index_at_row(&self, area: Rect, row: u16) -> (r: Option<usize>)
        ensures
            match self@.entry_at_row(area, row) {
                Some(i) => r is Some && r->0 == i && i < self@.entries.len(),
                None => r is None,
            },
    {
        if row <= area.y {
            return None;
        }
        let offset: usize = (row - area.y - 1) as usize;
        if self.scroll < self.entries.len() && offset < self.entries.len() - self.scroll {
            Some(self.scroll + offset)
        } else {
            None
        }
    }

    /// Moves the selection by `delta` rows, not beyond the first and the last one.
    pub fn move_selection(&mut self, delta: isize)
        requires
            old(self).wf(),
        ensures
            final(self).wf(),
            final(self)@ == old(self)@.moved(delta as int),
    {
        if self.entries.is_empty() {
            self.selected = 0;
            return;
        }
        if delta < 0 {
            let magnitude: usize = (-(delta + 1)) as usize + 1;
            self.selected = self.selected.saturating_sub(magnitude);
        } else {
            let last = self.entries.len() - 1;
            if (delta as usize) < last - self.selected {
                self.selected = self.selected + delta as usize;
            } else {
                self.selected = last;
            }
        }
    }

    /// Collapses the selected directory if it is expanded, else selects the directory that holds
    /// the selected entry.
    pub fn collapse_or_select_parent(&mut self, listing: &Listing) -> (r: Step<FileTreeEvent>)
        requires
            old(self).wf(),
            listing.wf(),
        ensures
            final(self).wf(),
            reports(old(self)@.collapsed(listing@), old(self)@, final(self)@, r),
    {
        if self.selected >= self.entries.len() {
            return Step::Done(FileTreeEvent::Consumed);
        }
        let entry = &self.entries[self.selected];
        assert(entry@ == self@.entries[self@.selected]);
        if entry.kind == EntryKind::Directory && entry.expanded {
            let path = entry.path.clone();
            let mut expanded = self.expanded_dirs.duplicate();
            expanded.remove(&path);
            return self.rebuild_at(expanded, &path, listing);
        }
        if let Some(parent) = self.parent_index(self.selected) {
            self.selected = parent;
        }
        Step::Done(FileTreeEvent::Consumed)
    }

    /// Opens the selected file, expands the selected directory, or selects the first entry of the
    /// selected directory if it is expanded already.
    pub fn expand_or_descend(&mut self, listing: &Listing) -> (r: Step<FileTreeEvent>)
        requires
            old(self).wf(),
            listing.wf(),
        ensures
            final(self).wf(),
            reports(old(self)@.descended(listing@), old(self)@, final(self)@, r),
    {
        if self.selected >= self.entries.len() {
            return Step::Done(FileTreeEvent::Consumed);
        }
        let entry = &self.entries[self.selected];
        assert(entry@ == self@.entries[self@.selected]);
        let path = entry.path.clone();
        match entry.kind {
            EntryKind::File => Step::Done(FileTreeEvent::Open(path)),
            EntryKind::Directory => {
                if !entry.expanded {
                    let mut expanded = self.expanded_dirs.duplicate();
                    expanded.insert(path.clone());
                    return self.rebuild_at(expanded, &path, listing);
                }
                if let Some(child) = self.first_child_index(self.selected) {
                    self.selected = child;
                }
                Step::Done(FileTreeEvent::Consumed)
            },
        }
    }

    /// Opens the selected file, or expands or collapses the selected directory.
    pub fn activate_selected(&mut self, listing: &Listing) -> (r: Step<FileTreeEvent>)
        requires
            old(self).wf(),
            listing.wf(),
        ensures
            final(self).wf(),
            reports(old(self)@.activated(listing@), old(self)@, final(self)@, r),
    {
        if self.selected >= self.entries.len() {
            return Step::Done(FileTreeEvent::Consumed);
        }
        let entry = &self.entries[self.selected];
        assert(entry@ == self@.entries[self@.selected]);
        let path = entry.path.clone();
        match entry.kind {
            EntryKind::File => Step::Done(FileTreeEvent::Open(path)),
            EntryKind::Directory => {
                let mut expanded = self.expanded_dirs.duplicate();
                if entry.expanded {
                    expanded.remove(&path);
                } else {
                    expanded.insert(path.clone());
                }
                self.rebuild_at(expanded, &path, listing)
            },
        }
    }

    /// The row of the directory that holds the entry of row `index`.
    pub fn parent_index(&self, index: usize) -> (r: Option<usize>)
        ensures
            match self@.parent_row(index as int) {
                Some(i) => r is Some && r->0 == i && 0 <= i < index < self@.entries.len(),
                None => r is None,
            },
    {
        if index >= self.entries.len() {
            return None;
        }
        let depth = self.entries[index].depth;
        assert(self@.entries[index as int] == self.entries@[index as int]@);
        if depth == 0 {
            return None;
        }
        let mut i: usize = index;
        while i > 0
            invariant
                i <= index < self.entries.len(),
                depth == self@.entries[index as int].depth,
                depth > 0,
                shallower_before(self@.entries, index as int, depth as nat) == shallower_before(
                    self@.entries,
                    i as int,
                    depth as nat,
                ),
            ensures
                shallower_before(self@.entries, index as int, depth as nat) is None,
            decreases i,
        {
            assert(self@.entries[i - 1] == self.entries@[i - 1]@);
            if self.entries[i - 1].depth < depth {
                return Some(i - 1);
            }
            i -= 1;
        }
        None
    }

    /// The row below row `index`, if it belongs to an entry of the directory of row `index`.
    pub fn first_child_index(&self, index: usize) -> (r: Option<usize>)
        ensures
            match self@.first_child_row(index as int) {
                Some(i) => r is Some && r->0 == i && i < self@.entries.len(),
                None => r is None,
            },
    {
        if index >= self.entries.len() {
            return None;
        }
        let depth = self.entries[index].depth;
        let child = index + 1;
        assert(self@.entries[index as int] == self.entries@[index as int]@);
        if child < self.entries.len() && self.entries[child].depth > depth {
            assert(self@.entries[child as int] == self.entries@[child as int]@);
            Some(child)
        } else {
            if child < self.entries.len() {
                assert(self@.entries[child as int] == self.entries@[child as int]@);
            }
            None
        }
    }

    /// Scrolls so that the selected row is among the `visible_rows` that are visible.
    pub fn ensure_selected_visible(&mut self, visible_rows: usize)
        requires
            old(self).wf(),
        ensures
            final(self).wf(),
            final(self)@ == old(self)@.scrolled(visible_rows as int),
    {
        assert(self.selected < self.entries.len() || self.selected == 0) by {
            assert(self@.selects_a_row());
        }
        if visible_rows == 0 {
            self.scroll = self.selected;
            return;
        }
        if self.selected < self.scroll {
            self.scroll = self.selected;
        }
        let last_visible = self.scroll.saturating_add(visible_rows);
        if self.selected >= last_visible {
            self.scroll = self.selected + 1 - visible_rows;
        }
    }

    /// Counts the diagnostics anew, unless they are those of the generation counted last.
    pub fn refresh_diagnostics(&mut self, generation: u64, reports: &Vec<DiagnosticReport>)
        requires
            old(self).wf(),
            old(self)@.diagnostics_generation != generation ==> is_countable(
                report_views(reports@),
            ),
        ensures
            final(self).wf(),
            final(self)@ == old(self)@.diagnosed(generation, report_views(reports@)),
    {
        if self.diagnostics_generation == generation {
            return;
        }
        self.cached_diagnostics = diagnostic_counts_by_path(reports);
        self.diagnostics_generation = generation;
    }

    /// The name of the root of the tree.
    pub fn root_label(&self) -> (r: String)
        ensures
            r@ == name_text(self@.root),
    {
        file_name(&self.root)
    }

    pub fn root(&self) -> (r: &TreePath)
        ensures
            r@ == self@.root,
    {
        &self.root
    }

    pub fn options(&self) -> (r: FileTreeOptions)
        ensures
            r == self@.options,
    {
        self.options
    }

    /// The rows of the tree.
    pub fn entries(&self) -> (r: &Vec<FileTreeEntry>)
        ensures
            entry_views(r@) == self@.entries,
    {
        &self.entries
    }

    /// The selected row.
    pub fn selected(&self) -> (r: usize)
        ensures
            r == self@.selected,
    {
        self.selected
    }

    /// The first row that is drawn.
    pub fn scroll(&self) -> (r: usize)
        ensures
            r == self@.scroll,
    {
        self.scroll
    }

    /// The generation of the diagnostics that were counted last.
    pub fn diagnostics_generation(&self) -> (r: u64)
        ensures
            r == self@.diagnostics_generation,
    {
        self.diagnostics_generation
    }

    /// The counts of the diagnostics of `path`.
    pub fn diagnostics_of(&self, path: &TreePath) -> (r: DiagnosticCounts)
        requires
            self.wf(),
        ensures
            r == self@.counts_of(path@),
    {
        match self.cached_diagnostics.get(path) {
            Some(counts) => *counts,
            None => DiagnosticCounts::default(),
        }
    }

    /// Appends the rows of the directory `path` at the given depth, and if it is expanded those of
    /// its children. Gives the first directory on the way that is not in the listing, if there is
    /// one.
    pub fn collect_directory(
        expanded: &PathSet,
        listing: &Listing,
        path: &TreePath,
        depth: usize,
        entries: &mut Vec<FileTreeEntry>,
    ) -> (r: Option<TreePath>)
        requires
            expanded.wf(),
            listing.wf(),
            expanded@.contains(path@) ==> depth + expanded_below(expanded@, path@).len()
                < usize::MAX,
        ensures
            match branch(listing@, expanded@, path@, depth as nat) {
                WalkView::Listed(rows) => r is None && entry_views(final(entries)@) == entry_views(
                    old(entries)@,
                ) + rows,
                WalkView::Unread(dir) => r is Some && r->0@ == dir,
            },
            old(entries)@.is_prefix_of(final(entries)@),
        decreases
                expanded_below(expanded@, path@).len() + if expanded@.contains(path@) {
                    1nat
                } else {
                    0nat
                },
                0nat,
    {
        let opened = expanded.contains(path);
        let ghost start = entries@;
        entries.push(FileTreeEntry::new(path.clone(), depth, EntryKind::Directory, opened));
        let ghost row = entry_row(path@, depth as nat, EntryKind::Directory, opened);
        assert(entry_views(entries@) == entry_views(start).push(row));
        if !opened {
            assert(entry_views(start).push(row) == entry_views(start) + seq![row]);
            return None;
        }
        let children = match listing.get(path) {
            Some(children) => children,
            None => return Some(path.clone()),
        };
        let ghost middle = entries@;
        proof {
            listing.lemma_lists_below();
        }
        let r = Self::collect_children(expanded, listing, path, children, depth + 1, entries);
        proof {
            assert(start.is_prefix_of(middle));
            assert(start.is_prefix_of(entries@)) by {
                assert(start =~= entries@.subrange(0, start.len() as int));
            }
            match walk(listing@, expanded@, path@, listing@[path@], depth as nat + 1) {
                WalkView::Listed(rows) => {
                    assert(entry_views(start).push(row) + rows == entry_views(start) + (seq![row]
                        + rows));
                },
                WalkView::Unread(_) => {},
            }
        }
        r
    }

    /// Appends the rows of `children`, which are children of `dir`, at the given depth. Gives the
    /// first directory on the way that is not in the listing, if there is one.
    fn collect_children(
        expanded: &PathSet,
        listing: &Listing,
        dir: &TreePath,
        children: &Vec<Child>,
        depth: usize,
        entries: &mut Vec<FileTreeEntry>,
    ) -> (r: Option<TreePath>)
        requires
            expanded.wf(),
            listing.wf(),
            all_below(child_views(children@), dir@),
            depth + expanded_below(expanded@, dir@).len() <= usize::MAX,
        ensures
            match walk(listing@, expanded@, dir@, child_views(children@), depth as nat) {
                WalkView::Listed(rows) => r is None && entry_views(final(entries)@) == entry_views(
                    old(entries)@,
                ) + rows,
                WalkView::Unread(d) => r is Some && r->0@ == d,
            },
            old(entries)@.is_prefix_of(final(entries)@),
        decreases expanded_below(expanded@, dir@).len(), 1nat,
    {
        let ghost disk = listing@;
        let ghost open = expanded@;
        let ghost all = child_views(children@);
        let ghost start = entries@;
        let ghost mut rows: Seq<EntryView> = Seq::empty();
        proof {
            expanded.lemma_finite();
            assert(all.skip(0) == all);
            assert(entry_views(start) == entry_views(start) + rows);
            lemma_followed_by_empty(walk(disk, open, dir@, all, depth as nat));
        }
        let mut i: usize = 0;
        while i < children.len()
            invariant
                i <= children.len(),
                expanded.wf(),
                listing.wf(),
                start == old(entries)@,
                disk == listing@,
                open == expanded@,
                open.finite(),
                all == child_views(children@),
                all_below(all, dir@),
                depth + expanded_below(open, dir@).len() <= usize::MAX,
                entry_views(entries@) == entry_views(start) + rows,
                start.is_prefix_of(entries@),
                walk(disk, open, dir@, all, depth as nat) == followed_by(
                    WalkView::Listed(rows),
                    walk(disk, open, dir@, all.skip(i as int), depth as nat),
                ),
            decreases children.len() - i,
        {
            let child = &children[i];
            let ghost rest = all.skip(i as int);
            let ghost before = entries@;
            proof {
                assert(rest[0] == child@);
                assert(all[i as int].path.is_below(dir@));
                lemma_walk_step(disk, open, dir@, rest, depth as nat);
                assert(rest.drop_first() == all.skip(i + 1));
            }
            match child.kind {
                EntryKind::Directory => {
                    proof {
                        lemma_measure(open, dir@, child.path@);
                    }
                    let missing = Self::collect_directory(
                        expanded,
                        listing,
                        &child.path,
                        depth,
                        entries,
                    );
                    if missing.is_some() {
                        assert(start.is_prefix_of(entries@)) by {
                            assert(start =~= entries@.subrange(0, start.len() as int));
                        }
                        return missing;
                    }
                },
                EntryKind::File => {
                    entries.push(
                        FileTreeEntry::new(child.path.clone(), depth, EntryKind::File, false),
                    );
                    assert(entry_views(entries@) == entry_views(before) + seq![
                        entry_row(child.path@, depth as nat, EntryKind::File, false),
                    ]);
                },
            }
            proof {
                assert(start.is_prefix_of(entries@)) by {
                    assert(start =~= entries@.subrange(0, start.len() as int));
                }
                match child_rows(disk, open, child@, depth as nat) {
                    WalkView::Listed(more) => {
                        lemma_followed_by_associates(
                            rows,
                            more,
                            walk(disk, open, dir@, all.skip(i + 1), depth as nat),
                        );
                        assert(entry_views(start) + rows + more == entry_views(start) + (rows
                            + more));
                        rows = rows + more;
                    },
                    WalkView::Unread(_) => {},
                }
            }
            i += 1;
        }
        proof {
            assert(all.skip(i as int) == Seq::<ChildView>::empty());
            assert(rows + Seq::<EntryView>::empty() == rows);
        }
        None
    }
}

proof fn lemma_position_take(entries: Seq<EntryView>, n: int, path: PathView)
    requires
        0 <= n <= entries.len(),
        position(entries.take(n), path) is Some,
    ensures
        position(entries, path) == position(entries.take(n), path),
    decreases entries.len() - n,
{
    if n < entries.len() {
        assert(entries.take(n + 1).drop_last() == entries.take(n));
        lemma_position_take(entries, n + 1, path);
    } else {
        assert(entries.take(n) == entries);
    }
}

proof fn lemma_no_ancestors_above(expanded: Set<PathView>, root: PathView)
    ensures
        with_ancestors(expanded, root, root) == expanded,
{
    if root.parts.len() > 0 {
        let parent = root.parent()->0;
        assert(!root.parts.is_prefix_of(parent.parts));
    }
}

proof fn lemma_followed_by_empty(w: WalkView)
    ensures
        followed_by(WalkView::Listed(Seq::empty()), w) == w,
{
    match w {
        WalkView::Listed(rows) => {
            assert(Seq::<EntryView>::empty() + rows == rows);
        },
        WalkView::Unread(_) => {},
    }
}

proof fn lemma_followed_by_associates(a: Seq<EntryView>, b: Seq<EntryView>, w: WalkView)
    ensures
        followed_by(WalkView::Listed(a), followed_by(WalkView::Listed(b), w)) == followed_by(
            WalkView::Listed(a + b),
            w,
        ),
{
    match w {
        WalkView::Listed(rows) => {
            assert(a + (b + rows) == a + b + rows);
        },
        WalkView::Unread(_) => {},
    }
}

proof fn lemma_measure(expanded: Set<PathView>, dir: PathView, sub: PathView)
    requires
        expanded.finite(),
        sub.is_below(dir),
    ensures
        expanded_below(expanded, sub).len() + (if expanded.contains(sub) {
            1nat
        } else {
            0nat
        }) <= expanded_below(expanded, dir).len(),
{
    if expanded.contains(sub) {
        lemma_expanded_below_shrinks(expanded, dir, sub);
    } else {
        let inner = expanded_below(expanded, sub);
        let outer = expanded_below(expanded, dir);
        assert forall|p: PathView| inner.contains(p) implies outer.contains(p) by {
            lemma_below_is_strict_order(p, sub, dir);
        }
        vstd::set_lib::lemma_len_subset(inner, outer);
    }
}

} // verus!
