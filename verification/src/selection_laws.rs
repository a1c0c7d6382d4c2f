//! What keys, clicks and the other operations do to the sidebar, told by its rows.
use crate::diagnostics::DiagnosticCounts;
use crate::entry::EntryKind;
use crate::geometry::Rect;
use crate::key::KeyCode;
use crate::listing::ChildView;
use crate::path::PathView;
use crate::sidebar::{
    clamped_width, new_sidebar, shallower_before, with_ancestors, EventView, FileTreeOptions,
    OutcomeView, RootError, SidebarView,
};
use crate::sidebar_laws::lemma_with_ancestors;
use crate::tree::{tree_rows, WalkView};
use crate::tree_laws::{is_ancestor, lemma_position, lemma_unread_is_new};
use vstd::prelude::*;
use vstd::utf8::{decode_utf8, valid_utf8};

verus! {

/// Nothing but the rows, the expanded directories and the selection differs.
pub open spec fn keeps_the_rest(before: SidebarView, after: SidebarView) -> bool {
    &&& after.root == before.root
    &&& after.options == before.options
    &&& after.scroll == before.scroll
    &&& after.width == before.width
    &&& after.diagnostics == before.diagnostics
    &&& after.diagnostics_generation == before.diagnostics_generation
    &&& after.last_click == before.last_click
}

/// Row `i` is the first that shows `path`.
pub open spec fn is_first_row_of(sidebar: SidebarView, i: int, path: PathView) -> bool {
    &&& 0 <= i < sidebar.entries.len()
    &&& sidebar.entries[i].path == path
    &&& forall|k: int| 0 <= k < i ==> (#[trigger] sidebar.entries[k]).path != path
}

/// Some row shows `path`.
pub open spec fn has_row_of(sidebar: SidebarView, path: PathView) -> bool {
    exists|i: int| 0 <= i < sidebar.entries.len() && (#[trigger] sidebar.entries[i]).path == path
}

/// The first row of `path` is selected; where there is no such row, the selection is where it was,
/// or in the last row where that is beyond it.
pub open spec fn is_selected_anew(before: SidebarView, after: SidebarView, path: PathView) -> bool {
    &&& has_row_of(after, path) ==> is_first_row_of(after, after.selected, path)
    &&& !has_row_of(after, path) && before.selected < after.entries.len() ==> after.selected
        == before.selected
    &&& !has_row_of(after, path) && before.selected >= after.entries.len()
        && after.entries.len() > 0 ==> after.selected == after.entries.len() - 1
    &&& after.entries.len() == 0 ==> after.selected == 0
}

/// The outcome shows the rows of the tree with the directories `expanded` expanded, with the first
/// row of `path` selected and nothing else changed; or it asks for a directory that is not listed
/// and is the root or to be expanded.
pub open spec fn is_shown_anew(
    before: SidebarView,
    expanded: Set<PathView>,
    path: PathView,
    disk: Map<PathView, Seq<ChildView>>,
    outcome: OutcomeView,
) -> bool {
    match outcome {
        OutcomeView::Done(after, event) => {
            &&& event == EventView::Consumed
            &&& after.expanded == expanded
            &&& tree_rows(disk, expanded, before.root) == WalkView::Listed(after.entries)
            &&& is_selected_anew(before, after, path)
            &&& keeps_the_rest(before, after)
        },
        OutcomeView::Read(dir) => {
            &&& tree_rows(disk, expanded, before.root) == WalkView::Unread(dir)
            &&& !disk.contains_key(dir)
            &&& dir == before.root || expanded.contains(dir)
        },
    }
}

proof fn lemma_rebuilt_at(
    before: SidebarView,
    expanded: Set<PathView>,
    path: PathView,
    disk: Map<PathView, Seq<ChildView>>,
)
    requires
        0 <= before.selected,
        expanded.finite(),
    ensures
        is_shown_anew(before, expanded, path, disk, before.rebuilt_at(expanded, path, disk)),
{
    match tree_rows(disk, expanded, before.root) {
        WalkView::Listed(rows) => {
            lemma_position(rows, path);
        },
        WalkView::Unread(_) => {
            lemma_unread_is_new(disk, expanded, before.root);
        },
    }
}

/// Rebuilding shows the tree of the expanded directories. It keeps the selection, or selects the
/// last row where the selection is beyond it, and changes nothing else.
pub proof fn lemma_rebuilding_shows_the_tree(
    sidebar: SidebarView,
    disk: Map<PathView, Seq<ChildView>>,
)
    requires
        0 <= sidebar.selected,
        sidebar.expanded.finite(),
    ensures
        match sidebar.rebuilt(sidebar.expanded, disk) {
            Ok(after) => {
                &&& tree_rows(disk, sidebar.expanded, sidebar.root) == WalkView::Listed(
                    after.entries,
                )
                &&& after.expanded == sidebar.expanded
                &&& sidebar.selected < after.entries.len() ==> after.selected == sidebar.selected
                &&& sidebar.selected >= after.entries.len() && after.entries.len() > 0
                    ==> after.selected == after.entries.len() - 1
                &&& after.entries.len() == 0 ==> after.selected == 0
                &&& keeps_the_rest(sidebar, after)
            },
            Err(dir) => !disk.contains_key(dir) && (dir == sidebar.root
                || sidebar.expanded.contains(dir)),
        },
{
    if tree_rows(disk, sidebar.expanded, sidebar.root) is Unread {
        lemma_unread_is_new(disk, sidebar.expanded, sidebar.root);
    }
}

/// Activating a file opens it and changes nothing. Activating a directory expands it if it is
/// collapsed and collapses it if it is expanded, no other directory, and keeps its row selected.
pub proof fn lemma_activating_opens_or_toggles(
    sidebar: SidebarView,
    disk: Map<PathView, Seq<ChildView>>,
)
    requires
        sidebar.expanded.finite(),
        0 <= sidebar.selected,
    ensures
        sidebar.selected >= sidebar.entries.len() ==> sidebar.activated(disk) == OutcomeView::Done(
            sidebar,
            EventView::Consumed,
        ),
        sidebar.selected < sidebar.entries.len() ==> {
            let entry = sidebar.entries[sidebar.selected];
            &&& entry.kind == EntryKind::File ==> sidebar.activated(disk) == OutcomeView::Done(
                sidebar,
                EventView::Open(entry.path),
            )
            &&& entry.kind == EntryKind::Directory && entry.expanded ==> is_shown_anew(
                sidebar,
                sidebar.expanded.remove(entry.path),
                entry.path,
                disk,
                sidebar.activated(disk),
            )
            &&& entry.kind == EntryKind::Directory && !entry.expanded ==> is_shown_anew(
                sidebar,
                sidebar.expanded.insert(entry.path),
                entry.path,
                disk,
                sidebar.activated(disk),
            )
        },
{
    if sidebar.selected < sidebar.entries.len() {
        let path = sidebar.entries[sidebar.selected].path;
        lemma_rebuilt_at(sidebar, sidebar.expanded.remove(path), path, disk);
        lemma_rebuilt_at(sidebar, sidebar.expanded.insert(path), path, disk);
    }
}

/// Row `p` is the last row before row `i` that is less deep.
pub open spec fn is_last_shallower(sidebar: SidebarView, p: int, i: int) -> bool {
    &&& 0 <= p < i < sidebar.entries.len()
    &&& sidebar.entries[p].depth < sidebar.entries[i].depth
    &&& forall|k: int|
        p < k < i ==> (#[trigger] sidebar.entries[k]).depth >= sidebar.entries[i].depth
}

proof fn lemma_shallower(sidebar: SidebarView, i: int, k: int)
    requires
        0 <= k <= i < sidebar.entries.len(),
        forall|m: int|
            k <= m < i ==> (#[trigger] sidebar.entries[m]).depth >= sidebar.entries[i].depth,
    ensures
        match shallower_before(sidebar.entries, k, sidebar.entries[i].depth) {
            Some(p) => is_last_shallower(sidebar, p, i),
            None => forall|m: int|
                0 <= m < i ==> (#[trigger] sidebar.entries[m]).depth >= sidebar.entries[i].depth,
        },
    decreases k,
{
    if k > 0 {
        let m = k - 1;
        if sidebar.entries[m].depth >= sidebar.entries[i].depth {
            lemma_shallower(sidebar, i, m);
        }
    }
}

/// The parent of a row is the last less deep row before it; a row of the least depth has none.
pub proof fn lemma_parent_is_the_last_shallower_row(sidebar: SidebarView, i: int)
    requires
        0 <= i,
    ensures
        match sidebar.parent_row(i) {
            Some(p) => is_last_shallower(sidebar, p, i),
            None => i >= sidebar.entries.len() || sidebar.entries[i].depth == 0 || forall|m: int|
                0 <= m < i ==> (#[trigger] sidebar.entries[m]).depth >= sidebar.entries[i].depth,
        },
        i < sidebar.entries.len() && sidebar.entries[i].depth == 0 ==> sidebar.parent_row(i) is None,
{
    if i < sidebar.entries.len() {
        lemma_shallower(sidebar, i, i);
    }
}

/// Going left collapses an expanded directory and no other, and keeps its row selected. From any
/// other row it selects the last less deep row before it and changes nothing else; where there is
/// none, it does nothing.
pub proof fn lemma_left_collapses_or_leaves(
    sidebar: SidebarView,
    disk: Map<PathView, Seq<ChildView>>,
)
    requires
        sidebar.expanded.finite(),
        0 <= sidebar.selected < sidebar.entries.len(),
    ensures
        ({
            let entry = sidebar.entries[sidebar.selected];
            if entry.kind == EntryKind::Directory && entry.expanded {
                is_shown_anew(
                    sidebar,
                    sidebar.expanded.remove(entry.path),
                    entry.path,
                    disk,
                    sidebar.collapsed(disk),
                )
            } else {
                &&& sidebar.collapsed(disk) matches OutcomeView::Done(after, event)
                &&& event == EventView::Consumed
                &&& after.entries == sidebar.entries
                &&& after.expanded == sidebar.expanded
                &&& keeps_the_rest(sidebar, after)
                &&& is_last_shallower(sidebar, after.selected, sidebar.selected) || (after.selected
                    == sidebar.selected && forall|p: int|
                    !#[trigger] is_last_shallower(sidebar, p, sidebar.selected))
            }
        }),
{
    let entry = sidebar.entries[sidebar.selected];
    lemma_rebuilt_at(sidebar, sidebar.expanded.remove(entry.path), entry.path, disk);
    lemma_parent_is_the_last_shallower_row(sidebar, sidebar.selected);
}

/// Going right opens a file, expands a collapsed directory and no other, and enters an expanded
/// directory: it selects the row below, if that is deeper.
pub proof fn lemma_right_opens_or_enters(
    sidebar: SidebarView,
    disk: Map<PathView, Seq<ChildView>>,
)
    requires
        sidebar.expanded.finite(),
        0 <= sidebar.selected < sidebar.entries.len(),
    ensures
        ({
            let entry = sidebar.entries[sidebar.selected];
            let next = sidebar.selected + 1;
            &&& entry.kind == EntryKind::File ==> sidebar.descended(disk) == OutcomeView::Done(
                sidebar,
                EventView::Open(entry.path),
            )
            &&& entry.kind == EntryKind::Directory && !entry.expanded ==> is_shown_anew(
                sidebar,
                sidebar.expanded.insert(entry.path),
                entry.path,
                disk,
                sidebar.descended(disk),
            )
            &&& entry.kind == EntryKind::Directory && entry.expanded ==> {
                &&& sidebar.descended(disk) matches OutcomeView::Done(after, event)
                &&& event == EventView::Consumed
                &&& after.entries == sidebar.entries
                &&& after.expanded == sidebar.expanded
                &&& keeps_the_rest(sidebar, after)
                &&& next < sidebar.entries.len() && sidebar.entries[next].depth > entry.depth
                    ==> after.selected == next
                &&& next >= sidebar.entries.len() || sidebar.entries[next].depth <= entry.depth
                    ==> after.selected == sidebar.selected
            }
        }),
{
    let entry = sidebar.entries[sidebar.selected];
    lemma_rebuilt_at(sidebar, sidebar.expanded.insert(entry.path), entry.path, disk);
}

/// The first child of a row is the row below it, if that is deeper.
pub proof fn lemma_first_child_is_the_row_below(sidebar: SidebarView, i: int)
    requires
        0 <= i < sidebar.entries.len(),
    ensures
        sidebar.first_child_row(i) matches Some(c) ==> c == i + 1 && c < sidebar.entries.len()
            && sidebar.entries[c].depth > sidebar.entries[i].depth,
        sidebar.first_child_row(i) is None ==> i + 1 == sidebar.entries.len() || sidebar.entries[i
            + 1].depth <= sidebar.entries[i].depth,
{
}

/// The state with another row selected and nothing else changed.
pub open spec fn only_selects(before: SidebarView, after: SidebarView, i: int) -> bool {
    &&& after.selected == i
    &&& after.entries == before.entries
    &&& after.expanded == before.expanded
    &&& keeps_the_rest(before, after)
}

/// Moving the selection by some rows selects the row that far away, or the first or last row where
/// that is beyond them, and changes nothing else.
pub proof fn lemma_moving_stays_among_the_rows(sidebar: SidebarView, delta: int)
    requires
        0 <= sidebar.selected < sidebar.entries.len(),
    ensures
        0 <= sidebar.selected + delta < sidebar.entries.len() ==> only_selects(
            sidebar,
            sidebar.moved(delta),
            sidebar.selected + delta,
        ),
        sidebar.selected + delta < 0 ==> only_selects(sidebar, sidebar.moved(delta), 0),
        sidebar.selected + delta >= sidebar.entries.len() ==> only_selects(
            sidebar,
            sidebar.moved(delta),
            sidebar.entries.len() - 1,
        ),
{
}

/// Without rows, moving the selection leaves it at the first.
pub proof fn lemma_moving_without_rows(sidebar: SidebarView, delta: int)
    requires
        sidebar.entries.len() == 0,
    ensures
        only_selects(sidebar, sidebar.moved(delta), 0),
{
}

/// What the keys do that move the selection or close the sidebar.
pub proof fn lemma_keys_move_the_selection(
    sidebar: SidebarView,
    disk: Map<PathView, Seq<ChildView>>,
)
    requires
        0 <= sidebar.selected < sidebar.entries.len(),
    ensures
        sidebar.keyed(KeyCode::Esc, disk) == OutcomeView::Done(sidebar, EventView::Close),
        sidebar.keyed(KeyCode::Home, disk) matches OutcomeView::Done(after, event) && event
            == EventView::Consumed && only_selects(sidebar, after, 0),
        sidebar.keyed(KeyCode::End, disk) matches OutcomeView::Done(after, event) && event
            == EventView::Consumed && only_selects(sidebar, after, sidebar.entries.len() - 1),
        sidebar.keyed(KeyCode::Up, disk) matches OutcomeView::Done(after, event) && event
            == EventView::Consumed && only_selects(
            sidebar,
            after,
            if sidebar.selected > 0 {
                sidebar.selected - 1
            } else {
                0
            },
        ),
        sidebar.keyed(KeyCode::Down, disk) matches OutcomeView::Done(after, event) && event
            == EventView::Consumed && only_selects(
            sidebar,
            after,
            if sidebar.selected + 1 < sidebar.entries.len() {
                sidebar.selected + 1
            } else {
                sidebar.selected
            },
        ),
        sidebar.keyed(KeyCode::Left, disk) == sidebar.collapsed(disk),
        sidebar.keyed(KeyCode::Right, disk) == sidebar.descended(disk),
        sidebar.keyed(KeyCode::Enter, disk) == sidebar.activated(disk),
{
}

/// Without rows, every key that is not ignored and does not close the sidebar changes nothing.
pub proof fn lemma_keys_without_rows(
    sidebar: SidebarView,
    code: KeyCode,
    disk: Map<PathView, Seq<ChildView>>,
)
    requires
        sidebar.entries.len() == 0,
        sidebar.selected == 0,
    ensures
        sidebar.keyed(code, disk) matches OutcomeView::Done(after, event) && after == sidebar
            && !(event is Open),
{
}

/// A row of the screen belongs to the entry that is as far below the first visible entry as the row
/// is below the title.
pub proof fn lemma_entries_at_rows(sidebar: SidebarView, area: Rect, row: u16)
    requires
        0 <= sidebar.scroll,
    ensures
        forall|i: int|
            (sidebar.entry_at_row(area, row) == Some(i)) <==> (row > area.y && i - sidebar.scroll
                == row - area.y - 1 && #[trigger] is_row_index(sidebar, i)),
        row <= area.y ==> sidebar.entry_at_row(area, row) is None,
{
}

pub open spec fn is_row_index(sidebar: SidebarView, i: int) -> bool {
    0 <= i < sidebar.entries.len()
}

/// The entry of row `i` of the tree is in row `row` of the screen.
pub open spec fn is_on_screen(sidebar: SidebarView, area: Rect, row: u16, i: int) -> bool {
    &&& row > area.y
    &&& i == sidebar.scroll + (row - area.y - 1)
    &&& is_row_index(sidebar, i)
}

/// What becomes of the sidebar when row `i` is clicked, before anything is activated: the row is
/// selected, and the click is remembered by its path and its time.
pub open spec fn click_is_noted(
    before: SidebarView,
    after: SidebarView,
    i: int,
    now: u64,
) -> bool {
    &&& after.selected == i
    &&& after.last_click == Some((before.entries[i].path, now))
    &&& after.entries == before.entries
    &&& after.expanded == before.expanded
    &&& keeps_the_rest(SidebarView { last_click: after.last_click, ..before }, after)
}

/// A click on another entry than the one clicked last, or more than half a second after that click,
/// or the first of all clicks, selects the row and remembers the click. It opens nothing and
/// changes nothing else.
pub proof fn lemma_clicks_apart_only_select(
    sidebar: SidebarView,
    area: Rect,
    row: u16,
    now: u64,
    i: int,
    disk: Map<PathView, Seq<ChildView>>,
)
    requires
        0 <= sidebar.scroll,
        is_on_screen(sidebar, area, row, i),
        match sidebar.last_click {
            Some((path, at)) => path != sidebar.entries[i].path || now > at + 500_000_000,
            None => true,
        },
    ensures
        sidebar.clicked(area, row, now, disk) matches OutcomeView::Done(after, event) && event
            == EventView::Consumed && click_is_noted(sidebar, after, i, now),
{
}

/// A click on the entry clicked last, within half a second, opens a file and toggles a directory.
pub proof fn lemma_clicks_together_activate(
    sidebar: SidebarView,
    area: Rect,
    row: u16,
    now: u64,
    at: u64,
    i: int,
    disk: Map<PathView, Seq<ChildView>>,
)
    requires
        0 <= sidebar.scroll,
        sidebar.expanded.finite(),
        is_on_screen(sidebar, area, row, i),
        sidebar.last_click == Some((sidebar.entries[i].path, at)),
        now <= at + 500_000_000,
    ensures
        sidebar.entries[i].kind == EntryKind::File ==> (sidebar.clicked(
            area,
            row,
            now,
            disk,
        ) matches OutcomeView::Done(after, event) && event == EventView::Open(
            sidebar.entries[i].path,
        ) && click_is_noted(sidebar, after, i, now)),
        sidebar.entries[i].kind == EntryKind::Directory ==> is_shown_anew(
            SidebarView {
                selected: i,
                last_click: Some((sidebar.entries[i].path, now)),
                ..sidebar
            },
            if sidebar.entries[i].expanded {
                sidebar.expanded.remove(sidebar.entries[i].path)
            } else {
                sidebar.expanded.insert(sidebar.entries[i].path)
            },
            sidebar.entries[i].path,
            disk,
            sidebar.clicked(area, row, now, disk),
        ),
{
    let noted = SidebarView {
        selected: i,
        last_click: Some((sidebar.entries[i].path, now)),
        ..sidebar
    };
    lemma_activating_opens_or_toggles(noted, disk);
}

/// A click on the title, above it, or below the last entry changes nothing.
pub proof fn lemma_clicks_outside_the_rows(
    sidebar: SidebarView,
    area: Rect,
    row: u16,
    now: u64,
    disk: Map<PathView, Seq<ChildView>>,
)
    requires
        0 <= sidebar.scroll,
        row <= area.y || sidebar.scroll + (row - area.y - 1) >= sidebar.entries.len(),
    ensures
        sidebar.clicked(area, row, now, disk) == OutcomeView::Done(sidebar, EventView::Consumed),
{
}

/// Revealing a path in the tree expands its ancestors in the tree and nothing else, and selects its
/// first row. Revealing another path changes nothing.
pub proof fn lemma_revealing_expands_ancestors_alone(
    sidebar: SidebarView,
    path: PathView,
    disk: Map<PathView, Seq<ChildView>>,
)
    requires
        0 <= sidebar.selected,
        sidebar.expanded.finite(),
    ensures
        !path.starts_with(sidebar.root) ==> sidebar.revealed(path, disk) == OutcomeView::Done(
            sidebar,
            EventView::Consumed,
        ),
        path.starts_with(sidebar.root) ==> exists|expanded: Set<PathView>|
            #[trigger] is_shown_anew(sidebar, expanded, path, disk, sidebar.revealed(path, disk))
                && forall|q: PathView|
                #[trigger] expanded.contains(q) <==> sidebar.expanded.contains(q) || (is_ancestor(
                    q,
                    path,
                ) && q.starts_with(sidebar.root)),
{
    if path.starts_with(sidebar.root) {
        let expanded = with_ancestors(sidebar.expanded, path, sidebar.root);
        lemma_with_ancestors(sidebar.expanded, path, sidebar.root);
        lemma_rebuilt_at(sidebar, expanded, path, disk);
    }
}

/// The width that a sidebar gets: as requested where both it and the editor have their least
/// widths then, else the nearest such width; none where there is no such width.
pub proof fn lemma_width_is_the_nearest_allowed(area: Rect, requested: u16)
    ensures
        area.width < 38 ==> clamped_width(area, requested) is None,
        area.width >= 38 && requested < 18 ==> clamped_width(area, requested) == Some(18u16),
        area.width >= 38 && 18 <= requested <= area.width - 20 ==> clamped_width(area, requested)
            == Some(requested),
        area.width >= 38 && requested > area.width - 20 ==> clamped_width(area, requested) == Some(
            (area.width - 20) as u16,
        ),
{
}

/// Dragging the border to a column makes that column the last of the sidebar, where both sides keep
/// their least widths, and changes nothing else.
pub proof fn lemma_dragging_sets_the_width(sidebar: SidebarView, area: Rect, column: u16)
    ensures
        ({
            let after = sidebar.resized(area, column);
            &&& after == SidebarView { width: after.width, ..sidebar }
            &&& area.width < 38 ==> after == sidebar
            &&& area.width >= 38 && 17 <= column - area.x <= area.width - 21 ==> area.x
                + after.width == column + 1
            &&& area.width >= 38 && column - area.x < 17 ==> after.width == 18
            &&& area.width >= 38 && column - area.x > area.width - 21 ==> after.width
                == area.width - 20
        }),
{
}

/// A new sidebar has the root and the options that it is given, nothing but its root expanded, its
/// first row selected and at the top, a width of 32 columns, no diagnostics and no click to
/// remember. Its rows are those of the tree.
pub proof fn lemma_new_sidebars_are_fresh(
    root: PathView,
    options: FileTreeOptions,
    disk: Map<PathView, Seq<ChildView>>,
)
    ensures
        match new_sidebar(root, options).rebuilt(set![root], disk) {
            Ok(sidebar) => {
                &&& tree_rows(disk, set![root], root) == WalkView::Listed(sidebar.entries)
                &&& sidebar.root == root
                &&& sidebar.options == options
                &&& forall|dir: PathView| #[trigger] sidebar.expanded.contains(dir) <==> dir == root
                &&& sidebar.selected == 0
                &&& sidebar.scroll == 0
                &&& sidebar.width == 32
                &&& sidebar.diagnostics == Map::<PathView, DiagnosticCounts>::empty()
                &&& sidebar.diagnostics_generation == 0
                &&& sidebar.last_click is None
            },
            Err(dir) => tree_rows(disk, set![root], root) == WalkView::Unread(dir),
        },
{
}

/// The message of an error begins with the path and says what is wrong with it.
pub proof fn lemma_errors_name_the_path(error: RootError)
    ensures
        match error {
            RootError::NotFound(path) => valid_utf8(path@.text()) ==> error.text() == decode_utf8(
                path@.text(),
            ) + " does not exist"@,
            RootError::NotADirectory(path) => valid_utf8(path@.text()) ==> error.text()
                == decode_utf8(path@.text()) + " is not a directory"@,
        },
{
}

/// Without visible rows, the scroll position is the selected row.
pub proof fn lemma_scrolling_without_rows(sidebar: SidebarView)
    ensures
        sidebar.scrolled(0) == (SidebarView { scroll: sidebar.selected, ..sidebar }),
{
}

} // verus!
