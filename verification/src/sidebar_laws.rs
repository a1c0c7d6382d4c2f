//! What holds of the sidebar over several keys and clicks.
use crate::entry::{entry_row, EntryKind, EntryView};
use crate::geometry::{minus, Rect};
use crate::key::KeyCode;
use crate::listing::{all_below, lemma_rest_is_below, lists_below, ChildView};
use crate::path::PathView;
use crate::sidebar::{
    clamped_width, new_sidebar, position, with_ancestors, EventView, FileTreeOptions, OutcomeView,
    SidebarView, DOUBLE_CLICK_THRESHOLD, MIN_EDITOR_WIDTH, MIN_SIDEBAR_WIDTH,
};
use crate::tree::{lemma_walk_step, tree_rows, walk, WalkView};
use crate::tree_laws::{
    are_distinct, differ_below, is_ancestor, is_row_of, leads_to,
    lemma_entries_on_the_way_are_shown, lemma_one_more_expanded, lemma_parent_row, lemma_position,
    lemma_rows_are_nested, lemma_unread_is_new, shows,
};
use vstd::prelude::*;

verus! {

/// The ancestors of a path that lie in the tree are expanded, and nothing else is that was not
/// before.
pub proof fn lemma_with_ancestors(expanded: Set<PathView>, path: PathView, root: PathView)
    ensures
        expanded.finite() ==> with_ancestors(expanded, path, root).finite(),
        forall|q: PathView|
            #[trigger] with_ancestors(expanded, path, root).contains(q) <==> expanded.contains(q)
                || (is_ancestor(q, path) && q.starts_with(root)),
    decreases path.parts.len(),
{
    let all = with_ancestors(expanded, path, root);
    if path.parts.len() > 0 {
        let parent = path.parent()->0;
        assert(is_ancestor(parent, path)) by {
            assert(path.parts.drop_last() == path.parts.take(path.parts.len() - 1));
        }
        if parent.starts_with(root) {
            lemma_with_ancestors(expanded.insert(parent), parent, root);
        }
        assert forall|q: PathView| #[trigger] all.contains(q) <==> expanded.contains(q) || (
        is_ancestor(q, path) && q.starts_with(root)) by {
            lemma_ancestors_of_parent(q, parent, path);
            if parent.starts_with(root) {
                assert(all == with_ancestors(expanded.insert(parent), parent, root));
                assert(all.contains(q) <==> expanded.insert(parent).contains(q) || (is_ancestor(
                    q,
                    parent,
                ) && q.starts_with(root)));
            } else {
                assert(all == expanded);
            }
            if !parent.starts_with(root) && is_ancestor(q, path) && q.starts_with(root) {
                lemma_ancestor_prefix(q, parent, path, root);
            }
        }
    }
}

proof fn lemma_ancestors_of_parent(q: PathView, parent: PathView, path: PathView)
    requires
        path.parent() == Some(parent),
    ensures
        is_ancestor(q, path) <==> q == parent || is_ancestor(q, parent),
{
    assert(parent.parts == path.parts.drop_last());
    assert(parent.parts == path.parts.take(path.parts.len() - 1));
    if is_ancestor(q, path) {
        if q.parts.len() == parent.parts.len() {
            assert(q =~= parent);
        } else {
            assert(q.parts == parent.parts.take(q.parts.len() as int));
        }
    } else if is_ancestor(q, parent) {
        assert(q.parts == path.parts.take(q.parts.len() as int));
    }
}

proof fn lemma_ancestor_prefix(q: PathView, parent: PathView, path: PathView, root: PathView)
    requires
        path.parent() == Some(parent),
        is_ancestor(q, path),
        q.starts_with(root),
    ensures
        parent.starts_with(root),
{
    assert(parent.parts == path.parts.drop_last());
    assert(root.parts == q.parts.subrange(0, root.parts.len() as int));
    assert(root.parts =~= parent.parts.subrange(0, root.parts.len() as int)) by {
        assert forall|i: int| 0 <= i < root.parts.len() implies root.parts[i]
            == parent.parts.subrange(0, root.parts.len() as int)[i] by {
            assert(root.parts[i] == q.parts.subrange(0, root.parts.len() as int)[i]);
            assert(q.parts[i] == path.parts.take(q.parts.len() as int)[i]);
        }
    }
}

/// After a path is revealed to which the listing leads, its row is selected and its ancestors in
/// the tree are expanded. Where another directory has to be read first, it is one that is not in
/// the listing.
pub proof fn lemma_revealing_selects(
    sidebar: SidebarView,
    path: PathView,
    kind: EntryKind,
    disk: Map<PathView, Seq<ChildView>>,
)
    requires
        sidebar.expanded.finite(),
        lists_below(disk),
        leads_to(disk, sidebar.root, path, kind),
    ensures
        match sidebar.revealed(path, disk) {
            OutcomeView::Done(after, _) => {
                &&& 0 <= after.selected < after.entries.len()
                &&& after.entries[after.selected].path == path
                &&& forall|q: PathView|
                    #[trigger] is_ancestor(q, path) && q.starts_with(sidebar.root)
                        ==> after.expanded.contains(q)
                &&& sidebar.expanded.subset_of(after.expanded)
            },
            OutcomeView::Read(dir) => !disk.contains_key(dir),
        },
{
    let expanded = with_ancestors(sidebar.expanded, path, sidebar.root);
    lemma_with_ancestors(sidebar.expanded, path, sidebar.root);
    lemma_leads_within(disk, sidebar.root, path, kind);
    match tree_rows(disk, expanded, sidebar.root) {
        WalkView::Listed(rows) => {
            lemma_entries_on_the_way_are_shown(disk, expanded, sidebar.root, path, kind);
            lemma_position(rows, path);
        },
        WalkView::Unread(_) => {
            lemma_unread_is_new(disk, expanded, sidebar.root);
        },
    }
}

proof fn lemma_leads_within(
    disk: Map<PathView, Seq<ChildView>>,
    root: PathView,
    path: PathView,
    kind: EntryKind,
)
    requires
        leads_to(disk, root, path, kind),
    ensures
        path.starts_with(root),
    decreases path.parts.len(),
{
    let dir = path.parent()->0;
    assert(dir.parts == path.parts.subrange(0, dir.parts.len() as int));
    if dir != root {
        lemma_leads_within(disk, root, dir, EntryKind::Directory);
        assert(root.parts =~= path.parts.subrange(0, root.parts.len() as int)) by {
            assert(root.parts == dir.parts.subrange(0, root.parts.len() as int));
        }
    }
}

/// The rows of the sidebar are those of the listing.
pub open spec fn is_up_to_date(
    sidebar: SidebarView,
    disk: Map<PathView, Seq<ChildView>>,
) -> bool {
    tree_rows(disk, sidebar.expanded, sidebar.root) == WalkView::Listed(sidebar.entries)
}

proof fn lemma_toggle(
    disk: Map<PathView, Seq<ChildView>>,
    expanded: Set<PathView>,
    root: PathView,
    path: PathView,
)
    requires
        expanded.finite(),
        !expanded.contains(path),
        lists_below(disk),
    ensures
        tree_rows(disk, expanded.insert(path), root) is Listed ==> {
            &&& tree_rows(disk, expanded, root) is Listed
            &&& differ_below(
                tree_rows(disk, expanded, root)->Listed_0,
                tree_rows(disk, expanded.insert(path), root)->Listed_0,
                path,
            )
        },
{
    if disk.contains_key(root) {
        lemma_one_more_expanded(disk, expanded, path, root, disk[root], 0);
    }
}

/// Collapsing a directory never needs to read one, and leaves its row where it is.
pub proof fn lemma_collapsing_needs_no_reading(
    sidebar: SidebarView,
    disk: Map<PathView, Seq<ChildView>>,
)
    requires
        sidebar.expanded.finite(),
        lists_below(disk),
        is_up_to_date(sidebar, disk),
        are_distinct(sidebar.entries),
        0 <= sidebar.selected < sidebar.entries.len(),
        sidebar.entries[sidebar.selected].kind == EntryKind::Directory,
        sidebar.entries[sidebar.selected].expanded,
    ensures
        sidebar.collapsed(disk) matches OutcomeView::Done(after, _) && after.selected
            == sidebar.selected && after.entries[after.selected].path
            == sidebar.entries[sidebar.selected].path && !after.expanded.contains(
            sidebar.entries[sidebar.selected].path,
        ),
{
    let path = sidebar.entries[sidebar.selected].path;
    let fewer = sidebar.expanded.remove(path);
    lemma_rows_are_nested(disk, sidebar.expanded, sidebar.root, disk[sidebar.root], 0);
    let shown = tree_rows(disk, sidebar.expanded, sidebar.root)->Listed_0;
    assert(shown == sidebar.entries);
    assert(is_row_of(disk, sidebar.expanded, disk[sidebar.root], 0, shown, sidebar.selected));
    assert(fewer.insert(path) =~= sidebar.expanded);
    lemma_toggle(disk, fewer, sidebar.root, path);
    let rows = tree_rows(disk, fewer, sidebar.root)->Listed_0;
    lemma_position(sidebar.entries, path);
    lemma_position(rows, path);
    assert(position(sidebar.entries, path) == Some(sidebar.selected));
}

/// Activating a directory twice leaves the sidebar as it was, where it shows what is listed and
/// no path has two rows.
pub proof fn lemma_activating_twice_restores(
    sidebar: SidebarView,
    disk: Map<PathView, Seq<ChildView>>,
)
    requires
        sidebar.expanded.finite(),
        lists_below(disk),
        is_up_to_date(sidebar, disk),
        are_distinct(sidebar.entries),
        0 <= sidebar.selected < sidebar.entries.len(),
        sidebar.entries[sidebar.selected].kind == EntryKind::Directory,
    ensures
        sidebar.activated(disk) matches OutcomeView::Done(after, event) ==> event
            == EventView::Consumed && after.activated(disk) == OutcomeView::Done(
            sidebar,
            EventView::Consumed,
        ),
{
    let entry = sidebar.entries[sidebar.selected];
    let path = entry.path;
    lemma_rows_are_nested(disk, sidebar.expanded, sidebar.root, disk[sidebar.root], 0);
    let shown = tree_rows(disk, sidebar.expanded, sidebar.root)->Listed_0;
    assert(shown == sidebar.entries);
    assert(is_row_of(disk, sidebar.expanded, disk[sidebar.root], 0, shown, sidebar.selected));
    lemma_position(sidebar.entries, path);
    assert(position(sidebar.entries, path) == Some(sidebar.selected));
    let changed = if entry.expanded {
        sidebar.expanded.remove(path)
    } else {
        sidebar.expanded.insert(path)
    };
    if entry.expanded {
        assert(changed.insert(path) =~= sidebar.expanded);
        lemma_toggle(disk, changed, sidebar.root, path);
    } else {
        assert(changed.remove(path) =~= sidebar.expanded);
        lemma_toggle(disk, sidebar.expanded, sidebar.root, path);
    }
    match tree_rows(disk, changed, sidebar.root) {
        WalkView::Listed(rows) => {
            lemma_position(rows, path);
            assert(position(rows, path) == Some(sidebar.selected));
            lemma_rows_are_nested(disk, changed, sidebar.root, disk[sidebar.root], 0);
            assert(is_row_of(disk, changed, disk[sidebar.root], 0, rows, sidebar.selected));
            let after = sidebar.rebuilt(changed, disk)->Ok_0.selecting(path);
            assert(after.selected == sidebar.selected);
            assert(after.entries == rows);
            assert(rows[sidebar.selected].kind == EntryKind::Directory);
            assert(rows[sidebar.selected].expanded == !entry.expanded);
            let back = if rows[sidebar.selected].expanded {
                changed.remove(path)
            } else {
                changed.insert(path)
            };
            assert(back =~= sidebar.expanded);
            assert(after.rebuilt(back, disk)->Ok_0.selecting(path) == sidebar);
        },
        WalkView::Unread(_) => {},
    }
}

/// Leaving a row that is not an expanded directory selects the row of the directory that holds its
/// entry.
pub proof fn lemma_left_selects_the_parent(
    sidebar: SidebarView,
    disk: Map<PathView, Seq<ChildView>>,
)
    requires
        sidebar.wf(),
        sidebar.entries.len() > 0,
        sidebar.entries[sidebar.selected].depth > 0,
        !(sidebar.entries[sidebar.selected].kind == EntryKind::Directory
            && sidebar.entries[sidebar.selected].expanded),
    ensures
        sidebar.collapsed(disk) matches OutcomeView::Done(after, _) && {
            &&& after == sidebar.with_selected(after.selected)
            &&& 0 <= after.selected < sidebar.selected
            &&& after.entries[after.selected].kind == EntryKind::Directory
            &&& after.entries[after.selected].expanded
            &&& after.entries[after.selected].depth + 1
                == sidebar.entries[sidebar.selected].depth
            &&& sidebar.entries[sidebar.selected].path.is_below(
                after.entries[after.selected].path,
            )
        },
{
    let shown = choose|d: Map<PathView, Seq<ChildView>>|
        lists_below(d) && #[trigger] tree_rows(d, sidebar.expanded, sidebar.root)
            == WalkView::Listed(sidebar.entries);
    lemma_parent_row(shown, sidebar.expanded, sidebar.root, sidebar.selected);
}

/// Going from an expanded directory to its first entry and back leaves the sidebar as it was,
/// unless that entry is an expanded directory itself, which going back would collapse.
pub proof fn lemma_right_and_left_return(
    sidebar: SidebarView,
    disk: Map<PathView, Seq<ChildView>>,
)
    requires
        0 <= sidebar.selected,
        sidebar.selected + 1 < sidebar.entries.len(),
        sidebar.entries[sidebar.selected].kind == EntryKind::Directory,
        sidebar.entries[sidebar.selected].expanded,
        sidebar.entries[sidebar.selected + 1].depth > sidebar.entries[sidebar.selected].depth,
        !sidebar.entries[sidebar.selected + 1].expanded,
    ensures
        sidebar.keyed(KeyCode::Right, disk) == OutcomeView::Done(
            sidebar.with_selected(sidebar.selected + 1),
            EventView::Consumed,
        ),
        sidebar.with_selected(sidebar.selected + 1).keyed(KeyCode::Left, disk)
            == OutcomeView::Done(sidebar, EventView::Consumed),
{
    let next = sidebar.with_selected(sidebar.selected + 1);
    assert(next.parent_row(next.selected) == Some(sidebar.selected));
    assert(next.with_selected(sidebar.selected) == sidebar);
}

/// Going down and up again leaves the sidebar as it was, unless the last row is selected; going up
/// and down again, unless the first is.
pub proof fn lemma_up_and_down_return(sidebar: SidebarView)
    requires
        0 <= sidebar.selected < sidebar.entries.len(),
    ensures
        sidebar.selected + 1 < sidebar.entries.len() ==> sidebar.moved(1).moved(-1) == sidebar,
        sidebar.selected > 0 ==> sidebar.moved(-1).moved(1) == sidebar,
        sidebar.selected == 0 ==> sidebar.moved(-1) == sidebar,
        sidebar.selected + 1 == sidebar.entries.len() ==> sidebar.moved(1) == sidebar,
{
}

/// The keys that the sidebar handles.
pub open spec fn is_handled(code: KeyCode) -> bool {
    match code {
        KeyCode::Esc | KeyCode::Up | KeyCode::Down | KeyCode::Home | KeyCode::End | KeyCode::Left
        | KeyCode::Right | KeyCode::Enter => true,
        KeyCode::Char(c) => c == 'k' || c == 'j' || c == 'h' || c == 'l',
        _ => false,
    }
}

/// A key that the sidebar does not handle is ignored and changes nothing; one that it handles is
/// never ignored.
pub proof fn lemma_other_keys_are_ignored(
    sidebar: SidebarView,
    code: KeyCode,
    disk: Map<PathView, Seq<ChildView>>,
)
    ensures
        !is_handled(code) ==> sidebar.keyed(code, disk) == OutcomeView::Done(
            sidebar,
            EventView::Ignored,
        ),
        is_handled(code) ==> (sidebar.keyed(code, disk) matches OutcomeView::Done(_, event) ==> event
            != EventView::Ignored),
{
}

/// The keys of the letters do what the arrow keys do.
pub proof fn lemma_letters_are_arrows(
    sidebar: SidebarView,
    disk: Map<PathView, Seq<ChildView>>,
)
    ensures
        sidebar.keyed(KeyCode::Char('k'), disk) == sidebar.keyed(KeyCode::Up, disk),
        sidebar.keyed(KeyCode::Char('j'), disk) == sidebar.keyed(KeyCode::Down, disk),
        sidebar.keyed(KeyCode::Char('h'), disk) == sidebar.keyed(KeyCode::Left, disk),
        sidebar.keyed(KeyCode::Char('l'), disk) == sidebar.keyed(KeyCode::Right, disk),
{
}

/// The second of two clicks on the row of a file opens the file, if it comes soon enough.
pub proof fn lemma_double_click_opens(
    sidebar: SidebarView,
    area: Rect,
    row: u16,
    first: u64,
    second: u64,
    i: int,
    disk: Map<PathView, Seq<ChildView>>,
)
    requires
        0 <= sidebar.scroll,
        sidebar.entry_at_row(area, row) == Some(i),
        sidebar.entries[i].kind == EntryKind::File,
        minus(second as int, first as int) <= DOUBLE_CLICK_THRESHOLD,
    ensures
        sidebar.clicked(area, row, first, disk) matches OutcomeView::Done(between, _) && {
            &&& between.selected == i
            &&& between.clicked(area, row, second, disk) matches OutcomeView::Done(after, event)
            &&& after.selected == i
            &&& event == EventView::Open(sidebar.entries[i].path)
        },
{
}

/// A click that is not the second of a double click selects a row and does nothing else.
pub proof fn lemma_single_click_selects(
    sidebar: SidebarView,
    area: Rect,
    row: u16,
    now: u64,
    i: int,
    disk: Map<PathView, Seq<ChildView>>,
)
    requires
        sidebar.entry_at_row(area, row) == Some(i),
        !sidebar.is_double_click(i, now),
    ensures
        sidebar.clicked(area, row, now, disk) == OutcomeView::Done(
            SidebarView {
                selected: i,
                last_click: Some((sidebar.entries[i].path, now)),
                ..sidebar
            },
            EventView::Consumed,
        ),
{
}

/// There is a sidebar exactly where both it and the editor get their least widths, and then both
/// do. What the sidebar gets, it gets again.
pub proof fn lemma_widths_are_kept(area: Rect, requested: u16)
    ensures
        clamped_width(area, requested) is Some <==> area.width >= MIN_SIDEBAR_WIDTH
            + MIN_EDITOR_WIDTH,
        clamped_width(area, requested) matches Some(width) ==> {
            &&& MIN_SIDEBAR_WIDTH <= width
            &&& width + MIN_EDITOR_WIDTH <= area.width
            &&& clamped_width(area, width) == Some(width)
            &&& MIN_SIDEBAR_WIDTH <= requested && requested + MIN_EDITOR_WIDTH <= area.width
                ==> width == requested
        },
{
}

/// The distance between two scroll positions.
pub open spec fn distance(a: int, b: int) -> int {
    if a >= b {
        a - b
    } else {
        b - a
    }
}

/// Scrolling makes the selected row visible and does not scroll further than that takes: no scroll
/// position that shows the selected row is nearer to the one before.
pub proof fn lemma_scrolling_is_minimal(sidebar: SidebarView, rows: int)
    requires
        0 <= sidebar.selected,
        0 <= sidebar.scroll,
        0 < rows,
    ensures
        sidebar.scrolled(rows).scroll <= sidebar.selected < sidebar.scrolled(rows).scroll + rows,
        0 <= sidebar.scrolled(rows).scroll,
        sidebar.scroll <= sidebar.selected < sidebar.scroll + rows ==> sidebar.scrolled(rows)
            == sidebar,
        sidebar.scrolled(rows).scrolled(rows) == sidebar.scrolled(rows),
        forall|scroll: int|
            scroll <= sidebar.selected < scroll + rows ==> distance(
                sidebar.scrolled(rows).scroll,
                sidebar.scroll,
            ) <= #[trigger] distance(scroll, sidebar.scroll),
{
}

/// Rebuilding twice is rebuilding once.
pub proof fn lemma_rebuilding_is_idempotent(
    sidebar: SidebarView,
    expanded: Set<PathView>,
    disk: Map<PathView, Seq<ChildView>>,
)
    requires
        0 <= sidebar.selected,
    ensures
        sidebar.rebuilt(expanded, disk) matches Ok(after) ==> after.rebuilt(expanded, disk) == Ok::<
            SidebarView,
            PathView,
        >(after),
{
}

/// A directory that an operation asks for is not in the listing, and it is the root or one that is
/// to be expanded, so that an operation asks for each such directory once at most.
pub proof fn lemma_rebuilding_asks_for_new_directories(
    sidebar: SidebarView,
    expanded: Set<PathView>,
    disk: Map<PathView, Seq<ChildView>>,
)
    requires
        expanded.finite(),
    ensures
        sidebar.rebuilt(expanded, disk) matches Err(dir) ==> !disk.contains_key(dir) && (dir
            == sidebar.root || expanded.contains(dir)),
{
    if tree_rows(disk, expanded, sidebar.root) is Unread {
        lemma_unread_is_new(disk, expanded, sidebar.root);
    }
}

proof fn lemma_nothing_expanded(
    disk: Map<PathView, Seq<ChildView>>,
    root: PathView,
    children: Seq<ChildView>,
)
    requires
        all_below(children, root),
    ensures
        walk(disk, set![root], root, children, 0) == WalkView::Listed(
            Seq::new(
                children.len(),
                |i: int| entry_row(children[i].path, 0, children[i].kind, false),
            ),
        ),
    decreases children.len(),
{
    let rows = Seq::new(
        children.len(),
        |i: int| entry_row(children[i].path, 0, children[i].kind, false),
    );
    if children.len() > 0 {
        let rest = children.drop_first();
        assert(children[0].path.is_below(root));
        lemma_rest_is_below(children, root);
        lemma_nothing_expanded(disk, root, rest);
        lemma_walk_step(disk, set![root], root, children, 0);
        let tail = Seq::new(
            rest.len(),
            |i: int| entry_row(rest[i].path, 0, rest[i].kind, false),
        );
        assert(seq![rows[0]] + tail =~= rows);
    } else {
        assert(rows =~= Seq::<EntryView>::empty());
    }
}

/// A new sidebar shows the entries of its root, none of them expanded, and the first is selected.
pub proof fn lemma_new_sidebar_shows_the_first_level(
    root: PathView,
    options: FileTreeOptions,
    disk: Map<PathView, Seq<ChildView>>,
)
    requires
        lists_below(disk),
        disk.contains_key(root),
    ensures
        new_sidebar(root, options).rebuilt(set![root], disk) matches Ok(sidebar) && {
            &&& sidebar.selected == 0
            &&& sidebar.entries.len() == disk[root].len()
            &&& forall|i: int|
                0 <= i < sidebar.entries.len() ==> #[trigger] sidebar.entries[i] == entry_row(
                    disk[root][i].path,
                    0,
                    disk[root][i].kind,
                    false,
                )
        },
{
    lemma_nothing_expanded(disk, root, disk[root]);
}

} // verus!
