use sidebar_swatches::diagnostics::DiagnosticCounts;
use sidebar_swatches::entry::EntryKind;
use sidebar_swatches::geometry::Rect;
use sidebar_swatches::git::FileChangeKind;
use sidebar_swatches::key::{KeyCode, KeyEvent, KeyModifiers};
use sidebar_swatches::listing::{are_below, Listing, WalkedEntry};
use sidebar_swatches::path::TreePath;
use sidebar_swatches::path_map::PathSet;
use sidebar_swatches::row::{RowState, RowStyles};
use sidebar_swatches::sidebar::{
    FileTreeEvent, FileTreeOptions, FileTreeSidebar, RootError, Step, DOUBLE_CLICK_THRESHOLD,
    MIN_SIDEBAR_WIDTH,
};
use sidebar_swatches::style::{Color, Style, UnderlineStyle};

const ROOT: &str = "/work/demo";

fn path(text: &str) -> TreePath {
    let absolute = text.starts_with('/');
    let parts = text
        .split('/')
        .filter(|part| !part.is_empty())
        .map(|part| part.as_bytes().to_vec())
        .collect();
    TreePath::new(absolute, parts).unwrap()
}

fn in_root(relative: &str) -> TreePath {
    path(&format!("{}/{}", ROOT, relative))
}

fn ends_with(path: &TreePath, text: &str) -> bool {
    let parts = path.parts();
    let end: Vec<Vec<u8>> = text.split('/').map(|part| part.as_bytes().to_vec()).collect();
    parts.len() >= end.len() && parts[parts.len() - end.len()..] == end[..]
}

fn options() -> FileTreeOptions {
    FileTreeOptions {
        hidden: false,
        follow_symlinks: false,
        parents: false,
        ignore: false,
        git_ignore: false,
        git_global: false,
        git_exclude: false,
        dedup_symlinks: false,
    }
}

/// What the walk of a directory of the demo tree reports: the directory itself, then its entries
/// in no particular order.
fn walked(dir: &TreePath) -> Vec<Option<WalkedEntry>> {
    let entries: Vec<(&str, bool)> = if *dir == path(ROOT) {
        vec![("Cargo.toml", false), ("src", true)]
    } else if *dir == in_root("src") {
        vec![("src/main.rs", false), ("src/nested", true)]
    } else if *dir == in_root("src/nested") {
        vec![("src/nested/lib.rs", false)]
    } else {
        vec![]
    };
    let mut walked = vec![Some(WalkedEntry { path: dir.clone(), is_dir: Some(true) })];
    for (relative, is_dir) in entries {
        walked.push(Some(WalkedEntry { path: in_root(relative), is_dir: Some(is_dir) }));
    }
    walked
}

/// Runs an operation, reading the directories that it asks for.
fn run<T>(mut operation: impl FnMut(&Listing) -> Step<T>) -> T {
    let mut listing = Listing::new();
    loop {
        match operation(&listing) {
            Step::Done(result) => return result,
            Step::Read(dir) => {
                assert!(listing.get(&dir).is_none());
                let children = FileTreeSidebar::read_children(&dir, walked(&dir));
                assert!(are_below(&children, &dir));
                listing.insert(dir, children);
            }
        }
    }
}

fn demo() -> FileTreeSidebar {
    run(|listing| FileTreeSidebar::new(path(ROOT), options(), true, true, listing).unwrap())
}

fn show_path(sidebar: &mut FileTreeSidebar, target: &TreePath) {
    run(|listing| sidebar.reveal_path(target, listing))
}

fn press(sidebar: &mut FileTreeSidebar, code: KeyCode) -> FileTreeEvent {
    run(|listing| {
        sidebar.handle_key(KeyEvent { code, modifiers: KeyModifiers { bits: 0 } }, listing)
    })
}

fn click(sidebar: &mut FileTreeSidebar, area: Rect, row: u16, now: u64) -> FileTreeEvent {
    run(|listing| sidebar.click_at_row(area, row, now, listing))
}

fn shown(sidebar: &FileTreeSidebar) -> Vec<(String, usize, bool)> {
    sidebar
        .entries()
        .iter()
        .map(|entry| (entry.name.clone(), entry.depth, entry.expanded))
        .collect()
}

fn rows(expected: &[(&str, usize, bool)]) -> Vec<(String, usize, bool)> {
    expected.iter().map(|(name, depth, open)| (name.to_string(), *depth, *open)).collect()
}

fn selected_path(sidebar: &FileTreeSidebar) -> TreePath {
    sidebar.entries()[sidebar.selected()].path.clone()
}

#[test]
fn initializes_with_first_level_entries_only() {
    let sidebar = demo();

    assert_ne!(sidebar.entries()[0].path, path(ROOT));
    assert_eq!(sidebar.entries()[0].depth, 0);
    assert!(sidebar.entries().iter().any(|entry| ends_with(&entry.path, "src")));
    assert!(sidebar.entries().iter().any(|entry| ends_with(&entry.path, "Cargo.toml")));

    assert_eq!(shown(&sidebar), rows(&[("src", 0, false), ("Cargo.toml", 0, false)]));
    assert_eq!(sidebar.selected(), 0);
}

#[test]
fn reveal_path_expands_ancestors_and_selects_entry() {
    let target = in_root("src/nested/lib.rs");

    let mut sidebar = demo();
    show_path(&mut sidebar, &target);

    assert_eq!(selected_path(&sidebar), target);
    assert!(sidebar.entries().iter().any(|entry| ends_with(&entry.path, "src/nested")));

    assert_eq!(
        shown(&sidebar),
        rows(&[
            ("src", 0, true),
            ("nested", 1, true),
            ("lib.rs", 2, false),
            ("main.rs", 1, false),
            ("Cargo.toml", 0, false),
        ])
    );
}

#[test]
fn left_key_collapses_directory_and_moves_to_parent() {
    let nested_dir = in_root("src/nested");

    let mut sidebar = demo();
    show_path(&mut sidebar, &nested_dir);
    press(&mut sidebar, KeyCode::Left);

    assert!(ends_with(&selected_path(&sidebar), "src"));
}

#[test]
fn unhandled_keys_are_ignored() {
    let mut sidebar = demo();
    let before = format!("{:?}", sidebar);
    let event = run(|listing| {
        sidebar.handle_key(
            KeyEvent { code: KeyCode::Char('b'), modifiers: KeyModifiers { bits: 0b1000 } },
            listing,
        )
    });
    assert!(matches!(event, FileTreeEvent::Ignored));
    assert_eq!(format!("{:?}", sidebar), before);
}

#[test]
fn double_click_opens_file() {
    let file = in_root("Cargo.toml");

    let mut sidebar = demo();
    let area = Rect::new(0, 0, 32, 20);
    let row = sidebar
        .entries()
        .iter()
        .position(|entry| entry.path == file)
        .map(|index| area.y + 1 + index as u16)
        .unwrap();

    assert!(matches!(click(&mut sidebar, area, row, 1_000), FileTreeEvent::Consumed));
    assert!(
        matches!(click(&mut sidebar, area, row, 2_000), FileTreeEvent::Open(path) if path == file)
    );
}

#[test]
fn clamp_width_honors_minimums() {
    let area = Rect::new(0, 0, 60, 20);
    assert_eq!(FileTreeSidebar::clamp_width(area, 5), Some(MIN_SIDEBAR_WIDTH));
    assert_eq!(FileTreeSidebar::clamp_width(Rect::new(0, 0, 30, 20), 20), None);
}

#[test]
fn entry_spans_only_style_filename_and_use_numeric_diagnostics() {
    let sidebar = demo();
    let entry =
        sidebar.entries().iter().find(|entry| ends_with(&entry.path, "Cargo.toml")).unwrap();

    let spans = sidebar.entry_spans(
        entry,
        80,
        &RowStyles {
            directory: Style::default().fg(Color::Blue),
            file: Style::default().fg(Color::White),
            selected: Style::default().bg(Color::Gray),
            added: Style::default().fg(Color::Green),
            modified: Style::default().fg(Color::Yellow),
            removed: Style::default().fg(Color::Red),
            warning: Style::default().fg(Color::Yellow),
            error: Style::default().fg(Color::Red),
        },
        RowState {
            change: Some(FileChangeKind::Modified),
            counts: DiagnosticCounts { warnings: 2, errors: 1 },
            is_selected: false,
            is_active: false,
        },
    );

    assert_eq!(spans.len(), 4);
    assert_eq!(spans[0].style.fg, Some(Color::White));
    assert_eq!(spans[0].style.underline_style, None);
    assert_eq!(spans[1].content.as_str(), "Cargo.toml");
    assert_eq!(spans[1].style.fg, Some(Color::Yellow));
    assert_eq!(spans[1].style.underline_style, Some(UnderlineStyle::Dotted));
    assert_eq!(spans[1].style.underline_color, Some(Color::Red));
    assert_eq!(spans[2].content.as_str(), " 2");
    assert_eq!(spans[2].style.fg, Some(Color::Yellow));
    assert_eq!(spans[3].content.as_str(), " 1");
    assert_eq!(spans[3].style.fg, Some(Color::Red));
}

#[test]
fn missing_root_is_refused() {
    let error = FileTreeSidebar::new(path("/gone"), options(), false, false, &Listing::new())
        .unwrap_err();
    assert!(matches!(&error, RootError::NotFound(root) if *root == path("/gone")));
    assert_eq!(error.message(), "/gone does not exist");
}

#[test]
fn file_as_root_is_refused() {
    let error = FileTreeSidebar::new(path("notes/a.md"), options(), true, false, &Listing::new())
        .unwrap_err();
    assert!(matches!(&error, RootError::NotADirectory(root) if *root == path("notes/a.md")));
    assert_eq!(error.message(), "notes/a.md is not a directory");
}

#[test]
fn new_sidebar_asks_for_its_root() {
    let step = FileTreeSidebar::new(path(ROOT), options(), true, true, &Listing::new()).unwrap();
    assert!(matches!(step, Step::Read(dir) if dir == path(ROOT)));
}

#[test]
fn new_sidebar_keeps_its_root_and_options() {
    let sidebar = demo();
    assert_eq!(*sidebar.root(), path(ROOT));
    assert_eq!(sidebar.options(), options());
    assert_eq!(sidebar.root_label(), "demo");
    assert_eq!(sidebar.scroll(), 0);
    assert_eq!(sidebar.diagnostics_generation(), 0);
    assert_eq!(sidebar.width_for(Rect::new(0, 0, 100, 20)), Some(32));
}

#[test]
fn failed_walk_steps_and_unknown_types_are_left_out() {
    let dir = path(ROOT);
    let children = FileTreeSidebar::read_children(
        &dir,
        vec![
            None,
            Some(WalkedEntry { path: in_root("odd"), is_dir: None }),
            Some(WalkedEntry { path: dir.clone(), is_dir: Some(true) }),
            Some(WalkedEntry { path: in_root("b.rs"), is_dir: Some(false) }),
        ],
    );
    assert_eq!(children.len(), 1);
    assert_eq!(children[0].path, in_root("b.rs"));
    assert_eq!(children[0].kind, EntryKind::File);
}

#[test]
fn children_are_shown_directories_first_and_by_path() {
    let dir = path(ROOT);
    let names = [("b", false), ("z", true), ("a", false), ("B", false), ("c", true)];
    let walked = names
        .iter()
        .map(|(name, is_dir)| {
            Some(WalkedEntry { path: in_root(name), is_dir: Some(*is_dir) })
        })
        .collect();
    let children = FileTreeSidebar::read_children(&dir, walked);
    let shown: Vec<TreePath> = children.iter().map(|child| child.path.clone()).collect();
    let expected: Vec<TreePath> =
        ["c", "z", "B", "a", "b"].iter().map(|name| in_root(name)).collect();
    assert_eq!(shown, expected);
}

#[test]
fn children_outside_their_directory_are_noticed() {
    let children = FileTreeSidebar::read_children(
        &in_root("src"),
        vec![Some(WalkedEntry { path: in_root("docs"), is_dir: Some(true) })],
    );
    assert!(!are_below(&children, &in_root("src")));
    assert!(are_below(&children, &path(ROOT)));
}

#[test]
fn revealing_outside_the_tree_changes_nothing() {
    let mut sidebar = demo();
    let before = format!("{:?}", sidebar);
    show_path(&mut sidebar, &path("/work/other/file.rs"));
    assert_eq!(format!("{:?}", sidebar), before);
}

#[test]
fn revealing_what_does_not_exist_keeps_the_selection() {
    let mut sidebar = demo();
    press(&mut sidebar, KeyCode::Down);
    show_path(&mut sidebar, &in_root("src/gone.rs"));
    assert_eq!(
        shown(&sidebar),
        rows(&[
            ("src", 0, true),
            ("nested", 1, false),
            ("main.rs", 1, false),
            ("Cargo.toml", 0, false),
        ])
    );
    assert_eq!(sidebar.selected(), 1);
}

#[test]
fn operation_that_has_to_read_changes_nothing_yet() {
    let mut sidebar = demo();
    let before = format!("{:?}", sidebar);
    let mut listing = Listing::new();
    let root = path(ROOT);
    let children = FileTreeSidebar::read_children(&root, walked(&root));
    listing.insert(root, children);
    let step = sidebar.expand_or_descend(&listing);
    assert!(matches!(step, Step::Read(dir) if dir == in_root("src")));
    assert_eq!(format!("{:?}", sidebar), before);
}

#[test]
fn double_click_that_has_to_read_changes_nothing_yet() {
    let mut sidebar = demo();
    press(&mut sidebar, KeyCode::Down);
    let area = Rect::new(0, 0, 32, 20);
    click(&mut sidebar, area, 1, 10);
    press(&mut sidebar, KeyCode::Down);
    let before = format!("{:?}", sidebar);
    assert!(matches!(
        sidebar.click_at_row(area, 1, 20, &Listing::new()),
        Step::Read(dir) if dir == path(ROOT)
    ));
    assert_eq!(format!("{:?}", sidebar), before);
    click(&mut sidebar, area, 1, 20);
    assert!(sidebar.entries()[0].expanded);
    assert_eq!(sidebar.selected(), 0);
}

#[test]
fn activating_a_directory_twice_restores_the_sidebar() {
    let mut sidebar = demo();
    let before = format!("{:?}", sidebar);
    assert!(matches!(press(&mut sidebar, KeyCode::Enter), FileTreeEvent::Consumed));
    assert_eq!(
        shown(&sidebar),
        rows(&[
            ("src", 0, true),
            ("nested", 1, false),
            ("main.rs", 1, false),
            ("Cargo.toml", 0, false),
        ])
    );
    press(&mut sidebar, KeyCode::Enter);
    assert_eq!(format!("{:?}", sidebar), before);
}

#[test]
fn collapsed_directories_stay_expanded_inside() {
    let mut sidebar = demo();
    show_path(&mut sidebar, &in_root("src/nested/lib.rs"));
    press(&mut sidebar, KeyCode::Home);
    press(&mut sidebar, KeyCode::Left);
    assert_eq!(shown(&sidebar), rows(&[("src", 0, false), ("Cargo.toml", 0, false)]));
    press(&mut sidebar, KeyCode::Right);
    assert_eq!(sidebar.entries().len(), 5);
    assert!(sidebar.entries()[1].expanded);
}

#[test]
fn collapsing_needs_no_directory_that_is_not_shown() {
    let mut sidebar = demo();
    press(&mut sidebar, KeyCode::Right);
    let mut listing = Listing::new();
    let root = path(ROOT);
    let children = FileTreeSidebar::read_children(&root, walked(&root));
    listing.insert(root, children);
    assert!(matches!(
        sidebar.collapse_or_select_parent(&listing),
        Step::Done(FileTreeEvent::Consumed)
    ));
    assert_eq!(shown(&sidebar), rows(&[("src", 0, false), ("Cargo.toml", 0, false)]));
    assert_eq!(sidebar.selected(), 0);
}

#[test]
fn letters_do_what_arrows_do() {
    let pairs = [('k', KeyCode::Up), ('j', KeyCode::Down), ('h', KeyCode::Left), ('l', KeyCode::Right)];
    for (letter, arrow) in pairs {
        let mut by_letter = demo();
        let mut by_arrow = demo();
        show_path(&mut by_letter, &in_root("src/nested"));
        show_path(&mut by_arrow, &in_root("src/nested"));
        press(&mut by_letter, KeyCode::Char(letter));
        press(&mut by_arrow, arrow);
        assert_eq!(format!("{:?}", by_letter), format!("{:?}", by_arrow));
    }
}

#[test]
fn directories_are_collected_with_what_is_expanded() {
    let mut listing = Listing::new();
    for dir in [in_root("src"), in_root("src/nested")] {
        let children = FileTreeSidebar::read_children(&dir, walked(&dir));
        listing.insert(dir, children);
    }
    let mut expanded = PathSet::new();
    expanded.insert(in_root("src"));
    let mut entries = Vec::new();
    let missing = FileTreeSidebar::collect_directory(
        &expanded,
        &listing,
        &in_root("src"),
        3,
        &mut entries,
    );
    assert_eq!(missing, None);
    let collected: Vec<(&str, usize)> =
        entries.iter().map(|entry| (entry.name.as_str(), entry.depth)).collect();
    assert_eq!(collected, vec![("src", 3), ("nested", 4), ("main.rs", 4)]);
    expanded.insert(in_root("docs"));
    let missing = FileTreeSidebar::collect_directory(
        &expanded,
        &listing,
        &in_root("docs"),
        0,
        &mut entries,
    );
    assert_eq!(missing, Some(in_root("docs")));
}

#[test]
fn left_and_right_walk_up_and_down_the_tree() {
    let mut sidebar = demo();
    press(&mut sidebar, KeyCode::Right);
    assert_eq!(sidebar.selected(), 0);
    press(&mut sidebar, KeyCode::Char('l'));
    assert_eq!(selected_path(&sidebar), in_root("src/nested"));
    press(&mut sidebar, KeyCode::Char('h'));
    assert_eq!(selected_path(&sidebar), in_root("src"));
    press(&mut sidebar, KeyCode::End);
    press(&mut sidebar, KeyCode::Left);
    assert_eq!(selected_path(&sidebar), in_root("Cargo.toml"));
    assert!(matches!(
        press(&mut sidebar, KeyCode::Right),
        FileTreeEvent::Open(path) if path == in_root("Cargo.toml")
    ));
    assert!(matches!(
        press(&mut sidebar, KeyCode::Enter),
        FileTreeEvent::Open(path) if path == in_root("Cargo.toml")
    ));
}

#[test]
fn up_and_down_stop_at_the_ends() {
    let mut sidebar = demo();
    press(&mut sidebar, KeyCode::Up);
    assert_eq!(sidebar.selected(), 0);
    press(&mut sidebar, KeyCode::Char('j'));
    assert_eq!(sidebar.selected(), 1);
    press(&mut sidebar, KeyCode::Down);
    assert_eq!(sidebar.selected(), 1);
    press(&mut sidebar, KeyCode::Char('k'));
    assert_eq!(sidebar.selected(), 0);
    sidebar.move_selection(isize::MAX);
    assert_eq!(sidebar.selected(), 1);
    sidebar.move_selection(isize::MIN);
    assert_eq!(sidebar.selected(), 0);
    press(&mut sidebar, KeyCode::End);
    assert_eq!(sidebar.selected(), 1);
    press(&mut sidebar, KeyCode::Home);
    assert_eq!(sidebar.selected(), 0);
}

#[test]
fn escape_closes() {
    let mut sidebar = demo();
    assert!(matches!(press(&mut sidebar, KeyCode::Esc), FileTreeEvent::Close));
    assert!(matches!(press(&mut sidebar, KeyCode::F(3)), FileTreeEvent::Ignored));
    assert!(matches!(press(&mut sidebar, KeyCode::Tab), FileTreeEvent::Ignored));
}

#[test]
fn parents_and_first_children_are_found_by_depth() {
    let mut sidebar = demo();
    show_path(&mut sidebar, &in_root("src/nested/lib.rs"));
    let parents: Vec<Option<usize>> = (0..6).map(|i| sidebar.parent_index(i)).collect();
    assert_eq!(parents, vec![None, Some(0), Some(1), Some(0), None, None]);
    let children: Vec<Option<usize>> = (0..6).map(|i| sidebar.first_child_index(i)).collect();
    assert_eq!(children, vec![Some(1), Some(2), None, None, None, None]);
}

#[test]
fn empty_tree_has_nothing_to_select() {
    let mut sidebar = run(|listing| {
        FileTreeSidebar::new(path("/empty"), options(), true, true, listing).unwrap()
    });
    assert!(sidebar.entries().is_empty());
    for code in [
        KeyCode::Up,
        KeyCode::Down,
        KeyCode::Home,
        KeyCode::End,
        KeyCode::Left,
        KeyCode::Right,
        KeyCode::Enter,
    ] {
        assert!(matches!(press(&mut sidebar, code), FileTreeEvent::Consumed));
        assert_eq!(sidebar.selected(), 0);
    }
    assert!(matches!(
        click(&mut sidebar, Rect::new(0, 0, 32, 20), 1, 0),
        FileTreeEvent::Consumed
    ));
}

#[test]
fn clicks_outside_the_rows_select_nothing() {
    let mut sidebar = demo();
    let area = Rect::new(0, 5, 32, 20);
    assert_eq!(sidebar.entry_index_at_row(area, 4), None);
    assert_eq!(sidebar.entry_index_at_row(area, 5), None);
    assert_eq!(sidebar.entry_index_at_row(area, 6), Some(0));
    assert_eq!(sidebar.entry_index_at_row(area, 7), Some(1));
    assert_eq!(sidebar.entry_index_at_row(area, 8), None);
    click(&mut sidebar, area, 7, 0);
    assert_eq!(sidebar.selected(), 1);
    click(&mut sidebar, area, 5, 1);
    assert_eq!(sidebar.selected(), 1);
    assert_eq!(sidebar.entry_index_at_row(Rect::new(0, 65535, 32, 20), 65535), None);
}

#[test]
fn slow_or_scattered_clicks_open_nothing() {
    let area = Rect::new(0, 0, 32, 20);
    let mut sidebar = demo();
    click(&mut sidebar, area, 2, 0);
    let late = DOUBLE_CLICK_THRESHOLD + 1;
    assert!(matches!(click(&mut sidebar, area, 2, late), FileTreeEvent::Consumed));
    let in_time = late + DOUBLE_CLICK_THRESHOLD;
    assert!(matches!(click(&mut sidebar, area, 2, in_time), FileTreeEvent::Open(_)));
    let mut sidebar = demo();
    click(&mut sidebar, area, 2, 0);
    click(&mut sidebar, area, 1, 1);
    assert!(matches!(click(&mut sidebar, area, 2, 2), FileTreeEvent::Consumed));
}

#[test]
fn clock_that_goes_back_counts_as_no_time() {
    let area = Rect::new(0, 0, 32, 20);
    let mut sidebar = demo();
    click(&mut sidebar, area, 2, 900);
    assert!(matches!(click(&mut sidebar, area, 2, 100), FileTreeEvent::Open(_)));
}

#[test]
fn widths_leave_room_for_the_editor() {
    let area = Rect::new(0, 0, 60, 20);
    assert_eq!(FileTreeSidebar::clamp_width(area, 40), Some(40));
    assert_eq!(FileTreeSidebar::clamp_width(area, 41), Some(40));
    assert_eq!(FileTreeSidebar::clamp_width(area, 25), Some(25));
    assert_eq!(FileTreeSidebar::clamp_width(Rect::new(0, 0, 38, 20), 99), Some(18));
    assert_eq!(FileTreeSidebar::clamp_width(Rect::new(0, 0, 37, 20), 99), None);
    assert_eq!(FileTreeSidebar::clamp_width(Rect::new(0, 0, 10, 20), 0), None);
}

#[test]
fn dragging_sets_the_width() {
    let area = Rect::new(10, 0, 60, 20);
    let mut sidebar = demo();
    sidebar.set_width_from_column(area, 33);
    assert_eq!(sidebar.width_for(area), Some(24));
    sidebar.set_width_from_column(area, 3);
    assert_eq!(sidebar.width_for(area), Some(18));
    sidebar.set_width_from_column(area, u16::MAX);
    assert_eq!(sidebar.width_for(area), Some(40));
    sidebar.set_width_from_column(Rect::new(0, 0, 30, 20), 22);
    assert_eq!(sidebar.width_for(area), Some(40));
}

#[test]
fn scrolling_follows_the_selection() {
    let mut sidebar = demo();
    show_path(&mut sidebar, &in_root("src/nested/lib.rs"));
    press(&mut sidebar, KeyCode::End);
    sidebar.ensure_selected_visible(3);
    assert_eq!(sidebar.scroll(), 2);
    sidebar.ensure_selected_visible(3);
    assert_eq!(sidebar.scroll(), 2);
    sidebar.move_selection(-1);
    sidebar.ensure_selected_visible(3);
    assert_eq!(sidebar.scroll(), 2);
    press(&mut sidebar, KeyCode::Home);
    sidebar.ensure_selected_visible(3);
    assert_eq!(sidebar.scroll(), 0);
    press(&mut sidebar, KeyCode::End);
    sidebar.ensure_selected_visible(0);
    assert_eq!(sidebar.scroll(), 4);
    assert_eq!(sidebar.entry_index_at_row(Rect::new(0, 0, 32, 20), 1), Some(4));
}

#[test]
fn rebuilding_keeps_the_selection_in_range() {
    let mut sidebar = demo();
    press(&mut sidebar, KeyCode::End);
    let mut listing = Listing::new();
    let children = FileTreeSidebar::read_children(
        &path(ROOT),
        vec![Some(WalkedEntry { path: in_root("only.md"), is_dir: Some(false) })],
    );
    listing.insert(path(ROOT), children);
    assert!(matches!(sidebar.rebuild(&listing), Step::Done(())));
    assert_eq!(shown(&sidebar), rows(&[("only.md", 0, false)]));
    assert_eq!(sidebar.selected(), 0);
    assert!(matches!(sidebar.rebuild(&listing), Step::Done(())));
    assert_eq!(shown(&sidebar), rows(&[("only.md", 0, false)]));
    assert!(matches!(sidebar.rebuild(&Listing::new()), Step::Read(dir) if dir == path(ROOT)));
}

#[test]
fn relative_roots_work_like_absolute_ones() {
    let root = path("project");
    let mut listing = Listing::new();
    let children = FileTreeSidebar::read_children(
        &root,
        vec![Some(WalkedEntry { path: path("project/a"), is_dir: Some(true) })],
    );
    listing.insert(root.clone(), children);
    listing.insert(
        path("project/a"),
        FileTreeSidebar::read_children(
            &path("project/a"),
            vec![Some(WalkedEntry { path: path("project/a/b.rs"), is_dir: Some(false) })],
        ),
    );
    let step = FileTreeSidebar::new(root, options(), true, true, &listing).unwrap();
    let mut sidebar = match step {
        Step::Done(sidebar) => sidebar,
        Step::Read(dir) => panic!("asked for {:?}", dir),
    };
    assert!(matches!(
        sidebar.reveal_path(&path("project/a/b.rs"), &listing),
        Step::Done(())
    ));
    assert_eq!(selected_path(&sidebar), path("project/a/b.rs"));
}
