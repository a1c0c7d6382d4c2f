use sidebar_swatches::diagnostics::{
    diagnostic_counts_by_path, DiagnosticCounts, DiagnosticReport, Severity,
};
use sidebar_swatches::entry::{EntryKind, FileTreeEntry};
use sidebar_swatches::geometry::Rect;
use sidebar_swatches::git::{record_change, FileChange, FileChangeKind};
use sidebar_swatches::listing::{Listing, WalkedEntry};
use sidebar_swatches::path::TreePath;
use sidebar_swatches::path_map::PathMap;
use sidebar_swatches::render::{DrawOp, SidebarTheme};
use sidebar_swatches::row::{
    change_style, diagnostic_underline_style, label_spans, label_styles, RowState, RowStyles, Span,
};
use sidebar_swatches::sidebar::{FileTreeOptions, FileTreeSidebar, Step};
use sidebar_swatches::style::{Color, Modifier, Style, UnderlineStyle, BOLD, ITALIC};
use sidebar_swatches::text::measure;

fn path(text: &str) -> TreePath {
    let absolute = text.starts_with('/');
    let parts = text
        .split('/')
        .filter(|part| !part.is_empty())
        .map(|part| part.as_bytes().to_vec())
        .collect();
    TreePath::new(absolute, parts).unwrap()
}

fn fg(color: Color) -> Style {
    Style::default().fg(color)
}

fn theme() -> SidebarTheme {
    SidebarTheme {
        background: Style::default().bg(Color::Black),
        window: fg(Color::Gray),
        directory: fg(Color::Blue),
        text: fg(Color::White),
        menu_selected: Some(Style::default().bg(Color::Cyan)),
        selection: Some(Style::default().bg(Color::Magenta)),
        diff_plus: Some(fg(Color::Green)),
        diff_delta: Some(fg(Color::LightYellow)),
        diff_minus: Some(fg(Color::LightRed)),
        hint: fg(Color::LightGray),
        warning: fg(Color::Yellow),
        error: fg(Color::Red),
    }
}

fn plain() -> RowState {
    RowState {
        change: None,
        counts: DiagnosticCounts { warnings: 0, errors: 0 },
        is_selected: false,
        is_active: false,
    }
}

fn texts(spans: &Vec<Span>) -> Vec<&str> {
    spans.iter().map(|span| span.content.as_str()).collect()
}

fn sidebar_of(files: &[&str]) -> FileTreeSidebar {
    let options = FileTreeOptions {
        hidden: true,
        follow_symlinks: false,
        parents: true,
        ignore: true,
        git_ignore: true,
        git_global: true,
        git_exclude: true,
        dedup_symlinks: true,
    };
    let root = path("/r");
    let mut listing = Listing::new();
    let walked = files
        .iter()
        .map(|file| Some(WalkedEntry { path: path(file), is_dir: Some(false) }))
        .collect();
    listing.insert(root.clone(), FileTreeSidebar::read_children(&root, walked));
    match FileTreeSidebar::new(root, options, true, true, &listing).unwrap() {
        Step::Done(sidebar) => sidebar,
        Step::Read(dir) => panic!("asked for {:?}", dir),
    }
}

#[test]
fn styles_are_laid_over_each_other() {
    let under = fg(Color::Red).bg(Color::Blue).add_modifier(BOLD);
    let over = fg(Color::Green).underline_style(UnderlineStyle::Curl).add_modifier(ITALIC);
    let both = under.patch(over);
    assert_eq!(both.fg, Some(Color::Green));
    assert_eq!(both.bg, Some(Color::Blue));
    assert_eq!(both.underline_color, None);
    assert_eq!(both.underline_style, Some(UnderlineStyle::Curl));
    assert_eq!(both.add_modifier, Modifier { bits: 5 });
    assert_eq!(both.sub_modifier, Modifier { bits: 0 });
    assert_eq!(under.patch(Style::default()), under);
    assert_eq!(Style::default().patch(over), over);
    let third = Style::default().bg(Color::White);
    assert_eq!(under.patch(over).patch(third), under.patch(over.patch(third)));
}

#[test]
fn modifiers_that_are_taken_away_can_be_given_back() {
    let without_bold = Style { sub_modifier: Modifier { bits: BOLD }, ..Style::default() };
    let bold = Style::default().add_modifier(BOLD);
    assert_eq!(bold.patch(without_bold).add_modifier, Modifier { bits: 0 });
    assert_eq!(bold.patch(without_bold).sub_modifier, Modifier { bits: BOLD });
    assert_eq!(without_bold.add_modifier(BOLD), bold);
}

#[test]
fn changes_have_their_styles() {
    let styles = theme().row_styles(true);
    assert_eq!(change_style(FileChangeKind::Untracked, &styles), fg(Color::Green));
    assert_eq!(change_style(FileChangeKind::Modified, &styles), fg(Color::LightYellow));
    assert_eq!(change_style(FileChangeKind::Conflict, &styles), fg(Color::Red));
    assert_eq!(change_style(FileChangeKind::Deleted, &styles), fg(Color::LightRed));
    assert_eq!(
        change_style(FileChangeKind::Renamed, &styles),
        fg(Color::LightYellow).add_modifier(ITALIC)
    );
}

#[test]
fn themes_that_lack_styles_fall_back_on_others() {
    let full = theme();
    assert_eq!(full.row_styles(true).selected, Style::default().bg(Color::Cyan));
    assert_eq!(full.row_styles(false).selected, fg(Color::White).add_modifier(BOLD));
    let poor = SidebarTheme {
        menu_selected: None,
        diff_plus: None,
        diff_delta: None,
        diff_minus: None,
        ..full
    };
    assert_eq!(poor.row_styles(true).selected, Style::default().bg(Color::Magenta));
    assert_eq!(poor.row_styles(true).added, fg(Color::LightGray));
    assert_eq!(poor.row_styles(true).modified, fg(Color::Yellow));
    assert_eq!(poor.row_styles(true).removed, fg(Color::Red));
    let poorer = SidebarTheme { selection: None, ..poor };
    assert_eq!(poorer.row_styles(true).selected, fg(Color::White));
}

#[test]
fn diagnostics_underline_in_the_color_of_the_gravest() {
    let dotted = |color| {
        Some(Style::default().underline_color(color).underline_style(UnderlineStyle::Dotted))
    };
    let counts = |warnings, errors| DiagnosticCounts { warnings, errors };
    let (warning, error) = (fg(Color::Cyan), fg(Color::Magenta));
    assert_eq!(diagnostic_underline_style(counts(0, 0), warning, error), None);
    assert_eq!(diagnostic_underline_style(counts(3, 0), warning, error), dotted(Color::Cyan));
    assert_eq!(diagnostic_underline_style(counts(3, 1), warning, error), dotted(Color::Magenta));
    let bare = Style::default();
    assert_eq!(diagnostic_underline_style(counts(1, 0), bare, bare), dotted(Color::Yellow));
    assert_eq!(diagnostic_underline_style(counts(0, 1), bare, bare), dotted(Color::Red));
}

#[test]
fn changes_and_diagnostics_mark_the_name_only() {
    let styles = theme().row_styles(true);
    let state = RowState {
        change: Some(FileChangeKind::Untracked),
        counts: DiagnosticCounts { warnings: 1, errors: 0 },
        ..plain()
    };
    let (prefix, name) = label_styles(EntryKind::Directory, &styles, state);
    assert_eq!(prefix, fg(Color::Blue));
    assert_eq!(
        name,
        fg(Color::Green).underline_color(Color::Yellow).underline_style(UnderlineStyle::Dotted)
    );
    let (prefix, name) = label_styles(EntryKind::File, &styles, plain());
    assert_eq!((prefix, name), (fg(Color::White), fg(Color::White)));
}

#[test]
fn marking_styles_change_no_text() {
    let sidebar = sidebar_of(&["/r/long-name.rs"]);
    let entry = &sidebar.entries()[0];
    let styles = theme().row_styles(true);
    let others = RowStyles {
        added: fg(Color::Cyan),
        modified: fg(Color::Blue),
        removed: fg(Color::Gray),
        warning: fg(Color::White),
        error: fg(Color::Black),
        ..styles
    };
    let counts = DiagnosticCounts { warnings: 3, errors: 1 };
    let changed = RowState { change: Some(FileChangeKind::Deleted), counts, ..plain() };
    let unchanged = RowState { counts, ..plain() };
    for width in 0..30 {
        let left = sidebar.entry_spans(entry, width, &styles, changed);
        let right = sidebar.entry_spans(entry, width, &others, unchanged);
        assert_eq!(texts(&left), texts(&right));
        assert_eq!(left[0].style, right[0].style);
    }
}

#[test]
fn active_and_selected_rows_stand_out() {
    let styles = theme().row_styles(true);
    let state = RowState { is_selected: true, is_active: true, ..plain() };
    let (prefix, name) = label_styles(EntryKind::File, &styles, state);
    let expected = fg(Color::White).bg(Color::Cyan).add_modifier(BOLD);
    assert_eq!((prefix, name), (expected, expected));
    let counts = DiagnosticCounts { warnings: 4, errors: 12 };
    let sidebar = sidebar_of(&["/r/a.rs"]);
    let spans =
        sidebar.entry_spans(&sidebar.entries()[0], 40, &styles, RowState { counts, ..state });
    assert_eq!(texts(&spans), vec!["  \u{E7A8} ", "a.rs", " 4", " 12"]);
    assert_eq!(spans[2].style, fg(Color::Yellow).bg(Color::Cyan));
    assert_eq!(spans[3].style, fg(Color::Red).bg(Color::Cyan));
}

#[test]
fn labels_are_cut_to_what_the_counts_leave() {
    let styles = theme().row_styles(false);
    let sidebar = sidebar_of(&["/r/long-name.rs"]);
    let entry = FileTreeEntry::new(path("/r/long-name.rs"), 0, EntryKind::File, false);
    let state = RowState { counts: DiagnosticCounts { warnings: 7, errors: 0 }, ..plain() };
    let spans = sidebar.entry_spans(&entry, 12, &styles, state);
    assert_eq!(texts(&spans), vec!["  \u{E7A8} ", "long-…", " 7"]);
    let spans = sidebar.entry_spans(&entry, 7, &styles, state);
    assert_eq!(texts(&spans), vec!["  \u{E7A8} ", "…", " 7"]);
    let spans = sidebar.entry_spans(&entry, 6, &styles, state);
    assert_eq!(texts(&spans), vec!["  \u{E7A8}…", " 7"]);
    let spans = sidebar.entry_spans(&entry, 1, &styles, state);
    assert_eq!(texts(&spans), vec!["", " 7"]);
}

#[test]
fn labels_are_laid_out_by_their_measures() {
    let spans = label_spans(
        &measure("> "),
        &measure("name"),
        &measure("> name"),
        5,
        fg(Color::Blue),
        fg(Color::Green),
    );
    assert_eq!(texts(&spans), vec!["> ", "na…"]);
    assert_eq!(spans[0].style, fg(Color::Blue));
    assert_eq!(spans[1].style, fg(Color::Green));
}

#[test]
fn diagnostics_are_counted_by_file() {
    let reports = vec![
        DiagnosticReport {
            path: Some(path("/r/a.rs")),
            severities: vec![
                Some(Severity::Warning),
                Some(Severity::Error),
                Some(Severity::Hint),
                None,
                Some(Severity::Warning),
                Some(Severity::Information),
            ],
        },
        DiagnosticReport { path: None, severities: vec![Some(Severity::Error)] },
        DiagnosticReport { path: Some(path("/r/b.rs")), severities: vec![] },
        DiagnosticReport { path: Some(path("/r/a.rs")), severities: vec![Some(Severity::Error)] },
    ];
    let counts = diagnostic_counts_by_path(&reports);
    assert_eq!(
        counts.get(&path("/r/a.rs")),
        Some(&DiagnosticCounts { warnings: 2, errors: 2 })
    );
    assert_eq!(counts.get(&path("/r/b.rs")), Some(&DiagnosticCounts::default()));
    assert_eq!(counts.get(&path("/r/c.rs")), None);
}

#[test]
fn diagnostics_are_counted_once_for_each_generation() {
    let report = |n| {
        vec![DiagnosticReport {
            path: Some(path("/r/a.rs")),
            severities: vec![Some(Severity::Error); n],
        }]
    };
    let errors = |n| DiagnosticCounts { warnings: 0, errors: n };
    let mut sidebar = sidebar_of(&["/r/a.rs"]);
    sidebar.refresh_diagnostics(0, &report(3));
    assert_eq!(sidebar.diagnostics_of(&path("/r/a.rs")), errors(0));
    sidebar.refresh_diagnostics(1, &report(3));
    assert_eq!(sidebar.diagnostics_of(&path("/r/a.rs")), errors(3));
    assert_eq!(sidebar.diagnostics_generation(), 1);
    sidebar.refresh_diagnostics(1, &report(4));
    assert_eq!(sidebar.diagnostics_of(&path("/r/a.rs")), errors(3));
    sidebar.refresh_diagnostics(2, &vec![]);
    assert_eq!(sidebar.diagnostics_of(&path("/r/a.rs")), errors(0));
}

#[test]
fn changed_files_are_recorded_until_a_failure() {
    let mut statuses = PathMap::new();
    assert!(record_change(&mut statuses, Some(FileChange::Untracked { path: path("/r/u") })));
    assert!(record_change(&mut statuses, Some(FileChange::Modified { path: path("/r/m") })));
    assert!(record_change(&mut statuses, Some(FileChange::Conflict { path: path("/r/c") })));
    assert!(record_change(&mut statuses, Some(FileChange::Deleted { path: path("/r/d") })));
    let renamed = FileChange::Renamed { from_path: path("/r/old"), to_path: path("/r/new") };
    assert!(record_change(&mut statuses, Some(renamed)));
    assert!(!record_change(&mut statuses, None));
    assert_eq!(statuses.get(&path("/r/u")), Some(&FileChangeKind::Untracked));
    assert_eq!(statuses.get(&path("/r/m")), Some(&FileChangeKind::Modified));
    assert_eq!(statuses.get(&path("/r/c")), Some(&FileChangeKind::Conflict));
    assert_eq!(statuses.get(&path("/r/d")), Some(&FileChangeKind::Deleted));
    assert_eq!(statuses.get(&path("/r/new")), Some(&FileChangeKind::Renamed));
    assert_eq!(statuses.get(&path("/r/old")), None);
}

#[test]
fn rectangles_end_at_the_largest_coordinates() {
    let rect = Rect::new(3, 4, 10, 20);
    assert_eq!((rect.right(), rect.bottom()), (13, 24));
    assert_eq!(rect.clip_right(1), Rect::new(3, 4, 9, 20));
    assert_eq!(rect.clip_right(30), Rect::new(3, 4, 0, 20));
    let far = Rect::new(65000, 65000, 1000, 1000);
    assert_eq!((far.right(), far.bottom()), (u16::MAX, u16::MAX));
}

#[test]
fn sidebar_is_drawn_row_by_row() {
    let mut sidebar = sidebar_of(&["/r/a.rs", "/r/b.rs"]);
    let mut statuses = PathMap::new();
    statuses.insert(path("/r/b.rs"), FileChangeKind::Untracked);
    let reports = vec![DiagnosticReport {
        path: Some(path("/r/b.rs")),
        severities: vec![Some(Severity::Warning)],
    }];
    let area = Rect::new(2, 3, 20, 6);
    let ops =
        sidebar.render(area, &theme(), true, 7, &reports, &Some(path("/r/b.rs")), &statuses);
    assert_eq!(ops.len(), 1 + 6 + 1 + 2);
    assert!(matches!(&ops[0], DrawOp::Clear { area: cleared, style }
        if *cleared == area && *style == Style::default().bg(Color::Black)));
    for i in 0..6 {
        assert!(matches!(&ops[1 + i], DrawOp::Divider { x: 21, y, style }
            if *y == 3 + i as u16 && *style == fg(Color::Gray)));
    }
    match &ops[7] {
        DrawOp::Text { x, y, text, max_width, style } => {
            assert_eq!((*x, *y, *max_width), (2, 3, 19));
            assert_eq!(text, "\u{F024B} r");
            assert_eq!(*style, fg(Color::Blue).add_modifier(BOLD));
        }
        op => panic!("unexpected {:?}", op),
    }
    match &ops[8] {
        DrawOp::Spans { x, y, spans, width } => {
            assert_eq!((*x, *y, *width), (2, 4, 19));
            assert_eq!(texts(spans), vec!["  \u{E7A8} ", "a.rs"]);
            assert_eq!(spans[0].style, fg(Color::White).bg(Color::Cyan));
        }
        op => panic!("unexpected {:?}", op),
    }
    match &ops[9] {
        DrawOp::Spans { x, y, spans, width } => {
            assert_eq!((*x, *y, *width), (2, 5, 19));
            assert_eq!(texts(spans), vec!["  \u{E7A8} ", "b.rs", " 1"]);
            assert_eq!(spans[0].style, fg(Color::White).add_modifier(BOLD));
            assert_eq!(
                spans[1].style,
                fg(Color::Green)
                    .underline_color(Color::Yellow)
                    .underline_style(UnderlineStyle::Dotted)
                    .add_modifier(BOLD)
            );
            assert_eq!(spans[2].style, fg(Color::Yellow));
        }
        op => panic!("unexpected {:?}", op),
    }
    assert_eq!(sidebar.diagnostics_generation(), 7);
}

#[test]
fn drawing_scrolls_to_the_selected_row() {
    let files = ["/r/a", "/r/b", "/r/c", "/r/d", "/r/e"];
    let mut sidebar = sidebar_of(&files);
    sidebar.move_selection(4);
    let area = Rect::new(0, 0, 30, 3);
    let ops = sidebar.render(area, &theme(), false, 0, &vec![], &None, &PathMap::new());
    assert_eq!(sidebar.scroll(), 3);
    let drawn: Vec<(u16, String)> = ops
        .iter()
        .filter_map(|op| match op {
            DrawOp::Spans { y, spans, .. } => Some((*y, spans[1].content.clone())),
            _ => None,
        })
        .collect();
    assert_eq!(drawn, vec![(1, "d".to_string()), (2, "e".to_string())]);
    assert_eq!(sidebar.entry_index_at_row(area, 1), Some(3));
    assert_eq!(sidebar.entry_index_at_row(area, 2), Some(4));
}

#[test]
fn small_areas_show_less() {
    let mut sidebar = sidebar_of(&["/r/a"]);
    let statuses = PathMap::new();
    let reports = vec![];
    let mut draw =
        |area| sidebar.render(area, &theme(), true, 9, &reports, &None, &statuses).len();
    assert_eq!(draw(Rect::new(0, 0, 0, 5)), 0);
    assert_eq!(draw(Rect::new(0, 0, 5, 0)), 0);
    assert_eq!(draw(Rect::new(0, 0, 1, 5)), 6);
    assert_eq!(draw(Rect::new(0, 0, 2, 1)), 3);
    assert_eq!(draw(Rect::new(0, 0, 2, 2)), 5);
    assert_eq!(draw(Rect::new(0, 65533, 2, 2)), 5);
}

#[test]
fn areas_without_rows_leave_the_sidebar_alone() {
    let mut sidebar = sidebar_of(&["/r/a"]);
    let before = format!("{:?}", sidebar);
    let reports = vec![DiagnosticReport {
        path: Some(path("/r/a")),
        severities: vec![Some(Severity::Error)],
    }];
    sidebar.render(Rect::new(0, 0, 1, 5), &theme(), true, 9, &reports, &None, &PathMap::new());
    assert_eq!(format!("{:?}", sidebar), before);
}

#[test]
fn unused_styles_of_a_row_do_not_show() {
    let styles = RowStyles { selected: fg(Color::Magenta), ..theme().row_styles(true) };
    let (prefix, name) = label_styles(EntryKind::File, &styles, plain());
    assert_eq!(prefix, name);
    assert_eq!(prefix.fg, Some(Color::White));
}
