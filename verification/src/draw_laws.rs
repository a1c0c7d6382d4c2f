//! What a drawing of the sidebar shows, told by the sidebar, the theme and what is known of files.
use crate::diagnostics::{DiagnosticCounts, ReportView};
use crate::entry::{name_text, EntryKind};
use crate::geometry::Rect;
use crate::git::FileChangeKind;
use crate::path::PathView;
use crate::render::{drawing, row_state, row_view, DrawView, SidebarTheme};
use crate::row::{RowState, RowStyles};
use crate::row_laws::{
    has_room_for_name, is_row_of_entry, kind_style, lemma_rows_say_what_is_known,
    lemma_switching_on, looks_like_name, looks_like_prefix, marking_style,
};
use crate::sidebar::SidebarView;
use crate::style::{Color, Style, UnderlineStyle};
use vstd::prelude::*;

verus! {

/// The rows of the area that are on the screen, whose rows have the numbers of `u16`.
pub open spec fn rows_on_screen(area: Rect) -> int {
    if area.y + area.height <= 65535 {
        area.height as int
    } else {
        65535 - area.y
    }
}

/// The last column of the area, if that is on the screen.
pub open spec fn last_column(area: Rect) -> int {
    if area.x + area.width <= 65535 {
        area.x + area.width - 1
    } else {
        65534
    }
}

/// The number of entries that are drawn: those from the scroll position on, as far as there are rows
/// below the title.
pub open spec fn entries_on_screen(sidebar: SidebarView, area: Rect) -> int {
    if sidebar.entries.len() <= sidebar.scroll {
        0
    } else if sidebar.entries.len() - sidebar.scroll < area.height - 1 {
        sidebar.entries.len() - sidebar.scroll
    } else {
        area.height - 1
    }
}

/// The step that draws the `row`th row below the title.
pub open spec fn row_step(steps: Seq<DrawView>, area: Rect, row: int) -> DrawView {
    steps[rows_on_screen(area) + 2 + row]
}

/// A drawing clears the area and draws a line in its last column, one step for each row. Where
/// there is another column, a title follows, in bold, with the name of the root, and then the
/// entries from the scroll position on, each in a row of its own from the one below the title on.
/// An area without columns or rows gives no steps.
pub proof fn lemma_drawings_have_a_frame(
    sidebar: SidebarView,
    area: Rect,
    theme: SidebarTheme,
    focused: bool,
    active: Option<PathView>,
    statuses: Map<PathView, FileChangeKind>,
)
    requires
        0 <= sidebar.scroll,
    ensures
        ({
            let steps = drawing(sidebar, area, theme, focused, active, statuses);
            let h = rows_on_screen(area);
            &&& area.width == 0 || area.height == 0 ==> steps.len() == 0
            &&& area.width > 0 && area.height > 0 ==> {
                &&& steps[0] == (DrawView::Clear { area, style: theme.background })
                &&& forall|i: int|
                    1 <= i <= h ==> #[trigger] steps[i] == (DrawView::Divider {
                        x: last_column(area),
                        y: area.y + i - 1,
                        style: theme.window,
                    })
            }
            &&& area.width == 1 && area.height > 0 ==> steps.len() == h + 1
            &&& area.width > 1 && area.height > 0 ==> {
                &&& steps.len() == h + 2 + entries_on_screen(sidebar, area)
                &&& steps[h + 1] matches DrawView::Text { x, y, text, max_width, style }
                &&& x == area.x
                &&& y == area.y
                &&& max_width == area.width - 1
                &&& text.len() == 2 + name_text(sidebar.root).len()
                &&& text[0] == '\u{F024B}'
                &&& text[1] == ' '
                &&& text.skip(2) == name_text(sidebar.root)
                &&& style.fg == theme.directory.fg
                &&& style.bg == theme.directory.bg
                &&& style.underline_color == theme.directory.underline_color
                &&& style.underline_style == theme.directory.underline_style
                &&& style.add_modifier.bits == theme.directory.add_modifier.bits | 1
                &&& style.sub_modifier.bits == theme.directory.sub_modifier.bits & !1
            }
        }),
{
    let steps = drawing(sidebar, area, theme, focused, active, statuses);
    let h = rows_on_screen(area);
    if area.width > 1 && area.height > 0 {
        lemma_switching_on(theme.directory, 1);
        assert(steps[h + 1] is Text);
        let title = seq!['\u{F024B}', ' '] + name_text(sidebar.root);
        assert(title.skip(2) =~= name_text(sidebar.root));
    }
}

/// The styles are those that the theme has for a sidebar with or without the focus: the selection
/// of menus or of texts, else that of text, and bold text where there is no focus; for changed files
/// those of differences, else those of hints, warnings and errors.
pub open spec fn are_styles_of(styles: RowStyles, theme: SidebarTheme, focused: bool) -> bool {
    &&& styles.directory == theme.directory
    &&& styles.file == theme.text
    &&& styles.warning == theme.warning
    &&& styles.error == theme.error
    &&& focused && theme.menu_selected is Some ==> Some(styles.selected) == theme.menu_selected
    &&& focused && theme.menu_selected is None && theme.selection is Some ==> Some(styles.selected)
        == theme.selection
    &&& focused && theme.menu_selected is None && theme.selection is None ==> styles.selected
        == theme.text
    &&& !focused ==> {
        &&& styles.selected.fg == theme.text.fg
        &&& styles.selected.bg == theme.text.bg
        &&& styles.selected.underline_color == theme.text.underline_color
        &&& styles.selected.underline_style == theme.text.underline_style
        &&& styles.selected.add_modifier.bits == theme.text.add_modifier.bits | 1
        &&& styles.selected.sub_modifier.bits == theme.text.sub_modifier.bits & !1
    }
    &&& theme.diff_plus is Some ==> Some(styles.added) == theme.diff_plus
    &&& theme.diff_plus is None ==> styles.added == theme.hint
    &&& theme.diff_delta is Some ==> Some(styles.modified) == theme.diff_delta
    &&& theme.diff_delta is None ==> styles.modified == theme.warning
    &&& theme.diff_minus is Some ==> Some(styles.removed) == theme.diff_minus
    &&& theme.diff_minus is None ==> styles.removed == theme.error
}

/// The styles of rows are taken from the theme.
pub proof fn lemma_styles_are_those_of_the_theme(theme: SidebarTheme, focused: bool)
    ensures
        are_styles_of(theme.styles(focused), theme, focused),
{
    lemma_switching_on(theme.text, 1);
}

/// What is known of the entry of row `i`: the change that is recorded for its path, the counts of
/// its diagnostics, whether it is the selected row, and whether its path is the active one.
pub open spec fn is_known_of(
    state: RowState,
    sidebar: SidebarView,
    i: int,
    active: Option<PathView>,
    statuses: Map<PathView, FileChangeKind>,
) -> bool {
    let path = sidebar.entries[i].path;
    &&& statuses.contains_key(path) ==> state.change == Some(statuses[path])
    &&& !statuses.contains_key(path) ==> state.change is None
    &&& sidebar.diagnostics.contains_key(path) ==> state.counts == sidebar.diagnostics[path]
    &&& !sidebar.diagnostics.contains_key(path) ==> state.counts.warnings == 0
        && state.counts.errors == 0
    &&& state.is_selected <==> i == sidebar.selected
    &&& state.is_active <==> active == Some(path)
}

/// Every drawn row is that of its entry, in the styles of the theme, with all that is known of the
/// entry, whichever row is selected.
pub proof fn lemma_drawn_rows_say_what_is_known(
    sidebar: SidebarView,
    area: Rect,
    theme: SidebarTheme,
    focused: bool,
    active: Option<PathView>,
    statuses: Map<PathView, FileChangeKind>,
    row: int,
)
    requires
        0 <= sidebar.scroll,
        area.width > 1,
        area.height > 0,
        0 <= row < entries_on_screen(sidebar, area),
    ensures
        row_step(
            drawing(sidebar, area, theme, focused, active, statuses),
            area,
            row,
        ) matches DrawView::Spans { x, y, spans, width } && {
            &&& x == area.x
            &&& y == area.y + 1 + row
            &&& width == area.width - 1
            &&& exists|styles: RowStyles, state: RowState|
                are_styles_of(styles, theme, focused) && is_known_of(
                    state,
                    sidebar,
                    sidebar.scroll + row,
                    active,
                    statuses,
                ) && #[trigger] is_row_of_entry(
                    spans,
                    sidebar.entries[sidebar.scroll + row],
                    (area.width - 1) as nat,
                    styles,
                    state,
                )
        },
{
    let i = sidebar.scroll + row;
    let styles = theme.styles(focused);
    let state = row_state(sidebar, i, active, statuses);
    let steps = drawing(sidebar, area, theme, focused, active, statuses);
    lemma_styles_are_those_of_the_theme(theme, focused);
    lemma_rows_say_what_is_known(sidebar.entries[i], (area.width - 1) as nat, styles, state);
    assert(row_step(steps, area, row) == row_view(sidebar, area, row, styles, active, statuses));
    assert(is_known_of(state, sidebar, i, active, statuses));
    let spans = row_step(steps, area, row)->spans;
    assert(is_row_of_entry(
        spans,
        sidebar.entries[sidebar.scroll + row],
        (area.width - 1) as nat,
        styles,
        state,
    ));
}

/// The diagnostics that are counted for a path.
pub open spec fn counted(sidebar: SidebarView, path: PathView) -> DiagnosticCounts {
    if sidebar.diagnostics.contains_key(path) {
        sidebar.diagnostics[path]
    } else {
        DiagnosticCounts { warnings: 0, errors: 0 }
    }
}

/// The color of names that the theme has for a change.
pub open spec fn color_of_change(change: FileChangeKind, theme: SidebarTheme) -> Option<Color> {
    if change == FileChangeKind::Untracked {
        match theme.diff_plus {
            Some(style) => style.fg,
            None => theme.hint.fg,
        }
    } else if change == FileChangeKind::Deleted {
        match theme.diff_minus {
            Some(style) => style.fg,
            None => theme.error.fg,
        }
    } else if change == FileChangeKind::Conflict {
        theme.error.fg
    } else {
        match theme.diff_delta {
            Some(style) => style.fg,
            None => theme.warning.fg,
        }
    }
}

/// In every drawn row with room for the name, selected or not, active or not, the name has the color
/// that the theme has for the recorded change of its path, and a dotted underline in the color of
/// errors if there are errors, else in that of warnings if there are warnings. It is italic if the
/// path was renamed, and bold if it is active.
pub proof fn lemma_changes_show_in_every_row(
    sidebar: SidebarView,
    area: Rect,
    theme: SidebarTheme,
    focused: bool,
    active: Option<PathView>,
    statuses: Map<PathView, FileChangeKind>,
    row: int,
)
    requires
        0 <= sidebar.scroll,
        area.width > 1,
        area.height > 0,
        0 <= row < entries_on_screen(sidebar, area),
        has_room_for_name(
            sidebar.entries[sidebar.scroll + row],
            (area.width - 1) as nat,
            counted(sidebar, sidebar.entries[sidebar.scroll + row].path),
        ),
    ensures
        row_step(
            drawing(sidebar, area, theme, focused, active, statuses),
            area,
            row,
        ) matches DrawView::Spans { x, y, spans, width } && {
            let path = sidebar.entries[sidebar.scroll + row].path;
            let counts = counted(sidebar, path);
            let name = spans[1].style;
            &&& spans.len() >= 2
            &&& statuses.contains_key(path) && color_of_change(statuses[path], theme) is Some
                ==> name.fg == color_of_change(statuses[path], theme)
            &&& statuses.contains_key(path) && statuses[path] == FileChangeKind::Renamed
                ==> name.add_modifier.bits & 4 == 4
            &&& counts.errors > 0 || counts.warnings > 0 ==> name.underline_style == Some(
                UnderlineStyle::Dotted,
            )
            &&& counts.errors > 0 && theme.error.fg is Some ==> name.underline_color
                == theme.error.fg
            &&& counts.errors > 0 && theme.error.fg is None ==> name.underline_color == Some(
                Color::Red,
            )
            &&& counts.errors == 0 && counts.warnings > 0 && theme.warning.fg is Some
                ==> name.underline_color == theme.warning.fg
            &&& counts.errors == 0 && counts.warnings > 0 && theme.warning.fg is None
                ==> name.underline_color == Some(Color::Yellow)
            &&& active == Some(path) ==> name.add_modifier.bits & 1 == 1
                && spans[0].style.add_modifier.bits & 1 == 1
        },
{
    lemma_drawn_rows_say_what_is_known(sidebar, area, theme, focused, active, statuses, row);
    let i = sidebar.scroll + row;
    let entry = sidebar.entries[i];
    let steps = drawing(sidebar, area, theme, focused, active, statuses);
    let spans = row_step(steps, area, row)->spans;
    let (styles, state) = choose|styles: RowStyles, state: RowState|
        are_styles_of(styles, theme, focused) && is_known_of(state, sidebar, i, active, statuses)
            && #[trigger] is_row_of_entry(spans, entry, (area.width - 1) as nat, styles, state);
    assert(state.counts == counted(sidebar, entry.path));
    lemma_bits_stay(spans[0].style, spans[1].style, entry.kind, state, styles);
}

/// The bits that make a name bold or italic are not lost below the selection.
proof fn lemma_bits_stay(
    prefix: Style,
    name: Style,
    kind: EntryKind,
    state: RowState,
    styles: RowStyles,
)
    requires
        looks_like_prefix(prefix, kind, state, styles),
        looks_like_name(name, kind, state, styles),
    ensures
        state.change == Some(FileChangeKind::Renamed) ==> name.add_modifier.bits & 4 == 4,
        state.is_active ==> name.add_modifier.bits & 1 == 1 && prefix.add_modifier.bits & 1 == 1,
{
    let base = kind_style(kind, styles);
    let mark = marking_style(state.change, styles);
    let (b, c) = (base.add_modifier.bits, base.sub_modifier.bits);
    let (s, t) = (styles.selected.add_modifier.bits, styles.selected.sub_modifier.bits);
    let slant: u16 = if state.change == Some(FileChangeKind::Renamed) {
        4
    } else {
        0
    };
    let weight: u16 = if state.is_active {
        1
    } else {
        0
    };
    let (m, n) = if mark is Some {
        (mark->0.add_modifier.bits | slant, mark->0.sub_modifier.bits & !slant)
    } else {
        (0u16, 0u16)
    };
    let add = ((b & !n) | m) | weight;
    let sub = ((c & !m) | n) & !weight;
    let p_add = b | weight;
    let p_sub = c & !weight;
    if state.change == Some(FileChangeKind::Renamed) {
        let v = mark->0.add_modifier.bits;
        assert(m == v | 4);
        assert(add & 4 == 4) by (bit_vector)
            requires
                add == ((b & !n) | m) | weight,
                m == v | 4,
        ;
        assert(((s & !sub) | add) & 4 == 4) by (bit_vector)
            requires
                add & 4 == 4,
        ;
    }
    if state.is_active {
        assert(add & 1 == 1 && p_add & 1 == 1) by (bit_vector)
            requires
                add == ((b & !n) | m) | weight,
                p_add == b | weight,
                weight == 1,
        ;
        assert(((s & !sub) | add) & 1 == 1 && ((s & !p_sub) | p_add) & 1 == 1) by (bit_vector)
            requires
                add & 1 == 1,
                p_add & 1 == 1,
        ;
    }
}

/// Two drawings that differ only in the selected row and in the scroll position agree in the marks
/// of an entry that both draw: its name has the color of its change and the underline of its
/// diagnostics in both.
pub proof fn lemma_selecting_keeps_marks(
    sidebar: SidebarView,
    other: SidebarView,
    area: Rect,
    theme: SidebarTheme,
    focused: bool,
    active: Option<PathView>,
    statuses: Map<PathView, FileChangeKind>,
    row: int,
    other_row: int,
)
    requires
        0 <= sidebar.scroll,
        0 <= other.scroll,
        sidebar.entries == other.entries,
        sidebar.diagnostics == other.diagnostics,
        area.width > 1,
        area.height > 0,
        0 <= row < entries_on_screen(sidebar, area),
        0 <= other_row < entries_on_screen(other, area),
        sidebar.scroll + row == other.scroll + other_row,
        has_room_for_name(
            sidebar.entries[sidebar.scroll + row],
            (area.width - 1) as nat,
            counted(sidebar, sidebar.entries[sidebar.scroll + row].path),
        ),
        statuses.contains_key(sidebar.entries[sidebar.scroll + row].path),
        color_of_change(
            statuses[sidebar.entries[sidebar.scroll + row].path],
            theme,
        ) is Some,
    ensures
        ({
            let a = row_step(
                drawing(sidebar, area, theme, focused, active, statuses),
                area,
                row,
            );
            let b = row_step(
                drawing(other, area, theme, focused, active, statuses),
                area,
                other_row,
            );
            &&& a->spans[1].style.fg == b->spans[1].style.fg
            &&& a->spans[1].style.fg == color_of_change(
                statuses[sidebar.entries[sidebar.scroll + row].path],
                theme,
            )
        }),
{
    lemma_changes_show_in_every_row(sidebar, area, theme, focused, active, statuses, row);
    lemma_changes_show_in_every_row(other, area, theme, focused, active, statuses, other_row);
}

/// Drawing counts the diagnostics only where their generation is new, moves the scroll position so
/// that the selected row is drawn, and changes nothing else. Without room for rows it changes
/// nothing.
pub proof fn lemma_drawing_changes_little(
    sidebar: SidebarView,
    area: Rect,
    generation: u64,
    reports: Seq<ReportView>,
)
    ensures
        ({
            let after = sidebar.drawn(area, generation, reports);
            &&& area.width <= 1 || area.height == 0 ==> after == sidebar
            &&& after.root == sidebar.root
            &&& after.options == sidebar.options
            &&& after.expanded == sidebar.expanded
            &&& after.entries == sidebar.entries
            &&& after.selected == sidebar.selected
            &&& after.width == sidebar.width
            &&& after.last_click == sidebar.last_click
            &&& area.width > 1 && area.height > 0 ==> after.diagnostics_generation == generation
            &&& generation == sidebar.diagnostics_generation ==> after.diagnostics
                == sidebar.diagnostics
        }),
{
}

} // verus!
