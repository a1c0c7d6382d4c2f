//! What is drawn for the sidebar.
use crate::diagnostics::{is_countable, report_views, DiagnosticReport, ReportView};
use crate::entry::name_text;
use crate::geometry::{capped, minus, Rect};
use crate::git::FileChangeKind;
use crate::path::{PathView, TreePath};
use crate::path_map::PathMap;
use crate::row::{row_spans, span_views, RowState, RowStyles, Span, SpanView};
use crate::sidebar::{FileTreeSidebar, SidebarView};
use crate::style::{Style, BOLD};
use vstd::prelude::*;
use vstd::string::StringExecFns;

verus! {

/// The styles that a theme has for the sidebar; some themes lack some of them.
#[derive(Clone, Copy, Debug, PartialEq, Eq, Structural)]
pub struct SidebarTheme {
    pub background: Style,
    pub window: Style,
    pub directory: Style,
    pub text: Style,
    pub menu_selected: Option<Style>,
    pub selection: Option<Style>,
    pub diff_plus: Option<Style>,
    pub diff_delta: Option<Style>,
    pub diff_minus: Option<Style>,
    pub hint: Style,
    pub warning: Style,
    pub error: Style,
}

pub open spec fn or_else<T>(first: Option<T>, second: T) -> T {
    match first {
        Some(t) => t,
        None => second,
    }
}

impl SidebarTheme {
    /// The styles of the rows of a sidebar that has the focus or has not.
    pub open spec fn styles(self, focused: bool) -> RowStyles {
        RowStyles {
            directory: self.directory,
            file: self.text,
            selected: if focused {
                or_else(self.menu_selected, or_else(self.selection, self.text))
            } else {
                self.text.modified(BOLD)
            },
            added: or_else(self.diff_plus, self.hint),
            modified: or_else(self.diff_delta, self.warning),
            removed: or_else(self.diff_minus, self.error),
            warning: self.warning,
            error: self.error,
        }
    }

    /// The styles of the rows of a sidebar that has the focus or has not.
    pub fn row_styles(&self, focused: bool) -> (r: RowStyles)
        ensures
            r == self.styles(focused),
    {
        let selected = if focused {
            match self.menu_selected {
                Some(style) => style,
                None => match self.selection {
                    Some(style) => style,
                    None => self.text,
                },
            }
        } else {
            self.text.add_modifier(BOLD)
        };
        RowStyles {
            directory: self.directory,
            file: self.text,
            selected,
            added: match self.diff_plus {
                Some(style) => style,
                None => self.hint,
            },
            modified: match self.diff_delta {
                Some(style) => style,
                None => self.warning,
            },
            removed: match self.diff_minus {
                Some(style) => style,
                None => self.error,
            },
            warning: self.warning,
            error: self.error,
        }
    }
}

/// A step of drawing the sidebar.
#[derive(Debug)]
pub enum DrawOp {
    /// Clear the area and give it the style.
    Clear { area: Rect, style: Style },
    /// Draw a vertical line in a cell.
    Divider { x: u16, y: u16, style: Style },
    /// Write a text of at most `max_width` columns.
    Text { x: u16, y: u16, text: String, max_width: usize, style: Style },
    /// Write spans of at most `width` columns.
    Spans { x: u16, y: u16, spans: Vec<Span>, width: u16 },
}

/// A step of drawing the sidebar.
pub enum DrawView {
    Clear { area: Rect, style: Style },
    Divider { x: int, y: int, style: Style },
    Text { x: int, y: int, text: Seq<char>, max_width: int, style: Style },
    Spans { x: int, y: int, spans: Seq<SpanView>, width: int },
}

impl View for DrawOp {
    type V = DrawView;

    open spec fn view(&self) -> DrawView {
        match *self {
            DrawOp::Clear { area, style } => DrawView::Clear { area, style },
            DrawOp::Divider { x, y, style } => DrawView::Divider { x: x as int, y: y as int, style },
            DrawOp::Text { x, y, text, max_width, style } => DrawView::Text {
                x: x as int,
                y: y as int,
                text: text@,
                max_width: max_width as int,
                style,
            },
            DrawOp::Spans { x, y, spans, width } => DrawView::Spans {
                x: x as int,
                y: y as int,
                spans: span_views(spans@),
                width: width as int,
            },
        }
    }
}

pub open spec fn draw_views(ops: Seq<DrawOp>) -> Seq<DrawView> {
    Seq::new(ops.len(), |i: int| ops[i]@)
}

/// The first steps: the area is cleared, and its last column becomes a line.
pub open spec fn frame_views(area: Rect, theme: SidebarTheme) -> Seq<DrawView> {
    seq![DrawView::Clear { area, style: theme.background }] + Seq::new(
        (capped(area.y + area.height) - area.y) as nat,
        |i: int|
            DrawView::Divider {
                x: minus(capped(area.x + area.width), 1),
                y: area.y + i,
                style: theme.window,
            },
    )
}

/// The title: a folder and the name of the root of the tree.
pub open spec fn title_view(root: PathView, area: Rect, theme: SidebarTheme) -> DrawView {
    DrawView::Text {
        x: area.x as int,
        y: area.y as int,
        text: seq!['\u{F024B}', ' '] + name_text(root),
        max_width: area.width - 1,
        style: theme.directory.modified(BOLD),
    }
}

/// What is known of the entry of row `i`.
pub open spec fn row_state(
    sidebar: SidebarView,
    i: int,
    active: Option<PathView>,
    statuses: Map<PathView, FileChangeKind>,
) -> RowState {
    let path = sidebar.entries[i].path;
    RowState {
        change: if statuses.contains_key(path) {
            Some(statuses[path])
        } else {
            None
        },
        counts: sidebar.counts_of(path),
        is_selected: sidebar.selected == i,
        is_active: active == Some(path),
    }
}

/// The number of rows below the title in which entries are drawn.
pub open spec fn drawn_rows(sidebar: SidebarView, area: Rect) -> nat {
    let visible = minus(area.height as int, 1);
    let left = minus(sidebar.entries.len() as int, sidebar.scroll);
    if left < visible {
        left as nat
    } else {
        visible as nat
    }
}

/// The row of number `row` below the title.
pub open spec fn row_view(
    sidebar: SidebarView,
    area: Rect,
    row: int,
    styles: RowStyles,
    active: Option<PathView>,
    statuses: Map<PathView, FileChangeKind>,
) -> DrawView {
    let i = sidebar.scroll + row;
    DrawView::Spans {
        x: area.x as int,
        y: area.y + 1 + row,
        spans: row_spans(
            sidebar.entries[i],
            (area.width - 1) as nat,
            styles,
            row_state(sidebar, i, active, statuses),
        ),
        width: area.width - 1,
    }
}

pub open spec fn row_views(
    sidebar: SidebarView,
    area: Rect,
    n: nat,
    styles: RowStyles,
    active: Option<PathView>,
    statuses: Map<PathView, FileChangeKind>,
) -> Seq<DrawView> {
    Seq::new(n, |row: int| row_view(sidebar, area, row, styles, active, statuses))
}

impl SidebarView {
    /// There is room for rows beside the line.
    pub open spec fn has_room(area: Rect) -> bool {
        area.width > 1 && area.height > 0
    }

    /// The state after the sidebar is drawn in `area`.
    pub open spec fn drawn(
        self,
        area: Rect,
        generation: u64,
        reports: Seq<ReportView>,
    ) -> SidebarView {
        if Self::has_room(area) {
            self.diagnosed(generation, reports).scrolled(minus(area.height as int, 1))
        } else {
            self
        }
    }
}

/// The steps that draw a sidebar in the state that it has after it is drawn.
pub open spec fn drawing(
    sidebar: SidebarView,
    area: Rect,
    theme: SidebarTheme,
    focused: bool,
    active: Option<PathView>,
    statuses: Map<PathView, FileChangeKind>,
) -> Seq<DrawView> {
    if area.width == 0 || area.height == 0 {
        Seq::empty()
    } else if area.width == 1 {
        frame_views(area, theme)
    } else {
        frame_views(area, theme).push(title_view(sidebar.root, area, theme)) + row_views(
            sidebar,
            area,
            drawn_rows(sidebar, area),
            theme.styles(focused),
            active,
            statuses,
        )
    }
}

/// The path of an entry, if there is one.
pub open spec fn optional_view(path: Option<TreePath>) -> Option<PathView> {
    match path {
        Some(p) => Some(p@),
        None => None,
    }
}

fn frame(area: Rect, theme: &SidebarTheme) -> (r: Vec<DrawOp>)
    ensures
        draw_views(r@) == frame_views(area, *theme),
{
    let mut ops: Vec<DrawOp> = Vec::new();
    ops.push(DrawOp::Clear { area, style: theme.background });
    let divider_x = area.right().saturating_sub(1);
    let bottom = area.bottom();
    let mut y: u16 = area.y;
    while y < bottom
        invariant
            area.y <= y <= bottom,
            bottom == capped(area.y + area.height),
            divider_x == minus(capped(area.x + area.width), 1),
            ops.len() == 1 + (y - area.y),
            ops@[0]@ == (DrawView::Clear { area, style: theme.background }),
            forall|i: int|
                1 <= i < ops.len() ==> (#[trigger] ops@[i])@ == (DrawView::Divider {
                    x: divider_x as int,
                    y: area.y + i - 1,
                    style: theme.window,
                }),
        decreases bottom - y,
    {
        ops.push(DrawOp::Divider { x: divider_x, y, style: theme.window });
        y += 1;
    }
    assert(draw_views(ops@) =~= frame_views(area, *theme));
    ops
}

impl FileTreeSidebar {
    /// Draws the sidebar in `area`: counts the diagnostics anew if they have changed, scrolls to
    /// the selected row, and gives the steps of the drawing. `reports` are the diagnostics of the
    /// given generation, `active_path` is the file that is being edited.
    pub fn render(
        &mut self,
        area: Rect,
        theme: &SidebarTheme,
        focused: bool,
        generation: u64,
        reports: &Vec<DiagnosticReport>,
        active_path: &Option<TreePath>,
        statuses: &PathMap<FileChangeKind>,
    ) -> (r: Vec<DrawOp>)
        requires
            old(self).wf(),
            statuses.wf(),
            SidebarView::has_room(area) ==> area.y + drawn_rows(
                old(self)@.drawn(area, generation, report_views(reports@)),
                area,
            ) <= u16::MAX,
            SidebarView::has_room(area) && old(self)@.diagnostics_generation != generation
                ==> is_countable(report_views(reports@)),
        ensures
            final(self).wf(),
            final(self)@ == old(self)@.drawn(area, generation, report_views(reports@)),
            draw_views(r@) == drawing(
                final(self)@,
                area,
                *theme,
                focused,
                optional_view(*active_path),
                statuses@,
            ),
    {
        if area.width == 0 || area.height == 0 {
            let ops: Vec<DrawOp> = Vec::new();
            assert(draw_views(ops@) =~= Seq::<DrawView>::empty());
            return ops;
        }
        let mut ops = frame(area, theme);
        let content_area = area.clip_right(1);
        if content_area.width == 0 {
            return ops;
        }
        let styles = theme.row_styles(focused);
        self.refresh_diagnostics(generation, reports);

        let mut title = String::new();
        title.push('\u{F024B}');
        title.push(' ');
        title.append(self.root_label().as_str());
        assert(title@ =~= seq!['\u{F024B}', ' '] + name_text(self@.root));
        let op = DrawOp::Text {
            x: content_area.x,
            y: content_area.y,
            text: title,
            max_width: content_area.width as usize,
            style: theme.directory.add_modifier(BOLD),
        };
        assert(op@ == title_view(self@.root, area, *theme));
        ops.push(op);
        assert(draw_views(ops@) =~= frame_views(area, *theme).push(
            title_view(self@.root, area, *theme),
        ));

        let visible_rows = content_area.height.saturating_sub(1) as usize;
        self.ensure_selected_visible(visible_rows);
        let ghost head = draw_views(ops@);
        let ghost active = optional_view(*active_path);
        let mut row: usize = 0;
        assert(head + row_views(self@, area, 0, styles, active, statuses@) =~= head);
        while row < visible_rows && self.scroll() < self.entries().len() && row
            < self.entries().len() - self.scroll()
            invariant
                self.wf(),
                statuses.wf(),
                content_area == area.clipped_right(1),
                area.width > 1,
                area.y + drawn_rows(self@, area) <= u16::MAX,
                visible_rows == minus(area.height as int, 1),
                row <= drawn_rows(self@, area),
                active == optional_view(*active_path),
                draw_views(ops@) == head + row_views(
                    self@,
                    area,
                    row as nat,
                    styles,
                    active,
                    statuses@,
                ),
            decreases visible_rows - row,
        {
            let index = self.scroll() + row;
            let entry = &self.entries()[index];
            assert(entry@ == self@.entries[index as int]);
            let y: u16 = content_area.y + 1 + row as u16;
            let is_active = match active_path {
                Some(path) => path.equals(&entry.path),
                None => false,
            };
            let change = match statuses.get(&entry.path) {
                Some(change) => Some(*change),
                None => None,
            };
            let state = RowState {
                change,
                counts: self.diagnostics_of(&entry.path),
                is_selected: self.selected() == index,
                is_active,
            };
            assert(state == row_state(self@, index as int, active, statuses@));
            let spans = self.entry_spans(entry, content_area.width as usize, &styles, state);
            let ghost before = draw_views(ops@);
            let op = DrawOp::Spans { x: content_area.x, y, spans, width: content_area.width };
            assert(op@ == row_view(self@, area, row as int, styles, active, statuses@));
            ops.push(op);
            assert(draw_views(ops@) =~= before.push(op@));
            row += 1;
            assert(draw_views(ops@) =~= head + row_views(
                self@,
                area,
                row as nat,
                styles,
                active,
                statuses@,
            ));
        }
        assert(row == drawn_rows(self@, area));
        ops
    }
}

/// A click on the row in which an entry is drawn selects that entry.
pub proof fn lemma_clicks_hit_what_is_drawn(sidebar: SidebarView, area: Rect, row: int)
    requires
        sidebar.selects_a_row(),
        0 <= sidebar.scroll,
        0 <= row < drawn_rows(sidebar, area),
        area.y + drawn_rows(sidebar, area) <= u16::MAX,
    ensures
        sidebar.entry_at_row(area, (area.y + 1 + row) as u16) == Some(sidebar.scroll + row),
{
}

/// After a drawing with room for rows the selected entry is among those that are drawn.
pub proof fn lemma_the_selected_row_is_drawn(
    sidebar: SidebarView,
    area: Rect,
    generation: u64,
    reports: Seq<ReportView>,
)
    requires
        sidebar.selects_a_row(),
        sidebar.entries.len() > 0,
        0 <= sidebar.scroll,
        area.width > 1,
        area.height > 1,
    ensures
        ({
            let after = sidebar.drawn(area, generation, reports);
            after.scroll <= after.selected < after.scroll + drawn_rows(after, area)
        }),
{
}

} // verus!
