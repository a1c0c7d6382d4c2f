//! How a row of the tree is styled and fitted into its width.
use crate::diagnostics::DiagnosticCounts;
use crate::entry::{EntryKind, EntryView, FileTreeEntry};
use crate::geometry::minus;
use crate::git::FileChangeKind;
use crate::sidebar::FileTreeSidebar;
use crate::style::{plain_style, Color, Style, UnderlineStyle, BOLD, ITALIC};
use crate::text::{
    columns, is_measured, is_printable_ascii, lemma_numeral_is_ascii, lemma_truncated_fits, measure,
    numeral, shorten, shortened, spaced_numeral, text_columns, text_width, truncated, Measured,
};
use vstd::prelude::*;
use vstd::string::StringExecFns;

verus! {

/// A text in one style.
#[derive(Debug)]
pub struct Span {
    pub content: String,
    pub style: Style,
}

/// A text in one style.
pub struct SpanView {
    pub content: Seq<char>,
    pub style: Style,
}

impl View for Span {
    type V = SpanView;

    open spec fn view(&self) -> SpanView {
        SpanView { content: self.content@, style: self.style }
    }
}

pub open spec fn span_views(spans: Seq<Span>) -> Seq<SpanView> {
    Seq::new(spans.len(), |i: int| spans[i]@)
}

/// The styles of the parts of a row.
#[derive(Clone, Copy, Debug, PartialEq, Eq, Structural)]
pub struct RowStyles {
    pub directory: Style,
    pub file: Style,
    pub selected: Style,
    pub added: Style,
    pub modified: Style,
    pub removed: Style,
    pub warning: Style,
    pub error: Style,
}

/// What is known of an entry besides what its label says.
#[derive(Clone, Copy, Debug, PartialEq, Eq, Structural)]
pub struct RowState {
    pub change: Option<FileChangeKind>,
    pub counts: DiagnosticCounts,
    pub is_selected: bool,
    pub is_active: bool,
}

/// The style that marks a change of a file.
pub open spec fn style_of_change(change: FileChangeKind, styles: RowStyles) -> Style {
    match change {
        FileChangeKind::Untracked => styles.added,
        FileChangeKind::Modified => styles.modified,
        FileChangeKind::Conflict => styles.error,
        FileChangeKind::Deleted => styles.removed,
        FileChangeKind::Renamed => styles.modified.modified(ITALIC),
    }
}

/// The style that marks a file with diagnostics: a dotted underline in the color of the gravest
/// kind.
pub open spec fn style_of_diagnostics(
    counts: DiagnosticCounts,
    warning: Style,
    error: Style,
) -> Option<Style> {
    let color = if counts.errors > 0 {
        match error.fg {
            Some(color) => color,
            None => Color::Red,
        }
    } else {
        match warning.fg {
            Some(color) => color,
            None => Color::Yellow,
        }
    };
    if counts.errors > 0 || counts.warnings > 0 {
        Some(
            Style {
                underline_color: Some(color),
                underline_style: Some(UnderlineStyle::Dotted),
                ..plain_style()
            },
        )
    } else {
        None
    }
}

/// The style of an entry of the given kind, before anything is known of it.
pub open spec fn base_style(kind: EntryKind, styles: RowStyles) -> Style {
    match kind {
        EntryKind::Directory => styles.directory,
        EntryKind::File => styles.file,
    }
}

/// `style` as it is in the row of the active or the selected entry.
pub open spec fn emphasized(style: Style, state: RowState, styles: RowStyles) -> Style {
    let style = if state.is_active {
        style.modified(BOLD)
    } else {
        style
    };
    if state.is_selected {
        styles.selected.patched(style)
    } else {
        style
    }
}

/// The style of what precedes the name of an entry.
pub open spec fn prefix_style(kind: EntryKind, state: RowState, styles: RowStyles) -> Style {
    emphasized(base_style(kind, styles), state, styles)
}

/// The style of the name of an entry.
pub open spec fn name_style(kind: EntryKind, state: RowState, styles: RowStyles) -> Style {
    let style = base_style(kind, styles);
    let style = match state.change {
        Some(change) => style.patched(style_of_change(change, styles)),
        None => style,
    };
    let style = match style_of_diagnostics(state.counts, styles.warning, styles.error) {
        Some(underline) => style.patched(underline),
        None => style,
    };
    emphasized(style, state, styles)
}

/// A count behind the name of an entry; none where there is nothing to count.
pub open spec fn count_span(count: u32, style: Style, state: RowState, styles: RowStyles) -> Seq<
    SpanView,
> {
    if count > 0 {
        seq![
            SpanView {
                content: seq![' '] + numeral(count as nat),
                style: if state.is_selected {
                    styles.selected.patched(style)
                } else {
                    style
                },
            },
        ]
    } else {
        Seq::empty()
    }
}

/// The counts behind the name of an entry: the warnings, then the errors.
pub open spec fn suffix_spans(state: RowState, styles: RowStyles) -> Seq<SpanView> {
    count_span(state.counts.warnings, styles.warning, state, styles) + count_span(
        state.counts.errors,
        styles.error,
        state,
        styles,
    )
}

/// The columns of a count behind the name of an entry.
pub open spec fn count_width(count: u32) -> nat {
    if count > 0 {
        1 + numeral(count as nat).len()
    } else {
        0
    }
}

/// The columns of the counts behind the name of an entry.
pub open spec fn suffix_width(counts: DiagnosticCounts) -> nat {
    count_width(counts.warnings) + count_width(counts.errors)
}

/// The label of an entry in `width` columns. Where what precedes the name leaves room for the name,
/// the name is shortened to the rest, else the whole label is shortened and has one style.
pub open spec fn label_layout(
    prefix: Seq<char>,
    prefix_width: nat,
    short_name: Seq<char>,
    short_label: Seq<char>,
    width: nat,
    prefix_style: Style,
    name_style: Style,
) -> Seq<SpanView> {
    if width <= prefix_width {
        seq![SpanView { content: short_label, style: prefix_style }]
    } else {
        seq![
            SpanView { content: prefix, style: prefix_style },
            SpanView { content: short_name, style: name_style },
        ]
    }
}

/// The columns that are left to the label of an entry.
pub open spec fn label_width(max_width: nat, counts: DiagnosticCounts) -> nat {
    minus(max_width as int, suffix_width(counts) as int) as nat
}

/// The spans of the row of an entry in `max_width` columns.
pub open spec fn row_spans(
    entry: EntryView,
    max_width: nat,
    styles: RowStyles,
    state: RowState,
) -> Seq<SpanView> {
    let width = label_width(max_width, state.counts);
    let prefix_width = text_columns(entry.prefix) as nat;
    label_layout(
        entry.prefix,
        prefix_width,
        truncated(entry.name, minus(width as int, prefix_width as int) as nat),
        truncated(entry.prefix + entry.name, width),
        width,
        prefix_style(entry.kind, state, styles),
        name_style(entry.kind, state, styles),
    ) + suffix_spans(state, styles)
}

/// The style that marks a change of a file.
pub fn change_style(change: FileChangeKind, styles: &RowStyles) -> (r: Style)
    ensures
        r == style_of_change(change, *styles),
{
    match change {
        FileChangeKind::Untracked => styles.added,
        FileChangeKind::Modified => styles.modified,
        FileChangeKind::Conflict => styles.error,
        FileChangeKind::Deleted => styles.removed,
        FileChangeKind::Renamed => styles.modified.add_modifier(ITALIC),
    }
}

/// The style that marks a file with diagnostics.
pub fn diagnostic_underline_style(
    counts: DiagnosticCounts,
    warning_style: Style,
    error_style: Style,
) -> (r: Option<Style>)
    ensures
        r == style_of_diagnostics(counts, warning_style, error_style),
{
    let underline_color = if counts.errors > 0 {
        match error_style.fg {
            Some(color) => color,
            None => Color::Red,
        }
    } else if counts.warnings > 0 {
        match warning_style.fg {
            Some(color) => color,
            None => Color::Yellow,
        }
    } else {
        return None;
    };
    Some(
        Style::default().underline_color(underline_color).underline_style(UnderlineStyle::Dotted),
    )
}

/// The style of what precedes the name of an entry, and that of its name.
pub fn label_styles(kind: EntryKind, styles: &RowStyles, state: RowState) -> (r: (Style, Style))
    ensures
        r.0 == prefix_style(kind, state, *styles),
        r.1 == name_style(kind, state, *styles),
{
    let mut prefix_style = match kind {
        EntryKind::Directory => styles.directory,
        EntryKind::File => styles.file,
    };
    let mut name_style = prefix_style;
    if let Some(change) = state.change {
        name_style = name_style.patch(change_style(change, styles));
    }
    if let Some(underline_style) = diagnostic_underline_style(
        state.counts,
        styles.warning,
        styles.error,
    ) {
        name_style = name_style.patch(underline_style);
    }
    if state.is_active {
        prefix_style = prefix_style.add_modifier(BOLD);
        name_style = name_style.add_modifier(BOLD);
    }
    if state.is_selected {
        prefix_style = styles.selected.patch(prefix_style);
        name_style = styles.selected.patch(name_style);
    }
    (prefix_style, name_style)
}

/// Lays the label of an entry out in `width` columns, from the measures of what precedes the name,
/// of the name, and of both together.
pub fn label_spans(
    prefix: &Measured,
    name: &Measured,
    label: &Measured,
    width: usize,
    prefix_style: Style,
    name_style: Style,
) -> (r: Vec<Span>)
    requires
        prefix.wf(),
        name.wf(),
        label.wf(),
    ensures
        span_views(r@) == label_layout(
            prefix.text@,
            prefix.total as nat,
            shortened(
                name.text@,
                name.total as nat,
                name.widths@,
                minus(width as int, prefix.total as int) as nat,
            ),
            shortened(label.text@, label.total as nat, label.widths@, width as nat),
            width as nat,
            prefix_style,
            name_style,
        ),
{
    let mut spans: Vec<Span> = Vec::new();
    if width <= prefix.total {
        spans.push(Span { content: shorten(label, width), style: prefix_style });
        assert(span_views(spans@) =~= seq![spans@[0]@]);
    } else {
        spans.push(Span { content: prefix.text.clone(), style: prefix_style });
        spans.push(Span { content: shorten(name, width - prefix.total), style: name_style });
        assert(span_views(spans@) =~= seq![spans@[0]@, spans@[1]@]);
    }
    spans
}

proof fn lemma_numeral_len(n: nat)
    requires
        n <= u32::MAX,
    ensures
        numeral(n).len() <= 10,
{
    reveal_with_fuel(numeral, 11);
}

/// Appends a count, and gives the columns that it takes.
fn push_count(spans: &mut Vec<Span>, count: u32, style: Style, styles: &RowStyles, state: RowState) -> (r:
    usize)
    ensures
        span_views(final(spans)@) == span_views(old(spans)@) + count_span(
            count,
            style,
            state,
            *styles,
        ),
        r == count_width(count),
        r <= 11,
{
    let ghost start = span_views(spans@);
    if count == 0 {
        assert(start + Seq::<SpanView>::empty() == start);
        return 0;
    }
    let style = if state.is_selected {
        styles.selected.patch(style)
    } else {
        style
    };
    let content = spaced_numeral(count);
    proof {
        lemma_numeral_is_ascii(count as nat);
        lemma_numeral_len(count as nat);
        assert forall|i: int| 0 <= i < content@.len() implies is_printable_ascii(
            #[trigger] content@[i],
        ) by {
            if i > 0 {
                assert(content@[i] == numeral(count as nat)[i - 1]);
            }
        }
    }
    let width = text_width(content.as_str());
    let span = Span { content, style };
    spans.push(span);
    assert(span_views(spans@) == start.push(span@));
    assert(start.push(span@) == start + seq![span@]);
    width
}

impl FileTreeSidebar {
    /// The spans of the row of an entry in `max_width` columns. The characters of its label keep to
    /// the columns that the counts leave to it.
    pub fn entry_spans(
        &self,
        entry: &FileTreeEntry,
        max_width: usize,
        styles: &RowStyles,
        state: RowState,
    ) -> (r: Vec<Span>)
        ensures
            span_views(r@) == row_spans(entry@, max_width as nat, *styles, state),
            label_fits(entry@, max_width as nat, *styles, state),
    {
        let (prefix_style, name_style) = label_styles(entry.kind, styles, state);
        let mut suffix: Vec<Span> = Vec::new();
        assert(span_views(suffix@) == Seq::<SpanView>::empty());
        let warnings_width = push_count(
            &mut suffix,
            state.counts.warnings,
            styles.warning,
            styles,
            state,
        );
        let errors_width = push_count(&mut suffix, state.counts.errors, styles.error, styles, state);
        assert(span_views(suffix@) == suffix_spans(state, *styles));
        let label_width = max_width.saturating_sub(warnings_width + errors_width);
        let mut label = entry.prefix.clone();
        label.append(entry.name.as_str());
        let prefix = measure(entry.prefix.as_str());
        let name = measure(entry.name.as_str());
        let whole = measure(label.as_str());
        proof {
            lemma_label_fits(entry@, max_width as nat, *styles, state);
        }
        let mut spans = label_spans(
            &prefix,
            &name,
            &whole,
            label_width,
            prefix_style,
            name_style,
        );
        let ghost front = spans@;
        let ghost back = suffix@;
        spans.append(&mut suffix);
        assert(span_views(spans@) == span_views(front) + span_views(back));
        spans
    }
}

/// The texts of the spans.
pub open spec fn span_texts(spans: Seq<SpanView>) -> Seq<Seq<char>> {
    Seq::new(spans.len(), |i: int| spans[i].content)
}

/// Two sets of styles agree in what does not depend on version control or on diagnostics.
pub open spec fn have_same_base(a: RowStyles, b: RowStyles) -> bool {
    a.directory == b.directory && a.file == b.file && a.selected == b.selected
}

/// Version control and diagnostics, and the styles that mark them, have no influence on the style
/// of what precedes the name of an entry. They change no text either, but for the counts and for
/// the room that these take.
pub proof fn lemma_only_the_name_is_marked(
    entry: EntryView,
    max_width: nat,
    a: RowState,
    b: RowState,
    a_styles: RowStyles,
    b_styles: RowStyles,
)
    requires
        a.is_selected == b.is_selected,
        a.is_active == b.is_active,
        have_same_base(a_styles, b_styles),
    ensures
        prefix_style(entry.kind, a, a_styles) == prefix_style(entry.kind, b, b_styles),
        row_spans(entry, max_width, a_styles, a)[0].style == row_spans(
            entry,
            max_width,
            b_styles,
            b,
        )[0].style,
        a.counts == b.counts ==> span_texts(row_spans(entry, max_width, a_styles, a))
            == span_texts(row_spans(entry, max_width, b_styles, b)),
{
    if a.counts == b.counts {
        assert(span_texts(row_spans(entry, max_width, a_styles, a)) =~= span_texts(
            row_spans(entry, max_width, b_styles, b),
        ));
    }
}

/// The columns of the characters of the first two spans at most, added up.
pub open spec fn label_columns(spans: Seq<SpanView>) -> nat {
    if spans.len() == 1 {
        columns(spans[0].content)
    } else {
        columns(spans[0].content) + columns(spans[1].content)
    }
}

/// The characters of the label in the row of an entry keep to the columns that the counts leave to
/// it.
pub open spec fn label_fits(
    entry: EntryView,
    max_width: nat,
    styles: RowStyles,
    state: RowState,
) -> bool {
    let spans = row_spans(entry, max_width, styles, state);
    let label = spans.take(spans.len() - suffix_spans(state, styles).len());
    label_columns(label) <= label_width(max_width, state.counts)
}

/// The characters of the label of an entry keep to the columns that its counts leave to it.
pub proof fn lemma_label_fits(entry: EntryView, max_width: nat, styles: RowStyles, state: RowState)
    requires
        is_measured(entry.prefix),
        is_measured(entry.name),
        is_measured(entry.prefix + entry.name),
    ensures
        label_fits(entry, max_width, styles, state),
{
    let width = label_width(max_width, state.counts);
    let prefix_width = text_columns(entry.prefix) as nat;
    let rest = minus(width as int, prefix_width as int) as nat;
    if width <= prefix_width {
        lemma_truncated_fits(entry.prefix + entry.name, width);
    } else {
        lemma_truncated_fits(entry.name, rest);
    }
    let spans = row_spans(entry, max_width, styles, state);
    let label = spans.take(spans.len() - suffix_spans(state, styles).len());
    assert(label =~= label_layout(
        entry.prefix,
        prefix_width,
        truncated(entry.name, rest),
        truncated(entry.prefix + entry.name, width),
        width,
        prefix_style(entry.kind, state, styles),
        name_style(entry.kind, state, styles),
    ));
}

} // verus!
