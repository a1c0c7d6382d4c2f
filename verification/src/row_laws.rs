//! What each part of a row says and how it looks, told by the styles that take part in it.
use crate::diagnostics::DiagnosticCounts;
use crate::entry::{EntryKind, EntryView};
use crate::git::FileChangeKind;
use crate::label_laws::{lemma_numerals_have_their_values, value_of};
use crate::row::{
    count_span, name_style, prefix_style, row_spans, suffix_spans, RowState, RowStyles, SpanView,
};
use crate::style::{Color, Style, UnderlineStyle};
use crate::text::{numeral, text_columns, truncated};
use vstd::prelude::*;

verus! {

/// The first of three that says something.
pub open spec fn topmost<T>(a: Option<T>, b: Option<T>, c: Option<T>) -> Option<T> {
    if a is Some {
        a
    } else if b is Some {
        b
    } else {
        c
    }
}

/// What laying a style over another makes of them: where the upper one names a color or a line, that
/// holds, else that of the lower one; a modifier is on if the upper one switches it on, or the lower
/// one does and the upper one does not switch it off, and the other way round.
pub proof fn lemma_the_upper_style_decides(lower: Style, upper: Style)
    ensures
        ({
            let both = lower.patched(upper);
            &&& both.fg == topmost(upper.fg, lower.fg, None)
            &&& both.bg == topmost(upper.bg, lower.bg, None)
            &&& both.underline_color == topmost(upper.underline_color, lower.underline_color, None)
            &&& both.underline_style == topmost(upper.underline_style, lower.underline_style, None)
            &&& both.add_modifier.bits == (lower.add_modifier.bits & !upper.sub_modifier.bits)
                | upper.add_modifier.bits
            &&& both.sub_modifier.bits == (lower.sub_modifier.bits & !upper.add_modifier.bits)
                | upper.sub_modifier.bits
        }),
{
}

/// Switching modifiers on switches on those, and nothing else changes.
pub proof fn lemma_switching_on(style: Style, bits: u16)
    ensures
        ({
            let after = style.modified(bits);
            &&& after.add_modifier.bits == style.add_modifier.bits | bits
            &&& after.sub_modifier.bits == style.sub_modifier.bits & !bits
            &&& after.add_modifier.bits & bits == bits
            &&& after.sub_modifier.bits & bits == 0
            &&& after.fg == style.fg
            &&& after.bg == style.bg
            &&& after.underline_color == style.underline_color
            &&& after.underline_style == style.underline_style
        }),
{
    let (a, s) = (style.add_modifier.bits, style.sub_modifier.bits);
    assert((a | bits) & bits == bits) by (bit_vector);
    assert((s & !bits) & bits == 0) by (bit_vector);
}

/// The style of the theme that marks a change, if there is one.
pub open spec fn marking_style(change: Option<FileChangeKind>, styles: RowStyles) -> Option<Style> {
    if change is None {
        None
    } else if change == Some(FileChangeKind::Untracked) {
        Some(styles.added)
    } else if change == Some(FileChangeKind::Deleted) {
        Some(styles.removed)
    } else if change == Some(FileChangeKind::Conflict) {
        Some(styles.error)
    } else {
        Some(styles.modified)
    }
}

/// The style of the theme for entries of a kind.
pub open spec fn kind_style(kind: EntryKind, styles: RowStyles) -> Style {
    if kind == EntryKind::Directory {
        styles.directory
    } else {
        styles.file
    }
}

/// The style that lies below the selected row.
pub open spec fn ground_style(is_selected: bool, styles: RowStyles) -> Option<Style> {
    if is_selected {
        Some(styles.selected)
    } else {
        None
    }
}

pub open spec fn fg_of(style: Option<Style>) -> Option<Color> {
    if style is Some {
        style->0.fg
    } else {
        None
    }
}

pub open spec fn bg_of(style: Option<Style>) -> Option<Color> {
    if style is Some {
        style->0.bg
    } else {
        None
    }
}

pub open spec fn underline_color_of(style: Option<Style>) -> Option<Color> {
    if style is Some {
        style->0.underline_color
    } else {
        None
    }
}

pub open spec fn underline_style_of(style: Option<Style>) -> Option<UnderlineStyle> {
    if style is Some {
        style->0.underline_style
    } else {
        None
    }
}

/// What the modifiers `add` and `sub` of a row become where it is selected.
pub open spec fn are_modifiers_on_ground(
    style: Style,
    add: u16,
    sub: u16,
    ground: Option<Style>,
) -> bool {
    match ground {
        Some(below) => style.add_modifier.bits == (below.add_modifier.bits & !sub) | add
            && style.sub_modifier.bits == (below.sub_modifier.bits & !add) | sub,
        None => style.add_modifier.bits == add && style.sub_modifier.bits == sub,
    }
}

/// How the name of an entry looks: its colors are those of its mark, else those of its kind, else
/// those of the selection. Errors give it a dotted underline in their color, warnings one in theirs
/// where there are no errors. It is bold in the row of the active file, and italic for a renamed
/// file.
pub open spec fn looks_like_name(
    style: Style,
    kind: EntryKind,
    state: RowState,
    styles: RowStyles,
) -> bool {
    let mark = marking_style(state.change, styles);
    let base = kind_style(kind, styles);
    let ground = ground_style(state.is_selected, styles);
    let slant: u16 = if state.change == Some(FileChangeKind::Renamed) {
        4
    } else {
        0
    };
    let mark_add = if mark is Some {
        mark->0.add_modifier.bits | slant
    } else {
        0
    };
    let mark_sub = if mark is Some {
        mark->0.sub_modifier.bits & !slant
    } else {
        0
    };
    let weight: u16 = if state.is_active {
        1
    } else {
        0
    };
    &&& style.fg == topmost(fg_of(mark), base.fg, fg_of(ground))
    &&& style.bg == topmost(bg_of(mark), base.bg, bg_of(ground))
    &&& state.counts.errors > 0 && styles.error.fg is Some ==> style.underline_color
        == styles.error.fg
    &&& state.counts.errors > 0 && styles.error.fg is None ==> style.underline_color == Some(
        Color::Red,
    )
    &&& state.counts.errors == 0 && state.counts.warnings > 0 && styles.warning.fg is Some
        ==> style.underline_color == styles.warning.fg
    &&& state.counts.errors == 0 && state.counts.warnings > 0 && styles.warning.fg is None
        ==> style.underline_color == Some(Color::Yellow)
    &&& state.counts.errors == 0 && state.counts.warnings == 0 ==> style.underline_color == topmost(
        underline_color_of(mark),
        base.underline_color,
        underline_color_of(ground),
    )
    &&& state.counts.errors > 0 || state.counts.warnings > 0 ==> style.underline_style == Some(
        UnderlineStyle::Dotted,
    )
    &&& state.counts.errors == 0 && state.counts.warnings == 0 ==> style.underline_style == topmost(
        underline_style_of(mark),
        base.underline_style,
        underline_style_of(ground),
    )
    &&& are_modifiers_on_ground(
        style,
        ((base.add_modifier.bits & !mark_sub) | mark_add) | weight,
        ((base.sub_modifier.bits & !mark_add) | mark_sub) & !weight,
        ground,
    )
}

/// How what precedes the name looks: its colors and lines are those of the kind, else those of the
/// selection, and it is bold in the row of the active file.
pub open spec fn looks_like_prefix(
    style: Style,
    kind: EntryKind,
    state: RowState,
    styles: RowStyles,
) -> bool {
    let base = kind_style(kind, styles);
    let ground = ground_style(state.is_selected, styles);
    let weight: u16 = if state.is_active {
        1
    } else {
        0
    };
    &&& style.fg == topmost(base.fg, fg_of(ground), None)
    &&& style.bg == topmost(base.bg, bg_of(ground), None)
    &&& style.underline_color == topmost(base.underline_color, underline_color_of(ground), None)
    &&& style.underline_style == topmost(base.underline_style, underline_style_of(ground), None)
    &&& are_modifiers_on_ground(
        style,
        base.add_modifier.bits | weight,
        base.sub_modifier.bits & !weight,
        ground,
    )
}

/// How a count looks: as its style says, above that of the selection.
pub open spec fn looks_like_count(
    style: Style,
    base: Style,
    is_selected: bool,
    styles: RowStyles,
) -> bool {
    let ground = ground_style(is_selected, styles);
    &&& style.fg == topmost(base.fg, fg_of(ground), None)
    &&& style.bg == topmost(base.bg, bg_of(ground), None)
    &&& style.underline_color == topmost(base.underline_color, underline_color_of(ground), None)
    &&& style.underline_style == topmost(base.underline_style, underline_style_of(ground), None)
    &&& are_modifiers_on_ground(style, base.add_modifier.bits, base.sub_modifier.bits, ground)
}

/// The name and what precedes it look as their mark, their kind, the selection, the diagnostics and
/// the active file say.
pub proof fn lemma_labels_look_as_marked(kind: EntryKind, state: RowState, styles: RowStyles)
    ensures
        looks_like_name(name_style(kind, state, styles), kind, state, styles),
        looks_like_prefix(prefix_style(kind, state, styles), kind, state, styles),
{
    let mark = marking_style(state.change, styles);
    let base = kind_style(kind, styles);
    let (x, y) = (base.add_modifier.bits, base.sub_modifier.bits);
    assert((x & !0u16) | 0u16 == x) by (bit_vector);
    assert((y & !0u16) | 0u16 == y) by (bit_vector);
    assert(x | 0u16 == x && y & !0u16 == y) by (bit_vector);
    let (v, w) = if mark is Some {
        (mark->0.add_modifier.bits, mark->0.sub_modifier.bits)
    } else {
        (0u16, 0u16)
    };
    assert(v | 0u16 == v && w & !0u16 == w) by (bit_vector);
    let slant: u16 = if state.change == Some(FileChangeKind::Renamed) {
        4
    } else {
        0
    };
    let a = if mark is Some {
        v | slant
    } else {
        0
    };
    let s = if mark is Some {
        w & !slant
    } else {
        0
    };
    let p = (x & !s) | a;
    let q = (y & !a) | s;
    assert((p & !0u16) | 0u16 == p && p | 0u16 == p) by (bit_vector);
    assert((q & !0u16) | 0u16 == q && q & !0u16 == q) by (bit_vector);
}

/// The columns of a count, with the blank before it.
pub open spec fn count_columns(count: u32) -> int {
    if count == 0 {
        0
    } else {
        numeral(count as nat).len() as int + 1
    }
}

/// The columns that the counts leave to the label, or less than none.
pub open spec fn room_for_label(max_width: nat, counts: DiagnosticCounts) -> int {
    max_width - count_columns(counts.warnings) - count_columns(counts.errors)
}

/// The label has room for the name.
pub open spec fn has_room_for_name(
    entry: EntryView,
    max_width: nat,
    counts: DiagnosticCounts,
) -> bool {
    text_columns(entry.prefix) < room_for_label(max_width, counts)
}

/// The number of the spans before the counts.
pub open spec fn label_len(entry: EntryView, max_width: nat, counts: DiagnosticCounts) -> int {
    if has_room_for_name(entry, max_width, counts) {
        2
    } else {
        1
    }
}

/// The span is a count: a blank and the number.
pub open spec fn is_count(
    span: SpanView,
    count: u32,
    base: Style,
    is_selected: bool,
    styles: RowStyles,
) -> bool {
    &&& span.content.len() > 1
    &&& span.content[0] == ' '
    &&& value_of(span.content.drop_first()) == count
    &&& span.content.drop_first() == numeral(count as nat)
    &&& looks_like_count(span.style, base, is_selected, styles)
}

/// The parts of a row, one after the other: what precedes the name and the name, or where there is
/// no room for the name, the whole label, cut; then the number of warnings and the number of errors,
/// where there are any.
pub open spec fn is_row_of_entry(
    spans: Seq<SpanView>,
    entry: EntryView,
    max_width: nat,
    styles: RowStyles,
    state: RowState,
) -> bool {
    let room = room_for_label(max_width, state.counts);
    let label = label_len(entry, max_width, state.counts);
    let warned: int = if state.counts.warnings > 0 {
        1
    } else {
        0
    };
    let failed: int = if state.counts.errors > 0 {
        1
    } else {
        0
    };
    &&& spans.len() == label + warned + failed
    &&& looks_like_prefix(spans[0].style, entry.kind, state, styles)
    &&& label == 2 ==> {
        let left = (room - text_columns(entry.prefix)) as nat;
        &&& spans[0].content == entry.prefix
        &&& spans[1].content == truncated(entry.name, left)
        &&& text_columns(entry.name) <= left ==> spans[1].content == entry.name
        &&& looks_like_name(spans[1].style, entry.kind, state, styles)
    }
    &&& label == 1 && room > 0 ==> spans[0].content == truncated(
        entry.prefix + entry.name,
        room as nat,
    )
    &&& label == 1 && room <= 0 ==> spans[0].content.len() == 0
    &&& warned == 1 ==> is_count(
        spans[label],
        state.counts.warnings,
        styles.warning,
        state.is_selected,
        styles,
    )
    &&& failed == 1 ==> is_count(
        spans[label + warned],
        state.counts.errors,
        styles.error,
        state.is_selected,
        styles,
    )
}

proof fn lemma_count(count: u32, base: Style, state: RowState, styles: RowStyles)
    ensures
        count == 0 ==> count_span(count, base, state, styles).len() == 0,
        count > 0 ==> count_span(count, base, state, styles).len() == 1 && is_count(
            count_span(count, base, state, styles)[0],
            count,
            base,
            state.is_selected,
            styles,
        ),
{
    if count > 0 {
        lemma_numerals_have_their_values(count as nat);
        let span = count_span(count, base, state, styles)[0];
        assert(span.content.drop_first() =~= numeral(count as nat));
    }
}

/// A row says what its entry, the diagnostics and version control say, in the styles that belong to
/// them, whether it is selected or not.
pub proof fn lemma_rows_say_what_is_known(
    entry: EntryView,
    max_width: nat,
    styles: RowStyles,
    state: RowState,
)
    ensures
        is_row_of_entry(row_spans(entry, max_width, styles, state), entry, max_width, styles, state),
{
    let spans = row_spans(entry, max_width, styles, state);
    let label = label_len(entry, max_width, state.counts);
    let room = room_for_label(max_width, state.counts);
    let warnings = count_span(state.counts.warnings, styles.warning, state, styles);
    let errors = count_span(state.counts.errors, styles.error, state, styles);
    lemma_labels_look_as_marked(entry.kind, state, styles);
    lemma_count(state.counts.warnings, styles.warning, state, styles);
    lemma_count(state.counts.errors, styles.error, state, styles);
    lemma_numerals_have_their_values(state.counts.warnings as nat);
    lemma_numerals_have_their_values(state.counts.errors as nat);
    assert(suffix_spans(state, styles) == warnings + errors);
    if state.counts.warnings > 0 {
        assert(spans[label] == warnings[0]);
    }
    if state.counts.errors > 0 {
        assert(spans[label + warnings.len()] == errors[0]);
    }
    if label == 2 {
        let left = (room - text_columns(entry.prefix)) as nat;
        assert(spans[1].content == truncated(entry.name, left));
        if text_columns(entry.name) <= left && entry.name.len() == 0 {
            assert(spans[1].content =~= entry.name);
        }
    }
}

/// Whatever else is known of an entry, its name has the color that marks its change, and the
/// underline that marks its diagnostics: neither being selected nor being active takes them away.
pub proof fn lemma_marks_are_kept(
    kind: EntryKind,
    state: RowState,
    other: RowState,
    styles: RowStyles,
)
    requires
        state.change == other.change,
        state.counts == other.counts,
    ensures
        fg_of(marking_style(state.change, styles)) is Some ==> name_style(kind, state, styles).fg
            == name_style(kind, other, styles).fg && name_style(kind, state, styles).fg == fg_of(
            marking_style(state.change, styles),
        ),
        state.counts.errors > 0 || state.counts.warnings > 0 ==> name_style(
            kind,
            state,
            styles,
        ).underline_style == Some(UnderlineStyle::Dotted) && name_style(
            kind,
            state,
            styles,
        ).underline_color == name_style(kind, other, styles).underline_color,
{
    lemma_labels_look_as_marked(kind, state, styles);
    lemma_labels_look_as_marked(kind, other, styles);
}

} // verus!
