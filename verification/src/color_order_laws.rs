//! What the colors of a document do not depend on.
use crate::color_laws::{
    is_among, is_of_span, lemma_overlay_ranges, lemma_overlays_are_packed,
    lemma_packing_keeps_ranges_apart, span_item,
};
use crate::colors::{
    all_filled, built_colors, highlight_order, layered, overlay_ranges, packed, same_highlight,
    span_highlight, span_order, ColorsView, DocumentColorMode, Highlight, NumberedSpan, OverlayView,
    TextRange,
};
use crate::order::{
    ascending, in_order, is_total_preorder, lemma_in_order, lemma_rank_order, lemma_ranks_agree,
};
use vstd::prelude::*;

verus! {

/// Spans with highlights of the same number have the same highlight.
pub open spec fn numbers_tell_highlights(
    spans: Seq<NumberedSpan>,
    mode: DocumentColorMode,
) -> bool {
    forall|i: int, j: int|
        0 <= i < spans.len() && 0 <= j < spans.len() && (#[trigger] spans[i]).number == (
        #[trigger] spans[j]).number ==> span_highlight(spans[i], mode) == span_highlight(
            spans[j],
            mode,
        )
}

/// The spans highlight the same ranges, whatever their order, their anchors and their repetitions.
pub open spec fn highlight_the_same(
    a: Seq<NumberedSpan>,
    b: Seq<NumberedSpan>,
    mode: DocumentColorMode,
) -> bool {
    forall|x: (Highlight, TextRange)|
        #[trigger] is_of_span(x, a, mode) <==> is_of_span(x, b, mode)
}

proof fn lemma_same_highlight_is_equal(
    x: (Highlight, TextRange),
    y: (Highlight, TextRange),
    spans: Seq<NumberedSpan>,
    mode: DocumentColorMode,
)
    requires
        numbers_tell_highlights(spans, mode),
        is_of_span(x, spans, mode),
        is_of_span(y, spans, mode),
        same_highlight(x, y),
    ensures
        x == y,
{
    let i = choose|i: int|
        0 <= i < spans.len() && (#[trigger] spans[i]).span.range.start < spans[i].span.range.end && x
            == span_item(spans[i], mode);
    let j = choose|j: int|
        0 <= j < spans.len() && (#[trigger] spans[j]).span.range.start < spans[j].span.range.end && y
            == span_item(spans[j], mode);
    assert(spans[i].number == spans[j].number);
}

/// The ranges that are laid over the text hold exactly the highlighted ranges of the spans.
proof fn lemma_overlay_ranges_contain(
    spans: Seq<NumberedSpan>,
    mode: DocumentColorMode,
    x: (Highlight, TextRange),
)
    requires
        numbers_tell_highlights(spans, mode),
    ensures
        overlay_ranges(spans, mode).contains(x) <==> is_of_span(x, spans, mode),
{
    let out = overlay_ranges(spans, mode);
    lemma_overlay_ranges(spans, mode);
    if out.contains(x) {
        assert(is_of_span(out[out.index_of(x)], spans, mode));
    }
    if is_of_span(x, spans, mode) {
        let i = choose|i: int|
            0 <= i < spans.len() && (#[trigger] spans[i]).span.range.start < spans[i].span.range.end
                && x == span_item(spans[i], mode);
        assert(is_among(span_item(spans[i], mode), out));
        let k = choose|k: int| 0 <= k < out.len() && same_highlight(#[trigger] out[k], x);
        assert(is_of_span(out[k], spans, mode));
        lemma_same_highlight_is_equal(out[k], x, spans, mode);
        assert(out.contains(out[k]));
    }
}

proof fn lemma_overlay_ranges_without_duplicates(
    spans: Seq<NumberedSpan>,
    mode: DocumentColorMode,
)
    ensures
        overlay_ranges(spans, mode).no_duplicates(),
{
    let out = overlay_ranges(spans, mode);
    lemma_overlay_ranges(spans, mode);
    assert forall|i: int, j: int| 0 <= i < out.len() && 0 <= j < out.len() && i != j implies out[i]
        != out[j] by {
        if i < j {
            assert(!same_highlight(out[i], out[j]));
        } else {
            assert(!same_highlight(out[j], out[i]));
        }
    }
}

/// What is laid over the text depends on the highlighted ranges alone: not on the order of the
/// spans, not on where their swatches would go, and not on how often a span is repeated.
pub proof fn lemma_overlays_depend_on_ranges_alone(
    a: Seq<NumberedSpan>,
    b: Seq<NumberedSpan>,
    mode: DocumentColorMode,
)
    requires
        mode != DocumentColorMode::Virtual,
        numbers_tell_highlights(a, mode),
        numbers_tell_highlights(b, mode),
        highlight_the_same(a, b, mode),
    ensures
        built_colors(a, mode) == built_colors(b, mode),
{
    broadcast use vstd::seq_lib::group_to_multiset_ensures;

    let x = overlay_ranges(a, mode);
    let y = overlay_ranges(b, mode);
    lemma_overlay_ranges(a, mode);
    lemma_overlay_ranges(b, mode);
    lemma_overlay_ranges_without_duplicates(a, mode);
    lemma_overlay_ranges_without_duplicates(b, mode);
    x.lemma_multiset_has_no_duplicates();
    y.lemma_multiset_has_no_duplicates();
    assert forall|z: (Highlight, TextRange)| x.contains(z) <==> y.contains(z) by {
        lemma_overlay_ranges_contain(a, mode, z);
        lemma_overlay_ranges_contain(b, mode, z);
    }
    assert(x.to_multiset() =~= y.to_multiset()) by {
        assert forall|z: (Highlight, TextRange)|
            x.to_multiset().count(z) == y.to_multiset().count(z) by {
            assert(x.contains(z) <==> x.to_multiset().contains(z));
            assert(y.contains(z) <==> y.to_multiset().contains(z));
        }
    }
    lemma_rank_order::<(Highlight, TextRange)>();
    lemma_ranks_agree(x, y, highlight_order());
    assert forall|i: int| 0 <= i < x.len() implies x[i] == y[i] by {
        assert(highlight_order()(x[i], y[i]) && highlight_order()(y[i], x[i]));
        assert(is_of_span(x[i], a, mode));
        assert(is_of_span(y[i], b, mode));
        assert(is_of_span(y[i], a, mode));
        lemma_same_highlight_is_equal(x[i], y[i], a, mode);
    }
    assert(x =~= y);
    lemma_overlays_are_packed(a, mode);
    lemma_overlays_are_packed(b, mode);
    assert(built_colors(a, mode) is Some <==> built_colors(b, mode) is Some) by {
        lemma_some_highlight(a, mode);
        lemma_some_highlight(b, mode);
        if built_colors(a, mode) is Some {
            let z = choose|z: (Highlight, TextRange)| is_of_span(z, a, mode);
            assert(is_of_span(z, b, mode));
        }
        if built_colors(b, mode) is Some {
            let z = choose|z: (Highlight, TextRange)| is_of_span(z, b, mode);
            assert(is_of_span(z, a, mode));
        }
    }
}

proof fn lemma_some_highlight(spans: Seq<NumberedSpan>, mode: DocumentColorMode)
    requires
        mode != DocumentColorMode::Virtual,
    ensures
        built_colors(spans, mode) is Some <==> exists|x: (Highlight, TextRange)|
            is_of_span(x, spans, mode),
{
    lemma_overlays_are_packed(spans, mode);
    if built_colors(spans, mode) is Some {
        let i = choose|i: int|
            0 <= i < spans.len() && (#[trigger] spans[i]).span.range.start < spans[i].span.range.end;
        assert(is_of_span(span_item(spans[i], mode), spans, mode));
    }
    if exists|x: (Highlight, TextRange)| is_of_span(x, spans, mode) {
        let x = choose|x: (Highlight, TextRange)| is_of_span(x, spans, mode);
        let i = choose|i: int|
            0 <= i < spans.len() && (#[trigger] spans[i]).span.range.start < spans[i].span.range.end
                && x == span_item(spans[i], mode);
        assert(spans[i].span.range.start < spans[i].span.range.end);
    }
}

/// The ranges of a layer with the numbers of their highlights.
pub open spec fn numbered_layer(layer: Seq<(Highlight, TextRange)>) -> Seq<(u32, TextRange)> {
    Seq::new(layer.len(), |i: int| (layer[i].0.number, layer[i].1))
}

pub open spec fn numbered_layers(layers: Seq<Seq<(Highlight, TextRange)>>) -> Seq<
    Seq<(u32, TextRange)>,
> {
    Seq::new(layers.len(), |k: int| numbered_layer(layers[k]))
}

/// The layer with the numbers of its highlights.
pub open spec fn numbered_overlay(overlay: OverlayView<Highlight>) -> OverlayView<u32> {
    match overlay {
        OverlayView::Homogeneous { highlight, ranges } => OverlayView::Homogeneous {
            highlight: highlight.number,
            ranges,
        },
        OverlayView::Heterogenous { highlights } => OverlayView::Heterogenous {
            highlights: numbered_layer(highlights),
        },
    }
}

/// The colors with the numbers of their highlights, which are all that a theme needs to know of
/// highlights that it has numbered.
pub open spec fn numbered_colors(colors: ColorsView<Highlight>) -> ColorsView<u32> {
    ColorsView {
        inline_annotations: colors.inline_annotations,
        inline_annotation_highlights: Seq::new(
            colors.inline_annotation_highlights.len(),
            |i: int| colors.inline_annotation_highlights[i].number,
        ),
        inline_padding_before: colors.inline_padding_before,
        overlay_highlights: Seq::new(
            colors.overlay_highlights.len(),
            |k: int| numbered_overlay(colors.overlay_highlights[k]),
        ),
    }
}

/// How the colors of `spans` are shown, with the numbers of the highlights.
pub open spec fn built_numbers(spans: Seq<NumberedSpan>, mode: DocumentColorMode) -> Option<
    ColorsView<u32>,
> {
    match built_colors(spans, mode) {
        Some(colors) => Some(numbered_colors(colors)),
        None => None,
    }
}

spec fn key_order() -> spec_fn((u32, TextRange), (u32, TextRange)) -> bool {
    |a: (u32, TextRange), b: (u32, TextRange)|
        if a.1.start != b.1.start {
            a.1.start < b.1.start
        } else if a.1.end != b.1.end {
            a.1.end < b.1.end
        } else {
            a.0 <= b.0
        }
}

/// Some span that is not empty has the range `key.1` and a highlight of the number `key.0`.
spec fn is_key_of_span(key: (u32, TextRange), spans: Seq<NumberedSpan>) -> bool {
    exists|i: int|
        0 <= i < spans.len() && (#[trigger] spans[i]).span.range.start < spans[i].span.range.end && key
            == (spans[i].number, spans[i].span.range)
}

proof fn lemma_keys(spans: Seq<NumberedSpan>, mode: DocumentColorMode)
    ensures
        ({
            let keys = numbered_layer(overlay_ranges(spans, mode));
            &&& keys.no_duplicates()
            &&& ascending(keys, key_order())
            &&& forall|key: (u32, TextRange)|
                #[trigger] keys.contains(key) <==> is_key_of_span(key, spans)
        }),
{
    let out = overlay_ranges(spans, mode);
    let keys = numbered_layer(out);
    lemma_overlay_ranges(spans, mode);
    assert forall|i: int, j: int| 0 <= i < keys.len() && 0 <= j < keys.len() && i != j implies keys[i]
        != keys[j] by {
        if i < j {
            assert(!same_highlight(out[i], out[j]));
        } else {
            assert(!same_highlight(out[j], out[i]));
        }
    }
    assert forall|i: int, j: int| 0 <= i < j < keys.len() implies key_order()(
        #[trigger] keys[i],
        #[trigger] keys[j],
    ) by {
        assert(highlight_order()(out[i], out[j]));
    }
    assert forall|key: (u32, TextRange)|
        #[trigger] keys.contains(key) <==> is_key_of_span(key, spans) by {
        if keys.contains(key) {
            let k = keys.index_of(key);
            assert(is_of_span(out[k], spans, mode));
            let i = choose|i: int|
                0 <= i < spans.len() && (#[trigger] spans[i]).span.range.start
                    < spans[i].span.range.end && out[k] == span_item(spans[i], mode);
            assert(key == (spans[i].number, spans[i].span.range));
        }
        if is_key_of_span(key, spans) {
            let i = choose|i: int|
                0 <= i < spans.len() && (#[trigger] spans[i]).span.range.start
                    < spans[i].span.range.end && key == (spans[i].number, spans[i].span.range);
            let item = span_item(spans[i], mode);
            assert(is_among(item, out));
            let k = choose|k: int| 0 <= k < out.len() && same_highlight(#[trigger] out[k], item);
            assert(keys[k] == key);
        }
    }
}

proof fn lemma_layered_numbers(
    a: Seq<Seq<(Highlight, TextRange)>>,
    b: Seq<Seq<(Highlight, TextRange)>>,
    x: (Highlight, TextRange),
    y: (Highlight, TextRange),
)
    requires
        all_filled(a),
        numbered_layers(a) == numbered_layers(b),
        same_highlight(x, y),
    ensures
        numbered_layers(layered(a, x)) == numbered_layers(layered(b, y)),
    decreases a.len(),
{
    assert(numbered_layers(a).len() == a.len() && numbered_layers(b).len() == b.len());
    if a.len() == 0 {
        assert(layered(a, x) =~= seq![seq![x]]);
        assert(layered(b, y) =~= seq![seq![y]]);
        assert(numbered_layer(seq![x]) =~= numbered_layer(seq![y]));
    } else {
        let (first_a, rest_a) = (a[0], a.drop_first());
        let (first_b, rest_b) = (b[0], b.drop_first());
        assert(numbered_layers(a)[0] == numbered_layers(b)[0]);
        assert(numbered_layer(first_a) == numbered_layer(first_b));
        assert(numbered_layer(first_a).len() == first_a.len());
        assert(numbered_layer(first_b).len() == first_b.len());
        assert(first_a.len() > 0);
        let n = first_a.len() - 1;
        assert(numbered_layer(first_a)[n] == numbered_layer(first_b)[n]);
        assert(numbered_layers(rest_a) =~= numbered_layers(rest_b)) by {
            assert forall|k: int| 0 <= k < rest_a.len() implies numbered_layer(rest_a[k])
                == numbered_layer(rest_b[k]) by {
                assert(numbered_layers(a)[k + 1] == numbered_layers(b)[k + 1]);
            }
        }
        if x.1.start >= first_a.last().1.end {
            assert(numbered_layer(first_a.push(x)) =~= numbered_layer(first_a).push((x.0.number, x.1)));
            assert(numbered_layer(first_b.push(y)) =~= numbered_layer(first_b).push((y.0.number, y.1)));
            lemma_numbered_first(first_a.push(x), rest_a);
            lemma_numbered_first(first_b.push(y), rest_b);
        } else {
            assert(all_filled(rest_a)) by {
                assert forall|k: int| 0 <= k < rest_a.len() implies (#[trigger] rest_a[k]).len()
                    > 0 by {
                    assert(rest_a[k] == a[k + 1]);
                }
            }
            lemma_layered_numbers(rest_a, rest_b, x, y);
            lemma_numbered_first(first_a, layered(rest_a, x));
            lemma_numbered_first(first_b, layered(rest_b, y));
        }
    }
}

proof fn lemma_numbered_first(
    first: Seq<(Highlight, TextRange)>,
    rest: Seq<Seq<(Highlight, TextRange)>>,
)
    ensures
        numbered_layers(seq![first] + rest) == seq![numbered_layer(first)] + numbered_layers(rest),
{
    assert(numbered_layers(seq![first] + rest) =~= seq![numbered_layer(first)] + numbered_layers(
        rest,
    ));
}

/// Packing goes by the ranges alone.
proof fn lemma_packed_numbers(a: Seq<(Highlight, TextRange)>, b: Seq<(Highlight, TextRange)>)
    requires
        numbered_layer(a) == numbered_layer(b),
    ensures
        numbered_layers(packed(a)) == numbered_layers(packed(b)),
    decreases a.len(),
{
    assert(numbered_layer(a).len() == a.len() && numbered_layer(b).len() == b.len());
    if a.len() > 0 {
        let n = a.len() - 1;
        assert(numbered_layer(a)[n] == numbered_layer(b)[n]);
        assert(numbered_layer(a.drop_last()) =~= numbered_layer(a).drop_last());
        assert(numbered_layer(b.drop_last()) =~= numbered_layer(b).drop_last());
        lemma_packed_numbers(a.drop_last(), b.drop_last());
        lemma_packing_keeps_ranges_apart(a.drop_last());
        lemma_layered_numbers(packed(a.drop_last()), packed(b.drop_last()), a.last(), b.last());
    } else {
        assert(a =~= b);
    }
}

proof fn lemma_same_keys_same_numbers(
    a: Seq<NumberedSpan>,
    b: Seq<NumberedSpan>,
    mode: DocumentColorMode,
)
    requires
        mode != DocumentColorMode::Virtual,
        forall|key: (u32, TextRange)|
            #[trigger] is_key_of_span(key, a) <==> is_key_of_span(key, b),
    ensures
        built_numbers(a, mode) == built_numbers(b, mode),
{
    broadcast use vstd::seq_lib::group_to_multiset_ensures;

    let x = numbered_layer(overlay_ranges(a, mode));
    let y = numbered_layer(overlay_ranges(b, mode));
    lemma_keys(a, mode);
    lemma_keys(b, mode);
    x.lemma_multiset_has_no_duplicates();
    y.lemma_multiset_has_no_duplicates();
    assert(x.to_multiset() =~= y.to_multiset()) by {
        assert forall|z: (u32, TextRange)| x.to_multiset().count(z) == y.to_multiset().count(z) by {
            assert(x.contains(z) <==> is_key_of_span(z, a));
            assert(y.contains(z) <==> is_key_of_span(z, b));
            assert(x.contains(z) <==> x.to_multiset().contains(z));
            assert(y.contains(z) <==> y.to_multiset().contains(z));
        }
    }
    assert(is_total_preorder(key_order()));
    lemma_ranks_agree(x, y, key_order());
    assert forall|i: int| 0 <= i < x.len() implies x[i] == y[i] by {
        assert(key_order()(x[i], y[i]) && key_order()(y[i], x[i]));
    }
    assert(x =~= y);
    lemma_packed_numbers(overlay_ranges(a, mode), overlay_ranges(b, mode));
    lemma_overlays_are_packed(a, mode);
    lemma_overlays_are_packed(b, mode);
    lemma_some_key(a, mode);
    lemma_some_key(b, mode);
    if exists|key: (u32, TextRange)| is_key_of_span(key, a) {
        let key = choose|key: (u32, TextRange)| is_key_of_span(key, a);
        assert(is_key_of_span(key, b));
    }
    if exists|key: (u32, TextRange)| is_key_of_span(key, b) {
        let key = choose|key: (u32, TextRange)| is_key_of_span(key, b);
        assert(is_key_of_span(key, a));
    }
    if built_colors(a, mode) is Some {
        let p = built_numbers(a, mode)->0;
        let q = built_numbers(b, mode)->0;
        let (m, n) = (packed(overlay_ranges(a, mode)), packed(overlay_ranges(b, mode)));
        assert(numbered_layers(m).len() == m.len() && numbered_layers(n).len() == n.len());
        assert(p.overlay_highlights =~= q.overlay_highlights) by {
            assert forall|k: int| 0 <= k < m.len() implies p.overlay_highlights[k]
                == q.overlay_highlights[k] by {
                assert(numbered_layers(m)[k] == numbered_layers(n)[k]);
            }
        }
        assert(p.inline_annotation_highlights =~= q.inline_annotation_highlights);
    }
}

proof fn lemma_some_key(spans: Seq<NumberedSpan>, mode: DocumentColorMode)
    requires
        mode != DocumentColorMode::Virtual,
    ensures
        built_colors(spans, mode) is Some <==> exists|key: (u32, TextRange)|
            is_key_of_span(key, spans),
{
    lemma_overlays_are_packed(spans, mode);
    if built_colors(spans, mode) is Some {
        let i = choose|i: int|
            0 <= i < spans.len() && (#[trigger] spans[i]).span.range.start < spans[i].span.range.end;
        assert(is_key_of_span((spans[i].number, spans[i].span.range), spans));
    }
    if exists|key: (u32, TextRange)| is_key_of_span(key, spans) {
        let key = choose|key: (u32, TextRange)| is_key_of_span(key, spans);
        let i = choose|i: int|
            0 <= i < spans.len() && (#[trigger] spans[i]).span.range.start < spans[i].span.range.end
                && key == (spans[i].number, spans[i].span.range);
        assert(spans[i].span.range.start < spans[i].span.range.end);
    }
}

proof fn lemma_occurring_keys(
    key: (u32, TextRange),
    a: Seq<NumberedSpan>,
    b: Seq<NumberedSpan>,
)
    requires
        all_occur_in(a, b),
        is_key_of_span(key, a),
    ensures
        is_key_of_span(key, b),
{
    let i = choose|i: int|
        0 <= i < a.len() && (#[trigger] a[i]).span.range.start < a[i].span.range.end && key == (
        a[i].number,
        a[i].span.range,
    );
    assert(occurs_in(a[i], b));
    let k = choose|k: int|
        0 <= k < b.len() && (#[trigger] b[k]).span.range == a[i].span.range && b[k].span.color
            == a[i].span.color && b[k].number == a[i].number;
    assert(key == (b[k].number, b[k].span.range));
}

/// The span is one of `spans`, but perhaps for its anchor.
pub open spec fn occurs_in(numbered: NumberedSpan, spans: Seq<NumberedSpan>) -> bool {
    exists|i: int|
        0 <= i < spans.len() && (#[trigger] spans[i]).span.range == numbered.span.range
            && spans[i].span.color == numbered.span.color && spans[i].number == numbered.number
}

/// Every span of `a` is one of `b`, but perhaps for its anchor.
pub open spec fn all_occur_in(a: Seq<NumberedSpan>, b: Seq<NumberedSpan>) -> bool {
    forall|i: int| 0 <= i < a.len() ==> occurs_in(#[trigger] a[i], b)
}

proof fn lemma_occurring_highlights(
    x: (Highlight, TextRange),
    a: Seq<NumberedSpan>,
    b: Seq<NumberedSpan>,
    mode: DocumentColorMode,
)
    requires
        all_occur_in(a, b),
        is_of_span(x, a, mode),
    ensures
        is_of_span(x, b, mode),
{
    let i = choose|i: int|
        0 <= i < a.len() && (#[trigger] a[i]).span.range.start < a[i].span.range.end && x
            == span_item(a[i], mode);
    assert(occurs_in(a[i], b));
    let k = choose|k: int|
        0 <= k < b.len() && (#[trigger] b[k]).span.range == a[i].span.range && b[k].span.color
            == a[i].span.color && b[k].number == a[i].number;
    assert(span_item(b[k], mode) == x);
}

/// What is laid over the text stays the same when the spans get other anchors, another order, or
/// are repeated: the ranges and the numbers of their highlights in any case, and what is painted
/// where numbers tell highlights.
pub proof fn lemma_anchors_and_repetitions_do_not_matter(
    a: Seq<NumberedSpan>,
    b: Seq<NumberedSpan>,
    mode: DocumentColorMode,
)
    requires
        mode != DocumentColorMode::Virtual,
        all_occur_in(a, b),
        all_occur_in(b, a),
    ensures
        built_numbers(a, mode) == built_numbers(b, mode),
        numbers_tell_highlights(a, mode) ==> built_colors(a, mode) == built_colors(b, mode),
{
    assert forall|key: (u32, TextRange)|
        #[trigger] is_key_of_span(key, a) <==> is_key_of_span(key, b) by {
        if is_key_of_span(key, a) {
            lemma_occurring_keys(key, a, b);
        }
        if is_key_of_span(key, b) {
            lemma_occurring_keys(key, b, a);
        }
    }
    lemma_same_keys_same_numbers(a, b, mode);
    if numbers_tell_highlights(a, mode) {
        lemma_occurring_spans_build_the_same(a, b, mode);
    }
}

proof fn lemma_occurring_spans_build_the_same(
    a: Seq<NumberedSpan>,
    b: Seq<NumberedSpan>,
    mode: DocumentColorMode,
)
    requires
        mode != DocumentColorMode::Virtual,
        numbers_tell_highlights(a, mode),
        all_occur_in(a, b),
        all_occur_in(b, a),
    ensures
        built_colors(a, mode) == built_colors(b, mode),
{
    assert(numbers_tell_highlights(b, mode)) by {
        assert forall|i: int, j: int|
            0 <= i < b.len() && 0 <= j < b.len() && (#[trigger] b[i]).number == (
            #[trigger] b[j]).number implies span_highlight(b[i], mode) == span_highlight(
            b[j],
            mode,
        ) by {
            assert(occurs_in(b[i], a) && occurs_in(b[j], a));
            let k = choose|k: int|
                0 <= k < a.len() && (#[trigger] a[k]).span.range == b[i].span.range
                    && a[k].span.color == b[i].span.color && a[k].number == b[i].number;
            let m = choose|m: int|
                0 <= m < a.len() && (#[trigger] a[m]).span.range == b[j].span.range
                    && a[m].span.color == b[j].span.color && a[m].number == b[j].number;
            assert(span_highlight(a[k], mode) == span_highlight(a[m], mode));
        }
    }
    assert forall|x: (Highlight, TextRange)|
        #[trigger] is_of_span(x, a, mode) <==> is_of_span(x, b, mode) by {
        if is_of_span(x, a, mode) {
            lemma_occurring_highlights(x, a, b, mode);
        }
        if is_of_span(x, b, mode) {
            lemma_occurring_highlights(x, b, a, mode);
        }
    }
    lemma_overlays_depend_on_ranges_alone(a, b, mode);
}

proof fn lemma_permuted_contains(a: Seq<NumberedSpan>, b: Seq<NumberedSpan>)
    requires
        a.to_multiset() == b.to_multiset(),
    ensures
        a.len() == b.len(),
        forall|x: NumberedSpan|
            #![trigger a.contains(x)]
            #![trigger b.contains(x)]
            a.contains(x) <==> b.contains(x),
{
    broadcast use vstd::seq_lib::group_to_multiset_ensures;

    assert(a.len() == a.to_multiset().len());
    assert forall|x: NumberedSpan|
        #![trigger a.contains(x)]
        #![trigger b.contains(x)]
        a.contains(x) <==> b.contains(x) by {
        assert(a.contains(x) <==> a.to_multiset().count(x) > 0);
        assert(b.contains(x) <==> b.to_multiset().count(x) > 0);
    }
}

proof fn lemma_permuted_numbers(
    a: Seq<NumberedSpan>,
    b: Seq<NumberedSpan>,
    mode: DocumentColorMode,
)
    requires
        a.to_multiset() == b.to_multiset(),
        numbers_tell_highlights(a, mode),
    ensures
        numbers_tell_highlights(b, mode),
{
    lemma_permuted_contains(a, b);
    assert forall|i: int, j: int|
        0 <= i < b.len() && 0 <= j < b.len() && (#[trigger] b[i]).number == (
        #[trigger] b[j]).number implies span_highlight(b[i], mode) == span_highlight(b[j], mode) by {
        assert(b.contains(b[i]) && b.contains(b[j]));
        assert(a[a.index_of(b[i])] == b[i]);
        assert(a[a.index_of(b[j])] == b[j]);
    }
}

/// How the colors of a document are shown does not depend on the order of the spans: in every field,
/// with the numbers of the highlights, in any case, and with what is painted where numbers tell
/// highlights.
pub proof fn lemma_order_of_spans_does_not_matter(
    a: Seq<NumberedSpan>,
    b: Seq<NumberedSpan>,
    mode: DocumentColorMode,
)
    requires
        a.to_multiset() == b.to_multiset(),
    ensures
        built_numbers(a, mode) == built_numbers(b, mode),
        numbers_tell_highlights(a, mode) ==> built_colors(a, mode) == built_colors(b, mode),
{
    lemma_permuted_contains(a, b);
    if mode != DocumentColorMode::Virtual {
        lemma_permuted_occur(a, b);
        lemma_permuted_occur(b, a);
        lemma_anchors_and_repetitions_do_not_matter(a, b, mode);
    } else if a.len() > 0 {
        let x = in_order(a, span_order());
        let y = in_order(b, span_order());
        lemma_rank_order::<NumberedSpan>();
        lemma_in_order(a, span_order());
        lemma_in_order(b, span_order());
        lemma_ranks_agree(x, y, span_order());
        let p = built_colors(a, mode)->0;
        let q = built_colors(b, mode)->0;
        assert forall|i: int| 0 <= i < x.len() implies x[i].span.anchor == y[i].span.anchor
            && x[i].number == y[i].number by {
            assert(span_order()(x[i], y[i]) && span_order()(y[i], x[i]));
        }
        assert(p.inline_annotations =~= q.inline_annotations);
        assert(p.inline_padding_before =~= q.inline_padding_before);
        assert(numbered_colors(p).inline_annotation_highlights =~= numbered_colors(
            q,
        ).inline_annotation_highlights);
        assert(numbered_colors(p).overlay_highlights =~= numbered_colors(q).overlay_highlights);
        if numbers_tell_highlights(a, mode) {
            lemma_permuted_numbers(a, x, mode);
            lemma_permuted_contains(x, y);
            assert forall|i: int| 0 <= i < x.len() implies span_highlight(x[i], mode)
                == span_highlight(y[i], mode) by {
                assert(y.contains(y[i]));
                assert(x[x.index_of(y[i])] == y[i]);
                assert(x[i].number == y[i].number);
            }
            assert(p.inline_annotation_highlights =~= q.inline_annotation_highlights);
        }
    }
}

proof fn lemma_permuted_occur(a: Seq<NumberedSpan>, b: Seq<NumberedSpan>)
    requires
        a.to_multiset() == b.to_multiset(),
    ensures
        all_occur_in(a, b),
{
    lemma_permuted_contains(a, b);
    assert forall|i: int| 0 <= i < a.len() implies occurs_in(#[trigger] a[i], b) by {
        assert(a.contains(a[i]));
        assert(b[b.index_of(a[i])] == a[i]);
    }
}

} // verus!
