//! What is shown for each color that a document mentions, told by the spans themselves.
use crate::color_laws::{
    are_nonempty, is_among, is_disjoint_layer, is_of_span, lemma_overlay_ranges, lemma_overlays_are_packed,
    lemma_packing_keeps_ranges_apart, span_item,
};
use crate::colors::{
    built_colors, heterogenous, highlight_order, layered, overlay_ranges, packed, paint_of,
    same_highlight, span_order, ColorsView, DocumentColorMode, Highlight, NumberedSpan, OverlayView, Paint, Rgb,
    TextRange,
};
use crate::order::{in_order, lemma_in_order, lemma_rank_order, of_rank};
use vstd::prelude::*;

verus! {

/// `paint` has the color `color`, channel by channel, behind the text if `behind`, else in it.
pub open spec fn paints(paint: Paint, color: Rgb, behind: bool) -> bool {
    match paint {
        Paint::Foreground(c) => !behind && c.red == color.red && c.green == color.green && c.blue
            == color.blue,
        Paint::Background(c) => behind && c.red == color.red && c.green == color.green && c.blue
            == color.blue,
    }
}

/// What is painted for a color is that color, channel by channel, in every mode. It is painted
/// behind the text exactly in the mode that shows backgrounds.
pub proof fn lemma_paint_has_the_color(color: Rgb, mode: DocumentColorMode)
    ensures
        paints(paint_of(color, mode), color, mode == DocumentColorMode::Background),
        paint_of(color, mode) is Background <==> mode == DocumentColorMode::Background,
        match paint_of(color, mode) {
            Paint::Foreground(c) => c.red == color.red && c.green == color.green && c.blue
                == color.blue,
            Paint::Background(c) => c.red == color.red && c.green == color.green && c.blue
                == color.blue,
        },
{
}

/// `a` comes before `b` or beside it: by the position of the swatch, then by the end of the range,
/// then by the number.
pub open spec fn comes_no_later(a: NumberedSpan, b: NumberedSpan) -> bool {
    ||| a.span.anchor < b.span.anchor
    ||| a.span.anchor == b.span.anchor && a.span.range.end < b.span.range.end
    ||| a.span.anchor == b.span.anchor && a.span.range.end == b.span.range.end && a.number
        <= b.number
}

/// Those of `spans` that come neither before nor after `x`, in the order in which they stand.
pub open spec fn beside(spans: Seq<NumberedSpan>, x: NumberedSpan) -> Seq<NumberedSpan> {
    spans.filter(
        |y: NumberedSpan|
            y.span.anchor == x.span.anchor && y.span.range.end == x.span.range.end && y.number
                == x.number,
    )
}

/// `order` holds the spans, each as often as `spans` does, and none after one that it comes before;
/// those that come neither before nor after each other stand as they do in `spans`.
pub open spec fn is_arrangement(order: Seq<NumberedSpan>, spans: Seq<NumberedSpan>) -> bool {
    &&& order.to_multiset() == spans.to_multiset()
    &&& forall|x: NumberedSpan| #[trigger] beside(order, x) == beside(spans, x)
    &&& forall|i: int, j: int|
        0 <= i < j < order.len() ==> comes_no_later(#[trigger] order[i], #[trigger] order[j])
}

/// The swatch with the index `k` is a square at the anchor of the span, in its color and with its
/// number, with a blank before it.
pub open spec fn is_swatch_of(
    colors: ColorsView<Highlight>,
    k: int,
    numbered: NumberedSpan,
) -> bool {
    &&& colors.inline_annotations[k].char_idx == numbered.span.anchor
    &&& colors.inline_annotations[k].text == seq!['\u{25A0}']
    &&& colors.inline_padding_before[k].char_idx == numbered.span.anchor
    &&& colors.inline_padding_before[k].text == seq![' ']
    &&& colors.inline_annotation_highlights[k].number == numbered.number
    &&& paints(colors.inline_annotation_highlights[k].paint, numbered.span.color, false)
}

/// The swatches of `colors` are those of `order`, one after the other, and there is nothing else.
pub open spec fn are_swatches_of(colors: ColorsView<Highlight>, order: Seq<NumberedSpan>) -> bool {
    &&& colors.inline_annotations.len() == order.len()
    &&& colors.inline_padding_before.len() == order.len()
    &&& colors.inline_annotation_highlights.len() == order.len()
    &&& colors.overlay_highlights.len() == 0
    &&& forall|k: int| 0 <= k < order.len() ==> is_swatch_of(colors, k, #[trigger] order[k])
}

/// Without spans nothing is shown. Where swatches are shown, every span has its own: a square in the
/// color of the span, at its anchor.
pub proof fn lemma_swatches_have_the_colors(spans: Seq<NumberedSpan>)
    ensures
        spans.len() == 0 ==> built_colors(spans, DocumentColorMode::Virtual) is None,
        spans.len() > 0 ==> (built_colors(spans, DocumentColorMode::Virtual) matches Some(colors)
            && exists|order: Seq<NumberedSpan>| #[trigger]
            is_arrangement(order, spans) && are_swatches_of(colors, order)),
{
    broadcast use vstd::seq_lib::group_to_multiset_ensures;

    if spans.len() > 0 {
        let mode = DocumentColorMode::Virtual;
        let order = in_order(spans, span_order());
        lemma_rank_order::<NumberedSpan>();
        lemma_in_order(spans, span_order());
        assert forall|i: int, j: int| 0 <= i < j < order.len() implies comes_no_later(
            #[trigger] order[i],
            #[trigger] order[j],
        ) by {
            assert(span_order()(order[i], order[j]));
        }
        assert forall|x: NumberedSpan| #[trigger] beside(order, x) == beside(spans, x) by {
            let le = span_order();
            let same = |y: NumberedSpan|
                y.span.anchor == x.span.anchor && y.span.range.end == x.span.range.end && y.number
                    == x.number;
            assert((|y: NumberedSpan| le(x, y) && le(y, x)) =~= same);
            assert(of_rank(order, x, le) == of_rank(spans, x, le));
        }
        let colors = built_colors(spans, mode)->0;
        assert(is_arrangement(order, spans));
        assert(are_swatches_of(colors, order));
    }
}

/// Packing one range more puts it at the end of the first layer whose last range ends before it
/// starts, and changes no other layer; where there is no such layer, it gets one of its own behind
/// the others. Nothing gives no layers.
pub proof fn lemma_packing_takes_the_first_free_layer(
    items: Seq<(Highlight, TextRange)>,
    item: (Highlight, TextRange),
)
    ensures
        packed(Seq::<(Highlight, TextRange)>::empty()).len() == 0,
        exists|p: int| #[trigger]
            is_free_layer(packed(items), item, p) && packed(items.push(item)) == if p
                < packed(items).len() {
                packed(items).update(p, packed(items)[p].push(item))
            } else {
                packed(items).push(seq![item])
            },
{
    assert(items.push(item).drop_last() == items);
    lemma_first_free_layer(packed(items), item);
}

/// Layer `p` is the first whose last range ends before `item` starts, or there is none and `p` is
/// the number of the layers.
pub open spec fn is_free_layer(
    layers: Seq<Seq<(Highlight, TextRange)>>,
    item: (Highlight, TextRange),
    p: int,
) -> bool {
    &&& 0 <= p <= layers.len()
    &&& forall|k: int| 0 <= k < p ==> item.1.start < (#[trigger] layers[k]).last().1.end
    &&& p < layers.len() ==> layers[p].last().1.end <= item.1.start
}

proof fn lemma_first_free_layer(
    layers: Seq<Seq<(Highlight, TextRange)>>,
    item: (Highlight, TextRange),
)
    ensures
        exists|p: int| #[trigger]
            is_free_layer(layers, item, p) && layered(layers, item) == if p < layers.len() {
                layers.update(p, layers[p].push(item))
            } else {
                layers.push(seq![item])
            },
    decreases layers.len(),
{
    if layers.len() == 0 {
        assert(is_free_layer(layers, item, 0));
        assert(layered(layers, item) == layers.push(seq![item]));
    } else if item.1.start >= layers[0].last().1.end {
        assert(is_free_layer(layers, item, 0));
        assert(layered(layers, item) == layers.update(0, layers[0].push(item)));
    } else {
        let rest = layers.drop_first();
        lemma_first_free_layer(rest, item);
        let q = choose|p: int| #[trigger]
            is_free_layer(rest, item, p) && layered(rest, item) == if p < rest.len() {
                rest.update(p, rest[p].push(item))
            } else {
                rest.push(seq![item])
            };
        let p = q + 1;
        assert forall|k: int| 0 <= k < p implies item.1.start < (#[trigger] layers[k]).last().1.end by {
            if k > 0 {
                assert(layers[k] == rest[k - 1]);
            }
        }
        assert(is_free_layer(layers, item, p));
        if p < layers.len() {
            assert(layered(layers, item) == layers.update(p, layers[p].push(item)));
        } else {
            assert(layered(layers, item) == layers.push(seq![item]));
        }
    }
}

/// There is a range in the place `i` of layer `k`.
pub open spec fn is_place(layers: Seq<Seq<(Highlight, TextRange)>>, k: int, i: int) -> bool {
    0 <= k < layers.len() && 0 <= i < layers[k].len()
}

/// The ranges start after each other, or they start together, the shorter first, and where they are
/// equal the one with the lower number first; no two have both number and range in common.
pub open spec fn is_strictly_sorted(items: Seq<(Highlight, TextRange)>) -> bool {
    forall|i: int, j: int|
        0 <= i < j < items.len() ==> starts_sooner(#[trigger] items[i], #[trigger] items[j])
}

pub open spec fn starts_sooner(a: (Highlight, TextRange), b: (Highlight, TextRange)) -> bool {
    ||| a.1.start < b.1.start
    ||| a.1.start == b.1.start && a.1.end < b.1.end
    ||| a.1.start == b.1.start && a.1.end == b.1.end && a.0.number < b.0.number
}

/// A range in layer `m` holds the character at which the range in the place `i` of layer `k` starts.
pub open spec fn is_blocked(
    layers: Seq<Seq<(Highlight, TextRange)>>,
    k: int,
    i: int,
    m: int,
) -> bool {
    exists|j: int| #[trigger]
        is_place(layers, m, j) && layers[m][j].1.start <= layers[k][i].1.start
            && layers[k][i].1.start < layers[m][j].1.end
}

/// A range stands in no higher layer than it has to: every lower layer holds the character at which
/// it starts.
pub open spec fn are_as_low_as_can_be(layers: Seq<Seq<(Highlight, TextRange)>>) -> bool {
    forall|k: int, i: int, m: int|
        #![trigger is_place(layers, k, i), is_blocked(layers, k, i, m)]
        is_place(layers, k, i) && 0 <= m < k ==> is_blocked(layers, k, i, m)
}

/// Of two ranges that start together, the one that ends sooner is in the lower layer; where they
/// are equal, the one with the lower number.
pub open spec fn are_shorter_ones_lower(layers: Seq<Seq<(Highlight, TextRange)>>) -> bool {
    forall|k: int, i: int, m: int, j: int|
        (#[trigger] is_place(layers, k, i) && #[trigger] is_place(layers, m, j) && k < m
            && layers[k][i].1.start == layers[m][j].1.start) ==> starts_sooner(
            layers[k][i],
            layers[m][j],
        )
}

/// No two places hold the same number with the same range.
pub open spec fn are_all_different(layers: Seq<Seq<(Highlight, TextRange)>>) -> bool {
    forall|k: int, i: int, m: int, j: int|
        (#[trigger] is_place(layers, k, i) && #[trigger] is_place(layers, m, j) && (k != m || i
            != j)) ==> layers[k][i].1 != layers[m][j].1 || layers[k][i].0.number
            != layers[m][j].0.number
}

/// Every range stands somewhere.
pub open spec fn has_place(
    layers: Seq<Seq<(Highlight, TextRange)>>,
    item: (Highlight, TextRange),
) -> bool {
    exists|k: int, i: int| #[trigger] is_place(layers, k, i) && layers[k][i] == item
}

proof fn lemma_packed_places(items: Seq<(Highlight, TextRange)>)
    requires
        are_nonempty(items),
        is_strictly_sorted(items),
    ensures
        forall|k: int, i: int| #[trigger]
            is_place(packed(items), k, i) ==> items.contains(packed(items)[k][i]),
        forall|n: int| 0 <= n < items.len() ==> has_place(packed(items), #[trigger] items[n]),
        are_as_low_as_can_be(packed(items)),
        are_shorter_ones_lower(packed(items)),
        are_all_different(packed(items)),
    decreases items.len(),
{
    if items.len() > 0 {
        let front = items.drop_last();
        let item = items.last();
        let last_item = items.len() - 1;
        assert forall|i: int| 0 <= i < front.len() implies (#[trigger] front[i]).1.start
            < front[i].1.end && starts_sooner(front[i], item) by {
            assert(front[i] == items[i]);
            assert(starts_sooner(items[i], items[last_item]));
        }
        assert(is_strictly_sorted(front)) by {
            assert forall|i: int, j: int| 0 <= i < j < front.len() implies starts_sooner(
                #[trigger] front[i],
                #[trigger] front[j],
            ) by {
                assert(starts_sooner(items[i], items[j]));
            }
        }
        lemma_packed_places(front);
        lemma_packing_keeps_ranges_apart(front);
        let layers = packed(front);
        let out = packed(items);
        lemma_first_free_layer(layers, item);
        let p = choose|p: int| #[trigger]
            is_free_layer(layers, item, p) && layered(layers, item) == if p < layers.len() {
                layers.update(p, layers[p].push(item))
            } else {
                layers.push(seq![item])
            };
        let q = if p < layers.len() {
            layers[p].len() as int
        } else {
            0
        };
        assert(out[p][q] == item);
        assert(is_place(out, p, q));
        assert forall|k: int, i: int| #[trigger] is_place(out, k, i) && (k != p || i != q) implies is_place(
            layers,
            k,
            i,
        ) && out[k][i] == layers[k][i] && items.contains(out[k][i]) && starts_sooner(
            out[k][i],
            item,
        ) by {
            assert(is_place(layers, k, i));
            assert(front.contains(layers[k][i]));
            let n = front.index_of(layers[k][i]);
            assert(items[n] == front[n]);
        }
        assert forall|k: int, i: int| #[trigger] is_place(layers, k, i) implies is_place(out, k, i)
            && out[k][i] == layers[k][i] && (k != p || i != q) by {
        }
        assert forall|k: int, i: int| #[trigger] is_place(out, k, i) implies items.contains(
            out[k][i],
        ) by {
            assert(items[last_item] == item);
        }
        assert forall|n: int| 0 <= n < items.len() implies has_place(out, #[trigger] items[n]) by {
            if n < front.len() {
                assert(items[n] == front[n]);
                assert(has_place(layers, front[n]));
                let (k, i) = choose|k: int, i: int| #[trigger]
                    is_place(layers, k, i) && layers[k][i] == front[n];
                assert(is_place(out, k, i));
            }
        }
        // What lies at the end of a layer ends last in it.
        assert forall|k: int, i: int| #[trigger] is_place(layers, k, i) implies layers[k][i].1.end
            <= layers[k].last().1.end by {
            assert(is_disjoint_layer(layers[k]));
            let end = layers[k].len() - 1;
            if i < end {
                assert(layers[k][i].1.end <= layers[k][end].1.start);
                assert(layers[k][end].1.start < layers[k][end].1.end);
            }
        }
        assert forall|k: int, i: int, m: int|
            #![trigger is_place(out, k, i), is_blocked(out, k, i, m)]
            is_place(out, k, i) && 0 <= m < k implies is_blocked(out, k, i, m) by {
            if k == p && i == q {
                let end = layers[m].len() - 1;
                assert(layers[m].len() > 0);
                assert(item.1.start < layers[m].last().1.end);
                assert(is_place(layers, m, end));
                assert(is_place(out, m, end));
            } else {
                assert(is_place(layers, k, i));
                assert(is_blocked(layers, k, i, m));
                let j = choose|j: int| #[trigger]
                    is_place(layers, m, j) && layers[m][j].1.start <= layers[k][i].1.start
                        && layers[k][i].1.start < layers[m][j].1.end;
                assert(is_place(out, m, j));
            }
        }
        assert forall|k: int, i: int, m: int, j: int|
            (#[trigger] is_place(out, k, i) && #[trigger] is_place(out, m, j) && k < m
                && out[k][i].1.start == out[m][j].1.start) implies starts_sooner(
            out[k][i],
            out[m][j],
        ) by {
            if k == p && i == q {
                // The new range would have been blocked in its layer.
                assert(is_place(layers, m, j));
                assert(is_blocked(layers, m, j, k));
                let n = choose|n: int| #[trigger]
                    is_place(layers, k, n) && layers[k][n].1.start <= layers[m][j].1.start
                        && layers[m][j].1.start < layers[k][n].1.end;
                assert(layers[k][n].1.end <= layers[k].last().1.end);
                assert(false);
            } else if m == p && j == q {
            } else {
                assert(is_place(layers, k, i) && is_place(layers, m, j));
            }
        }
        assert forall|k: int, i: int, m: int, j: int|
            (#[trigger] is_place(out, k, i) && #[trigger] is_place(out, m, j) && (k != m || i
                != j)) implies out[k][i].1 != out[m][j].1 || out[k][i].0.number
            != out[m][j].0.number by {
            if (k != p || i != q) && (m != p || j != q) {
                assert(is_place(layers, k, i) && is_place(layers, m, j));
            }
        }
    }
}

/// The ranges of a layer of highlights that differ from each other.
pub open spec fn layer_of(overlay: OverlayView<Highlight>) -> Seq<(Highlight, TextRange)> {
    match overlay {
        OverlayView::Heterogenous { highlights } => highlights,
        OverlayView::Homogeneous { .. } => Seq::empty(),
    }
}

pub open spec fn layers_of(overlays: Seq<OverlayView<Highlight>>) -> Seq<
    Seq<(Highlight, TextRange)>,
> {
    Seq::new(overlays.len(), |k: int| layer_of(overlays[k]))
}

/// `item` is in the place of the span: it has its range, which is not empty, and its number.
pub open spec fn is_placed_for(item: (Highlight, TextRange), numbered: NumberedSpan) -> bool {
    &&& item.1.start == numbered.span.range.start
    &&& item.1.end == numbered.span.range.end
    &&& item.1.start < item.1.end
    &&& item.0.number == numbered.number
}

/// `item` shows one of `spans` in its color.
pub open spec fn shows_one_of(
    item: (Highlight, TextRange),
    spans: Seq<NumberedSpan>,
    behind: bool,
) -> bool {
    exists|n: int|
        0 <= n < spans.len() && is_placed_for(item, #[trigger] spans[n]) && paints(
            item.0.paint,
            spans[n].span.color,
            behind,
        )
}

/// Some place shows the span with its number, in the color of a span with that number and range.
pub open spec fn is_shown_in(
    layers: Seq<Seq<(Highlight, TextRange)>>,
    numbered: NumberedSpan,
) -> bool {
    exists|k: int, i: int| #[trigger]
        is_place(layers, k, i) && is_placed_for(layers[k][i], numbered)
}

/// Some place shows the span with its number and in its own color.
pub open spec fn is_shown_in_color(
    layers: Seq<Seq<(Highlight, TextRange)>>,
    numbered: NumberedSpan,
    behind: bool,
) -> bool {
    exists|k: int, i: int| #[trigger]
        is_place(layers, k, i) && is_placed_for(layers[k][i], numbered) && paints(
            layers[k][i].0.paint,
            numbered.span.color,
            behind,
        )
}

/// Spans with one number have one color.
pub open spec fn do_numbers_tell_colors(spans: Seq<NumberedSpan>) -> bool {
    forall|i: int, j: int|
        0 <= i < spans.len() && 0 <= j < spans.len() && (#[trigger] spans[i]).number == (
        #[trigger] spans[j]).number ==> spans[i].span.color == spans[j].span.color
}

pub open spec fn has_extent(numbered: NumberedSpan) -> bool {
    numbered.span.range.start < numbered.span.range.end
}

/// Where the text itself shows the colors, every highlighted range is that of a span, with the
/// number and in the color of the span, and every span with a range that is not empty is shown,
/// once for its number and range. Without such a span nothing is shown. No two ranges of a layer
/// overlap, none is in a higher layer than it has to be, and of those that start together the
/// shorter ones are lower.
pub proof fn lemma_overlays_have_the_colors(spans: Seq<NumberedSpan>, mode: DocumentColorMode)
    requires
        mode != DocumentColorMode::Virtual,
    ensures
        built_colors(spans, mode) is None <==> forall|n: int|
            0 <= n < spans.len() ==> !has_extent(#[trigger] spans[n]),
        built_colors(spans, mode) matches Some(colors) ==> {
            let layers = layers_of(colors.overlay_highlights);
            let behind = mode == DocumentColorMode::Background;
            &&& colors.inline_annotations.len() == 0
            &&& colors.inline_annotation_highlights.len() == 0
            &&& colors.inline_padding_before.len() == 0
            &&& forall|k: int|
                0 <= k < layers.len() ==> (#[trigger] colors.overlay_highlights[k]) is Heterogenous
            &&& forall|k: int|
                0 <= k < layers.len() ==> (#[trigger] layers[k]).len() > 0 && is_disjoint_layer(
                    layers[k],
                )
            &&& forall|k: int, i: int| #[trigger]
                is_place(layers, k, i) ==> shows_one_of(layers[k][i], spans, behind)
            &&& forall|n: int|
                0 <= n < spans.len() && has_extent(#[trigger] spans[n]) ==> is_shown_in(
                    layers,
                    spans[n],
                ) && (do_numbers_tell_colors(spans) ==> is_shown_in_color(layers, spans[n], behind))
            &&& are_all_different(layers)
            &&& are_as_low_as_can_be(layers)
            &&& are_shorter_ones_lower(layers)
        },
{
    lemma_overlays_are_packed(spans, mode);
    if built_colors(spans, mode) is Some {
        let colors = built_colors(spans, mode)->0;
        let items = overlay_ranges(spans, mode);
        let layers = layers_of(colors.overlay_highlights);
        let behind = mode == DocumentColorMode::Background;
        lemma_overlay_ranges(spans, mode);
        lemma_packing_keeps_ranges_apart(items);
        assert(layers == packed(items));
        assert forall|k: int| 0 <= k < layers.len() implies (
        #[trigger] colors.overlay_highlights[k]) is Heterogenous by {
            assert(colors.overlay_highlights == heterogenous(packed(items)));
        }
        assert(is_strictly_sorted(items)) by {
            assert forall|i: int, j: int| 0 <= i < j < items.len() implies starts_sooner(
                #[trigger] items[i],
                #[trigger] items[j],
            ) by {
                assert(highlight_order()(items[i], items[j]));
                assert(!same_highlight(items[i], items[j]));
            }
        }
        lemma_packed_places(items);
        assert forall|k: int, i: int| #[trigger] is_place(layers, k, i) implies shows_one_of(
            layers[k][i],
            spans,
            behind,
        ) by {
            assert(items.contains(layers[k][i]));
            let m = items.index_of(layers[k][i]);
            assert(is_of_span(items[m], spans, mode));
            let n = choose|n: int|
                0 <= n < spans.len() && (#[trigger] spans[n]).span.range.start
                    < spans[n].span.range.end && items[m] == span_item(spans[n], mode);
            lemma_paint_has_the_color(spans[n].span.color, mode);
            assert(is_placed_for(layers[k][i], spans[n]));
        }
        assert forall|n: int| 0 <= n < spans.len() && has_extent(#[trigger] spans[n]) implies is_shown_in(
            layers,
            spans[n],
        ) && (do_numbers_tell_colors(spans) ==> is_shown_in_color(layers, spans[n], behind)) by {
            assert(is_among(span_item(spans[n], mode), items));
            let m = choose|m: int|
                0 <= m < items.len() && same_highlight(
                    #[trigger] items[m],
                    span_item(spans[n], mode),
                );
            assert(has_place(layers, items[m]));
            let (k, i) = choose|k: int, i: int| #[trigger]
                is_place(layers, k, i) && layers[k][i] == items[m];
            assert(is_placed_for(layers[k][i], spans[n]));
            if do_numbers_tell_colors(spans) {
                assert(shows_one_of(layers[k][i], spans, behind));
                let o = choose|o: int|
                    0 <= o < spans.len() && is_placed_for(layers[k][i], #[trigger] spans[o])
                        && paints(layers[k][i].0.paint, spans[o].span.color, behind);
                assert(spans[o].number == spans[n].number);
                assert(spans[o].span.color == spans[n].span.color);
            }
        }
    }
    if exists|n: int| 0 <= n < spans.len() && has_extent(#[trigger] spans[n]) {
        let n = choose|n: int| 0 <= n < spans.len() && has_extent(#[trigger] spans[n]);
        assert(spans[n].span.range.start < spans[n].span.range.end);
    } else {
        assert forall|n: int| 0 <= n < spans.len() implies !((
        #[trigger] spans[n]).span.range.start < spans[n].span.range.end) by {
            assert(!has_extent(spans[n]));
        }
    }
}

} // verus!
