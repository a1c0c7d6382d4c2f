//! What building and moving document colors keep.
use crate::color_laws::{is_disjoint_layer, lemma_overlays_are_packed, lemma_swatches};
use crate::color_moves::{
    colors_moved, highlights_moved, lemma_moved_ranges_stay_apart, lemma_unmoved_layers_stay,
    moves_fit, moves_nothing, overlay_fits, overlay_moved, overlay_moves_views, overlays_moved,
    range_at, range_count, ranges_moved, shows_something, unmoved_overlay, ColorMoves,
    OverlayMovesView,
};
use crate::colors::{
    built_colors, heterogenous, overlay_ranges, packed, ColorsView, DocumentColorMode,
    NumberedSpan, OverlayView, TextRange,
};
use vstd::prelude::*;

verus! {

/// The ranges of a layer, each with its highlight.
pub open spec fn layer_of<H>(overlay: OverlayView<H>) -> Seq<(H, TextRange)> {
    match overlay {
        OverlayView::Homogeneous { highlight, ranges } => Seq::new(
            ranges.len(),
            |i: int| (highlight, ranges[i]),
        ),
        OverlayView::Heterogenous { highlights } => highlights,
    }
}

/// The layer shows something: it has ranges, none of which is empty, and no two of which overlap.
pub open spec fn is_tidy_layer<H>(overlay: OverlayView<H>) -> bool {
    range_count(overlay) > 0 && is_disjoint_layer(layer_of(overlay))
}

pub open spec fn are_tidy_layers<H>(overlays: Seq<OverlayView<H>>) -> bool {
    forall|k: int| 0 <= k < overlays.len() ==> is_tidy_layer(#[trigger] overlays[k])
}

/// Every swatch has a blank and a highlight, and every layer shows something without overlaps.
pub open spec fn is_tidy<H>(colors: ColorsView<H>) -> bool {
    &&& colors.inline_padding_before.len() == colors.inline_annotations.len()
    &&& colors.inline_annotation_highlights.len() == colors.inline_annotations.len()
    &&& are_tidy_layers(colors.overlay_highlights)
}

/// What is built from spans is tidy.
pub proof fn lemma_built_colors_are_tidy(spans: Seq<NumberedSpan>, mode: DocumentColorMode)
    ensures
        built_colors(spans, mode) matches Some(colors) ==> is_tidy(colors),
{
    if mode == DocumentColorMode::Virtual {
        if spans.len() > 0 {
            lemma_swatches(spans);
        }
    } else {
        lemma_overlays_are_packed(spans, mode);
        if built_colors(spans, mode) is Some {
            let layers = packed(overlay_ranges(spans, mode));
            let overlays = heterogenous(layers);
            assert forall|k: int| 0 <= k < overlays.len() implies is_tidy_layer(
                #[trigger] overlays[k],
            ) by {
                assert(layer_of(overlays[k]) == layers[k]);
                assert(layers[k].len() > 0);
            }
        }
    }
}

/// The positions of a layer are moved by `start_to` and `end_to`.
pub open spec fn moves_by<H>(
    overlay: OverlayView<H>,
    moves: OverlayMovesView,
    start_to: spec_fn(usize) -> usize,
    end_to: spec_fn(usize) -> usize,
) -> bool {
    &&& overlay_fits(overlay, moves)
    &&& forall|i: int|
        0 <= i < moves.starts.len() ==> #[trigger] moves.starts[i] == start_to(
            range_at(overlay, i).start,
        )
    &&& forall|i: int|
        0 <= i < moves.ends.len() ==> #[trigger] moves.ends[i] == end_to(range_at(overlay, i).end)
}

/// No end passes a start that was not before it: text is inserted or removed, but stays in order.
pub open spec fn keeps_order(
    start_to: spec_fn(usize) -> usize,
    end_to: spec_fn(usize) -> usize,
) -> bool {
    forall|a: usize, b: usize| a <= b ==> #[trigger] end_to(a) <= #[trigger] start_to(b)
}

proof fn lemma_ranges_moved_alike<H>(
    highlight: H,
    ranges: Seq<TextRange>,
    pairs: Seq<(H, TextRange)>,
    moves: OverlayMovesView,
)
    requires
        pairs == Seq::new(ranges.len(), |i: int| (highlight, ranges[i])),
    ensures
        highlights_moved(pairs, moves) == Seq::new(
            ranges_moved(ranges, moves).len(),
            |i: int| (highlight, ranges_moved(ranges, moves)[i]),
        ),
    decreases ranges.len(),
{
    if ranges.len() > 0 {
        let front = Seq::new(
            ranges.drop_last().len(),
            |i: int| (highlight, ranges.drop_last()[i]),
        );
        assert(pairs.drop_last() =~= front);
        lemma_ranges_moved_alike(highlight, ranges.drop_last(), front, moves);
        assert(pairs[ranges.len() - 1].0 == highlight);
    }
    assert(highlights_moved(pairs, moves) =~= Seq::new(
        ranges_moved(ranges, moves).len(),
        |i: int| (highlight, ranges_moved(ranges, moves)[i]),
    ));
}

/// Moving a layer moves its ranges and keeps their highlights.
pub proof fn lemma_layer_moved<H>(overlay: OverlayView<H>, moves: OverlayMovesView)
    ensures
        layer_of(overlay_moved(overlay, moves)) == highlights_moved(layer_of(overlay), moves),
        range_count(overlay_moved(overlay, moves)) == highlights_moved(
            layer_of(overlay),
            moves,
        ).len(),
{
    match overlay {
        OverlayView::Homogeneous { highlight, ranges } => {
            lemma_ranges_moved_alike(highlight, ranges, layer_of(overlay), moves);
        },
        OverlayView::Heterogenous { highlights } => {},
    }
}

proof fn lemma_moved_layers_are_tidy<H>(
    overlays: Seq<OverlayView<H>>,
    moves: Seq<OverlayMovesView>,
    start_to: spec_fn(usize) -> usize,
    end_to: spec_fn(usize) -> usize,
)
    requires
        are_tidy_layers(overlays),
        keeps_order(start_to, end_to),
        forall|k: int|
            0 <= k < overlays.len() ==> moves_by(#[trigger] overlays[k], moves[k], start_to, end_to),
    ensures
        are_tidy_layers(overlays_moved(overlays, moves)),
    decreases overlays.len(),
{
    if overlays.len() > 0 {
        let n = overlays.len() - 1;
        let front = overlays.drop_last();
        assert forall|k: int| 0 <= k < front.len() implies is_tidy_layer(#[trigger] front[k])
            && moves_by(front[k], moves[k], start_to, end_to) by {
            assert(front[k] == overlays[k]);
        }
        lemma_moved_layers_are_tidy(front, moves, start_to, end_to);
        let layer = layer_of(overlays[n]);
        assert(is_tidy_layer(overlays[n]));
        assert(moves_by(overlays[n], moves[n], start_to, end_to));
        assert forall|i: int| 0 <= i < layer.len() implies #[trigger] moves[n].starts[i] == start_to(
            layer[i].1.start,
        ) by {
            assert(range_at(overlays[n], i) == layer[i].1);
        }
        assert forall|i: int| 0 <= i < layer.len() implies #[trigger] moves[n].ends[i] == end_to(
            layer[i].1.end,
        ) by {
            assert(range_at(overlays[n], i) == layer[i].1);
        }
        lemma_moved_ranges_stay_apart(layer, moves[n], start_to, end_to);
        lemma_layer_moved(overlays[n], moves[n]);
        let before = overlays_moved(front, moves);
        let out = overlays_moved(overlays, moves);
        assert forall|k: int| 0 <= k < out.len() implies is_tidy_layer(#[trigger] out[k]) by {
            if k < before.len() {
                assert(out[k] == before[k]);
            } else {
                assert(out[k] == overlay_moved(overlays[n], moves[n]));
            }
        }
    }
}

/// Tidy colors are tidy after an update, where text is moved in order.
pub proof fn lemma_moved_colors_are_tidy<H>(
    colors: ColorsView<H>,
    moves: ColorMoves,
    start_to: spec_fn(usize) -> usize,
    end_to: spec_fn(usize) -> usize,
)
    requires
        is_tidy(colors),
        moves_fit(colors, moves),
        keeps_order(start_to, end_to),
        forall|k: int|
            0 <= k < colors.overlay_highlights.len() ==> moves_by(
                #[trigger] colors.overlay_highlights[k],
                moves.overlays@[k]@,
                start_to,
                end_to,
            ),
    ensures
        is_tidy(colors_moved(colors, moves)),
{
    let views = overlay_moves_views(moves.overlays@);
    assert forall|k: int| 0 <= k < colors.overlay_highlights.len() implies moves_by(
        #[trigger] colors.overlay_highlights[k],
        views[k],
        start_to,
        end_to,
    ) by {}
    lemma_moved_layers_are_tidy(colors.overlay_highlights, views, start_to, end_to);
}

/// An update that moves nothing changes nothing in tidy colors.
pub proof fn lemma_unmoved_colors_stay<H>(colors: ColorsView<H>, moves: ColorMoves)
    requires
        is_tidy(colors),
        moves_nothing(colors, moves),
    ensures
        colors_moved(colors, moves) == colors,
{
    let overlays = colors.overlay_highlights;
    let views = overlay_moves_views(moves.overlays@);
    assert forall|k: int| 0 <= k < overlays.len() implies shows_something(#[trigger] overlays[k])
        && views[k] == unmoved_overlay(overlays[k]) by {
        assert(is_tidy_layer(overlays[k]));
        assert(moves.overlays@[k]@ == unmoved_overlay(overlays[k]));
        let layer = layer_of(overlays[k]);
        assert forall|i: int| 0 <= i < range_count(overlays[k]) implies (#[trigger] range_at(
            overlays[k],
            i,
        )).start < range_at(overlays[k], i).end by {
            assert(layer[i].1 == range_at(overlays[k], i));
        }
    }
    lemma_unmoved_layers_stay(overlays, views);
    let after = colors_moved(colors, moves);
    assert(after.inline_annotations =~= colors.inline_annotations);
    assert(after.inline_padding_before =~= colors.inline_padding_before);
}

} // verus!
