//! Where document colors are after their document has changed.
use crate::color_moves::{
    colors_moved, highlights_moved, keep_their_sides, moves_fit, overlay_fits, overlay_moved,
    overlay_moves_views, overlays_moved, range_at, ranges_moved, ColorMoves,
    OverlayMovesView, Side,
};
use crate::colors::{AnnotationView, ColorsView, OverlayView, TextRange};
use vstd::prelude::*;

verus! {

/// A change of a document: where a position goes that keeps to the given side of inserted text.
pub type Change = spec_fn(usize, Side) -> usize;

/// The range after a change: it starts behind text that is inserted at its start, and ends before
/// text that is inserted at its end.
pub open spec fn range_mapped(range: TextRange, change: Change) -> TextRange {
    TextRange { start: change(range.start, Side::After), end: change(range.end, Side::Before) }
}

pub open spec fn ranges_mapped(ranges: Seq<TextRange>, change: Change) -> Seq<TextRange> {
    Seq::new(ranges.len(), |i: int| range_mapped(ranges[i], change))
}

pub open spec fn highlights_mapped<H>(
    highlights: Seq<(H, TextRange)>,
    change: Change,
) -> Seq<(H, TextRange)> {
    Seq::new(highlights.len(), |i: int| (highlights[i].0, range_mapped(highlights[i].1, change)))
}

pub open spec fn is_not_empty() -> spec_fn(TextRange) -> bool {
    |range: TextRange| range.start < range.end
}

pub open spec fn highlights_something<H>() -> spec_fn((H, TextRange)) -> bool {
    |highlight: (H, TextRange)| highlight.1.start < highlight.1.end
}

pub open spec fn has_ranges<H>() -> spec_fn(OverlayView<H>) -> bool {
    |overlay: OverlayView<H>|
        match overlay {
            OverlayView::Homogeneous { highlight, ranges } => ranges.len() > 0,
            OverlayView::Heterogenous { highlights } => highlights.len() > 0,
        }
}

/// The layer after a change: exactly the ranges that are not empty then, in order.
pub open spec fn overlay_mapped<H>(overlay: OverlayView<H>, change: Change) -> OverlayView<H> {
    match overlay {
        OverlayView::Homogeneous { highlight, ranges } => OverlayView::Homogeneous {
            highlight,
            ranges: ranges_mapped(ranges, change).filter(is_not_empty()),
        },
        OverlayView::Heterogenous { highlights } => OverlayView::Heterogenous {
            highlights: highlights_mapped(highlights, change).filter(highlights_something::<H>()),
        },
    }
}

pub open spec fn overlays_mapped<H>(
    overlays: Seq<OverlayView<H>>,
    change: Change,
) -> Seq<OverlayView<H>> {
    Seq::new(overlays.len(), |k: int| overlay_mapped(overlays[k], change))
}

/// The annotations after a change: all of them, in order, behind text that is inserted at them.
pub open spec fn annotations_mapped(
    annotations: Seq<AnnotationView>,
    change: Change,
) -> Seq<AnnotationView> {
    Seq::new(
        annotations.len(),
        |i: int|
            AnnotationView {
                char_idx: change(annotations[i].char_idx, Side::After),
                text: annotations[i].text,
            },
    )
}

/// The colors after a change: all annotations with their highlights, and the layers that have
/// ranges then.
pub open spec fn colors_mapped<H>(colors: ColorsView<H>, change: Change) -> ColorsView<H> {
    ColorsView {
        inline_annotations: annotations_mapped(colors.inline_annotations, change),
        inline_annotation_highlights: colors.inline_annotation_highlights,
        inline_padding_before: annotations_mapped(colors.inline_padding_before, change),
        overlay_highlights: overlays_mapped(colors.overlay_highlights, change).filter(
            has_ranges::<H>(),
        ),
    }
}

/// The starts and the ends of a layer are moved as the change moves them, the starts on the side
/// `start_side` and the ends on the side `end_side`.
pub open spec fn overlay_follows<H>(
    overlay: OverlayView<H>,
    moves: OverlayMovesView,
    start_side: Side,
    end_side: Side,
    change: Change,
) -> bool {
    &&& overlay_fits(overlay, moves)
    &&& forall|i: int|
        0 <= i < moves.starts.len() ==> #[trigger] moves.starts[i] == change(
            range_at(overlay, i).start,
            start_side,
        )
    &&& forall|i: int|
        0 <= i < moves.ends.len() ==> #[trigger] moves.ends[i] == change(
            range_at(overlay, i).end,
            end_side,
        )
}

/// Every position of the colors is moved as the change moves it, on the side that the position
/// keeps to.
pub open spec fn moves_follow<H>(
    colors: ColorsView<H>,
    moves: ColorMoves,
    change: Change,
) -> bool {
    &&& moves_fit(colors, moves)
    &&& forall|i: int|
        0 <= i < moves.annotations.at@.len() ==> #[trigger] moves.annotations.at@[i] == change(
            colors.inline_annotations[i].char_idx,
            moves.annotations.side,
        )
    &&& forall|i: int|
        0 <= i < moves.paddings.at@.len() ==> #[trigger] moves.paddings.at@[i] == change(
            colors.inline_padding_before[i].char_idx,
            moves.paddings.side,
        )
    &&& forall|k: int|
        0 <= k < moves.overlays@.len() ==> overlay_follows(
            colors.overlay_highlights[k],
            (#[trigger] moves.overlays@[k])@,
            moves.overlays@[k].starts.side,
            moves.overlays@[k].ends.side,
            change,
        )
}

proof fn lemma_ranges_follow(
    ranges: Seq<TextRange>,
    moves: OverlayMovesView,
    change: Change,
    n: int,
)
    requires
        0 <= n <= ranges.len(),
        forall|i: int|
            0 <= i < ranges.len() ==> #[trigger] moves.starts[i] == change(
                ranges[i].start,
                Side::After,
            ),
        forall|i: int|
            0 <= i < ranges.len() ==> #[trigger] moves.ends[i] == change(
                ranges[i].end,
                Side::Before,
            ),
    ensures
        ranges_moved(ranges.take(n), moves) == ranges_mapped(ranges.take(n), change).filter(
            is_not_empty(),
        ),
    decreases n,
{
    reveal(Seq::filter);
    if n > 0 {
        lemma_ranges_follow(ranges, moves, change, n - 1);
        assert(ranges.take(n).drop_last() == ranges.take(n - 1));
        let before = ranges_mapped(ranges.take(n - 1), change);
        let last = range_mapped(ranges[n - 1], change);
        assert(ranges_mapped(ranges.take(n), change) =~= before.push(last));
        before.lemma_filter_push(last, is_not_empty());
        assert(moves.starts[n - 1] == last.start && moves.ends[n - 1] == last.end);
    } else {
        assert(ranges_mapped(ranges.take(0), change) =~= Seq::empty());
    }
}

proof fn lemma_highlights_follow<H>(
    highlights: Seq<(H, TextRange)>,
    moves: OverlayMovesView,
    change: Change,
    n: int,
)
    requires
        0 <= n <= highlights.len(),
        forall|i: int|
            0 <= i < highlights.len() ==> #[trigger] moves.starts[i] == change(
                highlights[i].1.start,
                Side::After,
            ),
        forall|i: int|
            0 <= i < highlights.len() ==> #[trigger] moves.ends[i] == change(
                highlights[i].1.end,
                Side::Before,
            ),
    ensures
        highlights_moved(highlights.take(n), moves) == highlights_mapped(
            highlights.take(n),
            change,
        ).filter(highlights_something::<H>()),
    decreases n,
{
    reveal(Seq::filter);
    if n > 0 {
        lemma_highlights_follow(highlights, moves, change, n - 1);
        assert(highlights.take(n).drop_last() == highlights.take(n - 1));
        let before = highlights_mapped(highlights.take(n - 1), change);
        let last = (highlights[n - 1].0, range_mapped(highlights[n - 1].1, change));
        assert(highlights_mapped(highlights.take(n), change) =~= before.push(last));
        before.lemma_filter_push(last, highlights_something::<H>());
        assert(moves.starts[n - 1] == last.1.start && moves.ends[n - 1] == last.1.end);
    } else {
        assert(highlights_mapped(highlights.take(0), change) =~= Seq::empty());
    }
}

proof fn lemma_overlay_follows<H>(
    overlay: OverlayView<H>,
    moves: OverlayMovesView,
    change: Change,
)
    requires
        overlay_follows(overlay, moves, Side::After, Side::Before, change),
    ensures
        overlay_moved(overlay, moves) == overlay_mapped(overlay, change),
{
    match overlay {
        OverlayView::Homogeneous { highlight, ranges } => {
            assert forall|i: int| 0 <= i < ranges.len() implies #[trigger] moves.starts[i] == change(
                ranges[i].start,
                Side::After,
            ) by {
                assert(range_at(overlay, i) == ranges[i]);
            }
            assert forall|i: int| 0 <= i < ranges.len() implies #[trigger] moves.ends[i] == change(
                ranges[i].end,
                Side::Before,
            ) by {
                assert(range_at(overlay, i) == ranges[i]);
            }
            lemma_ranges_follow(ranges, moves, change, ranges.len() as int);
            assert(ranges.take(ranges.len() as int) == ranges);
        },
        OverlayView::Heterogenous { highlights } => {
            assert forall|i: int| 0 <= i < highlights.len() implies #[trigger] moves.starts[i]
                == change(highlights[i].1.start, Side::After) by {
                assert(range_at(overlay, i) == highlights[i].1);
            }
            assert forall|i: int| 0 <= i < highlights.len() implies #[trigger] moves.ends[i]
                == change(highlights[i].1.end, Side::Before) by {
                assert(range_at(overlay, i) == highlights[i].1);
            }
            lemma_highlights_follow(highlights, moves, change, highlights.len() as int);
            assert(highlights.take(highlights.len() as int) == highlights);
        },
    }
}

proof fn lemma_overlays_follow<H>(
    overlays: Seq<OverlayView<H>>,
    moves: Seq<OverlayMovesView>,
    change: Change,
    n: int,
)
    requires
        0 <= n <= overlays.len(),
        forall|k: int|
            0 <= k < overlays.len() ==> overlay_follows(
                #[trigger] overlays[k],
                moves[k],
                Side::After,
                Side::Before,
                change,
            ),
    ensures
        overlays_moved(overlays.take(n), moves) == overlays_mapped(overlays.take(n), change).filter(
            has_ranges::<H>(),
        ),
    decreases n,
{
    reveal(Seq::filter);
    if n > 0 {
        lemma_overlays_follow(overlays, moves, change, n - 1);
        assert(overlays.take(n).drop_last() == overlays.take(n - 1));
        let before = overlays_mapped(overlays.take(n - 1), change);
        let last = overlay_mapped(overlays[n - 1], change);
        lemma_overlay_follows(overlays[n - 1], moves[n - 1], change);
        assert(overlays_mapped(overlays.take(n), change) =~= before.push(last));
        before.lemma_filter_push(last, has_ranges::<H>());
    } else {
        assert(overlays_mapped(overlays.take(0), change) =~= Seq::empty());
    }
}

/// Where every position is moved as a change of the document moves it, on the side that
/// `current_positions` gives, the colors go where the change takes them: a range from behind what
/// is inserted at its start to before what is inserted at its end. Exactly the ranges that are not
/// empty then are kept, in order, and no layer without ranges remains. Every annotation is kept, in
/// order and with its highlight, behind what is inserted at it.
pub proof fn lemma_colors_follow_changes<H>(
    colors: ColorsView<H>,
    moves: ColorMoves,
    change: Change,
)
    requires
        keep_their_sides(moves),
        moves_follow(colors, moves, change),
    ensures
        colors_moved(colors, moves) == colors_mapped(colors, change),
{
    let overlays = colors.overlay_highlights;
    let views = overlay_moves_views(moves.overlays@);
    assert forall|k: int| 0 <= k < overlays.len() implies overlay_follows(
        #[trigger] overlays[k],
        views[k],
        Side::After,
        Side::Before,
        change,
    ) by {
        assert(overlay_follows(
            overlays[k],
            moves.overlays@[k]@,
            moves.overlays@[k].starts.side,
            moves.overlays@[k].ends.side,
            change,
        ));
    }
    lemma_overlays_follow(overlays, views, change, overlays.len() as int);
    assert(overlays.take(overlays.len() as int) == overlays);
    let after = colors_moved(colors, moves);
    let goal = colors_mapped(colors, change);
    assert(after.inline_annotations =~= goal.inline_annotations);
    assert(after.inline_padding_before =~= goal.inline_padding_before);
}

} // verus!
