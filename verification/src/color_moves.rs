//! Keeping document colors in place while their document changes.
use crate::colors::{
    annotation_views, overlay_views, AnnotationView, ColorsView, DocumentColors,
    InlineAnnotation, OverlayHighlights, OverlayView, TextRange,
};
use crate::color_laws::is_disjoint_layer;
use vstd::prelude::*;

verus! {

/// The side of text inserted at a position to which the position keeps.
#[derive(Clone, Copy, Debug, PartialEq, Eq, Structural)]
pub enum Side {
    Before,
    After,
}

/// Positions that are moved alike when their document changes.
#[derive(Debug)]
pub struct Positions {
    pub side: Side,
    pub at: Vec<usize>,
}

/// The starts and the ends of the ranges of a layer.
#[derive(Debug)]
pub struct OverlayMoves {
    pub starts: Positions,
    pub ends: Positions,
}

/// The positions at which document colors are shown.
#[derive(Debug)]
pub struct ColorMoves {
    pub annotations: Positions,
    pub paddings: Positions,
    pub overlays: Vec<OverlayMoves>,
}

/// Annotations and the starts of ranges keep behind text that is inserted at them, and the ends of
/// ranges before it, so that no range takes in text that is inserted at its border.
pub open spec fn keep_their_sides(moves: ColorMoves) -> bool {
    &&& moves.annotations.side == Side::After
    &&& moves.paddings.side == Side::After
    &&& forall|k: int|
        0 <= k < moves.overlays@.len() ==> (#[trigger] moves.overlays@[k]).starts.side
            == Side::After && moves.overlays@[k].ends.side == Side::Before
}

/// The starts and the ends of the ranges of a layer.
pub struct OverlayMovesView {
    pub starts: Seq<usize>,
    pub ends: Seq<usize>,
}

impl View for OverlayMoves {
    type V = OverlayMovesView;

    open spec fn view(&self) -> OverlayMovesView {
        OverlayMovesView { starts: self.starts.at@, ends: self.ends.at@ }
    }
}

pub open spec fn overlay_moves_views(moves: Seq<OverlayMoves>) -> Seq<OverlayMovesView> {
    Seq::new(moves.len(), |i: int| moves[i]@)
}

/// The number of ranges of a layer.
pub open spec fn range_count<H>(overlay: OverlayView<H>) -> nat {
    match overlay {
        OverlayView::Homogeneous { highlight, ranges } => ranges.len(),
        OverlayView::Heterogenous { highlights } => highlights.len(),
    }
}

/// The range of number `i` of a layer.
pub open spec fn range_at<H>(overlay: OverlayView<H>, i: int) -> TextRange {
    match overlay {
        OverlayView::Homogeneous { highlight, ranges } => ranges[i],
        OverlayView::Heterogenous { highlights } => highlights[i].1,
    }
}

/// There is one start and one end for each range of the layer.
pub open spec fn overlay_fits<H>(overlay: OverlayView<H>, moves: OverlayMovesView) -> bool {
    moves.starts.len() == range_count(overlay) && moves.ends.len() == range_count(overlay)
}

/// There is one position for each annotation, and one start and one end for each range.
pub open spec fn moves_fit<H>(colors: ColorsView<H>, moves: ColorMoves) -> bool {
    &&& moves.annotations.at@.len() == colors.inline_annotations.len()
    &&& moves.paddings.at@.len() == colors.inline_padding_before.len()
    &&& moves.overlays@.len() == colors.overlay_highlights.len()
    &&& forall|i: int|
        0 <= i < moves.overlays@.len() ==> overlay_fits(
            colors.overlay_highlights[i],
            (#[trigger] moves.overlays@[i])@,
        )
}

/// The starts and the ends of the ranges of a layer as they are.
pub open spec fn unmoved_overlay<H>(overlay: OverlayView<H>) -> OverlayMovesView {
    OverlayMovesView {
        starts: Seq::new(range_count(overlay), |i: int| range_at(overlay, i).start),
        ends: Seq::new(range_count(overlay), |i: int| range_at(overlay, i).end),
    }
}

/// The positions are those at which the colors are shown.
pub open spec fn moves_nothing<H>(colors: ColorsView<H>, moves: ColorMoves) -> bool {
    &&& moves_fit(colors, moves)
    &&& forall|i: int|
        0 <= i < moves.annotations.at@.len() ==> #[trigger] moves.annotations.at@[i]
            == colors.inline_annotations[i].char_idx
    &&& forall|i: int|
        0 <= i < moves.paddings.at@.len() ==> #[trigger] moves.paddings.at@[i]
            == colors.inline_padding_before[i].char_idx
    &&& forall|k: int|
        0 <= k < moves.overlays@.len() ==> (#[trigger] moves.overlays@[k])@ == unmoved_overlay(
            colors.overlay_highlights[k],
        )
}

/// The annotations at new positions.
pub open spec fn annotations_moved(
    annotations: Seq<AnnotationView>,
    positions: Seq<usize>,
) -> Seq<AnnotationView> {
    Seq::new(
        annotations.len(),
        |i: int| AnnotationView { char_idx: positions[i], text: annotations[i].text },
    )
}

/// The ranges with new starts and ends, without those that have become empty.
pub open spec fn ranges_moved(ranges: Seq<TextRange>, moves: OverlayMovesView) -> Seq<TextRange>
    decreases ranges.len(),
{
    if ranges.len() == 0 {
        Seq::empty()
    } else {
        let n = ranges.len() - 1;
        let before = ranges_moved(ranges.drop_last(), moves);
        if moves.starts[n] < moves.ends[n] {
            before.push(TextRange { start: moves.starts[n], end: moves.ends[n] })
        } else {
            before
        }
    }
}

/// The highlighted ranges with new starts and ends, without those that have become empty.
pub open spec fn highlights_moved<H>(
    highlights: Seq<(H, TextRange)>,
    moves: OverlayMovesView,
) -> Seq<(H, TextRange)>
    decreases highlights.len(),
{
    if highlights.len() == 0 {
        Seq::empty()
    } else {
        let n = highlights.len() - 1;
        let before = highlights_moved(highlights.drop_last(), moves);
        if moves.starts[n] < moves.ends[n] {
            before.push(
                (highlights[n].0, TextRange { start: moves.starts[n], end: moves.ends[n] }),
            )
        } else {
            before
        }
    }
}

/// The layer with new starts and ends.
pub open spec fn overlay_moved<H>(
    overlay: OverlayView<H>,
    moves: OverlayMovesView,
) -> OverlayView<H> {
    match overlay {
        OverlayView::Homogeneous { highlight, ranges } => OverlayView::Homogeneous {
            highlight,
            ranges: ranges_moved(ranges, moves),
        },
        OverlayView::Heterogenous { highlights } => OverlayView::Heterogenous {
            highlights: highlights_moved(highlights, moves),
        },
    }
}

/// The layers with new starts and ends, without those that have become empty.
pub open spec fn overlays_moved<H>(
    overlays: Seq<OverlayView<H>>,
    moves: Seq<OverlayMovesView>,
) -> Seq<OverlayView<H>>
    decreases overlays.len(),
{
    if overlays.len() == 0 {
        Seq::empty()
    } else {
        let n = overlays.len() - 1;
        let before = overlays_moved(overlays.drop_last(), moves);
        let overlay = overlay_moved(overlays[n], moves[n]);
        if range_count(overlay) > 0 {
            before.push(overlay)
        } else {
            before
        }
    }
}

/// The colors at new positions.
pub open spec fn colors_moved<H>(colors: ColorsView<H>, moves: ColorMoves) -> ColorsView<H> {
    ColorsView {
        inline_annotations: annotations_moved(colors.inline_annotations, moves.annotations.at@),
        inline_annotation_highlights: colors.inline_annotation_highlights,
        inline_padding_before: annotations_moved(colors.inline_padding_before, moves.paddings.at@),
        overlay_highlights: overlays_moved(
            colors.overlay_highlights,
            overlay_moves_views(moves.overlays@),
        ),
    }
}

fn annotation_positions(annotations: &Vec<InlineAnnotation>) -> (r: Vec<usize>)
    ensures
        r@ == Seq::new(
            annotations@.len(),
            |i: int| annotation_views(annotations@)[i].char_idx,
        ),
{
    let mut out: Vec<usize> = Vec::with_capacity(annotations.len());
    let mut i: usize = 0;
    while i < annotations.len()
        invariant
            i <= annotations.len(),
            out.len() == i,
            forall|j: int| 0 <= j < i ==> #[trigger] out@[j] == annotations@[j].char_idx,
        decreases annotations.len() - i,
    {
        out.push(annotations[i].char_idx);
        i += 1;
    }
    out
}

fn overlay_positions<H>(overlay: &OverlayHighlights<H>) -> (r: OverlayMoves)
    ensures
        r@ == unmoved_overlay(overlay@),
        r.starts.side == Side::After,
        r.ends.side == Side::Before,
{
    let mut starts: Vec<usize> = Vec::new();
    let mut ends: Vec<usize> = Vec::new();
    let mut i: usize = 0;
    match overlay {
        OverlayHighlights::Homogeneous { highlight: _, ranges } => {
            while i < ranges.len()
                invariant
                    i <= ranges.len(),
                    starts.len() == i,
                    ends.len() == i,
                    forall|j: int| 0 <= j < i ==> #[trigger] starts@[j] == ranges@[j].start,
                    forall|j: int| 0 <= j < i ==> #[trigger] ends@[j] == ranges@[j].end,
                decreases ranges.len() - i,
            {
                starts.push(ranges[i].start);
                ends.push(ranges[i].end);
                i += 1;
            }
        },
        OverlayHighlights::Heterogenous { highlights } => {
            while i < highlights.len()
                invariant
                    i <= highlights.len(),
                    starts.len() == i,
                    ends.len() == i,
                    forall|j: int| 0 <= j < i ==> #[trigger] starts@[j] == highlights@[j].1.start,
                    forall|j: int| 0 <= j < i ==> #[trigger] ends@[j] == highlights@[j].1.end,
                decreases highlights.len() - i,
            {
                starts.push(highlights[i].1.start);
                ends.push(highlights[i].1.end);
                i += 1;
            }
        },
    }
    assert(starts@ =~= unmoved_overlay(overlay@).starts);
    assert(ends@ =~= unmoved_overlay(overlay@).ends);
    OverlayMoves {
        starts: Positions { side: Side::After, at: starts },
        ends: Positions { side: Side::Before, at: ends },
    }
}

/// The positions at which the colors are shown now, and the sides to which they keep.
pub fn current_positions<H>(colors: &DocumentColors<H>) -> (r: ColorMoves)
    ensures
        moves_nothing(colors@, r),
        keep_their_sides(r),
{
    let annotations = annotation_positions(&colors.inline_annotations);
    let paddings = annotation_positions(&colors.inline_padding_before);
    let mut overlays: Vec<OverlayMoves> = Vec::new();
    let mut k: usize = 0;
    while k < colors.overlay_highlights.len()
        invariant
            k <= colors.overlay_highlights.len(),
            overlays.len() == k,
            forall|j: int|
                0 <= j < k ==> (#[trigger] overlays@[j])@ == unmoved_overlay(
                    colors@.overlay_highlights[j],
                ) && overlays@[j].starts.side == Side::After && overlays@[j].ends.side
                    == Side::Before,
        decreases colors.overlay_highlights.len() - k,
    {
        overlays.push(overlay_positions(&colors.overlay_highlights[k]));
        k += 1;
    }
    ColorMoves {
        annotations: Positions { side: Side::After, at: annotations },
        paddings: Positions { side: Side::After, at: paddings },
        overlays,
    }
}

/// Whether there is one position for each annotation, and one start and one end for each range.
pub fn do_moves_fit<H>(colors: &DocumentColors<H>, moves: &ColorMoves) -> (r: bool)
    ensures
        r == moves_fit(colors@, *moves),
{
    if moves.annotations.at.len() != colors.inline_annotations.len() || moves.paddings.at.len()
        != colors.inline_padding_before.len() || moves.overlays.len()
        != colors.overlay_highlights.len() {
        return false;
    }
    let mut k: usize = 0;
    while k < moves.overlays.len()
        invariant
            k <= moves.overlays.len(),
            moves.overlays.len() == colors.overlay_highlights.len(),
            forall|i: int|
                0 <= i < k ==> overlay_fits(
                    colors@.overlay_highlights[i],
                    (#[trigger] moves.overlays@[i])@,
                ),
        decreases moves.overlays.len() - k,
    {
        let n = match &colors.overlay_highlights[k] {
            OverlayHighlights::Homogeneous { highlight: _, ranges } => ranges.len(),
            OverlayHighlights::Heterogenous { highlights } => highlights.len(),
        };
        assert(n == range_count(colors@.overlay_highlights[k as int]));
        if moves.overlays[k].starts.at.len() != n || moves.overlays[k].ends.at.len() != n {
            assert(!overlay_fits(colors@.overlay_highlights[k as int], moves.overlays@[k as int]@));
            return false;
        }
        k += 1;
    }
    true
}

fn move_annotations(annotations: Vec<InlineAnnotation>, positions: &Vec<usize>) -> (r: Vec<
    InlineAnnotation,
>)
    requires
        positions@.len() == annotations@.len(),
    ensures
        annotation_views(r@) == annotations_moved(annotation_views(annotations@), positions@),
{
    let ghost origin = annotations@;
    let mut out: Vec<InlineAnnotation> = Vec::with_capacity(annotations.len());
    for annotation in it: annotations
        invariant
            it.seq() == origin,
            positions@.len() == origin.len(),
            out@.len() == it.index(),
            forall|j: int|
                0 <= j < it.index() ==> (#[trigger] out@[j])@ == (AnnotationView {
                    char_idx: positions@[j],
                    text: origin[j].text@,
                }),
    {
        let i = out.len();
        out.push(InlineAnnotation { char_idx: positions[i], text: annotation.text });
    }
    assert(annotation_views(out@) == annotations_moved(annotation_views(origin), positions@));
    out
}

fn move_ranges(ranges: &Vec<TextRange>, moves: &OverlayMoves) -> (r: Vec<TextRange>)
    requires
        moves@.starts.len() == ranges@.len(),
        moves@.ends.len() == ranges@.len(),
    ensures
        r@ == ranges_moved(ranges@, moves@),
{
    let mut out: Vec<TextRange> = Vec::new();
    let mut i: usize = 0;
    assert(ranges@.take(0) == Seq::<TextRange>::empty());
    while i < ranges.len()
        invariant
            i <= ranges.len(),
            moves@.starts.len() == ranges@.len(),
            moves@.ends.len() == ranges@.len(),
            out@ == ranges_moved(ranges@.take(i as int), moves@),
        decreases ranges.len() - i,
    {
        assert(ranges@.take(i + 1).drop_last() == ranges@.take(i as int));
        let range = TextRange { start: moves.starts.at[i], end: moves.ends.at[i] };
        if range.start < range.end {
            out.push(range);
        }
        i += 1;
    }
    assert(ranges@.take(i as int) == ranges@);
    out
}

fn move_highlights<H: Copy>(highlights: &Vec<(H, TextRange)>, moves: &OverlayMoves) -> (r: Vec<
    (H, TextRange),
>)
    requires
        moves@.starts.len() == highlights@.len(),
        moves@.ends.len() == highlights@.len(),
    ensures
        r@ == highlights_moved(highlights@, moves@),
{
    let mut out: Vec<(H, TextRange)> = Vec::new();
    let mut i: usize = 0;
    assert(highlights@.take(0) == Seq::<(H, TextRange)>::empty());
    while i < highlights.len()
        invariant
            i <= highlights.len(),
            moves@.starts.len() == highlights@.len(),
            moves@.ends.len() == highlights@.len(),
            out@ == highlights_moved(highlights@.take(i as int), moves@),
        decreases highlights.len() - i,
    {
        assert(highlights@.take(i + 1).drop_last() == highlights@.take(i as int));
        let range = TextRange { start: moves.starts.at[i], end: moves.ends.at[i] };
        if range.start < range.end {
            out.push((highlights[i].0, range));
        }
        i += 1;
    }
    assert(highlights@.take(i as int) == highlights@);
    out
}

/// Puts the colors at new positions and drops the ranges and the layers that have become empty.
pub fn update_document_colors<H: Copy>(
    colors: DocumentColors<H>,
    moves: &ColorMoves,
) -> (r: DocumentColors<H>)
    requires
        moves_fit(colors@, *moves),
    ensures
        r@ == colors_moved(colors@, *moves),
{
    let ghost before = colors@;
    let ghost all = overlay_moves_views(moves.overlays@);
    let ghost views = colors@.overlay_highlights;
    let inline_annotations = move_annotations(colors.inline_annotations, &moves.annotations.at);
    let inline_padding_before = move_annotations(colors.inline_padding_before, &moves.paddings.at);
    let mut overlay_highlights: Vec<OverlayHighlights<H>> = Vec::new();
    let mut k: usize = 0;
    assert(views.take(0) == Seq::<OverlayView<H>>::empty());
    assert(overlay_views(overlay_highlights@) == Seq::<OverlayView<H>>::empty());
    while k < colors.overlay_highlights.len()
        invariant
            k <= colors.overlay_highlights.len(),
            before == colors@,
            moves_fit(before, *moves),
            views == overlay_views(colors.overlay_highlights@),
            views == before.overlay_highlights,
            all == overlay_moves_views(moves.overlays@),
            overlay_views(overlay_highlights@) == overlays_moved(views.take(k as int), all),
        decreases colors.overlay_highlights.len() - k,
    {
        let ghost kept = overlay_highlights@;
        assert(views.take(k + 1).drop_last() == views.take(k as int));
        assert(views[k as int] == colors.overlay_highlights@[k as int]@);
        assert(overlay_fits(views[k as int], moves.overlays@[k as int]@));
        let overlay = match &colors.overlay_highlights[k] {
            OverlayHighlights::Homogeneous { highlight, ranges } => OverlayHighlights::Homogeneous {
                highlight: *highlight,
                ranges: move_ranges(ranges, &moves.overlays[k]),
            },
            OverlayHighlights::Heterogenous { highlights } => OverlayHighlights::Heterogenous {
                highlights: move_highlights(highlights, &moves.overlays[k]),
            },
        };
        assert(overlay@ == overlay_moved(views[k as int], all[k as int]));
        let n = match &overlay {
            OverlayHighlights::Homogeneous { highlight: _, ranges } => ranges.len(),
            OverlayHighlights::Heterogenous { highlights } => highlights.len(),
        };
        if n > 0 {
            overlay_highlights.push(overlay);
            assert(overlay_views(overlay_highlights@) == overlay_views(kept).push(overlay@));
        }
        k += 1;
    }
    assert(views.take(k as int) == views);
    DocumentColors {
        inline_annotations,
        inline_annotation_highlights: colors.inline_annotation_highlights,
        inline_padding_before,
        overlay_highlights,
    }
}

/// The layer holds a range, and none of its ranges is empty.
pub open spec fn shows_something<H>(overlay: OverlayView<H>) -> bool {
    &&& range_count(overlay) > 0
    &&& forall|i: int|
        0 <= i < range_count(overlay) ==> (#[trigger] range_at(overlay, i)).start < range_at(
            overlay,
            i,
        ).end
}

proof fn lemma_ranges_moved_nonempty(ranges: Seq<TextRange>, moves: OverlayMovesView)
    ensures
        forall|i: int|
            0 <= i < ranges_moved(ranges, moves).len() ==> (#[trigger] ranges_moved(
                ranges,
                moves,
            )[i]).start < ranges_moved(ranges, moves)[i].end,
    decreases ranges.len(),
{
    if ranges.len() > 0 {
        lemma_ranges_moved_nonempty(ranges.drop_last(), moves);
        let before = ranges_moved(ranges.drop_last(), moves);
        let out = ranges_moved(ranges, moves);
        assert forall|i: int| 0 <= i < out.len() implies (#[trigger] out[i]).start < out[i].end by {
            if i < before.len() {
                assert(out[i] == before[i]);
            }
        }
    }
}

proof fn lemma_highlights_moved_nonempty<H>(
    highlights: Seq<(H, TextRange)>,
    moves: OverlayMovesView,
)
    ensures
        forall|i: int|
            0 <= i < highlights_moved(highlights, moves).len() ==> (#[trigger] highlights_moved(
                highlights,
                moves,
            )[i]).1.start < highlights_moved(highlights, moves)[i].1.end,
    decreases highlights.len(),
{
    if highlights.len() > 0 {
        lemma_highlights_moved_nonempty(highlights.drop_last(), moves);
        let before = highlights_moved(highlights.drop_last(), moves);
        let out = highlights_moved(highlights, moves);
        assert forall|i: int| 0 <= i < out.len() implies (#[trigger] out[i]).1.start < out[i].1.end by {
            if i < before.len() {
                assert(out[i] == before[i]);
            }
        }
    }
}

/// After an update no layer is empty, and no range of a layer is.
pub proof fn lemma_moved_layers_show_something<H>(
    overlays: Seq<OverlayView<H>>,
    moves: Seq<OverlayMovesView>,
)
    ensures
        forall|k: int|
            0 <= k < overlays_moved(overlays, moves).len() ==> shows_something(
                #[trigger] overlays_moved(overlays, moves)[k],
            ),
    decreases overlays.len(),
{
    if overlays.len() > 0 {
        let n = overlays.len() - 1;
        lemma_moved_layers_show_something(overlays.drop_last(), moves);
        let overlay = overlay_moved(overlays[n], moves[n]);
        match overlays[n] {
            OverlayView::Homogeneous { highlight, ranges } => {
                lemma_ranges_moved_nonempty(ranges, moves[n]);
                assert forall|i: int| 0 <= i < range_count(overlay) implies (#[trigger] range_at(
                    overlay,
                    i,
                )).start < range_at(overlay, i).end by {
                    assert(range_at(overlay, i) == ranges_moved(ranges, moves[n])[i]);
                }
            },
            OverlayView::Heterogenous { highlights } => {
                lemma_highlights_moved_nonempty(highlights, moves[n]);
                assert forall|i: int| 0 <= i < range_count(overlay) implies (#[trigger] range_at(
                    overlay,
                    i,
                )).start < range_at(overlay, i).end by {
                    assert(range_at(overlay, i) == highlights_moved(highlights, moves[n])[i].1);
                }
            },
        }
        let before = overlays_moved(overlays.drop_last(), moves);
        let out = overlays_moved(overlays, moves);
        assert forall|k: int| 0 <= k < out.len() implies shows_something(#[trigger] out[k]) by {
            if k < before.len() {
                assert(out[k] == before[k]);
            } else {
                assert(out[k] == overlay);
            }
        }
    }
}

proof fn lemma_ranges_unmoved(ranges: Seq<TextRange>, moves: OverlayMovesView, n: int)
    requires
        0 <= n <= ranges.len(),
        forall|i: int|
            0 <= i < n ==> (#[trigger] ranges[i]).start < ranges[i].end && moves.starts[i]
                == ranges[i].start && moves.ends[i] == ranges[i].end,
    ensures
        ranges_moved(ranges.take(n), moves) == ranges.take(n),
    decreases n,
{
    if n > 0 {
        lemma_ranges_unmoved(ranges, moves, n - 1);
        assert(ranges.take(n).drop_last() == ranges.take(n - 1));
        assert(ranges[n - 1].start < ranges[n - 1].end);
        assert(ranges.take(n - 1).push(ranges[n - 1]) == ranges.take(n));
    }
}

proof fn lemma_highlights_unmoved<H>(
    highlights: Seq<(H, TextRange)>,
    moves: OverlayMovesView,
    n: int,
)
    requires
        0 <= n <= highlights.len(),
        forall|i: int|
            0 <= i < n ==> (#[trigger] highlights[i]).1.start < highlights[i].1.end
                && moves.starts[i] == highlights[i].1.start && moves.ends[i] == highlights[i].1.end,
    ensures
        highlights_moved(highlights.take(n), moves) == highlights.take(n),
    decreases n,
{
    if n > 0 {
        lemma_highlights_unmoved(highlights, moves, n - 1);
        assert(highlights.take(n).drop_last() == highlights.take(n - 1));
        assert(highlights[n - 1].1.start < highlights[n - 1].1.end);
        assert(highlights.take(n - 1).push(highlights[n - 1]) == highlights.take(n));
    }
}

/// An update that moves nothing changes nothing, where every layer shows something.
pub proof fn lemma_unmoved_layers_stay<H>(
    overlays: Seq<OverlayView<H>>,
    moves: Seq<OverlayMovesView>,
)
    requires
        moves.len() >= overlays.len(),
        forall|k: int|
            0 <= k < overlays.len() ==> shows_something(#[trigger] overlays[k]) && moves[k]
                == unmoved_overlay(overlays[k]),
    ensures
        overlays_moved(overlays, moves) == overlays,
    decreases overlays.len(),
{
    if overlays.len() > 0 {
        let n = overlays.len() - 1;
        let front = overlays.drop_last();
        assert forall|k: int| 0 <= k < front.len() implies shows_something(#[trigger] front[k])
            && moves[k] == unmoved_overlay(front[k]) by {
            assert(front[k] == overlays[k]);
        }
        lemma_unmoved_layers_stay(front, moves);
        assert(shows_something(overlays[n]));
        match overlays[n] {
            OverlayView::Homogeneous { highlight, ranges } => {
                assert forall|i: int| 0 <= i < ranges.len() implies (#[trigger] ranges[i]).start
                    < ranges[i].end by {
                    assert(range_at(overlays[n], i) == ranges[i]);
                }
                lemma_ranges_unmoved(ranges, moves[n], ranges.len() as int);
                assert(ranges.take(ranges.len() as int) == ranges);
            },
            OverlayView::Heterogenous { highlights } => {
                assert forall|i: int| 0 <= i < highlights.len() implies (
                #[trigger] highlights[i]).1.start < highlights[i].1.end by {
                    assert(range_at(overlays[n], i) == highlights[i].1);
                }
                lemma_highlights_unmoved(highlights, moves[n], highlights.len() as int);
                assert(highlights.take(highlights.len() as int) == highlights);
            },
        }
        assert(front.push(overlays[n]) == overlays);
    } else {
        assert(overlays_moved(overlays, moves) == overlays);
    }
}

proof fn lemma_disjoint_prefix<H>(
    layer: Seq<(H, TextRange)>,
    moves: OverlayMovesView,
    start_to: spec_fn(usize) -> usize,
    end_to: spec_fn(usize) -> usize,
    n: int,
)
    requires
        0 <= n <= layer.len(),
        is_disjoint_layer(layer),
        forall|i: int|
            0 <= i < layer.len() ==> #[trigger] moves.starts[i] == start_to(layer[i].1.start),
        forall|i: int| 0 <= i < layer.len() ==> #[trigger] moves.ends[i] == end_to(layer[i].1.end),
        forall|a: usize, b: usize| a <= b ==> #[trigger] end_to(a) <= #[trigger] start_to(b),
    ensures
        is_disjoint_layer(highlights_moved(layer.take(n), moves)),
        n < layer.len() ==> forall|i: int|
            0 <= i < highlights_moved(layer.take(n), moves).len() ==> (#[trigger] highlights_moved(
                layer.take(n),
                moves,
            )[i]).1.end <= moves.starts[n],
        forall|m: int, i: int|
            n <= m < layer.len() && 0 <= i < highlights_moved(layer.take(n), moves).len() ==> (
            #[trigger] highlights_moved(layer.take(n), moves)[i]).1.end <= #[trigger] moves.starts[m],
    decreases n,
{
    if n > 0 {
        lemma_disjoint_prefix(layer, moves, start_to, end_to, n - 1);
        assert(layer.take(n).drop_last() == layer.take(n - 1));
        let before = highlights_moved(layer.take(n - 1), moves);
        let out = highlights_moved(layer.take(n), moves);
        assert forall|m: int, i: int| n <= m < layer.len() && 0 <= i < out.len() implies (
        #[trigger] out[i]).1.end <= #[trigger] moves.starts[m] by {
            if i < before.len() {
                assert(out[i] == before[i]);
            } else {
                assert(layer[n - 1].1.end <= layer[m].1.start);
                assert(moves.ends[n - 1] == end_to(layer[n - 1].1.end));
            }
        }
        assert forall|i: int, j: int| 0 <= i < j < out.len() implies (#[trigger] out[i]).1.end <= (
        #[trigger] out[j]).1.start by {
            if j < before.len() {
                assert(before[i].1.end <= before[j].1.start);
            } else {
                assert(out[i] == before[i]);
                assert(before[i].1.end <= moves.starts[n - 1]);
            }
        }
    }
}

/// Ranges that do not overlap do not overlap after an update either, where text is moved in order:
/// no end passes a start that was not before it.
pub proof fn lemma_moved_ranges_stay_apart<H>(
    layer: Seq<(H, TextRange)>,
    moves: OverlayMovesView,
    start_to: spec_fn(usize) -> usize,
    end_to: spec_fn(usize) -> usize,
)
    requires
        is_disjoint_layer(layer),
        forall|i: int|
            0 <= i < layer.len() ==> #[trigger] moves.starts[i] == start_to(layer[i].1.start),
        forall|i: int| 0 <= i < layer.len() ==> #[trigger] moves.ends[i] == end_to(layer[i].1.end),
        forall|a: usize, b: usize| a <= b ==> #[trigger] end_to(a) <= #[trigger] start_to(b),
    ensures
        is_disjoint_layer(highlights_moved(layer, moves)),
{
    lemma_disjoint_prefix(layer, moves, start_to, end_to, layer.len() as int);
    assert(layer.take(layer.len() as int) == layer);
}

} // verus!
