//! How the colors that a document mentions are shown.
use crate::order::{in_order, lemma_in_order, lemma_rank_order, rank_order, stable_sort, Ranked};
use vstd::prelude::*;

verus! {

/// A color without transparency.
#[derive(Clone, Copy, Debug, PartialEq, Eq, Structural)]
pub struct Rgb {
    pub red: u8,
    pub green: u8,
    pub blue: u8,
}

/// How the colors of a document are shown: by a swatch before the text, by the color of the text
/// itself, or by the color of its background.
#[derive(Clone, Copy, Debug, PartialEq, Eq, Structural)]
pub enum DocumentColorMode {
    Virtual,
    Foreground,
    Background,
}

/// What a theme is asked to paint with a color.
#[derive(Clone, Copy, Debug, PartialEq, Eq, Structural)]
pub enum Paint {
    Foreground(Rgb),
    Background(Rgb),
}

/// A highlight of the theme: what it paints, and the number that the theme has given it.
#[derive(Clone, Copy, Debug, PartialEq, Eq, Structural)]
pub struct Highlight {
    pub paint: Paint,
    pub number: u32,
}

/// The characters from `start` up to, but not including, `end`.
#[derive(Clone, Copy, Debug, PartialEq, Eq, Structural)]
pub struct TextRange {
    pub start: usize,
    pub end: usize,
}

/// A color that a document mentions: where its swatch goes, and where it is mentioned.
#[derive(Clone, Copy, Debug, PartialEq, Eq, Structural)]
pub struct DocumentColorSpan {
    pub anchor: usize,
    pub range: TextRange,
    pub color: Rgb,
}

/// A color that a document mentions, with the number of the highlight that the theme has for it.
#[derive(Clone, Copy, Debug, PartialEq, Eq, Structural)]
pub struct NumberedSpan {
    pub span: DocumentColorSpan,
    pub number: u32,
}

/// A text that is shown at a position without being part of the document.
#[derive(Debug)]
pub struct InlineAnnotation {
    pub char_idx: usize,
    pub text: String,
}

/// A text that is shown at a position without being part of the document.
pub struct AnnotationView {
    pub char_idx: usize,
    pub text: Seq<char>,
}

impl View for InlineAnnotation {
    type V = AnnotationView;

    open spec fn view(&self) -> AnnotationView {
        AnnotationView { char_idx: self.char_idx, text: self.text@ }
    }
}

pub open spec fn annotation_views(annotations: Seq<InlineAnnotation>) -> Seq<AnnotationView> {
    Seq::new(annotations.len(), |i: int| annotations[i]@)
}

/// Highlights of the type `H` that are laid over the text.
#[derive(Debug)]
pub enum OverlayHighlights<H> {
    Homogeneous { highlight: H, ranges: Vec<TextRange> },
    Heterogenous { highlights: Vec<(H, TextRange)> },
}

/// Highlights of the type `H` that are laid over the text.
pub enum OverlayView<H> {
    Homogeneous { highlight: H, ranges: Seq<TextRange> },
    Heterogenous { highlights: Seq<(H, TextRange)> },
}

impl<H> View for OverlayHighlights<H> {
    type V = OverlayView<H>;

    open spec fn view(&self) -> OverlayView<H> {
        match *self {
            OverlayHighlights::Homogeneous { highlight, ranges } => OverlayView::Homogeneous {
                highlight,
                ranges: ranges@,
            },
            OverlayHighlights::Heterogenous { highlights } => OverlayView::Heterogenous {
                highlights: highlights@,
            },
        }
    }
}

pub open spec fn overlay_views<H>(overlays: Seq<OverlayHighlights<H>>) -> Seq<OverlayView<H>> {
    Seq::new(overlays.len(), |i: int| overlays[i]@)
}

/// How the colors of a document are shown: by swatches, each with the highlight it has and a blank
/// before it, and by highlights of the text, in layers.
#[derive(Debug)]
pub struct DocumentColors<H> {
    pub inline_annotations: Vec<InlineAnnotation>,
    pub inline_annotation_highlights: Vec<H>,
    pub inline_padding_before: Vec<InlineAnnotation>,
    pub overlay_highlights: Vec<OverlayHighlights<H>>,
}

/// How the colors of a document are shown.
pub struct ColorsView<H> {
    pub inline_annotations: Seq<AnnotationView>,
    pub inline_annotation_highlights: Seq<H>,
    pub inline_padding_before: Seq<AnnotationView>,
    pub overlay_highlights: Seq<OverlayView<H>>,
}

impl<H> View for DocumentColors<H> {
    type V = ColorsView<H>;

    open spec fn view(&self) -> ColorsView<H> {
        ColorsView {
            inline_annotations: annotation_views(self.inline_annotations@),
            inline_annotation_highlights: self.inline_annotation_highlights@,
            inline_padding_before: annotation_views(self.inline_padding_before@),
            overlay_highlights: overlay_views(self.overlay_highlights@),
        }
    }
}

/// What the theme is asked to paint for a color.
pub open spec fn paint_of(color: Rgb, mode: DocumentColorMode) -> Paint {
    match mode {
        DocumentColorMode::Background => Paint::Background(color),
        DocumentColorMode::Foreground => Paint::Foreground(color),
        DocumentColorMode::Virtual => Paint::Foreground(color),
    }
}

/// The order of spans by the position of their swatches, then by the end of their ranges, then by
/// the numbers of their highlights.
pub open spec fn span_le(a: NumberedSpan, b: NumberedSpan) -> bool {
    if a.span.anchor != b.span.anchor {
        a.span.anchor < b.span.anchor
    } else if a.span.range.end != b.span.range.end {
        a.span.range.end < b.span.range.end
    } else {
        a.number <= b.number
    }
}

pub open spec fn span_order() -> spec_fn(NumberedSpan, NumberedSpan) -> bool {
    rank_order::<NumberedSpan>()
}

/// The order of highlighted ranges by their starts, then by their ends, then by the numbers of
/// their highlights.
pub open spec fn highlight_le(a: (Highlight, TextRange), b: (Highlight, TextRange)) -> bool {
    if a.1.start != b.1.start {
        a.1.start < b.1.start
    } else if a.1.end != b.1.end {
        a.1.end < b.1.end
    } else {
        a.0.number <= b.0.number
    }
}

pub open spec fn highlight_order() -> spec_fn((Highlight, TextRange), (Highlight, TextRange)) -> bool {
    rank_order::<(Highlight, TextRange)>()
}

impl Ranked for NumberedSpan {
    open spec fn rank_le(self, other: NumberedSpan) -> bool {
        span_le(self, other)
    }

    proof fn rank_is_total(a: NumberedSpan, b: NumberedSpan) {
    }

    proof fn rank_is_transitive(a: NumberedSpan, b: NumberedSpan, c: NumberedSpan) {
    }

    fn ranks_at_most(&self, other: &NumberedSpan) -> (r: bool) {
        if self.span.anchor != other.span.anchor {
            self.span.anchor < other.span.anchor
        } else if self.span.range.end != other.span.range.end {
            self.span.range.end < other.span.range.end
        } else {
            self.number <= other.number
        }
    }
}

impl Ranked for (Highlight, TextRange) {
    open spec fn rank_le(self, other: (Highlight, TextRange)) -> bool {
        highlight_le(self, other)
    }

    proof fn rank_is_total(a: (Highlight, TextRange), b: (Highlight, TextRange)) {
    }

    proof fn rank_is_transitive(
        a: (Highlight, TextRange),
        b: (Highlight, TextRange),
        c: (Highlight, TextRange),
    ) {
    }

    fn ranks_at_most(&self, other: &(Highlight, TextRange)) -> (r: bool) {
        if self.1.start != other.1.start {
            self.1.start < other.1.start
        } else if self.1.end != other.1.end {
            self.1.end < other.1.end
        } else {
            self.0.number <= other.0.number
        }
    }
}

/// The highlight of a span.
pub open spec fn span_highlight(numbered: NumberedSpan, mode: DocumentColorMode) -> Highlight {
    Highlight { paint: paint_of(numbered.span.color, mode), number: numbered.number }
}

/// The annotations with the text `text` at the anchors of `spans`.
pub open spec fn annotations_at(spans: Seq<NumberedSpan>, text: Seq<char>) -> Seq<
    AnnotationView,
> {
    Seq::new(spans.len(), |i: int| AnnotationView { char_idx: spans[i].span.anchor, text })
}

/// The highlighted ranges of those spans whose range is not empty.
pub open spec fn highlighted(spans: Seq<NumberedSpan>, mode: DocumentColorMode) -> Seq<
    (Highlight, TextRange),
>
    decreases spans.len(),
{
    if spans.len() == 0 {
        Seq::empty()
    } else {
        let before = highlighted(spans.drop_last(), mode);
        let last = spans.last();
        if last.span.range.start < last.span.range.end {
            before.push((span_highlight(last, mode), last.span.range))
        } else {
            before
        }
    }
}

/// Two highlighted ranges are the same: their highlights have one number, and their ranges are
/// equal.
pub open spec fn same_highlight(a: (Highlight, TextRange), b: (Highlight, TextRange)) -> bool {
    a.0.number == b.0.number && a.1 == b.1
}

/// `s` without the elements that are the same as the one before them.
pub open spec fn unrepeated(s: Seq<(Highlight, TextRange)>) -> Seq<(Highlight, TextRange)>
    decreases s.len(),
{
    if s.len() == 0 {
        s
    } else {
        let before = unrepeated(s.drop_last());
        if before.len() > 0 && same_highlight(before.last(), s.last()) {
            before
        } else {
            before.push(s.last())
        }
    }
}

/// The layers with one more highlighted range: at the end of the first layer that ends before it
/// starts, or in a layer of its own where there is none.
pub open spec fn layered(
    layers: Seq<Seq<(Highlight, TextRange)>>,
    item: (Highlight, TextRange),
) -> Seq<Seq<(Highlight, TextRange)>>
    decreases layers.len(),
{
    if layers.len() == 0 {
        seq![seq![item]]
    } else if item.1.start >= layers[0].last().1.end {
        seq![layers[0].push(item)] + layers.drop_first()
    } else {
        seq![layers[0]] + layered(layers.drop_first(), item)
    }
}

/// The layers into which highlighted ranges are packed, one range after the other.
pub open spec fn packed(items: Seq<(Highlight, TextRange)>) -> Seq<Seq<(Highlight, TextRange)>>
    decreases items.len(),
{
    if items.len() == 0 {
        Seq::empty()
    } else {
        layered(packed(items.drop_last()), items.last())
    }
}

pub open spec fn heterogenous(layers: Seq<Seq<(Highlight, TextRange)>>) -> Seq<OverlayView<Highlight>> {
    Seq::new(layers.len(), |i: int| OverlayView::Heterogenous { highlights: layers[i] })
}

/// The highlighted ranges of the spans, each once, in order.
pub open spec fn overlay_ranges(spans: Seq<NumberedSpan>, mode: DocumentColorMode) -> Seq<
    (Highlight, TextRange),
> {
    unrepeated(in_order(highlighted(in_order(spans, span_order()), mode), highlight_order()))
}

/// How the colors of `spans` are shown, or `None` where there is nothing to show.
pub open spec fn built_colors(spans: Seq<NumberedSpan>, mode: DocumentColorMode) -> Option<
    ColorsView<Highlight>,
> {
    let sorted = in_order(spans, span_order());
    if spans.len() == 0 {
        None
    } else if mode == DocumentColorMode::Virtual {
        Some(
            ColorsView {
                inline_annotations: annotations_at(sorted, seq!['\u{25A0}']),
                inline_annotation_highlights: Seq::new(
                    sorted.len(),
                    |i: int| span_highlight(sorted[i], mode),
                ),
                inline_padding_before: annotations_at(sorted, seq![' ']),
                overlay_highlights: Seq::empty(),
            },
        )
    } else if highlighted(sorted, mode).len() == 0 {
        None
    } else {
        Some(
            ColorsView {
                inline_annotations: Seq::empty(),
                inline_annotation_highlights: Seq::empty(),
                inline_padding_before: Seq::empty(),
                overlay_highlights: heterogenous(packed(overlay_ranges(spans, mode))),
            },
        )
    }
}

/// What the theme is asked to paint for a color.
pub fn document_color_paint(color: Rgb, mode: DocumentColorMode) -> (r: Paint)
    ensures
        r == paint_of(color, mode),
        r is Background <==> mode == DocumentColorMode::Background,
        match r {
            Paint::Foreground(c) => c.red == color.red && c.green == color.green && c.blue
                == color.blue,
            Paint::Background(c) => c.red == color.red && c.green == color.green && c.blue
                == color.blue,
        },
{
    match mode {
        DocumentColorMode::Background => Paint::Background(color),
        DocumentColorMode::Foreground | DocumentColorMode::Virtual => Paint::Foreground(color),
    }
}

/// The highlight of a color, which the theme has given the number `number`.
pub fn document_color_to_highlight(color: Rgb, mode: DocumentColorMode, number: u32) -> (r:
    Highlight)
    ensures
        r == (Highlight { paint: paint_of(color, mode), number }),
{
    Highlight { paint: document_color_paint(color, mode), number }
}

fn without_repetitions(items: Vec<(Highlight, TextRange)>) -> (r: Vec<(Highlight, TextRange)>)
    ensures
        r@ == unrepeated(items@),
{
    let mut out: Vec<(Highlight, TextRange)> = Vec::new();
    let mut i: usize = 0;
    assert(items@.take(0) == Seq::<(Highlight, TextRange)>::empty());
    while i < items.len()
        invariant
            i <= items.len(),
            out@ == unrepeated(items@.take(i as int)),
        decreases items.len() - i,
    {
        let item = items[i];
        assert(items@.take(i + 1).drop_last() == items@.take(i as int));
        let repeats = out.len() > 0 && out[out.len() - 1].0.number == item.0.number && out[out.len()
            - 1].1 == item.1;
        if !repeats {
            out.push(item);
        }
        i += 1;
    }
    assert(items@.take(i as int) == items@);
    out
}

/// Every layer holds something.
pub open spec fn all_filled(layers: Seq<Seq<(Highlight, TextRange)>>) -> bool {
    forall|i: int| 0 <= i < layers.len() ==> (#[trigger] layers[i]).len() > 0
}

pub open spec fn layer_views(layers: Seq<Vec<(Highlight, TextRange)>>) -> Seq<
    Seq<(Highlight, TextRange)>,
> {
    Seq::new(layers.len(), |i: int| layers[i]@)
}

proof fn lemma_layered_at(
    layers: Seq<Seq<(Highlight, TextRange)>>,
    item: (Highlight, TextRange),
    k: int,
)
    requires
        0 <= k <= layers.len(),
        forall|i: int| 0 <= i < k ==> item.1.start < (#[trigger] layers[i]).last().1.end,
        k < layers.len() ==> item.1.start >= layers[k].last().1.end,
    ensures
        layered(layers, item) == if k < layers.len() {
            layers.update(k, layers[k].push(item))
        } else {
            layers.push(seq![item])
        },
    decreases layers.len(),
{
    if layers.len() > 0 {
        let rest = layers.drop_first();
        if k == 0 {
            assert(seq![layers[0].push(item)] + rest == layers.update(0, layers[0].push(item)));
        } else {
            assert(item.1.start < layers[0].last().1.end);
            assert forall|i: int| 0 <= i < k - 1 implies item.1.start < (#[trigger] rest[i]).last().1.end by {
                assert(rest[i] == layers[i + 1]);
            }
            lemma_layered_at(rest, item, k - 1);
            if k < layers.len() {
                assert(seq![layers[0]] + rest.update(k - 1, rest[k - 1].push(item))
                    == layers.update(k, layers[k].push(item)));
            } else {
                assert(seq![layers[0]] + rest.push(seq![item]) == layers.push(seq![item]));
            }
        }
    }
}

/// Packs highlighted ranges into layers in which they do not overlap.
pub fn pack_overlay_highlights(highlights: Vec<(Highlight, TextRange)>) -> (r: Vec<
    OverlayHighlights<Highlight>,
>)
    ensures
        overlay_views(r@) == heterogenous(packed(highlights@)),
{
    let mut layers: Vec<Vec<(Highlight, TextRange)>> = Vec::new();
    let ghost all = highlights@;
    let mut i: usize = 0;
    assert(all.take(0) == Seq::<(Highlight, TextRange)>::empty());
    assert(layer_views(layers@) == Seq::<Seq<(Highlight, TextRange)>>::empty());
    while i < highlights.len()
        invariant
            i <= highlights.len(),
            all == highlights@,
            layer_views(layers@) == packed(all.take(i as int)),
            all_filled(layer_views(layers@)),
        decreases highlights.len() - i,
    {
        let item = highlights[i];
        let ghost before = layer_views(layers@);
        assert(all.take(i + 1).drop_last() == all.take(i as int));
        assert(all.take(i + 1).last() == item);
        let mut k: usize = 0;
        while k < layers.len()
            invariant
                k <= layers.len(),
                before == layer_views(layers@),
                all_filled(before),
                forall|j: int| 0 <= j < k ==> item.1.start < (#[trigger] before[j]).last().1.end,
            ensures
                k < layers.len() ==> item.1.start >= before[k as int].last().1.end,
            decreases layers.len() - k,
        {
            let layer = &layers[k];
            assert(before[k as int] == layer@);
            if item.1.start >= layer[layer.len() - 1].1.end {
                break;
            }
            k += 1;
        }
        proof {
            lemma_layered_at(before, item, k as int);
        }
        if k < layers.len() {
            layers[k].push(item);
            assert(layer_views(layers@) == before.update(k as int, before[k as int].push(item)));
        } else {
            let mut layer: Vec<(Highlight, TextRange)> = Vec::new();
            layer.push(item);
            assert(layer@ == seq![item]);
            layers.push(layer);
            assert(layer_views(layers@) == before.push(seq![item]));
        }
        i += 1;
    }
    assert(all.take(i as int) == all);
    let ghost packed_layers = layer_views(layers@);
    let ghost origin = layers@;
    let mut out: Vec<OverlayHighlights<Highlight>> = Vec::new();
    for layer in it: layers
        invariant
            it.seq() == origin,
            packed_layers == layer_views(origin),
            out@.len() == it.index(),
            forall|j: int|
                0 <= j < it.index() ==> (#[trigger] out@[j])@ == (OverlayView::Heterogenous {
                    highlights: packed_layers[j],
                }),
    {
        out.push(OverlayHighlights::Heterogenous { highlights: layer });
    }
    assert(overlay_views(out@) == heterogenous(packed_layers));
    out
}

/// Decides how the colors of a document are shown.
pub fn build_document_colors(document_colors: Vec<NumberedSpan>, mode: DocumentColorMode) -> (r:
    Option<DocumentColors<Highlight>>)
    ensures
        match built_colors(document_colors@, mode) {
            Some(colors) => r is Some && r->0@ == colors,
            None => r is None,
        },
{
    if document_colors.is_empty() {
        return None;
    }
    let ghost spans = document_colors@;
    let sorted = stable_sort(document_colors);
    proof {
        lemma_rank_order::<NumberedSpan>();
        lemma_in_order(spans, span_order());
    }
    match mode {
        DocumentColorMode::Virtual => Some(virtual_colors(&sorted, mode)),
        DocumentColorMode::Foreground | DocumentColorMode::Background => {
            let highlights = highlighted_ranges(&sorted, mode);
            if highlights.is_empty() {
                return None;
            }
            let ordered = stable_sort(highlights);
            let distinct = without_repetitions(ordered);
            let colors = DocumentColors {
                inline_annotations: Vec::new(),
                inline_annotation_highlights: Vec::new(),
                inline_padding_before: Vec::new(),
                overlay_highlights: pack_overlay_highlights(distinct),
            };
            assert(annotation_views(colors.inline_annotations@) == Seq::<AnnotationView>::empty());
            assert(annotation_views(colors.inline_padding_before@)
                == Seq::<AnnotationView>::empty());
            Some(colors)
        },
    }
}

/// The swatches of the spans.
fn virtual_colors(sorted: &Vec<NumberedSpan>, mode: DocumentColorMode) -> (r: DocumentColors<Highlight>)
    ensures
        r@.inline_annotations == annotations_at(sorted@, seq!['\u{25A0}']),
        r@.inline_padding_before == annotations_at(sorted@, seq![' ']),
        r@.inline_annotation_highlights == Seq::new(
            sorted@.len(),
            |i: int| span_highlight(sorted@[i], mode),
        ),
        r@.overlay_highlights == Seq::<OverlayView<Highlight>>::empty(),
{
    let mut inline_annotations: Vec<InlineAnnotation> = Vec::with_capacity(sorted.len());
    let mut inline_padding_before: Vec<InlineAnnotation> = Vec::with_capacity(sorted.len());
    let mut inline_annotation_highlights: Vec<Highlight> = Vec::with_capacity(sorted.len());
    let mut i: usize = 0;
    while i < sorted.len()
        invariant
            i <= sorted.len(),
            inline_annotations.len() == i,
            inline_padding_before.len() == i,
            inline_annotation_highlights.len() == i,
            forall|j: int|
                0 <= j < i ==> (#[trigger] inline_annotations@[j])@ == (AnnotationView {
                    char_idx: sorted@[j].span.anchor,
                    text: seq!['\u{25A0}'],
                }),
            forall|j: int|
                0 <= j < i ==> (#[trigger] inline_padding_before@[j])@ == (AnnotationView {
                    char_idx: sorted@[j].span.anchor,
                    text: seq![' '],
                }),
            forall|j: int|
                0 <= j < i ==> #[trigger] inline_annotation_highlights@[j] == span_highlight(
                    sorted@[j],
                    mode,
                ),
        decreases sorted.len() - i,
    {
        let NumberedSpan { span, number } = sorted[i];
        let mut blank = String::new();
        blank.push(' ');
        assert(blank@ == seq![' ']);
        let mut swatch = String::new();
        swatch.push('\u{25A0}');
        assert(swatch@ == seq!['\u{25A0}']);
        inline_padding_before.push(InlineAnnotation { char_idx: span.anchor, text: blank });
        inline_annotations.push(InlineAnnotation { char_idx: span.anchor, text: swatch });
        inline_annotation_highlights.push(
            document_color_to_highlight(span.color, mode, number),
        );
        i += 1;
    }
    let r = DocumentColors {
        inline_annotations,
        inline_annotation_highlights,
        inline_padding_before,
        overlay_highlights: Vec::new(),
    };
    assert(r@.inline_annotations == annotations_at(sorted@, seq!['\u{25A0}']));
    assert(r@.inline_padding_before == annotations_at(sorted@, seq![' ']));
    assert(r@.overlay_highlights == Seq::<OverlayView<Highlight>>::empty());
    r
}

/// The highlighted ranges of those spans whose range is not empty.
fn highlighted_ranges(sorted: &Vec<NumberedSpan>, mode: DocumentColorMode) -> (r: Vec<
    (Highlight, TextRange),
>)
    ensures
        r@ == highlighted(sorted@, mode),
{
    let mut out: Vec<(Highlight, TextRange)> = Vec::new();
    let mut i: usize = 0;
    assert(sorted@.take(0) == Seq::<NumberedSpan>::empty());
    while i < sorted.len()
        invariant
            i <= sorted.len(),
            out@ == highlighted(sorted@.take(i as int), mode),
        decreases sorted.len() - i,
    {
        let NumberedSpan { span, number } = sorted[i];
        assert(sorted@.take(i + 1).drop_last() == sorted@.take(i as int));
        if span.range.start < span.range.end {
            out.push((document_color_to_highlight(span.color, mode, number), span.range));
        }
        i += 1;
    }
    assert(sorted@.take(i as int) == sorted@);
    out
}

} // verus!
