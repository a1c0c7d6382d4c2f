//! What holds of the way in which document colors are shown.
use crate::colors::{
    all_filled, built_colors, heterogenous, highlight_le, highlight_order, highlighted, layered,
    overlay_ranges, packed, same_highlight, span_highlight, span_order, unrepeated, ColorsView,
    DocumentColorMode, Highlight, NumberedSpan, TextRange,
};
use crate::order::{ascending, in_order, lemma_in_order, lemma_rank_order};
use vstd::multiset::Multiset;
use vstd::prelude::*;

verus! {

/// No range of the layer is empty, and each ends before all later ones start.
pub open spec fn is_disjoint_layer<H>(layer: Seq<(H, TextRange)>) -> bool {
    &&& forall|i: int| 0 <= i < layer.len() ==> (#[trigger] layer[i]).1.start < layer[i].1.end
    &&& forall|i: int, j: int|
        0 <= i < j < layer.len() ==> (#[trigger] layer[i]).1.end <= (#[trigger] layer[j]).1.start
}

pub open spec fn are_disjoint_layers(layers: Seq<Seq<(Highlight, TextRange)>>) -> bool {
    forall|k: int| 0 <= k < layers.len() ==> is_disjoint_layer(#[trigger] layers[k])
}

/// No range of `items` is empty.
pub open spec fn are_nonempty(items: Seq<(Highlight, TextRange)>) -> bool {
    forall|i: int| 0 <= i < items.len() ==> (#[trigger] items[i]).1.start < items[i].1.end
}

/// All that the layers hold.
pub open spec fn contents(layers: Seq<Seq<(Highlight, TextRange)>>) -> Multiset<
    (Highlight, TextRange),
>
    decreases layers.len(),
{
    if layers.len() == 0 {
        Multiset::empty()
    } else {
        layers[0].to_multiset().add(contents(layers.drop_first()))
    }
}

/// One of the ranges of the layer holds the character `at`.
pub open spec fn covers(layer: Seq<(Highlight, TextRange)>, at: int) -> bool {
    exists|i: int|
        0 <= i < layer.len() && (#[trigger] layer[i]).1.start <= at && at < layer[i].1.end
}

/// Every layer covers the character `at`.
pub open spec fn all_cover(layers: Seq<Seq<(Highlight, TextRange)>>, at: int) -> bool {
    forall|k: int| 0 <= k < layers.len() ==> covers(#[trigger] layers[k], at)
}

/// Each range of the layer ends before the next one starts.
pub open spec fn is_chained(layer: Seq<(Highlight, TextRange)>) -> bool {
    forall|i: int, j: int|
        0 <= i && j == i + 1 && j < layer.len() ==> (#[trigger] layer[i]).1.end <= (
        #[trigger] layer[j]).1.start
}

/// Each range of the layer ends before all later ones start.
pub open spec fn is_apart(layer: Seq<(Highlight, TextRange)>) -> bool {
    forall|i: int, j: int|
        0 <= i < j < layer.len() ==> (#[trigger] layer[i]).1.end <= (#[trigger] layer[j]).1.start
}

/// No range of `items` ends before it starts.
pub open spec fn run_forward(items: Seq<(Highlight, TextRange)>) -> bool {
    forall|i: int| 0 <= i < items.len() ==> (#[trigger] items[i]).1.start <= items[i].1.end
}

/// The elements of `layer` are those of `items` at the ascending indices `at`.
pub open spec fn is_selection(
    layer: Seq<(Highlight, TextRange)>,
    items: Seq<(Highlight, TextRange)>,
    at: Seq<int>,
) -> bool {
    &&& at.len() == layer.len()
    &&& forall|k: int|
        0 <= k < at.len() ==> 0 <= #[trigger] at[k] < items.len() && layer[k] == items[at[k]]
    &&& forall|j: int, k: int| 0 <= j < k < at.len() ==> #[trigger] at[j] < #[trigger] at[k]
}

/// The layer holds some of `items`, in the order in which they stand there.
pub open spec fn is_in_order_of(
    layer: Seq<(Highlight, TextRange)>,
    items: Seq<(Highlight, TextRange)>,
) -> bool {
    exists|at: Seq<int>| is_selection(layer, items, at)
}

/// What packing makes of a layer.
pub open spec fn is_packed_layer(
    layer: Seq<(Highlight, TextRange)>,
    items: Seq<(Highlight, TextRange)>,
) -> bool {
    layer.len() > 0 && is_chained(layer) && is_in_order_of(layer, items)
}

proof fn lemma_layered(
    layers: Seq<Seq<(Highlight, TextRange)>>,
    item: (Highlight, TextRange),
)
    ensures
        contents(layered(layers, item)) == contents(layers).insert(item),
        layered(layers, item).len() == layers.len() || {
            &&& layered(layers, item) == layers.push(seq![item])
            &&& forall|k: int|
                0 <= k < layers.len() ==> item.1.start < (#[trigger] layers[k]).last().1.end
        },
        layered(layers, item).len() == layers.len() ==> forall|k: int|
            0 <= k < layers.len() ==> (#[trigger] layered(layers, item)[k] == layers[k] || (
            layered(layers, item)[k] == layers[k].push(item) && item.1.start
                >= layers[k].last().1.end)),
    decreases layers.len(),
{
    broadcast use vstd::seq_lib::group_to_multiset_ensures;

    let out = layered(layers, item);
    if layers.len() == 0 {
        assert(out == layers.push(seq![item]));
        assert(out[0] == seq![item]);
        assert(out.drop_first() == Seq::<Seq<(Highlight, TextRange)>>::empty());
        assert(seq![item] == Seq::<(Highlight, TextRange)>::empty().push(item));
        assert(contents(out.drop_first()) == Multiset::<(Highlight, TextRange)>::empty());
        assert(Seq::<(Highlight, TextRange)>::empty().to_multiset() =~= Multiset::empty());
        assert(contents(out) =~= contents(layers).insert(item));
    } else {
        let first = layers[0];
        let rest = layers.drop_first();
        if item.1.start >= first.last().1.end {
            assert(out.drop_first() == rest);
            assert(out[0] == first.push(item));
            assert forall|k: int| 0 <= k < layers.len() implies (#[trigger] out[k] == layers[k] || (
            out[k] == layers[k].push(item) && item.1.start >= layers[k].last().1.end)) by {
                if k > 0 {
                    assert(out[k] == rest[k - 1]);
                }
            }
        } else {
            lemma_layered(rest, item);
            let below = layered(rest, item);
            assert(out.drop_first() == below);
            assert(out[0] == first);
            if below.len() == rest.len() {
                assert forall|k: int| 0 <= k < layers.len() implies (#[trigger] out[k] == layers[k]
                    || (out[k] == layers[k].push(item) && item.1.start
                    >= layers[k].last().1.end)) by {
                    if k > 0 {
                        assert(out[k] == below[k - 1]);
                        assert(layers[k] == rest[k - 1]);
                    }
                }
            } else {
                assert(out == layers.push(seq![item])) by {
                    assert(below == rest.push(seq![item]));
                    assert(seq![first] + rest.push(seq![item]) == layers.push(seq![item]));
                }
                assert forall|k: int| 0 <= k < layers.len() implies item.1.start < (
                #[trigger] layers[k]).last().1.end by {
                    if k > 0 {
                        assert(layers[k] == rest[k - 1]);
                    }
                }
            }
        }
        assert(contents(out) =~= contents(layers).insert(item));
    }
}

proof fn lemma_packed_layer_stays(
    layer: Seq<(Highlight, TextRange)>,
    items: Seq<(Highlight, TextRange)>,
    item: (Highlight, TextRange),
)
    requires
        is_packed_layer(layer, items),
    ensures
        is_packed_layer(layer, items.push(item)),
        item.1.start >= layer.last().1.end ==> is_packed_layer(
            layer.push(item),
            items.push(item),
        ),
{
    let at = choose|at: Seq<int>| is_selection(layer, items, at);
    let all = items.push(item);
    assert(is_selection(layer, all, at)) by {
        assert forall|k: int| 0 <= k < at.len() implies 0 <= #[trigger] at[k] < all.len() && layer[k]
            == all[at[k]] by {
            assert(all[at[k]] == items[at[k]]);
        }
    }
    if item.1.start >= layer.last().1.end {
        assert(is_selection(layer.push(item), all, at.push(items.len() as int)));
    }
}

proof fn lemma_packed_layers(items: Seq<(Highlight, TextRange)>)
    ensures
        forall|k: int|
            0 <= k < packed(items).len() ==> is_packed_layer(#[trigger] packed(items)[k], items),
        contents(packed(items)) == items.to_multiset(),
    decreases items.len(),
{
    broadcast use vstd::seq_lib::group_to_multiset_ensures;

    if items.len() > 0 {
        let front = items.drop_last();
        let item = items.last();
        let layers = packed(front);
        let out = packed(items);
        lemma_packed_layers(front);
        lemma_layered(layers, item);
        assert(items == front.push(item));
        assert forall|k: int| 0 <= k < out.len() implies is_packed_layer(#[trigger] out[k], items) by {
            if k < layers.len() {
                assert(is_packed_layer(layers[k], front));
                lemma_packed_layer_stays(layers[k], front, item);
                assert(out[k] == layers[k] || (out[k] == layers[k].push(item) && item.1.start
                    >= layers[k].last().1.end));
            } else {
                assert(out[k] == seq![item]);
                assert(is_selection(seq![item], items, seq![items.len() - 1]));
            }
        }
    } else {
        assert(contents(packed(items)) =~= items.to_multiset());
    }
}

proof fn lemma_chained_is_apart(layer: Seq<(Highlight, TextRange)>, i: int, j: int)
    requires
        is_chained(layer),
        run_forward(layer),
        0 <= i < j < layer.len(),
    ensures
        layer[i].1.end <= layer[j].1.start,
    decreases j - i,
{
    if i + 1 < j {
        lemma_chained_is_apart(layer, i, j - 1);
        let m = j - 1;
        assert(layer[m].1.start <= layer[m].1.end);
        assert(layer[m].1.end <= layer[j].1.start);
    }
}

/// Packing shows every range once. No layer is empty, each holds its ranges in the order in which
/// they were given, and each range of a layer ends before the next one starts; so no two ranges of
/// a layer overlap, where no range ends before it starts.
pub proof fn lemma_packing_keeps_ranges_apart(items: Seq<(Highlight, TextRange)>)
    ensures
        all_filled(packed(items)),
        contents(packed(items)) == items.to_multiset(),
        forall|k: int|
            0 <= k < packed(items).len() ==> is_chained(#[trigger] packed(items)[k])
                && is_in_order_of(packed(items)[k], items),
        run_forward(items) ==> forall|k: int|
            0 <= k < packed(items).len() ==> is_apart(#[trigger] packed(items)[k]),
        are_nonempty(items) ==> are_disjoint_layers(packed(items)),
{
    let layers = packed(items);
    lemma_packed_layers(items);
    if run_forward(items) || are_nonempty(items) {
        assert forall|k: int| 0 <= k < layers.len() implies is_apart(#[trigger] layers[k]) && (
        are_nonempty(items) ==> is_disjoint_layer(layers[k])) by {
            let layer = layers[k];
            assert(is_packed_layer(layer, items));
            let at = choose|at: Seq<int>| is_selection(layer, items, at);
            assert forall|i: int| 0 <= i < layer.len() implies (#[trigger] layer[i]).1.start
                <= layer[i].1.end && (are_nonempty(items) ==> layer[i].1.start
                < layer[i].1.end) by {
                assert(layer[i] == items[at[i]]);
            }
            assert forall|i: int, j: int| 0 <= i < j < layer.len() implies (#[trigger] layer[i]).1.end
                <= (#[trigger] layer[j]).1.start by {
                lemma_chained_is_apart(layer, i, j);
            }
        }
    }
}

/// The characters of the range include `at`.
pub open spec fn holds_at(item: (Highlight, TextRange), at: int) -> bool {
    item.1.start <= at && at < item.1.end
}

/// How many of the ranges hold the character `at`.
pub open spec fn holders(items: Multiset<(Highlight, TextRange)>, at: int) -> nat {
    items.filter(|item: (Highlight, TextRange)| holds_at(item, at)).len()
}

/// The ranges stand in the order of their starts.
pub open spec fn starts_ascend(items: Seq<(Highlight, TextRange)>) -> bool {
    forall|i: int, j: int|
        0 <= i < j < items.len() ==> (#[trigger] items[i]).1.start <= (#[trigger] items[j]).1.start
}

proof fn lemma_holders_insert(
    items: Multiset<(Highlight, TextRange)>,
    item: (Highlight, TextRange),
    at: int,
)
    ensures
        holders(items.insert(item), at) == holders(items, at) + if holds_at(item, at) {
            1nat
        } else {
            0nat
        },
{
    let f = |x: (Highlight, TextRange)| holds_at(x, at);
    if holds_at(item, at) {
        assert(items.insert(item).filter(f) =~= items.filter(f).insert(item));
    } else {
        assert(items.insert(item).filter(f) =~= items.filter(f));
    }
}

proof fn lemma_holders_add(
    a: Multiset<(Highlight, TextRange)>,
    b: Multiset<(Highlight, TextRange)>,
    at: int,
)
    ensures
        holders(a.add(b), at) == holders(a, at) + holders(b, at),
{
    let f = |x: (Highlight, TextRange)| holds_at(x, at);
    assert(a.add(b).filter(f) =~= a.filter(f).add(b.filter(f)));
}

proof fn lemma_holders_none(at: int)
    ensures
        holders(Multiset::empty(), at) == 0,
{
    let f = |x: (Highlight, TextRange)| holds_at(x, at);
    assert(Multiset::<(Highlight, TextRange)>::empty().filter(f) =~= Multiset::empty());
}

/// In a layer without overlaps one range at most holds a character.
proof fn lemma_holders_in_layer(layer: Seq<(Highlight, TextRange)>, at: int)
    requires
        is_disjoint_layer(layer),
    ensures
        holders(layer.to_multiset(), at) == if covers(layer, at) {
            1nat
        } else {
            0nat
        },
    decreases layer.len(),
{
    broadcast use vstd::seq_lib::group_to_multiset_ensures;

    if layer.len() == 0 {
        assert(layer.to_multiset() =~= Multiset::empty());
        lemma_holders_none(at);
    } else {
        let front = layer.drop_last();
        let last = layer.last();
        assert forall|i: int| 0 <= i < front.len() implies (#[trigger] front[i]).1.start
            < front[i].1.end && front[i].1.end <= last.1.start by {
            assert(front[i] == layer[i]);
            assert(layer[i].1.end <= layer[layer.len() - 1].1.start);
        }
        assert(is_disjoint_layer(front)) by {
            assert forall|i: int, j: int| 0 <= i < j < front.len() implies (#[trigger] front[i]).1.end
                <= (#[trigger] front[j]).1.start by {
                assert(layer[i].1.end <= layer[j].1.start);
            }
        }
        lemma_holders_in_layer(front, at);
        lemma_holders_insert(front.to_multiset(), last, at);
        assert(layer == front.push(last));
        if covers(front, at) {
            let i = choose|i: int|
                0 <= i < front.len() && (#[trigger] front[i]).1.start <= at && at < front[i].1.end;
            assert(layer[i] == front[i]);
        }
        if covers(layer, at) && !covers(front, at) {
            let i = choose|i: int|
                0 <= i < layer.len() && (#[trigger] layer[i]).1.start <= at && at < layer[i].1.end;
            if i < front.len() {
                assert(front[i] == layer[i]);
            }
        }
        if holds_at(last, at) {
            assert(layer[layer.len() - 1] == last);
        }
    }
}

/// A character is held by as many ranges as there are layers at most, and by that many where every
/// layer covers it.
proof fn lemma_holders_in_layers(layers: Seq<Seq<(Highlight, TextRange)>>, at: int)
    requires
        are_disjoint_layers(layers),
    ensures
        holders(contents(layers), at) <= layers.len(),
        all_cover(layers, at) ==> holders(contents(layers), at) == layers.len(),
    decreases layers.len(),
{
    if layers.len() == 0 {
        lemma_holders_none(at);
    } else {
        let rest = layers.drop_first();
        assert forall|k: int| 0 <= k < rest.len() implies is_disjoint_layer(#[trigger] rest[k]) by {
            assert(rest[k] == layers[k + 1]);
        }
        lemma_holders_in_layers(rest, at);
        assert(is_disjoint_layer(layers[0]));
        lemma_holders_in_layer(layers[0], at);
        lemma_holders_add(layers[0].to_multiset(), contents(rest), at);
        if all_cover(layers, at) {
            assert(covers(layers[0], at));
            assert forall|k: int| 0 <= k < rest.len() implies covers(#[trigger] rest[k], at) by {
                assert(rest[k] == layers[k + 1]);
            }
        }
    }
}

/// Where ranges are packed in the order of their starts, there are as many layers as the most
/// ranges that hold one character.
pub proof fn lemma_packing_uses_fewest_layers(items: Seq<(Highlight, TextRange)>)
    requires
        are_nonempty(items),
        starts_ascend(items),
    ensures
        exists|at: int| #[trigger] holders(items.to_multiset(), at) == packed(items).len(),
        forall|at: int| #[trigger] holders(items.to_multiset(), at) <= packed(items).len(),
{
    lemma_packing_keeps_ranges_apart(items);
    assert forall|at: int| #[trigger] holders(items.to_multiset(), at) <= packed(items).len() by {
        lemma_holders_in_layers(packed(items), at);
    }
    lemma_fewest_layers(items);
    let at = if items.len() > 0 {
        choose|at: int| #[trigger] all_cover(packed(items), at)
    } else {
        0
    };
    assert(all_cover(packed(items), at));
    lemma_holders_in_layers(packed(items), at);
    assert(holders(items.to_multiset(), at) == packed(items).len());
}

/// No other way to lay the same ranges out in layers without overlaps uses fewer layers.
pub proof fn lemma_no_layers_are_fewer(
    items: Seq<(Highlight, TextRange)>,
    layers: Seq<Seq<(Highlight, TextRange)>>,
)
    requires
        are_nonempty(items),
        starts_ascend(items),
        are_disjoint_layers(layers),
        contents(layers) == items.to_multiset(),
    ensures
        packed(items).len() <= layers.len(),
{
    lemma_packing_uses_fewest_layers(items);
    let at = choose|at: int| #[trigger] holders(items.to_multiset(), at) == packed(items).len();
    lemma_holders_in_layers(layers, at);
}

proof fn lemma_fewest_layers(items: Seq<(Highlight, TextRange)>)
    requires
        are_nonempty(items),
        starts_ascend(items),
    ensures
        items.len() > 0 ==> exists|at: int| #[trigger] all_cover(packed(items), at),
        forall|k: int, i: int|
            0 <= k < packed(items).len() && 0 <= i < packed(items)[k].len() ==> items.contains(
                #[trigger] packed(items)[k][i],
            ),
    decreases items.len(),
{
    if items.len() > 0 {
        let front = items.drop_last();
        let item = items.last();
        assert forall|i: int| 0 <= i < front.len() implies (#[trigger] front[i]).1.start
            < front[i].1.end && front[i].1.start <= item.1.start by {
            assert(front[i] == items[i]);
            assert(items[i].1.start <= items[items.len() - 1].1.start);
        }
        assert(starts_ascend(front)) by {
            assert forall|i: int, j: int| 0 <= i < j < front.len() implies (#[trigger] front[i]).1.start
                <= (#[trigger] front[j]).1.start by {
                assert(items[i].1.start <= items[j].1.start);
            }
        }
        assert(items[items.len() - 1].1.start < items[items.len() - 1].1.end);
        lemma_fewest_layers(front);
        lemma_packing_keeps_ranges_apart(front);
        let layers = packed(front);
        let out = packed(items);
        lemma_layered(layers, item);
        assert forall|k: int, i: int| 0 <= k < out.len() && 0 <= i < out[k].len() implies items.contains(
            #[trigger] out[k][i],
        ) by {
            assert(items[items.len() - 1] == item);
            if out.len() == layers.len() {
                assert(out[k] == layers[k] || out[k] == layers[k].push(item));
                if i < layers[k].len() {
                    assert(out[k][i] == layers[k][i]);
                    assert(front.contains(layers[k][i]));
                    let m = front.index_of(layers[k][i]);
                    assert(items[m] == layers[k][i]);
                }
            } else if k < layers.len() {
                assert(out[k] == layers[k]);
                assert(out[k][i] == layers[k][i]);
                assert(front.contains(layers[k][i]));
                let m = front.index_of(layers[k][i]);
                assert(items[m] == layers[k][i]);
            } else {
                assert(out[k] == seq![item]);
            }
        }
        if out.len() == layers.len() {
            if front.len() == 0 {
                assert(layers.len() == 0);
                assert(all_cover(out, 0));
            } else {
                let at = choose|at: int| #[trigger] all_cover(layers, at);
                assert forall|k: int| 0 <= k < out.len() implies covers(#[trigger] out[k], at) by {
                    assert(covers(layers[k], at));
                    let i = choose|i: int|
                        0 <= i < layers[k].len() && (#[trigger] layers[k][i]).1.start <= at && at
                            < layers[k][i].1.end;
                    assert(out[k][i] == layers[k][i]);
                }
                assert(all_cover(out, at));
            }
        } else {
            let at = item.1.start as int;
            assert forall|k: int| 0 <= k < out.len() implies covers(#[trigger] out[k], at) by {
                if k < layers.len() {
                    assert(out[k] == layers[k]);
                    let last = layers[k].len() - 1;
                    assert(layers[k].len() > 0);
                    assert(item.1.start < layers[k].last().1.end);
                    assert(front.contains(layers[k][last]));
                    let m = front.index_of(layers[k][last]);
                    assert(front[m].1.start <= item.1.start);
                    assert(out[k][last].1.start <= at && at < out[k][last].1.end);
                } else {
                    assert(out[k] == seq![item]);
                    assert(out[k][0].1.start <= at && at < out[k][0].1.end);
                }
            }
            assert(all_cover(out, at));
        }
    }
}

/// The highlighted range of a span.
pub open spec fn span_item(numbered: NumberedSpan, mode: DocumentColorMode) -> (
    Highlight,
    TextRange,
) {
    (span_highlight(numbered, mode), numbered.span.range)
}

/// `item` is the highlighted range of one of `spans`, and it is not empty.
pub open spec fn is_of_span(
    item: (Highlight, TextRange),
    spans: Seq<NumberedSpan>,
    mode: DocumentColorMode,
) -> bool {
    exists|i: int|
        0 <= i < spans.len() && (#[trigger] spans[i]).span.range.start < spans[i].span.range.end && item
            == span_item(spans[i], mode)
}

proof fn lemma_highlighted(spans: Seq<NumberedSpan>, mode: DocumentColorMode)
    ensures
        are_nonempty(highlighted(spans, mode)),
        forall|x: (Highlight, TextRange)|
            highlighted(spans, mode).contains(x) <==> #[trigger] is_of_span(x, spans, mode),
    decreases spans.len(),
{
    let out = highlighted(spans, mode);
    if spans.len() > 0 {
        let front = spans.drop_last();
        let span = spans.last();
        let before = highlighted(front, mode);
        lemma_highlighted(front, mode);
        assert forall|x: (Highlight, TextRange)| out.contains(x) <==> #[trigger] is_of_span(
            x,
            spans,
            mode,
        ) by {
            if out.contains(x) {
                let k = out.index_of(x);
                if k < before.len() {
                    assert(before[k] == x);
                    assert(is_of_span(x, front, mode));
                    let i = choose|i: int|
                        0 <= i < front.len() && (#[trigger] front[i]).span.range.start
                            < front[i].span.range.end && x == span_item(front[i], mode);
                    assert(spans[i] == front[i]);
                } else {
                    assert(spans[spans.len() - 1] == span);
                }
            }
            if is_of_span(x, spans, mode) {
                let i = choose|i: int|
                    0 <= i < spans.len() && (#[trigger] spans[i]).span.range.start < spans[i].span.range.end
                        && x == span_item(spans[i], mode);
                if i < front.len() {
                    assert(front[i] == spans[i]);
                    assert(is_of_span(x, front, mode));
                    assert(before.contains(x));
                    let k = before.index_of(x);
                    assert(out[k] == x);
                } else {
                    assert(out[before.len() as int] == x);
                }
            }
        }
    }
}

proof fn lemma_unrepeated(s: Seq<(Highlight, TextRange)>)
    requires
        ascending(s, highlight_order()),
    ensures
        ascending(unrepeated(s), highlight_order()),
        forall|i: int, j: int|
            0 <= i < j < unrepeated(s).len() ==> !same_highlight(
                #[trigger] unrepeated(s)[i],
                #[trigger] unrepeated(s)[j],
            ),
        forall|i: int| 0 <= i < unrepeated(s).len() ==> s.contains(#[trigger] unrepeated(s)[i]),
        forall|i: int| 0 <= i < s.len() ==> is_among(#[trigger] s[i], unrepeated(s)),
        s.len() > 0 ==> unrepeated(s).len() > 0 && same_highlight(unrepeated(s).last(), s.last()),
    decreases s.len(),
{
    if s.len() > 0 {
        let front = s.drop_last();
        let x = s.last();
        let before = unrepeated(front);
        let out = unrepeated(s);
        assert(ascending(front, highlight_order())) by {
            assert forall|i: int, j: int| 0 <= i < j < front.len() implies highlight_order()(
                #[trigger] front[i],
                #[trigger] front[j],
            ) by {
                assert(highlight_order()(s[i], s[j]));
            }
        }
        lemma_unrepeated(front);
        assert forall|i: int| 0 <= i < before.len() implies highlight_le(#[trigger] before[i], x) by {
            assert(front.contains(before[i]));
            let m = front.index_of(before[i]);
            assert(highlight_order()(s[m], s[s.len() - 1]));
        }
        assert forall|i: int| 0 <= i < out.len() implies s.contains(#[trigger] out[i]) by {
            if i < before.len() {
                assert(out[i] == before[i]);
                assert(front.contains(before[i]));
                let m = front.index_of(before[i]);
                assert(s[m] == out[i]);
            } else {
                assert(s[s.len() - 1] == out[i]);
            }
        }
        if before.len() > 0 && same_highlight(before.last(), x) {
            assert(out == before);
        } else {
            assert(out == before.push(x));
            assert forall|i: int, j: int| 0 <= i < j < out.len() implies highlight_order()(
                #[trigger] out[i],
                #[trigger] out[j],
            ) by {
                if j < before.len() {
                    assert(highlight_order()(before[i], before[j]));
                } else {
                    assert(out[i] == before[i]);
                }
            }
            assert forall|i: int, j: int| 0 <= i < j < out.len() implies !same_highlight(
                #[trigger] out[i],
                #[trigger] out[j],
            ) by {
                assert(out[i] == before[i]);
                if j < before.len() {
                    assert(out[j] == before[j]);
                } else if i < before.len() - 1 {
                    let last = before.len() - 1;
                    assert(!same_highlight(before[i], before[last]));
                    assert(highlight_order()(before[i], before[last]));
                    assert(highlight_le(before[last], x));
                }
            }
        }
        assert forall|i: int| 0 <= i < s.len() implies is_among(#[trigger] s[i], out) by {
            if i < front.len() {
                assert(s[i] == front[i]);
                assert(is_among(front[i], before));
                let k = choose|k: int| 0 <= k < before.len() && same_highlight(#[trigger] before[k], front[i]);
                assert(out[k] == before[k]);
            } else {
                assert(same_highlight(out[out.len() - 1], x));
            }
        }
    }
}

/// One of `items` is the same highlighted range as `x`.
pub open spec fn is_among(x: (Highlight, TextRange), items: Seq<(Highlight, TextRange)>) -> bool {
    exists|i: int| 0 <= i < items.len() && same_highlight(#[trigger] items[i], x)
}

proof fn lemma_in_order_contains<A>(s: Seq<A>, t: Seq<A>, x: A)
    requires
        s.to_multiset() == t.to_multiset(),
    ensures
        s.contains(x) == t.contains(x),
{
    broadcast use vstd::seq_lib::group_to_multiset_ensures;

    assert(s.contains(x) <==> s.to_multiset().count(x) > 0);
    assert(t.contains(x) <==> t.to_multiset().count(x) > 0);
}

/// The ranges that are laid over the text are those of the spans that are not empty, each once, in
/// the order of their starts.
pub proof fn lemma_overlay_ranges(spans: Seq<NumberedSpan>, mode: DocumentColorMode)
    ensures
        are_nonempty(overlay_ranges(spans, mode)),
        ascending(overlay_ranges(spans, mode), highlight_order()),
        forall|i: int, j: int|
            0 <= i < j < overlay_ranges(spans, mode).len() ==> !same_highlight(
                #[trigger] overlay_ranges(spans, mode)[i],
                #[trigger] overlay_ranges(spans, mode)[j],
            ),
        forall|i: int|
            0 <= i < overlay_ranges(spans, mode).len() ==> is_of_span(
                #[trigger] overlay_ranges(spans, mode)[i],
                spans,
                mode,
            ),
        forall|i: int|
            0 <= i < spans.len() && (#[trigger] spans[i]).span.range.start < spans[i].span.range.end
                ==> is_among(span_item(spans[i], mode), overlay_ranges(spans, mode)),
{
    let sorted = in_order(spans, span_order());
    let items = highlighted(sorted, mode);
    let ordered = in_order(items, highlight_order());
    let out = overlay_ranges(spans, mode);
    lemma_rank_order::<NumberedSpan>();
    lemma_rank_order::<(Highlight, TextRange)>();
    lemma_in_order(spans, span_order());
    lemma_in_order(items, highlight_order());
    lemma_highlighted(sorted, mode);
    lemma_unrepeated(ordered);
    assert forall|i: int| 0 <= i < out.len() implies is_of_span(#[trigger] out[i], spans, mode)
        && out[i].1.start < out[i].1.end by {
        assert(ordered.contains(out[i]));
        lemma_in_order_contains(ordered, items, out[i]);
        assert(is_of_span(out[i], sorted, mode));
        let k = choose|k: int|
            0 <= k < sorted.len() && (#[trigger] sorted[k]).span.range.start < sorted[k].span.range.end
                && out[i] == span_item(sorted[k], mode);
        assert(sorted.contains(sorted[k]));
        lemma_in_order_contains(sorted, spans, sorted[k]);
        let m = spans.index_of(sorted[k]);
        assert(spans[m] == sorted[k]);
    }
    assert forall|i: int|
        0 <= i < spans.len() && (#[trigger] spans[i]).span.range.start < spans[i].span.range.end implies is_among(
        span_item(spans[i], mode),
        out,
    ) by {
        let x = span_item(spans[i], mode);
        assert(spans.contains(spans[i]));
        lemma_in_order_contains(sorted, spans, spans[i]);
        let m = sorted.index_of(spans[i]);
        assert(sorted[m] == spans[i]);
        assert(is_of_span(x, sorted, mode));
        assert(items.contains(x));
        lemma_in_order_contains(ordered, items, x);
        let k = ordered.index_of(x);
        assert(is_among(ordered[k], out));
    }
}

/// Colors are shown over the text exactly if some span has a range that is not empty. Then no two
/// ranges of one layer overlap, every range of a span is in some layer, once, and there are as many
/// layers as the most ranges that hold one character, so that no fewer layers would do.
pub proof fn lemma_overlays_are_packed(spans: Seq<NumberedSpan>, mode: DocumentColorMode)
    requires
        mode != DocumentColorMode::Virtual,
    ensures
        built_colors(spans, mode) is Some <==> exists|i: int|
            0 <= i < spans.len() && (#[trigger] spans[i]).span.range.start < spans[i].span.range.end,
        built_colors(spans, mode) matches Some(colors) ==> {
            let layers = packed(overlay_ranges(spans, mode));
            &&& colors.overlay_highlights == heterogenous(layers)
            &&& layers.len() > 0
            &&& all_filled(layers)
            &&& are_disjoint_layers(layers)
            &&& contents(layers) == overlay_ranges(spans, mode).to_multiset()
            &&& exists|at: int| #[trigger] holders(contents(layers), at) == layers.len()
            &&& forall|at: int| #[trigger] holders(contents(layers), at) <= layers.len()
        },
{
    let sorted = in_order(spans, span_order());
    let items = highlighted(sorted, mode);
    let out = overlay_ranges(spans, mode);
    lemma_rank_order::<NumberedSpan>();
    lemma_rank_order::<(Highlight, TextRange)>();
    lemma_in_order(spans, span_order());
    lemma_in_order(items, highlight_order());
    lemma_highlighted(sorted, mode);
    lemma_overlay_ranges(spans, mode);
    if items.len() > 0 {
        lemma_unrepeated(in_order(items, highlight_order()));
        assert(out.len() > 0);
        assert(is_of_span(out[0], spans, mode));
        lemma_packing_keeps_ranges_apart(out);
        assert(starts_ascend(out)) by {
            assert forall|i: int, j: int| 0 <= i < j < out.len() implies (#[trigger] out[i]).1.start
                <= (#[trigger] out[j]).1.start by {
                assert(highlight_order()(out[i], out[j]));
            }
        }
        lemma_packing_uses_fewest_layers(out);
        lemma_layers_of_something(out);
    }
    if exists|i: int| 0 <= i < spans.len() && (#[trigger] spans[i]).span.range.start < spans[i].span.range.end {
        let i = choose|i: int|
            0 <= i < spans.len() && (#[trigger] spans[i]).span.range.start < spans[i].span.range.end;
        assert(is_among(span_item(spans[i], mode), out));
        if items.len() == 0 {
            assert(in_order(items, highlight_order()).len() == 0);
            assert(out.len() == 0);
        }
    }
}

proof fn lemma_layers_of_something(items: Seq<(Highlight, TextRange)>)
    requires
        items.len() > 0,
    ensures
        packed(items).len() > 0,
{
    let layers = packed(items.drop_last());
    if layers.len() > 0 {
        assert(layered(layers, items.last()).len() > 0);
    }
}

/// Every span has one swatch and one blank before it, both at its anchor, and one highlight; the
/// swatches stand in the order of their positions.
pub proof fn lemma_swatches(spans: Seq<NumberedSpan>)
    requires
        spans.len() > 0,
    ensures
        built_colors(spans, DocumentColorMode::Virtual) matches Some(colors) && {
            &&& colors.overlay_highlights.len() == 0
            &&& colors.inline_annotations.len() == spans.len()
            &&& colors.inline_padding_before.len() == spans.len()
            &&& colors.inline_annotation_highlights.len() == spans.len()
            &&& forall|i: int|
                0 <= i < spans.len() ==> (#[trigger] colors.inline_padding_before[i]).char_idx
                    == colors.inline_annotations[i].char_idx
            &&& forall|i: int, j: int|
                0 <= i < j < spans.len() ==> (#[trigger] colors.inline_annotations[i]).char_idx <= (
                #[trigger] colors.inline_annotations[j]).char_idx
            &&& forall|i: int|
                0 <= i < spans.len() ==> has_swatch(#[trigger] spans[i], colors)
        },
{
    let mode = DocumentColorMode::Virtual;
    let sorted = in_order(spans, span_order());
    lemma_rank_order::<NumberedSpan>();
    lemma_in_order(spans, span_order());
    let colors = built_colors(spans, mode)->0;
    assert forall|i: int, j: int| 0 <= i < j < spans.len() implies (
    #[trigger] colors.inline_annotations[i]).char_idx <= (
    #[trigger] colors.inline_annotations[j]).char_idx by {
        assert(span_order()(sorted[i], sorted[j]));
    }
    assert forall|i: int| 0 <= i < spans.len() implies has_swatch(#[trigger] spans[i], colors) by {
        assert(spans.contains(spans[i]));
        lemma_in_order_contains(sorted, spans, spans[i]);
        let k = sorted.index_of(spans[i]);
        assert(colors.inline_annotations[k].char_idx == spans[i].span.anchor);
        assert(colors.inline_annotation_highlights[k] == span_highlight(spans[i], mode));
    }
}

/// There is a swatch at the anchor of the span with the highlight of its color.
pub open spec fn has_swatch(numbered: NumberedSpan, colors: ColorsView<Highlight>) -> bool {
    exists|k: int|
        0 <= k < colors.inline_annotations.len() && (#[trigger] colors.inline_annotations[k]).char_idx
            == numbered.span.anchor && colors.inline_annotation_highlights[k] == span_highlight(
            numbered,
            DocumentColorMode::Virtual,
        )
}

} // verus!
