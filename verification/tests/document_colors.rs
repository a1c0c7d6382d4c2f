use sidebar_swatches::color_moves::{
    current_positions, do_moves_fit, update_document_colors, ColorMoves, OverlayMoves, Positions,
    Side,
};
use sidebar_swatches::colors::{
    build_document_colors, document_color_paint, document_color_to_highlight,
    pack_overlay_highlights, DocumentColorMode, DocumentColorSpan, DocumentColors, Highlight,
    InlineAnnotation, NumberedSpan, OverlayHighlights, Paint, Rgb, TextRange,
};

/// The color with the given channels, each between 0 and 1.
fn color(red: f32, green: f32, blue: f32) -> Rgb {
    let [red, green, blue] =
        [red, green, blue].map(|channel| (channel.clamp(0., 1.) * 255.).round() as u8);
    Rgb { red, green, blue }
}

/// A span whose highlight has a number that is made of the channels of its color.
fn span(anchor: usize, range: std::ops::Range<usize>, color: Rgb) -> NumberedSpan {
    let number = (color.red as u32) << 16 | (color.green as u32) << 8 | color.blue as u32;
    NumberedSpan {
        span: DocumentColorSpan {
            anchor,
            range: TextRange { start: range.start, end: range.end },
            color,
        },
        number,
    }
}

fn highlights_of(overlay: &OverlayHighlights<Highlight>) -> &Vec<(Highlight, TextRange)> {
    match overlay {
        OverlayHighlights::Heterogenous { highlights } => highlights,
        OverlayHighlights::Homogeneous { .. } => panic!("expected heterogenous highlights"),
    }
}

fn layers(colors: &DocumentColors<Highlight>) -> Vec<Vec<(u32, usize, usize)>> {
    colors
        .overlay_highlights
        .iter()
        .map(|overlay| {
            highlights_of(overlay)
                .iter()
                .map(|(highlight, range)| (highlight.number, range.start, range.end))
                .collect()
        })
        .collect()
}

fn highlight(number: u32) -> Highlight {
    Highlight { paint: Paint::Foreground(Rgb { red: 1, green: 2, blue: 3 }), number }
}

#[test]
fn virtual_mode_builds_inline_annotations() {
    let document_colors = build_document_colors(
        vec![span(4, 4..11, color(0.1, 0.2, 0.3))],
        DocumentColorMode::Virtual,
    )
    .expect("expected document colors");

    assert_eq!(document_colors.inline_padding_before.len(), 1);
    assert_eq!(document_colors.inline_padding_before[0].char_idx, 4);
    assert_eq!(&*document_colors.inline_padding_before[0].text, " ");
    assert_eq!(document_colors.inline_annotations.len(), 1);
    assert_eq!(document_colors.inline_annotations[0].char_idx, 4);
    assert_eq!(&*document_colors.inline_annotations[0].text, "■");
    assert_eq!(document_colors.overlay_highlights.len(), 0);
    assert_eq!(
        document_colors.inline_annotation_highlights[0].paint,
        Paint::Foreground(Rgb { red: 26, green: 51, blue: 77 })
    );
}

#[test]
fn foreground_mode_builds_overlay_highlights() {
    let document_colors = build_document_colors(
        vec![span(0, 1..8, color(0.25, 0.5, 0.75))],
        DocumentColorMode::Foreground,
    )
    .expect("expected document colors");

    assert!(document_colors.inline_annotations.is_empty());
    assert_eq!(document_colors.overlay_highlights.len(), 1);
    let highlights = highlights_of(&document_colors.overlay_highlights[0]);
    assert_eq!(highlights.len(), 1);
    assert_eq!(highlights[0].1, TextRange { start: 1, end: 8 });
    assert_eq!(
        highlights[0].0.paint,
        Paint::Foreground(Rgb { red: 64, green: 128, blue: 191 })
    );
}

#[test]
fn background_mode_builds_overlay_highlights() {
    let document_colors = build_document_colors(
        vec![span(0, 1..8, color(0.95, 0.9, 0.2))],
        DocumentColorMode::Background,
    )
    .expect("expected document colors");

    let highlights = highlights_of(&document_colors.overlay_highlights[0]);
    assert_eq!(
        highlights[0].0.paint,
        Paint::Background(Rgb { red: 242, green: 230, blue: 51 })
    );
}

#[test]
fn overlapping_ranges_are_split_into_separate_layers() {
    let document_colors = build_document_colors(
        vec![
            span(0, 0..7, color(1.0, 0.0, 0.0)),
            span(0, 0..7, color(0.0, 1.0, 0.0)),
        ],
        DocumentColorMode::Foreground,
    )
    .expect("expected document colors");

    assert_eq!(document_colors.overlay_highlights.len(), 2);
    assert_eq!(layers(&document_colors), vec![vec![(0x00FF00, 0, 7)], vec![(0xFF0000, 0, 7)]]);
}

#[test]
fn no_spans_give_no_colors() {
    for mode in [
        DocumentColorMode::Virtual,
        DocumentColorMode::Foreground,
        DocumentColorMode::Background,
    ] {
        assert!(build_document_colors(vec![], mode).is_none());
    }
}

#[test]
fn empty_ranges_have_swatches_but_no_overlays() {
    let spans = || {
        vec![
            span(3, 3..3, Rgb { red: 1, green: 1, blue: 1 }),
            span(9, 9..2, Rgb { red: 2, green: 2, blue: 2 }),
        ]
    };
    assert!(build_document_colors(spans(), DocumentColorMode::Foreground).is_none());
    assert!(build_document_colors(spans(), DocumentColorMode::Background).is_none());
    let colors = build_document_colors(spans(), DocumentColorMode::Virtual).unwrap();
    assert_eq!(colors.inline_annotations.len(), 2);
}

#[test]
fn swatches_stand_in_the_order_of_their_positions() {
    let colors = build_document_colors(
        vec![
            span(7, 7..9, Rgb { red: 9, green: 0, blue: 0 }),
            span(2, 2..8, Rgb { red: 8, green: 0, blue: 0 }),
            span(2, 2..4, Rgb { red: 7, green: 0, blue: 0 }),
            span(2, 2..4, Rgb { red: 6, green: 0, blue: 0 }),
            span(2, 2..4, Rgb { red: 6, green: 0, blue: 0 }),
        ],
        DocumentColorMode::Virtual,
    )
    .unwrap();
    let positions: Vec<usize> = colors.inline_annotations.iter().map(|a| a.char_idx).collect();
    assert_eq!(positions, vec![2, 2, 2, 2, 7]);
    let paddings: Vec<usize> = colors.inline_padding_before.iter().map(|a| a.char_idx).collect();
    assert_eq!(paddings, positions);
    let numbers: Vec<u32> = colors.inline_annotation_highlights.iter().map(|h| h.number).collect();
    assert_eq!(numbers, vec![0x060000, 0x060000, 0x070000, 0x080000, 0x090000]);
}

#[test]
fn repeated_ranges_are_shown_once() {
    let red = Rgb { red: 255, green: 0, blue: 0 };
    let colors = build_document_colors(
        vec![span(1, 1..4, red), span(6, 6..9, red), span(1, 1..4, red)],
        DocumentColorMode::Background,
    )
    .unwrap();
    assert_eq!(layers(&colors), vec![vec![(0xFF0000, 1, 4), (0xFF0000, 6, 9)]]);
}

#[test]
fn overlays_are_ordered_by_range_and_not_by_anchor() {
    let colors = build_document_colors(
        vec![
            span(0, 5..9, Rgb { red: 0, green: 0, blue: 1 }),
            span(1, 2..5, Rgb { red: 0, green: 0, blue: 2 }),
        ],
        DocumentColorMode::Foreground,
    )
    .unwrap();
    assert_eq!(layers(&colors), vec![vec![(2, 2, 5), (1, 5, 9)]]);
}

#[test]
fn ranges_are_packed_into_the_first_layer_with_room() {
    let ranges = [(0, 4), (2, 6), (3, 5), (4, 8), (6, 7)];
    let items = ranges
        .iter()
        .enumerate()
        .map(|(i, (start, end))| (highlight(i as u32), TextRange { start: *start, end: *end }))
        .collect();
    let packed = pack_overlay_highlights(items);
    let numbers: Vec<Vec<u32>> = packed
        .iter()
        .map(|overlay| highlights_of(overlay).iter().map(|(h, _)| h.number).collect())
        .collect();
    assert_eq!(numbers, vec![vec![0, 3], vec![1, 4], vec![2]]);
    assert!(pack_overlay_highlights(vec![]).is_empty());
}

#[test]
fn order_of_spans_does_not_matter() {
    let spans = vec![
        span(4, 4..9, Rgb { red: 1, green: 0, blue: 0 }),
        span(4, 4..9, Rgb { red: 0, green: 1, blue: 0 }),
        span(2, 2..6, Rgb { red: 0, green: 0, blue: 1 }),
        span(4, 4..9, Rgb { red: 1, green: 0, blue: 0 }),
        span(6, 6..6, Rgb { red: 1, green: 1, blue: 1 }),
    ];
    for mode in [
        DocumentColorMode::Virtual,
        DocumentColorMode::Foreground,
        DocumentColorMode::Background,
    ] {
        let expected = format!("{:?}", build_document_colors(spans.clone(), mode));
        let mut permuted = spans.clone();
        for _ in 0..spans.len() {
            permuted.rotate_left(1);
            assert_eq!(format!("{:?}", build_document_colors(permuted.clone(), mode)), expected);
            let reversed: Vec<NumberedSpan> = permuted.iter().rev().copied().collect();
            assert_eq!(format!("{:?}", build_document_colors(reversed, mode)), expected);
        }
    }
}

#[test]
fn overlays_depend_on_ranges_alone() {
    let red = Rgb { red: 255, green: 0, blue: 0 };
    let blue = Rgb { red: 0, green: 0, blue: 255 };
    let plain = vec![span(1, 1..4, red), span(3, 3..9, blue)];
    let anchored = vec![span(8, 1..4, red), span(0, 3..9, blue), span(5, 1..4, red)];
    for mode in [DocumentColorMode::Foreground, DocumentColorMode::Background] {
        assert_eq!(
            format!("{:?}", build_document_colors(plain.clone(), mode)),
            format!("{:?}", build_document_colors(anchored.clone(), mode))
        );
    }
}

#[test]
fn layers_are_as_many_as_ranges_that_meet() {
    let ranges = [(0, 9), (0, 2), (1, 3), (2, 5), (4, 6), (5, 9)];
    let items: Vec<(Highlight, TextRange)> = ranges
        .iter()
        .map(|(start, end)| (highlight(7), TextRange { start: *start, end: *end }))
        .collect();
    let meeting = |at: usize| {
        items.iter().filter(|(_, range)| range.start <= at && at < range.end).count()
    };
    let most = (0..10).map(meeting).max().unwrap();
    assert_eq!(most, 3);
    assert_eq!(pack_overlay_highlights(items.clone()).len(), most);
}

#[test]
fn layers_keep_the_order_of_their_ranges() {
    // Empty ranges and ranges that start early are packed as they come.
    let ranges = [(5, 5), (0, 3), (5, 7), (3, 3), (7, 9)];
    let items = ranges
        .iter()
        .enumerate()
        .map(|(i, (start, end))| (highlight(i as u32), TextRange { start: *start, end: *end }))
        .collect();
    let numbers: Vec<Vec<u32>> = pack_overlay_highlights(items)
        .iter()
        .map(|overlay| highlights_of(overlay).iter().map(|(h, _)| h.number).collect())
        .collect();
    assert_eq!(numbers, vec![vec![0, 2, 4], vec![1, 3]]);
}

#[test]
fn mode_decides_what_is_painted() {
    let color = Rgb { red: 4, green: 5, blue: 6 };
    assert_eq!(document_color_paint(color, DocumentColorMode::Virtual), Paint::Foreground(color));
    assert_eq!(
        document_color_to_highlight(color, DocumentColorMode::Foreground, 17),
        Highlight { paint: Paint::Foreground(color), number: 17 }
    );
    assert_eq!(
        document_color_to_highlight(color, DocumentColorMode::Background, 18),
        Highlight { paint: Paint::Background(color), number: 18 }
    );
}

fn after(at: Vec<usize>) -> Positions {
    Positions { side: Side::After, at }
}

fn before(at: Vec<usize>) -> Positions {
    Positions { side: Side::Before, at }
}

fn sample() -> DocumentColors<Highlight> {
    DocumentColors {
        inline_annotations: vec![InlineAnnotation { char_idx: 3, text: "■".to_string() }],
        inline_annotation_highlights: vec![highlight(5)],
        inline_padding_before: vec![InlineAnnotation { char_idx: 3, text: " ".to_string() }],
        overlay_highlights: vec![
            OverlayHighlights::Heterogenous {
                highlights: vec![
                    (highlight(1), TextRange { start: 0, end: 4 }),
                    (highlight(2), TextRange { start: 4, end: 8 }),
                ],
            },
            OverlayHighlights::Homogeneous {
                highlight: highlight(3),
                ranges: vec![TextRange { start: 2, end: 5 }, TextRange { start: 6, end: 7 }],
            },
        ],
    }
}

#[test]
fn current_positions_are_those_of_the_colors() {
    let colors = sample();
    let moves = current_positions(&colors);
    assert!(do_moves_fit(&colors, &moves));
    assert_eq!(moves.annotations.at, vec![3]);
    assert_eq!(moves.paddings.at, vec![3]);
    assert_eq!(moves.overlays.len(), 2);
    assert_eq!(moves.overlays[0].starts.at, vec![0, 4]);
    assert_eq!(moves.overlays[0].ends.at, vec![4, 8]);
    assert_eq!(moves.overlays[1].starts.at, vec![2, 6]);
    assert_eq!(moves.overlays[1].ends.at, vec![5, 7]);
}

#[test]
fn only_the_ends_of_ranges_keep_before_inserted_text() {
    let moves = current_positions(&sample());
    assert_eq!(moves.annotations.side, Side::After);
    assert_eq!(moves.paddings.side, Side::After);
    for overlay in &moves.overlays {
        assert_eq!(overlay.starts.side, Side::After);
        assert_eq!(overlay.ends.side, Side::Before);
    }
}

#[test]
fn colors_that_are_not_moved_stay() {
    let moves = current_positions(&sample());
    let updated = update_document_colors(sample(), &moves);
    assert_eq!(format!("{:?}", updated), format!("{:?}", sample()));
}

#[test]
fn ranges_that_become_empty_are_dropped() {
    let moves = ColorMoves {
        annotations: after(vec![10]),
        paddings: after(vec![11]),
        overlays: vec![
            OverlayMoves { starts: after(vec![2, 6]), ends: before(vec![2, 9]) },
            OverlayMoves { starts: after(vec![4, 8]), ends: before(vec![4, 7]) },
        ],
    };
    assert!(do_moves_fit(&sample(), &moves));
    let updated = update_document_colors(sample(), &moves);
    assert_eq!(updated.inline_annotations[0].char_idx, 10);
    assert_eq!(updated.inline_annotations[0].text, "■");
    assert_eq!(updated.inline_padding_before[0].char_idx, 11);
    assert_eq!(updated.inline_annotation_highlights, vec![highlight(5)]);
    assert_eq!(updated.overlay_highlights.len(), 1);
    assert_eq!(
        *highlights_of(&updated.overlay_highlights[0]),
        vec![(highlight(2), TextRange { start: 6, end: 9 })]
    );
}

#[test]
fn homogeneous_layers_keep_their_highlight() {
    let mut moves = current_positions(&sample());
    moves.overlays[1].ends.at = vec![1, 9];
    let updated = update_document_colors(sample(), &moves);
    match &updated.overlay_highlights[1] {
        OverlayHighlights::Homogeneous { highlight: kept, ranges } => {
            assert_eq!(*kept, highlight(3));
            assert_eq!(*ranges, vec![TextRange { start: 6, end: 9 }]);
        }
        OverlayHighlights::Heterogenous { .. } => panic!("expected homogeneous highlights"),
    }
}

#[test]
fn positions_that_do_not_fit_are_noticed() {
    let mut moves = current_positions(&sample());
    moves.annotations.at.push(1);
    assert!(!do_moves_fit(&sample(), &moves));
    let mut moves = current_positions(&sample());
    moves.overlays[1].ends.at.pop();
    assert!(!do_moves_fit(&sample(), &moves));
    let mut moves = current_positions(&sample());
    moves.overlays.pop();
    assert!(!do_moves_fit(&sample(), &moves));
    let mut moves = current_positions(&sample());
    moves.paddings.at.clear();
    assert!(!do_moves_fit(&sample(), &moves));
}

#[test]
fn ranges_stay_apart_when_text_is_inserted_between_them() {
    let mut moves = current_positions(&sample());
    // Three characters are inserted at 4.
    let insert = |positions: &mut Positions| {
        for at in positions.at.iter_mut() {
            if *at > 4 || (*at == 4 && positions.side == Side::After) {
                *at += 3;
            }
        }
    };
    insert(&mut moves.annotations);
    insert(&mut moves.paddings);
    for overlay in moves.overlays.iter_mut() {
        insert(&mut overlay.starts);
        insert(&mut overlay.ends);
    }
    let updated = update_document_colors(sample(), &moves);
    assert_eq!(
        *highlights_of(&updated.overlay_highlights[0]),
        vec![
            (highlight(1), TextRange { start: 0, end: 4 }),
            (highlight(2), TextRange { start: 7, end: 11 }),
        ]
    );
}
