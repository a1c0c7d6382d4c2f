use sidebar_swatches::color_requests::{
    attach_document_colors, document_changed, document_opened, request_document_colors,
    server_exited, server_initialized, ColorMention, ColorRequest, DocumentColorsHandler,
    HookAction, ReplyAction, ReplyEvent, RequestStart, ServerUse, DOCUMENT_CHANGE_DEBOUNCE,
};
use sidebar_swatches::colors::{
    DocumentColorMode, DocumentColorSpan, NumberedSpan, Rgb, TextRange,
};

const RED: Rgb = Rgb { red: 255, green: 0, blue: 0 };
const BLUE: Rgb = Rgb { red: 0, green: 0, blue: 255 };

fn numbered(start: usize, end: usize) -> NumberedSpan {
    NumberedSpan {
        span: DocumentColorSpan { anchor: start, range: TextRange { start, end }, color: RED },
        number: 1,
    }
}

#[test]
fn changes_are_merged_until_the_debounce_is_over() {
    let mut handler = DocumentColorsHandler::new();
    assert!(handler.finish_debounce().is_empty());
    for doc_id in [3, 5, 3, 3] {
        assert_eq!(handler.handle_event(doc_id), Some(DOCUMENT_CHANGE_DEBOUNCE));
    }
    let mut docs: Vec<u64> = handler.finish_debounce().into_iter().collect();
    docs.sort();
    assert_eq!(docs, vec![3, 5]);
    assert!(handler.finish_debounce().is_empty());
}

#[test]
fn debounce_takes_a_quarter_of_a_second() {
    assert_eq!(DOCUMENT_CHANGE_DEBOUNCE, 250);
}

/// A request that asks one server.
fn started() -> ColorRequest {
    match request_document_colors(true, true, &vec![1]) {
        RequestStart::Ask { request, .. } => request,
        start => panic!("unexpected {:?}", start),
    }
}

#[test]
fn each_server_is_asked_once() {
    match request_document_colors(true, true, &vec![4, 9, 4, 4, 2, 9]) {
        RequestStart::Ask { servers, mut request } => {
            assert_eq!(servers, vec![0, 1, 4]);
            match request.advance(ReplyEvent::Finished) {
                ReplyAction::Attach(spans) => assert!(spans.is_empty()),
                action => panic!("unexpected {:?}", action),
            }
        }
        start => panic!("unexpected {:?}", start),
    }
}

#[test]
fn without_servers_a_running_request_is_stopped() {
    assert!(matches!(request_document_colors(true, true, &vec![]), RequestStart::Stop));
}

#[test]
fn nothing_is_done_where_colors_are_not_displayed() {
    assert!(matches!(request_document_colors(false, true, &vec![1]), RequestStart::Skip));
    assert!(matches!(request_document_colors(true, false, &vec![1]), RequestStart::Skip));
    assert!(matches!(request_document_colors(false, false, &vec![]), RequestStart::Skip));
}

#[test]
fn replies_are_gathered_in_order() {
    let mut request = started();
    let first = vec![
        ColorMention { range: Some(TextRange { start: 5, end: 9 }), color: RED },
        ColorMention { range: None, color: RED },
        ColorMention { range: Some(TextRange { start: 1, end: 2 }), color: BLUE },
    ];
    assert!(matches!(request.advance(ReplyEvent::Colors(first)), ReplyAction::Wait));
    assert!(matches!(request.advance(ReplyEvent::Failed), ReplyAction::Wait));
    let second = vec![ColorMention { range: Some(TextRange { start: 0, end: 3 }), color: BLUE }];
    assert!(matches!(request.advance(ReplyEvent::Colors(second)), ReplyAction::Wait));
    match request.advance(ReplyEvent::Finished) {
        ReplyAction::Attach(spans) => assert_eq!(
            spans,
            vec![
                DocumentColorSpan { anchor: 5, range: TextRange { start: 5, end: 9 }, color: RED },
                DocumentColorSpan { anchor: 1, range: TextRange { start: 1, end: 2 }, color: BLUE },
                DocumentColorSpan { anchor: 0, range: TextRange { start: 0, end: 3 }, color: BLUE },
            ]
        ),
        action => panic!("unexpected {:?}", action),
    }
}

#[test]
fn cancelled_requests_stop() {
    let mut request = started();
    assert!(matches!(request.advance(ReplyEvent::Cancelled), ReplyAction::Stop));
}

#[test]
fn colors_are_attached_to_open_documents() {
    let attached =
        attach_document_colors(true, true, vec![numbered(1, 4)], DocumentColorMode::Foreground);
    assert_eq!(attached.unwrap().unwrap().overlay_highlights.len(), 1);
    let cleared = attach_document_colors(true, true, vec![], DocumentColorMode::Foreground);
    assert!(cleared.unwrap().is_none());
}

#[test]
fn colors_are_left_alone_where_they_are_not_displayed() {
    let mode = DocumentColorMode::Virtual;
    assert!(attach_document_colors(false, true, vec![numbered(1, 4)], mode).is_none());
    assert!(attach_document_colors(true, false, vec![numbered(1, 4)], mode).is_none());
}

#[test]
fn opened_documents_are_asked_about() {
    assert_eq!(document_opened(7), vec![HookAction::Request(7)]);
}

#[test]
fn changed_documents_are_asked_about_later() {
    assert_eq!(document_changed(7, false), vec![HookAction::Cancel(7), HookAction::Debounce(7)]);
    assert_eq!(document_changed(7, true), vec![]);
}

#[test]
fn all_documents_are_asked_about_when_a_server_is_ready() {
    assert_eq!(
        server_initialized(&vec![2, 1]),
        vec![HookAction::Request(2), HookAction::Request(1)]
    );
    assert_eq!(server_initialized(&vec![]), vec![]);
}

#[test]
fn colors_of_a_server_that_exited_are_dropped() {
    let docs = vec![
        ServerUse { doc_id: 1, uses_server: false },
        ServerUse { doc_id: 2, uses_server: true },
        ServerUse { doc_id: 3, uses_server: true },
    ];
    assert_eq!(
        server_exited(&docs),
        vec![
            HookAction::Clear(2),
            HookAction::Clear(3),
            HookAction::Request(1),
            HookAction::Request(2),
            HookAction::Request(3),
        ]
    );
}
