//! When the colors of a document are asked for, and what becomes of the replies.
use crate::colors::{
    build_document_colors, built_colors, DocumentColorMode, DocumentColorSpan,
    DocumentColors, Highlight, NumberedSpan, Rgb, TextRange,
};
use std::collections::HashSet;
use vstd::prelude::*;

verus! {

/// How long the colors of a document are not asked for after it has changed, in milliseconds.
pub const DOCUMENT_CHANGE_DEBOUNCE: u64 = 250;

/// The documents that have changed and whose colors have not been asked for since.
#[derive(Debug)]
pub struct DocumentColorsHandler {
    docs: HashSet<u64>,
}

impl View for DocumentColorsHandler {
    type V = Set<u64>;

    closed spec fn view(&self) -> Set<u64> {
        self.docs@
    }
}

impl DocumentColorsHandler {
    pub fn new() -> (r: DocumentColorsHandler)
        ensures
            r@ == Set::<u64>::empty(),
    {
        DocumentColorsHandler { docs: HashSet::new() }
    }

    /// Notes that a document has changed, and gives the time in milliseconds to wait before the
    /// colors are asked for.
    pub fn handle_event(&mut self, doc_id: u64) -> (r: Option<u64>)
        ensures
            final(self)@ == old(self)@.insert(doc_id),
            r == Some(DOCUMENT_CHANGE_DEBOUNCE),
    {
        broadcast use vstd::std_specs::hash::group_hash_axioms;

        self.docs.insert(doc_id);
        Some(DOCUMENT_CHANGE_DEBOUNCE)
    }

    /// Gives the documents that have changed, whose colors are to be asked for now.
    pub fn finish_debounce(&mut self) -> (r: HashSet<u64>)
        ensures
            r@ == old(self)@,
            final(self)@ == Set::<u64>::empty(),
    {
        let mut docs: HashSet<u64> = HashSet::new();
        std::mem::swap(&mut docs, &mut self.docs);
        docs
    }
}

/// The changes of documents since the last debounce, taken together.
pub open spec fn changed_docs(events: Seq<u64>) -> Set<u64>
    decreases events.len(),
{
    if events.len() == 0 {
        Set::empty()
    } else {
        changed_docs(events.drop_last()).insert(events.last())
    }
}

/// However often a document has changed, it is asked about if and only if it has.
pub proof fn lemma_changes_are_merged(events: Seq<u64>)
    ensures
        changed_docs(events) == events.to_set(),
    decreases events.len(),
{
    if events.len() > 0 {
        let front = events.drop_last();
        lemma_changes_are_merged(front);
        assert forall|d: u64| events.to_set().contains(d) <==> #[trigger] changed_docs(events).contains(
            d,
        ) by {
            if events.contains(d) {
                let i = events.index_of(d);
                if i < front.len() {
                    assert(front[i] == d);
                }
            }
            if front.contains(d) {
                let i = front.index_of(d);
                assert(events[i] == d);
            }
            if d == events.last() {
                assert(events[events.len() - 1] == d);
            }
        }
        assert(events.to_set() =~= changed_docs(events));
    } else {
        assert(events.to_set() =~= changed_docs(events));
    }
}

/// The indices of those elements of `ids` that do not occur earlier in it.
pub open spec fn first_occurrences(ids: Seq<u64>) -> Seq<usize>
    decreases ids.len(),
{
    if ids.len() == 0 {
        Seq::empty()
    } else {
        let before = first_occurrences(ids.drop_last());
        if ids.drop_last().contains(ids.last()) {
            before
        } else {
            before.push((ids.len() - 1) as usize)
        }
    }
}

/// What is done when the colors of a document are to be asked for. Its present colors stay in any
/// case, until the replies of the servers are attached.
#[derive(Debug)]
pub enum RequestStart {
    /// Nothing is done; a running request goes on.
    Skip,
    /// The running request is stopped, and there is no server to ask.
    Stop,
    /// The running request is stopped, and the servers with these indices are asked.
    Ask { servers: Vec<usize>, request: ColorRequest },
}

/// What is done when the colors of a document are to be asked for.
pub enum StartView {
    Skip,
    Stop,
    Ask { servers: Seq<usize>, spans: Seq<DocumentColorSpan> },
}

impl View for RequestStart {
    type V = StartView;

    open spec fn view(&self) -> StartView {
        match *self {
            RequestStart::Skip => StartView::Skip,
            RequestStart::Stop => StartView::Stop,
            RequestStart::Ask { servers, request } => StartView::Ask {
                servers: servers@,
                spans: request@,
            },
        }
    }
}

/// The state of the requests for the colors of a document: the spans of the running request, if
/// there is one, and the colors that the document has.
pub struct RequestState<C> {
    pub running: Option<Seq<DocumentColorSpan>>,
    pub colors: C,
}

impl StartView {
    /// The state after a request is started.
    pub open spec fn applied<C>(self, state: RequestState<C>) -> RequestState<C> {
        match self {
            StartView::Skip => state,
            StartView::Stop => RequestState { running: None, colors: state.colors },
            StartView::Ask { servers, spans } => RequestState {
                running: Some(spans),
                colors: state.colors,
            },
        }
    }
}

/// What is done when the colors of a document are to be asked for, given the ids of the servers
/// that can tell: each server is asked once. Without such a server nothing is asked, but a running
/// request is stopped. Where colors are not displayed or the document is not open, nothing is done.
pub open spec fn started(
    display_color_swatches: bool,
    is_open: bool,
    servers: Seq<u64>,
) -> StartView {
    if !display_color_swatches || !is_open {
        StartView::Skip
    } else if servers.len() == 0 {
        StartView::Stop
    } else {
        StartView::Ask { servers: first_occurrences(servers), spans: Seq::empty() }
    }
}

/// Some server is asked exactly if there is one.
pub proof fn lemma_some_server_is_asked(ids: Seq<u64>)
    ensures
        first_occurrences(ids).len() > 0 <==> ids.len() > 0,
    decreases ids.len(),
{
    if ids.len() > 0 {
        lemma_some_server_is_asked(ids.drop_last());
        if ids.drop_last().contains(ids.last()) {
            assert(ids.drop_last().len() > 0);
        }
    }
}

/// Starting a request leaves the colors of the document as they are. It leaves a running request
/// as it is exactly where colors are not displayed or the document is not open; otherwise that
/// request is stopped, and a new one runs exactly if there is a server to ask, without any spans
/// yet. So without a server nothing is ever attached.
pub proof fn lemma_starting_keeps_colors<C>(
    display_color_swatches: bool,
    is_open: bool,
    servers: Seq<u64>,
    state: RequestState<C>,
)
    ensures
        ({
            let after = started(display_color_swatches, is_open, servers).applied(state);
            &&& after.colors == state.colors
            &&& !display_color_swatches || !is_open ==> after == state
            &&& display_color_swatches && is_open ==> after.running == if servers.len() > 0 {
                Some(Seq::<DocumentColorSpan>::empty())
            } else {
                None
            }
        }),
{
}

/// One of the indices `asked` refers to the server `id`.
pub open spec fn is_reached(id: u64, asked: Seq<usize>, servers: Seq<u64>) -> bool {
    exists|k: int|
        0 <= k < asked.len() && #[trigger] asked[k] < servers.len() && servers[asked[k] as int]
            == id
}

/// The indices `asked` refer to every one of `servers`, no two of them to the same; they ascend, and
/// each is the first index of its server.
pub open spec fn asks_each_once(asked: Seq<usize>, servers: Seq<u64>) -> bool {
    &&& forall|k: int| 0 <= k < asked.len() ==> #[trigger] asked[k] < servers.len()
    &&& forall|n: int| 0 <= n < servers.len() ==> is_reached(#[trigger] servers[n], asked, servers)
    &&& forall|j: int, k: int|
        0 <= j < k < asked.len() ==> #[trigger] asked[j] < #[trigger] asked[k] && servers[asked[j]
            as int] != servers[asked[k] as int]
    &&& forall|k: int, n: int|
        0 <= k < asked.len() && 0 <= n < asked[k] ==> #[trigger] servers[n]
            != servers[#[trigger] asked[k] as int]
}

proof fn lemma_first_occurrences(ids: Seq<u64>)
    requires
        ids.len() <= usize::MAX,
    ensures
        forall|k: int, n: int|
            0 <= k < first_occurrences(ids).len() && 0 <= n < first_occurrences(ids)[k]
                ==> #[trigger] ids[n] != ids[#[trigger] first_occurrences(ids)[k] as int],
    decreases ids.len(),
{
    if ids.len() > 0 {
        let front = ids.drop_last();
        let before = first_occurrences(front);
        let out = first_occurrences(ids);
        lemma_first_occurrences(front);
        lemma_each_server_is_asked_once(front);
        assert forall|k: int, n: int| 0 <= k < out.len() && 0 <= n < out[k] implies #[trigger] ids[n]
            != ids[#[trigger] out[k] as int] by {
            if k < before.len() {
                assert(out[k] == before[k]);
                assert(before[k] < front.len());
                assert(ids[n] == front[n]);
                assert(ids[out[k] as int] == front[before[k] as int]);
            } else {
                assert(front[n] == ids[n]);
            }
        }
    }
}

/// Where colors are displayed and the document is open, every server is asked and none twice;
/// without a server the running request is stopped. Otherwise nothing is done.
pub proof fn lemma_starting_asks_each_server_once(
    display_color_swatches: bool,
    is_open: bool,
    servers: Seq<u64>,
)
    requires
        servers.len() <= usize::MAX,
    ensures
        match started(display_color_swatches, is_open, servers) {
            StartView::Skip => !display_color_swatches || !is_open,
            StartView::Stop => display_color_swatches && is_open && servers.len() == 0,
            StartView::Ask { servers: asked, spans } => display_color_swatches && is_open
                && servers.len() > 0 && spans.len() == 0 && asks_each_once(asked, servers),
        },
{
    lemma_each_server_is_asked_once(servers);
    lemma_first_occurrences(servers);
    assert(asks_each_once(first_occurrences(servers), servers)) by {
        assert forall|n: int| 0 <= n < servers.len() implies is_reached(
            #[trigger] servers[n],
            first_occurrences(servers),
            servers,
        ) by {
            assert(is_asked(servers[n], servers));
        }
    }
}

/// Decides what is done when the colors of a document are to be asked for, given the ids of the
/// servers that can tell.
pub fn request_document_colors(
    display_color_swatches: bool,
    is_open: bool,
    servers: &Vec<u64>,
) -> (r: RequestStart)
    ensures
        r@ == started(display_color_swatches, is_open, servers@),
        r matches RequestStart::Ask { servers: asked, .. } ==> asked@.len() > 0,
        r is Skip <==> !display_color_swatches || !is_open,
        r is Stop <==> display_color_swatches && is_open && servers@.len() == 0,
        r matches RequestStart::Ask { servers: asked, .. } ==> asks_each_once(asked@, servers@),
{
    broadcast use vstd::std_specs::hash::group_hash_axioms;

    if !display_color_swatches || !is_open {
        return RequestStart::Skip;
    }
    proof {
        lemma_some_server_is_asked(servers@);
    }
    if servers.len() == 0 {
        return RequestStart::Stop;
    }
    let mut seen: HashSet<u64> = HashSet::new();
    let mut out: Vec<usize> = Vec::new();
    let mut i: usize = 0;
    assert(servers@.take(0) == Seq::<u64>::empty());
    assert(seen@ =~= servers@.take(0).to_set());
    while i < servers.len()
        invariant
            i <= servers.len(),
            seen@ == servers@.take(i as int).to_set(),
            out@ == first_occurrences(servers@.take(i as int)),
        decreases servers.len() - i,
    {
        broadcast use vstd::std_specs::hash::group_hash_axioms;

        let ghost before = servers@.take(i as int);
        let ghost after = servers@.take(i + 1);
        assert(after.drop_last() == before);
        assert(after.last() == servers@[i as int]);
        if seen.insert(servers[i]) {
            out.push(i);
        }
        assert(seen@ =~= after.to_set()) by {
            assert forall|d: u64| after.to_set().contains(d) <==> before.to_set().insert(
                after.last(),
            ).contains(d) by {
                if after.contains(d) {
                    let k = after.index_of(d);
                    if k < i {
                        assert(before[k] == d);
                    }
                }
                if before.contains(d) {
                    let k = before.index_of(d);
                    assert(after[k] == d);
                }
                assert(after[i as int] == after.last());
            }
        }
        i += 1;
    }
    assert(servers@.take(i as int) == servers@);
    proof {
        lemma_each_server_is_asked_once(servers@);
        lemma_first_occurrences(servers@);
        assert(asks_each_once(out@, servers@)) by {
            assert forall|n: int| 0 <= n < servers@.len() implies is_reached(
                #[trigger] servers@[n],
                out@,
                servers@,
            ) by {
                assert(is_asked(servers@[n], servers@));
            }
        }
    }
    RequestStart::Ask { servers: out, request: ColorRequest::new() }
}

/// Every server is asked, and none is asked twice.
pub proof fn lemma_each_server_is_asked_once(ids: Seq<u64>)
    requires
        ids.len() <= usize::MAX,
    ensures
        forall|i: int|
            0 <= i < first_occurrences(ids).len() ==> (#[trigger] first_occurrences(ids)[i])
                < ids.len(),
        forall|i: int, j: int|
            0 <= i < j < first_occurrences(ids).len() ==> (#[trigger] first_occurrences(ids)[i]) < (
            #[trigger] first_occurrences(ids)[j]) && ids[first_occurrences(ids)[i] as int]
                != ids[first_occurrences(ids)[j] as int],
        forall|k: int| 0 <= k < ids.len() ==> is_asked(#[trigger] ids[k], ids),
    decreases ids.len(),
{
    if ids.len() > 0 {
        let front = ids.drop_last();
        let before = first_occurrences(front);
        let out = first_occurrences(ids);
        lemma_each_server_is_asked_once(front);
        assert forall|i: int| 0 <= i < out.len() implies (#[trigger] out[i]) < ids.len() by {
            if i < before.len() {
                assert(out[i] == before[i]);
            }
        }
        assert forall|i: int, j: int| 0 <= i < j < out.len() implies (#[trigger] out[i]) < (
        #[trigger] out[j]) && ids[out[i] as int] != ids[out[j] as int] by {
            assert(out[i] == before[i]);
            assert(front[before[i] as int] == ids[out[i] as int]);
            if j < before.len() {
                assert(out[j] == before[j]);
                assert(front[before[j] as int] == ids[out[j] as int]);
            }
        }
        assert forall|k: int| 0 <= k < ids.len() implies is_asked(#[trigger] ids[k], ids) by {
            let id = ids[k];
            if front.contains(id) {
                let m = front.index_of(id);
                assert(is_asked(front[m], front));
                let i = choose|i: int|
                    0 <= i < before.len() && front[#[trigger] before[i] as int] == id;
                assert(out[i] == before[i]);
                assert(ids[out[i] as int] == id);
            } else {
                if k < front.len() {
                    assert(front[k] == id);
                }
                let i = out.len() - 1;
                assert(ids[out[i] as int] == id);
            }
        }
    }
}

/// The server `id` is among those that are asked.
pub open spec fn is_asked(id: u64, ids: Seq<u64>) -> bool {
    exists|i: int|
        0 <= i < first_occurrences(ids).len() && ids[#[trigger] first_occurrences(ids)[i] as int]
            == id
}

/// A color in the reply of a server, with the range of the document that it is about, if that
/// range is in the document.
#[derive(Clone, Copy, Debug, PartialEq, Eq, Structural)]
pub struct ColorMention {
    pub range: Option<TextRange>,
    pub color: Rgb,
}

/// The spans of those mentions whose range is in the document.
pub open spec fn mentioned_spans(mentions: Seq<ColorMention>) -> Seq<DocumentColorSpan>
    decreases mentions.len(),
{
    if mentions.len() == 0 {
        Seq::empty()
    } else {
        let before = mentioned_spans(mentions.drop_last());
        match mentions.last().range {
            Some(range) => before.push(
                DocumentColorSpan { anchor: range.start, range, color: mentions.last().color },
            ),
            None => before,
        }
    }
}

/// A mention more gives one span more, at the end, if its range is in the document, else none: a
/// span with that range, anchored at its start, in the color that is mentioned. No mentions give no
/// spans.
pub proof fn lemma_each_mention_gives_its_span(mentions: Seq<ColorMention>, mention: ColorMention)
    ensures
        mentioned_spans(Seq::empty()).len() == 0,
        mention.range is None ==> mentioned_spans(mentions.push(mention)) == mentioned_spans(
            mentions,
        ),
        mention.range matches Some(range) ==> {
            let after = mentioned_spans(mentions.push(mention));
            let last = after.last();
            &&& after.len() == mentioned_spans(mentions).len() + 1
            &&& after.drop_last() == mentioned_spans(mentions)
            &&& last.anchor == range.start
            &&& last.range.start == range.start
            &&& last.range.end == range.end
            &&& last.color.red == mention.color.red
            &&& last.color.green == mention.color.green
            &&& last.color.blue == mention.color.blue
        },
{
    assert(mentions.push(mention).drop_last() == mentions);
    if mention.range is Some {
        let after = mentioned_spans(mentions.push(mention));
        assert(after.drop_last() == mentioned_spans(mentions));
    }
}

/// What happens to a request for colors: a server replies or fails to, all servers have answered,
/// or the request is cancelled.
#[derive(Debug)]
pub enum ReplyEvent {
    Colors(Vec<ColorMention>),
    Failed,
    Finished,
    Cancelled,
}

/// What is done next about a request for colors.
#[derive(Debug)]
pub enum ReplyAction {
    Wait,
    Attach(Vec<DocumentColorSpan>),
    Stop,
}

/// A running request for colors, with the spans of the replies so far. There is one only where
/// some server is asked.
#[derive(Debug)]
pub struct ColorRequest {
    spans: Vec<DocumentColorSpan>,
}

impl View for ColorRequest {
    type V = Seq<DocumentColorSpan>;

    closed spec fn view(&self) -> Seq<DocumentColorSpan> {
        self.spans@
    }
}

impl ColorRequest {
    fn new() -> (r: ColorRequest)
        ensures
            r@ == Seq::<DocumentColorSpan>::empty(),
    {
        ColorRequest { spans: Vec::new() }
    }

    /// Takes note of an event. The colors are attached when all servers have answered, and
    /// dropped when the request is cancelled; a failure of one server is passed over.
    pub fn advance(&mut self, event: ReplyEvent) -> (r: ReplyAction)
        ensures
            match event {
                ReplyEvent::Colors(mentions) => r is Wait && final(self)@ == old(self)@
                    + mentioned_spans(mentions@),
                ReplyEvent::Failed => r is Wait && final(self)@ == old(self)@,
                ReplyEvent::Finished => r is Attach && r->Attach_0@ == old(self)@ && final(self)@
                    == Seq::<DocumentColorSpan>::empty(),
                ReplyEvent::Cancelled => r is Stop && final(self)@ == old(self)@,
            },
    {
        match event {
            ReplyEvent::Colors(mentions) => {
                let ghost start = self@;
                let mut i: usize = 0;
                assert(mentions@.take(0) == Seq::<ColorMention>::empty());
                assert(start + Seq::<DocumentColorSpan>::empty() == start);
                while i < mentions.len()
                    invariant
                        i <= mentions.len(),
                        self@ == start + mentioned_spans(mentions@.take(i as int)),
                    decreases mentions.len() - i,
                {
                    let ghost before = self@;
                    assert(mentions@.take(i + 1).drop_last() == mentions@.take(i as int));
                    let mention = mentions[i];
                    if let Some(range) = mention.range {
                        self.spans.push(
                            DocumentColorSpan { anchor: range.start, range, color: mention.color },
                        );
                        assert(self@ == start + mentioned_spans(mentions@.take(i + 1)));
                    }
                    i += 1;
                }
                assert(mentions@.take(i as int) == mentions@);
                ReplyAction::Wait
            },
            ReplyEvent::Failed => ReplyAction::Wait,
            ReplyEvent::Finished => {
                let mut spans: Vec<DocumentColorSpan> = Vec::new();
                std::mem::swap(&mut spans, &mut self.spans);
                ReplyAction::Attach(spans)
            },
            ReplyEvent::Cancelled => ReplyAction::Stop,
        }
    }
}

/// The spans of all replies; `None` stands for a server that failed to reply.
pub open spec fn gathered(replies: Seq<Option<Seq<ColorMention>>>) -> Seq<DocumentColorSpan>
    decreases replies.len(),
{
    if replies.len() == 0 {
        Seq::empty()
    } else {
        let before = gathered(replies.drop_last());
        match replies.last() {
            Some(mentions) => before + mentioned_spans(mentions),
            None => before,
        }
    }
}

/// A reply adds its spans to those of the replies before it, and a failure adds none, as
/// `ColorRequest::advance` does.
pub proof fn lemma_replies_are_gathered_in_turn(
    replies: Seq<Option<Seq<ColorMention>>>,
    reply: Option<Seq<ColorMention>>,
)
    ensures
        gathered(replies.push(reply)) == match reply {
            Some(mentions) => gathered(replies) + mentioned_spans(mentions),
            None => gathered(replies),
        },
{
    assert(replies.push(reply).drop_last() == replies);
}

/// The span is that of a mention whose range is in the document.
pub open spec fn is_mentioned(span: DocumentColorSpan, mentions: Seq<ColorMention>) -> bool {
    mentions.contains(ColorMention { range: Some(span.range), color: span.color }) && span.anchor
        == span.range.start
}

/// The span is that of a mention in one of the replies.
pub open spec fn is_replied(
    span: DocumentColorSpan,
    replies: Seq<Option<Seq<ColorMention>>>,
) -> bool {
    exists|r: int|
        0 <= r < replies.len() && (#[trigger] replies[r]) is Some && is_mentioned(
            span,
            replies[r]->0,
        )
}

proof fn lemma_mentioned_spans(mentions: Seq<ColorMention>, span: DocumentColorSpan)
    ensures
        mentioned_spans(mentions).contains(span) <==> is_mentioned(span, mentions),
    decreases mentions.len(),
{
    let wanted = ColorMention { range: Some(span.range), color: span.color };
    if mentions.len() > 0 {
        let front = mentions.drop_last();
        let before = mentioned_spans(front);
        let out = mentioned_spans(mentions);
        lemma_mentioned_spans(front, span);
        if before.contains(span) {
            let i = before.index_of(span);
            assert(out[i] == span);
            let k = front.index_of(wanted);
            assert(mentions[k] == wanted);
        }
        if out.contains(span) && !before.contains(span) {
            let i = out.index_of(span);
            assert(i == before.len()) by {
                if i < before.len() {
                    assert(before[i] == span);
                }
            }
            assert(mentions[mentions.len() - 1] == wanted);
        }
        if mentions.contains(wanted) {
            let k = mentions.index_of(wanted);
            if k < front.len() {
                assert(front[k] == wanted);
            } else if span.anchor == span.range.start {
                assert(out[out.len() - 1] == span);
            }
        }
    }
}

/// No mention in a reply is lost, whichever servers fail, and nothing else is attached.
pub proof fn lemma_every_reply_counts(
    replies: Seq<Option<Seq<ColorMention>>>,
    span: DocumentColorSpan,
)
    ensures
        gathered(replies).contains(span) <==> is_replied(span, replies),
    decreases replies.len(),
{
    if replies.len() > 0 {
        let front = replies.drop_last();
        let before = gathered(front);
        let out = gathered(replies);
        lemma_every_reply_counts(front, span);
        if replies.last() is Some {
            lemma_mentioned_spans(replies.last()->0, span);
        }
        if is_replied(span, front) {
            let r = choose|r: int|
                0 <= r < front.len() && (#[trigger] front[r]) is Some && is_mentioned(
                    span,
                    front[r]->0,
                );
            assert(replies[r] == front[r]);
            let i = before.index_of(span);
            assert(out[i] == span);
        }
        if out.contains(span) && !before.contains(span) {
            let i = out.index_of(span);
            if i < before.len() {
                assert(before[i] == span);
            } else {
                let more = mentioned_spans(replies.last()->0);
                assert(more[i - before.len()] == span);
                assert(is_mentioned(span, replies[replies.len() - 1]->0));
            }
        }
        if is_replied(span, replies) && !is_replied(span, front) {
            let r = choose|r: int|
                0 <= r < replies.len() && (#[trigger] replies[r]) is Some && is_mentioned(
                    span,
                    replies[r]->0,
                );
            if r < front.len() {
                assert(front[r] == replies[r]);
            } else {
                let more = mentioned_spans(replies.last()->0);
                let i = more.index_of(span);
                assert(out[before.len() + i] == span);
            }
        }
    }
}

/// What to set as the colors of a document. `None` where colors are not displayed or the document
/// is not open any more; then its colors stay as they are.
pub fn attach_document_colors(
    display_color_swatches: bool,
    is_open: bool,
    doc_colors: Vec<NumberedSpan>,
    mode: DocumentColorMode,
) -> (r: Option<Option<DocumentColors<Highlight>>>)
    ensures
        r is Some <==> display_color_swatches && is_open,
        r is Some ==> match built_colors(doc_colors@, mode) {
            Some(colors) => r->0 is Some && r->0->0@ == colors,
            None => r->0 is None,
        },
{
    if !display_color_swatches || !is_open {
        return None;
    }
    Some(build_document_colors(doc_colors, mode))
}

/// What is done about the colors of a document.
#[derive(Clone, Copy, Debug, PartialEq, Eq, Structural)]
pub enum HookAction {
    /// Ask for the colors of the document now.
    Request(u64),
    /// Cancel the running request for the colors of the document.
    Cancel(u64),
    /// Ask for the colors of the document when it has not changed for a while.
    Debounce(u64),
    /// Drop the colors of the document.
    Clear(u64),
}

/// What is done when a document is opened.
pub fn document_opened(doc_id: u64) -> (r: Vec<HookAction>)
    ensures
        r@ == seq![HookAction::Request(doc_id)],
{
    let mut out: Vec<HookAction> = Vec::new();
    out.push(HookAction::Request(doc_id));
    assert(out@ == seq![HookAction::Request(doc_id)]);
    out
}

/// What is done when a document has changed. Of a ghost transaction, such as a completion that is
/// previewed, the servers know nothing, so that they would give positions that are out of date.
pub fn document_changed(doc_id: u64, ghost_transaction: bool) -> (r: Vec<HookAction>)
    ensures
        r@ == if ghost_transaction {
            Seq::empty()
        } else {
            seq![HookAction::Cancel(doc_id), HookAction::Debounce(doc_id)]
        },
{
    let mut out: Vec<HookAction> = Vec::new();
    if !ghost_transaction {
        out.push(HookAction::Cancel(doc_id));
        out.push(HookAction::Debounce(doc_id));
        assert(out@ == seq![HookAction::Cancel(doc_id), HookAction::Debounce(doc_id)]);
    }
    out
}

pub open spec fn requests(docs: Seq<u64>) -> Seq<HookAction> {
    Seq::new(docs.len(), |i: int| HookAction::Request(docs[i]))
}

/// What is done when a server is ready: the colors of all open documents are asked for.
pub fn server_initialized(docs: &Vec<u64>) -> (r: Vec<HookAction>)
    ensures
        r@ == requests(docs@),
        r@.len() == docs@.len(),
        forall|i: int| 0 <= i < docs@.len() ==> #[trigger] r@[i] == HookAction::Request(docs@[i]),
{
    let mut out: Vec<HookAction> = Vec::new();
    push_requests(&mut out, docs);
    assert(Seq::<HookAction>::empty() + requests(docs@) == requests(docs@));
    out
}

fn push_requests(out: &mut Vec<HookAction>, docs: &Vec<u64>)
    ensures
        final(out)@ == old(out)@ + requests(docs@),
{
    let ghost start = out@;
    let mut i: usize = 0;
    assert(start + requests(docs@.take(0)) == start);
    while i < docs.len()
        invariant
            i <= docs.len(),
            out@ == start + requests(docs@.take(i as int)),
        decreases docs.len() - i,
    {
        out.push(HookAction::Request(docs[i]));
        assert(start + requests(docs@.take(i + 1)) == (start + requests(
            docs@.take(i as int),
        )).push(HookAction::Request(docs@[i as int])));
        i += 1;
    }
    assert(docs@.take(i as int) == docs@);
}

/// An open document, and whether it uses a certain server.
#[derive(Clone, Copy, Debug, PartialEq, Eq, Structural)]
pub struct ServerUse {
    pub doc_id: u64,
    pub uses_server: bool,
}

/// The actions that drop the colors of those documents that use the server.
pub open spec fn clearings(docs: Seq<ServerUse>) -> Seq<HookAction>
    decreases docs.len(),
{
    if docs.len() == 0 {
        Seq::empty()
    } else {
        let before = clearings(docs.drop_last());
        if docs.last().uses_server {
            before.push(HookAction::Clear(docs.last().doc_id))
        } else {
            before
        }
    }
}

/// What is done when a server has exited: the colors of the documents that use it are dropped,
/// then those of all open documents are asked for again.
pub fn server_exited(docs: &Vec<ServerUse>) -> (r: Vec<HookAction>)
    ensures
        r@ == clearings(docs@) + requests(docs@.map_values(|d: ServerUse| d.doc_id)),
        clears_then_requests(r@, docs@),
{
    let mut out: Vec<HookAction> = Vec::new();
    let mut ids: Vec<u64> = Vec::new();
    let ghost all = docs@.map_values(|d: ServerUse| d.doc_id);
    let mut i: usize = 0;
    assert(docs@.take(0) == Seq::<ServerUse>::empty());
    while i < docs.len()
        invariant
            i <= docs.len(),
            all == docs@.map_values(|d: ServerUse| d.doc_id),
            out@ == clearings(docs@.take(i as int)),
            ids@ == all.take(i as int),
        decreases docs.len() - i,
    {
        assert(docs@.take(i + 1).drop_last() == docs@.take(i as int));
        assert(all.take(i + 1) == all.take(i as int).push(all[i as int]));
        if docs[i].uses_server {
            out.push(HookAction::Clear(docs[i].doc_id));
        }
        ids.push(docs[i].doc_id);
        i += 1;
    }
    assert(docs@.take(i as int) == docs@);
    assert(ids@ == all);
    push_requests(&mut out, &ids);
    proof {
        lemma_exits_clear_the_users(docs@);
    }
    out
}

/// The documents that use the server.
pub open spec fn users(docs: Seq<ServerUse>) -> Seq<ServerUse> {
    docs.filter(|d: ServerUse| d.uses_server)
}

/// First the colors of each document that uses the server are dropped, then the colors of each
/// document are asked for, both in the order of the documents, and nothing else is done.
pub open spec fn clears_then_requests(actions: Seq<HookAction>, docs: Seq<ServerUse>) -> bool {
    let cleared = users(docs).len();
    &&& actions.len() == cleared + docs.len()
    &&& forall|i: int|
        0 <= i < cleared ==> #[trigger] actions[i] == HookAction::Clear(users(docs)[i].doc_id)
    &&& forall|i: int, k: int|
        0 <= i < docs.len() && k == cleared + i ==> #[trigger] actions[k] == HookAction::Request(
            (#[trigger] docs[i]).doc_id,
        )
}

proof fn lemma_clearings(docs: Seq<ServerUse>)
    ensures
        clearings(docs) == users(docs).map_values(|d: ServerUse| HookAction::Clear(d.doc_id)),
    decreases docs.len(),
{
    reveal(Seq::filter);
    if docs.len() > 0 {
        lemma_clearings(docs.drop_last());
    }
    assert(clearings(docs) =~= users(docs).map_values(
        |d: ServerUse| HookAction::Clear(d.doc_id),
    ));
}

/// When a server has exited, exactly the documents that use it lose their colors, before any is
/// asked for, and all documents are asked for.
pub proof fn lemma_exits_clear_the_users(docs: Seq<ServerUse>)
    ensures
        clears_then_requests(
            clearings(docs) + requests(docs.map_values(|d: ServerUse| d.doc_id)),
            docs,
        ),
{
    lemma_clearings(docs);
}

} // verus!
