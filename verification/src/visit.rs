//! The walk over a tree of diagnostics that builds the report.
//!
//! A message that passes the gates waits for the span it applies to; the span
//! takes it, adds its own row and column and the source lines under it, and
//! the finding goes to the group of the span's file.  At most one message
//! waits at any time.

use crate::args::ClassifyKind;
use crate::filter::{admits, path_allowed, texts_of, Filters, FiltersView};
use crate::report::{
    ascending, entries_for, inhabited, lemma_recorded_ascending, lemma_recorded_entries, recorded,
    GroupView, Missing, MissingView, ReportIndex, Spanned,
};
use crate::window::{fragment_views, FragmentView, HighlightFragment};
use vstd::prelude::*;
use vstd::string::*;

verus! {

/// A line of source text under a span, borrowed from the tree, with the byte
/// interval `[start, end)` that the diagnostic marks in it.
#[derive(Clone, Copy, Debug)]
pub struct Text<'a> {
    pub data: &'a str,
    pub start: usize,
    pub end: usize,
}

impl<'a> View for Text<'a> {
    type V = FragmentView;

    open spec fn view(&self) -> FragmentView {
        FragmentView { data: self.data@, start: self.start as nat, end: self.end as nat }
    }
}

/// Where a span lies: the file and the one-based row and column.
#[derive(Clone, Copy, Debug)]
pub struct Filename<'a> {
    pub name: &'a str,
    pub row: usize,
    pub col: usize,
}

/// A place in the source that a message applies to, with the lines there.
#[derive(Debug)]
pub struct Span<'a> {
    pub file: Filename<'a>,
    pub text: Vec<Text<'a>>,
}

/// What a [`Span`] holds, as mathematical values.
pub struct SpanView {
    pub file: Seq<char>,
    pub row: nat,
    pub col: nat,
    pub text: Seq<FragmentView>,
}

/// The views of a sequence of lines.
pub open spec fn text_views(texts: Seq<Text<'_>>) -> Seq<FragmentView> {
    Seq::new(texts.len(), |i: int| texts[i]@)
}

/// The span that a place and the lines under it make up.
pub open spec fn span_view(file: Filename<'_>, text: Seq<Text<'_>>) -> SpanView {
    SpanView {
        file: file.name@,
        row: file.row as nat,
        col: file.col as nat,
        text: text_views(text),
    }
}

impl<'a> View for Span<'a> {
    type V = SpanView;

    open spec fn view(&self) -> SpanView {
        span_view(self.file, self.text@)
    }
}

/// A diagnostic message with the spans it applies to.
#[derive(Debug)]
pub struct Message<'a> {
    pub code: Option<&'a str>,
    pub message: &'a str,
    pub spans: Vec<Span<'a>>,
}

/// What a [`Message`] holds, as mathematical values.
pub struct MessageView {
    pub code: Option<Seq<char>>,
    pub message: Seq<char>,
    pub spans: Seq<SpanView>,
}

/// The views of a sequence of spans.
pub open spec fn span_views(spans: Seq<Span<'_>>) -> Seq<SpanView> {
    Seq::new(spans.len(), |i: int| spans[i]@)
}

impl<'a> View for Message<'a> {
    type V = MessageView;

    open spec fn view(&self) -> MessageView {
        MessageView {
            code: match self.code {
                Some(code) => Some(code@),
                None => None,
            },
            message: self.message@,
            spans: span_views(self.spans@),
        }
    }
}

/// The views of a sequence of messages.
pub open spec fn message_views(messages: Seq<Message<'_>>) -> Seq<MessageView> {
    Seq::new(messages.len(), |i: int| messages[i]@)
}

/// The tree is malformed.
#[derive(Clone, Copy, Debug, PartialEq, Eq, Structural)]
pub enum VisitError {
    /// A span was met while no message was waiting for one.
    SpanWithoutMessage,
}

/// What the walk has built so far.
pub struct State {
    /// The report.
    pub index: Seq<GroupView>,
    /// The message that waits for its span.
    pub pending: Option<Seq<char>>,
}

/// The finding that a waiting message and the span that takes it make up.
pub open spec fn finding(message: Seq<char>, span: SpanView) -> MissingView {
    MissingView { message, row: span.row, col: span.col, text: span.text }
}

/// The state after a span.  A span of a file out of scope drops the waiting
/// message.  Any other span takes the waiting message and records a finding;
/// without a waiting message the tree is malformed.
pub open spec fn after_span(filters: FiltersView, state: State, span: SpanView) -> Result<
    State,
    VisitError,
> {
    if !path_allowed(filters.allow, span.file) {
        Ok(State { index: state.index, pending: None })
    } else {
        match state.pending {
            None => Err(VisitError::SpanWithoutMessage),
            Some(message) => Ok(
                State {
                    index: recorded(state.index, span.file, finding(message, span)),
                    pending: None,
                },
            ),
        }
    }
}

/// The state after the first `n` of `spans`, visited in order.
pub open spec fn after_spans(filters: FiltersView, state: State, spans: Seq<SpanView>, n: int) -> Result<
    State,
    VisitError,
>
    decreases n,
{
    if n <= 0 {
        Ok(state)
    } else {
        match after_spans(filters, state, spans, n - 1) {
            Err(e) => Err(e),
            Ok(before) => after_span(filters, before, spans[n - 1]),
        }
    }
}

/// The state after a message.  A message that the gates turn away leaves no
/// message waiting, and its spans are passed over.  Any other message waits,
/// and its spans are visited in order.
pub open spec fn after_message(filters: FiltersView, state: State, message: MessageView) -> Result<
    State,
    VisitError,
> {
    if admits(filters.included, filters.excluded, message.code, message.message) {
        after_spans(
            filters,
            State { index: state.index, pending: Some(message.message) },
            message.spans,
            message.spans.len() as int,
        )
    } else {
        Ok(State { index: state.index, pending: None })
    }
}

/// The state after the first `n` of `messages`, visited in order.
pub open spec fn after_messages(
    filters: FiltersView,
    state: State,
    messages: Seq<MessageView>,
    n: int,
) -> Result<State, VisitError>
    decreases n,
{
    if n <= 0 {
        Ok(state)
    } else {
        match after_messages(filters, state, messages, n - 1) {
            Err(e) => Err(e),
            Ok(before) => after_message(filters, before, messages[n - 1]),
        }
    }
}

/// The state after a whole forest of messages.
pub open spec fn after_forest(filters: FiltersView, state: State, messages: Seq<MessageView>) -> Result<
    State,
    VisitError,
> {
    after_messages(filters, state, messages, messages.len() as int)
}

/// The walker: the report under construction, the message that waits for its
/// span, and the filters.
#[derive(Debug)]
pub struct MissingDocs {
    pub map: ReportIndex,
    pub last: Option<String>,
    pub filters: Filters,
}

/// An owned copy of each line.
fn owned_copies(text: &[Text<'_>]) -> (copies: Vec<HighlightFragment>)
    ensures
        fragment_views(copies@) == text_views(text@),
{
    let mut copies: Vec<HighlightFragment> = Vec::new();
    let mut i: usize = 0;
    while i < text.len()
        invariant
            i <= text@.len(),
            copies@.len() == i,
            forall|j: int| 0 <= j < i ==> (#[trigger] copies@[j])@ == text@[j]@,
        decreases text@.len() - i,
    {
        let line = &text[i];
        copies.push(HighlightFragment { data: line.data.to_owned(), start: line.start, end: line.end });
        i += 1;
    }
    copies
}

impl MissingDocs {
    /// The report and the waiting message.
    pub open spec fn state(&self) -> State {
        State {
            index: self.map@,
            pending: match self.last {
                Some(message) => Some(message@),
                None => None,
            },
        }
    }

    /// A walker with an empty report and no message waiting.  `set` names the
    /// files in scope, all files if it is empty.
    pub fn new(set: Vec<String>, included: Vec<ClassifyKind>, excluded: Vec<ClassifyKind>) -> (docs:
        Self)
        ensures
            docs.filters@ == (FiltersView {
                allow: texts_of(set@),
                included: included@,
                excluded: excluded@,
            }),
            docs.state() == (State { index: Seq::empty(), pending: None }),
    {
        MissingDocs {
            map: ReportIndex::new(),
            last: None,
            filters: Filters::new(set, included, excluded),
        }
    }

    /// Whether a message passes the code gate and the kind gate.
    pub fn filter_message(&self, message: &Message<'_>) -> (admitted: bool)
        ensures
            admitted == admits(
                self.filters@.included,
                self.filters@.excluded,
                message@.code,
                message@.message,
            ),
    {
        self.filters.admits_message(message.code, message.message)
    }

    /// Puts a message before the gates.  A message that passes waits for its
    /// span, in place of any message that still waited; one that does not
    /// leaves no message waiting.
    pub fn offer(&mut self, code: Option<&str>, text: &str) -> (admitted: bool)
        ensures
            final(self).filters == old(self).filters,
            final(self).map == old(self).map,
            admitted == admits(
                old(self).filters@.included,
                old(self).filters@.excluded,
                match code {
                    Some(code) => Some(code@),
                    None => None,
                },
                text@,
            ),
            final(self).state() == (State {
                index: old(self).state().index,
                pending: if admitted {
                    Some(text@)
                } else {
                    None
                },
            }),
    {
        if self.filters.admits_message(code, text) {
            self.last = Some(text.to_owned());
            true
        } else {
            self.last = None;
            false
        }
    }

    /// Visits one span with the lines under it.
    pub fn visit_span(&mut self, file: Filename<'_>, text: &[Text<'_>]) -> (done: Result<
        (),
        VisitError,
    >)
        ensures
            final(self).filters == old(self).filters,
            match done {
                Ok(()) => after_span(old(self).filters@, old(self).state(), span_view(file, text@))
                    == Ok::<State, VisitError>(final(self).state()),
                Err(e) => {
                    &&& after_span(old(self).filters@, old(self).state(), span_view(file, text@))
                        == Err::<State, VisitError>(e)
                    &&& final(self).state() == old(self).state()
                },
            },
    {
        if !self.filters.allows_path(file.name) {
            self.last = None;
            return Ok(());
        }
        match self.last.take() {
            None => Err(VisitError::SpanWithoutMessage),
            Some(message) => {
                let entry = Missing {
                    message: Spanned::new(message, file.row, file.col),
                    text: owned_copies(text),
                };
                self.map.record(file.name, entry);
                Ok(())
            },
        }
    }

    /// Visits one message and, if the gates let it pass, its spans in order.
    pub fn visit_message(&mut self, message: &Message<'_>) -> (done: Result<(), VisitError>)
        ensures
            final(self).filters == old(self).filters,
            match done {
                Ok(()) => after_message(old(self).filters@, old(self).state(), message@) == Ok::<
                    State,
                    VisitError,
                >(final(self).state()),
                Err(e) => after_message(old(self).filters@, old(self).state(), message@) == Err::<
                    State,
                    VisitError,
                >(e),
            },
    {
        if !self.offer(message.code, message.message) {
            return Ok(());
        }
        let ghost filters = self.filters@;
        let ghost start = self.state();
        let ghost spans = span_views(message.spans@);
        let mut i: usize = 0;
        while i < message.spans.len()
            invariant
                i <= message.spans@.len(),
                spans == span_views(message.spans@),
                self.filters == old(self).filters,
                filters == self.filters@,
                after_message(old(self).filters@, old(self).state(), message@) == after_spans(
                    filters,
                    start,
                    spans,
                    spans.len() as int,
                ),
                after_spans(filters, start, spans, i as int) == Ok::<State, VisitError>(
                    self.state(),
                ),
            decreases message.spans@.len() - i,
        {
            let span = &message.spans[i];
            match self.visit_span(span.file, span.text.as_slice()) {
                Ok(()) => {},
                Err(e) => {
                    proof {
                        lemma_span_failure_stays(filters, start, spans, i + 1, spans.len() as int);
                    }
                    return Err(e);
                },
            }
            i += 1;
        }
        Ok(())
    }

    /// Visits a forest of messages in order.
    pub fn walk(&mut self, messages: &[Message<'_>]) -> (done: Result<(), VisitError>)
        ensures
            final(self).filters == old(self).filters,
            match done {
                Ok(()) => after_forest(
                    old(self).filters@,
                    old(self).state(),
                    message_views(messages@),
                ) == Ok::<State, VisitError>(final(self).state()),
                Err(e) => after_forest(
                    old(self).filters@,
                    old(self).state(),
                    message_views(messages@),
                ) == Err::<State, VisitError>(e),
            },
    {
        let ghost filters = self.filters@;
        let ghost start = self.state();
        let ghost views = message_views(messages@);
        let mut i: usize = 0;
        while i < messages.len()
            invariant
                i <= messages@.len(),
                views == message_views(messages@),
                self.filters == old(self).filters,
                filters == self.filters@,
                start == old(self).state(),
                after_messages(filters, start, views, i as int) == Ok::<State, VisitError>(
                    self.state(),
                ),
            decreases messages@.len() - i,
        {
            match self.visit_message(&messages[i]) {
                Ok(()) => {},
                Err(e) => {
                    proof {
                        lemma_message_failure_stays(filters, start, views, i + 1, views.len() as int);
                    }
                    return Err(e);
                },
            }
            i += 1;
        }
        Ok(())
    }
}

/// Once a span is refused, no later span changes the outcome.
proof fn lemma_span_failure_stays(
    filters: FiltersView,
    state: State,
    spans: Seq<SpanView>,
    n: int,
    m: int,
)
    requires
        after_spans(filters, state, spans, n) is Err,
        n <= m,
    ensures
        after_spans(filters, state, spans, m) == after_spans(filters, state, spans, n),
    decreases m - n,
{
    if n < m {
        lemma_span_failure_stays(filters, state, spans, n, m - 1);
    }
}

/// Once a message fails, no later message changes the outcome.
proof fn lemma_message_failure_stays(
    filters: FiltersView,
    state: State,
    messages: Seq<MessageView>,
    n: int,
    m: int,
)
    requires
        after_messages(filters, state, messages, n) is Err,
        n <= m,
    ensures
        after_messages(filters, state, messages, m) == after_messages(filters, state, messages, n),
    decreases m - n,
{
    if n < m {
        lemma_message_failure_stays(filters, state, messages, n, m - 1);
    }
}

/// Whether a report holds, for every file, what another held for it, in the
/// same order and before anything else.
pub open spec fn extends(later: Seq<GroupView>, earlier: Seq<GroupView>) -> bool {
    forall|file: Seq<char>| #[trigger]
        entries_for(earlier, file).is_prefix_of(entries_for(later, file))
}

/// A span that records a finding puts it after
/// all that was recorded for its file before, whatever its row and column,
/// and no span changes what was recorded before it.
pub proof fn lemma_span_keeps_order(filters: FiltersView, state: State, span: SpanView, next: State)
    requires
        ascending(state.index),
        inhabited(state.index),
        after_span(filters, state, span) == Ok::<State, VisitError>(next),
    ensures
        ascending(next.index),
        inhabited(next.index),
        extends(next.index, state.index),
        path_allowed(filters.allow, span.file) ==> entries_for(next.index, span.file)
            == entries_for(state.index, span.file).push(finding(state.pending->0, span)),
        !path_allowed(filters.allow, span.file) ==> next.index == state.index,
{
    if path_allowed(filters.allow, span.file) {
        let entry = finding(state.pending->0, span);
        lemma_recorded_ascending(state.index, span.file, entry);
        assert forall|file: Seq<char>| #[trigger]
            entries_for(state.index, file).is_prefix_of(entries_for(next.index, file)) by {
            lemma_recorded_entries(state.index, span.file, entry, file);
        }
        lemma_recorded_entries(state.index, span.file, entry, span.file);
    }
}

/// The spans of one message leave what was recorded before them in place.
pub proof fn lemma_spans_keep_order(
    filters: FiltersView,
    state: State,
    spans: Seq<SpanView>,
    n: int,
    next: State,
)
    requires
        ascending(state.index),
        inhabited(state.index),
        after_spans(filters, state, spans, n) == Ok::<State, VisitError>(next),
    ensures
        ascending(next.index),
        inhabited(next.index),
        extends(next.index, state.index),
    decreases n,
{
    if n > 0 {
        let before = after_spans(filters, state, spans, n - 1)->Ok_0;
        lemma_spans_keep_order(filters, state, spans, n - 1, before);
        lemma_span_keeps_order(filters, before, spans[n - 1], next);
        lemma_extends_transitive(next.index, before.index, state.index);
    }
}

/// A message and its spans leave what was recorded before them in place.
pub proof fn lemma_message_keeps_order(
    filters: FiltersView,
    state: State,
    message: MessageView,
    next: State,
)
    requires
        ascending(state.index),
        inhabited(state.index),
        after_message(filters, state, message) == Ok::<State, VisitError>(next),
    ensures
        ascending(next.index),
        inhabited(next.index),
        extends(next.index, state.index),
{
    if admits(filters.included, filters.excluded, message.code, message.message) {
        lemma_spans_keep_order(
            filters,
            State { index: state.index, pending: Some(message.message) },
            message.spans,
            message.spans.len() as int,
            next,
        );
    }
}

/// Any number of messages leave what was recorded before them in place.
pub proof fn lemma_messages_keep_order(
    filters: FiltersView,
    state: State,
    messages: Seq<MessageView>,
    n: int,
    next: State,
)
    requires
        ascending(state.index),
        inhabited(state.index),
        after_messages(filters, state, messages, n) == Ok::<State, VisitError>(next),
    ensures
        ascending(next.index),
        inhabited(next.index),
        extends(next.index, state.index),
    decreases n,
{
    if n > 0 {
        let before = after_messages(filters, state, messages, n - 1)->Ok_0;
        lemma_messages_keep_order(filters, state, messages, n - 1, before);
        lemma_message_keeps_order(filters, before, messages[n - 1], next);
        lemma_extends_transitive(next.index, before.index, state.index);
    }
}

/// After a whole forest, the findings of each file stand in
/// the report in the order in which their spans were visited.
pub proof fn lemma_walk_keeps_order(
    filters: FiltersView,
    state: State,
    messages: Seq<MessageView>,
    next: State,
)
    requires
        ascending(state.index),
        inhabited(state.index),
        after_forest(filters, state, messages) == Ok::<State, VisitError>(next),
    ensures
        ascending(next.index),
        inhabited(next.index),
        extends(next.index, state.index),
{
    lemma_messages_keep_order(filters, state, messages, messages.len() as int, next);
}

/// What extends an extension extends the original.
pub proof fn lemma_extends_transitive(
    last: Seq<GroupView>,
    middle: Seq<GroupView>,
    first: Seq<GroupView>,
)
    requires
        extends(last, middle),
        extends(middle, first),
    ensures
        extends(last, first),
{
    assert forall|file: Seq<char>| #[trigger]
        entries_for(first, file).is_prefix_of(entries_for(last, file)) by {
        let a = entries_for(first, file);
        let b = entries_for(middle, file);
        let c = entries_for(last, file);
        assert(a.is_prefix_of(b));
        assert(b.is_prefix_of(c));
    }
}

/// Whether no message of a forest has more than one span.
pub open spec fn single_spans(messages: Seq<MessageView>) -> bool {
    forall|i: int| 0 <= i < messages.len() ==> (#[trigger] messages[i]).spans.len() <= 1
}

/// A forest in which no message has more than one span is never malformed:
/// every span that is visited finds its message waiting.
pub proof fn lemma_single_spans_succeed(
    filters: FiltersView,
    state: State,
    messages: Seq<MessageView>,
)
    requires
        single_spans(messages),
    ensures
        after_forest(filters, state, messages) is Ok,
{
    lemma_single_spans_upto(filters, state, messages, messages.len() as int);
}

/// The first `n` messages of such a forest are visited without failure.
proof fn lemma_single_spans_upto(
    filters: FiltersView,
    state: State,
    messages: Seq<MessageView>,
    n: int,
)
    requires
        single_spans(messages),
        0 <= n <= messages.len(),
    ensures
        after_messages(filters, state, messages, n) is Ok,
    decreases n,
{
    if n > 0 {
        lemma_single_spans_upto(filters, state, messages, n - 1);
        let message = messages[n - 1];
        assert(message.spans.len() <= 1);
        reveal_with_fuel(after_spans, 2);
    }
}

} // verus!
