//! One streamed turn: from the lines of the stream to what the turn gives.

use crate::error::{ClientError, ErrorCode, ErrorView};
use crate::json::{Json, JsonView};
use crate::llm::provider::LLMSession;
use crate::llm::stream_decoder::{decoded, outcome, outcomes, reading, DecoderView, StreamDecoder};
use crate::llm::tool_calls::{CollectedView, ToolCallAccumulator};
use crate::llm::types::{
    ChatResponseStream, ChunkView, DecoderEvent, DecoderEventPayload, EventView, PayloadView,
    SessionEvent, SessionEventView, StatusView, ToolCall, ToolCallView, TurnStatus, Usage,
};
use crate::model::{lemma_views_push, view_opt, views, views_opt};
use crate::text::same_text;
use vstd::prelude::*;

verus! {

/// What a turn gives.
#[derive(Debug)]
pub struct TurnOutput {
    pub content: String,
    pub reasoning: String,
    pub tool_calls: Option<Vec<ToolCall>>,
    pub finish_reason: Option<String>,
    pub status: TurnStatus,
    pub usage: Option<Usage>,
}

/// What the output of a turn says.
#[verifier::ext_equal]
pub struct OutputView {
    pub content: Seq<char>,
    pub reasoning: Seq<char>,
    pub tool_calls: Option<Seq<ToolCallView>>,
    pub finish_reason: Option<Seq<char>>,
    pub status: StatusView,
    pub usage: Option<Usage>,
}

impl View for TurnOutput {
    type V = OutputView;

    open spec fn view(&self) -> OutputView {
        OutputView {
            content: self.content@,
            reasoning: self.reasoning@,
            tool_calls: views_opt(self.tool_calls),
            finish_reason: view_opt(self.finish_reason),
            status: self.status@,
            usage: self.usage,
        }
    }
}

impl OutputView {
    /// What a turn gives that was cancelled before anything came.
    pub open spec fn cancelled() -> OutputView {
        OutputView {
            content: Seq::empty(),
            reasoning: Seq::empty(),
            tool_calls: None,
            finish_reason: Some("cancelled"@),
            status: StatusView::Cancelled,
            usage: None,
        }
    }
}

impl TurnOutput {
    /// What a turn gives that was cancelled before anything came.
    pub fn cancelled() -> (r: TurnOutput)
        ensures
            r@ == OutputView::cancelled(),
    {
        TurnOutput {
            content: String::new(),
            reasoning: String::new(),
            tool_calls: None,
            finish_reason: Some("cancelled".to_owned()),
            status: TurnStatus::Cancelled,
            usage: None,
        }
    }
}

/// Whether a stream is read on.
#[derive(Debug)]
pub enum StreamStep {
    /// The next line is read.
    Continue,
    /// The turn is over.
    Stop,
    /// The turn failed with nothing to show for it.
    Fail(ClientError),
}

/// What a step says.
#[verifier::ext_equal]
pub enum StepView {
    Continue,
    Stop,
    Fail(ErrorView),
}

impl View for StreamStep {
    type V = StepView;

    open spec fn view(&self) -> StepView {
        match *self {
            StreamStep::Continue => StepView::Continue,
            StreamStep::Stop => StepView::Stop,
            StreamStep::Fail(e) => StepView::Fail(e@),
        }
    }
}

/// A streamed turn under way.
#[derive(Debug)]
pub struct StreamTurn {
    turn_id: u64,
    decoder: StreamDecoder,
    collected: ToolCallAccumulator,
    content: String,
    reasoning: String,
    finish_reason: Option<String>,
    tool_calls: Vec<ToolCall>,
    status: TurnStatus,
    usage: Option<Usage>,
    saw_tool_call_start: bool,
    tool_calls_ready: bool,
}

/// The state of a streamed turn.
#[verifier::ext_equal]
pub struct StreamTurnView {
    pub turn_id: u64,
    pub decoder: DecoderView,
    pub collected: CollectedView,
    pub content: Seq<char>,
    pub reasoning: Seq<char>,
    pub finish_reason: Option<Seq<char>>,
    pub tool_calls: Seq<ToolCallView>,
    pub status: StatusView,
    pub usage: Option<Usage>,
    pub saw_tool_call_start: bool,
    pub tool_calls_ready: bool,
}

impl View for StreamTurn {
    type V = StreamTurnView;

    closed spec fn view(&self) -> StreamTurnView {
        StreamTurnView {
            turn_id: self.turn_id,
            decoder: self.decoder@,
            collected: self.collected@,
            content: self.content@,
            reasoning: self.reasoning@,
            finish_reason: view_opt(self.finish_reason),
            tool_calls: views(self.tool_calls@),
            status: self.status@,
            usage: self.usage,
            saw_tool_call_start: self.saw_tool_call_start,
            tool_calls_ready: self.tool_calls_ready,
        }
    }
}

/// The counts of a request with another report taken in.
pub open spec fn merged_usage(current: Option<Usage>, update: Option<Usage>) -> Option<Usage> {
    match (current, update) {
        (Some(c), Some(u)) => Some(c.merged(u)),
        (None, Some(u)) => Some(u),
        (c, None) => c,
    }
}

/// Takes another report on the counts of a request in.
pub fn merge_stream_usage(current: &mut Option<Usage>, update: Option<Usage>)
    ensures
        *final(current) == merged_usage(*old(current), update),
{
    match update {
        Some(u) => {
            match *current {
                Some(c) => {
                    let mut merged: Usage = c;
                    merged.merge_request_update(u);
                    *current = Some(merged);
                },
                None => {
                    *current = Some(u);
                },
            }
        },
        None => {},
    }
}

/// Whether a stream is done after the end of the turn: a turn that ended well is read on until its
/// counts have come.
pub open spec fn stops_after_end(status: StatusView, usage: Option<Usage>) -> bool {
    usage is Some || status != StatusView::Completed
}

impl LLMSession {
    /// Whether a stream is done after the end of the turn.
    pub fn should_stop_after_stream_turn_end(turn_status: &TurnStatus, usage: &Option<Usage>) -> (r:
        bool)
        ensures
            r == stops_after_end(turn_status@, *usage),
    {
        let completed: bool = match turn_status {
            TurnStatus::Completed => true,
            _ => false,
        };
        usage.is_some() || !completed
    }
}

/// The error for a stream that began a tool call and did not end it.
pub open spec fn unfinished_call(
    reason: Seq<char>,
    turn_id: u64,
    content_chars: nat,
    reasoning_chars: nat,
) -> ErrorView {
    ErrorView::bare(
        ErrorCode::LlmStreamProtocolError,
        "模型开始输出工具调用，但未以 tool_calls 结束，工具未执行"@,
    ).with("finish_reason"@, JsonView::Text(reason)).with(
        "turn_id"@,
        JsonView::Int(turn_id as int),
    ).with("content_chars"@, JsonView::Int(content_chars as int)).with(
        "reasoning_chars"@,
        JsonView::Int(reasoning_chars as int),
    )
}

/// The events that tell of tool calls.
pub open spec fn call_events(calls: Seq<ToolCallView>) -> Seq<SessionEventView> {
    Seq::new(
        calls.len(),
        |i: int|
            SessionEventView::ToolCall {
                index: calls[i].index,
                name: calls[i].name,
                arguments: calls[i].arguments,
            },
    )
}

impl StreamTurnView {
    /// A turn before its first line.
    pub open spec fn begun(turn_id: u64) -> StreamTurnView {
        StreamTurnView {
            turn_id,
            decoder: DecoderView::fresh(turn_id),
            collected: CollectedView::nothing(),
            content: Seq::empty(),
            reasoning: Seq::empty(),
            finish_reason: None,
            tool_calls: Seq::empty(),
            status: StatusView::Completed,
            usage: None,
            saw_tool_call_start: false,
            tool_calls_ready: false,
        }
    }

    /// With the counts taken over from the decoder.
    pub open spec fn counted(self) -> StreamTurnView {
        StreamTurnView {
            usage: merged_usage(self.usage, self.decoder.pending),
            decoder: DecoderView { pending: None, ..self.decoder },
            ..self
        }
    }

    /// Whether something came that must not be lost.
    pub open spec fn has_something(self) -> bool {
        self.content.len() > 0 || self.reasoning.len() > 0
    }

    /// After the user cancelled.
    pub open spec fn cancelled(self) -> StreamTurnView {
        StreamTurnView {
            status: StatusView::Cancelled,
            finish_reason: Some("cancelled"@),
            ..self.counted()
        }
    }

    /// After an error: where nothing came, not even counts, the turn fails; else it is cut short.
    pub open spec fn failed(self, error: ErrorView) -> (StreamTurnView, StepView) {
        let c = self.counted();
        if !c.has_something() && c.usage is None {
            (c, StepView::Fail(error))
        } else {
            (
                StreamTurnView {
                    status: StatusView::Error(error),
                    finish_reason: Some("interrupted"@),
                    ..c
                },
                StepView::Stop,
            )
        }
    }

    /// After the end of the content of a tool-calling answer. The stream is read on: counts may
    /// follow.
    pub open spec fn calls_complete(self) -> StreamTurnView {
        let c = self.counted();
        StreamTurnView {
            tool_calls: if c.tool_calls_ready {
                c.tool_calls
            } else {
                c.collected.calls(c.turn_id)
            },
            tool_calls_ready: true,
            finish_reason: Some("tool_calls"@),
            ..c
        }
    }

    /// The reason for the end, given the status and what the stream told.
    pub open spec fn end_reason(status: StatusView, told: Option<Seq<char>>) -> Seq<char> {
        match status {
            StatusView::Completed => match told {
                Some(reason) => reason,
                None => "stop"@,
            },
            StatusView::Cancelled => "cancelled"@,
            _ => "interrupted"@,
        }
    }

    /// After the end of the turn was told.
    pub open spec fn ended(
        self,
        status: StatusView,
        told: Option<Seq<char>>,
        usage: Option<Usage>,
    ) -> (StreamTurnView, StepView) {
        let c = StreamTurnView { status, usage: merged_usage(self.usage, usage), ..self };
        if c.tool_calls_ready && status == StatusView::Completed {
            (StreamTurnView { finish_reason: Some("tool_calls"@), ..c }, StepView::Stop)
        } else {
            match status {
                StatusView::Error(e) => if c.has_something() {
                    (StreamTurnView { finish_reason: Some("interrupted"@), ..c }, StepView::Stop)
                } else {
                    (c, StepView::Fail(e))
                },
                _ => {
                    let reason = StreamTurnView::end_reason(status, told);
                    let f = if c.finish_reason is None || reason != "stop"@ {
                        StreamTurnView { finish_reason: Some(reason), ..c }
                    } else {
                        c
                    };
                    if f.saw_tool_call_start && reason != "tool_calls"@ {
                        (
                            StreamTurnView {
                                status: StatusView::Error(
                                    unfinished_call(
                                        reason,
                                        f.turn_id,
                                        f.content.len(),
                                        f.reasoning.len(),
                                    ),
                                ),
                                ..f
                            },
                            StepView::Stop,
                        )
                    } else if stops_after_end(f.status, f.usage) {
                        (f, StepView::Stop)
                    } else {
                        (f, StepView::Continue)
                    }
                },
            }
        }
    }

    /// What the turn gives. A turn that failed calls no tools; one of which no end was told ended
    /// well.
    pub open spec fn output(self) -> OutputView {
        let c = self.counted();
        let calls = if c.status is Error {
            Seq::empty()
        } else {
            c.tool_calls
        };
        OutputView {
            content: c.content,
            reasoning: c.reasoning,
            tool_calls: if calls.len() == 0 {
                None
            } else {
                Some(calls)
            },
            finish_reason: match c.finish_reason {
                Some(reason) => Some(reason),
                None => Some("stop"@),
            },
            status: if c.finish_reason is None && !(c.status is Error) {
                StatusView::Completed
            } else {
                c.status
            },
            usage: c.usage,
        }
    }
}

/// A turn with what it has told so far, and whether it is over.
#[verifier::ext_equal]
pub struct Turning {
    pub turn: StreamTurnView,
    pub sent: Seq<SessionEventView>,
    pub step: StepView,
}

impl Turning {
    /// After one event of the decoder, unless the turn is over.
    pub open spec fn event(self, e: Result<EventView, ErrorView>) -> Turning {
        if self.step != StepView::Continue {
            self
        } else {
            match e {
                Err(error) => {
                    let (turn, step) = self.turn.failed(error);
                    Turning { turn, step, ..self }
                },
                Ok(event) => self.payload(event.payload),
            }
        }
    }

    /// After what one event tells.
    pub open spec fn payload(self, p: PayloadView) -> Turning {
        match p {
            PayloadView::AssistantReasoningDelta { delta } => Turning {
                turn: StreamTurnView { reasoning: self.turn.reasoning + delta, ..self.turn },
                sent: self.sent.push(SessionEventView::ReasoningDelta(delta)),
                ..self
            },
            PayloadView::AssistantContentDelta { delta } => Turning {
                turn: StreamTurnView { content: self.turn.content + delta, ..self.turn },
                sent: self.sent.push(SessionEventView::ContentDelta(delta)),
                ..self
            },
            PayloadView::ToolCallStart { index, tool_name } => Turning {
                turn: StreamTurnView {
                    saw_tool_call_start: true,
                    collected: self.turn.collected.touched(index).named(index, Some(tool_name)),
                    ..self.turn
                },
                sent: self.sent.push(
                    SessionEventView::ToolCall {
                        index,
                        name: tool_name,
                        arguments: Seq::empty(),
                    },
                ),
                ..self
            },
            PayloadView::ToolCallDelta { index, tool_name, args } => Turning {
                turn: StreamTurnView {
                    collected: self.turn.collected.piece(index, tool_name, args),
                    ..self.turn
                },
                ..self
            },
            PayloadView::ToolCallsRequired => Turning {
                turn: self.turn.calls_complete(),
                sent: if self.turn.tool_calls_ready {
                    self.sent
                } else {
                    self.sent + call_events(self.turn.calls_complete().tool_calls)
                },
                ..self
            },
            PayloadView::TurnEnd { status, finish_reason, usage } => {
                let (turn, step) = self.turn.ended(status, finish_reason, usage);
                Turning { turn, step, ..self }
            },
            PayloadView::TurnStart { .. } => self,
        }
    }

    /// After events in turn.
    pub open spec fn events(self, es: Seq<Result<EventView, ErrorView>>) -> Turning
        decreases es.len(),
    {
        if es.len() == 0 {
            self
        } else {
            self.events(es.drop_last()).event(es.last())
        }
    }
}

/// What a turn makes of a line.
pub open spec fn turned(
    turn: StreamTurnView,
    line: Seq<char>,
    parsed: Result<ChunkView, Seq<char>>,
) -> Turning {
    let d = decoded(turn.decoder, line, parsed);
    Turning {
        turn: StreamTurnView { decoder: d.state, ..turn },
        sent: Seq::empty(),
        step: StepView::Continue,
    }.events(d.out)
}

fn push_event(sent: &mut Vec<SessionEvent>, event: SessionEvent)
    ensures
        views(final(sent)@) == views(old(sent)@).push(event@),
{
    proof {
        lemma_views_push(sent@, event);
    }
    sent.push(event);
}

fn is_stop(reason: &str) -> (r: bool)
    ensures
        r == (reason@ == "stop"@),
{
    same_text(reason, "stop")
}

impl StreamTurn {
    /// Begins a turn.
    pub fn new(turn_id: u64) -> (r: StreamTurn)
        ensures
            r@ == StreamTurnView::begun(turn_id),
    {
        let mut decoder: StreamDecoder = StreamDecoder::default();
        decoder.begin_turn(turn_id);
        let r: StreamTurn = StreamTurn {
            turn_id,
            decoder,
            collected: ToolCallAccumulator::default(),
            content: String::new(),
            reasoning: String::new(),
            finish_reason: None,
            tool_calls: Vec::new(),
            status: TurnStatus::Completed,
            usage: None,
            saw_tool_call_start: false,
            tool_calls_ready: false,
        };
        assert(r@ =~= StreamTurnView::begun(turn_id));
        r
    }

    fn take_counts(&mut self)
        ensures
            final(self)@ == old(self)@.counted(),
    {
        let pending: Option<Usage> = self.decoder.take_pending_usage();
        merge_stream_usage(&mut self.usage, pending);
    }

    /// Takes in that the user cancelled.
    pub fn on_cancel(&mut self)
        ensures
            final(self)@ == old(self)@.cancelled(),
    {
        self.take_counts();
        self.status = TurnStatus::Cancelled;
        self.finish_reason = Some("cancelled".to_owned());
    }

    /// Takes in that the stream could not be read, mapped or decoded.
    pub fn on_error(&mut self, error: ClientError) -> (r: StreamStep)
        ensures
            (final(self)@, r@) == old(self)@.failed(error@),
    {
        self.take_counts();
        if self.content.as_str().is_empty() && self.reasoning.as_str().is_empty()
            && self.usage.is_none() {
            return StreamStep::Fail(error);
        }
        self.status = TurnStatus::Error(error);
        self.finish_reason = Some("interrupted".to_owned());
        StreamStep::Stop
    }

    fn on_calls_complete(&mut self, sent: &mut Vec<SessionEvent>)
        ensures
            final(self)@ == old(self)@.calls_complete(),
            views(final(sent)@) == if old(self)@.tool_calls_ready {
                views(old(sent)@)
            } else {
                views(old(sent)@) + call_events(old(self)@.calls_complete().tool_calls)
            },
    {
        self.take_counts();
        if !self.tool_calls_ready {
            self.tool_calls = self.collected.build_calls(self.turn_id);
            let ghost calls = views(self.tool_calls@);
            let ghost before = views(sent@);
            let mut i: usize = 0;
            assert(before + call_events(calls).take(0) =~= before);
            while i < self.tool_calls.len()
                invariant
                    i <= self.tool_calls@.len(),
                    calls == views(self.tool_calls@),
                    views(sent@) == before + call_events(calls).take(i as int),
                decreases self.tool_calls@.len() - i,
            {
                let call: &ToolCall = &self.tool_calls[i];
                push_event(
                    sent,
                    SessionEvent::ToolCall {
                        index: call.index,
                        name: call.function.name.clone(),
                        arguments: call.function.arguments.clone(),
                    },
                );
                assert(calls[i as int] == self.tool_calls@[i as int]@);
                i = i + 1;
                assert(views(sent@) =~= before + call_events(calls).take(i as int));
            }
            assert(call_events(calls).take(i as int) =~= call_events(calls));
        }
        self.tool_calls_ready = true;
        self.finish_reason = Some("tool_calls".to_owned());
    }

    fn on_end(
        &mut self,
        status: TurnStatus,
        told: Option<String>,
        usage: Option<Usage>,
    ) -> (r: StreamStep)
        ensures
            (final(self)@, r@) == old(self)@.ended(status@, view_opt(told), usage),
    {
        merge_stream_usage(&mut self.usage, usage);
        let completed: bool = match &status {
            TurnStatus::Completed => true,
            _ => false,
        };
        if self.tool_calls_ready && completed {
            self.status = status;
            self.finish_reason = Some("tool_calls".to_owned());
            return StreamStep::Stop;
        }
        let reason: String = match &status {
            TurnStatus::Completed => match told {
                Some(reason) => reason,
                None => "stop".to_owned(),
            },
            TurnStatus::Cancelled => "cancelled".to_owned(),
            TurnStatus::Interrupted => "interrupted".to_owned(),
            TurnStatus::Error(error) => {
                if self.content.as_str().is_empty() && self.reasoning.as_str().is_empty() {
                    let failure: ClientError = error.clone();
                    self.status = status;
                    return StreamStep::Fail(failure);
                }
                self.status = status;
                self.finish_reason = Some("interrupted".to_owned());
                return StreamStep::Stop;
            },
        };
        self.status = status;
        if self.finish_reason.is_none() || !is_stop(reason.as_str()) {
            self.finish_reason = Some(reason.clone());
        }
        if self.saw_tool_call_start && !same_text(reason.as_str(), "tool_calls") {
            let content_chars: u64 = self.content.as_str().unicode_len() as u64;
            let reasoning_chars: u64 = self.reasoning.as_str().unicode_len() as u64;
            let error: ClientError = ClientError::new(
                ErrorCode::LlmStreamProtocolError,
                "模型开始输出工具调用，但未以 tool_calls 结束，工具未执行",
            ).with_kv("finish_reason", Json::text(reason.as_str())).with_kv(
                "turn_id",
                Json::Unsigned(self.turn_id),
            ).with_kv("content_chars", Json::Unsigned(content_chars)).with_kv(
                "reasoning_chars",
                Json::Unsigned(reasoning_chars),
            );
            self.status = TurnStatus::Error(error);
            return StreamStep::Stop;
        }
        if LLMSession::should_stop_after_stream_turn_end(&self.status, &self.usage) {
            StreamStep::Stop
        } else {
            StreamStep::Continue
        }
    }

    fn on_event(
        &mut self,
        event: Result<DecoderEvent, ClientError>,
        sent: &mut Vec<SessionEvent>,
    ) -> (r: StreamStep)
        ensures
            (Turning { turn: final(self)@, sent: views(final(sent)@), step: r@ }) == (Turning {
                turn: old(self)@,
                sent: views(old(sent)@),
                step: StepView::Continue,
            }).event(outcome(event)),
    {
        let event: DecoderEvent = match event {
            Ok(event) => event,
            Err(error) => {
                return self.on_error(error);
            },
        };
        match event.payload {
            DecoderEventPayload::AssistantReasoningDelta { delta } => {
                self.reasoning.append(delta.as_str());
                push_event(sent, SessionEvent::ReasoningDelta(delta));
            },
            DecoderEventPayload::AssistantContentDelta { delta } => {
                self.content.append(delta.as_str());
                push_event(sent, SessionEvent::ContentDelta(delta));
            },
            DecoderEventPayload::ToolCallStart { index, tool_name } => {
                self.saw_tool_call_start = true;
                self.collected.on_start(index, Some(tool_name.as_str()));
                push_event(
                    sent,
                    SessionEvent::ToolCall { index, name: tool_name, arguments: String::new() },
                );
            },
            DecoderEventPayload::ToolCallDelta { index, tool_name, args } => {
                match &tool_name {
                    Some(name) => {
                        self.collected.on_delta(index, Some(name.as_str()), args.as_str());
                    },
                    None => {
                        self.collected.on_delta(index, None, args.as_str());
                    },
                }
            },
            DecoderEventPayload::ToolCallsRequired => {
                self.on_calls_complete(sent);
            },
            DecoderEventPayload::TurnEnd { status, finish_reason, usage } => {
                return self.on_end(status, finish_reason, usage);
            },
            DecoderEventPayload::TurnStart { model: _ } => {},
        }
        StreamStep::Continue
    }

    /// Takes in a line. `parsed` is what the text of the line was read as.
    pub fn on_line(&mut self, line: &str, parsed: Result<ChatResponseStream, String>) -> (r: (
        Vec<SessionEvent>,
        StreamStep,
    ))
        ensures
            (Turning { turn: final(self)@, sent: views(r.0@), step: r.1@ }) == turned(
                old(self)@,
                line@,
                reading(parsed),
            ),
    {
        let events: Vec<Result<DecoderEvent, ClientError>> = self.decoder.decode(line, parsed);
        let ghost all = outcomes(events@);
        let mut queue: Vec<Result<DecoderEvent, ClientError>> = reversed(events);
        let mut sent: Vec<SessionEvent> = Vec::new();
        let mut step: StreamStep = StreamStep::Continue;
        let ghost start = Turning {
            turn: self@,
            sent: Seq::empty(),
            step: StepView::Continue,
        };
        let ghost mut k: int = 0;
        assert(views(sent@) =~= Seq::<SessionEventView>::empty());
        assert(all.take(0) =~= Seq::<Result<EventView, ErrorView>>::empty());
        assert(outcomes(queue@) =~= all.skip(0).reverse());
        let mut going: bool = true;
        while going && queue.len() > 0
            invariant
                0 <= k <= all.len(),
                outcomes(queue@) == all.skip(k).reverse(),
                (Turning { turn: self@, sent: views(sent@), step: step@ }) == start.events(
                    all.take(k),
                ),
                going == (step@ == StepView::Continue),
            decreases queue@.len(),
        {
            let ghost rest = all.skip(k);
            assert(outcomes(queue@).len() == queue@.len());
            let ghost top = queue@.last();
            assert(outcomes(queue@).last() == outcome(top));
            let ghost before = queue@;
            let event: Result<DecoderEvent, ClientError> = queue.pop().unwrap();
            proof {
                assert(rest.reverse().last() == rest[0]);
                assert(outcome(event) == all[k]);
                assert(all.take(k + 1).drop_last() =~= all.take(k));
                assert(outcomes(queue@) =~= outcomes(before).drop_last());
                assert(all.skip(k + 1).reverse() =~= rest.reverse().drop_last());
            }
            step = self.on_event(event, &mut sent);
            going =
            match &step {
                StreamStep::Continue => true,
                _ => false,
            };
            proof {
                k = k + 1;
            }
        }
        proof {
            assert(outcomes(queue@).len() == queue@.len());
            lemma_events_after_halt(start, all, k);
        }
        (sent, step)
    }

    /// What the turn gives.
    pub fn finish(self) -> (r: TurnOutput)
        ensures
            r@ == self@.output(),
    {
        let mut turn: StreamTurn = self;
        turn.take_counts();
        let failed: bool = match &turn.status {
            TurnStatus::Error(_) => true,
            _ => false,
        };
        let tool_calls: Option<Vec<ToolCall>> = if failed || turn.tool_calls.len() == 0 {
            None
        } else {
            Some(turn.tool_calls)
        };
        let (finish_reason, status): (Option<String>, TurnStatus) = match turn.finish_reason {
            Some(reason) => (Some(reason), turn.status),
            None => (
                Some("stop".to_owned()),
                if failed {
                    turn.status
                } else {
                    TurnStatus::Completed
                },
            ),
        };
        TurnOutput {
            content: turn.content,
            reasoning: turn.reasoning,
            tool_calls,
            finish_reason,
            status,
            usage: turn.usage,
        }
    }
}

/// Events after the end of a turn change nothing.
proof fn lemma_events_after_halt(x: Turning, es: Seq<Result<EventView, ErrorView>>, k: int)
    requires
        0 <= k <= es.len(),
        k == es.len() || x.events(es.take(k)).step != StepView::Continue,
    ensures
        x.events(es) == x.events(es.take(k)),
    decreases es.len() - k,
{
    if k == es.len() {
        assert(es.take(k) =~= es);
    } else {
        assert(es.take(k + 1).drop_last() =~= es.take(k));
        lemma_events_after_halt(x, es, k + 1);
    }
}

/// Results in reverse order, so that the first can be taken off the end.
fn reversed(v: Vec<Result<DecoderEvent, ClientError>>) -> (r: Vec<Result<DecoderEvent, ClientError>>)
    ensures
        outcomes(r@) == outcomes(v@).reverse(),
{
    let mut from: Vec<Result<DecoderEvent, ClientError>> = v;
    let mut to: Vec<Result<DecoderEvent, ClientError>> = Vec::new();
    let ghost all = from@;
    while from.len() > 0
        invariant
            from@.len() <= all.len(),
            from@ == all.take(from@.len() as int),
            to@ == all.skip(from@.len() as int).reverse(),
        decreases from@.len(),
    {
        let ghost n = from@.len() as int;
        let x: Result<DecoderEvent, ClientError> = from.pop().unwrap();
        to.push(x);
        assert(to@ =~= all.skip(n - 1).reverse());
        assert(from@ =~= all.take(n - 1));
    }
    assert(all.skip(0) =~= all);
    assert(outcomes(all.reverse()) =~= outcomes(all).reverse());
    to
}

} // verus!
