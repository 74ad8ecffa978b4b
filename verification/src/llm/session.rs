//! A plain session: one conversation, one service, tools that are run as the model asks.

use crate::double::Real;
use crate::error::{ClientError, ErrorView};
use crate::json::{json_parsed, Json, JsonView};
use crate::llm::stream_decoder::{decoded, outcome, outcomes, reading, DecoderView, StreamDecoder};
use crate::llm::stream_turn::{call_events, OutputView, StepView, StreamStep, TurnOutput};
use crate::llm::tool_calls::{call_id, synth_tool_call_id, CollectedView, ToolCallAccumulator};
use crate::llm::types::{
    ChatRequest, ChatResponse, ChatResponseStream, Choice, ChoiceView, DecoderEvent,
    DecoderEventPayload, EventView, Message, MessageView, PayloadView, RequestView, SessionEvent,
    SessionEventView, StatusView, ThinkingType, ToolCall, ToolCallView, TurnStatus, Usage,
};
use crate::model::{
    duplicate_all, duplicate_all_option, lemma_views_push, text_or_default, text_or_empty, view_opt,
    views, views_opt,
};
use crate::text::{is_blank, blank, same_text, trim_text, trimmed};
use vstd::prelude::*;

verus! {

/// A session.
#[derive(Debug)]
pub struct AIChatSession {
    pub conversation: ChatRequest,
    pub decoder: StreamDecoder,
    pub turn_id: u64,
    pub event_buffer: usize,
    pub base_url: String,
    pub api_key: String,
}

/// The state of a session.
#[verifier::ext_equal]
pub struct SessionView {
    pub conversation: RequestView,
    pub decoder: DecoderView,
    pub turn_id: u64,
    pub event_buffer: usize,
    pub base_url: Seq<char>,
    pub api_key: Seq<char>,
}

impl View for AIChatSession {
    type V = SessionView;

    open spec fn view(&self) -> SessionView {
        SessionView {
            conversation: self.conversation@,
            decoder: self.decoder@,
            turn_id: self.turn_id,
            event_buffer: self.event_buffer,
            base_url: self.base_url@,
            api_key: self.api_key@,
        }
    }
}

impl SessionView {
    /// With another conversation.
    pub open spec fn with(self, conversation: RequestView) -> SessionView {
        SessionView { conversation, ..self }
    }

    /// With one more message.
    pub open spec fn saying(self, m: MessageView) -> SessionView {
        self.with(self.conversation.with_messages(self.conversation.messages.push(m)))
    }

    /// Whether the user is to speak: at the beginning, and after the model.
    pub open spec fn waits_for_user(self) -> bool {
        let s = self.conversation.messages;
        s.len() == 0 || s.last().role == "assistant"@
    }
}

/// A text that says something.
pub open spec fn non_empty(s: Seq<char>) -> Option<Seq<char>> {
    if s.len() == 0 {
        None
    } else {
        Some(s)
    }
}

/// The message that records what a turn gave.
pub open spec fn answer(o: OutputView) -> MessageView {
    MessageView {
        role: "assistant"@,
        content: non_empty(o.content),
        reasoning_content: non_empty(o.reasoning),
        tool_call_id: None,
        tool_calls: o.tool_calls,
    }
}

/// Records what a turn gave as a message.
pub fn answer_message(output: &TurnOutput) -> (r: Message)
    ensures
        r@ == answer(output@),
{
    let content: Option<String> = if output.content.as_str().is_empty() {
        None
    } else {
        Some(output.content.clone())
    };
    let reasoning_content: Option<String> = if output.reasoning.as_str().is_empty() {
        None
    } else {
        Some(output.reasoning.clone())
    };
    Message {
        role: "assistant".to_owned(),
        content,
        reasoning_content,
        tool_call_id: None,
        tool_calls: duplicate_all_option(&output.tool_calls),
    }
}

/// What comes after a turn.
#[derive(Debug)]
pub enum AfterTurn {
    /// The tools that the model called are run, and the next turn begins.
    RunTools(Vec<ToolCall>),
    /// The turn is over.
    End(TurnStatus),
}

/// What comes after a turn, as the model has it.
#[verifier::ext_equal]
pub enum AfterView {
    RunTools(Seq<ToolCallView>),
    End(StatusView),
}

impl View for AfterTurn {
    type V = AfterView;

    open spec fn view(&self) -> AfterView {
        match *self {
            AfterTurn::RunTools(calls) => AfterView::RunTools(views(calls@)),
            AfterTurn::End(status) => AfterView::End(status@),
        }
    }
}

/// What comes after a turn: the tools, where the model ended in order to have them run.
pub open spec fn after_turn(o: OutputView) -> AfterView {
    match o.tool_calls {
        Some(calls) if o.finish_reason == Some("tool_calls"@) => AfterView::RunTools(calls),
        _ => AfterView::End(o.status),
    }
}

/// What a tool gave, as text for the model.
pub open spec fn tool_text(result: Result<Seq<char>, Seq<char>>) -> Seq<char> {
    match result {
        Ok(output) => "工具执行成功: "@ + output,
        Err(error) => "工具执行失败: "@ + error,
    }
}

/// The views of a tool's result.
pub open spec fn tool_result(r: Result<String, String>) -> Result<Seq<char>, Seq<char>> {
    match r {
        Ok(s) => Ok(s@),
        Err(s) => Err(s@),
    }
}

/// What a tool gave, as text for the model; and whether it failed.
pub fn tool_output(result: &Result<String, String>) -> (r: (String, bool))
    ensures
        r.0@ == tool_text(tool_result(*result)),
        r.1 == (result is Err),
{
    match result {
        Ok(text) => {
            let mut s: String = "工具执行成功: ".to_owned();
            s.append(text.as_str());
            (s, false)
        },
        Err(error) => {
            let mut s: String = "工具执行失败: ".to_owned();
            s.append(error.as_str());
            (s, true)
        },
    }
}

/// The arguments of a call: what they were read as, and an empty object where there are none or
/// they could not be read.
pub open spec fn arguments_of(arguments: Seq<char>, parsed: Option<JsonView>) -> JsonView {
    match parsed {
        Some(v) if !is_blank(arguments) => v,
        _ => JsonView::Object(Map::empty()),
    }
}

/// The arguments of a call, given what they were read as.
pub fn arguments_value(arguments: &str, parsed: Option<Json>) -> (r: Json)
    ensures
        r@ == arguments_of(arguments@, view_opt(parsed)),
{
    if blank(arguments) {
        return Json::object();
    }
    match parsed {
        Some(v) => v,
        None => Json::object(),
    }
}

/// Reads the arguments of a call.
pub fn call_arguments(arguments: &str) -> (r: Json)
    ensures
        r@ == arguments_of(arguments@, json_parsed(trimmed(arguments@))),
{
    let text: String = trim_text(arguments);
    arguments_value(arguments, Json::parse(text.as_str()))
}

/// What a plain session makes of a streamed answer.
#[derive(Debug)]
pub struct StreamReply {
    collected: ToolCallAccumulator,
    content: String,
    reasoning: String,
    finish_reason: Option<String>,
    tool_calls: Vec<ToolCall>,
    status: TurnStatus,
}

/// The state of a streamed answer.
#[verifier::ext_equal]
pub struct ReplyView {
    pub collected: CollectedView,
    pub content: Seq<char>,
    pub reasoning: Seq<char>,
    pub finish_reason: Option<Seq<char>>,
    pub tool_calls: Seq<ToolCallView>,
    pub status: StatusView,
}

impl View for StreamReply {
    type V = ReplyView;

    closed spec fn view(&self) -> ReplyView {
        ReplyView {
            collected: self.collected@,
            content: self.content@,
            reasoning: self.reasoning@,
            finish_reason: view_opt(self.finish_reason),
            tool_calls: views(self.tool_calls@),
            status: self.status@,
        }
    }
}

impl ReplyView {
    /// An answer of which nothing came yet.
    pub open spec fn begun() -> ReplyView {
        ReplyView {
            collected: CollectedView::nothing(),
            content: Seq::empty(),
            reasoning: Seq::empty(),
            finish_reason: None,
            tool_calls: Seq::empty(),
            status: StatusView::Completed,
        }
    }

    /// What the turn gives.
    pub open spec fn output(self) -> OutputView {
        OutputView {
            content: self.content,
            reasoning: self.reasoning,
            tool_calls: if self.tool_calls.len() == 0 {
                None
            } else {
                Some(self.tool_calls)
            },
            finish_reason: self.finish_reason,
            status: self.status,
            usage: None,
        }
    }
}

/// A streamed answer with what has been told so far, and whether it is over.
#[verifier::ext_equal]
pub struct Replying {
    pub reply: ReplyView,
    pub sent: Seq<SessionEventView>,
    pub step: StepView,
}

impl Replying {
    /// After one event of the decoder, unless the answer is over.
    pub open spec fn event(self, turn_id: u64, e: Result<EventView, ErrorView>) -> Replying {
        if self.step != StepView::Continue {
            self
        } else {
            match e {
                Err(error) => Replying { step: StepView::Fail(error), ..self },
                Ok(event) => self.payload(turn_id, event.payload),
            }
        }
    }

    /// After what one event tells.
    pub open spec fn payload(self, turn_id: u64, p: PayloadView) -> Replying {
        match p {
            PayloadView::AssistantReasoningDelta { delta } => Replying {
                reply: ReplyView { reasoning: self.reply.reasoning + delta, ..self.reply },
                sent: self.sent.push(SessionEventView::ReasoningDelta(delta)),
                ..self
            },
            PayloadView::AssistantContentDelta { delta } => Replying {
                reply: ReplyView { content: self.reply.content + delta, ..self.reply },
                sent: self.sent.push(SessionEventView::ContentDelta(delta)),
                ..self
            },
            PayloadView::ToolCallStart { index, tool_name } => Replying {
                reply: ReplyView {
                    collected: self.reply.collected.touched(index).named(index, Some(tool_name)),
                    ..self.reply
                },
                sent: self.sent.push(
                    SessionEventView::ToolCall {
                        index,
                        name: tool_name,
                        arguments: Seq::empty(),
                    },
                ),
                ..self
            },
            PayloadView::ToolCallDelta { index, tool_name, args } => Replying {
                reply: ReplyView {
                    collected: self.reply.collected.piece(index, tool_name, args),
                    ..self.reply
                },
                ..self
            },
            PayloadView::ToolCallsRequired => {
                let calls = self.reply.tool_calls + self.reply.collected.calls(turn_id);
                Replying {
                    reply: ReplyView {
                        tool_calls: calls,
                        finish_reason: Some("tool_calls"@),
                        ..self.reply
                    },
                    sent: self.sent + call_events(calls),
                    step: StepView::Stop,
                }
            },
            PayloadView::TurnEnd { status, finish_reason: _, usage: _ } => match status {
                StatusView::Error(e) => Replying {
                    reply: ReplyView { status, ..self.reply },
                    step: StepView::Fail(e),
                    ..self
                },
                _ => Replying {
                    reply: ReplyView {
                        status,
                        finish_reason: Some(
                            match status {
                                StatusView::Completed => "stop"@,
                                StatusView::Cancelled => "cancelled"@,
                                _ => "interrupted"@,
                            },
                        ),
                        ..self.reply
                    },
                    step: StepView::Stop,
                    ..self
                },
            },
            PayloadView::TurnStart { .. } => self,
        }
    }

    /// After events in turn.
    pub open spec fn events(self, turn_id: u64, es: Seq<Result<EventView, ErrorView>>) -> Replying
        decreases es.len(),
    {
        if es.len() == 0 {
            self
        } else {
            self.events(turn_id, es.drop_last()).event(turn_id, es.last())
        }
    }
}

fn push_event(sent: &mut Vec<SessionEvent>, event: SessionEvent)
    ensures
        views(final(sent)@) == views(old(sent)@).push(event@),
{
    proof {
        lemma_views_push(sent@, event);
    }
    sent.push(event);
}

fn push_call_events(sent: &mut Vec<SessionEvent>, calls: &Vec<ToolCall>)
    ensures
        views(final(sent)@) == views(old(sent)@) + call_events(views(calls@)),
{
    let ghost all = views(calls@);
    let ghost before = views(sent@);
    let mut i: usize = 0;
    assert(before + call_events(all).take(0) =~= before);
    while i < calls.len()
        invariant
            i <= calls@.len(),
            all == views(calls@),
            views(sent@) == before + call_events(all).take(i as int),
        decreases calls@.len() - i,
    {
        let call: &ToolCall = &calls[i];
        push_event(
            sent,
            SessionEvent::ToolCall {
                index: call.index,
                name: call.function.name.clone(),
                arguments: call.function.arguments.clone(),
            },
        );
        assert(all[i as int] == calls@[i as int]@);
        i = i + 1;
        assert(views(sent@) =~= before + call_events(all).take(i as int));
    }
    assert(call_events(all).take(i as int) =~= call_events(all));
}

impl StreamReply {
    /// An answer of which nothing came yet.
    pub fn new() -> (r: StreamReply)
        ensures
            r@ == ReplyView::begun(),
    {
        let r: StreamReply = StreamReply {
            collected: ToolCallAccumulator::default(),
            content: String::new(),
            reasoning: String::new(),
            finish_reason: None,
            tool_calls: Vec::new(),
            status: TurnStatus::Completed,
        };
        assert(r@ =~= ReplyView::begun());
        r
    }

    fn on_event(
        &mut self,
        turn_id: u64,
        event: &Result<DecoderEvent, ClientError>,
        sent: &mut Vec<SessionEvent>,
    ) -> (r: StreamStep)
        ensures
            (Replying { reply: final(self)@, sent: views(final(sent)@), step: r@ }) == (Replying {
                reply: old(self)@,
                sent: views(old(sent)@),
                step: StepView::Continue,
            }).event(turn_id, outcome(*event)),
    {
        let event: &DecoderEvent = match event {
            Ok(event) => event,
            Err(error) => {
                return StreamStep::Fail(error.clone());
            },
        };
        match &event.payload {
            DecoderEventPayload::AssistantReasoningDelta { delta } => {
                self.reasoning.append(delta.as_str());
                push_event(sent, SessionEvent::ReasoningDelta(delta.clone()));
            },
            DecoderEventPayload::AssistantContentDelta { delta } => {
                self.content.append(delta.as_str());
                push_event(sent, SessionEvent::ContentDelta(delta.clone()));
            },
            DecoderEventPayload::ToolCallStart { index, tool_name } => {
                self.collected.on_start(*index, Some(tool_name.as_str()));
                push_event(
                    sent,
                    SessionEvent::ToolCall {
                        index: *index,
                        name: tool_name.clone(),
                        arguments: String::new(),
                    },
                );
            },
            DecoderEventPayload::ToolCallDelta { index, tool_name, args } => {
                match tool_name {
                    Some(name) => {
                        self.collected.on_delta(*index, Some(name.as_str()), args.as_str());
                    },
                    None => {
                        self.collected.on_delta(*index, None, args.as_str());
                    },
                }
            },
            DecoderEventPayload::ToolCallsRequired => {
                let ghost earlier = self.tool_calls@;
                let mut calls: Vec<ToolCall> = self.collected.build_calls(turn_id);
                let ghost built = calls@;
                self.tool_calls.append(&mut calls);
                assert(views(self.tool_calls@) =~= views(earlier) + views(built));
                self.finish_reason = Some("tool_calls".to_owned());
                push_call_events(sent, &self.tool_calls);
                return StreamStep::Stop;
            },
            DecoderEventPayload::TurnEnd { status, finish_reason: _, usage: _ } => {
                self.status = status.clone();
                let reason: String = match status {
                    TurnStatus::Completed => "stop".to_owned(),
                    TurnStatus::Cancelled => "cancelled".to_owned(),
                    TurnStatus::Interrupted => "interrupted".to_owned(),
                    TurnStatus::Error(e) => {
                        return StreamStep::Fail(e.clone());
                    },
                };
                self.finish_reason = Some(reason);
                return StreamStep::Stop;
            },
            DecoderEventPayload::TurnStart { model: _ } => {},
        }
        StreamStep::Continue
    }

    fn on_events(
        &mut self,
        turn_id: u64,
        events: &Vec<Result<DecoderEvent, ClientError>>,
    ) -> (r: (Vec<SessionEvent>, StreamStep))
        ensures
            (Replying { reply: final(self)@, sent: views(r.0@), step: r.1@ }) == (Replying {
                reply: old(self)@,
                sent: Seq::empty(),
                step: StepView::Continue,
            }).events(turn_id, outcomes(events@)),
    {
        let ghost all = outcomes(events@);
        let ghost start = Replying {
            reply: self@,
            sent: Seq::empty(),
            step: StepView::Continue,
        };
        let mut sent: Vec<SessionEvent> = Vec::new();
        let mut step: StreamStep = StreamStep::Continue;
        let mut going: bool = true;
        let mut k: usize = 0;
        assert(views(sent@) =~= Seq::<SessionEventView>::empty());
        assert(all.take(0) =~= Seq::<Result<EventView, ErrorView>>::empty());
        while going && k < events.len()
            invariant
                k <= events@.len(),
                all == outcomes(events@),
                (Replying { reply: self@, sent: views(sent@), step: step@ }) == start.events(
                    turn_id,
                    all.take(k as int),
                ),
                going == (step@ == StepView::Continue),
            decreases events@.len() - k,
        {
            assert(all.take(k + 1).drop_last() =~= all.take(k as int));
            step = self.on_event(turn_id, &events[k], &mut sent);
            going =
            match &step {
                StreamStep::Continue => true,
                _ => false,
            };
            k = k + 1;
        }
        proof {
            lemma_events_after_halt(start, turn_id, all, k as int);
        }
        (sent, step)
    }

    /// What the turn gives.
    pub fn finish(self) -> (r: TurnOutput)
        ensures
            r@ == self@.output(),
    {
        let tool_calls: Option<Vec<ToolCall>> = if self.tool_calls.len() == 0 {
            None
        } else {
            Some(self.tool_calls)
        };
        TurnOutput {
            content: self.content,
            reasoning: self.reasoning,
            tool_calls,
            finish_reason: self.finish_reason,
            status: self.status,
            usage: None,
        }
    }
}

/// Events after the end of an answer change nothing.
proof fn lemma_events_after_halt(
    x: Replying,
    turn_id: u64,
    es: Seq<Result<EventView, ErrorView>>,
    k: int,
)
    requires
        0 <= k <= es.len(),
        k == es.len() || x.events(turn_id, es.take(k)).step != StepView::Continue,
    ensures
        x.events(turn_id, es) == x.events(turn_id, es.take(k)),
    decreases es.len() - k,
{
    if k == es.len() {
        assert(es.take(k) =~= es);
    } else {
        assert(es.take(k + 1).drop_last() =~= es.take(k));
        lemma_events_after_halt(x, turn_id, es, k + 1);
    }
}

/// What an answer that came in one piece gives.
pub open spec fn whole_output(c: ChoiceView, usage: Option<Usage>) -> OutputView {
    OutputView {
        content: text_or_empty(c.message.content),
        reasoning: text_or_empty(c.message.reasoning_content),
        tool_calls: if c.message.calls_tools() {
            c.message.tool_calls
        } else {
            None
        },
        finish_reason: Some(c.finish_reason),
        status: StatusView::Completed,
        usage,
    }
}

/// The calls of an answer that came in one piece.
pub open spec fn whole_calls(c: ChoiceView) -> Seq<ToolCallView> {
    match c.message.tool_calls {
        Some(calls) => calls,
        None => Seq::empty(),
    }
}

/// The events for a content and a thought that came in one piece.
pub open spec fn whole_texts(c: ChoiceView) -> Seq<SessionEventView> {
    let thought = text_or_empty(c.message.reasoning_content);
    let content = text_or_empty(c.message.content);
    let a = if thought.len() == 0 {
        Seq::empty()
    } else {
        seq![SessionEventView::ReasoningDelta(thought)]
    };
    if content.len() == 0 {
        a
    } else {
        a.push(SessionEventView::ContentDelta(content))
    }
}

/// Tells of a content and a thought that came in one piece.
pub fn push_whole_texts(sent: &mut Vec<SessionEvent>, choice: &Choice)
    ensures
        views(final(sent)@) == views(old(sent)@) + whole_texts(choice@),
{
    let ghost before = views(sent@);
    let reasoning: String = text_or_default(&choice.message.reasoning_content);
    let content: String = text_or_default(&choice.message.content);
    if !reasoning.as_str().is_empty() {
        push_event(sent, SessionEvent::ReasoningDelta(reasoning));
    }
    if !content.as_str().is_empty() {
        push_event(sent, SessionEvent::ContentDelta(content));
    }
    assert(views(sent@) =~= before + whole_texts(choice@));
}

/// Tells of the calls of an answer that came in one piece.
pub fn push_whole_calls(sent: &mut Vec<SessionEvent>, choice: &Choice)
    ensures
        views(final(sent)@) == views(old(sent)@) + call_events(whole_calls(choice@)),
{
    let ghost before = views(sent@);
    match &choice.message.tool_calls {
        Some(calls) => {
            push_call_events(sent, calls);
        },
        None => {},
    }
    assert(views(sent@) =~= before + call_events(whole_calls(choice@)));
}

/// What an answer that came in one piece gives.
pub fn whole_turn(choice: &Choice, usage: Option<Usage>) -> (r: TurnOutput)
    ensures
        r@ == whole_output(choice@, usage),
{
    let tool_calls: Option<Vec<ToolCall>> = match &choice.message.tool_calls {
        Some(calls) => if calls.len() > 0 {
            Some(duplicate_all(calls))
        } else {
            None
        },
        None => None,
    };
    TurnOutput {
        content: text_or_default(&choice.message.content),
        reasoning: text_or_default(&choice.message.reasoning_content),
        tool_calls,
        finish_reason: Some(choice.finish_reason.clone()),
        status: TurnStatus::Completed,
        usage,
    }
}

impl AIChatSession {
    /// A session without a conversation.
    pub fn new() -> (r: AIChatSession)
        ensures
            r@ == (SessionView {
                conversation: RequestView::blank(),
                decoder: DecoderView::fresh(0),
                turn_id: 0,
                event_buffer: 256,
                base_url: Seq::empty(),
                api_key: Seq::empty(),
            }),
    {
        AIChatSession {
            conversation: ChatRequest::default(),
            decoder: StreamDecoder::default(),
            turn_id: 0,
            event_buffer: 256,
            base_url: String::new(),
            api_key: String::new(),
        }
    }

    /// With the address of the service and the key to it.
    pub fn set_api(self, base_url: &str, api_key: &str) -> (r: AIChatSession)
        ensures
            r@ == (SessionView { base_url: base_url@, api_key: api_key@, ..self@ }),
    {
        let mut s: AIChatSession = self;
        s.base_url = base_url.to_owned();
        s.api_key = api_key.to_owned();
        s
    }

    /// With another conversation.
    pub fn load_conversation(self, data: ChatRequest) -> (r: AIChatSession)
        ensures
            r@ == self@.with(data@),
    {
        let mut s: AIChatSession = self;
        s.conversation = data;
        s
    }

    /// The conversation.
    pub fn get_conversation(&self) -> (r: ChatRequest)
        ensures
            r@ == self@.conversation,
    {
        self.conversation.clone()
    }

    /// The conversation.
    pub fn get_current_conversation(&self) -> (r: ChatRequest)
        ensures
            r@ == self@.conversation,
    {
        self.conversation.clone()
    }

    /// With what a mode declares: its request, its prompts as instructions, and its tools.
    pub fn load_sense(
        self,
        request: Option<ChatRequest>,
        prompts: Option<Vec<String>>,
        tools: Option<Vec<Json>>,
    ) -> (r: AIChatSession)
        ensures
            r@ == self@.with(
                sensed(
                    self@.conversation,
                    view_opt(request),
                    views_opt(prompts),
                    views_opt(tools),
                ),
            ),
    {
        let mut s: AIChatSession = self;
        match request {
            Some(data) => {
                s.conversation = data;
            },
            None => {},
        }
        let ghost base = s.conversation@;
        match &prompts {
            Some(list) => {
                let ghost all = views(list@);
                let mut i: usize = 0;
                assert(base.messages + prompt_messages(all).take(0) =~= base.messages);
                while i < list.len()
                    invariant
                        i <= list@.len(),
                        all == views(list@),
                        s@ == self@.with(
                            base.with_messages(
                                base.messages + prompt_messages(all).take(i as int),
                            ),
                        ),
                    decreases list@.len() - i,
                {
                    s.add_message(Message::system(list[i].as_str()));
                    assert(all[i as int] == list@[i as int]@);
                    i = i + 1;
                    assert(s@.conversation.messages =~= base.messages + prompt_messages(all).take(
                        i as int,
                    ));
                }
                assert(prompt_messages(all).take(i as int) =~= prompt_messages(all));
            },
            None => {
                assert(base.messages + prompt_messages(Seq::empty()) =~= base.messages);
            },
        }
        s.conversation.tools = tools;
        s
    }

    pub fn set_model(self, model: &str) -> (r: AIChatSession)
        ensures
            r@ == self@.with(RequestView { model: model@, ..self@.conversation }),
    {
        let mut s: AIChatSession = self;
        s.conversation.model = model.to_owned();
        s
    }

    pub fn set_temperature(self, temp: Real) -> (r: AIChatSession)
        ensures
            r@ == self@.with(RequestView { temperature: Some(temp), ..self@.conversation }),
    {
        let mut s: AIChatSession = self;
        s.conversation.temperature = Some(temp);
        s
    }

    pub fn set_stream(self, stream: bool) -> (r: AIChatSession)
        ensures
            r@ == self@.with(RequestView { stream: Some(stream), ..self@.conversation }),
    {
        let mut s: AIChatSession = self;
        s.conversation.stream = Some(stream);
        s
    }

    pub fn set_max_tokens(self, max_tokens: i64) -> (r: AIChatSession)
        ensures
            r@ == self@.with(RequestView { max_tokens: Some(max_tokens), ..self@.conversation }),
    {
        let mut s: AIChatSession = self;
        s.conversation.max_tokens = Some(max_tokens);
        s
    }

    pub fn set_top_p(self, top_p: Real) -> (r: AIChatSession)
        ensures
            r@ == self@.with(RequestView { top_p: Some(top_p), ..self@.conversation }),
    {
        let mut s: AIChatSession = self;
        s.conversation.top_p = Some(top_p);
        s
    }

    pub fn set_presence_penalty(self, presence_penalty: Real) -> (r: AIChatSession)
        ensures
            r@ == self@.with(
                RequestView { presence_penalty: Some(presence_penalty), ..self@.conversation },
            ),
    {
        let mut s: AIChatSession = self;
        s.conversation.presence_penalty = Some(presence_penalty);
        s
    }

    pub fn set_frequency_penalty(self, frequency_penalty: Real) -> (r: AIChatSession)
        ensures
            r@ == self@.with(
                RequestView { frequency_penalty: Some(frequency_penalty), ..self@.conversation },
            ),
    {
        let mut s: AIChatSession = self;
        s.conversation.frequency_penalty = Some(frequency_penalty);
        s
    }

    /// With thinking switched on or off.
    pub fn set_thinking(self, thinking: bool) -> (r: AIChatSession)
        ensures
            r@ == self@.with(
                RequestView {
                    thinking: Some(
                        if thinking {
                            "enabled"@
                        } else {
                            "disabled"@
                        },
                    ),
                    ..self@.conversation
                },
            ),
    {
        let mut s: AIChatSession = self;
        s.conversation.thinking =
        Some(
            if thinking {
                ThinkingType::enabled()
            } else {
                ThinkingType::disabled()
            },
        );
        s
    }

    /// Adds a message to the conversation.
    pub fn add_message(&mut self, message: Message)
        ensures
            final(self)@ == old(self)@.saying(message@),
    {
        proof {
            lemma_views_push(self.conversation.messages@, message);
        }
        self.conversation.messages.push(message);
    }

    /// Whether the user is to speak next.
    pub fn should_wait_for_user(&self) -> (r: bool)
        ensures
            r == self@.waits_for_user(),
    {
        let n: usize = self.conversation.messages.len();
        if n == 0 {
            return true;
        }
        assert(self@.conversation.messages.last() == self.conversation.messages@[n - 1]@);
        same_text(self.conversation.messages[n - 1].role.as_str(), "assistant")
    }

    /// Takes in what the user said.
    pub fn take_input(&mut self, input: &str)
        ensures
            final(self)@ == old(self)@.saying(MessageView::plain("user"@, input@)),
    {
        self.add_message(Message::user(input));
    }

    /// Begins a turn: gives it a number and tells of it.
    pub fn begin_turn(&mut self) -> (r: SessionEvent)
        ensures
            final(self)@ == (SessionView { turn_id: next_turn(old(self)@.turn_id), ..old(self)@ }),
            r@ == (SessionEventView::TurnBegin {
                turn_id: next_turn(old(self)@.turn_id),
                node_id: 0,
            }),
    {
        self.turn_id = self.turn_id.wrapping_add(1);
        SessionEvent::TurnBegin { turn_id: self.turn_id, node_id: 0 }
    }

    /// Whether the answer is to come as a stream.
    pub fn streams(&self) -> (r: bool)
        ensures
            r == (self@.conversation.stream == Some(true)),
    {
        match self.conversation.stream {
            Some(stream) => stream,
            None => false,
        }
    }

    /// Prepares the decoder for the answer of this turn.
    pub fn begin_stream(&mut self) -> (r: StreamReply)
        ensures
            final(self)@ == (SessionView {
                decoder: DecoderView::fresh(old(self)@.turn_id),
                ..old(self)@
            }),
            r@ == ReplyView::begun(),
    {
        self.decoder.begin_turn(self.turn_id);
        StreamReply::new()
    }

    /// Takes in a line of a streamed answer. `parsed` is what the text of the line was read as.
    pub fn handle_stream_line(
        &mut self,
        reply: &mut StreamReply,
        line: &str,
        parsed: Result<ChatResponseStream, String>,
    ) -> (r: (Vec<SessionEvent>, StreamStep))
        ensures
            ({
                let d = decoded(old(self)@.decoder, line@, reading(parsed));
                let x = Replying {
                    reply: old(reply)@,
                    sent: Seq::empty(),
                    step: StepView::Continue,
                }.events(old(self)@.turn_id, d.out);
                &&& final(self)@ == (SessionView { decoder: d.state, ..old(self)@ })
                &&& final(reply)@ == x.reply
                &&& views(r.0@) == x.sent
                &&& r.1@ == x.step
            }),
    {
        let events: Vec<Result<DecoderEvent, ClientError>> = self.decoder.decode(line, parsed);
        reply.on_events(self.turn_id, &events)
    }

    /// Takes in an answer that came in one piece: tells of its calls, its thoughts and its content,
    /// and gives what the turn gives.
    pub fn handle_non_stream(&self, response: &ChatResponse) -> (r: (Vec<SessionEvent>, TurnOutput))
        requires
            response.choices@.len() > 0,
        ensures
            views(r.0@) == call_events(whole_calls(response.choices@[0]@)) + whole_texts(
                response.choices@[0]@,
            ),
            r.1@ == whole_output(response.choices@[0]@, None),
    {
        let choice: &Choice = &response.choices[0];
        let mut sent: Vec<SessionEvent> = Vec::new();
        assert(views(sent@) =~= Seq::<SessionEventView>::empty());
        push_whole_calls(&mut sent, choice);
        push_whole_texts(&mut sent, choice);
        assert(views(sent@) =~= call_events(whole_calls(choice@)) + whole_texts(choice@));
        (sent, whole_turn(choice, None))
    }

    /// Records what a turn gave, and says what comes next.
    pub fn finish_turn(&mut self, output: TurnOutput) -> (r: AfterTurn)
        ensures
            final(self)@ == old(self)@.saying(answer(output@)),
            r@ == after_turn(output@),
    {
        self.add_message(answer_message(&output));
        let wants_tools: bool = match &output.finish_reason {
            Some(reason) => same_text(reason.as_str(), "tool_calls"),
            None => false,
        };
        match output.tool_calls {
            Some(calls) => if wants_tools {
                AfterTurn::RunTools(calls)
            } else {
                AfterTurn::End(output.status)
            },
            None => AfterTurn::End(output.status),
        }
    }

    /// Records what a tool gave, and tells of it.
    pub fn record_tool_result(&mut self, index: usize, result: Result<String, String>) -> (r:
        SessionEvent)
        ensures
            final(self)@ == old(self)@.saying(
                MessageView {
                    tool_call_id: Some(call_id(old(self)@.turn_id, index)),
                    ..MessageView::plain("tool"@, tool_text(tool_result(result)))
                },
            ),
            r@ == (SessionEventView::ToolResult {
                index,
                output: tool_text(tool_result(result)),
                is_error: result is Err,
            }),
    {
        let (output, is_error): (String, bool) = tool_output(&result);
        let id: String = synth_tool_call_id(self.turn_id, index);
        self.add_message(Message::tool(output.as_str(), id.as_str()));
        SessionEvent::ToolResult { index, output, is_error }
    }
}

/// The number of the next turn.
pub open spec fn next_turn(turn_id: u64) -> u64 {
    if turn_id == u64::MAX {
        0
    } else {
        (turn_id + 1) as u64
    }
}

/// Prompts as instructions.
pub open spec fn prompt_messages(prompts: Seq<Seq<char>>) -> Seq<MessageView> {
    Seq::new(prompts.len(), |i: int| MessageView::plain("system"@, prompts[i]))
}

/// A conversation after a mode was loaded.
pub open spec fn sensed(
    conversation: RequestView,
    request: Option<RequestView>,
    prompts: Option<Seq<Seq<char>>>,
    tools: Option<Seq<JsonView>>,
) -> RequestView {
    let base = match request {
        Some(r) => r,
        None => conversation,
    };
    RequestView {
        messages: base.messages + prompt_messages(
            match prompts {
                Some(p) => p,
                None => Seq::empty(),
            },
        ),
        tools,
        ..base
    }
}

/// After a turn that runs tools and the result of one of them, the next turn begins without the
/// user; after any other turn the user is to speak.
pub proof fn lemma_who_speaks_next(s: SessionView, o: OutputView, index: usize, text: Seq<char>)
    ensures
        s.saying(answer(o)).waits_for_user(),
        !s.saying(answer(o)).saying(
            MessageView {
                tool_call_id: Some(call_id(s.turn_id, index)),
                ..MessageView::plain("tool"@, text)
            },
        ).waits_for_user(),
        !s.saying(MessageView::plain("user"@, text)).waits_for_user(),
{
    crate::llm::types::lemma_roles();
}

/// What a turn gave is recorded whole: its texts, its thoughts and its calls, as words of the model.
pub proof fn lemma_answer_is_recorded(o: OutputView)
    ensures
        answer(o).role == "assistant"@,
        text_or_empty(answer(o).content) == o.content,
        answer(o).content is None <==> o.content.len() == 0,
        text_or_empty(answer(o).reasoning_content) == o.reasoning,
        answer(o).reasoning_content is None <==> o.reasoning.len() == 0,
        answer(o).tool_calls == o.tool_calls,
{
    assert(o.content.len() == 0 ==> o.content =~= Seq::<char>::empty());
    assert(o.reasoning.len() == 0 ==> o.reasoning =~= Seq::<char>::empty());
}

/// Tools are run exactly where the model ended for that and called some, and all that it called are;
/// any other turn ends as it ended.
pub proof fn lemma_when_tools_are_run(o: OutputView)
    ensures
        after_turn(o) is RunTools <==> o.finish_reason == Some("tool_calls"@) && o.tool_calls
            is Some,
        after_turn(o) is RunTools ==> after_turn(o)->RunTools_0 == o.tool_calls->0,
        after_turn(o) is End ==> after_turn(o)->End_0 == o.status,
{
}

/// What a tool gave reaches the model word for word, and a failure cannot be taken for a success.
pub proof fn lemma_tool_output_is_told(output: Seq<char>, error: Seq<char>)
    ensures
        tool_text(Ok(output)) == "工具执行成功: "@ + output,
        tool_text(Err(error)) == "工具执行失败: "@ + error,
        tool_text(Ok(output)) != tool_text(Err(error)),
{
    reveal_strlit("工具执行成功: ");
    reveal_strlit("工具执行失败: ");
    assert(tool_text(Ok(output))[4] == '成');
    assert(tool_text(Err(error))[4] == '失');
}

/// A tool gets the arguments that were read; where there were none, or none that could be read, it
/// gets an empty object.
pub proof fn lemma_arguments_reach_the_tool(arguments: Seq<char>, v: JsonView)
    ensures
        !is_blank(arguments) ==> arguments_of(arguments, Some(v)) == v,
        arguments_of(arguments, None) == JsonView::Object(Map::empty()),
        is_blank(arguments) ==> arguments_of(arguments, Some(v)) == JsonView::Object(Map::empty()),
{
}

/// An answer that came in one piece is taken whole and told whole: its content, its thoughts, and
/// every call in its order.
pub proof fn lemma_whole_answer_is_taken(c: ChoiceView, usage: Option<Usage>, i: int)
    ensures
        ({
            let o = whole_output(c, usage);
            let texts = whole_texts(c);
            let calls = whole_calls(c);
            &&& c.message.content is Some ==> o.content == c.message.content->0
            &&& c.message.content is None ==> o.content.len() == 0
            &&& c.message.reasoning_content is Some ==> o.reasoning
                == c.message.reasoning_content->0
            &&& c.message.reasoning_content is None ==> o.reasoning.len() == 0
            &&& o.tool_calls is Some <==> c.message.tool_calls is Some
                && c.message.tool_calls->0.len() > 0
            &&& o.tool_calls is Some ==> o.tool_calls == c.message.tool_calls
            &&& c.message.tool_calls is Some ==> calls == c.message.tool_calls->0
            &&& o.finish_reason == Some(c.finish_reason)
            &&& o.status == StatusView::Completed
            &&& o.usage == usage
            &&& o.content.len() > 0 ==> texts.len() > 0 && texts.last()
                == SessionEventView::ContentDelta(o.content)
            &&& o.reasoning.len() > 0 ==> texts.len() > 0 && texts[0]
                == SessionEventView::ReasoningDelta(o.reasoning)
            &&& texts.len() == (if o.content.len() > 0 {
                1int
            } else {
                0
            }) + (if o.reasoning.len() > 0 {
                1int
            } else {
                0
            })
            &&& call_events(calls).len() == calls.len()
            &&& 0 <= i < calls.len() ==> call_events(calls)[i] == (SessionEventView::ToolCall {
                index: calls[i].index,
                name: calls[i].name,
                arguments: calls[i].arguments,
            })
        }),
{
}

/// A streamed answer is over when the calls are complete or the end is told, and not before unless
/// something failed; how it ended is kept and told.
pub proof fn lemma_how_a_reply_ends(
    x: Replying,
    turn_id: u64,
    status: StatusView,
    told: Option<Seq<char>>,
    usage: Option<Usage>,
)
    requires
        x.step == StepView::Continue,
    ensures
        ({
            let asked = x.payload(turn_id, PayloadView::ToolCallsRequired);
            let calls = x.reply.tool_calls + x.reply.collected.calls(turn_id);
            &&& asked.step == StepView::Stop
            &&& asked.reply.tool_calls == calls
            &&& asked.reply.finish_reason == Some("tool_calls"@)
            &&& asked.sent == x.sent + call_events(calls)
            &&& asked.reply.content == x.reply.content
            &&& asked.reply.reasoning == x.reply.reasoning
        }),
        ({
            let over = x.payload(
                turn_id,
                PayloadView::TurnEnd { status, finish_reason: told, usage },
            );
            &&& over.reply.status == status
            &&& over.reply.content == x.reply.content
            &&& over.reply.reasoning == x.reply.reasoning
            &&& over.reply.tool_calls == x.reply.tool_calls
            &&& over.sent == x.sent
            &&& status is Error ==> over.step == StepView::Fail(status->Error_0)
            &&& !(status is Error) ==> over.step == StepView::Stop
            &&& status == StatusView::Completed ==> over.reply.finish_reason == Some("stop"@)
            &&& status == StatusView::Cancelled ==> over.reply.finish_reason == Some("cancelled"@)
            &&& status == StatusView::Interrupted ==> over.reply.finish_reason == Some(
                "interrupted"@,
            )
        }),
        ({
            let o = x.reply.output();
            &&& o.content == x.reply.content
            &&& o.reasoning == x.reply.reasoning
            &&& o.finish_reason == x.reply.finish_reason
            &&& o.status == x.reply.status
            &&& o.tool_calls is Some <==> x.reply.tool_calls.len() > 0
            &&& o.tool_calls is Some ==> o.tool_calls->0 == x.reply.tool_calls
        }),
{
}

/// A mode brings its request, where it has one, its prompts as instructions behind the messages of
/// it, all of them and in order, and its tools in place of any others.
pub proof fn lemma_what_a_mode_brings(
    conversation: RequestView,
    request: Option<RequestView>,
    prompts: Seq<Seq<char>>,
    tools: Option<Seq<JsonView>>,
    i: int,
)
    ensures
        ({
            let base = if request is Some {
                request->0
            } else {
                conversation
            };
            let r = sensed(conversation, request, Some(prompts), tools);
            &&& r.messages.len() == base.messages.len() + prompts.len()
            &&& r.messages.take(base.messages.len() as int) == base.messages
            &&& 0 <= i < prompts.len() ==> r.messages[base.messages.len() + i]
                == MessageView::plain("system"@, prompts[i])
            &&& r.tools == tools
            &&& r == (RequestView { messages: r.messages, tools: r.tools, ..base })
            &&& sensed(conversation, request, None, tools) == (RequestView { tools, ..base })
        }),
{
    let base = if request is Some {
        request->0
    } else {
        conversation
    };
    assert(sensed(conversation, request, Some(prompts), tools).messages.take(
        base.messages.len() as int,
    ) =~= base.messages);
    assert(base.messages + prompt_messages(Seq::empty()) =~= base.messages);
}

/// Turns are numbered one after another, from zero again behind the greatest number.
pub proof fn lemma_turns_are_numbered(turn_id: u64)
    ensures
        turn_id < u64::MAX ==> next_turn(turn_id) == turn_id + 1,
        turn_id == u64::MAX ==> next_turn(turn_id) == 0,
{
}

} // verus!
